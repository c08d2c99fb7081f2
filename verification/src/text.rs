//! Character-level string helpers shared by the parsers and the validator.
use vstd::prelude::*;
use vstd::utf8::*;
use vstd::string::StringSliceAdditionalSpecFns;

verus! {

/// The part of `s` after its last `.`; all of `s` when it holds no `.`.
pub open spec fn after_last_dot(s: Seq<char>) -> Seq<char>
    decreases s.len(),
{
    if s.len() == 0 {
        s
    } else if s.last() == '.' {
        Seq::empty()
    } else {
        after_last_dot(s.drop_last()).push(s.last())
    }
}

proof fn lemma_after_last_dot(s: Seq<char>, j: int)
    requires
        -1 <= j < s.len(),
        j >= 0 ==> s[j] == '.',
        forall|k: int| j < k < s.len() ==> s[k] != '.',
    ensures
        after_last_dot(s) == s.subrange(j + 1, s.len() as int),
    decreases s.len(),
{
    if s.len() == 0 {
        assert(s.subrange(0, 0) =~= s);
    } else if j == s.len() - 1 {
        assert(s.subrange(j + 1, s.len() as int) =~= Seq::<char>::empty());
    } else {
        lemma_after_last_dot(s.drop_last(), j);
        assert(s.drop_last().subrange(j + 1, s.len() - 1).push(s.last()) =~= s.subrange(
            j + 1,
            s.len() as int,
        ));
    }
}

/// Returns the text of `s` after its last `.`, or all of `s` when it has no `.`
/// (the last item of `s.rsplit('.')`).
pub fn after_last_dot_of(s: &str) -> (r: String)
    ensures
        r@ == after_last_dot(s@),
{
    let n = s.unicode_len();
    let mut i: usize = n;
    let mut found = false;
    while i > 0 && !found
        invariant
            i <= n,
            n == s@.len(),
            found ==> i > 0 && s@[i - 1] == '.',
            forall|k: int| i <= k < n ==> s@[k] != '.',
        decreases i, (if found { 0int } else { 1int }),
    {
        if s.get_char(i - 1) == '.' {
            found = true;
        } else {
            i = i - 1;
        }
    }
    proof {
        lemma_after_last_dot(s@, i as int - 1);
    }
    let tail = s.substring_char(i, n);
    String::from_str(tail)
}

/// The label taken from an id holds no `.` and is how the id ends.
pub proof fn law_label_after_last_dot(s: Seq<char>)
    ensures
        !after_last_dot(s).contains('.'),
        after_last_dot(s).len() <= s.len(),
        after_last_dot(s) == s.subrange(s.len() - after_last_dot(s).len(), s.len() as int),
    decreases s.len(),
{
    if s.len() == 0 {
        assert(s.subrange(0, 0) =~= s);
    } else if s.last() == '.' {
        assert(s.subrange(s.len() as int, s.len() as int) =~= Seq::<char>::empty());
    } else {
        let p = s.drop_last();
        law_label_after_last_dot(p);
        let a = after_last_dot(p);
        assert(after_last_dot(s) == a.push(s.last()));
        assert(a.push(s.last()) =~= s.subrange(s.len() - a.len() - 1, s.len() as int)) by {
            assert(a =~= p.subrange(p.len() - a.len(), p.len() as int));
        }
        assert forall|k: int| 0 <= k < a.len() + 1 implies a.push(s.last())[k] != '.' by {
            if k < a.len() {
                assert(a.push(s.last())[k] == a[k]);
            }
        }
    }
}

/// Whether two strings hold the same characters.
pub fn str_eq(a: &str, b: &str) -> (r: bool)
    ensures
        r == (a@ == b@),
{
    let sa = a.to_owned();
    let sb = b.to_owned();
    sa == sb
}

/// The byte count at which `truncate_string` cuts a text longer than `max_len`
/// bytes: room is left for the three dots.
pub open spec fn cut_len(max_len: usize) -> int {
    if max_len >= 3 {
        max_len - 3
    } else {
        0
    }
}

/// Shortens `s` for display: a text of at most `max_len` bytes is kept; a
/// longer one keeps its first `max_len - 3` bytes (none when `max_len < 3`)
/// followed by `...`. The cut must fall between two characters.
pub fn truncate_string(s: &str, max_len: usize) -> (r: String)
    requires
        s.spec_bytes().len() > max_len ==> is_char_boundary(s.spec_bytes(), cut_len(max_len)),
    ensures
        s.spec_bytes().len() <= max_len ==> r@ == s@,
        s.spec_bytes().len() > max_len ==> r@ == decode_utf8(
            s.spec_bytes().subrange(0, cut_len(max_len)),
        ) + seq!['.', '.', '.'],
{
    let n = s.as_bytes().len();
    if n <= max_len {
        String::from_str(s)
    } else {
        let cut: usize = if max_len >= 3 {
            max_len - 3
        } else {
            0
        };
        let (head, _tail) = s.split_at(cut);
        let mut r = String::from_str(head);
        r.append("...");
        proof {
            reveal_strlit("...");
            assert("..."@ =~= seq!['.', '.', '.']);
            encode_utf8_decode_utf8(head@);
            assert(head.spec_bytes() == encode_utf8(head@));
            assert(head.spec_bytes() =~= s.spec_bytes().subrange(0, cut as int));
            assert(decode_utf8(s.spec_bytes().subrange(0, cut_len(max_len))) == head@);
            assert(r@ == head@ + "..."@);
            assert(s.spec_bytes().len() > max_len);
        }
        r
    }
}

} // verus!
