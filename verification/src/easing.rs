//! Easing descriptions of keyframes (`"cubicBezier 0 0 0.58 1"`, `"step 1 0"`,
//! ...): the kind named by the first word, and the words that follow. The
//! numeric parameters are read by the caller's number parser, which falls
//! back to each kind's defaults.
use vstd::prelude::*;
use crate::path::{concat, flush, is_white_space, is_white_space_char, lemma_concat_push, non_white};
use crate::text::str_eq;
use crate::validation::view_strings;

verus! {

/// The kind of an easing curve.
#[derive(Debug, Clone, Copy, PartialEq, Eq, Structural)]
pub enum EasingKind {
    Linear,
    Step,
    CubicBezier,
    Bounce,
    Cyclic,
}

/// The words completed in `s`, and the word still open at its end.
pub open spec fn word_scan(s: Seq<char>) -> (Seq<Seq<char>>, Seq<char>)
    decreases s.len(),
{
    if s.len() == 0 {
        (Seq::empty(), Seq::empty())
    } else {
        let (t, cur) = word_scan(s.drop_last());
        let c = s.last();
        if is_white_space(c) {
            (flush(t, cur), Seq::empty())
        } else {
            (t, cur.push(c))
        }
    }
}

/// The words of `s`: its maximal runs of characters other than white space.
pub open spec fn words_of(s: Seq<char>) -> Seq<Seq<char>> {
    flush(word_scan(s).0, word_scan(s).1)
}

/// The easing kind a description's first word names; no word, or an unknown
/// one, names `Linear`.
pub open spec fn easing_kind_of(words: Seq<Seq<char>>) -> EasingKind {
    if words.len() == 0 {
        EasingKind::Linear
    } else if words[0] == "step"@ {
        EasingKind::Step
    } else if words[0] == "cubicBezier"@ {
        EasingKind::CubicBezier
    } else if words[0] == "bounce"@ {
        EasingKind::Bounce
    } else if words[0] == "cyclic"@ {
        EasingKind::Cyclic
    } else {
        EasingKind::Linear
    }
}

/// Cuts text into words at white space.
pub fn words(s: &str) -> (r: Vec<String>)
    ensures
        view_strings(r@) == words_of(s@),
{
    let ghost t = s@;
    let n = s.unicode_len();
    let mut out: Vec<String> = Vec::new();
    let mut start: usize = 0;
    let mut i: usize = 0;
    proof {
        assert(t.take(0) =~= Seq::<char>::empty());
        assert(view_strings(out@) =~= Seq::<Seq<char>>::empty());
        assert(t.subrange(0, 0) =~= Seq::<char>::empty());
    }
    while i < n
        invariant
            n == t.len(),
            t == s@,
            start <= i <= n,
            view_strings(out@) == word_scan(t.take(i as int)).0,
            t.subrange(start as int, i as int) == word_scan(t.take(i as int)).1,
        decreases n - i,
    {
        let c = s.get_char(i);
        proof {
            assert(t.take(i + 1).drop_last() =~= t.take(i as int));
            assert(t.take(i + 1).last() == c);
        }
        if is_white_space_char(c) {
            if start < i {
                let ghost o0 = out@;
                out.push(String::from_str(s.substring_char(start, i)));
                proof {
                    assert(view_strings(out@) =~= view_strings(o0).push(t.subrange(start as int, i as int)));
                }
            } else {
                proof {
                    assert(t.subrange(start as int, i as int).len() == 0);
                }
            }
            start = i + 1;
            proof {
                assert(t.subrange(start as int, i + 1) =~= Seq::<char>::empty());
            }
        } else {
            proof {
                assert(t.subrange(start as int, i + 1) =~= t.subrange(start as int, i as int).push(c));
            }
        }
        i = i + 1;
    }
    proof {
        assert(t.take(n as int) =~= t);
    }
    if start < n {
        let ghost o0 = out@;
        out.push(String::from_str(s.substring_char(start, n)));
        proof {
            assert(view_strings(out@) =~= view_strings(o0).push(t.subrange(start as int, n as int)));
        }
    } else {
        proof {
            assert(t.subrange(start as int, n as int).len() == 0);
        }
    }
    out
}

/// Reads an easing description: the kind named by its first word, and all
/// its words (the parameters are the words after the first).
pub fn parse_easing(s: &str) -> (r: (EasingKind, Vec<String>))
    ensures
        view_strings(r.1@) == words_of(s@),
        r.0 == easing_kind_of(words_of(s@)),
{
    let w = words(s);
    let kind = if w.len() == 0 {
        EasingKind::Linear
    } else {
        let first = w[0].as_str();
        assert(view_strings(w@)[0] == first@);
        if str_eq(first, "step") {
            EasingKind::Step
        } else if str_eq(first, "cubicBezier") {
            EasingKind::CubicBezier
        } else if str_eq(first, "bounce") {
            EasingKind::Bounce
        } else if str_eq(first, "cyclic") {
            EasingKind::Cyclic
        } else {
            EasingKind::Linear
        }
    };
    (kind, w)
}

/// The first word that names an easing kind.
pub open spec fn easing_keyword(k: EasingKind) -> Seq<char> {
    match k {
        EasingKind::Linear => "linear"@,
        EasingKind::Step => "step"@,
        EasingKind::CubicBezier => "cubicBezier"@,
        EasingKind::Bounce => "bounce"@,
        EasingKind::Cyclic => "cyclic"@,
    }
}

/// A description is read by its first word alone: starting with a kind's
/// keyword gives that kind whatever follows, distinct keywords give distinct
/// kinds, and a description without words is linear.
pub proof fn law_easing_keywords(k: EasingKind, rest: Seq<Seq<char>>)
    ensures
        easing_kind_of(seq![easing_keyword(k)] + rest) == k,
        easing_kind_of(Seq::empty()) == EasingKind::Linear,
{
    reveal_strlit("linear");
    reveal_strlit("step");
    reveal_strlit("cubicBezier");
    reveal_strlit("bounce");
    reveal_strlit("cyclic");
    let w = seq![easing_keyword(k)] + rest;
    assert(w[0] == easing_keyword(k));
    match k {
        EasingKind::Linear => {
            assert("linear"@.len() != "step"@.len());
            assert("linear"@.len() != "cubicBezier"@.len());
            assert("linear"@[0] != "bounce"@[0]);
            assert("linear"@[0] != "cyclic"@[0]);
        },
        EasingKind::Step => {},
        EasingKind::CubicBezier => {
            assert("cubicBezier"@.len() != "step"@.len());
        },
        EasingKind::Bounce => {
            assert("bounce"@.len() != "step"@.len());
            assert("bounce"@.len() != "cubicBezier"@.len());
        },
        EasingKind::Cyclic => {
            assert("cyclic"@.len() != "step"@.len());
            assert("cyclic"@.len() != "cubicBezier"@.len());
            assert("cyclic"@[0] != "bounce"@[0]);
        },
    }
}

/// Words that are well formed: not empty and without white space.
pub open spec fn words_well_formed(t: Seq<Seq<char>>) -> bool {
    &&& forall|k: int| 0 <= k < t.len() ==> (#[trigger] t[k]).len() > 0
    &&& forall|k: int, i: int| 0 <= k < t.len() && 0 <= i < t[k].len() ==> !is_white_space(#[trigger] t[k][i])
}

proof fn lemma_flush_words(t: Seq<Seq<char>>, cur: Seq<char>)
    requires
        words_well_formed(t),
        forall|i: int| 0 <= i < cur.len() ==> !is_white_space(#[trigger] cur[i]),
    ensures
        words_well_formed(flush(t, cur)),
        concat(flush(t, cur)) == concat(t) + cur,
{
    if cur.len() > 0 {
        lemma_concat_push(t, cur);
        let f = t.push(cur);
        assert forall|k: int, i: int| 0 <= k < f.len() && 0 <= i < f[k].len() implies !is_white_space(#[trigger] f[k][i]) by {
            if k < t.len() {
                assert(f[k] == t[k]);
            }
        }
    } else {
        assert(concat(t) + cur =~= concat(t));
    }
}

proof fn lemma_word_scan_shape(s: Seq<char>)
    ensures
        words_well_formed(word_scan(s).0),
        forall|i: int| 0 <= i < word_scan(s).1.len() ==> !is_white_space(#[trigger] word_scan(s).1[i]),
        concat(word_scan(s).0) + word_scan(s).1 == non_white(s),
    decreases s.len(),
{
    broadcast use Seq::lemma_filter_push;
    if s.len() == 0 {
        assert(non_white(s) =~= Seq::<char>::empty());
        assert(concat(Seq::<Seq<char>>::empty()) + Seq::<char>::empty() =~= Seq::<char>::empty());
    } else {
        let s0 = s.drop_last();
        let c = s.last();
        assert(s0.push(c) =~= s);
        lemma_word_scan_shape(s0);
        let (t0, cur0) = word_scan(s0);
        lemma_flush_words(t0, cur0);
        let p = |x: char| !is_white_space(x);
        assert(non_white(s) == if p(c) { non_white(s0).push(c) } else { non_white(s0) });
        if is_white_space(c) {
            assert(concat(flush(t0, cur0)) + Seq::<char>::empty() =~= concat(flush(t0, cur0)));
        } else {
            assert(concat(t0) + cur0.push(c) =~= (concat(t0) + cur0).push(c));
        }
    }
}

/// Cutting into words only cuts: the words, put back together, are the text
/// without its white space, and no word is empty or holds white space.
pub proof fn law_words_cut_only(s: Seq<char>)
    ensures
        concat(words_of(s)) == non_white(s),
        words_well_formed(words_of(s)),
{
    lemma_word_scan_shape(s);
    lemma_flush_words(word_scan(s).0, word_scan(s).1);
}

} // verus!
