//! Comma-separated vector values (`"x, y"` or `"x,y,z"`): the text is cut at
//! commas and each field is trimmed of white space. Reading the fields as
//! numbers is left to the caller's number parser.
use vstd::prelude::*;
use crate::path::{is_white_space, is_white_space_char};
use crate::validation::view_strings;

verus! {

/// The fields of `s` between commas (one empty field for empty text).
pub open spec fn split_commas(s: Seq<char>) -> Seq<Seq<char>>
    decreases s.len(),
{
    if s.len() == 0 {
        seq![Seq::empty()]
    } else {
        let p = split_commas(s.drop_last());
        if s.last() == ',' {
            p.push(Seq::empty())
        } else {
            p.update(p.len() - 1, p.last().push(s.last()))
        }
    }
}

/// `s` without its leading white space.
pub open spec fn trim_start(s: Seq<char>) -> Seq<char>
    decreases s.len(),
{
    if s.len() > 0 && is_white_space(s[0]) {
        trim_start(s.drop_first())
    } else {
        s
    }
}

/// `s` without its trailing white space.
pub open spec fn trim_end(s: Seq<char>) -> Seq<char>
    decreases s.len(),
{
    if s.len() > 0 && is_white_space(s.last()) {
        trim_end(s.drop_last())
    } else {
        s
    }
}

/// `s` without leading and trailing white space.
pub open spec fn trim(s: Seq<char>) -> Seq<char> {
    trim_end(trim_start(s))
}

/// The trimmed fields of `s`.
pub open spec fn trimmed_fields(s: Seq<char>) -> Seq<Seq<char>> {
    split_commas(s).map_values(|f: Seq<char>| trim(f))
}

/// The fields a vector of `dims` components is read from: none for empty
/// text, else the first `dims` trimmed fields (fewer when the text has fewer).
pub open spec fn vec_fields_of(s: Seq<char>, dims: nat) -> Option<Seq<Seq<char>>> {
    if s.len() == 0 {
        None
    } else {
        let f = trimmed_fields(s);
        Some(
            if f.len() >= dims {
                f.take(dims as int)
            } else {
                f
            },
        )
    }
}

proof fn lemma_trim_start(s: Seq<char>, a: int)
    requires
        0 <= a <= s.len(),
        forall|k: int| 0 <= k < a ==> is_white_space(s[k]),
        a == s.len() || !is_white_space(s[a]),
    ensures
        trim_start(s) == s.subrange(a, s.len() as int),
    decreases a,
{
    if a == 0 {
        assert(s.subrange(0, s.len() as int) =~= s);
    } else {
        assert forall|k: int| 0 <= k < a - 1 implies is_white_space(s.drop_first()[k]) by {
            assert(s.drop_first()[k] == s[k + 1]);
        }
        if a < s.len() {
            assert(s.drop_first()[a - 1] == s[a]);
        }
        lemma_trim_start(s.drop_first(), a - 1);
        assert(s.drop_first().subrange(a - 1, s.len() - 1) =~= s.subrange(a, s.len() as int));
    }
}

proof fn lemma_trim_end(s: Seq<char>, b: int)
    requires
        0 <= b <= s.len(),
        forall|k: int| b <= k < s.len() ==> is_white_space(s[k]),
        b == 0 || !is_white_space(s[b - 1]),
    ensures
        trim_end(s) == s.subrange(0, b),
    decreases s.len() - b,
{
    if b == s.len() {
        assert(s.subrange(0, b) =~= s);
    } else {
        lemma_trim_end(s.drop_last(), b);
        assert(s.drop_last().subrange(0, b) =~= s.subrange(0, b));
    }
}

/// The text of `s` between character positions `from` and `to`, trimmed.
fn trimmed_part(s: &str, from: usize, to: usize) -> (r: String)
    requires
        from <= to <= s@.len(),
    ensures
        r@ == trim(s@.subrange(from as int, to as int)),
{
    let ghost part = s@.subrange(from as int, to as int);
    let mut a: usize = from;
    while a < to && is_white_space_at(s, a)
        invariant
            from <= a <= to,
            to <= s@.len(),
            forall|k: int| from <= k < a ==> is_white_space(s@[k]),
        decreases to - a,
    {
        a = a + 1;
    }
    let mut b: usize = to;
    while b > a && is_white_space_at(s, b - 1)
        invariant
            from <= a <= b <= to,
            to <= s@.len(),
            forall|k: int| b <= k < to ==> is_white_space(s@[k]),
        decreases b - a,
    {
        b = b - 1;
    }
    proof {
        lemma_trim_start(part, a - from);
        let rest = part.subrange(a - from, part.len() as int);
        assert(rest =~= s@.subrange(a as int, to as int));
        if b > a {
            assert(!is_white_space(rest[b - a - 1]));
        } else {
            assert forall|k: int| 0 <= k < rest.len() implies is_white_space(rest[k]) by {
                assert(rest[k] == s@[a + k]);
            }
        }
        assert forall|k: int| b - a <= k < rest.len() implies is_white_space(rest[k]) by {
            assert(rest[k] == s@[a + k]);
        }
        lemma_trim_end(rest, b - a);
        assert(rest.subrange(0, b - a) =~= s@.subrange(a as int, b as int));
    }
    String::from_str(s.substring_char(a, b))
}

fn is_white_space_at(s: &str, i: usize) -> (r: bool)
    requires
        i < s@.len(),
    ensures
        r == is_white_space(s@[i as int]),
{
    is_white_space_char(s.get_char(i))
}

/// The comma-separated fields of `s`, each trimmed of white space.
pub fn trimmed_fields_of(s: &str) -> (r: Vec<String>)
    ensures
        view_strings(r@) == trimmed_fields(s@),
{
    let ghost t = s@;
    let n = s.unicode_len();
    let mut out: Vec<String> = Vec::new();
    let mut start: usize = 0;
    let mut i: usize = 0;
    proof {
        assert(t.take(0) =~= Seq::<char>::empty());
        assert(view_strings(out@) =~= Seq::<Seq<char>>::empty());
    }
    while i < n
        invariant
            n == t.len(),
            t == s@,
            start <= i <= n,
            split_commas(t.take(i as int)).len() == out@.len() + 1,
            forall|k: int| 0 <= k < out@.len() ==> (#[trigger] view_strings(out@)[k]) == trim(split_commas(t.take(i as int))[k]),
            split_commas(t.take(i as int)).last() == t.subrange(start as int, i as int),
        decreases n - i,
    {
        let c = s.get_char(i);
        let ghost p = split_commas(t.take(i as int));
        proof {
            assert(t.take(i + 1).drop_last() =~= t.take(i as int));
            assert(t.take(i + 1).last() == c);
        }
        if c == ',' {
            let ghost o0 = out@;
            let f = trimmed_part(s, start, i);
            out.push(f);
            start = i + 1;
            proof {
                let q = split_commas(t.take(i + 1));
                assert(q == p.push(Seq::empty()));
                assert forall|k: int| 0 <= k < out@.len() implies (#[trigger] view_strings(out@)[k]) == trim(q[k]) by {
                    if k < o0.len() {
                        assert(out@[k] == o0[k]);
                        assert(view_strings(o0)[k] == trim(p[k]));
                    } else {
                        assert(p[k] == p.last());
                    }
                }
                assert(t.subrange(start as int, i + 1) =~= Seq::<char>::empty());
            }
        } else {
            proof {
                let q = split_commas(t.take(i + 1));
                assert(q == p.update(p.len() - 1, p.last().push(c)));
                assert(t.subrange(start as int, i + 1) =~= t.subrange(start as int, i as int).push(c));
                assert forall|k: int| 0 <= k < out@.len() implies (#[trigger] view_strings(out@)[k]) == trim(q[k]) by {
                    assert(q[k] == p[k]);
                }
            }
        }
        i = i + 1;
    }
    let ghost o0 = out@;
    let last = trimmed_part(s, start, n);
    out.push(last);
    proof {
        assert(t.take(n as int) =~= t);
        let q = split_commas(t);
        assert forall|k: int| 0 <= k < out@.len() implies (#[trigger] view_strings(out@)[k]) == trimmed_fields(t)[k] by {
            if k < o0.len() {
                assert(out@[k] == o0[k]);
                assert(view_strings(o0)[k] == trim(q[k]));
            } else {
                assert(q[k] == q.last());
            }
        }
        assert(view_strings(out@) =~= trimmed_fields(t));
    }
    out
}

/// The fields a vector value of `dims` components is read from: `None` for
/// empty text, else its first `dims` trimmed fields, or all of them when it
/// has fewer.
pub fn vec_fields(s: &str, dims: usize) -> (r: Option<Vec<String>>)
    ensures
        match r {
            None => vec_fields_of(s@, dims as nat) is None,
            Some(v) => vec_fields_of(s@, dims as nat) == Some(view_strings(v@)),
        },
{
    if s.unicode_len() == 0 {
        return None;
    }
    let mut all = trimmed_fields_of(s);
    if all.len() >= dims {
        all.truncate(dims);
        proof {
            assert(view_strings(all@) =~= trimmed_fields(s@).take(dims as int));
        }
    }
    Some(all)
}

/// The field component `c` of a `dims`-component vector is read from, when
/// the text gave `n` fields: all components come from their own field when
/// there are enough, a single field fills every component, and otherwise the
/// components without a field are zero (`None`).
pub open spec fn component_source(n: nat, dims: nat, c: nat) -> Option<nat> {
    if n >= dims {
        Some(c)
    } else if n == 1 {
        Some(0)
    } else if c < n {
        Some(c)
    } else {
        None
    }
}

/// For each of the `dims` components of a vector read from `n_fields`
/// fields, the field it takes, or `None` for a zero component.
pub fn vec_layout(n_fields: usize, dims: usize) -> (r: Vec<Option<usize>>)
    ensures
        r@.len() == dims,
        forall|c: int| 0 <= c < dims ==> match #[trigger] r@[c] {
            Some(i) => component_source(n_fields as nat, dims as nat, c as nat) == Some(i as nat),
            None => component_source(n_fields as nat, dims as nat, c as nat) is None,
        },
{
    let mut r: Vec<Option<usize>> = Vec::new();
    let mut c: usize = 0;
    while c < dims
        invariant
            c <= dims,
            r@.len() == c,
            forall|k: int| 0 <= k < c ==> match #[trigger] r@[k] {
                Some(i) => component_source(n_fields as nat, dims as nat, k as nat) == Some(i as nat),
                None => component_source(n_fields as nat, dims as nat, k as nat) is None,
            },
        decreases dims - c,
    {
        let src = if n_fields >= dims {
            Some(c)
        } else if n_fields == 1 {
            Some(0)
        } else if c < n_fields {
            Some(c)
        } else {
            None
        };
        r.push(src);
        c = c + 1;
    }
    r
}

/// Fields put back together with commas between them.
pub open spec fn join_commas(t: Seq<Seq<char>>) -> Seq<char>
    decreases t.len(),
{
    if t.len() == 0 {
        Seq::empty()
    } else if t.len() == 1 {
        t[0]
    } else {
        join_commas(t.drop_last()).push(',') + t.last()
    }
}

/// Cutting at commas only cuts: there is at least one field, no field holds
/// a comma, and the fields joined with commas give the text back.
pub proof fn law_split_commas_inverse(s: Seq<char>)
    ensures
        split_commas(s).len() >= 1,
        join_commas(split_commas(s)) == s,
        forall|k: int, i: int|
            0 <= k < split_commas(s).len() && 0 <= i < split_commas(s)[k].len() ==> #[trigger] split_commas(s)[k][i] != ',',
    decreases s.len(),
{
    if s.len() == 0 {
        assert(join_commas(split_commas(s)) =~= s);
    } else {
        let s0 = s.drop_last();
        let c = s.last();
        assert(s0.push(c) =~= s);
        law_split_commas_inverse(s0);
        let p = split_commas(s0);
        let q = split_commas(s);
        if c == ',' {
            assert(q == p.push(Seq::empty()));
            assert(q.drop_last() =~= p);
            assert(join_commas(q) =~= join_commas(p).push(','));
            assert forall|k: int, i: int| 0 <= k < q.len() && 0 <= i < q[k].len() implies #[trigger] q[k][i] != ',' by {
                assert(q[k] == p[k]);
            }
        } else {
            let n = p.len();
            assert(q == p.update(n - 1, p.last().push(c)));
            if n == 1 {
                assert(join_commas(q) =~= s);
            } else {
                assert(q.drop_last() =~= p.drop_last());
                assert(q.last() == p.last().push(c));
                assert(join_commas(q) =~= join_commas(p).push(c));
            }
            assert forall|k: int, i: int| 0 <= k < q.len() && 0 <= i < q[k].len() implies #[trigger] q[k][i] != ',' by {
                if k < n - 1 {
                    assert(q[k] == p[k]);
                } else {
                    assert(q[k] == p.last().push(c));
                    if i < p.last().len() {
                        assert(p[n - 1][i] != ',');
                    }
                }
            }
        }
    }
}

proof fn lemma_trim_start_at(s: Seq<char>) -> (a: int)
    ensures
        0 <= a <= s.len(),
        trim_start(s) == s.subrange(a, s.len() as int),
        forall|k: int| 0 <= k < a ==> is_white_space(#[trigger] s[k]),
        a < s.len() ==> !is_white_space(s[a]),
    decreases s.len(),
{
    if s.len() > 0 && is_white_space(s[0]) {
        let a0 = lemma_trim_start_at(s.drop_first());
        assert(s.drop_first().subrange(a0, s.len() - 1) =~= s.subrange(a0 + 1, s.len() as int));
        assert forall|k: int| 0 <= k < a0 + 1 implies is_white_space(#[trigger] s[k]) by {
            if k > 0 {
                assert(s[k] == s.drop_first()[k - 1]);
            }
        }
        if a0 + 1 < s.len() {
            assert(s[a0 + 1] == s.drop_first()[a0]);
        }
        a0 + 1
    } else {
        assert(s.subrange(0, s.len() as int) =~= s);
        0
    }
}

proof fn lemma_trim_end_at(s: Seq<char>) -> (b: int)
    ensures
        0 <= b <= s.len(),
        trim_end(s) == s.subrange(0, b),
        forall|k: int| b <= k < s.len() ==> is_white_space(#[trigger] s[k]),
        b > 0 ==> !is_white_space(s[b - 1]),
    decreases s.len(),
{
    if s.len() > 0 && is_white_space(s.last()) {
        let b0 = lemma_trim_end_at(s.drop_last());
        assert(s.drop_last().subrange(0, b0) =~= s.subrange(0, b0));
        assert forall|k: int| b0 <= k < s.len() implies is_white_space(#[trigger] s[k]) by {
            if k < s.len() - 1 {
                assert(s[k] == s.drop_last()[k]);
            }
        }
        if b0 > 0 {
            assert(s[b0 - 1] == s.drop_last()[b0 - 1]);
        }
        b0
    } else {
        assert(s.subrange(0, s.len() as int) =~= s);
        s.len() as int
    }
}

/// Trimming removes white space at both ends and nothing else: the result is
/// a stretch of the text, everything before and after it is white space, and
/// it neither starts nor ends with white space.
pub proof fn law_trim_ends_only(s: Seq<char>)
    ensures
        exists|a: int, b: int|
            0 <= a <= b <= s.len() && trim(s) == s.subrange(a, b) && (forall|k: int|
                0 <= k < a ==> is_white_space(#[trigger] s[k])) && (forall|k: int|
                b <= k < s.len() ==> is_white_space(#[trigger] s[k])),
        trim(s).len() > 0 ==> !is_white_space(trim(s)[0]) && !is_white_space(trim(s).last()),
{
    let a = lemma_trim_start_at(s);
    let t = trim_start(s);
    let b = lemma_trim_end_at(t);
    assert(trim(s) =~= s.subrange(a, a + b));
    assert forall|k: int| a + b <= k < s.len() implies is_white_space(#[trigger] s[k]) by {
        assert(s[k] == t[k - a]);
    }
    if trim(s).len() > 0 {
        assert(trim(s)[0] == t[0]);
        assert(t[0] == s[a]);
        assert(trim(s).last() == t[b - 1]);
    }
}

/// How a vector value is filled from its fields: a component reads an
/// existing field, if any; with enough fields component `c` reads field `c`;
/// a single field feeds every component; with two or more fields but too
/// few, the components past the fields are zero and the others read their
/// own field.
pub proof fn law_vector_fill(n: nat, dims: nat, c: nat)
    requires
        c < dims,
    ensures
        component_source(n, dims, c) matches Some(i) ==> i < n,
        n >= dims ==> component_source(n, dims, c) == Some(c),
        n == 1 ==> component_source(n, dims, c) == Some(0nat),
        2 <= n < dims ==> component_source(n, dims, c) == (if c < n { Some(c) } else { None }),
{
}

} // verus!
