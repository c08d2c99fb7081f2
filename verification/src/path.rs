//! Path data of free-form shapes: the text is cut into tokens (letters stand
//! alone, white space separates), and the vertices are read from the tokens:
//! a move or line command takes the two numbers after it, a bare pair of
//! numbers is a vertex too, a close command is skipped; at most 13 vertices
//! are kept.
//!
//! Whether a token reads as a number is decided by the caller's number
//! parser and handed in.
use vstd::prelude::*;
use crate::text::str_eq;
use crate::validation::view_strings;

verus! {

/// Most vertices a path keeps.
pub const MAX_PATH_VERTICES: usize = 13;

/// Unicode white space (the `White_Space` property).
pub open spec fn is_white_space(c: char) -> bool {
    let u = c as u32;
    ||| 0x9 <= u <= 0xd
    ||| u == 0x20
    ||| u == 0x85
    ||| u == 0xa0
    ||| u == 0x1680
    ||| 0x2000 <= u <= 0x200a
    ||| u == 0x2028
    ||| u == 0x2029
    ||| u == 0x202f
    ||| u == 0x205f
    ||| u == 0x3000
}

/// An ASCII letter.
pub open spec fn is_ascii_letter(c: char) -> bool {
    let u = c as u32;
    (0x41 <= u <= 0x5a) || (0x61 <= u <= 0x7a)
}

/// `t` with `cur` added when `cur` is not empty.
pub open spec fn flush(t: Seq<Seq<char>>, cur: Seq<char>) -> Seq<Seq<char>> {
    if cur.len() > 0 {
        t.push(cur)
    } else {
        t
    }
}

/// The tokens completed in `s`, and the token still open at its end.
pub open spec fn scan(s: Seq<char>) -> (Seq<Seq<char>>, Seq<char>)
    decreases s.len(),
{
    if s.len() == 0 {
        (Seq::empty(), Seq::empty())
    } else {
        let (t, cur) = scan(s.drop_last());
        let c = s.last();
        if is_white_space(c) {
            (flush(t, cur), Seq::empty())
        } else if is_ascii_letter(c) {
            (flush(t, cur).push(seq![c]), Seq::empty())
        } else {
            (t, cur.push(c))
        }
    }
}

/// The tokens of path text: every ASCII letter is a token of its own, white
/// space separates tokens, and any other run of characters is a token.
pub open spec fn path_tokens_of(s: Seq<char>) -> Seq<Seq<char>> {
    flush(scan(s).0, scan(s).1)
}

pub(crate) fn is_white_space_char(c: char) -> (r: bool)
    ensures
        r == is_white_space(c),
{
    let u = c as u32;
    (0x9 <= u && u <= 0xd) || u == 0x20 || u == 0x85 || u == 0xa0 || u == 0x1680 || (0x2000 <= u
        && u <= 0x200a) || u == 0x2028 || u == 0x2029 || u == 0x202f || u == 0x205f || u == 0x3000
}

fn is_ascii_letter_char(c: char) -> (r: bool)
    ensures
        r == is_ascii_letter(c),
{
    let u = c as u32;
    (0x41 <= u && u <= 0x5a) || (0x61 <= u && u <= 0x7a)
}

/// Cuts path text into tokens.
pub fn path_tokens(path_data: &str) -> (r: Vec<String>)
    ensures
        view_strings(r@) == path_tokens_of(path_data@),
{
    let ghost s = path_data@;
    let n = path_data.unicode_len();
    let mut toks: Vec<String> = Vec::new();
    let mut start: usize = 0;
    let mut i: usize = 0;
    proof {
        assert(s.take(0) =~= Seq::<char>::empty());
        assert(view_strings(toks@) =~= Seq::<Seq<char>>::empty());
        assert(s.subrange(0, 0) =~= Seq::<char>::empty());
    }
    while i < n
        invariant
            n == s.len(),
            s == path_data@,
            start <= i <= n,
            view_strings(toks@) == scan(s.take(i as int)).0,
            s.subrange(start as int, i as int) == scan(s.take(i as int)).1,
        decreases n - i,
    {
        let c = path_data.get_char(i);
        let ghost pre = scan(s.take(i as int));
        proof {
            assert(s.take(i + 1).drop_last() =~= s.take(i as int));
            assert(s.take(i + 1).last() == c);
        }
        let ws = is_white_space_char(c);
        let letter = is_ascii_letter_char(c);
        if ws || letter {
            let ghost t0 = toks@;
            if start < i {
                let run = String::from_str(path_data.substring_char(start, i));
                toks.push(run);
                proof {
                    assert(view_strings(toks@) =~= view_strings(t0).push(s.subrange(start as int, i as int)));
                }
            } else {
                proof {
                    assert(s.subrange(start as int, i as int).len() == 0);
                }
            }
            if letter && !ws {
                let ghost t1 = toks@;
                let one = String::from_str(path_data.substring_char(i, i + 1));
                toks.push(one);
                proof {
                    assert(s.subrange(i as int, i + 1) =~= seq![c]);
                    assert(view_strings(toks@) =~= view_strings(t1).push(seq![c]));
                }
            }
            start = i + 1;
            proof {
                assert(!(is_white_space(c) && is_ascii_letter(c)));
                assert(s.subrange(start as int, i + 1) =~= Seq::<char>::empty());
            }
        } else {
            proof {
                assert(s.subrange(start as int, i + 1) =~= s.subrange(start as int, i as int).push(c));
            }
        }
        i = i + 1;
    }
    proof {
        assert(s.take(n as int) =~= s);
    }
    if start < n {
        let ghost t0 = toks@;
        toks.push(String::from_str(path_data.substring_char(start, n)));
        proof {
            assert(view_strings(toks@) =~= view_strings(t0).push(s.subrange(start as int, n as int)));
        }
    } else {
        proof {
            assert(s.subrange(start as int, n as int).len() == 0);
        }
    }
    toks
}

/// A move or line command token.
pub open spec fn is_move_or_line(t: Seq<char>) -> bool {
    t == "M"@ || t == "L"@ || t == "m"@ || t == "l"@
}

/// A close command token.
pub open spec fn is_close(t: Seq<char>) -> bool {
    t == "Z"@ || t == "z"@
}

/// The vertices read from token `i` on, as pairs of token indices, after
/// the vertices `acc` read before it.
pub open spec fn path_pairs_from(toks: Seq<Seq<char>>, numeric: Seq<bool>, i: int, acc: Seq<(int, int)>) -> Seq<(int, int)>
    decreases toks.len() - i,
{
    if i < 0 || i >= toks.len() {
        acc
    } else if is_move_or_line(toks[i]) {
        if i + 2 >= toks.len() {
            path_pairs_from(toks, numeric, i + 1, acc)
        } else {
            let acc2 = if numeric[i + 1] && numeric[i + 2] && acc.len() < MAX_PATH_VERTICES {
                acc.push((i + 1, i + 2))
            } else {
                acc
            };
            path_pairs_from(toks, numeric, i + 3, acc2)
        }
    } else if is_close(toks[i]) {
        path_pairs_from(toks, numeric, i + 1, acc)
    } else if i + 1 >= toks.len() || !(numeric[i] && numeric[i + 1]) {
        path_pairs_from(toks, numeric, i + 1, acc)
    } else {
        let acc2 = if acc.len() < MAX_PATH_VERTICES {
            acc.push((i, i + 1))
        } else {
            acc
        };
        path_pairs_from(toks, numeric, i + 2, acc2)
    }
}

pub open spec fn pairs_view(v: Seq<(usize, usize)>) -> Seq<(int, int)> {
    v.map_values(|p: (usize, usize)| (p.0 as int, p.1 as int))
}

/// Reads the vertices of a path from its tokens; `numeric[k]` tells whether
/// token `k` reads as a number. Each vertex is given as the indices of its
/// two number tokens.
pub fn path_vertex_tokens(tokens: &Vec<String>, numeric: &Vec<bool>) -> (r: Vec<(usize, usize)>)
    requires
        numeric@.len() == tokens@.len(),
    ensures
        pairs_view(r@) == path_pairs_from(view_strings(tokens@), numeric@, 0, Seq::empty()),
{
    let ghost toks = view_strings(tokens@);
    let n = tokens.len();
    let mut out: Vec<(usize, usize)> = Vec::new();
    let mut i: usize = 0;
    proof {
        assert(pairs_view(out@) =~= Seq::<(int, int)>::empty());
    }
    while i < n
        invariant
            n == tokens@.len(),
            numeric@.len() == n,
            toks == view_strings(tokens@),
            i <= n,
            out@.len() <= MAX_PATH_VERTICES,
            path_pairs_from(toks, numeric@, 0, Seq::empty()) == path_pairs_from(
                toks,
                numeric@,
                i as int,
                pairs_view(out@),
            ),
        decreases n - i,
    {
        let t = tokens[i].as_str();
        assert(toks[i as int] == t@);
        let ghost o0 = out@;
        if str_eq(t, "M") || str_eq(t, "L") || str_eq(t, "m") || str_eq(t, "l") {
            if n - i <= 2 {
                i = i + 1;
            } else {
                if numeric[i + 1] && numeric[i + 2] && out.len() < MAX_PATH_VERTICES {
                    out.push((i + 1, i + 2));
                    proof {
                        assert(pairs_view(out@) =~= pairs_view(o0).push(((i + 1) as int, (i + 2) as int)));
                    }
                }
                i = i + 3;
            }
        } else if str_eq(t, "Z") || str_eq(t, "z") {
            i = i + 1;
        } else if n - i <= 1 || !(numeric[i] && numeric[i + 1]) {
            i = i + 1;
        } else {
            if out.len() < MAX_PATH_VERTICES {
                out.push((i, i + 1));
                proof {
                    assert(pairs_view(out@) =~= pairs_view(o0).push((i as int, (i + 1) as int)));
                }
            }
            i = i + 2;
        }
    }
    out
}

/// Vertices come from numbers: every vertex read from a path is a pair of
/// adjacent tokens that both read as numbers, the vertices are in token
/// order, and there are at most 13 of them.
pub proof fn law_path_vertices_are_numbers(toks: Seq<Seq<char>>, numeric: Seq<bool>)
    requires
        numeric.len() == toks.len(),
    ensures
        ({
            let r = path_pairs_from(toks, numeric, 0, Seq::empty());
            &&& r.len() <= MAX_PATH_VERTICES
            &&& forall|k: int| 0 <= k < r.len() ==> {
                let p = #[trigger] r[k];
                &&& 0 <= p.0 && p.1 == p.0 + 1 && p.1 < toks.len()
                &&& numeric[p.0] && numeric[p.1]
            }
            &&& forall|a: int, b: int| 0 <= a < b < r.len() ==> (#[trigger] r[a]).1 < (#[trigger] r[b]).0
        }),
{
    lemma_path_pairs_from(toks, numeric, 0, Seq::empty());
}

/// The pairs read so far are well placed.
pub open spec fn pairs_ok(toks: Seq<Seq<char>>, numeric: Seq<bool>, acc: Seq<(int, int)>, i: int) -> bool {
    &&& acc.len() <= MAX_PATH_VERTICES
    &&& forall|k: int| 0 <= k < acc.len() ==> {
        let p = #[trigger] acc[k];
        &&& 0 <= p.0 && p.1 == p.0 + 1 && p.1 < toks.len()
        &&& numeric[p.0] && numeric[p.1]
        &&& p.1 < i
    }
    &&& forall|a: int, b: int| 0 <= a < b < acc.len() ==> (#[trigger] acc[a]).1 < (#[trigger] acc[b]).0
}

proof fn lemma_path_pairs_from(toks: Seq<Seq<char>>, numeric: Seq<bool>, i: int, acc: Seq<(int, int)>)
    requires
        numeric.len() == toks.len(),
        0 <= i,
        pairs_ok(toks, numeric, acc, i),
    ensures
        pairs_ok(toks, numeric, path_pairs_from(toks, numeric, i, acc), toks.len() + 3int),
    decreases toks.len() - i,
{
    if i >= toks.len() {
        assert forall|k: int| 0 <= k < acc.len() implies (#[trigger] acc[k]).1 < toks.len() + 3 by {}
    } else if is_move_or_line(toks[i]) {
        if i + 2 >= toks.len() {
            lemma_path_pairs_from(toks, numeric, i + 1, acc);
        } else {
            let acc2 = if numeric[i + 1] && numeric[i + 2] && acc.len() < MAX_PATH_VERTICES {
                acc.push((i + 1, i + 2))
            } else {
                acc
            };
            assert(pairs_ok(toks, numeric, acc2, i + 3)) by {
                if numeric[i + 1] && numeric[i + 2] && acc.len() < MAX_PATH_VERTICES {
                    assert forall|k: int| 0 <= k < acc2.len() implies {
                        let p = #[trigger] acc2[k];
                        &&& 0 <= p.0 && p.1 == p.0 + 1 && p.1 < toks.len()
                        &&& numeric[p.0] && numeric[p.1]
                        &&& p.1 < i + 3
                    } by {
                        if k < acc.len() {
                            assert(acc2[k] == acc[k]);
                        }
                    }
                    assert forall|a: int, b: int| 0 <= a < b < acc2.len() implies (#[trigger] acc2[a]).1 < (
                    #[trigger] acc2[b]).0 by {
                        assert(acc2[a] == acc[a]);
                        if b < acc.len() {
                            assert(acc2[b] == acc[b]);
                        }
                    }
                }
            }
            lemma_path_pairs_from(toks, numeric, i + 3, acc2);
        }
    } else if is_close(toks[i]) {
        lemma_path_pairs_from(toks, numeric, i + 1, acc);
    } else if i + 1 >= toks.len() || !(numeric[i] && numeric[i + 1]) {
        lemma_path_pairs_from(toks, numeric, i + 1, acc);
    } else {
        let acc2 = if acc.len() < MAX_PATH_VERTICES {
            acc.push((i, i + 1))
        } else {
            acc
        };
        assert(pairs_ok(toks, numeric, acc2, i + 2)) by {
            if acc.len() < MAX_PATH_VERTICES {
                assert forall|k: int| 0 <= k < acc2.len() implies {
                    let p = #[trigger] acc2[k];
                    &&& 0 <= p.0 && p.1 == p.0 + 1 && p.1 < toks.len()
                    &&& numeric[p.0] && numeric[p.1]
                    &&& p.1 < i + 2
                } by {
                    if k < acc.len() {
                        assert(acc2[k] == acc[k]);
                    }
                }
                assert forall|a: int, b: int| 0 <= a < b < acc2.len() implies (#[trigger] acc2[a]).1 < (
                #[trigger] acc2[b]).0 by {
                    assert(acc2[a] == acc[a]);
                    if b < acc.len() {
                        assert(acc2[b] == acc[b]);
                    }
                }
            }
        }
        lemma_path_pairs_from(toks, numeric, i + 2, acc2);
    }
}

proof fn lemma_path_pairs_keep_prefix(toks: Seq<Seq<char>>, numeric: Seq<bool>, i: int, acc: Seq<(int, int)>)
    ensures
        path_pairs_from(toks, numeric, i, acc).len() >= acc.len(),
        forall|k: int| 0 <= k < acc.len() ==> #[trigger] path_pairs_from(toks, numeric, i, acc)[k] == acc[k],
    decreases toks.len() - i,
{
    if i < 0 || i >= toks.len() {
    } else if is_move_or_line(toks[i]) {
        if i + 2 >= toks.len() {
            lemma_path_pairs_keep_prefix(toks, numeric, i + 1, acc);
        } else {
            let acc2 = if numeric[i + 1] && numeric[i + 2] && acc.len() < MAX_PATH_VERTICES {
                acc.push((i + 1, i + 2))
            } else {
                acc
            };
            lemma_path_pairs_keep_prefix(toks, numeric, i + 3, acc2);
            assert forall|k: int| 0 <= k < acc.len() implies #[trigger] path_pairs_from(toks, numeric, i, acc)[k] == acc[k] by {
                assert(acc2[k] == acc[k]);
            }
        }
    } else if is_close(toks[i]) {
        lemma_path_pairs_keep_prefix(toks, numeric, i + 1, acc);
    } else if i + 1 >= toks.len() || !(numeric[i] && numeric[i + 1]) {
        lemma_path_pairs_keep_prefix(toks, numeric, i + 1, acc);
    } else {
        let acc2 = if acc.len() < MAX_PATH_VERTICES {
            acc.push((i, i + 1))
        } else {
            acc
        };
        lemma_path_pairs_keep_prefix(toks, numeric, i + 2, acc2);
        assert forall|k: int| 0 <= k < acc.len() implies #[trigger] path_pairs_from(toks, numeric, i, acc)[k] == acc[k] by {
            assert(acc2[k] == acc[k]);
        }
    }
}

/// A path that starts with a move or line command, upper or lower case,
/// followed by two numbers has those two numbers as its first vertex; a path
/// that starts with two numbers and no command has them as its first vertex.
pub proof fn law_path_first_vertex(toks: Seq<Seq<char>>, numeric: Seq<bool>)
    requires
        numeric.len() == toks.len(),
    ensures
        (toks[0] == "M"@ || toks[0] == "L"@ || toks[0] == "m"@ || toks[0] == "l"@) && toks.len() >= 3
            && numeric[1] && numeric[2] ==> path_pairs_from(toks, numeric, 0, Seq::empty()).len() >= 1
            && path_pairs_from(toks, numeric, 0, Seq::empty())[0] == (1int, 2int),
        toks.len() >= 2 && numeric[0] && numeric[1] && toks[0] != "M"@ && toks[0] != "L"@ && toks[0]
            != "m"@ && toks[0] != "l"@ && toks[0] != "Z"@ && toks[0] != "z"@ ==> path_pairs_from(
            toks,
            numeric,
            0,
            Seq::empty(),
        ).len() >= 1 && path_pairs_from(toks, numeric, 0, Seq::empty())[0] == (0int, 1int),
{
    let e = Seq::<(int, int)>::empty();
    if toks.len() >= 3 && (toks[0] == "M"@ || toks[0] == "L"@ || toks[0] == "m"@ || toks[0] == "l"@) {
        let acc2 = if numeric[1] && numeric[2] && e.len() < MAX_PATH_VERTICES {
            e.push((1int, 2int))
        } else {
            e
        };
        lemma_path_pairs_keep_prefix(toks, numeric, 3, acc2);
    }
    if toks.len() >= 2 && toks[0] != "M"@ && toks[0] != "L"@ && toks[0] != "m"@ && toks[0] != "l"@
        && toks[0] != "Z"@ && toks[0] != "z"@ && numeric[0] && numeric[1] {
        lemma_path_pairs_keep_prefix(toks, numeric, 2, e.push((0int, 1int)));
    }
}

proof fn lemma_path_command_swap(toks: Seq<Seq<char>>, numeric: Seq<bool>, i: int, acc: Seq<(int, int)>, j: int, c: Seq<char>)
    requires
        0 <= j < toks.len(),
        is_move_or_line(toks[j]),
        is_move_or_line(c),
    ensures
        path_pairs_from(toks, numeric, i, acc) == path_pairs_from(toks.update(j, c), numeric, i, acc),
    decreases toks.len() - i,
{
    let t2 = toks.update(j, c);
    if i < 0 || i >= toks.len() {
    } else {
        assert(is_move_or_line(toks[i]) == is_move_or_line(t2[i]));
        if i != j {
            assert(t2[i] == toks[i]);
        }
        if is_move_or_line(toks[i]) {
            if i + 2 >= toks.len() {
                lemma_path_command_swap(toks, numeric, i + 1, acc, j, c);
            } else {
                let acc2 = if numeric[i + 1] && numeric[i + 2] && acc.len() < MAX_PATH_VERTICES {
                    acc.push((i + 1, i + 2))
                } else {
                    acc
                };
                lemma_path_command_swap(toks, numeric, i + 3, acc2, j, c);
            }
        } else if is_close(toks[i]) {
            lemma_path_command_swap(toks, numeric, i + 1, acc, j, c);
        } else if i + 1 >= toks.len() || !(numeric[i] && numeric[i + 1]) {
            lemma_path_command_swap(toks, numeric, i + 1, acc, j, c);
        } else {
            let acc2 = if acc.len() < MAX_PATH_VERTICES {
                acc.push((i, i + 1))
            } else {
                acc
            };
            lemma_path_command_swap(toks, numeric, i + 2, acc2, j, c);
        }
    }
}

/// Command letters are read regardless of case: turning a lower-case move
/// or line command into its upper-case form leaves the vertices unchanged.
pub proof fn law_path_commands_ignore_case(toks: Seq<Seq<char>>, numeric: Seq<bool>, j: int)
    requires
        0 <= j < toks.len(),
    ensures
        toks[j] == "m"@ ==> path_pairs_from(toks, numeric, 0, Seq::empty()) == path_pairs_from(
            toks.update(j, "M"@),
            numeric,
            0,
            Seq::empty(),
        ),
        toks[j] == "l"@ ==> path_pairs_from(toks, numeric, 0, Seq::empty()) == path_pairs_from(
            toks.update(j, "L"@),
            numeric,
            0,
            Seq::empty(),
        ),
{
    if toks[j] == "m"@ {
        lemma_path_command_swap(toks, numeric, 0, Seq::empty(), j, "M"@);
    }
    if toks[j] == "l"@ {
        lemma_path_command_swap(toks, numeric, 0, Seq::empty(), j, "L"@);
    }
}

/// The characters of a list of tokens, one after the other.
pub open spec fn concat(t: Seq<Seq<char>>) -> Seq<char>
    decreases t.len(),
{
    if t.len() == 0 {
        Seq::empty()
    } else {
        concat(t.drop_last()) + t.last()
    }
}

/// `s` without its white space.
pub open spec fn non_white(s: Seq<char>) -> Seq<char> {
    s.filter(|c: char| !is_white_space(c))
}

/// Tokens that are well formed: not empty, without white space, and a token
/// holding a letter is that letter alone.
pub open spec fn tokens_well_formed(t: Seq<Seq<char>>) -> bool {
    &&& forall|k: int| 0 <= k < t.len() ==> (#[trigger] t[k]).len() > 0
    &&& forall|k: int, i: int| 0 <= k < t.len() && 0 <= i < t[k].len() ==> !is_white_space(#[trigger] t[k][i])
    &&& forall|k: int, i: int|
        0 <= k < t.len() && 0 <= i < t[k].len() && is_ascii_letter(#[trigger] t[k][i]) ==> t[k].len() == 1
}

pub(crate) proof fn lemma_concat_push(t: Seq<Seq<char>>, x: Seq<char>)
    ensures
        concat(t.push(x)) == concat(t) + x,
{
    assert(t.push(x).drop_last() =~= t);
}

proof fn lemma_flush_ok(t: Seq<Seq<char>>, cur: Seq<char>)
    requires
        tokens_well_formed(t),
        forall|i: int| 0 <= i < cur.len() ==> !is_white_space(#[trigger] cur[i]) && !is_ascii_letter(cur[i]),
    ensures
        tokens_well_formed(flush(t, cur)),
        concat(flush(t, cur)) == concat(t) + cur,
{
    if cur.len() > 0 {
        lemma_concat_push(t, cur);
        let f = t.push(cur);
        assert forall|k: int, i: int| 0 <= k < f.len() && 0 <= i < f[k].len() implies !is_white_space(#[trigger] f[k][i]) by {
            if k < t.len() {
                assert(f[k] == t[k]);
            }
        }
        assert forall|k: int, i: int| 0 <= k < f.len() && 0 <= i < f[k].len() && is_ascii_letter(#[trigger] f[k][i]) implies f[k].len() == 1 by {
            if k < t.len() {
                assert(f[k] == t[k]);
            }
        }
    } else {
        assert(concat(t) + cur =~= concat(t));
    }
}

proof fn lemma_scan_shape(s: Seq<char>)
    ensures
        tokens_well_formed(scan(s).0),
        forall|i: int| 0 <= i < scan(s).1.len() ==> !is_white_space(#[trigger] scan(s).1[i]) && !is_ascii_letter(scan(s).1[i]),
        concat(scan(s).0) + scan(s).1 == non_white(s),
    decreases s.len(),
{
    broadcast use Seq::lemma_filter_push;
    if s.len() == 0 {
        assert(non_white(s) =~= Seq::<char>::empty());
        assert(concat(Seq::<Seq<char>>::empty()) + Seq::<char>::empty() =~= Seq::<char>::empty());
    } else {
        let s0 = s.drop_last();
        let c = s.last();
        assert(s0.push(c) =~= s);
        lemma_scan_shape(s0);
        let (t0, cur0) = scan(s0);
        lemma_flush_ok(t0, cur0);
        let p = |x: char| !is_white_space(x);
        assert(non_white(s) == if p(c) { non_white(s0).push(c) } else { non_white(s0) });
        if is_white_space(c) {
            assert(concat(flush(t0, cur0)) + Seq::<char>::empty() =~= concat(flush(t0, cur0)));
        } else if is_ascii_letter(c) {
            let f = flush(t0, cur0);
            lemma_concat_push(f, seq![c]);
            let g = f.push(seq![c]);
            assert forall|k: int| 0 <= k < g.len() implies (#[trigger] g[k]).len() > 0 by {
                if k < f.len() {
                    assert(g[k] == f[k]);
                }
            }
            assert forall|k: int, i: int| 0 <= k < g.len() && 0 <= i < g[k].len() implies !is_white_space(#[trigger] g[k][i]) by {
                if k < f.len() {
                    assert(g[k] == f[k]);
                }
            }
            assert forall|k: int, i: int| 0 <= k < g.len() && 0 <= i < g[k].len() && is_ascii_letter(#[trigger] g[k][i]) implies g[k].len() == 1 by {
                if k < f.len() {
                    assert(g[k] == f[k]);
                }
            }
            assert(concat(g) + Seq::<char>::empty() =~= concat(t0) + cur0 + seq![c]);
        } else {
            assert(concat(t0) + cur0.push(c) =~= (concat(t0) + cur0).push(c));
        }
    }
}

/// Tokenizing only cuts: the tokens, put back together, are the text without
/// its white space; no token is empty or holds white space, and a letter is
/// always a token of its own.
pub proof fn law_path_tokens_cut_only(s: Seq<char>)
    ensures
        concat(path_tokens_of(s)) == non_white(s),
        tokens_well_formed(path_tokens_of(s)),
{
    lemma_scan_shape(s);
    lemma_flush_ok(scan(s).0, scan(s).1);
}

} // verus!
