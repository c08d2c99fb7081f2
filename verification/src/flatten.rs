//! Flattening of nested layers: every layer nested under another (the content
//! of an embedded scene, or the members of a group) is lifted into one flat
//! list right after its ancestor, under a fresh id, with every reference to
//! the old ids rewritten.
//!
//! Positions are not held here. The flattening says instead, for each layer,
//! which embedded scene's position becomes its offset, and, level by level,
//! which layer's depth is taken off which other layer's depth.
use vstd::prelude::*;
use crate::ids::{
    bump, flat_view, remap_flattened_child, remapped_child, FlatView, IdAllocator, PendingIds,
};

verus! {

/// Take the depth of layer `source` off the depth of layer `target` (indices
/// into the flattened list).
#[derive(Debug, Clone, Copy, PartialEq, Eq, Structural)]
pub struct FlatStep {
    pub target: usize,
    pub source: usize,
}

/// The result of flattening.
#[derive(Debug)]
pub struct FlattenOutput {
    /// The layers, with no nested layers left.
    pub layers: Vec<PendingIds>,
    /// For each layer, the index of the embedded scene whose position became
    /// its offset during flattening, if any.
    pub embed_offset_from: Vec<Option<usize>>,
    /// Depth corrections, one group per flattened block, in the order they
    /// apply; the steps of one group all read the depths as they were before
    /// the group.
    pub z_levels: Vec<Vec<FlatStep>>,
}

/// What flattening gives, as values.
pub struct FlatOut {
    pub layers: Seq<FlatView>,
    pub offsets: Seq<Option<int>>,
    pub levels: Seq<Seq<(int, int)>>,
    pub next: u64,
}

/// The counter after handing out `k` ids from `c`.
pub open spec fn advance(c: u64, k: nat) -> u64
    decreases k,
{
    if k == 0 {
        c
    } else {
        bump(advance(c, (k - 1) as nat))
    }
}

/// Each flattened layer's old id paired with the fresh id it is given.
pub open spec fn fresh_pairs(f: Seq<FlatView>, c: u64) -> Seq<(u64, u64)> {
    Seq::new(f.len(), |k: int| (f[k].id, advance(c, k as nat)))
}

/// Index of the last layer of `f` with this id.
pub open spec fn last_with_id(f: Seq<FlatView>, id: u64) -> Option<int>
    decreases f.len(),
{
    if f.len() == 0 {
        None
    } else if f.last().id == id {
        Some(f.len() - 1)
    } else {
        last_with_id(f.drop_last(), id)
    }
}

/// Whether an embedded scene of `f` has this id.
pub open spec fn embed_with_id(f: Seq<FlatView>, id: u64) -> bool {
    exists|j: int| 0 <= j < f.len() && (#[trigger] f[j]).id == id && f[j].is_embed
}

/// The layer of `f` whose depth is taken off that of layer `k`: its parent,
/// unless it has none or the parent is an embedded scene.
pub open spec fn z_source(f: Seq<FlatView>, k: int) -> Option<int> {
    let p = f[k].parent;
    if p != 0 && !embed_with_id(f, p) {
        last_with_id(f, p)
    } else {
        None
    }
}

/// The depth corrections of the first `n` layers of a flattened block that
/// starts at index `base`.
pub open spec fn level_steps(f: Seq<FlatView>, n: nat, base: int) -> Seq<(int, int)>
    decreases n,
{
    if n == 0 {
        Seq::empty()
    } else {
        let prev = level_steps(f, (n - 1) as nat, base);
        match z_source(f, n - 1) {
            Some(j) => prev.push((base + n - 1, base + j)),
            None => prev,
        }
    }
}

pub open spec fn shift_offset(o: Option<int>, d: int) -> Option<int> {
    match o {
        Some(i) => Some(i + d),
        None => None,
    }
}

pub open spec fn shift_level(lv: Seq<(int, int)>, d: int) -> Seq<(int, int)> {
    lv.map_values(|p: (int, int)| (p.0 + d, p.1 + d))
}

pub open spec fn shift_levels(z: Seq<Seq<(int, int)>>, d: int) -> Seq<Seq<(int, int)>> {
    z.map_values(|lv: Seq<(int, int)>| shift_level(lv, d))
}

/// A layer as it is put into the flat list: nested layers of an embedded
/// scene (at depth 1 or more) belong to that scene, other layers to none.
pub open spec fn top_view(layer: PendingIds, cur_embed: u64, depth: int) -> FlatView {
    FlatView {
        containing_embed_id: if depth >= 1 && !layer.is_embed {
            cur_embed
        } else {
            0
        },
        ..flat_view(layer)
    }
}

/// The flattened block of `layer`'s nested layers `inner`, appended to
/// `prev` after `layer` itself (`top`).
pub open spec fn add_block(prev: FlatOut, top: FlatView, layer: PendingIds, inner: FlatOut, child_embed: u64) -> FlatOut {
    let f = inner.layers;
    let base = prev.layers.len() as int;
    let m = fresh_pairs(f, inner.next);
    FlatOut {
        layers: prev.layers.push(top) + Seq::new(
            f.len(),
            |k: int|
                remapped_child(
                    FlatView { id: m[k].1, ..f[k] },
                    m,
                    layer.id,
                    layer.is_embed,
                    child_embed,
                ),
        ),
        offsets: prev.offsets.push(None) + Seq::new(
            f.len(),
            |k: int|
                if f[k].parent == 0 && layer.is_embed {
                    Some(base)
                } else {
                    shift_offset(inner.offsets[k], base + 1)
                },
        ),
        levels: prev.levels + shift_levels(inner.levels, base + 1) + seq![
            level_steps(f, f.len(), base + 1),
        ],
        next: advance(inner.next, f.len()),
    }
}

/// Flattening of `layers` inside embedded scene `cur_embed` at embedding
/// depth `depth`, with fresh ids handed out from `next` on.
pub open spec fn flatten_spec(layers: Seq<PendingIds>, cur_embed: u64, depth: int, next: u64) -> FlatOut
    decreases layers,
{
    if layers.len() == 0 {
        FlatOut { layers: Seq::empty(), offsets: Seq::empty(), levels: Seq::empty(), next }
    } else {
        let prev = flatten_spec(layers.drop_last(), cur_embed, depth, next);
        let layer = layers.last();
        let top = top_view(layer, cur_embed, depth);
        if layer.children@.len() == 0 {
            FlatOut {
                layers: prev.layers.push(top),
                offsets: prev.offsets.push(None),
                levels: prev.levels,
                next: prev.next,
            }
        } else {
            let child_embed = if layer.is_embed {
                layer.id
            } else {
                cur_embed
            };
            let child_depth = if layer.is_embed {
                depth + 1
            } else {
                depth
            };
            let inner = flatten_spec(layer.children@, child_embed, child_depth, prev.next);
            add_block(prev, top, layer, inner, child_embed)
        }
    }
}

/// The indices a flattening gives are indices of its list.
pub open spec fn indices_in_range(o: FlatOut) -> bool {
    &&& o.offsets.len() == o.layers.len()
    &&& forall|k: int| 0 <= k < o.offsets.len() ==> match #[trigger] o.offsets[k] {
        Some(i) => 0 <= i < o.layers.len(),
        None => true,
    }
    &&& forall|a: int, b: int| 0 <= a < o.levels.len() && 0 <= b < o.levels[a].len() ==> {
        let p = #[trigger] o.levels[a][b];
        &&& 0 <= p.0 < o.layers.len()
        &&& 0 <= p.1 < o.layers.len()
    }
}

proof fn lemma_last_with_id_range(f: Seq<FlatView>, id: u64)
    ensures
        last_with_id(f, id) matches Some(j) ==> 0 <= j < f.len() && f[j].id == id,
    decreases f.len(),
{
    if f.len() > 0 && f.last().id != id {
        lemma_last_with_id_range(f.drop_last(), id);
    }
}

proof fn lemma_level_steps_range(f: Seq<FlatView>, n: nat, base: int)
    requires
        n <= f.len(),
    ensures
        forall|b: int| 0 <= b < level_steps(f, n, base).len() ==> {
            let p = #[trigger] level_steps(f, n, base)[b];
            &&& base <= p.0 < base + n
            &&& base <= p.1 < base + f.len()
        },
    decreases n,
{
    if n > 0 {
        let prev = level_steps(f, (n - 1) as nat, base);
        lemma_level_steps_range(f, (n - 1) as nat, base);
        lemma_last_with_id_range(f, f[n - 1].parent);
        let cur = level_steps(f, n, base);
        assert forall|b: int| 0 <= b < cur.len() implies {
            let p = #[trigger] cur[b];
            &&& base <= p.0 < base + n
            &&& base <= p.1 < base + f.len()
        } by {
            if b < prev.len() {
                assert(cur[b] == prev[b]);
            }
        }
    }
}

/// Every index that flattening hands out points into the flat list.
proof fn lemma_flatten_indices(layers: Seq<PendingIds>, cur_embed: u64, depth: int, next: u64)
    ensures
        indices_in_range(flatten_spec(layers, cur_embed, depth, next)),
    decreases layers,
{
    if layers.len() > 0 {
        let prev = flatten_spec(layers.drop_last(), cur_embed, depth, next);
        lemma_flatten_indices(layers.drop_last(), cur_embed, depth, next);
        let layer = layers.last();
        if layer.children@.len() > 0 {
            let child_embed = if layer.is_embed { layer.id } else { cur_embed };
            let child_depth = if layer.is_embed { depth + 1 } else { depth };
            assert(decreases_to!(layers => layers[layers.len() - 1]));
            let inner = flatten_spec(layer.children@, child_embed, child_depth, prev.next);
            lemma_flatten_indices(layer.children@, child_embed, child_depth, prev.next);
            let o = flatten_spec(layers, cur_embed, depth, next);
            let base = prev.layers.len() as int;
            let f = inner.layers;
            lemma_level_steps_range(f, f.len(), base + 1);
            assert(o == add_block(prev, top_view(layer, cur_embed, depth), layer, inner, child_embed));
            assert forall|k: int| 0 <= k < o.offsets.len() implies match #[trigger] o.offsets[k] {
                Some(i) => 0 <= i < o.layers.len(),
                None => true,
            } by {
                if k > base {
                    assert(o.offsets[k] == (if f[k - base - 1].parent == 0 && layer.is_embed {
                        Some(base)
                    } else {
                        shift_offset(inner.offsets[k - base - 1], base + 1)
                    }));
                } else if k < base {
                    assert(o.offsets[k] == prev.offsets[k]);
                }
            }
            assert forall|a: int, b: int| 0 <= a < o.levels.len() && 0 <= b < o.levels[a].len() implies {
                let p = #[trigger] o.levels[a][b];
                &&& 0 <= p.0 < o.layers.len()
                &&& 0 <= p.1 < o.layers.len()
            } by {
                let pl = prev.levels.len();
                let il = inner.levels.len();
                if a < pl {
                    assert(o.levels[a] == prev.levels[a]);
                } else if a < pl + il {
                    assert(o.levels[a] == shift_level(inner.levels[a - pl], base + 1));
                    assert(o.levels[a][b] == (inner.levels[a - pl][b].0 + base + 1, inner.levels[a - pl][b].1 + base + 1));
                } else {
                    assert(o.levels[a] == level_steps(f, f.len(), base + 1));
                }
            }
        }
    }
}

/// Height of a list of layer trees.
pub open spec fn forest_height(ls: Seq<PendingIds>) -> nat
    decreases ls,
{
    if ls.len() == 0 {
        0
    } else {
        let a = forest_height(ls.drop_last());
        let b = 1 + forest_height(ls.last().children@);
        if a >= b {
            a
        } else {
            b
        }
    }
}

proof fn lemma_height_child(ls: Seq<PendingIds>, i: int)
    requires
        0 <= i < ls.len(),
    ensures
        forest_height(ls) >= 1 + forest_height(ls[i].children@),
    decreases ls.len(),
{
    if i < ls.len() - 1 {
        lemma_height_child(ls.drop_last(), i);
        assert(ls.drop_last()[i] == ls[i]);
    }
}

/// The views of a list of layers.
pub open spec fn views(v: Seq<PendingIds>) -> Seq<FlatView> {
    v.map_values(|l: PendingIds| flat_view(l))
}

pub open spec fn offsets_view(v: Seq<Option<usize>>) -> Seq<Option<int>> {
    v.map_values(|o: Option<usize>| match o {
        Some(i) => Some(i as int),
        None => None,
    })
}

pub open spec fn level_view(v: Seq<FlatStep>) -> Seq<(int, int)> {
    v.map_values(|p: FlatStep| (p.target as int, p.source as int))
}

pub open spec fn levels_view(v: Seq<Vec<FlatStep>>) -> Seq<Seq<(int, int)>> {
    v.map_values(|lv: Vec<FlatStep>| level_view(lv@))
}

/// No layer of the list has nested layers.
pub open spec fn all_flat(v: Seq<PendingIds>) -> bool {
    forall|k: int| 0 <= k < v.len() ==> (#[trigger] v[k]).children@.len() == 0
}

fn make_pairs(f: &Vec<PendingIds>, alloc: &mut IdAllocator) -> (pairs: Vec<(u64, u64)>)
    ensures
        pairs@ == fresh_pairs(views(f@), old(alloc).next),
        final(alloc).next == advance(old(alloc).next, f@.len()),
{
    let ghost c = alloc.next;
    let mut pairs: Vec<(u64, u64)> = Vec::new();
    let mut k: usize = 0;
    while k < f.len()
        invariant
            k <= f@.len(),
            alloc.next == advance(c, k as nat),
            pairs@ == fresh_pairs(views(f@), c).take(k as int),
        decreases f.len() - k,
    {
        let old_id = f[k].id;
        let new_id = alloc.generate_unique_id(old_id);
        pairs.push((old_id, new_id));
        proof {
            assert(pairs@ =~= fresh_pairs(views(f@), c).take(k + 1));
        }
        k = k + 1;
    }
    proof {
        assert(pairs@ =~= fresh_pairs(views(f@), c));
    }
    pairs
}

proof fn lemma_last_with_id_at(f: Seq<FlatView>, id: u64, j: int)
    requires
        0 <= j < f.len(),
        f[j].id == id,
        forall|k: int| j < k < f.len() ==> f[k].id != id,
    ensures
        last_with_id(f, id) == Some(j),
    decreases f.len(),
{
    if j < f.len() - 1 {
        lemma_last_with_id_at(f.drop_last(), id, j);
    }
}

proof fn lemma_last_with_id_none(f: Seq<FlatView>, id: u64)
    requires
        forall|k: int| 0 <= k < f.len() ==> f[k].id != id,
    ensures
        last_with_id(f, id) is None,
    decreases f.len(),
{
    if f.len() > 0 {
        lemma_last_with_id_none(f.drop_last(), id);
    }
}

fn z_source_of(f: &Vec<PendingIds>, k: usize) -> (r: Option<usize>)
    requires
        k < f@.len(),
    ensures
        match r {
            Some(j) => z_source(views(f@), k as int) == Some(j as int),
            None => z_source(views(f@), k as int) is None,
        },
{
    let ghost fv = views(f@);
    let p = f[k].parent;
    assert(fv[k as int].parent == p);
    if p == 0 {
        return None;
    }
    let mut j: usize = 0;
    while j < f.len()
        invariant
            j <= f@.len(),
            fv == views(f@),
            k < f@.len(),
            fv[k as int].parent == p,
            p != 0,
            forall|a: int| 0 <= a < j ==> !((#[trigger] fv[a]).id == p && fv[a].is_embed),
        decreases f.len() - j,
    {
        if f[j].id == p && f[j].is_embed {
            proof {
                assert(fv[j as int].id == p && fv[j as int].is_embed);
                assert(embed_with_id(fv, p));
                assert(z_source(fv, k as int) is None);
            }
            return None;
        }
        j = j + 1;
    }
    let mut i: usize = f.len();
    while i > 0
        invariant
            i <= f@.len(),
            fv == views(f@),
            k < f@.len(),
            fv[k as int].parent == p,
            p != 0,
            !embed_with_id(fv, p),
            forall|a: int| i <= a < f@.len() ==> (#[trigger] fv[a]).id != p,
        decreases i,
    {
        if f[i - 1].id == p {
            proof {
                lemma_last_with_id_at(fv, p, i - 1);
                assert(z_source(fv, k as int) == Some(i - 1));
            }
            return Some(i - 1);
        }
        i = i - 1;
    }
    proof {
        lemma_last_with_id_none(fv, p);
    }
    None
}

fn block_steps(f: &Vec<PendingIds>, base1: usize) -> (steps: Vec<FlatStep>)
    requires
        base1 + f@.len() <= usize::MAX,
    ensures
        level_view(steps@) == level_steps(views(f@), f@.len(), base1 as int),
{
    let ghost fv = views(f@);
    let mut steps: Vec<FlatStep> = Vec::new();
    let mut k: usize = 0;
    while k < f.len()
        invariant
            k <= f@.len(),
            fv == views(f@),
            base1 + f@.len() <= usize::MAX,
            level_view(steps@) == level_steps(fv, k as nat, base1 as int),
        decreases f.len() - k,
    {
        let src = z_source_of(f, k);
        proof {
            lemma_last_with_id_range(fv, fv[k as int].parent);
        }
        match src {
            Some(j) => {
                steps.push(FlatStep { target: base1 + k, source: base1 + j });
                proof {
                    assert(level_view(steps@) =~= level_steps(fv, (k + 1) as nat, base1 as int));
                }
            },
            None => {
                proof {
                    assert(level_view(steps@) =~= level_steps(fv, (k + 1) as nat, base1 as int));
                }
            },
        }
        k = k + 1;
    }
    steps
}

fn shift_steps(lv: &Vec<FlatStep>, d: usize, bound: usize) -> (r: Vec<FlatStep>)
    requires
        d + bound <= usize::MAX,
        forall|b: int| 0 <= b < lv@.len() ==> (#[trigger] lv@[b]).target < bound && lv@[b].source < bound,
    ensures
        level_view(r@) == shift_level(level_view(lv@), d as int),
{
    let mut r: Vec<FlatStep> = Vec::new();
    let mut b: usize = 0;
    while b < lv.len()
        invariant
            b <= lv@.len(),
            d + bound <= usize::MAX,
            forall|c: int| 0 <= c < lv@.len() ==> (#[trigger] lv@[c]).target < bound && lv@[c].source < bound,
            level_view(r@) == shift_level(level_view(lv@), d as int).take(b as int),
        decreases lv.len() - b,
    {
        let p = lv[b];
        let ghost r0 = r@;
        assert(level_view(r0).len() == r0.len());
        assert(r0.len() == b);
        r.push(FlatStep { target: p.target + d, source: p.source + d });
        proof {
            let want = shift_level(level_view(lv@), d as int);
            assert(level_view(lv@)[b as int] == (p.target as int, p.source as int));
            assert(want[b as int] == (p.target + d, p.source + d));
            assert forall|c: int| 0 <= c < b + 1 implies #[trigger] level_view(r@)[c] == want.take(b + 1)[c] by {
                if c < b {
                    assert(r@[c] == r0[c]);
                    assert(level_view(r0)[c] == want.take(b as int)[c]);
                }
            }
            assert(level_view(r@) =~= want.take(b + 1));
        }
        b = b + 1;
    }
    proof {
        assert(level_view(r@) =~= shift_level(level_view(lv@), d as int));
    }
    r
}

fn push_shifted_levels(levels: &mut Vec<Vec<FlatStep>>, zl: &Vec<Vec<FlatStep>>, d: usize, bound: usize)
    requires
        d + bound <= usize::MAX,
        forall|a: int, b: int|
            0 <= a < zl@.len() && 0 <= b < zl@[a]@.len() ==> (#[trigger] zl@[a]@[b]).target < bound
                && zl@[a]@[b].source < bound,
    ensures
        levels_view(final(levels)@) == levels_view(old(levels)@) + shift_levels(levels_view(zl@), d as int),
{
    let ghost l0 = levels@;
    let mut a: usize = 0;
    while a < zl.len()
        invariant
            a <= zl@.len(),
            d + bound <= usize::MAX,
            forall|a2: int, b: int|
                0 <= a2 < zl@.len() && 0 <= b < zl@[a2]@.len() ==> (#[trigger] zl@[a2]@[b]).target < bound
                    && zl@[a2]@[b].source < bound,
            levels_view(levels@) == levels_view(l0) + shift_levels(levels_view(zl@), d as int).take(a as int),
        decreases zl.len() - a,
    {
        let shifted = shift_steps(&zl[a], d, bound);
        let ghost v0 = levels@;
        assert(levels_view(v0).len() == v0.len());
        assert(v0.len() == l0.len() + a);
        levels.push(shifted);
        proof {
            let want = levels_view(l0) + shift_levels(levels_view(zl@), d as int).take(a + 1);
            assert(shift_levels(levels_view(zl@), d as int)[a as int] == shift_level(level_view(zl@[a as int]@), d as int));
            assert forall|c: int| 0 <= c < levels@.len() implies #[trigger] levels_view(levels@)[c] == want[c] by {
                if c < v0.len() {
                    assert(levels@[c] == v0[c]);
                    assert(levels_view(v0)[c] == (levels_view(l0) + shift_levels(levels_view(zl@), d as int).take(a as int))[c]);
                }
            }
            assert(levels_view(levels@) =~= want);
        }
        a = a + 1;
    }
    proof {
        assert(shift_levels(levels_view(zl@), d as int).take(zl@.len() as int) =~= shift_levels(levels_view(zl@), d as int));
    }
}


proof fn lemma_level_steps_shift(f: Seq<FlatView>, n: nat, base: int)
    ensures
        level_steps(f, n, base) == shift_level(level_steps(f, n, 0), base),
    decreases n,
{
    if n > 0 {
        lemma_level_steps_shift(f, (n - 1) as nat, base);
        let a = level_steps(f, (n - 1) as nat, base);
        let b = level_steps(f, (n - 1) as nat, 0);
        match z_source(f, n - 1) {
            Some(j) => {
                assert(shift_level(b.push((n - 1, j)), base) =~= shift_level(b, base).push(
                    (base + n - 1, base + j),
                ));
            },
            None => {},
        }
    }
}

/// The layers of a flattened block, renamed and remapped.
pub open spec fn renamed_block(f: Seq<FlatView>, m: Seq<(u64, u64)>, layer_id: u64, is_embed: bool, child_embed: u64) -> Seq<FlatView> {
    Seq::new(
        f.len(),
        |k: int| remapped_child(FlatView { id: m[k].1, ..f[k] }, m, layer_id, is_embed, child_embed),
    )
}

fn push_block(
    out: &mut Vec<PendingIds>,
    f: Vec<PendingIds>,
    pairs: &Vec<(u64, u64)>,
    layer_id: u64,
    is_embed: bool,
    child_embed: u64,
) -> (takes: Vec<bool>)
    requires
        pairs@.len() == f@.len(),
        all_flat(f@),
        all_flat(old(out)@),
    ensures
        all_flat(final(out)@),
        views(final(out)@) == views(old(out)@) + renamed_block(views(f@), pairs@, layer_id, is_embed, child_embed),
        takes@.len() == f@.len(),
        forall|k: int| 0 <= k < f@.len() ==> #[trigger] takes@[k] == (f@[k].parent == 0 && is_embed),
{
    let ghost f0 = f@;
    let ghost o0 = out@;
    let ghost want = renamed_block(views(f0), pairs@, layer_id, is_embed, child_embed);
    let n = f.len();
    let mut f = f;
    let mut takes: Vec<bool> = Vec::new();
    let mut k: usize = 0;
    proof {
        assert(f0.skip(0) =~= f0);
        assert(views(out@) =~= views(o0) + want.take(0));
    }
    while f.len() > 0
        invariant
            k <= f0.len(),
            n == f0.len(),
            f@ == f0.skip(k as int),
            pairs@.len() == f0.len(),
            all_flat(f0),
            all_flat(out@),
            want == renamed_block(views(f0), pairs@, layer_id, is_embed, child_embed),
            views(out@) == views(o0) + want.take(k as int),
            takes@.len() == k,
            forall|j: int| 0 <= j < k ==> #[trigger] takes@[j] == (f0[j].parent == 0 && is_embed),
        decreases f.len(),
    {
        proof {
            assert(f0.skip(k as int).len() == f0.len() - k);
        }
        let mut child = f.remove(0);
        proof {
            assert(child == f0[k as int]);
            assert(f@ =~= f0.skip(k + 1));
        }
        child.id = pairs[k].1;
        let ghost before = child;
        let t = remap_flattened_child(&mut child, pairs.as_slice(), layer_id, is_embed, child_embed);
        proof {
            assert(flat_view(before) == FlatView { id: pairs@[k as int].1, ..views(f0)[k as int] });
            assert(flat_view(child) == want[k as int]);
        }
        let ghost out0 = out@;
        out.push(child);
        takes.push(t);
        proof {
            assert(views(out@) =~= views(o0) + want.take(k + 1)) by {
                assert(views(out@) == views(out0).push(flat_view(child)));
                assert(want.take(k + 1) =~= want.take(k as int).push(want[k as int]));
            }
            assert forall|j: int| 0 <= j < out@.len() implies (#[trigger] out@[j]).children@.len() == 0 by {
                if j < out0.len() {
                    assert(out@[j] == out0[j]);
                }
            }
        }
        k = k + 1;
    }
    proof {
        assert(want.take(f0.len() as int) =~= want);
    }
    takes
}

fn push_block_offsets(
    offsets: &mut Vec<Option<usize>>,
    takes: &Vec<bool>,
    foffs: &Vec<Option<usize>>,
    base: usize,
    base1: usize,
)
    requires
        takes@.len() == foffs@.len(),
        base1 + foffs@.len() <= usize::MAX,
        forall|k: int| 0 <= k < foffs@.len() ==> match #[trigger] foffs@[k] {
            Some(o) => o < foffs@.len(),
            None => true,
        },
    ensures
        offsets_view(final(offsets)@) == offsets_view(old(offsets)@) + Seq::new(
            foffs@.len(),
            |k: int|
                if takes@[k] {
                    Some(base as int)
                } else {
                    shift_offset(offsets_view(foffs@)[k], base1 as int)
                },
        ),
{
    let ghost o0 = offsets@;
    let ghost want = Seq::new(
        foffs@.len(),
        |k: int|
            if takes@[k] {
                Some(base as int)
            } else {
                shift_offset(offsets_view(foffs@)[k], base1 as int)
            },
    );
    let mut k: usize = 0;
    while k < foffs.len()
        invariant
            k <= foffs@.len(),
            takes@.len() == foffs@.len(),
            base1 + foffs@.len() <= usize::MAX,
            forall|j: int| 0 <= j < foffs@.len() ==> match #[trigger] foffs@[j] {
                Some(o) => o < foffs@.len(),
                None => true,
            },
            want == Seq::new(
                foffs@.len(),
                |j: int|
                    if takes@[j] {
                        Some(base as int)
                    } else {
                        shift_offset(offsets_view(foffs@)[j], base1 as int)
                    },
            ),
            offsets_view(offsets@) == offsets_view(o0) + want.take(k as int),
        decreases foffs.len() - k,
    {
        let ghost v0 = offsets@;
        let o = if takes[k] {
            Some(base)
        } else {
            match foffs[k] {
                Some(x) => Some(x + base1),
                None => None,
            }
        };
        offsets.push(o);
        proof {
            assert(offsets_view(v0).len() == v0.len());
            assert(offsets_view(offsets@) =~= offsets_view(o0) + want.take(k + 1)) by {
                assert(offsets_view(offsets@) == offsets_view(v0).push(offsets_view(offsets@)[v0.len() as int]));
                assert(want.take(k + 1) =~= want.take(k as int).push(want[k as int]));
            }
        }
        k = k + 1;
    }
    proof {
        assert(want.take(foffs@.len() as int) =~= want);
    }
}


/// Flattens `layers`, found inside embedded scene `cur_embed` at embedding
/// depth `depth`: each layer is followed by its nested layers, themselves
/// flattened, each under a fresh id from `alloc`, with parents, owning
/// scenes, animation ids and masks rewritten to the new ids.
fn flatten_inner(layers: Vec<PendingIds>, cur_embed: u64, depth: u32, alloc: &mut IdAllocator) -> (out: FlattenOutput)
    requires
        depth + forest_height(layers@) <= u32::MAX,
    ensures
        views(out.layers@) == flatten_spec(layers@, cur_embed, depth as int, old(alloc).next).layers,
        offsets_view(out.embed_offset_from@) == flatten_spec(
            layers@,
            cur_embed,
            depth as int,
            old(alloc).next,
        ).offsets,
        levels_view(out.z_levels@) == flatten_spec(layers@, cur_embed, depth as int, old(alloc).next).levels,
        final(alloc).next == flatten_spec(layers@, cur_embed, depth as int, old(alloc).next).next,
        all_flat(out.layers@),
    decreases layers@,
{
    let ghost orig = layers@;
    let ghost start = alloc.next;
    let mut rest = layers;
    let len0 = rest.len();
    let mut out_layers: Vec<PendingIds> = Vec::new();
    let mut offsets: Vec<Option<usize>> = Vec::new();
    let mut levels: Vec<Vec<FlatStep>> = Vec::new();
    let mut i: usize = 0;
    proof {
        assert(orig.skip(0) =~= orig);
        assert(orig.take(0) =~= Seq::<PendingIds>::empty());
        assert(views(out_layers@) =~= Seq::<FlatView>::empty());
        assert(offsets_view(offsets@) =~= Seq::<Option<int>>::empty());
        assert(levels_view(levels@) =~= Seq::<Seq<(int, int)>>::empty());
    }
    while rest.len() > 0
        invariant
            i <= orig.len(),
            orig == layers@,
            len0 == orig.len(),
            rest@ == orig.skip(i as int),
            depth + forest_height(orig) <= u32::MAX,
            views(out_layers@) == flatten_spec(orig.take(i as int), cur_embed, depth as int, start).layers,
            offsets_view(offsets@) == flatten_spec(orig.take(i as int), cur_embed, depth as int, start).offsets,
            levels_view(levels@) == flatten_spec(orig.take(i as int), cur_embed, depth as int, start).levels,
            alloc.next == flatten_spec(orig.take(i as int), cur_embed, depth as int, start).next,
            all_flat(out_layers@),
        decreases rest.len(),
    {
        let ghost prev = flatten_spec(orig.take(i as int), cur_embed, depth as int, start);
        proof {
            assert(orig.skip(i as int).len() == orig.len() - i);
            assert(orig.take(i + 1).drop_last() =~= orig.take(i as int));
            assert(orig.take(i + 1).last() == orig[i as int]);
            lemma_flatten_indices(orig.take(i as int), cur_embed, depth as int, start);
        }
        let mut layer = rest.remove(0);
        proof {
            assert(layer == orig[i as int]);
            assert(rest@ =~= orig.skip(i + 1));
        }
        let mut children: Vec<PendingIds> = Vec::new();
        std::mem::swap(&mut children, &mut layer.children);
        let layer_id = layer.id;
        let is_embed = layer.is_embed;
        layer.containing_embed_id = if depth >= 1 && !is_embed {
            cur_embed
        } else {
            0
        };
        let ghost top = top_view(orig[i as int], cur_embed, depth as int);
        assert(flat_view(layer) == top);
        let base = out_layers.len();
        let ghost out0 = out_layers@;
        out_layers.push(layer);
        offsets.push(None);
        let base1 = out_layers.len();
        proof {
            assert(views(out_layers@) =~= prev.layers.push(top)) by {
                assert(views(out_layers@) == views(out0).push(flat_view(layer)));
            }
            assert(offsets_view(offsets@) =~= prev.offsets.push(None));
            assert forall|j: int| 0 <= j < out_layers@.len() implies (#[trigger] out_layers@[j]).children@.len() == 0 by {
                if j < out0.len() {
                    assert(out_layers@[j] == out0[j]);
                }
            }
        }
        if children.len() > 0 {
            let child_embed = if is_embed {
                layer_id
            } else {
                cur_embed
            };
            proof {
                lemma_height_child(orig, i as int);
            }
            let child_depth = if is_embed {
                depth + 1
            } else {
                depth
            };
            let ghost n1 = alloc.next;
            proof {
                assert(children@ == orig[i as int].children@);
                assert(decreases_to!(orig => orig[i as int]));
                assert(decreases_to!(orig[i as int] => orig[i as int].children));
                assert(decreases_to!(orig[i as int].children => orig[i as int].children@));
                assert(decreases_to!(orig => children@));
            }
            let inner = flatten_inner(children, child_embed, child_depth, alloc);
            let ghost inner_spec = flatten_spec(orig[i as int].children@, child_embed, child_depth as int, n1);
            proof {
                lemma_flatten_indices(orig[i as int].children@, child_embed, child_depth as int, n1);
            }
            let FlattenOutput { layers: f, embed_offset_from: foffs, z_levels: zl } = inner;
            let ghost fv = views(f@);
            let n = f.len();
            let rel_steps = block_steps(&f, 0);
            proof {
                lemma_level_steps_range(fv, n as nat, 0);
                assert forall|b: int| 0 <= b < rel_steps@.len() implies (#[trigger] rel_steps@[b]).target < n
                    && rel_steps@[b].source < n by {
                    assert(level_view(rel_steps@)[b] == level_steps(fv, n as nat, 0)[b]);
                }
            }
            let ghost n2 = alloc.next;
            let pairs = make_pairs(&f, alloc);
            let takes = push_block(&mut out_layers, f, &pairs, layer_id, is_embed, child_embed);
            proof {
                assert(views(out_layers@).len() == out_layers@.len());
                assert(renamed_block(fv, pairs@, layer_id, is_embed, child_embed).len() == n);
                assert(views(out_layers@).len() == base1 + n);
            }
            let total = out_layers.len();
            proof {
                assert(total == base1 + n);
                assert(offsets_view(foffs@).len() == foffs@.len());
                assert(foffs@.len() == n);
            }
            let steps = shift_steps(&rel_steps, base1, n);
            proof {
                lemma_level_steps_shift(fv, n as nat, base1 as int);
                assert forall|k: int| 0 <= k < foffs@.len() implies match #[trigger] foffs@[k] {
                    Some(o) => o < foffs@.len(),
                    None => true,
                } by {
                    assert(offsets_view(foffs@)[k] == inner_spec.offsets[k]);
                }
                assert forall|a: int, b: int|
                    0 <= a < zl@.len() && 0 <= b < zl@[a]@.len() implies (#[trigger] zl@[a]@[b]).target < n
                        && zl@[a]@[b].source < n by {
                    assert(levels_view(zl@)[a] == inner_spec.levels[a]);
                    assert(level_view(zl@[a]@)[b] == inner_spec.levels[a][b]);
                }
            }
            push_block_offsets(&mut offsets, &takes, &foffs, base, base1);
            push_shifted_levels(&mut levels, &zl, base1, n);
            let ghost lv0 = levels@;
            levels.push(steps);
            proof {
                let spec_next = flatten_spec(orig.take(i + 1), cur_embed, depth as int, start);
                assert(spec_next == add_block(prev, top, orig[i as int], inner_spec, child_embed));
                assert(views(out_layers@) =~= spec_next.layers);
                assert(offsets_view(offsets@) =~= spec_next.offsets) by {
                    let want = Seq::new(
                        n as nat,
                        |k: int|
                            if fv[k].parent == 0 && is_embed {
                                Some(base as int)
                            } else {
                                shift_offset(inner_spec.offsets[k], base1 as int)
                            },
                    );
                    assert forall|k: int| 0 <= k < n implies #[trigger] want[k] == (if takes@[k] {
                        Some(base as int)
                    } else {
                        shift_offset(offsets_view(foffs@)[k], base1 as int)
                    }) by {
                        assert(fv[k].parent == f@[k].parent);
                    }
                }
                assert(levels_view(levels@) =~= spec_next.levels) by {
                    assert(levels_view(levels@) == levels_view(lv0).push(level_view(steps@)));
                }
                assert(alloc.next == spec_next.next);
            }
        } else {
            proof {
                let spec_next = flatten_spec(orig.take(i + 1), cur_embed, depth as int, start);
                assert(views(out_layers@) =~= spec_next.layers);
            }
        }
        i = i + 1;
    }
    proof {
        assert(orig.take(orig.len() as int) =~= orig);
    }
    FlattenOutput { layers: out_layers, embed_offset_from: offsets, z_levels: levels }
}


/// Flattens a scene's pending layers: each layer is followed by its nested
/// layers (recursively flattened), which are given fresh ids from `alloc`;
/// layers nested in an embedded scene record that scene as their owner. The
/// nesting depth of the scene is not used.
pub fn flatten_pending_layers(layers: Vec<PendingIds>, nesting_depth: u32, alloc: &mut IdAllocator) -> (out: FlattenOutput)
    requires
        forest_height(layers@) <= u32::MAX,
    ensures
        views(out.layers@) == flatten_spec(layers@, 0, 0, old(alloc).next).layers,
        offsets_view(out.embed_offset_from@) == flatten_spec(layers@, 0, 0, old(alloc).next).offsets,
        levels_view(out.z_levels@) == flatten_spec(layers@, 0, 0, old(alloc).next).levels,
        final(alloc).next == flatten_spec(layers@, 0, 0, old(alloc).next).next,
        all_flat(out.layers@),
{
    flatten_inner(layers, 0, 0, alloc)
}


/// Number of layers in a list of layer trees, nested ones included.
pub open spec fn count_nodes(ls: Seq<PendingIds>) -> nat
    decreases ls,
{
    if ls.len() == 0 {
        0
    } else {
        count_nodes(ls.drop_last()) + 1 + count_nodes(ls.last().children@)
    }
}

/// Flattening keeps every layer: the flat list holds as many layers as the
/// trees, nested ones included, and every index it hands out points into it.
pub proof fn law_flatten_keeps_every_layer(layers: Seq<PendingIds>, cur_embed: u64, depth: int, next: u64)
    ensures
        flatten_spec(layers, cur_embed, depth, next).layers.len() == count_nodes(layers),
        indices_in_range(flatten_spec(layers, cur_embed, depth, next)),
    decreases layers,
{
    lemma_flatten_indices(layers, cur_embed, depth, next);
    if layers.len() > 0 {
        let prev = flatten_spec(layers.drop_last(), cur_embed, depth, next);
        law_flatten_keeps_every_layer(layers.drop_last(), cur_embed, depth, next);
        let layer = layers.last();
        if layer.children@.len() > 0 {
            let child_embed = if layer.is_embed { layer.id } else { cur_embed };
            let child_depth = if layer.is_embed { depth + 1 } else { depth };
            assert(decreases_to!(layers => layers[layers.len() - 1]));
            law_flatten_keeps_every_layer(layer.children@, child_embed, child_depth, prev.next);
            let inner = flatten_spec(layer.children@, child_embed, child_depth, prev.next);
            let o = flatten_spec(layers, cur_embed, depth, next);
            assert(o == add_block(prev, top_view(layer, cur_embed, depth), layer, inner, child_embed));
            assert(o.layers.len() == prev.layers.len() + 1 + inner.layers.len());
        } else {
            assert(count_nodes(layer.children@) == 0);
        }
        assert(count_nodes(layers) == count_nodes(layers.drop_last()) + 1 + count_nodes(layer.children@));
    }
}


/// Number of fresh ids that flattening `ls` hands out: each block of nested
/// layers is renamed once for every level it is lifted through.
pub open spec fn handed_out(ls: Seq<PendingIds>) -> nat
    decreases ls,
{
    if ls.len() == 0 {
        0
    } else {
        let c = ls.last().children@;
        handed_out(ls.drop_last()) + if c.len() > 0 {
            handed_out(c) + count_nodes(c)
        } else {
            0
        }
    }
}

proof fn lemma_advance_no_wrap(c: u64, k: nat)
    requires
        c + k <= u64::MAX,
    ensures
        advance(c, k) == c + k,
    decreases k,
{
    if k > 0 {
        lemma_advance_no_wrap(c, (k - 1) as nat);
    }
}

/// Nested layers get fresh ids: when the counter cannot wrap, every layer of
/// the flat list is either one of the top-level layers as it was given (but
/// for its owning scene) or carries an id handed out by the counter, which
/// ends exactly as many ids further as `handed_out` counts.
pub proof fn law_flatten_fresh_ids(layers: Seq<PendingIds>, cur_embed: u64, depth: int, start: u64)
    requires
        start + handed_out(layers) <= u64::MAX,
    ensures
        flatten_spec(layers, cur_embed, depth, start).next == start + handed_out(layers),
        forall|p: int|
            0 <= p < flatten_spec(layers, cur_embed, depth, start).layers.len() ==> {
                let v = #[trigger] flatten_spec(layers, cur_embed, depth, start).layers[p];
                ||| exists|j: int| 0 <= j < layers.len() && v == top_view(layers[j], cur_embed, depth)
                ||| start <= v.id < start + handed_out(layers)
            },
    decreases layers,
{
    if layers.len() > 0 {
        let pre = layers.drop_last();
        let prev = flatten_spec(pre, cur_embed, depth, start);
        law_flatten_fresh_ids(pre, cur_embed, depth, start);
        let layer = layers.last();
        let o = flatten_spec(layers, cur_embed, depth, start);
        let top = top_view(layer, cur_embed, depth);
        assert forall|j: int| 0 <= j < pre.len() implies #[trigger] pre[j] == layers[j] by {}
        if layer.children@.len() > 0 {
            let c = layer.children@;
            let child_embed = if layer.is_embed { layer.id } else { cur_embed };
            let child_depth = if layer.is_embed { depth + 1 } else { depth };
            assert(decreases_to!(layers => layers[layers.len() - 1]));
            law_flatten_fresh_ids(c, child_embed, child_depth, prev.next);
            law_flatten_keeps_every_layer(c, child_embed, child_depth, prev.next);
            let inner = flatten_spec(c, child_embed, child_depth, prev.next);
            assert(o == add_block(prev, top, layer, inner, child_embed));
            let f = inner.layers;
            let m = fresh_pairs(f, inner.next);
            lemma_advance_no_wrap(inner.next, f.len());
            assert forall|p: int| 0 <= p < o.layers.len() implies {
                let v = #[trigger] o.layers[p];
                ||| exists|j: int| 0 <= j < layers.len() && v == top_view(layers[j], cur_embed, depth)
                ||| start <= v.id < start + handed_out(layers)
            } by {
                let base = prev.layers.len() as int;
                if p < base {
                    assert(o.layers[p] == prev.layers[p]);
                } else if p == base {
                    assert(o.layers[p] == top_view(layers[layers.len() - 1], cur_embed, depth));
                } else {
                    let k = p - base - 1;
                    lemma_advance_no_wrap(inner.next, k as nat);
                    assert(m[k].1 == advance(inner.next, k as nat));
                    assert(o.layers[p].id == m[k].1);
                }
            }
        } else {
            assert forall|p: int| 0 <= p < o.layers.len() implies {
                let v = #[trigger] o.layers[p];
                ||| exists|j: int| 0 <= j < layers.len() && v == top_view(layers[j], cur_embed, depth)
                ||| start <= v.id < start + handed_out(layers)
            } by {
                if p < prev.layers.len() {
                    assert(o.layers[p] == prev.layers[p]);
                } else {
                    assert(o.layers[p] == top_view(layers[layers.len() - 1], cur_embed, depth));
                }
            }
        }
    }
}


/// A layer's offset always comes from an embedded scene: every offset index
/// of a flattening points at a layer that is an embedded scene.
pub proof fn law_offsets_come_from_embeds(layers: Seq<PendingIds>, cur_embed: u64, depth: int, next: u64)
    ensures
        forall|k: int|
            0 <= k < flatten_spec(layers, cur_embed, depth, next).offsets.len() ==> match #[trigger] flatten_spec(
                layers,
                cur_embed,
                depth,
                next,
            ).offsets[k] {
                Some(i) => flatten_spec(layers, cur_embed, depth, next).layers[i].is_embed,
                None => true,
            },
    decreases layers,
{
    lemma_flatten_indices(layers, cur_embed, depth, next);
    if layers.len() > 0 {
        let prev = flatten_spec(layers.drop_last(), cur_embed, depth, next);
        law_offsets_come_from_embeds(layers.drop_last(), cur_embed, depth, next);
        lemma_flatten_indices(layers.drop_last(), cur_embed, depth, next);
        let layer = layers.last();
        let o = flatten_spec(layers, cur_embed, depth, next);
        let top = top_view(layer, cur_embed, depth);
        let base = prev.layers.len() as int;
        if layer.children@.len() > 0 {
            let child_embed = if layer.is_embed { layer.id } else { cur_embed };
            let child_depth = if layer.is_embed { depth + 1 } else { depth };
            assert(decreases_to!(layers => layers[layers.len() - 1]));
            let inner = flatten_spec(layer.children@, child_embed, child_depth, prev.next);
            law_offsets_come_from_embeds(layer.children@, child_embed, child_depth, prev.next);
            lemma_flatten_indices(layer.children@, child_embed, child_depth, prev.next);
            assert(o == add_block(prev, top, layer, inner, child_embed));
            let f = inner.layers;
            let m = fresh_pairs(f, inner.next);
            assert forall|k: int| 0 <= k < o.offsets.len() implies match #[trigger] o.offsets[k] {
                Some(i) => o.layers[i].is_embed,
                None => true,
            } by {
                if k < base {
                    assert(o.offsets[k] == prev.offsets[k]);
                    if let Some(i) = prev.offsets[k] {
                        assert(o.layers[i] == prev.layers[i]);
                    }
                } else if k > base {
                    let kk = k - base - 1;
                    if f[kk].parent == 0 && layer.is_embed {
                        assert(o.layers[base] == top);
                    } else if let Some(i) = inner.offsets[kk] {
                        assert(o.layers[base + 1 + i] == remapped_child(
                            FlatView { id: m[i].1, ..f[i] },
                            m,
                            layer.id,
                            layer.is_embed,
                            child_embed,
                        ));
                    }
                }
            }
        } else {
            assert forall|k: int| 0 <= k < o.offsets.len() implies match #[trigger] o.offsets[k] {
                Some(i) => o.layers[i].is_embed,
                None => true,
            } by {
                if k < base {
                    assert(o.offsets[k] == prev.offsets[k]);
                    if let Some(i) = prev.offsets[k] {
                        assert(o.layers[i] == prev.layers[i]);
                    }
                }
            }
        }
    }
}


/// Flattened copies get distinct ids: when the counter cannot wrap and every
/// top-level layer's id lies below its start, two layers of the flat list can
/// share an id only if it lies below the start, that is, only if both are
/// top-level layers kept as given; every renamed layer has an id of its own.
pub proof fn law_flatten_copies_distinct(layers: Seq<PendingIds>, cur_embed: u64, depth: int, start: u64)
    requires
        start + handed_out(layers) <= u64::MAX,
        forall|j: int| 0 <= j < layers.len() ==> (#[trigger] layers[j]).id < start,
    ensures
        forall|p: int, q: int|
            0 <= p < q < flatten_spec(layers, cur_embed, depth, start).layers.len()
                && (#[trigger] flatten_spec(layers, cur_embed, depth, start).layers[p]).id
                == (#[trigger] flatten_spec(layers, cur_embed, depth, start).layers[q]).id
                ==> flatten_spec(layers, cur_embed, depth, start).layers[p].id < start,
    decreases layers,
{
    law_flatten_fresh_ids(layers, cur_embed, depth, start);
    if layers.len() > 0 {
        let pre = layers.drop_last();
        let prev = flatten_spec(pre, cur_embed, depth, start);
        assert forall|j: int| 0 <= j < pre.len() implies (#[trigger] pre[j]).id < start by {
            assert(pre[j] == layers[j]);
        }
        law_flatten_copies_distinct(pre, cur_embed, depth, start);
        law_flatten_fresh_ids(pre, cur_embed, depth, start);
        let layer = layers.last();
        assert(layer == layers[layers.len() - 1]);
        let o = flatten_spec(layers, cur_embed, depth, start);
        let top = top_view(layer, cur_embed, depth);
        let base = prev.layers.len() as int;
        // Ids of the earlier part are either below the start or handed out before `prev.next`.
        assert forall|p: int| 0 <= p < base implies (#[trigger] prev.layers[p]).id < start
            || prev.layers[p].id < prev.next by {
            let v = prev.layers[p];
            if exists|j: int| 0 <= j < pre.len() && v == top_view(pre[j], cur_embed, depth) {
                let j = choose|j: int| 0 <= j < pre.len() && v == top_view(pre[j], cur_embed, depth);
                assert(pre[j].id < start);
            }
        }
        if layer.children@.len() > 0 {
            let c = layer.children@;
            let child_embed = if layer.is_embed { layer.id } else { cur_embed };
            let child_depth = if layer.is_embed { depth + 1 } else { depth };
            assert(decreases_to!(layers => layers[layers.len() - 1]));
            law_flatten_fresh_ids(c, child_embed, child_depth, prev.next);
            law_flatten_keeps_every_layer(c, child_embed, child_depth, prev.next);
            let inner = flatten_spec(c, child_embed, child_depth, prev.next);
            assert(o == add_block(prev, top, layer, inner, child_embed));
            let f = inner.layers;
            let m = fresh_pairs(f, inner.next);
            assert forall|p: int, q: int|
                0 <= p < q < o.layers.len() && (#[trigger] o.layers[p]).id == (#[trigger] o.layers[q]).id
                implies o.layers[p].id < start by {
                if q < base {
                    assert(o.layers[p] == prev.layers[p] && o.layers[q] == prev.layers[q]);
                } else if q == base {
                    assert(o.layers[q] == top);
                } else {
                    let kq = q - base - 1;
                    lemma_advance_no_wrap(inner.next, kq as nat);
                    assert(o.layers[base + 1 + kq].id == m[kq].1);
                    assert(o.layers[q].id == inner.next + kq);
                    if p < base {
                        assert(o.layers[p] == prev.layers[p]);
                    } else if p == base {
                        assert(o.layers[p] == top);
                    } else {
                        let kp = p - base - 1;
                        lemma_advance_no_wrap(inner.next, kp as nat);
                        assert(o.layers[base + 1 + kp].id == m[kp].1);
                        assert(o.layers[p].id == inner.next + kp);
                    }
                }
            }
        } else {
            assert forall|p: int, q: int|
                0 <= p < q < o.layers.len() && (#[trigger] o.layers[p]).id == (#[trigger] o.layers[q]).id
                implies o.layers[p].id < start by {
                if q < base {
                    assert(o.layers[p] == prev.layers[p] && o.layers[q] == prev.layers[q]);
                } else {
                    assert(o.layers[q] == top);
                }
            }
        }
    }
}


} // verus!
