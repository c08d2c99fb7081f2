//! Masks: which mask layers clip which layers, and which masks are active at
//! a given time.
//!
//! A mask entry holds what these decisions read (ids, times, flags) and a
//! `geometry` number under which the caller keeps the mask's shape.
use vstd::prelude::*;
use crate::blending::AmBlendingMode;

verus! {

/// A mask that clips a layer.
#[derive(Debug, Clone, Copy, PartialEq, Eq, Structural)]
pub struct AmMaskEntry {
    /// Start of the mask's lifetime, in milliseconds of global time.
    pub start_time: i32,
    /// End of the mask's lifetime (exclusive).
    pub end_time: i32,
    /// Id of the mask layer.
    pub mask_layer_id: u64,
    /// The mask cuts out (exclude) rather than keeps (mask).
    pub is_exclude: bool,
    /// Parent id of the mask layer.
    pub mask_parent_layer_id: u64,
    /// The mask is an embedded scene.
    pub is_embed_mask: bool,
    /// The mask is a circle.
    pub is_circle: bool,
    /// Number of the mask's shape in the caller's geometry table.
    pub geometry: usize,
}

/// The masks that clip a layer.
#[derive(Debug, Clone)]
pub struct AmMaskInfo {
    /// Masks, in the order they were found.
    pub masks: Vec<AmMaskEntry>,
}

/// A mask is active at time `t` when `t` lies in `[start_time, end_time)`.
pub open spec fn is_active(m: AmMaskEntry, t: int) -> bool {
    m.start_time <= t < m.end_time
}

/// The time, in the signed milliseconds that masks are compared with, of a
/// playback position.
pub open spec fn signed_time(time_ms: u64) -> int {
    (time_ms as i64) as int
}

/// The masks active at `t`, in order.
pub open spec fn active_at(masks: Seq<AmMaskEntry>, t: int) -> Seq<AmMaskEntry> {
    masks.filter(|m: AmMaskEntry| is_active(m, t))
}

/// Whether some entry of `s` belongs to mask layer `id`.
pub open spec fn has_mask_id(s: Seq<AmMaskEntry>, id: u64) -> bool {
    exists|k: int| 0 <= k < s.len() && (#[trigger] s[k]).mask_layer_id == id
}

/// `s` with every entry dropped whose mask layer occurs earlier in `s`.
pub open spec fn dedup_by_layer(s: Seq<AmMaskEntry>) -> Seq<AmMaskEntry>
    decreases s.len(),
{
    if s.len() == 0 {
        s
    } else {
        let d = dedup_by_layer(s.drop_last());
        if has_mask_id(s.drop_last(), s.last().mask_layer_id) {
            d
        } else {
            d.push(s.last())
        }
    }
}

proof fn lemma_dedup_ids(s: Seq<AmMaskEntry>)
    ensures
        forall|id: u64| #[trigger] has_mask_id(dedup_by_layer(s), id) == has_mask_id(s, id),
        forall|i: int, j: int|
            0 <= i < j < dedup_by_layer(s).len() ==> (#[trigger] dedup_by_layer(s)[i]).mask_layer_id
                != (#[trigger] dedup_by_layer(s)[j]).mask_layer_id,
        s.len() > 0 ==> dedup_by_layer(s).len() > 0 && dedup_by_layer(s)[0] == s[0],
    decreases s.len(),
{
    if s.len() > 0 {
        let s0 = s.drop_last();
        let x = s.last();
        lemma_dedup_ids(s0);
        let d0 = dedup_by_layer(s0);
        assert forall|id: u64| #[trigger] has_mask_id(dedup_by_layer(s), id) == has_mask_id(s, id) by {
            if has_mask_id(s, id) {
                let k = choose|k: int| 0 <= k < s.len() && (#[trigger] s[k]).mask_layer_id == id;
                if k < s.len() - 1 {
                    assert(s0[k] == s[k]);
                    assert(has_mask_id(s0, id));
                    assert(has_mask_id(dedup_by_layer(s0), id));
                    if !has_mask_id(s0, x.mask_layer_id) {
                        let k2 = choose|k2: int| 0 <= k2 < d0.len() && (#[trigger] d0[k2]).mask_layer_id == id;
                        assert(d0.push(x)[k2] == d0[k2]);
                    }
                } else {
                    if has_mask_id(s0, x.mask_layer_id) {
                    } else {
                        assert(d0.push(x)[d0.len() as int] == x);
                    }
                }
            }
            if has_mask_id(dedup_by_layer(s), id) {
                if has_mask_id(s0, x.mask_layer_id) {
                    assert(has_mask_id(dedup_by_layer(s0), id));
                    let k = choose|k: int| 0 <= k < s0.len() && (#[trigger] s0[k]).mask_layer_id == id;
                    assert(s[k] == s0[k]);
                } else {
                    let k = choose|k: int| 0 <= k < d0.len() + 1 && (#[trigger] d0.push(x)[k]).mask_layer_id == id;
                    if k < d0.len() {
                        assert(d0.push(x)[k] == d0[k]);
                        assert(has_mask_id(d0, id));
                        assert(has_mask_id(dedup_by_layer(s0), id));
                        let k2 = choose|k2: int| 0 <= k2 < s0.len() && (#[trigger] s0[k2]).mask_layer_id == id;
                        assert(s[k2] == s0[k2]);
                    } else {
                        assert(s[s.len() - 1] == x);
                    }
                }
            }
        }
        if s0.len() == 0 {
            assert(!has_mask_id(s0, x.mask_layer_id));
            assert(dedup_by_layer(s) == d0.push(x));
            assert(d0.push(x)[0] == x);
            assert(s[0] == x);
        } else {
            assert(s0[0] == s[0]);
            if !has_mask_id(s0, x.mask_layer_id) {
                assert(d0.push(x)[0] == d0[0]);
            }
        }
        if !has_mask_id(s0, x.mask_layer_id) {
            assert(!has_mask_id(d0, x.mask_layer_id));
            assert forall|i: int, j: int|
                0 <= i < j < d0.push(x).len() implies (#[trigger] d0.push(x)[i]).mask_layer_id != (
            #[trigger] d0.push(x)[j]).mask_layer_id by {
                if j == d0.len() {
                    assert(d0[i] == d0.push(x)[i]);
                }
            }
        }
    }
}

impl AmMaskInfo {
    /// The first mask active at `time_ms`.
    pub fn get_active_mask(&self, time_ms: u64) -> (r: Option<&AmMaskEntry>)
        ensures
            r is Some == (active_at(self.masks@, signed_time(time_ms)).len() > 0),
            r matches Some(m) ==> *m == active_at(self.masks@, signed_time(time_ms))[0],
    {
        let t = #[verifier::truncate] (time_ms as i64);
        let ghost tt = signed_time(time_ms);
        let mut i: usize = 0;
        proof {
            assert(active_at(self.masks@.take(0), tt) =~= Seq::<AmMaskEntry>::empty());
        }
        while i < self.masks.len()
            invariant
                i <= self.masks@.len(),
                t as int == tt,
                tt == signed_time(time_ms),
                active_at(self.masks@.take(i as int), tt).len() == 0,
            decreases self.masks.len() - i,
        {
            let m = &self.masks[i];
            proof {
                assert(self.masks@.take(i + 1) =~= self.masks@.take(i as int).push(*m));
                lemma_active_at_push(self.masks@.take(i as int), *m, tt);
            }
            if t >= m.start_time as i64 && t < m.end_time as i64 {
                proof {
                    assert(self.masks@[i as int] == *m);
                    lemma_active_first(self.masks@, tt, i as int);
                }
                return Some(m);
            }
            i = i + 1;
        }
        proof {
            assert(self.masks@.take(self.masks@.len() as int) =~= self.masks@);
        }
        None
    }

    /// The masks active at `time_ms`, one per mask layer (the first entry of
    /// each), in order.
    pub fn get_active_masks(&self, time_ms: u64) -> (r: Vec<&AmMaskEntry>)
        ensures
            r@.map_values(|m: &AmMaskEntry| *m) == dedup_by_layer(
                active_at(self.masks@, signed_time(time_ms)),
            ),
    {
        let t = #[verifier::truncate] (time_ms as i64);
        let ghost tt = signed_time(time_ms);
        let mut out: Vec<&AmMaskEntry> = Vec::new();
        let mut i: usize = 0;
        proof {
            assert(active_at(self.masks@.take(0), tt) =~= Seq::<AmMaskEntry>::empty());
            assert(out@.map_values(|m: &AmMaskEntry| *m) =~= Seq::<AmMaskEntry>::empty());
        }
        while i < self.masks.len()
            invariant
                i <= self.masks@.len(),
                t as int == tt,
                tt == signed_time(time_ms),
                out@.map_values(|m: &AmMaskEntry| *m) == dedup_by_layer(
                    active_at(self.masks@.take(i as int), tt),
                ),
            decreases self.masks.len() - i,
        {
            let m = &self.masks[i];
            let ghost pre = active_at(self.masks@.take(i as int), tt);
            proof {
                assert(self.masks@.take(i + 1) =~= self.masks@.take(i as int).push(*m));
                lemma_active_at_push(self.masks@.take(i as int), *m, tt);
                lemma_dedup_ids(pre);
            }
            if t >= m.start_time as i64 && t < m.end_time as i64 {
                let mut seen = false;
                let mut k: usize = 0;
                while k < out.len()
                    invariant
                        k <= out@.len(),
                        seen == exists|j: int| 0 <= j < k && (#[trigger] out@[j]).mask_layer_id
                            == m.mask_layer_id,
                    decreases out.len() - k,
                {
                    if out[k].mask_layer_id == m.mask_layer_id {
                        seen = true;
                    }
                    k = k + 1;
                }
                let ghost dv = out@.map_values(|m: &AmMaskEntry| *m);
                proof {
                    assert(pre.push(*m).drop_last() =~= pre);
                    assert(pre.push(*m).last() == *m);
                    if seen {
                        let j = choose|j: int| 0 <= j < out@.len() && (#[trigger] out@[j]).mask_layer_id
                            == m.mask_layer_id;
                        assert(dv[j] == *out@[j]);
                        assert(has_mask_id(dv, m.mask_layer_id));
                        assert(has_mask_id(dedup_by_layer(pre), m.mask_layer_id));
                    } else {
                        assert forall|j: int| 0 <= j < dv.len() implies (#[trigger] dv[j]).mask_layer_id
                            != m.mask_layer_id by {
                            assert(dv[j] == *out@[j]);
                        }
                        assert(!has_mask_id(dedup_by_layer(pre), m.mask_layer_id));
                    }
                }
                if !seen {
                    out.push(m);
                    proof {
                        assert(out@.map_values(|m: &AmMaskEntry| *m) =~= dv.push(*m));
                    }
                }
            }
            i = i + 1;
        }
        proof {
            assert(self.masks@.take(self.masks@.len() as int) =~= self.masks@);
        }
        out
    }
}

proof fn lemma_active_at_push(s: Seq<AmMaskEntry>, m: AmMaskEntry, t: int)
    ensures
        active_at(s.push(m), t) == if is_active(m, t) {
            active_at(s, t).push(m)
        } else {
            active_at(s, t)
        },
{
    broadcast use Seq::lemma_filter_push;
    s.lemma_filter_push(m, |m: AmMaskEntry| is_active(m, t));
}

proof fn lemma_active_first(s: Seq<AmMaskEntry>, t: int, i: int)
    requires
        0 <= i < s.len(),
        active_at(s.take(i), t).len() == 0,
        is_active(s[i], t),
    ensures
        active_at(s, t).len() > 0,
        active_at(s, t)[0] == s[i],
{
    broadcast use Seq::filter_distributes_over_add;
    let p = |m: AmMaskEntry| is_active(m, t);
    assert(s =~= s.take(i + 1) + s.skip(i + 1));
    assert(s.take(i + 1) =~= s.take(i).push(s[i]));
    lemma_active_at_push(s.take(i), s[i], t);
    assert(active_at(s.take(i), t).push(s[i]) =~= seq![s[i]]);
    assert(active_at(s, t) == active_at(s.take(i + 1), t) + active_at(s.skip(i + 1), t));
}

/// The first active mask is the first of the active masks; at any time the
/// active masks belong to distinct mask layers.
pub proof fn law_active_masks(masks: Seq<AmMaskEntry>, t: int)
    ensures
        active_at(masks, t).len() > 0 <==> dedup_by_layer(active_at(masks, t)).len() > 0,
        active_at(masks, t).len() > 0 ==> dedup_by_layer(active_at(masks, t))[0] == active_at(
            masks,
            t,
        )[0],
        forall|i: int, j: int|
            0 <= i < j < dedup_by_layer(active_at(masks, t)).len() ==> (#[trigger] dedup_by_layer(
                active_at(masks, t),
            )[i]).mask_layer_id != (#[trigger] dedup_by_layer(active_at(masks, t))[j]).mask_layer_id,
{
    lemma_dedup_ids(active_at(masks, t));
    lemma_dedup_len(active_at(masks, t));
}

proof fn lemma_dedup_len(s: Seq<AmMaskEntry>)
    ensures
        dedup_by_layer(s).len() <= s.len(),
    decreases s.len(),
{
    if s.len() > 0 {
        lemma_dedup_len(s.drop_last());
    }
}


// ---------------------------------------------------------------------------
// Mask scoping over the layers of a flattened scene

/// What mask scoping reads of a layer of the flattened scene, and the masks
/// it assigns to it.
#[derive(Debug)]
pub struct MaskLayer {
    /// Layer id.
    pub id: u64,
    /// Parent layer id (0 when there is none).
    pub parent: u64,
    /// Id of the embedded scene the layer belongs to (0 when none).
    pub containing_embed_id: u64,
    /// Stacking order: a layer with a greater value lies above.
    pub z_order: i64,
    /// Blend mode of the layer.
    pub blending_mode: AmBlendingMode,
    /// Hidden in the editor.
    pub hidden: bool,
    /// The mask this layer forms when its blend mode makes it a mask, if its
    /// shape can serve as one.
    pub mask_entry: Option<AmMaskEntry>,
    /// The layer is an embedded scene rendered to its own texture.
    pub requires_composite: bool,
    /// Masks that clip the layer.
    pub mask_info: Option<AmMaskInfo>,
    /// Nested layers.
    pub children: Vec<MaskLayer>,
}

/// A mask layer as mask scoping sees it.
#[derive(Debug, Clone, Copy, PartialEq, Eq, Structural)]
pub struct MaskSource {
    /// Id of the mask layer.
    pub id: u64,
    /// Its parent id.
    pub parent: u64,
    /// Its stacking order.
    pub z_order: i64,
    /// The mask it forms.
    pub entry: AmMaskEntry,
}

pub open spec fn is_mask_mode(m: AmBlendingMode) -> bool {
    m == AmBlendingMode::Mask || m == AmBlendingMode::Exclude
}

pub open spec fn masks_view(i: Option<AmMaskInfo>) -> Option<Seq<AmMaskEntry>> {
    match i {
        Some(info) => Some(info.masks@),
        None => None,
    }
}

/// A layer clips others when its blend mode makes it a mask, it is not
/// hidden, and its shape can serve as a mask.
pub open spec fn is_mask_source(l: MaskLayer) -> bool {
    is_mask_mode(l.blending_mode) && !l.hidden && l.mask_entry is Some
}

pub open spec fn source_of(l: MaskLayer) -> MaskSource {
    let e = l.mask_entry->0;
    MaskSource {
        id: l.id,
        parent: l.parent,
        z_order: l.z_order,
        entry: AmMaskEntry {
            start_time: e.start_time,
            end_time: e.end_time,
            mask_layer_id: e.mask_layer_id,
            is_exclude: l.blending_mode == AmBlendingMode::Exclude,
            mask_parent_layer_id: e.mask_parent_layer_id,
            is_embed_mask: e.is_embed_mask,
            is_circle: e.is_circle,
            geometry: e.geometry,
        },
    }
}

/// The masks of a layer list, in order.
pub open spec fn mask_sources(layers: Seq<MaskLayer>) -> Seq<MaskSource> {
    layers.filter(|l: MaskLayer| is_mask_source(l)).map_values(|l: MaskLayer| source_of(l))
}

/// The parent of the last layer with this id.
pub open spec fn parent_of(layers: Seq<MaskLayer>, id: u64) -> Option<u64>
    decreases layers.len(),
{
    if layers.len() == 0 {
        None
    } else if layers.last().id == id {
        Some(layers.last().parent)
    } else {
        parent_of(layers.drop_last(), id)
    }
}

/// Whether `layer_id` lies on the parent chain that starts at `p`, following
/// the chain for at most `fuel` links.
pub open spec fn is_ancestor(layers: Seq<MaskLayer>, layer_id: u64, p: u64, fuel: nat) -> bool
    decreases fuel,
{
    if p == 0 {
        false
    } else if layer_id == p {
        true
    } else {
        match parent_of(layers, p) {
            Some(g) => if g != 0 && fuel > 0 {
                is_ancestor(layers, layer_id, g, (fuel - 1) as nat)
            } else {
                false
            },
            None => false,
        }
    }
}

/// A mask clips a layer when it lies above it and shares its scope: a root
/// layer is clipped by any mask above it except the masks it owns (those whose
/// parent chain passes through it); a child layer by the masks of its parent.
pub open spec fn mask_applies(layers: Seq<MaskLayer>, l: MaskLayer, m: MaskSource) -> bool {
    &&& m.id != l.id
    &&& m.z_order > l.z_order
    &&& if l.parent == 0 {
        !is_ancestor(layers, l.id, m.parent, layers.len())
    } else {
        m.parent == l.parent
    }
}

/// The masks among `srcs` that clip `l`, one per mask layer, in order.
pub open spec fn applicable_from(layers: Seq<MaskLayer>, l: MaskLayer, srcs: Seq<MaskSource>) -> Seq<
    AmMaskEntry,
>
    decreases srcs.len(),
{
    if srcs.len() == 0 {
        Seq::empty()
    } else {
        let a = applicable_from(layers, l, srcs.drop_last());
        let m = srcs.last();
        if mask_applies(layers, l, m) && !has_mask_id(a, m.entry.mask_layer_id) {
            a.push(m.entry)
        } else {
            a
        }
    }
}

/// The masks of a layer once the masks above it in its scope are added.
pub open spec fn direct_masks(layers: Seq<MaskLayer>, l: MaskLayer) -> Option<Seq<AmMaskEntry>> {
    if is_mask_mode(l.blending_mode) {
        masks_view(l.mask_info)
    } else {
        let a = applicable_from(layers, l, mask_sources(layers));
        if a.len() == 0 {
            masks_view(l.mask_info)
        } else {
            match masks_view(l.mask_info) {
                None => Some(a),
                Some(m) => Some(m + a),
            }
        }
    }
}

pub open spec fn direct_state(layers: Seq<MaskLayer>) -> Seq<Option<Seq<AmMaskEntry>>> {
    layers.map_values(|l: MaskLayer| direct_masks(layers, l))
}

/// Whether some layer with this id renders to its own texture.
pub open spec fn is_composite(layers: Seq<MaskLayer>, id: u64) -> bool {
    exists|i: int| 0 <= i < layers.len() && (#[trigger] layers[i]).id == id && layers[i].requires_composite
}

/// The masks of the last of the first `k` layers that has this id and masks.
pub open spec fn lookup_masks(
    layers: Seq<MaskLayer>,
    state: Seq<Option<Seq<AmMaskEntry>>>,
    id: u64,
    k: int,
) -> Option<Seq<AmMaskEntry>>
    decreases k,
{
    if k <= 0 {
        None
    } else if layers[k - 1].id == id && state[k - 1] is Some {
        state[k - 1]
    } else {
        lookup_masks(layers, state, id, k - 1)
    }
}

/// Where a layer without masks inherits them from: its parent, or else the
/// embedded scene it belongs to.
pub open spec fn inherit_source(l: MaskLayer) -> Option<u64> {
    if l.parent != 0 {
        Some(l.parent)
    } else if l.containing_embed_id != 0 {
        Some(l.containing_embed_id)
    } else {
        None
    }
}

/// The masks of layer `i` after one round of inheritance.
pub open spec fn round_at(layers: Seq<MaskLayer>, state: Seq<Option<Seq<AmMaskEntry>>>, i: int) -> Option<
    Seq<AmMaskEntry>,
> {
    if is_mask_mode(layers[i].blending_mode) || state[i] is Some {
        state[i]
    } else {
        match inherit_source(layers[i]) {
            Some(sid) => if !is_composite(layers, sid) {
                lookup_masks(layers, state, sid, layers.len() as int)
            } else {
                None
            },
            None => None,
        }
    }
}

pub open spec fn round(layers: Seq<MaskLayer>, state: Seq<Option<Seq<AmMaskEntry>>>) -> Seq<
    Option<Seq<AmMaskEntry>>,
> {
    Seq::new(state.len(), |i: int| round_at(layers, state, i))
}

/// Whether a round of inheritance gives some layer masks.
pub open spec fn changed(layers: Seq<MaskLayer>, state: Seq<Option<Seq<AmMaskEntry>>>) -> bool {
    exists|i: int| 0 <= i < state.len() && state[i] is None && (#[trigger] round_at(layers, state, i)) is Some
}

pub open spec fn count_none(state: Seq<Option<Seq<AmMaskEntry>>>) -> nat
    decreases state.len(),
{
    if state.len() == 0 {
        0
    } else {
        count_none(state.drop_last()) + if state.last() is None {
            1nat
        } else {
            0nat
        }
    }
}

proof fn lemma_count_none_mono(a: Seq<Option<Seq<AmMaskEntry>>>, b: Seq<Option<Seq<AmMaskEntry>>>)
    requires
        a.len() == b.len(),
        forall|i: int| 0 <= i < a.len() && (#[trigger] b[i]) is None ==> a[i] is None,
    ensures
        count_none(b) <= count_none(a),
        (exists|i: int| 0 <= i < a.len() && #[trigger] a[i] is None && b[i] is Some) ==> count_none(b)
            < count_none(a),
    decreases a.len(),
{
    if a.len() > 0 {
        let a0 = a.drop_last();
        let b0 = b.drop_last();
        assert forall|i: int| 0 <= i < a0.len() && (#[trigger] b0[i]) is None implies a0[i] is None by {
            assert(b0[i] == b[i] && a0[i] == a[i]);
        }
        lemma_count_none_mono(a0, b0);
        if exists|i: int| 0 <= i < a.len() && #[trigger] a[i] is None && b[i] is Some {
            let i = choose|i: int| 0 <= i < a.len() && #[trigger] a[i] is None && b[i] is Some;
            if i < a.len() - 1 {
                assert(a0[i] == a[i] && b0[i] == b[i]);
            }
        }
        assert(b[b.len() - 1] is None ==> a[a.len() - 1] is None);
    }
}

/// Each round that changes something gives masks to at least one more layer,
/// so inheritance ends.
pub proof fn lemma_round_fewer_none(layers: Seq<MaskLayer>, state: Seq<Option<Seq<AmMaskEntry>>>)
    requires
        changed(layers, state),
    ensures
        count_none(round(layers, state)) < count_none(state),
{
    let r = round(layers, state);
    assert forall|i: int| 0 <= i < state.len() && (#[trigger] r[i]) is None implies state[i] is None by {}
    let i = choose|i: int| 0 <= i < state.len() && state[i] is None && (#[trigger] round_at(layers, state, i)) is Some;
    assert(r[i] == round_at(layers, state, i));
    lemma_count_none_mono(state, r);
}

/// The masks of every layer once inheritance has run until no layer gains
/// masks.
pub open spec fn propagate(layers: Seq<MaskLayer>, state: Seq<Option<Seq<AmMaskEntry>>>) -> Seq<
    Option<Seq<AmMaskEntry>>,
>
    decreases count_none(state),
{
    if changed(layers, state) {
        proof {
            lemma_round_fewer_none(layers, state);
        }
        propagate(layers, round(layers, state))
    } else {
        state
    }
}

/// `s` followed by the entries of `masks` whose mask layer `s` lacks.
pub open spec fn merge_nested(old: Option<Seq<AmMaskEntry>>, masks: Seq<AmMaskEntry>) -> Seq<AmMaskEntry> {
    match old {
        None => masks,
        Some(m) => m + masks.filter(|x: AmMaskEntry| !has_mask_id(m, x.mask_layer_id)),
    }
}

/// Two layers agree on everything but their masks and nested layers.
pub open spec fn same_scalars(a: MaskLayer, b: MaskLayer) -> bool {
    &&& a.id == b.id
    &&& a.parent == b.parent
    &&& a.containing_embed_id == b.containing_embed_id
    &&& a.z_order == b.z_order
    &&& a.blending_mode == b.blending_mode
    &&& a.hidden == b.hidden
    &&& a.mask_entry == b.mask_entry
    &&& a.requires_composite == b.requires_composite
}

/// `new` is `old` with `masks` handed down: a mask layer and everything under
/// it keep their masks; any other layer gains the masks it lacks, and so do
/// the layers nested under it.
pub open spec fn nested_ok(old: MaskLayer, new: MaskLayer, masks: Seq<AmMaskEntry>) -> bool
    decreases old,
{
    &&& same_scalars(old, new)
    &&& if is_mask_mode(old.blending_mode) {
        new.mask_info == old.mask_info && new.children == old.children
    } else {
        &&& masks_view(new.mask_info) == Some(merge_nested(masks_view(old.mask_info), masks))
        &&& new.children@.len() == old.children@.len()
        &&& forall|j: int|
            0 <= j < old.children@.len() ==> nested_ok(
                #[trigger] old.children@[j],
                new.children@[j],
                masks,
            )
    }
}


pub open spec fn state_view(v: Seq<Option<Vec<AmMaskEntry>>>) -> Seq<Option<Seq<AmMaskEntry>>> {
    v.map_values(
        |o: Option<Vec<AmMaskEntry>>|
            match o {
                Some(m) => Some(m@),
                None => None,
            },
    )
}

fn copy_entries(v: &Vec<AmMaskEntry>) -> (r: Vec<AmMaskEntry>)
    ensures
        r@ == v@,
{
    let mut r: Vec<AmMaskEntry> = Vec::new();
    let mut k: usize = 0;
    while k < v.len()
        invariant
            k <= v@.len(),
            r@ == v@.take(k as int),
        decreases v.len() - k,
    {
        r.push(v[k]);
        proof {
            assert(v@.take(k + 1) =~= v@.take(k as int).push(v@[k as int]));
        }
        k = k + 1;
    }
    assert(v@.take(v@.len() as int) =~= v@);
    r
}

fn copy_masks(o: &Option<AmMaskInfo>) -> (r: Option<Vec<AmMaskEntry>>)
    ensures
        match r {
            Some(m) => masks_view(*o) == Some(m@),
            None => masks_view(*o) is None,
        },
{
    match o {
        Some(info) => Some(copy_entries(&info.masks)),
        None => None,
    }
}

fn parent_lookup(layers: &Vec<MaskLayer>, id: u64) -> (r: Option<u64>)
    ensures
        r == parent_of(layers@, id),
{
    let mut k: usize = layers.len();
    proof {
        assert(layers@.take(layers@.len() as int) =~= layers@);
    }
    while k > 0
        invariant
            k <= layers@.len(),
            parent_of(layers@, id) == parent_of(layers@.take(k as int), id),
        decreases k,
    {
        let ghost pre = layers@.take(k as int);
        proof {
            assert(pre.drop_last() =~= layers@.take(k - 1));
            assert(pre.last() == layers@[k - 1]);
        }
        if layers[k - 1].id == id {
            return Some(layers[k - 1].parent);
        }
        k = k - 1;
    }
    None
}

/// Whether `layer_id` lies on the parent chain that starts at a mask's parent
/// `mask_parent_id` (the chain is followed for at most as many links as there
/// are layers, which a chain without cycles never exceeds).
fn is_ancestor_of_mask(layers: &Vec<MaskLayer>, layer_id: u64, mask_parent_id: u64) -> (r: bool)
    ensures
        r == is_ancestor(layers@, layer_id, mask_parent_id, layers@.len()),
{
    let mut p = mask_parent_id;
    let mut fuel: usize = layers.len();
    proof {
        assert(layers@.take(layers@.len() as int) =~= layers@);
    }
    loop
        invariant
            fuel <= layers@.len(),
            is_ancestor(layers@, layer_id, p, fuel as nat) == is_ancestor(
                layers@,
                layer_id,
                mask_parent_id,
                layers@.len(),
            ),
        decreases fuel,
    {
        if p == 0 {
            return false;
        }
        if layer_id == p {
            return true;
        }
        match parent_lookup(layers, p) {
            Some(g) => {
                if g != 0 && fuel > 0 {
                    p = g;
                    fuel = fuel - 1;
                } else {
                    return false;
                }
            },
            None => {
                return false;
            },
        }
    }
}

proof fn lemma_sources_push(layers: Seq<MaskLayer>, l: MaskLayer)
    ensures
        mask_sources(layers.push(l)) == if is_mask_source(l) {
            mask_sources(layers).push(source_of(l))
        } else {
            mask_sources(layers)
        },
{
    broadcast use Seq::lemma_filter_push, Seq::lemma_push_map_commute;
    let p = |l: MaskLayer| is_mask_source(l);
    layers.lemma_filter_push(l, p);
    if p(l) {
        layers.filter(p).lemma_push_map_commute(|l: MaskLayer| source_of(l), l);
    }
}

fn collect_mask_sources(layers: &Vec<MaskLayer>) -> (r: Vec<MaskSource>)
    ensures
        r@ == mask_sources(layers@),
{
    let mut r: Vec<MaskSource> = Vec::new();
    let mut i: usize = 0;
    proof {
        assert(mask_sources(layers@.take(0)) =~= Seq::<MaskSource>::empty());
    }
    while i < layers.len()
        invariant
            i <= layers@.len(),
            r@ == mask_sources(layers@.take(i as int)),
        decreases layers.len() - i,
    {
        let l = &layers[i];
        proof {
            assert(layers@.take(i + 1) =~= layers@.take(i as int).push(*l));
            lemma_sources_push(layers@.take(i as int), *l);
        }
        let is_mask = match l.blending_mode {
            AmBlendingMode::Mask => true,
            AmBlendingMode::Exclude => true,
            _ => false,
        };
        if is_mask && !l.hidden {
            match l.mask_entry {
                Some(e) => {
                    let entry = AmMaskEntry {
                        start_time: e.start_time,
                        end_time: e.end_time,
                        mask_layer_id: e.mask_layer_id,
                        is_exclude: match l.blending_mode {
                            AmBlendingMode::Exclude => true,
                            _ => false,
                        },
                        mask_parent_layer_id: e.mask_parent_layer_id,
                        is_embed_mask: e.is_embed_mask,
                        is_circle: e.is_circle,
                        geometry: e.geometry,
                    };
                    r.push(MaskSource { id: l.id, parent: l.parent, z_order: l.z_order, entry });
                },
                None => {},
            }
        }
        i = i + 1;
    }
    proof {
        assert(layers@.take(layers@.len() as int) =~= layers@);
    }
    r
}

fn has_mask_id_in(v: &Vec<AmMaskEntry>, id: u64) -> (r: bool)
    ensures
        r == has_mask_id(v@, id),
{
    let mut k: usize = 0;
    while k < v.len()
        invariant
            k <= v@.len(),
            forall|j: int| 0 <= j < k ==> (#[trigger] v@[j]).mask_layer_id != id,
        decreases v.len() - k,
    {
        if v[k].mask_layer_id == id {
            return true;
        }
        k = k + 1;
    }
    false
}

fn applicable_masks(layers: &Vec<MaskLayer>, l: &MaskLayer, sources: &Vec<MaskSource>) -> (r: Vec<
    AmMaskEntry,
>)
    ensures
        r@ == applicable_from(layers@, *l, sources@),
{
    let mut a: Vec<AmMaskEntry> = Vec::new();
    let mut k: usize = 0;
    proof {
        assert(sources@.take(0) =~= Seq::<MaskSource>::empty());
    }
    while k < sources.len()
        invariant
            k <= sources@.len(),
            a@ == applicable_from(layers@, *l, sources@.take(k as int)),
        decreases sources.len() - k,
    {
        let m = sources[k];
        proof {
            let t = sources@.take(k + 1);
            assert(t.drop_last() =~= sources@.take(k as int));
            assert(t.last() == m);
        }
        if m.id != l.id && m.z_order > l.z_order {
            let applies = if l.parent == 0 {
                !is_ancestor_of_mask(layers, l.id, m.parent)
            } else {
                m.parent == l.parent
            };
            if applies && !has_mask_id_in(&a, m.entry.mask_layer_id) {
                a.push(m.entry);
            }
        }
        k = k + 1;
    }
    proof {
        assert(sources@.take(sources@.len() as int) =~= sources@);
    }
    a
}

fn is_composite_id(layers: &Vec<MaskLayer>, id: u64) -> (r: bool)
    ensures
        r == is_composite(layers@, id),
{
    let mut k: usize = 0;
    while k < layers.len()
        invariant
            k <= layers@.len(),
            forall|j: int| 0 <= j < k ==> !((#[trigger] layers@[j]).id == id && layers@[j].requires_composite),
        decreases layers.len() - k,
    {
        if layers[k].id == id && layers[k].requires_composite {
            return true;
        }
        k = k + 1;
    }
    false
}

fn lookup_state(layers: &Vec<MaskLayer>, state: &Vec<Option<Vec<AmMaskEntry>>>, id: u64) -> (r: Option<
    Vec<AmMaskEntry>,
>)
    requires
        state@.len() == layers@.len(),
    ensures
        match r {
            Some(m) => lookup_masks(layers@, state_view(state@), id, layers@.len() as int) == Some(m@),
            None => lookup_masks(layers@, state_view(state@), id, layers@.len() as int) is None,
        },
{
    let ghost sv = state_view(state@);
    let mut k: usize = layers.len();
    while k > 0
        invariant
            k <= layers@.len(),
            state@.len() == layers@.len(),
            sv == state_view(state@),
            lookup_masks(layers@, sv, id, layers@.len() as int) == lookup_masks(layers@, sv, id, k as int),
        decreases k,
    {
        if layers[k - 1].id == id {
            match &state[k - 1] {
                Some(m) => {
                    proof {
                        assert(sv[k - 1] == Some(m@));
                    }
                    return Some(copy_entries(m));
                },
                None => {
                    proof {
                        assert(sv[k - 1] is None);
                    }
                },
            }
        }
        k = k - 1;
    }
    None
}

fn propagation_round(layers: &Vec<MaskLayer>, state: &Vec<Option<Vec<AmMaskEntry>>>) -> (r: (
    Vec<Option<Vec<AmMaskEntry>>>,
    bool,
))
    requires
        state@.len() == layers@.len(),
    ensures
        state_view(r.0@) == round(layers@, state_view(state@)),
        r.1 == changed(layers@, state_view(state@)),
{
    let ghost sv = state_view(state@);
    let mut next: Vec<Option<Vec<AmMaskEntry>>> = Vec::new();
    let mut any = false;
    let mut i: usize = 0;
    while i < layers.len()
        invariant
            i <= layers@.len(),
            state@.len() == layers@.len(),
            sv == state_view(state@),
            next@.len() == i,
            forall|j: int| 0 <= j < i ==> #[trigger] state_view(next@)[j] == round_at(layers@, sv, j),
            any == exists|j: int| 0 <= j < i && sv[j] is None && (#[trigger] round_at(layers@, sv, j)) is Some,
        decreases layers.len() - i,
    {
        let l = &layers[i];
        let is_mask = match l.blending_mode {
            AmBlendingMode::Mask => true,
            AmBlendingMode::Exclude => true,
            _ => false,
        };
        let cur = match &state[i] {
            Some(m) => Some(copy_entries(m)),
            None => None,
        };
        let entry: Option<Vec<AmMaskEntry>> = if is_mask || cur.is_some() {
            cur
        } else {
            let src = if l.parent != 0 {
                Some(l.parent)
            } else if l.containing_embed_id != 0 {
                Some(l.containing_embed_id)
            } else {
                None
            };
            match src {
                Some(sid) => {
                    if !is_composite_id(layers, sid) {
                        lookup_state(layers, state, sid)
                    } else {
                        None
                    }
                },
                None => None,
            }
        };
        let ghost e_view = match &entry {
            Some(m) => Some(m@),
            None => None::<Seq<AmMaskEntry>>,
        };
        proof {
            assert(e_view == round_at(layers@, sv, i as int));
        }
        if entry.is_some() && state[i].is_none() {
            any = true;
        }
        let ghost prev = next@;
        next.push(entry);
        proof {
            assert forall|j: int| 0 <= j < i + 1 implies #[trigger] state_view(next@)[j] == round_at(
                layers@,
                sv,
                j,
            ) by {
                if j < i {
                    assert(next@[j] == prev[j]);
                    assert(state_view(prev)[j] == round_at(layers@, sv, j));
                }
            }
        }
        i = i + 1;
    }
    proof {
        assert(state_view(next@) =~= round(layers@, sv));
    }
    (next, any)
}

/// Hands the masks `masks` down to nested layers: a mask layer keeps its masks
/// and so does everything under it; any other layer gains those of `masks`
/// whose mask layer it lacks, and passes `masks` on to its own nested layers.
pub fn propagate_masks_to_nested_children(children: &mut Vec<MaskLayer>, masks: &Vec<AmMaskEntry>)
    ensures
        final(children)@.len() == old(children)@.len(),
        forall|j: int|
            0 <= j < old(children)@.len() ==> nested_ok(
                #[trigger] old(children)@[j],
                final(children)@[j],
                masks@,
            ),
    decreases old(children)@,
{
    let n = children.len();
    let mut i: usize = 0;
    while i < n
        invariant
            n == children@.len(),
            n == old(children)@.len(),
            i <= n,
            forall|j: int| 0 <= j < i ==> nested_ok(#[trigger] old(children)@[j], children@[j], masks@),
            forall|j: int| i <= j < n ==> children@[j] == old(children)@[j],
        decreases n - i,
    {
        let is_mask = match children[i].blending_mode {
            AmBlendingMode::Mask => true,
            AmBlendingMode::Exclude => true,
            _ => false,
        };
        if !is_mask {
            let ghost old_child = old(children)@[i as int];
            let merged = match &children[i].mask_info {
                Some(info) => {
                    let mut combined = copy_entries(&info.masks);
                    let ghost m0 = info.masks@;
                    let ghost p = |x: AmMaskEntry| !has_mask_id(m0, x.mask_layer_id);
                    let mut k: usize = 0;
                    proof {
                        assert(masks@.take(0).filter(p) =~= Seq::<AmMaskEntry>::empty());
                        assert(m0 + Seq::<AmMaskEntry>::empty() =~= m0);
                    }
                    while k < masks.len()
                        invariant
                            k <= masks@.len(),
                            m0 == info.masks@,
                            p == (|x: AmMaskEntry| !has_mask_id(m0, x.mask_layer_id)),
                            combined@ == m0 + masks@.take(k as int).filter(p),
                        decreases masks.len() - k,
                    {
                        let x = masks[k];
                        proof {
                            broadcast use Seq::lemma_filter_push;
                            assert(masks@.take(k + 1) =~= masks@.take(k as int).push(x));
                            masks@.take(k as int).lemma_filter_push(x, p);
                        }
                        if !has_mask_id_in(&info.masks, x.mask_layer_id) {
                            combined.push(x);
                            proof {
                                assert(m0 + masks@.take(k as int).filter(p).push(x) =~= (m0
                                    + masks@.take(k as int).filter(p)).push(x));
                            }
                        }
                        k = k + 1;
                    }
                    proof {
                        assert(masks@.take(masks@.len() as int) =~= masks@);
                    }
                    combined
                },
                None => copy_entries(masks),
            };
            proof {
                assert(children@[i as int] == old_child);
                assert(merged@ == merge_nested(masks_view(old_child.mask_info), masks@));
                assert(decreases_to!(old(children)@ => old(children)@[i as int]));
                assert(decreases_to!(old(children)@[i as int] => old(children)@[i as int].children));
                assert(decreases_to!(old(children)@[i as int].children => old(
                    children,
                )@[i as int].children@));
            }
            propagate_masks_to_nested_children(&mut children[i].children, masks);
            children[i].mask_info = Some(AmMaskInfo { masks: merged });
            proof {
                assert(nested_ok(old_child, children@[i as int], masks@));
            }
        }
        i = i + 1;
    }
}

/// Assigns masks to the layers of a flattened scene.
///
/// Each layer that is not itself a mask gains the masks above it in its scope
/// (see `mask_applies`), one per mask layer. Then layers without masks inherit
/// those of their parent, or of the embedded scene they belong to, round after
/// round until no layer gains masks, never across an embedded scene rendered
/// to its own texture. Last, a layer with masks hands them down to its nested
/// layers unless it is rendered to its own texture. Without any mask layer
/// nothing changes.
pub fn apply_mask_to_children(layers: &mut Vec<MaskLayer>)
    ensures
        final(layers)@.len() == old(layers)@.len(),
        mask_sources(old(layers)@).len() == 0 ==> final(layers)@ == old(layers)@,
        mask_sources(old(layers)@).len() > 0 ==> forall|i: int|
            0 <= i < old(layers)@.len() ==> {
                let o = #[trigger] old(layers)@[i];
                let f = final(layers)@[i];
                let m = masks_view(f.mask_info);
                &&& same_scalars(o, f)
                &&& m == propagate(old(layers)@, direct_state(old(layers)@))[i]
                &&& if m is Some && o.children@.len() > 0 && !o.requires_composite {
                    &&& f.children@.len() == o.children@.len()
                    &&& forall|j: int|
                        0 <= j < o.children@.len() ==> nested_ok(
                            #[trigger] o.children@[j],
                            f.children@[j],
                            m->0,
                        )
                } else {
                    f.children == o.children
                }
            },
{
    let sources = collect_mask_sources(layers);
    if sources.len() == 0 {
        return;
    }
    let ghost l0 = layers@;
    let n = layers.len();
    // Masks above each layer in its scope.
    let mut state: Vec<Option<Vec<AmMaskEntry>>> = Vec::new();
    let mut i: usize = 0;
    while i < n
        invariant
            n == layers@.len(),
            layers@ == l0,
            sources@ == mask_sources(l0),
            i <= n,
            state@.len() == i,
            forall|j: int| 0 <= j < i ==> #[trigger] state_view(state@)[j] == direct_masks(l0, l0[j]),
        decreases n - i,
    {
        let l = &layers[i];
        let is_mask = match l.blending_mode {
            AmBlendingMode::Mask => true,
            AmBlendingMode::Exclude => true,
            _ => false,
        };
        let cur = copy_masks(&l.mask_info);
        let entry = if is_mask {
            cur
        } else {
            let a = applicable_masks(layers, l, &sources);
            if a.len() == 0 {
                cur
            } else {
                match cur {
                    None => Some(a),
                    Some(mut m) => {
                        let ghost m0 = m@;
                        let mut k: usize = 0;
                        while k < a.len()
                            invariant
                                k <= a@.len(),
                                m@ == m0 + a@.take(k as int),
                            decreases a.len() - k,
                        {
                            m.push(a[k]);
                            proof {
                                assert(a@.take(k + 1) =~= a@.take(k as int).push(a@[k as int]));
                                assert(m0 + a@.take(k + 1) =~= (m0 + a@.take(k as int)).push(a@[k as int]));
                            }
                            k = k + 1;
                        }
                        proof {
                            assert(a@.take(a@.len() as int) =~= a@);
                        }
                        Some(m)
                    },
                }
            }
        };
        let ghost prev = state@;
        state.push(entry);
        proof {
            assert forall|j: int| 0 <= j < i + 1 implies #[trigger] state_view(state@)[j] == direct_masks(
                l0,
                l0[j],
            ) by {
                if j < i {
                    assert(state@[j] == prev[j]);
                    assert(state_view(prev)[j] == direct_masks(l0, l0[j]));
                }
            }
        }
        i = i + 1;
    }
    proof {
        assert(state_view(state@) =~= direct_state(l0));
    }
    // Inheritance, round after round.
    let ghost target = propagate(l0, direct_state(l0));
    let mut done = false;
    while !done
        invariant
            layers@ == l0,
            n == l0.len(),
            state@.len() == n,
            propagate(l0, state_view(state@)) == target,
            done ==> !changed(l0, state_view(state@)),
        decreases count_none(state_view(state@)), (if done { 0int } else { 1int }),
    {
        let (next, any) = propagation_round(layers, &state);
        if any {
            proof {
                lemma_round_fewer_none(l0, state_view(state@));
            }
            state = next;
            proof {
                assert(state_view(state@).len() == n);
            }
        } else {
            done = true;
        }
    }
    proof {
        assert(propagate(l0, state_view(state@)) == state_view(state@));
    }
    // Write the masks back and hand them down.
    let mut i: usize = 0;
    while i < n
        invariant
            n == layers@.len(),
            n == l0.len(),
            state@.len() == n,
            state_view(state@) == target,
            i <= n,
            forall|j: int| i <= j < n ==> layers@[j] == l0[j],
            forall|j: int|
                0 <= j < i ==> {
                    let o = #[trigger] l0[j];
                    let f = layers@[j];
                    let m = masks_view(f.mask_info);
                    &&& same_scalars(o, f)
                    &&& m == target[j]
                    &&& if m is Some && o.children@.len() > 0 && !o.requires_composite {
                        &&& f.children@.len() == o.children@.len()
                        &&& forall|k: int|
                            0 <= k < o.children@.len() ==> nested_ok(
                                #[trigger] o.children@[k],
                                f.children@[k],
                                m->0,
                            )
                    } else {
                        f.children == o.children
                    }
                },
        decreases n - i,
    {
        let ghost o = l0[i as int];
        let masks = match &state[i] {
            Some(m) => Some(copy_entries(m)),
            None => None,
        };
        match masks {
            Some(m) => {
                if layers[i].children.len() > 0 && !layers[i].requires_composite {
                    propagate_masks_to_nested_children(&mut layers[i].children, &m);
                }
                layers[i].mask_info = Some(AmMaskInfo { masks: m });
            },
            None => {
                layers[i].mask_info = None;
            },
        }
        proof {
            assert(state_view(state@)[i as int] == target[i as int]);
        }
        i = i + 1;
    }
}


// ---------------------------------------------------------------------------
// Lifting masks onto embedded scenes rendered to their own texture

/// The embedded scene rendered to its own texture that a layer belongs to:
/// its parent if that is one, else the scene it is contained in if that is one.
pub open spec fn lift_owner(all: Seq<MaskLayer>, l: MaskLayer) -> Option<u64> {
    if l.parent != 0 && is_composite(all, l.parent) {
        Some(l.parent)
    } else if l.containing_embed_id != 0 && is_composite(all, l.containing_embed_id) {
        Some(l.containing_embed_id)
    } else {
        None
    }
}

/// The masks of the layers of `layers` that belong to the composite scene
/// `eid`, concatenated in order; `None` when no layer with masks belongs to it.
pub open spec fn lifted_for(layers: Seq<MaskLayer>, all: Seq<MaskLayer>, eid: u64) -> Option<
    Seq<AmMaskEntry>,
>
    decreases layers.len(),
{
    if layers.len() == 0 {
        None
    } else {
        let prev = lifted_for(layers.drop_last(), all, eid);
        let l = layers.last();
        if l.mask_info is Some && lift_owner(all, l) == Some(eid) {
            match prev {
                Some(p) => Some(p + masks_view(l.mask_info)->0),
                None => Some(masks_view(l.mask_info)->0),
            }
        } else {
            prev
        }
    }
}

/// `acc` followed by the entries of `ms` whose mask layer is not yet present,
/// taken in order.
pub open spec fn merge_unique(acc: Seq<AmMaskEntry>, ms: Seq<AmMaskEntry>) -> Seq<AmMaskEntry>
    decreases ms.len(),
{
    if ms.len() == 0 {
        acc
    } else {
        let a = merge_unique(acc, ms.drop_last());
        if has_mask_id(a, ms.last().mask_layer_id) {
            a
        } else {
            a.push(ms.last())
        }
    }
}

/// Whether layer `i` is the first layer with id `id`.
pub open spec fn first_with_id(layers: Seq<MaskLayer>, id: u64, i: int) -> bool {
    layers[i].id == id && forall|j: int| 0 <= j < i ==> (#[trigger] layers[j]).id != id
}

/// The masks of layer `i` after lifting: a layer inside a composite scene
/// loses its masks; the first layer with the id of a composite scene gains
/// those of the layers inside it, one per mask layer.
pub open spec fn lifted_masks(layers: Seq<MaskLayer>, i: int) -> Option<Seq<AmMaskEntry>> {
    let l = layers[i];
    let stripped = if lift_owner(layers, l) is Some && l.mask_info is Some {
        None
    } else {
        masks_view(l.mask_info)
    };
    if first_with_id(layers, l.id, i) && lifted_for(layers, layers, l.id) is Some {
        let base = match stripped {
            Some(m) => m,
            None => Seq::empty(),
        };
        Some(merge_unique(base, lifted_for(layers, layers, l.id)->0))
    } else {
        stripped
    }
}

fn lift_owner_of(layers: &Vec<MaskLayer>, l: &MaskLayer) -> (r: Option<u64>)
    ensures
        r == lift_owner(layers@, *l),
{
    if l.parent != 0 && is_composite_id(layers, l.parent) {
        Some(l.parent)
    } else if l.containing_embed_id != 0 && is_composite_id(layers, l.containing_embed_id) {
        Some(l.containing_embed_id)
    } else {
        None
    }
}

fn collect_lifted(layers: &Vec<MaskLayer>, eid: u64) -> (r: Option<Vec<AmMaskEntry>>)
    ensures
        match r {
            Some(m) => lifted_for(layers@, layers@, eid) == Some(m@),
            None => lifted_for(layers@, layers@, eid) is None,
        },
{
    let mut acc: Option<Vec<AmMaskEntry>> = None;
    let mut i: usize = 0;
    while i < layers.len()
        invariant
            i <= layers@.len(),
            match acc {
                Some(m) => lifted_for(layers@.take(i as int), layers@, eid) == Some(m@),
                None => lifted_for(layers@.take(i as int), layers@, eid) is None,
            },
        decreases layers.len() - i,
    {
        let l = &layers[i];
        proof {
            let t = layers@.take(i + 1);
            assert(t.drop_last() =~= layers@.take(i as int));
            assert(t.last() == *l);
        }
        match &l.mask_info {
            Some(info) => {
                if lift_owner_of(layers, l) == Some(eid) {
                    let extra = copy_entries(&info.masks);
                    acc = match acc {
                        Some(mut m) => {
                            let ghost m0 = m@;
                            let mut k: usize = 0;
                            while k < extra.len()
                                invariant
                                    k <= extra@.len(),
                                    m@ == m0 + extra@.take(k as int),
                                decreases extra.len() - k,
                            {
                                m.push(extra[k]);
                                proof {
                                    assert(extra@.take(k + 1) =~= extra@.take(k as int).push(
                                        extra@[k as int],
                                    ));
                                    assert(m0 + extra@.take(k + 1) =~= (m0 + extra@.take(
                                        k as int,
                                    )).push(extra@[k as int]));
                                }
                                k = k + 1;
                            }
                            proof {
                                assert(extra@.take(extra@.len() as int) =~= extra@);
                            }
                            Some(m)
                        },
                        None => Some(extra),
                    };
                }
            },
            None => {},
        }
        i = i + 1;
    }
    proof {
        assert(layers@.take(layers@.len() as int) =~= layers@);
    }
    acc
}

fn merge_unique_into(acc: &mut Vec<AmMaskEntry>, ms: &Vec<AmMaskEntry>)
    ensures
        final(acc)@ == merge_unique(old(acc)@, ms@),
{
    let ghost a0 = acc@;
    let mut k: usize = 0;
    proof {
        assert(ms@.take(0) =~= Seq::<AmMaskEntry>::empty());
    }
    while k < ms.len()
        invariant
            k <= ms@.len(),
            acc@ == merge_unique(a0, ms@.take(k as int)),
        decreases ms.len() - k,
    {
        let m = ms[k];
        proof {
            let t = ms@.take(k + 1);
            assert(t.drop_last() =~= ms@.take(k as int));
            assert(t.last() == m);
        }
        if !has_mask_id_in(acc, m.mask_layer_id) {
            acc.push(m);
        }
        k = k + 1;
    }
    proof {
        assert(ms@.take(ms@.len() as int) =~= ms@);
    }
}

/// Moves masks from the layers inside embedded scenes rendered to their own
/// texture onto those scenes: a layer inside such a scene loses its masks, and
/// the scene (the first layer with its id) gains them, one per mask layer,
/// after the masks it has.
pub fn lift_masks_to_composite_embeds(layers: &mut Vec<MaskLayer>)
    ensures
        final(layers)@.len() == old(layers)@.len(),
        forall|i: int|
            0 <= i < old(layers)@.len() ==> {
                &&& same_scalars(#[trigger] old(layers)@[i], final(layers)@[i])
                &&& final(layers)@[i].children == old(layers)@[i].children
                &&& masks_view(final(layers)@[i].mask_info) == lifted_masks(old(layers)@, i)
            },
{
    let ghost l0 = layers@;
    let n = layers.len();
    let mut results: Vec<Option<Vec<AmMaskEntry>>> = Vec::new();
    let mut i: usize = 0;
    while i < n
        invariant
            n == layers@.len(),
            layers@ == l0,
            i <= n,
            results@.len() == i,
            forall|j: int| 0 <= j < i ==> #[trigger] state_view(results@)[j] == lifted_masks(l0, j),
        decreases n - i,
    {
        let l = &layers[i];
        let owner = lift_owner_of(layers, l);
        let stripped = if owner.is_some() && l.mask_info.is_some() {
            None
        } else {
            copy_masks(&l.mask_info)
        };
        let mut first = true;
        let mut j: usize = 0;
        while j < i
            invariant
                j <= i,
                i < n,
                n == layers@.len(),
                first == forall|k: int| 0 <= k < j ==> (#[trigger] layers@[k]).id != l.id,
            decreases i - j,
        {
            if layers[j].id == l.id {
                first = false;
            }
            j = j + 1;
        }
        let entry = if first {
            match collect_lifted(layers, l.id) {
                Some(lifted) => {
                    let mut base = match stripped {
                        Some(m) => m,
                        None => Vec::new(),
                    };
                    merge_unique_into(&mut base, &lifted);
                    Some(base)
                },
                None => stripped,
            }
        } else {
            stripped
        };
        proof {
            assert(l0[i as int] == *l);
        }
        let ghost prev = results@;
        results.push(entry);
        proof {
            assert forall|j: int| 0 <= j < i + 1 implies #[trigger] state_view(results@)[j] == lifted_masks(
                l0,
                j,
            ) by {
                if j < i {
                    assert(results@[j] == prev[j]);
                    assert(state_view(prev)[j] == lifted_masks(l0, j));
                }
            }
        }
        i = i + 1;
    }
    let mut i: usize = 0;
    while i < n
        invariant
            n == layers@.len(),
            n == l0.len(),
            results@.len() == n,
            i <= n,
            forall|j: int| 0 <= j < n ==> #[trigger] state_view(results@)[j] == lifted_masks(l0, j),
            forall|j: int| i <= j < n ==> layers@[j] == l0[j],
            forall|j: int|
                0 <= j < i ==> {
                    &&& same_scalars(#[trigger] l0[j], layers@[j])
                    &&& layers@[j].children == l0[j].children
                    &&& masks_view(layers@[j].mask_info) == lifted_masks(l0, j)
                },
        decreases n - i,
    {
        let r = match &results[i] {
            Some(m) => Some(AmMaskInfo { masks: copy_entries(m) }),
            None => None,
        };
        proof {
            assert(state_view(results@)[i as int] == lifted_masks(l0, i as int));
        }
        layers[i].mask_info = r;
        i = i + 1;
    }
}


// ---------------------------------------------------------------------------
// Laws

/// Inheritance only fills in: a layer that has masks, or is itself a mask,
/// keeps exactly the masks it had; and when it ends, a further round would
/// give no layer masks.
pub proof fn law_inheritance_fills_in_only(layers: Seq<MaskLayer>, state: Seq<Option<Seq<AmMaskEntry>>>)
    requires
        state.len() == layers.len(),
    ensures
        propagate(layers, state).len() == state.len(),
        forall|i: int|
            0 <= i < state.len() && (state[i] is Some || is_mask_mode(layers[i].blending_mode))
                ==> #[trigger] propagate(layers, state)[i] == state[i],
        !changed(layers, propagate(layers, state)),
    decreases count_none(state),
{
    if changed(layers, state) {
        lemma_round_fewer_none(layers, state);
        let r = round(layers, state);
        law_inheritance_fills_in_only(layers, r);
        assert forall|i: int|
            0 <= i < state.len() && (state[i] is Some || is_mask_mode(layers[i].blending_mode))
                implies #[trigger] propagate(layers, state)[i] == state[i] by {
            assert(r[i] == round_at(layers, state, i));
        }
    }
}

/// A mask layer is never clipped by mask scoping: it ends with exactly the
/// masks it started with.
pub proof fn law_mask_layers_keep_their_masks(layers: Seq<MaskLayer>, i: int)
    requires
        0 <= i < layers.len(),
        is_mask_mode(layers[i].blending_mode),
    ensures
        propagate(layers, direct_state(layers))[i] == masks_view(layers[i].mask_info),
{
    law_inheritance_fills_in_only(layers, direct_state(layers));
}

/// The masks a layer gains directly lie above it, are not the layer itself,
/// and belong to distinct mask layers.
pub proof fn law_direct_masks_lie_above(layers: Seq<MaskLayer>, l: MaskLayer, srcs: Seq<MaskSource>)
    ensures
        forall|k: int|
            0 <= k < applicable_from(layers, l, srcs).len() ==> exists|j: int|
                0 <= j < srcs.len() && srcs[j].entry == #[trigger] applicable_from(layers, l, srcs)[k]
                    && srcs[j].z_order > l.z_order && srcs[j].id != l.id,
        forall|a: int, b: int|
            0 <= a < b < applicable_from(layers, l, srcs).len() ==> (#[trigger] applicable_from(
                layers,
                l,
                srcs,
            )[a]).mask_layer_id != (#[trigger] applicable_from(layers, l, srcs)[b]).mask_layer_id,
    decreases srcs.len(),
{
    if srcs.len() > 0 {
        let s0 = srcs.drop_last();
        law_direct_masks_lie_above(layers, l, s0);
        let a = applicable_from(layers, l, s0);
        let m = srcs.last();
        let r = applicable_from(layers, l, srcs);
        assert forall|k: int| 0 <= k < r.len() implies exists|j: int|
            0 <= j < srcs.len() && srcs[j].entry == #[trigger] r[k] && srcs[j].z_order > l.z_order
                && srcs[j].id != l.id by {
            if k < a.len() {
                assert(r[k] == a[k]);
                let j = choose|j: int|
                    0 <= j < s0.len() && s0[j].entry == #[trigger] a[k] && s0[j].z_order > l.z_order
                        && s0[j].id != l.id;
                assert(srcs[j] == s0[j]);
            } else {
                assert(srcs[srcs.len() - 1] == m);
            }
        }
        if mask_applies(layers, l, m) && !has_mask_id(a, m.entry.mask_layer_id) {
            assert forall|x: int, y: int| 0 <= x < y < r.len() implies (#[trigger] r[x]).mask_layer_id
                != (#[trigger] r[y]).mask_layer_id by {
                if y == a.len() {
                    assert(r[x] == a[x]);
                }
            }
        }
    }
}

/// A mask is live from its start time up to, not including, its end time.
pub proof fn law_active_window(m: AmMaskEntry, t: int)
    ensures
        m.start_time < m.end_time ==> is_active(m, m.start_time as int) && is_active(m, m.end_time - 1)
            && !is_active(m, m.end_time as int),
        t < m.start_time ==> !is_active(m, t),
        t >= m.end_time ==> !is_active(m, t),
{
}

} // verus!
