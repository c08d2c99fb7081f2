//! Layer id bookkeeping while nested scenes are flattened and echo copies are
//! made: fresh ids, and the rewriting of every reference to a layer id.
use vstd::prelude::*;
use crate::masks::{masks_view, AmMaskEntry, AmMaskInfo};

verus! {

/// The ids a pending layer holds, and its nested layers.
#[derive(Debug)]
pub struct PendingIds {
    /// Layer id.
    pub id: u64,
    /// Parent layer id (0 when none).
    pub parent: u64,
    /// Embedded scene the layer belongs to (0 when none).
    pub containing_embed_id: u64,
    /// Layer id recorded in the layer's animation state.
    pub animated_layer_id: u64,
    /// Parent id recorded in the layer's animation state.
    pub animated_parent_layer_id: u64,
    /// Masks that clip the layer.
    pub mask_info: Option<AmMaskInfo>,
    /// The layer is an embedded scene.
    pub is_embed: bool,
    /// Nested layers.
    pub children: Vec<PendingIds>,
}

/// The ids of a pending layer, without its nested layers.
pub struct FlatView {
    pub id: u64,
    pub parent: u64,
    pub containing_embed_id: u64,
    pub animated_layer_id: u64,
    pub animated_parent_layer_id: u64,
    pub masks: Option<Seq<AmMaskEntry>>,
    pub is_embed: bool,
}

/// The view of a pending layer without its nested layers.
pub open spec fn flat_view(l: PendingIds) -> FlatView {
    FlatView {
        id: l.id,
        parent: l.parent,
        containing_embed_id: l.containing_embed_id,
        animated_layer_id: l.animated_layer_id,
        animated_parent_layer_id: l.animated_parent_layer_id,
        masks: masks_view(l.mask_info),
        is_embed: l.is_embed,
    }
}

/// Source of fresh layer ids: hands out consecutive numbers, starting far
/// above the ids found in project files.
#[derive(Debug)]
pub struct IdAllocator {
    /// The id handed out next.
    pub next: u64,
}

/// The counter after handing out one id (it wraps around).
pub open spec fn bump(c: u64) -> u64 {
    if c == u64::MAX {
        0
    } else {
        (c + 1) as u64
    }
}

impl IdAllocator {
    /// A fresh allocator; its first id is 1 000 000 000 000.
    pub fn new() -> (r: Self)
        ensures
            r.next == 1_000_000_000_000,
    {
        IdAllocator { next: 1_000_000_000_000 }
    }

    /// Hands out a fresh id (the base id is not used).
    pub fn generate_unique_id(&mut self, _base_id: u64) -> (r: u64)
        ensures
            r == old(self).next,
            final(self).next == bump(old(self).next),
    {
        let r = self.next;
        self.next = self.next.wrapping_add(1);
        r
    }
}

/// The new id that a list of `(old, new)` pairs gives `old` (the first pair
/// that names it).
pub open spec fn mapped(m: Seq<(u64, u64)>, old: u64) -> Option<u64>
    decreases m.len(),
{
    if m.len() == 0 {
        None
    } else if m[0].0 == old {
        Some(m[0].1)
    } else {
        mapped(m.drop_first(), old)
    }
}

/// `old` as rewritten by the pairs: its new id if they name it, else itself.
pub open spec fn mapped_or(m: Seq<(u64, u64)>, old: u64) -> u64 {
    match mapped(m, old) {
        Some(n) => n,
        None => old,
    }
}

fn lookup(m: &[(u64, u64)], old: u64) -> (r: Option<u64>)
    ensures
        r == mapped(m@, old),
{
    let mut k: usize = 0;
    proof {
        assert(m@.skip(0) =~= m@);
    }
    while k < m.len()
        invariant
            k <= m@.len(),
            mapped(m@, old) == mapped(m@.skip(k as int), old),
        decreases m.len() - k,
    {
        proof {
            assert(m@.skip(k as int).drop_first() =~= m@.skip(k + 1));
        }
        if m[k].0 == old {
            return Some(m[k].1);
        }
        k = k + 1;
    }
    None
}

/// A mask entry once a flattened child of a layer is remapped: its mask
/// layer and parent are rewritten by the pairs; a parent-less mask of a child
/// of an embedded scene gets the embed as parent.
pub open spec fn remapped_flat_mask(m: Seq<(u64, u64)>, e: AmMaskEntry, layer_id: u64, is_embed: bool) -> AmMaskEntry {
    AmMaskEntry {
        mask_layer_id: mapped_or(m, e.mask_layer_id),
        mask_parent_layer_id: if mapped(m, e.mask_parent_layer_id) is Some {
            mapped(m, e.mask_parent_layer_id)->0
        } else if e.mask_parent_layer_id == 0 && is_embed {
            layer_id
        } else {
            e.mask_parent_layer_id
        },
        ..e
    }
}

/// A child of layer `layer_id` once its nested layers are flattened and given
/// new ids (the pairs `m`): see `remap_flattened_child`.
pub open spec fn remapped_child(c: FlatView, m: Seq<(u64, u64)>, layer_id: u64, is_embed: bool, child_embed_id: u64) -> FlatView {
    FlatView {
        id: c.id,
        parent: if c.parent == 0 {
            layer_id
        } else {
            mapped_or(m, c.parent)
        },
        animated_parent_layer_id: if c.parent != 0 && mapped(m, c.parent) is Some {
            mapped(m, c.parent)->0
        } else {
            c.animated_parent_layer_id
        },
        containing_embed_id: if c.containing_embed_id == 0 {
            0
        } else if c.parent == 0 && c.containing_embed_id == child_embed_id && is_embed {
            layer_id
        } else {
            mapped_or(m, c.containing_embed_id)
        },
        animated_layer_id: c.id,
        masks: match c.masks {
            None => None,
            Some(ms) => Some(ms.map_values(|e: AmMaskEntry| remapped_flat_mask(m, e, layer_id, is_embed))),
        },
        is_embed: c.is_embed,
    }
}

/// Rewrites the ids of a child of layer `layer_id` once the nested layers have
/// been flattened and given new ids (the pairs `id_mappings`).
///
/// A child without parent gets `layer_id` as parent; otherwise its parent (and
/// animated parent) follow the pairs. A child that belongs to an embedded
/// scene is reassigned: to `layer_id` if it is a direct, parent-less child of
/// the embed `child_embed_id` being flattened, else as the pairs say. Its
/// masks are rewritten too. Returns whether the child, as a direct child of an
/// embedded scene, takes the embed's position as its offset.
pub fn remap_flattened_child(
    child: &mut PendingIds,
    id_mappings: &[(u64, u64)],
    layer_id: u64,
    is_embed: bool,
    child_embed_id: u64,
) -> (takes_embed_offset: bool)
    ensures
        takes_embed_offset == (old(child).parent == 0 && is_embed),
        flat_view(*final(child)) == remapped_child(
            flat_view(*old(child)),
            id_mappings@,
            layer_id,
            is_embed,
            child_embed_id,
        ),
        final(child).children == old(child).children,
{
    let original_parent = child.parent;
    let mut takes = false;
    if original_parent == 0 {
        child.parent = layer_id;
        if is_embed {
            takes = true;
        }
    } else {
        match lookup(id_mappings, original_parent) {
            Some(new_parent) => {
                child.parent = new_parent;
                child.animated_parent_layer_id = new_parent;
            },
            None => {},
        }
    }
    if child.containing_embed_id != 0 {
        if original_parent == 0 && child.containing_embed_id == child_embed_id && is_embed {
            child.containing_embed_id = layer_id;
        } else {
            match lookup(id_mappings, child.containing_embed_id) {
                Some(new_embed) => {
                    child.containing_embed_id = new_embed;
                },
                None => {},
            }
        }
    }
    child.animated_layer_id = child.id;
    let new_info = match &child.mask_info {
        Some(info) => {
            let mut out: Vec<AmMaskEntry> = Vec::new();
            let mut k: usize = 0;
            while k < info.masks.len()
                invariant
                    k <= info.masks@.len(),
                    out@ == info.masks@.take(k as int).map_values(
                        |e: AmMaskEntry| remapped_flat_mask(id_mappings@, e, layer_id, is_embed),
                    ),
                decreases info.masks.len() - k,
            {
                let e = info.masks[k];
                let mask_layer_id = match lookup(id_mappings, e.mask_layer_id) {
                    Some(n) => n,
                    None => e.mask_layer_id,
                };
                let mask_parent_layer_id = match lookup(id_mappings, e.mask_parent_layer_id) {
                    Some(n) => n,
                    None => if e.mask_parent_layer_id == 0 && is_embed {
                        layer_id
                    } else {
                        e.mask_parent_layer_id
                    },
                };
                out.push(AmMaskEntry { mask_layer_id, mask_parent_layer_id, ..e });
                proof {
                    assert(info.masks@.take(k + 1) =~= info.masks@.take(k as int).push(e));
                    assert(out@ =~= info.masks@.take(k + 1).map_values(
                        |e: AmMaskEntry| remapped_flat_mask(id_mappings@, e, layer_id, is_embed),
                    ));
                }
                k = k + 1;
            }
            proof {
                assert(info.masks@.take(info.masks@.len() as int) =~= info.masks@);
            }
            Some(AmMaskInfo { masks: out })
        },
        None => None,
    };
    child.mask_info = new_info;
    takes
}


// ---------------------------------------------------------------------------
// Echo copies: every id of a copied layer tree is replaced by a fresh one

/// The ids of a layer tree, depth first.
pub open spec fn node_ids(n: PendingIds) -> Seq<u64>
    decreases n,
{
    seq![n.id] + nodes_ids(n.children@)
}

/// The ids of a list of layer trees, depth first.
pub open spec fn nodes_ids(ns: Seq<PendingIds>) -> Seq<u64>
    decreases ns,
{
    if ns.len() == 0 {
        Seq::empty()
    } else {
        nodes_ids(ns.drop_last()) + node_ids(ns.last())
    }
}

/// The pairs `m` and counter `c` extended by a fresh id for each id of `ids`
/// that the pairs do not name yet, in order.
pub open spec fn extend_map(m: Seq<(u64, u64)>, c: u64, ids: Seq<u64>) -> (Seq<(u64, u64)>, u64)
    decreases ids.len(),
{
    if ids.len() == 0 {
        (m, c)
    } else {
        let (m1, c1) = extend_map(m, c, ids.drop_last());
        if mapped(m1, ids.last()) is Some {
            (m1, c1)
        } else {
            (m1.push((ids.last(), c1)), bump(c1))
        }
    }
}

/// A mask entry with its mask layer and parent rewritten by the pairs.
pub open spec fn remapped_mask(m: Seq<(u64, u64)>, e: AmMaskEntry) -> AmMaskEntry {
    AmMaskEntry {
        mask_layer_id: mapped_or(m, e.mask_layer_id),
        mask_parent_layer_id: mapped_or(m, e.mask_parent_layer_id),
        ..e
    }
}

/// `new` is `old` with every id rewritten by the pairs, except, at the root,
/// its parent (which lies outside the tree).
pub open spec fn remap_ok(old: PendingIds, new: PendingIds, m: Seq<(u64, u64)>, is_root: bool) -> bool
    decreases old,
{
    &&& new.id == mapped_or(m, old.id)
    &&& new.animated_layer_id == if mapped(m, old.id) is Some {
        mapped(m, old.id)->0
    } else {
        old.animated_layer_id
    }
    &&& new.parent == if is_root {
        old.parent
    } else {
        mapped_or(m, old.parent)
    }
    &&& new.animated_parent_layer_id == if is_root {
        old.animated_parent_layer_id
    } else {
        mapped_or(m, old.animated_parent_layer_id)
    }
    &&& new.containing_embed_id == mapped_or(m, old.containing_embed_id)
    &&& new.is_embed == old.is_embed
    &&& match masks_view(old.mask_info) {
        None => new.mask_info is None,
        Some(ms) => masks_view(new.mask_info) == Some(
            ms.map_values(|e: AmMaskEntry| remapped_mask(m, e)),
        ),
    }
    &&& new.children@.len() == old.children@.len()
    &&& forall|j: int|
        0 <= j < old.children@.len() ==> remap_ok(#[trigger] old.children@[j], new.children@[j], m, false)
}

proof fn lemma_mapped_push(m: Seq<(u64, u64)>, p: (u64, u64), id: u64)
    ensures
        mapped(m.push(p), id) == if mapped(m, id) is Some {
            mapped(m, id)
        } else if p.0 == id {
            Some(p.1)
        } else {
            None
        },
    decreases m.len(),
{
    assert(m.push(p).len() > 0);
    if m.len() > 0 {
        assert(m.push(p)[0] == m[0]);
        assert(m.push(p).drop_first() =~= m.drop_first().push(p));
        lemma_mapped_push(m.drop_first(), p, id);
    } else {
        assert(m.push(p)[0] == p);
        assert(m.push(p).drop_first() =~= Seq::<(u64, u64)>::empty());
        assert(mapped(Seq::<(u64, u64)>::empty(), id) is None);
    }
}

proof fn lemma_extend_map_add(m: Seq<(u64, u64)>, c: u64, a: Seq<u64>, b: Seq<u64>)
    ensures
        extend_map(m, c, a + b) == extend_map(extend_map(m, c, a).0, extend_map(m, c, a).1, b),
    decreases b.len(),
{
    if b.len() == 0 {
        assert(a + b =~= a);
    } else {
        lemma_extend_map_add(m, c, a, b.drop_last());
        assert((a + b).drop_last() =~= a + b.drop_last());
        assert((a + b).last() == b.last());
    }
}

/// `mapped` finds an id exactly when some pair names it.
proof fn lemma_mapped_some(m: Seq<(u64, u64)>, x: u64)
    ensures
        mapped(m, x) is Some <==> exists|k: int| 0 <= k < m.len() && (#[trigger] m[k]).0 == x,
        mapped(m, x) is Some ==> exists|k: int| 0 <= k < m.len() && (#[trigger] m[k]).0 == x && m[k].1 == mapped(m, x)->0,
    decreases m.len(),
{
    if m.len() > 0 {
        lemma_mapped_some(m.drop_first(), x);
        if m[0].0 != x {
            assert forall|k: int| 0 <= k < m.drop_first().len() implies #[trigger] m.drop_first()[k] == m[k + 1] by {}
            if exists|k: int| 0 <= k < m.len() && (#[trigger] m[k]).0 == x {
                let k = choose|k: int| 0 <= k < m.len() && (#[trigger] m[k]).0 == x;
                assert(m.drop_first()[k - 1] == m[k]);
            }
        }
    }
}

/// Echo ids are fresh: when the counter `c` cannot wrap while the ids `ids`
/// of a copied tree are renamed, every one of them gets a new id, the k-th
/// new pair gets `c + k`, no id is named twice, and the counter ends just
/// after the last new id.
pub proof fn law_echo_ids_fresh(c: u64, ids: Seq<u64>)
    requires
        c + ids.len() <= u64::MAX,
    ensures
        ({
            let (m, c2) = extend_map(Seq::empty(), c, ids);
            &&& m.len() <= ids.len()
            &&& c2 == c + m.len()
            &&& forall|k: int| 0 <= k < m.len() ==> (#[trigger] m[k]).1 == c + k
            &&& forall|i: int, j: int| 0 <= i < j < m.len() ==> (#[trigger] m[i]).0 != (#[trigger] m[j]).0
            &&& forall|i: int| 0 <= i < ids.len() ==> mapped(m, #[trigger] ids[i]) is Some
            &&& forall|i: int| 0 <= i < ids.len() ==> c <= mapped(m, #[trigger] ids[i])->0 < c2
        }),
    decreases ids.len(),
{
    let (m, c2) = extend_map(Seq::empty(), c, ids);
    if ids.len() == 0 {
        assert(m.len() == 0);
    } else {
        let pre = ids.drop_last();
        law_echo_ids_fresh(c, pre);
        let (m1, c1) = extend_map(Seq::empty(), c, pre);
        let x = ids.last();
        assert forall|i: int| 0 <= i < pre.len() implies #[trigger] ids[i] == pre[i] by {}
        if mapped(m1, x) is Some {
            assert(m == m1 && c2 == c1);
            assert forall|i: int| 0 <= i < ids.len() implies mapped(m, #[trigger] ids[i]) is Some
                && c <= mapped(m, ids[i])->0 < c2 by {
                if i < pre.len() {
                    assert(mapped(m1, pre[i]) is Some);
                } else {
                    assert(ids[i] == x);
                    lemma_mapped_some(m1, x);
                }
            }
        } else {
            assert(m == m1.push((x, c1)) && c2 == bump(c1));
            assert(c1 < u64::MAX);
            lemma_mapped_some(m1, x);
            assert forall|i: int, j: int| 0 <= i < j < m.len() implies (#[trigger] m[i]).0 != (#[trigger] m[j]).0 by {
                if j == m1.len() {
                    assert(m[i] == m1[i]);
                    assert(m[j].0 == x);
                } else {
                    assert(m[i] == m1[i] && m[j] == m1[j]);
                }
            }
            assert forall|k: int| 0 <= k < m.len() implies (#[trigger] m[k]).1 == c + k by {
                if k < m1.len() {
                    assert(m[k] == m1[k]);
                }
            }
            assert forall|i: int| 0 <= i < ids.len() implies mapped(m, #[trigger] ids[i]) is Some
                && c <= mapped(m, ids[i])->0 < c2 by {
                lemma_mapped_push(m1, (x, c1), ids[i]);
                if i < pre.len() {
                    assert(mapped(m1, pre[i]) is Some);
                }
            }
        }
    }
}

fn lookup_vec(m: &Vec<(u64, u64)>, old: u64) -> (r: Option<u64>)
    ensures
        r == mapped(m@, old),
{
    lookup(m.as_slice(), old)
}

/// Gives every id of the tree `pl` not named yet by `id_map` a fresh id,
/// depth first.
fn collect_ids_for_remap(pl: &PendingIds, id_map: &mut Vec<(u64, u64)>, alloc: &mut IdAllocator)
    ensures
        (final(id_map)@, final(alloc).next) == extend_map(old(id_map)@, old(alloc).next, node_ids(*pl)),
    decreases *pl,
{
    proof {
        assert(seq![pl.id].drop_last() =~= Seq::<u64>::empty());
        assert(seq![pl.id].last() == pl.id);
    }
    match lookup_vec(id_map, pl.id) {
        Some(_) => {},
        None => {
            let fresh = alloc.generate_unique_id(pl.id);
            id_map.push((pl.id, fresh));
        },
    }
    let ghost after_root = (id_map@, alloc.next);
    proof {
        assert(extend_map(old(id_map)@, old(alloc).next, Seq::<u64>::empty()) == (old(id_map)@, old(alloc).next));
        assert(after_root == extend_map(old(id_map)@, old(alloc).next, seq![pl.id]));
    }
    let mut j: usize = 0;
    proof {
        assert(pl.children@.take(0) =~= Seq::<PendingIds>::empty());
        assert(nodes_ids(Seq::<PendingIds>::empty()) =~= Seq::<u64>::empty());
    }
    while j < pl.children.len()
        invariant
            j <= pl.children@.len(),
            (id_map@, alloc.next) == extend_map(
                after_root.0,
                after_root.1,
                nodes_ids(pl.children@.take(j as int)),
            ),
        decreases pl.children.len() - j,
    {
        let ghost pre = nodes_ids(pl.children@.take(j as int));
        proof {
            let t = pl.children@.take(j + 1);
            assert(t.drop_last() =~= pl.children@.take(j as int));
            assert(t.last() == pl.children@[j as int]);
            lemma_extend_map_add(after_root.0, after_root.1, pre, node_ids(pl.children@[j as int]));
        }
        collect_ids_for_remap(&pl.children[j], id_map, alloc);
        j = j + 1;
    }
    proof {
        assert(pl.children@.take(pl.children@.len() as int) =~= pl.children@);
        lemma_extend_map_add(old(id_map)@, old(alloc).next, seq![pl.id], nodes_ids(pl.children@));
    }
}

/// Rewrites every id of the tree `pl` by the pairs `id_map`; at the root the
/// parent is kept.
fn apply_id_remap(pl: &mut PendingIds, id_map: &Vec<(u64, u64)>, is_root: bool)
    ensures
        remap_ok(*old(pl), *final(pl), id_map@, is_root),
    decreases *old(pl),
{
    match lookup_vec(id_map, pl.id) {
        Some(new_id) => {
            pl.id = new_id;
            pl.animated_layer_id = new_id;
        },
        None => {},
    }
    if !is_root {
        match lookup_vec(id_map, pl.parent) {
            Some(p) => {
                pl.parent = p;
            },
            None => {},
        }
        match lookup_vec(id_map, pl.animated_parent_layer_id) {
            Some(p) => {
                pl.animated_parent_layer_id = p;
            },
            None => {},
        }
    }
    match lookup_vec(id_map, pl.containing_embed_id) {
        Some(e) => {
            pl.containing_embed_id = e;
        },
        None => {},
    }
    let new_info = match &pl.mask_info {
        Some(info) => {
            let mut out: Vec<AmMaskEntry> = Vec::new();
            let mut k: usize = 0;
            while k < info.masks.len()
                invariant
                    k <= info.masks@.len(),
                    out@ == info.masks@.take(k as int).map_values(
                        |e: AmMaskEntry| remapped_mask(id_map@, e),
                    ),
                decreases info.masks.len() - k,
            {
                let e = info.masks[k];
                let mask_layer_id = match lookup_vec(id_map, e.mask_layer_id) {
                    Some(n) => n,
                    None => e.mask_layer_id,
                };
                let mask_parent_layer_id = match lookup_vec(id_map, e.mask_parent_layer_id) {
                    Some(n) => n,
                    None => e.mask_parent_layer_id,
                };
                out.push(AmMaskEntry { mask_layer_id, mask_parent_layer_id, ..e });
                proof {
                    assert(info.masks@.take(k + 1) =~= info.masks@.take(k as int).push(e));
                    assert(out@ =~= info.masks@.take(k + 1).map_values(
                        |e: AmMaskEntry| remapped_mask(id_map@, e),
                    ));
                }
                k = k + 1;
            }
            proof {
                assert(info.masks@.take(info.masks@.len() as int) =~= info.masks@);
            }
            Some(AmMaskInfo { masks: out })
        },
        None => None,
    };
    pl.mask_info = new_info;
    let ghost mid = *pl;
    let n = pl.children.len();
    let mut j: usize = 0;
    while j < n
        invariant
            pl.id == mid.id,
            pl.parent == mid.parent,
            pl.animated_layer_id == mid.animated_layer_id,
            pl.animated_parent_layer_id == mid.animated_parent_layer_id,
            pl.containing_embed_id == mid.containing_embed_id,
            pl.mask_info == mid.mask_info,
            pl.is_embed == mid.is_embed,
            n == pl.children@.len(),
            n == old(pl).children@.len(),
            j <= n,
            forall|k: int| 0 <= k < j ==> remap_ok(#[trigger] old(pl).children@[k], pl.children@[k], id_map@, false),
            forall|k: int| j <= k < n ==> pl.children@[k] == old(pl).children@[k],
        decreases n - j,
    {
        proof {
            assert(decreases_to!(*old(pl) => old(pl).children));
            assert(decreases_to!(old(pl).children => old(pl).children@));
            assert(decreases_to!(old(pl).children@ => old(pl).children@[j as int]));
        }
        apply_id_remap(&mut pl.children[j], id_map, false);
        j = j + 1;
    }
}

/// Gives every layer of an echo copy a fresh id and rewrites every reference
/// to the copy's ids accordingly, so the copy collides with no original. The
/// root's parent is kept: it refers to a layer outside the copy.
pub fn remap_echo_pl_ids(pl: &mut PendingIds, alloc: &mut IdAllocator)
    ensures
        final(alloc).next == extend_map(Seq::empty(), old(alloc).next, node_ids(*old(pl))).1,
        remap_ok(
            *old(pl),
            *final(pl),
            extend_map(Seq::empty(), old(alloc).next, node_ids(*old(pl))).0,
            true,
        ),
{
    let mut id_map: Vec<(u64, u64)> = Vec::new();
    collect_ids_for_remap(pl, &mut id_map, alloc);
    apply_id_remap(pl, &id_map, true);
}

/// A list of pairs renames an id by its first pair naming it, and leaves
/// alone an id that no pair names.
pub proof fn law_mapped_first_pair(m: Seq<(u64, u64)>, old: u64, k: int)
    ensures
        0 <= k < m.len() && m[k].0 == old && (forall|j: int| 0 <= j < k ==> m[j].0 != old) ==> mapped(m, old)
            == Some(m[k].1),
        (forall|j: int| 0 <= j < m.len() ==> m[j].0 != old) ==> mapped(m, old) is None && mapped_or(m, old)
            == old,
    decreases m.len(),
{
    if m.len() > 0 {
        assert forall|j: int| 0 <= j < m.drop_first().len() implies #[trigger] m.drop_first()[j] == m[j + 1] by {}
        law_mapped_first_pair(m.drop_first(), old, k - 1);
        if 0 < k < m.len() && m[k].0 == old && (forall|j: int| 0 <= j < k ==> m[j].0 != old) {
            assert(m[0].0 != old);
            assert forall|j: int| 0 <= j < k - 1 implies m.drop_first()[j].0 != old by {
                assert(m.drop_first()[j] == m[j + 1]);
            }
        }
        if forall|j: int| 0 <= j < m.len() ==> m[j].0 != old {
            assert(m[0].0 != old);
            assert forall|j: int| 0 <= j < m.drop_first().len() implies m.drop_first()[j].0 != old by {
                assert(m.drop_first()[j] == m[j + 1]);
            }
        }
    }
}

/// A flattened child keeps its own id (also as its animated id); without a
/// parent it is attached to the layer it was nested in; a parent that some
/// pair renames follows the first such pair, in the child and in its
/// animation state; any other parent is kept.
pub proof fn law_remapped_child_parent(c: FlatView, m: Seq<(u64, u64)>, layer_id: u64, is_embed: bool, child_embed_id: u64, k: int)
    ensures
        remapped_child(c, m, layer_id, is_embed, child_embed_id).id == c.id,
        remapped_child(c, m, layer_id, is_embed, child_embed_id).animated_layer_id == c.id,
        c.parent == 0 ==> remapped_child(c, m, layer_id, is_embed, child_embed_id).parent == layer_id,
        c.parent != 0 && 0 <= k < m.len() && m[k].0 == c.parent && (forall|j: int| 0 <= j < k ==> m[j].0
            != c.parent) ==> remapped_child(c, m, layer_id, is_embed, child_embed_id).parent == m[k].1
            && remapped_child(c, m, layer_id, is_embed, child_embed_id).animated_parent_layer_id == m[k].1,
        c.parent != 0 && (forall|j: int| 0 <= j < m.len() ==> m[j].0 != c.parent) ==> remapped_child(
            c,
            m,
            layer_id,
            is_embed,
            child_embed_id,
        ).parent == c.parent && remapped_child(c, m, layer_id, is_embed, child_embed_id).animated_parent_layer_id
            == c.animated_parent_layer_id,
{
    law_mapped_first_pair(m, c.parent, k);
}

} // verus!
