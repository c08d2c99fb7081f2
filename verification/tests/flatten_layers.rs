use am_scene::flatten::{flatten_pending_layers, FlatStep};
use am_scene::ids::{IdAllocator, PendingIds};
use am_scene::masks::{AmMaskEntry, AmMaskInfo};

fn node(id: u64, parent: u64, is_embed: bool, children: Vec<PendingIds>) -> PendingIds {
    PendingIds {
        id,
        parent,
        containing_embed_id: 0,
        animated_layer_id: id,
        animated_parent_layer_id: parent,
        mask_info: None,
        is_embed,
        children,
    }
}

fn mask(mask_layer_id: u64, mask_parent_layer_id: u64) -> AmMaskEntry {
    AmMaskEntry {
        start_time: 0,
        end_time: 100,
        mask_layer_id,
        is_exclude: false,
        mask_parent_layer_id,
        is_embed_mask: false,
        is_circle: false,
        geometry: 0,
    }
}

#[test]
fn flatten_lifts_embed_content_after_the_embed() {
    let mut c2 = node(11, 10, false, Vec::new());
    c2.mask_info = Some(AmMaskInfo { masks: vec![mask(10, 0)] });
    let embed = node(2, 0, true, vec![node(10, 0, false, Vec::new()), c2]);
    let layers = vec![node(1, 0, false, Vec::new()), embed, node(3, 0, false, Vec::new())];
    let mut alloc = IdAllocator { next: 100 };

    let out = flatten_pending_layers(layers, 0, &mut alloc);

    let ids: Vec<u64> = out.layers.iter().map(|l| l.id).collect();
    assert_eq!(ids, vec![1, 2, 100, 101, 3]);
    assert_eq!(alloc.next, 102);
    assert!(out.layers.iter().all(|l| l.children.is_empty()));

    let c1 = &out.layers[2];
    assert_eq!(c1.parent, 2);
    assert_eq!(c1.containing_embed_id, 2);
    assert_eq!(c1.animated_layer_id, 100);
    let c2 = &out.layers[3];
    assert_eq!(c2.parent, 100);
    assert_eq!(c2.animated_parent_layer_id, 100);
    assert_eq!(c2.containing_embed_id, 2);
    let m = &c2.mask_info.as_ref().unwrap().masks[0];
    assert_eq!(m.mask_layer_id, 100);
    assert_eq!(m.mask_parent_layer_id, 2);

    assert_eq!(out.embed_offset_from, vec![None, None, Some(1), None, None]);
    assert!(out.layers[1].is_embed);
    assert_eq!(out.z_levels, vec![vec![FlatStep { target: 3, source: 2 }]]);
    assert_eq!(out.layers[0].containing_embed_id, 0);
    assert_eq!(out.layers[4].containing_embed_id, 0);
}

#[test]
fn flatten_renames_through_every_level() {
    let inner_embed = node(6, 0, true, vec![node(7, 0, false, Vec::new())]);
    let group = node(5, 0, false, vec![inner_embed]);
    let mut alloc = IdAllocator { next: 100 };

    let out = flatten_pending_layers(vec![group], 0, &mut alloc);

    let ids: Vec<u64> = out.layers.iter().map(|l| l.id).collect();
    assert_eq!(ids, vec![5, 101, 102]);
    assert_eq!(alloc.next, 103);
    assert_eq!(out.layers[1].parent, 5);
    assert_eq!(out.layers[1].containing_embed_id, 0);
    assert_eq!(out.layers[2].parent, 101);
    assert_eq!(out.layers[2].containing_embed_id, 101);
    assert_eq!(out.embed_offset_from, vec![None, None, Some(1)]);
    assert!(out.layers[1].is_embed);
    assert_eq!(out.z_levels.len(), 2);
    assert!(out.z_levels.iter().all(|l| l.is_empty()));
}

#[test]
fn flatten_of_flat_layers_changes_nothing_but_owners() {
    let mut a = node(1, 0, false, Vec::new());
    a.containing_embed_id = 9;
    let mut alloc = IdAllocator { next: 50 };
    let out = flatten_pending_layers(vec![a, node(2, 1, false, Vec::new())], 0, &mut alloc);
    let ids: Vec<u64> = out.layers.iter().map(|l| l.id).collect();
    assert_eq!(ids, vec![1, 2]);
    assert_eq!(out.layers[0].containing_embed_id, 0);
    assert_eq!(out.layers[1].parent, 1);
    assert_eq!(alloc.next, 50);
    assert!(out.z_levels.is_empty());
    assert_eq!(out.embed_offset_from, vec![None, None]);
}

#[test]
fn flatten_of_group_takes_parent_depth_off_children() {
    // group 1 holds 2 and 3, and 3 is parented to 2 inside the group.
    let group = node(1, 0, false, vec![node(2, 0, false, Vec::new()), node(3, 2, false, Vec::new())]);
    let mut alloc = IdAllocator { next: 10 };
    let out = flatten_pending_layers(vec![group], 0, &mut alloc);
    let ids: Vec<u64> = out.layers.iter().map(|l| l.id).collect();
    assert_eq!(ids, vec![1, 10, 11]);
    assert_eq!(out.layers[1].parent, 1);
    assert_eq!(out.layers[2].parent, 10);
    assert_eq!(out.layers[1].containing_embed_id, 0);
    assert_eq!(out.embed_offset_from, vec![None, None, None]);
    assert_eq!(out.z_levels, vec![vec![FlatStep { target: 2, source: 1 }]]);
}
