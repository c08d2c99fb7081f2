use am_scene::ids::{remap_echo_pl_ids, remap_flattened_child, IdAllocator, PendingIds};
use am_scene::masks::{AmMaskEntry, AmMaskInfo};

fn make_pending_layer(id: u64, parent: u64, containing_embed_id: u64, _label: &str) -> PendingIds {
    PendingIds {
        id,
        parent,
        containing_embed_id,
        animated_layer_id: 0,
        animated_parent_layer_id: 0,
        mask_info: None,
        is_embed: false,
        children: Vec::new(),
    }
}

fn mask(mask_layer_id: u64, mask_parent_layer_id: u64) -> AmMaskEntry {
    AmMaskEntry {
        start_time: 0,
        end_time: 0,
        mask_layer_id,
        is_exclude: false,
        mask_parent_layer_id,
        is_embed_mask: false,
        is_circle: false,
        geometry: 0,
    }
}

#[test]
fn remap_preserves_nested_embed_owner_for_nested_children() {
    let current_embed_layer_id = 102_373_407;
    let nested_embed_old_id = 12_372_971;
    let nested_embed_new_id = 1_000_000_000_021;
    let mut child = make_pending_layer(
        12_368_973,
        nested_embed_old_id,
        nested_embed_old_id,
        "spr_s_boneloop_0.png Copy 5",
    );

    remap_flattened_child(
        &mut child,
        &[(nested_embed_old_id, nested_embed_new_id)],
        current_embed_layer_id,
        true,
        nested_embed_old_id,
    );

    assert_eq!(child.parent, nested_embed_new_id);
    assert_eq!(child.animated_parent_layer_id, nested_embed_new_id);
    assert_eq!(child.containing_embed_id, nested_embed_new_id);
}

#[test]
fn remap_assigns_current_embed_owner_for_direct_children() {
    let current_embed_layer_id = 102_373_407;
    let mut child = make_pending_layer(
        12_372_970,
        0,
        current_embed_layer_id,
        "spr_s_boneloop_0.png Copy",
    );

    remap_flattened_child(&mut child, &[], current_embed_layer_id, true, current_embed_layer_id);

    assert_eq!(child.parent, current_embed_layer_id);
    assert_eq!(child.containing_embed_id, current_embed_layer_id);
}

#[test]
fn remap_promotes_flattened_root_mask_parent_to_current_embed() {
    let current_embed_layer_id = 102_373_489;
    let original_mask_layer_id = 12_373_002;
    let remapped_mask_layer_id = 1_000_000_000_062;
    let mut child = make_pending_layer(
        12_373_493,
        0,
        current_embed_layer_id,
        "spr_s_boneloop_0.png Copy",
    );
    child.mask_info = Some(AmMaskInfo { masks: vec![mask(original_mask_layer_id, 0)] });

    remap_flattened_child(
        &mut child,
        &[(original_mask_layer_id, remapped_mask_layer_id)],
        current_embed_layer_id,
        true,
        current_embed_layer_id,
    );

    let masks = &child.mask_info.as_ref().expect("mask info").masks;
    assert_eq!(masks.len(), 1);
    assert_eq!(masks[0].mask_layer_id, remapped_mask_layer_id);
    assert_eq!(masks[0].mask_parent_layer_id, current_embed_layer_id);
}

#[test]
fn remap_reports_embed_offset_only_for_parentless_children_of_embeds() {
    let mut a = make_pending_layer(5, 0, 0, "a");
    assert!(remap_flattened_child(&mut a, &[], 77, true, 0));
    assert_eq!(a.parent, 77);
    assert_eq!(a.animated_layer_id, 5);

    let mut b = make_pending_layer(6, 0, 0, "b");
    assert!(!remap_flattened_child(&mut b, &[], 77, false, 0));
    assert_eq!(b.parent, 77);

    let mut c = make_pending_layer(7, 3, 0, "c");
    c.animated_parent_layer_id = 3;
    assert!(!remap_flattened_child(&mut c, &[(4, 40)], 77, true, 0));
    assert_eq!(c.parent, 3);
    assert_eq!(c.animated_parent_layer_id, 3);
}

#[test]
fn remap_keeps_unmapped_embed_owner_and_mask_parent() {
    let mut child = make_pending_layer(9, 2, 8, "x");
    child.mask_info = Some(AmMaskInfo { masks: vec![mask(11, 12), mask(13, 0)] });
    remap_flattened_child(&mut child, &[(11, 110), (2, 20)], 50, false, 8);
    assert_eq!(child.parent, 20);
    assert_eq!(child.containing_embed_id, 8);
    let masks = &child.mask_info.as_ref().unwrap().masks;
    assert_eq!(masks[0].mask_layer_id, 110);
    assert_eq!(masks[0].mask_parent_layer_id, 12);
    assert_eq!(masks[1].mask_layer_id, 13);
    assert_eq!(masks[1].mask_parent_layer_id, 0);
}

#[test]
fn remap_uses_first_pair_naming_an_id() {
    let mut child = make_pending_layer(1, 2, 0, "x");
    remap_flattened_child(&mut child, &[(2, 30), (2, 40)], 50, false, 0);
    assert_eq!(child.parent, 30);
}

#[test]
fn id_allocator_hands_out_consecutive_ids() {
    let mut alloc = IdAllocator::new();
    assert_eq!(alloc.next, 1_000_000_000_000);
    assert_eq!(alloc.generate_unique_id(42), 1_000_000_000_000);
    assert_eq!(alloc.generate_unique_id(42), 1_000_000_000_001);
    assert_eq!(alloc.next, 1_000_000_000_002);
}

#[test]
fn id_allocator_wraps_at_the_top() {
    let mut alloc = IdAllocator { next: u64::MAX };
    assert_eq!(alloc.generate_unique_id(0), u64::MAX);
    assert_eq!(alloc.next, 0);
}

#[test]
fn echo_copy_gets_fresh_ids_everywhere() {
    // root 10 (parent 99, outside the copy) with children 11 and 12; 12 has child 13.
    let mut grandchild = make_pending_layer(13, 12, 0, "gc");
    grandchild.animated_parent_layer_id = 12;
    grandchild.mask_info = Some(AmMaskInfo { masks: vec![mask(11, 10), mask(500, 501)] });
    let mut c12 = make_pending_layer(12, 10, 0, "c12");
    c12.animated_parent_layer_id = 10;
    c12.children.push(grandchild);
    let mut c11 = make_pending_layer(11, 10, 10, "c11");
    c11.animated_parent_layer_id = 10;
    let mut root = make_pending_layer(10, 99, 0, "root");
    root.animated_parent_layer_id = 99;
    root.children.push(c11);
    root.children.push(c12);

    let mut alloc = IdAllocator { next: 1000 };
    remap_echo_pl_ids(&mut root, &mut alloc);

    assert_eq!(alloc.next, 1004);
    assert_eq!(root.id, 1000);
    assert_eq!(root.animated_layer_id, 1000);
    assert_eq!(root.parent, 99);
    assert_eq!(root.animated_parent_layer_id, 99);
    assert_eq!(root.children[0].id, 1001);
    assert_eq!(root.children[0].parent, 1000);
    assert_eq!(root.children[0].containing_embed_id, 1000);
    assert_eq!(root.children[1].id, 1002);
    assert_eq!(root.children[1].animated_parent_layer_id, 1000);
    let gc = &root.children[1].children[0];
    assert_eq!(gc.id, 1003);
    assert_eq!(gc.parent, 1002);
    let masks = &gc.mask_info.as_ref().unwrap().masks;
    assert_eq!(masks[0].mask_layer_id, 1001);
    assert_eq!(masks[0].mask_parent_layer_id, 1000);
    assert_eq!(masks[1].mask_layer_id, 500);
    assert_eq!(masks[1].mask_parent_layer_id, 501);
}

#[test]
fn echo_copy_with_repeated_id_names_it_once() {
    let mut root = make_pending_layer(5, 0, 0, "root");
    root.children.push(make_pending_layer(5, 5, 0, "dup"));
    root.children.push(make_pending_layer(6, 5, 0, "other"));
    let mut alloc = IdAllocator { next: 7 };
    remap_echo_pl_ids(&mut root, &mut alloc);
    assert_eq!(alloc.next, 9);
    assert_eq!(root.id, 7);
    assert_eq!(root.children[0].id, 7);
    assert_eq!(root.children[0].parent, 7);
    assert_eq!(root.children[1].id, 8);
}
