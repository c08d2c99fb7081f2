use am_scene::blending::AmBlendingMode;
use am_scene::masks::{
    apply_mask_to_children, lift_masks_to_composite_embeds, propagate_masks_to_nested_children,
    AmMaskEntry, AmMaskInfo, MaskLayer,
};

fn entry(mask_layer_id: u64, start_time: i32, end_time: i32) -> AmMaskEntry {
    AmMaskEntry {
        start_time,
        end_time,
        mask_layer_id,
        is_exclude: false,
        mask_parent_layer_id: 0,
        is_embed_mask: false,
        is_circle: false,
        geometry: mask_layer_id as usize,
    }
}

fn layer(id: u64, parent: u64, z_order: i64) -> MaskLayer {
    MaskLayer {
        id,
        parent,
        containing_embed_id: 0,
        z_order,
        blending_mode: AmBlendingMode::Normal,
        hidden: false,
        mask_entry: None,
        requires_composite: false,
        mask_info: None,
        children: Vec::new(),
    }
}

fn mask_layer(id: u64, parent: u64, z_order: i64, mode: AmBlendingMode) -> MaskLayer {
    let mut l = layer(id, parent, z_order);
    l.blending_mode = mode;
    let mut e = entry(id, 0, 1000);
    e.mask_parent_layer_id = parent;
    l.mask_entry = Some(e);
    l
}

fn mask_ids(l: &MaskLayer) -> Option<Vec<u64>> {
    l.mask_info.as_ref().map(|i| i.masks.iter().map(|m| m.mask_layer_id).collect())
}

#[test]
fn get_active_mask_finds_first_mask_live_at_time() {
    let info = AmMaskInfo { masks: vec![entry(1, 0, 100), entry(2, 50, 200), entry(3, 50, 60)] };
    assert_eq!(info.get_active_mask(10).map(|m| m.mask_layer_id), Some(1));
    assert_eq!(info.get_active_mask(100).map(|m| m.mask_layer_id), Some(2));
    assert_eq!(info.get_active_mask(200), None);
}

#[test]
fn get_active_masks_keeps_one_entry_per_mask_layer() {
    let info = AmMaskInfo {
        masks: vec![entry(1, 0, 100), entry(2, 0, 100), entry(1, 0, 100), entry(3, 500, 600)],
    };
    let ids: Vec<u64> = info.get_active_masks(5).iter().map(|m| m.mask_layer_id).collect();
    assert_eq!(ids, vec![1, 2]);
    assert!(info.get_active_masks(300).is_empty());
    let late: Vec<u64> = info.get_active_masks(550).iter().map(|m| m.mask_layer_id).collect();
    assert_eq!(late, vec![3]);
}

#[test]
fn root_mask_clips_root_layers_below_it() {
    let mut layers = vec![
        layer(1, 0, 0),
        layer(2, 0, 5),
        mask_layer(3, 0, 10, AmBlendingMode::Mask),
        layer(4, 0, 20),
    ];
    apply_mask_to_children(&mut layers);
    assert_eq!(mask_ids(&layers[0]), Some(vec![3]));
    assert_eq!(mask_ids(&layers[1]), Some(vec![3]));
    assert_eq!(mask_ids(&layers[2]), None);
    assert_eq!(mask_ids(&layers[3]), None);
    assert!(!layers[0].mask_info.as_ref().unwrap().masks[0].is_exclude);
}

#[test]
fn exclude_layer_gives_exclude_masks() {
    let mut layers = vec![layer(1, 0, 0), mask_layer(2, 0, 10, AmBlendingMode::Exclude)];
    apply_mask_to_children(&mut layers);
    let m = &layers[0].mask_info.as_ref().unwrap().masks[0];
    assert_eq!(m.mask_layer_id, 2);
    assert!(m.is_exclude);
}

#[test]
fn hidden_mask_or_no_mask_changes_nothing() {
    let mut hidden = mask_layer(2, 0, 10, AmBlendingMode::Mask);
    hidden.hidden = true;
    let mut layers = vec![layer(1, 0, 0), hidden];
    apply_mask_to_children(&mut layers);
    assert_eq!(mask_ids(&layers[0]), None);

    let mut plain = vec![layer(1, 0, 0), layer(2, 0, 10)];
    apply_mask_to_children(&mut plain);
    assert_eq!(mask_ids(&plain[0]), None);
    assert_eq!(mask_ids(&plain[1]), None);
}

#[test]
fn child_mask_clips_earlier_siblings_but_not_its_parent() {
    let mut layers = vec![
        layer(10, 0, 0),
        layer(11, 10, 1),
        mask_layer(12, 10, 5, AmBlendingMode::Mask),
        layer(20, 99, 2),
    ];
    apply_mask_to_children(&mut layers);
    assert_eq!(mask_ids(&layers[0]), None);
    assert_eq!(mask_ids(&layers[1]), Some(vec![12]));
    assert_eq!(mask_ids(&layers[3]), None);
}

#[test]
fn layers_inherit_masks_of_their_parent() {
    let mut layers = vec![
        layer(1, 0, 0),
        mask_layer(2, 0, 10, AmBlendingMode::Mask),
        layer(3, 1, 20),
        layer(4, 3, 30),
    ];
    apply_mask_to_children(&mut layers);
    assert_eq!(mask_ids(&layers[0]), Some(vec![2]));
    assert_eq!(mask_ids(&layers[2]), Some(vec![2]));
    assert_eq!(mask_ids(&layers[3]), Some(vec![2]));
}

#[test]
fn masks_reach_nested_children_unless_embed_is_composite() {
    let mut direct = layer(1, 0, 0);
    direct.children.push(layer(100, 0, 0));
    let mut composite = layer(2, 0, 1);
    composite.requires_composite = true;
    composite.children.push(layer(200, 0, 0));
    let mut layers = vec![direct, composite, mask_layer(3, 0, 10, AmBlendingMode::Mask)];
    apply_mask_to_children(&mut layers);
    assert_eq!(mask_ids(&layers[0]), Some(vec![3]));
    assert_eq!(mask_ids(&layers[0].children[0]), Some(vec![3]));
    assert_eq!(mask_ids(&layers[1]), Some(vec![3]));
    assert_eq!(mask_ids(&layers[1].children[0]), None);
}

#[test]
fn propagation_adds_only_missing_mask_layers() {
    let mut with_one = layer(2, 0, 0);
    with_one.mask_info = Some(AmMaskInfo { masks: vec![entry(1, 0, 5)] });
    let mut inner_mask = mask_layer(3, 0, 0, AmBlendingMode::Mask);
    inner_mask.children.push(layer(30, 0, 0));
    let mut with_child = layer(4, 0, 0);
    with_child.children.push(layer(40, 0, 0));
    let mut children = vec![layer(1, 0, 0), with_one, inner_mask, with_child];
    let masks = vec![entry(1, 0, 100), entry(9, 0, 100)];
    propagate_masks_to_nested_children(&mut children, &masks);
    assert_eq!(mask_ids(&children[0]), Some(vec![1, 9]));
    assert_eq!(mask_ids(&children[1]), Some(vec![1, 9]));
    assert_eq!(children[1].mask_info.as_ref().unwrap().masks[0].end_time, 5);
    assert_eq!(mask_ids(&children[2]), None);
    assert_eq!(mask_ids(&children[2].children[0]), None);
    assert_eq!(mask_ids(&children[3].children[0]), Some(vec![1, 9]));
}

#[test]
fn composite_embed_takes_over_masks_of_its_layers() {
    let mut embed = layer(50, 0, 0);
    embed.requires_composite = true;
    embed.mask_info = Some(AmMaskInfo { masks: vec![entry(8, 0, 1)] });
    let mut inside = layer(51, 0, 1);
    inside.containing_embed_id = 50;
    inside.mask_info = Some(AmMaskInfo { masks: vec![entry(7, 0, 1), entry(7, 0, 2), entry(8, 0, 3)] });
    let mut child = layer(52, 50, 2);
    child.mask_info = Some(AmMaskInfo { masks: vec![entry(6, 0, 1)] });
    let mut outside = layer(60, 0, 3);
    outside.mask_info = Some(AmMaskInfo { masks: vec![entry(5, 0, 1)] });
    let mut layers = vec![embed, inside, child, outside];
    lift_masks_to_composite_embeds(&mut layers);
    assert_eq!(mask_ids(&layers[0]), Some(vec![8, 7, 6]));
    assert_eq!(layers[0].mask_info.as_ref().unwrap().masks[1].end_time, 1);
    assert_eq!(mask_ids(&layers[1]), None);
    assert_eq!(mask_ids(&layers[2]), None);
    assert_eq!(mask_ids(&layers[3]), Some(vec![5]));
}

#[test]
fn lifting_without_composite_embeds_changes_nothing() {
    let mut a = layer(1, 0, 0);
    a.mask_info = Some(AmMaskInfo { masks: vec![entry(4, 0, 1)] });
    let mut layers = vec![a, layer(2, 1, 0)];
    lift_masks_to_composite_embeds(&mut layers);
    assert_eq!(mask_ids(&layers[0]), Some(vec![4]));
    assert_eq!(mask_ids(&layers[1]), None);
}
