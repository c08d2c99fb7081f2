use am_scene::blending::AmBlendingMode;
use am_scene::components::{sprite_fill, AmElementType, AmLayerName, LayerFilter};
use am_scene::effects::{is_transform_effect, linear_repeat_after_stretch_segment};
use am_scene::schema::{default_bgcolor, default_canvas_size, default_fps, AmEffect};
use am_scene::sdf::SdfShapeType;
use am_scene::text::{after_last_dot_of, str_eq, truncate_string};

fn fx(id: &str) -> AmEffect {
    AmEffect { id: id.to_string(), locally_applied: false }
}

#[test]
fn scene_defaults() {
    assert_eq!(default_canvas_size(), 1280);
    assert_eq!(default_fps(), 60);
    assert_eq!(default_bgcolor(), "#ff000000");
}

#[test]
fn blend_modes_parse_from_project_names() {
    assert_eq!(AmBlendingMode::parse_am(""), AmBlendingMode::Normal);
    assert_eq!(AmBlendingMode::parse_am("multiply"), AmBlendingMode::Multiply);
    assert_eq!(AmBlendingMode::parse_am("diff"), AmBlendingMode::Difference);
    assert_eq!(AmBlendingMode::parse_am("exclude"), AmBlendingMode::Exclude);
    assert_eq!(AmBlendingMode::parse_am("Multiply"), AmBlendingMode::Normal);
    assert_eq!(AmBlendingMode::parse_am("no-such-mode"), AmBlendingMode::Normal);
    assert_eq!(AmBlendingMode::default(), AmBlendingMode::Normal);
}

#[test]
fn blend_mode_classes_and_codes() {
    assert!(!AmBlendingMode::Normal.is_blend());
    assert!(AmBlendingMode::Screen.is_blend());
    assert!(!AmBlendingMode::Mask.is_blend());
    assert!(AmBlendingMode::Mask.is_mask());
    assert!(AmBlendingMode::Exclude.is_mask());
    assert!(!AmBlendingMode::Luminance.is_mask());
    assert_eq!(AmBlendingMode::Normal.code(), 0);
    assert_eq!(AmBlendingMode::Luminance.code(), 24);
    assert_eq!(AmBlendingMode::Mask.code(), 100);
    assert_eq!(AmBlendingMode::Exclude.code(), 101);
    assert_ne!(AmBlendingMode::Hue.code(), AmBlendingMode::Saturation.code());
}

#[test]
fn sdf_shape_indices() {
    assert_eq!(SdfShapeType::BoxRound.index(), 0);
    assert_eq!(SdfShapeType::Circle.index(), 3);
    assert_eq!(SdfShapeType::Arrow.index(), 16);
    assert_eq!(SdfShapeType::default(), SdfShapeType::BoxRound);
    assert_ne!(SdfShapeType::Star.index(), SdfShapeType::Pie.index());
}

#[test]
fn layer_filter_decides_by_name() {
    let names = vec!["a".to_string(), "b".to_string()];
    assert!(LayerFilter::AllLayers.should_spawn("x"));
    assert!(LayerFilter::AllowList(names.clone()).should_spawn("a"));
    assert!(!LayerFilter::AllowList(names.clone()).should_spawn("c"));
    assert!(!LayerFilter::BlockList(names.clone()).should_spawn("b"));
    assert!(LayerFilter::BlockList(names).should_spawn("c"));
    assert!(!LayerFilter::AllowList(Vec::new()).should_spawn("a"));
    assert!(LayerFilter::default().should_spawn(""));
}

#[test]
fn element_type_names() {
    assert_eq!(AmElementType::Shape.name(), "Shape");
    assert_eq!(AmElementType::Text.name(), "Text");
    assert_eq!(AmElementType::Image.name(), "Image");
    assert_eq!(AmElementType::Null.name(), "Null");
    assert_eq!(AmElementType::EmbedScene.name(), "EmbedScene");
}

#[test]
fn layer_names_keep_their_text() {
    let n = AmLayerName::new("Layer 1");
    assert_eq!(n.as_str(), "Layer 1");
    assert_eq!(n.0, "Layer 1");
}

#[test]
fn transform_effect_ids() {
    assert!(is_transform_effect("com.alightcreative.effects.transform2"));
    assert!(is_transform_effect("com.alightcreative.effects.transform"));
    assert!(!is_transform_effect("com.alightcreative.effects.transform3"));
    assert!(!is_transform_effect(""));
}

#[test]
fn repeat_after_stretch_segment_order() {
    let stretch = "com.alightcreative.effects.stretchsegment";
    let repeat = "com.alightcreative.effects.repeat.line";
    assert!(linear_repeat_after_stretch_segment(&[fx(stretch), fx("x"), fx(repeat)]));
    assert!(!linear_repeat_after_stretch_segment(&[fx(repeat), fx(stretch), fx(repeat)]));
    assert!(!linear_repeat_after_stretch_segment(&[fx(stretch)]));
    assert!(!linear_repeat_after_stretch_segment(&[]));
}

#[test]
fn text_after_last_dot() {
    assert_eq!(after_last_dot_of("com.a.b.glow"), "glow");
    assert_eq!(after_last_dot_of("plain"), "plain");
    assert_eq!(after_last_dot_of("ends."), "");
    assert!(str_eq("ab", "ab"));
    assert!(!str_eq("ab", "abc"));
}

#[test]
fn truncate_string_keeps_short_text_and_cuts_long_text() {
    assert_eq!(truncate_string("hello", 20), "hello");
    assert_eq!(truncate_string("hello", 5), "hello");
    assert_eq!(truncate_string("hello world", 8), "hello...");
    assert_eq!(truncate_string("hello", 2), "...");
    assert_eq!(truncate_string("héllo wörld", 8), "héll...");
}

#[test]
fn sprite_fill_color_fill_ignores_stale_fill_image() {
    let (image, is_media, keeps_color) = sprite_fill("color", "amproj:spr_s_boneloop_0.png", true);
    assert_eq!(image, "");
    assert!(!is_media);
    assert!(keeps_color);
}

#[test]
fn sprite_fill_media_fill_keeps_fill_image() {
    let (image, is_media, keeps_color) = sprite_fill("media", "amproj:spr_s_boneloop_0.png", false);
    assert_eq!(image, "amproj:spr_s_boneloop_0.png");
    assert!(is_media);
    assert!(!keeps_color);
    assert_eq!(sprite_fill("media", "", true), (String::new(), false, true));
    assert_eq!(sprite_fill("none", "", false), (String::new(), false, false));
}
