use am_scene::schema::{
    AmAudio, AmBookmark, AmCamera, AmEffect, AmEmbedScene, AmImage, AmLayer, AmNullObj, AmScene,
    AmShape, AmText, AmVideo,
};
use am_scene::validation::{EffectDef, SceneStats, SupportLevel, ValidationReport};

fn scene(layers: Vec<AmLayer>) -> AmScene {
    AmScene {
        title: "t".to_string(),
        width: 1280,
        height: 720,
        export_width: 1280,
        export_height: 720,
        fps: 60,
        total_time: 1000,
        bgcolor: "#ff000000".to_string(),
        amver: 1,
        retime: String::new(),
        precompose: String::new(),
        media: Vec::new(),
        layers,
    }
}

fn fx(id: &str) -> AmEffect {
    AmEffect { id: id.to_string(), locally_applied: false }
}

fn shape(id: u64, label: &str, effects: Vec<AmEffect>) -> AmLayer {
    AmLayer::Shape(AmShape {
        id,
        label: label.to_string(),
        start_time: 0,
        end_time: 1000,
        parent: 0,
        fill_type: "color".to_string(),
        fill_image: String::new(),
        shape_type: "rect".to_string(),
        blending: String::new(),
        hidden: false,
        effects,
    })
}

fn text(id: u64, label: &str, effects: Vec<AmEffect>) -> AmLayer {
    AmLayer::Text(AmText {
        id,
        label: label.to_string(),
        start_time: 0,
        end_time: 1000,
        parent: 0,
        content: "hello".to_string(),
        font: String::new(),
        align: String::new(),
        effects,
    })
}

fn audio(id: u64, label: &str) -> AmLayer {
    AmLayer::Audio(AmAudio {
        id,
        label: label.to_string(),
        start_time: 0,
        end_time: 1000,
        parent: 0,
        source: String::new(),
    })
}

fn video(id: u64, label: &str, effects: Vec<AmEffect>) -> AmLayer {
    AmLayer::Video(AmVideo {
        id,
        label: label.to_string(),
        start_time: 0,
        end_time: 1000,
        parent: 0,
        source: String::new(),
        effects,
    })
}

fn embed(id: u64, label: &str, layers: Vec<AmLayer>) -> AmLayer {
    AmLayer::EmbedScene(AmEmbedScene {
        id,
        label: label.to_string(),
        start_time: 0,
        end_time: 1000,
        parent: 0,
        in_time: None,
        out_time: None,
        effects: Vec::new(),
        scene: Box::new(scene(layers)),
    })
}

fn registry() -> Vec<EffectDef> {
    vec![
        EffectDef {
            id: "com.alightcreative.effects.gaussianblur".to_string(),
            display_name_zh: "高斯模糊".to_string(),
            support_level: SupportLevel::Full,
        },
        EffectDef {
            id: "com.alightcreative.effects.swing".to_string(),
            display_name_zh: "摇摆".to_string(),
            support_level: SupportLevel::Partial,
        },
        EffectDef {
            id: "com.alightcreative.effects.unused".to_string(),
            display_name_zh: "未用".to_string(),
            support_level: SupportLevel::Full,
        },
    ]
}

fn sample_scene() -> AmScene {
    scene(vec![
        shape(
            1,
            "box",
            vec![
                fx("com.alightcreative.effects.swing"),
                fx("com.other.vendor.glow"),
                fx("com.alightcreative.effects.gaussianblur"),
            ],
        ),
        audio(2, "music"),
        embed(
            3,
            "group",
            vec![
                text(4, "title", vec![fx("com.alightcreative.effects.gaussianblur")]),
                video(5, "clip", vec![fx("noDots")]),
            ],
        ),
        AmLayer::Bookmark(AmBookmark { id: 6, label: "mark".to_string(), start_time: 0, end_time: 0 }),
        AmLayer::Camera(AmCamera { id: 7, label: "cam".to_string(), start_time: 0, end_time: 0, parent: 0 }),
        AmLayer::Nullobj(AmNullObj {
            id: 8,
            label: "null".to_string(),
            start_time: 0,
            end_time: 0,
            parent: 0,
            obj_type: String::new(),
            effects: vec![fx("com.alightcreative.effects.swing")],
        }),
        AmLayer::Image(AmImage {
            id: 9,
            label: "pic".to_string(),
            start_time: 0,
            end_time: 0,
            parent: 0,
            fill_image: String::new(),
            effects: Vec::new(),
        }),
    ])
}

#[test]
fn validate_counts_every_layer_kind_including_nested_ones() {
    let report = ValidationReport::validate(&sample_scene(), &registry());
    assert_eq!(
        report.stats,
        SceneStats {
            total_layers: 9,
            shape_count: 1,
            text_count: 1,
            image_count: 1,
            null_count: 1,
            embed_count: 1,
            audio_count: 1,
            video_count: 1,
            camera_count: 1,
            bookmark_count: 1,
        }
    );
    let s = report.stats;
    assert_eq!(
        s.total_layers,
        s.shape_count + s.text_count + s.image_count + s.null_count + s.embed_count
            + s.audio_count + s.video_count + s.camera_count + s.bookmark_count
    );
}

#[test]
fn validate_reports_unknown_effects_in_scene_order() {
    let report = ValidationReport::validate(&sample_scene(), &registry());
    assert_eq!(report.unsupported_effects.len(), 2);
    let first = &report.unsupported_effects[0];
    assert_eq!(first.effect_id, "com.other.vendor.glow");
    assert_eq!(first.effect_label, "glow");
    assert_eq!(first.layer_label, "box");
    assert_eq!(first.layer_id, 1);
    let second = &report.unsupported_effects[1];
    assert_eq!(second.effect_id, "noDots");
    assert_eq!(second.effect_label, "noDots");
    assert_eq!(second.layer_label, "clip");
    assert_eq!(second.layer_id, 5);
}

#[test]
fn validate_counts_known_effects_in_registry_order() {
    let report = ValidationReport::validate(&sample_scene(), &registry());
    assert_eq!(report.supported_effects_used.len(), 2);
    let blur = &report.supported_effects_used[0];
    assert_eq!(blur.effect_id, "com.alightcreative.effects.gaussianblur");
    assert_eq!(blur.display_name, "高斯模糊");
    assert_eq!(blur.usage_count, 2);
    assert_eq!(blur.level, SupportLevel::Full);
    let swing = &report.supported_effects_used[1];
    assert_eq!(swing.effect_id, "com.alightcreative.effects.swing");
    assert_eq!(swing.usage_count, 2);
    assert_eq!(swing.level, SupportLevel::Partial);
    let uses: u32 = report.supported_effects_used.iter().map(|u| u.usage_count).sum();
    assert_eq!(uses as usize + report.unsupported_effects.len(), 6);
}

#[test]
fn validate_lists_audio_video_and_camera_layers_as_unsupported() {
    let report = ValidationReport::validate(&sample_scene(), &registry());
    assert_eq!(report.unsupported_layers.len(), 3);
    assert_eq!(report.unsupported_layers[0].label, "music");
    assert_eq!(report.unsupported_layers[0].layer_type, "Audio (音频)");
    assert_eq!(report.unsupported_layers[0].id, 2);
    assert_eq!(report.unsupported_layers[1].label, "clip");
    assert_eq!(report.unsupported_layers[1].layer_type, "Video (视频)");
    assert_eq!(report.unsupported_layers[1].id, 5);
    assert_eq!(report.unsupported_layers[2].label, "cam");
    assert_eq!(report.unsupported_layers[2].layer_type, "Camera (相机)");
    assert_eq!(report.unsupported_layers[2].id, 7);
    assert!(report.warnings.is_empty());
}

#[test]
fn validate_empty_scene_gives_empty_report() {
    let report = ValidationReport::validate(&scene(Vec::new()), &registry());
    assert_eq!(report.stats.total_layers, 0);
    assert!(report.supported_effects_used.is_empty());
    assert!(report.unsupported_effects.is_empty());
    assert!(report.unsupported_layers.is_empty());
}

#[test]
fn validate_with_empty_registry_reports_every_effect() {
    let report = ValidationReport::validate(&sample_scene(), &[]);
    assert!(report.supported_effects_used.is_empty());
    assert_eq!(report.unsupported_effects.len(), 6);
    assert_eq!(report.unsupported_effects[0].effect_label, "swing");
}

#[test]
fn validate_reports_effects_of_embedded_scenes() {
    let mut group = embed(3, "group", vec![text(4, "title", vec![fx("com.alightcreative.effects.swing")])]);
    if let AmLayer::EmbedScene(e) = &mut group {
        e.effects = vec![fx("com.alightcreative.effects.repeat.echokf"), fx("com.alightcreative.effects.swing")];
    }
    let report = ValidationReport::validate(&scene(vec![group]), &registry());
    assert_eq!(report.unsupported_effects.len(), 1);
    assert_eq!(report.unsupported_effects[0].effect_label, "echokf");
    assert_eq!(report.unsupported_effects[0].layer_label, "group");
    assert_eq!(report.unsupported_effects[0].layer_id, 3);
    assert_eq!(report.supported_effects_used.len(), 1);
    assert_eq!(report.supported_effects_used[0].usage_count, 2);

    let mut lone = embed(8, "lone", Vec::new());
    if let AmLayer::EmbedScene(e) = &mut lone {
        e.effects = vec![fx("com.x.glow")];
    }
    let report = ValidationReport::validate(&scene(vec![lone]), &[]);
    assert_eq!(report.unsupported_effects.len(), 1);
    assert_eq!(report.unsupported_effects[0].layer_id, 8);
}

#[test]
fn validate_camera_only_scene_reports_the_camera() {
    let cam = AmLayer::Camera(AmCamera { id: 1, label: "c".to_string(), start_time: 0, end_time: 0, parent: 0 });
    let report = ValidationReport::validate(&scene(vec![cam]), &registry());
    assert_eq!(report.stats.camera_count, 1);
    assert_eq!(report.unsupported_layers.len(), 1);
    assert_eq!(report.unsupported_layers[0].layer_type, "Camera (相机)");
}
