use am_scene::report::ReportVerdict;
use am_scene::validation::{
    EffectUsage, SceneStats, SupportLevel, UnsupportedEffect, UnsupportedLayer, ValidationReport,
};

fn usage(id: &str, level: SupportLevel) -> EffectUsage {
    EffectUsage { effect_id: id.to_string(), display_name: id.to_string(), usage_count: 1, level }
}

fn unknown(id: &str, layer_id: u64) -> UnsupportedEffect {
    UnsupportedEffect {
        effect_id: id.to_string(),
        effect_label: id.to_string(),
        layer_label: format!("layer {}", layer_id),
        layer_id,
    }
}

fn report(
    used: Vec<EffectUsage>,
    effects: Vec<UnsupportedEffect>,
    layers: Vec<UnsupportedLayer>,
) -> ValidationReport {
    ValidationReport {
        supported_effects_used: used,
        unsupported_effects: effects,
        unsupported_layers: layers,
        warnings: Vec::new(),
        stats: SceneStats {
            total_layers: 0,
            shape_count: 0,
            text_count: 0,
            image_count: 0,
            null_count: 0,
            embed_count: 0,
            audio_count: 0,
            video_count: 0,
            camera_count: 0,
            bookmark_count: 0,
        },
    }
}

#[test]
fn summary_counts_full_and_partial_effects() {
    let r = report(
        vec![
            usage("a", SupportLevel::Full),
            usage("b", SupportLevel::Partial),
            usage("c", SupportLevel::Full),
            usage("d", SupportLevel::Unsupported),
        ],
        Vec::new(),
        Vec::new(),
    );
    let s = r.summary();
    assert_eq!(s.full_count, 2);
    assert_eq!(s.partial_count, 1);
    assert_eq!(s.total_issues, 0);
    assert_eq!(s.verdict, ReportVerdict::SupportedWithPartial);
    assert!(s.unsupported_groups.is_empty());
}

#[test]
fn summary_of_clean_report_is_fully_supported() {
    let s = report(vec![usage("a", SupportLevel::Full)], Vec::new(), Vec::new()).summary();
    assert_eq!(s.verdict, ReportVerdict::FullySupported);
    let empty = report(Vec::new(), Vec::new(), Vec::new()).summary();
    assert_eq!(empty.verdict, ReportVerdict::FullySupported);
    assert_eq!(empty.full_count, 0);
}

#[test]
fn summary_groups_unknown_effects_by_id_in_first_use_order() {
    let r = report(
        vec![usage("a", SupportLevel::Partial)],
        vec![unknown("x", 1), unknown("y", 2), unknown("x", 3), unknown("z", 4), unknown("x", 5)],
        vec![UnsupportedLayer { label: "music".to_string(), layer_type: "Audio".to_string(), id: 9 }],
    );
    let s = r.summary();
    let groups: Vec<(String, usize, usize)> = s
        .unsupported_groups
        .iter()
        .map(|g| (g.effect_id.clone(), g.first_use, g.usage_count))
        .collect();
    assert_eq!(
        groups,
        vec![("x".to_string(), 0, 3), ("y".to_string(), 1, 1), ("z".to_string(), 3, 1)]
    );
    let covered: usize = s.unsupported_groups.iter().map(|g| g.usage_count).sum();
    assert_eq!(covered, r.unsupported_effects.len());
    assert_eq!(s.total_issues, 6);
    assert_eq!(s.verdict, ReportVerdict::IssuesSkipped);
}

#[test]
fn summary_with_only_unsupported_layers_reports_issues() {
    let r = report(
        Vec::new(),
        Vec::new(),
        vec![UnsupportedLayer { label: "v".to_string(), layer_type: "Video".to_string(), id: 1 }],
    );
    let s = r.summary();
    assert_eq!(s.total_issues, 1);
    assert_eq!(s.verdict, ReportVerdict::IssuesSkipped);
}
