use am_scene::easing::{parse_easing, words, EasingKind};

fn params(w: &[String]) -> Vec<f32> {
    w[1..].iter().map(|s| s.parse::<f32>().unwrap()).collect()
}

#[test]
fn test_easing_parse() {
    let (kind, w) = parse_easing("");
    assert_eq!(kind, EasingKind::Linear);
    assert!(w.is_empty());

    let (kind, w) = parse_easing("step 1.0 0.0");
    assert_eq!(kind, EasingKind::Step);
    assert_eq!(params(&w), vec![1.0, 0.0]);

    let (kind, w) = parse_easing("cubicBezier 0.0 0.0 0.58 1.0");
    assert_eq!(kind, EasingKind::CubicBezier);
    assert_eq!(params(&w), vec![0.0, 0.0, 0.58, 1.0]);
}

#[test]
fn easing_kinds_from_first_word() {
    assert_eq!(parse_easing("  bounce 0.5 0.9 ").0, EasingKind::Bounce);
    assert_eq!(parse_easing("cyclic").0, EasingKind::Cyclic);
    assert_eq!(parse_easing("Step 1 0").0, EasingKind::Linear);
    assert_eq!(parse_easing("linear").0, EasingKind::Linear);
    assert_eq!(parse_easing("   ").0, EasingKind::Linear);
}

#[test]
fn words_split_at_white_space() {
    assert_eq!(words(" a  bc\td\n"), vec!["a", "bc", "d"]);
    assert!(words("").is_empty());
    assert_eq!(words("x\u{00a0}y"), vec!["x", "y"]);
}
