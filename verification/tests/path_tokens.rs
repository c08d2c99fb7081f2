use am_scene::path::{path_tokens, path_vertex_tokens};

fn numeric(tokens: &[String]) -> Vec<bool> {
    tokens.iter().map(|t| t.parse::<f32>().is_ok()).collect()
}

#[test]
fn path_tokens_split_letters_and_white_space() {
    assert_eq!(path_tokens("M0,0L10 5z"), vec!["M", "0,0", "L", "10", "5", "z"]);
    assert_eq!(path_tokens("  M 1.5  -2 \n L3 4 Z "), vec!["M", "1.5", "-2", "L", "3", "4", "Z"]);
    assert!(path_tokens("").is_empty());
    assert!(path_tokens(" \t\n").is_empty());
    assert_eq!(path_tokens("1e5"), vec!["1", "e", "5"]);
    assert_eq!(path_tokens("a\u{3000}b"), vec!["a", "b"]);
}

#[test]
fn path_vertices_follow_commands_and_bare_pairs() {
    let tokens = path_tokens("M 0 0 L 10 0 L 10 10 Z");
    let pairs = path_vertex_tokens(&tokens, &numeric(&tokens));
    assert_eq!(pairs, vec![(1, 2), (4, 5), (7, 8)]);

    let tokens = path_tokens("M 1 2 3 4 5 6");
    let pairs = path_vertex_tokens(&tokens, &numeric(&tokens));
    assert_eq!(pairs, vec![(1, 2), (3, 4), (5, 6)]);
}

#[test]
fn path_vertices_skip_bad_numbers_and_short_tails() {
    let tokens = path_tokens("M x 1 L 2 3 L 4");
    let pairs = path_vertex_tokens(&tokens, &numeric(&tokens));
    assert_eq!(pairs, vec![(4, 5)]);
}

#[test]
fn path_vertices_stop_at_thirteen() {
    let mut text = String::from("M 0 0");
    for k in 1..20 {
        text.push_str(&format!(" L {} {}", k, k));
    }
    let tokens = path_tokens(&text);
    let pairs = path_vertex_tokens(&tokens, &numeric(&tokens));
    assert_eq!(pairs.len(), 13);
    assert_eq!(pairs[12], (37, 38));
}
