use am_scene::fields::{trimmed_fields_of, vec_fields, vec_layout};

fn parse_vector<const N: usize>(s: &str, name: &str) -> Result<[f32; N], String> {
    let fields = vec_fields(s, N).ok_or_else(|| format!("Invalid {} format: {}", name, s))?;
    let v: Vec<f32> = fields
        .iter()
        .map(|f| f.parse::<f32>().map_err(|e| format!("{}", e)))
        .collect::<Result<_, _>>()?;
    let mut out = [0.0f32; N];
    for (c, src) in vec_layout(v.len(), N).iter().enumerate() {
        if let Some(i) = src {
            out[c] = v[*i];
        }
    }
    Ok(out)
}

fn parse_vec3(s: &str) -> Result<[f32; 3], String> {
    parse_vector::<3>(s, "vec3")
}

fn parse_vec2(s: &str) -> Result<[f32; 2], String> {
    parse_vector::<2>(s, "vec2")
}

#[test]
fn test_parse_vec3() {
    assert_eq!(parse_vec3("1.0,2.0,3.0").unwrap(), [1.0, 2.0, 3.0]);
    assert_eq!(parse_vec3("640.0, 480.0, 0.0").unwrap(), [640.0, 480.0, 0.0]);
    assert_eq!(parse_vec3("-1.5,2.5,0").unwrap(), [-1.5, 2.5, 0.0]);
}

#[test]
fn test_parse_vec2() {
    assert_eq!(parse_vec2("100.0,200.0").unwrap(), [100.0, 200.0]);
    assert_eq!(parse_vec2("1.5, 2.5").unwrap(), [1.5, 2.5]);
}

#[test]
fn vec_fields_cut_and_trim() {
    assert_eq!(vec_fields("1, 2 ,3,4", 3), Some(vec!["1".to_string(), "2".to_string(), "3".to_string()]));
    assert_eq!(vec_fields(" 7 ", 3), Some(vec!["7".to_string()]));
    assert_eq!(vec_fields("1,2", 3), Some(vec!["1".to_string(), "2".to_string()]));
    assert_eq!(vec_fields("", 2), None);
    assert_eq!(vec_fields(",", 2), Some(vec![String::new(), String::new()]));
}

#[test]
fn trimmed_fields_keep_empty_fields() {
    assert_eq!(trimmed_fields_of(""), vec![String::new()]);
    assert_eq!(trimmed_fields_of("a,,b,"), vec!["a", "", "b", ""]);
    assert_eq!(trimmed_fields_of("\u{2003}x y\t"), vec!["x y"]);
}

#[test]
fn vector_values_with_bad_fields_fail() {
    assert!(parse_vec3("1,x,3").is_err());
    assert!(parse_vec2("").is_err());
    assert_eq!(parse_vec3("5").unwrap(), [5.0, 5.0, 5.0]);
    assert_eq!(parse_vec3("1,2").unwrap(), [1.0, 2.0, 0.0]);
}

#[test]
fn vec_layout_fills_splats_and_zeroes() {
    assert_eq!(vec_layout(3, 3), vec![Some(0), Some(1), Some(2)]);
    assert_eq!(vec_layout(5, 3), vec![Some(0), Some(1), Some(2)]);
    assert_eq!(vec_layout(2, 3), vec![Some(0), Some(1), None]);
    assert_eq!(vec_layout(1, 3), vec![Some(0), Some(0), Some(0)]);
    assert_eq!(vec_layout(1, 2), vec![Some(0), Some(0)]);
    assert_eq!(vec_layout(2, 2), vec![Some(0), Some(1)]);
}
