use sciink::cli::{inx_bool, prescan};

#[test]
fn inx_booleans() {
    assert_eq!(inx_bool(" TRUE "), Ok(true));
    assert_eq!(inx_bool("1"), Ok(true));
    assert_eq!(inx_bool("Yes"), Ok(true));
    assert_eq!(inx_bool("false"), Ok(false));
    assert_eq!(inx_bool("no"), Ok(false));
    assert_eq!(inx_bool("maybe"), Err("expected true/false, got 'maybe'".to_string()));
    assert_eq!(inx_bool(" Maybe "), Err("expected true/false, got 'maybe'".to_string()));
}

fn args(v: &[&str]) -> Vec<String> {
    v.iter().map(|s| s.to_string()).collect()
}

#[test]
fn prescan_finds_tool_output_log_and_input() {
    let p = prescan(&args(&["sciink", "--tool=scaler", "-o", "out.svg", "--log", "l.txt", "--id=x", "in.svg"]));
    assert_eq!(p.tool, Some("scaler".to_string()));
    assert_eq!(p.output, Some("out.svg".to_string()));
    assert_eq!(p.log, Some("l.txt".to_string()));
    assert_eq!(p.input, Some("in.svg".to_string()));
}

#[test]
fn prescan_is_lenient() {
    let p = prescan(&args(&["sciink", "first.svg", "--output=o.svg", "second.svg", "--tool"]));
    assert_eq!(p.tool, None);
    assert_eq!(p.output, Some("o.svg".to_string()));
    assert_eq!(p.input, Some("second.svg".to_string()));
    let empty = prescan(&[]);
    assert_eq!(empty.tool, None);
    assert_eq!(empty.input, None);
    let p = prescan(&args(&["sciink", "-o=x", "--log=a=b"]));
    assert_eq!(p.output, None);
    assert_eq!(p.log, Some("a=b".to_string()));
}
