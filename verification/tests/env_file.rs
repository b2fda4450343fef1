use envsubst::env_file::parse_env_file;

#[test]
fn parse_basic() {
    let vars = parse_env_file("# comment\nFOO=bar\nexport BAZ=qux\nQUOTED=\"hello world\"\n");
    assert_eq!(vars.get("FOO").unwrap(), "bar");
    assert_eq!(vars.get("BAZ").unwrap(), "qux");
    assert_eq!(vars.get("QUOTED").unwrap(), "hello world");
    assert!(!vars.contains_key("# comment"));
}

#[test]
fn parse_single_quoted() {
    assert_eq!(parse_env_file("KEY='single quoted'\n").get("KEY").unwrap(), "single quoted");
}

#[test]
fn parse_empty_value() {
    assert_eq!(parse_env_file("EMPTY=\n").get("EMPTY").unwrap(), "");
}

#[test]
fn parse_empty_file() {
    assert!(parse_env_file("").is_empty());
}

#[test]
fn parse_only_comments() {
    assert!(parse_env_file("# comment\n  # indented\n\n").is_empty());
}

#[test]
fn parse_no_equals_skipped() {
    let vars = parse_env_file("NOEQUALS\nGOOD=value\n");
    assert!(!vars.contains_key("NOEQUALS"));
    assert_eq!(vars.get("GOOD").unwrap(), "value");
}

#[test]
fn parse_embedded_equals_in_value() {
    assert_eq!(
        parse_env_file("URL=https://example.com?a=1&b=2\n").get("URL").unwrap(),
        "https://example.com?a=1&b=2"
    );
}

#[test]
fn parse_later_binding_wins() {
    let vars = parse_env_file("A=1\nA=2\n");
    assert_eq!(vars.get("A").unwrap(), "2");
    assert_eq!(vars.len(), 1);
}

#[test]
fn parse_trims_keys_values_and_crlf() {
    let vars = parse_env_file("  KEY  =  spaced value \r\nexport  OTHER = x\r\n");
    assert_eq!(vars.get("KEY").unwrap(), "spaced value");
    assert_eq!(vars.get("OTHER").unwrap(), "x");
    assert_eq!(vars.len(), 2);
}

#[test]
fn parse_quotes_only_when_matching() {
    let vars = parse_env_file("A=\"\nB=\"x'\nC='\"'\nD=\"\"\nE= ' padded '\n");
    assert_eq!(vars.get("A").unwrap(), "\"");
    assert_eq!(vars.get("B").unwrap(), "\"x'");
    assert_eq!(vars.get("C").unwrap(), "\"");
    assert_eq!(vars.get("D").unwrap(), "");
    assert_eq!(vars.get("E").unwrap(), " padded ");
}

#[test]
fn parse_export_needs_to_lead_the_line() {
    let vars = parse_env_file(" export X=1\nexportY=2\n");
    assert_eq!(vars.get("export X").unwrap(), "1");
    assert_eq!(vars.get("exportY").unwrap(), "2");
}

#[test]
fn parse_last_line_without_newline_and_unicode_space() {
    let vars = parse_env_file("A=1\u{3000}\n\u{a0}B=2");
    assert_eq!(vars.get("A").unwrap(), "1");
    assert_eq!(vars.get("B").unwrap(), "2");
}

#[test]
fn parse_empty_key_is_kept() {
    let vars = parse_env_file("=value\n");
    assert_eq!(vars.get("").unwrap(), "value");
}
