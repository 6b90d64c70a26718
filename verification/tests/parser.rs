use elscione_sync::crawler::parser::{extract_clckd, extract_title, parse_tag_attributes};

fn pair(name: &str, value: &str) -> (String, String) {
    (name.to_string(), value.to_string())
}

#[test]
fn test_extract_clckd_standard() {
    let html = r#"<head><meta name="clckd" content="abc123"/></head>"#;
    assert_eq!(extract_clckd(html), Some("abc123".to_string()));
}

#[test]
fn test_extract_clckd_with_multibyte_utf8_prefix() {
    let html = r#"<!DOCTYPE html><html><head><title>日本語のタイトル - 魔法少女</title><meta name="author" content="作家"><meta name="clckd" content="utf8_safe_token"></head></html>"#;
    assert_eq!(extract_clckd(html), Some("utf8_safe_token".to_string()));
}

#[test]
fn test_extract_clckd_reversed_attributes() {
    let html = r#"<meta content="token456" name="clckd">"#;
    assert_eq!(extract_clckd(html), Some("token456".to_string()));
}

#[test]
fn test_extract_clckd_single_quotes() {
    let html = r#"<meta name='clckd' content='single_token'>"#;
    assert_eq!(extract_clckd(html), Some("single_token".to_string()));
}

#[test]
fn test_extract_clckd_extra_attributes_and_whitespace() {
    let html = r#"<meta data-foo="bar"   name = "clckd"  id="meta-tag"  content = "extra_token"  />"#;
    assert_eq!(extract_clckd(html), Some("extra_token".to_string()));
}

#[test]
fn test_extract_clckd_uppercase() {
    let html = r#"<META NAME="CLCKD" CONTENT="UPPERCASE_TOKEN">"#;
    assert_eq!(extract_clckd(html), Some("UPPERCASE_TOKEN".to_string()));
}

#[test]
fn test_extract_clckd_missing() {
    let html = r#"<html><head><title>Not h5ai</title><meta name="description" content="hello"></head></html>"#;
    assert_eq!(extract_clckd(html), None);
}

#[test]
fn test_extract_title() {
    let html = r#"<html><head><title> Access Denied | Cloudflare </title></head><body></body></html>"#;
    assert_eq!(
        extract_title(html),
        Some("Access Denied | Cloudflare".to_string())
    );

    assert_eq!(extract_title("<html><body>No title</body></html>"), None);
}

#[test]
fn empty_tokens_and_titles_are_passed_over() {
    assert_eq!(extract_clckd(r#"<meta name="clckd" content="">"#), None);
    assert_eq!(
        extract_clckd(r#"<meta name="clckd" content=""><meta id=clckd content=later>"#),
        Some("later".to_string())
    );
    assert_eq!(extract_clckd(r#"<meta name="clckd" content="x""#), None);
    assert_eq!(extract_title("<title>   </title>"), None);
    assert_eq!(extract_title("<TITLE lang=en>Ok</TiTlE>"), Some("Ok".to_string()));
}

#[test]
fn the_last_of_several_contents_counts() {
    let html = r#"<meta content="first" property="CLCKD" content='second'>"#;
    assert_eq!(extract_clckd(html), Some("second".to_string()));
}

#[test]
fn attributes_are_split_by_name_and_value() {
    assert_eq!(
        parse_tag_attributes(r#" a="1" b='2' c=3 / d = > =e"#),
        vec![
            pair("a", "1"),
            pair("b", "2"),
            pair("c", "3"),
            pair("d", ""),
            pair("e", ""),
        ]
    );
    assert_eq!(parse_tag_attributes("x="), vec![pair("x", "")]);
    assert_eq!(parse_tag_attributes("x=\"open"), vec![pair("x", "open")]);
    assert_eq!(parse_tag_attributes(""), vec![]);
}
