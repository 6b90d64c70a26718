use elscione_sync::crawler::listing::{
    api_url, directory_href, last_segment, listing_from_answer, listing_payload, parse_h5ai_response,
    token_from_page, url_to_path, H5aiError,
};

fn json(text: &str) -> serde_json::Value {
    serde_json::from_str(text).unwrap()
}

#[test]
fn h5ai_response_errors_when_items_are_missing() {
    let json = json(r#"{ "error": "server failure" }"#);

    let result = parse_h5ai_response(&json, "https://example.test", "/");

    assert!(result.is_err());
}

#[test]
fn h5ai_response_parses_files_and_directories() {
    let json = json(
        r#"{
            "items": [
                { "href": "/" },
                { "href": "/Books/", "time": 0 },
                { "href": "/Books/example.epub", "time": 60000, "size": 12345 },
                { "not_href": true }
            ]
        }"#,
    );

    let entries = parse_h5ai_response(&json, "https://example.test", "/").unwrap();

    assert_eq!(entries.len(), 2);

    let dir = &entries[0];
    assert!(dir.is_dir);
    assert_eq!(dir.name, "Books");
    assert_eq!(dir.url, "https://example.test/Books/");
    assert_eq!(dir.size_bytes, None);

    let file = &entries[1];
    assert!(!file.is_dir);
    assert_eq!(file.name, "example.epub");
    assert_eq!(file.url, "https://example.test/Books/example.epub");
    assert_eq!(file.size_bytes, Some(12345));
    assert_eq!(file.last_modified.as_deref(), Some("1970-01-01 00:01"));
}

#[test]
fn url_to_path_strips_base_url() {
    assert_eq!(
        url_to_path("https://example.test/Books/a.epub", "https://example.test/"),
        "/Books/a.epub"
    );
    assert_eq!(
        url_to_path("https://other.test/x", "https://example.test/"),
        "https://other.test/x"
    );
}

#[test]
fn paths_put_behind_the_address_give_the_url() {
    let base = "https://example.test//";
    let url = "https://example.test/Books/a.epub";
    assert_eq!(format!("https://example.test{}", url_to_path(url, base)), url);
    assert_eq!(url_to_path("https://example.test", base), "/");
    assert_eq!(url_to_path("https://example.testing", base), "/ing");
}

#[test]
fn listings_hold_only_what_lies_below() {
    let json = json(
        r#"{"items": [
            {"href": "/dir/"}, {"href": "/dir"}, {"href": "//"}, {"href": ""},
            {"href": "/other/x"}, {"href": "/dir/sub/", "size": -1},
            {"href": "/dir/a b.epub", "time": -1500, "size": 7},
            {"href": "/dir/c.epub", "time": "soon", "size": 1.5},
            {"href": 5}, 7
        ]}"#,
    );
    let entries = parse_h5ai_response(&json, "https://example.test/", "/dir/").unwrap();
    let urls: Vec<&str> = entries.iter().map(|e| e.url.as_str()).collect();
    assert_eq!(
        urls,
        vec![
            "https://example.test/dir/sub/",
            "https://example.test/dir/a%20b.epub",
            "https://example.test/dir/c.epub"
        ]
    );
    assert!(entries[0].is_dir && !entries[1].is_dir);
    assert_eq!(entries[0].size_bytes, None);
    assert_eq!(entries[0].name, "sub");
    assert_eq!(entries[1].name, "a b.epub");
    assert_eq!(entries[1].last_modified.as_deref(), Some("1969-12-31 23:59"));
    assert_eq!(entries[1].size_bytes, Some(7));
    assert_eq!(entries[2].last_modified, None);
    assert_eq!(entries[2].size_bytes, None);
    assert!(entries.iter().all(|e| !e.name.is_empty() && !e.name.contains('/')));
}

#[test]
fn directories_have_no_size() {
    let json = json(r#"{"items": [{"href": "/Books/", "size": 5}, {"href": "/a.epub", "size": 5}]}"#);
    let entries = parse_h5ai_response(&json, "https://example.test", "/").unwrap();
    assert_eq!(entries.len(), 2);
    assert!(entries[0].is_dir && !entries[1].is_dir);
    assert_eq!(entries[0].size_bytes, None);
    assert_eq!(entries[1].size_bytes, Some(5));
}

#[test]
fn unresolvable_addresses_are_appended() {
    let json = json(r#"{"items": [{"href": "/a.epub"}]}"#);
    let entries = parse_h5ai_response(&json, "no url/", "/").unwrap();
    assert_eq!(entries[0].url, "no url/a.epub");
}

#[test]
fn times_beyond_the_calendar_are_dropped() {
    let json = json(r#"{"items": [{"href": "/a", "time": 9223372036854775807}]}"#);
    let entries = parse_h5ai_response(&json, "https://example.test", "/").unwrap();
    assert_eq!(entries[0].last_modified, None);
}

#[test]
fn requests_for_a_directory() {
    let base = "https://example.test/";
    assert_eq!(directory_href(base, "https://example.test/"), "/");
    assert_eq!(directory_href(base, "https://example.test"), "/");
    assert_eq!(directory_href(base, "https://example.test/Manga/"), "/Manga/");
    assert_eq!(directory_href(base, "https://elsewhere.test/Manga/"), "/");
    assert_eq!(api_url(base), "https://example.test/?");
    assert_eq!(
        listing_payload("/a \"quoted\"/"),
        r#"{"action":"get","items":{"href":"/a \"quoted\"/","what":1}}"#
    );
}

#[test]
fn requests_escape_what_json_escapes() {
    for code in 0..0x300u32 {
        let c = char::from_u32(code).unwrap();
        let href = format!("/a{}b/", c);
        let quoted = serde_json::to_string(&href).unwrap();
        assert_eq!(
            listing_payload(&href),
            format!("{{\"action\":\"get\",\"items\":{{\"href\":{},\"what\":1}}}}", quoted)
        );
    }
    assert_eq!(
        listing_payload("/a\u{1f}\n\\/"),
        "{\"action\":\"get\",\"items\":{\"href\":\"/a\\u001f\\n\\\\/\",\"what\":1}}"
    );
}

#[test]
fn messages_of_listing_errors() {
    let url = "https://example.test/dir/";
    let page = H5aiError::PageStatus { status: 503, title: Some("Just a \"moment\"".to_owned()) };
    assert_eq!(
        page.message(url),
        "h5ai page GET returned HTTP 503 Service Unavailable for https://example.test/dir/ \
         (title: Some(\"Just a \\\"moment\\\"\"))"
    );
    let token = H5aiError::TokenMissing { status: 200, title: None };
    assert_eq!(
        token.message(url),
        "h5ai CSRF token ('clckd') not found in page HTML for https://example.test/dir/ \
         (HTTP 200 OK, title: None). Server may require a Cloudflare session or have changed its markup."
    );
    assert_eq!(
        H5aiError::ApiStatus { status: 5 }.message(url),
        "h5ai API returned HTTP 5 for https://example.test/dir/"
    );
    assert_eq!(
        H5aiError::ApiStatus { status: 404 }.message(url),
        "h5ai API returned HTTP 404 Not Found for https://example.test/dir/"
    );
    assert_eq!(H5aiError::InvalidJson.message(url), "parsing h5ai JSON from https://example.test/dir/");
    assert_eq!(H5aiError::MissingItems.message(url), "h5ai response missing items array");
    assert_eq!(
        page.message_with("u", "shown"),
        "h5ai page GET returned HTTP 503 Service Unavailable for u (title: shown)"
    );
}

#[test]
fn answers_to_listing_requests() {
    let base = "https://example.test/";
    let dir = "https://example.test/dir/";
    let body = r#"{"items": [{"href": "/dir/"}, {"href": "/dir/file.epub", "time": 1000, "size": 100}]}"#;
    let entries = listing_from_answer(200, body, base, dir).unwrap();
    assert_eq!(entries.len(), 1);
    assert_eq!(entries[0].name, "file.epub");
    assert_eq!(entries[0].url, "https://example.test/dir/file.epub");

    assert!(matches!(
        listing_from_answer(403, body, base, dir),
        Err(H5aiError::ApiStatus { status: 403 })
    ));
    assert!(matches!(
        listing_from_answer(200, "{", base, dir),
        Err(H5aiError::InvalidJson)
    ));
    assert!(matches!(
        listing_from_answer(204, "{\"items\": {}}", base, dir),
        Err(H5aiError::MissingItems)
    ));
}

#[test]
fn tokens_from_pages() {
    let page = r#"<title>Index</title><meta name="clckd" content="t1">"#;
    assert_eq!(token_from_page(200, page).unwrap(), "t1");
    match token_from_page(503, page) {
        Err(H5aiError::PageStatus { status, title }) => {
            assert_eq!(status, 503);
            assert_eq!(title.as_deref(), Some("Index"));
        }
        other => panic!("{:?}", other),
    }
    match token_from_page(200, "<title>Challenge</title>") {
        Err(H5aiError::TokenMissing { status, title }) => {
            assert_eq!(status, 200);
            assert_eq!(title.as_deref(), Some("Challenge"))
        }
        other => panic!("{:?}", other),
    }
}

#[test]
fn last_segments() {
    assert_eq!(last_segment("https://example.test/Books//"), "Books");
    assert_eq!(last_segment("a"), "a");
    assert_eq!(last_segment("///"), "");
}
