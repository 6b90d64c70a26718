use elscione_sync::crawler::filter::{
    contains_string, decide_exclusion, extension_allowed, is_excluded, targets_of, wants_extension,
};

fn list(texts: &[&str]) -> Vec<String> {
    texts.iter().map(|t| t.to_string()).collect()
}

#[test]
fn exclude_patterns_with_slash_glob_the_full_path() {
    let patterns = vec!["Manga/**".to_owned()];

    assert!(is_excluded("/Manga/Series", &patterns));
    assert!(is_excluded("/Manga/Series/vol1.epub", &patterns));
    assert!(!is_excluded("/MangaExtra/Series", &patterns));
    assert!(!is_excluded("/Books/Manga-Guide.epub", &patterns));
}

#[test]
fn bare_exclude_patterns_glob_each_segment() {
    let by_name = vec!["Drafts".to_owned()];
    assert!(is_excluded("/Books/Drafts", &by_name));
    assert!(is_excluded("/Books/Drafts/notes.txt", &by_name));
    assert!(!is_excluded("/Books/Drafts2", &by_name));

    let by_ext = vec!["*.zip".to_owned()];
    assert!(is_excluded("/Books/archive.zip", &by_ext));
    assert!(!is_excluded("/Books/book.epub", &by_ext));
}

#[test]
fn invalid_patterns_are_substrings() {
    let patterns = list(&["a[b"]);
    assert!(is_excluded("/x/a[bc/y", &patterns));
    assert!(!is_excluded("/x/ab/y", &patterns));
    let three_stars = list(&["/***"]);
    assert!(!is_excluded("/x", &three_stars));
    assert!(is_excluded("/x***", &three_stars));
}

#[test]
fn outer_slashes_and_more_patterns() {
    let patterns = list(&["/Games/**"]);
    for path in ["Games/a", "/Games/a", "//Games/a/", "Games/a/"] {
        assert!(is_excluded(path, &patterns), "{}", path);
    }
    assert!(!is_excluded("/Games/a", &list(&[])));
    assert!(is_excluded("/Games/a", &list(&["/Games/**", "zzz"])));
    assert!(is_excluded("/Games/a", &list(&["zzz", "/Games/**"])));
}

#[test]
fn decisions_on_given_matches() {
    assert!(decide_exclusion("a/b", "x", true, &vec![false, true]));
    assert!(!decide_exclusion("a/b", "x", true, &vec![false, false]));
    assert!(!decide_exclusion("a/b", "a", true, &vec![]));
    assert!(decide_exclusion("a/b", "a/", false, &vec![]));
    assert!(!decide_exclusion("a/b", "x", false, &vec![true]));
    assert_eq!(targets_of("a/b", "x"), list(&["a", "b"]));
    assert_eq!(targets_of("a/b", "x/"), list(&["a/b"]));
    assert_eq!(targets_of("", "x"), list(&[""]));
}

#[test]
fn extensions_in_any_case() {
    let allowed = list(&["epub", "CBZ"]);
    assert!(extension_allowed("https://example.test/a/b.EPUB", &allowed));
    assert!(extension_allowed("https://example.test/b.cbz", &allowed));
    assert!(!extension_allowed("https://example.test/b.pdf", &allowed));
    assert!(!extension_allowed("https://example.test/epub", &allowed));
    assert!(!extension_allowed("https://example.test/.epub", &allowed));
    assert!(!extension_allowed("https://example.test/b.epub.part", &allowed));
    assert!(extension_allowed("https://example.test/plain", &list(&[""])));
    assert!(!extension_allowed("https://example.test/b.epub", &list(&[])));
    assert!(wants_extension("https://example.test/b.pdf", &list(&[])));
    assert!(!wants_extension("https://example.test/b.pdf", &allowed));
}

#[test]
fn membership() {
    assert!(contains_string(&list(&["a", "b"]), "b"));
    assert!(!contains_string(&list(&["Articles"]), "Art"));
}
