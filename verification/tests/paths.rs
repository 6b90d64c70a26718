use elscione_sync::cli::Platform;
use elscione_sync::downloader::file_writer::part_path_for;
use elscione_sync::downloader::plan::dest_path;
use elscione_sync::paths::{extension, file_name, from_native, join, parent, set_file_name};
use std::path::{Path, PathBuf};

fn samples() -> Vec<&'static str> {
    vec![
        "", "/", "//", ".", "./", "..", "../", "a", "a/", "a/b", "a//b", "a/./b", "a/b/.", "a/b/./",
        "/a", "/a/", "/a/..", "/a/../b", "./a", "./a/b", "././a", "/.", "/./a", ".a", "a.", "a.b",
        "a.b.c", ".a.b", "..a", "a/..b", "a/.b", "a/b.tar.gz", "/a/b.tar.gz/", "...", "a/...",
        "./.", "/..", "日本/語.epub", "a b/c d.e f", "https://example.test/a.b/c.epub",
    ]
}

#[test]
fn native_paths_get_slashes() {
    for platform in [Platform::MacOs, Platform::Other] {
        assert_eq!(from_native("/a\\b/c", platform), "/a\\b/c");
    }
    assert_eq!(from_native("C:\\a b\\c/d", Platform::Windows), "C:/a b/c/d");
    assert_eq!(from_native("", Platform::Windows), "");
    assert_eq!(from_native("c:x\\y", Platform::Windows), "c:./x/y");
    assert_eq!(from_native("C:x", Platform::Other), "C:x");
    assert_eq!(from_native("C:", Platform::Windows), "C:");
    assert_eq!(from_native("7:x", Platform::Windows), "7:x");
    let path = from_native("C:\\dir\\x.epub", Platform::Windows);
    assert_eq!(parent(&path).as_deref(), Some("C:/dir"));
    assert_eq!(file_name(&path).as_deref(), Some("x.epub"));
}

#[test]
fn paths_behave_like_the_platform_paths() {
    for p in samples() {
        let path = Path::new(p);
        assert_eq!(
            file_name(p),
            path.file_name().map(|s| s.to_str().unwrap().to_owned()),
            "file name of {:?}",
            p
        );
        assert_eq!(
            extension(p),
            path.extension().map(|s| s.to_str().unwrap().to_owned()),
            "extension of {:?}",
            p
        );
        assert_eq!(
            parent(p),
            path.parent().map(|x| x.to_str().unwrap().to_owned()),
            "parent of {:?}",
            p
        );
        for rel in samples() {
            assert_eq!(join(p, rel), path.join(rel).to_str().unwrap(), "{:?} and {:?}", p, rel);
        }
        let mut renamed = PathBuf::from(p);
        renamed.set_file_name("x.part");
        assert_eq!(set_file_name(p, "x.part"), renamed.to_str().unwrap(), "renaming {:?}", p);
    }
}

#[test]
fn part_files_lie_beside_their_destinations() {
    assert_eq!(part_path_for("/out/Books/a.epub"), "/out/Books/a.epub.part");
    assert_eq!(part_path_for("a"), "a.part");
    assert_eq!(part_path_for("/"), "/.part");
    let part = part_path_for("/out/Books/a.epub");
    assert_eq!(parent(&part), parent("/out/Books/a.epub"));
    assert_eq!(file_name(&part).as_deref(), Some("a.epub.part"));
}

#[test]
fn destinations_lie_below_the_output() {
    assert_eq!(dest_path("/out", "/Books/a.epub"), "/out/Books/a.epub");
    assert_eq!(dest_path("/out/", "///etc/x"), "/out/etc/x");
    assert_eq!(dest_path("", "/a"), "a");
}
