use dprintx::file_path::{is_listed, FilePath};
use dprintx::path::same_path;

fn path(text: &str) -> FilePath {
    FilePath::from_text(text)
}

fn bytes(bytes: &[u8]) -> FilePath {
    FilePath::from_bytes(bytes.to_vec())
}

#[test]
fn text_goes_in_and_comes_out() {
    assert_eq!(path("/\u{e9}").as_bytes(), b"/\xc3\xa9");
    assert_eq!(path("/\u{e9}").to_text(), Some("/\u{e9}".to_string()));
    assert_eq!(bytes(b"/\xc3").to_text(), None);
    assert_eq!(bytes(b"/\xc3").copy().into_bytes(), b"/\xc3");
}

#[test]
fn byte_paths_join_like_text_paths() {
    assert_eq!(bytes(b"/\xff").join(&path("a")).as_bytes(), b"/\xff/a");
    assert_eq!(bytes(b"/\xff/").join(&path("a")).as_bytes(), b"/\xff/a");
    assert_eq!(bytes(b"/\xff").join(&path("/a")).as_bytes(), b"/a");
    assert_eq!(path("").join(&bytes(b"\xff")).as_bytes(), b"\xff");
}

#[test]
fn byte_paths_have_parents() {
    let up = |p: &[u8]| bytes(p).parent().map(|up| up.into_bytes());
    assert_eq!(up(b"/\xff/a//./"), Some(b"/\xff".to_vec()));
    assert_eq!(up(b"\xff"), Some(b"".to_vec()));
    assert_eq!(up(b"/"), None);
    assert_eq!(up(b""), None);
}

#[test]
fn byte_paths_compare_by_components() {
    assert_eq!(bytes(b"/\xff/./a/"), bytes(b"//\xff/a"));
    assert_ne!(bytes(b"/\xff"), path("/\u{ff}"));
    assert_ne!(bytes(b"/a"), bytes(b"a"));
    let list = [bytes(b"/\xff"), path("/b")];
    assert!(is_listed(&list, &bytes(b"/\xff/")));
    assert!(!is_listed(&list, &path("/\u{ff}")));
}

#[test]
fn text_and_bytes_name_the_same_paths() {
    let samples = ["/a/b", "/a/./b/", "a/b", "./a/b", "/\u{e9}", "//\u{e9}/.", "/e\u{301}", ".", "", "/"];
    for a in samples {
        for b in samples {
            assert_eq!(path(a) == path(b), same_path(a, b), "{a} {b}");
        }
    }
}
