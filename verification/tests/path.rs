use dprintx::path::{
    components_of, extension, file_name, is_absolute, is_listed, join, parent, same_path,
    strip_base,
};
use std::path::Path;

const SAMPLES: &[&str] = &[
    "", ".", "..", "/", "//", "/.", "./", "a", "a/", "a//", "/a", "/a/", "a/b", "a//b", "a/./b",
    "a/.", "a/..", "a/../b", "./a", "././a", "/./a", "/../a", "a/b/c", "/a/b/c.txt", "a.b", ".a",
    "a.", "..a", "...", "a/.b", "a/b.", "a/b.c.d", "a/.b.c", "/a//b/./c/", ".//a", "a/./.", "./.",
    "a b/c d", "\u{e9}/\u{4e2d}.x", "a/.//b", "b", "/b", "a/b/", "./a/b",
];

#[test]
fn paths_are_read_like_std_reads_them() {
    for p in SAMPLES {
        let std_path = Path::new(p);
        assert_eq!(is_absolute(p), std_path.is_absolute(), "{p:?}");
        assert_eq!(
            parent(p).as_deref(),
            std_path.parent().map(|x| x.to_str().unwrap()),
            "parent of {p:?}"
        );
        assert_eq!(
            file_name(p).as_deref(),
            std_path.file_name().map(|x| x.to_str().unwrap()),
            "name of {p:?}"
        );
        assert_eq!(
            extension(p).as_deref(),
            std_path.extension().map(|x| x.to_str().unwrap()),
            "extension of {p:?}"
        );
        let parts: Vec<String> = std_path
            .components()
            .map(|c| c.as_os_str().to_str().unwrap().to_string())
            .collect();
        assert_eq!(components_of(p), parts, "components of {p:?}");
    }
}

#[test]
fn pairs_of_paths_are_read_like_std_reads_them() {
    for a in SAMPLES {
        for b in SAMPLES {
            assert_eq!(same_path(a, b), Path::new(a) == Path::new(b), "{a:?} {b:?}");
            assert_eq!(
                join(a, b),
                Path::new(a).join(b).to_str().unwrap(),
                "{a:?} {b:?}"
            );
            assert_eq!(
                strip_base(a, b).as_deref(),
                Path::new(a)
                    .strip_prefix(b)
                    .ok()
                    .map(|x| x.to_str().unwrap()),
                "{a:?} from {b:?}"
            );
        }
    }
}

#[test]
fn walking_up_comes_to_an_end() {
    let mut dir = "/a/b//c/./d".to_string();
    let mut seen = Vec::new();
    while let Some(up) = parent(&dir) {
        assert!(up.len() < dir.len());
        seen.push(up.clone());
        dir = up;
    }
    assert_eq!(seen, ["/a/b//c", "/a/b", "/a", "/"]);
}

#[test]
fn lists_hold_paths() {
    let list = vec!["a/b".to_string(), "/c".to_string()];
    assert!(is_listed(&list, "a//b/"));
    assert!(is_listed(&list, "/c/."));
    assert!(!is_listed(&list, "c"));
}

#[test]
fn relative_paths_join_back() {
    for path in SAMPLES {
        for base in SAMPLES {
            if base.is_empty() {
                continue;
            }
            if let Some(rest) = strip_base(path, base) {
                assert!(same_path(&join(base, &rest), path), "{path:?} {base:?}");
            }
            if !is_absolute(path) {
                assert!(strip_base(&join(base, path), base).is_some());
            }
        }
    }
}

#[test]
fn parents_drop_the_last_component() {
    for path in SAMPLES {
        if let Some(up) = parent(path) {
            let mut parts = components_of(path);
            parts.pop();
            assert_eq!(components_of(&up), parts);
        }
    }
}
