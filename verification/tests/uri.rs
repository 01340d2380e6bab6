use dprintx::uri::{language_ext, percent_decode, rewrite_uri, uri_to_path};
use std::path::PathBuf;

#[test]
fn test_uri_to_path() {
    assert_eq!(
        PathBuf::from(uri_to_path("file:///home/user/file.go")),
        PathBuf::from("/home/user/file.go")
    );
    assert_eq!(
        PathBuf::from(uri_to_path("file:///home/user/my%20file.go")),
        PathBuf::from("/home/user/my file.go")
    );
}

#[test]
fn test_language_ext() {
    assert_eq!(language_ext("go"), Some("go"));
    assert_eq!(language_ext("lua"), Some("lua"));
    assert_eq!(language_ext("sh"), Some("sh"));
    assert_eq!(language_ext("bash"), Some("sh"));
    assert_eq!(language_ext("zsh"), Some("sh"));
    assert_eq!(language_ext("markdown"), Some("md"));
    assert_eq!(language_ext("python"), Some("py"));
    assert_eq!(language_ext("rust"), Some("rs"));
    assert_eq!(language_ext("unknown_lang_xyz"), None);
}

#[test]
fn test_rewrite_uri_no_extension() {
    // File without extension + known languageId → append .sh
    assert_eq!(
        rewrite_uri("file:///home/user/myscript", "sh"),
        Some("file:///home/user/myscript.sh".to_string())
    );
}

#[test]
fn test_rewrite_uri_correct_extension() {
    // File already has correct extension → no rewrite
    assert_eq!(rewrite_uri("file:///home/user/main.go", "go"), None);
}

#[test]
fn test_rewrite_uri_wrong_extension() {
    // File has .py extension but editor says sh → rewrite
    assert_eq!(
        rewrite_uri("file:///home/user/script.py", "sh"),
        Some("file:///home/user/script.py.sh".to_string())
    );
}

#[test]
fn test_rewrite_uri_unknown_language() {
    // Unknown languageId → no rewrite
    assert_eq!(
        rewrite_uri("file:///home/user/file.xyz", "unknown_lang"),
        None
    );
}

#[test]
fn every_documented_language_has_its_extension() {
    for (language, ext) in [
        ("go", "go"),
        ("lua", "lua"),
        ("json", "json"),
        ("jsonc", "jsonc"),
        ("yaml", "yaml"),
        ("markdown", "md"),
        ("python", "py"),
        ("rust", "rs"),
        ("typescript", "ts"),
        ("typescriptreact", "tsx"),
        ("javascript", "js"),
        ("javascriptreact", "jsx"),
        ("sh", "sh"),
        ("bash", "sh"),
        ("zsh", "sh"),
        ("toml", "toml"),
        ("css", "css"),
        ("html", "html"),
        ("sql", "sql"),
        ("dockerfile", "Dockerfile"),
        ("graphql", "graphql"),
    ] {
        assert_eq!(language_ext(language), Some(ext));
        let uri = "file:///dir/name";
        let rewritten = rewrite_uri(uri, language).unwrap();
        assert_eq!(rewritten, format!("{uri}.{ext}"));
        assert_eq!(rewrite_uri(&rewritten, language), None);
    }
}

#[test]
fn percent_escapes_are_bytes() {
    assert_eq!(percent_decode("a%2Fb"), "a/b");
    assert_eq!(percent_decode("%41%42c"), "ABc");
    assert_eq!(percent_decode("%zz"), "%zz");
    assert_eq!(percent_decode("%4"), "%4");
    assert_eq!(percent_decode("%"), "%");
    assert_eq!(percent_decode("%+f"), "%+f");
    assert_eq!(percent_decode("%c3%a9"), "\u{e9}");
    assert_eq!(percent_decode("\u{e9}%20\u{e9}"), "\u{e9} \u{e9}");
    // An escape and a plain character need not be apart.
    assert_eq!(percent_decode("%a\u{e9}x"), "%a\u{e9}x");
    assert_eq!(percent_decode("%E2%82%AC%F0%9F%98%80"), "\u{20ac}\u{1f600}");
}

#[test]
fn escaped_bytes_are_utf8() {
    assert_eq!(
        PathBuf::from(uri_to_path("file:///tmp/caf%C3%A9.go")),
        PathBuf::from("/tmp/caf\u{e9}.go")
    );
    assert_eq!(
        PathBuf::from(uri_to_path("file:///tmp/caf\u{e9}.go")),
        PathBuf::from("/tmp/caf\u{e9}.go")
    );
    assert_eq!(rewrite_uri("file:///caf%C3%A9.go", "go"), None);
    // Bytes that encode no text become the characters with their numbers.
    assert_eq!(percent_decode("a%FF"), "a\u{ff}");
    assert_eq!(percent_decode("%C3"), "\u{c3}");
    assert_eq!(
        rewrite_uri("file:///%FF", "sh"),
        Some("file:///%FF.sh".to_string())
    );
    assert_eq!(rewrite_uri("file:///%FF.sh", "sh"), None);
}

#[test]
fn encoded_paths_come_back_from_their_uri() {
    for path in ["/100%", "/%41", "/a b/\u{e9}\u{20ac}\u{1f600}.go", "/\u{0}\u{7f}\u{80}"] {
        let mut uri = "file://".to_string();
        for byte in path.bytes() {
            if byte.is_ascii_alphanumeric() || byte == b'/' {
                uri.push(byte as char);
            } else {
                uri.push_str(&format!("%{byte:02X}"));
            }
        }
        assert_eq!(uri_to_path(&uri), path);
    }
}

#[test]
fn escapes_may_be_spelled_either_way() {
    for uri in [
        "file:///%E9%81%93/o/o",
        "file:///%e9%81%93/%6F/%6f",
        "file:///%E9%81%93/o/%6f",
        "file:///\u{9053}/%6F/o",
        "file://%2f%e9%81%93%2Fo/o",
    ] {
        assert_eq!(uri_to_path(uri), "/\u{9053}/o/o");
    }
}

#[test]
fn other_schemes_are_paths_as_they_are() {
    assert_eq!(uri_to_path("untitled:a%20b"), "untitled:a%20b");
    assert_eq!(uri_to_path("file:/x"), "file:/x");
    assert_eq!(uri_to_path("file://"), "");
}

#[test]
fn directories_become_hidden_files() {
    assert_eq!(
        rewrite_uri("file:///dir/", "sh"),
        Some("file:///dir/.sh".to_string())
    );
    assert_eq!(
        rewrite_uri("file:///dir/.sh", "sh"),
        Some("file:///dir/.sh.sh".to_string())
    );
}

#[test]
fn plain_paths_come_back_from_their_uri() {
    for path in ["/", "/home/user/a b.txt", "relative/x", "", "/\u{e9}/\u{1f600}"] {
        let uri = format!("file://{path}");
        assert_eq!(uri_to_path(&uri), path);
    }
}
