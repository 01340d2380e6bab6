use dprintx::frame::{read_lsp_message, write_lsp_message, FrameError, Reading};

fn failure(bytes: &[u8], ended: bool) -> FrameError {
    match read_lsp_message(bytes, ended) {
        Reading::Failed(error) => error,
        other => panic!("expected a failure, got {other:?}"),
    }
}

fn wants_more(bytes: &[u8]) -> bool {
    matches!(read_lsp_message(bytes, false), Reading::More)
}

#[test]
fn written_messages_have_a_header() {
    assert_eq!(write_lsp_message("{}"), "Content-Length: 2\r\n\r\n{}");
    assert_eq!(write_lsp_message(""), "Content-Length: 0\r\n\r\n");
    // The length counts bytes.
    assert_eq!(write_lsp_message("\u{e9}"), "Content-Length: 2\r\n\r\n\u{e9}");
}

#[test]
fn written_messages_come_back() {
    for body in [
        "",
        "{}",
        "{\"a\": \"\u{4e2d}\u{1f600}\"}",
        "\r\n\r\n",
        "Content-Length: 3\r\n\r\nabc",
    ] {
        let mut bytes = write_lsp_message(body).into_bytes();
        let length = bytes.len();
        for cut in 0..length {
            assert!(wants_more(&bytes[..cut]), "{body:?} {cut}");
        }
        bytes.extend_from_slice(b"rest\xff");
        match read_lsp_message(&bytes, false) {
            Reading::Message { body: read, taken } => {
                assert_eq!(read, body);
                assert_eq!(taken, length);
            }
            other => panic!("expected a message, got {other:?}"),
        }
    }
}

#[test]
fn messages_keep_their_order_on_the_wire() {
    let bodies = ["one", "", "\u{e9}", "two"];
    let mut bytes: Vec<u8> = Vec::new();
    for body in bodies {
        bytes.extend_from_slice(write_lsp_message(body).as_bytes());
    }
    let mut read = Vec::new();
    let mut rest = &bytes[..];
    while let Reading::Message { body, taken } = read_lsp_message(rest, true) {
        read.push(body);
        rest = &rest[taken..];
    }
    assert_eq!(read, bodies);
    assert_eq!(failure(rest, true), FrameError::EndInHeaders);
}

#[test]
fn other_headers_do_not_count() {
    let bytes = b"X: 1\r\n  Content-Length:  +3 \nContent-Type: x\n \nabcd";
    match read_lsp_message(bytes, false) {
        Reading::Message { body, taken } => {
            assert_eq!(body, "abc");
            assert_eq!(taken, bytes.len() - 1);
        }
        other => panic!("expected a message, got {other:?}"),
    }
}

#[test]
fn last_length_counts() {
    let bytes = b"Content-Length: 1\r\nContent-Length: 2\r\n\r\nabc";
    match read_lsp_message(bytes, false) {
        Reading::Message { body, .. } => assert_eq!(body, "ab"),
        other => panic!("expected a message, got {other:?}"),
    }
}

#[test]
fn failures_say_what_is_wrong() {
    assert_eq!(failure(b"", true), FrameError::EndInHeaders);
    assert_eq!(failure(b"Content-Length: 1", true), FrameError::EndInHeaders);
    assert_eq!(failure(b"X: \xff\n", false), FrameError::HeaderNotText);
    assert_eq!(failure(b"Content-Length: x\n", false), FrameError::InvalidLength);
    assert_eq!(failure(b"Content-Length: -1\n", false), FrameError::InvalidLength);
    assert_eq!(
        failure(b"Content-Length: 99999999999999999999999\n", false),
        FrameError::InvalidLength
    );
    assert_eq!(failure(b"\r\n", false), FrameError::MissingLength);
    assert_eq!(failure(b"content-length: 1\r\n\r\na", false), FrameError::MissingLength);
    assert_eq!(failure(b"Content-Length: 2\r\n\r\na", true), FrameError::EndInBody);
    assert_eq!(failure(b"Content-Length: 1\r\n\r\n\xff", false), FrameError::BodyNotText);
    assert_eq!(failure(b"", true).message(), "EOF while reading LSP headers");
    assert_eq!(failure(b"\n", false).message(), "missing Content-Length header");
    assert_eq!(
        failure(b"Content-Length: x\n", false).message(),
        "invalid Content-Length"
    );
    assert_eq!(
        failure(b"Content-Length: 1\r\n\r\n\xff", false).message(),
        "invalid UTF-8 in LSP message body"
    );
}

#[test]
fn incomplete_lines_ask_for_more() {
    assert!(wants_more(b""));
    assert!(wants_more(b"Content-Length: x"));
    assert!(wants_more(b"\xff"));
    assert!(wants_more(b"Content-Length: 2\r\n\r\na"));
}

#[test]
fn later_bytes_change_nothing() {
    let bytes = b"Content-Length: 2\r\n\r\nab";
    let mut longer = bytes.to_vec();
    longer.extend_from_slice(b"Content-Length: x");
    for input in [&bytes[..], &longer[..]] {
        for ended in [false, true] {
            match read_lsp_message(input, ended) {
                Reading::Message { body, taken } => {
                    assert_eq!(body, "ab");
                    assert_eq!(taken, bytes.len());
                }
                other => panic!("expected a message, got {other:?}"),
            }
        }
    }
}
