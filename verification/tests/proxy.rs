use dprintx::config::{DprintxConfig, ProfileResolution};
use dprintx::file_path::FilePath;
use dprintx::json::{number, parse_json, Json};
use dprintx::proxy::{
    backend_takes_no_gitignore, DocumentRequest, LspProxy, Placement, Reaction,
};
use dprintx::step::{settle, sort_incoming, sort_message, After, Incoming, Outcome, Step};

fn path(text: &str) -> FilePath {
    FilePath::from_text(text)
}

/// A path as text.
fn show(path: &FilePath) -> String {
    path.to_text().unwrap()
}

fn json(text: &str) -> Json {
    parse_json(text).unwrap()
}

fn members(text: &str) -> Vec<(String, Json)> {
    match json(text) {
        Json::Object(members) => members
            .as_list()
            .iter()
            .map(|(name, value)| (name.clone(), value.copy()))
            .collect(),
        other => panic!("expected an object, got {other:?}"),
    }
}

fn config(rewrite: bool) -> DprintxConfig {
    DprintxConfig {
        config_dir: path("/cfg"),
        dprint: "dprint".to_string(),
        profiles: members(
            r#"{"one": "one.jsonc", "two": "~/two.jsonc", "none": null, "same": "/cfg/one.jsonc"}"#,
        ),
        match_rules: members(
            r#"{"a": "one", "b": "two", "c": "one", "d": "none", "e": "missing", "f": 3}"#,
        ),
        match_content: None,
        diff_pager: None,
        lsp_rewrite_uris: rewrite,
        lsp_timeout_ms: 5000,
        lsp_no_gitignore: true,
    }
}

fn proxy(rewrite: bool) -> LspProxy {
    LspProxy::new_in(
        path("/bin/dprint"),
        config(rewrite),
        Some(path("/home/u")),
    )
}

/// A step in words.
fn word(step: &Step) -> String {
    match step {
        Step::Spawn(config) => format!("spawn {}", show(config)),
        Step::Send(config, msg) => format!("send {} {}", show(config), name(msg)),
        Step::TrySend(config, msg) => format!("try {} {}", show(config), name(msg)),
        Step::Discard(config) => format!("discard {}", show(config)),
        Step::Collect(config) => format!("collect {}", show(config)),
        Step::WriteCollected => "write collected".to_string(),
        Step::Relay { config, id, fallback } => {
            assert_eq!(fallback.get("result"), Some(&Json::Null));
            if let Some(id) = id {
                assert_eq!(fallback.get("id"), Some(id));
            }
            format!("relay {} {}", show(config), id.is_some())
        }
        Step::Write(msg) => format!("write {msg:?}"),
    }
}

fn name(msg: &Json) -> String {
    msg.get("method")
        .and_then(|m| m.as_str())
        .unwrap_or("-")
        .to_string()
}

fn words(steps: &[Step]) -> Vec<String> {
    steps.iter().map(word).collect()
}

fn run(proxy: &mut LspProxy, text: &str) -> Vec<Step> {
    match proxy.receive(text) {
        Reaction::Run(steps) => steps,
        other => panic!("expected steps, got {other:?}"),
    }
}

fn locate(proxy: &mut LspProxy, text: &str) -> DocumentRequest {
    match proxy.receive(text) {
        Reaction::Locate(request) => request,
        other => panic!("expected a document, got {other:?}"),
    }
}

fn place(
    proxy: &mut LspProxy,
    request: DocumentRequest,
    profile: Option<&str>,
    local: Option<&str>,
) -> Placement {
    proxy.place(
        request,
        profile.map(|s| ProfileResolution::Config(path(s))),
        local.map(|s| s.to_string()),
    )
}

fn steps_of(placement: Placement) -> Vec<Step> {
    match placement {
        Placement::Run(steps) => steps,
        other => panic!("expected steps, got {other:?}"),
    }
}

fn document(method: &str, uri: &str, rest: &str) -> String {
    format!(
        r#"{{"jsonrpc": "2.0", "method": "textDocument/{method}",
            "params": {{"textDocument": {{"uri": "{uri}", "languageId": "sh"}}}}{rest}}}"#
    )
}

const INITIALIZE: &str =
    r#"{"jsonrpc": "2.0", "id": 9, "method": "initialize", "params": {"rootUri": "file:///w"}}"#;

#[test]
fn initialize_starts_every_profile_once() {
    let mut proxy = proxy(false);
    let steps = run(&mut proxy, INITIALIZE);
    assert_eq!(
        words(&steps),
        [
            "spawn /cfg/one.jsonc",
            "send /cfg/one.jsonc initialize",
            "collect /cfg/one.jsonc",
            "spawn /home/u/two.jsonc",
            "send /home/u/two.jsonc initialize",
            "collect /home/u/two.jsonc",
            "write collected",
        ]
    );
    match &steps[1] {
        Step::Send(_, msg) => assert_eq!(
            msg,
            &json(
                r#"{"jsonrpc": "2.0", "id": 9, "method": "initialize",
                    "params": {"rootUri": "file:///w"}}"#
            )
        ),
        other => panic!("expected a message, got {other:?}"),
    }
}

#[test]
fn initialize_without_parameters_sends_an_object() {
    let mut proxy = proxy(false);
    let steps = run(&mut proxy, r#"{"method": "initialize"}"#);
    match &steps[1] {
        Step::Send(_, msg) => assert_eq!(
            msg,
            &json(r#"{"jsonrpc": "2.0", "id": null, "method": "initialize", "params": {}}"#)
        ),
        other => panic!("expected a message, got {other:?}"),
    }
}

#[test]
fn life_cycle_messages_reach_every_backend() {
    let mut proxy = proxy(false);
    run(&mut proxy, INITIALIZE);
    assert_eq!(
        words(&run(&mut proxy, r#"{"method": "initialized", "params": {}}"#)),
        ["try /cfg/one.jsonc initialized", "try /home/u/two.jsonc initialized"]
    );
    let steps = run(&mut proxy, r#"{"id": "x", "method": "shutdown"}"#);
    assert_eq!(
        words(&steps[..4]),
        [
            "try /cfg/one.jsonc shutdown",
            "discard /cfg/one.jsonc",
            "try /home/u/two.jsonc shutdown",
            "discard /home/u/two.jsonc",
        ]
    );
    match &steps[4] {
        Step::Write(msg) => assert_eq!(
            msg,
            &json(r#"{"jsonrpc": "2.0", "id": "x", "result": null}"#)
        ),
        other => panic!("expected a message, got {other:?}"),
    }
    assert_eq!(steps.len(), 5);
    match proxy.receive(r#"{"method": "exit"}"#) {
        Reaction::Stop(steps) => assert_eq!(
            words(&steps),
            ["try /cfg/one.jsonc exit", "try /home/u/two.jsonc exit"]
        ),
        other => panic!("expected the end, got {other:?}"),
    }
}

#[test]
fn other_messages_are_answered_by_the_first_backend() {
    let mut proxy = proxy(false);
    assert!(run(&mut proxy, r#"{"id": 1, "method": "workspace/symbol"}"#).is_empty());
    run(&mut proxy, INITIALIZE);
    assert_eq!(
        words(&run(&mut proxy, r#"{"id": 1, "method": "workspace/symbol"}"#)),
        [
            "try /cfg/one.jsonc workspace/symbol",
            "try /home/u/two.jsonc workspace/symbol",
            "relay /cfg/one.jsonc false",
        ]
    );
    assert_eq!(
        words(&run(&mut proxy, r#"{"method": "$/cancel"}"#)),
        ["try /cfg/one.jsonc $/cancel", "try /home/u/two.jsonc $/cancel"]
    );
    // An answer of the editor has an id and no method.
    assert_eq!(run(&mut proxy, r#"{"id": 3, "result": 1}"#).len(), 3);
}

#[test]
fn text_that_is_no_json_is_ignored() {
    let mut proxy = proxy(false);
    assert!(run(&mut proxy, "{").is_empty());
}

#[test]
fn documents_are_found_by_their_decoded_path() {
    let mut proxy = proxy(false);
    let open = locate(&mut proxy, &document("didOpen", "file:///caf%C3%A9/%a\u{e9}x", ""));
    assert_eq!(open.path, "/caf\u{e9}/%a\u{e9}x");
    assert_eq!(open.dir.as_deref(), Some("/caf\u{e9}"));
}

#[test]
fn unmatched_requests_are_answered_with_null() {
    let mut proxy = proxy(false);
    let request = locate(
        &mut proxy,
        &document("formatting", "file:///p/my%20file.sh", r#", "id": 7"#),
    );
    assert_eq!(request.path, "/p/my file.sh");
    assert_eq!(request.dir.as_deref(), Some("/p"));
    assert_eq!(request.id, Some(number(7)));
    let steps = steps_of(place(&mut proxy, request, None, None));
    assert_eq!(steps.len(), 1);
    match &steps[0] {
        Step::Write(msg) => assert_eq!(
            msg,
            &json(r#"{"jsonrpc": "2.0", "id": 7, "result": null}"#)
        ),
        other => panic!("expected a message, got {other:?}"),
    }
    let note = locate(&mut proxy, &document("didSave", "file:///p/x", ""));
    assert!(steps_of(place(&mut proxy, note, None, None)).is_empty());
    let ignored = locate(&mut proxy, &document("hover", "file:///p/x", r#", "id": 8"#));
    let steps = steps_of(proxy.place(
        ignored,
        Some(ProfileResolution::Ignore),
        Some("/p/dprint.json".to_string()),
    ));
    assert_eq!(steps.len(), 1);
    assert!(matches!(&steps[0], Step::Write(_)));
}

#[test]
fn requests_without_a_document_ask_for_nothing() {
    let mut proxy = proxy(false);
    run(&mut proxy, INITIALIZE);
    assert!(run(&mut proxy, r#"{"id": 1, "method": "textDocument/hover"}"#).is_empty());
}

#[test]
fn known_backends_are_used_as_they_are() {
    let mut proxy = proxy(false);
    run(&mut proxy, INITIALIZE);
    let request = locate(&mut proxy, &document("formatting", "file:///p/a", r#", "id": 1"#));
    // The config may be spelled in another way.
    assert_eq!(
        words(&steps_of(place(
            &mut proxy,
            request,
            Some("/cfg/./one.jsonc"),
            Some("/cfg//one.jsonc")
        ))),
        [
            "send /cfg/./one.jsonc textDocument/formatting",
            "relay /cfg/./one.jsonc true"
        ]
    );
}

#[test]
fn backends_start_on_first_use() {
    let mut proxy = proxy(false);
    run(&mut proxy, INITIALIZE);
    let open = locate(&mut proxy, &document("didOpen", "file:///p/a", ""));
    let steps = steps_of(place(&mut proxy, open, Some("/other.jsonc"), None));
    assert_eq!(
        words(&steps),
        [
            "spawn /other.jsonc",
            "try /other.jsonc initialize",
            "discard /other.jsonc",
            "try /other.jsonc initialized",
            "try /other.jsonc textDocument/didOpen",
            "send /other.jsonc textDocument/didOpen",
        ]
    );
    match &steps[1] {
        Step::TrySend(_, msg) => assert_eq!(
            msg,
            &json(
                r#"{"jsonrpc": "2.0", "id": 1, "method": "initialize",
                    "params": {"rootUri": "file:///w"}}"#
            )
        ),
        other => panic!("expected a message, got {other:?}"),
    }
    let save = locate(&mut proxy, &document("didSave", "file:///p/a", ""));
    assert_eq!(
        words(&steps_of(place(&mut proxy, save, Some("/other.jsonc"), None))),
        ["send /other.jsonc textDocument/didSave"]
    );
}

#[test]
fn late_backends_learn_open_documents() {
    let mut proxy = proxy(false);
    run(&mut proxy, INITIALIZE);
    for uri in ["file:///p/a", "file:///p/b", "file:///p/c"] {
        let open = locate(&mut proxy, &document("didOpen", uri, ""));
        place(&mut proxy, open, Some("/cfg/one.jsonc"), None);
    }
    let close = locate(&mut proxy, &document("didClose", "file:///p/b", ""));
    place(&mut proxy, close, Some("/cfg/one.jsonc"), None);
    let request = locate(&mut proxy, &document("formatting", "file:///p/a", r#", "id": 1"#));
    let steps = steps_of(place(&mut proxy, request, Some("/late.jsonc"), None));
    let replayed: Vec<&str> = steps
        .iter()
        .filter_map(|step| match step {
            Step::TrySend(_, msg) if name(msg) == "textDocument/didOpen" => msg
                .get("params")?
                .get("textDocument")?
                .get("uri")?
                .as_str(),
            _ => None,
        })
        .collect();
    assert_eq!(replayed, ["file:///p/a", "file:///p/c"]);
    assert_eq!(words(&steps).last().unwrap(), "relay /late.jsonc true");
}

#[test]
fn local_configs_are_merged_once_per_directory() {
    let mut proxy = proxy(false);
    run(&mut proxy, INITIALIZE);
    let open = locate(&mut proxy, &document("didOpen", "file:///p/src/a", ""));
    let merge = match place(&mut proxy, open, Some("/cfg/one.jsonc"), Some("/p/dprint.json")) {
        Placement::Merge(merge) => merge,
        other => panic!("expected a merge, got {other:?}"),
    };
    assert_eq!(merge.profile, path("/cfg/one.jsonc"));
    assert_eq!(merge.local_dir, "/p");
    assert_eq!(merge.request.dir.as_deref(), Some("/p/src"));
    assert!(proxy.is_servable(&path("/tmp/merged.json"), true));
    let steps = proxy.merged(merge, Some(path("/tmp/merged.json")));
    assert_eq!(words(&steps)[0], "spawn /tmp/merged.json");
    match &steps[1] {
        Step::TrySend(_, msg) => assert_eq!(
            msg.get("params"),
            Some(&json(
                r#"{"rootUri": "file:///p", "workspaceFolders": [{"uri": "file:///p", "name": "p"}],
                    "rootPath": "/p"}"#
            ))
        ),
        other => panic!("expected a message, got {other:?}"),
    }
    // Another file of the project is served by the same config.
    let other = locate(&mut proxy, &document("didSave", "file:///p/b", ""));
    assert_eq!(
        words(&steps_of(place(
            &mut proxy,
            other,
            Some("/home/u/two.jsonc"),
            Some("/p/./dprint.json")
        ))),
        ["send /tmp/merged.json textDocument/didSave"]
    );
}

#[test]
fn profile_serves_where_merging_fails() {
    let mut proxy = proxy(false);
    let open = locate(&mut proxy, &document("didOpen", "file:///p/a", ""));
    let merge = match place(&mut proxy, open, Some("/cfg/one.jsonc"), Some("/p/dprint.json")) {
        Placement::Merge(merge) => merge,
        other => panic!("expected a merge, got {other:?}"),
    };
    let steps = proxy.merged(merge, None);
    // The editor has not initialized yet, so neither is the backend.
    assert_eq!(
        words(&steps),
        [
            "spawn /cfg/one.jsonc",
            "send /cfg/one.jsonc textDocument/didOpen"
        ]
    );
}

#[test]
fn roots_need_parameters_that_take_members() {
    let mut proxy = proxy(false);
    run(&mut proxy, r#"{"method": "initialize", "params": [1]}"#);
    assert!(!proxy.is_servable(&path("/new.json"), true));
    assert!(proxy.is_servable(&path("/new.json"), false));
    assert!(proxy.is_servable(&path("/cfg/one.jsonc"), true));
}

#[test]
fn uris_pass_through_by_default() {
    let mut proxy = proxy(false);
    let request = locate(&mut proxy, &document("didOpen", "file:///p/script", ""));
    assert_eq!(request.path, "/p/script");
    assert_eq!(
        request.msg,
        json(&document("didOpen", "file:///p/script", ""))
    );
}

#[test]
fn uris_get_the_extension_of_their_language() {
    let mut proxy = proxy(true);
    let open = locate(&mut proxy, &document("didOpen", "file:///p/script", ""));
    assert_eq!(open.path, "/p/script.sh");
    assert_eq!(
        open.msg,
        json(&document("didOpen", "file:///p/script.sh", ""))
    );
    let format = locate(&mut proxy, &document("formatting", "file:///p/script", r#", "id": 1"#));
    assert_eq!(format.path, "/p/script.sh");
    // The close goes out under the URI that was opened, and the language is gone.
    let close = locate(&mut proxy, &document("didClose", "file:///p/script", ""));
    assert_eq!(close.path, "/p/script.sh");
    assert_eq!(
        close.msg,
        json(&document("didClose", "file:///p/script.sh", ""))
    );
    let again = locate(&mut proxy, &document("formatting", "file:///p/script", r#", "id": 2"#));
    assert_eq!(again.path, "/p/script");
}

#[test]
fn closed_documents_are_not_replayed() {
    let mut proxy = proxy(true);
    run(&mut proxy, INITIALIZE);
    for file in ["file:///p/one", "file:///p/two"] {
        let open = locate(&mut proxy, &document("didOpen", file, ""));
        place(&mut proxy, open, Some("/cfg/one.jsonc"), None);
    }
    let close = locate(&mut proxy, &document("didClose", "file:///p/one", ""));
    place(&mut proxy, close, Some("/cfg/one.jsonc"), None);
    let save = locate(&mut proxy, &document("didSave", "file:///p/two", ""));
    let steps = steps_of(place(&mut proxy, save, Some("/late.jsonc"), None));
    assert_eq!(steps.len(), 6);
    match &steps[4] {
        Step::TrySend(_, msg) => assert_eq!(
            msg,
            &json(&document("didOpen", "file:///p/two.sh", ""))
        ),
        other => panic!("expected a message, got {other:?}"),
    }
}

#[test]
fn profiles_with_one_config_share_a_backend() {
    let mut shared = config(false);
    shared.profiles = members(r#"{"x": "one.jsonc", "y": "/cfg/./one.jsonc"}"#);
    shared.match_rules = members(r#"{"a": "x", "b": "y"}"#);
    let mut proxy = LspProxy::new_in(path("d"), shared, None);
    let expected = [
        "spawn /cfg/one.jsonc",
        "send /cfg/one.jsonc initialize",
        "collect /cfg/one.jsonc",
        "write collected",
    ];
    assert_eq!(words(&run(&mut proxy, INITIALIZE)), expected);
    // A second one starts it anew, in the place of the first.
    assert_eq!(words(&run(&mut proxy, INITIALIZE)), expected);
    assert_eq!(run(&mut proxy, r#"{"method": "initialized"}"#).len(), 1);
}

#[test]
fn backends_are_started_with_the_config() {
    let proxy = proxy(false);
    assert_eq!(proxy.dprint_bin(), &path("/bin/dprint"));
    assert_eq!(proxy.config().config_dir, path("/cfg"));
    assert_eq!(
        proxy.backend_args(&path("/c.json"), true),
        [&b"lsp"[..], b"--no-gitignore", b"--config", b"/c.json"]
    );
    assert_eq!(
        proxy.backend_args(&path("/c.json"), false),
        [&b"lsp"[..], b"--config", b"/c.json"]
    );
    let mut strict = config(false);
    strict.lsp_no_gitignore = false;
    let strict = LspProxy::new(path("d"), strict);
    assert_eq!(
        strict.backend_args(&path("/c.json"), true),
        [&b"lsp"[..], b"--config", b"/c.json"]
    );
}

#[test]
fn help_on_either_stream_shows_the_flag() {
    assert!(backend_takes_no_gitignore("", "  --no-gitignore  do"));
    assert!(backend_takes_no_gitignore("--no-gitignore", ""));
    assert!(!backend_takes_no_gitignore("--gitignore", "no"));
}

#[test]
fn timeout_falls_back_on_the_default() {
    assert_eq!(proxy(false).read_timeout(), 5000);
    let mut plain = config(false);
    plain.lsp_timeout_ms = 0;
    assert_eq!(
        LspProxy::new_in(path("d"), plain, None).read_timeout(),
        30_000
    );
}

fn after(step: &Step, outcome: Outcome, collected: &mut Option<String>) -> String {
    match settle(step, outcome, collected) {
        After::Continue => "continue".to_string(),
        After::WriteReply(reply) => format!("reply {reply}"),
        After::WriteValue(msg) => format!("value {msg:?}"),
        After::Abort => "abort".to_string(),
    }
}

fn reply(text: &str) -> Outcome {
    Outcome::Reply(text.to_string())
}

#[test]
fn failures_end_the_session_where_they_must() {
    let mut kept = None;
    let spawn = Step::Spawn(path("c"));
    let send = Step::Send(path("c"), Json::Null);
    let write = Step::Write(Json::Null);
    for step in [&spawn, &send, &write] {
        assert_eq!(after(step, Outcome::Done, &mut kept), "continue");
        assert_eq!(after(step, Outcome::Failed, &mut kept), "abort");
    }
    let attempt = Step::TrySend(path("c"), Json::Null);
    let discard = Step::Discard(path("c"));
    for step in [&attempt, &discard] {
        assert_eq!(after(step, Outcome::Failed, &mut kept), "continue");
        assert_eq!(after(step, reply("x"), &mut kept), "continue");
    }
    assert_eq!(kept, None);
}

#[test]
fn first_reply_is_kept() {
    let mut kept = None;
    let collect = Step::Collect(path("c"));
    assert_eq!(after(&Step::WriteCollected, Outcome::Done, &mut kept), "continue");
    assert_eq!(after(&collect, Outcome::Failed, &mut kept), "continue");
    assert_eq!(kept, None);
    after(&collect, reply("first"), &mut kept);
    after(&collect, reply("second"), &mut kept);
    assert_eq!(kept.as_deref(), Some("first"));
    assert_eq!(
        after(&Step::WriteCollected, Outcome::Done, &mut kept),
        "reply first"
    );
}

#[test]
fn waiting_ends_with_an_answer() {
    let mut kept = None;
    let relay = Step::Relay {
        config: path("c"),
        id: None,
        fallback: Json::Bool(true),
    };
    assert_eq!(after(&relay, reply("r"), &mut kept), "reply r");
    assert_eq!(after(&relay, Outcome::Failed, &mut kept), "value Bool(true)");
}

#[test]
fn replies_are_told_from_other_messages() {
    let id = number(4);
    let mine = r#"{"id": 4, "result": null}"#;
    let foreign = r#"{"id": "4", "result": null}"#;
    let note = r#"{"method": "window/logMessage"}"#;
    assert_eq!(sort_incoming(mine, Some(&id)), Incoming::Answer);
    assert_eq!(sort_incoming(foreign, Some(&id)), Incoming::Pass);
    assert_eq!(sort_incoming(note, Some(&id)), Incoming::Pass);
    assert_eq!(sort_incoming("{", Some(&id)), Incoming::Broken);
    assert_eq!(sort_incoming(foreign, None), Incoming::Answer);
    assert_eq!(sort_incoming(note, None), Incoming::Pass);
    assert_eq!(sort_message(&json(r#"{"id": null}"#), None), Incoming::Answer);
    assert_eq!(
        sort_message(&json(r#"{"id": null}"#), Some(&Json::Null)),
        Incoming::Answer
    );
}

#[test]
fn documents_are_kept_once() {
    let mut proxy = proxy(false);
    run(&mut proxy, INITIALIZE);
    for _ in 0..2 {
        let open = locate(&mut proxy, &document("didOpen", "file:///p/a", ""));
        place(&mut proxy, open, Some("/cfg/one.jsonc"), None);
    }
    let save = locate(&mut proxy, &document("didSave", "file:///p/a", ""));
    let steps = steps_of(place(&mut proxy, save, Some("/late.jsonc"), None));
    assert_eq!(
        words(&steps),
        [
            "spawn /late.jsonc",
            "try /late.jsonc initialize",
            "discard /late.jsonc",
            "try /late.jsonc initialized",
            "try /late.jsonc textDocument/didOpen",
            "send /late.jsonc textDocument/didSave",
        ]
    );
    // A second `initialize` starts the profiles anew, and still counts them once.
    run(&mut proxy, INITIALIZE);
    assert_eq!(run(&mut proxy, r#"{"method": "$/x"}"#).len(), 3);
}

#[test]
fn configs_need_not_be_text() {
    let home = FilePath::from_bytes(b"/home/\xff".to_vec());
    let mut odd = config(false);
    odd.profiles = members(r#"{"x": "~/a.jsonc", "y": "~/./a.jsonc"}"#);
    odd.match_rules = members(r#"{"a": "x", "b": "y"}"#);
    let mut proxy = LspProxy::new_in(path("d"), odd, Some(home));
    let steps = run(&mut proxy, INITIALIZE);
    assert_eq!(steps.len(), 4);
    match &steps[0] {
        Step::Spawn(config) => {
            assert_eq!(config.as_bytes(), b"/home/\xff/a.jsonc");
            assert_eq!(proxy.backend_args(config, false)[2], b"/home/\xff/a.jsonc");
        }
        other => panic!("expected a start, got {other:?}"),
    }
}

#[test]
fn messages_before_the_reply_pass_in_order() {
    let id = number(4);
    let sent = [
        r#"{"method": "window/logMessage"}"#,
        r#"{"id": 3, "result": 1}"#,
        r#"{"id": 4, "result": 2}"#,
        r#"{"id": 4, "result": 3}"#,
    ];
    let mut passed = Vec::new();
    let mut reply = None;
    let mut left = sent.iter();
    for message in left.by_ref() {
        match sort_incoming(message, Some(&id)) {
            Incoming::Answer => {
                reply = Some(*message);
                break;
            }
            Incoming::Pass => passed.push(*message),
            Incoming::Broken => panic!("{message} is JSON"),
        }
    }
    assert_eq!(passed, sent[..2]);
    assert_eq!(reply, Some(sent[2]));
    assert_eq!(left.as_slice(), &sent[3..]);
}
