//! The language server proxy: one dprint backend per effective config, spawned
//! on first use, and requests routed to them by file.
//!
//! The proxy decides; it does no input or output of its own. A message from the
//! editor becomes a list of steps, or a question about the document that the
//! message is about: which profile its path picks, and which local config
//! governs it. The answers give the steps.

use vstd::prelude::*;
use vstd::string::*;
use vstd::utf8::*;

use crate::assoc;
use crate::config::{self, DprintxConfig, ProfileResolution, Resolution};
use crate::file_path::{self, borrow, is_listed, FilePath};
use crate::json::{self, number, object, parse_json, Json, Tree};
use crate::message::{
    self, apply_uri_rewrite, extract_language, extract_uri, initialize_request,
    initialized_notification, null_reply, set_root,
};
use crate::path::{self, parent, same_path};
use crate::step::{self, add_step, Act, Step};
use crate::text::{self, among, contains, copy_of, same_text, starts_with};
use crate::uri::{self, uri_to_path};

verus! {

/// A message about a document, and where that document lies.
#[derive(Debug)]
pub struct DocumentRequest {
    /// The message as it goes to a backend.
    pub msg: Json,
    /// The request's id, where an answer is expected.
    pub id: Option<Json>,
    /// The path of the document.
    pub path: String,
    /// The directory of the document.
    pub dir: Option<String>,
}

/// The same, over mathematical values.
pub ghost struct Request {
    pub msg: Tree,
    pub id: Option<Tree>,
    pub path: Seq<char>,
    pub dir: Option<Seq<char>>,
}

impl View for DocumentRequest {
    type V = Request;

    open spec fn view(&self) -> Request {
        Request {
            msg: self.msg@,
            id: step::owned_tree(self.id),
            path: self.path@,
            dir: text::text_option(self.dir),
        }
    }
}

/// A document whose local config must be merged with its profile first.
#[derive(Debug)]
pub struct MergeRequest {
    /// The message about the document.
    pub request: DocumentRequest,
    /// The config of the profile.
    pub profile: FilePath,
    /// The directory whose local config is merged.
    pub local_dir: String,
}

/// What a message from the editor asks for.
#[derive(Debug)]
pub enum Reaction {
    /// These steps.
    Run(Vec<Step>),
    /// These steps, and then the end of the session.
    Stop(Vec<Step>),
    /// The profile and the local config of a document: see `LspProxy::place`.
    Locate(DocumentRequest),
}

/// The same, over mathematical values.
pub ghost enum Reply {
    Run(Seq<Act>),
    Stop(Seq<Act>),
    Locate(Request),
}

impl View for Reaction {
    type V = Reply;

    open spec fn view(&self) -> Reply {
        match self {
            Reaction::Run(steps) => Reply::Run(step::acts(steps@)),
            Reaction::Stop(steps) => Reply::Stop(step::acts(steps@)),
            Reaction::Locate(request) => Reply::Locate(request@),
        }
    }
}

/// What a document asks for, once its profile and its local config are known.
#[derive(Debug)]
pub enum Placement {
    /// These steps.
    Run(Vec<Step>),
    /// A merged config: see `LspProxy::merged`.
    Merge(MergeRequest),
}

/// The same, over mathematical values.
pub ghost enum Place {
    Run(Seq<Act>),
    Merge(Request, Seq<u8>, Seq<char>),
}

impl View for Placement {
    type V = Place;

    open spec fn view(&self) -> Place {
        match self {
            Placement::Run(steps) => Place::Run(step::acts(steps@)),
            Placement::Merge(merge) => Place::Merge(
                merge.request@,
                merge.profile@,
                merge.local_dir@,
            ),
        }
    }
}

/// What the proxy knows.
pub ghost struct Proxy {
    /// The dprint program.
    pub dprint_bin: Seq<u8>,
    /// The configuration.
    pub config: DprintxConfig,
    /// The user's home directory.
    pub home: Option<Seq<u8>>,
    /// The configs that have a backend, in the order in which those started.
    pub backends: Seq<Seq<u8>>,
    /// The parameters of the editor's `initialize`.
    pub init_params: Option<Tree>,
    /// The merged config of each directory that has one.
    pub merged: Seq<(Seq<char>, Seq<u8>)>,
    /// The language of each open document.
    pub languages: Seq<(Seq<char>, Seq<char>)>,
    /// The message that opened each open document.
    pub open_docs: Seq<(Seq<char>, Tree)>,
}

/// The configs that have a backend, and the merged configs among them by the
/// directory whose local config was merged.
struct Started {
    configs: Vec<FilePath>,
    merged: Vec<(String, FilePath)>,
}

impl Started {
    /// Every merged config has a backend.
    #[verifier::type_invariant]
    spec fn backed(self) -> bool {
        forall|i: int|
            0 <= i < self.merged@.len() ==> file_path::listed(
                file_path::paths(self.configs@),
                (#[trigger] self.merged@[i]).1@,
            )
    }

    fn nothing() -> (started: Started)
        ensures
            started.configs@.len() == 0,
            started.merged@.len() == 0,
    {
        Started { configs: Vec::new(), merged: Vec::new() }
    }

    /// Remembers that a config has a backend.
    fn add(&mut self, config: &FilePath)
        ensures
            file_path::paths(final(self).configs@) == with_backend(
                file_path::paths(old(self).configs@),
                config@,
            ),
            final(self).merged == old(self).merged,
    {
        if !is_listed(self.configs.as_slice(), config) {
            proof {
                use_type_invariant(&*self);
            }
            let ghost before = file_path::paths(self.configs@);
            let mut whole = Started::nothing();
            std::mem::swap(&mut whole, self);
            let Started { mut configs, merged } = whole;
            configs.push(config.copy());
            let ghost after = file_path::paths(configs@);
            assert(after =~= before.push(config@));
            assert forall|i: int| 0 <= i < merged@.len() implies file_path::listed(
                after,
                (#[trigger] merged@[i]).1@,
            ) by {
                let c = merged@[i].1@;
                assert(file_path::listed(before, c));
                let k = choose|k: int|
                    0 <= k < before.len() && file_path::components(#[trigger] before[k])
                        == file_path::components(c);
                assert(after[k] == before[k]);
            }
            *self = Started { configs, merged };
        }
    }

    /// Remembers the merged config of a directory.
    fn keep(&mut self, dir: String, config: FilePath)
        requires
            file_path::listed(file_path::paths(old(self).configs@), config@),
        ensures
            final(self).configs == old(self).configs,
            assoc::entries(final(self).merged@) == assoc::entries(old(self).merged@).push(
                (dir@, config@),
            ),
    {
        proof {
            use_type_invariant(&*self);
        }
        let ghost before = self.merged@;
        let ghost entry = (dir, config);
        let mut whole = Started::nothing();
        std::mem::swap(&mut whole, self);
        let Started { configs, mut merged } = whole;
        merged.push((dir, config));
        assert(assoc::entries(merged@) =~= assoc::entries(before).push((dir@, config@)));
        assert forall|i: int| 0 <= i < merged@.len() implies file_path::listed(
            file_path::paths(configs@),
            (#[trigger] merged@[i]).1@,
        ) by {
            if i < before.len() {
                assert(merged@[i] == before[i]);
            } else {
                assert(merged@[i] == entry);
            }
        }
        *self = Started { configs, merged };
    }
}

/// LSP proxy: one dprint lsp per config, requests routed by file URI.
pub struct LspProxy {
    dprint_bin: FilePath,
    config: DprintxConfig,
    home: Option<FilePath>,
    started: Started,
    init_params: Option<Json>,
    uri_languages: Vec<(String, String)>,
    open_docs: Vec<(String, Json)>,
}

impl View for LspProxy {
    type V = Proxy;

    closed spec fn view(&self) -> Proxy {
        Proxy {
            dprint_bin: self.dprint_bin@,
            config: self.config,
            home: file_path::path_option(self.home),
            backends: file_path::paths(self.started.configs@),
            init_params: step::owned_tree(self.init_params),
            merged: assoc::entries(self.started.merged@),
            languages: assoc::entries(self.uri_languages@),
            open_docs: assoc::entries(self.open_docs@),
        }
    }
}

/// The list with a config in it, as a path.
pub open spec fn with_backend(list: Seq<Seq<u8>>, config: Seq<u8>) -> Seq<Seq<u8>> {
    if file_path::listed(list, config) {
        list
    } else {
        list.push(config)
    }
}

/// A config that was added is listed, with all those that were before.
pub proof fn adding_keeps_known(list: Seq<Seq<u8>>, config: Seq<u8>)
    ensures
        file_path::listed(with_backend(list, config), config),
        forall|c: Seq<u8>|
            file_path::listed(list, c) ==> #[trigger] file_path::listed(
                with_backend(list, config),
                c,
            ),
{
    let after = with_backend(list, config);
    if !file_path::listed(list, config) {
        assert(after[after.len() - 1] == config);
    }
    assert forall|c: Seq<u8>| file_path::listed(list, c) implies #[trigger] file_path::listed(after, c) by {
        let i = choose|i: int|
            0 <= i < list.len() && file_path::components(#[trigger] list[i]) == file_path::components(c);
        assert(after[i] == list[i]);
    }
}

/// The list with several configs in it.
pub open spec fn with_backends(list: Seq<Seq<u8>>, configs: Seq<Seq<u8>>) -> Seq<Seq<u8>>
    decreases configs.len(),
{
    if configs.len() == 0 {
        list
    } else {
        with_backend(with_backends(list, configs.drop_last()), configs.last())
    }
}

/// The profile names of rules, each once, in order.
pub open spec fn profiles_of(rules: Seq<(Seq<char>, Seq<char>)>) -> Seq<Seq<char>>
    decreases rules.len(),
{
    if rules.len() == 0 {
        Seq::empty()
    } else {
        let before = profiles_of(rules.drop_last());
        if before.contains(rules.last().1) {
            before
        } else {
            before.push(rules.last().1)
        }
    }
}

/// The config files of profiles, each once, without those that have none.
pub open spec fn configs_of(
    config: DprintxConfig,
    home: Option<Seq<u8>>,
    profiles: Seq<Seq<char>>,
) -> Seq<Seq<u8>>
    decreases profiles.len(),
{
    if profiles.len() == 0 {
        Seq::empty()
    } else {
        let before = configs_of(config, home, profiles.drop_last());
        match config::profile_of(config, profiles.last(), home) {
            Some(Resolution::Config(path)) => with_backend(before, path),
            _ => before,
        }
    }
}

/// The configs that get a backend when the editor initializes.
pub open spec fn start_configs(p: Proxy) -> Seq<Seq<u8>> {
    configs_of(
        p.config,
        p.home,
        profiles_of(config::rules_of(assoc::entries(p.config.match_rules@))),
    )
}

/// Starting and initializing a backend for each config.
pub open spec fn start_acts(configs: Seq<Seq<u8>>, request: Tree) -> Seq<Act>
    decreases configs.len(),
{
    if configs.len() == 0 {
        Seq::empty()
    } else {
        let c = configs.last();
        start_acts(configs.drop_last(), request) + seq![
            Act::Spawn(c),
            Act::Send(c, request),
            Act::Collect(c),
        ]
    }
}

/// Sending a message to every backend.
pub open spec fn broadcast_acts(backends: Seq<Seq<u8>>, msg: Tree) -> Seq<Act> {
    backends.map_values(|config: Seq<u8>| Act::TrySend(config, msg))
}

/// Sending a message to every backend and waiting for each.
pub open spec fn shutdown_acts(backends: Seq<Seq<u8>>, msg: Tree) -> Seq<Act>
    decreases backends.len(),
{
    if backends.len() == 0 {
        Seq::empty()
    } else {
        let c = backends.last();
        shutdown_acts(backends.drop_last(), msg) + seq![Act::TrySend(c, msg), Act::Discard(c)]
    }
}

/// A value, or null where it is missing.
pub open spec fn or_null(value: Option<Tree>) -> Tree {
    match value {
        Some(tree) => tree,
        None => Tree::Null,
    }
}

/// A value, or an empty object where it is missing.
pub open spec fn or_empty(value: Option<Tree>) -> Tree {
    match value {
        Some(tree) => tree,
        None => Tree::Object(Seq::empty()),
    }
}

/// The method of a message.
pub open spec fn method_of(msg: Tree) -> Option<Seq<char>> {
    match msg.get("method"@) {
        Some(method) => method.text(),
        None => None,
    }
}

/// What the proxy knows of languages when a message comes in: `didOpen` gives a
/// document its language.
pub open spec fn noticed(p: Proxy, msg: Tree) -> Proxy {
    if method_of(msg) == Some("textDocument/didOpen"@) {
        match (message::uri_of(msg), message::language_of(msg)) {
            (Some(uri), Some(language)) => Proxy {
                languages: assoc::put(p.languages, uri, language),
                ..p
            },
            _ => p,
        }
    } else {
        p
    }
}

/// The message as it goes to a backend.
pub open spec fn routed(p: Proxy, msg: Tree) -> Tree {
    if p.config.lsp_rewrite_uris {
        message::rewritten_message(msg, p.languages)
    } else {
        msg
    }
}

/// What the proxy knows once `msg` has been routed as `sent`: `didOpen` opens a
/// document under the URI that backends see, and `didClose` forgets its language
/// and closes it under that URI.
pub open spec fn kept(p: Proxy, msg: Tree, sent: Tree) -> Proxy {
    match (message::uri_of(msg), message::uri_of(sent)) {
        (Some(uri), Some(sent_uri)) => if method_of(msg) == Some("textDocument/didOpen"@) {
            Proxy { open_docs: assoc::put(p.open_docs, sent_uri, sent), ..p }
        } else if method_of(msg) == Some("textDocument/didClose"@) {
            Proxy {
                languages: assoc::without(p.languages, uri),
                open_docs: assoc::without(p.open_docs, sent_uri),
                ..p
            }
        } else {
            p
        },
        _ => p,
    }
}

/// What a message about a document asks for.
pub open spec fn document_reaction(p: Proxy, msg: Tree) -> (Proxy, Reply) {
    let after = noticed(p, msg);
    let sent = routed(after, msg);
    (
        kept(after, msg, sent),
        match message::uri_of(sent) {
            Some(uri) => Reply::Locate(
                Request {
                    msg: sent,
                    id: msg.get("id"@),
                    path: uri::path_of_uri(uri),
                    dir: path::parent_of(uri::path_of_uri(uri)),
                },
            ),
            None => Reply::Run(Seq::empty()),
        },
    )
}

/// What a message of no special meaning asks for: every backend gets it, and the
/// first one answers.
pub open spec fn forward_acts(p: Proxy, msg: Tree) -> Seq<Act> {
    let sent = broadcast_acts(p.backends, msg);
    match msg.get("id"@) {
        Some(id) => if p.backends.len() > 0 {
            sent.push(Act::Relay(p.backends[0], None, message::null_reply_of(id)))
        } else {
            sent
        },
        None => sent,
    }
}

/// What the proxy knows after a message, and what the message asks for.
pub open spec fn reaction_to(p: Proxy, msg: Tree) -> (Proxy, Reply) {
    let method = method_of(msg);
    if method == Some("initialize"@) {
        let configs = start_configs(p);
        let request = message::initialize_of(
            or_null(msg.get("id"@)),
            or_empty(msg.get("params"@)),
        );
        (
            Proxy {
                init_params: msg.get("params"@),
                backends: with_backends(p.backends, configs),
                ..p
            },
            Reply::Run(start_acts(configs, request).push(Act::WriteCollected)),
        )
    } else if method == Some("initialized"@) {
        (p, Reply::Run(broadcast_acts(p.backends, msg)))
    } else if method == Some("shutdown"@) {
        (
            p,
            Reply::Run(
                shutdown_acts(p.backends, msg).push(
                    Act::Write(message::null_reply_of(or_null(msg.get("id"@)))),
                ),
            ),
        )
    } else if method == Some("exit"@) {
        (p, Reply::Stop(broadcast_acts(p.backends, msg)))
    } else if about_document(msg) {
        document_reaction(p, msg)
    } else {
        (p, Reply::Run(forward_acts(p, msg)))
    }
}

/// What the proxy knows after a text from the editor, and what the text asks for.
pub open spec fn received(p: Proxy, text: Seq<char>) -> (Proxy, Reply) {
    match json::parsed_tree(text) {
        Some(msg) => reaction_to(p, msg),
        None => (p, Reply::Run(Seq::empty())),
    }
}

/// Whether a message is about a document.
pub open spec fn about_document(msg: Tree) -> bool {
    match method_of(msg) {
        Some(method) => "textDocument/"@.is_prefix_of(method),
        None => false,
    }
}

/// The merged config of a directory, as a path.
pub open spec fn merged_for(
    merged: Seq<(Seq<char>, Seq<u8>)>,
    dir: Seq<char>,
) -> Option<Seq<u8>>
    decreases merged.len(),
{
    if merged.len() == 0 {
        None
    } else if path::components(merged[0].0) == path::components(dir) {
        Some(merged[0].1)
    } else {
        merged_for(merged.skip(1), dir)
    }
}

/// Introducing a new backend: it is initialized, with `root` as its workspace
/// where one is given, and told of every open document.
pub open spec fn greeting_acts(p: Proxy, config: Seq<u8>, root: Option<Seq<char>>) -> Seq<Act> {
    match p.init_params {
        Some(params) => {
            let rooted = match root {
                Some(root) => message::with_root(params, root),
                None => params,
            };
            seq![
                Act::TrySend(config, message::initialize_of(Tree::Number("1"@), rooted)),
                Act::Discard(config),
                Act::TrySend(config, message::initialized_of()),
            ] + p.open_docs.map_values(|doc: (Seq<char>, Tree)| Act::TrySend(config, doc.1))
        },
        None => Seq::empty(),
    }
}

/// Handing a message to the backend of a config, which is started first where
/// it has none.
pub open spec fn serving(
    p: Proxy,
    request: Request,
    config: Seq<u8>,
    root: Option<Seq<char>>,
) -> (Proxy, Seq<Act>) {
    let start = if file_path::listed(p.backends, config) {
        Seq::empty()
    } else {
        seq![Act::Spawn(config)] + greeting_acts(p, config, root)
    };
    let sent = start.push(Act::Send(config, request.msg));
    (
        Proxy { backends: with_backend(p.backends, config), ..p },
        match request.id {
            Some(id) => sent.push(Act::Relay(config, Some(id), message::null_reply_of(id))),
            None => sent,
        },
    )
}

/// The directory whose local config is to be merged with the profile, where
/// there is one.
pub open spec fn merge_dir(
    request: Request,
    profile: Seq<u8>,
    local: Option<Seq<char>>,
) -> Option<Seq<char>> {
    match (request.dir, local) {
        (Some(dir), Some(local)) => if file_path::components(encode_utf8(local))
            == file_path::components(profile) {
            None
        } else {
            match path::parent_of(local) {
                Some(local_dir) => Some(local_dir),
                None => Some(dir),
            }
        },
        _ => None,
    }
}

/// What a document asks for, given its profile and its local config.
pub open spec fn placing(
    p: Proxy,
    request: Request,
    profile: Option<Resolution>,
    local: Option<Seq<char>>,
) -> (Proxy, Place) {
    match profile {
        Some(Resolution::Config(profile)) => match merge_dir(request, profile, local) {
            None => {
                let (after, steps) = serving(p, request, profile, None);
                (after, Place::Run(steps))
            },
            Some(dir) => match merged_for(p.merged, dir) {
                Some(config) => {
                    let (after, steps) = serving(p, request, config, Some(dir));
                    (after, Place::Run(steps))
                },
                None => (p, Place::Merge(request, profile, dir)),
            },
        },
        _ => (
            p,
            Place::Run(
                match request.id {
                    Some(id) => seq![Act::Write(message::null_reply_of(id))],
                    None => Seq::empty(),
                },
            ),
        ),
    }
}

/// What a document asks for, once its merged config was built, or could not be.
pub open spec fn merging(
    p: Proxy,
    request: Request,
    profile: Seq<u8>,
    dir: Seq<char>,
    built: Option<Seq<u8>>,
) -> (Proxy, Seq<Act>) {
    match built {
        Some(config) => serving(
            Proxy { merged: p.merged.push((dir, config)), ..p },
            request,
            config,
            Some(dir),
        ),
        None => serving(p, request, profile, Some(dir)),
    }
}

/// Whether the backend of a config can be told of a root: where one must be
/// started with a root, the editor's parameters must take members.
pub open spec fn servable(p: Proxy, config: Seq<u8>, rooted: bool) -> bool {
    rooted && !file_path::listed(p.backends, config) ==> match p.init_params {
        Some(params) => params.takes_members(),
        None => true,
    }
}

/// Whether every merged config has a backend.
pub open spec fn grounded(p: Proxy) -> bool {
    forall|i: int|
        0 <= i < p.merged.len() ==> file_path::listed(p.backends, (#[trigger] p.merged[i]).1)
}

/// The merged config of a directory is one of those that are kept.
pub proof fn merged_configs_are_held(merged: Seq<(Seq<char>, Seq<u8>)>, dir: Seq<char>)
    ensures
        merged_for(merged, dir) matches Some(config) ==> exists|i: int|
            0 <= i < merged.len() && (#[trigger] merged[i]).1 == config,
    decreases merged.len(),
{
    if merged.len() > 0 {
        if path::components(merged[0].0) == path::components(dir) {
            assert(merged[0].1 == merged_for(merged, dir)->Some_0);
        } else {
            merged_configs_are_held(merged.skip(1), dir);
            if let Some(config) = merged_for(merged, dir) {
                let i = choose|i: int|
                    0 <= i < merged.skip(1).len() && (#[trigger] merged.skip(1)[i]).1 == config;
                assert(merged[i + 1].1 == config);
            }
        }
    }
}

/// The member of a message, as a value of its own.
fn member(msg: &Json, key: &str) -> (value: Option<Json>)
    ensures
        step::owned_tree(value) == msg@.get(key@),
{
    match msg.get(key) {
        Some(value) => Some(value.copy()),
        None => None,
    }
}

/// The merged config of a directory.
fn find_merged(merged: &Vec<(String, FilePath)>, dir: &str) -> (config: Option<FilePath>)
    ensures
        file_path::path_option(config) == merged_for(assoc::entries(merged@), dir@),
{
    let ghost all = assoc::entries(merged@);
    let mut i: usize = 0;
    assert(all.skip(0) =~= all);
    while i < merged.len()
        invariant
            i <= merged@.len(),
            all == assoc::entries(merged@),
            merged_for(all, dir@) == merged_for(all.skip(i as int), dir@),
        decreases merged@.len() - i,
    {
        assert(all.skip(i as int)[0] == all[i as int]);
        assert(all.skip(i as int).skip(1) =~= all.skip(i + 1));
        if same_path(merged[i].0.as_str(), dir) {
            return Some(merged[i].1.copy());
        }
        i += 1;
    }
    None
}

/// Sends a message to every backend.
fn broadcast_steps(backends: &Vec<FilePath>, msg: &Json) -> (steps: Vec<Step>)
    ensures
        step::acts(steps@) == broadcast_acts(file_path::paths(backends@), msg@),
{
    let ghost all = broadcast_acts(file_path::paths(backends@), msg@);
    let mut steps: Vec<Step> = Vec::new();
    let mut i: usize = 0;
    assert(step::acts(steps@) =~= all.take(0));
    while i < backends.len()
        invariant
            i <= backends@.len(),
            all == broadcast_acts(file_path::paths(backends@), msg@),
            step::acts(steps@) == all.take(i as int),
        decreases backends@.len() - i,
    {
        let ghost before = steps@;
        let step = Step::TrySend(backends[i].copy(), msg.copy());
        assert(step@ == all[i as int]);
        steps.push(step);
        assert(step::acts(steps@) =~= step::acts(before).push(step@));
        assert(step::acts(steps@) =~= all.take(i + 1));
        i += 1;
    }
    assert(all.take(i as int) =~= all);
    steps
}

impl LspProxy {
    /// A proxy that runs `dprint_bin` for the configs that `config` names.
    pub fn new(dprint_bin: FilePath, config: DprintxConfig) -> (proxy: LspProxy)
        ensures
            exists|home: Option<Seq<u8>>|
                config::is_home(home) && proxy@ == #[trigger] idle(dprint_bin@, config, home),
    {
        let home = config::home_dir();
        let proxy = Self::new_in(dprint_bin, config, home);
        assert(proxy@ == idle(dprint_bin@, config, file_path::path_option(home)));
        proxy
    }

    /// A proxy for a user with the given home directory.
    pub fn new_in(dprint_bin: FilePath, config: DprintxConfig, home: Option<FilePath>) -> (proxy:
        LspProxy)
        ensures
            proxy@ == idle(dprint_bin@, config, file_path::path_option(home)),
    {
        let proxy = LspProxy {
            dprint_bin,
            config,
            home,
            started: Started::nothing(),
            init_params: None,
            uri_languages: Vec::new(),
            open_docs: Vec::new(),
        };
        assert(proxy@.backends =~= Seq::empty());
        assert(proxy@.merged =~= Seq::empty());
        assert(proxy@.languages =~= Seq::empty());
        assert(proxy@.open_docs =~= Seq::empty());
        proxy
    }

    /// What a message from the editor asks for. A text that is no JSON asks for
    /// nothing.
    pub fn receive(&mut self, text: &str) -> (reaction: Reaction)
        ensures
            match json::parsed_tree(text@) {
                Some(msg) => (final(self)@, reaction@) == reaction_to(old(self)@, msg),
                None => {
                    &&& reaction@ == Reply::Run(Seq::empty())
                    &&& final(self)@ == old(self)@
                },
            },
            (final(self)@, reaction@) == received(old(self)@, text@),
    {
        match parse_json(text) {
            Ok(msg) => self.react(msg),
            Err(_) => {
                let steps: Vec<Step> = Vec::new();
                assert(step::acts(steps@) =~= Seq::empty());
                Reaction::Run(steps)
            },
        }
    }

    /// What a message from the editor asks for.
    pub fn react(&mut self, msg: Json) -> (reaction: Reaction)
        ensures
            (final(self)@, reaction@) == reaction_to(old(self)@, msg@),
    {
        let method = match msg.get("method") {
            Some(method) => match method.as_str() {
                Some(method) => Some(copy_of(method)),
                None => None,
            },
            None => None,
        };
        assert(text::text_option(method) == method_of(msg@));
        let method = match method {
            Some(method) => method,
            None => {
                return Reaction::Run(self.forward(&msg));
            },
        };
        if same_text(method.as_str(), "initialize") {
            Reaction::Run(self.initialize(&msg))
        } else if same_text(method.as_str(), "initialized") {
            Reaction::Run(broadcast_steps(&self.started.configs, &msg))
        } else if same_text(method.as_str(), "shutdown") {
            Reaction::Run(self.shutdown(&msg))
        } else if same_text(method.as_str(), "exit") {
            Reaction::Stop(broadcast_steps(&self.started.configs, &msg))
        } else if starts_with(method.as_str(), "textDocument/") {
            self.open_document(msg, method.as_str())
        } else {
            Reaction::Run(self.forward(&msg))
        }
    }

    /// Sends a message of no special meaning to every backend, and has the first
    /// one answer.
    fn forward(&self, msg: &Json) -> (steps: Vec<Step>)
        ensures
            step::acts(steps@) == forward_acts(self@, msg@),
    {
        let mut steps = broadcast_steps(&self.started.configs, msg);
        if let Some(id) = member(msg, "id") {
            if self.started.configs.len() > 0 {
                add_step(
                    &mut steps,
                    Step::Relay {
                        config: self.started.configs[0].copy(),
                        id: None,
                        fallback: null_reply(id),
                    },
                );
            }
        }
        steps
    }

    /// The configs that get a backend when the editor initializes, each once.
    fn start_configs(&self) -> (configs: Vec<FilePath>)
        ensures
            file_path::paths(configs@) == start_configs(self@),
    {
        let ghost home = file_path::path_option(self.home);
        let ghost all = config::rules_of(assoc::entries(self.config.match_rules@));
        let rules = self.config.match_rules_iter();
        let mut seen: Vec<String> = Vec::new();
        let mut configs: Vec<FilePath> = Vec::new();
        let mut i: usize = 0;
        assert(text::texts(seen@) =~= profiles_of(all.take(0)));
        assert(file_path::paths(configs@) =~= configs_of(self.config, home, text::texts(seen@)));
        while i < rules.len()
            invariant
                i <= rules@.len(),
                home == file_path::path_option(self.home),
                all == config::pairs(rules@),
                text::texts(seen@) == profiles_of(all.take(i as int)),
                file_path::paths(configs@) == configs_of(self.config, home, text::texts(seen@)),
            decreases rules@.len() - i,
        {
            let name = rules[i].1;
            assert(all[i as int].1 == name@);
            assert(all.take(i + 1).drop_last() =~= all.take(i as int));
            assert(all.take(i + 1).last() == all[i as int]);
            if !among(seen.as_slice(), name) {
                let ghost seen_before = seen@;
                let ghost configs_before = configs@;
                seen.push(copy_of(name));
                assert(text::texts(seen@) =~= text::texts(seen_before).push(name@));
                assert(text::texts(seen@).drop_last() =~= text::texts(seen_before));
                if let Some(ProfileResolution::Config(path)) = self.config.resolve_profile_in(
                    name,
                    borrow(&self.home),
                ) {
                    if !is_listed(configs.as_slice(), &path) {
                        let ghost added = path@;
                        configs.push(path);
                        assert(file_path::paths(configs@) =~= file_path::paths(configs_before).push(added));
                    }
                }
            }
            i += 1;
        }
        assert(all.take(i as int) =~= all);
        configs
    }

    /// Starts a backend for every config that a profile of the rules names, and
    /// answers with the first reply that comes back. A config that has a backend
    /// already gets a new one in its place.
    fn initialize(&mut self, msg: &Json) -> (steps: Vec<Step>)
        requires
            method_of(msg@) == Some("initialize"@),
        ensures
            (final(self)@, Reply::Run(step::acts(steps@))) == reaction_to(old(self)@, msg@),
    {
        broadcast use json::tree_of_object;

        let configs = self.start_configs();
        let ghost all = file_path::paths(configs@);
        let id = match member(msg, "id") {
            Some(id) => id,
            None => Json::Null,
        };
        let params = match member(msg, "params") {
            Some(params) => params,
            None => {
                let nothing: Vec<(String, Json)> = Vec::new();
                assert(assoc::entries(nothing@) =~= Seq::empty());
                object(nothing)
            },
        };
        let request = initialize_request(id, params);
        self.init_params = member(msg, "params");
        let ghost started = self@;
        let mut steps: Vec<Step> = Vec::new();
        let mut i: usize = 0;
        assert(step::acts(steps@) =~= start_acts(all.take(0), request@));
        while i < configs.len()
            invariant
                i <= configs@.len(),
                all == file_path::paths(configs@),
                step::acts(steps@) == start_acts(all.take(i as int), request@),
                self@ == (Proxy {
                    backends: with_backends(started.backends, all.take(i as int)),
                    ..started
                }),
            decreases configs@.len() - i,
        {
            let config = &configs[i];
            assert(all[i as int] == config@);
            assert(all.take(i + 1).drop_last() =~= all.take(i as int));
            assert(all.take(i + 1).last() == config@);
            let ghost sofar = step::acts(steps@);
            add_step(&mut steps, Step::Spawn(config.copy()));
            add_step(&mut steps, Step::Send(config.copy(), request.copy()));
            add_step(&mut steps, Step::Collect(config.copy()));
            assert(step::acts(steps@) =~= sofar + seq![
                Act::Spawn(config@),
                Act::Send(config@, request@),
                Act::Collect(config@),
            ]);
            self.started.add(config);
            i += 1;
        }
        assert(all.take(i as int) =~= all);
        add_step(&mut steps, Step::WriteCollected);
        steps
    }

    /// Shuts every backend down, and answers with null.
    fn shutdown(&self, msg: &Json) -> (steps: Vec<Step>)
        ensures
            step::acts(steps@) == shutdown_acts(self@.backends, msg@).push(
                Act::Write(message::null_reply_of(or_null(msg@.get("id"@)))),
            ),
    {
        let ghost all = self@.backends;
        let mut steps: Vec<Step> = Vec::new();
        let mut i: usize = 0;
        assert(step::acts(steps@) =~= shutdown_acts(all.take(0), msg@));
        while i < self.started.configs.len()
            invariant
                i <= self.started.configs@.len(),
                all == file_path::paths(self.started.configs@),
                step::acts(steps@) == shutdown_acts(all.take(i as int), msg@),
            decreases self.started.configs@.len() - i,
        {
            let config = &self.started.configs[i];
            assert(all.take(i + 1).drop_last() =~= all.take(i as int));
            assert(all.take(i + 1).last() == config@);
            let ghost sofar = step::acts(steps@);
            add_step(&mut steps, Step::TrySend(config.copy(), msg.copy()));
            add_step(&mut steps, Step::Discard(config.copy()));
            assert(step::acts(steps@) =~= sofar + seq![
                Act::TrySend(config@, msg@),
                Act::Discard(config@),
            ]);
            i += 1;
        }
        assert(all.take(i as int) =~= all);
        let id = match member(msg, "id") {
            Some(id) => id,
            None => Json::Null,
        };
        add_step(&mut steps, Step::Write(null_reply(id)));
        steps
    }

    /// Notices what a message says about its document, and asks where that lies.
    fn open_document(&mut self, msg: Json, method: &str) -> (reaction: Reaction)
        requires
            method_of(msg@) == Some(method@),
            about_document(msg@),
        ensures
            (final(self)@, reaction@) == document_reaction(old(self)@, msg@),
    {
        let ghost before = self@;
        let opens = same_text(method, "textDocument/didOpen");
        let closes = same_text(method, "textDocument/didClose");
        if opens {
            if let Some(uri) = extract_uri(&msg) {
                if let Some(language) = extract_language(&msg) {
                    assoc::insert(&mut self.uri_languages, uri.as_str(), language);
                }
            }
        }
        let ghost after = self@;
        assert(after == noticed(before, msg@));
        let id = member(&msg, "id");
        let own_uri = extract_uri(&msg);
        let ghost original = msg@;
        let mut sent = msg;
        if self.config.lsp_rewrite_uris {
            apply_uri_rewrite(&mut sent, &self.uri_languages);
        }
        assert(sent@ == routed(after, original));
        proof {
            if let Some(new_uri) = message::new_uri_of(original, after.languages) {
                message::law_only_the_uri_changes(original, new_uri);
            }
        }
        match extract_uri(&sent) {
            Some(uri) => {
                if opens {
                    assoc::insert(&mut self.open_docs, uri.as_str(), sent.copy());
                } else if closes {
                    if let Some(own) = own_uri {
                        assoc::remove(&mut self.uri_languages, own.as_str());
                    }
                    assoc::remove(&mut self.open_docs, uri.as_str());
                }
                let path = uri_to_path(uri.as_str());
                let dir = parent(path.as_str());
                Reaction::Locate(DocumentRequest { msg: sent, id, path, dir })
            },
            None => {
                let steps: Vec<Step> = Vec::new();
                assert(step::acts(steps@) =~= Seq::empty());
                Reaction::Run(steps)
            },
        }
    }

    /// What a document asks for, given the profile that its path picks, where
    /// one matches, and the local config that governs it.
    pub fn place(
        &mut self,
        request: DocumentRequest,
        profile: Option<ProfileResolution>,
        local: Option<String>,
    ) -> (placement: Placement)
        ensures
            (final(self)@, placement@) == placing(
                old(self)@,
                request@,
                config::resolution_option(profile),
                text::text_option(local),
            ),
    {
        let profile = match profile {
            Some(ProfileResolution::Config(profile)) => profile,
            _ => {
                let mut steps: Vec<Step> = Vec::new();
                assert(step::acts(steps@) =~= Seq::empty());
                if let Some(id) = request.id {
                    let ghost reply = message::null_reply_of(id@);
                    add_step(&mut steps, Step::Write(null_reply(id)));
                    assert(step::acts(steps@) =~= seq![Act::Write(reply)]);
                }
                return Placement::Run(steps);
            },
        };
        match local_dir_of(&request, &profile, &local) {
            None => Placement::Run(self.serve(request, profile, None)),
            Some(dir) => match find_merged(&self.started.merged, dir.as_str()) {
                Some(config) => {
                    proof {
                        use_type_invariant(&self.started);
                        merged_configs_are_held(self@.merged, dir@);
                    }
                    Placement::Run(self.serve(request, config, Some(dir)))
                },
                None => Placement::Merge(MergeRequest { request, profile, local_dir: dir }),
            },
        }
    }

    /// What a document asks for, once its merged config was built, or could not
    /// be.
    pub fn merged(&mut self, merge: MergeRequest, built: Option<FilePath>) -> (steps: Vec<Step>)
        requires
            servable(
                old(self)@,
                match built {
                    Some(config) => config@,
                    None => merge.profile@,
                },
                true,
            ),
        ensures
            (final(self)@, step::acts(steps@)) == merging(
                old(self)@,
                merge.request@,
                merge.profile@,
                merge.local_dir@,
                file_path::path_option(built),
            ),
    {
        let MergeRequest { request, profile, local_dir } = merge;
        match built {
            Some(config) => {
                let ghost before = self@;
                let dir = copy_of(local_dir.as_str());
                let name = config.copy();
                let steps = self.serve(request, config, Some(local_dir));
                proof {
                    adding_keeps_known(before.backends, name@);
                }
                self.started.keep(dir, name);
                steps
            },
            None => self.serve(request, profile, Some(local_dir)),
        }
    }

    /// Whether the backend of a config can be told of a root.
    pub fn is_servable(&self, config: &FilePath, rooted: bool) -> (yes: bool)
        ensures
            yes == servable(self@, config@, rooted),
    {
        if !rooted || is_listed(self.started.configs.as_slice(), config) {
            return true;
        }
        match &self.init_params {
            Some(params) => match params {
                Json::Object(_) => true,
                Json::Null => true,
                _ => false,
            },
            None => true,
        }
    }

    /// Hands a message to the backend of a config, which is started first where
    /// it has none.
    fn serve(&mut self, request: DocumentRequest, config: FilePath, root: Option<String>) -> (steps:
        Vec<Step>)
        requires
            servable(old(self)@, config@, root is Some),
        ensures
            (final(self)@, step::acts(steps@)) == serving(
                old(self)@,
                request@,
                config@,
                text::text_option(root),
            ),
    {
        let mut steps: Vec<Step> = Vec::new();
        assert(step::acts(steps@) =~= Seq::empty());
        if !is_listed(self.started.configs.as_slice(), &config) {
            self.greet(&mut steps, &config, root);
        }
        self.started.add(&config);
        add_step(&mut steps, Step::Send(config.copy(), request.msg));
        if let Some(id) = request.id {
            let fallback = null_reply(id.copy());
            add_step(&mut steps, Step::Relay { config, id: Some(id), fallback });
        }
        steps
    }

    /// Starts a backend and introduces it.
    fn greet(&self, steps: &mut Vec<Step>, config: &FilePath, root: Option<String>)
        requires
            step::acts(old(steps)@).len() == 0,
            root is Some ==> match self@.init_params {
                Some(params) => params.takes_members(),
                None => true,
            },
        ensures
            step::acts(final(steps)@) == seq![Act::Spawn(config@)] + greeting_acts(
                self@,
                config@,
                text::text_option(root),
            ),
    {
        add_step(steps, Step::Spawn(config.copy()));
        assert(step::acts(steps@) =~= seq![Act::Spawn(config@)]);
        if let Some(init_params) = &self.init_params {
            let mut params = init_params.copy();
            if let Some(root) = &root {
                set_root(&mut params, root.as_str());
            }
            let ghost request = message::initialize_of(Tree::Number("1"@), params@);
            proof {
                reveal_strlit("1");
                assert(text::digits_of(1) =~= "1"@);
            }
            add_step(
                steps,
                Step::TrySend(
                    config.copy(),
                    initialize_request(number(1), params),
                ),
            );
            add_step(steps, Step::Discard(config.copy()));
            add_step(steps, Step::TrySend(config.copy(), initialized_notification()));
            let ghost greeted = step::acts(steps@);
            assert(greeted =~= seq![Act::Spawn(config@)] + seq![
                Act::TrySend(config@, request),
                Act::Discard(config@),
                Act::TrySend(config@, message::initialized_of()),
            ]);
            let ghost docs = self@.open_docs.map_values(
                |doc: (Seq<char>, Tree)| Act::TrySend(config@, doc.1),
            );
            let mut i: usize = 0;
            assert(step::acts(steps@) =~= greeted + docs.take(0));
            while i < self.open_docs.len()
                invariant
                    i <= self.open_docs@.len(),
                    docs == self@.open_docs.map_values(
                        |doc: (Seq<char>, Tree)| Act::TrySend(config@, doc.1),
                    ),
                    step::acts(steps@) == greeted + docs.take(i as int),
                decreases self.open_docs@.len() - i,
            {
                let doc = self.open_docs[i].1.copy();
                assert(docs[i as int] == Act::TrySend(config@, doc@));
                add_step(steps, Step::TrySend(config.copy(), doc));
                assert(step::acts(steps@) =~= greeted + docs.take(i + 1));
                i += 1;
            }
            assert(docs.take(i as int) =~= docs);
            assert(step::acts(steps@) =~= seq![Act::Spawn(config@)] + greeting_acts(
                self@,
                config@,
                text::text_option(root),
            ));
        } else {
            assert(step::acts(steps@) =~= seq![Act::Spawn(config@)] + Seq::<Act>::empty());
        }
    }

    /// The dprint program.
    pub fn dprint_bin(&self) -> (bin: &FilePath)
        ensures
            bin@ == self@.dprint_bin,
    {
        &self.dprint_bin
    }

    /// The configuration.
    pub fn config(&self) -> (config: &DprintxConfig)
        ensures
            *config == self@.config,
    {
        &self.config
    }

    /// How long to wait for a backend, in milliseconds.
    pub fn read_timeout(&self) -> (ms: u64)
        ensures
            ms == if self@.config.lsp_timeout_ms == 0 {
                30_000
            } else {
                self@.config.lsp_timeout_ms as int
            },
            ms == wait_of(self@.config),
    {
        if self.config.lsp_timeout_ms == 0 {
            30_000
        } else {
            self.config.lsp_timeout_ms
        }
    }

    /// The arguments that start the backend of a config, as bytes. `supported`
    /// says that the backend takes `--no-gitignore`.
    pub fn backend_args(&self, config_path: &FilePath, supported: bool) -> (args: Vec<Vec<u8>>)
        ensures
            byte_lists(args@) == if self@.config.lsp_no_gitignore && supported {
                seq![
                    encode_utf8("lsp"@),
                    encode_utf8("--no-gitignore"@),
                    encode_utf8("--config"@),
                    config_path@,
                ]
            } else {
                seq![encode_utf8("lsp"@), encode_utf8("--config"@), config_path@]
            },
            byte_lists(args@) == backend_command(self@.config, config_path@, supported),
    {
        let first = FilePath::from_text("lsp").into_bytes();
        let name = FilePath::from_text("--config").into_bytes();
        let path = config_path.copy().into_bytes();
        if self.config.lsp_no_gitignore && supported {
            let flag = FilePath::from_text("--no-gitignore").into_bytes();
            let args = vec![first, flag, name, path];
            assert(byte_lists(args@) =~= seq![
                encode_utf8("lsp"@),
                encode_utf8("--no-gitignore"@),
                encode_utf8("--config"@),
                config_path@,
            ]);
            args
        } else {
            let args = vec![first, name, path];
            assert(byte_lists(args@) =~= seq![
                encode_utf8("lsp"@),
                encode_utf8("--config"@),
                config_path@,
            ]);
            args
        }
    }
}

/// How long to wait for a backend, in milliseconds.
pub open spec fn wait_of(config: DprintxConfig) -> int {
    if config.lsp_timeout_ms == 0 {
        30_000
    } else {
        config.lsp_timeout_ms as int
    }
}

/// The arguments that start the backend of a config.
pub open spec fn backend_command(
    config: DprintxConfig,
    config_path: Seq<u8>,
    supported: bool,
) -> Seq<Seq<u8>> {
    if config.lsp_no_gitignore && supported {
        seq![
            encode_utf8("lsp"@),
            encode_utf8("--no-gitignore"@),
            encode_utf8("--config"@),
            config_path,
        ]
    } else {
        seq![encode_utf8("lsp"@), encode_utf8("--config"@), config_path]
    }
}

/// Whether a help text on two streams names `--no-gitignore`.
pub open spec fn offers_no_gitignore(stdout: Seq<char>, stderr: Seq<char>) -> bool {
    text::holds(stdout + stderr, "--no-gitignore"@)
}

/// What a list of byte strings holds.
pub open spec fn byte_lists(list: Seq<Vec<u8>>) -> Seq<Seq<u8>> {
    list.map_values(|bytes: Vec<u8>| bytes@)
}

/// The directory whose local config is to be merged with the profile.
fn local_dir_of(request: &DocumentRequest, profile: &FilePath, local: &Option<String>) -> (dir: Option<
    String,
>)
    ensures
        text::text_option(dir) == merge_dir(request@, profile@, text::text_option(*local)),
{
    match (&request.dir, local) {
        (Some(dir), Some(local)) => if FilePath::from_text(local.as_str()).is_same(
            profile,
        ) {
            None
        } else {
            match parent(local.as_str()) {
                Some(local_dir) => Some(local_dir),
                None => Some(copy_of(dir.as_str())),
            }
        },
        _ => None,
    }
}

/// Whether a backend understands `lsp --no-gitignore`, by what its `lsp --help`
/// prints on both streams. Older dprint versions reject the flag outright.
pub fn backend_takes_no_gitignore(stdout: &str, stderr: &str) -> (yes: bool)
    ensures
        yes == text::holds(stdout@ + stderr@, "--no-gitignore"@),
        yes == offers_no_gitignore(stdout@, stderr@),
{
    let mut help = copy_of(stdout);
    help.append(stderr);
    contains(help.as_str(), "--no-gitignore")
}

/// What a proxy knows before the first message.
pub open spec fn idle(
    dprint_bin: Seq<u8>,
    config: DprintxConfig,
    home: Option<Seq<u8>>,
) -> Proxy {
    Proxy {
        dprint_bin,
        config,
        home,
        backends: Seq::empty(),
        init_params: None,
        merged: Seq::empty(),
        languages: Seq::empty(),
        open_docs: Seq::empty(),
    }
}

} // verus!
