//! What holds of the language server proxy, whatever the editor and the backends
//! send.

use vstd::prelude::*;
use vstd::utf8::*;

use crate::assoc;
use crate::config::{self, DprintxConfig, Resolution};
use crate::file_path;
use crate::json::{self, Json, Tree};
use crate::message;
use crate::path;
use crate::proxy::{self, Place, Proxy, Reply, Request};
use crate::step::{self, Act};
use crate::text;
use crate::uri;

verus! {

/// A request about a document that no profile matches, or whose profile says to
/// ignore it, is answered with null, and nothing else happens.
pub proof fn law_unmatched_requests_get_null(
    p: Proxy,
    request: Request,
    profile: Option<Resolution>,
    local: Option<Seq<char>>,
    id: Tree,
)
    requires
        request.id == Some(id),
        !(profile is Some && profile->Some_0 is Config),
    ensures
        proxy::placing(p, request, profile, local) == (
            p,
            Place::Run(seq![Act::Write(message::null_reply_of(id))]),
        ),
        message::null_reply_of(id).get("id"@) == Some(id),
        message::null_reply_of(id).get("result"@) == Some(Tree::Null),
{
    reveal_strlit("jsonrpc");
    reveal_strlit("id");
    reveal_strlit("result");
    let members = message::null_reply_of(id)->Object_0;
    assert("jsonrpc"@.len() == 7 && "id"@.len() == 2 && "result"@.len() == 6);
    assert(members[0].0 == "jsonrpc"@ && members[1].0 == "id"@ && members[2].0 == "result"@);
    assoc::first_is_position(members, "id"@, 1);
    assoc::first_is_position(members, "result"@, 2);
}

proof fn greeting_is_quiet(p: Proxy, config: Seq<u8>, root: Option<Seq<char>>)
    ensures
        forall|i: int|
            0 <= i < proxy::greeting_acts(p, config, root).len() ==> {
                &&& !step::starts(#[trigger] proxy::greeting_acts(p, config, root)[i])
                &&& !step::answers(proxy::greeting_acts(p, config, root)[i])
                &&& step::target(proxy::greeting_acts(p, config, root)[i]) == Some(config)
            },
{
}

/// A config gets one backend: the first message for it starts one, and no later
/// message does.
pub proof fn law_backends_start_once(
    p: Proxy,
    first: Request,
    second: Request,
    config: Seq<u8>,
    root: Option<Seq<char>>,
    later_root: Option<Seq<char>>,
)
    ensures
        ({
            let (after, steps) = proxy::serving(p, first, config, root);
            let (last, later) = proxy::serving(after, second, config, later_root);
            &&& file_path::listed(after.backends, config)
            &&& !file_path::listed(p.backends, config) ==> steps[0] == Act::Spawn(config)
            &&& forall|i: int| 0 < i < steps.len() ==> !step::starts(#[trigger] steps[i])
            &&& forall|i: int| 0 <= i < later.len() ==> !step::starts(#[trigger] later[i])
            &&& last == after
        }),
{
    greeting_is_quiet(p, config, root);
    let (after, steps) = proxy::serving(p, first, config, root);
    if !file_path::listed(p.backends, config) {
        assert(after.backends.last() == config);
        assert(file_path::components(after.backends[after.backends.len() - 1]) == file_path::components(
            config,
        ));
        let greeting = proxy::greeting_acts(p, config, root);
        assert forall|i: int| 0 < i < steps.len() implies !step::starts(#[trigger] steps[i]) by {
            if i < 1 + greeting.len() {
                assert(steps[i] == greeting[i - 1]);
            }
        }
    }
}

/// A request is answered once: the last of its steps waits for the reply to that
/// request and falls back on null, and no other step writes to the editor. A
/// notification is not answered.
pub proof fn law_requests_are_answered_once(
    p: Proxy,
    request: Request,
    config: Seq<u8>,
    root: Option<Seq<char>>,
)
    ensures
        ({
            let steps = proxy::serving(p, request, config, root).1;
            match request.id {
                Some(id) => {
                    &&& steps.len() > 0
                    &&& steps.last() == Act::Relay(
                        config,
                        Some(id),
                        message::null_reply_of(id),
                    )
                    &&& forall|i: int|
                        0 <= i < steps.len() - 1 ==> !step::answers(#[trigger] steps[i])
                },
                None => forall|i: int| 0 <= i < steps.len() ==> !step::answers(#[trigger] steps[i]),
            }
        }),
{
    greeting_is_quiet(p, config, root);
    let steps = proxy::serving(p, request, config, root).1;
    if !file_path::listed(p.backends, config) {
        let greeting = proxy::greeting_acts(p, config, root);
        assert forall|i: int| 0 <= i < 1 + greeting.len() implies !step::answers(
            #[trigger] steps[i],
        ) by {
            if i > 0 {
                assert(steps[i] == greeting[i - 1]);
            }
        }
    }
}

proof fn merged_is_found(
    merged: Seq<(Seq<char>, Seq<u8>)>,
    dir: Seq<char>,
    config: Seq<u8>,
    other: Seq<char>,
)
    requires
        proxy::merged_for(merged, dir) is None,
        path::components(other) == path::components(dir),
    ensures
        proxy::merged_for(merged.push((dir, config)), other) == Some(config),
    decreases merged.len(),
{
    let all = merged.push((dir, config));
    if merged.len() == 0 {
        assert(all[0] == (dir, config));
    } else {
        assert(all[0] == merged[0]);
        assert(all.skip(1) =~= merged.skip(1).push((dir, config)));
        merged_is_found(merged.skip(1), dir, config, other);
    }
}

/// A merged config is built once per directory: a later document of the same
/// directory is served by the one that was built.
pub proof fn law_merged_configs_are_reused(
    p: Proxy,
    first: Request,
    profile: Seq<u8>,
    dir: Seq<char>,
    config: Seq<u8>,
    second: Request,
    later_profile: Seq<u8>,
    local: Option<Seq<char>>,
)
    requires
        proxy::merged_for(p.merged, dir) is None,
        proxy::merge_dir(second, later_profile, local) is Some,
        path::components(proxy::merge_dir(second, later_profile, local)->Some_0)
            == path::components(dir),
    ensures
        ({
            let after = proxy::merging(p, first, profile, dir, Some(config)).0;
            let (last, place) = proxy::placing(
                after,
                second,
                Some(Resolution::Config(later_profile)),
                local,
            );
            let (served, steps) = proxy::serving(
                after,
                second,
                config,
                proxy::merge_dir(second, later_profile, local),
            );
            &&& place == Place::Run(steps)
            &&& last == served
            &&& forall|i: int| 0 <= i < steps.len() ==> !step::starts(#[trigger] steps[i])
        }),
{
    let other = proxy::merge_dir(second, later_profile, local)->Some_0;
    merged_is_found(p.merged, dir, config, other);
    let with = Proxy { merged: p.merged.push((dir, config)), ..p };
    law_backends_start_once(with, first, second, config, Some(dir), Some(other));
}

/// Without URI rewriting, a message goes to its backend as the editor sent it.
pub proof fn law_messages_pass_through(p: Proxy, msg: Tree)
    requires
        !p.config.lsp_rewrite_uris,
        proxy::about_document(msg),
        proxy::method_of(msg) != Some("initialize"@),
        proxy::method_of(msg) != Some("initialized"@),
        proxy::method_of(msg) != Some("shutdown"@),
        proxy::method_of(msg) != Some("exit"@),
    ensures
        match message::uri_of(msg) {
            Some(uri) => {
                &&& proxy::reaction_to(p, msg).1 is Locate
                &&& proxy::reaction_to(p, msg).1->Locate_0.msg == msg
                &&& proxy::reaction_to(p, msg).1->Locate_0.path == uri::path_of_uri(uri)
                &&& proxy::reaction_to(p, msg).1->Locate_0.id == msg.get("id"@)
            },
            None => proxy::reaction_to(p, msg).1 == Reply::Run(Seq::empty()),
        },
{
}

/// A backend that starts late is told of every document that is open, before
/// the message that it was started for.
pub proof fn law_late_backends_learn_open_documents(
    p: Proxy,
    request: Request,
    config: Seq<u8>,
    root: Option<Seq<char>>,
    doc: int,
)
    requires
        !file_path::listed(p.backends, config),
        p.init_params is Some,
        0 <= doc < p.open_docs.len(),
    ensures
        ({
            let steps = proxy::serving(p, request, config, root).1;
            &&& steps[4 + doc] == Act::TrySend(config, p.open_docs[doc].1)
            &&& steps[4 + p.open_docs.len() as int] == Act::Send(config, request.msg)
        }),
{
    let greeting = proxy::greeting_acts(p, config, root);
    let steps = proxy::serving(p, request, config, root).1;
    assert(steps[4 + doc] == greeting[3 + doc]);
}

/// Whether no two configs of a list are the same path.
pub open spec fn apart(list: Seq<Seq<u8>>) -> bool {
    forall|i: int, j: int|
        0 <= i < j < list.len() ==> file_path::components(#[trigger] list[i]) != file_path::components(
            #[trigger] list[j],
        )
}

/// What the proxy keeps is consistent: no document is kept twice, no config has
/// two backends, and every merged config has one.
pub open spec fn consistent(p: Proxy) -> bool {
    &&& assoc::distinct(p.languages)
    &&& assoc::distinct(p.open_docs)
    &&& apart(p.backends)
    &&& proxy::grounded(p)
}

proof fn backend_stays_apart(list: Seq<Seq<u8>>, config: Seq<u8>)
    requires
        apart(list),
    ensures
        apart(proxy::with_backend(list, config)),
{
    let after = proxy::with_backend(list, config);
    assert forall|i: int, j: int| 0 <= i < j < after.len() implies file_path::components(
        #[trigger] after[i],
    ) != file_path::components(#[trigger] after[j]) by {
        if j == list.len() {
            assert(after[i] == list[i]);
            assert(!file_path::listed(list, config));
        }
    }
}

proof fn backends_stay_apart(list: Seq<Seq<u8>>, configs: Seq<Seq<u8>>)
    requires
        apart(list),
    ensures
        apart(proxy::with_backends(list, configs)),
    decreases configs.len(),
{
    if configs.len() > 0 {
        backends_stay_apart(list, configs.drop_last());
        backend_stays_apart(proxy::with_backends(list, configs.drop_last()), configs.last());
    }
}

proof fn start_configs_are_apart(
    config: DprintxConfig,
    home: Option<Seq<u8>>,
    profiles: Seq<Seq<char>>,
)
    ensures
        apart(proxy::configs_of(config, home, profiles)),
    decreases profiles.len(),
{
    if profiles.len() > 0 {
        start_configs_are_apart(config, home, profiles.drop_last());
        if let Some(Resolution::Config(path)) = config::profile_of(config, profiles.last(), home) {
            backend_stays_apart(proxy::configs_of(config, home, profiles.drop_last()), path);
        }
    }
}

proof fn start_acts_come_in_threes(configs: Seq<Seq<u8>>, request: Tree)
    ensures
        proxy::start_acts(configs, request).len() == 3 * configs.len(),
        forall|k: int|
            0 <= k < configs.len() ==> {
                &&& proxy::start_acts(configs, request)[3 * k] == Act::Spawn(#[trigger] configs[k])
                &&& proxy::start_acts(configs, request)[3 * k + 1] == Act::Send(configs[k], request)
                &&& proxy::start_acts(configs, request)[3 * k + 2] == Act::Collect(configs[k])
            },
    decreases configs.len(),
{
    if configs.len() > 0 {
        let shorter = configs.drop_last();
        start_acts_come_in_threes(shorter, request);
        let earlier = proxy::start_acts(shorter, request);
        let steps = proxy::start_acts(configs, request);
        assert forall|k: int| 0 <= k < configs.len() implies {
            &&& steps[3 * k] == Act::Spawn(#[trigger] configs[k])
            &&& steps[3 * k + 1] == Act::Send(configs[k], request)
            &&& steps[3 * k + 2] == Act::Collect(configs[k])
        } by {
            if k < shorter.len() {
                assert(configs[k] == shorter[k]);
                assert(steps[3 * k] == earlier[3 * k]);
                assert(steps[3 * k + 1] == earlier[3 * k + 1]);
                assert(steps[3 * k + 2] == earlier[3 * k + 2]);
            }
        }
    }
}

/// On `initialize` each config gets one backend, which is sent the request once
/// and waited for once: no two of the configs are the same path.
pub proof fn law_initialize_starts_each_config_once(p: Proxy, msg: Tree)
    requires
        proxy::method_of(msg) == Some("initialize"@),
    ensures
        ({
            let configs = proxy::start_configs(p);
            let request = message::initialize_of(
                proxy::or_null(msg.get("id"@)),
                proxy::or_empty(msg.get("params"@)),
            );
            let reply = proxy::reaction_to(p, msg).1;
            &&& apart(configs)
            &&& reply is Run
            &&& reply->Run_0.len() == 3 * configs.len() + 1
            &&& reply->Run_0.last() == Act::WriteCollected
            &&& forall|k: int|
                0 <= k < configs.len() ==> {
                    &&& reply->Run_0[3 * k] == Act::Spawn(#[trigger] configs[k])
                    &&& reply->Run_0[3 * k + 1] == Act::Send(configs[k], request)
                    &&& reply->Run_0[3 * k + 2] == Act::Collect(configs[k])
                }
        }),
{
    let request = message::initialize_of(
        proxy::or_null(msg.get("id"@)),
        proxy::or_empty(msg.get("params"@)),
    );
    let rules = config::rules_of(assoc::entries(p.config.match_rules@));
    start_configs_are_apart(p.config, p.home, proxy::profiles_of(rules));
    start_acts_come_in_threes(proxy::start_configs(p), request);
}

/// Every profile that a rule names and that has a config file gets a backend on
/// `initialize`.
pub proof fn law_every_profile_is_started(p: Proxy, rule: int, path: Seq<u8>)
    requires
        0 <= rule < config::rules_of(assoc::entries(p.config.match_rules@)).len(),
        config::profile_of(
            p.config,
            config::rules_of(assoc::entries(p.config.match_rules@))[rule].1,
            p.home,
        ) == Some(Resolution::Config(path)),
    ensures
        file_path::listed(proxy::start_configs(p), path),
{
    let rules = config::rules_of(assoc::entries(p.config.match_rules@));
    rules_name_their_profiles(rules, rule);
    let profiles = proxy::profiles_of(rules);
    let k = choose|k: int| 0 <= k < profiles.len() && profiles[k] == rules[rule].1;
    named_configs_are_listed(p.config, p.home, profiles, k, path);
}

proof fn rules_name_their_profiles(rules: Seq<(Seq<char>, Seq<char>)>, rule: int)
    requires
        0 <= rule < rules.len(),
    ensures
        proxy::profiles_of(rules).contains(rules[rule].1),
    decreases rules.len(),
{
    let before = proxy::profiles_of(rules.drop_last());
    let all = proxy::profiles_of(rules);
    if rule < rules.len() - 1 {
        rules_name_their_profiles(rules.drop_last(), rule);
        let k = choose|k: int| 0 <= k < before.len() && before[k] == rules[rule].1;
        assert(all[k] == rules[rule].1);
    } else if !before.contains(rules.last().1) {
        assert(all[before.len() as int] == rules[rule].1);
    }
}

proof fn named_configs_are_listed(
    config: DprintxConfig,
    home: Option<Seq<u8>>,
    profiles: Seq<Seq<char>>,
    k: int,
    path: Seq<u8>,
)
    requires
        0 <= k < profiles.len(),
        config::profile_of(config, profiles[k], home) == Some(Resolution::Config(path)),
    ensures
        file_path::listed(proxy::configs_of(config, home, profiles), path),
    decreases profiles.len(),
{
    let before = proxy::configs_of(config, home, profiles.drop_last());
    if k < profiles.len() - 1 {
        named_configs_are_listed(config, home, profiles.drop_last(), k, path);
        if let Some(Resolution::Config(last)) = config::profile_of(config, profiles.last(), home) {
            proxy::adding_keeps_known(before, last);
        }
    } else {
        proxy::adding_keeps_known(before, path);
    }
}

/// Whether no two steps of a list start backends of the same config.
pub open spec fn starts_apart(steps: Seq<Act>) -> bool {
    forall|i: int, j: int|
        0 <= i < j < steps.len() && step::starts(#[trigger] steps[i]) && step::starts(
            #[trigger] steps[j],
        ) ==> file_path::components(steps[i]->Spawn_0) != file_path::components(steps[j]->Spawn_0)
}

/// No message starts two backends of one config.
pub proof fn law_messages_start_each_config_once(p: Proxy, msg: Tree)
    ensures
        match proxy::reaction_to(p, msg).1 {
            Reply::Run(steps) => starts_apart(steps),
            Reply::Stop(steps) => starts_apart(steps),
            Reply::Locate(_) => true,
        },
{
    if proxy::method_of(msg) == Some("initialize"@) {
        law_initialize_starts_each_config_once(p, msg);
        let configs = proxy::start_configs(p);
        let steps = proxy::reaction_to(p, msg).1->Run_0;
        assert forall|i: int| 0 <= i < steps.len() && step::starts(#[trigger] steps[i]) implies i % 3
            == 0 && i / 3 < configs.len() && steps[i] == Act::Spawn(configs[i / 3]) by {
            if i < 3 * configs.len() {
                let c = configs[i / 3];
                assert(i == 3 * (i / 3) || i == 3 * (i / 3) + 1 || i == 3 * (i / 3) + 2);
            }
        }
        assert forall|i: int, j: int|
            0 <= i < j < steps.len() && step::starts(#[trigger] steps[i]) && step::starts(
                #[trigger] steps[j],
            ) implies file_path::components(steps[i]->Spawn_0) != file_path::components(
            steps[j]->Spawn_0,
        ) by {
            assert(i / 3 < j / 3);
            assert(file_path::components(configs[i / 3]) != file_path::components(configs[j / 3]));
        }
    } else {
        shutdown_starts_nothing(p.backends, msg);
    }
}

proof fn shutdown_starts_nothing(backends: Seq<Seq<u8>>, msg: Tree)
    ensures
        forall|i: int|
            0 <= i < proxy::shutdown_acts(backends, msg).len() ==> !step::starts(
                #[trigger] proxy::shutdown_acts(backends, msg)[i],
            ),
    decreases backends.len(),
{
    if backends.len() > 0 {
        shutdown_starts_nothing(backends.drop_last(), msg);
        let earlier = proxy::shutdown_acts(backends.drop_last(), msg);
        let steps = proxy::shutdown_acts(backends, msg);
        assert forall|i: int| 0 <= i < steps.len() implies !step::starts(#[trigger] steps[i]) by {
            if i < earlier.len() {
                assert(steps[i] == earlier[i]);
            }
        }
    }
}

proof fn known_configs_add_nothing(list: Seq<Seq<u8>>, configs: Seq<Seq<u8>>)
    requires
        forall|k: int| 0 <= k < configs.len() ==> file_path::listed(list, #[trigger] configs[k]),
    ensures
        proxy::with_backends(list, configs) == list,
    decreases configs.len(),
{
    if configs.len() > 0 {
        let shorter = configs.drop_last();
        assert forall|k: int| 0 <= k < shorter.len() implies file_path::listed(
            list,
            #[trigger] shorter[k],
        ) by {
            assert(configs[k] == shorter[k]);
        }
        known_configs_add_nothing(list, shorter);
        assert(file_path::listed(list, configs[configs.len() - 1]));
    }
}

/// A second `initialize` starts a backend for the same configs again, in the
/// place of those that the first one started: no config comes to have two.
pub proof fn law_initializing_again_replaces_backends(p: Proxy, first: Tree, second: Tree)
    requires
        proxy::method_of(first) == Some("initialize"@),
        proxy::method_of(second) == Some("initialize"@),
    ensures
        ({
            let once = proxy::reaction_to(p, first).0;
            let twice = proxy::reaction_to(once, second).0;
            &&& proxy::start_configs(once) == proxy::start_configs(p)
            &&& twice.backends == once.backends
        }),
{
    let configs = proxy::start_configs(p);
    let once = proxy::reaction_to(p, first).0;
    let request = Tree::Null;
    steps_of_start_reach(p.backends, configs, request);
    start_acts_come_in_threes(configs, request);
    assert forall|k: int| 0 <= k < configs.len() implies file_path::listed(
        once.backends,
        #[trigger] configs[k],
    ) by {
        let steps = proxy::start_acts(configs, request);
        assert(step::target(steps[3 * k]) == Some(configs[k]));
    }
    known_configs_add_nothing(once.backends, configs);
}

/// A proxy starts out consistent.
pub proof fn law_new_proxies_are_consistent(
    dprint_bin: Seq<u8>,
    config: DprintxConfig,
    home: Option<Seq<u8>>,
)
    ensures
        consistent(proxy::idle(dprint_bin, config, home)),
{
}

/// A message from the editor keeps what the proxy knows consistent.
pub proof fn law_messages_keep_consistency(p: Proxy, msg: Tree)
    requires
        consistent(p),
    ensures
        consistent(proxy::reaction_to(p, msg).0),
{
    backends_stay_apart(p.backends, proxy::start_configs(p));
    steps_of_start_reach(p.backends, proxy::start_configs(p), Tree::Null);
    if let Some(uri) = message::uri_of(msg) {
        assoc::removed_is_gone(p.languages, uri);
        if let Some(language) = message::language_of(msg) {
            assoc::put_is_found(p.languages, uri, language);
        }
    }
    let after = proxy::noticed(p, msg);
    let sent = proxy::routed(after, msg);
    assert(consistent(after));
    if let Some(uri) = message::uri_of(sent) {
        assoc::put_is_found(after.open_docs, uri, sent);
        assoc::removed_is_gone(after.open_docs, uri);
    }
    assert(consistent(proxy::kept(after, msg, sent)));
    assert(consistent(proxy::document_reaction(p, msg).0));
}

/// So does handing a message to a backend.
pub proof fn law_serving_keeps_consistency(
    p: Proxy,
    request: Request,
    config: Seq<u8>,
    root: Option<Seq<char>>,
)
    requires
        consistent(p),
    ensures
        consistent(proxy::serving(p, request, config, root).0),
{
    backend_stays_apart(p.backends, config);
    proxy::adding_keeps_known(p.backends, config);
}

/// So does placing a document.
pub proof fn law_placing_keeps_consistency(
    p: Proxy,
    request: Request,
    profile: Option<Resolution>,
    local: Option<Seq<char>>,
)
    requires
        consistent(p),
    ensures
        consistent(proxy::placing(p, request, profile, local).0),
{
    if let Some(Resolution::Config(profile)) = profile {
        match proxy::merge_dir(request, profile, local) {
            None => {
                law_serving_keeps_consistency(p, request, profile, None);
            },
            Some(dir) => {
                if let Some(config) = proxy::merged_for(p.merged, dir) {
                    law_serving_keeps_consistency(p, request, config, Some(dir));
                }
            },
        }
    }
}

/// So does serving a document by a config that was merged for it.
pub proof fn law_merging_keeps_consistency(
    p: Proxy,
    request: Request,
    profile: Seq<u8>,
    dir: Seq<char>,
    built: Option<Seq<u8>>,
)
    requires
        consistent(p),
    ensures
        consistent(proxy::merging(p, request, profile, dir, built).0),
{
    match built {
        Some(config) => {
            backend_stays_apart(p.backends, config);
            proxy::adding_keeps_known(p.backends, config);
        },
        None => {
            law_serving_keeps_consistency(p, request, profile, Some(dir));
        },
    }
}

/// A document that was opened is kept under the URI that goes to backends, with
/// the language that the editor gave it.
pub proof fn law_opened_documents_are_kept(p: Proxy, msg: Tree)
    requires
        proxy::method_of(msg) == Some("textDocument/didOpen"@),
        message::uri_of(msg) is Some,
    ensures
        ({
            let after = proxy::reaction_to(p, msg).0;
            let sent = proxy::routed(proxy::noticed(p, msg), msg);
            &&& message::uri_of(sent) is Some
            &&& assoc::lookup(after.open_docs, message::uri_of(sent)->Some_0) == Some(sent)
            &&& message::language_of(msg) matches Some(language) ==> assoc::lookup(
                after.languages,
                message::uri_of(msg)->Some_0,
            ) == Some(language)
        }),
{
    document_methods_are_routed();
    let uri = message::uri_of(msg)->Some_0;
    let noted = proxy::noticed(p, msg);
    let sent = proxy::routed(noted, msg);
    if let Some(language) = message::language_of(msg) {
        assoc::put_is_found(p.languages, uri, language);
    }
    if let Some(new_uri) = message::new_uri_of(msg, noted.languages) {
        message::law_only_the_uri_changes(msg, new_uri);
    }
    assoc::put_is_found(noted.open_docs, message::uri_of(sent)->Some_0, sent);
}

/// A document is closed as it was opened: the close carries the URI that the
/// open carried, and nothing is left of the document, neither its language nor
/// an open document under that URI.
pub proof fn law_closes_match_their_opens(p: Proxy, open: Tree, later: Proxy, close: Tree)
    requires
        proxy::method_of(open) == Some("textDocument/didOpen"@),
        proxy::method_of(close) == Some("textDocument/didClose"@),
        message::uri_of(open) is Some,
        message::uri_of(close) == message::uri_of(open),
        consistent(later),
        later.config.lsp_rewrite_uris == p.config.lsp_rewrite_uris,
        assoc::lookup(later.languages, message::uri_of(open)->Some_0) == assoc::lookup(
            proxy::reaction_to(p, open).0.languages,
            message::uri_of(open)->Some_0,
        ),
    ensures
        ({
            let opened = proxy::reaction_to(p, open).1;
            let (after, closed) = proxy::reaction_to(later, close);
            &&& opened is Locate
            &&& closed is Locate
            &&& message::uri_of(closed->Locate_0.msg) is Some
            &&& message::uri_of(closed->Locate_0.msg) == message::uri_of(opened->Locate_0.msg)
            &&& assoc::lookup(
                after.open_docs,
                message::uri_of(closed->Locate_0.msg)->Some_0,
            ) is None
            &&& assoc::lookup(after.languages, message::uri_of(close)->Some_0) is None
        }),
{
    document_methods_are_routed();
    reveal_strlit("textDocument/didOpen");
    reveal_strlit("textDocument/didClose");
    assert("textDocument/didOpen"@.len() == 20 && "textDocument/didClose"@.len() == 21);
    let noted = proxy::noticed(p, open);
    assert(proxy::reaction_to(p, open).0.languages == noted.languages);
    if let Some(new_uri) = message::new_uri_of(open, noted.languages) {
        message::law_only_the_uri_changes(open, new_uri);
        message::law_only_the_uri_changes(close, new_uri);
    }
    let sent = proxy::routed(later, close);
    let uri = message::uri_of(sent)->Some_0;
    assoc::removed_is_gone(later.languages, message::uri_of(close)->Some_0);
    assoc::removed_is_gone(later.open_docs, uri);
}

/// A document keeps its language until it is opened anew or closed, whatever
/// else the editor sends.
pub proof fn law_languages_last(p: Proxy, msg: Tree, uri: Seq<char>)
    requires
        consistent(p),
        message::uri_of(msg) == Some(uri) ==> {
            &&& proxy::method_of(msg) != Some("textDocument/didOpen"@)
            &&& proxy::method_of(msg) != Some("textDocument/didClose"@)
        },
    ensures
        proxy::reaction_to(p, msg).0.config == p.config,
        assoc::lookup(proxy::reaction_to(p, msg).0.languages, uri) == assoc::lookup(
            p.languages,
            uri,
        ),
{
    if let Some(other) = message::uri_of(msg) {
        assoc::removed_is_gone(p.languages, other);
        if let Some(language) = message::language_of(msg) {
            assoc::put_is_found(p.languages, other, language);
        }
    }
}

/// So it does while documents are placed and served.
pub proof fn law_serving_keeps_languages(
    p: Proxy,
    request: Request,
    profile: Option<Resolution>,
    local: Option<Seq<char>>,
    base: Seq<u8>,
    dir: Seq<char>,
    built: Option<Seq<u8>>,
)
    ensures
        proxy::placing(p, request, profile, local).0.languages == p.languages,
        proxy::placing(p, request, profile, local).0.config == p.config,
        proxy::merging(p, request, base, dir, built).0.languages == p.languages,
        proxy::merging(p, request, base, dir, built).0.config == p.config,
{
}

proof fn document_methods_are_routed()
    ensures
        "textDocument/"@.is_prefix_of("textDocument/didOpen"@),
        "textDocument/"@.is_prefix_of("textDocument/didClose"@),
        "textDocument/didOpen"@ != "initialize"@,
        "textDocument/didOpen"@ != "initialized"@,
        "textDocument/didOpen"@ != "shutdown"@,
        "textDocument/didOpen"@ != "exit"@,
        "textDocument/didClose"@ != "initialize"@,
        "textDocument/didClose"@ != "initialized"@,
        "textDocument/didClose"@ != "shutdown"@,
        "textDocument/didClose"@ != "exit"@,
{
    reveal_strlit("textDocument/");
    reveal_strlit("textDocument/didOpen");
    reveal_strlit("textDocument/didClose");
    reveal_strlit("initialize");
    reveal_strlit("initialized");
    reveal_strlit("shutdown");
    reveal_strlit("exit");
    assert("textDocument/"@ =~= "textDocument/didOpen"@.subrange(0, 13));
    assert("textDocument/"@ =~= "textDocument/didClose"@.subrange(0, 13));
    assert("textDocument/didOpen"@.len() == 20 && "textDocument/didClose"@.len() == 21);
    assert("initialize"@.len() == 10 && "initialized"@.len() == 11 && "shutdown"@.len() == 8
        && "exit"@.len() == 4);
}

proof fn steps_of_start_reach(list: Seq<Seq<u8>>, configs: Seq<Seq<u8>>, request: Tree)
    ensures
        forall|c: Seq<u8>|
            file_path::listed(list, c) ==> #[trigger] file_path::listed(
                proxy::with_backends(list, configs),
                c,
            ),
        forall|i: int|
            0 <= i < proxy::start_acts(configs, request).len() ==> {
                &&& step::target(#[trigger] proxy::start_acts(configs, request)[i]) is Some
                &&& file_path::listed(
                    proxy::with_backends(list, configs),
                    step::target(proxy::start_acts(configs, request)[i])->Some_0,
                )
            },
    decreases configs.len(),
{
    if configs.len() > 0 {
        let shorter = configs.drop_last();
        steps_of_start_reach(list, shorter, request);
        let before = proxy::with_backends(list, shorter);
        let after = proxy::with_backends(list, configs);
        let c = configs.last();
        proxy::adding_keeps_known(before, c);
        let steps = proxy::start_acts(configs, request);
        let earlier = proxy::start_acts(shorter, request);
        assert forall|i: int| 0 <= i < steps.len() implies {
            &&& step::target(#[trigger] steps[i]) is Some
            &&& file_path::listed(after, step::target(steps[i])->Some_0)
        } by {
            if i < earlier.len() {
                assert(steps[i] == earlier[i]);
            } else {
                assert(step::target(steps[i]) == Some(c));
            }
        }
    }
}

proof fn steps_of_shutdown_reach(backends: Seq<Seq<u8>>, msg: Tree)
    ensures
        forall|i: int|
            0 <= i < proxy::shutdown_acts(backends, msg).len() ==> {
                &&& step::target(#[trigger] proxy::shutdown_acts(backends, msg)[i]) is Some
                &&& file_path::listed(
                    backends,
                    step::target(proxy::shutdown_acts(backends, msg)[i])->Some_0,
                )
            },
    decreases backends.len(),
{
    if backends.len() > 0 {
        let shorter = backends.drop_last();
        steps_of_shutdown_reach(shorter, msg);
        let steps = proxy::shutdown_acts(backends, msg);
        let earlier = proxy::shutdown_acts(shorter, msg);
        assert forall|i: int| 0 <= i < steps.len() implies {
            &&& step::target(#[trigger] steps[i]) is Some
            &&& file_path::listed(backends, step::target(steps[i])->Some_0)
        } by {
            if i < earlier.len() {
                assert(steps[i] == earlier[i]);
                let c = step::target(steps[i])->Some_0;
                let k = choose|k: int|
                    0 <= k < shorter.len() && file_path::components(#[trigger] shorter[k])
                        == file_path::components(c);
                assert(backends[k] == shorter[k]);
            } else {
                assert(step::target(steps[i]) == Some(backends[backends.len() - 1]));
            }
        }
    }
}

/// Whether every step speaks to a backend of the list.
pub open spec fn reach(steps: Seq<Act>, backends: Seq<Seq<u8>>) -> bool {
    forall|i: int|
        0 <= i < steps.len() ==> match step::target(#[trigger] steps[i]) {
            Some(config) => file_path::listed(backends, config),
            None => true,
        }
}

/// No message goes to a config without a backend: whatever a message from the
/// editor asks for, its steps speak to backends that the proxy knows.
pub proof fn law_steps_reach_backends(p: Proxy, msg: Tree)
    ensures
        match proxy::reaction_to(p, msg) {
            (after, Reply::Run(steps)) => reach(steps, after.backends),
            (after, Reply::Stop(steps)) => reach(steps, after.backends),
            (_, Reply::Locate(_)) => true,
        },
{
    let configs = proxy::start_configs(p);
    let request = message::initialize_of(
        proxy::or_null(msg.get("id"@)),
        proxy::or_empty(msg.get("params"@)),
    );
    steps_of_start_reach(p.backends, configs, request);
    steps_of_shutdown_reach(p.backends, msg);
    assert(reach(proxy::broadcast_acts(p.backends, msg), p.backends)) by {
        assert forall|i: int| 0 <= i < p.backends.len() implies match step::target(
            #[trigger] proxy::broadcast_acts(p.backends, msg)[i],
        ) {
            Some(config) => file_path::listed(p.backends, config),
            None => true,
        } by {
            assert(step::target(proxy::broadcast_acts(p.backends, msg)[i]) == Some(p.backends[i]));
        }
    }
    let started = proxy::start_acts(configs, request);
    assert(reach(started.push(Act::WriteCollected), proxy::with_backends(p.backends, configs))) by {
        let all = started.push(Act::WriteCollected);
        assert forall|i: int| 0 <= i < all.len() implies match step::target(#[trigger] all[i]) {
            Some(config) => file_path::listed(proxy::with_backends(p.backends, configs), config),
            None => true,
        } by {
            if i < started.len() {
                assert(all[i] == started[i]);
            }
        }
    }
    let closing = proxy::shutdown_acts(p.backends, msg);
    let reply = Act::Write(message::null_reply_of(proxy::or_null(msg.get("id"@))));
    assert(reach(closing.push(reply), p.backends)) by {
        let all = closing.push(reply);
        assert forall|i: int| 0 <= i < all.len() implies match step::target(#[trigger] all[i]) {
            Some(config) => file_path::listed(p.backends, config),
            None => true,
        } by {
            if i < closing.len() {
                assert(all[i] == closing[i]);
            }
        }
    }
    let sent = proxy::broadcast_acts(p.backends, msg);
    let forwarded = proxy::forward_acts(p, msg);
    assert(reach(forwarded, p.backends)) by {
        assert forall|i: int| 0 <= i < forwarded.len() implies match step::target(
            #[trigger] forwarded[i],
        ) {
            Some(config) => file_path::listed(p.backends, config),
            None => true,
        } by {
            if i < sent.len() {
                assert(forwarded[i] == sent[i]);
            } else {
                assert(step::target(forwarded[i]) == Some(p.backends[0]));
            }
        }
    }
}

/// The same holds of what a document asks for.
pub proof fn law_serving_reaches_its_backend(
    p: Proxy,
    request: Request,
    config: Seq<u8>,
    root: Option<Seq<char>>,
)
    ensures
        reach(
            proxy::serving(p, request, config, root).1,
            proxy::serving(p, request, config, root).0.backends,
        ),
{
    let (after, steps) = proxy::serving(p, request, config, root);
    proxy::adding_keeps_known(p.backends, config);
    greeting_is_quiet(p, config, root);
    let greeting = proxy::greeting_acts(p, config, root);
    assert forall|i: int| 0 <= i < steps.len() implies match step::target(#[trigger] steps[i]) {
        Some(c) => file_path::listed(after.backends, c),
        None => true,
    } by {
        if !file_path::listed(p.backends, config) && 0 < i < 1 + greeting.len() {
            assert(steps[i] == greeting[i - 1]);
        }
    }
}

/// Whether a step sends a message whose loss ends the session.
pub open spec fn sends(act: Act) -> bool {
    act is Send
}

/// A message about a document reaches its backend once and unchanged, whether
/// the backend runs already or is started for it. It comes behind everything
/// that introduces a new backend, and nothing but the wait for the answer
/// follows it.
pub proof fn law_messages_are_sent_once(
    p: Proxy,
    request: Request,
    config: Seq<u8>,
    root: Option<Seq<char>>,
)
    ensures
        ({
            let steps = proxy::serving(p, request, config, root).1;
            let at = steps.len() - (if request.id is Some {
                2int
            } else {
                1int
            });
            &&& 0 <= at < steps.len()
            &&& steps[at] == Act::Send(config, request.msg)
            &&& forall|i: int| 0 <= i < steps.len() && i != at ==> !sends(#[trigger] steps[i])
        }),
{
    let steps = proxy::serving(p, request, config, root).1;
    if !file_path::listed(p.backends, config) {
        let greeting = proxy::greeting_acts(p, config, root);
        assert forall|i: int| 0 <= i < 1 + greeting.len() implies !sends(#[trigger] steps[i]) by {
            if i > 0 {
                assert(steps[i] == greeting[i - 1]);
            }
        }
    }
}

/// The steps that hand a message to a backend and wait for its answer, where one
/// is expected.
pub open spec fn handing_over(request: Request, config: Seq<u8>) -> Seq<Act> {
    match request.id {
        Some(id) => seq![
            Act::Send(config, request.msg),
            Act::Relay(config, Some(id), message::null_reply_of(id)),
        ],
        None => seq![Act::Send(config, request.msg)],
    }
}

/// A backend that runs is sent the message and nothing else.
pub proof fn law_running_backends_get_the_message_alone(
    p: Proxy,
    request: Request,
    config: Seq<u8>,
    root: Option<Seq<char>>,
)
    requires
        file_path::listed(p.backends, config),
    ensures
        proxy::serving(p, request, config, root) == (p, handing_over(request, config)),
{
    let (after, steps) = proxy::serving(p, request, config, root);
    assert(steps =~= handing_over(request, config));
}

/// A backend that does not run is started, and from then on counts as running.
/// It is initialized by the editor's own parameters, with its directory as the
/// only workspace where it has one, then told of the open documents in order,
/// and then gets the message. Before the editor has initialized there is nothing
/// to tell it.
pub proof fn law_new_backends_are_introduced(
    p: Proxy,
    request: Request,
    config: Seq<u8>,
    root: Option<Seq<char>>,
    params: Tree,
)
    requires
        !file_path::listed(p.backends, config),
    ensures
        proxy::serving(p, request, config, root).0 == (Proxy {
            backends: p.backends.push(config),
            ..p
        }),
        p.init_params is None ==> proxy::serving(p, request, config, root).1 == seq![
            Act::Spawn(config),
        ] + handing_over(request, config),
        p.init_params == Some(params) ==> proxy::serving(p, request, config, root).1 == seq![
            Act::Spawn(config),
            Act::TrySend(
                config,
                message::initialize_of(
                    Tree::Number("1"@),
                    match root {
                        Some(root) => message::with_root(params, root),
                        None => params,
                    },
                ),
            ),
            Act::Discard(config),
            Act::TrySend(config, message::initialized_of()),
        ] + p.open_docs.map_values(|doc: (Seq<char>, Tree)| Act::TrySend(config, doc.1))
            + handing_over(request, config),
{
    let (after, steps) = proxy::serving(p, request, config, root);
    let start = seq![Act::Spawn(config)];
    if p.init_params is None {
        assert(steps =~= start + handing_over(request, config));
    } else if p.init_params == Some(params) {
        let rooted = match root {
            Some(root) => message::with_root(params, root),
            None => params,
        };
        let docs = p.open_docs.map_values(|doc: (Seq<char>, Tree)| Act::TrySend(config, doc.1));
        let hello = seq![
            Act::Spawn(config),
            Act::TrySend(config, message::initialize_of(Tree::Number("1"@), rooted)),
            Act::Discard(config),
            Act::TrySend(config, message::initialized_of()),
        ];
        assert(proxy::greeting_acts(p, config, root) =~= hello.skip(1) + docs);
        assert(steps =~= hello + docs + handing_over(request, config));
    }
}

/// Whether steps send a message to every backend in order, and then go on with
/// `rest`.
pub open spec fn broadcasts(
    steps: Seq<Act>,
    backends: Seq<Seq<u8>>,
    msg: Tree,
    rest: Seq<Act>,
) -> bool {
    &&& steps.len() == backends.len() + rest.len()
    &&& forall|i: int|
        0 <= i < backends.len() ==> #[trigger] steps[i] == Act::TrySend(backends[i], msg)
    &&& steps.skip(backends.len() as int) == rest
}

proof fn methods_differ()
    ensures
        "initialize"@ != "initialized"@ && "initialize"@ != "shutdown"@ && "initialize"@
            != "exit"@,
        "initialized"@ != "shutdown"@ && "initialized"@ != "exit"@ && "shutdown"@ != "exit"@,
        !"textDocument/"@.is_prefix_of("initialize"@),
        !"textDocument/"@.is_prefix_of("initialized"@),
        !"textDocument/"@.is_prefix_of("shutdown"@),
        !"textDocument/"@.is_prefix_of("exit"@),
{
    reveal_strlit("textDocument/");
    reveal_strlit("initialize");
    reveal_strlit("initialized");
    reveal_strlit("shutdown");
    reveal_strlit("exit");
    assert("textDocument/"@.len() == 13);
    assert("initialize"@.len() == 10 && "initialized"@.len() == 11 && "shutdown"@.len() == 8
        && "exit"@.len() == 4);
}

/// `initialized` and `exit` go to every backend as they are, and `exit` ends the
/// session. Neither changes what the proxy knows.
pub proof fn law_notifications_reach_every_backend(p: Proxy, msg: Tree)
    ensures
        msg.get("method"@) == Some(Tree::Text("initialized"@)) ==> {
            let (after, reply) = proxy::reaction_to(p, msg);
            &&& after == p
            &&& reply matches Reply::Run(steps)
            &&& broadcasts(steps, p.backends, msg, Seq::empty())
        },
        msg.get("method"@) == Some(Tree::Text("exit"@)) ==> {
            let (after, reply) = proxy::reaction_to(p, msg);
            &&& after == p
            &&& reply matches Reply::Stop(steps)
            &&& broadcasts(steps, p.backends, msg, Seq::empty())
        },
{
    methods_differ();
    let steps = proxy::broadcast_acts(p.backends, msg);
    assert(steps.skip(p.backends.len() as int) =~= Seq::<Act>::empty());
}

proof fn shutdown_acts_come_in_twos(backends: Seq<Seq<u8>>, msg: Tree)
    ensures
        proxy::shutdown_acts(backends, msg).len() == 2 * backends.len(),
        forall|k: int|
            0 <= k < backends.len() ==> {
                &&& proxy::shutdown_acts(backends, msg)[2 * k] == Act::TrySend(
                    #[trigger] backends[k],
                    msg,
                )
                &&& proxy::shutdown_acts(backends, msg)[2 * k + 1] == Act::Discard(backends[k])
            },
    decreases backends.len(),
{
    if backends.len() > 0 {
        let shorter = backends.drop_last();
        shutdown_acts_come_in_twos(shorter, msg);
        let earlier = proxy::shutdown_acts(shorter, msg);
        let steps = proxy::shutdown_acts(backends, msg);
        assert forall|k: int| 0 <= k < backends.len() implies {
            &&& steps[2 * k] == Act::TrySend(#[trigger] backends[k], msg)
            &&& steps[2 * k + 1] == Act::Discard(backends[k])
        } by {
            if k < shorter.len() {
                assert(backends[k] == shorter[k]);
                assert(steps[2 * k] == earlier[2 * k]);
                assert(steps[2 * k + 1] == earlier[2 * k + 1]);
            }
        }
    }
}

/// `shutdown` goes to every backend, each is waited for, and then the editor is
/// answered with null under the id that it gave. The session goes on until
/// `exit`.
pub proof fn law_shutdown_waits_for_every_backend(p: Proxy, msg: Tree)
    requires
        msg.get("method"@) == Some(Tree::Text("shutdown"@)),
    ensures
        ({
            let (after, reply) = proxy::reaction_to(p, msg);
            let n = p.backends.len();
            &&& after == p
            &&& reply matches Reply::Run(steps)
            &&& steps.len() == 2 * n + 1
            &&& forall|k: int|
                0 <= k < n ==> {
                    &&& steps[2 * k] == Act::TrySend(#[trigger] p.backends[k], msg)
                    &&& steps[2 * k + 1] == Act::Discard(p.backends[k])
                }
            &&& steps.last() == Act::Write(
                message::null_reply_of(
                    match msg.get("id"@) {
                        Some(id) => id,
                        None => Tree::Null,
                    },
                ),
            )
        }),
{
    methods_differ();
    shutdown_acts_come_in_twos(p.backends, msg);
}

/// A message of no special meaning goes to every backend as it is and changes
/// nothing that the proxy knows. Where it asks for an answer, the first backend
/// gives it; without backends nobody does.
pub proof fn law_other_messages_reach_every_backend(p: Proxy, msg: Tree)
    requires
        match msg.get("method"@) {
            Some(Tree::Text(method)) => {
                &&& method != "initialize"@
                &&& method != "initialized"@
                &&& method != "shutdown"@
                &&& method != "exit"@
                &&& !"textDocument/"@.is_prefix_of(method)
            },
            _ => true,
        },
    ensures
        ({
            let (after, reply) = proxy::reaction_to(p, msg);
            &&& after == p
            &&& reply matches Reply::Run(steps)
            &&& broadcasts(
                steps,
                p.backends,
                msg,
                match msg.get("id"@) {
                    Some(id) => if p.backends.len() > 0 {
                        seq![Act::Relay(p.backends[0], None, message::null_reply_of(id))]
                    } else {
                        Seq::empty()
                    },
                    None => Seq::empty(),
                },
            )
        }),
{
    let steps = proxy::forward_acts(p, msg);
    let sent = proxy::broadcast_acts(p.backends, msg);
    assert(proxy::reaction_to(p, msg) == (p, Reply::Run(steps)));
    let rest = match msg.get("id"@) {
        Some(id) => if p.backends.len() > 0 {
            seq![Act::Relay(p.backends[0], None, message::null_reply_of(id))]
        } else {
            Seq::empty()
        },
        None => Seq::empty(),
    };
    assert(steps =~= sent + rest);
    assert(steps.skip(p.backends.len() as int) =~= rest);
}

/// `initialize` is remembered by its parameters. Backends that ran stay known,
/// in order, and nothing else of what the proxy knows changes.
pub proof fn law_initialize_is_remembered(p: Proxy, msg: Tree)
    requires
        msg.get("method"@) == Some(Tree::Text("initialize"@)),
    ensures
        ({
            let after = proxy::reaction_to(p, msg).0;
            &&& after.init_params == msg.get("params"@)
            &&& p.backends.is_prefix_of(after.backends)
            &&& after == (Proxy {
                init_params: after.init_params,
                backends: after.backends,
                ..p
            })
            &&& forall|c: Seq<u8>|
                #[trigger] file_path::listed(after.backends, c) <==> file_path::listed(
                    p.backends,
                    c,
                ) || file_path::listed(proxy::start_configs(p), c)
        }),
{
    backends_are_added_behind(p.backends, proxy::start_configs(p));
}

proof fn backends_are_added_behind(list: Seq<Seq<u8>>, configs: Seq<Seq<u8>>)
    ensures
        list.is_prefix_of(proxy::with_backends(list, configs)),
        forall|c: Seq<u8>|
            #[trigger] file_path::listed(proxy::with_backends(list, configs), c)
                <==> file_path::listed(list, c) || file_path::listed(configs, c),
    decreases configs.len(),
{
    let after = proxy::with_backends(list, configs);
    if configs.len() == 0 {
        assert(list =~= list.subrange(0, list.len() as int));
    } else {
        let shorter = configs.drop_last();
        let before = proxy::with_backends(list, shorter);
        let last = configs.last();
        backends_are_added_behind(list, shorter);
        proxy::adding_keeps_known(before, last);
        assert(list =~= after.subrange(0, list.len() as int)) by {
            assert(list =~= before.subrange(0, list.len() as int));
            assert forall|i: int| 0 <= i < list.len() implies after[i] == list[i] by {
                assert(after[i] == before[i]);
                assert(before.subrange(0, list.len() as int)[i] == before[i]);
            }
        }
        assert forall|c: Seq<u8>| #[trigger]
            file_path::listed(after, c) <==> file_path::listed(list, c) || file_path::listed(
                configs,
                c,
            ) by {
            if file_path::listed(after, c) {
                let k = choose|k: int|
                    0 <= k < after.len() && file_path::components(#[trigger] after[k])
                        == file_path::components(c);
                if k < before.len() {
                    assert(before[k] == after[k]);
                    assert(file_path::listed(before, c));
                    if file_path::listed(shorter, c) {
                        let h = choose|h: int|
                            0 <= h < shorter.len() && file_path::components(#[trigger] shorter[h])
                                == file_path::components(c);
                        assert(configs[h] == shorter[h]);
                    }
                } else {
                    assert(configs[configs.len() - 1] == after[k]);
                }
            }
            if file_path::listed(configs, c) {
                let h = choose|h: int|
                    0 <= h < configs.len() && file_path::components(#[trigger] configs[h])
                        == file_path::components(c);
                if h < shorter.len() {
                    assert(shorter[h] == configs[h]);
                    assert(file_path::listed(shorter, c));
                } else {
                    let k = choose|k: int|
                        0 <= k < after.len() && file_path::components(#[trigger] after[k])
                            == file_path::components(last);
                    assert(file_path::components(after[k]) == file_path::components(c));
                }
            }
        }
    }
}

/// A backend is started on `initialize` only for the config of a profile that
/// some rule names.
pub proof fn law_started_configs_are_named(p: Proxy, k: int)
    requires
        0 <= k < proxy::start_configs(p).len(),
    ensures
        exists|rule: int|
            {
                &&& 0 <= rule < config::rules_of(assoc::entries(p.config.match_rules@)).len()
                &&& config::profile_of(
                    p.config,
                    (#[trigger] config::rules_of(assoc::entries(p.config.match_rules@))[rule]).1,
                    p.home,
                ) == Some(Resolution::Config(proxy::start_configs(p)[k]))
            },
{
    let rules = config::rules_of(assoc::entries(p.config.match_rules@));
    let profiles = proxy::profiles_of(rules);
    configs_come_from_profiles(p.config, p.home, profiles, k);
    let h = choose|h: int|
        0 <= h < profiles.len() && config::profile_of(p.config, #[trigger] profiles[h], p.home)
            == Some(Resolution::Config(proxy::start_configs(p)[k]));
    profiles_come_from_rules(rules, h);
}

proof fn configs_come_from_profiles(
    config: DprintxConfig,
    home: Option<Seq<u8>>,
    profiles: Seq<Seq<char>>,
    k: int,
)
    requires
        0 <= k < proxy::configs_of(config, home, profiles).len(),
    ensures
        exists|h: int|
            0 <= h < profiles.len() && config::profile_of(config, #[trigger] profiles[h], home)
                == Some(Resolution::Config(proxy::configs_of(config, home, profiles)[k])),
    decreases profiles.len(),
{
    let all = proxy::configs_of(config, home, profiles);
    let shorter = profiles.drop_last();
    let before = proxy::configs_of(config, home, shorter);
    if k < before.len() {
        configs_come_from_profiles(config, home, shorter, k);
        let h = choose|h: int|
            0 <= h < shorter.len() && config::profile_of(config, #[trigger] shorter[h], home)
                == Some(Resolution::Config(before[k]));
        assert(profiles[h] == shorter[h]);
        assert(all[k] == before[k]);
    } else {
        assert(profiles[profiles.len() - 1] == profiles.last());
    }
}

proof fn profiles_come_from_rules(rules: Seq<(Seq<char>, Seq<char>)>, h: int)
    requires
        0 <= h < proxy::profiles_of(rules).len(),
    ensures
        exists|rule: int|
            0 <= rule < rules.len() && (#[trigger] rules[rule]).1 == proxy::profiles_of(rules)[h],
    decreases rules.len(),
{
    let all = proxy::profiles_of(rules);
    let shorter = rules.drop_last();
    let before = proxy::profiles_of(shorter);
    if h < before.len() {
        profiles_come_from_rules(shorter, h);
        let rule = choose|rule: int|
            0 <= rule < shorter.len() && (#[trigger] shorter[rule]).1 == before[h];
        assert(rules[rule] == shorter[rule]);
        assert(all[h] == before[h]);
    } else {
        assert(rules[rules.len() - 1] == rules.last());
    }
}

/// Backends start in the order of the rules: further rules behind those that are
/// there add configs behind theirs.
pub proof fn law_starts_follow_the_rules(
    config: DprintxConfig,
    home: Option<Seq<u8>>,
    first: Seq<(Seq<char>, Seq<char>)>,
    more: Seq<(Seq<char>, Seq<char>)>,
)
    ensures
        proxy::configs_of(config, home, proxy::profiles_of(first)).is_prefix_of(
            proxy::configs_of(config, home, proxy::profiles_of(first + more)),
        ),
    decreases more.len(),
{
    let own = proxy::configs_of(config, home, proxy::profiles_of(first));
    let all = proxy::configs_of(config, home, proxy::profiles_of(first + more));
    if more.len() == 0 {
        assert(first + more =~= first);
        assert(own =~= own.subrange(0, own.len() as int));
    } else {
        let whole = first + more;
        assert(whole.drop_last() =~= first + more.drop_last());
        law_starts_follow_the_rules(config, home, first, more.drop_last());
        let before = proxy::profiles_of(whole.drop_last());
        let sofar = proxy::configs_of(config, home, before);
        let profiles = proxy::profiles_of(whole);
        if profiles != before {
            assert(profiles.drop_last() =~= before);
        }
        assert forall|i: int| 0 <= i < own.len() implies all[i] == own[i] by {
            assert(own =~= sofar.subrange(0, own.len() as int));
            assert(sofar.subrange(0, own.len() as int)[i] == sofar[i]);
            assert(all[i] == sofar[i]);
        }
        assert(own =~= all.subrange(0, own.len() as int));
    }
}

/// The language of the document that a message is about, once the message has
/// come in.
pub open spec fn language_now(p: Proxy, msg: Tree, uri: Seq<char>) -> Option<Seq<char>> {
    if msg.get("method"@) == Some(Tree::Text("textDocument/didOpen"@)) && message::language_of(msg)
        is Some {
        message::language_of(msg)
    } else {
        assoc::lookup(p.languages, uri)
    }
}

/// A message about a document asks where that document lies: its path is the one
/// that the URI names, and its directory the parent of that path. The message
/// itself goes on with its own id. Its URI carries the extension of the
/// document's language where URIs are rewritten and that language asks for
/// another one; nothing else of the message changes.
pub proof fn law_documents_are_located(p: Proxy, msg: Tree, method: Seq<char>, uri: Seq<char>)
    requires
        msg.get("method"@) == Some(Tree::Text(method)),
        "textDocument/"@.is_prefix_of(method),
        message::uri_of(msg) == Some(uri),
    ensures
        ({
            let reply = proxy::reaction_to(p, msg).1;
            let rewritten = match language_now(p, msg, uri) {
                Some(language) => uri::rewritten(uri, language),
                None => None,
            };
            &&& reply matches Reply::Locate(request)
            &&& request.id == msg.get("id"@)
            &&& Some(request.path) == match message::uri_of(request.msg) {
                Some(sent_uri) => Some(uri::path_of_uri(sent_uri)),
                None => None,
            }
            &&& request.dir == path::parent_of(request.path)
            &&& p.config.lsp_rewrite_uris && rewritten is Some ==> {
                &&& message::uri_of(request.msg) == rewritten
                &&& request.msg == message::with_uri(msg, rewritten->Some_0)
            }
            &&& !p.config.lsp_rewrite_uris || rewritten is None ==> request.msg == msg
        }),
{
    methods_differ();
    let noted = proxy::noticed(p, msg);
    if let Some(language) = message::language_of(msg) {
        assoc::put_is_found(p.languages, uri, language);
    }
    assert(assoc::lookup(noted.languages, uri) == language_now(p, msg, uri));
    if let Some(new_uri) = message::new_uri_of(msg, noted.languages) {
        message::law_only_the_uri_changes(msg, new_uri);
    }
}

/// A message about no document that can be told asks for nothing, and changes
/// nothing.
pub proof fn law_messages_without_a_document_are_dropped(p: Proxy, msg: Tree, method: Seq<char>)
    requires
        msg.get("method"@) == Some(Tree::Text(method)),
        "textDocument/"@.is_prefix_of(method),
        message::uri_of(msg) is None,
    ensures
        proxy::reaction_to(p, msg) == (p, Reply::Run(Seq::empty())),
{
    methods_differ();
}

/// Documents stay open, as they were sent, until they are opened anew or closed,
/// whatever else the editor sends. A message that neither opens nor closes a
/// document changes nothing that is kept of documents.
pub proof fn law_open_documents_last(p: Proxy, msg: Tree, uri: Seq<char>)
    requires
        consistent(p),
    ensures
        ({
            let after = proxy::reaction_to(p, msg).0;
            let touches = {
                ||| msg.get("method"@) == Some(Tree::Text("textDocument/didOpen"@))
                ||| msg.get("method"@) == Some(Tree::Text("textDocument/didClose"@))
            };
            &&& !touches ==> after.open_docs == p.open_docs && after.languages == p.languages
            &&& touches && (proxy::reaction_to(p, msg).1 matches Reply::Locate(request)
                ==> message::uri_of(request.msg) != Some(uri)) ==> assoc::lookup(
                after.open_docs,
                uri,
            ) == assoc::lookup(p.open_docs, uri)
        }),
{
    document_methods_are_routed();
    let noted = proxy::noticed(p, msg);
    let sent = proxy::routed(noted, msg);
    if let Some(new_uri) = message::new_uri_of(msg, noted.languages) {
        message::law_only_the_uri_changes(msg, new_uri);
    }
    if let Some(sent_uri) = message::uri_of(sent) {
        assoc::put_is_found(p.open_docs, sent_uri, sent);
        assoc::removed_is_gone(p.open_docs, sent_uri);
    }
}

/// Where a document has a profile, its local config decides who serves it. With
/// no local config, with one that is the profile's own file, or with no
/// directory, the profile's config serves it as it is. Otherwise the local
/// config is merged with the profile, for the directory that holds the local
/// config: by the config that was merged for that directory before, or else
/// after a merge is asked for.
pub proof fn law_local_configs_are_merged(
    p: Proxy,
    request: Request,
    profile: Seq<u8>,
    local: Option<Seq<char>>,
    dir: Seq<char>,
    file: Seq<char>,
)
    ensures
        local is None || request.dir is None || (local == Some(file) && file_path::components(
            encode_utf8(file),
        ) == file_path::components(profile)) ==> proxy::placing(
            p,
            request,
            Some(Resolution::Config(profile)),
            local,
        ) == ({
            let (after, steps) = proxy::serving(p, request, profile, None);
            (after, Place::Run(steps))
        }),
        local == Some(file) && request.dir is Some && path::parent_of(file) == Some(dir)
            && file_path::components(encode_utf8(file)) != file_path::components(profile)
            ==> proxy::placing(p, request, Some(Resolution::Config(profile)), local) == (
        match proxy::merged_for(p.merged, dir) {
            Some(config) => {
                let (after, steps) = proxy::serving(p, request, config, Some(dir));
                (after, Place::Run(steps))
            },
            None => (p, Place::Merge(request, profile, dir)),
        }),
{
}

/// A document whose local config was merged is served by the merged config, with
/// the directory as the root of its backend, and that config is kept for the
/// directory. Where the merge failed, the profile's config serves the document
/// with the same root, and nothing is kept.
pub proof fn law_merged_configs_serve_their_directory(
    p: Proxy,
    request: Request,
    profile: Seq<u8>,
    dir: Seq<char>,
    config: Seq<u8>,
)
    ensures
        ({
            let (after, steps) = proxy::merging(p, request, profile, dir, Some(config));
            let (served, expected) = proxy::serving(p, request, config, Some(dir));
            &&& steps == expected
            &&& after == (Proxy { merged: p.merged.push((dir, config)), ..served })
        }),
        proxy::merging(p, request, profile, dir, None) == proxy::serving(
            p,
            request,
            profile,
            Some(dir),
        ),
{
    let with = Proxy { merged: p.merged.push((dir, config)), ..p };
    assert(proxy::greeting_acts(with, config, Some(dir)) == proxy::greeting_acts(
        p,
        config,
        Some(dir),
    ));
}

/// A merged config is found by its directory, however that is spelled, and by no
/// other; the one that was kept first counts.
pub proof fn law_merged_configs_are_found_by_directory(
    merged: Seq<(Seq<char>, Seq<u8>)>,
    dir: Seq<char>,
    config: Seq<u8>,
    other: Seq<char>,
)
    ensures
        proxy::merged_for(Seq::empty(), other) is None,
        proxy::merged_for(merged.push((dir, config)), other) == match proxy::merged_for(
            merged,
            other,
        ) {
            Some(earlier) => Some(earlier),
            None => if path::components(dir) == path::components(other) {
                Some(config)
            } else {
                None
            },
        },
    decreases merged.len(),
{
    let all = merged.push((dir, config));
    if merged.len() == 0 {
        assert(all[0] == (dir, config));
        assert(all.skip(1) =~= Seq::empty());
        reveal_with_fuel(proxy::merged_for, 2);
    } else {
        assert(all[0] == merged[0]);
        assert(all.skip(1) =~= merged.skip(1).push((dir, config)));
        law_merged_configs_are_found_by_directory(merged.skip(1), dir, config, other);
    }
}

/// A proxy starts out knowing its program, its configuration and its user's home
/// directory, and nothing else.
pub proof fn law_new_proxies_know_nothing(
    dprint_bin: Seq<u8>,
    config: DprintxConfig,
    home: Option<Seq<u8>>,
)
    ensures
        ({
            let p = proxy::idle(dprint_bin, config, home);
            &&& p.dprint_bin == dprint_bin
            &&& p.config == config
            &&& p.home == home
            &&& p.backends.len() == 0
            &&& p.init_params is None
            &&& p.merged.len() == 0
            &&& p.languages.len() == 0
            &&& p.open_docs.len() == 0
        }),
{
}

/// A backend is waited for as long as the configuration says, and for half a
/// minute where it says zero: there is always a time to wait.
pub proof fn law_waits_are_never_empty(config: DprintxConfig)
    ensures
        proxy::wait_of(config) > 0,
        config.lsp_timeout_ms > 0 ==> proxy::wait_of(config) == config.lsp_timeout_ms,
        config.lsp_timeout_ms == 0 ==> proxy::wait_of(config) == 30_000,
{
}

/// A backend runs `lsp` with its config. It is told to format ignored files where
/// the configuration asks for that and the backend knows how, and is told
/// nothing else.
pub proof fn law_backends_run_with_their_config(
    config: DprintxConfig,
    config_path: Seq<u8>,
    supported: bool,
)
    ensures
        ({
            let args = proxy::backend_command(config, config_path, supported);
            let n = args.len() as int;
            &&& n == (if config.lsp_no_gitignore && supported {
                4int
            } else {
                3int
            })
            &&& args[0] == encode_utf8("lsp"@)
            &&& args[n - 2] == encode_utf8("--config"@)
            &&& args[n - 1] == config_path
            &&& n == 4 ==> args[1] == encode_utf8("--no-gitignore"@)
        }),
{
}

/// A backend knows `--no-gitignore` where its help names it on either stream.
pub proof fn law_help_is_read_on_both_streams(stdout: Seq<char>, stderr: Seq<char>)
    ensures
        text::holds(stdout, "--no-gitignore"@) ==> proxy::offers_no_gitignore(stdout, stderr),
        text::holds(stderr, "--no-gitignore"@) ==> proxy::offers_no_gitignore(stdout, stderr),
        stderr.len() == 0 ==> (proxy::offers_no_gitignore(stdout, stderr) <==> text::holds(
            stdout,
            "--no-gitignore"@,
        )),
        stdout.len() == 0 ==> (proxy::offers_no_gitignore(stdout, stderr) <==> text::holds(
            stderr,
            "--no-gitignore"@,
        )),
{
    let flag = "--no-gitignore"@;
    let all = stdout + stderr;
    text::law_parts_stand_between_others(stdout, flag);
    text::law_parts_stand_between_others(stderr, flag);
    text::law_parts_stand_between_others(all, flag);
    if text::holds(stdout, flag) {
        let (before, after) = choose|before: Seq<char>, after: Seq<char>|
            stdout == #[trigger] (before + flag + after);
        assert(all =~= before + flag + (after + stderr));
    }
    if text::holds(stderr, flag) {
        let (before, after) = choose|before: Seq<char>, after: Seq<char>|
            stderr == #[trigger] (before + flag + after);
        assert(all =~= (stdout + before) + flag + after);
    }
    if stderr.len() == 0 {
        assert(all =~= stdout);
    }
    if stdout.len() == 0 {
        assert(all =~= stderr);
    }
}

/// The backend of a config can be told of a root unless the editor's parameters
/// are a value that holds no members. One that runs, or that is told of no root,
/// always can.
pub proof fn law_parameters_with_members_take_a_root(p: Proxy, config: Seq<u8>, params: Tree)
    ensures
        proxy::servable(p, config, false),
        file_path::listed(p.backends, config) ==> proxy::servable(p, config, true),
        p.init_params is None ==> proxy::servable(p, config, true),
        !file_path::listed(p.backends, config) && p.init_params == Some(params) ==> (
        proxy::servable(p, config, true) <==> params is Object || params is Null),
{
}

/// Each backend that `initialize` starts is sent a request of its own: under the
/// editor's id, or under null where it gave none, and with the editor's
/// parameters, or an empty object where it gave none.
pub proof fn law_initialize_carries_the_editors_request(p: Proxy, msg: Tree, k: int)
    requires
        msg.get("method"@) == Some(Tree::Text("initialize"@)),
        0 <= k < proxy::start_configs(p).len(),
    ensures
        ({
            let config = proxy::start_configs(p)[k];
            let reply = proxy::reaction_to(p, msg).1;
            let id = match msg.get("id"@) {
                Some(id) => id,
                None => Tree::Null,
            };
            let params = match msg.get("params"@) {
                Some(params) => params,
                None => Tree::Object(Seq::empty()),
            };
            &&& reply matches Reply::Run(steps)
            &&& steps[3 * k] == Act::Spawn(config)
            &&& steps[3 * k + 1] == Act::Send(config, message::initialize_of(id, params))
            &&& steps[3 * k + 2] == Act::Collect(config)
        }),
{
    law_initialize_starts_each_config_once(p, msg);
    let config = proxy::start_configs(p)[k];
}

/// A notification about a document that no profile matches, or whose profile says
/// to ignore it, asks for nothing.
pub proof fn law_unmatched_notifications_are_dropped(
    p: Proxy,
    request: Request,
    profile: Option<Resolution>,
    local: Option<Seq<char>>,
)
    requires
        request.id is None,
        profile is None || profile == Some(Resolution::Ignore),
    ensures
        proxy::placing(p, request, profile, local) == (p, Place::Run(Seq::empty())),
{
}

/// A local config without a directory of its own is merged for the directory of
/// the document.
pub proof fn law_bare_local_configs_are_merged_for_the_document(
    p: Proxy,
    request: Request,
    profile: Seq<u8>,
    file: Seq<char>,
    dir: Seq<char>,
)
    requires
        request.dir == Some(dir),
        path::parent_of(file) is None,
        file_path::components(encode_utf8(file)) != file_path::components(profile),
        proxy::merged_for(p.merged, dir) is None,
    ensures
        proxy::placing(p, request, Some(Resolution::Config(profile)), Some(file)) == (
            p,
            Place::Merge(request, profile, dir),
        ),
{
}

/// Whether steps send a message once, to a config that is given, and send nothing
/// else that must arrive.
pub open spec fn sent_once(steps: Seq<Act>, config: Seq<u8>, msg: Tree) -> bool {
    exists|at: int|
        {
            &&& 0 <= at < steps.len()
            &&& #[trigger] steps[at] == Act::Send(config, msg)
            &&& forall|i: int| 0 <= i < steps.len() && i != at ==> !sends(#[trigger] steps[i])
        }
}

/// A document with a profile is not lost: its message is sent once and unchanged,
/// to the profile's config or to the one that was merged with it, or it waits,
/// just as it is, for the merge. After the merge it is sent once to the merged
/// config, or to the profile's where the merge failed.
pub proof fn law_placed_messages_are_sent_once(
    p: Proxy,
    request: Request,
    profile: Seq<u8>,
    local: Option<Seq<char>>,
    dir: Seq<char>,
    config: Seq<u8>,
)
    ensures
        match proxy::placing(p, request, Some(Resolution::Config(profile)), local).1 {
            Place::Run(steps) => sent_once(steps, profile, request.msg) || exists|i: int|
                0 <= i < p.merged.len() && sent_once(
                    steps,
                    (#[trigger] p.merged[i]).1,
                    request.msg,
                ),
            Place::Merge(waiting, base, _) => waiting == request && base == profile,
        },
        sent_once(
            proxy::merging(p, request, profile, dir, Some(config)).1,
            config,
            request.msg,
        ),
        sent_once(proxy::merging(p, request, profile, dir, None).1, profile, request.msg),
{
    serving_sends_once(p, request, profile, None);
    serving_sends_once(p, request, profile, Some(dir));
    let with = Proxy { merged: p.merged.push((dir, config)), ..p };
    serving_sends_once(with, request, config, Some(dir));
    if let Some(place) = proxy::merge_dir(request, profile, local) {
        if let Some(merged) = proxy::merged_for(p.merged, place) {
            serving_sends_once(p, request, merged, Some(place));
            proxy::merged_configs_are_held(p.merged, place);
            let i = choose|i: int| 0 <= i < p.merged.len() && (#[trigger] p.merged[i]).1 == merged;
            assert(p.merged[i].1 == merged);
        }
    }
}

proof fn serving_sends_once(
    p: Proxy,
    request: Request,
    config: Seq<u8>,
    root: Option<Seq<char>>,
)
    ensures
        sent_once(proxy::serving(p, request, config, root).1, config, request.msg),
{
    law_messages_are_sent_once(p, request, config, root);
    let steps = proxy::serving(p, request, config, root).1;
    let at = steps.len() - (if request.id is Some {
        2int
    } else {
        1int
    });
    assert(steps[at] == Act::Send(config, request.msg));
}

/// A text from the editor counts as the message that it holds. One that is no
/// JSON asks for nothing, and neither changes what the proxy knows nor ends the
/// session.
pub proof fn law_texts_count_as_their_message(p: Proxy, text: Seq<char>, msg: Tree)
    ensures
        json::parsed_tree(text) == Some(msg) ==> proxy::received(p, text) == proxy::reaction_to(
            p,
            msg,
        ),
        json::parsed_tree(text) is None ==> proxy::received(p, text) == (
            p,
            Reply::Run(Seq::empty()),
        ),
{
}

/// A list of arguments is seen argument by argument, and a value that may be
/// missing is seen where it is there, even where it is null.
pub proof fn law_lists_are_seen_argument_by_argument(list: Seq<Vec<u8>>, i: int, value: Json)
    requires
        0 <= i < list.len(),
    ensures
        proxy::byte_lists(list).len() == list.len(),
        proxy::byte_lists(list)[i] == list[i]@,
        step::owned_tree(Some(value)) == Some(value@),
        step::owned_tree(None) is None,
{
}

} // verus!
