//! Messages of the language server protocol, as JSON values.

use vstd::prelude::*;
use vstd::string::*;

use crate::assoc;
use crate::json::{self, object, Json, Tree};
use crate::path::{self, file_name};
use crate::text::{self, copy_of};
use crate::uri::{self, rewrite_uri};

verus! {

/// The document that a message is about.
pub open spec fn document_of(msg: Tree) -> Option<Tree> {
    match msg.get("params"@) {
        Some(params) => params.get("textDocument"@),
        None => None,
    }
}

/// The URI of the document that a message is about.
pub open spec fn uri_of(msg: Tree) -> Option<Seq<char>> {
    match document_of(msg) {
        Some(document) => match document.get("uri"@) {
            Some(uri) => uri.text(),
            None => None,
        },
        None => None,
    }
}

/// The language that the editor gives the document.
pub open spec fn language_of(msg: Tree) -> Option<Seq<char>> {
    match document_of(msg) {
        Some(document) => match document.get("languageId"@) {
            Some(language) => language.text(),
            None => None,
        },
        None => None,
    }
}

/// The message about the same document under another URI.
pub open spec fn with_uri(msg: Tree, uri: Seq<char>) -> Tree {
    let params = msg.get("params"@)->Some_0;
    let document = params.get("textDocument"@)->Some_0;
    msg.with(
        "params"@,
        params.with("textDocument"@, document.with("uri"@, Tree::Text(uri))),
    )
}

/// The URI that takes the place of the document's own, where its language asks
/// for another one.
pub open spec fn new_uri_of(
    msg: Tree,
    languages: Seq<(Seq<char>, Seq<char>)>,
) -> Option<Seq<char>> {
    match uri_of(msg) {
        Some(uri) => match assoc::lookup(languages, uri) {
            Some(language) => uri::rewritten(uri, language),
            None => None,
        },
        None => None,
    }
}

/// The message as it goes to a backend that matches files by extension.
pub open spec fn rewritten_message(
    msg: Tree,
    languages: Seq<(Seq<char>, Seq<char>)>,
) -> Tree {
    match new_uri_of(msg, languages) {
        Some(uri) => with_uri(msg, uri),
        None => msg,
    }
}

/// The member `key` of the document that a message is about.
fn document_text(msg: &Json, key: &str) -> (value: Option<String>)
    ensures
        text::text_option(value) == match document_of(msg@) {
            Some(document) => match document.get(key@) {
                Some(value) => value.text(),
                None => None,
            },
            None => None,
        },
{
    let params = match msg.get("params") {
        Some(params) => params,
        None => {
            return None;
        },
    };
    let document = match params.get("textDocument") {
        Some(document) => document,
        None => {
            return None;
        },
    };
    match document.get(key) {
        Some(value) => match value.as_str() {
            Some(text) => Some(copy_of(text)),
            None => None,
        },
        None => None,
    }
}

/// Extracts the file URI from a message: `params.textDocument.uri`.
pub fn extract_uri(msg: &Json) -> (uri: Option<String>)
    ensures
        text::text_option(uri) == uri_of(msg@),
{
    document_text(msg, "uri")
}

/// The language that the editor gives the document:
/// `params.textDocument.languageId`.
pub fn extract_language(msg: &Json) -> (language: Option<String>)
    ensures
        text::text_option(language) == language_of(msg@),
{
    document_text(msg, "languageId")
}

/// Replaces the URI of the document that a message is about.
fn set_uri(msg: &mut Json, uri: String)
    requires
        uri_of(old(msg)@) is Some,
    ensures
        final(msg)@ == with_uri(old(msg)@, uri@),
{
    let mut params = Json::Null;
    if let Some(value) = msg.get("params") {
        params = value.copy();
    }
    let mut document = Json::Null;
    if let Some(value) = params.get("textDocument") {
        document = value.copy();
    }
    document.set("uri", Json::Text(uri));
    params.set("textDocument", document);
    msg.set("params", params);
}

/// Rewrites the URI of a message by the languages that the editor has given:
/// `params.textDocument.uri` is replaced where another one is needed.
pub fn apply_uri_rewrite(msg: &mut Json, uri_languages: &Vec<(String, String)>)
    ensures
        final(msg)@ == rewritten_message(old(msg)@, assoc::entries(uri_languages@)),
{
    let uri = match extract_uri(msg) {
        Some(uri) => uri,
        None => {
            return ;
        },
    };
    let at = assoc::find(uri_languages, uri.as_str());
    if at < uri_languages.len() {
        if let Some(new_uri) = rewrite_uri(uri.as_str(), uri_languages[at].1.as_str()) {
            set_uri(msg, new_uri);
        }
    }
}

/// `initialize` parameters that name `root` as the one folder of the workspace.
pub open spec fn with_root(params: Tree, root: Seq<char>) -> Tree {
    let uri = "file://"@ + root;
    let name = match path::file_name_of(root) {
        Some(name) => name,
        None => uri,
    };
    params.with(
        "workspaceFolders"@,
        Tree::Array(
            seq![Tree::Object(seq![("uri"@, Tree::Text(uri)), ("name"@, Tree::Text(name))])],
        ),
    ).with("rootUri"@, Tree::Text(uri)).with("rootPath"@, Tree::Text(root))
}

/// Points `initialize` params at the directory a backend should call its root.
///
/// Each backend serves exactly one config, so it gets exactly one folder. All
/// three fields are set because a client only reads the newest one it
/// understands.
pub fn set_root(params: &mut Json, root: &str)
    requires
        old(params)@.takes_members(),
    ensures
        final(params)@ == with_root(old(params)@, root@),
{
    broadcast use {json::tree_of_array, json::tree_of_object};

    let mut uri = copy_of("file://");
    uri.append(root);
    let name = match file_name(root) {
        Some(name) => name,
        None => copy_of(uri.as_str()),
    };
    let ghost folder_uri = uri@;
    let ghost folder_name = name@;
    let members = vec![
        (copy_of("uri"), Json::Text(copy_of(uri.as_str()))),
        (copy_of("name"), Json::Text(name)),
    ];
    assert(assoc::entries(members@) =~= seq![
        ("uri"@, Tree::Text(folder_uri)),
        ("name"@, Tree::Text(folder_name)),
    ]);
    proof {
        reveal_strlit("uri");
        reveal_strlit("name");
        assert("uri"@.len() == 3 && "name"@.len() == 4);
    }
    let folder = object(members);
    let ghost folder_tree = folder@;
    let items = vec![folder];
    assert(json::trees(items@) =~= seq![folder_tree]);
    let folders = Json::Array(items);
    params.set("workspaceFolders", folders);
    params.set("rootUri", Json::Text(uri));
    params.set("rootPath", Json::Text(copy_of(root)));
}

/// Replacing the URI of a message's document changes that URI and nothing else.
pub proof fn law_only_the_uri_changes(msg: Tree, uri: Seq<char>)
    requires
        uri_of(msg) is Some,
    ensures
        uri_of(with_uri(msg, uri)) == Some(uri),
        forall|key: Seq<char>|
            key != "params"@ ==> #[trigger] with_uri(msg, uri).get(key) == msg.get(key),
        forall|key: Seq<char>|
            key != "textDocument"@ ==> #[trigger] with_uri(msg, uri).get("params"@)->Some_0.get(key)
                == msg.get("params"@)->Some_0.get(key),
        forall|key: Seq<char>|
            key != "uri"@ ==> #[trigger] document_of(with_uri(msg, uri))->Some_0.get(key)
                == document_of(msg)->Some_0.get(key),
{
    let params = msg.get("params"@)->Some_0;
    let document = params.get("textDocument"@)->Some_0;
    let new_document = document.with("uri"@, Tree::Text(uri));
    json::law_set_members_are_found(document, "uri"@, Tree::Text(uri));
    json::law_set_members_are_found(params, "textDocument"@, new_document);
    json::law_set_members_are_found(msg, "params"@, params.with("textDocument"@, new_document));
}

/// A backend is told of one folder, its root, in every field that a client may
/// read, and the other parameters survive.
pub proof fn law_root_replaces_the_workspace(params: Tree, root: Seq<char>)
    requires
        params.takes_members(),
    ensures
        with_root(params, root).get("rootPath"@) == Some(Tree::Text(root)),
        with_root(params, root).get("rootUri"@) == Some(Tree::Text("file://"@ + root)),
        ({
            let folders = with_root(params, root).get("workspaceFolders"@)->Some_0;
            &&& folders.items() is Some
            &&& folders.items()->Some_0.len() == 1
            &&& folders.items()->Some_0[0].get("uri"@) == Some(Tree::Text("file://"@ + root))
        }),
        forall|key: Seq<char>|
            key != "workspaceFolders"@ && key != "rootUri"@ && key != "rootPath"@
                ==> #[trigger] with_root(params, root).get(key) == params.get(key),
{
    reveal_strlit("workspaceFolders");
    reveal_strlit("rootUri");
    reveal_strlit("rootPath");
    let uri = "file://"@ + root;
    let name = match path::file_name_of(root) {
        Some(name) => name,
        None => uri,
    };
    let members = seq![("uri"@, Tree::Text(uri)), ("name"@, Tree::Text(name))];
    let folders = Tree::Array(seq![Tree::Object(members)]);
    assert(members[0].0 == "uri"@);
    assert(assoc::position(members, "uri"@) == 0);
    let first = params.with("workspaceFolders"@, folders);
    let second = first.with("rootUri"@, Tree::Text(uri));
    json::law_set_members_are_found(params, "workspaceFolders"@, folders);
    json::law_set_members_are_found(first, "rootUri"@, Tree::Text(uri));
    json::law_set_members_are_found(second, "rootPath"@, Tree::Text(root));
    assert("workspaceFolders"@.len() == 16 && "rootUri"@.len() == 7 && "rootPath"@.len() == 8);
    assert(second.with("rootPath"@, Tree::Text(root)).get("rootUri"@) == second.get("rootUri"@));
    assert(second.with("rootPath"@, Tree::Text(root)).get("workspaceFolders"@) == second.get(
        "workspaceFolders"@,
    ));
    assert(second.get("workspaceFolders"@) == first.get("workspaceFolders"@));
    assert forall|key: Seq<char>|
        key != "workspaceFolders"@ && key != "rootUri"@ && key
            != "rootPath"@ implies #[trigger] with_root(params, root).get(key) == params.get(
        key,
    ) by {
        assert(second.with("rootPath"@, Tree::Text(root)).get(key) == second.get(key));
        assert(first.with("rootUri"@, Tree::Text(uri)).get(key) == first.get(key));
        assert(params.with("workspaceFolders"@, folders).get(key) == params.get(key));
    }
}

/// An answer to the request `id` that says nothing.
pub open spec fn null_reply_of(id: Tree) -> Tree {
    Tree::Object(seq![("jsonrpc"@, Tree::Text("2.0"@)), ("id"@, id), ("result"@, Tree::Null)])
}

/// Answers the request `id` with null.
pub fn null_reply(id: Json) -> (reply: Json)
    ensures
        reply@ == null_reply_of(id@),
{
    broadcast use json::tree_of_object;

    let ghost id_tree = id@;
    let members = vec![
        (copy_of("jsonrpc"), Json::Text(copy_of("2.0"))),
        (copy_of("id"), id),
        (copy_of("result"), Json::Null),
    ];
    assert(assoc::entries(members@) =~= seq![
        ("jsonrpc"@, Tree::Text("2.0"@)),
        ("id"@, id_tree),
        ("result"@, Tree::Null),
    ]);
    proof {
        reveal_strlit("jsonrpc");
        reveal_strlit("id");
        reveal_strlit("result");
        assert("jsonrpc"@.len() == 7);
        assert("id"@.len() == 2);
        assert("result"@.len() == 6);
    }
    object(members)
}

/// An `initialize` request.
pub open spec fn initialize_of(id: Tree, params: Tree) -> Tree {
    Tree::Object(
        seq![
            ("jsonrpc"@, Tree::Text("2.0"@)),
            ("id"@, id),
            ("method"@, Tree::Text("initialize"@)),
            ("params"@, params),
        ],
    )
}

/// Asks a backend to initialize.
pub fn initialize_request(id: Json, params: Json) -> (request: Json)
    ensures
        request@ == initialize_of(id@, params@),
{
    broadcast use json::tree_of_object;

    let ghost id_tree = id@;
    let ghost params_tree = params@;
    let members = vec![
        (copy_of("jsonrpc"), Json::Text(copy_of("2.0"))),
        (copy_of("id"), id),
        (copy_of("method"), Json::Text(copy_of("initialize"))),
        (copy_of("params"), params),
    ];
    assert(assoc::entries(members@) =~= seq![
        ("jsonrpc"@, Tree::Text("2.0"@)),
        ("id"@, id_tree),
        ("method"@, Tree::Text("initialize"@)),
        ("params"@, params_tree),
    ]);
    proof {
        reveal_strlit("jsonrpc");
        reveal_strlit("id");
        reveal_strlit("method");
        reveal_strlit("params");
        assert("jsonrpc"@.len() == 7);
        assert("id"@.len() == 2);
        assert("method"@.len() == 6);
        assert("params"@.len() == 6);
        assert("method"@[0] == 'm' && "params"@[0] == 'p');
    }
    object(members)
}

/// The `initialized` notification.
pub open spec fn initialized_of() -> Tree {
    Tree::Object(
        seq![
            ("jsonrpc"@, Tree::Text("2.0"@)),
            ("method"@, Tree::Text("initialized"@)),
            ("params"@, Tree::Object(Seq::empty())),
        ],
    )
}

/// Tells a backend that its `initialize` reply has come.
pub fn initialized_notification() -> (notification: Json)
    ensures
        notification@ == initialized_of(),
{
    broadcast use json::tree_of_object;

    let nothing: Vec<(String, Json)> = Vec::new();
    assert(assoc::entries(nothing@) =~= Seq::empty());
    let params = object(nothing);
    let members = vec![
        (copy_of("jsonrpc"), Json::Text(copy_of("2.0"))),
        (copy_of("method"), Json::Text(copy_of("initialized"))),
        (copy_of("params"), params),
    ];
    assert(assoc::entries(members@) =~= seq![
        ("jsonrpc"@, Tree::Text("2.0"@)),
        ("method"@, Tree::Text("initialized"@)),
        ("params"@, Tree::Object(Seq::empty())),
    ]);
    proof {
        reveal_strlit("jsonrpc");
        reveal_strlit("method");
        reveal_strlit("params");
        assert("jsonrpc"@.len() == 7);
        assert("method"@.len() == 6);
        assert("params"@.len() == 6);
        assert("method"@[0] == 'm' && "params"@[0] == 'p');
    }
    object(members)
}

/// The document of a message is read where the protocol puts it: under
/// `textDocument` in `params`, with its address under `uri` and its language
/// under `languageId`. What else the message holds does not count.
pub proof fn law_documents_are_read_from_the_params(
    msg: Tree,
    params: Tree,
    document: Tree,
    uri: Seq<char>,
    language: Seq<char>,
)
    requires
        msg.takes_members(),
        params.takes_members(),
        document.takes_members(),
    ensures
        ({
            let named = document.with("uri"@, Tree::Text(uri)).with(
                "languageId"@,
                Tree::Text(language),
            );
            let whole = msg.with("params"@, params.with("textDocument"@, named));
            &&& uri_of(whole) == Some(uri)
            &&& language_of(whole) == Some(language)
        }),
        uri_of(msg.with("params"@, params.with("textDocument"@, document))) is Some
            ==> document.get("uri"@) == Some(
            Tree::Text(uri_of(msg.with("params"@, params.with("textDocument"@, document)))->Some_0),
        ),
        language_of(msg.with("params"@, params.with("textDocument"@, document))) is Some
            ==> document.get("languageId"@) == Some(
            Tree::Text(
                language_of(msg.with("params"@, params.with("textDocument"@, document)))->Some_0,
            ),
        ),
        params.get("textDocument"@) is None ==> uri_of(msg.with("params"@, params)) is None,
        msg.get("params"@) is None ==> uri_of(msg) is None && language_of(msg) is None,
{
    reveal_strlit("uri");
    reveal_strlit("languageId");
    assert("uri"@.len() == 3 && "languageId"@.len() == 10);
    let addressed = document.with("uri"@, Tree::Text(uri));
    let named = addressed.with("languageId"@, Tree::Text(language));
    json::law_set_members_are_found(document, "uri"@, Tree::Text(uri));
    json::law_set_members_are_found(addressed, "languageId"@, Tree::Text(language));
    assert(addressed.with("languageId"@, Tree::Text(language)).get("uri"@) == addressed.get(
        "uri"@,
    ));
    json::law_set_members_are_found(params, "textDocument"@, named);
    json::law_set_members_are_found(msg, "params"@, params.with("textDocument"@, named));
    json::law_set_members_are_found(params, "textDocument"@, document);
    json::law_set_members_are_found(msg, "params"@, params.with("textDocument"@, document));
    json::law_set_members_are_found(msg, "params"@, params);
}

/// A message is rewritten only where its document's language is known and asks
/// for another URI. It then carries that URI, and is otherwise the message that
/// it was.
pub proof fn law_only_known_languages_rewrite(
    msg: Tree,
    languages: Seq<(Seq<char>, Seq<char>)>,
    uri: Seq<char>,
    language: Seq<char>,
)
    requires
        uri_of(msg) == Some(uri),
    ensures
        assoc::lookup(languages, uri) is None ==> rewritten_message(msg, languages) == msg,
        assoc::lookup(languages, uri) == Some(language) && uri::rewritten(uri, language) is None
            ==> rewritten_message(msg, languages) == msg,
        assoc::lookup(languages, uri) == Some(language) && uri::rewritten(uri, language) is Some
            ==> {
            &&& uri_of(rewritten_message(msg, languages)) == uri::rewritten(uri, language)
            &&& forall|key: Seq<char>|
                key != "params"@ ==> #[trigger] rewritten_message(msg, languages).get(key)
                    == msg.get(key)
        },
{
    if let Some(new_uri) = new_uri_of(msg, languages) {
        law_only_the_uri_changes(msg, new_uri);
    }
}

/// The folder that a backend is told of carries the name of its directory. The
/// root directory has no name, and goes by its URI.
pub proof fn law_folders_carry_their_name(params: Tree, dir: Seq<char>, name: Seq<char>)
    requires
        params.takes_members(),
        path::segment(name),
        name != seq!['.', '.'],
    ensures
        ({
            let root = dir + seq!['/'] + name;
            let folder = with_root(params, root).get("workspaceFolders"@)->Some_0->Array_0[0];
            &&& folder.get("name"@) == Some(Tree::Text(name))
            &&& folder.get("uri"@) == Some(Tree::Text("file://"@ + root))
        }),
        ({
            let root = seq!['/'];
            let folder = with_root(params, root).get("workspaceFolders"@)->Some_0->Array_0[0];
            folder.get("name"@) == Some(Tree::Text("file://"@ + root))
        }),
{
    path::law_names_stand_behind_their_parent(dir, name);
    path::law_the_root_has_no_parent();
    folders_are_set(params, dir + seq!['/'] + name);
    folders_are_set(params, seq!['/']);
}

proof fn folders_are_set(params: Tree, root: Seq<char>)
    requires
        params.takes_members(),
    ensures
        ({
            let folder = with_root(params, root).get("workspaceFolders"@)->Some_0->Array_0[0];
            &&& folder.get("uri"@) == Some(Tree::Text("file://"@ + root))
            &&& folder.get("name"@) == Some(
                Tree::Text(
                    match path::file_name_of(root) {
                        Some(name) => name,
                        None => "file://"@ + root,
                    },
                ),
            )
        }),
{
    reveal_strlit("workspaceFolders");
    reveal_strlit("rootUri");
    reveal_strlit("rootPath");
    reveal_strlit("uri");
    reveal_strlit("name");
    assert("workspaceFolders"@.len() == 16 && "rootUri"@.len() == 7 && "rootPath"@.len() == 8);
    assert("uri"@.len() == 3 && "name"@.len() == 4);
    let uri = "file://"@ + root;
    let name = match path::file_name_of(root) {
        Some(name) => name,
        None => uri,
    };
    let members = seq![("uri"@, Tree::Text(uri)), ("name"@, Tree::Text(name))];
    assert(members[0].0 == "uri"@ && members[1].0 == "name"@);
    assoc::first_is_position(members, "uri"@, 0);
    assoc::first_is_position(members, "name"@, 1);
    let folders = Tree::Array(seq![Tree::Object(members)]);
    let first = params.with("workspaceFolders"@, folders);
    let second = first.with("rootUri"@, Tree::Text(uri));
    let third = second.with("rootPath"@, Tree::Text(root));
    json::law_set_members_are_found(params, "workspaceFolders"@, folders);
    json::law_set_members_are_found(first, "rootUri"@, Tree::Text(uri));
    json::law_set_members_are_found(second, "rootPath"@, Tree::Text(root));
    assert(first.with("rootUri"@, Tree::Text(uri)).get("workspaceFolders"@) == first.get(
        "workspaceFolders"@,
    ));
    assert(second.with("rootPath"@, Tree::Text(root)).get("workspaceFolders"@) == second.get(
        "workspaceFolders"@,
    ));
    assert(with_root(params, root) == third);
    assert(third.get("workspaceFolders"@) == Some(folders));
}

/// Messages of our own say what the protocol asks for: which version they speak,
/// the id of the request that they are or answer, the method, and the parameters
/// or the result. They hold nothing else.
pub proof fn law_own_messages_follow_the_protocol(id: Tree, params: Tree, key: Seq<char>)
    ensures
        null_reply_of(id).get("jsonrpc"@) == Some(Tree::Text("2.0"@)),
        null_reply_of(id).get("id"@) == Some(id),
        null_reply_of(id).get("result"@) == Some(Tree::Null),
        key != "jsonrpc"@ && key != "id"@ && key != "result"@ ==> null_reply_of(id).get(key)
            is None,
        initialize_of(id, params).get("jsonrpc"@) == Some(Tree::Text("2.0"@)),
        initialize_of(id, params).get("id"@) == Some(id),
        initialize_of(id, params).get("method"@) == Some(Tree::Text("initialize"@)),
        initialize_of(id, params).get("params"@) == Some(params),
        key != "jsonrpc"@ && key != "id"@ && key != "method"@ && key != "params"@
            ==> initialize_of(id, params).get(key) is None,
        initialized_of().get("jsonrpc"@) == Some(Tree::Text("2.0"@)),
        initialized_of().get("method"@) == Some(Tree::Text("initialized"@)),
        initialized_of().get("params"@) == Some(Tree::Object(Seq::empty())),
        key != "jsonrpc"@ && key != "method"@ && key != "params"@ ==> initialized_of().get(key)
            is None,
{
    reveal_strlit("jsonrpc");
    reveal_strlit("id");
    reveal_strlit("result");
    reveal_strlit("method");
    reveal_strlit("params");
    assert("jsonrpc"@.len() == 7 && "id"@.len() == 2 && "result"@.len() == 6 && "method"@.len()
        == 6 && "params"@.len() == 6);
    assert("method"@[0] == 'm' && "params"@[0] == 'p');
    let reply = null_reply_of(id)->Object_0;
    assert(reply[0].0 == "jsonrpc"@ && reply[1].0 == "id"@ && reply[2].0 == "result"@);
    assoc::first_is_position(reply, "jsonrpc"@, 0);
    assoc::first_is_position(reply, "id"@, 1);
    assoc::first_is_position(reply, "result"@, 2);
    let request = initialize_of(id, params)->Object_0;
    assert(request[0].0 == "jsonrpc"@ && request[1].0 == "id"@ && request[2].0 == "method"@
        && request[3].0 == "params"@);
    assoc::first_is_position(request, "jsonrpc"@, 0);
    assoc::first_is_position(request, "id"@, 1);
    assoc::first_is_position(request, "method"@, 2);
    assoc::first_is_position(request, "params"@, 3);
    let notice = initialized_of()->Object_0;
    assert(notice[0].0 == "jsonrpc"@ && notice[1].0 == "method"@ && notice[2].0 == "params"@);
    assoc::first_is_position(notice, "jsonrpc"@, 0);
    assoc::first_is_position(notice, "method"@, 1);
    assoc::first_is_position(notice, "params"@, 2);
    if key != "jsonrpc"@ && key != "id"@ && key != "result"@ {
        assoc::first_is_position(reply, key, 3);
    }
    if key != "jsonrpc"@ && key != "id"@ && key != "method"@ && key != "params"@ {
        assoc::first_is_position(request, key, 4);
    }
    if key != "jsonrpc"@ && key != "method"@ && key != "params"@ {
        assoc::first_is_position(notice, key, 3);
    }
}

} // verus!
