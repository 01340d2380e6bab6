//! The dprint config that a project keeps beside its code.

use vstd::prelude::*;
use vstd::utf8::*;

use crate::config::{self, config_dir, ConfigError};
use crate::file_path::{self, borrow, FilePath};
use crate::json::{self, parse_json, Json};
use crate::jsonc::{self, strip_jsonc_comments};
use crate::jsonc_laws::{self, Page};
use crate::path::{self, join, parent};
use crate::text::{self, among, copy_of};

verus! {

/// Config file names dprint discovers automatically, in its own priority order.
pub open spec fn config_file_names() -> Seq<Seq<char>> {
    seq!["dprint.json"@, "dprint.jsonc"@, ".dprint.json"@, ".dprint.jsonc"@]
}

/// Config file names dprint discovers automatically, in its own priority order.
///
/// The order matters: when a directory holds several of these, dprint silently
/// picks the first and never reads the rest.
pub fn local_config_file_names() -> (names: Vec<String>)
    ensures
        text::texts(names@) == config_file_names(),
{
    let names = vec![
        copy_of("dprint.json"),
        copy_of("dprint.jsonc"),
        copy_of(".dprint.json"),
        copy_of(".dprint.jsonc"),
    ];
    assert(text::texts(names@) =~= config_file_names());
    names
}

/// The config files that a directory may hold.
pub open spec fn files_in(dir: Seq<char>) -> Seq<Seq<char>> {
    config_file_names().map_values(|name: Seq<char>| path::joined(dir, name))
}

/// Whether a directory is the one to leave out.
pub open spec fn skipped(dir: Seq<char>, skip: Option<Seq<u8>>) -> bool {
    match skip {
        Some(other) => file_path::components(encode_utf8(dir)) == file_path::components(other),
        None => false,
    }
}

/// The config files to look for from a directory upwards, in order.
pub open spec fn candidates(dir: Seq<char>, skip: Option<Seq<u8>>) -> Seq<Seq<char>>
    decreases dir.len(),
{
    proof {
        path::law_parent_is_shorter(dir);
    }
    let own = if skipped(dir, skip) {
        Seq::empty()
    } else {
        files_in(dir)
    };
    match path::parent_of(dir) {
        Some(up) => own + candidates(up, skip),
        None => own,
    }
}

/// The first of `list` that is among `files`.
pub open spec fn first_present(list: Seq<Seq<char>>, files: Seq<Seq<char>>) -> Option<Seq<char>>
    decreases list.len(),
{
    if list.len() == 0 {
        None
    } else if files.contains(list[0]) {
        Some(list[0])
    } else {
        first_present(list.skip(1), files)
    }
}

/// The config that governs a directory, where `files` exist.
pub open spec fn nearest(
    dir: Seq<char>,
    skip: Option<Seq<u8>>,
    files: Seq<Seq<char>>,
) -> Option<Seq<char>> {
    first_present(candidates(dir, skip), files)
}

/// Where dprint keeps its global config: the directory that its environment
/// variable names, or else `dprint` in the user's configuration directory.
pub open spec fn global_dir(
    named: Option<Seq<u8>>,
    config_dir: Option<Seq<u8>>,
) -> Option<Seq<u8>> {
    if named is Some && named->Some_0.len() > 0 {
        named
    } else {
        match config_dir {
            Some(dir) => Some(file_path::joined(dir, encode_utf8("dprint"@))),
            None => None,
        }
    }
}

/// Where dprint looks for its global config, by dprint's own rules: `named` is
/// the value of `DPRINT_CONFIG_DIR`, which comes first, unless it is empty.
pub fn global_config_dir(named: Option<&FilePath>) -> (dir: Option<FilePath>)
    ensures
        exists|config_dir: Option<Seq<u8>>|
            config::is_config_dir(config_dir) && file_path::path_option(dir)
                == #[trigger] global_dir(file_path::borrowed_option(named), config_dir),
{
    let user_dir = config_dir();
    let dir = global_config_dir_in(named, borrow(&user_dir));
    assert(file_path::path_option(dir) == global_dir(
        file_path::borrowed_option(named),
        file_path::path_option(user_dir),
    ));
    dir
}

/// Where dprint looks for its global config, for a user with the given
/// configuration directory.
pub fn global_config_dir_in(named: Option<&FilePath>, config_dir: Option<&FilePath>) -> (dir:
    Option<FilePath>)
    ensures
        file_path::path_option(dir) == global_dir(
            file_path::borrowed_option(named),
            file_path::borrowed_option(config_dir),
        ),
{
    if let Some(named) = named {
        if named.as_bytes().len() > 0 {
            return Some(named.copy());
        }
    }
    match config_dir {
        Some(dir) => Some(dir.join(&FilePath::from_text("dprint"))),
        None => None,
    }
}

/// The config files to look for from a directory upwards, in order. `skip_dir`
/// is left out on the way.
pub fn local_config_candidates(start_dir: &str, skip_dir: Option<&FilePath>) -> (list: Vec<String>)
    ensures
        text::texts(list@) == candidates(start_dir@, file_path::borrowed_option(skip_dir)),
{
    let ghost skip = file_path::borrowed_option(skip_dir);
    let ghost all = candidates(start_dir@, skip);
    let names = local_config_file_names();
    let mut list: Vec<String> = Vec::new();
    let mut dir = copy_of(start_dir);
    assert(text::texts(list@) + candidates(dir@, skip) =~= all);
    loop
        invariant_except_break
            text::texts(list@) + candidates(dir@, skip) == all,
        invariant
            skip == file_path::borrowed_option(skip_dir),
            text::texts(names@) == config_file_names(),
            all == candidates(start_dir@, skip),
        ensures
            text::texts(list@) == all,
        decreases dir@.len(),
    {
        let ghost before = text::texts(list@);
        let left_out = match skip_dir {
            Some(other) => FilePath::from_text(dir.as_str()).is_same(other),
            None => false,
        };
        if !left_out {
            let mut i: usize = 0;
            assert(text::texts(list@) =~= before + files_in(dir@).take(0));
            while i < names.len()
                invariant
                    i <= names@.len(),
                    text::texts(names@) == config_file_names(),
                    text::texts(list@) == before + files_in(dir@).take(i as int),
                decreases names@.len() - i,
            {
                let ghost sofar = list@;
                let file = join(dir.as_str(), names[i].as_str());
                assert(text::texts(names@)[i as int] == names@[i as int]@);
                assert(files_in(dir@)[i as int] == file@);
                list.push(file);
                assert(text::texts(list@) =~= text::texts(sofar).push(file@));
                assert(text::texts(list@) =~= before + files_in(dir@).take(i + 1));
                i += 1;
            }
            assert(files_in(dir@).take(i as int) =~= files_in(dir@));
        }
        let ghost own = if skipped(dir@, skip) {
            Seq::empty()
        } else {
            files_in(dir@)
        };
        assert(text::texts(list@) =~= before + own);
        let ghost here = dir@;
        match parent(dir.as_str()) {
            Some(up) => {
                proof {
                    path::law_parent_is_shorter(here);
                }
                assert(before + (own + candidates(up@, skip)) =~= (before + own) + candidates(
                    up@,
                    skip,
                ));
                dir = up;
            },
            None => {
                assert(candidates(here, skip) == own);
                break ;
            },
        }
    }
    list
}

/// Finds a local dprint config by walking up from the given directory, where
/// `files` are the candidates that exist (see [`local_config_candidates`]).
///
/// The global config directory is skipped. A `dprint.jsonc` there is dprint's
/// own fallback for running without `--config`, not a project's config, and
/// treating it as one would make the profiles kept beside it format by whatever
/// that fallback happens to say. `named` is the value of `DPRINT_CONFIG_DIR`.
pub fn find_local_config(start_dir: &str, named: Option<&FilePath>, files: &[String]) -> (found:
    Option<String>)
    ensures
        exists|config_dir: Option<Seq<u8>>|
            config::is_config_dir(config_dir) && text::text_option(found) == nearest(
                start_dir@,
                #[trigger] global_dir(file_path::borrowed_option(named), config_dir),
                text::texts(files@),
            ),
{
    let skip = global_config_dir(named);
    find_local_config_skipping(start_dir, borrow(&skip), files)
}

/// Finds a local dprint config by walking up from the given directory and
/// leaving `skip_dir` out, where `files` are the candidates that exist (see
/// [`local_config_candidates`]).
pub fn find_local_config_skipping(
    start_dir: &str,
    skip_dir: Option<&FilePath>,
    files: &[String],
) -> (found: Option<String>)
    ensures
        text::text_option(found) == nearest(
            start_dir@,
            file_path::borrowed_option(skip_dir),
            text::texts(files@),
        ),
{
    let list = local_config_candidates(start_dir, skip_dir);
    let ghost all = text::texts(list@);
    let ghost present = text::texts(files@);
    let mut i: usize = 0;
    assert(all.skip(0) =~= all);
    while i < list.len()
        invariant
            i <= list@.len(),
            all == text::texts(list@),
            all == candidates(start_dir@, file_path::borrowed_option(skip_dir)),
            present == text::texts(files@),
            first_present(all, present) == first_present(all.skip(i as int), present),
        decreases list@.len() - i,
    {
        assert(all.skip(i as int)[0] == list@[i as int]@);
        assert(all.skip(i as int).skip(1) =~= all.skip(i + 1));
        if among(files, list[i].as_str()) {
            return Some(copy_of(list[i].as_str()));
        }
        i += 1;
    }
    None
}

/// What a local dprint config holds, given the text of its file.
pub open spec fn local_config_of(content: Seq<char>) -> Option<json::Tree> {
    json::parsed_tree(jsonc::without_trailing_commas(jsonc::without_comments(content)))
}

/// Reads the text of a local dprint config file as a JSON value.
/// Handles both .json and .jsonc (strips comments and trailing commas).
pub fn read_local_config(content: &str) -> (value: Result<Json, ConfigError>)
    ensures
        match value {
            Ok(value) => local_config_of(content@) == Some(value@),
            Err(error) => {
                &&& local_config_of(content@) is None
                &&& error == ConfigError::InvalidLocalConfig
            },
        },
{
    let json = strip_jsonc_comments(content);
    match parse_json(json.as_str()) {
        Ok(value) => Ok(value),
        Err(_) => Err(ConfigError::InvalidLocalConfig),
    }
}

/// A directory that holds a config governs itself, by the name that comes first
/// in dprint's order.
pub proof fn law_first_name_wins(
    dir: Seq<char>,
    skip: Option<Seq<u8>>,
    files: Seq<Seq<char>>,
    at: int,
)
    requires
        !skipped(dir, skip),
        0 <= at < config_file_names().len(),
        files.contains(path::joined(dir, config_file_names()[at])),
        forall|i: int|
            0 <= i < at ==> !files.contains(path::joined(dir, #[trigger] config_file_names()[i])),
    ensures
        nearest(dir, skip, files) == Some(path::joined(dir, config_file_names()[at])),
{
    let list = candidates(dir, skip);
    let own = files_in(dir);
    assert forall|i: int| 0 <= i < own.len() implies list[i] == path::joined(
        dir,
        #[trigger] config_file_names()[i],
    ) by {
        assert(list[i] == own[i]);
    }
    assert(list[at] == path::joined(dir, config_file_names()[at]));
    assert forall|i: int| 0 <= i < at implies !files.contains(#[trigger] list[i]) by {
        assert(list[i] == path::joined(dir, config_file_names()[i]));
    }
    first_present_is(list, files, at);
}

/// The first place in a list that holds a file is what is found.
proof fn first_present_is(list: Seq<Seq<char>>, files: Seq<Seq<char>>, at: int)
    requires
        0 <= at <= list.len(),
        at < list.len() ==> files.contains(list[at]),
        forall|i: int| 0 <= i < at ==> !files.contains(#[trigger] list[i]),
    ensures
        first_present(list, files) == first_present(list.skip(at), files),
        at < list.len() ==> first_present(list, files) == Some(list[at]),
    decreases at,
{
    if at == 0 {
        assert(list.skip(0) =~= list);
    } else {
        assert(!files.contains(list[0]));
        assert forall|i: int| 0 <= i < at - 1 implies !files.contains(
            #[trigger] list.skip(1)[i],
        ) by {
            assert(list.skip(1)[i] == list[i + 1]);
        }
        first_present_is(list.skip(1), files, at - 1);
        assert(list.skip(1).skip(at - 1) =~= list.skip(at));
    }
}

proof fn nothing_present(list: Seq<Seq<char>>, rest: Seq<Seq<char>>, files: Seq<Seq<char>>)
    requires
        forall|i: int| 0 <= i < list.len() ==> !files.contains(#[trigger] list[i]),
    ensures
        first_present(list + rest, files) == first_present(rest, files),
    decreases list.len(),
{
    if list.len() == 0 {
        assert(list + rest =~= rest);
    } else {
        let all = list + rest;
        assert(all[0] == list[0]);
        assert(all.skip(1) =~= list.skip(1) + rest);
        assert forall|i: int| 0 <= i < list.skip(1).len() implies !files.contains(
            #[trigger] list.skip(1)[i],
        ) by {
            assert(list.skip(1)[i] == list[i + 1]);
        }
        nothing_present(list.skip(1), rest, files);
    }
}

/// A directory without a config, or one that is left out, is governed like its
/// parent.
pub proof fn law_search_walks_up(
    dir: Seq<char>,
    skip: Option<Seq<u8>>,
    files: Seq<Seq<char>>,
)
    requires
        !skipped(dir, skip) ==> forall|i: int|
            0 <= i < config_file_names().len() ==> !files.contains(
                path::joined(dir, #[trigger] config_file_names()[i]),
            ),
    ensures
        nearest(dir, skip, files) == match path::parent_of(dir) {
            Some(up) => nearest(up, skip, files),
            None => None,
        },
{
    let own = if skipped(dir, skip) {
        Seq::empty()
    } else {
        files_in(dir)
    };
    assert forall|i: int| 0 <= i < own.len() implies !files.contains(#[trigger] own[i]) by {
        assert(own[i] == path::joined(dir, config_file_names()[i]));
    }
    match path::parent_of(dir) {
        Some(up) => {
            nothing_present(own, candidates(up, skip), files);
        },
        None => {
            nothing_present(own, Seq::empty(), files);
            assert(own + Seq::<Seq<char>>::empty() =~= own);
        },
    }
}

/// Whether `up` is `dir` or a directory above it.
pub open spec fn at_or_above(up: Seq<char>, dir: Seq<char>) -> bool
    decreases dir.len(),
{
    proof {
        path::law_parent_is_shorter(dir);
    }
    up == dir || match path::parent_of(dir) {
        Some(next) => at_or_above(up, next),
        None => false,
    }
}

/// The components of a directory above another one are the first of its own.
pub proof fn law_directories_above_are_prefixes(up: Seq<char>, dir: Seq<char>)
    requires
        at_or_above(up, dir),
    ensures
        path::components(up).is_prefix_of(path::components(dir)),
    decreases dir.len(),
{
    path::law_parent_is_shorter(dir);
    let own = path::components(dir);
    if up == dir {
        assert(own =~= own.subrange(0, own.len() as int));
    } else {
        let next = path::parent_of(dir)->Some_0;
        law_directories_above_are_prefixes(up, next);
        path::law_parent_drops_the_last_component(dir);
        let above = path::components(up);
        assert(above =~= own.subrange(0, above.len() as int)) by {
            assert(above =~= path::components(next).subrange(0, above.len() as int));
        }
    }
}

/// A config that is found lies in the directory itself or one above it, never
/// in the directory that is left out, and it is one of the files that exist.
pub proof fn law_found_configs_are_claims(
    dir: Seq<char>,
    skip: Option<Seq<u8>>,
    files: Seq<Seq<char>>,
)
    ensures
        nearest(dir, skip, files) matches Some(found) ==> {
            &&& files.contains(found)
            &&& exists|up: Seq<char>, i: int|
                {
                    &&& #[trigger] at_or_above(up, dir)
                    &&& !skipped(up, skip)
                    &&& 0 <= i < config_file_names().len()
                    &&& found == path::joined(up, #[trigger] config_file_names()[i])
                }
        },
{
    if let Some(found) = nearest(dir, skip, files) {
        present_is_listed(candidates(dir, skip), files);
        let k = choose|k: int| 0 <= k < candidates(dir, skip).len() && candidates(dir, skip)[k]
            == found;
        candidate_is_claim(dir, skip, k);
    }
}

proof fn present_is_listed(list: Seq<Seq<char>>, files: Seq<Seq<char>>)
    ensures
        first_present(list, files) matches Some(found) ==> {
            &&& files.contains(found)
            &&& exists|k: int| 0 <= k < list.len() && list[k] == found
        },
    decreases list.len(),
{
    if list.len() > 0 {
        if files.contains(list[0]) {
            assert(list[0] == list[0]);
        } else {
            present_is_listed(list.skip(1), files);
            if let Some(found) = first_present(list, files) {
                let k = choose|k: int| 0 <= k < list.skip(1).len() && list.skip(1)[k] == found;
                assert(list[k + 1] == found);
            }
        }
    }
}

proof fn candidate_is_claim(dir: Seq<char>, skip: Option<Seq<u8>>, k: int)
    requires
        0 <= k < candidates(dir, skip).len(),
    ensures
        exists|up: Seq<char>, i: int|
            {
                &&& #[trigger] at_or_above(up, dir)
                &&& !skipped(up, skip)
                &&& 0 <= i < config_file_names().len()
                &&& candidates(dir, skip)[k] == path::joined(
                    up,
                    #[trigger] config_file_names()[i],
                )
            },
    decreases dir.len(),
{
    path::law_parent_is_shorter(dir);
    let own = if skipped(dir, skip) {
        Seq::empty()
    } else {
        files_in(dir)
    };
    if k < own.len() {
        assert(candidates(dir, skip)[k] == own[k]);
        assert(at_or_above(dir, dir));
        assert(own[k] == path::joined(dir, config_file_names()[k]));
    } else {
        let next = path::parent_of(dir)->Some_0;
        assert(candidates(dir, skip)[k] == candidates(next, skip)[k - own.len()]);
        candidate_is_claim(next, skip, k - own.len());
        let (up, i) = choose|up: Seq<char>, i: int|
            {
                &&& #[trigger] at_or_above(up, next)
                &&& !skipped(up, skip)
                &&& 0 <= i < config_file_names().len()
                &&& candidates(next, skip)[k - own.len()] == path::joined(
                    up,
                    #[trigger] config_file_names()[i],
                )
            };
        assert(at_or_above(up, dir));
    }
}

/// Whether a local config can be merged with a profile: it is an object, and
/// extends nothing, a single entry or a list of them.
pub open spec fn mergeable(local: json::Tree) -> bool {
    &&& local is Object
    &&& match local.get("extends"@) {
        None => true,
        Some(extends) => extends is Text || extends is Array,
    }
}

/// What a local config extends once a profile stands before it.
pub open spec fn extends_with(
    extends: Option<json::Tree>,
    profile: Seq<char>,
) -> json::Tree {
    match extends {
        Some(json::Tree::Array(entries)) => json::Tree::Array(
            seq![json::Tree::Text(profile)] + entries,
        ),
        Some(entry) => json::Tree::Array(seq![json::Tree::Text(profile), entry]),
        None => json::Tree::Text(profile),
    }
}

/// A local config that extends a profile besides what it extends itself.
pub open spec fn merged_with(local: json::Tree, profile: Seq<char>) -> json::Tree {
    local.with("extends"@, extends_with(local.get("extends"@), profile))
}

/// Merges a local config with a profile: the profile goes before everything that
/// the local config extends, so that local settings win.
pub fn merge_profile(local: &mut Json, profile: &str)
    requires
        mergeable(old(local)@),
    ensures
        final(local)@ == merged_with(old(local)@, profile@),
{
    broadcast use json::tree_of_array;

    let profile_entry = Json::Text(copy_of(profile));
    let extends = match local.get("extends") {
        None => profile_entry,
        Some(value) => {
            let mut entries = vec![profile_entry];
            match value.as_array() {
                Some(own) => {
                    let mut i: usize = 0;
                    assert(json::trees(entries@) =~= seq![json::Tree::Text(profile@)]
                        + json::trees(own@).take(0));
                    while i < own.len()
                        invariant
                            i <= own@.len(),
                            json::trees(entries@) == seq![json::Tree::Text(profile@)]
                                + json::trees(own@).take(i as int),
                        decreases own@.len() - i,
                    {
                        let ghost before = entries@;
                        let entry = own[i].copy();
                        let ghost tree = entry@;
                        entries.push(entry);
                        assert(json::trees(entries@) =~= json::trees(before).push(tree));
                        assert(json::trees(entries@) =~= seq![json::Tree::Text(profile@)]
                            + json::trees(own@).take(i + 1));
                        i += 1;
                    }
                    assert(json::trees(own@).take(i as int) =~= json::trees(own@));
                },
                None => {
                    entries.push(value.copy());
                    assert(json::trees(entries@) =~= seq![json::Tree::Text(profile@), value@]);
                },
            }
            Json::Array(entries)
        },
    };
    local.set("extends", extends);
}

/// Whether a local config can be merged with a profile.
pub fn is_mergeable(local: &Json) -> (yes: bool)
    ensures
        yes == mergeable(local@),
{
    match local {
        Json::Object(_) => match local.get("extends") {
            None => true,
            Some(extends) => match extends {
                Json::Text(_) => true,
                Json::Array(_) => true,
                _ => false,
            },
        },
        _ => false,
    }
}

/// A merged config extends the profile first, and the rest of the local config
/// stays as it is.
pub proof fn law_profile_comes_first(local: json::Tree, profile: Seq<char>)
    requires
        mergeable(local),
    ensures
        merged_with(local, profile).get("extends"@) == Some(
            extends_with(local.get("extends"@), profile),
        ),
        match extends_with(local.get("extends"@), profile) {
            json::Tree::Array(entries) => entries.len() > 0 && entries[0] == json::Tree::Text(
                profile,
            ),
            other => other == json::Tree::Text(profile) && local.get("extends"@) is None,
        },
        forall|key: Seq<char>|
            key != "extends"@ ==> #[trigger] merged_with(local, profile).get(key) == local.get(
                key,
            ),
{
    json::law_set_members_are_found(
        local,
        "extends"@,
        extends_with(local.get("extends"@), profile),
    );
}

/// Of the config files that a directory holds, the first of `dprint.json`,
/// `dprint.jsonc`, `.dprint.json` and `.dprint.jsonc` governs it, whatever lies
/// above. Where it holds none of them, its parent decides.
pub proof fn law_names_have_an_order(dir: Seq<char>, skip: Option<Seq<u8>>, files: Seq<Seq<char>>)
    requires
        !skipped(dir, skip),
    ensures
        nearest(dir, skip, files) == if files.contains(path::joined(dir, "dprint.json"@)) {
            Some(path::joined(dir, "dprint.json"@))
        } else if files.contains(path::joined(dir, "dprint.jsonc"@)) {
            Some(path::joined(dir, "dprint.jsonc"@))
        } else if files.contains(path::joined(dir, ".dprint.json"@)) {
            Some(path::joined(dir, ".dprint.json"@))
        } else if files.contains(path::joined(dir, ".dprint.jsonc"@)) {
            Some(path::joined(dir, ".dprint.jsonc"@))
        } else {
            match path::parent_of(dir) {
                Some(up) => nearest(up, skip, files),
                None => None,
            }
        },
{
    let names = config_file_names();
    assert(names[0] == "dprint.json"@ && names[1] == "dprint.jsonc"@ && names[2]
        == ".dprint.json"@ && names[3] == ".dprint.jsonc"@);
    if files.contains(path::joined(dir, names[0])) {
        law_first_name_wins(dir, skip, files, 0);
    } else if files.contains(path::joined(dir, names[1])) {
        law_first_name_wins(dir, skip, files, 1);
    } else if files.contains(path::joined(dir, names[2])) {
        law_first_name_wins(dir, skip, files, 2);
    } else if files.contains(path::joined(dir, names[3])) {
        law_first_name_wins(dir, skip, files, 3);
    } else {
        law_search_walks_up(dir, skip, files);
    }
}

/// The directory that is left out governs nothing, however it is spelled: its
/// config files are passed over. Every other directory is searched.
pub proof fn law_one_directory_is_left_out(dir: Seq<char>, other: Seq<char>, files: Seq<Seq<char>>)
    ensures
        path::components(dir) == path::components(other) ==> nearest(
            dir,
            Some(encode_utf8(other)),
            files,
        ) == match path::parent_of(dir) {
            Some(up) => nearest(up, Some(encode_utf8(other)), files),
            None => None,
        },
        path::components(dir) != path::components(other) ==> !skipped(
            dir,
            Some(encode_utf8(other)),
        ),
        !skipped(dir, None),
{
    file_path::law_text_and_bytes_agree(dir, other);
    if path::components(dir) == path::components(other) {
        law_search_walks_up(dir, Some(encode_utf8(other)), files);
    }
}

/// The directory of dprint's global config is the one that is named, unless the
/// name is empty. Without a name it is `dprint` below the user's configuration
/// directory, and without that there is none.
pub proof fn law_named_directories_come_first(
    named: Seq<u8>,
    config_dir: Option<Seq<u8>>,
    dir: Seq<u8>,
)
    ensures
        named.len() > 0 ==> global_dir(Some(named), config_dir) == Some(named),
        named.len() == 0 ==> global_dir(Some(named), config_dir) == global_dir(None, config_dir),
        global_dir(None, None) is None,
        dir.len() > 0 && dir.last() != 0x2f ==> global_dir(None, Some(dir)) == Some(
            dir + encode_utf8("/dprint"@),
        ),
{
    let slash = seq!['/'];
    reveal_strlit("/dprint");
    reveal_strlit("dprint");
    assert("/dprint"@ =~= slash + "dprint"@);
    text::encoding_of_parts(slash, "dprint"@);
    assert(is_ascii_chars(slash));
    is_ascii_chars_encode_utf8(slash);
    assert(slash[0] as u8 == encode_utf8(slash)[0]);
    assert(encode_utf8(slash) =~= seq![0x2fu8]);
    let name = encode_utf8("dprint"@);
    assert(is_ascii_chars("dprint"@));
    is_ascii_chars_encode_utf8("dprint"@);
    assert("dprint"@[0] as u8 == name[0]);
    if dir.len() > 0 && dir.last() != 0x2f {
        assert(file_path::joined(dir, name) =~= dir + (seq![0x2fu8] + name));
    }
}

/// Plain JSON is read as it stands.
pub proof fn law_plain_json_is_read_as_it_stands(content: Seq<char>)
    requires
        jsonc::plain_json(content),
    ensures
        local_config_of(content) == json::parsed_tree(content),
{
    jsonc::law_plain_json_is_unchanged(content);
}

/// A merged config extends the profile and then, in order, all that the local
/// config extended. A local config that extended nothing extends the profile
/// alone.
pub proof fn law_merging_keeps_what_was_extended(
    local: json::Tree,
    profile: Seq<char>,
    target: Seq<char>,
    entries: Seq<json::Tree>,
)
    requires
        mergeable(local),
    ensures
        local.get("extends"@) is None ==> merged_with(local, profile).get("extends"@) == Some(
            json::Tree::Text(profile),
        ),
        local.get("extends"@) == Some(json::Tree::Text(target)) ==> merged_with(local, profile).get(
            "extends"@,
        ) == Some(json::Tree::Array(seq![json::Tree::Text(profile), json::Tree::Text(target)])),
        local.get("extends"@) == Some(json::Tree::Array(entries)) ==> merged_with(
            local,
            profile,
        ).get("extends"@) == Some(json::Tree::Array(seq![json::Tree::Text(profile)] + entries)),
{
    law_profile_comes_first(local, profile);
}

/// A local config can be merged where it is an object whose `extends` is missing,
/// a string or a list.
pub proof fn law_objects_are_merged(local: json::Tree)
    ensures
        mergeable(local) <==> local is Object && match local.get("extends"@) {
            None => true,
            Some(json::Tree::Text(_)) => true,
            Some(json::Tree::Array(_)) => true,
            Some(_) => false,
        },
{
}

/// The files to look for are those of the directory itself, in dprint's order,
/// and then those of the directories above it, up to the topmost.
pub proof fn law_candidates_go_up(dir: Seq<char>, skip: Option<Seq<u8>>)
    ensures
        !skipped(dir, skip) ==> candidates(dir, skip) == seq![
            path::joined(dir, "dprint.json"@),
            path::joined(dir, "dprint.jsonc"@),
            path::joined(dir, ".dprint.json"@),
            path::joined(dir, ".dprint.jsonc"@),
        ] + (match path::parent_of(dir) {
            Some(up) => candidates(up, skip),
            None => Seq::empty(),
        }),
        skipped(dir, skip) ==> candidates(dir, skip) == match path::parent_of(dir) {
            Some(up) => candidates(up, skip),
            None => Seq::empty(),
        },
{
    let none = Seq::<Seq<char>>::empty();
    let own = seq![
        path::joined(dir, "dprint.json"@),
        path::joined(dir, "dprint.jsonc"@),
        path::joined(dir, ".dprint.json"@),
        path::joined(dir, ".dprint.jsonc"@),
    ];
    assert(files_in(dir) =~= own);
    assert(own + none =~= own);
    if let Some(up) = path::parent_of(dir) {
        assert(none + candidates(up, skip) =~= candidates(up, skip));
    }
}

/// A local config may hold comments and commas before closing brackets: it is
/// read as the same document without them.
pub proof fn law_comments_do_not_change_a_config(page: Page)
    requires
        jsonc_laws::sound_page(page),
    ensures
        local_config_of(jsonc_laws::page_text(page, true, true)) == json::parsed_tree(
            jsonc_laws::page_text(jsonc_laws::bare_page(page), true, true),
        ),
{
    jsonc_laws::law_stripping_keeps_the_value(page);
}

} // verus!
