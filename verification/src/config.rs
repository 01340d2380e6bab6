//! The configuration file `dprintx.jsonc`: named profiles, the rules that pick
//! one for a file, and the options of the language server proxy.
//!
//! ```jsonc
//! {
//!   "dprint": "~/.cargo/bin/dprint",
//!   "profiles": {
//!     "maintainer": "~/.config/dprint/dprint-maintainer.jsonc",
//!     "default": "~/.config/dprint/dprint-default.jsonc",
//!     "ignore": null,
//!   },
//!   "match": {
//!     "**/noc/cmdb/**": "maintainer",
//!     "**": "default",
//!   },
//!   "match_content": {
//!     "^// Code generated .+ DO NOT EDIT\\.$": "ignore",
//!   },
//! }
//! ```

use vstd::prelude::*;
use vstd::utf8::*;

use crate::assoc;
use crate::file_path::{self, borrow, FilePath};
use crate::json::{Json, Tree};
use crate::path;
use crate::text::{self, strip_prefix};

verus! {

/// Why a configuration cannot be used.
#[derive(Debug, Clone, Copy, PartialEq, Eq, Structural)]
pub enum ConfigError {
    /// The user has no configuration directory.
    NoConfigDir,
    /// A pattern of `match_content` is no regular expression.
    InvalidRegex,
    /// A local dprint config is not valid JSON.
    InvalidLocalConfig,
}

impl ConfigError {
    /// The error in words.
    pub fn message(&self) -> (text: &'static str)
        ensures
            text@ == match *self {
                ConfigError::NoConfigDir => "cannot determine config directory"@,
                ConfigError::InvalidRegex => "invalid regex in match_content"@,
                ConfigError::InvalidLocalConfig => "parsing local dprint config"@,
            },
    {
        match self {
            ConfigError::NoConfigDir => "cannot determine config directory",
            ConfigError::InvalidRegex => "invalid regex in match_content",
            ConfigError::InvalidLocalConfig => "parsing local dprint config",
        }
    }
}

/// Result of resolving a profile name.
#[derive(Debug)]
pub enum ProfileResolution {
    /// Profile maps to a config file path.
    Config(FilePath),
    /// Profile is explicitly set to null (ignore/skip file).
    Ignore,
}

/// The same, over mathematical values.
pub ghost enum Resolution {
    Config(Seq<u8>),
    Ignore,
}

impl View for ProfileResolution {
    type V = Resolution;

    open spec fn view(&self) -> Resolution {
        match self {
            ProfileResolution::Config(path) => Resolution::Config(path@),
            ProfileResolution::Ignore => Resolution::Ignore,
        }
    }
}

impl Clone for ProfileResolution {
    fn clone(&self) -> (out: ProfileResolution)
        ensures
            out@ == self@,
    {
        match self {
            ProfileResolution::Config(path) => ProfileResolution::Config(path.copy()),
            ProfileResolution::Ignore => ProfileResolution::Ignore,
        }
    }
}

/// Config files are compared as paths.
impl PartialEq for ProfileResolution {
    fn eq(&self, other: &ProfileResolution) -> (same: bool) {
        match (self, other) {
            (ProfileResolution::Config(a), ProfileResolution::Config(b)) => a.is_same(b),
            (ProfileResolution::Ignore, ProfileResolution::Ignore) => true,
            _ => false,
        }
    }
}

impl Eq for ProfileResolution {

}

impl vstd::std_specs::cmp::PartialEqSpecImpl for ProfileResolution {
    open spec fn obeys_eq_spec() -> bool {
        true
    }

    open spec fn eq_spec(&self, other: &ProfileResolution) -> bool {
        match (*self, *other) {
            (ProfileResolution::Config(a), ProfileResolution::Config(b)) => {
                file_path::components(a@) == file_path::components(b@)
            },
            (ProfileResolution::Ignore, ProfileResolution::Ignore) => true,
            _ => false,
        }
    }
}

/// A resolution that may be missing.
pub open spec fn resolution_option(resolution: Option<ProfileResolution>) -> Option<Resolution> {
    match resolution {
        Some(r) => Some(r@),
        None => None,
    }
}

/// dprintx.jsonc configuration.
#[derive(Debug)]
pub struct DprintxConfig {
    /// Directory containing the dprintx.jsonc config file.
    /// Used to resolve relative paths in profile configs.
    pub config_dir: FilePath,
    /// Path to real dprint binary.
    pub dprint: String,
    /// Named profiles: name → config path (string) or null (ignore).
    pub profiles: Vec<(String, Json)>,
    /// Ordered match rules: glob pattern → profile name.
    pub match_rules: Vec<(String, Json)>,
    /// Ordered content match rules: regex pattern → profile name.
    /// First match wins and overrides the path-matched profile.
    pub match_content: Option<Vec<(String, Json)>>,
    /// Optional diff pager command for `dprint check` (e.g. "delta -s").
    pub diff_pager: Option<String>,
    /// Rewrite file URIs in LSP based on editor's languageId.
    pub lsp_rewrite_uris: bool,
    /// How long to wait for a backend reply, in milliseconds.
    pub lsp_timeout_ms: u64,
    /// Pass `--no-gitignore` to backends so gitignored files still format in
    /// the editor.
    pub lsp_no_gitignore: bool,
}

/// How long to wait for a backend where the configuration does not say.
pub fn default_lsp_timeout_ms() -> (ms: u64)
    ensures
        ms == 30_000,
{
    30_000
}

/// Whether gitignored files format where the configuration does not say.
pub fn default_lsp_no_gitignore() -> (yes: bool)
    ensures
        yes,
{
    true
}

/// The user's home directory (`dirs::home_dir`), as the bytes of its path. What
/// it is depends on the environment.
#[verifier::external_body]
fn find_home_dir() -> (home: Option<Vec<u8>>) {
    dirs::home_dir().map(|home| home.into_os_string().into_encoded_bytes())
}

/// The user's configuration directory (`dirs::config_dir`), as the bytes of its
/// path. What it is depends on the environment.
#[verifier::external_body]
fn find_config_dir() -> (dir: Option<Vec<u8>>) {
    dirs::config_dir().map(|dir| dir.into_os_string().into_encoded_bytes())
}

/// What a path says that may be missing.
pub open spec fn bytes_option(bytes: Option<Vec<u8>>) -> Option<Seq<u8>> {
    match bytes {
        Some(bytes) => Some(bytes@),
        None => None,
    }
}

/// Whether `home` is what the environment gives as the user's home directory:
/// an outcome of asking for it.
pub closed spec fn is_home(home: Option<Seq<u8>>) -> bool {
    exists|found: Option<Vec<u8>>|
        #[trigger] call_ensures(find_home_dir, (), found) && bytes_option(found) == home
}

/// Whether `dir` is what the environment gives as the user's configuration
/// directory: an outcome of asking for it.
pub closed spec fn is_config_dir(dir: Option<Seq<u8>>) -> bool {
    exists|found: Option<Vec<u8>>|
        #[trigger] call_ensures(find_config_dir, (), found) && bytes_option(found) == dir
}

/// The user's home directory, where it is known.
pub(crate) fn home_dir() -> (home: Option<FilePath>)
    ensures
        is_home(file_path::path_option(home)),
{
    let ask = find_home_dir;
    let found = ask();
    assert(call_ensures(find_home_dir, (), found));
    match found {
        Some(bytes) => Some(FilePath::from_bytes(bytes)),
        None => None,
    }
}

/// The user's configuration directory, where it is known.
pub(crate) fn config_dir() -> (dir: Option<FilePath>)
    ensures
        is_config_dir(file_path::path_option(dir)),
{
    let ask = find_config_dir;
    let found = ask();
    assert(call_ensures(find_config_dir, (), found));
    match found {
        Some(bytes) => Some(FilePath::from_bytes(bytes)),
        None => None,
    }
}

/// The path that a text names, with a `~` before its first separator replaced by
/// the home directory.
pub open spec fn expanded(path: Seq<char>, home: Option<Seq<u8>>) -> Seq<u8> {
    match (text::after_prefix(path, "~/"@), home) {
        (Some(rest), Some(home)) => file_path::joined(home, encode_utf8(rest)),
        _ => encode_utf8(path),
    }
}

/// A path of the configuration: `~` expanded, and seen from `dir`.
pub open spec fn resolved(dir: Seq<u8>, path: Seq<char>, home: Option<Seq<u8>>) -> Seq<u8> {
    file_path::joined(dir, expanded(path, home))
}

/// Expands `~` to the home directory in a path.
pub fn expand_tilde(path: &str) -> (out: FilePath)
    ensures
        exists|home: Option<Seq<u8>>|
            is_home(home) && out@ == #[trigger] expanded(path@, home),
{
    let home = home_dir();
    let out = expand_tilde_in(path, borrow(&home));
    assert(out@ == expanded(path@, file_path::path_option(home)));
    out
}

/// Expands `~` to the given home directory in a path.
pub fn expand_tilde_in(path: &str, home: Option<&FilePath>) -> (out: FilePath)
    ensures
        out@ == expanded(path@, file_path::borrowed_option(home)),
{
    if let Some(home) = home {
        if let Some(rest) = strip_prefix(path, "~/") {
            return home.join(&FilePath::from_text(rest.as_str()));
        }
    }
    FilePath::from_text(path)
}

/// What a profile name stands for in a configuration.
pub open spec fn profile_of(
    config: DprintxConfig,
    name: Seq<char>,
    home: Option<Seq<u8>>,
) -> Option<Resolution> {
    match assoc::lookup(assoc::entries(config.profiles@), name) {
        Some(Tree::Text(path)) => Some(
            Resolution::Config(resolved(config.config_dir@, path, home)),
        ),
        Some(Tree::Null) => Some(Resolution::Ignore),
        _ => None,
    }
}

/// The rules of a list: its strings, with the patterns that they stand under.
pub open spec fn rules_of(members: Seq<(Seq<char>, Tree)>) -> Seq<(Seq<char>, Seq<char>)>
    decreases members.len(),
{
    if members.len() == 0 {
        Seq::empty()
    } else {
        let before = rules_of(members.drop_last());
        match members.last().1.text() {
            Some(profile) => before.push((members.last().0, profile)),
            None => before,
        }
    }
}

/// What a list of pairs of texts holds.
pub open spec fn pairs(list: Seq<(&str, &str)>) -> Seq<(Seq<char>, Seq<char>)> {
    list.map_values(|pair: (&str, &str)| (pair.0@, pair.1@))
}

/// The content rules of a configuration.
pub open spec fn content_rules_of(config: DprintxConfig) -> Seq<(Seq<char>, Seq<char>)> {
    match config.match_content {
        Some(members) => rules_of(assoc::entries(members@)),
        None => Seq::empty(),
    }
}

fn collect_rules(members: &Vec<(String, Json)>) -> (rules: Vec<(&str, &str)>)
    ensures
        pairs(rules@) == rules_of(assoc::entries(members@)),
{
    let ghost all = assoc::entries(members@);
    let mut rules: Vec<(&str, &str)> = Vec::new();
    let mut i: usize = 0;
    assert(pairs(rules@) =~= rules_of(all.take(0)));
    while i < members.len()
        invariant
            i <= members@.len(),
            all == assoc::entries(members@),
            pairs(rules@) == rules_of(all.take(i as int)),
        decreases members@.len() - i,
    {
        assert(all.take(i + 1).drop_last() =~= all.take(i as int));
        assert(all.take(i + 1).last() == all[i as int]);
        let ghost before = rules@;
        if let Some(profile) = members[i].1.as_str() {
            rules.push((members[i].0.as_str(), profile));
            assert(pairs(rules@) =~= pairs(before).push((all[i as int].0, profile@)));
        }
        i += 1;
    }
    assert(all.take(all.len() as int) =~= all);
    rules
}

/// Where the configuration is looked for by default, in the user's
/// configuration directory.
pub open spec fn default_path_in(dir: Seq<u8>) -> Seq<u8> {
    file_path::joined(
        file_path::joined(dir, encode_utf8("dprint"@)),
        encode_utf8("dprintx.jsonc"@),
    )
}

/// The default location of the configuration: `dprint/dprintx.jsonc` in the
/// user's configuration directory.
pub fn default_config_path() -> (path: Result<FilePath, ConfigError>)
    ensures
        match path {
            Ok(path) => exists|dir: Seq<u8>|
                is_config_dir(Some(dir)) && path@ == #[trigger] default_path_in(dir),
            Err(error) => error == ConfigError::NoConfigDir && is_config_dir(None),
        },
{
    match config_dir() {
        Some(dir) => {
            let path = default_config_path_in(&dir);
            assert(path@ == default_path_in(dir@));
            Ok(path)
        },
        None => Err(ConfigError::NoConfigDir),
    }
}

/// The default location of the configuration in a given configuration
/// directory.
pub fn default_config_path_in(dir: &FilePath) -> (path: FilePath)
    ensures
        path@ == default_path_in(dir@),
{
    dir.join(&FilePath::from_text("dprint")).join(&FilePath::from_text("dprintx.jsonc"))
}

/// The directory that the relative paths of a configuration are seen from, given
/// the path of its file.
pub open spec fn config_dir_of(path: Seq<u8>) -> Seq<u8> {
    match file_path::parent_of(path) {
        Some(dir) => dir,
        None => Seq::empty(),
    }
}

impl DprintxConfig {
    /// The configuration as it was loaded from `path`: its relative paths are
    /// seen from the directory of that file.
    pub fn load(self, path: &FilePath) -> (config: DprintxConfig)
        ensures
            config.config_dir@ == match file_path::parent_of(path@) {
                Some(dir) => dir,
                None => Seq::empty(),
            },
            config.config_dir@ == config_dir_of(path@),
            (DprintxConfig { config_dir: self.config_dir, ..config }) == self,
    {
        let dir = match path.parent() {
            Some(dir) => dir,
            None => FilePath::from_bytes(Vec::new()),
        };
        let mut config = self;
        config.config_dir = dir;
        config
    }

    /// Resolves the dprint binary path (expands ~ and relative paths).
    pub fn dprint_path(&self) -> (path: FilePath)
        ensures
            exists|home: Option<Seq<u8>>|
                is_home(home) && path@ == #[trigger] resolved(
                    self.config_dir@,
                    self.dprint@,
                    home,
                ),
    {
        self.resolve_path(self.dprint.as_str())
    }

    /// Resolves a path: expands ~ and resolves relative paths against
    /// `config_dir`.
    pub fn resolve_path(&self, path: &str) -> (out: FilePath)
        ensures
            exists|home: Option<Seq<u8>>|
                is_home(home) && out@ == #[trigger] resolved(self.config_dir@, path@, home),
    {
        let home = home_dir();
        let out = self.resolve_path_in(path, borrow(&home));
        assert(out@ == resolved(self.config_dir@, path@, file_path::path_option(home)));
        out
    }

    /// Resolves a path for a user with the given home directory.
    pub fn resolve_path_in(&self, path: &str, home: Option<&FilePath>) -> (out: FilePath)
        ensures
            out@ == resolved(self.config_dir@, path@, file_path::borrowed_option(home)),
    {
        self.config_dir.join(&expand_tilde_in(path, home))
    }

    /// Resolves a profile name to its resolution (config path or ignore).
    ///
    /// Returns:
    /// - `Some(Config(path))` if profile maps to a config file path
    /// - `Some(Ignore)` if profile is explicitly null
    /// - `None` if profile name is not defined
    ///
    /// Relative paths are resolved against the config file directory.
    pub fn resolve_profile(&self, profile_name: &str) -> (resolution: Option<ProfileResolution>)
        ensures
            exists|home: Option<Seq<u8>>|
                is_home(home) && resolution_option(resolution) == #[trigger] profile_of(
                    *self,
                    profile_name@,
                    home,
                ),
    {
        let home = home_dir();
        let resolution = self.resolve_profile_in(profile_name, borrow(&home));
        assert(resolution_option(resolution) == profile_of(
            *self,
            profile_name@,
            file_path::path_option(home),
        ));
        resolution
    }

    /// Resolves a profile name for a user with the given home directory.
    pub fn resolve_profile_in(&self, profile_name: &str, home: Option<&FilePath>) -> (resolution:
        Option<ProfileResolution>)
        ensures
            resolution_option(resolution) == profile_of(
                *self,
                profile_name@,
                file_path::borrowed_option(home),
            ),
    {
        let at = assoc::find(&self.profiles, profile_name);
        if at < self.profiles.len() {
            match &self.profiles[at].1 {
                Json::Text(path) => Some(
                    ProfileResolution::Config(self.resolve_path_in(path.as_str(), home)),
                ),
                Json::Null => Some(ProfileResolution::Ignore),
                _ => None,
            }
        } else {
            None
        }
    }

    /// The ordered match rules as (glob_pattern, profile_name) pairs.
    pub fn match_rules_iter(&self) -> (rules: Vec<(&str, &str)>)
        ensures
            pairs(rules@) == rules_of(assoc::entries(self.match_rules@)),
    {
        collect_rules(&self.match_rules)
    }

    /// The ordered content match rules as (regex_pattern, profile_name) pairs:
    /// none if `match_content` is not configured.
    pub fn match_content_rules_iter(&self) -> (rules: Vec<(&str, &str)>)
        ensures
            pairs(rules@) == content_rules_of(*self),
    {
        match &self.match_content {
            Some(members) => collect_rules(members),
            None => {
                let rules: Vec<(&str, &str)> = Vec::new();
                assert(pairs(rules@) =~= Seq::empty());
                rules
            },
        }
    }
}

/// Only a path that starts with `~/` depends on the home directory.
pub proof fn law_only_a_tilde_asks_for_home(path: Seq<char>, home: Option<Seq<u8>>)
    requires
        !"~/"@.is_prefix_of(path),
    ensures
        expanded(path, home) == encode_utf8(path),
{
}

/// An absolute path of the configuration stays as it is, wherever the
/// configuration lies.
pub proof fn law_absolute_paths_stay(dir: Seq<u8>, path: Seq<char>, home: Option<Seq<u8>>)
    requires
        path::absolute(path),
    ensures
        resolved(dir, path, home) == encode_utf8(path),
{
    reveal_strlit("~/");
    if "~/"@.is_prefix_of(path) {
        assert("~/"@[0] == path.subrange(0, 2)[0]);
    }
    file_path::text_is_absolute(path);
}

/// A relative path of the configuration lies in the directory of the
/// configuration.
pub proof fn law_relative_paths_lie_in_the_config_dir(
    dir: Seq<u8>,
    path: Seq<char>,
    home: Option<Seq<u8>>,
)
    requires
        !path::absolute(path),
        !"~/"@.is_prefix_of(path),
    ensures
        ({
            let place = file_path::letters(resolved(dir, path, home));
            let own = file_path::letters(encode_utf8(path));
            &&& path::relative_to(place, file_path::letters(dir)) is Some
            &&& dir.len() > 0 ==> path::components(place) == file_path::components(dir)
                + path::named_parts(own)
        }),
{
    let base = file_path::letters(dir);
    let own = file_path::letters(encode_utf8(path));
    file_path::text_is_absolute(path);
    file_path::joined_in_letters(dir, encode_utf8(path));
    assert(!path::absolute(own));
    path::law_joined_paths_lie_inside(base, own);
    if dir.len() > 0 {
        path::law_joining_appends(base, own);
    }
}

/// Rules come in the order in which the configuration lists them.
pub proof fn law_rules_keep_their_order(
    first: Seq<(Seq<char>, Tree)>,
    second: Seq<(Seq<char>, Tree)>,
)
    ensures
        rules_of(first + second) == rules_of(first) + rules_of(second),
    decreases second.len(),
{
    if second.len() == 0 {
        assert(first + second =~= first);
        assert(rules_of(first) + rules_of(second) =~= rules_of(first));
    } else {
        let all = first + second;
        assert(all.drop_last() =~= first + second.drop_last());
        assert(all.last() == second.last());
        law_rules_keep_their_order(first, second.drop_last());
    }
}

/// A path that starts with `~/` lies in the home directory: its rest follows the
/// home directory, wherever the configuration lies. Without a home directory it
/// is a relative path like others.
pub proof fn law_tilde_stands_for_home(dir: Seq<u8>, rest: Seq<char>, home: Seq<u8>)
    requires
        !path::absolute(rest),
        home.len() > 0,
        home[0] == 0x2f,
    ensures
        expanded("~/"@ + rest, Some(home)) == file_path::joined(home, encode_utf8(rest)),
        resolved(dir, "~/"@ + rest, Some(home)) == expanded("~/"@ + rest, Some(home)),
        file_path::components(resolved(dir, "~/"@ + rest, Some(home))) == file_path::components(
            home,
        ) + path::named_parts(file_path::letters(encode_utf8(rest))),
        expanded("~/"@ + rest, None) == encode_utf8("~/"@ + rest),
        resolved(dir, "~/"@ + rest, None) == file_path::joined(dir, encode_utf8("~/"@ + rest)),
{
    text::law_prefixes_come_off("~/"@, rest, "~/"@ + rest);
    let place = file_path::joined(home, encode_utf8(rest));
    file_path::text_is_absolute(rest);
    assert(place[0] == home[0]);
    let base = file_path::letters(home);
    let own = file_path::letters(encode_utf8(rest));
    file_path::joined_in_letters(home, encode_utf8(rest));
    assert(!path::absolute(own)) by {
        if path::absolute(own) {
            assert(own[0] == encode_utf8(rest)[0] as char);
        }
    }
    path::law_joining_appends(base, own);
}

/// A profile stands for the path that the configuration gives it, as a path of
/// the configuration. Null says to ignore files; any other value, and a name that
/// is not listed, stands for nothing.
pub proof fn law_profiles_are_paths_or_null(
    config: DprintxConfig,
    name: Seq<char>,
    home: Option<Seq<u8>>,
    at: int,
)
    requires
        0 <= at <= config.profiles@.len(),
        forall|i: int| 0 <= i < at ==> (#[trigger] config.profiles@[i]).0@ != name,
        at < config.profiles@.len() ==> config.profiles@[at].0@ == name,
    ensures
        at == config.profiles@.len() ==> profile_of(config, name, home) is None,
        at < config.profiles@.len() ==> profile_of(config, name, home) == match config.profiles@[at].1@ {
            Tree::Text(path) => Some(
                Resolution::Config(
                    file_path::joined(config.config_dir@, expanded(path, home)),
                ),
            ),
            Tree::Null => Some(Resolution::Ignore),
            _ => None,
        },
{
    let list = assoc::entries(config.profiles@);
    assert forall|i: int| 0 <= i < at implies #[trigger] list[i].0 != name by {
        assert(list[i].0 == config.profiles@[i].0@);
    }
    assoc::first_is_position(list, name, at);
}

/// A rule is a pattern with a string under it. What else stands under a pattern
/// is no rule.
pub proof fn law_rules_are_strings(pattern: Seq<char>, value: Tree)
    ensures
        rules_of(seq![(pattern, value)]) == match value {
            Tree::Text(profile) => seq![(pattern, profile)],
            _ => Seq::empty(),
        },
        rules_of(Seq::empty()).len() == 0,
{
    let one = seq![(pattern, value)];
    let none = Seq::<(Seq<char>, Tree)>::empty();
    assert(rules_of(none) =~= Seq::<(Seq<char>, Seq<char>)>::empty());
    assert(one.drop_last() =~= none);
    assert(one.last() == (pattern, value));
    if let Tree::Text(profile) = value {
        assert(rules_of(one) =~= seq![(pattern, profile)]);
    } else {
        assert(rules_of(one) =~= Seq::empty());
    }
}

/// The default configuration is `dprint/dprintx.jsonc` below the configuration
/// directory.
pub proof fn law_default_config_lies_below_the_config_dir(dir: Seq<u8>)
    requires
        dir.len() > 0,
        dir.last() != 0x2f,
    ensures
        default_path_in(dir) == dir + encode_utf8("/dprint/dprintx.jsonc"@),
{
    let slash = seq!['/'];
    reveal_strlit("/dprint/dprintx.jsonc");
    reveal_strlit("dprint");
    reveal_strlit("dprintx.jsonc");
    assert("/dprint/dprintx.jsonc"@ =~= slash + ("dprint"@ + (slash + "dprintx.jsonc"@)));
    text::encoding_of_parts(slash, "dprint"@ + (slash + "dprintx.jsonc"@));
    text::encoding_of_parts("dprint"@, slash + "dprintx.jsonc"@);
    text::encoding_of_parts(slash, "dprintx.jsonc"@);
    assert(is_ascii_chars(slash));
    is_ascii_chars_encode_utf8(slash);
    assert(slash[0] as u8 == encode_utf8(slash)[0]);
    assert(encode_utf8(slash) =~= seq![0x2fu8]);
    let first = encode_utf8("dprint"@);
    let second = encode_utf8("dprintx.jsonc"@);
    assert(is_ascii_chars("dprint"@));
    is_ascii_chars_encode_utf8("dprint"@);
    assert("dprint"@[5] as u8 == first[5]);
    assert("dprint"@[0] as u8 == first[0]);
    assert(is_ascii_chars("dprintx.jsonc"@));
    is_ascii_chars_encode_utf8("dprintx.jsonc"@);
    assert("dprintx.jsonc"@[0] as u8 == second[0]);
    let folder = file_path::joined(dir, first);
    assert(folder =~= dir + seq![0x2fu8] + first);
    assert(folder.last() == first[5]);
    assert(default_path_in(dir) =~= dir + (seq![0x2fu8] + (first + (seq![0x2fu8] + second))));
}

/// A configuration is seen from the directory that holds its file: the root for a
/// file in the root, and nowhere in particular for a bare name.
pub proof fn law_configs_are_seen_from_their_directory(dir: Seq<u8>, name: Seq<u8>)
    requires
        path::segment(file_path::letters(name)),
    ensures
        path::ends_plainly(file_path::letters(dir)) ==> config_dir_of(dir + seq![0x2fu8] + name)
            == dir,
        config_dir_of(seq![0x2fu8] + name) == seq![0x2fu8],
        config_dir_of(name) == Seq::<u8>::empty(),
{
    file_path::law_names_stand_behind_their_parent(dir, name);
}

/// The rules about content are those under `match_content`, and there are none
/// where the configuration has none.
pub proof fn law_content_rules_stand_under_match_content(
    config: DprintxConfig,
    members: Vec<(String, Json)>,
)
    ensures
        config.match_content is None ==> content_rules_of(config).len() == 0,
        config.match_content == Some(members) ==> content_rules_of(config) == rules_of(
            assoc::entries(members@),
        ),
{
}

/// Which directories the user has is what asking for them gives, and nothing
/// else.
proof fn law_directories_are_asked_for(dir: Option<Seq<u8>>)
    ensures
        is_home(dir) ==> exists|found: Option<Vec<u8>>|
            #[trigger] call_ensures(find_home_dir, (), found) && match found {
                Some(bytes) => dir == Some(bytes@),
                None => dir is None,
            },
        is_config_dir(dir) ==> exists|found: Option<Vec<u8>>|
            #[trigger] call_ensures(find_config_dir, (), found) && match found {
                Some(bytes) => dir == Some(bytes@),
                None => dir is None,
            },
{
    if is_home(dir) {
        let found = choose|found: Option<Vec<u8>>|
            #[trigger] call_ensures(find_home_dir, (), found) && bytes_option(found) == dir;
        assert(call_ensures(find_home_dir, (), found));
    }
    if is_config_dir(dir) {
        let found = choose|found: Option<Vec<u8>>|
            #[trigger] call_ensures(find_config_dir, (), found) && bytes_option(found) == dir;
        assert(call_ensures(find_config_dir, (), found));
    }
}

/// A list of rules is seen rule by rule, and a resolution that may be missing is
/// seen where it is there.
pub proof fn law_lists_are_seen_rule_by_rule(
    list: Seq<(&str, &str)>,
    i: int,
    resolution: ProfileResolution,
)
    requires
        0 <= i < list.len(),
    ensures
        pairs(list).len() == list.len(),
        pairs(list)[i] == (list[i].0@, list[i].1@),
        resolution_option(Some(resolution)) == Some(resolution@),
        resolution_option(None) is None,
{
}

} // verus!
