//! What a repository's own dprint config has to say about a file.
//!
//! A committed `dprint.json` is self-contained by necessity -- without its
//! `plugins` nobody but its author could run it -- so it describes exactly the
//! files its project intends to format, and dprintx defers to it there. Outside
//! that set the repo has expressed no opinion, and the global profile applies.
//!
//! Hence three answers, per file:
//!
//! - `Excluded`  -- the config names this path in `excludes`; format
//!   it with nothing at all. Build output and vendored trees live here.
//! - `Owned`     -- the config would format it; use the config as is.
//! - `Unclaimed` -- neither; fall through to the profile.
//!
//! The two questions are answered differently. Coverage comes from dprint
//! itself, because a config with no `includes` formats whatever its plugins
//! recognise and only dprint knows what that is. Exclusion is computed here,
//! because dprint reports excluded and unclaimed files the same way -- as
//! absence -- and the whole point is to tell them apart.

use vstd::prelude::*;

use crate::excludes::ConfigExcludes;
use crate::path::{self, is_listed, parent, same_path};
use crate::text::{self, copy_list, copy_of, lines_of};

verus! {

/// What the repository's config says about a file.
#[derive(Debug)]
pub enum Verdict {
    /// Listed in `excludes` -- format with nothing, not even the profile.
    Excluded,
    /// The config would format it; run it as is, with no profile mixed in.
    Owned(String),
    /// The config says nothing about this file; the global profile decides.
    Unclaimed,
}

/// The same, over mathematical values.
pub ghost enum Claim {
    Excluded,
    Owned(Seq<char>),
    Unclaimed,
}

impl View for Verdict {
    type V = Claim;

    open spec fn view(&self) -> Claim {
        match self {
            Verdict::Excluded => Claim::Excluded,
            Verdict::Owned(config) => Claim::Owned(config@),
            Verdict::Unclaimed => Claim::Unclaimed,
        }
    }
}

impl Clone for Verdict {
    fn clone(&self) -> (out: Verdict)
        ensures
            out@ == self@,
    {
        match self {
            Verdict::Excluded => Verdict::Excluded,
            Verdict::Owned(config) => Verdict::Owned(copy_of(config.as_str())),
            Verdict::Unclaimed => Verdict::Unclaimed,
        }
    }
}

/// Configs are compared as paths.
impl PartialEq for Verdict {
    fn eq(&self, other: &Verdict) -> (same: bool) {
        match (self, other) {
            (Verdict::Excluded, Verdict::Excluded) => true,
            (Verdict::Owned(a), Verdict::Owned(b)) => same_path(a.as_str(), b.as_str()),
            (Verdict::Unclaimed, Verdict::Unclaimed) => true,
            _ => false,
        }
    }
}

impl Eq for Verdict {

}

impl vstd::std_specs::cmp::PartialEqSpecImpl for Verdict {
    open spec fn obeys_eq_spec() -> bool {
        true
    }

    open spec fn eq_spec(&self, other: &Verdict) -> bool {
        match (*self, *other) {
            (Verdict::Excluded, Verdict::Excluded) => true,
            (Verdict::Owned(a), Verdict::Owned(b)) => path::components(a@) == path::components(b@),
            (Verdict::Unclaimed, Verdict::Unclaimed) => true,
            _ => false,
        }
    }
}

/// What a config says about a file, given whether it excludes it and whether
/// dprint would format it.
pub open spec fn claim_of(config: Option<Seq<char>>, excluded: bool, covered: bool) -> Claim {
    match config {
        None => Claim::Unclaimed,
        Some(config) => if excluded {
            Claim::Excluded
        } else if covered {
            Claim::Owned(config)
        } else {
            Claim::Unclaimed
        },
    }
}

/// Excludes that may be missing, as a value.
pub open spec fn held(excludes: Option<&ConfigExcludes>) -> Option<ConfigExcludes> {
    match excludes {
        Some(excludes) => Some(*excludes),
        None => None,
    }
}

/// Whether excludes that may be missing exclude a file.
pub open spec fn excluded_by(excludes: Option<ConfigExcludes>, file: Seq<char>) -> bool {
    match excludes {
        Some(excludes) => excludes.covers(file),
        None => false,
    }
}

/// Whether excludes that may be missing can be asked about a file.
pub open spec fn askable_by(excludes: Option<ConfigExcludes>, file: Seq<char>) -> bool {
    match excludes {
        Some(excludes) => excludes.askable(file),
        None => true,
    }
}

/// What can be said about a file without asking dprint: nothing, where its
/// coverage decides.
pub fn early_verdict(config: Option<&str>, excludes: Option<&ConfigExcludes>, file: &str) -> (early:
    Option<Verdict>)
    requires
        askable_by(held(excludes), file@),
    ensures
        match early {
            Some(verdict) => forall|covered: bool|
                verdict@ == #[trigger] claim_of(
                    text::str_option(config),
                    excluded_by(held(excludes), file@),
                    covered,
                ),
            None => config is Some && !excluded_by(held(excludes), file@),
        },
{
    if config.is_none() {
        return Some(Verdict::Unclaimed);
    }
    if let Some(excludes) = excludes {
        if excludes.excludes(file) {
            return Some(Verdict::Excluded);
        }
    }
    None
}

/// What the repository config covering `file` says about it: `config` is that
/// config, `excludes` its excludes where they could be loaded, and `covered`
/// whether dprint would format the file by it.
///
/// Returns `Unclaimed` when no repo config exists at all, which is
/// the common case outside a project and lands on the profile.
///
/// Excludes come first: a path under `zig-out/` stays untouched even when its
/// extension is one the repo otherwise owns.
pub fn verdict(
    config: Option<&str>,
    excludes: Option<&ConfigExcludes>,
    file: &str,
    covered: bool,
) -> (verdict: Verdict)
    requires
        askable_by(held(excludes), file@),
    ensures
        verdict@ == claim_of(text::str_option(config), excluded_by(held(excludes), file@), covered),
{
    if let Some(verdict) = early_verdict(config, excludes, file) {
        assert(verdict@ == claim_of(
            text::str_option(config),
            excluded_by(held(excludes), file@),
            covered,
        ));
        return verdict;
    }
    match config {
        Some(config) if covered => Verdict::Owned(copy_of(config)),
        _ => Verdict::Unclaimed,
    }
}

/// The files that one config governs.
#[derive(Debug)]
pub struct RepoGroup {
    /// The config, where there is one.
    pub config: Option<String>,
    /// The files.
    pub files: Vec<String>,
}

/// The same, over mathematical values.
pub ghost struct Group {
    pub config: Option<Seq<char>>,
    pub files: Seq<Seq<char>>,
}

impl View for RepoGroup {
    type V = Group;

    open spec fn view(&self) -> Group {
        Group { config: text::text_option(self.config), files: text::texts(self.files@) }
    }
}

/// What a list of groups holds.
pub open spec fn groups_of(groups: Seq<RepoGroup>) -> Seq<Group> {
    groups.map_values(|group: RepoGroup| group@)
}

/// What a list of configs holds.
pub open spec fn configs_of(configs: Seq<Option<String>>) -> Seq<Option<Seq<char>>> {
    configs.map_values(|config: Option<String>| text::text_option(config))
}

/// Whether two files are governed alike.
pub open spec fn same_config(a: Option<Seq<char>>, b: Option<Seq<char>>) -> bool {
    match (a, b) {
        (None, None) => true,
        (Some(a), Some(b)) => path::components(a) == path::components(b),
        _ => false,
    }
}

/// Where the group of a config first stands; the number of groups where it has
/// none.
pub open spec fn group_at(groups: Seq<Group>, config: Option<Seq<char>>) -> nat
    decreases groups.len(),
{
    if groups.len() == 0 || same_config(groups[0].config, config) {
        0
    } else {
        1 + group_at(groups.skip(1), config)
    }
}

/// Groups with one more file in the group of its config.
pub open spec fn with_file(
    groups: Seq<Group>,
    config: Option<Seq<char>>,
    file: Seq<char>,
) -> Seq<Group> {
    let at = group_at(groups, config) as int;
    if at < groups.len() {
        groups.update(at, Group { files: groups[at].files.push(file), ..groups[at] })
    } else {
        groups.push(Group { config, files: seq![file] })
    }
}

/// Files by the config that governs each, in order.
pub open spec fn grouped(files: Seq<Seq<char>>, configs: Seq<Option<Seq<char>>>) -> Seq<Group>
    decreases files.len(),
{
    if files.len() == 0 {
        Seq::empty()
    } else {
        with_file(
            grouped(files.drop_last(), configs.drop_last()),
            configs.last(),
            files.last(),
        )
    }
}

fn is_same_config(a: &Option<String>, b: &Option<String>) -> (same: bool)
    ensures
        same == same_config(text::text_option(*a), text::text_option(*b)),
{
    match (a, b) {
        (None, None) => true,
        (Some(a), Some(b)) => same_path(a.as_str(), b.as_str()),
        _ => false,
    }
}

/// Groups files by the config that governs each, so that one config means one
/// query.
pub fn group_by_config(files: &Vec<String>, configs: &Vec<Option<String>>) -> (groups: Vec<
    RepoGroup,
>)
    requires
        files@.len() == configs@.len(),
    ensures
        groups_of(groups@) == grouped(text::texts(files@), configs_of(configs@)),
{
    let ghost all = text::texts(files@);
    let ghost governing = configs_of(configs@);
    let mut groups: Vec<RepoGroup> = Vec::new();
    let mut i: usize = 0;
    assert(groups_of(groups@) =~= grouped(all.take(0), governing.take(0)));
    while i < files.len()
        invariant
            i <= files@.len() == configs@.len(),
            all == text::texts(files@),
            governing == configs_of(configs@),
            groups_of(groups@) == grouped(all.take(i as int), governing.take(i as int)),
        decreases files@.len() - i,
    {
        assert(all.take(i + 1).drop_last() =~= all.take(i as int));
        assert(governing.take(i + 1).drop_last() =~= governing.take(i as int));
        assert(all.take(i + 1).last() == files@[i as int]@);
        assert(governing.take(i + 1).last() == text::text_option(configs@[i as int]));
        add_file(&mut groups, &configs[i], files[i].as_str());
        i += 1;
    }
    assert(all.take(i as int) =~= all);
    assert(governing.take(i as int) =~= governing);
    groups
}

/// Adds a file to the group of its config.
fn add_file(groups: &mut Vec<RepoGroup>, config: &Option<String>, file: &str)
    ensures
        groups_of(final(groups)@) == with_file(
            groups_of(old(groups)@),
            text::text_option(*config),
            file@,
        ),
{
    let ghost before = groups_of(groups@);
    let ghost key = text::text_option(*config);
    let mut at: usize = 0;
    assert(before.skip(0) =~= before);
    while at < groups.len() && !is_same_config(&groups[at].config, config)
        invariant
            at <= groups@.len(),
            before == groups_of(groups@),
            key == text::text_option(*config),
            group_at(before, key) == at + group_at(before.skip(at as int), key),
        decreases groups@.len() - at,
    {
        assert(before.skip(at as int)[0] == groups@[at as int]@);
        assert(before.skip(at as int).skip(1) =~= before.skip(at + 1));
        at += 1;
    }
    assert(at < groups@.len() ==> before.skip(at as int)[0] == groups@[at as int]@);
    assert(group_at(before, key) == at);
    if at < groups.len() {
        let mut group = groups.remove(at);
        let ghost held = group@;
        group.files.push(copy_of(file));
        assert(text::texts(group.files@) =~= held.files.push(file@));
        groups.insert(at, group);
        assert(groups_of(groups@) =~= before.update(
            at as int,
            Group { files: held.files.push(file@), ..held },
        ));
    } else {
        let name = match config {
            Some(config) => Some(copy_of(config.as_str())),
            None => None,
        };
        let files = vec![copy_of(file)];
        assert(text::texts(files@) =~= seq![file@]);
        let group = RepoGroup { config: name, files };
        let ghost added = group@;
        groups.push(group);
        assert(groups_of(groups@) =~= before.push(added));
    }
}

/// The files that a config does not exclude: the ones to ask dprint about.
pub open spec fn candidates_in(
    excludes: Option<ConfigExcludes>,
    files: Seq<Seq<char>>,
) -> Seq<Seq<char>>
    decreases files.len(),
{
    if files.len() == 0 {
        Seq::empty()
    } else {
        let before = candidates_in(excludes, files.drop_last());
        if excluded_by(excludes, files.last()) {
            before
        } else {
            before.push(files.last())
        }
    }
}

/// The files that a config does not exclude: the ones to ask dprint about.
pub fn candidates(excludes: Option<&ConfigExcludes>, files: &Vec<String>) -> (out: Vec<String>)
    requires
        forall|i: int|
            0 <= i < files@.len() ==> askable_by(held(excludes), (#[trigger] files@[i])@),
    ensures
        text::texts(out@) == candidates_in(held(excludes), text::texts(files@)),
{
    let ghost all = text::texts(files@);
    let mut out: Vec<String> = Vec::new();
    let mut i: usize = 0;
    assert(text::texts(out@) =~= candidates_in(held(excludes), all.take(0)));
    while i < files.len()
        invariant
            i <= files@.len(),
            all == text::texts(files@),
            forall|i: int|
                0 <= i < files@.len() ==> askable_by(held(excludes), (#[trigger] files@[i])@),
            text::texts(out@) == candidates_in(held(excludes), all.take(i as int)),
        decreases files@.len() - i,
    {
        assert(all.take(i + 1).drop_last() =~= all.take(i as int));
        assert(all.take(i + 1).last() == files@[i as int]@);
        let ghost before = out@;
        let excluded = match excludes {
            Some(excludes) => excludes.excludes(files[i].as_str()),
            None => false,
        };
        if !excluded {
            out.push(copy_of(files[i].as_str()));
            assert(text::texts(out@) =~= text::texts(before).push(all[i as int]));
        }
        i += 1;
    }
    assert(all.take(i as int) =~= all);
    out
}

/// A question to dprint: which of some files a config would format.
#[derive(Debug)]
pub struct CoverageQuery {
    /// The arguments to run dprint with.
    pub args: Vec<String>,
    /// The directory to run it in. dprint resolves a `--config` against the
    /// directory it runs in, so running from elsewhere would make an absolute
    /// path outside that directory look uncovered.
    pub dir: String,
}

/// The arguments that ask dprint which of some files a config would format.
pub open spec fn query_args(config_path: Seq<char>, files: Seq<Seq<char>>) -> Seq<Seq<char>> {
    seq!["output-file-paths"@, "--config"@, config_path] + files
}

/// Whether an answer about one file says that the config would format it, given
/// whether dprint succeeded and how many bytes it printed.
pub open spec fn says_covered(success: bool, printed: nat) -> bool {
    success && printed > 0
}

/// The question to dprint which of some files a config would format, asked in
/// one command: none where there is nothing to ask.
pub fn coverage_query(config_path: &str, files: &Vec<String>) -> (query: Option<CoverageQuery>)
    ensures
        match query {
            Some(query) => {
                &&& files@.len() > 0
                &&& path::parent_of(config_path@) == Some(query.dir@)
                &&& text::texts(query.args@) == seq![
                    "output-file-paths"@,
                    "--config"@,
                    config_path@,
                ] + text::texts(files@)
                &&& text::texts(query.args@) == query_args(config_path@, text::texts(files@))
            },
            None => files@.len() == 0 || path::parent_of(config_path@) is None,
        },
{
    if files.len() == 0 {
        return None;
    }
    let dir = match parent(config_path) {
        Some(dir) => dir,
        None => {
            return None;
        },
    };
    let mut args = vec![copy_of("output-file-paths"), copy_of("--config"), copy_of(config_path)];
    assert(text::texts(args@) =~= seq!["output-file-paths"@, "--config"@, config_path@]);
    let ghost first = args@;
    let mut list = copy_list(files.as_slice());
    args.append(&mut list);
    assert(text::texts(args@) =~= text::texts(first) + text::texts(files@));
    Some(CoverageQuery { args, dir })
}

/// Whether dprint's answer about one file says that the config would format it:
/// it prints the path when it would and nothing when it would not.
pub fn config_covers(success: bool, stdout: &[u8]) -> (yes: bool)
    ensures
        yes == (success && stdout@.len() > 0),
        yes == says_covered(success, stdout@.len()),
{
    success && stdout.len() > 0
}

/// The files whose resolved form is listed.
pub open spec fn covered_in(
    files: Seq<Seq<char>>,
    resolved: Seq<Seq<char>>,
    listing: Seq<Seq<char>>,
) -> Seq<Seq<char>>
    decreases files.len(),
{
    if files.len() == 0 {
        Seq::empty()
    } else {
        let before = covered_in(files.drop_last(), resolved.drop_last(), listing);
        if path::listed(listing, resolved.last()) {
            before.push(files.last())
        } else {
            before
        }
    }
}

/// The files that an answer lists line by line, in their resolved form.
pub open spec fn covered_by(
    files: Seq<Seq<char>>,
    resolved: Seq<Seq<char>>,
    answer: Option<Seq<char>>,
) -> Seq<Seq<char>> {
    match answer {
        Some(answer) => covered_in(files, resolved, text::lines(answer)),
        None => Seq::empty(),
    }
}

/// Which of `files` the config would format, by dprint's answer about them:
/// none where it gave none.
///
/// dprint prints canonical absolute paths, which need not be spelled the way the
/// caller spelled them, so the resolved form of each file is matched.
pub fn covered_subset(
    files: &Vec<String>,
    resolved: &Vec<String>,
    stdout: Option<&str>,
) -> (covered: Vec<String>)
    requires
        files@.len() == resolved@.len(),
    ensures
        text::texts(covered@) == match stdout {
            Some(stdout) => covered_in(
                text::texts(files@),
                text::texts(resolved@),
                text::lines(stdout@),
            ),
            None => Seq::empty(),
        },
        text::texts(covered@) == covered_by(
            text::texts(files@),
            text::texts(resolved@),
            text::str_option(stdout),
        ),
{
    let mut covered: Vec<String> = Vec::new();
    let stdout = match stdout {
        Some(stdout) => stdout,
        None => {
            assert(text::texts(covered@) =~= Seq::empty());
            return covered;
        },
    };
    let listing = lines_of(stdout);
    let ghost all = text::texts(files@);
    let ghost forms = text::texts(resolved@);
    let ghost lines = text::lines(stdout@);
    let mut i: usize = 0;
    assert(text::texts(covered@) =~= covered_in(all.take(0), forms.take(0), lines));
    while i < files.len()
        invariant
            i <= files@.len() == resolved@.len(),
            all == text::texts(files@),
            forms == text::texts(resolved@),
            lines == text::texts(listing@),
            text::texts(covered@) == covered_in(all.take(i as int), forms.take(i as int), lines),
        decreases files@.len() - i,
    {
        assert(all.take(i + 1).drop_last() =~= all.take(i as int));
        assert(forms.take(i + 1).drop_last() =~= forms.take(i as int));
        assert(all.take(i + 1).last() == files@[i as int]@);
        assert(forms.take(i + 1).last() == resolved@[i as int]@);
        let ghost before = covered@;
        if is_listed(listing.as_slice(), resolved[i].as_str()) {
            covered.push(copy_of(files[i].as_str()));
            assert(text::texts(covered@) =~= text::texts(before).push(all[i as int]));
        }
        i += 1;
    }
    assert(all.take(i as int) =~= all);
    assert(forms.take(i as int) =~= forms);
    covered
}

/// What was learned of a config.
pub struct RepoAnswer {
    /// The config.
    pub config: String,
    /// Its excludes, where they could be loaded.
    pub excludes: Option<ConfigExcludes>,
    /// The files that dprint would format by it.
    pub covered: Vec<String>,
}

/// What was learned of a config, where that is in the list.
pub open spec fn answer_for(answers: Seq<RepoAnswer>, config: Option<Seq<char>>) -> Option<
    RepoAnswer,
>
    decreases answers.len(),
{
    if answers.len() == 0 {
        None
    } else if same_config(Some(answers[0].config@), config) {
        Some(answers[0])
    } else {
        answer_for(answers.skip(1), config)
    }
}

/// The excludes of a config, where they are known.
pub open spec fn excludes_for(answers: Seq<RepoAnswer>, config: Option<Seq<char>>) -> Option<
    ConfigExcludes,
> {
    match answer_for(answers, config) {
        Some(answer) => answer.excludes,
        None => None,
    }
}

/// Whether dprint is known to format a file by a config.
pub open spec fn covered_for(
    answers: Seq<RepoAnswer>,
    config: Option<Seq<char>>,
    file: Seq<char>,
) -> bool {
    match answer_for(answers, config) {
        Some(answer) => path::listed(text::texts(answer.covered@), file),
        None => false,
    }
}

/// What the config that governs a file says about it, by what was learned.
pub open spec fn claim_for(
    answers: Seq<RepoAnswer>,
    config: Option<Seq<char>>,
    file: Seq<char>,
) -> Claim {
    claim_of(
        config,
        excluded_by(excludes_for(answers, config), file),
        covered_for(answers, config, file),
    )
}

/// Whether a list of verdicts has one for a file.
pub open spec fn is_judged(list: Seq<(Seq<char>, Claim)>, file: Seq<char>) -> bool {
    exists|i: int|
        0 <= i < list.len() && path::components((#[trigger] list[i]).0) == path::components(file)
}

/// Files with each path once, in the spelling that comes first.
pub open spec fn first_spellings(files: Seq<Seq<char>>) -> Seq<Seq<char>>
    decreases files.len(),
{
    if files.len() == 0 {
        Seq::empty()
    } else {
        let before = first_spellings(files.drop_last());
        if path::listed(before, files.last()) {
            before
        } else {
            before.push(files.last())
        }
    }
}

/// What is said of a path that is given once or in several spellings. Excludes
/// may name one spelling and not another: the first spelling that is not
/// excluded decides.
pub open spec fn claim_on(
    files: Seq<Seq<char>>,
    configs: Seq<Option<Seq<char>>>,
    answers: Seq<RepoAnswer>,
    file: Seq<char>,
) -> Claim
    decreases files.len(),
{
    if files.len() == 0 {
        Claim::Excluded
    } else {
        let before = claim_on(files.drop_last(), configs.drop_last(), answers, file);
        if before is Excluded && path::components(files.last()) == path::components(file) {
            claim_for(answers, configs.last(), files.last())
        } else {
            before
        }
    }
}

/// The verdicts for files, each path once, in order.
pub open spec fn judged(
    files: Seq<Seq<char>>,
    configs: Seq<Option<Seq<char>>>,
    answers: Seq<RepoAnswer>,
) -> Seq<(Seq<char>, Claim)> {
    first_spellings(files).map_values(
        |file: Seq<char>| (file, claim_on(files, configs, answers, file)),
    )
}

/// What a list of verdicts holds.
pub open spec fn claims_of(list: Seq<(String, Verdict)>) -> Seq<(Seq<char>, Claim)> {
    list.map_values(|entry: (String, Verdict)| (entry.0@, entry.1@))
}

fn find_answer<'a>(answers: &'a Vec<RepoAnswer>, config: &Option<String>) -> (found: Option<
    &'a RepoAnswer,
>)
    ensures
        match found {
            Some(answer) => answer_for(answers@, text::text_option(*config)) == Some(*answer),
            None => answer_for(answers@, text::text_option(*config)) is None,
        },
{
    let ghost key = text::text_option(*config);
    let mut i: usize = 0;
    assert(answers@.skip(0) =~= answers@);
    while i < answers.len()
        invariant
            i <= answers@.len(),
            key == text::text_option(*config),
            answer_for(answers@, key) == answer_for(answers@.skip(i as int), key),
        decreases answers@.len() - i,
    {
        assert(answers@.skip(i as int)[0] == answers@[i as int]);
        assert(answers@.skip(i as int).skip(1) =~= answers@.skip(i + 1));
        if let Some(config) = config {
            if same_path(answers[i].config.as_str(), config.as_str()) {
                return Some(&answers[i]);
            }
        }
        i += 1;
    }
    None
}

/// Where the verdict for a file stands in a list; its length where it has none.
fn find_verdict(list: &Vec<(String, Verdict)>, file: &str) -> (at: usize)
    ensures
        at <= list@.len(),
        at < list@.len() ==> path::components(list@[at as int].0@) == path::components(file@),
        at == list@.len() ==> !is_judged(claims_of(list@), file@),
{
    let ghost all = claims_of(list@);
    let mut i: usize = 0;
    while i < list.len()
        invariant
            i <= list@.len(),
            all == claims_of(list@),
            forall|k: int|
                0 <= k < i ==> path::components((#[trigger] all[k]).0) != path::components(file@),
        decreases list@.len() - i,
    {
        assert(all[i as int].0 == list@[i as int].0@);
        if same_path(list[i].0.as_str(), file) {
            return i;
        }
        i += 1;
    }
    i
}

proof fn first_spellings_hold(files: Seq<Seq<char>>)
    ensures
        forall|i: int, j: int|
            0 <= i < j < first_spellings(files).len() ==> path::components(
                #[trigger] first_spellings(files)[i],
            ) != path::components(#[trigger] first_spellings(files)[j]),
        forall|file: Seq<char>|
            #[trigger] path::listed(first_spellings(files), file) <==> path::listed(files, file),
        forall|k: int|
            0 <= k < first_spellings(files).len() ==> files.contains(
                #[trigger] first_spellings(files)[k],
            ),
    decreases files.len(),
{
    let all = first_spellings(files);
    if files.len() > 0 {
        let fewer = files.drop_last();
        let before = first_spellings(fewer);
        first_spellings_hold(fewer);
        assert forall|i: int, j: int| 0 <= i < j < all.len() implies path::components(
            #[trigger] all[i],
        ) != path::components(#[trigger] all[j]) by {
            assert(all[i] == before[i]);
            if j < before.len() {
                assert(all[j] == before[j]);
            }
        }
        assert forall|file: Seq<char>| #[trigger]
            path::listed(all, file) <==> path::listed(files, file) by {
            if path::listed(files, file) {
                let k = choose|k: int|
                    0 <= k < files.len() && path::components(#[trigger] files[k])
                        == path::components(file);
                if k < fewer.len() {
                    assert(fewer[k] == files[k]);
                    assert(path::listed(fewer, file));
                    assert(path::listed(before, file));
                } else if !path::listed(before, files.last()) {
                    assert(all[before.len() as int] == files.last());
                }
                if path::listed(before, file) || path::listed(before, files.last()) {
                    let h = choose|h: int|
                        0 <= h < before.len() && path::components(#[trigger] before[h])
                            == path::components(file);
                    assert(all[h] == before[h]);
                }
            }
            if path::listed(all, file) {
                let k = choose|k: int|
                    0 <= k < all.len() && path::components(#[trigger] all[k])
                        == path::components(file);
                if k < before.len() {
                    assert(before[k] == all[k]);
                    assert(path::listed(before, file));
                    let h = choose|h: int|
                        0 <= h < fewer.len() && path::components(#[trigger] fewer[h])
                            == path::components(file);
                    assert(files[h] == fewer[h]);
                } else {
                    assert(files[files.len() - 1] == all[k]);
                }
            }
        }
        assert forall|k: int| 0 <= k < all.len() implies files.contains(#[trigger] all[k]) by {
            if k < before.len() {
                assert(all[k] == before[k]);
                let h = choose|h: int| 0 <= h < fewer.len() && fewer[h] == before[k];
                assert(files[h] == all[k]);
            } else {
                assert(files[files.len() - 1] == all[k]);
            }
        }
    }
}

/// The spellings of a path decide about it, and no other file does.
proof fn spellings_decide(
    files: Seq<Seq<char>>,
    configs: Seq<Option<Seq<char>>>,
    answers: Seq<RepoAnswer>,
    file: Seq<char>,
)
    requires
        files.len() == configs.len(),
    ensures
        claim_on(files, configs, answers, file) is Excluded <==> forall|i: int|
            0 <= i < files.len() && path::components(#[trigger] files[i]) == path::components(file)
                ==> claim_for(answers, configs[i], files[i]) is Excluded,
        !(claim_on(files, configs, answers, file) is Excluded) ==> decided_by(
            files,
            configs,
            answers,
            file,
        ),
    decreases files.len(),
{
    if files.len() > 0 {
        let fewer = files.drop_last();
        let governing = configs.drop_last();
        let last = files.len() - 1;
        spellings_decide(fewer, governing, answers, file);
        let before = claim_on(fewer, governing, answers, file);
        if before is Excluded {
            assert forall|i: int|
                0 <= i < last && path::components(#[trigger] files[i]) == path::components(
                    file,
                ) implies claim_for(answers, configs[i], files[i]) is Excluded by {
                assert(fewer[i] == files[i] && governing[i] == configs[i]);
            }
            if path::components(files[last]) == path::components(file) {
                assert(claim_on(files, configs, answers, file) == claim_for(
                    answers,
                    configs[last],
                    files[last],
                ));
            }
        } else {
            let i = choose|i: int|
                {
                    &&& 0 <= i < fewer.len()
                    &&& path::components(#[trigger] fewer[i]) == path::components(file)
                    &&& before == claim_for(answers, governing[i], fewer[i])
                    &&& forall|j: int|
                        0 <= j < i && path::components(#[trigger] fewer[j]) == path::components(
                            file,
                        ) ==> claim_for(answers, governing[j], fewer[j]) is Excluded
                };
            assert(files[i] == fewer[i] && configs[i] == governing[i]);
            assert forall|j: int|
                0 <= j < i && path::components(#[trigger] files[j]) == path::components(
                    file,
                ) implies claim_for(answers, configs[j], files[j]) is Excluded by {
                assert(fewer[j] == files[j] && governing[j] == configs[j]);
            }
        }
    }
}

/// Whether the claim on a path is that of its first spelling that is not
/// excluded.
pub open spec fn decided_by(
    files: Seq<Seq<char>>,
    configs: Seq<Option<Seq<char>>>,
    answers: Seq<RepoAnswer>,
    file: Seq<char>,
) -> bool {
    exists|i: int|
        {
            &&& 0 <= i < files.len()
            &&& path::components(#[trigger] files[i]) == path::components(file)
            &&& claim_on(files, configs, answers, file) == claim_for(answers, configs[i], files[i])
            &&& forall|j: int|
                0 <= j < i && path::components(#[trigger] files[j]) == path::components(file)
                    ==> claim_for(answers, configs[j], files[j]) is Excluded
        }
}

/// Verdicts for many files at once, from what was learned of each config once:
/// `configs` is the config that governs each file, and `answers` what was
/// learned of them. A path that is given twice is answered once. Where excludes
/// name one of its spellings and not another, the one that is not excluded
/// counts.
///
/// Asking file by file would re-read the same config and spawn a fresh dprint
/// per file; see [`group_by_config`] for asking once per config.
pub fn verdicts(
    files: &Vec<String>,
    configs: &Vec<Option<String>>,
    answers: &Vec<RepoAnswer>,
) -> (verdicts: Vec<(String, Verdict)>)
    requires
        files@.len() == configs@.len(),
        forall|i: int|
            0 <= i < files@.len() ==> askable_by(
                excludes_for(answers@, text::text_option(configs@[i])),
                (#[trigger] files@[i])@,
            ),
    ensures
        claims_of(verdicts@) == judged(text::texts(files@), configs_of(configs@), answers@),
        forall|i: int, j: int|
            0 <= i < j < verdicts@.len() ==> path::components((#[trigger] verdicts@[i]).0@)
                != path::components((#[trigger] verdicts@[j]).0@),
        forall|i: int|
            0 <= i < files@.len() ==> is_judged(claims_of(verdicts@), (#[trigger] files@[i])@),
        forall|k: int|
            0 <= k < verdicts@.len() ==> {
                &&& text::texts(files@).contains((#[trigger] verdicts@[k]).0@)
                &&& verdicts@[k].1@ == claim_on(
                    text::texts(files@),
                    configs_of(configs@),
                    answers@,
                    verdicts@[k].0@,
                )
            },
{
    let ghost all = text::texts(files@);
    let ghost governing = configs_of(configs@);
    let mut out: Vec<(String, Verdict)> = Vec::new();
    let mut i: usize = 0;
    assert(claims_of(out@) =~= judged(all.take(0), governing.take(0), answers@));
    while i < files.len()
        invariant
            i <= files@.len() == configs@.len(),
            all == text::texts(files@),
            governing == configs_of(configs@),
            forall|i: int|
                0 <= i < files@.len() ==> askable_by(
                    excludes_for(answers@, text::text_option(configs@[i])),
                    (#[trigger] files@[i])@,
                ),
            claims_of(out@) == judged(all.take(i as int), governing.take(i as int), answers@),
        decreases files@.len() - i,
    {
        let file = files[i].as_str();
        assert(askable_by(
            excludes_for(answers@, text::text_option(configs@[i as int])),
            files@[i as int]@,
        ));
        assert(all.take(i + 1).drop_last() =~= all.take(i as int));
        assert(governing.take(i + 1).drop_last() =~= governing.take(i as int));
        assert(all.take(i + 1).last() == file@);
        assert(governing.take(i + 1).last() == text::text_option(configs@[i as int]));
        let at = find_verdict(&out, file);
        let open = if at < out.len() {
            match &out[at].1 {
                Verdict::Excluded => true,
                _ => false,
            }
        } else {
            true
        };
        if open {
            let ghost before = claims_of(out@);
            let config = match &configs[i] {
                Some(config) => Some(config.as_str()),
                None => None,
            };
            let (excludes, covered) = match find_answer(answers, &configs[i]) {
                Some(answer) => (
                    match &answer.excludes {
                        Some(excludes) => Some(excludes),
                        None => None,
                    },
                    is_listed(answer.covered.as_slice(), file),
                ),
                None => (None, false),
            };
            let claim = verdict(config, excludes, file, covered);
            let ghost said = claim@;
            if at < out.len() {
                let name = copy_of(out[at].0.as_str());
                out.set(at, (name, claim));
                assert(claims_of(out@) =~= before.update(at as int, (name@, said)));
            } else {
                out.push((copy_of(file), claim));
                assert(claims_of(out@) =~= before.push((file@, said)));
            }
        }
        proof {
            judging_one_more(all, governing, answers@, i as int, at as int);
        }
        i += 1;
    }
    assert(all.take(i as int) =~= all);
    assert(governing.take(i as int) =~= governing);
    proof {
        law_each_file_is_judged_once(all, governing, answers@);
        let claims = claims_of(out@);
        assert forall|k: int| 0 <= k < out@.len() implies claims[k] == (
            (#[trigger] out@[k]).0@,
            out@[k].1@,
        ) by {}
        assert forall|i: int| 0 <= i < files@.len() implies is_judged(
            claims,
            (#[trigger] files@[i])@,
        ) by {
            assert(all[i] == files@[i]@);
        }
    }
    out
}

/// Without a config a file is unclaimed; with one, excludes come first, and only
/// then does it count whether dprint would format the file.
pub proof fn law_excludes_come_first(config: Seq<char>, excluded: bool, covered: bool)
    ensures
        claim_of(None, excluded, covered) == Claim::Unclaimed,
        claim_of(Some(config), true, covered) == Claim::Excluded,
        claim_of(Some(config), false, true) == Claim::Owned(config),
        claim_of(Some(config), false, false) == Claim::Unclaimed,
{
}

proof fn group_at_is_first(groups: Seq<Group>, config: Option<Seq<char>>)
    ensures
        group_at(groups, config) <= groups.len(),
        group_at(groups, config) < groups.len() ==> same_config(
            groups[group_at(groups, config) as int].config,
            config,
        ),
        forall|g: int|
            0 <= g < group_at(groups, config) ==> !same_config(
                (#[trigger] groups[g]).config,
                config,
            ),
    decreases groups.len(),
{
    if groups.len() > 0 && !same_config(groups[0].config, config) {
        group_at_is_first(groups.skip(1), config);
        assert forall|g: int| 0 <= g < group_at(groups, config) implies !same_config(
            (#[trigger] groups[g]).config,
            config,
        ) by {
            if g > 0 {
                assert(groups.skip(1)[g - 1] == groups[g]);
            }
        }
    }
}

/// One config means one group, so that each config is loaded and asked once.
pub proof fn law_each_config_is_asked_once(
    files: Seq<Seq<char>>,
    configs: Seq<Option<Seq<char>>>,
)
    requires
        files.len() == configs.len(),
    ensures
        forall|g: int, h: int|
            0 <= g < h < grouped(files, configs).len() ==> !same_config(
                (#[trigger] grouped(files, configs)[g]).config,
                (#[trigger] grouped(files, configs)[h]).config,
            ),
    decreases files.len(),
{
    if files.len() > 0 {
        let before = grouped(files.drop_last(), configs.drop_last());
        law_each_config_is_asked_once(files.drop_last(), configs.drop_last());
        group_at_is_first(before, configs.last());
        let after = grouped(files, configs);
        assert forall|g: int, h: int| 0 <= g < h < after.len() implies !same_config(
            (#[trigger] after[g]).config,
            (#[trigger] after[h]).config,
        ) by {
            if h < before.len() {
                assert(after[g].config == before[g].config);
                assert(after[h].config == before[h].config);
            } else {
                assert(after[g] == before[g]);
            }
        }
    }
}

/// How many files groups hold.
pub open spec fn file_count(groups: Seq<Group>) -> nat
    decreases groups.len(),
{
    if groups.len() == 0 {
        0
    } else {
        file_count(groups.drop_last()) + groups.last().files.len()
    }
}

proof fn count_grows(groups: Seq<Group>, at: int, group: Group)
    requires
        0 <= at < groups.len(),
    ensures
        file_count(groups.update(at, group)) == file_count(groups) - groups[at].files.len()
            + group.files.len(),
    decreases groups.len(),
{
    let after = groups.update(at, group);
    if at == groups.len() - 1 {
        assert(after.drop_last() =~= groups.drop_last());
    } else {
        assert(after.drop_last() =~= groups.drop_last().update(at, group));
        count_grows(groups.drop_last(), at, group);
    }
}

/// Groups hold as many files as there are.
pub proof fn law_groups_hold_each_file_once(
    files: Seq<Seq<char>>,
    configs: Seq<Option<Seq<char>>>,
)
    requires
        files.len() == configs.len(),
    ensures
        file_count(grouped(files, configs)) == files.len(),
    decreases files.len(),
{
    if files.len() > 0 {
        let before = grouped(files.drop_last(), configs.drop_last());
        let after = grouped(files, configs);
        let at = group_at(before, configs.last()) as int;
        law_groups_hold_each_file_once(files.drop_last(), configs.drop_last());
        group_at_is_first(before, configs.last());
        if at < before.len() {
            count_grows(before, at, after[at]);
        } else {
            assert(after.drop_last() =~= before);
        }
    }
}

/// Whether a file is in the group of a config.
pub open spec fn is_grouped(
    groups: Seq<Group>,
    config: Option<Seq<char>>,
    file: Seq<char>,
) -> bool {
    exists|g: int|
        {
            &&& 0 <= g < groups.len()
            &&& same_config((#[trigger] groups[g]).config, config)
            &&& groups[g].files.contains(file)
        }
}

proof fn new_file_is_grouped(groups: Seq<Group>, config: Option<Seq<char>>, file: Seq<char>)
    ensures
        is_grouped(with_file(groups, config, file), config, file),
{
    let after = with_file(groups, config, file);
    group_at_is_first(groups, config);
    let at = group_at(groups, config) as int;
    let k = after[at].files.len() - 1;
    assert(after[at].files[k] == file);
    assert(after[at].files.contains(file));
    assert(same_config(after[at].config, config));
}

proof fn other_files_stay_grouped(
    groups: Seq<Group>,
    config: Option<Seq<char>>,
    file: Seq<char>,
    other_config: Option<Seq<char>>,
    other: Seq<char>,
)
    requires
        is_grouped(groups, other_config, other),
    ensures
        is_grouped(with_file(groups, config, file), other_config, other),
{
    let after = with_file(groups, config, file);
    group_at_is_first(groups, config);
    let g = choose|g: int|
        {
            &&& 0 <= g < groups.len()
            &&& same_config((#[trigger] groups[g]).config, other_config)
            &&& groups[g].files.contains(other)
        };
    let k = choose|k: int| 0 <= k < groups[g].files.len() && groups[g].files[k] == other;
    assert(after[g].files[k] == other);
    assert(after[g].files.contains(other));
    assert(after[g].config == groups[g].config);
}

/// Every file is in the group of its config.
pub proof fn law_every_file_is_grouped(
    files: Seq<Seq<char>>,
    configs: Seq<Option<Seq<char>>>,
    i: int,
)
    requires
        files.len() == configs.len(),
        0 <= i < files.len(),
    ensures
        is_grouped(grouped(files, configs), configs[i], files[i]),
    decreases files.len(),
{
    let before = grouped(files.drop_last(), configs.drop_last());
    if i == files.len() - 1 {
        new_file_is_grouped(before, configs.last(), files.last());
    } else {
        law_every_file_is_grouped(files.drop_last(), configs.drop_last(), i);
        other_files_stay_grouped(before, configs.last(), files.last(), configs[i], files[i]);
    }
}

/// A group holds nothing but files that its config governs.
pub proof fn law_groups_add_no_file(
    files: Seq<Seq<char>>,
    configs: Seq<Option<Seq<char>>>,
    g: int,
    k: int,
)
    requires
        files.len() == configs.len(),
        0 <= g < grouped(files, configs).len(),
        0 <= k < grouped(files, configs)[g].files.len(),
    ensures
        exists|i: int|
            {
                &&& 0 <= i < files.len()
                &&& #[trigger] files[i] == grouped(files, configs)[g].files[k]
                &&& same_config(grouped(files, configs)[g].config, configs[i])
            },
    decreases files.len(),
{
    let fewer = files.drop_last();
    let governing = configs.drop_last();
    let before = grouped(fewer, governing);
    let after = grouped(files, configs);
    group_at_is_first(before, configs.last());
    let at = group_at(before, configs.last()) as int;
    if g < before.len() && k < before[g].files.len() {
        law_groups_add_no_file(fewer, governing, g, k);
        let i = choose|i: int|
            {
                &&& 0 <= i < fewer.len()
                &&& #[trigger] fewer[i] == before[g].files[k]
                &&& same_config(before[g].config, governing[i])
            };
        assert(files[i] == fewer[i] && configs[i] == governing[i]);
        assert(after[g].files[k] == before[g].files[k]);
        assert(after[g].config == before[g].config);
    } else {
        let last = files.len() - 1;
        assert(g == at);
        assert(files[last] == after[g].files[k]);
        assert(configs[last] == configs.last());
    }
}

/// dprint is asked about exactly the files that a config does not exclude.
pub proof fn law_candidates_are_not_excluded(
    excludes: Option<ConfigExcludes>,
    files: Seq<Seq<char>>,
    file: Seq<char>,
)
    ensures
        candidates_in(excludes, files).contains(file) <==> files.contains(file) && !excluded_by(
            excludes,
            file,
        ),
    decreases files.len(),
{
    let all = candidates_in(excludes, files);
    if files.len() > 0 {
        let fewer = files.drop_last();
        let before = candidates_in(excludes, fewer);
        law_candidates_are_not_excluded(excludes, fewer, file);
        assert(files =~= fewer.push(files.last()));
        if files.contains(file) && file != files.last() {
            let k = choose|k: int| 0 <= k < files.len() && files[k] == file;
            assert(fewer[k] == file);
        }
        if fewer.contains(file) {
            let k = choose|k: int| 0 <= k < fewer.len() && fewer[k] == file;
            assert(files[k] == file);
        }
        assert(files[files.len() - 1] == files.last());
        if before.contains(file) {
            let k = choose|k: int| 0 <= k < before.len() && before[k] == file;
            assert(all[k] == file);
        }
        if all.contains(file) && !before.contains(file) {
            let k = choose|k: int| 0 <= k < all.len() && all[k] == file;
            assert(k < before.len() ==> before[k] == file);
        }
        if !excluded_by(excludes, files.last()) {
            assert(all[all.len() - 1] == files.last());
        }
    }
}

/// Verdicts are given for the files that are given and for no others, each path
/// once: no two are for the same path, every file has one, and each is the claim
/// on its path.
pub proof fn law_each_file_is_judged_once(
    files: Seq<Seq<char>>,
    configs: Seq<Option<Seq<char>>>,
    answers: Seq<RepoAnswer>,
)
    ensures
        forall|i: int, j: int|
            0 <= i < j < judged(files, configs, answers).len() ==> path::components(
                (#[trigger] judged(files, configs, answers)[i]).0,
            ) != path::components((#[trigger] judged(files, configs, answers)[j]).0),
        forall|i: int|
            0 <= i < files.len() ==> is_judged(
                judged(files, configs, answers),
                #[trigger] files[i],
            ),
        forall|k: int|
            0 <= k < judged(files, configs, answers).len() ==> {
                let entry = #[trigger] judged(files, configs, answers)[k];
                &&& files.contains(entry.0)
                &&& entry.1 == claim_on(files, configs, answers, entry.0)
            },
{
    let firsts = first_spellings(files);
    let all = judged(files, configs, answers);
    first_spellings_hold(files);
    assert forall|i: int, j: int| 0 <= i < j < all.len() implies path::components(
        (#[trigger] all[i]).0,
    ) != path::components((#[trigger] all[j]).0) by {
        assert(all[i].0 == firsts[i] && all[j].0 == firsts[j]);
    }
    assert forall|i: int| 0 <= i < files.len() implies is_judged(all, #[trigger] files[i]) by {
        assert(path::listed(files, files[i]));
        assert(path::listed(firsts, files[i]));
        let k = choose|k: int|
            0 <= k < firsts.len() && path::components(#[trigger] firsts[k]) == path::components(
                files[i],
            );
        assert(all[k].0 == firsts[k]);
    }
    assert forall|k: int| 0 <= k < all.len() implies {
        let entry = #[trigger] all[k];
        &&& files.contains(entry.0)
        &&& entry.1 == claim_on(files, configs, answers, entry.0)
    } by {
        assert(all[k].0 == firsts[k]);
    }
}

/// A path is excluded where every spelling of it is; where one is not, the first
/// such spelling decides.
pub proof fn law_open_spellings_outweigh_excluded_ones(
    files: Seq<Seq<char>>,
    configs: Seq<Option<Seq<char>>>,
    answers: Seq<RepoAnswer>,
    file: Seq<char>,
)
    requires
        files.len() == configs.len(),
    ensures
        claim_on(files, configs, answers, file) is Excluded <==> forall|i: int|
            0 <= i < files.len() && path::components(#[trigger] files[i]) == path::components(file)
                ==> claim_for(answers, configs[i], files[i]) is Excluded,
        !(claim_on(files, configs, answers, file) is Excluded) ==> decided_by(
            files,
            configs,
            answers,
            file,
        ),
{
    spellings_decide(files, configs, answers, file);
}

/// Where the spellings of a path agree, their verdict is the one that is given:
/// above all where a file is given in one spelling, once or repeatedly.
pub proof fn law_agreeing_spellings_decide(
    files: Seq<Seq<char>>,
    configs: Seq<Option<Seq<char>>>,
    answers: Seq<RepoAnswer>,
    i: int,
)
    requires
        files.len() == configs.len(),
        0 <= i < files.len(),
        forall|j: int|
            0 <= j < files.len() && path::components(#[trigger] files[j]) == path::components(
                files[i],
            ) ==> claim_for(answers, configs[j], files[j]) == claim_for(
                answers,
                configs[i],
                files[i],
            ),
    ensures
        claim_on(files, configs, answers, files[i]) == claim_for(answers, configs[i], files[i]),
{
    spellings_decide(files, configs, answers, files[i]);
}

proof fn judging_one_more(
    files: Seq<Seq<char>>,
    configs: Seq<Option<Seq<char>>>,
    answers: Seq<RepoAnswer>,
    i: int,
    at: int,
)
    requires
        0 <= i < files.len() == configs.len(),
        ({
            let before = judged(files.take(i), configs.take(i), answers);
            &&& 0 <= at <= before.len()
            &&& at < before.len() ==> path::components(before[at].0) == path::components(files[i])
            &&& at == before.len() ==> !is_judged(before, files[i])
        }),
    ensures
        ({
            let before = judged(files.take(i), configs.take(i), answers);
            let claim = claim_for(answers, configs[i], files[i]);
            judged(files.take(i + 1), configs.take(i + 1), answers) == if at == before.len() {
                before.push((files[i], claim))
            } else if before[at].1 is Excluded {
                before.update(at, (before[at].0, claim))
            } else {
                before
            }
        }),
{
    let seen = files.take(i);
    let known = configs.take(i);
    let now = files.take(i + 1);
    let governing = configs.take(i + 1);
    let before = judged(seen, known, answers);
    let after = judged(now, governing, answers);
    let firsts = first_spellings(seen);
    let file = files[i];
    let claim = claim_for(answers, configs[i], file);
    assert(now.drop_last() =~= seen);
    assert(governing.drop_last() =~= known);
    assert(now.last() == file && governing.last() == configs[i]);
    first_spellings_hold(seen);
    if at == before.len() {
        assert(!path::listed(firsts, file)) by {
            if path::listed(firsts, file) {
                let k = choose|k: int|
                    0 <= k < firsts.len() && path::components(#[trigger] firsts[k])
                        == path::components(file);
                assert(before[k].0 == firsts[k]);
            }
        }
        assert(!path::listed(seen, file));
        spellings_decide(seen, known, answers, file);
        assert(claim_on(seen, known, answers, file) is Excluded) by {
            assert forall|j: int|
                0 <= j < seen.len() && path::components(#[trigger] seen[j]) == path::components(
                    file,
                ) implies claim_for(answers, known[j], seen[j]) is Excluded by {
                assert(path::listed(seen, file));
            }
        }
        assert forall|k: int| 0 <= k < firsts.len() implies #[trigger] after[k] == before[k] by {
            assert(after[k].0 == firsts[k]);
            assert(path::components(firsts[k]) != path::components(file));
        }
        assert(after =~= before.push((file, claim)));
    } else {
        assert(before[at].0 == firsts[at]);
        assert(path::listed(firsts, file));
        assert(first_spellings(now) == firsts);
        assert(claim_on(seen, known, answers, firsts[at]) == before[at].1);
        assert forall|k: int| 0 <= k < firsts.len() && k != at implies #[trigger] after[k]
            == before[k] by {
            assert(path::components(firsts[k]) != path::components(firsts[at]));
        }
        if before[at].1 is Excluded {
            assert(after =~= before.update(at, (before[at].0, claim)));
        } else {
            assert(after =~= before);
        }
    }
}

/// The files that are asked about in one query by the config of a file.
pub open spec fn asked_with(
    files: Seq<Seq<char>>,
    configs: Seq<Option<Seq<char>>>,
    answers: Seq<RepoAnswer>,
    config: Option<Seq<char>>,
) -> Seq<Seq<char>> {
    let groups = grouped(files, configs);
    candidates_in(
        excludes_for(answers, config),
        groups[group_at(groups, config) as int].files,
    )
}

/// Whether `listing` is how dprint answers queries: by a config and a list of
/// files it prints the resolved paths of those that the config covers, and
/// nothing else.
pub open spec fn lists_what_is_covered(
    listing: spec_fn(Seq<char>, Seq<Seq<char>>) -> Seq<Seq<char>>,
    resolve: spec_fn(Seq<char>) -> Seq<char>,
    covers: spec_fn(Seq<char>, Seq<char>) -> bool,
) -> bool {
    forall|config: Seq<char>, asked: Seq<Seq<char>>, line: Seq<char>|
        #[trigger] path::listed(listing(config, asked), line) <==> {
            &&& covers(config, line)
            &&& path::listed(asked.map_values(resolve), line)
        }
}

/// Whether spelling a path differently makes no difference.
pub open spec fn spelling_is_free(
    resolve: spec_fn(Seq<char>) -> Seq<char>,
    covers: spec_fn(Seq<char>, Seq<char>) -> bool,
) -> bool {
    &&& forall|a: Seq<char>, b: Seq<char>|
        path::components(a) == path::components(b) ==> path::components(#[trigger] resolve(a))
            == path::components(#[trigger] resolve(b))
    &&& forall|c: Seq<char>, d: Seq<char>, a: Seq<char>, b: Seq<char>|
        path::components(c) == path::components(d) && path::components(a) == path::components(b)
            ==> #[trigger] covers(c, a) == #[trigger] covers(d, b)
}

proof fn covered_files_are_listed(
    files: Seq<Seq<char>>,
    resolve: spec_fn(Seq<char>) -> Seq<char>,
    lines: Seq<Seq<char>>,
    file: Seq<char>,
)
    ensures
        path::listed(covered_in(files, files.map_values(resolve), lines), file) <==> exists|k: int|
            {
                &&& 0 <= k < files.len()
                &&& path::components(#[trigger] files[k]) == path::components(file)
                &&& path::listed(lines, resolve(files[k]))
            },
    decreases files.len(),
{
    let all = covered_in(files, files.map_values(resolve), lines);
    if files.len() > 0 {
        let fewer = files.drop_last();
        let before = covered_in(fewer, fewer.map_values(resolve), lines);
        covered_files_are_listed(fewer, resolve, lines, file);
        assert(files.map_values(resolve).drop_last() =~= fewer.map_values(resolve));
        assert(files.map_values(resolve).last() == resolve(files.last()));
        let last = files.len() - 1;
        if path::listed(before, file) {
            let k = choose|k: int|
                0 <= k < before.len() && path::components(#[trigger] before[k])
                    == path::components(file);
            assert(all[k] == before[k]);
            let i = choose|i: int|
                {
                    &&& 0 <= i < fewer.len()
                    &&& path::components(#[trigger] fewer[i]) == path::components(file)
                    &&& path::listed(lines, resolve(fewer[i]))
                };
            assert(files[i] == fewer[i]);
        } else {
            if path::listed(all, file) {
                let k = choose|k: int|
                    0 <= k < all.len() && path::components(#[trigger] all[k])
                        == path::components(file);
                if k < before.len() {
                    assert(before[k] == all[k]);
                }
                assert(files[last] == all[k]);
            }
            assert forall|k: int|
                {
                    &&& 0 <= k < files.len()
                    &&& path::components(#[trigger] files[k]) == path::components(file)
                    &&& path::listed(lines, resolve(files[k]))
                } implies path::listed(all, file) by {
                if k < last {
                    assert(fewer[k] == files[k]);
                } else {
                    assert(all[before.len() as int] == files.last());
                }
            }
        }
    }
}

/// Asking about many files at once gives each file the verdict that asking about
/// it alone gives: what is asked besides, and in which order, makes no
/// difference. dprint's answers are `listing`, and `resolve` gives the form in
/// which it prints a path.
pub proof fn law_many_verdicts_agree_with_single_ones(
    files: Seq<Seq<char>>,
    configs: Seq<Option<Seq<char>>>,
    answers: Seq<RepoAnswer>,
    listing: spec_fn(Seq<char>, Seq<Seq<char>>) -> Seq<Seq<char>>,
    resolve: spec_fn(Seq<char>) -> Seq<char>,
    covers: spec_fn(Seq<char>, Seq<char>) -> bool,
    i: int,
    config: Seq<char>,
)
    requires
        files.len() == configs.len(),
        0 <= i < files.len(),
        configs[i] == Some(config),
        lists_what_is_covered(listing, resolve, covers),
        spelling_is_free(resolve, covers),
        ({
            let asked = asked_with(files, configs, answers, configs[i]);
            &&& answer_for(answers, configs[i]) matches Some(answer)
            &&& text::texts(answer.covered@) == covered_in(
                asked,
                asked.map_values(resolve),
                listing(answer.config@, asked),
            )
        }),
    ensures
        claim_for(answers, configs[i], files[i]) == claim_of(
            configs[i],
            excluded_by(excludes_for(answers, configs[i]), files[i]),
            listing(config, seq![files[i]]).len() > 0,
        ),
{
    let file = files[i];
    let excludes = excludes_for(answers, configs[i]);
    let answer = answer_for(answers, configs[i])->Some_0;
    let asked = asked_with(files, configs, answers, configs[i]);
    let lines = listing(answer.config@, asked);
    let alone = listing(config, seq![file]);
    answer_is_of_the_config(answers, configs[i]);
    if !excluded_by(excludes, file) {
        let groups = grouped(files, configs);
        let at = group_at(groups, configs[i]) as int;
        law_every_file_is_grouped(files, configs, i);
        law_each_config_is_asked_once(files, configs);
        group_at_is_first(groups, configs[i]);
        let g = choose|g: int|
            {
                &&& 0 <= g < groups.len()
                &&& same_config((#[trigger] groups[g]).config, configs[i])
                &&& groups[g].files.contains(file)
            };
        assert(g == at) by {
            if g < at {
                assert(!same_config(groups[g].config, configs[i]));
            } else if at < g {
                assert(!same_config(groups[at].config, groups[g].config));
            }
        }
        law_candidates_are_not_excluded(excludes, groups[at].files, file);
        assert(asked.contains(file));
        let h = choose|h: int| 0 <= h < asked.len() && asked[h] == file;
        let forms = asked.map_values(resolve);
        assert(forms[h] == resolve(file));
        assert(path::listed(forms, resolve(file)));
        assert(path::listed(lines, resolve(file)) <==> covers(answer.config@, resolve(file)));
        covered_files_are_listed(asked, resolve, lines, file);
        let covered = covered_in(asked, forms, lines);
        if path::listed(covered, file) {
            let k = choose|k: int|
                {
                    &&& 0 <= k < asked.len()
                    &&& path::components(#[trigger] asked[k]) == path::components(file)
                    &&& path::listed(lines, resolve(asked[k]))
                };
            assert(covers(answer.config@, resolve(asked[k])));
            assert(path::components(resolve(asked[k])) == path::components(resolve(file)));
            assert(covers(answer.config@, resolve(file)));
        }
        if covers(answer.config@, resolve(file)) {
            assert(path::components(asked[h]) == path::components(file));
            assert(path::listed(covered, file));
        }
        let own = seq![file].map_values(resolve);
        assert(own[0] == resolve(file));
        assert(path::listed(own, resolve(file)));
        assert(covers(answer.config@, resolve(file)) == covers(config, resolve(file)));
        if covers(config, resolve(file)) {
            assert(path::listed(alone, resolve(file)));
        }
        if alone.len() > 0 {
            assert(path::listed(alone, alone[0]));
            assert(covers(config, alone[0]) && path::listed(own, alone[0]));
            assert(path::components(own[0]) == path::components(alone[0]));
            assert(covers(config, resolve(file)));
        }
    }
}

proof fn answer_is_of_the_config(answers: Seq<RepoAnswer>, config: Option<Seq<char>>)
    ensures
        answer_for(answers, config) matches Some(answer) ==> same_config(
            Some(answer.config@),
            config,
        ),
    decreases answers.len(),
{
    if answers.len() > 0 && !same_config(Some(answers[0].config@), config) {
        answer_is_of_the_config(answers.skip(1), config);
    }
}

/// dprint is asked about the files that a config does not exclude in the order
/// in which they are given, and about each as often as it is given. A config
/// without excludes excludes nothing.
pub proof fn law_candidates_keep_their_order(
    excludes: Option<ConfigExcludes>,
    own: ConfigExcludes,
    files: Seq<Seq<char>>,
)
    ensures
        excludes is None ==> candidates_in(excludes, files) == files,
        excludes == Some(own) ==> candidates_in(excludes, files) == files.filter(
            |file: Seq<char>| !own.covers(file),
        ),
    decreases files.len(),
{
    reveal(Seq::filter);
    if files.len() > 0 {
        law_candidates_keep_their_order(excludes, own, files.drop_last());
        assert(files.drop_last().push(files.last()) =~= files);
    }
}

/// Two lists of the same length, side by side.
pub open spec fn beside<A, B>(a: Seq<A>, b: Seq<B>) -> Seq<(A, B)> {
    Seq::new(a.len(), |i: int| (a[i], b[i]))
}

/// A config would format the files whose resolved path is in dprint's answer,
/// however that path is spelled there, and no others. They stay in order.
pub proof fn law_listed_files_are_covered(
    files: Seq<Seq<char>>,
    resolved: Seq<Seq<char>>,
    listing: Seq<Seq<char>>,
)
    requires
        files.len() == resolved.len(),
    ensures
        covered_in(files, resolved, listing) == beside(files, resolved).filter(
            |pair: (Seq<char>, Seq<char>)|
                exists|i: int|
                    0 <= i < listing.len() && path::components(#[trigger] listing[i])
                        == path::components(pair.1),
        ).map_values(|pair: (Seq<char>, Seq<char>)| pair.0),
    decreases files.len(),
{
    reveal(Seq::filter);
    let in_answer = |pair: (Seq<char>, Seq<char>)|
        exists|i: int|
            0 <= i < listing.len() && path::components(#[trigger] listing[i]) == path::components(
                pair.1,
            );
    let name = |pair: (Seq<char>, Seq<char>)| pair.0;
    let all = beside(files, resolved);
    if files.len() == 0 {
        assert(all.filter(in_answer).map_values(name) =~= Seq::empty());
    } else {
        let fewer = beside(files.drop_last(), resolved.drop_last());
        law_listed_files_are_covered(files.drop_last(), resolved.drop_last(), listing);
        assert(all.drop_last() =~= fewer);
        assert(all.last() == (files.last(), resolved.last()));
        if path::listed(listing, resolved.last()) {
            assert(in_answer(all.last()));
            assert(all.filter(in_answer).map_values(name) =~= fewer.filter(in_answer).map_values(
                name,
            ).push(files.last()));
        } else {
            assert(!in_answer(all.last()));
        }
    }
}

/// A group holds the files of its config in the order in which they are given,
/// each as often as it is given.
pub proof fn law_groups_keep_the_order(
    files: Seq<Seq<char>>,
    configs: Seq<Option<Seq<char>>>,
    g: int,
)
    requires
        files.len() == configs.len(),
        0 <= g < grouped(files, configs).len(),
    ensures
        grouped(files, configs)[g].files == beside(files, configs).filter(
            |pair: (Seq<char>, Option<Seq<char>>)|
                same_config(grouped(files, configs)[g].config, pair.1),
        ).map_values(|pair: (Seq<char>, Option<Seq<char>>)| pair.0),
{
    law_each_config_is_asked_once(files, configs);
    files_of_config(files, configs, grouped(files, configs)[g].config);
    let groups = grouped(files, configs);
    group_at_is_first(groups, groups[g].config);
    let at = group_at(groups, groups[g].config) as int;
    if at < g {
        assert(!same_config(groups[at].config, groups[g].config));
    } else if g < at {
        assert(!same_config(groups[g].config, groups[g].config));
    }
}

/// The files that the group of a config holds, where it has one.
spec fn held_for(groups: Seq<Group>, config: Option<Seq<char>>) -> Seq<Seq<char>> {
    let at = group_at(groups, config) as int;
    if at < groups.len() {
        groups[at].files
    } else {
        Seq::empty()
    }
}

proof fn files_of_config(
    files: Seq<Seq<char>>,
    configs: Seq<Option<Seq<char>>>,
    config: Option<Seq<char>>,
)
    requires
        files.len() == configs.len(),
    ensures
        held_for(grouped(files, configs), config) == beside(files, configs).filter(
            |pair: (Seq<char>, Option<Seq<char>>)| same_config(config, pair.1),
        ).map_values(|pair: (Seq<char>, Option<Seq<char>>)| pair.0),
    decreases files.len(),
{
    reveal(Seq::filter);
    let own = |pair: (Seq<char>, Option<Seq<char>>)| same_config(config, pair.1);
    let name = |pair: (Seq<char>, Option<Seq<char>>)| pair.0;
    let all = beside(files, configs);
    if files.len() == 0 {
        assert(all.filter(own).map_values(name) =~= Seq::empty());
    } else {
        let fewer = beside(files.drop_last(), configs.drop_last());
        files_of_config(files.drop_last(), configs.drop_last(), config);
        assert(all.drop_last() =~= fewer);
        let pair = (files.last(), configs.last());
        assert(all.last() == pair);
        let before = grouped(files.drop_last(), configs.drop_last());
        let after = grouped(files, configs);
        one_more_is_held(before, configs.last(), files.last(), config);
        if same_config(config, configs.last()) {
            assert(own(pair));
            assert(all.filter(own).map_values(name) =~= fewer.filter(own).map_values(name).push(
                files.last(),
            ));
        } else {
            assert(!own(pair));
        }
    }
}

proof fn one_more_is_held(
    groups: Seq<Group>,
    config: Option<Seq<char>>,
    file: Seq<char>,
    other: Option<Seq<char>>,
)
    ensures
        held_for(with_file(groups, config, file), other) == if same_config(other, config) {
            held_for(groups, other).push(file)
        } else {
            held_for(groups, other)
        },
{
    let after = with_file(groups, config, file);
    group_at_is_first(groups, config);
    group_at_is_first(groups, other);
    group_at_is_first(after, other);
    let at = group_at(groups, config) as int;
    let was = group_at(groups, other) as int;
    let now = group_at(after, other) as int;
    assert forall|g: int| 0 <= g < groups.len() implies (#[trigger] after[g]).config
        == groups[g].config by {}
    if was < groups.len() {
        assert(now == was) by {
            if now < was {
                assert(!same_config(groups[now].config, other));
                assert(after[now].config == groups[now].config);
            } else if was < now {
                assert(!same_config(after[was].config, other));
                assert(after[was].config == groups[was].config);
            }
        }
        if same_config(other, config) {
            assert(at == was) by {
                if at < was {
                    assert(!same_config(groups[at].config, other));
                } else if was < at {
                    assert(!same_config(groups[was].config, config));
                }
            }
        }
    } else {
        if same_config(other, config) {
            assert(at == groups.len()) by {
                if at < groups.len() {
                    assert(!same_config(groups[at].config, other));
                }
            }
            assert(after[at].config == config);
            assert(now == at) by {
                if now < at {
                    assert(!same_config(groups[now].config, other));
                    assert(after[now].config == groups[now].config);
                } else if at < now {
                    assert(!same_config(after[at].config, other));
                }
            }
            assert(Seq::<Seq<char>>::empty().push(file) =~= seq![file]);
        } else {
            assert(now == after.len()) by {
                if now < after.len() {
                    if now < groups.len() {
                        assert(!same_config(groups[now].config, other));
                        assert(after[now].config == groups[now].config);
                    } else {
                        assert(after[now].config == config);
                    }
                }
            }
        }
    }
}

/// Groups come in the order in which their configs are first met: what further
/// files bring comes behind.
pub proof fn law_groups_come_in_order(
    files: Seq<Seq<char>>,
    configs: Seq<Option<Seq<char>>>,
    n: int,
    g: int,
)
    requires
        files.len() == configs.len(),
        0 <= n <= files.len(),
        0 <= g < grouped(files.take(n), configs.take(n)).len(),
    ensures
        g < grouped(files, configs).len(),
        grouped(files, configs)[g].config == grouped(files.take(n), configs.take(n))[g].config,
    decreases files.len(),
{
    if n == files.len() {
        assert(files.take(n) =~= files);
        assert(configs.take(n) =~= configs);
    } else {
        let fewer = files.drop_last();
        let governing = configs.drop_last();
        assert(fewer.take(n) =~= files.take(n));
        assert(governing.take(n) =~= configs.take(n));
        law_groups_come_in_order(fewer, governing, n, g);
    }
}

/// A path that is given in several spellings is answered under the one that
/// comes first, and answers come in the order in which their paths are first
/// given.
pub proof fn law_first_spellings_are_kept(files: Seq<Seq<char>>, k: int)
    requires
        0 <= k < first_spellings(files).len(),
    ensures
        exists|i: int|
            {
                &&& 0 <= i < files.len()
                &&& #[trigger] files[i] == first_spellings(files)[k]
                &&& first_spellings(files.take(i)).len() == k
                &&& forall|j: int|
                    0 <= j < i ==> path::components(#[trigger] files[j]) != path::components(
                        files[i],
                    )
            },
    decreases files.len(),
{
    let fewer = files.drop_last();
    let before = first_spellings(fewer);
    let all = first_spellings(files);
    if k < before.len() {
        law_first_spellings_are_kept(fewer, k);
        let i = choose|i: int|
            {
                &&& 0 <= i < fewer.len()
                &&& #[trigger] fewer[i] == before[k]
                &&& first_spellings(fewer.take(i)).len() == k
                &&& forall|j: int|
                    0 <= j < i ==> path::components(#[trigger] fewer[j]) != path::components(
                        fewer[i],
                    )
            };
        assert(files[i] == fewer[i]);
        assert(files.take(i) =~= fewer.take(i));
        assert(all[k] == before[k]);
        assert forall|j: int| 0 <= j < i implies path::components(#[trigger] files[j])
            != path::components(files[i]) by {
            assert(fewer[j] == files[j]);
        }
    } else {
        let last = files.len() - 1;
        assert(files[last] == all[k]);
        assert(files.take(last) =~= fewer);
        first_spellings_hold(fewer);
        assert forall|j: int| 0 <= j < last implies path::components(#[trigger] files[j])
            != path::components(files[last]) by {
            if path::components(files[j]) == path::components(files[last]) {
                assert(fewer[j] == files[j]);
                assert(path::listed(fewer, files.last()));
                assert(path::listed(before, files.last()));
            }
        }
    }
}

/// What was learned of a config is found by the config's path, however that is
/// spelled; of several answers the first counts. Nothing is known of a file
/// without a config, nor of a config without an answer.
pub proof fn law_answers_are_found_by_config(
    before: Seq<RepoAnswer>,
    answer: RepoAnswer,
    after: Seq<RepoAnswer>,
    config: Seq<char>,
)
    requires
        forall|i: int|
            0 <= i < before.len() ==> path::components((#[trigger] before[i]).config@)
                != path::components(config),
    ensures
        path::components(answer.config@) == path::components(config) ==> answer_for(
            before + seq![answer] + after,
            Some(config),
        ) == Some(answer),
        answer_for(before, Some(config)) is None,
        answer_for(before, None) is None,
    decreases before.len(),
{
    let all = before + seq![answer] + after;
    if before.len() == 0 {
        assert(all[0] == answer);
    } else {
        let fewer = before.skip(1);
        assert(all[0] == before[0]);
        assert(path::components(before[0].config@) != path::components(config));
        assert(all.skip(1) =~= fewer + seq![answer] + after);
        assert forall|i: int| 0 <= i < fewer.len() implies path::components(
            (#[trigger] fewer[i]).config@,
        ) != path::components(config) by {
            assert(before[i + 1] == fewer[i]);
        }
        law_answers_are_found_by_config(fewer, answer, after, config);
    }
}

/// The verdict on a file rests on what was learned of its config: it is excluded
/// where the config's excludes cover it, owned where dprint listed its path, in
/// any spelling, and unclaimed otherwise. Without an answer, and without a
/// config, it is unclaimed.
pub proof fn law_answers_decide(
    answers: Seq<RepoAnswer>,
    config: Seq<char>,
    file: Seq<char>,
    answer: RepoAnswer,
)
    ensures
        claim_for(answers, None, file) == Claim::Unclaimed,
        answer_for(answers, Some(config)) is None ==> claim_for(answers, Some(config), file)
            == Claim::Unclaimed,
        answer_for(answers, Some(config)) == Some(answer) ==> claim_for(
            answers,
            Some(config),
            file,
        ) == if answer.excludes is Some && answer.excludes->Some_0.covers(file) {
            Claim::Excluded
        } else if exists|i: int|
            0 <= i < answer.covered@.len() && path::components(
                #[trigger] text::texts(answer.covered@)[i],
            ) == path::components(file) {
            Claim::Owned(config)
        } else {
            Claim::Unclaimed
        },
{
}

/// dprint is asked by the config about all of the files in one command, in order.
pub proof fn law_queries_name_the_config_and_the_files(
    config_path: Seq<char>,
    files: Seq<Seq<char>>,
)
    ensures
        ({
            let args = query_args(config_path, files);
            &&& args.len() == 3 + files.len()
            &&& args[0] == "output-file-paths"@
            &&& args[1] == "--config"@
            &&& args[2] == config_path
            &&& args.skip(3) == files
        }),
{
    assert(query_args(config_path, files).skip(3) =~= files);
}

/// A file is covered where dprint prints something about it and does not fail.
pub proof fn law_printing_says_covered(printed: nat)
    ensures
        !says_covered(false, printed),
        !says_covered(true, 0),
        says_covered(true, printed + 1),
{
}

/// Verdicts come in the order of the paths that they are for.
pub proof fn law_verdicts_come_in_order(
    files: Seq<Seq<char>>,
    configs: Seq<Option<Seq<char>>>,
    answers: Seq<RepoAnswer>,
    k: int,
)
    requires
        0 <= k < judged(files, configs, answers).len(),
    ensures
        judged(files, configs, answers).len() == first_spellings(files).len(),
        judged(files, configs, answers)[k].0 == first_spellings(files)[k],
{
}

/// An answer lists one path on each line. Without an answer no file is covered,
/// and neither is any by an empty one.
pub proof fn law_answers_list_a_path_on_each_line(
    files: Seq<Seq<char>>,
    resolved: Seq<Seq<char>>,
    line: Seq<char>,
    rest: Seq<char>,
    at: int,
)
    requires
        files.len() == resolved.len(),
        0 <= at < files.len(),
        forall|i: int| 0 <= i < line.len() ==> #[trigger] line[i] != '\n',
        line.len() > 0 ==> line.last() != '\r',
    ensures
        covered_by(files, resolved, None).len() == 0,
        covered_by(files, resolved, Some(Seq::empty())).len() == 0,
        path::components(resolved[at]) == path::components(line) ==> covered_by(
            files,
            resolved,
            Some(line + seq!['\n'] + rest),
        ).contains(files[at]),
{
    text::law_newlines_end_lines(line, rest);
    let none = Seq::<Seq<char>>::empty();
    assert(text::lines(Seq::empty()) =~= none);
    nothing_listed_nothing_covered(files, resolved);
    let listing = text::lines(line + seq!['\n'] + rest);
    assert(listing[0] == line);
    if path::components(resolved[at]) == path::components(line) {
        assert(path::listed(listing, resolved[at]));
        listed_file_is_covered(files, resolved, listing, at);
    }
}

proof fn nothing_listed_nothing_covered(files: Seq<Seq<char>>, resolved: Seq<Seq<char>>)
    ensures
        covered_in(files, resolved, Seq::empty()).len() == 0,
    decreases files.len(),
{
    if files.len() > 0 {
        nothing_listed_nothing_covered(files.drop_last(), resolved.drop_last());
    }
}

proof fn listed_file_is_covered(
    files: Seq<Seq<char>>,
    resolved: Seq<Seq<char>>,
    listing: Seq<Seq<char>>,
    at: int,
)
    requires
        files.len() == resolved.len(),
        0 <= at < files.len(),
        path::listed(listing, resolved[at]),
    ensures
        covered_in(files, resolved, listing).contains(files[at]),
    decreases files.len(),
{
    let all = covered_in(files, resolved, listing);
    let before = covered_in(files.drop_last(), resolved.drop_last(), listing);
    if at == files.len() - 1 {
        assert(all[before.len() as int] == files[at]);
    } else {
        listed_file_is_covered(files.drop_last(), resolved.drop_last(), listing, at);
        let k = choose|k: int| 0 <= k < before.len() && before[k] == files[at];
        assert(all[k] == files[at]);
    }
}

/// Lists of groups, configs and verdicts are seen item by item.
pub proof fn law_lists_are_seen_item_by_item(
    groups: Seq<RepoGroup>,
    configs: Seq<Option<String>>,
    list: Seq<(String, Verdict)>,
    i: int,
)
    requires
        0 <= i < groups.len(),
        i < configs.len(),
        i < list.len(),
    ensures
        groups_of(groups).len() == groups.len(),
        groups_of(groups)[i] == groups[i]@,
        configs_of(configs).len() == configs.len(),
        configs_of(configs)[i] == text::text_option(configs[i]),
        claims_of(list).len() == list.len(),
        claims_of(list)[i] == (list[i].0@, list[i].1@),
{
}

/// A config whose excludes are not known can be asked about every file, and one
/// whose excludes are known about the files that those can be asked about.
pub proof fn law_unknown_excludes_can_be_asked_about_everything(
    excludes: &ConfigExcludes,
    file: Seq<char>,
)
    ensures
        askable_by(held(None), file),
        !excluded_by(held(None), file),
        askable_by(held(Some(excludes)), file) <==> excludes.askable(file),
        excluded_by(held(Some(excludes)), file) <==> excludes.covers(file),
{
}

} // verus!
