//! The paths that a project's dprint config keeps out of formatting.
//!
//! Excludes accumulate over a config and the local configs that it extends.
//! Matching them is left to the `ignore` crate's `Gitignore`, the matcher that
//! dprint itself uses: a later `!pattern` opts a path back in, and a bare
//! basename matches at any depth.

use vstd::prelude::*;

use crate::assoc;
use crate::json::{self, Json, Tree};
use crate::local::{self, read_local_config};
use crate::path::{self, is_absolute, join, parent, same_path, strip_base};
use crate::text::{self, chars_of, copy_list, copy_of, starts_with, strip_prefix};

verus! {

/// The strings among JSON values.
pub open spec fn strings_in(items: Seq<Tree>) -> Seq<Seq<char>>
    decreases items.len(),
{
    if items.len() == 0 {
        Seq::empty()
    } else {
        let before = strings_in(items.drop_last());
        match items.last().text() {
            Some(s) => before.push(s),
            None => before,
        }
    }
}

/// The `excludes` entries of a config.
pub open spec fn excludes_in(config: Tree) -> Seq<Seq<char>> {
    match config.get("excludes"@) {
        Some(list) => match list.items() {
            Some(items) => strings_in(items),
            None => Seq::empty(),
        },
        None => Seq::empty(),
    }
}

/// The `extends` entries of a config.
pub open spec fn targets_in(config: Tree) -> Seq<Seq<char>> {
    match config.get("extends"@) {
        Some(Tree::Text(target)) => seq![target],
        Some(Tree::Array(items)) => strings_in(items),
        _ => Seq::empty(),
    }
}

/// Whether an `extends` entry lies on the network.
pub open spec fn remote(target: Seq<char>) -> bool {
    "http://"@.is_prefix_of(target) || "https://"@.is_prefix_of(target)
}

/// The files that local `extends` entries name, seen from `dir`.
pub open spec fn local_files(targets: Seq<Seq<char>>, dir: Seq<char>) -> Seq<Seq<char>>
    decreases targets.len(),
{
    if targets.len() == 0 {
        Seq::empty()
    } else {
        let before = local_files(targets.drop_last(), dir);
        if remote(targets.last()) {
            before
        } else {
            before.push(path::joined(dir, targets.last()))
        }
    }
}

/// The directory that a config's `extends` entries are seen from.
pub open spec fn dir_of(config_path: Seq<char>) -> Seq<char> {
    match path::parent_of(config_path) {
        Some(dir) => dir,
        None => "."@,
    }
}

/// The local files that a config extends.
pub open spec fn extended_by(config_path: Seq<char>, config: Tree) -> Seq<Seq<char>> {
    local_files(targets_in(config), dir_of(config_path))
}

fn collect_strings(items: &Vec<Json>) -> (out: Vec<String>)
    ensures
        text::texts(out@) == strings_in(json::trees(items@)),
{
    let ghost all = json::trees(items@);
    let mut out: Vec<String> = Vec::new();
    let mut i: usize = 0;
    assert(text::texts(out@) =~= strings_in(all.take(0)));
    while i < items.len()
        invariant
            i <= items@.len(),
            all == json::trees(items@),
            text::texts(out@) == strings_in(all.take(i as int)),
        decreases items@.len() - i,
    {
        assert(all.take(i + 1).drop_last() =~= all.take(i as int));
        assert(all.take(i + 1).last() == items@[i as int]@);
        let ghost before = out@;
        if let Some(s) = items[i].as_str() {
            out.push(copy_of(s));
            assert(text::texts(out@) =~= text::texts(before).push(s@));
        }
        i += 1;
    }
    assert(all.take(i as int) =~= all);
    out
}

/// The `excludes` entries of a config.
fn exclude_entries(config: &Json) -> (entries: Vec<String>)
    ensures
        text::texts(entries@) == excludes_in(config@),
{
    if let Some(list) = config.get("excludes") {
        if let Some(items) = list.as_array() {
            return collect_strings(items);
        }
    }
    let none: Vec<String> = Vec::new();
    assert(text::texts(none@) =~= Seq::empty());
    none
}

/// The `extends` entries of a config, which dprint accepts as either a single
/// string or an array of them.
pub fn extends_targets(config: &Json) -> (targets: Vec<String>)
    ensures
        text::texts(targets@) == targets_in(config@),
{
    broadcast use json::tree_of_array;

    if let Some(value) = config.get("extends") {
        if let Some(target) = value.as_str() {
            let targets = vec![copy_of(target)];
            assert(text::texts(targets@) =~= seq![target@]);
            return targets;
        }
        if let Some(items) = value.as_array() {
            return collect_strings(items);
        }
    }
    let none: Vec<String> = Vec::new();
    assert(text::texts(none@) =~= Seq::empty());
    none
}

/// How deep an `extends` chain may go before it is taken for a cycle.
pub const MAX_EXTENDS_DEPTH: usize = 25;

/// The excludes of a config and of everything local that it extends, in the
/// order in which the files are visited, where `files` gives the text of each
/// file. A file that is missing or no JSON adds nothing.
pub open spec fn collected(
    files: Map<Seq<char>, Seq<char>>,
    config_path: Seq<char>,
    depth: nat,
) -> Seq<Seq<char>>
    decreases MAX_EXTENDS_DEPTH - depth, 0nat,
{
    if depth >= MAX_EXTENDS_DEPTH || !files.contains_key(config_path) {
        Seq::empty()
    } else {
        match local::local_config_of(files[config_path]) {
            Some(config) => excludes_in(config) + collected_from(
                files,
                extended_by(config_path, config),
                depth + 1,
            ),
            None => Seq::empty(),
        }
    }
}

/// The same, for several configs one after the other.
pub open spec fn collected_from(
    files: Map<Seq<char>, Seq<char>>,
    paths: Seq<Seq<char>>,
    depth: nat,
) -> Seq<Seq<char>>
    decreases MAX_EXTENDS_DEPTH - depth, paths.len() + 1,
{
    if paths.len() == 0 || depth > MAX_EXTENDS_DEPTH {
        Seq::empty()
    } else {
        collected(files, paths[0], depth) + collected_from(files, paths.skip(1), depth)
    }
}

/// How many files are visited on the way.
pub open spec fn visited(
    files: Map<Seq<char>, Seq<char>>,
    config_path: Seq<char>,
    depth: nat,
) -> nat
    decreases MAX_EXTENDS_DEPTH - depth, 0nat,
{
    if depth >= MAX_EXTENDS_DEPTH {
        0
    } else if !files.contains_key(config_path) {
        1
    } else {
        match local::local_config_of(files[config_path]) {
            Some(config) => 1 + visited_from(files, extended_by(config_path, config), depth + 1),
            None => 1,
        }
    }
}

/// The same, for several configs one after the other.
pub open spec fn visited_from(
    files: Map<Seq<char>, Seq<char>>,
    paths: Seq<Seq<char>>,
    depth: nat,
) -> nat
    decreases MAX_EXTENDS_DEPTH - depth, paths.len() + 1,
{
    if paths.len() == 0 || depth > MAX_EXTENDS_DEPTH {
        0
    } else {
        visited(files, paths[0], depth) + visited_from(files, paths.skip(1), depth)
    }
}

/// Where the visit of a config and of what it extends stands.
pub ghost struct Walk {
    /// The files still to visit, each with its depth; the last one comes next.
    pub pending: Seq<(Seq<char>, nat)>,
    /// The excludes found so far.
    pub patterns: Seq<Seq<char>>,
}

/// Visits a config and its local `extends`, gathering each `excludes` entry.
///
/// Remote extends (http/https) are skipped: fetching them would put a network
/// call on the formatting path, and a config that reaches for the network to
/// decide about one file is worse than one that occasionally misses an exclude.
#[derive(Debug)]
pub struct ExtendsWalk {
    pending: Vec<(String, usize)>,
    patterns: Vec<String>,
}

/// Files with their depths.
pub open spec fn stops(list: Seq<(String, usize)>) -> Seq<(Seq<char>, nat)> {
    list.map_values(|stop: (String, usize)| (stop.0@, stop.1 as nat))
}

impl View for ExtendsWalk {
    type V = Walk;

    closed spec fn view(&self) -> Walk {
        Walk { pending: stops(self.pending@), patterns: text::texts(self.patterns@) }
    }
}

/// Files to visit at a depth, the first of them last, or none where that is too
/// deep.
pub open spec fn queued(paths: Seq<Seq<char>>, depth: nat) -> Seq<(Seq<char>, nat)> {
    if depth >= MAX_EXTENDS_DEPTH {
        Seq::empty()
    } else {
        Seq::new(paths.len(), |i: int| (paths[paths.len() - 1 - i], depth))
    }
}

/// The config that a text holds, where there is a text and it holds one.
pub open spec fn config_in(content: Option<Seq<char>>) -> Option<Tree> {
    match content {
        Some(content) => local::local_config_of(content),
        None => None,
    }
}

/// The walk after the next file was read, or could not be.
pub open spec fn fed(walk: Walk, content: Option<Seq<char>>) -> Walk {
    if walk.pending.len() == 0 {
        walk
    } else {
        let (config_path, depth) = walk.pending.last();
        let rest = walk.pending.drop_last();
        match config_in(content) {
            Some(config) => Walk {
                pending: rest + queued(extended_by(config_path, config), depth + 1),
                patterns: walk.patterns + excludes_in(config),
            },
            None => Walk { pending: rest, ..walk },
        }
    }
}

/// The walk before the first file is read.
pub open spec fn started(config_path: Seq<char>) -> Walk {
    Walk { pending: seq![(config_path, 0nat)], patterns: Seq::empty() }
}

impl ExtendsWalk {
    #[verifier::type_invariant]
    spec fn shallow(self) -> bool {
        forall|i: int| 0 <= i < self.pending@.len() ==> (#[trigger] self.pending@[i]).1
            < MAX_EXTENDS_DEPTH
    }

    /// A walk that starts at a config.
    pub fn start(config_path: &str) -> (walk: ExtendsWalk)
        ensures
            walk@ == started(config_path@),
    {
        let pending: Vec<(String, usize)> = vec![(copy_of(config_path), 0usize)];
        let walk = ExtendsWalk { pending, patterns: Vec::new() };
        assert(walk@.pending =~= seq![(config_path@, 0nat)]);
        assert(walk@.patterns =~= Seq::empty());
        walk
    }

    /// The file to read next; none where the walk is over.
    pub fn next(&self) -> (config_path: Option<&str>)
        ensures
            text::str_option(config_path) == if self@.pending.len() == 0 {
                None
            } else {
                Some(self@.pending.last().0)
            },
    {
        if self.pending.len() == 0 {
            None
        } else {
            Some(self.pending[self.pending.len() - 1].0.as_str())
        }
    }

    /// Goes on with the text of the file that was to be read, or without it
    /// where it could not be read.
    pub fn feed(&mut self, content: Option<&str>)
        ensures
            final(self)@ == fed(old(self)@, text::str_option(content)),
    {
        let config = match content {
            Some(content) => match read_local_config(content) {
                Ok(config) => Some(config),
                Err(_) => None,
            },
            None => None,
        };
        assert(match config {
            Some(config) => config_in(text::str_option(content)) == Some(config@),
            None => config_in(text::str_option(content)) is None,
        });
        match config {
            Some(config) => self.visit(&config),
            None => self.skip(),
        }
    }

    /// Goes on without the file that was to be read.
    pub fn skip(&mut self)
        ensures
            final(self)@ == fed(old(self)@, None),
    {
        proof {
            use_type_invariant(&*self);
        }
        let ghost before = self@;
        let mut pending: Vec<(String, usize)> = Vec::new();
        let mut patterns: Vec<String> = Vec::new();
        std::mem::swap(&mut pending, &mut self.pending);
        std::mem::swap(&mut patterns, &mut self.patterns);
        if pending.len() > 0 {
            let _ = pending.pop();
            assert(stops(pending@) =~= before.pending.drop_last());
        }
        *self = ExtendsWalk { pending, patterns };
    }

    /// Goes on with the config that the file that was to be read holds.
    pub fn visit(&mut self, config: &Json)
        ensures
            final(self)@ == (if old(self)@.pending.len() == 0 {
                old(self)@
            } else {
                let (config_path, depth) = old(self)@.pending.last();
                Walk {
                    pending: old(self)@.pending.drop_last() + queued(
                        extended_by(config_path, config@),
                        depth + 1,
                    ),
                    patterns: old(self)@.patterns + excludes_in(config@),
                }
            }),
    {
        proof {
            use_type_invariant(&*self);
        }
        let ghost before = self@;
        let mut pending: Vec<(String, usize)> = Vec::new();
        let mut patterns: Vec<String> = Vec::new();
        std::mem::swap(&mut pending, &mut self.pending);
        std::mem::swap(&mut patterns, &mut self.patterns);
        let ghost stack = pending@;
        let (config_path, depth) = match pending.pop() {
            Some(stop) => stop,
            None => {
                *self = ExtendsWalk { pending, patterns };
                return ;
            },
        };
        assert(stops(pending@) =~= before.pending.drop_last());
        assert(before.pending.last() == (config_path@, depth as nat));
        assert(stack[stack.len() - 1].1 < MAX_EXTENDS_DEPTH);
        let ghost kept = pending@;
        let mut entries = exclude_entries(config);
        let ghost found = entries@;
        let ghost earlier = patterns@;
        patterns.append(&mut entries);
        assert(text::texts(patterns@) =~= text::texts(earlier) + text::texts(found));
        if depth + 1 < MAX_EXTENDS_DEPTH {
            let paths = extended_files(config_path.as_str(), config);
            let ghost all = text::texts(paths@);
            let mut k: usize = paths.len();
            assert(stops(pending@) =~= stops(kept) + queued(all, depth as nat + 1).take(0));
            while k > 0
                invariant
                    k <= paths@.len(),
                    all == text::texts(paths@),
                    depth + 1 < MAX_EXTENDS_DEPTH,
                    forall|i: int|
                        0 <= i < pending@.len() ==> (#[trigger] pending@[i]).1
                            < MAX_EXTENDS_DEPTH,
                    stops(pending@) == stops(kept) + queued(all, depth as nat + 1).take(
                        paths@.len() - k,
                    ),
                decreases k,
            {
                let ghost sofar = pending@;
                k -= 1;
                let path = copy_of(paths[k].as_str());
                let ghost stop = (path@, depth as nat + 1);
                let ghost at = paths@.len() - 1 - k;
                assert(queued(all, depth as nat + 1)[at] == stop);
                pending.push((path, depth + 1));
                assert(stops(pending@) =~= stops(sofar).push(stop));
                assert(queued(all, depth as nat + 1).take(at + 1) =~= queued(
                    all,
                    depth as nat + 1,
                ).take(at).push(stop));
                assert(stops(pending@) =~= stops(kept) + queued(all, depth as nat + 1).take(
                    at + 1,
                ));
            }
            assert(queued(all, depth as nat + 1).take(paths@.len() as int) =~= queued(
                all,
                depth as nat + 1,
            ));
        } else {
            assert(stops(pending@) =~= stops(kept) + Seq::<(Seq<char>, nat)>::empty());
        }
        *self = ExtendsWalk { pending, patterns };
    }

    /// The excludes that were found.
    pub fn into_patterns(self) -> (patterns: Vec<String>)
        ensures
            text::texts(patterns@) == self@.patterns,
    {
        self.patterns
    }
}

/// The local files that a config extends.
fn extended_files(config_path: &str, config: &Json) -> (paths: Vec<String>)
    ensures
        text::texts(paths@) == extended_by(config_path@, config@),
{
    let dir = match parent(config_path) {
        Some(dir) => dir,
        None => copy_of("."),
    };
    let targets = extends_targets(config);
    let ghost all = text::texts(targets@);
    let mut paths: Vec<String> = Vec::new();
    let mut i: usize = 0;
    assert(text::texts(paths@) =~= local_files(all.take(0), dir@));
    while i < targets.len()
        invariant
            i <= targets@.len(),
            all == text::texts(targets@),
            text::texts(paths@) == local_files(all.take(i as int), dir@),
        decreases targets@.len() - i,
    {
        let target = targets[i].as_str();
        assert(all.take(i + 1).drop_last() =~= all.take(i as int));
        assert(all.take(i + 1).last() == target@);
        let ghost before = paths@;
        if !starts_with(target, "http://") && !starts_with(target, "https://") {
            let path = join(dir.as_str(), target);
            let ghost added = path@;
            paths.push(path);
            assert(text::texts(paths@) =~= text::texts(before).push(added));
        }
        i += 1;
    }
    assert(all.take(i as int) =~= all);
    paths
}

/// The excludes that the files still to visit will add.
pub open spec fn outstanding(
    files: Map<Seq<char>, Seq<char>>,
    pending: Seq<(Seq<char>, nat)>,
) -> Seq<Seq<char>>
    decreases pending.len(),
{
    if pending.len() == 0 {
        Seq::empty()
    } else {
        collected(files, pending.last().0, pending.last().1) + outstanding(
            files,
            pending.drop_last(),
        )
    }
}

/// How many files are still to visit, with those that they will lead to.
pub open spec fn visits_left(
    files: Map<Seq<char>, Seq<char>>,
    pending: Seq<(Seq<char>, nat)>,
) -> nat
    decreases pending.len(),
{
    if pending.len() == 0 {
        0
    } else {
        visited(files, pending.last().0, pending.last().1) + visits_left(
            files,
            pending.drop_last(),
        )
    }
}

/// What a file holds, where it exists.
pub open spec fn content_of(
    files: Map<Seq<char>, Seq<char>>,
    config_path: Seq<char>,
) -> Option<Seq<char>> {
    if files.contains_key(config_path) {
        Some(files[config_path])
    } else {
        None
    }
}

proof fn too_deep_adds_nothing(files: Map<Seq<char>, Seq<char>>, paths: Seq<Seq<char>>, depth: nat)
    requires
        depth >= MAX_EXTENDS_DEPTH,
    ensures
        collected_from(files, paths, depth) == Seq::<Seq<char>>::empty(),
        visited_from(files, paths, depth) == 0,
    decreases paths.len(),
{
    if paths.len() > 0 && depth == MAX_EXTENDS_DEPTH {
        too_deep_adds_nothing(files, paths.skip(1), depth);
        assert(visited(files, paths[0], depth) == 0);
        assert(collected(files, paths[0], depth) + collected_from(files, paths.skip(1), depth)
            =~= Seq::<Seq<char>>::empty());
    }
}

proof fn queue_is_outstanding(
    files: Map<Seq<char>, Seq<char>>,
    rest: Seq<(Seq<char>, nat)>,
    paths: Seq<Seq<char>>,
    depth: nat,
)
    ensures
        outstanding(files, rest + queued(paths, depth)) == collected_from(files, paths, depth)
            + outstanding(files, rest),
        visits_left(files, rest + queued(paths, depth)) == visited_from(files, paths, depth)
            + visits_left(files, rest),
    decreases paths.len(),
{
    let queue = queued(paths, depth);
    let all = rest + queue;
    if depth >= MAX_EXTENDS_DEPTH {
        too_deep_adds_nothing(files, paths, depth);
        assert(all =~= rest);
        assert(Seq::<Seq<char>>::empty() + outstanding(files, rest) =~= outstanding(files, rest));
    } else if paths.len() == 0 {
        assert(all =~= rest);
        assert(collected_from(files, paths, depth) + outstanding(files, rest) =~= outstanding(
            files,
            rest,
        ));
    } else {
        queue_is_outstanding(files, rest, paths.skip(1), depth);
        assert(all.last() == (paths[0], depth));
        assert(all.drop_last() =~= rest + queued(paths.skip(1), depth));
        let here = collected(files, paths[0], depth);
        let later = collected_from(files, paths.skip(1), depth);
        assert(here + (later + outstanding(files, rest)) =~= (here + later) + outstanding(
            files,
            rest,
        ));
    }
}

/// Reading the next file of a walk changes neither what the walk will find in
/// the end nor what comes first in it, and brings the end one file closer. A
/// walk therefore ends, also where configs extend each other in a circle, and
/// what it has found by then is what the config and its extends exclude.
pub proof fn law_walk_finds_all_excludes(walk: Walk, files: Map<Seq<char>, Seq<char>>)
    requires
        walk.pending.len() > 0,
        walk.pending.last().1 < MAX_EXTENDS_DEPTH,
    ensures
        ({
            let after = fed(walk, content_of(files, walk.pending.last().0));
            &&& after.patterns + outstanding(files, after.pending) == walk.patterns + outstanding(
                files,
                walk.pending,
            )
            &&& visits_left(files, after.pending) + 1 == visits_left(files, walk.pending)
        }),
{
    let (config_path, depth) = walk.pending.last();
    let rest = walk.pending.drop_last();
    let content = content_of(files, config_path);
    match config_in(content) {
        Some(config) => {
            let paths = extended_by(config_path, config);
            queue_is_outstanding(files, rest, paths, depth + 1);
            let own = excludes_in(config);
            let later = collected_from(files, paths, depth + 1);
            let tail = outstanding(files, rest);
            assert(collected(files, config_path, depth) == own + later);
            assert((walk.patterns + own) + (later + tail) =~= walk.patterns + ((own + later)
                + tail));
        },
        None => {
            assert(collected(files, config_path, depth) == Seq::<Seq<char>>::empty());
            assert(Seq::<Seq<char>>::empty() + outstanding(files, rest) =~= outstanding(
                files,
                rest,
            ));
        },
    }
}

/// The files of a list.
pub open spec fn files_of(list: Seq<(Seq<char>, Seq<char>)>) -> Map<Seq<char>, Seq<char>> {
    Map::new(
        |config_path: Seq<char>| assoc::has_key(list, config_path),
        |config_path: Seq<char>| assoc::lookup(list, config_path)->Some_0,
    )
}

/// The excludes of a config and of everything local that it extends, where
/// `files` lists the texts of the files that exist.
pub fn collect(config_path: &str, files: &Vec<(String, String)>) -> (patterns: Vec<String>)
    ensures
        text::texts(patterns@) == collected(
            files_of(assoc::entries(files@)),
            config_path@,
            0,
        ),
{
    let ghost map = files_of(assoc::entries(files@));
    let ghost all = collected(map, config_path@, 0);
    let mut walk = ExtendsWalk::start(config_path);
    proof {
        let first = walk@.pending;
        assert(first.drop_last() =~= Seq::empty());
        assert(outstanding(map, first.drop_last()) =~= Seq::empty());
        assert(walk@.patterns + outstanding(map, first) =~= all);
    }
    loop
        invariant
            map == files_of(assoc::entries(files@)),
            walk@.patterns + outstanding(map, walk@.pending) == all,
        ensures
            walk@.patterns == all,
        decreases visits_left(map, walk@.pending),
    {
        let content = match walk.next() {
            Some(path) => {
                let at = assoc::find(files, path);
                if at < files.len() {
                    Some(files[at].1.as_str())
                } else {
                    None
                }
            },
            None => {
                assert(walk@.patterns + outstanding(map, walk@.pending) =~= walk@.patterns);
                break ;
            },
        };
        proof {
            let next = walk@.pending.last().0;
            assert(content_of(map, next) == text::str_option(content));
            use_type_invariant(&walk);
            law_walk_finds_all_excludes(walk@, map);
        }
        walk.feed(content);
    }
    walk.into_patterns()
}

/// A matcher of the `ignore` crate.
#[verifier::external_type_specification]
#[verifier::external_body]
pub struct ExGitignore(ignore::gitignore::Gitignore);

/// A matcher of the `ignore` crate in the making.
#[verifier::external_type_specification]
#[verifier::external_body]
pub struct ExGitignoreBuilder(ignore::gitignore::GitignoreBuilder);

/// What the `ignore` crate says of patterns that it does not take.
#[verifier::external_type_specification]
#[verifier::external_body]
pub struct ExIgnoreError(ignore::Error);

/// The patterns that a `GitignoreBuilder` holds, in order.
pub uninterp spec fn builder_lines(builder: ignore::gitignore::GitignoreBuilder) -> Seq<Seq<char>>;

/// The directory that a `GitignoreBuilder` was made for.
pub uninterp spec fn builder_root(builder: ignore::gitignore::GitignoreBuilder) -> Seq<char>;

/// The patterns that a `Gitignore` holds, in order.
pub uninterp spec fn matcher_lines(matcher: ignore::gitignore::Gitignore) -> Seq<Seq<char>>;

/// The directory that a `Gitignore` was made for.
pub uninterp spec fn matcher_root(matcher: ignore::gitignore::Gitignore) -> Seq<char>;

/// Whether `GitignoreBuilder::add_line` takes a line.
pub uninterp spec fn line_parses(line: Seq<char>) -> bool;

/// Whether `GitignoreBuilder::build` makes a matcher of these patterns.
pub uninterp spec fn lines_build(lines: Seq<Seq<char>>) -> bool;

/// Whether a `Gitignore` for a directory, with these patterns, ignores a file or
/// a directory at a path, because of the path itself or of a directory above it.
pub uninterp spec fn git_ignores(
    root: Seq<char>,
    lines: Seq<Seq<char>>,
    path: Seq<char>,
    is_dir: bool,
) -> bool;

/// A path without a `./` at its start.
pub open spec fn without_dot(path: Seq<char>) -> Seq<char> {
    match text::after_prefix(path, "./"@) {
        Some(rest) => rest,
        None => path,
    }
}

/// The pattern that a line stands for: comments and empty lines stand for none,
/// and white space at the end does not count, unless it is escaped.
pub open spec fn pattern_in(line: Seq<char>) -> Option<Seq<char>> {
    let kept = if "\\ "@.is_suffix_of(line) {
        line
    } else {
        text::trimmed_end(line)
    };
    if "#"@.is_prefix_of(line) || kept.len() == 0 {
        None
    } else {
        Some(kept)
    }
}

/// Patterns with the one that a line stands for behind them.
pub open spec fn with_line(lines: Seq<Seq<char>>, line: Seq<char>) -> Seq<Seq<char>> {
    match pattern_in(line) {
        Some(pattern) => lines.push(pattern),
        None => lines,
    }
}

/// A path as a matcher for `root` sees it.
pub open spec fn seen_from(root: Seq<char>, path: Seq<char>) -> Seq<char> {
    let path = without_dot(path);
    if path::components(root) == path::components("."@) || !path.contains('/') {
        path
    } else {
        match text::after_prefix(path, root) {
            Some(rest) => match text::after_prefix(rest, "/"@) {
                Some(inner) => inner,
                None => rest,
            },
            None => path,
        }
    }
}

/// `GitignoreBuilder::new`: a builder for a directory, with no patterns.
#[verifier::external_body]
fn new_builder(root: &str) -> (builder: ignore::gitignore::GitignoreBuilder)
    ensures
        builder_root(builder) == without_dot(root@),
        builder_lines(builder) == Seq::<Seq<char>>::empty(),
{
    ignore::gitignore::GitignoreBuilder::new(root)
}

/// `GitignoreBuilder::add_line` without a source file: a line that is taken adds
/// its pattern behind the others, one that is not changes nothing. Which lines
/// are taken is a function of the line.
#[verifier::external_body]
fn add_line(builder: &mut ignore::gitignore::GitignoreBuilder, line: &str) -> (added: Result<
    (),
    ignore::Error,
>)
    ensures
        added is Ok <==> line_parses(line@),
        builder_root(*final(builder)) == builder_root(*old(builder)),
        builder_lines(*final(builder)) == if line_parses(line@) {
            with_line(builder_lines(*old(builder)), line@)
        } else {
            builder_lines(*old(builder))
        },
{
    builder.add_line(None, line).map(|_| ())
}

/// `GitignoreBuilder::build`: a matcher with the builder's patterns, for the
/// builder's directory where there are any. Whether one can be made is a
/// function of the patterns.
#[verifier::external_body]
fn build_matcher(builder: &ignore::gitignore::GitignoreBuilder) -> (built: Result<
    ignore::gitignore::Gitignore,
    ignore::Error,
>)
    ensures
        match built {
            Ok(matcher) => {
                &&& lines_build(builder_lines(*builder))
                &&& matcher_lines(matcher) == builder_lines(*builder)
                &&& builder_lines(*builder).len() > 0 ==> matcher_root(matcher) == builder_root(
                    *builder,
                )
            },
            Err(_) => !lines_build(builder_lines(*builder)),
        },
{
    builder.build()
}

/// `Gitignore::matched_path_or_any_parents`: whether the path is ignored is a
/// function of the matcher's directory, its patterns, the path and what it leads
/// to. A path that is still absolute as the matcher sees it is not taken.
#[verifier::external_body]
fn is_ignored(matcher: &ignore::gitignore::Gitignore, path: &str, is_dir: bool) -> (ignored: bool)
    requires
        !path::absolute(seen_from(matcher_root(*matcher), path@)),
    ensures
        ignored == git_ignores(
            matcher_root(*matcher),
            matcher_lines(*matcher),
            path@,
            is_dir,
        ),
{
    matcher.matched_path_or_any_parents(path, is_dir).is_ignore()
}

/// The patterns that lines stand for.
pub open spec fn patterns_in(lines: Seq<Seq<char>>) -> Seq<Seq<char>>
    decreases lines.len(),
{
    if lines.len() == 0 {
        Seq::empty()
    } else {
        with_line(patterns_in(lines.drop_last()), lines.last())
    }
}

/// The lines that decide what a config excludes: its own, and one that dprint
/// adds regardless of what the config says.
pub open spec fn all_lines(patterns: Seq<Seq<char>>) -> Seq<Seq<char>> {
    patterns.push("**/node_modules"@)
}

/// Why the excludes of a config cannot be matched.
#[derive(Debug)]
pub enum ExcludeError {
    /// A pattern is not a valid glob.
    InvalidPattern(String),
    /// The patterns do not make a matcher.
    NotBuilt,
}

/// Excludes of a repo config, resolved against the directory the config lives
/// in.
#[derive(Debug)]
pub struct ConfigExcludes {
    matcher: ignore::gitignore::Gitignore,
    base_dir: String,
}

impl ConfigExcludes {
    #[verifier::type_invariant]
    spec fn rooted(self) -> bool {
        matcher_root(self.matcher) == without_dot(self.base_dir@)
    }

    /// The directory that the excludes are about.
    pub closed spec fn base(self) -> Seq<char> {
        self.base_dir@
    }

    /// The patterns that decide.
    pub closed spec fn patterns(self) -> Seq<Seq<char>> {
        matcher_lines(self.matcher)
    }

    /// Whether a file can be asked about.
    pub open spec fn askable(self, file: Seq<char>) -> bool {
        match path::relative_to(file, self.base()) {
            Some(relative) => !path::absolute(seen_from(without_dot(self.base()), relative)),
            None => true,
        }
    }

    /// Whether the patterns exclude a file.
    pub open spec fn covers(self, file: Seq<char>) -> bool {
        match path::relative_to(file, self.base()) {
            Some(relative) => git_ignores(
                without_dot(self.base()),
                self.patterns(),
                relative,
                false,
            ),
            None => false,
        }
    }

    /// The excludes of a config, given the entries that it and everything it
    /// extends list.
    ///
    /// Unlike `includes`, excludes accumulate across the whole `extends` chain,
    /// so a pattern from an extended file still applies here.
    pub fn load(config_path: &str, patterns: &Vec<String>) -> (loaded: Result<
        ConfigExcludes,
        ExcludeError,
    >)
        ensures
            ({
                let lines = all_lines(text::texts(patterns@));
                match loaded {
                    Ok(excludes) => {
                        &&& forall|i: int|
                            0 <= i < lines.len() ==> line_parses(#[trigger] lines[i])
                        &&& lines_build(patterns_in(lines))
                        &&& excludes.base() == dir_of(config_path@)
                        &&& excludes.patterns() == patterns_in(lines)
                    },
                    Err(ExcludeError::InvalidPattern(pattern)) => exists|i: int|
                        {
                            &&& 0 <= i < lines.len()
                            &&& pattern@ == #[trigger] lines[i]
                            &&& !line_parses(lines[i])
                            &&& forall|j: int| 0 <= j < i ==> line_parses(#[trigger] lines[j])
                        },
                    Err(ExcludeError::NotBuilt) => {
                        &&& forall|i: int|
                            0 <= i < lines.len() ==> line_parses(#[trigger] lines[i])
                        &&& !lines_build(patterns_in(lines))
                    },
                }
            }),
    {
        let base_dir = match parent(config_path) {
            Some(dir) => dir,
            None => copy_of("."),
        };
        let ghost lines = all_lines(text::texts(patterns@));
        let mut list = copy_list(patterns.as_slice());
        list.push(copy_of("**/node_modules"));
        assert(text::texts(list@) =~= lines);
        let mut builder = new_builder(base_dir.as_str());
        let mut i: usize = 0;
        assert(builder_lines(builder) =~= patterns_in(lines.take(0)));
        while i < list.len()
            invariant
                i <= list@.len(),
                lines == text::texts(list@),
                lines == all_lines(text::texts(patterns@)),
                builder_root(builder) == without_dot(base_dir@),
                builder_lines(builder) == patterns_in(lines.take(i as int)),
                forall|j: int| 0 <= j < i ==> line_parses(#[trigger] lines[j]),
            decreases list@.len() - i,
        {
            assert(lines[i as int] == list@[i as int]@);
            assert(lines.take(i + 1).drop_last() =~= lines.take(i as int));
            assert(lines.take(i + 1).last() == lines[i as int]);
            match add_line(&mut builder, list[i].as_str()) {
                Ok(_) => {},
                Err(_) => {
                    return Err(ExcludeError::InvalidPattern(copy_of(list[i].as_str())));
                },
            }
            i += 1;
        }
        assert(lines.take(i as int) =~= lines);
        proof {
            node_modules_is_a_pattern();
            assert(lines.last() == "**/node_modules"@);
        }
        match build_matcher(&builder) {
            Ok(matcher) => Ok(ConfigExcludes { matcher, base_dir }),
            Err(_) => Err(ExcludeError::NotBuilt),
        }
    }

    /// Whether the repo config excludes this file.
    ///
    /// Ancestors count: a pattern naming a directory (`**/zig-out`) excludes
    /// everything beneath it.
    ///
    /// Paths outside the config's directory are not excluded: the config has no
    /// authority over them, and reporting otherwise would silently disable
    /// formatting for unrelated files.
    pub fn excludes(&self, file: &str) -> (excluded: bool)
        requires
            self.askable(file@),
        ensures
            excluded == self.covers(file@),
    {
        proof {
            use_type_invariant(self);
        }
        match strip_base(file, self.base_dir.as_str()) {
            Some(relative) => is_ignored(&self.matcher, relative.as_str(), false),
            None => false,
        }
    }

    /// Whether a file can be asked about.
    pub fn is_askable(&self, file: &str) -> (yes: bool)
        ensures
            yes == self.askable(file@),
    {
        match strip_base(file, self.base_dir.as_str()) {
            Some(relative) => {
                let root = drop_dot(self.base_dir.as_str());
                !is_absolute(seen(root.as_str(), relative.as_str()).as_str())
            },
            None => true,
        }
    }
}

/// A path without a `./` at its start.
fn drop_dot(path: &str) -> (out: String)
    ensures
        out@ == without_dot(path@),
{
    match strip_prefix(path, "./") {
        Some(rest) => rest,
        None => copy_of(path),
    }
}

/// A path as a matcher for `root` sees it.
fn seen(root: &str, path: &str) -> (out: String)
    ensures
        out@ == seen_from(root@, path@),
{
    let path = drop_dot(path);
    if same_path(root, ".") || !has_separator(path.as_str()) {
        return path;
    }
    match strip_prefix(path.as_str(), root) {
        Some(rest) => match strip_prefix(rest.as_str(), "/") {
            Some(inner) => inner,
            None => rest,
        },
        None => path,
    }
}

fn has_separator(path: &str) -> (yes: bool)
    ensures
        yes == path@.contains('/'),
{
    let chars = chars_of(path);
    let mut i: usize = 0;
    while i < chars.len()
        invariant
            i <= chars@.len(),
            chars@ == path@,
            forall|j: int| 0 <= j < i ==> chars@[j] != '/',
        decreases chars@.len() - i,
    {
        if chars[i] == '/' {
            assert(path@[i as int] == '/');
            return true;
        }
        i += 1;
    }
    false
}

proof fn node_modules_is_a_pattern()
    ensures
        pattern_in("**/node_modules"@) == Some("**/node_modules"@),
{
    reveal_strlit("**/node_modules");
    reveal_strlit("\\ ");
    reveal_strlit("#");
    let line = "**/node_modules"@;
    assert(line.last() == 's');
    assert(line[0] == '*');
    if "\\ "@.is_suffix_of(line) {
        assert("\\ "@[1] == line.subrange(line.len() - 2, line.len() as int)[1]);
    }
    if "#"@.is_prefix_of(line) {
        assert("#"@[0] == line.subrange(0, 1)[0]);
    }
}

/// What a config excludes includes what every project excludes: the pattern for
/// `node_modules` stands behind all others, whatever the config says.
pub proof fn law_node_modules_is_always_excluded(patterns: Seq<Seq<char>>)
    ensures
        patterns_in(all_lines(patterns)) == patterns_in(patterns).push("**/node_modules"@),
{
    node_modules_is_a_pattern();
    assert(all_lines(patterns).drop_last() =~= patterns);
}

/// A config has no say over files outside its directory.
pub proof fn law_outside_files_are_not_excluded(excludes: ConfigExcludes, file: Seq<char>)
    requires
        !path::components(excludes.base()).is_prefix_of(path::components(file)),
    ensures
        excludes.askable(file),
        !excludes.covers(file),
{
}

/// Excludes accumulate along `extends`: those of a config come first, and those
/// of each file that it extends follow. None replaces another.
pub proof fn law_excludes_accumulate(
    files: Map<Seq<char>, Seq<char>>,
    config_path: Seq<char>,
    config: Tree,
    depth: nat,
    target: int,
)
    requires
        depth < MAX_EXTENDS_DEPTH,
        files.contains_key(config_path),
        local::local_config_of(files[config_path]) == Some(config),
        0 <= target < extended_by(config_path, config).len(),
    ensures
        excludes_in(config).is_prefix_of(collected(files, config_path, depth)),
        forall|pattern: Seq<char>|
            collected(files, extended_by(config_path, config)[target], depth + 1).contains(pattern)
                ==> #[trigger] collected(files, config_path, depth).contains(pattern),
{
    let own = excludes_in(config);
    let paths = extended_by(config_path, config);
    let later = collected_from(files, paths, depth + 1);
    let all = collected(files, config_path, depth);
    assert(all == own + later);
    assert(own =~= all.subrange(0, own.len() as int));
    assert forall|pattern: Seq<char>|
        collected(files, paths[target], depth + 1).contains(
            pattern,
        ) implies #[trigger] all.contains(pattern) by {
        entry_is_collected(files, paths, depth + 1, target, pattern);
        let k = choose|k: int| 0 <= k < later.len() && later[k] == pattern;
        assert(all[own.len() + k] == pattern);
    }
}

proof fn entry_is_collected(
    files: Map<Seq<char>, Seq<char>>,
    paths: Seq<Seq<char>>,
    depth: nat,
    at: int,
    pattern: Seq<char>,
)
    requires
        depth <= MAX_EXTENDS_DEPTH,
        0 <= at < paths.len(),
        collected(files, paths[at], depth).contains(pattern),
    ensures
        collected_from(files, paths, depth).contains(pattern),
    decreases at,
{
    let first = collected(files, paths[0], depth);
    let rest = collected_from(files, paths.skip(1), depth);
    let all = collected_from(files, paths, depth);
    assert(all == first + rest);
    if at == 0 {
        let k = choose|k: int| 0 <= k < first.len() && first[k] == pattern;
        assert(all[k] == pattern);
    } else {
        assert(paths.skip(1)[at - 1] == paths[at]);
        entry_is_collected(files, paths.skip(1), depth, at - 1, pattern);
        let k = choose|k: int| 0 <= k < rest.len() && rest[k] == pattern;
        assert(all[first.len() + k] == pattern);
    }
}

/// The text of a string.
pub open spec fn text_in(item: Tree) -> Seq<char> {
    item->Text_0
}

proof fn strings_are_filtered(items: Seq<Tree>)
    ensures
        strings_in(items) == items.filter(|item: Tree| item is Text).map_values(
            |item: Tree| text_in(item),
        ),
    decreases items.len(),
{
    reveal(Seq::filter);
    let is_text = |item: Tree| item is Text;
    let text = |item: Tree| text_in(item);
    if items.len() == 0 {
        assert(items.filter(is_text).map_values(text) =~= Seq::empty());
    } else {
        let before = items.drop_last();
        strings_are_filtered(before);
        if items.last() is Text {
            assert(items.filter(is_text).map_values(text) =~= before.filter(is_text).map_values(
                text,
            ).push(text_in(items.last())));
        }
    }
}

/// What a config excludes itself is what the strings in the list `excludes` say,
/// each once and in order. Other members of the list do not count, and neither
/// does an `excludes` that is no list.
pub proof fn law_excludes_are_the_listed_strings(config: Tree, items: Seq<Tree>)
    ensures
        config.get("excludes"@) == Some(Tree::Array(items)) ==> excludes_in(config)
            == items.filter(|item: Tree| item is Text).map_values(|item: Tree| text_in(item)),
        !(config.get("excludes"@) is Some && config.get("excludes"@)->Some_0 is Array)
            ==> excludes_in(config).len() == 0,
{
    strings_are_filtered(items);
}

/// A config extends the one string that `extends` is, or the strings in the list
/// that it is, each once and in order, and otherwise nothing.
pub proof fn law_extends_is_a_string_or_a_list(config: Tree, target: Seq<char>, items: Seq<Tree>)
    ensures
        config.get("extends"@) == Some(Tree::Text(target)) ==> targets_in(config) == seq![target],
        config.get("extends"@) == Some(Tree::Array(items)) ==> targets_in(config) == items.filter(
            |item: Tree| item is Text,
        ).map_values(|item: Tree| text_in(item)),
        !(config.get("extends"@) is Some && (config.get("extends"@)->Some_0 is Text || config.get(
            "extends"@,
        )->Some_0 is Array)) ==> targets_in(config).len() == 0,
{
    strings_are_filtered(items);
}

/// The entries of a list that name a local file.
pub open spec fn local_entries(items: Seq<Tree>) -> Seq<Tree> {
    items.filter(
        |item: Tree|
            item is Text && !"http://"@.is_prefix_of(text_in(item)) && !"https://"@.is_prefix_of(
                text_in(item),
            ),
    )
}

proof fn local_files_are_filtered(items: Seq<Tree>, dir: Seq<char>)
    ensures
        local_files(strings_in(items), dir) == local_entries(items).map_values(
            |item: Tree| path::joined(dir, text_in(item)),
        ),
    decreases items.len(),
{
    reveal(Seq::filter);
    let place = |item: Tree| path::joined(dir, text_in(item));
    if items.len() == 0 {
        assert(local_entries(items).map_values(place) =~= Seq::empty());
    } else {
        let before = items.drop_last();
        let last = items.last();
        local_files_are_filtered(before, dir);
        if last is Text {
            let strings = strings_in(items);
            assert(strings.drop_last() =~= strings_in(before));
            assert(strings.last() == text_in(last));
            if !"http://"@.is_prefix_of(text_in(last)) && !"https://"@.is_prefix_of(
                text_in(last),
            ) {
                assert(local_entries(items).map_values(place) =~= local_entries(before).map_values(
                    place,
                ).push(path::joined(dir, text_in(last))));
            }
        }
    }
}

/// The files that a config extends are its `extends` entries, seen from the
/// directory of the config, in order. Only those that start with `http://` or
/// `https://` are left out.
pub proof fn law_local_extends_are_followed(
    config_path: Seq<char>,
    config: Tree,
    dir: Seq<char>,
    target: Seq<char>,
    items: Seq<Tree>,
)
    requires
        dir == match path::parent_of(config_path) {
            Some(up) => up,
            None => "."@,
        },
    ensures
        config.get("extends"@) == Some(Tree::Text(target)) ==> extended_by(config_path, config)
            == if "http://"@.is_prefix_of(target) || "https://"@.is_prefix_of(target) {
            Seq::empty()
        } else {
            seq![path::joined(dir, target)]
        },
        config.get("extends"@) == Some(Tree::Array(items)) ==> extended_by(config_path, config)
            == local_entries(items).map_values(|item: Tree| path::joined(dir, text_in(item))),
        targets_in(config).len() == 0 ==> extended_by(config_path, config).len() == 0,
{
    local_files_are_filtered(items, dir);
    let one = seq![target];
    let none = Seq::<Seq<char>>::empty();
    assert(one.drop_last() =~= none);
    assert(local_files(none, dir) =~= none);
    assert(none.push(path::joined(dir, target)) =~= seq![path::joined(dir, target)]);
}

proof fn entries_stand_behind_earlier_ones(items: Seq<Tree>, at: int)
    requires
        0 <= at < items.len(),
        items[at] is Text,
        !"http://"@.is_prefix_of(text_in(items[at])),
        !"https://"@.is_prefix_of(text_in(items[at])),
    ensures
        local_entries(items.take(at)).len() < local_entries(items).len(),
        local_entries(items)[local_entries(items.take(at)).len() as int] == items[at],
{
    let keep = |item: Tree|
        item is Text && !"http://"@.is_prefix_of(text_in(item)) && !"https://"@.is_prefix_of(
            text_in(item),
        );
    let first = items.take(at);
    let here = seq![items[at]];
    let later = items.skip(at + 1);
    assert(items =~= first + (here + later));
    Seq::filter_distributes_over_add(first, here + later, keep);
    Seq::filter_distributes_over_add(here, later, keep);
    reveal(Seq::filter);
    assert(here.drop_last() =~= Seq::<Tree>::empty());
    assert(here.drop_last().filter(keep) =~= Seq::<Tree>::empty());
    assert(here.filter(keep) =~= here);
    assert(local_entries(items) =~= local_entries(first) + (here + later.filter(keep)));
}

/// Every string in the list `extends` that does not start with `http://` or
/// `https://` names a file that is followed: its path, seen from the directory of
/// the config, stands behind those of the local entries before it.
pub proof fn law_every_local_entry_is_followed(
    config_path: Seq<char>,
    config: Tree,
    dir: Seq<char>,
    items: Seq<Tree>,
    at: int,
    target: Seq<char>,
)
    requires
        dir == match path::parent_of(config_path) {
            Some(up) => up,
            None => "."@,
        },
        config.get("extends"@) == Some(Tree::Array(items)),
        0 <= at < items.len(),
        items[at] == Tree::Text(target),
        !"http://"@.is_prefix_of(target),
        !"https://"@.is_prefix_of(target),
    ensures
        ({
            let place = local_entries(items.take(at)).len() as int;
            &&& place < extended_by(config_path, config).len()
            &&& extended_by(config_path, config)[place] == path::joined(dir, target)
        }),
{
    law_local_extends_are_followed(config_path, config, dir, target, items);
    entries_stand_behind_earlier_ones(items, at);
}

/// A walk visits what the file that it has just read extends before anything
/// else that is left, the first entry first, and what was left before stays
/// behind that. At the greatest depth it follows no further entries.
pub proof fn law_extended_files_are_visited_next(walk: Walk, content: Seq<char>, config: Tree)
    requires
        walk.pending.len() > 0,
        local::local_config_of(content) == Some(config),
    ensures
        ({
            let (config_path, depth) = walk.pending.last();
            let rest = walk.pending.drop_last();
            let paths = extended_by(config_path, config);
            let after = fed(walk, Some(content));
            &&& after.patterns == walk.patterns + excludes_in(config)
            &&& depth + 1 < 25 ==> {
                &&& after.pending.len() == rest.len() + paths.len()
                &&& after.pending.take(rest.len() as int) == rest
                &&& forall|i: int|
                    #![trigger paths[i]]
                    0 <= i < paths.len() ==> after.pending[after.pending.len() - 1 - i] == (
                        paths[i],
                        (depth + 1) as nat,
                    )
            }
            &&& depth + 1 >= 25 ==> after.pending == rest
        }),
{
    let (config_path, depth) = walk.pending.last();
    let rest = walk.pending.drop_last();
    let paths = extended_by(config_path, config);
    let after = fed(walk, Some(content));
    let queue = queued(paths, (depth + 1) as nat);
    assert(after.pending == rest + queue);
    assert(after.pending.take(rest.len() as int) =~= rest);
    if depth + 1 < 25 {
        assert forall|i: int|
            #![trigger paths[i]]
            0 <= i < paths.len() implies after.pending[after.pending.len() - 1 - i] == (
            paths[i],
            (depth + 1) as nat,
        ) by {
            let k = paths.len() - 1 - i;
            assert(after.pending[rest.len() + k] == queue[k]);
        }
    } else {
        assert(after.pending =~= rest);
    }
}

/// A file that cannot be read, or that holds no config, adds nothing to a walk
/// but is done with.
pub proof fn law_unreadable_files_are_passed_over(walk: Walk, content: Option<Seq<char>>)
    requires
        walk.pending.len() > 0,
        content is None || local::local_config_of(content->Some_0) is None,
    ensures
        fed(walk, content) == (Walk { pending: walk.pending.drop_last(), ..walk }),
{
}

/// The excludes of a config come first, and then those of each file that it
/// extends, in order and with all that those extend. A file that is missing, that
/// holds no config, or that lies too deep adds none.
pub proof fn law_excludes_come_in_order(
    files: Map<Seq<char>, Seq<char>>,
    config_path: Seq<char>,
    config: Tree,
    depth: nat,
)
    ensures
        depth >= 25 || !files.contains_key(config_path) || local::local_config_of(
            files[config_path],
        ) is None ==> collected(files, config_path, depth).len() == 0,
        depth < 25 && files.contains_key(config_path) && local::local_config_of(files[config_path])
            == Some(config) ==> collected(files, config_path, depth) == excludes_in(config)
            + extended_by(config_path, config).map_values(
            |path: Seq<char>| collected(files, path, depth + 1),
        ).flatten(),
{
    if depth < 25 && files.contains_key(config_path) && local::local_config_of(files[config_path])
        == Some(config) {
        collected_is_flat(files, extended_by(config_path, config), depth + 1);
    }
}

proof fn collected_is_flat(files: Map<Seq<char>, Seq<char>>, paths: Seq<Seq<char>>, depth: nat)
    requires
        depth <= 25,
    ensures
        collected_from(files, paths, depth) == paths.map_values(
            |path: Seq<char>| collected(files, path, depth),
        ).flatten(),
    decreases paths.len(),
{
    let each = |path: Seq<char>| collected(files, path, depth);
    let lists = paths.map_values(each);
    if paths.len() > 0 {
        collected_is_flat(files, paths.skip(1), depth);
        assert(lists.drop_first() =~= paths.skip(1).map_values(each));
        assert(lists.first() == collected(files, paths[0], depth));
    }
}

/// Patterns keep the order of the lines that they stand on. A line that neither
/// starts with `#` nor ends in white space is a pattern as it stands; a comment
/// and an empty line are none.
pub proof fn law_patterns_keep_their_order(
    first: Seq<Seq<char>>,
    second: Seq<Seq<char>>,
    line: Seq<char>,
)
    ensures
        patterns_in(first + second) == patterns_in(first) + patterns_in(second),
        line.len() > 0 && line[0] != '#' && !text::white(line.last()) ==> patterns_in(seq![line])
            == seq![line],
        line.len() == 0 || line[0] == '#' ==> patterns_in(seq![line]).len() == 0,
    decreases second.len(),
{
    let none = Seq::<Seq<char>>::empty();
    let one = seq![line];
    reveal_strlit("#");
    assert(one.drop_last() =~= none);
    assert(patterns_in(none) =~= none);
    assert(none.push(line) =~= one);
    let mark = "#"@;
    if line.len() > 0 {
        assert(mark =~= seq!['#']);
        if mark.is_prefix_of(line) {
            assert(mark[0] == line.subrange(0, 1)[0]);
        }
        if line[0] == '#' {
            assert(mark =~= line.subrange(0, 1));
        }
    } else {
        reveal_strlit("\\ ");
        assert("\\ "@.len() == 2);
    }
    if second.len() == 0 {
        assert(first + second =~= first);
        assert(patterns_in(first) + patterns_in(second) =~= patterns_in(first));
    } else {
        let all = first + second;
        assert(all.drop_last() =~= first + second.drop_last());
        assert(all.last() == second.last());
        law_patterns_keep_their_order(first, second.drop_last(), line);
    }
}

/// A file inside the directory of a config is excluded where the patterns ignore
/// its path, seen from that directory, as the path of a file.
pub proof fn law_inside_files_are_matched_by_their_path(
    excludes: ConfigExcludes,
    file: Seq<char>,
    relative: Seq<char>,
)
    requires
        path::relative_to(file, excludes.base()) == Some(relative),
        !"./"@.is_prefix_of(excludes.base()),
    ensures
        excludes.covers(file) == git_ignores(
            excludes.base(),
            excludes.patterns(),
            relative,
            false,
        ),
{
}

/// A config that was merged with a profile extends the profile first, and then
/// all that it extended before, in order.
pub proof fn law_merged_configs_extend_the_profile_first(local: Tree, profile: Seq<char>)
    requires
        local::mergeable(local),
    ensures
        targets_in(local::merged_with(local, profile)) == seq![profile] + targets_in(local),
        excludes_in(local::merged_with(local, profile)) == excludes_in(local),
{
    reveal_strlit("extends");
    reveal_strlit("excludes");
    assert("extends"@.len() == 7 && "excludes"@.len() == 8);
    local::law_profile_comes_first(local, profile);
    let merged = local::merged_with(local, profile);
    let first = seq![Tree::Text(profile)];
    let none = Seq::<Tree>::empty();
    assert(merged.get("excludes"@) == local.get("excludes"@));
    assert(first.drop_last() =~= none);
    assert(strings_in(none) =~= Seq::<Seq<char>>::empty());
    assert(strings_in(first) =~= seq![profile]);
    match local.get("extends"@) {
        Some(Tree::Array(entries)) => {
            strings_of_parts(first, entries);
        },
        Some(Tree::Text(target)) => {
            let second = seq![Tree::Text(target)];
            assert(second.drop_last() =~= none);
            assert(strings_in(second) =~= seq![target]);
            assert(first + second =~= seq![Tree::Text(profile), Tree::Text(target)]);
            strings_of_parts(first, second);
        },
        _ => {
            assert(seq![profile] + targets_in(local) =~= seq![profile]);
        },
    }
}

proof fn strings_of_parts(first: Seq<Tree>, second: Seq<Tree>)
    ensures
        strings_in(first + second) == strings_in(first) + strings_in(second),
    decreases second.len(),
{
    if second.len() == 0 {
        assert(first + second =~= first);
        assert(strings_in(first) + strings_in(second) =~= strings_in(first));
    } else {
        let all = first + second;
        assert(all.drop_last() =~= first + second.drop_last());
        assert(all.last() == second.last());
        strings_of_parts(first, second.drop_last());
    }
}

/// A walk starts with the config alone, and has found nothing yet.
pub proof fn law_walks_start_at_the_config(config_path: Seq<char>)
    ensures
        started(config_path).pending == seq![(config_path, 0nat)],
        started(config_path).patterns.len() == 0,
{
}

/// The text of a file is the one that is listed first under its path; a file
/// that is not listed does not exist.
pub proof fn law_listed_files_exist(list: Seq<(Seq<char>, Seq<char>)>, config_path: Seq<char>, at: int)
    requires
        0 <= at <= list.len(),
        at < list.len() ==> list[at].0 == config_path,
        forall|i: int| 0 <= i < at ==> #[trigger] list[i].0 != config_path,
    ensures
        files_of(list).contains_key(config_path) <==> at < list.len(),
        at < list.len() ==> files_of(list)[config_path] == list[at].1,
        content_of(files_of(list), config_path) == if at < list.len() {
            Some(list[at].1)
        } else {
            None
        },
{
    assoc::first_is_position(list, config_path, at);
}

/// A base that starts with `./` is matched without it.
pub proof fn law_a_leading_dot_does_not_count(
    excludes: ConfigExcludes,
    base: Seq<char>,
    file: Seq<char>,
    relative: Seq<char>,
)
    requires
        excludes.base() == "./"@ + base,
        path::relative_to(file, excludes.base()) == Some(relative),
    ensures
        excludes.covers(file) == git_ignores(base, excludes.patterns(), relative, false),
{
    text::law_prefixes_come_off("./"@, base, excludes.base());
}

/// A file inside the directory of a config can be asked about, unless its path
/// from there repeats the text of that directory.
pub proof fn law_inside_files_can_be_asked_about(
    excludes: ConfigExcludes,
    file: Seq<char>,
    relative: Seq<char>,
)
    requires
        excludes.base().len() > 0,
        !"./"@.is_prefix_of(excludes.base()),
        path::relative_to(file, excludes.base()) == Some(relative),
        !excludes.base().is_prefix_of(relative),
    ensures
        excludes.askable(file),
{
    path::law_relative_paths_are_relative(file, excludes.base());
    reveal_strlit("./");
    assert(!"./"@.is_prefix_of(relative)) by {
        if "./"@.is_prefix_of(relative) {
            let start = relative.subrange(0, 2);
            assert("./"@[0] == start[0] && "./"@[1] == start[1]);
        }
    }
}

/// A walk that has read a config goes on to every file that the config extends
/// locally. An entry of its list `extends` that starts with neither `http://` nor
/// `https://` is to be visited after the local entries before it, and before
/// everything else, by its path seen from the directory of the config; a single
/// such string is to be visited next.
pub proof fn law_local_entries_are_visited(
    walk: Walk,
    content: Seq<char>,
    config: Tree,
    dir: Seq<char>,
    items: Seq<Tree>,
    at: int,
    target: Seq<char>,
)
    requires
        walk.pending.len() > 0,
        walk.pending.last().1 + 1 < 25,
        local::local_config_of(content) == Some(config),
        dir == match path::parent_of(walk.pending.last().0) {
            Some(up) => up,
            None => "."@,
        },
        !"http://"@.is_prefix_of(target),
        !"https://"@.is_prefix_of(target),
    ensures
        ({
            let after = fed(walk, Some(content)).pending;
            let stop = (path::joined(dir, target), walk.pending.last().1 + 1);
            let place = local_entries(items.take(at)).len();
            &&& config.get("extends"@) == Some(Tree::Text(target)) ==> after.last() == stop
            &&& config.get("extends"@) == Some(Tree::Array(items)) && 0 <= at < items.len()
                && items[at] == Tree::Text(target) ==> after[after.len() - 1 - place] == stop
        }),
{
    let config_path = walk.pending.last().0;
    let paths = extended_by(config_path, config);
    law_extended_files_are_visited_next(walk, content, config);
    law_local_extends_are_followed(config_path, config, dir, target, items);
    if config.get("extends"@) == Some(Tree::Text(target)) {
        assert(paths[0] == path::joined(dir, target));
    }
    if config.get("extends"@) == Some(Tree::Array(items)) && 0 <= at < items.len() && items[at]
        == Tree::Text(target) {
        law_every_local_entry_is_followed(config_path, config, dir, items, at, target);
        let place = local_entries(items.take(at)).len() as int;
        assert(paths[place] == path::joined(dir, target));
    }
}

/// A list of files to visit is seen file by file.
pub proof fn law_lists_are_seen_file_by_file(list: Seq<(String, usize)>, i: int)
    requires
        0 <= i < list.len(),
    ensures
        stops(list).len() == list.len(),
        stops(list)[i] == (list[i].0@, list[i].1 as nat),
{
}

} // verus!
