//! Choosing a profile by what a file holds.

use vstd::prelude::*;

use crate::config::{self, ConfigError, DprintxConfig};
use crate::text::{self, copy_of};

verus! {

/// A compiled set of regular expressions.
#[verifier::external_type_specification]
#[verifier::external_body]
pub struct ExRegexSet(regex::RegexSet);

/// Why regular expressions do not compile.
#[verifier::external_type_specification]
#[verifier::external_body]
pub struct ExRegexError(regex::Error);

/// The patterns that a `regex::RegexSet` was compiled from, in order.
pub uninterp spec fn patterns_of(set: regex::RegexSet) -> Seq<Seq<char>>;

/// Whether a `regex::RegexSet` matches as its patterns do in multi-line mode.
pub uninterp spec fn is_multi_line(set: regex::RegexSet) -> bool;

/// Whether `regex::RegexSetBuilder` compiles these patterns, in multi-line mode
/// or not, with its other options as they are by default.
pub uninterp spec fn compiles(patterns: Seq<Seq<char>>, multi_line: bool) -> bool;

/// Whether a pattern in multi-line mode matches anywhere in a text.
pub uninterp spec fn line_matches(pattern: Seq<char>, content: Seq<char>) -> bool;

/// `regex::RegexSetBuilder` with its `multi_line` option: whether the patterns
/// compile is a function of the patterns and the option, and the set that comes
/// out is the set of them, in multi-line mode where that is asked for.
#[verifier::external_body]
fn build_set(patterns: &Vec<String>, multi_line: bool) -> (built: Result<
    regex::RegexSet,
    regex::Error,
>)
    ensures
        match built {
            Ok(set) => {
                &&& compiles(text::texts(patterns@), multi_line)
                &&& patterns_of(set) == text::texts(patterns@)
                &&& multi_line ==> is_multi_line(set)
            },
            Err(_) => !compiles(text::texts(patterns@), multi_line),
        },
{
    regex::RegexSetBuilder::new(patterns).multi_line(multi_line).build()
}

/// `regex::RegexSet::matches`: the index of every pattern of the set that
/// matches, in ascending order.
#[verifier::external_body]
fn find_matches(set: &regex::RegexSet, content: &str) -> (found: Vec<usize>)
    requires
        is_multi_line(*set),
    ensures
        forall|i: int, j: int| 0 <= i < j < found@.len() ==> found@[i] < found@[j],
        forall|i: int| 0 <= i < found@.len() ==> (#[trigger] found@[i]) < patterns_of(*set).len(),
        forall|k: int|
            0 <= k < patterns_of(*set).len() ==> (line_matches(
                #[trigger] patterns_of(*set)[k],
                content@,
            ) <==> exists|i: int| 0 <= i < found@.len() && found@[i] == k),
{
    set.matches(content).iter().collect()
}

/// Compiled content match rules for efficient file content matching.
/// Uses multi-line mode: `^` matches at start of any line, `$` at end of any
/// line.
#[derive(Debug)]
pub struct ContentMatcher {
    /// Compiled regex set (multi-line mode) for matching file content.
    regex_set: regex::RegexSet,
    /// Profile names corresponding to each regex pattern (same order).
    profiles: Vec<String>,
}

/// The profile of the first rule whose pattern matches.
pub open spec fn first_profile(
    rules: Seq<(Seq<char>, Seq<char>)>,
    content: Seq<char>,
) -> Option<Seq<char>>
    decreases rules.len(),
{
    if rules.len() == 0 {
        None
    } else if line_matches(rules[0].0, content) {
        Some(rules[0].1)
    } else {
        first_profile(rules.skip(1), content)
    }
}

/// The first names of pairs.
pub open spec fn firsts(rules: Seq<(Seq<char>, Seq<char>)>) -> Seq<Seq<char>> {
    rules.map_values(|rule: (Seq<char>, Seq<char>)| rule.0)
}

/// The second names of pairs.
pub open spec fn seconds(rules: Seq<(Seq<char>, Seq<char>)>) -> Seq<Seq<char>> {
    rules.map_values(|rule: (Seq<char>, Seq<char>)| rule.1)
}

/// Where `at` is the first rule that matches, its profile is the one that counts.
proof fn first_match_decides(rules: Seq<(Seq<char>, Seq<char>)>, content: Seq<char>, at: int)
    requires
        0 <= at <= rules.len(),
        forall|i: int| 0 <= i < at ==> !line_matches((#[trigger] rules[i]).0, content),
        at < rules.len() ==> line_matches(rules[at].0, content),
    ensures
        first_profile(rules, content) == if at < rules.len() {
            Some(rules[at].1)
        } else {
            None
        },
    decreases at,
{
    if at > 0 {
        assert(!line_matches(rules[0].0, content));
        assert forall|i: int| 0 <= i < at - 1 implies !line_matches(
            (#[trigger] rules.skip(1)[i]).0,
            content,
        ) by {
            assert(rules.skip(1)[i] == rules[i + 1]);
        }
        first_match_decides(rules.skip(1), content, at - 1);
    }
}

impl ContentMatcher {
    /// The rules that the matcher was compiled from: pattern and profile.
    pub closed spec fn rules(self) -> Seq<(Seq<char>, Seq<char>)> {
        Seq::new(
            self.profiles@.len(),
            |i: int| (patterns_of(self.regex_set)[i], self.profiles@[i]@),
        )
    }

    #[verifier::type_invariant]
    spec fn aligned(self) -> bool {
        &&& self.profiles@.len() == patterns_of(self.regex_set).len()
        &&& is_multi_line(self.regex_set)
    }

    /// A matcher for the set that patterns were compiled to, with the profile of
    /// each pattern.
    pub fn new(built: Result<regex::RegexSet, regex::Error>, profiles: Vec<String>) -> (matcher:
        Result<ContentMatcher, ConfigError>)
        requires
            built matches Ok(set) ==> {
                &&& patterns_of(set).len() == profiles@.len()
                &&& is_multi_line(set)
            },
        ensures
            match built {
                Ok(set) => {
                    &&& matcher is Ok
                    &&& firsts(matcher->Ok_0.rules()) == patterns_of(set)
                    &&& seconds(matcher->Ok_0.rules()) == text::texts(profiles@)
                },
                Err(_) => matcher == Err::<ContentMatcher, ConfigError>(ConfigError::InvalidRegex),
            },
    {
        match built {
            Ok(regex_set) => {
                let matcher = ContentMatcher { regex_set, profiles };
                assert(firsts(matcher.rules()) =~= patterns_of(regex_set));
                assert(seconds(matcher.rules()) =~= text::texts(profiles@));
                Ok(matcher)
            },
            Err(_) => Err(ConfigError::InvalidRegex),
        }
    }

    /// Matches file content against compiled patterns.
    /// Returns the profile name of the first matching pattern, or None.
    pub fn match_content(&self, content: &str) -> (profile: Option<&str>)
        ensures
            text::str_option(profile) == first_profile(self.rules(), content@),
    {
        proof {
            use_type_invariant(self);
        }
        let found = find_matches(&self.regex_set, content);
        let ghost rules = self.rules();
        let ghost patterns = patterns_of(self.regex_set);
        assert(firsts(rules) =~= patterns);
        proof {
            let at = if found@.len() > 0 {
                found@[0] as int
            } else {
                rules.len() as int
            };
            assert forall|i: int| 0 <= i < at implies !line_matches(
                (#[trigger] rules[i]).0,
                content@,
            ) by {
                if line_matches(patterns[i], content@) {
                    let k = choose|k: int| 0 <= k < found@.len() && found@[k] == i;
                    assert(found@[0] <= found@[k]);
                }
            }
            first_match_decides(rules, content@, at);
        }
        self.profile_of_first(found.as_slice())
    }

    /// The profile of the rule that comes first in a list of rules that matched.
    pub fn profile_of_first(&self, found: &[usize]) -> (profile: Option<&str>)
        requires
            found@.len() > 0 ==> found@[0] < self.rules().len(),
        ensures
            text::str_option(profile) == if found@.len() > 0 {
                Some(self.rules()[found@[0] as int].1)
            } else {
                None
            },
    {
        if found.len() > 0 {
            Some(self.profiles[found[0]].as_str())
        } else {
            None
        }
    }
}

impl DprintxConfig {
    /// Compiles content match patterns into a set for efficient matching.
    /// Returns None if no match_content rules are configured.
    pub fn compile_content_patterns(&self) -> (matcher: Result<
        Option<ContentMatcher>,
        ConfigError,
    >)
        ensures
            ({
                let rules = config::content_rules_of(*self);
                match matcher {
                    Ok(None) => rules.len() == 0,
                    Ok(Some(matcher)) => {
                        &&& rules.len() > 0
                        &&& compiles(firsts(rules), true)
                        &&& matcher.rules() == rules
                    },
                    Err(error) => {
                        &&& rules.len() > 0
                        &&& !compiles(firsts(rules), true)
                        &&& error == ConfigError::InvalidRegex
                    },
                }
            }),
    {
        let ghost all = config::content_rules_of(*self);
        let rules = self.match_content_rules_iter();
        if rules.len() == 0 {
            return Ok(None);
        }
        let mut patterns: Vec<String> = Vec::new();
        let mut profiles: Vec<String> = Vec::new();
        let mut i: usize = 0;
        while i < rules.len()
            invariant
                i <= rules@.len(),
                all == config::pairs(rules@),
                text::texts(patterns@) == firsts(all).take(i as int),
                text::texts(profiles@) == seconds(all).take(i as int),
            decreases rules@.len() - i,
        {
            let ghost old_patterns = patterns@;
            let ghost old_profiles = profiles@;
            patterns.push(copy_of(rules[i].0));
            profiles.push(copy_of(rules[i].1));
            assert(text::texts(patterns@) =~= text::texts(old_patterns).push(all[i as int].0));
            assert(text::texts(profiles@) =~= text::texts(old_profiles).push(all[i as int].1));
            assert(text::texts(patterns@) =~= firsts(all).take(i + 1));
            assert(text::texts(profiles@) =~= seconds(all).take(i + 1));
            i += 1;
        }
        assert(text::texts(patterns@) =~= firsts(all));
        assert(text::texts(profiles@) =~= seconds(all));
        assert(text::texts(profiles@).len() == all.len());
        let built = build_set(&patterns, true);
        match ContentMatcher::new(built, profiles) {
            Ok(matcher) => {
                proof {
                    let made = matcher.rules();
                    assert(made.len() == firsts(made).len());
                    assert forall|k: int| 0 <= k < made.len() implies made[k] == all[k] by {
                        assert(firsts(made)[k] == firsts(all)[k]);
                        assert(seconds(made)[k] == seconds(all)[k]);
                    }
                    assert(made =~= all);
                }
                Ok(Some(matcher))
            },
            Err(error) => Err(error),
        }
    }
}

/// A rule that does not match leaves the choice to the rules after it, and one
/// that matches settles it, whatever comes later.
pub proof fn law_first_match_wins(
    before: Seq<(Seq<char>, Seq<char>)>,
    rule: (Seq<char>, Seq<char>),
    after: Seq<(Seq<char>, Seq<char>)>,
    content: Seq<char>,
)
    requires
        forall|i: int|
            0 <= i < before.len() ==> !line_matches((#[trigger] before[i]).0, content),
    ensures
        first_profile(before + seq![rule] + after, content) == if line_matches(rule.0, content) {
            Some(rule.1)
        } else {
            first_profile(after, content)
        },
    decreases before.len(),
{
    let all = before + seq![rule] + after;
    if before.len() == 0 {
        assert(all[0] == rule);
        assert(all.skip(1) =~= after);
    } else {
        assert(all[0] == before[0]);
        assert(all.skip(1) =~= before.skip(1) + seq![rule] + after);
        assert forall|i: int| 0 <= i < before.skip(1).len() implies !line_matches(
            (#[trigger] before.skip(1)[i]).0,
            content,
        ) by {
            assert(before.skip(1)[i] == before[i + 1]);
        }
        law_first_match_wins(before.skip(1), rule, after, content);
    }
}

/// Where no rule matches, the content picks no profile. Where a profile is
/// picked, a rule that matches names it.
pub proof fn law_unmatched_content_picks_nothing(
    rules: Seq<(Seq<char>, Seq<char>)>,
    content: Seq<char>,
)
    ensures
        first_profile(rules, content) is None <==> forall|i: int|
            0 <= i < rules.len() ==> !line_matches((#[trigger] rules[i]).0, content),
        first_profile(rules, content) matches Some(profile) ==> exists|i: int|
            {
                &&& 0 <= i < rules.len()
                &&& line_matches((#[trigger] rules[i]).0, content)
                &&& rules[i].1 == profile
            },
    decreases rules.len(),
{
    if rules.len() > 0 {
        let rest = rules.skip(1);
        law_unmatched_content_picks_nothing(rest, content);
        if !line_matches(rules[0].0, content) {
            assert forall|i: int| 0 <= i < rules.len() && first_profile(rules, content)
                is None implies !line_matches((#[trigger] rules[i]).0, content) by {
                if i > 0 {
                    assert(rest[i - 1] == rules[i]);
                }
            }
            if let Some(profile) = first_profile(rest, content) {
                let i = choose|i: int|
                    {
                        &&& 0 <= i < rest.len()
                        &&& line_matches((#[trigger] rest[i]).0, content)
                        &&& rest[i].1 == profile
                    };
                assert(rules[i + 1] == rest[i]);
            }
        }
    }
}

} // verus!
