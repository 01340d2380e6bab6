//! What the language server proxy does: steps, what follows from their outcome,
//! and telling the reply that is waited for from other messages.

use vstd::prelude::*;

use crate::file_path::FilePath;
use crate::json::{self, parse_json, same_json, Json, Tree};
use crate::text::{self, copy_of};

verus! {

/// One thing to do.
#[derive(Debug)]
pub enum Step {
    /// Start the backend of a config. A failure ends the session.
    Spawn(FilePath),
    /// Send a message to the backend of a config. A failure ends the session.
    Send(FilePath, Json),
    /// Send a message to the backend of a config, whatever comes of it.
    TrySend(FilePath, Json),
    /// Wait for a reply from the backend of a config and drop it.
    Discard(FilePath),
    /// Wait for a reply from the backend of a config and keep it, unless one is
    /// kept already.
    Collect(FilePath),
    /// Write the reply that was kept to the editor, if there is one.
    WriteCollected,
    /// Wait for a reply from the backend of a config, for the one to the request
    /// `id` where that is given, and write it to the editor. Where none comes,
    /// write `fallback`.
    Relay { config: FilePath, id: Option<Json>, fallback: Json },
    /// Write a message to the editor.
    Write(Json),
}

/// The same, over mathematical values.
pub ghost enum Act {
    Spawn(Seq<u8>),
    Send(Seq<u8>, Tree),
    TrySend(Seq<u8>, Tree),
    Discard(Seq<u8>),
    Collect(Seq<u8>),
    WriteCollected,
    Relay(Seq<u8>, Option<Tree>, Tree),
    Write(Tree),
}

/// The tree of a value that may be missing.
pub open spec fn owned_tree(json: Option<Json>) -> Option<Tree> {
    match json {
        Some(j) => Some(j@),
        None => None,
    }
}

impl View for Step {
    type V = Act;

    open spec fn view(&self) -> Act {
        match self {
            Step::Spawn(config) => Act::Spawn(config@),
            Step::Send(config, msg) => Act::Send(config@, msg@),
            Step::TrySend(config, msg) => Act::TrySend(config@, msg@),
            Step::Discard(config) => Act::Discard(config@),
            Step::Collect(config) => Act::Collect(config@),
            Step::WriteCollected => Act::WriteCollected,
            Step::Relay { config, id, fallback } => Act::Relay(
                config@,
                owned_tree(*id),
                fallback@,
            ),
            Step::Write(msg) => Act::Write(msg@),
        }
    }
}

/// What a list of steps amounts to.
pub open spec fn acts(steps: Seq<Step>) -> Seq<Act> {
    steps.map_values(|step: Step| step@)
}

/// Adds a step to a list.
pub(crate) fn add_step(steps: &mut Vec<Step>, step: Step)
    ensures
        acts(final(steps)@) == acts(old(steps)@).push(step@),
{
    let ghost before = steps@;
    steps.push(step);
    assert(acts(steps@) =~= acts(before).push(step@));
}

/// What came of a step.
#[derive(Debug)]
pub enum Outcome {
    /// It was done.
    Done,
    /// It failed, or no reply came.
    Failed,
    /// A reply came.
    Reply(String),
}

/// What to do after a step, before the next one.
#[derive(Debug)]
pub enum After {
    /// Go on.
    Continue,
    /// Write a backend's reply to the editor.
    WriteReply(String),
    /// Write a message to the editor.
    WriteValue(Json),
    /// End the session with an error.
    Abort,
}

/// The same, over mathematical values.
pub ghost enum Then {
    Continue,
    WriteReply(Seq<char>),
    WriteValue(Tree),
    Abort,
}

impl View for After {
    type V = Then;

    open spec fn view(&self) -> Then {
        match self {
            After::Continue => Then::Continue,
            After::WriteReply(reply) => Then::WriteReply(reply@),
            After::WriteValue(msg) => Then::WriteValue(msg@),
            After::Abort => Then::Abort,
        }
    }
}

/// What came of a step: `None` for a failure, and the reply, where one came.
pub open spec fn outcome_of(outcome: Outcome) -> Option<Option<Seq<char>>> {
    match outcome {
        Outcome::Done => Some(None),
        Outcome::Failed => None,
        Outcome::Reply(reply) => Some(Some(reply@)),
    }
}

/// The reply that is kept and what to do, after a step.
pub open spec fn settled(
    act: Act,
    outcome: Option<Option<Seq<char>>>,
    collected: Option<Seq<char>>,
) -> (Option<Seq<char>>, Then) {
    match act {
        Act::Spawn(_) | Act::Send(_, _) | Act::Write(_) => (
            collected,
            if outcome is Some {
                Then::Continue
            } else {
                Then::Abort
            },
        ),
        Act::TrySend(_, _) | Act::Discard(_) => (collected, Then::Continue),
        Act::Collect(_) => (
            match (collected, outcome) {
                (None, Some(reply)) => reply,
                _ => collected,
            },
            Then::Continue,
        ),
        Act::WriteCollected => (
            collected,
            match collected {
                Some(reply) => Then::WriteReply(reply),
                None => Then::Continue,
            },
        ),
        Act::Relay(_, _, fallback) => (
            collected,
            match outcome {
                Some(Some(reply)) => Then::WriteReply(reply),
                _ => Then::WriteValue(fallback),
            },
        ),
    }
}

/// Decides what to do after a step. `collected` is the reply that is kept.
pub fn settle(step: &Step, outcome: Outcome, collected: &mut Option<String>) -> (after: After)
    ensures
        (text::text_option(*final(collected)), after@) == settled(
            step@,
            outcome_of(outcome),
            text::text_option(*old(collected)),
        ),
{
    match step {
        Step::Spawn(_) | Step::Send(_, _) | Step::Write(_) => match outcome {
            Outcome::Failed => After::Abort,
            _ => After::Continue,
        },
        Step::TrySend(_, _) | Step::Discard(_) => After::Continue,
        Step::Collect(_) => {
            if collected.is_none() {
                if let Outcome::Reply(reply) = outcome {
                    *collected = Some(reply);
                }
            }
            After::Continue
        },
        Step::WriteCollected => match collected {
            Some(reply) => After::WriteReply(copy_of(reply.as_str())),
            None => After::Continue,
        },
        Step::Relay { config: _, id: _, fallback } => match outcome {
            Outcome::Reply(reply) => After::WriteReply(reply),
            _ => After::WriteValue(fallback.copy()),
        },
    }
}

/// What a message from a backend is to whoever waits for a reply.
#[derive(Debug, Clone, Copy, PartialEq, Eq, Structural)]
pub enum Incoming {
    /// The reply that is waited for.
    Answer,
    /// A notification, or the reply to another request: it goes to the editor.
    Pass,
    /// No JSON. The wait fails.
    Broken,
}

/// What a message is to whoever waits for the reply to `expected`, or for any
/// reply.
pub open spec fn incoming_of(msg: Option<Tree>, expected: Option<Tree>) -> Incoming {
    match msg {
        None => Incoming::Broken,
        Some(msg) => match (msg.get("id"@), expected) {
            (None, _) => Incoming::Pass,
            (Some(_), None) => Incoming::Answer,
            (Some(id), Some(expected)) => if json::same_tree(id, expected) {
                Incoming::Answer
            } else {
                Incoming::Pass
            },
        },
    }
}

/// Sorts a message from a backend.
///
/// Notifications are forwarded to the editor as they arrive. So are replies to
/// other requests: a backend advertising hover and completion answers several
/// requests at once, and returning whichever reply lands first would hand the
/// editor an answer to a question it asked about something else.
pub fn sort_incoming(text: &str, expected: Option<&Json>) -> (incoming: Incoming)
    ensures
        incoming == incoming_of(json::parsed_tree(text@), json::tree_option(expected)),
{
    match parse_json(text) {
        Ok(msg) => sort_message(&msg, expected),
        Err(_) => Incoming::Broken,
    }
}

/// Sorts a message from a backend that is JSON.
pub fn sort_message(msg: &Json, expected: Option<&Json>) -> (incoming: Incoming)
    ensures
        incoming == incoming_of(Some(msg@), json::tree_option(expected)),
{
    match msg.get("id") {
        None => Incoming::Pass,
        Some(id) => match expected {
            None => Incoming::Answer,
            Some(expected) => if same_json(id, expected) {
                Incoming::Answer
            } else {
                Incoming::Pass
            },
        },
    }
}

/// Whether a step starts a backend.
pub open spec fn starts(act: Act) -> bool {
    act is Spawn
}

/// Whether a step can write an answer to the editor.
pub open spec fn answers(act: Act) -> bool {
    act is Write || act is WriteCollected || act is Relay
}

/// The config whose backend a step speaks to.
pub open spec fn target(act: Act) -> Option<Seq<u8>> {
    match act {
        Act::Spawn(c) => Some(c),
        Act::Send(c, _) => Some(c),
        Act::TrySend(c, _) => Some(c),
        Act::Discard(c) => Some(c),
        Act::Collect(c) => Some(c),
        Act::Relay(c, _, _) => Some(c),
        Act::WriteCollected => None,
        Act::Write(_) => None,
    }
}

/// Waiting for a reply ends with one message to the editor, whatever the backend
/// does: its reply, or the fallback where none came.
pub proof fn law_waiting_ends_with_an_answer(
    config: Seq<u8>,
    id: Option<Tree>,
    fallback: Tree,
    outcome: Option<Option<Seq<char>>>,
    collected: Option<Seq<char>>,
)
    ensures
        match outcome {
            Some(Some(reply)) => settled(Act::Relay(config, id, fallback), outcome, collected).1
                == Then::WriteReply(reply),
            _ => settled(Act::Relay(config, id, fallback), outcome, collected).1
                == Then::WriteValue(fallback),
        },
{
}

/// Of the replies to `initialize`, the one that came first is the one that
/// counts.
pub proof fn law_first_reply_is_kept(
    config: Seq<u8>,
    reply: Seq<char>,
    outcome: Option<Option<Seq<char>>>,
)
    ensures
        settled(Act::Collect(config), Some(Some(reply)), None).0 == Some(reply),
        settled(Act::Collect(config), outcome, Some(reply)).0 == Some(reply),
        settled(Act::WriteCollected, outcome, Some(reply)).1 == Then::WriteReply(reply),
{
}

/// A reply is taken for an answer only where its id is the one that is waited
/// for; any other message goes to the editor.
pub proof fn law_foreign_replies_pass(msg: Tree, expected: Tree)
    ensures
        incoming_of(Some(msg), Some(expected)) == Incoming::Answer <==> {
            &&& msg.get("id"@) is Some
            &&& json::same_tree(msg.get("id"@)->Some_0, expected)
        },
        incoming_of(Some(msg), Some(expected)) != Incoming::Broken,
{
}

/// The reply to a request is taken for its answer: an id that is a number, a
/// string or null equals itself.
pub proof fn law_own_replies_are_taken(msg: Tree, id: Tree)
    requires
        msg.get("id"@) == Some(id),
        !(id is Array) && !(id is Object),
    ensures
        incoming_of(Some(msg), Some(id)) == Incoming::Answer,
{
}

/// What came of waiting for a reply, over the messages that a backend sends.
pub ghost struct Wait {
    /// The messages that went to the editor.
    pub passed: Seq<Seq<char>>,
    /// How the wait ended.
    pub end: WaitEnd,
    /// The messages that are left for later.
    pub left: Seq<Seq<char>>,
}

/// How a wait ends.
pub ghost enum WaitEnd {
    /// With the reply.
    Reply(Seq<char>),
    /// With a message that is no JSON.
    Broken(Seq<char>),
    /// It goes on: no reply has come yet.
    Open,
}

/// Waiting for the reply to `expected`, or for any reply: each message is sorted
/// as it comes.
pub open spec fn waiting(messages: Seq<Seq<char>>, expected: Option<Tree>) -> Wait
    decreases messages.len(),
{
    if messages.len() == 0 {
        Wait { passed: Seq::empty(), end: WaitEnd::Open, left: Seq::empty() }
    } else {
        let later = messages.skip(1);
        match incoming_of(json::parsed_tree(messages[0]), expected) {
            Incoming::Answer => Wait {
                passed: Seq::empty(),
                end: WaitEnd::Reply(messages[0]),
                left: later,
            },
            Incoming::Broken => Wait {
                passed: Seq::empty(),
                end: WaitEnd::Broken(messages[0]),
                left: later,
            },
            Incoming::Pass => {
                let rest = waiting(later, expected);
                Wait { passed: seq![messages[0]] + rest.passed, ..rest }
            },
        }
    }
}

/// Whether every message of a list goes to the editor.
pub open spec fn all_pass(messages: Seq<Seq<char>>, expected: Option<Tree>) -> bool {
    forall|i: int|
        0 <= i < messages.len() ==> incoming_of(
            json::parsed_tree(#[trigger] messages[i]),
            expected,
        ) == Incoming::Pass
}

proof fn passing_comes_first(
    before: Seq<Seq<char>>,
    after: Seq<Seq<char>>,
    expected: Option<Tree>,
)
    requires
        all_pass(before, expected),
    ensures
        ({
            let rest = waiting(after, expected);
            waiting(before + after, expected) == (Wait { passed: before + rest.passed, ..rest })
        }),
    decreases before.len(),
{
    let all = before + after;
    let rest = waiting(after, expected);
    if before.len() == 0 {
        assert(all =~= after);
        assert(before + rest.passed =~= rest.passed);
    } else {
        let more = before.skip(1);
        assert(all[0] == before[0]);
        assert(all.skip(1) =~= more + after);
        assert(all_pass(more, expected)) by {
            assert forall|i: int| 0 <= i < more.len() implies incoming_of(
                json::parsed_tree(#[trigger] more[i]),
                expected,
            ) == Incoming::Pass by {
                assert(before[i + 1] == more[i]);
            }
        }
        assert(incoming_of(json::parsed_tree(before[0]), expected) == Incoming::Pass);
        passing_comes_first(more, after, expected);
        assert(seq![before[0]] + (more + rest.passed) =~= before + rest.passed);
    }
}

/// The first message that answers is the reply: everything before it goes to the
/// editor, once and in order, and what comes later stays where it is.
pub proof fn law_first_answer_ends_the_wait(
    before: Seq<Seq<char>>,
    reply: Seq<char>,
    later: Seq<Seq<char>>,
    expected: Option<Tree>,
)
    requires
        all_pass(before, expected),
        incoming_of(json::parsed_tree(reply), expected) == Incoming::Answer,
    ensures
        waiting(before + seq![reply] + later, expected) == (Wait {
            passed: before,
            end: WaitEnd::Reply(reply),
            left: later,
        }),
{
    let rest = seq![reply] + later;
    assert(before + seq![reply] + later =~= before + rest);
    passing_comes_first(before, rest, expected);
    assert(rest[0] == reply);
    assert(rest.skip(1) =~= later);
    assert(before + Seq::<Seq<char>>::empty() =~= before);
}

/// A message that is no JSON ends the wait without a reply. What came before it
/// has gone to the editor, and it goes to nobody.
pub proof fn law_broken_messages_end_the_wait(
    before: Seq<Seq<char>>,
    broken: Seq<char>,
    later: Seq<Seq<char>>,
    expected: Option<Tree>,
)
    requires
        all_pass(before, expected),
        json::parsed_tree(broken) is None,
    ensures
        waiting(before + seq![broken] + later, expected) == (Wait {
            passed: before,
            end: WaitEnd::Broken(broken),
            left: later,
        }),
{
    let rest = seq![broken] + later;
    assert(before + seq![broken] + later =~= before + rest);
    passing_comes_first(before, rest, expected);
    assert(rest[0] == broken);
    assert(rest.skip(1) =~= later);
    assert(before + Seq::<Seq<char>>::empty() =~= before);
}

/// As long as no message answers, the wait goes on, and every message has gone
/// to the editor.
pub proof fn law_waits_go_on_without_an_answer(
    messages: Seq<Seq<char>>,
    expected: Option<Tree>,
)
    requires
        all_pass(messages, expected),
    ensures
        waiting(messages, expected) == (Wait {
            passed: messages,
            end: WaitEnd::Open,
            left: Seq::empty(),
        }),
{
    passing_comes_first(messages, Seq::empty(), expected);
    assert(messages + Seq::<Seq<char>>::empty() =~= messages);
}

/// No message is lost, doubled or moved: those that were passed on, the one that
/// ended the wait and those that are left make up what the backend sent.
pub proof fn law_waits_lose_no_message(messages: Seq<Seq<char>>, expected: Option<Tree>)
    ensures
        ({
            let wait = waiting(messages, expected);
            &&& all_pass(wait.passed, expected)
            &&& messages == wait.passed + (match wait.end {
                WaitEnd::Reply(reply) => seq![reply],
                WaitEnd::Broken(broken) => seq![broken],
                WaitEnd::Open => Seq::empty(),
            }) + wait.left
            &&& match wait.end {
                WaitEnd::Reply(reply) => incoming_of(json::parsed_tree(reply), expected)
                    == Incoming::Answer,
                WaitEnd::Broken(broken) => json::parsed_tree(broken) is None,
                WaitEnd::Open => wait.left.len() == 0,
            }
        }),
    decreases messages.len(),
{
    let wait = waiting(messages, expected);
    let ended = match wait.end {
        WaitEnd::Reply(reply) => seq![reply],
        WaitEnd::Broken(broken) => seq![broken],
        WaitEnd::Open => Seq::empty(),
    };
    if messages.len() == 0 {
        assert(messages =~= wait.passed + ended + wait.left);
    } else {
        let later = messages.skip(1);
        assert(seq![messages[0]] + later =~= messages);
        if incoming_of(json::parsed_tree(messages[0]), expected) == Incoming::Pass {
            law_waits_lose_no_message(later, expected);
            let rest = waiting(later, expected);
            assert forall|i: int| 0 <= i < wait.passed.len() implies incoming_of(
                json::parsed_tree(#[trigger] wait.passed[i]),
                expected,
            ) == Incoming::Pass by {
                if i > 0 {
                    assert(wait.passed[i] == rest.passed[i - 1]);
                }
            }
            assert(wait.passed + ended + wait.left =~= seq![messages[0]] + (rest.passed + ended
                + rest.left));
        } else {
            assert(wait.passed + ended + wait.left =~= messages);
        }
    }
}

/// A step that must succeed ends the session where it fails, and lets it go on
/// where it is done. A step that may fail never ends it. Neither changes the
/// reply that is kept.
pub proof fn law_failures_end_the_session_where_they_must(
    config: Seq<u8>,
    msg: Tree,
    done: Option<Seq<char>>,
    outcome: Option<Option<Seq<char>>>,
    kept: Option<Seq<char>>,
)
    ensures
        settled(Act::Spawn(config), None, kept) == (kept, Then::Abort),
        settled(Act::Send(config, msg), None, kept) == (kept, Then::Abort),
        settled(Act::Write(msg), None, kept) == (kept, Then::Abort),
        settled(Act::Spawn(config), Some(done), kept) == (kept, Then::Continue),
        settled(Act::Send(config, msg), Some(done), kept) == (kept, Then::Continue),
        settled(Act::Write(msg), Some(done), kept) == (kept, Then::Continue),
        settled(Act::TrySend(config, msg), outcome, kept) == (kept, Then::Continue),
        settled(Act::Discard(config), outcome, kept) == (kept, Then::Continue),
{
}

/// A wait for replies to keep never ends the session. Where no reply comes,
/// nothing is kept that was not kept before, and where none was kept nothing is
/// written. What is kept survives being written, and waiting for another reply.
pub proof fn law_missing_replies_are_not_kept(
    config: Seq<u8>,
    id: Option<Tree>,
    fallback: Tree,
    outcome: Option<Option<Seq<char>>>,
    kept: Option<Seq<char>>,
)
    ensures
        settled(Act::Collect(config), None, kept) == (kept, Then::Continue),
        settled(Act::Collect(config), Some(None), kept) == (kept, Then::Continue),
        settled(Act::Collect(config), outcome, kept).1 == Then::Continue,
        settled(Act::WriteCollected, outcome, None) == (None::<Seq<char>>, Then::Continue),
        settled(Act::WriteCollected, outcome, kept).0 == kept,
        settled(Act::Relay(config, id, fallback), outcome, kept).0 == kept,
{
}

/// Where any reply will do, every message with an id is one. A message without
/// an id is none and goes to the editor, whatever is waited for.
pub proof fn law_messages_without_an_id_pass(msg: Tree, expected: Option<Tree>)
    ensures
        incoming_of(Some(msg), None) == Incoming::Answer <==> msg.get("id"@) is Some,
        msg.get("id"@) is None ==> incoming_of(Some(msg), expected) == Incoming::Pass,
        incoming_of(None, expected) == Incoming::Broken,
{
}

/// A list of steps is seen step by step. What comes of a step counts as a failure
/// only where it failed, and as a reply only where one came.
pub proof fn law_outcomes_are_told_apart(
    steps: Seq<Step>,
    i: int,
    reply: String,
    config: Seq<u8>,
    fallback: Tree,
    kept: Option<Seq<char>>,
)
    requires
        0 <= i < steps.len(),
    ensures
        acts(steps).len() == steps.len(),
        acts(steps)[i] == steps[i]@,
        settled(Act::Spawn(config), outcome_of(Outcome::Failed), kept).1 == Then::Abort,
        settled(Act::Spawn(config), outcome_of(Outcome::Done), kept).1 == Then::Continue,
        settled(Act::Relay(config, None, fallback), outcome_of(Outcome::Reply(reply)), kept).1
            == Then::WriteReply(reply@),
        settled(Act::Relay(config, None, fallback), outcome_of(Outcome::Done), kept).1
            == Then::WriteValue(fallback),
        settled(Act::Relay(config, None, fallback), outcome_of(Outcome::Failed), kept).1
            == Then::WriteValue(fallback),
        settled(Act::Collect(config), outcome_of(Outcome::Reply(reply)), None).0 == Some(reply@),
{
}

} // verus!
