//! One run of the tool on a working tree, as a state machine: verify the
//! repository, detect changes, make the commit message, stage, commit and
//! push.
//!
//! The machine does none of the outside work. Each step takes the answer
//! to the request that is pending and gives the next request; whoever
//! drives the machine performs the request and brings back the answer. A
//! failure ends the run and undoes nothing: where the push fails, the
//! commit stays.
//!
//! The diff text is cut to its limit before the message is made. The limit
//! is below the length of a chunk, so a run asks the summarization service
//! once at most.

use crate::changes::{
    any_changed, changed, decoded, diff_text_of, lemma_bounded, ChangeSet, DiffStats, DIFF_LIMIT,
};
use crate::text::joined;
use crate::error::{Error, Failure};
use crate::message::{
    content_view, is_timestamp, lemma_chunks_capped, lemma_message_never_empty,
    lemma_short_diff_is_one_chunk, lemma_summary_never_empty, local_timestamp, prompt, summary,
    Need, Progress, Synthesis, Synthesizer, MAX_CHUNKS,
};
use vstd::prelude::*;
use vstd::string::*;

verus! {

/// How a run ended well.
#[derive(Clone, Copy, Debug, PartialEq, Eq, Structural)]
pub enum Outcome {
    /// Nothing differs from the last commit: nothing was done.
    NoChanges,
    /// Something differs, but the diff has no text: nothing was done.
    NothingToCommit,
    /// The changes were committed and the commit was pushed.
    Pushed,
}

/// What the driver brings back.
#[derive(Clone, Debug, PartialEq, Eq)]
pub enum Reply {
    /// The request was carried out; it has no result.
    Completed,
    /// The request failed, with the collaborator's description.
    Failed(String),
    /// The status flags of the paths of the working tree.
    Status(Vec<u32>),
    /// The counts and the lines of the diff between the last commit and
    /// the working tree.
    Diff { stats: DiffStats, lines: Vec<Vec<u8>> },
    /// The summary that the service gave, if it gave one.
    Summary(Option<String>),
}

/// The mathematical value of a [`Reply`]. The lines of a diff are taken as
/// the texts that they decode to.
pub enum Answer {
    Completed,
    Failed(Seq<char>),
    Status(Seq<u32>),
    Diff { stats: DiffStats, fragments: Seq<Seq<char>> },
    Summary(Option<Seq<char>>),
}

impl View for Reply {
    type V = Answer;

    open spec fn view(&self) -> Answer {
        match *self {
            Reply::Completed => Answer::Completed,
            Reply::Failed(detail) => Answer::Failed(detail@),
            Reply::Status(flags) => Answer::Status(flags@),
            Reply::Diff { stats, lines } => Answer::Diff {
                stats,
                fragments: decoded(lines.deep_view()),
            },
            Reply::Summary(content) => Answer::Summary(content_view(content)),
        }
    }
}

/// What the driver is to do next.
#[derive(Debug, PartialEq, Eq)]
pub enum Action {
    /// Open the repository at the path of the run.
    OpenRepository,
    /// Read the status of the working tree, untracked files included.
    ReadStatus,
    /// Read the diff between the last commit and the working tree,
    /// untracked files included.
    ReadDiff,
    /// Ask the summarization service, with this credential, for an answer
    /// to this request.
    Summarize { credential: String, prompt: String },
    /// Stage every change, untracked files included.
    StageAll,
    /// Commit what is staged on the current branch, with this message.
    Commit { message: String },
    /// Push the current branch.
    Push,
    /// Stop: the run has ended, in this way.
    Finish(Result<Outcome, Error>),
}

/// The mathematical value of an [`Action`].
pub enum Request {
    OpenRepository,
    ReadStatus,
    ReadDiff,
    Summarize { credential: Seq<char>, prompt: Seq<char> },
    StageAll,
    Commit { message: Seq<char> },
    Push,
    Finish(Result<Outcome, Failure>),
}

/// The mathematical value of the end of a run.
pub open spec fn result_view(result: Result<Outcome, Error>) -> Result<Outcome, Failure> {
    match result {
        Ok(outcome) => Ok(outcome),
        Err(e) => Err(e@),
    }
}

/// The mathematical value of a credential that may be missing.
pub open spec fn key_view(credential: Option<String>) -> Option<Seq<char>> {
    match credential {
        Some(key) => Some(key@),
        None => None,
    }
}

impl View for Action {
    type V = Request;

    open spec fn view(&self) -> Request {
        match *self {
            Action::OpenRepository => Request::OpenRepository,
            Action::ReadStatus => Request::ReadStatus,
            Action::ReadDiff => Request::ReadDiff,
            Action::Summarize { credential, prompt } => Request::Summarize {
                credential: credential@,
                prompt: prompt@,
            },
            Action::StageAll => Request::StageAll,
            Action::Commit { message } => Request::Commit { message: message@ },
            Action::Push => Request::Push,
            Action::Finish(result) => Request::Finish(result_view(result)),
        }
    }
}

/// A run, waiting for the answer to the request of its stage.
#[derive(Debug, PartialEq, Eq)]
pub enum Pipeline {
    /// Waiting for the repository to be opened.
    VerifyRepo { credential: Option<String> },
    /// Waiting for the status of the working tree.
    DetectStatus { credential: Option<String> },
    /// Waiting for the diff.
    DetectDiff { credential: Option<String> },
    /// Waiting for the summary of a chunk.
    Synthesize { key: String, synthesizer: Synthesizer },
    /// Waiting for the changes to be staged; the message is ready.
    StageAll { message: String },
    /// Waiting for the commit.
    Commit,
    /// Waiting for the push.
    Push,
    /// The run has ended.
    Done { result: Result<Outcome, Error> },
}

/// The mathematical value of a [`Pipeline`].
pub enum State {
    VerifyRepo { credential: Option<Seq<char>> },
    DetectStatus { credential: Option<Seq<char>> },
    DetectDiff { credential: Option<Seq<char>> },
    Synthesize { key: Seq<char>, synthesis: Synthesis },
    StageAll { message: Seq<char> },
    Commit,
    Push,
    Done { result: Result<Outcome, Failure> },
}

impl View for Pipeline {
    type V = State;

    open spec fn view(&self) -> State {
        match *self {
            Pipeline::VerifyRepo { credential } => State::VerifyRepo {
                credential: key_view(credential),
            },
            Pipeline::DetectStatus { credential } => State::DetectStatus {
                credential: key_view(credential),
            },
            Pipeline::DetectDiff { credential } => State::DetectDiff {
                credential: key_view(credential),
            },
            Pipeline::Synthesize { key, synthesizer } => State::Synthesize {
                key: key@,
                synthesis: synthesizer@,
            },
            Pipeline::StageAll { message } => State::StageAll { message: message@ },
            Pipeline::Commit => State::Commit,
            Pipeline::Push => State::Push,
            Pipeline::Done { result } => State::Done { result: result_view(result) },
        }
    }
}

/// The description of a failure that an answer brings. An answer that
/// does not belong to the pending request counts as a failure of that
/// request.
pub open spec fn detail(answer: Answer) -> Seq<char> {
    match answer {
        Answer::Failed(text) => text,
        _ => "unexpected reply"@,
    }
}

/// The run ends with a failure.
pub open spec fn failed(e: Failure) -> (State, Request) {
    (State::Done { result: Err(e) }, Request::Finish(Err(e)))
}

/// The run ends well.
pub open spec fn finished(outcome: Outcome) -> (State, Request) {
    (State::Done { result: Ok(outcome) }, Request::Finish(Ok(outcome)))
}

/// Where a synthesis stands: the next request goes to the service, or the
/// message is ready and the changes are staged.
pub open spec fn advance(credential: Option<Seq<char>>, synthesis: Synthesis) -> (State, Request) {
    match synthesis.need() {
        Need::Done(message) => (State::StageAll { message }, Request::StageAll),
        Need::Ask(prompt) => match credential {
            Some(key) => (
                State::Synthesize { key, synthesis },
                Request::Summarize { credential: key, prompt },
            ),
            None => failed(Failure::MissingCredential),
        },
    }
}

/// The first state of a run and its first request.
pub open spec fn first(credential: Option<Seq<char>>) -> (State, Request) {
    (State::VerifyRepo { credential }, Request::OpenRepository)
}

/// One step of a run: the state and the request that follow `state` on
/// `answer`. `now` is the local time, which is the commit message where
/// no credential is configured.
pub open spec fn next(state: State, answer: Answer, now: Seq<char>) -> (State, Request) {
    match state {
        State::VerifyRepo { credential } => match answer {
            Answer::Completed => (State::DetectStatus { credential }, Request::ReadStatus),
            _ => failed(Failure::NotAWorkingTree),
        },
        State::DetectStatus { credential } => match answer {
            Answer::Status(flags) => if changed(flags) {
                (State::DetectDiff { credential }, Request::ReadDiff)
            } else {
                finished(Outcome::NoChanges)
            },
            _ => failed(Failure::VersionControlFailure(detail(answer))),
        },
        State::DetectDiff { credential } => match answer {
            Answer::Diff { stats, fragments } => {
                let text = diff_text_of(stats, fragments);
                if text.len() == 0 {
                    finished(Outcome::NothingToCommit)
                } else {
                    advance(credential, Synthesis::begin(credential is Some, text, now))
                }
            },
            _ => failed(Failure::VersionControlFailure(detail(answer))),
        },
        State::Synthesize { key, synthesis } => match answer {
            Answer::Summary(content) => advance(Some(key), synthesis.accept(content)),
            _ => failed(Failure::SummarizationFailure(detail(answer))),
        },
        State::StageAll { message } => match answer {
            Answer::Completed => (State::Commit, Request::Commit { message }),
            _ => failed(Failure::VersionControlFailure(detail(answer))),
        },
        State::Commit => match answer {
            Answer::Completed => (State::Push, Request::Push),
            _ => failed(Failure::VersionControlFailure(detail(answer))),
        },
        State::Push => match answer {
            Answer::Completed => finished(Outcome::Pushed),
            _ => failed(Failure::VersionControlFailure(detail(answer))),
        },
        State::Done { result } => (state, Request::Finish(result)),
    }
}

/// Whether a step from `state` on `answer` reads the clock.
pub open spec fn reads_clock(state: State, answer: Answer) -> bool {
    state matches State::DetectDiff { credential: None } && answer is Diff
}

/// A time of the clock's shape.
pub open spec fn epoch() -> Seq<char> {
    "1970-01-01 00:00:00"@
}

/// A bound on the steps that a run takes from `state` until it has ended.
pub open spec fn steps_left(state: State) -> nat {
    match state {
        State::VerifyRepo { .. } => 6 + MAX_CHUNKS as nat,
        State::DetectStatus { .. } => 5 + MAX_CHUNKS as nat,
        State::DetectDiff { .. } => 4 + MAX_CHUNKS as nat,
        State::Synthesize { synthesis, .. } => if synthesis.answered < synthesis.chunks.len() {
            (3 + synthesis.chunks.len() - synthesis.answered) as nat
        } else {
            4
        },
        State::StageAll { .. } => 3,
        State::Commit => 2,
        State::Push => 1,
        State::Done { .. } => 0,
    }
}

/// A run from `state` on the given answers, in order: the state that is
/// reached and the requests that were issued on the way.
pub open spec fn run(state: State, answers: Seq<Answer>, now: Seq<char>) -> (State, Seq<Request>)
    decreases answers.len(),
{
    if answers.len() == 0 {
        (state, Seq::empty())
    } else {
        let before = run(state, answers.drop_last(), now);
        let step = next(before.0, answers.last(), now);
        (step.0, before.1.push(step.1))
    }
}

/// No credential is configured in this state.
pub open spec fn keyless(state: State) -> bool {
    match state {
        State::VerifyRepo { credential } => credential is None,
        State::DetectStatus { credential } => credential is None,
        State::DetectDiff { credential } => credential is None,
        State::Synthesize { .. } => false,
        _ => true,
    }
}

/// The message of this state, where it holds one, is not empty.
pub open spec fn ready(state: State) -> bool {
    state matches State::StageAll { message } ==> message.len() > 0
}

/// The request that a state waits on.
pub open spec fn awaits(state: State, request: Request) -> bool {
    match state {
        State::VerifyRepo { .. } => request is OpenRepository,
        State::DetectStatus { .. } => request is ReadStatus,
        State::DetectDiff { .. } => request is ReadDiff,
        State::Synthesize { key, synthesis } => request == (Request::Summarize {
            credential: key,
            prompt: synthesis.pending()->0,
        }) && synthesis.pending() is Some,
        State::StageAll { .. } => request is StageAll,
        State::Commit => request is Commit,
        State::Push => request is Push,
        State::Done { result } => request == Request::Finish(result),
    }
}

/// The description of the failure that a reply brings.
fn detail_of(reply: Reply) -> (text: String)
    ensures
        text@ == detail(reply@),
{
    match reply {
        Reply::Failed(text) => text,
        _ => String::from_str("unexpected reply"),
    }
}

/// A copy of the end of a run.
fn copy_result(result: &Result<Outcome, Error>) -> (copy: Result<Outcome, Error>)
    ensures
        result_view(copy) == result_view(*result),
{
    match result {
        Ok(outcome) => Ok(*outcome),
        Err(e) => Err(e.duplicate()),
    }
}

/// The run ends with a version-control failure.
fn version_control_failed(reply: Reply) -> (r: (Pipeline, Action))
    ensures
        (r.0@, r.1@) == failed(Failure::VersionControlFailure(detail(reply@))),
{
    let text = detail_of(reply);
    let copy = text.clone();
    (
        Pipeline::Done { result: Err(Error::VersionControlFailure(text)) },
        Action::Finish(Err(Error::VersionControlFailure(copy))),
    )
}

/// Where a synthesis stands: the next request goes to the service, or the
/// message is ready and the changes are staged.
fn advance_to(credential: Option<String>, synthesizer: Synthesizer) -> (r: (Pipeline, Action))
    ensures
        (r.0@, r.1@) == advance(key_view(credential), synthesizer@),
{
    match synthesizer.progress() {
        Progress::Done(message) => (Pipeline::StageAll { message }, Action::StageAll),
        Progress::Ask(prompt) => match credential {
            Some(key) => {
                let copy = key.clone();
                (
                    Pipeline::Synthesize { key, synthesizer },
                    Action::Summarize { credential: copy, prompt },
                )
            },
            None => (
                Pipeline::Done { result: Err(Error::MissingCredential) },
                Action::Finish(Err(Error::MissingCredential)),
            ),
        },
    }
}

impl Pipeline {
    /// Begins a run. `credential` is the credential for the summarization
    /// service, where one is configured.
    pub fn begin(credential: Option<String>) -> (r: (Pipeline, Action))
        ensures
            (r.0@, r.1@) == first(key_view(credential)),
    {
        (Pipeline::VerifyRepo { credential }, Action::OpenRepository)
    }

    /// Whether the run has ended.
    pub fn is_done(&self) -> (r: bool)
        ensures
            r == (self@ is Done),
    {
        match self {
            Pipeline::Done { .. } => true,
            _ => false,
        }
    }

    /// One step of the run, with `now` for the local time.
    pub fn step_at(self, reply: Reply, now: &str) -> (r: (Pipeline, Action))
        ensures
            (r.0@, r.1@) == next(self@, reply@, now@),
    {
        match self {
            Pipeline::VerifyRepo { credential } => match reply {
                Reply::Completed => (Pipeline::DetectStatus { credential }, Action::ReadStatus),
                _ => (
                    Pipeline::Done { result: Err(Error::NotAWorkingTree) },
                    Action::Finish(Err(Error::NotAWorkingTree)),
                ),
            },
            Pipeline::DetectStatus { credential } => match reply {
                Reply::Status(flags) => {
                    if any_changed(flags.as_slice()) {
                        (Pipeline::DetectDiff { credential }, Action::ReadDiff)
                    } else {
                        (
                            Pipeline::Done { result: Ok(Outcome::NoChanges) },
                            Action::Finish(Ok(Outcome::NoChanges)),
                        )
                    }
                },
                other => version_control_failed(other),
            },
            Pipeline::DetectDiff { credential } => match reply {
                Reply::Diff { stats, lines } => {
                    let set = ChangeSet::from_diff(stats, &lines);
                    let text = set.into_diff_text();
                    if text.as_str().unicode_len() == 0 {
                        (
                            Pipeline::Done { result: Ok(Outcome::NothingToCommit) },
                            Action::Finish(Ok(Outcome::NothingToCommit)),
                        )
                    } else {
                        let synthesizer = Synthesizer::begin(
                            credential.is_some(),
                            text.as_str(),
                            now,
                        );
                        advance_to(credential, synthesizer)
                    }
                },
                other => version_control_failed(other),
            },
            Pipeline::Synthesize { key, synthesizer } => match reply {
                Reply::Summary(content) => {
                    let synthesizer = synthesizer.accept(content);
                    advance_to(Some(key), synthesizer)
                },
                other => {
                    let text = detail_of(other);
                    let copy = text.clone();
                    (
                        Pipeline::Done { result: Err(Error::SummarizationFailure(text)) },
                        Action::Finish(Err(Error::SummarizationFailure(copy))),
                    )
                },
            },
            Pipeline::StageAll { message } => match reply {
                Reply::Completed => (Pipeline::Commit, Action::Commit { message }),
                other => version_control_failed(other),
            },
            Pipeline::Commit => match reply {
                Reply::Completed => (Pipeline::Push, Action::Push),
                other => version_control_failed(other),
            },
            Pipeline::Push => match reply {
                Reply::Completed => (
                    Pipeline::Done { result: Ok(Outcome::Pushed) },
                    Action::Finish(Ok(Outcome::Pushed)),
                ),
                other => version_control_failed(other),
            },
            Pipeline::Done { result } => {
                let copy = copy_result(&result);
                (Pipeline::Done { result }, Action::Finish(copy))
            },
        }
    }

    /// One step of the run. The local time is read where the step needs
    /// it: on the diff, where no credential is configured.
    pub fn step(self, reply: Reply) -> (r: (Pipeline, Action))
        ensures
            exists|now: Seq<char>|
                is_timestamp(now) && (r.0@, r.1@) == #[trigger] next(self@, reply@, now),
            !reads_clock(self@, reply@) ==> (r.0@, r.1@) == next(self@, reply@, Seq::empty()),
    {
        let needs_clock = match &self {
            Pipeline::DetectDiff { credential } => credential.is_none() && match &reply {
                Reply::Diff { .. } => true,
                _ => false,
            },
            _ => false,
        };
        if needs_clock {
            let now = local_timestamp();
            self.step_at(reply, now.as_str())
        } else {
            proof {
                lemma_clock_unread(self@, reply@, Seq::empty(), epoch());
                lemma_epoch();
            }
            self.step_at(reply, "")
        }
    }
}

/// The text of `epoch` has the shape of a time.
pub proof fn lemma_epoch()
    ensures
        is_timestamp(epoch()),
{
    reveal_strlit("1970-01-01 00:00:00");
    let s = epoch();
    assert(s.len() == 19);
    let y = s.take(4);
    let t = s.skip(4);
    assert(y.len() == 4);
    assert(t.len() == 15);
}

/// A step that does not read the clock is the same at every time.
pub proof fn lemma_clock_unread(state: State, answer: Answer, now: Seq<char>, then: Seq<char>)
    requires
        !reads_clock(state, answer),
    ensures
        next(state, answer, now) == next(state, answer, then),
{
}

/// A run in two parts is the run on all the answers.
pub proof fn lemma_run_split(state: State, a: Seq<Answer>, b: Seq<Answer>, now: Seq<char>)
    ensures
        run(state, a + b, now).0 == run(run(state, a, now).0, b, now).0,
        run(state, a + b, now).1 == run(state, a, now).1 + run(run(state, a, now).0, b, now).1,
    decreases b.len(),
{
    if b.len() == 0 {
        assert(a + b == a);
    } else {
        assert((a + b).drop_last() == a + b.drop_last());
        lemma_run_split(state, a, b.drop_last(), now);
    }
}

/// A run that has ended stays ended: whatever is answered, the state is
/// the same and the request is to stop with the same result.
pub proof fn lemma_done_is_final(
    result: Result<Outcome, Failure>,
    answers: Seq<Answer>,
    now: Seq<char>,
)
    ensures
        run(State::Done { result }, answers, now).0 == (State::Done { result }),
        run(State::Done { result }, answers, now).1 == Seq::new(
            answers.len(),
            |i: int| Request::Finish(result),
        ),
    decreases answers.len(),
{
    if answers.len() > 0 {
        lemma_done_is_final(result, answers.drop_last(), now);
    }
}

/// Each step leaves the machine waiting on the request that it issued,
/// and the stages follow each other in one order: a push is requested
/// only on the answer to the commit, the commit only on the answer to the
/// staging, the staging only on the diff or on a summary, a summary only
/// on the diff or on a summary, the diff only on the status, and the
/// status only on the opened repository.
pub proof fn lemma_stage_order(state: State, answer: Answer, now: Seq<char>)
    ensures
        awaits(next(state, answer, now).0, next(state, answer, now).1),
        next(state, answer, now).1 is Push ==> state is Commit,
        next(state, answer, now).1 is Commit ==> state is StageAll,
        next(state, answer, now).1 is StageAll ==> state is DetectDiff || state is Synthesize,
        next(state, answer, now).1 is Summarize ==> state is DetectDiff || state is Synthesize,
        next(state, answer, now).1 is ReadDiff ==> state is DetectStatus,
        next(state, answer, now).1 is ReadStatus ==> state is VerifyRepo,
        !(next(state, answer, now).1 is OpenRepository),
{
}

/// A failed request ends the run at once, with the failure of its stage:
/// no working tree where the repository cannot be opened, a summarization
/// failure where the service fails, and a version-control failure
/// everywhere else. The description is the collaborator's.
pub proof fn lemma_failure_ends_run(state: State, text: Seq<char>, now: Seq<char>)
    requires
        !(state is Done),
    ensures
        next(state, Answer::Failed(text), now) == failed(
            match state {
                State::VerifyRepo { .. } => Failure::NotAWorkingTree,
                State::Synthesize { .. } => Failure::SummarizationFailure(text),
                _ => Failure::VersionControlFailure(text),
            },
        ),
{
}

/// Where nothing differs from the last commit the run ends well at once:
/// after the status nothing is requested but to stop. Nothing is staged,
/// committed or pushed.
pub proof fn lemma_no_changes_does_nothing(
    credential: Option<Seq<char>>,
    flags: Seq<u32>,
    later: Seq<Answer>,
    now: Seq<char>,
)
    requires
        !changed(flags),
    ensures
        run(
            first(credential).0,
            seq![Answer::Completed, Answer::Status(flags)] + later,
            now,
        ).0 == (State::Done { result: Ok(Outcome::NoChanges) }),
        run(first(credential).0, seq![Answer::Completed, Answer::Status(flags)] + later, now).1
            == seq![Request::ReadStatus] + Seq::new(
            later.len() + 1,
            |i: int| Request::Finish(Ok(Outcome::NoChanges)),
        ),
{
    let start = first(credential).0;
    let head = seq![Answer::Completed, Answer::Status(flags)];
    let done = State::Done { result: Ok(Outcome::NoChanges) };
    assert(head.drop_last() == seq![Answer::Completed]);
    assert(seq![Answer::Completed].drop_last() == Seq::<Answer>::empty());
    assert(run(start, Seq::empty(), now) == (start, Seq::<Request>::empty()));
    assert(run(start, seq![Answer::Completed], now).0 == (State::DetectStatus { credential }));
    assert(run(start, seq![Answer::Completed], now).1 == seq![Request::ReadStatus]);
    assert(run(start, head, now).0 == done);
    assert(run(start, head, now).1 == seq![
        Request::ReadStatus,
        Request::Finish(Ok(Outcome::NoChanges)),
    ]);
    lemma_run_split(start, head, later, now);
    lemma_done_is_final(Ok(Outcome::NoChanges), later, now);
    assert(run(start, head + later, now).1 == seq![Request::ReadStatus] + Seq::new(
        later.len() + 1,
        |i: int| Request::Finish(Ok(Outcome::NoChanges)),
    ));
}

/// Without a credential a step asks nothing of the service, and the
/// state that follows is without a credential too.
pub proof fn lemma_keyless_step(state: State, answer: Answer, now: Seq<char>)
    requires
        keyless(state),
    ensures
        keyless(next(state, answer, now).0),
        !(next(state, answer, now).1 is Summarize),
{
}

/// Without a credential a run never asks anything of the service.
pub proof fn lemma_keyless_run(answers: Seq<Answer>, now: Seq<char>)
    ensures
        keyless(run(first(None).0, answers, now).0),
        forall|i: int|
            0 <= i < answers.len() ==> !(#[trigger] run(first(None).0, answers, now).1[i]
                is Summarize),
    decreases answers.len(),
{
    if answers.len() > 0 {
        let before = run(first(None).0, answers.drop_last(), now);
        lemma_keyless_run(answers.drop_last(), now);
        lemma_keyless_step(before.0, answers.last(), now);
        lemma_run_len(first(None).0, answers.drop_last(), now);
    }
}

/// A run issues one request for each answer.
pub proof fn lemma_run_len(state: State, answers: Seq<Answer>, now: Seq<char>)
    ensures
        run(state, answers, now).1.len() == answers.len(),
    decreases answers.len(),
{
    if answers.len() > 0 {
        lemma_run_len(state, answers.drop_last(), now);
    }
}

/// Without a credential the commit message is the local time: on a diff
/// with text the changes are staged next, and then they are committed
/// with the time as the message.
pub proof fn lemma_fallback_message(stats: DiffStats, fragments: Seq<Seq<char>>, now: Seq<char>)
    requires
        is_timestamp(now),
        diff_text_of(stats, fragments).len() > 0,
    ensures
        next(State::DetectDiff { credential: None }, Answer::Diff { stats, fragments }, now) == (
            State::StageAll { message: now },
            Request::StageAll,
        ),
        next(State::StageAll { message: now }, Answer::Completed, now) == (
            State::Commit,
            Request::Commit { message: now },
        ),
{
}

/// A step keeps the message non-empty, and a commit that it requests has
/// a message that is not empty.
pub proof fn lemma_ready_step(state: State, answer: Answer, now: Seq<char>)
    requires
        ready(state),
    ensures
        ready(next(state, answer, now).0),
        next(state, answer, now).1 matches Request::Commit { message } ==> message.len() > 0,
{
    match state {
        State::DetectDiff { credential } => {
            if let Answer::Diff { stats, fragments } = answer {
                let text = diff_text_of(stats, fragments);
                lemma_message_never_empty(Synthesis::begin(credential is Some, text, now));
            }
        },
        State::Synthesize { key, synthesis } => {
            if let Answer::Summary(content) = answer {
                lemma_message_never_empty(synthesis.accept(content));
            }
        },
        _ => {},
    }
}

/// No run commits with an empty message.
pub proof fn lemma_commit_message_never_empty(
    credential: Option<Seq<char>>,
    answers: Seq<Answer>,
    now: Seq<char>,
)
    ensures
        ready(run(first(credential).0, answers, now).0),
        forall|i: int|
            0 <= i < answers.len() ==> (#[trigger] run(first(credential).0, answers, now).1[i]
                matches Request::Commit { message } ==> message.len() > 0),
    decreases answers.len(),
{
    if answers.len() > 0 {
        let before = run(first(credential).0, answers.drop_last(), now);
        lemma_commit_message_never_empty(credential, answers.drop_last(), now);
        lemma_ready_step(before.0, answers.last(), now);
        lemma_run_len(first(credential).0, answers.drop_last(), now);
    }
}

/// With a credential the commit message is the summary of the diff text:
/// on a diff with text the service is asked once, for the whole text, and
/// on its answer the changes are staged with the summary as the message.
pub proof fn lemma_summary_is_message(
    key: Seq<char>,
    stats: DiffStats,
    fragments: Seq<Seq<char>>,
    content: Option<Seq<char>>,
    now: Seq<char>,
)
    requires
        diff_text_of(stats, fragments).len() > 0,
    ensures
        next(
            State::DetectDiff { credential: Some(key) },
            Answer::Diff { stats, fragments },
            now,
        ).1 == (Request::Summarize {
            credential: key,
            prompt: prompt(diff_text_of(stats, fragments)),
        }),
        next(
            next(
                State::DetectDiff { credential: Some(key) },
                Answer::Diff { stats, fragments },
                now,
            ).0,
            Answer::Summary(content),
            now,
        ) == (State::StageAll { message: summary(content) }, Request::StageAll),
{
    let text = diff_text_of(stats, fragments);
    lemma_bounded(joined(fragments, Seq::empty()), DIFF_LIMIT as nat);
    lemma_short_diff_is_one_chunk(text);
    lemma_summary_never_empty(content);
    let begun = Synthesis::begin(true, text, now);
    assert(begun.pending() == Some(prompt(text)));
    let answered = begun.accept(content);
    assert(answered.message == summary(content)) by {
        assert(Seq::<char>::empty() + summary(content) == summary(content));
    }
    assert(answered.pending() is None);
}

/// The stages have no way back: every step of a run that has not ended
/// brings it nearer to its end.
pub proof fn lemma_step_progress(state: State, answer: Answer, now: Seq<char>)
    requires
        !(state is Done),
    ensures
        steps_left(next(state, answer, now).0) < steps_left(state),
{
    if let State::DetectDiff { credential } = state {
        if let Answer::Diff { stats, fragments } = answer {
            lemma_chunks_capped(diff_text_of(stats, fragments));
        }
    }
}

/// Every run ends: after as many answers as the bound of its first state
/// says, it has ended.
pub proof fn lemma_run_ends(state: State, answers: Seq<Answer>, now: Seq<char>)
    ensures
        steps_left(run(state, answers, now).0) + answers.len() <= steps_left(state) || run(
            state,
            answers,
            now,
        ).0 is Done,
        answers.len() >= steps_left(state) ==> run(state, answers, now).0 is Done,
    decreases answers.len(),
{
    if answers.len() > 0 {
        let before = run(state, answers.drop_last(), now);
        lemma_run_ends(state, answers.drop_last(), now);
        if before.0 is Done {
            assert(next(before.0, answers.last(), now).0 == before.0);
        } else {
            lemma_step_progress(before.0, answers.last(), now);
        }
    }
}

} // verus!
