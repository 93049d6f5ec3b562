//! The commit message for a diff. Without a credential for the
//! summarization service the message is the local time. With one, the diff
//! is cut into chunks, the service is asked for a summary of each of the
//! first few, and the message is the summaries one after the other, with
//! nothing between them.
//!
//! The service is not called from here. The synthesizer says what to ask
//! next and takes the answer; a failed request ends the synthesis, and
//! whoever drives it reports the failure. Lengths are counted in
//! characters.

use vstd::prelude::*;
use vstd::string::*;

verus! {

/// The length of a chunk of the diff, but for the last.
pub const CHUNK_SIZE: usize = 5000;

/// The greatest number of chunks that are summarized. What follows them in
/// the diff is dropped.
pub const MAX_CHUNKS: usize = 6;

/// The instruction that precedes each chunk in a request.
pub open spec fn instruction_text() -> Seq<char> {
    "You are CommitBot, an assistant tasked with writing helpful commit messages based on code changes.\n      You will be given a set of patches of code changes, and you must write a short commit message describing the changes. Do not be verbose. \n      Your response must include only high level logical changes if the diff is large, otherwise you may include specific changes.\n      Try to fit your response in one line.\n      \n\n"@
}

/// What stands for the summary of a chunk where the service gave none.
pub open spec fn placeholder_text() -> Seq<char> {
    "Could not generate commit message"@
}

/// How many chunks of a diff are summarized.
pub open spec fn chunk_count(diff: Seq<char>) -> nat {
    let whole = (diff.len() + CHUNK_SIZE - 1) / (CHUNK_SIZE as int);
    if whole > MAX_CHUNKS {
        MAX_CHUNKS as nat
    } else {
        whole as nat
    }
}

/// The chunk with index `i` of a diff.
pub open spec fn chunk(diff: Seq<char>, i: int) -> Seq<char> {
    let start = i * CHUNK_SIZE;
    let end = start + CHUNK_SIZE;
    diff.subrange(
        start,
        if end > diff.len() {
            diff.len() as int
        } else {
            end
        },
    )
}

/// The chunks of a diff that are summarized, in order.
pub open spec fn chunks(diff: Seq<char>) -> Seq<Seq<char>> {
    Seq::new(chunk_count(diff), |i: int| chunk(diff, i))
}

/// The request for the summary of a chunk.
pub open spec fn prompt(chunk: Seq<char>) -> Seq<char> {
    instruction_text() + chunk
}

/// The summary of a chunk, given what the service answered: its text, or
/// the placeholder where it answered nothing or the empty text.
pub open spec fn summary(content: Option<Seq<char>>) -> Seq<char> {
    match content {
        Some(text) => if text.len() > 0 {
            text
        } else {
            placeholder_text()
        },
        None => placeholder_text(),
    }
}

/// A decimal digit.
pub open spec fn is_digit(c: char) -> bool {
    0x30 <= c as u32 <= 0x39
}

/// Decimal digits only.
pub open spec fn all_digits(s: Seq<char>) -> bool {
    forall|i: int| 0 <= i < s.len() ==> is_digit(#[trigger] s[i])
}

/// A year as the clock writes it: four digits, or a sign and four digits
/// or more.
pub open spec fn is_year(y: Seq<char>) -> bool {
    ||| y.len() == 4 && all_digits(y)
    ||| y.len() >= 5 && (y[0] == '+' || y[0] == '-') && all_digits(y.skip(1))
}

/// What follows the year: `-MM-DD HH:MM:SS`, each letter a digit.
pub open spec fn is_clock(t: Seq<char>) -> bool {
    &&& t.len() == 15
    &&& t[0] == '-'
    &&& is_digit(t[1])
    &&& is_digit(t[2])
    &&& t[3] == '-'
    &&& is_digit(t[4])
    &&& is_digit(t[5])
    &&& t[6] == ' '
    &&& is_digit(t[7])
    &&& is_digit(t[8])
    &&& t[9] == ':'
    &&& is_digit(t[10])
    &&& is_digit(t[11])
    &&& t[12] == ':'
    &&& is_digit(t[13])
    &&& is_digit(t[14])
}

/// A time as the clock writes it: a year, then `-MM-DD HH:MM:SS`. With a
/// year from 0 to 9999 this is `YYYY-MM-DD HH:MM:SS`.
pub open spec fn is_timestamp(s: Seq<char>) -> bool {
    &&& s.len() >= 19
    &&& is_year(s.take(s.len() - 15))
    &&& is_clock(s.skip(s.len() - 15))
}

/// A time with a year from 0 to 9999: `YYYY-MM-DD HH:MM:SS`, each letter a
/// digit.
pub open spec fn is_plain_timestamp(s: Seq<char>) -> bool {
    &&& s.len() == 19
    &&& is_digit(s[0])
    &&& is_digit(s[1])
    &&& is_digit(s[2])
    &&& is_digit(s[3])
    &&& s[4] == '-'
    &&& is_digit(s[5])
    &&& is_digit(s[6])
    &&& s[7] == '-'
    &&& is_digit(s[8])
    &&& is_digit(s[9])
    &&& s[10] == ' '
    &&& is_digit(s[11])
    &&& is_digit(s[12])
    &&& s[13] == ':'
    &&& is_digit(s[14])
    &&& is_digit(s[15])
    &&& s[16] == ':'
    &&& is_digit(s[17])
    &&& is_digit(s[18])
}

/// The state of a synthesis, as a mathematical value: the chunks to
/// summarize, how many of them have been answered, and the summaries so
/// far. Without a credential there is no chunk, and the message is there
/// from the start.
pub struct Synthesis {
    pub chunks: Seq<Seq<char>>,
    pub answered: nat,
    pub message: Seq<char>,
}

/// What a synthesis needs next, as a mathematical value.
pub enum Need {
    /// This request is to be sent to the service.
    Ask(Seq<char>),
    /// Nothing: this is the commit message.
    Done(Seq<char>),
}

impl Synthesis {
    /// No more chunks than the cap, and no more answers than chunks.
    pub open spec fn well_formed(self) -> bool {
        self.answered <= self.chunks.len() <= MAX_CHUNKS
    }

    /// The synthesis for a diff before any request. `now` is the local
    /// time, which is the message where no credential is configured.
    pub open spec fn begin(has_credential: bool, diff: Seq<char>, now: Seq<char>) -> Synthesis {
        if has_credential {
            Synthesis { chunks: chunks(diff), answered: 0, message: Seq::empty() }
        } else {
            Synthesis { chunks: Seq::empty(), answered: 0, message: now }
        }
    }

    /// The request to send next, if one is left.
    pub open spec fn pending(self) -> Option<Seq<char>> {
        if self.answered < self.chunks.len() {
            Some(prompt(self.chunks[self.answered as int]))
        } else {
            None
        }
    }

    /// The synthesis after the service answered the pending request. An
    /// answer that no request is pending for changes nothing.
    pub open spec fn accept(self, content: Option<Seq<char>>) -> Synthesis {
        if self.answered < self.chunks.len() {
            Synthesis {
                chunks: self.chunks,
                answered: self.answered + 1,
                message: self.message + summary(content),
            }
        } else {
            self
        }
    }

    /// The commit message so far; the placeholder where it would be empty.
    pub open spec fn result(self) -> Seq<char> {
        if self.message.len() > 0 {
            self.message
        } else {
            placeholder_text()
        }
    }

    /// What the synthesis needs next.
    pub open spec fn need(self) -> Need {
        match self.pending() {
            Some(request) => Need::Ask(request),
            None => Need::Done(self.result()),
        }
    }

    /// The synthesis after the given answers, in order.
    pub open spec fn after(self, answers: Seq<Option<Seq<char>>>) -> Synthesis
        decreases answers.len(),
    {
        if answers.len() == 0 {
            self
        } else {
            self.after(answers.drop_last()).accept(answers.last())
        }
    }
}

/// The part of a diff that is summarized: its first
/// `MAX_CHUNKS * CHUNK_SIZE` characters.
pub open spec fn bounded_diff(diff: Seq<char>) -> Seq<char> {
    if diff.len() > MAX_CHUNKS * CHUNK_SIZE {
        diff.take(MAX_CHUNKS * CHUNK_SIZE)
    } else {
        diff
    }
}

/// A commit message in the making.
#[derive(Debug, PartialEq, Eq)]
pub struct Synthesizer {
    chunks: Vec<String>,
    answered: usize,
    message: String,
}

impl View for Synthesizer {
    type V = Synthesis;

    closed spec fn view(&self) -> Synthesis {
        Synthesis {
            chunks: self.chunks.deep_view(),
            answered: self.answered as nat,
            message: self.message@,
        }
    }
}

/// What a synthesizer needs next.
#[derive(Clone, Debug, PartialEq, Eq)]
pub enum Progress {
    /// This request is to be sent to the service.
    Ask(String),
    /// Nothing: this is the commit message.
    Done(String),
}

impl View for Progress {
    type V = Need;

    open spec fn view(&self) -> Need {
        match *self {
            Progress::Ask(request) => Need::Ask(request@),
            Progress::Done(message) => Need::Done(message@),
        }
    }
}

/// The mathematical value of an answer that may be missing.
pub open spec fn content_view(content: Option<String>) -> Option<Seq<char>> {
    match content {
        Some(text) => Some(text@),
        None => None,
    }
}

/// The instruction that precedes each chunk in a request.
pub fn instruction() -> (text: &'static str)
    ensures
        text@ == instruction_text(),
{
    "You are CommitBot, an assistant tasked with writing helpful commit messages based on code changes.\n      You will be given a set of patches of code changes, and you must write a short commit message describing the changes. Do not be verbose. \n      Your response must include only high level logical changes if the diff is large, otherwise you may include specific changes.\n      Try to fit your response in one line.\n      \n\n"
}

/// What stands for the summary of a chunk where the service gave none.
pub fn placeholder() -> (text: &'static str)
    ensures
        text@ == placeholder_text(),
{
    "Could not generate commit message"
}

/// `chrono::Local::now()`, written by `format("%Y-%m-%d %H:%M:%S")`: the
/// local time of the machine. The contract states the shape that the
/// format gives every time: a year of four digits, or with a sign before
/// year 0 and after year 9999, then month, day, hour, minute and second of
/// two digits each between their separators. The call panics where the
/// machine's clock stands before 1970 or beyond the years that chrono can
/// hold.
#[verifier::external_body]
pub(crate) fn local_timestamp() -> (text: String)
    ensures
        is_timestamp(text@),
{
    chrono::Local::now().format("%Y-%m-%d %H:%M:%S").to_string()
}

/// Cuts a diff into the chunks that are summarized.
pub fn split_chunks(diff: &str) -> (out: Vec<String>)
    ensures
        out.deep_view() == chunks(diff@),
{
    let n = diff.unicode_len();
    let mut out: Vec<String> = Vec::new();
    let mut start: usize = 0;
    while start < n && out.len() < MAX_CHUNKS
        invariant
            n == diff@.len(),
            out.len() <= chunk_count(diff@),
            start <= n,
            start == if out.len() * CHUNK_SIZE > n {
                n as int
            } else {
                out.len() * CHUNK_SIZE
            },
            out.deep_view() == chunks(diff@).take(out.len() as int),
        decreases n - start,
    {
        let ghost k = out.len() as int;
        let ghost before = out.deep_view();
        let end = if n - start > CHUNK_SIZE {
            start + CHUNK_SIZE
        } else {
            n
        };
        let piece = diff.substring_char(start, end);
        assert(piece@ == chunk(diff@, k));
        out.push(String::from_str(piece));
        assert(out.deep_view() == before.push(chunks(diff@)[k]));
        start = end;
    }
    assert(out.len() == chunk_count(diff@));
    assert(chunks(diff@).take(out.len() as int) == chunks(diff@));
    out
}

impl Synthesizer {
    /// No more chunks than the cap, and no more answers than chunks.
    #[verifier::type_invariant]
    spec fn within_cap(self) -> bool {
        self.answered <= self.chunks.len() <= MAX_CHUNKS
    }

    /// Begins the synthesis for a diff. `now` is used as the message
    /// where no credential is configured.
    pub fn begin(has_credential: bool, diff: &str, now: &str) -> (s: Synthesizer)
        ensures
            s@ == Synthesis::begin(has_credential, diff@, now@),
            s@.well_formed(),
    {
        if has_credential {
            let chunks = split_chunks(diff);
            assert(chunks.len() == chunks.deep_view().len());
            Synthesizer { chunks, answered: 0, message: String::new() }
        } else {
            let s = Synthesizer {
                chunks: Vec::new(),
                answered: 0,
                message: String::from_str(now),
            };
            assert(s@.chunks == Seq::<Seq<char>>::empty());
            s
        }
    }

    /// Begins the synthesis for a diff. Where no credential is configured
    /// the message is the local time, read from the machine's clock now.
    pub fn start(has_credential: bool, diff: &str) -> (s: Synthesizer)
        ensures
            s@.well_formed(),
            has_credential ==> s@ == Synthesis::begin(true, diff@, Seq::empty()),
            !has_credential ==> is_timestamp(s@.message) && s@ == Synthesis::begin(
                false,
                diff@,
                s@.message,
            ),
    {
        if has_credential {
            Synthesizer::begin(true, diff, "")
        } else {
            let now = local_timestamp();
            Synthesizer::begin(false, diff, now.as_str())
        }
    }

    /// What the synthesis needs next: a request to be answered, or
    /// nothing, and then the message is there.
    pub fn progress(&self) -> (p: Progress)
        ensures
            p@ == self@.need(),
            self@.well_formed(),
    {
        proof {
            use_type_invariant(self);
        }
        if self.answered < self.chunks.len() {
            let mut request = String::from_str(instruction());
            request.append(self.chunks[self.answered].as_str());
            assert(self.chunks[self.answered as int]@ == self@.chunks[self.answered as int]);
            Progress::Ask(request)
        } else if self.message.as_str().unicode_len() > 0 {
            Progress::Done(self.message.clone())
        } else {
            Progress::Done(String::from_str(placeholder()))
        }
    }

    /// Takes the service's answer to the pending request: the summary, or
    /// nothing.
    pub fn accept(self, content: Option<String>) -> (next: Synthesizer)
        ensures
            next@ == self@.accept(content_view(content)),
            next@.well_formed(),
    {
        proof {
            use_type_invariant(&self);
        }
        if self.answered < self.chunks.len() {
            let mut message = self.message;
            match content {
                Some(text) => {
                    if text.as_str().unicode_len() > 0 {
                        message.append(text.as_str());
                    } else {
                        message.append(placeholder());
                    }
                },
                None => {
                    message.append(placeholder());
                },
            }
            Synthesizer { chunks: self.chunks, answered: self.answered + 1, message }
        } else {
            self
        }
    }
}

/// A time of nineteen characters is a time with a year of four digits,
/// and the other way round.
pub proof fn lemma_plain_timestamp(s: Seq<char>)
    ensures
        is_plain_timestamp(s) <==> is_timestamp(s) && s.len() == 19,
{
    if s.len() == 19 {
        let y = s.take(4);
        let t = s.skip(4);
        assert(y.len() == 4 && t.len() == 15);
        assert(y[0] == s[0] && y[1] == s[1] && y[2] == s[2] && y[3] == s[3]);
        assert(t[0] == s[4] && t[1] == s[5] && t[2] == s[6] && t[3] == s[7] && t[4] == s[8]);
        assert(t[5] == s[9] && t[6] == s[10] && t[7] == s[11] && t[8] == s[12] && t[9] == s[13]);
        assert(t[10] == s[14] && t[11] == s[15] && t[12] == s[16] && t[13] == s[17] && t[14]
            == s[18]);
        if is_plain_timestamp(s) {
            assert(all_digits(y)) by {
                assert forall|i: int| 0 <= i < y.len() implies is_digit(#[trigger] y[i]) by {
                    assert(i == 0 || i == 1 || i == 2 || i == 3);
                }
            }
        }
        if is_timestamp(s) {
            assert(all_digits(y));
            assert(is_digit(y[0]) && is_digit(y[1]) && is_digit(y[2]) && is_digit(y[3]));
        }
    }
}

/// No more chunks than the cap are summarized, none of them is empty or
/// longer than a chunk may be, and what follows them in the diff has no
/// part in them: the chunks of a diff are the chunks of its first
/// `MAX_CHUNKS * CHUNK_SIZE` characters.
pub proof fn lemma_chunks_capped(diff: Seq<char>)
    ensures
        chunks(diff).len() <= MAX_CHUNKS,
        forall|i: int|
            0 <= i < chunks(diff).len() ==> 0 < (#[trigger] chunks(diff)[i]).len() <= CHUNK_SIZE,
        chunks(diff) == chunks(bounded_diff(diff)),
{
    let head = bounded_diff(diff);
    assert(chunk_count(head) == chunk_count(diff));
    assert forall|i: int| 0 <= i < chunk_count(diff) implies chunk(diff, i) == chunk(head, i) by {
        assert(chunk(diff, i) =~= chunk(head, i));
    }
    assert(chunks(diff) =~= chunks(head));
}

/// What lies beyond the cap never reaches a request or the message: a
/// synthesis begins for a diff as it begins for the part within the cap.
pub proof fn lemma_beyond_cap_unseen(has_credential: bool, diff: Seq<char>, now: Seq<char>)
    ensures
        Synthesis::begin(has_credential, diff, now) == Synthesis::begin(
            has_credential,
            bounded_diff(diff),
            now,
        ),
        Synthesis::begin(has_credential, diff, now).well_formed(),
{
    lemma_chunks_capped(diff);
}

/// Without a credential nothing is asked of the service, and the message
/// is the local time.
pub proof fn lemma_fallback_asks_nothing(diff: Seq<char>, now: Seq<char>)
    requires
        is_timestamp(now),
    ensures
        Synthesis::begin(false, diff, now).need() == Need::Done(now),
        forall|answers: Seq<Option<Seq<char>>>|
            (#[trigger] Synthesis::begin(false, diff, now).after(answers)).need() == Need::Done(
                now,
            ),
{
    let s = Synthesis::begin(false, diff, now);
    assert forall|answers: Seq<Option<Seq<char>>>| (#[trigger] s.after(answers)).need()
        == Need::Done(now) by {
        lemma_answers_without_requests(s, answers);
    }
}

/// Answers change nothing once every chunk is answered.
pub proof fn lemma_answers_without_requests(s: Synthesis, answers: Seq<Option<Seq<char>>>)
    requires
        s.pending() is None,
    ensures
        s.after(answers) == s,
    decreases answers.len(),
{
    if answers.len() > 0 {
        lemma_answers_without_requests(s, answers.drop_last());
    }
}

/// The commit message is never empty.
pub proof fn lemma_message_never_empty(s: Synthesis)
    ensures
        s.result().len() > 0,
{
    reveal_strlit("Could not generate commit message");
}

/// Every summary has some text.
pub proof fn lemma_summary_never_empty(content: Option<Seq<char>>)
    ensures
        summary(content).len() > 0,
{
    reveal_strlit("Could not generate commit message");
}

/// A diff that is not empty and no longer than a chunk is one chunk.
pub proof fn lemma_short_diff_is_one_chunk(diff: Seq<char>)
    requires
        0 < diff.len() <= CHUNK_SIZE,
    ensures
        chunks(diff) == seq![diff],
{
    assert(chunk_count(diff) == 1);
    assert(chunk(diff, 0) == diff);
}

} // verus!
