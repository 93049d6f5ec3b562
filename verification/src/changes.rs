//! What is uncommitted in a working tree: whether anything differs from the
//! last commit, and the text of the difference, cut to a fixed length.
//!
//! The version-control collaborator reads the working tree; this module
//! decides on what it read. Lengths are counted in characters.

use crate::error::{Error, Failure};
use crate::text::{join, joined};
use vstd::prelude::*;
use vstd::string::*;

verus! {

/// The greatest length of a diff text, in characters.
pub const DIFF_LIMIT: usize = 1000;

/// `text`, cut after `limit` characters where it is longer.
pub open spec fn bounded(text: Seq<char>, limit: nat) -> Seq<char> {
    if text.len() > limit {
        text.take(limit as int)
    } else {
        text
    }
}

/// Whether some path's status flags say that it differs from the last
/// commit: flags without any bit set stand for an unchanged path.
pub open spec fn changed(statuses: Seq<u32>) -> bool {
    exists|i: int| 0 <= i < statuses.len() && #[trigger] statuses[i] != 0
}

/// The text that `String::from_utf8_lossy` makes of a sequence of bytes.
pub uninterp spec fn utf8_lossy(bytes: Seq<u8>) -> Seq<char>;

/// The texts of the lines of a diff, each decoded by itself.
pub open spec fn decoded(lines: Seq<Seq<u8>>) -> Seq<Seq<char>> {
    Seq::new(lines.len(), |i: int| utf8_lossy(lines[i]))
}

/// The counts that summarize a diff.
#[derive(Clone, Copy, Debug, PartialEq, Eq, Structural)]
pub struct DiffStats {
    pub files_changed: usize,
    pub insertions: usize,
    pub deletions: usize,
}

/// The diff text of a diff with the given counts and fragments: nothing
/// where the counts are all zero, else the fragments one after the other,
/// cut to the limit.
pub open spec fn diff_text_of(stats: DiffStats, fragments: Seq<Seq<char>>) -> Seq<char> {
    if stats.is_zero() {
        Seq::empty()
    } else {
        bounded(joined(fragments, Seq::empty()), DIFF_LIMIT as nat)
    }
}

/// The mathematical value of a [`ChangeSet`].
pub struct Changes {
    pub has_changes: bool,
    pub diff_text: Seq<char>,
}

impl Changes {
    /// The diff text is within the limit, and empty where nothing changed.
    pub open spec fn well_formed(self) -> bool {
        &&& self.diff_text.len() <= DIFF_LIMIT
        &&& !self.has_changes ==> self.diff_text.len() == 0
    }
}

/// What was detected in a working tree.
#[derive(Clone, Debug, PartialEq, Eq)]
pub struct ChangeSet {
    has_changes: bool,
    diff_text: String,
}

impl View for ChangeSet {
    type V = Changes;

    closed spec fn view(&self) -> Changes {
        Changes { has_changes: self.has_changes, diff_text: self.diff_text@ }
    }
}

/// What detection comes to, given what the collaborator read.
pub open spec fn detected(
    is_working_tree: bool,
    statuses: Seq<u32>,
    stats: DiffStats,
    fragments: Seq<Seq<char>>,
) -> Result<Changes, Failure> {
    if !is_working_tree {
        Err(Failure::NotAWorkingTree)
    } else if !changed(statuses) {
        Ok(Changes { has_changes: false, diff_text: Seq::empty() })
    } else {
        Ok(Changes { has_changes: true, diff_text: diff_text_of(stats, fragments) })
    }
}

impl DiffStats {
    /// No file changed, nothing inserted and nothing deleted.
    pub open spec fn is_zero(self) -> bool {
        self.files_changed + self.insertions + self.deletions == 0
    }

    /// Whether the diff changes no file, inserts nothing and deletes
    /// nothing.
    pub fn is_empty(&self) -> (r: bool)
        ensures
            r == self.is_zero(),
    {
        self.files_changed == 0 && self.insertions == 0 && self.deletions == 0
    }
}

/// `String::from_utf8_lossy` of std: the text of `bytes`, in which every
/// invalid sequence is replaced. The contract names the result; it says
/// nothing of what the text holds.
#[verifier::external_body]
fn decode_lossy(bytes: &[u8]) -> (text: String)
    ensures
        text@ == utf8_lossy(bytes@),
{
    String::from_utf8_lossy(bytes).into_owned()
}

/// `text`, cut after `limit` characters where it is longer.
pub fn truncate(text: &str, limit: usize) -> (r: String)
    ensures
        r@ == bounded(text@, limit as nat),
        r@.len() <= limit,
        text@.len() > limit ==> r@.len() == limit,
{
    let n = text.unicode_len();
    if n > limit {
        let head = text.substring_char(0, limit);
        String::from_str(head)
    } else {
        String::from_str(text)
    }
}

/// Whether the status flags of some path say that it differs from the
/// last commit.
pub fn any_changed(statuses: &[u32]) -> (r: bool)
    ensures
        r == changed(statuses@),
{
    let mut i: usize = 0;
    while i < statuses.len()
        invariant
            i <= statuses.len(),
            forall|k: int| 0 <= k < i ==> statuses@[k] == 0,
        decreases statuses.len() - i,
    {
        if statuses[i] != 0 {
            return true;
        }
        i += 1;
    }
    false
}

/// Decodes the lines of a diff, each by itself.
pub fn decode_lines(lines: &Vec<Vec<u8>>) -> (texts: Vec<String>)
    ensures
        texts.deep_view() == decoded(lines.deep_view()),
{
    let mut texts: Vec<String> = Vec::new();
    let mut i: usize = 0;
    while i < lines.len()
        invariant
            i <= lines.len(),
            texts.deep_view() == decoded(lines.deep_view()).take(i as int),
        decreases lines.len() - i,
    {
        let ghost before = texts.deep_view();
        let text = decode_lossy(lines[i].as_slice());
        assert(lines[i as int]@ == lines.deep_view()[i as int]);
        texts.push(text);
        assert(texts.deep_view() == before.push(decoded(lines.deep_view())[i as int]));
        i += 1;
    }
    assert(decoded(lines.deep_view()).take(i as int) == decoded(lines.deep_view()));
    texts
}

impl ChangeSet {
    /// Nothing differs from the last commit.
    pub fn unchanged() -> (set: ChangeSet)
        ensures
            set@ == (Changes { has_changes: false, diff_text: Seq::empty() }),
            set@.well_formed(),
    {
        ChangeSet { has_changes: false, diff_text: String::new() }
    }

    /// Something differs from the last commit, and the diff has the given
    /// counts and decoded fragments.
    pub fn from_fragments(stats: DiffStats, fragments: &[String]) -> (set: ChangeSet)
        ensures
            set@ == (Changes {
                has_changes: true,
                diff_text: diff_text_of(stats, fragments.deep_view()),
            }),
            set@.well_formed(),
    {
        if stats.is_empty() {
            ChangeSet { has_changes: true, diff_text: String::new() }
        } else {
            let whole = join(fragments, "");
            proof {
                reveal_strlit("");
                assert(""@ == Seq::<char>::empty());
            }
            ChangeSet { has_changes: true, diff_text: truncate(whole.as_str(), DIFF_LIMIT) }
        }
    }

    /// Something differs from the last commit, and the diff has the given
    /// counts and lines.
    pub fn from_diff(stats: DiffStats, lines: &Vec<Vec<u8>>) -> (set: ChangeSet)
        ensures
            set@ == (Changes {
                has_changes: true,
                diff_text: diff_text_of(stats, decoded(lines.deep_view())),
            }),
            set@.well_formed(),
    {
        let texts = decode_lines(lines);
        ChangeSet::from_fragments(stats, texts.as_slice())
    }

    /// Whether anything differs from the last commit.
    pub fn has_changes(&self) -> (r: bool)
        ensures
            r == self@.has_changes,
    {
        self.has_changes
    }

    /// The text of the difference.
    pub fn diff_text(&self) -> (text: &String)
        ensures
            text@ == self@.diff_text,
    {
        &self.diff_text
    }

    /// The text of the difference, by value.
    pub fn into_diff_text(self) -> (text: String)
        ensures
            text@ == self@.diff_text,
    {
        self.diff_text
    }
}

/// Detects the changes of a working tree, given what the collaborator
/// read there: whether the path is the root of a working tree, the status
/// flags of its paths, and the counts and lines of the diff between the
/// last commit and the working tree.
pub fn detect(is_working_tree: bool, statuses: &[u32], stats: DiffStats, lines: &Vec<Vec<u8>>) -> (r:
    Result<ChangeSet, Error>)
    ensures
        match r {
            Ok(set) => detected(
                is_working_tree,
                statuses@,
                stats,
                decoded(lines.deep_view()),
            ) == Ok::<Changes, Failure>(set@) && set@.well_formed(),
            Err(e) => detected(is_working_tree, statuses@, stats, decoded(lines.deep_view()))
                == Err::<Changes, Failure>(e@),
        },
{
    if !is_working_tree {
        return Err(Error::NotAWorkingTree);
    }
    if !any_changed(statuses) {
        return Ok(ChangeSet::unchanged());
    }
    Ok(ChangeSet::from_diff(stats, lines))
}

/// Cutting never gives more than the limit, gives exactly the limit where
/// the text is longer, and gives the text itself where it is not.
pub proof fn lemma_bounded(text: Seq<char>, limit: nat)
    ensures
        bounded(text, limit).len() <= limit,
        text.len() > limit ==> bounded(text, limit).len() == limit,
        text.len() <= limit ==> bounded(text, limit) == text,
        bounded(text, limit) == text.take(bounded(text, limit).len() as int),
{
    if text.len() <= limit {
        assert(text.take(text.len() as int) == text);
    }
}

} // verus!
