//! One recurring job of the scheduler's table: its five cadence fields, the
//! command to run and the command's arguments.

use crate::error::ParseError;
use crate::text::{
    decimal, is_word, join, joined, lemma_joined_concat, lemma_tokens_are_words,
    lemma_tokens_of_joined, normalized, split_whitespace, to_decimal, tokens,
};
use vstd::prelude::*;
use vstd::string::*;

verus! {

/// A line of the scheduler's table.
#[derive(Clone, Debug, PartialEq, Eq)]
pub struct CronLine {
    /// Minute, hour, day of month, month and day of week.
    pub frequency: [String; 5],
    /// The executable to run.
    pub command: String,
    /// The arguments of the command. By convention the first names a
    /// subcommand and the second is the path of the repository.
    pub args: Vec<String>,
}

/// The mathematical value of a [`CronLine`].
pub struct ScheduleEntry {
    pub cadence: Seq<Seq<char>>,
    pub command: Seq<char>,
    pub args: Seq<Seq<char>>,
}

impl View for CronLine {
    type V = ScheduleEntry;

    open spec fn view(&self) -> ScheduleEntry {
        ScheduleEntry {
            cadence: self.frequency.deep_view(),
            command: self.command@,
            args: self.args.deep_view(),
        }
    }
}

impl DeepView for CronLine {
    type V = ScheduleEntry;

    open spec fn deep_view(&self) -> ScheduleEntry {
        self@
    }
}

impl ScheduleEntry {
    /// All fields in the order in which a line holds them.
    pub open spec fn fields(self) -> Seq<Seq<char>> {
        self.cadence + seq![self.command] + self.args
    }

    /// Five non-empty cadence fields, a non-empty command and at least one
    /// argument.
    pub open spec fn well_formed(self) -> bool {
        &&& self.cadence.len() == 5
        &&& forall|i: int| 0 <= i < 5 ==> (#[trigger] self.cadence[i]).len() > 0
        &&& self.command.len() > 0
        &&& self.args.len() > 0
    }

    /// Well formed, and every field is a token: non-empty and free of
    /// separator characters. Such an entry survives being written and read.
    pub open spec fn clean(self) -> bool {
        &&& self.cadence.len() == 5
        &&& self.args.len() > 0
        &&& forall|i: int| 0 <= i < self.fields().len() ==> is_word(#[trigger] self.fields()[i])
    }

    /// The line that states this entry: cadence, command and arguments,
    /// with single spaces between them.
    pub open spec fn serialize(self) -> Seq<char> {
        joined(self.cadence, seq![' ']) + seq![' '] + self.command + seq![' '] + joined(
            self.args,
            seq![' '],
        )
    }

    /// The identity key: the repository path, which is the second argument.
    /// An entry with fewer than two arguments has none.
    pub open spec fn key(self) -> Option<Seq<char>> {
        if self.args.len() > 1 {
            Some(self.args[1])
        } else {
            None
        }
    }
}

/// The entry that registers `path` to be committed every `frequency`
/// minutes by `command`, which appends what it prints to a log in the
/// repository.
pub open spec fn entry_for(path: Seq<char>, frequency: u32, command: Seq<char>) -> ScheduleEntry {
    ScheduleEntry {
        cadence: seq!["*/"@ + decimal(frequency as nat), "*"@, "*"@, "*"@, "*"@],
        command,
        args: seq!["run"@, path, ">>"@, path + "/.autocommit_log"@, "2>&1"@],
    }
}

/// The entry that a list of tokens states, or why it states none.
pub open spec fn entry_of(ts: Seq<Seq<char>>) -> Result<ScheduleEntry, ParseError> {
    if ts.len() < 5 {
        Err(ParseError::MissingCadence)
    } else if ts.len() == 5 {
        Err(ParseError::MissingCommand)
    } else if ts.len() == 6 {
        Err(ParseError::MissingArguments)
    } else {
        Ok(ScheduleEntry { cadence: ts.take(5), command: ts[5], args: ts.skip(6) })
    }
}

/// The entry that a line states, or why it states none.
pub open spec fn parsed(line: Seq<char>) -> Result<ScheduleEntry, ParseError> {
    entry_of(tokens(line))
}

impl CronLine {
    /// An entry with the given fields.
    pub fn new(frequency: [String; 5], command: String, args: Vec<String>) -> (entry: Self)
        ensures
            entry.frequency == frequency,
            entry.command == command,
            entry.args == args,
    {
        Self { frequency, command, args }
    }

    /// Reads an entry from a line: the first five tokens are the cadence,
    /// the sixth is the command and the rest are the arguments.
    pub fn parse(line: &str) -> (r: Result<CronLine, ParseError>)
        ensures
            match r {
                Ok(entry) => parsed(line@) == Ok::<ScheduleEntry, ParseError>(entry@)
                    && entry@.well_formed() && entry@.clean(),
                Err(e) => parsed(line@) == Err::<ScheduleEntry, ParseError>(e),
            },
    {
        let toks = split_whitespace(line);
        let n = toks.len();
        if n < 5 {
            return Err(ParseError::MissingCadence);
        }
        if n == 5 {
            return Err(ParseError::MissingCommand);
        }
        if n == 6 {
            return Err(ParseError::MissingArguments);
        }
        let frequency = [
            toks[0].clone(),
            toks[1].clone(),
            toks[2].clone(),
            toks[3].clone(),
            toks[4].clone(),
        ];
        let command = toks[5].clone();
        let mut args: Vec<String> = Vec::new();
        let mut i: usize = 6;
        while i < n
            invariant
                6 <= i <= n,
                n == toks.len(),
                args.deep_view() == toks.deep_view().subrange(6, i as int),
            decreases n - i,
        {
            let ghost before = args.deep_view();
            args.push(toks[i].clone());
            assert(args.deep_view() == before.push(toks[i as int]@));
            i += 1;
        }
        let entry = CronLine { frequency, command, args };
        proof {
            let ts = tokens(line@);
            assert(entry@.cadence == ts.take(5));
            assert(entry@.args == ts.skip(6));
            lemma_parsed_entry(line@);
        }
        Ok(entry)
    }

    /// Writes the entry as a line of the table.
    pub fn to_string(&self) -> (line: String)
        ensures
            line@ == self@.serialize(),
    {
        proof {
            reveal_strlit(" ");
            assert(" "@ == seq![' ']);
        }
        let mut line = join(self.frequency.as_slice(), " ");
        line.append(" ");
        line.append(self.command.as_str());
        line.append(" ");
        let args = join(self.args.as_slice(), " ");
        line.append(args.as_str());
        line
    }

    /// The entry that registers `path` to be committed every `frequency`
    /// minutes by `command`.
    pub fn scheduled(path: &str, frequency: u32, command: &str) -> (entry: CronLine)
        ensures
            entry@ == entry_for(path@, frequency, command@),
    {
        let mut every = String::from_str("*/");
        let minutes = to_decimal(frequency);
        every.append(minutes.as_str());
        let cadence = [
            every,
            String::from_str("*"),
            String::from_str("*"),
            String::from_str("*"),
            String::from_str("*"),
        ];
        let mut log = String::from_str(path);
        log.append("/.autocommit_log");
        let mut args: Vec<String> = Vec::new();
        args.push(String::from_str("run"));
        args.push(String::from_str(path));
        args.push(String::from_str(">>"));
        args.push(log);
        args.push(String::from_str("2>&1"));
        let entry = CronLine { frequency: cadence, command: String::from_str(command), args };
        proof {
            assert(entry@.cadence == entry_for(path@, frequency, command@).cadence);
            assert(entry@.args == entry_for(path@, frequency, command@).args);
        }
        entry
    }

    /// A copy of the entry.
    pub fn duplicate(&self) -> (copy: CronLine)
        ensures
            copy@ == self@,
    {
        let frequency = [
            self.frequency[0].clone(),
            self.frequency[1].clone(),
            self.frequency[2].clone(),
            self.frequency[3].clone(),
            self.frequency[4].clone(),
        ];
        let mut args: Vec<String> = Vec::new();
        let mut i: usize = 0;
        while i < self.args.len()
            invariant
                i <= self.args.len(),
                args.deep_view() == self.args.deep_view().take(i as int),
            decreases self.args.len() - i,
        {
            let ghost before = args.deep_view();
            args.push(self.args[i].clone());
            assert(args.deep_view() == before.push(self.args[i as int]@));
            i += 1;
        }
        assert(self.args.deep_view().take(i as int) == self.args.deep_view());
        let copy = CronLine { frequency, command: self.command.clone(), args };
        assert(copy@.cadence == self@.cadence);
        copy
    }

    /// Whether the entry has five non-empty cadence fields, a non-empty
    /// command and at least one argument.
    pub fn is_well_formed(&self) -> (r: bool)
        ensures
            r == self@.well_formed(),
    {
        let mut i: usize = 0;
        while i < 5
            invariant
                i <= 5,
                forall|k: int| 0 <= k < i ==> (#[trigger] self@.cadence[k]).len() > 0,
            decreases 5 - i,
        {
            assert(self@.cadence[i as int] == self.frequency[i as int]@);
            if self.frequency[i].as_str().unicode_len() == 0 {
                return false;
            }
            i += 1;
        }
        self.command.as_str().unicode_len() > 0 && self.args.len() > 0
    }

    /// The repository path that identifies the entry, if it has one.
    pub fn key(&self) -> (k: Option<&String>)
        ensures
            match k {
                Some(path) => self@.key() == Some(path@),
                None => self@.key().is_none(),
            },
    {
        if self.args.len() > 1 {
            Some(&self.args[1])
        } else {
            None
        }
    }
}

/// The line of an entry is its fields joined by single spaces.
pub proof fn lemma_serialize_joins_fields(e: ScheduleEntry)
    requires
        e.cadence.len() > 0,
        e.args.len() > 0,
    ensures
        e.serialize() == joined(e.fields(), seq![' ']),
{
    let sp = seq![' '];
    let head = e.cadence + seq![e.command];
    lemma_joined_concat(e.cadence, seq![e.command], sp);
    lemma_joined_concat(head, e.args, sp);
    assert(joined(seq![e.command], sp) == e.command);
}

/// What reading makes of a line: where a line states an entry, the entry
/// is well formed and clean, and its fields are the tokens of the line.
pub proof fn lemma_parsed_entry(line: Seq<char>)
    requires
        parsed(line) is Ok,
    ensures
        parsed(line)->Ok_0.fields() == tokens(line),
        parsed(line)->Ok_0.clean(),
        parsed(line)->Ok_0.well_formed(),
{
    let ts = tokens(line);
    let e = parsed(line)->Ok_0;
    lemma_tokens_are_words(line);
    assert(e.fields() == ts);
    assert forall|i: int| 0 <= i < 5 implies (#[trigger] e.cadence[i]).len() > 0 by {
        assert(e.cadence[i] == ts[i]);
    }
    assert(e.command == ts[5]);
}

/// Writing then reading gives the entry back: the line of a clean entry
/// states that entry.
pub proof fn lemma_serialize_then_parse(e: ScheduleEntry)
    requires
        e.clean(),
    ensures
        parsed(e.serialize()) == Ok::<ScheduleEntry, ParseError>(e),
{
    let fs = e.fields();
    lemma_serialize_joins_fields(e);
    lemma_tokens_of_joined(fs);
    assert(fs.take(5) == e.cadence);
    assert(fs[5] == e.command);
    assert(fs.skip(6) == e.args);
}

/// Round trip: reading a line and writing the entry gives the line with
/// its spacing normalized, and that line states the same entry.
pub proof fn lemma_round_trip(line: Seq<char>)
    requires
        parsed(line) is Ok,
    ensures
        parsed(line)->Ok_0.serialize() == normalized(line),
        parsed(normalized(line)) == parsed(line),
{
    let e = parsed(line)->Ok_0;
    lemma_parsed_entry(line);
    lemma_serialize_joins_fields(e);
    lemma_serialize_then_parse(e);
}

/// Round trip of a line in normal form: seven words or more with single
/// spaces between them state an entry, and writing that entry gives the
/// line itself.
pub proof fn lemma_round_trip_exact(parts: Seq<Seq<char>>)
    requires
        parts.len() >= 7,
        forall|i: int| 0 <= i < parts.len() ==> is_word(#[trigger] parts[i]),
    ensures
        parsed(joined(parts, seq![' '])) is Ok,
        parsed(joined(parts, seq![' ']))->Ok_0.serialize() == joined(parts, seq![' ']),
{
    let line = joined(parts, seq![' ']);
    lemma_tokens_of_joined(parts);
    lemma_round_trip(line);
}

} // verus!
