//! The jobs of this tool in the scheduler's table: reading them out of the
//! table's text, adding and removing one by its repository path, and
//! writing the text of the new table.
//!
//! The table that is written holds the credential line and this tool's
//! entries only. Lines of the old table that are not this tool's are not
//! carried over: installing the written table removes them.
//!
//! The table knows no quoting. An entry is read back as it was written
//! only where each of its fields is a word; a path with a space in it is
//! registered, and then listed under the part before the space. The
//! credential stands in the same table: where it holds the marker, its
//! line is taken for one of this tool's, and the listing fails on it or
//! reads an entry out of it.

use crate::entry::{
    entry_for, lemma_parsed_entry, lemma_serialize_joins_fields, lemma_serialize_then_parse,
    parsed, CronLine, ScheduleEntry,
};
use crate::error::{Error, Failure, ParseError};
use crate::text::{
    contains, decimal, is_space, is_word, join, joined, lemma_joined_words_one_line,
    lemma_lines_of_joined, lemma_lines_skip_text, lemma_occurs_embedded, lemma_occurs_in_joined,
    lemma_occurs_in_token, lines, lines_from, occurs, occurs_at, one_line, split_lines, strip_cr,
    tokens,
};
use vstd::prelude::*;
use vstd::string::*;

verus! {

/// The text by which a line of the table is recognized as this tool's.
pub open spec fn marker_text() -> Seq<char> {
    "autocommit"@
}

/// Whether a line of the table belongs to this tool.
pub open spec fn is_owned(line: Seq<char>) -> bool {
    occurs(line, marker_text())
}

/// The test for this tool's lines, as a function.
pub open spec fn owned() -> spec_fn(Seq<char>) -> bool {
    |line: Seq<char>| is_owned(line)
}

/// The entries that a list of lines states, in order, or the error of the
/// first line that states none.
pub open spec fn read_all(ls: Seq<Seq<char>>) -> Result<Seq<ScheduleEntry>, ParseError>
    decreases ls.len(),
{
    if ls.len() == 0 {
        Ok(Seq::empty())
    } else {
        match read_all(ls.drop_last()) {
            Err(e) => Err(e),
            Ok(entries) => match parsed(ls.last()) {
                Err(e) => Err(e),
                Ok(entry) => Ok(entries.push(entry)),
            },
        }
    }
}

/// What a table lists: the entries of its lines that belong to this tool.
/// One such line that is malformed makes the whole listing fail.
pub open spec fn listed(table: Seq<char>) -> Result<Seq<ScheduleEntry>, ParseError> {
    read_all(lines(table).filter(owned()))
}

/// The test for the entries of a repository path, as a function.
pub open spec fn keyed(path: Seq<char>) -> spec_fn(ScheduleEntry) -> bool {
    |e: ScheduleEntry| e.key() == Some(path)
}

/// The test for the entries of all other repository paths, as a function.
pub open spec fn not_keyed(path: Seq<char>) -> spec_fn(ScheduleEntry) -> bool {
    |e: ScheduleEntry| e.key() != Some(path)
}

/// Whether some entry is registered for `path`.
pub open spec fn has_path(entries: Seq<ScheduleEntry>, path: Seq<char>) -> bool {
    exists|i: int| 0 <= i < entries.len() && (#[trigger] entries[i]).key() == Some(path)
}

/// How many entries are registered for `path`.
pub open spec fn count_path(entries: Seq<ScheduleEntry>, path: Seq<char>) -> nat {
    entries.filter(keyed(path)).len()
}

/// The registry after `path` was added, or why it cannot be added.
pub open spec fn added(
    entries: Seq<ScheduleEntry>,
    path: Seq<char>,
    is_working_tree: bool,
    frequency: u32,
    command: Seq<char>,
) -> Result<Seq<ScheduleEntry>, Failure> {
    if !is_working_tree {
        Err(Failure::NotAWorkingTree)
    } else if has_path(entries, path) {
        Err(Failure::DuplicateEntry)
    } else {
        Ok(entries.push(entry_for(path, frequency, command)))
    }
}

/// The registry after `path` was removed, or why it cannot be removed.
pub open spec fn removed(entries: Seq<ScheduleEntry>, path: Seq<char>) -> Result<
    Seq<ScheduleEntry>,
    Failure,
> {
    if has_path(entries, path) {
        Ok(entries.filter(not_keyed(path)))
    } else {
        Err(Failure::NotFound)
    }
}

/// The lines of the entries, in order.
pub open spec fn entry_lines(entries: Seq<ScheduleEntry>) -> Seq<Seq<char>> {
    Seq::new(entries.len(), |i: int| entries[i].serialize())
}

/// The text of the table that holds the credential and the entries.
pub open spec fn table_of(credential: Seq<char>, entries: Seq<ScheduleEntry>) -> Seq<char> {
    "OPENAI_API_KEY="@ + credential + "\n\n"@ + joined(entry_lines(entries), "\n"@) + "\n"@
}

/// The table to install, or the failure for want of a credential.
pub open spec fn written(credential: Option<Seq<char>>, entries: Seq<ScheduleEntry>) -> Result<
    Seq<char>,
    Failure,
> {
    match credential {
        None => Err(Failure::MissingCredential),
        Some(c) => Ok(table_of(c, entries)),
    }
}

/// What the scheduler answered when asked for its table, as the listing
/// sees it: the entries, or the failure.
pub open spec fn list_of(dump: Result<Seq<char>, Seq<char>>) -> Result<
    Seq<ScheduleEntry>,
    Failure,
> {
    match dump {
        Err(detail) => Err(Failure::IoFailure(detail)),
        Ok(table) => match listed(table) {
            Err(e) => Err(Failure::Parse(e)),
            Ok(entries) => Ok(entries),
        },
    }
}

/// The table to install so that `path` is registered, or the first failure
/// on the way: of the path, of the listing, of the registration, of the
/// writing.
pub open spec fn created(
    dump: Result<Seq<char>, Seq<char>>,
    path: Seq<char>,
    is_working_tree: bool,
    frequency: u32,
    command: Seq<char>,
    credential: Option<Seq<char>>,
) -> Result<Seq<char>, Failure> {
    if !is_working_tree {
        Err(Failure::NotAWorkingTree)
    } else {
        match list_of(dump) {
            Err(e) => Err(e),
            Ok(entries) => match added(entries, path, is_working_tree, frequency, command) {
                Err(e) => Err(e),
                Ok(next) => written(credential, next),
            },
        }
    }
}

/// The table to install so that `path` is no longer registered, or the
/// first failure on the way.
pub open spec fn deleted(
    dump: Result<Seq<char>, Seq<char>>,
    path: Seq<char>,
    credential: Option<Seq<char>>,
) -> Result<Seq<char>, Failure> {
    match list_of(dump) {
        Err(e) => Err(e),
        Ok(entries) => match removed(entries, path) {
            Err(e) => Err(e),
            Ok(next) => written(credential, next),
        },
    }
}

/// At most one entry is registered for each path.
pub open spec fn unique_paths(entries: Seq<ScheduleEntry>) -> bool {
    forall|i: int, j: int|
        0 <= i < j < entries.len() && (#[trigger] entries[i]).key() is Some ==> entries[i].key()
            != (#[trigger] entries[j]).key()
}

/// The line of the table that holds the credential.
pub open spec fn credential_line(credential: Seq<char>) -> Seq<char> {
    "OPENAI_API_KEY="@ + credential
}

/// A credential that can stand in the table: it holds no line feed, and
/// its line is not taken for one of this tool's.
pub open spec fn plain_credential(credential: Seq<char>) -> bool {
    &&& forall|i: int| 0 <= i < credential.len() ==> #[trigger] credential[i] != '\n'
    &&& !is_owned(credential_line(credential))
}

/// An entry that is read back from the table as it was written: it is
/// clean, and its line holds the marker.
pub open spec fn persistent(entry: ScheduleEntry) -> bool {
    entry.clean() && is_owned(entry.serialize())
}

/// Every entry of the registry is read back as it was written.
pub open spec fn all_persistent(entries: Seq<ScheduleEntry>) -> bool {
    forall|i: int| 0 <= i < entries.len() ==> persistent(#[trigger] entries[i])
}

/// The entries of this tool, in the order of the table.
#[derive(Clone, Debug, PartialEq, Eq)]
pub struct Registry {
    entries: Vec<CronLine>,
}

impl View for Registry {
    type V = Seq<ScheduleEntry>;

    closed spec fn view(&self) -> Seq<ScheduleEntry> {
        self.entries.deep_view()
    }
}

/// The mathematical value of a credential that may be missing.
pub open spec fn credential_view(credential: Option<&str>) -> Option<Seq<char>> {
    match credential {
        None => None,
        Some(c) => Some(c@),
    }
}

/// The mathematical value of the scheduler's answer.
pub open spec fn dump_view(dump: Result<String, String>) -> Result<Seq<char>, Seq<char>> {
    match dump {
        Ok(table) => Ok(table@),
        Err(detail) => Err(detail@),
    }
}

/// The text by which a line of the table is recognized as this tool's.
pub fn marker() -> (m: &'static str)
    ensures
        m@ == marker_text(),
{
    "autocommit"
}

impl Registry {
    /// A registry without entries.
    pub fn new() -> (registry: Registry)
        ensures
            registry@ == Seq::<ScheduleEntry>::empty(),
    {
        let registry = Registry { entries: Vec::new() };
        assert(registry@ == Seq::<ScheduleEntry>::empty());
        registry
    }

    /// A registry of the given entries.
    pub fn from_entries(entries: Vec<CronLine>) -> (registry: Registry)
        ensures
            registry@ == entries.deep_view(),
    {
        Registry { entries }
    }

    /// The entries, in order.
    pub fn entries(&self) -> (entries: &Vec<CronLine>)
        ensures
            entries.deep_view() == self@,
    {
        &self.entries
    }

    /// Reads the registry out of the text of the scheduler's table: the
    /// lines that hold the marker, each read as an entry.
    pub fn load(table: &str) -> (r: Result<Registry, ParseError>)
        ensures
            match r {
                Ok(registry) => listed(table@) == Ok::<Seq<ScheduleEntry>, ParseError>(registry@),
                Err(e) => listed(table@) == Err::<Seq<ScheduleEntry>, ParseError>(e),
            },
    {
        let ls = split_lines(table);
        let mut entries: Vec<CronLine> = Vec::new();
        let mut i: usize = 0;
        proof {
            reveal(Seq::filter);
            assert(ls.deep_view().take(0).filter(owned()) == Seq::<Seq<char>>::empty());
            assert(entries.deep_view() == Seq::<ScheduleEntry>::empty());
        }
        while i < ls.len()
            invariant
                i <= ls.len(),
                ls.deep_view() == lines(table@),
                read_all(ls.deep_view().take(i as int).filter(owned())) == Ok::<
                    Seq<ScheduleEntry>,
                    ParseError,
                >(entries.deep_view()),
            decreases ls.len() - i,
        {
            let ghost all = ls.deep_view();
            let ghost before = all.take(i as int);
            let ghost seen = before.filter(owned());
            let ghost line = all[i as int];
            proof {
                assert(all.take(i + 1) == before.push(line));
                before.lemma_filter_push(line, owned());
            }
            if contains(ls[i].as_str(), marker()) {
                proof {
                    assert(seen.push(line).drop_last() == seen);
                }
                match CronLine::parse(ls[i].as_str()) {
                    Ok(entry) => {
                        let ghost old_entries = entries.deep_view();
                        entries.push(entry);
                        assert(entries.deep_view() == old_entries.push(entry@));
                    },
                    Err(e) => {
                        proof {
                            let head = all.take(i + 1);
                            let tail = all.skip(i + 1);
                            assert(head + tail == all);
                            Seq::filter_distributes_over_add(head, tail, owned());
                            lemma_read_all_error_stays(head.filter(owned()), tail.filter(owned()));
                        }
                        return Err(e);
                    },
                }
            }
            i += 1;
        }
        assert(ls.deep_view().take(i as int) == ls.deep_view());
        Ok(Registry { entries })
    }

    /// Whether an entry is registered for `path`.
    pub fn has(&self, path: &str) -> (r: bool)
        ensures
            r == has_path(self@, path@),
    {
        let wanted = String::from_str(path);
        let mut i: usize = 0;
        while i < self.entries.len()
            invariant
                i <= self.entries.len(),
                wanted@ == path@,
                forall|k: int| 0 <= k < i ==> (#[trigger] self@[k]).key() != Some(path@),
            decreases self.entries.len() - i,
        {
            assert(self@[i as int] == self.entries[i as int]@);
            match self.entries[i].key() {
                Some(k) => {
                    if *k == wanted {
                        return true;
                    }
                },
                None => {},
            }
            i += 1;
        }
        false
    }

    /// Registers `path`, to be committed every `frequency` minutes by
    /// `command`. `is_working_tree` says whether `path` is the root of a
    /// working tree. Fails, and leaves the registry as it is, where it is
    /// not, or where `path` is registered already.
    pub fn add(&mut self, path: &str, is_working_tree: bool, frequency: u32, command: &str) -> (r:
        Result<(), Error>)
        ensures
            match r {
                Ok(()) => added(old(self)@, path@, is_working_tree, frequency, command@) == Ok::<
                    Seq<ScheduleEntry>,
                    Failure,
                >(final(self)@),
                Err(e) => added(old(self)@, path@, is_working_tree, frequency, command@) == Err::<
                    Seq<ScheduleEntry>,
                    Failure,
                >(e@) && *final(self) == *old(self),
            },
    {
        if !is_working_tree {
            return Err(Error::NotAWorkingTree);
        }
        if self.has(path) {
            return Err(Error::DuplicateEntry);
        }
        let entry = CronLine::scheduled(path, frequency, command);
        let ghost before = self@;
        self.entries.push(entry);
        assert(self@ == before.push(entry@));
        Ok(())
    }

    /// Removes every entry of `path`. Fails, and leaves the registry as it
    /// is, where there is none.
    pub fn remove(&mut self, path: &str) -> (r: Result<(), Error>)
        ensures
            match r {
                Ok(()) => removed(old(self)@, path@) == Ok::<Seq<ScheduleEntry>, Failure>(
                    final(self)@,
                ),
                Err(e) => removed(old(self)@, path@) == Err::<Seq<ScheduleEntry>, Failure>(e@)
                    && *final(self) == *old(self),
            },
    {
        if !self.has(path) {
            return Err(Error::NotFound);
        }
        let wanted = String::from_str(path);
        let ghost all = self@;
        let mut taken: Vec<CronLine> = Vec::new();
        std::mem::swap(&mut self.entries, &mut taken);
        let mut kept: Vec<CronLine> = Vec::new();
        let n = taken.len();
        let mut i: usize = 0;
        proof {
            reveal(Seq::filter);
            assert(all.take(0).filter(not_keyed(path@)) == Seq::<ScheduleEntry>::empty());
        }
        while i < n
            invariant
                i <= n,
                n == taken.len(),
                wanted@ == path@,
                taken.deep_view() == all,
                kept.deep_view() == all.take(i as int).filter(not_keyed(path@)),
            decreases n - i,
        {
            let ghost before = all.take(i as int);
            let ghost entry = all[i as int];
            proof {
                assert(all.take(i + 1) == before.push(entry));
                before.lemma_filter_push(entry, not_keyed(path@));
                assert(entry == taken[i as int]@);
            }
            let same = match taken[i].key() {
                Some(k) => *k == wanted,
                None => false,
            };
            if !same {
                let ghost old_kept = kept.deep_view();
                let copy = taken[i].duplicate();
                kept.push(copy);
                assert(kept.deep_view() == old_kept.push(entry));
            }
            i += 1;
        }
        assert(all.take(n as int) == all);
        self.entries = kept;
        Ok(())
    }

    /// Writes the text of the table that holds `credential` and the
    /// entries. Fails where no credential is given. The table holds
    /// nothing else: installing it drops every line of the old table that
    /// is not this tool's.
    pub fn render(&self, credential: Option<&str>) -> (r: Result<String, Error>)
        ensures
            match r {
                Ok(table) => written(credential_view(credential), self@) == Ok::<
                    Seq<char>,
                    Failure,
                >(table@),
                Err(e) => written(credential_view(credential), self@) == Err::<
                    Seq<char>,
                    Failure,
                >(e@),
            },
    {
        let key = match credential {
            None => {
                return Err(Error::MissingCredential);
            },
            Some(key) => key,
        };
        let mut rows: Vec<String> = Vec::new();
        let mut i: usize = 0;
        while i < self.entries.len()
            invariant
                i <= self.entries.len(),
                rows.deep_view() == entry_lines(self@).take(i as int),
            decreases self.entries.len() - i,
        {
            let ghost before = rows.deep_view();
            let row = self.entries[i].to_string();
            assert(row@ == entry_lines(self@)[i as int]);
            rows.push(row);
            assert(rows.deep_view() == before.push(entry_lines(self@)[i as int]));
            i += 1;
        }
        assert(entry_lines(self@).take(i as int) == entry_lines(self@));
        let mut table = String::from_str("OPENAI_API_KEY=");
        table.append(key);
        table.append("\n\n");
        let body = join(rows.as_slice(), "\n");
        table.append(body.as_str());
        table.append("\n");
        Ok(table)
    }
}

/// Lists the registered jobs, given what the scheduler answered when asked
/// for its table: the text of the table, or a description of the failure.
pub fn list(dump: Result<String, String>) -> (r: Result<Registry, Error>)
    ensures
        match r {
            Ok(registry) => list_of(dump_view(dump)) == Ok::<Seq<ScheduleEntry>, Failure>(
                registry@,
            ),
            Err(e) => list_of(dump_view(dump)) == Err::<Seq<ScheduleEntry>, Failure>(e@),
        },
{
    match dump {
        Err(detail) => Err(Error::IoFailure(detail)),
        Ok(table) => match Registry::load(table.as_str()) {
            Ok(registry) => Ok(registry),
            Err(e) => Err(Error::Parse(e)),
        },
    }
}

/// Registers `path`: the text of the table to install, given what the
/// scheduler answered when asked for its table. On failure there is no
/// table to install, and the scheduler's table stays as it is.
pub fn create(
    dump: Result<String, String>,
    path: &str,
    is_working_tree: bool,
    frequency: u32,
    command: &str,
    credential: Option<&str>,
) -> (r: Result<String, Error>)
    ensures
        match r {
            Ok(table) => created(
                dump_view(dump),
                path@,
                is_working_tree,
                frequency,
                command@,
                credential_view(credential),
            ) == Ok::<Seq<char>, Failure>(table@),
            Err(e) => created(
                dump_view(dump),
                path@,
                is_working_tree,
                frequency,
                command@,
                credential_view(credential),
            ) == Err::<Seq<char>, Failure>(e@),
        },
{
    if !is_working_tree {
        return Err(Error::NotAWorkingTree);
    }
    let mut registry = match list(dump) {
        Ok(registry) => registry,
        Err(e) => {
            return Err(e);
        },
    };
    match registry.add(path, is_working_tree, frequency, command) {
        Ok(()) => {},
        Err(e) => {
            return Err(e);
        },
    }
    registry.render(credential)
}

/// Removes the registration of `path`: the text of the table to install,
/// given what the scheduler answered when asked for its table. On failure
/// there is no table to install, and the scheduler's table stays as it is.
pub fn delete(dump: Result<String, String>, path: &str, credential: Option<&str>) -> (r: Result<
    String,
    Error,
>)
    ensures
        match r {
            Ok(table) => deleted(dump_view(dump), path@, credential_view(credential)) == Ok::<
                Seq<char>,
                Failure,
            >(table@),
            Err(e) => deleted(dump_view(dump), path@, credential_view(credential)) == Err::<
                Seq<char>,
                Failure,
            >(e@),
        },
{
    let mut registry = match list(dump) {
        Ok(registry) => registry,
        Err(e) => {
            return Err(e);
        },
    };
    match registry.remove(path) {
        Ok(()) => {},
        Err(e) => {
            return Err(e);
        },
    }
    registry.render(credential)
}

/// Once a line fails, the listing fails with that error whatever follows.
pub proof fn lemma_read_all_error_stays(a: Seq<Seq<char>>, b: Seq<Seq<char>>)
    requires
        read_all(a) is Err,
    ensures
        read_all(a + b) == read_all(a),
    decreases b.len(),
{
    if b.len() == 0 {
        assert(a + b == a);
    } else {
        assert((a + b).drop_last() == a + b.drop_last());
        lemma_read_all_error_stays(a, b.drop_last());
    }
}

/// No entry is counted for a path exactly where none is registered for it.
pub proof fn lemma_count_zero(entries: Seq<ScheduleEntry>, path: Seq<char>)
    ensures
        count_path(entries, path) == 0 <==> !has_path(entries, path),
    decreases entries.len(),
{
    reveal(Seq::filter);
    if entries.len() > 0 {
        let init = entries.drop_last();
        lemma_count_zero(init, path);
        if has_path(init, path) {
            let i = choose|i: int| 0 <= i < init.len() && (#[trigger] init[i]).key() == Some(path);
            assert(entries[i] == init[i]);
        }
        if has_path(entries, path) && entries.last().key() != Some(path) {
            let i = choose|i: int|
                0 <= i < entries.len() && (#[trigger] entries[i]).key() == Some(path);
            assert(init[i] == entries[i]);
        }
    }
}

/// Removing the entries of a path from a registry that has none changes
/// nothing.
pub proof fn lemma_nothing_to_remove(entries: Seq<ScheduleEntry>, path: Seq<char>)
    requires
        !has_path(entries, path),
    ensures
        entries.filter(not_keyed(path)) == entries,
    decreases entries.len(),
{
    reveal(Seq::filter);
    if entries.len() > 0 {
        let init = entries.drop_last();
        assert forall|i: int| 0 <= i < init.len() implies (#[trigger] init[i]).key() != Some(
            path,
        ) by {
            assert(init[i] == entries[i]);
        }
        lemma_nothing_to_remove(init, path);
        assert(init.push(entries.last()) == entries);
    }
}

/// After a path was added, exactly one entry is registered for it.
pub proof fn lemma_add_registers_once(
    entries: Seq<ScheduleEntry>,
    path: Seq<char>,
    is_working_tree: bool,
    frequency: u32,
    command: Seq<char>,
)
    requires
        added(entries, path, is_working_tree, frequency, command) is Ok,
    ensures
        count_path(added(entries, path, is_working_tree, frequency, command)->Ok_0, path) == 1,
        has_path(added(entries, path, is_working_tree, frequency, command)->Ok_0, path),
{
    let entry = entry_for(path, frequency, command);
    let next = entries.push(entry);
    lemma_count_zero(entries, path);
    entries.lemma_filter_push(entry, keyed(path));
    assert(next[entries.len() as int].key() == Some(path));
}

/// Adding a path a second time fails as a duplicate, whatever the
/// frequency and the command.
pub proof fn lemma_add_twice_fails(
    entries: Seq<ScheduleEntry>,
    path: Seq<char>,
    frequency: u32,
    command: Seq<char>,
    again_frequency: u32,
    again_command: Seq<char>,
)
    requires
        added(entries, path, true, frequency, command) is Ok,
    ensures
        added(
            added(entries, path, true, frequency, command)->Ok_0,
            path,
            true,
            again_frequency,
            again_command,
        ) == Err::<Seq<ScheduleEntry>, Failure>(Failure::DuplicateEntry),
{
    lemma_add_registers_once(entries, path, true, frequency, command);
}

/// Removing a path that is not registered fails as not found.
pub proof fn lemma_remove_absent_fails(entries: Seq<ScheduleEntry>, path: Seq<char>)
    requires
        !has_path(entries, path),
    ensures
        removed(entries, path) == Err::<Seq<ScheduleEntry>, Failure>(Failure::NotFound),
{
}

/// After a path was removed, no entry is registered for it, and the
/// entries of all other paths are there as before, in their order.
pub proof fn lemma_remove_leaves_none(entries: Seq<ScheduleEntry>, path: Seq<char>)
    requires
        removed(entries, path) is Ok,
    ensures
        count_path(removed(entries, path)->Ok_0, path) == 0,
        !has_path(removed(entries, path)->Ok_0, path),
        forall|other: Seq<char>|
            other != path ==> (#[trigger] removed(entries, path)->Ok_0.filter(keyed(other)))
                == entries.filter(keyed(other)),
{
    let rest = entries.filter(not_keyed(path));
    assert forall|i: int| 0 <= i < rest.len() implies (#[trigger] rest[i]).key() != Some(path) by {
        entries.lemma_filter_pred(not_keyed(path), i);
    }
    lemma_count_zero(rest, path);
    assert forall|other: Seq<char>| other != path implies (#[trigger] rest.filter(keyed(other)))
        == entries.filter(keyed(other)) by {
        lemma_filter_twice(entries, path, other);
    }
}

/// Dropping the entries of one path keeps the entries of every other.
proof fn lemma_filter_twice(entries: Seq<ScheduleEntry>, path: Seq<char>, other: Seq<char>)
    requires
        other != path,
    ensures
        entries.filter(not_keyed(path)).filter(keyed(other)) == entries.filter(keyed(other)),
    decreases entries.len(),
{
    reveal(Seq::filter);
    if entries.len() > 0 {
        let init = entries.drop_last();
        let last = entries.last();
        lemma_filter_twice(init, path, other);
        if not_keyed(path)(last) {
            init.filter(not_keyed(path)).lemma_filter_push(last, keyed(other));
        }
    }
}

/// Removing a path right after it was added gives the registry back as
/// it was, with no entry for the path.
pub proof fn lemma_remove_after_add(
    entries: Seq<ScheduleEntry>,
    path: Seq<char>,
    frequency: u32,
    command: Seq<char>,
)
    requires
        added(entries, path, true, frequency, command) is Ok,
    ensures
        removed(added(entries, path, true, frequency, command)->Ok_0, path) == Ok::<
            Seq<ScheduleEntry>,
            Failure,
        >(entries),
        count_path(entries, path) == 0,
{
    let entry = entry_for(path, frequency, command);
    lemma_add_registers_once(entries, path, true, frequency, command);
    lemma_nothing_to_remove(entries, path);
    entries.lemma_filter_push(entry, not_keyed(path));
    lemma_count_zero(entries, path);
}

/// Adding keeps the registry at one entry for each path at most.
pub proof fn lemma_add_keeps_unique(
    entries: Seq<ScheduleEntry>,
    path: Seq<char>,
    is_working_tree: bool,
    frequency: u32,
    command: Seq<char>,
)
    requires
        unique_paths(entries),
        added(entries, path, is_working_tree, frequency, command) is Ok,
    ensures
        unique_paths(added(entries, path, is_working_tree, frequency, command)->Ok_0),
{
    let next = entries.push(entry_for(path, frequency, command));
    assert forall|i: int, j: int|
        0 <= i < j < next.len() && (#[trigger] next[i]).key() is Some implies next[i].key() != (
        #[trigger] next[j]).key() by {
        assert(next[i] == entries[i]);
        if j < entries.len() {
            assert(next[j] == entries[j]);
        }
    }
}

/// Removing keeps the registry at one entry for each path at most.
pub proof fn lemma_remove_keeps_unique(entries: Seq<ScheduleEntry>, path: Seq<char>)
    requires
        unique_paths(entries),
    ensures
        unique_paths(entries.filter(not_keyed(path))),
    decreases entries.len(),
{
    reveal(Seq::filter);
    if entries.len() > 0 {
        let init = entries.drop_last();
        let last = entries.last();
        assert(unique_paths(init)) by {
            assert forall|i: int, j: int|
                0 <= i < j < init.len() && (#[trigger] init[i]).key() is Some implies init[i].key()
                != (#[trigger] init[j]).key() by {
                assert(init[i] == entries[i] && init[j] == entries[j]);
            }
        }
        lemma_remove_keeps_unique(init, path);
        let rest = init.filter(not_keyed(path));
        let all = entries.filter(not_keyed(path));
        if not_keyed(path)(last) {
            assert(all == rest.push(last));
            assert forall|i: int, j: int|
                0 <= i < j < all.len() && (#[trigger] all[i]).key() is Some implies all[i].key()
                != (#[trigger] all[j]).key() by {
                if j == rest.len() {
                    init.lemma_filter_contains_rev(not_keyed(path), rest[i]);
                    let k = choose|k: int| 0 <= k < init.len() && init[k] == rest[i];
                    assert(entries[k] == init[k]);
                    assert(entries[entries.len() - 1] == last);
                } else {
                    assert(all[i] == rest[i] && all[j] == rest[j]);
                }
            }
        }
    }
}

/// The lines of clean entries are read back as those entries.
pub proof fn lemma_read_entry_lines(entries: Seq<ScheduleEntry>)
    requires
        forall|i: int| 0 <= i < entries.len() ==> (#[trigger] entries[i]).clean(),
    ensures
        read_all(entry_lines(entries)) == Ok::<Seq<ScheduleEntry>, ParseError>(entries),
    decreases entries.len(),
{
    let ls = entry_lines(entries);
    if entries.len() == 0 {
        assert(entries == Seq::<ScheduleEntry>::empty());
    } else {
        let init = entries.drop_last();
        assert forall|i: int| 0 <= i < init.len() implies (#[trigger] init[i]).clean() by {
            assert(init[i] == entries[i]);
        }
        lemma_read_entry_lines(init);
        assert(ls.drop_last() == entry_lines(init));
        assert(ls.last() == entries.last().serialize());
        assert(entries.last().clean());
        lemma_serialize_then_parse(entries.last());
        assert(init.push(entries.last()) == entries);
    }
}

/// Where every line is this tool's, all are kept.
pub proof fn lemma_owned_lines_kept(ls: Seq<Seq<char>>)
    requires
        forall|i: int| 0 <= i < ls.len() ==> is_owned(#[trigger] ls[i]),
    ensures
        ls.filter(owned()) == ls,
    decreases ls.len(),
{
    reveal(Seq::filter);
    if ls.len() > 0 {
        let init = ls.drop_last();
        assert forall|i: int| 0 <= i < init.len() implies is_owned(#[trigger] init[i]) by {
            assert(init[i] == ls[i]);
        }
        lemma_owned_lines_kept(init);
        assert(is_owned(ls.last()));
        assert(init.push(ls.last()) == ls);
    }
}

/// The line of a clean entry is one line.
pub proof fn lemma_entry_line_is_one_line(entry: ScheduleEntry)
    requires
        entry.clean(),
    ensures
        one_line(entry.serialize()),
{
    lemma_serialize_joins_fields(entry);
    lemma_joined_words_one_line(entry.fields());
}

/// Listing after writing: the table that is written for a plain
/// credential and entries that are clean and hold the marker lists
/// exactly those entries, in their order.
pub proof fn lemma_written_table_lists_entries(credential: Seq<char>, entries: Seq<ScheduleEntry>)
    requires
        plain_credential(credential),
        all_persistent(entries),
    ensures
        listed(table_of(credential, entries)) == Ok::<Seq<ScheduleEntry>, ParseError>(entries),
{
    reveal_strlit("OPENAI_API_KEY=");
    reveal_strlit("\n\n");
    reveal_strlit("\n");
    reveal_strlit("autocommit");
    let nl = seq!['\n'];
    let empty = Seq::<char>::empty();
    let key = credential_line(credential);
    let rows = entry_lines(entries);
    let body = joined(rows, nl) + nl;
    let table = table_of(credential, entries);
    assert("\n"@ == nl);
    assert("\n\n"@ == nl + nl);
    assert(table == key + (nl + (nl + body)));

    // The lines of the table.
    assert forall|i: int| 0 <= i < key.len() implies #[trigger] key[i] != '\n' by {
        if i >= 15 {
            assert(key[i] == credential[i - 15]);
        }
    }
    lemma_lines_skip_text(key, nl + (nl + body), empty);
    assert(empty + key == key);
    let after_key = nl + (nl + body);
    assert(after_key[0] == '\n');
    assert(after_key.skip(1) == nl + body);
    let after_gap = nl + body;
    assert(after_gap[0] == '\n');
    assert(after_gap.skip(1) == body);
    assert forall|i: int| 0 <= i < rows.len() implies one_line(#[trigger] rows[i]) by {
        assert(persistent(entries[i]));
        lemma_entry_line_is_one_line(entries[i]);
    }
    lemma_lines_of_joined(rows);
    let read = if rows.len() == 0 {
        seq![empty]
    } else {
        rows
    };
    assert(lines(body) == read);
    assert(lines_from(after_gap, empty) == seq![strip_cr(empty)] + lines_from(body, empty));
    assert(lines_from(after_key, key) == seq![strip_cr(key)] + lines_from(after_gap, empty));
    assert(lines(table) == lines_from(after_key, key));
    assert(strip_cr(empty) == empty);
    assert(lines(table) == seq![strip_cr(key)] + (seq![empty] + read));

    // The lines that are this tool's.
    assert(!is_owned(strip_cr(key))) by {
        if is_owned(strip_cr(key)) {
            let i = choose|i: int| occurs_at(strip_cr(key), marker_text(), i);
            assert(key.subrange(i, i + marker_text().len()) == strip_cr(key).subrange(
                i,
                i + marker_text().len(),
            ));
            assert(occurs_at(key, marker_text(), i));
        }
    }
    assert(!is_owned(empty));
    assert forall|i: int| 0 <= i < rows.len() implies is_owned(#[trigger] rows[i]) by {
        assert(persistent(entries[i]));
    }
    reveal_with_fuel(Seq::filter, 2);
    assert(seq![strip_cr(key)].filter(owned()) == Seq::<Seq<char>>::empty());
    assert(seq![empty].filter(owned()) == Seq::<Seq<char>>::empty());
    lemma_owned_lines_kept(rows);
    if rows.len() == 0 {
        assert(read.filter(owned()) == rows);
    }
    Seq::filter_distributes_over_add(seq![empty], read, owned());
    Seq::filter_distributes_over_add(seq![strip_cr(key)], seq![empty] + read, owned());
    assert(lines(table).filter(owned()) == rows);

    // The entries of those lines.
    assert forall|i: int| 0 <= i < entries.len() implies (#[trigger] entries[i]).clean() by {
        assert(persistent(entries[i]));
    }
    lemma_read_entry_lines(entries);
}

/// The marker is a word.
pub proof fn lemma_marker_is_word()
    ensures
        is_word(marker_text()),
        marker_text().len() == 10,
{
    reveal_strlit("autocommit");
}

/// The entry that a line of this tool states is read back as it is
/// written: it is clean, and its line holds the marker as the line that
/// stated it did.
pub proof fn lemma_parsed_entry_persistent(line: Seq<char>)
    requires
        is_owned(line),
        parsed(line) is Ok,
    ensures
        persistent(parsed(line)->Ok_0),
{
    let entry = parsed(line)->Ok_0;
    lemma_marker_is_word();
    lemma_parsed_entry(line);
    lemma_serialize_joins_fields(entry);
    assert(Seq::<char>::empty() + line == line);
    let k = lemma_occurs_in_token(line, Seq::empty(), marker_text());
    lemma_occurs_in_joined(tokens(line), seq![' '], k, marker_text());
}

/// The entries that lines of this tool state are read back as they are
/// written.
pub proof fn lemma_read_all_persistent(ls: Seq<Seq<char>>)
    requires
        forall|i: int| 0 <= i < ls.len() ==> is_owned(#[trigger] ls[i]),
        read_all(ls) is Ok,
    ensures
        all_persistent(read_all(ls)->Ok_0),
    decreases ls.len(),
{
    if ls.len() > 0 {
        let init = ls.drop_last();
        assert forall|i: int| 0 <= i < init.len() implies is_owned(#[trigger] init[i]) by {
            assert(init[i] == ls[i]);
        }
        lemma_read_all_persistent(init);
        assert(is_owned(ls.last()));
        lemma_parsed_entry_persistent(ls.last());
        let before = read_all(init)->Ok_0;
        let all = read_all(ls)->Ok_0;
        assert forall|i: int| 0 <= i < all.len() implies persistent(#[trigger] all[i]) by {
            if i < before.len() {
                assert(all[i] == before[i]);
            }
        }
    }
}

/// What a table lists is read back as it is written.
pub proof fn lemma_listed_persistent(table: Seq<char>)
    requires
        listed(table) is Ok,
    ensures
        all_persistent(listed(table)->Ok_0),
{
    let ls = lines(table).filter(owned());
    assert forall|i: int| 0 <= i < ls.len() implies is_owned(#[trigger] ls[i]) by {
        lines(table).lemma_filter_pred(owned(), i);
    }
    lemma_read_all_persistent(ls);
}

/// No digit is a separator, and a numeral is not empty.
pub proof fn lemma_decimal_is_word(n: nat)
    ensures
        is_word(decimal(n)),
    decreases n,
{
    if n >= 10 {
        lemma_decimal_is_word(n / 10);
        let head = decimal(n / 10);
        let all = decimal(n);
        assert forall|i: int| 0 <= i < all.len() implies !is_space(#[trigger] all[i]) by {
            if i < head.len() {
                assert(all[i] == head[i]);
            }
        }
    }
}

/// The entry that registers a path is read back as it is written, where
/// the path and the command are words.
pub proof fn lemma_scheduled_entry_persistent(path: Seq<char>, frequency: u32, command: Seq<char>)
    requires
        is_word(path),
        is_word(command),
    ensures
        persistent(entry_for(path, frequency, command)),
{
    reveal_strlit("*/");
    reveal_strlit("*");
    reveal_strlit("run");
    reveal_strlit(">>");
    reveal_strlit("/.autocommit_log");
    reveal_strlit("2>&1");
    reveal_strlit("autocommit");
    let entry = entry_for(path, frequency, command);
    let fields = entry.fields();
    let every = "*/"@ + decimal(frequency as nat);
    let log = path + "/.autocommit_log"@;
    lemma_decimal_is_word(frequency as nat);
    assert(is_word(every)) by {
        assert forall|i: int| 0 <= i < every.len() implies !is_space(#[trigger] every[i]) by {
            if i >= 2 {
                assert(every[i] == decimal(frequency as nat)[i - 2]);
            }
        }
    }
    assert(is_word(log)) by {
        assert forall|i: int| 0 <= i < log.len() implies !is_space(#[trigger] log[i]) by {
            if i < path.len() {
                assert(log[i] == path[i]);
            } else {
                assert(log[i] == "/.autocommit_log"@[i - path.len()]);
            }
        }
    }
    assert(fields == seq![
        every,
        "*"@,
        "*"@,
        "*"@,
        "*"@,
        command,
        "run"@,
        path,
        ">>"@,
        log,
        "2>&1"@,
    ]);
    assert(entry.clean());
    assert(occurs_at("/.autocommit_log"@, marker_text(), 2)) by {
        assert("/.autocommit_log"@.subrange(2, 12) == marker_text());
    }
    lemma_occurs_embedded(path, "/.autocommit_log"@, Seq::empty(), marker_text());
    assert(path + "/.autocommit_log"@ + Seq::<char>::empty() == log);
    lemma_occurs_in_joined(fields, seq![' '], 9, marker_text());
    lemma_serialize_joins_fields(entry);
}

/// Dropping entries keeps the rest as they are read back.
pub proof fn lemma_rest_persistent(entries: Seq<ScheduleEntry>, path: Seq<char>)
    requires
        all_persistent(entries),
    ensures
        all_persistent(entries.filter(not_keyed(path))),
{
    let rest = entries.filter(not_keyed(path));
    assert forall|i: int| 0 <= i < rest.len() implies persistent(#[trigger] rest[i]) by {
        entries.lemma_filter_contains_rev(not_keyed(path), rest[i]);
        let k = choose|k: int| 0 <= k < entries.len() && entries[k] == rest[i];
        assert(persistent(entries[k]));
    }
}

/// Registering and then listing: where a path was registered and the new
/// table installed, the table lists what it listed before and then the
/// entry of the path, and exactly one entry for the path. This holds for
/// a path and a command that are words and for a plain credential.
pub proof fn lemma_create_then_list(
    table: Seq<char>,
    path: Seq<char>,
    is_working_tree: bool,
    frequency: u32,
    command: Seq<char>,
    credential: Seq<char>,
)
    requires
        is_word(path),
        is_word(command),
        plain_credential(credential),
        created(Ok(table), path, is_working_tree, frequency, command, Some(credential)) is Ok,
    ensures
        listed(
            created(Ok(table), path, is_working_tree, frequency, command, Some(credential))->Ok_0,
        ) == Ok::<Seq<ScheduleEntry>, ParseError>(
            listed(table)->Ok_0.push(entry_for(path, frequency, command)),
        ),
        count_path(listed(table)->Ok_0.push(entry_for(path, frequency, command)), path) == 1,
{
    let before = listed(table)->Ok_0;
    let entry = entry_for(path, frequency, command);
    let after = before.push(entry);
    lemma_listed_persistent(table);
    lemma_scheduled_entry_persistent(path, frequency, command);
    assert forall|i: int| 0 <= i < after.len() implies persistent(#[trigger] after[i]) by {
        if i < before.len() {
            assert(after[i] == before[i]);
        }
    }
    lemma_written_table_lists_entries(credential, after);
    lemma_add_registers_once(before, path, is_working_tree, frequency, command);
}

/// Removing and then listing: where a path was removed and the new table
/// installed, the table lists what it listed before without the entries
/// of the path, and no entry for the path. This holds for a plain
/// credential.
pub proof fn lemma_delete_then_list(table: Seq<char>, path: Seq<char>, credential: Seq<char>)
    requires
        plain_credential(credential),
        deleted(Ok(table), path, Some(credential)) is Ok,
    ensures
        listed(deleted(Ok(table), path, Some(credential))->Ok_0) == Ok::<
            Seq<ScheduleEntry>,
            ParseError,
        >(listed(table)->Ok_0.filter(not_keyed(path))),
        count_path(listed(table)->Ok_0.filter(not_keyed(path)), path) == 0,
{
    let before = listed(table)->Ok_0;
    lemma_listed_persistent(table);
    lemma_rest_persistent(before, path);
    lemma_written_table_lists_entries(credential, before.filter(not_keyed(path)));
    lemma_remove_leaves_none(before, path);
}

} // verus!
