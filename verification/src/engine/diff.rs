//! The result of comparing two documents key by key.

use vstd::prelude::*;
use crate::text::{decimal_digits, push_decimal, to_owned_string};

verus! {

broadcast use vstd::string::group_string_axioms;

/// How a key differs between the two documents.
#[derive(Debug, Clone, Copy, PartialEq, Eq, Structural)]
pub enum DiffType {
    Added,
    Removed,
    Modified,
    Unchanged,
}

/// The one-character marker of each kind of change.
pub open spec fn diff_symbol(t: DiffType) -> Seq<char> {
    match t {
        DiffType::Added => "+"@,
        DiffType::Removed => "-"@,
        DiffType::Modified => "~"@,
        DiffType::Unchanged => " "@,
    }
}

impl DiffType {
    /// `+`, `-`, `~` or a space.
    pub fn symbol(&self) -> (s: &'static str)
        ensures
            s@ == diff_symbol(*self),
    {
        match self {
            DiffType::Added => "+",
            DiffType::Removed => "-",
            DiffType::Modified => "~",
            DiffType::Unchanged => " ",
        }
    }
}

/// One key and how it changed.
#[derive(Debug, Clone)]
pub struct DiffEntry {
    pub diff_type: DiffType,
    /// Dotted key path, such as `server.host`.
    pub path: String,
    pub old_value: Option<String>,
    pub new_value: Option<String>,
    /// The line, where known.
    pub line: Option<usize>,
}

impl DiffEntry {
    /// A key only the new document has.
    pub fn added(path: &str, value: &str) -> (e: DiffEntry)
        ensures
            e.diff_type == DiffType::Added,
            e.path@ == path@,
            e.old_value is None,
            e.new_value matches Some(v) && v@ == value@,
            e.line is None,
    {
        DiffEntry {
            diff_type: DiffType::Added,
            path: to_owned_string(path),
            old_value: None,
            new_value: Some(to_owned_string(value)),
            line: None,
        }
    }

    /// A key only the old document has.
    pub fn removed(path: &str, value: &str) -> (e: DiffEntry)
        ensures
            e.diff_type == DiffType::Removed,
            e.path@ == path@,
            e.old_value matches Some(v) && v@ == value@,
            e.new_value is None,
            e.line is None,
    {
        DiffEntry {
            diff_type: DiffType::Removed,
            path: to_owned_string(path),
            old_value: Some(to_owned_string(value)),
            new_value: None,
            line: None,
        }
    }

    /// A key whose value changed.
    pub fn modified(path: &str, old_value: &str, new_value: &str) -> (e: DiffEntry)
        ensures
            e.diff_type == DiffType::Modified,
            e.path@ == path@,
            e.old_value matches Some(v) && v@ == old_value@,
            e.new_value matches Some(v) && v@ == new_value@,
            e.line is None,
    {
        DiffEntry {
            diff_type: DiffType::Modified,
            path: to_owned_string(path),
            old_value: Some(to_owned_string(old_value)),
            new_value: Some(to_owned_string(new_value)),
            line: None,
        }
    }
}

/// All differences between two documents.
#[derive(Debug, Clone)]
pub struct DiffResult {
    pub entries: Vec<DiffEntry>,
    /// Name of the old document, if given.
    pub old_source: Option<String>,
    /// Name of the new document, if given.
    pub new_source: Option<String>,
}

/// Counts of each kind of change.
#[derive(Debug, Clone, Copy)]
pub struct DiffStats {
    pub added: usize,
    pub removed: usize,
    pub modified: usize,
    pub unchanged: usize,
    pub total: usize,
}

/// How many entries are of kind `t`.
pub open spec fn count_of(entries: Seq<DiffEntry>, t: DiffType) -> nat
    decreases entries.len(),
{
    if entries.len() == 0 {
        0
    } else {
        count_of(entries.drop_last(), t) + if entries.last().diff_type == t { 1nat } else { 0nat }
    }
}

/// The statistics of a list of entries.
pub open spec fn stats_of(entries: Seq<DiffEntry>, s: DiffStats) -> bool {
    &&& s.added == count_of(entries, DiffType::Added)
    &&& s.removed == count_of(entries, DiffType::Removed)
    &&& s.modified == count_of(entries, DiffType::Modified)
    &&& s.unchanged == count_of(entries, DiffType::Unchanged)
    &&& s.total == entries.len()
}

/// Every entry is of exactly one kind, so the four counts add up to the total.
pub proof fn lemma_counts_sum_to_total(entries: Seq<DiffEntry>)
    ensures
        count_of(entries, DiffType::Added) + count_of(entries, DiffType::Removed) + count_of(
            entries,
            DiffType::Modified,
        ) + count_of(entries, DiffType::Unchanged) == entries.len(),
    decreases entries.len(),
{
    if entries.len() > 0 {
        lemma_counts_sum_to_total(entries.drop_last());
    }
}

/// No count exceeds the number of entries.
pub proof fn lemma_count_le_len(entries: Seq<DiffEntry>, t: DiffType)
    ensures
        count_of(entries, t) <= entries.len(),
    decreases entries.len(),
{
    if entries.len() > 0 {
        lemma_count_le_len(entries.drop_last(), t);
    }
}

impl DiffResult {
    /// No entries, no source names.
    pub fn new() -> (r: DiffResult)
        ensures
            r.entries@.len() == 0,
            r.old_source is None,
            r.new_source is None,
    {
        DiffResult { entries: Vec::new(), old_source: None, new_source: None }
    }

    /// The same result with the two documents' names.
    pub fn with_sources(self, old: &str, new: &str) -> (r: DiffResult)
        ensures
            r.entries@ == self.entries@,
            r.old_source matches Some(o) && o@ == old@,
            r.new_source matches Some(n) && n@ == new@,
    {
        let mut this = self;
        this.old_source = Some(to_owned_string(old));
        this.new_source = Some(to_owned_string(new));
        this
    }

    /// Appends `entry`.
    pub fn add_entry(&mut self, entry: DiffEntry)
        ensures
            final(self).entries@ == old(self).entries@.push(entry),
            final(self).old_source == old(self).old_source,
            final(self).new_source == old(self).new_source,
    {
        self.entries.push(entry);
    }

    /// Whether there are no entries.
    pub fn is_empty(&self) -> (b: bool)
        ensures
            b == (self.entries@.len() == 0),
    {
        self.entries.len() == 0
    }

    /// The count of each kind of entry.
    pub fn stats(&self) -> (s: DiffStats)
        ensures
            stats_of(self.entries@, s),
            s.added + s.removed + s.modified + s.unchanged == s.total,
    {
        let mut added: usize = 0;
        let mut removed: usize = 0;
        let mut modified: usize = 0;
        let mut unchanged: usize = 0;
        let mut i: usize = 0;
        while i < self.entries.len()
            invariant
                i <= self.entries@.len(),
                added == count_of(self.entries@.take(i as int), DiffType::Added),
                removed == count_of(self.entries@.take(i as int), DiffType::Removed),
                modified == count_of(self.entries@.take(i as int), DiffType::Modified),
                unchanged == count_of(self.entries@.take(i as int), DiffType::Unchanged),
            decreases self.entries@.len() - i,
        {
            proof {
                assert(self.entries@.take(i + 1).drop_last() == self.entries@.take(i as int));
                lemma_counts_sum_to_total(self.entries@.take(i as int));
            }
            match self.entries[i].diff_type {
                DiffType::Added => added = added + 1,
                DiffType::Removed => removed = removed + 1,
                DiffType::Modified => modified = modified + 1,
                DiffType::Unchanged => unchanged = unchanged + 1,
            }
            i = i + 1;
        }
        proof {
            assert(self.entries@.take(self.entries@.len() as int) == self.entries@);
            lemma_counts_sum_to_total(self.entries@);
        }
        DiffStats { added, removed, modified, unchanged, total: self.entries.len() }
    }
}

impl Default for DiffResult {
    fn default() -> (r: DiffResult)
        ensures
            r.entries@.len() == 0,
            r.old_source is None,
            r.new_source is None,
    {
        DiffResult::new()
    }
}

/// `a added, r removed, m modified, u unchanged (t total)`.
pub open spec fn stats_text(s: DiffStats) -> Seq<char> {
    decimal_digits(s.added as nat) + " added, "@ + decimal_digits(s.removed as nat) + " removed, "@
        + decimal_digits(s.modified as nat) + " modified, "@ + decimal_digits(s.unchanged as nat)
        + " unchanged ("@ + decimal_digits(s.total as nat) + " total)"@
}

impl DiffStats {
    /// The one-line summary.
    pub fn describe(&self) -> (s: String)
        ensures
            s@ == stats_text(*self),
    {
        let mut s = String::new();
        push_decimal(&mut s, self.added as u64);
        s.push_str(" added, ");
        push_decimal(&mut s, self.removed as u64);
        s.push_str(" removed, ");
        push_decimal(&mut s, self.modified as u64);
        s.push_str(" modified, ");
        push_decimal(&mut s, self.unchanged as u64);
        s.push_str(" unchanged (");
        push_decimal(&mut s, self.total as u64);
        s.push_str(" total)");
        s
    }
}

} // verus!
