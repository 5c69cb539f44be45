//! Versions of configuration files: each recorded text gets an id, a time
//! and a hash, and two versions can be compared line by line.

use vstd::prelude::*;
use crate::ast::Ast;
use crate::text::{chars_of, decimal_digits, lines_of, lines_vec, push_decimal, str_eq, to_owned_string};

verus! {

broadcast use vstd::string::group_string_axioms;

/// The djb2 hash of `bytes`: starting at 5381, each byte is added to the
/// hash times 33, wrapping at 2^64.
pub open spec fn content_hash(bytes: Seq<u8>) -> u64
    decreases bytes.len(),
{
    if bytes.len() == 0 {
        5381
    } else {
        vstd::wrapping::u64_specs::wrapping_add(
            vstd::wrapping::u64_specs::wrapping_mul(content_hash(bytes.drop_last()), 33),
            bytes.last() as u64,
        )
    }
}

/// The djb2 hash of `data`.
pub fn compute_hash(data: &[u8]) -> (h: u64)
    ensures
        h == content_hash(data@),
{
    let mut hash: u64 = 5381;
    let mut i: usize = 0;
    while i < data.len()
        invariant
            i <= data@.len(),
            hash == content_hash(data@.take(i as int)),
        decreases data@.len() - i,
    {
        proof {
            assert(data@.take(i + 1).drop_last() == data@.take(i as int));
            assert(data@.take(i + 1).last() == data@[i as int]);
        }
        hash = hash.wrapping_mul(33).wrapping_add(data[i] as u64);
        i = i + 1;
    }
    proof {
        assert(data@.take(data@.len() as int) == data@);
    }
    hash
}

/// Line `i`, or nothing past the end.
pub open spec fn line_or_empty(ls: Seq<Seq<char>>, i: int) -> Seq<char> {
    if 0 <= i < ls.len() {
        ls[i]
    } else {
        Seq::empty()
    }
}

/// For each of the first `n` line numbers where the two texts differ, the
/// old line as `- line` and the new one as `+ line`, where each exists.
pub open spec fn line_changes(a: Seq<Seq<char>>, b: Seq<Seq<char>>, n: int) -> Seq<char>
    decreases n,
{
    if n <= 0 {
        Seq::empty()
    } else {
        let i = n - 1;
        line_changes(a, b, i) + if line_or_empty(a, i) != line_or_empty(b, i) {
            (if i < a.len() {
                "- "@ + a[i] + "\n"@
            } else {
                Seq::empty()
            }) + (if i < b.len() {
                "+ "@ + b[i] + "\n"@
            } else {
                Seq::empty()
            })
        } else {
            Seq::empty()
        }
    }
}

/// The line-by-line difference of two texts, or `No differences`.
pub open spec fn diff_text(a: Seq<char>, b: Seq<char>) -> Seq<char> {
    let la = lines_of(a);
    let lb = lines_of(b);
    let n = if la.len() >= lb.len() { la.len() } else { lb.len() };
    let d = line_changes(la, lb, n as int);
    if d.len() == 0 {
        "No differences"@
    } else {
        d
    }
}

/// Compares two texts line by line, position by position.
pub fn compute_diff(content_a: &str, content_b: &str) -> (s: String)
    ensures
        s@ == diff_text(content_a@, content_b@),
{
    let la = lines_vec(&chars_of(content_a));
    let lb = lines_vec(&chars_of(content_b));
    let ghost va = la@.map_values(|x: String| x@);
    let ghost vb = lb@.map_values(|x: String| x@);
    proof {
        assert(va =~= lines_of(content_a@));
        assert(vb =~= lines_of(content_b@));
    }
    let n = if la.len() >= lb.len() { la.len() } else { lb.len() };
    let mut diff = String::new();
    let mut i: usize = 0;
    while i < n
        invariant
            i <= n,
            n == if va.len() >= vb.len() { va.len() } else { vb.len() },
            va == la@.map_values(|x: String| x@),
            vb == lb@.map_values(|x: String| x@),
            diff@ == line_changes(va, vb, i as int),
        decreases n - i,
    {
        let a: &str = if i < la.len() { la[i].as_str() } else { "" };
        let b: &str = if i < lb.len() { lb[i].as_str() } else { "" };
        proof {
            assert(""@ =~= Seq::<char>::empty()) by {
                reveal_strlit("");
            }
            if i < la@.len() {
                assert(va[i as int] == la@[i as int]@);
            }
            if i < lb@.len() {
                assert(vb[i as int] == lb@[i as int]@);
            }
            assert(a@ == line_or_empty(va, i as int));
            assert(b@ == line_or_empty(vb, i as int));
        }
        if !str_eq(a, b) {
            if i < la.len() {
                diff.push_str("- ");
                diff.push_str(a);
                diff.push_str("\n");
            }
            if i < lb.len() {
                diff.push_str("+ ");
                diff.push_str(b);
                diff.push_str("\n");
            }
        }
        i = i + 1;
    }
    if diff.as_str().unicode_len() == 0 {
        to_owned_string("No differences")
    } else {
        diff
    }
}


/// What is known of a version.
#[derive(Debug)]
pub struct VersionInfo {
    pub version_id: u64,
    pub timestamp: u64,
    pub content_hash: u64,
    pub description: Option<String>,
    pub file_path: String,
}

/// A version: what is known of it, its text, and its tree when the text parses.
#[derive(Debug)]
pub struct VersionRecord {
    pub info: VersionInfo,
    pub content: String,
    pub ast: Option<Ast>,
}

/// The difference between two versions of a file.
#[derive(Debug)]
pub struct VersionDiff {
    pub version_a: u64,
    pub version_b: u64,
    pub diff: String,
}

impl VersionDiff {
    /// `Version a -> b:` and the difference on the next lines.
    pub fn describe(&self) -> (s: String)
        ensures
            s@ == "Version "@ + decimal_digits(self.version_a as nat) + " -> "@ + decimal_digits(self.version_b as nat)
                + ":\n"@ + self.diff@,
    {
        let mut s = String::new();
        s.push_str("Version ");
        push_decimal(&mut s, self.version_a);
        s.push_str(" -> ");
        push_decimal(&mut s, self.version_b);
        s.push_str(":\n");
        s.push_str(self.diff.as_str());
        s
    }
}

/// The index of the first file entry at or after `i` with the given key.
pub open spec fn file_index(rs: Seq<(String, Vec<VersionRecord>)>, key: Seq<char>, i: int) -> Option<int>
    decreases rs.len() - i,
{
    if i < 0 || i >= rs.len() {
        None
    } else if rs[i].0@ == key {
        Some(i)
    } else {
        file_index(rs, key, i + 1)
    }
}

/// The first record of `id` in a history.
pub open spec fn version_index(h: Seq<VersionRecord>, id: u64, i: int) -> Option<int>
    decreases h.len() - i,
{
    if i < 0 || i >= h.len() {
        None
    } else if h[i].info.version_id == id {
        Some(i)
    } else {
        version_index(h, id, i + 1)
    }
}

/// Versions of files, each file by the text of its path.
pub struct VersionManager {
    records: Vec<(String, Vec<VersionRecord>)>,
    storage_dir: Option<String>,
    next_version_id: u64,
}

impl VersionManager {
    /// The versions of the file with this path, oldest first.
    pub closed spec fn history(&self, key: Seq<char>) -> Seq<VersionRecord> {
        match file_index(self.records@, key, 0) {
            Some(i) => self.records@[i].1@,
            None => Seq::empty(),
        }
    }

    /// The id the next version gets.
    pub closed spec fn next_id(&self) -> u64 {
        self.next_version_id
    }

    /// Where versions are saved, if anywhere.
    pub closed spec fn storage(&self) -> Option<Seq<char>> {
        match self.storage_dir {
            Some(d) => Some(d@),
            None => None,
        }
    }

    pub fn new() -> (m: Self)
        ensures
            m.next_id() == 1,
            m.storage() is None,
            forall|k: Seq<char>| #[trigger] m.history(k).len() == 0,
    {
        VersionManager { records: Vec::new(), storage_dir: None, next_version_id: 1 }
    }

    /// The same manager, saving versions under `dir`.
    pub fn with_storage_dir(self, dir: String) -> (m: Self)
        ensures
            m.storage() == Some(dir@),
            m.next_id() == self.next_id(),
            forall|k: Seq<char>| #[trigger] m.history(k) == self.history(k),
    {
        let mut this = self;
        this.storage_dir = Some(dir);
        this
    }

    /// Where versions are saved, if anywhere.
    pub fn storage_dir(&self) -> (r: Option<&str>)
        ensures
            match r {
                Some(d) => self.storage() == Some(d@),
                None => self.storage() is None,
            },
    {
        match &self.storage_dir {
            Some(d) => Some(d.as_str()),
            None => None,
        }
    }

    fn find_file(&self, key: &str) -> (r: Option<usize>)
        ensures
            match r {
                Some(k) => file_index(self.records@, key@, 0) == Some(k as int) && k < self.records@.len(),
                None => file_index(self.records@, key@, 0) is None,
            },
    {
        let mut i: usize = 0;
        while i < self.records.len()
            invariant
                i <= self.records@.len(),
                file_index(self.records@, key@, 0) == file_index(self.records@, key@, i as int),
            decreases self.records@.len() - i,
        {
            if str_eq(self.records[i].0.as_str(), key) {
                return Some(i);
            }
            i = i + 1;
        }
        None
    }

    /// A new version of the text of `file_path`: it takes the next id, and
    /// its hash is that of the text's bytes. Kept only once stored.
    pub fn prepare_version(
        &mut self,
        file_path: &str,
        content: String,
        timestamp: u64,
        description: Option<String>,
    ) -> (r: VersionRecord)
        requires
            content@.len() < u32::MAX,
            old(self).next_id() < u64::MAX,
        ensures
            r.info.version_id == old(self).next_id(),
            r.info.timestamp == timestamp,
            r.info.content_hash == content_hash(vstd::utf8::encode_utf8(content@)),
            r.info.description == description,
            r.info.file_path@ == file_path@,
            r.content == content,
            r.ast matches Some(a) ==> a.source.content@ == content@,
            final(self).next_id() == old(self).next_id() + 1,
            final(self).storage() == old(self).storage(),
            forall|k: Seq<char>| #[trigger] final(self).history(k) == old(self).history(k),
    {
        let ast = match crate::parse(content.as_str()) {
            Ok(a) => Some(a),
            Err(_) => None,
        };
        let hash = compute_hash(content.as_str().as_bytes());
        let id = self.next_version_id;
        self.next_version_id = self.next_version_id + 1;
        let info = VersionInfo {
            version_id: id,
            timestamp,
            content_hash: hash,
            description,
            file_path: to_owned_string(file_path),
        };
        VersionRecord { info, content, ast }
    }

    /// Keeps a version as the latest of its file.
    pub fn store_version(&mut self, record: VersionRecord)
        ensures
            final(self).history(record.info.file_path@) == old(self).history(record.info.file_path@).push(record),
            forall|k: Seq<char>| k != record.info.file_path@ ==> #[trigger] final(self).history(k) == old(self).history(k),
            final(self).next_id() == old(self).next_id(),
            final(self).storage() == old(self).storage(),
    {
        let ghost key = record.info.file_path@;
        let ghost before = self.records@;
        match self.find_file(record.info.file_path.as_str()) {
            Some(i) => {
                let (k, mut h) = self.records.remove(i);
                let ghost gr = record;
                h.push(record);
                self.records.insert(i, (k, h));
                proof {
                    assert(self.records@ == before.update(i as int, (k, h)));
                    assert forall|q: Seq<char>| #[trigger] file_index(self.records@, q, 0) == file_index(before, q, 0) by {
                        lemma_file_index_same_keys(self.records@, before, q, 0);
                    }
                    assert(self.history(key) == h@);
                    assert forall|q: Seq<char>| q != key implies #[trigger] self.history(q) == old(self).history(q) by {
                        lemma_file_index_found(before, q, 0);
                        lemma_file_index_found(before, key, 0);
                    }
                }
            },
            None => {
                let k = to_owned_string(record.info.file_path.as_str());
                let mut h: Vec<VersionRecord> = Vec::new();
                let ghost gr = record;
                h.push(record);
                self.records.push((k, h));
                proof {
                    assert forall|q: Seq<char>| q != key implies #[trigger] file_index(self.records@, q, 0) == file_index(before, q, 0) by {
                        lemma_file_index_push(before, self.records@, q, key, 0);
                    }
                    lemma_file_index_push_found(before, self.records@, key, 0);
                    assert forall|q: Seq<char>| q != key implies #[trigger] self.history(q) == old(self).history(q) by {
                        lemma_file_index_push(before, self.records@, q, key, 0);
                        lemma_file_index_found(before, q, 0);
                    }
                    assert(h@ =~= Seq::<VersionRecord>::empty().push(gr));
                }
            },
        }
    }

    /// The version of `file_path` with the given id.
    pub fn get_version(&self, file_path: &str, version_id: u64) -> (r: Option<&VersionRecord>)
        ensures
            match version_index(self.history(file_path@), version_id, 0) {
                Some(i) => r == Some(&self.history(file_path@)[i]),
                None => r is None,
            },
    {
        match self.find_file(file_path) {
            Some(f) => {
                let h = &self.records[f].1;
                let mut i: usize = 0;
                while i < h.len()
                    invariant
                        i <= h@.len(),
                        h@ == self.history(file_path@),
                        version_index(h@, version_id, 0) == version_index(h@, version_id, i as int),
                    decreases h@.len() - i,
                {
                    if h[i].info.version_id == version_id {
                        return Some(&h[i]);
                    }
                    i = i + 1;
                }
                None
            },
            None => None,
        }
    }

    /// The latest version of `file_path`.
    pub fn get_latest_version(&self, file_path: &str) -> (r: Option<&VersionRecord>)
        ensures
            if self.history(file_path@).len() == 0 {
                r is None
            } else {
                r == Some(&self.history(file_path@).last())
            },
    {
        match self.find_file(file_path) {
            Some(f) => {
                let h = &self.records[f].1;
                if h.len() == 0 {
                    None
                } else {
                    Some(&h[h.len() - 1])
                }
            },
            None => None,
        }
    }

    /// What is known of each version of `file_path`, oldest first.
    pub fn get_version_history(&self, file_path: &str) -> (r: Vec<&VersionInfo>)
        ensures
            r@.len() == self.history(file_path@).len(),
            forall|i: int| 0 <= i < r@.len() ==> *(#[trigger] r@[i]) == self.history(file_path@)[i].info,
    {
        let mut r: Vec<&VersionInfo> = Vec::new();
        match self.find_file(file_path) {
            Some(f) => {
                let h = &self.records[f].1;
                let mut i: usize = 0;
                while i < h.len()
                    invariant
                        i <= h@.len(),
                        h@ == self.history(file_path@),
                        r@.len() == i,
                        forall|k: int| 0 <= k < i ==> *(#[trigger] r@[k]) == h@[k].info,
                    decreases h@.len() - i,
                {
                    r.push(&h[i].info);
                    i = i + 1;
                }
            },
            None => {},
        }
        r
    }

    /// How many versions of `file_path` there are.
    pub fn get_version_count(&self, file_path: &str) -> (n: usize)
        ensures
            n == self.history(file_path@).len(),
    {
        match self.find_file(file_path) {
            Some(f) => self.records[f].1.len(),
            None => 0,
        }
    }

    /// The line difference from version `version_a` to `version_b`; an error
    /// names the first of the two that is missing.
    pub fn compare_versions(&self, file_path: &str, version_a: u64, version_b: u64) -> (r: Result<VersionDiff, String>)
        ensures
            match (version_index(self.history(file_path@), version_a, 0), version_index(self.history(file_path@), version_b, 0)) {
                (None, _) => r matches Err(m) && m@ == "Version "@ + decimal_digits(version_a as nat) + " not found"@,
                (Some(_), None) => r matches Err(m) && m@ == "Version "@ + decimal_digits(version_b as nat) + " not found"@,
                (Some(i), Some(j)) => r matches Ok(d) && d.version_a == version_a && d.version_b == version_b && d.diff@
                    == diff_text(self.history(file_path@)[i].content@, self.history(file_path@)[j].content@),
            },
    {
        let a = match self.get_version(file_path, version_a) {
            Some(x) => x,
            None => {
                let mut m = String::new();
                m.push_str("Version ");
                push_decimal(&mut m, version_a);
                m.push_str(" not found");
                return Err(m);
            },
        };
        let b = match self.get_version(file_path, version_b) {
            Some(x) => x,
            None => {
                let mut m = String::new();
                m.push_str("Version ");
                push_decimal(&mut m, version_b);
                m.push_str(" not found");
                return Err(m);
            },
        };
        let diff = compute_diff(a.content.as_str(), b.content.as_str());
        Ok(VersionDiff { version_a, version_b, diff })
    }
}

impl Default for VersionManager {
    fn default() -> (m: Self)
        ensures
            m.next_id() == 1,
            m.storage() is None,
            forall|k: Seq<char>| #[trigger] m.history(k).len() == 0,
    {
        Self::new()
    }
}

proof fn lemma_file_index_same_keys(a: Seq<(String, Vec<VersionRecord>)>, b: Seq<(String, Vec<VersionRecord>)>, q: Seq<char>, i: int)
    requires
        a.len() == b.len(),
        forall|k: int| 0 <= k < a.len() ==> (#[trigger] a[k]).0@ == b[k].0@,
    ensures
        file_index(a, q, i) == file_index(b, q, i),
    decreases a.len() - i,
{
    if 0 <= i < a.len() {
        lemma_file_index_same_keys(a, b, q, i + 1);
    }
}

proof fn lemma_file_index_push(a: Seq<(String, Vec<VersionRecord>)>, b: Seq<(String, Vec<VersionRecord>)>, q: Seq<char>, key: Seq<char>, i: int)
    requires
        b.len() == a.len() + 1,
        forall|k: int| 0 <= k < a.len() ==> (#[trigger] b[k]) == a[k],
        b[a.len() as int].0@ == key,
        q != key,
        0 <= i,
    ensures
        file_index(b, q, i) == file_index(a, q, i),
    decreases b.len() - i,
{
    if i < a.len() {
        lemma_file_index_push(a, b, q, key, i + 1);
    } else if i == a.len() {
        assert(file_index(b, q, i + 1) is None);
    }
}

proof fn lemma_file_index_found(rs: Seq<(String, Vec<VersionRecord>)>, q: Seq<char>, i: int)
    requires
        0 <= i,
    ensures
        file_index(rs, q, i) matches Some(j) ==> i <= j < rs.len() && rs[j].0@ == q,
    decreases rs.len() - i,
{
    if i < rs.len() && rs[i].0@ != q {
        lemma_file_index_found(rs, q, i + 1);
    }
}

proof fn lemma_file_index_push_found(a: Seq<(String, Vec<VersionRecord>)>, b: Seq<(String, Vec<VersionRecord>)>, key: Seq<char>, i: int)
    requires
        b.len() == a.len() + 1,
        forall|k: int| 0 <= k < a.len() ==> (#[trigger] b[k]) == a[k],
        b[a.len() as int].0@ == key,
        0 <= i <= a.len(),
        file_index(a, key, i) is None,
    ensures
        file_index(b, key, i) == Some(a.len() as int),
    decreases b.len() - i,
{
    if i < a.len() {
        lemma_file_index_push_found(a, b, key, i + 1);
    }
}

} // verus!
