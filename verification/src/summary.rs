//! The persisted per-project summary: the ordered scan history and the ledger
//! of monitored files, together with the scan-and-diff engine that updates it
//! and the activity report read from it.
//!
//! Timestamps throughout are seconds since the Unix epoch.
use vstd::prelude::*;
use vstd::string::*;
use crate::MonitorError;
use crate::history::EventType;
use crate::model::Project;
use crate::order::lemma_seq_lt_total;
use crate::order::lemma_seq_le_transitive;
use crate::order::seq_le;
use crate::order::seq_lt;
use crate::order::key_lt;
use crate::order::str_eq;

verus! {

/// One ledger entry: when the file first appeared after the baseline, when it
/// was last seen edited or generated, and how often each happened.
#[derive(Debug, PartialEq, Eq)]
pub struct MonitoredFile {
    pub subfolder: String,
    pub name: String,
    pub time_added: Option<i64>,
    pub time_latest_edit: Option<i64>,
    pub time_latest_gen: Option<i64>,
    pub gen_count: usize,
    pub edit_count: usize,
}

/// The mathematical content of a ledger entry.
pub struct FileRecord {
    pub subfolder: Seq<char>,
    pub name: Seq<char>,
    pub time_added: Option<i64>,
    pub time_latest_edit: Option<i64>,
    pub time_latest_gen: Option<i64>,
    pub gen_count: int,
    pub edit_count: int,
}

impl View for MonitoredFile {
    type V = FileRecord;

    open spec fn view(&self) -> FileRecord {
        FileRecord {
            subfolder: self.subfolder@,
            name: self.name@,
            time_added: self.time_added,
            time_latest_edit: self.time_latest_edit,
            time_latest_gen: self.time_latest_gen,
            gen_count: self.gen_count as int,
            edit_count: self.edit_count as int,
        }
    }
}

/// The composite identity under which a file is tracked.
pub open spec fn key_of(subfolder: Seq<char>, name: Seq<char>) -> Seq<char> {
    subfolder + seq!['/'] + name
}

impl FileRecord {
    pub open spec fn key(self) -> Seq<char> {
        key_of(self.subfolder, self.name)
    }
}

/// The audit record of one completed scan.
#[derive(Clone, Copy, Debug, PartialEq, Eq, Structural)]
pub struct SummaryScan {
    pub time: i64,
    pub is_gen: bool,
    pub checked_file_count: usize,
    pub changed_file_count: usize,
}

impl SummaryScan {
    pub fn new(time: i64, is_gen: bool, checked_file_count: usize, changed_file_count: usize) -> (r: Self)
        ensures
            r == (SummaryScan { time, is_gen, checked_file_count, changed_file_count }),
    {
        SummaryScan { time, is_gen, checked_file_count, changed_file_count }
    }
}

/// A file as one scan pass saw it on disk.
#[derive(Debug, PartialEq, Eq)]
pub struct ObservedFile {
    pub subfolder: String,
    pub name: String,
    pub modified_time: i64,
}

/// The mathematical content of an observation.
pub struct ObservedRecord {
    pub subfolder: Seq<char>,
    pub name: Seq<char>,
    pub modified_time: i64,
}

impl View for ObservedFile {
    type V = ObservedRecord;

    open spec fn view(&self) -> ObservedRecord {
        ObservedRecord { subfolder: self.subfolder@, name: self.name@, modified_time: self.modified_time }
    }
}

impl ObservedRecord {
    pub open spec fn key(self) -> Seq<char> {
        key_of(self.subfolder, self.name)
    }
}

pub open spec fn obs_records(s: Seq<ObservedFile>) -> Seq<ObservedRecord> {
    s.map_values(|o: ObservedFile| o@)
}

/// The persisted aggregate for one project.
#[derive(Debug, PartialEq, Eq)]
pub struct Summary {
    pub project_name: String,
    pub scans: Vec<SummaryScan>,
    pub files: Vec<MonitoredFile>,
}

pub open spec fn keys_distinct(s: Seq<FileRecord>) -> bool {
    forall|i: int, j: int| 0 <= i < j < s.len() ==> s[i].key() != s[j].key()
}

/// The ledger a sequence of entries stands for: each key maps to the last
/// entry carrying it.
pub open spec fn map_of_records(s: Seq<FileRecord>) -> Map<Seq<char>, FileRecord>
    decreases s.len(),
{
    if s.len() == 0 {
        Map::empty()
    } else {
        map_of_records(s.drop_last()).insert(s.last().key(), s.last())
    }
}

impl Summary {
    pub open spec fn file_records(&self) -> Seq<FileRecord> {
        self.files@.map_values(|f: MonitoredFile| f@)
    }

    /// Well-formed: no two ledger entries share a key.
    pub open spec fn wf(&self) -> bool {
        keys_distinct(self.file_records())
    }

    /// The ledger as a mapping from key to entry.
    pub open spec fn files_map(&self) -> Map<Seq<char>, FileRecord> {
        map_of_records(self.file_records())
    }

    /// The baseline the next scan diffs against: the time of the most recent
    /// recorded scan, if any scan was recorded.
    pub open spec fn previous_scan_time(&self) -> Option<i64> {
        if self.scans@.len() == 0 {
            None
        } else {
            Some(self.scans@.last().time)
        }
    }
}

proof fn lemma_keys_distinct_prefix(s: Seq<FileRecord>)
    requires
        s.len() > 0,
        keys_distinct(s),
    ensures
        keys_distinct(s.drop_last()),
{
    assert forall|i: int, j: int|
        0 <= i < j < s.drop_last().len() implies s.drop_last()[i].key() != s.drop_last()[j].key() by {
        assert(s.drop_last()[i] == s[i]);
        assert(s.drop_last()[j] == s[j]);
    }
}

/// A key is in the ledger map exactly when some entry carries it.
pub proof fn lemma_map_of_records_contains(s: Seq<FileRecord>, k: Seq<char>)
    ensures
        map_of_records(s).contains_key(k) <==> exists|i: int| 0 <= i < s.len() && s[i].key() == k,
    decreases s.len(),
{
    if s.len() > 0 {
        let prefix = s.drop_last();
        lemma_map_of_records_contains(prefix, k);
        if map_of_records(s).contains_key(k) {
            if k == s.last().key() {
                assert(s[s.len() - 1].key() == k);
            } else {
                let i = choose|i: int| 0 <= i < prefix.len() && prefix[i].key() == k;
                assert(s[i] == prefix[i]);
                assert(s[i].key() == k);
            }
        }
        if exists|i: int| 0 <= i < s.len() && s[i].key() == k {
            let i = choose|i: int| 0 <= i < s.len() && s[i].key() == k;
            if i == s.len() - 1 {
                assert(map_of_records(s).contains_key(s.last().key()));
            } else {
                assert(prefix[i] == s[i]);
                assert(prefix[i].key() == k);
            }
        }
    }
}

/// With distinct keys, the ledger map sends each entry's key to that entry.
pub proof fn lemma_map_of_records_index(s: Seq<FileRecord>, i: int)
    requires
        keys_distinct(s),
        0 <= i < s.len(),
    ensures
        map_of_records(s).contains_key(s[i].key()),
        map_of_records(s)[s[i].key()] == s[i],
    decreases s.len(),
{
    if i == s.len() - 1 {
        assert(s.last() == s[i]);
    } else {
        lemma_keys_distinct_prefix(s);
        assert(s.drop_last()[i] == s[i]);
        lemma_map_of_records_index(s.drop_last(), i);
        assert(s.last().key() != s[i].key());
    }
}

/// Appending an entry inserts it into the ledger map.
pub proof fn lemma_map_of_records_push(s: Seq<FileRecord>, f: FileRecord)
    ensures
        map_of_records(s.push(f)) == map_of_records(s).insert(f.key(), f),
{
    assert(s.push(f).drop_last() =~= s);
    assert(s.push(f).last() == f);
}

/// Replacing an entry by one with the same key updates the ledger map at that
/// key.
pub proof fn lemma_map_of_records_update(s: Seq<FileRecord>, i: int, f: FileRecord)
    requires
        keys_distinct(s),
        0 <= i < s.len(),
        f.key() == s[i].key(),
    ensures
        map_of_records(s.update(i, f)) == map_of_records(s).insert(f.key(), f),
    decreases s.len(),
{
    let t = s.update(i, f);
    if i == s.len() - 1 {
        assert(t.drop_last() =~= s.drop_last());
        assert(t.last() == f);
        assert(map_of_records(s.drop_last()).insert(s.last().key(), s.last()).insert(f.key(), f)
            =~= map_of_records(s.drop_last()).insert(f.key(), f));
    } else {
        lemma_keys_distinct_prefix(s);
        assert(t.drop_last() =~= s.drop_last().update(i, f));
        assert(t.last() == s.last());
        assert(s.drop_last()[i] == s[i]);
        lemma_map_of_records_update(s.drop_last(), i, f);
        assert(s.last().key() != f.key());
        assert(map_of_records(s.drop_last()).insert(f.key(), f).insert(s.last().key(), s.last())
            =~= map_of_records(s.drop_last()).insert(s.last().key(), s.last()).insert(f.key(), f));
    }
}

/// Replacing an entry by one with the same key keeps keys distinct.
proof fn lemma_keys_distinct_update(s: Seq<FileRecord>, i: int, f: FileRecord)
    requires
        keys_distinct(s),
        0 <= i < s.len(),
        f.key() == s[i].key(),
    ensures
        keys_distinct(s.update(i, f)),
{
    let t = s.update(i, f);
    assert forall|x: int, y: int| 0 <= x < y < t.len() implies t[x].key() != t[y].key() by {
        assert(s[x].key() != s[y].key());
    }
}

/// Appending an entry under a key nothing carries keeps keys distinct.
proof fn lemma_keys_distinct_push(s: Seq<FileRecord>, f: FileRecord)
    requires
        keys_distinct(s),
        forall|i: int| 0 <= i < s.len() ==> (#[trigger] s[i]).key() != f.key(),
    ensures
        keys_distinct(s.push(f)),
{
    let t = s.push(f);
    assert forall|x: int, y: int| 0 <= x < y < t.len() implies t[x].key() != t[y].key() by {
        if y < s.len() {
            assert(s[x].key() != s[y].key());
        } else {
            assert(t[y] == f);
            assert(s[x].key() != f.key());
        }
    }
}

impl MonitoredFile {
    /// A ledger entry as the bootstrap scan registers it: identity only, no
    /// change recorded yet.
    pub fn new(subfolder: &str, name: &str) -> (r: Self)
        ensures
            r@.subfolder == subfolder@,
            r@.name == name@,
            r@.time_added is None,
            r@.time_latest_edit is None,
            r@.time_latest_gen is None,
            r@.gen_count == 0,
            r@.edit_count == 0,
    {
        MonitoredFile {
            subfolder: subfolder.to_owned(),
            name: name.to_owned(),
            time_added: None,
            time_latest_edit: None,
            time_latest_gen: None,
            gen_count: 0,
            edit_count: 0,
        }
    }

    /// The composite identity under which a file is tracked, stable across
    /// restarts.
    pub fn make_key(subfolder: &str, name: &str) -> (r: String)
        ensures
            r@ == key_of(subfolder@, name@),
    {
        proof {
            reveal_strlit("/");
        }
        let mut s = subfolder.to_owned();
        s.append("/");
        s.append(name);
        proof {
            assert(seq!['/'] =~= "/"@);
            assert(s@ =~= key_of(subfolder@, name@));
        }
        s
    }

    pub fn get_key(&self) -> (r: String)
        ensures
            r@ == self@.key(),
    {
        Self::make_key(self.subfolder.as_str(), self.name.as_str())
    }

    /// An equal, independently owned copy of this entry.
    pub fn duplicate(&self) -> (r: Self)
        ensures
            r == *self,
    {
        MonitoredFile {
            subfolder: self.subfolder.clone(),
            name: self.name.clone(),
            time_added: self.time_added,
            time_latest_edit: self.time_latest_edit,
            time_latest_gen: self.time_latest_gen,
            gen_count: self.gen_count,
            edit_count: self.edit_count,
        }
    }
}

/// The entry the bootstrap scan registers for an observation: identity only.
pub open spec fn bootstrap_record(e: ObservedRecord) -> FileRecord {
    FileRecord {
        subfolder: e.subfolder,
        name: e.name,
        time_added: None,
        time_latest_edit: None,
        time_latest_gen: None,
        gen_count: 0,
        edit_count: 0,
    }
}

/// The entry registered for a file first seen after the baseline: its
/// addition time is the observed modification time.
pub open spec fn added_record(e: ObservedRecord) -> FileRecord {
    FileRecord {
        subfolder: e.subfolder,
        name: e.name,
        time_added: Some(e.modified_time),
        time_latest_edit: None,
        time_latest_gen: None,
        gen_count: 0,
        edit_count: 0,
    }
}

/// A known entry after a change is recorded against it: under a generation
/// pass the generation side advances, otherwise the edit side; the other side
/// is untouched.
pub open spec fn change_recorded(f: FileRecord, t: i64, is_gen: bool) -> FileRecord {
    if is_gen {
        FileRecord {
            subfolder: f.subfolder,
            name: f.name,
            time_added: f.time_added,
            time_latest_edit: f.time_latest_edit,
            time_latest_gen: Some(t),
            gen_count: f.gen_count + 1,
            edit_count: f.edit_count,
        }
    } else {
        FileRecord {
            subfolder: f.subfolder,
            name: f.name,
            time_added: f.time_added,
            time_latest_edit: Some(t),
            time_latest_gen: f.time_latest_gen,
            gen_count: f.gen_count,
            edit_count: f.edit_count + 1,
        }
    }
}

/// Whether one observation counts as a change: only against a baseline, and
/// only when the file is strictly newer than it.
pub open spec fn counts_as_changed(e: ObservedRecord, prev: Option<i64>) -> bool {
    prev is Some && e.modified_time > prev->0
}

/// The ledger after one observation is processed.
pub open spec fn apply_observed(
    m: Map<Seq<char>, FileRecord>,
    e: ObservedRecord,
    prev: Option<i64>,
    is_gen: bool,
) -> Map<Seq<char>, FileRecord> {
    match prev {
        None => m.insert(e.key(), bootstrap_record(e)),
        Some(p) => {
            if e.modified_time > p {
                if m.contains_key(e.key()) {
                    m.insert(e.key(), change_recorded(m[e.key()], e.modified_time, is_gen))
                } else {
                    m.insert(e.key(), added_record(e))
                }
            } else {
                m
            }
        },
    }
}

/// The ledger after a whole scan pass, observation by observation.
pub open spec fn scan_result_map(
    m: Map<Seq<char>, FileRecord>,
    obs: Seq<ObservedRecord>,
    prev: Option<i64>,
    is_gen: bool,
) -> Map<Seq<char>, FileRecord>
    decreases obs.len(),
{
    if obs.len() == 0 {
        m
    } else {
        scan_result_map(apply_observed(m, obs[0], prev, is_gen), obs.drop_first(), prev, is_gen)
    }
}

/// How many observations of a scan pass count as changes.
pub open spec fn changed_count(obs: Seq<ObservedRecord>, prev: Option<i64>) -> int
    decreases obs.len(),
{
    if obs.len() == 0 {
        0
    } else {
        (if counts_as_changed(obs[0], prev) {
            1int
        } else {
            0int
        }) + changed_count(obs.drop_first(), prev)
    }
}

pub proof fn lemma_changed_count_bounds(obs: Seq<ObservedRecord>, prev: Option<i64>)
    ensures
        0 <= changed_count(obs, prev) <= obs.len(),
    decreases obs.len(),
{
    if obs.len() > 0 {
        lemma_changed_count_bounds(obs.drop_first(), prev);
    }
}

/// The first ledger entry carrying the key, if any does.
fn find_file_index(files: &Vec<MonitoredFile>, key: &String) -> (r: Option<usize>)
    ensures
        match r {
            Some(i) => i < files@.len() && files@[i as int]@.key() == key@,
            None => forall|i: int| 0 <= i < files@.len() ==> (#[trigger] files@[i])@.key() != key@,
        },
{
    let mut i: usize = 0;
    while i < files.len()
        invariant
            i <= files@.len(),
            forall|j: int| 0 <= j < i ==> (#[trigger] files@[j])@.key() != key@,
        decreases files@.len() - i,
    {
        let fk = MonitoredFile::make_key(files[i].subfolder.as_str(), files[i].name.as_str());
        if fk == *key {
            return Some(i);
        }
        i = i + 1;
    }
    None
}

impl Summary {
    /// A fresh, empty summary bound to the project.
    pub fn new(project_name: &str) -> (r: Self)
        ensures
            r.project_name@ == project_name@,
            r.scans@.len() == 0,
            r.files@.len() == 0,
            r.wf(),
            r.files_map() == Map::<Seq<char>, FileRecord>::empty(),
            r.previous_scan_time() is None,
    {
        let s = Summary {
            project_name: project_name.to_owned(),
            scans: Vec::new(),
            files: Vec::new(),
        };
        proof {
            assert(s.file_records() =~= Seq::<FileRecord>::empty());
        }
        s
    }

    /// Whether every ledger counter can still absorb `n` more increments
    /// without reaching the machine limit.
    pub open spec fn counters_have_headroom(&self, n: int) -> bool {
        forall|j: int|
            0 <= j < self.files@.len() ==> (#[trigger] self.files@[j]).edit_count + n
                <= usize::MAX && self.files@[j].gen_count + n <= usize::MAX
    }

    /// Decides `counters_have_headroom`, so a caller can test it before a
    /// scan.
    pub fn check_counter_headroom(&self, n: usize) -> (r: bool)
        ensures
            r == self.counters_have_headroom(n as int),
    {
        let mut i: usize = 0;
        while i < self.files.len()
            invariant
                i <= self.files@.len(),
                forall|j: int|
                    0 <= j < i ==> (#[trigger] self.files@[j]).edit_count + n as int <= usize::MAX
                        && self.files@[j].gen_count + n as int <= usize::MAX,
            decreases self.files@.len() - i,
        {
            if self.files[i].edit_count > usize::MAX - n || self.files[i].gen_count > usize::MAX
                - n {
                return false;
            }
            i = i + 1;
        }
        true
    }

    /// One scan pass over the files observed on disk, against the baseline of
    /// the most recent recorded scan: counts every observation, counts and
    /// records as changed those strictly newer than the baseline, and appends
    /// the audit record of the pass.
    pub fn scan_self(&mut self, observed: &Vec<ObservedFile>, is_gen: bool, scan_time: i64)
        requires
            old(self).wf(),
            old(self).counters_have_headroom(observed@.len() as int),
        ensures
            final(self).wf(),
            final(self).project_name == old(self).project_name,
            final(self).files_map() == scan_result_map(
                old(self).files_map(),
                obs_records(observed@),
                old(self).previous_scan_time(),
                is_gen,
            ),
            final(self).scans@ == old(self).scans@.push(
                (SummaryScan {
                    time: scan_time,
                    is_gen: is_gen,
                    checked_file_count: observed@.len() as usize,
                    changed_file_count: changed_count(
                        obs_records(observed@),
                        old(self).previous_scan_time(),
                    ) as usize,
                }),
            ),
            final(self).previous_scan_time() == Some(scan_time),
    {
        let ghost obs = obs_records(observed@);
        let ghost prev = old(self).previous_scan_time();
        let ghost m0 = old(self).files_map();
        let ghost total = scan_result_map(m0, obs, prev, is_gen);
        let ghost name0 = self.project_name;
        let ghost scans0 = self.scans;
        proof {
            lemma_changed_count_bounds(obs, prev);
            assert(obs.skip(0) =~= obs);
        }
        let previous_scan_time: Option<i64> = if self.scans.len() == 0 {
            None
        } else {
            Some(self.scans[self.scans.len() - 1].time)
        };
        let mut checked_file_count: usize = 0;
        let mut changed_file_count: usize = 0;
        let mut idx: usize = 0;
        while idx < observed.len()
            invariant
                idx <= observed@.len(),
                obs == obs_records(observed@),
                obs.len() == observed@.len(),
                previous_scan_time == prev,
                self.project_name == name0,
                self.scans == scans0,
                self.wf(),
                checked_file_count == idx,
                changed_file_count <= idx,
                changed_file_count + changed_count(obs.skip(idx as int), prev) == changed_count(
                    obs,
                    prev,
                ),
                scan_result_map(self.files_map(), obs.skip(idx as int), prev, is_gen) == total,
                forall|j: int|
                    0 <= j < self.files@.len() ==> (#[trigger] self.files@[j]).edit_count + (
                    obs.len() - idx) <= usize::MAX && self.files@[j].gen_count + (obs.len() - idx)
                        <= usize::MAX,
            decreases observed@.len() - idx,
        {
            let ghost m_before = self.files_map();
            let ghost e = obs[idx as int];
            let entry = &observed[idx];
            proof {
                assert(entry@ == e);
                assert(obs.skip(idx as int)[0] == e);
            }
            checked_file_count = checked_file_count + 1;
            let key = MonitoredFile::make_key(entry.subfolder.as_str(), entry.name.as_str());
            proof {
                assert(key@ == e.key());
            }
            match previous_scan_time {
                Some(p) => {
                    if entry.modified_time > p {
                        changed_file_count = changed_file_count + 1;
                        match find_file_index(&self.files, &key) {
                            Some(i) => {
                                proof {
                                    lemma_map_of_records_index(self.file_records(), i as int);
                                }
                                let updated = MonitoredFile {
                                    subfolder: self.files[i].subfolder.clone(),
                                    name: self.files[i].name.clone(),
                                    time_added: self.files[i].time_added,
                                    time_latest_edit: if is_gen {
                                        self.files[i].time_latest_edit
                                    } else {
                                        Some(entry.modified_time)
                                    },
                                    time_latest_gen: if is_gen {
                                        Some(entry.modified_time)
                                    } else {
                                        self.files[i].time_latest_gen
                                    },
                                    gen_count: if is_gen {
                                        self.files[i].gen_count + 1
                                    } else {
                                        self.files[i].gen_count
                                    },
                                    edit_count: if is_gen {
                                        self.files[i].edit_count
                                    } else {
                                        self.files[i].edit_count + 1
                                    },
                                };
                                proof {
                                    assert(updated@ == change_recorded(
                                        m_before[e.key()],
                                        e.modified_time,
                                        is_gen,
                                    ));
                                    lemma_map_of_records_update(
                                        self.file_records(),
                                        i as int,
                                        updated@,
                                    );
                                }
                                let ghost records_before = self.file_records();
                                self.files[i] = updated;
                                proof {
                                    assert(self.file_records() =~= records_before.update(
                                        i as int,
                                        updated@,
                                    ));
                                    lemma_keys_distinct_update(records_before, i as int, updated@);
                                    assert(self.wf());
                                    assert(self.files_map() == apply_observed(
                                        m_before,
                                        e,
                                        prev,
                                        is_gen,
                                    ));
                                }
                            },
                            None => {
                                proof {
                                    lemma_map_of_records_contains(self.file_records(), e.key());
                                }
                                let mut added = MonitoredFile::new(
                                    entry.subfolder.as_str(),
                                    entry.name.as_str(),
                                );
                                added.time_added = Some(entry.modified_time);
                                proof {
                                    assert(added@ == added_record(e));
                                }
                                let ghost records_before = self.file_records();
                                proof {
                                    assert forall|q: int| 0 <= q < records_before.len() implies (
                                    #[trigger] records_before[q]).key() != added@.key() by {
                                        assert(records_before[q] == self.files@[q]@);
                                    }
                                }
                                self.files.push(added);
                                proof {
                                    assert(self.file_records() =~= records_before.push(added@));
                                    lemma_keys_distinct_push(records_before, added@);
                                    assert(self.wf());
                                    lemma_map_of_records_push(records_before, added@);
                                    assert(self.files_map() == apply_observed(
                                        m_before,
                                        e,
                                        prev,
                                        is_gen,
                                    ));
                                }
                            },
                        }
                    }
                },
                None => {
                    // The bootstrap scan has no baseline: the file is only
                    // registered, never counted as changed.
                    let fresh = MonitoredFile::new(entry.subfolder.as_str(), entry.name.as_str());
                    proof {
                        assert(fresh@ == bootstrap_record(e));
                    }
                    match find_file_index(&self.files, &key) {
                        Some(i) => {
                            proof {
                                lemma_map_of_records_update(self.file_records(), i as int, fresh@);
                            }
                            let ghost records_before = self.file_records();
                            self.files[i] = fresh;
                            proof {
                                assert(self.file_records() =~= records_before.update(
                                    i as int,
                                    fresh@,
                                ));
                                lemma_keys_distinct_update(records_before, i as int, fresh@);
                                assert(self.wf());
                                assert(self.files_map() == apply_observed(m_before, e, prev, is_gen));
                            }
                        },
                        None => {
                            proof {
                                lemma_map_of_records_contains(self.file_records(), e.key());
                            }
                            let ghost records_before = self.file_records();
                            proof {
                                assert forall|q: int| 0 <= q < records_before.len() implies (
                                #[trigger] records_before[q]).key() != fresh@.key() by {
                                    assert(records_before[q] == self.files@[q]@);
                                }
                            }
                            self.files.push(fresh);
                            proof {
                                assert(self.file_records() =~= records_before.push(fresh@));
                                lemma_keys_distinct_push(records_before, fresh@);
                                assert(self.wf());
                                lemma_map_of_records_push(records_before, fresh@);
                                assert(self.files_map() == apply_observed(m_before, e, prev, is_gen));
                            }
                        },
                    }
                },
            }
            proof {
                assert(obs.skip(idx as int).drop_first() =~= obs.skip(idx as int + 1));
            }
            idx = idx + 1;
        }
        proof {
            assert(obs.skip(obs.len() as int) =~= Seq::<ObservedRecord>::empty());
            assert(self.files_map() == total);
            assert(changed_file_count == changed_count(obs, prev));
        }
        let scan = SummaryScan::new(scan_time, is_gen, checked_file_count, changed_file_count);
        self.scans.push(scan);
    }
}

/// The most notable recent event of a ledger entry: a recorded addition always
/// wins; otherwise the strictly later of the latest generation and the latest
/// edit, the edit winning a tie; nothing if no event was recorded.
pub open spec fn latest_event(f: FileRecord) -> Option<(i64, EventType)> {
    match f.time_added {
        Some(t) => Some((t, EventType::Add)),
        None => match (f.time_latest_edit, f.time_latest_gen) {
            (Some(te), Some(tg)) => if tg > te {
                Some((tg, EventType::Gen))
            } else {
                Some((te, EventType::Edit))
            },
            (Some(te), None) => Some((te, EventType::Edit)),
            (None, Some(tg)) => Some((tg, EventType::Gen)),
            (None, None) => None,
        },
    }
}

impl MonitoredFile {
    /// The entry's most notable recent event, with its time and kind.
    pub fn get_time_latest(&self) -> (r: Option<(i64, EventType)>)
        ensures
            r == latest_event(self@),
    {
        match self.time_added {
            Some(t) => Some((t, EventType::Add)),
            None => match (self.time_latest_edit, self.time_latest_gen) {
                (Some(te), Some(tg)) => if tg > te {
                    Some((tg, EventType::Gen))
                } else {
                    Some((te, EventType::Edit))
                },
                (Some(te), None) => Some((te, EventType::Edit)),
                (None, Some(tg)) => Some((tg, EventType::Gen)),
                (None, None) => None,
            },
        }
    }
}

impl Summary {
    /// Whether this summary may serve as the loaded state of the named
    /// project: the identity matches and the ledger keys are unique.
    pub open spec fn acceptable_for(&self, project_name: Seq<char>) -> bool {
        self.project_name@ == project_name && self.wf()
    }

    /// An equal, independently owned copy: the scan history and the ledger
    /// carry the same values entry for entry.
    pub fn duplicate(&self) -> (r: Self)
        ensures
            r.project_name@ == self.project_name@,
            r.scans@ == self.scans@,
            r.files@ == self.files@,
            r.file_records() == self.file_records(),
            r.files_map() == self.files_map(),
            r.previous_scan_time() == self.previous_scan_time(),
            r.wf() == self.wf(),
    {
        let mut scans: Vec<SummaryScan> = Vec::new();
        let mut i: usize = 0;
        while i < self.scans.len()
            invariant
                i <= self.scans@.len(),
                scans@ == self.scans@.take(i as int),
            decreases self.scans@.len() - i,
        {
            scans.push(self.scans[i]);
            proof {
                assert(self.scans@.take(i as int).push(self.scans@[i as int]) =~= self.scans@.take(
                    i as int + 1,
                ));
            }
            i = i + 1;
        }
        let mut files: Vec<MonitoredFile> = Vec::new();
        let mut j: usize = 0;
        while j < self.files.len()
            invariant
                j <= self.files@.len(),
                files@ == self.files@.take(j as int),
            decreases self.files@.len() - j,
        {
            files.push(self.files[j].duplicate());
            proof {
                assert(self.files@.take(j as int).push(self.files@[j as int]) =~= self.files@.take(
                    j as int + 1,
                ));
            }
            j = j + 1;
        }
        let r = Summary { project_name: self.project_name.clone(), scans, files };
        proof {
            assert(self.scans@.take(self.scans@.len() as int) =~= self.scans@);
            assert(self.files@.take(self.files@.len() as int) =~= self.files@);
            assert(r.file_records() =~= self.file_records());
        }
        r
    }

    /// Accepts a loaded summary for the named project, or reports it corrupt:
    /// corrupt exactly when the stored identity differs from the expected one
    /// or two ledger entries share a key.
    pub fn into_validated(self, project_name: &str) -> (r: Result<Summary, MonitorError>)
        ensures
            self.acceptable_for(project_name@) ==> r == Result::<Summary, MonitorError>::Ok(self),
            !self.acceptable_for(project_name@) ==> r == Result::<Summary, MonitorError>::Err(
                MonitorError::CorruptState,
            ),
    {
        if !str_eq(self.project_name.as_str(), project_name) {
            return Err(MonitorError::CorruptState);
        }
        let mut i: usize = 0;
        while i < self.files.len()
            invariant
                i <= self.files@.len(),
                forall|x: int, y: int|
                    0 <= x < y < self.files@.len() && x < i ==> self.file_records()[x].key()
                        != self.file_records()[y].key(),
            decreases self.files@.len() - i,
        {
            let key_i = self.files[i].get_key();
            let mut j: usize = i + 1;
            while j < self.files.len()
                invariant
                    i < j || j == i + 1,
                    i < self.files@.len(),
                    j <= self.files@.len(),
                    i + 1 <= j,
                    key_i@ == self.file_records()[i as int].key(),
                    forall|y: int|
                        i < y < j ==> self.file_records()[i as int].key()
                            != self.file_records()[y].key(),
                decreases self.files@.len() - j,
            {
                let key_j = self.files[j].get_key();
                if key_i == key_j {
                    proof {
                        assert(self.file_records()[i as int].key() == self.file_records()[
                            j as int].key());
                        if keys_distinct(self.file_records()) {
                            assert(self.file_records()[i as int].key() != self.file_records()[
                                j as int].key());
                        }
                    }
                    return Err(MonitorError::CorruptState);
                }
                j = j + 1;
            }
            i = i + 1;
        }
        Ok(self)
    }
}

/// One line of the activity report: a ledger key, with the time and the kind
/// of the file's most notable recent event.
#[derive(Debug, PartialEq, Eq)]
pub struct ActivityEntry {
    pub key: String,
    pub time: i64,
    pub label: EventType,
}

/// The mathematical content of a report line.
pub struct ActivityRecord {
    pub key: Seq<char>,
    pub time: i64,
    pub label: EventType,
}

impl View for ActivityEntry {
    type V = ActivityRecord;

    open spec fn view(&self) -> ActivityRecord {
        ActivityRecord { key: self.key@, time: self.time, label: self.label }
    }
}

pub open spec fn entry_views(s: Seq<ActivityEntry>) -> Seq<ActivityRecord> {
    s.map_values(|e: ActivityEntry| e@)
}

/// Whether a ledger entry belongs in a report with the given cutoff: its
/// latest event exists and is not older than the cutoff.
pub open spec fn qualifies(f: FileRecord, cutoff: int) -> bool {
    match latest_event(f) {
        Some(e) => e.0 >= cutoff,
        None => false,
    }
}

pub open spec fn activity_record(f: FileRecord) -> ActivityRecord {
    let e = latest_event(f)->0;
    ActivityRecord { key: f.key(), time: e.0, label: e.1 }
}

/// The report lines of the qualifying ledger entries, in ledger order.
pub open spec fn activity_of(s: Seq<FileRecord>, cutoff: int) -> Seq<ActivityRecord>
    decreases s.len(),
{
    if s.len() == 0 {
        Seq::empty()
    } else if qualifies(s[0], cutoff) {
        seq![activity_record(s[0])] + activity_of(s.drop_first(), cutoff)
    } else {
        activity_of(s.drop_first(), cutoff)
    }
}

pub open spec fn sorted_by_key(s: Seq<ActivityRecord>) -> bool {
    forall|i: int, j: int| 0 <= i < j < s.len() ==> seq_le(s[i].key, s[j].key)
}

/// Collects the report lines of `activity_of`, in ledger order.
fn collect_activity(files: &Vec<MonitoredFile>, cutoff: i64) -> (r: Vec<ActivityEntry>)
    ensures
        entry_views(r@) == activity_of(
            files@.map_values(|f: MonitoredFile| f@),
            cutoff as int,
        ),
{
    let ghost records = files@.map_values(|f: MonitoredFile| f@);
    let ghost cut = cutoff as int;
    let ghost target = activity_of(records, cut);
    let mut picked: Vec<ActivityEntry> = Vec::new();
    let mut i: usize = 0;
    proof {
        assert(records.skip(0) =~= records);
    }
    while i < files.len()
        invariant
            i <= files@.len(),
            records == files@.map_values(|f: MonitoredFile| f@),
            records.len() == files@.len(),
            cut == cutoff as int,
            target == activity_of(records, cut),
            entry_views(picked@) + activity_of(records.skip(i as int), cut) == target,
        decreases files@.len() - i,
    {
        let ghost fr = records[i as int];
        let ghost picked_before = entry_views(picked@);
        proof {
            assert(records.skip(i as int)[0] == fr);
            assert(records.skip(i as int).drop_first() =~= records.skip(i as int + 1));
            assert(fr == files@[i as int]@);
        }
        let file = &files[i];
        let latest = file.get_time_latest();
        proof {
            assert(file@ == fr);
            assert(latest == latest_event(fr));
        }
        match latest {
            Some(pair) => {
                if pair.0 >= cutoff {
                    let entry = ActivityEntry { key: file.get_key(), time: pair.0, label: pair.1 };
                    proof {
                        assert(entry@ == activity_record(fr));
                    }
                    picked.push(entry);
                    proof {
                        assert(entry_views(picked@) =~= picked_before.push(entry@));
                        assert(qualifies(fr, cut));
                        assert(activity_of(records.skip(i as int), cut) == seq![
                            activity_record(fr),
                        ] + activity_of(records.skip(i as int + 1), cut));
                        assert((picked_before.push(entry@)) + activity_of(
                            records.skip(i as int + 1),
                            cut,
                        ) =~= picked_before + (seq![activity_record(fr)] + activity_of(
                            records.skip(i as int + 1),
                            cut,
                        )));
                    }
                } else {
                    proof {
                        assert(!qualifies(fr, cut));
                        assert(activity_of(records.skip(i as int), cut) == activity_of(
                            records.skip(i as int + 1),
                            cut,
                        ));
                    }
                }
            },
            None => {
                proof {
                    assert(!qualifies(fr, cut));
                    assert(activity_of(records.skip(i as int), cut) == activity_of(
                        records.skip(i as int + 1),
                        cut,
                    ));
                }
            },
        }
        i = i + 1;
    }
    proof {
        assert(records.skip(records.len() as int) =~= Seq::<FileRecord>::empty());
        assert(entry_views(picked@) + Seq::<ActivityRecord>::empty() =~= entry_views(picked@));
        assert(entry_views(picked@) == target);
    }
    picked
}

/// Inserts a report line just before the first strictly greater key, keeping
/// the lines sorted.
fn insert_sorted(out: &mut Vec<ActivityEntry>, e: ActivityEntry)
    requires
        sorted_by_key(entry_views(old(out)@)),
    ensures
        sorted_by_key(entry_views(final(out)@)),
        entry_views(final(out)@).to_multiset() == entry_views(old(out)@).to_multiset().insert(e@),
{
    let mut j: usize = 0;
    while j < out.len() && !key_lt(e.key.as_str(), out[j].key.as_str())
        invariant
            j <= out@.len(),
            out == old(out),
            forall|q: int| 0 <= q < j ==> seq_le((#[trigger] out@[q])@.key, e@.key),
        decreases out@.len() - j,
    {
        proof {
            lemma_seq_lt_total(e@.key, out@[j as int]@.key);
        }
        j = j + 1;
    }
    let ghost ov = entry_views(out@);
    proof {
        assert(forall|q: int| 0 <= q < ov.len() ==> ov[q] == (#[trigger] out@[q])@);
        if (j as int) < ov.len() {
            assert(seq_lt(e@.key, ov[j as int].key));
        }
        ov.insert_ensures(j as int, e@);
        let tv = ov.insert(j as int, e@);
        assert forall|x: int, y: int| 0 <= x < y < tv.len() implies seq_le(tv[x].key, tv[y].key) by {
            if y < j {
                assert(tv[x] == ov[x] && tv[y] == ov[y]);
            } else if y == j {
                assert(tv[x] == ov[x] && tv[y] == e@);
                assert(seq_le(ov[x].key, e@.key));
            } else {
                assert(tv[y] == ov[y - 1]);
                if x < j {
                    assert(tv[x] == ov[x]);
                    if x < y - 1 {
                        assert(seq_le(ov[x].key, ov[y - 1].key));
                    }
                } else if x == j {
                    assert(tv[x] == e@);
                    assert(seq_lt(e@.key, ov[j as int].key));
                    if j < y - 1 {
                        lemma_seq_le_transitive(e@.key, ov[j as int].key, ov[y - 1].key);
                    }
                } else {
                    assert(tv[x] == ov[x - 1]);
                    if x - 1 < y - 1 {
                        assert(seq_le(ov[x - 1].key, ov[y - 1].key));
                    }
                }
            }
        }
    }
    out.insert(j, e);
    proof {
        assert(entry_views(out@) =~= ov.insert(j as int, e@));
        vstd::seq_lib::to_multiset_insert(ov, j as int, e@);
    }
}

/// The report lines reordered by key, ascending.
fn sort_entries(picked: Vec<ActivityEntry>) -> (r: Vec<ActivityEntry>)
    ensures
        sorted_by_key(entry_views(r@)),
        entry_views(r@).to_multiset() == entry_views(picked@).to_multiset(),
{
    let mut out: Vec<ActivityEntry> = Vec::new();
    let mut i: usize = 0;
    proof {
        assert(entry_views(out@) =~= Seq::<ActivityRecord>::empty());
        assert(entry_views(picked@.take(0)) =~= Seq::<ActivityRecord>::empty());
    }
    while i < picked.len()
        invariant
            i <= picked@.len(),
            sorted_by_key(entry_views(out@)),
            entry_views(out@).to_multiset() == entry_views(picked@.take(i as int)).to_multiset(),
        decreases picked@.len() - i,
    {
        let e = ActivityEntry {
            key: picked[i].key.clone(),
            time: picked[i].time,
            label: picked[i].label,
        };
        proof {
            assert(e@ == picked@[i as int]@);
        }
        insert_sorted(&mut out, e);
        proof {
            assert(entry_views(picked@.take(i as int)).push(e@) =~= entry_views(
                picked@.take(i as int + 1),
            ));
            entry_views(picked@.take(i as int)).to_multiset_ensures();
        }
        i = i + 1;
    }
    proof {
        assert(picked@.take(picked@.len() as int) =~= picked@);
    }
    out
}

impl Summary {
    /// The files whose latest event falls within the trailing window of the
    /// given number of minutes before `now`: exactly the qualifying ledger
    /// entries, ordered by key, ascending.
    pub fn recent_activity(&self, now: i64, minutes_back: u64) -> (r: Vec<ActivityEntry>)
        requires
            60 * (minutes_back as int) <= i64::MAX as int,
            i64::MIN as int <= now - 60 * (minutes_back as int),
        ensures
            sorted_by_key(entry_views(r@)),
            entry_views(r@).to_multiset() == activity_of(
                self.file_records(),
                now - 60 * (minutes_back as int),
            ).to_multiset(),
    {
        let window: i64 = (minutes_back * 60) as i64;
        let cutoff: i64 = now - window;
        let picked = collect_activity(&self.files, cutoff);
        sort_entries(picked)
    }
}

/// A ledger entry that records no event yet.
pub open spec fn is_pristine(f: FileRecord) -> bool {
    f.time_added is None && f.time_latest_edit is None && f.time_latest_gen is None
        && f.gen_count == 0 && f.edit_count == 0
}

proof fn lemma_bootstrap_keeps_pristine(
    m: Map<Seq<char>, FileRecord>,
    obs: Seq<ObservedRecord>,
    is_gen: bool,
    k: Seq<char>,
)
    requires
        m.contains_key(k),
        is_pristine(m[k]),
    ensures
        scan_result_map(m, obs, None, is_gen).contains_key(k),
        is_pristine(scan_result_map(m, obs, None, is_gen)[k]),
    decreases obs.len(),
{
    if obs.len() > 0 {
        let m1 = apply_observed(m, obs[0], None, is_gen);
        lemma_bootstrap_keeps_pristine(m1, obs.drop_first(), is_gen, k);
    }
}

/// Law: a scan with no baseline counts no file as changed, whatever the
/// observed timestamps, and registers every observed file with no event
/// recorded and both counters zero.
pub proof fn lemma_bootstrap_scan(
    m: Map<Seq<char>, FileRecord>,
    obs: Seq<ObservedRecord>,
    is_gen: bool,
)
    ensures
        changed_count(obs, None) == 0,
        forall|i: int|
            0 <= i < obs.len() ==> scan_result_map(m, obs, None, is_gen).contains_key(
                (#[trigger] obs[i]).key(),
            ) && is_pristine(scan_result_map(m, obs, None, is_gen)[obs[i].key()]),
    decreases obs.len(),
{
    if obs.len() > 0 {
        let m1 = apply_observed(m, obs[0], None, is_gen);
        lemma_bootstrap_scan(m1, obs.drop_first(), is_gen);
        lemma_bootstrap_keeps_pristine(m1, obs.drop_first(), is_gen, obs[0].key());
        let r = scan_result_map(m, obs, None, is_gen);
        assert forall|i: int|
            0 <= i < obs.len() implies r.contains_key((#[trigger] obs[i]).key()) && is_pristine(
            r[obs[i].key()],
        ) by {
            if i > 0 {
                assert(obs.drop_first()[i - 1] == obs[i]);
            }
        }
    }
}

/// A key no observation carries keeps its ledger entry through a baselined
/// scan, and absent stays absent.
proof fn lemma_unobserved_key_stable(
    m: Map<Seq<char>, FileRecord>,
    obs: Seq<ObservedRecord>,
    p: i64,
    is_gen: bool,
    k: Seq<char>,
)
    requires
        forall|j: int| 0 <= j < obs.len() ==> (#[trigger] obs[j]).key() != k,
    ensures
        scan_result_map(m, obs, Some(p), is_gen).contains_key(k) <==> m.contains_key(k),
        m.contains_key(k) ==> scan_result_map(m, obs, Some(p), is_gen)[k] == m[k],
    decreases obs.len(),
{
    if obs.len() > 0 {
        let m1 = apply_observed(m, obs[0], Some(p), is_gen);
        assert(obs[0].key() != k);
        assert forall|j: int|
            0 <= j < obs.drop_first().len() implies (#[trigger] obs.drop_first()[j]).key() != k by {
            assert(obs.drop_first()[j] == obs[j + 1]);
        }
        lemma_unobserved_key_stable(m1, obs.drop_first(), p, is_gen, k);
    }
}

/// Law: when a file already in the ledger is observed, once, with a
/// modification time strictly after the baseline, the scan counts a change,
/// and exactly the counter selected by the pass kind advances by one while the
/// observed time is recorded on that side; the other side is untouched.
pub proof fn lemma_change_updates_counter(
    m: Map<Seq<char>, FileRecord>,
    obs: Seq<ObservedRecord>,
    p: i64,
    is_gen: bool,
    i0: int,
)
    requires
        0 <= i0 < obs.len(),
        forall|j: int|
            0 <= j < obs.len() && j != i0 ==> (#[trigger] obs[j]).key() != obs[i0].key(),
        obs[i0].modified_time > p,
        m.contains_key(obs[i0].key()),
    ensures
        changed_count(obs, Some(p)) >= 1,
        scan_result_map(m, obs, Some(p), is_gen).contains_key(obs[i0].key()),
        scan_result_map(m, obs, Some(p), is_gen)[obs[i0].key()] == change_recorded(
            m[obs[i0].key()],
            obs[i0].modified_time,
            is_gen,
        ),
    decreases obs.len(),
{
    let k = obs[i0].key();
    let m1 = apply_observed(m, obs[0], Some(p), is_gen);
    lemma_changed_count_bounds(obs.drop_first(), Some(p));
    if i0 == 0 {
        assert(m1.contains_key(k) && m1[k] == change_recorded(m[k], obs[0].modified_time, is_gen));
        assert forall|j: int|
            0 <= j < obs.drop_first().len() implies (#[trigger] obs.drop_first()[j]).key() != k by {
            assert(obs.drop_first()[j] == obs[j + 1]);
        }
        lemma_unobserved_key_stable(m1, obs.drop_first(), p, is_gen, k);
        assert(counts_as_changed(obs[0], Some(p)));
    } else {
        assert(obs[0].key() != k);
        assert(m1.contains_key(k) && m1[k] == m[k]);
        assert(obs.drop_first()[i0 - 1] == obs[i0]);
        assert forall|j: int|
            0 <= j < obs.drop_first().len() && j != i0 - 1 implies (#[trigger] obs.drop_first()[
            j]).key() != obs.drop_first()[i0 - 1].key() by {
            assert(obs.drop_first()[j] == obs[j + 1]);
        }
        lemma_change_updates_counter(m1, obs.drop_first(), p, is_gen, i0 - 1);
    }
}

/// Law: the ledger only grows: every key present before a scan is still
/// present after it, whatever the scan observed.
pub proof fn lemma_ledger_only_grows(
    m: Map<Seq<char>, FileRecord>,
    obs: Seq<ObservedRecord>,
    prev: Option<i64>,
    is_gen: bool,
    k: Seq<char>,
)
    requires
        m.contains_key(k),
    ensures
        scan_result_map(m, obs, prev, is_gen).contains_key(k),
    decreases obs.len(),
{
    if obs.len() > 0 {
        lemma_ledger_only_grows(
            apply_observed(m, obs[0], prev, is_gen),
            obs.drop_first(),
            prev,
            is_gen,
            k,
        );
    }
}

/// Law: against a baseline, a ledger entry's counters never decrease.
pub proof fn lemma_counters_monotonic(
    m: Map<Seq<char>, FileRecord>,
    obs: Seq<ObservedRecord>,
    p: i64,
    is_gen: bool,
    k: Seq<char>,
)
    requires
        m.contains_key(k),
    ensures
        scan_result_map(m, obs, Some(p), is_gen).contains_key(k),
        scan_result_map(m, obs, Some(p), is_gen)[k].edit_count >= m[k].edit_count,
        scan_result_map(m, obs, Some(p), is_gen)[k].gen_count >= m[k].gen_count,
    decreases obs.len(),
{
    if obs.len() > 0 {
        let m1 = apply_observed(m, obs[0], Some(p), is_gen);
        lemma_counters_monotonic(m1, obs.drop_first(), p, is_gen, k);
    }
}

/// Law: edit and generation tracking are independent: recording an edit and
/// then a generation against the same entry leaves both latest times set and
/// both counters advanced by one.
pub proof fn lemma_edit_gen_independent(f: FileRecord, t1: i64, t2: i64)
    ensures
        ({
            let g = change_recorded(change_recorded(f, t1, false), t2, true);
            g.time_latest_edit == Some(t1) && g.time_latest_gen == Some(t2) && g.edit_count
                == f.edit_count + 1 && g.gen_count == f.gen_count + 1 && g.time_added
                == f.time_added
        }),
{
}

/// Law: a recorded addition is always reported as the latest event, whatever
/// the later edit or generation times say.
pub proof fn lemma_added_wins(f: FileRecord)
    requires
        f.time_added is Some,
    ensures
        latest_event(f) == Some((f.time_added->0, EventType::Add)),
{
}

/// The path under which a project's summary is persisted: the summary file in
/// the project's history folder.
pub fn get_summary_file_path(project: &Project) -> (r: String)
    ensures
        r@ == project.path_history@ + "/"@ + "summary.json"@,
{
    let mut s = project.path_history.clone();
    s.append("/");
    s.append("summary.json");
    s
}

} // verus!
