//! The migration run: the check of the history against the scripts, the
//! scripts that are pending, and the state of a run that applies them one by
//! one.

use vstd::prelude::*;
use std::path::PathBuf;
use crate::cql::{ascending, CqlFile, DiscoveryError};
use crate::history::HistoryRecord;
use crate::keyspace::ConfigError;
use crate::text::{decimal, decimal_of, string_of};

verus! {

/// What a run works on.
#[derive(Debug)]
pub struct MigrateArgs {
    pub cql_dir: PathBuf,
    pub apply_keyspace: String,
    pub history_keyspace: String,
    pub history_table: String,
}

/// How an applied script differs from what the history holds of it.
#[derive(Debug, Clone, Copy, PartialEq, Eq)]
pub enum Drift {
    /// No script has the version of a record.
    Missing { version: u32 },
    /// The script with the version of a record has another checksum.
    Changed { version: u32 },
}

/// How far a run came before a script failed.
#[derive(Debug, Clone, PartialEq, Eq)]
pub struct MigrateErrorState {
    /// What the cluster reported.
    pub cause: String,
    /// The version of the script that was being applied.
    pub failing: Option<u32>,
    /// The scripts that this run had applied and recorded before, in order.
    pub applied: Vec<CqlFile>,
}

/// Why a run ended without applying every pending script.
#[derive(Debug, Clone, PartialEq, Eq)]
pub enum MigrateError {
    /// The replication settings or a keyspace name are invalid.
    Config { error: ConfigError },
    /// The node could not be reached.
    Connectivity { node_address: String },
    /// The history keyspace or table could not be inspected or created.
    Bootstrap { cause: String },
    /// The script directory gives no ordered set of scripts.
    Discovery { error: DiscoveryError },
    /// An applied script is missing or was changed.
    Drift { drift: Drift },
    /// A pending script failed.
    Apply { state: MigrateErrorState },
}

/// Whether the history holds a record of `version`.
pub open spec fn recorded(history: Seq<HistoryRecord>, version: u32) -> bool {
    exists|i: int| 0 <= i < history.len() && (#[trigger] history[i]).version == version
}

/// Whether one of the scripts has `version`.
pub open spec fn has_version(files: Seq<CqlFile>, version: u32) -> bool {
    exists|j: int| 0 <= j < files.len() && (#[trigger] files[j]).version == version
}

/// Whether one of the scripts has `version` and the checksum `hash`.
pub open spec fn has_script(files: Seq<CqlFile>, version: u32, hash: u64) -> bool {
    exists|j: int|
        0 <= j < files.len() && (#[trigger] files[j]).version == version && files[j].hash == hash
}

/// How the scripts differ from a record, if they do: the script of its
/// version is missing, or has another checksum.
pub open spec fn drift_of(record: HistoryRecord, files: Seq<CqlFile>) -> Option<Drift> {
    if !has_version(files, record.version) {
        Some(Drift::Missing { version: record.version })
    } else if !has_script(files, record.version, record.hash) {
        Some(Drift::Changed { version: record.version })
    } else {
        None
    }
}

/// The drift of the first record, in the order of the history, from which the
/// scripts differ.
pub open spec fn first_drift(history: Seq<HistoryRecord>, files: Seq<CqlFile>) -> Option<Drift>
    decreases history.len(),
{
    if history.len() == 0 {
        None
    } else {
        match first_drift(history.drop_last(), files) {
            Some(drift) => Some(drift),
            None => drift_of(history.last(), files),
        }
    }
}

/// The scripts of which the history holds no record, in the order of `files`.
pub open spec fn pending(history: Seq<HistoryRecord>, files: Seq<CqlFile>) -> Seq<CqlFile>
    decreases files.len(),
{
    if files.len() == 0 {
        Seq::empty()
    } else {
        let before = pending(history, files.drop_last());
        if recorded(history, files.last().version) {
            before
        } else {
            before.push(files.last())
        }
    }
}

/// The record that the history gets for an applied script.
pub open spec fn record_of(file: CqlFile, applied_at: i64) -> HistoryRecord {
    HistoryRecord { version: file.version, hash: file.hash, applied_at }
}

/// Whether the history holds a record of `version`.
pub fn is_recorded(history: &Vec<HistoryRecord>, version: u32) -> (r: bool)
    ensures
        r == recorded(history@, version),
{
    let mut i: usize = 0;
    while i < history.len()
        invariant
            i <= history.len(),
            forall|j: int| 0 <= j < i ==> (#[trigger] history@[j]).version != version,
        decreases history.len() - i,
    {
        if history[i].version == version {
            return true;
        }
        i += 1;
    }
    false
}

fn check_record(record: &HistoryRecord, files: &Vec<CqlFile>) -> (r: Option<Drift>)
    ensures
        r == drift_of(*record, files@),
{
    let mut found: bool = false;
    let mut i: usize = 0;
    while i < files.len()
        invariant
            i <= files.len(),
            found == has_version(files@.take(i as int), record.version),
            !has_script(files@.take(i as int), record.version, record.hash),
        decreases files.len() - i,
    {
        proof {
            let now = files@.take(i as int);
            let next = files@.take(i + 1);
            assert(forall|j: int| 0 <= j < i ==> now[j] == #[trigger] next[j]);
            assert(next[i as int] == files@[i as int]);
            if has_version(now, record.version) {
                let j = choose|j: int|
                    0 <= j < now.len() && (#[trigger] now[j]).version == record.version;
                assert(next[j].version == record.version);
            }
            if has_version(next, record.version) && files@[i as int].version != record.version {
                let j = choose|j: int|
                    0 <= j < next.len() && (#[trigger] next[j]).version == record.version;
                assert(now[j].version == record.version);
            }
            if has_script(next, record.version, record.hash) {
                let j = choose|j: int|
                    0 <= j < next.len() && (#[trigger] next[j]).version == record.version
                        && next[j].hash == record.hash;
                if j < i {
                    assert(now[j].version == record.version);
                }
            }
        }
        if files[i].version == record.version {
            if files[i].hash == record.hash {
                proof {
                    assert(files@[i as int].version == record.version);
                }
                return None;
            }
            found = true;
        }
        i += 1;
    }
    proof {
        assert(files@.take(i as int) =~= files@);
    }
    if found {
        Some(Drift::Changed { version: record.version })
    } else {
        Some(Drift::Missing { version: record.version })
    }
}

/// A drift in a prefix of the history is the drift of the whole.
pub proof fn lemma_first_drift_prefix(history: Seq<HistoryRecord>, files: Seq<CqlFile>, k: int)
    requires
        0 <= k <= history.len(),
        first_drift(history.take(k), files) is Some,
    ensures
        first_drift(history, files) == first_drift(history.take(k), files),
    decreases history.len() - k,
{
    if k == history.len() {
        assert(history.take(k) =~= history);
    } else {
        assert(history.drop_last().take(k) =~= history.take(k));
        lemma_first_drift_prefix(history.drop_last(), files, k);
    }
}

/// Checks the history against the scripts: every record needs the script of
/// its version, with the checksum that was recorded.
pub fn check_drift(history: &Vec<HistoryRecord>, files: &Vec<CqlFile>) -> (r: Option<Drift>)
    ensures
        r == first_drift(history@, files@),
{
    let mut i: usize = 0;
    proof {
        assert(history@.take(0) =~= Seq::<HistoryRecord>::empty());
    }
    while i < history.len()
        invariant
            i <= history.len(),
            first_drift(history@.take(i as int), files@) is None,
        decreases history.len() - i,
    {
        proof {
            let next = history@.take(i + 1);
            assert(next.drop_last() =~= history@.take(i as int));
            assert(next.last() == history@[i as int]);
        }
        match check_record(&history[i], files) {
            Some(drift) => {
                proof {
                    lemma_first_drift_prefix(history@, files@, i + 1);
                }
                return Some(drift);
            },
            None => {},
        }
        i += 1;
    }
    proof {
        assert(history@.take(i as int) =~= history@);
    }
    None
}

/// The scripts that are still to be applied.
pub fn pending_files(history: &Vec<HistoryRecord>, files: &Vec<CqlFile>) -> (r: Vec<CqlFile>)
    ensures
        r@ == pending(history@, files@),
{
    let mut kept: Vec<CqlFile> = Vec::new();
    let mut i: usize = 0;
    proof {
        assert(files@.take(0) =~= Seq::<CqlFile>::empty());
    }
    while i < files.len()
        invariant
            i <= files.len(),
            kept@ == pending(history@, files@.take(i as int)),
        decreases files.len() - i,
    {
        proof {
            let next = files@.take(i + 1);
            assert(next.drop_last() =~= files@.take(i as int));
            assert(next.last() == files@[i as int]);
        }
        if !is_recorded(history, files[i].version) {
            kept.push(files[i].copy());
        }
        i += 1;
    }
    proof {
        assert(files@.take(i as int) =~= files@);
    }
    kept
}

/// A run: the scripts that it has to apply, and how many of them it has
/// applied and recorded.
#[derive(Debug)]
pub struct Migration {
    pending: Vec<CqlFile>,
    done: usize,
}

impl Migration {
    #[verifier::type_invariant]
    spec fn within(&self) -> bool {
        self.done <= self.pending@.len()
    }

    /// The scripts that the run has to apply, in order.
    pub closed spec fn scripts(&self) -> Seq<CqlFile> {
        self.pending@
    }

    /// How many of them it has applied and recorded.
    pub closed spec fn applied_count(&self) -> nat {
        self.done as nat
    }

    /// The scripts that the run has applied and recorded.
    pub open spec fn applied(&self) -> Seq<CqlFile> {
        self.scripts().take(self.applied_count() as int)
    }

    /// The script that is to be applied next.
    pub open spec fn current(&self) -> Option<CqlFile> {
        if self.applied_count() < self.scripts().len() {
            Some(self.scripts()[self.applied_count() as int])
        } else {
            None
        }
    }

    /// Starts a run, where the scripts do not differ from the history: the
    /// run has to apply the scripts that are not recorded, and has applied
    /// none yet. A drift ends the run before any script is applied.
    pub fn begin(history: &Vec<HistoryRecord>, files: &Vec<CqlFile>) -> (r: Result<
        Migration,
        MigrateError,
    >)
        ensures
            match r {
                Ok(run) => {
                    &&& first_drift(history@, files@) is None
                    &&& run.scripts() == pending(history@, files@)
                    &&& run.applied_count() == 0
                    &&& ascending(files@) ==> ascending(run.scripts())
                },
                Err(e) => first_drift(history@, files@) matches Some(drift) && e
                    == (MigrateError::Drift { drift }),
            },
    {
        proof {
            if ascending(files@) {
                lemma_pending_ascending(history@, files@);
            }
        }
        match check_drift(history, files) {
            Some(drift) => Err(MigrateError::Drift { drift }),
            None => Ok(Migration { pending: pending_files(history, files), done: 0 }),
        }
    }

    /// The script to apply next, or `None` where the run is complete.
    pub fn next(&self) -> (r: Option<&CqlFile>)
        ensures
            match r {
                Some(file) => self.current() == Some(*file),
                None => self.current() is None,
            },
            self.applied_count() <= self.scripts().len(),
    {
        proof {
            use_type_invariant(self);
        }
        if self.done < self.pending.len() {
            Some(&self.pending[self.done])
        } else {
            None
        }
    }

    /// The record to add to the history once the current script has been
    /// applied.
    pub fn record(&self, applied_at: i64) -> (r: Option<HistoryRecord>)
        ensures
            r == match self.current() {
                Some(file) => Some(record_of(file, applied_at)),
                None => None,
            },
    {
        match self.next() {
            Some(file) => Some(
                HistoryRecord { version: file.version, hash: file.hash, applied_at },
            ),
            None => None,
        }
    }

    /// Takes note that the current script was applied and recorded. A
    /// complete run stays as it is.
    pub fn advance(&mut self)
        ensures
            final(self).scripts() == old(self).scripts(),
            final(self).applied_count() == if old(self).current() is Some {
                old(self).applied_count() + 1
            } else {
                old(self).applied_count()
            },
            final(self).applied_count() <= final(self).scripts().len(),
    {
        proof {
            use_type_invariant(&*self);
        }
        if self.done < self.pending.len() {
            self.done = self.done + 1;
        }
    }

    /// Ends the run because the current script, or the write of its record,
    /// failed: the error names the script and the scripts applied before it.
    pub fn fail(self, cause: String) -> (e: MigrateError)
        ensures
            e matches MigrateError::Apply { state } && state.cause == cause && state.failing
                == (match self.current() {
                Some(file) => Some(file.version),
                None => None,
            }) && state.applied@ == self.applied(),
    {
        proof {
            use_type_invariant(&self);
        }
        let failing = match self.next() {
            Some(file) => Some(file.version),
            None => None,
        };
        let Migration { pending, done } = self;
        let mut applied = pending;
        applied.truncate(done);
        MigrateError::Apply { state: MigrateErrorState { cause, failing, applied } }
    }

    /// Ends the run and gives the scripts that it applied, in order.
    pub fn finish(self) -> (r: Vec<CqlFile>)
        ensures
            r@ == self.applied(),
    {
        proof {
            use_type_invariant(&self);
        }
        let Migration { pending, done } = self;
        let mut applied = pending;
        applied.truncate(done);
        applied
    }
}

impl Drift {
    /// The text of the drift.
    pub open spec fn message(self) -> Seq<char> {
        match self {
            Drift::Missing { version } => "the cql file of version "@ + decimal(version as nat)
                + " was applied and is missing"@,
            Drift::Changed { version } => "the cql file of version "@ + decimal(version as nat)
                + " was changed after it was applied"@,
        }
    }

    /// The text of the drift.
    pub fn to_text(&self) -> (r: String)
        ensures
            r@ == self.message(),
    {
        match self {
            Drift::Missing { version } => {
                let number = string_of(&decimal_of(*version as u64));
                String::from_str("the cql file of version ").concat(number.as_str()).concat(
                    " was applied and is missing",
                )
            },
            Drift::Changed { version } => {
                let number = string_of(&decimal_of(*version as u64));
                String::from_str("the cql file of version ").concat(number.as_str()).concat(
                    " was changed after it was applied",
                )
            },
        }
    }
}

impl MigrateError {
    /// The text of the error.
    pub open spec fn message(&self) -> Seq<char> {
        match *self {
            MigrateError::Config { error } => error@.message(),
            MigrateError::Connectivity { node_address } => "could not connect to "@
                + node_address@,
            MigrateError::Bootstrap { cause } => cause@,
            MigrateError::Discovery { error } => error@.message(),
            MigrateError::Drift { drift } => drift.message(),
            MigrateError::Apply { state } => state.cause@,
        }
    }

    /// The text of the error.
    pub fn to_text(&self) -> (r: String)
        ensures
            r@ == self.message(),
    {
        match self {
            MigrateError::Config { error } => error.message(),
            MigrateError::Connectivity { node_address } => String::from_str(
                "could not connect to ",
            ).concat(node_address.as_str()),
            MigrateError::Bootstrap { cause } => cause.clone(),
            MigrateError::Discovery { error } => error.message(),
            MigrateError::Drift { drift } => drift.to_text(),
            MigrateError::Apply { state } => state.cause.clone(),
        }
    }

    /// How far the run came: an error other than a failed script names no
    /// script and comes before any script was applied.
    pub fn state(self) -> (r: MigrateErrorState)
        ensures
            r.cause@ == self.message(),
            match self {
                MigrateError::Apply { state } => r == state,
                _ => r.failing is None && r.applied@.len() == 0,
            },
    {
        match self {
            MigrateError::Apply { state } => state,
            other => MigrateErrorState {
                cause: other.to_text(),
                failing: None,
                applied: Vec::new(),
            },
        }
    }
}

/// Whether the history holds a record of the script, with its checksum.
pub open spec fn has_record(history: Seq<HistoryRecord>, file: CqlFile) -> bool {
    exists|i: int|
        0 <= i < history.len() && (#[trigger] history[i]).version == file.version && history[i].hash
            == file.hash
}

/// Whether the record is that of one of the scripts.
pub open spec fn records_one(applied: Seq<CqlFile>, record: HistoryRecord) -> bool {
    exists|i: int|
        0 <= i < applied.len() && (#[trigger] applied[i]).version == record.version
            && applied[i].hash == record.hash
}

/// `after` is the history once the scripts `applied` were recorded in it: it
/// keeps every record of `history`, holds a record of each of the scripts,
/// and nothing else. The order of the records and the times in them are free.
pub open spec fn records_added(
    history: Seq<HistoryRecord>,
    applied: Seq<CqlFile>,
    after: Seq<HistoryRecord>,
) -> bool {
    &&& forall|r: HistoryRecord| #[trigger] history.contains(r) ==> after.contains(r)
    &&& forall|i: int| 0 <= i < applied.len() ==> has_record(after, #[trigger] applied[i])
    &&& forall|r: HistoryRecord| #[trigger]
        after.contains(r) ==> history.contains(r) || records_one(applied, r)
}

/// Writing the record of each applied script behind the history adds
/// exactly those records, whatever the times are.
pub proof fn lemma_records_appended(
    history: Seq<HistoryRecord>,
    applied: Seq<CqlFile>,
    times: Seq<i64>,
)
    requires
        times.len() == applied.len(),
    ensures
        records_added(
            history,
            applied,
            history + Seq::new(applied.len(), |i: int| record_of(applied[i], times[i])),
        ),
{
    let news = Seq::new(applied.len(), |i: int| record_of(applied[i], times[i]));
    let after = history + news;
    assert forall|r: HistoryRecord| #[trigger] history.contains(r) implies after.contains(r) by {
        let i = choose|i: int| 0 <= i < history.len() && history[i] == r;
        assert(after[i] == r);
    }
    assert forall|i: int| 0 <= i < applied.len() implies has_record(
        after,
        #[trigger] applied[i],
    ) by {
        assert(after[history.len() + i] == news[i]);
    }
    assert forall|r: HistoryRecord| #[trigger] after.contains(r) implies history.contains(r)
        || records_one(applied, r) by {
        let i = choose|i: int| 0 <= i < after.len() && after[i] == r;
        if i < history.len() {
            assert(history[i] == r);
        } else {
            assert(news[i - history.len()] == r);
            assert(applied[i - history.len()].version == r.version);
        }
    }
}

/// The pending scripts are the scripts of which the history holds no record.
pub proof fn lemma_pending_members(history: Seq<HistoryRecord>, files: Seq<CqlFile>)
    ensures
        forall|f: CqlFile| #[trigger]
            pending(history, files).contains(f) <==> files.contains(f) && !recorded(
                history,
                f.version,
            ),
    decreases files.len(),
{
    if files.len() > 0 {
        let before = files.drop_last();
        lemma_pending_members(history, before);
        let p = pending(history, files);
        let q = pending(history, before);
        assert forall|f: CqlFile| #[trigger]
            p.contains(f) <==> files.contains(f) && !recorded(history, f.version) by {
            if p.contains(f) {
                let x = choose|x: int| 0 <= x < p.len() && p[x] == f;
                if x < q.len() {
                    assert(q[x] == f);
                    assert(q.contains(f));
                    let y = choose|y: int| 0 <= y < before.len() && before[y] == f;
                    assert(files[y] == f);
                } else {
                    assert(files[files.len() - 1] == f);
                }
            }
            if files.contains(f) && !recorded(history, f.version) {
                let y = choose|y: int| 0 <= y < files.len() && files[y] == f;
                if y < before.len() {
                    assert(before[y] == f);
                    assert(before.contains(f));
                    assert(q.contains(f));
                    let x = choose|x: int| 0 <= x < q.len() && q[x] == f;
                    assert(p[x] == f);
                } else {
                    assert(p[q.len() as int] == f);
                }
            }
        }
    }
}

/// The pending scripts are the scripts filtered by what the history lacks.
pub proof fn lemma_pending_filter(history: Seq<HistoryRecord>, files: Seq<CqlFile>)
    ensures
        pending(history, files) == files.filter(|f: CqlFile| !recorded(history, f.version)),
    decreases files.len(),
{
    reveal(Seq::filter);
    if files.len() > 0 {
        lemma_pending_filter(history, files.drop_last());
    } else {
        assert(files =~= Seq::<CqlFile>::empty());
    }
}

/// The pending scripts of scripts in order are in order.
pub proof fn lemma_pending_ascending(history: Seq<HistoryRecord>, files: Seq<CqlFile>)
    requires
        ascending(files),
    ensures
        ascending(pending(history, files)),
    decreases files.len(),
{
    if files.len() > 0 {
        let before = files.drop_last();
        assert(ascending(before)) by {
            assert forall|i: int, j: int| 0 <= i < j < before.len() implies (
            #[trigger] before[i]).version < (#[trigger] before[j]).version by {
                assert(files[i].version < files[j].version);
            }
        }
        lemma_pending_ascending(history, before);
        lemma_pending_members(history, before);
        let p = pending(history, files);
        let q = pending(history, before);
        assert forall|i: int, j: int| 0 <= i < j < p.len() implies (#[trigger] p[i]).version < (
        #[trigger] p[j]).version by {
            if j < q.len() {
                assert(q[i].version < q[j].version);
            } else {
                assert(q.contains(q[i]));
                let y = choose|y: int| 0 <= y < before.len() && before[y] == q[i];
                assert(files[y].version < files[files.len() - 1].version);
            }
        }
    }
}

/// The pending scripts among the first `n` scripts come first among the
/// pending scripts.
pub proof fn lemma_pending_prefix(history: Seq<HistoryRecord>, files: Seq<CqlFile>, n: int)
    requires
        0 <= n <= files.len(),
    ensures
        pending(history, files.take(n)).len() <= pending(history, files).len(),
        pending(history, files.take(n)) == pending(history, files).take(
            pending(history, files.take(n)).len() as int,
        ),
    decreases files.len() - n,
{
    let p = pending(history, files);
    if n == files.len() {
        assert(files.take(n) =~= files);
        assert(p.take(p.len() as int) =~= p);
    } else {
        let before = files.drop_last();
        assert(before.take(n) =~= files.take(n));
        lemma_pending_prefix(history, before, n);
        let q = pending(history, before);
        let m = pending(history, files.take(n)).len() as int;
        assert(q.take(m) =~= p.take(m));
    }
}

/// The scripts differ from no record exactly where no drift is found.
pub proof fn lemma_first_drift_none(history: Seq<HistoryRecord>, files: Seq<CqlFile>)
    ensures
        first_drift(history, files) is None <==> forall|i: int|
            0 <= i < history.len() ==> drift_of(#[trigger] history[i], files) is None,
    decreases history.len(),
{
    if history.len() > 0 {
        let before = history.drop_last();
        lemma_first_drift_none(before, files);
        if first_drift(history, files) is None {
            assert forall|i: int| 0 <= i < history.len() implies drift_of(
                #[trigger] history[i],
                files,
            ) is None by {
                if i < before.len() {
                    assert(before[i] == history[i]);
                }
            }
        }
        if forall|i: int|
            0 <= i < history.len() ==> drift_of(#[trigger] history[i], files) is None {
            assert forall|i: int| 0 <= i < before.len() implies drift_of(
                #[trigger] before[i],
                files,
            ) is None by {
                assert(before[i] == history[i]);
            }
            assert(drift_of(history[history.len() - 1], files) is None);
        }
    }
}

proof fn lemma_rerun_prefix(
    history: Seq<HistoryRecord>,
    files: Seq<CqlFile>,
    k: int,
    after: Seq<HistoryRecord>,
    n: int,
)
    requires
        ascending(files),
        0 <= k <= pending(history, files).len(),
        records_added(history, pending(history, files).take(k), after),
        0 <= n <= files.len(),
    ensures
        pending(after, files.take(n)) == if pending(history, files.take(n)).len() <= k {
            Seq::<CqlFile>::empty()
        } else {
            pending(history, files.take(n)).skip(k)
        },
    decreases n,
{
    if n > 0 {
        let all = pending(history, files);
        let applied = all.take(k);
        let now = files.take(n);
        let before = files.take(n - 1);
        let f = files[n - 1];
        let pn = pending(history, now);
        let pb = pending(history, before);
        let m = pb.len() as int;
        assert(now.drop_last() =~= before);
        assert(now.last() == f);
        lemma_rerun_prefix(history, files, k, after, n - 1);
        lemma_pending_prefix(history, files, n);
        lemma_pending_prefix(history, files, n - 1);
        if recorded(history, f.version) {
            let i = choose|i: int|
                0 <= i < history.len() && (#[trigger] history[i]).version == f.version;
            assert(history.contains(history[i]));
            assert(after.contains(history[i]));
            let j = choose|j: int| 0 <= j < after.len() && after[j] == history[i];
            assert(after[j].version == f.version);
            assert(recorded(after, f.version));
        } else {
            assert(pn == pb.push(f));
            assert(all[m] == pn[m]);
            if m < k {
                assert(applied[m] == f);
                assert(has_record(after, applied[m]));
                assert(recorded(after, f.version));
            } else {
                if recorded(after, f.version) {
                    let i = choose|i: int|
                        0 <= i < after.len() && (#[trigger] after[i]).version == f.version;
                    let r = after[i];
                    assert(after.contains(r));
                    if history.contains(r) {
                        let j = choose|j: int| 0 <= j < history.len() && history[j] == r;
                        assert(history[j].version == f.version);
                    } else {
                        assert(records_one(applied, r));
                        let x = choose|x: int|
                            0 <= x < applied.len() && (#[trigger] applied[x]).version == r.version
                                && applied[x].hash == r.hash;
                        assert(applied[x] == all[x]);
                        assert(all[x] == pb[x]);
                        assert(pb.contains(pb[x]));
                        lemma_pending_members(history, before);
                        let y = choose|y: int| 0 <= y < before.len() && before[y] == pb[x];
                        assert(files[y].version < files[n - 1].version);
                    }
                }
                assert(!recorded(after, f.version));
                if m == k {
                    assert(pn.skip(k) =~= Seq::<CqlFile>::empty().push(f));
                } else {
                    assert(pn.skip(k) =~= pb.skip(k).push(f));
                }
            }
        }
    } else {
        assert(files.take(0) =~= Seq::<CqlFile>::empty());
    }
}

/// A run resumes where the one before it stopped. Where a run found the
/// scripts in order and without drift, and applied and recorded the first
/// `k` of its pending scripts, the next run over the same scripts finds no
/// drift, and its pending scripts are the remaining ones: none that was
/// applied is applied again, and none is left out.
pub proof fn lemma_rerun_resumes(
    history: Seq<HistoryRecord>,
    files: Seq<CqlFile>,
    k: int,
    after: Seq<HistoryRecord>,
)
    requires
        ascending(files),
        first_drift(history, files) is None,
        0 <= k <= pending(history, files).len(),
        records_added(history, pending(history, files).take(k), after),
    ensures
        first_drift(after, files) is None,
        pending(after, files) == pending(history, files).skip(k),
{
    let all = pending(history, files);
    let applied = all.take(k);
    lemma_rerun_prefix(history, files, k, after, files.len() as int);
    assert(files.take(files.len() as int) =~= files);
    if all.len() <= k {
        assert(all.skip(k) =~= Seq::<CqlFile>::empty());
    }
    lemma_first_drift_none(history, files);
    lemma_first_drift_none(after, files);
    lemma_pending_members(history, files);
    assert forall|i: int| 0 <= i < after.len() implies drift_of(#[trigger] after[i], files)
        is None by {
        let r = after[i];
        assert(after.contains(r));
        if history.contains(r) {
            let j = choose|j: int| 0 <= j < history.len() && history[j] == r;
            assert(drift_of(history[j], files) is None);
        } else {
            let x = choose|x: int|
                0 <= x < applied.len() && (#[trigger] applied[x]).version == r.version
                    && applied[x].hash == r.hash;
            assert(all[x] == applied[x]);
            assert(all.contains(all[x]));
            let y = choose|y: int| 0 <= y < files.len() && files[y] == all[x];
            assert(files[y].version == r.version && files[y].hash == r.hash);
        }
    }
}

/// A run that follows a complete run over the same scripts has nothing to
/// apply.
pub proof fn lemma_rerun_applies_nothing(
    history: Seq<HistoryRecord>,
    files: Seq<CqlFile>,
    after: Seq<HistoryRecord>,
)
    requires
        ascending(files),
        first_drift(history, files) is None,
        records_added(history, pending(history, files), after),
    ensures
        first_drift(after, files) is None,
        pending(after, files).len() == 0,
{
    let all = pending(history, files);
    assert(all.take(all.len() as int) =~= all);
    lemma_rerun_resumes(history, files, all.len() as int, after);
}

/// A script that was changed after it was applied is a drift: where the
/// history holds a record of a script's version with another checksum than
/// the script has, a drift is found, and the run applies nothing.
pub proof fn lemma_changed_script_drifts(
    history: Seq<HistoryRecord>,
    files: Seq<CqlFile>,
    i: int,
    j: int,
)
    requires
        ascending(files),
        0 <= i < history.len(),
        0 <= j < files.len(),
        history[i].version == files[j].version,
        history[i].hash != files[j].hash,
    ensures
        first_drift(history, files) is Some,
{
    lemma_first_drift_none(history, files);
    let record = history[i];
    if has_script(files, record.version, record.hash) {
        let x = choose|x: int|
            0 <= x < files.len() && (#[trigger] files[x]).version == record.version
                && files[x].hash == record.hash;
        if x < j {
            assert(files[x].version < files[j].version);
        } else if j < x {
            assert(files[j].version < files[x].version);
        }
    }
    assert(drift_of(history[i], files) is Some);
}

/// A script that was removed after it was applied is a drift.
pub proof fn lemma_missing_script_drifts(
    history: Seq<HistoryRecord>,
    files: Seq<CqlFile>,
    i: int,
)
    requires
        0 <= i < history.len(),
        !has_version(files, history[i].version),
    ensures
        first_drift(history, files) is Some,
{
    lemma_first_drift_none(history, files);
    assert(drift_of(history[i], files) is Some);
}

} // verus!
