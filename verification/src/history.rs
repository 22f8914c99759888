//! The history of applied scripts: its records, the statements that keep it
//! in the cluster, and what has to be created before a run can use it.

use vstd::prelude::*;

verus! {

/// One row of the history table: a script that was applied.
#[derive(Debug, Clone, Copy, PartialEq, Eq)]
pub struct HistoryRecord {
    /// The version of the script.
    pub version: u32,
    /// The checksum that its content had when it was applied.
    pub hash: u64,
    /// When it was applied, in milliseconds since the Unix epoch.
    pub applied_at: i64,
}

/// The records stand in the order of their versions.
pub open spec fn ordered(history: Seq<HistoryRecord>) -> bool {
    forall|i: int, j: int|
        0 <= i < j < history.len() ==> (#[trigger] history[i]).version <= (
        #[trigger] history[j]).version
}

/// The history in the order of the versions: the same records, each as often
/// as it was given. Records of one version keep their order.
pub fn order_history(records: &Vec<HistoryRecord>) -> (r: Vec<HistoryRecord>)
    ensures
        ordered(r@),
        r@.to_multiset() == records@.to_multiset(),
{
    let mut sorted: Vec<HistoryRecord> = Vec::new();
    let mut i: usize = 0;
    proof {
        assert(records@.take(0) =~= sorted@);
    }
    while i < records.len()
        invariant
            i <= records.len(),
            ordered(sorted@),
            sorted@.to_multiset() == records@.take(i as int).to_multiset(),
        decreases records.len() - i,
    {
        let record = records[i];
        let mut at: usize = 0;
        while at < sorted.len() && sorted[at].version <= record.version
            invariant
                at <= sorted.len(),
                forall|x: int| 0 <= x < at ==> (#[trigger] sorted@[x]).version <= record.version,
            decreases sorted.len() - at,
        {
            at += 1;
        }
        proof {
            let before = sorted@;
            let after = before.insert(at as int, record);
            before.insert_ensures(at as int, record);
            assert forall|x: int| at <= x < before.len() implies record.version < (
            #[trigger] before[x]).version by {
                if x > at {
                    assert(before[at as int].version <= before[x].version);
                }
            }
            assert forall|a: int, b: int| 0 <= a < b < after.len() implies (
            #[trigger] after[a]).version <= (#[trigger] after[b]).version by {
                if a < at {
                    assert(after[a] == before[a]);
                } else if a > at {
                    assert(after[a] == before[a - 1]);
                }
                if b < at {
                    assert(after[b] == before[b]);
                } else if b > at {
                    assert(after[b] == before[b - 1]);
                }
            }
            vstd::seq_lib::to_multiset_insert(before, at as int, record);
            vstd::seq_lib::to_multiset_build(records@.take(i as int), record);
            assert(records@.take(i + 1) =~= records@.take(i as int).push(record));
        }
        sorted.insert(at, record);
        i += 1;
    }
    proof {
        assert(records@.take(i as int) =~= records@);
    }
    sorted
}

/// What has to be created before the history can be read and written.
#[derive(Debug, Clone, Copy, PartialEq, Eq)]
pub struct Preparation {
    pub create_keyspace: bool,
    pub create_table: bool,
}

/// The names that a list of table names holds.
pub open spec fn table_set(names: Seq<String>) -> Set<Seq<char>> {
    Set::new(|t: Seq<char>| exists|i: int| 0 <= i < names.len() && (#[trigger] names[i])@ == t)
}

/// What to create, given the tables of the history keyspace, or `None` where
/// the keyspace does not exist: a missing keyspace is created and then the
/// table; in an existing keyspace the table is created where it is missing.
pub open spec fn preparation(tables: Option<Set<Seq<char>>>, table: Seq<char>) -> Preparation {
    match tables {
        None => Preparation { create_keyspace: true, create_table: true },
        Some(names) => Preparation { create_keyspace: false, create_table: !names.contains(table) },
    }
}

/// What to create before a run. `table_names` are the tables of the history
/// keyspace, or `None` where looking them up failed.
pub fn prepare_cquill_keyspace(table_names: Option<&Vec<String>>, table_name: &str) -> (r:
    Preparation)
    ensures
        r == preparation(
            match table_names {
                Some(names) => Some(table_set(names@)),
                None => None,
            },
            table_name@,
        ),
{
    match table_names {
        None => Preparation { create_keyspace: true, create_table: true },
        Some(names) => {
            let wanted = String::from_str(table_name);
            let mut i: usize = 0;
            while i < names.len()
                invariant
                    i <= names.len(),
                    table_names == Some(names),
                    wanted@ == table_name@,
                    forall|j: int| 0 <= j < i ==> (#[trigger] names@[j])@ != table_name@,
                decreases names.len() - i,
            {
                if names[i] == wanted {
                    assert(table_set(names@).contains(table_name@));
                    return Preparation { create_keyspace: false, create_table: false };
                }
                i += 1;
            }
            Preparation { create_keyspace: false, create_table: true }
        },
    }
}

/// The keyspaces of a cluster, each with the names of its tables.
pub type Schema = Map<Seq<char>, Set<Seq<char>>>;

/// The tables of `keyspace`, where the cluster has it.
pub open spec fn tables_of(schema: Schema, keyspace: Seq<char>) -> Option<Set<Seq<char>>> {
    if schema.contains_key(keyspace) {
        Some(schema[keyspace])
    } else {
        None
    }
}

/// The cluster after the preparation was carried out: the keyspace created
/// first, then the table in it.
pub open spec fn prepared(
    schema: Schema,
    keyspace: Seq<char>,
    table: Seq<char>,
    plan: Preparation,
) -> Schema {
    let with_keyspace = if plan.create_keyspace && !schema.contains_key(keyspace) {
        schema.insert(keyspace, Set::empty())
    } else {
        schema
    };
    if plan.create_table && with_keyspace.contains_key(keyspace) {
        with_keyspace.insert(keyspace, with_keyspace[keyspace].insert(table))
    } else {
        with_keyspace
    }
}

/// Preparing is idempotent: once a preparation was carried out, the history
/// table exists, preparing again asks for nothing, and carrying that out
/// leaves the cluster as it is.
pub proof fn lemma_prepare_twice(schema: Schema, keyspace: Seq<char>, table: Seq<char>)
    ensures
        ({
            let first = preparation(tables_of(schema, keyspace), table);
            let after = prepared(schema, keyspace, table, first);
            let second = preparation(tables_of(after, keyspace), table);
            &&& tables_of(after, keyspace) matches Some(names) && names.contains(table)
            &&& second == Preparation { create_keyspace: false, create_table: false }
            &&& prepared(after, keyspace, table, second) == after
        }),
{
}

/// The statement that creates the history table.
pub open spec fn create_table_statement(keyspace: Seq<char>, table: Seq<char>) -> Seq<char> {
    "create table "@ + keyspace + "."@ + table
        + " (version bigint primary key, hash bigint, applied_at timestamp)"@
}

/// The statement that reads the history.
pub open spec fn select_statement(keyspace: Seq<char>, table: Seq<char>) -> Seq<char> {
    "select version, hash, applied_at from "@ + keyspace + "."@ + table
}

/// The statement that adds a record to the history; its three values are
/// bound when it is executed.
pub open spec fn insert_statement(keyspace: Seq<char>, table: Seq<char>) -> Seq<char> {
    "insert into "@ + keyspace + "."@ + table + " (version, hash, applied_at) values (?, ?, ?)"@
}

/// The statement that creates the history table.
pub fn create_table_cql(keyspace: &str, table: &str) -> (r: String)
    ensures
        r@ == create_table_statement(keyspace@, table@),
{
    String::from_str("create table ").concat(keyspace).concat(".").concat(table).concat(
        " (version bigint primary key, hash bigint, applied_at timestamp)",
    )
}

/// The statement that reads the history.
pub fn select_cql(keyspace: &str, table: &str) -> (r: String)
    ensures
        r@ == select_statement(keyspace@, table@),
{
    String::from_str("select version, hash, applied_at from ").concat(keyspace).concat(".").concat(
        table,
    )
}

/// The statement that adds a record to the history.
pub fn insert_cql(keyspace: &str, table: &str) -> (r: String)
    ensures
        r@ == insert_statement(keyspace@, table@),
{
    String::from_str("insert into ").concat(keyspace).concat(".").concat(table).concat(
        " (version, hash, applied_at) values (?, ?, ?)",
    )
}

} // verus!
