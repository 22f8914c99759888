use cquill::cql::{files_from_entries, CqlFile};
use cquill::history::{
    create_table_cql, insert_cql, order_history, prepare_cquill_keyspace, select_cql,
    HistoryRecord, Preparation,
};
use cquill::keyspace::ConfigError;
use cquill::migrate::{
    check_drift, is_recorded, pending_files, Drift, MigrateError, MigrateErrorState, Migration,
};
use std::collections::BTreeMap;

/// A cluster in memory: its keyspaces with their tables, the history, and the
/// scripts that fail when they are executed.
struct Cluster {
    schema: BTreeMap<String, Vec<String>>,
    history: Vec<HistoryRecord>,
    broken: Vec<u32>,
    executed: Vec<u32>,
    created: Vec<String>,
    clock: i64,
}

impl Cluster {
    fn new() -> Self {
        Cluster {
            schema: BTreeMap::new(),
            history: Vec::new(),
            broken: Vec::new(),
            executed: Vec::new(),
            created: Vec::new(),
            clock: 1_700_000_000_000,
        }
    }

    fn prepare(&mut self, keyspace: &str, table: &str) -> Preparation {
        let names = self.schema.get(keyspace).cloned();
        let plan = prepare_cquill_keyspace(names.as_ref(), table);
        if plan.create_keyspace {
            assert!(self.schema.insert(keyspace.to_string(), Vec::new()).is_none());
            self.created.push(format!("keyspace {keyspace}"));
        }
        if plan.create_table {
            let tables = self.schema.get_mut(keyspace).unwrap();
            assert!(!tables.iter().any(|t| t == table));
            tables.push(table.to_string());
            self.created.push(format!("table {keyspace}.{table}"));
        }
        plan
    }

    fn run(&mut self, files: &Vec<CqlFile>) -> Result<Vec<u32>, MigrateError> {
        let mut run = Migration::begin(&self.history, files)?;
        while let Some(file) = run.next() {
            let version = file.version;
            self.executed.push(version);
            if self.broken.contains(&version) {
                return Err(run.fail(format!("script {version} is broken")));
            }
            self.clock += 1;
            let record = run.record(self.clock).unwrap();
            assert_eq!(record.version, version);
            self.history.push(record);
            run.advance();
        }
        assert_eq!(run.record(0), None);
        Ok(run.finish().iter().map(|f| f.version).collect())
    }
}

fn scripts(versions: &[u32]) -> Vec<CqlFile> {
    let entries: Vec<(String, String)> = versions
        .iter()
        .map(|v| (format!("v{v:03}-step.cql"), format!("create table t{v} (id int primary key);")))
        .collect();
    files_from_entries(&entries).unwrap()
}

fn recorded(history: &Vec<HistoryRecord>) -> Vec<u32> {
    history.iter().map(|r| r.version).collect()
}

#[test]
fn test_prepare_cquill_keyspace_when_keyspace_does_not_exist() {
    let mut cluster = Cluster::new();
    let plan = cluster.prepare("cquill", "table_name");
    assert_eq!(plan, Preparation { create_keyspace: true, create_table: true });
    assert!(cluster.schema["cquill"].contains(&"table_name".to_string()));
}

#[test]
fn test_prepare_cquill_keyspace_when_table_does_not_exist() {
    let mut cluster = Cluster::new();
    cluster.schema.insert("cquill".to_string(), vec!["other".to_string()]);
    let plan = cluster.prepare("cquill", "table_name");
    assert_eq!(plan, Preparation { create_keyspace: false, create_table: true });
    assert_eq!(cluster.schema["cquill"], vec!["other".to_string(), "table_name".to_string()]);
}

#[test]
fn test_prepare_cquill_keyspace_when_keyspace_and_table_exist() {
    let mut cluster = Cluster::new();
    cluster.schema.insert("cquill".to_string(), vec!["a".to_string(), "table_name".to_string()]);
    let plan = cluster.prepare("cquill", "table_name");
    assert_eq!(plan, Preparation { create_keyspace: false, create_table: false });
    assert!(cluster.created.is_empty());
}

#[test]
fn preparing_twice_creates_once() {
    let mut cluster = Cluster::new();
    cluster.prepare("cquill", "migrated_cql");
    assert_eq!(cluster.created, vec!["keyspace cquill", "table cquill.migrated_cql"]);
    let again = cluster.prepare("cquill", "migrated_cql");
    assert_eq!(again, Preparation { create_keyspace: false, create_table: false });
    assert_eq!(cluster.created.len(), 2);
}

#[test]
fn table_names_are_compared_whole() {
    let names = vec!["migrated".to_string(), "migrated_cql_2".to_string(), "Migrated_cql".to_string()];
    assert!(prepare_cquill_keyspace(Some(&names), "migrated_cql").create_table);
    assert!(prepare_cquill_keyspace(Some(&Vec::new()), "migrated_cql").create_table);
    assert!(!prepare_cquill_keyspace(Some(&names), "migrated").create_table);
}

#[test]
fn history_statements_name_keyspace_and_table() {
    assert_eq!(
        create_table_cql("cquill", "migrated_cql"),
        "create table cquill.migrated_cql (version bigint primary key, hash bigint, applied_at timestamp)"
    );
    assert_eq!(
        select_cql("cquill", "migrated_cql"),
        "select version, hash, applied_at from cquill.migrated_cql"
    );
    assert_eq!(
        insert_cql("cquill", "migrated_cql"),
        "insert into cquill.migrated_cql (version, hash, applied_at) values (?, ?, ?)"
    );
}

#[test]
fn first_run_applies_every_script_in_order() {
    let mut cluster = Cluster::new();
    let files = scripts(&[3, 1, 2]);
    assert_eq!(cluster.run(&files).unwrap(), vec![1, 2, 3]);
    assert_eq!(cluster.executed, vec![1, 2, 3]);
    assert_eq!(recorded(&cluster.history), vec![1, 2, 3]);
    for (record, file) in cluster.history.iter().zip(files.iter()) {
        assert_eq!(record.hash, file.hash);
    }
    assert_eq!(cluster.history[0].applied_at, 1_700_000_000_001);
    assert_eq!(cluster.history[2].applied_at, 1_700_000_000_003);
}

#[test]
fn second_run_without_new_scripts_applies_nothing() {
    let mut cluster = Cluster::new();
    let files = scripts(&[1, 2, 3]);
    cluster.run(&files).unwrap();
    assert_eq!(cluster.run(&files).unwrap(), Vec::<u32>::new());
    assert_eq!(cluster.executed, vec![1, 2, 3]);
    assert_eq!(recorded(&cluster.history), vec![1, 2, 3]);
}

#[test]
fn run_without_scripts_is_up_to_date() {
    let mut cluster = Cluster::new();
    assert_eq!(cluster.run(&Vec::new()).unwrap(), Vec::<u32>::new());
}

#[test]
fn run_applies_exactly_the_scripts_that_are_not_recorded() {
    let mut cluster = Cluster::new();
    let files = scripts(&[1, 2, 3]);
    cluster.history.push(HistoryRecord { version: 1, hash: files[0].hash, applied_at: 5 });
    assert_eq!(cluster.run(&files).unwrap(), vec![2, 3]);
    assert_eq!(cluster.executed, vec![2, 3]);
    assert_eq!(recorded(&cluster.history), vec![1, 2, 3]);
}

#[test]
fn run_applies_an_older_script_that_was_added_later() {
    let mut cluster = Cluster::new();
    cluster.run(&scripts(&[1, 3])).unwrap();
    assert_eq!(cluster.run(&scripts(&[1, 2, 3, 4])).unwrap(), vec![2, 4]);
}

#[test]
fn failed_script_stops_the_run_and_is_not_recorded() {
    let mut cluster = Cluster::new();
    let files = scripts(&[1, 2, 3]);
    cluster.history.push(HistoryRecord { version: 1, hash: files[0].hash, applied_at: 5 });
    cluster.broken.push(2);
    let error = cluster.run(&files).unwrap_err();
    match &error {
        MigrateError::Apply { state } => {
            assert_eq!(state.failing, Some(2));
            assert_eq!(state.applied, Vec::<CqlFile>::new());
            assert_eq!(state.cause, "script 2 is broken");
        }
        other => panic!("{other:?}"),
    }
    assert_eq!(error.to_text(), "script 2 is broken");
    assert_eq!(cluster.executed, vec![2]);
    assert_eq!(recorded(&cluster.history), vec![1]);

    cluster.broken.clear();
    cluster.executed.clear();
    assert_eq!(cluster.run(&files).unwrap(), vec![2, 3]);
    assert_eq!(cluster.executed, vec![2, 3]);
    assert_eq!(recorded(&cluster.history), vec![1, 2, 3]);
}

#[test]
fn failure_reports_the_scripts_applied_before_it() {
    let mut cluster = Cluster::new();
    let files = scripts(&[1, 2, 3, 4]);
    cluster.broken.push(3);
    match cluster.run(&files).unwrap_err() {
        MigrateError::Apply { state } => {
            assert_eq!(state.failing, Some(3));
            assert_eq!(state.applied, vec![files[0].clone(), files[1].clone()]);
        }
        other => panic!("{other:?}"),
    }
    assert_eq!(recorded(&cluster.history), vec![1, 2]);
    assert_eq!(cluster.executed, vec![1, 2, 3]);
    cluster.broken.clear();
    assert_eq!(cluster.run(&files).unwrap(), vec![3, 4]);
}

#[test]
fn changed_script_is_a_drift_and_nothing_is_applied() {
    let mut cluster = Cluster::new();
    cluster.run(&scripts(&[1, 2])).unwrap();
    cluster.executed.clear();
    let mut entries: Vec<(String, String)> = vec![
        ("v001-step.cql".to_string(), "create table t1 (id int primary key);".to_string()),
        ("v002-step.cql".to_string(), "create table t2 (id bigint primary key);".to_string()),
        ("v003-step.cql".to_string(), "create table t3 (id int primary key);".to_string()),
    ];
    let changed = files_from_entries(&entries).unwrap();
    let error = cluster.run(&changed).unwrap_err();
    assert_eq!(error, MigrateError::Drift { drift: Drift::Changed { version: 2 } });
    assert_eq!(error.to_text(), "the cql file of version 2 was changed after it was applied");
    assert!(cluster.executed.is_empty());
    assert_eq!(recorded(&cluster.history), vec![1, 2]);
    let state = error.state();
    assert_eq!(state.failing, None);
    assert!(state.applied.is_empty());

    entries[1].1 = "create table t2 (id int primary key);".to_string();
    assert_eq!(cluster.run(&files_from_entries(&entries).unwrap()).unwrap(), vec![3]);
}

#[test]
fn missing_script_is_a_drift_and_nothing_is_applied() {
    let mut cluster = Cluster::new();
    cluster.run(&scripts(&[1, 2])).unwrap();
    cluster.executed.clear();
    let error = cluster.run(&scripts(&[2, 3])).unwrap_err();
    assert_eq!(error, MigrateError::Drift { drift: Drift::Missing { version: 1 } });
    assert_eq!(error.to_text(), "the cql file of version 1 was applied and is missing");
    assert!(cluster.executed.is_empty());
}

#[test]
fn first_record_that_differs_decides_the_drift() {
    let files = scripts(&[1, 2, 3]);
    let history = vec![
        HistoryRecord { version: 3, hash: files[2].hash, applied_at: 0 },
        HistoryRecord { version: 2, hash: files[1].hash ^ 1, applied_at: 0 },
        HistoryRecord { version: 9, hash: 0, applied_at: 0 },
    ];
    assert_eq!(check_drift(&history, &files), Some(Drift::Changed { version: 2 }));
    assert_eq!(check_drift(&history[..1].to_vec(), &files), None);
    assert_eq!(check_drift(&history[2..].to_vec(), &files), Some(Drift::Missing { version: 9 }));
    assert_eq!(check_drift(&Vec::new(), &files), None);
}

#[test]
fn pending_scripts_keep_the_order_of_the_scripts() {
    let files = scripts(&[1, 2, 3, 4, 5]);
    let history = vec![
        HistoryRecord { version: 4, hash: files[3].hash, applied_at: 0 },
        HistoryRecord { version: 2, hash: files[1].hash, applied_at: 0 },
    ];
    assert!(is_recorded(&history, 2));
    assert!(!is_recorded(&history, 3));
    let pending: Vec<u32> = pending_files(&history, &files).iter().map(|f| f.version).collect();
    assert_eq!(pending, vec![1, 3, 5]);
}

#[test]
fn run_state_follows_the_scripts() {
    let files = scripts(&[1, 2]);
    let mut run = Migration::begin(&Vec::new(), &files).unwrap();
    assert_eq!(run.next(), Some(&files[0]));
    assert_eq!(
        run.record(42),
        Some(HistoryRecord { version: 1, hash: files[0].hash, applied_at: 42 })
    );
    run.advance();
    assert_eq!(run.next(), Some(&files[1]));
    run.advance();
    assert_eq!(run.next(), None);
    assert_eq!(run.record(42), None);
    run.advance();
    assert_eq!(run.next(), None);
    assert_eq!(run.finish(), files);
}

#[test]
fn failing_a_complete_run_names_no_script() {
    let files = scripts(&[1]);
    let mut run = Migration::begin(&Vec::new(), &files).unwrap();
    run.advance();
    match run.fail("late".to_string()) {
        MigrateError::Apply { state } => {
            assert_eq!(
                state,
                MigrateErrorState { cause: "late".to_string(), failing: None, applied: files }
            );
        }
        other => panic!("{other:?}"),
    }
}

#[test]
fn errors_before_any_script_carry_an_empty_state() {
    let errors = vec![
        (MigrateError::Config { error: ConfigError::MissingClass }, "replication object missing class field"),
        (MigrateError::Connectivity { node_address: "127.0.0.1:9042".to_string() }, "could not connect to 127.0.0.1:9042"),
        (MigrateError::Bootstrap { cause: "no permission".to_string() }, "no permission"),
        (
            MigrateError::Discovery {
                error: cquill::cql::DiscoveryError::InvalidName { filename: "x".to_string() },
            },
            "x is not a valid cql file name",
        ),
        (MigrateError::Drift { drift: Drift::Missing { version: 4294967295 } }, "the cql file of version 4294967295 was applied and is missing"),
    ];
    for (error, text) in errors {
        assert_eq!(error.to_text(), text);
        let state = error.state();
        assert_eq!(state.cause, text);
        assert_eq!(state.failing, None);
        assert!(state.applied.is_empty());
    }
}

#[test]
fn history_is_ordered_by_version() {
    let record = |version: u32, applied_at: i64| HistoryRecord { version, hash: 7, applied_at };
    let records = vec![record(3, 0), record(1, 1), record(2, 2), record(1, 3), record(0, 4)];
    assert_eq!(
        order_history(&records),
        vec![record(0, 4), record(1, 1), record(1, 3), record(2, 2), record(3, 0)]
    );
    assert_eq!(order_history(&Vec::new()), Vec::new());
}
