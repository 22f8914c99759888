//! Versioned CQL schema migrations for Cassandra-style clusters.
//!
//! Scripts are applied in the order of their versions, each once: a history
//! table in the cluster records what was applied, and a run applies what the
//! history lacks. This crate holds the decisions of such a run, with their
//! contracts; talking to the cluster and reading the script directory is
//! left to the caller.
//!
//! - `keyspace`: keyspace options and replication settings, their parser and
//!   their CQL text.
//! - `roundtrip`: the proof that written settings are read back unchanged.
//! - `cql`: scripts, their versions and checksums, and their discovery.
//! - `history`: history records, the statements that keep them, and the
//!   preparation of the history keyspace and table.
//! - `migrate`: drift detection, pending scripts, the state of a run and its
//!   errors.
//! - `text`: searching, splitting, trimming and decimal numbers on sequences
//!   of characters.

use vstd::prelude::*;
use std::path::PathBuf;
use crate::keyspace::{KeyspaceOpts, ReplicationFactorView};
use crate::migrate::MigrateArgs;
use crate::text::{chars_of, find_char, lemma_find};

pub mod cql;
pub mod history;
pub mod keyspace;
pub mod migrate;
pub mod roundtrip;
pub mod text;

verus! {

/// The node that is contacted where neither the options nor the environment
/// name one.
pub const NODE_ADDRESS: &'static str = "127.0.0.1:9042";

/// What is appended to a node address that names no port.
pub const DEFAULT_PORT: &'static str = ":9042";

/// The history keyspace, where the options name none.
pub const KEYSPACE: &'static str = "cquill";

/// The history table, where the options name none.
pub const TABLE: &'static str = "migrated_cql";

/// `std::path::PathBuf`: a path, carried through and never read here.
#[verifier::external_type_specification]
#[verifier::external_body]
pub struct ExPathBuf(PathBuf);

/// What a migration run is started with.
#[derive(Debug)]
pub struct MigrateOpts {
    pub cassandra_opts: Option<CassandraOpts>,
    pub cql_dir: PathBuf,
    pub apply_keyspace: String,
    pub history_keyspace: Option<KeyspaceOpts>,
    pub history_table: Option<String>,
}

/// How the cluster is reached.
#[derive(Debug, Clone, PartialEq, Eq)]
pub struct CassandraOpts {
    pub cassandra_host: Option<String>,
}

/// The address of the node to contact: the host of the options, else what the
/// environment names, else `NODE_ADDRESS`; with the default port where the
/// address holds no colon.
pub open spec fn node_address_of(host: Option<Seq<char>>, environment: Option<Seq<char>>) -> Seq<
    char,
> {
    let node = match host {
        Some(h) => h,
        None => match environment {
            Some(e) => e,
            None => NODE_ADDRESS@,
        },
    };
    if node.contains(':') {
        node
    } else {
        node + DEFAULT_PORT@
    }
}

impl Default for CassandraOpts {
    fn default() -> (r: Self)
        ensures
            r.cassandra_host is None,
    {
        CassandraOpts { cassandra_host: None }
    }
}

impl CassandraOpts {
    /// The host of the options, if any.
    pub open spec fn host(&self) -> Option<Seq<char>> {
        match self.cassandra_host {
            Some(h) => Some(h@),
            None => None,
        }
    }

    /// The address of the node to contact. `environment` is the value of the
    /// variable `CASSANDRA_NODE`, where it is set.
    pub fn node_address(&self, environment: Option<&str>) -> (r: String)
        ensures
            r@ == node_address_of(
                self.host(),
                match environment {
                    Some(e) => Some(e@),
                    None => None,
                },
            ),
    {
        let node: String = match &self.cassandra_host {
            Some(host) => host.clone(),
            None => match environment {
                Some(e) => String::from_str(e),
                None => String::from_str(NODE_ADDRESS),
            },
        };
        let chars = chars_of(node.as_str());
        proof {
            lemma_find(chars@, ':');
        }
        match find_char(&chars, ':') {
            Some(i) => {
                assert(chars@[i as int] == ':');
                node
            },
            None => node.concat(DEFAULT_PORT),
        }
    }
}

/// What a run is carried out with, once the defaults are filled in.
#[derive(Debug)]
pub struct Resolved {
    /// How the cluster is reached.
    pub cassandra_opts: CassandraOpts,
    /// The history keyspace, with the settings to create it with.
    pub history_keyspace: KeyspaceOpts,
    /// What the run works on.
    pub args: MigrateArgs,
}

impl MigrateOpts {
    /// Fills in the defaults: no host, the history keyspace `KEYSPACE` with
    /// the simple strategy and a factor of 1, and the history table `TABLE`.
    pub fn resolve(self) -> (r: Resolved)
        ensures
            r.cassandra_opts == match self.cassandra_opts {
                Some(opts) => opts,
                None => CassandraOpts { cassandra_host: None },
            },
            match self.history_keyspace {
                Some(keyspace) => r.history_keyspace == keyspace,
                None => r.history_keyspace.name@ == KEYSPACE@
                    && r.history_keyspace.replication_view()
                    == (ReplicationFactorView::SimpleStrategy { factor: 1 }),
            },
            r.args.cql_dir == self.cql_dir,
            r.args.apply_keyspace == self.apply_keyspace,
            r.args.history_keyspace@ == r.history_keyspace.name@,
            r.args.history_table@ == match self.history_table {
                Some(table) => table@,
                None => TABLE@,
            },
    {
        let MigrateOpts { cassandra_opts, cql_dir, apply_keyspace, history_keyspace, history_table } =
            self;
        let cassandra_opts = match cassandra_opts {
            Some(opts) => opts,
            None => CassandraOpts { cassandra_host: None },
        };
        let history_keyspace = match history_keyspace {
            Some(keyspace) => keyspace,
            None => KeyspaceOpts::simple(String::from_str(KEYSPACE), 1),
        };
        let history_table = match history_table {
            Some(table) => table,
            None => String::from_str(TABLE),
        };
        let name = history_keyspace.name.clone();
        Resolved {
            cassandra_opts,
            history_keyspace,
            args: MigrateArgs { cql_dir, apply_keyspace, history_keyspace: name, history_table },
        }
    }
}

} // verus!
