use cquill::keyspace::{
    valid_datacenter_name, valid_identifier, ConfigError, DatacenterFactors, KeyspaceOpts,
    ReplicationFactor, REPLICATION,
};

fn parsed(text: &str) -> ReplicationFactor {
    match ReplicationFactor::parse(text) {
        Ok(replication) => replication,
        Err(e) => panic!("{}", e.message()),
    }
}

fn refused(text: &str) -> ConfigError {
    match ReplicationFactor::parse(text) {
        Ok(_) => panic!(),
        Err(e) => e,
    }
}

fn network(entries: &[(&str, u8)]) -> ReplicationFactor {
    let mut datacenter_factors = DatacenterFactors::new();
    for (name, factor) in entries {
        assert_eq!(datacenter_factors.insert(name.to_string(), *factor), None);
    }
    ReplicationFactor::NetworkTopologyStrategy { datacenter_factors }
}

#[test]
fn default_text_is_simple_strategy_with_factor_one() {
    assert_eq!(parsed(REPLICATION), ReplicationFactor::SimpleStrategy { factor: 1 });
    assert_eq!((ReplicationFactor::SimpleStrategy { factor: 1 }).to_cql(), REPLICATION);
}

#[test]
fn simple_strategy_round_trips_for_every_factor() {
    for factor in 0..=255u8 {
        let text = (ReplicationFactor::SimpleStrategy { factor }).to_cql();
        assert_eq!(parsed(&text), ReplicationFactor::SimpleStrategy { factor });
        assert_eq!(parsed(&text).to_cql(), text);
    }
}

#[test]
fn simple_strategy_renders_exact_text() {
    assert_eq!(
        (ReplicationFactor::SimpleStrategy { factor: 0 }).to_cql(),
        "{ 'class': 'SimpleStrategy', 'replication_factor': 0 }"
    );
    assert_eq!(
        (ReplicationFactor::SimpleStrategy { factor: 255 }).to_cql(),
        "{ 'class': 'SimpleStrategy', 'replication_factor': 255 }"
    );
}

#[test]
fn network_strategy_renders_exact_text_and_round_trips() {
    let replication = network(&[("dc1", 3), ("dc2", 5), ("eu_west_1", 12)]);
    let text = replication.to_cql();
    assert_eq!(
        text,
        "{ 'class': 'NetworkTopologyStrategy', 'dc1': 3, 'dc2': 5, 'eu_west_1': 12 }"
    );
    assert_eq!(parsed(&text), replication);
}

#[test]
fn network_strategy_keeps_every_entry_once_and_in_order() {
    let replication = parsed("{'class':'NetworkTopologyStrategy','zz':1,'aa':2,'m_1':255}");
    match replication {
        ReplicationFactor::NetworkTopologyStrategy { datacenter_factors } => {
            assert_eq!(datacenter_factors.len(), 3);
            assert!(!datacenter_factors.is_empty());
            assert_eq!(datacenter_factors.name(0), "zz");
            assert_eq!(datacenter_factors.factor(0), 1);
            assert_eq!(datacenter_factors.name(1), "aa");
            assert_eq!(datacenter_factors.factor(1), 2);
            assert_eq!(datacenter_factors.name(2), "m_1");
            assert_eq!(datacenter_factors.factor(2), 255);
            assert_eq!(datacenter_factors.get("aa"), Some(2));
            assert_eq!(datacenter_factors.get("class"), None);
        }
        ReplicationFactor::SimpleStrategy { .. } => panic!(),
    }
}

#[test]
fn class_may_stand_anywhere_in_the_object() {
    assert_eq!(
        parsed("{'dc1': 3, 'class': 'NetworkTopologyStrategy', 'dc2': 5}"),
        network(&[("dc1", 3), ("dc2", 5)])
    );
    assert_eq!(
        parsed("{'replication_factor': 2, 'class': 'SimpleStrategy'}"),
        ReplicationFactor::SimpleStrategy { factor: 2 }
    );
}

#[test]
fn quotes_and_whitespace_are_trimmed() {
    assert_eq!(
        parsed("  \t{ \"class\" : \"SimpleStrategy\" , replication_factor : '7' }\n"),
        ReplicationFactor::SimpleStrategy { factor: 7 }
    );
    assert_eq!(
        parsed("{class:SimpleStrategy,replication_factor:\"'9'\"}"),
        ReplicationFactor::SimpleStrategy { factor: 9 }
    );
    assert_eq!(
        parsed("\u{a0}{'class': 'SimpleStrategy', 'replication_factor': 4}\u{3000}"),
        ReplicationFactor::SimpleStrategy { factor: 4 }
    );
}

#[test]
fn inner_whitespace_of_a_quoted_key_is_kept() {
    assert_eq!(
        refused("{'class': 'SimpleStrategy', ' replication_factor ': 1}"),
        ConfigError::MissingReplicationFactor
    );
}

#[test]
fn factor_is_a_byte() {
    let with = |value: &str| {
        ReplicationFactor::parse(&format!("{{'class': 'SimpleStrategy', 'replication_factor': {value}}}"))
    };
    assert_eq!(with("0"), Ok(ReplicationFactor::SimpleStrategy { factor: 0 }));
    assert_eq!(with("255"), Ok(ReplicationFactor::SimpleStrategy { factor: 255 }));
    assert_eq!(with("+5"), Ok(ReplicationFactor::SimpleStrategy { factor: 5 }));
    assert_eq!(with("007"), Ok(ReplicationFactor::SimpleStrategy { factor: 7 }));
    assert_eq!(with("0000000000000000000000255"), Ok(ReplicationFactor::SimpleStrategy { factor: 255 }));
    for bad in ["256", "1000", "99999999999999999999999", "-1", "-0", "+", "1.0", "1 2", "0x10", "١"] {
        assert_eq!(
            with(bad),
            Err(ConfigError::FactorNotANumber { value: bad.to_string() }),
            "{bad}"
        );
    }
    assert_eq!(with(""), Err(ConfigError::FactorNotANumber { value: String::new() }));
}

#[test]
fn value_is_what_follows_the_first_colon() {
    assert_eq!(
        refused("{'class': 'SimpleStrategy', 'replication_factor': 1:2}"),
        ConfigError::FactorNotANumber { value: "1:2".to_string() }
    );
    assert_eq!(
        refused("{'class': 'a:b'}"),
        ConfigError::UnsupportedClass { class: "a:b".to_string() }
    );
}

#[test]
fn braces_are_required() {
    for text in ["", " ", "{", "}", "{'class': 'SimpleStrategy'", "'class': 'SimpleStrategy'}", "}{"] {
        assert_eq!(refused(text), ConfigError::NotAnObject, "{text}");
    }
}

#[test]
fn empty_object_and_empty_segments_are_invalid_pairs() {
    assert_eq!(refused("{}"), ConfigError::InvalidPair);
    assert_eq!(refused("{ }"), ConfigError::InvalidPair);
    assert_eq!(
        refused("{'class': 'SimpleStrategy', 'replication_factor': 1,}"),
        ConfigError::InvalidPair
    );
    assert_eq!(refused("{,'class': 'SimpleStrategy'}"), ConfigError::InvalidPair);
}

#[test]
fn first_faulty_segment_decides_the_error() {
    assert_eq!(
        refused("{'a': 1, 'a': 2, nonsense}"),
        ConfigError::DuplicateKey { key: "a".to_string() }
    );
    assert_eq!(refused("{'a': 1, nonsense, 'a': 2}"), ConfigError::InvalidPair);
    assert_eq!(
        refused("{\"class\": 'SimpleStrategy', 'class': 'SimpleStrategy'}"),
        ConfigError::DuplicateKey { key: "class".to_string() }
    );
}

#[test]
fn first_faulty_datacenter_decides_the_error() {
    assert_eq!(
        refused("{'class': 'NetworkTopologyStrategy', 'dc1': 1, 'D2': 1, 'dc3': x}"),
        ConfigError::InvalidDatacenterName { name: "D2".to_string() }
    );
    assert_eq!(
        refused("{'class': 'NetworkTopologyStrategy', 'dc1': 1, 'dc3': x, 'D2': 1}"),
        ConfigError::DatacenterFactorNotANumber {
            datacenter: "dc3".to_string(),
            value: "x".to_string()
        }
    );
}

#[test]
fn datacenter_factor_message_names_datacenter_then_value() {
    assert_eq!(
        refused("{'class': 'NetworkTopologyStrategy', 'dc1': 'many'}").message(),
        "replication factor dc1 for datacenter many must be a number"
    );
    assert_eq!(
        refused("{'class': 'NetworkTopologyStrategy', 'dc1': 256}").message(),
        "replication factor dc1 for datacenter 256 must be a number"
    );
}

#[test]
fn network_strategy_treats_every_other_key_as_a_datacenter() {
    assert_eq!(
        parsed("{'class': 'NetworkTopologyStrategy', 'replication_factor': 3}"),
        network(&[("replication_factor", 3)])
    );
}

#[test]
fn simple_strategy_ignores_other_keys() {
    assert_eq!(
        parsed("{'class': 'SimpleStrategy', 'replication_factor': 3, 'Other Key': 'x'}"),
        ReplicationFactor::SimpleStrategy { factor: 3 }
    );
}

#[test]
fn every_error_has_its_message() {
    let name = || "x".to_string();
    assert_eq!(ConfigError::NotAnObject.message(), "not a valid keyspace replication object");
    assert_eq!(
        ConfigError::InvalidPair.message(),
        "not a valid key-value pair in keyspace replication object"
    );
    assert_eq!(
        (ConfigError::DuplicateKey { key: name() }).message(),
        "replication object duplicates key-value pair x"
    );
    assert_eq!(ConfigError::MissingClass.message(), "replication object missing class field");
    assert_eq!(
        (ConfigError::UnsupportedClass { class: name() }).message(),
        "replication class x field is an unsupported type"
    );
    assert_eq!(
        ConfigError::MissingReplicationFactor.message(),
        "replication object missing replication_factor field"
    );
    assert_eq!(
        (ConfigError::FactorNotANumber { value: name() }).message(),
        "replication factor x must be a number"
    );
    assert_eq!(
        ConfigError::NoDatacenters.message(),
        "network replication must specify at least one datacenter's replication factor"
    );
    assert_eq!(
        (ConfigError::InvalidDatacenterName { name: name() }).message(),
        "datacenter x is not a valid name"
    );
    assert_eq!(
        (ConfigError::DatacenterFactorNotANumber { datacenter: name(), value: "y".to_string() })
            .message(),
        "replication factor x for datacenter y must be a number"
    );
    assert_eq!(
        (ConfigError::InvalidKeyspaceName { name: name() }).message(),
        "keyspace x is not a valid name"
    );
}

#[test]
fn datacenter_names_match_the_pattern() {
    for good in ["dc", "dc1", "a_", "__", "00", "us_east_1", "abcdefghijklmnopqrstuvwxyz0123456789_"] {
        assert!(valid_datacenter_name(good), "{good}");
    }
    for bad in ["", "a", "_", "DC1", "dc-1", "dc 1", " dc1", "dc1 ", "dc1\n", "dć", "d١", "dc.1", "dc:1"] {
        assert!(!valid_datacenter_name(bad), "{bad}");
    }
}

#[test]
fn identifiers_are_letters_digits_and_underscores() {
    for good in ["a", "A", "_", "0", "cquill", "Cquill_2", "test_keyspace_01"] {
        assert!(valid_identifier(good), "{good}");
    }
    for bad in ["", " ", "a b", "a-b", "a;b", "a.b", "é", "a\n", "'a'"] {
        assert!(!valid_identifier(bad), "{bad}");
    }
}

#[test]
fn datacenter_factors_insert_replaces_and_keeps_order() {
    let mut factors = DatacenterFactors::new();
    assert!(factors.is_empty());
    assert_eq!(factors.get("dc1"), None);
    assert_eq!(factors.insert("dc1".to_string(), 1), None);
    assert_eq!(factors.insert("dc2".to_string(), 2), None);
    assert_eq!(factors.insert("dc1".to_string(), 9), Some(1));
    assert_eq!(factors.len(), 2);
    assert_eq!(factors.name(0), "dc1");
    assert_eq!(factors.factor(0), 9);
    assert_eq!(factors.name(1), "dc2");
    assert_eq!(factors.get("dc1"), Some(9));
    assert_eq!(factors.get("dc2"), Some(2));
    assert_eq!(factors.get("dc"), None);
}

#[test]
fn simple_keyspace_has_the_simple_strategy() {
    let keyspace = KeyspaceOpts::simple("cquill".to_string(), 3);
    assert_eq!(keyspace.name, "cquill");
    assert_eq!(keyspace.replication, Some(ReplicationFactor::SimpleStrategy { factor: 3 }));
    assert_eq!(
        keyspace.replication_text(),
        "{ 'class': 'SimpleStrategy', 'replication_factor': 3 }"
    );
}

#[test]
fn keyspace_without_replication_is_created_with_the_default() {
    let keyspace = KeyspaceOpts { name: "cquill".to_string(), replication: None };
    assert_eq!(keyspace.replication_text(), REPLICATION);
    assert_eq!(
        keyspace.create_statement(),
        Ok("create keyspace cquill with replication = { 'class': 'SimpleStrategy', 'replication_factor': 1 }".to_string())
    );
}

#[test]
fn keyspace_statement_renders_the_network_strategy() {
    let keyspace = KeyspaceOpts {
        name: "history_1".to_string(),
        replication: Some(network(&[("dc1", 3), ("dc2", 5)])),
    };
    assert_eq!(
        keyspace.create_statement(),
        Ok("create keyspace history_1 with replication = { 'class': 'NetworkTopologyStrategy', 'dc1': 3, 'dc2': 5 }".to_string())
    );
}

#[test]
fn keyspace_statement_refuses_a_name_that_is_no_identifier() {
    for bad in ["", "my keyspace", "x; drop keyspace y"] {
        let keyspace = KeyspaceOpts::simple(bad.to_string(), 1);
        let error = keyspace.create_statement().unwrap_err();
        assert_eq!(error, ConfigError::InvalidKeyspaceName { name: bad.to_string() });
        assert_eq!(error.message(), format!("keyspace {bad} is not a valid name"));
    }
}

#[test]
fn well_formed_settings_are_valid() {
    assert_eq!((ReplicationFactor::SimpleStrategy { factor: 0 }).validate(), Ok(()));
    assert_eq!(network(&[("dc1", 1)]).validate(), Ok(()));
    assert_eq!(network(&[("dc1", 1), ("dc_2", 0), ("replication_factor", 255)]).validate(), Ok(()));
    assert_eq!(parsed("{'class': 'NetworkTopologyStrategy', 'a1': 1, 'b2': 2}").validate(), Ok(()));
}

#[test]
fn settings_that_cannot_be_read_back_are_invalid() {
    assert_eq!(network(&[]).validate(), Err(ConfigError::NoDatacenters));
    assert_eq!(
        network(&[("dc1", 1), ("DC2", 1), ("x", 1)]).validate(),
        Err(ConfigError::InvalidDatacenterName { name: "DC2".to_string() })
    );
    assert_eq!(
        network(&[("class", 1)]).validate(),
        Err(ConfigError::InvalidDatacenterName { name: "class".to_string() })
    );
    assert_eq!(
        network(&[("dc1", 1), ("dc 2", 1)]).validate(),
        Err(ConfigError::InvalidDatacenterName { name: "dc 2".to_string() })
    );
}

#[test]
fn keyspace_statement_refuses_settings_that_are_not_well_formed() {
    let keyspace = KeyspaceOpts { name: "cquill".to_string(), replication: Some(network(&[])) };
    assert_eq!(keyspace.create_statement(), Err(ConfigError::NoDatacenters));
    let keyspace = KeyspaceOpts {
        name: "cquill".to_string(),
        replication: Some(network(&[("dc1', 'x': 'y", 1)])),
    };
    assert_eq!(
        keyspace.create_statement(),
        Err(ConfigError::InvalidDatacenterName { name: "dc1', 'x': 'y".to_string() })
    );
}
