use cquill::keyspace::ReplicationFactor;
use cquill::keyspace::ReplicationFactor::{NetworkTopologyStrategy, SimpleStrategy};
use cquill::keyspace::REPLICATION;

#[test]
fn test_replication_factory_from_str_simple_default() {
    let result = REPLICATION.parse::<ReplicationFactor>();
    assert!(result.is_ok());
    let rep_factor = result.unwrap();
    match rep_factor {
        NetworkTopologyStrategy { .. } => panic!(),
        SimpleStrategy { factor } => assert_eq!(factor, 1),
    }
}

#[test]
fn test_replication_factory_from_str_simple_custom() {
    let replication_factor = "{ 'class': 'SimpleStrategy', 'replication_factor': 3 }";
    let result = replication_factor.parse::<ReplicationFactor>();
    assert!(result.is_ok());
    let rep_factor = result.unwrap();
    match rep_factor {
        NetworkTopologyStrategy { .. } => panic!(),
        SimpleStrategy { factor } => assert_eq!(factor, 3),
    }
}

#[test]
fn test_replication_factory_from_str_network() {
    let replication_factor = "{ 'class': 'NetworkTopologyStrategy', 'dc1': 3, 'dc2': 5 }";
    let result = replication_factor.parse::<ReplicationFactor>();
    match result {
        Ok(_) => {
            let rep_factor = result.unwrap();
            match rep_factor {
                NetworkTopologyStrategy { datacenter_factors } => {
                    assert_eq!(datacenter_factors.get("dc1").unwrap().clone(), 3);
                    assert_eq!(datacenter_factors.get("dc2").unwrap().clone(), 5);
                }
                SimpleStrategy { .. } => panic!(),
            }
        }
        Err(_) => panic!(),
    }
}

fn test_replication_factory_from_str_error(input: &str, err_msg: &str) {
    let result = input.parse::<ReplicationFactor>();
    match result {
        Ok(_) => panic!(),
        Err(err) => assert_eq!(err.message(), err_msg),
    }
}

#[test]
fn test_replication_factory_from_str_error_not_key_value_object() {
    test_replication_factory_from_str_error(
        "you're killing me, smalls",
        "not a valid keyspace replication object",
    );
}

#[test]
fn test_replication_factory_from_str_error_no_key_value_pairs_in_object() {
    test_replication_factory_from_str_error(
        "{not, valid}",
        "not a valid key-value pair in keyspace replication object",
    );
}

#[test]
fn test_replication_factory_from_str_error_no_replication_class() {
    test_replication_factory_from_str_error(
        "{something: else}",
        "replication object missing class field",
    );
}

#[test]
fn test_replication_factory_from_str_error_unsupported_replication_class() {
    test_replication_factory_from_str_error(
        "{'class': 'FooStrategy'}",
        "replication class FooStrategy field is an unsupported type",
    );
}

#[test]
fn test_replication_factory_from_str_error_simple_without_factor() {
    test_replication_factory_from_str_error(
        "{'class': 'SimpleStrategy'}",
        "replication object missing replication_factor field",
    );
}

#[test]
fn test_replication_factory_from_str_error_simple_factor_not_a_number() {
    test_replication_factory_from_str_error(
        "{'class': 'SimpleStrategy', 'replication_factor': 'abc'}",
        "replication factor abc must be a number",
    );
}

#[test]
fn test_replication_factory_from_str_error_network_without_factor() {
    test_replication_factory_from_str_error(
        "{'class': 'NetworkTopologyStrategy'}",
        "network replication must specify at least one datacenter's replication factor",
    );
}

#[test]
fn test_replication_factory_from_str_error_duplicates_key_value_pair() {
    test_replication_factory_from_str_error(
        "{'class': 'NetworkTopologyStrategy', 'dc1': 1, 'dc1': 1}",
        "replication object duplicates key-value pair dc1",
    );
}

#[test]
fn test_replication_factory_from_str_error_network_factor_bad_dc_name() {
    test_replication_factory_from_str_error(
        "{'class': 'NetworkTopologyStrategy', 'my datacenter': 3}",
        "datacenter my datacenter is not a valid name",
    );
}
