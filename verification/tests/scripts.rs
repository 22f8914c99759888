use cquill::cql::{checksum, files_from_entries, version_of, CqlFile, DiscoveryError};

fn entry(name: &str, content: &str) -> (String, String) {
    (name.to_string(), content.to_string())
}

#[test]
fn checksum_is_fnv1a_of_the_bytes() {
    assert_eq!(checksum(""), 0xcbf29ce484222325);
    assert_eq!(checksum("a"), 0xaf63dc4c8601ec8c);
    assert_eq!(checksum("foobar"), 0x85944171f73967e8);
    assert_eq!(checksum("é"), checksum("\u{e9}"));
    assert_ne!(checksum("create table a;"), checksum("create table b;"));
    assert_ne!(checksum("ab"), checksum("ba"));
}

#[test]
fn checksum_reads_utf8_bytes() {
    let mut hash: u64 = 0xcbf29ce484222325;
    for byte in "naïve ☃".bytes() {
        hash = (hash ^ byte as u64).wrapping_mul(0x100000001b3);
    }
    assert_eq!(checksum("naïve ☃"), hash);
}

#[test]
fn file_name_carries_its_version() {
    assert_eq!(version_of("v001-users.cql"), Some(1));
    assert_eq!(version_of("V2_add_index.cql"), Some(2));
    assert_eq!(version_of("v10-.cql"), Some(10));
    assert_eq!(version_of("v0-zero.cql"), Some(0));
    assert_eq!(version_of("v000123_x.y.cql"), Some(123));
    assert_eq!(version_of("v4294967295-last.cql"), Some(u32::MAX));
    assert_eq!(version_of("v00000000004294967295-last.cql"), Some(u32::MAX));
    assert_eq!(version_of("v7-.cql.cql"), Some(7));
}

#[test]
fn file_name_without_the_convention_carries_none() {
    for name in [
        "", "v", "V", "v1", "v1-", "v1.cql", "1-a.cql", "v-a.cql", "va-1.cql", "v1a.cql",
        "v1-a.CQL", "v1-a.cql.bak", "v1-a", "v1-acql", "v1-cql", "x1-a.cql", " v1-a.cql",
        "v1 -a.cql", "v+1-a.cql", "v4294967296-a.cql", "v99999999999999999999999-a.cql",
        "v１-a.cql", "v1-a.cql ", "v1.a.cql", "README.md",
    ] {
        assert_eq!(version_of(name), None, "{name:?}");
    }
}

#[test]
fn new_file_has_version_and_checksum() {
    let file = CqlFile::new("v003-users.cql".to_string(), "create table users;".to_string()).unwrap();
    assert_eq!(file.filename, "v003-users.cql");
    assert_eq!(file.version, 3);
    assert_eq!(file.hash, checksum("create table users;"));
    assert_eq!(file.content, "create table users;");
    assert_eq!(file.copy(), file);
    assert_eq!(CqlFile::new("users.cql".to_string(), String::new()), None);
}

#[test]
fn statements_are_split_at_semicolons_and_trimmed() {
    let file = CqlFile::new(
        "v1-a.cql".to_string(),
        "create table a (id int primary key);\n\n  insert into a (id) values (1) ;\n;".to_string(),
    )
    .unwrap();
    assert_eq!(
        file.statements(),
        vec![
            "create table a (id int primary key)".to_string(),
            "insert into a (id) values (1)".to_string()
        ]
    );
    let single = CqlFile::new("v2-b.cql".to_string(), "drop table a".to_string()).unwrap();
    assert_eq!(single.statements(), vec!["drop table a".to_string()]);
    for empty in ["", " \n ", ";", " ; ;\t;"] {
        let file = CqlFile::new("v3-c.cql".to_string(), empty.to_string()).unwrap();
        assert_eq!(file.statements(), Vec::<String>::new());
    }
}

#[test]
fn scripts_come_in_the_order_of_their_versions() {
    let entries = vec![
        entry("v010-ten.cql", "ten"),
        entry("v2-two.cql", "two"),
        entry("V001_one.cql", "one"),
        entry("v3-three.cql", "three"),
    ];
    let files = files_from_entries(&entries).unwrap();
    let versions: Vec<u32> = files.iter().map(|f| f.version).collect();
    assert_eq!(versions, vec![1, 2, 3, 10]);
    let names: Vec<&str> = files.iter().map(|f| f.filename.as_str()).collect();
    assert_eq!(names, vec!["V001_one.cql", "v2-two.cql", "v3-three.cql", "v010-ten.cql"]);
    for file in &files {
        assert_eq!(file.hash, checksum(&file.content));
    }
    assert_eq!(files[3].content, "ten");
}

#[test]
fn empty_listing_gives_no_scripts() {
    assert_eq!(files_from_entries(&Vec::new()), Ok(Vec::new()));
}

#[test]
fn a_name_without_version_is_a_discovery_error() {
    let entries = vec![entry("v1-a.cql", ""), entry("notes.txt", ""), entry("v2-b.cql", "")];
    let error = files_from_entries(&entries).unwrap_err();
    assert_eq!(error, DiscoveryError::InvalidName { filename: "notes.txt".to_string() });
    assert_eq!(error.message(), "notes.txt is not a valid cql file name");
}

#[test]
fn a_version_taken_twice_is_a_discovery_error() {
    let entries = vec![entry("v2-b.cql", ""), entry("v1-a.cql", ""), entry("v002_again.cql", "")];
    let error = files_from_entries(&entries).unwrap_err();
    assert_eq!(
        error,
        DiscoveryError::DuplicateVersion { version: 2, filename: "v002_again.cql".to_string() }
    );
    assert_eq!(error.message(), "version 2 of v002_again.cql is taken by another cql file");
}

#[test]
fn the_first_faulty_entry_decides_the_discovery_error() {
    let entries = vec![entry("v1-a.cql", ""), entry("v1-b.cql", ""), entry("bad", "")];
    assert_eq!(
        files_from_entries(&entries),
        Err(DiscoveryError::DuplicateVersion { version: 1, filename: "v1-b.cql".to_string() })
    );
    let entries = vec![entry("v1-a.cql", ""), entry("bad", ""), entry("v1-b.cql", "")];
    assert_eq!(
        files_from_entries(&entries),
        Err(DiscoveryError::InvalidName { filename: "bad".to_string() })
    );
}
