//! Keyspace options and the replication settings of a `CREATE KEYSPACE`
//! statement: their model, the parser of the textual form and its errors.

use vstd::prelude::*;
use regex::Regex;
use crate::roundtrip::lemma_roundtrip;
use crate::text::{
    chars_of, decimal, decimal_of, find, find_char, parse_u8, parse_u8_chars, same_chars, slice, split, split_chars,
    string_of, texts, trim, trim_chars, trim_matches, trim_matches_chars,
};

verus! {

/// The replication settings used where none are given: one copy of the data,
/// placed anywhere in the cluster.
pub const REPLICATION: &'static str = "{ 'class': 'SimpleStrategy', 'replication_factor': 1 }";

/// The key whose value names the replication strategy.
pub const CLASS: &'static str = "class";

/// The key whose value is the factor of the simple strategy.
pub const REPLICATION_FACTOR: &'static str = "replication_factor";

/// The class name of the strategy with one factor for the whole cluster.
pub const SIMPLE_STRATEGY: &'static str = "SimpleStrategy";

/// The class name of the strategy with one factor per datacenter.
pub const NETWORK_TOPOLOGY_STRATEGY: &'static str = "NetworkTopologyStrategy";

/// The regular expression that a datacenter name has to match.
pub const DATACENTER_PATTERN: &'static str = "^[a-z0-9_]{2,}$";

/// A character of a datacenter name: a lower-case letter, a digit or `_`.
pub open spec fn is_name_char(c: char) -> bool {
    let n = c as u32;
    0x61 <= n <= 0x7A || 0x30 <= n <= 0x39 || n == 0x5F
}

/// A datacenter name: two or more name characters and nothing else.
pub open spec fn is_datacenter_name(s: Seq<char>) -> bool {
    s.len() >= 2 && forall|i: int| 0 <= i < s.len() ==> is_name_char(#[trigger] s[i])
}

/// No two entries carry the same name.
pub open spec fn distinct_names<V>(entries: Seq<(Seq<char>, V)>) -> bool {
    forall|i: int, j: int|
        0 <= i < entries.len() && 0 <= j < entries.len() && i != j ==> (#[trigger] entries[i]).0
            != (#[trigger] entries[j]).0
}

/// Whether an entry carries `name`.
pub open spec fn has_name<V>(entries: Seq<(Seq<char>, V)>, name: Seq<char>) -> bool {
    exists|i: int| 0 <= i < entries.len() && (#[trigger] entries[i]).0 == name
}

/// The place of the first entry that carries `name`.
pub open spec fn position<V>(entries: Seq<(Seq<char>, V)>, name: Seq<char>) -> Option<int>
    decreases entries.len(),
{
    if entries.len() == 0 {
        None
    } else if entries[0].0 == name {
        Some(0)
    } else {
        match position(entries.drop_first(), name) {
            Some(i) => Some(i + 1),
            None => None,
        }
    }
}

/// The value of the first entry that carries `name`.
pub open spec fn lookup<V>(entries: Seq<(Seq<char>, V)>, name: Seq<char>) -> Option<V> {
    match position(entries, name) {
        Some(i) => Some(entries[i].1),
        None => None,
    }
}

/// The entries with `value` under `name`: in the place of the first entry
/// that carries the name, or at the end where none does.
pub open spec fn put<V>(entries: Seq<(Seq<char>, V)>, name: Seq<char>, value: V) -> Seq<
    (Seq<char>, V),
> {
    match position(entries, name) {
        Some(i) => entries.update(i, (name, value)),
        None => entries.push((name, value)),
    }
}

/// `position` gives the least place whose entry carries `name`, and `None`
/// only where no entry does.
pub proof fn lemma_position<V>(entries: Seq<(Seq<char>, V)>, name: Seq<char>)
    ensures
        match position(entries, name) {
            Some(i) => 0 <= i < entries.len() && entries[i].0 == name && forall|j: int|
                0 <= j < i ==> (#[trigger] entries[j]).0 != name,
            None => forall|j: int| 0 <= j < entries.len() ==> (#[trigger] entries[j]).0 != name,
        },
        has_name(entries, name) == position(entries, name).is_some(),
    decreases entries.len(),
{
    if entries.len() > 0 && entries[0].0 != name {
        let rest = entries.drop_first();
        lemma_position(rest, name);
        match position(rest, name) {
            Some(i) => {
                assert forall|j: int| 0 <= j < i + 1 implies (#[trigger] entries[j]).0 != name by {
                    if j > 0 {
                        assert(entries[j] == rest[j - 1]);
                    }
                }
            },
            None => {
                assert forall|j: int| 0 <= j < entries.len() implies (#[trigger] entries[j]).0
                    != name by {
                    if j > 0 {
                        assert(entries[j] == rest[j - 1]);
                    }
                }
            },
        }
    }
}

/// What a `ReplicationFactor` stands for.
pub enum ReplicationFactorView {
    NetworkTopologyStrategy { datacenter_factors: Seq<(Seq<char>, u8)> },
    SimpleStrategy { factor: u8 },
}

impl ReplicationFactorView {
    /// The settings name at least one datacenter, each once and by a valid
    /// name other than `class`.
    pub open spec fn well_formed(self) -> bool {
        match self {
            ReplicationFactorView::SimpleStrategy { factor } => true,
            ReplicationFactorView::NetworkTopologyStrategy { datacenter_factors } => {
                &&& datacenter_factors.len() >= 1
                &&& distinct_names(datacenter_factors)
                &&& forall|i: int|
                    0 <= i < datacenter_factors.len() ==> {
                        &&& is_datacenter_name((#[trigger] datacenter_factors[i]).0)
                        &&& datacenter_factors[i].0 != CLASS@
                    }
            },
        }
    }
}

/// What a `ConfigError` stands for.
pub enum ConfigErrorView {
    NotAnObject,
    InvalidPair,
    DuplicateKey { key: Seq<char> },
    MissingClass,
    UnsupportedClass { class: Seq<char> },
    MissingReplicationFactor,
    FactorNotANumber { value: Seq<char> },
    NoDatacenters,
    InvalidDatacenterName { name: Seq<char> },
    DatacenterFactorNotANumber { datacenter: Seq<char>, value: Seq<char> },
    InvalidKeyspaceName { name: Seq<char> },
}

impl ConfigErrorView {
    /// The text of the error.
    pub open spec fn message(self) -> Seq<char> {
        match self {
            ConfigErrorView::NotAnObject => "not a valid keyspace replication object"@,
            ConfigErrorView::InvalidPair =>
                "not a valid key-value pair in keyspace replication object"@,
            ConfigErrorView::DuplicateKey { key } =>
                "replication object duplicates key-value pair "@ + key,
            ConfigErrorView::MissingClass => "replication object missing class field"@,
            ConfigErrorView::UnsupportedClass { class } =>
                "replication class "@ + class + " field is an unsupported type"@,
            ConfigErrorView::MissingReplicationFactor =>
                "replication object missing replication_factor field"@,
            ConfigErrorView::FactorNotANumber { value } =>
                "replication factor "@ + value + " must be a number"@,
            ConfigErrorView::NoDatacenters =>
                "network replication must specify at least one datacenter's replication factor"@,
            ConfigErrorView::InvalidDatacenterName { name } =>
                "datacenter "@ + name + " is not a valid name"@,
            ConfigErrorView::DatacenterFactorNotANumber { datacenter, value } =>
                "replication factor "@ + datacenter + " for datacenter "@ + value
                    + " must be a number"@,
            ConfigErrorView::InvalidKeyspaceName { name } =>
                "keyspace "@ + name + " is not a valid name"@,
        }
    }
}

/// `s` without surrounding whitespace, then without double quotes and then
/// without single quotes at its ends.
pub open spec fn unquote(s: Seq<char>) -> Seq<char> {
    trim_matches(trim_matches(trim(s), '"'), '\'')
}

/// The key before the first colon of a segment, and the value after it.
pub open spec fn key_value(segment: Seq<char>) -> Option<(Seq<char>, Seq<char>)> {
    match find(segment, ':') {
        Some(i) => Some((unquote(segment.take(i)), unquote(segment.skip(i + 1)))),
        None => None,
    }
}

/// The text between the braces of an object, where `text` is one.
pub open spec fn object_body(text: Seq<char>) -> Option<Seq<char>> {
    let t = trim(text);
    if t.len() >= 2 && t.first() == '{' && t.last() == '}' {
        Some(t.subrange(1, t.len() - 1))
    } else {
        None
    }
}

/// The fields of the segments, in their order. The first segment that holds
/// no colon, or whose key an earlier segment has, decides the error.
pub open spec fn collect_fields(segments: Seq<Seq<char>>) -> Result<
    Seq<(Seq<char>, Seq<char>)>,
    ConfigErrorView,
>
    decreases segments.len(),
{
    if segments.len() == 0 {
        Ok(Seq::empty())
    } else {
        match collect_fields(segments.drop_last()) {
            Err(e) => Err(e),
            Ok(fields) => match key_value(segments.last()) {
                None => Err(ConfigErrorView::InvalidPair),
                Some((key, value)) => if has_name(fields, key) {
                    Err(ConfigErrorView::DuplicateKey { key })
                } else {
                    Ok(fields.push((key, value)))
                },
            },
        }
    }
}

/// The datacenters that the fields other than `class` name, in their order.
/// The first such field with an invalid name or an unreadable factor decides
/// the error.
pub open spec fn datacenters(fields: Seq<(Seq<char>, Seq<char>)>) -> Result<
    Seq<(Seq<char>, u8)>,
    ConfigErrorView,
>
    decreases fields.len(),
{
    if fields.len() == 0 {
        Ok(Seq::empty())
    } else {
        match datacenters(fields.drop_last()) {
            Err(e) => Err(e),
            Ok(found) => {
                let (name, value) = fields.last();
                if name == CLASS@ {
                    Ok(found)
                } else if !is_datacenter_name(name) {
                    Err(ConfigErrorView::InvalidDatacenterName { name })
                } else {
                    match parse_u8(value) {
                        None => Err(
                            ConfigErrorView::DatacenterFactorNotANumber { datacenter: name, value },
                        ),
                        Some(factor) => Ok(found.push((name, factor))),
                    }
                }
            },
        }
    }
}

/// The replication settings that the fields of an object describe.
pub open spec fn replication_of(fields: Seq<(Seq<char>, Seq<char>)>) -> Result<
    ReplicationFactorView,
    ConfigErrorView,
> {
    match lookup(fields, CLASS@) {
        None => Err(ConfigErrorView::MissingClass),
        Some(class) => if class == NETWORK_TOPOLOGY_STRATEGY@ {
            match datacenters(fields) {
                Err(e) => Err(e),
                Ok(found) => if found.len() == 0 {
                    Err(ConfigErrorView::NoDatacenters)
                } else {
                    Ok(ReplicationFactorView::NetworkTopologyStrategy { datacenter_factors: found })
                },
            }
        } else if class == SIMPLE_STRATEGY@ {
            match lookup(fields, REPLICATION_FACTOR@) {
                None => Err(ConfigErrorView::MissingReplicationFactor),
                Some(value) => match parse_u8(value) {
                    None => Err(ConfigErrorView::FactorNotANumber { value }),
                    Some(factor) => Ok(ReplicationFactorView::SimpleStrategy { factor }),
                },
            }
        } else {
            Err(ConfigErrorView::UnsupportedClass { class })
        },
    }
}

/// The replication settings that `text` describes: an object in braces, its
/// body split at the commas, each segment split at its first colon.
pub open spec fn parse_replication(text: Seq<char>) -> Result<
    ReplicationFactorView,
    ConfigErrorView,
> {
    match object_body(text) {
        None => Err(ConfigErrorView::NotAnObject),
        Some(body) => match collect_fields(split(body, ',')) {
            Err(e) => Err(e),
            Ok(fields) => replication_of(fields),
        },
    }
}

/// The replication strategy of a keyspace and its replication factors.
#[derive(Debug, Clone, PartialEq, Eq)]
pub enum ReplicationFactor {
    /// How many copies of the data each of the named datacenters keeps.
    NetworkTopologyStrategy { datacenter_factors: DatacenterFactors },
    /// One number of copies, placed on any nodes of the cluster. Not for
    /// production use.
    SimpleStrategy { factor: u8 },
}

/// Replication factors by datacenter name, in the order in which the names
/// were added.
#[derive(Debug, Clone, PartialEq, Eq)]
pub struct DatacenterFactors {
    entries: Vec<(String, u8)>,
}

/// Why a text is not a replication object.
#[derive(Debug, Clone, PartialEq, Eq)]
pub enum ConfigError {
    /// The text is not wrapped in braces.
    NotAnObject,
    /// A segment of the body holds no colon.
    InvalidPair,
    /// Two segments have the same key.
    DuplicateKey { key: String },
    /// No segment has the key `class`.
    MissingClass,
    /// The class is neither of the two strategies.
    UnsupportedClass { class: String },
    /// The simple strategy comes without `replication_factor`.
    MissingReplicationFactor,
    /// The factor of the simple strategy is no number from 0 to 255.
    FactorNotANumber { value: String },
    /// The network strategy names no datacenter.
    NoDatacenters,
    /// A datacenter name is not made of two or more of `a`-`z`, `0`-`9`, `_`.
    InvalidDatacenterName { name: String },
    /// The factor of a datacenter is no number from 0 to 255.
    DatacenterFactorNotANumber { datacenter: String, value: String },
    /// A keyspace name is empty or holds more than letters, digits and `_`.
    InvalidKeyspaceName { name: String },
}

impl View for DatacenterFactors {
    type V = Seq<(Seq<char>, u8)>;

    closed spec fn view(&self) -> Seq<(Seq<char>, u8)> {
        Seq::new(self.entries@.len(), |i: int| (self.entries@[i].0@, self.entries@[i].1))
    }
}

impl View for ReplicationFactor {
    type V = ReplicationFactorView;

    open spec fn view(&self) -> ReplicationFactorView {
        match *self {
            ReplicationFactor::NetworkTopologyStrategy { datacenter_factors } =>
                ReplicationFactorView::NetworkTopologyStrategy {
                    datacenter_factors: datacenter_factors@,
                },
            ReplicationFactor::SimpleStrategy { factor } => ReplicationFactorView::SimpleStrategy {
                factor,
            },
        }
    }
}

impl View for ConfigError {
    type V = ConfigErrorView;

    open spec fn view(&self) -> ConfigErrorView {
        match *self {
            ConfigError::NotAnObject => ConfigErrorView::NotAnObject,
            ConfigError::InvalidPair => ConfigErrorView::InvalidPair,
            ConfigError::DuplicateKey { key } => ConfigErrorView::DuplicateKey { key: key@ },
            ConfigError::MissingClass => ConfigErrorView::MissingClass,
            ConfigError::UnsupportedClass { class } => ConfigErrorView::UnsupportedClass {
                class: class@,
            },
            ConfigError::MissingReplicationFactor => ConfigErrorView::MissingReplicationFactor,
            ConfigError::FactorNotANumber { value } => ConfigErrorView::FactorNotANumber {
                value: value@,
            },
            ConfigError::NoDatacenters => ConfigErrorView::NoDatacenters,
            ConfigError::InvalidDatacenterName { name } => ConfigErrorView::InvalidDatacenterName {
                name: name@,
            },
            ConfigError::DatacenterFactorNotANumber { datacenter, value } =>
                ConfigErrorView::DatacenterFactorNotANumber {
                    datacenter: datacenter@,
                    value: value@,
                },
            ConfigError::InvalidKeyspaceName { name } => ConfigErrorView::InvalidKeyspaceName {
                name: name@,
            },
        }
    }
}

impl DatacenterFactors {
    /// No datacenter is named twice.
    pub open spec fn well_formed(&self) -> bool {
        distinct_names(self@)
    }

    /// No datacenters.
    pub fn new() -> (r: Self)
        ensures
            r@ == Seq::<(Seq<char>, u8)>::empty(),
    {
        let r = DatacenterFactors { entries: Vec::new() };
        assert(r@ =~= Seq::<(Seq<char>, u8)>::empty());
        r
    }

    /// The number of datacenters.
    pub fn len(&self) -> (r: usize)
        ensures
            r == self@.len(),
    {
        self.entries.len()
    }

    /// Whether there is no datacenter.
    pub fn is_empty(&self) -> (r: bool)
        ensures
            r == (self@.len() == 0),
    {
        self.entries.len() == 0
    }

    /// The name of the datacenter at place `i`.
    pub fn name(&self, i: usize) -> (r: &String)
        requires
            i < self@.len(),
        ensures
            r@ == self@[i as int].0,
    {
        &self.entries[i].0
    }

    /// The factor of the datacenter at place `i`.
    pub fn factor(&self, i: usize) -> (r: u8)
        requires
            i < self@.len(),
        ensures
            r == self@[i as int].1,
    {
        self.entries[i].1
    }

    fn find(&self, name: &String) -> (r: Option<usize>)
        ensures
            match r {
                Some(i) => position(self@, name@) == Some(i as int) && i < self@.len(),
                None => position(self@, name@) == None::<int>,
            },
    {
        let mut i: usize = 0;
        while i < self.entries.len()
            invariant
                i <= self.entries@.len(),
                forall|j: int| 0 <= j < i ==> (#[trigger] self@[j]).0 != name@,
            decreases self.entries@.len() - i,
        {
            if self.entries[i].0 == *name {
                proof {
                    assert(self@[i as int].0 == name@);
                    lemma_position(self@, name@);
                }
                return Some(i);
            }
            i += 1;
        }
        proof {
            lemma_position(self@, name@);
        }
        None
    }

    /// The factor of the datacenter `name`.
    pub fn get(&self, name: &str) -> (r: Option<u8>)
        ensures
            r == lookup(self@, name@),
    {
        let key = String::from_str(name);
        match self.find(&key) {
            Some(i) => Some(self.entries[i].1),
            None => None,
        }
    }

    /// Sets the factor of the datacenter `name` and returns the one it had.
    /// A new name goes to the end.
    pub fn insert(&mut self, name: String, factor: u8) -> (r: Option<u8>)
        ensures
            r == lookup(old(self)@, name@),
            final(self)@ == put(old(self)@, name@, factor),
            old(self).well_formed() ==> final(self).well_formed(),
    {
        proof {
            lemma_position(self@, name@);
        }
        match self.find(&name) {
            Some(i) => {
                let previous = self.entries[i].1;
                self.entries.set(i, (name, factor));
                assert(self@ =~= old(self)@.update(i as int, (name@, factor)));
                Some(previous)
            },
            None => {
                self.entries.push((name, factor));
                assert(self@ =~= old(self)@.push((name@, factor)));
                None
            },
        }
    }
}

/// The fields that a vector of key and value characters holds.
pub open spec fn field_views(fields: Seq<(Vec<char>, Vec<char>)>) -> Seq<(Seq<char>, Seq<char>)> {
    Seq::new(fields.len(), |i: int| (fields[i].0@, fields[i].1@))
}

/// An error in a prefix of the segments is the error of them all.
pub proof fn lemma_collect_fields_error(segments: Seq<Seq<char>>, k: int)
    requires
        0 <= k <= segments.len(),
        collect_fields(segments.take(k)) is Err,
    ensures
        collect_fields(segments) == collect_fields(segments.take(k)),
    decreases segments.len() - k,
{
    if k == segments.len() {
        assert(segments.take(k) =~= segments);
    } else {
        assert(segments.drop_last().take(k) =~= segments.take(k));
        lemma_collect_fields_error(segments.drop_last(), k);
    }
}

/// An error in a prefix of the fields is the error of them all.
pub proof fn lemma_datacenters_error(fields: Seq<(Seq<char>, Seq<char>)>, k: int)
    requires
        0 <= k <= fields.len(),
        datacenters(fields.take(k)) is Err,
    ensures
        datacenters(fields) == datacenters(fields.take(k)),
    decreases fields.len() - k,
{
    if k == fields.len() {
        assert(fields.take(k) =~= fields);
    } else {
        assert(fields.drop_last().take(k) =~= fields.take(k));
        lemma_datacenters_error(fields.drop_last(), k);
    }
}

/// The datacenter that a field names, if it is not the class and its factor
/// can be read.
pub open spec fn datacenter_of(field: (Seq<char>, Seq<char>)) -> Option<(Seq<char>, u8)> {
    if field.0 == CLASS@ {
        None
    } else {
        match parse_u8(field.1) {
            Some(factor) => Some((field.0, factor)),
            None => None,
        }
    }
}

/// Where the datacenters can be read, they are exactly the fields other than
/// `class`, each once and in the order of the fields, and each has a valid
/// name: none is lost and none is added.
pub proof fn lemma_datacenters_exact(fields: Seq<(Seq<char>, Seq<char>)>)
    requires
        datacenters(fields) is Ok,
    ensures
        datacenters(fields) == Ok::<_, ConfigErrorView>(
            fields.filter_map(|field: (Seq<char>, Seq<char>)| datacenter_of(field)),
        ),
        forall|i: int|
            0 <= i < fields.len() && (#[trigger] fields[i]).0 != CLASS@ ==> is_datacenter_name(
                fields[i].0,
            ) && parse_u8(fields[i].1) is Some,
    decreases fields.len(),
{
    if fields.len() > 0 {
        let before = fields.drop_last();
        lemma_datacenters_exact(before);
        assert forall|i: int|
            0 <= i < fields.len() && (#[trigger] fields[i]).0 != CLASS@ implies is_datacenter_name(
            fields[i].0,
        ) && parse_u8(fields[i].1) is Some by {
            if i < before.len() {
                assert(before[i] == fields[i]);
            }
        }
        let read = |field: (Seq<char>, Seq<char>)| datacenter_of(field);
        let found = before.filter_map(read);
        if fields.last().0 != CLASS@ {
            let (name, value) = fields.last();
            assert(found + seq![(name, parse_u8(value)->0)] =~= found.push(
                (name, parse_u8(value)->0),
            ));
        }
    }
}

/// `Regex::new` and `Regex::is_match` of the regex crate, for the datacenter
/// pattern only: the pattern is anchored at both ends of the text and asks
/// for two or more characters of the class `[a-z0-9_]`, so it matches exactly
/// the datacenter names.
#[verifier::external_body]
fn matches_datacenter_pattern(pattern: &str, name: &str) -> (r: bool)
    requires
        pattern@ == DATACENTER_PATTERN@,
    ensures
        r == is_datacenter_name(name@),
{
    match Regex::new(pattern) {
        Ok(regex) => regex.is_match(name),
        Err(_) => false,
    }
}

/// Whether `name` can name a datacenter.
pub fn valid_datacenter_name(name: &str) -> (r: bool)
    ensures
        r == is_datacenter_name(name@),
{
    matches_datacenter_pattern(DATACENTER_PATTERN, name)
}

fn unquote_chars(v: &Vec<char>) -> (r: Vec<char>)
    ensures
        r@ == unquote(v@),
{
    let trimmed = trim_chars(v);
    let bare = trim_matches_chars(&trimmed, '"');
    trim_matches_chars(&bare, '\'')
}

fn key_value_chars(segment: &Vec<char>) -> (r: Option<(Vec<char>, Vec<char>)>)
    ensures
        match r {
            Some((key, value)) => key_value(segment@) == Some((key@, value@)),
            None => key_value(segment@) == None::<(Seq<char>, Seq<char>)>,
        },
{
    match find_char(segment, ':') {
        Some(i) => {
            let before = slice(segment, 0, i);
            let after = slice(segment, i + 1, segment.len());
            proof {
                assert(before@ =~= segment@.take(i as int));
                assert(after@ =~= segment@.skip(i + 1));
            }
            Some((unquote_chars(&before), unquote_chars(&after)))
        },
        None => None,
    }
}

fn find_key(fields: &Vec<(Vec<char>, Vec<char>)>, key: &Vec<char>) -> (r: Option<usize>)
    ensures
        match r {
            Some(i) => i < fields.len() && position(field_views(fields@), key@) == Some(i as int),
            None => position(field_views(fields@), key@) == None::<int>,
        },
{
    let ghost views = field_views(fields@);
    let mut i: usize = 0;
    while i < fields.len()
        invariant
            i <= fields.len(),
            views == field_views(fields@),
            forall|j: int| 0 <= j < i ==> (#[trigger] views[j]).0 != key@,
        decreases fields.len() - i,
    {
        if same_chars(&fields[i].0, key) {
            proof {
                assert(views[i as int].0 == key@);
                lemma_position(views, key@);
            }
            return Some(i);
        }
        i += 1;
    }
    proof {
        lemma_position(views, key@);
    }
    None
}

fn collect(segments: &Vec<Vec<char>>) -> (r: Result<Vec<(Vec<char>, Vec<char>)>, ConfigError>)
    ensures
        match r {
            Ok(fields) => collect_fields(texts(segments@)) == Ok::<_, ConfigErrorView>(
                field_views(fields@),
            ) && distinct_names(field_views(fields@)),
            Err(e) => collect_fields(texts(segments@)) == Err::<Seq<(Seq<char>, Seq<char>)>, _>(
                e@,
            ),
        },
{
    let ghost all = texts(segments@);
    let mut fields: Vec<(Vec<char>, Vec<char>)> = Vec::new();
    let mut i: usize = 0;
    proof {
        assert(all.take(0) =~= Seq::<Seq<char>>::empty());
        assert(field_views(fields@) =~= Seq::<(Seq<char>, Seq<char>)>::empty());
    }
    while i < segments.len()
        invariant
            i <= segments.len(),
            all == texts(segments@),
            collect_fields(all.take(i as int)) == Ok::<_, ConfigErrorView>(field_views(fields@)),
            distinct_names(field_views(fields@)),
        decreases segments.len() - i,
    {
        let ghost before = field_views(fields@);
        proof {
            let next = all.take(i + 1);
            assert(next.drop_last() =~= all.take(i as int));
            assert(next.last() == segments@[i as int]@);
        }
        match key_value_chars(&segments[i]) {
            None => {
                proof {
                    lemma_collect_fields_error(all, i + 1);
                }
                return Err(ConfigError::InvalidPair);
            },
            Some((key, value)) => {
                proof {
                    lemma_position(before, key@);
                }
                if find_key(&fields, &key).is_some() {
                    proof {
                        lemma_collect_fields_error(all, i + 1);
                    }
                    return Err(ConfigError::DuplicateKey { key: string_of(&key) });
                }
                fields.push((key, value));
                proof {
                    assert(field_views(fields@) =~= before.push((key@, value@)));
                }
            },
        }
        i += 1;
    }
    proof {
        assert(all.take(i as int) =~= all);
    }
    Ok(fields)
}

fn read_datacenters(fields: &Vec<(Vec<char>, Vec<char>)>) -> (r: Result<
    DatacenterFactors,
    ConfigError,
>)
    requires
        distinct_names(field_views(fields@)),
    ensures
        match r {
            Ok(found) => datacenters(field_views(fields@)) == Ok::<_, ConfigErrorView>(found@) && (
            ReplicationFactorView::NetworkTopologyStrategy {
                datacenter_factors: found@,
            }).well_formed() == (found@.len() > 0),
            Err(e) => datacenters(field_views(fields@)) == Err::<Seq<(Seq<char>, u8)>, _>(e@),
        },
{
    let ghost all = field_views(fields@);
    let class = chars_of(CLASS);
    let mut found: Vec<(String, u8)> = Vec::new();
    let mut i: usize = 0;
    proof {
        assert(all.take(0) =~= Seq::<(Seq<char>, Seq<char>)>::empty());
        assert((DatacenterFactors { entries: found })@ =~= Seq::<(Seq<char>, u8)>::empty());
    }
    while i < fields.len()
        invariant
            i <= fields.len(),
            all == field_views(fields@),
            distinct_names(all),
            class@ == CLASS@,
            datacenters(all.take(i as int)) == Ok::<_, ConfigErrorView>(
                (DatacenterFactors { entries: found })@,
            ),
            forall|j: int|
                0 <= j < found@.len() ==> {
                    &&& is_datacenter_name((#[trigger] found@[j]).0@)
                    &&& found@[j].0@ != CLASS@
                    &&& exists|k: int| 0 <= k < i && (#[trigger] all[k]).0 == found@[j].0@
                },
            distinct_names((DatacenterFactors { entries: found })@),
        decreases fields.len() - i,
    {
        let ghost before = (DatacenterFactors { entries: found })@;
        proof {
            let next = all.take(i + 1);
            assert(next.drop_last() =~= all.take(i as int));
            assert(next.last() == all[i as int]);
        }
        if !same_chars(&fields[i].0, &class) {
            let name = string_of(&fields[i].0);
            if !valid_datacenter_name(name.as_str()) {
                proof {
                    lemma_datacenters_error(all, i + 1);
                }
                return Err(ConfigError::InvalidDatacenterName { name });
            }
            match parse_u8_chars(&fields[i].1) {
                None => {
                    proof {
                        lemma_datacenters_error(all, i + 1);
                    }
                    return Err(
                        ConfigError::DatacenterFactorNotANumber {
                            datacenter: name,
                            value: string_of(&fields[i].1),
                        },
                    );
                },
                Some(factor) => {
                    found.push((name, factor));
                    proof {
                        let after = (DatacenterFactors { entries: found })@;
                        assert(after =~= before.push((name@, factor)));
                        assert forall|a: int, b: int|
                            0 <= a < after.len() && 0 <= b < after.len() && a != b implies (
                        #[trigger] after[a]).0 != (#[trigger] after[b]).0 by {
                            if a < before.len() && b < before.len() {
                                assert(before[a].0 != before[b].0);
                            } else if a < before.len() {
                                let k = choose|k: int|
                                    0 <= k < i && (#[trigger] all[k]).0 == found@[a].0@;
                                assert(all[k].0 != all[i as int].0);
                            } else {
                                let k = choose|k: int|
                                    0 <= k < i && (#[trigger] all[k]).0 == found@[b].0@;
                                assert(all[k].0 != all[i as int].0);
                            }
                        }
                        assert(all[i as int].0 == found@[found@.len() - 1].0@);
                    }
                },
            }
        }
        i += 1;
    }
    proof {
        assert(all.take(i as int) =~= all);
    }
    let r = DatacenterFactors { entries: found };
    proof {
        assert forall|j: int| 0 <= j < r@.len() implies {
            &&& is_datacenter_name((#[trigger] r@[j]).0)
            &&& r@[j].0 != CLASS@
        } by {
            assert(r@[j].0 == found@[j].0@);
        }
    }
    Ok(r)
}

fn replication_from(fields: &Vec<(Vec<char>, Vec<char>)>) -> (r: Result<
    ReplicationFactor,
    ConfigError,
>)
    requires
        distinct_names(field_views(fields@)),
    ensures
        match r {
            Ok(v) => replication_of(field_views(fields@)) == Ok::<_, ConfigErrorView>(v@)
                && v@.well_formed(),
            Err(e) => replication_of(field_views(fields@)) == Err::<ReplicationFactorView, _>(e@),
        },
{
    let class_key = chars_of(CLASS);
    match find_key(fields, &class_key) {
        None => Err(ConfigError::MissingClass),
        Some(i) => {
            let class = &fields[i].1;
            assert(lookup(field_views(fields@), CLASS@) == Some(class@));
            if same_chars(class, &chars_of(NETWORK_TOPOLOGY_STRATEGY)) {
                match read_datacenters(fields) {
                    Err(e) => Err(e),
                    Ok(found) => if found.is_empty() {
                        Err(ConfigError::NoDatacenters)
                    } else {
                        Ok(ReplicationFactor::NetworkTopologyStrategy { datacenter_factors: found })
                    },
                }
            } else if same_chars(class, &chars_of(SIMPLE_STRATEGY)) {
                match find_key(fields, &chars_of(REPLICATION_FACTOR)) {
                    None => Err(ConfigError::MissingReplicationFactor),
                    Some(j) => {
                        let value = &fields[j].1;
                        assert(lookup(field_views(fields@), REPLICATION_FACTOR@) == Some(value@));
                        match parse_u8_chars(value) {
                            None => Err(ConfigError::FactorNotANumber { value: string_of(value) }),
                            Some(factor) => Ok(ReplicationFactor::SimpleStrategy { factor }),
                        }
                    },
                }
            } else {
                Err(ConfigError::UnsupportedClass { class: string_of(class) })
            }
        },
    }
}

impl ReplicationFactor {
    /// Reads replication settings from the object syntax of a `CREATE
    /// KEYSPACE` statement, as in `REPLICATION`.
    pub fn parse(text: &str) -> (r: Result<ReplicationFactor, ConfigError>)
        ensures
            match r {
                Ok(v) => parse_replication(text@) == Ok::<_, ConfigErrorView>(v@)
                    && v@.well_formed(),
                Err(e) => parse_replication(text@) == Err::<ReplicationFactorView, _>(e@),
            },
    {
        let chars = chars_of(text);
        let trimmed = trim_chars(&chars);
        let n: usize = trimmed.len();
        if n < 2 || trimmed[0] != '{' || trimmed[n - 1] != '}' {
            return Err(ConfigError::NotAnObject);
        }
        let body = slice(&trimmed, 1, n - 1);
        let segments = split_chars(&body, ',');
        match collect(&segments) {
            Err(e) => Err(e),
            Ok(fields) => replication_from(&fields),
        }
    }
}

impl core::str::FromStr for ReplicationFactor {
    type Err = ConfigError;

    /// Reads replication settings, as `ReplicationFactor::parse` does.
    fn from_str(s: &str) -> (r: Result<Self, Self::Err>)
        ensures
            match r {
                Ok(v) => parse_replication(s@) == Ok::<_, ConfigErrorView>(v@)
                    && v@.well_formed(),
                Err(e) => parse_replication(s@) == Err::<ReplicationFactorView, _>(e@),
            },
    {
        ReplicationFactor::parse(s)
    }
}

impl ConfigError {
    /// The text of the error.
    pub fn message(&self) -> (r: String)
        ensures
            r@ == self@.message(),
    {
        match self {
            ConfigError::NotAnObject => String::from_str(
                "not a valid keyspace replication object",
            ),
            ConfigError::InvalidPair => String::from_str(
                "not a valid key-value pair in keyspace replication object",
            ),
            ConfigError::DuplicateKey { key } => String::from_str(
                "replication object duplicates key-value pair ",
            ).concat(key.as_str()),
            ConfigError::MissingClass => String::from_str("replication object missing class field"),
            ConfigError::UnsupportedClass { class } => String::from_str(
                "replication class ",
            ).concat(class.as_str()).concat(" field is an unsupported type"),
            ConfigError::MissingReplicationFactor => String::from_str(
                "replication object missing replication_factor field",
            ),
            ConfigError::FactorNotANumber { value } => String::from_str(
                "replication factor ",
            ).concat(value.as_str()).concat(" must be a number"),
            ConfigError::NoDatacenters => String::from_str(
                "network replication must specify at least one datacenter's replication factor",
            ),
            ConfigError::InvalidDatacenterName { name } => String::from_str("datacenter ").concat(
                name.as_str(),
            ).concat(" is not a valid name"),
            ConfigError::DatacenterFactorNotANumber { datacenter, value } => String::from_str(
                "replication factor ",
            ).concat(datacenter.as_str()).concat(" for datacenter ").concat(value.as_str()).concat(
                " must be a number",
            ),
            ConfigError::InvalidKeyspaceName { name } => String::from_str("keyspace ").concat(
                name.as_str(),
            ).concat(" is not a valid name"),
        }
    }
}

/// One entry of a replication object: the quoted key, a colon and the value
/// as it is written.
pub open spec fn entry(key: Seq<char>, value: Seq<char>) -> Seq<char> {
    " '"@ + key + "': "@ + value
}

/// `s` between single quotes.
pub open spec fn quoted(s: Seq<char>) -> Seq<char> {
    "'"@ + s + "'"@
}

/// The entries of the datacenters, each after a comma.
pub open spec fn render_datacenters(factors: Seq<(Seq<char>, u8)>) -> Seq<char>
    decreases factors.len(),
{
    if factors.len() == 0 {
        Seq::empty()
    } else {
        render_datacenters(factors.drop_last()) + ","@ + entry(
            factors.last().0,
            decimal(factors.last().1 as nat),
        )
    }
}

/// The replication object of the settings, in the syntax that
/// `parse_replication` reads.
pub open spec fn render(replication: ReplicationFactorView) -> Seq<char> {
    match replication {
        ReplicationFactorView::SimpleStrategy { factor } => "{"@ + entry(
            CLASS@,
            quoted(SIMPLE_STRATEGY@),
        ) + ","@ + entry(REPLICATION_FACTOR@, decimal(factor as nat)) + " }"@,
        ReplicationFactorView::NetworkTopologyStrategy { datacenter_factors } => "{"@ + entry(
            CLASS@,
            quoted(NETWORK_TOPOLOGY_STRATEGY@),
        ) + render_datacenters(datacenter_factors) + " }"@,
    }
}

/// What is wrong with the datacenters, if anything: the first of them, in
/// their order, whose name is invalid or `class`, or is the name of one
/// before it.
pub open spec fn datacenters_fault(factors: Seq<(Seq<char>, u8)>) -> Option<ConfigErrorView>
    decreases factors.len(),
{
    if factors.len() == 0 {
        None
    } else {
        let before = factors.drop_last();
        let name = factors.last().0;
        match datacenters_fault(before) {
            Some(e) => Some(e),
            None => if !is_datacenter_name(name) || name == CLASS@ {
                Some(ConfigErrorView::InvalidDatacenterName { name })
            } else if has_name(before, name) {
                Some(ConfigErrorView::DuplicateKey { key: name })
            } else {
                None
            },
        }
    }
}

/// What is wrong with the settings, if anything.
pub open spec fn replication_fault(replication: ReplicationFactorView) -> Option<ConfigErrorView> {
    match replication {
        ReplicationFactorView::SimpleStrategy { factor } => None,
        ReplicationFactorView::NetworkTopologyStrategy { datacenter_factors } => {
            if datacenter_factors.len() == 0 {
                Some(ConfigErrorView::NoDatacenters)
            } else {
                datacenters_fault(datacenter_factors)
            }
        },
    }
}

/// A fault among the first datacenters is the fault of them all.
pub proof fn lemma_datacenters_fault(factors: Seq<(Seq<char>, u8)>, k: int)
    requires
        0 <= k <= factors.len(),
        datacenters_fault(factors.take(k)) is Some,
    ensures
        datacenters_fault(factors) == datacenters_fault(factors.take(k)),
    decreases factors.len() - k,
{
    if k == factors.len() {
        assert(factors.take(k) =~= factors);
    } else {
        assert(factors.drop_last().take(k) =~= factors.take(k));
        lemma_datacenters_fault(factors.drop_last(), k);
    }
}

/// Nothing is wrong with the datacenters exactly where each is named once,
/// by a valid name other than `class`.
pub proof fn lemma_no_datacenters_fault(factors: Seq<(Seq<char>, u8)>)
    ensures
        datacenters_fault(factors) is None <==> distinct_names(factors) && forall|i: int|
            0 <= i < factors.len() ==> {
                &&& is_datacenter_name((#[trigger] factors[i]).0)
                &&& factors[i].0 != CLASS@
            },
    decreases factors.len(),
{
    if factors.len() > 0 {
        let before = factors.drop_last();
        let name = factors.last().0;
        let last = factors.len() - 1;
        lemma_no_datacenters_fault(before);
        let valid = |d: Seq<(Seq<char>, u8)>|
            forall|i: int|
                0 <= i < d.len() ==> {
                    &&& is_datacenter_name((#[trigger] d[i]).0)
                    &&& d[i].0 != CLASS@
                };
        if datacenters_fault(factors) is None {
            assert forall|i: int| 0 <= i < factors.len() implies is_datacenter_name(
                (#[trigger] factors[i]).0,
            ) && factors[i].0 != CLASS@ by {
                if i < last {
                    assert(before[i] == factors[i]);
                }
            }
            assert forall|i: int, j: int|
                0 <= i < factors.len() && 0 <= j < factors.len() && i != j implies (
            #[trigger] factors[i]).0 != (#[trigger] factors[j]).0 by {
                if i < last && j < last {
                    assert(before[i].0 != before[j].0);
                } else if i < last {
                    assert(before[i] == factors[i]);
                } else {
                    assert(before[j] == factors[j]);
                }
            }
        }
        if distinct_names(factors) && valid(factors) {
            assert forall|i: int| 0 <= i < before.len() implies is_datacenter_name(
                (#[trigger] before[i]).0,
            ) && before[i].0 != CLASS@ by {
                assert(before[i] == factors[i]);
            }
            assert forall|i: int, j: int|
                0 <= i < before.len() && 0 <= j < before.len() && i != j implies (
            #[trigger] before[i]).0 != (#[trigger] before[j]).0 by {
                assert(before[i] == factors[i]);
                assert(before[j] == factors[j]);
            }
            assert(is_datacenter_name(factors[last].0) && factors[last].0 != CLASS@);
            if has_name(before, name) {
                let i = choose|i: int| 0 <= i < before.len() && (#[trigger] before[i]).0 == name;
                assert(before[i] == factors[i]);
                assert(factors[i].0 != factors[last].0);
            }
        }
    }
}

/// Nothing is wrong with the settings exactly where they are well formed.
pub proof fn lemma_no_replication_fault(replication: ReplicationFactorView)
    ensures
        replication_fault(replication) is None <==> replication.well_formed(),
{
    match replication {
        ReplicationFactorView::SimpleStrategy { factor } => {},
        ReplicationFactorView::NetworkTopologyStrategy { datacenter_factors } => {
            lemma_no_datacenters_fault(datacenter_factors);
        },
    }
}

/// A character of a keyspace name: an ASCII letter, a digit or `_`.
pub open spec fn is_identifier_char(c: char) -> bool {
    let n = c as u32;
    0x61 <= n <= 0x7A || 0x41 <= n <= 0x5A || 0x30 <= n <= 0x39 || n == 0x5F
}

/// A keyspace name: one or more identifier characters and nothing else.
pub open spec fn is_identifier(s: Seq<char>) -> bool {
    s.len() >= 1 && forall|i: int| 0 <= i < s.len() ==> is_identifier_char(#[trigger] s[i])
}

/// The statement that creates the keyspace `name` with the given settings.
pub open spec fn create_keyspace_statement(
    name: Seq<char>,
    replication: ReplicationFactorView,
) -> Seq<char> {
    "create keyspace "@ + name + " with replication = "@ + render(replication)
}

/// Whether `name` can name a keyspace.
pub fn valid_identifier(name: &str) -> (r: bool)
    ensures
        r == is_identifier(name@),
{
    let chars = chars_of(name);
    if chars.len() == 0 {
        return false;
    }
    let mut i: usize = 0;
    while i < chars.len()
        invariant
            i <= chars.len(),
            chars@ == name@,
            forall|j: int| 0 <= j < i ==> is_identifier_char(#[trigger] chars@[j]),
        decreases chars.len() - i,
    {
        let n: u32 = chars[i] as u32;
        if !((0x61 <= n && n <= 0x7A) || (0x41 <= n && n <= 0x5A) || (0x30 <= n && n <= 0x39) || n
            == 0x5F) {
            return false;
        }
        i += 1;
    }
    true
}

fn entry_text(key: &str, value: &str) -> (r: String)
    ensures
        r@ == entry(key@, value@),
{
    String::from_str(" '").concat(key).concat("': ").concat(value)
}

fn quoted_text(s: &str) -> (r: String)
    ensures
        r@ == quoted(s@),
{
    String::from_str("'").concat(s).concat("'")
}

impl ReplicationFactor {
    /// Checks the settings: the network strategy needs at least one
    /// datacenter, each named once and by a valid name other than `class`.
    pub fn validate(&self) -> (r: Result<(), ConfigError>)
        ensures
            match r {
                Ok(_) => self@.well_formed(),
                Err(e) => !self@.well_formed() && replication_fault(self@) == Some(e@),
            },
    {
        proof {
            lemma_no_replication_fault(self@);
        }
        match self {
            ReplicationFactor::SimpleStrategy { factor } => Ok(()),
            ReplicationFactor::NetworkTopologyStrategy { datacenter_factors } => {
                if datacenter_factors.is_empty() {
                    return Err(ConfigError::NoDatacenters);
                }
                let ghost all = datacenter_factors@;
                let class = String::from_str(CLASS);
                let mut i: usize = 0;
                proof {
                    assert(all.take(0) =~= Seq::<(Seq<char>, u8)>::empty());
                }
                while i < datacenter_factors.len()
                    invariant
                        i <= all.len(),
                        all == datacenter_factors@,
                        all.len() > 0,
                        self@ == (ReplicationFactorView::NetworkTopologyStrategy {
                            datacenter_factors: all,
                        }),
                        replication_fault(self@) is None <==> self@.well_formed(),
                        class@ == CLASS@,
                        datacenters_fault(all.take(i as int)) is None,
                    decreases all.len() - i,
                {
                    let name = datacenter_factors.name(i);
                    proof {
                        let next = all.take(i + 1);
                        assert(next.drop_last() =~= all.take(i as int));
                        assert(next.last() == all[i as int]);
                        lemma_position(all, name@);
                    }
                    if !valid_datacenter_name(name.as_str()) || *name == class {
                        proof {
                            lemma_datacenters_fault(all, i + 1);
                        }
                        return Err(ConfigError::InvalidDatacenterName { name: name.clone() });
                    }
                    let first = datacenter_factors.find(name);
                    proof {
                        let before = all.take(i as int);
                        let at = position(all, name@)->0;
                        if at < i {
                            assert(before[at].0 == name@);
                        } else {
                            assert forall|j: int| 0 <= j < before.len() implies (
                            #[trigger] before[j]).0 != name@ by {
                                assert(before[j] == all[j]);
                            }
                        }
                    }
                    match first {
                        Some(at) => {
                            if at < i {
                                proof {
                                    lemma_datacenters_fault(all, i + 1);
                                }
                                return Err(ConfigError::DuplicateKey { key: name.clone() });
                            }
                        },
                        None => {},
                    }
                    i += 1;
                }
                proof {
                    assert(all.take(i as int) =~= all);
                }
                Ok(())
            },
        }
    }

    /// The settings as a replication object. Well-formed settings can be
    /// read back from it.
    pub fn to_cql(&self) -> (r: String)
        ensures
            r@ == render(self@),
            self@.well_formed() ==> parse_replication(r@) == Ok::<_, ConfigErrorView>(self@),
    {
        proof {
            if self@.well_formed() {
                lemma_roundtrip(self@);
            }
        }
        match self {
            ReplicationFactor::SimpleStrategy { factor } => {
                let class = entry_text(CLASS, quoted_text(SIMPLE_STRATEGY).as_str());
                let number = string_of(&decimal_of(*factor as u64));
                let value = entry_text(REPLICATION_FACTOR, number.as_str());
                String::from_str("{").concat(class.as_str()).concat(",").concat(
                    value.as_str(),
                ).concat(" }")
            },
            ReplicationFactor::NetworkTopologyStrategy { datacenter_factors } => {
                let class = entry_text(CLASS, quoted_text(NETWORK_TOPOLOGY_STRATEGY).as_str());
                let mut entries: String = String::new();
                let mut i: usize = 0;
                let ghost all = datacenter_factors@;
                proof {
                    assert(all.take(0) =~= Seq::<(Seq<char>, u8)>::empty());
                }
                while i < datacenter_factors.len()
                    invariant
                        i <= all.len(),
                        all == datacenter_factors@,
                        entries@ == render_datacenters(all.take(i as int)),
                    decreases all.len() - i,
                {
                    let number = string_of(&decimal_of(datacenter_factors.factor(i) as u64));
                    let next = entry_text(datacenter_factors.name(i).as_str(), number.as_str());
                    proof {
                        let taken = all.take(i + 1);
                        assert(taken.drop_last() =~= all.take(i as int));
                        assert(taken.last() == all[i as int]);
                    }
                    entries = entries.concat(",").concat(next.as_str());
                    i += 1;
                }
                proof {
                    assert(all.take(i as int) =~= all);
                }
                String::from_str("{").concat(class.as_str()).concat(entries.as_str()).concat(" }")
            },
        }
    }
}

/// A keyspace: its name and its replication settings.
#[derive(Debug, Clone, PartialEq, Eq)]
pub struct KeyspaceOpts {
    pub name: String,
    /// Where no settings are given, the keyspace is made with `REPLICATION`:
    /// the simple strategy with a factor of 1, as for development.
    pub replication: Option<ReplicationFactor>,
}

impl KeyspaceOpts {
    /// A keyspace with the simple strategy.
    pub fn simple(name: String, factor: u8) -> (r: Self)
        ensures
            r.name == name,
            r.replication matches Some(replication) && replication@
                == (ReplicationFactorView::SimpleStrategy { factor }),
    {
        KeyspaceOpts { name, replication: Some(ReplicationFactor::SimpleStrategy { factor }) }
    }

    /// The settings with which the keyspace is made: its own, or the simple
    /// strategy with a factor of 1.
    pub open spec fn replication_view(&self) -> ReplicationFactorView {
        match self.replication {
            Some(replication) => replication@,
            None => ReplicationFactorView::SimpleStrategy { factor: 1 },
        }
    }

    /// The replication object with which the keyspace is made.
    pub fn replication_text(&self) -> (r: String)
        ensures
            r@ == render(self.replication_view()),
    {
        match &self.replication {
            Some(replication) => replication.to_cql(),
            None => (ReplicationFactor::SimpleStrategy { factor: 1 }).to_cql(),
        }
    }

    /// The statement that creates the keyspace. A name that is no identifier,
    /// or settings that are not well formed, are refused: what is written
    /// can be read back.
    pub fn create_statement(&self) -> (r: Result<String, ConfigError>)
        ensures
            match r {
                Ok(statement) => {
                    &&& is_identifier(self.name@)
                    &&& self.replication_view().well_formed()
                    &&& statement@ == create_keyspace_statement(
                        self.name@,
                        self.replication_view(),
                    )
                },
                Err(e) => if !is_identifier(self.name@) {
                    e@ == (ConfigErrorView::InvalidKeyspaceName { name: self.name@ })
                } else {
                    replication_fault(self.replication_view()) == Some(e@)
                },
            },
    {
        if !valid_identifier(self.name.as_str()) {
            return Err(ConfigError::InvalidKeyspaceName { name: self.name.clone() });
        }
        match &self.replication {
            Some(replication) => match replication.validate() {
                Ok(_) => {},
                Err(e) => {
                    return Err(e);
                },
            },
            None => {},
        }
        let replication = self.replication_text();
        Ok(
            String::from_str("create keyspace ").concat(self.name.as_str()).concat(
                " with replication = ",
            ).concat(replication.as_str()),
        )
    }
}

} // verus!
