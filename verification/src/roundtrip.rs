//! Reading back what was written: the replication object of well-formed
//! settings parses to the same settings.

use vstd::prelude::*;
use crate::keyspace::{
    collect_fields, datacenters, distinct_names, entry, has_name, is_datacenter_name, is_identifier,
    is_identifier_char, key_value, lookup, object_body, parse_replication, position, quoted,
    render, render_datacenters, unquote, ConfigErrorView, ReplicationFactorView,
    CLASS, NETWORK_TOPOLOGY_STRATEGY, REPLICATION, REPLICATION_FACTOR, SIMPLE_STRATEGY,
};
use crate::text::{
    decimal, is_digit, is_whitespace, lemma_decimal, lemma_find_at, lemma_parse_decimal,
    lemma_split_concat, lemma_split_none, lemma_strip, split, trim,
};

verus! {

/// Whether `c` occurs nowhere in `s`.
pub open spec fn free_of(s: Seq<char>, c: char) -> bool {
    forall|j: int| 0 <= j < s.len() ==> s[j] != c
}

/// Whether `s` holds whitespace only.
pub open spec fn blank(s: Seq<char>) -> bool {
    forall|j: int| 0 <= j < s.len() ==> is_whitespace(s[j])
}

/// Two texts free of a character are free of it when joined.
pub proof fn lemma_free_concat(a: Seq<char>, b: Seq<char>, c: char)
    requires
        free_of(a, c),
        free_of(b, c),
    ensures
        free_of(a + b, c),
{
    assert forall|j: int| 0 <= j < (a + b).len() implies (a + b)[j] != c by {
        if j < a.len() {
            assert((a + b)[j] == a[j]);
        } else {
            assert((a + b)[j] == b[j - a.len()]);
        }
    }
}

/// An identifier holds no comma, colon, quote or whitespace.
pub proof fn lemma_identifier_chars(s: Seq<char>)
    requires
        is_identifier(s),
    ensures
        free_of(s, ','),
        free_of(s, ':'),
        free_of(s, '\''),
        free_of(s, '"'),
        forall|j: int| 0 <= j < s.len() ==> !is_whitespace(s[j]),
{
    assert forall|j: int| 0 <= j < s.len() implies s[j] != ',' && s[j] != ':' && s[j] != '\''
        && s[j] != '"' && !is_whitespace(s[j]) by {
        assert(is_identifier_char(s[j]));
    }
}

/// A numeral is an identifier.
pub proof fn lemma_decimal_identifier(n: nat)
    ensures
        is_identifier(decimal(n)),
{
    lemma_decimal(n);
    let s = decimal(n);
    assert forall|j: int| 0 <= j < s.len() implies is_identifier_char(#[trigger] s[j]) by {
        assert(is_digit(s[j]));
    }
}

/// An identifier between whitespace is read as it stands.
pub proof fn lemma_unquote_word(pad: Seq<char>, word: Seq<char>, tail: Seq<char>)
    requires
        is_identifier(word),
        blank(pad),
        blank(tail),
    ensures
        unquote(pad + word + tail) == word,
{
    lemma_identifier_chars(word);
    let none = Seq::<char>::empty();
    lemma_strip(pad, word, tail, None);
    assert(none + word + none =~= word);
    lemma_strip(none, word, none, Some('"'));
    lemma_strip(none, word, none, Some('\''));
}

/// A quoted identifier between whitespace is read without its quotes.
pub proof fn lemma_unquote_quoted(pad: Seq<char>, word: Seq<char>, tail: Seq<char>)
    requires
        is_identifier(word),
        blank(pad),
        blank(tail),
    ensures
        unquote(pad + quoted(word) + tail) == word,
{
    reveal_strlit("'");
    lemma_identifier_chars(word);
    let none = Seq::<char>::empty();
    let q = quoted(word);
    assert(q[0] == '\'');
    assert(q.last() == '\'');
    lemma_strip(pad, q, tail, None);
    assert(none + q + none =~= q);
    lemma_strip(none, q, none, Some('"'));
    lemma_strip("'"@, word, "'"@, Some('\''));
}

/// An entry, and what follows it up to the next comma, is read as its key
/// and what stands after the colon.
pub proof fn lemma_key_value(key: Seq<char>, value: Seq<char>, tail: Seq<char>)
    requires
        is_identifier(key),
    ensures
        key_value(entry(key, value) + tail) == Some((key, unquote(" "@ + value + tail))),
{
    reveal_strlit(" '");
    reveal_strlit("': ");
    reveal_strlit(" ");
    reveal_strlit("'");
    lemma_identifier_chars(key);
    let s = entry(key, value) + tail;
    let c = key.len() as int + 3;
    assert forall|j: int| 0 <= j < c implies s[j] != ':' by {
        if j < 2 {
            assert(s[j] == " '"@[j]);
        } else if j < 2 + key.len() {
            assert(s[j] == key[j - 2]);
        } else {
            assert(s[j] == "': "@[0]);
        }
    }
    assert(s[c] == "': "@[1]);
    lemma_find_at(s, ':', c);
    assert(s.take(c) =~= " "@ + quoted(key) + Seq::<char>::empty());
    assert(s.skip(c + 1) =~= " "@ + value + tail);
    lemma_unquote_quoted(" "@, key, Seq::<char>::empty());
}

/// An entry of identifiers holds no comma.
pub proof fn lemma_entry_free(key: Seq<char>, value: Seq<char>)
    requires
        is_identifier(key),
        free_of(value, ','),
    ensures
        free_of(entry(key, value), ','),
{
    reveal_strlit(" '");
    reveal_strlit("': ");
    lemma_identifier_chars(key);
    lemma_free_concat(" '"@, key, ',');
    lemma_free_concat(" '"@ + key, "': "@, ',');
    lemma_free_concat(" '"@ + key + "': "@, value, ',');
}

/// A quoted identifier holds no comma.
pub proof fn lemma_quoted_free(word: Seq<char>)
    requires
        is_identifier(word),
    ensures
        free_of(quoted(word), ','),
{
    reveal_strlit("'");
    lemma_identifier_chars(word);
    lemma_free_concat("'"@, word, ',');
    lemma_free_concat("'"@ + word, "'"@, ',');
}

/// The keys and class names are identifiers, and differ from each other.
pub proof fn lemma_words()
    ensures
        is_identifier(CLASS@),
        is_identifier(REPLICATION_FACTOR@),
        is_identifier(SIMPLE_STRATEGY@),
        is_identifier(NETWORK_TOPOLOGY_STRATEGY@),
        CLASS@ != REPLICATION_FACTOR@,
        SIMPLE_STRATEGY@ != NETWORK_TOPOLOGY_STRATEGY@,
{
    reveal_strlit("class");
    reveal_strlit("replication_factor");
    reveal_strlit("SimpleStrategy");
    reveal_strlit("NetworkTopologyStrategy");
    assert(CLASS@.len() == 5);
    assert(REPLICATION_FACTOR@.len() == 18);
    assert(SIMPLE_STRATEGY@.len() == 14);
    assert(NETWORK_TOPOLOGY_STRATEGY@.len() == 23);
}

/// The object of the simple strategy is read as the simple strategy with
/// the same factor.
pub proof fn lemma_simple_roundtrip(factor: u8)
    ensures
        parse_replication(render(ReplicationFactorView::SimpleStrategy { factor })) == Ok::<
            _,
            ConfigErrorView,
        >(ReplicationFactorView::SimpleStrategy { factor }),
{
    reveal_strlit("{");
    reveal_strlit(",");
    reveal_strlit(" }");
    reveal_strlit(" ");
    lemma_words();
    let none = Seq::<char>::empty();
    let number = decimal(factor as nat);
    lemma_decimal_identifier(factor as nat);
    lemma_parse_decimal(factor);
    let e1 = entry(CLASS@, quoted(SIMPLE_STRATEGY@));
    let e2 = entry(REPLICATION_FACTOR@, number);
    let last = e2 + " "@;
    let text = render(ReplicationFactorView::SimpleStrategy { factor });
    assert(text == "{"@ + e1 + ","@ + e2 + " }"@);
    // the braces
    assert(text[0] == '{');
    assert(text.last() == '}');
    assert(none + text + none =~= text);
    lemma_strip(none, text, none, None);
    assert(trim(text) == text);
    let body = text.subrange(1, text.len() - 1);
    assert(body =~= e1 + seq![','] + last);
    assert(object_body(text) == Some(body));
    // the segments
    lemma_quoted_free(SIMPLE_STRATEGY@);
    lemma_entry_free(CLASS@, quoted(SIMPLE_STRATEGY@));
    lemma_identifier_chars(number);
    lemma_entry_free(REPLICATION_FACTOR@, number);
    lemma_free_concat(e2, " "@, ',');
    lemma_split_none(e1, ',');
    lemma_split_none(last, ',');
    lemma_split_concat(e1, last, ',');
    let segments = seq![e1, last];
    assert(split(body, ',') =~= segments);
    // the fields
    lemma_key_value(CLASS@, quoted(SIMPLE_STRATEGY@), none);
    assert(e1 + none =~= e1);
    assert(" "@ + quoted(SIMPLE_STRATEGY@) + none =~= " "@ + quoted(SIMPLE_STRATEGY@));
    lemma_unquote_quoted(" "@, SIMPLE_STRATEGY@, none);
    assert(key_value(e1) == Some((CLASS@, SIMPLE_STRATEGY@)));
    lemma_key_value(REPLICATION_FACTOR@, number, " "@);
    lemma_unquote_word(" "@, number, " "@);
    assert(key_value(last) == Some((REPLICATION_FACTOR@, number)));
    let first = seq![e1];
    assert(segments.drop_last() =~= first);
    assert(first.drop_last() =~= Seq::<Seq<char>>::empty());
    let fields1 = Seq::<(Seq<char>, Seq<char>)>::empty().push((CLASS@, SIMPLE_STRATEGY@));
    assert(collect_fields(first.drop_last()) == Ok::<_, ConfigErrorView>(
        Seq::<(Seq<char>, Seq<char>)>::empty(),
    ));
    assert(collect_fields(first) == Ok::<_, ConfigErrorView>(fields1));
    assert(!has_name(fields1, REPLICATION_FACTOR@));
    let fields = fields1.push((REPLICATION_FACTOR@, number));
    assert(collect_fields(segments) == Ok::<_, ConfigErrorView>(fields));
    // the settings
    assert(position(fields, CLASS@) == Some(0int));
    assert(fields.drop_first() =~= seq![(REPLICATION_FACTOR@, number)]);
    assert(position(fields.drop_first(), REPLICATION_FACTOR@) == Some(0int));
    assert(position(fields, REPLICATION_FACTOR@) == Some(1int));
    assert(lookup(fields, CLASS@) == Some(SIMPLE_STRATEGY@));
    assert(lookup(fields, REPLICATION_FACTOR@) == Some(number));
}

/// The default settings are the simple strategy with a factor of 1.
pub proof fn lemma_default_replication()
    ensures
        REPLICATION@ == render(ReplicationFactorView::SimpleStrategy { factor: 1 }),
        parse_replication(REPLICATION@) == Ok::<_, ConfigErrorView>(
            ReplicationFactorView::SimpleStrategy { factor: 1 },
        ),
{
    reveal_strlit("{ 'class': 'SimpleStrategy', 'replication_factor': 1 }");
    reveal_strlit("class");
    reveal_strlit("replication_factor");
    reveal_strlit("SimpleStrategy");
    reveal_strlit("{");
    reveal_strlit(",");
    reveal_strlit(" }");
    reveal_strlit(" '");
    reveal_strlit("': ");
    reveal_strlit("'");
    assert(decimal(1) =~= seq!['1']);
    let text = render(ReplicationFactorView::SimpleStrategy { factor: 1 });
    assert(text.len() == 54);
    assert(REPLICATION@ =~= text);
    lemma_simple_roundtrip(1);
}

/// The entry of the network strategy's class.
pub open spec fn class_entry() -> Seq<char> {
    entry(CLASS@, quoted(NETWORK_TOPOLOGY_STRATEGY@))
}

/// The segments of the object of the network strategy: the class, then one
/// entry for each datacenter.
pub open spec fn segments_of(factors: Seq<(Seq<char>, u8)>) -> Seq<Seq<char>>
    decreases factors.len(),
{
    if factors.len() == 0 {
        seq![class_entry()]
    } else {
        segments_of(factors.drop_last()).push(
            entry(factors.last().0, decimal(factors.last().1 as nat)),
        )
    }
}

/// The fields of the object of the network strategy: the class, then one
/// field for each datacenter.
pub open spec fn fields_of(factors: Seq<(Seq<char>, u8)>) -> Seq<(Seq<char>, Seq<char>)>
    decreases factors.len(),
{
    if factors.len() == 0 {
        seq![(CLASS@, NETWORK_TOPOLOGY_STRATEGY@)]
    } else {
        fields_of(factors.drop_last()).push((factors.last().0, decimal(factors.last().1 as nat)))
    }
}

/// The datacenters are named by valid names other than `class`.
pub open spec fn valid_names(factors: Seq<(Seq<char>, u8)>) -> bool {
    forall|i: int|
        0 <= i < factors.len() ==> {
            &&& is_datacenter_name((#[trigger] factors[i]).0)
            &&& factors[i].0 != CLASS@
        }
}

/// The fields are the class and then the datacenters, place by place.
pub proof fn lemma_fields_of(factors: Seq<(Seq<char>, u8)>)
    ensures
        fields_of(factors).len() == factors.len() + 1,
        fields_of(factors)[0] == (CLASS@, NETWORK_TOPOLOGY_STRATEGY@),
        forall|i: int|
            0 <= i < factors.len() ==> #[trigger] fields_of(factors)[i + 1] == (
                factors[i].0,
                decimal(factors[i].1 as nat),
            ),
    decreases factors.len(),
{
    if factors.len() > 0 {
        let before = factors.drop_last();
        lemma_fields_of(before);
        assert forall|i: int| 0 <= i < factors.len() implies #[trigger] fields_of(factors)[i + 1]
            == (factors[i].0, decimal(factors[i].1 as nat)) by {
            if i < before.len() {
                assert(fields_of(before)[i + 1] == (before[i].0, decimal(before[i].1 as nat)));
            }
        }
    }
}

/// The body of the object, without the blank before the closing brace, is
/// split into its segments.
pub proof fn lemma_split_body(factors: Seq<(Seq<char>, u8)>)
    requires
        valid_names(factors),
    ensures
        split(class_entry() + render_datacenters(factors), ',') == segments_of(factors),
    decreases factors.len(),
{
    reveal_strlit(",");
    lemma_words();
    lemma_quoted_free(NETWORK_TOPOLOGY_STRATEGY@);
    lemma_entry_free(CLASS@, quoted(NETWORK_TOPOLOGY_STRATEGY@));
    if factors.len() == 0 {
        assert(class_entry() + render_datacenters(factors) =~= class_entry());
        lemma_split_none(class_entry(), ',');
    } else {
        let before = factors.drop_last();
        let name = factors.last().0;
        let number = decimal(factors.last().1 as nat);
        let last = entry(name, number);
        assert(valid_names(before)) by {
            assert forall|i: int| 0 <= i < before.len() implies is_datacenter_name(
                (#[trigger] before[i]).0,
            ) && before[i].0 != CLASS@ by {
                assert(before[i] == factors[i]);
            }
        }
        lemma_split_body(before);
        assert(is_datacenter_name(factors[factors.len() - 1].0));
        lemma_decimal_identifier(factors.last().1 as nat);
        lemma_identifier_chars(number);
        lemma_entry_free(name, number);
        lemma_split_none(last, ',');
        let head = class_entry() + render_datacenters(before);
        lemma_split_concat(head, last, ',');
        assert(class_entry() + render_datacenters(factors) =~= head + seq![','] + last);
    }
}

/// The segments are read as the fields. The blank before the closing brace
/// belongs to the last segment and is not read.
pub proof fn lemma_collect_segments(factors: Seq<(Seq<char>, u8)>, tail: Seq<char>)
    requires
        valid_names(factors),
        distinct_names(factors),
        blank(tail),
        factors.len() == 0 ==> tail.len() == 0,
    ensures
        collect_fields(
            segments_of(factors).update(
                segments_of(factors).len() - 1,
                segments_of(factors).last() + tail,
            ),
        ) == Ok::<_, ConfigErrorView>(fields_of(factors)),
    decreases factors.len(),
{
    lemma_words();
    let none = Seq::<char>::empty();
    let segments = segments_of(factors);
    let given = segments.update(segments.len() - 1, segments.last() + tail);
    if factors.len() == 0 {
        assert(class_entry() + tail =~= class_entry());
        assert(given =~= seq![class_entry()]);
        assert(given.drop_last() =~= Seq::<Seq<char>>::empty());
        lemma_key_value(CLASS@, quoted(NETWORK_TOPOLOGY_STRATEGY@), none);
        assert(class_entry() + none =~= class_entry());
        assert(" "@ + quoted(NETWORK_TOPOLOGY_STRATEGY@) + none =~= " "@ + quoted(
            NETWORK_TOPOLOGY_STRATEGY@,
        ));
        reveal_strlit(" ");
        lemma_unquote_quoted(" "@, NETWORK_TOPOLOGY_STRATEGY@, none);
        assert(collect_fields(given.drop_last()) == Ok::<_, ConfigErrorView>(
            Seq::<(Seq<char>, Seq<char>)>::empty(),
        ));
        assert(fields_of(factors) =~= Seq::<(Seq<char>, Seq<char>)>::empty().push(
            (CLASS@, NETWORK_TOPOLOGY_STRATEGY@),
        ));
    } else {
        let before = factors.drop_last();
        let name = factors.last().0;
        let number = decimal(factors.last().1 as nat);
        assert(valid_names(before) && distinct_names(before)) by {
            assert forall|i: int| 0 <= i < before.len() implies is_datacenter_name(
                (#[trigger] before[i]).0,
            ) && before[i].0 != CLASS@ by {
                assert(before[i] == factors[i]);
            }
            assert forall|i: int, j: int|
                0 <= i < before.len() && 0 <= j < before.len() && i != j implies (
            #[trigger] before[i]).0 != (#[trigger] before[j]).0 by {
                assert(before[i] == factors[i]);
                assert(before[j] == factors[j]);
            }
        }
        lemma_collect_segments(before, none);
        let earlier = segments_of(before);
        assert(earlier.update(earlier.len() - 1, earlier.last() + none) =~= earlier);
        assert(given.drop_last() =~= earlier);
        assert(given.last() == entry(name, number) + tail);
        assert(is_datacenter_name(factors[factors.len() - 1].0));
        lemma_key_value(name, number, tail);
        lemma_decimal_identifier(factors.last().1 as nat);
        reveal_strlit(" ");
        lemma_unquote_word(" "@, number, tail);
        let fields = fields_of(before);
        lemma_fields_of(before);
        assert(!has_name(fields, name)) by {
            if has_name(fields, name) {
                let i = choose|i: int| 0 <= i < fields.len() && (#[trigger] fields[i]).0 == name;
                if i > 0 {
                    assert(fields[i - 1 + 1] == (before[i - 1].0, decimal(before[i - 1].1 as nat)));
                    assert(before[i - 1] == factors[i - 1]);
                    assert(factors[i - 1].0 != factors[factors.len() - 1].0);
                }
            }
        }
    }
}

/// The fields are read as the datacenters.
pub proof fn lemma_read_fields(factors: Seq<(Seq<char>, u8)>)
    requires
        valid_names(factors),
    ensures
        datacenters(fields_of(factors)) == Ok::<_, ConfigErrorView>(factors),
    decreases factors.len(),
{
    let fields = fields_of(factors);
    if factors.len() == 0 {
        assert(fields.drop_last() =~= Seq::<(Seq<char>, Seq<char>)>::empty());
        assert(datacenters(fields.drop_last()) == Ok::<_, ConfigErrorView>(
            Seq::<(Seq<char>, u8)>::empty(),
        ));
        assert(factors =~= Seq::<(Seq<char>, u8)>::empty());
    } else {
        let before = factors.drop_last();
        assert(valid_names(before)) by {
            assert forall|i: int| 0 <= i < before.len() implies is_datacenter_name(
                (#[trigger] before[i]).0,
            ) && before[i].0 != CLASS@ by {
                assert(before[i] == factors[i]);
            }
        }
        lemma_read_fields(before);
        assert(fields.drop_last() =~= fields_of(before));
        assert(is_datacenter_name(factors[factors.len() - 1].0));
        lemma_parse_decimal(factors.last().1);
        assert(before.push(factors.last()) =~= factors);
    }
}

/// The object of the network strategy is read as the network strategy with
/// the same datacenters and factors, in the same order: none is lost and
/// none is added.
pub proof fn lemma_network_roundtrip(factors: Seq<(Seq<char>, u8)>)
    requires
        (ReplicationFactorView::NetworkTopologyStrategy {
            datacenter_factors: factors,
        }).well_formed(),
    ensures
        parse_replication(
            render(ReplicationFactorView::NetworkTopologyStrategy { datacenter_factors: factors }),
        ) == Ok::<_, ConfigErrorView>(
            ReplicationFactorView::NetworkTopologyStrategy { datacenter_factors: factors },
        ),
{
    reveal_strlit("{");
    reveal_strlit(" }");
    reveal_strlit(" ");
    reveal_strlit(",");
    lemma_words();
    let none = Seq::<char>::empty();
    let text = render(
        ReplicationFactorView::NetworkTopologyStrategy { datacenter_factors: factors },
    );
    let inner = class_entry() + render_datacenters(factors);
    assert(text == "{"@ + class_entry() + render_datacenters(factors) + " }"@);
    assert(text[0] == '{');
    assert(text.last() == '}');
    assert(none + text + none =~= text);
    lemma_strip(none, text, none, None);
    let body = text.subrange(1, text.len() - 1);
    assert(body =~= inner + " "@);
    assert(object_body(text) == Some(body));
    // the segments
    assert(valid_names(factors));
    let before = factors.drop_last();
    let name = factors.last().0;
    let number = decimal(factors.last().1 as nat);
    let last = entry(name, number);
    assert(valid_names(before)) by {
        assert forall|i: int| 0 <= i < before.len() implies is_datacenter_name(
            (#[trigger] before[i]).0,
        ) && before[i].0 != CLASS@ by {
            assert(before[i] == factors[i]);
        }
    }
    lemma_split_body(before);
    let head = class_entry() + render_datacenters(before);
    assert(is_datacenter_name(factors[factors.len() - 1].0));
    lemma_decimal_identifier(factors.last().1 as nat);
    lemma_identifier_chars(number);
    lemma_entry_free(name, number);
    lemma_free_concat(last, " "@, ',');
    lemma_split_none(last + " "@, ',');
    lemma_split_concat(head, last + " "@, ',');
    assert(body =~= head + seq![','] + (last + " "@));
    let segments = segments_of(factors);
    let given = segments.update(segments.len() - 1, segments.last() + " "@);
    assert(split(body, ',') =~= given);
    // the fields and the settings
    lemma_collect_segments(factors, " "@);
    lemma_fields_of(factors);
    lemma_read_fields(factors);
    let fields = fields_of(factors);
    assert(position(fields, CLASS@) == Some(0int));
    assert(lookup(fields, CLASS@) == Some(NETWORK_TOPOLOGY_STRATEGY@));
}

/// Writing settings and reading them back gives the same settings.
pub proof fn lemma_roundtrip(replication: ReplicationFactorView)
    requires
        replication.well_formed(),
    ensures
        parse_replication(render(replication)) == Ok::<_, ConfigErrorView>(replication),
{
    match replication {
        ReplicationFactorView::SimpleStrategy { factor } => {
            lemma_simple_roundtrip(factor);
        },
        ReplicationFactorView::NetworkTopologyStrategy { datacenter_factors } => {
            lemma_network_roundtrip(datacenter_factors);
        },
    }
}

} // verus!
