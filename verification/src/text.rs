//! Text as sequences of characters: searching, splitting, trimming and
//! decimal numbers.

use vstd::prelude::*;

verus! {

/// The characters that Unicode classes as `White_Space`.
pub open spec fn is_whitespace(c: char) -> bool {
    let n = c as u32;
    ||| 0x09 <= n <= 0x0D
    ||| n == 0x20
    ||| n == 0x85
    ||| n == 0xA0
    ||| n == 0x1680
    ||| 0x2000 <= n <= 0x200A
    ||| n == 0x2028
    ||| n == 0x2029
    ||| n == 0x202F
    ||| n == 0x205F
    ||| n == 0x3000
}

/// What is stripped from the ends of a text: a given character, or any
/// whitespace where none is given.
pub open spec fn stripped(what: Option<char>, c: char) -> bool {
    match what {
        Some(q) => c == q,
        None => is_whitespace(c),
    }
}

/// `s` without its longest prefix of stripped characters.
pub open spec fn strip_start(s: Seq<char>, what: Option<char>) -> Seq<char>
    decreases s.len(),
{
    if s.len() > 0 && stripped(what, s[0]) {
        strip_start(s.drop_first(), what)
    } else {
        s
    }
}

/// `s` without its longest suffix of stripped characters.
pub open spec fn strip_end(s: Seq<char>, what: Option<char>) -> Seq<char>
    decreases s.len(),
{
    if s.len() > 0 && stripped(what, s.last()) {
        strip_end(s.drop_last(), what)
    } else {
        s
    }
}

/// `s` with the stripped characters removed from both ends.
pub open spec fn strip(s: Seq<char>, what: Option<char>) -> Seq<char> {
    strip_end(strip_start(s, what), what)
}

/// `s` without surrounding whitespace.
pub open spec fn trim(s: Seq<char>) -> Seq<char> {
    strip(s, None)
}

/// `s` without the run of `q` at either end.
pub open spec fn trim_matches(s: Seq<char>, q: char) -> Seq<char> {
    strip(s, Some(q))
}

/// The position of the first `c` in `s`.
pub open spec fn find(s: Seq<char>, c: char) -> Option<int>
    decreases s.len(),
{
    if s.len() == 0 {
        None
    } else if s[0] == c {
        Some(0)
    } else {
        match find(s.drop_first(), c) {
            Some(i) => Some(i + 1),
            None => None,
        }
    }
}

/// The pieces of `s` between the occurrences of `sep`: one more piece than
/// there are separators, empty pieces included.
pub open spec fn split(s: Seq<char>, sep: char) -> Seq<Seq<char>>
    decreases s.len(),
{
    match find(s, sep) {
        Some(i) => if 0 <= i < s.len() {
            seq![s.take(i)] + split(s.skip(i + 1), sep)
        } else {
            seq![s]
        },
        None => seq![s],
    }
}

/// The texts that a vector of character vectors holds.
pub open spec fn texts(v: Seq<Vec<char>>) -> Seq<Seq<char>> {
    Seq::new(v.len(), |i: int| v[i]@)
}

/// `find` gives the least position that holds `c`, and `None` only where no
/// position does.
pub proof fn lemma_find(s: Seq<char>, c: char)
    ensures
        match find(s, c) {
            Some(i) => 0 <= i < s.len() && s[i] == c && forall|j: int| 0 <= j < i ==> s[j] != c,
            None => forall|j: int| 0 <= j < s.len() ==> s[j] != c,
        },
    decreases s.len(),
{
    if s.len() > 0 && s[0] != c {
        let t = s.drop_first();
        lemma_find(t, c);
        match find(t, c) {
            Some(i) => {
                assert forall|j: int| 0 <= j < i + 1 implies s[j] != c by {
                    if j > 0 {
                        assert(s[j] == t[j - 1]);
                    }
                }
            },
            None => {
                assert forall|j: int| 0 <= j < s.len() implies s[j] != c by {
                    if j > 0 {
                        assert(s[j] == t[j - 1]);
                    }
                }
            },
        }
    }
}

/// The first `c` of `s` stands at `i`.
pub proof fn lemma_find_at(s: Seq<char>, c: char, i: int)
    requires
        0 <= i < s.len(),
        s[i] == c,
        forall|j: int| 0 <= j < i ==> s[j] != c,
    ensures
        find(s, c) == Some(i),
{
    lemma_find(s, c);
}

/// No `c` stands in `s`.
pub proof fn lemma_find_none(s: Seq<char>, c: char)
    requires
        forall|j: int| 0 <= j < s.len() ==> s[j] != c,
    ensures
        find(s, c) == None::<int>,
{
    lemma_find(s, c);
}

/// Stripping the start drops exactly the first `k` characters, where they are
/// all stripped and the next one is not.
pub proof fn lemma_strip_start(s: Seq<char>, what: Option<char>, k: int)
    requires
        0 <= k <= s.len(),
        forall|j: int| 0 <= j < k ==> stripped(what, s[j]),
        k < s.len() ==> !stripped(what, s[k]),
    ensures
        strip_start(s, what) == s.skip(k),
    decreases k,
{
    if k == 0 {
        assert(s.skip(0) =~= s);
    } else {
        let t = s.drop_first();
        assert forall|j: int| 0 <= j < k - 1 implies stripped(what, t[j]) by {
            assert(t[j] == s[j + 1]);
        }
        lemma_strip_start(t, what, k - 1);
        assert(t.skip(k - 1) =~= s.skip(k));
    }
}

/// Stripping the end keeps exactly the first `k` characters, where all after
/// them are stripped and the last of them is not.
pub proof fn lemma_strip_end(s: Seq<char>, what: Option<char>, k: int)
    requires
        0 <= k <= s.len(),
        forall|j: int| k <= j < s.len() ==> stripped(what, s[j]),
        k > 0 ==> !stripped(what, s[k - 1]),
    ensures
        strip_end(s, what) == s.take(k),
    decreases s.len() - k,
{
    if k == s.len() {
        assert(s.take(k) =~= s);
    } else {
        let t = s.drop_last();
        lemma_strip_end(t, what, k);
        assert(t.take(k) =~= s.take(k));
    }
}

/// A text that holds no separator is its own single piece.
pub proof fn lemma_split_none(s: Seq<char>, sep: char)
    requires
        forall|j: int| 0 <= j < s.len() ==> s[j] != sep,
    ensures
        split(s, sep) == seq![s],
{
    lemma_find_none(s, sep);
}

/// The pieces of two texts joined by a separator are the pieces of the first
/// and then the pieces of the second.
pub proof fn lemma_split_concat(x: Seq<char>, y: Seq<char>, sep: char)
    ensures
        split(x + seq![sep] + y, sep) == split(x, sep) + split(y, sep),
    decreases x.len(),
{
    let w = x + seq![sep] + y;
    lemma_find(x, sep);
    match find(x, sep) {
        Some(i) => {
            assert forall|j: int| 0 <= j < i implies w[j] != sep by {
                assert(w[j] == x[j]);
            }
            assert(w[i] == x[i]);
            lemma_find_at(w, sep, i);
            let rest = x.skip(i + 1);
            lemma_split_concat(rest, y, sep);
            assert(w.take(i) =~= x.take(i));
            assert(w.skip(i + 1) =~= rest + seq![sep] + y);
            assert(split(w, sep) =~= split(x, sep) + split(y, sep));
        },
        None => {
            assert forall|j: int| 0 <= j < x.len() implies w[j] != sep by {
                assert(w[j] == x[j]);
            }
            assert(w[x.len() as int] == sep);
            lemma_find_at(w, sep, x.len() as int);
            assert(w.take(x.len() as int) =~= x);
            assert(w.skip(x.len() as int + 1) =~= y);
            assert(split(w, sep) =~= seq![x] + split(y, sep));
        },
    }
}

/// Stripping gives the core of a text: what stands between a stripped start
/// and a stripped end, where the core itself neither starts nor ends with a
/// stripped character.
pub proof fn lemma_strip(l: Seq<char>, core: Seq<char>, r: Seq<char>, what: Option<char>)
    requires
        forall|j: int| 0 <= j < l.len() ==> stripped(what, l[j]),
        forall|j: int| 0 <= j < r.len() ==> stripped(what, r[j]),
        core.len() > 0 ==> !stripped(what, core[0]) && !stripped(what, core.last()),
    ensures
        strip(l + core + r, what) == core,
{
    let t = l + core + r;
    if core.len() > 0 {
        assert forall|j: int| 0 <= j < l.len() implies stripped(what, t[j]) by {
            assert(t[j] == l[j]);
        }
        assert(t[l.len() as int] == core[0]);
        lemma_strip_start(t, what, l.len() as int);
        let u = t.skip(l.len() as int);
        assert(u =~= core + r);
        assert forall|j: int| core.len() <= j < u.len() implies stripped(what, u[j]) by {
            assert(u[j] == r[j - core.len()]);
        }
        assert(u[core.len() - 1] == core.last());
        lemma_strip_end(u, what, core.len() as int);
        assert(u.take(core.len() as int) =~= core);
    } else {
        assert forall|j: int| 0 <= j < t.len() implies stripped(what, t[j]) by {
            if j < l.len() {
                assert(t[j] == l[j]);
            } else {
                assert(t[j] == r[j - l.len()]);
            }
        }
        lemma_strip_start(t, what, t.len() as int);
        assert(t.skip(t.len() as int) =~= Seq::<char>::empty());
        assert(core =~= Seq::<char>::empty());
    }
}

/// Whether `c` is whitespace.
pub fn char_is_whitespace(c: char) -> (r: bool)
    ensures
        r == is_whitespace(c),
{
    let n: u32 = c as u32;
    (0x09 <= n && n <= 0x0D) || n == 0x20 || n == 0x85 || n == 0xA0 || n == 0x1680 || (0x2000 <= n
        && n <= 0x200A) || n == 0x2028 || n == 0x2029 || n == 0x202F || n == 0x205F || n == 0x3000
}

fn is_stripped(what: Option<char>, c: char) -> (r: bool)
    ensures
        r == stripped(what, c),
{
    match what {
        Some(q) => c == q,
        None => char_is_whitespace(c),
    }
}

/// The characters of `v` from `lo` up to `hi`.
pub fn slice(v: &Vec<char>, lo: usize, hi: usize) -> (r: Vec<char>)
    requires
        lo <= hi <= v.len(),
    ensures
        r@ == v@.subrange(lo as int, hi as int),
{
    let mut r: Vec<char> = Vec::new();
    let mut i: usize = lo;
    while i < hi
        invariant
            lo <= i <= hi <= v.len(),
            r@ == v@.subrange(lo as int, i as int),
        decreases hi - i,
    {
        r.push(v[i]);
        i += 1;
        assert(r@ =~= v@.subrange(lo as int, i as int));
    }
    r
}

fn strip_by(v: &Vec<char>, what: Option<char>) -> (r: Vec<char>)
    ensures
        r@ == strip(v@, what),
{
    let n: usize = v.len();
    let mut lo: usize = 0;
    while lo < n && is_stripped(what, v[lo])
        invariant
            lo <= n == v.len(),
            forall|j: int| 0 <= j < lo ==> stripped(what, v@[j]),
        decreases n - lo,
    {
        lo += 1;
    }
    let mut hi: usize = n;
    while hi > lo && is_stripped(what, v[hi - 1])
        invariant
            lo <= hi <= n == v.len(),
            forall|j: int| hi <= j < n ==> stripped(what, v@[j]),
        decreases hi,
    {
        hi -= 1;
    }
    proof {
        lemma_strip_start(v@, what, lo as int);
        let t = v@.skip(lo as int);
        assert forall|j: int| hi - lo <= j < t.len() implies stripped(what, t[j]) by {
            assert(t[j] == v@[j + lo]);
        }
        lemma_strip_end(t, what, hi - lo);
        assert(t.take(hi - lo) =~= v@.subrange(lo as int, hi as int));
    }
    slice(v, lo, hi)
}

/// `v` without surrounding whitespace.
pub fn trim_chars(v: &Vec<char>) -> (r: Vec<char>)
    ensures
        r@ == trim(v@),
{
    strip_by(v, None)
}

/// `v` without the run of `q` at either end.
pub fn trim_matches_chars(v: &Vec<char>, q: char) -> (r: Vec<char>)
    ensures
        r@ == trim_matches(v@, q),
{
    strip_by(v, Some(q))
}

/// The position of the first `c` in `v`.
pub fn find_char(v: &Vec<char>, c: char) -> (r: Option<usize>)
    ensures
        match r {
            Some(i) => i < v.len() && find(v@, c) == Some(i as int),
            None => find(v@, c) == None::<int>,
        },
{
    let mut i: usize = 0;
    while i < v.len()
        invariant
            i <= v.len(),
            forall|j: int| 0 <= j < i ==> v@[j] != c,
        decreases v.len() - i,
    {
        if v[i] == c {
            proof {
                lemma_find_at(v@, c, i as int);
            }
            return Some(i);
        }
        i += 1;
    }
    proof {
        lemma_find_none(v@, c);
    }
    None
}

/// The pieces of `v` between the occurrences of `sep`.
pub fn split_chars(v: &Vec<char>, sep: char) -> (r: Vec<Vec<char>>)
    ensures
        texts(r@) == split(v@, sep),
{
    let n: usize = v.len();
    let mut pieces: Vec<Vec<char>> = Vec::new();
    let mut start: usize = 0;
    let mut i: usize = 0;
    proof {
        assert(v@.skip(0) =~= v@);
        assert(texts(pieces@) + split(v@.skip(0), sep) =~= split(v@, sep));
    }
    while i < n
        invariant
            start <= i <= n == v.len(),
            forall|j: int| start <= j < i ==> v@[j] != sep,
            texts(pieces@) + split(v@.skip(start as int), sep) == split(v@, sep),
        decreases n - i,
    {
        if v[i] == sep {
            let piece = slice(v, start, i);
            proof {
                let rest = v@.skip(start as int);
                assert forall|j: int| 0 <= j < i - start implies rest[j] != sep by {
                    assert(rest[j] == v@[j + start]);
                }
                lemma_find_at(rest, sep, i - start);
                assert(rest.take(i - start) =~= piece@);
                assert(rest.skip(i - start + 1) =~= v@.skip(i + 1));
                assert(texts(pieces@.push(piece)) =~= texts(pieces@) + seq![piece@]);
            }
            pieces.push(piece);
            start = i + 1;
        }
        i += 1;
    }
    let piece = slice(v, start, n);
    proof {
        let rest = v@.skip(start as int);
        assert forall|j: int| 0 <= j < rest.len() implies rest[j] != sep by {
            assert(rest[j] == v@[j + start]);
        }
        lemma_find_none(rest, sep);
        assert(rest =~= piece@);
        assert(texts(pieces@.push(piece)) =~= texts(pieces@) + seq![piece@]);
    }
    pieces.push(piece);
    pieces
}

/// Whether `c` is one of the decimal digits `0` to `9`.
pub open spec fn is_digit(c: char) -> bool {
    0x30 <= c as u32 <= 0x39
}

/// The number that the digit `c` stands for.
pub open spec fn digit_value(c: char) -> nat {
    if is_digit(c) {
        (c as u32 - 0x30) as nat
    } else {
        0
    }
}

/// The digit that stands for `d`, a number below ten.
pub open spec fn digit_char(d: nat) -> char {
    (0x30 + d) as char
}

/// Whether `s` is a decimal numeral: one digit or more, and nothing else.
pub open spec fn is_decimal(s: Seq<char>) -> bool {
    s.len() > 0 && forall|i: int| 0 <= i < s.len() ==> is_digit(#[trigger] s[i])
}

/// The number that the digits of `s` denote, read from the left.
pub open spec fn decimal_value(s: Seq<char>) -> nat
    decreases s.len(),
{
    if s.len() == 0 {
        0
    } else {
        decimal_value(s.drop_last()) * 10 + digit_value(s.last())
    }
}

/// The decimal numeral of `n`, without leading zeros.
pub open spec fn decimal(n: nat) -> Seq<char>
    decreases n,
{
    if n < 10 {
        seq![digit_char(n)]
    } else {
        decimal(n / 10).push(digit_char(n % 10))
    }
}

/// The byte that `s` denotes: an optional `+`, then a decimal numeral of a
/// value up to 255. Leading zeros are read; anything else denotes no byte.
pub open spec fn parse_u8(s: Seq<char>) -> Option<u8> {
    let digits = if s.len() > 0 && s[0] == '+' {
        s.drop_first()
    } else {
        s
    };
    if is_decimal(digits) && decimal_value(digits) <= 255 {
        Some(decimal_value(digits) as u8)
    } else {
        None
    }
}

/// A numeral denotes at least what any of its prefixes denotes.
pub proof fn lemma_decimal_value_prefix(s: Seq<char>, k: int)
    requires
        0 <= k <= s.len(),
    ensures
        decimal_value(s.take(k)) <= decimal_value(s),
    decreases s.len() - k,
{
    if k == s.len() {
        assert(s.take(k) =~= s);
    } else {
        lemma_decimal_value_prefix(s.drop_last(), k);
        assert(s.drop_last().take(k) =~= s.take(k));
    }
}

/// The numeral of `n` is a decimal numeral that denotes `n`.
pub proof fn lemma_decimal(n: nat)
    ensures
        is_decimal(decimal(n)),
        decimal_value(decimal(n)) == n,
    decreases n,
{
    if n < 10 {
        let s = seq![digit_char(n)];
        assert(s.drop_last() =~= Seq::<char>::empty());
        assert(decimal_value(s.drop_last()) == 0);
        assert(s.last() == digit_char(n));
    } else {
        lemma_decimal(n / 10);
        let p = decimal(n / 10);
        let s = p.push(digit_char(n % 10));
        assert(s.drop_last() =~= p);
        assert(s.last() == digit_char(n % 10));
    }
}

/// Reading the numeral of a byte gives the byte back.
pub proof fn lemma_parse_decimal(n: u8)
    ensures
        parse_u8(decimal(n as nat)) == Some(n),
{
    lemma_decimal(n as nat);
    let s = decimal(n as nat);
    assert(is_digit(s[0]));
}

/// The characters of `s`.
pub fn chars_of(s: &str) -> (r: Vec<char>)
    ensures
        r@ == s@,
{
    let n: usize = s.unicode_len();
    let mut r: Vec<char> = Vec::new();
    let mut i: usize = 0;
    while i < n
        invariant
            i <= n == s@.len(),
            r@ == s@.take(i as int),
        decreases n - i,
    {
        r.push(s.get_char(i));
        i += 1;
        assert(r@ =~= s@.take(i as int));
    }
    assert(s@.take(n as int) =~= s@);
    r
}

/// `String::push`: appends one character to the end of the string.
#[verifier::external_body]
fn push_char(s: &mut String, c: char)
    ensures
        final(s)@ == old(s)@.push(c),
{
    s.push(c)
}

/// The string that holds the characters of `v`.
pub fn string_of(v: &Vec<char>) -> (r: String)
    ensures
        r@ == v@,
{
    let mut r: String = String::new();
    let mut i: usize = 0;
    while i < v.len()
        invariant
            i <= v.len(),
            r@ == v@.take(i as int),
        decreases v.len() - i,
    {
        push_char(&mut r, v[i]);
        i += 1;
        assert(r@ =~= v@.take(i as int));
    }
    assert(v@.take(v.len() as int) =~= v@);
    r
}

/// Reads a byte from its numeral.
pub fn parse_u8_chars(v: &Vec<char>) -> (r: Option<u8>)
    ensures
        r == parse_u8(v@),
{
    let n: usize = v.len();
    let start: usize = if n > 0 && v[0] == '+' {
        1
    } else {
        0
    };
    let ghost digits = if v@.len() > 0 && v@[0] == '+' {
        v@.drop_first()
    } else {
        v@
    };
    if start == n {
        return None;
    }
    let mut acc: u32 = 0;
    let mut i: usize = start;
    proof {
        assert(digits.take(0) =~= Seq::<char>::empty());
    }
    while i < n
        invariant
            start <= i <= n == v.len(),
            digits == (if v@.len() > 0 && v@[0] == '+' {
                v@.drop_first()
            } else {
                v@
            }),
            digits.len() == n - start,
            forall|j: int| 0 <= j < n - start ==> digits[j] == v@[j + start],
            forall|j: int| 0 <= j < i - start ==> is_digit(#[trigger] digits[j]),
            acc == decimal_value(digits.take(i - start)),
            acc <= 255,
        decreases n - i,
    {
        let c: char = v[i];
        let code: u32 = c as u32;
        assert(digits[i - start] == c);
        if code < 0x30 || code > 0x39 {
            return None;
        }
        proof {
            let next = digits.take(i - start + 1);
            assert(next.drop_last() =~= digits.take(i - start));
            assert(next.last() == c);
        }
        acc = acc * 10 + (code - 0x30);
        i += 1;
        if acc > 255 {
            proof {
                lemma_decimal_value_prefix(digits, i - start);
            }
            return None;
        }
    }
    proof {
        assert(digits.take(n - start) =~= digits);
    }
    Some(acc as u8)
}

/// Writes a number as its numeral.
pub fn decimal_of(n: u64) -> (r: Vec<char>)
    ensures
        r@ == decimal(n as nat),
    decreases n,
{
    if n < 10 {
        let mut r: Vec<char> = Vec::new();
        r.push(digit_of(n as u8));
        assert(r@ =~= seq![digit_char(n as nat)]);
        r
    } else {
        let mut r = decimal_of(n / 10);
        r.push(digit_of((n % 10) as u8));
        r
    }
}

fn digit_of(d: u8) -> (c: char)
    requires
        d < 10,
    ensures
        c == digit_char(d as nat),
{
    (0x30 + d) as char
}

/// Whether `a` and `b` hold the same characters.
pub fn same_chars(a: &Vec<char>, b: &Vec<char>) -> (r: bool)
    ensures
        r == (a@ == b@),
{
    if a.len() != b.len() {
        return false;
    }
    let mut i: usize = 0;
    while i < a.len()
        invariant
            i <= a.len() == b.len(),
            forall|j: int| 0 <= j < i ==> a@[j] == b@[j],
        decreases a.len() - i,
    {
        if a[i] != b[i] {
            return false;
        }
        i += 1;
    }
    assert(a@ =~= b@);
    true
}

} // verus!
