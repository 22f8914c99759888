//! Migration scripts: the version that a file name carries, the checksum of
//! a script's content, its statements, and the ordered set of scripts that a
//! directory listing gives.

use vstd::prelude::*;
use vstd::utf8::encode_utf8;
use crate::text::{
    chars_of, decimal, decimal_of, decimal_value, is_digit, split, split_chars, string_of, texts,
    trim, trim_chars,
};

verus! {

/// The value that the checksum of an empty content has.
pub const FNV_OFFSET: u64 = 0xcbf29ce484222325;

/// The factor of the checksum.
pub const FNV_PRIME: u64 = 0x100000001b3;

/// The 64-bit FNV-1a hash of `bytes`: each byte in turn is xor-ed into the
/// hash, which is then multiplied by the prime, modulo 2^64.
pub open spec fn fnv1a(bytes: Seq<u8>) -> u64
    decreases bytes.len(),
{
    if bytes.len() == 0 {
        FNV_OFFSET
    } else {
        (((fnv1a(bytes.drop_last()) ^ (bytes.last() as u64)) as nat * FNV_PRIME as nat)
            % 0x1_0000_0000_0000_0000) as u64
    }
}

/// The checksum of a script: the FNV-1a hash of its UTF-8 bytes.
pub fn checksum(content: &str) -> (r: u64)
    ensures
        r == fnv1a(encode_utf8(content@)),
{
    let bytes = content.as_bytes();
    let mut hash: u64 = FNV_OFFSET;
    let mut i: usize = 0;
    proof {
        assert(bytes@.take(0) =~= Seq::<u8>::empty());
    }
    while i < bytes.len()
        invariant
            i <= bytes@.len(),
            hash == fnv1a(bytes@.take(i as int)),
        decreases bytes@.len() - i,
    {
        proof {
            let next = bytes@.take(i + 1);
            assert(next.drop_last() =~= bytes@.take(i as int));
            assert(next.last() == bytes@[i as int]);
        }
        hash = (hash ^ (bytes[i] as u64)).wrapping_mul(FNV_PRIME);
        i += 1;
    }
    proof {
        assert(bytes@.take(i as int) =~= bytes@);
    }
    hash
}

/// The length of the run of digits at the start of `s`.
pub open spec fn leading_digits(s: Seq<char>) -> nat
    decreases s.len(),
{
    if s.len() > 0 && is_digit(s[0]) {
        1 + leading_digits(s.drop_first())
    } else {
        0
    }
}

/// The run of digits at the start of `s` has length `k`, where the first `k`
/// characters are digits and the next one is not.
pub proof fn lemma_leading_digits(s: Seq<char>, k: int)
    requires
        0 <= k <= s.len(),
        forall|j: int| 0 <= j < k ==> is_digit(#[trigger] s[j]),
        k < s.len() ==> !is_digit(s[k]),
    ensures
        leading_digits(s) == k,
    decreases k,
{
    if k > 0 {
        let t = s.drop_first();
        assert forall|j: int| 0 <= j < k - 1 implies is_digit(#[trigger] t[j]) by {
            assert(t[j] == s[j + 1]);
        }
        lemma_leading_digits(t, k - 1);
    }
}

/// The version that a script's file name carries. The name is `v` or `V`, a
/// decimal number that fits 32 bits, `-` or `_`, a description that may be
/// empty, and `.cql`: `v001-users.cql` carries 1.
pub open spec fn filename_version(name: Seq<char>) -> Option<u32> {
    if name.len() > 0 && (name[0] == 'v' || name[0] == 'V') {
        let rest = name.drop_first();
        let n = leading_digits(rest) as int;
        let number = decimal_value(rest.take(n));
        if n > 0 && number <= u32::MAX && n < rest.len() && (rest[n] == '-' || rest[n] == '_')
            && ".cql"@.is_suffix_of(rest.skip(n + 1)) {
            Some(number as u32)
        } else {
            None
        }
    } else {
        None
    }
}

/// The version that the file name `name` carries.
pub fn version_of(name: &str) -> (r: Option<u32>)
    ensures
        r == filename_version(name@),
{
    let chars = chars_of(name);
    let len: usize = chars.len();
    if len == 0 || (chars[0] != 'v' && chars[0] != 'V') {
        return None;
    }
    let ghost rest = name@.drop_first();
    let mut number: u64 = 0;
    let mut fits: bool = true;
    let mut i: usize = 1;
    proof {
        assert(rest.take(0) =~= Seq::<char>::empty());
    }
    let mut scanning: bool = true;
    while scanning
        invariant
            1 <= i <= len == chars.len(),
            chars@ == name@,
            rest == name@.drop_first(),
            forall|j: int| 0 <= j < i - 1 ==> is_digit(#[trigger] rest[j]),
            fits ==> number == decimal_value(rest.take(i - 1)),
            !fits ==> decimal_value(rest.take(i - 1)) > u32::MAX,
            number <= u32::MAX,
            !scanning && i < len ==> !is_digit(rest[i - 1]),
        decreases len - i, (if scanning { 1int } else { 0int }),
    {
        let mut digit: Option<u64> = None;
        if i < len {
            let c: char = chars[i];
            assert(rest[i - 1] == c);
            let code: u32 = c as u32;
            if 0x30 <= code && code <= 0x39 {
                digit = Some((code - 0x30) as u64);
            }
        }
        match digit {
            Some(d) => {
                proof {
                    let next = rest.take(i as int);
                    assert(next.drop_last() =~= rest.take(i - 1));
                    assert(next.last() == chars@[i as int]);
                }
                if fits {
                    number = number * 10 + d;
                    if number > 0xFFFF_FFFF {
                        fits = false;
                        number = 0;
                    }
                }
                i += 1;
            },
            None => {
                scanning = false;
            },
        }
    }
    proof {
        lemma_leading_digits(rest, i - 1);
        reveal_strlit(".cql");
    }
    if i == 1 || !fits || i >= len || (chars[i] != '-' && chars[i] != '_') {
        return None;
    }
    let ghost tail = rest.skip(i as int);
    assert(tail.len() == len - i - 1);
    if len - i - 1 < 4 {
        return None;
    }
    if chars[len - 4] == '.' && chars[len - 3] == 'c' && chars[len - 2] == 'q' && chars[len - 1]
        == 'l' {
        proof {
            assert(tail.subrange(tail.len() - 4, tail.len() as int) =~= ".cql"@);
        }
        Some(number as u32)
    } else {
        proof {
            let end = tail.subrange(tail.len() - 4, tail.len() as int);
            assert(end[0] == chars@[len - 4]);
            assert(end[1] == chars@[len - 3]);
            assert(end[2] == chars@[len - 2]);
            assert(end[3] == chars@[len - 1]);
        }
        None
    }
}

/// A migration script.
#[derive(Debug, Clone, PartialEq, Eq)]
pub struct CqlFile {
    /// The name of the file, without its directory.
    pub filename: String,
    /// The version that the name carries: scripts are applied in the order
    /// of their versions.
    pub version: u32,
    /// The checksum of the content.
    pub hash: u64,
    /// The text of the script.
    pub content: String,
}

/// The statements among the pieces of a script: each piece without
/// surrounding whitespace, the empty ones left out.
pub open spec fn kept_statements(pieces: Seq<Seq<char>>) -> Seq<Seq<char>>
    decreases pieces.len(),
{
    if pieces.len() == 0 {
        Seq::empty()
    } else {
        let before = kept_statements(pieces.drop_last());
        let statement = trim(pieces.last());
        if statement.len() == 0 {
            before
        } else {
            before.push(statement)
        }
    }
}

/// The statements of a script: its content is split at every semicolon.
pub open spec fn statements_of(content: Seq<char>) -> Seq<Seq<char>> {
    kept_statements(split(content, ';'))
}

/// The texts that a vector of strings holds.
pub open spec fn strings(v: Seq<String>) -> Seq<Seq<char>> {
    Seq::new(v.len(), |i: int| v[i]@)
}

impl CqlFile {
    /// The script of the file `filename` with the content `content`, where the
    /// name carries a version.
    pub fn new(filename: String, content: String) -> (r: Option<CqlFile>)
        ensures
            r == file_of((filename, content)),
    {
        match version_of(filename.as_str()) {
            Some(version) => {
                let hash = checksum(content.as_str());
                Some(CqlFile { filename, version, hash, content })
            },
            None => None,
        }
    }

    /// A copy of the script.
    pub fn copy(&self) -> (r: CqlFile)
        ensures
            r == *self,
    {
        CqlFile {
            filename: self.filename.clone(),
            version: self.version,
            hash: self.hash,
            content: self.content.clone(),
        }
    }

    /// The statements of the script, in their order. They are executed one by
    /// one.
    pub fn statements(&self) -> (r: Vec<String>)
        ensures
            strings(r@) == statements_of(self.content@),
    {
        let chars = chars_of(self.content.as_str());
        let pieces = split_chars(&chars, ';');
        let ghost all = texts(pieces@);
        let mut kept: Vec<String> = Vec::new();
        let mut i: usize = 0;
        proof {
            assert(all.take(0) =~= Seq::<Seq<char>>::empty());
            assert(strings(kept@) =~= Seq::<Seq<char>>::empty());
        }
        while i < pieces.len()
            invariant
                i <= pieces.len(),
                all == texts(pieces@),
                strings(kept@) == kept_statements(all.take(i as int)),
            decreases pieces.len() - i,
        {
            let ghost before = strings(kept@);
            proof {
                let next = all.take(i + 1);
                assert(next.drop_last() =~= all.take(i as int));
                assert(next.last() == pieces@[i as int]@);
            }
            let statement = trim_chars(&pieces[i]);
            if statement.len() > 0 {
                kept.push(string_of(&statement));
                proof {
                    assert(strings(kept@) =~= before.push(statement@));
                }
            }
            i += 1;
        }
        proof {
            assert(all.take(i as int) =~= all);
        }
        kept
    }
}

/// The script that an entry of a directory, a file name and a content,
/// stands for.
pub open spec fn file_of(entry: (String, String)) -> Option<CqlFile> {
    match filename_version(entry.0@) {
        Some(version) => Some(
            CqlFile {
                filename: entry.0,
                version,
                hash: fnv1a(encode_utf8(entry.1@)),
                content: entry.1,
            },
        ),
        None => None,
    }
}

/// What a `DiscoveryError` stands for.
pub enum DiscoveryErrorView {
    InvalidName { filename: Seq<char> },
    DuplicateVersion { version: u32, filename: Seq<char> },
    Unreadable { path: Seq<char> },
}

impl DiscoveryErrorView {
    /// The text of the error.
    pub open spec fn message(self) -> Seq<char> {
        match self {
            DiscoveryErrorView::InvalidName { filename } => filename
                + " is not a valid cql file name"@,
            DiscoveryErrorView::DuplicateVersion { version, filename } => "version "@ + decimal(
                version as nat,
            ) + " of "@ + filename + " is taken by another cql file"@,
            DiscoveryErrorView::Unreadable { path } => path + " could not be read"@,
        }
    }
}

/// Why a directory listing gives no ordered set of scripts.
#[derive(Debug, Clone, PartialEq, Eq)]
pub enum DiscoveryError {
    /// A file name carries no version.
    InvalidName { filename: String },
    /// A file name carries the version of a file listed before it.
    DuplicateVersion { version: u32, filename: String },
    /// The directory, or a file in it, could not be read.
    Unreadable { path: String },
}

impl View for DiscoveryError {
    type V = DiscoveryErrorView;

    open spec fn view(&self) -> DiscoveryErrorView {
        match *self {
            DiscoveryError::InvalidName { filename } => DiscoveryErrorView::InvalidName {
                filename: filename@,
            },
            DiscoveryError::DuplicateVersion { version, filename } =>
                DiscoveryErrorView::DuplicateVersion { version, filename: filename@ },
            DiscoveryError::Unreadable { path } => DiscoveryErrorView::Unreadable { path: path@ },
        }
    }
}

impl DiscoveryError {
    /// The text of the error.
    pub fn message(&self) -> (r: String)
        ensures
            r@ == self@.message(),
    {
        match self {
            DiscoveryError::InvalidName { filename } => filename.clone().concat(
                " is not a valid cql file name",
            ),
            DiscoveryError::DuplicateVersion { version, filename } => {
                let number = string_of(&decimal_of(*version as u64));
                String::from_str("version ").concat(number.as_str()).concat(" of ").concat(
                    filename.as_str(),
                ).concat(" is taken by another cql file")
            },
            DiscoveryError::Unreadable { path } => path.clone().concat(" could not be read"),
        }
    }
}

/// Whether the name of one of the entries carries `version`.
pub open spec fn version_taken(entries: Seq<(String, String)>, version: u32) -> bool {
    exists|k: int|
        0 <= k < entries.len() && filename_version((#[trigger] entries[k]).0@) == Some(version)
}

/// What is wrong with a directory listing, if anything: the first entry, in
/// the order of the listing, whose name carries no version or the version of
/// an entry before it.
pub open spec fn discovery_fault(entries: Seq<(String, String)>) -> Option<DiscoveryErrorView>
    decreases entries.len(),
{
    if entries.len() == 0 {
        None
    } else {
        let before = entries.drop_last();
        let filename = entries.last().0@;
        match discovery_fault(before) {
            Some(e) => Some(e),
            None => match filename_version(filename) {
                None => Some(DiscoveryErrorView::InvalidName { filename }),
                Some(version) => if version_taken(before, version) {
                    Some(DiscoveryErrorView::DuplicateVersion { version, filename })
                } else {
                    None
                },
            },
        }
    }
}

/// The scripts stand in the strict order of their versions.
pub open spec fn ascending(files: Seq<CqlFile>) -> bool {
    forall|i: int, j: int|
        0 <= i < j < files.len() ==> (#[trigger] files[i]).version < (#[trigger] files[j]).version
}

/// Whether `file` is the script of one of the entries.
pub open spec fn listed(entries: Seq<(String, String)>, file: CqlFile) -> bool {
    exists|k: int| 0 <= k < entries.len() && file_of(#[trigger] entries[k]) == Some(file)
}

/// The scripts are those of the entries: one for each entry, and no other.
pub open spec fn scripts_of(files: Seq<CqlFile>, entries: Seq<(String, String)>) -> bool {
    &&& files.len() == entries.len()
    &&& forall|k: int|
        0 <= k < entries.len() ==> file_of(#[trigger] entries[k]) is Some && files.contains(
            file_of(entries[k])->0,
        )
    &&& forall|j: int| 0 <= j < files.len() ==> listed(entries, #[trigger] files[j])
}

/// A fault in a prefix of the listing is the fault of the whole.
pub proof fn lemma_discovery_fault(entries: Seq<(String, String)>, k: int)
    requires
        0 <= k <= entries.len(),
        discovery_fault(entries.take(k)) is Some,
    ensures
        discovery_fault(entries) == discovery_fault(entries.take(k)),
    decreases entries.len() - k,
{
    if k == entries.len() {
        assert(entries.take(k) =~= entries);
    } else {
        assert(entries.drop_last().take(k) =~= entries.take(k));
        lemma_discovery_fault(entries.drop_last(), k);
    }
}

/// Putting the script of a new entry in its place keeps the scripts in order
/// and makes them the scripts of the longer listing; no earlier entry has its
/// version.
proof fn lemma_insert_script(
    files: Seq<CqlFile>,
    entries: Seq<(String, String)>,
    file: CqlFile,
    at: int,
)
    requires
        entries.len() > 0,
        ascending(files),
        scripts_of(files, entries.drop_last()),
        file_of(entries.last()) == Some(file),
        0 <= at <= files.len(),
        forall|x: int| 0 <= x < at ==> (#[trigger] files[x]).version < file.version,
        at < files.len() ==> file.version < files[at].version,
    ensures
        ascending(files.insert(at, file)),
        scripts_of(files.insert(at, file), entries),
        !version_taken(entries.drop_last(), file.version),
{
    let before = entries.drop_last();
    let after = files.insert(at, file);
    files.insert_ensures(at, file);
    assert forall|x: int| at <= x < files.len() implies file.version < (
    #[trigger] files[x]).version by {
        if x > at {
            assert(files[at].version < files[x].version);
        }
    }
    assert forall|i: int, j: int| 0 <= i < j < after.len() implies (#[trigger] after[i]).version
        < (#[trigger] after[j]).version by {
        if i < at {
            assert(after[i] == files[i]);
        } else if i > at {
            assert(after[i] == files[i - 1]);
        }
        if j < at {
            assert(after[j] == files[j]);
        } else if j > at {
            assert(after[j] == files[j - 1]);
        }
    }
    assert forall|k: int| 0 <= k < entries.len() implies file_of(#[trigger] entries[k]) is Some
        && after.contains(file_of(entries[k])->0) by {
        if k < before.len() {
            assert(entries[k] == before[k]);
            let f = file_of(before[k])->0;
            let x = choose|x: int| 0 <= x < files.len() && files[x] == f;
            if x < at {
                assert(after[x] == f);
            } else {
                assert(after[x + 1] == f);
            }
        } else {
            assert(after[at] == file);
        }
    }
    assert forall|j: int| 0 <= j < after.len() implies listed(entries, #[trigger] after[j]) by {
        if j == at {
            assert(file_of(entries[entries.len() - 1]) == Some(file));
        } else {
            let x = if j < at {
                j
            } else {
                j - 1
            };
            assert(after[j] == files[x]);
            assert(listed(before, files[x]));
            let k = choose|k: int|
                0 <= k < before.len() && file_of(#[trigger] before[k]) == Some(files[x]);
            assert(entries[k] == before[k]);
        }
    }
    if version_taken(before, file.version) {
        let k = choose|k: int|
            0 <= k < before.len() && filename_version((#[trigger] before[k]).0@) == Some(
                file.version,
            );
        let f = file_of(before[k])->0;
        assert(files.contains(f));
        let x = choose|x: int| 0 <= x < files.len() && files[x] == f;
        assert(files[x].version == file.version);
    }
}

/// The ordered set of scripts that a directory listing gives: one script for
/// each entry, a file name and its content, in the order of their versions.
pub fn files_from_entries(entries: &Vec<(String, String)>) -> (r: Result<
    Vec<CqlFile>,
    DiscoveryError,
>)
    ensures
        match r {
            Ok(files) => discovery_fault(entries@) is None && ascending(files@) && scripts_of(
                files@,
                entries@,
            ),
            Err(e) => discovery_fault(entries@) == Some(e@),
        },
{
    let mut files: Vec<CqlFile> = Vec::new();
    let mut i: usize = 0;
    proof {
        assert(entries@.take(0) =~= Seq::<(String, String)>::empty());
    }
    while i < entries.len()
        invariant
            i <= entries.len(),
            discovery_fault(entries@.take(i as int)) is None,
            ascending(files@),
            scripts_of(files@, entries@.take(i as int)),
        decreases entries.len() - i,
    {
        let ghost before = entries@.take(i as int);
        let ghost now = entries@.take(i + 1);
        proof {
            assert(now.drop_last() =~= before);
            assert(now.last() == entries@[i as int]);
        }
        let file = match CqlFile::new(entries[i].0.clone(), entries[i].1.clone()) {
            Some(file) => file,
            None => {
                proof {
                    lemma_discovery_fault(entries@, i + 1);
                }
                return Err(DiscoveryError::InvalidName { filename: entries[i].0.clone() });
            },
        };
        let mut at: usize = 0;
        while at < files.len() && files[at].version < file.version
            invariant
                at <= files.len(),
                forall|x: int| 0 <= x < at ==> (#[trigger] files@[x]).version < file.version,
            decreases files.len() - at,
        {
            at += 1;
        }
        if at < files.len() && files[at].version == file.version {
            proof {
                assert(listed(before, files@[at as int]));
                lemma_discovery_fault(entries@, i + 1);
            }
            return Err(
                DiscoveryError::DuplicateVersion {
                    version: file.version,
                    filename: entries[i].0.clone(),
                },
            );
        }
        proof {
            lemma_insert_script(files@, now, file, at as int);
        }
        files.insert(at, file);
        i += 1;
    }
    proof {
        assert(entries@.take(i as int) =~= entries@);
    }
    Ok(files)
}

} // verus!
