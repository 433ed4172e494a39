//! Stamps of files and of task outputs, and the stampers that make them.
//!
//! Reading the filesystem is left to the caller: a file stamper makes its stamp from what the caller observed of a
//! path (whether it exists, when it was modified, what it contains).
use vstd::prelude::*;

use crate::text::{push_char, push_str};
use crate::value::{Val, ValueObj};

verus! {

/// A point in time, as seconds and nanoseconds since the Unix epoch.
#[derive(Clone, Copy, PartialEq, Eq, Structural, Hash, Debug)]
pub struct Timestamp {
    pub secs: i64,
    pub nanos: u32,
}

impl Timestamp {
    /// The timestamp of a time `secs` seconds and `nanos` nanoseconds (below a second) after the Unix epoch, or
    /// before it when `before_epoch`. Seconds are counted down and nanoseconds forward from them, so a time before
    /// the epoch that is not a whole second has the seconds rounded down. Returns `None` when the seconds do not fit.
    pub fn from_epoch_offset(before_epoch: bool, secs: u64, nanos: u32) -> (r: Option<Timestamp>)
        requires
            nanos < 1_000_000_000,
        ensures
            r matches Some(t) ==> 0 <= t.nanos < 1_000_000_000 && (if before_epoch {
                t.secs * 1_000_000_000 + t.nanos == -(secs * 1_000_000_000 + nanos)
            } else {
                t.secs * 1_000_000_000 + t.nanos == secs * 1_000_000_000 + nanos
            }),
            r is None <==> secs > i64::MAX,
    {
        if secs > i64::MAX as u64 {
            return None;
        }
        let s = secs as i64;
        if !before_epoch {
            Some(Timestamp { secs: s, nanos })
        } else if nanos == 0 {
            Some(Timestamp { secs: -s, nanos: 0 })
        } else {
            Some(Timestamp { secs: -s - 1, nanos: 1_000_000_000 - nanos })
        }
    }
}

/// The contents of a path, as far as hashing needs them.
pub enum FileContent {
    /// Nothing exists at the path.
    Missing,
    /// A file with these bytes.
    File(Vec<u8>),
    /// A directory with entries of these names.
    Directory(Vec<Vec<u8>>),
}

/// Ways to stamp a file or directory.
#[derive(Clone, Copy, PartialEq, Eq, Structural, Hash, Debug)]
pub enum FileStamper {
    Exists,
    Modified,
    ModifiedRecursive,
    Hash,
    HashRecursive,
}

/// An entry met walking a directory tree: when it was last modified, and its bytes when it is a file.
pub struct WalkedEntry {
    pub modified: Timestamp,
    pub file: Option<Vec<u8>>,
}

/// A stamp of a file or directory.
#[derive(Clone, Copy, Hash, Debug)]
pub enum FileStamp {
    Exists(bool),
    Modified(Option<Timestamp>),
    Hash(Option<[u8; 32]>),
}

/// The SHA-256 digest of `data`.
pub uninterp spec fn sha256_of(data: Seq<u8>) -> Seq<u8>;

/// Computes the SHA-256 digest of `data` (`sha2::Sha256::digest`).
#[verifier::external_body]
fn sha256(data: &[u8]) -> (r: [u8; 32])
    ensures
        r@ == sha256_of(data@),
{
    let digest = <sha2::Sha256 as sha2::Digest>::digest(data);
    digest.into()
}

/// The bytes that hashing `content` digests: the bytes of a file, or the names of the entries of a directory one
/// after the other.
pub open spec fn hashed_bytes(content: FileContent) -> Seq<u8> {
    match content {
        FileContent::Missing => Seq::empty(),
        FileContent::File(bytes) => bytes@,
        FileContent::Directory(names) => names@.map_values(|n: Vec<u8>| n@).flatten(),
    }
}

/// Concatenates `names`.
fn concat_names(names: &Vec<Vec<u8>>) -> (r: Vec<u8>)
    ensures
        r@ == names@.map_values(|n: Vec<u8>| n@).flatten(),
{
    let mut r: Vec<u8> = Vec::new();
    let mut i: usize = 0;
    while i < names.len()
        invariant
            i <= names@.len(),
            r@ == names@.take(i as int).map_values(|n: Vec<u8>| n@).flatten(),
        decreases names@.len() - i,
    {
        let name = &names[i];
        let mut j: usize = 0;
        let ghost before = r@;
        while j < name.len()
            invariant
                j <= name@.len(),
                r@ == before + name@.take(j as int),
            decreases name@.len() - j,
        {
            r.push(name[j]);
            j = j + 1;
            assert(r@ == before + name@.take(j as int));
        }
        proof {
            assert(name@.take(j as int) == name@);
            let s = names@.take(i as int + 1).map_values(|n: Vec<u8>| n@);
            assert(s == names@.take(i as int).map_values(|n: Vec<u8>| n@).push(name@));
            s.drop_last().lemma_flatten_push(name@);
            assert(s.drop_last() == names@.take(i as int).map_values(|n: Vec<u8>| n@));
        }
        i = i + 1;
    }
    assert(names@.take(i as int) == names@);
    r
}

impl FileContent {
    /// Computes the SHA-256 digest of this content: of the bytes of a file, or of the names of the entries of a
    /// directory one after the other. Returns `None` when nothing exists at the path.
    pub fn hash(&self) -> (r: Option<[u8; 32]>)
        ensures
            r is None <==> *self is Missing,
            r matches Some(h) ==> h@ == sha256_of(hashed_bytes(*self)),
    {
        match self {
            FileContent::Missing => None,
            FileContent::File(bytes) => Some(sha256(bytes.as_slice())),
            FileContent::Directory(names) => {
                let bytes = concat_names(names);
                Some(sha256(bytes.as_slice()))
            },
        }
    }
}

/// `s` is the stamp that `stamper` makes of a path that `exists`, was last `modified`, and has `content`: whether it
/// exists, when it was last modified (`None` when it does not exist), or the digest of its content (`None` when it
/// does not exist).
pub open spec fn is_file_stamp(
    stamper: FileStamper,
    exists: bool,
    modified: Option<Timestamp>,
    content: FileContent,
    s: FileStamp,
) -> bool {
    match stamper {
        FileStamper::Exists => s == FileStamp::Exists(exists),
        FileStamper::Modified => s == FileStamp::Modified(if exists { modified } else { None }),
        FileStamper::Hash => s matches FileStamp::Hash(h) && (h is None <==> content is Missing) && (h matches Some(d)
            ==> d@ == sha256_of(hashed_bytes(content))),
        FileStamper::ModifiedRecursive => false,
        FileStamper::HashRecursive => false,
    }
}

/// The `Hash` stamp of a path is no digest exactly when nothing exists there; a file is stamped with the digest of its
/// bytes, and a directory with the digest of the names of its entries, one after the other.
pub proof fn lemma_hash_stamp(exists: bool, modified: Option<Timestamp>, content: FileContent, s: FileStamp)
    requires
        is_file_stamp(FileStamper::Hash, exists, modified, content, s),
    ensures
        content is Missing ==> s == FileStamp::Hash(None),
        content matches FileContent::File(bytes) ==> (s matches FileStamp::Hash(Some(d)) && d@ == sha256_of(bytes@)),
        content matches FileContent::Directory(names) ==> (s matches FileStamp::Hash(Some(d)) && d@ == sha256_of(
            names@.map_values(|n: Vec<u8>| n@).flatten(),
        )),
{
}

/// `a` is later than `b`.
pub open spec fn later(a: Timestamp, b: Timestamp) -> bool {
    a.secs > b.secs || (a.secs == b.secs && a.nanos > b.nanos)
}

/// The latest modification time of `entries`, or the Unix epoch when none is later.
pub open spec fn latest_of(entries: Seq<WalkedEntry>) -> Timestamp
    decreases entries.len(),
{
    if entries.len() == 0 {
        Timestamp { secs: 0, nanos: 0 }
    } else {
        let rest = latest_of(entries.drop_last());
        if later(entries.last().modified, rest) {
            entries.last().modified
        } else {
            rest
        }
    }
}

/// The latest modification time of walked entries is their maximum: no entry, the first included, is later than it,
/// and it is the time of one of the entries unless no entry is later than the Unix epoch.
pub proof fn lemma_latest_is_maximum(entries: Seq<WalkedEntry>)
    ensures
        forall|k: int| 0 <= k < entries.len() ==> !later(#[trigger] entries[k].modified, latest_of(entries)),
        latest_of(entries) == (Timestamp { secs: 0, nanos: 0 }) || exists|k: int|
            0 <= k < entries.len() && #[trigger] entries[k].modified == latest_of(entries),
    decreases entries.len(),
{
    if entries.len() > 0 {
        let rest = entries.drop_last();
        lemma_latest_is_maximum(rest);
        assert forall|k: int| 0 <= k < entries.len() implies !later(#[trigger] entries[k].modified, latest_of(entries)) by {
            if k < entries.len() - 1 {
                assert(entries[k] == rest[k]);
            }
        }
        if latest_of(entries) != (Timestamp { secs: 0, nanos: 0 }) {
            if later(entries.last().modified, latest_of(rest)) {
                assert(entries[entries.len() - 1].modified == latest_of(entries));
            } else {
                let k = choose|k: int| 0 <= k < rest.len() && #[trigger] rest[k].modified == latest_of(rest);
                assert(entries[k] == rest[k]);
            }
        }
    }
}

/// The bytes of the files among `entries`, one after the other.
pub open spec fn walked_bytes(entries: Seq<WalkedEntry>) -> Seq<u8>
    decreases entries.len(),
{
    if entries.len() == 0 {
        Seq::empty()
    } else {
        walked_bytes(entries.drop_last()) + match entries.last().file {
            Some(bytes) => bytes@,
            None => Seq::empty(),
        }
    }
}

/// Appends `bytes` to `r`.
fn append_bytes(r: &mut Vec<u8>, bytes: &Vec<u8>)
    ensures
        final(r)@ == old(r)@ + bytes@,
{
    let mut j: usize = 0;
    while j < bytes.len()
        invariant
            j <= bytes@.len(),
            r@ == old(r)@ + bytes@.take(j as int),
        decreases bytes@.len() - j,
    {
        r.push(bytes[j]);
        j = j + 1;
        assert(r@ == old(r)@ + bytes@.take(j as int));
    }
    assert(bytes@.take(j as int) == bytes@);
}

impl FileStamper {
    /// Stamps a path that `exists`, was last `modified`, and has `content`: whether it exists, when it was last
    /// modified (`None` when it does not exist), or the digest of its content (`None` when it does not exist).
    pub fn stamp(&self, exists: bool, modified: Option<Timestamp>, content: &FileContent) -> (r: FileStamp)
        requires
            !(*self is ModifiedRecursive || *self is HashRecursive),
        ensures
            is_file_stamp(*self, exists, modified, *content, r),
    {
        match self {
            FileStamper::Exists => FileStamp::Exists(exists),
            FileStamper::Modified => FileStamp::Modified(
                if exists {
                    modified
                } else {
                    None
                },
            ),
            FileStamper::Hash => FileStamp::Hash(content.hash()),
            _ => vstd::pervasive::unreached(),
        }
    }

    /// Stamps a directory tree from the `entries` met walking it: the latest modification time of its entries (the
    /// Unix epoch when none is later), or the digest of the bytes of its files one after the other.
    pub fn stamp_walked(&self, entries: &Vec<WalkedEntry>) -> (r: FileStamp)
        requires
            *self is ModifiedRecursive || *self is HashRecursive,
        ensures
            *self is ModifiedRecursive ==> r == FileStamp::Modified(Some(latest_of(entries@))),
            *self is ModifiedRecursive ==> forall|k: int|
                0 <= k < entries@.len() ==> !later(#[trigger] entries@[k].modified, latest_of(entries@)),
            *self is HashRecursive ==> (r matches FileStamp::Hash(Some(d)) && d@ == sha256_of(walked_bytes(entries@))),
    {
        match self {
            FileStamper::ModifiedRecursive => {
                let mut latest = Timestamp { secs: 0, nanos: 0 };
                let mut i: usize = 0;
                while i < entries.len()
                    invariant
                        i <= entries@.len(),
                        latest == latest_of(entries@.take(i as int)),
                    decreases entries@.len() - i,
                {
                    let m = entries[i].modified;
                    proof {
                        let t = entries@.take(i as int + 1);
                        assert(t.drop_last() == entries@.take(i as int));
                        assert(t.last() == entries@[i as int]);
                    }
                    if m.secs > latest.secs || (m.secs == latest.secs && m.nanos > latest.nanos) {
                        latest = m;
                    }
                    i = i + 1;
                }
                proof {
                    assert(entries@.take(i as int) == entries@);
                    lemma_latest_is_maximum(entries@);
                }
                FileStamp::Modified(Some(latest))
            },
            FileStamper::HashRecursive => {
                let mut bytes: Vec<u8> = Vec::new();
                let mut i: usize = 0;
                while i < entries.len()
                    invariant
                        i <= entries@.len(),
                        bytes@ == walked_bytes(entries@.take(i as int)),
                    decreases entries@.len() - i,
                {
                    proof {
                        let t = entries@.take(i as int + 1);
                        assert(t.drop_last() == entries@.take(i as int));
                        assert(t.last() == entries@[i as int]);
                    }
                    match &entries[i].file {
                        Some(file) => append_bytes(&mut bytes, file),
                        None => {
                            assert(bytes@ + Seq::<u8>::empty() == bytes@);
                        },
                    }
                    i = i + 1;
                }
                proof {
                    assert(entries@.take(i as int) == entries@);
                }
                FileStamp::Hash(Some(sha256(bytes.as_slice())))
            },
            _ => vstd::pervasive::unreached(),
        }
    }
}

/// The view of a digest as bytes.
fn digest_bytes(digest: &[u8; 32]) -> (r: Vec<u8>)
    ensures
        r@ == digest@,
{
    let mut r: Vec<u8> = Vec::new();
    let mut i: usize = 0;
    while i < 32
        invariant
            i <= 32,
            digest@.len() == 32,
            r@ == digest@.take(i as int),
        decreases 32 - i,
    {
        r.push(digest[i]);
        i = i + 1;
        assert(r@ == digest@.take(i as int));
    }
    assert(digest@.take(32) == digest@);
    r
}

/// The dynamic value of file stamp `s`.
pub open spec fn file_stamp_value(s: FileStamp) -> Val {
    match s {
        FileStamp::Exists(b) => Val::Bool(b),
        FileStamp::Modified(m) => match m {
            Some(t) => Val::Opt(Some(Box::new(Val::Pair(Box::new(Val::Int(t.secs)), Box::new(Val::Int(t.nanos as i64)))))),
            None => Val::Opt(None),
        },
        FileStamp::Hash(h) => match h {
            Some(d) => Val::Opt(Some(Box::new(Val::Bytes(d@)))),
            None => Val::Opt(None),
        },
    }
}

impl FileStamp {
    /// The dynamic value of this stamp, as resource dependencies store it.
    pub fn to_value(&self) -> (r: ValueObj)
        ensures
            r@ == file_stamp_value(*self),
    {
        match self {
            FileStamp::Exists(b) => ValueObj::Bool(*b),
            FileStamp::Modified(m) => match m {
                Some(t) => {
                    let nanos: i64 = t.nanos as i64;
                    let time = ValueObj::Pair(Box::new(ValueObj::Int(t.secs)), Box::new(ValueObj::Int(nanos)));
                    assert(time@ == Val::Pair(Box::new(Val::Int(t.secs)), Box::new(Val::Int(t.nanos as i64)))) by {
                        reveal_with_fuel(crate::value::val_of, 3);
                    }
                    ValueObj::some(time)
                },
                None => ValueObj::Opt(None),
            },
            FileStamp::Hash(h) => match h {
                Some(d) => {
                    let bytes = ValueObj::Bytes(digest_bytes(d));
                    assert(bytes@ == Val::Bytes(d@));
                    ValueObj::some(bytes)
                },
                None => ValueObj::Opt(None),
            },
        }
    }

    /// Returns `true` if this stamp and `other` are equal.
    pub fn equals(&self, other: &FileStamp) -> (r: bool)
        ensures
            r == (*self == *other),
    {
        match *self {
            FileStamp::Exists(a) => match *other {
                FileStamp::Exists(b) => a == b,
                _ => false,
            },
            FileStamp::Modified(a) => match *other {
                FileStamp::Modified(b) => match a {
                    Some(x) => match b {
                        Some(y) => x.secs == y.secs && x.nanos == y.nanos,
                        None => false,
                    },
                    None => b.is_none(),
                },
                _ => false,
            },
            FileStamp::Hash(a) => match *other {
                FileStamp::Hash(b) => match a {
                    Some(x) => match b {
                        Some(y) => digest_eq(&x, &y),
                        None => false,
                    },
                    None => b.is_none(),
                },
                _ => false,
            },
        }
    }
}

/// Returns `true` if digests `x` and `y` are equal.
fn digest_eq(x: &[u8; 32], y: &[u8; 32]) -> (r: bool)
    ensures
        r == (*x == *y),
{
    let mut i: usize = 0;
    while i < 32
        invariant
            i <= 32,
            forall|j: int| 0 <= j < i ==> x[j] == y[j],
        decreases 32 - i,
    {
        if x[i] != y[i] {
            assert(x[i as int] != y[i as int]);
            return false;
        }
        i = i + 1;
    }
    assert(*x =~= *y);
    true
}

/// The lowercase hexadecimal digit of `d`, below 16.
pub open spec fn hex_digit(d: int) -> char {
    if d < 10 {
        (48 + d) as char
    } else {
        (87 + d) as char
    }
}

/// The lowercase hexadecimal digits of `n`, without leading zeros.
pub open spec fn hex_text(n: nat) -> Seq<char>
    decreases n,
{
    if n < 16 {
        seq![hex_digit(n as int)]
    } else {
        hex_text(n / 16).push(hex_digit((n % 16) as int))
    }
}

/// The lowercase hexadecimal digits of `n`, at least two.
pub open spec fn hex_text2(n: nat) -> Seq<char> {
    if n < 16 {
        seq!['0', hex_digit(n as int)]
    } else {
        hex_text(n)
    }
}

/// The text of digest bytes `h`: for each pair of bytes, the hexadecimal digits of their sum.
pub open spec fn digest_text(h: Seq<u8>) -> Seq<char>
    decreases h.len(),
{
    if h.len() < 2 {
        Seq::empty()
    } else {
        digest_text(h.take(h.len() - 2)) + hex_text2((h[h.len() - 2] + h[h.len() - 1]) as nat)
    }
}

/// The decimal digit of `d`, below 10.
pub open spec fn decimal_digit(d: int) -> char {
    (48 + d) as char
}

/// The decimal digits of `n`, without leading zeros.
pub open spec fn decimal_text(n: nat) -> Seq<char>
    decreases n,
{
    if n < 10 {
        seq![decimal_digit(n as int)]
    } else {
        decimal_text(n / 10).push(decimal_digit((n % 10) as int))
    }
}

/// The decimal text of `n`, with a minus sign when it is negative.
pub open spec fn signed_decimal_text(n: int) -> Seq<char> {
    if n < 0 {
        seq!['-'] + decimal_text((-n) as nat)
    } else {
        decimal_text(n as nat)
    }
}

/// The debug text of a modification time: that of the system time it stands for on Unix, with the seconds and
/// nanoseconds since the epoch.
pub open spec fn modified_text_of(m: Option<Timestamp>) -> Seq<char> {
    match m {
        Some(t) => "Some(SystemTime { tv_sec: "@ + signed_decimal_text(t.secs as int) + ", tv_nsec: "@
            + decimal_text(t.nanos as nat) + " })"@,
        None => "None"@,
    }
}

/// Appends the decimal digits of `n` to `s`.
pub(crate) fn push_decimal(s: &mut String, n: u64)
    ensures
        final(s)@ == old(s)@ + decimal_text(n as nat),
    decreases n,
{
    if n < 10 {
        push_char(s, ((48 + n) as u8) as char);
    } else {
        push_decimal(s, n / 10);
        push_char(s, ((48 + n % 10) as u8) as char);
    }
}

/// Appends the debug text of a modification time to `s`.
fn push_modified(s: &mut String, m: &Option<Timestamp>)
    ensures
        final(s)@ == old(s)@ + modified_text_of(*m),
{
    match m {
        Some(t) => {
            push_str(s, "Some(SystemTime { tv_sec: ");
            if t.secs < 0 {
                push_char(s, '-');
                let magnitude: u64 = if t.secs == i64::MIN {
                    9223372036854775808u64
                } else {
                    (-t.secs) as u64
                };
                push_decimal(s, magnitude);
            } else {
                push_decimal(s, t.secs as u64);
            }
            push_str(s, ", tv_nsec: ");
            push_decimal(s, t.nanos as u64);
            push_str(s, " })");
        },
        None => {
            push_str(s, "None");
        },
    }
}

/// The hexadecimal digit of `d`.
fn hex_digit_char(d: u16) -> (r: char)
    requires
        d < 16,
    ensures
        r == hex_digit(d as int),
{
    let b = d as u8;
    if b < 10 {
        (48u8 + b) as char
    } else {
        (87u8 + b) as char
    }
}

/// Appends the hexadecimal digits of `n`, at least two, to `s`.
fn push_hex2(s: &mut String, n: u16)
    requires
        n < 4096,
    ensures
        final(s)@ == old(s)@ + hex_text2(n as nat),
{
    if n < 16 {
        push_char(s, '0');
        push_char(s, hex_digit_char(n));
    } else if n < 256 {
        push_char(s, hex_digit_char(n / 16));
        push_char(s, hex_digit_char(n % 16));
        proof {
            assert(hex_text((n / 16) as nat) == seq![hex_digit((n / 16) as int)]);
            assert(hex_text(n as nat) == seq![hex_digit((n / 16) as int), hex_digit((n % 16) as int)]);
        }
    } else {
        push_char(s, hex_digit_char(n / 256));
        push_char(s, hex_digit_char((n / 16) % 16));
        push_char(s, hex_digit_char(n % 16));
        proof {
            assert(hex_text((n / 256) as nat) == seq![hex_digit((n / 256) as int)]);
            assert((n / 16) / 16 == n / 256);
            assert(hex_text((n / 16) as nat) == seq![hex_digit((n / 256) as int), hex_digit(((n / 16) % 16) as int)]);
            assert(hex_text(n as nat) == seq![
                hex_digit((n / 256) as int),
                hex_digit(((n / 16) % 16) as int),
                hex_digit((n % 16) as int),
            ]);
        }
    }
}

/// The debug text of file stamp `s`.
pub open spec fn file_stamp_text(s: FileStamp) -> Seq<char> {
    match s {
        FileStamp::Exists(b) => "Exists("@ + (if b { "true"@ } else { "false"@ }) + ")"@,
        FileStamp::Modified(m) => "Modified("@ + modified_text_of(m) + ")"@,
        FileStamp::Hash(h) => match h {
            Some(d) => "Hash("@ + "Some("@ + digest_text(d@) + ")"@ + ")"@,
            None => "Hash("@ + "None"@ + ")"@,
        },
    }
}

impl FileStamp {
    /// The debug text of this stamp. A digest is written as, for each pair of bytes, the hexadecimal digits of their
    /// sum. This is not the hexadecimal form of the digest: the two bytes of a pair are added, not written one after
    /// the other, so different digests can have the same text.
    pub fn describe(&self) -> (r: String)
        ensures
            r@ == file_stamp_text(*self),
    {
        let mut s = String::new();
        match self {
            FileStamp::Exists(b) => {
                push_str(&mut s, "Exists(");
                if *b {
                    push_str(&mut s, "true");
                } else {
                    push_str(&mut s, "false");
                }
            },
            FileStamp::Modified(m) => {
                push_str(&mut s, "Modified(");
                push_modified(&mut s, m);
            },
            FileStamp::Hash(h) => {
                push_str(&mut s, "Hash(");
                match h {
                    Some(d) => {
                        push_str(&mut s, "Some(");
                        let mut i: usize = 0;
                        while i < 16
                            invariant
                                i <= 16,
                                d@.len() == 32,
                                s@ == "Hash("@ + "Some("@ + digest_text(d@.take(2 * i as int)),
                            decreases 16 - i,
                        {
                            let n: u16 = d[2 * i] as u16 + d[2 * i + 1] as u16;
                            push_hex2(&mut s, n);
                            proof {
                                let t = d@.take(2 * i as int + 2);
                                assert(t.take(t.len() - 2) == d@.take(2 * i as int));
                                assert(t[t.len() - 2] == d@[2 * i as int]);
                                assert(t[t.len() - 1] == d@[2 * i as int + 1]);
                            }
                            i = i + 1;
                        }
                        proof {
                            assert(d@.take(32) == d@);
                        }
                        push_str(&mut s, ")");
                    },
                    None => {
                        push_str(&mut s, "None");
                    },
                }
            },
        }
        push_str(&mut s, ")");
        s
    }
}

/// Ways to stamp a task output.
#[derive(Clone, Copy, PartialEq, Eq, Structural, Hash, Debug)]
pub enum OutputStamper {
    Inconsequential,
    Equals,
}

/// A stamp of a task output.
#[derive(Clone, Copy, PartialEq, Eq, Hash, Debug)]
pub enum OutputStamp<O> {
    Inconsequential,
    Equals(O),
}

impl OutputStamper {
    /// Stamps `output`: nothing for the inconsequential stamper, the output itself for the equals stamper.
    pub fn stamp<O>(&self, output: O) -> (r: OutputStamp<O>)
        ensures
            *self is Inconsequential ==> r is Inconsequential,
            *self is Equals ==> r == OutputStamp::Equals(output),
    {
        match self {
            OutputStamper::Inconsequential => OutputStamp::Inconsequential,
            OutputStamper::Equals => OutputStamp::Equals(output),
        }
    }
}

impl<O> OutputStamp<O> {
    /// Borrows the output in this stamp.
    pub fn as_ref(&self) -> (r: OutputStamp<&O>)
        ensures
            *self is Inconsequential ==> r is Inconsequential,
            self matches OutputStamp::Equals(o) ==> r == OutputStamp::Equals(o),
    {
        match self {
            OutputStamp::Inconsequential => OutputStamp::Inconsequential,
            OutputStamp::Equals(o) => OutputStamp::Equals(o),
        }
    }
}

} // verus!
