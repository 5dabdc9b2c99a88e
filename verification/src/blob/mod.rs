//! Blobs addressed by the SHA-1 digest of what is stored for them.

use crate::utils::ioutil::{wrote_prefix, Sink};
use sha1::{Digest, Sha1};
use std::rc::Rc;
use vstd::prelude::*;
use vstd::string::*;
use vstd::utf8::*;

pub mod filestore;
pub mod laws;
pub mod memstore;
pub mod zipped;

verus! {

/// A string of bytes, as contracts speak of it.
pub type Bytes = Seq<u8>;

/// What a store holds, as contracts speak of it: under each hash the bytes
/// filed there.
pub type Blobs = Map<Seq<u8>, Seq<u8>>;

/// `std::io::Error`, carried through unopened.
#[verifier::external_type_specification]
#[verifier::external_body]
pub struct ExIoError(std::io::Error);

/// Why stored bytes could not be read back as a value.
#[derive(Clone, Copy, Debug, PartialEq, Eq)]
pub enum FormatError {
    /// The bytes ended before the value did.
    ShortRead,
    /// The bytes of a string are not UTF-8.
    InvalidUtf8,
    /// The tag of a sum type names none of its variants.
    UnknownTag,
}

/// What can go wrong in a store or in the object layer above it.
#[derive(Debug)]
pub enum Error {
    /// The store holds nothing under the hash.
    NotFound,
    /// The medium below failed.
    Io(std::io::Error),
    /// Stored bytes are not the encoding of a value.
    Format(FormatError),
    /// Stored bytes are not a compressed stream, or compressing failed.
    Compression,
}

/// The SHA-1 digest of `data`: 20 bytes.
pub uninterp spec fn sha1_of(data: Seq<u8>) -> Seq<u8>;

/// `sha1::Sha1::digest` (the `Digest` trait's one-shot function) on `data`:
/// the result is the SHA-1 digest of exactly these bytes.
#[verifier::external_body]
pub(crate) fn sha1_digest(data: &[u8]) -> (out: [u8; 20])
    ensures
        out@ == sha1_of(data@),
{
    Sha1::digest(data).into()
}

/// The lowercase hexadecimal digit for `n`, where `n < 16`.
pub open spec fn hex_digit(n: u8) -> char {
    if n == 0 {
        '0'
    } else if n == 1 {
        '1'
    } else if n == 2 {
        '2'
    } else if n == 3 {
        '3'
    } else if n == 4 {
        '4'
    } else if n == 5 {
        '5'
    } else if n == 6 {
        '6'
    } else if n == 7 {
        '7'
    } else if n == 8 {
        '8'
    } else if n == 9 {
        '9'
    } else if n == 10 {
        'a'
    } else if n == 11 {
        'b'
    } else if n == 12 {
        'c'
    } else if n == 13 {
        'd'
    } else if n == 14 {
        'e'
    } else {
        'f'
    }
}

/// The value of the hexadecimal digit `c`, in either case.
pub open spec fn hex_value(c: char) -> Option<u8> {
    if '0' <= c <= '9' {
        Some((c as u8 - '0' as u8) as u8)
    } else if 'a' <= c <= 'f' {
        Some((c as u8 - 'a' as u8 + 10) as u8)
    } else if 'A' <= c <= 'F' {
        Some((c as u8 - 'A' as u8 + 10) as u8)
    } else {
        None
    }
}

/// `bytes` in hexadecimal: two lowercase digits for each byte, the high half
/// first.
pub open spec fn hex_of(bytes: Seq<u8>) -> Seq<char> {
    Seq::new(
        2 * bytes.len(),
        |i: int|
            if i % 2 == 0 {
                hex_digit(bytes[i / 2] / 16)
            } else {
                hex_digit(bytes[i / 2] % 16)
            },
    )
}

/// Whether every character of `s` is a hexadecimal digit.
pub open spec fn is_hex(s: Seq<char>) -> bool {
    forall|i: int| 0 <= i < s.len() ==> (#[trigger] hex_value(s[i])) is Some
}

/// The bytes that `s` writes in hexadecimal, if it is an even number of
/// hexadecimal digits.
pub open spec fn parse_hex(s: Seq<char>) -> Option<Seq<u8>> {
    if s.len() % 2 == 0 && is_hex(s) {
        Some(
            Seq::new(
                s.len() / 2,
                |i: int|
                    (hex_value(s[2 * i]).unwrap() * 16 + hex_value(s[2 * i + 1]).unwrap()) as u8,
            ),
        )
    } else {
        None
    }
}

/// Reading back the hexadecimal form of `bytes` gives `bytes`; the form has
/// two characters for each byte, all of them digits or `a` to `f`.
pub proof fn lemma_hex_round_trip(bytes: Seq<u8>)
    ensures
        hex_of(bytes).len() == 2 * bytes.len(),
        forall|i: int|
            0 <= i < hex_of(bytes).len() ==> {
                let c = #[trigger] hex_of(bytes)[i];
                '0' <= c <= '9' || 'a' <= c <= 'f'
            },
        parse_hex(hex_of(bytes)) == Some(bytes),
{
    let s = hex_of(bytes);
    assert forall|n: u8| n < 16 implies hex_value(#[trigger] hex_digit(n)) == Some(n) by {
        lemma_hex_digit(n);
    }
    assert forall|i: int| 0 <= i < s.len() implies {
        let c = #[trigger] s[i];
        ('0' <= c <= '9' || 'a' <= c <= 'f') && hex_value(c) is Some
    } by {
        let b = bytes[i / 2];
        assert(b / 16 < 16 && b % 16 < 16);
        lemma_hex_digit((b / 16) as u8);
        lemma_hex_digit((b % 16) as u8);
    }
    assert(is_hex(s));
    let back = parse_hex(s).unwrap();
    assert forall|i: int| 0 <= i < bytes.len() implies back[i] == bytes[i] by {
        let b = bytes[i];
        assert(s[2 * i] == hex_digit(b / 16));
        assert(s[2 * i + 1] == hex_digit(b % 16));
        lemma_hex_digit((b / 16) as u8);
        lemma_hex_digit((b % 16) as u8);
        assert((b / 16) * 16 + b % 16 == b);
    }
    assert(back =~= bytes);
}

/// A hexadecimal digit is read back as the number it was written for.
pub proof fn lemma_hex_digit(n: u8)
    requires
        n < 16,
    ensures
        hex_value(hex_digit(n)) == Some(n),
        '0' <= hex_digit(n) <= '9' || 'a' <= hex_digit(n) <= 'f',
{
}

/// Whether `a` comes before `b` in the order of byte strings of one
/// length: at the first place where they differ, `a` has the smaller byte.
pub open spec fn bytes_before(a: Seq<u8>, b: Seq<u8>) -> bool {
    exists|i: int| first_difference(a, b, i) && a[i] < b[i]
}

/// Whether `i` is the first place where `a` and `b` differ.
pub open spec fn first_difference(a: Seq<u8>, b: Seq<u8>, i: int) -> bool {
    &&& 0 <= i < a.len()
    &&& i < b.len()
    &&& a[i] != b[i]
    &&& forall|j: int| 0 <= j < i ==> a[j] == b[j]
}

/// Two byte strings differ first in at most one place.
pub proof fn lemma_first_difference_is_unique(a: Seq<u8>, b: Seq<u8>, i: int, k: int)
    requires
        first_difference(a, b, i),
        first_difference(a, b, k),
    ensures
        i == k,
{
}

/// Of two byte strings of one length exactly one thing holds: the first
/// comes before the second, they are equal, or the second comes before the
/// first.
pub proof fn lemma_bytes_order_is_total(a: Seq<u8>, b: Seq<u8>)
    requires
        a.len() == b.len(),
    ensures
        bytes_before(a, b) || a == b || bytes_before(b, a),
        !(bytes_before(a, b) && a == b),
        !(bytes_before(b, a) && a == b),
        !(bytes_before(a, b) && bytes_before(b, a)),
{
    if a != b {
        assert(!(a =~= b));
        let d = choose|d: int| 0 <= d < a.len() && a[d] != b[d];
        lemma_some_first_difference(a, b, d);
        let i = choose|i: int| first_difference(a, b, i);
        assert(first_difference(b, a, i));
    }
    if bytes_before(a, b) && bytes_before(b, a) {
        let i = choose|i: int| first_difference(a, b, i) && a[i] < b[i];
        let k = choose|k: int| first_difference(b, a, k) && b[k] < a[k];
        assert(first_difference(a, b, k));
        lemma_first_difference_is_unique(a, b, i, k);
    }
}

/// Byte strings that differ somewhere differ somewhere first.
pub proof fn lemma_some_first_difference(a: Seq<u8>, b: Seq<u8>, d: int)
    requires
        0 <= d < a.len(),
        d < b.len(),
        a[d] != b[d],
    ensures
        exists|i: int| first_difference(a, b, i),
    decreases d,
{
    if exists|j: int| 0 <= j < d && a[j] != b[j] {
        let j = choose|j: int| 0 <= j < d && a[j] != b[j];
        lemma_some_first_difference(a, b, j);
    } else {
        assert(first_difference(a, b, d));
    }
}

/// The order of byte strings goes on: what comes before something that
/// comes before a third comes before the third.
pub proof fn lemma_bytes_order_is_transitive(a: Seq<u8>, b: Seq<u8>, c: Seq<u8>)
    requires
        bytes_before(a, b),
        bytes_before(b, c),
    ensures
        bytes_before(a, c),
{
    let i = choose|i: int| first_difference(a, b, i) && a[i] < b[i];
    let k = choose|k: int| first_difference(b, c, k) && b[k] < c[k];
    if i <= k {
        assert(first_difference(a, c, i));
    } else {
        assert(first_difference(a, c, k));
    }
}

/// The name of a blob: 20 bytes, written as 40 lowercase hexadecimal digits.
/// Hashes are equal, and ordered, as their bytes are.
#[derive(Clone, Copy, Debug, PartialEq, Eq, PartialOrd, Ord, Hash)]
pub struct Hash([u8; 20]);

impl View for Hash {
    type V = Seq<u8>;

    closed spec fn view(&self) -> Seq<u8> {
        self.0@
    }
}

/// The text of one lowercase hexadecimal digit.
pub(crate) fn hex_digit_str(n: u8) -> (s: &'static str)
    requires
        n < 16,
    ensures
        s@ == seq![hex_digit(n)],
{
    proof {
        reveal_strlit("0");
        reveal_strlit("1");
        reveal_strlit("2");
        reveal_strlit("3");
        reveal_strlit("4");
        reveal_strlit("5");
        reveal_strlit("6");
        reveal_strlit("7");
        reveal_strlit("8");
        reveal_strlit("9");
        reveal_strlit("a");
        reveal_strlit("b");
        reveal_strlit("c");
        reveal_strlit("d");
        reveal_strlit("e");
        reveal_strlit("f");
    }
    let s = match n {
        0 => "0",
        1 => "1",
        2 => "2",
        3 => "3",
        4 => "4",
        5 => "5",
        6 => "6",
        7 => "7",
        8 => "8",
        9 => "9",
        10 => "a",
        11 => "b",
        12 => "c",
        13 => "d",
        14 => "e",
        _ => "f",
    };
    assert(s@ =~= seq![hex_digit(n)]);
    s
}

/// The value of the hexadecimal digit whose ASCII code is `b`.
fn hex_value_of(b: u8, Ghost(c): Ghost<char>) -> (v: Option<u8>)
    requires
        '\0' <= c <= '\u{7f}',
        b == c as u8,
    ensures
        v == hex_value(c),
        v matches Some(n) ==> n < 16,
{
    if 48 <= b && b <= 57 {
        Some(b - 48)
    } else if 97 <= b && b <= 102 {
        Some(b - 97 + 10)
    } else if 65 <= b && b <= 70 {
        Some(b - 65 + 10)
    } else {
        None
    }
}

impl Hash {
    /// Whether the two hashes are the same 20 bytes.
    pub fn same(&self, other: &Self) -> (r: bool)
        ensures
            r == (self@ == other@),
    {
        let mut i: usize = 0;
        while i < 20
            invariant
                i <= 20,
                forall|j: int| 0 <= j < i ==> self.0@[j] == other.0@[j],
            decreases 20 - i,
        {
            if self.0[i] != other.0[i] {
                assert(self.0@[i as int] != other.0@[i as int]);
                return false;
            }
            i += 1;
        }
        assert(self.0@ =~= other.0@);
        true
    }

    /// Whether `self` comes before `other`: whether it has the smaller byte
    /// at the first place where the two differ.
    pub fn precedes(&self, other: &Self) -> (r: bool)
        ensures
            r == bytes_before(self@, other@),
    {
        let mut i: usize = 0;
        while i < 20
            invariant
                i <= 20,
                forall|j: int| 0 <= j < i ==> self.0@[j] == other.0@[j],
            decreases 20 - i,
        {
            if self.0[i] != other.0[i] {
                proof {
                    assert(first_difference(self@, other@, i as int));
                    if bytes_before(self@, other@) {
                        let k = choose|k: int|
                            first_difference(self@, other@, k) && self@[k] < other@[k];
                        lemma_first_difference_is_unique(self@, other@, i as int, k);
                    }
                }
                return self.0[i] < other.0[i];
            }
            i += 1;
        }
        false
    }

    pub fn new(buf: [u8; 20]) -> (h: Self)
        ensures
            h@ == buf@,
    {
        Self(buf)
    }

    /// The 20 bytes.
    pub fn buf(&self) -> (b: &[u8])
        ensures
            b@ == self@,
            b@.len() == 20,
    {
        self.0.as_slice()
    }

    /// The 40 lowercase hexadecimal digits that write the 20 bytes.
    pub fn to_string(&self) -> (s: String)
        ensures
            s@ == hex_of(self@),
            s@.len() == 40,
    {
        let mut s = String::new();
        let mut i: usize = 0;
        while i < 20
            invariant
                i <= 20,
                s@ == hex_of(self@.take(i as int)),
            decreases 20 - i,
        {
            let b: u8 = self.0[i];
            let ghost before = s@;
            s.append(hex_digit_str(b / 16));
            s.append(hex_digit_str(b % 16));
            assert(s@ =~= hex_of(self@.take(i + 1))) by {
                let prev = self@.take(i as int);
                let next = self@.take(i + 1);
                assert(s@ == before + seq![hex_digit(b / 16)] + seq![hex_digit(b % 16)]);
                assert(next[i as int] == b);
                assert forall|k: int| 0 <= k < 2 * i implies hex_of(next)[k] == hex_of(prev)[k] by {
                    assert(next[k / 2] == prev[k / 2]);
                }
            }
            i += 1;
        }
        assert(self@.take(20) =~= self@);
        s
    }

    /// The hash that the 40 hexadecimal digits of `s` write; `None` for any
    /// other text.
    pub fn from_hex(s: &str) -> (h: Option<Self>)
        ensures
            match h {
                Some(hash) => s@.len() == 40 && parse_hex(s@) == Some(hash@),
                None => s@.len() != 40 || parse_hex(s@) is None,
            },
    {
        if !s.is_ascii() {
            proof {
                if s@.len() == 40 && parse_hex(s@) is Some {
                    assert forall|i: int| 0 <= i < s@.len() implies '\0' <= #[trigger] s@[i]
                        <= '\u{7f}' by {
                        assert(hex_value(s@[i]) is Some);
                    }
                    assert(false);
                }
            }
            return None;
        }
        proof {
            is_ascii_spec_bytes(s);
        }
        let bytes = s.as_bytes();
        if bytes.len() != 40 {
            return None;
        }
        let mut out: [u8; 20] = [0u8; 20];
        let mut i: usize = 0;
        while i < 20
            invariant
                i <= 20,
                bytes@.len() == 40,
                s@.len() == 40,
                forall|k: int| 0 <= k < 40 ==> bytes@[k] == s@[k] as u8,
                forall|k: int| 0 <= k < 40 ==> '\0' <= #[trigger] s@[k] <= '\u{7f}',
                forall|k: int| 0 <= k < 2 * i ==> (#[trigger] hex_value(s@[k])) is Some,
                forall|k: int|
                    0 <= k < i ==> #[trigger] out@[k] == (hex_value(s@[2 * k]).unwrap() * 16
                        + hex_value(s@[2 * k + 1]).unwrap()) as u8,
            decreases 20 - i,
        {
            let hi_byte: u8 = bytes[2 * i];
            let lo_byte: u8 = bytes[2 * i + 1];
            let hi_value = hex_value_of(hi_byte, Ghost(s@[2 * i]));
            let lo_value = hex_value_of(lo_byte, Ghost(s@[2 * i + 1]));
            match (hi_value, lo_value) {
                (Some(hi), Some(lo)) => {
                    out[i] = hi * 16 + lo;
                },
                _ => {
                    assert(!is_hex(s@));
                    return None;
                },
            }
            i += 1;
        }
        assert(is_hex(s@));
        assert(parse_hex(s@).unwrap() =~= out@);
        Some(Hash(out))
    }
}

/// A hash is 20 bytes, and its text is canonical: 40 characters, each a
/// digit or one of `a` to `f`, from which the 20 bytes can be read back.
pub proof fn lemma_hash_text(h: Hash)
    ensures
        h@.len() == 20,
        hex_of(h@).len() == 40,
        forall|i: int|
            0 <= i < 40 ==> {
                let c = #[trigger] hex_of(h@)[i];
                '0' <= c <= '9' || 'a' <= c <= 'f'
            },
        parse_hex(hex_of(h@)) == Some(h@),
{
    lemma_hex_round_trip(h@);
}

/// Two hashes of the same 20 bytes are the same hash.
pub proof fn lemma_hash_same_bytes(a: Hash, b: Hash)
    requires
        a@ == b@,
    ensures
        a == b,
{
    assert(a.0 =~= b.0);
}

/// `before` with `rep` filed under `h`, unless `h` is taken: what is filed
/// stays as it is.
pub open spec fn filed(before: Blobs, h: Seq<u8>, rep: Seq<u8>) -> Blobs {
    if before.contains_key(h) {
        before
    } else {
        before.insert(h, rep)
    }
}

/// What a store holds under `h`, read back, where `raw` is all that it
/// holds and `read` is what the bytes under `h` read back as: `None` where
/// it holds nothing, `Some(None)` where what it holds is no blob's form.
pub open spec fn kept_in(raw: Blobs, h: Seq<u8>, read: Option<Seq<u8>>) -> Option<
    Option<Seq<u8>>,
> {
    if raw.contains_key(h) {
        Some(read)
    } else {
        None
    }
}

/// What a store owes for `put` of the blob `data`, from what it held
/// `before` to what it holds `after`, where `form` is the form in which it
/// keeps `data` (if that can be made), `back` what that form reads back as,
/// and `infallible` whether its medium cannot fail.
///
/// On success the hash is the SHA-1 digest of the form, the form reads back
/// as `data`, and it is filed under the hash unless the hash was taken. On
/// failure nothing has changed; it is `Compression` only where the form
/// cannot be made, and `Io` only where the medium can fail. So a store whose
/// medium cannot fail succeeds whenever the form can be made.
pub open spec fn put_outcome(
    form: Option<Seq<u8>>,
    back: Option<Seq<u8>>,
    infallible: bool,
    before: Blobs,
    data: Seq<u8>,
    res: Result<Hash, Error>,
    after: Blobs,
) -> bool {
    match res {
        Ok(h) => {
            &&& form matches Some(rep)
            &&& h@ == sha1_of(rep)
            &&& back == Some(data)
            &&& after == filed(before, h@, rep)
        },
        Err(e) => {
            &&& after == before
            &&& match e {
                Error::Compression => form is None,
                Error::Io(_) => !infallible,
                _ => false,
            }
        },
    }
}

/// Whether `e` is a failure that a store may give when asked for a hash,
/// where `kept` is what it holds under the hash, read back (`None` where it
/// holds nothing, `Some(None)` where what it holds is no blob's form):
/// `NotFound` exactly where it holds nothing, `Compression` where what it
/// holds does not read back, `Io` only where the medium can fail.
pub open spec fn get_failure(kept: Option<Option<Seq<u8>>>, infallible: bool, e: Error) -> bool {
    match e {
        Error::NotFound => kept is None,
        Error::Compression => kept == Some(None::<Seq<u8>>),
        Error::Io(_) => kept is Some && !infallible,
        Error::Format(_) => false,
    }
}

/// What a store owes when asked for a hash: on success the blob that it
/// holds under the hash; else a failure as in `get_failure`.
pub open spec fn get_outcome(
    kept: Option<Option<Seq<u8>>>,
    infallible: bool,
    res: Result<Seq<u8>, Error>,
) -> bool {
    match res {
        Ok(data) => kept == Some(Some(data)),
        Err(e) => get_failure(kept, infallible, e),
    }
}

/// What a store owes when asked to hand a sink the blob under a hash, from
/// what the sink had taken `before` to what it has taken `after`, where
/// `dependable` says whether the sink is.
///
/// On success the sink has taken the blob. Where the store fails, as in
/// `get_failure`, the sink has taken nothing. Where the sink fails, which a
/// dependable one does not, it has taken some leading part of the blob.
pub open spec fn handed_outcome(
    kept: Option<Option<Seq<u8>>>,
    infallible: bool,
    dependable: bool,
    before: Seq<u8>,
    res: Result<(), Error>,
    after: Seq<u8>,
) -> bool {
    match res {
        Ok(()) => kept matches Some(Some(data)) && after == before + data,
        Err(e) => {
            ||| get_failure(kept, infallible, e) && after == before
            ||| {
                &&& e is Io
                &&& !dependable
                &&& kept matches Some(Some(data))
                &&& wrote_prefix(before, data, after)
            }
        },
    }
}

/// What `get_str` owes: the text that the blob under the hash encodes;
/// `Format(InvalidUtf8)` exactly where there is a blob and it is not UTF-8;
/// else a failure as in `get_failure`.
pub open spec fn text_outcome(
    kept: Option<Option<Seq<u8>>>,
    infallible: bool,
    res: Result<Seq<char>, Error>,
) -> bool {
    match res {
        Ok(text) => kept matches Some(Some(data)) && valid_utf8(data) && text == decode_utf8(data),
        Err(Error::Format(f)) => kept matches Some(Some(data)) && !valid_utf8(data) && f
            is InvalidUtf8,
        Err(e) => get_failure(kept, infallible, e),
    }
}

/// The bytes of a result, where it has some.
pub open spec fn bytes_of(res: Result<Vec<u8>, Error>) -> Result<Seq<u8>, Error> {
    match res {
        Ok(v) => Ok(v@),
        Err(e) => Err(e),
    }
}

/// `Rc::from` on a slice: a shared buffer with a copy of `buf`.
#[verifier::external_body]
pub(crate) fn shared(buf: &[u8]) -> (r: Rc<[u8]>)
    ensures
        r@ == buf@,
{
    Rc::from(buf)
}

/// `String::from_utf8`: the text that `buf` encodes in UTF-8, or nothing if
/// `buf` is not UTF-8.
#[verifier::external_body]
pub(crate) fn utf8_text(buf: Vec<u8>) -> (r: Option<String>)
    ensures
        match r {
            Some(s) => valid_utf8(buf@) && s@ == decode_utf8(buf@),
            None => !valid_utf8(buf@),
        },
{
    String::from_utf8(buf).ok()
}

/// A store of blobs, each addressed by the SHA-1 digest of the form in which
/// the store keeps it.
pub trait BlobStore {
    /// What the store holds: under each hash the bytes filed there, in the
    /// form in which the store keeps them.
    spec fn raw(&self) -> Blobs;

    /// The form in which stores of this type keep the blob `data`, if it
    /// can be made.
    spec fn encoded(data: Bytes) -> Option<Bytes>;

    /// The blob that the form `rep` reads back as, if it is such a form.
    spec fn decoded(rep: Bytes) -> Option<Bytes>;

    /// Whether the medium of stores of this type cannot fail.
    spec fn infallible() -> bool;

    /// Reads `r` to its end and stores the bytes as one blob.
    fn put(&mut self, r: &mut &[u8]) -> (res: Result<Hash, Error>)
        ensures
            put_outcome(
                Self::encoded(old(r)@),
                Self::decoded(Self::encoded(old(r)@).unwrap()),
                Self::infallible(),
                old(self).raw(),
                old(r)@,
                res,
                final(self).raw(),
            ),
            res is Ok ==> final(r)@.len() == 0,
    ;

    /// Hands the blob under `h` to `w`. Where the store fails, `w` has
    /// taken nothing; where `w` fails, it has taken some leading part.
    fn get<W: Sink>(&self, h: &Hash, w: &mut W) -> (res: Result<(), Error>)
        ensures
            final(w).dependable() == old(w).dependable(),
            handed_outcome(
                kept_in(self.raw(), h@, Self::decoded(self.raw()[h@])),
                Self::infallible(),
                old(w).dependable(),
                old(w).written(),
                res,
                final(w).written(),
            ),
    ;

    /// Stores the UTF-8 bytes of `s` as one blob.
    fn put_str(&mut self, s: &str) -> (res: Result<Hash, Error>)
        ensures
            put_outcome(
                Self::encoded(s.spec_bytes()),
                Self::decoded(Self::encoded(s.spec_bytes()).unwrap()),
                Self::infallible(),
                old(self).raw(),
                s.spec_bytes(),
                res,
                final(self).raw(),
            ),
    {
        let mut r: &[u8] = s.as_bytes();
        self.put(&mut r)
    }

    /// Stores `buf` as one blob.
    fn put_buf(&mut self, buf: &[u8]) -> (res: Result<Hash, Error>)
        ensures
            put_outcome(
                Self::encoded(buf@),
                Self::decoded(Self::encoded(buf@).unwrap()),
                Self::infallible(),
                old(self).raw(),
                buf@,
                res,
                final(self).raw(),
            ),
    {
        let mut r: &[u8] = buf;
        self.put(&mut r)
    }

    /// Stores `buf` as one blob.
    fn put_vec(&mut self, buf: Vec<u8>) -> (res: Result<Hash, Error>)
        ensures
            put_outcome(
                Self::encoded(buf@),
                Self::decoded(Self::encoded(buf@).unwrap()),
                Self::infallible(),
                old(self).raw(),
                buf@,
                res,
                final(self).raw(),
            ),
    {
        let mut r: &[u8] = buf.as_slice();
        self.put(&mut r)
    }

    /// The blob under `h`, in a buffer that can be shared.
    fn get_buf(&self, h: &Hash) -> (res: Result<Rc<[u8]>, Error>)
        ensures
            get_outcome(
                kept_in(self.raw(), h@, Self::decoded(self.raw()[h@])),
                Self::infallible(),
                match res {
                    Ok(b) => Ok(b@),
                    Err(e) => Err(e),
                },
            ),
    {
        match self.get_vec(h) {
            Ok(v) => Ok(shared(v.as_slice())),
            Err(e) => Err(e),
        }
    }

    /// The blob under `h` as text. A blob that is not UTF-8 gives
    /// `Format(InvalidUtf8)`.
    fn get_str(&self, h: &Hash) -> (res: Result<String, Error>)
        ensures
            text_outcome(
                kept_in(self.raw(), h@, Self::decoded(self.raw()[h@])),
                Self::infallible(),
                match res {
                    Ok(s) => Ok(s@),
                    Err(e) => Err(e),
                },
            ),
    {
        match self.get_vec(h) {
            Ok(v) => match utf8_text(v) {
                Some(s) => Ok(s),
                None => Err(Error::Format(FormatError::InvalidUtf8)),
            },
            Err(e) => Err(e),
        }
    }

    /// The blob under `h`.
    fn get_vec(&self, h: &Hash) -> (res: Result<Vec<u8>, Error>)
        ensures
            get_outcome(
                kept_in(self.raw(), h@, Self::decoded(self.raw()[h@])),
                Self::infallible(),
                bytes_of(res),
            ),
    {
        let mut buf: Vec<u8> = Vec::new();
        match self.get(h, &mut buf) {
            Ok(()) => Ok(buf),
            Err(e) => Err(e),
        }
    }
}

} // verus!
