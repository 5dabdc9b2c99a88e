//! Typed values on top of a blob store: a canonical byte encoding, and
//! values that are stored as blobs and found again by typed references.

use crate::blob::{utf8_text, Error, FormatError};
use crate::utils::ioutil::{lemma_wrote_head, lemma_wrote_rest, wrote_prefix, Sink};
use std::marker::PhantomData;
use vstd::prelude::*;
use vstd::slice::{slice_subrange, slice_to_vec};
use vstd::string::*;
use vstd::utf8::*;

pub mod obj;

pub use obj::{Buf, Obj};

verus! {

/// What `serialize` owes for a value whose encoding is `bytes`, from what
/// the sink had taken `before` to what it has taken `after`: on success all
/// of `bytes` has been appended; a failure is the sink's, which then is not
/// dependable and has taken some leading part of `bytes`.
pub open spec fn written_as(
    bytes: Seq<u8>,
    dependable: bool,
    before: Seq<u8>,
    res: Result<(), Error>,
    after: Seq<u8>,
) -> bool {
    match res {
        Ok(()) => after == before + bytes,
        Err(e) => e is Io && !dependable && wrote_prefix(before, bytes, after),
    }
}

/// A type whose values have a canonical byte encoding.
///
/// The encoding is stated over models: `model` says which mathematical
/// value a value of the type stands for, `encode` how a model is written and
/// `decode` how bytes are read.
pub trait SerDe: Sized {
    /// The mathematical values that values of this type stand for.
    type Model;

    /// The mathematical value that `self` stands for.
    spec fn model(&self) -> Self::Model;

    /// Whether a value of this type can stand for `m`: its lengths fit the
    /// machine.
    spec fn storable(m: Self::Model) -> bool;

    /// The bytes that write `m`.
    spec fn encode(m: Self::Model) -> Seq<u8>;

    /// The value written at the start of `bytes` and the number of bytes
    /// that write it, or why there is none.
    spec fn decode(bytes: Seq<u8>) -> Result<(Self::Model, int), FormatError>;

    /// Reading what was written gives the value back, whatever follows it.
    proof fn lemma_decode_encode(m: Self::Model, rest: Seq<u8>)
        requires
            Self::storable(m),
        ensures
            Self::decode(Self::encode(m) + rest) == Ok::<(Self::Model, int), FormatError>(
                (m, Self::encode(m).len() as int),
            ),
    ;

    /// Appends the encoding of `self` to `w`.
    fn serialize<W: Sink>(&self, w: &mut W) -> (res: Result<(), Error>)
        ensures
            res is Ok ==> Self::storable(self.model()),
            final(w).dependable() == old(w).dependable(),
            written_as(
                Self::encode(self.model()),
                old(w).dependable(),
                old(w).written(),
                res,
                final(w).written(),
            ),
    ;

    /// Reads one value from the start of `r` and moves `r` past it. Bytes
    /// that do not start with a value give `Format` with the reason.
    fn deserialize(r: &mut &[u8]) -> (res: Result<Self, Error>)
        ensures
            match Self::decode(old(r)@) {
                Ok((m, n)) => {
                    &&& res matches Ok(v)
                    &&& v.model() == m
                    &&& Self::storable(m)
                    &&& 0 <= n <= old(r)@.len()
                    &&& final(r)@ == old(r)@.skip(n)
                },
                Err(f) => res matches Err(Error::Format(g)) && g == f,
            },
    ;
}

/// Takes the first `n` bytes off `r`. Fewer than `n` bytes give
/// `Format(ShortRead)` and leave `r` as it is.
pub fn take_bytes<'a>(r: &mut &'a [u8], n: usize) -> (res: Result<&'a [u8], Error>)
    ensures
        match res {
            Ok(head) => {
                &&& n <= old(r)@.len()
                &&& head@ == old(r)@.take(n as int)
                &&& final(r)@ == old(r)@.skip(n as int)
            },
            Err(e) => {
                &&& n > old(r)@.len()
                &&& e matches Error::Format(f)
                &&& f == FormatError::ShortRead
                &&& final(r)@ == old(r)@
            },
        },
{
    let all: &'a [u8] = *r;
    if all.len() < n {
        Err(Error::Format(FormatError::ShortRead))
    } else {
        *r = slice_subrange(all, n, all.len());
        Ok(slice_subrange(all, 0, n))
    }
}

/// The tag at the start of `bytes`, for a sum type with `variants`
/// variants: one byte less than `variants`.
pub open spec fn decode_tag(bytes: Seq<u8>, variants: u8) -> Result<(u8, int), FormatError> {
    if bytes.len() < 1 {
        Err(FormatError::ShortRead)
    } else if bytes[0] >= variants {
        Err(FormatError::UnknownTag)
    } else {
        Ok((bytes[0], 1))
    }
}

/// Reads the tag of a sum type with `variants` variants, which is written
/// as one byte before the variant's own bytes. A byte that is no tag gives
/// `Format(UnknownTag)`.
pub fn read_tag(r: &mut &[u8], variants: u8) -> (res: Result<u8, Error>)
    ensures
        match decode_tag(old(r)@, variants) {
            Ok((tag, _)) => res matches Ok(t) && t == tag && final(r)@ == old(r)@.skip(1),
            Err(f) => res matches Err(Error::Format(g)) && g == f,
        },
{
    match take_bytes(r, 1) {
        Ok(b) => {
            if b[0] < variants {
                Ok(b[0])
            } else {
                Err(Error::Format(FormatError::UnknownTag))
            }
        },
        Err(e) => Err(e),
    }
}

/// The one byte that writes `v`.
pub open spec fn be8(v: u8) -> Seq<u8> {
    seq![v]
}

/// The two bytes that write `v`, the high one first.
pub open spec fn be16(v: u16) -> Seq<u8> {
    seq![(v / 0x100) as u8, (v % 0x100) as u8]
}

/// The four bytes that write `v`, the highest first.
pub open spec fn be32(v: u32) -> Seq<u8> {
    seq![
        (v / 0x100_0000) as u8,
        (v / 0x1_0000 % 0x100) as u8,
        (v / 0x100 % 0x100) as u8,
        (v % 0x100) as u8,
    ]
}

/// The eight bytes that write `v`, the highest first.
#[verifier::opaque]
pub open spec fn be64(v: u64) -> Seq<u8> {
    seq![
        (v / 0x100_0000_0000_0000) as u8,
        (v / 0x1_0000_0000_0000 % 0x100) as u8,
        (v / 0x100_0000_0000 % 0x100) as u8,
        (v / 0x1_0000_0000 % 0x100) as u8,
        (v / 0x100_0000 % 0x100) as u8,
        (v / 0x1_0000 % 0x100) as u8,
        (v / 0x100 % 0x100) as u8,
        (v % 0x100) as u8,
    ]
}

/// The number that the first two bytes of `b` write, the high one first.
pub open spec fn from_be16(b: Seq<u8>) -> int {
    b[0] * 0x100 + b[1]
}

/// The number that the first four bytes of `b` write, the highest first.
pub open spec fn from_be32(b: Seq<u8>) -> int {
    b[0] * 0x100_0000 + b[1] * 0x1_0000 + b[2] * 0x100 + b[3]
}

/// The number that the first eight bytes of `b` write, the highest first.
pub open spec fn from_be64(b: Seq<u8>) -> int {
    b[0] * 0x100_0000_0000_0000 + b[1] * 0x1_0000_0000_0000 + b[2] * 0x100_0000_0000 + b[3]
        * 0x1_0000_0000 + b[4] * 0x100_0000 + b[5] * 0x1_0000 + b[6] * 0x100 + b[7]
}

/// The eight bytes that write `v` write `v`.
pub proof fn lemma_be64_value(v: u64)
    ensures
        be64(v).len() == 8,
        from_be64(be64(v)) == v,
{
    reveal(be64);
    let r1 = v / 0x100;
    let r2 = r1 / 0x100;
    let r3 = r2 / 0x100;
    let r4 = r3 / 0x100;
    let r5 = r4 / 0x100;
    let r6 = r5 / 0x100;
    let r7 = r6 / 0x100;
    assert(r2 == v / 0x1_0000);
    assert(r3 == v / 0x100_0000);
    assert(r4 == v / 0x1_0000_0000);
    assert(r5 == v / 0x100_0000_0000);
    assert(r6 == v / 0x1_0000_0000_0000);
    assert(r7 == v / 0x100_0000_0000_0000);
    assert(r7 < 0x100);
    let b = be64(v);
    assert(b[0] == r7);
    assert(b[1] == r6 % 0x100);
    assert(b[2] == r5 % 0x100);
    assert(b[3] == r4 % 0x100);
    assert(b[4] == r3 % 0x100);
    assert(b[5] == r2 % 0x100);
    assert(b[6] == r1 % 0x100);
    assert(b[7] == v % 0x100);
    assert(r6 == r7 * 0x100 + r6 % 0x100);
    assert(r5 == r6 * 0x100 + r5 % 0x100);
    assert(r4 == r5 * 0x100 + r4 % 0x100);
    assert(r3 == r4 * 0x100 + r3 % 0x100);
    assert(r2 == r3 * 0x100 + r2 % 0x100);
    assert(r1 == r2 * 0x100 + r1 % 0x100);
    assert(v == r1 * 0x100 + v % 0x100);
}

impl SerDe for u8 {
    type Model = u8;

    open spec fn model(&self) -> u8 {
        *self
    }

    open spec fn storable(m: u8) -> bool {
        true
    }

    open spec fn encode(m: u8) -> Seq<u8> {
        be8(m)
    }

    open spec fn decode(bytes: Seq<u8>) -> Result<(u8, int), FormatError> {
        if bytes.len() < 1 {
            Err(FormatError::ShortRead)
        } else {
            Ok((bytes[0], 1))
        }
    }

    proof fn lemma_decode_encode(m: u8, rest: Seq<u8>) {
    }

    fn serialize<W: Sink>(&self, w: &mut W) -> (res: Result<(), Error>) {
        let buf: [u8; 1] = [*self];
        assert(buf@ =~= be8(*self));
        w.write_all(buf.as_slice())
    }

    fn deserialize(r: &mut &[u8]) -> (res: Result<Self, Error>) {
        match take_bytes(r, 1) {
            Ok(b) => Ok(b[0]),
            Err(e) => Err(e),
        }
    }
}

impl SerDe for u16 {
    type Model = u16;

    open spec fn model(&self) -> u16 {
        *self
    }

    open spec fn storable(m: u16) -> bool {
        true
    }

    open spec fn encode(m: u16) -> Seq<u8> {
        be16(m)
    }

    open spec fn decode(bytes: Seq<u8>) -> Result<(u16, int), FormatError> {
        if bytes.len() < 2 {
            Err(FormatError::ShortRead)
        } else {
            Ok((from_be16(bytes) as u16, 2))
        }
    }

    proof fn lemma_decode_encode(m: u16, rest: Seq<u8>) {
    }

    fn serialize<W: Sink>(&self, w: &mut W) -> (res: Result<(), Error>) {
        let v: u16 = *self;
        let buf: [u8; 2] = [(v / 0x100) as u8, (v % 0x100) as u8];
        assert(buf@ =~= be16(v));
        w.write_all(buf.as_slice())
    }

    fn deserialize(r: &mut &[u8]) -> (res: Result<Self, Error>) {
        match take_bytes(r, 2) {
            Ok(b) => Ok(b[0] as u16 * 0x100 + b[1] as u16),
            Err(e) => Err(e),
        }
    }
}

impl SerDe for u32 {
    type Model = u32;

    open spec fn model(&self) -> u32 {
        *self
    }

    open spec fn storable(m: u32) -> bool {
        true
    }

    open spec fn encode(m: u32) -> Seq<u8> {
        be32(m)
    }

    open spec fn decode(bytes: Seq<u8>) -> Result<(u32, int), FormatError> {
        if bytes.len() < 4 {
            Err(FormatError::ShortRead)
        } else {
            Ok((from_be32(bytes) as u32, 4))
        }
    }

    proof fn lemma_decode_encode(m: u32, rest: Seq<u8>) {
    }

    fn serialize<W: Sink>(&self, w: &mut W) -> (res: Result<(), Error>) {
        let v: u32 = *self;
        let buf: [u8; 4] = [
            (v / 0x100_0000) as u8,
            (v / 0x1_0000 % 0x100) as u8,
            (v / 0x100 % 0x100) as u8,
            (v % 0x100) as u8,
        ];
        assert(buf@ =~= be32(v));
        w.write_all(buf.as_slice())
    }

    fn deserialize(r: &mut &[u8]) -> (res: Result<Self, Error>) {
        match take_bytes(r, 4) {
            Ok(b) => Ok(
                b[0] as u32 * 0x100_0000 + b[1] as u32 * 0x1_0000 + b[2] as u32 * 0x100
                    + b[3] as u32,
            ),
            Err(e) => Err(e),
        }
    }
}

impl SerDe for u64 {
    type Model = u64;

    open spec fn model(&self) -> u64 {
        *self
    }

    open spec fn storable(m: u64) -> bool {
        true
    }

    open spec fn encode(m: u64) -> Seq<u8> {
        be64(m)
    }

    open spec fn decode(bytes: Seq<u8>) -> Result<(u64, int), FormatError> {
        if bytes.len() < 8 {
            Err(FormatError::ShortRead)
        } else {
            Ok((from_be64(bytes) as u64, 8))
        }
    }

    proof fn lemma_decode_encode(m: u64, rest: Seq<u8>) {
        lemma_be64_value(m);
        let bytes = be64(m) + rest;
        let head = be64(m);
        assert(bytes[0] == head[0] && bytes[1] == head[1] && bytes[2] == head[2] && bytes[3]
            == head[3]);
        assert(bytes[4] == head[4] && bytes[5] == head[5] && bytes[6] == head[6] && bytes[7]
            == head[7]);
        assert(from_be64(bytes) == from_be64(head));
        assert(bytes.len() >= 8);
        assert(from_be64(bytes) as u64 == m);
        assert(<u64 as SerDe>::decode(bytes) == Ok::<(u64, int), FormatError>((m, 8)));
        assert(<u64 as SerDe>::encode(m).len() == 8);
    }

    fn serialize<W: Sink>(&self, w: &mut W) -> (res: Result<(), Error>) {
        let v: u64 = *self;
        proof {
            reveal(be64);
        }
        let buf: [u8; 8] = [
            (v / 0x100_0000_0000_0000) as u8,
            (v / 0x1_0000_0000_0000 % 0x100) as u8,
            (v / 0x100_0000_0000 % 0x100) as u8,
            (v / 0x1_0000_0000 % 0x100) as u8,
            (v / 0x100_0000 % 0x100) as u8,
            (v / 0x1_0000 % 0x100) as u8,
            (v / 0x100 % 0x100) as u8,
            (v % 0x100) as u8,
        ];
        assert(buf@ =~= be64(v));
        w.write_all(buf.as_slice())
    }

    fn deserialize(r: &mut &[u8]) -> (res: Result<Self, Error>) {
        match take_bytes(r, 8) {
            Ok(b) => Ok(
                b[0] as u64 * 0x100_0000_0000_0000 + b[1] as u64 * 0x1_0000_0000_0000 + b[2] as u64
                    * 0x100_0000_0000 + b[3] as u64 * 0x1_0000_0000 + b[4] as u64 * 0x100_0000
                    + b[5] as u64 * 0x1_0000 + b[6] as u64 * 0x100 + b[7] as u64,
            ),
            Err(e) => Err(e),
        }
    }
}

/// A `usize` is written as a `u64`, in eight bytes on every machine. A
/// number read back that the machine's `usize` cannot hold loses its high
/// bits.
impl SerDe for usize {
    type Model = usize;

    open spec fn model(&self) -> usize {
        *self
    }

    open spec fn storable(m: usize) -> bool {
        true
    }

    open spec fn encode(m: usize) -> Seq<u8> {
        be64(m as u64)
    }

    open spec fn decode(bytes: Seq<u8>) -> Result<(usize, int), FormatError> {
        if bytes.len() < 8 {
            Err(FormatError::ShortRead)
        } else {
            Ok((from_be64(bytes) as u64 as usize, 8))
        }
    }

    proof fn lemma_decode_encode(m: usize, rest: Seq<u8>) {
        <u64 as SerDe>::lemma_decode_encode(m as u64, rest);
    }

    fn serialize<W: Sink>(&self, w: &mut W) -> (res: Result<(), Error>) {
        (*self as u64).serialize(w)
    }

    fn deserialize(r: &mut &[u8]) -> (res: Result<Self, Error>) {
        match u64::deserialize(r) {
            Ok(v) => Ok(#[verifier::truncate] (v as usize)),
            Err(e) => Err(e),
        }
    }
}

/// Of a value written in two parts, a leading part of the first part is a
/// leading part of the whole.
pub proof fn lemma_prefix_in_first(before: Seq<u8>, first: Seq<u8>, second: Seq<u8>, after: Seq<u8>)
    requires
        wrote_prefix(before, first, after),
    ensures
        wrote_prefix(before, first + second, after),
{
    assert((first + second).take(first.len() as int) =~= first);
    lemma_wrote_head(before, first + second, first.len() as int, after);
}

/// Of a value written in two parts, the first part and a leading part of
/// the second are a leading part of the whole.
pub proof fn lemma_prefix_in_second(
    before: Seq<u8>,
    first: Seq<u8>,
    second: Seq<u8>,
    after: Seq<u8>,
)
    requires
        wrote_prefix(before + first, second, after),
    ensures
        wrote_prefix(before, first + second, after),
{
    assert((first + second).take(first.len() as int) =~= first);
    assert((first + second).skip(first.len() as int) =~= second);
    lemma_wrote_rest(before, first + second, first.len() as int, after);
}

/// A hash is written as its 20 bytes.
impl SerDe for crate::blob::Hash {
    type Model = Seq<u8>;

    open spec fn model(&self) -> Seq<u8> {
        self@
    }

    open spec fn storable(m: Seq<u8>) -> bool {
        m.len() == 20
    }

    open spec fn encode(m: Seq<u8>) -> Seq<u8> {
        m
    }

    open spec fn decode(bytes: Seq<u8>) -> Result<(Seq<u8>, int), FormatError> {
        if bytes.len() < 20 {
            Err(FormatError::ShortRead)
        } else {
            Ok((bytes.take(20), 20))
        }
    }

    proof fn lemma_decode_encode(m: Seq<u8>, rest: Seq<u8>) {
        assert((m + rest).take(20) =~= m);
    }

    fn serialize<W: Sink>(&self, w: &mut W) -> (res: Result<(), Error>) {
        w.write_all(self.buf())
    }

    fn deserialize(r: &mut &[u8]) -> (res: Result<Self, Error>) {
        match take_bytes(r, 20) {
            Ok(b) => {
                let mut buf: [u8; 20] = [0u8; 20];
                let mut i: usize = 0;
                while i < 20
                    invariant
                        i <= 20,
                        b@.len() == 20,
                        forall|j: int| 0 <= j < i ==> buf@[j] == b@[j],
                    decreases 20 - i,
                {
                    buf[i] = b[i];
                    i += 1;
                }
                assert(buf@ =~= b@);
                Ok(crate::blob::Hash::new(buf))
            },
            Err(e) => Err(e),
        }
    }
}

/// The bytes that write the text `m`: the number of its UTF-8 bytes, then
/// those bytes.
pub open spec fn encode_text(m: Seq<char>) -> Seq<u8> {
    be64(encode_utf8(m).len() as u64) + encode_utf8(m)
}

/// The text at the start of `bytes` and the number of bytes that write it.
pub open spec fn decode_text(bytes: Seq<u8>) -> Result<(Seq<char>, int), FormatError> {
    match <usize as SerDe>::decode(bytes) {
        Err(f) => Err(f),
        Ok((len, _)) => {
            if bytes.len() - 8 < len {
                Err(FormatError::ShortRead)
            } else if !valid_utf8(bytes.subrange(8, 8 + len)) {
                Err(FormatError::InvalidUtf8)
            } else {
                Ok((decode_utf8(bytes.subrange(8, 8 + len)), 8 + len))
            }
        },
    }
}

/// A string is written as the number of its UTF-8 bytes, then those bytes.
impl SerDe for String {
    type Model = Seq<char>;

    open spec fn model(&self) -> Seq<char> {
        self@
    }

    open spec fn storable(m: Seq<char>) -> bool {
        encode_utf8(m).len() <= usize::MAX
    }

    open spec fn encode(m: Seq<char>) -> Seq<u8> {
        encode_text(m)
    }

    open spec fn decode(bytes: Seq<u8>) -> Result<(Seq<char>, int), FormatError> {
        decode_text(bytes)
    }

    proof fn lemma_decode_encode(m: Seq<char>, rest: Seq<u8>) {
        let body = encode_utf8(m);
        let len = body.len() as usize;
        let bytes = encode_text(m) + rest;
        assert(bytes =~= be64(len as u64) + (body + rest));
        <usize as SerDe>::lemma_decode_encode(len, body + rest);
        assert(bytes.subrange(8, 8 + len) =~= body);
        encode_utf8_valid_utf8(m);
        encode_utf8_decode_utf8(m);
    }

    fn serialize<W: Sink>(&self, w: &mut W) -> (res: Result<(), Error>) {
        let body = self.as_str().as_bytes();
        let ghost before = w.written();
        let ghost head = be64(body@.len() as u64);
        match body.len().serialize(w) {
            Ok(()) => {
                let res = w.write_all(body);
                proof {
                    if res is Err {
                        lemma_prefix_in_second(before, head, body@, w.written());
                    } else {
                        assert(before + head + body@ =~= before + (head + body@));
                    }
                }
                res
            },
            Err(e) => {
                proof {
                    lemma_prefix_in_first(before, head, body@, w.written());
                }
                Err(e)
            },
        }
    }

    fn deserialize(r: &mut &[u8]) -> (res: Result<Self, Error>) {
        let ghost bytes = r@;
        let len = match usize::deserialize(r) {
            Ok(len) => len,
            Err(e) => {
                return Err(e);
            },
        };
        let body = match take_bytes(r, len) {
            Ok(body) => body,
            Err(e) => {
                return Err(e);
            },
        };
        assert(body@ =~= bytes.subrange(8, 8 + len));
        assert(r@ =~= bytes.skip(8 + len));
        match utf8_text(slice_to_vec(body)) {
            Some(s) => {
                proof {
                    decode_utf8_encode_utf8(body@);
                }
                Ok(s)
            },
            None => Err(Error::Format(FormatError::InvalidUtf8)),
        }
    }
}

/// The hash of a stored value, marked with the type of the value.
pub struct ObjRef<T> {
    hash: crate::blob::Hash,
    t: PhantomData<T>,
}

impl<T> View for ObjRef<T> {
    type V = Seq<u8>;

    closed spec fn view(&self) -> Seq<u8> {
        self.hash@
    }
}

impl<T> ObjRef<T> {
    /// The reference to the value of type `T` that is stored under `hash`.
    pub fn new(hash: crate::blob::Hash) -> (r: Self)
        ensures
            r@ == hash@,
    {
        Self { hash, t: PhantomData }
    }

    /// The hash under which the value is stored.
    pub fn hash(&self) -> (h: &crate::blob::Hash)
        ensures
            h@ == self@,
    {
        &self.hash
    }
}

/// A reference is written as its hash.
impl<T> SerDe for ObjRef<T> {
    type Model = Seq<u8>;

    open spec fn model(&self) -> Seq<u8> {
        self@
    }

    open spec fn storable(m: Seq<u8>) -> bool {
        m.len() == 20
    }

    open spec fn encode(m: Seq<u8>) -> Seq<u8> {
        m
    }

    open spec fn decode(bytes: Seq<u8>) -> Result<(Seq<u8>, int), FormatError> {
        <crate::blob::Hash as SerDe>::decode(bytes)
    }

    proof fn lemma_decode_encode(m: Seq<u8>, rest: Seq<u8>) {
        <crate::blob::Hash as SerDe>::lemma_decode_encode(m, rest);
    }

    fn serialize<W: Sink>(&self, w: &mut W) -> (res: Result<(), Error>) {
        self.hash.serialize(w)
    }

    fn deserialize(r: &mut &[u8]) -> (res: Result<Self, Error>) {
        match crate::blob::Hash::deserialize(r) {
            Ok(hash) => Ok(Self { hash, t: PhantomData }),
            Err(e) => Err(e),
        }
    }
}

/// A pair is written as its first part, then its second.
impl<T: SerDe, U: SerDe> SerDe for (T, U) {
    type Model = (T::Model, U::Model);

    open spec fn model(&self) -> (T::Model, U::Model) {
        (self.0.model(), self.1.model())
    }

    open spec fn storable(m: (T::Model, U::Model)) -> bool {
        T::storable(m.0) && U::storable(m.1)
    }

    open spec fn encode(m: (T::Model, U::Model)) -> Seq<u8> {
        T::encode(m.0) + U::encode(m.1)
    }

    open spec fn decode(bytes: Seq<u8>) -> Result<((T::Model, U::Model), int), FormatError> {
        match T::decode(bytes) {
            Err(f) => Err(f),
            Ok((first, n)) => match U::decode(bytes.skip(n)) {
                Err(f) => Err(f),
                Ok((second, k)) => Ok(((first, second), n + k)),
            },
        }
    }

    proof fn lemma_decode_encode(m: (T::Model, U::Model), rest: Seq<u8>) {
        let first = T::encode(m.0);
        let second = U::encode(m.1);
        assert(first + second + rest =~= first + (second + rest));
        T::lemma_decode_encode(m.0, second + rest);
        assert((first + (second + rest)).skip(first.len() as int) =~= second + rest);
        U::lemma_decode_encode(m.1, rest);
    }

    fn serialize<W: Sink>(&self, w: &mut W) -> (res: Result<(), Error>) {
        let ghost before = w.written();
        let ghost first = T::encode(self.0.model());
        let ghost second = U::encode(self.1.model());
        match self.0.serialize(w) {
            Ok(()) => {
                let res = self.1.serialize(w);
                proof {
                    if res is Err {
                        lemma_prefix_in_second(before, first, second, w.written());
                    } else {
                        assert(before + first + second =~= before + (first + second));
                    }
                }
                res
            },
            Err(e) => {
                proof {
                    lemma_prefix_in_first(before, first, second, w.written());
                }
                Err(e)
            },
        }
    }

    fn deserialize(r: &mut &[u8]) -> (res: Result<Self, Error>) {
        let ghost bytes = r@;
        let first = match T::deserialize(r) {
            Ok(v) => v,
            Err(e) => {
                return Err(e);
            },
        };
        let ghost n = T::decode(bytes).unwrap().1;
        let second = match U::deserialize(r) {
            Ok(v) => v,
            Err(e) => {
                return Err(e);
            },
        };
        let ghost k = U::decode(bytes.skip(n)).unwrap().1;
        assert(r@ =~= bytes.skip(n + k));
        Ok((first, second))
    }
}

/// The models of the values of `v`, in order.
pub open spec fn models_of<T: SerDe>(v: Seq<T>) -> Seq<T::Model> {
    Seq::new(v.len(), |i: int| v[i].model())
}

/// The encodings of the values `m`, one after the other.
pub open spec fn encode_each<T: SerDe>(m: Seq<T::Model>) -> Seq<u8>
    decreases m.len(),
{
    if m.len() == 0 {
        Seq::empty()
    } else {
        encode_each::<T>(m.drop_last()) + T::encode(m.last())
    }
}

/// The `count` values written one after the other at the start of `bytes`,
/// and the number of bytes that write them.
pub open spec fn decode_each<T: SerDe>(bytes: Seq<u8>, count: nat) -> Result<
    (Seq<T::Model>, int),
    FormatError,
>
    decreases count,
{
    if count == 0 {
        Ok((Seq::empty(), 0))
    } else {
        match decode_each::<T>(bytes, (count - 1) as nat) {
            Err(f) => Err(f),
            Ok((values, used)) => match T::decode(bytes.skip(used)) {
                Err(f) => Err(f),
                Ok((value, n)) => Ok((values.push(value), used + n)),
            },
        }
    }
}

/// Values written one after the other are read back one after the other,
/// whatever follows them.
pub proof fn lemma_decode_each_encode_each<T: SerDe>(m: Seq<T::Model>, rest: Seq<u8>)
    requires
        forall|i: int| 0 <= i < m.len() ==> T::storable(#[trigger] m[i]),
    ensures
        decode_each::<T>(encode_each::<T>(m) + rest, m.len()) == Ok::<
            (Seq<T::Model>, int),
            FormatError,
        >((m, encode_each::<T>(m).len() as int)),
    decreases m.len(),
{
    if m.len() == 0 {
        assert(m =~= Seq::<T::Model>::empty());
    } else {
        let init = m.drop_last();
        let last = T::encode(m.last());
        let head = encode_each::<T>(init);
        let bytes = encode_each::<T>(m) + rest;
        assert(bytes =~= head + (last + rest));
        assert forall|i: int| 0 <= i < init.len() implies T::storable(#[trigger] init[i]) by {
            assert(init[i] == m[i]);
        }
        lemma_decode_each_encode_each::<T>(init, last + rest);
        assert(bytes.skip(head.len() as int) =~= last + rest);
        T::lemma_decode_encode(m.last(), rest);
        assert(init.push(m.last()) =~= m);
    }
}

/// A vector is written as the number of its values, then the values in
/// order.
impl<T: SerDe> SerDe for Vec<T> {
    type Model = Seq<T::Model>;

    open spec fn model(&self) -> Seq<T::Model> {
        models_of::<T>(self@)
    }

    open spec fn storable(m: Seq<T::Model>) -> bool {
        m.len() <= usize::MAX && forall|i: int| 0 <= i < m.len() ==> T::storable(#[trigger] m[i])
    }

    open spec fn encode(m: Seq<T::Model>) -> Seq<u8> {
        be64(m.len() as u64) + encode_each::<T>(m)
    }

    open spec fn decode(bytes: Seq<u8>) -> Result<(Seq<T::Model>, int), FormatError> {
        match <usize as SerDe>::decode(bytes) {
            Err(f) => Err(f),
            Ok((count, _)) => match decode_each::<T>(bytes.skip(8), count as nat) {
                Err(f) => Err(f),
                Ok((values, used)) => Ok((values, 8 + used)),
            },
        }
    }

    proof fn lemma_decode_encode(m: Seq<T::Model>, rest: Seq<u8>) {
        let body = encode_each::<T>(m);
        let count = m.len() as usize;
        let bytes = be64(count as u64) + body + rest;
        assert(bytes =~= be64(count as u64) + (body + rest));
        <usize as SerDe>::lemma_decode_encode(count, body + rest);
        assert(bytes.skip(8) =~= body + rest);
        lemma_decode_each_encode_each::<T>(m, rest);
    }

    fn serialize<W: Sink>(&self, w: &mut W) -> (res: Result<(), Error>) {
        let ghost before = w.written();
        let ghost m = self.model();
        let ghost head = be64(self@.len() as u64);
        match self.len().serialize(w) {
            Ok(()) => {},
            Err(e) => {
                proof {
                    lemma_prefix_in_first(before, head, encode_each::<T>(m), w.written());
                }
                return Err(e);
            },
        }
        assert(m.take(0) =~= Seq::<T::Model>::empty());
        assert(before + head + encode_each::<T>(m.take(0)) =~= before + head);
        let mut i: usize = 0;
        while i < self.len()
            invariant
                i <= self@.len(),
                m == self.model(),
                m.len() == self@.len(),
                before == old(w).written(),
                head == be64(self@.len() as u64),
                w.dependable() == old(w).dependable(),
                w.written() == before + head + encode_each::<T>(m.take(i as int)),
                forall|j: int| 0 <= j < i ==> T::storable(#[trigger] m[j]),
            decreases self@.len() - i,
        {
            let ghost done = encode_each::<T>(m.take(i as int));
            let ghost mid = w.written();
            let res = self[i].serialize(w);
            proof {
                let next = T::encode(m[i as int]);
                assert(m.take(i + 1).drop_last() =~= m.take(i as int));
                assert(m.take(i + 1).last() == m[i as int]);
                assert(encode_each::<T>(m.take(i + 1)) == done + next);
                if res is Err {
                    let whole = encode_each::<T>(m);
                    lemma_prefix_in_second(before + head, done, next, w.written());
                    lemma_encode_each_prefix::<T>(m, i + 1);
                    lemma_wrote_head(before + head, whole, (done + next).len() as int, w.written());
                    lemma_prefix_in_second(before, head, whole, w.written());
                } else {
                    assert(before + head + done + next =~= before + head + (done + next));
                }
            }
            match res {
                Ok(()) => {},
                Err(e) => {
                    return Err(e);
                },
            }
            i += 1;
        }
        assert(m.take(i as int) =~= m);
        assert(before + head + encode_each::<T>(m) =~= before + (head + encode_each::<T>(m)));
        Ok(())
    }

    fn deserialize(r: &mut &[u8]) -> (res: Result<Self, Error>) {
        let ghost bytes = r@;
        let count = match usize::deserialize(r) {
            Ok(count) => count,
            Err(e) => {
                return Err(e);
            },
        };
        let ghost body = bytes.skip(8);
        let mut v: Vec<T> = Vec::new();
        let mut i: usize = 0;
        let ghost mut used: int = 0;
        assert(r@ =~= body.skip(0));
        assert(models_of::<T>(v@) =~= Seq::<T::Model>::empty());
        while i < count
            invariant
                i <= count,
                v@.len() == i,
                bytes == old(r)@,
                body == bytes.skip(8),
                <usize as SerDe>::decode(bytes) == Ok::<(usize, int), FormatError>((count, 8)),
                0 <= used <= body.len(),
                r@ == body.skip(used),
                decode_each::<T>(body, i as nat) == Ok::<(Seq<T::Model>, int), FormatError>(
                    (models_of::<T>(v@), used),
                ),
                forall|j: int| 0 <= j < i ==> T::storable(#[trigger] models_of::<T>(v@)[j]),
            decreases count - i,
        {
            let ghost so_far = models_of::<T>(v@);
            match T::deserialize(r) {
                Ok(value) => {
                    v.push(value);
                    proof {
                        let n = T::decode(body.skip(used)).unwrap().1;
                        assert(models_of::<T>(v@) =~= so_far.push(value.model()));
                        assert(r@ =~= body.skip(used + n));
                        used = used + n;
                    }
                },
                Err(e) => {
                    proof {
                        let f = T::decode(body.skip(used))->Err_0;
                        lemma_decode_each_fails::<T>(body, i as nat + 1, count as nat, f);
                    }
                    return Err(e);
                },
            }
            i += 1;
        }
        assert(r@ =~= bytes.skip(8 + used));
        Ok(v)
    }
}

/// Where the first `n` values cannot be read, no more than `n` can.
pub proof fn lemma_decode_each_fails<T: SerDe>(bytes: Seq<u8>, n: nat, count: nat, f: FormatError)
    requires
        decode_each::<T>(bytes, n) == Err::<(Seq<T::Model>, int), FormatError>(f),
        n <= count,
    ensures
        decode_each::<T>(bytes, count) == Err::<(Seq<T::Model>, int), FormatError>(f),
    decreases count,
{
    if n < count {
        lemma_decode_each_fails::<T>(bytes, n, (count - 1) as nat, f);
    }
}

/// The encodings of the first `n` values are the start of the encodings of
/// all of them.
pub proof fn lemma_encode_each_prefix<T: SerDe>(m: Seq<T::Model>, n: int)
    requires
        0 <= n <= m.len(),
    ensures
        encode_each::<T>(m.take(n)).len() <= encode_each::<T>(m).len(),
        encode_each::<T>(m).take(encode_each::<T>(m.take(n)).len() as int) == encode_each::<T>(
            m.take(n),
        ),
    decreases m.len() - n,
{
    if n == m.len() {
        assert(m.take(n) =~= m);
        assert(encode_each::<T>(m).take(encode_each::<T>(m).len() as int) =~= encode_each::<T>(m));
    } else {
        lemma_encode_each_prefix::<T>(m, n + 1);
        let longer = m.take(n + 1);
        assert(longer.drop_last() =~= m.take(n));
        let short = encode_each::<T>(m.take(n));
        assert(encode_each::<T>(longer) == short + T::encode(longer.last()));
        assert(encode_each::<T>(m).take(short.len() as int) =~= encode_each::<T>(longer).take(
            short.len() as int,
        ));
        assert((short + T::encode(longer.last())).take(short.len() as int) =~= short);
    }
}

} // verus!
