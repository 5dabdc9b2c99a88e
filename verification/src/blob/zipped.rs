use super::laws::{get_of, lemma_get_after_put, put_of};
use super::{put_outcome, sha1_of, BlobStore, Blobs, Error};
use crate::utils::ioutil::Sink;
use flate2::read::ZlibEncoder;
use flate2::write::ZlibDecoder;
use flate2::Compression;
use std::io::{Read, Write};
use vstd::prelude::*;
use vstd::slice::slice_subrange;

verus! {

/// The zlib stream that compressing `data` at the default level gives, if
/// compressing succeeds.
pub uninterp spec fn zlib_encoded(data: Seq<u8>) -> Option<Seq<u8>>;

/// The bytes that `stream` decompresses to, if it is accepted as a zlib
/// stream.
pub uninterp spec fn zlib_decoded(stream: Seq<u8>) -> Option<Seq<u8>>;

/// `flate2::read::ZlibEncoder` over `data`, at `Compression::default()`,
/// read to its end. What comes out depends on `data` alone, and it is a
/// zlib stream that `zlib_decode` turns back into `data`.
#[verifier::external_body]
pub(crate) fn zlib_encode(data: &[u8]) -> (r: Result<Vec<u8>, std::io::Error>)
    ensures
        match r {
            Ok(c) => zlib_encoded(data@) == Some(c@) && zlib_decoded(c@) == Some(data@),
            Err(_) => zlib_encoded(data@) is None,
        },
{
    let mut out = Vec::new();
    match ZlibEncoder::new(data, Compression::default()).read_to_end(&mut out) {
        Ok(_) => Ok(out),
        Err(e) => Err(e),
    }
}

/// `flate2::write::ZlibDecoder` over an empty vector, given all of
/// `stream` and then finished. What comes out depends on `stream` alone.
#[verifier::external_body]
pub(crate) fn zlib_decode(stream: &[u8]) -> (r: Result<Vec<u8>, std::io::Error>)
    ensures
        match r {
            Ok(d) => zlib_decoded(stream@) == Some(d@),
            Err(_) => zlib_decoded(stream@) is None,
        },
{
    let mut dec = ZlibDecoder::new(Vec::new());
    match dec.write_all(stream) {
        Ok(()) => dec.finish(),
        Err(e) => Err(e),
    }
}

/// A store that keeps every blob as a zlib stream in the store it wraps.
/// The hash of a blob is the one that the wrapped store gives its stream.
pub struct ZippedStore<B: BlobStore>(B);

impl<B: BlobStore> ZippedStore<B> {
    pub fn new(inner: B) -> (z: Self)
        ensures
            z.raw() == inner.raw(),
    {
        Self(inner)
    }

    /// Gives the wrapped store back.
    pub fn into_inner(self) -> (inner: B)
        ensures
            inner.raw() == self.raw(),
    {
        self.0
    }

    /// Files the outcome of compressing a blob: a stream goes to the
    /// wrapped store as a blob of its own, a failure to compress is
    /// `Compression` and leaves the store as it is.
    pub fn put_compressed(&mut self, compressed: Result<Vec<u8>, std::io::Error>) -> (res: Result<
        crate::blob::Hash,
        Error,
    >)
        ensures
            match compressed {
                Ok(c) => put_outcome(
                    B::encoded(c@),
                    B::decoded(B::encoded(c@).unwrap()),
                    B::infallible(),
                    old(self).raw(),
                    c@,
                    res,
                    final(self).raw(),
                ),
                Err(_) => res matches Err(Error::Compression) && final(self).raw() == old(
                    self,
                ).raw(),
            },
    {
        match compressed {
            Ok(c) => self.0.put_vec(c),
            Err(_) => Err(Error::Compression),
        }
    }

    /// Hands the outcome of decompressing a stream to `w`: the bytes, where
    /// there are some; else `Compression`, and `w` gets nothing.
    pub fn emit<W: Sink>(plain: Result<Vec<u8>, std::io::Error>, w: &mut W) -> (res: Result<
        (),
        Error,
    >)
        ensures
            final(w).dependable() == old(w).dependable(),
            match plain {
                Ok(d) => match res {
                    Ok(()) => final(w).written() == old(w).written() + d@,
                    Err(e) => e is Io && !old(w).dependable() && crate::utils::ioutil::wrote_prefix(
                        old(w).written(),
                        d@,
                        final(w).written(),
                    ),
                },
                Err(_) => res matches Err(Error::Compression) && final(w).written() == old(
                    w,
                ).written(),
            },
    {
        match plain {
            Ok(d) => w.write_all(d.as_slice()),
            Err(_) => Err(Error::Compression),
        }
    }
}

impl<B: BlobStore> BlobStore for ZippedStore<B> {
    closed spec fn raw(&self) -> Blobs {
        self.0.raw()
    }

    open spec fn encoded(data: Seq<u8>) -> Option<Seq<u8>> {
        match zlib_encoded(data) {
            Some(c) => B::encoded(c),
            None => None,
        }
    }

    open spec fn decoded(rep: Seq<u8>) -> Option<Seq<u8>> {
        match B::decoded(rep) {
            Some(c) => zlib_decoded(c),
            None => None,
        }
    }

    open spec fn infallible() -> bool {
        B::infallible()
    }

    /// Compresses what `r` holds and stores the stream in the wrapped store.
    fn put(&mut self, r: &mut &[u8]) -> (res: Result<crate::blob::Hash, Error>) {
        let data: &[u8] = *r;
        *r = slice_subrange(data, data.len(), data.len());
        let compressed = zlib_encode(data);
        let ghost stream = compressed;
        let res = self.put_compressed(compressed);
        proof {
            if let Ok(c) = stream {
                assert(Self::encoded(data@) == B::encoded(c@));
                if res is Ok {
                    let rep = B::encoded(c@).unwrap();
                    assert(Self::decoded(rep) == zlib_decoded(c@));
                }
            }
        }
        res
    }

    /// Takes the stream under `h` from the wrapped store and hands `w` what
    /// it decompresses to.
    fn get<W: Sink>(&self, h: &crate::blob::Hash, w: &mut W) -> (res: Result<(), Error>) {
        match self.0.get_vec(h) {
            Ok(c) => {
                let plain = zlib_decode(c.as_slice());
                Self::emit(plain, w)
            },
            Err(e) => Err(e),
        }
    }
}

/// A wrapped store is a store for the blobs as they are given to it: a
/// blob that was put is got back as it was, whatever store is wrapped, and
/// its hash is the one that the wrapped store gives the blob's zlib stream.
/// As for every store, this needs that what stood under the hash before, if
/// anything, reads back as the same blob.
pub proof fn lemma_zipped_get_after_put<B: BlobStore>(
    before: ZippedStore<B>,
    data: Seq<u8>,
    h: crate::blob::Hash,
    after: ZippedStore<B>,
    got: Result<Seq<u8>, Error>,
)
    requires
        put_of(before, data, Ok(h), after),
        get_of(after, h@, got),
        before.raw().contains_key(h@) ==> ZippedStore::<B>::decoded(before.raw()[h@]) == Some(
            data,
        ),
    ensures
        zlib_encoded(data) matches Some(stream) && B::encoded(stream) matches Some(rep) && h@
            == sha1_of(rep),
        got is Ok ==> got == Ok::<Seq<u8>, Error>(data),
        got matches Err(e) ==> e is Io && !B::infallible(),
        B::infallible() ==> got == Ok::<Seq<u8>, Error>(data),
{
    lemma_get_after_put::<ZippedStore<B>>(before, data, h, after, got);
}

} // verus!
