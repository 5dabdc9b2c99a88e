//! What holds of every store, proved from the contract of `BlobStore`.

use super::{get_outcome, kept_in, put_outcome, sha1_of, BlobStore, Blobs, Error};
use vstd::prelude::*;

verus! {

/// Whether `res` and `after` are a possible outcome of `put` of `data` on
/// the store `before`.
pub open spec fn put_of<S: BlobStore>(
    before: S,
    data: Seq<u8>,
    res: Result<crate::blob::Hash, Error>,
    after: S,
) -> bool {
    put_outcome(
        S::encoded(data),
        S::decoded(S::encoded(data).unwrap()),
        S::infallible(),
        before.raw(),
        data,
        res,
        after.raw(),
    )
}

/// Whether `res` is a possible outcome of asking `store` for the blob under
/// `h`.
pub open spec fn get_of<S: BlobStore>(store: S, h: Seq<u8>, res: Result<Seq<u8>, Error>) -> bool {
    get_outcome(kept_in(store.raw(), h, S::decoded(store.raw()[h])), S::infallible(), res)
}

/// Whether every entry of `raw` is filed under the SHA-1 digest of its
/// bytes.
pub open spec fn content_addressed(raw: Blobs) -> bool {
    forall|h: Seq<u8>| raw.contains_key(h) ==> h == sha1_of(#[trigger] raw[h])
}

/// A blob that was put is got back as it was: asking for the hash that
/// `put` gave yields the blob, or fails on the medium where the medium can
/// fail. This needs that what stood under the hash before, if anything,
/// reads back as the same blob; `lemma_taken_by_other_is_collision` says
/// when it does not.
pub proof fn lemma_get_after_put<S: BlobStore>(
    before: S,
    data: Seq<u8>,
    h: crate::blob::Hash,
    after: S,
    got: Result<Seq<u8>, Error>,
)
    requires
        put_of(before, data, Ok(h), after),
        get_of(after, h@, got),
        before.raw().contains_key(h@) ==> S::decoded(before.raw()[h@]) == Some(data),
    ensures
        got is Ok ==> got == Ok::<Seq<u8>, Error>(data),
        got matches Err(e) ==> e is Io && !S::infallible(),
        S::infallible() ==> got == Ok::<Seq<u8>, Error>(data),
{
}

/// In a store whose entries are filed under their digests, a hash that
/// `put` gives and that is taken by other bytes than the blob's own form
/// shows two byte strings with one SHA-1 digest.
pub proof fn lemma_taken_by_other_is_collision<S: BlobStore>(
    before: S,
    data: Seq<u8>,
    h: crate::blob::Hash,
    after: S,
)
    requires
        put_of(before, data, Ok(h), after),
        content_addressed(before.raw()),
        before.raw().contains_key(h@),
        before.raw()[h@] != S::encoded(data).unwrap(),
    ensures
        sha1_of(before.raw()[h@]) == sha1_of(S::encoded(data).unwrap()),
{
}

/// The hash that `put` gives depends on the blob alone: not on the store,
/// nor on what it holds.
pub proof fn lemma_put_is_deterministic<S: BlobStore>(
    before1: S,
    after1: S,
    h1: crate::blob::Hash,
    before2: S,
    after2: S,
    h2: crate::blob::Hash,
    data: Seq<u8>,
)
    requires
        put_of(before1, data, Ok(h1), after1),
        put_of(before2, data, Ok(h2), after2),
    ensures
        h1 == h2,
{
    crate::blob::lemma_hash_same_bytes(h1, h2);
}

/// Two different blobs get different hashes, unless the forms in which the
/// store keeps them are two byte strings with one SHA-1 digest.
pub proof fn lemma_distinct_unless_collision<S: BlobStore>(
    before1: S,
    after1: S,
    data1: Seq<u8>,
    h1: crate::blob::Hash,
    before2: S,
    after2: S,
    data2: Seq<u8>,
    h2: crate::blob::Hash,
)
    requires
        put_of(before1, data1, Ok(h1), after1),
        put_of(before2, data2, Ok(h2), after2),
        data1 != data2,
    ensures
        S::encoded(data1).unwrap() != S::encoded(data2).unwrap(),
        h1 == h2 ==> sha1_of(S::encoded(data1).unwrap()) == sha1_of(S::encoded(data2).unwrap()),
{
}

/// `put` changes nothing that is filed: every entry stays under its hash
/// with its bytes, whether `put` succeeds or fails.
pub proof fn lemma_put_keeps_entries<S: BlobStore>(
    before: S,
    data: Seq<u8>,
    res: Result<crate::blob::Hash, Error>,
    after: S,
    h: Seq<u8>,
)
    requires
        put_of(before, data, res, after),
        before.raw().contains_key(h),
    ensures
        after.raw().contains_key(h),
        after.raw()[h] == before.raw()[h],
{
}

/// A second `put` of a blob gives the hash of the first and leaves the
/// store as the first left it.
pub proof fn lemma_put_again<S: BlobStore>(
    before: S,
    data: Seq<u8>,
    h1: crate::blob::Hash,
    between: S,
    h2: crate::blob::Hash,
    after: S,
)
    requires
        put_of(before, data, Ok(h1), between),
        put_of(between, data, Ok(h2), after),
    ensures
        h2 == h1,
        after.raw() == between.raw(),
{
    crate::blob::lemma_hash_same_bytes(h1, h2);
}

/// `put` keeps a store content-addressed: if every entry was filed under
/// the digest of its bytes, every entry still is.
pub proof fn lemma_put_keeps_addressing<S: BlobStore>(
    before: S,
    data: Seq<u8>,
    res: Result<crate::blob::Hash, Error>,
    after: S,
)
    requires
        put_of(before, data, res, after),
        content_addressed(before.raw()),
    ensures
        content_addressed(after.raw()),
{
    assert forall|h: Seq<u8>| after.raw().contains_key(h) implies h == sha1_of(
        #[trigger] after.raw()[h],
    ) by {
        if before.raw().contains_key(h) {
            assert(h == sha1_of(before.raw()[h]));
        }
    }
}

} // verus!
