//! Values that are stored as blobs and found again by typed references.

use super::{models_of, ObjRef, SerDe};
use crate::blob::{filed, sha1_of, BlobStore, Blobs, Error};
use vstd::prelude::*;

verus! {

/// The hash under which a store of type `S` files the blob `d`.
pub open spec fn address<S: BlobStore>(d: Seq<u8>) -> Seq<u8> {
    sha1_of(S::encoded(d).unwrap())
}

/// The rule by which a store of type `S` files blobs: each under its
/// address.
pub open spec fn addresses<S: BlobStore>() -> spec_fn(Seq<u8>) -> Seq<u8> {
    |d: Seq<u8>| address::<S>(d)
}

/// Whether a store of type `S` can keep the blob `d`: its form can be made
/// and reads back as `d`, and its address is a hash.
pub open spec fn puttable<S: BlobStore>(d: Seq<u8>) -> bool {
    &&& S::encoded(d) is Some
    &&& S::decoded(S::encoded(d).unwrap()) == Some(d)
    &&& address::<S>(d).len() == 20
}

/// Whether a store of type `S` can keep each of `blobs`.
pub open spec fn all_puttable<S: BlobStore>(blobs: Seq<Seq<u8>>) -> bool {
    forall|i: int| 0 <= i < blobs.len() ==> puttable::<S>(#[trigger] blobs[i])
}

/// Whether the form of each of `blobs` can be made for a store of type `S`.
pub open spec fn all_encodable<S: BlobStore>(blobs: Seq<Seq<u8>>) -> bool {
    forall|i: int| 0 <= i < blobs.len() ==> S::encoded(#[trigger] blobs[i]) is Some
}

/// What a store of type `S` holds after the blobs `blobs` were put, one
/// after the other, into one that held `raw`.
pub open spec fn put_all<S: BlobStore>(raw: Blobs, blobs: Seq<Seq<u8>>) -> Blobs
    decreases blobs.len(),
{
    if blobs.len() == 0 {
        raw
    } else {
        filed(
            put_all::<S>(raw, blobs.drop_last()),
            address::<S>(blobs.last()),
            S::encoded(blobs.last()).unwrap(),
        )
    }
}

/// Whether a store of type `S` that holds `raw` gives the blob `d` for the
/// address of `d`.
pub open spec fn sits<S: BlobStore>(raw: Blobs, d: Seq<u8>) -> bool {
    &&& address::<S>(d).len() == 20
    &&& raw.contains_key(address::<S>(d))
    &&& S::decoded(raw[address::<S>(d)]) == Some(d)
}

/// Whether a store of type `S` that holds `raw` gives each of `blobs` for
/// its address.
pub open spec fn all_sit<S: BlobStore>(raw: Blobs, blobs: Seq<Seq<u8>>) -> bool {
    forall|i: int| 0 <= i < blobs.len() ==> sits::<S>(raw, #[trigger] blobs[i])
}

/// Whether a store of type `S` that holds `raw` has the address of `d` free
/// or holds `d` there: nothing else has taken the place of `d`.
pub open spec fn agrees<S: BlobStore>(raw: Blobs, d: Seq<u8>) -> bool {
    raw.contains_key(address::<S>(d)) ==> S::decoded(raw[address::<S>(d)]) == Some(d)
}

/// Whether none of `blobs` finds its place in a store of type `S` taken by
/// something else: neither by what the store holds, which is `raw`, nor by
/// another of them.
pub open spec fn no_clash<S: BlobStore>(raw: Blobs, blobs: Seq<Seq<u8>>) -> bool {
    &&& forall|i: int| 0 <= i < blobs.len() ==> agrees::<S>(raw, #[trigger] blobs[i])
    &&& forall|i: int, j: int|
        0 <= i < blobs.len() && 0 <= j < blobs.len() && address::<S>(#[trigger] blobs[i])
            == address::<S>(#[trigger] blobs[j]) ==> blobs[i] == blobs[j]
}

/// Whether `after` holds all that `before` holds, each entry under its hash
/// with its bytes.
pub open spec fn extends(before: Blobs, after: Blobs) -> bool {
    forall|h: Seq<u8>| #[trigger]
        before.contains_key(h) ==> after.contains_key(h) && after[h] == before[h]
}

/// The blobs that a store of type `S` gives back when it holds `raw`: under
/// each hash what the bytes filed there read back as.
pub open spec fn readable<S: BlobStore>(raw: Blobs) -> Blobs {
    Map::new(
        |h: Seq<u8>| raw.contains_key(h) && S::decoded(raw[h]) is Some,
        |h: Seq<u8>| S::decoded(raw[h]).unwrap(),
    )
}

/// What `store` owes for a value whose blobs are `parts`, its own last,
/// from what the store held `before` to what it holds `after`.
///
/// On success the reference is the address of the value's own blob, and the
/// store holds what it held and the value's blobs, put in their order, each
/// of which it can keep. A failure is the medium's, where the medium can
/// fail, or `Compression`; the store then holds what it held and the blobs
/// that were put before the failure, which are the first few of the value's
/// blobs. So `store` succeeds wherever the medium cannot fail and the form of
/// every blob can be made. Whatever happens, nothing that was filed has
/// changed.
pub open spec fn store_outcome<S: BlobStore>(
    parts: Seq<Seq<u8>>,
    before: Blobs,
    res: Result<Seq<u8>, Error>,
    after: Blobs,
) -> bool {
    &&& extends(before, after)
    &&& match res {
        Ok(r) => {
            &&& r == address::<S>(parts.last())
            &&& after == put_all::<S>(before, parts)
            &&& all_puttable::<S>(parts)
        },
        Err(e) => {
            &&& (e is Io && !S::infallible()) || e is Compression
            &&& exists|k: int|
                0 <= k < parts.len() && after == put_all::<S>(before, #[trigger] parts.take(k))
        },
    }
    &&& S::infallible() && all_encodable::<S>(parts) ==> res is Ok
}

/// A type whose values can be stored in a blob store and loaded again.
///
/// A value is stored as one or more blobs: first the blobs of the values it
/// owns, then a blob of its own that refers to them by their hashes.
pub trait Obj: Sized {
    /// The mathematical values that values of this type stand for.
    type Model;

    /// The mathematical value that `self` stands for.
    spec fn model(&self) -> Self::Model;

    /// The blobs that `store` puts for the values that `self` owns, in the
    /// order in which it puts them, where the store files each blob `d`
    /// under `addr(d)`.
    spec fn owned(&self, addr: spec_fn(Seq<u8>) -> Seq<u8>) -> Seq<Seq<u8>>;

    /// The blob that `store` puts for `self` itself, after those of the
    /// values it owns, where the store files each blob `d` under `addr(d)`.
    spec fn own(&self, addr: spec_fn(Seq<u8>) -> Seq<u8>) -> Seq<u8>;

    /// Whether the blobs `blobs` hold the value `m` under the hash `h`.
    spec fn held(blobs: Blobs, h: Seq<u8>, m: Self::Model) -> bool;

    /// Blobs hold at most one value under a hash.
    proof fn lemma_held_once(blobs: Blobs, h: Seq<u8>, m1: Self::Model, m2: Self::Model)
        requires
            Self::held(blobs, h, m1),
            Self::held(blobs, h, m2),
        ensures
            m1 == m2,
    ;

    /// A store that gives back each of the value's blobs holds the value
    /// under the address of its own blob.
    proof fn lemma_parts_held<S: BlobStore>(&self, raw: Blobs)
        requires
            all_sit::<S>(raw, self.owned(addresses::<S>()).push(self.own(addresses::<S>()))),
        ensures
            Self::held(readable::<S>(raw), address::<S>(self.own(addresses::<S>())), self.model()),
    ;

    /// Stores the values that `self` owns, then `self`, and gives the
    /// reference to `self`.
    fn store<S: BlobStore>(&self, store: &mut S) -> (res: Result<ObjRef<Self>, Error>)
        ensures
            store_outcome::<S>(
                self.owned(addresses::<S>()).push(self.own(addresses::<S>())),
                old(store).raw(),
                match res {
                    Ok(r) => Ok(r@),
                    Err(e) => Err(e),
                },
                final(store).raw(),
            ),
    ;

    /// Loads the value under `r`. What it gives is a value that the store
    /// holds under `r`; it gives one wherever the store holds one and its
    /// medium cannot fail.
    fn load<S: BlobStore>(store: &S, r: &ObjRef<Self>) -> (res: Result<Self, Error>)
        ensures
            res matches Ok(v) ==> Self::held(readable::<S>(store.raw()), r@, v.model()),
            S::infallible() && (exists|m: Self::Model|
                Self::held(readable::<S>(store.raw()), r@, m)) ==> res is Ok,
    ;
}

/// Putting blobs one after the other is putting the first of them, then
/// the rest.
pub proof fn lemma_put_all_append<S: BlobStore>(
    raw: Blobs,
    first: Seq<Seq<u8>>,
    rest: Seq<Seq<u8>>,
)
    ensures
        put_all::<S>(raw, first + rest) == put_all::<S>(put_all::<S>(raw, first), rest),
    decreases rest.len(),
{
    if rest.len() == 0 {
        assert(first + rest =~= first);
    } else {
        assert((first + rest).drop_last() =~= first + rest.drop_last());
        assert((first + rest).last() == rest.last());
        lemma_put_all_append::<S>(raw, first, rest.drop_last());
    }
}

/// Putting blobs changes nothing that is filed.
pub proof fn lemma_put_all_keeps<S: BlobStore>(raw: Blobs, blobs: Seq<Seq<u8>>)
    ensures
        extends(raw, put_all::<S>(raw, blobs)),
    decreases blobs.len(),
{
    if blobs.len() > 0 {
        lemma_put_all_keeps::<S>(raw, blobs.drop_last());
    }
}

/// After blobs were put, the store gives each of them back, if none of
/// them found its place taken by something else. And whatever else found
/// its place free or its own before, and shares its place with none of the
/// blobs, still does.
pub proof fn lemma_put_all_sits<S: BlobStore>(raw: Blobs, blobs: Seq<Seq<u8>>)
    requires
        all_puttable::<S>(blobs),
        no_clash::<S>(raw, blobs),
    ensures
        all_sit::<S>(put_all::<S>(raw, blobs), blobs),
        forall|d: Seq<u8>|
            agrees::<S>(raw, d) && (forall|i: int|
                0 <= i < blobs.len() && address::<S>(#[trigger] blobs[i]) == address::<S>(d)
                    ==> blobs[i] == d) ==> #[trigger] agrees::<S>(put_all::<S>(raw, blobs), d),
    decreases blobs.len(),
{
    if blobs.len() > 0 {
        let init = blobs.drop_last();
        let last = blobs.last();
        let mid = put_all::<S>(raw, init);
        let end = put_all::<S>(raw, blobs);
        assert forall|i: int| 0 <= i < init.len() implies puttable::<S>(#[trigger] init[i]) by {
            assert(init[i] == blobs[i]);
        }
        assert forall|i: int| 0 <= i < init.len() implies agrees::<S>(raw, #[trigger] init[i]) by {
            assert(init[i] == blobs[i]);
        }
        assert forall|i: int, j: int|
            0 <= i < init.len() && 0 <= j < init.len() && address::<S>(#[trigger] init[i])
                == address::<S>(#[trigger] init[j]) implies init[i] == init[j] by {
            assert(init[i] == blobs[i] && init[j] == blobs[j]);
        }
        lemma_put_all_sits::<S>(raw, init);
        assert(agrees::<S>(mid, last)) by {
            assert(agrees::<S>(raw, last));
            assert forall|i: int|
                0 <= i < init.len() && address::<S>(#[trigger] init[i]) == address::<S>(
                    last,
                ) implies init[i] == last by {
                assert(init[i] == blobs[i]);
                assert(last == blobs[blobs.len() - 1]);
            }
        }
        assert(puttable::<S>(last));
        assert(sits::<S>(end, last));
        assert forall|i: int| 0 <= i < blobs.len() implies sits::<S>(end, #[trigger] blobs[i]) by {
            if i < init.len() {
                assert(init[i] == blobs[i]);
                assert(sits::<S>(mid, init[i]));
            }
        }
        assert forall|d: Seq<u8>|
            agrees::<S>(raw, d) && (forall|i: int|
                0 <= i < blobs.len() && address::<S>(#[trigger] blobs[i]) == address::<S>(d)
                    ==> blobs[i] == d) implies #[trigger] agrees::<S>(end, d) by {
            assert forall|i: int|
                0 <= i < init.len() && address::<S>(#[trigger] init[i]) == address::<S>(
                    d,
                ) implies init[i] == d by {
                assert(init[i] == blobs[i]);
            }
            assert(agrees::<S>(mid, d));
            if address::<S>(last) == address::<S>(d) {
                assert(blobs[blobs.len() - 1] == d);
            }
        }
    }
}

/// Loading what was stored gives the value that was stored, if none of its
/// blobs found its place in the store taken by something else: neither by
/// what the store held before, nor by another of its blobs.
///
/// `before` and `after` are what the store held before and after `store`
/// of `v`, `r` is the reference that `store` gave, and `loaded` what `load`
/// then gave for `r`.
pub proof fn lemma_load_after_store<T: Obj, S: BlobStore>(
    v: T,
    before: Blobs,
    after: Blobs,
    r: Seq<u8>,
    loaded: T::Model,
)
    requires
        store_outcome::<S>(
            v.owned(addresses::<S>()).push(v.own(addresses::<S>())),
            before,
            Ok(r),
            after,
        ),
        no_clash::<S>(before, v.owned(addresses::<S>()).push(v.own(addresses::<S>()))),
        T::held(readable::<S>(after), r, loaded),
    ensures
        loaded == v.model(),
{
    let parts = v.owned(addresses::<S>()).push(v.own(addresses::<S>()));
    lemma_put_all_sits::<S>(before, parts);
    v.lemma_parts_held::<S>(after);
    T::lemma_held_once(readable::<S>(after), r, loaded, v.model());
}

/// The reference that `store` gives depends on the value alone: not on the
/// store, nor on what it holds.
pub proof fn lemma_store_is_deterministic<T: Obj, S: BlobStore>(
    v: T,
    before1: Blobs,
    after1: Blobs,
    r1: Seq<u8>,
    before2: Blobs,
    after2: Blobs,
    r2: Seq<u8>,
)
    requires
        store_outcome::<S>(
            v.owned(addresses::<S>()).push(v.own(addresses::<S>())),
            before1,
            Ok(r1),
            after1,
        ),
        store_outcome::<S>(
            v.owned(addresses::<S>()).push(v.own(addresses::<S>())),
            before2,
            Ok(r2),
            after2,
        ),
    ensures
        r1 == r2,
{
}

/// A blob as a value: it is stored as itself, and its reference is its
/// hash.
pub struct Buf(pub Vec<u8>);

impl Obj for Buf {
    type Model = Seq<u8>;

    open spec fn model(&self) -> Seq<u8> {
        self.0@
    }

    open spec fn owned(&self, addr: spec_fn(Seq<u8>) -> Seq<u8>) -> Seq<Seq<u8>> {
        Seq::empty()
    }

    open spec fn own(&self, addr: spec_fn(Seq<u8>) -> Seq<u8>) -> Seq<u8> {
        self.0@
    }

    open spec fn held(blobs: Blobs, h: Seq<u8>, m: Seq<u8>) -> bool {
        blobs.contains_key(h) && blobs[h] == m
    }

    proof fn lemma_held_once(blobs: Blobs, h: Seq<u8>, m1: Seq<u8>, m2: Seq<u8>) {
    }

    proof fn lemma_parts_held<S: BlobStore>(&self, raw: Blobs) {
        let parts = Seq::<Seq<u8>>::empty().push(self.0@);
        assert(sits::<S>(raw, parts[0]));
    }

    fn store<S: BlobStore>(&self, store: &mut S) -> (res: Result<ObjRef<Self>, Error>) {
        let ghost parts = Seq::<Seq<u8>>::empty().push(self.0@);
        let ghost raw0 = store.raw();
        let res = store.put_buf(self.0.as_slice());
        proof {
            assert(parts.drop_last() =~= Seq::<Seq<u8>>::empty());
            assert(put_all::<S>(raw0, parts.drop_last()) == raw0);
            if let Ok(h) = res {
                crate::blob::lemma_hash_text(h);
            } else {
                assert(parts.take(0) =~= parts.drop_last());
                if S::infallible() && all_encodable::<S>(parts) {
                    assert(S::encoded(parts[0]) is Some);
                }
            }
        }
        match res {
            Ok(h) => Ok(ObjRef::new(h)),
            Err(e) => Err(e),
        }
    }

    fn load<S: BlobStore>(store: &S, r: &ObjRef<Self>) -> (res: Result<Self, Error>) {
        match store.get_vec(r.hash()) {
            Ok(buf) => Ok(Buf(buf)),
            Err(e) => Err(e),
        }
    }
}

/// The models of the values of `v`, in order.
pub open spec fn obj_models<O: Obj>(v: Seq<O>) -> Seq<O::Model> {
    Seq::new(v.len(), |i: int| v[i].model())
}

/// All blobs of the value `o`: those of the values it owns, then its own.
pub open spec fn parts_of<O: Obj>(o: O, addr: spec_fn(Seq<u8>) -> Seq<u8>) -> Seq<Seq<u8>> {
    o.owned(addr).push(o.own(addr))
}

/// All blobs of the values of `v`, value by value.
pub open spec fn parts_each<O: Obj>(v: Seq<O>, addr: spec_fn(Seq<u8>) -> Seq<u8>) -> Seq<Seq<u8>>
    decreases v.len(),
{
    if v.len() == 0 {
        Seq::empty()
    } else {
        parts_each::<O>(v.drop_last(), addr) + parts_of::<O>(v.last(), addr)
    }
}

/// The references to the values of `v`: the address of each one's own
/// blob.
pub open spec fn refs_of<O: Obj>(v: Seq<O>, addr: spec_fn(Seq<u8>) -> Seq<u8>) -> Seq<Seq<u8>> {
    Seq::new(v.len(), |i: int| addr(v[i].own(addr)))
}

/// The blob of a list of the values `v`: the encoding of the list of the
/// references to them.
pub open spec fn list_blob<O: Obj>(v: Seq<O>, addr: spec_fn(Seq<u8>) -> Seq<u8>) -> Seq<u8> {
    <Vec<ObjRef<O>> as SerDe>::encode(refs_of::<O>(v, addr))
}

/// Whether the blobs `blobs` hold some value of type `O` under `h`.
pub open spec fn holds_some<O: Obj>(blobs: Blobs, h: Seq<u8>) -> bool {
    exists|m: O::Model| O::held(blobs, h, m)
}

/// Each blob of each value of `v` is one of the blobs of `v`'s values.
pub proof fn lemma_part_index<O: Obj>(
    v: Seq<O>,
    i: int,
    j: int,
    addr: spec_fn(Seq<u8>) -> Seq<u8>,
) -> (k: int)
    requires
        0 <= i < v.len(),
        0 <= j < parts_of::<O>(v[i], addr).len(),
    ensures
        0 <= k < parts_each::<O>(v, addr).len(),
        parts_each::<O>(v, addr)[k] == parts_of::<O>(v[i], addr)[j],
    decreases v.len(),
{
    let init = parts_each::<O>(v.drop_last(), addr);
    if i == v.len() - 1 {
        init.len() + j
    } else {
        assert(v.drop_last()[i] == v[i]);
        lemma_part_index::<O>(v.drop_last(), i, j, addr)
    }
}

/// The blobs of the first `n + 1` values of `v` are those of the first `n`
/// and those of the next.
pub proof fn lemma_parts_each_next<O: Obj>(v: Seq<O>, n: int, addr: spec_fn(Seq<u8>) -> Seq<u8>)
    requires
        0 <= n < v.len(),
    ensures
        parts_each::<O>(v.take(n + 1), addr) == parts_each::<O>(v.take(n), addr) + parts_of::<O>(
            v[n],
            addr,
        ),
{
    assert(v.take(n + 1).drop_last() =~= v.take(n));
    assert(v.take(n + 1).last() == v[n]);
}

/// The blobs of the first `i` values of `v` and the first `k` blobs of the
/// next are the first blobs of the list of `v`, and not all of them.
proof fn lemma_part_prefix<O: Obj>(
    v: Seq<O>,
    i: int,
    k: int,
    list: Seq<u8>,
    addr: spec_fn(Seq<u8>) -> Seq<u8>,
)
    requires
        0 <= i < v.len(),
        0 <= k <= parts_of::<O>(v[i], addr).len(),
    ensures
        ({
            let all = parts_each::<O>(v, addr).push(list);
            let done = parts_each::<O>(v.take(i), addr);
            &&& done.len() + k < all.len()
            &&& all.take(done.len() + k) == done + parts_of::<O>(v[i], addr).take(k)
        }),
    decreases v.len() - i,
{
    let all = parts_each::<O>(v, addr).push(list);
    let done = parts_each::<O>(v.take(i), addr);
    let next = parts_of::<O>(v[i], addr);
    lemma_parts_each_next::<O>(v, i, addr);
    let more = parts_each::<O>(v.take(i + 1), addr);
    if i + 1 == v.len() {
        assert(v.take(i + 1) =~= v);
    } else {
        lemma_part_prefix::<O>(v, i + 1, 0, list, addr);
        assert(parts_of::<O>(v[i + 1], addr).take(0) =~= Seq::<Seq<u8>>::empty());
        assert(all.take(more.len() as int) =~= more);
    }
    assert(all.take(more.len() as int) =~= more);
    assert(all.take(done.len() + k) =~= done + next.take(k));
}

/// What holds of each blob of a list's values, and of the list's own blob,
/// holds of each blob of each value: here, that the store gives it back.
proof fn lemma_all_sit_each<O: Obj, S: BlobStore>(v: Seq<O>, list: Seq<u8>, raw: Blobs, i: int)
    requires
        all_sit::<S>(raw, parts_each::<O>(v, addresses::<S>()).push(list)),
        0 <= i < v.len(),
    ensures
        all_sit::<S>(raw, parts_of::<O>(v[i], addresses::<S>())),
{
    let addr = addresses::<S>();
    let all = parts_each::<O>(v, addr).push(list);
    assert forall|j: int| 0 <= j < parts_of::<O>(v[i], addr).len() implies sits::<S>(
        raw,
        #[trigger] parts_of::<O>(v[i], addr)[j],
    ) by {
        let k = lemma_part_index::<O>(v, i, j, addr);
        assert(sits::<S>(raw, all[k]));
    }
}

/// What holds of each blob of a list's values, and of the list's own blob,
/// holds of each blob of each value: here, that its form can be made.
proof fn lemma_all_encodable_each<O: Obj, S: BlobStore>(v: Seq<O>, list: Seq<u8>, i: int)
    requires
        all_encodable::<S>(parts_each::<O>(v, addresses::<S>()).push(list)),
        0 <= i < v.len(),
    ensures
        all_encodable::<S>(parts_of::<O>(v[i], addresses::<S>())),
{
    let addr = addresses::<S>();
    let all = parts_each::<O>(v, addr).push(list);
    assert forall|j: int| 0 <= j < parts_of::<O>(v[i], addr).len() implies S::encoded(
        #[trigger] parts_of::<O>(v[i], addr)[j],
    ) is Some by {
        let k = lemma_part_index::<O>(v, i, j, addr);
        assert(S::encoded(all[k]) is Some);
    }
}

/// A vector of values is stored as the values, then a list of the
/// references to them.
impl<O: Obj> Obj for Vec<O> {
    type Model = Seq<O::Model>;

    open spec fn model(&self) -> Seq<O::Model> {
        obj_models::<O>(self@)
    }

    open spec fn owned(&self, addr: spec_fn(Seq<u8>) -> Seq<u8>) -> Seq<Seq<u8>> {
        parts_each::<O>(self@, addr)
    }

    open spec fn own(&self, addr: spec_fn(Seq<u8>) -> Seq<u8>) -> Seq<u8> {
        list_blob::<O>(self@, addr)
    }

    open spec fn held(blobs: Blobs, h: Seq<u8>, m: Seq<O::Model>) -> bool {
        &&& blobs.contains_key(h)
        &&& <Vec<ObjRef<O>> as SerDe>::decode(blobs[h]) matches Ok((refs, _))
        &&& refs.len() == m.len()
        &&& forall|i: int| 0 <= i < m.len() ==> O::held(blobs, refs[i], #[trigger] m[i])
    }

    proof fn lemma_held_once(blobs: Blobs, h: Seq<u8>, m1: Seq<O::Model>, m2: Seq<O::Model>) {
        let refs = <Vec<ObjRef<O>> as SerDe>::decode(blobs[h]).unwrap().0;
        assert forall|i: int| 0 <= i < m1.len() implies m1[i] == m2[i] by {
            O::lemma_held_once(blobs, refs[i], m1[i], m2[i]);
        }
        assert(m1 =~= m2);
    }

    proof fn lemma_parts_held<S: BlobStore>(&self, raw: Blobs) {
        let addr = addresses::<S>();
        let v = self@;
        let blobs = readable::<S>(raw);
        let list = list_blob::<O>(v, addr);
        let refs = refs_of::<O>(v, addr);
        let m = self.model();
        let all = self.owned(addr).push(list);
        assert(self.len() == v.len());
        assert forall|i: int| 0 <= i < v.len() implies (#[trigger] refs[i]).len() == 20 && O::held(
            blobs,
            refs[i],
            m[i],
        ) by {
            let o = v[i];
            lemma_all_sit_each::<O, S>(v, list, raw, i);
            assert(sits::<S>(raw, parts_of::<O>(o, addr)[o.owned(addr).len() as int]));
            o.lemma_parts_held::<S>(raw);
        }
        <Vec<ObjRef<O>> as SerDe>::lemma_decode_encode(refs, Seq::empty());
        assert(list + Seq::<u8>::empty() =~= list);
        assert(sits::<S>(raw, all[all.len() - 1]));
        assert(blobs[address::<S>(list)] == list);
    }

    fn store<S: BlobStore>(&self, store: &mut S) -> (res: Result<ObjRef<Self>, Error>) {
        let ghost addr = addresses::<S>();
        let ghost raw0 = store.raw();
        let ghost v = self@;
        let ghost list = list_blob::<O>(v, addr);
        let ghost all = parts_each::<O>(v, addr).push(list);
        let mut hash_list: Vec<ObjRef<O>> = Vec::new();
        let mut i: usize = 0;
        assert(v.take(0) =~= Seq::<O>::empty());
        while i < self.len()
            invariant
                i <= v.len(),
                v == self@,
                addr == addresses::<S>(),
                list == list_blob::<O>(v, addr),
                all == parts_each::<O>(v, addr).push(list),
                raw0 == old(store).raw(),
                extends(raw0, store.raw()),
                store.raw() == put_all::<S>(raw0, parts_each::<O>(v.take(i as int), addr)),
                all_puttable::<S>(parts_each::<O>(v.take(i as int), addr)),
                hash_list@.len() == i,
                forall|j: int|
                    0 <= j < i ==> (#[trigger] hash_list@[j])@ == refs_of::<O>(v, addr)[j],
            decreases v.len() - i,
        {
            let ghost done = parts_each::<O>(v.take(i as int), addr);
            let ghost next = parts_of::<O>(v[i as int], addr);
            let res = self[i].store(store);
            proof {
                lemma_parts_each_next::<O>(v, i as int, addr);
                if res is Ok {
                    lemma_put_all_append::<S>(raw0, done, next);
                    assert forall|k: int| 0 <= k < (done + next).len() implies puttable::<S>(
                        #[trigger] (done + next)[k],
                    ) by {
                        if k >= done.len() {
                            assert((done + next)[k] == next[k - done.len()]);
                        }
                    }
                } else {
                    let k = choose|k: int|
                        0 <= k < next.len() && store.raw() == put_all::<S>(
                            put_all::<S>(raw0, done),
                            #[trigger] next.take(k),
                        );
                    lemma_put_all_append::<S>(raw0, done, next.take(k));
                    lemma_part_prefix::<O>(v, i as int, k, list, addr);
                    if S::infallible() && all_encodable::<S>(all) {
                        lemma_all_encodable_each::<O, S>(v, list, i as int);
                    }
                }
            }
            match res {
                Ok(r) => {
                    hash_list.push(r);
                },
                Err(e) => {
                    return Err(e);
                },
            }
            i += 1;
        }
        assert(v.take(i as int) =~= v);
        let mut buf: Vec<u8> = Vec::new();
        match hash_list.serialize(&mut buf) {
            Ok(()) => {},
            Err(e) => {
                return Err(e);
            },
        }
        assert(models_of::<ObjRef<O>>(hash_list@) =~= refs_of::<O>(v, addr));
        assert(buf@ =~= list);
        let ghost mid = store.raw();
        let res = store.put_vec(buf);
        proof {
            assert(all.drop_last() =~= parts_each::<O>(v, addr));
            assert(all.last() == list);
            if let Ok(h) = res {
                crate::blob::lemma_hash_text(h);
                assert(store.raw() == put_all::<S>(raw0, all));
                assert forall|k: int| 0 <= k < all.len() implies puttable::<S>(
                    #[trigger] all[k],
                ) by {
                    if k < all.len() - 1 {
                        assert(all[k] == parts_each::<O>(v, addr)[k]);
                    }
                }
            } else {
                assert(all.take(all.len() - 1) =~= all.drop_last());
                if S::infallible() && all_encodable::<S>(all) {
                    assert(S::encoded(all[all.len() - 1]) is Some);
                }
            }
            let end = store.raw();
            assert forall|k: Seq<u8>| #[trigger] raw0.contains_key(k) implies end.contains_key(k)
                && end[k] == raw0[k] by {
                assert(mid.contains_key(k) && mid[k] == raw0[k]);
            }
        }
        match res {
            Ok(h) => Ok(ObjRef::new(h)),
            Err(e) => Err(e),
        }
    }

    fn load<S: BlobStore>(store: &S, r: &ObjRef<Self>) -> (res: Result<Self, Error>) {
        let ghost blobs = readable::<S>(store.raw());
        let ghost owed = S::infallible() && exists|m: Seq<O::Model>| Self::held(blobs, r@, m);
        let buf = match store.get_vec(r.hash()) {
            Ok(buf) => buf,
            Err(e) => {
                return Err(e);
            },
        };
        assert(blobs.contains_key(r@) && blobs[r@] == buf@);
        let mut rest: &[u8] = buf.as_slice();
        let hash_list = match Vec::<ObjRef<O>>::deserialize(&mut rest) {
            Ok(hash_list) => hash_list,
            Err(e) => {
                return Err(e);
            },
        };
        let ghost refs = models_of::<ObjRef<O>>(hash_list@);
        proof {
            if owed {
                let m = choose|m: Seq<O::Model>| Self::held(blobs, r@, m);
                assert forall|j: int| 0 <= j < refs.len() implies #[trigger] holds_some::<O>(
                    blobs,
                    refs[j],
                ) by {
                    assert(O::held(blobs, refs[j], m[j]));
                }
            }
        }
        let mut v: Vec<O> = Vec::new();
        let mut i: usize = 0;
        while i < hash_list.len()
            invariant
                i <= hash_list@.len(),
                v@.len() == i,
                blobs == readable::<S>(store.raw()),
                refs == models_of::<ObjRef<O>>(hash_list@),
                refs.len() == hash_list@.len(),
                owed == (S::infallible() && exists|m: Seq<O::Model>| Self::held(blobs, r@, m)),
                owed ==> forall|j: int|
                    0 <= j < refs.len() ==> #[trigger] holds_some::<O>(blobs, refs[j]),
                forall|j: int|
                    0 <= j < i ==> O::held(blobs, refs[j], #[trigger] obj_models::<O>(v@)[j]),
            decreases hash_list@.len() - i,
        {
            let ghost so_far = obj_models::<O>(v@);
            assert(hash_list@[i as int]@ == refs[i as int]);
            assert(owed ==> holds_some::<O>(blobs, refs[i as int]));
            match O::load(store, &hash_list[i]) {
                Ok(o) => {
                    v.push(o);
                    assert(obj_models::<O>(v@) =~= so_far.push(o.model()));
                },
                Err(e) => {
                    return Err(e);
                },
            }
            i += 1;
        }
        Ok(v)
    }
}

} // verus!
