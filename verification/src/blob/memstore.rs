use super::{filed, sha1_digest, shared, BlobStore, Blobs, Error};
use crate::utils::ioutil::Sink;
use std::rc::Rc;
use vstd::prelude::*;
use vstd::slice::{slice_subrange, slice_to_vec};
use vstd::string::*;

verus! {

/// One blob and the hash it is filed under.
struct Entry {
    hash: crate::blob::Hash,
    bytes: Rc<[u8]>,
}

/// A store that keeps its blobs in memory, as they are, in a list of
/// entries. Of two entries with one hash only the earlier would count, but
/// no operation makes a second: a store that is `distinct` stays so.
pub struct MemStore(Vec<Entry>);

impl MemStore {
    /// Whether no two entries are filed under one hash.
    pub closed spec fn distinct(&self) -> bool {
        forall|i: int, j: int|
            0 <= i < j < self.0@.len() ==> (#[trigger] self.0@[i]).hash@ != (
            #[trigger] self.0@[j]).hash@
    }

    /// Whether entry `i` is the first one filed under `h`.
    spec fn first_at(self, h: Seq<u8>, i: int) -> bool {
        &&& 0 <= i < self.0@.len()
        &&& self.0@[i].hash@ == h
        &&& forall|j: int| 0 <= j < i ==> (#[trigger] self.0@[j]).hash@ != h
    }

    /// Whether something is filed under `h`.
    spec fn has(self, h: Seq<u8>) -> bool {
        exists|i: int| self.first_at(h, i)
    }

    /// Where in the list the entry for `h` stands.
    spec fn position(self, h: Seq<u8>) -> int {
        choose|i: int| self.first_at(h, i)
    }

    /// At most one entry is the first one filed under `h`.
    proof fn lemma_first_is_unique(self, h: Seq<u8>, i: int, j: int)
        requires
            self.first_at(h, i),
            self.first_at(h, j),
        ensures
            i == j,
    {
        if i < j {
            assert(self.0@[i].hash@ != h);
        }
        if j < i {
            assert(self.0@[j].hash@ != h);
        }
    }

    pub fn new() -> (s: Self)
        ensures
            s.raw() == Blobs::empty(),
            s.distinct(),
    {
        let s = Self(Vec::new());
        assert(s.raw() =~= Blobs::empty());
        s
    }

    /// Where the entry for `h` stands, if there is one.
    fn find(&self, h: &crate::blob::Hash) -> (at: Option<usize>)
        ensures
            match at {
                Some(i) => self.first_at(h@, i as int) && self.has(h@) && self.position(h@) == i,
                None => !self.has(h@) && forall|j: int|
                    0 <= j < self.0@.len() ==> (#[trigger] self.0@[j]).hash@ != h@,
            },
    {
        let mut i: usize = 0;
        while i < self.0.len()
            invariant
                i <= self.0@.len(),
                forall|j: int| 0 <= j < i ==> (#[trigger] self.0@[j]).hash@ != h@,
            decreases self.0@.len() - i,
        {
            if self.0[i].hash.same(h) {
                proof {
                    assert(self.first_at(h@, i as int));
                    self.lemma_first_is_unique(h@, i as int, self.position(h@));
                }
                return Some(i);
            }
            i += 1;
        }
        None
    }

    /// Files `buf` under `hash`, unless something is filed there already,
    /// and gives `hash` back.
    pub fn insert(&mut self, hash: crate::blob::Hash, buf: &[u8]) -> (h: crate::blob::Hash)
        ensures
            h == hash,
            final(self).raw() == filed(old(self).raw(), hash@, buf@),
            old(self).distinct() ==> final(self).distinct(),
    {
        if self.find(&hash).is_none() {
            let ghost before = *self;
            let entry = Entry { hash, bytes: shared(buf) };
            self.0.push(entry);
            proof {
                let n = before.0@.len() as int;
                assert(self.0@[n].hash@ == hash@);
                assert(self.first_at(hash@, n));
                assert forall|k: Seq<u8>, i: int| before.first_at(k, i) implies self.first_at(
                    k,
                    i,
                ) by {
                    assert(self.0@[i] == before.0@[i]);
                    assert forall|j: int| 0 <= j < i implies (#[trigger] self.0@[j]).hash@ != k by {
                        assert(self.0@[j] == before.0@[j]);
                    }
                }
                assert forall|k: Seq<u8>, i: int| k != hash@ && self.first_at(
                    k,
                    i,
                ) implies before.first_at(k, i) by {
                    assert(i < n);
                    assert(self.0@[i] == before.0@[i]);
                    assert forall|j: int| 0 <= j < i implies (#[trigger] before.0@[j]).hash@
                        != k by {
                        assert(self.0@[j] == before.0@[j]);
                    }
                }
                assert forall|k: Seq<u8>| self.has(k) <==> (before.has(k) || k == hash@) by {
                    if before.has(k) {
                        assert(self.first_at(k, before.position(k)));
                    }
                    if self.has(k) && k != hash@ {
                        assert(before.first_at(k, self.position(k)));
                    }
                }
                assert forall|k: Seq<u8>| before.has(k) implies self.0@[self.position(k)].bytes@
                    == before.0@[before.position(k)].bytes@ by {
                    let i = before.position(k);
                    assert(self.first_at(k, i));
                    self.lemma_first_is_unique(k, i, self.position(k));
                }
                self.lemma_first_is_unique(hash@, n, self.position(hash@));
                assert(self.raw() =~= before.raw().insert(hash@, buf@));
            }
        }
        hash
    }
}

impl BlobStore for MemStore {
    closed spec fn raw(&self) -> Blobs {
        Map::new(|h: Seq<u8>| self.has(h), |h: Seq<u8>| self.0@[self.position(h)].bytes@)
    }

    open spec fn encoded(data: Seq<u8>) -> Option<Seq<u8>> {
        Some(data)
    }

    open spec fn decoded(rep: Seq<u8>) -> Option<Seq<u8>> {
        Some(rep)
    }

    open spec fn infallible() -> bool {
        true
    }

    fn put(&mut self, r: &mut &[u8]) -> (res: Result<crate::blob::Hash, Error>)
        ensures
            old(self).distinct() ==> final(self).distinct(),
    {
        let buf: &[u8] = *r;
        *r = slice_subrange(buf, buf.len(), buf.len());
        self.put_buf(buf)
    }

    fn get<W: Sink>(&self, h: &crate::blob::Hash, w: &mut W) -> (res: Result<(), Error>) {
        match self.find(h) {
            Some(i) => w.write_all(&self.0[i].bytes),
            None => Err(Error::NotFound),
        }
    }

    fn get_buf(&self, h: &crate::blob::Hash) -> (res: Result<Rc<[u8]>, Error>) {
        match self.find(h) {
            Some(i) => Ok(self.0[i].bytes.clone()),
            None => Err(Error::NotFound),
        }
    }

    fn get_vec(&self, h: &crate::blob::Hash) -> (res: Result<Vec<u8>, Error>) {
        match self.find(h) {
            Some(i) => Ok(slice_to_vec(&self.0[i].bytes)),
            None => Err(Error::NotFound),
        }
    }

    fn put_str(&mut self, s: &str) -> (res: Result<crate::blob::Hash, Error>)
        ensures
            old(self).distinct() ==> final(self).distinct(),
    {
        self.put_buf(s.as_bytes())
    }

    fn put_buf(&mut self, buf: &[u8]) -> (res: Result<crate::blob::Hash, Error>)
        ensures
            old(self).distinct() ==> final(self).distinct(),
    {
        let hash = crate::blob::Hash::new(sha1_digest(buf));
        Ok(self.insert(hash, buf))
    }

    fn put_vec(&mut self, buf: Vec<u8>) -> (res: Result<crate::blob::Hash, Error>)
        ensures
            old(self).distinct() ==> final(self).distinct(),
    {
        let hash = crate::blob::Hash::new(sha1_digest(buf.as_slice()));
        Ok(self.insert(hash, buf.as_slice()))
    }
}

} // verus!
