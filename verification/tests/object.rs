use std::collections::HashMap;
use tools::blob::memstore::MemStore;
use tools::blob::zipped::ZippedStore;
use tools::blob::{BlobStore, Error, FormatError};
use tools::object::{Obj, ObjRef, SerDe};
use tools::utils::ioutil::Sink;
use vstd::map::Map;
use vstd::prelude::{int, FnSpec};
use vstd::seq::Seq;

#[derive(PartialEq, Debug)]
enum TreeEntry {
    Blob(Buf),
    Tree(Tree),
}

enum TreeEntrySer {
    Blob(ObjRef<Buf>),
    Tree(ObjRef<Tree>),
}

impl SerDe for TreeEntrySer {
    type Model = ();

    fn model(&self) {
        unreachable!()
    }

    fn storable(_m: ()) -> bool {
        unreachable!()
    }

    fn encode(_m: ()) -> Seq<u8> {
        unreachable!()
    }

    fn decode(_bytes: Seq<u8>) -> Result<((), int), FormatError> {
        unreachable!()
    }

    fn lemma_decode_encode(_m: (), _rest: Seq<u8>) {
        unreachable!()
    }

    fn serialize<W: Sink>(&self, w: &mut W) -> Result<(), Error> {
        match self {
            TreeEntrySer::Blob(r) => {
                w.write_all(&[0])?;
                r.serialize(w)?;
            }
            TreeEntrySer::Tree(r) => {
                w.write_all(&[1])?;
                r.serialize(w)?;
            }
        }
        Ok(())
    }

    fn deserialize(r: &mut &[u8]) -> Result<Self, Error> {
        match tools::object::read_tag(r, 2)? {
            0 => Ok(TreeEntrySer::Blob(ObjRef::deserialize(r)?)),
            1 => Ok(TreeEntrySer::Tree(ObjRef::deserialize(r)?)),
            _ => unreachable!(),
        }
    }
}

#[derive(PartialEq, Debug)]
struct Buf(Vec<u8>);

impl Obj for Buf {
    type Model = ();

    fn model(&self) {
        unreachable!()
    }

    fn owned(&self, _addr: FnSpec<(Seq<u8>,), Seq<u8>>) -> Seq<Seq<u8>> {
        unreachable!()
    }

    fn own(&self, _addr: FnSpec<(Seq<u8>,), Seq<u8>>) -> Seq<u8> {
        unreachable!()
    }

    fn held(_blobs: Map<Seq<u8>, Seq<u8>>, _h: Seq<u8>, _m: ()) -> bool {
        unreachable!()
    }

    fn lemma_held_once(_blobs: Map<Seq<u8>, Seq<u8>>, _h: Seq<u8>, _m1: (), _m2: ()) {
        unreachable!()
    }

    fn lemma_parts_held<S: BlobStore>(&self, _raw: Map<Seq<u8>, Seq<u8>>) {
        unreachable!()
    }

    fn store<S: BlobStore>(&self, store: &mut S) -> Result<ObjRef<Self>, Error> {
        Ok(ObjRef::new(store.put_vec(self.0.clone())?))
    }

    fn load<S: BlobStore>(store: &S, r: &ObjRef<Self>) -> Result<Self, Error> {
        Ok(Buf(store.get_vec(r.hash())?))
    }
}

#[derive(PartialEq, Debug)]
struct Tree {
    entries: HashMap<String, TreeEntry>,
}

struct TreeSer {
    entries: Vec<(String, TreeEntrySer)>,
}

impl SerDe for TreeSer {
    type Model = ();

    fn model(&self) {
        unreachable!()
    }

    fn storable(_m: ()) -> bool {
        unreachable!()
    }

    fn encode(_m: ()) -> Seq<u8> {
        unreachable!()
    }

    fn decode(_bytes: Seq<u8>) -> Result<((), int), FormatError> {
        unreachable!()
    }

    fn lemma_decode_encode(_m: (), _rest: Seq<u8>) {
        unreachable!()
    }

    fn serialize<W: Sink>(&self, w: &mut W) -> Result<(), Error> {
        self.entries.serialize(w)
    }

    fn deserialize(r: &mut &[u8]) -> Result<Self, Error> {
        Ok(Self {
            entries: Vec::<(String, TreeEntrySer)>::deserialize(r)?,
        })
    }
}

impl Obj for Tree {
    type Model = ();

    fn model(&self) {
        unreachable!()
    }

    fn owned(&self, _addr: FnSpec<(Seq<u8>,), Seq<u8>>) -> Seq<Seq<u8>> {
        unreachable!()
    }

    fn own(&self, _addr: FnSpec<(Seq<u8>,), Seq<u8>>) -> Seq<u8> {
        unreachable!()
    }

    fn held(_blobs: Map<Seq<u8>, Seq<u8>>, _h: Seq<u8>, _m: ()) -> bool {
        unreachable!()
    }

    fn lemma_held_once(_blobs: Map<Seq<u8>, Seq<u8>>, _h: Seq<u8>, _m1: (), _m2: ()) {
        unreachable!()
    }

    fn lemma_parts_held<S: BlobStore>(&self, _raw: Map<Seq<u8>, Seq<u8>>) {
        unreachable!()
    }

    fn store<S: BlobStore>(&self, store: &mut S) -> Result<ObjRef<Self>, Error> {
        let mut to_ser = Vec::new();
        for (name, entry) in &self.entries {
            match entry {
                TreeEntry::Blob(buf) => {
                    to_ser.push((name.clone(), TreeEntrySer::Blob(buf.store(store)?)));
                }
                TreeEntry::Tree(tree) => {
                    to_ser.push((name.clone(), TreeEntrySer::Tree(tree.store(store)?)));
                }
            }
        }
        to_ser.sort_by(|(name1, _), (name2, _)| name1.cmp(name2));
        let mut buf = Vec::new();
        TreeSer { entries: to_ser }.serialize(&mut buf)?;
        Ok(ObjRef::new(store.put_vec(buf)?))
    }

    fn load<S: BlobStore>(store: &S, r: &ObjRef<Self>) -> Result<Self, Error> {
        let buf = store.get_vec(r.hash())?;
        let ser = TreeSer::deserialize(&mut buf.as_slice())?;
        let mut entries = HashMap::new();
        for (name, entry_ser) in ser.entries {
            match entry_ser {
                TreeEntrySer::Blob(r) => {
                    entries.insert(name, TreeEntry::Blob(Buf::load(store, &r)?));
                }
                TreeEntrySer::Tree(r) => {
                    entries.insert(name, TreeEntry::Tree(Tree::load(store, &r)?));
                }
            }
        }
        Ok(Self { entries })
    }
}

fn fib_tree(n: usize) -> Tree {
    let mut entries = HashMap::new();
    if n == 0 {
        entries.insert("fib 0".into(), TreeEntry::Blob(Buf(vec![0])));
    } else if n == 1 {
        entries.insert("fib 1".into(), TreeEntry::Blob(Buf(vec![1])));
    } else {
        entries.insert(format!("fib {}", n - 1), TreeEntry::Tree(fib_tree(n - 1)));
        entries.insert(format!("fib {}", n - 2), TreeEntry::Tree(fib_tree(n - 2)));
    }
    Tree { entries }
}

#[test]
fn test_obj() -> Result<(), Error> {
    let mut store = ZippedStore::new(MemStore::new());
    let test_tree = fib_tree(10);
    let r = test_tree.store(&mut store)?;
    let test_tree_2 = Tree::load(&store, &r)?;
    assert_eq!(test_tree.entries, test_tree_2.entries);
    println!("{:?}", test_tree_2);
    Ok(())
}

#[test]
fn equal_trees_get_equal_references() -> Result<(), Error> {
    let mut store = MemStore::new();
    let r1 = fib_tree(6).store(&mut store)?;
    let r2 = fib_tree(6).store(&mut store)?;
    let r3 = fib_tree(7).store(&mut store)?;
    assert_eq!(r1.hash(), r2.hash());
    assert_ne!(r1.hash(), r3.hash());
    Ok(())
}

#[test]
fn an_unknown_tag_is_a_format_error() {
    let mut bytes = vec![2u8];
    bytes.extend_from_slice(&[0; 20]);
    assert!(matches!(
        TreeEntrySer::deserialize(&mut bytes.as_slice()),
        Err(Error::Format(FormatError::UnknownTag))
    ));
}

fn bytes_of<T: SerDe>(v: &T) -> Vec<u8> {
    let mut buf = Vec::new();
    v.serialize(&mut buf).unwrap();
    buf
}

fn read_all<T: SerDe>(bytes: &[u8]) -> Result<T, Error> {
    let mut r = bytes;
    let v = T::deserialize(&mut r)?;
    assert!(r.is_empty());
    Ok(v)
}

#[test]
fn integers_are_written_big_endian() {
    assert_eq!(bytes_of(&0x12u8), [0x12]);
    assert_eq!(bytes_of(&0x1234u16), [0x12, 0x34]);
    assert_eq!(bytes_of(&0x12345678u32), [0x12, 0x34, 0x56, 0x78]);
    assert_eq!(
        bytes_of(&0x0123456789abcdefu64),
        [0x01, 0x23, 0x45, 0x67, 0x89, 0xab, 0xcd, 0xef]
    );
    assert_eq!(bytes_of(&0x1234usize), [0, 0, 0, 0, 0, 0, 0x12, 0x34]);
    assert_eq!(bytes_of(&u64::MAX), [0xff; 8]);
    assert_eq!(bytes_of(&0u32), [0; 4]);
    assert_eq!(bytes_of(&0x0123456789abcdefu64), 0x0123456789abcdefu64.to_be_bytes());
}

#[test]
fn integers_are_read_back() {
    for v in [0u64, 1, 0xff, 0x100, 0x0123456789abcdef, u64::MAX - 1, u64::MAX] {
        assert_eq!(read_all::<u64>(&bytes_of(&v)).unwrap(), v);
        assert_eq!(read_all::<u32>(&bytes_of(&(v as u32))).unwrap(), v as u32);
        assert_eq!(read_all::<u16>(&bytes_of(&(v as u16))).unwrap(), v as u16);
        assert_eq!(read_all::<u8>(&bytes_of(&(v as u8))).unwrap(), v as u8);
        assert_eq!(read_all::<usize>(&bytes_of(&(v as usize))).unwrap(), v as usize);
    }
    assert_eq!(read_all::<u32>(&[0xde, 0xad, 0xbe, 0xef]).unwrap(), 0xdeadbeef);
}

#[test]
fn strings_are_written_with_their_length() {
    assert_eq!(bytes_of(&String::new()), [0; 8]);
    assert_eq!(
        bytes_of(&"hé".to_string()),
        [0, 0, 0, 0, 0, 0, 0, 3, b'h', 0xc3, 0xa9]
    );
    assert_eq!(read_all::<String>(&bytes_of(&"hé".to_string())).unwrap(), "hé");
    assert_eq!(read_all::<String>(&[0; 8]).unwrap(), "");
}

#[test]
fn hashes_and_references_are_written_bare() {
    let mut raw = [0u8; 20];
    for i in 0..20 {
        raw[i] = i as u8;
    }
    let h = tools::blob::Hash::new(raw);
    assert_eq!(bytes_of(&h), raw);
    let r: ObjRef<Buf> = ObjRef::new(h);
    assert_eq!(bytes_of(&r), raw);
    assert_eq!(read_all::<tools::blob::Hash>(&raw).unwrap(), h);
    assert_eq!(read_all::<ObjRef<Buf>>(&raw).unwrap().hash(), &h);
}

#[test]
fn pairs_and_vectors_are_written_in_order() {
    assert_eq!(bytes_of(&(0x0102u16, 0x03u8)), [1, 2, 3]);
    assert_eq!(
        bytes_of(&vec![0x0102u16, 0x0304]),
        [0, 0, 0, 0, 0, 0, 0, 2, 1, 2, 3, 4]
    );
    assert_eq!(bytes_of(&Vec::<u64>::new()), [0; 8]);
    let v = vec![("a".to_string(), vec![1u8, 2]), ("bc".to_string(), vec![])];
    let bytes = bytes_of(&v);
    let mut expected = vec![0, 0, 0, 0, 0, 0, 0, 2];
    expected.extend_from_slice(&[0, 0, 0, 0, 0, 0, 0, 1, b'a', 0, 0, 0, 0, 0, 0, 0, 2, 1, 2]);
    expected.extend_from_slice(&[0, 0, 0, 0, 0, 0, 0, 2, b'b', b'c', 0, 0, 0, 0, 0, 0, 0, 0]);
    assert_eq!(bytes, expected);
    assert_eq!(read_all::<Vec<(String, Vec<u8>)>>(&bytes).unwrap(), v);
    assert_eq!(bytes_of(&v), bytes);
}

#[test]
fn reading_leaves_what_follows() {
    let bytes = [0x12, 0x34, 0x56];
    let mut r: &[u8] = &bytes;
    assert_eq!(u16::deserialize(&mut r).unwrap(), 0x1234);
    assert_eq!(r, [0x56]);
    assert_eq!(u8::deserialize(&mut r).unwrap(), 0x56);
    assert!(r.is_empty());
}

#[test]
fn bytes_that_end_early_are_a_short_read() {
    let short = Err::<(), _>(FormatError::ShortRead);
    let fails = |r: Result<(), Error>| match r {
        Err(Error::Format(f)) => Err(f),
        other => panic!("unexpected: {:?}", other),
    };
    assert_eq!(fails(read_all::<u8>(&[]).map(|_| ())), short);
    assert_eq!(fails(read_all::<u16>(&[1]).map(|_| ())), short);
    assert_eq!(fails(read_all::<u32>(&[1, 2, 3]).map(|_| ())), short);
    assert_eq!(fails(read_all::<u64>(&[1; 7]).map(|_| ())), short);
    assert_eq!(fails(read_all::<usize>(&[1; 7]).map(|_| ())), short);
    assert_eq!(fails(read_all::<tools::blob::Hash>(&[1; 19]).map(|_| ())), short);
    assert_eq!(fails(read_all::<ObjRef<Buf>>(&[1; 19]).map(|_| ())), short);
    assert_eq!(fails(read_all::<String>(&[0, 0, 0, 0, 0, 0, 0, 2, b'a']).map(|_| ())), short);
    assert_eq!(fails(read_all::<String>(&[0xff; 8]).map(|_| ())), short);
    assert_eq!(fails(read_all::<Vec<u16>>(&[0, 0, 0, 0, 0, 0, 0, 2, 0, 1, 0]).map(|_| ())), short);
    assert_eq!(fails(read_all::<(u8, u16)>(&[1, 2]).map(|_| ())), short);
}

#[test]
fn bytes_that_are_not_utf8_are_no_string() {
    assert!(matches!(
        read_all::<String>(&[0, 0, 0, 0, 0, 0, 0, 2, 0xc3, 0x28]),
        Err(Error::Format(FormatError::InvalidUtf8))
    ));
    assert!(matches!(
        read_all::<Vec<String>>(&[0, 0, 0, 0, 0, 0, 0, 1, 0, 0, 0, 0, 0, 0, 0, 1, 0xff]),
        Err(Error::Format(FormatError::InvalidUtf8))
    ));
}

#[test]
fn take_bytes_takes_from_the_front() {
    let bytes = [1u8, 2, 3];
    let mut r: &[u8] = &bytes;
    assert_eq!(tools::object::take_bytes(&mut r, 2).unwrap(), [1, 2]);
    assert_eq!(r, [3]);
    assert!(matches!(
        tools::object::take_bytes(&mut r, 2),
        Err(Error::Format(FormatError::ShortRead))
    ));
    assert_eq!(r, [3]);
    assert_eq!(tools::object::take_bytes(&mut r, 0).unwrap(), []);
    assert_eq!(tools::object::take_bytes(&mut r, 1).unwrap(), [3]);
    assert!(r.is_empty());
}

#[test]
fn a_vector_of_objects_is_stored_as_a_list_of_references() -> Result<(), Error> {
    let mut store = MemStore::new();
    let v = vec![Buf(vec![1, 2, 3]), Buf(vec![]), Buf(vec![1, 2, 3])];
    let r = v.store(&mut store)?;
    let h0 = store.put_buf(&[1, 2, 3])?;
    let h1 = store.put_buf(&[])?;
    let mut list = vec![0, 0, 0, 0, 0, 0, 0, 3];
    list.extend_from_slice(h0.buf());
    list.extend_from_slice(h1.buf());
    list.extend_from_slice(h0.buf());
    assert_eq!(store.get_vec(r.hash())?, list);
    assert_eq!(*r.hash(), store.put_vec(list)?);
    assert_eq!(Vec::<Buf>::load(&store, &r)?, v);
    Ok(())
}

#[test]
fn vectors_of_vectors_are_loaded_as_stored() -> Result<(), Error> {
    let mut store = ZippedStore::new(MemStore::new());
    let v = vec![vec![Buf(vec![1]), Buf(vec![2, 2])], vec![], vec![Buf(vec![3; 1000])]];
    let r = v.store(&mut store)?;
    assert_eq!(Vec::<Vec<Buf>>::load(&store, &r)?, v);
    let empty: Vec<Buf> = vec![];
    let r = empty.store(&mut store)?;
    assert_eq!(Vec::<Buf>::load(&store, &r)?, empty);
    Ok(())
}

#[test]
fn loading_fails_where_the_store_lacks_a_blob() -> Result<(), Error> {
    let mut full = MemStore::new();
    let v = vec![Buf(vec![1, 2, 3])];
    let r = v.store(&mut full)?;
    let list = full.get_vec(r.hash())?;
    let mut partial = MemStore::new();
    assert!(matches!(Vec::<Buf>::load(&partial, &r), Err(Error::NotFound)));
    partial.put_vec(list)?;
    assert!(matches!(Vec::<Buf>::load(&partial, &r), Err(Error::NotFound)));
    let mut broken = MemStore::new();
    let r: ObjRef<Vec<Buf>> = ObjRef::new(broken.put_buf(&[0, 0, 0, 0, 0, 0, 0, 1, 9])?);
    assert!(matches!(
        Vec::<Buf>::load(&broken, &r),
        Err(Error::Format(FormatError::ShortRead))
    ));
    Ok(())
}

#[test]
fn read_tag_takes_one_byte_below_the_number_of_variants() {
    let bytes = [1u8, 7, 3];
    let mut r: &[u8] = &bytes;
    assert_eq!(tools::object::read_tag(&mut r, 2).unwrap(), 1);
    assert_eq!(r, [7, 3]);
    assert!(matches!(
        tools::object::read_tag(&mut r, 7),
        Err(Error::Format(FormatError::UnknownTag))
    ));
    let mut r: &[u8] = &bytes[1..];
    assert_eq!(tools::object::read_tag(&mut r, 8).unwrap(), 7);
    assert!(matches!(
        tools::object::read_tag(&mut r, 0),
        Err(Error::Format(FormatError::UnknownTag))
    ));
    let mut r: &[u8] = &[];
    assert!(matches!(
        tools::object::read_tag(&mut r, 2),
        Err(Error::Format(FormatError::ShortRead))
    ));
    let mut r: &[u8] = &[254, 255];
    assert_eq!(tools::object::read_tag(&mut r, 255).unwrap(), 254);
    assert!(matches!(
        tools::object::read_tag(&mut r, 255),
        Err(Error::Format(FormatError::UnknownTag))
    ));
}
