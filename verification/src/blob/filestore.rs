use super::hex_of;
use vstd::prelude::*;
use vstd::string::*;

verus! {

/// Where a store on disk keeps its blobs: below a root directory, each in
/// the directory named by the first two characters of its hash's text, in a
/// file named by the other 38.
pub struct FileStore {
    path: String,
}

impl FileStore {
    /// The root directory.
    pub closed spec fn root(&self) -> Seq<char> {
        self.path@
    }

    /// The layout below the root directory `path`.
    pub fn new(path: String) -> (s: Self)
        ensures
            s.root() == path@,
    {
        Self { path }
    }

    /// The root directory.
    pub fn path(&self) -> (p: &String)
        ensures
            p@ == self.root(),
    {
        &self.path
    }

    /// The directory and the file of the blob with hash `h`, both by their
    /// names: the directory lies in the root directory, the file in that
    /// directory.
    pub fn locate(&self, h: &crate::blob::Hash) -> (names: (String, String))
        ensures
            names.0@ == hex_of(h@).take(2),
            names.1@ == hex_of(h@).skip(2),
            names.0@.len() == 2,
            names.1@.len() == 38,
    {
        let text = h.to_string();
        proof {
            crate::blob::lemma_hash_text(*h);
            assert forall|i: int| 0 <= i < text@.len() implies '\0' <= #[trigger] text@[i]
                <= '\u{7f}' by {
                let c = hex_of(h@)[i];
                assert('0' <= c <= '9' || 'a' <= c <= 'f');
            }
            assert(text.is_ascii());
        }
        let dir = text.as_str().substring_ascii(0, 2);
        let file = text.as_str().substring_ascii(2, 40);
        assert(text@.take(2) =~= text@.subrange(0, 2));
        assert(text@.skip(2) =~= text@.subrange(2, 40));
        (String::from_str(dir), String::from_str(file))
    }
}

} // verus!
