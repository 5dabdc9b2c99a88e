//! Where a directory browser goes: into a directory, and back out of it.
//! Paths are text with `/` between the names.

use vstd::prelude::*;
use vstd::string::*;

verus! {

/// How many of the characters of `s` are `/`.
pub open spec fn slashes(s: Seq<char>) -> nat
    decreases s.len(),
{
    if s.len() == 0 {
        0
    } else {
        slashes(s.drop_last()) + if s.last() == '/' {
            1nat
        } else {
            0nat
        }
    }
}

/// Where the last `/` of `s` stands, or `-1` if `s` has none.
pub open spec fn last_slash(s: Seq<char>) -> int
    decreases s.len(),
{
    if s.len() == 0 {
        -1
    } else if s.last() == '/' {
        s.len() - 1
    } else {
        last_slash(s.drop_last())
    }
}

/// The path of the directory that holds `path`: `path` without its last
/// name and the `/` before it. A path with fewer than two `/` has the
/// parent `/`.
pub open spec fn parent_of(path: Seq<char>) -> Seq<char> {
    if slashes(path) >= 2 {
        path.take(last_slash(path))
    } else {
        seq!['/']
    }
}

/// The path of `name` in the directory `path`: the two with a `/` between
/// them, which the path `/` brings itself.
pub open spec fn child_of(path: Seq<char>, name: Seq<char>) -> Seq<char> {
    if path == seq!['/'] {
        path + name
    } else {
        path + seq!['/'] + name
    }
}

/// The last `/` of a text that has one stands within it.
pub proof fn lemma_last_slash(s: Seq<char>)
    ensures
        -1 <= last_slash(s) < s.len(),
        slashes(s) > 0 ==> 0 <= last_slash(s) && s[last_slash(s)] == '/',
        slashes(s) == 0 ==> last_slash(s) == -1,
    decreases s.len(),
{
    if s.len() > 0 {
        lemma_last_slash(s.drop_last());
    }
}

/// The path of the directory that holds `path`.
pub fn parent(path: &str) -> (p: String)
    ensures
        p@ == parent_of(path@),
{
    let n = path.unicode_len();
    let mut count: usize = 0;
    let mut last: usize = 0;
    let mut i: usize = 0;
    assert(path@.take(0) =~= Seq::<char>::empty());
    while i < n
        invariant
            i <= n,
            n == path@.len(),
            count == slashes(path@.take(i as int)),
            count <= i,
            count > 0 ==> last == last_slash(path@.take(i as int)),
        decreases n - i,
    {
        let c = path.get_char(i);
        assert(path@.take(i + 1).drop_last() =~= path@.take(i as int));
        assert(path@.take(i + 1).last() == c);
        if c == '/' {
            count += 1;
            last = i;
        }
        i += 1;
    }
    assert(path@.take(n as int) =~= path@);
    if count >= 2 {
        proof {
            lemma_last_slash(path@);
            assert(path@.take(last as int) =~= path@.subrange(0, last as int));
        }
        String::from_str(path.substring_char(0, last))
    } else {
        proof {
            reveal_strlit("/");
            assert("/"@ =~= seq!['/']);
        }
        String::from_str("/")
    }
}

/// The path of `name` in the directory `path`.
pub fn child(path: &str, name: &str) -> (p: String)
    ensures
        p@ == child_of(path@, name@),
{
    proof {
        reveal_strlit("/");
        assert("/"@ =~= seq!['/']);
    }
    let mut p = String::from_str(path);
    let root = String::from_str("/");
    if p != root {
        p.append("/");
    }
    p.append(name);
    p
}

} // verus!
