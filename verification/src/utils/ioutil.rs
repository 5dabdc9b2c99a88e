//! Byte sinks, and sinks built around other sinks.

use crate::blob::{hex_digit, hex_digit_str, Bytes, Error};
use vstd::prelude::*;
use vstd::slice::slice_subrange;
use vstd::string::*;

verus! {

/// Whether `after` is `before` with some leading part of `buf` appended.
pub open spec fn wrote_prefix(before: Seq<u8>, buf: Seq<u8>, after: Seq<u8>) -> bool {
    exists|k: int| 0 <= k <= buf.len() && after == before + #[trigger] buf.take(k)
}

/// A sink that had taken the first `done` bytes of `buf`, and then took a
/// leading part of the rest, has taken a leading part of `buf`.
pub proof fn lemma_wrote_rest(before: Seq<u8>, buf: Seq<u8>, done: int, after: Seq<u8>)
    requires
        0 <= done <= buf.len(),
        wrote_prefix(before + buf.take(done), buf.skip(done), after),
    ensures
        wrote_prefix(before, buf, after),
{
    let rest = buf.skip(done);
    let k = choose|k: int|
        0 <= k <= rest.len() && after == before + buf.take(done) + #[trigger] rest.take(k);
    assert(before + buf.take(done) + rest.take(k) =~= before + buf.take(done + k));
}

/// A leading part of the first `n` bytes of `buf` is a leading part of
/// `buf`.
pub proof fn lemma_wrote_head(before: Seq<u8>, buf: Seq<u8>, n: int, after: Seq<u8>)
    requires
        0 <= n <= buf.len(),
        wrote_prefix(before, buf.take(n), after),
    ensures
        wrote_prefix(before, buf, after),
{
    let head = buf.take(n);
    let k = choose|k: int| 0 <= k <= head.len() && after == before + #[trigger] head.take(k);
    assert(head.take(k) =~= buf.take(k));
}

/// Something that takes bytes in order, as `std::io::Write` does.
pub trait Sink {
    /// Every byte taken so far, in order.
    spec fn written(&self) -> Bytes;

    /// Whether the sink never fails and takes at least one byte of every
    /// non-empty buffer it is offered.
    spec fn dependable(&self) -> bool;

    /// The bytes that have reached the place where the sink sends them. A
    /// sink may hold back what it has taken; what it holds back is taken
    /// and not yet settled.
    spec fn settled(&self) -> Bytes;

    /// Offers `buf`. The sink takes some leading part of it and says how
    /// long that part is. A sink fails with `Error::Io` only.
    fn write(&mut self, buf: &[u8]) -> (r: Result<usize, Error>)
        ensures
            final(self).dependable() == old(self).dependable(),
            match r {
                Ok(n) => n <= buf@.len() && final(self).written() == old(self).written()
                    + buf@.take(n as int),
                Err(e) => e is Io && wrote_prefix(
                    old(self).written(),
                    buf@,
                    final(self).written(),
                ),
            },
            old(self).dependable() ==> (r matches Ok(n) && (buf@.len() > 0 ==> n > 0)),
    ;

    /// Pushes on what the sink has held back, so that on success every
    /// byte taken so far has reached its place. Takes no bytes.
    fn flush(&mut self) -> (r: Result<(), Error>)
        ensures
            final(self).dependable() == old(self).dependable(),
            final(self).written() == old(self).written(),
            r is Ok ==> final(self).settled() == final(self).written(),
            r matches Err(e) ==> e is Io,
            old(self).dependable() ==> r is Ok,
    ;

    /// Offers `buf` again and again until the sink has taken all of it. A
    /// sink that takes nothing of a non-empty rest ends this with an error.
    fn write_all(&mut self, buf: &[u8]) -> (r: Result<(), Error>)
        ensures
            final(self).dependable() == old(self).dependable(),
            match r {
                Ok(()) => final(self).written() == old(self).written() + buf@,
                Err(e) => e is Io && wrote_prefix(
                    old(self).written(),
                    buf@,
                    final(self).written(),
                ),
            },
            old(self).dependable() ==> r is Ok,
    {
        let mut done: usize = 0;
        while done < buf.len()
            invariant
                done <= buf@.len(),
                self.dependable() == old(self).dependable(),
                self.written() == old(self).written() + buf@.take(done as int),
            decreases buf@.len() - done,
        {
            let rest = slice_subrange(buf, done, buf.len());
            assert(rest@ =~= buf@.skip(done as int));
            match self.write(rest) {
                Ok(n) => {
                    if n == 0 {
                        assert(self.written() == old(self).written() + buf@.take(done as int));
                        return Err(Error::Io(write_zero()));
                    }
                    assert(buf@.take(done as int) + rest@.take(n as int) =~= buf@.take(done + n));
                    done += n;
                },
                Err(e) => {
                    proof {
                        lemma_wrote_rest(old(self).written(), buf@, done as int, self.written());
                    }
                    return Err(e);
                },
            }
        }
        assert(buf@.take(buf@.len() as int) =~= buf@);
        Ok(())
    }
}

/// `std::io::Error::from` on `ErrorKind::WriteZero`: the error that std's
/// own `write_all` gives when a writer takes nothing.
#[verifier::external_body]
pub(crate) fn write_zero() -> std::io::Error {
    std::io::Error::from(std::io::ErrorKind::WriteZero)
}

/// A vector takes everything it is offered, holds nothing back and never
/// fails.
impl Sink for Vec<u8> {
    open spec fn written(&self) -> Seq<u8> {
        self@
    }

    open spec fn dependable(&self) -> bool {
        true
    }

    open spec fn settled(&self) -> Seq<u8> {
        self@
    }

    fn write(&mut self, buf: &[u8]) -> (r: Result<usize, Error>)
        ensures
            r == Ok::<usize, Error>(buf@.len() as usize),
    {
        self.extend_from_slice(buf);
        assert(buf@.take(buf@.len() as int) =~= buf@);
        Ok(buf.len())
    }

    fn flush(&mut self) -> (r: Result<(), Error>) {
        Ok(())
    }

    fn write_all(&mut self, buf: &[u8]) -> (r: Result<(), Error>) {
        self.extend_from_slice(buf);
        Ok(())
    }
}

/// A sink that hands every byte to two sinks.
pub struct TeeWriter<W: Sink, V: Sink> {
    w1: W,
    w2: V,
}

impl<W: Sink, V: Sink> TeeWriter<W, V> {
    /// Every byte that the second sink has taken so far. What the first has
    /// taken is `written()`.
    pub closed spec fn mirrored(&self) -> Seq<u8> {
        self.w2.written()
    }

    /// The bytes that have reached the place where the second sink sends
    /// them. For the first sink they are `settled()`.
    pub closed spec fn mirror_settled(&self) -> Seq<u8> {
        self.w2.settled()
    }

    pub fn new(w1: W, w2: V) -> (t: Self)
        ensures
            t.written() == w1.written(),
            t.mirrored() == w2.written(),
            t.settled() == w1.settled(),
            t.mirror_settled() == w2.settled(),
            t.dependable() == (w1.dependable() && w2.dependable()),
    {
        Self { w1, w2 }
    }

    /// Gives the two sinks back.
    pub fn into_inner(self) -> (sinks: (W, V))
        ensures
            sinks.0.written() == self.written(),
            sinks.1.written() == self.mirrored(),
            sinks.0.settled() == self.settled(),
            sinks.1.settled() == self.mirror_settled(),
    {
        (self.w1, self.w2)
    }
}

impl<W: Sink, V: Sink> Sink for TeeWriter<W, V> {
    closed spec fn written(&self) -> Seq<u8> {
        self.w1.written()
    }

    closed spec fn dependable(&self) -> bool {
        self.w1.dependable() && self.w2.dependable()
    }

    closed spec fn settled(&self) -> Seq<u8> {
        self.w1.settled()
    }

    /// Offers `buf` to both sinks. Where one takes less than the other, the
    /// rest is pressed on it, so that on success both have taken the same
    /// leading part of `buf`: the longer of the two.
    fn write(&mut self, buf: &[u8]) -> (r: Result<usize, Error>)
        ensures
            match r {
                Ok(n) => final(self).mirrored() == old(self).mirrored() + buf@.take(n as int),
                Err(_) => wrote_prefix(old(self).mirrored(), buf@, final(self).mirrored()),
            },
    {
        let ghost first = self.w1.written();
        let ghost second = self.w2.written();
        let n1 = match self.w1.write(buf) {
            Ok(n) => n,
            Err(e) => {
                assert(self.w2.written() == second + buf@.take(0));
                return Err(e);
            },
        };
        let n2 = match self.w2.write(buf) {
            Ok(n) => n,
            Err(e) => {
                return Err(e);
            },
        };
        if n1 < n2 {
            let rest = slice_subrange(buf, n1, n2);
            let ghost head = buf@.take(n2 as int);
            assert(rest@ =~= head.skip(n1 as int));
            assert(head.take(n1 as int) =~= buf@.take(n1 as int));
            match self.w1.write_all(rest) {
                Ok(()) => {
                    assert(buf@.take(n1 as int) + rest@ =~= head);
                    Ok(n2)
                },
                Err(e) => {
                    proof {
                        lemma_wrote_rest(first, head, n1 as int, self.w1.written());
                        lemma_wrote_head(first, buf@, n2 as int, self.w1.written());
                    }
                    Err(e)
                },
            }
        } else if n1 > n2 {
            let rest = slice_subrange(buf, n2, n1);
            let ghost head = buf@.take(n1 as int);
            assert(rest@ =~= head.skip(n2 as int));
            assert(head.take(n2 as int) =~= buf@.take(n2 as int));
            match self.w2.write_all(rest) {
                Ok(()) => {
                    assert(buf@.take(n2 as int) + rest@ =~= head);
                    Ok(n1)
                },
                Err(e) => {
                    proof {
                        lemma_wrote_rest(second, head, n2 as int, self.w2.written());
                        lemma_wrote_head(second, buf@, n1 as int, self.w2.written());
                    }
                    Err(e)
                },
            }
        } else {
            Ok(n1)
        }
    }

    /// Flushes the first sink, then the second, so that on success every
    /// byte that either has taken has reached its place. Where the first
    /// fails, the second is left as it is.
    fn flush(&mut self) -> (r: Result<(), Error>)
        ensures
            final(self).mirrored() == old(self).mirrored(),
            r is Ok ==> final(self).mirror_settled() == final(self).mirrored(),
            r is Err ==> {
                ||| final(self).mirror_settled() == old(self).mirror_settled()
                ||| final(self).settled() == final(self).written()
            },
    {
        match self.w1.flush() {
            Ok(()) => self.w2.flush(),
            Err(e) => Err(e),
        }
    }

    /// Hands all of `buf` to the first sink, then all of it to the second.
    fn write_all(&mut self, buf: &[u8]) -> (r: Result<(), Error>)
        ensures
            match r {
                Ok(()) => final(self).mirrored() == old(self).mirrored() + buf@,
                Err(_) => wrote_prefix(old(self).mirrored(), buf@, final(self).mirrored()),
            },
    {
        match self.w1.write_all(buf) {
            Ok(()) => {
                assert(buf@.take(buf@.len() as int) =~= buf@);
                self.w2.write_all(buf)
            },
            Err(e) => {
                assert(self.w2.written() == old(self).mirrored() + buf@.take(0));
                Err(e)
            },
        }
    }
}

/// The first `cap` bytes of `buf`, or all of `buf` if it is no longer.
pub open spec fn capped(buf: Seq<u8>, cap: int) -> Seq<u8> {
    if buf.len() > cap {
        buf.take(cap)
    } else {
        buf
    }
}

/// A sink that lets through at most `cap` bytes at a time.
pub struct CapWriter<W: Sink> {
    cap: usize,
    w: W,
}

impl<W: Sink> CapWriter<W> {
    /// The most bytes that one `write` lets through.
    pub closed spec fn limit(&self) -> usize {
        self.cap
    }

    pub fn new(cap: usize, w: W) -> (c: Self)
        ensures
            c.limit() == cap,
            c.written() == w.written(),
            c.settled() == w.settled(),
            c.dependable() == (cap > 0 && w.dependable()),
    {
        Self { cap, w }
    }

    /// Gives the sink back.
    pub fn into_inner(self) -> (w: W)
        ensures
            w.written() == self.written(),
            w.settled() == self.settled(),
    {
        self.w
    }
}

impl<W: Sink> Sink for CapWriter<W> {
    closed spec fn written(&self) -> Seq<u8> {
        self.w.written()
    }

    closed spec fn dependable(&self) -> bool {
        self.cap > 0 && self.w.dependable()
    }

    closed spec fn settled(&self) -> Seq<u8> {
        self.w.settled()
    }

    /// Offers the sink the first `cap` bytes of `buf`, or all of `buf` if
    /// it is no longer than that.
    fn write(&mut self, buf: &[u8]) -> (r: Result<usize, Error>)
        ensures
            final(self).limit() == old(self).limit(),
            r matches Ok(n) ==> n <= old(self).limit(),
            r is Err ==> wrote_prefix(
                old(self).written(),
                capped(buf@, old(self).limit() as int),
                final(self).written(),
            ),
    {
        if buf.len() > self.cap {
            let head = slice_subrange(buf, 0, self.cap);
            assert(head@ =~= buf@.take(self.cap as int));
            let r = self.w.write(head);
            proof {
                match r {
                    Ok(n) => {
                        assert(head@.take(n as int) =~= buf@.take(n as int));
                    },
                    Err(_) => {
                        lemma_wrote_head(
                            old(self).w.written(),
                            buf@,
                            self.cap as int,
                            self.w.written(),
                        );
                    },
                }
            }
            r
        } else {
            self.w.write(buf)
        }
    }

    /// Flushes the sink: on success every byte that it has taken has
    /// reached its place. The cap stays.
    fn flush(&mut self) -> (r: Result<(), Error>)
        ensures
            final(self).limit() == old(self).limit(),
    {
        self.w.flush()
    }
}

/// `n` in decimal, without leading zeros.
pub open spec fn decimal_of(n: nat) -> Seq<char>
    decreases n,
{
    if n < 10 {
        seq![hex_digit(n as u8)]
    } else {
        decimal_of(n / 10).push(hex_digit((n % 10) as u8))
    }
}

/// `n` in decimal, without leading zeros.
pub fn decimal(n: usize) -> (s: String)
    ensures
        s@ == decimal_of(n as nat),
    decreases n,
{
    if n < 10 {
        String::from_str(hex_digit_str(n as u8))
    } else {
        let mut s = decimal(n / 10);
        s.append(hex_digit_str((n % 10) as u8));
        assert(s@ =~= decimal_of(n as nat));
        s
    }
}

/// The note that a `LogWriter` named `label` makes of a write of `len`
/// bytes: the label, then `.write([u8;`, the length in decimal, and `])`.
pub open spec fn note_of(label: Seq<char>, len: nat) -> Seq<char> {
    label + ".write([u8;"@ + decimal_of(len) + "])"@
}

/// A sink that makes a note of every write before passing it on.
pub struct LogWriter<W: Sink> {
    s: String,
    w: W,
    notes: Vec<String>,
}

impl<W: Sink> LogWriter<W> {
    /// The name under which the notes are made.
    pub closed spec fn label(&self) -> Seq<char> {
        self.s@
    }

    /// The notes made and not yet taken, oldest first.
    pub closed spec fn notes(&self) -> Seq<String> {
        self.notes@
    }

    pub fn new(s: String, w: W) -> (l: Self)
        ensures
            l.label() == s@,
            l.notes().len() == 0,
            l.written() == w.written(),
            l.settled() == w.settled(),
            l.dependable() == w.dependable(),
    {
        Self { s, w, notes: Vec::new() }
    }

    /// Hands over the notes made since the last call, oldest first.
    pub fn take_notes(&mut self) -> (notes: Vec<String>)
        ensures
            notes@ == old(self).notes(),
            final(self).notes().len() == 0,
            final(self).label() == old(self).label(),
            final(self).written() == old(self).written(),
            final(self).settled() == old(self).settled(),
            final(self).dependable() == old(self).dependable(),
    {
        let mut notes: Vec<String> = Vec::new();
        notes.append(&mut self.notes);
        notes
    }

    /// Gives the sink back.
    pub fn into_inner(self) -> (w: W)
        ensures
            w.written() == self.written(),
            w.settled() == self.settled(),
    {
        self.w
    }
}

impl<W: Sink> Sink for LogWriter<W> {
    closed spec fn written(&self) -> Seq<u8> {
        self.w.written()
    }

    closed spec fn dependable(&self) -> bool {
        self.w.dependable()
    }

    closed spec fn settled(&self) -> Seq<u8> {
        self.w.settled()
    }

    /// Notes the length of `buf`, then offers `buf` to the sink.
    fn write(&mut self, buf: &[u8]) -> (r: Result<usize, Error>)
        ensures
            final(self).label() == old(self).label(),
            final(self).notes().len() == old(self).notes().len() + 1,
            final(self).notes().drop_last() == old(self).notes(),
            final(self).notes().last()@ == note_of(old(self).label(), buf@.len()),
    {
        let mut note = self.s.clone();
        note.append(".write([u8;");
        note.append(decimal(buf.len()).as_str());
        note.append("])");
        self.notes.push(note);
        assert(self.notes@.drop_last() =~= old(self).notes@);
        self.w.write(buf)
    }

    /// Flushes the sink: on success every byte that it has taken has
    /// reached its place. No note is made of it.
    fn flush(&mut self) -> (r: Result<(), Error>)
        ensures
            final(self).label() == old(self).label(),
            final(self).notes() == old(self).notes(),
    {
        self.w.flush()
    }
}

} // verus!
