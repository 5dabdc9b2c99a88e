use std::cell::RefCell;
use std::io::{BufWriter, Write};
use std::rc::Rc;
use tools::blob::Error;
use tools::utils::ioutil::{decimal, CapWriter, LogWriter, Sink, TeeWriter};

/// A sink over any writer of std.
struct Std<W: Write>(W);

impl<W: Write> Sink for Std<W> {
    fn written(&self) -> vstd::seq::Seq<u8> {
        unreachable!()
    }

    fn dependable(&self) -> bool {
        unreachable!()
    }

    fn settled(&self) -> vstd::seq::Seq<u8> {
        unreachable!()
    }

    fn write(&mut self, buf: &[u8]) -> Result<usize, Error> {
        self.0.write(buf).map_err(Error::Io)
    }

    fn flush(&mut self) -> Result<(), Error> {
        self.0.flush().map_err(Error::Io)
    }
}

/// A writer of std over any sink.
struct AsWrite<S: Sink>(S);

fn io_error(e: Error) -> std::io::Error {
    match e {
        Error::Io(e) => e,
        other => std::io::Error::new(std::io::ErrorKind::Other, format!("{:?}", other)),
    }
}

impl<S: Sink> Write for AsWrite<S> {
    fn write(&mut self, buf: &[u8]) -> std::io::Result<usize> {
        self.0.write(buf).map_err(io_error)
    }

    fn flush(&mut self) -> std::io::Result<()> {
        self.0.flush().map_err(io_error)
    }
}

type TestBuf = CapWriter<LogWriter<Std<BufWriter<AsWrite<LogWriter<Vec<u8>>>>>>>;

fn test_buf_w(c: usize, s: String, w: Vec<u8>) -> TestBuf {
    CapWriter::new(
        c,
        LogWriter::new(
            s.clone(),
            Std(BufWriter::new(AsWrite(LogWriter::new(s.to_uppercase(), w)))),
        ),
    )
}

fn unwrap_buf(w: TestBuf) -> Vec<u8> {
    let mut outer = w.into_inner();
    for note in outer.take_notes() {
        println!("{}", note);
    }
    let mut inner = match outer.into_inner().0.into_inner() {
        Ok(w) => w.0,
        Err(_) => panic!("the buffered writer could not be emptied"),
    };
    for note in inner.take_notes() {
        println!("{}", note);
    }
    inner.into_inner()
}

#[test]
fn test_tee_writer() {
    let test_buf = b"1234567890\n".repeat(10000);
    let buf1_w = test_buf_w(4096, "buf1".to_string(), Vec::new());
    let buf2_w = test_buf_w(2048, "buf2".to_string(), Vec::new());
    let tee = TeeWriter::new(buf1_w, buf2_w);
    let mut tee_lw = CapWriter::new(8192, LogWriter::new("tee_".to_string(), tee));
    tee_lw.write_all(&test_buf).unwrap();
    tee_lw.flush().unwrap();
    let (w1, w2) = tee_lw.into_inner().into_inner().into_inner();
    let buf1 = unwrap_buf(w1);
    let buf2 = unwrap_buf(w2);
    assert_eq!(buf1, test_buf);
    assert_eq!(buf1, buf2);
}

#[test]
fn decimal_writes_numbers_without_leading_zeros() {
    assert_eq!(decimal(0), "0");
    assert_eq!(decimal(7), "7");
    assert_eq!(decimal(10), "10");
    assert_eq!(decimal(8192), "8192");
    assert_eq!(decimal(usize::MAX), usize::MAX.to_string());
}

/// A sink that takes at most `step` bytes at a time and fails once it has
/// taken `room` bytes.
struct Tight {
    taken: Vec<u8>,
    step: usize,
    room: usize,
}

impl Sink for Tight {
    fn written(&self) -> vstd::seq::Seq<u8> {
        unreachable!()
    }

    fn dependable(&self) -> bool {
        unreachable!()
    }

    fn settled(&self) -> vstd::seq::Seq<u8> {
        unreachable!()
    }

    fn write(&mut self, buf: &[u8]) -> Result<usize, Error> {
        if self.taken.len() >= self.room {
            return Err(Error::Io(std::io::Error::new(std::io::ErrorKind::Other, "full")));
        }
        let n = buf.len().min(self.step).min(self.room - self.taken.len());
        self.taken.extend_from_slice(&buf[..n]);
        Ok(n)
    }

    fn flush(&mut self) -> Result<(), Error> {
        Ok(())
    }
}

#[test]
fn tee_write_makes_both_sinks_take_the_longer_part() {
    let slow = Tight { taken: vec![], step: 3, room: 100 };
    let mut tee = TeeWriter::new(Vec::new(), slow);
    assert_eq!(tee.write(b"abcdefgh").unwrap(), 8);
    let (w1, w2) = tee.into_inner();
    assert_eq!(w1, b"abcdefgh");
    assert_eq!(w2.taken, b"abcdefgh");

    let slow = Tight { taken: vec![], step: 3, room: 100 };
    let mut tee = TeeWriter::new(slow, CapWriter::new(5, Vec::new()));
    assert_eq!(tee.write(b"abcdefgh").unwrap(), 5);
    let (w1, w2) = tee.into_inner();
    assert_eq!(w1.taken, b"abcde");
    assert_eq!(w2.into_inner(), b"abcde");
}

#[test]
fn tee_write_of_nothing_takes_nothing() {
    let mut tee = TeeWriter::new(Vec::new(), Vec::new());
    assert_eq!(tee.write(b"").unwrap(), 0);
    tee.flush().unwrap();
    let (w1, w2) = tee.into_inner();
    assert!(w1.is_empty() && w2.is_empty());
}

#[test]
fn tee_gives_the_error_of_a_failing_sink() {
    let full = Tight { taken: vec![], step: 8, room: 4 };
    let mut tee = TeeWriter::new(Vec::new(), full);
    assert!(matches!(tee.write(b"abcdefgh"), Err(Error::Io(_))));
    let (w1, w2) = tee.into_inner();
    assert_eq!(w1, b"abcdefgh");
    assert_eq!(w2.taken, b"abcd");

    let full = Tight { taken: vec![], step: 8, room: 0 };
    let mut tee = TeeWriter::new(full, Vec::new());
    assert!(matches!(tee.write_all(b"abc"), Err(Error::Io(_))));
    let (w1, w2) = tee.into_inner();
    assert!(w1.taken.is_empty() && w2.is_empty());
}

#[test]
fn write_all_ends_when_a_sink_takes_nothing() {
    let mut stuck = CapWriter::new(0, Vec::new());
    assert_eq!(stuck.write(b"abc").unwrap(), 0);
    match stuck.write_all(b"abc") {
        Err(Error::Io(e)) => assert_eq!(e.kind(), std::io::ErrorKind::WriteZero),
        other => panic!("unexpected: {:?}", other),
    }
    assert!(stuck.write_all(b"").is_ok());
    assert!(stuck.into_inner().is_empty());
}

#[test]
fn cap_writer_lets_through_no_more_than_its_cap() {
    let mut w = CapWriter::new(4, Vec::new());
    assert_eq!(w.write(b"abcdefgh").unwrap(), 4);
    assert_eq!(w.write(b"xy").unwrap(), 2);
    assert_eq!(w.write(b"").unwrap(), 0);
    w.write_all(b"0123456789").unwrap();
    assert_eq!(w.into_inner(), b"abcdxy0123456789");
}

#[test]
fn log_writer_notes_every_write() {
    let mut w = LogWriter::new("out".to_string(), CapWriter::new(4, Vec::new()));
    w.write_all(b"abcdefghij").unwrap();
    assert_eq!(
        w.take_notes(),
        vec!["out.write([u8;10])", "out.write([u8;6])", "out.write([u8;2])"]
    );
    assert_eq!(w.take_notes(), Vec::<String>::new());
    w.write(b"").unwrap();
    w.flush().unwrap();
    assert_eq!(w.take_notes(), vec!["out.write([u8;0])"]);
    assert_eq!(w.into_inner().into_inner(), b"abcdefghij");
}

#[test]
fn a_vector_takes_everything() {
    let mut v = vec![1u8];
    assert_eq!(Sink::write(&mut v, &[2, 3]).unwrap(), 2);
    Sink::write_all(&mut v, &[4]).unwrap();
    Sink::flush(&mut v).unwrap();
    assert_eq!(v, vec![1, 2, 3, 4]);
}

/// A place for bytes that can be looked into while a writer holds it.
#[derive(Clone, Default)]
struct Place(Rc<RefCell<Vec<u8>>>);

impl Place {
    fn bytes(&self) -> Vec<u8> {
        self.0.borrow().clone()
    }
}

impl Write for Place {
    fn write(&mut self, buf: &[u8]) -> std::io::Result<usize> {
        self.0.borrow_mut().extend_from_slice(buf);
        Ok(buf.len())
    }

    fn flush(&mut self) -> std::io::Result<()> {
        Ok(())
    }
}

/// A sink that holds back what it takes until it is flushed.
fn holding(place: &Place) -> Std<BufWriter<Place>> {
    Std(BufWriter::with_capacity(1024, place.clone()))
}

/// A sink that takes everything and cannot be flushed.
struct Clogged(Vec<u8>);

impl Sink for Clogged {
    fn written(&self) -> vstd::seq::Seq<u8> {
        unreachable!()
    }

    fn dependable(&self) -> bool {
        unreachable!()
    }

    fn settled(&self) -> vstd::seq::Seq<u8> {
        unreachable!()
    }

    fn write(&mut self, buf: &[u8]) -> Result<usize, Error> {
        self.0.extend_from_slice(buf);
        Ok(buf.len())
    }

    fn flush(&mut self) -> Result<(), Error> {
        Err(Error::Io(std::io::Error::new(std::io::ErrorKind::Other, "clogged")))
    }
}

#[test]
fn tee_flush_flushes_both_sinks() {
    let (first, second) = (Place::default(), Place::default());
    let mut tee = TeeWriter::new(holding(&first), holding(&second));
    tee.write_all(b"abc").unwrap();
    assert_eq!(first.bytes(), b"");
    assert_eq!(second.bytes(), b"");
    tee.flush().unwrap();
    assert_eq!(first.bytes(), b"abc");
    assert_eq!(second.bytes(), b"abc");
    tee.write_all(b"de").unwrap();
    assert_eq!(first.bytes(), b"abc");
    tee.flush().unwrap();
    assert_eq!(first.bytes(), b"abcde");
    assert_eq!(second.bytes(), b"abcde");
}

#[test]
fn tee_flush_stops_at_a_sink_that_fails() {
    let second = Place::default();
    let mut tee = TeeWriter::new(Clogged(vec![]), holding(&second));
    tee.write_all(b"abc").unwrap();
    assert!(matches!(tee.flush(), Err(Error::Io(_))));
    assert_eq!(second.bytes(), b"");

    let first = Place::default();
    let mut tee = TeeWriter::new(holding(&first), Clogged(vec![]));
    tee.write_all(b"abc").unwrap();
    assert!(matches!(tee.flush(), Err(Error::Io(_))));
    assert_eq!(first.bytes(), b"abc");
    assert_eq!(tee.into_inner().1 .0, b"abc");
}

#[test]
fn cap_writer_flush_flushes_its_sink() {
    let place = Place::default();
    let mut w = CapWriter::new(2, holding(&place));
    w.write_all(b"abcde").unwrap();
    assert_eq!(place.bytes(), b"");
    w.flush().unwrap();
    assert_eq!(place.bytes(), b"abcde");
    assert_eq!(w.write(b"fgh").unwrap(), 2);
    w.flush().unwrap();
    assert_eq!(place.bytes(), b"abcdefg");
    let mut stuck = CapWriter::new(2, Clogged(vec![]));
    assert!(matches!(stuck.flush(), Err(Error::Io(_))));
}

#[test]
fn log_writer_flush_flushes_its_sink_without_a_note() {
    let place = Place::default();
    let mut w = LogWriter::new("out".to_string(), holding(&place));
    w.write_all(b"abc").unwrap();
    assert_eq!(place.bytes(), b"");
    assert_eq!(w.take_notes(), vec!["out.write([u8;3])"]);
    w.flush().unwrap();
    assert_eq!(place.bytes(), b"abc");
    assert_eq!(w.take_notes(), Vec::<String>::new());
    let mut stuck = LogWriter::new("out".to_string(), Clogged(vec![]));
    assert!(matches!(stuck.flush(), Err(Error::Io(_))));
    assert_eq!(stuck.take_notes(), Vec::<String>::new());
}

#[test]
fn a_new_mem_store_holds_nothing() {
    let bs = tools::blob::memstore::MemStore::new();
    for text in [
        "da39a3ee5e6b4b0d3255bfef95601890afd80709",
        "2aae6c35c94fcfb415dbe95f408b9ce91ee846ed",
        "0000000000000000000000000000000000000000",
    ] {
        let h = tools::blob::Hash::from_hex(text).unwrap();
        assert!(matches!(
            tools::blob::BlobStore::get_vec(&bs, &h),
            Err(Error::NotFound)
        ));
    }
}
