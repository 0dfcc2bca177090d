use fsx_tools::content::{comparison_chunk, Comparison, ContentFacts, Need, Side};
use std::io::{self, Read};

fn streams_equal(
    source: &mut impl Read,
    destination: &mut impl Read,
    chunk: usize,
) -> io::Result<bool> {
    let mut comparison = Comparison::new(chunk);
    let mut buffer = vec![0u8; chunk];
    loop {
        let (side, max) = match comparison.next() {
            Need::Verdict { equal } => return Ok(equal),
            Need::Read { side, max } => (side, max),
        };
        let read = match side {
            Side::Source => source.read(&mut buffer[..max]),
            Side::Destination => destination.read(&mut buffer[..max]),
        };
        match read {
            Ok(count) => comparison.feed(&buffer[..count]),
            Err(error) if error.kind() == io::ErrorKind::Interrupted => continue,
            Err(error) => return Err(error),
        }
    }
}

struct ShortReader<'a> {
    bytes: &'a [u8],
    max: usize,
    interrupted_once: bool,
}

impl Read for ShortReader<'_> {
    fn read(&mut self, buffer: &mut [u8]) -> io::Result<usize> {
        if !self.interrupted_once {
            self.interrupted_once = true;
            return Err(io::ErrorKind::Interrupted.into());
        }
        let length = buffer.len().min(self.max);
        self.bytes.read(&mut buffer[..length])
    }
}

#[test]
fn different_short_read_boundaries_do_not_imply_different_content() {
    let bytes = b"same bytes, differently sized reads";
    let mut a = ShortReader {
        bytes,
        max: 2,
        interrupted_once: false,
    };
    let mut b = ShortReader {
        bytes,
        max: 7,
        interrupted_once: false,
    };
    assert!(streams_equal(&mut a, &mut b, 8).unwrap());
}

#[test]
fn mismatch_stops_after_first_chunk_and_detects_length_changes() {
    let mut a = &b"aaaa........"[..];
    let mut b = &b"baaa........"[..];
    assert!(!streams_equal(&mut a, &mut b, 4).unwrap());
    assert_eq!(a.len(), 8);
    assert_eq!(b.len(), 8);
    assert!(!streams_equal(&mut &b"short"[..], &mut &b"shorter"[..], 4).unwrap());
    assert!(streams_equal(&mut &b""[..], &mut &b""[..], 4).unwrap());
}

struct Broken;

impl Read for Broken {
    fn read(&mut self, _: &mut [u8]) -> io::Result<usize> {
        Err(io::ErrorKind::PermissionDenied.into())
    }
}

#[test]
fn read_errors_are_not_treated_as_identity() {
    assert_eq!(
        streams_equal(&mut Broken, &mut &b"x"[..], 8)
            .unwrap_err()
            .kind(),
        io::ErrorKind::PermissionDenied
    );
}

#[test]
fn a_difference_in_a_later_chunk_is_found() {
    assert!(!streams_equal(&mut &b"12345678x"[..], &mut &b"12345678y"[..], 4).unwrap());
    assert!(streams_equal(&mut &b"12345678x"[..], &mut &b"12345678x"[..], 4).unwrap());
    assert!(!streams_equal(&mut &b"1234"[..], &mut &b""[..], 4).unwrap());
}

#[test]
fn files_of_different_size_or_kind_are_not_read() {
    let facts = |source_is_file, destination_is_file, source_len, destination_len| ContentFacts {
        source_is_file,
        destination_is_file,
        source_len,
        destination_len,
    };
    assert_eq!(comparison_chunk(facts(false, true, 3, 3)), None);
    assert_eq!(comparison_chunk(facts(true, false, 3, 3)), None);
    assert_eq!(comparison_chunk(facts(true, true, 3, 4)), None);
    assert_eq!(comparison_chunk(facts(true, true, 0, 0)), Some(1));
    assert_eq!(comparison_chunk(facts(true, true, 7, 7)), Some(7));
    assert_eq!(
        comparison_chunk(facts(true, true, 5 << 20, 5 << 20)),
        Some(1 << 20)
    );
}
