//! Byte-by-byte comparison of two streams, chunk by chunk.

use vstd::prelude::*;

verus! {

/// One of the two streams.
#[derive(Clone, Copy, Debug, PartialEq, Eq, Structural)]
pub enum Side {
    Source,
    Destination,
}

/// What a comparison needs next.
#[derive(Clone, Copy, Debug, PartialEq, Eq, Structural)]
pub enum Need {
    /// At most `max` bytes from a stream; none means that it has ended.
    Read { side: Side, max: usize },
    /// Nothing: the streams are equal, or they are not.
    Verdict { equal: bool },
}

/// What came of one stream: its bytes, and whether it ended in the chunk that
/// is being compared.
pub struct Received {
    pub bytes: Seq<u8>,
    pub ended: bool,
}

/// Whether a stream can be what was received of it.
pub open spec fn fits(stream: Seq<u8>, got: Received) -> bool {
    &&& got.bytes.len() <= stream.len()
    &&& stream.take(got.bytes.len() as int) == got.bytes
    &&& got.ended ==> stream == got.bytes
}

/// A comparison under way.
pub struct Comparison {
    chunk: usize,
    source: Vec<u8>,
    destination: Vec<u8>,
    source_filled: bool,
    destination_filled: bool,
    verdict: Option<bool>,
    /// What both streams had in the chunks before.
    settled: Ghost<Seq<u8>>,
    source_ended: Ghost<bool>,
    destination_ended: Ghost<bool>,
}

impl Comparison {
    /// What came of the source.
    pub closed spec fn from_source(&self) -> Received {
        Received { bytes: self.settled@ + self.source@, ended: self.source_ended@ }
    }

    /// What came of the destination.
    pub closed spec fn from_destination(&self) -> Received {
        Received { bytes: self.settled@ + self.destination@, ended: self.destination_ended@ }
    }

    /// How many bytes both streams had in the chunks before.
    pub closed spec fn settled_bytes(&self) -> nat {
        self.settled@.len()
    }

    pub closed spec fn chunk_size(&self) -> nat {
        self.chunk as nat
    }

    /// What is needed next.
    pub closed spec fn needs(&self) -> Need {
        match self.verdict {
            Some(equal) => Need::Verdict { equal },
            None => if !self.source_filled {
                Need::Read {
                    side: Side::Source,
                    max: (self.chunk - self.source@.len()) as usize,
                }
            } else {
                Need::Read {
                    side: Side::Destination,
                    max: (self.chunk - self.destination@.len()) as usize,
                }
            },
        }
    }

    pub closed spec fn wf(&self) -> bool {
        &&& self.chunk > 0
        &&& self.source@.len() <= self.chunk
        &&& self.destination@.len() <= self.chunk
        &&& self.source_filled == (self.source@.len() == self.chunk || self.source_ended@)
        &&& self.destination_filled == (self.destination@.len() == self.chunk
            || self.destination_ended@)
        &&& !self.source_filled ==> self.destination@.len() == 0 && !self.destination_ended@
        &&& (self.verdict is None) == !(self.source_filled && self.destination_filled)
        &&& self.verdict == Some(true) ==> self.source@.len() == 0 && self.destination@.len() == 0
            && self.source_ended@ && self.destination_ended@
        &&& self.verdict == Some(false) ==> self.source@ != self.destination@
    }

    /// Begins a comparison in chunks of a size.
    pub fn new(chunk: usize) -> (r: Self)
        requires
            chunk > 0,
        ensures
            r.wf(),
            r.chunk_size() == chunk,
            r.from_source() == (Received { bytes: Seq::empty(), ended: false }),
            r.from_destination() == (Received { bytes: Seq::empty(), ended: false }),
            r.settled_bytes() == 0,
            r.needs() == (Need::Read { side: Side::Source, max: chunk }),
    {
        let r = Comparison {
            chunk,
            source: Vec::new(),
            destination: Vec::new(),
            source_filled: false,
            destination_filled: false,
            verdict: None,
            settled: Ghost(Seq::empty()),
            source_ended: Ghost(false),
            destination_ended: Ghost(false),
        };
        assert(r.from_source().bytes == Seq::<u8>::empty());
        assert(r.from_destination().bytes == Seq::<u8>::empty());
        r
    }

    /// Tells what is needed next.
    pub fn next(&self) -> (r: Need)
        requires
            self.wf(),
        ensures
            r == self.needs(),
            r matches Need::Read { max, .. } ==> max > 0,
    {
        match self.verdict {
            Some(equal) => Need::Verdict { equal },
            None => if !self.source_filled {
                Need::Read { side: Side::Source, max: self.chunk - self.source.len() }
            } else {
                Need::Read { side: Side::Destination, max: self.chunk - self.destination.len() }
            },
        }
    }

    /// What came of the source in the chunk that is being compared.
    pub open spec fn source_part(&self) -> Seq<u8> {
        self.from_source().bytes.skip(self.settled_bytes() as int)
    }

    /// What came of the destination in the chunk that is being compared.
    pub open spec fn destination_part(&self) -> Seq<u8> {
        self.from_destination().bytes.skip(self.settled_bytes() as int)
    }

    /// What is needed after `data` has come in.
    pub open spec fn needs_after(&self, data: Seq<u8>) -> Need {
        let max = self.needs()->max;
        let full = data.len() == 0 || data.len() == max;
        if !full {
            Need::Read { side: self.needs()->side, max: (max - data.len()) as usize }
        } else if self.needs()->side == Side::Source {
            Need::Read { side: Side::Destination, max: self.chunk_size() as usize }
        } else if self.source_part() != self.destination_part() + data {
            Need::Verdict { equal: false }
        } else if self.source_part().len() == 0 {
            Need::Verdict { equal: true }
        } else {
            Need::Read { side: Side::Source, max: self.chunk_size() as usize }
        }
    }

    /// Whether `data` completes a chunk in which both streams had the same, and
    /// had something.
    pub open spec fn settles_with(&self, data: Seq<u8>) -> bool {
        &&& self.needs()->side == Side::Destination
        &&& data.len() == 0 || data.len() == self.needs()->max
        &&& self.source_part() == self.destination_part() + data
        &&& self.source_part().len() > 0
    }

    /// What came of a stream once `data` has come in from `side`. In a new chunk no
    /// stream has ended yet.
    pub open spec fn received_after(&self, stream: Side, data: Seq<u8>) -> Received {
        let got = match stream {
            Side::Source => self.from_source(),
            Side::Destination => self.from_destination(),
        };
        Received {
            bytes: if self.needs()->side == stream {
                got.bytes + data
            } else {
                got.bytes
            },
            ended: if self.settles_with(data) {
                false
            } else if self.needs()->side == stream {
                data.len() == 0
            } else {
                got.ended
            },
        }
    }

    /// Whether a comparison is what another one becomes when `data` comes in.
    pub open spec fn follows(&self, before: Self, data: Seq<u8>) -> bool {
        &&& self.chunk_size() == before.chunk_size()
        &&& self.needs() == before.needs_after(data)
        &&& self.from_source() == before.received_after(Side::Source, data)
        &&& self.from_destination() == before.received_after(Side::Destination, data)
        &&& self.settled_bytes() == (if before.settles_with(data) {
            self.from_source().bytes.len()
        } else {
            before.settled_bytes()
        })
    }

    /// Takes in what was read. An interrupted read is simply tried again.
    pub fn feed(&mut self, data: &[u8])
        requires
            old(self).wf(),
            match old(self).needs() {
                Need::Read { max, .. } => data@.len() <= max,
                Need::Verdict { .. } => false,
            },
        ensures
            final(self).wf(),
            final(self).follows(*old(self), data@),
    {
        let source_turn = !self.source_filled;
        let ghost before = *self;
        assert(self.source_part() == self.source@);
        assert(self.destination_part() == self.destination@);
        let mut i: usize = 0;
        assert(self.source@ + data@.take(0) == self.source@);
        assert(self.destination@ + data@.take(0) == self.destination@);
        if source_turn {
            while i < data.len()
                invariant
                    i <= data@.len(),
                    source_turn,
                    *self == (Comparison { source: self.source, ..before }),
                    self.source@ == before.source@ + data@.take(i as int),
                decreases data@.len() - i,
            {
                self.source.push(data[i]);
                assert(self.source@ == before.source@ + data@.take(i + 1));
                i = i + 1;
            }
            assert(data@.take(data@.len() as int) == data@);
            self.source_ended = Ghost(data@.len() == 0);
            self.source_filled = data.len() == 0 || self.source.len() == self.chunk;
            assert(self.settled@ + self.source@ == (before.settled@ + before.source@) + data@);
            return;
        }
        while i < data.len()
            invariant
                i <= data@.len(),
                *self == (Comparison { destination: self.destination, ..before }),
                self.destination@ == before.destination@ + data@.take(i as int),
            decreases data@.len() - i,
        {
            self.destination.push(data[i]);
            assert(self.destination@ == before.destination@ + data@.take(i + 1));
            i = i + 1;
        }
        assert(data@.take(data@.len() as int) == data@);
        self.destination_ended = Ghost(data@.len() == 0);
        self.destination_filled = data.len() == 0 || self.destination.len() == self.chunk;
        assert(self.settled@ + self.destination@ == (before.settled@ + before.destination@)
            + data@);
        if !self.destination_filled {
            return;
        }
        if !same_bytes(self.source.as_slice(), self.destination.as_slice()) {
            self.verdict = Some(false);
        } else if self.source.len() == 0 {
            self.verdict = Some(true);
        } else {
            let ghost all = self.settled@ + self.source@;
            self.settled = Ghost(all);
            self.source = Vec::new();
            self.destination = Vec::new();
            self.source_filled = false;
            self.destination_filled = false;
            self.source_ended = Ghost(false);
            self.destination_ended = Ghost(false);
            assert(self.settled@ + self.source@ == all);
            assert(self.settled@ + self.destination@ == all);
        }
    }

    /// A verdict is right of all streams that can be what was received.
    pub proof fn law_verdict_is_right(&self, source: Seq<u8>, destination: Seq<u8>)
        requires
            self.wf(),
            self.needs() is Verdict,
            fits(source, self.from_source()),
            fits(destination, self.from_destination()),
        ensures
            self.needs()->equal == (source == destination),
    {
        let a = self.source@;
        let b = self.destination@;
        let s = self.from_source();
        let d = self.from_destination();
        if source == destination && self.needs()->equal == false {
            assert(a != b);
            if a.len() == b.len() {
                assert(s.bytes.skip(self.settled@.len() as int) == a);
                assert(d.bytes.skip(self.settled@.len() as int) == b);
                assert(s.bytes == d.bytes);
            } else if a.len() < b.len() {
                assert(source == s.bytes);
            } else {
                assert(destination == d.bytes);
            }
        }
    }

    /// What reads in good faith bring is part of the streams that they read.
    pub proof fn law_reads_fit(
        &self,
        before: Self,
        data: Seq<u8>,
        source: Seq<u8>,
        destination: Seq<u8>,
    )
        requires
            before.wf(),
            self.follows(before, data),
            fits(source, before.from_source()),
            fits(destination, before.from_destination()),
            before.reads_well(data, source, destination),
        ensures
            fits(source, self.from_source()),
            fits(destination, self.from_destination()),
    {
        let s = self.from_source();
        let d = self.from_destination();
        if before.needs()->side == Side::Source {
            assert(source.take(s.bytes.len() as int) == s.bytes);
            if data.len() == 0 {
                assert(before.from_source().bytes + data == before.from_source().bytes);
                assert(source.take(source.len() as int) == source);
            }
        } else {
            assert(destination.take(d.bytes.len() as int) == d.bytes);
            if data.len() == 0 {
                assert(before.from_destination().bytes + data == before.from_destination().bytes);
                assert(destination.take(destination.len() as int) == destination);
            }
        }
    }

    /// Whether a read is in good faith: it brings what comes next in its stream, as
    /// much as is asked for at most, and nothing only at the end.
    pub open spec fn reads_well(
        &self,
        data: Seq<u8>,
        source: Seq<u8>,
        destination: Seq<u8>,
    ) -> bool {
        let (stream, got) = match self.needs()->side {
            Side::Source => (source, self.from_source().bytes),
            Side::Destination => (destination, self.from_destination().bytes),
        };
        &&& self.needs() is Read
        &&& data.len() <= self.needs()->max
        &&& got.len() + data.len() <= stream.len()
        &&& stream.subrange(got.len() as int, (got.len() + data.len()) as int) == data
        &&& data.len() == 0 ==> got.len() == stream.len()
    }

    /// How many reads two streams take at most from here on.
    pub open spec fn reads_left(&self, source: Seq<u8>, destination: Seq<u8>) -> int {
        (source.len() - self.from_source().bytes.len() + destination.len()
            - self.from_destination().bytes.len()) * 5 + (match self.needs() {
            Need::Verdict { .. } => 0int,
            Need::Read { side: Side::Destination, .. } => if self.source_part().len() == 0 {
                1
            } else {
                3
            },
            Need::Read { side: Side::Source, .. } => if self.source_part().len() == 0 {
                2
            } else {
                4
            },
        })
    }

    /// Every read brings the verdict nearer.
    pub proof fn law_every_read_counts(
        &self,
        before: Self,
        data: Seq<u8>,
        source: Seq<u8>,
        destination: Seq<u8>,
    )
        requires
            before.wf(),
            self.wf(),
            self.follows(before, data),
            fits(source, before.from_source()),
            fits(destination, before.from_destination()),
            before.reads_well(data, source, destination),
        ensures
            0 <= self.reads_left(source, destination) < before.reads_left(source, destination),
    {
        self.law_reads_fit(before, data, source, destination);
        assert(before.source_part() == before.source@);
        assert(before.destination_part() == before.destination@);
        assert(self.source_part() == self.source@);
        assert(before.from_source().bytes + Seq::<u8>::empty() == before.from_source().bytes);
        if data.len() == 0 {
            assert(data == Seq::<u8>::empty());
            if before.needs()->side == Side::Source {
                assert(self.from_source().bytes == before.from_source().bytes);
                assert(self.source_part() == before.source_part());
            } else {
                assert(before.from_destination().bytes + data == before.from_destination().bytes);
                if !before.settles_with(data) {
                    assert(self.needs() is Verdict);
                } else {
                    assert(self.source_part().len() == 0);
                }
            }
        }
    }

    /// Whether comparisons follow one another, from the start, by reads in good faith
    /// of two streams.
    pub open spec fn is_course(
        course: Seq<Self>,
        reads: Seq<Seq<u8>>,
        source: Seq<u8>,
        destination: Seq<u8>,
    ) -> bool {
        let none = Received { bytes: Seq::empty(), ended: false };
        &&& course.len() == reads.len() + 1
        &&& course[0].from_source() == none
        &&& course[0].from_destination() == none
        &&& course[0].needs() == (Need::Read {
            side: Side::Source,
            max: course[0].chunk_size() as usize,
        })
        &&& forall|k: int| 0 <= k < course.len() ==> (#[trigger] course[k]).wf()
        &&& forall|k: int|
            #![trigger reads[k]]
            0 <= k < reads.len() ==> course[k].reads_well(reads[k], source, destination)
                && course[k + 1].follows(course[k], reads[k])
    }

    /// However the reads of two streams are cut, a verdict is reached after a limited
    /// number of them, and it says whether the streams are equal.
    pub proof fn law_streams_are_told_apart(
        course: Seq<Self>,
        reads: Seq<Seq<u8>>,
        source: Seq<u8>,
        destination: Seq<u8>,
    )
        requires
            Self::is_course(course, reads, source, destination),
        ensures
            reads.len() <= (source.len() + destination.len()) * 5 + 2,
            course.last().needs() is Verdict ==> course.last().needs()->equal == (source
                == destination),
            reads.len() == (source.len() + destination.len()) * 5 + 2 ==> course.last().needs()
                is Verdict,
    {
        Self::lemma_course(course, reads, source, destination, reads.len() as int);
        let last = course.last();
        assert(last == course[reads.len() as int]);
        if last.needs() is Verdict {
            last.law_verdict_is_right(source, destination);
        }
    }

    proof fn lemma_course(
        course: Seq<Self>,
        reads: Seq<Seq<u8>>,
        source: Seq<u8>,
        destination: Seq<u8>,
        k: int,
    )
        requires
            Self::is_course(course, reads, source, destination),
            0 <= k <= reads.len(),
        ensures
            fits(source, course[k].from_source()),
            fits(destination, course[k].from_destination()),
            0 <= course[k].reads_left(source, destination) <= (source.len() + destination.len()) * 5
                + 2 - k,
        decreases k,
    {
        if k == 0 {
            let first = course[0];
            assert(source.take(0) == Seq::<u8>::empty());
            assert(destination.take(0) == Seq::<u8>::empty());
            assert(first.source_part().len() == 0) by {
                assert(first.wf());
            }
        } else {
            Self::lemma_course(course, reads, source, destination, k - 1);
            assert(course[k - 1].reads_well(reads[k - 1], source, destination));
            assert(course[k - 1 + 1].follows(course[k - 1], reads[k - 1]));
            assert(course[k].wf() && course[k - 1].wf());
            course[k].law_reads_fit(course[k - 1], reads[k - 1], source, destination);
            course[k].law_every_read_counts(course[k - 1], reads[k - 1], source, destination);
        }
    }

    /// A difference shows within one chunk behind what was found equal.
    pub proof fn law_a_difference_is_found_early(&self)
        requires
            self.wf(),
        ensures
            self.from_source().bytes.len() <= self.settled_bytes() + self.chunk_size(),
            self.from_destination().bytes.len() <= self.settled_bytes() + self.chunk_size(),
    {
    }
}

fn same_bytes(a: &[u8], b: &[u8]) -> (r: bool)
    ensures
        r == (a@ == b@),
{
    if a.len() != b.len() {
        return false;
    }
    let mut i: usize = 0;
    while i < a.len()
        invariant
            i <= a@.len(),
            a@.len() == b@.len(),
            forall|k: int| 0 <= k < i ==> a@[k] == b@[k],
        decreases a@.len() - i,
    {
        if a[i] != b[i] {
            assert(a@[i as int] != b@[i as int]);
            return false;
        }
        i = i + 1;
    }
    assert(a@ == b@);
    true
}

/// What two paths are, as far as their contents may be equal.
#[derive(Clone, Copy, Debug)]
pub struct ContentFacts {
    pub source_is_file: bool,
    pub destination_is_file: bool,
    pub source_len: u64,
    pub destination_len: u64,
}

/// The size of the chunks in which two files are compared: their length, but
/// at least one byte and at most a mebibyte. Without a comparison it is known
/// that things that are not files, or differ in length, differ.
pub open spec fn chunk_of(f: ContentFacts) -> Option<usize> {
    if !f.source_is_file || !f.destination_is_file || f.source_len != f.destination_len {
        None
    } else if f.source_len == 0 {
        Some(1usize)
    } else if f.source_len > 0x10_0000 {
        Some(0x10_0000usize)
    } else {
        Some(f.source_len as usize)
    }
}

/// Two files are compared byte by byte if and only if they are as long as each other. A
/// chunk holds something, no more than a mebibyte, and all of a file that fits.
pub proof fn law_only_files_of_a_length_are_compared(f: ContentFacts)
    ensures
        chunk_of(f) is Some <==> f.source_is_file && f.destination_is_file && f.source_len
            == f.destination_len,
        chunk_of(f) matches Some(n) ==> {
            &&& 1 <= n <= 1024 * 1024
            &&& f.source_len <= 1024 * 1024 ==> n >= f.source_len
            &&& n > 1 ==> n <= f.source_len
            &&& f.source_len > 1024 * 1024 ==> n == 1024 * 1024
        },
{
}

/// Finds the size of the chunks in which two files are compared.
pub fn comparison_chunk(f: ContentFacts) -> (r: Option<usize>)
    ensures
        r == chunk_of(f),
{
    if !f.source_is_file || !f.destination_is_file || f.source_len != f.destination_len {
        None
    } else if f.source_len == 0 {
        Some(1)
    } else if f.source_len > 1024 * 1024 {
        Some(1024 * 1024)
    } else {
        Some(f.source_len as usize)
    }
}

impl Comparison {
    /// A read that brings something, but less than was asked for, is continued on the same
    /// stream. A full chunk of the source is followed by one of the destination, and two
    /// equal ones by the next of the source, until both streams end.
    pub proof fn law_chunks_are_filled(&self, data: Seq<u8>)
        requires
            self.wf(),
            self.needs() is Read,
            data.len() <= self.needs()->max,
        ensures
            0 < data.len() < self.needs()->max ==> self.needs_after(data) == (Need::Read {
                side: self.needs()->side,
                max: (self.needs()->max - data.len()) as usize,
            }),
            self.needs()->side == Side::Source && (data.len() == 0 || data.len()
                == self.needs()->max) ==> self.needs_after(data) == (Need::Read {
                side: Side::Destination,
                max: self.chunk_size() as usize,
            }),
            self.needs()->side == Side::Destination && (data.len() == 0 || data.len()
                == self.needs()->max) && self.source_part() == self.destination_part() + data
                && self.source_part().len() > 0 ==> self.needs_after(data) == (Need::Read {
                side: Side::Source,
                max: self.chunk_size() as usize,
            }),
            self.needs_after(data) is Verdict ==> self.needs()->side == Side::Destination && (
            data.len() == 0 || data.len() == self.needs()->max),
    {
    }
}

} // verus!
