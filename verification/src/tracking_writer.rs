//! An output sink that keeps a bounded window of the bytes it emitted, so
//! that LZ77 back-references can be resolved, and tracks the byte count and
//! CRC32 of the current gzip member.
use vstd::prelude::*;

use crate::Error;

verus! {

/// The checksum that the CRC-32/ISO-HDLC algorithm assigns to a byte
/// sequence; it depends on the bytes alone.
pub uninterp spec fn spec_crc32(data: Seq<u8>) -> u32;

/// Relies on the crc crate's `Crc::<u32>::checksum` with `CRC_32_ISO_HDLC`:
/// a pure function of the input bytes.
#[verifier::external_body]
pub(crate) fn crc32_checksum(data: &[u8]) -> (r: u32)
    ensures
        r == spec_crc32(data@),
{
    crc::Crc::<u32>::new(&crc::CRC_32_ISO_HDLC).checksum(data)
}

/// DEFLATE bounds back-reference distances by this window size.
pub const HISTORY_SIZE: usize = 32768;

/// The bytes that a back-reference of distance `dist` and length `n` appends
/// when the bytes written so far are `member`: the copy proceeds in
/// `dist`-sized chunks, so it repeats the last `dist` bytes cyclically.
pub open spec fn backref_seq(member: Seq<u8>, dist: int, n: int) -> Seq<u8> {
    Seq::new(n as nat, |j: int| member[member.len() - dist + (j % dist)])
}

/// A sink with a fixed total capacity that records everything it accepts,
/// the tail of the current member in a bounded history window, and enough
/// state to compute the member's CRC32 and length.
pub struct TrackingWriter {
    /// Every byte the sink has accepted.
    pub out: Vec<u8>,
    /// How many bytes the sink accepts in total.
    pub cap: usize,
    /// Bytes accepted since the last flush (the current member).
    pub len: usize,
    /// The most recent `min(len, HISTORY_SIZE)` bytes.
    pub hist: Vec<u8>,
}

impl TrackingWriter {
    pub open spec fn wf(self) -> bool {
        &&& self.len <= self.out@.len()
        &&& self.out@.len() <= self.cap
        &&& self.hist@.len() == if self.len < 32768 {
            self.len as int
        } else {
            32768int
        }
        &&& self.hist@ == self.out@.skip(self.out@.len() - self.hist@.len())
    }

    /// The bytes of the current member: everything accepted since the last
    /// flush.
    pub open spec fn member_bytes(self) -> Seq<u8> {
        self.out@.skip(self.out@.len() - self.len)
    }

    /// A fresh writer over a sink that will accept at most `capacity` bytes.
    pub fn new(capacity: usize) -> (r: Self)
        ensures
            r.wf(),
            r.out@ == Seq::<u8>::empty(),
            r.cap == capacity,
            r.len == 0,
    {
        let r = Self { out: Vec::new(), cap: capacity, len: 0, hist: Vec::new() };
        proof {
            assert(r.hist@ =~= r.out@.skip(0));
        }
        r
    }

    /// Appends one byte to the sink, the member, and the history window,
    /// evicting the window's oldest byte once it is full.
    fn push_byte(&mut self, b: u8)
        requires
            old(self).wf(),
            old(self).out@.len() < old(self).cap,
        ensures
            final(self).wf(),
            final(self).cap == old(self).cap,
            final(self).out@ == old(self).out@.push(b),
            final(self).len == old(self).len + 1,
    {
        let ghost prev = *self;
        self.out.push(b);
        if self.hist.len() == HISTORY_SIZE {
            self.hist.remove(0);
        }
        self.hist.push(b);
        self.len = self.len + 1;
        proof {
            assert(self.hist@ =~= self.out@.skip(self.out@.len() - self.hist@.len()));
        }
    }

    /// Writes as much of `buf` as the sink's capacity still admits and
    /// returns how many bytes were accepted, like a byte sink's plain write.
    pub fn write(&mut self, buf: &[u8]) -> (r: Result<usize, Error>)
        requires
            old(self).wf(),
        ensures
            final(self).wf(),
            final(self).cap == old(self).cap,
            ({
                let w = if buf@.len() <= old(self).cap - old(self).out@.len() {
                    buf@.len() as int
                } else {
                    old(self).cap - old(self).out@.len()
                };
                r == Ok::<usize, Error>(w as usize) && final(self).out@ == old(self).out@
                    + buf@.take(w) && final(self).len == old(self).len + w
            }),
    {
        let room = self.cap - self.out.len();
        let written = if buf.len() <= room {
            buf.len()
        } else {
            room
        };
        let ghost prev = *self;
        let mut i: usize = 0;
        while i < written
            invariant
                self.wf(),
                i <= written,
                written <= buf@.len(),
                written <= prev.cap - prev.out@.len(),
                self.cap == prev.cap,
                self.out@ == prev.out@ + buf@.take(i as int),
                self.len == prev.len + i,
                prev.wf(),
            decreases written - i,
        {
            self.push_byte(buf[i]);
            i = i + 1;
            proof {
                assert(self.out@ =~= prev.out@ + buf@.take(i as int));
            }
        }
        Ok(written)
    }

    /// Begins a new member: the byte count, the history window and with them
    /// the member's CRC32 start over.  Bytes already written stay in the sink.
    pub fn flush(&mut self)
        requires
            old(self).wf(),
        ensures
            final(self).wf(),
            final(self).cap == old(self).cap,
            final(self).out@ == old(self).out@,
            final(self).len == 0,
    {
        self.len = 0;
        self.hist = Vec::new();
        proof {
            assert(self.hist@ =~= self.out@.skip(self.out@.len() as int));
        }
    }

    /// Copies `len` bytes starting `dist` bytes back from the current write
    /// position, wrapping through the copied bytes themselves when
    /// `len > dist`.  Fails without changing anything if `dist` exceeds the
    /// member's written length or the window bound; fails after writing what
    /// fits if the sink's capacity runs out.
    pub fn write_previous(&mut self, dist: usize, len: usize) -> (r: Result<(), Error>)
        requires
            old(self).wf(),
            dist >= 1,
        ensures
            final(self).wf(),
            final(self).cap == old(self).cap,
            dist > old(self).len || dist > 32768 ==> r == Err::<(), Error>(
                Error::BadBackreferenceDistance,
            ) && *final(self) == *old(self),
            dist >= 1 && dist <= old(self).len && dist <= 32768 ==> ({
                let room = old(self).cap - old(self).out@.len();
                let n = if len <= room {
                    len as int
                } else {
                    room
                };
                final(self).out@ == old(self).out@ + backref_seq(
                    old(self).member_bytes(),
                    dist as int,
                    n,
                ) && final(self).len == old(self).len + n && r == (if n == len {
                    Ok::<(), Error>(())
                } else {
                    Err::<(), Error>(Error::WriteFailed)
                })
            }),
    {
        if dist > self.len || dist > HISTORY_SIZE {
            return Err(Error::BadBackreferenceDistance);
        }
        let ghost prev = *self;
        // Snapshot the `dist` bytes that end at the current position.
        let mut data: Vec<u8> = Vec::new();
        let start = self.hist.len() - dist;
        let mut i: usize = 0;
        while i < dist
            invariant
                *self == prev,
                prev.wf(),
                1 <= dist <= prev.hist@.len(),
                start == prev.hist@.len() - dist,
                i <= dist,
                data@ == prev.hist@.skip(start as int).take(i as int),
            decreases dist - i,
        {
            data.push(self.hist[start + i]);
            i = i + 1;
            proof {
                assert(data@ =~= prev.hist@.skip(start as int).take(i as int));
            }
        }
        proof {
            assert(data@ =~= prev.hist@.skip(start as int));
            assert forall|j: int| 0 <= j < dist implies data@[j] == prev.member_bytes()[
                prev.member_bytes().len() - dist + j
            ] by {
                assert(prev.hist@[start + j] == prev.out@[prev.out@.len() - dist + j]);
            }
        }
        let room = self.cap - self.out.len();
        let n = if len <= room {
            len
        } else {
            room
        };
        proof {
            assert(prev.out@ + backref_seq(prev.member_bytes(), dist as int, 0) =~= prev.out@);
        }
        let mut j: usize = 0;
        while j < n
            invariant
                self.wf(),
                prev.wf(),
                1 <= dist,
                data@.len() == dist,
                j <= n,
                n <= prev.cap - prev.out@.len(),
                self.cap == prev.cap,
                self.out@ == prev.out@ + backref_seq(prev.member_bytes(), dist as int, j as int),
                self.len == prev.len + j,
                forall|k: int|
                    0 <= k < dist ==> #[trigger] data@[k] == prev.member_bytes()[
                        prev.member_bytes().len() - dist + k
                    ],
            decreases n - j,
        {
            self.push_byte(data[j % dist]);
            j = j + 1;
            proof {
                assert(self.out@ =~= prev.out@ + backref_seq(
                    prev.member_bytes(),
                    dist as int,
                    j as int,
                ));
            }
        }
        if n < len {
            Err(Error::WriteFailed)
        } else {
            Ok(())
        }
    }

    /// How many bytes the current member holds so far.
    pub fn byte_count(&self) -> (r: usize)
        ensures
            r == self.len,
    {
        self.len
    }

    /// The CRC32 of the current member's bytes.
    pub fn crc32(&self) -> (r: u32)
        requires
            self.wf(),
        ensures
            r == spec_crc32(self.member_bytes()),
    {
        let mut member: Vec<u8> = Vec::new();
        let start = self.out.len() - self.len;
        let mut i: usize = 0;
        while i < self.len
            invariant
                self.wf(),
                self.out@.len() <= usize::MAX,
                start == self.out@.len() - self.len,
                i <= self.len,
                member@ == self.member_bytes().take(i as int),
            decreases self.len - i,
        {
            member.push(self.out[start + i]);
            i = i + 1;
            proof {
                assert(member@ =~= self.member_bytes().take(i as int));
            }
        }
        proof {
            assert(member@ =~= self.member_bytes());
        }
        crc32_checksum(member.as_slice())
    }

    /// Hands the accepted bytes out, consuming the writer.
    pub fn into_bytes(self) -> (r: Vec<u8>)
        ensures
            r@ == self.out@,
    {
        self.out
    }
}

} // verus!
