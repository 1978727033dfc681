use vstd::prelude::*;

use crate::error::DnsError;
use crate::name::{spec_parse_name, DnsName, MAX_JUMPS};

verus! {

/// Big-endian value of two bytes.
pub open spec fn spec_u16(hi: u8, lo: u8) -> u16 {
    (hi as u16) << 8 | (lo as u16)
}

/// Big-endian value of four bytes.
pub open spec fn spec_u32(b0: u8, b1: u8, b2: u8, b3: u8) -> u32 {
    (b0 as u32) << 24 | (b1 as u32) << 16 | (b2 as u32) << 8 | (b3 as u32)
}

/// The two big-endian bytes of a 16-bit value.
pub open spec fn spec_u16_bytes(x: u16) -> Seq<u8> {
    seq![((x >> 8) & 0xFF) as u8, (x & 0xFF) as u8]
}

/// The four big-endian bytes of a 32-bit value.
pub open spec fn spec_u32_bytes(x: u32) -> Seq<u8> {
    seq![
        ((x >> 24) & 0xFF) as u8,
        ((x >> 16) & 0xFF) as u8,
        ((x >> 8) & 0xFF) as u8,
        (x & 0xFF) as u8,
    ]
}

/// Writing a 16-bit value big-endian and reading it back is the identity.
pub proof fn lemma_u16_round_trip(x: u16)
    ensures
        spec_u16(spec_u16_bytes(x)[0], spec_u16_bytes(x)[1]) == x,
{
    assert(((((x >> 8) & 0xFF) as u8) as u16) << 8 | (((x & 0xFF) as u8) as u16) == x)
        by (bit_vector);
}

/// Writing a 32-bit value big-endian and reading it back is the identity.
pub proof fn lemma_u32_round_trip(x: u32)
    ensures
        spec_u32(
            spec_u32_bytes(x)[0],
            spec_u32_bytes(x)[1],
            spec_u32_bytes(x)[2],
            spec_u32_bytes(x)[3],
        ) == x,
{
    assert(((((x >> 24) & 0xFF) as u8) as u32) << 24 | ((((x >> 16) & 0xFF) as u8) as u32) << 16
        | ((((x >> 8) & 0xFF) as u8) as u32) << 8 | (((x & 0xFF) as u8) as u32) == x)
        by (bit_vector);
}

/// A piece of an encoding that sits at `pos` of `buf` can be recovered as a
/// subrange of `buf`.
pub proof fn lemma_embedded_subrange(buf: Seq<u8>, pos: int, e: Seq<u8>, a: int, b: int)
    requires
        0 <= pos,
        pos + e.len() <= buf.len(),
        buf.subrange(pos, pos + e.len()) == e,
        0 <= a <= b <= e.len(),
    ensures
        buf.subrange(pos + a, pos + b) == e.subrange(a, b),
{
    assert forall|i: int| 0 <= i < b - a implies buf.subrange(pos + a, pos + b)[i] == e.subrange(
        a,
        b,
    )[i] by {
        assert(buf.subrange(pos, pos + e.len())[a + i] == e[a + i]);
    }
    assert(buf.subrange(pos + a, pos + b) =~= e.subrange(a, b));
}

/// A single byte of an encoding that sits at `pos` of `buf`.
pub proof fn lemma_embedded_byte(buf: Seq<u8>, pos: int, e: Seq<u8>, k: int)
    requires
        0 <= pos,
        pos + e.len() <= buf.len(),
        buf.subrange(pos, pos + e.len()) == e,
        0 <= k < e.len(),
    ensures
        buf[pos + k] == e[k],
{
    assert(buf.subrange(pos, pos + e.len())[k] == e[k]);
}

/// A bounds-checked read window over a byte buffer: an immutable view of the
/// bytes plus a read position. Every multi-byte read is big-endian; a read
/// that would pass the end of the buffer fails and leaves the position
/// unchanged.
pub struct PacketBuffer<'a> {
    buf: &'a [u8],
    pos: usize,
}

/// A cursor position is an unsigned offset.
pub broadcast proof fn lemma_pos_nonneg<'a>(b: PacketBuffer<'a>)
    ensures
        #[trigger] b.spec_pos() >= 0,
{
}

impl<'a> PacketBuffer<'a> {
    /// The bytes this cursor ranges over.
    pub closed spec fn bytes(&self) -> Seq<u8> {
        self.buf@
    }

    /// The current read position.
    pub closed spec fn spec_pos(&self) -> int {
        self.pos as int
    }

    /// How many bytes remain readable from the current position.
    pub open spec fn spec_remaining(&self) -> int {
        if self.spec_pos() <= self.bytes().len() {
            self.bytes().len() - self.spec_pos()
        } else {
            0
        }
    }

    pub fn from_bytes(bytes: &'a [u8]) -> (r: Self)
        ensures
            r.bytes() == bytes@,
            r.spec_pos() == 0,
    {
        PacketBuffer { buf: bytes, pos: 0 }
    }

    /// The current read position, for saving before a name-compression jump.
    pub fn get_pos(&self) -> (r: usize)
        ensures
            r == self.spec_pos(),
    {
        self.pos
    }

    /// Move the read position; used to jump into a compressed name and to
    /// restore the saved position afterwards.
    pub fn seek(&mut self, pos: usize)
        ensures
            final(self).bytes() == old(self).bytes(),
            final(self).spec_pos() == pos,
    {
        self.pos = pos;
    }

    /// How many bytes remain readable from the current position.
    pub fn remaining(&self) -> (r: usize)
        ensures
            r == self.spec_remaining(),
    {
        if self.pos <= self.buf.len() {
            self.buf.len() - self.pos
        } else {
            0
        }
    }

    /// Read one byte without moving the position; `pos` is an absolute
    /// offset into the buffer.
    pub fn peek_u8(&self, pos: usize) -> (r: Result<u8, DnsError>)
        ensures
            match r {
                Ok(b) => pos < self.bytes().len() && b == self.bytes()[pos as int],
                Err(e) => e == DnsError::BufferUnderrun && pos >= self.bytes().len(),
            },
    {
        if pos >= self.buf.len() {
            return Err(DnsError::BufferUnderrun);
        }
        Ok(self.buf[pos])
    }

    pub fn read_u8(&mut self) -> (r: Result<u8, DnsError>)
        ensures
            final(self).bytes() == old(self).bytes(),
            match r {
                Ok(b) => {
                    &&& old(self).spec_pos() < old(self).bytes().len()
                    &&& b == old(self).bytes()[old(self).spec_pos()]
                    &&& final(self).spec_pos() == old(self).spec_pos() + 1
                },
                Err(e) => {
                    &&& e == DnsError::BufferUnderrun
                    &&& old(self).spec_pos() >= old(self).bytes().len()
                    &&& final(self).spec_pos() == old(self).spec_pos()
                },
            },
    {
        if self.pos >= self.buf.len() {
            return Err(DnsError::BufferUnderrun);
        }
        let b = self.buf[self.pos];
        self.pos = self.pos + 1;
        Ok(b)
    }

    pub fn read_u16(&mut self) -> (r: Result<u16, DnsError>)
        ensures
            final(self).bytes() == old(self).bytes(),
            match r {
                Ok(v) => {
                    &&& old(self).spec_pos() + 2 <= old(self).bytes().len()
                    &&& v == spec_u16(
                        old(self).bytes()[old(self).spec_pos()],
                        old(self).bytes()[old(self).spec_pos() + 1],
                    )
                    &&& final(self).spec_pos() == old(self).spec_pos() + 2
                },
                Err(e) => {
                    &&& e == DnsError::BufferUnderrun
                    &&& old(self).spec_pos() + 2 > old(self).bytes().len()
                    &&& final(self).spec_pos() == old(self).spec_pos()
                },
            },
    {
        if self.remaining() < 2 {
            return Err(DnsError::BufferUnderrun);
        }
        let b0 = self.buf[self.pos];
        let b1 = self.buf[self.pos + 1];
        self.pos = self.pos + 2;
        Ok((b0 as u16) << 8 | (b1 as u16))
    }

    pub fn read_u32(&mut self) -> (r: Result<u32, DnsError>)
        ensures
            final(self).bytes() == old(self).bytes(),
            match r {
                Ok(v) => {
                    &&& old(self).spec_pos() + 4 <= old(self).bytes().len()
                    &&& v == spec_u32(
                        old(self).bytes()[old(self).spec_pos()],
                        old(self).bytes()[old(self).spec_pos() + 1],
                        old(self).bytes()[old(self).spec_pos() + 2],
                        old(self).bytes()[old(self).spec_pos() + 3],
                    )
                    &&& final(self).spec_pos() == old(self).spec_pos() + 4
                },
                Err(e) => {
                    &&& e == DnsError::BufferUnderrun
                    &&& old(self).spec_pos() + 4 > old(self).bytes().len()
                    &&& final(self).spec_pos() == old(self).spec_pos()
                },
            },
    {
        if self.remaining() < 4 {
            return Err(DnsError::BufferUnderrun);
        }
        let b0 = self.buf[self.pos];
        let b1 = self.buf[self.pos + 1];
        let b2 = self.buf[self.pos + 2];
        let b3 = self.buf[self.pos + 3];
        self.pos = self.pos + 4;
        Ok((b0 as u32) << 24 | (b1 as u32) << 16 | (b2 as u32) << 8 | (b3 as u32))
    }

    /// Read exactly `n` bytes, advancing the position past them.
    pub fn read_bytes(&mut self, n: usize) -> (r: Result<Vec<u8>, DnsError>)
        ensures
            final(self).bytes() == old(self).bytes(),
            match r {
                Ok(v) => {
                    &&& old(self).spec_pos() + n <= old(self).bytes().len()
                    &&& v@ == old(self).bytes().subrange(
                        old(self).spec_pos(),
                        old(self).spec_pos() + n,
                    )
                    &&& final(self).spec_pos() == old(self).spec_pos() + n
                },
                Err(e) => {
                    &&& e == DnsError::BufferUnderrun
                    &&& old(self).spec_pos() + n > old(self).bytes().len()
                    &&& final(self).spec_pos() == old(self).spec_pos()
                },
            },
    {
        let buf_len = self.buf.len();
        if self.pos > buf_len || buf_len - self.pos < n {
            return Err(DnsError::BufferUnderrun);
        }
        let end = self.pos + n;
        let mut v: Vec<u8> = Vec::new();
        let mut i: usize = 0;
        proof {
            assert(v@ =~= self.buf@.subrange(self.pos as int, self.pos as int));
        }
        while i < n
            invariant
                i <= n,
                end == self.pos + n,
                self.pos + n <= self.buf@.len(),
                v@ == self.buf@.subrange(self.pos as int, self.pos + i),
            decreases n - i,
        {
            v.push(self.buf[self.pos + i]);
            i = i + 1;
            proof {
                assert(v@ =~= self.buf@.subrange(self.pos as int, self.pos + i));
            }
        }
        self.pos = self.pos + n;
        Ok(v)
    }

    /// Read labels from the current position into `out`, following
    /// compression pointers with at most `jumps_left` jumps, and leave the
    /// position where decoding of the rest of the message resumes.
    fn read_labels(&mut self, jumps_left: u8, out: &mut Vec<Vec<u8>>) -> (r: Result<
        (),
        DnsError,
    >)
        ensures
            final(self).bytes() == old(self).bytes(),
            match spec_parse_name(old(self).bytes(), old(self).spec_pos(), jumps_left as nat) {
                Ok(pr) => {
                    &&& r is Ok
                    &&& final(out).deep_view() == old(out).deep_view() + pr.0
                    &&& final(self).spec_pos() == pr.1
                },
                Err(e) => r == Err::<(), DnsError>(e),
            },
        decreases jumps_left as int, self.buf@.len() - self.pos,
    {
        let start = self.pos;
        let len_byte = match self.read_u8() {
            Ok(b) => b,
            Err(e) => {
                return Err(e);
            },
        };
        if len_byte == 0 {
            proof {
                assert(out.deep_view() =~= old(out).deep_view() + Seq::<Seq<u8>>::empty());
            }
            return Ok(());
        }
        if len_byte >= 0xC0 {
            let b2 = match self.read_u8() {
                Ok(b) => b,
                Err(e) => {
                    return Err(e);
                },
            };
            let target = ((len_byte - 0xC0) as usize) * 256 + (b2 as usize);
            if jumps_left == 0 || target >= start {
                return Err(DnsError::CompressionLoopDetected);
            }
            let resume = self.pos;
            self.seek(target);
            match self.read_labels(jumps_left - 1, out) {
                Ok(()) => {
                    self.seek(resume);
                    Ok(())
                },
                Err(e) => Err(e),
            }
        } else if len_byte > 63 {
            Err(DnsError::InvalidLabelLength)
        } else {
            let buf_len = self.buf.len();
            if buf_len - self.pos < len_byte as usize {
                return Err(DnsError::InvalidLabelLength);
            }
            let label = match self.read_bytes(len_byte as usize) {
                Ok(v) => v,
                Err(e) => {
                    return Err(e);
                },
            };
            let ghost lab: Seq<u8> = label.deep_view();
            proof {
                assert(lab =~= label@);
            }
            let ghost dv0 = out.deep_view();
            out.push(label);
            proof {
                assert(out.deep_view() =~= dv0 + seq![lab]);
            }
            let res = self.read_labels(jumps_left, out);
            proof {
                if let Ok(pr) = spec_parse_name(
                    old(self).bytes(),
                    start + 1 + len_byte,
                    jumps_left as nat,
                ) {
                    assert((dv0 + seq![lab]) + pr.0 =~= dv0 + (seq![lab] + pr.0));
                }
            }
            res
        }
    }

    /// Decode one domain name at the current position. On success the
    /// position resumes after the name field (after the first pointer if the
    /// name was compressed); on failure it is left unchanged.
    pub fn read_qname(&mut self) -> (r: Result<DnsName, DnsError>)
        ensures
            final(self).bytes() == old(self).bytes(),
            match spec_parse_name(old(self).bytes(), old(self).spec_pos(), MAX_JUMPS as nat) {
                Ok(pr) => {
                    &&& r is Ok
                    &&& r->Ok_0@ == pr.0
                    &&& final(self).spec_pos() == pr.1
                },
                Err(e) => {
                    &&& r == Err::<DnsName, DnsError>(e)
                    &&& final(self).spec_pos() == old(self).spec_pos()
                },
            },
    {
        let start = self.pos;
        let mut labels: Vec<Vec<u8>> = Vec::new();
        proof {
            assert(labels.deep_view() =~= Seq::<Seq<u8>>::empty());
        }
        match self.read_labels(MAX_JUMPS, &mut labels) {
            Ok(()) => {
                proof {
                    if let Ok(pr) = spec_parse_name(
                        old(self).bytes(),
                        old(self).spec_pos(),
                        MAX_JUMPS as nat,
                    ) {
                        assert(Seq::<Seq<u8>>::empty() + pr.0 =~= pr.0);
                    }
                }
                Ok(DnsName::from_labels(labels))
            },
            Err(e) => {
                self.seek(start);
                Err(e)
            },
        }
    }
}

/// A bounds-checked write window with a fixed capacity: bytes are appended
/// big-endian, and a write that would pass the capacity fails with
/// `BufferOverflow` instead of growing the message.
pub struct PacketWriter {
    buf: Vec<u8>,
    capacity: usize,
}

impl PacketWriter {
    /// The bytes written so far.
    pub closed spec fn bytes(&self) -> Seq<u8> {
        self.buf@
    }

    /// The fixed capacity this writer was created with.
    pub closed spec fn cap(&self) -> int {
        self.capacity as int
    }

    /// The written bytes never exceed the capacity.
    pub open spec fn wf(&self) -> bool {
        self.bytes().len() <= self.cap()
    }

    pub fn new(capacity: usize) -> (r: Self)
        ensures
            r.bytes() == Seq::<u8>::empty(),
            r.cap() == capacity,
            r.wf(),
    {
        PacketWriter { buf: Vec::new(), capacity }
    }

    /// How many bytes have been written; doubles as the write position for
    /// backpatching.
    pub fn len(&self) -> (r: usize)
        ensures
            r == self.bytes().len(),
    {
        self.buf.len()
    }

    /// Hand the finished message over.
    pub fn into_bytes(self) -> (r: Vec<u8>)
        ensures
            r@ == self.bytes(),
    {
        self.buf
    }

    pub fn write_u8(&mut self, v: u8) -> (r: Result<(), DnsError>)
        requires
            old(self).wf(),
        ensures
            final(self).cap() == old(self).cap(),
            final(self).wf(),
            match r {
                Ok(()) => {
                    &&& old(self).bytes().len() + 1 <= old(self).cap()
                    &&& final(self).bytes() == old(self).bytes() + seq![v]
                },
                Err(e) => {
                    &&& e == DnsError::BufferOverflow
                    &&& old(self).bytes().len() + 1 > old(self).cap()
                    &&& final(self).bytes() == old(self).bytes()
                },
            },
    {
        if self.buf.len() >= self.capacity {
            return Err(DnsError::BufferOverflow);
        }
        self.buf.push(v);
        proof {
            assert(self.buf@ =~= old(self).buf@ + seq![v]);
        }
        Ok(())
    }

    pub fn write_u16(&mut self, v: u16) -> (r: Result<(), DnsError>)
        requires
            old(self).wf(),
        ensures
            final(self).cap() == old(self).cap(),
            final(self).wf(),
            match r {
                Ok(()) => {
                    &&& old(self).bytes().len() + 2 <= old(self).cap()
                    &&& final(self).bytes() == old(self).bytes() + spec_u16_bytes(v)
                },
                Err(e) => {
                    &&& e == DnsError::BufferOverflow
                    &&& old(self).bytes().len() + 2 > old(self).cap()
                    &&& final(self).bytes() == old(self).bytes()
                },
            },
    {
        if self.capacity - self.buf.len() < 2 {
            return Err(DnsError::BufferOverflow);
        }
        proof {
            assert((v >> 8) & 0xFF < 256 && v & 0xFF < 256) by (bit_vector);
        }
        let hi = ((v >> 8) & 0xFF) as u8;
        let lo = (v & 0xFF) as u8;
        self.buf.push(hi);
        self.buf.push(lo);
        proof {
            assert(self.buf@ =~= old(self).buf@ + spec_u16_bytes(v));
        }
        Ok(())
    }

    pub fn write_u32(&mut self, v: u32) -> (r: Result<(), DnsError>)
        requires
            old(self).wf(),
        ensures
            final(self).cap() == old(self).cap(),
            final(self).wf(),
            match r {
                Ok(()) => {
                    &&& old(self).bytes().len() + 4 <= old(self).cap()
                    &&& final(self).bytes() == old(self).bytes() + spec_u32_bytes(v)
                },
                Err(e) => {
                    &&& e == DnsError::BufferOverflow
                    &&& old(self).bytes().len() + 4 > old(self).cap()
                    &&& final(self).bytes() == old(self).bytes()
                },
            },
    {
        if self.capacity - self.buf.len() < 4 {
            return Err(DnsError::BufferOverflow);
        }
        proof {
            assert((v >> 24) & 0xFF < 256 && (v >> 16) & 0xFF < 256 && (v >> 8) & 0xFF < 256
                && v & 0xFF < 256) by (bit_vector);
        }
        let b0 = ((v >> 24) & 0xFF) as u8;
        let b1 = ((v >> 16) & 0xFF) as u8;
        let b2 = ((v >> 8) & 0xFF) as u8;
        let b3 = (v & 0xFF) as u8;
        self.buf.push(b0);
        self.buf.push(b1);
        self.buf.push(b2);
        self.buf.push(b3);
        proof {
            assert(self.buf@ =~= old(self).buf@ + spec_u32_bytes(v));
        }
        Ok(())
    }

    /// Append a run of bytes unchanged.
    pub fn write_bytes(&mut self, data: &Vec<u8>) -> (r: Result<(), DnsError>)
        requires
            old(self).wf(),
        ensures
            final(self).cap() == old(self).cap(),
            final(self).wf(),
            match r {
                Ok(()) => {
                    &&& old(self).bytes().len() + data@.len() <= old(self).cap()
                    &&& final(self).bytes() == old(self).bytes() + data@
                },
                Err(e) => {
                    &&& e == DnsError::BufferOverflow
                    &&& old(self).bytes().len() + data@.len() > old(self).cap()
                    &&& final(self).bytes() == old(self).bytes()
                },
            },
    {
        if self.capacity - self.buf.len() < data.len() {
            return Err(DnsError::BufferOverflow);
        }
        let n = data.len();
        let mut i: usize = 0;
        proof {
            assert(self.buf@ =~= old(self).buf@ + data@.subrange(0, 0));
        }
        while i < n
            invariant
                i <= n,
                n == data@.len(),
                self.capacity == old(self).capacity,
                old(self).buf@.len() + n <= self.capacity,
                self.buf@ == old(self).buf@ + data@.subrange(0, i as int),
            decreases n - i,
        {
            self.buf.push(data[i]);
            i = i + 1;
            proof {
                assert(self.buf@ =~= old(self).buf@ + data@.subrange(0, i as int));
            }
        }
        proof {
            assert(data@.subrange(0, n as int) =~= data@);
        }
        Ok(())
    }

    /// Overwrite two already-written bytes with a big-endian 16-bit value:
    /// the backpatch used for a record's data-length field once its payload
    /// has been serialized.
    pub fn write_u16_at(&mut self, pos: usize, v: u16) -> (r: Result<(), DnsError>)
        requires
            old(self).wf(),
        ensures
            final(self).cap() == old(self).cap(),
            final(self).wf(),
            match r {
                Ok(()) => {
                    &&& pos + 2 <= old(self).bytes().len()
                    &&& final(self).bytes() == old(self).bytes().update(
                        pos as int,
                        spec_u16_bytes(v)[0],
                    ).update(pos + 1, spec_u16_bytes(v)[1])
                },
                Err(e) => {
                    &&& e == DnsError::BufferOverflow
                    &&& pos + 2 > old(self).bytes().len()
                    &&& final(self).bytes() == old(self).bytes()
                },
            },
    {
        if pos > self.buf.len() || self.buf.len() - pos < 2 {
            return Err(DnsError::BufferOverflow);
        }
        proof {
            assert((v >> 8) & 0xFF < 256 && v & 0xFF < 256) by (bit_vector);
        }
        let hi = ((v >> 8) & 0xFF) as u8;
        let lo = (v & 0xFF) as u8;
        self.buf[pos] = hi;
        self.buf[pos + 1] = lo;
        Ok(())
    }
}

} // verus!
