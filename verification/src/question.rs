use vstd::prelude::*;

use crate::error::DnsError;
use crate::name::{
    spec_encode_name, spec_parse_name, lemma_parse_encoded_name, wf_name, DnsName, MAX_JUMPS,
};
use crate::packet_buffer::{
    spec_u16, spec_u16_bytes, lemma_u16_round_trip, lemma_embedded_byte, lemma_embedded_subrange,
    PacketBuffer, PacketWriter,
};

verus! {

broadcast use crate::packet_buffer::lemma_pos_nonneg;

/// The mathematical value of a question: its name as a label sequence, and
/// the two 16-bit codes.
pub struct QuestionV {
    pub name: Seq<Seq<u8>>,
    pub qtype: u16,
    pub qclass: u16,
}

/// A query entry: a name, a query type code and a query class code.
#[derive(Debug, Clone, PartialEq, Eq)]
pub struct DnsQuestion {
    pub name: DnsName,
    pub qtype: u16,
    pub qclass: u16,
}

impl View for DnsQuestion {
    type V = QuestionV;

    open spec fn view(&self) -> QuestionV {
        QuestionV { name: self.name@, qtype: self.qtype, qclass: self.qclass }
    }
}

impl DeepView for DnsQuestion {
    type V = QuestionV;

    open spec fn deep_view(&self) -> QuestionV {
        self.view()
    }
}

/// The name's labels are encodable.
pub open spec fn wf_question(q: QuestionV) -> bool {
    wf_name(q.name)
}

/// The bytes a question encodes to: the name followed by type and class.
pub open spec fn spec_encode_question(q: QuestionV) -> Seq<u8> {
    spec_encode_name(q.name) + spec_u16_bytes(q.qtype) + spec_u16_bytes(q.qclass)
}

/// What decoding a question at `pos` of the message `buf` yields: the
/// question and the position just past it.
pub open spec fn spec_parse_question(buf: Seq<u8>, pos: int) -> Result<(QuestionV, int), DnsError> {
    match spec_parse_name(buf, pos, MAX_JUMPS as nat) {
        Err(e) => Err(e),
        Ok(npr) => {
            let p1 = npr.1;
            if p1 + 4 > buf.len() {
                Err(DnsError::BufferUnderrun)
            } else {
                Ok(
                    (
                        QuestionV {
                            name: npr.0,
                            qtype: spec_u16(buf[p1], buf[p1 + 1]),
                            qclass: spec_u16(buf[p1 + 2], buf[p1 + 3]),
                        },
                        p1 + 4,
                    ),
                )
            }
        },
    }
}

/// Decoding an embedded question encoding yields exactly the question that
/// was encoded.
pub proof fn lemma_parse_encoded_question(buf: Seq<u8>, pos: int, q: QuestionV)
    requires
        wf_question(q),
        0 <= pos,
        pos + spec_encode_question(q).len() <= buf.len(),
        buf.subrange(pos, pos + spec_encode_question(q).len()) == spec_encode_question(q),
    ensures
        spec_parse_question(buf, pos) == Ok::<(QuestionV, int), DnsError>(
            (q, pos + spec_encode_question(q).len()),
        ),
{
    let e = spec_encode_question(q);
    let en = spec_encode_name(q.name);
    let tb = spec_u16_bytes(q.qtype);
    let cb = spec_u16_bytes(q.qclass);
    let nl = en.len() as int;
    assert(e.len() == nl + 4);
    lemma_embedded_subrange(buf, pos, e, 0, nl);
    assert(e.subrange(0, nl) =~= en);
    lemma_parse_encoded_name(buf, pos, q.name, MAX_JUMPS as nat);
    let p1 = pos + nl;
    lemma_embedded_byte(buf, pos, e, nl);
    lemma_embedded_byte(buf, pos, e, nl + 1);
    lemma_embedded_byte(buf, pos, e, nl + 2);
    lemma_embedded_byte(buf, pos, e, nl + 3);
    assert(e[nl] == tb[0] && e[nl + 1] == tb[1]);
    assert(e[nl + 2] == cb[0] && e[nl + 3] == cb[1]);
    lemma_u16_round_trip(q.qtype);
    lemma_u16_round_trip(q.qclass);
}

impl DnsQuestion {
    /// Decode one question at the cursor's position. On failure the position
    /// is left unchanged.
    pub fn from_buffer(buffer: &mut PacketBuffer) -> (r: Result<Self, DnsError>)
        ensures
            final(buffer).bytes() == old(buffer).bytes(),
            match spec_parse_question(old(buffer).bytes(), old(buffer).spec_pos()) {
                Ok(pr) => {
                    &&& r is Ok
                    &&& r->Ok_0.deep_view() == pr.0
                    &&& final(buffer).spec_pos() == pr.1
                },
                Err(e) => {
                    &&& r == Err::<DnsQuestion, DnsError>(e)
                    &&& final(buffer).spec_pos() == old(buffer).spec_pos()
                },
            },
    {
        let start = buffer.get_pos();
        let name = match buffer.read_qname() {
            Ok(n) => n,
            Err(e) => {
                return Err(e);
            },
        };
        let qtype = match buffer.read_u16() {
            Ok(v) => v,
            Err(e) => {
                buffer.seek(start);
                return Err(e);
            },
        };
        let qclass = match buffer.read_u16() {
            Ok(v) => v,
            Err(e) => {
                buffer.seek(start);
                return Err(e);
            },
        };
        Ok(DnsQuestion { name, qtype, qclass })
    }

    /// Append this question's encoding.
    pub fn write(&self, out: &mut PacketWriter) -> (r: Result<(), DnsError>)
        requires
            old(out).wf(),
            wf_question(self@),
        ensures
            final(out).wf(),
            final(out).cap() == old(out).cap(),
            match r {
                Ok(()) => {
                    &&& old(out).bytes().len() + spec_encode_question(self@).len() <= old(
                        out,
                    ).cap()
                    &&& final(out).bytes() == old(out).bytes() + spec_encode_question(self@)
                },
                Err(e) => {
                    &&& e == DnsError::BufferOverflow
                    &&& old(out).bytes().len() + spec_encode_question(self@).len() > old(
                        out,
                    ).cap()
                },
            },
    {
        match self.name.write(out) {
            Ok(()) => (),
            Err(e) => {
                return Err(e);
            },
        }
        match out.write_u16(self.qtype) {
            Ok(()) => (),
            Err(e) => {
                return Err(e);
            },
        }
        let res = out.write_u16(self.qclass);
        proof {
            if res is Ok {
                assert(out.bytes() =~= old(out).bytes() + spec_encode_question(self@));
            }
        }
        match res {
            Ok(()) => Ok(()),
            Err(e) => Err(e),
        }
    }
}

} // verus!
