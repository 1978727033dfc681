use vstd::prelude::*;

use crate::error::DnsError;
use crate::header::{spec_header_bytes, spec_parse_header, lemma_header_round_trip, wf_header, DnsHeader};
use crate::packet_buffer::{lemma_embedded_subrange, PacketBuffer, PacketWriter};
use crate::question::{
    spec_encode_question, spec_parse_question, lemma_parse_encoded_question, wf_question,
    DnsQuestion, QuestionV,
};
use crate::record::{
    spec_encode_record, spec_parse_record, spec_record_names_ok, lemma_parse_encoded_record,
    wf_record, DnsRecord, RecordV,
};

verus! {

broadcast use crate::packet_buffer::lemma_pos_nonneg;

/// The fixed capacity of an encoded message: the classical UDP datagram
/// limit.
pub const MAX_MESSAGE_LEN: usize = 512;

/// The mathematical value of a whole message.
pub struct PacketV {
    pub header: DnsHeader,
    pub questions: Seq<QuestionV>,
    pub answers: Seq<RecordV>,
    pub authorities: Seq<RecordV>,
    pub resources: Seq<RecordV>,
}

/// A whole message: the header, the questions, and the three record
/// sections. This is the only type handed across the codec boundary.
#[derive(Debug, Clone, PartialEq, Eq)]
pub struct DnsPacket {
    pub header: DnsHeader,
    pub questions: Vec<DnsQuestion>,
    pub answers: Vec<DnsRecord>,
    pub authorities: Vec<DnsRecord>,
    pub resources: Vec<DnsRecord>,
}

impl View for DnsPacket {
    type V = PacketV;

    open spec fn view(&self) -> PacketV {
        PacketV {
            header: self.header,
            questions: self.questions.deep_view(),
            answers: self.answers.deep_view(),
            authorities: self.authorities.deep_view(),
            resources: self.resources.deep_view(),
        }
    }
}

impl DeepView for DnsPacket {
    type V = PacketV;

    open spec fn deep_view(&self) -> PacketV {
        self.view()
    }
}

/// What decoding `n` consecutive questions at `pos` yields.
pub open spec fn spec_parse_questions(buf: Seq<u8>, pos: int, n: nat) -> Result<
    (Seq<QuestionV>, int),
    DnsError,
>
    decreases n,
{
    if n == 0 {
        Ok((Seq::empty(), pos))
    } else {
        match spec_parse_question(buf, pos) {
            Err(e) => Err(e),
            Ok(pr) => match spec_parse_questions(buf, pr.1, (n - 1) as nat) {
                Err(e) => Err(e),
                Ok(pr2) => Ok((seq![pr.0] + pr2.0, pr2.1)),
            },
        }
    }
}

/// What decoding `n` consecutive records at `pos` yields.
pub open spec fn spec_parse_records(buf: Seq<u8>, pos: int, n: nat) -> Result<
    (Seq<RecordV>, int),
    DnsError,
>
    decreases n,
{
    if n == 0 {
        Ok((Seq::empty(), pos))
    } else {
        match spec_parse_record(buf, pos) {
            Err(e) => Err(e),
            Ok(pr) => match spec_parse_records(buf, pr.1, (n - 1) as nat) {
                Err(e) => Err(e),
                Ok(pr2) => Ok((seq![pr.0] + pr2.0, pr2.1)),
            },
        }
    }
}

/// The bytes a question list encodes to.
pub open spec fn spec_encode_questions(qs: Seq<QuestionV>) -> Seq<u8>
    decreases qs.len(),
{
    if qs.len() == 0 {
        Seq::empty()
    } else {
        spec_encode_question(qs[0]) + spec_encode_questions(qs.drop_first())
    }
}

/// The bytes a record list encodes to.
pub open spec fn spec_encode_records(rs: Seq<RecordV>) -> Seq<u8>
    decreases rs.len(),
{
    if rs.len() == 0 {
        Seq::empty()
    } else {
        spec_encode_record(rs[0]) + spec_encode_records(rs.drop_first())
    }
}

/// Every question of the list is encodable.
pub open spec fn spec_questions_wf(qs: Seq<QuestionV>) -> bool {
    forall|i: int| 0 <= i < qs.len() ==> wf_question(#[trigger] qs[i])
}

/// Every record of the list decodes back to itself.
pub open spec fn spec_records_wf(rs: Seq<RecordV>) -> bool {
    forall|i: int| 0 <= i < rs.len() ==> wf_record(#[trigger] rs[i])
}

/// Every name in the record list is encodable.
pub open spec fn spec_records_names_ok(rs: Seq<RecordV>) -> bool {
    forall|i: int| 0 <= i < rs.len() ==> spec_record_names_ok(#[trigger] rs[i])
}

/// Each section is small enough for its 16-bit header count.
pub open spec fn spec_counts_ok(p: PacketV) -> bool {
    &&& p.questions.len() <= 0xFFFF
    &&& p.answers.len() <= 0xFFFF
    &&& p.authorities.len() <= 0xFFFF
    &&& p.resources.len() <= 0xFFFF
}

/// Every name in the message is encodable.
pub open spec fn spec_names_ok(p: PacketV) -> bool {
    &&& spec_questions_wf(p.questions)
    &&& spec_records_names_ok(p.answers)
    &&& spec_records_names_ok(p.authorities)
    &&& spec_records_names_ok(p.resources)
}

/// The header an encoded message carries: the caller's control fields with
/// the four counts derived from the actual section lengths, so header and
/// body can never disagree on the wire.
pub open spec fn spec_derived_header(p: PacketV) -> DnsHeader {
    DnsHeader {
        questions: p.questions.len() as u16,
        answers: p.answers.len() as u16,
        authoritative_entries: p.authorities.len() as u16,
        resource_entries: p.resources.len() as u16,
        ..p.header
    }
}

/// The bytes a whole message encodes to.
pub open spec fn spec_encode_packet(p: PacketV) -> Seq<u8> {
    spec_header_bytes(spec_derived_header(p)) + spec_encode_questions(p.questions)
        + spec_encode_records(p.answers) + spec_encode_records(p.authorities)
        + spec_encode_records(p.resources)
}

/// What decoding a whole message yields: header first, then exactly the
/// advertised number of entries per section, in section order. Trailing
/// bytes after the last section are ignored.
pub open spec fn spec_parse_packet(buf: Seq<u8>) -> Result<PacketV, DnsError> {
    if buf.len() < 12 {
        Err(DnsError::BufferUnderrun)
    } else {
        let h = spec_parse_header(buf.subrange(0, 12));
        match spec_parse_questions(buf, 12, h.questions as nat) {
            Err(e) => Err(e),
            Ok(qpr) => match spec_parse_records(buf, qpr.1, h.answers as nat) {
                Err(e) => Err(e),
                Ok(apr) => match spec_parse_records(buf, apr.1, h.authoritative_entries as nat) {
                    Err(e) => Err(e),
                    Ok(upr) => match spec_parse_records(buf, upr.1, h.resource_entries as nat) {
                        Err(e) => Err(e),
                        Ok(rpr) => Ok(
                            PacketV {
                                header: h,
                                questions: qpr.0,
                                answers: apr.0,
                                authorities: upr.0,
                                resources: rpr.0,
                            },
                        ),
                    },
                },
            },
        }
    }
}

/// A packet whose encoding decodes back to itself: a well-formed header,
/// counts that match the section lengths, and well-formed entries.
pub open spec fn wf_packet(p: PacketV) -> bool {
    &&& wf_header(p.header)
    &&& p.header.questions as int == p.questions.len()
    &&& p.header.answers as int == p.answers.len()
    &&& p.header.authoritative_entries as int == p.authorities.len()
    &&& p.header.resource_entries as int == p.resources.len()
    &&& spec_questions_wf(p.questions)
    &&& spec_records_wf(p.answers)
    &&& spec_records_wf(p.authorities)
    &&& spec_records_wf(p.resources)
}

/// Decoding an embedded encoding of a question list yields exactly that
/// list.
pub proof fn lemma_parse_encoded_questions(buf: Seq<u8>, pos: int, qs: Seq<QuestionV>)
    requires
        spec_questions_wf(qs),
        0 <= pos,
        pos + spec_encode_questions(qs).len() <= buf.len(),
        buf.subrange(pos, pos + spec_encode_questions(qs).len()) == spec_encode_questions(qs),
    ensures
        spec_parse_questions(buf, pos, qs.len()) == Ok::<(Seq<QuestionV>, int), DnsError>(
            (qs, pos + spec_encode_questions(qs).len()),
        ),
    decreases qs.len(),
{
    let e = spec_encode_questions(qs);
    if qs.len() == 0 {
        assert(qs =~= Seq::<QuestionV>::empty());
    } else {
        let e0 = spec_encode_question(qs[0]);
        let rest = qs.drop_first();
        let er = spec_encode_questions(rest);
        assert(e == e0 + er);
        lemma_embedded_subrange(buf, pos, e, 0, e0.len() as int);
        assert(e.subrange(0, e0.len() as int) =~= e0);
        lemma_parse_encoded_question(buf, pos, qs[0]);
        lemma_embedded_subrange(buf, pos, e, e0.len() as int, e.len() as int);
        assert(e.subrange(e0.len() as int, e.len() as int) =~= er);
        assert(spec_questions_wf(rest)) by {
            assert(forall|i: int| 0 <= i < rest.len() ==> #[trigger] rest[i] == qs[i + 1]);
        }
        lemma_parse_encoded_questions(buf, pos + e0.len(), rest);
        assert(seq![qs[0]] + rest =~= qs);
    }
}

/// Decoding an embedded encoding of a record list yields exactly that list.
pub proof fn lemma_parse_encoded_records(buf: Seq<u8>, pos: int, rs: Seq<RecordV>)
    requires
        spec_records_wf(rs),
        0 <= pos,
        pos + spec_encode_records(rs).len() <= buf.len(),
        buf.subrange(pos, pos + spec_encode_records(rs).len()) == spec_encode_records(rs),
    ensures
        spec_parse_records(buf, pos, rs.len()) == Ok::<(Seq<RecordV>, int), DnsError>(
            (rs, pos + spec_encode_records(rs).len()),
        ),
    decreases rs.len(),
{
    let e = spec_encode_records(rs);
    if rs.len() == 0 {
        assert(rs =~= Seq::<RecordV>::empty());
    } else {
        let e0 = spec_encode_record(rs[0]);
        let rest = rs.drop_first();
        let er = spec_encode_records(rest);
        assert(e == e0 + er);
        lemma_embedded_subrange(buf, pos, e, 0, e0.len() as int);
        assert(e.subrange(0, e0.len() as int) =~= e0);
        lemma_parse_encoded_record(buf, pos, rs[0]);
        lemma_embedded_subrange(buf, pos, e, e0.len() as int, e.len() as int);
        assert(e.subrange(e0.len() as int, e.len() as int) =~= er);
        assert(spec_records_wf(rest)) by {
            assert(forall|i: int| 0 <= i < rest.len() ==> #[trigger] rest[i] == rs[i + 1]);
        }
        lemma_parse_encoded_records(buf, pos + e0.len(), rest);
        assert(seq![rs[0]] + rest =~= rs);
    }
}

/// The round-trip law: decoding the encoding of any well-formed packet
/// yields that packet again, empty sections included.
pub proof fn lemma_packet_round_trip(p: PacketV)
    requires
        wf_packet(p),
    ensures
        spec_parse_packet(spec_encode_packet(p)) == Ok::<PacketV, DnsError>(p),
{
    let buf = spec_encode_packet(p);
    let dh = spec_derived_header(p);
    assert(dh == p.header);
    lemma_header_round_trip(p.header);
    let hb = spec_header_bytes(p.header);
    let eq = spec_encode_questions(p.questions);
    let ea = spec_encode_records(p.answers);
    let eu = spec_encode_records(p.authorities);
    let er = spec_encode_records(p.resources);
    assert(buf == hb + eq + ea + eu + er);
    let o1 = 12 + eq.len() as int;
    let o2 = o1 + ea.len() as int;
    let o3 = o2 + eu.len() as int;
    let o4 = o3 + er.len() as int;
    assert(buf.len() == o4);
    assert(buf.subrange(0, 12) =~= hb);
    assert(spec_parse_header(buf.subrange(0, 12)) == p.header);
    assert(buf.subrange(12, o1) =~= eq);
    lemma_parse_encoded_questions(buf, 12, p.questions);
    assert(buf.subrange(o1, o2) =~= ea);
    lemma_parse_encoded_records(buf, o1, p.answers);
    assert(buf.subrange(o2, o3) =~= eu);
    lemma_parse_encoded_records(buf, o2, p.authorities);
    assert(buf.subrange(o3, o4) =~= er);
    lemma_parse_encoded_records(buf, o3, p.resources);
}

/// Decode `n` consecutive questions at the cursor's position.
fn read_questions(buffer: &mut PacketBuffer, n: u16) -> (r: Result<Vec<DnsQuestion>, DnsError>)
    ensures
        final(buffer).bytes() == old(buffer).bytes(),
        match spec_parse_questions(old(buffer).bytes(), old(buffer).spec_pos(), n as nat) {
            Ok(pr) => {
                &&& r is Ok
                &&& r->Ok_0.deep_view() == pr.0
                &&& final(buffer).spec_pos() == pr.1
            },
            Err(e) => r == Err::<Vec<DnsQuestion>, DnsError>(e),
        },
{
    let ghost b0 = buffer.bytes();
    let ghost p0 = buffer.spec_pos();
    let mut qs: Vec<DnsQuestion> = Vec::new();
    let mut i: u16 = 0;
    proof {
        assert(qs.deep_view() =~= Seq::<QuestionV>::empty());
        match spec_parse_questions(b0, p0, n as nat) {
            Ok(pr) => {
                assert(Seq::<QuestionV>::empty() + pr.0 =~= pr.0);
            },
            Err(_) => {},
        }
    }
    while i < n
        invariant
            i <= n,
            b0 == old(buffer).bytes(),
            p0 == old(buffer).spec_pos(),
            buffer.bytes() == b0,
            ({
                let full = spec_parse_questions(b0, p0, n as nat);
                match spec_parse_questions(b0, buffer.spec_pos(), (n - i) as nat) {
                    Ok(pr) => full == Ok::<(Seq<QuestionV>, int), DnsError>(
                        (qs.deep_view() + pr.0, pr.1),
                    ),
                    Err(e) => full == Err::<(Seq<QuestionV>, int), DnsError>(e),
                }
            }),
        decreases n - i,
    {
        let ghost pos_before = buffer.spec_pos();
        let q = match DnsQuestion::from_buffer(buffer) {
            Ok(q) => q,
            Err(e) => {
                return Err(e);
            },
        };
        let ghost qv = q.deep_view();
        let ghost dv0 = qs.deep_view();
        qs.push(q);
        i = i + 1;
        proof {
            assert(qs.deep_view() =~= dv0.push(qv));
            match spec_parse_questions(b0, buffer.spec_pos(), (n - i) as nat) {
                Ok(pr) => {
                    assert(spec_parse_questions(b0, pos_before, (n - i + 1) as nat)
                        == Ok::<(Seq<QuestionV>, int), DnsError>((seq![qv] + pr.0, pr.1)));
                    assert(dv0 + (seq![qv] + pr.0) =~= dv0.push(qv) + pr.0);
                },
                Err(_) => {},
            }
        }
    }
    proof {
        match spec_parse_questions(b0, p0, n as nat) {
            Ok(pr) => {
                assert(qs.deep_view() + Seq::<QuestionV>::empty() =~= qs.deep_view());
            },
            Err(_) => {},
        }
    }
    Ok(qs)
}

/// Decode `n` consecutive records at the cursor's position.
fn read_records(buffer: &mut PacketBuffer, n: u16) -> (r: Result<Vec<DnsRecord>, DnsError>)
    ensures
        final(buffer).bytes() == old(buffer).bytes(),
        match spec_parse_records(old(buffer).bytes(), old(buffer).spec_pos(), n as nat) {
            Ok(pr) => {
                &&& r is Ok
                &&& r->Ok_0.deep_view() == pr.0
                &&& final(buffer).spec_pos() == pr.1
            },
            Err(e) => r == Err::<Vec<DnsRecord>, DnsError>(e),
        },
{
    let ghost b0 = buffer.bytes();
    let ghost p0 = buffer.spec_pos();
    let mut rs: Vec<DnsRecord> = Vec::new();
    let mut i: u16 = 0;
    proof {
        assert(rs.deep_view() =~= Seq::<RecordV>::empty());
        match spec_parse_records(b0, p0, n as nat) {
            Ok(pr) => {
                assert(Seq::<RecordV>::empty() + pr.0 =~= pr.0);
            },
            Err(_) => {},
        }
    }
    while i < n
        invariant
            i <= n,
            b0 == old(buffer).bytes(),
            p0 == old(buffer).spec_pos(),
            buffer.bytes() == b0,
            ({
                let full = spec_parse_records(b0, p0, n as nat);
                match spec_parse_records(b0, buffer.spec_pos(), (n - i) as nat) {
                    Ok(pr) => full == Ok::<(Seq<RecordV>, int), DnsError>(
                        (rs.deep_view() + pr.0, pr.1),
                    ),
                    Err(e) => full == Err::<(Seq<RecordV>, int), DnsError>(e),
                }
            }),
        decreases n - i,
    {
        let ghost pos_before = buffer.spec_pos();
        let rec = match DnsRecord::from_buffer(buffer) {
            Ok(rec) => rec,
            Err(e) => {
                return Err(e);
            },
        };
        let ghost rv = rec.deep_view();
        let ghost dv0 = rs.deep_view();
        rs.push(rec);
        i = i + 1;
        proof {
            assert(rs.deep_view() =~= dv0.push(rv));
            match spec_parse_records(b0, buffer.spec_pos(), (n - i) as nat) {
                Ok(pr) => {
                    assert(spec_parse_records(b0, pos_before, (n - i + 1) as nat)
                        == Ok::<(Seq<RecordV>, int), DnsError>((seq![rv] + pr.0, pr.1)));
                    assert(dv0 + (seq![rv] + pr.0) =~= dv0.push(rv) + pr.0);
                },
                Err(_) => {},
            }
        }
    }
    proof {
        match spec_parse_records(b0, p0, n as nat) {
            Ok(pr) => {
                assert(rs.deep_view() + Seq::<RecordV>::empty() =~= rs.deep_view());
            },
            Err(_) => {},
        }
    }
    Ok(rs)
}

/// Append the encodings of all questions of the list, in order.
fn write_questions(out: &mut PacketWriter, qs: &Vec<DnsQuestion>) -> (r: Result<(), DnsError>)
    requires
        old(out).wf(),
        spec_questions_wf(qs.deep_view()),
    ensures
        final(out).wf(),
        final(out).cap() == old(out).cap(),
        match r {
            Ok(()) => {
                &&& old(out).bytes().len() + spec_encode_questions(qs.deep_view()).len() <= old(
                    out,
                ).cap()
                &&& final(out).bytes() == old(out).bytes() + spec_encode_questions(
                    qs.deep_view(),
                )
            },
            Err(e) => {
                &&& e == DnsError::BufferOverflow
                &&& old(out).bytes().len() + spec_encode_questions(qs.deep_view()).len() > old(
                    out,
                ).cap()
            },
        },
{
    let ghost dv = qs.deep_view();
    let ghost base = out.bytes();
    let ghost cap0 = out.cap();
    let n = qs.len();
    let mut i: usize = 0;
    proof {
        assert(dv.skip(0) =~= dv);
    }
    while i < n
        invariant
            i <= n,
            n == qs@.len(),
            dv == qs.deep_view(),
            spec_questions_wf(dv),
            base == old(out).bytes(),
            cap0 == old(out).cap(),
            out.wf(),
            out.cap() == cap0,
            out.bytes() + spec_encode_questions(dv.skip(i as int)) == base + spec_encode_questions(
                dv,
            ),
        decreases n - i,
    {
        proof {
            assert(dv.skip(i as int)[0] == dv[i as int]);
            assert(dv.skip(i as int).drop_first() =~= dv.skip(i as int + 1));
            assert(spec_encode_questions(dv.skip(i as int)) == spec_encode_question(
                dv[i as int],
            ) + spec_encode_questions(dv.skip(i as int + 1)));
            assert(qs@[i as int].deep_view() == dv[i as int]);
            assert(wf_question(dv[i as int]));
        }
        let ghost pre = out.bytes();
        match qs[i].write(out) {
            Ok(()) => (),
            Err(e) => {
                proof {
                    let tail = spec_encode_questions(dv.skip(i as int + 1));
                    let piece = spec_encode_question(dv[i as int]);
                    assert((pre + spec_encode_questions(dv.skip(i as int))).len() == pre.len()
                        + spec_encode_questions(dv.skip(i as int)).len());
                    assert((base + spec_encode_questions(dv)).len() == base.len()
                        + spec_encode_questions(dv).len());
                    assert((piece + tail).len() == piece.len() + tail.len());
                    assert(base.len() + spec_encode_questions(dv).len() > cap0);
                }
                return Err(e);
            },
        }
        i = i + 1;
        proof {
            assert((pre + spec_encode_question(dv[i - 1])) + spec_encode_questions(
                dv.skip(i as int),
            ) =~= pre + spec_encode_questions(dv.skip(i - 1)));
        }
    }
    proof {
        assert(dv.skip(n as int) =~= Seq::<QuestionV>::empty());
        assert(out.bytes() + Seq::<u8>::empty() =~= out.bytes());
    }
    Ok(())
}

/// Append the encodings of all records of the list, in order.
fn write_records(out: &mut PacketWriter, rs: &Vec<DnsRecord>) -> (r: Result<(), DnsError>)
    requires
        old(out).wf(),
        old(out).cap() <= 0xFFFF,
        spec_records_names_ok(rs.deep_view()),
    ensures
        final(out).wf(),
        final(out).cap() == old(out).cap(),
        match r {
            Ok(()) => {
                &&& old(out).bytes().len() + spec_encode_records(rs.deep_view()).len() <= old(
                    out,
                ).cap()
                &&& final(out).bytes() == old(out).bytes() + spec_encode_records(rs.deep_view())
            },
            Err(e) => {
                &&& e == DnsError::BufferOverflow
                &&& old(out).bytes().len() + spec_encode_records(rs.deep_view()).len() > old(
                    out,
                ).cap()
            },
        },
{
    let ghost dv = rs.deep_view();
    let ghost base = out.bytes();
    let ghost cap0 = out.cap();
    let n = rs.len();
    let mut i: usize = 0;
    proof {
        assert(dv.skip(0) =~= dv);
    }
    while i < n
        invariant
            i <= n,
            n == rs@.len(),
            dv == rs.deep_view(),
            spec_records_names_ok(dv),
            base == old(out).bytes(),
            cap0 == old(out).cap(),
            out.wf(),
            out.cap() == cap0,
            cap0 <= 0xFFFF,
            out.bytes() + spec_encode_records(dv.skip(i as int)) == base + spec_encode_records(
                dv,
            ),
        decreases n - i,
    {
        proof {
            assert(dv.skip(i as int)[0] == dv[i as int]);
            assert(dv.skip(i as int).drop_first() =~= dv.skip(i as int + 1));
            assert(spec_encode_records(dv.skip(i as int)) == spec_encode_record(dv[i as int])
                + spec_encode_records(dv.skip(i as int + 1)));
            assert(rs@[i as int].deep_view() == dv[i as int]);
            assert(spec_record_names_ok(dv[i as int]));
        }
        let ghost pre = out.bytes();
        match rs[i].write(out) {
            Ok(()) => (),
            Err(e) => {
                proof {
                    let tail = spec_encode_records(dv.skip(i as int + 1));
                    let piece = spec_encode_record(dv[i as int]);
                    assert((pre + spec_encode_records(dv.skip(i as int))).len() == pre.len()
                        + spec_encode_records(dv.skip(i as int)).len());
                    assert((base + spec_encode_records(dv)).len() == base.len()
                        + spec_encode_records(dv).len());
                    assert((piece + tail).len() == piece.len() + tail.len());
                    assert(base.len() + spec_encode_records(dv).len() > cap0);
                }
                return Err(e);
            },
        }
        i = i + 1;
        proof {
            assert((pre + spec_encode_record(dv[i - 1])) + spec_encode_records(
                dv.skip(i as int),
            ) =~= pre + spec_encode_records(dv.skip(i - 1)));
        }
    }
    proof {
        assert(dv.skip(n as int) =~= Seq::<RecordV>::empty());
        assert(out.bytes() + Seq::<u8>::empty() =~= out.bytes());
    }
    Ok(())
}

/// Whether every question's name can be encoded.
fn questions_names_ok(qs: &Vec<DnsQuestion>) -> (r: bool)
    ensures
        r == spec_questions_wf(qs.deep_view()),
{
    let n = qs.len();
    let mut i: usize = 0;
    while i < n
        invariant
            i <= n,
            n == qs@.len(),
            forall|j: int| 0 <= j < i ==> wf_question(#[trigger] qs.deep_view()[j]),
        decreases n - i,
    {
        proof {
            assert(qs.deep_view()[i as int] == qs@[i as int].deep_view());
        }
        if !qs[i].name.is_wf() {
            proof {
                assert(!wf_question(qs.deep_view()[i as int]));
            }
            return false;
        }
        i = i + 1;
    }
    true
}

/// Whether every name of every record of the list can be encoded.
fn records_names_ok(rs: &Vec<DnsRecord>) -> (r: bool)
    ensures
        r == spec_records_names_ok(rs.deep_view()),
{
    let n = rs.len();
    let mut i: usize = 0;
    while i < n
        invariant
            i <= n,
            n == rs@.len(),
            forall|j: int| 0 <= j < i ==> spec_record_names_ok(#[trigger] rs.deep_view()[j]),
        decreases n - i,
    {
        proof {
            assert(rs.deep_view()[i as int] == rs@[i as int].deep_view());
        }
        if !rs[i].names_ok() {
            return false;
        }
        i = i + 1;
    }
    true
}

impl DnsPacket {
    /// Decode a whole message: header, questions, and the three record
    /// sections, each with exactly the count the header advertises.
    pub fn from_bytes(bytes: &[u8]) -> (r: Result<DnsPacket, DnsError>)
        ensures
            match spec_parse_packet(bytes@) {
                Ok(pv) => r is Ok && r->Ok_0.deep_view() == pv,
                Err(e) => r == Err::<DnsPacket, DnsError>(e),
            },
    {
        let mut buffer = PacketBuffer::from_bytes(bytes);
        let header = match DnsHeader::from_buffer(&mut buffer) {
            Ok(h) => h,
            Err(e) => {
                return Err(e);
            },
        };
        let questions = match read_questions(&mut buffer, header.questions) {
            Ok(v) => v,
            Err(e) => {
                return Err(e);
            },
        };
        let answers = match read_records(&mut buffer, header.answers) {
            Ok(v) => v,
            Err(e) => {
                return Err(e);
            },
        };
        let authorities = match read_records(&mut buffer, header.authoritative_entries) {
            Ok(v) => v,
            Err(e) => {
                return Err(e);
            },
        };
        let resources = match read_records(&mut buffer, header.resource_entries) {
            Ok(v) => v,
            Err(e) => {
                return Err(e);
            },
        };
        Ok(DnsPacket { header, questions, answers, authorities, resources })
    }

    /// Encode this message into at most [`MAX_MESSAGE_LEN`] bytes. The four
    /// header counts are derived from the actual section lengths; a section
    /// too long for its 16-bit count fails with `SectionCountMismatch`, an
    /// unencodable label with `InvalidLabelLength`, and a message past the
    /// capacity with `BufferOverflow`.
    pub fn to_bytes(&self) -> (r: Result<Vec<u8>, DnsError>)
        ensures
            !spec_counts_ok(self.deep_view()) ==> r == Err::<Vec<u8>, DnsError>(
                DnsError::SectionCountMismatch,
            ),
            spec_counts_ok(self.deep_view()) && !spec_names_ok(self.deep_view()) ==> r == Err::<
                Vec<u8>,
                DnsError,
            >(DnsError::InvalidLabelLength),
            spec_counts_ok(self.deep_view()) && spec_names_ok(self.deep_view()) ==> match r {
                Ok(b) => {
                    &&& spec_encode_packet(self.deep_view()).len() <= MAX_MESSAGE_LEN
                    &&& b@ == spec_encode_packet(self.deep_view())
                },
                Err(e) => {
                    &&& e == DnsError::BufferOverflow
                    &&& spec_encode_packet(self.deep_view()).len() > MAX_MESSAGE_LEN
                },
            },
    {
        if self.questions.len() > 0xFFFF || self.answers.len() > 0xFFFF || self.authorities.len()
            > 0xFFFF || self.resources.len() > 0xFFFF {
            return Err(DnsError::SectionCountMismatch);
        }
        if !questions_names_ok(&self.questions) || !records_names_ok(&self.answers)
            || !records_names_ok(&self.authorities) || !records_names_ok(&self.resources) {
            return Err(DnsError::InvalidLabelLength);
        }
        let header = DnsHeader {
            questions: self.questions.len() as u16,
            answers: self.answers.len() as u16,
            authoritative_entries: self.authorities.len() as u16,
            resource_entries: self.resources.len() as u16,
            ..self.header
        };
        proof {
            assert(header == spec_derived_header(self.deep_view()));
        }
        let mut out = PacketWriter::new(MAX_MESSAGE_LEN);
        match header.write(&mut out) {
            Ok(()) => (),
            Err(e) => {
                return Err(e);
            },
        }
        match write_questions(&mut out, &self.questions) {
            Ok(()) => (),
            Err(e) => {
                return Err(e);
            },
        }
        match write_records(&mut out, &self.answers) {
            Ok(()) => (),
            Err(e) => {
                return Err(e);
            },
        }
        match write_records(&mut out, &self.authorities) {
            Ok(()) => (),
            Err(e) => {
                return Err(e);
            },
        }
        match write_records(&mut out, &self.resources) {
            Ok(()) => (),
            Err(e) => {
                return Err(e);
            },
        }
        let bytes = out.into_bytes();
        proof {
            assert(bytes@ =~= spec_encode_packet(self.deep_view()));
        }
        Ok(bytes)
    }
}

/// Round-tripping keeps each section's list order: the decoded sections are
/// the encoded ones, element for element.
pub proof fn lemma_round_trip_keeps_section_order(p: PacketV)
    requires
        wf_packet(p),
        p.answers.len() >= 1,
        p.authorities.len() >= 1,
        p.resources.len() >= 1,
    ensures
        spec_parse_packet(spec_encode_packet(p)) matches Ok(q) && q.questions == p.questions
            && q.answers == p.answers && q.authorities == p.authorities && q.resources
            == p.resources,
{
    lemma_packet_round_trip(p);
}

} // verus!
