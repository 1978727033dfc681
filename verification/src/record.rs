use vstd::prelude::*;

use crate::error::DnsError;
use crate::name::{
    spec_encode_name, spec_parse_name, lemma_parse_encoded_name, wf_name, DnsName, MAX_JUMPS,
};
use crate::packet_buffer::{
    spec_u16, spec_u16_bytes, spec_u32, spec_u32_bytes, lemma_u16_round_trip,
    lemma_u32_round_trip, lemma_embedded_byte, lemma_embedded_subrange, PacketBuffer,
    PacketWriter,
};

verus! {

broadcast use crate::packet_buffer::lemma_pos_nonneg;

/// The mathematical value of a record payload, keyed by the type code.
pub enum RecordDataV {
    A { addr: Seq<u8> },
    Aaaa { addr: Seq<u8> },
    Ns { host: Seq<Seq<u8>> },
    Cname { host: Seq<Seq<u8>> },
    Mx { priority: u16, host: Seq<Seq<u8>> },
    Unknown { rtype: u16, data: Seq<u8> },
}

/// A record payload: a closed set of known shapes, with an opaque fallback
/// for unrecognized type codes.
#[derive(Debug, Clone, PartialEq, Eq)]
pub enum DnsRecordData {
    /// An IPv4 address: exactly 4 bytes.
    A { addr: Vec<u8> },
    /// An IPv6 address: exactly 16 bytes.
    Aaaa { addr: Vec<u8> },
    /// An authoritative name server.
    Ns { host: DnsName },
    /// A canonical name.
    Cname { host: DnsName },
    /// A mail exchange: a preference value and a host name.
    Mx { priority: u16, host: DnsName },
    /// Any other type code: the declared number of bytes, passed through.
    Unknown { rtype: u16, data: Vec<u8> },
}

impl DeepView for DnsRecordData {
    type V = RecordDataV;

    open spec fn deep_view(&self) -> RecordDataV {
        match self {
            DnsRecordData::A { addr } => RecordDataV::A { addr: addr@ },
            DnsRecordData::Aaaa { addr } => RecordDataV::Aaaa { addr: addr@ },
            DnsRecordData::Ns { host } => RecordDataV::Ns { host: host@ },
            DnsRecordData::Cname { host } => RecordDataV::Cname { host: host@ },
            DnsRecordData::Mx { priority, host } => RecordDataV::Mx {
                priority: *priority,
                host: host@,
            },
            DnsRecordData::Unknown { rtype, data } => RecordDataV::Unknown {
                rtype: *rtype,
                data: data@,
            },
        }
    }
}

/// The mathematical value of a resource record.
pub struct RecordV {
    pub name: Seq<Seq<u8>>,
    pub class: u16,
    pub ttl: u32,
    pub data: RecordDataV,
}

/// A resource record: name, class, time-to-live and a typed payload. The
/// type code is determined by the payload's variant.
#[derive(Debug, Clone, PartialEq, Eq)]
pub struct DnsRecord {
    pub name: DnsName,
    pub class: u16,
    pub ttl: u32,
    pub data: DnsRecordData,
}

impl View for DnsRecord {
    type V = RecordV;

    open spec fn view(&self) -> RecordV {
        RecordV { name: self.name@, class: self.class, ttl: self.ttl, data: self.data.deep_view() }
    }
}

impl DeepView for DnsRecord {
    type V = RecordV;

    open spec fn deep_view(&self) -> RecordV {
        self.view()
    }
}

/// The type code a payload encodes under.
pub open spec fn spec_rtype(d: RecordDataV) -> u16 {
    match d {
        RecordDataV::A { .. } => 1,
        RecordDataV::Ns { .. } => 2,
        RecordDataV::Cname { .. } => 5,
        RecordDataV::Mx { .. } => 15,
        RecordDataV::Aaaa { .. } => 28,
        RecordDataV::Unknown { rtype, .. } => rtype,
    }
}

/// The type codes with a known payload shape.
pub open spec fn spec_known_rtype(t: u16) -> bool {
    t == 1 || t == 2 || t == 5 || t == 15 || t == 28
}

/// The payload bytes a record's data encodes to (without the length field).
pub open spec fn spec_encode_rdata(d: RecordDataV) -> Seq<u8> {
    match d {
        RecordDataV::A { addr } => addr,
        RecordDataV::Aaaa { addr } => addr,
        RecordDataV::Ns { host } => spec_encode_name(host),
        RecordDataV::Cname { host } => spec_encode_name(host),
        RecordDataV::Mx { priority, host } => spec_u16_bytes(priority) + spec_encode_name(host),
        RecordDataV::Unknown { data, .. } => data,
    }
}

/// Every name occurring in the payload is encodable.
pub open spec fn wf_rdata_names(d: RecordDataV) -> bool {
    match d {
        RecordDataV::Ns { host } => wf_name(host),
        RecordDataV::Cname { host } => wf_name(host),
        RecordDataV::Mx { host, .. } => wf_name(host),
        _ => true,
    }
}

/// The payload has the shape its variant promises: fixed address sizes, an
/// unknown type code that is really unknown, and a payload that fits the
/// 16-bit declared-length field.
pub open spec fn wf_rdata(d: RecordDataV) -> bool {
    &&& wf_rdata_names(d)
    &&& match d {
        RecordDataV::A { addr } => addr.len() == 4,
        RecordDataV::Aaaa { addr } => addr.len() == 16,
        RecordDataV::Unknown { rtype, .. } => !spec_known_rtype(rtype),
        _ => true,
    }
    &&& spec_encode_rdata(d).len() <= 0xFFFF
}

/// Every name of the record (owner name and any payload name) is
/// encodable.
pub open spec fn spec_record_names_ok(r: RecordV) -> bool {
    wf_name(r.name) && wf_rdata_names(r.data)
}

/// A record whose encoding decodes back to itself.
pub open spec fn wf_record(r: RecordV) -> bool {
    wf_name(r.name) && wf_rdata(r.data)
}

/// The bytes a record encodes to: name, type, class, TTL, declared payload
/// length, payload.
pub open spec fn spec_encode_record(r: RecordV) -> Seq<u8> {
    spec_encode_name(r.name) + spec_u16_bytes(spec_rtype(r.data)) + spec_u16_bytes(r.class)
        + spec_u32_bytes(r.ttl) + spec_u16_bytes(spec_encode_rdata(r.data).len() as u16)
        + spec_encode_rdata(r.data)
}

/// What decoding a record at `pos` of the message `buf` yields: the record
/// and the position just past it. Known types trust their own shape; only
/// the opaque fallback honors the declared length.
pub open spec fn spec_parse_record(buf: Seq<u8>, pos: int) -> Result<(RecordV, int), DnsError> {
    match spec_parse_name(buf, pos, MAX_JUMPS as nat) {
        Err(e) => Err(e),
        Ok(npr) => {
            let name = npr.0;
            let p1 = npr.1;
            if p1 + 10 > buf.len() {
                Err(DnsError::BufferUnderrun)
            } else {
                let rtype = spec_u16(buf[p1], buf[p1 + 1]);
                let class = spec_u16(buf[p1 + 2], buf[p1 + 3]);
                let ttl = spec_u32(buf[p1 + 4], buf[p1 + 5], buf[p1 + 6], buf[p1 + 7]);
                let rdlen = spec_u16(buf[p1 + 8], buf[p1 + 9]);
                let p2 = p1 + 10;
                if rtype == 1 {
                    if p2 + 4 > buf.len() {
                        Err(DnsError::BufferUnderrun)
                    } else {
                        Ok(
                            (
                                RecordV {
                                    name,
                                    class,
                                    ttl,
                                    data: RecordDataV::A { addr: buf.subrange(p2, p2 + 4) },
                                },
                                p2 + 4,
                            ),
                        )
                    }
                } else if rtype == 28 {
                    if p2 + 16 > buf.len() {
                        Err(DnsError::BufferUnderrun)
                    } else {
                        Ok(
                            (
                                RecordV {
                                    name,
                                    class,
                                    ttl,
                                    data: RecordDataV::Aaaa { addr: buf.subrange(p2, p2 + 16) },
                                },
                                p2 + 16,
                            ),
                        )
                    }
                } else if rtype == 2 || rtype == 5 {
                    match spec_parse_name(buf, p2, MAX_JUMPS as nat) {
                        Err(e) => Err(e),
                        Ok(hpr) => Ok(
                            (
                                RecordV {
                                    name,
                                    class,
                                    ttl,
                                    data: if rtype == 2 {
                                        RecordDataV::Ns { host: hpr.0 }
                                    } else {
                                        RecordDataV::Cname { host: hpr.0 }
                                    },
                                },
                                hpr.1,
                            ),
                        ),
                    }
                } else if rtype == 15 {
                    if p2 + 2 > buf.len() {
                        Err(DnsError::BufferUnderrun)
                    } else {
                        match spec_parse_name(buf, p2 + 2, MAX_JUMPS as nat) {
                            Err(e) => Err(e),
                            Ok(hpr) => Ok(
                                (
                                    RecordV {
                                        name,
                                        class,
                                        ttl,
                                        data: RecordDataV::Mx {
                                            priority: spec_u16(buf[p2], buf[p2 + 1]),
                                            host: hpr.0,
                                        },
                                    },
                                    hpr.1,
                                ),
                            ),
                        }
                    }
                } else {
                    if p2 + rdlen > buf.len() {
                        Err(DnsError::BufferUnderrun)
                    } else {
                        Ok(
                            (
                                RecordV {
                                    name,
                                    class,
                                    ttl,
                                    data: RecordDataV::Unknown {
                                        rtype,
                                        data: buf.subrange(p2, p2 + rdlen),
                                    },
                                },
                                p2 + rdlen,
                            ),
                        )
                    }
                }
            }
        },
    }
}

/// Decoding an embedded record encoding yields exactly the record that was
/// encoded; in particular an opaque payload of declared length N decodes to
/// exactly those N bytes.
pub proof fn lemma_parse_encoded_record(buf: Seq<u8>, pos: int, r: RecordV)
    requires
        wf_record(r),
        0 <= pos,
        pos + spec_encode_record(r).len() <= buf.len(),
        buf.subrange(pos, pos + spec_encode_record(r).len()) == spec_encode_record(r),
    ensures
        spec_parse_record(buf, pos) == Ok::<(RecordV, int), DnsError>(
            (r, pos + spec_encode_record(r).len()),
        ),
{
    let e = spec_encode_record(r);
    let en = spec_encode_name(r.name);
    let tb = spec_u16_bytes(spec_rtype(r.data));
    let cb = spec_u16_bytes(r.class);
    let ttb = spec_u32_bytes(r.ttl);
    let rd = spec_encode_rdata(r.data);
    let lb = spec_u16_bytes(rd.len() as u16);
    let nl = en.len() as int;
    assert(e.len() == nl + 10 + rd.len());
    lemma_embedded_subrange(buf, pos, e, 0, nl);
    assert(e.subrange(0, nl) =~= en);
    lemma_parse_encoded_name(buf, pos, r.name, MAX_JUMPS as nat);
    let p1 = pos + nl;
    lemma_embedded_byte(buf, pos, e, nl);
    lemma_embedded_byte(buf, pos, e, nl + 1);
    lemma_embedded_byte(buf, pos, e, nl + 2);
    lemma_embedded_byte(buf, pos, e, nl + 3);
    lemma_embedded_byte(buf, pos, e, nl + 4);
    lemma_embedded_byte(buf, pos, e, nl + 5);
    lemma_embedded_byte(buf, pos, e, nl + 6);
    lemma_embedded_byte(buf, pos, e, nl + 7);
    lemma_embedded_byte(buf, pos, e, nl + 8);
    lemma_embedded_byte(buf, pos, e, nl + 9);
    assert(e[nl] == tb[0] && e[nl + 1] == tb[1]);
    assert(e[nl + 2] == cb[0] && e[nl + 3] == cb[1]);
    assert(e[nl + 4] == ttb[0] && e[nl + 5] == ttb[1] && e[nl + 6] == ttb[2] && e[nl + 7]
        == ttb[3]);
    assert(e[nl + 8] == lb[0] && e[nl + 9] == lb[1]);
    lemma_u16_round_trip(spec_rtype(r.data));
    lemma_u16_round_trip(r.class);
    lemma_u32_round_trip(r.ttl);
    lemma_u16_round_trip(rd.len() as u16);
    assert(spec_u16(buf[p1 + 8], buf[p1 + 9]) == rd.len());
    lemma_embedded_subrange(buf, pos, e, nl + 10, nl + 10 + rd.len());
    assert(e.subrange(nl + 10, nl + 10 + rd.len()) =~= rd);
    let p2 = p1 + 10;
    assert(buf.subrange(p2, p2 + rd.len()) == rd);
    match r.data {
        RecordDataV::A { addr } => {
            assert(addr.len() == 4);
        },
        RecordDataV::Aaaa { addr } => {
            assert(addr.len() == 16);
        },
        RecordDataV::Ns { host } => {
            lemma_parse_encoded_name(buf, p2, host, MAX_JUMPS as nat);
        },
        RecordDataV::Cname { host } => {
            lemma_parse_encoded_name(buf, p2, host, MAX_JUMPS as nat);
        },
        RecordDataV::Mx { priority, host } => {
            let pb = spec_u16_bytes(priority);
            let enh = spec_encode_name(host);
            assert(rd == pb + enh);
            assert(buf[p2] == rd[0] && buf[p2 + 1] == rd[1]) by {
                lemma_embedded_byte(buf, pos, e, nl + 10);
                lemma_embedded_byte(buf, pos, e, nl + 11);
                assert(e[nl + 10] == rd[0] && e[nl + 11] == rd[1]);
            }
            assert(rd[0] == pb[0] && rd[1] == pb[1]);
            lemma_u16_round_trip(priority);
            lemma_embedded_subrange(buf, pos, e, nl + 12, nl + 10 + rd.len());
            assert(e.subrange(nl + 12, nl + 10 + rd.len()) =~= enh);
            lemma_parse_encoded_name(buf, p2 + 2, host, MAX_JUMPS as nat);
        },
        RecordDataV::Unknown { rtype, data } => {
            assert(!spec_known_rtype(rtype));
            assert(buf.subrange(p2, p2 + data.len()) == data);
        },
    }
}

impl DnsRecord {
    /// The type code this record encodes under.
    pub fn type_code(&self) -> (r: u16)
        ensures
            r == spec_rtype(self.data.deep_view()),
    {
        match &self.data {
            DnsRecordData::A { .. } => 1,
            DnsRecordData::Ns { .. } => 2,
            DnsRecordData::Cname { .. } => 5,
            DnsRecordData::Mx { .. } => 15,
            DnsRecordData::Aaaa { .. } => 28,
            DnsRecordData::Unknown { rtype, .. } => *rtype,
        }
    }

    /// Whether every name of this record can be encoded.
    pub fn names_ok(&self) -> (r: bool)
        ensures
            r == spec_record_names_ok(self.deep_view()),
    {
        if !self.name.is_wf() {
            return false;
        }
        match &self.data {
            DnsRecordData::Ns { host } => host.is_wf(),
            DnsRecordData::Cname { host } => host.is_wf(),
            DnsRecordData::Mx { host, .. } => host.is_wf(),
            _ => true,
        }
    }

    /// Decode one record at the cursor's position. On failure the position
    /// is left unchanged.
    pub fn from_buffer(buffer: &mut PacketBuffer) -> (r: Result<Self, DnsError>)
        ensures
            final(buffer).bytes() == old(buffer).bytes(),
            match spec_parse_record(old(buffer).bytes(), old(buffer).spec_pos()) {
                Ok(pr) => {
                    &&& r is Ok
                    &&& r->Ok_0.deep_view() == pr.0
                    &&& final(buffer).spec_pos() == pr.1
                },
                Err(e) => {
                    &&& r == Err::<DnsRecord, DnsError>(e)
                    &&& final(buffer).spec_pos() == old(buffer).spec_pos()
                },
            },
    {
        let start = buffer.get_pos();
        let name = match buffer.read_qname() {
            Ok(n) => n,
            Err(e) => {
                return Err(e);
            },
        };
        let rtype = match buffer.read_u16() {
            Ok(v) => v,
            Err(e) => {
                buffer.seek(start);
                return Err(e);
            },
        };
        let class = match buffer.read_u16() {
            Ok(v) => v,
            Err(e) => {
                buffer.seek(start);
                return Err(e);
            },
        };
        let ttl = match buffer.read_u32() {
            Ok(v) => v,
            Err(e) => {
                buffer.seek(start);
                return Err(e);
            },
        };
        let rdlen = match buffer.read_u16() {
            Ok(v) => v,
            Err(e) => {
                buffer.seek(start);
                return Err(e);
            },
        };
        let data = if rtype == 1 {
            match buffer.read_bytes(4) {
                Ok(addr) => DnsRecordData::A { addr },
                Err(e) => {
                    buffer.seek(start);
                    return Err(e);
                },
            }
        } else if rtype == 28 {
            match buffer.read_bytes(16) {
                Ok(addr) => DnsRecordData::Aaaa { addr },
                Err(e) => {
                    buffer.seek(start);
                    return Err(e);
                },
            }
        } else if rtype == 2 || rtype == 5 {
            match buffer.read_qname() {
                Ok(host) => if rtype == 2 {
                    DnsRecordData::Ns { host }
                } else {
                    DnsRecordData::Cname { host }
                },
                Err(e) => {
                    buffer.seek(start);
                    return Err(e);
                },
            }
        } else if rtype == 15 {
            let priority = match buffer.read_u16() {
                Ok(v) => v,
                Err(e) => {
                    buffer.seek(start);
                    return Err(e);
                },
            };
            match buffer.read_qname() {
                Ok(host) => DnsRecordData::Mx { priority, host },
                Err(e) => {
                    buffer.seek(start);
                    return Err(e);
                },
            }
        } else {
            match buffer.read_bytes(rdlen as usize) {
                Ok(data) => DnsRecordData::Unknown { rtype, data },
                Err(e) => {
                    buffer.seek(start);
                    return Err(e);
                },
            }
        };
        Ok(DnsRecord { name, class, ttl, data })
    }

    /// Append this record's encoding. The declared-length field is written
    /// as a placeholder and backpatched once the payload's size is known.
    #[verifier::rlimit(50)]
    pub fn write(&self, out: &mut PacketWriter) -> (r: Result<(), DnsError>)
        requires
            old(out).wf(),
            old(out).cap() <= 0xFFFF,
            wf_name(self.name@),
            wf_rdata_names(self.data.deep_view()),
        ensures
            final(out).wf(),
            final(out).cap() == old(out).cap(),
            match r {
                Ok(()) => {
                    &&& old(out).bytes().len() + spec_encode_record(self.deep_view()).len()
                        <= old(out).cap()
                    &&& final(out).bytes() == old(out).bytes() + spec_encode_record(
                        self.deep_view(),
                    )
                },
                Err(e) => {
                    &&& e == DnsError::BufferOverflow
                    &&& old(out).bytes().len() + spec_encode_record(self.deep_view()).len()
                        > old(out).cap()
                },
            },
    {
        let ghost rv = self.deep_view();
        let ghost en = spec_encode_name(rv.name);
        let ghost rd = spec_encode_rdata(rv.data);
        match self.name.write(out) {
            Ok(()) => (),
            Err(e) => {
                return Err(e);
            },
        }
        match out.write_u16(self.type_code()) {
            Ok(()) => (),
            Err(e) => {
                return Err(e);
            },
        }
        match out.write_u16(self.class) {
            Ok(()) => (),
            Err(e) => {
                return Err(e);
            },
        }
        match out.write_u32(self.ttl) {
            Ok(()) => (),
            Err(e) => {
                return Err(e);
            },
        }
        let len_pos = out.len();
        let ghost pre = out.bytes();
        match out.write_u16(0) {
            Ok(()) => (),
            Err(e) => {
                return Err(e);
            },
        }
        let ghost ph = spec_u16_bytes(0);
        match &self.data {
            DnsRecordData::A { addr } => {
                match out.write_bytes(addr) {
                    Ok(()) => (),
                    Err(e) => {
                        return Err(e);
                    },
                }
            },
            DnsRecordData::Aaaa { addr } => {
                match out.write_bytes(addr) {
                    Ok(()) => (),
                    Err(e) => {
                        return Err(e);
                    },
                }
            },
            DnsRecordData::Ns { host } => {
                match host.write(out) {
                    Ok(()) => (),
                    Err(e) => {
                        return Err(e);
                    },
                }
            },
            DnsRecordData::Cname { host } => {
                match host.write(out) {
                    Ok(()) => (),
                    Err(e) => {
                        return Err(e);
                    },
                }
            },
            DnsRecordData::Mx { priority, host } => {
                match out.write_u16(*priority) {
                    Ok(()) => (),
                    Err(e) => {
                        return Err(e);
                    },
                }
                match host.write(out) {
                    Ok(()) => (),
                    Err(e) => {
                        proof {
                            assert(spec_u16_bytes(*priority).len() + spec_encode_name(
                                host@,
                            ).len() == rd.len());
                        }
                        return Err(e);
                    },
                }
                proof {
                    assert(out.bytes() =~= pre + ph + rd);
                }
            },
            DnsRecordData::Unknown { rtype, data } => {
                match out.write_bytes(data) {
                    Ok(()) => (),
                    Err(e) => {
                        return Err(e);
                    },
                }
            },
        }
        proof {
            assert(out.bytes() =~= pre + ph + rd);
        }
        let end = out.len();
        let rdlen = (end - len_pos - 2) as u16;
        proof {
            assert(end - len_pos - 2 == rd.len());
            assert(rdlen == rd.len() as u16);
        }
        match out.write_u16_at(len_pos, rdlen) {
            Ok(()) => (),
            Err(e) => {
                proof {
                    assert(false);
                }
                return Err(e);
            },
        }
        proof {
            let lb = spec_u16_bytes(rdlen);
            let target = old(out).bytes() + spec_encode_record(rv);
            let i = len_pos as int;
            assert(pre =~= old(out).bytes() + en + spec_u16_bytes(spec_rtype(rv.data))
                + spec_u16_bytes(rv.class) + spec_u32_bytes(rv.ttl));
            let patched = (pre + ph + rd).update(i, lb[0]).update(i + 1, lb[1]);
            assert(out.bytes() == patched);
            assert(target.len() == pre.len() + 2 + rd.len());
            assert forall|j: int| 0 <= j < target.len() implies patched[j] == target[j] by {
                if j < i {
                    assert(patched[j] == pre[j]);
                    assert(target[j] == pre[j]);
                } else if j == i {
                    assert(target[j] == lb[0]);
                } else if j == i + 1 {
                    assert(target[j] == lb[1]);
                } else {
                    assert(patched[j] == rd[j - i - 2]);
                    assert(target[j] == rd[j - i - 2]);
                }
            }
            assert(out.bytes() =~= target);
        }
        Ok(())
    }
}

} // verus!
