use vstd::prelude::*;

use crate::error::DnsError;
use crate::packet_buffer::{
    spec_u16, spec_u16_bytes, lemma_u16_round_trip, PacketBuffer, PacketWriter,
};

verus! {

broadcast use crate::packet_buffer::lemma_pos_nonneg;

/// The result code of a response: a closed enumeration of the six classical
/// values. Any other 4-bit value on the wire is normalized to `NOERROR`.
#[derive(Debug, Clone, Copy, PartialEq, Eq)]
pub enum ResultCode {
    NOERROR,
    FORMERR,
    SERVFAIL,
    NXDOMAIN,
    NOTIMP,
    REFUSED,
}

/// The result code a raw 4-bit field decodes to.
pub open spec fn spec_rescode_from(byte: u8) -> ResultCode {
    if byte == 1 {
        ResultCode::FORMERR
    } else if byte == 2 {
        ResultCode::SERVFAIL
    } else if byte == 3 {
        ResultCode::NXDOMAIN
    } else if byte == 4 {
        ResultCode::NOTIMP
    } else if byte == 5 {
        ResultCode::REFUSED
    } else {
        ResultCode::NOERROR
    }
}

/// The 4-bit value a result code encodes to.
pub open spec fn spec_rescode_num(rc: ResultCode) -> u8 {
    match rc {
        ResultCode::NOERROR => 0,
        ResultCode::FORMERR => 1,
        ResultCode::SERVFAIL => 2,
        ResultCode::NXDOMAIN => 3,
        ResultCode::NOTIMP => 4,
        ResultCode::REFUSED => 5,
    }
}

/// Encoding a result code and decoding the 4-bit value again is the identity.
pub proof fn lemma_rescode_round_trip(rc: ResultCode)
    ensures
        spec_rescode_from(spec_rescode_num(rc)) == rc,
        spec_rescode_num(rc) < 16,
{
    match rc {
        ResultCode::NOERROR => {},
        ResultCode::FORMERR => {},
        ResultCode::SERVFAIL => {},
        ResultCode::NXDOMAIN => {},
        ResultCode::NOTIMP => {},
        ResultCode::REFUSED => {},
    }
}

impl From<u8> for ResultCode {
    /// Decode the raw 4-bit result-code field, normalizing undefined values
    /// to `NOERROR`.
    fn from(byte: u8) -> (r: Self) {
        match byte {
            1 => ResultCode::FORMERR,
            2 => ResultCode::SERVFAIL,
            3 => ResultCode::NXDOMAIN,
            4 => ResultCode::NOTIMP,
            5 => ResultCode::REFUSED,
            _ => ResultCode::NOERROR,
        }
    }
}

impl vstd::std_specs::convert::FromSpecImpl<u8> for ResultCode {
    open spec fn obeys_from_spec() -> bool {
        true
    }

    open spec fn from_spec(byte: u8) -> ResultCode {
        spec_rescode_from(byte)
    }
}

impl ResultCode {
    /// The 4-bit value this code encodes to.
    pub fn as_num(&self) -> (r: u8)
        ensures
            r == spec_rescode_num(*self),
    {
        match self {
            ResultCode::NOERROR => 0,
            ResultCode::FORMERR => 1,
            ResultCode::SERVFAIL => 2,
            ResultCode::NXDOMAIN => 3,
            ResultCode::NOTIMP => 4,
            ResultCode::REFUSED => 5,
        }
    }
}

/// Whether the `nth_bit` of `byte` is set, counting from the most
/// significant bit: for `0b1000_0000`, bit 1 is the set one.
pub open spec fn spec_is_bit_set(byte: u8, nth_bit: u8) -> bool {
    byte & (1u8 << ((8 - nth_bit) as u8)) > 0
}

/// If `byte` is `0b1000_0000` and we want to test the 1, `nth_bit` should
/// be 1.
pub fn is_bit_set(byte: u8, nth_bit: u8) -> (r: bool)
    requires
        1 <= nth_bit <= 8,
    ensures
        r == spec_is_bit_set(byte, nth_bit),
{
    byte & (1u8 << (8 - nth_bit)) > 0
}

/// A flag as the 0-or-1 value that carries it on the wire.
pub open spec fn spec_bool_byte(b: bool) -> u8 {
    if b {
        1
    } else {
        0
    }
}

/// The first control byte: response(1) opcode(4) authoritative-answer(1)
/// truncated(1) recursion-desired(1), most significant bit first.
pub open spec fn spec_pack_flags1(r: u8, op: u8, aa: u8, tc: u8, rd: u8) -> u8 {
    (r << 7) | (op << 3) | (aa << 2) | (tc << 1) | rd
}

/// The second control byte: recursion-available(1) Z(1) authenticated-data(1)
/// checking-disabled(1) result-code(4), most significant bit first.
pub open spec fn spec_pack_flags2(ra: u8, z: u8, ad: u8, cd: u8, rc: u8) -> u8 {
    (ra << 7) | (z << 6) | (ad << 5) | (cd << 4) | rc
}

proof fn lemma_flags1_bits(r: u8, op: u8, aa: u8, tc: u8, rd: u8)
    by (bit_vector)
    requires
        r < 2,
        op < 16,
        aa < 2,
        tc < 2,
        rd < 2,
    ensures
        spec_is_bit_set(spec_pack_flags1(r, op, aa, tc, rd), 1) == (r == 1),
        (spec_pack_flags1(r, op, aa, tc, rd) >> 3) & 0x0F == op,
        spec_is_bit_set(spec_pack_flags1(r, op, aa, tc, rd), 6) == (aa == 1),
        spec_is_bit_set(spec_pack_flags1(r, op, aa, tc, rd), 7) == (tc == 1),
        spec_is_bit_set(spec_pack_flags1(r, op, aa, tc, rd), 8) == (rd == 1),
{
}

proof fn lemma_flags2_bits(ra: u8, z: u8, ad: u8, cd: u8, rc: u8)
    by (bit_vector)
    requires
        ra < 2,
        z < 2,
        ad < 2,
        cd < 2,
        rc < 16,
    ensures
        spec_is_bit_set(spec_pack_flags2(ra, z, ad, cd, rc), 1) == (ra == 1),
        spec_is_bit_set(spec_pack_flags2(ra, z, ad, cd, rc), 2) == (z == 1),
        spec_is_bit_set(spec_pack_flags2(ra, z, ad, cd, rc), 3) == (ad == 1),
        spec_is_bit_set(spec_pack_flags2(ra, z, ad, cd, rc), 4) == (cd == 1),
        spec_pack_flags2(ra, z, ad, cd, rc) & 0x0F == rc,
{
}

/// The fixed 12-byte message header: transaction id, control bit-fields,
/// result code, and the four section counts.
#[derive(Debug, Clone, Copy, PartialEq, Eq)]
pub struct DnsHeader {
    pub id: u16,

    pub response: bool,
    pub opcode: u8,
    pub authoritative_answer: bool,
    pub truncated_message: bool,
    pub recursion_desired: bool,

    pub recursion_available: bool,
    pub z: bool,
    pub authed_data: bool,
    pub checking_disabled: bool,
    pub rescode: ResultCode,

    pub questions: u16,
    pub answers: u16,
    pub authoritative_entries: u16,
    pub resource_entries: u16,
}

/// The opcode is a 4-bit field; everything else fits by type.
pub open spec fn wf_header(h: DnsHeader) -> bool {
    h.opcode < 16
}

/// The header's first control byte.
pub open spec fn spec_flags1(h: DnsHeader) -> u8 {
    spec_pack_flags1(
        spec_bool_byte(h.response),
        h.opcode,
        spec_bool_byte(h.authoritative_answer),
        spec_bool_byte(h.truncated_message),
        spec_bool_byte(h.recursion_desired),
    )
}

/// The header's second control byte.
pub open spec fn spec_flags2(h: DnsHeader) -> u8 {
    spec_pack_flags2(
        spec_bool_byte(h.recursion_available),
        spec_bool_byte(h.z),
        spec_bool_byte(h.authed_data),
        spec_bool_byte(h.checking_disabled),
        spec_rescode_num(h.rescode),
    )
}

/// The 12 bytes a header encodes to.
pub open spec fn spec_header_bytes(h: DnsHeader) -> Seq<u8> {
    spec_u16_bytes(h.id) + seq![spec_flags1(h), spec_flags2(h)] + spec_u16_bytes(h.questions)
        + spec_u16_bytes(h.answers) + spec_u16_bytes(h.authoritative_entries) + spec_u16_bytes(
        h.resource_entries,
    )
}

/// The header 12 bytes decode to.
pub open spec fn spec_parse_header(s: Seq<u8>) -> DnsHeader
    recommends
        s.len() >= 12,
{
    DnsHeader {
        id: spec_u16(s[0], s[1]),
        response: spec_is_bit_set(s[2], 1),
        opcode: (s[2] >> 3) & 0x0F,
        authoritative_answer: spec_is_bit_set(s[2], 6),
        truncated_message: spec_is_bit_set(s[2], 7),
        recursion_desired: spec_is_bit_set(s[2], 8),
        recursion_available: spec_is_bit_set(s[3], 1),
        z: spec_is_bit_set(s[3], 2),
        authed_data: spec_is_bit_set(s[3], 3),
        checking_disabled: spec_is_bit_set(s[3], 4),
        rescode: spec_rescode_from(s[3] & 0x0F),
        questions: spec_u16(s[4], s[5]),
        answers: spec_u16(s[6], s[7]),
        authoritative_entries: spec_u16(s[8], s[9]),
        resource_entries: spec_u16(s[10], s[11]),
    }
}

/// Encoding a well-formed header and decoding the bytes again is the
/// identity.
pub proof fn lemma_header_round_trip(h: DnsHeader)
    requires
        wf_header(h),
    ensures
        spec_header_bytes(h).len() == 12,
        spec_parse_header(spec_header_bytes(h)) == h,
{
    let hb = spec_header_bytes(h);
    let f1 = spec_flags1(h);
    let f2 = spec_flags2(h);
    assert(hb =~= seq![
        spec_u16_bytes(h.id)[0],
        spec_u16_bytes(h.id)[1],
        f1,
        f2,
        spec_u16_bytes(h.questions)[0],
        spec_u16_bytes(h.questions)[1],
        spec_u16_bytes(h.answers)[0],
        spec_u16_bytes(h.answers)[1],
        spec_u16_bytes(h.authoritative_entries)[0],
        spec_u16_bytes(h.authoritative_entries)[1],
        spec_u16_bytes(h.resource_entries)[0],
        spec_u16_bytes(h.resource_entries)[1],
    ]);
    lemma_u16_round_trip(h.id);
    lemma_u16_round_trip(h.questions);
    lemma_u16_round_trip(h.answers);
    lemma_u16_round_trip(h.authoritative_entries);
    lemma_u16_round_trip(h.resource_entries);
    lemma_rescode_round_trip(h.rescode);
    lemma_flags1_bits(
        spec_bool_byte(h.response),
        h.opcode,
        spec_bool_byte(h.authoritative_answer),
        spec_bool_byte(h.truncated_message),
        spec_bool_byte(h.recursion_desired),
    );
    lemma_flags2_bits(
        spec_bool_byte(h.recursion_available),
        spec_bool_byte(h.z),
        spec_bool_byte(h.authed_data),
        spec_bool_byte(h.checking_disabled),
        spec_rescode_num(h.rescode),
    );
}

impl DnsHeader {
    /// Decode the 12-byte header at the cursor's position. On failure the
    /// position is left unchanged.
    pub fn from_buffer(buffer: &mut PacketBuffer) -> (r: Result<Self, DnsError>)
        ensures
            final(buffer).bytes() == old(buffer).bytes(),
            if old(buffer).spec_pos() + 12 <= old(buffer).bytes().len() && old(
                buffer,
            ).spec_pos() >= 0 {
                &&& r is Ok
                &&& r->Ok_0 == spec_parse_header(
                    old(buffer).bytes().subrange(
                        old(buffer).spec_pos(),
                        old(buffer).spec_pos() + 12,
                    ),
                )
                &&& final(buffer).spec_pos() == old(buffer).spec_pos() + 12
            } else {
                &&& r == Err::<DnsHeader, DnsError>(DnsError::BufferUnderrun)
                &&& final(buffer).spec_pos() == old(buffer).spec_pos()
            },
    {
        if buffer.remaining() < 12 {
            return Err(DnsError::BufferUnderrun);
        }
        proof {
            assert(old(buffer).spec_remaining() >= 12);
            assert(old(buffer).spec_pos() + 12 <= old(buffer).bytes().len());
        }
        let id = match buffer.read_u16() {
            Ok(v) => v,
            Err(e) => {
                return Err(e);
            },
        };
        let b1 = match buffer.read_u8() {
            Ok(v) => v,
            Err(e) => {
                return Err(e);
            },
        };
        let b2 = match buffer.read_u8() {
            Ok(v) => v,
            Err(e) => {
                return Err(e);
            },
        };
        let questions = match buffer.read_u16() {
            Ok(v) => v,
            Err(e) => {
                return Err(e);
            },
        };
        let answers = match buffer.read_u16() {
            Ok(v) => v,
            Err(e) => {
                return Err(e);
            },
        };
        let authoritative_entries = match buffer.read_u16() {
            Ok(v) => v,
            Err(e) => {
                return Err(e);
            },
        };
        let resource_entries = match buffer.read_u16() {
            Ok(v) => v,
            Err(e) => {
                return Err(e);
            },
        };
        let header = DnsHeader {
            id,
            response: is_bit_set(b1, 1),
            opcode: (b1 >> 3) & 0x0F,
            authoritative_answer: is_bit_set(b1, 6),
            truncated_message: is_bit_set(b1, 7),
            recursion_desired: is_bit_set(b1, 8),
            recursion_available: is_bit_set(b2, 1),
            z: is_bit_set(b2, 2),
            authed_data: is_bit_set(b2, 3),
            checking_disabled: is_bit_set(b2, 4),
            rescode: ResultCode::from(b2 & 0x0F),
            questions,
            answers,
            authoritative_entries,
            resource_entries,
        };
        proof {
            let b = old(buffer).bytes();
            let p = old(buffer).spec_pos();
            assert(p >= 0 && p + 12 <= b.len());
            let s = b.subrange(p, p + 12);
            assert forall|k: int| 0 <= k < 12 implies s[k] == b[p + k] by {
                assert(s[k] == b[p + k]);
            }
            assert(header.id == spec_u16(s[0], s[1]));
            assert(header.response == spec_is_bit_set(s[2], 1));
            assert(header.opcode == (s[2] >> 3) & 0x0F);
            assert(header.authoritative_answer == spec_is_bit_set(s[2], 6));
            assert(header.truncated_message == spec_is_bit_set(s[2], 7));
            assert(header.recursion_desired == spec_is_bit_set(s[2], 8));
            assert(header.recursion_available == spec_is_bit_set(s[3], 1));
            assert(header.z == spec_is_bit_set(s[3], 2));
            assert(header.authed_data == spec_is_bit_set(s[3], 3));
            assert(header.checking_disabled == spec_is_bit_set(s[3], 4));
            assert(header.rescode == spec_rescode_from(s[3] & 0x0F));
            assert(header.questions == spec_u16(s[4], s[5]));
            assert(header.answers == spec_u16(s[6], s[7]));
            assert(header.authoritative_entries == spec_u16(s[8], s[9]));
            assert(header.resource_entries == spec_u16(s[10], s[11]));
            assert(header == spec_parse_header(s));
        }
        Ok(header)
    }

    /// Append the header's 12-byte encoding.
    #[verifier::rlimit(50)]
    pub fn write(&self, out: &mut PacketWriter) -> (r: Result<(), DnsError>)
        requires
            old(out).wf(),
        ensures
            final(out).wf(),
            final(out).cap() == old(out).cap(),
            match r {
                Ok(()) => {
                    &&& old(out).bytes().len() + 12 <= old(out).cap()
                    &&& final(out).bytes() == old(out).bytes() + spec_header_bytes(*self)
                },
                Err(e) => {
                    &&& e == DnsError::BufferOverflow
                    &&& old(out).bytes().len() + 12 > old(out).cap()
                },
            },
    {
        let r_bit: u8 = if self.response { 1 } else { 0 };
        let aa_bit: u8 = if self.authoritative_answer { 1 } else { 0 };
        let tc_bit: u8 = if self.truncated_message { 1 } else { 0 };
        let rd_bit: u8 = if self.recursion_desired { 1 } else { 0 };
        let ra_bit: u8 = if self.recursion_available { 1 } else { 0 };
        let z_bit: u8 = if self.z { 1 } else { 0 };
        let ad_bit: u8 = if self.authed_data { 1 } else { 0 };
        let cd_bit: u8 = if self.checking_disabled { 1 } else { 0 };
        let rc_num = self.rescode.as_num();
        let f1: u8 = (r_bit << 7) | (self.opcode << 3) | (aa_bit << 2) | (tc_bit << 1) | rd_bit;
        let f2: u8 = (ra_bit << 7) | (z_bit << 6) | (ad_bit << 5) | (cd_bit << 4) | rc_num;
        proof {
            assert(f1 == spec_flags1(*self));
            assert(f2 == spec_flags2(*self));
        }
        match out.write_u16(self.id) {
            Ok(()) => (),
            Err(e) => {
                return Err(e);
            },
        }
        match out.write_u8(f1) {
            Ok(()) => (),
            Err(e) => {
                return Err(e);
            },
        }
        match out.write_u8(f2) {
            Ok(()) => (),
            Err(e) => {
                return Err(e);
            },
        }
        match out.write_u16(self.questions) {
            Ok(()) => (),
            Err(e) => {
                return Err(e);
            },
        }
        match out.write_u16(self.answers) {
            Ok(()) => (),
            Err(e) => {
                return Err(e);
            },
        }
        match out.write_u16(self.authoritative_entries) {
            Ok(()) => (),
            Err(e) => {
                return Err(e);
            },
        }
        let res = out.write_u16(self.resource_entries);
        proof {
            if res is Ok {
                assert(out.bytes() =~= old(out).bytes() + spec_header_bytes(*self));
            }
        }
        match res {
            Ok(()) => Ok(()),
            Err(e) => Err(e),
        }
    }
}

} // verus!
