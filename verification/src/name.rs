use vstd::prelude::*;

use crate::error::DnsError;
use crate::packet_buffer::PacketWriter;

verus! {

/// Most pointer jumps a single name may take before decoding fails with
/// `CompressionLoopDetected`.
pub const MAX_JUMPS: u8 = 5;

/// A wire label carries 1 to 63 bytes.
pub open spec fn wf_label(l: Seq<u8>) -> bool {
    1 <= l.len() <= 63
}

/// Every label of the name is encodable.
pub open spec fn wf_name(labels: Seq<Seq<u8>>) -> bool {
    forall|i: int| 0 <= i < labels.len() ==> wf_label(#[trigger] labels[i])
}

/// The label part of a name's encoding: each label preceded by its length
/// byte, without the terminating zero byte.
pub open spec fn spec_encode_labels(labels: Seq<Seq<u8>>) -> Seq<u8>
    decreases labels.len(),
{
    if labels.len() == 0 {
        Seq::empty()
    } else {
        seq![labels[0].len() as u8] + labels[0] + spec_encode_labels(labels.drop_first())
    }
}

/// A name's full encoding: length-prefixed labels, terminated by a zero
/// length byte. Compression pointers are never emitted.
pub open spec fn spec_encode_name(labels: Seq<Seq<u8>>) -> Seq<u8> {
    spec_encode_labels(labels) + seq![0u8]
}

/// What decoding a name at `pos` of the message `buf` yields, with
/// `jumps_left` pointer jumps still allowed: on success, the label sequence
/// and the position at which the caller's cursor resumes (just past the
/// terminating zero byte, or just past the first pointer if one was taken).
pub open spec fn spec_parse_name(buf: Seq<u8>, pos: int, jumps_left: nat) -> Result<
    (Seq<Seq<u8>>, int),
    DnsError,
>
    decreases jumps_left, buf.len() - pos,
{
    if pos < 0 || pos >= buf.len() {
        Err(DnsError::BufferUnderrun)
    } else {
        let len = buf[pos];
        if len == 0 {
            Ok((Seq::empty(), pos + 1))
        } else if len >= 0xC0 {
            if pos + 1 >= buf.len() {
                Err(DnsError::BufferUnderrun)
            } else {
                let target = (len - 0xC0) * 256 + buf[pos + 1];
                if jumps_left == 0 || target >= pos {
                    Err(DnsError::CompressionLoopDetected)
                } else {
                    match spec_parse_name(buf, target as int, (jumps_left - 1) as nat) {
                        Ok(pr) => Ok((pr.0, pos + 2)),
                        Err(e) => Err(e),
                    }
                }
            }
        } else if len > 63 {
            Err(DnsError::InvalidLabelLength)
        } else if pos + 1 + len > buf.len() {
            Err(DnsError::InvalidLabelLength)
        } else {
            match spec_parse_name(buf, pos + 1 + len, jumps_left) {
                Ok(pr) => Ok((seq![buf.subrange(pos + 1, pos + 1 + len)] + pr.0, pr.1)),
                Err(e) => Err(e),
            }
        }
    }
}

/// Decoding an uncompressed name encoding embedded anywhere in a message
/// yields exactly the labels that were encoded, and resumes just past the
/// terminating zero byte — whatever jump budget is in force.
pub proof fn lemma_parse_encoded_name(buf: Seq<u8>, pos: int, labels: Seq<Seq<u8>>, jumps: nat)
    requires
        wf_name(labels),
        0 <= pos,
        pos + spec_encode_name(labels).len() <= buf.len(),
        buf.subrange(pos, pos + spec_encode_name(labels).len()) == spec_encode_name(labels),
    ensures
        spec_parse_name(buf, pos, jumps) == Ok::<(Seq<Seq<u8>>, int), DnsError>(
            (labels, pos + spec_encode_name(labels).len()),
        ),
    decreases labels.len(),
{
    let en = spec_encode_name(labels);
    assert(buf[pos] == en[0]);
    if labels.len() == 0 {
        assert(en =~= seq![0u8]);
        assert(spec_parse_name(buf, pos, jumps) == Ok::<(Seq<Seq<u8>>, int), DnsError>(
            (Seq::empty(), pos + 1),
        ));
        assert(labels =~= Seq::<Seq<u8>>::empty());
    } else {
        let l0 = labels[0];
        let n0 = l0.len() as int;
        let rest = labels.drop_first();
        let enr = spec_encode_name(rest);
        assert(wf_label(l0));
        assert(wf_name(rest)) by {
            assert(forall|i: int|
                0 <= i < rest.len() ==> #[trigger] rest[i] == labels[i + 1]);
        }
        assert(en =~= seq![l0.len() as u8] + l0 + enr);
        assert(en.len() == 1 + n0 + enr.len());
        assert(buf[pos] == l0.len() as u8);
        let sub = buf.subrange(pos, pos + en.len());
        assert forall|i: int| 0 <= i < n0 implies buf.subrange(pos + 1, pos + 1 + n0)[i]
            == l0[i] by {
            assert(en[1 + i] == l0[i]);
            assert(sub[1 + i] == en[1 + i]);
            assert(sub[1 + i] == buf[pos + 1 + i]);
        }
        assert(buf.subrange(pos + 1, pos + 1 + n0) =~= l0);
        assert forall|i: int| 0 <= i < enr.len() implies buf.subrange(
            pos + 1 + n0,
            pos + 1 + n0 + enr.len(),
        )[i] == enr[i] by {
            assert(en[1 + n0 + i] == enr[i]);
            assert(sub[1 + n0 + i] == en[1 + n0 + i]);
            assert(sub[1 + n0 + i] == buf[pos + 1 + n0 + i]);
        }
        assert(buf.subrange(pos + 1 + n0, pos + 1 + n0 + enr.len()) =~= enr);
        lemma_parse_encoded_name(buf, pos + 1 + n0, rest, jumps);
        assert(seq![buf.subrange(pos + 1, pos + 1 + n0)] + rest =~= labels);
    }
}

/// Whatever bytes a name was decoded from, its labels are encodable: the
/// decoder only ever accepts labels of 1 to 63 bytes.
pub proof fn lemma_parsed_name_wf(buf: Seq<u8>, pos: int, jumps: nat)
    requires
        spec_parse_name(buf, pos, jumps) is Ok,
    ensures
        wf_name(spec_parse_name(buf, pos, jumps)->Ok_0.0),
    decreases jumps, buf.len() - pos,
{
    let len = buf[pos];
    if len == 0 {
    } else if len >= 0xC0 {
        let target = (len - 0xC0) * 256 + buf[pos + 1];
        lemma_parsed_name_wf(buf, target as int, (jumps - 1) as nat);
    } else {
        let lab = buf.subrange(pos + 1, pos + 1 + len);
        let rest = spec_parse_name(buf, pos + 1 + len, jumps)->Ok_0.0;
        lemma_parsed_name_wf(buf, pos + 1 + len, jumps);
        let labels = spec_parse_name(buf, pos, jumps)->Ok_0.0;
        assert(labels == seq![lab] + rest);
        assert forall|i: int| 0 <= i < labels.len() implies wf_label(#[trigger] labels[i]) by {
            if i > 0 {
                assert(labels[i] == rest[i - 1]);
            }
        }
    }
}

/// Decoding a name, re-encoding it without compression, and decoding the
/// result yields the same name again, whatever the jump budgets.
pub proof fn lemma_name_reencode_idempotent(buf: Seq<u8>, pos: int, jumps: nat, jumps2: nat)
    requires
        spec_parse_name(buf, pos, jumps) is Ok,
    ensures
        ({
            let labels = spec_parse_name(buf, pos, jumps)->Ok_0.0;
            spec_parse_name(spec_encode_name(labels), 0, jumps2) == Ok::<
                (Seq<Seq<u8>>, int),
                DnsError,
            >((labels, spec_encode_name(labels).len() as int))
        }),
{
    let labels = spec_parse_name(buf, pos, jumps)->Ok_0.0;
    let enc = spec_encode_name(labels);
    lemma_parsed_name_wf(buf, pos, jumps);
    assert(enc.subrange(0, enc.len() as int) =~= enc);
    lemma_parse_encoded_name(enc, 0, labels, jumps2);
}

/// A compression pointer that does not point strictly backwards — one that
/// points to itself included — fails with `CompressionLoopDetected`,
/// whatever jump budget remains; decoding never follows it.
pub proof fn lemma_forward_pointer_detected(buf: Seq<u8>, pos: int, jumps: nat)
    requires
        0 <= pos,
        pos + 1 < buf.len(),
        buf[pos] >= 0xC0,
        (buf[pos] - 0xC0) * 256 + buf[pos + 1] >= pos,
    ensures
        spec_parse_name(buf, pos, jumps) == Err::<(Seq<Seq<u8>>, int), DnsError>(
            DnsError::CompressionLoopDetected,
        ),
{
}

/// The dot-joined text after the first label: a dot before each further
/// label.
pub open spec fn spec_text_rest(labels: Seq<Seq<u8>>) -> Seq<u8>
    decreases labels.len(),
{
    if labels.len() == 0 {
        Seq::empty()
    } else {
        seq![46u8] + labels[0] + spec_text_rest(labels.drop_first())
    }
}

/// The name as a single dot-joined byte string: `www.example.com`.
pub open spec fn spec_name_text(labels: Seq<Seq<u8>>) -> Seq<u8> {
    if labels.len() == 0 {
        Seq::empty()
    } else {
        labels[0] + spec_text_rest(labels.drop_first())
    }
}

/// Append every byte of `bytes` to `acc`.
fn push_bytes(acc: &mut Vec<u8>, bytes: &Vec<u8>)
    ensures
        final(acc)@ == old(acc)@ + bytes@,
{
    let n = bytes.len();
    let mut j: usize = 0;
    proof {
        assert(acc@ =~= old(acc)@ + bytes@.subrange(0, 0));
    }
    while j < n
        invariant
            j <= n,
            n == bytes@.len(),
            acc@ == old(acc)@ + bytes@.subrange(0, j as int),
        decreases n - j,
    {
        acc.push(bytes[j]);
        j = j + 1;
        proof {
            assert(acc@ =~= old(acc)@ + bytes@.subrange(0, j as int));
        }
    }
    proof {
        assert(bytes@.subrange(0, n as int) =~= bytes@);
    }
}

/// A domain name: an ordered sequence of labels, kept in decoded (pointer
/// free) form. The logical view is the label sequence; the dot-joined text
/// is available through [`DnsName::text`].
#[derive(Debug, Clone, PartialEq, Eq)]
pub struct DnsName {
    labels: Vec<Vec<u8>>,
}

impl View for DnsName {
    type V = Seq<Seq<u8>>;

    closed spec fn view(&self) -> Seq<Seq<u8>> {
        self.labels.deep_view()
    }
}

impl DeepView for DnsName {
    type V = Seq<Seq<u8>>;

    open spec fn deep_view(&self) -> Seq<Seq<u8>> {
        self.view()
    }
}

impl DnsName {
    /// The root name, with no labels.
    pub fn new() -> (r: Self)
        ensures
            r@ == Seq::<Seq<u8>>::empty(),
    {
        let r = DnsName { labels: Vec::new() };
        proof {
            assert(r@ =~= Seq::<Seq<u8>>::empty());
        }
        r
    }

    pub fn from_labels(labels: Vec<Vec<u8>>) -> (r: Self)
        ensures
            r@ == labels.deep_view(),
    {
        DnsName { labels }
    }

    pub fn labels(&self) -> (r: &Vec<Vec<u8>>)
        ensures
            r.deep_view() == self@,
    {
        &self.labels
    }

    /// Whether every label fits the wire format.
    pub fn is_wf(&self) -> (r: bool)
        ensures
            r == wf_name(self@),
    {
        let n = self.labels.len();
        let mut i: usize = 0;
        while i < n
            invariant
                i <= n,
                n == self.labels@.len(),
                forall|j: int| 0 <= j < i ==> wf_label(#[trigger] self@[j]),
            decreases n - i,
        {
            let ln = self.labels[i].len();
            if ln == 0 || ln > 63 {
                proof {
                    assert(self@[i as int] == self.labels@[i as int].deep_view());
                    assert(!wf_label(self@[i as int]));
                }
                return false;
            }
            proof {
                assert(self@[i as int] == self.labels@[i as int].deep_view());
            }
            i = i + 1;
        }
        true
    }

    /// The name as a single dot-joined byte string, case preserved.
    pub fn text(&self) -> (r: Vec<u8>)
        ensures
            r@ == spec_name_text(self@),
    {
        let ghost dv = self@;
        let mut acc: Vec<u8> = Vec::new();
        let n = self.labels.len();
        if n == 0 {
            proof {
                assert(acc@ =~= spec_name_text(dv));
            }
            return acc;
        }
        proof {
            assert(self.labels@[0].deep_view() =~= self.labels@[0]@);
            assert(dv[0] == self.labels@[0]@);
        }
        push_bytes(&mut acc, &self.labels[0]);
        let mut i: usize = 1;
        proof {
            assert(dv.drop_first() =~= dv.skip(1));
            assert(acc@ + spec_text_rest(dv.skip(1)) =~= spec_name_text(dv));
        }
        while i < n
            invariant
                1 <= i <= n,
                n == self.labels@.len(),
                dv == self@,
                acc@ + spec_text_rest(dv.skip(i as int)) == spec_name_text(dv),
            decreases n - i,
        {
            proof {
                assert(dv.skip(i as int)[0] == dv[i as int]);
                assert(dv.skip(i as int).drop_first() =~= dv.skip(i as int + 1));
                assert(self.labels@[i as int].deep_view() =~= self.labels@[i as int]@);
                assert(dv[i as int] == self.labels@[i as int]@);
            }
            let ghost pre = acc@;
            acc.push(46);
            push_bytes(&mut acc, &self.labels[i]);
            i = i + 1;
            proof {
                assert(acc@ =~= pre + seq![46u8] + dv[i as int - 1]);
                assert((pre + seq![46u8] + dv[i - 1]) + spec_text_rest(dv.skip(i as int)) =~= pre
                    + spec_text_rest(dv.skip(i - 1)));
            }
        }
        proof {
            assert(spec_text_rest(dv.skip(n as int)) =~= Seq::<u8>::empty());
            assert(acc@ + Seq::<u8>::empty() =~= acc@);
        }
        acc
    }

    /// Append the labels from index `i` on, each with its length byte.
    fn write_labels_from(&self, i: usize, out: &mut PacketWriter) -> (r: Result<(), DnsError>)
        requires
            old(out).wf(),
            wf_name(self@),
            i <= self@.len(),
        ensures
            final(out).wf(),
            final(out).cap() == old(out).cap(),
            match r {
                Ok(()) => {
                    &&& old(out).bytes().len() + spec_encode_labels(self@.skip(i as int)).len()
                        <= old(out).cap()
                    &&& final(out).bytes() == old(out).bytes() + spec_encode_labels(
                        self@.skip(i as int),
                    )
                },
                Err(e) => {
                    &&& e == DnsError::BufferOverflow
                    &&& old(out).bytes().len() + spec_encode_labels(self@.skip(i as int)).len()
                        > old(out).cap()
                },
            },
        decreases self@.len() - i,
    {
        let n = self.labels.len();
        if i == n {
            proof {
                assert(self@.skip(i as int) =~= Seq::<Seq<u8>>::empty());
                assert(out.bytes() =~= old(out).bytes() + spec_encode_labels(
                    self@.skip(i as int),
                ));
            }
            return Ok(());
        }
        proof {
            let s = self@;
            assert(s[i as int] == self.labels@[i as int].deep_view());
            assert(wf_label(s[i as int]));
            assert(s.skip(i as int)[0] == s[i as int]);
            assert(s.skip(i as int).drop_first() =~= s.skip(i as int + 1));
        }
        let label = &self.labels[i];
        proof {
            assert(label.deep_view() =~= label@);
        }
        match out.write_u8(label.len() as u8) {
            Ok(()) => (),
            Err(e) => {
                return Err(e);
            },
        }
        match out.write_bytes(label) {
            Ok(()) => (),
            Err(e) => {
                return Err(e);
            },
        }
        let res = self.write_labels_from(i + 1, out);
        proof {
            let s = self@;
            let hd = seq![s[i as int].len() as u8] + s[i as int];
            let tl = spec_encode_labels(s.skip(i as int + 1));
            assert(spec_encode_labels(s.skip(i as int)) == hd + tl);
            if res is Ok {
                assert((old(out).bytes() + hd) + tl =~= old(out).bytes() + (hd + tl));
            }
        }
        res
    }

    /// Append this name's full encoding: length-prefixed labels and the
    /// terminating zero byte. Compression pointers are never emitted.
    pub fn write(&self, out: &mut PacketWriter) -> (r: Result<(), DnsError>)
        requires
            old(out).wf(),
            wf_name(self@),
        ensures
            final(out).wf(),
            final(out).cap() == old(out).cap(),
            match r {
                Ok(()) => {
                    &&& old(out).bytes().len() + spec_encode_name(self@).len() <= old(out).cap()
                    &&& final(out).bytes() == old(out).bytes() + spec_encode_name(self@)
                },
                Err(e) => {
                    &&& e == DnsError::BufferOverflow
                    &&& old(out).bytes().len() + spec_encode_name(self@).len() > old(out).cap()
                },
            },
    {
        proof {
            assert(self@.skip(0) =~= self@);
        }
        match self.write_labels_from(0, out) {
            Ok(()) => (),
            Err(e) => {
                return Err(e);
            },
        }
        let res = out.write_u8(0);
        proof {
            if res is Ok {
                assert((old(out).bytes() + spec_encode_labels(self@)) + seq![0u8] =~= old(
                    out,
                ).bytes() + spec_encode_name(self@));
            }
        }
        match res {
            Ok(()) => Ok(()),
            Err(e) => Err(e),
        }
    }
}

} // verus!
