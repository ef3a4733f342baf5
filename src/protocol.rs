use vstd::prelude::*;

verus! {

/// The one decoding failure: the buffer is truncated, a name is unterminated,
/// a label runs past the end, or a compression pointer is met.
#[derive(Debug, Clone, Copy, PartialEq, Eq, Structural)]
pub struct ProtocolError;

/// The two bytes of `v`, high-order byte first.
pub open spec fn be16(v: u16) -> Seq<u8> {
    seq![(v >> 8u16) as u8, (v & 0xffu16) as u8]
}

/// The 16-bit value whose high-order byte is `hi` and low-order byte is `lo`.
pub open spec fn read_be16(hi: u8, lo: u8) -> u16 {
    ((hi as u16) << 8u16) | (lo as u16)
}

/// The four bytes of `v`, high-order byte first.
pub open spec fn be32(v: u32) -> Seq<u8> {
    seq![(v >> 24u32) as u8, ((v >> 16u32) & 0xffu32) as u8, ((v >> 8u32) & 0xffu32) as u8, (v & 0xffu32) as u8]
}

/// Header byte 2: qr, opcode, aa, tc, rd, most significant bit first.
pub open spec fn flags_hi(h: DNSHeader) -> u8 {
    (h.qr << 7u8) | (h.opcode << 3u8) | (h.aa << 2u8) | (h.tc << 1u8) | h.rd
}

/// Header byte 3: ra, z, rcode, most significant bit first.
pub open spec fn flags_lo(h: DNSHeader) -> u8 {
    (h.ra << 7u8) | (h.z << 4u8) | h.rcode
}

/// The wire form of a header.
pub open spec fn header_bytes(h: DNSHeader) -> Seq<u8> {
    be16(h.id) + seq![flags_hi(h), flags_lo(h)] + be16(h.qdcount) + be16(h.ancount) + be16(
        h.nscount,
    ) + be16(h.arcount)
}

/// The header that the first 12 bytes of `b` hold.
pub open spec fn header_of(b: Seq<u8>) -> DNSHeader
    recommends
        b.len() >= 12,
{
    DNSHeader {
        id: read_be16(b[0], b[1]),
        qr: b[2] >> 7u8,
        opcode: (b[2] >> 3u8) & 0xfu8,
        aa: (b[2] >> 2u8) & 1u8,
        tc: (b[2] >> 1u8) & 1u8,
        rd: b[2] & 1u8,
        ra: b[3] >> 7u8,
        z: (b[3] >> 4u8) & 0x7u8,
        rcode: b[3] & 0xfu8,
        qdcount: read_be16(b[4], b[5]),
        ancount: read_be16(b[6], b[7]),
        nscount: read_be16(b[8], b[9]),
        arcount: read_be16(b[10], b[11]),
    }
}

/// Decoding a header: it needs 12 bytes, and reads every field without range checks.
pub open spec fn decode_header(b: Seq<u8>) -> Result<DNSHeader, ProtocolError> {
    if b.len() < 12 {
        Err(ProtocolError)
    } else {
        Ok(header_of(b))
    }
}

proof fn lemma_be16_round_trip(v: u16)
    ensures
        read_be16(be16(v)[0], be16(v)[1]) == v,
{
    let hi = (v >> 8u16) as u8;
    let lo = (v & 0xffu16) as u8;
    assert(((hi as u16) << 8u16) | (lo as u16) == v) by (bit_vector)
        requires
            hi == (v >> 8u16) as u8,
            lo == (v & 0xffu16) as u8,
    ;
}

proof fn lemma_flags_round_trip(h: DNSHeader)
    requires
        h.wf(),
    ensures
        flags_hi(h) >> 7u8 == h.qr,
        (flags_hi(h) >> 3u8) & 0xfu8 == h.opcode,
        (flags_hi(h) >> 2u8) & 1u8 == h.aa,
        (flags_hi(h) >> 1u8) & 1u8 == h.tc,
        flags_hi(h) & 1u8 == h.rd,
        flags_lo(h) >> 7u8 == h.ra,
        (flags_lo(h) >> 4u8) & 0x7u8 == h.z,
        flags_lo(h) & 0xfu8 == h.rcode,
{
    let (qr, opcode, aa, tc, rd) = (h.qr, h.opcode, h.aa, h.tc, h.rd);
    let (ra, z, rcode) = (h.ra, h.z, h.rcode);
    let hi = flags_hi(h);
    let lo = flags_lo(h);
    assert(hi >> 7u8 == qr && (hi >> 3u8) & 0xfu8 == opcode && (hi >> 2u8) & 1u8 == aa && (hi
        >> 1u8) & 1u8 == tc && hi & 1u8 == rd) by (bit_vector)
        requires
            hi == (qr << 7u8) | (opcode << 3u8) | (aa << 2u8) | (tc << 1u8) | rd,
            qr < 2 && opcode < 16 && aa < 2 && tc < 2 && rd < 2,
    ;
    assert(lo >> 7u8 == ra && (lo >> 4u8) & 0x7u8 == z && lo & 0xfu8 == rcode) by (bit_vector)
        requires
            lo == (ra << 7u8) | (z << 4u8) | rcode,
            ra < 2 && z < 8 && rcode < 16,
    ;
}

/// Decoding the encoding of a well-formed header gives that header back.
pub proof fn lemma_header_round_trip(h: DNSHeader)
    requires
        h.wf(),
    ensures
        decode_header(header_bytes(h)) == Ok::<DNSHeader, ProtocolError>(h),
{
    let b = header_bytes(h);
    lemma_be16_round_trip(h.id);
    lemma_be16_round_trip(h.qdcount);
    lemma_be16_round_trip(h.ancount);
    lemma_be16_round_trip(h.nscount);
    lemma_be16_round_trip(h.arcount);
    lemma_flags_round_trip(h);
    assert(b.len() == 12);
    assert(b[0] == be16(h.id)[0] && b[1] == be16(h.id)[1]);
    assert(b[4] == be16(h.qdcount)[0] && b[5] == be16(h.qdcount)[1]);
    assert(b[6] == be16(h.ancount)[0] && b[7] == be16(h.ancount)[1]);
    assert(b[8] == be16(h.nscount)[0] && b[9] == be16(h.nscount)[1]);
    assert(b[10] == be16(h.arcount)[0] && b[11] == be16(h.arcount)[1]);
    assert(header_of(b) == h);
}

/// Every header that decoding yields is well formed.
proof fn lemma_decoded_header_wf(b: Seq<u8>)
    requires
        b.len() >= 12,
    ensures
        header_of(b).wf(),
{
    let (x, y) = (b[2], b[3]);
    assert(x >> 7u8 < 2 && (x >> 3u8) & 0xfu8 < 16 && (x >> 2u8) & 1u8 < 2 && (x >> 1u8) & 1u8
        < 2 && x & 1u8 < 2 && y >> 7u8 < 2 && (y >> 4u8) & 0x7u8 < 8 && y & 0xfu8 < 16)
        by (bit_vector);
}

/// A header with identifier `id` and flag `qr`, every other field zero.
pub open spec fn plain_header(id: u16, qr: u8) -> DNSHeader {
    DNSHeader {
        id,
        qr,
        opcode: 0,
        aa: 0,
        tc: 0,
        rd: 0,
        ra: 0,
        z: 0,
        rcode: 0,
        qdcount: 0,
        ancount: 0,
        nscount: 0,
        arcount: 0,
    }
}

/// The fixed 12-byte DNS message header.
#[derive(Debug, Clone, Copy, PartialEq, Eq, Structural)]
pub struct DNSHeader {
    /// Transaction identifier, echoed by the response.
    pub id: u16,
    /// Query (0) or response (1); one bit.
    pub qr: u8,
    /// Operation code; four bits.
    pub opcode: u8,
    /// Authoritative answer; one bit.
    pub aa: u8,
    /// Truncation; one bit.
    pub tc: u8,
    /// Recursion desired; one bit.
    pub rd: u8,
    /// Recursion available; one bit.
    pub ra: u8,
    /// Reserved; three bits, zero in practice.
    pub z: u8,
    /// Response code; four bits.
    pub rcode: u8,
    /// Number of questions.
    pub qdcount: u16,
    /// Number of answer records.
    pub ancount: u16,
    /// Number of authority records.
    pub nscount: u16,
    /// Number of additional records.
    pub arcount: u16,
}

impl DNSHeader {
    /// Every bit-field fits in its width on the wire.
    pub open spec fn wf(&self) -> bool {
        &&& self.qr < 2
        &&& self.opcode < 16
        &&& self.aa < 2
        &&& self.tc < 2
        &&& self.rd < 2
        &&& self.ra < 2
        &&& self.z < 8
        &&& self.rcode < 16
    }

    /// A header with the given identifier and query/response flag, every other field zero.
    pub fn new(id: u16, response: bool) -> (h: DNSHeader)
        ensures
            h == plain_header(id, if response { 1u8 } else { 0u8 }),
            h.wf(),
    {
        DNSHeader {
            id,
            qr: if response { 1 } else { 0 },
            opcode: 0,
            aa: 0,
            tc: 0,
            rd: 0,
            ra: 0,
            z: 0,
            rcode: 0,
            qdcount: 0,
            ancount: 0,
            nscount: 0,
            arcount: 0,
        }
    }

    /// The 12-byte wire form. Fields wider than their bit-field are not masked.
    pub fn to_bytes(&self) -> (r: [u8; 12])
        ensures
            r@ == header_bytes(*self),
    {
        let hi: u8 = (self.qr << 7u8) | (self.opcode << 3u8) | (self.aa << 2u8) | (self.tc << 1u8)
            | self.rd;
        let lo: u8 = (self.ra << 7u8) | (self.z << 4u8) | self.rcode;
        let r: [u8; 12] = [
            (self.id >> 8u16) as u8,
            (self.id & 0xffu16) as u8,
            hi,
            lo,
            (self.qdcount >> 8u16) as u8,
            (self.qdcount & 0xffu16) as u8,
            (self.ancount >> 8u16) as u8,
            (self.ancount & 0xffu16) as u8,
            (self.nscount >> 8u16) as u8,
            (self.nscount & 0xffu16) as u8,
            (self.arcount >> 8u16) as u8,
            (self.arcount & 0xffu16) as u8,
        ];
        assert(r@ =~= header_bytes(*self));
        r
    }

    /// Reads a header from the first 12 bytes; fails when there are fewer.
    pub fn from_bytes(bytes: &[u8]) -> (r: Result<DNSHeader, ProtocolError>)
        ensures
            r == decode_header(bytes@),
            r is Err <==> bytes@.len() < 12,
            r is Ok ==> r->Ok_0.wf(),
    {
        if bytes.len() < 12 {
            Err(ProtocolError)
        } else {
            proof {
                lemma_decoded_header_wf(bytes@);
            }
            Ok(DNSHeader {
                id: ((bytes[0] as u16) << 8u16) | (bytes[1] as u16),
                qr: bytes[2] >> 7u8,
                opcode: (bytes[2] >> 3u8) & 0xfu8,
                aa: (bytes[2] >> 2u8) & 1u8,
                tc: (bytes[2] >> 1u8) & 1u8,
                rd: bytes[2] & 1u8,
                ra: bytes[3] >> 7u8,
                z: (bytes[3] >> 4u8) & 0x7u8,
                rcode: bytes[3] & 0xfu8,
                qdcount: ((bytes[4] as u16) << 8u16) | (bytes[5] as u16),
                ancount: ((bytes[6] as u16) << 8u16) | (bytes[7] as u16),
                nscount: ((bytes[8] as u16) << 8u16) | (bytes[9] as u16),
                arcount: ((bytes[10] as u16) << 8u16) | (bytes[11] as u16),
            })
        }
    }
}

/// The labels of a name, each as its bytes.
pub open spec fn labels_view(ls: Seq<Vec<u8>>) -> Seq<Seq<u8>> {
    ls.map_values(|l: Vec<u8>| l@)
}

/// Every label is non-empty and its length fits in the one length byte.
pub open spec fn labels_fit(ls: Seq<Seq<u8>>) -> bool {
    forall|k: int| 0 <= k < ls.len() ==> 0 < #[trigger] ls[k].len() <= 255
}

/// Every label is non-empty and its length byte cannot be read as a compression pointer.
pub open spec fn labels_decodable(ls: Seq<Seq<u8>>) -> bool {
    forall|k: int| 0 <= k < ls.len() ==> 0 < #[trigger] ls[k].len() < 0xc0
}

/// The labels on the wire, each as a length byte and its bytes, without the terminator.
pub open spec fn label_run(ls: Seq<Seq<u8>>) -> Seq<u8>
    decreases ls.len(),
{
    if ls.len() == 0 {
        Seq::empty()
    } else {
        seq![ls[0].len() as u8] + ls[0] + label_run(ls.drop_first())
    }
}

/// The wire form of a name: its labels, then a zero byte.
pub open spec fn name_bytes(ls: Seq<Seq<u8>>) -> Seq<u8> {
    label_run(ls) + seq![0u8]
}

/// The wire form of a question: the name, then type and class.
pub open spec fn question_bytes(ls: Seq<Seq<u8>>, qtype: u16, qclass: u16) -> Seq<u8> {
    name_bytes(ls) + be16(qtype) + be16(qclass)
}

/// Reading a name that starts at `i`: its labels and the position after its terminator,
/// or `None` where a label runs past the end, the terminator is missing, or a
/// length byte has its two top bits set.
pub open spec fn parse_name(b: Seq<u8>, i: int) -> Option<(Seq<Seq<u8>>, int)>
    decreases b.len() - i,
{
    if i < 0 || i >= b.len() {
        None
    } else if b[i] == 0 {
        Some((Seq::empty(), i + 1))
    } else if b[i] >= 0xc0 {
        None
    } else if i + 1 + b[i] > b.len() {
        None
    } else {
        match parse_name(b, i + 1 + b[i]) {
            Some((ls, j)) => Some((seq![b.subrange(i + 1, i + 1 + b[i])] + ls, j)),
            None => None,
        }
    }
}

/// Reading a question that starts at `start`: its labels, type, class and the number of
/// bytes it takes.
pub open spec fn decode_question(b: Seq<u8>, start: int) -> Result<
    (Seq<Seq<u8>>, u16, u16, int),
    ProtocolError,
> {
    match parse_name(b, start) {
        None => Err(ProtocolError),
        Some((ls, j)) => if j + 4 > b.len() {
            Err(ProtocolError)
        } else {
            Ok((ls, read_be16(b[j], b[j + 1]), read_be16(b[j + 2], b[j + 3]), j + 4 - start))
        },
    }
}

/// `r` with `acc` put before the labels it read.
pub open spec fn prefix_with(acc: Seq<Seq<u8>>, r: Option<(Seq<Seq<u8>>, int)>) -> Option<
    (Seq<Seq<u8>>, int),
> {
    match r {
        Some((ls, j)) => Some((acc + ls, j)),
        None => None,
    }
}

proof fn lemma_label_run_push(ls: Seq<Seq<u8>>, x: Seq<u8>)
    ensures
        label_run(ls.push(x)) == label_run(ls) + seq![x.len() as u8] + x,
    decreases ls.len(),
{
    if ls.len() == 0 {
        assert(ls.push(x).drop_first() =~= Seq::<Seq<u8>>::empty());
        assert(label_run(ls.push(x).drop_first()) == Seq::<u8>::empty());
        assert(label_run(ls) == Seq::<u8>::empty());
        assert(ls.push(x)[0] == x);
        assert(label_run(ls.push(x)) =~= label_run(ls) + seq![x.len() as u8] + x);
    } else {
        assert(ls.push(x).drop_first() =~= ls.drop_first().push(x));
        lemma_label_run_push(ls.drop_first(), x);
        assert(label_run(ls.push(x)) =~= label_run(ls) + seq![x.len() as u8] + x);
    }
}

proof fn lemma_parse_label_run(b: Seq<u8>, i: int, ls: Seq<Seq<u8>>)
    requires
        labels_decodable(ls),
        0 <= i,
        i + label_run(ls).len() <= b.len(),
        b.subrange(i, i + label_run(ls).len()) == label_run(ls),
    ensures
        parse_name(b, i) == prefix_with(ls, parse_name(b, i + label_run(ls).len())),
    decreases ls.len(),
{
    if ls.len() == 0 {
        match parse_name(b, i) {
            Some((l2, j)) => {
                assert(ls + l2 =~= l2);
            },
            None => {},
        }
    } else {
        let e = label_run(ls);
        let l = ls[0];
        let rest = ls.drop_first();
        let er = label_run(rest);
        let ln: int = l.len() as int;
        let i2: int = i + 1 + ln;
        assert(e =~= seq![l.len() as u8] + l + er);
        assert(b[i] == e[0]);
        assert(b[i] == l.len());
        assert(b.subrange(i + 1, i2) =~= e.subrange(1, 1 + ln));
        assert(e.subrange(1, 1 + ln) =~= l);
        assert(b.subrange(i2, i2 + er.len()) =~= e.subrange(1 + ln, e.len() as int));
        assert(e.subrange(1 + ln, e.len() as int) =~= er);
        assert forall|k: int| 0 <= k < rest.len() implies 0 < #[trigger] rest[k].len() < 0xc0 by {
            assert(rest[k] == ls[k + 1]);
        }
        lemma_parse_label_run(b, i2, rest);
        match parse_name(b, i2 + er.len()) {
            Some((l2, j)) => {
                assert(seq![l] + (rest + l2) =~= ls + l2);
            },
            None => {},
        }
    }
}

proof fn lemma_parse_name_encoded(b: Seq<u8>, i: int, ls: Seq<Seq<u8>>)
    requires
        labels_decodable(ls),
        0 <= i,
        i + name_bytes(ls).len() <= b.len(),
        b.subrange(i, i + name_bytes(ls).len()) == name_bytes(ls),
    ensures
        parse_name(b, i) == Some((ls, i + name_bytes(ls).len())),
{
    let r = label_run(ls);
    let k: int = i + r.len();
    assert(b.subrange(i, k) =~= name_bytes(ls).subrange(0, r.len() as int));
    assert(name_bytes(ls).subrange(0, r.len() as int) =~= r);
    assert(b[k] == name_bytes(ls)[r.len() as int]);
    lemma_parse_label_run(b, i, ls);
    assert(ls + Seq::<Seq<u8>>::empty() =~= ls);
}

proof fn lemma_parsed_labels_decodable(b: Seq<u8>, i: int)
    ensures
        parse_name(b, i) matches Some((ls, _)) ==> labels_decodable(ls),
    decreases b.len() - i,
{
    if 0 <= i < b.len() && b[i] != 0 && b[i] < 0xc0 && i + 1 + b[i] <= b.len() {
        let i2: int = i + 1 + b[i];
        lemma_parsed_labels_decodable(b, i2);
        match parse_name(b, i2) {
            Some((ls, j)) => {
                let sub = b.subrange(i + 1, i2);
                let full = seq![sub] + ls;
                assert forall|k: int| 0 <= k < full.len() implies 0 < #[trigger] full[k].len()
                    < 0xc0 by {
                    if k > 0 {
                        assert(full[k] == ls[k - 1]);
                    }
                }
            },
            None => {},
        }
    }
}

/// A question whose last label declares more bytes than remain in the buffer is
/// rejected, whatever well-formed labels come before it.
pub proof fn lemma_overlong_final_label_rejected(ls: Seq<Seq<u8>>, n: u8, rest: Seq<u8>)
    requires
        labels_decodable(ls),
        n != 0,
        n > rest.len(),
    ensures
        decode_question(label_run(ls) + seq![n] + rest, 0) is Err,
{
    let b = label_run(ls) + seq![n] + rest;
    let r = label_run(ls);
    assert(b.subrange(0, r.len() as int) =~= r);
    lemma_parse_label_run(b, 0, ls);
    assert(b[r.len() as int] == n);
    assert(parse_name(b, r.len() as int) is None);
}

/// Decoding the encoding of a question whose labels are non-empty and shorter than
/// 0xc0 bytes gives back its labels, type and class, and the whole length as consumed.
pub proof fn lemma_question_round_trip(ls: Seq<Seq<u8>>, qtype: u16, qclass: u16)
    requires
        labels_decodable(ls),
    ensures
        decode_question(question_bytes(ls, qtype, qclass), 0) == Ok::<
            (Seq<Seq<u8>>, u16, u16, int),
            ProtocolError,
        >((ls, qtype, qclass, question_bytes(ls, qtype, qclass).len() as int)),
{
    let b = question_bytes(ls, qtype, qclass);
    let n: int = name_bytes(ls).len() as int;
    assert(b.subrange(0, n) =~= name_bytes(ls));
    lemma_parse_name_encoded(b, 0, ls);
    lemma_be16_round_trip(qtype);
    lemma_be16_round_trip(qclass);
    assert(b[n] == be16(qtype)[0] && b[n + 1] == be16(qtype)[1]);
    assert(b[n + 2] == be16(qclass)[0] && b[n + 3] == be16(qclass)[1]);
}

/// `src[from..to]` as a new vector.
fn copy_range(src: &[u8], from: usize, to: usize) -> (r: Vec<u8>)
    requires
        from <= to <= src@.len(),
    ensures
        r@ == src@.subrange(from as int, to as int),
{
    let mut r: Vec<u8> = Vec::new();
    let mut k: usize = from;
    while k < to
        invariant
            from <= k <= to <= src@.len(),
            r@ == src@.subrange(from as int, k as int),
        decreases to - k,
    {
        r.push(src[k]);
        k = k + 1;
        assert(r@ =~= src@.subrange(from as int, k as int));
    }
    r
}

/// Appends the bytes of `src` to `out`.
fn append_bytes(out: &mut Vec<u8>, src: &[u8])
    ensures
        final(out)@ == old(out)@ + src@,
{
    let mut k: usize = 0;
    while k < src.len()
        invariant
            k <= src@.len(),
            out@ == old(out)@ + src@.subrange(0, k as int),
        decreases src.len() - k,
    {
        out.push(src[k]);
        k = k + 1;
        assert(out@ =~= old(out)@ + src@.subrange(0, k as int));
    }
    assert(src@.subrange(0, src@.len() as int) =~= src@);
}

/// Appends the wire form of the name `ls` to `out`.
fn append_name(out: &mut Vec<u8>, ls: &Vec<Vec<u8>>)
    requires
        labels_fit(labels_view(ls@)),
    ensures
        final(out)@ == old(out)@ + name_bytes(labels_view(ls@)),
{
    let ghost lv = labels_view(ls@);
    let mut k: usize = 0;
    while k < ls.len()
        invariant
            k <= ls@.len(),
            lv == labels_view(ls@),
            labels_fit(lv),
            out@ == old(out)@ + label_run(lv.take(k as int)),
        decreases ls.len() - k,
    {
        let label: &Vec<u8> = &ls[k];
        assert(lv[k as int] == label@);
        assert(0 < lv[k as int].len() <= 255);
        out.push(label.len() as u8);
        append_bytes(out, label.as_slice());
        proof {
            assert(lv.take(k as int).push(label@) =~= lv.take(k + 1));
            lemma_label_run_push(lv.take(k as int), label@);
        }
        k = k + 1;
        assert(out@ =~= old(out)@ + label_run(lv.take(k as int)));
    }
    assert(lv.take(k as int) =~= lv);
    out.push(0u8);
    assert(out@ =~= old(out)@ + name_bytes(lv));
}

/// Appends the two bytes of `v`, high-order byte first.
fn append_be16(out: &mut Vec<u8>, v: u16)
    ensures
        final(out)@ == old(out)@ + be16(v),
{
    out.push((v >> 8u16) as u8);
    out.push((v & 0xffu16) as u8);
    assert(out@ =~= old(out)@ + be16(v));
}

/// One question: a name, a query type and a query class.
#[derive(Debug, PartialEq, Eq)]
pub struct DNSQuestion {
    /// The labels of the name, each as its raw bytes, without length bytes.
    pub domain_name: Vec<Vec<u8>>,
    /// The query type.
    pub query_type: u16,
    /// The query class.
    pub query_class: u16,
}

impl DNSQuestion {
    /// The labels of the name as byte sequences.
    pub open spec fn name_view(&self) -> Seq<Seq<u8>> {
        labels_view(self.domain_name@)
    }

    /// Every label is non-empty and at most 255 bytes long.
    pub open spec fn wf(&self) -> bool {
        labels_fit(self.name_view())
    }

    /// Whether every label is non-empty and at most 255 bytes long, so that it can be encoded.
    pub fn is_valid(&self) -> (r: bool)
        ensures
            r == self.wf(),
    {
        let mut k: usize = 0;
        while k < self.domain_name.len()
            invariant
                k <= self.domain_name@.len(),
                forall|j: int| 0 <= j < k ==> 0 < #[trigger] self.name_view()[j].len() <= 255,
            decreases self.domain_name.len() - k,
        {
            let n: usize = self.domain_name[k].len();
            assert(self.name_view()[k as int] == self.domain_name@[k as int]@);
            if n == 0 || n > 255 {
                return false;
            }
            k = k + 1;
        }
        true
    }

    /// The wire form: the labels, a zero byte, then type and class big-endian.
    pub fn to_bytes(&self) -> (r: Vec<u8>)
        requires
            self.wf(),
        ensures
            r@ == question_bytes(self.name_view(), self.query_type, self.query_class),
    {
        let mut bytes: Vec<u8> = Vec::new();
        append_name(&mut bytes, &self.domain_name);
        append_be16(&mut bytes, self.query_type);
        append_be16(&mut bytes, self.query_class);
        assert(bytes@ =~= question_bytes(self.name_view(), self.query_type, self.query_class));
        bytes
    }

    /// Reads a question that starts at `start`, with the number of bytes it takes.
    pub fn from_bytes(bytes: &[u8], start: usize) -> (r: Result<(DNSQuestion, usize), ProtocolError>)
        ensures
            match r {
                Ok((q, n)) => decode_question(bytes@, start as int) == Ok::<
                    (Seq<Seq<u8>>, u16, u16, int),
                    ProtocolError,
                >((q.name_view(), q.query_type, q.query_class, n as int)),
                Err(_) => decode_question(bytes@, start as int) is Err,
            },
            r matches Ok((q, _)) ==> labels_decodable(q.name_view()) && q.wf(),
    {
        proof {
            lemma_parsed_labels_decodable(bytes@, start as int);
        }
        let ghost b = bytes@;
        let mut labels: Vec<Vec<u8>> = Vec::new();
        let mut i: usize = start;
        if i > bytes.len() {
            return Err(ProtocolError);
        }
        while i < bytes.len() && bytes[i] != 0
            invariant
                start <= i <= b.len(),
                b == bytes@,
                parse_name(b, start as int) == prefix_with(labels_view(labels@), parse_name(b, i as int)),
            decreases b.len() - i,
        {
            let len: usize = bytes[i] as usize;
            if bytes[i] >= 0xc0 || len > bytes.len() - i - 1 {
                return Err(ProtocolError);
            }
            let label: Vec<u8> = copy_range(bytes, i + 1, i + 1 + len);
            let ghost acc = labels_view(labels@);
            let ghost next = parse_name(b, (i + 1 + len) as int);
            labels.push(label);
            proof {
                assert(labels_view(labels@) =~= acc.push(label@));
                match next {
                    Some((ls, j)) => {
                        assert(acc + (seq![label@] + ls) =~= acc.push(label@) + ls);
                    },
                    None => {},
                }
            }
            i = i + 1 + len;
        }
        if i >= bytes.len() {
            return Err(ProtocolError);
        }
        assert(labels_view(labels@) + Seq::<Seq<u8>>::empty() =~= labels_view(labels@));
        let j: usize = i + 1;
        if bytes.len() - j < 4 {
            return Err(ProtocolError);
        }
        let query_type: u16 = ((bytes[j] as u16) << 8u16) | (bytes[j + 1] as u16);
        let query_class: u16 = ((bytes[j + 2] as u16) << 8u16) | (bytes[j + 3] as u16);
        Ok((DNSQuestion { domain_name: labels, query_type, query_class }, j + 4 - start))
    }
}

/// The wire form of an address record: name, type, class, TTL, data length, data.
/// The data length is that of `rdata` itself.
pub open spec fn answer_bytes(
    ls: Seq<Seq<u8>>,
    qtype: u16,
    qclass: u16,
    ttl: u32,
    rdata: Seq<u8>,
) -> Seq<u8> {
    question_bytes(ls, qtype, qclass) + be32(ttl) + be16(rdata.len() as u16) + rdata
}

/// Appends the four bytes of `v`, high-order byte first.
fn append_be32(out: &mut Vec<u8>, v: u32)
    ensures
        final(out)@ == old(out)@ + be32(v),
{
    out.push((v >> 24u32) as u8);
    out.push(((v >> 16u32) & 0xffu32) as u8);
    out.push(((v >> 8u32) & 0xffu32) as u8);
    out.push((v & 0xffu32) as u8);
    assert(out@ =~= old(out)@ + be32(v));
}

/// A copy of the labels of a name.
fn copy_labels(ls: &Vec<Vec<u8>>) -> (r: Vec<Vec<u8>>)
    ensures
        labels_view(r@) == labels_view(ls@),
{
    let mut r: Vec<Vec<u8>> = Vec::new();
    let mut k: usize = 0;
    while k < ls.len()
        invariant
            k <= ls@.len(),
            labels_view(r@) == labels_view(ls@).take(k as int),
        decreases ls.len() - k,
    {
        let label: Vec<u8> = copy_range(ls[k].as_slice(), 0, ls[k].len());
        assert(label@ =~= ls@[k as int]@);
        let ghost prev = r@;
        r.push(label);
        assert(labels_view(r@) =~= labels_view(prev).push(ls@[k as int]@));
        assert(labels_view(ls@).take(k + 1) =~= labels_view(ls@).take(k as int).push(
            ls@[k as int]@,
        ));
        k = k + 1;
        assert(labels_view(r@) =~= labels_view(ls@).take(k as int));
    }
    assert(labels_view(ls@).take(k as int) =~= labels_view(ls@));
    r
}

/// The time to live, in seconds, of the answer that every response carries.
pub const ANSWER_TTL: u32 = 60;

/// A resource record holding an IPv4 address.
#[derive(Debug, PartialEq, Eq)]
pub struct DNSAnswer {
    /// The labels of the name, each as its raw bytes, without length bytes.
    pub domain_name: Vec<Vec<u8>>,
    /// The record type.
    pub query_type: u16,
    /// The record class.
    pub query_class: u16,
    /// Time to live in seconds.
    pub ttl: u32,
    /// The declared data length; encoding writes the length of `rdata` in its place.
    pub rdlength: u16,
    /// The IPv4 address, high-order octet first.
    pub rdata: [u8; 4],
}

impl DNSAnswer {
    /// The labels of the name as byte sequences.
    pub open spec fn name_view(&self) -> Seq<Seq<u8>> {
        labels_view(self.domain_name@)
    }

    /// Every label is non-empty and at most 255 bytes long.
    pub open spec fn wf(&self) -> bool {
        labels_fit(self.name_view())
    }

    /// The wire form of the record, with the data length taken from the data.
    pub open spec fn spec_bytes(&self) -> Seq<u8> {
        answer_bytes(self.name_view(), self.query_type, self.query_class, self.ttl, self.rdata@)
    }

    /// The wire form: the name, type, class, TTL, the length of the data, then the data.
    /// The data-length field always holds the number of data bytes that follow it.
    pub fn to_bytes(&self) -> (r: Vec<u8>)
        requires
            self.wf(),
        ensures
            r@ == self.spec_bytes(),
            r@.len() >= 6,
            r@.subrange(r@.len() - 6, r@.len() - 4) == be16(self.rdata@.len() as u16),
            r@.subrange(r@.len() - 4, r@.len() as int) == self.rdata@,
    {
        let mut bytes: Vec<u8> = Vec::new();
        append_name(&mut bytes, &self.domain_name);
        append_be16(&mut bytes, self.query_type);
        append_be16(&mut bytes, self.query_class);
        append_be32(&mut bytes, self.ttl);
        append_be16(&mut bytes, self.rdata.len() as u16);
        append_bytes(&mut bytes, self.rdata.as_slice());
        let ghost n = bytes@.len();
        assert(bytes@ =~= self.spec_bytes());
        assert(bytes@.subrange(n - 6, n - 4) =~= be16(self.rdata@.len() as u16));
        assert(bytes@.subrange(n - 4, n as int) =~= self.rdata@);
        bytes
    }
}

/// A query: a header and one question.
#[derive(Debug, PartialEq, Eq)]
pub struct DNSQuery {
    /// The header.
    pub header: DNSHeader,
    /// The one question.
    pub question_section: DNSQuestion,
}

impl DNSQuery {
    /// A query with the given identifier: a header that is a query with every other field
    /// zero, and the question.
    pub fn new(id: u16, question: DNSQuestion) -> (q: DNSQuery)
        ensures
            q.header == plain_header(id, 0),
            q.question_section == question,
    {
        DNSQuery { header: DNSHeader::new(id, false), question_section: question }
    }

    /// Reads the header, then one question that starts right after it.
    pub fn from_bytes(bytes: &[u8]) -> (r: Result<DNSQuery, ProtocolError>)
        ensures
            match r {
                Ok(q) => {
                    &&& decode_header(bytes@) == Ok::<DNSHeader, ProtocolError>(q.header)
                    &&& decode_question(bytes@, 12) is Ok
                    &&& decode_question(bytes@, 12)->Ok_0.0 == q.question_section.name_view()
                    &&& decode_question(bytes@, 12)->Ok_0.1 == q.question_section.query_type
                    &&& decode_question(bytes@, 12)->Ok_0.2 == q.question_section.query_class
                    &&& q.question_section.wf()
                },
                Err(_) => decode_header(bytes@) is Err || decode_question(bytes@, 12) is Err,
            },
    {
        let header = match DNSHeader::from_bytes(bytes) {
            Ok(h) => h,
            Err(e) => {
                return Err(e);
            },
        };
        match DNSQuestion::from_bytes(bytes, 12) {
            Ok((question, _)) => Ok(DNSQuery { header, question_section: question }),
            Err(e) => Err(e),
        }
    }

    /// The wire form: the header, then the question.
    pub fn to_bytes(&self) -> (r: Vec<u8>)
        requires
            self.question_section.wf(),
        ensures
            r@ == header_bytes(self.header) + question_bytes(
                self.question_section.name_view(),
                self.question_section.query_type,
                self.question_section.query_class,
            ),
    {
        let h: [u8; 12] = self.header.to_bytes();
        let mut bytes: Vec<u8> = Vec::new();
        append_bytes(&mut bytes, h.as_slice());
        let q: Vec<u8> = self.question_section.to_bytes();
        append_bytes(&mut bytes, q.as_slice());
        bytes
    }
}

/// A response: a header, the question it answers, and one address record.
#[derive(Debug, PartialEq, Eq)]
pub struct DNSResponse {
    /// The header.
    pub header: DNSHeader,
    /// The question, as the query asked it.
    pub question_section: DNSQuestion,
    /// The one answer.
    pub answer_section: DNSAnswer,
}

impl DNSResponse {
    /// Both names can be encoded.
    pub open spec fn wf(&self) -> bool {
        self.question_section.wf() && self.answer_section.wf()
    }

    /// The wire form of the response: header, question, answer.
    pub open spec fn spec_bytes(&self) -> Seq<u8> {
        header_bytes(self.header) + question_bytes(
            self.question_section.name_view(),
            self.question_section.query_type,
            self.question_section.query_class,
        ) + self.answer_section.spec_bytes()
    }

    /// The response to `query`: its identifier with the response flag set, one question
    /// and one answer counted, every other header field zero; its question unchanged; and
    /// an address record for the same name, type and class, with a TTL of 60 seconds and
    /// the address 8.8.8.8.
    pub fn for_request(query: DNSQuery) -> (r: DNSResponse)
        ensures
            r.header == (DNSHeader { qdcount: 1, ancount: 1, ..plain_header(query.header.id, 1) }),
            r.question_section == query.question_section,
            r.answer_section.name_view() == query.question_section.name_view(),
            r.answer_section.query_type == query.question_section.query_type,
            r.answer_section.query_class == query.question_section.query_class,
            r.answer_section.ttl == ANSWER_TTL,
            r.answer_section.rdlength == 4,
            r.answer_section.rdata@ == seq![8u8, 8u8, 8u8, 8u8],
            query.question_section.wf() ==> r.wf(),
    {
        let mut header = DNSHeader::new(query.header.id, true);
        header.qdcount = 1;
        header.ancount = 1;
        let answer = DNSAnswer {
            domain_name: copy_labels(&query.question_section.domain_name),
            query_type: query.question_section.query_type,
            query_class: query.question_section.query_class,
            ttl: ANSWER_TTL,
            rdlength: 4,
            rdata: [8u8, 8u8, 8u8, 8u8],
        };
        assert(answer.rdata@ =~= seq![8u8, 8u8, 8u8, 8u8]);
        DNSResponse { header, question_section: query.question_section, answer_section: answer }
    }

    /// The wire form: the header, the question, then the answer.
    pub fn to_bytes(&self) -> (r: Vec<u8>)
        requires
            self.wf(),
        ensures
            r@ == self.spec_bytes(),
    {
        let h: [u8; 12] = self.header.to_bytes();
        let mut bytes: Vec<u8> = Vec::new();
        append_bytes(&mut bytes, h.as_slice());
        let q: Vec<u8> = self.question_section.to_bytes();
        append_bytes(&mut bytes, q.as_slice());
        let a: Vec<u8> = self.answer_section.to_bytes();
        append_bytes(&mut bytes, a.as_slice());
        bytes
    }
}

/// Two responses with the same header, the same question and the same answer, as values,
/// encode to the same bytes: encoding is a function of the response alone.
pub proof fn lemma_response_encoding_deterministic(a: DNSResponse, b: DNSResponse)
    requires
        a.header == b.header,
        a.question_section.name_view() == b.question_section.name_view(),
        a.question_section.query_type == b.question_section.query_type,
        a.question_section.query_class == b.question_section.query_class,
        a.answer_section.name_view() == b.answer_section.name_view(),
        a.answer_section.query_type == b.answer_section.query_type,
        a.answer_section.query_class == b.answer_section.query_class,
        a.answer_section.ttl == b.answer_section.ttl,
        a.answer_section.rdata@ == b.answer_section.rdata@,
    ensures
        a.spec_bytes() == b.spec_bytes(),
{
}

} // verus!
