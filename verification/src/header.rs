use vstd::prelude::*;

verus! {

/// Size of the fixed DNS message header in bytes.
pub const HEADER_SIZE: usize = 12;

/// The fixed 12-byte DNS message header.
///
/// `id` is an opaque transaction tag echoed between request and response.
/// `qr`, `aa`, `tc`, `rd`, `ra` are single-bit flags; `opcode` and `rcode`
/// are 4-bit fields; `z` is the 3-bit reserved field; the four counts say
/// how many records of each section follow the header on the wire.
#[derive(Clone, Copy, Debug, PartialEq, Eq, Structural)]
pub struct Header {
    pub id: u16,
    pub qr: u8,
    pub opcode: u8,
    pub aa: u8,
    pub tc: u8,
    pub rd: u8,
    pub ra: u8,
    pub z: u8,
    pub rcode: u8,
    pub qdcount: u16,
    pub ancount: u16,
    pub nscount: u16,
    pub arcount: u16,
}

impl Header {
    /// Every bit field fits the width the wire layout gives it.
    pub open spec fn wf(self) -> bool {
        &&& self.qr <= 1
        &&& self.opcode <= 15
        &&& self.aa <= 1
        &&& self.tc <= 1
        &&& self.rd <= 1
        &&& self.ra <= 1
        &&& self.z <= 7
        &&& self.rcode <= 15
    }
}

/// The header a 12-byte prefix of `b` denotes: big-endian `id`, the two
/// packed flag bytes, then four big-endian 16-bit counts.
pub open spec fn spec_parse_header(b: Seq<u8>) -> Header
    recommends
        b.len() >= 12,
{
    Header {
        id: ((b[0] as int) * 256 + b[1] as int) as u16,
        qr: b[2] >> 7,
        opcode: (b[2] >> 3) & 0x0f,
        aa: (b[2] >> 2) & 0x01,
        tc: (b[2] >> 1) & 0x01,
        rd: b[2] & 0x01,
        ra: b[3] >> 7,
        z: (b[3] >> 4) & 0x07,
        rcode: b[3] & 0x0f,
        qdcount: ((b[4] as int) * 256 + b[5] as int) as u16,
        ancount: ((b[6] as int) * 256 + b[7] as int) as u16,
        nscount: ((b[8] as int) * 256 + b[9] as int) as u16,
        arcount: ((b[10] as int) * 256 + b[11] as int) as u16,
    }
}

/// The 12 wire bytes of a well-formed header: the exact inverse layout of
/// `spec_parse_header`.
pub open spec fn spec_header_bytes(h: Header) -> Seq<u8>
    recommends
        h.wf(),
{
    seq![
        (h.id / 256) as u8,
        h.id as u8,
        (h.qr << 7) | (h.opcode << 3) | (h.aa << 2) | (h.tc << 1) | h.rd,
        (h.ra << 7) | (h.z << 4) | h.rcode,
        (h.qdcount / 256) as u8,
        h.qdcount as u8,
        (h.ancount / 256) as u8,
        h.ancount as u8,
        (h.nscount / 256) as u8,
        h.nscount as u8,
        (h.arcount / 256) as u8,
        h.arcount as u8,
    ]
}

impl Header {
    /// Decode the header from the front of a message buffer.  Fewer than
    /// 12 bytes is a truncated header, the only way this can fail.
    pub fn from_bytes(bytes: &[u8]) -> (r: Result<Header, crate::DecodeError>)
        ensures
            bytes@.len() >= 12 ==> r == Ok::<Header, crate::DecodeError>(
                spec_parse_header(bytes@),
            ),
            bytes@.len() < 12 ==> r == Err::<Header, crate::DecodeError>(
                crate::DecodeError::TruncatedInput,
            ),
            r is Ok ==> r->Ok_0.wf(),
    {
        if bytes.len() < 12 {
            return Err(crate::DecodeError::TruncatedInput);
        }
        let h = Header {
            id: (bytes[0] as u16) * 256 + bytes[1] as u16,
            qr: bytes[2] >> 7,
            opcode: (bytes[2] >> 3) & 0x0f,
            aa: (bytes[2] >> 2) & 0x01,
            tc: (bytes[2] >> 1) & 0x01,
            rd: bytes[2] & 0x01,
            ra: bytes[3] >> 7,
            z: (bytes[3] >> 4) & 0x07,
            rcode: bytes[3] & 0x0f,
            qdcount: (bytes[4] as u16) * 256 + bytes[5] as u16,
            ancount: (bytes[6] as u16) * 256 + bytes[7] as u16,
            nscount: (bytes[8] as u16) * 256 + bytes[9] as u16,
            arcount: (bytes[10] as u16) * 256 + bytes[11] as u16,
        };
        proof {
            lemma_parsed_header_wf(bytes@);
        }
        Ok(h)
    }

    /// Encode the header as its 12 wire bytes.
    pub fn to_bytes(&self) -> (r: Vec<u8>)
        requires
            self.wf(),
        ensures
            r@ == spec_header_bytes(*self),
            r@.len() == 12,
    {
        let mut r: Vec<u8> = Vec::new();
        r.push((self.id / 256) as u8);
        r.push(self.id as u8);
        r.push((self.qr << 7) | (self.opcode << 3) | (self.aa << 2) | (self.tc << 1) | self.rd);
        r.push((self.ra << 7) | (self.z << 4) | self.rcode);
        r.push((self.qdcount / 256) as u8);
        r.push(self.qdcount as u8);
        r.push((self.ancount / 256) as u8);
        r.push(self.ancount as u8);
        r.push((self.nscount / 256) as u8);
        r.push(self.nscount as u8);
        r.push((self.arcount / 256) as u8);
        r.push(self.arcount as u8);
        proof {
            assert(r@ =~= spec_header_bytes(*self));
        }
        r
    }
}

impl Default for Header {
    /// The all-zero header: a standard query with no records.
    fn default() -> (r: Header)
        ensures
            r == (Header {
                id: 0,
                qr: 0,
                opcode: 0,
                aa: 0,
                tc: 0,
                rd: 0,
                ra: 0,
                z: 0,
                rcode: 0,
                qdcount: 0,
                ancount: 0,
                nscount: 0,
                arcount: 0,
            }),
            r.wf(),
    {
        Header {
            id: 0,
            qr: 0,
            opcode: 0,
            aa: 0,
            tc: 0,
            rd: 0,
            ra: 0,
            z: 0,
            rcode: 0,
            qdcount: 0,
            ancount: 0,
            nscount: 0,
            arcount: 0,
        }
    }
}

/// Whatever bytes arrive, the decoded bit fields fit their wire widths.
proof fn lemma_parsed_header_wf(b: Seq<u8>)
    requires
        b.len() >= 12,
    ensures
        spec_parse_header(b).wf(),
{
    let b2 = b[2];
    let b3 = b[3];
    assert(b2 >> 7 <= 1 && (b2 >> 3) & 0x0f <= 15 && (b2 >> 2) & 0x01 <= 1 && (b2 >> 1) & 0x01
        <= 1 && b2 & 0x01 <= 1) by (bit_vector);
    assert(b3 >> 7 <= 1 && (b3 >> 4) & 0x07 <= 7 && b3 & 0x0f <= 15) by (bit_vector);
}

/// Header round trip: decoding the encoding of any well-formed header
/// gives the header back.
pub proof fn lemma_header_round_trip(h: Header)
    requires
        h.wf(),
    ensures
        spec_parse_header(spec_header_bytes(h)) == h,
{
    let b = spec_header_bytes(h);
    lemma_be16_round_trip(h.id);
    lemma_be16_round_trip(h.qdcount);
    lemma_be16_round_trip(h.ancount);
    lemma_be16_round_trip(h.nscount);
    lemma_be16_round_trip(h.arcount);
    let qr = h.qr;
    let opcode = h.opcode;
    let aa = h.aa;
    let tc = h.tc;
    let rd = h.rd;
    assert(qr <= 1 && opcode <= 15 && aa <= 1 && tc <= 1 && rd <= 1 ==> ((qr << 7) | (opcode
        << 3) | (aa << 2) | (tc << 1) | rd) >> 7 == qr && (((qr << 7) | (opcode << 3) | (aa << 2)
        | (tc << 1) | rd) >> 3) & 0x0f == opcode && (((qr << 7) | (opcode << 3) | (aa << 2) | (tc
        << 1) | rd) >> 2) & 0x01 == aa && (((qr << 7) | (opcode << 3) | (aa << 2) | (tc << 1)
        | rd) >> 1) & 0x01 == tc && ((qr << 7) | (opcode << 3) | (aa << 2) | (tc << 1) | rd)
        & 0x01 == rd) by (bit_vector);
    let ra = h.ra;
    let z = h.z;
    let rcode = h.rcode;
    assert(ra <= 1 && z <= 7 && rcode <= 15 ==> ((ra << 7) | (z << 4) | rcode) >> 7 == ra && (((ra
        << 7) | (z << 4) | rcode) >> 4) & 0x07 == z && ((ra << 7) | (z << 4) | rcode) & 0x0f
        == rcode) by (bit_vector);
}

/// Splitting a 16-bit value into its big-endian bytes and reading them
/// back gives the value.
proof fn lemma_be16_round_trip(x: u16)
    ensures
        ((x / 256) as u8 as int) * 256 + (x as u8 as int) == x as int,
{
    assert((x as u8) as u16 == x % 256) by (bit_vector);
    assert((x / 256) as int == x as int / 256);
    assert((x as int / 256) * 256 + x as int % 256 == x as int) by {
        vstd::arithmetic::div_mod::lemma_fundamental_div_mod(x as int, 256);
    }
}

} // verus!
