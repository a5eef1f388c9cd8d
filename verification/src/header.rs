//! The fixed twelve-byte header that opens every DNS message.

use crate::error::Error;
use crate::wire::{be16, be16_bytes, lemma_be16_bytes_of_be16};
use vstd::prelude::*;
use vstd::std_specs::convert::{FromSpecImpl, TryFromSpecImpl};

verus! {

/// Number of bytes a header occupies on the wire.
pub const HEADER_LEN: usize = 12;

/// The header of a DNS message.
///
/// `op_code` and `rcode` are four bits wide on the wire and `z` is three bits
/// wide; encoding keeps only those low bits of each.
#[derive(Debug, Clone, Copy, PartialEq, Eq, Structural)]
pub struct DnsMessageHeader {
    pub id: u16,
    pub qr: bool,
    pub op_code: u8,
    pub aa: bool,
    pub tc: bool,
    pub rd: bool,
    pub ra: bool,
    pub z: u8,
    pub rcode: u8,
    pub qd_count: u16,
    pub an_count: u16,
    pub ns_count: u16,
    pub ar_count: u16,
}

/// A flag as the value of its single bit.
pub open spec fn bit(flag: bool) -> int {
    if flag {
        1
    } else {
        0
    }
}

impl DnsMessageHeader {
    /// Every bit-field holds a value that its width on the wire can carry.
    pub open spec fn fits_wire(self) -> bool {
        self.op_code < 16 && self.z < 8 && self.rcode < 16
    }

    /// The first flags byte: `qr`, four bits of `op_code`, `aa`, `tc`, `rd`,
    /// from the most significant bit down.
    pub open spec fn flags_high(self) -> u8 {
        (bit(self.qr) * 128 + (self.op_code % 16) * 8 + bit(self.aa) * 4 + bit(self.tc) * 2 + bit(
            self.rd,
        )) as u8
    }

    /// The second flags byte: `ra`, three bits of `z`, four bits of `rcode`,
    /// from the most significant bit down.
    pub open spec fn flags_low(self) -> u8 {
        (bit(self.ra) * 128 + (self.z % 8) * 16 + self.rcode % 16) as u8
    }

    /// The twelve bytes that encode this header.
    pub open spec fn wire(self) -> Seq<u8> {
        be16_bytes(self.id) + seq![self.flags_high(), self.flags_low()] + be16_bytes(self.qd_count)
            + be16_bytes(self.an_count) + be16_bytes(self.ns_count) + be16_bytes(self.ar_count)
    }

    /// The encoding as an array.
    pub open spec fn wire_array(self) -> [u8; 12] {
        let wire = self.wire();
        [
            wire[0],
            wire[1],
            wire[2],
            wire[3],
            wire[4],
            wire[5],
            wire[6],
            wire[7],
            wire[8],
            wire[9],
            wire[10],
            wire[11],
        ]
    }

    /// The header that twelve bytes encode.
    pub open spec fn from_wire(bytes: Seq<u8>) -> DnsMessageHeader
        recommends
            bytes.len() == 12,
    {
        DnsMessageHeader {
            id: be16(bytes[0], bytes[1]),
            qr: bytes[2] >= 128,
            op_code: (bytes[2] / 8) % 16,
            aa: (bytes[2] / 4) % 2 == 1,
            tc: (bytes[2] / 2) % 2 == 1,
            rd: bytes[2] % 2 == 1,
            ra: bytes[3] >= 128,
            z: (bytes[3] / 16) % 8,
            rcode: bytes[3] % 16,
            qd_count: be16(bytes[4], bytes[5]),
            an_count: be16(bytes[6], bytes[7]),
            ns_count: be16(bytes[8], bytes[9]),
            ar_count: be16(bytes[10], bytes[11]),
        }
    }

    /// What decoding a byte string as a header gives: the header it encodes
    /// when it is exactly twelve bytes long, `InvalidHeader` otherwise.
    pub open spec fn decoded(bytes: Seq<u8>) -> Result<DnsMessageHeader, Error> {
        if bytes.len() == 12 {
            Ok(Self::from_wire(bytes))
        } else {
            Err(Error::InvalidHeader)
        }
    }
}

/// The fields packed into the first flags byte can each be read back from it.
proof fn lemma_flags_high_fields(qr: bool, op_code: int, aa: bool, tc: bool, rd: bool)
    requires
        0 <= op_code < 16,
    ensures
        ({
            let byte = bit(qr) * 128 + op_code * 8 + bit(aa) * 4 + bit(tc) * 2 + bit(rd);
            &&& 0 <= byte < 256
            &&& (byte >= 128) == qr
            &&& (byte / 8) % 16 == op_code
            &&& ((byte / 4) % 2 == 1) == aa
            &&& ((byte / 2) % 2 == 1) == tc
            &&& (byte % 2 == 1) == rd
        }),
{
}

/// The fields packed into the second flags byte can each be read back from it.
proof fn lemma_flags_low_fields(ra: bool, z: int, rcode: int)
    requires
        0 <= z < 8,
        0 <= rcode < 16,
    ensures
        ({
            let byte = bit(ra) * 128 + z * 16 + rcode;
            &&& 0 <= byte < 256
            &&& (byte >= 128) == ra
            &&& (byte / 16) % 8 == z
            &&& byte % 16 == rcode
        }),
{
}

/// Encoding any header gives twelve bytes, and decoding them gives the header
/// with each bit-field cut down to its width.
pub proof fn lemma_header_encoding_truncates(header: DnsMessageHeader)
    ensures
        header.wire().len() == 12,
        DnsMessageHeader::from_wire(header.wire()) == (DnsMessageHeader {
            op_code: header.op_code % 16,
            z: header.z % 8,
            rcode: header.rcode % 16,
            ..header
        }),
        DnsMessageHeader::from_wire(header.wire()).fits_wire(),
{
    let bytes = header.wire();
    let back = DnsMessageHeader::from_wire(bytes);
    lemma_flags_high_fields(
        header.qr,
        (header.op_code % 16) as int,
        header.aa,
        header.tc,
        header.rd,
    );
    lemma_flags_low_fields(header.ra, (header.z % 8) as int, (header.rcode % 16) as int);
    assert(bytes[2] == header.flags_high());
    assert(bytes[3] == header.flags_low());
    assert(back.id == header.id);
    assert(back.qd_count == header.qd_count);
    assert(back.an_count == header.an_count);
    assert(back.ns_count == header.ns_count);
    assert(back.ar_count == header.ar_count);
}

/// Decoding the encoding of a header whose bit-fields fit their widths gives
/// the header back.
pub proof fn lemma_header_round_trip(header: DnsMessageHeader)
    requires
        header.fits_wire(),
    ensures
        header.wire().len() == 12,
        DnsMessageHeader::decoded(header.wire()) == Ok::<DnsMessageHeader, Error>(header),
{
    lemma_header_encoding_truncates(header);
}

/// A byte is the sum of its bits.
proof fn lemma_byte_from_bits(byte: u8)
    ensures
        byte == bit(byte >= 128) * 128 + ((byte / 8) % 16) * 8 + bit((byte / 4) % 2 == 1) * 4 + bit(
            (byte / 2) % 2 == 1,
        ) * 2 + bit(byte % 2 == 1),
        byte == bit(byte >= 128) * 128 + ((byte / 16) % 8) * 16 + byte % 16,
{
    assert(byte == (byte / 128) * 128 + ((byte / 8) % 16) * 8 + ((byte / 4) % 2) * 4 + ((byte / 2)
        % 2) * 2 + byte % 2) by (bit_vector);
    assert(byte == (byte / 128) * 128 + ((byte / 16) % 8) * 16 + byte % 16) by (bit_vector);
    assert(byte / 128 == bit(byte >= 128));
}

/// Encoding the header decoded from twelve bytes gives those bytes back.
pub proof fn lemma_header_bytes_round_trip(bytes: Seq<u8>)
    requires
        bytes.len() == 12,
    ensures
        DnsMessageHeader::from_wire(bytes).fits_wire(),
        DnsMessageHeader::from_wire(bytes).wire() == bytes,
{
    let header = DnsMessageHeader::from_wire(bytes);
    lemma_byte_from_bits(bytes[2]);
    lemma_byte_from_bits(bytes[3]);
    assert(header.flags_high() == bytes[2]);
    assert(header.flags_low() == bytes[3]);
    lemma_be16_bytes_of_be16(bytes[0], bytes[1]);
    lemma_be16_bytes_of_be16(bytes[4], bytes[5]);
    lemma_be16_bytes_of_be16(bytes[6], bytes[7]);
    lemma_be16_bytes_of_be16(bytes[8], bytes[9]);
    lemma_be16_bytes_of_be16(bytes[10], bytes[11]);
    assert(header.wire() =~= bytes);
}

impl TryFrom<&[u8]> for DnsMessageHeader {
    type Error = Error;

    /// Decodes a header from exactly twelve bytes.
    fn try_from(header_bytes: &[u8]) -> (decoded: Result<Self, Error>)
        ensures
            decoded == DnsMessageHeader::decoded(header_bytes@),
            decoded matches Ok(header) ==> header.fits_wire(),
    {
        if header_bytes.len() != HEADER_LEN {
            return Err(Error::InvalidHeader);
        }
        let id = crate::wire::read_u16(header_bytes, 0);

        let flags1: u8 = header_bytes[2];
        let qr = (flags1 & 0b1000_0000) != 0;
        let op_code: u8 = (flags1 & 0b0111_1000) >> 3;
        let aa = (flags1 & 0b0000_0100) != 0;
        let tc = (flags1 & 0b0000_0010) != 0;
        let rd = (flags1 & 0b0000_0001) != 0;
        assert(((flags1 & 0b1000_0000) != 0) == (flags1 >= 128)) by (bit_vector);
        assert((flags1 & 0b0111_1000) >> 3 == (flags1 / 8) % 16) by (bit_vector);
        assert(((flags1 & 0b0000_0100) != 0) == ((flags1 / 4) % 2 == 1)) by (bit_vector);
        assert(((flags1 & 0b0000_0010) != 0) == ((flags1 / 2) % 2 == 1)) by (bit_vector);
        assert(((flags1 & 0b0000_0001) != 0) == (flags1 % 2 == 1)) by (bit_vector);

        let flags2: u8 = header_bytes[3];
        let ra = (flags2 & 0b1000_0000) != 0;
        let z: u8 = (flags2 & 0b0111_0000) >> 4;
        let rcode: u8 = flags2 & 0b0000_1111;
        assert(((flags2 & 0b1000_0000) != 0) == (flags2 >= 128)) by (bit_vector);
        assert((flags2 & 0b0111_0000) >> 4 == (flags2 / 16) % 8) by (bit_vector);
        assert(flags2 & 0b0000_1111 == flags2 % 16) by (bit_vector);

        proof {
            lemma_header_bytes_round_trip(header_bytes@);
        }
        let qd_count = crate::wire::read_u16(header_bytes, 4);
        let an_count = crate::wire::read_u16(header_bytes, 6);
        let ns_count = crate::wire::read_u16(header_bytes, 8);
        let ar_count = crate::wire::read_u16(header_bytes, 10);

        Ok(
            DnsMessageHeader {
                id,
                qr,
                op_code,
                aa,
                tc,
                rd,
                ra,
                z,
                rcode,
                qd_count,
                an_count,
                ns_count,
                ar_count,
            },
        )
    }
}

impl TryFromSpecImpl<&[u8]> for DnsMessageHeader {
    open spec fn obeys_try_from_spec() -> bool {
        true
    }

    open spec fn try_from_spec(header_bytes: &[u8]) -> Result<Self, Error> {
        DnsMessageHeader::decoded(header_bytes@)
    }
}

impl From<&DnsMessageHeader> for [u8; 12] {
    /// Encodes a header as its twelve bytes.
    fn from(header: &DnsMessageHeader) -> (buf: [u8; 12])
        ensures
            buf@ == header.wire(),
            buf == header.wire_array(),
    {
        let qr: u8 = if header.qr { 1 } else { 0 };
        let aa: u8 = if header.aa { 1 } else { 0 };
        let tc: u8 = if header.tc { 1 } else { 0 };
        let rd: u8 = if header.rd { 1 } else { 0 };
        let ra: u8 = if header.ra { 1 } else { 0 };
        let op_code: u8 = header.op_code;
        let z: u8 = header.z;
        let rcode: u8 = header.rcode;

        let flags1: u8 = (qr << 7) | ((op_code & 0x0f) << 3) | (aa << 2) | (tc << 1) | rd;
        let flags2: u8 = (ra << 7) | ((z & 0x07) << 4) | (rcode & 0x0f);
        assert(flags1 == qr * 128 + (op_code % 16) * 8 + aa * 4 + tc * 2 + rd) by (bit_vector)
            requires
                flags1 == (qr << 7) | ((op_code & 0x0f) << 3) | (aa << 2) | (tc << 1) | rd,
                qr <= 1,
                aa <= 1,
                tc <= 1,
                rd <= 1,
        ;
        assert(flags2 == ra * 128 + (z % 8) * 16 + rcode % 16) by (bit_vector)
            requires
                flags2 == (ra << 7) | ((z & 0x07) << 4) | (rcode & 0x0f),
                ra <= 1,
        ;

        let buf: [u8; 12] = [
            (header.id / 256) as u8,
            (header.id % 256) as u8,
            flags1,
            flags2,
            (header.qd_count / 256) as u8,
            (header.qd_count % 256) as u8,
            (header.an_count / 256) as u8,
            (header.an_count % 256) as u8,
            (header.ns_count / 256) as u8,
            (header.ns_count % 256) as u8,
            (header.ar_count / 256) as u8,
            (header.ar_count % 256) as u8,
        ];
        assert(buf@ =~= header.wire());
        buf
    }
}

impl FromSpecImpl<&DnsMessageHeader> for [u8; 12] {
    open spec fn obeys_from_spec() -> bool {
        true
    }

    open spec fn from_spec(header: &DnsMessageHeader) -> [u8; 12] {
        header.wire_array()
    }
}

} // verus!
