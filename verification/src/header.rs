//! The ALEPKT header.
use crate::consts::{
    ALE_CHECKSUM_COVERED_SIZE, ALE_HEADER_SIZE, ALE_MAX_USER_DATA, ALE_PKT_AU1, ALE_PKT_AU2,
    ALE_PKT_DI, ALE_PKT_DT,
};
use crate::crc;
use crate::error::AleError;
use crate::octets;
use vstd::prelude::*;

verus! {

/// Parsed ALEPKT header.
#[derive(Debug)]
pub struct AleHeader {
    /// Length of everything after this 2-octet field: 8 header octets and the user data.
    pub packet_length: u16,
    pub version: u8,
    pub app_type: u8,
    /// Transport Sequence Number (Class D: increments per ALEPKT, wraps 65535 to 0).
    pub t_sequence: u16,
    /// Normal/Redundant flag (1 = Normal for Class D).
    pub nr_flag: u8,
    pub packet_type: u8,
    /// CRC-CCITT checksum over the preceding 8 octets (PacketLength through PktType).
    pub checksum: u16,
}

impl Clone for AleHeader {
    fn clone(&self) -> (r: Self)
        ensures
            r == *self,
    {
        AleHeader {
            packet_length: self.packet_length,
            version: self.version,
            app_type: self.app_type,
            t_sequence: self.t_sequence,
            nr_flag: self.nr_flag,
            packet_type: self.packet_type,
            checksum: self.checksum,
        }
    }
}

/// The packet types that both classes of service have.
pub open spec fn known_type(packet_type: u8) -> bool {
    packet_type == ALE_PKT_AU1 || packet_type == ALE_PKT_AU2 || packet_type == ALE_PKT_DT
        || packet_type == ALE_PKT_DI
}

impl AleHeader {
    /// The octets under the checksum, in wire order.
    pub open spec fn covered(self) -> Seq<u8> {
        octets::be16(self.packet_length) + seq![self.version, self.app_type] + octets::be16(
            self.t_sequence,
        ) + seq![self.nr_flag, self.packet_type]
    }

    /// The header on the wire.
    pub open spec fn wire(self) -> Seq<u8> {
        self.covered() + octets::be16(self.checksum)
    }

    /// The checksum field holds the checksum of the other fields.
    pub open spec fn checksum_holds(self) -> bool {
        self.checksum == crc::crc_of(self.covered())
    }

    /// The fields of ten octets, nothing being checked.
    pub open spec fn fields(buf: Seq<u8>) -> AleHeader {
        AleHeader {
            packet_length: octets::read16(buf, 0),
            version: buf[2],
            app_type: buf[3],
            t_sequence: octets::read16(buf, 4),
            nr_flag: buf[6],
            packet_type: buf[7],
            checksum: octets::read16(buf, 8),
        }
    }

    /// What decoding ten octets gives: the checksum is judged first, then the packet type.
    pub open spec fn decoded(buf: Seq<u8>) -> Result<AleHeader, AleError> {
        let h = AleHeader::fields(buf);
        let computed = crc::crc_of(buf.take(ALE_CHECKSUM_COVERED_SIZE as int));
        if computed != h.checksum {
            Err(AleError::ChecksumMismatch { expected: computed, got: h.checksum })
        } else if !known_type(h.packet_type) {
            Err(AleError::InvalidPacketType(h.packet_type))
        } else {
            Ok(h)
        }
    }

    /// Serialize the header to its 10-octet wire representation (big-endian).
    pub fn encode(&self) -> (buf: [u8; ALE_HEADER_SIZE])
        ensures
            buf@ == self.wire(),
            buf@.len() == 10,
            buf@[0] * 256 + buf@[1] == self.packet_length,
            buf@[2] == self.version,
            buf@[3] == self.app_type,
            buf@[4] * 256 + buf@[5] == self.t_sequence,
            buf@[6] == self.nr_flag,
            buf@[7] == self.packet_type,
            buf@[8] * 256 + buf@[9] == self.checksum,
    {
        let buf: [u8; ALE_HEADER_SIZE] = [
            octets::high(self.packet_length),
            octets::low(self.packet_length),
            self.version,
            self.app_type,
            octets::high(self.t_sequence),
            octets::low(self.t_sequence),
            self.nr_flag,
            self.packet_type,
            octets::high(self.checksum),
            octets::low(self.checksum),
        ];
        assert(buf@ =~= self.wire());
        buf
    }

    /// Decode a 10-octet buffer into an AleHeader, validating the CRC checksum and the packet
    /// type.
    pub fn decode(buf: &[u8; ALE_HEADER_SIZE]) -> (r: Result<Self, AleError>)
        ensures
            r == AleHeader::decoded(buf@),
            r is Ok <==> crc::crc_of(buf@.take(8)) == buf@[8] * 256 + buf@[9] && 1 <= buf@[7] <= 4,
            r matches Ok(h) ==> {
                &&& h.packet_length == buf@[0] * 256 + buf@[1]
                &&& h.version == buf@[2]
                &&& h.app_type == buf@[3]
                &&& h.t_sequence == buf@[4] * 256 + buf@[5]
                &&& h.nr_flag == buf@[6]
                &&& h.packet_type == buf@[7]
                &&& h.checksum == buf@[8] * 256 + buf@[9]
            },
            crc::crc_of(buf@.take(8)) != buf@[8] * 256 + buf@[9] ==> r == Err::<AleHeader, AleError>(
                AleError::ChecksumMismatch {
                    expected: crc::crc_of(buf@.take(8)),
                    got: (buf@[8] * 256 + buf@[9]) as u16,
                },
            ),
            crc::crc_of(buf@.take(8)) == buf@[8] * 256 + buf@[9] && !(1 <= buf@[7] <= 4) ==> r
                == Err::<AleHeader, AleError>(AleError::InvalidPacketType(buf@[7])),
    {
        let packet_length = octets::from_octets(buf[0], buf[1]);
        let version = buf[2];
        let app_type = buf[3];
        let t_sequence = octets::from_octets(buf[4], buf[5]);
        let nr_flag = buf[6];
        let packet_type = buf[7];
        let checksum = octets::from_octets(buf[8], buf[9]);

        let computed = crc::crc_ccitt(
            vstd::slice::slice_subrange(buf.as_slice(), 0, ALE_CHECKSUM_COVERED_SIZE),
        );
        if computed != checksum {
            return Err(AleError::ChecksumMismatch { expected: computed, got: checksum });
        }
        match packet_type {
            ALE_PKT_AU1 | ALE_PKT_AU2 | ALE_PKT_DT | ALE_PKT_DI => {},
            _ => return Err(AleError::InvalidPacketType(packet_type)),
        }
        Ok(
            AleHeader {
                packet_length,
                version,
                app_type,
                t_sequence,
                nr_flag,
                packet_type,
                checksum,
            },
        )
    }

    /// Build a header with the correct checksum.
    ///
    /// Errors with [`AleError::PayloadTooLarge`] if `user_data_len` exceeds
    /// [`ALE_MAX_USER_DATA`], which the 16-bit Packet Length field could not hold.
    pub fn build(
        version: u8,
        app_type: u8,
        t_sequence: u16,
        nr_flag: u8,
        packet_type: u8,
        user_data_len: usize,
    ) -> (r: Result<Self, AleError>)
        ensures
            user_data_len > ALE_MAX_USER_DATA ==> r == Err::<AleHeader, AleError>(
                AleError::PayloadTooLarge(user_data_len),
            ),
            user_data_len <= ALE_MAX_USER_DATA ==> (r matches Ok(h) && {
                &&& h.packet_length == ALE_CHECKSUM_COVERED_SIZE + user_data_len
                &&& h.version == version
                &&& h.app_type == app_type
                &&& h.t_sequence == t_sequence
                &&& h.nr_flag == nr_flag
                &&& h.packet_type == packet_type
                &&& h.checksum_holds()
            }),
            user_data_len > 65000 <==> r is Err,
            r matches Err(e) ==> e == AleError::PayloadTooLarge(user_data_len),
            r matches Ok(h) ==> {
                &&& h.packet_length == 8 + user_data_len
                &&& h.checksum == crc::crc_of(
                    seq![
                        ((8 + user_data_len) / 256) as u8,
                        ((8 + user_data_len) % 256) as u8,
                        version,
                        app_type,
                        (t_sequence / 256) as u8,
                        (t_sequence % 256) as u8,
                        nr_flag,
                        packet_type,
                    ],
                )
            },
    {
        if user_data_len > ALE_MAX_USER_DATA {
            return Err(AleError::PayloadTooLarge(user_data_len));
        }
        let packet_length: u16 = (ALE_CHECKSUM_COVERED_SIZE + user_data_len) as u16;
        let covered: [u8; 8] = [
            octets::high(packet_length),
            octets::low(packet_length),
            version,
            app_type,
            octets::high(t_sequence),
            octets::low(t_sequence),
            nr_flag,
            packet_type,
        ];
        let checksum = crc::crc_ccitt(covered.as_slice());
        let h = AleHeader {
            packet_length,
            version,
            app_type,
            t_sequence,
            nr_flag,
            packet_type,
            checksum,
        };
        assert(covered@ =~= h.covered());
        assert(covered@ =~= seq![
            ((8 + user_data_len) / 256) as u8,
            ((8 + user_data_len) % 256) as u8,
            version,
            app_type,
            (t_sequence / 256) as u8,
            (t_sequence % 256) as u8,
            nr_flag,
            packet_type,
        ]);
        Ok(h)
    }
}

/// The octets of a header hold its fields.
pub proof fn wire_holds_fields(h: AleHeader)
    ensures
        h.wire().len() == ALE_HEADER_SIZE,
        h.wire().take(ALE_CHECKSUM_COVERED_SIZE as int) == h.covered(),
        AleHeader::fields(h.wire()) == h,
{
    let w = h.wire();
    assert(w.take(ALE_CHECKSUM_COVERED_SIZE as int) =~= h.covered());
    assert(w.subrange(0, 2) =~= octets::be16(h.packet_length));
    assert(w.subrange(4, 6) =~= octets::be16(h.t_sequence));
    assert(w.subrange(8, 10) =~= octets::be16(h.checksum));
    octets::be16_read_back(w, 0, h.packet_length);
    octets::be16_read_back(w, 4, h.t_sequence);
    octets::be16_read_back(w, 8, h.checksum);
}

/// Where an encoded header has its fields: the numbers of two octets have the more significant one
/// first.
pub proof fn encoded_header_layout(h: AleHeader)
    ensures
        h.wire().len() == 10,
        h.wire()[0] * 256 + h.wire()[1] == h.packet_length,
        h.wire()[2] == h.version,
        h.wire()[3] == h.app_type,
        h.wire()[4] * 256 + h.wire()[5] == h.t_sequence,
        h.wire()[6] == h.nr_flag,
        h.wire()[7] == h.packet_type,
        h.wire()[8] * 256 + h.wire()[9] == h.checksum,
{
    wire_holds_fields(h);
    fields_wire(h.wire());
}

/// Where a decoded header has its fields from, when ten octets decode, and why when they do not:
/// the checksum of the first eight is to be spelt by the last two, and the type is to be 1, 2, 3 or
/// 4.
pub proof fn decoded_header_layout(s: Seq<u8>)
    requires
        s.len() == 10,
    ensures
        AleHeader::decoded(s) is Ok <==> crc::crc_of(s.take(8)) == s[8] * 256 + s[9] && 1 <= s[7]
            <= 4,
        AleHeader::decoded(s) matches Ok(h) ==> {
            &&& h.packet_length == s[0] * 256 + s[1]
            &&& h.version == s[2]
            &&& h.app_type == s[3]
            &&& h.t_sequence == s[4] * 256 + s[5]
            &&& h.nr_flag == s[6]
            &&& h.packet_type == s[7]
            &&& h.checksum == s[8] * 256 + s[9]
        },
        crc::crc_of(s.take(8)) != s[8] * 256 + s[9] ==> AleHeader::decoded(s) == Err::<
            AleHeader,
            AleError,
        >(
            AleError::ChecksumMismatch {
                expected: crc::crc_of(s.take(8)),
                got: (s[8] * 256 + s[9]) as u16,
            },
        ),
        crc::crc_of(s.take(8)) == s[8] * 256 + s[9] && !(1 <= s[7] <= 4) ==> AleHeader::decoded(s)
            == Err::<AleHeader, AleError>(AleError::InvalidPacketType(s[7])),
{
}

/// Decoding an encoded header gives the header back if its checksum holds and its type is known,
/// and the matching refusal otherwise.
pub proof fn decode_of_encode(h: AleHeader)
    ensures
        AleHeader::decoded(h.wire()) == (if !h.checksum_holds() {
            Err::<AleHeader, AleError>(
                AleError::ChecksumMismatch {
                    expected: crc::crc_of(h.covered()),
                    got: h.checksum,
                },
            )
        } else if !known_type(h.packet_type) {
            Err::<AleHeader, AleError>(AleError::InvalidPacketType(h.packet_type))
        } else {
            Ok::<AleHeader, AleError>(h)
        }),
{
    wire_holds_fields(h);
}

/// Ten octets are those of the header whose fields they hold.
pub proof fn fields_wire(buf: Seq<u8>)
    requires
        buf.len() == ALE_HEADER_SIZE,
    ensures
        AleHeader::fields(buf).wire() == buf,
        AleHeader::fields(buf).covered() == buf.take(ALE_CHECKSUM_COVERED_SIZE as int),
{
    let h = AleHeader::fields(buf);
    octets::read16_written(buf, 0);
    octets::read16_written(buf, 4);
    octets::read16_written(buf, 8);
    assert(h.wire() =~= buf);
    assert(h.covered() =~= buf.take(ALE_CHECKSUM_COVERED_SIZE as int));
}

/// A header that decodes has a right checksum and a known type, and encodes to the octets that it
/// was decoded from.
pub proof fn encode_of_decode(buf: Seq<u8>)
    requires
        buf.len() == ALE_HEADER_SIZE,
        AleHeader::decoded(buf) is Ok,
    ensures
        AleHeader::decoded(buf)->Ok_0.wire() == buf,
        AleHeader::decoded(buf)->Ok_0.checksum_holds(),
        known_type(AleHeader::decoded(buf)->Ok_0.packet_type),
{
    fields_wire(buf);
}

/// The bits of a big-endian pair of octets.
proof fn lemma_be16_bits(v: u16, k: int)
    requires
        0 <= k < 16,
    ensures
        crc::bit16(v, k) == crc::bit8(octets::be16(v)[1 - k / 8], k % 8),
{
    let hi = (v / 256) as u8;
    let lo = (v % 256) as u8;
    let j = k as u16;
    assert(v == hi * 256 + lo);
    if k < 8 {
        let i = k as u8;
        assert(((v >> j) & 1 == 1) == ((lo >> i) & 1 == 1)) by (bit_vector)
            requires
                v == hi * 256 + lo,
                j < 8,
                i == j,
        ;
    } else {
        let i = (k - 8) as u8;
        assert(((v >> j) & 1 == 1) == ((hi >> i) & 1 == 1)) by (bit_vector)
            requires
                v == hi * 256 + lo,
                8 <= j < 16,
                i == j - 8,
        ;
    }
}

/// The bits of ten octets are those of the covered octets followed by those of the checksum.
proof fn lemma_header_bits(buf: Seq<u8>, k: int)
    requires
        buf.len() == ALE_HEADER_SIZE,
    ensures
        crc::message_coeff(buf, k) == crc::codeword_coeff(
            buf.take(ALE_CHECKSUM_COVERED_SIZE as int),
            octets::read16(buf, 8),
            k,
        ),
{
    if 0 <= k < 16 {
        octets::read16_written(buf, 8);
        lemma_be16_bits(octets::read16(buf, 8), k);
        assert(buf.subrange(8, 10)[1 - k / 8] == buf[9 - k / 8]);
    } else if 16 <= k < 80 {
        assert((k - 16) / 8 == k / 8 - 2 && (k - 16) % 8 == k % 8);
    }
}

/// Corruption of a header is noticed wherever it falls, as long as it stays within sixteen
/// consecutive bits: where one of two different headers carries its right checksum, the other is
/// refused for its checksum. Bit `k` of a header counts from its last bit.
pub proof fn header_burst_is_refused(sent: Seq<u8>, received: Seq<u8>, at: int)
    requires
        sent.len() == ALE_HEADER_SIZE,
        received.len() == ALE_HEADER_SIZE,
        AleHeader::fields(sent).checksum_holds(),
        sent != received,
        forall|k: int|
            #![trigger crc::message_coeff(sent, k)]
            !(at <= k < at + 16) ==> crc::message_coeff(sent, k) == crc::message_coeff(received, k),
    ensures
        AleHeader::decoded(received) == Err::<AleHeader, AleError>(
            AleError::ChecksumMismatch {
                expected: crc::crc_of(received.take(ALE_CHECKSUM_COVERED_SIZE as int)),
                got: octets::read16(received, 8),
            },
        ),
{
    let a = sent.take(ALE_CHECKSUM_COVERED_SIZE as int);
    let ra = octets::read16(sent, 8);
    let b = received.take(ALE_CHECKSUM_COVERED_SIZE as int);
    let rb = octets::read16(received, 8);
    fields_wire(sent);
    if crc::crc_of(b) == rb {
        assert forall|k: int|
            #![trigger crc::codeword_coeff(a, ra, k)]
            !(at <= k < at + 16) implies crc::codeword_coeff(a, ra, k) == crc::codeword_coeff(
            b,
            rb,
            k,
        ) by {
            lemma_header_bits(sent, k);
            lemma_header_bits(received, k);
            assert(crc::message_coeff(sent, k) == crc::message_coeff(received, k));
        }
        crc::burst_is_detected(a, ra, b, rb, at);
        octets::read16_written(sent, 8);
        octets::read16_written(received, 8);
        assert(sent =~= a + sent.subrange(8, 10));
        assert(received =~= b + received.subrange(8, 10));
    }
}

/// Corruption of a single octet of a header is noticed.
pub proof fn header_octet_error_is_refused(sent: Seq<u8>, i: int, octet: u8)
    requires
        sent.len() == ALE_HEADER_SIZE,
        AleHeader::fields(sent).checksum_holds(),
        0 <= i < ALE_HEADER_SIZE,
        octet != sent[i],
    ensures
        AleHeader::decoded(sent.update(i, octet)) is Err,
        AleHeader::decoded(sent.update(i, octet))->Err_0 is ChecksumMismatch,
{
    let received = sent.update(i, octet);
    let at = 8 * (9 - i);
    assert(received[i] != sent[i]);
    assert forall|k: int|
        #![trigger crc::message_coeff(sent, k)]
        !(at <= k < at + 16) implies crc::message_coeff(sent, k) == crc::message_coeff(
        received,
        k,
    ) by {
        if 0 <= k < 80 {
            assert(9 - k / 8 != i);
        }
    }
    header_burst_is_refused(sent, received, at);
}

} // verus!
