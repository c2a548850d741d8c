//! Framing of outgoing ALEPKTs.
use crate::consts::{
    ALE_CHECKSUM_COVERED_SIZE, ALE_MAX_USER_DATA, ALE_NR_FLAG_NORMAL, ALE_PKT_AU1, ALE_PKT_AU2,
    ALE_VERSION,
};
use crate::crc;
use crate::error::AleError;
use crate::frame::FrameView;
use crate::header;
use crate::header::AleHeader;
use vstd::prelude::*;

verus! {

/// Stateful ALEPKT writer that maintains the T-Sequence counter for Class D.
pub struct AleFrameWriter {
    /// T-Sequence counter: how many ALEPKTs were sent, modulo 65536.
    pub t_sequence: u16,
    pub app_type: u8,
    pub version: u8,
}

impl AleFrameWriter {
    /// The sequence number that the next ALEPKT carries: 0 if it is an AU1 or an AU2, the counter
    /// otherwise.
    pub open spec fn carried_sequence(self, packet_type: u8) -> u16 {
        if packet_type == ALE_PKT_AU1 || packet_type == ALE_PKT_AU2 {
            0
        } else {
            self.t_sequence
        }
    }

    /// The next ALEPKT.
    pub open spec fn frame_for(self, packet_type: u8, user_data: Seq<u8>) -> FrameView {
        let unsummed = AleHeader {
            packet_length: (ALE_CHECKSUM_COVERED_SIZE + user_data.len()) as u16,
            version: self.version,
            app_type: self.app_type,
            t_sequence: self.carried_sequence(packet_type),
            nr_flag: ALE_NR_FLAG_NORMAL,
            packet_type,
            checksum: 0,
        };
        FrameView {
            header: AleHeader { checksum: crc::crc_of(unsummed.covered()), ..unsummed },
            user_data,
        }
    }

    /// The writer once one more ALEPKT has been sent.
    pub open spec fn advanced(self) -> AleFrameWriter {
        AleFrameWriter { t_sequence: ((self.t_sequence + 1) % 0x1_0000) as u16, ..self }
    }

    /// A writer before its first ALEPKT.
    pub fn new(app_type: u8) -> (w: Self)
        ensures
            w == (AleFrameWriter { t_sequence: 0, app_type, version: ALE_VERSION }),
            w.version == 1,
    {
        AleFrameWriter { t_sequence: 0, app_type, version: ALE_VERSION }
    }

    /// The octets of the next ALEPKT (header + user data). The counter stays until
    /// [`AleFrameWriter::finish_write`] reports what became of them.
    pub fn next_alepkt(&self, packet_type: u8, user_data: &[u8]) -> (r: Result<Vec<u8>, AleError>)
        ensures
            user_data@.len() > ALE_MAX_USER_DATA ==> r == Err::<Vec<u8>, AleError>(
                AleError::PayloadTooLarge(user_data.len()),
            ),
            user_data@.len() <= ALE_MAX_USER_DATA ==> (r matches Ok(octets) && octets@
                == self.frame_for(packet_type, user_data@).wire()),
            r is Ok <==> user_data@.len() <= 65000,
            r matches Err(e) ==> e == AleError::PayloadTooLarge(user_data.len()),
            r matches Ok(octets) ==> {
                &&& octets@.len() == 10 + user_data@.len()
                &&& octets@[0] * 256 + octets@[1] == 8 + user_data@.len()
                &&& octets@[2] == self.version
                &&& octets@[3] == self.app_type
                &&& octets@[4] * 256 + octets@[5] == (if packet_type == 1 || packet_type == 2 {
                    0
                } else {
                    self.t_sequence
                })
                &&& octets@[6] == 1
                &&& octets@[7] == packet_type
                &&& octets@[8] * 256 + octets@[9] == crc::crc_of(octets@.take(8))
                &&& octets@.skip(10) == user_data@
            },
    {
        let seq: u16 = match packet_type {
            ALE_PKT_AU1 | ALE_PKT_AU2 => 0,
            _ => self.t_sequence,
        };
        let header = match AleHeader::build(
            self.version,
            self.app_type,
            seq,
            ALE_NR_FLAG_NORMAL,
            packet_type,
            user_data.len(),
        ) {
            Ok(header) => header,
            Err(e) => return Err(e),
        };
        assert(header == self.frame_for(packet_type, user_data@).header);
        let encoded = header.encode();
        let mut frame: Vec<u8> = Vec::new();
        frame.extend_from_slice(encoded.as_slice());
        frame.extend_from_slice(user_data);
        assert(frame@ =~= header.wire() + user_data@);
        proof {
            next_packet_layout(*self, packet_type, user_data@);
        }
        Ok(frame)
    }

    /// Account for the outcome of writing an ALEPKT to the transport: the counter advances, modulo
    /// 65536, for an ALEPKT that was sent, and only for that.
    pub fn finish_write(&mut self, written: Result<(), std::io::Error>) -> (r: Result<(), AleError>)
        ensures
            written is Ok ==> r is Ok && *final(self) == old(self).advanced(),
            written is Ok ==> final(self).t_sequence == (old(self).t_sequence + 1) % 65536,
            final(self).app_type == old(self).app_type,
            final(self).version == old(self).version,
            written matches Err(e) ==> r == Err::<(), AleError>(AleError::Io(e)) && *final(self)
                == *old(self),
    {
        match written {
            Ok(()) => {
                self.t_sequence = self.t_sequence.wrapping_add(1);
                Ok(())
            },
            Err(e) => Err(AleError::from(e)),
        }
    }

    /// Write a complete ALEPKT (header + user data) behind what `out` holds.
    ///
    /// AU1 and AU2 always carry sequence number 0 (Subset-098 6.5.2.6.4), every other type carries
    /// the counter. The counter advances for every ALEPKT, so that the first DT after the
    /// handshake carries 1. User data that is too large is refused, with nothing written and the
    /// counter as it was.
    pub fn write_alepkt(&mut self, out: &mut Vec<u8>, packet_type: u8, user_data: &[u8]) -> (r:
        Result<(), AleError>)
        ensures
            user_data@.len() > ALE_MAX_USER_DATA ==> {
                &&& r == Err::<(), AleError>(AleError::PayloadTooLarge(user_data.len()))
                &&& *final(self) == *old(self)
                &&& final(out)@ == old(out)@
            },
            user_data@.len() <= ALE_MAX_USER_DATA ==> {
                &&& r is Ok
                &&& *final(self) == old(self).advanced()
                &&& final(out)@ == old(out)@ + old(self).frame_for(packet_type, user_data@).wire()
            },
            r is Ok <==> user_data@.len() <= 65000,
            r matches Err(e) ==> e == AleError::PayloadTooLarge(user_data.len()),
            r is Err ==> final(self).t_sequence == old(self).t_sequence && final(out)@ == old(
                out,
            )@,
            final(self).app_type == old(self).app_type,
            final(self).version == old(self).version,
            r is Ok ==> {
                let appended = final(out)@.skip(old(out)@.len() as int);
                &&& final(self).t_sequence == (old(self).t_sequence + 1) % 65536
                &&& final(out)@.take(old(out)@.len() as int) == old(out)@
                &&& appended.len() == 10 + user_data@.len()
                &&& appended[0] * 256 + appended[1] == 8 + user_data@.len()
                &&& appended[2] == old(self).version
                &&& appended[3] == old(self).app_type
                &&& appended[4] * 256 + appended[5] == (if packet_type == 1 || packet_type == 2 {
                    0
                } else {
                    old(self).t_sequence
                })
                &&& appended[6] == 1
                &&& appended[7] == packet_type
                &&& appended[8] * 256 + appended[9] == crc::crc_of(appended.take(8))
                &&& appended.skip(10) == user_data@
            },
    {
        let mut frame = match self.next_alepkt(packet_type, user_data) {
            Ok(frame) => frame,
            Err(e) => return Err(e),
        };
        let ghost octets = frame@;
        out.append(&mut frame);
        proof {
            assert(out@.skip(old(out)@.len() as int) =~= octets);
            assert(out@.take(old(out)@.len() as int) =~= old(out)@);
        }
        self.finish_write(Ok(()))
    }

    /// Current T-Sequence number (for diagnostics).
    pub fn t_sequence(&self) -> (n: u16)
        ensures
            n == self.t_sequence,
    {
        self.t_sequence
    }
}

/// The octets of the next packet: its length field is 8 more than the size of the user data, it
/// carries sequence number 0 if its type is 1 or 2 and the counter otherwise, it is for the normal
/// link, its checksum is that of its first eight octets, and the user data follows the header.
pub proof fn next_packet_layout(w: AleFrameWriter, packet_type: u8, user_data: Seq<u8>)
    requires
        user_data.len() <= 65000,
    ensures
        ({
            let s = w.frame_for(packet_type, user_data).wire();
            &&& s.len() == 10 + user_data.len()
            &&& s[0] * 256 + s[1] == 8 + user_data.len()
            &&& s[2] == w.version
            &&& s[3] == w.app_type
            &&& s[4] * 256 + s[5] == (if packet_type == 1 || packet_type == 2 {
                0
            } else {
                w.t_sequence
            })
            &&& s[6] == 1
            &&& s[7] == packet_type
            &&& s[8] * 256 + s[9] == crc::crc_of(s.take(8))
            &&& s.skip(10) == user_data
        }),
{
    let f = w.frame_for(packet_type, user_data);
    let h = f.header;
    header::encoded_header_layout(h);
    header::wire_holds_fields(h);
    assert(h.covered() == AleHeader { checksum: 0, ..h }.covered());
    assert(f.wire().take(8) =~= h.wire().take(8));
    assert(f.wire().skip(10) =~= user_data);
}

/// The counter moves by one for a packet, from 65535 to 0, and the writer stays what it is.
pub proof fn counter_moves_by_one(w: AleFrameWriter)
    ensures
        w.t_sequence < 65535 ==> w.advanced().t_sequence == w.t_sequence + 1,
        w.t_sequence == 65535 ==> w.advanced().t_sequence == 0,
        w.advanced().app_type == w.app_type,
        w.advanced().version == w.version,
{
}

} // verus!
