//! What one peer writes, the other reads.
use crate::consts::{
    ALE_CHECKSUM_COVERED_SIZE, ALE_HEADER_SIZE, ALE_MAX_USER_DATA, ALE_NR_FLAG_NORMAL,
    ALE_PKT_AU1, ALE_PKT_AU2,
};
use crate::error::AleError;
use crate::frame;
use crate::frame::FrameView;
use crate::header;
use crate::header::AleHeader;
use crate::stream;
use crate::stream::Parsed;
use crate::writer::AleFrameWriter;
use vstd::prelude::*;

verus! {

/// A packet to be written: its type and its user data.
pub struct Packet {
    pub packet_type: u8,
    pub user_data: Seq<u8>,
}

impl Packet {
    /// The peer takes it: its type is known and its user data is not too large.
    pub open spec fn acceptable(self) -> bool {
        header::known_type(self.packet_type) && self.user_data.len() <= ALE_MAX_USER_DATA
    }
}

/// All packets of the list are acceptable.
pub open spec fn all_acceptable(packets: Seq<Packet>) -> bool {
    forall|i: int| 0 <= i < packets.len() ==> (#[trigger] packets[i]).acceptable()
}

/// The frames of packets that are written one after the other.
pub open spec fn written_frames(w: AleFrameWriter, packets: Seq<Packet>) -> Seq<FrameView>
    decreases packets.len(),
{
    if packets.len() == 0 {
        Seq::empty()
    } else {
        seq![w.frame_for(packets[0].packet_type, packets[0].user_data)] + written_frames(
            w.advanced(),
            packets.drop_first(),
        )
    }
}

/// The writer after `n` packets.
pub open spec fn writer_after(w: AleFrameWriter, n: nat) -> AleFrameWriter
    decreases n,
{
    if n == 0 {
        w
    } else {
        writer_after(w, (n - 1) as nat).advanced()
    }
}

/// The counter counts the packets modulo 65536, whatever their types; nothing else of the writer
/// changes.
pub proof fn counter_counts(w: AleFrameWriter, n: nat)
    ensures
        writer_after(w, n) == (AleFrameWriter {
            t_sequence: ((w.t_sequence + n) % 0x1_0000) as u16,
            ..w
        }),
    decreases n,
{
    if n > 0 {
        counter_counts(w, (n - 1) as nat);
    }
}

/// One packet more: the counter moves on before the others as it does behind them.
proof fn lemma_writer_after_shift(w: AleFrameWriter, n: nat)
    ensures
        writer_after(w.advanced(), n) == writer_after(w, n + 1),
    decreases n,
{
    reveal_with_fuel(writer_after, 2);
    if n > 0 {
        lemma_writer_after_shift(w, (n - 1) as nat);
    }
}

/// The frame of the i-th packet is the one that the writer makes after i packets.
pub proof fn written_frame_at(w: AleFrameWriter, packets: Seq<Packet>, i: int)
    requires
        0 <= i < packets.len(),
    ensures
        written_frames(w, packets).len() == packets.len(),
        written_frames(w, packets)[i] == writer_after(w, i as nat).frame_for(
            packets[i].packet_type,
            packets[i].user_data,
        ),
    decreases packets.len(),
{
    let others = packets.drop_first();
    reveal_with_fuel(written_frames, 2);
    if others.len() > 0 {
        if i > 0 {
            written_frame_at(w.advanced(), others, i - 1);
            lemma_writer_after_shift(w, (i - 1) as nat);
            assert(packets[i] == others[i - 1]);
        } else {
            written_frame_at(w.advanced(), others, 0);
        }
    }
}

/// Writing one packet more appends the frame that the writer makes then, and its octets.
pub proof fn one_more_packet(w: AleFrameWriter, packets: Seq<Packet>, p: Packet)
    ensures
        ({
            let f = writer_after(w, packets.len()).frame_for(p.packet_type, p.user_data);
            &&& written_frames(w, packets.push(p)) == written_frames(w, packets).push(f)
            &&& frame::wire_all(written_frames(w, packets.push(p))) == frame::wire_all(
                written_frames(w, packets),
            ) + f.wire()
        }),
    decreases packets.len(),
{
    let all = packets.push(p);
    let f = writer_after(w, packets.len()).frame_for(p.packet_type, p.user_data);
    reveal_with_fuel(written_frames, 2);
    if packets.len() == 0 {
        assert(all.drop_first() =~= packets);
        assert(written_frames(w, all) =~= written_frames(w, packets).push(f));
    } else {
        let others = packets.drop_first();
        assert(all.drop_first() =~= others.push(p));
        one_more_packet(w.advanced(), others, p);
        lemma_writer_after_shift(w, others.len());
        assert(written_frames(w, all) =~= written_frames(w, packets).push(f));
    }
    frame::wire_all_push(written_frames(w, packets), f);
}

/// Numbering: the i-th packet that is written carries the counter plus i, modulo 65536, unless it
/// is an AU1 or an AU2, which carry 0. Every frame is for the normal link, and its length field
/// counts eight header octets and the user data.
pub proof fn frames_are_numbered(w: AleFrameWriter, packets: Seq<Packet>, i: int)
    requires
        all_acceptable(packets),
        0 <= i < packets.len(),
    ensures
        ({
            let f = written_frames(w, packets)[i];
            let p = packets[i];
            &&& f.user_data == p.user_data
            &&& f.header.packet_type == p.packet_type
            &&& f.header.t_sequence == (if p.packet_type == ALE_PKT_AU1 || p.packet_type
                == ALE_PKT_AU2 {
                0int
            } else {
                (w.t_sequence + i) % 0x1_0000
            })
            &&& f.header.version == w.version
            &&& f.header.app_type == w.app_type
            &&& f.header.nr_flag == ALE_NR_FLAG_NORMAL
            &&& f.header.packet_length == ALE_CHECKSUM_COVERED_SIZE + p.user_data.len()
            &&& f.header.checksum_holds()
        }),
{
    written_frame_at(w, packets, i);
    counter_counts(w, i as nat);
    assert(packets[i].acceptable());
    lemma_frame_is_valid(writer_after(w, i as nat), packets[i]);
}

/// The frame of an acceptable packet is valid.
proof fn lemma_frame_is_valid(w: AleFrameWriter, p: Packet)
    requires
        p.acceptable(),
    ensures
        w.frame_for(p.packet_type, p.user_data).valid(),
{
    let h = w.frame_for(p.packet_type, p.user_data).header;
    assert(h.covered() == AleHeader { checksum: 0, ..h }.covered());
}

/// The frames of acceptable packets are valid.
pub proof fn written_frames_are_valid(w: AleFrameWriter, packets: Seq<Packet>)
    requires
        all_acceptable(packets),
    ensures
        frame::all_valid(written_frames(w, packets)),
        written_frames(w, packets).len() == packets.len(),
{
    let frames = written_frames(w, packets);
    if packets.len() > 0 {
        written_frame_at(w, packets, 0);
    }
    assert forall|i: int| 0 <= i < frames.len() implies (#[trigger] frames[i]).valid() by {
        written_frame_at(w, packets, i);
        assert(packets[i].acceptable());
        lemma_frame_is_valid(writer_after(w, i as nat), packets[i]);
    }
}

/// Whatever acceptable packets a writer writes, and however the transport cuts the octets into
/// chunks, a fresh reader delivers exactly the frames that were written, in order, refuses nothing
/// and keeps nothing.
pub proof fn written_packets_are_read(
    w: AleFrameWriter,
    packets: Seq<Packet>,
    chunks: Seq<Seq<u8>>,
)
    requires
        all_acceptable(packets),
        stream::joined(chunks) == frame::wire_all(written_frames(w, packets)),
    ensures
        stream::run(Seq::empty(), chunks) == (Parsed {
            frames: written_frames(w, packets),
            rest: Seq::empty(),
            error: None,
        }),
{
    let frames = written_frames(w, packets);
    let none = Seq::<u8>::empty();
    written_frames_are_valid(w, packets);
    stream::frames_read_back(frames, none);
    stream::chunking_is_irrelevant(none, chunks);
    assert(none + stream::joined(chunks) =~= frame::wire_all(frames) + none);
    assert(stream::parse(none).after(frames).frames =~= frames);
}

/// A packet whose type the protocol does not have is written all the same; the peer refuses it for
/// its type, whatever follows it.
pub proof fn unknown_type_is_refused(
    w: AleFrameWriter,
    packet_type: u8,
    user_data: Seq<u8>,
    rest: Seq<u8>,
)
    requires
        !header::known_type(packet_type),
        user_data.len() <= ALE_MAX_USER_DATA,
    ensures
        stream::parse(w.frame_for(packet_type, user_data).wire() + rest) == (Parsed {
            frames: Seq::empty(),
            rest: w.frame_for(packet_type, user_data).header.wire(),
            error: Some(AleError::InvalidPacketType(packet_type)),
        }),
{
    let f = w.frame_for(packet_type, user_data);
    let h = f.header;
    assert(h.covered() == AleHeader { checksum: 0, ..h }.covered());
    header::wire_holds_fields(h);
    header::decode_of_encode(h);
    assert((f.wire() + rest).take(ALE_HEADER_SIZE as int) =~= h.wire());
}

} // verus!
