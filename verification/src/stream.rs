//! What a stream of octets says, as a sequence of frames.
use crate::consts::{ALE_CHECKSUM_COVERED_SIZE, ALE_HEADER_SIZE, ALE_MAX_USER_DATA};
use crate::crc;
use crate::error::AleError;
use crate::frame;
use crate::frame::FrameView;
use crate::header;
use crate::header::AleHeader;
use vstd::prelude::*;

verus! {

/// What ten octets open: a frame whose user data may follow, or a refusal. The checksum is judged
/// first, then the packet type, then the length.
pub open spec fn opened(buf: Seq<u8>) -> Result<AleHeader, AleError> {
    match AleHeader::decoded(buf) {
        Err(e) => Err(e),
        Ok(h) => if h.packet_length < ALE_CHECKSUM_COVERED_SIZE {
            Err(AleError::InvalidPacketLength(h.packet_length))
        } else if h.packet_length - ALE_CHECKSUM_COVERED_SIZE > ALE_MAX_USER_DATA {
            Err(
                AleError::PayloadTooLarge(
                    (h.packet_length - ALE_CHECKSUM_COVERED_SIZE) as usize,
                ),
            )
        } else {
            Ok(h)
        },
    }
}

/// The size of the user data that a header announces.
pub open spec fn announced(h: AleHeader) -> int {
    h.packet_length - ALE_CHECKSUM_COVERED_SIZE
}

/// The outcome of reading a stream.
pub struct Parsed {
    /// The frames that are complete, in order.
    pub frames: Seq<FrameView>,
    /// The octets left over: those of a frame not yet complete, or the header that is refused.
    pub rest: Seq<u8>,
    /// Why the header in `rest` is refused, if it is.
    pub error: Option<AleError>,
}

impl Parsed {
    /// The same outcome, with `frames` ahead of it.
    pub open spec fn after(self, frames: Seq<FrameView>) -> Parsed {
        Parsed { frames: frames + self.frames, ..self }
    }
}

/// Read `s` from its start, frame by frame.
pub open spec fn parse(s: Seq<u8>) -> Parsed
    decreases s.len(),
{
    if s.len() < ALE_HEADER_SIZE {
        Parsed { frames: Seq::empty(), rest: s, error: None }
    } else {
        let head = s.take(ALE_HEADER_SIZE as int);
        match opened(head) {
            Err(e) => Parsed { frames: Seq::empty(), rest: head, error: Some(e) },
            Ok(h) => {
                let end = ALE_HEADER_SIZE + announced(h);
                if s.len() < end {
                    Parsed { frames: Seq::empty(), rest: s, error: None }
                } else {
                    let f = FrameView {
                        header: h,
                        user_data: s.subrange(ALE_HEADER_SIZE as int, end),
                    };
                    parse(s.skip(end)).after(seq![f])
                }
            },
        }
    }
}

/// `s` is the beginning of a frame that is neither complete nor refused.
pub open spec fn waiting(s: Seq<u8>) -> bool {
    parse(s) == (Parsed { frames: Seq::empty(), rest: s, error: None })
}

/// `s` is a header that is refused.
pub open spec fn refused(s: Seq<u8>) -> bool {
    s.len() == ALE_HEADER_SIZE && opened(s) is Err
}

/// What comes of `data` behind the octets `pending` that were kept from before. No data, no
/// verdict.
pub open spec fn fed(pending: Seq<u8>, data: Seq<u8>) -> Parsed {
    if data.len() == 0 {
        Parsed { frames: Seq::empty(), rest: pending, error: None }
    } else {
        parse(pending + data)
    }
}

/// A header that opens a frame, with all the user data that it announces, is read as that frame.
pub proof fn complete_frame_is_read(head: Seq<u8>, user_data: Seq<u8>, rest: Seq<u8>)
    requires
        head.len() == ALE_HEADER_SIZE,
        opened(head) is Ok,
        announced(opened(head)->Ok_0) == user_data.len(),
    ensures
        parse(head + user_data + rest) == parse(rest).after(
            seq![FrameView { header: opened(head)->Ok_0, user_data }],
        ),
{
    let s = head + user_data + rest;
    let end = (ALE_HEADER_SIZE + user_data.len()) as int;
    assert(s.take(ALE_HEADER_SIZE as int) =~= head);
    assert(s.subrange(ALE_HEADER_SIZE as int, end) =~= user_data);
    assert(s.skip(end) =~= rest);
}

// ------------------------------------------------------------------------- chunking

/// More data does not change what was read before it: the frames stand, what was left over is
/// read on, and a refusal is final.
pub proof fn parse_continues(s: Seq<u8>, more: Seq<u8>)
    ensures
        parse(s).error is None ==> parse(s + more) == parse(parse(s).rest + more).after(
            parse(s).frames,
        ),
        parse(s).error is Some ==> parse(s + more) == parse(s),
    decreases s.len(),
{
    let t = s + more;
    if s.len() < ALE_HEADER_SIZE {
        assert(parse(t).frames =~= parse(t).after(Seq::empty()).frames);
    } else {
        let head = s.take(ALE_HEADER_SIZE as int);
        assert(t.take(ALE_HEADER_SIZE as int) =~= head);
        match opened(head) {
            Err(_) => {},
            Ok(h) => {
                let end = ALE_HEADER_SIZE + announced(h);
                if s.len() < end {
                    assert(parse(t).frames =~= parse(t).after(Seq::empty()).frames);
                } else {
                    let f = FrameView {
                        header: h,
                        user_data: s.subrange(ALE_HEADER_SIZE as int, end),
                    };
                    let tail = s.skip(end);
                    assert(t.subrange(ALE_HEADER_SIZE as int, end) =~= f.user_data);
                    assert(t.skip(end) =~= tail + more);
                    parse_continues(tail, more);
                    if parse(s).error is None {
                        let last = parse(parse(tail).rest + more);
                        assert(last.after(parse(tail).frames).after(seq![f]).frames =~= last.after(
                            parse(s).frames,
                        ).frames);
                    }
                }
            },
        }
    }
}

/// What stays behind a read stream is the beginning of a frame, or the header that was refused.
pub proof fn rest_is_waiting_or_refused(s: Seq<u8>)
    ensures
        parse(s).error is None ==> waiting(parse(s).rest),
        parse(s).error matches Some(e) ==> refused(parse(s).rest) && opened(parse(s).rest) == Err::<
            AleHeader,
            AleError,
        >(e),
    decreases s.len(),
{
    if s.len() >= ALE_HEADER_SIZE {
        let head = s.take(ALE_HEADER_SIZE as int);
        if let Ok(h) = opened(head) {
            let end = ALE_HEADER_SIZE + announced(h);
            if s.len() >= end {
                rest_is_waiting_or_refused(s.skip(end));
            }
        } else {
            assert(head.take(ALE_HEADER_SIZE as int) =~= head);
        }
    }
}

/// A refused header answers every further data with the refusal, and stays.
pub proof fn refusal_is_final(pending: Seq<u8>, data: Seq<u8>)
    requires
        refused(pending),
        data.len() > 0,
    ensures
        fed(pending, data) == (Parsed {
            frames: Seq::empty(),
            rest: pending,
            error: Some(opened(pending)->Err_0),
        }),
{
    assert((pending + data).take(ALE_HEADER_SIZE as int) =~= pending);
}

/// The chunks of a stream, joined.
pub open spec fn joined(chunks: Seq<Seq<u8>>) -> Seq<u8>
    decreases chunks.len(),
{
    if chunks.len() == 0 {
        Seq::empty()
    } else {
        chunks[0] + joined(chunks.drop_first())
    }
}

/// What is delivered when chunks are fed one by one until one is refused: a refused chunk delivers
/// nothing.
pub open spec fn run(pending: Seq<u8>, chunks: Seq<Seq<u8>>) -> Parsed
    decreases chunks.len(),
{
    if chunks.len() == 0 {
        Parsed { frames: Seq::empty(), rest: pending, error: None }
    } else {
        let first = fed(pending, chunks[0]);
        if first.error is Some {
            Parsed { frames: Seq::empty(), ..first }
        } else {
            run(first.rest, chunks.drop_first()).after(first.frames)
        }
    }
}

/// Feeding one chunk more, after chunks of which none was refused, adds what that chunk completes.
pub proof fn one_more_chunk(pending: Seq<u8>, chunks: Seq<Seq<u8>>, chunk: Seq<u8>)
    requires
        run(pending, chunks).error is None,
    ensures
        ({
            let before = run(pending, chunks);
            let step = fed(before.rest, chunk);
            run(pending, chunks.push(chunk)) == (Parsed {
                frames: if step.error is None {
                    before.frames + step.frames
                } else {
                    before.frames
                },
                rest: step.rest,
                error: step.error,
            })
        }),
    decreases chunks.len(),
{
    let all = chunks.push(chunk);
    let first = fed(pending, all[0]);
    let others = all.drop_first();
    reveal_with_fuel(run, 2);
    if chunks.len() == 0 {
        assert(others =~= Seq::<Seq<u8>>::empty());
    } else {
        assert(others =~= chunks.drop_first().push(chunk));
        one_more_chunk(first.rest, chunks.drop_first(), chunk);
    }
    assert(run(pending, all).frames =~= if fed(run(pending, chunks).rest, chunk).error is None {
        run(pending, chunks).frames + fed(run(pending, chunks).rest, chunk).frames
    } else {
        run(pending, chunks).frames
    });
}

/// How a stream is cut into chunks does not matter: an accepted stream delivers the same frames
/// and leaves the same octets over as it does in one piece; a refused one is refused with the same
/// error at the same header, having delivered some of the frames ahead of it and no others.
pub proof fn chunking_is_irrelevant(pending: Seq<u8>, chunks: Seq<Seq<u8>>)
    requires
        waiting(pending),
    ensures
        run(pending, chunks).error == parse(pending + joined(chunks)).error,
        run(pending, chunks).rest == parse(pending + joined(chunks)).rest,
        run(pending, chunks).frames.is_prefix_of(parse(pending + joined(chunks)).frames),
        run(pending, chunks).error is None ==> run(pending, chunks) == parse(
            pending + joined(chunks),
        ),
    decreases chunks.len(),
{
    let whole = parse(pending + joined(chunks));
    if chunks.len() == 0 {
        assert(pending + joined(chunks) =~= pending);
    } else {
        let first = fed(pending, chunks[0]);
        let others = chunks.drop_first();
        assert(pending + chunks[0] + joined(others) =~= pending + joined(chunks));
        if chunks[0].len() == 0 {
            assert(pending + chunks[0] =~= pending);
        }
        assert(first == parse(pending + chunks[0]));
        parse_continues(pending + chunks[0], joined(others));
        if first.error is None {
            rest_is_waiting_or_refused(pending + chunks[0]);
            chunking_is_irrelevant(first.rest, others);
            let tail = parse(first.rest + joined(others));
            let got = run(first.rest, others);
            assert(whole == tail.after(first.frames));
            assert(got.frames.is_prefix_of(tail.frames));
            assert((first.frames + got.frames).is_prefix_of(first.frames + tail.frames)) by {
                assert(first.frames + got.frames =~= (first.frames + tail.frames).subrange(
                    0,
                    (first.frames + got.frames).len() as int,
                ));
            }
        }
    }
}

// ------------------------------------------------------------------------ round trip

/// A valid frame at the head of a stream is read as that frame, and reading goes on behind it.
pub proof fn valid_frame_is_read(f: FrameView, rest: Seq<u8>)
    requires
        f.valid(),
    ensures
        parse(f.wire() + rest) == parse(rest).after(seq![f]),
{
    let s = f.wire() + rest;
    frame::wire_length(f);
    header::wire_holds_fields(f.header);
    header::decode_of_encode(f.header);
    assert(s.take(ALE_HEADER_SIZE as int) =~= f.header.wire());
    let end = ALE_HEADER_SIZE + announced(f.header);
    assert(s.subrange(ALE_HEADER_SIZE as int, end) =~= f.user_data);
    assert(s.skip(end) =~= rest);
}

proof fn lemma_concat_assoc(a: Seq<u8>, b: Seq<u8>, c: Seq<u8>)
    ensures
        a + b + c == a + (b + c),
{
    assert(a + b + c =~= a + (b + c));
}

/// The frames behind the first of valid frames are valid.
proof fn lemma_others_valid(frames: Seq<FrameView>)
    requires
        frame::all_valid(frames),
        frames.len() > 0,
    ensures
        frame::all_valid(frames.drop_first()),
        frames[0].valid(),
{
    let others = frames.drop_first();
    assert forall|i: int| 0 <= i < others.len() implies (#[trigger] others[i]).valid() by {
        assert(others[i] == frames[i + 1]);
    }
}

/// Putting frames ahead of an outcome one after the other.
proof fn lemma_after_twice(tail: Parsed, frames: Seq<FrameView>)
    requires
        frames.len() > 0,
    ensures
        tail.after(frames.drop_first()).after(seq![frames[0]]) == tail.after(frames),
{
    assert(tail.after(frames.drop_first()).after(seq![frames[0]]).frames =~= tail.after(
        frames,
    ).frames);
}

/// Valid frames put on the wire are read back, all of them, in order and with nothing left over
/// but what follows them.
pub proof fn frames_read_back(frames: Seq<FrameView>, rest: Seq<u8>)
    requires
        frame::all_valid(frames),
    ensures
        parse(frame::wire_all(frames) + rest) == parse(rest).after(frames),
    decreases frames.len(),
{
    if frames.len() == 0 {
        assert(frame::wire_all(frames) + rest =~= rest);
        assert(parse(rest).after(frames).frames =~= parse(rest).frames);
    } else {
        let f = frames[0];
        let others = frames.drop_first();
        lemma_others_valid(frames);
        frames_read_back(others, rest);
        lemma_concat_assoc(f.wire(), frame::wire_all(others), rest);
        valid_frame_is_read(f, frame::wire_all(others) + rest);
        lemma_after_twice(parse(rest), frames);
    }
}

/// A stream of valid frames that is cut off anywhere is not refused, and delivers frames of that
/// stream, from its first on.
pub proof fn cut_stream_is_accepted(frames: Seq<FrameView>, s: Seq<u8>)
    requires
        frame::all_valid(frames),
        s.is_prefix_of(frame::wire_all(frames)),
    ensures
        parse(s).error is None,
        parse(s).frames.is_prefix_of(frames),
{
    let all = frame::wire_all(frames);
    let more = all.skip(s.len() as int);
    assert(s + more =~= all);
    assert(all + Seq::<u8>::empty() =~= all);
    frames_read_back(frames, Seq::empty());
    parse_continues(s, more);
    let tail = parse(parse(s).rest + more);
    assert(parse(all).frames =~= frames);
    if parse(s).error is None {
        assert(parse(s).frames =~= (parse(s).frames + tail.frames).subrange(
            0,
            parse(s).frames.len() as int,
        ));
    }
}

/// A header that is refused, for its checksum, its type or its length, ends the stream: the frames
/// ahead of it are read, the header stays, and what follows it is not looked at.
pub proof fn refused_header_ends_stream(frames: Seq<FrameView>, head: Seq<u8>, rest: Seq<u8>)
    requires
        frame::all_valid(frames),
        refused(head),
    ensures
        parse(frame::wire_all(frames) + (head + rest)) == (Parsed {
            frames,
            rest: head,
            error: Some(opened(head)->Err_0),
        }),
{
    frames_read_back(frames, head + rest);
    assert((head + rest).take(ALE_HEADER_SIZE as int) =~= head);
    assert(parse(head + rest).after(frames).frames =~= frames);
}

/// Every frame that a stream delivers is valid, and the delivered frames, put on the wire again,
/// are the octets that they were read from.
pub proof fn delivered_frames_are_valid(s: Seq<u8>)
    ensures
        frame::all_valid(parse(s).frames),
        (frame::wire_all(parse(s).frames) + parse(s).rest).is_prefix_of(s),
        parse(s).error is None ==> frame::wire_all(parse(s).frames) + parse(s).rest == s,
    decreases s.len(),
{
    let out = parse(s);
    if s.len() < ALE_HEADER_SIZE {
        assert(frame::wire_all(out.frames) + out.rest =~= s);
    } else {
        let head = s.take(ALE_HEADER_SIZE as int);
        match opened(head) {
            Err(_) => {
                assert(frame::wire_all(out.frames) + out.rest =~= head);
            },
            Ok(h) => {
                let end = ALE_HEADER_SIZE + announced(h);
                if s.len() < end {
                    assert(frame::wire_all(out.frames) + out.rest =~= s);
                } else {
                    let f = FrameView {
                        header: h,
                        user_data: s.subrange(ALE_HEADER_SIZE as int, end),
                    };
                    let tail = s.skip(end);
                    delivered_frames_are_valid(tail);
                    header::encode_of_decode(head);
                    assert(f.valid());
                    let inner = parse(tail);
                    assert(out.frames.drop_first() =~= inner.frames);
                    assert(f.wire() =~= s.take(end));
                    assert(frame::wire_all(out.frames) + out.rest =~= f.wire() + (frame::wire_all(
                        inner.frames,
                    ) + inner.rest));
                    assert(s =~= f.wire() + tail);
                    assert forall|i: int| 0 <= i < out.frames.len() implies (
                    #[trigger] out.frames[i]).valid() by {
                        if i > 0 {
                            assert(out.frames[i] == inner.frames[i - 1]);
                        }
                    }
                    let got = frame::wire_all(out.frames) + out.rest;
                    assert(got =~= s.subrange(0, got.len() as int));
                }
            },
        }
    }
}

// ------------------------------------------------------------------- octet by octet

/// How many octets of a stream lie ahead of the i-th of its frames: each frame takes its length
/// field and as many octets as that field says.
pub open spec fn offset(frames: Seq<FrameView>, i: int) -> int
    decreases i,
{
    if i <= 0 {
        0
    } else {
        offset(frames, i - 1) + 2 + frames[i - 1].header.packet_length
    }
}

/// `f` lies in `s` at `o`.
spec fn lies_at(s: Seq<u8>, o: int, f: FrameView) -> bool {
    &&& 0 <= o
    &&& o + 10 + f.user_data.len() <= s.len()
    &&& f.header.packet_length == s[o] * 256 + s[o + 1]
    &&& f.header.version == s[o + 2]
    &&& f.header.app_type == s[o + 3]
    &&& f.header.t_sequence == s[o + 4] * 256 + s[o + 5]
    &&& f.header.nr_flag == s[o + 6]
    &&& f.header.packet_type == s[o + 7]
    &&& f.header.checksum == s[o + 8] * 256 + s[o + 9]
    &&& f.header.checksum == crc::crc_of(s.subrange(o, o + 8))
    &&& 1 <= f.header.packet_type <= 4
    &&& f.header.packet_length == 8 + f.user_data.len()
    &&& f.user_data.len() <= 65000
    &&& f.user_data == s.subrange(o + 10, o + 10 + f.user_data.len())
}

/// The verdict on ten octets, or on more that begin with them.
spec fn verdict(t: Seq<u8>) -> Option<AleError> {
    let n = t[0] * 256 + t[1];
    if crc::crc_of(t.take(8)) != t[8] * 256 + t[9] {
        Some(
            AleError::ChecksumMismatch {
                expected: crc::crc_of(t.take(8)),
                got: (t[8] * 256 + t[9]) as u16,
            },
        )
    } else if !(1 <= t[7] <= 4) {
        Some(AleError::InvalidPacketType(t[7]))
    } else if n < 8 {
        Some(AleError::InvalidPacketLength(n as u16))
    } else if n > 65008 {
        Some(AleError::PayloadTooLarge((n - 8) as usize))
    } else {
        None
    }
}

proof fn lemma_verdict(t: Seq<u8>)
    requires
        t.len() >= 10,
    ensures
        match opened(t.take(10)) {
            Ok(h) => verdict(t) is None && h == AleHeader::fields(t),
            Err(e) => verdict(t) == Some(e),
        },
{
    let head = t.take(10);
    header::decoded_header_layout(head);
    assert(head.take(8) =~= t.take(8));
    assert(AleHeader::fields(head) == AleHeader::fields(t));
}

/// The offsets of frames behind one more frame.
proof fn lemma_offset_behind(f: FrameView, frames: Seq<FrameView>, i: int)
    requires
        0 <= i <= frames.len(),
    ensures
        offset(seq![f] + frames, i + 1) == 2 + f.header.packet_length + offset(frames, i),
    decreases i,
{
    reveal_with_fuel(offset, 2);
    if i > 0 {
        lemma_offset_behind(f, frames, i - 1);
    }
}

/// A frame that lies in the tail of a stream lies in the stream.
proof fn lemma_lies_behind(s: Seq<u8>, end: int, o: int, f: FrameView)
    requires
        0 <= end <= s.len(),
        lies_at(s.skip(end), o, f),
    ensures
        lies_at(s, end + o, f),
{
    let t = s.skip(end);
    assert(t.subrange(o, o + 8) =~= s.subrange(end + o, end + o + 8));
    assert(t.subrange(o + 10, o + 10 + f.user_data.len()) =~= s.subrange(
        end + o + 10,
        end + o + 10 + f.user_data.len(),
    ));
}

/// The first frame of a stream lies at its start.
proof fn lemma_first_frame_lies(s: Seq<u8>)
    requires
        s.len() >= 10,
        opened(s.take(10)) is Ok,
        s.len() >= 10 + announced(opened(s.take(10))->Ok_0),
    ensures
        ({
            let h = opened(s.take(10))->Ok_0;
            lies_at(
                s,
                0,
                FrameView { header: h, user_data: s.subrange(10, 10 + announced(h)) },
            )
        }),
{
    lemma_verdict(s);
    assert(s.subrange(0, 8) =~= s.take(8));
}

/// Frames that lie in the tail of a stream, behind a frame at its start, lie in the stream.
proof fn lemma_all_lie(s: Seq<u8>, f: FrameView, inner: Seq<FrameView>, end: int, i: int)
    requires
        end == 2 + f.header.packet_length,
        0 <= end <= s.len(),
        lies_at(s, 0, f),
        0 <= i <= inner.len(),
        i > 0 ==> lies_at(s.skip(end), offset(inner, i - 1), inner[i - 1]),
    ensures
        lies_at(s, offset(seq![f] + inner, i), (seq![f] + inner)[i]),
{
    if i > 0 {
        lemma_offset_behind(f, inner, i - 1);
        lemma_lies_behind(s, end, offset(inner, i - 1), inner[i - 1]);
    }
}

/// Reading goes on behind the first frame of a stream.
proof fn lemma_first_frame_read(s: Seq<u8>)
    requires
        s.len() >= 10,
        opened(s.take(10)) is Ok,
        s.len() >= 10 + announced(opened(s.take(10))->Ok_0),
    ensures
        ({
            let h = opened(s.take(10))->Ok_0;
            let end = 10 + announced(h);
            let f = FrameView { header: h, user_data: s.subrange(10, end) };
            &&& 10 <= end == 2 + h.packet_length
            &&& parse(s).frames == seq![f] + parse(s.skip(end)).frames
            &&& parse(s).rest == parse(s.skip(end)).rest
            &&& parse(s).error == parse(s.skip(end)).error
        }),
{
}

/// All delivered frames lie where the frames ahead of them end.
proof fn lemma_frames_lie(s: Seq<u8>, i: int)
    requires
        0 <= i < parse(s).frames.len(),
    ensures
        lies_at(s, offset(parse(s).frames, i), parse(s).frames[i]),
    decreases s.len(),
{
    let h = opened(s.take(10))->Ok_0;
    let end = 10 + announced(h);
    let f = FrameView { header: h, user_data: s.subrange(10, end) };
    let inner = parse(s.skip(end)).frames;
    lemma_first_frame_read(s);
    lemma_first_frame_lies(s);
    if i > 0 {
        lemma_frames_lie(s.skip(end), i - 1);
    }
    lemma_all_lie(s, f, inner, end, i);
}

/// `out` ends as reading `t` does when no frame is left to deliver.
spec fn ends_at(t: Seq<u8>, out: Parsed) -> bool {
    match out.error {
        None => {
            &&& out.rest == t
            &&& t.len() >= 10 ==> verdict(t) is None && t.len() < 2 + t[0] * 256 + t[1]
        },
        Some(err) => t.len() >= 10 && out.rest == t.take(10) && verdict(t) == Some(err),
    }
}

/// Reading ends behind the delivered frames.
proof fn lemma_stream_end(s: Seq<u8>)
    ensures
        ({
            let e = offset(parse(s).frames, parse(s).frames.len() as int);
            0 <= e <= s.len() && ends_at(s.skip(e), parse(s))
        }),
    decreases s.len(),
{
    if parse(s).frames.len() == 0 {
        assert(s.skip(0) =~= s);
        if s.len() >= 10 {
            lemma_verdict(s);
            if opened(s.take(10)) is Ok && s.len() >= 10 + announced(opened(s.take(10))->Ok_0) {
                lemma_first_frame_read(s);
            }
        }
    } else {
        let h = opened(s.take(10))->Ok_0;
        let end = 10 + announced(h);
        let f = FrameView { header: h, user_data: s.subrange(10, end) };
        let inner = parse(s.skip(end)).frames;
        lemma_first_frame_read(s);
        lemma_stream_end(s.skip(end));
        lemma_offset_behind(f, inner, inner.len() as int);
        let e = offset(inner, inner.len() as int);
        assert(s.skip(end).skip(e) =~= s.skip(end + e));
    }
}

/// Where the delivered frames lie in a stream. The i-th frame begins where the frames ahead of it
/// end; its fields and its user data are the octets there, its checksum is that of its first eight
/// octets, its type is 1, 2, 3 or 4, its length field is 8 more than the size of its user data, and
/// that is 65000 at most.
pub proof fn delivered_frames_layout(s: Seq<u8>, i: int)
    requires
        0 <= i < parse(s).frames.len(),
    ensures
        ({
            let f = parse(s).frames[i];
            let o = offset(parse(s).frames, i);
            &&& 0 <= o
            &&& o + 10 + f.user_data.len() <= s.len()
            &&& f.header.packet_length == s[o] * 256 + s[o + 1]
            &&& f.header.version == s[o + 2]
            &&& f.header.app_type == s[o + 3]
            &&& f.header.t_sequence == s[o + 4] * 256 + s[o + 5]
            &&& f.header.nr_flag == s[o + 6]
            &&& f.header.packet_type == s[o + 7]
            &&& f.header.checksum == s[o + 8] * 256 + s[o + 9]
            &&& f.header.checksum == crc::crc_of(s.subrange(o, o + 8))
            &&& 1 <= f.header.packet_type <= 4
            &&& f.header.packet_length == 8 + f.user_data.len()
            &&& f.user_data.len() <= 65000
            &&& f.user_data == s.subrange(o + 10, o + 10 + f.user_data.len())
        }),
{
    lemma_frames_lie(s, i);
}

/// What lies behind the delivered frames of a stream that is not refused is kept, all of it, and is
/// no frame yet: less than a header, or a right one whose user data is not all there.
pub proof fn kept_octets_layout(s: Seq<u8>)
    requires
        parse(s).error is None,
    ensures
        ({
            let t = parse(s).rest;
            let e = offset(parse(s).frames, parse(s).frames.len() as int);
            &&& 0 <= e <= s.len()
            &&& t == s.subrange(e, s.len() as int)
            &&& t.len() >= 10 ==> {
                &&& crc::crc_of(t.take(8)) == t[8] * 256 + t[9]
                &&& 1 <= t[7] <= 4
                &&& 8 <= t[0] * 256 + t[1] <= 65008
                &&& t.len() < 2 + t[0] * 256 + t[1]
            }
        }),
{
    lemma_stream_end(s);
    let e = offset(parse(s).frames, parse(s).frames.len() as int);
    assert(s.skip(e) =~= s.subrange(e, s.len() as int));
}

/// What a refused stream is refused for: the ten octets behind the delivered frames, which are kept.
/// Their checksum is judged first, then their type, then their length field.
pub proof fn refused_octets_layout(s: Seq<u8>)
    requires
        parse(s).error is Some,
    ensures
        ({
            let t = parse(s).rest;
            let e = offset(parse(s).frames, parse(s).frames.len() as int);
            let n = t[0] * 256 + t[1];
            let right_sum = crc::crc_of(t.take(8)) == t[8] * 256 + t[9];
            let right_type = 1 <= t[7] <= 4;
            &&& 0 <= e
            &&& e + 10 <= s.len()
            &&& t == s.subrange(e, e + 10)
            &&& !right_sum ==> parse(s).error == Some(
                AleError::ChecksumMismatch {
                    expected: crc::crc_of(t.take(8)),
                    got: (t[8] * 256 + t[9]) as u16,
                },
            )
            &&& right_sum && !right_type ==> parse(s).error == Some(
                AleError::InvalidPacketType(t[7]),
            )
            &&& right_sum && right_type ==> {
                ||| n < 8 && parse(s).error == Some(AleError::InvalidPacketLength(n as u16))
                ||| n > 65008 && parse(s).error == Some(AleError::PayloadTooLarge((n - 8) as usize))
            }
        }),
{
    lemma_stream_end(s);
    let e = offset(parse(s).frames, parse(s).frames.len() as int);
    let t = s.skip(e);
    assert(t.take(10) =~= s.subrange(e, e + 10));
    assert(t.take(10).take(8) =~= t.take(8));
}

/// Data is read together with the octets kept before it; without data nothing is read and nothing
/// changes.
pub proof fn data_is_read_behind_kept_octets(pending: Seq<u8>, data: Seq<u8>)
    ensures
        data.len() > 0 ==> fed(pending, data) == parse(pending + data),
        data.len() == 0 ==> fed(pending, data).frames.len() == 0 && fed(pending, data).rest
            == pending && fed(pending, data).error is None,
{
}

} // verus!
