//! Streaming reassembly of ALEPKTs.
use crate::consts::{ALE_CHECKSUM_COVERED_SIZE, ALE_HEADER_SIZE, ALE_MAX_USER_DATA};
use crate::crc;
use crate::error::AleError;
use crate::frame;
use crate::frame::{AleFrame, FrameView};
use crate::header::AleHeader;
use crate::stream;
use crate::stream::Parsed;
use vstd::prelude::*;

verus! {

/// What the octets that come next belong to.
enum AleReadState {
    /// Accumulating the 10-octet header.
    ReadingHeader,
    /// Header complete, accumulating user data payload.
    ReadingPayload { header: AleHeader },
}

/// Streaming ALEPKT reader that reassembles frames from TCP byte chunks.
///
/// TCP provides a byte stream with no message boundaries. The reader handles arbitrary chunking
/// (partial headers, partial payloads, multiple frames in a single chunk). Its view is the octets
/// that it keeps from earlier chunks: the beginning of a frame, or a header that it refused.
pub struct AleFrameReader {
    state: AleReadState,
    header_buf: [u8; ALE_HEADER_SIZE],
    header_pos: usize,
    payload_buf: Vec<u8>,
    payload_pos: usize,
    expected_payload_len: usize,
}

impl View for AleFrameReader {
    type V = Seq<u8>;

    closed spec fn view(&self) -> Seq<u8> {
        match self.state {
            AleReadState::ReadingHeader => self.header_buf@.take(self.header_pos as int),
            AleReadState::ReadingPayload { .. } => self.header_buf@ + self.payload_buf@.take(
                self.payload_pos as int,
            ),
        }
    }
}

/// Copy `n` octets of `src` from `from` on to `dst` from `at` on.
fn copy_octets(dst: &mut [u8], at: usize, src: &[u8], from: usize, n: usize)
    requires
        at + n <= old(dst).len(),
        from + n <= src.len(),
    ensures
        final(dst)@ == old(dst)@.take(at as int) + src@.subrange(from as int, from + n) + old(
            dst,
        )@.skip(at + n),
{
    let mut i: usize = 0;
    while i < n
        invariant
            i <= n,
            at + n <= dst.len(),
            dst.len() == old(dst).len(),
            from + n <= src.len(),
            dst@ == old(dst)@.take(at as int) + src@.subrange(from as int, from + i) + old(
                dst,
            )@.skip(at + i),
        decreases n - i,
    {
        dst[at + i] = src[from + i];
        i = i + 1;
        assert(dst@ =~= old(dst)@.take(at as int) + src@.subrange(from as int, from + i) + old(
            dst,
        )@.skip(at + i));
    }
}

/// Decode a complete header and judge the length that it announces.
fn open_header(buf: &[u8; ALE_HEADER_SIZE]) -> (r: Result<AleHeader, AleError>)
    ensures
        r == stream::opened(buf@),
        r matches Ok(h) ==> ALE_CHECKSUM_COVERED_SIZE <= h.packet_length,
{
    let header = match AleHeader::decode(buf) {
        Ok(header) => header,
        Err(e) => return Err(e),
    };
    if (header.packet_length as usize) < ALE_CHECKSUM_COVERED_SIZE {
        return Err(AleError::InvalidPacketLength(header.packet_length));
    }
    let payload_len: usize = header.packet_length as usize - ALE_CHECKSUM_COVERED_SIZE;
    if payload_len > ALE_MAX_USER_DATA {
        return Err(AleError::PayloadTooLarge(payload_len));
    }
    Ok(header)
}

impl AleFrameReader {
    /// The fields agree with each other: a header that is complete but not followed up is one that
    /// is refused, and user data is awaited only behind an accepted header and until complete.
    pub closed spec fn wf(&self) -> bool {
        match self.state {
            AleReadState::ReadingHeader => {
                &&& self.header_pos <= ALE_HEADER_SIZE
                &&& self.header_pos == ALE_HEADER_SIZE ==> stream::refused(self.header_buf@)
            },
            AleReadState::ReadingPayload { header } => {
                &&& self.header_pos == ALE_HEADER_SIZE
                &&& stream::opened(self.header_buf@) == Ok::<AleHeader, AleError>(header)
                &&& self.expected_payload_len == stream::announced(header)
                &&& self.payload_buf@.len() == self.expected_payload_len
                &&& self.payload_pos < self.expected_payload_len
            },
        }
    }

    /// A reader at the start of a stream.
    pub fn new() -> (r: Self)
        ensures
            r.wf(),
            r@ == Seq::<u8>::empty(),
    {
        let r = AleFrameReader {
            state: AleReadState::ReadingHeader,
            header_buf: [0u8; ALE_HEADER_SIZE],
            header_pos: 0,
            payload_buf: Vec::new(),
            payload_pos: 0,
            expected_payload_len: 0,
        };
        assert(r@ =~= Seq::<u8>::empty());
        r
    }

    /// How many octets of a header are kept.
    pub fn header_pos(&self) -> (n: usize)
        requires
            self.wf(),
        ensures
            n == if self@.len() < ALE_HEADER_SIZE { self@.len() } else { ALE_HEADER_SIZE as nat },
    {
        self.header_pos
    }

    /// What a reader keeps between two chunks is the beginning of a frame, or a header that it
    /// refuses: never a complete frame that it has not delivered.
    pub proof fn keeps_waiting_or_refused(&self)
        requires
            self.wf(),
        ensures
            stream::waiting(self@) || stream::refused(self@),
    {
        match self.state {
            AleReadState::ReadingHeader => {
                if self.header_pos == ALE_HEADER_SIZE {
                    assert(self@ =~= self.header_buf@);
                }
            },
            AleReadState::ReadingPayload { .. } => {
                assert(self@.take(ALE_HEADER_SIZE as int) =~= self.header_buf@);
            },
        }
    }

    /// Take octets of `data` from `pos` on into the header, as many as it lacks.
    fn fill_header(&mut self, data: &[u8], pos: usize) -> (next: usize)
        requires
            old(self).wf(),
            old(self).state is ReadingHeader,
            pos < data.len(),
        ensures
            final(self).state is ReadingHeader,
            pos <= next <= data.len(),
            final(self).header_pos == old(self).header_pos + (next - pos),
            final(self).header_pos <= ALE_HEADER_SIZE,
            final(self)@ == old(self)@ + data@.subrange(pos as int, next as int),
            next == pos ==> final(self).header_pos == ALE_HEADER_SIZE && stream::refused(
                final(self).header_buf@,
            ),
    {
        let need: usize = ALE_HEADER_SIZE - self.header_pos;
        let avail: usize = data.len() - pos;
        let n: usize = if need < avail {
            need
        } else {
            avail
        };
        let at: usize = self.header_pos;
        copy_octets(&mut self.header_buf, at, data, pos, n);
        self.header_pos = at + n;
        proof {
            assert(self@ =~= old(self)@ + data@.subrange(pos as int, pos + n));
            if n == 0 {
                assert(self.header_buf@ =~= old(self).header_buf@);
            }
        }
        pos + n
    }

    /// Judge the complete header: deliver its frame if no user data follows, await the user data
    /// otherwise.
    fn accept_header(&mut self, frames: &mut Vec<AleFrame>) -> (r: Result<(), AleError>)
        requires
            old(self).state is ReadingHeader,
            old(self).header_pos == ALE_HEADER_SIZE,
        ensures
            match stream::opened(old(self).header_buf@) {
                Err(e) => {
                    &&& r == Err::<(), AleError>(e)
                    &&& *final(self) == *old(self)
                },
                Ok(h) => {
                    &&& r is Ok
                    &&& final(self).wf()
                    &&& if stream::announced(h) == 0 {
                        &&& final(self)@ == Seq::<u8>::empty()
                        &&& final(frames)@.len() == old(frames)@.len() + 1
                        &&& final(frames)@.drop_last() == old(frames)@
                        &&& final(frames)@.last()@ == (FrameView {
                            header: h,
                            user_data: Seq::empty(),
                        })
                    } else {
                        &&& final(self)@ == old(self).header_buf@
                        &&& final(frames)@ == old(frames)@
                    }
                },
            },
    {
        let header = match open_header(&self.header_buf) {
            Ok(header) => header,
            Err(e) => return Err(e),
        };
        let payload_len: usize = header.packet_length as usize - ALE_CHECKSUM_COVERED_SIZE;
        if payload_len == 0 {
            frames.push(AleFrame { header, user_data: Vec::new() });
            self.header_pos = 0;
            assert(self@ =~= Seq::<u8>::empty());
            assert(frames@.last()@.user_data =~= Seq::<u8>::empty());
            assert(frames@.drop_last() =~= old(frames)@);
        } else {
            self.payload_buf.resize(payload_len, 0);
            self.payload_pos = 0;
            self.expected_payload_len = payload_len;
            self.state = AleReadState::ReadingPayload { header };
            assert(self@ =~= old(self).header_buf@);
        }
        Ok(())
    }

    /// Take octets of `data` from `pos` on into the header, and judge it once it is complete.
    fn read_header(&mut self, data: &[u8], pos: usize, frames: &mut Vec<AleFrame>) -> (r: Result<
        usize,
        AleError,
    >)
        requires
            old(self).wf(),
            old(self).state is ReadingHeader,
            pos < data.len(),
        ensures
            final(self).wf(),
            step_agrees(
                old(self)@,
                frame::views(old(frames)@),
                data@,
                pos as int,
                final(self)@,
                frame::views(final(frames)@),
                r,
            ),
    {
        let next: usize = self.fill_header(data, pos);
        let ghost head = self.header_buf@;
        let ghost rest = data@.skip(next as int);
        let ghost filled = self@;
        assert(old(self)@ + data@.skip(pos as int) =~= filled + rest);
        if self.header_pos == ALE_HEADER_SIZE {
            assert(filled =~= head);
            match self.accept_header(frames) {
                Ok(()) => {
                    proof {
                        if stream::announced(stream::opened(head)->Ok_0) == 0 {
                            let f = frames@.last();
                            assert(head + f@.user_data + rest =~= head + rest);
                            stream::complete_frame_is_read(head, f@.user_data, rest);
                            assert(self@ + rest =~= rest);
                            assert(frames@ =~= old(frames)@.push(f));
                            lemma_delivered(stream::parse(rest), old(frames)@, f);
                        }
                    }
                },
                Err(e) => {
                    proof {
                        assert((head + rest).take(ALE_HEADER_SIZE as int) =~= head);
                    }
                    return Err(e);
                },
            }
        }
        Ok(next)
    }

    /// Take octets of `data` from `pos` on into the user data, and deliver the frame once it is
    /// complete.
    fn read_payload(&mut self, data: &[u8], pos: usize, frames: &mut Vec<AleFrame>) -> (next: usize)
        requires
            old(self).wf(),
            old(self).state is ReadingPayload,
            pos < data.len(),
        ensures
            final(self).wf(),
            step_agrees(
                old(self)@,
                frame::views(old(frames)@),
                data@,
                pos as int,
                final(self)@,
                frame::views(final(frames)@),
                Ok(next),
            ),
    {
        let need: usize = self.expected_payload_len - self.payload_pos;
        let avail: usize = data.len() - pos;
        let n: usize = if need < avail {
            need
        } else {
            avail
        };
        let at: usize = self.payload_pos;
        copy_octets(self.payload_buf.as_mut_slice(), at, data, pos, n);
        self.payload_pos = at + n;
        let next: usize = pos + n;
        let ghost rest = data@.skip(next as int);
        let ghost head = self.header_buf@;
        proof {
            assert(self@ =~= old(self)@ + data@.subrange(pos as int, next as int));
            assert(old(self)@ + data@.skip(pos as int) =~= self@ + rest);
        }
        if self.payload_pos == self.expected_payload_len {
            if let AleReadState::ReadingPayload { header } = &self.state {
                let frame = AleFrame {
                    header: header.clone(),
                    user_data: vstd::slice::slice_to_vec(self.payload_buf.as_slice()),
                };
                let ghost f = frame@;
                proof {
                    assert(self@ =~= head + f.user_data);
                    stream::complete_frame_is_read(head, f.user_data, rest);
                }
                frames.push(frame);
                self.state = AleReadState::ReadingHeader;
                self.header_pos = 0;
                self.payload_pos = 0;
                proof {
                    assert(self@ + rest =~= rest);
                    lemma_delivered(stream::parse(rest), old(frames)@, frame);
                }
            }
        }
        next
    }

    /// Feed raw bytes from the TCP stream and return any completed ALE frames.
    ///
    /// Returns `Ok(frames)` for successfully parsed frames, or `Err` if a checksum mismatch or
    /// invalid packet is detected (caller should disconnect).
    pub fn feed(&mut self, data: &[u8]) -> (r: Result<Vec<AleFrame>, AleError>)
        requires
            old(self).wf(),
        ensures
            final(self).wf(),
            final(self)@ == stream::fed(old(self)@, data@).rest,
            match stream::fed(old(self)@, data@).error {
                None => r matches Ok(frames) && frame::views(frames@) == stream::fed(
                    old(self)@,
                    data@,
                ).frames,
                Some(e) => r == Err::<Vec<AleFrame>, AleError>(e),
            },
            r matches Ok(frames) ==> forall|i: int|
                #![trigger frames@[i]]
                0 <= i < frames@.len() ==> {
                    let s = old(self)@ + data@;
                    let o = octets_ahead(frames@, i);
                    let h = frames@[i].header;
                    let n = frames@[i].user_data@.len();
                    &&& 0 <= o
                    &&& o + 10 + n <= s.len()
                    &&& h.packet_length == s[o] * 256 + s[o + 1]
                    &&& h.version == s[o + 2]
                    &&& h.app_type == s[o + 3]
                    &&& h.t_sequence == s[o + 4] * 256 + s[o + 5]
                    &&& h.nr_flag == s[o + 6]
                    &&& h.packet_type == s[o + 7]
                    &&& h.checksum == s[o + 8] * 256 + s[o + 9]
                    &&& h.checksum == crc::crc_of(s.subrange(o, o + 8))
                    &&& 1 <= h.packet_type <= 4
                    &&& h.packet_length == 8 + n
                    &&& n <= 65000
                    &&& frames@[i].user_data@ == s.subrange(o + 10, o + 10 + n)
                },
            r matches Ok(frames) ==> final(self)@ == (old(self)@ + data@).skip(
                octets_ahead(frames@, frames@.len() as int),
            ),
            r is Ok && data@.len() > 0 ==> {
                let t = final(self)@;
                t.len() >= 10 ==> {
                    &&& crc::crc_of(t.take(8)) == t[8] * 256 + t[9]
                    &&& 1 <= t[7] <= 4
                    &&& 8 <= t[0] * 256 + t[1] <= 65008
                    &&& t.len() < 2 + t[0] * 256 + t[1]
                }
            },
            r matches Err(e) ==> {
                let t = final(self)@;
                let n = t[0] * 256 + t[1];
                let right_sum = crc::crc_of(t.take(8)) == t[8] * 256 + t[9];
                let right_type = 1 <= t[7] <= 4;
                &&& t.len() == 10
                &&& data@.len() > 0
                &&& !right_sum ==> e == (AleError::ChecksumMismatch {
                    expected: crc::crc_of(t.take(8)),
                    got: (t[8] * 256 + t[9]) as u16,
                })
                &&& right_sum && !right_type ==> e == AleError::InvalidPacketType(t[7])
                &&& right_sum && right_type ==> {
                    ||| n < 8 && e == AleError::InvalidPacketLength(n as u16)
                    ||| n > 65008 && e == AleError::PayloadTooLarge((n - 8) as usize)
                }
            },
    {
        let mut frames: Vec<AleFrame> = Vec::new();
        let mut pos: usize = 0;
        proof {
            let whole = stream::parse(self@ + data@);
            assert(data@.skip(0) =~= data@);
            assert(whole.after(frame::views(frames@)).frames =~= whole.frames);
        }
        while pos < data.len()
            invariant
                self.wf(),
                pos <= data.len(),
                pos == 0 ==> self@ == old(self)@ && frames@.len() == 0,
                pos > 0 ==> !stream::refused(self@),
                stream::parse(old(self)@ + data@) == stream::parse(
                    self@ + data@.skip(pos as int),
                ).after(frame::views(frames@)),
            decreases data.len() - pos,
        {
            let reading_header = match &self.state {
                AleReadState::ReadingHeader => true,
                AleReadState::ReadingPayload { .. } => false,
            };
            if reading_header {
                match self.read_header(data, pos, &mut frames) {
                    Ok(next) => {
                        pos = next;
                    },
                    Err(e) => {
                        proof {
                            stream::refused_octets_layout(old(self)@ + data@);
                        }
                        return Err(e);
                    },
                }
            } else {
                pos = self.read_payload(data, pos, &mut frames);
            }
        }
        proof {
            assert(self@ + data@.skip(pos as int) =~= self@);
            self.keeps_waiting_or_refused();
            assert(frame::views(frames@) + Seq::<FrameView>::empty() =~= frame::views(frames@));
            if data@.len() > 0 {
                lemma_delivered_layout(old(self)@ + data@, frames@);
            } else {
                assert((old(self)@ + data@).skip(0) =~= old(self)@);
            }
        }
        Ok(frames)
    }
}

/// A step that takes octets of `data` from `pos` on, with `kept` before them, goes along with the
/// reading of the stream.
spec fn step_agrees(
    kept: Seq<u8>,
    delivered: Seq<FrameView>,
    data: Seq<u8>,
    pos: int,
    new_kept: Seq<u8>,
    new_delivered: Seq<FrameView>,
    r: Result<usize, AleError>,
) -> bool {
    let before = stream::parse(kept + data.skip(pos));
    match r {
        Ok(next) => {
            &&& pos < next <= data.len()
            &&& !stream::refused(new_kept)
            &&& before.after(delivered) == stream::parse(new_kept + data.skip(next as int)).after(
                new_delivered,
            )
        },
        Err(e) => before.error == Some(e) && before.rest == new_kept,
    }
}

/// How many octets of a stream lie ahead of the i-th of the frames that it delivers.
pub open spec fn octets_ahead(frames: Seq<AleFrame>, i: int) -> int
    decreases i,
{
    if i <= 0 {
        0
    } else {
        octets_ahead(frames, i - 1) + 2 + frames[i - 1].header.packet_length
    }
}

proof fn lemma_octets_ahead(frames: Seq<AleFrame>, i: int)
    requires
        i <= frames.len(),
    ensures
        octets_ahead(frames, i) == stream::offset(frame::views(frames), i),
    decreases i,
{
    if i > 0 {
        lemma_octets_ahead(frames, i - 1);
    }
}

/// Where delivered frames, and what is kept behind them, lie in the stream.
proof fn lemma_delivered_layout(s: Seq<u8>, frames: Seq<AleFrame>)
    requires
        stream::parse(s).error is None,
        stream::parse(s).frames == frame::views(frames),
    ensures
        forall|i: int|
            #![trigger frames[i]]
            0 <= i < frames.len() ==> {
                let o = octets_ahead(frames, i);
                let h = frames[i].header;
                let n = frames[i].user_data@.len();
                &&& 0 <= o
                &&& o + 10 + n <= s.len()
                &&& h.packet_length == s[o] * 256 + s[o + 1]
                &&& h.version == s[o + 2]
                &&& h.app_type == s[o + 3]
                &&& h.t_sequence == s[o + 4] * 256 + s[o + 5]
                &&& h.nr_flag == s[o + 6]
                &&& h.packet_type == s[o + 7]
                &&& h.checksum == s[o + 8] * 256 + s[o + 9]
                &&& h.checksum == crc::crc_of(s.subrange(o, o + 8))
                &&& 1 <= h.packet_type <= 4
                &&& h.packet_length == 8 + n
                &&& n <= 65000
                &&& frames[i].user_data@ == s.subrange(o + 10, o + 10 + n)
            },
        stream::parse(s).rest == s.skip(octets_ahead(frames, frames.len() as int)),
        ({
            let t = stream::parse(s).rest;
            t.len() >= 10 ==> {
                &&& crc::crc_of(t.take(8)) == t[8] * 256 + t[9]
                &&& 1 <= t[7] <= 4
                &&& 8 <= t[0] * 256 + t[1] <= 65008
                &&& t.len() < 2 + t[0] * 256 + t[1]
            }
        }),
{
    assert forall|i: int| #![trigger frames[i]] 0 <= i < frames.len() implies {
        let o = octets_ahead(frames, i);
        let h = frames[i].header;
        let n = frames[i].user_data@.len();
        &&& 0 <= o
        &&& o + 10 + n <= s.len()
        &&& h.packet_length == s[o] * 256 + s[o + 1]
        &&& h.version == s[o + 2]
        &&& h.app_type == s[o + 3]
        &&& h.t_sequence == s[o + 4] * 256 + s[o + 5]
        &&& h.nr_flag == s[o + 6]
        &&& h.packet_type == s[o + 7]
        &&& h.checksum == s[o + 8] * 256 + s[o + 9]
        &&& h.checksum == crc::crc_of(s.subrange(o, o + 8))
        &&& 1 <= h.packet_type <= 4
        &&& h.packet_length == 8 + n
        &&& n <= 65000
        &&& frames[i].user_data@ == s.subrange(o + 10, o + 10 + n)
    } by {
        lemma_octets_ahead(frames, i);
        stream::delivered_frames_layout(s, i);
        assert(frame::views(frames)[i] == frames[i]@);
    }
    lemma_octets_ahead(frames, frames.len() as int);
    stream::kept_octets_layout(s);
    assert(frame::views(frames).len() == frames.len());
    let e = octets_ahead(frames, frames.len() as int);
    assert(s.skip(e) =~= s.subrange(e, s.len() as int));
}

/// Delivering one more frame.
proof fn lemma_delivered(tail: Parsed, frames: Seq<AleFrame>, frame: AleFrame)
    ensures
        tail.after(seq![frame@]).after(frame::views(frames)) == tail.after(
            frame::views(frames.push(frame)),
        ),
{
    assert(frame::views(frames.push(frame)) =~= frame::views(frames).push(frame@));
    assert(tail.after(seq![frame@]).after(frame::views(frames)).frames =~= tail.after(
        frame::views(frames.push(frame)),
    ).frames);
}

impl Default for AleFrameReader {
    fn default() -> (r: Self)
        ensures
            r.wf(),
            r@ == Seq::<u8>::empty(),
    {
        Self::new()
    }
}

} // verus!
