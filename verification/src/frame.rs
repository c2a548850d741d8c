//! Complete ALEPKT frames.
use crate::consts::{ALE_CHECKSUM_COVERED_SIZE, ALE_HEADER_SIZE, ALE_MAX_USER_DATA};
use crate::header;
use crate::header::AleHeader;
use vstd::prelude::*;

verus! {

/// Completed ALEPKT frame (header + user data).
#[derive(Debug)]
pub struct AleFrame {
    pub header: AleHeader,
    pub user_data: Vec<u8>,
}

/// What a frame says: its header and its user data.
pub struct FrameView {
    pub header: AleHeader,
    pub user_data: Seq<u8>,
}

impl View for AleFrame {
    type V = FrameView;

    open spec fn view(&self) -> FrameView {
        FrameView { header: self.header, user_data: self.user_data@ }
    }
}

impl Clone for AleFrame {
    fn clone(&self) -> (r: Self)
        ensures
            r@ == self@,
            r.header == self.header,
            r.user_data@ == self.user_data@,
    {
        let user_data = self.user_data.clone();
        assert(user_data@ =~= self.user_data@);
        AleFrame { header: self.header.clone(), user_data }
    }
}

/// The views of a list of frames.
pub open spec fn views(frames: Seq<AleFrame>) -> Seq<FrameView> {
    Seq::new(frames.len(), |i: int| frames[i]@)
}

impl FrameView {
    /// The frame on the wire.
    pub open spec fn wire(self) -> Seq<u8> {
        self.header.wire() + self.user_data
    }

    /// The header is right and describes the user data.
    pub open spec fn valid(self) -> bool {
        &&& self.header.checksum_holds()
        &&& header::known_type(self.header.packet_type)
        &&& self.header.packet_length == ALE_CHECKSUM_COVERED_SIZE + self.user_data.len()
        &&& self.user_data.len() <= ALE_MAX_USER_DATA
    }
}

/// Frames on the wire, one after the other.
pub open spec fn wire_all(frames: Seq<FrameView>) -> Seq<u8>
    decreases frames.len(),
{
    if frames.len() == 0 {
        Seq::empty()
    } else {
        frames[0].wire() + wire_all(frames.drop_first())
    }
}

/// All frames of the list are valid.
pub open spec fn all_valid(frames: Seq<FrameView>) -> bool {
    forall|i: int| 0 <= i < frames.len() ==> (#[trigger] frames[i]).valid()
}

/// One frame more puts its octets behind those of the others.
pub proof fn wire_all_push(frames: Seq<FrameView>, f: FrameView)
    ensures
        wire_all(frames.push(f)) == wire_all(frames) + f.wire(),
    decreases frames.len(),
{
    let all = frames.push(f);
    if frames.len() == 0 {
        assert(all.drop_first() =~= frames);
        assert(f.wire() + wire_all(frames) =~= wire_all(frames) + f.wire());
    } else {
        let others = frames.drop_first();
        assert(all.drop_first() =~= others.push(f));
        wire_all_push(others, f);
        let (a, b, c) = (frames[0].wire(), wire_all(others), f.wire());
        assert(a + (b + c) =~= a + b + c);
    }
}

/// A frame is ten octets longer than its user data.
pub proof fn wire_length(f: FrameView)
    ensures
        f.wire().len() == ALE_HEADER_SIZE + f.user_data.len(),
{
    header::wire_holds_fields(f.header);
}

} // verus!
