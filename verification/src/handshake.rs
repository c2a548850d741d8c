//! User data of the connection handshake: AU1 and AU2.
use crate::octets;
use vstd::prelude::*;

verus! {

/// AU1 connection information (Subset-098 6.5.2.4.2).
#[derive(Debug)]
pub struct AleAu1Info {
    pub calling_etcs_id: u32,
    pub called_etcs_id: u32,
    pub class_of_service: u8,
}

/// AU2 connection information (Subset-098 6.5.2.4.7).
#[derive(Debug)]
pub struct AleAu2Info {
    pub responding_etcs_id: u32,
}

/// Octets of AU1 user data ahead of the SaPDU.
pub const AU1_INFO_SIZE: usize = 9;

/// Octets of AU2 user data ahead of the SaPDU.
pub const AU2_INFO_SIZE: usize = 4;

impl Clone for AleAu1Info {
    fn clone(&self) -> (r: Self)
        ensures
            r == *self,
    {
        AleAu1Info {
            calling_etcs_id: self.calling_etcs_id,
            called_etcs_id: self.called_etcs_id,
            class_of_service: self.class_of_service,
        }
    }
}

impl AleAu1Info {
    /// The information on the wire.
    pub open spec fn wire(self) -> Seq<u8> {
        octets::be32(self.calling_etcs_id) + octets::be32(self.called_etcs_id) + seq![
            self.class_of_service,
        ]
    }

    /// The information that user data begins with.
    pub open spec fn fields(data: Seq<u8>) -> AleAu1Info {
        AleAu1Info {
            calling_etcs_id: octets::read32(data, 0),
            called_etcs_id: octets::read32(data, 4),
            class_of_service: data[8],
        }
    }

    /// Encode AU1 connection info into the user data portion (9 octets + optional SaPDU).
    pub fn encode(&self, sapdu: &[u8]) -> (buf: Vec<u8>)
        ensures
            buf@ == self.wire() + sapdu@,
            buf@.len() == 9 + sapdu@.len(),
            buf@[0] * 0x100_0000 + buf@[1] * 0x1_0000 + buf@[2] * 0x100 + buf@[3]
                == self.calling_etcs_id,
            buf@[4] * 0x100_0000 + buf@[5] * 0x1_0000 + buf@[6] * 0x100 + buf@[7]
                == self.called_etcs_id,
            buf@[8] == self.class_of_service,
            buf@.skip(9) == sapdu@,
    {
        proof {
            au1_encoded_layout(*self, sapdu@);
        }
        let mut buf: Vec<u8> = Vec::new();
        octets::push32(&mut buf, self.calling_etcs_id);
        octets::push32(&mut buf, self.called_etcs_id);
        buf.push(self.class_of_service);
        assert(buf@ =~= self.wire());
        buf.extend_from_slice(sapdu);
        assert(buf@ =~= self.wire() + sapdu@);
        buf
    }

    /// Decode AU1 connection info from user data, and give the SaPDU behind it.
    pub fn decode(data: &[u8]) -> (r: Option<(Self, &[u8])>)
        ensures
            data@.len() < AU1_INFO_SIZE ==> r is None,
            data@.len() >= AU1_INFO_SIZE ==> (r matches Some((info, sapdu)) && info
                == AleAu1Info::fields(data@) && sapdu@ == data@.skip(AU1_INFO_SIZE as int)),
            r is Some <==> data@.len() >= 9,
            r matches Some((info, sapdu)) ==> {
                &&& info.calling_etcs_id == data@[0] * 0x100_0000 + data@[1] * 0x1_0000 + data@[2]
                    * 0x100 + data@[3]
                &&& info.called_etcs_id == data@[4] * 0x100_0000 + data@[5] * 0x1_0000 + data@[6]
                    * 0x100 + data@[7]
                &&& info.class_of_service == data@[8]
                &&& sapdu@ == data@.subrange(9, data@.len() as int)
            },
    {
        if data.len() < AU1_INFO_SIZE {
            return None;
        }
        let calling = octets::load32(data, 0);
        let called = octets::load32(data, 4);
        let class = data[8];
        Some(
            (
                AleAu1Info {
                    calling_etcs_id: calling,
                    called_etcs_id: called,
                    class_of_service: class,
                },
                vstd::slice::slice_subrange(data, AU1_INFO_SIZE, data.len()),
            ),
        )
    }
}

impl Clone for AleAu2Info {
    fn clone(&self) -> (r: Self)
        ensures
            r == *self,
    {
        AleAu2Info { responding_etcs_id: self.responding_etcs_id }
    }
}

impl AleAu2Info {
    /// The information on the wire.
    pub open spec fn wire(self) -> Seq<u8> {
        octets::be32(self.responding_etcs_id)
    }

    /// The information that user data begins with.
    pub open spec fn fields(data: Seq<u8>) -> AleAu2Info {
        AleAu2Info { responding_etcs_id: octets::read32(data, 0) }
    }

    /// Encode AU2 connection info into the user data portion (4 octets + optional SaPDU).
    pub fn encode(&self, sapdu: &[u8]) -> (buf: Vec<u8>)
        ensures
            buf@ == self.wire() + sapdu@,
            buf@.len() == 4 + sapdu@.len(),
            buf@[0] * 0x100_0000 + buf@[1] * 0x1_0000 + buf@[2] * 0x100 + buf@[3]
                == self.responding_etcs_id,
            buf@.skip(4) == sapdu@,
    {
        proof {
            au2_encoded_layout(*self, sapdu@);
        }
        let mut buf: Vec<u8> = Vec::new();
        octets::push32(&mut buf, self.responding_etcs_id);
        assert(buf@ =~= self.wire());
        buf.extend_from_slice(sapdu);
        assert(buf@ =~= self.wire() + sapdu@);
        buf
    }

    /// Decode AU2 connection info from user data, and give the SaPDU behind it.
    pub fn decode(data: &[u8]) -> (r: Option<(Self, &[u8])>)
        ensures
            data@.len() < AU2_INFO_SIZE ==> r is None,
            data@.len() >= AU2_INFO_SIZE ==> (r matches Some((info, sapdu)) && info
                == AleAu2Info::fields(data@) && sapdu@ == data@.skip(AU2_INFO_SIZE as int)),
            r is Some <==> data@.len() >= 4,
            r matches Some((info, sapdu)) ==> {
                &&& info.responding_etcs_id == data@[0] * 0x100_0000 + data@[1] * 0x1_0000
                    + data@[2] * 0x100 + data@[3]
                &&& sapdu@ == data@.subrange(4, data@.len() as int)
            },
    {
        if data.len() < AU2_INFO_SIZE {
            return None;
        }
        let id = octets::load32(data, 0);
        Some(
            (
                AleAu2Info { responding_etcs_id: id },
                vstd::slice::slice_subrange(data, AU2_INFO_SIZE, data.len()),
            ),
        )
    }
}

/// Where encoded AU1 user data has its parts: the calling ETCS-ID in octets 0 to 3 and the called
/// ETCS-ID in octets 4 to 7, both most significant octet first, the class of service in octet 8,
/// then the SaPDU.
pub proof fn au1_encoded_layout(info: AleAu1Info, sapdu: Seq<u8>)
    ensures
        ({
            let e = info.wire() + sapdu;
            &&& e.len() == 9 + sapdu.len()
            &&& e[0] * 0x100_0000 + e[1] * 0x1_0000 + e[2] * 0x100 + e[3] == info.calling_etcs_id
            &&& e[4] * 0x100_0000 + e[5] * 0x1_0000 + e[6] * 0x100 + e[7] == info.called_etcs_id
            &&& e[8] == info.class_of_service
            &&& e.subrange(9, e.len() as int) == sapdu
            &&& e.skip(9) == sapdu
        }),
{
    let e = info.wire() + sapdu;
    au1_decode_of_encode(info, sapdu);
    au1_decoded_layout(e);
    assert(e.subrange(9, e.len() as int) =~= sapdu);
}

/// Where decoded AU1 information comes from.
pub proof fn au1_decoded_layout(data: Seq<u8>)
    requires
        data.len() >= 9,
    ensures
        AleAu1Info::fields(data).calling_etcs_id == data[0] * 0x100_0000 + data[1] * 0x1_0000
            + data[2] * 0x100 + data[3],
        AleAu1Info::fields(data).called_etcs_id == data[4] * 0x100_0000 + data[5] * 0x1_0000
            + data[6] * 0x100 + data[7],
        AleAu1Info::fields(data).class_of_service == data[8],
{
}

/// Where encoded AU2 user data has its parts: the responding ETCS-ID in octets 0 to 3, most
/// significant octet first, then the SaPDU.
pub proof fn au2_encoded_layout(info: AleAu2Info, sapdu: Seq<u8>)
    ensures
        ({
            let e = info.wire() + sapdu;
            &&& e.len() == 4 + sapdu.len()
            &&& e[0] * 0x100_0000 + e[1] * 0x1_0000 + e[2] * 0x100 + e[3]
                == info.responding_etcs_id
            &&& e.subrange(4, e.len() as int) == sapdu
            &&& e.skip(4) == sapdu
        }),
{
    let e = info.wire() + sapdu;
    au2_decode_of_encode(info, sapdu);
    au2_decoded_layout(e);
    assert(e.subrange(4, e.len() as int) =~= sapdu);
}

/// Where decoded AU2 information comes from.
pub proof fn au2_decoded_layout(data: Seq<u8>)
    requires
        data.len() >= 4,
    ensures
        AleAu2Info::fields(data).responding_etcs_id == data[0] * 0x100_0000 + data[1] * 0x1_0000
            + data[2] * 0x100 + data[3],
{
}

/// Decoding encoded AU1 user data gives the information and the SaPDU back.
pub proof fn au1_decode_of_encode(info: AleAu1Info, sapdu: Seq<u8>)
    ensures
        (info.wire() + sapdu).len() >= AU1_INFO_SIZE,
        AleAu1Info::fields(info.wire() + sapdu) == info,
        (info.wire() + sapdu).skip(AU1_INFO_SIZE as int) == sapdu,
{
    let s = info.wire() + sapdu;
    assert(s.subrange(0, 4) =~= octets::be32(info.calling_etcs_id));
    assert(s.subrange(4, 8) =~= octets::be32(info.called_etcs_id));
    octets::be32_read_back(s, 0, info.calling_etcs_id);
    octets::be32_read_back(s, 4, info.called_etcs_id);
    assert(s.skip(AU1_INFO_SIZE as int) =~= sapdu);
}

/// Encoding decoded AU1 user data gives the user data back.
pub proof fn au1_encode_of_decode(data: Seq<u8>)
    requires
        data.len() >= AU1_INFO_SIZE,
    ensures
        AleAu1Info::fields(data).wire() + data.skip(AU1_INFO_SIZE as int) == data,
{
    octets::read32_written(data, 0);
    octets::read32_written(data, 4);
    assert(data.subrange(0, 4) + data.subrange(4, 8) + seq![data[8]] + data.skip(
        AU1_INFO_SIZE as int,
    ) =~= data);
}

/// Decoding encoded AU2 user data gives the information and the SaPDU back.
pub proof fn au2_decode_of_encode(info: AleAu2Info, sapdu: Seq<u8>)
    ensures
        (info.wire() + sapdu).len() >= AU2_INFO_SIZE,
        AleAu2Info::fields(info.wire() + sapdu) == info,
        (info.wire() + sapdu).skip(AU2_INFO_SIZE as int) == sapdu,
{
    let s = info.wire() + sapdu;
    assert(s.subrange(0, 4) =~= octets::be32(info.responding_etcs_id));
    octets::be32_read_back(s, 0, info.responding_etcs_id);
    assert(s.skip(AU2_INFO_SIZE as int) =~= sapdu);
}

/// Encoding decoded AU2 user data gives the user data back.
pub proof fn au2_encode_of_decode(data: Seq<u8>)
    requires
        data.len() >= AU2_INFO_SIZE,
    ensures
        AleAu2Info::fields(data).wire() + data.skip(AU2_INFO_SIZE as int) == data,
{
    octets::read32_written(data, 0);
    assert(data.subrange(0, 4) + data.skip(AU2_INFO_SIZE as int) =~= data);
}

} // verus!
