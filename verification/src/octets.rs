//! Big-endian integers in octet strings.
use vstd::prelude::*;

verus! {

/// The two octets of `v`, most significant first.
pub open spec fn be16(v: u16) -> Seq<u8> {
    seq![(v / 256) as u8, (v % 256) as u8]
}

/// The four octets of `v`, most significant first.
pub open spec fn be32(v: u32) -> Seq<u8> {
    seq![
        (v / 0x100_0000) as u8,
        (v / 0x1_0000 % 256) as u8,
        (v / 0x100 % 256) as u8,
        (v % 256) as u8,
    ]
}

/// The number that the two octets of `s` from `i` on spell, most significant first.
pub open spec fn read16(s: Seq<u8>, i: int) -> u16 {
    (s[i] * 256 + s[i + 1]) as u16
}

/// The number that the four octets of `s` from `i` on spell, most significant first.
pub open spec fn read32(s: Seq<u8>, i: int) -> u32 {
    (s[i] * 0x100_0000 + s[i + 1] * 0x1_0000 + s[i + 2] * 0x100 + s[i + 3]) as u32
}

/// The high octet of `v`.
pub(crate) fn high(v: u16) -> (b: u8)
    ensures
        b == be16(v)[0],
{
    (v / 256) as u8
}

/// The low octet of `v`.
pub(crate) fn low(v: u16) -> (b: u8)
    ensures
        b == be16(v)[1],
{
    (v % 256) as u8
}

/// The number spelt by a high and a low octet.
pub(crate) fn from_octets(hi: u8, lo: u8) -> (v: u16)
    ensures
        v == hi * 256 + lo,
{
    (hi as u16) * 256 + (lo as u16)
}

/// Append `v` to `out`, most significant octet first.
pub(crate) fn push32(out: &mut Vec<u8>, v: u32)
    ensures
        final(out)@ == old(out)@ + be32(v),
{
    out.push((v / 0x100_0000) as u8);
    out.push((v / 0x1_0000 % 256) as u8);
    out.push((v / 0x100 % 256) as u8);
    out.push((v % 256) as u8);
    assert(out@ =~= old(out)@ + be32(v));
}

/// Read four octets of `data` from `i` on, most significant first.
pub(crate) fn load32(data: &[u8], i: usize) -> (v: u32)
    requires
        i + 4 <= data@.len(),
    ensures
        v == read32(data@, i as int),
{
    (data[i] as u32) * 0x100_0000 + (data[i + 1] as u32) * 0x1_0000 + (data[i + 2] as u32) * 0x100
        + (data[i + 3] as u32)
}

/// Writing two octets and reading them back gives the number.
pub proof fn be16_read_back(s: Seq<u8>, i: int, v: u16)
    requires
        0 <= i,
        i + 2 <= s.len(),
        s.subrange(i, i + 2) == be16(v),
    ensures
        read16(s, i) == v,
{
    assert(s[i] == s.subrange(i, i + 2)[0] && s[i + 1] == s.subrange(i, i + 2)[1]);
}

/// Reading two octets and writing the number gives the octets.
pub proof fn read16_written(s: Seq<u8>, i: int)
    requires
        0 <= i,
        i + 2 <= s.len(),
    ensures
        be16(read16(s, i)) == s.subrange(i, i + 2),
{
    assert(be16(read16(s, i)) =~= s.subrange(i, i + 2));
}

/// Writing four octets and reading them back gives the number.
pub proof fn be32_read_back(s: Seq<u8>, i: int, v: u32)
    requires
        0 <= i,
        i + 4 <= s.len(),
        s.subrange(i, i + 4) == be32(v),
    ensures
        read32(s, i) == v,
{
    let t = s.subrange(i, i + 4);
    assert(s[i] == t[0] && s[i + 1] == t[1] && s[i + 2] == t[2] && s[i + 3] == t[3]);
}

/// Reading four octets and writing the number gives the octets.
pub proof fn read32_written(s: Seq<u8>, i: int)
    requires
        0 <= i,
        i + 4 <= s.len(),
    ensures
        be32(read32(s, i)) == s.subrange(i, i + 4),
{
    let (a, b, c, d) = (s[i] as u32, s[i + 1] as u32, s[i + 2] as u32, s[i + 3] as u32);
    let v = read32(s, i);
    assert(v == a * 0x100_0000 + b * 0x1_0000 + c * 0x100 + d);
    assert(v / 0x100_0000 == a && v / 0x1_0000 % 256 == b && v / 0x100 % 256 == c && v % 256 == d)
        by (bit_vector)
        requires
            v == a * 0x100_0000 + b * 0x1_0000 + c * 0x100 + d,
            a < 256,
            b < 256,
            c < 256,
            d < 256,
    ;
    assert(be32(v) =~= s.subrange(i, i + 4));
}

} // verus!
