//! CRC-CCITT: generator x^16 + x^12 + x^5 + 1, register preset to all ones, no final inversion.
use vstd::prelude::*;

verus! {

/// Value of the CRC register before the first octet.
pub const CRC_INIT: u16 = 0xFFFF;

/// Generator without its leading term: x^12 + x^5 + 1.
pub const CRC_POLY: u16 = 0x1021;

// ------------------------------------------------------------------ register model

/// The register multiplied by x and reduced by the generator.
pub open spec fn shift_once(reg: u16) -> u16 {
    if reg & 0x8000 != 0 {
        (reg << 1) ^ CRC_POLY
    } else {
        reg << 1
    }
}

/// `n` applications of [`shift_once`].
pub open spec fn shift_by(reg: u16, n: nat) -> u16
    decreases n,
{
    if n == 0 {
        reg
    } else {
        shift_once(shift_by(reg, (n - 1) as nat))
    }
}

/// The register after one more octet, taken most significant bit first.
pub open spec fn absorb(reg: u16, octet: u8) -> u16 {
    shift_by(reg ^ ((octet as u16) << 8), 8)
}

/// The register after all octets of `data`, starting from `reg`.
pub open spec fn crc_from(reg: u16, data: Seq<u8>) -> u16
    decreases data.len(),
{
    if data.len() == 0 {
        reg
    } else {
        absorb(crc_from(reg, data.drop_last()), data.last())
    }
}

/// The checksum of `data`.
pub open spec fn crc_of(data: Seq<u8>) -> u16 {
    crc_from(CRC_INIT, data)
}

// ---------------------------------------------------------------- polynomial model

/// Sum of two coefficients over GF(2).
pub open spec fn plus(a: bool, b: bool) -> bool {
    a != b
}

/// Coefficient of x^k of the polynomial whose coefficients `q` lists, lowest first.
pub open spec fn coeff(q: Seq<bool>, k: int) -> bool {
    0 <= k < q.len() && q[k]
}

/// Coefficient of x^k of the polynomial that the sixteen bits of `r` spell.
pub open spec fn bit16(r: u16, k: int) -> bool {
    0 <= k < 16 && (r >> (k as u16)) & 1 == 1
}

/// Coefficient of x^k of the polynomial that the eight bits of `b` spell.
pub open spec fn bit8(b: u8, k: int) -> bool {
    0 <= k < 8 && (b >> (k as u8)) & 1 == 1
}

/// Coefficient of x^k of `q` times the generator x^16 + x^12 + x^5 + 1.
pub open spec fn times_generator(q: Seq<bool>, k: int) -> bool {
    plus(plus(coeff(q, k), coeff(q, k - 5)), plus(coeff(q, k - 12), coeff(q, k - 16)))
}

/// Coefficient of x^k of the message: the first bit of the first octet is the highest term.
pub open spec fn message_coeff(data: Seq<u8>, k: int) -> bool {
    0 <= k < 8 * data.len() && bit8(data[data.len() - 1 - k / 8], k % 8)
}

/// Coefficient of x^k of the dividend: the message times x^16, with the sixteen terms from
/// x^(8n) on inverted, which is what presetting the register to all ones amounts to.
pub open spec fn dividend_coeff(data: Seq<u8>, k: int) -> bool {
    plus(message_coeff(data, k - 16), 8 * data.len() <= k < 8 * data.len() + 16)
}

/// `dividend = q * generator + r`.
pub open spec fn divides_into(data: Seq<u8>, q: Seq<bool>, r: u16) -> bool {
    forall|k: int|
        #![trigger dividend_coeff(data, k)]
        dividend_coeff(data, k) == plus(times_generator(q, k), bit16(r, k))
}

/// `r` is the remainder of the dividend of `data` modulo the generator.
pub open spec fn is_remainder(data: Seq<u8>, r: u16) -> bool {
    exists|q: Seq<bool>| divides_into(data, q, r)
}

// --------------------------------------------------------------- remainder theorem

/// `d = q * generator + r`, with `d` given by its coefficients.
spec fn splits(d: spec_fn(int) -> bool, q: Seq<bool>, r: u16) -> bool {
    forall|k: int| #![trigger d(k)] d(k) == plus(times_generator(q, k), bit16(r, k))
}

/// The bits of a shifted register.
proof fn lemma_shift_once_bits(r: u16, k: int)
    ensures
        bit16(shift_once(r), k) == plus(
            bit16(r, k - 1),
            bit16(r, 15) && (k == 0 || k == 5 || k == 12 || k == 16),
        ),
{
    assert((r & 0x8000 != 0) == ((r >> 15u16) & 1 == 1)) by (bit_vector);
    if 0 < k < 16 {
        let j = k as u16;
        let i = (k - 1) as u16;
        assert((((r << 1) >> j) & 1 == 1) == ((r >> i) & 1 == 1)) by (bit_vector)
            requires
                0 < j < 16,
                i == j - 1,
        ;
        assert(((((r << 1) ^ 0x1021) >> j) & 1 == 1) == (((r >> i) & 1 == 1) != (j == 5 || j
            == 12))) by (bit_vector)
            requires
                0 < j < 16,
                i == j - 1,
        ;
    } else if k == 0 {
        assert(((r << 1) >> 0u16) & 1 == 0) by (bit_vector);
        assert((((r << 1) ^ 0x1021) >> 0u16) & 1 == 1) by (bit_vector);
    }
}

/// Multiplying by x keeps the decomposition, the register being shifted once.
proof fn lemma_shift_once_splits(d: spec_fn(int) -> bool, q: Seq<bool>, r: u16)
    requires
        splits(d, q, r),
    ensures
        splits(|k: int| d(k - 1), seq![bit16(r, 15)] + q, shift_once(r)),
{
    let q2 = seq![bit16(r, 15)] + q;
    let d2 = |k: int| d(k - 1);
    assert forall|k: int| #![trigger d2(k)] d2(k) == plus(
        times_generator(q2, k),
        bit16(shift_once(r), k),
    ) by {
        assert(forall|j: int|
            #![trigger coeff(q2, j)]
            coeff(q2, j) == if j == 0 {
                bit16(r, 15)
            } else {
                coeff(q, j - 1)
            });
        lemma_shift_once_bits(r, k);
        assert(d(k - 1) == plus(times_generator(q, k - 1), bit16(r, k - 1)));
    }
}

proof fn lemma_shift_by_splits(d: spec_fn(int) -> bool, q: Seq<bool>, r: u16, n: nat) -> (q2: Seq<
    bool,
>)
    requires
        splits(d, q, r),
    ensures
        splits(|k: int| d(k - n), q2, shift_by(r, n)),
    decreases n,
{
    if n == 0 {
        assert((|k: int| d(k - n)) =~= d);
        q
    } else {
        let m = (n - 1) as nat;
        let q1 = lemma_shift_by_splits(d, q, r, m);
        let d1 = |k: int| d(k - m);
        lemma_shift_once_splits(d1, q1, shift_by(r, m));
        assert((|k: int| d1(k - 1)) =~= (|k: int| d(k - n)));
        seq![bit16(shift_by(r, m), 15)] + q1
    }
}

/// The bits of the register once an octet has been mixed in.
proof fn lemma_mixed_bits(r: u16, b: u8, k: int)
    ensures
        bit16(r ^ ((b as u16) << 8), k) == plus(bit16(r, k), bit8(b, k - 8)),
{
    if 0 <= k < 16 {
        let j = k as u16;
        if k < 8 {
            assert((((r ^ ((b as u16) << 8)) >> j) & 1) == ((r >> j) & 1)) by (bit_vector)
                requires
                    j < 8,
            ;
        } else {
            let i = (k - 8) as u8;
            assert(((((r ^ ((b as u16) << 8)) >> j) & 1) == 1) == ((((r >> j) & 1) == 1) != ((b
                >> i) & 1 == 1))) by (bit_vector)
                requires
                    8 <= j < 16,
                    i == j - 8,
            ;
        }
    }
}

/// The bits of the preset register are all set.
proof fn lemma_preset_bits(k: int)
    requires
        0 <= k < 16,
    ensures
        bit16(CRC_INIT, k),
{
    let j = k as u16;
    assert((0xFFFFu16 >> j) & 1 == 1) by (bit_vector)
        requires
            j < 16,
    ;
}

/// The quotient that goes with [`crc_of`].
proof fn lemma_crc_divides(data: Seq<u8>) -> (q: Seq<bool>)
    ensures
        divides_into(data, q, crc_of(data)),
    decreases data.len(),
{
    if data.len() == 0 {
        let q = Seq::<bool>::empty();
        assert forall|k: int| #![trigger dividend_coeff(data, k)] dividend_coeff(data, k) == plus(
            times_generator(q, k),
            bit16(crc_of(data), k),
        ) by {
            if 0 <= k < 16 {
                lemma_preset_bits(k);
            }
        }
        q
    } else {
        let front = data.drop_last();
        let b = data.last();
        let r = crc_of(front);
        let q0 = lemma_crc_divides(front);
        let d0 = |k: int| plus(dividend_coeff(front, k), bit8(b, k - 8));
        let mixed = r ^ ((b as u16) << 8);
        assert(splits(d0, q0, mixed)) by {
            assert forall|k: int| #![trigger d0(k)] d0(k) == plus(
                times_generator(q0, k),
                bit16(mixed, k),
            ) by {
                assert(dividend_coeff(front, k) == plus(times_generator(q0, k), bit16(r, k)));
                lemma_mixed_bits(r, b, k);
            }
        }
        let q = lemma_shift_by_splits(d0, q0, mixed, 8);
        let d1 = |k: int| d0(k - 8nat);
        assert forall|k: int| #![trigger dividend_coeff(data, k)] dividend_coeff(data, k) == plus(
            times_generator(q, k),
            bit16(crc_of(data), k),
        ) by {
            assert(d1(k) == plus(times_generator(q, k), bit16(shift_by(mixed, 8), k)));
            lemma_dividend_grows(front, b, k);
            assert(front.push(b) =~= data);
        }
        q
    }
}

/// Appending an octet multiplies the dividend by x^8 and adds the octet from x^16 on.
proof fn lemma_dividend_grows(front: Seq<u8>, b: u8, k: int)
    ensures
        dividend_coeff(front.push(b), k) == plus(
            dividend_coeff(front, k - 8),
            bit8(b, k - 16),
        ),
{
    let data = front.push(b);
    let j = k - 16;
    if 0 <= j < 8 {
        assert(j / 8 == 0 && j % 8 == j);
    } else if 8 <= j < 8 * data.len() {
        assert((j - 8) / 8 == j / 8 - 1 && (j - 8) % 8 == j % 8);
        assert(data[data.len() - 1 - j / 8] == front[front.len() - 1 - (j - 8) / 8]);
    }
}

/// The checksum is the remainder of the message, extended as [`dividend_coeff`] says, modulo the
/// generator x^16 + x^12 + x^5 + 1.
pub proof fn crc_is_remainder(data: Seq<u8>)
    ensures
        is_remainder(data, crc_of(data)),
{
    let q = lemma_crc_divides(data);
    assert(divides_into(data, q, crc_of(data)));
}

/// Two quotients of one dividend have the same coefficients.
proof fn lemma_quotients_agree(data: Seq<u8>, q1: Seq<bool>, r1: u16, q2: Seq<bool>, r2: u16, k: int)
    requires
        divides_into(data, q1, r1),
        divides_into(data, q2, r2),
        0 <= k,
    ensures
        coeff(q1, k) == coeff(q2, k),
    decreases q1.len() + q2.len() + 16 - k,
{
    if k < q1.len() || k < q2.len() {
        lemma_quotients_agree(data, q1, r1, q2, r2, k + 4);
        lemma_quotients_agree(data, q1, r1, q2, r2, k + 11);
        lemma_quotients_agree(data, q1, r1, q2, r2, k + 16);
        assert(dividend_coeff(data, k + 16) == plus(times_generator(q1, k + 16), bit16(r1, k + 16)));
        assert(dividend_coeff(data, k + 16) == plus(times_generator(q2, k + 16), bit16(r2, k + 16)));
    }
}

/// Registers with the same sixteen bits are equal.
proof fn lemma_bits_determine(a: u16, b: u16)
    requires
        forall|k: int| 0 <= k < 16 ==> bit16(a, k) == bit16(b, k),
    ensures
        a == b,
{
    assert(bit16(a, 0) == bit16(b, 0));
    assert(bit16(a, 1) == bit16(b, 1));
    assert(bit16(a, 2) == bit16(b, 2));
    assert(bit16(a, 3) == bit16(b, 3));
    assert(bit16(a, 4) == bit16(b, 4));
    assert(bit16(a, 5) == bit16(b, 5));
    assert(bit16(a, 6) == bit16(b, 6));
    assert(bit16(a, 7) == bit16(b, 7));
    assert(bit16(a, 8) == bit16(b, 8));
    assert(bit16(a, 9) == bit16(b, 9));
    assert(bit16(a, 10) == bit16(b, 10));
    assert(bit16(a, 11) == bit16(b, 11));
    assert(bit16(a, 12) == bit16(b, 12));
    assert(bit16(a, 13) == bit16(b, 13));
    assert(bit16(a, 14) == bit16(b, 14));
    assert(bit16(a, 15) == bit16(b, 15));
    assert(a == b) by (bit_vector)
        requires
            ((a >> 0u16) & 1 == 1) == ((b >> 0u16) & 1 == 1),
            ((a >> 1u16) & 1 == 1) == ((b >> 1u16) & 1 == 1),
            ((a >> 2u16) & 1 == 1) == ((b >> 2u16) & 1 == 1),
            ((a >> 3u16) & 1 == 1) == ((b >> 3u16) & 1 == 1),
            ((a >> 4u16) & 1 == 1) == ((b >> 4u16) & 1 == 1),
            ((a >> 5u16) & 1 == 1) == ((b >> 5u16) & 1 == 1),
            ((a >> 6u16) & 1 == 1) == ((b >> 6u16) & 1 == 1),
            ((a >> 7u16) & 1 == 1) == ((b >> 7u16) & 1 == 1),
            ((a >> 8u16) & 1 == 1) == ((b >> 8u16) & 1 == 1),
            ((a >> 9u16) & 1 == 1) == ((b >> 9u16) & 1 == 1),
            ((a >> 10u16) & 1 == 1) == ((b >> 10u16) & 1 == 1),
            ((a >> 11u16) & 1 == 1) == ((b >> 11u16) & 1 == 1),
            ((a >> 12u16) & 1 == 1) == ((b >> 12u16) & 1 == 1),
            ((a >> 13u16) & 1 == 1) == ((b >> 13u16) & 1 == 1),
            ((a >> 14u16) & 1 == 1) == ((b >> 14u16) & 1 == 1),
            ((a >> 15u16) & 1 == 1) == ((b >> 15u16) & 1 == 1),
    ;
}

/// At most one sixteen-bit value is the remainder of given data.
pub proof fn remainder_is_unique(data: Seq<u8>, r1: u16, r2: u16)
    requires
        is_remainder(data, r1),
        is_remainder(data, r2),
    ensures
        r1 == r2,
{
    let q1 = choose|q: Seq<bool>| divides_into(data, q, r1);
    let q2 = choose|q: Seq<bool>| divides_into(data, q, r2);
    assert forall|k: int| coeff(q1, k) == coeff(q2, k) by {
        if 0 <= k {
            lemma_quotients_agree(data, q1, r1, q2, r2, k);
        }
    }
    assert forall|k: int| 0 <= k < 16 implies bit16(r1, k) == bit16(r2, k) by {
        assert(dividend_coeff(data, k) == plus(times_generator(q1, k), bit16(r1, k)));
        assert(dividend_coeff(data, k) == plus(times_generator(q2, k), bit16(r2, k)));
    }
    lemma_bits_determine(r1, r2);
}

// ----------------------------------------------------------------- error detection

/// Coefficient of x^k of the transmitted polynomial: the message times x^16 plus its checksum.
pub open spec fn codeword_coeff(data: Seq<u8>, r: u16, k: int) -> bool {
    plus(message_coeff(data, k - 16), bit16(r, k))
}

/// The two transmitted polynomials agree outside the sixteen terms from x^at on.
pub open spec fn differ_within_burst(a: Seq<u8>, ra: u16, b: Seq<u8>, rb: u16, at: int) -> bool {
    forall|k: int|
        #![trigger codeword_coeff(a, ra, k)]
        !(at <= k < at + 16) ==> codeword_coeff(a, ra, k) == codeword_coeff(b, rb, k)
}

/// Below the burst the two quotients agree.
proof fn lemma_agree_below_burst(
    a: Seq<u8>,
    ra: u16,
    qa: Seq<bool>,
    b: Seq<u8>,
    rb: u16,
    qb: Seq<bool>,
    at: int,
    k: int,
)
    requires
        a.len() == b.len(),
        divides_into(a, qa, ra),
        divides_into(b, qb, rb),
        differ_within_burst(a, ra, b, rb, at),
        k < at,
    ensures
        coeff(qa, k) == coeff(qb, k),
    decreases k + 16,
{
    if 0 <= k {
        lemma_agree_below_burst(a, ra, qa, b, rb, qb, at, k - 5);
        lemma_agree_below_burst(a, ra, qa, b, rb, qb, at, k - 12);
        lemma_agree_below_burst(a, ra, qa, b, rb, qb, at, k - 16);
        assert(dividend_coeff(a, k) == plus(times_generator(qa, k), bit16(ra, k)));
        assert(dividend_coeff(b, k) == plus(times_generator(qb, k), bit16(rb, k)));
        assert(codeword_coeff(a, ra, k) == codeword_coeff(b, rb, k));
    }
}

/// From the burst on the two quotients agree.
proof fn lemma_agree_above_burst(
    a: Seq<u8>,
    ra: u16,
    qa: Seq<bool>,
    b: Seq<u8>,
    rb: u16,
    qb: Seq<bool>,
    at: int,
    k: int,
)
    requires
        a.len() == b.len(),
        divides_into(a, qa, ra),
        divides_into(b, qb, rb),
        differ_within_burst(a, ra, b, rb, at),
        at <= k,
    ensures
        coeff(qa, k) == coeff(qb, k),
    decreases qa.len() + qb.len() + 16 - k,
{
    if k < qa.len() || k < qb.len() {
        lemma_agree_above_burst(a, ra, qa, b, rb, qb, at, k + 4);
        lemma_agree_above_burst(a, ra, qa, b, rb, qb, at, k + 11);
        lemma_agree_above_burst(a, ra, qa, b, rb, qb, at, k + 16);
        let m = k + 16;
        assert(dividend_coeff(a, m) == plus(times_generator(qa, m), bit16(ra, m)));
        assert(dividend_coeff(b, m) == plus(times_generator(qb, m), bit16(rb, m)));
        assert(codeword_coeff(a, ra, m) == codeword_coeff(b, rb, m));
    }
}

/// Octets with the same eight bits are equal.
proof fn lemma_octet_bits_determine(a: u8, b: u8)
    requires
        forall|k: int| 0 <= k < 8 ==> bit8(a, k) == bit8(b, k),
    ensures
        a == b,
{
    assert(bit8(a, 0) == bit8(b, 0));
    assert(bit8(a, 1) == bit8(b, 1));
    assert(bit8(a, 2) == bit8(b, 2));
    assert(bit8(a, 3) == bit8(b, 3));
    assert(bit8(a, 4) == bit8(b, 4));
    assert(bit8(a, 5) == bit8(b, 5));
    assert(bit8(a, 6) == bit8(b, 6));
    assert(bit8(a, 7) == bit8(b, 7));
    assert(a == b) by (bit_vector)
        requires
            ((a >> 0u8) & 1 == 1) == ((b >> 0u8) & 1 == 1),
            ((a >> 1u8) & 1 == 1) == ((b >> 1u8) & 1 == 1),
            ((a >> 2u8) & 1 == 1) == ((b >> 2u8) & 1 == 1),
            ((a >> 3u8) & 1 == 1) == ((b >> 3u8) & 1 == 1),
            ((a >> 4u8) & 1 == 1) == ((b >> 4u8) & 1 == 1),
            ((a >> 5u8) & 1 == 1) == ((b >> 5u8) & 1 == 1),
            ((a >> 6u8) & 1 == 1) == ((b >> 6u8) & 1 == 1),
            ((a >> 7u8) & 1 == 1) == ((b >> 7u8) & 1 == 1),
    ;
}

/// Messages of one length with the same coefficients are equal.
pub proof fn message_coeffs_determine(a: Seq<u8>, b: Seq<u8>)
    requires
        a.len() == b.len(),
        forall|k: int| message_coeff(a, k) == message_coeff(b, k),
    ensures
        a == b,
{
    assert forall|i: int| 0 <= i < a.len() implies a[i] == b[i] by {
        let base = 8 * (a.len() - 1 - i);
        assert forall|k: int| 0 <= k < 8 implies bit8(a[i], k) == bit8(b[i], k) by {
            assert((base + k) / 8 == a.len() - 1 - i && (base + k) % 8 == k);
            assert(message_coeff(a, base + k) == message_coeff(b, base + k));
        }
        lemma_octet_bits_determine(a[i], b[i]);
    }
    assert(a =~= b);
}

/// Any error confined to sixteen consecutive bits, in the message or in its checksum, is
/// detected: two correctly checksummed transmissions of one length that differ only there are
/// the same transmission.
pub proof fn burst_is_detected(a: Seq<u8>, ra: u16, b: Seq<u8>, rb: u16, at: int)
    requires
        a.len() == b.len(),
        ra == crc_of(a),
        rb == crc_of(b),
        differ_within_burst(a, ra, b, rb, at),
    ensures
        a == b,
        ra == rb,
{
    let qa = lemma_crc_divides(a);
    let qb = lemma_crc_divides(b);
    assert forall|k: int| coeff(qa, k) == coeff(qb, k) by {
        if k < at {
            lemma_agree_below_burst(a, ra, qa, b, rb, qb, at, k);
        } else {
            lemma_agree_above_burst(a, ra, qa, b, rb, qb, at, k);
        }
    }
    assert forall|k: int| codeword_coeff(a, ra, k) == codeword_coeff(b, rb, k) by {
        assert(dividend_coeff(a, k) == plus(times_generator(qa, k), bit16(ra, k)));
        assert(dividend_coeff(b, k) == plus(times_generator(qb, k), bit16(rb, k)));
    }
    assert forall|k: int| message_coeff(a, k) == message_coeff(b, k) by {
        assert(codeword_coeff(a, ra, k + 16) == codeword_coeff(b, rb, k + 16));
    }
    message_coeffs_determine(a, b);
}

// -------------------------------------------------------------------- octet by octet

/// How the checksums of a message and of the same message with one octet more relate. With `t` the
/// high octet of the checksum plus the new octet, and `x` that sum plus its own high half, the new
/// checksum is the old one moved up an octet, plus x * (x^12 + x^5 + 1). The empty message has the
/// preset register for its checksum.
pub proof fn crc_of_one_more_octet(data: Seq<u8>, octet: u8)
    ensures
        crc_of(Seq::empty()) == 0xFFFF,
        ({
            let r = crc_of(data);
            let t = (r >> 8) ^ (octet as u16);
            let x = t ^ (t >> 4);
            crc_of(data.push(octet)) == (r << 8) ^ (x << 12) ^ (x << 5) ^ x
        }),
{
    assert(data.push(octet).drop_last() =~= data);
    reveal_with_fuel(shift_by, 9);
    let r = crc_of(data);
    let t = (r >> 8) ^ (octet as u16);
    let x = t ^ (t >> 4);
    let s0 = r ^ ((octet as u16) << 8);
    let s1 = shift_once(s0);
    let s2 = shift_once(s1);
    let s3 = shift_once(s2);
    let s4 = shift_once(s3);
    let s5 = shift_once(s4);
    let s6 = shift_once(s5);
    let s7 = shift_once(s6);
    let s8 = shift_once(s7);
    assert(s8 == (r << 8) ^ (x << 12) ^ (x << 5) ^ x) by (bit_vector)
        requires
            t == (r >> 8) ^ (octet as u16),
            x == t ^ (t >> 4),
            s0 == r ^ ((octet as u16) << 8),
            s1 == shift_once(s0),
            s2 == shift_once(s1),
            s3 == shift_once(s2),
            s4 == shift_once(s3),
            s5 == shift_once(s4),
            s6 == shift_once(s5),
            s7 == shift_once(s6),
            s8 == shift_once(s7),
    ;
}

/// Compute CRC-CCITT over `data`.
#[must_use]
pub fn crc_ccitt(data: &[u8]) -> (crc: u16)
    ensures
        crc == crc_of(data@),
        is_remainder(data@, crc),
{
    let mut crc: u16 = CRC_INIT;
    let mut i: usize = 0;
    while i < data.len()
        invariant
            i <= data.len(),
            crc == crc_of(data@.take(i as int)),
        decreases data.len() - i,
    {
        let octet: u8 = data[i];
        crc = crc ^ ((octet as u16) << 8);
        let ghost mixed = crc;
        let mut n: u8 = 0;
        while n < 8
            invariant
                n <= 8,
                crc == shift_by(mixed, n as nat),
            decreases 8 - n,
        {
            if crc & 0x8000 != 0 {
                crc = (crc << 1) ^ CRC_POLY;
            } else {
                crc = crc << 1;
            }
            n = n + 1;
        }
        assert(data@.take(i + 1).drop_last() =~= data@.take(i as int));
        i = i + 1;
    }
    assert(data@.take(i as int) =~= data@);
    proof {
        crc_is_remainder(data@);
    }
    crc
}

} // verus!
