//! The data codewords of a byte-mode message: mode indicator, character count,
//! the bytes, terminator, bit padding and pad codewords.
use vstd::prelude::*;
use crate::bits::{msb_bits, bytes_bits, pack_bits};
use crate::tables::{char_count_bits, spec_data_codewords};

verus! {

/// `n` zero bits.
pub open spec fn zero_bits(n: int) -> Seq<bool> {
    Seq::new(n as nat, |k: int| false)
}

/// The byte-mode segment: mode indicator 0100, the byte count on the width of
/// version `ver`, and the bytes.
pub open spec fn segment_bits(data: Seq<u8>, ver: int) -> Seq<bool> {
    msb_bits(0b0100, 4) + msb_bits(data.len() as u32, char_count_bits(ver) as nat) + bytes_bits(
        data,
    )
}

/// The segment followed by the terminator: up to four zero bits, as many as the
/// capacity `cap` (in bits) leaves room for.
pub open spec fn terminated_bits(data: Seq<u8>, ver: int) -> Seq<bool> {
    let s = segment_bits(data, ver);
    let room = 8 * spec_data_codewords(ver) - s.len();
    s + zero_bits(if room < 4 { room } else { 4 })
}

/// The terminated segment padded with zero bits to a whole number of bytes.
pub open spec fn aligned_bits(data: Seq<u8>, ver: int) -> Seq<bool> {
    let t = terminated_bits(data, ver);
    t + zero_bits((8 - t.len() % 8) % 8)
}

/// `n` pad codewords, alternately 0xEC and 0x11.
pub open spec fn pad_bits(n: int) -> Seq<bool>
    decreases n,
{
    if n <= 0 {
        Seq::empty()
    } else {
        pad_bits(n - 1) + msb_bits(if (n - 1) % 2 == 0 { 0xEC } else { 0x11 }, 8)
    }
}

/// All bits of the data codewords of a symbol of version `ver` holding `data`.
pub open spec fn message_bits(data: Seq<u8>, ver: int) -> Seq<bool> {
    let a = aligned_bits(data, ver);
    a + pad_bits(spec_data_codewords(ver) - a.len() / 8)
}

/// The data codewords of a symbol of version `ver` holding `data`.
pub open spec fn data_codewords(data: Seq<u8>, ver: int) -> Seq<u8> {
    pack_bits(message_bits(data, ver))
}

/// `n` pad codewords are `8 * n` bits.
pub proof fn lemma_pad_bits_len(n: int)
    requires
        n >= 0,
    ensures
        pad_bits(n).len() == 8 * n,
    decreases n,
{
    if n > 0 {
        lemma_pad_bits_len(n - 1);
    }
}

/// Bytes are eight bits each.
pub proof fn lemma_bytes_bits_len(bytes: Seq<u8>)
    ensures
        bytes_bits(bytes).len() == 8 * bytes.len(),
    decreases bytes.len(),
{
    if bytes.len() > 0 {
        lemma_bytes_bits_len(bytes.drop_last());
    }
}

} // verus!

verus! {

/// The bits of the byte-mode indicator 0100.
proof fn lemma_mode_bits()
    ensures
        !crate::layout::bit_of(4, 3),
        crate::layout::bit_of(4, 2),
        !crate::layout::bit_of(4, 1),
        !crate::layout::bit_of(4, 0),
{
    assert(!crate::layout::bit_of(4, 3) && crate::layout::bit_of(4, 2) && !crate::layout::bit_of(
        4,
        1,
    ) && !crate::layout::bit_of(4, 0)) by (bit_vector);
}

/// A bit as a number.
spec fn bit_num(bits: Seq<bool>, i: int) -> int {
    crate::bits::bit_value(bits, i)
}

proof fn lemma_byte_value(bits: Seq<bool>, start: int)
    ensures
        crate::bits::bits_number(bits, start, 8) == 128 * bit_num(bits, start) + 64 * bit_num(
            bits,
            start + 1,
        ) + 32 * bit_num(bits, start + 2) + 16 * bit_num(bits, start + 3) + 8 * bit_num(
            bits,
            start + 4,
        ) + 4 * bit_num(bits, start + 5) + 2 * bit_num(bits, start + 6) + bit_num(
            bits,
            start + 7,
        ),
{
    reveal_with_fuel(crate::bits::bits_number, 9);
}

/// The first bits of the message are those of the segment.
proof fn lemma_message_starts_with_segment(data: Seq<u8>, ver: int, i: int)
    requires
        0 <= i < segment_bits(data, ver).len(),
    ensures
        i < message_bits(data, ver).len(),
        message_bits(data, ver)[i] == segment_bits(data, ver)[i],
{
}

/// The data codewords of a message begin with the byte-mode indicator 0100 of the
/// standard and the number of bytes, on 8 bits up to version 9 and on 16 bits from
/// version 10: the first codewords are 0100 followed by the count, most
/// significant bit first.
pub proof fn lemma_data_codewords_header(data: Seq<u8>, ver: int)
    requires
        1 <= ver <= 40,
        data.len() < 65536,
        ver <= 9 ==> data.len() < 256,
    ensures
        ({
            let c = data_codewords(data, ver);
            let n = data.len() as int;
            &&& ver <= 9 ==> c.len() >= 2 && c[0] == 64 + n / 16 && c[1] / 16 == n % 16
            &&& ver >= 10 ==> c.len() >= 3 && c[0] == 64 + n / 4096 && c[1] == (n / 16) % 256
                && c[2] / 16 == n % 16
        }),
{
    let mb = message_bits(data, ver);
    let seg = segment_bits(data, ver);
    let n = data.len() as u32;
    let w = char_count_bits(ver);
    crate::message::lemma_bytes_bits_len(data);
    assert(seg.len() == 4 + w + 8 * data.len());
    assert forall|i: int| 0 <= i < 4 + w implies #[trigger] bit_num(mb, i) == (if (if i < 4 {
        crate::layout::bit_of(4, (3 - i) as u32)
    } else {
        crate::layout::bit_of(n, (w - 1 - (i - 4)) as u32)
    }) {
        1int
    } else {
        0int
    }) by {
        lemma_message_starts_with_segment(data, ver, i);
    }
    lemma_mode_bits();
    lemma_byte_value(mb, 0);
    lemma_byte_value(mb, 8);
    if ver <= 9 {
        assert(bit_num(mb, 0) == 0 && bit_num(mb, 1) == 1 && bit_num(mb, 2) == 0 && bit_num(mb, 3)
            == 0);
        assert(bit_num(mb, 4) + 0 == bit_num(mb, 4));
        assert(n < 256 ==> (n / 16 == (if crate::layout::bit_of(n, 7) { 8u32 } else { 0u32 }) + (
        if crate::layout::bit_of(n, 6) { 4u32 } else { 0u32 }) + (if crate::layout::bit_of(n, 5) {
            2u32
        } else {
            0u32
        }) + (if crate::layout::bit_of(n, 4) { 1u32 } else { 0u32 }) && n % 16 == (
        if crate::layout::bit_of(n, 3) { 8u32 } else { 0u32 }) + (if crate::layout::bit_of(n, 2) {
            4u32
        } else {
            0u32
        }) + (if crate::layout::bit_of(n, 1) { 2u32 } else { 0u32 }) + (if crate::layout::bit_of(
            n,
            0,
        ) { 1u32 } else { 0u32 }))) by (bit_vector);
        assert(0 <= bit_num(mb, 12) <= 1 && 0 <= bit_num(mb, 13) <= 1 && 0 <= bit_num(mb, 14) <= 1
            && 0 <= bit_num(mb, 15) <= 1);
    } else {
        lemma_byte_value(mb, 16);
        assert(bit_num(mb, 0) == 0 && bit_num(mb, 1) == 1 && bit_num(mb, 2) == 0 && bit_num(mb, 3)
            == 0);
        assert(n < 65536 ==> (n / 4096 == (if crate::layout::bit_of(n, 15) { 8u32 } else { 0u32 })
            + (if crate::layout::bit_of(n, 14) { 4u32 } else { 0u32 }) + (if crate::layout::bit_of(
            n,
            13,
        ) { 2u32 } else { 0u32 }) + (if crate::layout::bit_of(n, 12) { 1u32 } else { 0u32 }) && (n
            / 16) % 256 == (if crate::layout::bit_of(n, 11) { 128u32 } else { 0u32 }) + (
        if crate::layout::bit_of(n, 10) { 64u32 } else { 0u32 }) + (if crate::layout::bit_of(n, 9) {
            32u32
        } else {
            0u32
        }) + (if crate::layout::bit_of(n, 8) { 16u32 } else { 0u32 }) + (if crate::layout::bit_of(
            n,
            7,
        ) { 8u32 } else { 0u32 }) + (if crate::layout::bit_of(n, 6) { 4u32 } else { 0u32 }) + (
        if crate::layout::bit_of(n, 5) { 2u32 } else { 0u32 }) + (if crate::layout::bit_of(n, 4) {
            1u32
        } else {
            0u32
        }) && n % 16 == (if crate::layout::bit_of(n, 3) { 8u32 } else { 0u32 }) + (
        if crate::layout::bit_of(n, 2) { 4u32 } else { 0u32 }) + (if crate::layout::bit_of(n, 1) {
            2u32
        } else {
            0u32
        }) + (if crate::layout::bit_of(n, 0) { 1u32 } else { 0u32 }))) by (bit_vector);
        assert(0 <= bit_num(mb, 20) <= 1 && 0 <= bit_num(mb, 21) <= 1 && 0 <= bit_num(mb, 22) <= 1
            && 0 <= bit_num(mb, 23) <= 1);
    }
}

} // verus!

verus! {

proof fn lemma_bytes_bits_index(d: Seq<u8>, j: int, b: int)
    requires
        0 <= j < d.len(),
        0 <= b < 8,
    ensures
        bytes_bits(d).len() == 8 * d.len(),
        bytes_bits(d)[8 * j + b] == crate::layout::bit_of(d[j] as u32, (7 - b) as u32),
    decreases d.len(),
{
    lemma_bytes_bits_len(d);
    lemma_bytes_bits_len(d.drop_last());
    if j < d.len() - 1 {
        lemma_bytes_bits_index(d.drop_last(), j, b);
    }
}

proof fn lemma_pad_bits_index(m: int, t: int, b: int)
    requires
        0 <= t < m,
        0 <= b < 8,
    ensures
        pad_bits(m).len() == 8 * m,
        pad_bits(m)[8 * t + b] == crate::layout::bit_of(
            if t % 2 == 0 {
                0xECu32
            } else {
                0x11u32
            },
            (7 - b) as u32,
        ),
    decreases m,
{
    lemma_pad_bits_len(m);
    lemma_pad_bits_len(m - 1);
    if t < m - 1 {
        lemma_pad_bits_index(m - 1, t, b);
    }
}

/// The bits of the data codewords, as the standard lays them out in byte mode: the
/// mode indicator 0100, the byte count on 8 bits up to version 9 and 16 bits from
/// version 10, the bytes most significant bit first, a terminator of up to four
/// zero bits, zero bits up to a whole codeword, then the pad codewords 0xEC and
/// 0x11 in turn until the data capacity of the version is filled.
pub proof fn lemma_message_layout(data: Seq<u8>, ver: int, t: int)
    requires
        1 <= ver <= 40,
        data.len() < 65536,
        4 + (if ver <= 9 {
            8int
        } else {
            16int
        }) + 8 * data.len() <= 8 * spec_data_codewords(ver),
        0 <= t < 8 * spec_data_codewords(ver),
    ensures
        ({
            let w = if ver <= 9 {
                8int
            } else {
                16int
            };
            let n = data.len() as int;
            let s = 4 + w + 8 * n;
            let cap = 8 * spec_data_codewords(ver);
            let tl = s + (if cap - s < 4 {
                cap - s
            } else {
                4
            });
            let al = tl + (8 - tl % 8) % 8;
            &&& message_bits(data, ver).len() == cap
            &&& message_bits(data, ver)[t] == if t < 4 {
                t == 1
            } else if t < 4 + w {
                crate::layout::bit_of(n as u32, (w - 1 - (t - 4)) as u32)
            } else if t < s {
                crate::layout::bit_of(data[(t - 4 - w) / 8] as u32, (7 - (t - 4 - w) % 8) as u32)
            } else if t < al {
                false
            } else {
                crate::layout::bit_of(
                    if ((t - al) / 8) % 2 == 0 {
                        0xECu32
                    } else {
                        0x11u32
                    },
                    (7 - (t - al) % 8) as u32,
                )
            }
        }),
{
    let w = char_count_bits(ver);
    let n = data.len() as int;
    let cap = 8 * spec_data_codewords(ver);
    let seg = segment_bits(data, ver);
    lemma_bytes_bits_len(data);
    assert(seg.len() == 4 + w + 8 * n);
    let tb = terminated_bits(data, ver);
    let ab = aligned_bits(data, ver);
    let s = 4 + w + 8 * n;
    let tl = tb.len() as int;
    let al = ab.len() as int;
    assert(al % 8 == 0);
    assert(al <= cap);
    let m = spec_data_codewords(ver) - al / 8;
    lemma_pad_bits_len(m);
    let mb = message_bits(data, ver);
    assert(mb.len() == cap);
    if t < 4 {
        assert(mb[t] == seg[t]);
        lemma_mode_bits();
    } else if t < 4 + w {
        assert(mb[t] == seg[t]);
    } else if t < s {
        assert(mb[t] == seg[t]);
        let j = (t - 4 - w) / 8;
        let b = (t - 4 - w) % 8;
        lemma_bytes_bits_index(data, j, b);
        assert(t - 4 - w == 8 * j + b);
    } else if t < al {
        assert(mb[t] == ab[t]);
    } else {
        let q = (t - al) / 8;
        let b = (t - al) % 8;
        lemma_pad_bits_index(m, q, b);
        assert(t - al == 8 * q + b);
        assert(mb[t] == pad_bits(m)[t - al]);
    }
}

} // verus!
