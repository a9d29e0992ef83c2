//! Where the fixed patterns of a symbol go: alignment pattern centres, and the
//! format and version information words.
use vstd::prelude::*;
use crate::tables::{align_count, spec_align_step};

verus! {

/// Bit `i` of `data`, counted from the least significant.
pub open spec fn bit_of(data: u32, i: u32) -> bool {
    ((data >> i) & 1) != 0
}

/// Bit `i` of `data`.
pub fn get_bit(data: u32, i: u32) -> (r: bool)
    requires
        i < 32,
    ensures
        r == bit_of(data, i),
{
    ((data >> i) & 1) != 0
}

/// Distance between consecutive alignment patterns after the first.
pub open spec fn align_step(ver: int) -> int {
    spec_align_step(ver)
}

/// Centres of the alignment patterns along one side, in increasing order: 6,
/// then evenly spaced ones ending at `size - 7`. Version 1 has none.
pub open spec fn align_positions(ver: int, size: int) -> Seq<int> {
    if ver == 1 {
        Seq::empty()
    } else {
        Seq::new(
            align_count(ver) as nat,
            |k: int|
                if k == 0 {
                    6
                } else {
                    size - 7 - (align_count(ver) - 1 - k) * align_step(ver)
                },
        )
    }
}

/// The centres of the alignment patterns of a symbol of version `version` and side `size`.
pub fn alignment_pattern_positions(version: usize, size: usize) -> (r: Vec<usize>)
    requires
        version != 1 ==> version * 8 + align_count(version as int) * 3 + 5 <= usize::MAX,
        version != 1 ==> (align_count(version as int) - 2) * align_step(version as int) + 7
            <= size,
    ensures
        r@.len() == align_positions(version as int, size as int).len(),
        forall|k: int|
            0 <= k < r@.len() ==> r@[k] as int == align_positions(version as int, size as int)[k],
{
    if version == 1 {
        return Vec::new();
    }
    let num_align = version / 7 + 2;
    proof {
        assert(num_align * 4 - 4 >= 4);
        assert((version * 8 + num_align * 3 + 5) / (num_align * 4 - 4) * 2 <= version * 8
            + num_align * 3 + 5) by (nonlinear_arith)
            requires
                num_align * 4 - 4 >= 4,
                version * 8 + num_align * 3 + 5 >= 0,
        ;
    }
    let step = (version * 8 + num_align * 3 + 5) / (num_align * 4 - 4) * 2;
    let mut positions: Vec<usize> = Vec::new();
    positions.push(6);
    let mut k: usize = 1;
    while k < num_align
        invariant
            1 <= k <= num_align,
            num_align == align_count(version as int),
            step == align_step(version as int),
            version != 1,
            (num_align - 2) * step + 7 <= size,
            positions@.len() == k,
            forall|j: int|
                0 <= j < k ==> positions@[j] as int == align_positions(version as int, size as int)[j],
        decreases num_align - k,
    {
        proof {
            assert((num_align - 1 - k) * step <= (num_align - 2) * step) by (nonlinear_arith)
                requires
                    k >= 1,
                    step >= 0,
                    k < num_align,
            ;
        }
        positions.push(size - 7 - (num_align - 1 - k) * step);
        k += 1;
    }
    positions
}

/// One step of the remainder computation of a BCH code over GF(2): multiply by x and
/// subtract the generator `poly` when the bit at `top` overflows.
pub open spec fn bch_step(rem: u32, top: u32, poly: u32) -> u32 {
    ((rem << 1u32) ^ (((rem >> top) * poly) as u32)) as u32
}

/// `steps` remainder steps from `rem`, and whether none of their products overflow.
pub open spec fn bch_rem(rem: u32, steps: nat, top: u32, poly: u32) -> u32
    decreases steps,
{
    if steps == 0 {
        rem
    } else {
        bch_rem(bch_step(rem, top, poly), (steps - 1) as nat, top, poly)
    }
}

/// Whether `steps` steps of the BCH division from `rem` stay within 32 bits.
pub open spec fn bch_no_overflow(rem: u32, steps: nat, top: u32, poly: u32) -> bool
    decreases steps,
{
    steps == 0 || ((rem >> top) * poly <= u32::MAX && bch_no_overflow(
        bch_step(rem, top, poly),
        (steps - 1) as nat,
        top,
        poly,
    ))
}

/// The 15-bit format information word for the given 5 data bits (level and mask):
/// the data, its BCH(15,5) check bits, and the fixed mask 0x5412.
pub open spec fn format_word(data: u32) -> u32 {
    ((data << 10u32) | bch_rem(data, 10, 9, 0x537)) ^ 0x5412
}

/// The 18-bit version information word: the version and its BCH(18,6) check bits.
pub open spec fn version_word(version: u32) -> u32 {
    (version << 12u32) | bch_rem(version, 12, 11, 0x1F25)
}

/// The format information word of this encoder: medium level (data bits 00) and mask 0.
pub fn compute_format_bits() -> (r: u32)
    ensures
        r == format_word(0),
        r == 0x5412,
{
    let data = 0u32;
    let mut rem = data;
    let mut i: u32 = 0;
    while i < 10
        invariant
            i <= 10,
            rem == 0,
            bch_rem(rem, (10 - i) as nat, 9, 0x537) == bch_rem(data, 10, 9, 0x537),
        decreases 10 - i,
    {
        proof {
            assert(bch_step(0, 9, 0x537) == 0) by (bit_vector);
            assert(0u32 >> 9u32 == 0) by (bit_vector);
        }
        rem = (rem << 1) ^ ((rem >> 9) * 0x537);
        i += 1;
    }
    proof {
        assert(((0u32 << 10u32) | 0u32) ^ 0x5412 == 0x5412) by (bit_vector);
    }
    (data << 10 | rem) ^ 0x5412
}

/// The version information word of a symbol of version `version`.
pub fn compute_version_bits(version: u32) -> (r: u32)
    requires
        bch_no_overflow(version, 12, 11, 0x1F25),
    ensures
        r == version_word(version),
{
    let mut rem = version;
    let mut i: u32 = 0;
    while i < 12
        invariant
            i <= 12,
            bch_no_overflow(rem, (12 - i) as nat, 11, 0x1F25),
            bch_rem(rem, (12 - i) as nat, 11, 0x1F25) == bch_rem(version, 12, 11, 0x1F25),
        decreases 12 - i,
    {
        rem = (rem << 1) ^ ((rem >> 11) * 0x1F25);
        i += 1;
    }
    (version << 12) | rem
}

/// The remainder steps of the version code never overflow from a 12-bit start.
pub proof fn lemma_version_word_no_overflow(rem: u32, steps: nat)
    requires
        rem < 0x1000,
    ensures
        bch_no_overflow(rem, steps, 11, 0x1F25),
    decreases steps,
{
    if steps > 0 {
        assert(rem < 0x1000 ==> (rem >> 11u32) <= 1) by (bit_vector);
        assert(rem < 0x1000 ==> bch_step(rem, 11, 0x1F25) < 0x1000) by (bit_vector);
        lemma_version_word_no_overflow(bch_step(rem, 11, 0x1F25), (steps - 1) as nat);
    }
}

} // verus!
