//! A growable sequence of bits, written most significant bit first and packed
//! into bytes.
use vstd::prelude::*;
use crate::layout::bit_of;

verus! {

/// The lowest `length` bits of `value`, most significant first.
pub open spec fn msb_bits(value: u32, length: nat) -> Seq<bool> {
    Seq::new(length, |k: int| bit_of(value, (length - 1 - k) as u32))
}

/// Bit `i` of `bits` as a number, reading past the end as zero.
pub open spec fn bit_value(bits: Seq<bool>, i: int) -> int {
    if 0 <= i < bits.len() && bits[i] {
        1
    } else {
        0
    }
}

/// The number written by the `n` bits of `bits` from `start` on, most significant
/// first, reading past the end as zero.
pub open spec fn bits_number(bits: Seq<bool>, start: int, n: nat) -> int
    decreases n,
{
    if n == 0 {
        0
    } else {
        bits_number(bits, start, (n - 1) as nat) * 2 + bit_value(bits, start + n - 1)
    }
}

/// The bytes holding `bits`, eight to a byte, most significant bit first; a last
/// partial byte is filled with zero bits.
pub open spec fn pack_bits(bits: Seq<bool>) -> Seq<u8> {
    Seq::new(
        ((bits.len() + 7) / 8) as nat,
        |k: int| bits_number(bits, 8 * k, 8) as u8,
    )
}

/// The bits of `bytes`, eight to a byte, most significant first.
pub open spec fn bytes_bits(bytes: Seq<u8>) -> Seq<bool>
    decreases bytes.len(),
{
    if bytes.len() == 0 {
        Seq::empty()
    } else {
        bytes_bits(bytes.drop_last()) + msb_bits(bytes.last() as u32, 8)
    }
}

/// A number read from `n` bits is below 2^n.
pub proof fn lemma_bits_number_bound(bits: Seq<bool>, start: int, n: nat)
    ensures
        0 <= bits_number(bits, start, n) < vstd::arithmetic::power2::pow2(n),
    decreases n,
{
    if n > 0 {
        lemma_bits_number_bound(bits, start, (n - 1) as nat);
        vstd::arithmetic::power2::lemma_pow2_unfold(n);
    } else {
        vstd::arithmetic::power2::lemma2_to64();
    }
}

/// Reading `n + m` bits where the last `m` lie past the end gives the first `n`
/// bits followed by `m` zeros.
pub proof fn lemma_bits_number_zero_tail(bits: Seq<bool>, start: int, n: nat, m: nat)
    requires
        start + n >= bits.len(),
    ensures
        bits_number(bits, start, n + m) == bits_number(bits, start, n)
            * vstd::arithmetic::power2::pow2(m),
    decreases m,
{
    if m == 0 {
        vstd::arithmetic::power2::lemma2_to64();
    } else {
        lemma_bits_number_zero_tail(bits, start, n, (m - 1) as nat);
        vstd::arithmetic::power2::lemma_pow2_unfold(m);
        assert(bits_number(bits, start, n + m) == bits_number(bits, start, (n + m - 1) as nat) * 2
            + bit_value(bits, start + n + m - 1));
        assert(bits_number(bits, start, n) * vstd::arithmetic::power2::pow2((m - 1) as nat) * 2
            == bits_number(bits, start, n) * vstd::arithmetic::power2::pow2(m)) by (nonlinear_arith)
            requires
                vstd::arithmetic::power2::pow2(m) == 2 * vstd::arithmetic::power2::pow2(
                    (m - 1) as nat,
                ),
        ;
    }
}

/// Bits that do not lie in the window read do not matter.
pub proof fn lemma_bits_number_prefix(bits: Seq<bool>, other: Seq<bool>, start: int, n: nat)
    requires
        forall|i: int| start <= i < start + n ==> bit_value(bits, i) == bit_value(other, i),
    ensures
        bits_number(bits, start, n) == bits_number(other, start, n),
    decreases n,
{
    if n > 0 {
        lemma_bits_number_prefix(bits, other, start, (n - 1) as nat);
    }
}

/// A sequence of bits that grows at the end.
pub struct BitBuffer {
    bits: Vec<bool>,
}

impl View for BitBuffer {
    type V = Seq<bool>;

    closed spec fn view(&self) -> Seq<bool> {
        self.bits@
    }
}

impl BitBuffer {
    /// An empty buffer.
    pub fn new() -> (r: Self)
        ensures
            r@ == Seq::<bool>::empty(),
    {
        Self { bits: Vec::new() }
    }

    /// Appends one bit.
    pub fn push_bit(&mut self, bit: bool)
        ensures
            final(self)@ == old(self)@.push(bit),
    {
        self.bits.push(bit);
    }

    /// Appends the lowest `length` bits of `value`, most significant first.
    pub fn push_bits(&mut self, value: u32, length: u8)
        requires
            length <= 32,
        ensures
            final(self)@ == old(self)@ + msb_bits(value, length as nat),
    {
        let ghost start = self.bits@;
        let mut i: u8 = length;
        while i > 0
            invariant
                i <= length <= 32,
                self.bits@ == start + msb_bits(value, length as nat).take(length - i),
            decreases i,
        {
            i -= 1;
            self.bits.push(((value >> i) & 1) != 0);
            assert(msb_bits(value, length as nat).take(length - i) =~= msb_bits(
                value,
                length as nat,
            ).take(length - i - 1).push(bit_of(value, i as u32)));
        }
        assert(msb_bits(value, length as nat).take(length as int) =~= msb_bits(
            value,
            length as nat,
        ));
    }

    /// Number of bits held.
    pub fn len(&self) -> (r: usize)
        ensures
            r == self@.len(),
    {
        self.bits.len()
    }

    /// The bits packed into bytes, most significant bit first, the last byte
    /// padded with zero bits.
    pub fn to_bytes(self) -> (r: Vec<u8>)
        ensures
            r@ == pack_bits(self@),
    {
        let len = self.bits.len();
        let ghost bits = self.bits@;
        let mut out: Vec<u8> = Vec::new();
        let mut acc = 0u8;
        let mut i: usize = 0;
        while i < len
            invariant
                i <= len == bits.len(),
                bits == self.bits@,
                out@.len() == i / 8,
                forall|k: int| 0 <= k < i / 8 ==> out@[k] == pack_bits(bits)[k],
                acc as int == bits_number(bits, 8 * (i / 8) as int, (i % 8) as nat),
            decreases len - i,
        {
            proof {
                lemma_bits_number_bound(bits, 8 * (i / 8) as int, (i % 8) as nat);
                vstd::arithmetic::power2::lemma2_to64();
                if i % 8 < 7 {
                    vstd::arithmetic::power2::lemma_pow2_strictly_increases((i % 8) as nat, 7);
                }
            }
            let bit: u8 = if self.bits[i] { 1 } else { 0 };
            proof {
                assert(acc < 128);
                assert((acc << 1u8) | bit == acc * 2 + bit) by (bit_vector)
                    requires
                        acc < 128,
                        bit <= 1,
                ;
            }
            acc = (acc << 1) | bit;
            if i % 8 == 7 {
                out.push(acc);
                acc = 0;
            }
            i += 1;
        }
        if len % 8 != 0 {
            let r = len % 8;
            proof {
                let s = 8 * (len / 8) as int;
                lemma_bits_number_bound(bits, s, r as nat);
                lemma_bits_number_zero_tail(bits, s, r as nat, (8 - r) as nat);
                vstd::arithmetic::power2::lemma2_to64();
                assert(bits_number(bits, s, 8) == acc * vstd::arithmetic::power2::pow2(
                    (8 - r) as nat,
                ));
            }
            let sh: u8 = (8 - r) as u8;
            proof {
                let s = 8 * (len / 8) as int;
                vstd::arithmetic::power2::lemma_pow2_adds(r as nat, sh as nat);
                assert(acc * vstd::arithmetic::power2::pow2(sh as nat) < 256) by (nonlinear_arith)
                    requires
                        acc < vstd::arithmetic::power2::pow2(r as nat),
                        vstd::arithmetic::power2::pow2(r as nat) * vstd::arithmetic::power2::pow2(
                            sh as nat,
                        ) == 256,
                        vstd::arithmetic::power2::pow2(sh as nat) > 0,
                ;
                assert(1u8 <= sh <= 7);
                assert(sh == 1 ==> vstd::arithmetic::power2::pow2(sh as nat) == 2);
                assert(forall|a: u8, t: u8|
                    1 <= t <= 7 && (a as int) * vstd::arithmetic::power2::pow2(t as nat) < 256
                        ==> #[trigger] (a << t) as int == a * vstd::arithmetic::power2::pow2(
                        t as nat,
                    )) by {
                    assert forall|a: u8, t: u8|
                        1 <= t <= 7 && (a as int) * vstd::arithmetic::power2::pow2(t as nat) < 256
                            implies #[trigger] (a << t) as int == a * vstd::arithmetic::power2::pow2(
                        t as nat,
                    ) by {
                        vstd::bits::lemma_u8_shl_is_mul(a, t);
                    }
                }
            }
            acc = acc << sh;
            out.push(acc);
            proof {
                let s = 8 * (len / 8) as int;
                assert(out@.len() == (len + 7) / 8);
                assert(out@[(len / 8) as int] == pack_bits(bits)[(len / 8) as int]);
            }
        }
        proof {
            assert(out@ =~= pack_bits(bits));
        }
        out
    }
}

/// The bits of zero are all zero.
pub proof fn lemma_msb_bits_zero(n: nat)
    ensures
        msb_bits(0, n) == Seq::new(n, |k: int| false),
{
    assert forall|i: u32| !#[trigger] bit_of(0, i) by {
        assert(((0u32 >> i) & 1) == 0) by (bit_vector);
    }
    assert(msb_bits(0, n) =~= Seq::new(n, |k: int| false));
}

} // verus!
