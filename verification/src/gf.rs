//! Reed-Solomon error correction over GF(2^8) with the QR code polynomial
//! x^8 + x^4 + x^3 + x^2 + 1 (0x11D).
use vstd::prelude::*;

verus! {

/// One step of the product `x * y` in GF(2^8), taking bit `i` of `y`: the partial
/// product `z` is multiplied by x (reduced modulo 0x11D) and `x` is added when
/// that bit is set.
pub open spec fn gf_step(z: u8, x: u8, y: u8, i: u8) -> u8 {
    (((z << 1u8) ^ (((z >> 7u8) * 0x1D) as u8)) ^ ((((y >> i) & 1) * x) as u8)) as u8
}

/// The product of `x` and `y` in GF(2^8) modulo 0x11D, by Horner's rule over the
/// bits of `y`, most significant first.
pub open spec fn gf_mul(x: u8, y: u8) -> u8 {
    gf_step(
        gf_step(
            gf_step(
                gf_step(
                    gf_step(gf_step(gf_step(gf_step(0, x, y, 7), x, y, 6), x, y, 5), x, y, 4),
                    x,
                    y,
                    3,
                ),
                x,
                y,
                2,
            ),
            x,
            y,
            1,
        ),
        x,
        y,
        0,
    )
}

/// The partial product after taking bits 7 down to `i` of `y`.
pub open spec fn gf_partial(x: u8, y: u8, i: u8) -> u8
    decreases 8 - i,
{
    if i >= 8 {
        0
    } else {
        gf_step(gf_partial(x, y, (i + 1) as u8), x, y, i)
    }
}

proof fn lemma_gf_partial_full(x: u8, y: u8)
    ensures
        gf_partial(x, y, 0) == gf_mul(x, y),
{
    reveal_with_fuel(gf_partial, 9);
}

/// Multiplication in GF(2^8) modulo x^8 + x^4 + x^3 + x^2 + 1.
pub fn reed_solomon_multiply(x: u8, y: u8) -> (r: u8)
    ensures
        r == gf_mul(x, y),
{
    let mut z: u8 = 0;
    let mut i: u8 = 8;
    while i > 0
        invariant
            i <= 8,
            z == gf_partial(x, y, i),
        decreases i,
    {
        i -= 1;
        proof {
            assert((z >> 7u8) <= 1) by (bit_vector);
            assert(((y >> i) & 1) <= 1) by (bit_vector);
            assert((((y >> i) & 1) * x) <= 255) by (nonlinear_arith)
                requires
                    ((y >> i) & 1) <= 1,
                    x <= 255,
            ;
        }
        z = (z << 1) ^ ((z >> 7) * 0x1D);
        z ^= ((y >> i) & 1) * x;
    }
    proof {
        lemma_gf_partial_full(x, y);
    }
    z
}

/// Multiplication in GF(2^8) commutes.
pub proof fn lemma_gf_mul_commutative(x: u8, y: u8)
    ensures
        gf_mul(x, y) == gf_mul(y, x),
{
    assert(gf_mul(x, y) == gf_mul(y, x)) by (bit_vector);
}

/// One is the unit of multiplication and zero absorbs it.
pub proof fn lemma_gf_mul_unit_zero(x: u8)
    ensures
        gf_mul(x, 1) == x,
        gf_mul(1, x) == x,
        gf_mul(x, 0) == 0,
        gf_mul(0, x) == 0,
{
    assert(gf_mul(x, 1) == x) by (bit_vector);
    assert(gf_mul(1, x) == x) by (bit_vector);
    assert(gf_mul(x, 0) == 0) by (bit_vector);
    assert(gf_mul(0, x) == 0) by (bit_vector);
}

/// One step is linear in the partial product and the multiplier together.
proof fn lemma_gf_step_linear(z1: u8, z2: u8, x: u8, y: u8, w: u8, i: u8)
    requires
        i < 8,
    ensures
        gf_step(z1 ^ z2, x, y ^ w, i) == gf_step(z1, x, y, i) ^ gf_step(z2, x, w, i),
{
    assert(i < 8 ==> gf_step(z1 ^ z2, x, y ^ w, i) == gf_step(z1, x, y, i) ^ gf_step(z2, x, w, i))
        by (bit_vector);
}

proof fn lemma_gf_partial_linear(x: u8, y: u8, w: u8, i: u8)
    requires
        i <= 8,
    ensures
        gf_partial(x, y ^ w, i) == gf_partial(x, y, i) ^ gf_partial(x, w, i),
    decreases 8 - i,
{
    if i < 8 {
        lemma_gf_partial_linear(x, y, w, (i + 1) as u8);
        lemma_gf_step_linear(
            gf_partial(x, y, (i + 1) as u8),
            gf_partial(x, w, (i + 1) as u8),
            x,
            y,
            w,
            i,
        );
    } else {
        assert(0u8 ^ 0u8 == 0u8) by (bit_vector);
    }
}

/// Multiplication distributes over addition (exclusive or) in GF(2^8).
pub proof fn lemma_gf_mul_distributive(x: u8, y: u8, w: u8)
    ensures
        gf_mul(x, y ^ w) == gf_mul(x, y) ^ gf_mul(x, w),
{
    lemma_gf_partial_linear(x, y, w, 0);
    lemma_gf_partial_full(x, y);
    lemma_gf_partial_full(x, w);
    lemma_gf_partial_full(x, y ^ w);
}

/// Multiplication by the generator alpha = 2 in GF(2^8) modulo 0x11D.
pub open spec fn gf_xtime(z: u8) -> u8 {
    ((z << 1u8) ^ (((z >> 7u8) * 0x1D) as u8)) as u8
}

proof fn lemma_xtime_linear(a: u8, b: u8)
    ensures
        gf_xtime(a ^ b) == gf_xtime(a) ^ gf_xtime(b),
{
    assert(gf_xtime(a ^ b) == gf_xtime(a) ^ gf_xtime(b)) by (bit_vector);
}

/// The bits of `y` from `k` up, as a sum of single bits: a property that holds of
/// zero and of single bits, and is kept by sums, holds of them.
proof fn lemma_span_from(p: spec_fn(u8) -> bool, y: u8, k: u8)
    requires
        k <= 8,
        p(0),
        forall|a: u8, b: u8| p(a) && p(b) ==> #[trigger] p(a ^ b),
        forall|j: u8| j < 8 ==> #[trigger] p(1u8 << j),
    ensures
        p(((y >> k) << k) as u8),
    decreases 8 - k,
{
    if k == 8 {
        assert(((y >> 8u8) << 8u8) as u8 == 0) by (bit_vector);
    } else {
        lemma_span_from(p, y, (k + 1) as u8);
        let high = ((y >> ((k + 1) as u8)) << ((k + 1) as u8)) as u8;
        let bit = y & (1u8 << k);
        assert(((y >> k) << k) as u8 == high ^ bit && (bit == 0 || bit == (1u8 << k))) by (bit_vector)
            requires
                k < 8,
                high == ((y >> ((k + 1) as u8)) << ((k + 1) as u8)) as u8,
                bit == y & (1u8 << k),
        ;
        assert(p(bit));
        assert(p(high ^ bit));
    }
}

/// Multiplying by alpha commutes with multiplying by `x`.
proof fn lemma_gf_mul_xtime(x: u8, y: u8)
    ensures
        gf_mul(x, gf_xtime(y)) == gf_xtime(gf_mul(x, y)),
{
    let p = |w: u8| gf_mul(x, gf_xtime(w)) == gf_xtime(gf_mul(x, w));
    assert(p(0)) by {
        lemma_gf_mul_unit_zero(x);
        assert(gf_xtime(0) == 0) by (bit_vector);
    }
    assert forall|a: u8, b: u8| p(a) && p(b) implies #[trigger] p(a ^ b) by {
        lemma_xtime_linear(a, b);
        lemma_gf_mul_distributive(x, gf_xtime(a), gf_xtime(b));
        lemma_gf_mul_distributive(x, a, b);
        lemma_xtime_linear(gf_mul(x, a), gf_mul(x, b));
    }
    assert forall|j: u8| j < 8 implies #[trigger] p(1u8 << j) by {
        assert(j < 8 ==> gf_mul(x, gf_xtime(1u8 << j)) == gf_xtime(gf_mul(x, 1u8 << j)))
            by (bit_vector);
    }
    lemma_span_from(p, y, 0);
    assert(((y >> 0u8) << 0u8) as u8 == y) by (bit_vector);
}

/// Associativity of the product on `z` ranging over single bits.
proof fn lemma_gf_mul_assoc_bit(x: u8, y: u8, j: u8)
    requires
        j < 8,
    ensures
        gf_mul(gf_mul(x, y), 1u8 << j) == gf_mul(x, gf_mul(y, 1u8 << j)),
    decreases j,
{
    if j == 0 {
        assert(1u8 << 0u8 == 1) by (bit_vector);
        lemma_gf_mul_unit_zero(gf_mul(x, y));
        lemma_gf_mul_unit_zero(y);
    } else {
        let i = (j - 1) as u8;
        lemma_gf_mul_assoc_bit(x, y, i);
        let w = 1u8 << i;
        assert(1u8 << j == gf_xtime(w)) by (bit_vector)
            requires
                0 < j < 8,
                i == j - 1,
                w == 1u8 << i,
        ;
        lemma_gf_mul_xtime(gf_mul(x, y), w);
        lemma_gf_mul_xtime(y, w);
        lemma_gf_mul_xtime(x, gf_mul(y, w));
    }
}

/// Multiplication in GF(2^8) is associative.
pub proof fn lemma_gf_mul_associative(x: u8, y: u8, z: u8)
    ensures
        gf_mul(gf_mul(x, y), z) == gf_mul(x, gf_mul(y, z)),
{
    let p = |w: u8| gf_mul(gf_mul(x, y), w) == gf_mul(x, gf_mul(y, w));
    assert(p(0)) by {
        lemma_gf_mul_unit_zero(gf_mul(x, y));
        lemma_gf_mul_unit_zero(y);
        lemma_gf_mul_unit_zero(x);
    }
    assert forall|a: u8, b: u8| p(a) && p(b) implies #[trigger] p(a ^ b) by {
        lemma_gf_mul_distributive(gf_mul(x, y), a, b);
        lemma_gf_mul_distributive(y, a, b);
        lemma_gf_mul_distributive(x, gf_mul(y, a), gf_mul(y, b));
    }
    assert forall|j: u8| j < 8 implies #[trigger] p(1u8 << j) by {
        lemma_gf_mul_assoc_bit(x, y, j);
    }
    lemma_span_from(p, z, 0);
    assert(((z >> 0u8) << 0u8) as u8 == z) by (bit_vector);
}

/// alpha^k for the generator alpha = 2 of GF(2^8).
pub open spec fn alpha_pow(k: nat) -> u8
    decreases k,
{
    if k == 0 {
        1
    } else {
        gf_mul(alpha_pow((k - 1) as nat), 2)
    }
}

/// Multiplies the polynomial with coefficients `r` (highest first, leading 1
/// implicit) by (x - root), keeping the implicit leading 1.
pub open spec fn rs_times_root(r: Seq<u8>, root: u8) -> Seq<u8> {
    Seq::new(
        r.len(),
        |j: int| gf_mul(r[j], root) ^ (if j + 1 < r.len() { r[j + 1] } else { 0u8 }),
    )
}

/// The divisor after `k` of its `degree` factors (x - alpha^i) have been applied.
pub open spec fn rs_divisor_after(degree: nat, k: nat) -> Seq<u8>
    decreases k,
{
    if k == 0 {
        Seq::new(degree, |j: int| if j == degree - 1 { 1u8 } else { 0u8 })
    } else {
        rs_times_root(rs_divisor_after(degree, (k - 1) as nat), alpha_pow((k - 1) as nat))
    }
}

/// The Reed-Solomon generator polynomial of the given degree, the product of
/// (x - alpha^i) for i below the degree, highest coefficient first without the
/// leading 1.
pub open spec fn rs_divisor(degree: nat) -> Seq<u8> {
    rs_divisor_after(degree, degree)
}

/// The generator polynomial of the given degree.
pub fn reed_solomon_compute_divisor(degree: usize) -> (r: Vec<u8>)
    requires
        1 <= degree <= 255,
    ensures
        r@ == rs_divisor(degree as nat),
{
    let mut result: Vec<u8> = Vec::new();
    let mut z: usize = 0;
    while z < degree - 1
        invariant
            z <= degree - 1,
            result@ =~= Seq::new(z as nat, |j: int| 0u8),
        decreases degree - 1 - z,
    {
        result.push(0);
        z += 1;
    }
    result.push(1);
    assert(result@ =~= rs_divisor_after(degree as nat, 0));
    let mut root: u8 = 1;
    let mut k: usize = 0;
    while k < degree
        invariant
            k <= degree <= 255,
            result@ == rs_divisor_after(degree as nat, k as nat),
            result@.len() == degree,
            root == alpha_pow(k as nat),
        decreases degree - k,
    {
        let ghost before = result@;
        let mut j: usize = 0;
        while j < degree
            invariant
                j <= degree == result@.len() == before.len(),
                forall|t: int| 0 <= t < j ==> result@[t] == rs_times_root(before, root)[t],
                forall|t: int| j <= t < degree ==> result@[t] == before[t],
            decreases degree - j,
        {
            let m = reed_solomon_multiply(result[j], root);
            result.set(j, m);
            if j + 1 < result.len() {
                let next = result[j + 1];
                result.set(j, m ^ next);
            } else {
                assert(m ^ 0u8 == m) by (bit_vector);
            }
            j += 1;
        }
        assert(result@ =~= rs_times_root(before, root));
        root = reed_solomon_multiply(root, 0x02);
        k += 1;
    }
    result
}

/// One step of the remainder: shift in the next data byte and subtract the
/// divisor scaled by the byte that leaves.
pub open spec fn rs_rem_step(r: Seq<u8>, b: u8, divisor: Seq<u8>) -> Seq<u8> {
    let factor = (b ^ r[0]) as u8;
    let shifted = r.drop_first().push(0u8);
    Seq::new(
        shifted.len(),
        |j: int|
            if j < divisor.len() {
                (shifted[j] ^ gf_mul(divisor[j], factor)) as u8
            } else {
                shifted[j]
            },
    )
}

/// The remainder after the first `n` data bytes.
pub open spec fn rs_rem_prefix(data: Seq<u8>, divisor: Seq<u8>, n: nat) -> Seq<u8>
    decreases n,
{
    if n == 0 {
        Seq::new(divisor.len(), |j: int| 0u8)
    } else {
        rs_rem_step(rs_rem_prefix(data, divisor, (n - 1) as nat), data[n - 1], divisor)
    }
}

/// The remainder of data(x) * x^d divided by the divisor, as computed by the
/// shift register of the QR code standard.
pub open spec fn rs_remainder(data: Seq<u8>, divisor: Seq<u8>) -> Seq<u8> {
    rs_rem_prefix(data, divisor, data.len())
}

/// The error-correction codewords of `data` for the given generator polynomial.
pub fn reed_solomon_compute_remainder(data: &[u8], divisor: &[u8]) -> (r: Vec<u8>)
    requires
        data@.len() > 0 ==> divisor@.len() > 0,
    ensures
        r@ == rs_remainder(data@, divisor@),
        r@.len() == divisor@.len(),
{
    let mut result: Vec<u8> = Vec::new();
    let mut z: usize = 0;
    while z < divisor.len()
        invariant
            z <= divisor@.len(),
            result@ =~= Seq::new(z as nat, |j: int| 0u8),
        decreases divisor@.len() - z,
    {
        result.push(0);
        z += 1;
    }
    let mut n: usize = 0;
    while n < data.len()
        invariant
            n <= data@.len(),
            data@.len() > 0 ==> divisor@.len() > 0,
            result@ == rs_rem_prefix(data@, divisor@, n as nat),
            result@.len() == divisor@.len(),
        decreases data@.len() - n,
    {
        let ghost before = result@;
        let b = data[n];
        let first = result.remove(0);
        let factor = b ^ first;
        result.push(0);
        let ghost shifted = result@;
        let mut j: usize = 0;
        while j < result.len()
            invariant
                j <= result@.len() == shifted.len() == divisor@.len(),
                factor == b ^ before[0],
                shifted == before.drop_first().push(0u8),
                forall|t: int| 0 <= t < j ==> result@[t] == rs_rem_step(before, b, divisor@)[t],
                forall|t: int| j <= t < result@.len() ==> result@[t] == shifted[t],
            decreases result@.len() - j,
        {
            let m = reed_solomon_multiply(divisor[j], factor);
            let x = result[j];
            result.set(j, x ^ m);
            j += 1;
        }
        assert(result@ =~= rs_rem_step(before, b, divisor@));
        n += 1;
    }
    result
}

/// Multiplying in roots keeps the number of coefficients.
pub proof fn lemma_rs_divisor_after_len(degree: nat, k: nat)
    ensures
        rs_divisor_after(degree, k).len() == degree,
    decreases k,
{
    if k > 0 {
        lemma_rs_divisor_after_len(degree, (k - 1) as nat);
    }
}

/// The generator polynomial of degree `d` has `d` coefficients besides the leading 1.
pub proof fn lemma_rs_divisor_len(degree: nat)
    ensures
        rs_divisor(degree).len() == degree,
{
    lemma_rs_divisor_after_len(degree, degree);
}

/// The shift register keeps as many codewords as the divisor has coefficients.
pub proof fn lemma_rs_rem_prefix_len(data: Seq<u8>, divisor: Seq<u8>, n: nat)
    requires
        n <= data.len(),
        n > 0 ==> divisor.len() > 0,
    ensures
        rs_rem_prefix(data, divisor, n).len() == divisor.len(),
    decreases n,
{
    if n > 0 {
        lemma_rs_rem_prefix_len(data, divisor, (n - 1) as nat);
    }
}

/// The remainder has as many codewords as the divisor has coefficients.
pub proof fn lemma_rs_remainder_len(data: Seq<u8>, divisor: Seq<u8>)
    requires
        data.len() > 0 ==> divisor.len() > 0,
    ensures
        rs_remainder(data, divisor).len() == divisor.len(),
{
    lemma_rs_rem_prefix_len(data, divisor, data.len());
}

proof fn lemma_rem_prefix_extend(data: Seq<u8>, extra: Seq<u8>, divisor: Seq<u8>, n: nat)
    requires
        n <= data.len(),
    ensures
        rs_rem_prefix(data + extra, divisor, n) == rs_rem_prefix(data, divisor, n),
    decreases n,
{
    if n > 0 {
        lemma_rem_prefix_extend(data, extra, divisor, (n - 1) as nat);
        assert((data + extra)[n - 1] == data[n - 1]);
    }
}

/// After the data, each codeword of the remainder shifts one codeword of the
/// remainder out of the register and a zero in.
proof fn lemma_rem_prefix_drains(data: Seq<u8>, divisor: Seq<u8>, k: nat)
    requires
        divisor.len() > 0,
        k <= divisor.len(),
    ensures
        rs_rem_prefix(data + rs_remainder(data, divisor), divisor, data.len() + k) == rs_remainder(
            data,
            divisor,
        ).subrange(k as int, divisor.len() as int) + Seq::new(k, |j: int| 0u8),
    decreases k,
{
    let r = rs_remainder(data, divisor);
    let n = divisor.len() as int;
    lemma_rs_remainder_len(data, divisor);
    if k == 0 {
        lemma_rem_prefix_extend(data, r, divisor, data.len());
        assert(r.subrange(0, n) + Seq::new(0, |j: int| 0u8) =~= r);
    } else {
        lemma_rem_prefix_drains(data, divisor, (k - 1) as nat);
        let s = r.subrange(k - 1, n) + Seq::new((k - 1) as nat, |j: int| 0u8);
        let b = (data + r)[data.len() + k - 1];
        let head = s[0];
        assert(b == head);
        assert((b ^ head) as u8 == 0) by (bit_vector)
            requires
                b == head,
        ;
        assert forall|j: int| 0 <= j < divisor.len() implies gf_mul(divisor[j], 0) == 0 by {
            lemma_gf_mul_unit_zero(divisor[j]);
        }
        assert forall|x: u8| #[trigger] (x ^ 0u8) == x by {
            assert(x ^ 0u8 == x) by (bit_vector);
        }
        assert(rs_rem_step(s, b, divisor) =~= r.subrange(k as int, n) + Seq::new(k, |j: int| 0u8));
    }
}

/// The data followed by its error-correction codewords leaves no remainder: the
/// codeword polynomial is a multiple of the generator.
pub proof fn lemma_codewords_leave_no_remainder(data: Seq<u8>, divisor: Seq<u8>)
    requires
        divisor.len() > 0,
    ensures
        rs_remainder(data + rs_remainder(data, divisor), divisor) == Seq::new(
            divisor.len(),
            |j: int| 0u8,
        ),
{
    lemma_rs_remainder_len(data, divisor);
    lemma_rem_prefix_drains(data, divisor, divisor.len());
    let r = rs_remainder(data, divisor);
    assert((data + r).len() == data.len() + divisor.len());
    assert(r.subrange(divisor.len() as int, divisor.len() as int) + Seq::new(
        divisor.len(),
        |j: int| 0u8,
    ) =~= Seq::new(divisor.len(), |j: int| 0u8));
}

} // verus!

verus! {

/// The value at `x` of the polynomial whose coefficients, highest power first, are
/// `top` followed by `r`, by Horner's rule in GF(2^8).
pub open spec fn poly_eval(top: u8, r: Seq<u8>, x: u8) -> u8
    decreases r.len(),
{
    if r.len() == 0 {
        top
    } else {
        gf_mul(poly_eval(top, r.drop_last(), x), x) ^ r.last()
    }
}

/// Coefficient `m` of `r`, zero past its end.
pub open spec fn coef(r: Seq<u8>, m: int) -> u8 {
    if 0 <= m < r.len() {
        r[m]
    } else {
        0
    }
}

proof fn lemma_gf_mul_distributive_left(u: u8, v: u8, w: u8)
    ensures
        gf_mul(u ^ v, w) == gf_mul(u, w) ^ gf_mul(v, w),
{
    lemma_gf_mul_commutative(u ^ v, w);
    lemma_gf_mul_distributive(w, u, v);
    lemma_gf_mul_commutative(w, u);
    lemma_gf_mul_commutative(w, v);
}

/// Multiplying by (x + a) with `rs_times_root`: the coefficients so far give the
/// product, up to the coefficient not yet taken.
proof fn lemma_times_root_eval(r: Seq<u8>, a: u8, x: u8, m: nat)
    requires
        r.len() >= 1,
        m <= r.len(),
    ensures
        poly_eval(r[0], rs_times_root(r, a).subrange(0, m as int), x) == gf_mul(
            poly_eval(0, r.subrange(0, m as int), x),
            x ^ a,
        ) ^ coef(r, m as int),
    decreases m,
{
    let s = rs_times_root(r, a);
    if m == 0 {
        lemma_gf_mul_unit_zero(x ^ a);
        let c = r[0];
        assert((0u8 ^ c) == c) by (bit_vector);
    } else {
        let k = (m - 1) as nat;
        lemma_times_root_eval(r, a, x, k);
        assert(s.subrange(0, m as int).drop_last() =~= s.subrange(0, k as int));
        assert(r.subrange(0, m as int).drop_last() =~= r.subrange(0, k as int));
        let p = poly_eval(0, r.subrange(0, k as int), x);
        let c = r[k as int];
        let n = coef(r, m as int);
        let xa = x ^ a;
        let sk = poly_eval(r[0], s.subrange(0, k as int), x);
        assert(sk == gf_mul(p, xa) ^ c);
        assert(s[k as int] == gf_mul(c, a) ^ n);
        let am = gf_mul(p, x) ^ c;
        assert(poly_eval(0, r.subrange(0, m as int), x) == am);
        assert(poly_eval(r[0], s.subrange(0, m as int), x) == gf_mul(sk, x) ^ (gf_mul(c, a) ^ n));
        lemma_gf_mul_distributive_left(gf_mul(p, xa), c, x);
        lemma_gf_mul_associative(p, xa, x);
        lemma_gf_mul_commutative(xa, x);
        lemma_gf_mul_associative(p, x, xa);
        lemma_gf_mul_distributive_left(gf_mul(p, x), c, xa);
        lemma_gf_mul_distributive(c, x, a);
        let t = gf_mul(gf_mul(p, x), xa);
        let u = gf_mul(c, x);
        let v = gf_mul(c, a);
        assert(gf_mul(sk, x) == t ^ u);
        assert(gf_mul(am, xa) == t ^ (u ^ v));
        assert(((t ^ u) ^ (v ^ n)) == ((t ^ (u ^ v)) ^ n)) by (bit_vector);
    }
}

/// After `k` factors, the coefficients above x^k are zero and that of x^k is one.
proof fn lemma_divisor_after_degree(d: nat, k: nat)
    requires
        k < d,
    ensures
        rs_divisor_after(d, k).len() == d,
        forall|j: int| 0 <= j < d - 1 - k ==> #[trigger] rs_divisor_after(d, k)[j] == 0,
        rs_divisor_after(d, k)[d - 1 - k] == 1,
    decreases k,
{
    lemma_rs_divisor_after_len(d, k);
    if k > 0 {
        let prev = rs_divisor_after(d, (k - 1) as nat);
        let root = alpha_pow((k - 1) as nat);
        lemma_divisor_after_degree(d, (k - 1) as nat);
        assert forall|j: int| 0 <= j < d - 1 - k implies #[trigger] rs_divisor_after(d, k)[j]
            == 0 by {
            lemma_gf_mul_unit_zero(root);
            assert((0u8 ^ 0u8) == 0u8) by (bit_vector);
        }
        let j = d - 1 - k;
        lemma_gf_mul_unit_zero(root);
        assert((0u8 ^ 1u8) == 1u8) by (bit_vector);
        assert(rs_divisor_after(d, k)[j] == gf_mul(prev[j], root) ^ prev[j + 1]);
    }
}

/// The product of the first `k` factors (x + alpha^i) vanishes at alpha^i, i < k.
proof fn lemma_divisor_after_roots(d: nat, k: nat, i: nat)
    requires
        k < d,
        i < k,
    ensures
        poly_eval(0, rs_divisor_after(d, k), alpha_pow(i)) == 0,
    decreases k,
{
    let k1 = (k - 1) as nat;
    let prev = rs_divisor_after(d, k1);
    let root = alpha_pow(k1);
    let x = alpha_pow(i);
    assert(rs_divisor_after(d, k) == rs_times_root(prev, root));
    lemma_divisor_after_degree(d, k1);
    assert(prev[0] == 0);
    lemma_times_root_eval(prev, root, x, d);
    assert(prev.subrange(0, d as int) =~= prev);
    assert(rs_times_root(prev, root).subrange(0, d as int) =~= rs_times_root(prev, root));
    let v = poly_eval(0, prev, x);
    assert(poly_eval(0, rs_divisor_after(d, k), x) == gf_mul(v, x ^ root) ^ coef(prev, d as int));
    assert(coef(prev, d as int) == 0);
    assert((gf_mul(v, x ^ root) ^ 0u8) == gf_mul(v, x ^ root)) by (bit_vector);
    if i < k1 {
        lemma_divisor_after_roots(d, k1, i);
        lemma_gf_mul_unit_zero(x ^ root);
    } else {
        assert((x ^ x) == 0u8) by (bit_vector);
        lemma_gf_mul_unit_zero(v);
    }
}

/// The generator polynomial of degree `d` (leading 1 included) vanishes at
/// alpha^0, ..., alpha^(d-1).
pub proof fn lemma_divisor_roots(d: nat, i: nat)
    requires
        i < d,
    ensures
        poly_eval(1, rs_divisor(d), alpha_pow(i)) == 0,
{
    let k = (d - 1) as nat;
    let prev = rs_divisor_after(d, k);
    let root = alpha_pow(k);
    let x = alpha_pow(i);
    lemma_divisor_after_degree(d, k);
    lemma_times_root_eval(prev, root, x, d);
    assert(prev.subrange(0, d as int) =~= prev);
    assert(rs_times_root(prev, root).subrange(0, d as int) =~= rs_times_root(prev, root));
    assert(prev[0] == 1);
    let v = poly_eval(0, prev, x);
    assert((gf_mul(v, x ^ root) ^ 0u8) == gf_mul(v, x ^ root)) by (bit_vector);
    if i < k {
        lemma_divisor_after_roots(d, k, i);
        lemma_gf_mul_unit_zero(x ^ root);
    } else {
        assert((x ^ x) == 0u8) by (bit_vector);
        lemma_gf_mul_unit_zero(v);
    }
}

} // verus!
