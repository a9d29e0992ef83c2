//! The module matrix of a QR code symbol and the drawing of its patterns.
use vstd::prelude::*;
use crate::tables::valid_version;

verus! {

/// Column of the flat module index `i` in a matrix of side `size`.
pub open spec fn col(size: int, i: int) -> int {
    i % size
}

/// Row of the flat module index `i` in a matrix of side `size`.
pub open spec fn row(size: int, i: int) -> int {
    i / size
}

/// The modules after each module `i` for which `f(i)` is `Some(v)` is set to `v`.
pub open spec fn painted(s: Seq<bool>, f: spec_fn(int) -> Option<bool>) -> Seq<bool> {
    Seq::new(s.len(), |i: int| if let Some(v) = f(i) { v } else { s[i] })
}

/// The function flags after each module `i` for which `f(i)` is `Some` is marked.
pub open spec fn marked(s: Seq<bool>, f: spec_fn(int) -> Option<bool>) -> Seq<bool> {
    Seq::new(s.len(), |i: int| if f(i) is Some { true } else { s[i] })
}

/// The column and row of the flat index of module (x, y).
pub proof fn lemma_cell_index(size: int, x: int, y: int)
    requires
        0 <= x < size,
    ensures
        col(size, y * size + x) == x,
        row(size, y * size + x) == y,
{
    vstd::arithmetic::div_mod::lemma_fundamental_div_mod_converse(y * size + x, size, y, x);
}

/// A flat index within the matrix is the index of its column and row.
pub proof fn lemma_index_cell(size: int, i: int)
    requires
        size > 0,
        0 <= i < size * size,
    ensures
        0 <= col(size, i) < size,
        0 <= row(size, i) < size,
        i == row(size, i) * size + col(size, i),
{
    vstd::arithmetic::div_mod::lemma_fundamental_div_mod(i, size);
    vstd::arithmetic::div_mod::lemma_div_pos_is_pos(i, size);
    let q = i / size;
    let r = i % size;
    assert(0 <= r < size);
    assert(q < size) by (nonlinear_arith)
        requires
            i == size * q + r,
            0 <= r,
            i < size * size,
            size > 0,
    ;
    assert(size * q == q * size) by (nonlinear_arith);
}

/// Painting one more module: if `g` agrees with `f` everywhere but at `idx`,
/// where it sets `v`, painting with `g` is painting with `f` and then setting `idx`.
pub proof fn lemma_paint_one(
    s: Seq<bool>,
    t: Seq<bool>,
    f: spec_fn(int) -> Option<bool>,
    g: spec_fn(int) -> Option<bool>,
    idx: int,
    v: bool,
)
    requires
        0 <= idx < s.len(),
        s.len() == t.len(),
        g(idx) == Some(v),
        forall|i: int| 0 <= i < s.len() && i != idx ==> #[trigger] g(i) == f(i),
    ensures
        painted(s, f).update(idx, v) == painted(s, g),
        marked(t, f).update(idx, true) == marked(t, g),
{
    assert(painted(s, f).update(idx, v) =~= painted(s, g));
    assert(marked(t, f).update(idx, true) =~= marked(t, g));
}

/// Painting with a region that agrees with the empty region leaves the modules as they are.
pub proof fn lemma_paint_none(s: Seq<bool>, t: Seq<bool>, f: spec_fn(int) -> Option<bool>)
    requires
        forall|i: int| 0 <= i < s.len() ==> #[trigger] f(i) is None,
        forall|i: int| 0 <= i < t.len() ==> #[trigger] f(i) is None,
    ensures
        painted(s, f) == s,
        marked(t, f) == t,
{
    assert(painted(s, f) =~= s);
    assert(marked(t, f) =~= t);
}

/// Painting with regions that agree gives the same modules.
pub proof fn lemma_paint_same(
    s: Seq<bool>,
    t: Seq<bool>,
    f: spec_fn(int) -> Option<bool>,
    g: spec_fn(int) -> Option<bool>,
)
    requires
        s.len() == t.len(),
        forall|i: int| 0 <= i < s.len() ==> #[trigger] f(i) == g(i),
    ensures
        painted(s, f) == painted(s, g),
        marked(t, f) == marked(t, g),
{
    assert(painted(s, f) =~= painted(s, g));
    assert(marked(t, f) =~= marked(t, g));
}

/// Chebyshev distance of (dx, dy) from the origin.
pub open spec fn cheb(dx: int, dy: int) -> int {
    let ax = if dx < 0 { -dx } else { dx };
    let ay = if dy < 0 { -dy } else { dy };
    if ax < ay { ay } else { ax }
}

/// The finder pattern centred at (cx, cy), with its separator: rings at distance 2
/// and 4 are light, the rest dark.
pub open spec fn finder_cell(cx: int, cy: int, x: int, y: int) -> Option<bool> {
    if -4 <= x - cx <= 4 && -4 <= y - cy <= 4 {
        Some(cheb(x - cx, y - cy) != 2 && cheb(x - cx, y - cy) != 4)
    } else {
        None
    }
}

/// The finder pattern centred on module (cx, cy), as a region of flat indices.
pub open spec fn finder_region(size: int, cx: int, cy: int) -> spec_fn(int) -> Option<bool> {
    |i: int| finder_cell(cx, cy, col(size, i), row(size, i))
}

/// The alignment pattern centred on flat index `c`: the 5x5 square around it,
/// light at distance 1 and dark elsewhere, cells counted in flat index offsets.
pub open spec fn alignment_cell(size: int, c: int, i: int) -> Option<bool> {
    let d = i - c + 2 + 2 * size;
    let dy = d / size - 2;
    let dx = d % size - 2;
    if d >= 0 && -2 <= dy <= 2 && dx <= 2 {
        Some(cheb(dx, dy) != 1)
    } else {
        None
    }
}

/// The alignment pattern centred on module (cx, cy), as a region of flat indices.
pub open spec fn alignment_region(size: int, cx: int, cy: int) -> spec_fn(int) -> Option<bool> {
    |i: int| alignment_cell(size, cy * size + cx, i)
}

/// Whether (a, b) comes before (c, d) in row-major order.
pub open spec fn before_in(a: int, b: int, c: int, d: int) -> bool {
    a < c || (a == c && b < d)
}

/// The part of the finder pattern at (cx, cy) whose offsets (row, column) come
/// before (ly, lx).
pub open spec fn finder_part(size: int, cx: int, cy: int, ly: int, lx: int) -> spec_fn(
    int,
) -> Option<bool> {
    |i: int|
        if before_in(row(size, i) - cy, col(size, i) - cx, ly, lx) {
            finder_cell(cx, cy, col(size, i), row(size, i))
        } else {
            None
        }
}

/// The offset (row, column) of flat index `i` from the alignment centre `c`.
pub open spec fn align_dy(size: int, c: int, i: int) -> int {
    (i - c + 2 + 2 * size) / size - 2
}

/// The column offset of flat index `i` from the alignment centre `c`.
pub open spec fn align_dx(size: int, c: int, i: int) -> int {
    (i - c + 2 + 2 * size) % size - 2
}

/// The part of the alignment pattern centred on flat index `c` whose offsets come
/// before (ly, lx).
pub open spec fn alignment_part(size: int, c: int, ly: int, lx: int) -> spec_fn(int) -> Option<
    bool,
> {
    |i: int|
        if before_in(align_dy(size, c, i), align_dx(size, c, i), ly, lx) {
            alignment_cell(size, c, i)
        } else {
            None
        }
}

/// The cell at offset (dx, dy) from an alignment centre has those offsets, and its
/// colour is dark except at distance 1.
pub proof fn lemma_align_decode(size: int, c: int, dx: int, dy: int)
    requires
        size >= 5,
        -2 <= dx <= 2,
        -2 <= dy <= 2,
    ensures
        align_dy(size, c, c + dy * size + dx) == dy,
        align_dx(size, c, c + dy * size + dx) == dx,
        alignment_cell(size, c, c + dy * size + dx) == Some(cheb(dx, dy) != 1),
{
    let i = c + dy * size + dx;
    assert(i - c + 2 + 2 * size == (dy + 2) * size + (dx + 2)) by (nonlinear_arith)
        requires
            i == c + dy * size + dx,
    ;
    vstd::arithmetic::div_mod::lemma_fundamental_div_mod_converse(
        i - c + 2 + 2 * size,
        size,
        dy + 2,
        dx + 2,
    );
    assert((dy + 2) * size + (dx + 2) >= 0) by (nonlinear_arith)
        requires
            dy + 2 >= 0,
            dx + 2 >= 0,
            size >= 0,
    ;
}

/// A flat index is its alignment centre moved by its offsets.
pub proof fn lemma_align_encode(size: int, c: int, i: int)
    requires
        size >= 5,
        i - c + 2 + 2 * size >= 0,
    ensures
        i == c + align_dy(size, c, i) * size + align_dx(size, c, i),
{
    let d = i - c + 2 + 2 * size;
    vstd::arithmetic::div_mod::lemma_fundamental_div_mod(d, size);
    assert(size * (d / size) == (d / size) * size) by (nonlinear_arith);
    assert((d / size - 2) * size == (d / size) * size - 2 * size) by (nonlinear_arith);
}

/// The checkerboard of mask 0: modules whose row and column sum is even.
pub open spec fn mask_bit(size: int, i: int) -> bool {
    (col(size, i) + row(size, i)) % 2 == 0
}

/// The modules after mask 0 is applied to every module that is not a function module.
pub open spec fn masked(m: Seq<bool>, isf: Seq<bool>, size: int) -> Seq<bool> {
    Seq::new(m.len(), |i: int| if !isf[i] && mask_bit(size, i) { !m[i] } else { m[i] })
}

/// Masking twice gives the modules back: the mask is its own inverse.
pub proof fn lemma_mask_involution(m: Seq<bool>, isf: Seq<bool>, size: int)
    requires
        isf.len() == m.len(),
    ensures
        masked(masked(m, isf, size), isf, size) == m,
{
    assert(masked(masked(m, isf, size), isf, size) =~= m);
}

/// Masking changes no function module.
pub proof fn lemma_mask_keeps_function_modules(m: Seq<bool>, isf: Seq<bool>, size: int, i: int)
    requires
        isf.len() == m.len(),
        0 <= i < m.len(),
        isf[i],
    ensures
        masked(m, isf, size)[i] == m[i],
{
}

/// The order in which the format information is written: the write number of the
/// module at (x, y), or -1 for a module that gets no format bit.
pub open spec fn format_index(size: int, x: int, y: int) -> int {
    if x == 8 && 0 <= y <= 5 {
        y
    } else if x == 8 && y == 7 {
        6
    } else if x == 8 && y == 8 {
        7
    } else if x == 7 && y == 8 {
        8
    } else if y == 8 && 0 <= x <= 5 {
        14 - x
    } else if y == 8 && size - 8 <= x <= size - 1 {
        15 + (size - 1 - x)
    } else if x == 8 && size - 7 <= y <= size - 1 {
        y - size + 30
    } else if x == 8 && y == size - 8 {
        30
    } else {
        -1
    }
}

/// The value of write number `k` of the format information: bits 0 to 14 of the
/// format word around the top-left finder, again beside the other two finders,
/// and the dark module.
pub open spec fn format_value(bits: u32, k: int) -> bool {
    if k == 30 {
        true
    } else if k < 15 {
        crate::layout::bit_of(bits, k as u32)
    } else {
        crate::layout::bit_of(bits, (k - 15) as u32)
    }
}

/// The first `n` writes of the format information.
pub open spec fn format_part(size: int, bits: u32, n: int) -> spec_fn(int) -> Option<bool> {
    |i: int|
        {
            let k = format_index(size, col(size, i), row(size, i));
            if 0 <= k < n {
                Some(format_value(bits, k))
            } else {
                None
            }
        }
}

/// The format information modules: two copies of the format word and the dark module.
pub open spec fn format_region(size: int) -> spec_fn(int) -> Option<bool> {
    format_part(size, 0x5412, 31)
}

/// The order in which the version information is written: the write number of
/// the module at (x, y), or -1. Write 2i goes to the block above the bottom-left
/// finder, write 2i+1 to its mirror left of the top-right finder.
pub open spec fn version_index(size: int, x: int, y: int) -> int {
    if size - 11 <= x <= size - 9 && 0 <= y <= 5 {
        2 * (3 * y + (x - (size - 11)))
    } else if 0 <= x <= 5 && size - 11 <= y <= size - 9 {
        2 * (3 * x + (y - (size - 11))) + 1
    } else {
        -1
    }
}

/// The first `n` writes of the version information of word `bits`.
pub open spec fn version_part(size: int, bits: u32, n: int) -> spec_fn(int) -> Option<bool> {
    |i: int|
        {
            let k = version_index(size, col(size, i), row(size, i));
            if 0 <= k < n {
                Some(crate::layout::bit_of(bits, (k / 2) as u32))
            } else {
                None
            }
        }
}

/// The version information modules of a symbol (none below version 7).
pub open spec fn version_region(version: int, size: int) -> spec_fn(int) -> Option<bool> {
    if version >= 7 {
        version_part(size, crate::layout::version_word(version as u32), 36)
    } else {
        |i: int| None
    }
}

/// `g` drawn over `f`: where `g` sets a module, its value wins.
pub open spec fn over(g: spec_fn(int) -> Option<bool>, f: spec_fn(int) -> Option<bool>) -> spec_fn(
    int,
) -> Option<bool> {
    |i: int| if g(i) is Some { g(i) } else { f(i) }
}

/// Painting twice is painting once with the second region drawn over the first.
pub proof fn lemma_paint_over(
    s: Seq<bool>,
    t: Seq<bool>,
    f: spec_fn(int) -> Option<bool>,
    g: spec_fn(int) -> Option<bool>,
)
    ensures
        painted(painted(s, f), g) == painted(s, over(g, f)),
        marked(marked(t, f), g) == marked(t, over(g, f)),
{
    assert(painted(painted(s, f), g) =~= painted(s, over(g, f)));
    assert(marked(marked(t, f), g) =~= marked(t, over(g, f)));
}

/// The timing patterns drawn up to index `n` (and, when `mid`, the vertical module at `n`):
/// row 6 and column 6 alternate dark and light, dark at even positions.
pub open spec fn timing_part(size: int, n: int, mid: bool) -> spec_fn(int) -> Option<bool> {
    |i: int|
        {
            let x = col(size, i);
            let y = row(size, i);
            if x == 6 && (y < n || (mid && y == n)) {
                Some(y % 2 == 0)
            } else if y == 6 && x < n {
                Some(x % 2 == 0)
            } else {
                None
            }
        }
}

/// The timing patterns of a symbol of side `size`.
pub open spec fn timing_region(size: int) -> spec_fn(int) -> Option<bool> {
    timing_part(size, size, false)
}

/// The three finder patterns, with their separators.
pub open spec fn finders_region(size: int) -> spec_fn(int) -> Option<bool> {
    over(
        finder_region(size, 3, size - 4),
        over(finder_region(size, size - 4, 3), finder_region(size, 3, 3)),
    )
}

/// The index of the alignment centre in `p`, from `k` on, within distance 2 of
/// `x`, or -1.
pub open spec fn align_index_from(p: Seq<int>, x: int, k: int) -> int
    decreases p.len() - k,
{
    if k < 0 || k >= p.len() {
        -1
    } else if p[k] - 2 <= x <= p[k] + 2 {
        k
    } else {
        align_index_from(p, x, k + 1)
    }
}

/// Whether centre pair (i, j) is one of the three corners taken by the finders.
pub open spec fn is_corner(i: int, j: int, n: int) -> bool {
    (i == 0 && j == 0) || (i == 0 && j == n - 1) || (i == n - 1 && j == 0)
}

/// The alignment patterns at centre pairs (i, j) of `p` before (li, lj), leaving
/// out the three corners.
pub open spec fn alignments_part(p: Seq<int>, size: int, li: int, lj: int) -> spec_fn(
    int,
) -> Option<bool> {
    |c: int|
        {
            let a = col(size, c);
            let b = row(size, c);
            let ix = align_index_from(p, a, 0);
            let iy = align_index_from(p, b, 0);
            if ix >= 0 && iy >= 0 && !is_corner(ix, iy, p.len() as int) && before_in(
                ix,
                iy,
                li,
                lj,
            ) {
                Some(cheb(a - p[ix], b - p[iy]) != 1)
            } else {
                None
            }
        }
}

/// All alignment patterns of a symbol.
pub open spec fn alignments_region(version: int, size: int) -> spec_fn(int) -> Option<bool> {
    let p = crate::layout::align_positions(version, size);
    alignments_part(p, size, p.len() as int, 0)
}

/// Every function pattern of a symbol, each drawn over those drawn before it:
/// timing patterns, finders, alignment patterns, format and version information.
pub open spec fn function_region(version: int, size: int) -> spec_fn(int) -> Option<bool> {
    over(
        version_region(version, size),
        over(
            format_region(size),
            over(
                alignments_region(version, size),
                over(finders_region(size), timing_region(size)),
            ),
        ),
    )
}

/// Alignment centres at least 5 apart, in increasing order.
pub open spec fn well_spaced(p: Seq<int>) -> bool {
    forall|a: int, b: int| 0 <= a < b < p.len() ==> #[trigger] p[a] + 5 <= #[trigger] p[b]
}

/// Among well-spaced centres, a coordinate within 2 of centre `k0` is found at `k0`.
pub proof fn lemma_align_index_found(p: Seq<int>, x: int, k: int, k0: int)
    requires
        well_spaced(p),
        0 <= k <= k0 < p.len(),
        p[k0] - 2 <= x <= p[k0] + 2,
    ensures
        align_index_from(p, x, k) == k0,
    decreases k0 - k,
{
    if k < k0 {
        assert(p[k] + 5 <= p[k0]);
        lemma_align_index_found(p, x, k + 1, k0);
    }
}

/// A centre found for a coordinate lies within 2 of it.
pub proof fn lemma_align_index_sound(p: Seq<int>, x: int, k: int)
    requires
        0 <= k,
    ensures
        align_index_from(p, x, k) >= 0 ==> {
            let r = align_index_from(p, x, k);
            &&& k <= r < p.len()
            &&& p[r] - 2 <= x <= p[r] + 2
        },
    decreases p.len() - k,
{
    if k < p.len() && !(p[k] - 2 <= x <= p[k] + 2) {
        lemma_align_index_sound(p, x, k + 1);
    }
}

/// For a centre well inside the symbol, the flat alignment pattern is the 5x5 square.
pub proof fn lemma_alignment_box(size: int, cx: int, cy: int, a: int, b: int)
    requires
        5 <= size,
        2 <= cx <= size - 3,
        2 <= cy <= size - 3,
        0 <= a < size,
        0 <= b < size,
    ensures
        alignment_cell(size, cy * size + cx, b * size + a) == (if -2 <= a - cx <= 2 && -2 <= b
            - cy <= 2 {
            Some(cheb(a - cx, b - cy) != 1)
        } else {
            None
        }),
{
    let c = cy * size + cx;
    let i = b * size + a;
    let d = i - c + 2 + 2 * size;
    if 0 <= a - cx + 2 < size {
        assert(d == (b - cy + 2) * size + (a - cx + 2)) by (nonlinear_arith)
            requires
                d == i - c + 2 + 2 * size,
                i == b * size + a,
                c == cy * size + cx,
        ;
        vstd::arithmetic::div_mod::lemma_fundamental_div_mod_converse(d, size, b - cy + 2, a - cx + 2);
        if d < 0 {
            assert(b - cy + 2 < 0) by (nonlinear_arith)
                requires
                    d == (b - cy + 2) * size + (a - cx + 2),
                    d < 0,
                    a - cx + 2 >= 0,
                    size > 0,
            ;
        }
    } else {
        assert(a - cx + 2 < 0);
        assert(d == (b - cy + 1) * size + (a - cx + 2 + size)) by (nonlinear_arith)
            requires
                d == i - c + 2 + 2 * size,
                i == b * size + a,
                c == cy * size + cx,
        ;
        vstd::arithmetic::div_mod::lemma_fundamental_div_mod_converse(
            d,
            size,
            b - cy + 1,
            a - cx + 2 + size,
        );
    }
}

/// The right column of column pair `p` in the zigzag placement of codeword bits,
/// which walks pairs of columns from the right edge leftwards, skipping column 6.
pub open spec fn zz_right(size: int, p: int) -> int {
    if size - 1 - 2 * p > 6 {
        size - 1 - 2 * p
    } else {
        size - 2 - 2 * p
    }
}

/// Whether column pair `p` is walked upwards.
pub open spec fn zz_up(size: int, p: int) -> bool {
    (zz_right(size, p) + 1) % 4 < 2
}

/// Number of column pairs of the zigzag.
pub open spec fn zz_pairs(size: int) -> int {
    (size - 1) / 2
}

/// The flat index of step (p, vert, j) of the zigzag: pair `p`, `vert` modules from
/// where the pair starts, `j` = 0 for the right column and 1 for the left one.
pub open spec fn zz_cell(size: int, p: int, vert: int, j: int) -> int {
    let x = zz_right(size, p) - j;
    let y = if zz_up(size, p) {
        size - 1 - vert
    } else {
        vert
    };
    y * size + x
}

/// The flat index of step number `t` of the zigzag.
pub open spec fn zz_cell_at(size: int, t: int) -> int {
    let p = t / (2 * size);
    let r = t % (2 * size);
    zz_cell(size, p, r / 2, r % 2)
}

/// The step number at which the zigzag reaches module (x, y), for x other than 6.
pub open spec fn zz_step(size: int, x: int, y: int) -> int {
    let right = if x >= 7 {
        if x % 2 == 0 {
            x
        } else {
            x + 1
        }
    } else if x % 2 == 1 {
        x
    } else {
        x + 1
    };
    let j = right - x;
    let p = if right >= 8 {
        (size - 1 - right) / 2
    } else {
        (size - 2 - right) / 2
    };
    let vert = if zz_up(size, p) {
        size - 1 - y
    } else {
        y
    };
    (p * size + vert) * 2 + j
}

/// Number of modules that are not function modules among the first `t` steps of
/// the zigzag.
pub open spec fn zz_count(isf: Seq<bool>, size: int, t: int) -> int
    decreases t,
{
    if t <= 0 {
        0
    } else {
        zz_count(isf, size, t - 1) + (if !isf[zz_cell_at(size, t - 1)] {
            1int
        } else {
            0int
        })
    }
}

/// Bit `k` of `data`, bytes most significant bit first.
pub open spec fn data_bit(data: Seq<u8>, k: int) -> bool {
    crate::layout::bit_of(data[k / 8] as u32, (7 - k % 8) as u32)
}

/// The codeword bits placed by the first `t` steps of the zigzag: the k-th module
/// that is not a function module gets data bit k, while bits remain.
pub open spec fn codeword_part(isf: Seq<bool>, size: int, data: Seq<u8>, t: int) -> spec_fn(
    int,
) -> Option<bool> {
    |c: int|
        {
            let x = col(size, c);
            let y = row(size, c);
            let s = zz_step(size, x, y);
            let k = zz_count(isf, size, s);
            if x != 6 && !isf[c] && s < t && k < 8 * data.len() {
                Some(data_bit(data, k))
            } else {
                None
            }
        }
}

/// All codeword bits of `data`, placed in the zigzag order over the modules that
/// are not function modules.
pub open spec fn codeword_region(isf: Seq<bool>, size: int, data: Seq<u8>) -> spec_fn(
    int,
) -> Option<bool> {
    codeword_part(isf, size, data, zz_pairs(size) * size * 2)
}

/// Step (p, vert, j) reaches a module of the symbol other than column 6, whose step
/// number is (p * size + vert) * 2 + j.
pub proof fn lemma_zz_cell(size: int, p: int, vert: int, j: int)
    requires
        21 <= size,
        size % 2 == 1,
        0 <= p < zz_pairs(size),
        0 <= vert < size,
        0 <= j <= 1,
    ensures
        ({
            let x = zz_right(size, p) - j;
            let y = if zz_up(size, p) {
                size - 1 - vert
            } else {
                vert
            };
            &&& 0 <= x < size
            &&& x != 6
            &&& 0 <= y < size
            &&& zz_cell(size, p, vert, j) == y * size + x
            &&& zz_step(size, x, y) == (p * size + vert) * 2 + j
        }),
{
}

/// Different steps of the zigzag reach different modules.
#[verifier::spinoff_prover]
pub proof fn lemma_zz_unique(size: int, x: int, y: int, p: int, vert: int, j: int)
    requires
        21 <= size,
        size % 2 == 1,
        0 <= x < size,
        0 <= y < size,
        x != 6,
        0 <= p < zz_pairs(size),
        0 <= vert < size,
        0 <= j <= 1,
        zz_step(size, x, y) == (p * size + vert) * 2 + j,
    ensures
        zz_cell(size, p, vert, j) == y * size + x,
{
    let right = if x >= 7 {
        if x % 2 == 0 {
            x
        } else {
            x + 1
        }
    } else if x % 2 == 1 {
        x
    } else {
        x + 1
    };
    let j2 = right - x;
    let p2 = if right >= 8 {
        (size - 1 - right) / 2
    } else {
        (size - 2 - right) / 2
    };
    let vert2 = if zz_up(size, p2) {
        size - 1 - y
    } else {
        y
    };
    let t = (p * size + vert) * 2 + j;
    vstd::arithmetic::div_mod::lemma_fundamental_div_mod_converse(t, 2, p * size + vert, j);
    vstd::arithmetic::div_mod::lemma_fundamental_div_mod_converse(t, 2, p2 * size + vert2, j2);
    vstd::arithmetic::div_mod::lemma_fundamental_div_mod_converse(p * size + vert, size, p, vert);
    vstd::arithmetic::div_mod::lemma_fundamental_div_mod_converse(
        p2 * size + vert2,
        size,
        p2,
        vert2,
    );
}

/// Step number t of the zigzag is step (p, vert, j).
pub proof fn lemma_zz_at(size: int, p: int, vert: int, j: int)
    requires
        21 <= size,
        0 <= p,
        0 <= vert < size,
        0 <= j <= 1,
    ensures
        zz_cell_at(size, (p * size + vert) * 2 + j) == zz_cell(size, p, vert, j),
{
    let t = (p * size + vert) * 2 + j;
    assert(t == p * (2 * size) + (2 * vert + j)) by (nonlinear_arith)
        requires
            t == (p * size + vert) * 2 + j,
    ;
    vstd::arithmetic::div_mod::lemma_fundamental_div_mod_converse(t, 2 * size, p, 2 * vert + j);
    vstd::arithmetic::div_mod::lemma_fundamental_div_mod_converse(2 * vert + j, 2, vert, j);
}

/// A side of `size` modules, all light and none a function module.
pub open spec fn blank(size: int) -> Seq<bool> {
    Seq::new((size * size) as nat, |i: int| false)
}

/// The function modules of the symbol of version `ver` holding `data`.
pub open spec fn symbol_function_modules(ver: int) -> Seq<bool> {
    let size = 4 * ver + 17;
    marked(marked(blank(size), function_region(ver, size)), format_region(size))
}

/// The modules of the symbol of version `ver` holding `data`: function patterns,
/// the interleaved codewords in zigzag order, mask 0, and the format information.
pub open spec fn symbol_modules(data: Seq<u8>, ver: int) -> Seq<bool> {
    let size = 4 * ver + 17;
    let f1 = marked(blank(size), function_region(ver, size));
    let m1 = painted(blank(size), function_region(ver, size));
    let cw = crate::blocks::interleaved_codewords(crate::message::data_codewords(data, ver), ver);
    let m2 = painted(m1, codeword_region(f1, size, cw));
    painted(masked(m2, f1, size), format_region(size))
}

/// A QR code symbol: its version, side length, the colour of each module (dark is
/// `true`), and which modules belong to function patterns.
pub struct ManualQrCode {
    version: usize,
    size: usize,
    modules: Vec<bool>,
    is_function: Vec<bool>,
}

impl ManualQrCode {
    pub closed spec fn spec_version(&self) -> int {
        self.version as int
    }

    pub closed spec fn spec_size(&self) -> int {
        self.size as int
    }

    /// The colours, row after row; `true` is dark.
    pub closed spec fn spec_modules(&self) -> Seq<bool> {
        self.modules@
    }

    /// Which modules belong to function patterns, row after row.
    pub closed spec fn spec_is_function(&self) -> Seq<bool> {
        self.is_function@
    }

    /// A symbol of a version of the standard, with consistent sizes.
    pub open spec fn wf(&self) -> bool {
        &&& valid_version(self.spec_version())
        &&& self.spec_size() == 4 * self.spec_version() + 17
        &&& self.spec_modules().len() == self.spec_size() * self.spec_size()
        &&& self.spec_is_function().len() == self.spec_size() * self.spec_size()
    }

    /// Whether `other` has the same version and size as `self`.
    pub open spec fn same_shape(&self, other: &Self) -> bool {
        self.spec_version() == other.spec_version() && self.spec_size() == other.spec_size()
    }

    /// A symbol of the given version with every module light and none a function module.
    pub fn new(version: usize) -> (r: Self)
        requires
            (4 * version + 17) * (4 * version + 17) <= usize::MAX,
        ensures
            r.spec_version() == version,
            r.spec_size() == 4 * version + 17,
            r.spec_modules() == Seq::new((r.spec_size() * r.spec_size()) as nat, |i: int| false),
            r.spec_is_function() == Seq::new(
                (r.spec_size() * r.spec_size()) as nat,
                |i: int| false,
            ),
    {
        proof {
            assert(4 * version + 17 <= (4 * version + 17) * (4 * version + 17)) by (nonlinear_arith);
        }
        let size = version * 4 + 17;
        let r = Self {
            version,
            size,
            modules: vec![false; size * size],
            is_function: vec![false; size * size],
        };
        assert(r.modules@ =~= Seq::new((size * size) as nat, |i: int| false));
        assert(r.is_function@ =~= Seq::new((size * size) as nat, |i: int| false));
        r
    }

    /// The side length in modules.
    pub fn size(&self) -> (r: usize)
        ensures
            r == self.spec_size(),
    {
        self.size
    }

    /// Whether the module at column `x`, row `y` is dark; outside the symbol, light.
    pub fn get_module(&self, x: usize, y: usize) -> (r: bool)
        requires
            self.wf(),
        ensures
            r == (x < self.spec_size() && y < self.spec_size() && self.spec_modules()[y
                * self.spec_size() + x]),
    {
        if x < self.size && y < self.size {
            proof {
                assert(y * self.size + x < self.size * self.size) by (nonlinear_arith)
                    requires
                        x < self.size,
                        y < self.size,
                ;
                assert(self.size * self.size <= 177 * 177) by (nonlinear_arith)
                    requires
                        self.size <= 177,
                ;
            }
            self.modules[y * self.size + x]
        } else {
            false
        }
    }

    /// Sets the module at flat index `y * size + x` to `is_dark` and marks it a
    /// function module.
    pub fn set_function_module(&mut self, x: i32, y: i32, is_dark: bool)
        requires
            old(self).wf(),
            i32::MIN <= y * old(self).spec_size() <= i32::MAX,
            0 <= y * old(self).spec_size() + x < old(self).spec_size() * old(self).spec_size(),
        ensures
            final(self).same_shape(old(self)),
            final(self).spec_modules() == old(self).spec_modules().update(
                y * old(self).spec_size() + x,
                is_dark,
            ),
            final(self).spec_is_function() == old(self).spec_is_function().update(
                y * old(self).spec_size() + x,
                true,
            ),
    {
        let s = self.size as i32;
        assert(s == self.size);
        assert(self.size * self.size <= 177 * 177) by (nonlinear_arith)
            requires
                self.size <= 177,
        ;
        let idx = (y * s + x) as usize;
        self.modules.set(idx, is_dark);
        self.is_function.set(idx, true);
    }

    /// Draws the finder pattern centred at (x, y) with its separator, clipped to
    /// the symbol, as function modules.
    pub fn draw_finder_pattern(&mut self, x: i32, y: i32)
        requires
            old(self).wf(),
            i32::MIN + 4 <= x <= i32::MAX - 4,
            i32::MIN + 4 <= y <= i32::MAX - 4,
        ensures
            final(self).wf(),
            final(self).same_shape(old(self)),
            final(self).spec_modules() == painted(
                old(self).spec_modules(),
                finder_region(old(self).spec_size(), x as int, y as int),
            ),
            final(self).spec_is_function() == marked(
                old(self).spec_is_function(),
                finder_region(old(self).spec_size(), x as int, y as int),
            ),
    {
        let ghost size = self.size as int;
        let ghost m0 = self.modules@;
        let ghost f0 = self.is_function@;
        let s = self.size as i32;
        proof {
            lemma_paint_none(m0, f0, finder_part(size, x as int, y as int, -4, -4));
        }
        let mut dy: i32 = -4;
        while dy <= 4
            invariant
                -4 <= dy <= 5,
                self.wf(),
                s == size == self.spec_size(),
                self.spec_version() == old(self).spec_version(),
                m0 == old(self).spec_modules(),
                f0 == old(self).spec_is_function(),
                i32::MIN + 4 <= x <= i32::MAX - 4,
                i32::MIN + 4 <= y <= i32::MAX - 4,
                self.spec_modules() == painted(m0, finder_part(size, x as int, y as int, dy as int, -4)),
                self.spec_is_function() == marked(f0, finder_part(size, x as int, y as int, dy as int, -4)),
            decreases 5 - dy,
        {
            let mut dx: i32 = -4;
            while dx <= 4
                invariant
                    -4 <= dy <= 4,
                    -4 <= dx <= 5,
                    self.wf(),
                    s == size == self.spec_size(),
                    self.spec_version() == old(self).spec_version(),
                    m0 == old(self).spec_modules(),
                    f0 == old(self).spec_is_function(),
                    i32::MIN + 4 <= x <= i32::MAX - 4,
                    i32::MIN + 4 <= y <= i32::MAX - 4,
                    self.spec_modules() == painted(m0, finder_part(size, x as int, y as int, dy as int, dx as int)),
                    self.spec_is_function() == marked(f0, finder_part(size, x as int, y as int, dy as int, dx as int)),
                decreases 5 - dx,
            {
                let xx = x + dx;
                let yy = y + dy;
                let ghost f = finder_part(size, x as int, y as int, dy as int, dx as int);
                let ghost g = finder_part(size, x as int, y as int, dy as int, dx + 1);
                if 0 <= xx && xx < s && 0 <= yy && yy < s {
                    let adx = if dx < 0 { -dx } else { dx };
                    let ady = if dy < 0 { -dy } else { dy };
                    let dist = if adx < ady { ady } else { adx };
                    proof {
                        assert(yy * size + xx < size * size) by (nonlinear_arith)
                            requires
                                0 <= xx < size,
                                0 <= yy < size,
                        ;
                        assert(yy * size <= size * size) by (nonlinear_arith)
                            requires
                                0 <= yy < size,
                                size >= 0,
                        ;
                        assert(size * size <= 177 * 177) by (nonlinear_arith)
                            requires
                                0 <= size <= 177,
                        ;
                        assert(0 <= yy * size) by (nonlinear_arith)
                            requires
                                0 <= yy,
                                size >= 0,
                        ;
                        let idx = yy * size + xx;
                        lemma_cell_index(size, xx as int, yy as int);
                        assert forall|i: int| 0 <= i < m0.len() && i != idx implies #[trigger] g(i) == f(i) by {
                            lemma_index_cell(size, i);
                        }
                        lemma_paint_one(m0, f0, f, g, idx, dist != 2 && dist != 4);
                    }
                    self.set_function_module(xx, yy, dist != 2 && dist != 4);
                } else {
                    proof {
                        assert forall|i: int| 0 <= i < m0.len() implies #[trigger] g(i) == f(i) by {
                            lemma_index_cell(size, i);
                        }
                        lemma_paint_same(m0, f0, f, g);
                    }
                }
                dx += 1;
            }
            proof {
                let f = finder_part(size, x as int, y as int, dy as int, 5);
                let g = finder_part(size, x as int, y as int, dy + 1, -4);
                assert forall|i: int| 0 <= i < m0.len() implies #[trigger] f(i) == g(i) by {}
                lemma_paint_same(m0, f0, f, g);
            }
            dy += 1;
        }
        proof {
            let f = finder_part(size, x as int, y as int, 5, -4);
            let g = finder_region(size, x as int, y as int);
            assert forall|i: int| 0 <= i < m0.len() implies #[trigger] f(i) == g(i) by {}
            lemma_paint_same(m0, f0, f, g);
        }
    }

    /// Draws the alignment pattern centred on flat index `y * size + x` as
    /// function modules: the 5x5 square around it, light at distance 1.
    pub fn draw_alignment_pattern(&mut self, x: i32, y: i32)
        requires
            old(self).wf(),
            i32::MIN + 2 <= x <= i32::MAX - 2,
            i32::MIN + 2 <= y <= i32::MAX - 2,
            i32::MIN <= (y - 2) * old(self).spec_size(),
            (y + 2) * old(self).spec_size() <= i32::MAX,
            0 <= y * old(self).spec_size() + x - 2 * old(self).spec_size() - 2,
            y * old(self).spec_size() + x + 2 * old(self).spec_size() + 2 < old(self).spec_size()
                * old(self).spec_size(),
        ensures
            final(self).wf(),
            final(self).same_shape(old(self)),
            final(self).spec_modules() == painted(
                old(self).spec_modules(),
                alignment_region(old(self).spec_size(), x as int, y as int),
            ),
            final(self).spec_is_function() == marked(
                old(self).spec_is_function(),
                alignment_region(old(self).spec_size(), x as int, y as int),
            ),
    {
        let ghost size = self.size as int;
        let ghost c = y * size + x;
        let ghost m0 = self.modules@;
        let ghost f0 = self.is_function@;
        proof {
            assert forall|i: int| 0 <= i < m0.len() implies #[trigger] alignment_part(size, c, -2, -2)(i) is None by {
                if alignment_cell(size, c, i) is Some {
                    assert(align_dy(size, c, i) >= -2);
                }
            }
            lemma_paint_none(m0, f0, alignment_part(size, c, -2, -2));
        }
        let mut dy: i32 = -2;
        while dy <= 2
            invariant
                -2 <= dy <= 3,
                self.wf(),
                size == self.spec_size(),
                c == y * size + x,
                self.spec_version() == old(self).spec_version(),
                m0 == old(self).spec_modules(),
                f0 == old(self).spec_is_function(),
                i32::MIN + 2 <= x <= i32::MAX - 2,
                i32::MIN + 2 <= y <= i32::MAX - 2,
                i32::MIN <= (y - 2) * size,
                (y + 2) * size <= i32::MAX,
                0 <= c - 2 * size - 2,
                c + 2 * size + 2 < size * size,
                self.spec_modules() == painted(m0, alignment_part(size, c, dy as int, -2)),
                self.spec_is_function() == marked(f0, alignment_part(size, c, dy as int, -2)),
            decreases 3 - dy,
        {
            let mut dx: i32 = -2;
            while dx <= 2
                invariant
                    -2 <= dy <= 2,
                    -2 <= dx <= 3,
                    self.wf(),
                    size == self.spec_size(),
                    c == y * size + x,
                    self.spec_version() == old(self).spec_version(),
                    m0 == old(self).spec_modules(),
                    f0 == old(self).spec_is_function(),
                    i32::MIN + 2 <= x <= i32::MAX - 2,
                    i32::MIN + 2 <= y <= i32::MAX - 2,
                    i32::MIN <= (y - 2) * size,
                    (y + 2) * size <= i32::MAX,
                    0 <= c - 2 * size - 2,
                    c + 2 * size + 2 < size * size,
                    self.spec_modules() == painted(m0, alignment_part(size, c, dy as int, dx as int)),
                    self.spec_is_function() == marked(f0, alignment_part(size, c, dy as int, dx as int)),
                decreases 3 - dx,
            {
                let adx = if dx < 0 { -dx } else { dx };
                let ady = if dy < 0 { -dy } else { dy };
                let dist = if adx < ady { ady } else { adx };
                let ghost f = alignment_part(size, c, dy as int, dx as int);
                let ghost g = alignment_part(size, c, dy as int, dx + 1);
                proof {
                    let idx = c + dy * size + dx;
                    assert(idx == (y + dy) * size + (x + dx)) by (nonlinear_arith)
                        requires
                            idx == c + dy * size + dx,
                            c == y * size + x,
                    ;
                    assert((y - 2) * size <= (y + dy) * size <= (y + 2) * size) by (nonlinear_arith)
                        requires
                            -2 <= dy <= 2,
                            size >= 0,
                    ;
                    assert(c - 2 * size - 2 <= idx <= c + 2 * size + 2) by (nonlinear_arith)
                        requires
                            idx == c + dy * size + dx,
                            -2 <= dy <= 2,
                            -2 <= dx <= 2,
                            size >= 0,
                    ;
                    lemma_align_decode(size, c, dx as int, dy as int);
                    assert forall|i: int| 0 <= i < m0.len() && i != idx implies #[trigger] g(i) == f(i) by {
                        if alignment_cell(size, c, i) is Some && align_dy(size, c, i) == dy
                            && align_dx(size, c, i) == dx {
                            lemma_align_encode(size, c, i);
                        }
                    }
                    lemma_paint_one(m0, f0, f, g, idx, dist != 1);
                }
                self.set_function_module(x + dx, y + dy, dist != 1);
                dx += 1;
            }
            proof {
                let f = alignment_part(size, c, dy as int, 3);
                let g = alignment_part(size, c, dy + 1, -2);
                assert forall|i: int| 0 <= i < m0.len() implies #[trigger] f(i) == g(i) by {}
                lemma_paint_same(m0, f0, f, g);
            }
            dy += 1;
        }
        proof {
            let f = alignment_part(size, c, 3, -2);
            let g = alignment_region(size, x as int, y as int);
            assert forall|i: int| 0 <= i < m0.len() implies #[trigger] f(i) == g(i) by {}
            lemma_paint_same(m0, f0, f, g);
        }
    }

    /// Applies mask 0 to every module that is not a function module.
    pub fn apply_mask(&mut self)
        requires
            old(self).wf(),
        ensures
            final(self).wf(),
            final(self).same_shape(old(self)),
            final(self).spec_is_function() == old(self).spec_is_function(),
            final(self).spec_modules() == masked(
                old(self).spec_modules(),
                old(self).spec_is_function(),
                old(self).spec_size(),
            ),
    {
        let ghost m0 = self.modules@;
        let ghost size = self.size as int;
        let s = self.size as i32;
        proof {
            assert(size * size <= 177 * 177) by (nonlinear_arith)
                requires
                    0 <= size <= 177,
            ;
        }
        let mut y: i32 = 0;
        while y < s
            invariant
                0 <= y <= s,
                s == size == self.spec_size(),
                self.wf(),
                self.spec_version() == old(self).spec_version(),
                size * size <= 177 * 177,
                self.spec_is_function() == old(self).spec_is_function(),
                m0 == old(self).spec_modules(),
                m0.len() == size * size,
                forall|i: int|
                    0 <= i < size * size ==> #[trigger] self.spec_modules()[i] == if i < y * size {
                        masked(m0, self.spec_is_function(), size)[i]
                    } else {
                        m0[i]
                    },
            decreases s - y,
        {
            let mut x: i32 = 0;
            while x < s
                invariant
                    0 <= y < s,
                    0 <= x <= s,
                    s == size == self.spec_size(),
                    self.wf(),
                    self.spec_version() == old(self).spec_version(),
                    size * size <= 177 * 177,
                    self.spec_is_function() == old(self).spec_is_function(),
                    m0 == old(self).spec_modules(),
                    m0.len() == size * size,
                    forall|i: int|
                        0 <= i < size * size ==> #[trigger] self.spec_modules()[i] == if i < y
                            * size + x {
                            masked(m0, self.spec_is_function(), size)[i]
                        } else {
                            m0[i]
                        },
                decreases s - x,
            {
                proof {
                    assert(y * size + x < size * size) by (nonlinear_arith)
                        requires
                            0 <= x < size,
                            0 <= y < size,
                    ;
                    assert(0 <= y * size) by (nonlinear_arith)
                        requires
                            0 <= y,
                            size >= 0,
                    ;
                    lemma_cell_index(size, x as int, y as int);
                }
                let idx = (y * s + x) as usize;
                assert(self.spec_modules()[idx as int] == m0[idx as int]);
                assert(mask_bit(size, idx as int) == ((x + y) % 2 == 0));
                let ghost prev = self.spec_modules();
                if !self.is_function[idx] && (x + y) % 2 == 0 {
                    let v = self.modules[idx];
                    self.modules.set(idx, !v);
                }
                assert(self.spec_modules()[idx as int] == masked(m0, self.spec_is_function(), size)[idx as int]);
                assert(forall|i: int| 0 <= i < size * size && i != idx ==> self.spec_modules()[i] == prev[i]);
                x += 1;
            }
            proof {
                assert(y * size + size == (y + 1) * size) by (nonlinear_arith);
            }
            y += 1;
        }
        proof {
            assert(self.modules@ =~= masked(m0, self.is_function@, size));
        }
    }

    /// Sets write number `k` of a stepwise drawing, given the cell it goes to.
    proof fn lemma_step_paint(
        m0: Seq<bool>,
        f0: Seq<bool>,
        size: int,
        f: spec_fn(int) -> Option<bool>,
        g: spec_fn(int) -> Option<bool>,
        x: int,
        y: int,
        v: bool,
    )
        requires
            5 <= size <= 177,
            m0.len() == size * size,
            f0.len() == size * size,
            0 <= x < size,
            0 <= y < size,
            g(y * size + x) == Some(v),
            forall|a: int, b: int|
                0 <= a < size && 0 <= b < size && (a != x || b != y) ==> #[trigger] g(b * size + a)
                    == f(b * size + a),
        ensures
            0 <= y * size + x < size * size,
            0 <= y * size <= 31329,
            painted(m0, f).update(y * size + x, v) == painted(m0, g),
            marked(f0, f).update(y * size + x, true) == marked(f0, g),
    {
        assert(y * size + x < size * size) by (nonlinear_arith)
            requires
                0 <= x < size,
                0 <= y < size,
        ;
        assert(0 <= y * size <= 31329) by (nonlinear_arith)
            requires
                0 <= y < size,
                size <= 177,
        ;
        assert forall|i: int| 0 <= i < m0.len() && i != y * size + x implies #[trigger] g(i) == f(i) by {
            lemma_index_cell(size, i);
            let a = col(size, i);
            let b = row(size, i);
            assert(g(b * size + a) == f(b * size + a));
        }
        lemma_paint_one(m0, f0, f, g, y * size + x, v);
    }

    /// Adding write number `n` of the format information at (x, y).
    proof fn lemma_format_step(m0: Seq<bool>, f0: Seq<bool>, size: int, n: int, x: int, y: int)
        requires
            21 <= size <= 177,
            m0.len() == size * size,
            f0.len() == size * size,
            0 <= x < size,
            0 <= y < size,
            format_index(size, x, y) == n,
            0 <= n <= 30,
        ensures
            0 <= y * size + x < size * size,
            0 <= y * size <= 31329,
            painted(m0, format_part(size, 0x5412, n)).update(
                y * size + x,
                format_value(0x5412, n),
            ) == painted(m0, format_part(size, 0x5412, n + 1)),
            marked(f0, format_part(size, 0x5412, n)).update(y * size + x, true) == marked(
                f0,
                format_part(size, 0x5412, n + 1),
            ),
    {
        let f = format_part(size, 0x5412, n);
        let g = format_part(size, 0x5412, n + 1);
        lemma_cell_index(size, x, y);
        assert forall|a: int, b: int|
            0 <= a < size && 0 <= b < size && (a != x || b != y) implies #[trigger] g(b * size + a)
            == f(b * size + a) by {
            lemma_cell_index(size, a, b);
        }
        Self::lemma_step_paint(m0, f0, size, f, g, x, y, format_value(0x5412, n));
    }

    /// Draws the format information (medium level, mask 0) and the dark module as
    /// function modules.
    pub fn draw_format_bits(&mut self)
        requires
            old(self).wf(),
        ensures
            final(self).wf(),
            final(self).same_shape(old(self)),
            final(self).spec_modules() == painted(
                old(self).spec_modules(),
                format_region(old(self).spec_size()),
            ),
            final(self).spec_is_function() == marked(
                old(self).spec_is_function(),
                format_region(old(self).spec_size()),
            ),
    {
        let bits = crate::layout::compute_format_bits();
        let ghost size = self.size as int;
        let ghost m0 = self.modules@;
        let ghost f0 = self.is_function@;
        let size32 = self.size as i32;
        let ghost mut n: int = 0;
        proof {
            assert forall|i: int| 0 <= i < m0.len() implies #[trigger] format_part(
                size,
                0x5412,
                0,
            )(i) is None by {}
            lemma_paint_none(m0, f0, format_part(size, 0x5412, 0));
        }
        let mut i: i32 = 0;
        while i < 6
            invariant
                0 <= i <= 6,
                n == i,
                bits == 0x5412,
                self.wf(),
                self.same_shape(old(self)),
                size == self.spec_size() == size32,
                m0 == old(self).spec_modules(),
                f0 == old(self).spec_is_function(),
                self.spec_modules() == painted(m0, format_part(size, 0x5412, n)),
                self.spec_is_function() == marked(f0, format_part(size, 0x5412, n)),
            decreases 6 - i,
        {
            proof {
                Self::lemma_format_step(m0, f0, size, n, 8, i as int);
            }
            let b = crate::layout::get_bit(bits, i as u32);
            self.set_function_module(8, i, b);
            proof {
                n = n + 1;
            }
            i += 1;
        }
        proof {
            Self::lemma_format_step(m0, f0, size, n, 8, 7);
        }
        let b = crate::layout::get_bit(bits, 6);
        self.set_function_module(8, 7, b);
        proof {
            n = n + 1;
            Self::lemma_format_step(m0, f0, size, n, 8, 8);
        }
        let b = crate::layout::get_bit(bits, 7);
        self.set_function_module(8, 8, b);
        proof {
            n = n + 1;
            Self::lemma_format_step(m0, f0, size, n, 7, 8);
        }
        let b = crate::layout::get_bit(bits, 8);
        self.set_function_module(7, 8, b);
        proof {
            n = n + 1;
        }
        let mut i: i32 = 9;
        while i < 15
            invariant
                9 <= i <= 15,
                n == i,
                bits == 0x5412,
                self.wf(),
                self.same_shape(old(self)),
                size == self.spec_size() == size32,
                m0 == old(self).spec_modules(),
                f0 == old(self).spec_is_function(),
                self.spec_modules() == painted(m0, format_part(size, 0x5412, n)),
                self.spec_is_function() == marked(f0, format_part(size, 0x5412, n)),
            decreases 15 - i,
        {
            proof {
                Self::lemma_format_step(m0, f0, size, n, 14 - i as int, 8);
            }
            let b = crate::layout::get_bit(bits, i as u32);
            self.set_function_module(14 - i, 8, b);
            proof {
                n = n + 1;
            }
            i += 1;
        }
        let mut i: i32 = 0;
        while i < 8
            invariant
                0 <= i <= 8,
                n == i + 15,
                bits == 0x5412,
                self.wf(),
                self.same_shape(old(self)),
                size == self.spec_size() == size32,
                m0 == old(self).spec_modules(),
                f0 == old(self).spec_is_function(),
                self.spec_modules() == painted(m0, format_part(size, 0x5412, n)),
                self.spec_is_function() == marked(f0, format_part(size, 0x5412, n)),
            decreases 8 - i,
        {
            proof {
                Self::lemma_format_step(m0, f0, size, n, size - 1 - i, 8);
            }
            let b = crate::layout::get_bit(bits, i as u32);
            self.set_function_module(size32 - 1 - i, 8, b);
            proof {
                n = n + 1;
            }
            i += 1;
        }
        let mut i: i32 = 8;
        while i < 15
            invariant
                8 <= i <= 15,
                n == i + 15,
                bits == 0x5412,
                self.wf(),
                self.same_shape(old(self)),
                size == self.spec_size() == size32,
                m0 == old(self).spec_modules(),
                f0 == old(self).spec_is_function(),
                self.spec_modules() == painted(m0, format_part(size, 0x5412, n)),
                self.spec_is_function() == marked(f0, format_part(size, 0x5412, n)),
            decreases 15 - i,
        {
            proof {
                Self::lemma_format_step(m0, f0, size, n, 8, size - 15 + i);
            }
            let b = crate::layout::get_bit(bits, i as u32);
            self.set_function_module(8, size32 - 15 + i, b);
            proof {
                n = n + 1;
            }
            i += 1;
        }
        proof {
            Self::lemma_format_step(m0, f0, size, n, 8, size - 8);
        }
        self.set_function_module(8, size32 - 8, true);
    }

    /// Adding write number `n` of the version information at (x, y).
    proof fn lemma_version_step(
        m0: Seq<bool>,
        f0: Seq<bool>,
        size: int,
        bits: u32,
        n: int,
        x: int,
        y: int,
    )
        requires
            21 <= size <= 177,
            m0.len() == size * size,
            f0.len() == size * size,
            0 <= x < size,
            0 <= y < size,
            version_index(size, x, y) == n,
            0 <= n < 36,
        ensures
            0 <= y * size + x < size * size,
            0 <= y * size <= 31329,
            painted(m0, version_part(size, bits, n)).update(
                y * size + x,
                crate::layout::bit_of(bits, (n / 2) as u32),
            ) == painted(m0, version_part(size, bits, n + 1)),
            marked(f0, version_part(size, bits, n)).update(y * size + x, true) == marked(
                f0,
                version_part(size, bits, n + 1),
            ),
    {
        let f = version_part(size, bits, n);
        let g = version_part(size, bits, n + 1);
        lemma_cell_index(size, x, y);
        assert forall|a: int, b: int|
            0 <= a < size && 0 <= b < size && (a != x || b != y) implies #[trigger] g(b * size + a)
            == f(b * size + a) by {
            lemma_cell_index(size, a, b);
        }
        Self::lemma_step_paint(m0, f0, size, f, g, x, y, crate::layout::bit_of(bits, (n / 2) as u32));
    }

    /// Draws the version information blocks (versions 7 and up) as function modules.
    pub fn draw_version(&mut self)
        requires
            old(self).wf(),
        ensures
            final(self).wf(),
            final(self).same_shape(old(self)),
            final(self).spec_modules() == painted(
                old(self).spec_modules(),
                version_region(old(self).spec_version(), old(self).spec_size()),
            ),
            final(self).spec_is_function() == marked(
                old(self).spec_is_function(),
                version_region(old(self).spec_version(), old(self).spec_size()),
            ),
    {
        let ghost size = self.size as int;
        let ghost m0 = self.modules@;
        let ghost f0 = self.is_function@;
        if self.version < 7 {
            proof {
                lemma_paint_none(m0, f0, version_region(self.version as int, size));
            }
            return;
        }
        proof {
            crate::layout::lemma_version_word_no_overflow(self.version as u32, 12);
        }
        let bits = crate::layout::compute_version_bits(self.version as u32);
        let size32 = self.size as i32;
        let ghost mut n: int = 0;
        proof {
            assert forall|i: int| 0 <= i < m0.len() implies #[trigger] version_part(
                size,
                bits,
                0,
            )(i) is None by {}
            lemma_paint_none(m0, f0, version_part(size, bits, 0));
        }
        let mut i: i32 = 0;
        while i < 18
            invariant
                0 <= i <= 18,
                n == 2 * i,
                self.wf(),
                self.same_shape(old(self)),
                size == self.spec_size() == size32,
                m0 == old(self).spec_modules(),
                f0 == old(self).spec_is_function(),
                self.spec_modules() == painted(m0, version_part(size, bits, n)),
                self.spec_is_function() == marked(f0, version_part(size, bits, n)),
            decreases 18 - i,
        {
            let bit = crate::layout::get_bit(bits, i as u32);
            let a = size32 - 11 + (i % 3);
            let b = i / 3;
            proof {
                Self::lemma_version_step(m0, f0, size, bits, n, a as int, b as int);
            }
            self.set_function_module(a, b, bit);
            proof {
                n = n + 1;
                Self::lemma_version_step(m0, f0, size, bits, n, b as int, a as int);
            }
            self.set_function_module(b, a, bit);
            proof {
                n = n + 1;
            }
            i += 1;
        }
        proof {
            lemma_paint_same(m0, f0, version_part(size, bits, n), version_region(self.version as int, size));
        }
    }

    proof fn lemma_timing_vertical(m0: Seq<bool>, f0: Seq<bool>, size: int, n: int)
        requires
            21 <= size <= 177,
            m0.len() == size * size,
            f0.len() == size * size,
            0 <= n < size,
        ensures
            0 <= n * size + 6 < size * size,
            0 <= n * size <= 31329,
            painted(m0, timing_part(size, n, false)).update(n * size + 6, n % 2 == 0) == painted(
                m0,
                timing_part(size, n, true),
            ),
            marked(f0, timing_part(size, n, false)).update(n * size + 6, true) == marked(
                f0,
                timing_part(size, n, true),
            ),
    {
        let f = timing_part(size, n, false);
        let g = timing_part(size, n, true);
        lemma_cell_index(size, 6, n);
        assert forall|a: int, b: int|
            0 <= a < size && 0 <= b < size && (a != 6 || b != n) implies #[trigger] g(b * size + a)
            == f(b * size + a) by {
            lemma_cell_index(size, a, b);
        }
        Self::lemma_step_paint(m0, f0, size, f, g, 6, n, n % 2 == 0);
    }

    proof fn lemma_timing_horizontal(m0: Seq<bool>, f0: Seq<bool>, size: int, n: int)
        requires
            21 <= size <= 177,
            m0.len() == size * size,
            f0.len() == size * size,
            0 <= n < size,
        ensures
            0 <= 6 * size + n < size * size,
            0 <= 6 * size <= 31329,
            painted(m0, timing_part(size, n, true)).update(6 * size + n, n % 2 == 0) == painted(
                m0,
                timing_part(size, n + 1, false),
            ),
            marked(f0, timing_part(size, n, true)).update(6 * size + n, true) == marked(
                f0,
                timing_part(size, n + 1, false),
            ),
    {
        let f = timing_part(size, n, true);
        let g = timing_part(size, n + 1, false);
        lemma_cell_index(size, n, 6);
        assert forall|a: int, b: int|
            0 <= a < size && 0 <= b < size && (a != n || b != 6) implies #[trigger] g(b * size + a)
            == f(b * size + a) by {
            lemma_cell_index(size, a, b);
        }
        Self::lemma_step_paint(m0, f0, size, f, g, n, 6, n % 2 == 0);
    }

    /// Drawing the alignment pattern of centre pair (i, j) over the pairs before it.
    proof fn lemma_alignment_step(
        m0: Seq<bool>,
        f0: Seq<bool>,
        p: Seq<int>,
        size: int,
        rf: spec_fn(int) -> Option<bool>,
        i: int,
        j: int,
    )
        requires
            21 <= size <= 177,
            m0.len() == size * size,
            f0.len() == size * size,
            well_spaced(p),
            forall|k: int| 0 <= k < p.len() ==> 2 <= #[trigger] p[k] <= size - 3,
            0 <= i < p.len(),
            0 <= j < p.len(),
        ensures
            !is_corner(i, j, p.len() as int) ==> painted(
                painted(m0, over(alignments_part(p, size, i, j), rf)),
                alignment_region(size, p[i], p[j]),
            ) == painted(m0, over(alignments_part(p, size, i, j + 1), rf)),
            !is_corner(i, j, p.len() as int) ==> marked(
                marked(f0, over(alignments_part(p, size, i, j), rf)),
                alignment_region(size, p[i], p[j]),
            ) == marked(f0, over(alignments_part(p, size, i, j + 1), rf)),
            is_corner(i, j, p.len() as int) ==> painted(
                m0,
                over(alignments_part(p, size, i, j), rf),
            ) == painted(m0, over(alignments_part(p, size, i, j + 1), rf)),
            is_corner(i, j, p.len() as int) ==> marked(
                f0,
                over(alignments_part(p, size, i, j), rf),
            ) == marked(f0, over(alignments_part(p, size, i, j + 1), rf)),
    {
        let part = alignments_part(p, size, i, j);
        let next = alignments_part(p, size, i, j + 1);
        let bx = alignment_region(size, p[i], p[j]);
        assert forall|c: int| 0 <= c < m0.len() implies {
            &&& (!is_corner(i, j, p.len() as int) ==> #[trigger] over(bx, over(part, rf))(c) == over(
                next,
                rf,
            )(c))
            &&& (is_corner(i, j, p.len() as int) ==> over(part, rf)(c) == over(next, rf)(c))
        } by {
            lemma_index_cell(size, c);
            let a = col(size, c);
            let b = row(size, c);
            assert(c == b * size + a);
            lemma_alignment_box(size, p[i], p[j], a, b);
            lemma_align_index_sound(p, a, 0);
            lemma_align_index_sound(p, b, 0);
            if -2 <= a - p[i] <= 2 && -2 <= b - p[j] <= 2 {
                lemma_align_index_found(p, a, 0, i);
                lemma_align_index_found(p, b, 0, j);
                assert(bx(c) == Some(cheb(a - p[i], b - p[j]) != 1));
            } else {
                assert(bx(c) is None);
                let ix = align_index_from(p, a, 0);
                let iy = align_index_from(p, b, 0);
                assert(!(ix == i && iy == j));
            }
        }
        lemma_paint_over(m0, f0, over(part, rf), bx);
        if is_corner(i, j, p.len() as int) {
            lemma_paint_same(m0, f0, over(part, rf), over(next, rf));
        } else {
            lemma_paint_same(m0, f0, over(bx, over(part, rf)), over(next, rf));
        }
    }

    /// Draws every function pattern: timing patterns, the three finders with their
    /// separators, the alignment patterns, the format information with the dark
    /// module, and the version information.
    pub fn draw_function_patterns(&mut self)
        requires
            old(self).wf(),
        ensures
            final(self).wf(),
            final(self).same_shape(old(self)),
            final(self).spec_modules() == painted(
                old(self).spec_modules(),
                function_region(old(self).spec_version(), old(self).spec_size()),
            ),
            final(self).spec_is_function() == marked(
                old(self).spec_is_function(),
                function_region(old(self).spec_version(), old(self).spec_size()),
            ),
    {
        let ghost sz = self.size as int;
        let ghost ver = self.version as int;
        let ghost m0 = self.modules@;
        let ghost f0 = self.is_function@;
        let size = self.size as i32;
        proof {
            assert forall|c: int| 0 <= c < m0.len() implies #[trigger] timing_part(sz, 0, false)(c)
                is None by {
                lemma_index_cell(sz, c);
            }
            lemma_paint_none(m0, f0, timing_part(sz, 0, false));
        }
        let mut i: i32 = 0;
        while i < size
            invariant
                0 <= i <= size,
                self.wf(),
                self.same_shape(old(self)),
                sz == self.spec_size() == size,
                m0 == old(self).spec_modules(),
                f0 == old(self).spec_is_function(),
                self.spec_modules() == painted(m0, timing_part(sz, i as int, false)),
                self.spec_is_function() == marked(f0, timing_part(sz, i as int, false)),
            decreases size - i,
        {
            proof {
                Self::lemma_timing_vertical(m0, f0, sz, i as int);
            }
            self.set_function_module(6, i, i % 2 == 0);
            proof {
                Self::lemma_timing_horizontal(m0, f0, sz, i as int);
            }
            self.set_function_module(i, 6, i % 2 == 0);
            i += 1;
        }
        let ghost rt = timing_region(sz);
        self.draw_finder_pattern(3, 3);
        proof {
            lemma_paint_over(m0, f0, rt, finder_region(sz, 3, 3));
        }
        self.draw_finder_pattern(size - 4, 3);
        proof {
            lemma_paint_over(m0, f0, over(finder_region(sz, 3, 3), rt), finder_region(sz, sz - 4, 3));
        }
        self.draw_finder_pattern(3, size - 4);
        proof {
            let r2 = over(finder_region(sz, sz - 4, 3), over(finder_region(sz, 3, 3), rt));
            lemma_paint_over(m0, f0, r2, finder_region(sz, 3, sz - 4));
            let rf = over(finders_region(sz), rt);
            assert forall|c: int| 0 <= c < m0.len() implies #[trigger] over(
                finder_region(sz, 3, sz - 4),
                r2,
            )(c) == rf(c) by {}
            lemma_paint_same(m0, f0, over(finder_region(sz, 3, sz - 4), r2), rf);
        }
        let ghost rf = over(finders_region(sz), rt);
        proof {
            crate::tables::lemma_version_facts(ver);
        }
        let align_positions = crate::layout::alignment_pattern_positions(self.version, self.size);
        let ghost p = crate::layout::align_positions(ver, sz);
        let numalign = align_positions.len();
        proof {
            assert(p.len() == numalign);
            assert forall|k: int| 0 <= k < p.len() implies 6 <= #[trigger] p[k] <= sz - 7 by {
                if k > 0 {
                    assert((crate::tables::align_count(ver) - 1 - k) * crate::layout::align_step(ver)
                        <= (crate::tables::align_count(ver) - 2) * crate::layout::align_step(ver))
                        by (nonlinear_arith)
                        requires
                            k >= 1,
                            crate::layout::align_step(ver) >= 0,
                    ;
                }
            }
            assert forall|a: int, b: int| 0 <= a < b < p.len() implies #[trigger] p[a] + 5
                <= #[trigger] p[b] by {
                let st = crate::layout::align_step(ver);
                let n = crate::tables::align_count(ver);
                if a > 0 {
                    assert((n - 1 - a) * st >= (n - 1 - b) * st + 12) by (nonlinear_arith)
                        requires
                            a < b,
                            st >= 12,
                    ;
                } else {
                    assert((n - 1 - b) * st <= (n - 2) * st) by (nonlinear_arith)
                        requires
                            b >= 1,
                            st >= 0,
                    ;
                }
            }
            assert forall|c: int| 0 <= c < m0.len() implies #[trigger] over(
                alignments_part(p, sz, 0, 0),
                rf,
            )(c) == rf(c) by {}
            lemma_paint_same(m0, f0, over(alignments_part(p, sz, 0, 0), rf), rf);
        }
        let mut ai: usize = 0;
        while ai < numalign
            invariant
                0 <= ai <= numalign == p.len(),
                self.wf(),
                self.same_shape(old(self)),
                sz == self.spec_size() == size,
                ver == self.spec_version(),
                m0 == old(self).spec_modules(),
                f0 == old(self).spec_is_function(),
                well_spaced(p),
                forall|k: int| 0 <= k < p.len() ==> 6 <= #[trigger] p[k] <= sz - 7,
                forall|k: int| 0 <= k < p.len() ==> align_positions@[k] as int == #[trigger] p[k],
                align_positions@.len() == numalign,
                self.spec_modules() == painted(m0, over(alignments_part(p, sz, ai as int, 0), rf)),
                self.spec_is_function() == marked(f0, over(alignments_part(p, sz, ai as int, 0), rf)),
            decreases numalign - ai,
        {
            let mut aj: usize = 0;
            while aj < numalign
                invariant
                    0 <= ai < numalign == p.len(),
                    0 <= aj <= numalign,
                    self.wf(),
                    self.same_shape(old(self)),
                    sz == self.spec_size() == size,
                    ver == self.spec_version(),
                    m0 == old(self).spec_modules(),
                    f0 == old(self).spec_is_function(),
                    well_spaced(p),
                    forall|k: int| 0 <= k < p.len() ==> 6 <= #[trigger] p[k] <= sz - 7,
                    forall|k: int| 0 <= k < p.len() ==> align_positions@[k] as int == #[trigger] p[k],
                    align_positions@.len() == numalign,
                    self.spec_modules() == painted(
                        m0,
                        over(alignments_part(p, sz, ai as int, aj as int), rf),
                    ),
                    self.spec_is_function() == marked(
                        f0,
                        over(alignments_part(p, sz, ai as int, aj as int), rf),
                    ),
                decreases numalign - aj,
            {
                let x = align_positions[ai];
                let y = align_positions[aj];
                proof {
                    assert(p[ai as int] == x && p[aj as int] == y);
                    Self::lemma_alignment_step(m0, f0, p, sz, rf, ai as int, aj as int);
                }
                if !(ai == 0 && aj == 0 || ai == 0 && aj == numalign - 1 || ai == numalign - 1 && aj
                    == 0) {
                    proof {
                        assert(6 * sz <= y * sz <= (sz - 7) * sz) by (nonlinear_arith)
                            requires
                                6 <= y <= sz - 7,
                                sz >= 0,
                        ;
                        assert((sz - 7) * sz + sz <= sz * sz) by (nonlinear_arith)
                            requires
                                sz >= 0,
                        ;
                        assert(sz * sz <= 31329) by (nonlinear_arith)
                            requires
                                0 <= sz <= 177,
                        ;
                        assert((y - 2) * sz == y * sz - 2 * sz) by (nonlinear_arith);
                        assert((sz - 7) * sz == sz * sz - 7 * sz) by (nonlinear_arith);
                        assert((y + 2) * sz == y * sz + 2 * sz) by (nonlinear_arith);
                    }
                    self.draw_alignment_pattern(x as i32, y as i32);
                }
                aj += 1;
            }
            proof {
                let f = over(alignments_part(p, sz, ai as int, numalign as int), rf);
                let g = over(alignments_part(p, sz, ai + 1, 0), rf);
                assert forall|c: int| 0 <= c < m0.len() implies #[trigger] f(c) == g(c) by {
                    lemma_index_cell(sz, c);
                    lemma_align_index_sound(p, row(sz, c), 0);
                }
                lemma_paint_same(m0, f0, f, g);
            }
            ai += 1;
        }
        let ghost ra = over(alignments_region(ver, sz), rf);
        proof {
            let f = over(alignments_part(p, sz, numalign as int, 0), rf);
            assert forall|c: int| 0 <= c < m0.len() implies #[trigger] f(c) == ra(c) by {}
            lemma_paint_same(m0, f0, f, ra);
        }
        self.draw_format_bits();
        proof {
            lemma_paint_over(m0, f0, ra, format_region(sz));
        }
        self.draw_version();
        proof {
            lemma_paint_over(m0, f0, over(format_region(sz), ra), version_region(ver, sz));
            let fr = function_region(ver, sz);
            let h = over(version_region(ver, sz), over(format_region(sz), ra));
            assert forall|c: int| 0 <= c < m0.len() implies #[trigger] h(c) == fr(c) by {}
            lemma_paint_same(m0, f0, h, fr);
        }
    }

    /// One step of the zigzag placement of codeword bits.
    proof fn lemma_codeword_step(
        m0: Seq<bool>,
        isf: Seq<bool>,
        size: int,
        data: Seq<u8>,
        p: int,
        vert: int,
        j: int,
    )
        requires
            21 <= size <= 177,
            size % 2 == 1,
            m0.len() == size * size,
            isf.len() == size * size,
            0 <= p < zz_pairs(size),
            0 <= vert < size,
            0 <= j <= 1,
        ensures
            ({
                let t = (p * size + vert) * 2 + j;
                let c = zz_cell(size, p, vert, j);
                let k = zz_count(isf, size, t);
                &&& 0 <= c < size * size
                &&& zz_count(isf, size, t + 1) == k + (if !isf[c] {
                    1int
                } else {
                    0int
                })
                &&& (!isf[c] && k < 8 * data.len()) ==> painted(
                    m0,
                    codeword_part(isf, size, data, t),
                ).update(c, data_bit(data, k)) == painted(
                    m0,
                    codeword_part(isf, size, data, t + 1),
                )
                &&& !(!isf[c] && k < 8 * data.len()) ==> painted(
                    m0,
                    codeword_part(isf, size, data, t),
                ) == painted(m0, codeword_part(isf, size, data, t + 1))
            }),
    {
        let t = (p * size + vert) * 2 + j;
        let c = zz_cell(size, p, vert, j);
        let k = zz_count(isf, size, t);
        lemma_zz_cell(size, p, vert, j);
        lemma_zz_at(size, p, vert, j);
        let x = zz_right(size, p) - j;
        let y = if zz_up(size, p) {
            size - 1 - vert
        } else {
            vert
        };
        assert(y * size + x < size * size) by (nonlinear_arith)
            requires
                0 <= x < size,
                0 <= y < size,
        ;
        assert(0 <= y * size) by (nonlinear_arith)
            requires
                0 <= y,
                size >= 0,
        ;
        lemma_cell_index(size, x, y);
        let f = codeword_part(isf, size, data, t);
        let g = codeword_part(isf, size, data, t + 1);
        assert forall|i: int| 0 <= i < m0.len() && i != c implies #[trigger] g(i) == f(i) by {
            lemma_index_cell(size, i);
            let a = col(size, i);
            let b = row(size, i);
            if a != 6 && zz_step(size, a, b) == t {
                lemma_zz_unique(size, a, b, p, vert, j);
            }
        }
        if !isf[c] && k < 8 * data.len() {
            lemma_paint_one(m0, isf, f, g, c, data_bit(data, k));
        } else {
            assert forall|i: int| 0 <= i < m0.len() implies #[trigger] f(i) == g(i) by {
                if i != c {
                    assert(g(i) == f(i));
                }
            }
            lemma_paint_same(m0, isf, f, g);
        }
    }

    /// Places the bits of `data`, most significant first, on the modules that are
    /// not function modules, in the zigzag order of the standard: column pairs from
    /// the right, alternately upwards and downwards, skipping column 6.
    pub fn draw_codewords(&mut self, data: &[u8])
        requires
            old(self).wf(),
            data@.len() == crate::tables::spec_raw_modules(old(self).spec_version()) / 8,
        ensures
            final(self).wf(),
            final(self).same_shape(old(self)),
            final(self).spec_is_function() == old(self).spec_is_function(),
            final(self).spec_modules() == painted(
                old(self).spec_modules(),
                codeword_region(old(self).spec_is_function(), old(self).spec_size(), data@),
            ),
    {
        proof {
            crate::tables::lemma_version_facts(self.version as int);
            assert((16 * self.version + 128) * self.version + 64 <= 30784) by (nonlinear_arith)
                requires
                    self.version <= 40,
            ;
        }
        let total_bits = crate::tables::num_raw_data_modules(self.version);
        let ghost sz = self.size as int;
        let ghost m0 = self.modules@;
        let ghost isf = self.is_function@;
        let ghost dv = data@;
        let size = self.size as i32;
        let nbits = data.len() * 8;
        let mut i: usize = 0;
        let mut right: i32 = size - 1;
        let ghost mut p: int = 0;
        proof {
            assert(sz % 2 == 1);
            assert forall|c: int| 0 <= c < m0.len() implies #[trigger] codeword_part(isf, sz, dv, 0)(
                c,
            ) is None by {
                lemma_index_cell(sz, c);
            }
            lemma_paint_none(m0, isf, codeword_part(isf, sz, dv, 0));
        }
        while right >= 1
            invariant
                0 <= p <= zz_pairs(sz),
                right == (if sz - 1 - 2 * p >= 6 {
                    sz - 1 - 2 * p
                } else {
                    sz - 2 - 2 * p
                }),
                self.wf(),
                self.same_shape(old(self)),
                sz == self.spec_size() == size,
                sz % 2 == 1,
                m0 == old(self).spec_modules(),
                isf == old(self).spec_is_function(),
                isf == self.spec_is_function(),
                dv == data@,
                nbits == 8 * dv.len(),
                nbits <= 3706 * 8,
                i == (if zz_count(isf, sz, p * sz * 2) < nbits {
                    zz_count(isf, sz, p * sz * 2)
                } else {
                    nbits as int
                }),
                self.spec_modules() == painted(m0, codeword_part(isf, sz, dv, p * sz * 2)),
            decreases right + 1,
        {
            if right == 6 {
                right -= 1;
            }
            assert(right == zz_right(sz, p));
            let r1 = right + 1;
            let upward = (r1 & 2) == 0;
            proof {
                assert((r1 & 2) == 0 <==> r1 % 4 < 2) by (bit_vector)
                    requires
                        1 <= r1 <= 200,
                ;
                assert(p < zz_pairs(sz));
            }
            let mut vert: i32 = 0;
            while vert < size
                invariant
                    0 <= p < zz_pairs(sz),
                    right == zz_right(sz, p),
                    upward == zz_up(sz, p),
                    0 <= vert <= size,
                    self.wf(),
                    self.same_shape(old(self)),
                    sz == self.spec_size() == size,
                    sz % 2 == 1,
                    m0 == old(self).spec_modules(),
                    isf == old(self).spec_is_function(),
                isf == self.spec_is_function(),
                    dv == data@,
                    nbits == 8 * dv.len(),
                    nbits <= 3706 * 8,
                    i == (if zz_count(isf, sz, (p * sz + vert) * 2) < nbits {
                        zz_count(isf, sz, (p * sz + vert) * 2)
                    } else {
                        nbits as int
                    }),
                    self.spec_modules() == painted(
                        m0,
                        codeword_part(isf, sz, dv, (p * sz + vert) * 2),
                    ),
                decreases size - vert,
            {
                let mut j: i32 = 0;
                while j < 2
                    invariant
                        0 <= p < zz_pairs(sz),
                        right == zz_right(sz, p),
                        upward == zz_up(sz, p),
                        0 <= vert < size,
                        0 <= j <= 2,
                        self.wf(),
                        self.same_shape(old(self)),
                        sz == self.spec_size() == size,
                        sz % 2 == 1,
                        m0 == old(self).spec_modules(),
                        isf == old(self).spec_is_function(),
                isf == self.spec_is_function(),
                        dv == data@,
                        nbits == 8 * dv.len(),
                        nbits <= 3706 * 8,
                        i == (if zz_count(isf, sz, (p * sz + vert) * 2 + j) < nbits {
                            zz_count(isf, sz, (p * sz + vert) * 2 + j)
                        } else {
                            nbits as int
                        }),
                        self.spec_modules() == painted(
                            m0,
                            codeword_part(isf, sz, dv, (p * sz + vert) * 2 + j),
                        ),
                    decreases 2 - j,
                {
                    let x = right - j;
                    let y = if upward {
                        size - 1 - vert
                    } else {
                        vert
                    };
                    proof {
                        Self::lemma_codeword_step(m0, isf, sz, dv, p, vert as int, j as int);
                        lemma_zz_cell(sz, p, vert as int, j as int);
                        assert(0 <= y * sz <= 31329) by (nonlinear_arith)
                            requires
                                0 <= y < sz,
                                sz <= 177,
                        ;
                    }
                    let idx = (y * size + x) as usize;
                    if !self.is_function[idx] && i < nbits {
                        proof {
                            assert(i >> 3usize == i / 8) by (bit_vector);
                            assert((i as u32 & 7u32) == i % 8) by (bit_vector)
                                requires
                                    i < 0x1_0000_0000,
                            ;
                        }
                        let b = crate::layout::get_bit(data[i >> 3] as u32, 7 - (i as u32 & 7));
                        self.modules.set(idx, b);
                        i += 1;
                    }
                    j += 1;
                }
                vert += 1;
            }
            right -= 2;
            proof {
                assert((p * sz + sz) * 2 == (p + 1) * sz * 2) by (nonlinear_arith);
                p = p + 1;
            }
        }
        proof {
            assert(p == zz_pairs(sz));
        }
    }

    /// Splits the data codewords into blocks, appends to each its Reed-Solomon
    /// error-correction codewords, and interleaves the blocks column by column.
    pub fn add_ecc_and_interleave(&self, data: &[u8]) -> (r: Vec<u8>)
        requires
            self.wf(),
            data@.len() == crate::tables::spec_data_codewords(self.spec_version()),
        ensures
            r@ == crate::blocks::interleaved_codewords(data@, self.spec_version()),
    {
        let ghost ver = self.version as int;
        proof {
            crate::tables::lemma_version_facts(ver);
            assert((16 * self.version + 128) * self.version + 64 <= 30784) by (nonlinear_arith)
                requires
                    self.version <= 40,
            ;
            crate::blocks::lemma_block_offsets(ver, 0);
        }
        let numblocks = crate::tables::num_error_correction_blocks(self.version);
        let blockecclen = crate::tables::ecc_codewords_per_block(self.version);
        let rawcodewords = crate::tables::num_raw_data_modules(self.version) / 8;
        let numshortblocks = numblocks - rawcodewords % numblocks;
        let shortblocklen = rawcodewords / numblocks;
        let ghost bspec = Seq::new(
            crate::tables::spec_num_blocks(ver) as nat,
            |i: int| crate::blocks::ecc_block(data@, ver, i),
        );
        let mut blocks: Vec<Vec<u8>> = Vec::new();
        let rsdiv = crate::gf::reed_solomon_compute_divisor(blockecclen);
        proof {
            crate::gf::lemma_rs_divisor_len(blockecclen as nat);
        }
        let mut k: usize = 0;
        let mut i: usize = 0;
        while i < numblocks
            invariant
                0 <= i <= numblocks,
                ver == self.spec_version(),
                crate::tables::valid_version(ver),
                numblocks == crate::tables::spec_num_blocks(ver),
                blockecclen == crate::tables::spec_ecc_per_block(ver),
                rawcodewords == crate::blocks::raw_codewords(ver),
                numshortblocks == crate::blocks::num_short_blocks(ver),
                shortblocklen == crate::blocks::short_block_len(ver),
                rsdiv@ == crate::gf::rs_divisor(blockecclen as nat),
                rsdiv@.len() == blockecclen,
                1 <= blockecclen <= 30,
                data@.len() == crate::tables::spec_data_codewords(ver),
                data@.len() <= 2334,
                k == crate::blocks::block_offset(ver, i as int),
                blocks@.len() == i,
                bspec.len() == numblocks,
                bspec == Seq::new(
                    crate::tables::spec_num_blocks(ver) as nat,
                    |i: int| crate::blocks::ecc_block(data@, ver, i),
                ),
                forall|j: int| 0 <= j < i ==> (#[trigger] blocks@[j])@ == bspec[j],
            decreases numblocks - i,
        {
            proof {
                crate::blocks::lemma_block_offsets(ver, i as int);
            }
            let datlen = shortblocklen - blockecclen + if i >= numshortblocks {
                1
            } else {
                0
            };
            let mut dat: Vec<u8> = Vec::new();
            let ghost k0 = k;
            let mut t: usize = 0;
            while t < datlen
                invariant
                    t <= datlen,
                    k + datlen <= data@.len(),
                    data@.len() <= 2334,
                    dat@ == data@.subrange(k as int, k + t),
                decreases datlen - t,
            {
                dat.push(data[k + t]);
                t += 1;
                assert(dat@ =~= data@.subrange(k as int, k + t));
            }
            k += datlen;
            let ecc = crate::gf::reed_solomon_compute_remainder(&dat, &rsdiv);
            let ghost dat0 = dat@;
            if i < numshortblocks {
                dat.push(0);
            }
            let mut t: usize = 0;
            let ghost dat1 = dat@;
            while t < ecc.len()
                invariant
                    t <= ecc@.len(),
                    dat@ == dat1 + ecc@.subrange(0, t as int),
                decreases ecc@.len() - t,
            {
                dat.push(ecc[t]);
                t += 1;
                assert(dat@ =~= dat1 + ecc@.subrange(0, t as int));
            }
            proof {
                assert(ecc@.subrange(0, ecc@.len() as int) =~= ecc@);
                let pad = if (i as int) < crate::blocks::num_short_blocks(ver) {
                    seq![0u8]
                } else {
                    Seq::<u8>::empty()
                };
                assert(dat1 =~= dat0 + pad);
                assert(datlen == crate::blocks::block_data_len(ver, i as int));
                assert(dat0 == crate::blocks::block_data(data@, ver, i as int));
                assert(ecc@ == crate::gf::rs_remainder(dat0, crate::gf::rs_divisor(blockecclen as nat)));
                assert(bspec[i as int] == crate::blocks::ecc_block(data@, ver, i as int));
                assert(dat@ =~= bspec[i as int]);
            }
            blocks.push(dat);
            i += 1;
        }
        let ghost skip = shortblocklen - blockecclen;
        let mut result: Vec<u8> = Vec::new();
        let mut c: usize = 0;
        while c <= shortblocklen
            invariant
                0 <= c <= shortblocklen + 1,
                numblocks == blocks@.len() == bspec.len(),
                crate::tables::valid_version(ver),
                ver == self.spec_version(),
                shortblocklen == crate::blocks::short_block_len(ver),
                blockecclen == crate::tables::spec_ecc_per_block(ver),
                numshortblocks == crate::blocks::num_short_blocks(ver),
                skip == shortblocklen - blockecclen,
                shortblocklen <= 3706,
                shortblocklen >= blockecclen + 1,
                1 <= blockecclen <= 30,
                numblocks == crate::tables::spec_num_blocks(ver),
                data@.len() == crate::tables::spec_data_codewords(ver),
                bspec == Seq::new(
                    crate::tables::spec_num_blocks(ver) as nat,
                    |i: int| crate::blocks::ecc_block(data@, ver, i),
                ),
                forall|j: int| 0 <= j < numblocks ==> (#[trigger] blocks@[j])@ == bspec[j],
                result@ == crate::blocks::interleave_cols(bspec, c as int, skip, numshortblocks as int),
            decreases shortblocklen + 1 - c,
        {
            let mut j: usize = 0;
            while j < numblocks
                invariant
                    0 <= c <= shortblocklen,
                    0 <= j <= numblocks,
                    numblocks == blocks@.len() == bspec.len(),
                    crate::tables::valid_version(ver),
                    ver == self.spec_version(),
                    shortblocklen == crate::blocks::short_block_len(ver),
                    blockecclen == crate::tables::spec_ecc_per_block(ver),
                    numshortblocks == crate::blocks::num_short_blocks(ver),
                    skip == shortblocklen - blockecclen,
                    shortblocklen >= blockecclen + 1,
                    1 <= blockecclen <= 30,
                    numblocks == crate::tables::spec_num_blocks(ver),
                    data@.len() == crate::tables::spec_data_codewords(ver),
                    bspec == Seq::new(
                        crate::tables::spec_num_blocks(ver) as nat,
                        |i: int| crate::blocks::ecc_block(data@, ver, i),
                    ),
                    forall|j: int| 0 <= j < numblocks ==> (#[trigger] blocks@[j])@ == bspec[j],
                    result@ == crate::blocks::interleave_cols(bspec, c as int, skip, numshortblocks as int)
                        + crate::blocks::interleave_row(bspec, c as int, skip, numshortblocks as int, j as int),
                decreases numblocks - j,
            {
                if c != shortblocklen - blockecclen || j >= numshortblocks {
                    proof {
                        crate::blocks::lemma_block_offsets(ver, j as int);
                        crate::gf::lemma_rs_divisor_len(blockecclen as nat);
                        crate::gf::lemma_rs_remainder_len(
                            crate::blocks::block_data(data@, ver, j as int),
                            crate::gf::rs_divisor(blockecclen as nat),
                        );
                        crate::gf::lemma_rs_divisor_len(blockecclen as nat);
                        assert(blocks@[j as int]@.len() == shortblocklen + 1);
                    }
                    let v = blocks[j][c];
                    result.push(v);
                    proof {
                        let a = crate::blocks::interleave_cols(bspec, c as int, skip, numshortblocks as int);
                        let b = crate::blocks::interleave_row(bspec, c as int, skip, numshortblocks as int, j as int);
                        assert((a + b).push(v) =~= a + b.push(v));
                    }
                }
                j += 1;
            }
            c += 1;
        }
        result
    }

    /// Encodes `data` in byte mode at the medium error-correction level, in the
    /// smallest version that holds it, with mask 0.
    pub fn encode(data: &[u8]) -> (r: Result<Self, String>)
        requires
            data@.len() * 8 + 20 <= usize::MAX,
        ensures
            match r {
                Ok(q) => {
                    &&& q.wf()
                    &&& crate::tables::fits(q.spec_version(), data@.len() as int)
                    &&& forall|w: int| 1 <= w < q.spec_version() ==> !crate::tables::fits(w, data@.len() as int)
                    &&& q.spec_modules() == symbol_modules(data@, q.spec_version())
                    &&& q.spec_is_function() == symbol_function_modules(q.spec_version())
                },
                Err(e) => {
                    &&& forall|w: int| crate::tables::valid_version(w) ==> !crate::tables::fits(w, data@.len() as int)
                    &&& e@ == crate::tables::too_long_message()
                },
            },
    {
        let version = match crate::tables::pick_version(data.len()) {
            Ok(v) => v,
            Err(e) => {
                return Err(e);
            },
        };
        let ghost ver = version as int;
        proof {
            crate::tables::lemma_version_facts(ver);
        }
        let capacity_bits = crate::tables::num_data_codewords(version) * 8;
        let char_count_bits: u8 = if version <= 9 { 8 } else { 16 };
        let mut buffer = crate::bits::BitBuffer::new();
        buffer.push_bits(0b0100, 4);
        buffer.push_bits(data.len() as u32, char_count_bits);
        let ghost head = buffer@;
        let mut n: usize = 0;
        while n < data.len()
            invariant
                n <= data@.len(),
                buffer@ == head + crate::bits::bytes_bits(data@.take(n as int)),
            decreases data@.len() - n,
        {
            proof {
                assert(data@.take(n + 1).drop_last() =~= data@.take(n as int));
            }
            buffer.push_bits(data[n] as u32, 8);
            n += 1;
        }
        proof {
            assert(data@.take(data@.len() as int) =~= data@);
            crate::message::lemma_bytes_bits_len(data@);
            assert(buffer@ == crate::message::segment_bits(data@, ver));
        }
        let room = capacity_bits - buffer.len();
        let terminator = if room < 4 { room } else { 4 };
        buffer.push_bits(0, terminator as u8);
        proof {
            crate::bits::lemma_msb_bits_zero(terminator as nat);
            assert(crate::bits::msb_bits(0, terminator as nat) =~= crate::message::zero_bits(terminator as int));
            assert(buffer@ =~= crate::message::terminated_bits(data@, ver));
        }
        let ghost term = buffer@;
        while buffer.len() % 8 != 0
            invariant
                term == crate::message::terminated_bits(data@, ver),
                term.len() <= capacity_bits,
                capacity_bits == 8 * crate::tables::spec_data_codewords(ver),
                term.len() <= buffer@.len(),
                buffer@.len() - term.len() <= (8 - term.len() % 8) % 8,
                buffer@ == term + crate::message::zero_bits(buffer@.len() - term.len()),
            decreases term.len() + 8 - buffer@.len(),
        {
            let ghost before = buffer@;
            buffer.push_bit(false);
            assert(buffer@ =~= term + crate::message::zero_bits(buffer@.len() - term.len()));
        }
        proof {
            assert(buffer@.len() == term.len() + (8 - term.len() % 8) % 8);
            assert(buffer@ == crate::message::aligned_bits(data@, ver));
        }
        let ghost aligned = buffer@;
        let dcw = crate::tables::num_data_codewords(version);
        let mut pad_toggle = true;
        let ghost mut k: int = 0;
        while buffer.len() / 8 < dcw
            invariant
                aligned == crate::message::aligned_bits(data@, ver),
                aligned.len() % 8 == 0,
                aligned.len() <= 8 * dcw,
                dcw == crate::tables::spec_data_codewords(ver),
                dcw <= 2334,
                0 <= k,
                buffer@ == aligned + crate::message::pad_bits(k),
                buffer@.len() == aligned.len() + 8 * k,
                buffer@.len() <= 8 * dcw,
                pad_toggle == (k % 2 == 0),
            decreases 8 * dcw - buffer@.len(),
        {
            buffer.push_bits(if pad_toggle { 0xEC } else { 0x11 }, 8);
            pad_toggle = !pad_toggle;
            proof {
                k = k + 1;
                crate::message::lemma_pad_bits_len(k);
            }
        }
        proof {
            assert(k == dcw - aligned.len() / 8);
            assert(buffer@ == crate::message::message_bits(data@, ver));
        }
        let data_codewords = buffer.to_bytes();
        proof {
            assert(data_codewords@.len() == dcw);
        }
        proof {
            assert((4 * version + 17) * (4 * version + 17) <= 177 * 177) by (nonlinear_arith)
                requires
                    version <= 40,
            ;
        }
        let mut qr = ManualQrCode::new(version);
        let full_codewords = qr.add_ecc_and_interleave(&data_codewords);
        proof {
            crate::blocks::lemma_interleaved_len(data_codewords@, ver);
        }
        let ghost m0 = qr.spec_modules();
        let ghost f0 = qr.spec_is_function();
        qr.draw_function_patterns();
        let ghost f1 = qr.spec_is_function();
        qr.draw_codewords(&full_codewords);
        qr.apply_mask();
        qr.draw_format_bits();
        proof {
            assert(m0 == blank(4 * ver + 17));
            assert(f0 == blank(4 * ver + 17));
        }
        Ok(qr)
    }
}

} // verus!
