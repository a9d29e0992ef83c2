//! What the symbol holds, stated against the standard: where the alignment
//! patterns go, which mask is applied, and in which order codeword bits are placed.
use vstd::prelude::*;
use crate::symbol::{
    alignments_region,
    blank,
    codeword_region,
    function_region,
    is_corner,
    lemma_align_index_found,
    lemma_align_index_sound,
    lemma_cell_index,
    format_index,
    format_region,
    marked,
    masked,
    painted,
    symbol_modules,
    version_index,
    version_region,
    symbol_function_modules,
    well_spaced,
    zz_count,
    zz_pairs,
    zz_step,
};

verus! {

/// The alignment centres of a version from 2 on: at least 5 apart, in increasing
/// order, and at least 6 modules from each edge.
proof fn lemma_align_positions_spaced(ver: int)
    requires
        2 <= ver <= 40,
    ensures
        ({
            let size = 4 * ver + 17;
            let p = crate::layout::align_positions(ver, size);
            &&& p.len() == crate::tables::align_count(ver)
            &&& well_spaced(p)
            &&& forall|k: int| 0 <= k < p.len() ==> 6 <= #[trigger] p[k] <= size - 7
            &&& p[0] == 6
            &&& p[p.len() - 1] == size - 7
            &&& forall|k: int| 0 < k < p.len() - 1 ==> 18 <= #[trigger] p[k] <= size - 19
            &&& forall|k: int| 0 <= k < p.len() ==> #[trigger] p[k] % 2 == 0
        }),
{
    crate::tables::lemma_version_facts(ver);
    let sz = 4 * ver + 17;
    let p = crate::layout::align_positions(ver, sz);
    let st = crate::layout::align_step(ver);
    let n = crate::tables::align_count(ver);
    assert forall|k: int| 0 <= k < p.len() implies 6 <= #[trigger] p[k] <= sz - 7 by {
        if k > 0 {
            assert((n - 1 - k) * st <= (n - 2) * st) by (nonlinear_arith)
                requires
                    k >= 1,
                    st >= 0,
            ;
        }
    }
    assert forall|k: int| 0 <= k < p.len() implies #[trigger] p[k] % 2 == 0 by {
        if k > 0 {
            let q = (ver * 8 + n * 3 + 5) / (n * 4 - 4);
            assert(st == q * 2);
            let z = (n - 1 - k) * q;
            assert((n - 1 - k) * st == 2 * z) by (nonlinear_arith)
                requires
                    st == q * 2,
                    z == (n - 1 - k) * q,
            ;
        }
    }
    assert forall|k: int| 0 < k < p.len() - 1 implies 18 <= #[trigger] p[k] <= sz - 19 by {
        assert((n - 1 - k) * st <= (n - 2) * st && (n - 1 - k) * st >= st) by (nonlinear_arith)
            requires
                1 <= k <= n - 2,
                st >= 0,
        ;
    }
    assert forall|a: int, b: int| 0 <= a < b < p.len() implies #[trigger] p[a] + 5
        <= #[trigger] p[b] by {
        if a > 0 {
            assert((n - 1 - a) * st >= (n - 1 - b) * st + 12) by (nonlinear_arith)
                requires
                    a < b,
                    st >= 12,
            ;
        } else {
            assert((n - 1 - b) * st <= (n - 2) * st) by (nonlinear_arith)
                requires
                    b >= 1,
                    st >= 0,
            ;
        }
    }
}

/// From version 2 on, an alignment pattern is drawn at every pair of alignment
/// centres (column `p[i]`, row `p[j]`) except the three pairs taken by the finders,
/// (first, first), (first, last) and (last, first); in particular at the last pair,
/// near the bottom-right corner. Its whole 5 by 5 square is made of function
/// modules, which the codeword bits leave alone.
pub proof fn lemma_alignment_patterns_drawn(ver: int, i: int, j: int, dx: int, dy: int)
    requires
        2 <= ver <= 40,
        0 <= i < crate::layout::align_positions(ver, 4 * ver + 17).len(),
        0 <= j < crate::layout::align_positions(ver, 4 * ver + 17).len(),
        ({
            let n = crate::layout::align_positions(ver, 4 * ver + 17).len() as int;
            !((i == 0 && j == 0) || (i == 0 && j == n - 1) || (i == n - 1 && j == 0))
        }),
        -2 <= dx <= 2,
        -2 <= dy <= 2,
    ensures
        ({
            let size = 4 * ver + 17;
            let p = crate::layout::align_positions(ver, size);
            symbol_function_modules(ver)[(p[j] + dy) * size + p[i] + dx]
        }),
{
    let size = 4 * ver + 17;
    let p = crate::layout::align_positions(ver, size);
    let n = p.len() as int;
    lemma_align_positions_spaced(ver);
    let x = p[i] + dx;
    let y = p[j] + dy;
    let c = y * size + x;
    lemma_cell_index(size, x, y);
    assert(0 <= c < size * size) by (nonlinear_arith)
        requires
            0 <= x < size,
            0 <= y < size,
            c == y * size + x,
    ;
    lemma_align_index_found(p, x, 0, i);
    lemma_align_index_found(p, y, 0, j);
    assert(!is_corner(i, j, n));
    assert(alignments_region(ver, size)(c) is Some);
    assert(function_region(ver, size)(c) is Some);
    let f1 = marked(blank(size), function_region(ver, size));
    assert(f1[c]);
}

/// Mask 0 of the standard, the one the format word 0x5412 announces: a module that
/// is not a function module is flipped exactly when its column and row add up to
/// an even number, and every other module is kept.
pub proof fn lemma_mask_pattern(m: Seq<bool>, isf: Seq<bool>, size: int, x: int, y: int)
    requires
        0 <= x < size,
        0 <= y < size,
        m.len() == size * size,
        isf.len() == size * size,
    ensures
        masked(m, isf, size)[y * size + x] == if !isf[y * size + x] && (x + y) % 2 == 0 {
            !m[y * size + x]
        } else {
            m[y * size + x]
        },
{
    lemma_cell_index(size, x, y);
    assert(0 <= y * size + x < size * size) by (nonlinear_arith)
        requires
            0 <= x < size,
            0 <= y < size,
    ;
}

/// Codeword bits are placed most significant first: the module (x, y) reached by
/// the zigzag while it is the k-th module that is not a function module holds bit
/// 7 - k % 8 of codeword k / 8.
pub proof fn lemma_codeword_bit_order(isf: Seq<bool>, size: int, data: Seq<u8>, x: int, y: int)
    requires
        0 <= x < size,
        0 <= y < size,
        x != 6,
        isf.len() == size * size,
        !isf[y * size + x],
        zz_step(size, x, y) < zz_pairs(size) * size * 2,
        zz_count(isf, size, zz_step(size, x, y)) < 8 * data.len(),
    ensures
        ({
            let k = zz_count(isf, size, zz_step(size, x, y));
            codeword_region(isf, size, data)(y * size + x) == Some(
                ((data[k / 8] as u32 >> ((7 - k % 8) as u32)) & 1) != 0,
            )
        }),
{
    lemma_cell_index(size, x, y);
}

/// The colours of every alignment pattern drawn (see
/// `lemma_alignment_patterns_drawn`) in the finished symbol: the centre dark, the
/// eight modules around it light, the sixteen of the outer ring dark; neither the
/// codewords, the mask nor the format and version information change them.
pub proof fn lemma_alignment_pattern_colours(
    data: Seq<u8>,
    ver: int,
    i: int,
    j: int,
    dx: int,
    dy: int,
)
    requires
        2 <= ver <= 40,
        0 <= i < crate::layout::align_positions(ver, 4 * ver + 17).len(),
        0 <= j < crate::layout::align_positions(ver, 4 * ver + 17).len(),
        ({
            let n = crate::layout::align_positions(ver, 4 * ver + 17).len() as int;
            !((i == 0 && j == 0) || (i == 0 && j == n - 1) || (i == n - 1 && j == 0))
        }),
        -2 <= dx <= 2,
        -2 <= dy <= 2,
    ensures
        ({
            let size = 4 * ver + 17;
            let p = crate::layout::align_positions(ver, size);
            symbol_modules(data, ver)[(p[j] + dy) * size + p[i] + dx] == !(-1 <= dx <= 1 && -1
                <= dy <= 1 && !(dx == 0 && dy == 0))
        }),
{
    let size = 4 * ver + 17;
    let p = crate::layout::align_positions(ver, size);
    let n = p.len() as int;
    lemma_align_positions_spaced(ver);
    lemma_alignment_patterns_drawn(ver, i, j, dx, dy);
    let x = p[i] + dx;
    let y = p[j] + dy;
    let c = y * size + x;
    lemma_cell_index(size, x, y);
    assert(0 <= c < size * size) by (nonlinear_arith)
        requires
            0 <= x < size,
            0 <= y < size,
            c == y * size + x,
    ;
    lemma_align_index_found(p, x, 0, i);
    lemma_align_index_found(p, y, 0, j);
    assert(format_index(size, x, y) == -1);
    assert(format_region(size)(c) is None);
    if ver >= 7 {
        assert(version_index(size, x, y) == -1);
    }
    assert(version_region(ver, size)(c) is None);
    let fr = function_region(ver, size);
    assert(fr(c) == Some(crate::symbol::cheb(dx, dy) != 1));
    let f1 = marked(blank(size), fr);
    let m1 = painted(blank(size), fr);
    let cw = crate::blocks::interleaved_codewords(crate::message::data_codewords(data, ver), ver);
    assert(codeword_region(f1, size, cw)(c) is None);
    let m2 = painted(m1, codeword_region(f1, size, cw));
    assert(m2[c] == m1[c]);
    assert(masked(m2, f1, size)[c] == m2[c]);
}

/// A module set by the function patterns and left alone by the format information
/// keeps its colour in the finished symbol and is a function module.
proof fn lemma_function_module_kept(data: Seq<u8>, ver: int, x: int, y: int)
    requires
        1 <= ver <= 40,
        0 <= x < 4 * ver + 17,
        0 <= y < 4 * ver + 17,
        function_region(ver, 4 * ver + 17)(y * (4 * ver + 17) + x) is Some,
        format_region(4 * ver + 17)(y * (4 * ver + 17) + x) is None,
    ensures
        ({
            let size = 4 * ver + 17;
            let c = y * size + x;
            &&& symbol_modules(data, ver)[c] == function_region(ver, size)(c)->Some_0
            &&& symbol_function_modules(ver)[c]
        }),
{
    let size = 4 * ver + 17;
    let c = y * size + x;
    lemma_cell_index(size, x, y);
    assert(0 <= c < size * size) by (nonlinear_arith)
        requires
            0 <= x < size,
            0 <= y < size,
            c == y * size + x,
    ;
    let fr = function_region(ver, size);
    let f1 = marked(blank(size), fr);
    let m1 = painted(blank(size), fr);
    let cw = crate::blocks::interleaved_codewords(crate::message::data_codewords(data, ver), ver);
    assert(f1[c]);
    assert(codeword_region(f1, size, cw)(c) is None);
    let m2 = painted(m1, codeword_region(f1, size, cw));
    assert(m2[c] == m1[c]);
    assert(masked(m2, f1, size)[c] == m2[c]);
}

/// The timing patterns: along row 6 and along column 6, between the separators of
/// the finders, the modules alternate, dark at even coordinates; they are function
/// modules, and the alignment patterns that cross them agree with them.
pub proof fn lemma_timing_patterns(data: Seq<u8>, ver: int, k: int)
    requires
        1 <= ver <= 40,
        8 <= k <= 4 * ver + 17 - 9,
    ensures
        ({
            let size = 4 * ver + 17;
            &&& symbol_modules(data, ver)[6 * size + k] == (k % 2 == 0)
            &&& symbol_modules(data, ver)[k * size + 6] == (k % 2 == 0)
            &&& symbol_function_modules(ver)[6 * size + k]
            &&& symbol_function_modules(ver)[k * size + 6]
        }),
{
    let size = 4 * ver + 17;
    let p = crate::layout::align_positions(ver, size);
    let n = p.len() as int;
    if ver >= 2 {
        lemma_align_positions_spaced(ver);
        lemma_align_index_found(p, 6, 0, 0);
    }
    lemma_align_index_sound(p, k, 0);
    lemma_align_index_sound(p, 6, 0);
    // Row 6, column k.
    lemma_cell_index(size, k, 6);
    let ck = 6 * size + k;
    assert(format_index(size, k, 6) == -1);
    assert(format_region(size)(ck) is None);
    if ver >= 7 {
        assert(version_index(size, k, 6) == -1);
    }
    assert(version_region(ver, size)(ck) is None);
    assert(function_region(ver, size)(ck) == Some(k % 2 == 0));
    lemma_function_module_kept(data, ver, k, 6);
    // Column 6, row k.
    lemma_cell_index(size, 6, k);
    let cr = k * size + 6;
    assert(format_index(size, 6, k) == -1);
    assert(format_region(size)(cr) is None);
    if ver >= 7 {
        assert(version_index(size, 6, k) == -1);
    }
    assert(version_region(ver, size)(cr) is None);
    assert(function_region(ver, size)(cr) == Some(k % 2 == 0));
    lemma_function_module_kept(data, ver, 6, k);
}

/// The three finder patterns, centred on modules (3, 3), (size - 4, 3) and
/// (3, size - 4): around each centre the modules at Chebyshev distance 0, 1 and 3
/// are dark, those at distance 2 light, and the separator at distance 4 (where it
/// lies in the symbol) light. All of them are function modules, which neither the
/// codewords, the mask nor the format and version information change.
pub proof fn lemma_finder_patterns(data: Seq<u8>, ver: int, corner: int, dx: int, dy: int)
    requires
        1 <= ver <= 40,
        0 <= corner < 3,
        -4 <= dx <= 4,
        -4 <= dy <= 4,
        ({
            let size = 4 * ver + 17;
            let cx = if corner == 1 { size - 4 } else { 3 };
            let cy = if corner == 2 { size - 4 } else { 3 };
            0 <= cx + dx < size && 0 <= cy + dy < size
        }),
    ensures
        ({
            let size = 4 * ver + 17;
            let cx = if corner == 1 { size - 4 } else { 3 };
            let cy = if corner == 2 { size - 4 } else { 3 };
            let ax = if dx < 0 { -dx } else { dx };
            let ay = if dy < 0 { -dy } else { dy };
            let d = if ax < ay { ay } else { ax };
            &&& symbol_modules(data, ver)[(cy + dy) * size + cx + dx] == (d != 2 && d != 4)
            &&& symbol_function_modules(ver)[(cy + dy) * size + cx + dx]
        }),
{
    let size = 4 * ver + 17;
    let cx = if corner == 1 { size - 4 } else { 3 };
    let cy = if corner == 2 { size - 4 } else { 3 };
    let x = cx + dx;
    let y = cy + dy;
    let c = y * size + x;
    let p = crate::layout::align_positions(ver, size);
    let n = p.len() as int;
    if ver >= 2 {
        lemma_align_positions_spaced(ver);
    }
    lemma_align_index_sound(p, x, 0);
    lemma_align_index_sound(p, y, 0);
    lemma_cell_index(size, x, y);
    assert(format_index(size, x, y) == -1);
    assert(format_region(size)(c) is None);
    if ver >= 7 {
        assert(version_index(size, x, y) == -1);
    }
    assert(version_region(ver, size)(c) is None);
    let ix = crate::symbol::align_index_from(p, x, 0);
    let iy = crate::symbol::align_index_from(p, y, 0);
    if ix >= 0 && iy >= 0 {
        assert(is_corner(ix, iy, n));
    }
    assert(alignments_region(ver, size)(c) is None);
    lemma_function_module_kept(data, ver, x, y);
}

/// The format information: bit `i` of the format word 0x5412 (medium error
/// correction, mask 0) is written twice, once around the top-left finder, at
/// (8, 0..5), (8, 7), (8, 8), (7, 8) and then (5..0, 8), and once beside the other
/// two finders, at (size - 1 .. size - 8, 8) and then (8, size - 7 .. size - 1);
/// the module (8, size - 8) is always dark.
pub proof fn lemma_format_information(data: Seq<u8>, ver: int, i: int)
    requires
        1 <= ver <= 40,
        0 <= i < 15,
    ensures
        ({
            let size = 4 * ver + 17;
            let bit = ((0x5412u32 >> (i as u32)) & 1) != 0;
            let (x1, y1) = if i <= 5 {
                (8, i)
            } else if i == 6 {
                (8, 7)
            } else if i == 7 {
                (8, 8)
            } else if i == 8 {
                (7, 8)
            } else {
                (14 - i, 8)
            };
            let (x2, y2) = if i <= 7 {
                (size - 1 - i, 8)
            } else {
                (8, size - 15 + i)
            };
            &&& symbol_modules(data, ver)[y1 * size + x1] == bit
            &&& symbol_modules(data, ver)[y2 * size + x2] == bit
            &&& symbol_modules(data, ver)[(size - 8) * size + 8]
        }),
{
    let size = 4 * ver + 17;
    let (x1, y1) = if i <= 5 {
        (8, i)
    } else if i == 6 {
        (8, 7)
    } else if i == 7 {
        (8, 8)
    } else if i == 8 {
        (7, 8)
    } else {
        (14 - i, 8)
    };
    let (x2, y2) = if i <= 7 {
        (size - 1 - i, 8)
    } else {
        (8, size - 15 + i)
    };
    lemma_cell_index(size, x1, y1);
    lemma_cell_index(size, x2, y2);
    lemma_cell_index(size, 8, size - 8);
    assert(0 <= y1 * size + x1 < size * size) by (nonlinear_arith)
        requires
            0 <= x1 < size,
            0 <= y1 < size,
    ;
    assert(0 <= y2 * size + x2 < size * size) by (nonlinear_arith)
        requires
            0 <= x2 < size,
            0 <= y2 < size,
    ;
    assert(0 <= (size - 8) * size + 8 < size * size) by (nonlinear_arith)
        requires
            size >= 21,
    ;
    let fr = function_region(ver, size);
    let f1 = marked(blank(size), fr);
    let m1 = painted(blank(size), fr);
    let cw = crate::blocks::interleaved_codewords(crate::message::data_codewords(data, ver), ver);
    let m2 = painted(m1, codeword_region(f1, size, cw));
    assert(masked(m2, f1, size).len() == size * size);
    assert(format_index(size, x1, y1) == i);
    assert(format_index(size, x2, y2) == i + 15);
    assert(format_index(size, 8, size - 8) == 30);
}

/// The version information, from version 7 on: bit `b` of the 18-bit version word
/// goes to module (size - 11 + b % 3, b / 3), in the block left of the top-right
/// finder, and to its mirror (b / 3, size - 11 + b % 3), above the bottom-left
/// finder; both are function modules.
pub proof fn lemma_version_information(data: Seq<u8>, ver: int, b: int)
    requires
        7 <= ver <= 40,
        0 <= b < 18,
    ensures
        ({
            let size = 4 * ver + 17;
            let bit = crate::layout::bit_of(crate::layout::version_word(ver as u32), b as u32);
            &&& symbol_modules(data, ver)[(b / 3) * size + size - 11 + b % 3] == bit
            &&& symbol_modules(data, ver)[(size - 11 + b % 3) * size + b / 3] == bit
            &&& symbol_function_modules(ver)[(b / 3) * size + size - 11 + b % 3]
            &&& symbol_function_modules(ver)[(size - 11 + b % 3) * size + b / 3]
        }),
{
    let size = 4 * ver + 17;
    let x1 = size - 11 + b % 3;
    let y1 = b / 3;
    lemma_cell_index(size, x1, y1);
    lemma_cell_index(size, y1, x1);
    assert(version_index(size, x1, y1) == 2 * b);
    assert(version_index(size, y1, x1) == 2 * b + 1);
    assert(format_index(size, x1, y1) == -1);
    assert(format_index(size, y1, x1) == -1);
    assert(format_region(size)(y1 * size + x1) is None);
    assert(format_region(size)(x1 * size + y1) is None);
    lemma_function_module_kept(data, ver, x1, y1);
    lemma_function_module_kept(data, ver, y1, x1);
}

/// The function modules of a symbol are those of its function patterns, the format
/// information included.
proof fn lemma_function_modules_marked(ver: int)
    requires
        1 <= ver <= 40,
    ensures
        symbol_function_modules(ver) == marked(
            blank(4 * ver + 17),
            function_region(ver, 4 * ver + 17),
        ),
{
    let size = 4 * ver + 17;
    assert(symbol_function_modules(ver) =~= marked(blank(size), function_region(ver, size)));
}

/// The data modules of the finished symbol: the module (x, y) that is the k-th
/// module other than a function module along the zigzag holds bit 7 - k % 8 of the
/// k / 8-th interleaved codeword, inverted by mask 0 where x + y is even.
pub proof fn lemma_data_modules(data: Seq<u8>, ver: int, x: int, y: int)
    requires
        1 <= ver <= 40,
        0 <= x < 4 * ver + 17,
        0 <= y < 4 * ver + 17,
        x != 6,
        !symbol_function_modules(ver)[y * (4 * ver + 17) + x],
        zz_step(4 * ver + 17, x, y) < zz_pairs(4 * ver + 17) * (4 * ver + 17) * 2,
        zz_count(symbol_function_modules(ver), 4 * ver + 17, zz_step(4 * ver + 17, x, y)) < 8
            * crate::blocks::interleaved_codewords(crate::message::data_codewords(data, ver), ver).len(),
    ensures
        ({
            let size = 4 * ver + 17;
            let cw = crate::blocks::interleaved_codewords(
                crate::message::data_codewords(data, ver),
                ver,
            );
            let k = zz_count(symbol_function_modules(ver), size, zz_step(size, x, y));
            symbol_modules(data, ver)[y * size + x] == ((((cw[k / 8] as u32 >> ((7 - k % 8) as u32))
                & 1) != 0) != ((x + y) % 2 == 0))
        }),
{
    let size = 4 * ver + 17;
    let c = y * size + x;
    lemma_cell_index(size, x, y);
    assert(0 <= c < size * size) by (nonlinear_arith)
        requires
            0 <= x < size,
            0 <= y < size,
            c == y * size + x,
    ;
    lemma_function_modules_marked(ver);
    let fr = function_region(ver, size);
    let f1 = marked(blank(size), fr);
    let m1 = painted(blank(size), fr);
    let cw = crate::blocks::interleaved_codewords(crate::message::data_codewords(data, ver), ver);
    lemma_codeword_bit_order(f1, size, cw, x, y);
    assert(fr(c) is None);
    assert(format_region(size)(c) is None);
    let m2 = painted(m1, codeword_region(f1, size, cw));
    lemma_mask_pattern(m2, f1, size, x, y);
}

/// The zigzag along which codeword bits are placed: it walks pairs of columns from
/// the right edge leftwards, pair `p` being columns size - 1 - 2p and size - 2 - 2p,
/// or one column further left once column 6 is reached; the first pair goes
/// upwards from the bottom-right corner and each next pair turns back; within a
/// row the right column comes first.
pub proof fn lemma_zigzag_walk(ver: int, t: int)
    requires
        1 <= ver <= 40,
        0 <= t < zz_pairs(4 * ver + 17) * (4 * ver + 17) * 2,
    ensures
        ({
            let size = 4 * ver + 17;
            let p = t / (2 * size);
            let r = t % (2 * size);
            let vert = r / 2;
            let j = r % 2;
            let right = if 2 * p < size - 7 {
                size - 1 - 2 * p
            } else {
                size - 2 - 2 * p
            };
            let y = if p % 2 == 0 {
                size - 1 - vert
            } else {
                vert
            };
            crate::symbol::zz_cell_at(size, t) == y * size + right - j
        }),
{
    let size = 4 * ver + 17;
    let p = t / (2 * size);
    assert(crate::symbol::zz_up(size, p) == (p % 2 == 0));
}

} // verus!
