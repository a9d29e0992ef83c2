//! Capacity tables and the arithmetic of QR code versions, for byte mode at
//! the medium error-correction level.
use vstd::prelude::*;
use vstd::string::*;

verus! {

/// Error-correction codewords per block for each version (index 0 unused).
pub const MEDIUM_ECC_CODEWORDS_PER_BLOCK: [i8; 41] = [
    -1, 10, 16, 26, 18, 24, 16, 18, 22, 22, 26, 30, 22, 22, 24, 24, 28, 28, 26, 26, 26, 26, 28, 28,
    28, 28, 28, 28, 28, 28, 28, 28, 28, 28, 28, 28, 28, 28, 28, 28, 28,
];

/// Number of error-correction blocks for each version (index 0 unused).
pub const MEDIUM_BLOCK_COUNT: [i8; 41] = [
    -1, 1, 1, 1, 2, 2, 4, 4, 4, 5, 5, 5, 8, 9, 9, 10, 10, 11, 13, 14, 16, 17, 17, 18, 20, 21, 23,
    25, 26, 28, 29, 31, 33, 35, 37, 38, 40, 43, 45, 47, 49,
];

/// Entry `v` of the table of error-correction codewords per block.
pub open spec fn ecc_entry(v: int) -> i8 {
    if v == 0 {
        -1i8
    } else if v == 1 {
        10i8
    } else if v == 2 {
        16i8
    } else if v == 3 {
        26i8
    } else if v == 4 {
        18i8
    } else if v == 5 {
        24i8
    } else if v == 6 {
        16i8
    } else if v == 7 {
        18i8
    } else if v == 8 {
        22i8
    } else if v == 9 {
        22i8
    } else if v == 10 {
        26i8
    } else if v == 11 {
        30i8
    } else if v == 12 {
        22i8
    } else if v == 13 {
        22i8
    } else if v == 14 {
        24i8
    } else if v == 15 {
        24i8
    } else if v == 16 {
        28i8
    } else if v == 17 {
        28i8
    } else if v == 18 {
        26i8
    } else if v == 19 {
        26i8
    } else if v == 20 {
        26i8
    } else if v == 21 {
        26i8
    } else if v == 22 {
        28i8
    } else if v == 23 {
        28i8
    } else if v == 24 {
        28i8
    } else if v == 25 {
        28i8
    } else if v == 26 {
        28i8
    } else if v == 27 {
        28i8
    } else if v == 28 {
        28i8
    } else if v == 29 {
        28i8
    } else if v == 30 {
        28i8
    } else if v == 31 {
        28i8
    } else if v == 32 {
        28i8
    } else if v == 33 {
        28i8
    } else if v == 34 {
        28i8
    } else if v == 35 {
        28i8
    } else if v == 36 {
        28i8
    } else if v == 37 {
        28i8
    } else if v == 38 {
        28i8
    } else if v == 39 {
        28i8
    } else {
        28i8
    }
}

/// Entry `v` of the table of error-correction blocks.
pub open spec fn block_entry(v: int) -> i8 {
    if v == 0 {
        -1i8
    } else if v == 1 {
        1i8
    } else if v == 2 {
        1i8
    } else if v == 3 {
        1i8
    } else if v == 4 {
        2i8
    } else if v == 5 {
        2i8
    } else if v == 6 {
        4i8
    } else if v == 7 {
        4i8
    } else if v == 8 {
        4i8
    } else if v == 9 {
        5i8
    } else if v == 10 {
        5i8
    } else if v == 11 {
        5i8
    } else if v == 12 {
        8i8
    } else if v == 13 {
        9i8
    } else if v == 14 {
        9i8
    } else if v == 15 {
        10i8
    } else if v == 16 {
        10i8
    } else if v == 17 {
        11i8
    } else if v == 18 {
        13i8
    } else if v == 19 {
        14i8
    } else if v == 20 {
        16i8
    } else if v == 21 {
        17i8
    } else if v == 22 {
        17i8
    } else if v == 23 {
        18i8
    } else if v == 24 {
        20i8
    } else if v == 25 {
        21i8
    } else if v == 26 {
        23i8
    } else if v == 27 {
        25i8
    } else if v == 28 {
        26i8
    } else if v == 29 {
        28i8
    } else if v == 30 {
        29i8
    } else if v == 31 {
        31i8
    } else if v == 32 {
        33i8
    } else if v == 33 {
        35i8
    } else if v == 34 {
        37i8
    } else if v == 35 {
        38i8
    } else if v == 36 {
        40i8
    } else if v == 37 {
        43i8
    } else if v == 38 {
        45i8
    } else if v == 39 {
        47i8
    } else {
        49i8
    }
}

/// The table of error-correction codewords per block, by version.
pub open spec fn ecc_table() -> Seq<i8> {
    Seq::new(41, |i: int| ecc_entry(i))
}

/// The table of error-correction blocks, by version.
pub open spec fn block_table() -> Seq<i8> {
    Seq::new(41, |i: int| block_entry(i))
}

/// A version number of the standard.
pub open spec fn valid_version(ver: int) -> bool {
    1 <= ver <= 40
}

/// Error-correction codewords in each block of a symbol of version `ver`.
pub open spec fn spec_ecc_per_block(ver: int) -> int {
    ecc_entry(ver) as int
}

/// Number of error-correction blocks of a symbol of version `ver`.
pub open spec fn spec_num_blocks(ver: int) -> int {
    block_entry(ver) as int
}

/// Number of alignment patterns along one side, for versions 2 and up.
pub open spec fn align_count(ver: int) -> int {
    ver / 7 + 2
}

/// Modules of a symbol that carry data or error correction (the standard's formula).
pub open spec fn spec_raw_modules(ver: int) -> int {
    let base = (16 * ver + 128) * ver + 64;
    if ver >= 2 {
        let n = align_count(ver);
        base - ((25 * n - 10) * n - 55) - (if ver >= 7 { 36int } else { 0int })
    } else {
        base
    }
}

/// Data codewords of a symbol of version `ver` at the medium level.
pub open spec fn spec_data_codewords(ver: int) -> int {
    spec_raw_modules(ver) / 8 - spec_ecc_per_block(ver) * spec_num_blocks(ver)
}

/// Width of the character-count field in byte mode.
pub open spec fn char_count_bits(ver: int) -> int {
    if ver <= 9 { 8 } else { 16 }
}

/// Whether `len` bytes fit, in byte mode, into a symbol of version `ver`:
/// mode indicator, count field and data bits within the data capacity.
pub open spec fn fits(ver: int, len: int) -> bool {
    4 + char_count_bits(ver) + 8 * len <= 8 * spec_data_codewords(ver)
}

/// The error-correction codewords per block of version `ver`, read from the table;
/// the unused entry 0 holds -1.
pub fn ecc_codewords_per_block(ver: usize) -> (r: usize)
    requires
        ver <= 40,
    ensures
        r == ecc_table()[ver as int] as usize,
        valid_version(ver as int) ==> r == spec_ecc_per_block(ver as int),
{
    let t = MEDIUM_ECC_CODEWORDS_PER_BLOCK;
    assert(t@ =~= ecc_table());
    t[ver] as usize
}

/// The number of error-correction blocks of version `ver`, read from the table;
/// the unused entry 0 holds -1.
pub fn num_error_correction_blocks(ver: usize) -> (r: usize)
    requires
        ver <= 40,
    ensures
        r == block_table()[ver as int] as usize,
        valid_version(ver as int) ==> r == spec_num_blocks(ver as int),
{
    let t = MEDIUM_BLOCK_COUNT;
    assert(t@ =~= block_table());
    t[ver] as usize
}

proof fn lemma_raw_modules_bounds(ver: int)
    requires
        0 <= ver,
    ensures
        ver >= 2 ==> (25 * align_count(ver) - 10) * align_count(ver) - 55 + 36 <= (16 * ver
            + 128) * ver + 64,
        ver >= 2 ==> (25 * align_count(ver) - 10) * align_count(ver) - 55 >= 0,
{
    if ver >= 2 {
        let n = align_count(ver);
        assert(2 <= n <= ver / 2 + 2);
        assert((25 * n - 10) * n <= 25 * n * n) by (nonlinear_arith)
            requires
                n >= 2,
        ;
        assert(25 * n * n <= 25 * (ver / 2 + 2) * (ver / 2 + 2)) by (nonlinear_arith)
            requires
                2 <= n <= ver / 2 + 2,
        ;
        let h = ver / 2;
        assert(2 * h <= ver);
        assert(25 * (h + 2) * (h + 2) + 100 <= (16 * ver + 128) * ver + 64) by (nonlinear_arith)
            requires
                2 * h <= ver,
                ver >= 2,
                h >= 0,
        ;
        assert((25 * n - 10) * n >= 55) by (nonlinear_arith)
            requires
                n >= 2,
        ;
    }
}

/// Modules of a symbol of version `ver` left for data and error correction, once
/// the function patterns are taken out.
pub fn num_raw_data_modules(ver: usize) -> (r: usize)
    requires
        (16 * ver + 128) * ver + 64 <= usize::MAX,
    ensures
        r == spec_raw_modules(ver as int),
{
    proof {
        lemma_raw_modules_bounds(ver as int);
        assert(16 * ver + 128 <= (16 * ver + 128) * ver + 64 || ver == 0) by (nonlinear_arith)
            requires
                ver >= 0,
        ;
    }
    let mut result: usize = (16 * ver + 128) * ver + 64;
    if ver >= 2 {
        let num_align = ver / 7 + 2;
        proof {
            assert(25 * num_align <= (16 * ver + 128) * ver + 64) by (nonlinear_arith)
                requires
                    num_align == ver / 7 + 2,
                    ver >= 2,
            ;
        }
        assert(num_align == align_count(ver as int));
        proof {
            assert((25 * num_align - 10) * num_align <= 25 * num_align * num_align) by (nonlinear_arith)
                requires
                    num_align >= 2,
            ;
            assert(25 * num_align * num_align <= (16 * ver + 128) * ver + 64) by (nonlinear_arith)
                requires
                    num_align == ver / 7 + 2,
                    ver >= 2,
            ;
        }
        result -= (25 * num_align - 10) * num_align - 55;
        if ver >= 7 {
            result -= 36;
        }
    }
    result
}

/// Facts about the capacity of one version, read off the tables.
pub open spec fn version_facts(ver: int) -> bool {
    &&& 26 <= spec_raw_modules(ver) / 8 <= 3706
    &&& 16 <= spec_data_codewords(ver) <= 2334
    &&& 1 <= spec_num_blocks(ver) <= 49
    &&& 10 <= spec_ecc_per_block(ver) <= 30
    &&& spec_num_blocks(ver) * spec_ecc_per_block(ver) < spec_raw_modules(ver) / 8
    &&& spec_raw_modules(ver) / 8 / spec_num_blocks(ver) >= spec_ecc_per_block(ver) + 1
    &&& ver >= 2 ==> spec_align_step(ver) >= 12
    &&& ver >= 2 ==> 4 * ver + 17 - 7 - (align_count(ver) - 2) * spec_align_step(ver) >= 18
}

/// Distance between consecutive alignment patterns after the first.
pub open spec fn spec_align_step(ver: int) -> int {
    (ver * 8 + align_count(ver) * 3 + 5) / (align_count(ver) * 4 - 4) * 2
}

/// The capacity facts hold of every version, read off the tables.
pub proof fn lemma_version_facts(ver: int)
    requires
        valid_version(ver),
    ensures
        version_facts(ver),
{
    if ver == 1 {
        assert(version_facts(1)) by {
            assert(align_count(1) == 2);
            assert(ecc_entry(1) == 10 && block_entry(1) == 1);
            assert(spec_raw_modules(1) == 208);
            assert(spec_raw_modules(1) / 8 == 26);
            assert(26int / 1int == 26int);
        }
    } else if ver == 2 {
        assert(version_facts(2)) by {
            assert(align_count(2) == 2);
            assert(27int / 4int == 6int);
            assert(spec_align_step(2) == 12);
            assert(ecc_entry(2) == 16 && block_entry(2) == 1);
            assert(spec_raw_modules(2) == 359);
            assert(spec_raw_modules(2) / 8 == 44);
            assert(44int / 1int == 44int);
        }
    } else if ver == 3 {
        assert(version_facts(3)) by {
            assert(align_count(3) == 2);
            assert(35int / 4int == 8int);
            assert(spec_align_step(3) == 16);
            assert(ecc_entry(3) == 26 && block_entry(3) == 1);
            assert(spec_raw_modules(3) == 567);
            assert(spec_raw_modules(3) / 8 == 70);
            assert(70int / 1int == 70int);
        }
    } else if ver == 4 {
        assert(version_facts(4)) by {
            assert(align_count(4) == 2);
            assert(43int / 4int == 10int);
            assert(spec_align_step(4) == 20);
            assert(ecc_entry(4) == 18 && block_entry(4) == 2);
            assert(spec_raw_modules(4) == 807);
            assert(spec_raw_modules(4) / 8 == 100);
            assert(100int / 2int == 50int);
        }
    } else if ver == 5 {
        assert(version_facts(5)) by {
            assert(align_count(5) == 2);
            assert(51int / 4int == 12int);
            assert(spec_align_step(5) == 24);
            assert(ecc_entry(5) == 24 && block_entry(5) == 2);
            assert(spec_raw_modules(5) == 1079);
            assert(spec_raw_modules(5) / 8 == 134);
            assert(134int / 2int == 67int);
        }
    } else if ver == 6 {
        assert(version_facts(6)) by {
            assert(align_count(6) == 2);
            assert(59int / 4int == 14int);
            assert(spec_align_step(6) == 28);
            assert(ecc_entry(6) == 16 && block_entry(6) == 4);
            assert(spec_raw_modules(6) == 1383);
            assert(spec_raw_modules(6) / 8 == 172);
            assert(172int / 4int == 43int);
        }
    } else if ver == 7 {
        assert(version_facts(7)) by {
            assert(align_count(7) == 3);
            assert(70int / 8int == 8int);
            assert(spec_align_step(7) == 16);
            assert(ecc_entry(7) == 18 && block_entry(7) == 4);
            assert(spec_raw_modules(7) == 1568);
            assert(spec_raw_modules(7) / 8 == 196);
            assert(196int / 4int == 49int);
        }
    } else if ver == 8 {
        assert(version_facts(8)) by {
            assert(align_count(8) == 3);
            assert(78int / 8int == 9int);
            assert(spec_align_step(8) == 18);
            assert(ecc_entry(8) == 22 && block_entry(8) == 4);
            assert(spec_raw_modules(8) == 1936);
            assert(spec_raw_modules(8) / 8 == 242);
            assert(242int / 4int == 60int);
        }
    } else if ver == 9 {
        assert(version_facts(9)) by {
            assert(align_count(9) == 3);
            assert(86int / 8int == 10int);
            assert(spec_align_step(9) == 20);
            assert(ecc_entry(9) == 22 && block_entry(9) == 5);
            assert(spec_raw_modules(9) == 2336);
            assert(spec_raw_modules(9) / 8 == 292);
            assert(292int / 5int == 58int);
        }
    } else if ver == 10 {
        assert(version_facts(10)) by {
            assert(align_count(10) == 3);
            assert(94int / 8int == 11int);
            assert(spec_align_step(10) == 22);
            assert(ecc_entry(10) == 26 && block_entry(10) == 5);
            assert(spec_raw_modules(10) == 2768);
            assert(spec_raw_modules(10) / 8 == 346);
            assert(346int / 5int == 69int);
        }
    } else if ver == 11 {
        assert(version_facts(11)) by {
            assert(align_count(11) == 3);
            assert(102int / 8int == 12int);
            assert(spec_align_step(11) == 24);
            assert(ecc_entry(11) == 30 && block_entry(11) == 5);
            assert(spec_raw_modules(11) == 3232);
            assert(spec_raw_modules(11) / 8 == 404);
            assert(404int / 5int == 80int);
        }
    } else if ver == 12 {
        assert(version_facts(12)) by {
            assert(align_count(12) == 3);
            assert(110int / 8int == 13int);
            assert(spec_align_step(12) == 26);
            assert(ecc_entry(12) == 22 && block_entry(12) == 8);
            assert(spec_raw_modules(12) == 3728);
            assert(spec_raw_modules(12) / 8 == 466);
            assert(466int / 8int == 58int);
        }
    } else if ver == 13 {
        assert(version_facts(13)) by {
            assert(align_count(13) == 3);
            assert(118int / 8int == 14int);
            assert(spec_align_step(13) == 28);
            assert(ecc_entry(13) == 22 && block_entry(13) == 9);
            assert(spec_raw_modules(13) == 4256);
            assert(spec_raw_modules(13) / 8 == 532);
            assert(532int / 9int == 59int);
        }
    } else if ver == 14 {
        assert(version_facts(14)) by {
            assert(align_count(14) == 4);
            assert(129int / 12int == 10int);
            assert(spec_align_step(14) == 20);
            assert(ecc_entry(14) == 24 && block_entry(14) == 9);
            assert(spec_raw_modules(14) == 4651);
            assert(spec_raw_modules(14) / 8 == 581);
            assert(581int / 9int == 64int);
        }
    } else if ver == 15 {
        assert(version_facts(15)) by {
            assert(align_count(15) == 4);
            assert(137int / 12int == 11int);
            assert(spec_align_step(15) == 22);
            assert(ecc_entry(15) == 24 && block_entry(15) == 10);
            assert(spec_raw_modules(15) == 5243);
            assert(spec_raw_modules(15) / 8 == 655);
            assert(655int / 10int == 65int);
        }
    } else if ver == 16 {
        assert(version_facts(16)) by {
            assert(align_count(16) == 4);
            assert(145int / 12int == 12int);
            assert(spec_align_step(16) == 24);
            assert(ecc_entry(16) == 28 && block_entry(16) == 10);
            assert(spec_raw_modules(16) == 5867);
            assert(spec_raw_modules(16) / 8 == 733);
            assert(733int / 10int == 73int);
        }
    } else if ver == 17 {
        assert(version_facts(17)) by {
            assert(align_count(17) == 4);
            assert(153int / 12int == 12int);
            assert(spec_align_step(17) == 24);
            assert(ecc_entry(17) == 28 && block_entry(17) == 11);
            assert(spec_raw_modules(17) == 6523);
            assert(spec_raw_modules(17) / 8 == 815);
            assert(815int / 11int == 74int);
        }
    } else if ver == 18 {
        assert(version_facts(18)) by {
            assert(align_count(18) == 4);
            assert(161int / 12int == 13int);
            assert(spec_align_step(18) == 26);
            assert(ecc_entry(18) == 26 && block_entry(18) == 13);
            assert(spec_raw_modules(18) == 7211);
            assert(spec_raw_modules(18) / 8 == 901);
            assert(901int / 13int == 69int);
        }
    } else if ver == 19 {
        assert(version_facts(19)) by {
            assert(align_count(19) == 4);
            assert(169int / 12int == 14int);
            assert(spec_align_step(19) == 28);
            assert(ecc_entry(19) == 26 && block_entry(19) == 14);
            assert(spec_raw_modules(19) == 7931);
            assert(spec_raw_modules(19) / 8 == 991);
            assert(991int / 14int == 70int);
        }
    } else if ver == 20 {
        assert(version_facts(20)) by {
            assert(align_count(20) == 4);
            assert(177int / 12int == 14int);
            assert(spec_align_step(20) == 28);
            assert(ecc_entry(20) == 26 && block_entry(20) == 16);
            assert(spec_raw_modules(20) == 8683);
            assert(spec_raw_modules(20) / 8 == 1085);
            assert(1085int / 16int == 67int);
        }
    } else if ver == 21 {
        assert(version_facts(21)) by {
            assert(align_count(21) == 5);
            assert(188int / 16int == 11int);
            assert(spec_align_step(21) == 22);
            assert(ecc_entry(21) == 26 && block_entry(21) == 17);
            assert(spec_raw_modules(21) == 9252);
            assert(spec_raw_modules(21) / 8 == 1156);
            assert(1156int / 17int == 68int);
        }
    } else if ver == 22 {
        assert(version_facts(22)) by {
            assert(align_count(22) == 5);
            assert(196int / 16int == 12int);
            assert(spec_align_step(22) == 24);
            assert(ecc_entry(22) == 28 && block_entry(22) == 17);
            assert(spec_raw_modules(22) == 10068);
            assert(spec_raw_modules(22) / 8 == 1258);
            assert(1258int / 17int == 74int);
        }
    } else if ver == 23 {
        assert(version_facts(23)) by {
            assert(align_count(23) == 5);
            assert(204int / 16int == 12int);
            assert(spec_align_step(23) == 24);
            assert(ecc_entry(23) == 28 && block_entry(23) == 18);
            assert(spec_raw_modules(23) == 10916);
            assert(spec_raw_modules(23) / 8 == 1364);
            assert(1364int / 18int == 75int);
        }
    } else if ver == 24 {
        assert(version_facts(24)) by {
            assert(align_count(24) == 5);
            assert(212int / 16int == 13int);
            assert(spec_align_step(24) == 26);
            assert(ecc_entry(24) == 28 && block_entry(24) == 20);
            assert(spec_raw_modules(24) == 11796);
            assert(spec_raw_modules(24) / 8 == 1474);
            assert(1474int / 20int == 73int);
        }
    } else if ver == 25 {
        assert(version_facts(25)) by {
            assert(align_count(25) == 5);
            assert(220int / 16int == 13int);
            assert(spec_align_step(25) == 26);
            assert(ecc_entry(25) == 28 && block_entry(25) == 21);
            assert(spec_raw_modules(25) == 12708);
            assert(spec_raw_modules(25) / 8 == 1588);
            assert(1588int / 21int == 75int);
        }
    } else if ver == 26 {
        assert(version_facts(26)) by {
            assert(align_count(26) == 5);
            assert(228int / 16int == 14int);
            assert(spec_align_step(26) == 28);
            assert(ecc_entry(26) == 28 && block_entry(26) == 23);
            assert(spec_raw_modules(26) == 13652);
            assert(spec_raw_modules(26) / 8 == 1706);
            assert(1706int / 23int == 74int);
        }
    } else if ver == 27 {
        assert(version_facts(27)) by {
            assert(align_count(27) == 5);
            assert(236int / 16int == 14int);
            assert(spec_align_step(27) == 28);
            assert(ecc_entry(27) == 28 && block_entry(27) == 25);
            assert(spec_raw_modules(27) == 14628);
            assert(spec_raw_modules(27) / 8 == 1828);
            assert(1828int / 25int == 73int);
        }
    } else if ver == 28 {
        assert(version_facts(28)) by {
            assert(align_count(28) == 6);
            assert(247int / 20int == 12int);
            assert(spec_align_step(28) == 24);
            assert(ecc_entry(28) == 28 && block_entry(28) == 26);
            assert(spec_raw_modules(28) == 15371);
            assert(spec_raw_modules(28) / 8 == 1921);
            assert(1921int / 26int == 73int);
        }
    } else if ver == 29 {
        assert(version_facts(29)) by {
            assert(align_count(29) == 6);
            assert(255int / 20int == 12int);
            assert(spec_align_step(29) == 24);
            assert(ecc_entry(29) == 28 && block_entry(29) == 28);
            assert(spec_raw_modules(29) == 16411);
            assert(spec_raw_modules(29) / 8 == 2051);
            assert(2051int / 28int == 73int);
        }
    } else if ver == 30 {
        assert(version_facts(30)) by {
            assert(align_count(30) == 6);
            assert(263int / 20int == 13int);
            assert(spec_align_step(30) == 26);
            assert(ecc_entry(30) == 28 && block_entry(30) == 29);
            assert(spec_raw_modules(30) == 17483);
            assert(spec_raw_modules(30) / 8 == 2185);
            assert(2185int / 29int == 75int);
        }
    } else if ver == 31 {
        assert(version_facts(31)) by {
            assert(align_count(31) == 6);
            assert(271int / 20int == 13int);
            assert(spec_align_step(31) == 26);
            assert(ecc_entry(31) == 28 && block_entry(31) == 31);
            assert(spec_raw_modules(31) == 18587);
            assert(spec_raw_modules(31) / 8 == 2323);
            assert(2323int / 31int == 74int);
        }
    } else if ver == 32 {
        assert(version_facts(32)) by {
            assert(align_count(32) == 6);
            assert(279int / 20int == 13int);
            assert(spec_align_step(32) == 26);
            assert(ecc_entry(32) == 28 && block_entry(32) == 33);
            assert(spec_raw_modules(32) == 19723);
            assert(spec_raw_modules(32) / 8 == 2465);
            assert(2465int / 33int == 74int);
        }
    } else if ver == 33 {
        assert(version_facts(33)) by {
            assert(align_count(33) == 6);
            assert(287int / 20int == 14int);
            assert(spec_align_step(33) == 28);
            assert(ecc_entry(33) == 28 && block_entry(33) == 35);
            assert(spec_raw_modules(33) == 20891);
            assert(spec_raw_modules(33) / 8 == 2611);
            assert(2611int / 35int == 74int);
        }
    } else if ver == 34 {
        assert(version_facts(34)) by {
            assert(align_count(34) == 6);
            assert(295int / 20int == 14int);
            assert(spec_align_step(34) == 28);
            assert(ecc_entry(34) == 28 && block_entry(34) == 37);
            assert(spec_raw_modules(34) == 22091);
            assert(spec_raw_modules(34) / 8 == 2761);
            assert(2761int / 37int == 74int);
        }
    } else if ver == 35 {
        assert(version_facts(35)) by {
            assert(align_count(35) == 7);
            assert(306int / 24int == 12int);
            assert(spec_align_step(35) == 24);
            assert(ecc_entry(35) == 28 && block_entry(35) == 38);
            assert(spec_raw_modules(35) == 23008);
            assert(spec_raw_modules(35) / 8 == 2876);
            assert(2876int / 38int == 75int);
        }
    } else if ver == 36 {
        assert(version_facts(36)) by {
            assert(align_count(36) == 7);
            assert(314int / 24int == 13int);
            assert(spec_align_step(36) == 26);
            assert(ecc_entry(36) == 28 && block_entry(36) == 40);
            assert(spec_raw_modules(36) == 24272);
            assert(spec_raw_modules(36) / 8 == 3034);
            assert(3034int / 40int == 75int);
        }
    } else if ver == 37 {
        assert(version_facts(37)) by {
            assert(align_count(37) == 7);
            assert(322int / 24int == 13int);
            assert(spec_align_step(37) == 26);
            assert(ecc_entry(37) == 28 && block_entry(37) == 43);
            assert(spec_raw_modules(37) == 25568);
            assert(spec_raw_modules(37) / 8 == 3196);
            assert(3196int / 43int == 74int);
        }
    } else if ver == 38 {
        assert(version_facts(38)) by {
            assert(align_count(38) == 7);
            assert(330int / 24int == 13int);
            assert(spec_align_step(38) == 26);
            assert(ecc_entry(38) == 28 && block_entry(38) == 45);
            assert(spec_raw_modules(38) == 26896);
            assert(spec_raw_modules(38) / 8 == 3362);
            assert(3362int / 45int == 74int);
        }
    } else if ver == 39 {
        assert(version_facts(39)) by {
            assert(align_count(39) == 7);
            assert(338int / 24int == 14int);
            assert(spec_align_step(39) == 28);
            assert(ecc_entry(39) == 28 && block_entry(39) == 47);
            assert(spec_raw_modules(39) == 28256);
            assert(spec_raw_modules(39) / 8 == 3532);
            assert(3532int / 47int == 75int);
        }
    } else if ver == 40 {
        assert(version_facts(40)) by {
            assert(align_count(40) == 7);
            assert(346int / 24int == 14int);
            assert(spec_align_step(40) == 28);
            assert(ecc_entry(40) == 28 && block_entry(40) == 49);
            assert(spec_raw_modules(40) == 29648);
            assert(spec_raw_modules(40) / 8 == 3706);
            assert(3706int / 49int == 75int);
        }
    }
}

/// Data codewords of a symbol of version `ver`.
pub fn num_data_codewords(ver: usize) -> (r: usize)
    requires
        valid_version(ver as int),
    ensures
        r == spec_data_codewords(ver as int),
{
    proof {
        lemma_version_facts(ver as int);
        assert((16 * ver + 128) * ver + 64 <= 30784) by (nonlinear_arith)
            requires
                ver <= 40,
        ;
    }
    num_raw_data_modules(ver) / 8 - ecc_codewords_per_block(ver) * num_error_correction_blocks(ver)
}

} // verus!

verus! {

/// Bits needed by `len` bytes before the terminator: mode indicator, count field, data.
pub open spec fn header_and_data_bits(ver: int, len: int) -> int {
    4 + char_count_bits(ver) + 8 * len
}

/// The message returned when the data fits in no version.
pub open spec fn too_long_message() -> Seq<char> {
    "Données trop longues pour un QR code (limite de la norme atteinte)"@
}

/// The smallest version whose data capacity holds `data_len` bytes in byte mode,
/// with room for the terminator and the padding to a whole codeword.
pub fn pick_version(data_len: usize) -> (r: Result<usize, String>)
    requires
        data_len * 8 + 20 <= usize::MAX,
    ensures
        match r {
            Ok(v) => {
                &&& valid_version(v as int)
                &&& fits(v as int, data_len as int)
                &&& forall|w: int| 1 <= w < v ==> !fits(w, data_len as int)
            },
            Err(e) => {
                &&& forall|w: int| valid_version(w) ==> !fits(w, data_len as int)
                &&& e@ == too_long_message()
            },
        },
{
    let mut ver: usize = 1;
    while ver <= 40
        invariant
            1 <= ver <= 41,
            data_len * 8 + 20 <= usize::MAX,
            forall|w: int| 1 <= w < ver ==> !fits(w, data_len as int),
        decreases 41 - ver,
    {
        proof {
            lemma_version_facts(ver as int);
        }
        let cap_bytes = num_data_codewords(ver);
        let cap_bits = cap_bytes * 8;
        let char_count_bits: usize = if ver <= 9 { 8 } else { 16 };
        let mut needed = 4 + char_count_bits + data_len * 8;
        if needed > cap_bits {
            ver += 1;
            continue;
        }
        let terminator = if cap_bits - needed < 4 { cap_bits - needed } else { 4 };
        needed += terminator;
        let padding = (8 - needed % 8) % 8;
        needed += padding;
        if needed / 8 <= cap_bytes {
            return Ok(ver);
        }
        ver += 1;
    }
    Err(String::from_str("Données trop longues pour un QR code (limite de la norme atteinte)"))
}

} // verus!

verus! {

/// The first version from `ver` up to 40 that holds `len` bytes; 41 where none does.
pub open spec fn version_from(ver: int, len: int) -> int
    decreases 41 - ver,
{
    if ver >= 41 {
        41
    } else if fits(ver, len) {
        ver
    } else {
        version_from(ver + 1, len)
    }
}

/// The smallest version that holds `len` bytes; 41 where none does.
pub open spec fn min_version(len: int) -> int {
    version_from(1, len)
}

proof fn lemma_version_from(u: int, len: int, ver: int)
    requires
        1 <= u <= ver <= 40,
        fits(ver, len),
        forall|w: int| u <= w < ver ==> !fits(w, len),
    ensures
        version_from(u, len) == ver,
    decreases ver - u,
{
    if u < ver {
        lemma_version_from(u + 1, len, ver);
    }
}

proof fn lemma_version_from_none(u: int, len: int)
    requires
        1 <= u <= 41,
        forall|w: int| u <= w <= 40 ==> !fits(w, len),
    ensures
        version_from(u, len) == 41,
    decreases 41 - u,
{
    if u < 41 {
        lemma_version_from_none(u + 1, len);
    }
}

/// The version that `pick_version` finds is `min_version`, and the versions
/// that hold nothing leave `min_version` at 41.
pub proof fn lemma_min_version(len: int, ver: int)
    requires
        (1 <= ver <= 40 && fits(ver, len) && forall|w: int| 1 <= w < ver ==> !fits(w, len))
            || (ver == 41 && forall|w: int| valid_version(w) ==> !fits(w, len)),
    ensures
        min_version(len) == ver,
{
    if ver == 41 {
        assert forall|w: int| 1 <= w <= 40 implies !fits(w, len) by {
            assert(valid_version(w));
        }
        lemma_version_from_none(1, len);
    } else {
        lemma_version_from(1, len, ver);
    }
}

} // verus!

verus! {

/// In byte mode the character count takes 8 bits up to version 9 and 16 bits from
/// version 10: `len` bytes fit a version when the 4-bit mode indicator, that count
/// and the bytes fit its data codewords. `pick_version` returns the first version
/// where they fit.
pub proof fn lemma_fits_byte_mode(ver: int, len: int)
    requires
        1 <= ver <= 40,
    ensures
        fits(ver, len) == (4 + (if ver <= 9 {
            8int
        } else {
            16int
        }) + 8 * len <= 8 * spec_data_codewords(ver)),
{
}

} // verus!
