//! How the data codewords of a symbol are split into blocks, extended with
//! error-correction codewords, and interleaved.
use vstd::prelude::*;
use crate::gf::{rs_divisor, rs_remainder};
use crate::tables::{spec_ecc_per_block, spec_num_blocks, spec_raw_modules};

verus! {

/// Codewords of a symbol of version `ver` (data and error correction).
pub open spec fn raw_codewords(ver: int) -> int {
    spec_raw_modules(ver) / 8
}

/// Number of blocks that are one data codeword shorter than the others.
pub open spec fn num_short_blocks(ver: int) -> int {
    spec_num_blocks(ver) - raw_codewords(ver) % spec_num_blocks(ver)
}

/// Length of a short block, error correction included.
pub open spec fn short_block_len(ver: int) -> int {
    raw_codewords(ver) / spec_num_blocks(ver)
}

/// Data codewords in block `i`.
pub open spec fn block_data_len(ver: int, i: int) -> int {
    short_block_len(ver) - spec_ecc_per_block(ver) + (if i >= num_short_blocks(ver) {
        1int
    } else {
        0int
    })
}

/// Where the data of block `i` starts: the data lengths of the blocks before it.
pub open spec fn block_offset(ver: int, i: int) -> int {
    i * (short_block_len(ver) - spec_ecc_per_block(ver)) + (if i > num_short_blocks(ver) {
        i - num_short_blocks(ver)
    } else {
        0int
    })
}

/// The data codewords of block `i`.
pub open spec fn block_data(data: Seq<u8>, ver: int, i: int) -> Seq<u8> {
    data.subrange(block_offset(ver, i), block_offset(ver, i) + block_data_len(ver, i))
}

/// Block `i` as interleaved: its data, a placeholder 0 in short blocks, and its
/// error-correction codewords.
pub open spec fn ecc_block(data: Seq<u8>, ver: int, i: int) -> Seq<u8> {
    let dat = block_data(data, ver, i);
    let pad = if i < num_short_blocks(ver) {
        seq![0u8]
    } else {
        Seq::<u8>::empty()
    };
    dat + pad + rs_remainder(dat, rs_divisor(spec_ecc_per_block(ver) as nat))
}

/// Column `c` of the blocks `0..j`, without the placeholders of short blocks.
pub open spec fn interleave_row(blocks: Seq<Seq<u8>>, c: int, skip: int, nshort: int, j: int) -> Seq<u8>
    decreases j,
{
    if j <= 0 {
        Seq::empty()
    } else {
        let rest = interleave_row(blocks, c, skip, nshort, j - 1);
        if c != skip || j - 1 >= nshort {
            rest.push(blocks[j - 1][c])
        } else {
            rest
        }
    }
}

/// Columns `0..c` of the blocks, one after the other.
pub open spec fn interleave_cols(blocks: Seq<Seq<u8>>, c: int, skip: int, nshort: int) -> Seq<u8>
    decreases c,
{
    if c <= 0 {
        Seq::empty()
    } else {
        interleave_cols(blocks, c - 1, skip, nshort) + interleave_row(
            blocks,
            c - 1,
            skip,
            nshort,
            blocks.len() as int,
        )
    }
}

/// All codewords of a symbol of version `ver` holding `data`: the blocks with their
/// error correction, read column by column across the blocks.
pub open spec fn interleaved_codewords(data: Seq<u8>, ver: int) -> Seq<u8> {
    let blocks = Seq::new(spec_num_blocks(ver) as nat, |i: int| ecc_block(data, ver, i));
    interleave_cols(
        blocks,
        short_block_len(ver) + 1,
        short_block_len(ver) - spec_ecc_per_block(ver),
        num_short_blocks(ver),
    )
}

/// The block data of a symbol tile the data codewords.
pub proof fn lemma_block_offsets(ver: int, i: int)
    requires
        crate::tables::valid_version(ver),
        0 <= i < spec_num_blocks(ver),
    ensures
        block_offset(ver, i + 1) == block_offset(ver, i) + block_data_len(ver, i),
        0 <= block_offset(ver, i),
        block_data_len(ver, i) >= 1,
        block_offset(ver, i + 1) <= block_offset(ver, spec_num_blocks(ver)),
        block_offset(ver, spec_num_blocks(ver)) == crate::tables::spec_data_codewords(ver),
        0 < num_short_blocks(ver) <= spec_num_blocks(ver),
        short_block_len(ver) - spec_ecc_per_block(ver) >= 1,
{
    crate::tables::lemma_version_facts(ver);
    let nb = spec_num_blocks(ver);
    let raw = raw_codewords(ver);
    let sl = short_block_len(ver);
    let e = spec_ecc_per_block(ver);
    let ns = num_short_blocks(ver);
    vstd::arithmetic::div_mod::lemma_fundamental_div_mod(raw, nb);
    assert(0 <= raw % nb < nb) by {
        vstd::arithmetic::div_mod::lemma_mod_pos_bound(raw, nb);
    }
    assert((i + 1) * (sl - e) == i * (sl - e) + (sl - e)) by (nonlinear_arith);
    assert(0 <= i * (sl - e)) by (nonlinear_arith)
        requires
            i >= 0,
            sl - e >= 1,
    ;
    assert((i + 1) * (sl - e) <= nb * (sl - e)) by (nonlinear_arith)
        requires
            i + 1 <= nb,
            sl - e >= 1,
    ;
    assert(nb * (sl - e) == nb * sl - nb * e) by (nonlinear_arith);
    assert(nb * sl == sl * nb) by (nonlinear_arith);
}

/// How many codewords one row of the interleaving takes from the first `j` blocks.
pub proof fn lemma_interleave_row_len(blocks: Seq<Seq<u8>>, c: int, skip: int, nshort: int, j: int)
    requires
        0 <= j <= blocks.len(),
        0 <= nshort,
    ensures
        interleave_row(blocks, c, skip, nshort, j).len() == j - (if c == skip {
            if j < nshort {
                j
            } else {
                nshort
            }
        } else {
            0
        }),
    decreases j,
{
    if j > 0 {
        lemma_interleave_row_len(blocks, c, skip, nshort, j - 1);
    }
}

/// How many codewords the first `c` rows of the interleaving take.
pub proof fn lemma_interleave_cols_len(blocks: Seq<Seq<u8>>, c: int, skip: int, nshort: int)
    requires
        0 <= c,
        0 <= skip,
        0 <= nshort <= blocks.len(),
    ensures
        interleave_cols(blocks, c, skip, nshort).len() == c * blocks.len() - (if c > skip {
            nshort
        } else {
            0
        }),
    decreases c,
{
    if c > 0 {
        lemma_interleave_cols_len(blocks, c - 1, skip, nshort);
        lemma_interleave_row_len(blocks, c - 1, skip, nshort, blocks.len() as int);
        assert(c * blocks.len() == (c - 1) * blocks.len() + blocks.len()) by (nonlinear_arith);
    } else {
        assert(c * blocks.len() == 0) by (nonlinear_arith)
            requires
                c == 0,
        ;
    }
}

/// A symbol holds exactly its raw codewords: data and error correction together.
pub proof fn lemma_interleaved_len(data: Seq<u8>, ver: int)
    requires
        crate::tables::valid_version(ver),
    ensures
        interleaved_codewords(data, ver).len() == raw_codewords(ver),
{
    lemma_block_offsets(ver, 0);
    let nb = spec_num_blocks(ver);
    let blocks = Seq::new(nb as nat, |i: int| ecc_block(data, ver, i));
    let sl = short_block_len(ver);
    lemma_interleave_cols_len(blocks, sl + 1, sl - spec_ecc_per_block(ver), num_short_blocks(ver));
    let raw = raw_codewords(ver);
    vstd::arithmetic::div_mod::lemma_fundamental_div_mod(raw, nb);
    assert((sl + 1) * nb == sl * nb + nb) by (nonlinear_arith);
    assert(nb * sl == sl * nb) by (nonlinear_arith);
}

} // verus!

verus! {

proof fn lemma_interleave_row_index(
    blocks: Seq<Seq<u8>>,
    c: int,
    skip: int,
    nshort: int,
    j: int,
    b: int,
)
    requires
        0 <= b < j <= blocks.len(),
        0 <= nshort,
        c != skip || b >= nshort,
    ensures
        ({
            let pos = if c != skip {
                b
            } else {
                b - nshort
            };
            &&& 0 <= pos < interleave_row(blocks, c, skip, nshort, j).len()
            &&& interleave_row(blocks, c, skip, nshort, j)[pos] == blocks[b][c]
        }),
    decreases j,
{
    lemma_interleave_row_len(blocks, c, skip, nshort, j);
    lemma_interleave_row_len(blocks, c, skip, nshort, j - 1);
    if b < j - 1 {
        lemma_interleave_row_index(blocks, c, skip, nshort, j - 1, b);
    }
}

proof fn lemma_interleave_cols_index(
    blocks: Seq<Seq<u8>>,
    cols: int,
    skip: int,
    nshort: int,
    c: int,
    pos: int,
)
    requires
        0 <= c < cols,
        0 <= skip,
        0 <= nshort <= blocks.len(),
        0 <= pos < interleave_row(blocks, c, skip, nshort, blocks.len() as int).len(),
    ensures
        interleave_cols(blocks, c, skip, nshort).len() + pos < interleave_cols(
            blocks,
            cols,
            skip,
            nshort,
        ).len(),
        interleave_cols(blocks, cols, skip, nshort)[interleave_cols(blocks, c, skip, nshort).len()
            + pos] == interleave_row(blocks, c, skip, nshort, blocks.len() as int)[pos],
    decreases cols,
{
    if c < cols - 1 {
        lemma_interleave_cols_index(blocks, cols - 1, skip, nshort, c, pos);
    }
}

/// The codewords of a symbol as the standard interleaves them. Of its `nb` blocks,
/// the first `ns` hold `dl` data codewords and the others `dl + 1`; block `b`'s data
/// starts at `b * dl + max(0, b - ns)`. The data codewords come first, column by
/// column across the blocks (codeword `c` of every block, then codeword `c + 1`),
/// the extra codeword of the long blocks last; then the `e` error-correction
/// codewords of every block, column by column, which are the Reed-Solomon
/// remainder of the block's data.
pub proof fn lemma_interleaving(data: Seq<u8>, ver: int, b: int, c: int)
    requires
        crate::tables::valid_version(ver),
        data.len() == crate::tables::spec_data_codewords(ver),
        0 <= b < spec_num_blocks(ver),
    ensures
        ({
            let nb = spec_num_blocks(ver);
            let raw = spec_raw_modules(ver) / 8;
            let ns = nb - raw % nb;
            let e = spec_ecc_per_block(ver);
            let dl = raw / nb - e;
            let off = b * dl + (if b > ns {
                b - ns
            } else {
                0
            });
            let dlen = dl + (if b >= ns {
                1int
            } else {
                0int
            });
            let ic = interleaved_codewords(data, ver);
            &&& (0 <= c < dl ==> ic[c * nb + b] == data[off + c])
            &&& (b >= ns ==> ic[dl * nb + b - ns] == data[off + dl])
            &&& (0 <= c < e ==> ic[crate::tables::spec_data_codewords(ver) + c * nb + b]
                == rs_remainder(data.subrange(off, off + dlen), rs_divisor(e as nat))[c])
        }),
{
    let nb = spec_num_blocks(ver);
    let ns = num_short_blocks(ver);
    let e = spec_ecc_per_block(ver);
    let sl = short_block_len(ver);
    let dl = sl - e;
    let dc = crate::tables::spec_data_codewords(ver);
    lemma_block_offsets(ver, b);
    crate::tables::lemma_version_facts(ver);
    let blocks = Seq::new(nb as nat, |i: int| ecc_block(data, ver, i));
    let dat = block_data(data, ver, b);
    let div = rs_divisor(e as nat);
    crate::gf::lemma_rs_divisor_len(e as nat);
    crate::gf::lemma_rs_remainder_len(dat, div);
    let blk = ecc_block(data, ver, b);
    assert(blocks[b] == blk);
    assert(blk.len() == sl + 1);
    let ic = interleaved_codewords(data, ver);
    if 0 <= c < dl {
        lemma_interleave_row_index(blocks, c, dl, ns, nb, b);
        lemma_interleave_row_len(blocks, c, dl, ns, nb);
        lemma_interleave_cols_index(blocks, sl + 1, dl, ns, c, b);
        lemma_interleave_cols_len(blocks, c, dl, ns);
        assert(blk[c] == dat[c]);
    }
    if b >= ns {
        lemma_interleave_row_index(blocks, dl, dl, ns, nb, b);
        lemma_interleave_row_len(blocks, dl, dl, ns, nb);
        lemma_interleave_cols_index(blocks, sl + 1, dl, ns, dl, b - ns);
        lemma_interleave_cols_len(blocks, dl, dl, ns);
        assert(blk[dl] == dat[dl]);
    }
    if 0 <= c < e {
        let col = dl + 1 + c;
        lemma_interleave_row_index(blocks, col, dl, ns, nb, b);
        lemma_interleave_row_len(blocks, col, dl, ns, nb);
        lemma_interleave_cols_index(blocks, sl + 1, dl, ns, col, b);
        lemma_interleave_cols_len(blocks, col, dl, ns);
        lemma_block_offsets(ver, nb - 1);
        assert(block_offset(ver, nb) == nb * dl + (nb - ns));
        assert(col * nb - ns == dc + c * nb) by (nonlinear_arith)
            requires
                dc == nb * dl + (nb - ns),
                col == dl + 1 + c,
        ;
        assert(blk[col] == rs_remainder(dat, div)[c]);
    }
}

} // verus!
