//! How the rows of a write are cut into blocks.
//!
//! A block is a run of consecutive rows of one write. Every block but the
//! last has the same number of rows; the last holds what is left. The blocks
//! of all columns of a table are cut at the same rows.

use crate::data::Scalar;
use vstd::prelude::*;

verus! {

/// The number of blocks that `rows` rows make, `per_block` rows to a block.
pub open spec fn block_count(rows: int, per_block: int) -> int {
    (rows + per_block - 1) / per_block
}

/// The row at which block `b` starts: blocks are consecutive runs of
/// `per_block` rows, the last one perhaps shorter.
pub open spec fn block_start(rows: int, per_block: int, b: int) -> int {
    if b * per_block <= rows {
        b * per_block
    } else {
        rows
    }
}

/// The values of the column `c` in the rows `start..end` of `rows`.
pub open spec fn column_slice(rows: Seq<Seq<Scalar>>, start: int, end: int, c: int) -> Seq<Scalar> {
    Seq::new((end - start) as nat, |r: int| rows[start + r][c])
}

/// The values of column `c` in block `b` of `rows`.
pub open spec fn block_column(rows: Seq<Seq<Scalar>>, per_block: int, b: int, c: int) -> Seq<
    Scalar,
> {
    column_slice(
        rows,
        block_start(rows.len() as int, per_block, b),
        block_start(rows.len() as int, per_block, b + 1),
        c,
    )
}

/// The values of column `c` in each of the first `k` blocks of `rows`.
pub open spec fn block_columns(rows: Seq<Seq<Scalar>>, per_block: int, k: int, c: int) -> Seq<
    Seq<Scalar>,
> {
    Seq::new(k as nat, |b: int| block_column(rows, per_block, b, c))
}

/// A number of blocks is short of the block count exactly when those blocks
/// do not reach the last row.
pub proof fn lemma_block_count(rows: int, per_block: int, k: int)
    requires
        0 <= rows,
        0 < per_block,
        0 <= k,
    ensures
        k * per_block < rows <==> k < block_count(rows, per_block),
        0 <= block_count(rows, per_block),
{
    let q = block_count(rows, per_block);
    assert(q * per_block <= rows + per_block - 1 < q * per_block + per_block && 0 <= q)
        by (nonlinear_arith)
        requires
            q == (rows + per_block - 1) / per_block,
            0 < per_block,
            0 <= rows,
    ;
    if k < q {
        assert(k * per_block <= q * per_block - per_block) by (nonlinear_arith)
            requires
                k <= q - 1,
                0 < per_block,
        ;
    } else {
        assert(k * per_block >= q * per_block) by (nonlinear_arith)
            requires
                k >= q,
                0 < per_block,
        ;
    }
}

/// The rows of a block: it starts within the rows and is not empty.
pub proof fn lemma_block_bounds(rows: int, per_block: int, b: int)
    requires
        0 <= rows,
        0 < per_block,
        0 <= b < block_count(rows, per_block),
    ensures
        block_start(rows, per_block, b) == b * per_block,
        0 <= block_start(rows, per_block, b) < block_start(rows, per_block, b + 1) <= rows,
        block_start(rows, per_block, b + 1) - block_start(rows, per_block, b) <= per_block,
{
    lemma_block_count(rows, per_block, b);
    assert((b + 1) * per_block == b * per_block + per_block) by (nonlinear_arith);
    assert(0 <= b * per_block) by (nonlinear_arith)
        requires
            0 <= b,
            0 < per_block,
    ;
}

/// The blocks end where the rows end.
pub proof fn lemma_block_end(rows: int, per_block: int)
    requires
        0 <= rows,
        0 < per_block,
    ensures
        block_start(rows, per_block, block_count(rows, per_block)) == rows,
{
    let k = block_count(rows, per_block);
    lemma_block_count(rows, per_block, k);
}

} // verus!
