//! Row-major addressing of dense tensors held in flat buffers.
use vstd::prelude::*;

verus! {

/// The flat position of column `c` in row `r` of a table whose rows hold
/// `width` entries.
pub open spec fn at2(r: int, c: int, width: int) -> int {
    r * width + c
}

/// A cell of a table of `rows` rows lies inside the table, and so does the rest
/// of its row.
pub proof fn lemma_at2_in_table(r: int, c: int, rows: int, width: int)
    requires
        0 <= r < rows,
        0 <= c < width,
    ensures
        0 <= r * width,
        0 <= at2(r, c, width) < rows * width,
        at2(r, 0, width) + width <= rows * width,
        at2(r, c, width) == at2(r, 0, width) + c,
{
    assert(0 <= r * width) by (nonlinear_arith)
        requires
            0 <= r,
            0 <= width,
    ;
    assert((r + 1) * width <= rows * width) by (nonlinear_arith)
        requires
            r + 1 <= rows,
            0 <= width,
    ;
    assert((r + 1) * width == r * width + width) by (nonlinear_arith);
}

/// A row of a table of `rows` rows lies inside the table, also where the rows
/// are empty.
pub proof fn lemma_row_span(r: int, rows: int, width: int)
    requires
        0 <= r < rows,
        0 <= width,
    ensures
        0 <= r * width,
        r * width + width <= rows * width,
{
    assert(0 <= r * width) by (nonlinear_arith)
        requires
            0 <= r,
            0 <= width,
    ;
    assert(r * width + width <= rows * width) by (nonlinear_arith)
        requires
            r + 1 <= rows,
            0 <= width,
    ;
}

/// Two cells with the same flat position are the same cell.
pub proof fn lemma_at2_unique(r1: int, c1: int, r2: int, c2: int, width: int)
    requires
        0 <= c1 < width,
        0 <= c2 < width,
        at2(r1, c1, width) == at2(r2, c2, width),
    ensures
        r1 == r2,
        c1 == c2,
{
    if r1 < r2 {
        assert((r1 + 1) * width <= r2 * width) by (nonlinear_arith)
            requires
                r1 + 1 <= r2,
                0 <= width,
        ;
        assert((r1 + 1) * width == r1 * width + width) by (nonlinear_arith);
    } else if r2 < r1 {
        assert((r2 + 1) * width <= r1 * width) by (nonlinear_arith)
            requires
                r2 + 1 <= r1,
                0 <= width,
        ;
        assert((r2 + 1) * width == r2 * width + width) by (nonlinear_arith);
    }
}

/// Rows grow with their number: an earlier row ends before a later one starts.
pub proof fn lemma_at2_ordered(r1: int, r2: int, width: int)
    requires
        r1 < r2,
        0 <= width,
    ensures
        at2(r1, 0, width) + width <= at2(r2, 0, width),
{
    assert((r1 + 1) * width <= r2 * width) by (nonlinear_arith)
        requires
            r1 + 1 <= r2,
            0 <= width,
    ;
    assert((r1 + 1) * width == r1 * width + width) by (nonlinear_arith);
}

/// The flat position of entry `c` of row `t` of block `b`, in a buffer of
/// blocks of `rows` rows of `width` entries each.
pub open spec fn at3(b: int, t: int, c: int, rows: int, width: int) -> int {
    at2(at2(b, t, rows), c, width)
}

/// A cell of a buffer of `blocks` blocks lies inside the buffer.
pub proof fn lemma_at3_in_table(b: int, t: int, c: int, blocks: int, rows: int, width: int)
    requires
        0 <= b < blocks,
        0 <= t < rows,
        0 <= c < width,
    ensures
        0 <= at2(b, t, rows) < blocks * rows,
        0 <= at3(b, t, c, rows, width) < blocks * rows * width,
        at3(b, t, 0, rows, width) + width <= blocks * rows * width,
        at3(b, t, c, rows, width) == at3(b, t, 0, rows, width) + c,
{
    lemma_at2_in_table(b, t, blocks, rows);
    lemma_at2_in_table(at2(b, t, rows), c, blocks * rows, width);
}

/// Two cells of a blocked buffer with the same flat position are the same
/// cell.
pub proof fn lemma_at3_unique(
    b1: int,
    t1: int,
    c1: int,
    b2: int,
    t2: int,
    c2: int,
    rows: int,
    width: int,
)
    requires
        0 <= t1 < rows,
        0 <= t2 < rows,
        0 <= c1 < width,
        0 <= c2 < width,
        at3(b1, t1, c1, rows, width) == at3(b2, t2, c2, rows, width),
    ensures
        b1 == b2,
        t1 == t2,
        c1 == c2,
{
    lemma_at2_unique(at2(b1, t1, rows), c1, at2(b2, t2, rows), c2, width);
    lemma_at2_unique(b1, t1, b2, t2, rows);
}

/// Block `b` of a blocked buffer starts `b` whole blocks after block `0`.
pub proof fn lemma_at3_block(b: int, t: int, c: int, rows: int, width: int)
    ensures
        at3(b, t, c, rows, width) == at2(t, c, width) + b * (rows * width),
        at3(b, t, c, rows, width) == at2(b * rows + t, c, width),
{
    assert((b * rows + t) * width == t * width + b * (rows * width)) by (nonlinear_arith);
}

/// Row `r` of a table with rows of `width` entries, as a sequence of its own.
pub open spec fn row<A>(s: Seq<A>, r: int, width: int) -> Seq<A> {
    s.subrange(at2(r, 0, width), at2(r, 0, width) + width)
}

} // verus!
