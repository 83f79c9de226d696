//! Sequences that are put together piece by piece: one piece for each index
//! below a bound, or one for each cell of a grid in row-major order.

use vstd::prelude::*;

verus! {

/// `f(0) + f(1) + ... + f(n - 1)`.
pub open spec fn concat_upto<T>(n: int, f: spec_fn(int) -> Seq<T>) -> Seq<T>
    decreases n,
{
    if n <= 0 {
        Seq::empty()
    } else {
        concat_upto(n - 1, f) + f(n - 1)
    }
}

/// `f(y, 0) + f(y, 1) + ... + f(y, n - 1)`.
pub open spec fn row_upto<T>(y: int, n: int, f: spec_fn(int, int) -> Seq<T>) -> Seq<T>
    decreases n,
{
    if n <= 0 {
        Seq::empty()
    } else {
        row_upto(y, n - 1, f) + f(y, n - 1)
    }
}

/// The pieces `f(y, x)` of the first `n` rows of a grid that is `width`
/// wide, row after row.
pub open spec fn rows_upto<T>(n: int, width: int, f: spec_fn(int, int) -> Seq<T>) -> Seq<T>
    decreases n,
{
    if n <= 0 {
        Seq::empty()
    } else {
        rows_upto(n - 1, width, f) + row_upto(n - 1, width, f)
    }
}

/// The pieces `f(y, x)` of all cells of a grid, in row-major order.
pub open spec fn over_cells<T>(height: int, width: int, f: spec_fn(int, int) -> Seq<T>) -> Seq<T> {
    rows_upto(height, width, f)
}

/// One more piece behind `concat_upto`.
pub proof fn lemma_concat_step<T>(base: Seq<T>, n: int, f: spec_fn(int) -> Seq<T>)
    requires
        n >= 0,
    ensures
        base + concat_upto(n, f) + f(n) == base + concat_upto(n + 1, f),
{
    assert(base + concat_upto(n, f) + f(n) =~= base + concat_upto(n + 1, f));
}

/// One more cell behind the rows and the part of a row that are there.
pub proof fn lemma_cell_step<T>(
    base: Seq<T>,
    y: int,
    x: int,
    width: int,
    f: spec_fn(int, int) -> Seq<T>,
)
    requires
        x >= 0,
    ensures
        base + rows_upto(y, width, f) + row_upto(y, x, f) + f(y, x) == base + rows_upto(
            y,
            width,
            f,
        ) + row_upto(y, x + 1, f),
{
    assert(base + rows_upto(y, width, f) + row_upto(y, x, f) + f(y, x) =~= base + rows_upto(
        y,
        width,
        f,
    ) + row_upto(y, x + 1, f));
}

/// A full row behind the rows that are there.
pub proof fn lemma_row_step<T>(base: Seq<T>, y: int, width: int, f: spec_fn(int, int) -> Seq<T>)
    requires
        y >= 0,
    ensures
        base + rows_upto(y, width, f) + row_upto(y, width, f) == base + rows_upto(y + 1, width, f),
        base + rows_upto(y, width, f) + row_upto(y, 0, f) == base + rows_upto(y, width, f),
{
    assert(base + rows_upto(y, width, f) + row_upto(y, width, f) =~= base + rows_upto(
        y + 1,
        width,
        f,
    ));
    assert(base + rows_upto(y, width, f) + row_upto(y, 0, f) =~= base + rows_upto(y, width, f));
}

/// One more cell behind the rows and the part of a row that are there.
pub proof fn lemma_cell_next<T>(y: int, x: int, width: int, f: spec_fn(int, int) -> Seq<T>)
    requires
        x >= 0,
    ensures
        rows_upto(y, width, f) + row_upto(y, x, f) + f(y, x) == rows_upto(y, width, f) + row_upto(
            y,
            x + 1,
            f,
        ),
{
    assert(rows_upto(y, width, f) + row_upto(y, x, f) + f(y, x) =~= rows_upto(y, width, f)
        + row_upto(y, x + 1, f));
}

/// A full row behind the rows that are there.
pub proof fn lemma_row_next<T>(y: int, width: int, f: spec_fn(int, int) -> Seq<T>)
    requires
        y >= 0,
    ensures
        rows_upto(y, width, f) + row_upto(y, width, f) == rows_upto(y + 1, width, f),
        rows_upto(y, width, f) + row_upto(y, 0, f) == rows_upto(y, width, f),
{
    assert(rows_upto(y, width, f) + row_upto(y, 0, f) =~= rows_upto(y, width, f));
}

/// Every entry of `concat_upto(n, f)` lies in one of its pieces.
pub proof fn lemma_concat_member<T>(n: int, f: spec_fn(int) -> Seq<T>, k: int) -> (i: int)
    requires
        0 <= k < concat_upto(n, f).len(),
    ensures
        0 <= i < n,
        f(i).contains(concat_upto(n, f)[k]),
    decreases n,
{
    if k < concat_upto(n - 1, f).len() {
        lemma_concat_member(n - 1, f, k)
    } else {
        let j = k - concat_upto(n - 1, f).len();
        assert(f(n - 1)[j] == concat_upto(n, f)[k]);
        n - 1
    }
}

/// Every entry of a piece lies in `concat_upto(n, f)`.
pub proof fn lemma_concat_holds<T>(n: int, f: spec_fn(int) -> Seq<T>, i: int, t: T)
    requires
        0 <= i < n,
        f(i).contains(t),
    ensures
        concat_upto(n, f).contains(t),
    decreases n,
{
    if i == n - 1 {
        let piece = f(i);
        let j = choose|j: int| 0 <= j < piece.len() && piece[j] == t;
        let m = concat_upto(n - 1, f).len();
        assert(concat_upto(n, f)[m + j] == t);
    } else {
        lemma_concat_holds(n - 1, f, i, t);
        let front = concat_upto(n - 1, f);
        let j = choose|j: int| 0 <= j < front.len() && front[j] == t;
        assert(concat_upto(n, f)[j] == t);
    }
}

/// Every entry of a part of a row lies in the piece of one of its cells.
pub proof fn lemma_row_member<T>(y: int, n: int, f: spec_fn(int, int) -> Seq<T>, k: int) -> (x:
    int)
    requires
        0 <= k < row_upto(y, n, f).len(),
    ensures
        0 <= x < n,
        f(y, x).contains(row_upto(y, n, f)[k]),
    decreases n,
{
    if k < row_upto(y, n - 1, f).len() {
        lemma_row_member(y, n - 1, f, k)
    } else {
        let j = k - row_upto(y, n - 1, f).len();
        assert(f(y, n - 1)[j] == row_upto(y, n, f)[k]);
        n - 1
    }
}

/// Every entry of the piece of a cell lies in the row.
pub proof fn lemma_row_holds<T>(y: int, n: int, f: spec_fn(int, int) -> Seq<T>, x: int, t: T)
    requires
        0 <= x < n,
        f(y, x).contains(t),
    ensures
        row_upto(y, n, f).contains(t),
    decreases n,
{
    if x == n - 1 {
        let piece = f(y, x);
        let j = choose|j: int| 0 <= j < piece.len() && piece[j] == t;
        let m = row_upto(y, n - 1, f).len();
        assert(row_upto(y, n, f)[m + j] == t);
    } else {
        lemma_row_holds(y, n - 1, f, x, t);
        let front = row_upto(y, n - 1, f);
        let j = choose|j: int| 0 <= j < front.len() && front[j] == t;
        assert(row_upto(y, n, f)[j] == t);
    }
}

/// Every entry of the pieces of a grid lies in the piece of one of its cells.
pub proof fn lemma_cells_member<T>(
    height: int,
    width: int,
    f: spec_fn(int, int) -> Seq<T>,
    k: int,
) -> (c: (int, int))
    requires
        0 <= k < rows_upto(height, width, f).len(),
    ensures
        0 <= c.0 < height,
        0 <= c.1 < width,
        f(c.0, c.1).contains(rows_upto(height, width, f)[k]),
    decreases height,
{
    if k < rows_upto(height - 1, width, f).len() {
        lemma_cells_member(height - 1, width, f, k)
    } else {
        let j = k - rows_upto(height - 1, width, f).len();
        assert(row_upto(height - 1, width, f)[j] == rows_upto(height, width, f)[k]);
        let x = lemma_row_member(height - 1, width, f, j);
        (height - 1, x)
    }
}

/// Every entry of the piece of a cell lies in the pieces of the grid.
pub proof fn lemma_cells_hold<T>(
    height: int,
    width: int,
    f: spec_fn(int, int) -> Seq<T>,
    y: int,
    x: int,
    t: T,
)
    requires
        0 <= y < height,
        0 <= x < width,
        f(y, x).contains(t),
    ensures
        rows_upto(height, width, f).contains(t),
    decreases height,
{
    if y == height - 1 {
        lemma_row_holds(y, width, f, x, t);
        let r = row_upto(y, width, f);
        let j = choose|j: int| 0 <= j < r.len() && r[j] == t;
        let m = rows_upto(height - 1, width, f).len();
        assert(rows_upto(height, width, f)[m + j] == t);
    } else {
        lemma_cells_hold(height - 1, width, f, y, x, t);
        let r = rows_upto(height - 1, width, f);
        let j = choose|j: int| 0 <= j < r.len() && r[j] == t;
        assert(rows_upto(height, width, f)[j] == t);
    }
}

} // verus!
