//! Cell coordinates of a square grid, and how many of them there are.

use vstd::arithmetic::div_mod::{lemma_fundamental_div_mod, lemma_fundamental_div_mod_converse};
use vstd::prelude::*;
use vstd::seq_lib::*;
use vstd::set_lib::*;

verus! {

/// Whether `p` names a cell of a grid of side `size`.
pub open spec fn on_grid(p: (usize, usize), size: nat) -> bool {
    p.0 < size && p.1 < size
}

/// The cells `(x, y)` with `x < rows` and `y < cols`.
pub open spec fn block(rows: nat, cols: nat) -> Set<(usize, usize)> {
    Set::new(|p: (usize, usize)| p.0 < rows && p.1 < cols)
}

/// All cells of a grid of side `size`.
pub open spec fn all_cells(size: nat) -> Set<(usize, usize)> {
    block(size, size)
}

/// The first `cols` cells of row `x`.
pub open spec fn row_cells(x: usize, cols: nat) -> Set<(usize, usize)> {
    Set::new(|p: (usize, usize)| p.0 == x && p.1 < cols)
}

/// A row of `cols` cells is finite and has `cols` elements.
pub proof fn lemma_row_cells(x: usize, cols: nat)
    requires
        cols <= usize::MAX,
    ensures
        row_cells(x, cols).finite(),
        row_cells(x, cols).len() == cols,
    decreases cols,
{
    if cols == 0 {
        assert(row_cells(x, cols) =~= Set::empty());
    } else {
        let shorter = (cols - 1) as nat;
        lemma_row_cells(x, shorter);
        assert(row_cells(x, cols) =~= row_cells(x, shorter).insert((x, shorter as usize)));
    }
}

/// A block of `rows` by `cols` cells is finite and has `rows * cols` elements.
pub proof fn lemma_block(rows: nat, cols: nat)
    requires
        rows <= usize::MAX,
        cols <= usize::MAX,
    ensures
        block(rows, cols).finite(),
        block(rows, cols).len() == rows * cols,
    decreases rows,
{
    if rows == 0 {
        assert(block(rows, cols) =~= Set::empty());
        assert(rows * cols == 0) by (nonlinear_arith)
            requires
                rows == 0,
        ;
    } else {
        let fewer = (rows - 1) as nat;
        lemma_block(fewer, cols);
        lemma_row_cells(fewer as usize, cols);
        let upper = block(fewer, cols);
        let last = row_cells(fewer as usize, cols);
        assert(upper.disjoint(last));
        assert(block(rows, cols) =~= upper + last);
        lemma_set_disjoint_lens(upper, last);
        assert(rows * cols == fewer * cols + cols) by (nonlinear_arith)
            requires
                rows == fewer + 1,
        ;
    }
}

/// A grid of side `size` has `size * size` cells.
pub proof fn lemma_all_cells(size: nat)
    requires
        size <= usize::MAX,
    ensures
        all_cells(size).finite(),
        all_cells(size).len() == size * size,
{
    lemma_block(size, size);
}

/// A set of grid cells is finite and no larger than the grid.
pub proof fn lemma_cells_bounded(cells: Set<(usize, usize)>, size: nat)
    requires
        size <= usize::MAX,
        forall|p: (usize, usize)| cells.contains(p) ==> on_grid(p, size),
    ensures
        cells.finite(),
        cells.len() <= size * size,
{
    lemma_all_cells(size);
    assert(cells.subset_of(all_cells(size)));
    lemma_len_subset(cells, all_cells(size));
}

/// The cells of a grid of side `size`, ordered by their first coordinate and
/// then by their second.
pub open spec fn cells_in_order(size: nat) -> Seq<(usize, usize)> {
    Seq::new(size * size, |k: int| ((k / (size as int)) as usize, (k % (size as int)) as usize))
}

/// Where the cell `(x, y)` stands in `cells_in_order`.
pub proof fn lemma_place_in_order(x: nat, y: nat, size: nat)
    requires
        x < size,
        y < size,
    ensures
        x * size + y < size * size,
        (x * size + y) as int / (size as int) == x,
        (x * size + y) as int % (size as int) == y,
{
    assert(x * size + y < size * size) by (nonlinear_arith)
        requires
            x < size,
            y < size,
    ;
    lemma_fundamental_div_mod_converse((x * size + y) as int, size as int, x as int, y as int);
}

/// `cells_in_order` lists cells of the grid, and none of them twice.
pub proof fn lemma_cells_in_order(size: nat)
    requires
        size <= usize::MAX,
    ensures
        cells_in_order(size).len() == size * size,
        cells_in_order(size).no_duplicates(),
        forall|k: int|
            0 <= k < size * size ==> on_grid(#[trigger] cells_in_order(size)[k], size),
{
    let cells = cells_in_order(size);
    assert forall|k: int| 0 <= k < size * size implies on_grid(#[trigger] cells[k], size) by {
        lemma_cell_of_place(k, size);
    }
    assert forall|i: int, j: int|
        0 <= i < cells.len() && 0 <= j < cells.len() && i != j implies cells[i] != cells[j] by {
        lemma_cell_of_place(i, size);
        lemma_cell_of_place(j, size);
        lemma_fundamental_div_mod(i, size as int);
        lemma_fundamental_div_mod(j, size as int);
    }
}

/// The coordinates of the cell at place `k` lie on the grid.
proof fn lemma_cell_of_place(k: int, size: nat)
    requires
        0 <= k < size * size,
    ensures
        0 <= k / (size as int) < size,
        0 <= k % (size as int) < size,
{
    assert(size > 0) by (nonlinear_arith)
        requires
            0 <= k < size * size,
    ;
    lemma_fundamental_div_mod(k, size as int);
    let q = k / (size as int);
    let r = k % (size as int);
    assert(0 <= r < size);
    assert(0 <= q < size) by (nonlinear_arith)
        requires
            k == size * q + r,
            0 <= r < size,
            0 <= k < size * size,
    ;
}

/// A reordering of a sequence without duplicates has no duplicates either,
/// and holds the same elements.
pub proof fn lemma_reordered<A>(before: Seq<A>, after: Seq<A>)
    requires
        before.to_multiset() == after.to_multiset(),
        before.no_duplicates(),
    ensures
        after.no_duplicates(),
        after.len() == before.len(),
        forall|a: A| before.contains(a) <==> after.contains(a),
{
    broadcast use group_to_multiset_ensures;

    before.lemma_multiset_has_no_duplicates();
    after.lemma_multiset_has_no_duplicates_conv();
    assert(before.len() == before.to_multiset().len());
    assert(after.len() == after.to_multiset().len());
    assert forall|a: A| before.contains(a) <==> after.contains(a) by {
        assert(before.contains(a) <==> before.to_multiset().count(a) > 0);
        assert(after.contains(a) <==> after.to_multiset().count(a) > 0);
    }
}

} // verus!
