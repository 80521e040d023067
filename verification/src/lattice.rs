//! Ties for knots laid out in columns: each knot to the next in its
//! column, and every fourth row across to the columns beside it.

use vstd::prelude::*;
use vstd::arithmetic::div_mod::lemma_fundamental_div_mod_converse;
use crate::knot::{graph, graph_valid, positions, Knot};

verus! {

/// The rows from one cross tie to the next.
pub const CROSS_TIE_EVERY: usize = 4;

/// The knots in each column when `count` knots are laid out in `columns`
/// columns of equal length.
pub open spec fn rows_of(count: int, columns: int) -> int {
    count / columns
}

/// The ties of the knot `t` in a lattice of `columns` columns of `rows`
/// knots each, the knots numbered down the first column, then down the
/// next. In this order: the knot above it, the knot below it, and, in
/// every fourth row, the knot beside it in the next column and the one in
/// the column before.
pub open spec fn column_ties(t: int, rows: int, columns: int) -> Seq<usize> {
    let column = t / rows;
    let row = t % rows;
    let above = if row > 0 {
        seq![(t - 1) as usize]
    } else {
        Seq::<usize>::empty()
    };
    let below = if row + 1 < rows {
        seq![(t + 1) as usize]
    } else {
        Seq::<usize>::empty()
    };
    let after = if row % (CROSS_TIE_EVERY as int) == 0 && column + 1 < columns {
        seq![(t + rows) as usize]
    } else {
        Seq::<usize>::empty()
    };
    let before = if row % (CROSS_TIE_EVERY as int) == 0 && column >= 1 {
        seq![(t - rows) as usize]
    } else {
        Seq::<usize>::empty()
    };
    above + below + after + before
}

/// The graph `before` with the ties of a lattice added to its first
/// `count` knots.
pub open spec fn linked(
    before: Seq<Seq<usize>>,
    count: int,
    rows: int,
    columns: int,
) -> Seq<Seq<usize>> {
    Seq::new(
        before.len(),
        |t: int|
            if t < count {
                before[t] + column_ties(t, rows, columns)
            } else {
                before[t]
            },
    )
}

/// Every tie of a lattice leads to a knot of the lattice.
pub proof fn lemma_column_ties_in_range(t: int, rows: int, columns: int)
    requires
        0 < rows,
        0 <= t < columns * rows,
        columns * rows <= usize::MAX,
    ensures
        forall|k: int|
            0 <= k < column_ties(t, rows, columns).len() ==> (#[trigger] column_ties(
                t,
                rows,
                columns,
            )[k]) < columns * rows,
{
    let column = t / rows;
    let row = t % rows;
    assert(t == rows * column + row && 0 <= row < rows) by (nonlinear_arith)
        requires
            0 < rows,
            column == t / rows,
            row == t % rows,
    ;
    assert(0 <= column < columns) by (nonlinear_arith)
        requires
            t == rows * column + row,
            0 <= row < rows,
            0 <= t < columns * rows,
    ;
    if column + 1 < columns {
        assert(t + rows < columns * rows) by (nonlinear_arith)
            requires
                t == rows * column + row,
                row < rows,
                column + 1 < columns,
                0 < rows,
        ;
    }
    if column >= 1 {
        assert(t - rows >= 0) by (nonlinear_arith)
            requires
                t == rows * column + row,
                0 <= row,
                column >= 1,
                0 < rows,
        ;
    }
    if row + 1 < rows {
        assert(t + 1 < columns * rows) by (nonlinear_arith)
            requires
                t == rows * column + row,
                row + 1 < rows,
                column < columns,
                0 < rows,
        ;
    }
}

/// Lattice ties keep a valid graph valid.
pub proof fn lemma_linked_valid(before: Seq<Seq<usize>>, rows: int, columns: int)
    requires
        graph_valid(before),
        0 < rows,
        0 <= columns,
        columns * rows <= before.len() <= usize::MAX,
    ensures
        graph_valid(linked(before, columns * rows, rows, columns)),
{
    let after = linked(before, columns * rows, rows, columns);
    assert forall|i: int, j: int| 0 <= i < after.len() && 0 <= j < after[i].len() implies (
    #[trigger] after[i][j]) < after.len() by {
        if i < columns * rows {
            lemma_column_ties_in_range(i, rows, columns);
            if j < before[i].len() {
                assert(after[i][j] == before[i][j]);
            } else {
                assert(after[i][j] == column_ties(i, rows, columns)[j - before[i].len()]);
            }
        } else {
            assert(after[i][j] == before[i][j]);
        }
    }
}

/// Ties `knots` into a lattice of `columns` columns. The knots are taken
/// in index order, as many to a column as all columns can have; those left
/// over get no ties. The ties are added after those a knot has.
pub fn link_columns(knots: &mut Vec<Knot>, columns: usize)
    requires
        columns > 0,
        rows_of(old(knots).len() as int, columns as int) >= 2,
    ensures
        final(knots).len() == old(knots).len(),
        positions(final(knots)@) == positions(old(knots)@),
        graph(final(knots)@) == linked(
            graph(old(knots)@),
            columns * rows_of(old(knots).len() as int, columns as int),
            rows_of(old(knots).len() as int, columns as int),
            columns as int,
        ),
        graph_valid(graph(old(knots)@)) ==> graph_valid(graph(final(knots)@)),
{
    let ghost pos0 = positions(knots@);
    let ghost graph0 = graph(knots@);
    let n: usize = knots.len();
    let rows: usize = n / columns;
    assert(columns * rows <= n) by (nonlinear_arith)
        requires
            rows == n / columns,
            columns > 0,
    ;
    let mut column: usize = 0;
    let mut t: usize = 0;
    while column < columns
        invariant
            column <= columns,
            rows >= 2,
            knots.len() == n,
            graph0.len() == n,
            columns * rows <= n,
            t == column * rows,
            positions(knots@) == pos0,
            graph(knots@) == linked(graph0, t as int, rows as int, columns as int),
        decreases columns - column,
    {
        let mut row: usize = 0;
        while row < rows
            invariant
                row <= rows,
                column < columns,
                rows >= 2,
                knots.len() == n,
                graph0.len() == n,
                columns * rows <= n,
                t == column * rows + row,
                positions(knots@) == pos0,
                graph(knots@) == linked(graph0, t as int, rows as int, columns as int),
            decreases rows - row,
        {
            proof {
                lemma_fundamental_div_mod_converse(
                    t as int,
                    rows as int,
                    column as int,
                    row as int,
                );
                assert(t < columns * rows) by (nonlinear_arith)
                    requires
                        t == column * rows + row,
                        row < rows,
                        column < columns,
                ;
                if column + 1 < columns {
                    assert(t + rows < columns * rows) by (nonlinear_arith)
                        requires
                            t == column * rows + row,
                            row < rows,
                            column + 1 < columns,
                    ;
                }
                if column >= 1 {
                    assert(t >= rows) by (nonlinear_arith)
                        requires
                            t == column * rows + row,
                            column >= 1,
                    ;
                }
            }
            let ghost reached = graph(knots@);
            if row > 0 {
                knots[t].add_neighbour(t - 1);
            }
            if row + 1 < rows {
                knots[t].add_neighbour(t + 1);
            }
            if row % CROSS_TIE_EVERY == 0 {
                if column + 1 < columns {
                    knots[t].add_neighbour(t + rows);
                }
                if column >= 1 {
                    knots[t].add_neighbour(t - rows);
                }
            }
            proof {
                assert(reached[t as int] == graph0[t as int]);
                assert(graph(knots@)[t as int] =~= graph0[t as int] + column_ties(
                    t as int,
                    rows as int,
                    columns as int,
                ));
                assert forall|u: int| 0 <= u < n implies graph(knots@)[u] == linked(
                    graph0,
                    t + 1,
                    rows as int,
                    columns as int,
                )[u] by {
                    if u != t {
                        assert(graph(knots@)[u] == reached[u]);
                    }
                }
                assert(graph(knots@) =~= linked(graph0, t + 1, rows as int, columns as int));
                assert(positions(knots@) =~= pos0);
            }
            row += 1;
            t += 1;
        }
        assert((column + 1) * rows == column * rows + rows) by (nonlinear_arith);
        column += 1;
    }
    proof {
        if graph_valid(graph0) {
            lemma_linked_valid(graph0, rows as int, columns as int);
        }
    }
}

} // verus!
