//! Counting the tiles that are still `Empty`: the measure by which assembly
//! is known to end.

use crate::grid::Tiles;
use crate::tile::TileState;
use vstd::prelude::*;

verus! {

/// How many tiles of a row are `Empty`.
pub open spec fn row_empties(row: Seq<TileState>) -> nat
    decreases row.len(),
{
    if row.len() == 0 {
        0
    } else {
        row_empties(row.drop_last()) + if row.last() == TileState::Empty {
            1nat
        } else {
            0nat
        }
    }
}

/// How many tiles of the rows are `Empty`.
pub open spec fn rows_empties(rows: Seq<Seq<TileState>>) -> nat
    decreases rows.len(),
{
    if rows.len() == 0 {
        0
    } else {
        rows_empties(rows.drop_last()) + row_empties(rows.last())
    }
}

impl Tiles {
    /// How many tiles are `Empty`.
    pub open spec fn empties(self) -> nat {
        rows_empties(self.rows)
    }
}

proof fn lemma_row_shrinks(a: Seq<TileState>, b: Seq<TileState>)
    requires
        a.len() == b.len(),
        forall|i: int| 0 <= i < a.len() && b[i] == TileState::Empty ==> a[i] == TileState::Empty,
    ensures
        row_empties(b) <= row_empties(a),
        (exists|i: int| 0 <= i < a.len() && a[i] == TileState::Empty && b[i] != TileState::Empty)
            ==> row_empties(b) < row_empties(a),
    decreases a.len(),
{
    if a.len() > 0 {
        lemma_row_shrinks(a.drop_last(), b.drop_last());
        if exists|i: int| 0 <= i < a.len() && a[i] == TileState::Empty && b[i] != TileState::Empty {
            let i = choose|i: int|
                0 <= i < a.len() && a[i] == TileState::Empty && b[i] != TileState::Empty;
            if i < a.len() - 1 {
                assert(a.drop_last()[i] == TileState::Empty && b.drop_last()[i]
                    != TileState::Empty);
            }
        }
    }
}

proof fn lemma_rows_shrink(a: Seq<Seq<TileState>>, b: Seq<Seq<TileState>>)
    requires
        a.len() == b.len(),
        forall|j: int| 0 <= j < a.len() ==> (#[trigger] a[j]).len() == b[j].len(),
        forall|j: int, i: int|
            0 <= j < a.len() && 0 <= i < a[j].len() && b[j][i] == TileState::Empty ==> a[j][i]
                == TileState::Empty,
    ensures
        rows_empties(b) <= rows_empties(a),
        (exists|j: int, i: int|
            0 <= j < a.len() && 0 <= i < a[j].len() && a[j][i] == TileState::Empty && b[j][i]
                != TileState::Empty) ==> rows_empties(b) < rows_empties(a),
    decreases a.len(),
{
    if a.len() > 0 {
        lemma_rows_shrink(a.drop_last(), b.drop_last());
        lemma_row_shrinks(a.last(), b.last());
        if exists|j: int, i: int|
            0 <= j < a.len() && 0 <= i < a[j].len() && a[j][i] == TileState::Empty && b[j][i]
                != TileState::Empty {
            let (j, i) = choose|j: int, i: int|
                0 <= j < a.len() && 0 <= i < a[j].len() && a[j][i] == TileState::Empty && b[j][i]
                    != TileState::Empty;
            if j < a.len() - 1 {
                assert(a.drop_last()[j][i] == TileState::Empty && b.drop_last()[j][i]
                    != TileState::Empty);
            } else {
                assert(a.last()[i] == TileState::Empty && b.last()[i] != TileState::Empty);
            }
        }
    }
}

/// Where no tile of `b` is `Empty` that was not `Empty` in `a`, and the tile
/// at `(x, y)` was `Empty` and is so no longer, `b` has fewer `Empty` tiles
/// than `a`.
pub proof fn lemma_empties_drop(a: Tiles, b: Tiles, x: int, y: int)
    requires
        a.wf(),
        b.wf(),
        a.same_size(b),
        forall|x: int, y: int|
            a.contains(x, y) && #[trigger] b.at(x, y) == TileState::Empty ==> a.at(x, y)
                == TileState::Empty,
        a.contains(x, y),
        a.at(x, y) == TileState::Empty,
        b.at(x, y) != TileState::Empty,
    ensures
        b.empties() < a.empties(),
{
    assert forall|j: int, i: int|
        0 <= j < a.rows.len() && 0 <= i < a.rows[j].len() && b.rows[j][i]
            == TileState::Empty implies a.rows[j][i] == TileState::Empty by {
        assert(a.contains(i, j));
        assert(b.at(i, j) == TileState::Empty);
    }
    assert(0 <= y < a.rows.len() && 0 <= x < a.rows[y].len() && a.rows[y][x] == TileState::Empty
        && b.rows[y][x] != TileState::Empty);
    lemma_rows_shrink(a.rows, b.rows);
}

} // verus!
