//! The settled rows at the bottom of the play area: the model, its
//! executable helpers, and the lemmas the game state machine builds on.
//!
//! Rows are stored bottom-up: entry `i` of the row list holds the occupied
//! columns of grid row `start - i - 1`, where `start` is the grid row of
//! the floor (one below the lowest playable row). The list grows with empty
//! rows on demand, so its length never exceeds `start`.

use vstd::prelude::*;
use crate::geometry::Position;

verus! {

/// The columns of a stored row list, as mathematical sequences.
pub open spec fn rows_view(v: Vec<Vec<u8>>) -> Seq<Seq<u8>> {
    v@.map_values(|r: Vec<u8>| r@)
}

/// Whether a row holds column `x`.
pub open spec fn row_has(row: Seq<u8>, x: int) -> bool {
    exists|k: int| 0 <= k < row.len() && row[k] as int == x
}

/// Whether the stash occupies the grid cell `(x, y)`.
pub open spec fn occupied(rows: Seq<Seq<u8>>, start: int, x: int, y: int) -> bool {
    let i = start - y - 1;
    0 <= i < rows.len() && row_has(rows[i], x)
}

/// The grid row of the first obstruction in column `x` at or below grid row
/// `y`: the least `y' >= y` with `(x, y')` occupied, or the floor `start`
/// if the column is free all the way down.
pub open spec fn obstruction(rows: Seq<Seq<u8>>, start: int, x: int, y: int) -> int
    decreases start - y,
{
    if y >= start {
        start
    } else if occupied(rows, start, x, y) {
        y
    } else {
        obstruction(rows, start, x, y + 1)
    }
}

/// The vertical gap between a cell and the first obstruction below it.
pub open spec fn gap(rows: Seq<Seq<u8>>, start: int, x: int, y: int) -> int {
    obstruction(rows, start, x, y) - y
}

/// The least gap over a piece's cells: 0 exactly when some cell already
/// touches the stash or the floor.
pub open spec fn distance_of(rows: Seq<Seq<u8>>, start: int, cells: Seq<(int, int)>) -> int
    recommends
        cells.len() > 0,
    decreases cells.len(),
{
    if cells.len() <= 1 {
        gap(rows, start, cells[0].0, cells[0].1)
    } else {
        let rest = distance_of(rows, start, cells.drop_last());
        let g = gap(rows, start, cells.last().0, cells.last().1);
        if g < rest {
            g
        } else {
            rest
        }
    }
}

/// The row list extended with empty rows until it has at least `n` entries.
pub open spec fn pad_to(rows: Seq<Seq<u8>>, n: int) -> Seq<Seq<u8>> {
    if rows.len() >= n {
        rows
    } else {
        rows + Seq::new((n - rows.len()) as nat, |i: int| Seq::<u8>::empty())
    }
}

/// The row list after inserting column `x` into the row of grid row `y`.
pub open spec fn with_cell(rows: Seq<Seq<u8>>, start: int, x: int, y: int) -> Seq<Seq<u8>> {
    let p = pad_to(rows, start - y);
    p.update(start - y - 1, p[start - y - 1].push(x as u8))
}

/// The row list after inserting every cell of a piece, in order.
pub open spec fn with_cells(rows: Seq<Seq<u8>>, start: int, cells: Seq<(int, int)>) -> Seq<
    Seq<u8>,
>
    decreases cells.len(),
{
    if cells.len() == 0 {
        rows
    } else {
        with_cell(
            with_cells(rows, start, cells.drop_last()),
            start,
            cells.last().0,
            cells.last().1,
        )
    }
}

/// The row list with every row of full width (or more) removed; the rows
/// above slide down by the number removed.
pub open spec fn cleared(rows: Seq<Seq<u8>>, width: int) -> Seq<Seq<u8>> {
    rows.filter(|row: Seq<u8>| row.len() < width)
}

/// How many rows have reached the full width.
pub open spec fn full_rows(rows: Seq<Seq<u8>>, width: int) -> int
    decreases rows.len(),
{
    if rows.len() == 0 {
        0
    } else {
        full_rows(rows.drop_last(), width) + if rows.last().len() >= width {
            1int
        } else {
            0int
        }
    }
}

/// No stored row has reached the full width.
pub open spec fn no_full(rows: Seq<Seq<u8>>, width: int) -> bool {
    forall|i: int| 0 <= i < rows.len() ==> (#[trigger] rows[i]).len() < width
}

/// A single row is consistent: all columns below `width`, no duplicates.
pub open spec fn row_ok(row: Seq<u8>, width: int) -> bool {
    &&& forall|k: int| 0 <= k < row.len() ==> (#[trigger] row[k]) < width
    &&& forall|k: int, l: int| 0 <= k < l < row.len() ==> #[trigger] row[k] != #[trigger] row[l]
}

/// Every stored row is consistent.
pub open spec fn rows_ok(rows: Seq<Seq<u8>>, width: int) -> bool {
    forall|i: int| 0 <= i < rows.len() ==> row_ok(#[trigger] rows[i], width)
}

/// All stored cells as positions, bottom row first.
pub open spec fn stash_positions(rows: Seq<Seq<u8>>, start: int) -> Seq<Position>
    decreases rows.len(),
{
    if rows.len() == 0 {
        Seq::empty()
    } else {
        stash_positions(rows.drop_last(), start) + row_positions(
            rows.last(),
            start - rows.len(),
        )
    }
}

/// One stored row as positions at grid row `y`.
pub open spec fn row_positions(row: Seq<u8>, y: int) -> Seq<Position> {
    row.map_values(|c: u8| Position { x: c, y: y as u8 })
}

/// Pushing a column onto a row occupies exactly that column in addition.
pub proof fn lemma_row_has_push(row: Seq<u8>, x: u8, a: int)
    ensures
        row_has(row.push(x), a) <==> (row_has(row, a) || a == x as int),
{
    if row_has(row.push(x), a) {
        let k = choose|k: int| 0 <= k < row.push(x).len() && row.push(x)[k] as int == a;
        if k < row.len() {
            assert(row[k] as int == a);
        }
    }
    if row_has(row, a) {
        let k = choose|k: int| 0 <= k < row.len() && row[k] as int == a;
        assert(row.push(x)[k] as int == a);
    }
    if a == x as int {
        assert(row.push(x)[row.len() as int] as int == a);
    }
}

/// Padding with empty rows occupies nothing new.
pub proof fn lemma_pad_occupied(rows: Seq<Seq<u8>>, n: int, start: int, a: int, b: int)
    ensures
        occupied(pad_to(rows, n), start, a, b) <==> occupied(rows, start, a, b),
{
    let p = pad_to(rows, n);
    let i = start - b - 1;
    if rows.len() < n && 0 <= i < p.len() && i >= rows.len() {
        assert(p[i] =~= Seq::<u8>::empty());
        assert(!row_has(p[i], a));
    }
}

/// What one insertion occupies: everything it did before, plus the new cell.
pub proof fn lemma_with_cell_occupied(
    rows: Seq<Seq<u8>>,
    start: int,
    x: int,
    y: int,
    a: int,
    b: int,
)
    requires
        0 <= y < start,
        0 <= x <= u8::MAX,
    ensures
        occupied(with_cell(rows, start, x, y), start, a, b) <==> (occupied(rows, start, a, b) || (
        a == x && b == y)),
{
    let p = pad_to(rows, start - y);
    let i0 = start - y - 1;
    assert(p.len() >= start - y);
    let res = with_cell(rows, start, x, y);
    lemma_pad_occupied(rows, start - y, start, a, b);
    let ib = start - b - 1;
    if ib == i0 {
        lemma_row_has_push(p[i0], x as u8, a);
        assert(x as u8 as int == x);
    } else {
        if 0 <= ib < res.len() {
            assert(res[ib] == p[ib]);
        }
    }
}

/// Length facts for one insertion.
pub proof fn lemma_with_cell_len(rows: Seq<Seq<u8>>, start: int, x: int, y: int)
    requires
        0 <= y < start,
    ensures
        with_cell(rows, start, x, y).len() == if rows.len() >= start - y {
            rows.len() as int
        } else {
            start - y
        },
        rows.len() <= start ==> with_cell(rows, start, x, y).len() <= start,
{
}

/// Landing a piece never grows the row list past the floor.
pub proof fn lemma_with_cells_len(rows: Seq<Seq<u8>>, start: int, cells: Seq<(int, int)>)
    requires
        rows.len() <= start,
        forall|j: int| 0 <= j < cells.len() ==> 0 <= (#[trigger] cells[j]).1 < start,
    ensures
        with_cells(rows, start, cells).len() <= start,
    decreases cells.len(),
{
    if cells.len() > 0 {
        let rest = cells.drop_last();
        assert forall|j: int| 0 <= j < rest.len() implies 0 <= (#[trigger] rest[j]).1 < start by {
            assert(rest[j] == cells[j]);
        }
        lemma_with_cells_len(rows, start, rest);
        assert(0 <= cells[cells.len() - 1].1 < start);
        lemma_with_cell_len(with_cells(rows, start, rest), start, cells.last().0, cells.last().1);
    }
}

/// The first obstruction lies between the queried row and the floor.
pub proof fn lemma_obstruction_range(rows: Seq<Seq<u8>>, start: int, x: int, y: int)
    requires
        y <= start,
    ensures
        y <= obstruction(rows, start, x, y) <= start,
    decreases start - y,
{
    if y < start && !occupied(rows, start, x, y) {
        lemma_obstruction_range(rows, start, x, y + 1);
    }
}

/// Scanning may start below a stretch of free cells: the first obstruction
/// at or below `y` equals the one at or below `m` when column `x` is free
/// on `y..m`.
pub proof fn lemma_obstruction_skip(rows: Seq<Seq<u8>>, start: int, x: int, y: int, m: int)
    requires
        y <= m <= start,
        forall|q: int| y <= q < m ==> !occupied(rows, start, x, q),
    ensures
        obstruction(rows, start, x, y) == obstruction(rows, start, x, m),
    decreases m - y,
{
    if y < m {
        lemma_obstruction_skip(rows, start, x, y + 1, m);
    }
}

/// A cell has gap zero exactly when it is occupied or rests on the floor.
pub proof fn lemma_gap_zero(rows: Seq<Seq<u8>>, start: int, x: int, y: int)
    requires
        y <= start,
    ensures
        gap(rows, start, x, y) == 0 <==> (occupied(rows, start, x, y) || y == start),
{
    lemma_obstruction_range(rows, start, x, y);
    if y < start && !occupied(rows, start, x, y) {
        lemma_obstruction_range(rows, start, x, y + 1);
        assert(obstruction(rows, start, x, y) == obstruction(rows, start, x, y + 1));
    }
}

/// The distance of a piece is a lower bound on each cell's gap and is the
/// gap of some cell.
pub proof fn lemma_distance_of(rows: Seq<Seq<u8>>, start: int, cells: Seq<(int, int)>)
    requires
        cells.len() > 0,
    ensures
        forall|j: int|
            0 <= j < cells.len() ==> distance_of(rows, start, cells) <= gap(
                rows,
                start,
                (#[trigger] cells[j]).0,
                cells[j].1,
            ),
        exists|j: int|
            0 <= j < cells.len() && gap(rows, start, (#[trigger] cells[j]).0, cells[j].1)
                == distance_of(rows, start, cells),
    decreases cells.len(),
{
    if cells.len() == 1 {
        assert(gap(rows, start, cells[0].0, cells[0].1) == distance_of(rows, start, cells));
    } else {
        let rest = cells.drop_last();
        lemma_distance_of(rows, start, rest);
        assert forall|j: int|
            0 <= j < cells.len() implies distance_of(rows, start, cells) <= gap(
            rows,
            start,
            (#[trigger] cells[j]).0,
            cells[j].1,
        ) by {
            if j < cells.len() - 1 {
                assert(rest[j] == cells[j]);
            }
        }
        let g = gap(rows, start, cells.last().0, cells.last().1);
        if g < distance_of(rows, start, rest) {
            assert(gap(rows, start, cells[cells.len() - 1].0, cells[cells.len() - 1].1)
                == distance_of(rows, start, cells));
        } else {
            let k = choose|j: int|
                0 <= j < rest.len() && gap(rows, start, (#[trigger] rest[j]).0, rest[j].1)
                    == distance_of(rows, start, rest);
            assert(gap(rows, start, cells[k].0, cells[k].1) == distance_of(rows, start, cells));
        }
    }
}

/// Below the first obstruction, moving a cell down one row shrinks its gap
/// by exactly one.
pub proof fn lemma_gap_down(rows: Seq<Seq<u8>>, start: int, x: int, y: int)
    requires
        y <= start,
        gap(rows, start, x, y) >= 1,
    ensures
        gap(rows, start, x, y + 1) == gap(rows, start, x, y) - 1,
{
    lemma_obstruction_range(rows, start, x, y);
    lemma_gap_zero(rows, start, x, y);
    assert(y < start && !occupied(rows, start, x, y));
    assert(obstruction(rows, start, x, y) == obstruction(rows, start, x, y + 1));
}

/// Moving every cell of a piece down one row, while each cell still hangs
/// strictly above its obstruction, shrinks the piece's distance by exactly
/// one.
pub proof fn lemma_distance_shift(
    rows: Seq<Seq<u8>>,
    start: int,
    cells: Seq<(int, int)>,
    shifted: Seq<(int, int)>,
)
    requires
        cells.len() > 0,
        shifted.len() == cells.len(),
        forall|j: int| 0 <= j < cells.len() ==> #[trigger] shifted[j] == ((#[trigger] cells[j]).0, cells[j].1 + 1),
        forall|j: int| 0 <= j < cells.len() ==> (#[trigger] cells[j]).1 <= start,
        forall|j: int|
            0 <= j < cells.len() ==> gap(rows, start, (#[trigger] cells[j]).0, cells[j].1) >= 1,
    ensures
        distance_of(rows, start, shifted) == distance_of(rows, start, cells) - 1,
{
    lemma_distance_of(rows, start, cells);
    lemma_distance_of(rows, start, shifted);
    assert forall|j: int| 0 <= j < cells.len() implies gap(
        rows,
        start,
        (#[trigger] shifted[j]).0,
        shifted[j].1,
    ) == gap(rows, start, cells[j].0, cells[j].1) - 1 by {
        lemma_gap_down(rows, start, cells[j].0, cells[j].1);
    }
    let ja = choose|j: int|
        0 <= j < cells.len() && gap(rows, start, (#[trigger] cells[j]).0, cells[j].1)
            == distance_of(rows, start, cells);
    let jb = choose|j: int|
        0 <= j < shifted.len() && gap(rows, start, (#[trigger] shifted[j]).0, shifted[j].1)
            == distance_of(rows, start, shifted);
    assert(distance_of(rows, start, shifted) <= gap(rows, start, shifted[ja].0, shifted[ja].1));
    assert(distance_of(rows, start, cells) <= gap(rows, start, cells[jb].0, cells[jb].1));
}

/// Whether some cell of a piece is already occupied by the stash or sits
/// on the floor.
pub open spec fn overlaps(rows: Seq<Seq<u8>>, start: int, cells: Seq<(int, int)>) -> bool {
    exists|j: int|
        0 <= j < cells.len() && (occupied(rows, start, (#[trigger] cells[j]).0, cells[j].1)
            || cells[j].1 == start)
}

/// Landing test: a piece's distance is zero exactly when one of its cells
/// is already occupied by the stash or sits on the floor.
pub proof fn lemma_distance_zero(rows: Seq<Seq<u8>>, start: int, cells: Seq<(int, int)>)
    requires
        cells.len() > 0,
        forall|j: int| 0 <= j < cells.len() ==> (#[trigger] cells[j]).1 <= start,
    ensures
        distance_of(rows, start, cells) == 0 <==> overlaps(rows, start, cells),
{
    lemma_distance_of(rows, start, cells);
    assert forall|j: int| 0 <= j < cells.len() implies gap(
        rows,
        start,
        (#[trigger] cells[j]).0,
        cells[j].1,
    ) >= 0 by {
        lemma_obstruction_range(rows, start, cells[j].0, cells[j].1);
    }
    if distance_of(rows, start, cells) == 0 {
        let k = choose|j: int|
            0 <= j < cells.len() && gap(rows, start, (#[trigger] cells[j]).0, cells[j].1)
                == distance_of(rows, start, cells);
        lemma_gap_zero(rows, start, cells[k].0, cells[k].1);
    }
    if exists|j: int|
        0 <= j < cells.len() && (occupied(rows, start, (#[trigger] cells[j]).0, cells[j].1)
            || cells[j].1 == start) {
        let k = choose|j: int|
            0 <= j < cells.len() && (occupied(rows, start, (#[trigger] cells[j]).0, cells[j].1)
                || cells[j].1 == start);
        lemma_gap_zero(rows, start, cells[k].0, cells[k].1);
    }
}

/// Appending one row changes the full-row count by that row's own status.
pub proof fn lemma_full_rows_push(rows: Seq<Seq<u8>>, row: Seq<u8>, width: int)
    ensures
        full_rows(rows.push(row), width) == full_rows(rows, width) + if row.len() >= width {
            1int
        } else {
            0int
        },
{
    assert(rows.push(row).drop_last() =~= rows);
}

/// The full-row count is never negative.
pub proof fn lemma_full_rows_nonneg(rows: Seq<Seq<u8>>, width: int)
    ensures
        full_rows(rows, width) >= 0,
    decreases rows.len(),
{
    if rows.len() > 0 {
        lemma_full_rows_nonneg(rows.drop_last(), width);
    }
}

/// With no full row stored, the full-row count is zero.
pub proof fn lemma_full_rows_none(rows: Seq<Seq<u8>>, width: int)
    requires
        no_full(rows, width),
    ensures
        full_rows(rows, width) == 0,
    decreases rows.len(),
{
    if rows.len() > 0 {
        assert(rows[rows.len() - 1].len() < width);
        assert forall|i: int| 0 <= i < rows.drop_last().len() implies (#[trigger] rows.drop_last()[i]).len()
            < width by {
            assert(rows.drop_last()[i] == rows[i]);
        }
        lemma_full_rows_none(rows.drop_last(), width);
    }
}

/// Padding with empty rows leaves the full-row count unchanged.
pub proof fn lemma_full_rows_pad(rows: Seq<Seq<u8>>, n: int, width: int)
    requires
        width >= 1,
    ensures
        full_rows(pad_to(rows, n), width) == full_rows(rows, width),
    decreases n - rows.len(),
{
    if rows.len() < n {
        let shorter = pad_to(rows, n - 1);
        assert(pad_to(rows, n) =~= shorter.push(Seq::<u8>::empty()));
        lemma_full_rows_push(shorter, Seq::<u8>::empty(), width);
        lemma_full_rows_pad(rows, n - 1, width);
    }
}

/// Pushing one column onto one row raises the full-row count by at most
/// one, and never lowers it.
pub proof fn lemma_full_rows_update(p: Seq<Seq<u8>>, i0: int, x: u8, width: int)
    requires
        0 <= i0 < p.len(),
    ensures
        full_rows(p, width) <= full_rows(p.update(i0, p[i0].push(x)), width) <= full_rows(
            p,
            width,
        ) + 1,
    decreases p.len(),
{
    let res = p.update(i0, p[i0].push(x));
    if i0 == p.len() - 1 {
        assert(res.drop_last() =~= p.drop_last());
        assert(res.last() == p[i0].push(x));
    } else {
        assert(res.drop_last() =~= p.drop_last().update(i0, p.drop_last()[i0].push(x)));
        assert(res.last() == p.last());
        lemma_full_rows_update(p.drop_last(), i0, x, width);
    }
}

/// One insertion raises the full-row count by at most one.
pub proof fn lemma_full_rows_with_cell(rows: Seq<Seq<u8>>, start: int, x: int, y: int, width: int)
    requires
        0 <= y < start,
        width >= 1,
    ensures
        full_rows(rows, width) <= full_rows(with_cell(rows, start, x, y), width) <= full_rows(
            rows,
            width,
        ) + 1,
{
    let p = pad_to(rows, start - y);
    lemma_full_rows_pad(rows, start - y, width);
    lemma_full_rows_update(p, start - y - 1, x as u8, width);
}

/// Landing a piece raises the full-row count by at most the number of its
/// cells.
pub proof fn lemma_full_rows_with_cells(
    rows: Seq<Seq<u8>>,
    start: int,
    cells: Seq<(int, int)>,
    width: int,
)
    requires
        width >= 1,
        forall|j: int| 0 <= j < cells.len() ==> 0 <= (#[trigger] cells[j]).1 < start,
    ensures
        full_rows(rows, width) <= full_rows(with_cells(rows, start, cells), width) <= full_rows(
            rows,
            width,
        ) + cells.len(),
    decreases cells.len(),
{
    if cells.len() > 0 {
        let rest = cells.drop_last();
        assert forall|j: int| 0 <= j < rest.len() implies 0 <= (#[trigger] rest[j]).1 < start by {
            assert(rest[j] == cells[j]);
        }
        lemma_full_rows_with_cells(rows, start, rest, width);
        assert(0 <= cells[cells.len() - 1].1 < start);
        lemma_full_rows_with_cell(
            with_cells(rows, start, rest),
            start,
            cells.last().0,
            cells.last().1,
            width,
        );
    }
}

/// The kept rows and the full rows partition the list.
pub proof fn lemma_full_rows_partition(rows: Seq<Seq<u8>>, width: int)
    ensures
        cleared(rows, width).len() + full_rows(rows, width) == rows.len(),
    decreases rows.len(),
{
    reveal(Seq::filter);
    if rows.len() > 0 {
        lemma_full_rows_partition(rows.drop_last(), width);
    }
}

/// After a clear, no stored row has full width.
pub proof fn lemma_cleared_no_full(rows: Seq<Seq<u8>>, width: int)
    ensures
        no_full(cleared(rows, width), width),
{
    let out = cleared(rows, width);
    assert forall|i: int| 0 <= i < out.len() implies (#[trigger] out[i]).len() < width by {
        rows.lemma_filter_pred(|row: Seq<u8>| row.len() < width, i);
    }
}

/// A clear keeps only rows that were already stored, so row consistency
/// survives it.
pub proof fn lemma_cleared_rows_ok(rows: Seq<Seq<u8>>, width: int)
    requires
        rows_ok(rows, width),
    ensures
        rows_ok(cleared(rows, width), width),
{
    let pred = |row: Seq<u8>| row.len() < width;
    let out = cleared(rows, width);
    assert forall|i: int| 0 <= i < out.len() implies row_ok(#[trigger] out[i], width) by {
        assert(out.contains(out[i]));
        rows.lemma_filter_contains_rev(pred, out[i]);
        let j = choose|j: int| 0 <= j < rows.len() && rows[j] == out[i];
        assert(row_ok(rows[j], width));
    }
}

/// One insertion of a fresh, in-range column keeps every row consistent.
pub proof fn lemma_rows_ok_with_cell(rows: Seq<Seq<u8>>, start: int, x: int, y: int, width: int)
    requires
        rows_ok(rows, width),
        0 <= y < start,
        0 <= x < width,
        x <= u8::MAX,
        !occupied(rows, start, x, y),
    ensures
        rows_ok(with_cell(rows, start, x, y), width),
{
    let p = pad_to(rows, start - y);
    let i0 = start - y - 1;
    let res = with_cell(rows, start, x, y);
    assert forall|i: int| 0 <= i < p.len() implies row_ok(#[trigger] p[i], width) by {
        if i >= rows.len() {
            assert(p[i] =~= Seq::<u8>::empty());
        }
    }
    assert forall|i: int| 0 <= i < res.len() implies row_ok(#[trigger] res[i], width) by {
        if i == i0 {
            let old_row = p[i0];
            let new_row = old_row.push(x as u8);
            assert(!row_has(rows[i0], x) || i0 >= rows.len());
            assert(!row_has(old_row, x)) by {
                if i0 < rows.len() {
                    assert(old_row == rows[i0]);
                } else {
                    assert(old_row =~= Seq::<u8>::empty());
                }
            }
            assert forall|k: int, l: int| 0 <= k < l < new_row.len() implies #[trigger] new_row[k]
                != #[trigger] new_row[l] by {
                if l == new_row.len() - 1 {
                    assert(new_row[k] == old_row[k]);
                    if new_row[k] == x as u8 {
                        assert(old_row[k] as int == x);
                        assert(row_has(old_row, x));
                    }
                }
            }
            assert(row_ok(res[i], width));
        } else {
            assert(res[i] == p[i]);
        }
    }
}

/// Landing a whole piece of fresh, pairwise distinct, in-range cells keeps
/// every row consistent, and occupies exactly the old cells plus the
/// piece's cells.
pub proof fn lemma_with_cells_ok(
    rows: Seq<Seq<u8>>,
    start: int,
    cells: Seq<(int, int)>,
    width: int,
)
    requires
        rows_ok(rows, width),
        rows.len() <= start,
        forall|j: int|
            0 <= j < cells.len() ==> {
                &&& 0 <= (#[trigger] cells[j]).0 < width
                &&& cells[j].0 <= u8::MAX
                &&& 0 <= cells[j].1 < start
                &&& !occupied(rows, start, cells[j].0, cells[j].1)
            },
        forall|j: int, l: int| 0 <= j < l < cells.len() ==> #[trigger] cells[j] != #[trigger] cells[l],
    ensures
        rows_ok(with_cells(rows, start, cells), width),
        with_cells(rows, start, cells).len() <= start,
        forall|a: int, b: int|
            occupied(with_cells(rows, start, cells), start, a, b) <==> (occupied(
                rows,
                start,
                a,
                b,
            ) || cells.contains((a, b))),
    decreases cells.len(),
{
    if cells.len() == 0 {
        assert(forall|a: int, b: int| !cells.contains((a, b)));
    } else {
        let rest = cells.drop_last();
        let last = cells.last();
        assert forall|j: int, l: int| 0 <= j < l < rest.len() implies #[trigger] rest[j]
            != #[trigger] rest[l] by {
            assert(rest[j] == cells[j] && rest[l] == cells[l]);
        }
        assert forall|j: int|
            0 <= j < rest.len() implies {
            &&& 0 <= (#[trigger] rest[j]).0 < width
            &&& rest[j].0 <= u8::MAX
            &&& 0 <= rest[j].1 < start
            &&& !occupied(rows, start, rest[j].0, rest[j].1)
        } by {
            assert(rest[j] == cells[j]);
        }
        lemma_with_cells_ok(rows, start, rest, width);
        let mid = with_cells(rows, start, rest);
        assert(!occupied(rows, start, last.0, last.1));
        assert(!rest.contains((last.0, last.1))) by {
            if rest.contains((last.0, last.1)) {
                let j = choose|j: int| 0 <= j < rest.len() && rest[j] == (last.0, last.1);
                assert(cells[j] == cells[cells.len() - 1]);
            }
        }
        assert(last == (last.0, last.1));
        assert(!occupied(mid, start, last.0, last.1));
        lemma_rows_ok_with_cell(mid, start, last.0, last.1, width);
        lemma_with_cell_len(mid, start, last.0, last.1);
        assert forall|a: int, b: int|
            occupied(with_cells(rows, start, cells), start, a, b) <==> (occupied(
                rows,
                start,
                a,
                b,
            ) || cells.contains((a, b))) by {
            lemma_with_cell_occupied(mid, start, last.0, last.1, a, b);
            if occupied(rows, start, a, b) || cells.contains((a, b)) {
                if cells.contains((a, b)) {
                    let j = choose|j: int| 0 <= j < cells.len() && cells[j] == (a, b);
                    if j < cells.len() - 1 {
                        assert(rest[j] == (a, b));
                        assert(rest.contains((a, b)));
                    }
                }
            } else {
                if rest.contains((a, b)) {
                    let j = choose|j: int| 0 <= j < rest.len() && rest[j] == (a, b);
                    assert(cells[j] == (a, b));
                    assert(cells.contains((a, b)));
                }
            }
        }
    }
}

/// Whether a stored row holds `x`.
pub(crate) fn row_contains(row: &Vec<u8>, x: u8) -> (r: bool)
    ensures
        r == row_has(row@, x as int),
{
    let mut k: usize = 0;
    while k < row.len()
        invariant
            0 <= k <= row@.len(),
            forall|l: int| 0 <= l < k ==> row@[l] != x,
        decreases row@.len() - k,
    {
        if row[k] == x {
            return true;
        }
        k = k + 1;
    }
    false
}

/// Insert column `x` into the row of grid row `y`, growing the list with
/// empty rows as needed.
pub(crate) fn rows_insert(content: &mut Vec<Vec<u8>>, start: u8, x: u8, y: u8)
    requires
        y < start,
    ensures
        rows_view(*final(content)) == with_cell(
            rows_view(*old(content)),
            start as int,
            x as int,
            y as int,
        ),
{
    let ghost orig = rows_view(*old(content));
    let target = (start - y) as usize;
    while content.len() < target
        invariant
            content@.len() >= orig.len(),
            content@.len() <= orig.len() || content@.len() <= target,
            rows_view(*content) =~= pad_to(orig, content@.len() as int),
        decreases target - content@.len(),
    {
        let ghost k = content@.len() as int;
        content.push(Vec::new());
        proof {
            assert(pad_to(orig, k + 1) =~= pad_to(orig, k).push(Seq::<u8>::empty()));
            assert(rows_view(*content) =~= pad_to(orig, k).push(Seq::<u8>::empty()));
        }
    }
    proof {
        assert(rows_view(*content) =~= pad_to(orig, (start - y) as int));
    }
    let ghost p = pad_to(orig, (start - y) as int);
    let i0 = (start - y - 1) as usize;
    let row = &mut content[i0];
    row.push(x);
    proof {
        assert(rows_view(*content) =~= p.update(i0 as int, p[i0 as int].push(x)));
        assert(x as int as u8 == x);
    }
}

/// The grid row of the first obstruction in `column` at or below
/// `threshold`, or `start` (the floor) if the column is free below it.
pub(crate) fn rows_obstruction(content: &Vec<Vec<u8>>, start: u8, column: u8, threshold: u8) -> (r:
    u8)
    requires
        threshold <= start,
        content@.len() <= start as int,
    ensures
        r as int == obstruction(rows_view(*content), start as int, column as int, threshold as int),
{
    let ghost rows = rows_view(*content);
    let len = content.len();
    let y0 = if (start - threshold) as usize <= len {
        threshold
    } else {
        start - len as u8
    };
    proof {
        assert forall|q: int| threshold <= q < y0 implies !occupied(
            rows,
            start as int,
            column as int,
            q,
        ) by {
            assert(start - q - 1 >= rows.len());
        }
        lemma_obstruction_skip(rows, start as int, column as int, threshold as int, y0 as int);
    }
    let mut y = y0;
    while y < start
        invariant
            y0 <= y <= start,
            start as int - y as int <= content@.len(),
            y < start ==> start as int - y as int - 1 < content@.len(),
            rows == rows_view(*content),
            content@.len() <= start as int,
            forall|q: int| y0 <= q < y ==> !occupied(rows, start as int, column as int, q),
            obstruction(rows, start as int, column as int, threshold as int) == obstruction(
                rows,
                start as int,
                column as int,
                y as int,
            ),
        decreases start - y,
    {
        let i = (start - y - 1) as usize;
        if row_contains(&content[i], column) {
            proof {
                assert(rows[i as int] == content@[i as int]@);
                assert(occupied(rows, start as int, column as int, y as int));
            }
            return y;
        }
        proof {
            assert(rows[i as int] == content@[i as int]@);
            assert(!occupied(rows, start as int, column as int, y as int));
            lemma_obstruction_skip(rows, start as int, column as int, y as int, y as int + 1);
        }
        y = y + 1;
    }
    start
}

/// The least gap over a nonempty list of cells, each at or above the floor.
pub(crate) fn rows_distance(content: &Vec<Vec<u8>>, start: u8, cells: &Vec<Position>) -> (r: u8)
    requires
        content@.len() <= start as int,
        cells@.len() > 0,
        forall|j: int| 0 <= j < cells@.len() ==> (#[trigger] cells@[j]).y <= start,
    ensures
        r as int == distance_of(
            rows_view(*content),
            start as int,
            crate::geometry::positions_view(cells@),
        ),
{
    let ghost rows = rows_view(*content);
    let ghost pv = crate::geometry::positions_view(cells@);
    let first = cells[0];
    proof {
        lemma_obstruction_range(rows, start as int, first.x as int, first.y as int);
    }
    let mut m = rows_obstruction(content, start, first.x, first.y) - first.y;
    proof {
        assert(pv[0] == (first.x as int, first.y as int));
        assert(m as int == distance_of(rows, start as int, pv.take(1)));
    }
    let mut i: usize = 1;
    while i < cells.len()
        invariant
            1 <= i <= cells@.len(),
            rows == rows_view(*content),
            content@.len() <= start as int,
            pv == crate::geometry::positions_view(cells@),
            forall|j: int| 0 <= j < cells@.len() ==> (#[trigger] cells@[j]).y <= start,
            m as int == distance_of(rows, start as int, pv.take(i as int)),
        decreases cells@.len() - i,
    {
        let c = cells[i];
        proof {
            lemma_obstruction_range(rows, start as int, c.x as int, c.y as int);
        }
        let g = rows_obstruction(content, start, c.x, c.y) - c.y;
        if g < m {
            m = g;
        }
        proof {
            assert(pv[i as int] == (c.x as int, c.y as int));
            assert(pv.take(i as int + 1).drop_last() =~= pv.take(i as int));
            assert(m as int == distance_of(rows, start as int, pv.take(i as int + 1)));
        }
        i = i + 1;
    }
    proof {
        assert(pv.take(cells@.len() as int) =~= pv);
    }
    m
}

/// All stored cells as positions, bottom row first, left to right within a
/// row.
pub(crate) fn rows_positions(content: &Vec<Vec<u8>>, start: u8) -> (r: Vec<Position>)
    requires
        content@.len() <= start as int,
    ensures
        r@ == stash_positions(rows_view(*content), start as int),
{
    let ghost rows = rows_view(*content);
    let mut out: Vec<Position> = Vec::new();
    let mut i: usize = 0;
    while i < content.len()
        invariant
            0 <= i <= content@.len(),
            rows == rows_view(*content),
            content@.len() <= start as int,
            out@ =~= stash_positions(rows.take(i as int), start as int),
        decreases content@.len() - i,
    {
        let y = start - i as u8 - 1;
        let row = &content[i];
        proof {
            assert(rows[i as int] == row@);
        }
        let mut j: usize = 0;
        while j < row.len()
            invariant
                0 <= j <= row@.len(),
                rows[i as int] == row@,
                0 <= i < rows.len(),
                y as int == start as int - i as int - 1,
                out@ =~= stash_positions(rows.take(i as int), start as int) + row_positions(
                    row@.take(j as int),
                    y as int,
                ),
            decreases row@.len() - j,
        {
            let c = row[j];
            out.push(Position { x: c, y });
            proof {
                assert(row_positions(row@.take(j as int + 1), y as int) =~= row_positions(
                    row@.take(j as int),
                    y as int,
                ).push(Position { x: c, y }));
                assert(out@ =~= stash_positions(rows.take(i as int), start as int)
                    + row_positions(row@.take(j as int + 1), y as int));
            }
            j = j + 1;
        }
        proof {
            assert(row@.take(row@.len() as int) =~= row@);
            let upto = rows.take(i as int + 1);
            assert(upto.drop_last() =~= rows.take(i as int));
            assert(upto.last() == rows[i as int]);
            assert(start as int - upto.len() == y as int);
            assert(stash_positions(upto, start as int) == stash_positions(
                rows.take(i as int),
                start as int,
            ) + row_positions(row@, y as int));
        }
        i = i + 1;
    }
    proof {
        assert(rows.take(rows.len() as int) =~= rows);
    }
    out
}

/// Remove every row that has reached `width` columns; the return value is
/// how many rows were removed.
pub(crate) fn rows_clear(content: &mut Vec<Vec<u8>>, width: u8) -> (n: u8)
    requires
        old(content)@.len() <= u8::MAX as int,
    ensures
        rows_view(*final(content)) == cleared(rows_view(*old(content)), width as int),
        n as int == rows_view(*old(content)).len() - cleared(
            rows_view(*old(content)),
            width as int,
        ).len(),
{
    let ghost orig = rows_view(*old(content));
    let mut kept: Vec<Vec<u8>> = Vec::new();
    let mut removed: u8 = 0;
    proof {
        orig.lemma_filter_len(|row: Seq<u8>| row.len() < width as int);
    }
    while content.len() > 0
        invariant
            content@.len() <= orig.len() <= u8::MAX as int,
            rows_view(*content) =~= orig.skip(orig.len() - content@.len()),
            rows_view(kept) =~= cleared(orig.take(orig.len() - content@.len()), width as int),
            removed as int == (orig.len() - content@.len()) - rows_view(kept).len(),
            rows_view(kept).len() <= orig.len() - content@.len(),
        decreases content@.len(),
    {
        let ghost k = orig.len() - content@.len();
        let ghost pred = |row: Seq<u8>| row.len() < width as int;
        proof {
            assert(orig.take(k + 1).drop_last() =~= orig.take(k));
            assert(orig.take(k + 1).last() == orig[k]);
            reveal(Seq::filter);
            assert(rows_view(*content)[0] == orig[k]);
            cleared(orig.take(k), width as int).lemma_filter_len(pred);
            orig.take(k).lemma_filter_len(pred);
        }
        let ghost prevv = content@;
        let row = content.remove(0);
        proof {
            assert(row@ == orig[k]);
            assert forall|j: int| 0 <= j < content@.len() implies rows_view(*content)[j]
                == orig.skip(k + 1)[j] by {
                assert(content@[j] == prevv[j + 1]);
                assert(prevv[j + 1]@ == orig.skip(k)[j + 1]);
            }
        }
        if row.len() < width as usize {
            kept.push(row);
            proof {
                assert(rows_view(kept) =~= cleared(orig.take(k), width as int).push(orig[k]));
                assert(cleared(orig.take(k + 1), width as int) =~= cleared(
                    orig.take(k),
                    width as int,
                ).push(orig[k]));
            }
        } else {
            removed = removed + 1;
            proof {
                assert(cleared(orig.take(k + 1), width as int) =~= cleared(
                    orig.take(k),
                    width as int,
                ));
            }
        }
        proof {
            assert(rows_view(*content) =~= orig.skip(k + 1));
        }
    }
    proof {
        assert(orig.take(orig.len() as int) =~= orig);
    }
    *content = kept;
    removed
}

} // verus!
