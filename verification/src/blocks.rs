//! The stash of dropped blocks used by the game state machine, keyed by the
//! grid row of the floor.

use vstd::prelude::*;
use crate::geometry::Position;
use crate::rows::{
    cleared, distance_of, no_full, obstruction, rows_clear, rows_distance, rows_insert,
    rows_obstruction, rows_positions, rows_view, stash_positions, with_cells,
};
use crate::tetronimo::{cells_of, TetroView, Tetronimo};

verus! {

/// The landed blocks below the falling piece, one row list entry per grid
/// row, indexed from the bottom of the area upward.
#[derive(Debug)]
pub struct Blocks {
    /// The grid row of the floor: stored entry `i` holds grid row
    /// `start - i - 1`.
    pub start: u8,
    /// Occupied columns per stored row.
    pub content: Vec<Vec<u8>>,
}

/// A piece's cells all fit the coordinate space above this stash's floor;
/// cells may at most touch the floor row itself.
pub open spec fn piece_above_floor(t: TetroView, start: int) -> bool {
    &&& t.blocks.len() == 4
    &&& forall|j: int|
        0 <= j < t.blocks.len() ==> {
            &&& 0 <= t.x + (#[trigger] t.blocks[j]).0 <= u8::MAX
            &&& 0 <= t.y + t.blocks[j].1 <= start
        }
}

/// A piece's cells all lie strictly above this stash's floor.
pub open spec fn piece_in_field(t: TetroView, start: int) -> bool {
    &&& piece_above_floor(t, start)
    &&& forall|j: int| 0 <= j < t.blocks.len() ==> t.y + (#[trigger] t.blocks[j]).1 < start
}

impl Blocks {
    /// The stored rows as mathematical sequences.
    pub open spec fn rows(&self) -> Seq<Seq<u8>> {
        rows_view(self.content)
    }

    /// The row list never outgrows the play field.
    pub open spec fn wf(&self) -> bool {
        self.rows().len() <= self.start as int
    }

    /// An empty stash whose floor is grid row `start`.
    pub fn new(start: u8) -> (r: Self)
        ensures
            r.start == start,
            r.rows() == Seq::<Seq<u8>>::empty(),
            r.wf(),
    {
        let r = Self { start, content: Vec::new() };
        proof {
            assert(r.rows() =~= Seq::<Seq<u8>>::empty());
        }
        r
    }

    /// Add the four cells of a landed piece to their rows.
    pub fn add(&mut self, tetronimo: &Tetronimo)
        requires
            old(self).wf(),
            piece_in_field(tetronimo@, old(self).start as int),
        ensures
            final(self).start == old(self).start,
            final(self).rows() == with_cells(
                old(self).rows(),
                old(self).start as int,
                cells_of(tetronimo@),
            ),
            final(self).wf(),
    {
        let ghost orig = self.rows();
        let ghost start = self.start as int;
        let ghost pv = cells_of(tetronimo@);
        let cells = tetronimo.now();
        let mut i: usize = 0;
        proof {
            assert(with_cells(orig, start, pv.take(0)) =~= orig);
        }
        while i < cells.len()
            invariant
                0 <= i <= cells@.len(),
                crate::geometry::positions_view(cells@) == pv,
                pv.len() == 4,
                cells@.len() == 4,
                self.start as int == start,
                forall|j: int| 0 <= j < pv.len() ==> 0 <= (#[trigger] pv[j]).1 < start,
                self.rows() =~= with_cells(orig, start, pv.take(i as int)),
            decreases cells@.len() - i,
        {
            let c = cells[i];
            proof {
                assert(pv[i as int] == (c.x as int, c.y as int));
            }
            rows_insert(&mut self.content, self.start, c.x, c.y);
            proof {
                assert(pv.take(i as int + 1).drop_last() =~= pv.take(i as int));
                assert(self.rows() =~= with_cells(orig, start, pv.take(i as int + 1)));
            }
            i = i + 1;
        }
        proof {
            assert(pv.take(4) =~= pv);
            assert(self.rows() =~= with_cells(orig, start, pv));
            crate::rows::lemma_with_cells_len(orig, start, pv);
        }
    }

    /// Remove every completed row (one that holds `width` columns or more)
    /// and say how many went.
    pub fn clear_completed_rows(&mut self, width: u8) -> (n: u8)
        requires
            old(self).wf(),
        ensures
            final(self).start == old(self).start,
            final(self).rows() == cleared(old(self).rows(), width as int),
            n as int == old(self).rows().len() - final(self).rows().len(),
            no_full(final(self).rows(), width as int),
            final(self).wf(),
    {
        let ghost orig = self.rows();
        let n = rows_clear(&mut self.content, width);
        proof {
            crate::rows::lemma_cleared_no_full(orig, width as int);
            orig.lemma_filter_len(|row: Seq<u8>| row.len() < width as int);
        }
        n
    }

    /// The positions of all stored blocks, bottom row first.
    pub fn get_blocks(&self) -> (r: Vec<Position>)
        requires
            self.wf(),
        ensures
            r@ == stash_positions(self.rows(), self.start as int),
    {
        rows_positions(&self.content, self.start)
    }

    /// The piece's distance to the nearest obstruction below it: the least
    /// gap over its four cells.
    pub fn distance_to(&self, tetronimo: &Tetronimo) -> (r: u8)
        requires
            self.wf(),
            piece_above_floor(tetronimo@, self.start as int),
        ensures
            r as int == distance_of(self.rows(), self.start as int, cells_of(tetronimo@)),
    {
        let cells = tetronimo.now();
        proof {
            assert(crate::geometry::positions_view(cells@).len() == cells@.len());
            assert(cells_of(tetronimo@).len() == 4);
            assert forall|j: int| 0 <= j < cells@.len() implies (#[trigger] cells@[j]).y
                <= self.start by {
                assert(crate::geometry::positions_view(cells@)[j] == (
                    cells@[j].x as int,
                    cells@[j].y as int,
                ));
                assert(cells_of(tetronimo@)[j] == (
                    tetronimo@.x + tetronimo@.blocks[j].0,
                    tetronimo@.y + tetronimo@.blocks[j].1,
                ));
            }
        }
        rows_distance(&self.content, self.start, &cells)
    }

    /// The grid row of the first obstruction in `column` at or below
    /// `threshold`, or the floor if the column is free below it.
    pub fn get_highest(&self, column: u8, threshold: u8) -> (r: u8)
        requires
            self.wf(),
            threshold <= self.start,
        ensures
            r as int == obstruction(self.rows(), self.start as int, column as int, threshold as int),
    {
        rows_obstruction(&self.content, self.start, column, threshold)
    }
}

} // verus!
