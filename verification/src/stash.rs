//! A standalone stash of dropped blocks that works on bare cell arrays
//! rather than on [`crate::tetronimo::Tetronimo`] pieces.

use vstd::prelude::*;
use crate::geometry::Block;
use crate::rows::{
    cleared, distance_of, no_full, obstruction, rows_clear, rows_distance, rows_insert,
    rows_obstruction, rows_positions, rows_view, stash_positions, with_cells,
};

verus! {

/// Four landed cells as a bare array, bottom-left origin grid coordinates.
pub type Tetronimo = [Block; 4];

/// Cells of a bare array as integer pairs.
pub open spec fn blocks_cells(s: Seq<Block>) -> Seq<(int, int)> {
    s.map_values(|b: Block| (b.x as int, b.y as int))
}

/// The stash: occupied columns per stored row, bottom row first, below the
/// floor at grid row `start`.
#[derive(Debug)]
pub struct Stash {
    /// Occupied columns per stored row.
    pub content: Vec<Vec<u8>>,
    /// The grid row of the floor: stored entry `i` holds grid row
    /// `start - i - 1`.
    pub start: u8,
}

impl Stash {
    /// The stored rows as mathematical sequences.
    pub open spec fn rows(&self) -> Seq<Seq<u8>> {
        rows_view(self.content)
    }

    /// The row list never outgrows the play field.
    pub open spec fn wf(&self) -> bool {
        self.rows().len() <= self.start as int
    }

    /// An empty stash whose floor is grid row `start`.
    pub fn new(start: u8) -> (r: Self)
        ensures
            r.start == start,
            r.rows() == Seq::<Seq<u8>>::empty(),
            r.wf(),
    {
        let r = Self { content: Vec::new(), start };
        proof {
            assert(r.rows() =~= Seq::<Seq<u8>>::empty());
        }
        r
    }

    /// Add four landed cells to their rows; every cell must lie strictly
    /// above the floor.
    pub fn add(&mut self, tetronimo: Tetronimo)
        requires
            old(self).wf(),
            forall|j: int| 0 <= j < 4 ==> (#[trigger] tetronimo@[j]).y < old(self).start,
        ensures
            final(self).start == old(self).start,
            final(self).rows() == with_cells(
                old(self).rows(),
                old(self).start as int,
                blocks_cells(tetronimo@),
            ),
            final(self).wf(),
    {
        let ghost orig = self.rows();
        let ghost start = self.start as int;
        let ghost pv = blocks_cells(tetronimo@);
        let mut i: usize = 0;
        proof {
            assert(with_cells(orig, start, pv.take(0)) =~= orig);
        }
        while i < 4
            invariant
                0 <= i <= 4,
                blocks_cells(tetronimo@) == pv,
                pv.len() == 4,
                self.start as int == start,
                forall|j: int| 0 <= j < 4 ==> (#[trigger] tetronimo@[j]).y < start,
                self.rows() =~= with_cells(orig, start, pv.take(i as int)),
            decreases 4 - i,
        {
            let b = tetronimo[i];
            proof {
                assert(pv[i as int] == (b.x as int, b.y as int));
            }
            rows_insert(&mut self.content, self.start, b.x, b.y);
            proof {
                assert(pv.take(i as int + 1).drop_last() =~= pv.take(i as int));
                assert(self.rows() =~= with_cells(orig, start, pv.take(i as int + 1)));
            }
            i = i + 1;
        }
        proof {
            assert(pv.take(4) =~= pv);
            assert(self.rows() =~= with_cells(orig, start, pv));
            assert forall|j: int| 0 <= j < pv.len() implies 0 <= (#[trigger] pv[j]).1 < start by {
                assert(pv[j] == (tetronimo@[j].x as int, tetronimo@[j].y as int));
            }
            crate::rows::lemma_with_cells_len(orig, start, pv);
        }
    }

    /// Remove every completed row (one that holds `width` columns or more)
    /// and say how many went.
    pub fn remove_lines(&mut self, width: u8) -> (n: u8)
        requires
            old(self).wf(),
        ensures
            final(self).start == old(self).start,
            final(self).rows() == cleared(old(self).rows(), width as int),
            n as int == old(self).rows().len() - final(self).rows().len(),
            no_full(final(self).rows(), width as int),
            final(self).wf(),
    {
        let ghost orig = self.rows();
        let n = rows_clear(&mut self.content, width);
        proof {
            crate::rows::lemma_cleared_no_full(orig, width as int);
            orig.lemma_filter_len(|row: Seq<u8>| row.len() < width as int);
        }
        n
    }

    /// The positions of all stored blocks, bottom row first.
    pub fn get_blocks(&self) -> (r: Vec<Block>)
        requires
            self.wf(),
        ensures
            blocks_cells(r@) == crate::geometry::positions_view(
                stash_positions(self.rows(), self.start as int),
            ),
    {
        let ps = rows_positions(&self.content, self.start);
        let ghost want = crate::geometry::positions_view(
            stash_positions(self.rows(), self.start as int),
        );
        let mut out: Vec<Block> = Vec::new();
        let mut i: usize = 0;
        while i < ps.len()
            invariant
                0 <= i <= ps@.len(),
                ps@ == stash_positions(self.rows(), self.start as int),
                want == crate::geometry::positions_view(ps@),
                out@.len() == i,
                blocks_cells(out@) =~= want.take(i as int),
            decreases ps@.len() - i,
        {
            let p = ps[i];
            let ghost prev = out@;
            out.push(Block { x: p.x, y: p.y });
            proof {
                assert(want[i as int] == (p.x as int, p.y as int));
                assert(out@ == prev.push(Block { x: p.x, y: p.y }));
                assert forall|k: int| 0 <= k < i as int + 1 implies blocks_cells(out@)[k]
                    == want.take(i as int + 1)[k] by {
                    if k < i as int {
                        assert(out@[k] == prev[k]);
                        assert(blocks_cells(prev)[k] == want.take(i as int)[k]);
                    }
                }
                assert(blocks_cells(out@) =~= want.take(i as int + 1));
            }
            i = i + 1;
        }
        proof {
            assert(want.take(ps@.len() as int) =~= want);
        }
        out
    }

    /// The least gap between the four cells and the stash below them.
    pub fn distance_to(&self, tetronimo: Tetronimo) -> (r: u8)
        requires
            self.wf(),
            forall|j: int| 0 <= j < 4 ==> (#[trigger] tetronimo@[j]).y <= self.start,
        ensures
            r as int == distance_of(self.rows(), self.start as int, blocks_cells(tetronimo@)),
    {
        let mut cells: Vec<crate::geometry::Position> = Vec::new();
        let ghost pv = blocks_cells(tetronimo@);
        let mut i: usize = 0;
        while i < 4
            invariant
                0 <= i <= 4,
                blocks_cells(tetronimo@) == pv,
                forall|j: int| 0 <= j < 4 ==> (#[trigger] tetronimo@[j]).y <= self.start,
                cells@.len() == i,
                forall|j: int| 0 <= j < i ==> (#[trigger] cells@[j]).y <= self.start,
                crate::geometry::positions_view(cells@) =~= pv.take(i as int),
            decreases 4 - i,
        {
            let b = tetronimo[i];
            cells.push(crate::geometry::Position { x: b.x, y: b.y });
            proof {
                assert(pv[i as int] == (b.x as int, b.y as int));
                assert(crate::geometry::positions_view(cells@) =~= pv.take(i as int + 1));
            }
            i = i + 1;
        }
        proof {
            assert(pv.take(4) =~= pv);
        }
        rows_distance(&self.content, self.start, &cells)
    }

    /// The grid row of the first obstruction in `column` at or below
    /// `row`, or the floor if the column is free below it.
    pub fn get_highest(&self, column: u8, row: u8) -> (r: u8)
        requires
            self.wf(),
            row <= self.start,
        ensures
            r as int == obstruction(self.rows(), self.start as int, column as int, row as int),
    {
        rows_obstruction(&self.content, self.start, column, row)
    }
}

} // verus!
