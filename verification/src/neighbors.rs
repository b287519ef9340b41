//! Enumeration of the in-bounds cardinal and diagonal neighbors of a grid
//! cell, in a fixed deterministic order.

use vstd::prelude::*;

verus! {

/// Upper bound on the number of cells of a board, so that index arithmetic
/// stays far away from `usize` overflow and cell counts fit in `i64` scores.
pub const MAX_CELLS: usize = 0xff_ffff;

/// The cardinal (edge) neighbor in slot `k` of cell `(x, y)`, if that slot is
/// in bounds.  Slot order: up, left, right, down.
pub open spec fn card_slot(rows: int, cols: int, x: int, y: int, k: int) -> Option<int> {
    if k == 0 {
        if y > 0 { Some((y - 1) * cols + x) } else { None }
    } else if k == 1 {
        if x > 0 { Some(y * cols + (x - 1)) } else { None }
    } else if k == 2 {
        if x + 1 < cols { Some(y * cols + (x + 1)) } else { None }
    } else {
        if y + 1 < rows { Some((y + 1) * cols + x) } else { None }
    }
}

/// The diagonal (corner) neighbor in slot `k` of cell `(x, y)`, if that slot
/// is in bounds.  Slot order: up-left, down-left, up-right, down-right.
pub open spec fn diag_slot(rows: int, cols: int, x: int, y: int, k: int) -> Option<int> {
    if k == 0 {
        if y > 0 && x > 0 { Some((y - 1) * cols + (x - 1)) } else { None }
    } else if k == 1 {
        if y + 1 < rows && x > 0 { Some((y + 1) * cols + (x - 1)) } else { None }
    } else if k == 2 {
        if y > 0 && x + 1 < cols { Some((y - 1) * cols + (x + 1)) } else { None }
    } else {
        if y + 1 < rows && x + 1 < cols { Some((y + 1) * cols + (x + 1)) } else { None }
    }
}

pub open spec fn slot_seq(s: Option<int>) -> Seq<int> {
    match s {
        Some(v) => seq![v],
        None => Seq::empty(),
    }
}

/// The in-bounds cardinal neighbors contributed by slots `i..4`.
pub open spec fn card_slots_from(rows: int, cols: int, x: int, y: int, i: int) -> Seq<int>
    decreases 4 - i when i <= 4
{
    if 0 <= i < 4 {
        slot_seq(card_slot(rows, cols, x, y, i)) + card_slots_from(rows, cols, x, y, i + 1)
    } else {
        Seq::empty()
    }
}

/// The in-bounds diagonal neighbors contributed by slots `i..4`.
pub open spec fn diag_slots_from(rows: int, cols: int, x: int, y: int, i: int) -> Seq<int>
    decreases 4 - i when i <= 4
{
    if 0 <= i < 4 {
        slot_seq(diag_slot(rows, cols, x, y, i)) + diag_slots_from(rows, cols, x, y, i + 1)
    } else {
        Seq::empty()
    }
}

/// All in-bounds cardinal neighbors of `(x, y)`, in slot order.
pub open spec fn card_seq(rows: int, cols: int, x: int, y: int) -> Seq<int> {
    card_slots_from(rows, cols, x, y, 0)
}

/// All in-bounds diagonal neighbors of `(x, y)`, in slot order.
pub open spec fn diag_seq(rows: int, cols: int, x: int, y: int) -> Seq<int> {
    diag_slots_from(rows, cols, x, y, 0)
}

/// Every neighbor produced by the slot functions is a valid cell index.
pub proof fn lemma_card_slots_bounds(rows: int, cols: int, x: int, y: int, i: int)
    requires
        0 <= x < cols,
        0 <= y < rows,
        i <= 4,
    ensures
        forall|k: int| 0 <= k < card_slots_from(rows, cols, x, y, i).len()
            ==> 0 <= #[trigger] card_slots_from(rows, cols, x, y, i)[k] < rows * cols,
    decreases 4 - i
{
    if 0 <= i < 4 {
        lemma_card_slots_bounds(rows, cols, x, y, i + 1);
        if i == 0 {
            if y > 0 { lemma_cell_bound(y - 1, x, rows, cols); }
        } else if i == 1 {
            if x > 0 { lemma_cell_bound(y, x - 1, rows, cols); }
        } else if i == 2 {
            if x + 1 < cols { lemma_cell_bound(y, x + 1, rows, cols); }
        } else {
            if y + 1 < rows { lemma_cell_bound(y + 1, x, rows, cols); }
        }
        let s = card_slots_from(rows, cols, x, y, i);
        let head = slot_seq(card_slot(rows, cols, x, y, i));
        let tail = card_slots_from(rows, cols, x, y, i + 1);
        assert forall|k: int| 0 <= k < s.len() implies 0 <= #[trigger] s[k] < rows * cols by {
            if k < head.len() {
                assert(s[k] == head[0]);
            } else {
                assert(s[k] == tail[k - head.len()]);
            }
        };
    }
}

pub proof fn lemma_diag_slots_bounds(rows: int, cols: int, x: int, y: int, i: int)
    requires
        0 <= x < cols,
        0 <= y < rows,
        i <= 4,
    ensures
        forall|k: int| 0 <= k < diag_slots_from(rows, cols, x, y, i).len()
            ==> 0 <= #[trigger] diag_slots_from(rows, cols, x, y, i)[k] < rows * cols,
    decreases 4 - i
{
    if 0 <= i < 4 {
        lemma_diag_slots_bounds(rows, cols, x, y, i + 1);
        if i == 0 {
            if y > 0 && x > 0 { lemma_cell_bound(y - 1, x - 1, rows, cols); }
        } else if i == 1 {
            if y + 1 < rows && x > 0 { lemma_cell_bound(y + 1, x - 1, rows, cols); }
        } else if i == 2 {
            if y > 0 && x + 1 < cols { lemma_cell_bound(y - 1, x + 1, rows, cols); }
        } else {
            if y + 1 < rows && x + 1 < cols { lemma_cell_bound(y + 1, x + 1, rows, cols); }
        }
        let s = diag_slots_from(rows, cols, x, y, i);
        let head = slot_seq(diag_slot(rows, cols, x, y, i));
        let tail = diag_slots_from(rows, cols, x, y, i + 1);
        assert forall|k: int| 0 <= k < s.len() implies 0 <= #[trigger] s[k] < rows * cols by {
            if k < head.len() {
                assert(s[k] == head[0]);
            } else {
                assert(s[k] == tail[k - head.len()]);
            }
        };
    }
}

/// A cell at in-bounds coordinates has an index below the cell count.
pub proof fn lemma_cell_bound(y: int, x: int, rows: int, cols: int)
    requires
        0 <= y < rows,
        0 <= x < cols,
    ensures
        0 <= y * cols + x < rows * cols,
{
    assert(0 <= y * cols + x < rows * cols) by (nonlinear_arith)
        requires
            0 <= y < rows,
            0 <= x < cols,
    ;
}

/// Walks the at most four in-bounds cardinal neighbors of a cell.
pub struct CardinalIterator {
    rows: usize,
    cols: usize,
    x: usize,
    y: usize,
    i: usize,
}

/// Walks the at most four in-bounds diagonal neighbors of a cell.
pub struct DiagonalIterator {
    rows: usize,
    cols: usize,
    x: usize,
    y: usize,
    i: usize,
}

impl CardinalIterator {
    pub closed spec fn wf(self) -> bool {
        self.x < self.cols && self.y < self.rows && self.i <= 4 && self.rows * self.cols <= MAX_CELLS
    }

    /// The neighbors this iterator has not yet produced.
    pub closed spec fn rem(self) -> Seq<int> {
        card_slots_from(self.rows as int, self.cols as int, self.x as int, self.y as int,
            self.i as int)
    }

    pub fn new(rows: usize, cols: usize, x: usize, y: usize) -> (it: Self)
        requires
            x < cols,
            y < rows,
            rows * cols <= MAX_CELLS,
        ensures
            it.wf(),
            it.rem() == card_seq(rows as int, cols as int, x as int, y as int),
            forall|k: int| 0 <= k < it.rem().len() ==> 0 <= #[trigger] it.rem()[k]
                < rows * cols,
    {
        proof {
            lemma_card_slots_bounds(rows as int, cols as int, x as int, y as int, 0);
        }
        CardinalIterator { rows, cols, x, y, i: 0 }
    }

    /// Produces the next in-bounds cardinal neighbor, in slot order.
    pub fn next(&mut self) -> (r: Option<usize>)
        requires
            old(self).wf(),
        ensures
            final(self).wf(),
            match r {
                None => old(self).rem().len() == 0 && final(self).rem().len() == 0,
                Some(v) => old(self).rem().len() > 0 && v as int == old(self).rem()[0]
                    && final(self).rem() == old(self).rem().drop_first(),
            },
    {
        if self.i == 0 {
            self.i = 1;
            if self.y > 0 {
                proof { lemma_cell_bound(self.y - 1, self.x as int, self.rows as int, self.cols as int); }
                let r = (self.y - 1) * self.cols + self.x;
                proof {
                    assert(old(self).rem() == seq![r as int] + self.rem());
                    assert((seq![r as int] + self.rem()).drop_first() =~= self.rem());
                }
                return Some(r);
            }
            proof {
                assert(old(self).rem() =~= self.rem());
            }
        }
        if self.i == 1 {
            let ghost pre = *self;
            self.i = 2;
            if self.x > 0 {
                proof { lemma_cell_bound(self.y as int, self.x - 1, self.rows as int, self.cols as int); }
                let r = self.y * self.cols + (self.x - 1);
                proof {
                    assert(old(self).rem() == seq![r as int] + self.rem());
                    assert((seq![r as int] + self.rem()).drop_first() =~= self.rem());
                }
                return Some(r);
            }
            proof {
                assert(pre.rem() =~= self.rem());
            }
        }
        if self.i == 2 {
            let ghost pre = *self;
            self.i = 3;
            if self.x + 1 < self.cols {
                proof { lemma_cell_bound(self.y as int, self.x + 1, self.rows as int, self.cols as int); }
                let r = self.y * self.cols + (self.x + 1);
                proof {
                    assert(old(self).rem() == seq![r as int] + self.rem());
                    assert((seq![r as int] + self.rem()).drop_first() =~= self.rem());
                }
                return Some(r);
            }
            proof {
                assert(pre.rem() =~= self.rem());
            }
        }
        if self.i == 3 {
            let ghost pre = *self;
            self.i = 4;
            if self.y + 1 < self.rows {
                proof { lemma_cell_bound(self.y + 1, self.x as int, self.rows as int, self.cols as int); }
                let r = (self.y + 1) * self.cols + self.x;
                proof {
                    assert(old(self).rem() == seq![r as int] + self.rem());
                    assert((seq![r as int] + self.rem()).drop_first() =~= self.rem());
                }
                return Some(r);
            }
            proof {
                assert(pre.rem() =~= self.rem());
            }
        }
        None
    }
}

impl DiagonalIterator {
    pub closed spec fn wf(self) -> bool {
        self.x < self.cols && self.y < self.rows && self.i <= 4 && self.rows * self.cols <= MAX_CELLS
    }

    /// The neighbors this iterator has not yet produced.
    pub closed spec fn rem(self) -> Seq<int> {
        diag_slots_from(self.rows as int, self.cols as int, self.x as int, self.y as int,
            self.i as int)
    }

    pub fn new(rows: usize, cols: usize, x: usize, y: usize) -> (it: Self)
        requires
            x < cols,
            y < rows,
            rows * cols <= MAX_CELLS,
        ensures
            it.wf(),
            it.rem() == diag_seq(rows as int, cols as int, x as int, y as int),
            forall|k: int| 0 <= k < it.rem().len() ==> 0 <= #[trigger] it.rem()[k]
                < rows * cols,
    {
        proof {
            lemma_diag_slots_bounds(rows as int, cols as int, x as int, y as int, 0);
        }
        DiagonalIterator { rows, cols, x, y, i: 0 }
    }

    /// Produces the next in-bounds diagonal neighbor, in slot order.
    pub fn next(&mut self) -> (r: Option<usize>)
        requires
            old(self).wf(),
        ensures
            final(self).wf(),
            match r {
                None => old(self).rem().len() == 0 && final(self).rem().len() == 0,
                Some(v) => old(self).rem().len() > 0 && v as int == old(self).rem()[0]
                    && final(self).rem() == old(self).rem().drop_first(),
            },
    {
        if self.i == 0 {
            self.i = 1;
            if self.y > 0 && self.x > 0 {
                proof { lemma_cell_bound(self.y - 1, self.x - 1, self.rows as int, self.cols as int); }
                let r = (self.y - 1) * self.cols + (self.x - 1);
                proof {
                    assert(old(self).rem() == seq![r as int] + self.rem());
                    assert((seq![r as int] + self.rem()).drop_first() =~= self.rem());
                }
                return Some(r);
            }
            proof {
                assert(old(self).rem() =~= self.rem());
            }
        }
        if self.i == 1 {
            let ghost pre = *self;
            self.i = 2;
            if self.y + 1 < self.rows && self.x > 0 {
                proof { lemma_cell_bound(self.y + 1, self.x - 1, self.rows as int, self.cols as int); }
                let r = (self.y + 1) * self.cols + (self.x - 1);
                proof {
                    assert(old(self).rem() == seq![r as int] + self.rem());
                    assert((seq![r as int] + self.rem()).drop_first() =~= self.rem());
                }
                return Some(r);
            }
            proof {
                assert(pre.rem() =~= self.rem());
            }
        }
        if self.i == 2 {
            let ghost pre = *self;
            self.i = 3;
            if self.y > 0 && self.x + 1 < self.cols {
                proof { lemma_cell_bound(self.y - 1, self.x + 1, self.rows as int, self.cols as int); }
                let r = (self.y - 1) * self.cols + (self.x + 1);
                proof {
                    assert(old(self).rem() == seq![r as int] + self.rem());
                    assert((seq![r as int] + self.rem()).drop_first() =~= self.rem());
                }
                return Some(r);
            }
            proof {
                assert(pre.rem() =~= self.rem());
            }
        }
        if self.i == 3 {
            let ghost pre = *self;
            self.i = 4;
            if self.y + 1 < self.rows && self.x + 1 < self.cols {
                proof { lemma_cell_bound(self.y + 1, self.x + 1, self.rows as int, self.cols as int); }
                let r = (self.y + 1) * self.cols + (self.x + 1);
                proof {
                    assert(old(self).rem() == seq![r as int] + self.rem());
                    assert((seq![r as int] + self.rem()).drop_first() =~= self.rem());
                }
                return Some(r);
            }
            proof {
                assert(pre.rem() =~= self.rem());
            }
        }
        None
    }
}

} // verus!
