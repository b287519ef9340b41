//! The game adapter: binds the adjacency board, turn rotation among colors
//! and the evaluation heuristic to the generic four-operation interface that
//! the tree-search engine drives.

use vstd::prelude::*;
use crate::board::{Board, VarV, Rec, rec_ok, replay_n, var_ok};
use crate::heuristic::{board_score, count_occupied, score_spec,
    lemma_count_occupied_mono, lemma_count_occupied_le};
use crate::board::lemma_write_fp_cases;

verus! {

/// The capability interface the tree-search engine drives: undo a move,
/// count the legal moves, play the `i`-th legal move, and score a finished
/// position.  `depth` is the number of moves played, `fuel` is a measure
/// that every played move strictly decreases, and `moves_now` is the number
/// of currently legal moves.
pub trait GameStateMut: Sized {
    spec fn inv(&self) -> bool;

    /// The indices of the moves played so far, oldest first: each entry is
    /// the position of the chosen move within the legal-move list of the
    /// position it was played from.
    spec fn trace(&self) -> Seq<usize>;

    spec fn fuel(&self) -> nat;

    spec fn moves_now(&self) -> nat;

    /// The score `value` returns for the current position.
    spec fn value_spec(&self) -> i64;

    /// The number of moves played.
    open spec fn depth(&self) -> nat {
        self.trace().len()
    }

    /// Take back the most recent move; fails exactly at the root position.
    fn undo(&mut self) -> (ok: bool)
        requires
            old(self).inv(),
        ensures
            final(self).inv(),
            ok <==> old(self).trace().len() > 0,
            ok ==> final(self).trace() == old(self).trace().drop_last(),
            !ok ==> *final(self) == *old(self),
    ;

    /// The number of legal moves in the current position.
    fn move_count(&mut self) -> (n: usize)
        requires
            old(self).inv(),
        ensures
            *final(self) == *old(self),
            n as nat == old(self).moves_now(),
    ;

    /// Play the `i`-th legal move; fails exactly when `i` is out of range.
    fn select_move(&mut self, i: usize) -> (ok: bool)
        requires
            old(self).inv(),
        ensures
            final(self).inv(),
            ok <==> (i as nat) < old(self).moves_now(),
            ok ==> final(self).trace() == old(self).trace().push(i)
                && final(self).fuel() < old(self).fuel(),
            !ok ==> *final(self) == *old(self),
    ;

    /// Score the current position.
    fn value(&mut self) -> (v: i64)
        requires
            old(self).inv(),
        ensures
            *final(self) == *old(self),
            v == old(self).value_spec(),
    ;
}

/// The board bound to the search interface: colors move in fixed rotation,
/// and a finished position is scored by the evaluation heuristic.
pub struct BoardStateMut {
    pub board: Board,
    pub count: usize,
    /// The move indices played so far, for the search interface's trace.
    pub trace: Ghost<Seq<usize>>,
}

/// Replaying a sound history occupies at least one cell per record.
proof fn lemma_replay_occupies(cat: Seq<Seq<VarV>>, players: int, rows: int, cols: int,
    h: Seq<Rec>, n: nat)
    requires
        0 <= rows * cols,
        n <= h.len(),
        forall|m: int| 0 <= m < n
            ==> rec_ok(cat, players, rows, cols,
                replay_n(cat, rows * cols, h, m as nat), #[trigger] h[m]),
        forall|p: int, v: int| 0 <= p < cat.len() && 0 <= v < cat[p].len()
            ==> var_ok(#[trigger] cat[p][v], rows, cols),
    ensures
        replay_n(cat, rows * cols, h, n).len() == rows * cols,
        count_occupied(replay_n(cat, rows * cols, h, n)) >= n,
    decreases n
{
    if n > 0 {
        lemma_replay_occupies(cat, players, rows, cols, h, (n - 1) as nat);
        let r = h[n - 1];
        let prev = replay_n(cat, rows * cols, h, (n - 1) as nat);
        let pts = cat[r.1 as int][r.2 as int].0;
        assert(rec_ok(cat, players, rows, cols, prev, h[n - 1]));
        assert forall|k: int| 0 <= k < pts.len()
            implies 0 <= (#[trigger] pts[k]) + (r.3 as int) < prev.len() by {
            assert(pts[k] + r.3 < rows * cols);
        }
        lemma_write_fp_cases(prev, pts, r.3 as int, Some(r.0), pts.len());
        let cur = replay_n(cat, rows * cols, h, n);
        assert(var_ok(cat[r.1 as int][r.2 as int], rows, cols));
        assert(pts.len() >= 1);
        assert forall|i: int| 0 <= i < prev.len()
            implies #[trigger] cur[i] == prev[i] || (prev[i] is None && cur[i] is Some) by {
            if exists|k: int| 0 <= k < pts.len() && (#[trigger] pts[k]) + r.3 == i {
                let k = choose|k: int| 0 <= k < pts.len() && (#[trigger] pts[k]) + r.3 == i;
                assert(prev[pts[k] + r.3] is None);
                assert(cur[pts[k] + r.3] == Some(r.0));
            }
        }
        assert(prev[pts[0] + r.3] is None && cur[pts[0] + r.3] is Some);
        lemma_count_occupied_mono(prev, cur);
        lemma_count_occupied_le(prev);
        assert(exists|i: int| 0 <= i < prev.len() && (#[trigger] prev[i]) is None
            && cur[i] is Some) by {
            assert(0 <= pts[0] + r.3 < prev.len() && prev[pts[0] + r.3] is None
                && cur[pts[0] + r.3] is Some);
        }
        assert(count_occupied(cur) > count_occupied(prev));
        assert(count_occupied(prev) >= n - 1);
        assert(count_occupied(cur) >= n);
    } else {
        lemma_count_occupied_le(replay_n(cat, rows * cols, h, 0));
    }
}

impl BoardStateMut {
    /// The color whose turn it is: colors rotate in fixed order.
    pub open spec fn cur_color(&self) -> int {
        (self.count as int) % self.board.players()
    }

    /// Bind a fresh board to the search interface.
    pub fn new(board: Board) -> (g: BoardStateMut)
        requires
            board.wf(),
            board.players() >= 1,
            board.hist().len() == 0,
        ensures
            g.inv(),
            g.depth() == 0,
            g.board == board,
    {
        proof {
            board.lemma_wf_dims();
        }
        BoardStateMut { board, count: 0, trace: Ghost(Seq::empty()) }
    }
}

impl GameStateMut for BoardStateMut {
    open spec fn inv(&self) -> bool {
        &&& self.board.wf()
        &&& self.board.players() >= 1
        &&& self.count as int == self.board.hist().len()
        &&& self.trace@.len() == self.count
    }

    open spec fn trace(&self) -> Seq<usize> {
        self.trace@
    }

    open spec fn fuel(&self) -> nat {
        (self.board.size_spec() - count_occupied(self.board.occ())) as nat
    }

    open spec fn moves_now(&self) -> nat {
        self.board.moves_spec(self.cur_color()).len()
    }

    open spec fn value_spec(&self) -> i64 {
        score_spec(self.board.occ(), self.board.rows_spec(), self.board.cols_spec()) as i64
    }

    fn undo(&mut self) -> (ok: bool) {
        match self.board.undo() {
            Ok(()) => {
                self.count = self.count - 1;
                proof {
                    self.trace@ = self.trace@.drop_last();
                }
                true
            },
            Err(_) => false,
        }
    }

    fn move_count(&mut self) -> (n: usize) {
        let c = self.count % self.board.players_count();
        proof {
            self.board.lemma_wf_dims();
            assert((c as int) < self.board.players());
        }
        match self.board.moves(c as u8) {
            Ok(m) => m.moves.len(),
            Err(_) => {
                proof {
                    assert(false);
                }
                0
            },
        }
    }

    fn select_move(&mut self, i: usize) -> (ok: bool) {
        let ghost pre = *self;
        let c = self.count % self.board.players_count();
        proof {
            self.board.lemma_wf_dims();
            assert((c as int) < self.board.players());
        }
        let m = match self.board.moves(c as u8) {
            Ok(m) => m,
            Err(_) => {
                proof {
                    assert(false);
                }
                return false;
            },
        };
        if i < m.moves.len() {
            let ghost mv = m.moves@[i as int];
            proof {
                pre.board.lemma_wf_dims();
                pre.board.lemma_moves_elems(c as int, pre.board.n_pieces() as nat);
                pre.board.lemma_legal_footprint_empty(c as int, mv.0 as int, mv.1 as int,
                    mv.2 as int);
                lemma_replay_occupies(pre.board.cat(), pre.board.players(),
                    pre.board.rows_spec(), pre.board.cols_spec(), pre.board.hist(),
                    pre.board.hist().len());
                lemma_count_occupied_le(pre.board.occ());
            }
            m.place(&mut self.board, i);
            proof {
                let pts = pre.board.cat()[mv.0 as int][mv.1 as int].0;
                lemma_write_fp_cases(pre.board.occ(), pts, mv.2 as int, Some(c as u8),
                    pts.len());
                assert(pre.board.occ()[pts[0] + mv.2] is None
                    && self.board.occ()[pts[0] + mv.2] is Some);
                lemma_count_occupied_mono(pre.board.occ(), self.board.occ());
                lemma_count_occupied_le(self.board.occ());
                self.board.lemma_wf_dims();
            }
            self.count = self.count + 1;
            proof {
                self.trace@ = self.trace@.push(i);
            }
            true
        } else {
            false
        }
    }

    fn value(&mut self) -> (v: i64) {
        let s = board_score(&self.board);
        proof {
            assert(s.value as int == score_spec(self.board.occ(), self.board.rows_spec(),
                self.board.cols_spec()));
        }
        s.value
    }
}

} // verus!
