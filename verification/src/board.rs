//! The adjacency board: cell occupancy, per-cell legality flags packed two
//! bits per color, legal-move enumeration, and reversible move application.
//!
//! The board's well-formedness ties every component to the placement
//! history: occupancy is the replay of the history from an empty board, the
//! position table is the fold of the history, and the flags are a function
//! of occupancy and home cells.  Applying a move and undoing it therefore
//! restores the state exactly.

use vstd::prelude::*;
use crate::neighbors::{CardinalIterator, DiagonalIterator, card_seq, diag_seq,
    lemma_cell_bound, MAX_CELLS};
use crate::pieces::{Piece, dedup_pcs, sort_pcs, the8, coords_in, smax_x, smax_y,
    lemma_variations_shape, Point, COORD_LIMIT};
use vstd::arithmetic::div_mod::lemma_fundamental_div_mod;
use vstd::arithmetic::div_mod::lemma_fundamental_div_mod_converse_div;
use vstd::arithmetic::div_mod::lemma_fundamental_div_mod_converse_mod;
use vstd::arithmetic::mul::lemma_mul_inequality;

verus! {

pub type Color = u8;

/// Per-color legality bits: a cell's flag holds, for color `c`, the CORNER
/// bit at position `2c` and the BLOCKED bit at position `2c + 1`.
pub const CORNER: u8 = 1;
pub const BLOCKED: u8 = 2;
/// Flag of an occupied cell: BLOCKED for every color, CORNER for none.
pub const OCCUPIED: u8 = 170;

/// A placement record: color, piece id, orientation id, anchor offset.
pub type Rec = (Color, usize, usize, usize);

/// One catalog orientation: encoded cell offsets, bounding width and height.
pub type VarV = (Seq<usize>, int, int);

/// The flag bits a cell contributes to a neighbor's flag.
pub open spec fn flag_contrib(cell: Option<u8>, base: u8) -> u8 {
    match cell {
        Some(c) => (base << (2 * c)) as u8,
        None => 0u8,
    }
}

/// Left fold of the flag contributions of the first `n` listed cells.
pub open spec fn or_fold_n(bd: Seq<Option<u8>>, ns: Seq<int>, base: u8, n: nat) -> u8
    decreases n
{
    if n == 0 {
        0u8
    } else {
        (or_fold_n(bd, ns, base, (n - 1) as nat) | flag_contrib(bd[ns[n - 1]], base)) as u8
    }
}

pub open spec fn or_fold(bd: Seq<Option<u8>>, ns: Seq<int>, base: u8) -> u8 {
    or_fold_n(bd, ns, base, ns.len())
}

/// The legality flag of cell `i` before home bonuses: the occupied sentinel,
/// or the union of BLOCKED bits from cardinal neighbors and CORNER bits from
/// diagonal neighbors.
pub open spec fn base_flag(bd: Seq<Option<u8>>, rows: int, cols: int, i: int) -> u8 {
    if bd[i] is Some {
        OCCUPIED
    } else {
        (or_fold(bd, card_seq(rows, cols, i % cols, i / cols), BLOCKED)
            | or_fold(bd, diag_seq(rows, cols, i % cols, i / cols), CORNER)) as u8
    }
}

pub open spec fn base_flags(bd: Seq<Option<u8>>, rows: int, cols: int) -> Seq<u8> {
    Seq::new((rows * cols) as nat, |i: int| base_flag(bd, rows, cols, i))
}

/// The home bonus: set the CORNER bit for color `c` unless the cell is
/// BLOCKED for `c`.
pub open spec fn bonus(f: u8, c: int) -> u8 {
    if f & ((BLOCKED << ((2 * c) as u8)) as u8) == 0 {
        (f | ((CORNER << ((2 * c) as u8)) as u8)) as u8
    } else {
        f
    }
}

/// Apply the home bonus for colors `0..n` in order.
pub open spec fn with_bonus(flags: Seq<u8>, homes: Seq<usize>, n: nat) -> Seq<u8>
    decreases n
{
    if n == 0 {
        flags
    } else {
        let f = with_bonus(flags, homes, (n - 1) as nat);
        let h = homes[n - 1] as int;
        f.update(h, bonus(f[h], n - 1))
    }
}

/// The full legality flags of a board: base flags plus home bonuses.
pub open spec fn full_flags(bd: Seq<Option<u8>>, homes: Seq<usize>, rows: int, cols: int)
    -> Seq<u8> {
    with_bonus(base_flags(bd, rows, cols), homes, homes.len())
}

/// Write `val` into the first `n` footprint cells `pts[k] + d`.
pub open spec fn write_fp_n(bd: Seq<Option<u8>>, pts: Seq<usize>, d: int, val: Option<u8>,
    n: nat) -> Seq<Option<u8>>
    decreases n
{
    if n == 0 {
        bd
    } else {
        write_fp_n(bd, pts, d, val, (n - 1) as nat).update(pts[n - 1] + d, val)
    }
}

pub open spec fn write_fp(bd: Seq<Option<u8>>, pts: Seq<usize>, d: int, val: Option<u8>)
    -> Seq<Option<u8>> {
    write_fp_n(bd, pts, d, val, pts.len())
}

/// Occupancy after replaying the first `n` records of a history from an
/// empty board.
pub open spec fn replay_n(cat: Seq<Seq<VarV>>, size: int, h: Seq<Rec>, n: nat)
    -> Seq<Option<u8>>
    decreases n
{
    if n == 0 {
        Seq::new(size as nat, |i: int| None::<u8>)
    } else {
        let r = h[n - 1];
        write_fp(replay_n(cat, size, h, (n - 1) as nat), cat[r.1 as int][r.2 as int].0,
            r.3 as int, Some(r.0))
    }
}

/// The position table after the first `n` records of a history.
pub open spec fn pos_of_n(players: int, npieces: int, h: Seq<Rec>, n: nat)
    -> Seq<Seq<Option<(usize, usize)>>>
    decreases n
{
    if n == 0 {
        Seq::new(players as nat, |c: int| Seq::new(npieces as nat,
            |p: int| None::<(usize, usize)>))
    } else {
        let f = pos_of_n(players, npieces, h, (n - 1) as nat);
        let r = h[n - 1];
        f.update(r.0 as int, f[r.0 as int].update(r.1 as int, Some((r.2, r.3))))
    }
}

/// Geometric validity of one record against a catalog and board size, and
/// emptiness of its footprint on the given occupancy.
pub open spec fn rec_ok(cat: Seq<Seq<VarV>>, players: int, rows: int, cols: int,
    occ: Seq<Option<u8>>, r: Rec) -> bool {
    let c = r.0 as int;
    let p = r.1 as int;
    let v = r.2 as int;
    let d = r.3 as int;
    &&& 0 <= c < players
    &&& 0 <= p < cat.len()
    &&& 0 <= v < cat[p].len()
    &&& cat[p][v].1 <= cols
    &&& cat[p][v].2 <= rows
    &&& 0 <= d < rows * cols
    &&& d % cols + cat[p][v].1 <= cols
    &&& d / cols + cat[p][v].2 <= rows
    &&& forall|k: int| 0 <= k < cat[p][v].0.len()
        ==> (#[trigger] cat[p][v].0[k]) + d < rows * cols
            && occ[cat[p][v].0[k] + d] is None
}

/// Every record of the history was legal in its turn.
pub open spec fn hist_sound(cat: Seq<Seq<VarV>>, players: int, rows: int, cols: int,
    h: Seq<Rec>) -> bool {
    forall|n: int| 0 <= n < h.len()
        ==> rec_ok(cat, players, rows, cols,
            replay_n(cat, rows * cols, h, n as nat), #[trigger] h[n])
}

/// No color places the same piece twice.
pub open spec fn hist_unique(h: Seq<Rec>) -> bool {
    forall|j: int, k: int| 0 <= j < k < h.len()
        ==> !((#[trigger] h[j]).0 == (#[trigger] h[k]).0 && h[j].1 == h[k].1)
}

/// Well-formedness of one catalog orientation against the board geometry.
pub open spec fn var_ok(v: VarV, rows: int, cols: int) -> bool {
    &&& v.0.len() >= 1
    &&& 1 <= v.1
    &&& 1 <= v.2
    &&& (v.1 <= cols ==> forall|k: int| 0 <= k < v.0.len()
        ==> ((#[trigger] v.0[k]) as int) % cols < v.1 && (v.0[k] as int) / cols < v.2)
}

/// The enumeration offset with index `k`, scanning the `xr`-wide anchor
/// range left to right, top to bottom.
pub open spec fn offset_at(cols: int, xr: int, k: int) -> int {
    (k % xr) + (k / xr) * cols
}

/// One orientation variant of a piece, with cell offsets encoded for a
/// fixed board width.
pub struct BoardPieceVariation {
    pub points: Vec<usize>,
    pub width: usize,
    pub height: usize,
}

impl BoardPieceVariation {
    /// Encode a normalized shape for a board of width `board_width`.
    pub fn new(points: &Vec<Point>, board_width: usize) -> (r: Self)
        requires
            board_width <= MAX_CELLS,
            coords_in(points@, 0, 126),
        ensures
            r.points@.len() == points@.len(),
            forall|k: int| 0 <= k < points@.len()
                ==> (#[trigger] r.points@[k]) as int
                    == points@[k].0 + points@[k].1 * board_width,
            points@.len() > 0 ==> r.width as int == smax_x(points@) + 1
                && r.height as int == smax_y(points@) + 1,
            points@.len() == 0 ==> r.width == 0 && r.height == 0,
    {
        let mut width: usize = 0;
        let mut height: usize = 0;
        let mut indices: Vec<usize> = Vec::new();
        for k in 0..points.len()
            invariant
                board_width <= MAX_CELLS,
                coords_in(points@, 0, 126),
                indices@.len() == k,
                forall|j: int| 0 <= j < k
                    ==> (#[trigger] indices@[j]) as int
                        == points@[j].0 + points@[j].1 * board_width,
                k > 0 ==> width as int == smax_x(points@.take(k as int)) + 1
                    && height as int == smax_y(points@.take(k as int)) + 1,
                k == 0 ==> width == 0 && height == 0,
                width <= 127 && height <= 127,
        {
            let (x, y) = points[k];
            proof {
                assert(points@.take(k + 1).drop_last() =~= points@.take(k as int));
                assert(points@.take(k + 1).last() == points@[k as int]);
                assert(0 <= (x as int) <= 126 && 0 <= (y as int) <= 126);
                assert((y as int) * (board_width as int) + (x as int) < 0x80000000)
                    by (nonlinear_arith)
                    requires
                        0 <= (x as int) <= 126,
                        0 <= (y as int) <= 126,
                        board_width <= 0xff_ffff,
                ;
            }
            let xu = x as usize;
            let yu = y as usize;
            if xu + 1 > width {
                width = xu + 1;
            }
            if yu + 1 > height {
                height = yu + 1;
            }
            indices.push(xu + yu * board_width);
        }
        proof {
            assert(points@.take(points@.len() as int) =~= points@);
        }
        BoardPieceVariation { points: indices, width, height }
    }

    /// The anchor offsets at which this orientation fits a board of the
    /// given dimensions, in row-major order.
    pub fn translations(&self, board_width: usize, board_height: usize) -> (r: Vec<usize>)
        requires
            1 <= self.width <= board_width,
            1 <= self.height <= board_height,
            board_width * board_height <= MAX_CELLS,
        ensures
            r@.len() == (board_width - self.width + 1) * (board_height - self.height + 1),
            forall|k: int| 0 <= k < r@.len()
                ==> (#[trigger] r@[k]) as int
                    == offset_at(board_width as int, board_width - self.width + 1, k),
    {
        let xr = board_width - self.width + 1;
        let yr = board_height - self.height + 1;
        proof {
            assert((xr as int) * (yr as int) <= (board_width as int) * (board_height as int))
                by (nonlinear_arith)
                requires
                    1 <= (xr as int) <= (board_width as int),
                    1 <= (yr as int) <= (board_height as int),
            ;
        }
        let count = xr * yr;
        let mut r: Vec<usize> = Vec::new();
        for k in 0..count
            invariant
                xr == board_width - self.width + 1,
                yr == board_height - self.height + 1,
                1 <= self.width <= board_width,
                1 <= self.height <= board_height,
                board_width * board_height <= MAX_CELLS,
                count == xr * yr,
                r@.len() == k,
                forall|j: int| 0 <= j < k
                    ==> (#[trigger] r@[j]) as int == offset_at(board_width as int, xr as int, j),
        {
            let x = k % xr;
            let y = k / xr;
            proof {
                assert(y < yr) by (nonlinear_arith)
                    requires
                        k < xr * yr,
                        xr >= 1,
                        y == k as int / xr as int,
                ;
                lemma_cell_bound(y as int, x as int, board_height as int, board_width as int);
            }
            r.push(x + y * board_width);
        }
        r
    }

    /// The absolute cell indices of this orientation anchored at `d`.
    pub fn translation(&self, d: usize) -> (r: Vec<usize>)
        requires
            d <= MAX_CELLS,
            forall|k: int| 0 <= k < self.points@.len() ==> (#[trigger] self.points@[k]) <= MAX_CELLS,
        ensures
            r@.len() == self.points@.len(),
            forall|k: int| 0 <= k < r@.len()
                ==> (#[trigger] r@[k]) as int == self.points@[k] + d,
    {
        let mut r: Vec<usize> = Vec::new();
        for k in 0..self.points.len()
            invariant
                d <= MAX_CELLS,
                forall|j: int| 0 <= j < self.points@.len()
                    ==> (#[trigger] self.points@[j]) <= MAX_CELLS,
                r@.len() == k,
                forall|j: int| 0 <= j < k
                    ==> (#[trigger] r@[j]) as int == self.points@[j] + d,
        {
            r.push(self.points[k] + d);
        }
        r
    }
}

/// The encoded orientations of one catalog entry match the deduplicated
/// orientation list of its shape.
pub open spec fn cat_entry_ok(bv: Seq<BoardPieceVariation>, shape: Seq<Point>, cols: int)
    -> bool {
    let vs = dedup_pcs(sort_pcs(the8(shape)));
    &&& bv.len() == vs.len()
    &&& forall|v: int| 0 <= v < vs.len()
        ==> ((#[trigger] bv[v]).points@.len() == vs[v].len()
            && (forall|k: int| 0 <= k < vs[v].len()
                ==> (#[trigger] bv[v].points@[k]) as int
                    == vs[v][k].0 + vs[v][k].1 * cols)
            && vs[v].len() >= 1
            && bv[v].width as int == smax_x(vs[v]) + 1
            && bv[v].height as int == smax_y(vs[v]) + 1
            && coords_in(vs[v], 0, 126))
}

/// The board: occupancy, legality flags, position table, placement history,
/// piece catalog and home cells.
pub struct Board {
    pieces: Vec<Vec<BoardPieceVariation>>,
    rows: usize,
    cols: usize,
    positions: Vec<Vec<Option<(usize, usize)>>>,
    board: Vec<Option<Color>>,
    flags: Vec<u8>,
    history: Vec<Rec>,
    homes: Vec<usize>,
}

/// The legal moves computed for one color, ready to be placed.
pub struct Moves {
    pub color: Color,
    pub moves: Vec<(usize, usize, usize)>,
}

impl Board {
    /// Cell occupancy.
    pub closed spec fn occ(self) -> Seq<Option<u8>> {
        self.board@
    }

    /// Per-cell legality flags.
    pub closed spec fn flags_seq(self) -> Seq<u8> {
        self.flags@
    }

    /// The placement history, oldest first.
    pub closed spec fn hist(self) -> Seq<Rec> {
        self.history@
    }

    pub closed spec fn homes_seq(self) -> Seq<usize> {
        self.homes@
    }

    pub closed spec fn rows_spec(self) -> int {
        self.rows as int
    }

    pub closed spec fn cols_spec(self) -> int {
        self.cols as int
    }

    pub closed spec fn size_spec(self) -> int {
        self.rows as int * self.cols as int
    }

    /// Number of players (= number of home cells).
    pub closed spec fn players(self) -> int {
        self.positions@.len() as int
    }

    pub closed spec fn n_pieces(self) -> int {
        self.pieces@.len() as int
    }

    /// The catalog: for each piece, its orientations with bounding boxes.
    pub closed spec fn cat(self) -> Seq<Seq<VarV>> {
        Seq::new(self.pieces@.len(), |p: int| Seq::new(self.pieces@[p]@.len(),
            |v: int| (self.pieces@[p]@[v].points@, self.pieces@[p]@[v].width as int,
                self.pieces@[p]@[v].height as int)))
    }

    /// The position table as nested sequences.
    pub closed spec fn pos_view(self) -> Seq<Seq<Option<(usize, usize)>>> {
        Seq::new(self.positions@.len() as nat, |c: int| self.positions@[c]@)
    }

    /// Two boards share dimensions, catalog and home cells.
    pub open spec fn same_config(self, other: Board) -> bool {
        &&& self.cat() == other.cat()
        &&& self.rows_spec() == other.rows_spec()
        &&& self.cols_spec() == other.cols_spec()
        &&& self.homes_seq() == other.homes_seq()
        &&& self.players() == other.players()
    }

    /// Basic size consistency, enough to index cells and walk neighbors.
    pub closed spec fn size_ok(self) -> bool {
        &&& self.board@.len() == self.size_spec()
        &&& self.flags@.len() == self.size_spec()
        &&& self.size_spec() <= MAX_CELLS
        &&& forall|i: int| 0 <= i < self.board@.len()
            ==> ((#[trigger] self.board@[i]) matches Some(c) ==> (c as int) < 4)
    }

    /// Full well-formedness: sizes, catalog geometry, and the canonical tie
    /// between occupancy, flags, position table and history.
    pub closed spec fn wf(self) -> bool {
        &&& self.size_ok()
        &&& self.homes@.len() == self.positions@.len()
        &&& self.positions@.len() <= 4
        &&& forall|c: int| 0 <= c < self.positions@.len()
            ==> (#[trigger] self.positions@[c])@.len() == self.pieces@.len()
        &&& forall|k: int| 0 <= k < self.homes@.len()
            ==> (#[trigger] self.homes@[k]) < self.size_spec()
        &&& forall|p: int, v: int| 0 <= p < self.cat().len()
            && 0 <= v < self.cat()[p].len()
            ==> var_ok(#[trigger] self.cat()[p][v], self.rows_spec(), self.cols_spec())
        &&& forall|i: int| 0 <= i < self.board@.len()
            ==> ((#[trigger] self.board@[i]) matches Some(c) ==> (c as int) < self.players())
        &&& self.flags@ == full_flags(self.board@, self.homes@, self.rows_spec(),
            self.cols_spec())
        &&& self.board@ == replay_n(self.cat(), self.size_spec(), self.history@,
            self.history@.len())
        &&& hist_sound(self.cat(), self.players(), self.rows_spec(), self.cols_spec(),
            self.history@)
        &&& hist_unique(self.history@)
        &&& self.pos_view() == pos_of_n(self.players(), self.n_pieces(), self.history@,
            self.history@.len())
    }

    /// Dimension facts every well-formed board satisfies, for use outside
    /// this module.
    pub proof fn lemma_wf_dims(self)
        requires
            self.wf(),
        ensures
            self.size_ok(),
            self.occ().len() == self.size_spec(),
            self.flags_seq().len() == self.size_spec(),
            0 <= self.size_spec() <= MAX_CELLS,
            0 <= self.players() <= 4,
            self.homes_seq().len() == self.players(),
            self.n_pieces() == self.cat().len(),
            self.pos_view().len() == self.players(),
            forall|c: int| 0 <= c < self.players()
                ==> (#[trigger] self.pos_view()[c]).len() == self.n_pieces(),
            forall|i: int| 0 <= i < self.occ().len()
                ==> ((#[trigger] self.occ()[i]) matches Some(c)
                    ==> (c as int) < self.players()),
            forall|p: int, v: int| 0 <= p < self.cat().len()
                && 0 <= v < self.cat()[p].len()
                ==> var_ok(#[trigger] self.cat()[p][v], self.rows_spec(),
                    self.cols_spec()),
            hist_sound(self.cat(), self.players(), self.rows_spec(), self.cols_spec(),
                self.hist()),
            self.occ() == replay_n(self.cat(), self.size_spec(), self.hist(),
                self.hist().len()),
            self.size_spec() == self.rows_spec() * self.cols_spec(),
    {
    }

    /// Number of players configured on this board.
    pub fn players_count(&self) -> (r: usize)
        ensures
            r as int == self.players(),
    {
        self.positions.len()
    }

    /// Number of cells of the board.
    pub fn size(&self) -> (r: usize)
        requires
            self.size_ok(),
        ensures
            r as int == self.size_spec(),
    {
        self.board.len()
    }

    /// The occupant of cell `i`, if any.
    pub fn at(&self, i: usize) -> (r: Option<Color>)
        requires
            self.size_ok(),
            (i as int) < self.size_spec(),
        ensures
            r == self.occ()[i as int],
    {
        self.board[i]
    }

    /// Walks the in-bounds diagonal neighbors of `position`.
    pub fn diagonal_neighbors(&self, position: usize) -> (it: DiagonalIterator)
        requires
            self.size_ok(),
            (position as int) < self.size_spec(),
        ensures
            it.wf(),
            it.rem() == diag_seq(self.rows_spec(), self.cols_spec(),
                position as int % self.cols_spec(), position as int / self.cols_spec()),
            forall|k: int| 0 <= k < it.rem().len()
                ==> 0 <= #[trigger] it.rem()[k] < self.size_spec(),
    {
        proof {
            assert(self.cols as int >= 1) by (nonlinear_arith)
                requires
                    0 <= (position as int) < (self.rows as int) * (self.cols as int),
            ;
            assert((position as int) / (self.cols as int) < self.rows as int)
                by (nonlinear_arith)
                requires
                    (position as int) < (self.rows as int) * (self.cols as int),
                    self.cols as int >= 1,
            ;
        }
        DiagonalIterator::new(self.rows, self.cols, position % self.cols,
            position / self.cols)
    }

    /// Walks the in-bounds cardinal neighbors of `position`.
    pub fn cardinal_neighbors(&self, position: usize) -> (it: CardinalIterator)
        requires
            self.size_ok(),
            (position as int) < self.size_spec(),
        ensures
            it.wf(),
            it.rem() == card_seq(self.rows_spec(), self.cols_spec(),
                position as int % self.cols_spec(), position as int / self.cols_spec()),
            forall|k: int| 0 <= k < it.rem().len()
                ==> 0 <= #[trigger] it.rem()[k] < self.size_spec(),
    {
        proof {
            assert(self.cols as int >= 1) by (nonlinear_arith)
                requires
                    0 <= (position as int) < (self.rows as int) * (self.cols as int),
            ;
            assert((position as int) / (self.cols as int) < self.rows as int)
                by (nonlinear_arith)
                requires
                    (position as int) < (self.rows as int) * (self.cols as int),
                    self.cols as int >= 1,
            ;
        }
        CardinalIterator::new(self.rows, self.cols, position % self.cols,
            position / self.cols)
    }

    /// Recompute the legality flag of cell `i` from occupancy alone.
    fn compute_flag(&self, i: usize) -> (r: u8)
        requires
            self.size_ok(),
            (i as int) < self.size_spec(),
        ensures
            r == base_flag(self.occ(), self.rows_spec(), self.cols_spec(), i as int),
    {
        match self.board[i] {
            Some(_) => {
                return OCCUPIED;
            },
            None => {},
        }
        let mut flag: u8 = 0;
        let ghost cs = card_seq(self.rows_spec(), self.cols_spec(),
            i as int % self.cols_spec(), i as int / self.cols_spec());
        let mut it = self.cardinal_neighbors(i);
        let ghost mut j: int = 0;
        loop
            invariant
                self.size_ok(),
                it.wf(),
                0 <= j <= cs.len(),
                it.rem() == cs.skip(j),
                forall|k: int| 0 <= k < cs.len() ==> 0 <= #[trigger] cs[k] < self.size_spec(),
                flag == or_fold_n(self.occ(), cs, BLOCKED, j as nat),
            ensures
                flag == or_fold(self.occ(), cs, BLOCKED),
            decreases it.rem().len(),
        {
            match it.next() {
                Some(nb) => {
                    proof {
                        assert(cs.skip(j)[0] == cs[j]);
                        assert(cs.skip(j).drop_first() =~= cs.skip(j + 1));
                    }
                    match self.board[nb] {
                        Some(c) => {
                            proof {
                                assert(2 * c < 8);
                            }
                            flag = flag | (BLOCKED << (2 * c));
                        },
                        None => {
                            proof {
                                assert(flag | 0u8 == flag) by (bit_vector);
                            }
                        },
                    }
                    proof {
                        j = j + 1;
                    }
                },
                None => {
                    proof {
                        assert(cs.skip(j).len() == 0);
                        assert(j == cs.len());
                    }
                    break;
                },
            }
        }
        let ghost ds = diag_seq(self.rows_spec(), self.cols_spec(),
            i as int % self.cols_spec(), i as int / self.cols_spec());
        let ghost cflag = flag;
        proof {
            assert(cflag | 0u8 == cflag) by (bit_vector);
        }
        let mut it2 = self.diagonal_neighbors(i);
        let ghost mut j2: int = 0;
        loop
            invariant
                self.size_ok(),
                it2.wf(),
                0 <= j2 <= ds.len(),
                it2.rem() == ds.skip(j2),
                forall|k: int| 0 <= k < ds.len() ==> 0 <= #[trigger] ds[k] < self.size_spec(),
                cflag == or_fold(self.occ(), cs, BLOCKED),
                flag == (cflag | or_fold_n(self.occ(), ds, CORNER, j2 as nat)) as u8,
            ensures
                flag == (cflag | or_fold(self.occ(), ds, CORNER)) as u8,
            decreases it2.rem().len(),
        {
            match it2.next() {
                Some(nb) => {
                    proof {
                        assert(ds.skip(j2)[0] == ds[j2]);
                        assert(ds.skip(j2).drop_first() =~= ds.skip(j2 + 1));
                    }
                    match self.board[nb] {
                        Some(c) => {
                            proof {
                                assert(2 * c < 8);
                                let a = cflag;
                                let b = or_fold_n(self.occ(), ds, CORNER, j2 as nat);
                                let x = flag_contrib(self.occ()[ds[j2]], CORNER);
                                assert((a | b) | x == a | (b | x)) by (bit_vector);
                            }
                            flag = flag | (CORNER << (2 * c));
                        },
                        None => {
                            proof {
                                assert(flag | 0u8 == flag) by (bit_vector);
                                let a = cflag;
                                let b = or_fold_n(self.occ(), ds, CORNER, j2 as nat);
                                let x = flag_contrib(self.occ()[ds[j2]], CORNER);
                                assert(x == 0);
                                assert((a | b) | 0 == a | (b | 0)) by (bit_vector);
                            }
                        },
                    }
                    proof {
                        j2 = j2 + 1;
                    }
                },
                None => {
                    proof {
                        assert(ds.skip(j2).len() == 0);
                        assert(j2 == ds.len());
                    }
                    break;
                },
            }
        }
        proof {
            assert(cs.skip(0) =~= cs);
            assert(ds.skip(0) =~= ds);
        }
        flag
    }

    /// Apply the home bonus to the flag of each home cell, in color order.
    fn update_home_flags(&mut self)
        requires
            old(self).homes@.len() <= 4,
            forall|k: int| 0 <= k < old(self).homes@.len()
                ==> (#[trigger] old(self).homes@[k]) < old(self).flags@.len(),
        ensures
            final(self).flags@ == with_bonus(old(self).flags@, old(self).homes@,
                old(self).homes@.len()),
            final(self).board == old(self).board,
            final(self).pieces == old(self).pieces,
            final(self).rows == old(self).rows,
            final(self).cols == old(self).cols,
            final(self).positions == old(self).positions,
            final(self).history == old(self).history,
            final(self).homes == old(self).homes,
            final(self).flags@.len() == old(self).flags@.len(),
    {
        let n = self.homes.len();
        for c in 0..n
            invariant
                n == self.homes@.len() <= 4,
                forall|k: int| 0 <= k < self.homes@.len()
                    ==> (#[trigger] self.homes@[k]) < self.flags@.len(),
                self.flags@ == with_bonus(old(self).flags@, self.homes@, c as nat),
                self.board == old(self).board,
                self.pieces == old(self).pieces,
                self.rows == old(self).rows,
                self.cols == old(self).cols,
                self.positions == old(self).positions,
                self.history == old(self).history,
                self.homes == old(self).homes,
                self.flags@.len() == old(self).flags@.len(),
        {
            let h = self.homes[c];
            let f = self.flags[h];
            let cc = c as u8;
            proof {
                assert(2 * cc < 8);
            }
            if f & (BLOCKED << (2 * cc)) == 0 {
                self.flags[h] = f | (CORNER << (2 * cc));
            }
            proof {
                assert(self.flags@ =~= with_bonus(old(self).flags@, self.homes@,
                    (c + 1) as nat));
            }
        }
    }
}

/// Cells outside the footprint keep their value; footprint cells get `val`.
pub proof fn lemma_write_fp_cases(bd: Seq<Option<u8>>, pts: Seq<usize>, d: int,
    val: Option<u8>, n: nat)
    requires
        n <= pts.len(),
        forall|k: int| 0 <= k < n ==> 0 <= (#[trigger] pts[k]) + d < bd.len(),
    ensures
        write_fp_n(bd, pts, d, val, n).len() == bd.len(),
        forall|i: int| 0 <= i < bd.len()
            ==> #[trigger] write_fp_n(bd, pts, d, val, n)[i] == bd[i]
                || write_fp_n(bd, pts, d, val, n)[i] == val,
        forall|i: int| 0 <= i < bd.len()
            && !(exists|k: int| 0 <= k < n && (#[trigger] pts[k]) + d == i)
            ==> #[trigger] write_fp_n(bd, pts, d, val, n)[i] == bd[i],
        forall|k: int| 0 <= k < n && 0 <= pts[k] + d < bd.len()
            ==> #[trigger] write_fp_n(bd, pts, d, val, n)[pts[k] + d] == val,
    decreases n
{
    if n > 0 {
        lemma_write_fp_cases(bd, pts, d, val, (n - 1) as nat);
    }
}

/// On an empty board every flag fold is zero.
proof fn lemma_or_fold_empty(bd: Seq<Option<u8>>, ns: Seq<int>, base: u8, n: nat)
    requires
        n <= ns.len(),
        forall|i: int| 0 <= i < bd.len() ==> (#[trigger] bd[i]) is None,
        forall|k: int| 0 <= k < ns.len() ==> 0 <= #[trigger] ns[k] < bd.len(),
    ensures
        or_fold_n(bd, ns, base, n) == 0,
    decreases n
{
    if n > 0 {
        lemma_or_fold_empty(bd, ns, base, (n - 1) as nat);
        assert(0u8 | 0u8 == 0u8) by (bit_vector);
    }
}

impl Board {
    /// Rewrite the occupancy of one footprint and recompute every cell's
    /// legality flag from scratch, then reapply the home bonuses.
    fn write_piece(&mut self, piece: usize, variation: usize, offset: usize,
        next: Option<Color>)
        requires
            old(self).size_ok(),
            old(self).homes@.len() <= 4,
            forall|k: int| 0 <= k < old(self).homes@.len()
                ==> (#[trigger] old(self).homes@[k]) < old(self).size_spec(),
            (piece as int) < old(self).pieces@.len(),
            (variation as int) < old(self).pieces@[piece as int]@.len(),
            forall|k: int| 0 <= k
                < old(self).cat()[piece as int][variation as int].0.len()
                ==> (#[trigger] old(self).cat()[piece as int][variation as int].0[k])
                    + offset < old(self).size_spec(),
            next matches Some(c) ==> (c as int) < 4,
        ensures
            final(self).board@ == write_fp(old(self).board@,
                old(self).cat()[piece as int][variation as int].0, offset as int, next),
            final(self).flags@ == full_flags(final(self).board@, final(self).homes@,
                final(self).rows_spec(), final(self).cols_spec()),
            final(self).size_ok(),
            final(self).pieces == old(self).pieces,
            final(self).rows == old(self).rows,
            final(self).cols == old(self).cols,
            final(self).positions == old(self).positions,
            final(self).history == old(self).history,
            final(self).homes == old(self).homes,
    {
        let ghost pts = old(self).cat()[piece as int][variation as int].0;
        let npts = self.pieces[piece][variation].points.len();
        proof {
            assert(pts == self.pieces@[piece as int]@[variation as int].points@);
        }
        for k in 0..npts
            invariant
                old(self).size_ok(),
                npts == pts.len(),
                pts == self.pieces@[piece as int]@[variation as int].points@,
                (piece as int) < self.pieces@.len(),
                (variation as int) < self.pieces@[piece as int]@.len(),
                forall|j: int| 0 <= j < pts.len()
                    ==> (#[trigger] pts[j]) + offset < old(self).size_spec(),
                self.board@ == write_fp_n(old(self).board@, pts, offset as int, next,
                    k as nat),
                self.board@.len() == old(self).board@.len(),
                self.pieces == old(self).pieces,
                self.rows == old(self).rows,
                self.cols == old(self).cols,
                self.positions == old(self).positions,
                self.history == old(self).history,
                self.homes == old(self).homes,
                self.flags == old(self).flags,
        {
            let idx = self.pieces[piece][variation].points[k] + offset;
            self.board[idx] = next;
            proof {
                assert(self.board@ =~= write_fp_n(old(self).board@, pts, offset as int,
                    next, (k + 1) as nat));
            }
        }
        proof {
            lemma_write_fp_cases(old(self).board@, pts, offset as int, next, pts.len());
            assert(self.size_ok());
        }
        let size = self.board.len();
        let ghost bd = self.board@;
        for i in 0..size
            invariant
                size as int == self.size_spec(),
                self.size_ok(),
                bd == self.board@,
                forall|j: int| 0 <= j < i
                    ==> (#[trigger] self.flags@[j]) == base_flag(bd, self.rows_spec(),
                        self.cols_spec(), j),
                self.pieces == old(self).pieces,
                self.rows == old(self).rows,
                self.cols == old(self).cols,
                self.positions == old(self).positions,
                self.history == old(self).history,
                self.homes == old(self).homes,
                self.board@.len() == old(self).board@.len(),
                self.board@ == write_fp(old(self).board@, pts, offset as int, next),
        {
            let f = self.compute_flag(i);
            self.flags[i] = f;
        }
        proof {
            assert(self.flags@ =~= base_flags(self.board@, self.rows_spec(),
                self.cols_spec()));
            assert(forall|k: int| 0 <= k < self.homes@.len()
                ==> (#[trigger] self.homes@[k]) < self.flags@.len());
        }
        self.update_home_flags();
    }

    /// Create a board with the given piece catalog, dimensions and home
    /// cells; no piece is placed and each home cell carries its color's
    /// CORNER bonus.
    #[verifier::rlimit(60)]
    pub fn new(pieces: Vec<Piece>, rows: usize, cols: usize, home_points: &Vec<Point>)
        -> (b: Board)
        requires
            rows * cols <= MAX_CELLS,
            cols <= MAX_CELLS,
            home_points@.len() <= 4,
            forall|k: int| 0 <= k < home_points@.len()
                ==> 0 <= (#[trigger] home_points@[k]).0 < cols
                    && 0 <= home_points@[k].1 < rows,
            forall|p: int| 0 <= p < pieces@.len()
                ==> (#[trigger] pieces@[p]).points@.len() >= 1
                    && coords_in(pieces@[p].points@, 0, COORD_LIMIT as int),
        ensures
            b.wf(),
            b.hist().len() == 0,
            b.rows_spec() == rows,
            b.cols_spec() == cols,
            b.players() == home_points@.len(),
            b.n_pieces() == pieces@.len(),
            b.occ() == Seq::new((rows * cols) as nat, |i: int| None::<u8>),
            b.homes_seq().len() == home_points@.len(),
            forall|k: int| 0 <= k < home_points@.len()
                ==> (#[trigger] b.homes_seq()[k]) as int
                    == home_points@[k].0 + home_points@[k].1 * cols,
            forall|p: int| 0 <= p < pieces@.len() ==> {
                let vs = dedup_pcs(sort_pcs(the8(pieces@[p].points@)));
                (#[trigger] b.cat()[p]).len() == vs.len()
                    && forall|v: int| 0 <= v < vs.len()
                        ==> (#[trigger] b.cat()[p][v]).0.len() == vs[v].len()
                            && forall|k: int| 0 <= k < vs[v].len()
                                ==> (#[trigger] b.cat()[p][v].0[k]) as int
                                    == vs[v][k].0 + vs[v][k].1 * cols
            },
    {
        let mut homes: Vec<usize> = Vec::new();
        for k in 0..home_points.len()
            invariant
                rows * cols <= MAX_CELLS,
                forall|j: int| 0 <= j < home_points@.len()
                    ==> 0 <= (#[trigger] home_points@[j]).0 < cols
                        && 0 <= home_points@[j].1 < rows,
                homes@.len() == k,
                forall|j: int| 0 <= j < k
                    ==> (#[trigger] homes@[j]) as int
                        == home_points@[j].0 + home_points@[j].1 * cols
                        && homes@[j] < rows * cols,
        {
            let (x, y) = home_points[k];
            proof {
                lemma_cell_bound(y as int, x as int, rows as int, cols as int);
            }
            homes.push(x as usize + y as usize * cols);
        }
        let mut cat: Vec<Vec<BoardPieceVariation>> = Vec::new();
        for p in 0..pieces.len()
            invariant
                rows * cols <= MAX_CELLS,
                cols <= MAX_CELLS,
                forall|q: int| 0 <= q < pieces@.len()
                    ==> (#[trigger] pieces@[q]).points@.len() >= 1
                        && coords_in(pieces@[q].points@, 0, COORD_LIMIT as int),
                cat@.len() == p,
                forall|q: int| 0 <= q < p
                    ==> cat_entry_ok((#[trigger] cat@[q])@, pieces@[q].points@, cols as int),
        {
            let vars = pieces[p].variations();
            let ghost shape = pieces@[p as int].points@;
            let ghost vs = dedup_pcs(sort_pcs(the8(shape)));
            proof {
                lemma_variations_shape(shape, COORD_LIMIT as int);
                assert(crate::pieces::pcs_view(vars@) == vs);
            }
            let mut bvars: Vec<BoardPieceVariation> = Vec::new();
            for v in 0..vars.len()
                invariant
                    rows * cols <= MAX_CELLS,
                    cols <= MAX_CELLS,
                    vs == dedup_pcs(sort_pcs(the8(shape))),
                    crate::pieces::pcs_view(vars@) == vs,
                    vars@.len() == vs.len(),
                    forall|j: int| 0 <= j < vs.len()
                        ==> (#[trigger] vs[j]).len() == shape.len()
                            && coords_in(vs[j], 0, 126),
                    shape.len() >= 1,
                    bvars@.len() == v,
                    forall|j: int| 0 <= j < v
                        ==> ((#[trigger] bvars@[j]).points@.len() == vs[j].len()
                            && (forall|k: int| 0 <= k < vs[j].len()
                                ==> (#[trigger] bvars@[j].points@[k]) as int
                                    == vs[j][k].0 + vs[j][k].1 * cols)
                            && bvars@[j].width as int == smax_x(vs[j]) + 1
                            && bvars@[j].height as int == smax_y(vs[j]) + 1),
            {
                proof {
                    assert(crate::pieces::pcs_view(vars@)[v as int]
                        == vars@[v as int].points@);
                }
                let bv = BoardPieceVariation::new(&vars[v].points, cols);
                bvars.push(bv);
            }
            proof {
                assert(cat_entry_ok(bvars@, shape, cols as int));
            }
            cat.push(bvars);
            proof {
                assert forall|q: int| 0 <= q < p + 1
                    implies cat_entry_ok((#[trigger] cat@[q])@, pieces@[q].points@,
                        cols as int) by {
                    if q == p {
                        assert(cat@[q]@ == bvars@);
                    }
                }
            }
        }
        let mut positions: Vec<Vec<Option<(usize, usize)>>> = Vec::new();
        let nh = homes.len();
        let np = pieces.len();
        for c in 0..nh
            invariant
                positions@.len() == c,
                forall|j: int| 0 <= j < c
                    ==> (#[trigger] positions@[j])@
                        =~= Seq::new(np as nat, |p: int| None::<(usize, usize)>),
        {
            let mut row: Vec<Option<(usize, usize)>> = Vec::new();
            for p in 0..np
                invariant
                    row@.len() == p,
                    forall|j: int| 0 <= j < p ==> (#[trigger] row@[j]) is None,
            {
                row.push(None);
            }
            proof {
                assert(row@ =~= Seq::new(np as nat, |p: int| None::<(usize, usize)>));
            }
            positions.push(row);
        }
        let mut board: Vec<Option<Color>> = Vec::new();
        let size = rows * cols;
        for i in 0..size
            invariant
                board@.len() == i,
                forall|j: int| 0 <= j < i ==> (#[trigger] board@[j]) is None,
        {
            board.push(None);
        }
        let mut flags: Vec<u8> = Vec::new();
        for i in 0..size
            invariant
                flags@.len() == i,
                forall|j: int| 0 <= j < i ==> (#[trigger] flags@[j]) == 0u8,
        {
            flags.push(0);
        }
        let mut res = Board {
            pieces: cat,
            rows,
            cols,
            positions,
            board,
            flags,
            history: Vec::new(),
            homes,
        };
        proof {
            assert(res.board@ =~= Seq::new((rows * cols) as nat, |i: int| None::<u8>));
            assert forall|i: int| 0 <= i < res.board@.len()
                implies (#[trigger] res.flags@[i]) == base_flag(res.board@,
                    res.rows_spec(), res.cols_spec(), i) by {
                assert(res.board@[i] is None);
                assert(res.cols as int >= 1) by (nonlinear_arith)
                    requires
                        0 <= i < (res.rows as int) * (res.cols as int),
                ;
                assert((i / (res.cols as int)) < res.rows as int) by (nonlinear_arith)
                    requires
                        0 <= i < (res.rows as int) * (res.cols as int),
                        res.cols as int >= 1,
                ;
                crate::neighbors::lemma_card_slots_bounds(res.rows_spec(), res.cols_spec(),
                    i % res.cols_spec(), i / res.cols_spec(), 0);
                crate::neighbors::lemma_diag_slots_bounds(res.rows_spec(), res.cols_spec(),
                    i % res.cols_spec(), i / res.cols_spec(), 0);
                let csq = card_seq(res.rows_spec(), res.cols_spec(), i % res.cols_spec(),
                    i / res.cols_spec());
                let dsq = diag_seq(res.rows_spec(), res.cols_spec(), i % res.cols_spec(),
                    i / res.cols_spec());
                lemma_or_fold_empty(res.board@, csq, BLOCKED, csq.len());
                lemma_or_fold_empty(res.board@, dsq, CORNER, dsq.len());
                assert(0u8 | 0u8 == 0u8) by (bit_vector);
            }
            assert(res.flags@ =~= base_flags(res.board@, res.rows_spec(), res.cols_spec()));
        }
        res.update_home_flags();
        proof {
            assert(res.board@ == replay_n(res.cat(), res.size_spec(), res.history@, 0));
            assert(res.pos_view() =~= pos_of_n(res.players(), res.n_pieces(),
                res.history@, 0)) by {
                assert forall|c: int| 0 <= c < res.positions@.len()
                    implies #[trigger] res.pos_view()[c] == pos_of_n(res.players(),
                        res.n_pieces(), res.history@, 0)[c] by {
                    assert(res.pos_view()[c] =~= pos_of_n(res.players(), res.n_pieces(),
                        res.history@, 0)[c]);
                }
            }
            assert forall|p: int, v: int| 0 <= p < res.cat().len()
                && 0 <= v < res.cat()[p].len()
                implies var_ok(#[trigger] res.cat()[p][v], res.rows_spec(),
                    res.cols_spec()) by {
                let vs = dedup_pcs(sort_pcs(the8(pieces@[p].points@)));
                assert(cat_entry_ok(res.pieces@[p]@, pieces@[p].points@, cols as int));
                let w = res.cat()[p][v].1;
                let h = res.cat()[p][v].2;
                let pts = res.cat()[p][v].0;
                assert(pts == res.pieces@[p]@[v].points@);
                assert(vs[v].len() >= 1 && coords_in(vs[v], 0, 126));
                crate::pieces::lemma_bounds_sminmax(vs[v], 0, 126);
                assert(w == smax_x(vs[v]) + 1 && h == smax_y(vs[v]) + 1);
                if w <= res.cols_spec() {
                    assert forall|k: int| 0 <= k < pts.len()
                        implies ((#[trigger] pts[k]) as int) % res.cols_spec() < w
                            && (pts[k] as int) / res.cols_spec() < h by {
                        let x = vs[v][k].0 as int;
                        let y = vs[v][k].1 as int;
                        assert(pts[k] as int == x + y * res.cols_spec());
                        crate::pieces::lemma_sminmax(vs[v]);
                        assert(0 <= x <= smax_x(vs[v]));
                        assert(0 <= y <= smax_y(vs[v]));
                        lemma_fundamental_div_mod_converse_div(pts[k] as int,
                            res.cols_spec(), y, x);
                        lemma_fundamental_div_mod_converse_mod(pts[k] as int,
                            res.cols_spec(), y, x);
                    }
                }
            }
            assert(res.wf());
            assert forall|p: int| 0 <= p < pieces@.len() implies {
                let vs = dedup_pcs(sort_pcs(the8(pieces@[p].points@)));
                (#[trigger] res.cat()[p]).len() == vs.len()
                    && forall|v: int| 0 <= v < vs.len()
                        ==> (#[trigger] res.cat()[p][v]).0.len() == vs[v].len()
                            && forall|k: int| 0 <= k < vs[v].len()
                                ==> (#[trigger] res.cat()[p][v].0[k]) as int
                                    == vs[v][k].0 + vs[v][k].1 * cols
            } by {
                assert(cat_entry_ok(res.pieces@[p]@, pieces@[p].points@, cols as int));
            }
        }
        res
    }
}

/// Left fold of the flags of the first `n` footprint cells.
pub open spec fn flag_union_n(flags: Seq<u8>, pts: Seq<usize>, d: int, n: nat) -> u8
    decreases n
{
    if n == 0 {
        0u8
    } else {
        (flag_union_n(flags, pts, d, (n - 1) as nat) | flags[pts[n - 1] + d]) as u8
    }
}

pub open spec fn flag_union(flags: Seq<u8>, pts: Seq<usize>, d: int) -> u8 {
    flag_union_n(flags, pts, d, pts.len())
}

/// Each folded flag is covered by the union.
proof fn lemma_flag_union_covers(flags: Seq<u8>, pts: Seq<usize>, d: int, k: int, n: nat)
    requires
        0 <= k < n <= pts.len(),
    ensures
        flags[pts[k] + d] | flag_union_n(flags, pts, d, n) == flag_union_n(flags, pts, d, n),
    decreases n
{
    let x = flags[pts[k] + d];
    if k == n - 1 {
        let a = flag_union_n(flags, pts, d, (n - 1) as nat);
        assert(x | (a | x) == a | x) by (bit_vector);
    } else {
        lemma_flag_union_covers(flags, pts, d, k, (n - 1) as nat);
        let a = flag_union_n(flags, pts, d, (n - 1) as nat);
        let b = flags[pts[n - 1] + d];
        assert(x | a == a ==> x | (a | b) == a | b) by (bit_vector);
    }
}

/// A bit set in the union comes from some folded flag.
proof fn lemma_flag_union_origin(flags: Seq<u8>, pts: Seq<usize>, d: int, m: u8, n: nat)
    requires
        n <= pts.len(),
        flag_union_n(flags, pts, d, n) & m != 0,
    ensures
        exists|k: int| 0 <= k < n && (#[trigger] flags[pts[k] + d]) & m != 0,
    decreases n
{
    if n > 0 {
        let a = flag_union_n(flags, pts, d, (n - 1) as nat);
        let b = flags[pts[n - 1] + d];
        if b & m != 0 {
            assert(flags[pts[n - 1] + d] & m != 0);
        } else {
            assert((a | b) & m != 0 && b & m == 0 ==> a & m != 0) by (bit_vector);
            lemma_flag_union_origin(flags, pts, d, m, (n - 1) as nat);
        }
    } else {
        assert(!(0u8 & m != 0)) by (bit_vector);
    }
}

/// Home bonuses never change a BLOCKED bit.
proof fn lemma_with_bonus_blocked(f: Seq<u8>, homes: Seq<usize>, n: nat, i: int, c: u8)
    requires
        c < 4,
        n <= homes.len(),
        homes.len() <= 4,
        0 <= i < f.len(),
        forall|k: int| 0 <= k < homes.len() ==> (#[trigger] homes[k]) < f.len(),
    ensures
        with_bonus(f, homes, n).len() == f.len(),
        with_bonus(f, homes, n)[i] & ((BLOCKED << (2 * c)) as u8)
            == f[i] & ((BLOCKED << (2 * c)) as u8),
    decreases n
{
    if n > 0 {
        lemma_with_bonus_blocked(f, homes, (n - 1) as nat, i, c);
        let g = with_bonus(f, homes, (n - 1) as nat);
        let h = homes[n - 1] as int;
        if h == i {
            let cc = (n - 1) as u8;
            assert(cc < 4);
            let a = g[i];
            assert((a | ((CORNER << (2 * cc)) as u8)) & ((BLOCKED << (2 * c)) as u8)
                == a & ((BLOCKED << (2 * c)) as u8)) by (bit_vector)
                requires
                    cc < 4,
                    c < 4,
            ;
        }
    }
}

/// A CORNER bit present after the bonuses was in the base flags or is the
/// bonus of that very color's home cell.
proof fn lemma_with_bonus_corner(f: Seq<u8>, homes: Seq<usize>, n: nat, i: int, c: u8)
    requires
        c < 4,
        n <= homes.len(),
        homes.len() <= 4,
        0 <= i < f.len(),
        forall|k: int| 0 <= k < homes.len() ==> (#[trigger] homes[k]) < f.len(),
        with_bonus(f, homes, n)[i] & ((CORNER << (2 * c)) as u8) != 0,
    ensures
        f[i] & ((CORNER << (2 * c)) as u8) != 0
            || ((c as int) < n && homes[c as int] == i),
    decreases n
{
    if n == 0 {
    } else {
        let g = with_bonus(f, homes, (n - 1) as nat);
        let h = homes[n - 1] as int;
        lemma_with_bonus_blocked(f, homes, (n - 1) as nat, i, c);
        if h == i {
            let cc = (n - 1) as u8;
            let a = g[i];
            if with_bonus(f, homes, n)[i] == a {
                lemma_with_bonus_corner(f, homes, (n - 1) as nat, i, c);
            } else {
                assert((a | ((CORNER << (2 * cc)) as u8)) & ((CORNER << (2 * c)) as u8) != 0
                    ==> a & ((CORNER << (2 * c)) as u8) != 0 || c == cc) by (bit_vector)
                    requires
                        cc < 4,
                        c < 4,
                ;
                if g[i] & ((CORNER << (2 * c)) as u8) != 0 {
                    lemma_with_bonus_corner(f, homes, (n - 1) as nat, i, c);
                } else {
                    assert(c == cc);
                    assert(homes[c as int] == i);
                }
            }
        } else {
            lemma_with_bonus_corner(f, homes, (n - 1) as nat, i, c);
        }
    }
}

/// Replay and position folds depend only on the records they read.
proof fn lemma_replay_prefix(cat: Seq<Seq<VarV>>, size: int, h1: Seq<Rec>, h2: Seq<Rec>,
    n: nat)
    requires
        n <= h1.len(),
        n <= h2.len(),
        forall|k: int| 0 <= k < n ==> #[trigger] h1[k] == h2[k],
    ensures
        replay_n(cat, size, h1, n) == replay_n(cat, size, h2, n),
    decreases n
{
    if n > 0 {
        lemma_replay_prefix(cat, size, h1, h2, (n - 1) as nat);
    }
}

proof fn lemma_pos_prefix(players: int, npieces: int, h1: Seq<Rec>, h2: Seq<Rec>, n: nat)
    requires
        n <= h1.len(),
        n <= h2.len(),
        forall|k: int| 0 <= k < n ==> #[trigger] h1[k] == h2[k],
    ensures
        pos_of_n(players, npieces, h1, n) == pos_of_n(players, npieces, h2, n),
    decreases n
{
    if n > 0 {
        lemma_pos_prefix(players, npieces, h1, h2, (n - 1) as nat);
    }
}

/// The position table entry of `(c, p)` is empty exactly when no record of
/// the first `n` places piece `p` for color `c`.
proof fn lemma_pos_of_none_iff(players: int, npieces: int, h: Seq<Rec>, n: nat, c: int,
    p: int)
    requires
        0 <= c < players,
        0 <= p < npieces,
        n <= h.len(),
        forall|k: int| 0 <= k < h.len()
            ==> (((#[trigger] h[k]).0 as int) < players && ((h[k].1 as int) < npieces)),
    ensures
        pos_of_n(players, npieces, h, n)[c].len() == npieces,
        pos_of_n(players, npieces, h, n).len() == players,
        (pos_of_n(players, npieces, h, n)[c][p] is None)
            <==> (forall|k: int| 0 <= k < n
                ==> !((#[trigger] h[k]).0 as int == c && h[k].1 as int == p)),
    decreases n
{
    if n > 0 {
        lemma_pos_of_none_iff(players, npieces, h, (n - 1) as nat, c, p);
        let g = pos_of_n(players, npieces, h, (n - 1) as nat);
        let r = h[n - 1];
        if r.0 as int == c && r.1 as int == p {
            assert(pos_of_n(players, npieces, h, n)[c][p] == Some((r.2, r.3)));
        }
    }
}

/// Geometric fit of an orientation at an anchor offset.
pub open spec fn fits(b: Board, p: int, v: int, d: int) -> bool {
    let w = b.cat()[p][v].1;
    let h = b.cat()[p][v].2;
    &&& w <= b.cols_spec()
    &&& h <= b.rows_spec()
    &&& 0 <= d < b.size_spec()
    &&& d % b.cols_spec() + w <= b.cols_spec()
    &&& d / b.cols_spec() + h <= b.rows_spec()
}

/// Every footprint cell of a fitting placement is a valid cell index.
pub proof fn lemma_footprint_cell(b: Board, p: int, v: int, d: int, k: int)
    requires
        0 <= p < b.cat().len(),
        0 <= v < b.cat()[p].len(),
        var_ok(b.cat()[p][v], b.rows_spec(), b.cols_spec()),
        fits(b, p, v, d),
        0 <= k < b.cat()[p][v].0.len(),
    ensures
        0 <= b.cat()[p][v].0[k] + d < b.size_spec(),
        b.cat()[p][v].0[k] + d
            == (b.cat()[p][v].0[k] as int % b.cols_spec() + d % b.cols_spec())
                + (b.cat()[p][v].0[k] as int / b.cols_spec() + d / b.cols_spec())
                    * b.cols_spec(),
{
    let cols = b.cols_spec();
    let rows = b.rows_spec();
    let pt = b.cat()[p][v].0[k] as int;
    let w = b.cat()[p][v].1;
    let h = b.cat()[p][v].2;
    assert(cols >= 1);
    let px = pt % cols;
    let py = pt / cols;
    let dx = d % cols;
    let dy = d / cols;
    lemma_fundamental_div_mod(pt, cols);
    lemma_fundamental_div_mod(d, cols);
    assert(px < w && py < h);
    assert(0 <= px && 0 <= py && 0 <= dx && 0 <= dy) by (nonlinear_arith)
        requires
            cols >= 1,
            0 <= pt,
            0 <= d,
            px == pt % cols,
            py == pt / cols,
            dx == d % cols,
            dy == d / cols,
    ;
    assert(pt + d == (px + dx) + (py + dy) * cols) by (nonlinear_arith)
        requires
            pt == cols * py + px,
            d == cols * dy + dx,
    ;
    lemma_cell_bound(py + dy, px + dx, rows, cols);
}

impl Board {
    /// The flag test that admits a placement: over the footprint's flag
    /// union, the color's CORNER bit is set and its BLOCKED bit is clear.
    pub open spec fn placement_legal(self, c: int, p: int, v: int, d: int) -> bool {
        flag_union(self.flags_seq(), self.cat()[p][v].0, d)
            & ((((CORNER | BLOCKED) as u8) << ((2 * c) as u8)) as u8)
            == ((CORNER << ((2 * c) as u8)) as u8)
    }

    /// Anchor range width of orientation `v` of piece `p`, zero if it does
    /// not fit.
    pub open spec fn xr_spec(self, p: int, v: int) -> int {
        if self.cat()[p][v].1 <= self.cols_spec() {
            self.cols_spec() - self.cat()[p][v].1 + 1
        } else {
            0
        }
    }

    pub open spec fn yr_spec(self, p: int, v: int) -> int {
        if self.cat()[p][v].2 <= self.rows_spec() {
            self.rows_spec() - self.cat()[p][v].2 + 1
        } else {
            0
        }
    }

    /// The legal moves of orientation `v` of piece `p` among the first `n`
    /// anchor offsets, in scan order.
    pub open spec fn moves_k(self, c: int, p: int, v: int, n: nat)
        -> Seq<(usize, usize, usize)>
        decreases n
    {
        if n == 0 {
            Seq::empty()
        } else {
            let d = offset_at(self.cols_spec(), self.xr_spec(p, v), n - 1);
            self.moves_k(c, p, v, (n - 1) as nat)
                + if self.placement_legal(c, p, v, d) {
                    seq![(p as usize, v as usize, d as usize)]
                } else {
                    Seq::empty()
                }
        }
    }

    /// The legal moves of the first `m` orientations of piece `p`.
    pub open spec fn moves_v(self, c: int, p: int, m: nat) -> Seq<(usize, usize, usize)>
        decreases m
    {
        if m == 0 {
            Seq::empty()
        } else {
            self.moves_v(c, p, (m - 1) as nat)
                + self.moves_k(c, p, m - 1,
                    (self.xr_spec(p, m - 1) * self.yr_spec(p, m - 1)) as nat)
        }
    }

    /// The legal moves of the first `n` pieces, skipping placed pieces.
    pub open spec fn moves_p(self, c: int, n: nat) -> Seq<(usize, usize, usize)>
        decreases n
    {
        if n == 0 {
            Seq::empty()
        } else {
            self.moves_p(c, (n - 1) as nat)
                + if self.pos_view()[c][n - 1] is None {
                    self.moves_v(c, n - 1, self.cat()[n - 1].len())
                } else {
                    Seq::empty()
                }
        }
    }

    /// The full deterministic legal-move list for a color: by piece id, then
    /// orientation id, then anchor offset in scan order.
    pub open spec fn moves_spec(self, c: int) -> Seq<(usize, usize, usize)> {
        self.moves_p(c, self.n_pieces() as nat)
    }

    /// Every listed move names an unplaced piece, a real orientation, a
    /// fitting anchor, and passes the flag test.
    pub proof fn lemma_moves_k_elems(self, c: int, p: int, v: int, n: nat)
        requires
            0 <= p < self.cat().len(),
            0 <= v < self.cat()[p].len(),
            var_ok(self.cat()[p][v], self.rows_spec(), self.cols_spec()),
            n <= self.xr_spec(p, v) * self.yr_spec(p, v),
            self.size_spec() <= MAX_CELLS,
        ensures
            forall|i: int| 0 <= i < self.moves_k(c, p, v, n).len()
                ==> (#[trigger] self.moves_k(c, p, v, n)[i]).0 as int == p
                    && self.moves_k(c, p, v, n)[i].1 as int == v
                    && fits(self, p, v, self.moves_k(c, p, v, n)[i].2 as int)
                    && self.placement_legal(c, p, v, self.moves_k(c, p, v, n)[i].2 as int),
        decreases n
    {
        if n > 0 {
            self.lemma_moves_k_elems(c, p, v, (n - 1) as nat);
            vstd::std_specs::vec::axiom_spec_len(&self.pieces);
            vstd::std_specs::vec::axiom_spec_len(&self.pieces@[p]);
            let xr = self.xr_spec(p, v);
            let yr = self.yr_spec(p, v);
            let d = offset_at(self.cols_spec(), xr, n - 1);
            let s = self.moves_k(c, p, v, n);
            let pre = self.moves_k(c, p, v, (n - 1) as nat);
            if self.placement_legal(c, p, v, d) {
                assert(xr >= 1 && yr >= 1) by (nonlinear_arith)
                    requires
                        0 < n <= xr * yr,
                        xr >= 0,
                ;
                let j = n - 1;
                let x = j % xr;
                let y = j / xr;
                assert(0 <= x < xr && 0 <= y < yr) by (nonlinear_arith)
                    requires
                        0 <= j < xr * yr,
                        xr >= 1,
                        x == j % xr,
                        y == j / xr,
                ;
                let cols = self.cols_spec();
                let rows = self.rows_spec();
                let w = self.cat()[p][v].1;
                let h = self.cat()[p][v].2;
                assert(d == x + y * cols);
                lemma_cell_bound(y, x, rows, cols);
                lemma_fundamental_div_mod_converse_div(d, cols, y, x);
                lemma_fundamental_div_mod_converse_mod(d, cols, y, x);
                assert(d % cols + w <= cols);
                assert(d / cols + h <= rows);
                assert(fits(self, p, v, d));
                assert((d as usize) as int == d);
            }
            assert forall|i: int| 0 <= i < s.len()
                implies (#[trigger] s[i]).0 as int == p
                    && s[i].1 as int == v
                    && fits(self, p, v, s[i].2 as int)
                    && self.placement_legal(c, p, v, s[i].2 as int) by {
                if i < pre.len() {
                    assert(s[i] == pre[i]);
                } else {
                    assert(s[i] == (p as usize, v as usize, d as usize));
                }
            }
        }
    }

    pub proof fn lemma_moves_v_elems(self, c: int, p: int, m: nat)
        requires
            0 <= p < self.cat().len(),
            m <= self.cat()[p].len(),
            self.size_spec() <= MAX_CELLS,
            forall|v: int| 0 <= v < self.cat()[p].len()
                ==> var_ok(#[trigger] self.cat()[p][v], self.rows_spec(), self.cols_spec()),
        ensures
            forall|i: int| 0 <= i < self.moves_v(c, p, m).len()
                ==> (#[trigger] self.moves_v(c, p, m)[i]).0 as int == p
                    && (self.moves_v(c, p, m)[i].1 as int) < m
                    && fits(self, p, self.moves_v(c, p, m)[i].1 as int,
                        self.moves_v(c, p, m)[i].2 as int)
                    && self.placement_legal(c, p, self.moves_v(c, p, m)[i].1 as int,
                        self.moves_v(c, p, m)[i].2 as int),
        decreases m
    {
        if m > 0 {
            self.lemma_moves_v_elems(c, p, (m - 1) as nat);
            assert(self.xr_spec(p, m - 1) * self.yr_spec(p, m - 1) >= 0) by (nonlinear_arith)
                requires
                    self.xr_spec(p, m - 1) >= 0 && self.yr_spec(p, m - 1) >= 0,
            ;
            self.lemma_moves_k_elems(c, p, m - 1,
                (self.xr_spec(p, m - 1) * self.yr_spec(p, m - 1)) as nat);
            let s = self.moves_v(c, p, m);
            let pre = self.moves_v(c, p, (m - 1) as nat);
            let tail = self.moves_k(c, p, m - 1,
                (self.xr_spec(p, m - 1) * self.yr_spec(p, m - 1)) as nat);
            assert forall|i: int| 0 <= i < s.len()
                implies (#[trigger] s[i]).0 as int == p
                    && (s[i].1 as int) < m
                    && fits(self, p, s[i].1 as int, s[i].2 as int)
                    && self.placement_legal(c, p, s[i].1 as int, s[i].2 as int) by {
                if i < pre.len() {
                    assert(s[i] == pre[i]);
                } else {
                    assert(s[i] == tail[i - pre.len()]);
                }
            }
        }
    }

    pub proof fn lemma_moves_elems(self, c: int, n: nat)
        requires
            n <= self.cat().len(),
            self.size_spec() <= MAX_CELLS,
            forall|p: int, v: int| 0 <= p < self.cat().len() && 0 <= v < self.cat()[p].len()
                ==> var_ok(#[trigger] self.cat()[p][v], self.rows_spec(), self.cols_spec()),
            0 <= c < self.pos_view().len(),
            forall|p: int| 0 <= p < self.pos_view().len()
                ==> (#[trigger] self.pos_view()[p]).len() == self.cat().len(),
        ensures
            forall|i: int| 0 <= i < self.moves_p(c, n).len()
                ==> ((#[trigger] self.moves_p(c, n)[i]).0 as int) < n
                    && self.pos_view()[c][self.moves_p(c, n)[i].0 as int] is None
                    && (self.moves_p(c, n)[i].1 as int)
                        < self.cat()[self.moves_p(c, n)[i].0 as int].len()
                    && fits(self, self.moves_p(c, n)[i].0 as int,
                        self.moves_p(c, n)[i].1 as int, self.moves_p(c, n)[i].2 as int)
                    && self.placement_legal(c, self.moves_p(c, n)[i].0 as int,
                        self.moves_p(c, n)[i].1 as int, self.moves_p(c, n)[i].2 as int),
        decreases n
    {
        if n > 0 {
            self.lemma_moves_elems(c, (n - 1) as nat);
            let s = self.moves_p(c, n);
            let pre = self.moves_p(c, (n - 1) as nat);
            if self.pos_view()[c][n - 1] is None {
                self.lemma_moves_v_elems(c, n - 1, self.cat()[n - 1].len());
                let tail = self.moves_v(c, n - 1, self.cat()[n - 1].len());
                assert forall|i: int| 0 <= i < s.len()
                    implies ((#[trigger] s[i]).0 as int) < n
                        && self.pos_view()[c][s[i].0 as int] is None
                        && (s[i].1 as int) < self.cat()[s[i].0 as int].len()
                        && fits(self, s[i].0 as int, s[i].1 as int, s[i].2 as int)
                        && self.placement_legal(c, s[i].0 as int, s[i].1 as int,
                            s[i].2 as int) by {
                    if i < pre.len() {
                        assert(s[i] == pre[i]);
                    } else {
                        assert(s[i] == tail[i - pre.len()]);
                    }
                }
            } else {
                assert(s =~= pre);
            }
        }
    }

    /// Legality soundness: a placement that passes the flag test covers only
    /// empty, in-bounds cells.
    pub proof fn lemma_legal_footprint_empty(self, c: int, p: int, v: int, d: int)
        requires
            self.wf(),
            0 <= c < self.players(),
            0 <= p < self.cat().len(),
            0 <= v < self.cat()[p].len(),
            fits(self, p, v, d),
            self.placement_legal(c, p, v, d),
        ensures
            forall|k: int| 0 <= k < self.cat()[p][v].0.len()
                ==> 0 <= (#[trigger] self.cat()[p][v].0[k]) + d < self.size_spec()
                    && self.occ()[self.cat()[p][v].0[k] + d] is None,
    {
        let pts = self.cat()[p][v].0;
        let cc = c as u8;
        assert(cc < 4);
        assert forall|k: int| 0 <= k < pts.len()
            implies 0 <= (#[trigger] pts[k]) + d < self.size_spec()
                && self.occ()[pts[k] + d] is None by {
            lemma_footprint_cell(self, p, v, d, k);
            let cell = pts[k] + d;
            if self.occ()[cell] is Some {
                assert(base_flag(self.occ(), self.rows_spec(), self.cols_spec(), cell)
                    == OCCUPIED);
                assert(base_flags(self.occ(), self.rows_spec(), self.cols_spec())[cell]
                    == OCCUPIED);
                lemma_with_bonus_blocked(base_flags(self.occ(), self.rows_spec(),
                    self.cols_spec()), self.homes_seq(), self.homes_seq().len(), cell, cc);
                assert(self.flags_seq()[cell] & ((BLOCKED << (2 * cc)) as u8)
                    == OCCUPIED & ((BLOCKED << (2 * cc)) as u8));
                assert(OCCUPIED & ((BLOCKED << (2 * cc)) as u8) != 0) by (bit_vector)
                    requires
                        cc < 4,
                ;
                lemma_flag_union_covers(self.flags_seq(), pts, d, k, pts.len());
                let u = flag_union(self.flags_seq(), pts, d);
                let f = self.flags_seq()[cell];
                assert(f | u == u && f & ((BLOCKED << (2 * cc)) as u8) != 0
                    ==> u & ((BLOCKED << (2 * cc)) as u8) != 0) by (bit_vector);
                assert(u & ((((CORNER | BLOCKED) as u8) << (2 * cc)) as u8)
                    == ((CORNER << (2 * cc)) as u8));
                assert(!(u & ((((CORNER | BLOCKED) as u8) << (2 * cc)) as u8)
                    == ((CORNER << (2 * cc)) as u8)
                    && u & ((BLOCKED << (2 * cc)) as u8) != 0)) by (bit_vector)
                    requires
                        cc < 4,
                ;
            }
        }
    }

    /// A well-formed board's state is a function of its configuration and
    /// placement history alone.  In particular, applying any sequence of
    /// legal placements and then undoing them in reverse order restores the
    /// occupancy, the legality flags and the position table exactly.
    pub proof fn lemma_state_determined_by_history(a: Board, b: Board)
        requires
            a.wf(),
            b.wf(),
            a.same_config(b),
            a.hist() == b.hist(),
        ensures
            a.occ() == b.occ(),
            a.flags_seq() == b.flags_seq(),
            a.pos_view() == b.pos_view(),
    {
        assert(a.occ() == replay_n(a.cat(), a.size_spec(), a.hist(), a.hist().len()));
        assert(b.occ() == replay_n(b.cat(), b.size_spec(), b.hist(), b.hist().len()));
        assert(a.pos_view() == pos_of_n(a.players(), a.n_pieces(), a.hist(),
            a.hist().len()));
        assert(a.n_pieces() == a.cat().len());
        assert(b.n_pieces() == b.cat().len());
    }

    /// Compute the legal moves of `color`: for every unplaced piece, every
    /// orientation and every fitting anchor, those whose footprint flag
    /// union has the color's CORNER bit set and BLOCKED bit clear.
    pub fn moves(&self, color: Color) -> (r: Result<Moves, &'static str>)
        requires
            self.wf(),
        ensures
            match r {
                Ok(m) => (color as int) < self.players() && m.color == color
                    && m.moves@ == self.moves_spec(color as int),
                Err(_) => (color as int) >= self.players(),
            },
    {
        if color as usize >= self.positions.len() {
            return Err("color out of bounds");
        }
        let c = color as usize;
        let ghost ci = color as int;
        let mut mv: Vec<(usize, usize, usize)> = Vec::new();
        let np = self.pieces.len();
        for p in 0..np
            invariant
                self.wf(),
                np == self.pieces@.len(),
                ci == color as int,
                ci < self.players(),
                c == ci,
                mv@ == self.moves_p(ci, p as nat),
        {
            if self.positions[c][p].is_none() {
                let nv = self.pieces[p].len();
                for v in 0..nv
                    invariant
                        self.wf(),
                        np == self.pieces@.len(),
                        (p as int) < np,
                        ci == color as int,
                        ci < self.players(),
                        c == ci,
                        nv == self.pieces@[p as int]@.len(),
                        self.pos_view()[ci][p as int] is None,
                        mv@ == self.moves_p(ci, p as nat) + self.moves_v(ci, p as int,
                            v as nat),
                {
                    let w = self.pieces[p][v].width;
                    let h = self.pieces[p][v].height;
                    let ghost pi = p as int;
                    let ghost vi = v as int;
                    proof {
                        assert(var_ok(self.cat()[pi][vi], self.rows_spec(),
                            self.cols_spec()));
                    }
                    if w <= self.cols && h <= self.rows {
                        let xr = self.cols - w + 1;
                        let yr = self.rows - h + 1;
                        proof {
                            assert(xr as int == self.xr_spec(pi, vi));
                            assert(yr as int == self.yr_spec(pi, vi));
                            assert((xr as int) * (yr as int)
                                <= (self.cols as int) * (self.rows as int))
                                by (nonlinear_arith)
                                requires
                                    1 <= (xr as int) <= (self.cols as int),
                                    1 <= (yr as int) <= (self.rows as int),
                            ;
                            assert((self.cols as int) * (self.rows as int)
                                == self.size_spec()) by (nonlinear_arith);
                        }
                        let count = xr * yr;
                        for k in 0..count
                            invariant
                                self.wf(),
                                np == self.pieces@.len(),
                                pi == p as int,
                                vi == v as int,
                                0 <= pi < np,
                                0 <= vi < self.pieces@[pi]@.len(),
                                ci == color as int,
                                ci < self.players(),
                                c == ci,
                                w == self.pieces@[pi]@[vi].width,
                                h == self.pieces@[pi]@[vi].height,
                                w <= self.cols,
                                h <= self.rows,
                                xr as int == self.xr_spec(pi, vi),
                                yr as int == self.yr_spec(pi, vi),
                                count == xr * yr,
                                count as int <= self.size_spec(),
                                mv@ == self.moves_p(ci, p as nat)
                                    + self.moves_v(ci, pi, v as nat)
                                    + self.moves_k(ci, pi, vi, k as nat),
                        {
                            let x = k % xr;
                            let y = k / xr;
                            proof {
                                assert(y < yr) by (nonlinear_arith)
                                    requires
                                        k < xr * yr,
                                        xr >= 1,
                                        y == k as int / xr as int,
                                ;
                                lemma_cell_bound(y as int, x as int, self.rows as int,
                                    self.cols as int);
                                lemma_fundamental_div_mod_converse_div(
                                    x as int + y as int * self.cols as int,
                                    self.cols as int, y as int, x as int);
                                lemma_fundamental_div_mod_converse_mod(
                                    x as int + y as int * self.cols as int,
                                    self.cols as int, y as int, x as int);
                            }
                            let d = x + y * self.cols;
                            let ghost di = d as int;
                            proof {
                                assert(di == offset_at(self.cols_spec(),
                                    self.xr_spec(pi, vi), k as int));
                                assert(fits(*self, pi, vi, di));
                                assert forall|j: int| 0 <= j
                                    < self.cat()[pi][vi].0.len()
                                    implies 0 <= (#[trigger] self.cat()[pi][vi].0[j]) + di
                                        < self.size_spec() by {
                                    lemma_footprint_cell(*self, pi, vi, di, j);
                                }
                            }
                            let npts = self.pieces[p][v].points.len();
                            let mut u: u8 = 0;
                            for j in 0..npts
                                invariant
                                    self.wf(),
                                    pi == p as int,
                                    vi == v as int,
                                    0 <= pi < self.pieces@.len(),
                                    0 <= vi < self.pieces@[pi]@.len(),
                                    npts == self.cat()[pi][vi].0.len(),
                                    di == d as int,
                                    forall|jj: int| 0 <= jj < self.cat()[pi][vi].0.len()
                                        ==> 0 <= (#[trigger] self.cat()[pi][vi].0[jj]) + di
                                            < self.size_spec(),
                                    u == flag_union_n(self.flags_seq(),
                                        self.cat()[pi][vi].0, di, j as nat),
                            {
                                let cell = self.pieces[p][v].points[j] + d;
                                u = u | self.flags[cell];
                            }
                            proof {
                                assert(self.players() <= 4);
                                assert((color as int) < 4);
                                assert(2 * color < 8);
                            }
                            let test = (CORNER | BLOCKED) << (2 * color);
                            let req = CORNER << (2 * color);
                            if (u & test) == req {
                                mv.push((p, v, d));
                            }
                            proof {
                                assert(mv@ =~= self.moves_p(ci, p as nat)
                                    + self.moves_v(ci, pi, v as nat)
                                    + self.moves_k(ci, pi, vi, (k + 1) as nat));
                            }
                        }
                        proof {
                            assert(mv@ =~= self.moves_p(ci, p as nat)
                                + self.moves_v(ci, pi, (v + 1) as nat));
                        }
                    } else {
                        proof {
                            assert(self.xr_spec(pi, vi) * self.yr_spec(pi, vi) == 0)
                                by (nonlinear_arith)
                                requires
                                    self.xr_spec(pi, vi) == 0 || self.yr_spec(pi, vi) == 0,
                            ;
                            assert(self.moves_k(ci, pi, vi, 0nat) == Seq::<(usize, usize,
                                usize)>::empty());
                            assert(mv@ =~= self.moves_p(ci, p as nat)
                                + self.moves_v(ci, pi, (v + 1) as nat));
                        }
                    }
                }
                proof {
                    assert(mv@ =~= self.moves_p(ci, (p + 1) as nat));
                }
            } else {
                proof {
                    assert(self.pos_view()[ci][p as int] is Some);
                    assert(mv@ =~= self.moves_p(ci, (p + 1) as nat));
                }
            }
        }
        Ok(Moves { color, moves: mv })
    }
}

/// Replaying a sound history prefix yields a board of the full size.
proof fn lemma_replay_len(cat: Seq<Seq<VarV>>, players: int, rows: int, cols: int,
    h: Seq<Rec>, n: nat)
    requires
        0 <= rows * cols,
        n <= h.len(),
        forall|m: int| 0 <= m < n
            ==> rec_ok(cat, players, rows, cols,
                replay_n(cat, rows * cols, h, m as nat), #[trigger] h[m]),
    ensures
        replay_n(cat, rows * cols, h, n).len() == rows * cols,
    decreases n
{
    if n > 0 {
        lemma_replay_len(cat, players, rows, cols, h, (n - 1) as nat);
        let r = h[n - 1];
        let prev = replay_n(cat, rows * cols, h, (n - 1) as nat);
        let pts = cat[r.1 as int][r.2 as int].0;
        assert(rec_ok(cat, players, rows, cols, prev, h[n - 1]));
        assert forall|k: int| 0 <= k < pts.len()
            implies 0 <= (#[trigger] pts[k]) + (r.3 as int) < prev.len() by {
            assert(pts[k] + r.3 < rows * cols);
        }
        lemma_write_fp_cases(prev, pts, r.3 as int, Some(r.0), pts.len());
    }
}

impl Board {
    /// Undo the most recent placement: clear its footprint, free the piece,
    /// and recompute all legality flags.  Fails exactly when no placement
    /// has been made.
    pub fn undo(&mut self) -> (r: Result<(), &'static str>)
        requires
            old(self).wf(),
        ensures
            final(self).wf(),
            match r {
                Ok(()) => old(self).hist().len() > 0
                    && final(self).hist() == old(self).hist().drop_last()
                    && final(self).same_config(*old(self))
                    && final(self).occ() == write_fp(old(self).occ(),
                        old(self).cat()[old(self).hist().last().1 as int][
                            old(self).hist().last().2 as int].0,
                        old(self).hist().last().3 as int, None),
                Err(_) => old(self).hist().len() == 0 && *final(self) == *old(self),
            },
    {
        if self.history.len() == 0 {
            return Err("no moves to undo");
        }
        let ghost pre = *self;
        let ghost h = self.history@;
        let ghost n = h.len() as int;
        let rec = match self.history.pop() {
            Some(x) => x,
            None => {
                return Err("no moves to undo");
            },
        };
        let (color, piece, variation, offset) = rec;
        let ghost cat = pre.cat();
        let ghost pts = cat[piece as int][variation as int].0;
        proof {
            assert(h[n - 1] == rec);
            assert(hist_sound(cat, pre.players(), pre.rows_spec(), pre.cols_spec(), h));
            assert(rec_ok(cat, pre.players(), pre.rows_spec(), pre.cols_spec(),
                replay_n(cat, pre.size_spec(), h, (n - 1) as nat), rec));
            assert forall|k: int| 0 <= k < h.len()
                implies (((#[trigger] h[k]).0 as int) < pre.players()
                    && ((h[k].1 as int) < pre.n_pieces())) by {
                assert(rec_ok(cat, pre.players(), pre.rows_spec(), pre.cols_spec(),
                    replay_n(cat, pre.size_spec(), h, k as nat), h[k]));
            }
            lemma_pos_of_none_iff(pre.players(), pre.n_pieces(), h, (n - 1) as nat,
                color as int, piece as int);
            lemma_pos_of_none_iff(pre.players(), pre.n_pieces(), h, n as nat,
                color as int, piece as int);
            assert(pre.pos_view()[color as int][piece as int]
                == Some((variation, offset)));
            assert(pre.pos_view()[color as int] == pre.positions@[color as int]@);
            lemma_replay_len(cat, pre.players(), pre.rows_spec(), pre.cols_spec(), h,
                (n - 1) as nat);
        }
        let cu = color as usize;
        let row = &mut self.positions[cu];
        row[piece] = None;
        proof {
            assert(self.positions@[color as int]@
                =~= pre.positions@[color as int]@.update(piece as int,
                    None::<(usize, usize)>));
            lemma_write_fp_cases(replay_n(cat, pre.size_spec(), h, (n - 1) as nat), pts,
                offset as int, Some(color), pts.len());
            assert(forall|k: int| 0 <= k < pts.len()
                ==> (#[trigger] pts[k]) + offset < pre.size_spec());
        }
        self.write_piece(piece, variation, offset, None);
        proof {
            let hh = h.drop_last();
            let prev = replay_n(cat, pre.size_spec(), h, (n - 1) as nat);
            lemma_replay_prefix(cat, pre.size_spec(), h, hh, (n - 1) as nat);
            assert(replay_n(cat, pre.size_spec(), hh, (n - 1) as nat) == prev);
            lemma_write_fp_cases(prev, pts, offset as int, Some(color), pts.len());
            lemma_write_fp_cases(pre.board@, pts, offset as int, None, pts.len());
            assert(self.board@ =~= prev) by {
                assert forall|i: int| 0 <= i < prev.len()
                    implies #[trigger] self.board@[i] == prev[i] by {
                    if exists|k: int| 0 <= k < pts.len() && (#[trigger] pts[k]) + offset == i {
                        let k = choose|k: int| 0 <= k < pts.len()
                            && (#[trigger] pts[k]) + offset == i;
                        assert(prev[i] is None);
                        assert(self.board@[i] is None);
                    } else {
                        assert(self.board@[i] == pre.board@[i]);
                        assert(pre.board@[i] == prev[i]);
                    }
                }
            }
            assert(self.history@ == hh);
            assert(self.cat() == cat);
            assert(hist_sound(self.cat(), self.players(), self.rows_spec(),
                self.cols_spec(), hh)) by {
                assert forall|m: int| 0 <= m < hh.len()
                    implies rec_ok(cat, pre.players(), pre.rows_spec(), pre.cols_spec(),
                        replay_n(cat, pre.size_spec(), hh, m as nat),
                        #[trigger] hh[m]) by {
                    lemma_replay_prefix(cat, pre.size_spec(), h, hh, m as nat);
                    assert(hh[m] == h[m]);
                }
            }
            assert(self.pos_view() =~= pos_of_n(self.players(), self.n_pieces(), hh,
                hh.len())) by {
                lemma_pos_prefix(pre.players(), pre.n_pieces(), h, hh, (n - 1) as nat);
                let g = pos_of_n(pre.players(), pre.n_pieces(), hh, hh.len());
                assert(pre.pos_view() == g.update(color as int,
                    g[color as int].update(piece as int, Some((variation, offset)))));
                assert forall|k: int| 0 <= k < hh.len()
                    implies (((#[trigger] hh[k]).0 as int) < pre.players()
                        && ((hh[k].1 as int) < pre.n_pieces())) by {
                    assert(hh[k] == h[k]);
                    assert(rec_ok(cat, pre.players(), pre.rows_spec(), pre.cols_spec(),
                        replay_n(cat, pre.size_spec(), h, k as nat), h[k]));
                }
                lemma_pos_of_none_iff(pre.players(), pre.n_pieces(), hh, hh.len(),
                    color as int, piece as int);
                assert(g[color as int][piece as int] is None) by {
                    assert(hist_unique(h));
                    assert forall|k: int| 0 <= k < hh.len()
                        implies !((#[trigger] hh[k]).0 as int == color as int
                            && hh[k].1 as int == piece as int) by {
                        assert(hh[k] == h[k]);
                        assert(!(h[k].0 == h[n - 1].0 && h[k].1 == h[n - 1].1));
                    }
                }
                assert forall|c2: int| 0 <= c2 < pre.players()
                    implies #[trigger] self.pos_view()[c2] == g[c2] by {
                    if c2 == color as int {
                        assert(self.pos_view()[c2] =~= g[c2]);
                    } else {
                        assert(pre.pos_view()[c2] == g[c2]);
                        assert(self.pos_view()[c2] == pre.pos_view()[c2]);
                    }
                }
            }
            assert(self.wf());
        }
        Ok(())
    }
}

impl Moves {
    /// Apply the `move_index`-th legal move of this move list to the board:
    /// occupy its footprint, record the piece's position, and append it to
    /// the history.
    pub fn place(self, board: &mut Board, move_index: usize)
        requires
            old(board).wf(),
            (self.color as int) < old(board).players(),
            self.moves@ == old(board).moves_spec(self.color as int),
            (move_index as int) < self.moves@.len(),
        ensures
            final(board).wf(),
            final(board).same_config(*old(board)),
            final(board).hist() == old(board).hist().push((self.color,
                self.moves@[move_index as int].0, self.moves@[move_index as int].1,
                self.moves@[move_index as int].2)),
            final(board).occ() == write_fp(old(board).occ(),
                old(board).cat()[self.moves@[move_index as int].0 as int][
                    self.moves@[move_index as int].1 as int].0,
                self.moves@[move_index as int].2 as int, Some(self.color)),
    {
        let (piece, variation, offset) = self.moves[move_index];
        let color = self.color;
        let ghost pre = *old(board);
        let ghost cat = pre.cat();
        let ghost ci = color as int;
        proof {
            pre.lemma_moves_elems(ci, pre.n_pieces() as nat);
            assert(pre.moves_spec(ci)[move_index as int] == (piece, variation, offset));
            assert((piece as int) < pre.n_pieces());
            assert(pre.pos_view()[ci][piece as int] is None);
            assert((variation as int) < cat[piece as int].len());
            assert(fits(pre, piece as int, variation as int, offset as int));
            assert(pre.placement_legal(ci, piece as int, variation as int, offset as int));
            pre.lemma_legal_footprint_empty(ci, piece as int, variation as int,
                offset as int);
        }
        let ghost pts = cat[piece as int][variation as int].0;
        board.write_piece(piece, variation, offset, Some(color));
        let cu = color as usize;
        let row = &mut board.positions[cu];
        row[piece] = Some((variation, offset));
        board.history.push((color, piece, variation, offset));
        proof {
            let h = pre.history@;
            let n = h.len() as int;
            let rec = (color, piece, variation, offset);
            let h2 = h.push(rec);
            assert(board.history@ == h2);
            assert(board.cat() == cat);
            lemma_replay_prefix(cat, pre.size_spec(), h, h2, h.len());
            assert(board.board@ == replay_n(cat, pre.size_spec(), h2, h2.len()));
            assert(hist_sound(board.cat(), board.players(), board.rows_spec(),
                board.cols_spec(), h2)) by {
                assert forall|m: int| 0 <= m < h2.len()
                    implies rec_ok(cat, pre.players(), pre.rows_spec(), pre.cols_spec(),
                        replay_n(cat, pre.size_spec(), h2, m as nat),
                        #[trigger] h2[m]) by {
                    if m < n {
                        lemma_replay_prefix(cat, pre.size_spec(), h, h2, m as nat);
                        assert(h2[m] == h[m]);
                        assert(rec_ok(cat, pre.players(), pre.rows_spec(),
                            pre.cols_spec(), replay_n(cat, pre.size_spec(), h, m as nat),
                            h[m]));
                    } else {
                        assert(h2[m] == rec);
                        assert(replay_n(cat, pre.size_spec(), h2, m as nat)
                            == pre.board@);
                        assert forall|k: int| 0 <= k < cat[piece as int][
                            variation as int].0.len()
                            implies (#[trigger] cat[piece as int][variation as int].0[k])
                                + (offset as int) < pre.rows_spec() * pre.cols_spec()
                                && pre.board@[cat[piece as int][variation as int].0[k]
                                    + offset] is None by {
                            assert(0 <= pts[k] + offset < pre.size_spec()
                                && pre.occ()[pts[k] + offset] is None);
                        }
                    }
                }
            }
            assert(forall|k: int| 0 <= k < h.len()
                ==> (((#[trigger] h[k]).0 as int) < pre.players()
                    && ((h[k].1 as int) < pre.n_pieces())));
            lemma_pos_of_none_iff(pre.players(), pre.n_pieces(), h, h.len(), ci,
                piece as int);
            assert(hist_unique(h2)) by {
                assert forall|j: int, k: int| 0 <= j < k < h2.len()
                    implies !((#[trigger] h2[j]).0 == (#[trigger] h2[k]).0
                        && h2[j].1 == h2[k].1) by {
                    if k < n {
                        assert(h2[j] == h[j] && h2[k] == h[k]);
                    } else {
                        assert(h2[k] == rec);
                        assert(h2[j] == h[j]);
                        assert(!(h[j].0 as int == ci && h[j].1 as int == piece as int));
                    }
                }
            }
            assert(board.pos_view() =~= pos_of_n(board.players(), board.n_pieces(), h2,
                h2.len())) by {
                lemma_pos_prefix(pre.players(), pre.n_pieces(), h, h2, h.len());
                let g = pos_of_n(pre.players(), pre.n_pieces(), h2, h.len());
                assert(g == pre.pos_view());
                let g2 = pos_of_n(pre.players(), pre.n_pieces(), h2, h2.len());
                assert(g2 == g.update(ci, g[ci].update(piece as int,
                    Some((variation, offset)))));
                assert forall|c2: int| 0 <= c2 < pre.players()
                    implies #[trigger] board.pos_view()[c2] == g2[c2] by {
                    if c2 == ci {
                        assert(board.pos_view()[c2] =~= g2[c2]);
                    } else {
                        assert(pre.pos_view()[c2] == g2[c2]);
                        assert(board.pos_view()[c2] == pre.pos_view()[c2]);
                    }
                }
            }
            lemma_write_fp_cases(pre.board@, pts, offset as int, Some(color), pts.len());
            assert(forall|i: int| 0 <= i < board.board@.len()
                ==> ((#[trigger] board.board@[i]) matches Some(c2)
                    ==> (c2 as int) < board.players()));
            assert(board.wf());
        }
    }
}

/// Home bonuses on flags that carry only CORNER bits: all flags keep only
/// CORNER bits, existing bits survive, and each processed color's home cell
/// gains its CORNER bit.
proof fn lemma_bonus_on_corner_flags(f: Seq<u8>, homes: Seq<usize>, n: nat)
    requires
        homes.len() <= 4,
        n <= homes.len(),
        forall|k: int| 0 <= k < homes.len() ==> (#[trigger] homes[k]) < f.len(),
        forall|i: int| 0 <= i < f.len() ==> (#[trigger] f[i]) & 0xAAu8 == 0,
    ensures
        with_bonus(f, homes, n).len() == f.len(),
        forall|i: int| 0 <= i < f.len()
            ==> (#[trigger] with_bonus(f, homes, n)[i]) & 0xAAu8 == 0,
        forall|i: int| 0 <= i < f.len()
            ==> ((#[trigger] f[i]) | with_bonus(f, homes, n)[i])
                == with_bonus(f, homes, n)[i],
        forall|c: int| 0 <= c < n
            ==> (#[trigger] with_bonus(f, homes, n)[homes[c] as int])
                & ((CORNER << ((2 * c) as u8)) as u8) != 0,
    decreases n
{
    if n == 0 {
        assert forall|i: int| 0 <= i < f.len()
            implies ((#[trigger] f[i]) | with_bonus(f, homes, n)[i])
                == with_bonus(f, homes, n)[i] by {
            let fi = f[i];
            assert((fi | fi) == fi) by (bit_vector);
        }
    }
    if n > 0 {
        lemma_bonus_on_corner_flags(f, homes, (n - 1) as nat);
        let g = with_bonus(f, homes, (n - 1) as nat);
        let h = homes[n - 1] as int;
        let cc = (n - 1) as u8;
        let a = g[h];
        assert(a & 0xAAu8 == 0 ==> a & ((BLOCKED << (2 * cc)) as u8) == 0) by (bit_vector)
            requires
                cc < 4,
        ;
        let val = bonus(a, n - 1);
        assert(val == (a | ((CORNER << (2 * cc)) as u8)) as u8);
        assert((a | ((CORNER << (2 * cc)) as u8)) & 0xAAu8 == 0
            && (a | (a | ((CORNER << (2 * cc)) as u8))) == (a | ((CORNER << (2 * cc)) as u8))
            && ((a | ((CORNER << (2 * cc)) as u8)) & ((CORNER << (2 * cc)) as u8)) != 0)
            by (bit_vector)
            requires
                cc < 4,
                a & 0xAAu8 == 0,
        ;
        assert forall|i: int| 0 <= i < f.len()
            implies ((#[trigger] f[i]) | with_bonus(f, homes, n)[i])
                == with_bonus(f, homes, n)[i] by {
            if i == h {
                let w = with_bonus(f, homes, n)[i];
                let fi = f[i];
                assert((fi | a) == a);
                assert((a | w) == w);
                assert((fi | a) == a && (a | w) == w ==> (fi | w) == w) by (bit_vector);
            } else {
                assert(with_bonus(f, homes, n)[i] == g[i]);
                assert((f[i] | g[i]) == g[i]);
            }
        }
        assert forall|c: int| 0 <= c < n
            implies (#[trigger] with_bonus(f, homes, n)[homes[c] as int])
                & ((CORNER << ((2 * c) as u8)) as u8) != 0 by {
            if c < n - 1 {
                let w0 = g[homes[c] as int];
                let w1 = with_bonus(f, homes, n)[homes[c] as int];
                let c8 = c as u8;
                assert(w0 & ((CORNER << (2 * c8)) as u8) != 0);
                if homes[c] as int == h {
                    assert(w1 == val);
                    assert((w0 | val) == val);
                    assert((w0 | w1) == w1 && w0 & ((CORNER << (2 * c8)) as u8) != 0
                        ==> w1 & ((CORNER << (2 * c8)) as u8) != 0) by (bit_vector);
                } else {
                    assert(w1 == w0);
                }
            }
        }
    }
}

impl Board {
    /// On an empty board the base flags are all zero.
    proof fn lemma_empty_base_flags(self)
        requires
            self.wf(),
            self.hist().len() == 0,
        ensures
            forall|i: int| 0 <= i < self.size_spec()
                ==> (#[trigger] base_flags(self.occ(), self.rows_spec(),
                    self.cols_spec())[i]) == 0u8,
    {
        self.lemma_wf_dims();
        assert forall|i: int| 0 <= i < self.size_spec()
            implies (#[trigger] base_flags(self.occ(), self.rows_spec(),
                self.cols_spec())[i]) == 0u8 by {
            assert(self.occ()[i] is None);
            assert(self.cols_spec() >= 1) by (nonlinear_arith)
                requires
                    0 <= i < self.rows_spec() * self.cols_spec(),
            ;
            assert(i / self.cols_spec() < self.rows_spec()) by (nonlinear_arith)
                requires
                    0 <= i < self.rows_spec() * self.cols_spec(),
                    self.cols_spec() >= 1,
            ;
            crate::neighbors::lemma_card_slots_bounds(self.rows_spec(), self.cols_spec(),
                i % self.cols_spec(), i / self.cols_spec(), 0);
            crate::neighbors::lemma_diag_slots_bounds(self.rows_spec(), self.cols_spec(),
                i % self.cols_spec(), i / self.cols_spec(), 0);
            let csq = card_seq(self.rows_spec(), self.cols_spec(), i % self.cols_spec(),
                i / self.cols_spec());
            let dsq = diag_seq(self.rows_spec(), self.cols_spec(), i % self.cols_spec(),
                i / self.cols_spec());
            lemma_or_fold_empty(self.occ(), csq, BLOCKED, csq.len());
            lemma_or_fold_empty(self.occ(), dsq, CORNER, dsq.len());
            assert(0u8 | 0u8 == 0u8) by (bit_vector);
        }
    }

    /// Home seeding: with no pieces placed, every home cell carries the
    /// CORNER bit for its color, and no cell carries any BLOCKED bit.
    pub proof fn lemma_home_seeding(self, c: int)
        requires
            self.wf(),
            self.hist().len() == 0,
            0 <= c < self.players(),
        ensures
            self.flags_seq()[self.homes_seq()[c] as int]
                & ((CORNER << ((2 * c) as u8)) as u8) != 0,
            forall|i: int| 0 <= i < self.size_spec()
                ==> (#[trigger] self.flags_seq()[i]) & 0xAAu8 == 0,
    {
        self.lemma_wf_dims();
        self.lemma_empty_base_flags();
        let base = base_flags(self.occ(), self.rows_spec(), self.cols_spec());
        assert(forall|i: int| 0 <= i < base.len() ==> (#[trigger] base[i]) & 0xAAu8 == 0)
            by {
            assert(0u8 & 0xAAu8 == 0) by (bit_vector);
        }
        lemma_bonus_on_corner_flags(base, self.homes_seq(), self.homes_seq().len());
    }

    /// Every legal move of orientation `v` of piece `p` at an enumerable
    /// anchor appears in the deterministic move list.
    proof fn lemma_moves_k_complete(self, c: int, p: int, v: int, n: nat, kk: int)
        requires
            0 <= kk < n,
            self.placement_legal(c, p, v, offset_at(self.cols_spec(),
                self.xr_spec(p, v), kk)),
        ensures
            self.moves_k(c, p, v, n).contains((p as usize, v as usize,
                offset_at(self.cols_spec(), self.xr_spec(p, v), kk) as usize)),
        decreases n
    {
        let t = (p as usize, v as usize,
            offset_at(self.cols_spec(), self.xr_spec(p, v), kk) as usize);
        if kk == n - 1 {
            let s = self.moves_k(c, p, v, n);
            assert(s[s.len() - 1] == t);
        } else {
            self.lemma_moves_k_complete(c, p, v, (n - 1) as nat, kk);
            let pre = self.moves_k(c, p, v, (n - 1) as nat);
            let m = choose|m: int| 0 <= m < pre.len() && pre[m] == t;
            assert(self.moves_k(c, p, v, n)[m] == t);
        }
    }

    proof fn lemma_moves_v_complete(self, c: int, p: int, m: nat, v: int,
        t: (usize, usize, usize))
        requires
            0 <= v < m,
            self.moves_k(c, p, v, (self.xr_spec(p, v) * self.yr_spec(p, v)) as nat)
                .contains(t),
        ensures
            self.moves_v(c, p, m).contains(t),
        decreases m
    {
        if v == m - 1 {
            let pre = self.moves_v(c, p, (m - 1) as nat);
            let tail = self.moves_k(c, p, v,
                (self.xr_spec(p, v) * self.yr_spec(p, v)) as nat);
            let j = choose|j: int| 0 <= j < tail.len() && tail[j] == t;
            assert(self.moves_v(c, p, m)[pre.len() + j] == t);
        } else {
            self.lemma_moves_v_complete(c, p, (m - 1) as nat, v, t);
            let pre = self.moves_v(c, p, (m - 1) as nat);
            let j = choose|j: int| 0 <= j < pre.len() && pre[j] == t;
            assert(self.moves_v(c, p, m)[j] == t);
        }
    }

    proof fn lemma_moves_p_complete(self, c: int, n: nat, p: int, t: (usize, usize, usize))
        requires
            0 <= p < n,
            self.pos_view()[c][p] is None,
            self.moves_v(c, p, self.cat()[p].len()).contains(t),
        ensures
            self.moves_p(c, n).contains(t),
        decreases n
    {
        if p == n - 1 {
            let pre = self.moves_p(c, (n - 1) as nat);
            let tail = self.moves_v(c, p, self.cat()[p].len());
            let j = choose|j: int| 0 <= j < tail.len() && tail[j] == t;
            assert(self.moves_p(c, n)[pre.len() + j] == t);
        } else {
            self.lemma_moves_p_complete(c, (n - 1) as nat, p, t);
            let pre = self.moves_p(c, (n - 1) as nat);
            let j = choose|j: int| 0 <= j < pre.len() && pre[j] == t;
            assert(self.moves_p(c, n)[j] == t);
        }
    }

    /// Home seeding, second half: with no pieces placed, a 1-cell piece in
    /// the catalog has a legal move exactly on the home cell of each color.
    pub proof fn lemma_home_move_available(self, c: int, p: int)
        requires
            self.wf(),
            self.hist().len() == 0,
            0 <= c < self.players(),
            0 <= p < self.n_pieces(),
            self.cat()[p].len() >= 1,
            self.cat()[p][0].0 == seq![0usize],
            self.cat()[p][0].1 == 1,
            self.cat()[p][0].2 == 1,
        ensures
            self.moves_spec(c).contains((p as usize, 0usize,
                self.homes_seq()[c] as usize)),
    {
        self.lemma_wf_dims();
        self.lemma_home_seeding(c);
        let cols = self.cols_spec();
        let rows = self.rows_spec();
        let d = self.homes_seq()[c] as int;
        assert(self.homes_seq()[c] < self.size_spec());
        assert(d < rows * cols);
        assert(cols >= 1) by (nonlinear_arith)
            requires
                0 <= d < rows * cols,
                rows >= 0,
                cols >= 0,
        ;
        assert(self.xr_spec(p, 0) == cols);
        assert(self.yr_spec(p, 0) == rows);
        lemma_fundamental_div_mod(d, cols);
        assert((d / cols) * cols == cols * (d / cols)) by (nonlinear_arith);
        assert(offset_at(cols, cols, d) == d);
        let u = flag_union(self.flags_seq(), seq![0usize], d);
        assert(seq![0usize][0] == 0usize);
        assert(flag_union_n(self.flags_seq(), seq![0usize], d, 0) == 0u8);
        assert(u == (0u8 | self.flags_seq()[0 + d]) as u8);
        assert(u == (0u8 | self.flags_seq()[d]) as u8);
        let f = self.flags_seq()[d];
        let c8 = c as u8;
        assert(f & 0xAAu8 == 0 && f & ((CORNER << (2 * c8)) as u8) != 0
            ==> ((0u8 | f) & ((((CORNER | BLOCKED) as u8) << (2 * c8)) as u8))
                == ((CORNER << (2 * c8)) as u8)) by (bit_vector)
            requires
                c8 < 4,
        ;
        assert(self.placement_legal(c, p, 0, d));
        assert(d < rows * cols);
        assert((d as usize) as int == d);
        assert(cols * rows == rows * cols) by (nonlinear_arith);
        self.lemma_moves_k_complete(c, p, 0, (cols * rows) as nat, d);
        self.lemma_moves_v_complete(c, p, self.cat()[p].len(), 0,
            (p as usize, 0usize, d as usize));
        assert(self.pos_view()[c][p] is None);
        self.lemma_moves_p_complete(c, self.n_pieces() as nat, p,
            (p as usize, 0usize, d as usize));
    }
}

/// Each listed cell's contribution is covered by the flag fold.
proof fn lemma_or_fold_covers(bd: Seq<Option<u8>>, ns: Seq<int>, base: u8, k: int, n: nat)
    requires
        0 <= k < n <= ns.len(),
    ensures
        (flag_contrib(bd[ns[k]], base) | or_fold_n(bd, ns, base, n))
            == or_fold_n(bd, ns, base, n),
    decreases n
{
    let x = flag_contrib(bd[ns[k]], base);
    if k == n - 1 {
        let a = or_fold_n(bd, ns, base, (n - 1) as nat);
        assert(x | (a | x) == a | x) by (bit_vector);
    } else {
        lemma_or_fold_covers(bd, ns, base, k, (n - 1) as nat);
        let a = or_fold_n(bd, ns, base, (n - 1) as nat);
        let b = flag_contrib(bd[ns[n - 1]], base);
        assert(x | a == a ==> x | (a | b) == a | b) by (bit_vector);
    }
}

/// A bit set in the flag fold comes from some listed cell.
proof fn lemma_or_fold_origin(bd: Seq<Option<u8>>, ns: Seq<int>, base: u8, m: u8, n: nat)
    requires
        n <= ns.len(),
        or_fold_n(bd, ns, base, n) & m != 0,
    ensures
        exists|k: int| 0 <= k < n && flag_contrib(#[trigger] bd[ns[k]], base) & m != 0,
    decreases n
{
    if n > 0 {
        let a = or_fold_n(bd, ns, base, (n - 1) as nat);
        let b = flag_contrib(bd[ns[n - 1]], base);
        if b & m != 0 {
            assert(flag_contrib(bd[ns[n - 1]], base) & m != 0);
        } else {
            assert((a | b) & m != 0 && b & m == 0 ==> a & m != 0) by (bit_vector);
            lemma_or_fold_origin(bd, ns, base, m, (n - 1) as nat);
        }
    } else {
        assert(!(0u8 & m != 0)) by (bit_vector);
    }
}

/// A BLOCKED-based fold never carries a CORNER bit.
proof fn lemma_blocked_fold_no_corner(bd: Seq<Option<u8>>, ns: Seq<int>, c: u8, n: nat)
    requires
        c < 4,
        n <= ns.len(),
    ensures
        or_fold_n(bd, ns, BLOCKED, n) & ((CORNER << (2 * c)) as u8) == 0,
    decreases n
{
    if n == 0 {
        assert(0u8 & ((CORNER << (2 * c)) as u8) == 0) by (bit_vector)
            requires
                c < 4,
        ;
    } else {
        lemma_blocked_fold_no_corner(bd, ns, c, (n - 1) as nat);
        let a = or_fold_n(bd, ns, BLOCKED, (n - 1) as nat);
        let b = flag_contrib(bd[ns[n - 1]], BLOCKED);
        match bd[ns[n - 1]] {
            Some(c2) => {
                assert(((BLOCKED << (2 * c2)) as u8) & ((CORNER << (2 * c)) as u8) == 0)
                    by (bit_vector)
                    requires
                        c < 4,
                ;
            },
            None => {
                assert(0u8 & ((CORNER << (2 * c)) as u8) == 0) by (bit_vector);
            },
        }
        assert(a & ((CORNER << (2 * c)) as u8) == 0 && b & ((CORNER << (2 * c)) as u8) == 0
            ==> (a | b) & ((CORNER << (2 * c)) as u8) == 0) by (bit_vector);
    }
}

impl Board {
    /// The adjacency rule for one legal placement: no footprint cell is
    /// edge-adjacent to a same-color cell, and some footprint cell either
    /// touches a same-color cell diagonally or is the color's home cell.
    /// Applied inductively over the placement history, no two same-color
    /// footprints ever share a cardinal edge, and every piece after the
    /// first for a color meets its territory or home at a corner.
    #[verifier::rlimit(100)]
    pub proof fn lemma_legal_move_adjacency(self, c: int, p: int, v: int, d: int)
        requires
            self.wf(),
            0 <= c < self.players(),
            0 <= p < self.cat().len(),
            0 <= v < self.cat()[p].len(),
            fits(self, p, v, d),
            self.placement_legal(c, p, v, d),
        ensures
            forall|k: int, m: int| 0 <= k < self.cat()[p][v].0.len()
                && 0 <= m < card_seq(self.rows_spec(), self.cols_spec(),
                    ((#[trigger] self.cat()[p][v].0[k]) + d) % self.cols_spec(),
                    (self.cat()[p][v].0[k] + d) / self.cols_spec()).len()
                ==> self.occ()[#[trigger] card_seq(self.rows_spec(), self.cols_spec(),
                    (self.cat()[p][v].0[k] + d) % self.cols_spec(),
                    (self.cat()[p][v].0[k] + d) / self.cols_spec())[m]]
                    != Some(c as u8),
            (exists|k: int, m: int| 0 <= k < self.cat()[p][v].0.len()
                && 0 <= m < diag_seq(self.rows_spec(), self.cols_spec(),
                    ((#[trigger] self.cat()[p][v].0[k]) + d) % self.cols_spec(),
                    (self.cat()[p][v].0[k] + d) / self.cols_spec()).len()
                && self.occ()[#[trigger] diag_seq(self.rows_spec(), self.cols_spec(),
                    (self.cat()[p][v].0[k] + d) % self.cols_spec(),
                    (self.cat()[p][v].0[k] + d) / self.cols_spec())[m]] == Some(c as u8))
            || (exists|k: int| 0 <= k < self.cat()[p][v].0.len()
                && (#[trigger] self.cat()[p][v].0[k]) + d
                    == self.homes_seq()[c] as int),
    {
        self.lemma_wf_dims();
        let pts = self.cat()[p][v].0;
        let rows = self.rows_spec();
        let cols = self.cols_spec();
        let c8 = c as u8;
        let u = flag_union(self.flags_seq(), pts, d);
        let corner_m = (CORNER << (2 * c8)) as u8;
        let blocked_m = (BLOCKED << (2 * c8)) as u8;
        assert(u & ((((CORNER | BLOCKED) as u8) << (2 * c8)) as u8) == corner_m
            ==> u & blocked_m == 0 && u & corner_m != 0) by (bit_vector)
            requires
                c8 < 4,
                corner_m == (CORNER << (2 * c8)) as u8,
                blocked_m == (BLOCKED << (2 * c8)) as u8,
        ;
        self.lemma_legal_footprint_empty(c, p, v, d);
        let base = base_flags(self.occ(), rows, cols);
        // No cardinal neighbor of any footprint cell holds this color.
        assert forall|k: int, m: int| 0 <= k < pts.len()
            && 0 <= m < card_seq(rows, cols, ((#[trigger] pts[k]) + d) % cols,
                (pts[k] + d) / cols).len()
            implies self.occ()[#[trigger] card_seq(rows, cols, (pts[k] + d) % cols,
                (pts[k] + d) / cols)[m]] != Some(c8) by {
            let cell = pts[k] + d;
            lemma_footprint_cell(self, p, v, d, k);
            assert(cols >= 1) by (nonlinear_arith)
                requires
                    0 <= cell < rows * cols,
                    rows >= 0,
                    cols >= 0,
            ;
            assert(cell / cols < rows) by (nonlinear_arith)
                requires
                    0 <= cell < rows * cols,
                    cols >= 1,
            ;
            crate::neighbors::lemma_card_slots_bounds(rows, cols, cell % cols,
                cell / cols, 0);
            lemma_flag_union_covers(self.flags_seq(), pts, d, k, pts.len());
            let f = self.flags_seq()[cell];
            assert((f | u) == u && u & blocked_m == 0 ==> f & blocked_m == 0)
                by (bit_vector);
            lemma_with_bonus_blocked(base, self.homes_seq(), self.homes_seq().len(),
                cell, c8);
            assert(base[cell] & blocked_m == 0);
            assert(self.occ()[cell] is None);
            let cs = card_seq(rows, cols, cell % cols, cell / cols);
            let ds = diag_seq(rows, cols, cell % cols, cell / cols);
            let co = or_fold(self.occ(), cs, BLOCKED);
            let dio = or_fold(self.occ(), ds, CORNER);
            assert(((co | dio) as u8) & blocked_m == 0 ==> co & blocked_m == 0)
                by (bit_vector);
            if self.occ()[cs[m]] == Some(c8) {
                lemma_or_fold_covers(self.occ(), cs, BLOCKED, m, cs.len());
                let x = flag_contrib(self.occ()[cs[m]], BLOCKED);
                assert(x == blocked_m);
                assert((x | co) == co && co & blocked_m == 0 ==> x & blocked_m == 0)
                    by (bit_vector);
                assert(blocked_m & blocked_m != 0) by (bit_vector)
                    requires
                        c8 < 4,
                        blocked_m == (BLOCKED << (2 * c8)) as u8,
                ;
            }
        }
        // Some footprint cell has corner contact or is the home cell.
        lemma_flag_union_origin(self.flags_seq(), pts, d, corner_m, pts.len());
        let k = choose|k: int| 0 <= k < pts.len()
            && (#[trigger] self.flags_seq()[pts[k] + d]) & corner_m != 0;
        let cell = pts[k] + d;
        lemma_footprint_cell(self, p, v, d, k);
        assert(cols >= 1) by (nonlinear_arith)
            requires
                0 <= cell < rows * cols,
                rows >= 0,
                cols >= 0,
        ;
        assert(cell / cols < rows) by (nonlinear_arith)
            requires
                0 <= cell < rows * cols,
                cols >= 1,
        ;
        crate::neighbors::lemma_diag_slots_bounds(rows, cols, cell % cols, cell / cols, 0);
        lemma_with_bonus_corner(base, self.homes_seq(), self.homes_seq().len(), cell, c8);
        if c < self.homes_seq().len() && self.homes_seq()[c] as int == cell {
            assert(pts[k] + d == self.homes_seq()[c] as int);
        } else {
            assert(base[cell] & corner_m != 0);
            assert(self.occ()[cell] is None);
            let cs = card_seq(rows, cols, cell % cols, cell / cols);
            let ds = diag_seq(rows, cols, cell % cols, cell / cols);
            let co = or_fold(self.occ(), cs, BLOCKED);
            let dio = or_fold(self.occ(), ds, CORNER);
            lemma_blocked_fold_no_corner(self.occ(), cs, c8, cs.len());
            assert(((co | dio) as u8) & corner_m != 0 && co & corner_m == 0
                ==> dio & corner_m != 0) by (bit_vector);
            lemma_or_fold_origin(self.occ(), ds, CORNER, corner_m, ds.len());
            let m = choose|m: int| 0 <= m < ds.len()
                && flag_contrib(#[trigger] self.occ()[ds[m]], CORNER) & corner_m != 0;
            assert(0 <= ds[m] < self.size_spec());
            match self.occ()[ds[m]] {
                Some(c2) => {
                    assert(c2 < 4);
                    assert(((CORNER << (2 * c2)) as u8) & ((CORNER << (2 * c8)) as u8) != 0
                        ==> c2 == c8) by (bit_vector)
                        requires
                            c2 < 4,
                            c8 < 4,
                    ;
                    assert(self.occ()[ds[m]] == Some(c8));
                },
                None => {
                    assert(0u8 & corner_m != 0 == false) by (bit_vector);
                },
            }
        }
    }
}

} // verus!
