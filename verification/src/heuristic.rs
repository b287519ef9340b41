//! The evaluation heuristic: scores a board by rewarding coverage and
//! penalizing fragmentation of the remaining empty space, via two nested
//! flood fills over the empty cells.

use vstd::prelude::*;
use crate::board::Board;
use crate::neighbors::MAX_CELLS;

verus! {

/// Number of occupied cells.
pub open spec fn count_occupied(occ: Seq<Option<u8>>) -> int
    decreases occ.len()
{
    if occ.len() == 0 {
        0
    } else {
        count_occupied(occ.drop_last()) + if occ.last() is Some { 1int } else { 0 }
    }
}

/// Number of zero entries of a flag array.
pub open spec fn count0(f: Seq<u8>) -> int
    decreases f.len()
{
    if f.len() == 0 {
        0
    } else {
        count0(f.drop_last()) + if f.last() == 0 { 1int } else { 0 }
    }
}

proof fn lemma_count0_bounds(f: Seq<u8>)
    ensures
        0 <= count0(f) <= f.len(),
    decreases f.len()
{
    if f.len() > 0 {
        lemma_count0_bounds(f.drop_last());
    }
}

proof fn lemma_count_occupied_bounds(occ: Seq<Option<u8>>)
    ensures
        0 <= count_occupied(occ) <= occ.len(),
    decreases occ.len()
{
    if occ.len() > 0 {
        lemma_count_occupied_bounds(occ.drop_last());
    }
}

/// Overwriting one entry with a nonzero value lowers the zero count exactly
/// when the entry was zero.
proof fn lemma_count0_update(f: Seq<u8>, i: int, v: u8)
    requires
        0 <= i < f.len(),
        v != 0,
    ensures
        count0(f.update(i, v)) == count0(f) - (if f[i] == 0 { 1int } else { 0 }),
    decreases f.len()
{
    if i == f.len() - 1 {
        assert(f.update(i, v).drop_last() =~= f.drop_last());
        assert(f.update(i, v).last() == v);
    } else {
        lemma_count0_update(f.drop_last(), i, v);
        assert(f.update(i, v).drop_last() =~= f.drop_last().update(i, v));
        assert(f.update(i, v).last() == f.last());
    }
}

/// A zero entry witnesses a positive zero count.
proof fn lemma_count0_pos(f: Seq<u8>, i: int)
    requires
        0 <= i < f.len(),
        f[i] == 0,
    ensures
        count0(f) >= 1,
    decreases f.len()
{
    if i < f.len() - 1 {
        lemma_count0_pos(f.drop_last(), i);
    } else {
        lemma_count0_bounds(f.drop_last());
    }
}

/// A popped stack still holds every element other than its last.
proof fn lemma_contains_after_pop(s: Seq<usize>, j: usize)
    requires
        s.len() > 0,
        s.contains(j),
        j != s.last(),
    ensures
        s.drop_last().contains(j),
{
    let m = choose|m: int| 0 <= m < s.len() && s[m] == j;
    assert(s.drop_last()[m] == j);
}

/// Zero flags are exactly the empty cells when flags are 0 or 1.
proof fn lemma_flags_count(f: Seq<u8>, occ: Seq<Option<u8>>, n: int)
    requires
        f.len() == n,
        occ.len() >= n,
        0 <= n,
        forall|j: int| 0 <= j < n ==> ((#[trigger] f[j] == 1u8) <==> occ[j] is Some),
        forall|j: int| 0 <= j < n ==> f[j] == 0 || f[j] == 1,
    ensures
        count0(f) == n - count_occupied(occ.take(n)),
    decreases n
{
    if n > 0 {
        assert(f.drop_last() =~= f.take(n - 1));
        assert(occ.take(n).drop_last() =~= occ.take(n - 1));
        lemma_flags_count(f.take(n - 1), occ, n - 1);
    }
}

/// If every empty cell has a nonzero flag, no zero flags remain.
proof fn lemma_all_nonzero_count0(f: Seq<u8>, occ: Seq<Option<u8>>, n: int)
    requires
        f.len() == n,
        occ.len() >= n,
        0 <= n,
        forall|j: int| 0 <= j < n ==> ((#[trigger] f[j] == 1u8) <==> occ[j] is Some),
        forall|j: int| 0 <= j < n && occ[j] is None ==> f[j] != 0,
    ensures
        count0(f) == 0,
    decreases n
{
    if n > 0 {
        assert(f.drop_last() =~= f.take(n - 1));
        lemma_all_nonzero_count0(f.take(n - 1), occ, n - 1);
        assert(f.last() != 0);
    }
}

/// Occupancy only ever gains cells under a pointwise refinement, and
/// strictly gains when some cell flips from empty to occupied.
pub proof fn lemma_count_occupied_mono(a: Seq<Option<u8>>, b: Seq<Option<u8>>)
    requires
        a.len() == b.len(),
        forall|i: int| 0 <= i < a.len()
            ==> #[trigger] b[i] == a[i] || (a[i] is None && b[i] is Some),
    ensures
        count_occupied(b) >= count_occupied(a),
        (exists|i: int| 0 <= i < a.len() && (#[trigger] a[i]) is None && b[i] is Some)
            ==> count_occupied(b) > count_occupied(a),
    decreases a.len()
{
    if a.len() > 0 {
        assert(forall|i: int| 0 <= i < a.len() - 1
            ==> #[trigger] a.drop_last()[i] == a[i] && b.drop_last()[i] == b[i]);
        lemma_count_occupied_mono(a.drop_last(), b.drop_last());
        if exists|i: int| 0 <= i < a.len() && (#[trigger] a[i]) is None && b[i] is Some {
            let i = choose|i: int| 0 <= i < a.len() && (#[trigger] a[i]) is None
                && b[i] is Some;
            if i < a.len() - 1 {
                assert(a.drop_last()[i] is None && b.drop_last()[i] is Some);
            }
        }
    }
}

/// Public bound on the occupied count.
pub proof fn lemma_count_occupied_le(occ: Seq<Option<u8>>)
    ensures
        0 <= count_occupied(occ) <= occ.len(),
{
    lemma_count_occupied_bounds(occ);
}

/// The unvisited cells among `ns`, in order, as the flood fill queues them.
pub open spec fn filt_n(flags: Seq<u8>, ns: Seq<int>, n: nat) -> Seq<usize>
    decreases n
{
    if n == 0 {
        Seq::empty()
    } else {
        filt_n(flags, ns, (n - 1) as nat)
            + if 0 <= ns[n - 1] < flags.len() && flags[ns[n - 1]] == 0 {
                seq![ns[n - 1] as usize]
            } else {
                Seq::empty()
            }
    }
}

pub open spec fn filt(flags: Seq<u8>, ns: Seq<int>) -> Seq<usize> {
    filt_n(flags, ns, ns.len())
}

/// The neighbor lists of cell `k`.
pub open spec fn card_of(rows: int, cols: int, k: int) -> Seq<int> {
    crate::neighbors::card_seq(rows, cols, k % cols, k / cols)
}

pub open spec fn diag_of(rows: int, cols: int, k: int) -> Seq<int> {
    crate::neighbors::diag_seq(rows, cols, k % cols, k / cols)
}

/// One run of the two-level flood fill, as a worklist recursion: the
/// cardinal stack is drained first (spreading a 4-connected region), then
/// the eightway stack (starting a new 4-connected region inside the current
/// 8-connected one), then the outer stack (starting a new 8-connected
/// region).  Returns the component counts `(eightway, cardinal)`.
pub open spec fn flood_spec(rows: int, cols: int, flags: Seq<u8>, stack: Seq<usize>,
    estack: Seq<usize>, cstack: Seq<usize>, e: int, c: int) -> (int, int)
    decreases count0(flags), cstack.len() + estack.len() + stack.len()
        via flood_spec_dec
{
    if cstack.len() > 0 {
        let k = cstack.last() as int;
        if 0 <= k < flags.len() && flags[k] == 0 {
            let f2 = flags.update(k, 2u8);
            flood_spec(rows, cols, f2, stack,
                estack + filt(f2, diag_of(rows, cols, k)),
                cstack.drop_last() + filt(f2, card_of(rows, cols, k)), e, c)
        } else {
            flood_spec(rows, cols, flags, stack, estack, cstack.drop_last(), e, c)
        }
    } else if estack.len() > 0 {
        let j = estack.last() as int;
        if 0 <= j < flags.len() && flags[j] == 0 {
            let f2 = flags.update(j, 2u8);
            flood_spec(rows, cols, f2, stack,
                estack.drop_last() + filt(f2, diag_of(rows, cols, j)),
                filt(f2, card_of(rows, cols, j)), e, c + 1)
        } else {
            flood_spec(rows, cols, flags, stack, estack.drop_last(), cstack, e, c)
        }
    } else if stack.len() > 0 {
        let i = stack.last() as int;
        if 0 <= i < flags.len() && flags[i] == 0 {
            let f2 = flags.update(i, 2u8);
            flood_spec(rows, cols, f2, stack.drop_last(),
                filt(f2, diag_of(rows, cols, i)), filt(f2, card_of(rows, cols, i)),
                e + 1, c + 1)
        } else {
            flood_spec(rows, cols, flags, stack.drop_last(), estack, cstack, e, c)
        }
    } else {
        (e, c)
    }
}

#[via_fn]
proof fn flood_spec_dec(rows: int, cols: int, flags: Seq<u8>, stack: Seq<usize>,
    estack: Seq<usize>, cstack: Seq<usize>, e: int, c: int) {
    lemma_count0_bounds(flags);
    if cstack.len() > 0 {
        let k = cstack.last() as int;
        if 0 <= k < flags.len() && flags[k] == 0 {
            lemma_count0_pos(flags, k);
            lemma_count0_update(flags, k, 2);
        }
    } else if estack.len() > 0 {
        let j = estack.last() as int;
        if 0 <= j < flags.len() && flags[j] == 0 {
            lemma_count0_pos(flags, j);
            lemma_count0_update(flags, j, 2);
        }
    } else if stack.len() > 0 {
        let i = stack.last() as int;
        if 0 <= i < flags.len() && flags[i] == 0 {
            lemma_count0_pos(flags, i);
            lemma_count0_update(flags, i, 2);
        }
    }
}

/// The initial flag array: 1 on occupied cells, 0 on empty cells.
pub open spec fn init_flags(occ: Seq<Option<u8>>) -> Seq<u8> {
    Seq::new(occ.len(), |i: int| if occ[i] is Some { 1u8 } else { 0u8 })
}

/// The empty cells among the first `n`, in ascending index order.
pub open spec fn empties_n(occ: Seq<Option<u8>>, n: nat) -> Seq<usize>
    decreases n
{
    if n == 0 {
        Seq::empty()
    } else {
        empties_n(occ, (n - 1) as nat)
            + if occ[n - 1] is None { seq![(n - 1) as usize] } else { Seq::empty() }
    }
}

/// The `(eightway, cardinal)` component counts of a board's empty cells,
/// as the flood fill of this module computes them.
pub open spec fn components_spec(occ: Seq<Option<u8>>, rows: int, cols: int) -> (int, int) {
    flood_spec(rows, cols, init_flags(occ), empties_n(occ, occ.len()), Seq::empty(),
        Seq::empty(), 0, 0)
}

/// The evaluation heuristic: `occupied - 3 * eightway - cardinal`.
pub open spec fn score_spec(occ: Seq<Option<u8>>, rows: int, cols: int) -> int {
    count_occupied(occ) - 3 * components_spec(occ, rows, cols).0
        - components_spec(occ, rows, cols).1
}

/// Flag/occupancy agreement: flag 1 marks exactly the occupied cells.
spec fn flags_occ(f: Seq<u8>, b: Board) -> bool {
    &&& f.len() == b.size_spec()
    &&& forall|j: int| 0 <= j < f.len() ==> ((#[trigger] f[j] == 1u8) <==> b.occ()[j] is Some)
}

/// Stack validity: every entry is an in-bounds empty cell.
spec fn stack_ok(s: Seq<usize>, b: Board) -> bool {
    forall|k: int| 0 <= k < s.len()
        ==> ((#[trigger] s[k]) as int) < b.size_spec() && b.occ()[s[k] as int] is None
}

/// Marks never disappear: flags change only from 0 to 2.
spec fn marks_only(f0: Seq<u8>, f1: Seq<u8>) -> bool {
    &&& f0.len() == f1.len()
    &&& forall|j: int| 0 <= j < f0.len()
        ==> #[trigger] f1[j] == f0[j] || (f0[j] == 0 && f1[j] == 2)
}

/// Mark one empty cell visited and queue its unvisited cardinal neighbors
/// for the 4-way flood and its unvisited diagonal neighbors for the 8-way
/// flood.
fn mark_cell(b: &Board, flags: &mut Vec<u8>, estack: &mut Vec<usize>,
    cstack: &mut Vec<usize>, k: usize)
    requires
        b.wf(),
        flags_occ(old(flags)@, *b),
        stack_ok(old(estack)@, *b),
        stack_ok(old(cstack)@, *b),
        (k as int) < b.size_spec(),
        old(flags)@[k as int] == 0,
    ensures
        flags_occ(final(flags)@, *b),
        stack_ok(final(estack)@, *b),
        stack_ok(final(cstack)@, *b),
        final(flags)@ == old(flags)@.update(k as int, 2u8),
        final(cstack)@ == old(cstack)@
            + filt(final(flags)@, card_of(b.rows_spec(), b.cols_spec(), k as int)),
        final(estack)@ == old(estack)@
            + filt(final(flags)@, diag_of(b.rows_spec(), b.cols_spec(), k as int)),
{
    proof {
        b.lemma_wf_dims();
    }
    flags[k] = 2;
    let ghost f2 = flags@;
    let ghost cs = card_of(b.rows_spec(), b.cols_spec(), k as int);
    let ghost ds = diag_of(b.rows_spec(), b.cols_spec(), k as int);
    let mut it = b.cardinal_neighbors(k);
    let ghost mut j: int = 0;
    proof {
        assert(cs.skip(0) =~= cs);
        assert(cstack@ =~= old(cstack)@ + filt_n(f2, cs, 0));
    }
    loop
        invariant
            b.wf(),
            it.wf(),
            flags_occ(flags@, *b),
            stack_ok(cstack@, *b),
            flags@ == f2,
            f2 == old(flags)@.update(k as int, 2u8),
            f2.len() == b.size_spec(),
            cs == card_of(b.rows_spec(), b.cols_spec(), k as int),
            0 <= j <= cs.len(),
            it.rem() == cs.skip(j),
            forall|m: int| 0 <= m < cs.len() ==> 0 <= #[trigger] cs[m] < b.size_spec(),
            cstack@ == old(cstack)@ + filt_n(f2, cs, j as nat),
        ensures
            cstack@ == old(cstack)@ + filt(f2, cs),
        decreases it.rem().len(),
    {
        match it.next() {
            None => {
                proof {
                    assert(cs.skip(j).len() == 0);
                    assert(j == cs.len());
                }
                break;
            },
            Some(nb) => {
                proof {
                    assert(cs.skip(j)[0] == cs[j]);
                    assert(cs.skip(j).drop_first() =~= cs.skip(j + 1));
                }
                if flags[nb] == 0 {
                    cstack.push(nb);
                    proof {
                        assert(cstack@ =~= old(cstack)@ + filt_n(f2, cs, (j + 1) as nat));
                    }
                } else {
                    proof {
                        assert(cstack@ =~= old(cstack)@ + filt_n(f2, cs, (j + 1) as nat));
                    }
                }
                proof {
                    j = j + 1;
                }
            },
        }
    }
    let mut it2 = b.diagonal_neighbors(k);
    let ghost mut j2: int = 0;
    proof {
        assert(ds.skip(0) =~= ds);
        assert(estack@ =~= old(estack)@ + filt_n(f2, ds, 0));
    }
    loop
        invariant
            b.wf(),
            it2.wf(),
            flags_occ(flags@, *b),
            stack_ok(estack@, *b),
            flags@ == f2,
            f2 == old(flags)@.update(k as int, 2u8),
            f2.len() == b.size_spec(),
            ds == diag_of(b.rows_spec(), b.cols_spec(), k as int),
            0 <= j2 <= ds.len(),
            it2.rem() == ds.skip(j2),
            forall|m: int| 0 <= m < ds.len() ==> 0 <= #[trigger] ds[m] < b.size_spec(),
            estack@ == old(estack)@ + filt_n(f2, ds, j2 as nat),
            cstack@ == old(cstack)@ + filt(f2, cs),
        ensures
            estack@ == old(estack)@ + filt(f2, ds),
            cstack@ == old(cstack)@ + filt(f2, cs),
        decreases it2.rem().len(),
    {
        match it2.next() {
            None => {
                proof {
                    assert(ds.skip(j2).len() == 0);
                    assert(j2 == ds.len());
                }
                break;
            },
            Some(nb) => {
                proof {
                    assert(ds.skip(j2)[0] == ds[j2]);
                    assert(ds.skip(j2).drop_first() =~= ds.skip(j2 + 1));
                }
                if flags[nb] == 0 {
                    estack.push(nb);
                    proof {
                        assert(estack@ =~= old(estack)@ + filt_n(f2, ds, (j2 + 1) as nat));
                    }
                } else {
                    proof {
                        assert(estack@ =~= old(estack)@ + filt_n(f2, ds, (j2 + 1) as nat));
                    }
                }
                proof {
                    j2 = j2 + 1;
                }
            },
        }
    }
}

/// Flood one 4-connected region: mark every cell reachable from the cardinal
/// stack, pushing diagonal neighbors for the enclosing 8-way flood.
fn flood_cardinal(b: &Board, flags: &mut Vec<u8>, estack: &mut Vec<usize>,
    cstack: &mut Vec<usize>)
    requires
        b.wf(),
        flags_occ(old(flags)@, *b),
        stack_ok(old(estack)@, *b),
        stack_ok(old(cstack)@, *b),
    ensures
        flags_occ(final(flags)@, *b),
        stack_ok(final(estack)@, *b),
        final(cstack)@.len() == 0,
        marks_only(old(flags)@, final(flags)@),
        count0(final(flags)@) <= count0(old(flags)@),
        forall|sk: Seq<usize>, e: int, c: int|
            #[trigger] flood_spec(b.rows_spec(), b.cols_spec(), final(flags)@, sk,
                final(estack)@, final(cstack)@, e, c)
            == flood_spec(b.rows_spec(), b.cols_spec(), old(flags)@, sk, old(estack)@,
                old(cstack)@, e, c),
{
    let ghost rows = b.rows_spec();
    let ghost cols = b.cols_spec();
    loop
        invariant
            b.wf(),
            rows == b.rows_spec(),
            cols == b.cols_spec(),
            flags_occ(flags@, *b),
            stack_ok(estack@, *b),
            stack_ok(cstack@, *b),
            marks_only(old(flags)@, flags@),
            count0(flags@) <= count0(old(flags)@),
            forall|sk: Seq<usize>, e: int, c: int|
                #[trigger] flood_spec(rows, cols, flags@, sk, estack@, cstack@, e, c)
                == flood_spec(rows, cols, old(flags)@, sk, old(estack)@, old(cstack)@,
                    e, c),
        ensures
            cstack@.len() == 0,
            forall|sk: Seq<usize>, e: int, c: int|
                #[trigger] flood_spec(rows, cols, flags@, sk, estack@, cstack@, e, c)
                == flood_spec(rows, cols, old(flags)@, sk, old(estack)@, old(cstack)@,
                    e, c),
        decreases count0(flags@), cstack@.len(),
    {
        proof {
            lemma_count0_bounds(flags@);
            b.lemma_wf_dims();
        }
        let ghost fpre = flags@;
        let ghost epre = estack@;
        let ghost cpre = cstack@;
        match cstack.pop() {
            None => {
                break;
            },
            Some(k) => {
                if flags[k] == 0 {
                    let ghost f0 = flags@;
                    mark_cell(b, flags, estack, cstack, k);
                    proof {
                        lemma_count0_pos(f0, k as int);
                        lemma_count0_update(f0, k as int, 2);
                        lemma_count0_bounds(flags@);
                        assert forall|sk: Seq<usize>, e: int, c: int|
                            #[trigger] flood_spec(rows, cols, flags@, sk, estack@,
                                cstack@, e, c)
                            == flood_spec(rows, cols, old(flags)@, sk, old(estack)@,
                                old(cstack)@, e, c) by {
                            assert(cpre.last() == k);
                            assert(flood_spec(rows, cols, fpre, sk, epre, cpre, e, c)
                                == flood_spec(rows, cols, flags@, sk, estack@, cstack@,
                                    e, c));
                        }
                    }
                } else {
                    proof {
                        assert forall|sk: Seq<usize>, e: int, c: int|
                            #[trigger] flood_spec(rows, cols, flags@, sk, estack@,
                                cstack@, e, c)
                            == flood_spec(rows, cols, old(flags)@, sk, old(estack)@,
                                old(cstack)@, e, c) by {
                            assert(cpre.last() == k);
                            assert(flood_spec(rows, cols, fpre, sk, epre, cpre, e, c)
                                == flood_spec(rows, cols, flags@, sk, estack@, cstack@,
                                    e, c));
                        }
                    }
                }
            },
        }
    }
}

/// Flood one 8-connected region seeded at `seed`, counting each contained
/// 4-connected region once.
fn flood_eightway(b: &Board, flags: &mut Vec<u8>, estack: &mut Vec<usize>,
    cstack: &mut Vec<usize>, cardinal: &mut usize, seed: usize)
    requires
        b.wf(),
        flags_occ(old(flags)@, *b),
        old(estack)@.len() == 0,
        old(cstack)@.len() == 0,
        (seed as int) < b.size_spec(),
        b.occ()[seed as int] is None,
        old(flags)@[seed as int] == 0,
        (*old(cardinal)) as int <= MAX_CELLS,
    ensures
        flags_occ(final(flags)@, *b),
        final(estack)@.len() == 0,
        final(cstack)@.len() == 0,
        marks_only(old(flags)@, final(flags)@),
        final(flags)@[seed as int] != 0,
        count0(final(flags)@) < count0(old(flags)@),
        *final(cardinal) > *old(cardinal),
        (*final(cardinal)) - (*old(cardinal))
            <= count0(old(flags)@) - count0(final(flags)@),
        forall|sk: Seq<usize>, e: int|
            #[trigger] flood_spec(b.rows_spec(), b.cols_spec(), final(flags)@, sk,
                final(estack)@, final(cstack)@, e, (*final(cardinal)) as int)
            == flood_spec(b.rows_spec(), b.cols_spec(),
                old(flags)@.update(seed as int, 2u8), sk,
                filt(old(flags)@.update(seed as int, 2u8),
                    diag_of(b.rows_spec(), b.cols_spec(), seed as int)),
                filt(old(flags)@.update(seed as int, 2u8),
                    card_of(b.rows_spec(), b.cols_spec(), seed as int)),
                e, (*old(cardinal)) as int + 1),
{
    let ghost rows = b.rows_spec();
    let ghost cols = b.cols_spec();
    let ghost f_in = old(flags)@;
    let ghost c_in = *old(cardinal);
    let ghost fseed = f_in.update(seed as int, 2u8);
    let ghost eseed = filt(fseed, diag_of(rows, cols, seed as int));
    let ghost cseed = filt(fseed, card_of(rows, cols, seed as int));
    proof {
        lemma_count0_bounds(f_in);
        lemma_count0_pos(f_in, seed as int);
        b.lemma_wf_dims();
    }
    *cardinal = *cardinal + 1;
    mark_cell(b, flags, estack, cstack, seed);
    proof {
        lemma_count0_update(f_in, seed as int, 2);
        assert(estack@ =~= eseed);
        assert(cstack@ =~= cseed);
    }
    flood_cardinal(b, flags, estack, cstack);
    loop
        invariant
            b.wf(),
            rows == b.rows_spec(),
            cols == b.cols_spec(),
            fseed == f_in.update(seed as int, 2u8),
            eseed == filt(fseed, diag_of(rows, cols, seed as int)),
            cseed == filt(fseed, card_of(rows, cols, seed as int)),
            flags_occ(flags@, *b),
            stack_ok(estack@, *b),
            cstack@.len() == 0,
            marks_only(f_in, flags@),
            flags@[seed as int] != 0,
            (seed as int) < f_in.len(),
            count0(flags@) < count0(f_in),
            (*cardinal) - c_in <= count0(f_in) - count0(flags@),
            *cardinal > c_in,
            c_in as int <= MAX_CELLS,
            count0(f_in) <= f_in.len() && f_in.len() == b.size_spec()
                && b.size_spec() <= MAX_CELLS,
            forall|sk: Seq<usize>, e: int|
                #[trigger] flood_spec(rows, cols, flags@, sk, estack@, cstack@, e,
                    (*cardinal) as int)
                == flood_spec(rows, cols, fseed, sk, eseed, cseed, e, c_in as int + 1),
        ensures
            estack@.len() == 0,
            cstack@.len() == 0,
            flags_occ(flags@, *b),
            marks_only(f_in, flags@),
            flags@[seed as int] != 0,
            count0(flags@) < count0(f_in),
            *cardinal > c_in,
            (*cardinal) - c_in <= count0(f_in) - count0(flags@),
            forall|sk: Seq<usize>, e: int|
                #[trigger] flood_spec(rows, cols, flags@, sk, estack@, cstack@, e,
                    (*cardinal) as int)
                == flood_spec(rows, cols, fseed, sk, eseed, cseed, e, c_in as int + 1),
        decreases count0(flags@), estack@.len(),
    {
        proof {
            lemma_count0_bounds(flags@);
        }
        let ghost fpre = flags@;
        let ghost epre = estack@;
        let ghost cpre = cstack@;
        let ghost cardpre = *cardinal;
        match estack.pop() {
            None => {
                break;
            },
            Some(j) => {
                if flags[j] == 0 {
                    let ghost f0 = flags@;
                    *cardinal = *cardinal + 1;
                    mark_cell(b, flags, estack, cstack, j);
                    proof {
                        lemma_count0_pos(f0, j as int);
                        lemma_count0_update(f0, j as int, 2);
                    }
                    let ghost fmid = flags@;
                    let ghost emid = estack@;
                    let ghost cmid = cstack@;
                    flood_cardinal(b, flags, estack, cstack);
                    proof {
                        lemma_count0_bounds(flags@);
                        assert forall|sk: Seq<usize>, e: int|
                            #[trigger] flood_spec(rows, cols, flags@, sk, estack@,
                                cstack@, e, (*cardinal) as int)
                            == flood_spec(rows, cols, fseed, sk, eseed, cseed, e,
                                c_in as int + 1) by {
                            assert(epre.last() == j);
                            assert(0 <= (j as int) < fpre.len() && fpre[j as int] == 0);
                            assert(fmid == fpre.update(j as int, 2u8));
                            assert(emid == epre.drop_last()
                                + filt(fmid, diag_of(rows, cols, j as int)));
                            assert(cmid =~= filt(fmid, card_of(rows, cols, j as int)));
                            assert(flood_spec(rows, cols, fpre, sk, epre, cpre, e,
                                cardpre as int)
                                == flood_spec(rows, cols, fmid, sk, emid, cmid, e,
                                    (*cardinal) as int));
                            assert(flood_spec(rows, cols, fmid, sk, emid, cmid, e,
                                (*cardinal) as int)
                                == flood_spec(rows, cols, flags@, sk, estack@, cstack@,
                                    e, (*cardinal) as int));
                        }
                    }
                } else {
                    proof {
                        assert forall|sk: Seq<usize>, e: int|
                            #[trigger] flood_spec(rows, cols, flags@, sk, estack@,
                                cstack@, e, (*cardinal) as int)
                            == flood_spec(rows, cols, fseed, sk, eseed, cseed, e,
                                c_in as int + 1) by {
                            assert(epre.last() == j);
                            assert(fpre[j as int] != 0);
                            assert(estack@ == epre.drop_last());
                            assert(flood_spec(rows, cols, fpre, sk, epre, cpre, e,
                                cardpre as int)
                                == flood_spec(rows, cols, flags@, sk, estack@, cstack@,
                                    e, (*cardinal) as int));
                        }
                    }
                }
            },
        }
    }
}

/// The components of a board's score.
pub struct BoardScore {
    /// Number of occupied cells.
    pub occupied: usize,
    /// Number of 8-connected components of empty cells.
    pub eightway: usize,
    /// Number of 4-connected components of empty cells, found as a
    /// refinement within each 8-connected component.
    pub cardinal: usize,
    /// `occupied - 3 * eightway - cardinal`.
    pub value: i64,
}

/// Score the board: count occupied cells, the 8-connected components of the
/// empty cells, and the 4-connected components within them, and combine them
/// as `occupied - 3 * eightway - cardinal`.
pub fn board_score(b: &Board) -> (s: BoardScore)
    requires
        b.wf(),
    ensures
        s.occupied as int == count_occupied(b.occ()),
        s.eightway as int == components_spec(b.occ(), b.rows_spec(), b.cols_spec()).0,
        s.cardinal as int == components_spec(b.occ(), b.rows_spec(), b.cols_spec()).1,
        s.value as int == score_spec(b.occ(), b.rows_spec(), b.cols_spec()),
        s.value as int == s.occupied - 3 * s.eightway - s.cardinal,
        s.eightway <= s.cardinal,
        s.cardinal as int <= b.size_spec() - s.occupied,
        (s.eightway == 0) <==> (s.occupied as int == b.size_spec()),
{
    proof {
        b.lemma_wf_dims();
    }
    let size = b.size();
    let mut flags: Vec<u8> = Vec::new();
    let mut stack: Vec<usize> = Vec::new();
    let mut occupied: usize = 0;
    for i in 0..size
        invariant
            b.wf(),
            size as int == b.size_spec(),
            b.occ().len() == size as int,
            flags@.len() == i,
            occupied as int == count_occupied(b.occ().take(i as int)),
            occupied <= i,
            forall|j: int| 0 <= j < i
                ==> ((#[trigger] flags@[j] == 1u8) <==> b.occ()[j] is Some),
            forall|j: int| 0 <= j < i ==> flags@[j] == 0 || flags@[j] == 1,
            forall|j: int| 0 <= j < i && b.occ()[j] is None
                ==> stack@.contains(j as usize),
            stack@ == empties_n(b.occ(), i as nat),
            stack_ok(stack@, *b),
    {
        proof {
            b.lemma_wf_dims();
            assert(b.occ().take(i + 1).drop_last() =~= b.occ().take(i as int));
            assert(b.occ().take(i + 1).last() == b.occ()[i as int]);
        }
        let ghost st0 = stack@;
        match b.at(i) {
            None => {
                stack.push(i);
                flags.push(0);
                proof {
                    assert forall|j: int| 0 <= j < i + 1 && b.occ()[j] is None
                        implies stack@.contains(j as usize) by {
                        if j < i {
                            let m = choose|m: int| 0 <= m < st0.len()
                                && st0[m] == j as usize;
                            assert(stack@[m] == j as usize);
                        } else {
                            assert(stack@[st0.len() as int] == i);
                        }
                    }
                    assert(stack@ =~= empties_n(b.occ(), (i + 1) as nat));
                }
            },
            Some(_) => {
                occupied = occupied + 1;
                flags.push(1);
                proof {
                    assert(stack@ =~= empties_n(b.occ(), (i + 1) as nat));
                }
            },
        }
    }
    proof {
        assert(b.occ().take(size as int) =~= b.occ());
        lemma_count_occupied_bounds(b.occ());
        lemma_flags_count(flags@, b.occ(), size as int);
        assert(flags@ =~= init_flags(b.occ()));
    }
    let ghost empties: int = size - occupied;
    let ghost rows = b.rows_spec();
    let ghost cols = b.cols_spec();
    let ghost goal = components_spec(b.occ(), rows, cols);
    let mut eightway: usize = 0;
    let mut cardinal: usize = 0;
    let mut estack: Vec<usize> = Vec::new();
    let mut cstack: Vec<usize> = Vec::new();
    loop
        invariant
            b.wf(),
            size as int == b.size_spec(),
            b.occ().len() == size as int,
            occupied as int == count_occupied(b.occ()),
            occupied <= size,
            empties == size - occupied,
            flags_occ(flags@, *b),
            estack@.len() == 0,
            cstack@.len() == 0,
            stack_ok(stack@, *b),
            forall|j: int| 0 <= j < size && b.occ()[j] is None
                ==> flags@[j] != 0 || stack@.contains(j as usize),
            eightway <= cardinal,
            cardinal as int <= empties - count0(flags@),
            0 <= count0(flags@),
            eightway == 0 ==> count0(flags@) == empties,
            rows == b.rows_spec(),
            cols == b.cols_spec(),
            goal == components_spec(b.occ(), rows, cols),
            flood_spec(rows, cols, flags@, stack@, estack@, cstack@, eightway as int,
                cardinal as int) == goal,
        ensures
            eightway <= cardinal,
            cardinal as int <= empties - count0(flags@),
            0 <= count0(flags@),
            eightway == 0 ==> count0(flags@) == empties,
            forall|j: int| 0 <= j < size && b.occ()[j] is None ==> flags@[j] != 0,
            flags_occ(flags@, *b),
            stack@.len() == 0,
            estack@.len() == 0,
            cstack@.len() == 0,
            flood_spec(rows, cols, flags@, stack@, estack@, cstack@, eightway as int,
                cardinal as int) == goal,
        decreases stack@.len(),
    {
        proof {
            b.lemma_wf_dims();
            lemma_count0_bounds(flags@);
        }
        let ghost st0 = stack@;
        let ghost f0 = flags@;
        let ghost e0 = eightway as int;
        let ghost c0 = cardinal as int;
        match stack.pop() {
            None => {
                break;
            },
            Some(i) => {
                if flags[i] != 0 {
                    proof {
                        assert forall|j: int| 0 <= j < size && b.occ()[j] is None
                            implies flags@[j] != 0 || stack@.contains(j as usize) by {
                            if flags@[j] == 0 {
                                assert(st0.contains(j as usize));
                                assert(j != i as int);
                                lemma_contains_after_pop(st0, j as usize);
                            }
                        }
                        assert(st0.last() == i && f0[i as int] != 0);
                        assert(flood_spec(rows, cols, f0, st0, estack@, cstack@, e0, c0)
                            == flood_spec(rows, cols, flags@, stack@, estack@, cstack@,
                                eightway as int, cardinal as int));
                    }
                } else {
                    eightway = eightway + 1;
                    let ghost fseed = f0.update(i as int, 2u8);
                    flood_eightway(b, &mut flags, &mut estack, &mut cstack, &mut cardinal,
                        i);
                    proof {
                        lemma_count0_bounds(flags@);
                        assert forall|j: int| 0 <= j < size && b.occ()[j] is None
                            implies flags@[j] != 0 || stack@.contains(j as usize) by {
                            if flags@[j] == 0 {
                                assert(f0[j] == 0);
                                assert(st0.contains(j as usize));
                                assert(j != i as int);
                                lemma_contains_after_pop(st0, j as usize);
                            }
                        }
                        assert(st0.last() == i && 0 <= (i as int) < f0.len()
                            && f0[i as int] == 0);
                        assert(flood_spec(rows, cols, f0, st0, Seq::<usize>::empty(),
                            Seq::<usize>::empty(), e0, c0)
                            == flood_spec(rows, cols, fseed, st0.drop_last(),
                                filt(fseed, diag_of(rows, cols, i as int)),
                                filt(fseed, card_of(rows, cols, i as int)), e0 + 1,
                                c0 + 1));
                        assert(flood_spec(rows, cols, fseed, st0.drop_last(),
                            filt(fseed, diag_of(rows, cols, i as int)),
                            filt(fseed, card_of(rows, cols, i as int)), e0 + 1, c0 + 1)
                            == flood_spec(rows, cols, flags@, stack@, estack@, cstack@,
                                eightway as int, cardinal as int));
                    }
                }
            },
        }
    }
    proof {
        lemma_count0_bounds(flags@);
        lemma_all_nonzero_count0(flags@, b.occ(), size as int);
        assert(flood_spec(rows, cols, flags@, stack@, estack@, cstack@, eightway as int,
            cardinal as int) == (eightway as int, cardinal as int));
        assert(goal == (eightway as int, cardinal as int));
    }
    let value = occupied as i64 - 3 * (eightway as i64) - (cardinal as i64);
    BoardScore { occupied, eightway, cardinal, value }
}

} // verus!
