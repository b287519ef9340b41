//! The generic best-first tree-search engine: selection of an unexpanded
//! leaf, replay of its move sequence on the live game state, expansion,
//! random rollout, backpropagation of the sampled value, and restoration of
//! the root position.
//!
//! The engine drives any implementation of [`GameStateMut`] and stores no
//! board snapshots: a node's position is reconstructed by replaying moves
//! from the root, and abandoned by undoing them.

use vstd::prelude::*;
use crate::game::GameStateMut;

verus! {

/// Declared so the engine can hold rand's standard generator in signatures.
#[verifier::external_type_specification]
#[verifier::external_body]
pub struct ExStdRng(rand::rngs::StdRng);

/// Relies on rand's `RngExt::random_range` over `0..n`: a draw below `n`.
/// The range is nonempty since `n >= 1`, so the call cannot panic.
#[verifier::external_body]
fn random_below(rng: &mut rand::rngs::StdRng, n: usize) -> (r: usize)
    requires
        n >= 1,
    ensures
        r < n,
{
    rand::RngExt::random_range(rng, 0..n)
}

/// Tree depth of node `i` under the parent table `ps`.
pub open spec fn node_depth(ps: Seq<usize>, i: int) -> nat
    decreases i
{
    if 0 < i < ps.len() && (ps[i] as int) < i {
        1 + node_depth(ps, ps[i] as int)
    } else {
        0
    }
}

/// `j` lies on the path from `i` up to the root.
pub open spec fn on_path(ps: Seq<usize>, i: int, j: int) -> bool
    decreases i
{
    j == i || (0 < i < ps.len() && (ps[i] as int) < i && on_path(ps, ps[i] as int, j))
}

/// Path members never exceed their start node.
proof fn lemma_on_path_le(ps: Seq<usize>, i: int, j: int)
    requires
        on_path(ps, i, j),
    ensures
        j <= i,
    decreases i
{
    if j != i {
        lemma_on_path_le(ps, ps[i] as int, j);
    }
}

/// The path is closed upward: the parent of a path member is a member.
proof fn lemma_on_path_parent(ps: Seq<usize>, i: int, j: int)
    requires
        on_path(ps, i, j),
        0 < j < ps.len(),
        (ps[j] as int) < j,
    ensures
        on_path(ps, i, ps[j] as int),
    decreases i
{
    if j == i {
        assert(on_path(ps, ps[i] as int, ps[i] as int));
    } else {
        lemma_on_path_parent(ps, ps[i] as int, j);
    }
}

/// Node depth ignores parent entries appended after the node.
proof fn lemma_node_depth_extend(ps: Seq<usize>, qs: Seq<usize>, i: int)
    requires
        ps.len() <= qs.len(),
        forall|k: int| 0 <= k < ps.len() ==> #[trigger] qs[k] == ps[k],
        0 <= i < ps.len(),
        forall|k: int| 0 < k < ps.len() ==> (#[trigger] ps[k] as int) < k,
    ensures
        node_depth(qs, i) == node_depth(ps, i),
    decreases i
{
    if 0 < i {
        lemma_node_depth_extend(ps, qs, ps[i] as int);
    }
}

/// The first position of `n` within a child list.
pub open spec fn child_index(c: Seq<usize>, n: usize) -> int
    decreases c.len()
{
    if c.len() == 0 {
        0
    } else if c[0] == n {
        0
    } else {
        1 + child_index(c.drop_first(), n)
    }
}

/// The first match determines `child_index`.
proof fn lemma_child_index_first(c: Seq<usize>, n: usize, j: int)
    requires
        0 <= j < c.len(),
        c[j] == n,
        forall|m: int| 0 <= m < j ==> (#[trigger] c[m]) != n,
    ensures
        child_index(c, n) == j,
    decreases j
{
    if j > 0 {
        assert(c[0] != n);
        assert(forall|m: int| 0 <= m < j - 1 ==> #[trigger] c.drop_first()[m] == c[m + 1]);
        lemma_child_index_first(c.drop_first(), n, j - 1);
    }
}

/// The best-first search tree: parent links, child lists (`None` marks an
/// unexpanded leaf), and running value statistics.  Nodes are only ever
/// appended; ids are stable for the life of a search.
pub struct TreeSearch {
    children: Vec<Option<Vec<usize>>>,
    parent: Vec<usize>,
    value_sums: Vec<i128>,
    value_counts: Vec<usize>,
}

/// The move-index sequence that replays the path from the root to node `i`:
/// at each edge, the child's position within its parent's child list.
pub open spec fn path_indices(t: TreeSearch, i: int) -> Seq<usize>
    decreases i
{
    if 0 < i < t.len() && (t.parents()[i] as int) < i
        && t.kids()[t.parents()[i] as int] is Some {
        path_indices(t, t.parents()[i] as int)
            + seq![child_index(t.kids()[t.parents()[i] as int]->Some_0, i as usize)
                as usize]
    } else {
        Seq::empty()
    }
}

impl TreeSearch {
    pub closed spec fn parents(self) -> Seq<usize> {
        self.parent@
    }

    /// Child lists: `None` for an unexpanded leaf.
    pub closed spec fn kids(self) -> Seq<Option<Seq<usize>>> {
        Seq::new(self.children@.len(), |i: int| match self.children@[i] {
            Some(v) => Some(v@),
            None => None,
        })
    }

    pub closed spec fn sums(self) -> Seq<i128> {
        self.value_sums@
    }

    pub closed spec fn counts(self) -> Seq<usize> {
        self.value_counts@
    }

    pub open spec fn len(self) -> int {
        self.parents().len() as int
    }

    /// Structural invariant: the root is node 0 and its own parent, parents
    /// precede children, every child list points back at its parent, visit
    /// counts never exceed the parent's, and value sums are bounded by
    /// `visit_count` samples of `i64` magnitude.
    pub closed spec fn wf(self) -> bool {
        &&& self.parents().len() >= 1
        &&& self.kids().len() == self.parents().len()
        &&& self.sums().len() == self.parents().len()
        &&& self.counts().len() == self.parents().len()
        &&& self.parents()[0] == 0usize
        &&& forall|i: int| 0 < i < self.len() ==> (#[trigger] self.parents()[i] as int) < i
        &&& forall|i: int| 0 < i < self.len()
            ==> ((#[trigger] self.kids()[self.parents()[i] as int]) matches Some(c)
                && c.contains(i as usize))
        &&& forall|i: int| 0 < i < self.len()
            ==> (#[trigger] self.counts()[i]) <= self.counts()[self.parents()[i] as int]
        &&& forall|i: int| 0 <= i < self.len()
            ==> ((#[trigger] self.counts()[i]) as int) * (i64::MIN as int)
                <= (self.sums()[i] as int)
                && (self.sums()[i] as int) <= (self.counts()[i] as int) * (i64::MAX as int)
    }

    /// A search tree holding only the unexpanded root.
    pub fn new() -> (t: TreeSearch)
        ensures
            t.wf(),
            t.len() == 1,
            t.kids()[0] is None,
            t.counts()[0] == 0,
            t.sums()[0] == 0,
    {
        let mut children: Vec<Option<Vec<usize>>> = Vec::new();
        children.push(None);
        let mut parent: Vec<usize> = Vec::new();
        parent.push(0);
        let mut value_sums: Vec<i128> = Vec::new();
        value_sums.push(0);
        let mut value_counts: Vec<usize> = Vec::new();
        value_counts.push(0);
        let t = TreeSearch { children, parent, value_sums, value_counts };
        proof {
            assert(t.kids()[0] is None);
        }
        t
    }

    pub fn node_count(&self) -> (r: usize)
        ensures
            r as int == self.len(),
    {
        self.parent.len()
    }

    pub fn visit_count(&self, i: usize) -> (r: usize)
        requires
            self.wf(),
            (i as int) < self.len(),
        ensures
            r == self.counts()[i as int],
    {
        self.value_counts[i]
    }

    pub fn value_sum(&self, i: usize) -> (r: i128)
        requires
            self.wf(),
            (i as int) < self.len(),
        ensures
            r == self.sums()[i as int],
    {
        self.value_sums[i]
    }

    /// The ids of all unexpanded leaves, in increasing order.
    pub fn leaves(&self) -> (r: Vec<usize>)
        requires
            self.wf(),
        ensures
            forall|k: int| 0 <= k < r@.len()
                ==> ((#[trigger] r@[k]) as int) < self.len()
                    && self.kids()[r@[k] as int] is None,
            forall|i: int| 0 <= i < self.len() && self.kids()[i] is None
                ==> r@.contains(i as usize),
            forall|a: int, b: int| 0 <= a < b < r@.len()
                ==> (#[trigger] r@[a]) < (#[trigger] r@[b]),
    {
        let mut r: Vec<usize> = Vec::new();
        let n = self.children.len();
        for i in 0..n
            invariant
                self.wf(),
                n as int == self.len(),
                forall|k: int| 0 <= k < r@.len()
                    ==> ((#[trigger] r@[k]) as int) < i && self.kids()[r@[k] as int] is None,
                forall|j: int| 0 <= j < i && self.kids()[j] is None
                    ==> r@.contains(j as usize),
                forall|a: int, b: int| 0 <= a < b < r@.len()
                    ==> (#[trigger] r@[a]) < (#[trigger] r@[b]),
        {
            let ghost r0 = r@;
            if self.children[i].is_none() {
                proof {
                    assert(self.kids()[i as int] is None);
                }
                r.push(i);
            }
            proof {
                assert forall|j: int| 0 <= j < i + 1 && self.kids()[j] is None
                    implies r@.contains(j as usize) by {
                    if j < i {
                        let m = choose|m: int| 0 <= m < r0.len() && r0[m] == j as usize;
                        assert(r@[m] == j as usize);
                    } else {
                        assert(r@[r@.len() - 1] == i);
                    }
                }
            }
        }
        r
    }

    /// Add one value sample to every node on the path from `i` to the root:
    /// each such node's visit count rises by exactly one and its value sum
    /// by exactly the sample; every other node is untouched.
    pub fn backpropagation(&mut self, i: usize, val: i64)
        requires
            old(self).wf(),
            (i as int) < old(self).len(),
            old(self).counts()[0] < usize::MAX,
        ensures
            final(self).wf(),
            final(self).parents() == old(self).parents(),
            final(self).kids() == old(self).kids(),
            final(self).len() == old(self).len(),
            forall|j: int| 0 <= j < old(self).len()
                ==> (#[trigger] final(self).counts()[j]) as int
                    == old(self).counts()[j]
                        + (if on_path(old(self).parents(), i as int, j) { 1int } else { 0 }),
            forall|j: int| 0 <= j < old(self).len()
                ==> (#[trigger] final(self).sums()[j]) as int
                    == old(self).sums()[j]
                        + (if on_path(old(self).parents(), i as int, j) { val as int }
                            else { 0 }),
    {
        let ghost ps = old(self).parents();
        let mut cur = i;
        loop
            invariant_except_break
                forall|j: int| 0 <= j < old(self).len()
                    ==> (#[trigger] self.counts()[j]) as int
                        == old(self).counts()[j]
                            + (if on_path(ps, i as int, j) && !on_path(ps, cur as int, j) {
                                1int
                            } else { 0 }),
                forall|j: int| 0 <= j < old(self).len()
                    ==> (#[trigger] self.sums()[j]) as int
                        == old(self).sums()[j]
                            + (if on_path(ps, i as int, j) && !on_path(ps, cur as int, j) {
                                val as int
                            } else { 0 }),
            invariant
                old(self).wf(),
                ps == old(self).parents(),
                self.parents() == ps,
                self.kids() == old(self).kids(),
                self.sums().len() == old(self).sums().len(),
                self.counts().len() == old(self).counts().len(),
                (cur as int) < old(self).len(),
                old(self).counts()[0] < usize::MAX,
                on_path(ps, i as int, cur as int),
            ensures
                forall|j: int| 0 <= j < old(self).len()
                    ==> (#[trigger] self.counts()[j]) as int
                        == old(self).counts()[j]
                            + (if on_path(ps, i as int, j) { 1int } else { 0 }),
                forall|j: int| 0 <= j < old(self).len()
                    ==> (#[trigger] self.sums()[j]) as int
                        == old(self).sums()[j]
                            + (if on_path(ps, i as int, j) { val as int } else { 0 }),
            decreases cur,
        {
            proof {
                lemma_on_path_le(ps, cur as int, cur as int);
                assert(!on_path(ps, cur as int, cur as int) == false);
                if cur > 0 {
                    assert((ps[cur as int] as int) < cur as int);
                    assert forall|j: int| on_path(ps, ps[cur as int] as int, j)
                        implies j < cur as int by {
                        lemma_on_path_le(ps, ps[cur as int] as int, j);
                    }
                }
                assert(old(self).counts()[cur as int] == self.counts()[cur as int]);
                lemma_counts_le_root(*old(self), cur as int);
                let sc = self.sums()[cur as int] as int;
                let cc = self.counts()[cur as int] as int;
                assert(cc * (i64::MIN as int) <= sc <= cc * (i64::MAX as int));
                assert(cc < usize::MAX);
                assert((cc + 1) * (i64::MIN as int) <= sc + val
                    <= (cc + 1) * (i64::MAX as int)) by (nonlinear_arith)
                    requires
                        cc * (i64::MIN as int) <= sc <= cc * (i64::MAX as int),
                        (i64::MIN as int) <= val as int <= i64::MAX as int,
                        cc >= 0,
                ;
                assert((cc + 1) * (i64::MAX as int) < i128::MAX
                    && i128::MIN < (cc + 1) * (i64::MIN as int)) by (nonlinear_arith)
                    requires
                        0 <= cc < usize::MAX,
                ;
            }
            let s = self.value_sums[cur];
            self.value_sums[cur] = s + val as i128;
            let c = self.value_counts[cur];
            self.value_counts[cur] = c + 1;
            if cur == 0 {
                proof {
                    assert forall|j: int| 0 <= j < old(self).len()
                        implies on_path(ps, 0, j) == (j == 0) by {
                        if on_path(ps, 0, j) {
                            lemma_on_path_le(ps, 0, j);
                        }
                    }
                }
                break;
            }
            let next = self.parent[cur];
            proof {
                assert(on_path(ps, i as int, next as int)) by {
                    lemma_on_path_parent(ps, i as int, cur as int);
                }
                assert forall|j: int| 0 <= j < old(self).len()
                    implies (on_path(ps, i as int, j) && !on_path(ps, next as int, j))
                        == ((on_path(ps, i as int, j) && !on_path(ps, cur as int, j))
                            || j == cur as int) by {
                    if on_path(ps, cur as int, j) && j != cur as int {
                        assert(on_path(ps, next as int, j));
                    }
                    if on_path(ps, next as int, j) {
                        lemma_on_path_le(ps, next as int, j);
                        assert(on_path(ps, cur as int, j));
                    }
                }
            }
            cur = next;
        }
        proof {
            assert(self.wf()) by {
                assert forall|j: int| 0 < j < self.len()
                    implies (#[trigger] self.counts()[j])
                        <= self.counts()[self.parents()[j] as int] by {
                    if on_path(ps, i as int, j) {
                        lemma_on_path_parent(ps, i as int, j);
                    }
                }
                assert forall|j: int| 0 <= j < self.len()
                    implies ((#[trigger] self.counts()[j]) as int) * (i64::MIN as int)
                        <= (self.sums()[j] as int)
                        && (self.sums()[j] as int)
                            <= (self.counts()[j] as int) * (i64::MAX as int) by {
                    let oc = old(self).counts()[j] as int;
                    let os = old(self).sums()[j] as int;
                    if on_path(ps, i as int, j) {
                        assert((oc + 1) * (i64::MIN as int) <= os + val
                            <= (oc + 1) * (i64::MAX as int)) by (nonlinear_arith)
                            requires
                                oc * (i64::MIN as int) <= os <= oc * (i64::MAX as int),
                                (i64::MIN as int) <= val as int <= i64::MAX as int,
                                oc >= 0,
                        ;
                    }
                }
            }
        }
    }
}

/// Every node's visit count is bounded by the root's.
proof fn lemma_counts_le_root(t: TreeSearch, i: int)
    requires
        t.wf(),
        0 <= i < t.len(),
    ensures
        t.counts()[i] <= t.counts()[0],
    decreases i
{
    if i > 0 {
        lemma_counts_le_root(t, t.parents()[i] as int);
    }
}

impl TreeSearch {
    /// Expand leaf `i`: create one unexpanded child per legal move, record
    /// them in enumeration order, and if any exist, play one uniformly at
    /// random and return its node; a terminal leaf is marked expanded with
    /// no children and returned unchanged.
    pub fn expand<G: GameStateMut>(&mut self, game: &mut G, rng: &mut rand::rngs::StdRng,
        i: usize) -> (res: usize)
        requires
            old(self).wf(),
            (i as int) < old(self).len(),
            old(self).kids()[i as int] is None,
            old(game).inv(),
        ensures
            final(self).wf(),
            final(game).inv(),
            final(self).len() == old(self).len() + old(game).moves_now(),
            forall|k: int| 0 <= k < old(self).len()
                ==> #[trigger] final(self).parents()[k] == old(self).parents()[k],
            forall|k: int| 0 <= k < old(self).len() && k != i as int
                ==> #[trigger] final(self).kids()[k] == old(self).kids()[k],
            final(self).kids()[i as int]
                == Some(Seq::new(old(game).moves_now(), |m: int| (old(self).len() + m) as usize)),
            forall|k: int| old(self).len() <= k < final(self).len()
                ==> #[trigger] final(self).kids()[k] is None
                    && final(self).parents()[k] == i
                    && final(self).counts()[k] == 0,
            forall|k: int| 0 <= k < old(self).len()
                ==> #[trigger] final(self).counts()[k] == old(self).counts()[k]
                    && final(self).sums()[k] == old(self).sums()[k],
            (res as int) < final(self).len(),
            final(game).fuel() <= old(game).fuel(),
            old(game).moves_now() > 0 ==> (res as int) >= old(self).len()
                && final(self).parents()[res as int] == i
                && final(game).trace() == old(game).trace().push(
                    ((res as int) - old(self).len()) as usize),
            old(game).moves_now() == 0 ==> res == i && *final(game) == *old(game),
    {
        let count = game.move_count();
        let mut c: Vec<usize> = Vec::new();
        let base = self.children.len();
        let ghost pre = *self;
        for k in 0..count
            invariant
                pre.wf(),
                pre == *old(self),
                (i as int) < pre.len(),
                pre.kids()[i as int] is None,
                base as int == pre.len(),
                count as nat == old(game).moves_now(),
                c@ =~= Seq::new(k as nat, |m: int| (base + m) as usize),
                self.parent@ =~= pre.parent@ + Seq::new(k as nat, |m: int| i),
                self.children@ =~= pre.children@
                    + Seq::new(k as nat, |m: int| None::<Vec<usize>>),
                self.value_sums@ =~= pre.value_sums@ + Seq::new(k as nat, |m: int| 0i128),
                self.value_counts@ =~= pre.value_counts@
                    + Seq::new(k as nat, |m: int| 0usize),
        {
            let next_id = self.parent.len();
            proof {
                vstd::std_specs::vec::axiom_spec_len(&self.parent);
            }
            c.push(next_id);
            self.parent.push(i);
            self.children.push(None);
            self.value_sums.push(0);
            self.value_counts.push(0);
            proof {
                assert(c@ =~= Seq::new((k + 1) as nat, |m: int| (base + m) as usize));
                assert(self.parent@ =~= pre.parent@ + Seq::new((k + 1) as nat,
                    |m: int| i));
                assert(self.children@ =~= pre.children@
                    + Seq::new((k + 1) as nat, |m: int| None::<Vec<usize>>));
                assert(self.value_sums@ =~= pre.value_sums@
                    + Seq::new((k + 1) as nat, |m: int| 0i128));
                assert(self.value_counts@ =~= pre.value_counts@
                    + Seq::new((k + 1) as nat, |m: int| 0usize));
            }
        }
        proof {
            vstd::std_specs::vec::axiom_spec_len(&self.parent);
            assert forall|m: int| 0 <= m < count
                implies (#[trigger] c@[m]) as int == base + m by {
                assert(self.parent@.len() == base + count);
            }
            assert forall|m: int| 0 <= m < base
                implies #[trigger] self.parents()[m] == pre.parents()[m]
                    && self.kids()[m] == pre.kids()[m]
                    && self.counts()[m] == pre.counts()[m]
                    && self.sums()[m] == pre.sums()[m] by {
                assert(self.children@[m] == pre.children@[m]);
            }
            assert forall|m: int| base <= m < base + count
                implies #[trigger] self.parents()[m] == i
                    && self.kids()[m] is None
                    && self.counts()[m] == 0usize
                    && self.sums()[m] == 0i128 by {
                assert(self.children@[m] is None);
            }
        }
        let expanded = count > 0;
        let j = if expanded { random_below(rng, count) } else { 0 };
        let res = if expanded { c[j] } else { i };
        let ghost cview = c@;
        let ghost mid = *self;
        self.children[i] = Some(c);
        proof {
            assert(self.kids()[i as int] matches Some(cc) && cc == cview);
            assert forall|m: int| 0 <= m < base + count && m != i as int
                implies #[trigger] self.kids()[m] == mid.kids()[m]
                    && self.parents()[m] == mid.parents()[m]
                    && self.counts()[m] == mid.counts()[m]
                    && self.sums()[m] == mid.sums()[m] by {
                assert(self.children@[m] == mid.children@[m]);
            }
            lemma_expand_wf(pre, *self, i as int, base as int, count as int, cview);
        }
        if expanded {
            let ok = game.select_move(j);
            proof {
                assert(ok);
                assert(res == c@[j as int]);
                assert((res as int) == base + j);
                assert(self.parents()[res as int] == i);
                assert((((res as int) - base) as usize) == j);
            }
        }
        res
    }

    /// Replay the move sequence from the root to node `i` on the game
    /// state, selecting at each step the move whose index is the child's
    /// position in its parent's child list.
    #[verifier::rlimit(100)]
    pub fn from_root_to_node<G: GameStateMut>(&self, game: &mut G, i: usize)
        -> (r: Result<(), &'static str>)
        requires
            self.wf(),
            (i as int) < self.len(),
            old(game).inv(),
        ensures
            final(game).inv(),
            final(game).fuel() <= old(game).fuel(),
            r is Ok ==> final(game).trace().len()
                == old(game).trace().len() + node_depth(self.parents(), i as int)
                && final(game).trace().take(old(game).trace().len() as int)
                    == old(game).trace()
                && final(game).trace()
                    == old(game).trace() + path_indices(*self, i as int),
            i == 0 ==> r is Ok && *final(game) == *old(game),
    {
        let mut stack: Vec<usize> = Vec::new();
        let mut cur = i;
        while cur > 0
            invariant
                self.wf(),
                (cur as int) < self.len(),
                forall|m: int| 0 <= m < stack@.len()
                    ==> 0 < ((#[trigger] stack@[m]) as int) < self.len(),
                node_depth(self.parents(), i as int)
                    == node_depth(self.parents(), cur as int) + stack@.len(),
                stack@.len() == 0 ==> cur == i,
                stack@.len() > 0 ==> stack@[0] == i
                    && self.parents()[stack@.last() as int] == cur,
                forall|m: int| 0 <= m < stack@.len() - 1
                    ==> self.parents()[(#[trigger] stack@[m]) as int] == stack@[m + 1],
            decreases cur,
        {
            let ghost st0 = stack@;
            let ghost cur0 = cur;
            stack.push(cur);
            cur = self.parent[cur];
            proof {
                assert(stack@.last() as int > 0);
                assert(stack@.last() == cur0);
                if st0.len() == 0 {
                    assert(stack@[0] == cur0);
                } else {
                    assert(stack@[0] == st0[0]);
                }
                assert forall|m: int| 0 <= m < stack@.len() - 1
                    implies self.parents()[(#[trigger] stack@[m]) as int]
                        == stack@[m + 1] by {
                    if m < st0.len() - 1 {
                        assert(stack@[m] == st0[m] && stack@[m + 1] == st0[m + 1]);
                    } else {
                        assert(stack@[m] == st0.last() && stack@[m + 1] == cur0);
                    }
                }
            }
        }
        let total = stack.len();
        let ghost d0 = old(game).trace().len();
        proof {
            assert(game.trace().take(d0 as int) =~= old(game).trace());
        }
        proof {
            assert(game.trace() =~= old(game).trace()
                + path_indices(*self, 0int));
        }
        for step in 0..total
            invariant
                self.wf(),
                game.inv(),
                total == stack@.len(),
                node_depth(self.parents(), i as int) == total,
                forall|m: int| 0 <= m < stack@.len()
                    ==> 0 < ((#[trigger] stack@[m]) as int) < self.len(),
                stack@.len() > 0 ==> stack@[0] == i
                    && self.parents()[stack@.last() as int] == 0,
                forall|m: int| 0 <= m < stack@.len() - 1
                    ==> self.parents()[(#[trigger] stack@[m]) as int] == stack@[m + 1],
                game.trace().len() == d0 + step,
                game.trace().take(d0 as int) == old(game).trace(),
                game.trace() == old(game).trace() + path_indices(*self,
                    if step == 0 { 0int } else { stack@[total - step] as int }),
                game.fuel() <= old(game).fuel(),
                total == 0 ==> *game == *old(game),
            decreases total - step,
        {
            let n = stack[total - 1 - step];
            let p = self.parent[n];
            let cl = match &self.children[p] {
                Some(cl) => cl,
                None => {
                    proof {
                        assert(self.kids()[self.parents()[n as int] as int] is Some);
                        assert(false);
                    }
                    return Err("search tree out of sync with game");
                },
            };
            let mut j: usize = 0;
            proof {
                assert(self.kids()[p as int] matches Some(ck) && ck == cl@);
                assert(self.kids()[self.parents()[n as int] as int] matches Some(ck2)
                    && ck2.contains(n));
            }
            loop
                invariant
                    self.wf(),
                    (p as int) < self.len(),
                    self.kids()[p as int] matches Some(ck) && ck == cl@,
                    cl@.contains(n),
                    j <= cl@.len(),
                    forall|m: int| 0 <= m < j ==> (#[trigger] cl@[m]) != n,
                ensures
                    (j as int) < cl@.len() && cl@[j as int] == n,
                decreases cl@.len() - j,
            {
                if j >= cl.len() {
                    proof {
                        let m = choose|m: int| 0 <= m < cl@.len() && cl@[m] == n;
                        assert(false);
                    }
                    break;
                }
                if cl[j] == n {
                    break;
                }
                j = j + 1;
            }
            let ghost tpre = game.trace();
            let ghost prev: int = if step == 0 { 0int } else { stack@[total - step] as int };
            proof {
                lemma_child_index_first(cl@, n, j as int);
                assert(self.parents()[n as int] == prev) by {
                    if step == 0 {
                        assert(n == stack@.last());
                    } else {
                        assert(n == stack@[total - 1 - step]);
                        assert(self.parents()[stack@[total - 1 - step] as int]
                            == stack@[total - step]);
                    }
                }
            }
            let ok = game.select_move(j);
            if !ok {
                return Err("search tree out of sync with game");
            }
            proof {
                assert(game.trace().take(d0 as int) =~= tpre.take(d0 as int));
                assert(path_indices(*self, n as int)
                    == path_indices(*self, prev) + seq![j]) by {
                    assert(self.kids()[prev] matches Some(ck) && ck == cl@);
                    assert(child_index(cl@, n) == j as int);
                }
                assert(game.trace() =~= old(game).trace()
                    + path_indices(*self, n as int));
                assert(n == stack@[total - (step + 1)]);
            }
        }
        Ok(())
    }

    /// Undo from node `i` back to the root position.
    pub fn from_node_to_root<G: GameStateMut>(&self, game: &mut G, i: usize)
        requires
            self.wf(),
            (i as int) < self.len(),
            old(game).inv(),
            old(game).trace().len() == node_depth(self.parents(), i as int),
        ensures
            final(game).inv(),
            final(game).trace().len() == 0,
    {
        let mut cur = i;
        while cur > 0
            invariant
                self.wf(),
                (cur as int) < self.len(),
                game.inv(),
                game.trace().len() == node_depth(self.parents(), cur as int),
            decreases cur,
        {
            let ok = game.undo();
            proof {
                assert(ok);
            }
            cur = self.parent[cur];
        }
    }
}

/// A uniformly random rollout: play random legal moves to a terminal
/// position, score it, and undo back to the starting position.
pub fn simulate<G: GameStateMut>(game: &mut G, rng: &mut rand::rngs::StdRng) -> (v: i64)
    requires
        old(game).inv(),
        old(game).fuel() <= usize::MAX,
    ensures
        final(game).inv(),
        final(game).trace() == old(game).trace(),
        exists|g: G| g.inv() && g.moves_now() == 0 && v == #[trigger] g.value_spec(),
{
    let mut depth: usize = 0;
    let ghost t0 = game.trace();
    let ghost f0 = game.fuel();
    let ghost mut played: Seq<usize> = Seq::empty();
    proof {
        assert(t0 + played =~= t0);
    }
    loop
        invariant
            game.inv(),
            played.len() == depth,
            game.trace() == t0 + played,
            game.fuel() + depth <= f0,
            f0 <= usize::MAX,
        ensures
            game.inv(),
            played.len() == depth,
            game.trace() == t0 + played,
            game.moves_now() == 0,
            depth <= f0,
        decreases game.fuel(),
    {
        let count = game.move_count();
        if count == 0 {
            break;
        }
        let j = random_below(rng, count);
        let ok = game.select_move(j);
        proof {
            assert(ok);
            played = played.push(j);
            assert((t0 + played.drop_last()).push(j) =~= t0 + played);
        }
        depth = depth + 1;
    }
    let ghost terminal = *game;
    let res = game.value();
    proof {
        assert(terminal.inv() && terminal.moves_now() == 0
            && res == terminal.value_spec());
    }
    let mut k: usize = 0;
    while k < depth
        invariant
            game.inv(),
            k <= depth,
            played.len() == depth,
            game.trace() == t0 + played.take(depth - k),
        decreases depth - k,
    {
        proof {
            assert((t0 + played.take(depth - k)).len() == t0.len() + depth - k);
        }
        let ok = game.undo();
        proof {
            assert(ok);
            assert((t0 + played.take(depth - k)).drop_last()
                =~= t0 + played.take(depth - k - 1));
        }
        k = k + 1;
    }
    proof {
        assert(t0 + played.take(0) =~= t0);
    }
    res
}

/// The expanded tree keeps the structural invariant.
proof fn lemma_expand_wf(pre: TreeSearch, post: TreeSearch, i: int, base: int, count: int,
    c: Seq<usize>)
    requires
        pre.wf(),
        0 <= i < pre.len(),
        pre.kids()[i] is None,
        base == pre.len(),
        count >= 0,
        post.len() == base + count,
        post.kids().len() == base + count,
        post.sums().len() == base + count,
        post.counts().len() == base + count,
        c.len() == count,
        forall|m: int| 0 <= m < count ==> (#[trigger] c[m]) as int == base + m,
        forall|m: int| 0 <= m < base
            ==> #[trigger] post.parents()[m] == pre.parents()[m]
                && post.counts()[m] == pre.counts()[m]
                && post.sums()[m] == pre.sums()[m],
        forall|m: int| 0 <= m < base && m != i
            ==> #[trigger] post.kids()[m] == pre.kids()[m],
        post.kids()[i] matches Some(ck) && ck == c,
        forall|m: int| base <= m < base + count
            ==> #[trigger] post.parents()[m] == i
                && post.kids()[m] is None
                && post.counts()[m] == 0usize
                && post.sums()[m] == 0i128,
    ensures
        post.wf(),
{
    assert forall|a: int| 0 < a < post.len()
        implies ((#[trigger] post.kids()[post.parents()[a] as int]) matches Some(cc)
            && cc.contains(a as usize)) by {
        if a < base {
            let p0 = pre.parents()[a] as int;
            assert(pre.kids()[p0] is Some);
            let cc2 = pre.kids()[p0]->Some_0;
            assert(cc2.contains(a as usize));
            assert(p0 != i);
            assert(post.kids()[p0] == pre.kids()[p0]);
            assert(post.parents()[a] == pre.parents()[a]);
            assert(post.kids()[post.parents()[a] as int] is Some);
            assert(post.kids()[post.parents()[a] as int]->Some_0.contains(a as usize));
        } else {
            assert(post.parents()[a] == i);
            assert(c[a - base] == a as usize);
            assert(post.kids()[i] is Some);
            let ck = post.kids()[i]->Some_0;
            assert(ck == c);
            assert(ck.contains(a as usize)) by {
                assert(ck[a - base] == a as usize);
            }
        }
    }
    assert(post.parents()[0] == 0usize);
    assert forall|m: int| 0 < m < post.len()
        implies ((#[trigger] post.parents()[m]) as int) < m by {
        if m < base {
            assert(post.parents()[m] == pre.parents()[m]);
        } else {
            assert(post.parents()[m] == i);
        }
    }
    assert forall|m: int| 0 < m < post.len()
        implies (#[trigger] post.counts()[m])
            <= post.counts()[post.parents()[m] as int] by {
        if m < base {
            assert(post.parents()[m] == pre.parents()[m]);
            assert(post.parents()[pre.parents()[m] as int]
                == pre.parents()[pre.parents()[m] as int]);
            assert(post.counts()[m] == pre.counts()[m]);
            assert(pre.counts()[m] <= pre.counts()[pre.parents()[m] as int]);
            assert(post.counts()[pre.parents()[m] as int]
                == pre.counts()[pre.parents()[m] as int]);
        } else {
            assert(post.parents()[m] == i);
            assert(post.counts()[m] == 0usize);
        }
    }
    assert forall|m: int| 0 <= m < post.len()
        implies ((#[trigger] post.counts()[m]) as int) * (i64::MIN as int)
            <= (post.sums()[m] as int)
            && (post.sums()[m] as int)
                <= (post.counts()[m] as int) * (i64::MAX as int) by {
        if m < base {
            assert(post.parents()[m] == pre.parents()[m]);
            assert(post.counts()[m] == pre.counts()[m]
                && post.sums()[m] == pre.sums()[m]);
            assert((pre.counts()[m] as int) * (i64::MIN as int) <= (pre.sums()[m] as int)
                <= (pre.counts()[m] as int) * (i64::MAX as int));
        } else {
            assert(post.parents()[m] == i);
            assert(post.counts()[m] == 0usize && post.sums()[m] == 0i128);
        }
    }
}

impl TreeSearch {
    /// One search iteration at the unexpanded leaf `leaf`: replay from the
    /// root to its position, expand it, run one random rollout, propagate
    /// the sampled value along the path to the root, and restore the root
    /// position.  Visit counts never decrease, and `leaf` ends expanded.
    pub fn search_step<G: GameStateMut>(&mut self, game: &mut G,
        rng: &mut rand::rngs::StdRng, leaf: usize) -> (r: Result<(), &'static str>)
        requires
            old(self).wf(),
            (leaf as int) < old(self).len(),
            old(self).kids()[leaf as int] is None,
            old(game).inv(),
            old(game).trace().len() == 0,
            old(game).fuel() <= usize::MAX,
            old(self).counts()[0] < usize::MAX,
        ensures
            final(self).wf(),
            final(game).inv(),
            final(self).len() >= old(self).len(),
            forall|k: int| 0 <= k < old(self).len()
                ==> (#[trigger] final(self).counts()[k]) >= old(self).counts()[k],
            r is Ok ==> final(game).trace() == old(game).trace()
                && final(self).kids()[leaf as int] is Some,
            leaf == 0 ==> r is Ok,
    {
        let ghost t0 = *self;
        match self.from_root_to_node(game, leaf) {
            Ok(()) => {},
            Err(e) => {
                return Err(e);
            },
        }
        let ghost g1 = *game;
        let j = self.expand(game, rng, leaf);
        let ghost t1 = *self;
        proof {
            lemma_node_depth_extend(t0.parents(), t1.parents(), leaf as int);
            if g1.moves_now() > 0 {
                assert(node_depth(t1.parents(), j as int)
                    == 1 + node_depth(t1.parents(), leaf as int));
            }
        }
        let val = simulate(game, rng);
        self.backpropagation(j, val);
        proof {
            assert(self.parents() == t1.parents());
            assert(game.trace().len() == node_depth(self.parents(), j as int));
        }
        self.from_node_to_root(game, j);
        proof {
            assert forall|k: int| 0 <= k < t0.len()
                implies (#[trigger] self.counts()[k]) >= t0.counts()[k] by {
                assert(t1.counts()[k] == t0.counts()[k]);
            }
            assert(game.trace() =~= old(game).trace());
        }
        Ok(())
    }
}


} // verus!
