//! Polyomino shapes: transforms (translation, mirror, rotation), canonical
//! forms, and the deduplicated set of symmetry-distinct orientations of a
//! shape.
//!
//! A shape is a list of integer grid points.  Orientations are compared as
//! sorted point lists, so two orientations are the same exactly when they
//! cover the same set of offsets.

use vstd::prelude::*;

verus! {

pub type Point = (i8, i8);

/// Bound on coordinates accepted by the orientation machinery, so that every
/// composition of mirror, rotation and normalization stays inside `i8`.
pub const COORD_LIMIT: i8 = 63;

/// Strict lexicographic order on points: by `x`, then by `y`.
pub open spec fn pt_lt(a: Point, b: Point) -> bool {
    a.0 < b.0 || (a.0 == b.0 && a.1 < b.1)
}

/// Strict lexicographic order on point lists.
pub open spec fn pts_lt(a: Seq<Point>, b: Seq<Point>) -> bool
    decreases a.len()
{
    if b.len() == 0 {
        false
    } else if a.len() == 0 {
        true
    } else if a[0] == b[0] {
        pts_lt(a.drop_first(), b.drop_first())
    } else {
        pt_lt(a[0], b[0])
    }
}

/// Insert `x` into `s` before the first element not below `x`.
pub open spec fn insert_pt(s: Seq<Point>, x: Point) -> Seq<Point>
    decreases s.len()
{
    if s.len() == 0 {
        seq![x]
    } else if !pt_lt(s[0], x) {
        seq![x] + s
    } else {
        seq![s[0]] + insert_pt(s.drop_first(), x)
    }
}

/// Insertion sort of a point list, processing elements left to right.
pub open spec fn sort_pts(s: Seq<Point>) -> Seq<Point>
    decreases s.len()
{
    if s.len() == 0 {
        Seq::empty()
    } else {
        insert_pt(sort_pts(s.drop_last()), s.last())
    }
}

/// Insert a point list into a list of point lists, ordered lexicographically.
pub open spec fn insert_pc(l: Seq<Seq<Point>>, x: Seq<Point>) -> Seq<Seq<Point>>
    decreases l.len()
{
    if l.len() == 0 {
        seq![x]
    } else if !pts_lt(l[0], x) {
        seq![x] + l
    } else {
        seq![l[0]] + insert_pc(l.drop_first(), x)
    }
}

/// Insertion sort of a list of point lists.
pub open spec fn sort_pcs(l: Seq<Seq<Point>>) -> Seq<Seq<Point>>
    decreases l.len()
{
    if l.len() == 0 {
        Seq::empty()
    } else {
        insert_pc(sort_pcs(l.drop_last()), l.last())
    }
}

/// Removal of adjacent duplicates from a list of point lists.
pub open spec fn dedup_pcs(l: Seq<Seq<Point>>) -> Seq<Seq<Point>>
    decreases l.len()
{
    if l.len() <= 1 {
        l
    } else if l.last() == l[l.len() - 2] {
        dedup_pcs(l.drop_last())
    } else {
        dedup_pcs(l.drop_last()) + seq![l.last()]
    }
}

/// Minimum `x` coordinate, folded left to right.
pub open spec fn smin_x(s: Seq<Point>) -> int
    decreases s.len()
{
    if s.len() <= 1 {
        if s.len() == 1 { s[0].0 as int } else { 0 }
    } else {
        let m = smin_x(s.drop_last());
        if s.last().0 < m { s.last().0 as int } else { m }
    }
}

pub open spec fn smin_y(s: Seq<Point>) -> int
    decreases s.len()
{
    if s.len() <= 1 {
        if s.len() == 1 { s[0].1 as int } else { 0 }
    } else {
        let m = smin_y(s.drop_last());
        if s.last().1 < m { s.last().1 as int } else { m }
    }
}

/// Maximum `x` coordinate, folded left to right.
pub open spec fn smax_x(s: Seq<Point>) -> int
    decreases s.len()
{
    if s.len() <= 1 {
        if s.len() == 1 { s[0].0 as int } else { 0 }
    } else {
        let m = smax_x(s.drop_last());
        if s.last().0 > m { s.last().0 as int } else { m }
    }
}

pub open spec fn smax_y(s: Seq<Point>) -> int
    decreases s.len()
{
    if s.len() <= 1 {
        if s.len() == 1 { s[0].1 as int } else { 0 }
    } else {
        let m = smax_y(s.drop_last());
        if s.last().1 > m { s.last().1 as int } else { m }
    }
}

pub open spec fn s_translate(s: Seq<Point>, dx: int, dy: int) -> Seq<Point> {
    Seq::new(s.len(), |k: int| ((s[k].0 + dx) as i8, (s[k].1 + dy) as i8))
}

pub open spec fn s_mirror(s: Seq<Point>) -> Seq<Point> {
    Seq::new(s.len(), |k: int| ((-s[k].0) as i8, s[k].1))
}

pub open spec fn s_rot(s: Seq<Point>) -> Seq<Point> {
    Seq::new(s.len(), |k: int| ((-s[k].1) as i8, s[k].0))
}

pub open spec fn s_rotn(s: Seq<Point>, n: nat) -> Seq<Point>
    decreases n
{
    if n == 0 {
        s
    } else {
        s_rot(s_rotn(s, (n - 1) as nat))
    }
}

/// Translate a shape so that its minimal bounding-box corner is the origin.
pub open spec fn s_norm(s: Seq<Point>) -> Seq<Point> {
    if s.len() == 0 {
        s
    } else {
        s_translate(s, -smin_x(s), -smin_y(s))
    }
}

/// The `j`-th of the eight symmetry images of a shape: an optional mirror,
/// `j % 4` counterclockwise rotations, then normalization to the origin.
pub open spec fn variant_spec(s: Seq<Point>, j: int) -> Seq<Point> {
    s_norm(s_rotn(if j < 4 { s } else { s_mirror(s) }, (j % 4) as nat))
}

/// The eight symmetry images of a shape, each as a sorted point list.
pub open spec fn the8(s: Seq<Point>) -> Seq<Seq<Point>> {
    Seq::new(8, |j: int| sort_pts(variant_spec(s, j)))
}

/// Left-to-right lexicographic minimum of a nonempty list of point lists.
pub open spec fn pcs_min(l: Seq<Seq<Point>>) -> Seq<Point>
    decreases l.len()
{
    if l.len() <= 1 {
        if l.len() == 1 { l[0] } else { Seq::empty() }
    } else {
        let m = pcs_min(l.drop_last());
        if pts_lt(l.last(), m) { l.last() } else { m }
    }
}

/// The point lists of a list of pieces.
pub open spec fn pcs_view(s: Seq<Piece>) -> Seq<Seq<Point>> {
    Seq::new(s.len(), |i: int| s[i].points@)
}

/// All coordinates of `s` lie within `[lo, hi]`.
pub open spec fn coords_in(s: Seq<Point>, lo: int, hi: int) -> bool {
    forall|k: int| 0 <= k < s.len()
        ==> lo <= (#[trigger] s[k]).0 <= hi && lo <= s[k].1 <= hi
}

/// A polyomino shape: a list of grid points.
#[derive(Debug, Clone, PartialEq, Eq)]
pub struct Piece {
    pub points: Vec<Point>,
}

fn pt_lt_ex(a: Point, b: Point) -> (r: bool)
    ensures
        r == pt_lt(a, b),
{
    if a.0 != b.0 { a.0 < b.0 } else { a.1 < b.1 }
}

fn pts_lt_ex(a: &Vec<Point>, b: &Vec<Point>) -> (r: bool)
    ensures
        r == pts_lt(a@, b@),
{
    let mut k: usize = 0;
    proof {
        assert(a@.skip(0) =~= a@);
        assert(b@.skip(0) =~= b@);
    }
    loop
        invariant
            k <= a.len(),
            k <= b.len(),
            pts_lt(a@, b@) == pts_lt(a@.skip(k as int), b@.skip(k as int)),
        decreases a.len() - k,
    {
        if k == b.len() {
            return false;
        }
        if k == a.len() {
            return true;
        }
        let (ax, ay) = a[k];
        let (bx, by) = b[k];
        if ax != bx || ay != by {
            proof {
                assert(a@.skip(k as int)[0] == a@[k as int]);
                assert(b@.skip(k as int)[0] == b@[k as int]);
            }
            return pt_lt_ex((ax, ay), (bx, by));
        }
        proof {
            assert(a@.skip(k as int).drop_first() =~= a@.skip(k + 1));
            assert(b@.skip(k as int).drop_first() =~= b@.skip(k + 1));
        }
        k = k + 1;
    }
}

fn pts_eq_ex(a: &Vec<Point>, b: &Vec<Point>) -> (r: bool)
    ensures
        r == (a@ == b@),
{
    if a.len() != b.len() {
        return false;
    }
    for k in 0..a.len()
        invariant
            a.len() == b.len(),
            forall|i: int| 0 <= i < k ==> a@[i] == b@[i],
    {
        let (ax, ay) = a[k];
        let (bx, by) = b[k];
        if ax != bx || ay != by {
            return false;
        }
    }
    proof {
        assert(a@ =~= b@);
    }
    true
}

fn copy_points(v: &Vec<Point>) -> (r: Vec<Point>)
    ensures
        r@ == v@,
{
    let mut r: Vec<Point> = Vec::new();
    for k in 0..v.len()
        invariant
            r@ == v@.take(k as int),
    {
        r.push(v[k]);
        proof {
            assert(v@.take(k + 1) =~= v@.take(k as int).push(v@[k as int]));
        }
    }
    proof {
        assert(v@.take(v@.len() as int) =~= v@);
    }
    r
}

/// `insert_pt` places its element at the first position whose element is not
/// below it.
proof fn lemma_insert_pt_at(s: Seq<Point>, x: Point, i: int)
    requires
        0 <= i <= s.len(),
        forall|k: int| 0 <= k < i ==> pt_lt(s[k], x),
        i < s.len() ==> !pt_lt(s[i], x),
    ensures
        insert_pt(s, x) == s.take(i) + seq![x] + s.skip(i),
    decreases s.len()
{
    if s.len() == 0 {
        assert(insert_pt(s, x) =~= s.take(0) + seq![x] + s.skip(0));
    } else if i == 0 {
        assert(insert_pt(s, x) =~= s.take(0) + seq![x] + s.skip(0));
    } else {
        let t = s.drop_first();
        assert(forall|k: int| 0 <= k < i - 1 ==> t[k] == s[k + 1] && pt_lt(s[k + 1], x));
        lemma_insert_pt_at(t, x, i - 1);
        assert(seq![s[0]] + (t.take(i - 1) + seq![x] + t.skip(i - 1))
            =~= s.take(i) + seq![x] + s.skip(i));
    }
}

proof fn lemma_insert_pc_at(l: Seq<Seq<Point>>, x: Seq<Point>, i: int)
    requires
        0 <= i <= l.len(),
        forall|k: int| 0 <= k < i ==> pts_lt(l[k], x),
        i < l.len() ==> !pts_lt(l[i], x),
    ensures
        insert_pc(l, x) == l.take(i) + seq![x] + l.skip(i),
    decreases l.len()
{
    if l.len() == 0 {
        assert(insert_pc(l, x) =~= l.take(0) + seq![x] + l.skip(0));
    } else if i == 0 {
        assert(insert_pc(l, x) =~= l.take(0) + seq![x] + l.skip(0));
    } else {
        let t = l.drop_first();
        assert(forall|k: int| 0 <= k < i - 1 ==> t[k] == l[k + 1] && pts_lt(l[k + 1], x));
        lemma_insert_pc_at(t, x, i - 1);
        assert(seq![l[0]] + (t.take(i - 1) + seq![x] + t.skip(i - 1))
            =~= l.take(i) + seq![x] + l.skip(i));
    }
}

/// Every element of `insert_pt(s, x)` is an element of `s` or is `x`.
pub proof fn lemma_insert_pt_elems(s: Seq<Point>, x: Point)
    ensures
        insert_pt(s, x).len() == s.len() + 1,
        forall|q: Point| #[trigger] insert_pt(s, x).contains(q) ==> s.contains(q) || q == x,
    decreases s.len()
{
    if s.len() == 0 {
    } else if !pt_lt(s[0], x) {
        assert forall|q: Point| #[trigger] insert_pt(s, x).contains(q)
            implies s.contains(q) || q == x by {
            let j = choose|j: int| 0 <= j < insert_pt(s, x).len() && insert_pt(s, x)[j] == q;
            if j > 0 {
                assert(s[j - 1] == q);
            }
        }
    } else {
        lemma_insert_pt_elems(s.drop_first(), x);
        assert forall|q: Point| #[trigger] insert_pt(s, x).contains(q)
            implies s.contains(q) || q == x by {
            let r = insert_pt(s, x);
            let j = choose|j: int| 0 <= j < r.len() && r[j] == q;
            if j == 0 {
                assert(s[0] == q);
            } else {
                assert(insert_pt(s.drop_first(), x)[j - 1] == q);
                assert(insert_pt(s.drop_first(), x).contains(q));
                if s.drop_first().contains(q) {
                    let m = choose|m: int| 0 <= m < s.drop_first().len()
                        && s.drop_first()[m] == q;
                    assert(s[m + 1] == q);
                }
            }
        }
    }
}

/// Every element of the sorted list is an element of the original.
pub proof fn lemma_sort_pts_elems(s: Seq<Point>)
    ensures
        sort_pts(s).len() == s.len(),
        forall|q: Point| #[trigger] sort_pts(s).contains(q) ==> s.contains(q),
    decreases s.len()
{
    if s.len() > 0 {
        lemma_sort_pts_elems(s.drop_last());
        lemma_insert_pt_elems(sort_pts(s.drop_last()), s.last());
        assert forall|q: Point| #[trigger] sort_pts(s).contains(q) implies s.contains(q) by {
            if sort_pts(s.drop_last()).contains(q) {
                assert(s.drop_last().contains(q));
                let m = choose|m: int| 0 <= m < s.drop_last().len() && s.drop_last()[m] == q;
                assert(s[m] == q);
            } else {
                assert(q == s.last());
            }
        }
    }
}

/// Every element of `sort_pcs`/`dedup_pcs` output is an element of the input.
pub proof fn lemma_insert_pc_elems(l: Seq<Seq<Point>>, x: Seq<Point>)
    ensures
        insert_pc(l, x).len() == l.len() + 1,
        forall|q: Seq<Point>| #[trigger] insert_pc(l, x).contains(q) ==> l.contains(q) || q == x,
    decreases l.len()
{
    if l.len() == 0 {
    } else if !pts_lt(l[0], x) {
        assert forall|q: Seq<Point>| #[trigger] insert_pc(l, x).contains(q)
            implies l.contains(q) || q == x by {
            let j = choose|j: int| 0 <= j < insert_pc(l, x).len() && insert_pc(l, x)[j] == q;
            if j > 0 {
                assert(l[j - 1] == q);
            }
        }
    } else {
        lemma_insert_pc_elems(l.drop_first(), x);
        assert forall|q: Seq<Point>| #[trigger] insert_pc(l, x).contains(q)
            implies l.contains(q) || q == x by {
            let r = insert_pc(l, x);
            let j = choose|j: int| 0 <= j < r.len() && r[j] == q;
            if j == 0 {
                assert(l[0] == q);
            } else {
                assert(insert_pc(l.drop_first(), x)[j - 1] == q);
                assert(insert_pc(l.drop_first(), x).contains(q));
                if l.drop_first().contains(q) {
                    let m = choose|m: int| 0 <= m < l.drop_first().len()
                        && l.drop_first()[m] == q;
                    assert(l[m + 1] == q);
                }
            }
        }
    }
}

pub proof fn lemma_sort_pcs_elems(l: Seq<Seq<Point>>)
    ensures
        sort_pcs(l).len() == l.len(),
        forall|q: Seq<Point>| #[trigger] sort_pcs(l).contains(q) ==> l.contains(q),
    decreases l.len()
{
    if l.len() > 0 {
        lemma_sort_pcs_elems(l.drop_last());
        lemma_insert_pc_elems(sort_pcs(l.drop_last()), l.last());
        assert forall|q: Seq<Point>| #[trigger] sort_pcs(l).contains(q)
            implies l.contains(q) by {
            if sort_pcs(l.drop_last()).contains(q) {
                assert(l.drop_last().contains(q));
                let m = choose|m: int| 0 <= m < l.drop_last().len() && l.drop_last()[m] == q;
                assert(l[m] == q);
            } else {
                assert(q == l.last());
            }
        }
    }
}

pub proof fn lemma_dedup_pcs_elems(l: Seq<Seq<Point>>)
    ensures
        dedup_pcs(l).len() <= l.len(),
        forall|q: Seq<Point>| #[trigger] dedup_pcs(l).contains(q) ==> l.contains(q),
    decreases l.len()
{
    if l.len() > 1 {
        lemma_dedup_pcs_elems(l.drop_last());
        assert forall|q: Seq<Point>| #[trigger] dedup_pcs(l).contains(q)
            implies l.contains(q) by {
            if dedup_pcs(l.drop_last()).contains(q) {
                assert(l.drop_last().contains(q));
                let m = choose|m: int| 0 <= m < l.drop_last().len() && l.drop_last()[m] == q;
                assert(l[m] == q);
            } else {
                assert(q == l.last());
            }
        }
    }
}

/// The folded minima and maxima bound every coordinate.
pub proof fn lemma_sminmax(s: Seq<Point>)
    requires
        s.len() > 0,
    ensures
        forall|k: int| 0 <= k < s.len() ==> smin_x(s) <= (#[trigger] s[k]).0
            && smin_y(s) <= s[k].1 && s[k].0 <= smax_x(s) && s[k].1 <= smax_y(s),
    decreases s.len()
{
    if s.len() > 1 {
        lemma_sminmax(s.drop_last());
        assert forall|k: int| 0 <= k < s.len() implies smin_x(s) <= (#[trigger] s[k]).0
            && smin_y(s) <= s[k].1 && s[k].0 <= smax_x(s) && s[k].1 <= smax_y(s) by {
            if k < s.len() - 1 {
                assert(s.drop_last()[k] == s[k]);
            }
        }
    }
}

/// Rotations keep coordinates inside a symmetric bound.
pub proof fn lemma_rotn_coords(s: Seq<Point>, n: nat, b: int)
    requires
        0 < b <= 127,
        coords_in(s, -b, b),
    ensures
        s_rotn(s, n).len() == s.len(),
        coords_in(s_rotn(s, n), -b, b),
    decreases n
{
    if n > 0 {
        lemma_rotn_coords(s, (n - 1) as nat, b);
    }
}

/// The folded minima and maxima of a bounded shape are bounded the same way.
pub proof fn lemma_bounds_sminmax(s: Seq<Point>, lo: int, hi: int)
    requires
        s.len() > 0,
        coords_in(s, lo, hi),
    ensures
        lo <= smin_x(s) && smax_x(s) <= hi,
        lo <= smin_y(s) && smax_y(s) <= hi,
        smin_x(s) <= smax_x(s),
        smin_y(s) <= smax_y(s),
    decreases s.len()
{
    if s.len() > 1 {
        assert(coords_in(s.drop_last(), lo, hi)) by {
            assert(forall|k: int| 0 <= k < s.len() - 1
                ==> #[trigger] s.drop_last()[k] == s[k]);
        }
        lemma_bounds_sminmax(s.drop_last(), lo, hi);
    }
}

/// A normalized shape has coordinates in `[0, hi - lo]`.
pub proof fn lemma_norm_coords(s: Seq<Point>, lo: int, hi: int)
    requires
        -127 <= lo <= hi <= 127,
        hi - lo <= 127,
        coords_in(s, lo, hi),
    ensures
        s_norm(s).len() == s.len(),
        coords_in(s_norm(s), 0, hi - lo),
        s.len() > 0 ==> smin_x(s_norm(s)) == 0 && smin_y(s_norm(s)) == 0,
{
    if s.len() > 0 {
        lemma_sminmax(s);
        lemma_bounds_sminmax(s, lo, hi);
        let n = s_norm(s);
        assert forall|k: int| 0 <= k < n.len()
            implies 0 <= (#[trigger] n[k]).0 <= hi - lo && 0 <= n[k].1 <= hi - lo by {
            assert(smin_x(s) <= s[k].0);
            assert(smin_y(s) <= s[k].1);
        }
        lemma_norm_min(s, lo, hi);
    }
}

/// The folded minimum of a normalized shape is zero.
proof fn lemma_norm_min(s: Seq<Point>, lo: int, hi: int)
    requires
        s.len() > 0,
        -127 <= lo <= hi <= 127,
        hi - lo <= 127,
        coords_in(s, lo, hi),
    ensures
        smin_x(s_norm(s)) == 0,
        smin_y(s_norm(s)) == 0,
{
    lemma_sminmax(s);
    lemma_bounds_sminmax(s, lo, hi);
    lemma_smin_shift(s, -smin_x(s), -smin_y(s));
}

/// Translating a shape shifts its folded minima by the same amount.
proof fn lemma_smin_shift(s: Seq<Point>, dx: int, dy: int)
    requires
        s.len() > 0,
        forall|k: int| 0 <= k < s.len() ==> -128 <= (#[trigger] s[k]).0 + dx <= 127
            && -128 <= s[k].1 + dy <= 127,
    ensures
        smin_x(s_translate(s, dx, dy)) == smin_x(s) + dx,
        smin_y(s_translate(s, dx, dy)) == smin_y(s) + dy,
    decreases s.len()
{
    if s.len() == 1 {
    } else {
        lemma_smin_shift(s.drop_last(), dx, dy);
        assert(s_translate(s.drop_last(), dx, dy) =~= s_translate(s, dx, dy).drop_last());
        lemma_sminmax(s);
    }
}

impl Piece {
    /// The smallest `x` and `y` coordinates over the shape's points, or the
    /// origin for an empty shape.
    pub fn min_corner(&self) -> (r: Point)
        ensures
            self.points@.len() == 0 ==> r == (0i8, 0i8),
            self.points@.len() > 0 ==> r.0 as int == smin_x(self.points@)
                && r.1 as int == smin_y(self.points@),
    {
        if self.points.len() == 0 {
            return (0, 0);
        }
        let (mut mx, mut my) = self.points[0];
        let mut k: usize = 1;
        while k < self.points.len()
            invariant
                1 <= k <= self.points@.len(),
                mx as int == smin_x(self.points@.take(k as int)),
                my as int == smin_y(self.points@.take(k as int)),
            decreases self.points@.len() - k,
        {
            let (x, y) = self.points[k];
            proof {
                assert(self.points@.take(k + 1).drop_last() =~= self.points@.take(k as int));
                assert(self.points@.take(k + 1).last() == self.points@[k as int]);
            }
            if x < mx { mx = x; }
            if y < my { my = y; }
            k = k + 1;
        }
        proof {
            assert(self.points@.take(self.points@.len() as int) =~= self.points@);
        }
        (mx, my)
    }

    /// The largest `x` and `y` coordinates over the shape's points, or the
    /// origin for an empty shape.
    pub fn max_corner(&self) -> (r: Point)
        ensures
            self.points@.len() == 0 ==> r == (0i8, 0i8),
            self.points@.len() > 0 ==> r.0 as int == smax_x(self.points@)
                && r.1 as int == smax_y(self.points@),
    {
        if self.points.len() == 0 {
            return (0, 0);
        }
        let (mut mx, mut my) = self.points[0];
        let mut k: usize = 1;
        while k < self.points.len()
            invariant
                1 <= k <= self.points@.len(),
                mx as int == smax_x(self.points@.take(k as int)),
                my as int == smax_y(self.points@.take(k as int)),
            decreases self.points@.len() - k,
        {
            let (x, y) = self.points[k];
            proof {
                assert(self.points@.take(k + 1).drop_last() =~= self.points@.take(k as int));
                assert(self.points@.take(k + 1).last() == self.points@[k as int]);
            }
            if x > mx { mx = x; }
            if y > my { my = y; }
            k = k + 1;
        }
        proof {
            assert(self.points@.take(self.points@.len() as int) =~= self.points@);
        }
        (mx, my)
    }

    /// Translate every point by `(dx, dy)`.
    pub fn translate(self, d: Point) -> (r: Piece)
        requires
            forall|k: int| 0 <= k < self.points@.len()
                ==> -128 <= (#[trigger] self.points@[k]).0 + d.0 <= 127
                    && -128 <= self.points@[k].1 + d.1 <= 127,
        ensures
            r.points@ == s_translate(self.points@, d.0 as int, d.1 as int),
    {
        let mut out: Vec<Point> = Vec::new();
        for k in 0..self.points.len()
            invariant
                out@ == s_translate(self.points@, d.0 as int, d.1 as int).take(k as int),
                forall|k: int| 0 <= k < self.points@.len()
                    ==> -128 <= (#[trigger] self.points@[k]).0 + d.0 <= 127
                        && -128 <= self.points@[k].1 + d.1 <= 127,
        {
            let (x, y) = self.points[k];
            out.push((x + d.0, y + d.1));
            proof {
                let s = s_translate(self.points@, d.0 as int, d.1 as int);
                assert(s.take(k + 1) =~= s.take(k as int).push(s[k as int]));
            }
        }
        proof {
            let s = s_translate(self.points@, d.0 as int, d.1 as int);
            assert(s.take(s.len() as int) =~= s);
        }
        Piece { points: out }
    }

    /// Translate the shape so its minimal bounding-box corner is the origin.
    pub fn translate_origin(self) -> (r: Piece)
        requires
            smax_x(self.points@) - smin_x(self.points@) <= 127,
            smax_y(self.points@) - smin_y(self.points@) <= 127,
        ensures
            r.points@ == s_norm(self.points@),
    {
        if self.points.len() == 0 {
            return self;
        }
        let (mx, my) = self.min_corner();
        let mut out: Vec<Point> = Vec::new();
        proof {
            lemma_sminmax(self.points@);
        }
        for k in 0..self.points.len()
            invariant
                self.points@.len() > 0,
                mx as int == smin_x(self.points@),
                my as int == smin_y(self.points@),
                smax_x(self.points@) - smin_x(self.points@) <= 127,
                smax_y(self.points@) - smin_y(self.points@) <= 127,
                forall|i: int| 0 <= i < self.points@.len()
                    ==> smin_x(self.points@) <= (#[trigger] self.points@[i]).0
                        <= smax_x(self.points@)
                        && smin_y(self.points@) <= self.points@[i].1 <= smax_y(self.points@),
                out@ == s_norm(self.points@).take(k as int),
        {
            let (x, y) = self.points[k];
            out.push((x - mx, y - my));
            proof {
                let s = s_norm(self.points@);
                assert(s.take(k + 1) =~= s.take(k as int).push(s[k as int]));
            }
        }
        proof {
            let s = s_norm(self.points@);
            assert(s.take(s.len() as int) =~= s);
        }
        Piece { points: out }
    }

    /// Mirror the shape along the `x` axis.
    pub fn mirror_x(self) -> (r: Piece)
        requires
            forall|k: int| 0 <= k < self.points@.len() ==> (#[trigger] self.points@[k]).0 > -128,
        ensures
            r.points@ == s_mirror(self.points@),
    {
        let mut out: Vec<Point> = Vec::new();
        for k in 0..self.points.len()
            invariant
                out@ == s_mirror(self.points@).take(k as int),
                forall|k: int| 0 <= k < self.points@.len()
                    ==> (#[trigger] self.points@[k]).0 > -128,
        {
            let (x, y) = self.points[k];
            out.push((-x, y));
            proof {
                let s = s_mirror(self.points@);
                assert(s.take(k + 1) =~= s.take(k as int).push(s[k as int]));
            }
        }
        proof {
            let s = s_mirror(self.points@);
            assert(s.take(s.len() as int) =~= s);
        }
        Piece { points: out }
    }

    /// Rotate the shape a quarter turn counterclockwise.
    pub fn rot_ccw(self) -> (r: Piece)
        requires
            forall|k: int| 0 <= k < self.points@.len() ==> (#[trigger] self.points@[k]).1 > -128,
        ensures
            r.points@ == s_rot(self.points@),
    {
        let mut out: Vec<Point> = Vec::new();
        for k in 0..self.points.len()
            invariant
                out@ == s_rot(self.points@).take(k as int),
                forall|k: int| 0 <= k < self.points@.len()
                    ==> (#[trigger] self.points@[k]).1 > -128,
        {
            let (x, y) = self.points[k];
            out.push((-y, x));
            proof {
                let s = s_rot(self.points@);
                assert(s.take(k + 1) =~= s.take(k as int).push(s[k as int]));
            }
        }
        proof {
            let s = s_rot(self.points@);
            assert(s.take(s.len() as int) =~= s);
        }
        Piece { points: out }
    }

    /// Sort the shape's points lexicographically.
    pub fn sorted(self) -> (r: Piece)
        ensures
            r.points@ == sort_pts(self.points@),
    {
        let mut out: Vec<Point> = Vec::new();
        for k in 0..self.points.len()
            invariant
                out@ == sort_pts(self.points@.take(k as int)),
        {
            let x = self.points[k];
            let mut idx: usize = 0;
            while idx < out.len() && pt_lt_ex(out[idx], x)
                invariant
                    idx <= out@.len(),
                    forall|i: int| 0 <= i < idx ==> pt_lt(out@[i], x),
                decreases out@.len() - idx,
            {
                idx = idx + 1;
            }
            proof {
                lemma_insert_pt_at(out@, x, idx as int);
            }
            out.insert(idx, x);
            proof {
                assert(self.points@.take(k + 1).drop_last() =~= self.points@.take(k as int));
                assert(self.points@.take(k + 1).last() == self.points@[k as int]);
            }
        }
        proof {
            assert(self.points@.take(self.points@.len() as int) =~= self.points@);
        }
        Piece { points: out }
    }

    /// The `j`-th symmetry image of the shape, with sorted points.
    fn variant_sorted(&self, j: usize) -> (r: Piece)
        requires
            j < 8,
            coords_in(self.points@, -(COORD_LIMIT as int), COORD_LIMIT as int),
        ensures
            r.points@ == the8(self.points@)[j as int],
    {
        let base = if j >= 4 {
            Piece { points: copy_points(&self.points) }.mirror_x()
        } else {
            Piece { points: copy_points(&self.points) }
        };
        let ghost bs = base.points@;
        proof {
            assert(coords_in(bs, -(COORD_LIMIT as int), COORD_LIMIT as int));
        }
        let mut cur = base;
        let rots = j % 4;
        let mut t: usize = 0;
        while t < rots
            invariant
                t <= rots,
                rots < 4,
                coords_in(bs, -(COORD_LIMIT as int), COORD_LIMIT as int),
                cur.points@ == s_rotn(bs, t as nat),
            decreases rots - t,
        {
            proof {
                lemma_rotn_coords(bs, t as nat, COORD_LIMIT as int);
            }
            cur = cur.rot_ccw();
            t = t + 1;
        }
        proof {
            lemma_rotn_coords(bs, rots as nat, COORD_LIMIT as int);
            if cur.points@.len() > 0 {
                lemma_sminmax(cur.points@);
                lemma_bounds_sminmax(cur.points@, -(COORD_LIMIT as int), COORD_LIMIT as int);
            }
        }
        let n = cur.translate_origin();
        n.sorted()
    }

    /// All symmetry-distinct orientations of the shape: the eight symmetry
    /// images with sorted points, deduplicated, in lexicographic order.
    pub fn variations(&self) -> (r: Vec<Piece>)
        requires
            coords_in(self.points@, -(COORD_LIMIT as int), COORD_LIMIT as int),
        ensures
            pcs_view(r@) == dedup_pcs(sort_pcs(the8(self.points@))),
    {
        let mut sorted_all: Vec<Piece> = Vec::new();
        for j in 0..8usize
            invariant
                coords_in(self.points@, -(COORD_LIMIT as int), COORD_LIMIT as int),
                pcs_view(sorted_all@) == sort_pcs(the8(self.points@).take(j as int)),
        {
            let v = self.variant_sorted(j);
            let ghost pre = sorted_all@;
            let mut idx: usize = 0;
            while idx < sorted_all.len() && pts_lt_ex(&sorted_all[idx].points, &v.points)
                invariant
                    idx <= sorted_all@.len(),
                    sorted_all@ == pre,
                    forall|i: int| 0 <= i < idx ==> pts_lt(pcs_view(pre)[i], v.points@),
                decreases sorted_all@.len() - idx,
            {
                proof {
                    assert(pcs_view(pre)[idx as int] == pre[idx as int].points@);
                }
                idx = idx + 1;
            }
            proof {
                if (idx as int) < pre.len() {
                    assert(pcs_view(pre)[idx as int] == pre[idx as int].points@);
                }
                lemma_insert_pc_at(pcs_view(pre), v.points@, idx as int);
            }
            sorted_all.insert(idx, v);
            proof {
                let t8 = the8(self.points@);
                assert(pcs_view(sorted_all@)
                    =~= pcs_view(pre).take(idx as int) + seq![t8[j as int]]
                        + pcs_view(pre).skip(idx as int));
                assert(t8.take(j + 1).drop_last() =~= t8.take(j as int));
                assert(t8.take(j + 1).last() == t8[j as int]);
            }
        }
        proof {
            assert(the8(self.points@).take(8) =~= the8(self.points@));
        }
        let mut out: Vec<Piece> = Vec::new();
        let ghost sl = pcs_view(sorted_all@);
        for k in 0..sorted_all.len()
            invariant
                sl == pcs_view(sorted_all@),
                pcs_view(out@) == dedup_pcs(sl.take(k as int)),
                k > 0 ==> out@.len() > 0
                    && out@.last().points@ == sorted_all@[k - 1].points@,
        {
            proof {
                assert(sl[k as int] == sorted_all@[k as int].points@);
                assert(sl.take(k + 1).drop_last() =~= sl.take(k as int));
                assert(sl.take(k + 1).last() == sl[k as int]);
                if k > 0 {
                    assert(sl.take(k + 1)[k - 1] == sl[k - 1]);
                }
            }
            if k > 0 && pts_eq_ex(&out[out.len() - 1].points, &sorted_all[k].points) {
                proof {
                    assert(pcs_view(out@) =~= dedup_pcs(sl.take(k + 1)));
                }
            } else {
                let v = Piece { points: copy_points(&sorted_all[k].points) };
                out.push(v);
                proof {
                    assert(pcs_view(out@) =~= dedup_pcs(sl.take(k + 1)));
                }
            }
        }
        proof {
            assert(sl.take(sl.len() as int) =~= sl);
        }
        out
    }

    /// The lexicographically least orientation of the shape, used as the
    /// canonical representative of its symmetry class.
    pub fn canonical(&self) -> (r: Piece)
        requires
            coords_in(self.points@, -(COORD_LIMIT as int), COORD_LIMIT as int),
        ensures
            r.points@ == pcs_min(the8(self.points@)),
    {
        let mut best = self.variant_sorted(0);
        for j in 1..8usize
            invariant
                coords_in(self.points@, -(COORD_LIMIT as int), COORD_LIMIT as int),
                best.points@ == pcs_min(the8(self.points@).take(j as int)),
        {
            let v = self.variant_sorted(j);
            proof {
                let t8 = the8(self.points@);
                assert(t8.take(j + 1).drop_last() =~= t8.take(j as int));
                assert(t8.take(j + 1).last() == t8[j as int]);
            }
            if pts_lt_ex(&v.points, &best.points) {
                best = v;
            }
        }
        proof {
            assert(the8(self.points@).take(8) =~= the8(self.points@));
        }
        best
    }
}

/// Candidate shapes from adding one neighbor cell `q`, unless already present.
pub open spec fn maybe_cand(s: Seq<Point>, q: Point) -> Seq<Seq<Point>> {
    if s.contains(q) {
        Seq::empty()
    } else {
        seq![s.push(q)]
    }
}

/// The candidates contributed by the four neighbors of point `i` of `s`.
pub open spec fn cand4(s: Seq<Point>, i: int) -> Seq<Seq<Point>> {
    maybe_cand(s, ((s[i].0 - 1) as i8, s[i].1)) + maybe_cand(s, ((s[i].0 + 1) as i8, s[i].1))
        + maybe_cand(s, (s[i].0, (s[i].1 - 1) as i8))
        + maybe_cand(s, (s[i].0, (s[i].1 + 1) as i8))
}

/// All one-cell extensions of `s`, from its first `k` points.
pub open spec fn expand_cands(s: Seq<Point>, k: nat) -> Seq<Seq<Point>>
    decreases k
{
    if k == 0 {
        Seq::empty()
    } else {
        expand_cands(s, (k - 1) as nat) + cand4(s, k - 1)
    }
}

pub open spec fn expand_spec(s: Seq<Point>) -> Seq<Seq<Point>> {
    expand_cands(s, s.len())
}

/// The larger of the two bounding-box side lengths of a shape.
pub open spec fn spread_of(s: Seq<Point>) -> int {
    let dx = smax_x(s) - smin_x(s);
    let dy = smax_y(s) - smin_y(s);
    if dx > dy { dx } else { dy }
}

/// A quarter turn swaps the coordinate ranges of a shape.
proof fn lemma_rot_minmax(s: Seq<Point>)
    requires
        s.len() > 0,
        coords_in(s, -127, 127),
    ensures
        smin_x(s_rot(s)) == -smax_y(s),
        smax_x(s_rot(s)) == -smin_y(s),
        smin_y(s_rot(s)) == smin_x(s),
        smax_y(s_rot(s)) == smax_x(s),
    decreases s.len()
{
    if s.len() == 1 {
    } else {
        assert(coords_in(s.drop_last(), -127, 127)) by {
            assert(forall|k: int| 0 <= k < s.len() - 1
                ==> #[trigger] s.drop_last()[k] == s[k]);
        }
        lemma_rot_minmax(s.drop_last());
        assert(s_rot(s.drop_last()) =~= s_rot(s).drop_last());
    }
}

/// Mirroring negates the `x` range of a shape and keeps the `y` range.
proof fn lemma_mirror_minmax(s: Seq<Point>)
    requires
        s.len() > 0,
        coords_in(s, -127, 127),
    ensures
        smin_x(s_mirror(s)) == -smax_x(s),
        smax_x(s_mirror(s)) == -smin_x(s),
        smin_y(s_mirror(s)) == smin_y(s),
        smax_y(s_mirror(s)) == smax_y(s),
        s_mirror(s).len() == s.len(),
    decreases s.len()
{
    if s.len() == 1 {
    } else {
        assert(coords_in(s.drop_last(), -127, 127)) by {
            assert(forall|k: int| 0 <= k < s.len() - 1
                ==> #[trigger] s.drop_last()[k] == s[k]);
        }
        lemma_mirror_minmax(s.drop_last());
        assert(s_mirror(s.drop_last()) =~= s_mirror(s).drop_last());
    }
}

/// Repeated quarter turns keep coordinates bounded and at most exchange the
/// two bounding-box side lengths.
proof fn lemma_rotn_minmax(s: Seq<Point>, n: nat, b: int)
    requires
        s.len() > 0,
        0 < b <= 127,
        coords_in(s, -b, b),
    ensures
        s_rotn(s, n).len() == s.len(),
        coords_in(s_rotn(s, n), -b, b),
        (smax_x(s_rotn(s, n)) - smin_x(s_rotn(s, n)) == smax_x(s) - smin_x(s)
            && smax_y(s_rotn(s, n)) - smin_y(s_rotn(s, n)) == smax_y(s) - smin_y(s))
        || (smax_x(s_rotn(s, n)) - smin_x(s_rotn(s, n)) == smax_y(s) - smin_y(s)
            && smax_y(s_rotn(s, n)) - smin_y(s_rotn(s, n)) == smax_x(s) - smin_x(s)),
    decreases n
{
    if n > 0 {
        lemma_rotn_minmax(s, (n - 1) as nat, b);
        lemma_rot_minmax(s_rotn(s, (n - 1) as nat));
        lemma_bounds_sminmax(s_rotn(s, (n - 1) as nat), -b, b);
    }
}

/// Normalization maps coordinates into `[0, side]` for each bounding-box
/// side.
proof fn lemma_norm_tight(s: Seq<Point>, b: int)
    requires
        s.len() > 0,
        0 < b <= 63,
        coords_in(s, -b, b),
    ensures
        s_norm(s).len() == s.len(),
        forall|k: int| 0 <= k < s.len()
            ==> 0 <= (#[trigger] s_norm(s)[k]).0 <= smax_x(s) - smin_x(s)
                && 0 <= s_norm(s)[k].1 <= smax_y(s) - smin_y(s),
{
    lemma_sminmax(s);
    lemma_bounds_sminmax(s, -b, b);
}

/// Elements of `a` drawn from `b` inherit `b`'s coordinate bounds.
proof fn lemma_coords_via_contains(a: Seq<Point>, b: Seq<Point>, lo: int, hi: int)
    requires
        forall|q: Point| a.contains(q) ==> b.contains(q),
        coords_in(b, lo, hi),
    ensures
        coords_in(a, lo, hi),
{
    assert forall|k: int| 0 <= k < a.len()
        implies lo <= (#[trigger] a[k]).0 <= hi && lo <= a[k].1 <= hi by {
        assert(a.contains(a[k]));
        let m = choose|m: int| 0 <= m < b.len() && b[m] == a[k];
    }
}

/// Shape of a symmetry image: same cell count, coordinates normalized into
/// the shape's bounding box.
pub proof fn lemma_variant_shape(s: Seq<Point>, j: int, b: int)
    requires
        s.len() > 0,
        0 <= j < 8,
        0 < b <= 63,
        coords_in(s, -b, b),
    ensures
        the8(s)[j].len() == s.len(),
        coords_in(the8(s)[j], 0, spread_of(s)),
{
    let base = if j < 4 { s } else { s_mirror(s) };
    if j >= 4 {
        lemma_mirror_minmax(s);
        assert(coords_in(base, -b, b));
    }
    lemma_bounds_sminmax(s, -b, b);
    let t = s_rotn(base, (j % 4) as nat);
    lemma_rotn_minmax(base, (j % 4) as nat, b);
    lemma_norm_tight(t, b);
    let v = variant_spec(s, j);
    assert(coords_in(v, 0, spread_of(s)));
    lemma_sort_pts_elems(v);
    lemma_coords_via_contains(sort_pts(v), v, 0, spread_of(s));
}

/// The left-to-right minimum of a nonempty list is one of its elements.
pub proof fn lemma_pcs_min_elem(l: Seq<Seq<Point>>)
    requires
        l.len() > 0,
    ensures
        l.contains(pcs_min(l)),
    decreases l.len()
{
    if l.len() == 1 {
        assert(l[0] == pcs_min(l));
    } else {
        lemma_pcs_min_elem(l.drop_last());
        if pts_lt(l.last(), pcs_min(l.drop_last())) {
            assert(l[l.len() - 1] == pcs_min(l));
        } else {
            let m = choose|m: int| 0 <= m < l.drop_last().len()
                && l.drop_last()[m] == pcs_min(l.drop_last());
            assert(l[m] == pcs_min(l));
        }
    }
}

/// Shape of the canonical representative: same cell count, coordinates
/// within the shape's bounding box, anchored at the origin.
pub proof fn lemma_canonical_shape(s: Seq<Point>, b: int)
    requires
        s.len() > 0,
        0 < b <= 63,
        coords_in(s, -b, b),
    ensures
        pcs_min(the8(s)).len() == s.len(),
        coords_in(pcs_min(the8(s)), 0, spread_of(s)),
{
    lemma_pcs_min_elem(the8(s));
    let m = choose|m: int| 0 <= m < the8(s).len() && the8(s)[m] == pcs_min(the8(s));
    lemma_variant_shape(s, m, b);
}

/// Shape of every deduplicated orientation: same cell count as the shape,
/// coordinates normalized to `[0, 126]`.
pub proof fn lemma_variations_shape(s: Seq<Point>, b: int)
    requires
        s.len() > 0,
        0 < b <= 63,
        coords_in(s, -b, b),
    ensures
        forall|i: int| 0 <= i < dedup_pcs(sort_pcs(the8(s))).len()
            ==> (#[trigger] dedup_pcs(sort_pcs(the8(s)))[i]).len() == s.len()
                && coords_in(dedup_pcs(sort_pcs(the8(s)))[i], 0, 126),
{
    let t8 = the8(s);
    let vs = dedup_pcs(sort_pcs(t8));
    lemma_sort_pcs_elems(t8);
    lemma_dedup_pcs_elems(sort_pcs(t8));
    lemma_bounds_sminmax(s, -b, b);
    assert forall|i: int| 0 <= i < vs.len()
        implies (#[trigger] vs[i]).len() == s.len() && coords_in(vs[i], 0, 126) by {
        assert(vs.contains(vs[i]));
        assert(sort_pcs(t8).contains(vs[i]));
        assert(t8.contains(vs[i]));
        let m = choose|m: int| 0 <= m < t8.len() && t8[m] == vs[i];
        lemma_variant_shape(s, m, b);
        assert(coords_in(vs[i], 0, spread_of(s)));
        assert(spread_of(s) <= 2 * b);
        assert forall|k: int| 0 <= k < vs[i].len()
            implies 0 <= (#[trigger] vs[i][k]).0 <= 126 && 0 <= vs[i][k].1 <= 126 by {
            assert(0 <= vs[i][k].0 <= spread_of(s));
        }
    }
}

fn contains_pt(v: &Vec<Point>, q: Point) -> (r: bool)
    ensures
        r == v@.contains(q),
{
    for k in 0..v.len()
        invariant
            forall|i: int| 0 <= i < k ==> v@[i] != q,
    {
        let (x, y) = v[k];
        if x == q.0 && y == q.1 {
            return true;
        }
    }
    proof {
        assert(!v@.contains(q)) by {
            if v@.contains(q) {
                let i = choose|i: int| 0 <= i < v@.len() && v@[i] == q;
            }
        }
    }
    false
}

impl Piece {
    /// All shapes obtained by adding one empty neighbor cell of one of the
    /// shape's points, in point order; the same candidate may appear more
    /// than once.
    pub fn expand(&self) -> (r: Vec<Piece>)
        requires
            coords_in(self.points@, -100, 100),
        ensures
            pcs_view(r@) == expand_spec(self.points@),
    {
        let ghost s = self.points@;
        let mut out: Vec<Piece> = Vec::new();
        for i in 0..self.points.len()
            invariant
                s == self.points@,
                coords_in(s, -100, 100),
                pcs_view(out@) == expand_cands(s, i as nat),
        {
            let (x, y) = self.points[i];
            let cands: [Point; 4] = [(x - 1, y), (x + 1, y), (x, y - 1), (x, y + 1)];
            let ghost pre = pcs_view(out@);
            let mut d: usize = 0;
            while d < 4
                invariant
                    s == self.points@,
                    0 <= (i as int) < s.len(),
                    (x, y) == s[i as int],
                    d <= 4,
                    cands@ =~= seq![((x - 1) as i8, y), ((x + 1) as i8, y), (x, (y - 1) as i8),
                        (x, (y + 1) as i8)],
                    pcs_view(out@) == pre + cand4_prefix(s, i as int, d as int),
                decreases 4 - d,
            {
                let q = cands[d];
                if !contains_pt(&self.points, q) {
                    let mut c = copy_points(&self.points);
                    c.push(q);
                    out.push(Piece { points: c });
                    proof {
                        assert(pcs_view(out@)
                            =~= pre + cand4_prefix(s, i as int, d as int) + seq![s.push(q)]);
                    }
                } else {
                    proof {
                        assert(maybe_cand(s, cands@[d as int]).len() == 0);
                    }
                }
                proof {
                    assert(cand4_prefix(s, i as int, d + 1)
                        =~= cand4_prefix(s, i as int, d as int)
                            + maybe_cand(s, cands@[d as int]));
                    assert(pcs_view(out@) =~= pre + cand4_prefix(s, i as int, d + 1));
                }
                d = d + 1;
            }
            proof {
                assert(cand4_prefix(s, i as int, 4) =~= cand4(s, i as int));
                assert(pcs_view(out@) =~= expand_cands(s, (i + 1) as nat));
            }
        }
        out
    }
}

/// The first `d` of the four neighbor candidates of point `i`.
pub open spec fn cand4_prefix(s: Seq<Point>, i: int, d: int) -> Seq<Seq<Point>> {
    (if d >= 1 { maybe_cand(s, ((s[i].0 - 1) as i8, s[i].1)) } else { Seq::empty() })
        + (if d >= 2 { maybe_cand(s, ((s[i].0 + 1) as i8, s[i].1)) } else { Seq::empty() })
        + (if d >= 3 { maybe_cand(s, (s[i].0, (s[i].1 - 1) as i8)) } else { Seq::empty() })
        + (if d >= 4 { maybe_cand(s, (s[i].0, (s[i].1 + 1) as i8)) } else { Seq::empty() })
}

/// Sort a list of pieces lexicographically and drop duplicates.
fn dedup_sorted(v: Vec<Piece>) -> (r: Vec<Piece>)
    ensures
        pcs_view(r@) == dedup_pcs(sort_pcs(pcs_view(v@))),
{
    let mut sorted_all: Vec<Piece> = Vec::new();
    let n = v.len();
    for t in 0..n
        invariant
            n == v@.len(),
            pcs_view(sorted_all@) == sort_pcs(pcs_view(v@).take(t as int)),
    {
        let p = Piece { points: copy_points(&v[t].points) };
        let ghost pre = sorted_all@;
        let mut idx: usize = 0;
        while idx < sorted_all.len() && pts_lt_ex(&sorted_all[idx].points, &p.points)
            invariant
                idx <= sorted_all@.len(),
                sorted_all@ == pre,
                p.points@ == v@[t as int].points@,
                forall|i: int| 0 <= i < idx ==> pts_lt(pcs_view(pre)[i], p.points@),
            decreases sorted_all@.len() - idx,
        {
            proof {
                assert(pcs_view(pre)[idx as int] == pre[idx as int].points@);
            }
            idx = idx + 1;
        }
        proof {
            if (idx as int) < pre.len() {
                assert(pcs_view(pre)[idx as int] == pre[idx as int].points@);
            }
            lemma_insert_pc_at(pcs_view(pre), p.points@, idx as int);
        }
        sorted_all.insert(idx, p);
        proof {
            let vw = pcs_view(v@);
            assert(pcs_view(sorted_all@)
                =~= pcs_view(pre).take(idx as int) + seq![vw[t as int]]
                    + pcs_view(pre).skip(idx as int));
            assert(vw.take(t + 1).drop_last() =~= vw.take(t as int));
            assert(vw.take(t + 1).last() == vw[t as int]);
        }
    }
    proof {
        assert(pcs_view(v@).take(n as int) =~= pcs_view(v@));
    }
    let mut out: Vec<Piece> = Vec::new();
    let ghost sl = pcs_view(sorted_all@);
    for k in 0..sorted_all.len()
        invariant
            sl == pcs_view(sorted_all@),
            pcs_view(out@) == dedup_pcs(sl.take(k as int)),
            k > 0 ==> out@.len() > 0
                && out@.last().points@ == sorted_all@[k - 1].points@,
    {
        proof {
            assert(sl[k as int] == sorted_all@[k as int].points@);
            assert(sl.take(k + 1).drop_last() =~= sl.take(k as int));
            assert(sl.take(k + 1).last() == sl[k as int]);
            if k > 0 {
                assert(sl.take(k + 1)[k - 1] == sl[k - 1]);
            }
        }
        if k > 0 && pts_eq_ex(&out[out.len() - 1].points, &sorted_all[k].points) {
            proof {
                assert(pcs_view(out@) =~= dedup_pcs(sl.take(k + 1)));
            }
        } else {
            let w = Piece { points: copy_points(&sorted_all[k].points) };
            out.push(w);
            proof {
                assert(pcs_view(out@) =~= dedup_pcs(sl.take(k + 1)));
            }
        }
    }
    proof {
        assert(sl.take(sl.len() as int) =~= sl);
    }
    out
}

/// All distinct polyomino shapes of up to `max_piece_size` cells, in
/// canonical form, generated by repeatedly growing smaller shapes by one
/// cell.  Every returned shape is nonempty, normalized to the origin, and
/// within the coordinate limit.
pub fn compute_pieces(max_piece_size: usize) -> (r: Vec<Piece>)
    requires
        1 <= max_piece_size <= 30,
    ensures
        forall|i: int| 0 <= i < r@.len()
            ==> 1 <= (#[trigger] r@[i]).points@.len() <= max_piece_size
                && coords_in(r@[i].points@, 0, COORD_LIMIT as int),
        r@.len() >= 1,
        r@[0].points@ == seq![(0i8, 0i8)],
        max_piece_size == 1 ==> r@.len() == 1,
        forall|i: int, j: int| 0 <= i <= j < r@.len()
            ==> (#[trigger] r@[i]).points@.len() <= (#[trigger] r@[j]).points@.len(),
{
    let mut result: Vec<Piece> = Vec::new();
    let mut cur: Vec<Piece> = Vec::new();
    let mut first: Vec<Point> = Vec::new();
    first.push((0, 0));
    cur.push(Piece { points: first });
    let mut g: usize = 1;
    while g < max_piece_size
        invariant
            1 <= g <= max_piece_size,
            max_piece_size <= 30,
            forall|i: int| 0 <= i < cur@.len()
                ==> (#[trigger] cur@[i]).points@.len() == g
                    && coords_in(cur@[i].points@, 0, 2 * g),
            forall|i: int| 0 <= i < result@.len()
                ==> 1 <= (#[trigger] result@[i]).points@.len() < g
                    && coords_in(result@[i].points@, 0, COORD_LIMIT as int),
            forall|i: int, j: int| 0 <= i <= j < result@.len()
                ==> (#[trigger] result@[i]).points@.len()
                    <= (#[trigger] result@[j]).points@.len(),
            g == 1 ==> cur@.len() == 1 && cur@[0].points@ == seq![(0i8, 0i8)]
                && result@.len() == 0,
            g > 1 ==> result@.len() >= 1 && result@[0].points@ == seq![(0i8, 0i8)],
        decreases max_piece_size - g,
    {
        let mut next: Vec<Piece> = Vec::new();
        for p in 0..cur.len()
            invariant
                1 <= g < max_piece_size <= 30,
                forall|i: int| 0 <= i < cur@.len()
                    ==> (#[trigger] cur@[i]).points@.len() == g
                        && coords_in(cur@[i].points@, 0, 2 * g),
                forall|i: int| 0 <= i < next@.len()
                    ==> (#[trigger] next@[i]).points@.len() == g + 1
                        && coords_in(next@[i].points@, 0, 2 * (g + 1)),
        {
            let cands = cur[p].expand();
            let ghost cs = cur@[p as int].points@;
            proof {
                lemma_expand_shape(cs, g as int);
                assert forall|i: int| 0 <= i < cands@.len()
                    implies (#[trigger] cands@[i]).points@.len() == g + 1
                        && coords_in(cands@[i].points@, -1, 2 * g + 1) by {
                    assert(pcs_view(cands@)[i] == cands@[i].points@);
                }
            }
            for c in 0..cands.len()
                invariant
                    1 <= g < max_piece_size <= 30,
                    cs == cur@[p as int].points@,
                    0 <= (p as int) < cur@.len(),
                    forall|i: int| 0 <= i < cur@.len()
                        ==> (#[trigger] cur@[i]).points@.len() == g
                            && coords_in(cur@[i].points@, 0, 2 * g),
                    forall|i: int| 0 <= i < cands@.len()
                        ==> (#[trigger] cands@[i]).points@.len() == g + 1
                            && coords_in(cands@[i].points@, -1, 2 * g + 1),
                    forall|i: int| 0 <= i < next@.len()
                        ==> (#[trigger] next@[i]).points@.len() == g + 1
                            && coords_in(next@[i].points@, 0, 2 * (g + 1)),
            {
                let cp = cands[c].canonical();
                proof {
                    let q = cands@[c as int].points@;
                    lemma_canonical_shape(q, 2 * g + 1);
                    lemma_bounds_sminmax(q, -1, 2 * g + 1);
                    assert(spread_of(q) <= 2 * g + 2);
                    assert forall|k: int| 0 <= k < cp.points@.len()
                        implies 0 <= (#[trigger] cp.points@[k]).0 <= 2 * (g + 1)
                            && 0 <= cp.points@[k].1 <= 2 * (g + 1) by {
                        assert(0 <= cp.points@[k].0 <= spread_of(q));
                    }
                }
                next.push(cp);
            }
        }
        let moved = cur;
        let deduped = dedup_sorted(next);
        proof {
            let nv = pcs_view(next@);
            lemma_sort_pcs_elems(nv);
            lemma_dedup_pcs_elems(sort_pcs(nv));
            assert forall|i: int| 0 <= i < deduped@.len()
                implies (#[trigger] deduped@[i]).points@.len() == g + 1
                    && coords_in(deduped@[i].points@, 0, 2 * (g + 1)) by {
                assert(pcs_view(deduped@)[i] == deduped@[i].points@);
                assert(dedup_pcs(sort_pcs(nv)).contains(deduped@[i].points@));
                assert(sort_pcs(nv).contains(deduped@[i].points@));
                assert(nv.contains(deduped@[i].points@));
                let m = choose|m: int| 0 <= m < nv.len() && nv[m] == deduped@[i].points@;
                assert(nv[m] == next@[m].points@);
            }
        }
        cur = deduped;
        let mut m: usize = 0;
        let ghost base = result@;
        let ghost mv = moved@;
        while m < moved.len()
            invariant
                m <= moved@.len(),
                moved@ == mv,
                1 <= g < max_piece_size <= 30,
                result@.len() == base.len() + m,
                forall|i: int| 0 <= i < base.len() ==> result@[i] == base[i],
                forall|i: int| base.len() <= i < result@.len()
                    ==> (#[trigger] result@[i]).points@ == mv[i - base.len()].points@,
                forall|i: int| 0 <= i < mv.len()
                    ==> (#[trigger] mv[i]).points@.len() == g
                        && coords_in(mv[i].points@, 0, 2 * g),
                forall|i: int| 0 <= i < base.len()
                    ==> 1 <= (#[trigger] base[i]).points@.len() < g
                        && coords_in(base[i].points@, 0, COORD_LIMIT as int),
                forall|i: int, j: int| 0 <= i <= j < base.len()
                    ==> (#[trigger] base[i]).points@.len()
                        <= (#[trigger] base[j]).points@.len(),
                g == 1 ==> base.len() == 0 && mv.len() == 1
                    && mv[0].points@ == seq![(0i8, 0i8)],
                g > 1 ==> base.len() >= 1 && base[0].points@ == seq![(0i8, 0i8)],
            decreases moved@.len() - m,
        {
            let v = Piece { points: copy_points(&moved[m].points) };
            result.push(v);
            m = m + 1;
        }
        proof {
            assert forall|i: int, j: int| 0 <= i <= j < result@.len()
                implies (#[trigger] result@[i]).points@.len()
                    <= (#[trigger] result@[j]).points@.len() by {
                if j >= base.len() {
                    assert(result@[j].points@ == mv[j - base.len()].points@);
                    if i >= base.len() {
                        assert(result@[i].points@ == mv[i - base.len()].points@);
                    } else {
                        assert(result@[i] == base[i]);
                    }
                } else {
                    assert(result@[i] == base[i] && result@[j] == base[j]);
                }
            }
            if base.len() == 0 {
                assert(result@[0].points@ == mv[0].points@);
            } else {
                assert(result@[0] == base[0]);
            }
            assert(result@.len() >= 1 && result@[0].points@ == seq![(0i8, 0i8)]);
            assert forall|i: int| 0 <= i < result@.len()
                implies 1 <= (#[trigger] result@[i]).points@.len() < g + 1
                    && coords_in(result@[i].points@, 0, COORD_LIMIT as int) by {
                if i >= base.len() {
                    assert(result@[i].points@ == mv[i - base.len()].points@);
                    assert(mv[i - base.len()].points@.len() == g);
                    assert(coords_in(mv[i - base.len()].points@, 0, 2 * g));
                    assert forall|k: int| 0 <= k < result@[i].points@.len()
                        implies 0 <= (#[trigger] result@[i].points@[k]).0 <= COORD_LIMIT as int
                            && 0 <= result@[i].points@[k].1 <= COORD_LIMIT as int by {
                        assert(0 <= result@[i].points@[k].0 <= 2 * g);
                    }
                } else {
                    assert(result@[i] == base[i]);
                    assert(1 <= base[i].points@.len() < g);
                    assert(coords_in(base[i].points@, 0, COORD_LIMIT as int));
                }
            }
        }
        g = g + 1;
    }
    let mut m: usize = 0;
    let ghost base = result@;
    let ghost mv = cur@;
    while m < cur.len()
        invariant
            m <= cur@.len(),
            cur@ == mv,
            1 <= g <= max_piece_size,
            max_piece_size <= 30,
            result@.len() == base.len() + m,
            forall|i: int| 0 <= i < base.len() ==> result@[i] == base[i],
            forall|i: int| base.len() <= i < result@.len()
                ==> (#[trigger] result@[i]).points@ == mv[i - base.len()].points@,
            forall|i: int| 0 <= i < mv.len()
                ==> (#[trigger] mv[i]).points@.len() == g
                    && coords_in(mv[i].points@, 0, 2 * g),
            forall|i: int| 0 <= i < base.len()
                ==> 1 <= (#[trigger] base[i]).points@.len() <= max_piece_size
                    && coords_in(base[i].points@, 0, COORD_LIMIT as int),
            forall|i: int| 0 <= i < base.len()
                ==> (#[trigger] base[i]).points@.len() < g,
            forall|i: int, j: int| 0 <= i <= j < base.len()
                ==> (#[trigger] base[i]).points@.len()
                    <= (#[trigger] base[j]).points@.len(),
            g == 1 ==> base.len() == 0 && mv.len() == 1
                && mv[0].points@ == seq![(0i8, 0i8)],
            g > 1 ==> base.len() >= 1 && base[0].points@ == seq![(0i8, 0i8)],
        decreases cur@.len() - m,
    {
        let v = Piece { points: copy_points(&cur[m].points) };
        result.push(v);
        m = m + 1;
    }
    proof {
        assert forall|i: int, j: int| 0 <= i <= j < result@.len()
            implies (#[trigger] result@[i]).points@.len()
                <= (#[trigger] result@[j]).points@.len() by {
            if j >= base.len() {
                assert(result@[j].points@ == mv[j - base.len()].points@);
                if i >= base.len() {
                    assert(result@[i].points@ == mv[i - base.len()].points@);
                } else {
                    assert(result@[i] == base[i]);
                }
            } else {
                assert(result@[i] == base[i] && result@[j] == base[j]);
            }
        }
        if base.len() == 0 {
            assert(mv.len() >= 1);
            assert(result@[0].points@ == mv[0].points@);
        } else {
            assert(result@[0] == base[0]);
        }
        assert(result@.len() >= 1 && result@[0].points@ == seq![(0i8, 0i8)]);
        assert forall|i: int| 0 <= i < result@.len()
            implies 1 <= (#[trigger] result@[i]).points@.len() <= max_piece_size
                && coords_in(result@[i].points@, 0, COORD_LIMIT as int) by {
            if i >= base.len() {
                assert(result@[i].points@ == mv[i - base.len()].points@);
                assert(mv[i - base.len()].points@.len() == g);
                assert(coords_in(mv[i - base.len()].points@, 0, 2 * g));
                assert forall|k: int| 0 <= k < result@[i].points@.len()
                    implies 0 <= (#[trigger] result@[i].points@[k]).0 <= COORD_LIMIT as int
                        && 0 <= result@[i].points@[k].1 <= COORD_LIMIT as int by {
                    assert(0 <= result@[i].points@[k].0 <= 2 * g);
                }
            } else {
                assert(result@[i] == base[i]);
                assert(1 <= base[i].points@.len() <= max_piece_size);
                assert(coords_in(base[i].points@, 0, COORD_LIMIT as int));
            }
        }
    }
    result
}

/// Every one-cell extension has one more point and coordinates at most one
/// step outside the original bounds.
proof fn lemma_expand_shape(s: Seq<Point>, g: int)
    requires
        s.len() == g,
        1 <= g,
        coords_in(s, 0, 2 * g),
        2 * g + 1 <= 127,
    ensures
        forall|i: int| 0 <= i < expand_spec(s).len()
            ==> (#[trigger] expand_spec(s)[i]).len() == g + 1
                && coords_in(expand_spec(s)[i], -1, 2 * g + 1),
{
    lemma_expand_cands_shape(s, s.len(), g);
}

proof fn lemma_expand_cands_shape(s: Seq<Point>, k: nat, g: int)
    requires
        s.len() == g,
        1 <= g,
        k <= s.len(),
        coords_in(s, 0, 2 * g),
        2 * g + 1 <= 127,
    ensures
        forall|i: int| 0 <= i < expand_cands(s, k).len()
            ==> (#[trigger] expand_cands(s, k)[i]).len() == g + 1
                && coords_in(expand_cands(s, k)[i], -1, 2 * g + 1),
    decreases k
{
    if k > 0 {
        lemma_expand_cands_shape(s, (k - 1) as nat, g);
        let e = expand_cands(s, k);
        let pre = expand_cands(s, (k - 1) as nat);
        assert forall|i: int| 0 <= i < e.len()
            implies (#[trigger] e[i]).len() == g + 1 && coords_in(e[i], -1, 2 * g + 1) by {
            if i < pre.len() {
                assert(e[i] == pre[i]);
            } else {
                let c = cand4(s, k - 1);
                assert(e[i] == c[i - pre.len()]);
                assert forall|j: int| 0 <= j < c.len()
                    implies (#[trigger] c[j]).len() == g + 1
                        && coords_in(c[j], -1, 2 * g + 1) by {
                    lemma_cand4_shape(s, k - 1, g, j);
                }
            }
        }
    }
}

proof fn lemma_cand4_shape(s: Seq<Point>, i: int, g: int, j: int)
    requires
        s.len() == g,
        1 <= g,
        0 <= i < s.len(),
        coords_in(s, 0, 2 * g),
        2 * g + 1 <= 127,
        0 <= j < cand4(s, i).len(),
    ensures
        cand4(s, i)[j].len() == g + 1,
        coords_in(cand4(s, i)[j], -1, 2 * g + 1),
{
    let c = cand4(s, i);
    assert forall|m: int| 0 <= m < c.len()
        implies (#[trigger] c[m]).len() == g + 1 && coords_in(c[m], -1, 2 * g + 1) by {
        let q1 = ((s[i].0 - 1) as i8, s[i].1);
        let q2 = ((s[i].0 + 1) as i8, s[i].1);
        let q3 = (s[i].0, (s[i].1 - 1) as i8);
        let q4 = (s[i].0, (s[i].1 + 1) as i8);
        assert(c[m] == s.push(q1) || c[m] == s.push(q2) || c[m] == s.push(q3)
            || c[m] == s.push(q4));
        assert(coords_in(s.push(q1), -1, 2 * g + 1));
        assert(coords_in(s.push(q2), -1, 2 * g + 1));
        assert(coords_in(s.push(q3), -1, 2 * g + 1));
        assert(coords_in(s.push(q4), -1, 2 * g + 1));
    }
    assert(c[j].len() == g + 1);
}

} // verus!
