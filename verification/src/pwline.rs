//! The piecewise-linear function: a store of control points sorted by domain
//! key, an evaluator that interpolates between the two bracketing points
//! (clamping outside the domain, zero when empty), and a cursor over
//! consecutive domain positions.
use vstd::prelude::*;
use vstd::map::*;

use crate::rat::Rat;
use crate::rat::Ratg;
use crate::rat::lemma_mul_bound;
use crate::rat::lemma_mul_pos;
use crate::rat::rq_add;
use crate::rat::rq_div;
use crate::rat::rq_eq;
use crate::rat::rq_int;
use crate::rat::rq_mul;
use crate::rat::rq_sub;
use crate::rat::rq_zero;

verus! {

/// Largest magnitude allowed for a control point's domain key and for the
/// numerator and denominator of its range value. Within this bound every
/// intermediate product of the interpolation fits in an `i64`.
pub const POINT_BOUND: i64 = 1048576;

/// A control point stays within [`POINT_BOUND`] and carries a well-formed value.
pub open spec fn point_ok(p: (i64, Rat)) -> bool {
    &&& -POINT_BOUND <= p.0 <= POINT_BOUND
    &&& 1 <= p.1@.d <= POINT_BOUND
    &&& -POINT_BOUND <= p.1@.n <= POINT_BOUND
}

/// Control points are strictly ordered by domain key, so keys are unique.
pub open spec fn sorted(pts: Seq<(i64, Rat)>) -> bool {
    forall|i: int, j: int| 0 <= i < j < pts.len() ==> (pts[i].0 as int) < (pts[j].0 as int)
}

/// The line through (x0, y0) and (x1, y1), evaluated at `at`:
/// `y0 + (at - x0) * (y1 - y0) / (x1 - x0)`.
pub open spec fn interp(x0: int, y0: Ratg, x1: int, y1: Ratg, at: int) -> Ratg {
    rq_add(y0, rq_div(rq_mul(rq_int(at - x0), rq_sub(y1, y0)), rq_int(x1 - x0)))
}

/// What evaluation returns on a sorted sequence of control points: zero when
/// there are no points, the nearest endpoint's value outside the domain, the
/// stored value exactly at a control point, and the interpolated value on the
/// segment between the two bracketing points.
pub open spec fn eval_at(pts: Seq<(i64, Rat)>, at: int) -> Ratg
    decreases pts.len(),
{
    if pts.len() == 0 {
        rq_zero()
    } else if at <= pts[0].0 as int {
        pts[0].1@
    } else if pts.len() == 1 {
        pts[0].1@
    } else if at < pts[1].0 as int {
        interp(pts[0].0 as int, pts[0].1@, pts[1].0 as int, pts[1].1@, at)
    } else {
        eval_at(pts.drop_first(), at)
    }
}

/// The finite map from domain keys to range values that a sequence of control
/// points denotes.
pub open spec fn map_of(pts: Seq<(i64, Rat)>) -> Map<int, Ratg> {
    Map::new(
        |k: int| exists|i: int| 0 <= i < pts.len() && pts[i].0 as int == k,
        |k: int| pts[choose|i: int| 0 <= i < pts.len() && pts[i].0 as int == k].1@,
    )
}

/// In a sorted sequence each domain key appears at one index only.
pub proof fn lemma_key_unique(pts: Seq<(i64, Rat)>, i: int, j: int)
    requires
        sorted(pts),
        0 <= i < pts.len(),
        0 <= j < pts.len(),
        pts[i].0 == pts[j].0,
    ensures
        i == j,
{
    if i < j {
        assert((pts[i].0 as int) < (pts[j].0 as int));
    }
    if j < i {
        assert((pts[j].0 as int) < (pts[i].0 as int));
    }
}

/// A control point's key is in the denoted map, bound to that point's value.
pub proof fn lemma_map_of_index(pts: Seq<(i64, Rat)>, i: int)
    requires
        sorted(pts),
        0 <= i < pts.len(),
    ensures
        map_of(pts).dom().contains(pts[i].0 as int),
        map_of(pts)[pts[i].0 as int] == pts[i].1@,
{
    let k = pts[i].0 as int;
    assert(0 <= i < pts.len() && pts[i].0 as int == k);
    let j = choose|j: int| 0 <= j < pts.len() && pts[j].0 as int == k;
    lemma_key_unique(pts, i, j);
}

proof fn lemma_sorted_drop_first(pts: Seq<(i64, Rat)>)
    requires
        sorted(pts),
        pts.len() >= 1,
    ensures
        sorted(pts.drop_first()),
{
    let rest = pts.drop_first();
    assert forall|i: int, j: int| 0 <= i < j < rest.len() implies (rest[i].0 as int) < (
    rest[j].0 as int) by {
        assert(rest[i] == pts[i + 1]);
        assert(rest[j] == pts[j + 1]);
    }
}

/// Identity at control points: evaluation exactly at a stored key yields the
/// stored value, however many other points exist.
pub proof fn lemma_eval_at_point(pts: Seq<(i64, Rat)>, i: int)
    requires
        sorted(pts),
        0 <= i < pts.len(),
    ensures
        eval_at(pts, pts[i].0 as int) == pts[i].1@,
    decreases pts.len(),
{
    let at = pts[i].0 as int;
    if i == 0 {
        assert(at <= pts[0].0 as int);
    } else {
        assert((pts[0].0 as int) < at);
        assert(pts[1].0 as int <= at);
        lemma_sorted_drop_first(pts);
        assert(pts.drop_first()[i - 1] == pts[i]);
        lemma_eval_at_point(pts.drop_first(), i - 1);
    }
}

/// Monotonic clamp above: at or beyond the rightmost control point,
/// evaluation yields the rightmost point's value.
pub proof fn lemma_clamp_above(pts: Seq<(i64, Rat)>, at: int)
    requires
        sorted(pts),
        pts.len() > 0,
        at >= pts[pts.len() - 1].0 as int,
    ensures
        eval_at(pts, at) == pts[pts.len() - 1].1@,
    decreases pts.len(),
{
    if pts.len() == 1 {
    } else {
        assert((pts[0].0 as int) < (pts[pts.len() - 1].0 as int));
        assert((pts[1].0 as int) <= (pts[pts.len() - 1].0 as int));
        lemma_sorted_drop_first(pts);
        let rest = pts.drop_first();
        assert(rest[rest.len() - 1] == pts[pts.len() - 1]);
        lemma_clamp_above(rest, at);
    }
}

/// Monotonic clamp below: at or before the leftmost control point,
/// evaluation yields the leftmost point's value.
pub proof fn lemma_clamp_below(pts: Seq<(i64, Rat)>, at: int)
    requires
        sorted(pts),
        pts.len() > 0,
        at <= pts[0].0 as int,
    ensures
        eval_at(pts, at) == pts[0].1@,
{
}

/// The empty function evaluates to zero at every domain position.
pub proof fn lemma_eval_empty(pts: Seq<(i64, Rat)>, at: int)
    requires
        pts.len() == 0,
    ensures
        eval_at(pts, at) == rq_zero(),
{
}

/// Linearity on a segment: strictly between two adjacent control points,
/// evaluation is the linear interpolation between them.
pub proof fn lemma_eval_on_segment(pts: Seq<(i64, Rat)>, i: int, at: int)
    requires
        sorted(pts),
        0 <= i,
        i + 1 < pts.len(),
        (pts[i].0 as int) < at < (pts[i + 1].0 as int),
    ensures
        eval_at(pts, at) == interp(pts[i].0 as int, pts[i].1@, pts[i + 1].0 as int, pts[i + 1].1@, at),
    decreases pts.len(),
{
    if i == 0 {
    } else {
        assert((pts[0].0 as int) < at);
        assert((pts[1].0 as int) <= (pts[i].0 as int));
        lemma_sorted_drop_first(pts);
        let rest = pts.drop_first();
        assert(rest[i - 1] == pts[i]);
        assert(rest[i] == pts[i + 1]);
        lemma_eval_on_segment(rest, i - 1, at);
    }
}

/// A fraction built from the combined interpolation products denotes the same
/// number as the step-by-step interpolation formula.
proof fn lemma_interp_value(x0: int, y0: Ratg, x1: int, y1: Ratg, at: int, nn: int, dd: int)
    requires
        x0 < x1,
        y0.d >= 1,
        y1.d >= 1,
        nn == y0.n * y1.d * (x1 - x0) + (at - x0) * (y1.n * y0.d - y0.n * y1.d),
        dd == y0.d * y1.d * (x1 - x0),
    ensures
        rq_eq(Ratg { n: nn, d: dd }, interp(x0, y0, x1, y1, at)),
{
    let a = y0.n;
    let b = y0.d;
    let c = y1.n;
    let e = y1.d;
    let dxv = x1 - x0;
    let f = at - x0;
    let ig = interp(x0, y0, x1, y1, at);
    let ign = ig.n;
    let igd = ig.d;
    assert(ign == a * ((1 * (e * b)) * dxv) + ((f * (c * b - a * e)) * 1) * b);
    assert(igd == b * ((1 * (e * b)) * dxv));
    assert(ign == (a * e * dxv + f * (c * b - a * e)) * b) by (nonlinear_arith)
        requires
            ign == a * ((1 * (e * b)) * dxv) + ((f * (c * b - a * e)) * 1) * b,
    ;
    assert(igd == (b * e * dxv) * b) by (nonlinear_arith)
        requires
            igd == b * ((1 * (e * b)) * dxv),
    ;
    assert(nn * igd == ign * dd) by (nonlinear_arith)
        requires
            ign == nn * b,
            igd == dd * b,
    ;
}

/// Overwriting the point at index `r`, whose key is already `x`, denotes the
/// same map as inserting the new binding: last write wins.
proof fn lemma_map_of_update(pts: Seq<(i64, Rat)>, r: int, x: i64, y: Rat)
    requires
        sorted(pts),
        0 <= r < pts.len(),
        pts[r].0 == x,
    ensures
        sorted(pts.update(r, (x, y))),
        map_of(pts.update(r, (x, y))) == map_of(pts).insert(x as int, y@),
{
    let new = pts.update(r, (x, y));
    assert forall|i: int, j: int| 0 <= i < j < new.len() implies (new[i].0 as int) < (
    new[j].0 as int) by {
        assert(new[i].0 == pts[i].0);
        assert(new[j].0 == pts[j].0);
    }
    assert_maps_equal!(map_of(new), map_of(pts).insert(x as int, y@), k => {
        if k == x as int {
            assert(0 <= r < new.len() && new[r].0 as int == k);
            lemma_map_of_index(new, r);
        } else {
            if map_of(new).dom().contains(k) {
                let j = choose|i: int| 0 <= i < new.len() && new[i].0 as int == k;
                assert(j != r);
                assert(new[j] == pts[j]);
                lemma_map_of_index(new, j);
                lemma_map_of_index(pts, j);
            }
            if map_of(pts).dom().contains(k) {
                let j = choose|i: int| 0 <= i < pts.len() && pts[i].0 as int == k;
                assert(j != r);
                assert(new[j] == pts[j]);
                assert(0 <= j < new.len() && new[j].0 as int == k);
            }
        }
    });
}

/// Placing a fresh key `x` at its sorted position `r` keeps the points sorted
/// and denotes inserting the new binding into the map.
proof fn lemma_map_of_insert(pts: Seq<(i64, Rat)>, r: int, x: i64, y: Rat)
    requires
        sorted(pts),
        0 <= r <= pts.len(),
        forall|j: int| 0 <= j < r ==> (pts[j].0 as int) < x as int,
        forall|j: int| r <= j < pts.len() ==> (x as int) < (pts[j].0 as int),
    ensures
        sorted(pts.insert(r, (x, y))),
        map_of(pts.insert(r, (x, y))) == map_of(pts).insert(x as int, y@),
{
    let new = pts.insert(r, (x, y));
    pts.insert_ensures(r, (x, y));
    assert forall|i: int, j: int| 0 <= i < j < new.len() implies (new[i].0 as int) < (
    new[j].0 as int) by {
        if i < r {
            assert(new[i] == pts[i]);
        } else if i > r {
            assert(new[i] == pts[i - 1]);
        }
        if j < r {
            assert(new[j] == pts[j]);
        } else if j > r {
            assert(new[j] == pts[j - 1]);
        }
    }
    assert_maps_equal!(map_of(new), map_of(pts).insert(x as int, y@), k => {
        if k == x as int {
            assert(0 <= r < new.len() && new[r].0 as int == k);
            lemma_map_of_index(new, r);
        } else {
            if map_of(new).dom().contains(k) {
                let j = choose|i: int| 0 <= i < new.len() && new[i].0 as int == k;
                assert(j != r);
                if j < r {
                    assert(new[j] == pts[j]);
                    lemma_map_of_index(new, j);
                    lemma_map_of_index(pts, j);
                } else {
                    assert(new[j] == pts[j - 1]);
                    lemma_map_of_index(new, j);
                    lemma_map_of_index(pts, j - 1);
                }
            }
            if map_of(pts).dom().contains(k) {
                let j = choose|i: int| 0 <= i < pts.len() && pts[i].0 as int == k;
                if j < r {
                    assert(new[j] == pts[j]);
                    assert(0 <= j < new.len() && new[j].0 as int == k);
                } else {
                    assert(new[j + 1] == pts[j]);
                    assert(0 <= j + 1 < new.len() && new[j + 1].0 as int == k);
                }
            }
        }
    });
}

/// A piecewise-linear function y(x): control points mapping unique `i64`
/// domain keys to exact rational range values. A point's key bracket is found
/// in logarithmic time; evaluation clamps outside the domain and is zero when
/// no point was inserted.
#[derive(Clone)]
pub struct PwLine {
    points: Vec<(i64, Rat)>,
}

impl View for PwLine {
    type V = Seq<(i64, Rat)>;

    closed spec fn view(&self) -> Seq<(i64, Rat)> {
        self.points@
    }
}

impl PwLine {
    /// The function's points are sorted strictly by key and within bounds.
    pub open spec fn wf(self) -> bool {
        &&& sorted(self@)
        &&& forall|i: int| 0 <= i < self@.len() ==> point_ok(self@[i])
    }

    /// An empty function: no control points, evaluates to zero everywhere.
    pub fn new() -> (r: PwLine)
        ensures
            r.wf(),
            r@ == Seq::<(i64, Rat)>::empty(),
            map_of(r@) == Map::<int, Ratg>::empty(),
    {
        let r = PwLine { points: Vec::new() };
        proof {
            assert(r@ =~= Seq::<(i64, Rat)>::empty());
            assert_maps_equal!(map_of(r@), Map::<int, Ratg>::empty(), k => {
                if map_of(r@).dom().contains(k) {
                    let i = choose|i: int| 0 <= i < r@.len() && r@[i].0 as int == k;
                }
            });
        }
        r
    }

    /// Insert the control point (x, y), overwriting the value bound to `x` if
    /// one exists: the function afterwards denotes the old map with exactly
    /// that one binding added or replaced.
    pub fn add_pt(&mut self, x: i64, y: Rat)
        requires
            old(self).wf(),
            y.wf(),
            -POINT_BOUND <= x <= POINT_BOUND,
            -POINT_BOUND <= y@.n <= POINT_BOUND,
            y@.d <= POINT_BOUND,
        ensures
            final(self).wf(),
            map_of(final(self)@) == map_of(old(self)@).insert(x as int, y@),
            final(self)@.len() <= old(self)@.len() + 1,
            exists|r: int|
                {
                    &&& 0 <= r <= old(self)@.len()
                    &&& forall|j: int| 0 <= j < r ==> (old(self)@[j].0 as int) < x as int
                    &&& forall|j: int|
                        r <= j < old(self)@.len() ==> x as int <= (old(self)@[j].0 as int)
                    &&& final(self)@ == (if r < old(self)@.len() && old(self)@[r].0 == x {
                        old(self)@.update(r, (x, y))
                    } else {
                        old(self)@.insert(r, (x, y))
                    })
                },
    {
        let r = self.seek(x);
        if r < self.points.len() && self.points[r].0 == x {
            proof {
                lemma_map_of_update(self@, r as int, x, y);
            }
            self.points[r] = (x, y);
            proof {
                assert forall|i: int| 0 <= i < self@.len() implies point_ok(self@[i]) by {
                    if i != r {
                        assert(self@[i] == old(self)@[i]);
                        assert(point_ok(old(self)@[i]));
                    }
                }
            }
        } else {
            proof {
                lemma_map_of_insert(self@, r as int, x, y);
            }
            self.points.insert(r, (x, y));
            proof {
                old(self)@.insert_ensures(r as int, (x, y));
                assert forall|i: int| 0 <= i < self@.len() implies point_ok(self@[i]) by {
                    if i < r {
                        assert(self@[i] == old(self)@[i]);
                        assert(point_ok(old(self)@[i]));
                    } else if i > r {
                        assert(self@[i] == old(self)@[i - 1]);
                        assert(point_ok(old(self)@[i - 1]));
                    }
                }
            }
        }
    }

    /// A function that is the constant `y` everywhere: one control point at
    /// the domain's zero.
    pub fn from_const(y: Rat) -> (r: PwLine)
        requires
            y.wf(),
            -POINT_BOUND <= y@.n <= POINT_BOUND,
            y@.d <= POINT_BOUND,
        ensures
            r.wf(),
            map_of(r@) == Map::<int, Ratg>::empty().insert(0, y@),
            r@.len() == 1,
            r@[0] == (0i64, y),
    {
        let mut me = PwLine::new();
        me.add_pt(0, y);
        me
    }

    /// Index of the first control point whose key is at or after `at`;
    /// the number of points when every key lies before `at`.
    fn seek(&self, at: i64) -> (r: usize)
        requires
            sorted(self@),
        ensures
            r <= self@.len(),
            forall|j: int| 0 <= j < r ==> (self@[j].0 as int) < at as int,
            forall|j: int| r <= j < self@.len() ==> at as int <= (self@[j].0 as int),
    {
        let mut lo: usize = 0;
        let mut hi: usize = self.points.len();
        while lo < hi
            invariant
                lo <= hi <= self@.len(),
                sorted(self@),
                forall|j: int| 0 <= j < lo ==> (self@[j].0 as int) < at as int,
                forall|j: int| hi <= j < self@.len() ==> at as int <= (self@[j].0 as int),
            decreases hi - lo,
        {
            let mid = lo + (hi - lo) / 2;
            if self.points[mid].0 < at {
                assert forall|j: int| 0 <= j < mid + 1 implies (self@[j].0 as int) < at as int by {
                    if j < mid {
                        assert((self@[j].0 as int) < (self@[mid as int].0 as int));
                    }
                }
                lo = mid + 1;
            } else {
                assert forall|j: int| mid <= j < self@.len() implies at as int <= (
                self@[j].0 as int) by {
                    if mid < j {
                        assert((self@[mid as int].0 as int) < (self@[j].0 as int));
                    }
                }
                hi = mid;
            }
        }
        lo
    }

    /// Evaluate the function at `at`. Total by design: zero for an empty
    /// function, the stored value exactly at a control point, the nearest
    /// endpoint's value outside the domain, and otherwise the linear
    /// interpolation between the two bracketing control points.
    pub fn get(&self, at: i64) -> (r: Rat)
        requires
            self.wf(),
        ensures
            r.wf(),
            rq_eq(r@, eval_at(self@, at as int)),
            map_of(self@).dom().contains(at as int) ==> r@ == map_of(self@)[at as int],
    {
        let n = self.points.len();
        if n == 0 {
            proof {
                if map_of(self@).dom().contains(at as int) {
                    let i = choose|i: int| 0 <= i < self@.len() && self@[i].0 as int == at as int;
                }
            }
            return Rat::zero();
        }
        let idx = self.seek(at);
        if idx == n {
            // every key lies before `at`: clamp to the rightmost point
            proof {
                lemma_clamp_above(self@, at as int);
                if map_of(self@).dom().contains(at as int) {
                    let i = choose|i: int| 0 <= i < self@.len() && self@[i].0 as int == at as int;
                    assert((self@[i].0 as int) < at as int);
                }
            }
            return self.points[n - 1].1;
        }
        let right = self.points[idx];
        if right.0 == at {
            // the query lands exactly on a control point
            proof {
                lemma_eval_at_point(self@, idx as int);
                lemma_map_of_index(self@, idx as int);
            }
            return right.1;
        }
        if idx == 0 {
            // every key lies after `at`: clamp to the leftmost point
            proof {
                lemma_clamp_below(self@, at as int);
                if map_of(self@).dom().contains(at as int) {
                    let i = choose|i: int| 0 <= i < self@.len() && self@[i].0 as int == at as int;
                    if i > 0 {
                        assert((self@[0].0 as int) < (self@[i].0 as int));
                    }
                }
            }
            return right.1;
        }
        // the two points bracketing `at`, with x0 < at < x1
        let left = self.points[idx - 1];
        let x0 = left.0;
        let y0 = left.1;
        let x1 = right.0;
        let y1 = right.1;
        proof {
            assert(point_ok(self@[idx as int - 1]));
            assert(point_ok(self@[idx as int]));
        }
        let p0 = y0.num();
        let q0 = y0.den();
        let p1 = y1.num();
        let q1 = y1.den();
        let dx = x1 - x0;
        let xoff = at - x0;
        // numerators and denominators are bounded by 2^20, key spans by 2^21,
        // so every product below stays well within an i64
        proof {
            lemma_mul_bound(p1 as int, q0 as int, 1048576, 1048576);
            lemma_mul_bound(p0 as int, q1 as int, 1048576, 1048576);
        }
        let a1 = p1 * q0;
        let a2 = p0 * q1;
        let dy_num = a1 - a2;
        proof {
            lemma_mul_bound(a2 as int, dx as int, 1099511627776, 2097152);
            lemma_mul_bound(xoff as int, dy_num as int, 2097152, 2199023255552);
            lemma_mul_bound(q0 as int, q1 as int, 1048576, 1048576);
        }
        let t1 = a2 * dx;
        let t2 = xoff * dy_num;
        let nn = t1 + t2;
        let qq = q0 * q1;
        proof {
            lemma_mul_bound(qq as int, dx as int, 1099511627776, 2097152);
            lemma_mul_pos(q0 as int, q1 as int);
            lemma_mul_pos(qq as int, dx as int);
        }
        let dd = qq * dx;
        proof {
            lemma_eval_on_segment(self@, idx as int - 1, at as int);
            lemma_interp_value(x0 as int, y0@, x1 as int, y1@, at as int, nn as int, dd as int);
            if map_of(self@).dom().contains(at as int) {
                let i = choose|i: int| 0 <= i < self@.len() && self@[i].0 as int == at as int;
                if i > idx {
                    assert((self@[idx as int].0 as int) < (self@[i].0 as int));
                }
            }
        }
        Rat::new(nn, dd)
    }

    /// A cursor that evaluates this function at `at`, `at + 1`, `at + 2`, ...
    /// It borrows the function read-only and owns nothing but its position.
    pub fn get_consec<'a>(&'a self, at: i64) -> (it: PwLineIter<'a>)
        requires
            self.wf(),
        ensures
            it.wf(),
            it.fun() == self@,
            it.pos() == at as int,
    {
        PwLineIter { pw: self, x: at }
    }

    /// Evaluate the function at `at`, `at + 1`, ..., filling `into` with one
    /// value per consecutive position, as that many cursor steps would.
    pub fn get_consecutive(&self, at: i64, into: &mut Vec<Rat>)
        requires
            self.wf(),
            old(into)@.len() > 0 ==> at as int + old(into)@.len() - 1 <= i64::MAX as int,
        ensures
            final(into)@.len() == old(into)@.len(),
            forall|i: int|
                0 <= i < final(into)@.len() ==> #[trigger] final(into)@[i].wf() && rq_eq(
                    final(into)@[i]@,
                    eval_at(self@, at as int + i),
                ),
    {
        let count = into.len();
        let mut step: usize = 0;
        let mut pos: i64 = at;
        while step < count
            invariant
                self.wf(),
                step <= count,
                count > 0 ==> at as int + count as int - 1 <= i64::MAX as int,
                step < count ==> pos as int == at as int + step as int,
                into@.len() == count,
                forall|i: int|
                    0 <= i < step ==> #[trigger] into@[i].wf() && rq_eq(
                        into@[i]@,
                        eval_at(self@, at as int + i),
                    ),
            decreases count - step,
        {
            let ghost prev = into@;
            let v = self.get(pos);
            into[step] = v;
            proof {
                assert forall|i: int| 0 <= i <= step implies #[trigger] into@[i].wf() && rq_eq(
                    into@[i]@,
                    eval_at(self@, at as int + i),
                ) by {
                    if i < step {
                        assert(into@[i] == prev[i]);
                        assert(prev[i].wf());
                        assert(rq_eq(prev[i]@, eval_at(self@, at as int + i)));
                    } else {
                        assert(into@[i] == v);
                        assert(pos as int == at as int + i);
                    }
                }
            }
            step = step + 1;
            if step < count {
                pos = pos + 1;
            }
        }
    }
}

/// A lazy producer of consecutive evaluations: each step evaluates the
/// borrowed function at the current position, then moves one domain unit to
/// the right. It is unbounded; the caller decides how many steps to take.
/// Every step re-derives the bracketing points in logarithmic time; steps are
/// not amortized to constant time.
pub struct PwLineIter<'a> {
    pw: &'a PwLine,
    x: i64,
}

impl<'a> PwLineIter<'a> {
    /// The control points of the borrowed function.
    pub closed spec fn fun(self) -> Seq<(i64, Rat)> {
        self.pw@
    }

    /// The domain position the next step will evaluate at.
    pub closed spec fn pos(self) -> int {
        self.x as int
    }

    /// The borrowed function is well-formed.
    pub closed spec fn wf(self) -> bool {
        (*self.pw).wf()
    }

    /// Evaluate at the current position and advance by one domain unit.
    pub fn next(&mut self) -> (r: Rat)
        requires
            old(self).wf(),
            old(self).pos() < i64::MAX as int,
        ensures
            final(self).wf(),
            final(self).fun() == old(self).fun(),
            final(self).pos() == old(self).pos() + 1,
            r.wf(),
            rq_eq(r@, eval_at(old(self).fun(), old(self).pos())),
            map_of(old(self).fun()).dom().contains(old(self).pos()) ==> r@ == map_of(
                old(self).fun(),
            )[old(self).pos()],
    {
        let r = self.pw.get(self.x);
        self.x = self.x + 1;
        r
    }
}

/// The values that `k` cursor steps starting at `at` produce, one evaluation
/// per consecutive domain position.
pub open spec fn consec_evals(pts: Seq<(i64, Rat)>, at: int, k: nat) -> Seq<Ratg>
    decreases k,
{
    if k == 0 {
        Seq::empty()
    } else {
        seq![eval_at(pts, at)] + consec_evals(pts, at + 1, (k - 1) as nat)
    }
}

/// `k` cursor steps produce `k` values.
pub proof fn lemma_consec_evals_len(pts: Seq<(i64, Rat)>, at: int, k: nat)
    ensures
        consec_evals(pts, at, k).len() == k,
    decreases k,
{
    if k > 0 {
        lemma_consec_evals_len(pts, at + 1, (k - 1) as nat);
    }
}

/// Cursor equivalence: the sequence a cursor produces in `k` steps from `at`
/// is exactly the one-shot evaluations at `at`, `at + 1`, ..., `at + k - 1`.
pub proof fn lemma_consec_evals_index(pts: Seq<(i64, Rat)>, at: int, k: nat, i: int)
    requires
        0 <= i < k,
    ensures
        consec_evals(pts, at, k).len() == k,
        consec_evals(pts, at, k)[i] == eval_at(pts, at + i),
    decreases k,
{
    lemma_consec_evals_len(pts, at, k);
    lemma_consec_evals_len(pts, at + 1, (k - 1) as nat);
    if i > 0 {
        lemma_consec_evals_index(pts, at + 1, (k - 1) as nat, i - 1);
    }
}

} // verus!
