//! The choice of the lag (tau) in the YIN pitch estimator, made on the
//! cumulative mean normalized difference function (CMNDF) given by ordering
//! keys (see `extrema`).
//!
//! The estimator takes the first lag whose CMNDF falls below a threshold and
//! follows the curve down to the bottom of that dip; where no lag falls
//! below the threshold it takes the lag of the global minimum.

use vstd::prelude::*;

use crate::extrema::key_less;
use crate::extrema::key_lt;
use crate::extrema::key_value;
use crate::extrema::all_ordered;
use crate::extrema::min_scan;
use crate::extrema::lemma_min_scan_bounds;
use crate::extrema::lemma_min_scan_is_first_minimum;

verus! {

/// The CMNDF at `i` is below the threshold.
pub open spec fn below(c: Seq<Option<i32>>, thres: Option<i32>, i: int) -> bool {
    key_lt(c[i], thres)
}

/// `f` is the first lag (from 1 on) whose CMNDF is below the threshold.
pub open spec fn is_first_below(c: Seq<Option<i32>>, thres: Option<i32>, f: int) -> bool {
    &&& 1 <= f < c.len()
    &&& below(c, thres, f)
    &&& forall|i: int| 1 <= i < f ==> !below(c, thres, i)
}

/// The CMNDF falls strictly at each step from `from` to `to`.
pub open spec fn falls_from_to(c: Seq<Option<i32>>, from: int, to: int) -> bool {
    forall|j: int| from <= j < to ==> key_lt(#[trigger] c[j + 1], c[j])
}

/// The CMNDF does not fall from `t` to the next lag, or `t` is the last lag.
pub open spec fn stops_falling_at(c: Seq<Option<i32>>, t: int) -> bool {
    !(t + 1 < c.len() && key_lt(c[t + 1], c[t]))
}

/// `t` is the bottom of the dip that starts at the first lag below the
/// threshold.
pub open spec fn is_threshold_tau(c: Seq<Option<i32>>, thres: Option<i32>, t: int) -> bool {
    exists|f: int|
        #![trigger is_first_below(c, thres, f)]
        is_first_below(c, thres, f) && f <= t < c.len() && falls_from_to(c, f, t)
            && stops_falling_at(c, t)
}

/// No lag from 1 on has its CMNDF below the threshold.
pub open spec fn none_below(c: Seq<Option<i32>>, thres: Option<i32>) -> bool {
    forall|i: int| 1 <= i < c.len() ==> !below(c, thres, i)
}

/// There is at most one first lag below the threshold.
proof fn lemma_first_below_unique(c: Seq<Option<i32>>, thres: Option<i32>, f: int, g: int)
    requires
        is_first_below(c, thres, f),
        is_first_below(c, thres, g),
    ensures
        f == g,
{
    if f < g {
        assert(!below(c, thres, f));
    }
    if g < f {
        assert(!below(c, thres, g));
    }
}

/// The threshold lag is well defined: at most one lag meets its
/// description.
pub proof fn lemma_threshold_tau_unique(c: Seq<Option<i32>>, thres: Option<i32>, t: int, u: int)
    requires
        is_threshold_tau(c, thres, t),
        is_threshold_tau(c, thres, u),
    ensures
        t == u,
{
    let f = choose|f: int|
        is_first_below(c, thres, f) && f <= t < c.len() && falls_from_to(c, f, t)
            && stops_falling_at(c, t);
    let g = choose|g: int|
        is_first_below(c, thres, g) && g <= u < c.len() && falls_from_to(c, g, u)
            && stops_falling_at(c, u);
    lemma_first_below_unique(c, thres, f, g);
    if t < u {
        assert(key_lt(c[t + 1], c[t]));
    }
    if u < t {
        assert(key_lt(c[u + 1], c[u]));
    }
}

/// "No lag is below" means that the threshold is compared with the CMNDF of
/// every lag from 1 to the last one, and none of them is smaller.
pub proof fn lemma_none_below_covers_every_lag(c: Seq<Option<i32>>, thres: Option<i32>)
    ensures
        none_below(c, thres) <==> (forall|i: int|
            1 <= i < c.len() ==> !key_lt(#[trigger] c[i], thres)),
{
    if none_below(c, thres) {
        assert forall|i: int| 1 <= i < c.len() implies !key_lt(#[trigger] c[i], thres) by {
            assert(!below(c, thres, i));
        }
    }
    if forall|i: int| 1 <= i < c.len() ==> !key_lt(#[trigger] c[i], thres) {
        assert forall|i: int| 1 <= i < c.len() implies !below(c, thres, i) by {
            assert(!key_lt(c[i], thres));
        }
    }
}

/// The threshold lag lies in the curve and below the threshold, is the
/// bottom of its dip (the next lag does not fall, or there is none),
/// however many lags the fall takes, and every lag below the threshold up
/// to it, even or odd, falls strictly to it: in particular the first lag
/// below the threshold is where the dip starts.
pub proof fn lemma_threshold_tau_is_bottom_of_first_dip(
    c: Seq<Option<i32>>,
    thres: Option<i32>,
    t: int,
)
    requires
        is_threshold_tau(c, thres, t),
    ensures
        1 <= t < c.len(),
        key_lt(c[t], thres),
        t + 1 == c.len() || !key_lt(c[t + 1], c[t]),
        forall|i: int, j: int|
            1 <= i <= j < t && key_lt(#[trigger] c[i], thres) ==> key_lt(
                c[j + 1],
                #[trigger] c[j],
            ),
        forall|i: int| 1 <= i < c.len() && key_lt(#[trigger] c[i], thres) && i <= t ==> (forall|
            j: int,
        |
            #![trigger c[j]]
            i <= j <= t ==> key_lt(c[j], thres)),
{
    let f = choose|f: int|
        is_first_below(c, thres, f) && f <= t < c.len() && falls_from_to(c, f, t)
            && stops_falling_at(c, t);
    assert forall|i: int, j: int|
        1 <= i <= j < t && key_lt(#[trigger] c[i], thres) implies key_lt(
        c[j + 1],
        #[trigger] c[j],
    ) by {
        if i < f {
            assert(!below(c, thres, i));
        }
    }
    lemma_falls_stay_below(c, thres, f, t);
    assert forall|i: int| 1 <= i < c.len() && key_lt(#[trigger] c[i], thres) && i <= t implies (
    forall|j: int| #![trigger c[j]] i <= j <= t ==> key_lt(c[j], thres)) by {
        if i < f {
            assert(!below(c, thres, i));
        }
    }
}

/// Along a strict fall that starts below the threshold, every lag stays
/// below it.
proof fn lemma_falls_stay_below(c: Seq<Option<i32>>, thres: Option<i32>, f: int, t: int)
    requires
        0 <= f <= t < c.len(),
        key_lt(c[f], thres),
        falls_from_to(c, f, t),
    ensures
        forall|j: int| #![trigger c[j]] f <= j <= t ==> key_lt(c[j], thres),
    decreases t - f,
{
    if f < t {
        assert(key_lt(c[f + 1], c[f]));
        assert(falls_from_to(c, f + 1, t)) by {
            assert forall|j: int| f + 1 <= j < t implies key_lt(#[trigger] c[j + 1], c[j]) by {
                assert(key_lt(c[j + 1], c[j]));
            }
        }
        lemma_falls_stay_below(c, thres, f + 1, t);
    }
}

/// The CMNDF values over the lags `0..max_tau`, as ordering keys, with the
/// key of the threshold.
pub struct YinCurve {
    cmndf_values: Vec<Option<i32>>,
    tau_thres: Option<i32>,
}

impl YinCurve {
    /// The CMNDF keys, lag by lag.
    pub closed spec fn values(&self) -> Seq<Option<i32>> {
        self.cmndf_values@
    }

    /// The key of the threshold.
    pub closed spec fn threshold(&self) -> Option<i32> {
        self.tau_thres
    }

    /// A curve over `cmndf_values.len()` lags.
    pub fn new(cmndf_values: Vec<Option<i32>>, tau_thres: Option<i32>) -> (curve: Self)
        ensures
            curve.values() == cmndf_values@,
            curve.threshold() == tau_thres,
    {
        YinCurve { cmndf_values, tau_thres }
    }

    /// The number of lags.
    pub fn max_tau(&self) -> (n: usize)
        ensures
            n == self.values().len(),
    {
        self.cmndf_values.len()
    }

    /// The first lag from 1 on whose CMNDF is below the threshold, followed
    /// down while the CMNDF keeps falling; `None` if no lag is below.
    pub fn get_absolute_threshold_tau(&self) -> (r: Option<usize>)
        ensures
            r is None <==> none_below(self.values(), self.threshold()),
            r matches Some(t) ==> is_threshold_tau(self.values(), self.threshold(), t as int),
            r matches Some(t) ==> 1 <= t < self.values().len(),
            r matches Some(t) ==> below(self.values(), self.threshold(), t as int),
            // every lag from 1 on is compared with the threshold
            r is None <==> (forall|i: int|
                1 <= i < self.values().len() ==> !key_lt(
                    #[trigger] self.values()[i],
                    self.threshold(),
                )),
            r matches Some(t) ==> key_lt(self.values()[t as int], self.threshold()),
            // the lag returned is the bottom of its dip, however long the fall
            r matches Some(t) ==> (t + 1 == self.values().len() || !key_lt(
                self.values()[t + 1],
                self.values()[t as int],
            )),
            // every lag below the threshold up to the result falls strictly to it
            r matches Some(t) ==> (forall|i: int, j: int|
                1 <= i <= j < t && key_lt(#[trigger] self.values()[i], self.threshold())
                    ==> key_lt(self.values()[j + 1], #[trigger] self.values()[j])),
    {
        let ghost c = self.values();
        let ghost thres = self.threshold();
        let len = self.cmndf_values.len();
        let mut tau: usize = 1;
        while tau < len
            invariant
                len == c.len(),
                c == self.values(),
                thres == self.threshold(),
                1 <= tau,
                forall|i: int| 1 <= i < tau && i < len ==> !key_lt(#[trigger] c[i], thres),
            decreases len - tau,
        {
            if key_less(self.cmndf_values[tau], self.tau_thres) {
                let ghost f = tau as int;
                while tau + 1 < len && key_less(self.cmndf_values[tau + 1], self.cmndf_values[tau])
                    invariant
                        len == c.len(),
                        c == self.values(),
                        thres == self.threshold(),
                        1 <= f <= tau < len,
                        key_lt(c[f], thres),
                        forall|i: int| 1 <= i < f ==> !key_lt(#[trigger] c[i], thres),
                        forall|j: int| f <= j < tau ==> key_lt(c[j + 1], #[trigger] c[j]),
                        key_lt(c[tau as int], thres),
                    decreases len - tau,
                {
                    assert(c[tau as int] is Some && thres is Some);
                    tau = tau + 1;
                }
                assert(is_first_below(c, thres, f));
                assert(falls_from_to(c, f, tau as int));
                assert(is_threshold_tau(c, thres, tau as int));
                return Some(tau);
            }
            tau = tau + 1;
        }
        None
    }

    /// The lag from 1 on with the smallest CMNDF, the first one on a tie
    /// (a scan that moves on only to a strictly smaller key); `None` when
    /// there are fewer than two lags.
    pub fn get_global_min(&self) -> (r: Option<usize>)
        ensures
            r is None <==> self.values().len() <= 1,
            r matches Some(t) ==> t == min_scan(self.values(), 1, self.values().len() as int),
            r matches Some(t) ==> 1 <= t < self.values().len(),
            r matches Some(t) ==> all_ordered(self.values()) ==> (forall|j: int|
                1 <= j < self.values().len() ==> key_value(self.values()[t as int]) <= key_value(
                    #[trigger] self.values()[j],
                )),
            r matches Some(t) ==> all_ordered(self.values()) ==> (forall|j: int|
                1 <= j < t ==> key_value(self.values()[t as int]) < key_value(
                    #[trigger] self.values()[j],
                )),
    {
        let len = self.cmndf_values.len();
        if len <= 1 {
            return None;
        }
        let mut best: usize = 1;
        let mut j: usize = 2;
        while j < len
            invariant
                len == self.values().len(),
                1 < j <= len,
                1 <= best < j,
                best == min_scan(self.values(), 1, j as int),
            decreases len - j,
        {
            if key_less(self.cmndf_values[j], self.cmndf_values[best]) {
                best = j;
            }
            j = j + 1;
        }
        proof {
            lemma_min_scan_bounds(self.values(), 1, len as int);
            if all_ordered(self.values()) {
                lemma_min_scan_is_first_minimum(self.values(), 1, len as int);
            }
        }
        Some(best)
    }

    /// The lag the estimator settles on: the threshold lag when there is
    /// one, else the lag of the global minimum; `None` when there are fewer
    /// than two lags.
    pub fn select_tau(&self) -> (r: Option<usize>)
        ensures
            r is None <==> self.values().len() <= 1,
            r matches Some(t) ==> 1 <= t < self.values().len(),
            !none_below(self.values(), self.threshold()) ==> (r matches Some(t)
                && is_threshold_tau(self.values(), self.threshold(), t as int)),
            none_below(self.values(), self.threshold()) && self.values().len() > 1 ==> (r matches Some(t) && t == min_scan(
                self.values(),
                1,
                self.values().len() as int,
            )),
    {
        match self.get_absolute_threshold_tau() {
            Some(t) => Some(t),
            None => self.get_global_min(),
        }
    }

    /// The lags whose CMNDF a parabola through the dip at `tau` is fitted
    /// to: the one before, `tau` itself, and the one after, or `tau` again
    /// when `tau` is the last lag.
    pub fn interpolation_points(&self, tau: usize) -> (r: (usize, usize, usize))
        requires
            1 <= tau < self.values().len(),
        ensures
            r.0 == tau - 1,
            r.1 == tau,
            r.2 == if tau + 1 < self.values().len() {
                tau + 1
            } else {
                tau as int
            },
    {
        let len = self.cmndf_values.len();
        let next = if tau + 1 < len {
            tau + 1
        } else {
            tau
        };
        (tau - 1, tau, next)
    }

    /// The lags around `tau` for the cosine-corrected fit, or `None` where
    /// the fit is not made and `tau` stands as it is: at lag 0 and at the
    /// last two lags.
    pub fn cosine_interpolation_points(&self, tau: usize) -> (r: Option<(usize, usize, usize)>)
        requires
            tau == 0 || self.values().len() >= 1,
        ensures
            r is None <==> (tau == 0 || tau + 1 >= self.values().len()),
            r matches Some(p) ==> p.0 == tau - 1 && p.1 == tau && p.2 == tau + 1,
    {
        let len = self.cmndf_values.len();
        if tau == 0 || tau >= len - 1 {
            return None;
        }
        Some((tau - 1, tau, tau + 1))
    }
}

} // verus!
