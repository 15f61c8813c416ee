//! The statistics summarizer: exact integer statistics over the frozen
//! per-package counts. The mean is `total_events / package_count` and the
//! population variance is `variance_num / variance_den`; both divisions are
//! left to the caller so that everything stated here is exact.

use vstd::prelude::*;
use crate::aggregate::{PackageCount, PkgModel, pkg_models, sum_pkgs};

verus! {

/// Why summary statistics cannot be produced.
#[derive(PartialEq, Eq, Structural, Debug)]
pub enum StatsError {
    /// No packages were observed: mean and deviation are undefined, and
    /// dividing by the package count would fault.
    EmptyPackageSet,
}

/// Exact basis of the summary statistics: the package count, the sum of
/// the per-package counts, and the sum of their squares. The mean is
/// `total_events / package_count`; the population variance is
/// `(package_count * sum_squares - total_events^2) / package_count^2`.
#[derive(Debug, PartialEq, Eq)]
pub struct SummaryStats {
    pub package_count: u64,
    pub total_events: u64,
    pub sum_squares: u128,
}

/// Sum of the squared per-package counts.
pub open spec fn sum_squares(ps: Seq<PkgModel>) -> int
    decreases ps.len(),
{
    if ps.len() == 0 {
        0
    } else {
        sum_squares(ps.drop_last()) + ps.last().count * ps.last().count
    }
}

/// Sums of package tables with nonnegative counts are nonnegative and
/// dominated by the square of the plain sum.
pub proof fn lemma_sum_bounds(ps: Seq<PkgModel>)
    requires
        forall|i: int| 0 <= i < ps.len() ==> (#[trigger] ps[i].count) >= 0,
    ensures
        sum_pkgs(ps) >= 0,
        sum_squares(ps) >= 0,
        sum_squares(ps) <= sum_pkgs(ps) * sum_pkgs(ps),
    decreases ps.len(),
{
    if ps.len() == 0 {
        assert(sum_pkgs(ps) * sum_pkgs(ps) == 0) by (nonlinear_arith)
            requires
                sum_pkgs(ps) == 0,
        ;
    } else {
        let d = ps.drop_last();
        assert(forall|i: int| 0 <= i < d.len() ==> (#[trigger] d[i].count) >= 0);
        lemma_sum_bounds(d);
        let s = sum_pkgs(d);
        let q = sum_squares(d);
        let c = ps.last().count;
        assert(q + c * c <= (s + c) * (s + c)) by (nonlinear_arith)
            requires
                q <= s * s,
                s >= 0,
                c >= 0,
        ;
    }
}

/// A prefix sum never exceeds the whole sum when all counts are
/// nonnegative.
pub proof fn lemma_sum_pkgs_prefix(ps: Seq<PkgModel>, i: int)
    requires
        0 <= i <= ps.len(),
        forall|k: int| 0 <= k < ps.len() ==> (#[trigger] ps[k].count) >= 0,
    ensures
        sum_pkgs(ps.take(i)) <= sum_pkgs(ps),
    decreases ps.len(),
{
    if i == ps.len() {
        assert(ps.take(i) =~= ps);
    } else {
        let d = ps.drop_last();
        assert(forall|k: int| 0 <= k < d.len() ==> (#[trigger] d[k].count) >= 0);
        lemma_sum_pkgs_prefix(d, i);
        assert(d.take(i) =~= ps.take(i));
    }
}

/// The mean-square bound: `(sum of counts)^2` never exceeds
/// `count * (sum of squared counts)`, so the population variance computed
/// from these sums is never negative.
pub proof fn lemma_mean_square_bound(ps: Seq<PkgModel>)
    requires
        forall|i: int| 0 <= i < ps.len() ==> (#[trigger] ps[i].count) >= 0,
    ensures
        sum_pkgs(ps) * sum_pkgs(ps) <= ps.len() * sum_squares(ps),
    decreases ps.len(),
{
    if ps.len() == 0 {
        assert(sum_pkgs(ps) * sum_pkgs(ps) == 0) by (nonlinear_arith)
            requires
                sum_pkgs(ps) == 0,
        ;
    } else {
        let d = ps.drop_last();
        assert(forall|i: int| 0 <= i < d.len() ==> (#[trigger] d[i].count) >= 0);
        lemma_mean_square_bound(d);
        lemma_sum_bounds(d);
        let s = sum_pkgs(d);
        let q = sum_squares(d);
        let n = d.len() as int;
        let c = ps.last().count;
        // (n c^2 - q)^2 >= 0 gives (n c^2 + q)^2 >= 4 n c^2 q >= 4 c^2 s^2,
        // and everything in sight is nonnegative, so n c^2 + q >= 2 c s.
        assert((n * (c * c) + q) * (n * (c * c) + q) >= 4 * (n * (c * c)) * q) by (nonlinear_arith);
        assert(4 * (n * (c * c)) * q >= 4 * (c * c) * (s * s)) by (nonlinear_arith)
            requires
                n * q >= s * s,
                c >= 0,
        ;
        assert(n * (c * c) + q >= 2 * (c * s)) by (nonlinear_arith)
            requires
                (n * (c * c) + q) * (n * (c * c) + q) >= 4 * (c * c) * (s * s),
                n * (c * c) + q >= 0,
                c >= 0,
                s >= 0,
        ;
        assert((s + c) * (s + c) <= (n + 1) * (q + c * c)) by (nonlinear_arith)
            requires
                s * s <= n * q,
                n * (c * c) + q >= 2 * (c * s),
        ;
    }
}

/// Every count in a table with positive counts contributes at least one
/// to the sum.
pub proof fn lemma_sum_at_least_len(ps: Seq<PkgModel>)
    requires
        forall|i: int| 0 <= i < ps.len() ==> (#[trigger] ps[i].count) >= 1,
    ensures
        sum_pkgs(ps) >= ps.len(),
    decreases ps.len(),
{
    if ps.len() > 0 {
        let d = ps.drop_last();
        assert(forall|i: int| 0 <= i < d.len() ==> (#[trigger] d[i].count) >= 1);
        lemma_sum_at_least_len(d);
    }
}

/// For any aggregate within four billion events, the summary of its
/// package table meets `variance_parts`' preconditions: the products fit
/// in the machine integers and the mean-square bound holds.
pub proof fn lemma_variance_preconditions(agg: crate::aggregate::Aggregator, s: SummaryStats)
    requires
        agg.wf(),
        agg.ingested <= 0xffff_ffff,
        agg.packages@.len() > 0,
        s.package_count == agg.packages@.len(),
        s.total_events == sum_pkgs(pkg_models(agg.packages@)),
        s.sum_squares == sum_squares(pkg_models(agg.packages@)),
    ensures
        s.package_count > 0,
        (s.package_count as int) * (s.sum_squares as int) <= u128::MAX,
        (s.total_events as int) * (s.total_events as int) <= (s.package_count as int) * (
        s.sum_squares as int),
{
    let ps = pkg_models(agg.packages@);
    let h = agg.history@;
    assert(forall|i: int| 0 <= i < ps.len() ==> (#[trigger] ps[i].count) >= 0);
    assert forall|i: int| 0 <= i < ps.len() implies (#[trigger] ps[i].count) >= 1 by {
        crate::aggregate::lemma_pkg_firsts(h);
        assert(ps[i].package == crate::aggregate::pkg_firsts(h)[i]);
        assert(crate::aggregate::pkg_firsts(h).contains(ps[i].package));
        assert(ps[i].count == crate::aggregate::count_pkg(h, ps[i].package));
    }
    lemma_mean_square_bound(ps);
    lemma_sum_bounds(ps);
    lemma_sum_at_least_len(ps);
    let n = ps.len() as int;
    let t = sum_pkgs(ps);
    let q = sum_squares(ps);
    assert(t == h.len());
    assert(n * q <= t * (t * t)) by (nonlinear_arith)
        requires
            q <= t * t,
            0 < n <= t,
            t >= 0,
    ;
    assert(t * (t * t) <= 0xffff_ffff * (0xffff_ffff * 0xffff_ffff)) by (nonlinear_arith)
        requires
            0 <= t <= 0xffff_ffff,
    ;
}

/// Summarizes the frozen per-package counts: their number, their sum, and
/// the sum of their squares. Fails exactly when no package was observed.
pub fn summarize(packages: &Vec<PackageCount>) -> (r: Result<SummaryStats, StatsError>)
    requires
        sum_pkgs(pkg_models(packages@)) <= u64::MAX,
    ensures
        match r {
            Ok(s) => {
                &&& packages@.len() > 0
                &&& s.package_count == packages@.len()
                &&& s.total_events == sum_pkgs(pkg_models(packages@))
                &&& s.sum_squares == sum_squares(pkg_models(packages@))
            },
            Err(e) => packages@.len() == 0 && e == StatsError::EmptyPackageSet,
        },
{
    let ghost pm = pkg_models(packages@);
    proof {
        assert(forall|k: int| 0 <= k < pm.len() ==> (#[trigger] pm[k].count) >= 0);
    }
    if packages.len() == 0 {
        return Err(StatsError::EmptyPackageSet);
    }
    let n = packages.len();
    let mut total: u64 = 0;
    let mut squares: u128 = 0;
    let mut i: usize = 0;
    proof {
        assert(sum_pkgs(pm.take(0)) == 0);
        assert(sum_squares(pm.take(0)) == 0);
    }
    while i < n
        invariant
            0 <= i <= n,
            n == packages@.len(),
            pm == pkg_models(packages@),
            forall|k: int| 0 <= k < pm.len() ==> (#[trigger] pm[k].count) >= 0,
            sum_pkgs(pm) <= u64::MAX,
            total == sum_pkgs(pm.take(i as int)),
            squares == sum_squares(pm.take(i as int)),
            squares <= (total as int) * (total as int),
        decreases n - i,
    {
        let c = packages[i].count;
        proof {
            assert(pm.take(i as int + 1).drop_last() =~= pm.take(i as int));
            assert(pm.take(i as int + 1).last() == pm[i as int]);
            assert(pm[i as int].count == c as int);
            lemma_sum_pkgs_prefix(pm, i as int + 1);
            assert(total + c <= u64::MAX);
            let t = total as int;
            let ci = c as int;
            assert(squares + ci * ci <= (t + ci) * (t + ci)) by (nonlinear_arith)
                requires
                    squares <= t * t,
                    t >= 0,
                    ci >= 0,
            ;
            assert((t + ci) * (t + ci) <= 0xffff_ffff_ffff_ffff * 0xffff_ffff_ffff_ffff)
                by (nonlinear_arith)
                requires
                    0 <= t + ci <= 0xffff_ffff_ffff_ffff,
            ;
            assert(ci * ci >= 0) by (nonlinear_arith);
        }
        total = total + c;
        squares = squares + (c as u128) * (c as u128);
        i += 1;
    }
    proof {
        assert(pm.take(n as int) =~= pm);
    }
    Ok(SummaryStats { package_count: n as u64, total_events: total, sum_squares: squares })
}

/// The population variance of the summarized counts, as an exact fraction:
/// numerator `n * sum_squares - total^2`, denominator `n^2`. The caller
/// divides (and takes the square root for the standard deviation). The
/// mean-square bound guarantees the numerator is nonnegative for any table
/// of counts, which `lemma_mean_square_bound` states.
pub fn variance_parts(s: &SummaryStats) -> (r: (u128, u128))
    requires
        s.package_count > 0,
        (s.package_count as int) * (s.sum_squares as int) <= u128::MAX,
        (s.total_events as int) * (s.total_events as int) <= (s.package_count as int) * (
        s.sum_squares as int),
    ensures
        r.0 == (s.package_count as int) * (s.sum_squares as int) - (s.total_events as int) * (
        s.total_events as int),
        r.1 == (s.package_count as int) * (s.package_count as int),
{
    let n: u128 = s.package_count as u128;
    proof {
        let ni = s.package_count as int;
        assert(ni * ni <= 0xffff_ffff_ffff_ffff * 0xffff_ffff_ffff_ffff) by (nonlinear_arith)
            requires
                0 <= ni <= 0xffff_ffff_ffff_ffff,
        ;
        let t = s.total_events as int;
        assert(t * t >= 0) by (nonlinear_arith);
    }
    let num = n * s.sum_squares - (s.total_events as u128) * (s.total_events as u128);
    let den = n * n;
    (num, den)
}

} // verus!
