//! Distributional statistics over `(value, weight)` samples: weighted mean, empirical
//! percentiles, and a bootstrap confidence interval over a given stream of random draws.

use crate::scalar::{s_unit, unit, Exact, Numbers, Scalar, EXACT_COUNT};
use vstd::prelude::*;

verus! {

/// Bootstrap resamples that a [`Summary`] draws.
pub const DEFAULT_RESAMPLES: usize = 2000;

/// The running totals of weight and of weighted value.
pub open spec fn s_totals<S: Numbers>(samples: Seq<(S, S)>) -> (S, S)
    decreases samples.len(),
{
    if samples.len() == 0 {
        (S::s_of(0), S::s_of(0))
    } else {
        let before = s_totals(samples.drop_last());
        let (v, w) = samples.last();
        (before.0.s_plus(w), before.1.s_plus(w.s_times(v)))
    }
}

/// The weighted mean, zero where there is no weight.
pub open spec fn s_weighted_mean<S: Numbers>(samples: Seq<(S, S)>) -> S {
    let (weight, weighted) = s_totals(samples);
    if S::s_of(0).s_below(weight) {
        weighted.s_over(weight)
    } else {
        S::s_of(0)
    }
}

/// The weighted mean of `(value, weight)` samples; zero for no weight in all.
pub fn weighted_mean<S: Scalar>(samples: &[(S, S)]) -> (r: S)
    ensures
        r == s_weighted_mean(samples@),
{
    let mut weight: S = S::of(0);
    let mut weighted: S = S::of(0);
    let mut i: usize = 0;
    while i < samples.len()
        invariant
            i <= samples@.len(),
            (weight, weighted) == s_totals(samples@.take(i as int)),
        decreases samples@.len() - i,
    {
        let (v, w) = samples[i];
        assert(samples@.take(i + 1).drop_last() =~= samples@.take(i as int));
        weight = weight.plus(w);
        weighted = weighted.plus(w.times(v));
        i += 1;
    }
    assert(samples@.take(i as int) =~= samples@);
    if S::of(0).below(weight) {
        weighted.over(weight)
    } else {
        S::of(0)
    }
}

/// The samples are weighted by nothing below zero, and their values lie between two bounds.
pub open spec fn within_bounds(samples: Seq<(Exact, Exact)>, lo: real, hi: real) -> bool {
    forall|k: int|
        0 <= k < samples.len() ==> (#[trigger] samples[k]).1.v >= 0real && lo <= samples[k].0.v
            <= hi
}

/// In exact arithmetic the weighted mean of values between two bounds lies between them.
pub proof fn law_mean_is_bracketed(samples: Seq<(Exact, Exact)>, lo: real, hi: real)
    requires
        within_bounds(samples, lo, hi),
    ensures
        s_totals(samples).0.v >= 0real,
        lo * s_totals(samples).0.v <= s_totals(samples).1.v <= hi * s_totals(samples).0.v,
        s_totals(samples).0.v > 0real ==> lo <= s_weighted_mean(samples).v <= hi,
    decreases samples.len(),
{
    let weight = s_totals(samples).0.v;
    let weighted = s_totals(samples).1.v;
    if samples.len() == 0 {
        assert(lo * 0real == 0real && hi * 0real == 0real) by (nonlinear_arith);
    } else {
        let front = samples.drop_last();
        assert forall|k: int| 0 <= k < front.len() implies (#[trigger] front[k]).1.v >= 0real && lo
            <= front[k].0.v <= hi by {
            assert(front[k] == samples[k]);
        }
        law_mean_is_bracketed(front, lo, hi);
        let (bw, bv) = (s_totals(front).0.v, s_totals(front).1.v);
        let w = samples[samples.len() - 1].1.v;
        let v = samples[samples.len() - 1].0.v;
        assert(lo * (bw + w) <= bv + w * v <= hi * (bw + w)) by (nonlinear_arith)
            requires
                lo * bw <= bv <= hi * bw,
                w >= 0real,
                lo <= v <= hi,
        ;
    }
    if weight > 0real {
        assert(lo <= weighted / weight <= hi) by (nonlinear_arith)
            requires
                weight > 0real,
                lo * weight <= weighted <= hi * weight,
        ;
    }
}

/// In exact arithmetic totals add up over the pieces of a sequence of samples.
pub proof fn lemma_totals_add_up(a: Seq<(Exact, Exact)>, b: Seq<(Exact, Exact)>)
    ensures
        s_totals(a + b).0.v == s_totals(a).0.v + s_totals(b).0.v,
        s_totals(a + b).1.v == s_totals(a).1.v + s_totals(b).1.v,
    decreases b.len(),
{
    if b.len() == 0 {
        assert(a + b =~= a);
    } else {
        assert((a + b).drop_last() =~= a + b.drop_last());
        assert((a + b).last() == b.last());
        lemma_totals_add_up(a, b.drop_last());
    }
}

/// The `q`-quantile of a sorted sequence, by linear interpolation between order statistics.
pub open spec fn s_percentile<S: Numbers>(sorted: Seq<S>, q: S) -> S {
    if sorted.len() == 0 {
        S::s_of(0)
    } else if sorted.len() == 1 {
        sorted[0]
    } else {
        let rank = s_unit(q).s_times(S::s_of((sorted.len() - 1) as u64));
        let rest = rank.s_minus(S::s_of(rank.s_floor() as u64));
        sorted[rank.s_floor() as int].s_times(S::s_of(1).s_minus(rest)).s_plus(
            sorted[rank.s_ceil() as int].s_times(rest),
        )
    }
}

/// The `q`-quantile of a sorted slice, by linear interpolation between order statistics; zero
/// for an empty slice. A `q` outside the unit interval counts as its nearer end.
pub fn percentile_sorted<S: Scalar>(sorted: &[S], q: S) -> (r: S)
    requires
        sorted@.len() <= EXACT_COUNT,
    ensures
        r == s_percentile(sorted@, q),
{
    if sorted.len() == 0 {
        return S::of(0);
    }
    if sorted.len() == 1 {
        return sorted[0];
    }
    let last: usize = sorted.len() - 1;
    let share = unit(q);
    proof {
        S::lemma_counts(0, 1);
        S::lemma_counts(1, 1);
        S::lemma_order(S::s_of(1), S::s_of(0), S::s_of(0));
        S::lemma_order(S::s_of(0), S::s_of(0), S::s_of(0));
        S::lemma_rank_in_range(share, last as u64);
    }
    let rank = share.times(S::of(last as u64));
    let lo: usize = rank.floor_index();
    let hi: usize = rank.ceil_index();
    let rest = rank.minus(S::of(lo as u64));
    sorted[lo].times(S::of(1).minus(rest)).plus(sorted[hi].times(rest))
}

/// `x` put into `s` behind every value that it is not below, walking from the end.
pub open spec fn inserted<S: Numbers>(s: Seq<S>, x: S) -> Seq<S>
    decreases s.len(),
{
    if s.len() > 0 && x.s_below(s.last()) {
        inserted(s.drop_last(), x).push(s.last())
    } else {
        s.push(x)
    }
}

/// The values of `s`, each inserted behind its equals.
pub open spec fn sorted_values<S: Numbers>(s: Seq<S>) -> Seq<S>
    decreases s.len(),
{
    if s.len() == 0 {
        s
    } else {
        inserted(sorted_values(s.drop_last()), s.last())
    }
}

/// No value is below one that stands before it.
pub open spec fn ascending<S: Numbers>(s: Seq<S>) -> bool {
    forall|i: int, j: int| 0 <= i <= j < s.len() ==> !(#[trigger] s[j]).s_below(#[trigger] s[i])
}

/// Insertion keeps every value, and the order.
proof fn lemma_inserted<S: Numbers>(s: Seq<S>, x: S)
    ensures
        inserted(s, x).to_multiset() =~= s.to_multiset().insert(x),
        inserted(s, x).len() == s.len() + 1,
        (forall|i: int| 0 <= i < s.len() ==> (#[trigger] s[i]).number()) && x.number() ==> {
            &&& forall|i: int|
                0 <= i <= s.len() ==> (#[trigger] inserted(s, x)[i]).number()
            &&& ascending(s) ==> ascending(inserted(s, x))
        },
        forall|i: int|
            0 <= i <= s.len() ==> (#[trigger] inserted(s, x)[i]) == x || s.contains(
                inserted(s, x)[i],
            ),
    decreases s.len(),
{
    broadcast use vstd::seq_lib::group_to_multiset_ensures;

    if s.len() > 0 && x.s_below(s.last()) {
        let front = s.drop_last();
        let last = s.last();
        lemma_inserted(front, x);
        assert(s =~= front.push(last));
        let r = inserted(s, x);
        assert forall|i: int| 0 <= i <= s.len() implies (#[trigger] r[i]) == x || s.contains(r[i]) by {
            if i < s.len() {
                if r[i] != x {
                    assert(front.contains(inserted(front, x)[i]));
                    let k = choose|k: int| 0 <= k < front.len() && front[k] == r[i];
                    assert(s[k] == r[i]);
                }
            } else {
                assert(s[s.len() - 1] == r[i]);
            }
        }
        if (forall|i: int| 0 <= i < s.len() ==> (#[trigger] s[i]).number()) && x.number() {
            assert forall|i: int| 0 <= i < front.len() implies (#[trigger] front[i]).number() by {
                assert(s[i].number());
            }
            assert(s[s.len() - 1].number());
            assert forall|i: int| 0 <= i <= s.len() implies (#[trigger] r[i]).number() by {
                if i < s.len() {
                    assert(inserted(front, x)[i].number());
                }
            }
            if ascending(s) {
                assert(ascending(front)) by {
                    assert forall|i: int, j: int| 0 <= i <= j < front.len() implies !(
                    #[trigger] front[j]).s_below(#[trigger] front[i]) by {
                        assert(!s[j].s_below(s[i]));
                    }
                }
                assert forall|i: int, j: int| 0 <= i <= j < r.len() implies !(#[trigger] r[j]).s_below(
                    #[trigger] r[i],
                ) by {
                    if j < s.len() {
                        assert(!inserted(front, x)[j].s_below(inserted(front, x)[i]));
                    } else {
                        S::lemma_order(last, last, last);
                        S::lemma_order(x, last, last);
                        if i < s.len() && r[i] != x {
                            let k = choose|k: int| 0 <= k < s.len() && s[k] == r[i];
                            assert(!s[s.len() - 1].s_below(s[k]));
                        }
                    }
                }
            }
        }
    } else {
        let r = inserted(s, x);
        assert(r =~= s.push(x));
        if (forall|i: int| 0 <= i < s.len() ==> (#[trigger] s[i]).number()) && x.number() {
            assert forall|i: int| 0 <= i <= s.len() implies (#[trigger] r[i]).number() by {
                if i < s.len() {
                    assert(s[i].number());
                }
            }
            if ascending(s) {
                assert forall|i: int, j: int| 0 <= i <= j < r.len() implies !(#[trigger] r[j]).s_below(
                    #[trigger] r[i],
                ) by {
                    S::lemma_order(x, x, x);
                    if j < s.len() {
                        assert(!s[j].s_below(s[i]));
                    } else if i < s.len() {
                        assert(!s[s.len() - 1].s_below(s[i]));
                        assert(s[i].number() && s[s.len() - 1].number());
                        S::lemma_order(x, s[s.len() - 1], s[i]);
                    }
                }
            }
        }
    }
}

/// Sorting keeps every value, and brings numbers into order.
pub proof fn law_sorting_orders_numbers<S: Numbers>(s: Seq<S>)
    ensures
        sorted_values(s).to_multiset() == s.to_multiset(),
        sorted_values(s).len() == s.len(),
        (forall|i: int| 0 <= i < s.len() ==> (#[trigger] s[i]).number()) ==> ascending(
            sorted_values(s),
        ),
{
    lemma_sorted_values(s);
}

proof fn lemma_sorted_values<S: Numbers>(s: Seq<S>)
    ensures
        sorted_values(s).to_multiset() =~= s.to_multiset(),
        sorted_values(s).len() == s.len(),
        (forall|i: int| 0 <= i < s.len() ==> (#[trigger] s[i]).number()) ==> {
            &&& ascending(sorted_values(s))
            &&& forall|i: int| 0 <= i < s.len() ==> (#[trigger] sorted_values(s)[i]).number()
        },
    decreases s.len(),
{
    broadcast use vstd::seq_lib::group_to_multiset_ensures;

    if s.len() > 0 {
        let front = s.drop_last();
        lemma_sorted_values(front);
        lemma_inserted(sorted_values(front), s.last());
        assert(s =~= front.push(s.last()));
        if forall|i: int| 0 <= i < s.len() ==> (#[trigger] s[i]).number() {
            assert forall|i: int| 0 <= i < front.len() implies (#[trigger] front[i]).number() by {
                assert(s[i].number());
            }
            assert(s[s.len() - 1].number());
        }
    }
}

/// Puts a value into a sorted list behind its equals.
fn insert_sorted<S: Scalar>(s: &mut Vec<S>, x: S)
    ensures
        final(s)@ == inserted(old(s)@, x),
{
    let ghost whole = s@;
    let mut i: usize = s.len();
    assert(whole.take(i as int) =~= whole);
    while i > 0 && x.below(s[i - 1])
        invariant
            s@ == whole,
            i <= whole.len(),
            inserted(whole, x) =~= inserted(whole.take(i as int), x) + whole.skip(i as int),
        decreases i,
    {
        proof {
            let head = whole.take(i as int);
            assert(head.drop_last() =~= whole.take(i - 1));
            assert(whole.skip(i - 1) =~= seq![whole[i - 1]] + whole.skip(i as int));
        }
        i -= 1;
    }
    s.insert(i, x);
    assert(s@ =~= inserted(whole, x));
}

/// Sorts a list of values.
fn sort_values<S: Scalar>(values: &Vec<S>) -> (r: Vec<S>)
    ensures
        r@ == sorted_values(values@),
{
    let mut r: Vec<S> = Vec::new();
    let mut i: usize = 0;
    while i < values.len()
        invariant
            i <= values@.len(),
            r@ == sorted_values(values@.take(i as int)),
        decreases values@.len() - i,
    {
        assert(values@.take(i + 1).drop_last() =~= values@.take(i as int));
        insert_sorted(&mut r, values[i]);
        i += 1;
    }
    assert(values@.take(i as int) =~= values@);
    r
}

/// The `k`-th resample with replacement: `n` samples, each picked by one draw.
pub open spec fn resample<S: Numbers>(samples: Seq<(S, S)>, draws: Seq<u64>, k: int) -> Seq<(S, S)> {
    Seq::new(
        samples.len(),
        |j: int| samples[draws[k * samples.len() + j] as int % samples.len() as int],
    )
}

/// The weighted means of the resamples.
pub open spec fn resample_means<S: Numbers>(
    samples: Seq<(S, S)>,
    resamples: nat,
    draws: Seq<u64>,
) -> Seq<S> {
    Seq::new(resamples, |k: int| s_weighted_mean(resample(samples, draws, k)))
}

/// The confidence interval: the outer percentiles of the sorted resample means.
pub open spec fn s_interval<S: Numbers>(
    samples: Seq<(S, S)>,
    resamples: nat,
    alpha: S,
    draws: Seq<u64>,
) -> (S, S) {
    if samples.len() == 0 {
        (S::s_of(0), S::s_of(0))
    } else {
        let means = sorted_values(resample_means(samples, resamples, draws));
        (
            s_percentile(means, alpha.s_over(S::s_of(2))),
            s_percentile(means, S::s_of(1).s_minus(alpha.s_over(S::s_of(2)))),
        )
    }
}

/// A bootstrap `(1 - alpha)` confidence interval for the weighted mean: resample the tasks with
/// replacement `resamples` times, take the weighted mean of each resample, and of those means the
/// `alpha/2` and `1 - alpha/2` percentiles. The draws are the caller's, one per picked sample, so
/// the interval is a function of them.
pub fn bootstrap_weighted_mean_ci<S: Scalar>(
    samples: &[(S, S)],
    resamples: usize,
    alpha: S,
    draws: &[u64],
) -> (r: (S, S))
    requires
        samples@.len() > 0 ==> resamples <= EXACT_COUNT,
        samples@.len() * resamples <= draws@.len(),
    ensures
        r == s_interval(samples@, resamples as nat, alpha, draws@),
{
    let n: usize = samples.len();
    if n == 0 {
        return (S::of(0), S::of(0));
    }
    let available: usize = draws.len();
    let mut means: Vec<S> = Vec::new();
    let mut k: usize = 0;
    let mut at: usize = 0;
    while k < resamples
        invariant
            n == samples@.len(),
            0 < n,
            k <= resamples,
            n * resamples <= draws@.len() == available,
            at == k * n,
            means@ =~= resample_means(samples@, k as nat, draws@),
        decreases resamples - k,
    {
        let ghost picked = resample(samples@, draws@, k as int);
        proof {
            assert(k * n + n <= n * resamples) by (nonlinear_arith)
                requires
                    k < resamples,
            ;
            assert((k + 1) * n == k * n + n) by (nonlinear_arith);
        }
        let mut weight: S = S::of(0);
        let mut weighted: S = S::of(0);
        let mut j: usize = 0;
        while j < n
            invariant
                n == samples@.len(),
                0 < n,
                j <= n,
                at == k * n,
                at + n <= draws@.len() == available,
                picked == resample(samples@, draws@, k as int),
                (weight, weighted) == s_totals(picked.take(j as int)),
            decreases n - j,
        {
            let pick: usize = (draws[at + j] % n as u64) as usize;
            let (v, w) = samples[pick];
            proof {
                assert(picked.take(j + 1).drop_last() =~= picked.take(j as int));
                assert(picked[j as int] == samples@[pick as int]);
            }
            weight = weight.plus(w);
            weighted = weighted.plus(w.times(v));
            j += 1;
        }
        assert(picked.take(j as int) =~= picked);
        means.push(
            if S::of(0).below(weight) {
                weighted.over(weight)
            } else {
                S::of(0)
            },
        );
        at += n;
        k += 1;
        assert(means@ =~= resample_means(samples@, k as nat, draws@));
    }
    let sorted = sort_values(&means);
    proof {
        lemma_sorted_values(means@);
    }
    let tail = alpha.over(S::of(2));
    (
        percentile_sorted(sorted.as_slice(), tail),
        percentile_sorted(sorted.as_slice(), S::of(1).minus(tail)),
    )
}

/// A distributional summary of `(value, weight)` samples: the weighted mean with its bootstrap
/// interval, and the unweighted distribution of the values, so that the tail stays visible.
#[derive(Debug)]
pub struct Summary<S> {
    pub n: usize,
    /// The weighted mean: the aggregate objective.
    pub weighted_mean: S,
    /// The bootstrap 95% interval of the weighted mean.
    pub ci95: (S, S),
    pub min: S,
    pub p05: S,
    pub p25: S,
    pub p50: S,
    pub p75: S,
    pub p95: S,
    pub max: S,
}

impl<S: Copy> Clone for Summary<S> {
    fn clone(&self) -> (r: Self)
        ensures
            r == *self,
    {
        *self
    }
}

impl<S: Copy> Copy for Summary<S> {

}

/// The values of the samples.
pub open spec fn values_of<S: Numbers>(samples: Seq<(S, S)>) -> Seq<S> {
    Seq::new(samples.len(), |i: int| samples[i].0)
}

/// A number of hundredths.
pub open spec fn s_hundredths<S: Numbers>(n: u64) -> S {
    S::s_of(n).s_over(S::s_of(100))
}

/// A number of hundredths.
pub fn hundredths<S: Scalar>(n: u64) -> (r: S)
    ensures
        r == s_hundredths::<S>(n),
{
    S::of(n).over(S::of(100))
}

/// What a summary says of its samples.
pub open spec fn s_summary<S: Numbers>(samples: Seq<(S, S)>, draws: Seq<u64>) -> Summary<S> {
    let vals = sorted_values(values_of(samples));
    Summary {
        n: samples.len() as usize,
        weighted_mean: s_weighted_mean(samples),
        ci95: s_interval(samples, DEFAULT_RESAMPLES as nat, s_hundredths(5), draws),
        min: if samples.len() == 0 {
            S::s_of(0)
        } else {
            vals[0]
        },
        p05: s_percentile(vals, s_hundredths(5)),
        p25: s_percentile(vals, s_hundredths(25)),
        p50: s_percentile(vals, s_hundredths(50)),
        p75: s_percentile(vals, s_hundredths(75)),
        p95: s_percentile(vals, s_hundredths(95)),
        max: if samples.len() == 0 {
            S::s_of(0)
        } else {
            vals[samples.len() - 1]
        },
    }
}

/// There are draws enough for a summary of `n` samples.
pub open spec fn draws_suffice(n: int, draws: Seq<u64>) -> bool {
    n <= EXACT_COUNT && n * DEFAULT_RESAMPLES <= draws.len()
}

impl<S: Scalar> Summary<S> {
    /// Summarizes `(value, weight)` samples; `draws` drives the bootstrap.
    pub fn of(samples: &[(S, S)], draws: &[u64]) -> (r: Summary<S>)
        requires
            draws_suffice(samples@.len() as int, draws@),
        ensures
            r == s_summary(samples@, draws@),
    {
        let mut vals: Vec<S> = Vec::new();
        let mut i: usize = 0;
        while i < samples.len()
            invariant
                i <= samples@.len(),
                vals@ == values_of(samples@).take(i as int),
            decreases samples@.len() - i,
        {
            vals.push(samples[i].0);
            i += 1;
            assert(vals@ =~= values_of(samples@).take(i as int));
        }
        assert(vals@ =~= values_of(samples@));
        let vals = sort_values(&vals);
        proof {
            lemma_sorted_values(values_of(samples@));
        }
        let sorted = vals.as_slice();
        let empty = samples.len() == 0;
        Summary {
            n: samples.len(),
            weighted_mean: weighted_mean(samples),
            ci95: bootstrap_weighted_mean_ci(samples, DEFAULT_RESAMPLES, hundredths(5), draws),
            min: if empty {
                S::of(0)
            } else {
                sorted[0]
            },
            p05: percentile_sorted(sorted, hundredths(5)),
            p25: percentile_sorted(sorted, hundredths(25)),
            p50: percentile_sorted(sorted, hundredths(50)),
            p75: percentile_sorted(sorted, hundredths(75)),
            p95: percentile_sorted(sorted, hundredths(95)),
            max: if empty {
                S::of(0)
            } else {
                sorted[samples.len() - 1]
            },
        }
    }
}

/// The extremes of a summary of numbers bracket every value.
pub proof fn law_summary_extremes_bracket<S: Numbers>(samples: Seq<(S, S)>, draws: Seq<u64>, i: int)
    requires
        0 <= i < samples.len(),
        forall|k: int| 0 <= k < samples.len() ==> (#[trigger] samples[k]).0.number(),
    ensures
        !samples[i].0.s_below(s_summary(samples, draws).min),
        !s_summary(samples, draws).max.s_below(samples[i].0),
{
    broadcast use vstd::seq_lib::group_to_multiset_ensures;

    let vals = values_of(samples);
    assert forall|k: int| 0 <= k < vals.len() implies (#[trigger] vals[k]).number() by {
        assert(samples[k].0.number());
    }
    lemma_sorted_values(vals);
    let sorted = sorted_values(vals);
    assert(vals.contains(vals[i]));
    assert(sorted.to_multiset().count(vals[i]) > 0);
    assert(sorted.contains(vals[i]));
    let k = choose|k: int| 0 <= k < sorted.len() && sorted[k] == vals[i];
    assert(!sorted[k].s_below(sorted[0]));
    assert(!sorted[sorted.len() - 1].s_below(sorted[k]));
}

/// The value between the places of an ascending sequence of exact numbers.
spec fn between(sorted: Seq<Exact>, x: Exact) -> real {
    let rest = x.v - x.s_floor() as real;
    sorted[x.s_floor() as int].v * (1real - rest) + sorted[x.s_ceil() as int].v * rest
}

/// Where the places of a number in a sequence lie.
proof fn lemma_places(x: Exact, last: int)
    requires
        0 <= last <= usize::MAX,
        0real <= x.v <= last as real,
    ensures
        0 <= x.s_floor() <= x.s_ceil() <= last,
        x.s_ceil() <= x.s_floor() + 1,
        x.s_floor() as real <= x.v < x.s_floor() as real + 1real,
        x.s_ceil() == x.s_floor() <==> x.v == x.s_floor() as real,
{
    let f = x.v.floor();
    assert(f as real <= x.v < f as real + 1real);
    assert(0 <= f <= last);
    if x.v != f as real {
        assert((x.v + 1real).floor() == f + 1);
    }
}

/// The value between two places lies between the values at them.
proof fn lemma_between(sorted: Seq<Exact>, x: Exact)
    requires
        0 < sorted.len() <= usize::MAX,
        ascending(sorted),
        0real <= x.v <= (sorted.len() - 1) as real,
    ensures
        sorted[x.s_floor() as int].v <= between(sorted, x) <= sorted[x.s_ceil() as int].v,
{
    lemma_places(x, sorted.len() - 1);
    let rest = x.v - x.s_floor() as real;
    let a = sorted[x.s_floor() as int];
    let b = sorted[x.s_ceil() as int];
    assert(!b.s_below(a));
    assert(a.v <= a.v * (1real - rest) + b.v * rest <= b.v) by (nonlinear_arith)
        requires
            a.v <= b.v,
            0real <= rest <= 1real,
    ;
}

/// The value between places does not fall.
proof fn lemma_between_grows(sorted: Seq<Exact>, x: Exact, y: Exact)
    requires
        0 < sorted.len() <= usize::MAX,
        ascending(sorted),
        0real <= x.v <= y.v <= (sorted.len() - 1) as real,
    ensures
        between(sorted, x) <= between(sorted, y),
{
    lemma_places(x, sorted.len() - 1);
    lemma_places(y, sorted.len() - 1);
    lemma_between(sorted, x);
    lemma_between(sorted, y);
    if x.s_floor() < y.s_floor() {
        let a = sorted[x.s_ceil() as int];
        let b = sorted[y.s_floor() as int];
        assert(!b.s_below(a));
    } else {
        assert(x.s_floor() == y.s_floor());
        let p = x.v - x.s_floor() as real;
        let q = y.v - y.s_floor() as real;
        let a = sorted[x.s_floor() as int].v;
        if p > 0real {
            let b = sorted[x.s_ceil() as int].v;
            assert(!sorted[x.s_ceil() as int].s_below(sorted[x.s_floor() as int]));
            assert(a * (1real - p) + b * p <= a * (1real - q) + b * q) by (nonlinear_arith)
                requires
                    a <= b,
                    p <= q,
            ;
        } else {
            assert(a * (1real - 0real) + a * 0real == a) by (nonlinear_arith);
        }
    }
}

/// In exact arithmetic the percentiles of an ascending sequence are ordered as their shares are,
/// and lie between the least and the greatest value.
pub proof fn law_percentiles_are_ordered(sorted: Seq<Exact>, p: Exact, q: Exact)
    requires
        0 < sorted.len() <= usize::MAX,
        ascending(sorted),
        p.v <= q.v,
    ensures
        sorted[0].v <= s_percentile(sorted, p).v <= s_percentile(sorted, q).v <= sorted[sorted.len()
            - 1].v,
{
    let last = sorted.len() - 1;
    if sorted.len() > 1 {
        let n = last as real;
        let (a, b) = (s_unit(p), s_unit(q));
        let x = a.s_times(Exact::s_of(last as u64));
        let y = b.s_times(Exact::s_of(last as u64));
        assert(0real <= a.v * n <= b.v * n <= n) by (nonlinear_arith)
            requires
                0real <= a.v <= b.v <= 1real,
                n > 0real,
        ;
        assert(between(sorted, x) == s_percentile(sorted, p).v);
        assert(between(sorted, y) == s_percentile(sorted, q).v);
        lemma_between_grows(sorted, x, y);
        lemma_between(sorted, x);
        lemma_between(sorted, y);
        lemma_places(x, last);
        lemma_places(y, last);
        assert(!sorted[x.s_floor() as int].s_below(sorted[0]));
        assert(!sorted[last].s_below(sorted[y.s_ceil() as int]));
    }
}

/// A number of hundredths in exact arithmetic.
proof fn lemma_hundredths(n: u64, m: u64)
    requires
        n <= m,
    ensures
        s_hundredths::<Exact>(n).v <= s_hundredths::<Exact>(m).v,
        0real <= s_hundredths::<Exact>(n).v,
        m <= 100 ==> s_hundredths::<Exact>(m).v <= 1real,
{
    let (a, b) = (n as real, m as real);
    assert(0real <= a / 100real <= b / 100real) by (nonlinear_arith)
        requires
            0real <= a <= b,
    ;
    assert(b <= 100real ==> b / 100real <= 1real) by (nonlinear_arith);
}

/// In exact arithmetic a summary's percentiles are ordered between its extremes.
pub proof fn law_summary_orders_its_percentiles(samples: Seq<(Exact, Exact)>, draws: Seq<u64>)
    requires
        samples.len() <= usize::MAX,
    ensures
        ({
            let s = s_summary(samples, draws);
            s.min.v <= s.p05.v <= s.p25.v <= s.p50.v <= s.p75.v <= s.p95.v <= s.max.v
        }),
{
    let vals = values_of(samples);
    lemma_sorted_values(vals);
    let sorted = sorted_values(vals);
    if samples.len() > 0 {
        lemma_hundredths(5, 25);
        lemma_hundredths(25, 50);
        lemma_hundredths(50, 75);
        lemma_hundredths(75, 95);
        law_percentiles_are_ordered(sorted, s_hundredths(5), s_hundredths(25));
        law_percentiles_are_ordered(sorted, s_hundredths(25), s_hundredths(50));
        law_percentiles_are_ordered(sorted, s_hundredths(50), s_hundredths(75));
        law_percentiles_are_ordered(sorted, s_hundredths(75), s_hundredths(95));
    }
}

/// Samples that are a permutation of others have their values.
proof fn lemma_values_permute<S: Numbers>(a: Seq<(S, S)>, b: Seq<(S, S)>)
    requires
        a.to_multiset() == b.to_multiset(),
    ensures
        values_of(a).to_multiset() == values_of(b).to_multiset(),
        a.len() == b.len(),
    decreases a.len(),
{
    broadcast use vstd::seq_lib::group_to_multiset_ensures;

    assert(a.to_multiset().len() == a.len() && b.to_multiset().len() == b.len());
    if a.len() == 0 {
        assert(values_of(a) =~= values_of(b));
    } else {
        let k = a.len() - 1;
        let x = a[k];
        assert(a.to_multiset().count(x) > 0) by {
            assert(a.contains(x));
        }
        assert(b.contains(x));
        let j = choose|j: int| 0 <= j < b.len() && b[j] == x;
        let (front, rest) = (a.remove(k), b.remove(j));
        assert(front.to_multiset() =~= rest.to_multiset());
        lemma_values_permute(front, rest);
        assert(values_of(a) =~= values_of(front).insert(k, x.0));
        assert(values_of(b) =~= values_of(rest).insert(j, x.0));
    }
}

/// The extremes and percentiles of a summary do not depend on the order of the samples.
pub proof fn law_summary_ignores_the_order(
    samples: Seq<(Exact, Exact)>,
    other: Seq<(Exact, Exact)>,
    draws: Seq<u64>,
)
    requires
        samples.to_multiset() == other.to_multiset(),
    ensures
        ({
            let (a, b) = (s_summary(samples, draws), s_summary(other, draws));
            &&& a.n == b.n
            &&& a.min == b.min
            &&& a.p05 == b.p05
            &&& a.p25 == b.p25
            &&& a.p50 == b.p50
            &&& a.p75 == b.p75
            &&& a.p95 == b.p95
            &&& a.max == b.max
        }),
{
    lemma_values_permute(samples, other);
    let (x, y) = (sorted_values(values_of(samples)), sorted_values(values_of(other)));
    lemma_sorted_values(values_of(samples));
    lemma_sorted_values(values_of(other));
    let leq = |a: Exact, b: Exact| a.v <= b.v;
    assert forall|i: int, j: int| 0 <= i < j < x.len() implies #[trigger] leq(x[i], x[j]) by {
        assert(!x[j].s_below(x[i]));
    }
    assert forall|i: int, j: int| 0 <= i < j < y.len() implies #[trigger] leq(y[i], y[j]) by {
        assert(!y[j].s_below(y[i]));
    }
    vstd::seq_lib::lemma_sorted_unique(x, y, leq);
}

/// In exact arithmetic the bootstrap interval of positively weighted samples is ordered, and lies
/// between bounds of their values.
pub proof fn law_interval_is_bracketed(
    samples: Seq<(Exact, Exact)>,
    resamples: nat,
    alpha: Exact,
    draws: Seq<u64>,
    lo: real,
    hi: real,
)
    requires
        samples.len() > 0,
        within_bounds(samples, lo, hi),
        forall|k: int| 0 <= k < samples.len() ==> (#[trigger] samples[k]).1.v > 0real,
        0 < resamples <= usize::MAX,
        0real <= alpha.v <= 1real,
    ensures
        ({
            let i = s_interval(samples, resamples, alpha, draws);
            lo <= i.0.v <= i.1.v <= hi
        }),
{
    broadcast use vstd::seq_lib::group_to_multiset_ensures;

    let means = resample_means(samples, resamples, draws);
    assert forall|k: int| 0 <= k < means.len() implies lo <= (#[trigger] means[k]).v <= hi by {
        let picked = resample(samples, draws, k);
        assert forall|j: int| 0 <= j < picked.len() implies (#[trigger] picked[j]).1.v > 0real && lo
            <= picked[j].0.v <= hi by {
            let at = draws[k * samples.len() + j] as int % samples.len() as int;
            assert(0 <= at < samples.len());
            assert(picked[j] == samples[at]);
            assert(samples[at].1.v > 0real);
        }
        law_mean_is_bracketed(picked, lo, hi);
        lemma_weight_is_positive(picked);
    }
    lemma_sorted_values(means);
    let sorted = sorted_values(means);
    assert forall|k: int| 0 <= k < sorted.len() implies lo <= (#[trigger] sorted[k]).v <= hi by {
        assert(sorted.contains(sorted[k]));
        assert(means.to_multiset().count(sorted[k]) > 0);
        assert(means.contains(sorted[k]));
        let j = choose|j: int| 0 <= j < means.len() && means[j] == sorted[k];
        assert(lo <= means[j].v <= hi);
    }
    let tail = alpha.s_over(Exact::s_of(2));
    let a = alpha.v;
    assert(a / 2real <= 1real - a / 2real) by (nonlinear_arith)
        requires
            a <= 1real,
    ;
    law_percentiles_are_ordered(sorted, tail, Exact::s_of(1).s_minus(tail));
    assert(lo <= sorted[0].v && sorted[sorted.len() - 1].v <= hi);
}

/// Positive weights have a positive total.
proof fn lemma_weight_is_positive(samples: Seq<(Exact, Exact)>)
    requires
        samples.len() > 0,
        forall|k: int| 0 <= k < samples.len() ==> (#[trigger] samples[k]).1.v > 0real,
    ensures
        s_totals(samples).0.v > 0real,
    decreases samples.len(),
{
    let front = samples.drop_last();
    assert(samples[samples.len() - 1].1.v > 0real);
    if front.len() > 0 {
        assert forall|k: int| 0 <= k < front.len() implies (#[trigger] front[k]).1.v > 0real by {
            assert(front[k] == samples[k]);
        }
        lemma_weight_is_positive(front);
    } else {
        assert(s_totals(front).0.v == 0real);
    }
}

/// In exact arithmetic a summary's interval is ordered and lies between its extremes, for samples
/// of positive weight.
pub proof fn law_summary_interval_lies_between_the_extremes(samples: Seq<(Exact, Exact)>, draws: Seq<u64>)
    requires
        0 < samples.len(),
        forall|k: int| 0 <= k < samples.len() ==> (#[trigger] samples[k]).1.v > 0real,
    ensures
        ({
            let s = s_summary(samples, draws);
            s.min.v <= s.ci95.0.v <= s.ci95.1.v <= s.max.v
        }),
{
    let s = s_summary(samples, draws);
    assert forall|k: int| 0 <= k < samples.len() implies (#[trigger] samples[k]).1.v >= 0real
        && s.min.v <= samples[k].0.v <= s.max.v by {
        law_summary_extremes_bracket(samples, draws, k);
        assert(samples[k].1.v > 0real);
    }
    lemma_hundredths(5, 5);
    law_interval_is_bracketed(
        samples,
        DEFAULT_RESAMPLES as nat,
        s_hundredths(5),
        draws,
        s.min.v,
        s.max.v,
    );
}

proof fn lemma_totals_fold(samples: Seq<(Exact, Exact)>)
    ensures
        s_totals(samples).0.v == samples.fold_left(0real, |t: real, s: (Exact, Exact)| t + s.1.v),
        s_totals(samples).1.v == samples.fold_left(
            0real,
            |t: real, s: (Exact, Exact)| t + s.1.v * s.0.v,
        ),
    decreases samples.len(),
{
    if samples.len() > 0 {
        lemma_totals_fold(samples.drop_last());
    }
}

/// In exact arithmetic the weighted mean times the weight of all samples is what their values add
/// up to, each times its weight; where there is no weight the mean is zero.
#[verifier::spinoff_prover]
pub proof fn law_mean_weighs_every_sample(samples: Seq<(Exact, Exact)>)
    ensures
        ({
            let weight = samples.fold_left(0real, |t: real, s: (Exact, Exact)| t + s.1.v);
            let weighted = samples.fold_left(0real, |t: real, s: (Exact, Exact)| t + s.1.v * s.0.v);
            let mean = s_weighted_mean(samples).v;
            &&& weight > 0real ==> mean * weight == weighted
            &&& weight <= 0real ==> mean == 0real
        }),
{
    lemma_totals_fold(samples);
    let (w, x) = (s_totals(samples).0.v, s_totals(samples).1.v);
    if w > 0real {
        let m = x / w;
        assert(m * w == x) by (nonlinear_arith)
            requires
                m == x / w,
                w > 0real,
        ;
    }
}

/// In exact arithmetic the totals of samples do not depend on their order.
#[verifier::spinoff_prover]
proof fn lemma_totals_permute(a: Seq<(Exact, Exact)>, b: Seq<(Exact, Exact)>)
    requires
        a.to_multiset() == b.to_multiset(),
    ensures
        s_totals(a).0.v == s_totals(b).0.v,
        s_totals(a).1.v == s_totals(b).1.v,
    decreases a.len(),
{
    broadcast use vstd::seq_lib::group_to_multiset_ensures;

    assert(a.to_multiset().len() == a.len() && b.to_multiset().len() == b.len());
    if a.len() > 0 {
        let k = a.len() - 1;
        let x = a[k];
        assert(a.to_multiset().count(x) > 0) by {
            assert(a.contains(x));
        }
        assert(b.contains(x));
        let j = choose|j: int| 0 <= j < b.len() && b[j] == x;
        let (front, rest) = (a.remove(k), b.remove(j));
        assert(front.to_multiset() =~= rest.to_multiset());
        lemma_totals_permute(front, rest);
        assert(front =~= a.drop_last());
        let (head, tail) = (b.take(j), b.skip(j + 1));
        assert(rest =~= head + tail);
        assert(b =~= head + (seq![x] + tail));
        lemma_totals_add_up(head, tail);
        lemma_totals_add_up(head, seq![x] + tail);
        lemma_totals_add_up(seq![x], tail);
        lemma_one_total(x);
    }
}

/// The totals of one sample are its own.
proof fn lemma_one_total(x: (Exact, Exact))
    ensures
        s_totals(seq![x]).0.v == x.1.v,
        s_totals(seq![x]).1.v == x.1.v * x.0.v,
{
    assert(seq![x].drop_last() =~= Seq::<(Exact, Exact)>::empty());
    assert(s_totals(seq![x].drop_last()).0.v == 0real);
    assert(s_totals(seq![x].drop_last()).1.v == 0real);
}

/// In exact arithmetic the weighted mean does not depend on the order of the samples.
pub proof fn law_mean_ignores_the_order(a: Seq<(Exact, Exact)>, b: Seq<(Exact, Exact)>)
    requires
        a.to_multiset() == b.to_multiset(),
    ensures
        s_weighted_mean(a).v == s_weighted_mean(b).v,
{
    lemma_totals_permute(a, b);
}

/// Each resample is made of the given samples, value and weight together, picked by its own draws:
/// its mean is the weighted mean of what the draws picked.
pub proof fn law_resamples_are_picked_by_the_draws<S: Numbers>(
    samples: Seq<(S, S)>,
    resamples: nat,
    draws: Seq<u64>,
    k: int,
    picked: Seq<(S, S)>,
)
    requires
        samples.len() > 0,
        0 <= k < resamples,
        picked.len() == samples.len(),
        forall|j: int|
            0 <= j < picked.len() ==> #[trigger] picked[j] == samples[draws[k * samples.len() + j] as int
                % samples.len() as int],
    ensures
        resample_means(samples, resamples, draws).len() == resamples,
        resample_means(samples, resamples, draws)[k] == s_weighted_mean(picked),
{
    assert(resample(samples, draws, k) =~= picked);
}

/// In exact arithmetic an interval over resamples that each hold the samples once, in whatever
/// order, is the weighted mean of the samples twice.
#[verifier::spinoff_prover]
pub proof fn law_balanced_resamples_give_the_mean(
    samples: Seq<(Exact, Exact)>,
    resamples: nat,
    alpha: Exact,
    draws: Seq<u64>,
)
    requires
        samples.len() > 0,
        0 < resamples <= usize::MAX,
        forall|k: int|
            0 <= k < resamples ==> #[trigger] picked_once(samples, draws, k),
    ensures
        s_interval(samples, resamples, alpha, draws).0.v == s_weighted_mean(samples).v,
        s_interval(samples, resamples, alpha, draws).1.v == s_weighted_mean(samples).v,
{
    broadcast use vstd::seq_lib::group_to_multiset_ensures;

    let m = s_weighted_mean(samples).v;
    let means = resample_means(samples, resamples, draws);
    assert forall|k: int| 0 <= k < means.len() implies (#[trigger] means[k]).v == m by {
        assert(picked_once(samples, draws, k));
        let picked = Seq::new(
            samples.len(),
            |place: int| samples[draws[k * samples.len() + place] as int % samples.len() as int],
        );
        law_resamples_are_picked_by_the_draws(samples, resamples, draws, k, picked);
        law_mean_ignores_the_order(picked, samples);
    }
    lemma_sorted_values(means);
    let sorted = sorted_values(means);
    assert forall|k: int| 0 <= k < sorted.len() implies (#[trigger] sorted[k]).v == m by {
        assert(sorted.contains(sorted[k]));
        assert(means.to_multiset().count(sorted[k]) > 0);
        assert(means.contains(sorted[k]));
    }
    let tail = alpha.s_over(Exact::s_of(2));
    lemma_level_percentile(sorted, tail, m);
    lemma_level_percentile(sorted, Exact::s_of(1).s_minus(tail), m);
}

/// The draws of the `k`-th resample pick every sample once.
pub open spec fn picked_once<S>(samples: Seq<(S, S)>, draws: Seq<u64>, k: int) -> bool {
    Seq::new(
        samples.len(),
        |place: int| samples[draws[k * samples.len() + place] as int % samples.len() as int],
    ).to_multiset() == samples.to_multiset()
}

/// The percentiles of equal values are that value.
proof fn lemma_level_percentile(sorted: Seq<Exact>, q: Exact, m: real)
    requires
        0 < sorted.len() <= usize::MAX,
        forall|k: int| 0 <= k < sorted.len() ==> (#[trigger] sorted[k]).v == m,
    ensures
        s_percentile(sorted, q).v == m,
{
    assert(ascending(sorted)) by {
        assert forall|i: int, j: int| 0 <= i <= j < sorted.len() implies !(#[trigger] sorted[j]).s_below(
            #[trigger] sorted[i],
        ) by {
            assert(sorted[i].v == m && sorted[j].v == m);
        }
    }
    law_percentiles_are_ordered(sorted, q, q);
    assert(sorted[0].v == m && sorted[sorted.len() - 1].v == m);
}

/// In exact arithmetic the percentile at a share of `k + t` places, out of the places between the
/// first value and the last, lies `t` of the way from the value at `k` to the next. A share below
/// zero is that of the first value and one above one that of the last.
#[verifier::spinoff_prover]
pub proof fn law_percentile_interpolates(sorted: Seq<Exact>, q: Exact, k: int, t: real)
    requires
        1 < sorted.len() <= usize::MAX,
        0 <= k < sorted.len() - 1,
        0real <= t <= 1real,
    ensures
        q.v * (sorted.len() - 1) as real == k as real + t ==> s_percentile(sorted, q).v == sorted[k].v
            * (1real - t) + sorted[k + 1].v * t,
        q.v <= 0real ==> s_percentile(sorted, q).v == sorted[0].v,
        q.v >= 1real ==> s_percentile(sorted, q).v == sorted[sorted.len() - 1].v,
{
    let last = sorted.len() - 1;
    let n = last as real;
    let u = s_unit(q);
    let x = u.s_times(Exact::s_of(last as u64));
    assert(x.v == u.v * n);
    assert(0real <= u.v * n <= n) by (nonlinear_arith)
        requires
            0real <= u.v <= 1real,
            n > 0real,
    ;
    lemma_places(x, last);
    let f = x.s_floor() as int;
    let rest = x.v - f as real;
    let (a, b) = (sorted[f].v, sorted[x.s_ceil() as int].v);
    assert(s_percentile(sorted, q).v == a * (1real - rest) + b * rest);
    assert(a * (1real - 0real) + a * 0real == a) by (nonlinear_arith);
    assert(0real * n == 0real && 1real * n == n) by (nonlinear_arith);
    if q.v * n == k as real + t {
        let qv = q.v;
        assert(0real <= qv <= 1real) by (nonlinear_arith)
            requires
                qv * n == k as real + t,
                0real <= k as real + t <= n,
                n > 0real,
        ;
        assert(u == q);
        let (c, d) = (sorted[k].v, sorted[k + 1].v);
        if t == 1real {
            assert(f == k + 1);
            assert(c * (1real - 1real) + d * 1real == d) by (nonlinear_arith);
        } else {
            assert(f == k);
            if t == 0real {
                assert(c * (1real - 0real) + d * 0real == c) by (nonlinear_arith);
            } else {
                assert(x.s_ceil() == k + 1);
            }
        }
    }
}

/// Two ascending lists of the same exact numbers are the same.
proof fn lemma_ascending_unique(a: Seq<Exact>, b: Seq<Exact>)
    requires
        a.to_multiset() == b.to_multiset(),
        forall|i: int, j: int| 0 <= i <= j < a.len() ==> (#[trigger] a[i]).v <= (#[trigger] a[j]).v,
        ascending(b),
    ensures
        a == b,
{
    let leq = |x: Exact, y: Exact| x.v <= y.v;
    assert forall|i: int, j: int| 0 <= i < j < a.len() implies #[trigger] leq(a[i], a[j]) by {
        assert(a[i].v <= a[j].v);
    }
    assert forall|i: int, j: int| 0 <= i < j < b.len() implies #[trigger] leq(b[i], b[j]) by {
        assert(!b[j].s_below(b[i]));
    }
    vstd::seq_lib::lemma_sorted_unique(a, b, leq);
}

/// In exact arithmetic the interval leaves out half of `alpha` on either side: with the means of
/// the resamples in ascending order and `k + t` places in half of `alpha`, it goes from `t` of the
/// way behind the mean at `k` to `t` of the way before the mean as far from the end.
#[verifier::spinoff_prover]
pub proof fn law_interval_leaves_out_the_tails(
    samples: Seq<(Exact, Exact)>,
    resamples: nat,
    alpha: Exact,
    draws: Seq<u64>,
    means: Seq<Exact>,
    k: int,
    t: real,
)
    requires
        samples.len() > 0,
        1 < resamples <= usize::MAX,
        means.to_multiset() == resample_means(samples, resamples, draws).to_multiset(),
        forall|i: int, j: int|
            0 <= i <= j < means.len() ==> (#[trigger] means[i]).v <= (#[trigger] means[j]).v,
        0 <= k < resamples - 1,
        0real <= t <= 1real,
        alpha.v * (resamples - 1) as real == 2real * (k as real + t),
    ensures
        ({
            let (lo, hi) = s_interval(samples, resamples, alpha, draws);
            let last = resamples - 1;
            &&& means.len() == resamples
            &&& lo.v == means[k].v * (1real - t) + means[k + 1].v * t
            &&& hi.v == means[last - k].v * (1real - t) + means[last - k - 1].v * t
        }),
{
    broadcast use vstd::seq_lib::group_to_multiset_ensures;

    let raw = resample_means(samples, resamples, draws);
    lemma_sorted_values(raw);
    lemma_ascending_unique(means, sorted_values(raw));
    assert(raw.to_multiset().len() == raw.len() && means.to_multiset().len() == means.len());
    let last = resamples - 1;
    let n = last as real;
    let tail = alpha.s_over(Exact::s_of(2));
    let upper = Exact::s_of(1).s_minus(tail);
    let a = alpha.v;
    assert(tail.v * n == k as real + t) by (nonlinear_arith)
        requires
            tail.v == a / 2real,
            a * n == 2real * (k as real + t),
    ;
    law_percentile_interpolates(means, tail, k, t);
    let j = last - k - 1;
    assert(upper.v * n == j as real + (1real - t)) by (nonlinear_arith)
        requires
            upper.v == 1real - tail.v,
            tail.v * n == k as real + t,
            n == last as real,
            j as real == last as real - k as real - 1real,
    ;
    law_percentile_interpolates(means, upper, j, 1real - t);
}

/// In exact arithmetic a summary's percentiles are taken of the values in ascending order, at the
/// hundredths that they are named after.
#[verifier::spinoff_prover]
pub proof fn law_summary_percentiles_by_place(
    samples: Seq<(Exact, Exact)>,
    draws: Seq<u64>,
    vals: Seq<Exact>,
    p: int,
    k: int,
    rest: int,
)
    requires
        1 < samples.len() <= usize::MAX,
        vals.to_multiset() == samples.map_values(|s: (Exact, Exact)| s.0).to_multiset(),
        forall|i: int, j: int|
            0 <= i <= j < vals.len() ==> (#[trigger] vals[i]).v <= (#[trigger] vals[j]).v,
        p == 5 || p == 25 || p == 50 || p == 75 || p == 95,
        0 <= k < samples.len() - 1,
        0 <= rest <= 100,
        p * (samples.len() - 1) == 100 * k + rest,
    ensures
        ({
            let s = s_summary(samples, draws);
            let x = if p == 5 {
                s.p05
            } else if p == 25 {
                s.p25
            } else if p == 50 {
                s.p50
            } else if p == 75 {
                s.p75
            } else {
                s.p95
            };
            let t = rest as real / 100real;
            &&& x.v == vals[k].v * (1real - t) + vals[k + 1].v * t
            &&& s.min == vals[0]
            &&& s.max == vals[vals.len() - 1]
        }),
{
    broadcast use vstd::seq_lib::group_to_multiset_ensures;

    let raw = values_of(samples);
    assert(raw =~= samples.map_values(|s: (Exact, Exact)| s.0));
    lemma_sorted_values(raw);
    lemma_ascending_unique(vals, sorted_values(raw));
    assert(raw.to_multiset().len() == raw.len() && vals.to_multiset().len() == vals.len());
    let n = (samples.len() - 1) as real;
    let t = rest as real / 100real;
    let q = s_hundredths::<Exact>(p as u64);
    let (rp, rk, rr) = (p as real, k as real, rest as real);
    assert((p * (samples.len() - 1)) as real == rp * n) by (nonlinear_arith)
        requires
            rp == p as real,
            n == (samples.len() - 1) as real,
    ;
    assert((100 * k + rest) as real == 100real * rk + rr);
    assert(q.v * n == rk + t) by (nonlinear_arith)
        requires
            q.v == rp / 100real,
            t == rr / 100real,
            rp * n == 100real * rk + rr,
    ;
    assert(0real <= t <= 1real) by (nonlinear_arith)
        requires
            t == rr / 100real,
            0real <= rr <= 100real,
    ;
    law_percentile_interpolates(vals, q, k, t);
}

/// A summary counts its samples and gives their weighted mean; of no samples it gives zeros.
pub proof fn law_summary_counts_its_samples<S: Numbers>(samples: Seq<(S, S)>, draws: Seq<u64>)
    requires
        samples.len() <= usize::MAX,
    ensures
        s_summary(samples, draws).n == samples.len(),
        s_summary(samples, draws).weighted_mean == s_weighted_mean(samples),
        samples.len() == 0 ==> ({
            let s = s_summary(samples, draws);
            let zero = S::s_of(0);
            &&& s.ci95 == (zero, zero)
            &&& s.min == zero
            &&& s.p05 == zero
            &&& s.p25 == zero
            &&& s.p50 == zero
            &&& s.p75 == zero
            &&& s.p95 == zero
            &&& s.max == zero
        }),
{
    lemma_sorted_values(values_of(samples));
}

/// In exact arithmetic a summary's interval is the 95% interval over two thousand resamples: in
/// ascending order it goes from a fortieth before the mean at place 50 to a fortieth behind the mean
/// as far from the end.
#[verifier::spinoff_prover]
pub proof fn law_summary_interval_is_at_95_percent(
    samples: Seq<(Exact, Exact)>,
    draws: Seq<u64>,
    means: Seq<Exact>,
)
    requires
        samples.len() > 0,
        means.to_multiset() == resample_means(samples, 2000, draws).to_multiset(),
        forall|i: int, j: int|
            0 <= i <= j < means.len() ==> (#[trigger] means[i]).v <= (#[trigger] means[j]).v,
    ensures
        ({
            let (lo, hi) = s_summary(samples, draws).ci95;
            &&& means.len() == 2000
            &&& lo.v * 40real == means[49].v + 39real * means[50].v
            &&& hi.v * 40real == means[1950].v + 39real * means[1949].v
        }),
{
    let alpha = s_hundredths::<Exact>(5);
    let t = 39real / 40real;
    assert(alpha.v == 5real / 100real);
    assert(alpha.v * 1999real == 2real * (49real + t)) by (nonlinear_arith)
        requires
            alpha.v == 5real / 100real,
            t == 39real / 40real,
    ;
    law_interval_leaves_out_the_tails(samples, 2000, alpha, draws, means, 49, t);
    let (a, b, c, d) = (means[49].v, means[50].v, means[1950].v, means[1949].v);
    assert((a * (1real - t) + b * t) * 40real == a + 39real * b) by (nonlinear_arith)
        requires
            t == 39real / 40real,
    ;
    assert((c * (1real - t) + d * t) * 40real == c + 39real * d) by (nonlinear_arith)
        requires
            t == 39real / 40real,
    ;
}

/// Giving one sample more weight adds to the totals of samples picked from it and the others, at the
/// sample's own value.
#[verifier::spinoff_prover]
proof fn lemma_more_weight(
    samples: Seq<(Exact, Exact)>,
    i: int,
    more: real,
    at: Seq<int>,
    before: Seq<(Exact, Exact)>,
    after: Seq<(Exact, Exact)>,
) -> (x: real)
    requires
        0 <= i < samples.len(),
        more > 0real,
        before.len() == at.len() == after.len(),
        forall|j: int| 0 <= j < at.len() ==> 0 <= #[trigger] at[j] < samples.len(),
        forall|j: int| 0 <= j < at.len() ==> #[trigger] before[j] == samples[at[j]],
        forall|j: int|
            0 <= j < at.len() ==> #[trigger] after[j] == samples.update(
                i,
                (samples[i].0, Exact { v: samples[i].1.v + more }),
            )[at[j]],
    ensures
        x >= 0real,
        at.contains(i) ==> x > 0real,
        !at.contains(i) ==> x == 0real,
        s_totals(after).0.v == s_totals(before).0.v + x,
        s_totals(after).1.v == s_totals(before).1.v + x * samples[i].0.v,
    decreases at.len(),
{
    let v = samples[i].0.v;
    if at.len() == 0 {
        assert(0real * v == 0real) by (nonlinear_arith);
        0real
    } else {
        let (a, b, c) = (at.drop_last(), before.drop_last(), after.drop_last());
        let last = at.len() - 1;
        assert forall|j: int| 0 <= j < a.len() implies 0 <= #[trigger] a[j] < samples.len() by {
            assert(a[j] == at[j]);
        }
        assert forall|j: int| 0 <= j < a.len() implies #[trigger] b[j] == samples[a[j]] by {
            assert(b[j] == before[j]);
        }
        assert forall|j: int| 0 <= j < a.len() implies #[trigger] c[j] == samples.update(
            i,
            (samples[i].0, Exact { v: samples[i].1.v + more }),
        )[a[j]] by {
            assert(c[j] == after[j]);
        }
        let y = lemma_more_weight(samples, i, more, a, b, c);
        let w = before[last].1.v;
        assert(before[last] == samples[at[last]]);
        if a.contains(i) {
            let k = choose|k: int| 0 <= k < a.len() && a[k] == i;
            assert(at[k] == i);
        }
        if at[last] == i {
            assert(after[last] == (samples[i].0, Exact { v: samples[i].1.v + more }));
            assert(at.contains(i));
            assert((w + more) * v == w * v + more * v) by (nonlinear_arith);
            assert((y + more) * v == y * v + more * v) by (nonlinear_arith);
            y + more
        } else {
            assert(after[last] == samples[at[last]]);
            if at.contains(i) {
                let k = choose|k: int| 0 <= k < at.len() && at[k] == i;
                assert(a[k] == i);
            }
            y
        }
    }
}

/// In exact arithmetic a sample that is given more weight pulls the mean of every resample that
/// picked it towards its own value, and leaves the others alone.
#[verifier::spinoff_prover]
pub proof fn law_weight_pulls_the_resamples(
    samples: Seq<(Exact, Exact)>,
    resamples: nat,
    draws: Seq<u64>,
    i: int,
    more: real,
    k: int,
)
    requires
        0 <= i < samples.len(),
        0 <= k < resamples,
        more > 0real,
        forall|j: int| 0 <= j < samples.len() ==> (#[trigger] samples[j]).1.v > 0real,
    ensures
        ({
            let heavier = samples.update(i, (samples[i].0, Exact { v: samples[i].1.v + more }));
            let v = samples[i].0.v;
            let before = resample_means(samples, resamples, draws)[k].v;
            let after = resample_means(heavier, resamples, draws)[k].v;
            let picked = exists|j: int|
                #![trigger draws[k * samples.len() + j]]
                0 <= j < samples.len() && draws[k * samples.len() + j] as int % samples.len() as int
                    == i;
            &&& !picked ==> after == before
            &&& before < v ==> before <= after < v && (picked ==> before < after)
            &&& before > v ==> v < after <= before && (picked ==> after < before)
            &&& before == v ==> after == v
        }),
{
    let heavier = samples.update(i, (samples[i].0, Exact { v: samples[i].1.v + more }));
    let n = samples.len();
    let at = Seq::new(n, |j: int| draws[k * n + j] as int % n as int);
    let (p, q) = (resample(samples, draws, k), resample(heavier, draws, k));
    assert forall|j: int| 0 <= j < n implies 0 <= #[trigger] at[j] < n by {
        assert(at[j] == draws[k * n + j] as int % n as int);
    }
    let x = lemma_more_weight(samples, i, more, at, p, q);
    assert forall|j: int| 0 <= j < n implies (#[trigger] p[j]).1.v > 0real by {
        assert(samples[at[j]].1.v > 0real);
    }
    lemma_weight_is_positive(p);
    let (w, t, v) = (s_totals(p).0.v, s_totals(p).1.v, samples[i].0.v);
    let (m, r) = (t / w, (t + x * v) / (w + x));
    assert(m * w == t) by (nonlinear_arith)
        requires
            m == t / w,
            w > 0real,
    ;
    assert((v - r) * (w + x) == (v - m) * w) by (nonlinear_arith)
        requires
            m * w == t,
            r == (t + x * v) / (w + x),
            w > 0real,
            x >= 0real,
    ;
    assert(m < v ==> m <= r < v && (x > 0real ==> m < r)) by (nonlinear_arith)
        requires
            (v - r) * (w + x) == (v - m) * w,
            w > 0real,
            x >= 0real,
    ;
    assert(m > v ==> v < r <= m && (x > 0real ==> r < m)) by (nonlinear_arith)
        requires
            (v - r) * (w + x) == (v - m) * w,
            w > 0real,
            x >= 0real,
    ;
    assert(m == v ==> r == v) by (nonlinear_arith)
        requires
            (v - r) * (w + x) == (v - m) * w,
            w > 0real,
            x >= 0real,
    ;
    if x == 0real {
        assert(t + 0real * v == t) by (nonlinear_arith);
    }
    if exists|j: int|
        #![trigger draws[k * samples.len() + j]]
        0 <= j < samples.len() && draws[k * samples.len() + j] as int % samples.len() as int == i {
        let j = choose|j: int|
            #![trigger draws[k * samples.len() + j]]
            0 <= j < samples.len() && draws[k * samples.len() + j] as int % samples.len() as int
                == i;
        assert(at[j] == i);
    } else if at.contains(i) {
        let j = choose|j: int| 0 <= j < at.len() && at[j] == i;
        assert(draws[k * samples.len() + j] as int % samples.len() as int == i);
    }
}

} // verus!
