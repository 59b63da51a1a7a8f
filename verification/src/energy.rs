//! The energy under a power trace, in exact numbers: what a trapezoidal integration sums
//! up to, rounding aside.
use vstd::prelude::*;

use crate::power::{
    in_order, inner_indices, inside, integrable, integration_error, is_integration,
    law_ordered_trace_is_integrable, law_reading_is_unique, lemma_inner_indices,
    lemma_inner_indices_increase, lemma_inside_is_selected, lemma_point_reads, reads_at, selected_times, PowerIntegration,
    PowerSample, Reading, Span,
};

verus! {

/// Whether the samples are in the order of their times, no two at the same time.
pub open spec fn strictly_in_order(samples: Seq<PowerSample>) -> bool {
    forall|i: int, j: int|
        0 <= i < j < samples.len() ==> (#[trigger] samples[i]).wall_ns < (
        #[trigger] samples[j]).wall_ns
}

/// The power that a reading stands for, in milliwatts.
pub open spec fn power_of(samples: Seq<PowerSample>, reading: Reading) -> real {
    match reading {
        Reading::At(i) => samples[i as int].milliwatts as real,
        Reading::Between { index, elapsed_ns, span_ns } => {
            let before = samples[index as int].milliwatts as real;
            let after = samples[index + 1].milliwatts as real;
            before + (elapsed_ns as real) / (span_ns as real) * (after - before)
        },
    }
}

/// The energy under one line, in picojoules: the mean of the powers at its ends times its
/// length.
pub open spec fn trapezoid(samples: Seq<PowerSample>, span: Span) -> real {
    (power_of(samples, span.from) + power_of(samples, span.to)) * (span.gap_ns as real) / (
    2 as real)
}

/// The energy under some lines, in picojoules.
pub open spec fn energy(samples: Seq<PowerSample>, spans: Seq<Span>) -> real
    decreases spans.len(),
{
    if spans.len() == 0 {
        0 as real
    } else {
        energy(samples, spans.drop_last()) + trapezoid(samples, spans.last())
    }
}

/// The energy from the first sample to sample `k`, in picojoules.
spec fn up_to_sample(samples: Seq<PowerSample>, k: int) -> real
    decreases k,
{
    if k <= 0 {
        0 as real
    } else {
        up_to_sample(samples, k - 1) + ((samples[k - 1].milliwatts as real) + (
        samples[k].milliwatts as real)) * ((samples[k].wall_ns
            - samples[k - 1].wall_ns) as real) / (2 as real)
    }
}

/// The energy from the first sample to a reading, in picojoules.
spec fn up_to(samples: Seq<PowerSample>, reading: Reading) -> real {
    match reading {
        Reading::At(i) => up_to_sample(samples, i as int),
        Reading::Between { index, elapsed_ns, .. } => up_to_sample(samples, index as int) + ((
        samples[index as int].milliwatts as real) + power_of(samples, reading)) * (
        elapsed_ns as real) / (2 as real),
    }
}

proof fn lemma_times_sum(a: real, b: real, c: real)
    by (nonlinear_arith)
    ensures
        a * (b + c) == a * b + a * c,
        (b + c) * a == a * b + a * c,
{
}

proof fn lemma_times_difference(a: real, b: real, c: real)
    by (nonlinear_arith)
    ensures
        a * (b - c) == a * b - a * c,
{
}

proof fn lemma_times_in_any_order(a: real, b: real, c: real)
    by (nonlinear_arith)
    ensures
        (a * b) * c == (a * c) * b,
        a * b == b * a,
{
}

proof fn lemma_quotient(e: real, d: real)
    by (nonlinear_arith)
    requires
        d > 0 as real,
    ensures
        e / d * d == e,
{
}

/// Of two points on the line from `p` to `q`, `e` and `f` of `d` along: the trapezoid
/// between them is what the trapezoid from `p` to the one has over that to the other.
proof fn lemma_line_splits(p: real, q: real, d: real, e: real, f: real)
    requires
        d > 0 as real,
    ensures
        ((p + e / d * (q - p)) + (p + f / d * (q - p))) * (f - e) == (p + (p + f / d * (q - p)))
            * f - (p + (p + e / d * (q - p))) * e,
{
    let (l, m, slope) = (e / d, f / d, q - p);
    let (a, b) = (p + l * slope, p + m * slope);
    lemma_quotient(e, d);
    lemma_quotient(f, d);
    lemma_times_in_any_order(m, d, l);
    lemma_times_in_any_order(l, d, m);
    lemma_times_in_any_order(m, l, d);
    assert(f * l == e * m);
    lemma_times_in_any_order(f, l, slope);
    lemma_times_in_any_order(e, m, slope);
    lemma_times_in_any_order(l, slope, f);
    lemma_times_in_any_order(m, slope, e);
    lemma_times_in_any_order(l * slope, f, 0 as real);
    lemma_times_in_any_order(m * slope, e, 0 as real);
    lemma_times_in_any_order(l, f, 0 as real);
    lemma_times_in_any_order(m, e, 0 as real);
    assert(f * (l * slope) == e * (m * slope));
    lemma_times_sum(f, p, l * slope);
    lemma_times_sum(e, p, m * slope);
    assert(f * a - f * p == e * b - e * p);
    lemma_times_difference(a + b, f, e);
    lemma_times_sum(f, a, b);
    lemma_times_sum(e, a, b);
    lemma_times_sum(f, p, b);
    lemma_times_sum(e, p, a);
}

proof fn lemma_whole(d: real)
    by (nonlinear_arith)
    requires
        d > 0 as real,
    ensures
        d / d == 1 as real,
{
}

proof fn lemma_times_one(a: real)
    by (nonlinear_arith)
    ensures
        (1 as real) * a == a,
{
}

/// The trapezoid between two readings without a sample between them is what the energy up
/// to the one has over that up to the other.
proof fn lemma_trapezoid(samples: Seq<PowerSample>, a: Reading, b: Reading, s: u64, t: u64)
    requires
        strictly_in_order(samples),
        reads_at(samples, a, s),
        reads_at(samples, b, t),
        s < t,
        forall|i: int|
            0 <= i < samples.len() ==> !(s < (#[trigger] samples[i]).wall_ns
                && samples[i].wall_ns < t),
    ensures
        (power_of(samples, a) + power_of(samples, b)) * ((t - s) as real) / (2 as real) == up_to(
            samples,
            b,
        ) - up_to(samples, a),
{
    match (a, b) {
        (Reading::At(i), Reading::At(j)) => {
            let (i, j) = (i as int, j as int);
            assert(i < j) by {
                if j < i {
                    assert(samples[j].wall_ns < samples[i].wall_ns);
                }
            }
            if j > i + 1 {
                assert(samples[i].wall_ns < samples[i + 1].wall_ns);
                assert(samples[i + 1].wall_ns < samples[j].wall_ns);
            }
            assert(j == i + 1);
        },
        (Reading::At(i), Reading::Between { index, elapsed_ns, span_ns }) => {
            let (i, k) = (i as int, index as int);
            if k < i {
                if k + 1 < i {
                    assert(samples[k + 1].wall_ns < samples[i].wall_ns);
                }
            } else if k > i {
                assert(samples[i].wall_ns < samples[k].wall_ns);
            }
            assert(k == i);
        },
        (Reading::Between { index, elapsed_ns, span_ns }, Reading::At(j)) => {
            let (k, j) = (index as int, j as int);
            if j <= k {
                if j < k {
                    assert(samples[j].wall_ns < samples[k].wall_ns);
                }
            } else if j > k + 1 {
                assert(samples[k + 1].wall_ns < samples[j].wall_ns);
            }
            assert(j == k + 1);
            let (p, q) = (samples[k].milliwatts as real, samples[k + 1].milliwatts as real);
            let (d, e) = (span_ns as real, elapsed_ns as real);
            lemma_line_splits(p, q, d, e, d);
            lemma_whole(d);
            lemma_times_one(q - p);
            assert((t - s) as real == d - e);
        },
        (
            Reading::Between { index: k, elapsed_ns: e, span_ns: d },
            Reading::Between { index: l, elapsed_ns: f, span_ns: _ },
        ) => {
            let (i, j) = (k as int, l as int);
            if j < i {
                if j + 1 < i {
                    assert(samples[j + 1].wall_ns < samples[i].wall_ns);
                }
            } else if j > i {
                if i + 1 < j {
                    assert(samples[i + 1].wall_ns < samples[j].wall_ns);
                }
                assert(!(s < samples[i + 1].wall_ns && samples[i + 1].wall_ns < t));
            }
            assert(i == j);
            let (p, q) = (samples[i].milliwatts as real, samples[i + 1].milliwatts as real);
            lemma_line_splits(p, q, d as real, e as real, f as real);
            assert((t - s) as real == (f as real) - (e as real));
        },
    }
}

/// Selected points of a strictly ordered trace follow each other in time, and no sample
/// lies between two neighbours.
proof fn lemma_selected_points(samples: Seq<PowerSample>, start: u64, end: u64)
    requires
        samples.len() <= usize::MAX,
        strictly_in_order(samples),
        start < end,
    ensures
        forall|i: int, j: int|
            0 <= i < j < selected_times(samples, start, end).len() ==> selected_times(
                samples,
                start,
                end,
            )[i] < selected_times(samples, start, end)[j],
        forall|i: int, k: int|
            0 <= i < selected_times(samples, start, end).len() - 1 && 0 <= k < samples.len()
                ==> !(#[trigger] selected_times(samples, start, end)[i] < (
            #[trigger] samples[k]).wall_ns && samples[k].wall_ns < selected_times(
                samples,
                start,
                end,
            )[i + 1]),
{
    let inner = inner_indices(samples, start, end);
    let times = selected_times(samples, start, end);
    lemma_inner_indices(samples, start, end);
    lemma_inner_indices_increase(samples, start, end);
    assert forall|i: int, j: int| 0 <= i < j < times.len() implies times[i] < times[j] by {
        if 0 < i {
            assert(times[i] == samples[inner[i - 1] as int].wall_ns);
            assert(inside(samples[inner[i - 1] as int], start, end));
        }
        if j <= inner.len() {
            assert(times[j] == samples[inner[j - 1] as int].wall_ns);
            assert(inside(samples[inner[j - 1] as int], start, end));
        }
        if 0 < i && j <= inner.len() {
            assert(inner[i - 1] < inner[j - 1]);
        }
    }
    assert forall|i: int, k: int|
        0 <= i < times.len() - 1 && 0 <= k < samples.len() implies !(#[trigger] times[i] < (
    #[trigger] samples[k]).wall_ns && samples[k].wall_ns < times[i + 1]) by {
        if times[i] < samples[k].wall_ns && samples[k].wall_ns < times[i + 1] {
            let last = times.len() - 1;
            assert(times[0] == start && times[last] == end);
            assert(i == 0 || times[0] < times[i]);
            assert(i + 1 == last || times[i + 1] < times[last]);
            assert(inside(samples[k], start, end));
            lemma_inside_is_selected(samples, start, end, k);
            let m = choose|m: int| 0 <= m < inner.len() && #[trigger] inner[m] == k;
            assert(times[m + 1] == samples[k].wall_ns);
            if m + 1 < i {
                assert(times[m + 1] < times[i]);
            } else if i + 1 < m + 1 {
                assert(times[i + 1] < times[m + 1]);
            }
        }
    }
}

/// The energy under the first lines of an integration is what lies up to their end, less
/// what lies up to its start.
proof fn lemma_energy_telescopes(
    samples: Seq<PowerSample>,
    start: u64,
    end: u64,
    p: PowerIntegration,
    k: int,
)
    requires
        samples.len() <= usize::MAX,
        strictly_in_order(samples),
        start < end,
        is_integration(samples, start, end, p),
        0 <= k <= p.gaps_ns@.len(),
    ensures
        energy(samples, p.lines().take(k)) == up_to(samples, p.point(k)) - up_to(
            samples,
            p.point(0),
        ),
    decreases k,
{
    if k > 0 {
        let times = selected_times(samples, start, end);
        let lines = p.lines().take(k);
        lemma_energy_telescopes(samples, start, end, p, k - 1);
        assert(lines.drop_last() =~= p.lines().take(k - 1));
        lemma_selected_points(samples, start, end);
        lemma_point_reads(samples, start, end, p, k - 1);
        lemma_point_reads(samples, start, end, p, k);
        let (s, t) = (times[k - 1], times[k]);
        assert forall|i: int| 0 <= i < samples.len() implies !(s < (
        #[trigger] samples[i]).wall_ns && samples[i].wall_ns < t) by {
            assert(!(times[k - 1] < samples[i].wall_ns && samples[i].wall_ns < times[k - 1 + 1]));
        }
        lemma_trapezoid(samples, p.point(k - 1), p.point(k), s, t);
        assert(p.gaps_ns@[k - 1] == times[k - 1 + 1] - times[k - 1]);
    }
}

/// The energies over two windows that meet add up to the energy over both. If a strictly
/// ordered trace can be integrated from `start` to `mid` and from `mid` to `end`, it can be
/// integrated from `start` to `end`; the readings at the three markers agree, and so do,
/// rounding aside, the energies.
pub proof fn law_energies_add_up(
    samples: Seq<PowerSample>,
    start: u64,
    mid: u64,
    end: u64,
    first: PowerIntegration,
    second: PowerIntegration,
    whole: PowerIntegration,
)
    requires
        samples.len() <= usize::MAX,
        strictly_in_order(samples),
        integration_error(samples, start, mid) is None,
        integration_error(samples, mid, end) is None,
        is_integration(samples, start, mid, first),
        is_integration(samples, mid, end, second),
    ensures
        integration_error(samples, start, end) is None,
        integrable(samples, start, end),
        first.boundary_end == second.boundary_start,
        is_integration(samples, start, end, whole) ==> {
            &&& whole.boundary_start == first.boundary_start
            &&& whole.boundary_end == second.boundary_end
            &&& energy(samples, whole.lines()) == energy(samples, first.lines()) + energy(
                samples,
                second.lines(),
            )
        },
{
    assert(in_order(samples)) by {
        assert forall|i: int, j: int| 0 <= i <= j < samples.len() implies (
        #[trigger] samples[i]).wall_ns <= (#[trigger] samples[j]).wall_ns by {}
    }
    law_ordered_trace_is_integrable(samples, start, end);
    law_reading_is_unique(samples, mid, first.boundary_end, second.boundary_start);
    lemma_energy_of(samples, start, mid, first);
    lemma_energy_of(samples, mid, end, second);
    if is_integration(samples, start, end, whole) {
        law_reading_is_unique(samples, start, whole.boundary_start, first.boundary_start);
        law_reading_is_unique(samples, end, whole.boundary_end, second.boundary_end);
        lemma_energy_of(samples, start, end, whole);
    }
}

proof fn lemma_energy_of(samples: Seq<PowerSample>, start: u64, end: u64, p: PowerIntegration)
    requires
        samples.len() <= usize::MAX,
        strictly_in_order(samples),
        start < end,
        is_integration(samples, start, end, p),
    ensures
        energy(samples, p.lines()) == up_to(samples, p.boundary_end) - up_to(
            samples,
            p.boundary_start,
        ),
{
    let k = p.gaps_ns@.len() as int;
    lemma_energy_telescopes(samples, start, end, p, k);
    assert(p.lines().take(k) =~= p.lines());
}

} // verus!
