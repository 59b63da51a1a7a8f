//! Board-power traces: reading a trace at a marker, the window that a trapezoidal
//! integration runs over, and the trace as text.
use vstd::prelude::*;

use crate::text::{
    decimal, decimal_text, digit_char, digit_text, lemma_read_decimal, read_digits, IntegerError,
};

verus! {

/// One reading of the board power.
#[derive(Clone, Copy, Debug, PartialEq, Eq, Structural)]
pub struct PowerSample {
    pub wall_ns: u64,
    pub milliwatts: u32,
}

/// How the power at a marker follows from the samples.
#[derive(Clone, Copy, Debug, PartialEq, Eq, Structural)]
pub enum Reading {
    /// It is that of the sample with this index.
    At(usize),
    /// It lies on the line from the sample with this index to the next one,
    /// `elapsed_ns` of `span_ns` along.
    Between { index: usize, elapsed_ns: u64, span_ns: u64 },
}

/// Why a trace cannot be integrated.
#[derive(Clone, Copy, Debug, PartialEq, Eq, Structural)]
pub enum PowerError {
    /// The window is empty.
    Interval,
    /// There are fewer than two samples.
    TooFewSamples,
    /// No sample is taken at this marker, and no two neighbours lie around it.
    NotBracketed(u64),
}

/// Whether a sample is taken exactly at `target`.
pub open spec fn sampled_at(samples: Seq<PowerSample>, target: u64) -> bool {
    exists|i: int| 0 <= i < samples.len() && #[trigger] samples[i].wall_ns == target
}

/// Whether `target` lies between sample `i` and the next one.
pub open spec fn straddles(samples: Seq<PowerSample>, i: int, target: u64) -> bool {
    &&& 0 <= i < samples.len() - 1
    &&& samples[i].wall_ns < target
    &&& target < samples[i + 1].wall_ns
}

/// Whether the power at `target` can be read off the samples.
pub open spec fn bracketed(samples: Seq<PowerSample>, target: u64) -> bool {
    sampled_at(samples, target) || exists|i: int| #[trigger] straddles(samples, i, target)
}

/// The reading at `target`: the first sample taken then, or else the first two
/// neighbours around it.
pub open spec fn is_reading(samples: Seq<PowerSample>, target: u64, reading: Reading) -> bool {
    match reading {
        Reading::At(i) => {
            &&& i < samples.len()
            &&& samples[i as int].wall_ns == target
            &&& forall|j: int| 0 <= j < i ==> #[trigger] samples[j].wall_ns != target
        },
        Reading::Between { index, elapsed_ns, span_ns } => {
            &&& !sampled_at(samples, target)
            &&& straddles(samples, index as int, target)
            &&& forall|j: int| 0 <= j < index ==> !(#[trigger] straddles(samples, j, target))
            &&& elapsed_ns == target - samples[index as int].wall_ns
            &&& span_ns == samples[index + 1].wall_ns - samples[index as int].wall_ns
        },
    }
}

/// Finds how the power at `target` follows from the samples.
pub fn interpolate_power(samples: &Vec<PowerSample>, target: u64) -> (r: Result<
    Reading,
    PowerError,
>)
    ensures
        match r {
            Ok(reading) => is_reading(samples@, target, reading),
            Err(e) => e == PowerError::NotBracketed(target) && !bracketed(samples@, target),
        },
{
    let mut i: usize = 0;
    while i < samples.len()
        invariant
            i <= samples.len(),
            forall|j: int| 0 <= j < i ==> #[trigger] samples[j].wall_ns != target,
        decreases samples.len() - i,
    {
        if samples[i].wall_ns == target {
            return Ok(Reading::At(i));
        }
        i += 1;
    }
    assert(!sampled_at(samples@, target));
    let mut k: usize = 1;
    while k < samples.len()
        invariant
            1 <= k,
            !sampled_at(samples@, target),
            forall|j: int| 0 <= j < k - 1 ==> !(#[trigger] straddles(samples@, j, target)),
        decreases samples.len() - k,
    {
        let before = samples[k - 1].wall_ns;
        let after = samples[k].wall_ns;
        if before < target && target < after {
            assert(straddles(samples@, k - 1, target));
            return Ok(
                Reading::Between {
                    index: k - 1,
                    elapsed_ns: target - before,
                    span_ns: after - before,
                },
            );
        }
        k += 1;
    }
    Err(PowerError::NotBracketed(target))
}

/// Whether a sample lies strictly inside the window.
pub open spec fn inside(sample: PowerSample, start: u64, end: u64) -> bool {
    start < sample.wall_ns && sample.wall_ns < end
}

/// The indices of the samples strictly inside the window, in their order.
pub open spec fn inner_indices(samples: Seq<PowerSample>, start: u64, end: u64) -> Seq<usize>
    decreases samples.len(),
{
    if samples.len() == 0 {
        Seq::empty()
    } else {
        let before = inner_indices(samples.drop_last(), start, end);
        if inside(samples.last(), start, end) {
            before.push((samples.len() - 1) as usize)
        } else {
            before
        }
    }
}

/// The times that an integration runs over: the start of the window, the samples
/// inside it, and its end.
pub open spec fn selected_times(samples: Seq<PowerSample>, start: u64, end: u64) -> Seq<u64> {
    seq![start] + inner_indices(samples, start, end).map_values(
        |i: usize| samples[i as int].wall_ns,
    ) + seq![end]
}

/// Whether the times never go back.
pub open spec fn ordered(times: Seq<u64>) -> bool {
    forall|i: int, j: int| 0 <= i <= j < times.len() ==> times[i] <= times[j]
}

/// Why the samples cannot be integrated over a window.
pub open spec fn integration_error(
    samples: Seq<PowerSample>,
    start: u64,
    end: u64,
) -> Option<PowerError> {
    if start >= end {
        Some(PowerError::Interval)
    } else if samples.len() < 2 {
        Some(PowerError::TooFewSamples)
    } else if !bracketed(samples, start) {
        Some(PowerError::NotBracketed(start))
    } else if !bracketed(samples, end) {
        Some(PowerError::NotBracketed(end))
    } else {
        None
    }
}

/// Whether an integration has an outcome: it is refused, or the samples inside the
/// window never go back in time.
pub open spec fn integrable(samples: Seq<PowerSample>, start: u64, end: u64) -> bool {
    integration_error(samples, start, end) is Some || ordered(selected_times(samples, start, end))
}

/// The window of an integration.
#[derive(Debug)]
pub struct PowerIntegration {
    /// The power at the start of the window.
    pub boundary_start: Reading,
    /// The power at its end.
    pub boundary_end: Reading,
    /// The samples inside the window.
    pub inner: Vec<usize>,
    /// The times from each selected point to the next.
    pub gaps_ns: Vec<u64>,
    /// The number of selected points, with both ends of the window.
    pub sample_count: usize,
    pub max_gap_ns: u64,
}

/// What an integration sums over: the line from one selected point to the next.
#[derive(Clone, Copy, Debug, PartialEq, Eq, Structural)]
pub struct Span {
    /// The power where it begins.
    pub from: Reading,
    /// The power where it ends.
    pub to: Reading,
    /// Its length.
    pub gap_ns: u64,
}

impl PowerIntegration {
    /// There is a gap between each selected point and the next.
    pub open spec fn wf(self) -> bool {
        self.gaps_ns@.len() == self.inner@.len() + 1
    }

    /// The power at selected point `i`: the ends of the window are the first and the last
    /// of them.
    pub open spec fn point(self, i: int) -> Reading {
        if i <= 0 {
            self.boundary_start
        } else if i <= self.inner@.len() {
            Reading::At(self.inner@[i - 1])
        } else {
            self.boundary_end
        }
    }

    /// The lines from each selected point to the next.
    pub open spec fn lines(self) -> Seq<Span> {
        Seq::new(
            self.gaps_ns@.len(),
            |i: int|
                Span { from: self.point(i), to: self.point(i + 1), gap_ns: self.gaps_ns@[i] },
        )
    }

    /// The lines that the integration sums over, in their order.
    pub fn spans(&self) -> (r: Vec<Span>)
        requires
            self.wf(),
        ensures
            r@ == self.lines(),
    {
        let mut r: Vec<Span> = Vec::new();
        let mut from = self.boundary_start;
        let mut i: usize = 0;
        while i < self.gaps_ns.len()
            invariant
                i <= self.gaps_ns.len(),
                self.wf(),
                from == self.point(i as int),
                r@ == self.lines().take(i as int),
            decreases self.gaps_ns.len() - i,
        {
            let to = if i < self.inner.len() {
                Reading::At(self.inner[i])
            } else {
                self.boundary_end
            };
            r.push(Span { from, to, gap_ns: self.gaps_ns[i] });
            from = to;
            i += 1;
            assert(r@ =~= self.lines().take(i as int));
        }
        assert(self.lines().take(i as int) =~= self.lines());
        r
    }
}

/// Whether `max` is the largest of the gaps.
pub open spec fn is_largest(gaps: Seq<u64>, max: u64) -> bool {
    &&& exists|i: int| 0 <= i < gaps.len() && #[trigger] gaps[i] == max
    &&& forall|i: int| 0 <= i < gaps.len() ==> #[trigger] gaps[i] <= max
}

/// Whether the gaps are the differences of successive times.
pub open spec fn are_gaps(gaps: Seq<u64>, times: Seq<u64>) -> bool {
    &&& gaps.len() == times.len() - 1
    &&& forall|i: int| 0 <= i < gaps.len() ==> #[trigger] gaps[i] == times[i + 1] - times[i]
}

/// Whether `p` is the integration of the samples over the window.
pub open spec fn is_integration(
    samples: Seq<PowerSample>,
    start: u64,
    end: u64,
    p: PowerIntegration,
) -> bool {
    &&& is_reading(samples, start, p.boundary_start)
    &&& is_reading(samples, end, p.boundary_end)
    &&& p.inner@ == inner_indices(samples, start, end)
    &&& are_gaps(p.gaps_ns@, selected_times(samples, start, end))
    &&& p.sample_count == selected_times(samples, start, end).len()
    &&& is_largest(p.gaps_ns@, p.max_gap_ns)
}

pub proof fn lemma_inner_indices(samples: Seq<PowerSample>, start: u64, end: u64)
    requires
        samples.len() <= usize::MAX,
    ensures
        inner_indices(samples, start, end).len() <= samples.len(),
        forall|k: int|
            0 <= k < inner_indices(samples, start, end).len() ==> {
                let i = #[trigger] inner_indices(samples, start, end)[k];
                i < samples.len() && inside(samples[i as int], start, end)
            },
    decreases samples.len(),
{
    if samples.len() > 0 {
        let shorter = samples.drop_last();
        lemma_inner_indices(shorter, start, end);
        let all = inner_indices(samples, start, end);
        let before = inner_indices(shorter, start, end);
        assert forall|k: int| 0 <= k < all.len() implies {
            let i = #[trigger] all[k];
            i < samples.len() && inside(samples[i as int], start, end)
        } by {
            if k < before.len() {
                assert(all[k] == before[k]);
                assert(samples[before[k] as int] == shorter[before[k] as int]);
            }
        }
    }
}

/// The samples strictly inside the window.
fn select_inner(samples: &Vec<PowerSample>, start: u64, end: u64) -> (r: Vec<usize>)
    ensures
        r@ == inner_indices(samples@, start, end),
{
    let mut r: Vec<usize> = Vec::new();
    let mut i: usize = 0;
    while i < samples.len()
        invariant
            i <= samples.len(),
            r@ == inner_indices(samples@.take(i as int), start, end),
        decreases samples.len() - i,
    {
        let ghost upto = samples@.take(i + 1);
        assert(upto.drop_last() == samples@.take(i as int));
        if start < samples[i].wall_ns && samples[i].wall_ns < end {
            r.push(i);
        }
        i += 1;
    }
    assert(samples@.take(i as int) == samples@);
    r
}

/// The times that an integration runs over.
fn select_times(samples: &Vec<PowerSample>, inner: &Vec<usize>, start: u64, end: u64) -> (r: Vec<
    u64,
>)
    requires
        inner@ == inner_indices(samples@, start, end),
    ensures
        r@ == selected_times(samples@, start, end),
{
    proof {
        assert(samples.len() <= usize::MAX);
        lemma_inner_indices(samples@, start, end);
    }
    let ghost at = |i: usize| samples@[i as int].wall_ns;
    let mut r: Vec<u64> = Vec::new();
    r.push(start);
    let mut k: usize = 0;
    while k < inner.len()
        invariant
            k <= inner.len(),
            at == |i: usize| samples@[i as int].wall_ns,
            r@ == seq![start] + inner@.take(k as int).map_values(at),
            forall|j: int| 0 <= j < inner.len() ==> #[trigger] inner[j] < samples.len(),
        decreases inner.len() - k,
    {
        r.push(samples[inner[k]].wall_ns);
        assert(inner@.take(k + 1).map_values(at) == inner@.take(k as int).map_values(at).push(
            at(inner[k as int]),
        ));
        k += 1;
    }
    assert(inner@.take(k as int) == inner@);
    r.push(end);
    r
}

/// Whether an integration over the window has an outcome.
pub fn is_integrable(samples: &Vec<PowerSample>, start: u64, end: u64) -> (r: bool)
    ensures
        r == integrable(samples@, start, end),
{
    if start >= end || samples.len() < 2 {
        return true;
    }
    if interpolate_power(samples, start).is_err() {
        return true;
    }
    if interpolate_power(samples, end).is_err() {
        return true;
    }
    proof {
        lemma_readings_mean_bracketed(samples@, start);
        lemma_readings_mean_bracketed(samples@, end);
    }
    let inner = select_inner(samples, start, end);
    let times = select_times(samples, &inner, start, end);
    let mut i: usize = 1;
    while i < times.len()
        invariant
            1 <= i <= times.len(),
            times@ == selected_times(samples@, start, end),
            forall|j: int, k: int| 0 <= j <= k < i ==> times[j] <= times[k],
            integration_error(samples@, start, end) is None,
        decreases times.len() - i,
    {
        if times[i] < times[i - 1] {
            return false;
        }
        i += 1;
    }
    true
}

proof fn lemma_readings_mean_bracketed(samples: Seq<PowerSample>, target: u64)
    ensures
        forall|reading: Reading|
            #[trigger] is_reading(samples, target, reading) ==> bracketed(samples, target),
{
    assert forall|reading: Reading| #[trigger] is_reading(
        samples,
        target,
        reading,
    ) implies bracketed(samples, target) by {
        match reading {
            Reading::At(i) => {
                assert(samples[i as int].wall_ns == target);
            },
            Reading::Between { index, .. } => {
                assert(straddles(samples, index as int, target));
            },
        }
    }
}

/// Selects what a trapezoidal integration of the samples over the window from
/// `start` to `end` runs over.
pub fn integrate_power(samples: &Vec<PowerSample>, start: u64, end: u64) -> (r: Result<
    PowerIntegration,
    PowerError,
>)
    requires
        integrable(samples@, start, end),
    ensures
        match r {
            Ok(p) => {
                &&& integration_error(samples@, start, end) is None
                &&& is_integration(samples@, start, end, p)
                &&& p.wf()
            },
            Err(e) => integration_error(samples@, start, end) == Some(e),
        },
{
    if start >= end {
        return Err(PowerError::Interval);
    }
    if samples.len() < 2 {
        return Err(PowerError::TooFewSamples);
    }
    proof {
        lemma_readings_mean_bracketed(samples@, start);
        lemma_readings_mean_bracketed(samples@, end);
        lemma_inner_indices(samples@, start, end);
    }
    let boundary_start = match interpolate_power(samples, start) {
        Ok(reading) => reading,
        Err(e) => {
            return Err(e);
        },
    };
    let boundary_end = match interpolate_power(samples, end) {
        Ok(reading) => reading,
        Err(e) => {
            return Err(e);
        },
    };
    let inner = select_inner(samples, start, end);
    let times = select_times(samples, &inner, start, end);
    let mut gaps: Vec<u64> = Vec::new();
    let mut max: u64 = 0;
    let mut i: usize = 1;
    while i < times.len()
        invariant
            1 <= i <= times.len(),
            times.len() >= 2,
            ordered(times@),
            gaps.len() == i - 1,
            forall|j: int| 0 <= j < gaps.len() ==> #[trigger] gaps[j] == times[j + 1] - times[j],
            forall|j: int| 0 <= j < gaps.len() ==> #[trigger] gaps[j] <= max,
            max == 0 || exists|j: int| 0 <= j < gaps.len() && #[trigger] gaps[j] == max,
        decreases times.len() - i,
    {
        let gap: u64 = times[i] - times[i - 1];
        let ghost before = gaps@;
        gaps.push(gap);
        proof {
            assert(gaps@[i - 1] == gap);
            assert(forall|j: int| 0 <= j < before.len() ==> #[trigger] before[j] == gaps@[j]);
        }
        if gap > max {
            max = gap;
        }
        i += 1;
    }
    proof {
        assert(gaps@[0] <= max);
        if max == 0 {
            assert(gaps@[0] == max);
        }
    }
    Ok(
        PowerIntegration {
            boundary_start,
            boundary_end,
            inner,
            gaps_ns: gaps,
            sample_count: times.len(),
            max_gap_ns: max,
        },
    )
}

impl PowerError {
    /// The text of the error.
    pub open spec fn text(self) -> Seq<char> {
        match self {
            PowerError::Interval => "invalid power integration interval"@,
            PowerError::TooFewSamples => "need at least two power samples"@,
            PowerError::NotBracketed(target) => "power samples do not bracket marker "@ + decimal(
                target as nat,
            ),
        }
    }

    /// The text of the error, for people.
    pub fn message(&self) -> (r: String)
        ensures
            r@ == self.text(),
    {
        match self {
            PowerError::Interval => "invalid power integration interval".to_owned(),
            PowerError::TooFewSamples => "need at least two power samples".to_owned(),
            PowerError::NotBracketed(target) => {
                "power samples do not bracket marker ".to_owned().concat(
                    decimal_text(*target).as_str(),
                )
            },
        }
    }
}

/// The three digits of the thousandths of a power.
pub open spec fn thousandths_text(milliwatts: u32) -> Seq<char> {
    let rest = milliwatts as nat % 1000;
    seq![digit_char(rest / 100), digit_char(rest / 10 % 10), digit_char(rest % 10)]
}

/// A power in watts with six decimals.
pub open spec fn watts_text(milliwatts: u32) -> Seq<char> {
    decimal(milliwatts as nat / 1000) + "."@ + thousandths_text(milliwatts) + "000"@
}

/// One line of a trace.
pub open spec fn csv_row(sample: PowerSample, device_index: nat) -> Seq<char> {
    decimal(sample.wall_ns as nat) + ",nvidia,gpu"@ + decimal(device_index) + ","@ + watts_text(
        sample.milliwatts,
    ) + "\n"@
}

/// A trace as comma-separated values: a header, and a line for each sample.
pub open spec fn csv_text(samples: Seq<PowerSample>, device_index: nat) -> Seq<char>
    decreases samples.len(),
{
    if samples.len() == 0 {
        "wall_ns,backend,device,power_w\n"@
    } else {
        csv_text(samples.drop_last(), device_index) + csv_row(samples.last(), device_index)
    }
}

fn append_watts(out: &mut String, milliwatts: u32)
    ensures
        final(out)@ == old(out)@ + watts_text(milliwatts),
{
    let rest: u64 = (milliwatts % 1000) as u64;
    out.append(decimal_text((milliwatts / 1000) as u64).as_str());
    out.append(".");
    out.append(digit_text(rest / 100));
    out.append(digit_text(rest / 10 % 10));
    out.append(digit_text(rest % 10));
    out.append("000");
    assert(out@ =~= old(out)@ + watts_text(milliwatts));
}

/// Writes a trace as comma-separated values.
pub fn power_csv(samples: &Vec<PowerSample>, device_index: usize) -> (r: String)
    ensures
        r@ == csv_text(samples@, device_index as nat),
{
    let device = decimal_text(device_index as u64);
    let mut out = "wall_ns,backend,device,power_w\n".to_owned();
    let mut i: usize = 0;
    while i < samples.len()
        invariant
            i <= samples.len(),
            device@ == decimal(device_index as nat),
            out@ == csv_text(samples@.take(i as int), device_index as nat),
        decreases samples.len() - i,
    {
        let ghost before = out@;
        out.append(decimal_text(samples[i].wall_ns).as_str());
        out.append(",nvidia,gpu");
        out.append(device.as_str());
        out.append(",");
        append_watts(&mut out, samples[i].milliwatts);
        out.append("\n");
        proof {
            assert(out@ =~= before + csv_row(samples[i as int], device_index as nat));
            assert(samples@.take(i + 1).drop_last() == samples@.take(i as int));
        }
        i += 1;
    }
    assert(samples@.take(i as int) == samples@);
    out
}

proof fn lemma_read_one_more(s: Seq<char>, v: nat, d: nat, max: nat)
    requires
        read_digits(s, max) == Ok::<nat, IntegerError>(v),
        d < 10,
        v * 10 + d <= max,
    ensures
        read_digits(s.push(digit_char(d)), max) == Ok::<nat, IntegerError>(v * 10 + d),
{
    assert(s.push(digit_char(d)).drop_last() == s);
}

/// A power is written exactly: the digits before and behind the point, without the
/// last three zeros, are those of its milliwatts.
pub proof fn law_watts_are_exact(milliwatts: u32)
    ensures
        read_digits(
            decimal(milliwatts as nat / 1000) + thousandths_text(milliwatts),
            u32::MAX as nat,
        ) == Ok::<nat, IntegerError>(milliwatts as nat),
{
    let q = milliwatts as nat / 1000;
    let rest = milliwatts as nat % 1000;
    let max = u32::MAX as nat;
    let s = decimal(q);
    let (a, b, c) = (rest / 100, rest / 10 % 10, rest % 10);
    lemma_read_decimal(q, max);
    lemma_read_one_more(s, q, a, max);
    let s1 = s.push(digit_char(a));
    lemma_read_one_more(s1, q * 10 + a, b, max);
    let s2 = s1.push(digit_char(b));
    lemma_read_one_more(s2, (q * 10 + a) * 10 + b, c, max);
    assert(s + thousandths_text(milliwatts) =~= s2.push(digit_char(c)));
}

/// A marker has at most one reading.
pub proof fn law_reading_is_unique(
    samples: Seq<PowerSample>,
    target: u64,
    first: Reading,
    second: Reading,
)
    requires
        is_reading(samples, target, first),
        is_reading(samples, target, second),
    ensures
        first == second,
{
    match (first, second) {
        (Reading::At(i), Reading::At(j)) => {
            if i < j {
                assert(samples[i as int].wall_ns == target);
            } else if j < i {
                assert(samples[j as int].wall_ns == target);
            }
        },
        (
            Reading::Between { index: i, elapsed_ns: _, span_ns: _ },
            Reading::Between { index: j, elapsed_ns: _, span_ns: _ },
        ) => {
            if i < j {
                assert(straddles(samples, i as int, target));
            } else if j < i {
                assert(straddles(samples, j as int, target));
            }
        },
        (Reading::At(i), Reading::Between { .. }) => {
            assert(samples[i as int].wall_ns == target);
        },
        (Reading::Between { .. }, Reading::At(j)) => {
            assert(samples[j as int].wall_ns == target);
        },
    }
}

/// The sum of some gaps.
pub open spec fn total(gaps: Seq<u64>) -> int
    decreases gaps.len(),
{
    if gaps.len() == 0 {
        0
    } else {
        total(gaps.drop_last()) + gaps.last()
    }
}

proof fn lemma_gaps_telescope(gaps: Seq<u64>, times: Seq<u64>)
    requires
        times.len() > 0,
        are_gaps(gaps, times),
    ensures
        total(gaps) == times.last() - times[0],
    decreases gaps.len(),
{
    if gaps.len() > 0 {
        let g = gaps.drop_last();
        let t = times.drop_last();
        assert forall|i: int| 0 <= i < g.len() implies #[trigger] g[i] == t[i + 1] - t[i] by {
            assert(g[i] == gaps[i]);
        }
        lemma_gaps_telescope(g, t);
        assert(gaps[gaps.len() - 1] == times[gaps.len() as int] - times[gaps.len() - 1]);
    }
}

/// An integration covers its window from the start to the end: the gaps sum to its
/// length, and no gap is longer than the window.
pub proof fn law_integration_covers_window(
    samples: Seq<PowerSample>,
    start: u64,
    end: u64,
    p: PowerIntegration,
)
    requires
        is_integration(samples, start, end, p),
        ordered(selected_times(samples, start, end)),
    ensures
        total(p.gaps_ns@) == end - start,
        p.max_gap_ns <= end - start,
        p.sample_count == p.inner@.len() + 2,
{
    let times = selected_times(samples, start, end);
    assert(times[0] == start);
    assert(times.last() == end);
    lemma_gaps_telescope(p.gaps_ns@, times);
    let i = choose|i: int|
        0 <= i < p.gaps_ns@.len() && #[trigger] p.gaps_ns@[i] == p.max_gap_ns;
    assert(p.gaps_ns@[i] == times[i + 1] - times[i]);
    assert(times[0] <= times[i]);
    assert(times[i + 1] <= times[times.len() - 1]);
}

/// Whether a reading is one of the power at `time`.
pub open spec fn reads_at(samples: Seq<PowerSample>, reading: Reading, time: u64) -> bool {
    match reading {
        Reading::At(i) => i < samples.len() && samples[i as int].wall_ns == time,
        Reading::Between { index, elapsed_ns, span_ns } => {
            &&& straddles(samples, index as int, time)
            &&& elapsed_ns == time - samples[index as int].wall_ns
            &&& span_ns == samples[index + 1].wall_ns - samples[index as int].wall_ns
        },
    }
}

/// The lines that an integration sums over lead through the window: each selected point
/// is a reading at its own time, and the line from it to the next has the length of the
/// time between them.
pub proof fn law_spans_lead_through_window(
    samples: Seq<PowerSample>,
    start: u64,
    end: u64,
    p: PowerIntegration,
    i: int,
)
    requires
        is_integration(samples, start, end, p),
        samples.len() <= usize::MAX,
        0 <= i < p.gaps_ns@.len(),
    ensures
        p.wf(),
        p.point(0) == p.boundary_start,
        p.point(p.gaps_ns@.len() as int) == p.boundary_end,
        reads_at(samples, p.point(i), selected_times(samples, start, end)[i]),
        reads_at(samples, p.point(i + 1), selected_times(samples, start, end)[i + 1]),
        p.gaps_ns@[i] == selected_times(samples, start, end)[i + 1] - selected_times(
            samples,
            start,
            end,
        )[i],
{
    lemma_inner_indices(samples, start, end);
    lemma_point_reads(samples, start, end, p, i);
    lemma_point_reads(samples, start, end, p, i + 1);
}

pub proof fn lemma_point_reads(
    samples: Seq<PowerSample>,
    start: u64,
    end: u64,
    p: PowerIntegration,
    i: int,
)
    requires
        is_integration(samples, start, end, p),
        samples.len() <= usize::MAX,
        0 <= i < selected_times(samples, start, end).len(),
    ensures
        reads_at(samples, p.point(i), selected_times(samples, start, end)[i]),
{
    lemma_inner_indices(samples, start, end);
    let inner = inner_indices(samples, start, end);
    if 0 < i <= inner.len() {
        assert(inner[i - 1] < samples.len());
    }
}

proof fn lemma_crossing(samples: Seq<PowerSample>, target: u64, k: int)
    requires
        0 < k < samples.len(),
        samples[0].wall_ns < target,
        target < samples[k].wall_ns,
        !sampled_at(samples, target),
    ensures
        exists|i: int| #[trigger] straddles(samples, i, target),
    decreases k,
{
    assert(samples[k - 1].wall_ns != target);
    if samples[k - 1].wall_ns < target {
        assert(straddles(samples, k - 1, target));
    } else {
        lemma_crossing(samples, target, k - 1);
    }
}

/// A first sample that is not after the start of a window and a last one that is not
/// before its end are enough: whatever the samples in between, both ends of the
/// window can be read.
pub proof fn law_outer_samples_bracket_window(samples: Seq<PowerSample>, start: u64, end: u64)
    requires
        samples.len() > 0,
        start < end,
        samples[0].wall_ns <= start,
        end <= samples.last().wall_ns,
    ensures
        integration_error(samples, start, end) is None,
{
    lemma_bracketed_in_range(samples, start);
    lemma_bracketed_in_range(samples, end);
}

proof fn lemma_bracketed_in_range(samples: Seq<PowerSample>, target: u64)
    requires
        samples.len() > 0,
        samples[0].wall_ns <= target,
        target <= samples.last().wall_ns,
    ensures
        bracketed(samples, target),
{
    if !sampled_at(samples, target) {
        assert(samples[0].wall_ns != target);
        assert(samples[samples.len() - 1].wall_ns != target);
        lemma_crossing(samples, target, samples.len() - 1);
    }
}

/// Whether the samples are in the order of their times.
pub open spec fn in_order(samples: Seq<PowerSample>) -> bool {
    forall|i: int, j: int|
        0 <= i <= j < samples.len() ==> (#[trigger] samples[i]).wall_ns <= (
        #[trigger] samples[j]).wall_ns
}

/// In a trace whose times never go back, a marker can be read exactly if it does not
/// lie before the first sample or after the last one.
pub proof fn law_ordered_trace_brackets_its_range(samples: Seq<PowerSample>, target: u64)
    requires
        samples.len() > 0,
        in_order(samples),
    ensures
        bracketed(samples, target) <==> samples[0].wall_ns <= target
            <= samples.last().wall_ns,
{
    let last = samples.len() - 1;
    if bracketed(samples, target) {
        if sampled_at(samples, target) {
            let i = choose|i: int|
                0 <= i < samples.len() && #[trigger] samples[i].wall_ns == target;
            assert(samples[0].wall_ns <= samples[i].wall_ns);
            assert(samples[i].wall_ns <= samples[last].wall_ns);
        } else {
            let i = choose|i: int| #[trigger] straddles(samples, i, target);
            assert(samples[0].wall_ns <= samples[i].wall_ns);
            assert(samples[i + 1].wall_ns <= samples[last].wall_ns);
        }
    } else if samples[0].wall_ns <= target && target <= samples.last().wall_ns {
        lemma_bracketed_in_range(samples, target);
    }
}

pub proof fn lemma_inner_indices_increase(samples: Seq<PowerSample>, start: u64, end: u64)
    requires
        samples.len() <= usize::MAX,
    ensures
        forall|i: int, j: int|
            0 <= i < j < inner_indices(samples, start, end).len() ==> inner_indices(
                samples,
                start,
                end,
            )[i] < inner_indices(samples, start, end)[j],
    decreases samples.len(),
{
    if samples.len() > 0 {
        lemma_inner_indices_increase(samples.drop_last(), start, end);
        lemma_inner_indices(samples.drop_last(), start, end);
    }
}

/// A trace whose times never go back can be integrated over every window, or is
/// refused.
pub proof fn law_ordered_trace_is_integrable(samples: Seq<PowerSample>, start: u64, end: u64)
    requires
        samples.len() <= usize::MAX,
        in_order(samples),
    ensures
        integrable(samples, start, end),
{
    if start < end {
        lemma_inner_indices(samples, start, end);
        lemma_inner_indices_increase(samples, start, end);
        let inner = inner_indices(samples, start, end);
        let times = selected_times(samples, start, end);
        assert forall|i: int, j: int| 0 <= i <= j < times.len() implies times[i] <= times[j] by {
            if 0 < i && i <= inner.len() {
                let p = inner[i - 1];
                assert(times[i] == samples[p as int].wall_ns);
            }
            if 0 < j && j <= inner.len() {
                let q = inner[j - 1];
                assert(times[j] == samples[q as int].wall_ns);
            }
        }
    }
}

/// A reading is that of the first sample taken at the marker, if there is one; otherwise it
/// lies between the first two neighbours around the marker, as far along as the marker is.
pub proof fn law_readings_are_those_of_the_marker(
    samples: Seq<PowerSample>,
    target: u64,
    reading: Reading,
)
    ensures
        reading matches Reading::At(i) ==> (is_reading(samples, target, reading) <==> i
            < samples.len() && samples[i as int].wall_ns == target && forall|j: int|
            0 <= j < i ==> #[trigger] samples[j].wall_ns != target),
        reading matches Reading::Between { index, elapsed_ns, span_ns } ==> (is_reading(
            samples,
            target,
            reading,
        ) <==> {
            &&& forall|j: int| 0 <= j < samples.len() ==> #[trigger] samples[j].wall_ns != target
            &&& index + 1 < samples.len()
            &&& samples[index as int].wall_ns < target < samples[index + 1].wall_ns
            &&& forall|j: int|
                0 <= j < index ==> !((#[trigger] samples[j]).wall_ns < target && target
                    < samples[j + 1].wall_ns)
            &&& elapsed_ns == target - samples[index as int].wall_ns
            &&& span_ns == samples[index + 1].wall_ns - samples[index as int].wall_ns
        }),
{
    if let Reading::Between { index, elapsed_ns, span_ns } = reading {
        if is_reading(samples, target, reading) {
            assert forall|j: int| 0 <= j < samples.len() implies #[trigger] samples[j].wall_ns
                != target by {}
            assert forall|j: int| 0 <= j < index implies !((#[trigger] samples[j]).wall_ns < target
                && target < samples[j + 1].wall_ns) by {
                assert(!straddles(samples, j, target));
            }
        }
    }
}

/// A marker can be read exactly if a sample is taken at it, or if two neighbours lie around
/// it, the earlier one before.
pub proof fn law_markers_are_read_if_bracketed(samples: Seq<PowerSample>, target: u64, i: int)
    ensures
        0 <= i < samples.len() && samples[i].wall_ns == target ==> bracketed(samples, target),
        0 <= i < samples.len() - 1 && samples[i].wall_ns < target && target < samples[i
            + 1].wall_ns ==> bracketed(samples, target),
        !bracketed(samples, target) && 0 <= i < samples.len() ==> samples[i].wall_ns != target,
        bracketed(samples, target) ==> exists|k: int|
            0 <= k < samples.len() && ((#[trigger] samples[k]).wall_ns == target || (k + 1
                < samples.len() && samples[k].wall_ns < target && target < samples[k + 1].wall_ns)),
{
    if 0 <= i < samples.len() - 1 && samples[i].wall_ns < target && target < samples[i
        + 1].wall_ns {
        assert(straddles(samples, i, target));
    }
    if bracketed(samples, target) && !sampled_at(samples, target) {
        let k = choose|k: int| #[trigger] straddles(samples, k, target);
        assert(samples[k].wall_ns < target);
    }
}

/// An integration is refused for an empty window, then for fewer than two samples, then for
/// a start and then for an end that cannot be read; otherwise it has a result.
pub proof fn law_integrations_are_refused_in_order(
    samples: Seq<PowerSample>,
    start: u64,
    end: u64,
)
    ensures
        ({
            let refusal = integration_error(samples, start, end);
            let (s, e) = (bracketed(samples, start), bracketed(samples, end));
            &&& refusal is None <==> start < end && samples.len() >= 2 && s && e
            &&& refusal == Some(PowerError::Interval) <==> start >= end
            &&& start < end && samples.len() < 2 ==> refusal == Some(PowerError::TooFewSamples)
            &&& start < end && samples.len() >= 2 && !s ==> refusal == Some(
                PowerError::NotBracketed(start),
            )
            &&& start < end && samples.len() >= 2 && s && !e ==> refusal == Some(
                PowerError::NotBracketed(end),
            )
        }),
{
}

/// The samples inside a window are selected, each once and in their order: those after its
/// start and before its end, and no others.
pub proof fn law_samples_inside_are_selected(
    samples: Seq<PowerSample>,
    start: u64,
    end: u64,
    i: int,
    k: int,
    l: int,
)
    requires
        samples.len() <= usize::MAX,
        0 <= i < samples.len(),
    ensures
        ({
            let inner = inner_indices(samples, start, end);
            let times = selected_times(samples, start, end);
            &&& inner.contains(i as usize) <==> start < samples[i].wall_ns && samples[i].wall_ns
                < end
            &&& 0 <= k < l < inner.len() ==> inner[k] < inner[l]
            &&& 0 <= k < inner.len() ==> inner[k] < samples.len()
            &&& times.len() == inner.len() + 2
            &&& times[0] == start
            &&& times.last() == end
            &&& 0 <= k < inner.len() ==> times[k + 1] == samples[inner[k] as int].wall_ns
        }),
{
    lemma_inner_indices(samples, start, end);
    lemma_inner_indices_increase(samples, start, end);
    let inner = inner_indices(samples, start, end);
    if start < samples[i].wall_ns && samples[i].wall_ns < end {
        lemma_inside_is_selected(samples, start, end, i);
        let m = choose|m: int| 0 <= m < inner.len() && #[trigger] inner[m] == i;
        assert(inner[m] == i as usize);
    }
    if inner.contains(i as usize) {
        let m = choose|m: int| 0 <= m < inner.len() && inner[m] == i as usize;
        assert(inside(samples[inner[m] as int], start, end));
    }
}

/// Every sample inside a window is selected.
pub proof fn lemma_inside_is_selected(samples: Seq<PowerSample>, start: u64, end: u64, i: int)
    requires
        samples.len() <= usize::MAX,
        0 <= i < samples.len(),
        inside(samples[i], start, end),
    ensures
        exists|m: int|
            0 <= m < inner_indices(samples, start, end).len() && #[trigger] inner_indices(
                samples,
                start,
                end,
            )[m] == i,
    decreases samples.len(),
{
    let all = inner_indices(samples, start, end);
    let before = inner_indices(samples.drop_last(), start, end);
    if i == samples.len() - 1 {
        assert(all[all.len() - 1] == i);
    } else {
        lemma_inside_is_selected(samples.drop_last(), start, end, i);
        let m = choose|m: int| 0 <= m < before.len() && #[trigger] before[m] == i;
        assert(all[m] == before[m]);
    }
}

/// An integration has the readings at both ends of its window, a gap from each selected
/// point to the next, the number of the points, and the largest gap. Its lines start at the
/// start, end at the end, and each begins where the one before it ends.
pub proof fn law_integration_has_its_parts(
    samples: Seq<PowerSample>,
    start: u64,
    end: u64,
    p: PowerIntegration,
    i: int,
)
    requires
        is_integration(samples, start, end, p),
    ensures
        ({
            let times = selected_times(samples, start, end);
            let lines = p.lines();
            &&& is_reading(samples, start, p.boundary_start)
            &&& is_reading(samples, end, p.boundary_end)
            &&& p.inner@ == inner_indices(samples, start, end)
            &&& p.sample_count == p.inner@.len() + 2
            &&& p.gaps_ns@.len() == p.inner@.len() + 1
            &&& lines.len() == p.inner@.len() + 1
            &&& lines[0].from == p.boundary_start
            &&& lines[lines.len() - 1].to == p.boundary_end
            &&& 0 <= i < p.inner@.len() ==> lines[i].to == Reading::At(p.inner@[i])
            &&& 0 <= i < p.inner@.len() ==> lines[i + 1].from == Reading::At(p.inner@[i])
            &&& 0 <= i < lines.len() ==> lines[i].gap_ns == p.gaps_ns@[i]
            &&& 0 <= i < lines.len() ==> p.gaps_ns@[i] == times[i + 1] - times[i]
            &&& 0 <= i < lines.len() ==> p.gaps_ns@[i] <= p.max_gap_ns
            &&& p.gaps_ns@.contains(p.max_gap_ns)
        }),
{
    let k = choose|k: int| 0 <= k < p.gaps_ns@.len() && #[trigger] p.gaps_ns@[k] == p.max_gap_ns;
    assert(p.gaps_ns@[k] == p.max_gap_ns);
}

/// A trace as text has a header and one line for each sample, in their order: its time, the
/// backend, the device, and its watts with six decimals. The digits of the watts, without
/// the point, count microwatts.
pub proof fn law_trace_has_a_line_for_each_sample(
    samples: Seq<PowerSample>,
    sample: PowerSample,
    device_index: nat,
)
    ensures
        csv_text(Seq::empty(), device_index) == "wall_ns,backend,device,power_w\n"@,
        csv_text(samples.push(sample), device_index) == csv_text(samples, device_index) + (decimal(
            sample.wall_ns as nat,
        ) + ",nvidia,gpu"@ + decimal(device_index) + ","@ + decimal(
            sample.milliwatts as nat / 1000,
        ) + "."@ + watts_text(sample.milliwatts).skip(
            decimal(sample.milliwatts as nat / 1000).len() as int + 1,
        ) + "\n"@),
        watts_text(sample.milliwatts).len() == decimal(sample.milliwatts as nat / 1000).len() + 7,
        read_digits(
            decimal(sample.milliwatts as nat / 1000) + watts_text(sample.milliwatts).skip(
                decimal(sample.milliwatts as nat / 1000).len() as int + 1,
            ),
            u64::MAX as nat,
        ) == Ok::<nat, IntegerError>(sample.milliwatts as nat * 1000),
{
    let mw = sample.milliwatts as nat;
    let whole = decimal(mw / 1000);
    let digits = thousandths_text(sample.milliwatts) + "000"@;
    let w = watts_text(sample.milliwatts);
    reveal_strlit(".");
    reveal_strlit("000");
    assert(samples.push(sample).drop_last() =~= samples);
    assert(w.skip(whole.len() as int + 1) =~= digits);
    assert(w =~= whole + "."@ + digits);
    assert(csv_row(sample, device_index) =~= decimal(sample.wall_ns as nat) + ",nvidia,gpu"@
        + decimal(device_index) + ","@ + whole + "."@ + digits + "\n"@);
    let max = u64::MAX as nat;
    let rest = mw % 1000;
    let (a, b, c) = (rest / 100, rest / 10 % 10, rest % 10);
    lemma_read_decimal(mw / 1000, max);
    lemma_read_one_more(whole, mw / 1000, a, max);
    let s1 = whole.push(digit_char(a));
    let v1 = mw / 1000 * 10 + a;
    lemma_read_one_more(s1, v1, b, max);
    let s2 = s1.push(digit_char(b));
    lemma_read_one_more(s2, v1 * 10 + b, c, max);
    let s3 = s2.push(digit_char(c));
    assert((v1 * 10 + b) * 10 + c == mw);
    lemma_read_one_more(s3, mw, 0, max);
    let s4 = s3.push(digit_char(0));
    lemma_read_one_more(s4, mw * 10, 0, max);
    let s5 = s4.push(digit_char(0));
    lemma_read_one_more(s5, mw * 100, 0, max);
    assert(whole + digits =~= s5.push(digit_char(0)));
}

/// A window can be integrated, or is refused, exactly unless its selected points go back in
/// time.
pub proof fn law_windows_are_integrable_unless_time_goes_back(
    samples: Seq<PowerSample>,
    start: u64,
    end: u64,
    i: int,
)
    ensures
        integration_error(samples, start, end) is Some ==> integrable(samples, start, end),
        ({
            let times = selected_times(samples, start, end);
            &&& integration_error(samples, start, end) is None && integrable(samples, start, end)
                && 0 <= i < times.len() - 1 ==> times[i] <= times[i + 1]
            &&& (forall|j: int, k: int| 0 <= j <= k < times.len() ==> times[j] <= times[k])
                ==> integrable(samples, start, end)
        }),
{
}

/// A refusal is told in words, and one for a marker names it.
pub proof fn law_refusals_are_told(target: u64)
    ensures
        PowerError::Interval.text() == "invalid power integration interval"@,
        PowerError::TooFewSamples.text() == "need at least two power samples"@,
        PowerError::NotBracketed(target).text() == "power samples do not bracket marker "@
            + decimal(target as nat),
{
}

} // verus!
