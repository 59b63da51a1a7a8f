//! The decisions of the power sampler: it brings up the management library, takes a
//! first reading before it reports that it is ready, then reads in intervals until
//! it is told to stop, and once more after that.
use vstd::prelude::*;

use crate::power::{
    in_order, integrable, integration_error, law_ordered_trace_is_integrable,
    law_outer_samples_bracket_window, PowerSample,
};
use crate::text::{decimal, decimal_text};

verus! {

/// The time between two readings, in milliseconds.
pub const SAMPLE_INTERVAL_MS: u64 = 50;

/// What happened to the sampler.
#[derive(Debug)]
pub enum SamplerEvent {
    /// The management library is up.
    NvmlReady,
    /// The management library could not be brought up.
    NvmlFailed(String),
    /// The device is open.
    DeviceReady,
    /// The device could not be opened.
    DeviceFailed(String),
    /// The power was read.
    Power(PowerSample),
    /// The power could not be read.
    PowerFailed(String),
    /// It was reported that the sampler is ready.
    ReadyReported,
    /// Whether the sampler has been told to stop.
    StopFlag(bool),
    /// The interval is over.
    Slept,
}

/// What the sampler asks for.
#[derive(Debug)]
pub enum SamplerAction {
    /// Bring up the management library.
    InitNvml,
    /// Open the device with this index.
    OpenDevice(u32),
    /// Read the power.
    ReadPower,
    /// Report that the sampler is ready.
    ReportReady,
    /// See whether the sampler has been told to stop.
    CheckStop,
    /// Wait for so many milliseconds.
    Sleep(u64),
    /// Report that the sampler cannot start, and give up.
    ReportFailure(String),
    /// The trace is complete.
    Finish,
}

/// Where the sampler is.
#[derive(Debug)]
enum Phase {
    Init,
    Device,
    First,
    Ready,
    Polling,
    Sleeping,
    Reading,
    Last,
    Over,
    Failed(String),
}

/// Where the sampler is, as a mathematical value.
pub ghost enum Stage {
    Init,
    Device,
    First,
    Ready,
    Polling,
    Sleeping,
    Reading,
    Last,
    Over,
    Failed(Seq<char>),
}

/// The sampler as a mathematical value.
pub ghost struct Sampler {
    pub device_index: u32,
    pub stage: Stage,
    pub samples: Seq<PowerSample>,
}

impl Sampler {
    /// A sampler that has not done anything yet.
    pub open spec fn fresh(device_index: u32) -> Sampler {
        Sampler { device_index, stage: Stage::Init, samples: Seq::empty() }
    }

    /// The sampler after an event. An event that is out of turn changes nothing.
    pub open spec fn after(self, event: SamplerEvent) -> Sampler {
        match (self.stage, event) {
            (Stage::Init, SamplerEvent::NvmlReady) => Sampler { stage: Stage::Device, ..self },
            (Stage::Init, SamplerEvent::NvmlFailed(e)) => Sampler {
                stage: Stage::Failed("NVML init: "@ + e@),
                ..self
            },
            (Stage::Device, SamplerEvent::DeviceReady) => Sampler { stage: Stage::First, ..self },
            (Stage::Device, SamplerEvent::DeviceFailed(e)) => Sampler {
                stage: Stage::Failed(
                    "NVML device "@ + decimal(self.device_index as nat) + ": "@ + e@,
                ),
                ..self
            },
            (Stage::First, SamplerEvent::Power(s)) => Sampler {
                stage: Stage::Ready,
                samples: self.samples.push(s),
                ..self
            },
            (Stage::First, SamplerEvent::PowerFailed(e)) => Sampler {
                stage: Stage::Failed("NVML power_usage: "@ + e@),
                ..self
            },
            (Stage::Ready, SamplerEvent::ReadyReported) => Sampler {
                stage: Stage::Polling,
                ..self
            },
            (Stage::Polling, SamplerEvent::StopFlag(stop)) => Sampler {
                stage: if stop {
                    Stage::Last
                } else {
                    Stage::Sleeping
                },
                ..self
            },
            (Stage::Sleeping, SamplerEvent::Slept) => Sampler { stage: Stage::Reading, ..self },
            (Stage::Reading, SamplerEvent::Power(s)) => Sampler {
                stage: Stage::Polling,
                samples: self.samples.push(s),
                ..self
            },
            (Stage::Reading, SamplerEvent::PowerFailed(_)) => Sampler {
                stage: Stage::Polling,
                ..self
            },
            (Stage::Last, SamplerEvent::Power(s)) => Sampler {
                stage: Stage::Over,
                samples: self.samples.push(s),
                ..self
            },
            (Stage::Last, SamplerEvent::PowerFailed(_)) => Sampler { stage: Stage::Over, ..self },
            _ => self,
        }
    }

    /// Whether `action` is what a sampler in this state asks for.
    pub open spec fn asks_for(self, action: SamplerAction) -> bool {
        match self.stage {
            Stage::Init => action is InitNvml,
            Stage::Device => action == SamplerAction::OpenDevice(self.device_index),
            Stage::First => action is ReadPower,
            Stage::Ready => action is ReportReady,
            Stage::Polling => action is CheckStop,
            Stage::Sleeping => action == SamplerAction::Sleep(SAMPLE_INTERVAL_MS),
            Stage::Reading => action is ReadPower,
            Stage::Last => action is ReadPower,
            Stage::Over => action is Finish,
            Stage::Failed(e) => action matches SamplerAction::ReportFailure(f) && f@ == e,
        }
    }

    /// A sampler that has not taken its first reading has no samples, and one that has
    /// it keeps it.
    pub open spec fn wf(self) -> bool {
        match self.stage {
            Stage::Init | Stage::Device | Stage::First | Stage::Failed(_) => self.samples.len()
                == 0,
            _ => self.samples.len() >= 1,
        }
    }

    /// The sampler after some events.
    pub open spec fn after_all(self, events: Seq<SamplerEvent>) -> Sampler
        decreases events.len(),
    {
        if events.len() == 0 {
            self
        } else {
            self.after_all(events.drop_last()).after(events.last())
        }
    }
}

/// The state of a power sampler.
#[derive(Debug)]
pub struct PowerSampler {
    device_index: u32,
    phase: Phase,
    samples: Vec<PowerSample>,
}

impl View for PowerSampler {
    type V = Sampler;

    closed spec fn view(&self) -> Sampler {
        Sampler {
            device_index: self.device_index,
            stage: match self.phase {
                Phase::Init => Stage::Init,
                Phase::Device => Stage::Device,
                Phase::First => Stage::First,
                Phase::Ready => Stage::Ready,
                Phase::Polling => Stage::Polling,
                Phase::Sleeping => Stage::Sleeping,
                Phase::Reading => Stage::Reading,
                Phase::Last => Stage::Last,
                Phase::Over => Stage::Over,
                Phase::Failed(e) => Stage::Failed(e@),
            },
            samples: self.samples@,
        }
    }
}

impl PowerSampler {
    /// A sampler for the device with this index.
    pub fn new(device_index: u32) -> (r: PowerSampler)
        ensures
            r@ == Sampler::fresh(device_index),
    {
        PowerSampler { device_index, phase: Phase::Init, samples: Vec::new() }
    }

    /// What the sampler asks for.
    pub fn action(&self) -> (r: SamplerAction)
        ensures
            self@.asks_for(r),
    {
        match &self.phase {
            Phase::Init => SamplerAction::InitNvml,
            Phase::Device => SamplerAction::OpenDevice(self.device_index),
            Phase::First => SamplerAction::ReadPower,
            Phase::Ready => SamplerAction::ReportReady,
            Phase::Polling => SamplerAction::CheckStop,
            Phase::Sleeping => SamplerAction::Sleep(SAMPLE_INTERVAL_MS),
            Phase::Reading => SamplerAction::ReadPower,
            Phase::Last => SamplerAction::ReadPower,
            Phase::Over => SamplerAction::Finish,
            Phase::Failed(e) => SamplerAction::ReportFailure(e.clone()),
        }
    }

    /// Takes in what happened and says what to do next.
    pub fn step(&mut self, event: SamplerEvent) -> (r: SamplerAction)
        ensures
            final(self)@ == old(self)@.after(event),
            final(self)@.asks_for(r),
            old(self)@.stage is Polling && event == SamplerEvent::StopFlag(false) ==> r
                == SamplerAction::Sleep(50),
            old(self)@.stage is Polling && event == SamplerEvent::StopFlag(true) ==> r
                == SamplerAction::ReadPower,
            old(self)@.stage is Sleeping && event is Slept ==> r == SamplerAction::ReadPower,
    {
        match (&self.phase, event) {
            (Phase::Init, SamplerEvent::NvmlReady) => {
                self.phase = Phase::Device;
            },
            (Phase::Init, SamplerEvent::NvmlFailed(e)) => {
                self.phase = Phase::Failed("NVML init: ".to_owned().concat(e.as_str()));
            },
            (Phase::Device, SamplerEvent::DeviceReady) => {
                self.phase = Phase::First;
            },
            (Phase::Device, SamplerEvent::DeviceFailed(e)) => {
                let index = decimal_text(self.device_index as u64);
                let text = "NVML device ".to_owned().concat(index.as_str()).concat(": ");
                self.phase = Phase::Failed(text.concat(e.as_str()));
            },
            (Phase::First, SamplerEvent::Power(s)) => {
                self.samples.push(s);
                self.phase = Phase::Ready;
            },
            (Phase::First, SamplerEvent::PowerFailed(e)) => {
                self.phase = Phase::Failed("NVML power_usage: ".to_owned().concat(e.as_str()));
            },
            (Phase::Ready, SamplerEvent::ReadyReported) => {
                self.phase = Phase::Polling;
            },
            (Phase::Polling, SamplerEvent::StopFlag(stop)) => {
                if stop {
                    self.phase = Phase::Last;
                } else {
                    self.phase = Phase::Sleeping;
                }
            },
            (Phase::Sleeping, SamplerEvent::Slept) => {
                self.phase = Phase::Reading;
            },
            (Phase::Reading, SamplerEvent::Power(s)) => {
                self.samples.push(s);
                self.phase = Phase::Polling;
            },
            (Phase::Reading, SamplerEvent::PowerFailed(_)) => {
                self.phase = Phase::Polling;
            },
            (Phase::Last, SamplerEvent::Power(s)) => {
                self.samples.push(s);
                self.phase = Phase::Over;
            },
            (Phase::Last, SamplerEvent::PowerFailed(_)) => {
                self.phase = Phase::Over;
            },
            _ => {},
        }
        self.action()
    }

    /// The samples that were taken.
    pub fn into_samples(self) -> (r: Vec<PowerSample>)
        ensures
            r@ == self@.samples,
    {
        self.samples
    }
}

/// Whatever happens, a sampler has no samples before its first reading or when it
/// could not start, and keeps at least the first reading otherwise.
pub proof fn law_ready_sampler_has_a_sample(device_index: u32, events: Seq<SamplerEvent>)
    ensures
        Sampler::fresh(device_index).after_all(events).wf(),
    decreases events.len(),
{
    if events.len() > 0 {
        law_ready_sampler_has_a_sample(device_index, events.drop_last());
    }
}

/// Samples are never lost or changed: each event keeps them all, and adds at most the
/// reading that it brings.
pub proof fn law_samples_are_kept(sampler: Sampler, event: SamplerEvent)
    ensures
        sampler.after(event).samples == sampler.samples || (event matches SamplerEvent::Power(s)
            && sampler.after(event).samples == sampler.samples.push(s)),
        event matches SamplerEvent::Power(s) ==> (sampler.stage is First || sampler.stage is Reading
            || sampler.stage is Last ==> sampler.after(event).samples == sampler.samples.push(s)),
{
}

/// A trace is complete only after one more reading that was asked for once the
/// sampler had been told to stop.
pub proof fn law_last_reading_follows_stop(sampler: Sampler, event: SamplerEvent)
    ensures
        sampler.stage !is Over && sampler.after(event).stage is Over ==> sampler.stage is Last && (
        event is Power || event is PowerFailed),
        sampler.stage !is Last && sampler.after(event).stage is Last ==> sampler.stage is Polling
            && event == SamplerEvent::StopFlag(true),
{
}

/// A window that lies between the first reading of a sampler and the one that it takes
/// after it was told to stop can be integrated over the finished trace, whatever was
/// read in between.
pub proof fn law_finished_trace_brackets_window(
    device_index: u32,
    events: Seq<SamplerEvent>,
    last: PowerSample,
    start: u64,
    end: u64,
)
    requires
        Sampler::fresh(device_index).after_all(events).stage is Last,
        Sampler::fresh(device_index).after_all(events).samples[0].wall_ns <= start,
        start < end,
        end <= last.wall_ns,
    ensures
        Sampler::fresh(device_index).after_all(events.push(SamplerEvent::Power(last))).stage is Over,
        integration_error(
            Sampler::fresh(device_index).after_all(
                events.push(SamplerEvent::Power(last)),
            ).samples,
            start,
            end,
        ) is None,
{
    let sampler = Sampler::fresh(device_index).after_all(events);
    let all = events.push(SamplerEvent::Power(last));
    law_ready_sampler_has_a_sample(device_index, events);
    assert(all.drop_last() =~= events);
    law_outer_samples_bracket_window(sampler.samples.push(last), start, end);
}

/// Whether the readings among some events never go back in time.
pub open spec fn readings_in_order(events: Seq<SamplerEvent>) -> bool {
    forall|i: int, j: int|
        0 <= i <= j < events.len() && (#[trigger] events[i]) is Power && (
        #[trigger] events[j]) is Power ==> events[i]->Power_0.wall_ns
            <= events[j]->Power_0.wall_ns
}

/// Each sample is a reading that an event brought.
proof fn lemma_samples_are_readings(device_index: u32, events: Seq<SamplerEvent>, k: int)
    requires
        0 <= k < Sampler::fresh(device_index).after_all(events).samples.len(),
    ensures
        exists|i: int|
            0 <= i < events.len() && #[trigger] events[i] == SamplerEvent::Power(
                Sampler::fresh(device_index).after_all(events).samples[k],
            ),
    decreases events.len(),
{
    let now = Sampler::fresh(device_index).after_all(events);
    if events.len() > 0 {
        let fewer = events.drop_last();
        let before = Sampler::fresh(device_index).after_all(fewer);
        law_samples_are_kept(before, events.last());
        if k < before.samples.len() {
            lemma_samples_are_readings(device_index, fewer, k);
            let i = choose|i: int|
                0 <= i < fewer.len() && #[trigger] fewer[i] == SamplerEvent::Power(
                    before.samples[k],
                );
            assert(events[i] == fewer[i]);
            assert(now.samples[k] == before.samples[k]);
        } else {
            assert(events[events.len() - 1] == SamplerEvent::Power(now.samples[k]));
        }
    }
}

/// If the readings never go back in time, neither do the samples of the trace.
pub proof fn law_ordered_readings_give_an_ordered_trace(
    device_index: u32,
    events: Seq<SamplerEvent>,
)
    requires
        readings_in_order(events),
    ensures
        in_order(Sampler::fresh(device_index).after_all(events).samples),
    decreases events.len(),
{
    let now = Sampler::fresh(device_index).after_all(events);
    if events.len() > 0 {
        let fewer = events.drop_last();
        let before = Sampler::fresh(device_index).after_all(fewer);
        assert(readings_in_order(fewer)) by {
            assert forall|i: int, j: int|
                0 <= i <= j < fewer.len() && (#[trigger] fewer[i]) is Power && (
                #[trigger] fewer[j]) is Power implies fewer[i]->Power_0.wall_ns
                <= fewer[j]->Power_0.wall_ns by {
                assert(fewer[i] == events[i] && fewer[j] == events[j]);
            }
        }
        law_ordered_readings_give_an_ordered_trace(device_index, fewer);
        law_samples_are_kept(before, events.last());
        assert forall|k: int, l: int| 0 <= k <= l < now.samples.len() implies (
        #[trigger] now.samples[k]).wall_ns <= (#[trigger] now.samples[l]).wall_ns by {
            if l < before.samples.len() {
                assert(now.samples[k] == before.samples[k]);
                assert(now.samples[l] == before.samples[l]);
            } else if k < before.samples.len() {
                lemma_samples_are_readings(device_index, fewer, k);
                let i = choose|i: int|
                    0 <= i < fewer.len() && #[trigger] fewer[i] == SamplerEvent::Power(
                        before.samples[k],
                    );
                assert(events[i] == fewer[i]);
                assert(events[events.len() - 1] == SamplerEvent::Power(now.samples[l]));
            }
        }
    }
}

/// If the readings never go back in time, the trace can be integrated over any window that
/// lies between the first reading and the one after the stop.
pub proof fn law_finished_trace_is_integrable(
    device_index: u32,
    events: Seq<SamplerEvent>,
    last: PowerSample,
    start: u64,
    end: u64,
)
    requires
        Sampler::fresh(device_index).after_all(events).stage is Last,
        Sampler::fresh(device_index).after_all(events).samples.len() < usize::MAX,
        readings_in_order(events.push(SamplerEvent::Power(last))),
        Sampler::fresh(device_index).after_all(events).samples[0].wall_ns <= start,
        start < end,
        end <= last.wall_ns,
    ensures
        integration_error(
            Sampler::fresh(device_index).after_all(
                events.push(SamplerEvent::Power(last)),
            ).samples,
            start,
            end,
        ) is None,
        integrable(
            Sampler::fresh(device_index).after_all(
                events.push(SamplerEvent::Power(last)),
            ).samples,
            start,
            end,
        ),
{
    let all = events.push(SamplerEvent::Power(last));
    assert(all.drop_last() =~= events);
    law_finished_trace_brackets_window(device_index, events, last, start, end);
    law_ordered_readings_give_an_ordered_trace(device_index, all);
    law_ordered_trace_is_integrable(
        Sampler::fresh(device_index).after_all(all).samples,
        start,
        end,
    );
}

impl Sampler {
    /// The sampler after some rounds, each of which waits, and then brings a reading.
    pub open spec fn after_rounds(self, readings: Seq<PowerSample>) -> Sampler
        decreases readings.len(),
    {
        if readings.len() == 0 {
            self
        } else {
            self.after_rounds(readings.drop_last()).after(SamplerEvent::StopFlag(false)).after(
                SamplerEvent::Slept,
            ).after(SamplerEvent::Power(readings.last()))
        }
    }
}

/// As long as it is not told to stop, a running sampler goes on: it waits, reads, and looks
/// again, however many samples it has. A reading that fails is passed over.
pub proof fn law_running_sampler_goes_on(
    sampler: Sampler,
    reading: PowerSample,
    failure: String,
)
    requires
        sampler.stage is Polling,
    ensures
        ({
            let waiting = sampler.after(SamplerEvent::StopFlag(false));
            let reads = waiting.after(SamplerEvent::Slept);
            &&& waiting.stage is Sleeping
            &&& waiting.samples == sampler.samples
            &&& reads.stage is Reading
            &&& reads.samples == sampler.samples
            &&& reads.after(SamplerEvent::Power(reading)).stage is Polling
            &&& reads.after(SamplerEvent::Power(reading)).samples == sampler.samples.push(reading)
            &&& reads.after(SamplerEvent::PowerFailed(failure)).stage is Polling
            &&& reads.after(SamplerEvent::PowerFailed(failure)).samples == sampler.samples
        }),
{
}

/// Any number of rounds adds as many samples, in their order, and the sampler still runs.
pub proof fn law_rounds_add_their_readings(sampler: Sampler, readings: Seq<PowerSample>)
    requires
        sampler.stage is Polling,
    ensures
        sampler.after_rounds(readings).stage is Polling,
        sampler.after_rounds(readings).samples == sampler.samples + readings,
        sampler.after_rounds(readings).samples.len() == sampler.samples.len() + readings.len(),
        sampler.after_rounds(readings).device_index == sampler.device_index,
    decreases readings.len(),
{
    if readings.len() > 0 {
        law_rounds_add_their_readings(sampler, readings.drop_last());
        assert(readings.drop_last().push(readings.last()) =~= readings);
        assert(sampler.after_rounds(readings).samples =~= sampler.samples + readings);
    } else {
        assert(sampler.samples + readings =~= sampler.samples);
    }
}

/// A whole run: the trace has the first reading, those of all rounds, and the one after the
/// stop, in that order and nothing else. `k` rounds give `k + 2` samples.
pub proof fn law_trace_has_every_reading(
    device_index: u32,
    first: PowerSample,
    readings: Seq<PowerSample>,
    last: PowerSample,
)
    ensures
        ({
            let running = Sampler::fresh(device_index).after(SamplerEvent::NvmlReady).after(
                SamplerEvent::DeviceReady,
            ).after(SamplerEvent::Power(first)).after(SamplerEvent::ReadyReported);
            let over = running.after_rounds(readings).after(SamplerEvent::StopFlag(true)).after(
                SamplerEvent::Power(last),
            );
            &&& running.stage is Polling
            &&& running.samples == seq![first]
            &&& over.stage is Over
            &&& over.samples == (seq![first] + readings).push(last)
        }),
{
    let running = Sampler::fresh(device_index).after(SamplerEvent::NvmlReady).after(
        SamplerEvent::DeviceReady,
    ).after(SamplerEvent::Power(first)).after(SamplerEvent::ReadyReported);
    assert(running.samples =~= seq![first]);
    law_rounds_add_their_readings(running, readings);
}

/// What the sampler asks for at each point: the library first, then its own device, a
/// reading, and to say that it is ready; while it runs it looks for the stop, waits for
/// fifty milliseconds and reads; after the stop it reads once more and finishes.
pub proof fn law_sampler_asks_in_its_order(sampler: Sampler, action: SamplerAction)
    requires
        sampler.asks_for(action),
    ensures
        sampler.stage is Init ==> action == SamplerAction::InitNvml,
        sampler.stage is Device ==> action == SamplerAction::OpenDevice(sampler.device_index),
        sampler.stage is First ==> action == SamplerAction::ReadPower,
        sampler.stage is Ready ==> action == SamplerAction::ReportReady,
        sampler.stage is Polling ==> action == SamplerAction::CheckStop,
        sampler.stage is Sleeping ==> action == SamplerAction::Sleep(50),
        sampler.stage is Reading ==> action == SamplerAction::ReadPower,
        sampler.stage is Last ==> action == SamplerAction::ReadPower,
        sampler.stage is Over ==> action == SamplerAction::Finish,
        sampler.stage matches Stage::Failed(e) ==> (action matches SamplerAction::ReportFailure(f)
            && f@ == e),
{
}

/// A sampler that cannot start says what failed, and why, and has no samples.
pub proof fn law_failures_are_told(device_index: u32, why: String)
    ensures
        ({
            let fresh = Sampler::fresh(device_index);
            let up = fresh.after(SamplerEvent::NvmlReady);
            let open = up.after(SamplerEvent::DeviceReady);
            &&& fresh.stage is Init && up.stage is Device && open.stage is First
            &&& fresh.after(SamplerEvent::NvmlFailed(why)).stage == Stage::Failed(
                "NVML init: "@ + why@,
            )
            &&& up.after(SamplerEvent::DeviceFailed(why)).stage == Stage::Failed(
                "NVML device "@ + decimal(device_index as nat) + ": "@ + why@,
            )
            &&& open.after(SamplerEvent::PowerFailed(why)).stage == Stage::Failed(
                "NVML power_usage: "@ + why@,
            )
            &&& open.after(SamplerEvent::PowerFailed(why)).samples.len() == 0
        }),
{
}

/// Nothing happens out of turn: what was not asked for changes nothing, and a sampler that
/// has finished or failed stays as it is. Its device never changes.
pub proof fn law_nothing_happens_out_of_turn(sampler: Sampler, event: SamplerEvent)
    ensures
        sampler.after(event).device_index == sampler.device_index,
        sampler.stage is Over || sampler.stage is Failed ==> sampler.after(event) == sampler,
        sampler.stage is Init && !(event is NvmlReady) && !(event is NvmlFailed) ==> sampler.after(
            event,
        ) == sampler,
        sampler.stage is Device && !(event is DeviceReady) && !(event is DeviceFailed)
            ==> sampler.after(event) == sampler,
        (sampler.stage is First || sampler.stage is Reading || sampler.stage is Last) && !(
        event is Power) && !(event is PowerFailed) ==> sampler.after(event) == sampler,
        sampler.stage is Ready && !(event is ReadyReported) ==> sampler.after(event) == sampler,
        sampler.stage is Polling && !(event is StopFlag) ==> sampler.after(event) == sampler,
        sampler.stage is Sleeping && !(event is Slept) ==> sampler.after(event) == sampler,
        sampler.stage is Last && event is PowerFailed ==> sampler.after(event).stage is Over
            && sampler.after(event).samples == sampler.samples,
{
}

} // verus!
