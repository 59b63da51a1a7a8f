use cuda_lbm::power::{integrate_power, is_integrable, PowerSample};
use cuda_lbm::sampler::{PowerSampler, SamplerAction, SamplerEvent};

fn sample(wall_ns: u64) -> PowerSample {
    PowerSample { wall_ns, milliwatts: 1 }
}

fn failure(action: SamplerAction) -> String {
    match action {
        SamplerAction::ReportFailure(text) => text,
        _ => panic!("no failure"),
    }
}

fn running() -> PowerSampler {
    let mut sampler = PowerSampler::new(2);
    assert!(matches!(sampler.action(), SamplerAction::InitNvml));
    assert!(matches!(sampler.step(SamplerEvent::NvmlReady), SamplerAction::OpenDevice(2)));
    assert!(matches!(sampler.step(SamplerEvent::DeviceReady), SamplerAction::ReadPower));
    assert!(matches!(sampler.step(SamplerEvent::Power(sample(1))), SamplerAction::ReportReady));
    assert!(matches!(sampler.step(SamplerEvent::ReadyReported), SamplerAction::CheckStop));
    sampler
}

#[test]
fn a_trace_has_a_reading_after_the_stop() {
    let mut sampler = running();
    assert!(matches!(sampler.step(SamplerEvent::StopFlag(false)), SamplerAction::Sleep(50)));
    assert!(matches!(sampler.step(SamplerEvent::Slept), SamplerAction::ReadPower));
    assert!(matches!(sampler.step(SamplerEvent::Power(sample(2))), SamplerAction::CheckStop));
    assert!(matches!(sampler.step(SamplerEvent::StopFlag(true)), SamplerAction::ReadPower));
    assert!(matches!(sampler.step(SamplerEvent::Power(sample(3))), SamplerAction::Finish));
    assert_eq!(sampler.into_samples(), vec![sample(1), sample(2), sample(3)]);
}

#[test]
fn failed_readings_are_passed_over_once_it_runs() {
    let mut sampler = running();
    sampler.step(SamplerEvent::StopFlag(false));
    sampler.step(SamplerEvent::Slept);
    let failed = SamplerEvent::PowerFailed("x".to_string());
    assert!(matches!(sampler.step(failed), SamplerAction::CheckStop));
    sampler.step(SamplerEvent::StopFlag(true));
    let failed = SamplerEvent::PowerFailed("x".to_string());
    assert!(matches!(sampler.step(failed), SamplerAction::Finish));
    assert_eq!(sampler.into_samples(), vec![sample(1)]);
}

#[test]
fn failures_at_the_start_are_told() {
    let mut sampler = PowerSampler::new(2);
    let text = failure(sampler.step(SamplerEvent::NvmlFailed("no library".to_string())));
    assert_eq!(text, "NVML init: no library");
    assert_eq!(sampler.into_samples(), Vec::new());

    let mut sampler = PowerSampler::new(2);
    sampler.step(SamplerEvent::NvmlReady);
    let text = failure(sampler.step(SamplerEvent::DeviceFailed("no device".to_string())));
    assert_eq!(text, "NVML device 2: no device");

    let mut sampler = PowerSampler::new(2);
    sampler.step(SamplerEvent::NvmlReady);
    sampler.step(SamplerEvent::DeviceReady);
    let text = failure(sampler.step(SamplerEvent::PowerFailed("not supported".to_string())));
    assert_eq!(text, "NVML power_usage: not supported");
    assert_eq!(sampler.into_samples(), Vec::new());
}

#[test]
fn events_out_of_turn_change_nothing() {
    let mut sampler = PowerSampler::new(0);
    assert!(matches!(sampler.step(SamplerEvent::Power(sample(1))), SamplerAction::InitNvml));
    assert!(matches!(sampler.step(SamplerEvent::Slept), SamplerAction::InitNvml));
    assert_eq!(sampler.into_samples(), Vec::new());
}

#[test]
fn a_finished_trace_brackets_a_window_between_its_ends() {
    let mut sampler = running();
    for t in [20u64, 40, 90] {
        sampler.step(SamplerEvent::StopFlag(false));
        sampler.step(SamplerEvent::Slept);
        sampler.step(SamplerEvent::Power(sample(t)));
    }
    sampler.step(SamplerEvent::StopFlag(true));
    sampler.step(SamplerEvent::Power(sample(100)));
    let samples = sampler.into_samples();
    for (start, end) in [(1u64, 100u64), (30, 31), (2, 95)] {
        assert!(is_integrable(&samples, start, end));
        assert!(integrate_power(&samples, start, end).is_ok());
    }
}
