use cuda_lbm::power::{
    integrate_power, interpolate_power, is_integrable, power_csv, PowerError, PowerSample, Reading,
    Span,
};

fn trace(samples: &[(u64, u32)]) -> Vec<PowerSample> {
    samples.iter().map(|&(wall_ns, milliwatts)| PowerSample { wall_ns, milliwatts }).collect()
}

#[test]
fn markers_are_read_at_or_between_samples() {
    let samples = trace(&[(10, 100), (20, 200), (30, 300)]);
    assert_eq!(interpolate_power(&samples, 20), Ok(Reading::At(1)));
    assert_eq!(
        interpolate_power(&samples, 24),
        Ok(Reading::Between { index: 1, elapsed_ns: 4, span_ns: 10 })
    );
    assert_eq!(interpolate_power(&samples, 10), Ok(Reading::At(0)));
    assert_eq!(interpolate_power(&samples, 9), Err(PowerError::NotBracketed(9)));
    assert_eq!(interpolate_power(&samples, 31), Err(PowerError::NotBracketed(31)));
    assert_eq!(interpolate_power(&trace(&[]), 1), Err(PowerError::NotBracketed(1)));
}

#[test]
fn a_sample_at_the_marker_comes_before_neighbours_around_it() {
    let samples = trace(&[(10, 100), (30, 300), (20, 200), (20, 201)]);
    assert_eq!(interpolate_power(&samples, 20), Ok(Reading::At(2)));
    let samples = trace(&[(10, 1), (30, 2), (5, 3), (40, 4)]);
    assert_eq!(
        interpolate_power(&samples, 20),
        Ok(Reading::Between { index: 0, elapsed_ns: 10, span_ns: 20 })
    );
}

#[test]
fn windows_are_selected_with_both_ends() {
    let samples = trace(&[(0, 50), (10, 60), (25, 70), (30, 80), (60, 90)]);
    assert!(is_integrable(&samples, 5, 40));
    let p = integrate_power(&samples, 5, 40).unwrap();
    assert_eq!(p.boundary_start, Reading::Between { index: 0, elapsed_ns: 5, span_ns: 10 });
    assert_eq!(p.boundary_end, Reading::Between { index: 3, elapsed_ns: 10, span_ns: 30 });
    assert_eq!(p.inner, vec![1, 2, 3]);
    assert_eq!(p.gaps_ns, vec![5, 15, 5, 10]);
    assert_eq!(p.sample_count, 5);
    assert_eq!(p.max_gap_ns, 15);
    assert_eq!(p.gaps_ns.iter().sum::<u64>(), 35);
}

#[test]
fn samples_at_the_ends_are_not_selected_twice() {
    let samples = trace(&[(10, 1), (20, 2), (30, 3)]);
    let p = integrate_power(&samples, 10, 30).unwrap();
    assert_eq!((p.boundary_start, p.boundary_end), (Reading::At(0), Reading::At(2)));
    assert_eq!(p.inner, vec![1]);
    assert_eq!(p.sample_count, 3);
    let p = integrate_power(&samples, 12, 18).unwrap();
    assert_eq!(p.inner, Vec::<usize>::new());
    assert_eq!((p.sample_count, p.max_gap_ns), (2, 6));
}

#[test]
fn windows_are_refused_in_order() {
    let one = trace(&[(10, 1)]);
    let two = trace(&[(10, 1), (20, 2)]);
    assert_eq!(integrate_power(&one, 5, 5).err(), Some(PowerError::Interval));
    assert_eq!(integrate_power(&one, 6, 5).err(), Some(PowerError::Interval));
    assert_eq!(integrate_power(&one, 5, 6).err(), Some(PowerError::TooFewSamples));
    assert_eq!(integrate_power(&two, 5, 25).err(), Some(PowerError::NotBracketed(5)));
    assert_eq!(integrate_power(&two, 15, 25).err(), Some(PowerError::NotBracketed(25)));
}

#[test]
fn power_errors_are_told() {
    assert_eq!(PowerError::Interval.message(), "invalid power integration interval");
    assert_eq!(PowerError::TooFewSamples.message(), "need at least two power samples");
    assert_eq!(
        PowerError::NotBracketed(1700000000).message(),
        "power samples do not bracket marker 1700000000"
    );
}

#[test]
fn a_trace_that_goes_back_has_no_integration() {
    let samples = trace(&[(0, 1), (20, 2), (10, 3), (40, 4)]);
    assert!(!is_integrable(&samples, 5, 30));
    // Outside the window, the order does not matter.
    assert!(is_integrable(&samples, 0, 5));
    // What is refused is refused before the order matters.
    assert!(is_integrable(&samples, 5, 50));
}

#[test]
fn outer_samples_bracket_a_window_whatever_lies_between() {
    let samples = trace(&[(0, 1), (90, 2), (10, 3), (100, 4)]);
    for target in 0..=100 {
        assert!(interpolate_power(&samples, target).is_ok());
    }
}

#[test]
fn traces_are_written_like_formatted_watts() {
    let samples =
        trace(&[(0, 0), (1, 1), (2, 999), (3, 1000), (4, 75031), (u64::MAX, u32::MAX)]);
    let mut expected = String::from("wall_ns,backend,device,power_w\n");
    for s in &samples {
        let watts = s.milliwatts as f64 / 1000.0;
        expected.push_str(&format!("{},nvidia,gpu3,{watts:.6}\n", s.wall_ns));
    }
    assert_eq!(power_csv(&samples, 3), expected);
    assert!(expected.contains("4,nvidia,gpu3,75.031000\n"));
    assert_eq!(power_csv(&trace(&[]), 0), "wall_ns,backend,device,power_w\n");
}

#[test]
fn spans_join_each_point_to_the_next() {
    let samples = trace(&[(0, 50), (10, 60), (25, 70), (30, 80), (60, 90)]);
    let p = integrate_power(&samples, 5, 40).unwrap();
    let start = Reading::Between { index: 0, elapsed_ns: 5, span_ns: 10 };
    let end = Reading::Between { index: 3, elapsed_ns: 10, span_ns: 30 };
    assert_eq!(
        p.spans(),
        vec![
            Span { from: start, to: Reading::At(1), gap_ns: 5 },
            Span { from: Reading::At(1), to: Reading::At(2), gap_ns: 15 },
            Span { from: Reading::At(2), to: Reading::At(3), gap_ns: 5 },
            Span { from: Reading::At(3), to: end, gap_ns: 10 },
        ]
    );
    let p = integrate_power(&samples, 10, 25).unwrap();
    assert_eq!(
        p.spans(),
        vec![Span { from: Reading::At(1), to: Reading::At(2), gap_ns: 15 }]
    );
}

#[test]
fn a_steady_ramp_has_its_energy() {
    // From 100 W to 200 W over ten seconds, of which the middle half is taken.
    let samples = trace(&[(0, 100_000), (4_000_000_000, 140_000), (10_000_000_000, 200_000)]);
    let joules = energy(&samples, 2_500_000_000, 7_500_000_000) / 1e9;
    assert!((joules - 750.0).abs() < 1e-9);
}

/// The energy over a window, from the readings at the ends of its lines.
fn energy(samples: &Vec<PowerSample>, start: u64, end: u64) -> f64 {
    let watts = |r: &Reading| match *r {
        Reading::At(i) => samples[i].milliwatts as f64 / 1000.0,
        Reading::Between { index, elapsed_ns, span_ns } => {
            let p0 = samples[index].milliwatts as f64 / 1000.0;
            let p1 = samples[index + 1].milliwatts as f64 / 1000.0;
            p0 + elapsed_ns as f64 / span_ns as f64 * (p1 - p0)
        }
    };
    let spans = integrate_power(samples, start, end).unwrap().spans();
    spans.iter().map(|s| 0.5 * (watts(&s.from) + watts(&s.to)) * s.gap_ns as f64).sum()
}

#[test]
fn energies_over_windows_that_meet_add_up() {
    let samples =
        trace(&[(0, 50_000), (10, 61_000), (25, 17_000), (30, 80_500), (60, 9_000), (61, 77_000)]);
    for start in [0u64, 3, 10, 12] {
        for mid in [13u64, 20, 25, 26, 30, 40] {
            for end in [41u64, 55, 60, 61] {
                let first = integrate_power(&samples, start, mid).unwrap();
                let second = integrate_power(&samples, mid, end).unwrap();
                let whole = integrate_power(&samples, start, end).unwrap();
                assert_eq!(first.boundary_end, second.boundary_start);
                assert_eq!(whole.boundary_start, first.boundary_start);
                assert_eq!(whole.boundary_end, second.boundary_end);
                let parts = energy(&samples, start, mid) + energy(&samples, mid, end);
                assert!((energy(&samples, start, end) - parts).abs() < 1e-9 * parts);
            }
        }
    }
}
