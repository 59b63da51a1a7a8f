use cuda_lbm::args::Args;
use cuda_lbm::report::{
    correctness_pass, document, idle_report, lattice_updates, markers_document, parity_gate,
    physical_gate, run_report, Field, IdleFigures, ParityFigures, PowerFigures, RunFigures,
    RunMarkers, StateFigures, Value, MASS_ERROR_THRESHOLD_BITS, MAX_ABS_SINGLE_BITS,
    MAX_ABS_THRESHOLD_BITS, RELATIVE_L2_THRESHOLD_BITS,
};

fn markers() -> RunMarkers {
    RunMarkers {
        start_wall_ns: 11,
        end_wall_ns: 12,
        start_monotonic_ns: 13,
        end_monotonic_ns: 20,
    }
}

fn power() -> PowerFigures {
    PowerFigures {
        energy_bits: 1,
        mean_power_bits: 2,
        selected_samples: 3,
        max_gap_bits: 4,
        boundary_start_bits: 5,
        boundary_end_bits: 6,
    }
}

fn state(base: u32) -> StateFigures {
    StateFigures {
        mass_bits: base as u64,
        kinetic_bits: base as u64 + 1,
        rho_min_bits: base + 2,
        rho_max_bits: base + 3,
        velocity_l2_bits: base as u64 + 4,
        divergence_rms_bits: base as u64 + 5,
        enstrophy_bits: base as u64 + 6,
    }
}

/// A plausible run, but for its mass error.
fn figures(mass_error: f64, parity: Option<ParityFigures>) -> RunFigures {
    let mut last = state(40);
    last.rho_min_bits = 0.9f32.to_bits();
    last.rho_max_bits = 1.1f32.to_bits();
    RunFigures {
        elapsed_bits: 21,
        mlups_bits: 22,
        gflop_s_bits: 23,
        updates_per_j_bits: 24,
        gflop_per_j_bits: 25,
        power: power(),
        initial: state(30),
        last,
        relative_mass_error_bits: mass_error.to_bits(),
        parity,
        markers: markers(),
    }
}

fn parity(relative_l2: f64, max_abs: f32) -> Option<ParityFigures> {
    Some(ParityFigures {
        relative_l2_bits: relative_l2.to_bits(),
        max_abs_bits: max_abs.to_bits(),
    })
}

fn find(fields: &[Field], section: &str, key: &str) -> Value {
    let found: Vec<&Field> =
        fields.iter().filter(|f| f.section == section && f.key == key).collect();
    assert_eq!(found.len(), 1, "{section}.{key}");
    found[0].value
}

#[test]
fn idle_traces_are_reported() {
    let report =
        idle_report(&IdleFigures { device: 7, duration_bits: 8, power: power(), markers: markers() });
    assert_eq!(report.len(), 17);
    assert_eq!(find(&report, "", "schema_version"), Value::Integer(2));
    assert_eq!(find(&report, "", "mode"), Value::Text("idle"));
    assert_eq!(find(&report, "", "backend"), Value::Text("cuda"));
    assert_eq!(find(&report, "", "device"), Value::Integer(7));
    assert_eq!(find(&report, "", "duration_s"), Value::Double(8));
    assert_eq!(find(&report, "", "power_scope"), Value::Text("nvidia_nvml_board_power"));
    assert_eq!(find(&report, "", "energy_j"), Value::Double(1));
    assert_eq!(find(&report, "", "mean_power_w"), Value::Double(2));
    assert_eq!(
        find(&report, "power_integration", "method"),
        Value::Text("trapezoidal-linear-interpolated-exact-marker-boundaries")
    );
    assert_eq!(find(&report, "power_integration", "selected_samples"), Value::Integer(3));
    assert_eq!(find(&report, "power_integration", "max_sample_gap_s"), Value::Double(4));
    assert_eq!(find(&report, "power_integration", "boundary_start_w"), Value::Double(5));
    assert_eq!(find(&report, "power_integration", "boundary_end_w"), Value::Double(6));
    assert_eq!(find(&report, "markers", "start_wall_ns"), Value::Integer(11));
    assert_eq!(find(&report, "markers", "end_wall_ns"), Value::Integer(12));
    assert_eq!(find(&report, "markers", "start_monotonic_ns"), Value::Integer(13));
    assert_eq!(find(&report, "markers", "end_monotonic_ns"), Value::Integer(20));
}

#[test]
fn runs_are_reported() {
    let report = run_report(&Args::default(), &figures(1e-7, None));
    for (key, value) in [
        ("schema_version", Value::Integer(2)),
        ("workload", Value::Text("d3q19-taylor-green")),
        ("backend", Value::Text("cuda")),
        ("implementation", Value::Text("cudarc-nvrtc-specialized-fused-soa-fp32")),
        ("execution_mode", Value::Text("single-device")),
        ("device", Value::Integer(0)),
        ("n", Value::Integer(128)),
        ("cells", Value::Integer(2097152)),
        ("steps", Value::Integer(1000)),
        ("warmup", Value::Integer(20)),
        ("block_threads", Value::Integer(256)),
        ("omega", Value::Single(1.0f32.to_bits())),
        ("u0", Value::Single(0.03f32.to_bits())),
        ("elapsed_s", Value::Double(21)),
        ("work_units", Value::Integer(2097152000)),
        ("mlups", Value::Double(22)),
        ("algorithmic_flops_per_lattice_update", Value::Integer(467)),
        ("algorithmic_gflop_s", Value::Double(23)),
        ("energy_j", Value::Double(1)),
        ("mean_power_w", Value::Double(2)),
        ("lattice_updates_per_j", Value::Double(24)),
        ("algorithmic_gflop_per_j", Value::Double(25)),
        ("relative_mass_error", Value::Double(1e-7f64.to_bits())),
        ("parity", Value::Null),
        ("correctness_pass", Value::Bool(true)),
    ] {
        assert_eq!(find(&report, "", key), value);
    }
    assert_eq!(find(&report, "kernel_specialization", "compile_time_n"), Value::Integer(128));
    assert_eq!(
        find(&report, "kernel_specialization", "compile_time_cells"),
        Value::Integer(2097152)
    );
    assert_eq!(
        find(&report, "kernel_specialization", "power_of_two_addressing"),
        Value::Bool(true)
    );
    assert_eq!(find(&report, "kernel_specialization", "layout"), Value::Text("soa"));
    assert_eq!(find(&report, "initial", "mass"), Value::Double(30));
    assert_eq!(find(&report, "initial", "rho_min"), Value::Single(32));
    assert_eq!(find(&report, "final", "kinetic_energy"), Value::Double(41));
    assert_eq!(find(&report, "final", "enstrophy"), Value::Double(46));
}

#[test]
fn the_cells_of_a_report_are_those_of_the_lattice() {
    let args = Args { n: 64, steps: 3, ..Args::default() };
    let report = run_report(&args, &figures(1e-7, None));
    assert_eq!(find(&report, "", "cells"), Value::Integer(262144));
    assert_eq!(find(&report, "", "work_units"), Value::Integer(786432));
    assert_eq!(
        find(&report, "kernel_specialization", "compile_time_cells"),
        Value::Integer(262144)
    );
}

#[test]
fn no_key_is_reported_twice() {
    let reports = [
        run_report(&Args::default(), &figures(1e-7, None)),
        run_report(&Args::default(), &figures(1e-7, parity(1e-7, 1e-6))),
    ];
    for report in &reports {
        for field in report {
            find(report, field.section, field.key);
            // A section has no entry of its name at the top.
            assert!(report.iter().all(|f| f.section != "" || f.key != field.section));
        }
    }
}

#[test]
fn the_comparison_with_the_host_is_reported() {
    let report = run_report(&Args::default(), &figures(1e-7, parity(1e-7, 1e-6)));
    assert_eq!(find(&report, "parity", "relative_l2"), Value::Double(1e-7f64.to_bits()));
    assert_eq!(find(&report, "parity", "max_abs"), Value::Single(1e-6f32.to_bits()));
    assert_eq!(
        find(&report, "parity", "relative_l2_threshold"),
        Value::Double(2e-6f64.to_bits())
    );
    assert_eq!(find(&report, "parity", "max_abs_threshold"), Value::Double(2e-5f64.to_bits()));
    assert_eq!(
        find(&report, "parity", "reference"),
        Value::Text("independent-host-fp32-pull-bgk")
    );
}

#[test]
fn a_run_passes_if_it_is_plausible_and_agrees() {
    assert!(correctness_pass(&figures(1e-7, None)));
    assert!(correctness_pass(&figures(1e-7, parity(1e-7, 1e-6))));
    assert!(!correctness_pass(&figures(1e-7, parity(2e-6, 1e-6))));
    assert!(!correctness_pass(&figures(1e-7, parity(1e-7, 2e-5))));
    assert!(!correctness_pass(&figures(1e-7, parity(f64::NAN, 1e-6))));
    assert!(!correctness_pass(&figures(1e-4, None)));
    assert!(!correctness_pass(&figures(f64::NAN, parity(1e-7, 1e-6))));
    assert!(correctness_pass(&figures(0.0, parity(0.0, 0.0))));
}

#[test]
fn implausible_states_fail() {
    let spoil = |change: fn(&mut StateFigures)| {
        let mut m = figures(1e-7, None);
        change(&mut m.last);
        physical_gate(&m)
    };
    assert!(spoil(|_| ()));
    assert!(!spoil(|s| s.rho_min_bits = 0.0f32.to_bits()));
    assert!(!spoil(|s| s.rho_min_bits = (-0.5f32).to_bits()));
    assert!(!spoil(|s| s.rho_min_bits = f32::NAN.to_bits()));
    assert!(!spoil(|s| s.rho_max_bits = f32::INFINITY.to_bits()));
    assert!(!spoil(|s| s.velocity_l2_bits = f64::NAN.to_bits()));
    assert!(!spoil(|s| s.velocity_l2_bits = f64::INFINITY.to_bits()));
}

#[test]
fn thresholds_are_those_of_the_report() {
    assert_eq!(f64::from_bits(RELATIVE_L2_THRESHOLD_BITS), 2e-6);
    assert_eq!(f64::from_bits(MAX_ABS_THRESHOLD_BITS), 2e-5);
    assert_eq!(f32::from_bits(MAX_ABS_SINGLE_BITS), 2e-5f32);
    assert_eq!(f64::from_bits(MASS_ERROR_THRESHOLD_BITS), 1e-4);
    assert!(parity_gate(&parity(1.9e-6, 1.9e-5).unwrap()));
}

#[test]
fn markers_are_a_document_of_their_own() {
    assert_eq!(
        markers_document(&markers()).unwrap(),
        "{\n  \"end_monotonic_ns\": 20,\n  \"end_wall_ns\": 12,\n  \"start_monotonic_ns\": 13,\n  \
         \"start_wall_ns\": 11\n}\n"
    );
    assert_eq!(document("{}".to_string()), "{}\n");
}

#[test]
fn amounts_are_counted() {
    assert_eq!(markers().elapsed_ns(), 7);
    assert_eq!(lattice_updates(2097152, 1000), 2097152000);
}
