//! Reports of a run and of an idle trace: which value stands under which key, and
//! the markers as a document of their own.
use vstd::arithmetic::power2::{
    lemma2_to64, lemma2_to64_rest, lemma_pow2_adds, lemma_pow2_pos, pow2,
};
use vstd::prelude::*;

use crate::args::Args;
use crate::ieee::{
    double_finite, double_is_finite, double_is_nan, double_less, double_lt, double_value,
    law_double_value_by_its_fields, law_magnitudes_have_the_order_of_their_bits,
    law_single_value_by_its_fields, magnitude, single_finite, single_is_finite, single_is_nan,
    single_less, single_lt, single_value,
};
use crate::lattice::{cube, ALGORITHMIC_FLOPS_PER_LUP};
use crate::text::decimal;

verus! {

/// Where the power figures come from.
pub const POWER_SCOPE: &'static str = "nvidia_nvml_board_power";

/// How the energy is computed.
pub const INTEGRATION_METHOD: &'static str = "trapezoidal-linear-interpolated-exact-marker-boundaries";

/// The bits of 2e-6, which the relative error against the host reference stays under.
pub const RELATIVE_L2_THRESHOLD_BITS: u64 = 0x3ec0_c6f7_a0b5_ed8d;

/// The bits of 2e-5, which the largest absolute error stays under.
pub const MAX_ABS_THRESHOLD_BITS: u64 = 0x3ef4_f8b5_88e3_68f1;

/// The same in single precision, in which the errors are measured.
pub const MAX_ABS_SINGLE_BITS: u32 = 0x37a7_c5ac;

/// The bits of 1e-4, which the relative error of the mass stays under.
pub const MASS_ERROR_THRESHOLD_BITS: u64 = 0x3f1a_36e2_eb1c_432d;

/// A value of a report. Floating-point numbers are given by their bits.
#[derive(Clone, Copy, Debug, PartialEq, Eq)]
pub enum Value {
    Null,
    Bool(bool),
    Integer(u64),
    Single(u32),
    Double(u64),
    Text(&'static str),
}

/// One entry of a report. An entry without a section stands at the top.
#[derive(Clone, Copy, Debug, PartialEq, Eq)]
pub struct Field {
    pub section: &'static str,
    pub key: &'static str,
    pub value: Value,
}

/// When a measurement began and ended, by both clocks.
#[derive(Clone, Copy, Debug, PartialEq, Eq, Structural)]
pub struct RunMarkers {
    pub start_wall_ns: u64,
    pub end_wall_ns: u64,
    pub start_monotonic_ns: u64,
    pub end_monotonic_ns: u64,
}

/// The figures of a power integration.
#[derive(Clone, Copy, Debug, PartialEq, Eq, Structural)]
pub struct PowerFigures {
    pub energy_bits: u64,
    pub mean_power_bits: u64,
    pub selected_samples: usize,
    pub max_gap_bits: u64,
    pub boundary_start_bits: u64,
    pub boundary_end_bits: u64,
}

/// The figures of an idle trace.
#[derive(Clone, Copy, Debug, PartialEq, Eq, Structural)]
pub struct IdleFigures {
    pub device: usize,
    pub duration_bits: u64,
    pub power: PowerFigures,
    pub markers: RunMarkers,
}

/// The figures of a state.
#[derive(Clone, Copy, Debug, PartialEq, Eq, Structural)]
pub struct StateFigures {
    pub mass_bits: u64,
    pub kinetic_bits: u64,
    pub rho_min_bits: u32,
    pub rho_max_bits: u32,
    pub velocity_l2_bits: u64,
    pub divergence_rms_bits: u64,
    pub enstrophy_bits: u64,
}

/// The comparison with the host reference.
#[derive(Clone, Copy, Debug, PartialEq, Eq, Structural)]
pub struct ParityFigures {
    pub relative_l2_bits: u64,
    pub max_abs_bits: u32,
}

/// The figures of a run of the solver.
#[derive(Clone, Copy, Debug, PartialEq, Eq, Structural)]
pub struct RunFigures {
    pub elapsed_bits: u64,
    pub mlups_bits: u64,
    pub gflop_s_bits: u64,
    pub updates_per_j_bits: u64,
    pub gflop_per_j_bits: u64,
    pub power: PowerFigures,
    pub initial: StateFigures,
    pub last: StateFigures,
    pub relative_mass_error_bits: u64,
    pub parity: Option<ParityFigures>,
    pub markers: RunMarkers,
}

pub open spec fn field(section: &'static str, key: &'static str, value: Value) -> Field {
    Field { section, key, value }
}

fn push(r: &mut Vec<Field>, section: &'static str, key: &'static str, value: Value)
    ensures
        final(r)@ == old(r)@.push(field(section, key, value)),
{
    r.push(Field { section, key, value });
}

/// A run is plausible if it kept its mass, its densities are positive and finite, and
/// its velocities are finite.
pub open spec fn is_plausible(m: RunFigures) -> bool {
    &&& double_lt(m.relative_mass_error_bits, MASS_ERROR_THRESHOLD_BITS)
    &&& single_lt(0, m.last.rho_min_bits)
    &&& single_is_finite(m.last.rho_max_bits)
    &&& double_is_finite(m.last.velocity_l2_bits)
}

/// A run agrees with the host reference if both errors stay under their thresholds.
pub open spec fn agrees(p: ParityFigures) -> bool {
    double_lt(p.relative_l2_bits, RELATIVE_L2_THRESHOLD_BITS) && single_lt(
        p.max_abs_bits,
        MAX_ABS_SINGLE_BITS,
    )
}

/// A run is correct if it is plausible and, where it was compared with the host
/// reference, agrees with it.
pub open spec fn is_correct(m: RunFigures) -> bool {
    is_plausible(m) && match m.parity {
        Some(p) => agrees(p),
        None => true,
    }
}

/// Whether a run is plausible.
pub fn physical_gate(m: &RunFigures) -> (r: bool)
    ensures
        r == is_plausible(*m),
        r ==> double_value(m.relative_mass_error_bits) * 10_000 < pow2(1074),
        r ==> single_value(m.last.rho_min_bits) > 0,
{
    proof {
        law_plausible_runs_keep_their_mass(*m);
    }
    double_less(m.relative_mass_error_bits, MASS_ERROR_THRESHOLD_BITS) && single_less(
        0,
        m.last.rho_min_bits,
    ) && single_finite(m.last.rho_max_bits) && double_finite(m.last.velocity_l2_bits)
}

/// Whether a run agrees with the host reference.
pub fn parity_gate(p: &ParityFigures) -> (r: bool)
    ensures
        r == agrees(*p),
        r ==> double_value(p.relative_l2_bits) * 500_000 < pow2(1074),
        r ==> single_value(p.max_abs_bits) * 50_000 < pow2(149),
{
    proof {
        law_agreement_keeps_both_errors_small(*p);
    }
    double_less(p.relative_l2_bits, RELATIVE_L2_THRESHOLD_BITS) && single_less(
        p.max_abs_bits,
        MAX_ABS_SINGLE_BITS,
    )
}

/// Whether a run is correct.
pub fn correctness_pass(m: &RunFigures) -> (r: bool)
    ensures
        r == is_correct(*m),
        r ==> is_plausible(*m),
        r && m.parity is Some ==> agrees(m.parity->0),
{
    physical_gate(m) && match &m.parity {
        Some(p) => parity_gate(p),
        None => true,
    }
}

/// The number of cell updates of `steps` steps.
pub fn lattice_updates(cells: u64, steps: u64) -> (r: u64)
    requires
        cells * steps <= u64::MAX,
    ensures
        r == cells * steps,
{
    cells * steps
}

impl RunMarkers {
    /// The time between the markers, by the monotonic clock.
    pub fn elapsed_ns(&self) -> (r: u64)
        requires
            self.start_monotonic_ns <= self.end_monotonic_ns,
        ensures
            r == self.end_monotonic_ns - self.start_monotonic_ns,
    {
        self.end_monotonic_ns - self.start_monotonic_ns
    }
}

/// The entries on the markers.
pub open spec fn marker_fields(m: RunMarkers) -> Seq<Field> {
    seq![
        field("markers", "start_wall_ns", Value::Integer(m.start_wall_ns)),
        field("markers", "end_wall_ns", Value::Integer(m.end_wall_ns)),
        field("markers", "start_monotonic_ns", Value::Integer(m.start_monotonic_ns)),
        field("markers", "end_monotonic_ns", Value::Integer(m.end_monotonic_ns)),
    ]
}

fn push_markers(r: &mut Vec<Field>, m: &RunMarkers)
    ensures
        final(r)@ == old(r)@ + marker_fields(*m),
{
    push(r, "markers", "start_wall_ns", Value::Integer(m.start_wall_ns));
    push(r, "markers", "end_wall_ns", Value::Integer(m.end_wall_ns));
    push(r, "markers", "start_monotonic_ns", Value::Integer(m.start_monotonic_ns));
    push(r, "markers", "end_monotonic_ns", Value::Integer(m.end_monotonic_ns));
    assert(r@ =~= old(r)@ + marker_fields(*m));
}

/// The entries of the report of an idle trace.
pub open spec fn idle_fields(m: IdleFigures) -> Seq<Field> {
    seq![
        field("", "schema_version", Value::Integer(2)),
        field("", "mode", Value::Text("idle")),
        field("", "backend", Value::Text("cuda")),
        field("", "device", Value::Integer(m.device as u64)),
        field("", "duration_s", Value::Double(m.duration_bits)),
        field("", "power_scope", Value::Text(POWER_SCOPE)),
        field("", "energy_j", Value::Double(m.power.energy_bits)),
        field("", "mean_power_w", Value::Double(m.power.mean_power_bits)),
        field("power_integration", "method", Value::Text(INTEGRATION_METHOD)),
        field("power_integration", "selected_samples", Value::Integer(m.power.selected_samples as u64)),
        field("power_integration", "max_sample_gap_s", Value::Double(m.power.max_gap_bits)),
        field("power_integration", "boundary_start_w", Value::Double(m.power.boundary_start_bits)),
        field("power_integration", "boundary_end_w", Value::Double(m.power.boundary_end_bits)),
    ] + marker_fields(m.markers)
}

/// Reports an idle trace.
pub fn idle_report(m: &IdleFigures) -> (r: Vec<Field>)
    ensures
        r@ == idle_fields(*m),
{
    let mut r: Vec<Field> = Vec::new();
    push(&mut r, "", "schema_version", Value::Integer(2));
    push(&mut r, "", "mode", Value::Text("idle"));
    push(&mut r, "", "backend", Value::Text("cuda"));
    push(&mut r, "", "device", Value::Integer(m.device as u64));
    push(&mut r, "", "duration_s", Value::Double(m.duration_bits));
    push(&mut r, "", "power_scope", Value::Text(POWER_SCOPE));
    push(&mut r, "", "energy_j", Value::Double(m.power.energy_bits));
    push(&mut r, "", "mean_power_w", Value::Double(m.power.mean_power_bits));
    push(&mut r, "power_integration", "method", Value::Text(INTEGRATION_METHOD));
    push(&mut r, "power_integration", "selected_samples", Value::Integer(m.power.selected_samples as u64));
    push(&mut r, "power_integration", "max_sample_gap_s", Value::Double(m.power.max_gap_bits));
    push(&mut r, "power_integration", "boundary_start_w", Value::Double(m.power.boundary_start_bits));
    push(&mut r, "power_integration", "boundary_end_w", Value::Double(m.power.boundary_end_bits));
    push_markers(&mut r, &m.markers);
    assert(r@ =~= idle_fields(*m));
    r
}

/// The entries on the settings, the throughput and the energy of a run.
pub open spec fn run_head_fields(args: Args, m: RunFigures) -> Seq<Field> {
    seq![
        field("", "schema_version", Value::Integer(2)),
        field("", "workload", Value::Text("d3q19-taylor-green")),
        field("", "backend", Value::Text("cuda")),
        field("", "implementation", Value::Text("cudarc-nvrtc-specialized-fused-soa-fp32")),
        field("", "execution_mode", Value::Text("single-device")),
        field("", "device", Value::Integer(args.device as u64)),
        field("", "n", Value::Integer(args.n as u64)),
        field("", "cells", Value::Integer(cube(args.n as nat) as u64)),
        field("", "steps", Value::Integer(args.steps as u64)),
        field("", "warmup", Value::Integer(args.warmup as u64)),
        field("", "block_threads", Value::Integer(args.block as u64)),
        field("", "omega", Value::Single(args.omega_bits)),
        field("", "u0", Value::Single(args.u0_bits)),
        field("", "elapsed_s", Value::Double(m.elapsed_bits)),
        field("", "work_units", Value::Integer((cube(args.n as nat) * args.steps) as u64)),
        field("", "mlups", Value::Double(m.mlups_bits)),
        field("", "algorithmic_flops_per_lattice_update", Value::Integer(ALGORITHMIC_FLOPS_PER_LUP)),
        field("", "algorithmic_gflop_s", Value::Double(m.gflop_s_bits)),
        field("", "power_scope", Value::Text(POWER_SCOPE)),
        field("", "energy_j", Value::Double(m.power.energy_bits)),
        field("", "mean_power_w", Value::Double(m.power.mean_power_bits)),
        field("", "lattice_updates_per_j", Value::Double(m.updates_per_j_bits)),
        field("", "algorithmic_gflop_per_j", Value::Double(m.gflop_per_j_bits)),
        field("power_integration", "method", Value::Text(INTEGRATION_METHOD)),
        field("power_integration", "selected_samples", Value::Integer(m.power.selected_samples as u64)),
        field("power_integration", "max_sample_gap_s", Value::Double(m.power.max_gap_bits)),
        field("power_integration", "boundary_start_w", Value::Double(m.power.boundary_start_bits)),
        field("power_integration", "boundary_end_w", Value::Double(m.power.boundary_end_bits)),
        field("kernel_specialization", "compile_time_n", Value::Integer(args.n as u64)),
        field("kernel_specialization", "compile_time_cells", Value::Integer(cube(args.n as nat) as u64)),
        field("kernel_specialization", "power_of_two_addressing", Value::Bool(true)),
        field("kernel_specialization", "block_threads", Value::Integer(args.block as u64)),
        field("kernel_specialization", "layout", Value::Text("soa")),
    ]
}

/// The entries on the initial state.
pub open spec fn initial_fields(m: RunFigures) -> Seq<Field> {
    seq![
        field("initial", "mass", Value::Double(m.initial.mass_bits)),
        field("initial", "kinetic_energy", Value::Double(m.initial.kinetic_bits)),
        field("initial", "rho_min", Value::Single(m.initial.rho_min_bits)),
        field("initial", "rho_max", Value::Single(m.initial.rho_max_bits)),
        field("initial", "velocity_l2", Value::Double(m.initial.velocity_l2_bits)),
        field("initial", "divergence_rms", Value::Double(m.initial.divergence_rms_bits)),
        field("initial", "enstrophy", Value::Double(m.initial.enstrophy_bits)),
    ]
}

/// The entries on the final state.
pub open spec fn final_fields(m: RunFigures) -> Seq<Field> {
    seq![
        field("final", "mass", Value::Double(m.last.mass_bits)),
        field("final", "kinetic_energy", Value::Double(m.last.kinetic_bits)),
        field("final", "rho_min", Value::Single(m.last.rho_min_bits)),
        field("final", "rho_max", Value::Single(m.last.rho_max_bits)),
        field("final", "velocity_l2", Value::Double(m.last.velocity_l2_bits)),
        field("final", "divergence_rms", Value::Double(m.last.divergence_rms_bits)),
        field("final", "enstrophy", Value::Double(m.last.enstrophy_bits)),
    ]
}

/// The entries on the comparison with the host reference; without one there is a null
/// in its place.
pub open spec fn parity_fields(m: RunFigures) -> Seq<Field> {
    match m.parity {
        None => seq![
            field("", "parity", Value::Null),
        ],
        Some(p) => seq![
            field("parity", "reference", Value::Text("independent-host-fp32-pull-bgk")),
            field("parity", "relative_l2", Value::Double(p.relative_l2_bits)),
            field("parity", "max_abs", Value::Single(p.max_abs_bits)),
            field("parity", "relative_l2_threshold", Value::Double(RELATIVE_L2_THRESHOLD_BITS)),
            field("parity", "max_abs_threshold", Value::Double(MAX_ABS_THRESHOLD_BITS)),
        ],
    }
}

/// The entries on the verdict and the markers.
pub open spec fn verdict_fields(m: RunFigures) -> Seq<Field> {
    seq![
        field("", "correctness_pass", Value::Bool(is_correct(m))),
    ] + marker_fields(m.markers)
}

/// The entries of the report of a run.
pub open spec fn run_fields(args: Args, m: RunFigures) -> Seq<Field> {
    run_head_fields(args, m) + initial_fields(m) + final_fields(m) + seq![
        field("", "relative_mass_error", Value::Double(m.relative_mass_error_bits)),
    ] + parity_fields(m) + verdict_fields(m)
}

/// Reports a run of the solver.
pub fn run_report(args: &Args, m: &RunFigures) -> (r: Vec<Field>)
    requires
        cube(args.n as nat) <= usize::MAX,
        cube(args.n as nat) * args.steps <= u64::MAX,
    ensures
        r@ == run_fields(*args, *m),
{
    proof {
        let n = args.n;
        assert(n * n <= n * n * n || n * n == 0) by (nonlinear_arith);
    }
    let cells: u64 = (args.n * args.n * args.n) as u64;
    let mut r: Vec<Field> = Vec::new();
    push(&mut r, "", "schema_version", Value::Integer(2));
    push(&mut r, "", "workload", Value::Text("d3q19-taylor-green"));
    push(&mut r, "", "backend", Value::Text("cuda"));
    push(&mut r, "", "implementation", Value::Text("cudarc-nvrtc-specialized-fused-soa-fp32"));
    push(&mut r, "", "execution_mode", Value::Text("single-device"));
    push(&mut r, "", "device", Value::Integer(args.device as u64));
    push(&mut r, "", "n", Value::Integer(args.n as u64));
    push(&mut r, "", "cells", Value::Integer(cells));
    push(&mut r, "", "steps", Value::Integer(args.steps as u64));
    push(&mut r, "", "warmup", Value::Integer(args.warmup as u64));
    push(&mut r, "", "block_threads", Value::Integer(args.block as u64));
    push(&mut r, "", "omega", Value::Single(args.omega_bits));
    push(&mut r, "", "u0", Value::Single(args.u0_bits));
    push(&mut r, "", "elapsed_s", Value::Double(m.elapsed_bits));
    push(&mut r, "", "work_units", Value::Integer(lattice_updates(cells, args.steps as u64)));
    push(&mut r, "", "mlups", Value::Double(m.mlups_bits));
    push(&mut r, "", "algorithmic_flops_per_lattice_update", Value::Integer(ALGORITHMIC_FLOPS_PER_LUP));
    push(&mut r, "", "algorithmic_gflop_s", Value::Double(m.gflop_s_bits));
    push(&mut r, "", "power_scope", Value::Text(POWER_SCOPE));
    push(&mut r, "", "energy_j", Value::Double(m.power.energy_bits));
    push(&mut r, "", "mean_power_w", Value::Double(m.power.mean_power_bits));
    push(&mut r, "", "lattice_updates_per_j", Value::Double(m.updates_per_j_bits));
    push(&mut r, "", "algorithmic_gflop_per_j", Value::Double(m.gflop_per_j_bits));
    push(&mut r, "power_integration", "method", Value::Text(INTEGRATION_METHOD));
    push(&mut r, "power_integration", "selected_samples", Value::Integer(m.power.selected_samples as u64));
    push(&mut r, "power_integration", "max_sample_gap_s", Value::Double(m.power.max_gap_bits));
    push(&mut r, "power_integration", "boundary_start_w", Value::Double(m.power.boundary_start_bits));
    push(&mut r, "power_integration", "boundary_end_w", Value::Double(m.power.boundary_end_bits));
    push(&mut r, "kernel_specialization", "compile_time_n", Value::Integer(args.n as u64));
    push(&mut r, "kernel_specialization", "compile_time_cells", Value::Integer(cells));
    push(&mut r, "kernel_specialization", "power_of_two_addressing", Value::Bool(true));
    push(&mut r, "kernel_specialization", "block_threads", Value::Integer(args.block as u64));
    push(&mut r, "kernel_specialization", "layout", Value::Text("soa"));
    assert(r@ =~= run_head_fields(*args, *m));
    let ghost before = r@;
    push(&mut r, "initial", "mass", Value::Double(m.initial.mass_bits));
    push(&mut r, "initial", "kinetic_energy", Value::Double(m.initial.kinetic_bits));
    push(&mut r, "initial", "rho_min", Value::Single(m.initial.rho_min_bits));
    push(&mut r, "initial", "rho_max", Value::Single(m.initial.rho_max_bits));
    push(&mut r, "initial", "velocity_l2", Value::Double(m.initial.velocity_l2_bits));
    push(&mut r, "initial", "divergence_rms", Value::Double(m.initial.divergence_rms_bits));
    push(&mut r, "initial", "enstrophy", Value::Double(m.initial.enstrophy_bits));
    assert(r@ =~= before + initial_fields(*m));
    let ghost before = r@;
    push(&mut r, "final", "mass", Value::Double(m.last.mass_bits));
    push(&mut r, "final", "kinetic_energy", Value::Double(m.last.kinetic_bits));
    push(&mut r, "final", "rho_min", Value::Single(m.last.rho_min_bits));
    push(&mut r, "final", "rho_max", Value::Single(m.last.rho_max_bits));
    push(&mut r, "final", "velocity_l2", Value::Double(m.last.velocity_l2_bits));
    push(&mut r, "final", "divergence_rms", Value::Double(m.last.divergence_rms_bits));
    push(&mut r, "final", "enstrophy", Value::Double(m.last.enstrophy_bits));
    assert(r@ =~= before + final_fields(*m));
    let ghost before = r@;
    push(&mut r, "", "relative_mass_error", Value::Double(m.relative_mass_error_bits));
    assert(r@ =~= before + seq![
        field("", "relative_mass_error", Value::Double(m.relative_mass_error_bits)),
    ]);
    let ghost before = r@;
    match m.parity {
        None => {
            push(&mut r, "", "parity", Value::Null);
        },
        Some(p) => {
            push(&mut r, "parity", "reference", Value::Text("independent-host-fp32-pull-bgk"));
            push(&mut r, "parity", "relative_l2", Value::Double(p.relative_l2_bits));
            push(&mut r, "parity", "max_abs", Value::Single(p.max_abs_bits));
            push(&mut r, "parity", "relative_l2_threshold", Value::Double(RELATIVE_L2_THRESHOLD_BITS));
            push(&mut r, "parity", "max_abs_threshold", Value::Double(MAX_ABS_THRESHOLD_BITS));
        },
    }
    assert(r@ =~= before + parity_fields(*m));
    let ghost before = r@;
    push(&mut r, "", "correctness_pass", Value::Bool(correctness_pass(m)));
    push_markers(&mut r, &m.markers);
    assert(r@ =~= before + verdict_fields(*m));
    r
}

/// Why a document cannot be written.
#[derive(Clone, Copy, Debug, PartialEq, Eq, Structural)]
pub enum ReportError {
    /// The entries cannot be written as JSON.
    Json,
}

/// The error of the JSON writer; opaque.
#[verifier::external_type_specification]
#[verifier::external_body]
pub struct ExJsonError(serde_json::Error);

/// Whether a key is made of characters that JSON writes as they are.
pub open spec fn is_plain_key(key: Seq<char>) -> bool {
    forall|i: int| 0 <= i < key.len() ==> ('a' <= #[trigger] key[i] <= 'z' || key[i] == '_')
}

/// Whether `a` comes before `b` in the order of texts: at the first character in which
/// they differ, that of `a` is the lesser.
pub open spec fn comes_before(a: Seq<char>, b: Seq<char>) -> bool {
    exists|i: int|
        0 <= i < a.len() && i < b.len() && a.take(i) == b.take(i) && #[trigger] a[i] < b[i]
}

/// The keys and integers of some entries.
pub open spec fn entries_of(entries: Seq<(&'static str, u64)>) -> Seq<(Seq<char>, u64)> {
    entries.map_values(|e: (&'static str, u64)| (e.0@, e.1))
}

/// Whether entries can stand in an object as they are: their keys are plain and in
/// ascending order, so that none occurs twice.
pub open spec fn in_key_order(entries: Seq<(Seq<char>, u64)>) -> bool {
    &&& forall|i: int| 0 <= i < entries.len() ==> is_plain_key(#[trigger] entries[i].0)
    &&& forall|i: int, j: int|
        0 <= i < j < entries.len() ==> comes_before(
            #[trigger] entries[i].0,
            #[trigger] entries[j].0,
        )
}

/// The line of an entry.
pub open spec fn entry_text(entry: (Seq<char>, u64)) -> Seq<char> {
    "  \""@ + entry.0 + "\": "@ + decimal(entry.1 as nat)
}

/// The lines of some entries, with a comma after all but the last.
pub open spec fn lines_text(entries: Seq<(Seq<char>, u64)>) -> Seq<char>
    decreases entries.len(),
{
    if entries.len() == 0 {
        Seq::empty()
    } else if entries.len() == 1 {
        entry_text(entries[0])
    } else {
        lines_text(entries.drop_last()) + ",\n"@ + entry_text(entries.last())
    }
}

/// An object with these entries as JSON for people: a line for each entry, in braces.
pub open spec fn object_text(entries: Seq<(Seq<char>, u64)>) -> Seq<char> {
    "{\n"@ + lines_text(entries) + "\n}"@
}

/// `serde_json::to_string_pretty` on an object: a map of texts to integers is always
/// written, and its text has a line for each entry in the order of the keys, indented
/// by two blanks. Claimed of plain keys in ascending order.
#[verifier::external_body]
fn to_string_pretty(entries: &Vec<(&'static str, u64)>) -> (r: Result<String, serde_json::Error>)
    requires
        entries.len() > 0,
        in_key_order(entries_of(entries@)),
    ensures
        r is Ok,
        r->Ok_0@ == object_text(entries_of(entries@)),
{
    let object: serde_json::Map<String, serde_json::Value> = entries
        .iter()
        .map(|e| (e.0.to_string(), serde_json::Value::from(e.1)))
        .collect();
    serde_json::to_string_pretty(&object)
}

/// The markers as keys and integers, in the order of the keys.
pub open spec fn marker_entries(m: RunMarkers) -> Seq<(Seq<char>, u64)> {
    seq![
        ("end_monotonic_ns"@, m.end_monotonic_ns),
        ("end_wall_ns"@, m.end_wall_ns),
        ("start_monotonic_ns"@, m.start_monotonic_ns),
        ("start_wall_ns"@, m.start_wall_ns),
    ]
}

proof fn lemma_markers_in_key_order(m: RunMarkers)
    ensures
        in_key_order(marker_entries(m)),
{
    let (a, b, c, d) = (
        "end_monotonic_ns"@,
        "end_wall_ns"@,
        "start_monotonic_ns"@,
        "start_wall_ns"@,
    );
    reveal_strlit("end_monotonic_ns");
    reveal_strlit("end_wall_ns");
    reveal_strlit("start_monotonic_ns");
    reveal_strlit("start_wall_ns");
    assert(a.take(4) =~= b.take(4) && a[4] < b[4]);
    assert(c.take(6) =~= d.take(6) && c[6] < d[6]);
    assert(a.take(0) =~= c.take(0) && a[0] < c[0]);
    assert(a.take(0) =~= d.take(0) && a[0] < d[0]);
    assert(b.take(0) =~= c.take(0) && b[0] < c[0]);
    assert(b.take(0) =~= d.take(0) && b[0] < d[0]);
}

/// A JSON text as a document: it ends with a line break.
pub fn document(json: String) -> (r: String)
    ensures
        r@ == json@ + "\n"@,
{
    json.concat("\n")
}

/// The markers as a JSON document. There always is one.
pub fn markers_document(m: &RunMarkers) -> (r: Result<String, ReportError>)
    ensures
        r is Ok,
        r->Ok_0@ == object_text(marker_entries(*m)) + "\n"@,
{
    let mut entries: Vec<(&'static str, u64)> = Vec::new();
    entries.push(("end_monotonic_ns", m.end_monotonic_ns));
    entries.push(("end_wall_ns", m.end_wall_ns));
    entries.push(("start_monotonic_ns", m.start_monotonic_ns));
    entries.push(("start_wall_ns", m.start_wall_ns));
    proof {
        assert(entries_of(entries@) =~= marker_entries(*m));
        lemma_markers_in_key_order(*m);
    }
    match to_string_pretty(&entries) {
        Ok(json) => Ok(document(json)),
        Err(_) => Err(ReportError::Json),
    }
}

/// The markers document holds what the report holds under its markers: each entry of
/// either has the same key and the same integer in the other.
pub proof fn law_markers_document_repeats_report(m: RunMarkers, i: int)
    requires
        0 <= i < marker_fields(m).len(),
    ensures
        marker_entries(m).len() == marker_fields(m).len(),
        marker_fields(m)[i].section@ == "markers"@,
        exists|j: int|
            0 <= j < marker_entries(m).len() && marker_fields(m)[i].key@ == (
            #[trigger] marker_entries(m)[j]).0 && marker_fields(m)[i].value == Value::Integer(
                marker_entries(m)[j].1,
            ),
        exists|j: int|
            0 <= j < marker_fields(m).len() && (#[trigger] marker_fields(m)[j]).key@
                == marker_entries(m)[i].0 && marker_fields(m)[j].value == Value::Integer(
                marker_entries(m)[i].1,
            ),
{
    let (fields, entries) = (marker_fields(m), marker_entries(m));
    assert(fields[0].key@ == entries[3].0);
    assert(fields[1].key@ == entries[1].0);
    assert(fields[2].key@ == entries[2].0);
    assert(fields[3].key@ == entries[0].0);
}

/// The thresholds as numbers: two millionths and a ten-thousandth in double precision, where
/// the smallest positive number is one over `2^1074`, and two hundred-thousandths in single
/// precision, where it is one over `2^149`. Each is next to the fraction that it stands for.
pub proof fn law_thresholds_are_next_to_their_fractions()
    ensures
        double_value(RELATIVE_L2_THRESHOLD_BITS) * 500_000 < pow2(1074),
        pow2(1074) < double_value(RELATIVE_L2_THRESHOLD_BITS) * 500_001,
        single_value(MAX_ABS_SINGLE_BITS) * 50_000 < pow2(149),
        pow2(149) < single_value(MAX_ABS_SINGLE_BITS) * 50_001,
        magnitude((MASS_ERROR_THRESHOLD_BITS - 1) as nat, 0x10_0000_0000_0000) * 10_000 < pow2(
            1074,
        ),
        pow2(1074) < double_value(MASS_ERROR_THRESHOLD_BITS) * 10_000,
        double_value(MAX_ABS_THRESHOLD_BITS) * 49_999 < pow2(1074),
        pow2(1074) < double_value(MAX_ABS_THRESHOLD_BITS) * 50_000,
{
    lemma2_to64();
    lemma2_to64_rest();
    lemma_pow2_adds(64, 7);
    lemma_pow2_adds(64, 2);
    lemma_pow2_adds(64, 4);
    lemma_pow2_adds(1003, 71);
    lemma_pow2_adds(1008, 66);
    lemma_pow2_adds(1006, 68);
    lemma_pow2_adds(110, 39);
    lemma_pow2_pos(1003);
    lemma_pow2_pos(1008);
    lemma_pow2_pos(1006);
    lemma_pow2_pos(110);
    let (a, b, c, d) = (pow2(1003), pow2(1008), pow2(1006), pow2(110));
    assert(pow2(71) == 0x80_0000_0000_0000_0000);
    assert(pow2(66) == 0x4_0000_0000_0000_0000);
    assert(pow2(68) == 0x10_0000_0000_0000_0000);
    assert(pow2(39) == 0x80_0000_0000);
    assert(a * 0x80_0000_0000_0000_0000 == pow2(1074));
    assert(b * 0x4_0000_0000_0000_0000 == pow2(1074));
    assert(c * 0x10_0000_0000_0000_0000 == pow2(1074));
    assert(d * 0x80_0000_0000 == pow2(149));
    assert(double_value(RELATIVE_L2_THRESHOLD_BITS) == 0x10_c6f7_a0b5_ed8d * a);
    assert(double_value(MASS_ERROR_THRESHOLD_BITS) == 0x1a_36e2_eb1c_432d * b);
    assert(magnitude((MASS_ERROR_THRESHOLD_BITS - 1) as nat, 0x10_0000_0000_0000)
        == 0x1a_36e2_eb1c_432c * b);
    assert(double_value(MAX_ABS_THRESHOLD_BITS) == 0x14_f8b5_88e3_68f1 * c);
    assert(single_value(MAX_ABS_SINGLE_BITS) == 10_995_116 * d);
}

/// A run agrees with the host reference only if each error, on its own, is a number under
/// its threshold: the relative one under two millionths, the absolute one under two
/// hundred-thousandths. Errors that are that small by a hair agree.
pub proof fn law_agreement_keeps_both_errors_small(p: ParityFigures)
    ensures
        agrees(p) ==> !double_is_nan(p.relative_l2_bits) && double_value(p.relative_l2_bits)
            * 500_000 < pow2(1074),
        agrees(p) ==> !single_is_nan(p.max_abs_bits) && single_value(p.max_abs_bits) * 50_000
            < pow2(149),
        !double_is_nan(p.relative_l2_bits) && double_value(p.relative_l2_bits) * 500_001 < pow2(
            1074,
        ) && !single_is_nan(p.max_abs_bits) && single_value(p.max_abs_bits) * 50_001 < pow2(149)
            ==> agrees(p),
{
    law_thresholds_are_next_to_their_fractions();
}

/// Smaller errors agree where larger ones do: making an error larger never turns a failure
/// into a pass.
pub proof fn law_agreement_is_monotone(p: ParityFigures, q: ParityFigures)
    requires
        !double_is_nan(p.relative_l2_bits),
        !single_is_nan(p.max_abs_bits),
        double_value(p.relative_l2_bits) <= double_value(q.relative_l2_bits),
        single_value(p.max_abs_bits) <= single_value(q.max_abs_bits),
    ensures
        agrees(q) ==> agrees(p),
{
    law_single_value_by_its_fields(MAX_ABS_SINGLE_BITS);
    law_double_value_by_its_fields(RELATIVE_L2_THRESHOLD_BITS);
}

/// A plausible run lost or won less than a ten-thousandth of its mass, has a smallest
/// density above zero, and has a largest density and a velocity that are finite. A run with
/// all of that, the mass by a hair, is plausible.
pub proof fn law_plausible_runs_keep_their_mass(m: RunFigures)
    ensures
        is_plausible(m) ==> {
            &&& !double_is_nan(m.relative_mass_error_bits)
            &&& double_value(m.relative_mass_error_bits) * 10_000 < pow2(1074)
            &&& !single_is_nan(m.last.rho_min_bits)
            &&& single_value(m.last.rho_min_bits) > 0
            &&& m.last.rho_max_bits as int / 0x80_0000 % 0x100 < 0xff
            &&& m.last.velocity_l2_bits as int / 0x10_0000_0000_0000 % 0x800 < 0x7ff
        },
        !double_is_nan(m.relative_mass_error_bits) && double_value(m.relative_mass_error_bits)
            * 10_000 <= pow2(1074) && !single_is_nan(m.last.rho_min_bits) && single_value(
            m.last.rho_min_bits,
        ) > 0 && m.last.rho_max_bits as int / 0x80_0000 % 0x100 < 0xff
            && m.last.velocity_l2_bits as int / 0x10_0000_0000_0000 % 0x800 < 0x7ff
            ==> is_plausible(m),
{
    let e = m.relative_mass_error_bits;
    law_thresholds_are_next_to_their_fractions();
    law_single_value_by_its_fields(m.last.rho_max_bits);
    law_double_value_by_its_fields(m.last.velocity_l2_bits);
    law_single_value_by_its_fields(0);
    law_double_value_by_its_fields(MASS_ERROR_THRESHOLD_BITS);
    lemma_pow2_pos(1074);
    if is_plausible(m) && e < 0x8000_0000_0000_0000 {
        law_magnitudes_have_the_order_of_their_bits(
            e as nat,
            MASS_ERROR_THRESHOLD_BITS as nat,
            0x10_0000_0000_0000,
        );
        law_magnitudes_have_the_order_of_their_bits(
            (MASS_ERROR_THRESHOLD_BITS - 1) as nat,
            e as nat,
            0x10_0000_0000_0000,
        );
    }
}

/// A run passes exactly if it is plausible and, where it was compared with the host
/// reference, agrees with it: either alone can fail it.
pub proof fn law_passing_takes_both_gates(m: RunFigures)
    ensures
        is_correct(m) ==> is_plausible(m),
        is_correct(m) && m.parity is Some ==> agrees(m.parity->0),
        is_plausible(m) && (m.parity is None || agrees(m.parity->0)) ==> is_correct(m),
{
}

/// Under each key a report of a run has the figure of that name: the settings as they are,
/// the cells and updates of the lattice, and each measured figure in its own place.
pub proof fn law_run_report_has_each_figure_under_its_key(args: Args, m: RunFigures)
    ensures
        run_fields(args, m).contains(Field { section: "", key: "schema_version", value: Value::Integer(2) }),
        run_fields(args, m).contains(Field { section: "", key: "workload", value: Value::Text("d3q19-taylor-green") }),
        run_fields(args, m).contains(Field { section: "", key: "backend", value: Value::Text("cuda") }),
        run_fields(args, m).contains(Field { section: "", key: "implementation", value: Value::Text("cudarc-nvrtc-specialized-fused-soa-fp32") }),
        run_fields(args, m).contains(Field { section: "", key: "execution_mode", value: Value::Text("single-device") }),
        run_fields(args, m).contains(Field { section: "", key: "device", value: Value::Integer(args.device as u64) }),
        run_fields(args, m).contains(Field { section: "", key: "n", value: Value::Integer(args.n as u64) }),
        run_fields(args, m).contains(Field { section: "", key: "cells", value: Value::Integer((args.n * args.n * args.n) as u64) }),
        run_fields(args, m).contains(Field { section: "", key: "steps", value: Value::Integer(args.steps as u64) }),
        run_fields(args, m).contains(Field { section: "", key: "warmup", value: Value::Integer(args.warmup as u64) }),
        run_fields(args, m).contains(Field { section: "", key: "block_threads", value: Value::Integer(args.block as u64) }),
        run_fields(args, m).contains(Field { section: "", key: "omega", value: Value::Single(args.omega_bits) }),
        run_fields(args, m).contains(Field { section: "", key: "u0", value: Value::Single(args.u0_bits) }),
        run_fields(args, m).contains(Field { section: "", key: "elapsed_s", value: Value::Double(m.elapsed_bits) }),
        run_fields(args, m).contains(Field { section: "", key: "work_units", value: Value::Integer((args.n * args.n * args.n * args.steps) as u64) }),
        run_fields(args, m).contains(Field { section: "", key: "mlups", value: Value::Double(m.mlups_bits) }),
        run_fields(args, m).contains(Field { section: "", key: "algorithmic_flops_per_lattice_update", value: Value::Integer(ALGORITHMIC_FLOPS_PER_LUP) }),
        run_fields(args, m).contains(Field { section: "", key: "algorithmic_gflop_s", value: Value::Double(m.gflop_s_bits) }),
        run_fields(args, m).contains(Field { section: "", key: "power_scope", value: Value::Text(POWER_SCOPE) }),
        run_fields(args, m).contains(Field { section: "", key: "energy_j", value: Value::Double(m.power.energy_bits) }),
        run_fields(args, m).contains(Field { section: "", key: "mean_power_w", value: Value::Double(m.power.mean_power_bits) }),
        run_fields(args, m).contains(Field { section: "", key: "lattice_updates_per_j", value: Value::Double(m.updates_per_j_bits) }),
        run_fields(args, m).contains(Field { section: "", key: "algorithmic_gflop_per_j", value: Value::Double(m.gflop_per_j_bits) }),
        run_fields(args, m).contains(Field { section: "power_integration", key: "method", value: Value::Text(INTEGRATION_METHOD) }),
        run_fields(args, m).contains(Field { section: "power_integration", key: "selected_samples", value: Value::Integer(m.power.selected_samples as u64) }),
        run_fields(args, m).contains(Field { section: "power_integration", key: "max_sample_gap_s", value: Value::Double(m.power.max_gap_bits) }),
        run_fields(args, m).contains(Field { section: "power_integration", key: "boundary_start_w", value: Value::Double(m.power.boundary_start_bits) }),
        run_fields(args, m).contains(Field { section: "power_integration", key: "boundary_end_w", value: Value::Double(m.power.boundary_end_bits) }),
        run_fields(args, m).contains(Field { section: "kernel_specialization", key: "compile_time_n", value: Value::Integer(args.n as u64) }),
        run_fields(args, m).contains(Field { section: "kernel_specialization", key: "compile_time_cells", value: Value::Integer((args.n * args.n * args.n) as u64) }),
        run_fields(args, m).contains(Field { section: "kernel_specialization", key: "power_of_two_addressing", value: Value::Bool(true) }),
        run_fields(args, m).contains(Field { section: "kernel_specialization", key: "block_threads", value: Value::Integer(args.block as u64) }),
        run_fields(args, m).contains(Field { section: "kernel_specialization", key: "layout", value: Value::Text("soa") }),
        run_fields(args, m).contains(Field { section: "initial", key: "mass", value: Value::Double(m.initial.mass_bits) }),
        run_fields(args, m).contains(Field { section: "initial", key: "kinetic_energy", value: Value::Double(m.initial.kinetic_bits) }),
        run_fields(args, m).contains(Field { section: "initial", key: "rho_min", value: Value::Single(m.initial.rho_min_bits) }),
        run_fields(args, m).contains(Field { section: "initial", key: "rho_max", value: Value::Single(m.initial.rho_max_bits) }),
        run_fields(args, m).contains(Field { section: "initial", key: "velocity_l2", value: Value::Double(m.initial.velocity_l2_bits) }),
        run_fields(args, m).contains(Field { section: "initial", key: "divergence_rms", value: Value::Double(m.initial.divergence_rms_bits) }),
        run_fields(args, m).contains(Field { section: "initial", key: "enstrophy", value: Value::Double(m.initial.enstrophy_bits) }),
        run_fields(args, m).contains(Field { section: "final", key: "mass", value: Value::Double(m.last.mass_bits) }),
        run_fields(args, m).contains(Field { section: "final", key: "kinetic_energy", value: Value::Double(m.last.kinetic_bits) }),
        run_fields(args, m).contains(Field { section: "final", key: "rho_min", value: Value::Single(m.last.rho_min_bits) }),
        run_fields(args, m).contains(Field { section: "final", key: "rho_max", value: Value::Single(m.last.rho_max_bits) }),
        run_fields(args, m).contains(Field { section: "final", key: "velocity_l2", value: Value::Double(m.last.velocity_l2_bits) }),
        run_fields(args, m).contains(Field { section: "final", key: "divergence_rms", value: Value::Double(m.last.divergence_rms_bits) }),
        run_fields(args, m).contains(Field { section: "final", key: "enstrophy", value: Value::Double(m.last.enstrophy_bits) }),
        run_fields(args, m).contains(Field { section: "", key: "relative_mass_error", value: Value::Double(m.relative_mass_error_bits) }),
        run_fields(args, m).contains(Field { section: "markers", key: "start_wall_ns", value: Value::Integer(m.markers.start_wall_ns) }),
        run_fields(args, m).contains(Field { section: "markers", key: "end_wall_ns", value: Value::Integer(m.markers.end_wall_ns) }),
        run_fields(args, m).contains(Field { section: "markers", key: "start_monotonic_ns", value: Value::Integer(m.markers.start_monotonic_ns) }),
        run_fields(args, m).contains(Field { section: "markers", key: "end_monotonic_ns", value: Value::Integer(m.markers.end_monotonic_ns) }),
        run_fields(args, m).contains(
            Field { section: "", key: "correctness_pass", value: Value::Bool(is_correct(m)) },
        ),
        m.parity is None ==> run_fields(args, m).contains(
            Field { section: "", key: "parity", value: Value::Null },
        ) && run_fields(args, m).len() == 54,
        m.parity matches Some(p) ==> {
            &&& run_fields(args, m).contains(Field { section: "parity", key: "reference", value: Value::Text("independent-host-fp32-pull-bgk") })
            &&& run_fields(args, m).contains(Field { section: "parity", key: "relative_l2", value: Value::Double(p.relative_l2_bits) })
            &&& run_fields(args, m).contains(Field { section: "parity", key: "max_abs", value: Value::Single(p.max_abs_bits) })
            &&& run_fields(args, m).contains(Field { section: "parity", key: "relative_l2_threshold", value: Value::Double(0x3ec0_c6f7_a0b5_ed8d) })
            &&& run_fields(args, m).contains(Field { section: "parity", key: "max_abs_threshold", value: Value::Double(0x3ef4_f8b5_88e3_68f1) })
            &&& run_fields(args, m).len() == 58
        },
{
    let r = run_fields(args, m);
    let (a, b, c) = (run_head_fields(args, m), initial_fields(m), final_fields(m));
    let (d, e) = (parity_fields(m), verdict_fields(m));
    assert(a.len() == 33 && b.len() == 7 && c.len() == 7);
    assert(r[0] == Field { section: "", key: "schema_version", value: Value::Integer(2) });
    assert(r[1] == Field { section: "", key: "workload", value: Value::Text("d3q19-taylor-green") });
    assert(r[2] == Field { section: "", key: "backend", value: Value::Text("cuda") });
    assert(r[3] == Field { section: "", key: "implementation", value: Value::Text("cudarc-nvrtc-specialized-fused-soa-fp32") });
    assert(r[4] == Field { section: "", key: "execution_mode", value: Value::Text("single-device") });
    assert(r[5] == Field { section: "", key: "device", value: Value::Integer(args.device as u64) });
    assert(r[6] == Field { section: "", key: "n", value: Value::Integer(args.n as u64) });
    assert(r[7] == Field { section: "", key: "cells", value: Value::Integer((args.n * args.n * args.n) as u64) });
    assert(r[8] == Field { section: "", key: "steps", value: Value::Integer(args.steps as u64) });
    assert(r[9] == Field { section: "", key: "warmup", value: Value::Integer(args.warmup as u64) });
    assert(r[10] == Field { section: "", key: "block_threads", value: Value::Integer(args.block as u64) });
    assert(r[11] == Field { section: "", key: "omega", value: Value::Single(args.omega_bits) });
    assert(r[12] == Field { section: "", key: "u0", value: Value::Single(args.u0_bits) });
    assert(r[13] == Field { section: "", key: "elapsed_s", value: Value::Double(m.elapsed_bits) });
    assert(r[14] == Field { section: "", key: "work_units", value: Value::Integer((args.n * args.n * args.n * args.steps) as u64) });
    assert(r[15] == Field { section: "", key: "mlups", value: Value::Double(m.mlups_bits) });
    assert(r[16] == Field { section: "", key: "algorithmic_flops_per_lattice_update", value: Value::Integer(ALGORITHMIC_FLOPS_PER_LUP) });
    assert(r[17] == Field { section: "", key: "algorithmic_gflop_s", value: Value::Double(m.gflop_s_bits) });
    assert(r[18] == Field { section: "", key: "power_scope", value: Value::Text(POWER_SCOPE) });
    assert(r[19] == Field { section: "", key: "energy_j", value: Value::Double(m.power.energy_bits) });
    assert(r[20] == Field { section: "", key: "mean_power_w", value: Value::Double(m.power.mean_power_bits) });
    assert(r[21] == Field { section: "", key: "lattice_updates_per_j", value: Value::Double(m.updates_per_j_bits) });
    assert(r[22] == Field { section: "", key: "algorithmic_gflop_per_j", value: Value::Double(m.gflop_per_j_bits) });
    assert(r[23] == Field { section: "power_integration", key: "method", value: Value::Text(INTEGRATION_METHOD) });
    assert(r[24] == Field { section: "power_integration", key: "selected_samples", value: Value::Integer(m.power.selected_samples as u64) });
    assert(r[25] == Field { section: "power_integration", key: "max_sample_gap_s", value: Value::Double(m.power.max_gap_bits) });
    assert(r[26] == Field { section: "power_integration", key: "boundary_start_w", value: Value::Double(m.power.boundary_start_bits) });
    assert(r[27] == Field { section: "power_integration", key: "boundary_end_w", value: Value::Double(m.power.boundary_end_bits) });
    assert(r[28] == Field { section: "kernel_specialization", key: "compile_time_n", value: Value::Integer(args.n as u64) });
    assert(r[29] == Field { section: "kernel_specialization", key: "compile_time_cells", value: Value::Integer((args.n * args.n * args.n) as u64) });
    assert(r[30] == Field { section: "kernel_specialization", key: "power_of_two_addressing", value: Value::Bool(true) });
    assert(r[31] == Field { section: "kernel_specialization", key: "block_threads", value: Value::Integer(args.block as u64) });
    assert(r[32] == Field { section: "kernel_specialization", key: "layout", value: Value::Text("soa") });
    assert(r[33] == Field { section: "initial", key: "mass", value: Value::Double(m.initial.mass_bits) });
    assert(r[34] == Field { section: "initial", key: "kinetic_energy", value: Value::Double(m.initial.kinetic_bits) });
    assert(r[35] == Field { section: "initial", key: "rho_min", value: Value::Single(m.initial.rho_min_bits) });
    assert(r[36] == Field { section: "initial", key: "rho_max", value: Value::Single(m.initial.rho_max_bits) });
    assert(r[37] == Field { section: "initial", key: "velocity_l2", value: Value::Double(m.initial.velocity_l2_bits) });
    assert(r[38] == Field { section: "initial", key: "divergence_rms", value: Value::Double(m.initial.divergence_rms_bits) });
    assert(r[39] == Field { section: "initial", key: "enstrophy", value: Value::Double(m.initial.enstrophy_bits) });
    assert(r[40] == Field { section: "final", key: "mass", value: Value::Double(m.last.mass_bits) });
    assert(r[41] == Field { section: "final", key: "kinetic_energy", value: Value::Double(m.last.kinetic_bits) });
    assert(r[42] == Field { section: "final", key: "rho_min", value: Value::Single(m.last.rho_min_bits) });
    assert(r[43] == Field { section: "final", key: "rho_max", value: Value::Single(m.last.rho_max_bits) });
    assert(r[44] == Field { section: "final", key: "velocity_l2", value: Value::Double(m.last.velocity_l2_bits) });
    assert(r[45] == Field { section: "final", key: "divergence_rms", value: Value::Double(m.last.divergence_rms_bits) });
    assert(r[46] == Field { section: "final", key: "enstrophy", value: Value::Double(m.last.enstrophy_bits) });
    assert(r[47] == Field { section: "", key: "relative_mass_error", value: Value::Double(m.relative_mass_error_bits) });
    assert forall|i: int| 0 <= i < d.len() implies r[48 + i] == #[trigger] d[i] by {}
    assert forall|i: int| 0 <= i < e.len() implies r[48int + d.len() + i] == #[trigger] e[i] by {}
    match m.parity {
        None => {
            assert(r[48] == d[0]);
        },
        Some(_) => {
            assert(r[48] == d[0]);
            assert(r[49] == d[1]);
            assert(r[50] == d[2]);
            assert(r[51] == d[3]);
            assert(r[52] == d[4]);
        },
    }
    assert(r[(48 + d.len() + 0) as int] == e[0]);
    assert(e[1] == marker_fields(m.markers)[0]);
    assert(r[(48 + d.len() + 1) as int] == e[1]);
    assert(e[2] == marker_fields(m.markers)[1]);
    assert(r[(48 + d.len() + 2) as int] == e[2]);
    assert(e[3] == marker_fields(m.markers)[2]);
    assert(r[(48 + d.len() + 3) as int] == e[3]);
    assert(e[4] == marker_fields(m.markers)[3]);
    assert(r[(48 + d.len() + 4) as int] == e[4]);
}

/// Under each key a report of an idle trace has the figure of that name.
pub proof fn law_idle_report_has_each_figure_under_its_key(m: IdleFigures)
    ensures
        idle_fields(m).len() == 17,
        idle_fields(m).contains(Field { section: "", key: "schema_version", value: Value::Integer(2) }),
        idle_fields(m).contains(Field { section: "", key: "mode", value: Value::Text("idle") }),
        idle_fields(m).contains(Field { section: "", key: "backend", value: Value::Text("cuda") }),
        idle_fields(m).contains(Field { section: "", key: "device", value: Value::Integer(m.device as u64) }),
        idle_fields(m).contains(Field { section: "", key: "duration_s", value: Value::Double(m.duration_bits) }),
        idle_fields(m).contains(Field { section: "", key: "power_scope", value: Value::Text(POWER_SCOPE) }),
        idle_fields(m).contains(Field { section: "", key: "energy_j", value: Value::Double(m.power.energy_bits) }),
        idle_fields(m).contains(Field { section: "", key: "mean_power_w", value: Value::Double(m.power.mean_power_bits) }),
        idle_fields(m).contains(Field { section: "power_integration", key: "method", value: Value::Text(INTEGRATION_METHOD) }),
        idle_fields(m).contains(Field { section: "power_integration", key: "selected_samples", value: Value::Integer(m.power.selected_samples as u64) }),
        idle_fields(m).contains(Field { section: "power_integration", key: "max_sample_gap_s", value: Value::Double(m.power.max_gap_bits) }),
        idle_fields(m).contains(Field { section: "power_integration", key: "boundary_start_w", value: Value::Double(m.power.boundary_start_bits) }),
        idle_fields(m).contains(Field { section: "power_integration", key: "boundary_end_w", value: Value::Double(m.power.boundary_end_bits) }),
        idle_fields(m).contains(Field { section: "markers", key: "start_wall_ns", value: Value::Integer(m.markers.start_wall_ns) }),
        idle_fields(m).contains(Field { section: "markers", key: "end_wall_ns", value: Value::Integer(m.markers.end_wall_ns) }),
        idle_fields(m).contains(Field { section: "markers", key: "start_monotonic_ns", value: Value::Integer(m.markers.start_monotonic_ns) }),
        idle_fields(m).contains(Field { section: "markers", key: "end_monotonic_ns", value: Value::Integer(m.markers.end_monotonic_ns) }),
{
    let r = idle_fields(m);
    assert(r[0] == Field { section: "", key: "schema_version", value: Value::Integer(2) });
    assert(r[1] == Field { section: "", key: "mode", value: Value::Text("idle") });
    assert(r[2] == Field { section: "", key: "backend", value: Value::Text("cuda") });
    assert(r[3] == Field { section: "", key: "device", value: Value::Integer(m.device as u64) });
    assert(r[4] == Field { section: "", key: "duration_s", value: Value::Double(m.duration_bits) });
    assert(r[5] == Field { section: "", key: "power_scope", value: Value::Text(POWER_SCOPE) });
    assert(r[6] == Field { section: "", key: "energy_j", value: Value::Double(m.power.energy_bits) });
    assert(r[7] == Field { section: "", key: "mean_power_w", value: Value::Double(m.power.mean_power_bits) });
    assert(r[8] == Field { section: "power_integration", key: "method", value: Value::Text(INTEGRATION_METHOD) });
    assert(r[9] == Field { section: "power_integration", key: "selected_samples", value: Value::Integer(m.power.selected_samples as u64) });
    assert(r[10] == Field { section: "power_integration", key: "max_sample_gap_s", value: Value::Double(m.power.max_gap_bits) });
    assert(r[11] == Field { section: "power_integration", key: "boundary_start_w", value: Value::Double(m.power.boundary_start_bits) });
    assert(r[12] == Field { section: "power_integration", key: "boundary_end_w", value: Value::Double(m.power.boundary_end_bits) });
    assert(r[13] == marker_fields(m.markers)[0]);
    assert(r[14] == marker_fields(m.markers)[1]);
    assert(r[15] == marker_fields(m.markers)[2]);
    assert(r[16] == marker_fields(m.markers)[3]);
}

} // verus!
