use cuda_lbm::error::D3q19Error;
use cuda_lbm::solver::{Buffer, HandwrittenD3q19, Launch, StepAction, StepEvent, Upload};

fn small() -> HandwrittenD3q19 {
    HandwrittenD3q19::new(4, 32, 1.0f32.to_bits(), 19 * 64).unwrap()
}

fn refusal(n: usize, block: u32, len: usize) -> D3q19Error {
    HandwrittenD3q19::new(n, block, 0, len).err().unwrap()
}

fn launch_of(action: StepAction) -> Launch {
    match action {
        StepAction::Launch(launch) => launch,
        StepAction::Done => panic!("no launch"),
    }
}

#[test]
fn setup_is_refused_in_order() {
    assert_eq!(refusal(63, 0, 0), D3q19Error::BlockSize);
    assert_eq!(refusal(64, 1025, 0), D3q19Error::BlockSize);
    assert_eq!(refusal(1 << 22, 256, 0), D3q19Error::LatticeOverflow);
    assert_eq!(refusal(1 << 20, 256, 0), D3q19Error::StateOverflow);
    assert_eq!(refusal(4, 256, 19 * 64 - 1), D3q19Error::InitialLength);
    assert_eq!(refusal(3, 256, 19 * 27), D3q19Error::NotPowerOfTwo);
    assert_eq!(refusal(0, 256, 0), D3q19Error::NotPowerOfTwo);
    assert_eq!(refusal(2048, 256, 19usize << 33), D3q19Error::TooManyCells);
}

#[test]
fn setup_makes_the_kernel() {
    let solver = small();
    assert!(solver.source().contains("#define LBM_CELLS 64\n"));
    assert!(solver.source().contains("#define LBM_BLOCK 32\n"));
    assert_eq!(solver.to_host(), Buffer::First);
}

#[test]
fn a_batch_makes_its_launches() {
    let mut solver = small();
    let mut action = solver.launch_steps(StepEvent::Begin(3));
    let mut seen = Vec::new();
    while let StepAction::Launch(launch) = action {
        assert_eq!(launch.config.grid_dim, (2, 1, 1));
        assert_eq!(launch.config.block_dim, (32, 1, 1));
        assert_eq!(launch.config.shared_mem_bytes, 0);
        assert_eq!(launch.omega_bits, 1.0f32.to_bits());
        seen.push((launch.input, launch.output));
        action = solver.launch_steps(StepEvent::Launched);
    }
    assert_eq!(
        seen,
        vec![
            (Buffer::First, Buffer::Second),
            (Buffer::Second, Buffer::First),
            (Buffer::First, Buffer::Second),
        ]
    );
    assert_eq!(solver.to_host(), Buffer::Second);
}

#[test]
fn an_empty_batch_is_done_at_once() {
    let mut solver = small();
    assert_eq!(solver.launch_steps(StepEvent::Begin(0)), StepAction::Done);
    assert_eq!(solver.to_host(), Buffer::First);
}

#[test]
fn a_failed_launch_keeps_the_state() {
    let mut solver = small();
    solver.launch_steps(StepEvent::Begin(5));
    solver.launch_steps(StepEvent::Launched);
    assert_eq!(solver.launch_steps(StepEvent::Failed), StepAction::Done);
    assert_eq!(solver.to_host(), Buffer::Second);
    let next = launch_of(solver.launch_steps(StepEvent::Begin(1)));
    assert_eq!(next.input, Buffer::Second);
}

#[test]
fn steps_are_chained() {
    let mut solver = small();
    let first = launch_of(solver.launch_steps(StepEvent::Begin(2)));
    let second = launch_of(solver.launch_steps(StepEvent::Launched));
    assert_eq!(second.input, first.output);
    assert!(first.input != first.output);
}

#[test]
fn reset_fills_the_current_input() {
    let mut solver = small();
    assert_eq!(
        solver.reset(19 * 64),
        Ok(Upload { fill: Buffer::First, clear: Buffer::Second, len: 19 * 64 })
    );
    solver.launch_steps(StepEvent::Begin(1));
    solver.launch_steps(StepEvent::Launched);
    assert_eq!(
        solver.reset(19 * 64),
        Ok(Upload { fill: Buffer::Second, clear: Buffer::First, len: 19 * 64 })
    );
    assert_eq!(solver.reset(19 * 64 + 1), Err(D3q19Error::ResetLength));
}

#[test]
fn measurements_have_a_step() {
    let mut solver = small();
    assert_eq!(solver.measure_steps_ns(0), Err(D3q19Error::NoSteps));
    let launch = launch_of(solver.measure_steps_ns(1).unwrap());
    assert_eq!(launch, solver.launch_step());
    assert_eq!(solver.launch_steps(StepEvent::Launched), StepAction::Done);
}

#[test]
fn solver_errors_are_told() {
    for (error, text) in [
        (D3q19Error::BlockSize, "CUDA block size must be in 1..=1024"),
        (D3q19Error::LatticeOverflow, "lattice size overflow"),
        (D3q19Error::StateOverflow, "state size overflow"),
        (D3q19Error::InitialLength, "initial state length does not match D3Q19 lattice"),
        (D3q19Error::NotPowerOfTwo, "kernel specialization requires a power-of-two lattice"),
        (D3q19Error::TooManyCells, "specialized kernel requires <= u32::MAX cells"),
        (D3q19Error::ResetLength, "reset state length mismatch"),
        (D3q19Error::NoSteps, "measurement requires at least one step"),
    ] {
        assert_eq!(error.message(), text);
    }
}

#[test]
fn accepted_lattices_give_a_solver_up_to_the_index_type() {
    for e in 0..=10u32 {
        let n = 1usize << e;
        for block in [128u32, 256, 512] {
            assert!(HandwrittenD3q19::new(n, block, 0, 19 * n * n * n).is_ok());
        }
    }
    let n = 2048usize;
    assert_eq!(
        HandwrittenD3q19::new(n, 256, 0, 19 * n * n * n).err(),
        Some(D3q19Error::TooManyCells)
    );
}

#[test]
fn a_program_words_the_limit_of_cells_in_its_own_way() {
    let limit = D3q19Error::TooManyCells;
    assert_eq!(limit.message(), "specialized kernel requires <= u32::MAX cells");
    assert_eq!(limit.program_message(), "specialized kernel currently requires <= u32::MAX cells");
    for e in [
        D3q19Error::BlockSize,
        D3q19Error::LatticeOverflow,
        D3q19Error::StateOverflow,
        D3q19Error::InitialLength,
        D3q19Error::NotPowerOfTwo,
        D3q19Error::ResetLength,
        D3q19Error::NoSteps,
    ] {
        assert_eq!(e.program_message(), e.message());
    }
}
