//! The decisions of the D3Q19 solver: what it accepts, which buffer holds the
//! current state, and which launches a batch of steps consists of. The device work
//! itself is done by whoever drives it.
use vstd::arithmetic::power2::{is_pow2, pow2};
use vstd::prelude::*;

use crate::args::{broken_rule, Settings};
use crate::error::D3q19Error;
use crate::kernel::{
    blocks_for, kernel_error, launch_config, law_blocks_are_the_fewest,
    law_specialized_text_states_its_numbers, specialized, specialized_kernel, LaunchConfig,
};
use crate::lattice::{cube, lattice_cells, state_len};
use crate::text::{contains_text, decimal};

verus! {

/// One of the two state buffers on the device.
#[derive(Clone, Copy, Debug, PartialEq, Eq, Structural)]
pub enum Buffer {
    First,
    Second,
}

impl Buffer {
    pub open spec fn flip(self) -> Buffer {
        match self {
            Buffer::First => Buffer::Second,
            Buffer::Second => Buffer::First,
        }
    }

    /// The other buffer.
    pub fn other(self) -> (r: Buffer)
        ensures
            r == self.flip(),
    {
        match self {
            Buffer::First => Buffer::Second,
            Buffer::Second => Buffer::First,
        }
    }
}

/// One launch of the kernel: its shape and its arguments.
#[derive(Clone, Copy, Debug, PartialEq, Eq)]
pub struct Launch {
    pub config: LaunchConfig,
    pub input: Buffer,
    pub output: Buffer,
    /// The relaxation rate, as the bits of a single-precision number.
    pub omega_bits: u32,
}

/// Where a new state goes: it fills the input, and the output is cleared.
#[derive(Clone, Copy, Debug, PartialEq, Eq, Structural)]
pub struct Upload {
    pub fill: Buffer,
    pub clear: Buffer,
    pub len: usize,
}

/// What happened on the device.
#[derive(Clone, Copy, Debug, PartialEq, Eq, Structural)]
pub enum StepEvent {
    /// A batch of that many steps is asked for.
    Begin(usize),
    /// The launch that was asked for is on the stream.
    Launched,
    /// The launch that was asked for failed.
    Failed,
}

/// What to do next.
#[derive(Clone, Copy, Debug, PartialEq, Eq)]
pub enum StepAction {
    /// Launch the kernel.
    Launch(Launch),
    /// The batch is over.
    Done,
}

/// The solver as a mathematical value.
pub ghost struct Solver {
    pub cells: nat,
    pub block: nat,
    pub omega_bits: u32,
    pub len: nat,
    pub source: Seq<char>,
    pub front: Buffer,
    pub remaining: nat,
}

impl Solver {
    /// The block size is one that a device supports, the cells can be numbered in 32
    /// bits, and a state has nineteen values per cell.
    pub open spec fn wf(self) -> bool {
        &&& 1 <= self.block <= 1024
        &&& self.cells <= u32::MAX
        &&& self.len == 19 * self.cells
    }

    /// The launch that advances the state by one step.
    pub open spec fn is_next_launch(self, launch: Launch) -> bool {
        &&& launch.config.grid_dim.0 == blocks_for(self.cells, self.block)
        &&& launch.config.grid_dim.1 == 1
        &&& launch.config.grid_dim.2 == 1
        &&& launch.config.block_dim.0 == self.block
        &&& launch.config.block_dim.1 == 1
        &&& launch.config.block_dim.2 == 1
        &&& launch.config.shared_mem_bytes == 0
        &&& launch.input == self.front
        &&& launch.output == self.front.flip()
        &&& launch.omega_bits == self.omega_bits
    }

    /// The solver after an event.
    pub open spec fn after(self, event: StepEvent) -> Solver {
        match event {
            StepEvent::Begin(steps) => Solver { remaining: steps as nat, ..self },
            StepEvent::Launched => if self.remaining > 0 {
                Solver {
                    remaining: (self.remaining - 1) as nat,
                    front: self.front.flip(),
                    ..self
                }
            } else {
                self
            },
            StepEvent::Failed => Solver { remaining: 0, ..self },
        }
    }

    /// Whether `action` is what a solver in this state asks for.
    pub open spec fn asks_for(self, action: StepAction) -> bool {
        match action {
            StepAction::Launch(launch) => self.remaining > 0 && self.is_next_launch(launch),
            StepAction::Done => self.remaining == 0,
        }
    }

    /// The solver after some events.
    pub open spec fn after_events(self, events: Seq<StepEvent>) -> Solver
        decreases events.len(),
    {
        if events.len() == 0 {
            self
        } else {
            self.after_events(events.drop_last()).after(events.last())
        }
    }

    /// The solver after a batch of `steps` is begun and `k` launches are made.
    pub open spec fn after_launches(self, steps: usize, k: nat) -> Solver
        decreases k,
    {
        if k == 0 {
            self.after(StepEvent::Begin(steps))
        } else {
            self.after_launches(steps, (k - 1) as nat).after(StepEvent::Launched)
        }
    }
}

/// Why no solver is made for a lattice of edge `n`, blocks of `block` threads and an
/// initial state of `len` values.
pub open spec fn creation_error(n: nat, block: nat, len: nat) -> Option<D3q19Error> {
    if block == 0 || block > 1024 {
        Some(D3q19Error::BlockSize)
    } else if cube(n) > usize::MAX {
        Some(D3q19Error::LatticeOverflow)
    } else if 19 * cube(n) > usize::MAX {
        Some(D3q19Error::StateOverflow)
    } else if len != 19 * cube(n) {
        Some(D3q19Error::InitialLength)
    } else {
        kernel_error(n)
    }
}

/// A D3Q19 solver for one lattice and one block size.
pub struct HandwrittenD3q19 {
    cells: u64,
    block: u32,
    omega_bits: u32,
    len: usize,
    source: String,
    front: Buffer,
    remaining: usize,
}

impl View for HandwrittenD3q19 {
    type V = Solver;

    closed spec fn view(&self) -> Solver {
        Solver {
            cells: self.cells as nat,
            block: self.block as nat,
            omega_bits: self.omega_bits,
            len: self.len as nat,
            source: self.source@,
            front: self.front,
            remaining: self.remaining as nat,
        }
    }
}

impl HandwrittenD3q19 {
    #[verifier::type_invariant]
    spec fn inv(self) -> bool {
        self@.wf()
    }

    /// Sets up a solver for a lattice of edge `n`, or says why there is none. The
    /// current state is the first buffer.
    pub fn new(n: usize, block: u32, omega_bits: u32, initial_len: usize) -> (r: Result<
        HandwrittenD3q19,
        D3q19Error,
    >)
        ensures
            match r {
                Ok(solver) => {
                    &&& creation_error(n as nat, block as nat, initial_len as nat) is None
                    &&& solver@ == (Solver {
                        cells: cube(n as nat),
                        block: block as nat,
                        omega_bits,
                        len: 19 * cube(n as nat),
                        source: specialized(n as nat, block as nat),
                        front: Buffer::First,
                        remaining: 0,
                    })
                    &&& solver@.wf()
                    &&& solver@.cells == n * n * n
                    &&& solver@.len == initial_len
                    &&& solver@.block == block
                    &&& solver@.omega_bits == omega_bits
                    &&& contains_text(
                        solver@.source,
                        "#define LBM_CELLS "@ + decimal((n * n * n) as nat) + "\n"@,
                    )
                    &&& contains_text(
                        solver@.source,
                        "#define LBM_BLOCK "@ + decimal(block as nat) + "\n"@,
                    )
                },
                Err(e) => creation_error(n as nat, block as nat, initial_len as nat) == Some(e),
            },
    {
        if block == 0 || block > 1024 {
            return Err(D3q19Error::BlockSize);
        }
        let cells = match lattice_cells(n) {
            Some(cells) => cells,
            None => {
                return Err(D3q19Error::LatticeOverflow);
            },
        };
        let len = match state_len(cells) {
            Some(len) => len,
            None => {
                return Err(D3q19Error::StateOverflow);
            },
        };
        if initial_len != len {
            return Err(D3q19Error::InitialLength);
        }
        match specialized_kernel(n, block) {
            Ok(source) => Ok(
                HandwrittenD3q19 {
                    cells: cells as u64,
                    block,
                    omega_bits,
                    len,
                    source,
                    front: Buffer::First,
                    remaining: 0,
                },
            ),
            Err(e) => Err(e),
        }
    }

    /// The kernel text to compile.
    pub fn source(&self) -> (r: &str)
        ensures
            r@ == self@.source,
            self@.wf(),
    {
        proof {
            use_type_invariant(self);
        }
        self.source.as_str()
    }

    /// Accepts a state in place of the current one if it has the same length, and
    /// says where it goes.
    pub fn reset(&self, initial_len: usize) -> (r: Result<Upload, D3q19Error>)
        ensures
            match r {
                Ok(upload) => {
                    &&& initial_len == self@.len
                    &&& upload.fill == self@.front
                    &&& upload.clear == self@.front.flip()
                    &&& upload.len == self@.len
                    &&& upload.fill != upload.clear
                },
                Err(e) => initial_len != self@.len && e == D3q19Error::ResetLength,
            },
            self@.wf(),
    {
        proof {
            use_type_invariant(self);
        }
        if initial_len != self.len {
            return Err(D3q19Error::ResetLength);
        }
        Ok(Upload { fill: self.front, clear: self.front.other(), len: self.len })
    }

    /// The launch of one step: from the current state into the other buffer.
    pub fn launch_step(&self) -> (r: Launch)
        ensures
            self@.is_next_launch(r),
            r.omega_bits == self@.omega_bits,
            r.config.block_dim == (self@.block as u32, 1u32, 1u32),
            r.config.grid_dim.0 == (self@.cells + self@.block - 1) / (self@.block as int),
            r.input == self@.front,
            r.output != r.input,
            self@.wf(),
    {
        proof {
            use_type_invariant(self);
            lemma_blocks_fit(self.cells as nat, self.block as nat);
        }
        Launch {
            config: launch_config(self.cells, self.block),
            input: self.front,
            output: self.front.other(),
            omega_bits: self.omega_bits,
        }
    }

    /// Drives a batch of steps: takes in what happened and says what to do next.
    /// After each launch the buffers trade places; a failed launch ends the batch
    /// and leaves the buffers as they are.
    pub fn launch_steps(&mut self, event: StepEvent) -> (r: StepAction)
        ensures
            final(self)@ == old(self)@.after(event),
            final(self)@.asks_for(r),
            final(self)@.wf(),
            final(self)@.omega_bits == old(self)@.omega_bits,
            r matches StepAction::Launch(launch) ==> {
                &&& launch.omega_bits == old(self)@.omega_bits
                &&& launch.input == final(self)@.front
                &&& launch.output != launch.input
            },
    {
        proof {
            use_type_invariant(&*self);
        }
        match event {
            StepEvent::Begin(steps) => {
                self.remaining = steps;
            },
            StepEvent::Launched => {
                if self.remaining > 0 {
                    self.remaining = self.remaining - 1;
                    self.front = self.front.other();
                }
            },
            StepEvent::Failed => {
                self.remaining = 0;
            },
        }
        if self.remaining == 0 {
            StepAction::Done
        } else {
            StepAction::Launch(self.launch_step())
        }
    }

    /// Begins a measured batch, which has at least one step.
    pub fn measure_steps_ns(&mut self, steps: usize) -> (r: Result<StepAction, D3q19Error>)
        ensures
            match r {
                Ok(action) => {
                    &&& steps > 0
                    &&& final(self)@ == old(self)@.after(StepEvent::Begin(steps))
                    &&& final(self)@.asks_for(action)
                    &&& action matches StepAction::Launch(launch) && launch.omega_bits == old(
                        self,
                    )@.omega_bits
                },
                Err(e) => {
                    &&& steps == 0
                    &&& e == D3q19Error::NoSteps
                    &&& final(self)@ == old(self)@
                },
            },
            final(self)@.wf(),
    {
        proof {
            use_type_invariant(&*self);
        }
        if steps == 0 {
            return Err(D3q19Error::NoSteps);
        }
        Ok(self.launch_steps(StepEvent::Begin(steps)))
    }

    /// The buffer that holds the current state.
    pub fn to_host(&self) -> (r: Buffer)
        ensures
            r == self@.front,
            self@.wf(),
    {
        proof {
            use_type_invariant(self);
        }
        self.front
    }
}

proof fn lemma_blocks_fit(cells: nat, block: nat)
    requires
        cells <= u32::MAX,
        1 <= block <= 1024,
    ensures
        blocks_for(cells, block) <= u32::MAX,
{
    let b = block as int;
    let g = (cells + b - 1) / b;
    vstd::arithmetic::div_mod::lemma_fundamental_div_mod(cells + b - 1, b);
    assert(g <= cells) by (nonlinear_arith)
        requires
            cells + b - 1 == b * g + (cells + b - 1) % b,
            (cells + b - 1) % b >= 0,
            b >= 1,
            cells >= 0,
    ;
}

/// Whatever happens to a solver that is in order, it stays in order, and its next launch
/// covers the lattice: the number of blocks fits the device.
pub proof fn law_solver_stays_in_order(solver: Solver, event: StepEvent)
    requires
        solver.wf(),
    ensures
        solver.after(event).wf(),
        blocks_for(solver.cells, solver.block) <= u32::MAX,
        solver.cells <= blocks_for(solver.cells, solver.block) * solver.block,
{
    lemma_blocks_fit(solver.cells, solver.block);
    let (c, b) = (solver.cells as int, solver.block as int);
    let g = (c + b - 1) / b;
    vstd::arithmetic::div_mod::lemma_fundamental_div_mod(c + b - 1, b);
    assert(c <= g * b) by (nonlinear_arith)
        requires
            c + b - 1 == b * g + (c + b - 1) % b,
            0 <= (c + b - 1) % b < b,
            b > 0,
    ;
}

/// A batch of steps makes exactly that many launches. The buffers trade places at
/// each of them, and nothing else of the solver changes.
pub proof fn law_batch_makes_its_launches(solver: Solver, steps: usize, k: nat)
    requires
        k <= steps,
    ensures
        solver.after_launches(steps, k) == (Solver {
            remaining: (steps - k) as nat,
            front: if k % 2 == 0 {
                solver.front
            } else {
                solver.front.flip()
            },
            ..solver
        }),
        forall|action: StepAction|
            #[trigger] solver.after_launches(steps, k).asks_for(action) ==> (action is Done <==> k
                == steps),
    decreases k,
{
    if k > 0 {
        law_batch_makes_its_launches(solver, steps, (k - 1) as nat);
    }
}

/// Each step reads what the step before it wrote, and after the last step the
/// current state is what it wrote.
pub proof fn law_steps_are_chained(
    solver: Solver,
    steps: usize,
    k: nat,
    launch: Launch,
    next: StepAction,
)
    requires
        k < steps,
        solver.after_launches(steps, k).is_next_launch(launch),
        solver.after_launches(steps, k + 1).asks_for(next),
    ensures
        next matches StepAction::Launch(l) ==> l.input == launch.output,
        solver.after_launches(steps, k + 1).front == launch.output,
        launch.input != launch.output,
{
    law_batch_makes_its_launches(solver, steps, k);
    law_batch_makes_its_launches(solver, steps, k + 1);
}

/// A launch that fails after `k` launches ends the batch with the state that the
/// last of them wrote.
pub proof fn law_failure_keeps_the_state(solver: Solver, steps: usize, k: nat)
    requires
        k < steps,
    ensures
        solver.after_launches(steps, k).after(StepEvent::Failed).front == solver.after_launches(
            steps,
            k,
        ).front,
        solver.after_launches(steps, k).after(StepEvent::Failed).asks_for(StepAction::Done),
{
}

/// Settings that break no rule give a solver exactly if the cells can be numbered in 32
/// bits and a state fits the machine; a lattice that is small enough for the host
/// reference always is.
pub proof fn law_accepted_settings_give_a_solver(a: Settings)
    requires
        broken_rule(a) is None,
    ensures
        creation_error(a.n, a.block, 19 * cube(a.n)) is None <==> cube(a.n) <= u32::MAX && 19
            * cube(a.n) <= usize::MAX,
        a.cpu_parity ==> creation_error(a.n, a.block, 19 * cube(a.n)) is None,
{
    let n = a.n as int;
    if n <= 32 {
        assert(n * n * n <= 32 * 32 * 32) by (nonlinear_arith)
            requires
                0 <= n <= 32,
        ;
    }
}

/// Whatever happens to a solver, it keeps what it was made with, and each launch that it
/// asks for has its relaxation rate and its block size, reads the current state, writes the
/// other buffer, and starts the fewest blocks that give each cell a thread.
pub proof fn law_launches_are_those_of_the_solver(
    solver: Solver,
    events: Seq<StepEvent>,
    launch: Launch,
    blocks: nat,
)
    requires
        solver.wf(),
    ensures
        ({
            let now = solver.after_events(events);
            &&& now.omega_bits == solver.omega_bits
            &&& now.block == solver.block
            &&& now.cells == solver.cells
            &&& now.len == solver.len
            &&& now.source == solver.source
            &&& now.wf()
            &&& now.asks_for(StepAction::Launch(launch)) ==> {
                &&& launch.omega_bits == solver.omega_bits
                &&& launch.config.block_dim == (solver.block as u32, 1u32, 1u32)
                &&& launch.config.grid_dim.1 == 1
                &&& launch.config.grid_dim.2 == 1
                &&& launch.config.shared_mem_bytes == 0
                &&& (blocks >= launch.config.grid_dim.0 <==> blocks * solver.block >= solver.cells)
                &&& launch.input == now.front
                &&& launch.output != launch.input
            }
        }),
    decreases events.len(),
{
    if events.len() > 0 {
        law_launches_are_those_of_the_solver(solver, events.drop_last(), launch, blocks);
    }
    law_blocks_are_the_fewest(solver.cells, solver.block, blocks);
}

/// The kernel of a solver is made for its launches: the text that is compiled states the
/// number of threads of each block and the number of cells.
pub proof fn law_kernel_is_made_for_its_launches(
    solver: Solver,
    e: nat,
    events: Seq<StepEvent>,
    launch: Launch,
)
    requires
        solver.wf(),
        solver.source == specialized(pow2(e), solver.block),
        solver.after_events(events).asks_for(StepAction::Launch(launch)),
    ensures
        contains_text(
            solver.after_events(events).source,
            "#define LBM_BLOCK "@ + decimal(launch.config.block_dim.0 as nat) + "\n"@,
        ),
        contains_text(
            solver.after_events(events).source,
            "#define LBM_CELLS "@ + decimal(pow2(e) * pow2(e) * pow2(e)) + "\n"@,
        ),
{
    law_launches_are_those_of_the_solver(solver, events, launch, 0);
    law_specialized_text_states_its_numbers(e, solver.block);
}

/// A solver asks for a launch while steps remain, and is done when none does. A batch begins
/// anew whatever came before it, a launch takes one step off it and makes the other buffer
/// the current one, a failure ends it where it stands, and a launch that nobody asked for
/// changes nothing.
pub proof fn law_events_move_a_batch(solver: Solver, steps: usize, action: StepAction)
    ensures
        solver.asks_for(action) ==> (action is Done <==> solver.remaining == 0),
        solver.after(StepEvent::Begin(steps)).remaining == steps,
        solver.after(StepEvent::Begin(steps)).front == solver.front,
        solver.remaining > 0 ==> solver.after(StepEvent::Launched).remaining == solver.remaining
            - 1,
        solver.remaining > 0 ==> solver.after(StepEvent::Launched).front != solver.front,
        solver.remaining == 0 ==> solver.after(StepEvent::Launched) == solver,
        solver.after(StepEvent::Failed).remaining == 0,
        solver.after(StepEvent::Failed).front == solver.front,
{
}

/// A solver is made exactly for a block of 1 to 1024 threads, an edge that is a power of two
/// with at most 2^32 - 1 cells, and a state of nineteen values per cell that the machine can
/// hold. The block is looked at first, then the sizes, then the length of the state, and the
/// edge last.
pub proof fn law_solvers_are_made_for(n: nat, block: nat, len: nat)
    ensures
        ({
            let cells = n * n * n;
            let refusal = creation_error(n, block, len);
            let block_ok = 1 <= block <= 1024;
            let fits = cells <= usize::MAX && 19 * cells <= usize::MAX;
            &&& refusal is None <==> block_ok && fits && len == 19 * cells && is_pow2(n as int)
                && cells <= 0xffff_ffff
            &&& refusal == Some(D3q19Error::BlockSize) <==> !block_ok
            &&& refusal == Some(D3q19Error::LatticeOverflow) <==> block_ok && cells > usize::MAX
            &&& refusal == Some(D3q19Error::StateOverflow) <==> block_ok && cells <= usize::MAX
                && 19 * cells > usize::MAX
            &&& refusal == Some(D3q19Error::InitialLength) <==> block_ok && fits && len != 19
                * cells
            &&& refusal == Some(D3q19Error::NotPowerOfTwo) <==> block_ok && fits && len == 19
                * cells && !is_pow2(n as int)
            &&& refusal == Some(D3q19Error::TooManyCells) <==> block_ok && fits && len == 19
                * cells && is_pow2(n as int) && cells > 0xffff_ffff
        }),
{
}

} // verus!
