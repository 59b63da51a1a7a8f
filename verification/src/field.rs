//! States and fields on the lattice, of any copyable number type: reading a cell and
//! its surroundings, and making a state cell by cell.
use vstd::arithmetic::power2::is_pow2;
use vstd::prelude::*;

use crate::lattice::{
    cell_of, cube, cx, cy, cz, law_coordinates_read_back, law_layout_is_exact,
    law_mask_takes_the_remainder, law_opposite_direction, law_pull_comes_from_upstream,
    law_pull_is_undone, law_pull_masks_each_coordinate, masked, neighbours, opposite, population_index, pull_cell, pull_slots,
    slot_of, CX, CY, CZ, Q,
};

verus! {

/// The populations that stream into a cell, by direction.
pub open spec fn pulled<T>(input: Seq<T>, n: usize, x: usize, y: usize, z: usize) -> Seq<T> {
    Seq::new(
        19,
        |q: int| input[slot_of(cube(n as nat), q as nat, pull_cell(n, x, y, z, q)) as int],
    )
}

/// The populations of a cell, by direction.
pub open spec fn resident<T>(state: Seq<T>, cells: nat, cell: nat) -> Seq<T> {
    Seq::new(19, |q: int| state[slot_of(cells, q as nat, cell) as int])
}

/// Reads the populations that stream into `(x, y, z)`.
pub fn gather<T: Copy>(input: &[T], n: usize, x: usize, y: usize, z: usize) -> (r: [T; 19])
    requires
        x < n,
        y < n,
        z < n,
        19 * cube(n as nat) <= input.len(),
    ensures
        r@ == pulled(input@, n, x, y, z),
{
    let slots = pull_slots(n, x, y, z);
    let mut r = [input[slots[0]]; 19];
    let mut q: usize = 0;
    while q < Q
        invariant
            q <= 19,
            slots.len() == 19,
            forall|p: int|
                0 <= p < 19 ==> #[trigger] slots[p] < input.len() && slots[p] == slot_of(
                    cube(n as nat),
                    p as nat,
                    pull_cell(n, x, y, z, p),
                ),
            forall|p: int| 0 <= p < q ==> #[trigger] r@[p] == input@[slots[p] as int],
        decreases 19 - q,
    {
        r[q] = input[slots[q]];
        q += 1;
    }
    assert forall|p: int| 0 <= p < 19 implies #[trigger] r@[p] == pulled(input@, n, x, y, z)[p] by {
        assert(r@[p] == input@[slots[p] as int]);
    }
    assert(r@ =~= pulled(input@, n, x, y, z));
    r
}

/// Reads the populations of a cell.
pub fn populations<T: Copy>(state: &[T], cells: usize, cell: usize) -> (r: [T; 19])
    requires
        cell < cells,
        19 * cells <= state.len(),
    ensures
        r@ == resident(state@, cells as nat, cell as nat),
{
    let mut r = [state[population_index(cells, 0, cell)]; 19];
    let mut q: usize = 0;
    while q < Q
        invariant
            q <= 19,
            cell < cells,
            19 * cells <= state.len(),
            forall|p: int|
                0 <= p < q ==> #[trigger] r@[p] == state@[slot_of(
                    cells as nat,
                    p as nat,
                    cell as nat,
                ) as int],
        decreases 19 - q,
    {
        r[q] = state[population_index(cells, q, cell)];
        q += 1;
    }
    assert(r@ =~= resident(state@, cells as nat, cell as nat));
    r
}

/// The values of a field at the face neighbours of a cell.
#[derive(Debug)]
pub struct Stencil<T> {
    pub x_minus: T,
    pub x_plus: T,
    pub y_minus: T,
    pub y_plus: T,
    pub z_minus: T,
    pub z_plus: T,
}

/// The value of a field at `(x, y, z)`.
pub open spec fn at<T>(field: Seq<T>, n: usize, x: usize, y: usize, z: usize) -> T {
    field[cell_of(n as nat, x as nat, y as nat, z as nat) as int]
}

/// The values of a field at the face neighbours of `(x, y, z)`.
pub open spec fn stencil_of<T>(field: Seq<T>, n: usize, x: usize, y: usize, z: usize) -> Stencil<T> {
    Stencil {
        x_minus: at(field, n, masked(x, 1, n), y, z),
        x_plus: at(field, n, masked(x, -1, n), y, z),
        y_minus: at(field, n, x, masked(y, 1, n), z),
        y_plus: at(field, n, x, masked(y, -1, n), z),
        z_minus: at(field, n, x, y, masked(z, 1, n)),
        z_plus: at(field, n, x, y, masked(z, -1, n)),
    }
}

/// Reads a field at the face neighbours of `(x, y, z)`, for central differences.
pub fn stencil<T: Copy>(field: &[T], n: usize, x: usize, y: usize, z: usize) -> (r: Stencil<T>)
    requires
        x < n,
        y < n,
        z < n,
        cube(n as nat) <= field.len(),
    ensures
        r == stencil_of(field@, n, x, y, z),
{
    let around = neighbours(n, x, y, z);
    Stencil {
        x_minus: field[around.x_minus],
        x_plus: field[around.x_plus],
        y_minus: field[around.y_minus],
        y_plus: field[around.y_plus],
        z_minus: field[around.z_minus],
        z_plus: field[around.z_plus],
    }
}

proof fn lemma_slots_differ(cells: nat, q: nat, cell: nat, slot: nat)
    requires
        q < 19,
        cell < cells,
        slot >= 19 * cells || slot % cells != cell,
    ensures
        slot_of(cells, q, cell) != slot,
{
    law_layout_is_exact(cells, q, cell, 0);
}

/// Writes the populations of a cell.
pub fn store<T: Copy>(state: &mut Vec<T>, cells: usize, cell: usize, values: [T; 19])
    requires
        cell < cells,
        19 * cells <= old(state).len(),
    ensures
        final(state).len() == old(state).len(),
        resident(final(state)@, cells as nat, cell as nat) == values@,
        forall|i: int|
            0 <= i < final(state).len() && (i >= 19 * cells || i % cells as int != cell)
                ==> #[trigger] final(state)@[i] == old(state)@[i],
{
    let mut q: usize = 0;
    while q < Q
        invariant
            q <= 19,
            cell < cells,
            19 * cells <= state.len(),
            state.len() == old(state).len(),
            forall|p: int|
                0 <= p < q ==> state@[#[trigger] slot_of(
                    cells as nat,
                    p as nat,
                    cell as nat,
                ) as int] == values@[p],
            forall|i: int|
                0 <= i < state.len() && (i >= 19 * cells || i % cells as int != cell)
                    ==> #[trigger] state@[i] == old(state)@[i],
        decreases 19 - q,
    {
        let ghost before = state@;
        let slot = population_index(cells, q, cell);
        state[slot] = values[q];
        proof {
            assert forall|p: int| 0 <= p < q + 1 implies state@[#[trigger] slot_of(
                cells as nat,
                p as nat,
                cell as nat,
            ) as int] == values@[p] by {
                law_layout_is_exact(cells as nat, p as nat, cell as nat, 0);
                law_layout_is_exact(cells as nat, q as nat, cell as nat, 0);
            }
            assert forall|i: int|
                0 <= i < state.len() && (i >= 19 * cells || i % cells as int
                    != cell) implies #[trigger] state@[i] == old(state)@[i] by {
                lemma_slots_differ(cells as nat, q as nat, cell as nat, i as nat);
                assert(state@[i] == before[i]);
            }
        }
        q += 1;
    }
    assert(resident(state@, cells as nat, cell as nat) =~= values@);
}

/// Whether the state holds, in the cell at `(x, y, z)`, populations that `values` can
/// give for it.
pub open spec fn made_by<T, F: Fn(usize, usize, usize) -> [T; 19]>(
    state: Seq<T>,
    n: usize,
    values: F,
    x: usize,
    y: usize,
    z: usize,
) -> bool {
    exists|v: [T; 19]|
        #[trigger] call_ensures(values, (x, y, z), v) && resident(
            state,
            cube(n as nat),
            cell_of(n as nat, x as nat, y as nat, z as nat),
        ) == v@
}

proof fn lemma_resident_kept<T>(before: Seq<T>, after: Seq<T>, cells: nat, cell: nat, other: nat)
    requires
        cell < cells,
        other < cells,
        cell != other,
        19 * cells <= before.len(),
        before.len() == after.len(),
        forall|i: int|
            0 <= i < after.len() && (i >= 19 * cells || i % cells as int != cell)
                ==> #[trigger] after[i] == before[i],
    ensures
        resident(after, cells, other) == resident(before, cells, other),
{
    assert forall|q: int| 0 <= q < 19 implies #[trigger] resident(after, cells, other)[q]
        == resident(before, cells, other)[q] by {
        law_layout_is_exact(cells, q as nat, other, 0);
        let slot = slot_of(cells, q as nat, other) as int;
        assert(after[slot] == before[slot]);
    }
    assert(resident(after, cells, other) =~= resident(before, cells, other));
}

/// Cells with different coordinates are different cells.
proof fn lemma_cells_differ(n: nat, x: nat, y: nat, z: nat, a: nat, b: nat, c: nat)
    requires
        x < n,
        y < n,
        z < n,
        a < n,
        b < n,
        c < n,
        x != a || y != b || z != c,
    ensures
        cell_of(n, x, y, z) != cell_of(n, a, b, c),
{
    law_coordinates_read_back(n, x, y, z);
    law_coordinates_read_back(n, a, b, c);
}

/// Whether `(a, b, c)` comes before `(x, y, z)` in the order of the cells.
spec fn before(a: usize, b: usize, c: usize, x: usize, y: usize, z: usize) -> bool {
    a < x || (a == x && (b < y || (b == y && c < z)))
}

/// Makes a state of `len` values cell by cell: each cell gets the populations that
/// `values` gives for its coordinates, and what lies beyond the cells is `zero`.
fn make_state<T: Copy, F: Fn(usize, usize, usize) -> [T; 19]>(
    n: usize,
    len: usize,
    zero: T,
    values: F,
) -> (r: Vec<T>)
    requires
        19 * cube(n as nat) <= len,
        forall|x: usize, y: usize, z: usize|
            x < n && y < n && z < n ==> #[trigger] call_requires(values, (x, y, z)),
    ensures
        r.len() == len,
        forall|x: usize, y: usize, z: usize|
            x < n && y < n && z < n ==> #[trigger] made_by(r@, n, values, x, y, z),
        forall|i: int| 19 * cube(n as nat) <= i < len ==> #[trigger] r@[i] == zero,
{
    let mut state: Vec<T> = Vec::new();
    while state.len() < len
        invariant
            state.len() <= len,
            forall|i: int| 0 <= i < state.len() ==> #[trigger] state@[i] == zero,
        decreases len - state.len(),
    {
        state.push(zero);
    }
    if n == 0 {
        return state;
    }
    proof {
        assert(n * n <= n * n * n && n <= n * n) by (nonlinear_arith)
            requires
                n >= 1,
        ;
    }
    let cells: usize = n * n * n;
    let mut x: usize = 0;
    let mut y: usize = 0;
    let mut z: usize = 0;
    let mut cell: usize = 0;
    while x < n
        invariant
            x <= n,
            n >= 1,
            y < n,
            z < n,
            x == n ==> y == 0 && z == 0,
            cell == cell_of(n as nat, x as nat, y as nat, z as nat),
            cells == cube(n as nat),
            19 * cells <= len,
            state.len() == len,
            forall|a: usize, b: usize, c: usize|
                a < n && b < n && c < n ==> #[trigger] call_requires(values, (a, b, c)),
            forall|a: usize, b: usize, c: usize|
                a < n && b < n && c < n && before(a, b, c, x, y, z) ==> #[trigger] made_by(
                    state@,
                    n,
                    values,
                    a,
                    b,
                    c,
                ),
            forall|i: int| 19 * cells <= i < len ==> #[trigger] state@[i] == zero,
        decreases n - x, n - y, n - z,
    {
        let ghost old_state = state@;
        let (x0, y0, z0) = (x, y, z);
        proof {
            law_coordinates_read_back(n as nat, x as nat, y as nat, z as nat);
        }
        let v = values(x, y, z);
        store(&mut state, cells, cell, v);
        assert(made_by(state@, n, values, x, y, z));
        proof {
            assert forall|a: usize, b: usize, c: usize|
                a < n && b < n && c < n && before(a, b, c, x, y, z) implies #[trigger] made_by(
                state@,
                n,
                values,
                a,
                b,
                c,
            ) by {
                assert(made_by(old_state, n, values, a, b, c));
                let w = choose|w: [T; 19]|
                    #[trigger] call_ensures(values, (a, b, c), w) && resident(
                        old_state,
                        cube(n as nat),
                        cell_of(n as nat, a as nat, b as nat, c as nat),
                    ) == w@;
                lemma_cells_differ(
                    n as nat,
                    x as nat,
                    y as nat,
                    z as nat,
                    a as nat,
                    b as nat,
                    c as nat,
                );
                law_coordinates_read_back(n as nat, a as nat, b as nat, c as nat);
                lemma_resident_kept(
                    old_state,
                    state@,
                    cells as nat,
                    cell as nat,
                    cell_of(n as nat, a as nat, b as nat, c as nat),
                );
                assert(call_ensures(values, (a, b, c), w));
            }
        }
        cell += 1;
        z += 1;
        if z == n {
            z = 0;
            y += 1;
            if y == n {
                y = 0;
                x += 1;
            }
        }
        proof {
            assert((x0 * n + y0) * n + n == (x0 * n + (y0 + 1)) * n) by (nonlinear_arith);
            assert(x0 * n + n == (x0 + 1) * n) by (nonlinear_arith);
            assert forall|a: usize, b: usize, c: usize|
                a < n && b < n && c < n && before(a, b, c, x, y, z) implies #[trigger] made_by(
                state@,
                n,
                values,
                a,
                b,
                c,
            ) by {
                assert(before(a, b, c, x0, y0, z0) || (a == x0 && b == y0 && c == z0));
            }
        }
    }
    state
}

/// Makes the state in which each cell has the populations that `values` gives for its
/// coordinates.
pub fn initial_state<T: Copy, F: Fn(usize, usize, usize) -> [T; 19]>(
    n: usize,
    zero: T,
    values: F,
) -> (r: Vec<T>)
    requires
        19 * cube(n as nat) <= usize::MAX,
        forall|x: usize, y: usize, z: usize|
            x < n && y < n && z < n ==> #[trigger] call_requires(values, (x, y, z)),
    ensures
        r.len() == 19 * cube(n as nat),
        forall|x: usize, y: usize, z: usize|
            x < n && y < n && z < n ==> #[trigger] made_by(r@, n, values, x, y, z),
{
    proof {
        assert(n * n <= n * n * n || n * n == 0) by (nonlinear_arith);
    }
    let cells: usize = n * n * n;
    make_state(n, Q * cells, zero, values)
}

/// Whether a step from `input` to `output` gave the cell at `(x, y, z)` populations that
/// `collide` can make of those that stream into it.
pub open spec fn stepped<T, F: Fn([T; 19]) -> [T; 19]>(
    input: Seq<T>,
    output: Seq<T>,
    n: usize,
    collide: F,
    x: usize,
    y: usize,
    z: usize,
) -> bool {
    exists|f: [T; 19], v: [T; 19]|
        f@ == pulled(input, n, x, y, z) && #[trigger] call_ensures(collide, (f,), v) && resident(
            output,
            cube(n as nat),
            cell_of(n as nat, x as nat, y as nat, z as nat),
        ) == v@
}

/// Whether `output` is `input` one step later: every cell has made its step, and what
/// lies beyond the cells is `zero`.
pub open spec fn is_step<T, F: Fn([T; 19]) -> [T; 19]>(
    input: Seq<T>,
    output: Seq<T>,
    n: usize,
    zero: T,
    collide: F,
) -> bool {
    &&& output.len() == input.len()
    &&& forall|x: usize, y: usize, z: usize|
        x < n && y < n && z < n ==> #[trigger] stepped(input, output, n, collide, x, y, z)
    &&& forall|i: int| 19 * cube(n as nat) <= i < input.len() ==> #[trigger] output[i] == zero
}

/// Advances a state by one step on the host: each cell pulls its populations from its
/// neighbours and collides them.
pub fn cpu_step<T: Copy, F: Copy + Fn([T; 19]) -> [T; 19]>(
    input: &[T],
    n: usize,
    zero: T,
    collide: F,
) -> (r: Vec<T>)
    requires
        n > 0,
        19 * cube(n as nat) <= input.len(),
        forall|f: [T; 19]| #[trigger] call_requires(collide, (f,)),
    ensures
        is_step(input@, r@, n, zero, collide),
{
    let values = |x: usize, y: usize, z: usize| -> (v: [T; 19])
        requires
            x < n,
            y < n,
            z < n,
        ensures
            exists|f: [T; 19]|
                f@ == pulled(input@, n, x, y, z) && #[trigger] call_ensures(collide, (f,), v),
        { collide(gather(input, n, x, y, z)) };
    let r = make_state(n, input.len(), zero, values);
    proof {
        assert forall|x: usize, y: usize, z: usize|
            x < n && y < n && z < n implies #[trigger] stepped(
            input@,
            r@,
            n,
            collide,
            x,
            y,
            z,
        ) by {
            assert(made_by(r@, n, values, x, y, z));
        }
    }
    r
}

/// Whether `states` leads from `input` to `output` in single steps.
pub open spec fn are_states<T, F: Fn([T; 19]) -> [T; 19]>(
    input: Seq<T>,
    output: Seq<T>,
    n: usize,
    zero: T,
    collide: F,
    states: Seq<Seq<T>>,
) -> bool {
    &&& states.len() > 0
    &&& states[0] == input
    &&& states.last() == output
    &&& forall|k: int|
        0 <= k < states.len() - 1 ==> is_step(#[trigger] states[k], states[k + 1], n, zero, collide)
}

/// Whether `output` is `input` after `steps` steps.
pub open spec fn advanced<T, F: Fn([T; 19]) -> [T; 19]>(
    input: Seq<T>,
    output: Seq<T>,
    n: usize,
    zero: T,
    collide: F,
    steps: nat,
) -> bool {
    exists|states: Seq<Seq<T>>|
        states.len() == steps + 1 && #[trigger] are_states(
            input,
            output,
            n,
            zero,
            collide,
            states,
        )
}

/// Advances a state by `steps` steps on the host.
pub fn cpu_steps<T: Copy, F: Copy + Fn([T; 19]) -> [T; 19]>(
    input: &[T],
    n: usize,
    zero: T,
    collide: F,
    steps: usize,
) -> (r: Vec<T>)
    requires
        steps > 0 ==> n > 0 && 19 * cube(n as nat) <= input.len(),
        forall|f: [T; 19]| #[trigger] call_requires(collide, (f,)),
    ensures
        advanced(input@, r@, n, zero, collide, steps as nat),
{
    let mut state: Vec<T> = Vec::new();
    while state.len() < input.len()
        invariant
            state.len() <= input.len(),
            state@ == input@.take(state.len() as int),
        decreases input.len() - state.len(),
    {
        state.push(input[state.len()]);
        assert(state@ =~= input@.take(state.len() as int));
    }
    assert(state@ =~= input@);
    let ghost mut states: Seq<Seq<T>> = seq![input@];
    let mut k: usize = 0;
    while k < steps
        invariant
            k <= steps,
            steps > 0 ==> n > 0 && 19 * cube(n as nat) <= input.len(),
            forall|f: [T; 19]| #[trigger] call_requires(collide, (f,)),
            state.len() == input.len(),
            states.len() == k + 1,
            are_states(input@, state@, n, zero, collide, states),
        decreases steps - k,
    {
        let next = cpu_step(state.as_slice(), n, zero, collide);
        proof {
            let more = states.push(next@);
            assert forall|j: int| 0 <= j < more.len() - 1 implies is_step(
                #[trigger] more[j],
                more[j + 1],
                n,
                zero,
                collide,
            ) by {
                assert(more[j] == states[j]);
            }
            states = more;
        }
        state = next;
        k += 1;
    }
    assert(are_states(input@, state@, n, zero, collide, states));
    state
}

/// Where the collision changes nothing, a step moves every population along its own
/// direction: what a cell held in direction `q` is afterwards held, in the same
/// direction, by the cell that lies there.
pub proof fn law_streaming_moves_every_population<T, F: Fn([T; 19]) -> [T; 19]>(
    input: Seq<T>,
    output: Seq<T>,
    n: usize,
    collide: F,
    x: usize,
    y: usize,
    z: usize,
    q: int,
)
    requires
        is_pow2(n as int),
        x < n,
        y < n,
        z < n,
        0 <= q < 19,
        forall|a: usize, b: usize, c: usize|
            a < n && b < n && c < n ==> #[trigger] stepped(input, output, n, collide, a, b, c),
        forall|f: [T; 19], v: [T; 19]| #[trigger] call_ensures(collide, (f,), v) ==> v@ == f@,
    ensures
        resident(
            output,
            cube(n as nat),
            cell_of(
                n as nat,
                masked(x, -cx(q), n) as nat,
                masked(y, -cy(q), n) as nat,
                masked(z, -cz(q), n) as nat,
            ),
        )[q] == resident(
            input,
            cube(n as nat),
            cell_of(n as nat, x as nat, y as nat, z as nat),
        )[q],
{
    law_opposite_direction(q);
    law_pull_is_undone(n, x, y, z, opposite(q));
    let (a, b, c) = (masked(x, -cx(q), n), masked(y, -cy(q), n), masked(z, -cz(q), n));
    assert(stepped(input, output, n, collide, a, b, c));
    assert(pulled(input, n, a, b, c)[q] == resident(
        input,
        cube(n as nat),
        cell_of(n as nat, x as nat, y as nat, z as nat),
    )[q]);
}

/// The populations of a cell stand in the state one below the other, a lattice apart.
pub proof fn law_populations_are_a_lattice_apart<T>(state: Seq<T>, cells: nat, cell: nat, q: int)
    requires
        0 <= q < 19,
    ensures
        resident(state, cells, cell).len() == 19,
        resident(state, cells, cell)[q] == state[q * cells + cell],
{
}

/// What is gathered for a cell comes, in each direction, from the cell one step against the
/// direction around the lattice, and from the same direction there.
pub proof fn law_gathered_come_from_upstream<T>(
    input: Seq<T>,
    n: usize,
    x: usize,
    y: usize,
    z: usize,
    q: int,
)
    requires
        is_pow2(n as int),
        x < n,
        y < n,
        z < n,
        0 <= q < 19,
    ensures
        pulled(input, n, x, y, z).len() == 19,
        pulled(input, n, x, y, z)[q] == input[q * (n * n * n) + ((((x - CX@[q]) % (n as int)) * n
            + (y - CY@[q]) % (n as int)) * n + (z - CZ@[q]) % (n as int))],
{
    law_pull_comes_from_upstream(n, x, y, z, q);
}

/// The surroundings of a cell are the field one step along each axis, around the lattice:
/// a plus is a step forward and a minus a step back.
pub proof fn law_stencil_is_one_step_around<T>(
    field: Seq<T>,
    n: usize,
    x: usize,
    y: usize,
    z: usize,
)
    requires
        is_pow2(n as int),
        x < n,
        y < n,
        z < n,
    ensures
        ({
            let u = stencil_of(field, n, x, y, z);
            let m = n as int;
            &&& u.x_plus == field[(((x + 1) % m) * n + y) * n + z]
            &&& u.x_minus == field[(((x - 1) % m) * n + y) * n + z]
            &&& u.y_plus == field[(x * n + (y + 1) % m) * n + z]
            &&& u.y_minus == field[(x * n + (y - 1) % m) * n + z]
            &&& u.z_plus == field[(x * n + y) * n + (z + 1) % m]
            &&& u.z_minus == field[(x * n + y) * n + (z - 1) % m]
        }),
{
    law_mask_takes_the_remainder(x, 1, n);
    law_mask_takes_the_remainder(x, -1, n);
    law_mask_takes_the_remainder(y, 1, n);
    law_mask_takes_the_remainder(y, -1, n);
    law_mask_takes_the_remainder(z, 1, n);
    law_mask_takes_the_remainder(z, -1, n);
}

/// A state that is made cell by cell holds, for each cell, what was made for its own
/// coordinates, each population at its own place. Gives what was made.
pub proof fn law_cells_hold_what_was_made_for_them<T, F: Fn(usize, usize, usize) -> [T; 19]>(
    state: Seq<T>,
    n: usize,
    values: F,
    x: usize,
    y: usize,
    z: usize,
) -> (v: [T; 19])
    requires
        made_by(state, n, values, x, y, z),
    ensures
        call_ensures(values, (x, y, z), v),
        forall|q: int|
            0 <= q < 19 ==> #[trigger] v@[q] == state[q * (n * n * n) + ((x * n + y) * n + z)],
{
    let v = choose|v: [T; 19]|
        #[trigger] call_ensures(values, (x, y, z), v) && resident(
            state,
            cube(n as nat),
            cell_of(n as nat, x as nat, y as nat, z as nat),
        ) == v@;
    let here = resident(
        state,
        cube(n as nat),
        cell_of(n as nat, x as nat, y as nat, z as nat),
    );
    assert forall|q: int| 0 <= q < 19 implies #[trigger] v@[q] == state[q * (n * n * n) + ((x * n
        + y) * n + z)] by {
        assert(here[q] == v@[q]);
    }
    v
}

/// A step gives each cell what the collision makes of the nineteen populations that stream
/// into it from upstream, each population at its own place, and keeps the length of the
/// state. Gives what streams in and what is made of it.
pub proof fn law_step_pulls_and_collides<T, F: Fn([T; 19]) -> [T; 19]>(
    input: Seq<T>,
    output: Seq<T>,
    n: usize,
    zero: T,
    collide: F,
    x: usize,
    y: usize,
    z: usize,
) -> (w: ([T; 19], [T; 19]))
    requires
        is_pow2(n as int),
        x < n,
        y < n,
        z < n,
        is_step(input, output, n, zero, collide),
    ensures
        output.len() == input.len(),
        forall|i: int| 19 * (n * n * n) <= i < input.len() ==> #[trigger] output[i] == zero,
        call_ensures(collide, (w.0,), w.1),
        forall|q: int|
            0 <= q < 19 ==> #[trigger] w.0@[q] == input[q * (n * n * n) + ((((x - CX@[q]) % (
            n as int)) * n + (y - CY@[q]) % (n as int)) * n + (z - CZ@[q]) % (n as int))],
        forall|q: int|
            0 <= q < 19 ==> #[trigger] w.1@[q] == output[q * (n * n * n) + ((x * n + y) * n + z)],
{
    assert(stepped(input, output, n, collide, x, y, z));
    let (f, v) = choose|f: [T; 19], v: [T; 19]|
        f@ == pulled(input, n, x, y, z) && #[trigger] call_ensures(collide, (f,), v) && resident(
            output,
            cube(n as nat),
            cell_of(n as nat, x as nat, y as nat, z as nat),
        ) == v@;
    let here = resident(
        output,
        cube(n as nat),
        cell_of(n as nat, x as nat, y as nat, z as nat),
    );
    assert forall|q: int| 0 <= q < 19 implies #[trigger] f@[q] == input[q * (n * n * n) + ((((x
        - CX@[q]) % (n as int)) * n + (y - CY@[q]) % (n as int)) * n + (z - CZ@[q]) % (
    n as int))] by {
        law_gathered_come_from_upstream(input, n, x, y, z, q);
    }
    assert forall|q: int| 0 <= q < 19 implies #[trigger] v@[q] == output[q * (n * n * n) + ((x * n
        + y) * n + z)] by {
        assert(here[q] == v@[q]);
    }
    (f, v)
}

/// No step leaves a state as it is.
pub proof fn law_no_step_changes_nothing<T, F: Fn([T; 19]) -> [T; 19]>(
    input: Seq<T>,
    output: Seq<T>,
    n: usize,
    zero: T,
    collide: F,
)
    requires
        advanced(input, output, n, zero, collide, 0),
    ensures
        output == input,
{
}

/// The last of several steps is one step from the state that the others lead to. Gives that
/// state.
pub proof fn law_steps_are_taken_one_by_one<T, F: Fn([T; 19]) -> [T; 19]>(
    input: Seq<T>,
    output: Seq<T>,
    n: usize,
    zero: T,
    collide: F,
    steps: nat,
) -> (before: Seq<T>)
    requires
        advanced(input, output, n, zero, collide, steps + 1),
    ensures
        advanced(input, before, n, zero, collide, steps),
        is_step(before, output, n, zero, collide),
{
    let states = choose|states: Seq<Seq<T>>|
        states.len() == steps + 2 && #[trigger] are_states(
            input,
            output,
            n,
            zero,
            collide,
            states,
        );
    let fewer = states.drop_last();
    let before = fewer.last();
    assert(is_step(states[steps as int], states[steps as int + 1], n, zero, collide));
    assert forall|k: int| 0 <= k < fewer.len() - 1 implies is_step(
        #[trigger] fewer[k],
        fewer[k + 1],
        n,
        zero,
        collide,
    ) by {
        assert(fewer[k] == states[k]);
        assert(fewer[k + 1] == states[k + 1]);
    }
    assert(are_states(input, before, n, zero, collide, fewer));
    before
}

/// On any edge, what is gathered for a cell comes, in each direction, from the masked
/// coordinates, and from the same direction there.
pub proof fn law_gathered_come_from_masked_coordinates<T>(
    input: Seq<T>,
    n: usize,
    x: usize,
    y: usize,
    z: usize,
    q: int,
)
    requires
        0 <= q < 19,
    ensures
        pulled(input, n, x, y, z).len() == 19,
        pulled(input, n, x, y, z)[q] == input[q * (n * n * n) + (((x.wrapping_add_signed(
            (-CX@[q]) as isize,
        ) & ((n - 1) as usize)) * n + (y.wrapping_add_signed((-CY@[q]) as isize) & ((n
            - 1) as usize))) * n + (z.wrapping_add_signed((-CZ@[q]) as isize) & ((n
            - 1) as usize)))],
{
    law_pull_masks_each_coordinate(n, x, y, z, q);
}

/// On any edge, the surroundings of a cell are the field at the masked coordinates one step
/// along each axis.
pub proof fn law_stencil_is_masked_around<T>(
    field: Seq<T>,
    n: usize,
    x: usize,
    y: usize,
    z: usize,
)
    ensures
        ({
            let u = stencil_of(field, n, x, y, z);
            let mask = (n - 1) as usize;
            &&& u.x_plus == field[((x.wrapping_add_signed(1) & mask) * n + y) * n + z]
            &&& u.x_minus == field[((x.wrapping_add_signed((-1) as isize) & mask) * n + y) * n
                + z]
            &&& u.y_plus == field[(x * n + (y.wrapping_add_signed(1) & mask)) * n + z]
            &&& u.y_minus == field[(x * n + (y.wrapping_add_signed((-1) as isize) & mask)) * n
                + z]
            &&& u.z_plus == field[(x * n + y) * n + (z.wrapping_add_signed(1) & mask)]
            &&& u.z_minus == field[(x * n + y) * n + (z.wrapping_add_signed((-1) as isize)
                & mask)]
        }),
{
}

/// On any edge, a step gives each cell what the collision makes of what is gathered for it.
/// Gives what streams in and what is made of it.
pub proof fn law_step_gathers_and_collides<T, F: Fn([T; 19]) -> [T; 19]>(
    input: Seq<T>,
    output: Seq<T>,
    n: usize,
    zero: T,
    collide: F,
    x: usize,
    y: usize,
    z: usize,
) -> (w: ([T; 19], [T; 19]))
    requires
        x < n,
        y < n,
        z < n,
        is_step(input, output, n, zero, collide),
    ensures
        output.len() == input.len(),
        w.0@ == pulled(input, n, x, y, z),
        call_ensures(collide, (w.0,), w.1),
        forall|q: int|
            0 <= q < 19 ==> #[trigger] w.1@[q] == output[q * (n * n * n) + ((x * n + y) * n + z)],
{
    assert(stepped(input, output, n, collide, x, y, z));
    let (f, v) = choose|f: [T; 19], v: [T; 19]|
        f@ == pulled(input, n, x, y, z) && #[trigger] call_ensures(collide, (f,), v) && resident(
            output,
            cube(n as nat),
            cell_of(n as nat, x as nat, y as nat, z as nat),
        ) == v@;
    let here = resident(
        output,
        cube(n as nat),
        cell_of(n as nat, x as nat, y as nat, z as nat),
    );
    assert forall|q: int| 0 <= q < 19 implies #[trigger] v@[q] == output[q * (n * n * n) + ((x * n
        + y) * n + z)] by {
        assert(here[q] == v@[q]);
    }
    (f, v)
}

} // verus!
