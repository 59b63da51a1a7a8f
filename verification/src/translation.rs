//! No cell of the periodic lattice is special: what moves all cells of a state moves what
//! becomes of it.
use vstd::arithmetic::div_mod::{
    lemma_div_denominator, lemma_mod_bound, lemma_mod_twice, lemma_sub_mod_noop,
};
use vstd::arithmetic::power2::is_pow2;
use vstd::prelude::*;

use crate::field::{advanced, are_states, is_step, pulled, resident, stepped};
use crate::lattice::{
    cell_of, cube, cx, cy, cz, law_cells_have_coordinates, law_coordinates_read_back,
    law_directions_are_distinct, law_layout_is_exact, law_mask_is_periodic, masked, ring, slot_of,
    x_of, y_of, z_of,
};

verus! {

/// Whether the collision makes the same of the same populations every time.
pub open spec fn has_one_outcome<T, F: Fn([T; 19]) -> [T; 19]>(collide: F) -> bool {
    forall|f: [T; 19], v: [T; 19], w: [T; 19]|
        #[trigger] call_ensures(collide, (f,), v) && #[trigger] call_ensures(collide, (f,), w)
            ==> v == w
}

/// The cell that moves into `(x, y, z)` when all cells move by `(dx, dy, dz)`.
pub open spec fn origin(n: usize, x: int, y: int, z: int, dx: int, dy: int, dz: int) -> nat {
    cell_of(
        n as nat,
        ring(x, dx, n as int) as nat,
        ring(y, dy, n as int) as nat,
        ring(z, dz, n as int) as nat,
    )
}

/// A state with all cells moved by `(dx, dy, dz)` around the lattice. Each population
/// keeps its direction.
pub open spec fn moved<T>(state: Seq<T>, n: usize, dx: int, dy: int, dz: int) -> Seq<T> {
    let cells = cube(n as nat);
    Seq::new(
        19 * cells,
        |slot: int|
            {
                let cell = slot % cells as int;
                state[slot_of(
                    cells,
                    (slot / cells as int) as nat,
                    origin(n, x_of(n, cell), y_of(n, cell), z_of(n, cell), dx, dy, dz),
                ) as int]
            },
    )
}

/// A cell of a moved state has the populations of the cell that moved there.
proof fn lemma_moved_cell<T>(
    state: Seq<T>,
    n: usize,
    dx: int,
    dy: int,
    dz: int,
    x: usize,
    y: usize,
    z: usize,
    q: int,
)
    requires
        x < n,
        y < n,
        z < n,
        0 <= q < 19,
    ensures
        moved(state, n, dx, dy, dz)[slot_of(
            cube(n as nat),
            q as nat,
            cell_of(n as nat, x as nat, y as nat, z as nat),
        ) as int] == state[slot_of(
            cube(n as nat),
            q as nat,
            origin(n, x as int, y as int, z as int, dx, dy, dz),
        ) as int],
{
    let cells = cube(n as nat);
    let cell = cell_of(n as nat, x as nat, y as nat, z as nat);
    law_coordinates_read_back(n as nat, x as nat, y as nat, z as nat);
    lemma_div_denominator(cell as int, n as int, n as int);
    law_layout_is_exact(cells, q as nat, cell, 0);
}

/// Moving and pulling can be done in either order.
proof fn lemma_ring_commutes(x: int, c: int, d: int, n: int)
    requires
        n > 0,
    ensures
        ring(ring(x, c, n), d, n) == ring(ring(x, d, n), c, n),
        0 <= ring(x, d, n) < n,
{
    lemma_sub_mod_noop(x - c, d, n);
    lemma_sub_mod_noop((x - c) % n, d, n);
    lemma_sub_mod_noop(x - d, c, n);
    lemma_sub_mod_noop((x - d) % n, c, n);
    lemma_mod_twice(x - c, n);
    lemma_mod_twice(x - d, n);
    lemma_mod_bound(x - d, n);
    assert(x - c - d == x - d - c);
}

/// What streams into a cell of a moved state is what streams into the cell that moved
/// there.
proof fn lemma_moved_pull<T>(
    state: Seq<T>,
    n: usize,
    dx: int,
    dy: int,
    dz: int,
    x: usize,
    y: usize,
    z: usize,
)
    requires
        is_pow2(n as int),
        x < n,
        y < n,
        z < n,
    ensures
        ring(x as int, dx, n as int) < n,
        ring(y as int, dy, n as int) < n,
        ring(z as int, dz, n as int) < n,
        pulled(moved(state, n, dx, dy, dz), n, x, y, z) == pulled(
            state,
            n,
            ring(x as int, dx, n as int) as usize,
            ring(y as int, dy, n as int) as usize,
            ring(z as int, dz, n as int) as usize,
        ),
{
    let m = n as int;
    lemma_ring_commutes(x as int, 0, dx, m);
    lemma_ring_commutes(y as int, 0, dy, m);
    lemma_ring_commutes(z as int, 0, dz, m);
    let a = ring(x as int, dx, m) as usize;
    let b = ring(y as int, dy, m) as usize;
    let c = ring(z as int, dz, m) as usize;
    let left = pulled(moved(state, n, dx, dy, dz), n, x, y, z);
    let right = pulled(state, n, a, b, c);
    assert forall|q: int| 0 <= q < 19 implies #[trigger] left[q] == right[q] by {
        law_directions_are_distinct(q, q);
        law_mask_is_periodic(x, cx(q), n);
        law_mask_is_periodic(y, cy(q), n);
        law_mask_is_periodic(z, cz(q), n);
        law_mask_is_periodic(a, cx(q), n);
        law_mask_is_periodic(b, cy(q), n);
        law_mask_is_periodic(c, cz(q), n);
        lemma_ring_commutes(x as int, cx(q), dx, m);
        lemma_ring_commutes(y as int, cy(q), dy, m);
        lemma_ring_commutes(z as int, cz(q), dz, m);
        lemma_moved_cell(
            state,
            n,
            dx,
            dy,
            dz,
            masked(x, cx(q), n),
            masked(y, cy(q), n),
            masked(z, cz(q), n),
            q,
        );
    }
    assert(left =~= right);
}

/// Moving all cells of a state by one vector moves the state one step later by it, value
/// for value, if the collision has one outcome.
pub proof fn law_step_commutes_with_moving<T, F: Fn([T; 19]) -> [T; 19]>(
    input: Seq<T>,
    output: Seq<T>,
    other: Seq<T>,
    n: usize,
    zero: T,
    collide: F,
    dx: int,
    dy: int,
    dz: int,
)
    requires
        is_pow2(n as int),
        input.len() == 19 * cube(n as nat),
        has_one_outcome(collide),
        is_step(input, output, n, zero, collide),
        is_step(moved(input, n, dx, dy, dz), other, n, zero, collide),
    ensures
        other == moved(output, n, dx, dy, dz),
{
    let cells = cube(n as nat);
    let expected = moved(output, n, dx, dy, dz);
    assert forall|slot: int| 0 <= slot < 19 * cells implies #[trigger] other[slot]
        == expected[slot] by {
        let q = slot / cells as int;
        let cell = slot % cells as int;
        assert(cells > 0);
        law_layout_is_exact(cells, 0, 0, slot as nat);
        law_cells_have_coordinates(n, cell);
        let x = x_of(n, cell) as usize;
        let y = y_of(n, cell) as usize;
        let z = z_of(n, cell) as usize;
        lemma_moved_pull(input, n, dx, dy, dz, x, y, z);
        let a = ring(x as int, dx, n as int) as usize;
        let b = ring(y as int, dy, n as int) as usize;
        let c = ring(z as int, dz, n as int) as usize;
        lemma_ring_commutes(x as int, 0, dx, n as int);
        lemma_ring_commutes(y as int, 0, dy, n as int);
        lemma_ring_commutes(z as int, 0, dz, n as int);
        assert(stepped(input, output, n, collide, a, b, c));
        assert(stepped(moved(input, n, dx, dy, dz), other, n, collide, x, y, z));
        lemma_same_outcome(
            input,
            output,
            moved(input, n, dx, dy, dz),
            other,
            n,
            collide,
            a,
            b,
            c,
            x,
            y,
            z,
        );
        let there = resident(other, cells, cell_of(n as nat, x as nat, y as nat, z as nat));
        let here = resident(output, cells, cell_of(n as nat, a as nat, b as nat, c as nat));
        assert(there[q] == here[q]);
    }
    assert(other =~= expected);
}

/// Cells that the same populations stream into have the same populations afterwards.
proof fn lemma_same_outcome<T, F: Fn([T; 19]) -> [T; 19]>(
    first: Seq<T>,
    first_after: Seq<T>,
    second: Seq<T>,
    second_after: Seq<T>,
    n: usize,
    collide: F,
    a: usize,
    b: usize,
    c: usize,
    x: usize,
    y: usize,
    z: usize,
)
    requires
        has_one_outcome(collide),
        stepped(first, first_after, n, collide, a, b, c),
        stepped(second, second_after, n, collide, x, y, z),
        pulled(second, n, x, y, z) == pulled(first, n, a, b, c),
    ensures
        resident(
            second_after,
            cube(n as nat),
            cell_of(n as nat, x as nat, y as nat, z as nat),
        ) == resident(
            first_after,
            cube(n as nat),
            cell_of(n as nat, a as nat, b as nat, c as nat),
        ),
{
    let (f, v) = choose|f: [T; 19], v: [T; 19]|
        f@ == pulled(first, n, a, b, c) && #[trigger] call_ensures(collide, (f,), v) && resident(
            first_after,
            cube(n as nat),
            cell_of(n as nat, a as nat, b as nat, c as nat),
        ) == v@;
    let (g, w) = choose|g: [T; 19], w: [T; 19]|
        g@ == pulled(second, n, x, y, z) && #[trigger] call_ensures(collide, (g,), w) && resident(
            second_after,
            cube(n as nat),
            cell_of(n as nat, x as nat, y as nat, z as nat),
        ) == w@;
    assert(f =~= g);
}

/// Moving all cells of a state by one vector moves the state any number of steps later by
/// it, value for value, if the collision has one outcome.
pub proof fn law_steps_commute_with_moving<T, F: Fn([T; 19]) -> [T; 19]>(
    input: Seq<T>,
    output: Seq<T>,
    other: Seq<T>,
    n: usize,
    zero: T,
    collide: F,
    steps: nat,
    dx: int,
    dy: int,
    dz: int,
)
    requires
        is_pow2(n as int),
        input.len() == 19 * cube(n as nat),
        has_one_outcome(collide),
        advanced(input, output, n, zero, collide, steps),
        advanced(moved(input, n, dx, dy, dz), other, n, zero, collide, steps),
    ensures
        other == moved(output, n, dx, dy, dz),
{
    let first = choose|states: Seq<Seq<T>>|
        states.len() == steps + 1 && #[trigger] are_states(
            input,
            output,
            n,
            zero,
            collide,
            states,
        );
    let second = choose|states: Seq<Seq<T>>|
        states.len() == steps + 1 && #[trigger] are_states(
            moved(input, n, dx, dy, dz),
            other,
            n,
            zero,
            collide,
            states,
        );
    lemma_chain_moves(first, second, n, zero, collide, steps as int, dx, dy, dz);
}

proof fn lemma_chain_moves<T, F: Fn([T; 19]) -> [T; 19]>(
    first: Seq<Seq<T>>,
    second: Seq<Seq<T>>,
    n: usize,
    zero: T,
    collide: F,
    k: int,
    dx: int,
    dy: int,
    dz: int,
)
    requires
        is_pow2(n as int),
        has_one_outcome(collide),
        0 <= k < first.len(),
        first.len() == second.len(),
        first[0].len() == 19 * cube(n as nat),
        second[0] == moved(first[0], n, dx, dy, dz),
        forall|j: int|
            0 <= j < first.len() - 1 ==> is_step(#[trigger] first[j], first[j + 1], n, zero, collide),
        forall|j: int|
            0 <= j < second.len() - 1 ==> is_step(
                #[trigger] second[j],
                second[j + 1],
                n,
                zero,
                collide,
            ),
    ensures
        first[k].len() == 19 * cube(n as nat),
        second[k] == moved(first[k], n, dx, dy, dz),
    decreases k,
{
    if k > 0 {
        lemma_chain_moves(first, second, n, zero, collide, k - 1, dx, dy, dz);
        assert(is_step(first[k - 1], first[k - 1 + 1], n, zero, collide));
        assert(is_step(second[k - 1], second[k - 1 + 1], n, zero, collide));
        law_step_commutes_with_moving(
            first[k - 1],
            first[k],
            second[k],
            n,
            zero,
            collide,
            dx,
            dy,
            dz,
        );
    }
}

} // verus!
