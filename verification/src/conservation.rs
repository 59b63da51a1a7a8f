//! What a step keeps over the whole lattice.
use vstd::arithmetic::div_mod::lemma_div_denominator;
use vstd::arithmetic::power2::is_pow2;
use vstd::prelude::*;

use crate::field::{pulled, resident, stepped};
use crate::lattice::{
    cube, cx, cy, cz, law_cells_have_coordinates, law_coordinates_read_back,
    law_opposite_direction, law_pull_is_undone, masked, opposite, pull_cell, slot_of, sum_below,
    x_of, y_of, z_of,
};

verus! {

/// The sum of a measure over the populations of one cell.
pub open spec fn cell_total<T>(values: Seq<T>, measure: spec_fn(int, T) -> int) -> int {
    sum_below(|q: int| measure(q, values[q]), 19)
}

/// The sum of a measure over the populations of all cells of a state.
pub open spec fn lattice_total<T>(
    state: Seq<T>,
    cells: nat,
    measure: spec_fn(int, T) -> int,
) -> int {
    sum_below(|cell: int| cell_total(resident(state, cells, cell as nat), measure), cells)
}

proof fn lemma_sum_same(f: spec_fn(int) -> int, g: spec_fn(int) -> int, k: nat)
    requires
        forall|i: int| 0 <= i < k ==> #[trigger] f(i) == g(i),
    ensures
        sum_below(f, k) == sum_below(g, k),
    decreases k,
{
    if k > 0 {
        lemma_sum_same(f, g, (k - 1) as nat);
        assert(f(k - 1) == g(k - 1));
    }
}

proof fn lemma_sum_differs_at(f: spec_fn(int) -> int, g: spec_fn(int) -> int, j: int, k: nat)
    requires
        0 <= j < k,
        forall|i: int| 0 <= i < k && i != j ==> #[trigger] f(i) == g(i),
    ensures
        sum_below(f, k) - f(j) == sum_below(g, k) - g(j),
    decreases k,
{
    if j == k - 1 {
        lemma_sum_same(f, g, (k - 1) as nat);
    } else {
        lemma_sum_differs_at(f, g, j, (k - 1) as nat);
        assert(f(k - 1) == g(k - 1));
    }
}

proof fn lemma_sum_adds(f: spec_fn(int) -> int, g: spec_fn(int) -> int, k: nat)
    ensures
        sum_below(|i: int| f(i) + g(i), k) == sum_below(f, k) + sum_below(g, k),
    decreases k,
{
    if k > 0 {
        lemma_sum_adds(f, g, (k - 1) as nat);
    }
}

/// A double sum can be taken in either order.
proof fn lemma_sum_exchanged(g: spec_fn(int, int) -> int, k: nat, m: nat)
    ensures
        sum_below(|i: int| sum_below(|j: int| g(i, j), m), k) == sum_below(
            |j: int| sum_below(|i: int| g(i, j), k),
            m,
        ),
    decreases k,
{
    let rows = |i: int| sum_below(|j: int| g(i, j), m);
    let columns = |j: int| sum_below(|i: int| g(i, j), k);
    if k == 0 {
        lemma_sum_same(columns, |j: int| 0, m);
        lemma_sum_of_zeros(m);
    } else {
        let last = (k - 1) as nat;
        let shorter = |j: int| sum_below(|i: int| g(i, j), last);
        let row = |j: int| g(last as int, j);
        lemma_sum_exchanged(g, last, m);
        lemma_sum_adds(shorter, row, m);
        lemma_sum_same(columns, |j: int| shorter(j) + row(j), m);
    }
}

proof fn lemma_sum_of_zeros(k: nat)
    ensures
        sum_below(|i: int| 0, k) == 0,
    decreases k,
{
    if k > 0 {
        lemma_sum_of_zeros((k - 1) as nat);
    }
}

/// A sum does not depend on the order of its terms: `p` takes them in another order,
/// and `r` undoes `p`.
proof fn lemma_sum_permuted(
    g: spec_fn(int) -> int,
    p: spec_fn(int) -> int,
    r: spec_fn(int) -> int,
    k: nat,
)
    requires
        forall|i: int| 0 <= i < k ==> 0 <= #[trigger] p(i) < k && r(p(i)) == i,
        forall|i: int| 0 <= i < k ==> 0 <= #[trigger] r(i) < k && p(r(i)) == i,
    ensures
        sum_below(|i: int| g(p(i)), k) == sum_below(g, k),
    decreases k,
{
    if k > 0 {
        let last = (k - 1) as nat;
        let j = r(last as int);
        let p2 = |i: int| if i == j { p(last as int) } else { p(i) };
        let r2 = |i: int| if i == p(last as int) { j } else { r(i) };
        assert forall|i: int| 0 <= i < last implies 0 <= #[trigger] p2(i) < last && r2(p2(i))
            == i by {
            assert(0 <= p(i) < k && r(p(i)) == i);
            assert(0 <= p(last as int) < k && r(p(last as int)) == last);
        }
        assert forall|i: int| 0 <= i < last implies 0 <= #[trigger] r2(i) < last && p2(r2(i))
            == i by {
            assert(0 <= r(i) < k && p(r(i)) == i);
            assert(0 <= p(last as int) < k && r(p(last as int)) == last);
        }
        lemma_sum_permuted(g, p2, r2, last);
        let through = |i: int| g(p(i));
        let through2 = |i: int| g(p2(i));
        if j == last {
            lemma_sum_same(through, through2, last);
        } else {
            lemma_sum_differs_at(through, through2, j, last);
        }
    }
}

/// The cell from which direction `q` is pulled into a cell.
spec fn source(n: usize, cell: int, q: int) -> int {
    pull_cell(
        n,
        x_of(n, cell) as usize,
        y_of(n, cell) as usize,
        z_of(n, cell) as usize,
        q,
    ) as int
}

proof fn lemma_source_is_undone(n: usize, cell: int, q: int)
    requires
        is_pow2(n as int),
        0 <= cell < cube(n as nat),
        0 <= q < 19,
    ensures
        0 <= source(n, cell, q) < cube(n as nat),
        source(n, source(n, cell, q), opposite(q)) == cell,
{
    law_cells_have_coordinates(n, cell);
    let x = x_of(n, cell) as usize;
    let y = y_of(n, cell) as usize;
    let z = z_of(n, cell) as usize;
    law_pull_is_undone(n, x, y, z, q);
    let (a, b, c) = (masked(x, cx(q), n), masked(y, cy(q), n), masked(z, cz(q), n));
    law_coordinates_read_back(n as nat, a as nat, b as nat, c as nat);
    lemma_div_denominator(source(n, cell, q), n as int, n as int);
}

/// A step keeps over the lattice whatever its collision keeps in every cell. The measure
/// may depend on the direction of a population, so this holds of mass as it does of
/// each component of momentum.
pub proof fn law_kept_in_cells_is_kept_over_lattice<T, F: Fn([T; 19]) -> [T; 19]>(
    input: Seq<T>,
    output: Seq<T>,
    n: usize,
    collide: F,
    measure: spec_fn(int, T) -> int,
)
    requires
        is_pow2(n as int),
        forall|x: usize, y: usize, z: usize|
            x < n && y < n && z < n ==> #[trigger] stepped(input, output, n, collide, x, y, z),
        forall|f: [T; 19], v: [T; 19]| #[trigger]
            call_ensures(collide, (f,), v) ==> cell_total(v@, measure) == cell_total(
                f@,
                measure,
            ),
    ensures
        lattice_total(output, cube(n as nat), measure) == lattice_total(
            input,
            cube(n as nat),
            measure,
        ),
{
    let cells = cube(n as nat);
    let g = |q: int, cell: int| measure(q, input[slot_of(cells, q as nat, cell as nat) as int]);
    let moved = |q: int, cell: int| g(q, source(n, cell, q));
    let by_cell = |cell: int| sum_below(|q: int| moved(q, cell), 19);
    let after = |cell: int| cell_total(resident(output, cells, cell as nat), measure);
    assert forall|cell: int| 0 <= cell < cells implies #[trigger] after(cell) == by_cell(cell) by {
        law_cells_have_coordinates(n, cell);
        let x = x_of(n, cell) as usize;
        let y = y_of(n, cell) as usize;
        let z = z_of(n, cell) as usize;
        assert(stepped(input, output, n, collide, x, y, z));
        let from = pulled(input, n, x, y, z);
        assert(after(cell) == cell_total(from, measure));
        lemma_sum_same(|q: int| measure(q, from[q]), |q: int| moved(q, cell), 19);
    }
    lemma_sum_same(after, by_cell, cells);
    let moved_by_cell = |cell: int, q: int| moved(q, cell);
    lemma_sum_exchanged(moved_by_cell, cells, 19);
    assert forall|cell: int| 0 <= cell < cells implies #[trigger] by_cell(cell) == sum_below(
        |q: int| moved_by_cell(cell, q),
        19,
    ) by {
        lemma_sum_same(|q: int| moved(q, cell), |q: int| moved_by_cell(cell, q), 19);
    }
    lemma_sum_same(by_cell, |cell: int| sum_below(|q: int| moved_by_cell(cell, q), 19), cells);
    let through = |q: int| sum_below(|cell: int| moved_by_cell(cell, q), cells);
    let unmoved = |cell: int, q: int| g(q, cell);
    let held = |q: int| sum_below(|cell: int| unmoved(cell, q), cells);
    assert forall|q: int| 0 <= q < 19 implies #[trigger] through(q) == held(q) by {
        let row = |cell: int| g(q, cell);
        let p = |cell: int| source(n, cell, q);
        let r = |cell: int| source(n, cell, opposite(q));
        law_opposite_direction(q);
        assert forall|i: int| 0 <= i < cells implies 0 <= #[trigger] p(i) < cells && r(p(i))
            == i by {
            lemma_source_is_undone(n, i, q);
        }
        assert forall|i: int| 0 <= i < cells implies 0 <= #[trigger] r(i) < cells && p(r(i))
            == i by {
            lemma_source_is_undone(n, i, opposite(q));
        }
        lemma_sum_permuted(row, p, r, cells);
        lemma_sum_same(|cell: int| moved_by_cell(cell, q), |cell: int| row(p(cell)), cells);
        lemma_sum_same(|cell: int| unmoved(cell, q), row, cells);
    }
    lemma_sum_same(through, held, 19);
    lemma_sum_exchanged(unmoved, cells, 19);
    let before = |cell: int| cell_total(resident(input, cells, cell as nat), measure);
    assert forall|cell: int| 0 <= cell < cells implies #[trigger] before(cell) == sum_below(
        |q: int| unmoved(cell, q),
        19,
    ) by {
        let values = resident(input, cells, cell as nat);
        lemma_sum_same(|q: int| measure(q, values[q]), |q: int| unmoved(cell, q), 19);
    }
    lemma_sum_same(before, |cell: int| sum_below(|q: int| unmoved(cell, q), 19), cells);
}

} // verus!
