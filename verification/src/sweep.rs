//! Sweeps over values, over cells and over their surroundings, in order: what a sweep
//! makes of each of them is up to its caller.
use vstd::arithmetic::div_mod::lemma_div_denominator;
use vstd::arithmetic::power2::is_pow2;
use vstd::prelude::*;

use crate::field::{
    law_populations_are_a_lattice_apart, law_stencil_is_one_step_around, populations, resident,
    stencil, stencil_of, Stencil,
};
use crate::lattice::{
    cell_of, cube, law_cells_have_coordinates, law_coordinates_read_back, x_of, y_of, z_of,
};

verus! {

/// Whether `steps` leads from `start` to `end` by taking in the items one by one.
pub open spec fn are_steps<V, A, F: Fn(A, V) -> A>(
    items: Seq<V>,
    start: A,
    take_in: F,
    end: A,
    steps: Seq<A>,
) -> bool {
    &&& steps.len() == items.len() + 1
    &&& steps[0] == start
    &&& steps[items.len() as int] == end
    &&& forall|i: int|
        0 <= i < items.len() ==> call_ensures(take_in, (steps[i], #[trigger] items[i]), steps[i + 1])
}

/// Whether taking in the items one by one, in their order, can lead from `start` to
/// `end`.
pub open spec fn folds<V, A, F: Fn(A, V) -> A>(items: Seq<V>, start: A, take_in: F, end: A) -> bool {
    exists|steps: Seq<A>| #[trigger] are_steps(items, start, take_in, end, steps)
}

/// One more item leads one step further.
proof fn lemma_one_more<V, A, F: Fn(A, V) -> A>(
    items: Seq<V>,
    start: A,
    take_in: F,
    end: A,
    item: V,
    next: A,
)
    requires
        folds(items, start, take_in, end),
        call_ensures(take_in, (end, item), next),
    ensures
        folds(items.push(item), start, take_in, next),
{
    let steps = choose|steps: Seq<A>| #[trigger] are_steps(items, start, take_in, end, steps);
    let more = steps.push(next);
    let all = items.push(item);
    assert forall|i: int| 0 <= i < all.len() implies call_ensures(
        take_in,
        (more[i], #[trigger] all[i]),
        more[i + 1],
    ) by {
        if i < items.len() {
            assert(all[i] == items[i]);
        }
    }
    assert(are_steps(all, start, take_in, next, more));
}

/// Nothing to take in leads nowhere else.
proof fn lemma_nothing_yet<V, A, F: Fn(A, V) -> A>(start: A, take_in: F)
    ensures
        folds(Seq::<V>::empty(), start, take_in, start),
{
    assert(are_steps(Seq::<V>::empty(), start, take_in, start, seq![start]));
}

/// Where what is made of an item is always the same, a sweep has one outcome: the left
/// fold of the items.
pub proof fn law_sweep_is_a_left_fold<V, A, F: Fn(A, V) -> A>(
    items: Seq<V>,
    start: A,
    take_in: F,
    end: A,
    g: spec_fn(A, V) -> A,
)
    requires
        folds(items, start, take_in, end),
        forall|a: A, v: V, b: A| #[trigger] call_ensures(take_in, (a, v), b) ==> b == g(a, v),
    ensures
        end == items.fold_left(start, g),
    decreases items.len(),
{
    let steps = choose|steps: Seq<A>| #[trigger] are_steps(items, start, take_in, end, steps);
    if items.len() > 0 {
        let fewer = items.drop_last();
        let last = steps[items.len() - 1];
        assert forall|i: int| 0 <= i < fewer.len() implies call_ensures(
            take_in,
            (steps.drop_last()[i], #[trigger] fewer[i]),
            steps.drop_last()[i + 1],
        ) by {
            assert(fewer[i] == items[i]);
        }
        assert(are_steps(fewer, start, take_in, last, steps.drop_last()));
        assert(call_ensures(take_in, (last, items[items.len() - 1]), end));
        law_sweep_is_a_left_fold(fewer, start, take_in, last, g);
    }
}

/// Takes in the values of a slice, in their order.
pub fn fold<V: Copy, A, F: Fn(A, V) -> A>(items: &[V], start: A, take_in: F) -> (r: A)
    requires
        forall|a: A, v: V| #[trigger] call_requires(take_in, (a, v)),
    ensures
        folds(items@, start, take_in, r),
{
    let ghost first = start;
    let mut r = start;
    let mut i: usize = 0;
    proof {
        lemma_nothing_yet::<V, A, F>(first, take_in);
        assert(items@.take(0) =~= Seq::<V>::empty());
    }
    while i < items.len()
        invariant
            i <= items.len(),
            forall|a: A, v: V| #[trigger] call_requires(take_in, (a, v)),
            folds(items@.take(i as int), first, take_in, r),
        decreases items.len() - i,
    {
        let ghost before = r;
        let item = items[i];
        r = take_in(r, item);
        proof {
            lemma_one_more(items@.take(i as int), first, take_in, before, item, r);
            assert(items@.take(i as int).push(item) =~= items@.take(i + 1));
        }
        i += 1;
    }
    assert(items@.take(i as int) =~= items@);
    r
}

/// The values of two sequences side by side, as far as both go.
pub open spec fn pairs<V>(a: Seq<V>, b: Seq<V>) -> Seq<(V, V)> {
    Seq::new(
        if a.len() <= b.len() {
            a.len()
        } else {
            b.len()
        },
        |i: int| (a[i], b[i]),
    )
}

/// Takes in the values of two slices side by side, as far as both go.
pub fn fold_pairs<V: Copy, A, F: Fn(A, (V, V)) -> A>(a: &[V], b: &[V], start: A, take_in: F) -> (r: A)
    requires
        forall|s: A, p: (V, V)| #[trigger] call_requires(take_in, (s, p)),
    ensures
        folds(pairs(a@, b@), start, take_in, r),
{
    let ghost all = pairs(a@, b@);
    let ghost first = start;
    let mut r = start;
    let mut i: usize = 0;
    proof {
        lemma_nothing_yet::<(V, V), A, F>(first, take_in);
        assert(all.take(0) =~= Seq::<(V, V)>::empty());
    }
    while i < a.len() && i < b.len()
        invariant
            i <= a.len(),
            i <= b.len(),
            all == pairs(a@, b@),
            forall|s: A, p: (V, V)| #[trigger] call_requires(take_in, (s, p)),
            folds(all.take(i as int), first, take_in, r),
        decreases a.len() - i,
    {
        let ghost before = r;
        let pair = (a[i], b[i]);
        r = take_in(r, pair);
        proof {
            lemma_one_more(all.take(i as int), first, take_in, before, pair, r);
            assert(all.take(i as int).push(pair) =~= all.take(i + 1));
        }
        i += 1;
    }
    assert(all.take(i as int) =~= all);
    r
}

/// The surroundings of all cells, in their order.
pub open spec fn stencils<V>(field: Seq<V>, n: usize) -> Seq<Stencil<V>> {
    Seq::new(
        cube(n as nat),
        |cell: int|
            stencil_of(
                field,
                n,
                x_of(n, cell) as usize,
                y_of(n, cell) as usize,
                z_of(n, cell) as usize,
            ),
    )
}

/// Takes in the surroundings of all cells of a field, in the order of the cells.
pub fn fold_stencils<V: Copy, A, F: Fn(A, Stencil<V>) -> A>(
    field: &[V],
    n: usize,
    start: A,
    take_in: F,
) -> (r: A)
    requires
        cube(n as nat) <= field.len(),
        forall|s: A, v: Stencil<V>| #[trigger] call_requires(take_in, (s, v)),
    ensures
        folds(stencils(field@, n), start, take_in, r),
{
    let ghost all = stencils(field@, n);
    let ghost first = start;
    proof {
        assert(n * n <= n * n * n || n * n == 0) by (nonlinear_arith);
        lemma_nothing_yet::<Stencil<V>, A, F>(first, take_in);
        assert(all.take(0) =~= Seq::<Stencil<V>>::empty());
    }
    let cells: usize = n * n * n;
    let mut r = start;
    let mut cell: usize = 0;
    while cell < cells
        invariant
            cell <= cells,
            cells == cube(n as nat),
            cells <= field.len(),
            all == stencils(field@, n),
            forall|s: A, v: Stencil<V>| #[trigger] call_requires(take_in, (s, v)),
            folds(all.take(cell as int), first, take_in, r),
        decreases cells - cell,
    {
        proof {
            law_cells_have_coordinates(n, cell as int);
        }
        let ghost before = r;
        let around = stencil(field, n, cell / n / n, cell / n % n, cell % n);
        r = take_in(r, around);
        proof {
            lemma_one_more(all.take(cell as int), first, take_in, before, around, r);
            assert(all.take(cell as int).push(around) =~= all.take(cell + 1));
        }
        cell += 1;
    }
    assert(all.take(cell as int) =~= all);
    r
}

/// Whether `see` can make `v` of the populations of a cell.
pub open spec fn seen_as<T, V, F: Fn([T; 19]) -> V>(
    state: Seq<T>,
    cells: nat,
    cell: nat,
    see: F,
    v: V,
) -> bool {
    exists|f: [T; 19]|
        f@ == resident(state, cells, cell) && #[trigger] call_ensures(see, (f,), v)
}

/// Whether `values` are what `see` can make of the populations of each cell.
pub open spec fn are_seen<T, V, F: Fn([T; 19]) -> V>(
    state: Seq<T>,
    cells: nat,
    see: F,
    values: Seq<V>,
) -> bool {
    &&& values.len() == cells
    &&& forall|cell: int|
        0 <= cell < cells ==> seen_as(state, cells, cell as nat, see, #[trigger] values[cell])
}

/// Makes a field of a state: its value in each cell is what `see` makes of the
/// populations there.
pub fn map_cells<T: Copy, V, F: Fn([T; 19]) -> V>(state: &[T], cells: usize, see: F) -> (r: Vec<V>)
    requires
        19 * cells <= state.len(),
        forall|f: [T; 19]| #[trigger] call_requires(see, (f,)),
    ensures
        are_seen(state@, cells as nat, see, r@),
{
    let mut r: Vec<V> = Vec::new();
    while r.len() < cells
        invariant
            r.len() <= cells,
            19 * cells <= state.len(),
            forall|f: [T; 19]| #[trigger] call_requires(see, (f,)),
            forall|cell: int|
                0 <= cell < r.len() ==> seen_as(
                    state@,
                    cells as nat,
                    cell as nat,
                    see,
                    #[trigger] r@[cell],
                ),
        decreases cells - r.len(),
    {
        let ghost before = r@;
        let v = see(populations(state, cells, r.len()));
        r.push(v);
        proof {
            assert forall|cell: int| 0 <= cell < r.len() implies seen_as(
                state@,
                cells as nat,
                cell as nat,
                see,
                #[trigger] r@[cell],
            ) by {
                if cell < before.len() {
                    assert(r@[cell] == before[cell]);
                }
            }
        }
    }
    r
}

/// Whether `part` can make each value of a field of the value of the same cell.
pub open spec fn are_parts<V, U, F: Fn(V) -> U>(values: Seq<V>, part: F, field: Seq<U>) -> bool {
    &&& field.len() == values.len()
    &&& forall|i: int|
        0 <= i < values.len() ==> call_ensures(part, (#[trigger] values[i],), field[i])
}

/// Makes a field of a part of each value.
fn map_values<V: Copy, U, F: Fn(V) -> U>(values: &[V], part: F) -> (r: Vec<U>)
    requires
        forall|v: V| #[trigger] call_requires(part, (v,)),
    ensures
        are_parts(values@, part, r@),
{
    let mut r: Vec<U> = Vec::new();
    while r.len() < values.len()
        invariant
            r.len() <= values.len(),
            forall|v: V| #[trigger] call_requires(part, (v,)),
            forall|i: int|
                0 <= i < r.len() ==> call_ensures(part, (#[trigger] values@[i],), r@[i]),
        decreases values.len() - r.len(),
    {
        let ghost before = r@;
        let u = part(values[r.len()]);
        r.push(u);
        proof {
            assert forall|i: int| 0 <= i < r.len() implies call_ensures(
                part,
                (#[trigger] values@[i],),
                r@[i],
            ) by {
                if i < before.len() {
                    assert(r@[i] == before[i]);
                }
            }
        }
    }
    r
}

/// Whether sums over a state can come out as `sums` and `slopes`: the one takes in the
/// values of all cells in their order, the other the surroundings of all cells in the field
/// of a part of those same values.
pub open spec fn is_survey<T, V, U, A, B, F, G, H, K>(
    state: Seq<T>,
    n: usize,
    see: F,
    none: A,
    sum: G,
    part: H,
    flat: B,
    slope: K,
    sums: A,
    slopes: B,
) -> bool where
    F: Fn([T; 19]) -> V,
    G: Fn(A, V) -> A,
    H: Fn(V) -> U,
    K: Fn(B, Stencil<U>) -> B,
 {
    exists|values: Seq<V>, field: Seq<U>|
        #![trigger are_seen(state, cube(n as nat), see, values), are_parts(values, part, field)]
        are_seen(state, cube(n as nat), see, values) && are_parts(values, part, field) && folds(
            values,
            none,
            sum,
            sums,
        ) && folds(stencils(field, n), flat, slope, slopes)
}

/// Surveys a state: sums up what is seen in each cell, and what surrounds each cell in the
/// field of a part of it.
pub fn diagnostics<T: Copy, V: Copy, U: Copy, A, B, F, G, H, K>(
    state: &[T],
    n: usize,
    see: F,
    none: A,
    sum: G,
    part: H,
    flat: B,
    slope: K,
) -> (r: (A, B)) where
    F: Fn([T; 19]) -> V,
    G: Fn(A, V) -> A,
    H: Fn(V) -> U,
    K: Fn(B, Stencil<U>) -> B,

    requires
        19 * cube(n as nat) <= state.len(),
        forall|f: [T; 19]| #[trigger] call_requires(see, (f,)),
        forall|a: A, v: V| #[trigger] call_requires(sum, (a, v)),
        forall|v: V| #[trigger] call_requires(part, (v,)),
        forall|b: B, u: Stencil<U>| #[trigger] call_requires(slope, (b, u)),
    ensures
        is_survey(state@, n, see, none, sum, part, flat, slope, r.0, r.1),
{
    proof {
        assert(n * n <= n * n * n || n * n == 0) by (nonlinear_arith);
    }
    let cells: usize = n * n * n;
    let values = map_cells(state, cells, see);
    let sums = fold(values.as_slice(), none, sum);
    let field = map_values(values.as_slice(), part);
    let slopes = fold_stencils(field.as_slice(), n, flat, slope);
    assert(are_seen(state@, cube(n as nat), see, values@) && are_parts(values@, part, field@));
    (sums, slopes)
}

/// Values side by side are those of the same place, as many as the shorter side has.
pub proof fn law_pairs_are_of_the_same_place<V>(a: Seq<V>, b: Seq<V>, i: int)
    ensures
        pairs(a, b).len() <= a.len(),
        pairs(a, b).len() <= b.len(),
        pairs(a, b).len() == a.len() || pairs(a, b).len() == b.len(),
        0 <= i < pairs(a, b).len() ==> pairs(a, b)[i] == (a[i], b[i]),
{
}

/// The surroundings of all cells are as many as the cells, and those of the cell at
/// `(x, y, z)` stand at its own place: a plus is the field one step forward along an axis,
/// a minus one step back, around the lattice.
pub proof fn law_surroundings_are_one_step_around<V>(
    field: Seq<V>,
    n: usize,
    x: usize,
    y: usize,
    z: usize,
)
    requires
        is_pow2(n as int),
        x < n,
        y < n,
        z < n,
    ensures
        stencils(field, n).len() == n * n * n,
        0 <= (x * n + y) * n + z < n * n * n,
        ({
            let u = stencils(field, n)[(x * n + y) * n + z];
            let m = n as int;
            &&& u.x_plus == field[(((x + 1) % m) * n + y) * n + z]
            &&& u.x_minus == field[(((x - 1) % m) * n + y) * n + z]
            &&& u.y_plus == field[(x * n + (y + 1) % m) * n + z]
            &&& u.y_minus == field[(x * n + (y - 1) % m) * n + z]
            &&& u.z_plus == field[(x * n + y) * n + (z + 1) % m]
            &&& u.z_minus == field[(x * n + y) * n + (z - 1) % m]
        }),
{
    law_coordinates_read_back(n as nat, x as nat, y as nat, z as nat);
    let cell = cell_of(n as nat, x as nat, y as nat, z as nat);
    lemma_div_denominator(cell as int, n as int, n as int);
    law_stencil_is_one_step_around(field, n, x, y, z);
}

/// A field of a state has a value for each cell, made of the populations of that cell.
/// Gives the populations.
pub proof fn law_values_are_seen_in_their_cells<T, V, F: Fn([T; 19]) -> V>(
    state: Seq<T>,
    cells: nat,
    see: F,
    values: Seq<V>,
    cell: int,
) -> (f: [T; 19])
    requires
        are_seen(state, cells, see, values),
        0 <= cell < cells,
    ensures
        values.len() == cells,
        call_ensures(see, (f,), values[cell]),
        forall|q: int| 0 <= q < 19 ==> #[trigger] f@[q] == state[q * cells + cell],
{
    assert(seen_as(state, cells, cell as nat, see, values[cell]));
    let f = choose|f: [T; 19]|
        f@ == resident(state, cells, cell as nat) && #[trigger] call_ensures(
            see,
            (f,),
            values[cell],
        );
    assert forall|q: int| 0 <= q < 19 implies #[trigger] f@[q] == state[q * cells + cell] by {
        law_populations_are_a_lattice_apart(state, cells, cell as nat, q);
    }
    f
}

/// A survey of a state takes in, in the order of the cells, a value that is seen in each of
/// them; and, in the same order, what surrounds each of them in the field of a part of those
/// values, where a plus is one step forward along an axis and a minus one step back, around
/// the lattice. Gives the values, the field and the surroundings.
pub proof fn law_survey_takes_in_cells_and_neighbours<T, V, U, A, B, F, G, H, K>(
    state: Seq<T>,
    n: usize,
    see: F,
    none: A,
    sum: G,
    part: H,
    flat: B,
    slope: K,
    sums: A,
    slopes: B,
) -> (w: (Seq<V>, Seq<U>, Seq<Stencil<U>>)) where
    F: Fn([T; 19]) -> V,
    G: Fn(A, V) -> A,
    H: Fn(V) -> U,
    K: Fn(B, Stencil<U>) -> B,

    requires
        is_pow2(n as int),
        is_survey(state, n, see, none, sum, part, flat, slope, sums, slopes),
    ensures
        w.0.len() == n * n * n,
        w.1.len() == n * n * n,
        w.2.len() == n * n * n,
        are_seen(state, (n * n * n) as nat, see, w.0),
        forall|cell: int|
            0 <= cell < n * n * n ==> call_ensures(part, (#[trigger] w.0[cell],), w.1[cell]),
        forall|cell: int|
            0 <= cell < n * n * n ==> {
                let u = #[trigger] w.2[cell];
                let m = n as int;
                let (x, y, z) = (cell / (m * m), cell / m % m, cell % m);
                &&& u.x_plus == w.1[(((x + 1) % m) * n + y) * n + z]
                &&& u.x_minus == w.1[(((x - 1) % m) * n + y) * n + z]
                &&& u.y_plus == w.1[(x * n + (y + 1) % m) * n + z]
                &&& u.y_minus == w.1[(x * n + (y - 1) % m) * n + z]
                &&& u.z_plus == w.1[(x * n + y) * n + (z + 1) % m]
                &&& u.z_minus == w.1[(x * n + y) * n + (z - 1) % m]
            },
        folds(w.0, none, sum, sums),
        folds(w.2, flat, slope, slopes),
{
    let (values, field) = choose|values: Seq<V>, field: Seq<U>|
        #![trigger are_seen(state, cube(n as nat), see, values), are_parts(values, part, field)]
        are_seen(state, cube(n as nat), see, values) && are_parts(values, part, field) && folds(
            values,
            none,
            sum,
            sums,
        ) && folds(stencils(field, n), flat, slope, slopes);
    let items = stencils(field, n);
    assert forall|cell: int| 0 <= cell < n * n * n implies {
        let u = #[trigger] items[cell];
        let m = n as int;
        let (x, y, z) = (cell / (m * m), cell / m % m, cell % m);
        &&& u.x_plus == field[(((x + 1) % m) * n + y) * n + z]
        &&& u.x_minus == field[(((x - 1) % m) * n + y) * n + z]
        &&& u.y_plus == field[(x * n + (y + 1) % m) * n + z]
        &&& u.y_minus == field[(x * n + (y - 1) % m) * n + z]
        &&& u.z_plus == field[(x * n + y) * n + (z + 1) % m]
        &&& u.z_minus == field[(x * n + y) * n + (z - 1) % m]
    } by {
        law_cells_have_coordinates(n, cell);
        lemma_div_denominator(cell, n as int, n as int);
        law_surroundings_are_one_step_around(
            field,
            n,
            x_of(n, cell) as usize,
            y_of(n, cell) as usize,
            z_of(n, cell) as usize,
        );
    }
    (values, field, items)
}

/// On any edge, a survey takes in the values of all cells, and the surroundings of all cells
/// in the field of a part of them. Gives the values and the field.
pub proof fn law_survey_takes_in_values_and_surroundings<T, V, U, A, B, F, G, H, K>(
    state: Seq<T>,
    n: usize,
    see: F,
    none: A,
    sum: G,
    part: H,
    flat: B,
    slope: K,
    sums: A,
    slopes: B,
) -> (w: (Seq<V>, Seq<U>)) where
    F: Fn([T; 19]) -> V,
    G: Fn(A, V) -> A,
    H: Fn(V) -> U,
    K: Fn(B, Stencil<U>) -> B,

    requires
        is_survey(state, n, see, none, sum, part, flat, slope, sums, slopes),
    ensures
        w.0.len() == n * n * n,
        w.1.len() == n * n * n,
        are_seen(state, (n * n * n) as nat, see, w.0),
        forall|cell: int|
            0 <= cell < n * n * n ==> call_ensures(part, (#[trigger] w.0[cell],), w.1[cell]),
        folds(w.0, none, sum, sums),
        folds(stencils(w.1, n), flat, slope, slopes),
{
    choose|values: Seq<V>, field: Seq<U>|
        #![trigger are_seen(state, cube(n as nat), see, values), are_parts(values, part, field)]
        are_seen(state, cube(n as nat), see, values) && are_parts(values, part, field) && folds(
            values,
            none,
            sum,
            sums,
        ) && folds(stencils(field, n), flat, slope, slopes)
}

/// The surroundings of a cell stand at its own place, whatever the edge.
pub proof fn law_surroundings_stand_in_order<V>(
    field: Seq<V>,
    n: usize,
    x: usize,
    y: usize,
    z: usize,
)
    requires
        x < n,
        y < n,
        z < n,
    ensures
        stencils(field, n).len() == n * n * n,
        stencils(field, n)[(x * n + y) * n + z] == stencil_of(field, n, x, y, z),
{
    law_coordinates_read_back(n as nat, x as nat, y as nat, z as nat);
    let cell = cell_of(n as nat, x as nat, y as nat, z as nat);
    lemma_div_denominator(cell as int, n as int, n as int);
}

} // verus!
