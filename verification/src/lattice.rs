//! The D3Q19 lattice: directions, weights, the structure-of-arrays layout and
//! the periodic addressing of a cubic grid.
use vstd::arithmetic::div_mod::{
    lemma_div_denominator, lemma_fundamental_div_mod, lemma_fundamental_div_mod_converse,
    lemma_mod_add_multiples_vanish, lemma_mod_bound, lemma_multiply_divide_lt, lemma_small_mod,
};
use vstd::arithmetic::power2::{
    is_pow2, lemma2_to64, lemma2_to64_rest, lemma_pow2_adds, lemma_pow2_pos, lemma_pow2_unfold,
    pow2,
};
use vstd::prelude::*;

verus! {

/// Number of discrete velocities of the D3Q19 lattice.
pub const Q: usize = 19;

/// Floating-point operations that one lattice update stands for.
pub const ALGORITHMIC_FLOPS_PER_LUP: u64 = 467;

/// First component of each direction.
pub const CX: [i32; 19] = [0, 1, -1, 0, 0, 0, 0, 1, -1, 1, -1, 1, -1, 1, -1, 0, 0, 0, 0];

/// Second component of each direction.
pub const CY: [i32; 19] = [0, 0, 0, 1, -1, 0, 0, 1, 1, -1, -1, 0, 0, 0, 0, 1, -1, 1, -1];

/// Third component of each direction.
pub const CZ: [i32; 19] = [0, 0, 0, 0, 0, 1, -1, 0, 0, 0, 0, 1, 1, -1, -1, 1, 1, -1, -1];

pub open spec fn cx(q: int) -> int {
    CX[q] as int
}

pub open spec fn cy(q: int) -> int {
    CY[q] as int
}

pub open spec fn cz(q: int) -> int {
    CZ[q] as int
}

/// The number of cells of a cubic lattice of edge `n`.
pub open spec fn cube(n: nat) -> nat {
    n * n * n
}

/// The cell at `(x, y, z)`: `z` runs fastest.
pub open spec fn cell_of(n: nat, x: nat, y: nat, z: nat) -> nat {
    (x * n + y) * n + z
}

/// The first coordinate of a cell.
pub open spec fn x_of(n: usize, cell: int) -> int {
    cell / (n as int) / (n as int)
}

/// The second coordinate of a cell.
pub open spec fn y_of(n: usize, cell: int) -> int {
    cell / (n as int) % (n as int)
}

/// The third coordinate of a cell.
pub open spec fn z_of(n: usize, cell: int) -> int {
    cell % (n as int)
}

/// Where population `q` of a cell stands in a state of `cells` cells.
pub open spec fn slot_of(cells: nat, q: nat, cell: nat) -> nat {
    q * cells + cell
}

/// The machine index `x - c` of a grid of edge `n`, kept in range by masking with
/// `n - 1`.
pub open spec fn masked(x: usize, c: int, n: usize) -> usize {
    x.wrapping_add_signed((-c) as isize) & ((n - 1) as usize)
}

/// The periodic coordinate `x - c` on a ring of `n` places.
pub open spec fn ring(x: int, c: int, n: int) -> int {
    (x - c) % n
}

/// The cell from which direction `q` is pulled into `(x, y, z)`.
pub open spec fn pull_cell(n: usize, x: usize, y: usize, z: usize, q: int) -> nat {
    cell_of(
        n as nat,
        masked(x, cx(q), n) as nat,
        masked(y, cy(q), n) as nat,
        masked(z, cz(q), n) as nat,
    )
}

/// The denominator of the unit fraction that weighs direction `q`.
pub open spec fn weight_den(q: int) -> int {
    if q == 0 {
        3
    } else if q <= 6 {
        18
    } else {
        36
    }
}

/// The whole part of the base-two logarithm.
pub open spec fn log2(n: nat) -> nat
    decreases n,
{
    if n <= 1 {
        0
    } else {
        1 + log2(n / 2)
    }
}

/// The direction that points the other way.
pub open spec fn opposite(q: int) -> int {
    if q == 0 {
        0
    } else if q <= 6 {
        if q % 2 == 1 {
            q + 1
        } else {
            q - 1
        }
    } else if q <= 10 {
        17 - q
    } else if q <= 14 {
        25 - q
    } else {
        33 - q
    }
}

/// Whether `n` is a power of two.
pub fn is_power_of_two(n: usize) -> (r: bool)
    ensures
        r == is_pow2(n as int),
{
    proof {
        reveal(is_pow2);
        if n > 0 {
            lemma_single_bit(n);
        }
    }
    n != 0 && n & (n - 1) == 0
}

proof fn lemma_single_bit(n: usize)
    requires
        n > 0,
    ensures
        (n & (n - 1) as usize) == 0 <==> is_pow2(n as int),
    decreases n,
{
    reveal(is_pow2);
    let m = (n - 1) as usize;
    if n == 1 {
        assert(1usize & 0usize == 0) by (bit_vector);
    } else if n % 2 == 0 {
        let h = (n / 2) as usize;
        let k = (h - 1) as usize;
        lemma_single_bit(h);
        assert((n & m) == 0 <==> (h & k) == 0) by (bit_vector)
            requires
                n > 1,
                n % 2 == 0,
                m == n - 1,
                h == n / 2,
                k == h - 1,
        ;
    } else {
        assert((n & m) != 0) by (bit_vector)
            requires
                n > 1,
                n % 2 == 1,
                m == n - 1,
        ;
    }
}

/// The whole part of the base-two logarithm: of a power of two, its exponent.
pub fn exact_log2(n: usize) -> (r: u32)
    ensures
        r == log2(n as nat),
        n > 0 ==> pow2(r as nat) <= n && n < 2 * pow2(r as nat),
        r < 64,
    decreases n,
{
    proof {
        lemma2_to64_rest();
        lemma_log2_bound(n as nat, 64);
        if n > 0 {
            law_logarithm_is_the_largest_exponent(n as nat);
        }
    }
    if n <= 1 {
        0
    } else {
        1 + exact_log2(n / 2)
    }
}

proof fn lemma_log2_bound(n: nat, e: nat)
    requires
        n < pow2(e),
        e > 0,
    ensures
        log2(n) < e,
    decreases e,
{
    if n > 1 {
        if e == 1 {
            lemma2_to64();
        } else {
            lemma_pow2_unfold(e);
            lemma_log2_bound(n / 2, (e - 1) as nat);
        }
    }
}

/// The number of cells of a lattice of edge `n`, unless it is too large.
pub fn lattice_cells(n: usize) -> (r: Option<usize>)
    ensures
        match r {
            Some(c) => c == cube(n as nat) && c == n * n * n,
            None => cube(n as nat) > usize::MAX && n * n * n > usize::MAX,
        },
{
    match n.checked_mul(n) {
        Some(plane) => plane.checked_mul(n),
        None => {
            assert(n * n * n > usize::MAX) by (nonlinear_arith)
                requires
                    n * n > usize::MAX,
                    n >= 1,
            ;
            None
        },
    }
}

/// The number of values of a state of `cells` cells, unless it is too large.
pub fn state_len(cells: usize) -> (r: Option<usize>)
    ensures
        match r {
            Some(l) => l == 19 * cells,
            None => 19 * cells > usize::MAX,
        },
{
    Q.checked_mul(cells)
}

/// The denominator of the weight of direction `q`: the weight is one over it.
pub fn weight_denominator(q: usize) -> (r: u32)
    ensures
        r == weight_den(q as int),
        q == 0 ==> r == 3,
        1 <= q <= 6 ==> r == 18,
        q > 6 ==> r == 36,
{
    if q == 0 {
        3
    } else if q <= 6 {
        18
    } else {
        36
    }
}

proof fn lemma_cell_in_range(n: nat, x: nat, y: nat, z: nat)
    requires
        x < n,
        y < n,
        z < n,
    ensures
        cell_of(n, x, y, z) < cube(n),
        x * n + y < n * n,
        x * n <= n * n,
        (x * n + y) * n <= n * n * n,
{
    assert(x * n + y < n * n) by (nonlinear_arith)
        requires
            x + 1 <= n,
            y < n,
    ;
    assert(x * n <= n * n) by (nonlinear_arith)
        requires
            x <= n,
    ;
    assert((x * n + y) * n + z < n * n * n) by (nonlinear_arith)
        requires
            x * n + y + 1 <= n * n,
            z < n,
    ;
}

/// The index of the cell at `(x, y, z)`.
pub fn cell_index(n: usize, x: usize, y: usize, z: usize) -> (r: usize)
    requires
        x < n,
        y < n,
        z < n,
        cube(n as nat) <= usize::MAX,
    ensures
        r == cell_of(n as nat, x as nat, y as nat, z as nat),
        r == (x * n + y) * n + z,
        r < cube(n as nat),
{
    proof {
        lemma_cell_in_range(n as nat, x as nat, y as nat, z as nat);
        assert(n * n <= n * n * n) by (nonlinear_arith)
            requires
                n >= 1,
        ;
    }
    (x * n + y) * n + z
}

/// The position of population `q` of a cell in a state of `cells` cells.
pub fn population_index(cells: usize, q: usize, cell: usize) -> (r: usize)
    requires
        q < 19,
        cell < cells,
        19 * cells <= usize::MAX,
    ensures
        r == slot_of(cells as nat, q as nat, cell as nat),
        r == q * cells + cell,
        r < 19 * cells,
{
    assert(q * cells + cell < 19 * cells) by (nonlinear_arith)
        requires
            q + 1 <= 19,
            cell < cells,
    ;
    assert(q * cells <= 19 * cells) by (nonlinear_arith)
        requires
            q <= 19,
    ;
    q * cells + cell
}

/// The coordinate `x - c`, kept on a grid of edge `n`. On a power of two this is
/// the periodic coordinate.
pub fn wrap(x: usize, c: i32, n: usize) -> (r: usize)
    requires
        x < n,
        -1 <= c <= 1,
    ensures
        r == masked(x, c as int, n),
        r == x.wrapping_add_signed((-c) as isize) & ((n - 1) as usize),
        r < n,
        is_pow2(n as int) ==> r == ring(x as int, c as int, n as int),
        is_pow2(n as int) ==> r == (x - c) % (n as int),
{
    let mask: usize = n - 1;
    let moved = x.wrapping_add_signed(-(c as isize));
    proof {
        assert((moved & mask) <= mask) by (bit_vector);
        if is_pow2(n as int) {
            law_mask_is_periodic(x, c as int, n);
        }
    }
    moved & mask
}

/// Masking with `n - 1` is reduction modulo `n` when `n` is a power of two: the
/// neighbours of the first and the last coordinate are each other.
pub proof fn law_mask_is_periodic(x: usize, c: int, n: usize)
    requires
        x < n,
        -1 <= c <= 1,
        is_pow2(n as int),
    ensures
        masked(x, c, n) == ring(x as int, c, n as int),
{
    lemma_single_bit(n);
    let m = (n - 1) as usize;
    let v = x.wrapping_add_signed((-c) as isize);
    if x - c < 0 {
        assert(v == usize::MAX);
        assert(v <= !0usize) by (bit_vector);
        assert((!0usize & m) == m) by (bit_vector);
        lemma_mod_add_multiples_vanish(x - c, n as int);
        lemma_small_mod((n - 1) as nat, n as nat);
    } else if x - c == n {
        assert(v == n);
        lemma_mod_add_multiples_vanish(0, n as int);
        lemma_small_mod(0, n as nat);
    } else {
        assert(v == x - c);
        assert((v & m) == v) by (bit_vector)
            requires
                n > 0,
                m == n - 1,
                (n & m) == 0,
                v < n,
        ;
        lemma_small_mod(v as nat, n as nat);
    }
}

/// The cell from which population `q` streams into `(x, y, z)`.
pub fn pull_source(n: usize, x: usize, y: usize, z: usize, q: usize) -> (r: usize)
    requires
        x < n,
        y < n,
        z < n,
        q < 19,
        cube(n as nat) <= usize::MAX,
    ensures
        r == pull_cell(n, x, y, z, q as int),
        r < cube(n as nat),
        is_pow2(n as int) ==> r == (((x - CX@[q as int]) % (n as int)) * n + (y - CY@[q as int])
            % (n as int)) * n + (z - CZ@[q as int]) % (n as int),
{
    proof {
        if is_pow2(n as int) {
            law_pull_comes_from_upstream(n, x, y, z, q as int);
        }
    }
    let sx = wrap(x, CX[q], n);
    let sy = wrap(y, CY[q], n);
    let sz = wrap(z, CZ[q], n);
    cell_index(n, sx, sy, sz)
}

/// The positions in the state of the populations that stream into `(x, y, z)`,
/// by direction.
pub fn pull_slots(n: usize, x: usize, y: usize, z: usize) -> (r: Vec<usize>)
    requires
        x < n,
        y < n,
        z < n,
        19 * cube(n as nat) <= usize::MAX,
    ensures
        r.len() == 19,
        forall|q: int|
            0 <= q < 19 ==> #[trigger] r[q] == slot_of(
                cube(n as nat),
                q as nat,
                pull_cell(n, x, y, z, q),
            ) && r[q] < 19 * cube(n as nat),
{
    proof {
        lemma_cell_in_range(n as nat, x as nat, y as nat, z as nat);
        assert(n * n <= n * n * n) by (nonlinear_arith)
            requires
                n >= 1,
        ;
    }
    let cells: usize = n * n * n;
    let mut r: Vec<usize> = Vec::new();
    let mut q: usize = 0;
    while q < Q
        invariant
            q <= 19,
            x < n,
            y < n,
            z < n,
            19 * cube(n as nat) <= usize::MAX,
            cells == cube(n as nat),
            r.len() == q,
            forall|p: int|
                0 <= p < q ==> #[trigger] r[p] == slot_of(
                    cube(n as nat),
                    p as nat,
                    pull_cell(n, x, y, z, p),
                ) && r[p] < 19 * cube(n as nat),
        decreases 19 - q,
    {
        let source = pull_source(n, x, y, z, q);
        r.push(population_index(cells, q, source));
        q += 1;
    }
    r
}

/// The six cells that share a face with a cell.
#[derive(Clone, Copy, Debug, PartialEq, Eq, Structural)]
pub struct Neighbours {
    pub x_minus: usize,
    pub x_plus: usize,
    pub y_minus: usize,
    pub y_plus: usize,
    pub z_minus: usize,
    pub z_plus: usize,
}

/// The face neighbours of `(x, y, z)`, for central differences.
pub fn neighbours(n: usize, x: usize, y: usize, z: usize) -> (r: Neighbours)
    requires
        x < n,
        y < n,
        z < n,
        cube(n as nat) <= usize::MAX,
    ensures
        r.x_minus == cell_of(n as nat, masked(x, 1, n) as nat, y as nat, z as nat),
        r.x_plus == cell_of(n as nat, masked(x, -1, n) as nat, y as nat, z as nat),
        r.y_minus == cell_of(n as nat, x as nat, masked(y, 1, n) as nat, z as nat),
        r.y_plus == cell_of(n as nat, x as nat, masked(y, -1, n) as nat, z as nat),
        r.z_minus == cell_of(n as nat, x as nat, y as nat, masked(z, 1, n) as nat),
        r.z_plus == cell_of(n as nat, x as nat, y as nat, masked(z, -1, n) as nat),
        r.x_minus < cube(n as nat),
        r.x_plus < cube(n as nat),
        r.y_minus < cube(n as nat),
        r.y_plus < cube(n as nat),
        r.z_minus < cube(n as nat),
        r.z_plus < cube(n as nat),
        is_pow2(n as int) ==> {
            &&& r.x_minus == (((x - 1) % (n as int)) * n + y) * n + z
            &&& r.x_plus == (((x + 1) % (n as int)) * n + y) * n + z
            &&& r.y_minus == (x * n + (y - 1) % (n as int)) * n + z
            &&& r.y_plus == (x * n + (y + 1) % (n as int)) * n + z
            &&& r.z_minus == (x * n + y) * n + (z - 1) % (n as int)
            &&& r.z_plus == (x * n + y) * n + (z + 1) % (n as int)
        },
{
    proof {
        if is_pow2(n as int) {
            law_mask_takes_the_remainder(x, 1, n);
            law_mask_takes_the_remainder(x, -1, n);
            law_mask_takes_the_remainder(y, 1, n);
            law_mask_takes_the_remainder(y, -1, n);
            law_mask_takes_the_remainder(z, 1, n);
            law_mask_takes_the_remainder(z, -1, n);
        }
    }
    Neighbours {
        x_minus: cell_index(n, wrap(x, 1, n), y, z),
        x_plus: cell_index(n, wrap(x, -1, n), y, z),
        y_minus: cell_index(n, x, wrap(y, 1, n), z),
        y_plus: cell_index(n, x, wrap(y, -1, n), z),
        z_minus: cell_index(n, x, y, wrap(z, 1, n)),
        z_plus: cell_index(n, x, y, wrap(z, -1, n)),
    }
}

/// The coordinates of a cell can be read off its index.
pub proof fn law_coordinates_read_back(n: nat, x: nat, y: nat, z: nat)
    requires
        x < n,
        y < n,
        z < n,
    ensures
        cell_of(n, x, y, z) < cube(n),
        cell_of(n, x, y, z) / (n * n) == x,
        cell_of(n, x, y, z) / n % n == y,
        cell_of(n, x, y, z) % n == z,
{
    lemma_cell_in_range(n, x, y, z);
    let cell = cell_of(n, x, y, z) as int;
    lemma_fundamental_div_mod_converse(cell, n as int, (x * n + y) as int, z as int);
    lemma_fundamental_div_mod_converse((x * n + y) as int, n as int, x as int, y as int);
    assert(y * n + z < n * n) by (nonlinear_arith)
        requires
            y + 1 <= n,
            z < n,
    ;
    assert(cell == x * (n * n) + (y * n + z)) by (nonlinear_arith)
        requires
            cell == (x * n + y) * n + z,
    ;
    lemma_fundamental_div_mod_converse(cell, (n * n) as int, x as int, (y * n + z) as int);
}

/// Every cell has coordinates, and they are those that its index gives.
pub proof fn law_cells_have_coordinates(n: usize, cell: int)
    requires
        0 <= cell < cube(n as nat),
    ensures
        0 <= x_of(n, cell) < n,
        0 <= y_of(n, cell) < n,
        0 <= z_of(n, cell) < n,
        cell == cell_of(
            n as nat,
            x_of(n, cell) as nat,
            y_of(n, cell) as nat,
            z_of(n, cell) as nat,
        ),
{
    let m = n as int;
    assert(m > 0) by (nonlinear_arith)
        requires
            m >= 0,
            0 < m * m * m,
    ;
    lemma_fundamental_div_mod(cell, m);
    lemma_fundamental_div_mod(cell / m, m);
    lemma_mod_bound(cell, m);
    lemma_mod_bound(cell / m, m);
    lemma_div_denominator(cell, m, m);
    assert(m * m > 0) by (nonlinear_arith)
        requires
            m > 0,
    ;
    assert(m * m * m == (m * m) * m) by (nonlinear_arith);
    lemma_multiply_divide_lt(cell, m * m, m);
    assert(m * (cell / m) == (cell / m) * m) by (nonlinear_arith);
    assert(m * (cell / m / m) == (cell / m / m) * m) by (nonlinear_arith);
}

/// The state holds each population of each cell at a position of its own, and
/// nothing else.
pub proof fn law_layout_is_exact(cells: nat, q: nat, cell: nat, slot: nat)
    requires
        q < 19,
        cell < cells,
        slot < 19 * cells,
    ensures
        slot_of(cells, q, cell) < 19 * cells,
        slot_of(cells, q, cell) / cells == q,
        slot_of(cells, q, cell) % cells == cell,
        slot / cells < 19,
        slot % cells < cells,
        slot_of(cells, slot / cells, slot % cells) == slot,
{
    assert(q * cells + cell < 19 * cells) by (nonlinear_arith)
        requires
            q + 1 <= 19,
            cell < cells,
    ;
    lemma_fundamental_div_mod_converse(
        slot_of(cells, q, cell) as int,
        cells as int,
        q as int,
        cell as int,
    );
    vstd::arithmetic::div_mod::lemma_fundamental_div_mod(slot as int, cells as int);
    let k = slot / cells;
    assert(slot == k * cells + slot % cells) by (nonlinear_arith)
        requires
            slot == cells * k + slot % cells,
    ;
    assert(k < 19) by (nonlinear_arith)
        requires
            k * cells <= slot,
            slot < 19 * cells,
    ;
}

proof fn lemma_ring_back(x: int, c: int, n: int)
    requires
        0 <= x < n,
        -1 <= c <= 1,
    ensures
        0 <= ring(x, c, n) < n,
        ring(ring(x, c, n), -c, n) == x,
{
    if x - c < 0 {
        lemma_mod_add_multiples_vanish(x - c, n);
        lemma_small_mod((n - 1) as nat, n as nat);
        lemma_mod_add_multiples_vanish(0, n);
        lemma_small_mod(0, n as nat);
    } else if x - c == n {
        lemma_mod_add_multiples_vanish(0, n);
        lemma_small_mod(0, n as nat);
        lemma_mod_add_multiples_vanish(-1, n);
        lemma_small_mod((n - 1) as nat, n as nat);
    } else {
        lemma_small_mod((x - c) as nat, n as nat);
        lemma_small_mod(x as nat, n as nat);
    }
}

/// Opposite directions have opposite components, and turning twice changes
/// nothing.
pub proof fn law_opposite_direction(q: int)
    requires
        0 <= q < 19,
    ensures
        0 <= opposite(q) < 19,
        opposite(opposite(q)) == q,
        cx(opposite(q)) == -cx(q),
        cy(opposite(q)) == -cy(q),
        cz(opposite(q)) == -cz(q),
{
}

/// Streaming loses and duplicates nothing: what direction `q` pulls from a cell,
/// the opposite direction pulls back.
pub proof fn law_pull_is_undone(n: usize, x: usize, y: usize, z: usize, q: int)
    requires
        x < n,
        y < n,
        z < n,
        0 <= q < 19,
        is_pow2(n as int),
    ensures
        masked(x, cx(q), n) < n,
        masked(y, cy(q), n) < n,
        masked(z, cz(q), n) < n,
        pull_cell(
            n,
            masked(x, cx(q), n),
            masked(y, cy(q), n),
            masked(z, cz(q), n),
            opposite(q),
        ) == cell_of(n as nat, x as nat, y as nat, z as nat),
{
    law_opposite_direction(q);
    let (a, b, c) = (cx(q), cy(q), cz(q));
    law_mask_is_periodic(x, a, n);
    law_mask_is_periodic(y, b, n);
    law_mask_is_periodic(z, c, n);
    lemma_ring_back(x as int, a, n as int);
    lemma_ring_back(y as int, b, n as int);
    lemma_ring_back(z as int, c, n as int);
    law_mask_is_periodic(masked(x, a, n), -a, n);
    law_mask_is_periodic(masked(y, b, n), -b, n);
    law_mask_is_periodic(masked(z, c, n), -c, n);
}

/// The rest direction, the six faces and the twelve edges of a cube: every vector
/// of components -1, 0 and 1 with at most two of them nonzero is one direction.
pub proof fn law_directions_are_complete(a: int, b: int, c: int)
    requires
        -1 <= a <= 1,
        -1 <= b <= 1,
        -1 <= c <= 1,
        a == 0 || b == 0 || c == 0,
    ensures
        exists|q: int| 0 <= q < 19 && #[trigger] cx(q) == a && cy(q) == b && cz(q) == c,
{
    let q = direction_with(a, b, c);
    assert(0 <= q < 19 && cx(q) == a && cy(q) == b && cz(q) == c);
}

/// No direction occurs twice, and each has a component that is zero.
pub proof fn law_directions_are_distinct(p: int, q: int)
    requires
        0 <= p < 19,
        0 <= q < 19,
    ensures
        -1 <= cx(q) <= 1,
        -1 <= cy(q) <= 1,
        -1 <= cz(q) <= 1,
        cx(q) == 0 || cy(q) == 0 || cz(q) == 0,
        cx(p) == cx(q) && cy(p) == cy(q) && cz(p) == cz(q) ==> p == q,
{
    lemma_direction_code(p);
    lemma_direction_code(q);
}

/// The direction that has the components `a`, `b` and `c`.
spec fn direction_with(a: int, b: int, c: int) -> int {
    if c == 0 && b == 0 {
        if a == 0 { 0 } else if a == 1 { 1 } else { 2 }
    } else if c == 0 && a == 0 {
        if b == 1 { 3 } else { 4 }
    } else if a == 0 && b == 0 {
        if c == 1 { 5 } else { 6 }
    } else if c == 0 {
        7 + (1 - b) + (1 - a) / 2
    } else if b == 0 {
        11 + (1 - c) + (1 - a) / 2
    } else {
        15 + (1 - c) + (1 - b) / 2
    }
}

proof fn lemma_direction_code(q: int)
    requires
        0 <= q < 19,
    ensures
        -1 <= cx(q) <= 1,
        -1 <= cy(q) <= 1,
        -1 <= cz(q) <= 1,
        cx(q) == 0 || cy(q) == 0 || cz(q) == 0,
        direction_with(cx(q), cy(q), cz(q)) == q,
{
}

/// The weight of direction `q` in 36ths.
pub open spec fn weight36(q: int) -> int {
    36int / weight_den(q)
}

/// The sum of `f` over the numbers below `k`.
pub open spec fn sum_below(f: spec_fn(int) -> int, k: nat) -> int
    decreases k,
{
    if k == 0 {
        0
    } else {
        sum_below(f, (k - 1) as nat) + f(k - 1)
    }
}

/// The weights sum to one, have no mean velocity, and have the isotropic second
/// moment one third.
#[verifier::spinoff_prover]
#[verifier::rlimit(50)]
pub proof fn law_weights_are_isotropic()
    ensures
        sum_below(|q: int| weight36(q), 19) == 36,
        sum_below(|q: int| weight36(q) * cx(q), 19) == 0,
        sum_below(|q: int| weight36(q) * cy(q), 19) == 0,
        sum_below(|q: int| weight36(q) * cz(q), 19) == 0,
        sum_below(|q: int| weight36(q) * cx(q) * cx(q), 19) == 12,
        sum_below(|q: int| weight36(q) * cy(q) * cy(q), 19) == 12,
        sum_below(|q: int| weight36(q) * cz(q) * cz(q), 19) == 12,
        sum_below(|q: int| weight36(q) * cx(q) * cy(q), 19) == 0,
        sum_below(|q: int| weight36(q) * cy(q) * cz(q), 19) == 0,
        sum_below(|q: int| weight36(q) * cz(q) * cx(q), 19) == 0,
{
    assert forall|q: int| 0 <= q < 19 implies {
        &&& weight36(q) * #[trigger] cx(q) == signed(weight36(q), cx(q))
        &&& weight36(q) * cy(q) == signed(weight36(q), cy(q))
        &&& weight36(q) * cz(q) == signed(weight36(q), cz(q))
        &&& weight36(q) * cx(q) * cx(q) == signed(signed(weight36(q), cx(q)), cx(q))
        &&& weight36(q) * cy(q) * cy(q) == signed(signed(weight36(q), cy(q)), cy(q))
        &&& weight36(q) * cz(q) * cz(q) == signed(signed(weight36(q), cz(q)), cz(q))
        &&& weight36(q) * cx(q) * cy(q) == signed(signed(weight36(q), cx(q)), cy(q))
        &&& weight36(q) * cy(q) * cz(q) == signed(signed(weight36(q), cy(q)), cz(q))
        &&& weight36(q) * cz(q) * cx(q) == signed(signed(weight36(q), cz(q)), cx(q))
    } by {
        lemma_direction_code(q);
        let w = weight36(q);
        lemma_signed(w, cx(q));
        lemma_signed(w, cy(q));
        lemma_signed(w, cz(q));
        lemma_signed(w * cx(q), cx(q));
        lemma_signed(w * cy(q), cy(q));
        lemma_signed(w * cz(q), cz(q));
        lemma_signed(w * cx(q), cy(q));
        lemma_signed(w * cy(q), cz(q));
        lemma_signed(w * cz(q), cx(q));
    }
    reveal_with_fuel(sum_below, 20);
}

/// `w` with the sign of `c`, for a `c` of magnitude at most one.
spec fn signed(w: int, c: int) -> int {
    if c == 0 {
        0
    } else if c > 0 {
        w
    } else {
        -w
    }
}

proof fn lemma_signed(w: int, c: int)
    by (nonlinear_arith)
    requires
        -1 <= c <= 1,
    ensures
        w * c == signed(w, c),
{
}

pub proof fn lemma_pow2_of_log2(n: nat)
    requires
        is_pow2(n as int),
    ensures
        pow2(log2(n)) == n,
    decreases n,
{
    reveal(is_pow2);
    lemma2_to64();
    if n > 1 {
        lemma_pow2_of_log2(n / 2);
        lemma_pow2_unfold(log2(n));
    }
}

/// On a lattice whose edge is a power of two, shifts by the logarithm of the edge
/// and of the plane, and the mask of the edge, decode a cell into its coordinates.
pub proof fn law_shifts_decode_cells(n: nat, x: nat, y: nat, z: nat)
    requires
        x < n,
        y < n,
        z < n,
        is_pow2(n as int),
    ensures
        pow2(log2(n)) == n,
        pow2(2 * log2(n)) == n * n,
        pow2(3 * log2(n)) == cube(n),
        cell_of(n, x, y, z) / pow2(2 * log2(n)) == x,
        cell_of(n, x, y, z) / pow2(log2(n)) % pow2(log2(n)) == y,
        cell_of(n, x, y, z) % pow2(log2(n)) == z,
{
    let e = log2(n);
    lemma_pow2_of_log2(n);
    lemma_pow2_adds(e, e);
    lemma_pow2_adds(2 * e, e);
    law_coordinates_read_back(n, x, y, z);
}

/// The logarithm of a power of two is its exponent.
pub proof fn law_logarithm_undoes_power(e: nat)
    ensures
        log2(pow2(e)) == e,
        is_pow2(pow2(e) as int),
    decreases e,
{
    reveal(is_pow2);
    lemma2_to64();
    if e > 0 {
        lemma_pow2_unfold(e);
        law_logarithm_undoes_power((e - 1) as nat);
        lemma_pow2_pos((e - 1) as nat);
    }
}

/// The logarithm of a number is the exponent of the largest power of two in it.
pub proof fn law_logarithm_is_the_largest_exponent(n: nat)
    requires
        n > 0,
    ensures
        pow2(log2(n)) <= n,
        n < 2 * pow2(log2(n)),
    decreases n,
{
    lemma2_to64();
    if n > 1 {
        law_logarithm_is_the_largest_exponent(n / 2);
        lemma_pow2_unfold(log2(n));
    }
}

/// Masking takes the remainder: on an edge that is a power of two, `x - c` is kept on the
/// lattice by taking it modulo the edge.
pub proof fn law_mask_takes_the_remainder(x: usize, c: int, n: usize)
    requires
        x < n,
        -1 <= c <= 1,
        is_pow2(n as int),
    ensures
        masked(x, c, n) == (x - c) % (n as int),
        c == 1 && x > 0 ==> masked(x, c, n) == x - 1,
        c == 1 && x == 0 ==> masked(x, c, n) == n - 1,
        c == -1 && x + 1 < n ==> masked(x, c, n) == x + 1,
        c == -1 && x + 1 == n ==> masked(x, c, n) == 0,
        c == 0 ==> masked(x, c, n) == x,
{
    law_mask_is_periodic(x, c, n);
    if x - c < 0 {
        lemma_mod_add_multiples_vanish(x - c, n as int);
        lemma_small_mod((n - 1) as nat, n as nat);
    } else if x - c == n {
        lemma_mod_add_multiples_vanish(0, n as int);
        lemma_small_mod(0, n as nat);
    } else {
        lemma_small_mod((x - c) as nat, n as nat);
    }
}

/// What streams into a cell in direction `q` comes from the cell that lies one step against
/// the direction, around the lattice.
pub proof fn law_pull_comes_from_upstream(n: usize, x: usize, y: usize, z: usize, q: int)
    requires
        x < n,
        y < n,
        z < n,
        0 <= q < 19,
        is_pow2(n as int),
    ensures
        pull_cell(n, x, y, z, q) == (((x - CX@[q]) % (n as int)) * n + (y - CY@[q]) % (n as int))
            * n + (z - CZ@[q]) % (n as int),
        pull_cell(n, x, y, z, q) / ((n * n) as nat) == (x - CX@[q]) % (n as int),
        pull_cell(n, x, y, z, q) / (n as nat) % (n as nat) == (y - CY@[q]) % (n as int),
        pull_cell(n, x, y, z, q) % (n as nat) == (z - CZ@[q]) % (n as int),
{
    law_directions_are_distinct(q, q);
    law_mask_takes_the_remainder(x, cx(q), n);
    law_mask_takes_the_remainder(y, cy(q), n);
    law_mask_takes_the_remainder(z, cz(q), n);
    law_pull_is_undone(n, x, y, z, q);
    law_coordinates_read_back(
        n as nat,
        masked(x, cx(q), n) as nat,
        masked(y, cy(q), n) as nat,
        masked(z, cz(q), n) as nat,
    );
}

/// The directions in their order: rest, the faces along x, y and z, and the edges in the
/// planes xy, xz and yz, forward before backward.
pub proof fn law_directions_have_their_order()
    ensures
        CX@.map_values(|c: i32| c as int) =~= seq![0int, 1, -1, 0, 0, 0, 0, 1, -1, 1, -1, 1, -1, 1, -1, 0, 0, 0, 0],
        CY@.map_values(|c: i32| c as int) =~= seq![0int, 0, 0, 1, -1, 0, 0, 1, 1, -1, -1, 0, 0, 0, 0, 1, -1, 1, -1],
        CZ@.map_values(|c: i32| c as int) =~= seq![0int, 0, 0, 0, 0, 1, -1, 0, 0, 0, 0, 1, 1, -1, -1, 1, 1, -1, -1],
{
}

/// The weight of a direction goes by its length alone: a third at rest, an eighteenth along
/// a face and a thirty-sixth along an edge.
pub proof fn law_weights_go_by_length(q: int)
    requires
        0 <= q < 19,
    ensures
        ({
            let length = CX@[q] * CX@[q] + CY@[q] * CY@[q] + CZ@[q] * CZ@[q];
            &&& 0 <= length <= 2
            &&& length == 0 ==> weight_den(q) == 3
            &&& length == 1 ==> weight_den(q) == 18
            &&& length == 2 ==> weight_den(q) == 36
        }),
{
    lemma_direction_code(q);
    lemma_signed(cx(q), cx(q));
    lemma_signed(cy(q), cy(q));
    lemma_signed(cz(q), cz(q));
}

/// On any edge, what streams into a cell comes from the coordinates `x - c`, wrapped around
/// the machine word and masked with the edge less one.
pub proof fn law_pull_masks_each_coordinate(n: usize, x: usize, y: usize, z: usize, q: int)
    requires
        0 <= q < 19,
    ensures
        pull_cell(n, x, y, z, q) == ((x.wrapping_add_signed((-CX@[q]) as isize) & ((n
            - 1) as usize)) * n + (y.wrapping_add_signed((-CY@[q]) as isize) & ((n
            - 1) as usize))) * n + (z.wrapping_add_signed((-CZ@[q]) as isize) & ((n
            - 1) as usize)),
{
}

} // verus!
