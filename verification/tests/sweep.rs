use cuda_lbm::field::Stencil;
use cuda_lbm::lattice::cell_index;
use cuda_lbm::sweep::{diagnostics, fold, fold_pairs, fold_stencils, map_cells};

#[test]
fn values_are_taken_in_from_left_to_right() {
    let items = [3u64, 1, 4, 1, 5];
    assert_eq!(fold(&items, 7u64, |a, v| 10 * a + v), 731415);
    let none: [u64; 0] = [];
    assert_eq!(fold(&none, 7u64, |a, v| 10 * a + v), 7);
}

#[test]
fn pairs_go_as_far_as_both_sides() {
    let seen = |mut s: Vec<(u8, u8)>, p: (u8, u8)| {
        s.push(p);
        s
    };
    assert_eq!(fold_pairs(&[1u8, 2, 3], &[4u8, 5], Vec::new(), seen), vec![(1, 4), (2, 5)]);
    assert_eq!(fold_pairs(&[1u8], &[4u8, 5], Vec::new(), seen), vec![(1, 4)]);
    assert_eq!(fold_pairs(&[], &[4u8, 5], Vec::new(), seen), Vec::<(u8, u8)>::new());
}

#[test]
fn surroundings_come_in_the_order_of_the_cells() {
    let n = 4usize;
    let field: Vec<usize> = (0..64).collect();
    let seen = fold_stencils(&field, n, Vec::new(), |mut s: Vec<[usize; 6]>, u: Stencil<usize>| {
        s.push([u.x_minus, u.x_plus, u.y_minus, u.y_plus, u.z_minus, u.z_plus]);
        s
    });
    let mut expected = Vec::new();
    for x in 0..n {
        for y in 0..n {
            for z in 0..n {
                expected.push([
                    cell_index(n, (x + 3) % n, y, z),
                    cell_index(n, (x + 1) % n, y, z),
                    cell_index(n, x, (y + 3) % n, z),
                    cell_index(n, x, (y + 1) % n, z),
                    cell_index(n, x, y, (z + 3) % n),
                    cell_index(n, x, y, (z + 1) % n),
                ]);
            }
        }
    }
    assert_eq!(seen, expected);
    assert_eq!(fold_stencils(&field, 0, 9u8, |a, _: Stencil<usize>| a), 9);
}

#[test]
fn a_uniform_shear_has_its_differences() {
    // A velocity that turns once around the lattice along y.
    let n = 8usize;
    let wave = |y: usize| (std::f32::consts::TAU * y as f32 / n as f32).sin();
    let field: Vec<f32> = (0..512).map(|cell| wave(cell / n % n)).collect();
    let sum = fold_stencils(&field, n, [0.0f64; 3], |s, u: Stencil<f32>| {
        let square = |a: f32, b: f32| (0.5 * (a - b) * 0.5 * (a - b)) as f64;
        [
            s[0] + square(u.x_plus, u.x_minus),
            s[1] + square(u.y_plus, u.y_minus),
            s[2] + square(u.z_plus, u.z_minus),
        ]
    });
    assert_eq!(sum[0], 0.0);
    assert_eq!(sum[2], 0.0);
    // The central difference of a sine is a cosine of amplitude sin(tau / n).
    assert!((sum[1] / 512.0 - 0.25).abs() < 1e-6);
}

#[test]
fn fields_are_made_of_the_populations() {
    let state: Vec<u64> = (0..19 * 8).collect();
    let sums = map_cells(&state, 8, |f: [u64; 19]| f.iter().sum::<u64>());
    let expected: Vec<u64> = (0..8).map(|cell| (0..19).map(|q| 8 * q + cell).sum()).collect();
    assert_eq!(sums, expected);
}

#[test]
fn a_survey_sums_cells_and_the_field_of_their_parts() {
    let n = 2usize;
    let state: Vec<u64> = (0..19 * 8).map(|i| i * 7 % 23).collect();
    // What is seen in a cell: its rest population and the sum of all of them.
    let see = |f: [u64; 19]| (f[0], f.iter().sum::<u64>());
    let (sums, slopes) = diagnostics(
        &state,
        n,
        see,
        Vec::new(),
        |mut s: Vec<(u64, u64)>, v: (u64, u64)| {
            s.push(v);
            s
        },
        |v: (u64, u64)| v.0,
        Vec::new(),
        |mut s: Vec<[u64; 2]>, u: Stencil<u64>| {
            s.push([u.x_plus, u.z_minus]);
            s
        },
    );
    assert_eq!(sums, map_cells(&state, 8, see));
    let rest = |x, y, z| state[cell_index(n, x, y, z)];
    let mut expected = Vec::new();
    for x in 0..n {
        for y in 0..n {
            for z in 0..n {
                expected.push([rest((x + 1) % n, y, z), rest(x, y, (z + 1) % n)]);
            }
        }
    }
    assert_eq!(slopes, expected);
}
