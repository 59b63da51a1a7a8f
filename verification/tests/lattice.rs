use cuda_lbm::lattice::{
    cell_index, exact_log2, is_power_of_two, lattice_cells, neighbours, population_index,
    pull_slots, pull_source, state_len, weight_denominator, wrap, Neighbours, CX, CY, CZ, Q,
};

#[test]
fn cells_are_numbered_z_first() {
    assert_eq!(cell_index(4, 0, 0, 0), 0);
    assert_eq!(cell_index(4, 1, 2, 3), 27);
    assert_eq!(cell_index(4, 3, 3, 3), 63);
}

#[test]
fn populations_are_stored_by_direction() {
    assert_eq!(population_index(64, 0, 27), 27);
    assert_eq!(population_index(64, 2, 27), 155);
    assert_eq!(population_index(64, 18, 63), 19 * 64 - 1);
}

#[test]
fn powers_of_two_are_recognised() {
    for n in 0..5000usize {
        assert_eq!(is_power_of_two(n), n.is_power_of_two());
    }
    assert!(is_power_of_two(1 << 63));
    assert!(!is_power_of_two(usize::MAX));
}

#[test]
fn logarithms_match_trailing_zeros() {
    for e in 0..64u32 {
        assert_eq!(exact_log2(1usize << e), (1usize << e).trailing_zeros());
    }
}

#[test]
fn lattice_sizes_are_checked() {
    assert_eq!(lattice_cells(0), Some(0));
    assert_eq!(lattice_cells(64), Some(262144));
    for n in [1usize, 3, 2642245, 2642246, 1 << 21, 1 << 22, 1 << 32, usize::MAX] {
        assert_eq!(lattice_cells(n), n.checked_pow(3));
    }
    assert_eq!(state_len(262144), Some(4980736));
    assert_eq!(state_len(usize::MAX / 19 + 1), None);
}

#[test]
fn weights_sum_to_one() {
    assert_eq!(weight_denominator(0), 3);
    assert_eq!(weight_denominator(6), 18);
    assert_eq!(weight_denominator(7), 36);
    let sum: u32 = (0..Q).map(|q| 36 / weight_denominator(q)).sum();
    assert_eq!(sum, 36);
    let sum: f64 = (0..Q).map(|q| 1.0 / weight_denominator(q) as f64).sum();
    assert!((sum - 1.0).abs() < 1e-15);
}

#[test]
fn second_moments_are_isotropic() {
    let moment = |a: &[i32; 19], b: &[i32; 19]| -> i32 {
        (0..Q).map(|q| 36 / weight_denominator(q) as i32 * a[q] * b[q]).sum()
    };
    assert_eq!(moment(&CX, &CX), 12);
    assert_eq!(moment(&CY, &CY), 12);
    assert_eq!(moment(&CZ, &CZ), 12);
    assert_eq!(moment(&CX, &CY), 0);
    assert_eq!(moment(&CY, &CZ), 0);
    assert_eq!(moment(&CZ, &CX), 0);
}

#[test]
fn directions_are_distinct() {
    for p in 0..Q {
        for q in 0..p {
            assert!((CX[p], CY[p], CZ[p]) != (CX[q], CY[q], CZ[q]));
        }
    }
}

#[test]
fn coordinates_wrap_around() {
    assert_eq!(wrap(0, 1, 8), 7);
    assert_eq!(wrap(7, -1, 8), 0);
    assert_eq!(wrap(3, 1, 8), 2);
    assert_eq!(wrap(3, 0, 8), 3);
    assert_eq!(wrap(0, 1, 1), 0);
}

#[test]
fn masking_off_a_power_of_two_stays_in_range() {
    for n in [3usize, 6, 7] {
        for x in 0..n {
            for c in [-1i32, 0, 1] {
                assert_eq!(wrap(x, c, n), x.wrapping_sub_signed(c as isize) & (n - 1));
            }
        }
    }
}

#[test]
fn pull_takes_from_the_upwind_cell() {
    // Direction 7 is (1, 1, 0): it comes from one cell down in x and y.
    assert_eq!((CX[7], CY[7], CZ[7]), (1, 1, 0));
    assert_eq!(pull_source(4, 0, 2, 1, 7), cell_index(4, 3, 1, 1));
    assert_eq!(pull_source(4, 2, 2, 2, 0), cell_index(4, 2, 2, 2));
}

#[test]
fn streaming_is_a_permutation() {
    let n = 4;
    let mut seen = vec![0usize; Q * n * n * n];
    for x in 0..n {
        for y in 0..n {
            for z in 0..n {
                let slots = pull_slots(n, x, y, z);
                assert_eq!(slots.len(), Q);
                for slot in slots {
                    seen[slot] += 1;
                }
            }
        }
    }
    assert!(seen.iter().all(|&count| count == 1));
}

#[test]
fn opposite_directions_pull_back() {
    let n = 8usize;
    let wrap_all = |p: (usize, usize, usize), q: usize| {
        (wrap(p.0, CX[q], n), wrap(p.1, CY[q], n), wrap(p.2, CZ[q], n))
    };
    for (q, back) in [(1usize, 2usize), (5, 6), (7, 10), (8, 9), (12, 13), (15, 18), (16, 17)] {
        for p in [(0, 0, 0), (7, 0, 3), (1, 6, 7)] {
            assert_eq!(wrap_all(wrap_all(p, q), back), p);
        }
    }
}

#[test]
fn neighbours_share_a_face() {
    assert_eq!(
        neighbours(4, 0, 3, 1),
        Neighbours {
            x_minus: cell_index(4, 3, 3, 1),
            x_plus: cell_index(4, 1, 3, 1),
            y_minus: cell_index(4, 0, 2, 1),
            y_plus: cell_index(4, 0, 0, 1),
            z_minus: cell_index(4, 0, 3, 0),
            z_plus: cell_index(4, 0, 3, 2),
        }
    );
}

#[test]
fn shifts_decode_cells() {
    let n = 16usize;
    let log = exact_log2(n);
    for (x, y, z) in [(0, 0, 0), (15, 0, 7), (3, 14, 15)] {
        let cell = cell_index(n, x, y, z);
        assert_eq!(cell >> (2 * log), x);
        assert_eq!((cell >> log) & (n - 1), y);
        assert_eq!(cell & (n - 1), z);
    }
}
