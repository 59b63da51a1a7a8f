use cuda_lbm::field::{cpu_step, cpu_steps, gather, initial_state, populations, stencil, store};
use cuda_lbm::lattice::{cell_index, pull_source, wrap, CX, CY, CZ, Q};

/// A state whose values tell where they are stored.
fn numbered(n: usize) -> Vec<usize> {
    (0..Q * n * n * n).collect()
}

#[test]
fn populations_are_gathered_from_upstream() {
    let state = numbered(4);
    let f = gather(&state, 4, 0, 1, 2);
    assert_eq!(f[0], cell_index(4, 0, 1, 2));
    assert_eq!(f[1], 64 + cell_index(4, 3, 1, 2));
    assert_eq!(f[2], 2 * 64 + cell_index(4, 1, 1, 2));
    assert_eq!(f[7], 7 * 64 + cell_index(4, 3, 0, 2));
    assert_eq!(f[18], 18 * 64 + cell_index(4, 0, 2, 3));
    for q in 0..Q {
        assert_eq!(f[q], q * 64 + pull_source(4, 0, 1, 2, q));
    }
}

#[test]
fn populations_of_a_cell_are_read_and_written() {
    let mut state = numbered(2);
    let f = populations(&state, 8, 5);
    for q in 0..Q {
        assert_eq!(f[q], 8 * q + 5);
    }
    let mut values = [0usize; 19];
    for q in 0..Q {
        values[q] = 1000 + q;
    }
    store(&mut state, 8, 5, values);
    assert_eq!(populations(&state, 8, 5), values);
    for (i, &value) in state.iter().enumerate() {
        if i % 8 != 5 {
            assert_eq!(value, i);
        }
    }
}

#[test]
fn fields_are_read_at_the_face_neighbours() {
    let field: Vec<usize> = (0..64).collect();
    let around = stencil(&field, 4, 0, 3, 2);
    assert_eq!(around.x_minus, cell_index(4, 3, 3, 2));
    assert_eq!(around.x_plus, cell_index(4, 1, 3, 2));
    assert_eq!(around.y_minus, cell_index(4, 0, 2, 2));
    assert_eq!(around.y_plus, cell_index(4, 0, 0, 2));
    assert_eq!(around.z_minus, cell_index(4, 0, 3, 1));
    assert_eq!(around.z_plus, cell_index(4, 0, 3, 3));
}

#[test]
fn states_are_made_cell_by_cell() {
    let state = initial_state(3, 0usize, |x, y, z| {
        let mut f = [0usize; 19];
        for q in 0..19 {
            f[q] = 1000 * q + 100 * x + 10 * y + z;
        }
        f
    });
    assert_eq!(state.len(), 19 * 27);
    for x in 0..3 {
        for y in 0..3 {
            for z in 0..3 {
                for q in 0..19 {
                    let at = q * 27 + cell_index(3, x, y, z);
                    assert_eq!(state[at], 1000 * q + 100 * x + 10 * y + z);
                }
            }
        }
    }
    assert_eq!(initial_state(0, 0usize, |_, _, _| [0usize; 19]), Vec::<usize>::new());
}

#[test]
fn a_step_without_collision_moves_every_population() {
    let n = 4;
    let input = numbered(n);
    let output = cpu_step(&input, n, 0usize, |f| f);
    for x in 0..n {
        for y in 0..n {
            for z in 0..n {
                for q in 0..Q {
                    let from = q * 64 + cell_index(n, x, y, z);
                    let to = cell_index(
                        n,
                        wrap(x, -CX[q], n),
                        wrap(y, -CY[q], n),
                        wrap(z, -CZ[q], n),
                    );
                    assert_eq!(output[q * 64 + to], input[from]);
                }
            }
        }
    }
    let mut sorted = output;
    sorted.sort();
    assert_eq!(sorted, input);
}

#[test]
fn a_step_clears_what_lies_beyond_the_cells() {
    let mut input = numbered(1);
    input.push(77);
    input.push(78);
    let output = cpu_step(&input, 1, 5usize, |f| f);
    assert_eq!(output[..19], input[..19]);
    assert_eq!(output[19..], [5, 5]);
}

#[test]
fn what_is_kept_in_cells_is_kept_over_the_lattice() {
    let n = 4;
    let input: Vec<i64> = (0..19 * 64).map(|i| (i * i) % 101 + 3).collect();
    // The two directions along x and the two along y have the same sums of velocities.
    let collide = |f: [i64; 19]| {
        let mut f = f;
        f[1] += 7;
        f[2] += 7;
        f[3] -= 7;
        f[4] -= 7;
        f
    };
    let output = cpu_step(&input, n, 0i64, collide);
    assert_ne!(output, input);
    let mass = |s: &[i64]| s.iter().sum::<i64>();
    assert_eq!(mass(&output), mass(&input));
    for c in [CX, CY, CZ] {
        let momentum = |s: &[i64]| {
            s.iter().enumerate().map(|(i, &v)| c[i / 64] as i64 * v).sum::<i64>()
        };
        assert_eq!(momentum(&output), momentum(&input));
    }
}

fn weight(q: usize) -> f32 {
    if q == 0 {
        1.0 / 3.0
    } else if q <= 6 {
        1.0 / 18.0
    } else {
        1.0 / 36.0
    }
}

fn bgk(f: [f32; 19], omega: f32) -> [f32; 19] {
    let (mut rho, mut mx, mut my, mut mz) = (0.0f32, 0.0f32, 0.0f32, 0.0f32);
    for q in 0..19 {
        rho += f[q];
        mx += CX[q] as f32 * f[q];
        my += CY[q] as f32 * f[q];
        mz += CZ[q] as f32 * f[q];
    }
    let (ux, uy, uz) = (mx * (1.0 / rho), my * (1.0 / rho), mz * (1.0 / rho));
    let u2 = ux * ux + uy * uy + uz * uz;
    let mut out = [0.0f32; 19];
    let mut moving_sum = 0.0f32;
    for q in 1..19 {
        let cu = 3.0 * (CX[q] as f32 * ux + CY[q] as f32 * uy + CZ[q] as f32 * uz);
        let feq = weight(q) * rho * (1.0 + cu + 0.5 * cu * cu - 1.5 * u2);
        out[q] = f[q] - omega * (f[q] - feq);
        moving_sum += out[q];
    }
    out[0] = rho - moving_sum;
    out
}

#[test]
fn a_vortex_keeps_its_mass_and_loses_energy() {
    let n = 8;
    let state = initial_state(n, 0.0f32, |x, y, z| {
        let angle = |i: usize| std::f32::consts::TAU * i as f32 / n as f32;
        let (a, b, c) = (angle(x), angle(y), angle(z));
        let ux = 0.04 * a.sin() * b.cos() * c.cos();
        let uy = -0.04 * a.cos() * b.sin() * c.cos();
        let mut f = [0.0f32; 19];
        for q in 0..19 {
            let cu = 3.0 * (CX[q] as f32 * ux + CY[q] as f32 * uy);
            f[q] = weight(q) * (1.0 + cu + 0.5 * cu * cu - 1.5 * (ux * ux + uy * uy));
        }
        f
    });
    let mass = |s: &[f32]| s.iter().map(|&v| v as f64).sum::<f64>();
    let kinetic = |s: &[f32]| {
        let mut sum = 0.0f64;
        for cell in 0..n * n * n {
            let f = populations(s, n * n * n, cell);
            let mut m = [0.0f64; 3];
            for q in 0..19 {
                m[0] += CX[q] as f64 * f[q] as f64;
                m[1] += CY[q] as f64 * f[q] as f64;
                m[2] += CZ[q] as f64 * f[q] as f64;
            }
            sum += m[0] * m[0] + m[1] * m[1] + m[2] * m[2];
        }
        sum
    };
    let mut now = state.clone();
    for _ in 0..10 {
        let next = cpu_step(&now, n, 0.0f32, |f| bgk(f, 1.2));
        assert!(kinetic(&next) < kinetic(&now));
        now = next;
    }
    assert!((mass(&now) - mass(&state)).abs() < 1e-4 * mass(&state));
    assert!((mass(&state) - 512.0).abs() < 1e-2);
}

#[test]
fn several_steps_are_single_steps_in_a_row() {
    let input: Vec<u64> = (0..19 * 64).map(|i| i * i % 977).collect();
    let collide = |f: [u64; 19]| {
        let mut f = f;
        f.swap(1, 2);
        f[0] += 1;
        f
    };
    assert_eq!(cpu_steps(&input, 4, 0, collide, 0), input);
    let one = cpu_step(&input, 4, 0, collide);
    assert_eq!(cpu_steps(&input, 4, 0, collide, 1), one);
    let two = cpu_step(&one, 4, 0, collide);
    let three = cpu_step(&two, 4, 0, collide);
    assert_eq!(cpu_steps(&input, 4, 0, collide, 3), three);
    // Without a step there is no lattice to be asked for.
    assert_eq!(cpu_steps(&[7u64, 8], 0, 0, collide, 0), vec![7, 8]);
}

/// A state with all cells moved around the lattice.
fn moved(state: &[f32], n: usize, d: [usize; 3]) -> Vec<f32> {
    let cells = n * n * n;
    let mut r = vec![0.0f32; state.len()];
    for x in 0..n {
        for y in 0..n {
            for z in 0..n {
                let to = cell_index(n, (x + d[0]) % n, (y + d[1]) % n, (z + d[2]) % n);
                for q in 0..Q {
                    r[q * cells + to] = state[q * cells + cell_index(n, x, y, z)];
                }
            }
        }
    }
    r
}

#[test]
fn a_moved_state_becomes_a_moved_state() {
    let n = 4;
    let input: Vec<f32> = (0..19 * 64).map(|i| 1.0 + (i * i % 101) as f32 / 1000.0).collect();
    let step = |state: &[f32], k: usize| cpu_steps(state, n, 0.0f32, |f| bgk(f, 1.3), k);
    for d in [[1, 0, 0], [0, 3, 2], [2, 1, 3]] {
        for k in [1, 4] {
            assert_eq!(step(&moved(&input, n, d), k), moved(&step(&input, k), n, d));
        }
    }
    assert_ne!(moved(&input, n, [1, 0, 0]), input);
}
