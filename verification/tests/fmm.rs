use crowd_sim::fmm::{apply_fmm, index_add, neighbor, Eikonal, Wavefront};
use crowd_sim::grid::Field;
use crowd_sim::scalar::Scalar;

fn s(x: f64) -> Scalar {
    Scalar::from_bits(x.to_bits())
}

fn f(x: Scalar) -> f64 {
    f64::from_bits(x.to_bits())
}

/// The equation in binary64.
struct Binary64;

impl Eikonal for Binary64 {
    fn slowness(&self, scale_factor: Scalar, cost: Scalar) -> Scalar {
        s(f(scale_factor) * f(cost))
    }

    fn one_sided(&self, u: Scalar, step: Scalar) -> Scalar {
        s(f(u) + f(step))
    }

    fn discriminant(&self, ux: Scalar, uy: Scalar, step: Scalar) -> Scalar {
        let n = f(step);
        s(2.0 * n * n - (f(ux) - f(uy)).powi(2))
    }

    fn two_sided(&self, ux: Scalar, uy: Scalar, discriminant: Scalar) -> Scalar {
        s((f(ux) + f(uy) + f(discriminant).sqrt()) * 0.5)
    }
}

/// A field of `rows` by `cols` cells that hold `value`.
fn filled(rows: usize, cols: usize, value: f64) -> Field {
    Field::new(rows, cols, s(value)).unwrap()
}

fn fill(field: &mut Field, rows: std::ops::Range<usize>, cols: std::ops::Range<usize>, value: f64) {
    for r in rows {
        for c in cols.clone() {
            assert!(field.set(r, c, s(value)));
        }
    }
}

fn at(field: &Field, r: usize, c: usize) -> f64 {
    f(field.get(r, c).unwrap())
}

#[test]
fn test_fmm() {
    let mut field = filled(10, 10, f64::NAN);
    fill(&mut field, 1..9, 1..9, f64::INFINITY);
    fill(&mut field, 4..6, 4..6, 0.0);

    apply_fmm(&mut field, s(0.25), |_| s(1.0), &Binary64);

    println!("{field:?}");
}

#[test]
fn the_field_of_a_block_of_sources() {
    let mut field = filled(10, 10, f64::NAN);
    fill(&mut field, 1..9, 1..9, f64::INFINITY);
    fill(&mut field, 4..6, 4..6, 0.0);

    apply_fmm(&mut field, s(0.25), |_| s(1.0), &Binary64);

    assert_eq!(field.dim(), (10, 10));
    for i in 0..10 {
        assert!(at(&field, 0, i).is_nan());
        assert!(at(&field, 9, i).is_nan());
        assert!(at(&field, i, 0).is_nan());
        assert!(at(&field, i, 9).is_nan());
    }
    for r in 4..6 {
        for c in 4..6 {
            assert_eq!(at(&field, r, c), 0.0);
        }
    }
    // Straight away from the block the wave comes along one axis.
    for r in 4..6 {
        assert_eq!(at(&field, r, 3), 0.25);
        assert_eq!(at(&field, r, 2), 0.5);
        assert_eq!(at(&field, r, 1), 0.75);
        assert_eq!(at(&field, r, 6), 0.25);
        assert_eq!(at(&field, r, 7), 0.5);
        assert_eq!(at(&field, r, 8), 0.75);
    }
    for c in 4..6 {
        assert_eq!(at(&field, 3, c), 0.25);
        assert_eq!(at(&field, 1, c), 0.75);
        assert_eq!(at(&field, 6, c), 0.25);
        assert_eq!(at(&field, 8, c), 0.75);
    }
    // At a corner of the block it comes from both: (0.25 + 0.25 + sqrt(2 * 0.0625)) / 2.
    let diagonal = (0.25 + 0.25 + (2.0f64 * 0.25 * 0.25).sqrt()) * 0.5;
    assert_eq!(at(&field, 3, 3), diagonal);
    assert_eq!(at(&field, 3, 6), diagonal);
    assert_eq!(at(&field, 6, 3), diagonal);
    assert_eq!(at(&field, 6, 6), diagonal);
    // Every cell inside was reached, and by the four symmetries alike.
    for r in 1..9 {
        for c in 1..9 {
            let v = at(&field, r, c);
            assert!(v.is_finite() && v >= 0.0);
            assert_eq!(v, at(&field, 9 - r, c));
            assert_eq!(v, at(&field, r, 9 - c));
            assert_eq!(v, at(&field, c, r));
        }
    }
}

#[test]
fn along_an_axis_the_time_is_the_distance() {
    let mut field = filled(9, 15, f64::INFINITY);
    assert!(field.set(4, 2, s(0.0)));
    apply_fmm(&mut field, s(0.25), |_| s(1.0), &Binary64);
    for k in 0..13usize {
        assert_eq!(at(&field, 4, 2 + k), 0.25 * k as f64);
    }
    for k in 0..5usize {
        assert_eq!(at(&field, 4 + k, 2), 0.25 * k as f64);
        assert_eq!(at(&field, 4 - k, 2), 0.25 * k as f64);
    }
    assert_eq!(at(&field, 4, 1), 0.25);
    assert_eq!(at(&field, 4, 0), 0.5);
}

#[test]
fn off_the_axes_the_time_lies_between_the_two_distances() {
    let mut field = filled(12, 12, f64::INFINITY);
    assert!(field.set(0, 0, s(0.0)));
    apply_fmm(&mut field, s(1.0), |_| s(1.0), &Binary64);
    for r in 0..12usize {
        for c in 0..12usize {
            let straight = ((r * r + c * c) as f64).sqrt();
            let around = (r + c) as f64;
            let v = at(&field, r, c);
            assert!(straight - 1e-9 <= v && v <= around + 1e-9, "cell ({r}, {c}) holds {v}");
        }
    }
}

#[test]
fn the_cost_of_a_cell_slows_the_wave() {
    let mut field = filled(1, 6, f64::INFINITY);
    assert!(field.set(0, 0, s(0.0)));
    let cost = |index: (usize, usize)| s(if index.1 >= 3 { 4.0 } else { 1.0 });
    apply_fmm(&mut field, s(0.5), cost, &Binary64);
    let expected = [0.0, 0.5, 1.0, 3.0, 5.0, 7.0];
    for c in 0..6 {
        assert_eq!(at(&field, 0, c), expected[c]);
    }
}

#[test]
fn a_cell_behind_blocked_cells_keeps_infinity() {
    let mut field = filled(5, 7, f64::INFINITY);
    // A wall down the middle, from edge to edge.
    fill(&mut field, 0..5, 3..4, f64::NAN);
    assert!(field.set(2, 0, s(0.0)));
    apply_fmm(&mut field, s(0.25), |_| s(1.0), &Binary64);
    for r in 0..5 {
        for c in 0..3 {
            assert!(at(&field, r, c).is_finite());
        }
        assert!(at(&field, r, 3).is_nan());
        for c in 4..7 {
            assert_eq!(at(&field, r, c), f64::INFINITY);
        }
    }
}

#[test]
fn the_wave_goes_round_a_wall() {
    let mut field = filled(5, 5, f64::INFINITY);
    fill(&mut field, 0..4, 2..3, f64::NAN);
    assert!(field.set(0, 0, s(0.0)));
    apply_fmm(&mut field, s(1.0), |_| s(1.0), &Binary64);
    // Straight across it would be four; the way leads through the gap in row 4.
    let behind = at(&field, 0, 4);
    assert!(behind.is_finite());
    assert!(behind > 8.0);
    assert!(at(&field, 4, 2).is_finite());
}

#[test]
fn without_a_source_nothing_changes() {
    let mut field = filled(4, 4, f64::INFINITY);
    assert!(field.set(1, 1, s(f64::NAN)));
    apply_fmm(&mut field, s(0.25), |_| s(1.0), &Binary64);
    for r in 0..4 {
        for c in 0..4 {
            if (r, c) == (1, 1) {
                assert!(at(&field, r, c).is_nan());
            } else {
                assert_eq!(at(&field, r, c), f64::INFINITY);
            }
        }
    }
}

#[test]
fn an_empty_field_is_solved_at_once() {
    let mut field = filled(0, 0, 0.0);
    apply_fmm(&mut field, s(0.25), |_| s(1.0), &Binary64);
    assert_eq!(field.dim(), (0, 0));
    let mut flat = filled(0, 5, 0.0);
    apply_fmm(&mut flat, s(0.25), |_| s(1.0), &Binary64);
    assert_eq!(flat.dim(), (0, 5));
}

#[test]
fn no_value_grows_and_a_final_cell_keeps_its_value() {
    let mut field = filled(6, 6, f64::INFINITY);
    assert!(field.set(1, 1, s(0.0)));
    assert!(field.set(4, 3, s(0.0)));
    assert!(field.set(2, 2, s(f64::NAN)));
    let cost = |_: (usize, usize)| s(1.0);
    let mut front = Wavefront::new(field);
    assert_eq!(front.pending(), 2);
    let mut before: Vec<Vec<f64>> = Vec::new();
    let mut was_final: Vec<Vec<bool>> = Vec::new();
    for r in 0..6 {
        before.push((0..6).map(|c| at(front.field(), r, c)).collect());
        was_final.push((0..6).map(|c| front.is_final(r, c)).collect());
        assert!(was_final[r].iter().all(|x| !*x));
    }
    let mut steps = 0;
    while front.step(s(0.5), &cost, &Binary64) {
        steps += 1;
        for r in 0..6 {
            for c in 0..6 {
                let now = at(front.field(), r, c);
                let then = before[r][c];
                if then.is_nan() {
                    assert!(now.is_nan());
                } else {
                    assert!(now <= then);
                }
                if was_final[r][c] {
                    assert!(front.is_final(r, c));
                    assert_eq!(now, then);
                }
                before[r][c] = now;
                was_final[r][c] = front.is_final(r, c);
            }
        }
    }
    assert!(steps >= 35);
    assert_eq!(front.pending(), 0);
    assert!(!front.step(s(0.5), &cost, &Binary64));
    for r in 0..6 {
        for c in 0..6 {
            // Every cell but the blocked one was reached, and is final.
            assert_eq!(front.is_final(r, c), (r, c) != (2, 2));
        }
    }
    assert!(!front.is_final(6, 0));
    let solved = front.finish();
    assert_eq!(at(&solved, 1, 1), 0.0);
    assert_eq!(at(&solved, 1, 2), 0.5);
    assert_eq!(at(&solved, 4, 5), 1.0);
}

#[test]
fn run_steps_until_the_queue_is_empty() {
    let mut field = filled(3, 3, f64::INFINITY);
    assert!(field.set(1, 1, s(0.0)));
    let cost = |_: (usize, usize)| s(2.0);
    let mut front = Wavefront::new(field);
    front.run(s(0.5), &cost, &Binary64);
    assert_eq!(front.pending(), 0);
    let solved = front.finish();
    assert_eq!(at(&solved, 1, 0), 1.0);
    assert_eq!(at(&solved, 0, 1), 1.0);
    assert_eq!(at(&solved, 0, 0), (1.0 + 1.0 + 2.0f64.sqrt()) * 0.5);
}

#[test]
fn a_candidate_that_is_no_improvement_is_not_taken() {
    // With a cost of zero every candidate equals the value of the neighbour it
    // comes from: the sources pass their zero on, and nothing is queued twice.
    let mut field = filled(1, 3, f64::INFINITY);
    assert!(field.set(0, 0, s(0.0)));
    assert!(field.set(0, 1, s(0.0)));
    let cost = |_: (usize, usize)| s(0.0);
    let mut front = Wavefront::new(field);
    assert_eq!(front.pending(), 2);
    assert!(front.step(s(1.0), &cost, &Binary64));
    // The neighbour of the first source is a source: zero is not below zero.
    assert!(front.pending() <= 2);
    front.run(s(1.0), &cost, &Binary64);
    let solved = front.finish();
    for c in 0..3 {
        assert_eq!(at(&solved, 0, c), 0.0);
    }
}

#[test]
fn index_add_stays_on_the_grid() {
    let dim = (10, 8);
    assert_eq!(index_add((3, 4), (0, 1), dim), Some((3, 5)));
    assert_eq!(index_add((3, 4), (-1, 0), dim), Some((2, 4)));
    assert_eq!(index_add((3, 4), (2, -4), dim), Some((5, 0)));
    assert_eq!(index_add((0, 0), (-1, 0), dim), None);
    assert_eq!(index_add((0, 0), (0, -1), dim), None);
    assert_eq!(index_add((9, 7), (1, 0), dim), None);
    assert_eq!(index_add((9, 7), (0, 1), dim), None);
    assert_eq!(index_add((9, 7), (0, 0), dim), Some((9, 7)));
    assert_eq!(index_add((10, 0), (0, 0), dim), None);
    assert_eq!(index_add((0, 0), (isize::MIN, 0), dim), None);
    assert_eq!(index_add((0, 0), (isize::MAX, 0), dim), None);
    assert_eq!(index_add((usize::MAX, 0), (1, 0), (usize::MAX, 1)), None);
    assert_eq!(
        index_add((usize::MAX, 0), (isize::MIN, 0), (usize::MAX, 1)),
        Some((usize::MAX - (isize::MAX as usize) - 1, 0))
    );
    assert_eq!(index_add((1, 1), (0, 0), (0, 0)), None);
}

#[test]
fn a_neighbour_lends_its_value_or_infinity() {
    let mut field = filled(3, 3, 2.5);
    assert!(field.set(0, 1, s(f64::NAN)));
    assert!(field.set(1, 2, s(7.0)));
    assert_eq!(f(neighbor(&field, (1, 1), (0, 1))), 7.0);
    assert_eq!(f(neighbor(&field, (1, 1), (1, 0))), 2.5);
    assert_eq!(f(neighbor(&field, (1, 1), (-1, 0))), f64::INFINITY);
    assert_eq!(f(neighbor(&field, (0, 0), (-1, 0))), f64::INFINITY);
    assert_eq!(f(neighbor(&field, (2, 2), (0, 1))), f64::INFINITY);
}

#[test]
fn a_field_is_made_where_it_fits() {
    let field = filled(2, 3, 1.5);
    assert_eq!(field.dim(), (2, 3));
    for r in 0..2 {
        for c in 0..3 {
            assert_eq!(at(&field, r, c), 1.5);
        }
    }
    assert!(field.get(2, 0).is_none());
    assert!(field.get(0, 3).is_none());
    assert!(Field::new(usize::MAX, 2, s(0.0)).is_none());
    assert!(Field::new(2, usize::MAX, s(0.0)).is_none());
    assert!(Field::new(1 << 40, 1 << 40, s(0.0)).is_none());
    assert!(Field::new(isize::MAX as usize, 1, s(0.0)).is_none());
    assert!(Field::new(0, isize::MAX as usize, s(0.0)).is_some());
    assert!(Field::new((isize::MAX as usize) + 1, 0, s(0.0)).is_none());
}

#[test]
fn set_writes_one_cell() {
    let mut field = filled(3, 4, 0.0);
    assert!(field.set(1, 2, s(9.0)));
    assert!(!field.set(3, 0, s(9.0)));
    assert!(!field.set(0, 4, s(9.0)));
    for r in 0..3 {
        for c in 0..4 {
            assert_eq!(at(&field, r, c), if (r, c) == (1, 2) { 9.0 } else { 0.0 });
        }
    }
    assert!(field.set(1, 2, s(-1.0)));
    assert_eq!(at(&field, 1, 2), -1.0);
}

/// The solution of a field, worked out here on its own: the same wavefront
/// over plain numbers, with a list in place of the queue.
fn expected_solution(
    field: &mut Vec<Vec<f64>>,
    scale_factor: f64,
    cost: &dyn Fn((usize, usize)) -> f64,
) {
    let rows = field.len();
    let cols = if rows == 0 { 0 } else { field[0].len() };
    let mut is_final = vec![vec![false; cols]; rows];
    let mut queue: Vec<(f64, (usize, usize))> = Vec::new();
    for r in 0..rows {
        for c in 0..cols {
            if field[r][c] == 0.0 {
                queue.push((field[r][c], (r, c)));
            }
        }
    }
    let lent = |field: &Vec<Vec<f64>>, r: i64, c: i64| -> f64 {
        if r < 0 || c < 0 || r >= rows as i64 || c >= cols as i64 {
            return f64::INFINITY;
        }
        let v = field[r as usize][c as usize];
        if v.is_nan() {
            f64::INFINITY
        } else {
            v
        }
    };
    while !queue.is_empty() {
        let mut least = 0;
        for i in 1..queue.len() {
            if queue[i].0 < queue[least].0 {
                least = i;
            }
        }
        let (_, (r, c)) = queue.swap_remove(least);
        if is_final[r][c] {
            continue;
        }
        is_final[r][c] = true;
        for (dr, dc) in [(-1i64, 0i64), (1, 0), (0, -1), (0, 1)] {
            let (nr, nc) = (r as i64 + dr, c as i64 + dc);
            if nr < 0 || nc < 0 || nr >= rows as i64 || nc >= cols as i64 {
                continue;
            }
            let (ur, uc) = (nr as usize, nc as usize);
            if is_final[ur][uc] || field[ur][uc].is_nan() {
                continue;
            }
            let ux = lent(field, nr - 1, nc).min(lent(field, nr + 1, nc));
            let uy = lent(field, nr, nc - 1).min(lent(field, nr, nc + 1));
            let n = scale_factor * cost((ur, uc));
            let candidate = if ux == f64::INFINITY {
                uy + n
            } else if uy == f64::INFINITY {
                ux + n
            } else {
                let sq = 2.0 * n * n - (ux - uy).powi(2);
                if sq >= 0.0 {
                    (ux + uy + sq.sqrt()) * 0.5
                } else {
                    ux.min(uy) + n
                }
            };
            if candidate < field[ur][uc] {
                field[ur][uc] = candidate;
                queue.push((candidate, (ur, uc)));
            }
        }
    }
}

#[test]
fn the_solution_is_what_the_formulas_say() {
    let mut seed: u64 = 2024;
    let mut draw = move || {
        seed = seed.wrapping_mul(6364136223846793005).wrapping_add(1442695040888963407);
        (seed >> 33) as usize
    };
    for round in 0..40 {
        let rows = 1 + draw() % 14;
        let cols = 1 + draw() % 14;
        let mut plain = vec![vec![f64::INFINITY; cols]; rows];
        for r in 0..rows {
            for c in 0..cols {
                let kind = draw() % 10;
                if kind < 2 {
                    plain[r][c] = f64::NAN;
                } else if kind == 2 && draw() % 3 == 0 {
                    plain[r][c] = 0.0;
                }
            }
        }
        if round % 2 == 0 {
            plain[draw() % rows][draw() % cols] = 0.0;
        }
        let scale = 0.125 + (round % 5) as f64 * 0.3;
        let cost = move |index: (usize, usize)| -> f64 {
            1.0 + ((index.0 * 31 + index.1 * 17 + round) % 7) as f64 * 0.37
        };

        let mut field = filled(rows, cols, 0.0);
        for r in 0..rows {
            for c in 0..cols {
                assert!(field.set(r, c, s(plain[r][c])));
            }
        }
        apply_fmm(&mut field, s(scale), |index| s(cost(index)), &Binary64);
        expected_solution(&mut plain, scale, &cost);

        for r in 0..rows {
            for c in 0..cols {
                let got = at(&field, r, c);
                let want = plain[r][c];
                assert!(
                    got.to_bits() == want.to_bits() || (got.is_nan() && want.is_nan()),
                    "round {round}, cell ({r}, {c}): {got} against {want}"
                );
            }
        }
    }
}

#[test]
fn the_shape_and_the_blocked_cells_stay() {
    for (rows, cols) in [(0usize, 0usize), (0, 7), (3, 0), (1, 1), (4, 6)] {
        let mut field = filled(rows, cols, f64::INFINITY);
        let mut blocked = vec![vec![false; cols]; rows];
        for r in 0..rows {
            for c in 0..cols {
                if (r * 5 + c * 3) % 4 == 1 {
                    assert!(field.set(r, c, s(f64::NAN)));
                    blocked[r][c] = true;
                } else if (r + c) % 5 == 0 {
                    assert!(field.set(r, c, s(0.0)));
                }
            }
        }
        apply_fmm(&mut field, s(0.25), |_| s(1.0), &Binary64);
        assert_eq!(field.dim(), (rows, cols));
        for r in 0..rows {
            for c in 0..cols {
                assert_eq!(at(&field, r, c).is_nan(), blocked[r][c]);
            }
        }
    }
}

#[test]
fn a_source_is_not_lowered_and_nothing_falls_below_zero() {
    let mut field = filled(7, 9, f64::INFINITY);
    assert!(field.set(1, 1, s(0.0)));
    assert!(field.set(5, 7, s(-0.0)));
    assert!(field.set(3, 4, s(f64::NAN)));
    let before: Vec<Vec<f64>> =
        (0..7).map(|r| (0..9).map(|c| at(&field, r, c)).collect()).collect();
    apply_fmm(&mut field, s(0.5), |index| s(1.0 + index.0 as f64), &Binary64);
    assert_eq!(at(&field, 1, 1).to_bits(), 0.0f64.to_bits());
    assert_eq!(at(&field, 5, 7).to_bits(), (-0.0f64).to_bits());
    for r in 0..7 {
        for c in 0..9 {
            let v = at(&field, r, c);
            if before[r][c].is_nan() {
                assert!(v.is_nan());
            } else {
                assert!(0.0 <= v && v <= before[r][c]);
            }
        }
    }
}
