use mapgeneration::diamondsquare::{
    diamond_square_2, diamond_square_round, diamond_step, displace, square_step, stamp_template,
    subsample,
};
use mapgeneration::midpoint::Midpoint;
use mapgeneration::grid::Arr2d;
use mapgeneration::reduced::ReducedArrayWrapper;
use rand_pcg::Mcg128Xsl64;
use std::cell::RefCell;

const UNSET: f64 = -1000.0;

fn present(m: &Midpoint<f64>) -> Vec<f64> {
    [m.first, m.second, m.third, m.fourth].iter().filter_map(|v| *v).collect()
}

fn average(m: Midpoint<f64>) -> f64 {
    let values = present(&m);
    let mut sum = 0.0;
    for v in values.iter() {
        sum += v;
    }
    sum / values.len() as f64
}

fn displaced(m: Midpoint<f64>) -> f64 {
    let values = present(&m);
    let mut sum = 0.0;
    for v in values.iter() {
        sum += v;
    }
    let magnitude = if m.damped { 0.0 } else { m.half_step as f64 };
    sum / values.len() as f64 + m.sample as f64 / 32768.0 * magnitude
}

fn no_erosion(_view: &mut ReducedArrayWrapper<f64>, _rng: &mut Mcg128Xsl64) {}

fn corners_template() -> Arr2d<f64> {
    Arr2d::from_vec(vec![0.0, 4.0, 8.0, 12.0], 2, 2)
}

fn close(a: f64, b: f64) -> bool {
    (a - b).abs() < 1e-12
}

#[test]
fn stamp_template_copies_at_the_stride() {
    let template = Arr2d::from_vec(vec![1, 2, 3, 4, 5, 6, 7, 8, 9], 3, 3);
    let mut output: Arr2d<i32> = Arr2d::init_with_value(5, 5, 0);
    stamp_template(&template, &mut output, 2);
    for y in 0..5 {
        for x in 0..5 {
            let expected = if x % 2 == 0 && y % 2 == 0 { ((y / 2) * 3 + x / 2 + 1) as i32 } else { 0 };
            assert_eq!(output.get(x, y), Some(&expected));
        }
    }
}

#[test]
fn stamp_template_reaches_the_last_cell_of_the_grid() {
    let template = Arr2d::from_vec(vec![1, 2, 3, 4, 5, 6, 7, 8, 9], 3, 3);
    let mut output: Arr2d<i32> = Arr2d::init_with_value(9, 9, 0);
    stamp_template(&template, &mut output, 4);
    assert_eq!(output.get(8, 8), Some(&9));
    assert_eq!(output.get(8, 0), Some(&3));
    assert_eq!(output.get(0, 8), Some(&7));
    assert_eq!(output.get(4, 4), Some(&5));
    assert_eq!(output.get_vec().iter().filter(|v| **v != 0).count(), 9);
}

#[test]
fn stamp_template_with_stride_one_copies_the_template() {
    let template = Arr2d::from_vec(vec![1, 2, 3, 4], 2, 2);
    let mut output: Arr2d<i32> = Arr2d::init_with_value(3, 3, 0);
    stamp_template(&template, &mut output, 1);
    assert_eq!(output.get_vec(), &vec![1, 2, 0, 3, 4, 0, 0, 0, 0]);
}

#[test]
fn subsample_takes_every_nth_cell() {
    let cells: Vec<i32> = (0..25).collect();
    let source = Arr2d::from_vec(cells, 5, 5);
    let mut target: Arr2d<i32> = Arr2d::init_with_value(3, 3, -1);
    subsample(&source, &mut target, 2);
    assert_eq!(target.get_vec(), &vec![0, 2, 4, 10, 12, 14, 20, 22, 24]);
}

#[test]
fn subsample_leaves_the_rest_of_a_larger_target() {
    let cells: Vec<i32> = (0..25).collect();
    let source = Arr2d::from_vec(cells, 5, 5);
    let mut target: Arr2d<i32> = Arr2d::init_with_value(3, 3, -1);
    subsample(&source, &mut target, 4);
    assert_eq!(target.get_vec(), &vec![0, 4, -1, 20, 24, -1, -1, -1, -1]);
    let mut single: Arr2d<i32> = Arr2d::init_with_value(1, 1, -1);
    subsample(&source, &mut single, 5);
    assert_eq!(single.get_vec(), &vec![0]);
}

#[test]
fn displace_blends_the_neighbours_with_the_given_sample() {
    let cells: Vec<f64> = (0..25).map(|v| v as f64).collect();
    let mut output = Arr2d::from_vec(cells, 5, 5);
    // a centre: the mean of the four diagonal neighbours, and half a step of noise
    displace(&mut output, 2, 2, true, 2, false, 16384, &displaced);
    assert_eq!(output.get(2, 2), Some(&((0.0 + 20.0 + 24.0 + 4.0) / 4.0 + 0.5 * 2.0)));
    // an edge middle on the left border: three neighbours, and a negative sample
    displace(&mut output, 0, 2, false, 2, false, -32768, &displaced);
    assert_eq!(output.get(0, 2), Some(&((13.0 + 0.0 + 20.0) / 3.0 - 2.0)));
    // damped: the sample is handed over, and the blend ignores it
    displace(&mut output, 2, 4, false, 1, true, 32767, &displaced);
    assert_eq!(output.get(2, 4), Some(&((21.0 + 23.0 + 17.0) / 3.0)));
    let seen: RefCell<Vec<Midpoint<f64>>> = RefCell::new(Vec::new());
    displace(&mut output, 3, 1, true, 1, true, -5, &|m: Midpoint<f64>| {
        seen.borrow_mut().push(m);
        -1.0
    });
    // a corner of the grid as an edge middle: the two neighbours inside
    displace(&mut output, 4, 0, false, 3, true, 7, &|m: Midpoint<f64>| {
        seen.borrow_mut().push(m);
        -2.0
    });
    let seen = seen.into_inner();
    assert_eq!((seen[0].first, seen[0].second, seen[0].third, seen[0].fourth),
        (Some(2.0), Some(13.0), Some(14.0), Some(4.0)));
    assert!(seen[0].centre && seen[0].damped);
    assert_eq!((seen[0].half_step, seen[0].sample), (1, -5));
    assert_eq!((seen[1].first, seen[1].second, seen[1].third, seen[1].fourth),
        (Some(1.0), None, None, Some(19.0)));
    assert!(!seen[1].centre);
    assert_eq!((seen[1].half_step, seen[1].sample), (3, 7));
    assert_eq!(output.get(3, 1), Some(&-1.0));
    assert_eq!(output.get(4, 0), Some(&-2.0));
    for y in 0..5 {
        for x in 0..5 {
            if ![(2, 2), (0, 2), (2, 4), (3, 1), (4, 0)].contains(&(x, y)) {
                assert_eq!(output.get(x, y), Some(&((y * 5 + x) as f64)));
            }
        }
    }
}

#[test]
fn diamond_step_fills_the_centres_from_the_corners() {
    let mut output: Arr2d<f64> = Arr2d::init_with_value(5, 5, UNSET);
    stamp_template(&corners_template(), &mut output, 4);
    let mut rng = Mcg128Xsl64::new(1);
    diamond_step(&mut output, 4, false, &mut rng, &average);
    for y in 0..5 {
        for x in 0..5 {
            let expected = match (x, y) {
                (0, 0) => 0.0,
                (4, 0) => 4.0,
                (0, 4) => 8.0,
                (4, 4) => 12.0,
                (2, 2) => 6.0,
                _ => UNSET,
            };
            assert_eq!(output.get(x, y), Some(&expected));
        }
    }
}

#[test]
fn diamond_step_hands_the_corners_over_in_order() {
    let mut output: Arr2d<f64> = Arr2d::init_with_value(3, 3, UNSET);
    stamp_template(&corners_template(), &mut output, 2);
    let seen: RefCell<Vec<Midpoint<f64>>> = RefCell::new(Vec::new());
    let mut rng = Mcg128Xsl64::new(7);
    diamond_step(&mut output, 2, true, &mut rng, &|m: Midpoint<f64>| {
        seen.borrow_mut().push(m);
        1.0
    });
    let seen = seen.into_inner();
    assert_eq!(seen.len(), 1);
    assert_eq!(seen[0].first, Some(0.0));
    assert_eq!(seen[0].second, Some(8.0));
    assert_eq!(seen[0].third, Some(12.0));
    assert_eq!(seen[0].fourth, Some(4.0));
    assert!(seen[0].centre);
    assert_eq!(seen[0].half_step, 1);
    assert_eq!(seen[0].sample, -30799);
    assert!(seen[0].damped);
    assert_eq!(output.get(1, 1), Some(&1.0));
}

#[test]
fn square_step_fills_the_edges_from_their_neighbours() {
    let mut output: Arr2d<f64> = Arr2d::init_with_value(3, 3, UNSET);
    stamp_template(&corners_template(), &mut output, 2);
    *output.get_mut(1, 1).unwrap() = 6.0;
    let seen: RefCell<Vec<Midpoint<f64>>> = RefCell::new(Vec::new());
    let mut rng = Mcg128Xsl64::new(7);
    square_step(&mut output, 2, false, &mut rng, &|m: Midpoint<f64>| {
        seen.borrow_mut().push(Midpoint { ..m });
        average(m)
    });
    let seen = seen.into_inner();
    assert_eq!(seen.len(), 4);
    // (0, 1): nothing to the left
    assert_eq!((seen[0].first, seen[0].second, seen[0].third, seen[0].fourth),
        (None, Some(6.0), Some(0.0), Some(8.0)));
    // (1, 0): nothing above
    assert_eq!((seen[1].first, seen[1].second, seen[1].third, seen[1].fourth),
        (Some(0.0), Some(4.0), None, Some(6.0)));
    // (1, 2): nothing below
    assert_eq!((seen[2].first, seen[2].second, seen[2].third, seen[2].fourth),
        (Some(8.0), Some(12.0), Some(6.0), None));
    // (2, 1): nothing to the right
    assert_eq!((seen[3].first, seen[3].second, seen[3].third, seen[3].fourth),
        (Some(6.0), None, Some(4.0), Some(12.0)));
    assert!(seen.iter().all(|m| !m.centre && m.half_step == 1 && !m.damped));
    let samples: Vec<i32> = seen.iter().map(|m| m.sample).collect();
    assert_eq!(samples, vec![-30799, 17650, -9335, 25936]);
    assert!(close(*output.get(0, 1).unwrap(), 14.0 / 3.0));
    assert!(close(*output.get(1, 0).unwrap(), 10.0 / 3.0));
    assert!(close(*output.get(1, 2).unwrap(), 26.0 / 3.0));
    assert!(close(*output.get(2, 1).unwrap(), 22.0 / 3.0));
    assert_eq!(output.get(1, 1), Some(&6.0));
    assert_eq!(output.get(0, 0), Some(&0.0));
    assert_eq!(output.get(2, 2), Some(&12.0));
}

#[test]
fn round_is_the_diamond_pass_then_the_square_pass() {
    let mut whole: Arr2d<f64> = Arr2d::init_with_value(5, 5, UNSET);
    stamp_template(&corners_template(), &mut whole, 4);
    let mut parts = whole.clone();
    let mut rng = Mcg128Xsl64::new(11);
    let mut twin = Mcg128Xsl64::new(11);
    diamond_square_round(&mut whole, 4, false, &mut rng, &displaced);
    diamond_step(&mut parts, 4, false, &mut twin, &displaced);
    square_step(&mut parts, 4, false, &mut twin, &displaced);
    assert_eq!(whole.get_vec(), parts.get_vec());
    assert!(rng == twin);
}

#[test]
fn zero_noise_generation_is_repeated_averaging() {
    let expected = [
        [0.0, 2.277777777777778, 3.3333333333333335, 4.166666666666667, 4.0],
        [2.7222222222222228, 3.5000000000000004, 4.5, 5.166666666666667, 5.5],
        [4.666666666666667, 5.25, 6.0, 6.75, 7.333333333333333],
        [6.5, 6.833333333333334, 7.5, 8.5, 9.277777777777777],
        [8.0, 7.833333333333333, 8.666666666666666, 9.722222222222221, 12.0],
    ];
    for seed in [0u128, 1, 42, 123456789] {
        let mut output: Arr2d<f64> = Arr2d::init_with_value(5, 5, UNSET);
        let mut reduced: Arr2d<f64> = Arr2d::init_with_value(2, 2, UNSET);
        let mut rng = Mcg128Xsl64::new(seed);
        diamond_square_2(
            &corners_template(),
            &mut output,
            2,
            &mut reduced,
            4,
            2,
            0,
            &mut rng,
            &average,
            &no_erosion,
        );
        for y in 0..5 {
            for x in 0..5 {
                let value = *output.get(x, y).unwrap();
                assert!(close(value, expected[y][x]), "({}, {}): {}", x, y, value);
            }
        }
        assert_eq!(reduced.get_vec(), &vec![0.0, 4.0, 8.0, 12.0]);
    }
}

#[test]
fn generation_is_reproducible_for_a_seed() {
    let run = |seed: u128| -> (Vec<f64>, Vec<f64>) {
        let template = Arr2d::from_vec(vec![1.0, 5.0, 2.0, 7.0, 3.0, 9.0, 4.0, 6.0, 8.0], 3, 3);
        let mut output: Arr2d<f64> = Arr2d::init_with_value(17, 17, UNSET);
        let mut reduced: Arr2d<f64> = Arr2d::init_with_value(5, 5, UNSET);
        let mut rng = Mcg128Xsl64::new(seed);
        diamond_square_2(
            &template,
            &mut output,
            4,
            &mut reduced,
            8,
            2,
            1,
            &mut rng,
            &displaced,
            &|view: &mut ReducedArrayWrapper<f64>, rng: &mut Mcg128Xsl64| {
                let x = mapgeneration::random::next_random_number(4, rng) as usize;
                *view.get_mut(x, 0).unwrap() -= 0.5;
            },
        );
        (output.get_vec().clone(), reduced.get_vec().clone())
    };
    let (fine_a, reduced_a) = run(2023);
    let (fine_b, reduced_b) = run(2023);
    let (fine_c, _) = run(2024);
    assert_eq!(fine_a, fine_b);
    assert_eq!(reduced_a, reduced_b);
    assert_ne!(fine_a, fine_c);
    assert!(fine_a.iter().all(|v| *v != UNSET));
}

#[test]
fn skipped_rounds_keep_the_template() {
    let cells: Vec<f64> = (0..25).map(|v| (v * v) as f64).collect();
    let template = Arr2d::from_vec(cells, 5, 5);
    let mut output: Arr2d<f64> = Arr2d::init_with_value(17, 17, UNSET);
    let mut reduced: Arr2d<f64> = Arr2d::init_with_value(2, 2, UNSET);
    let calls: RefCell<Vec<usize>> = RefCell::new(Vec::new());
    let mut rng = Mcg128Xsl64::new(5);
    diamond_square_2(
        &template,
        &mut output,
        4,
        &mut reduced,
        4,
        4,
        2,
        &mut rng,
        &|m: Midpoint<f64>| {
            calls.borrow_mut().push(m.half_step);
            displaced(m)
        },
        &no_erosion,
    );
    for j in 0..5 {
        for i in 0..5 {
            assert_eq!(output.get(i * 4, j * 4), template.get(i, j));
        }
    }
    let calls = calls.into_inner();
    // the rounds with steps 16 and 8 are skipped; the rounds with steps 4 and 2 write
    // 16 + 40 and 64 + 144 cells
    assert_eq!(calls.iter().filter(|h| **h == 8).count(), 0);
    assert_eq!(calls.iter().filter(|h| **h == 4).count(), 0);
    assert_eq!(calls.iter().filter(|h| **h == 2).count(), 56);
    assert_eq!(calls.iter().filter(|h| **h == 1).count(), 208);
    assert!(output.get_vec().iter().all(|v| *v != UNSET));
    assert_eq!(
        reduced.get_vec(),
        &vec![
            *template.get(0, 0).unwrap(),
            *template.get(4, 0).unwrap(),
            *template.get(0, 4).unwrap(),
            *template.get(4, 4).unwrap()
        ]
    );
}

#[test]
fn a_template_as_wide_as_the_grid_is_the_result() {
    let cells: Vec<f64> = (0..25).map(|v| (v * 3) as f64).collect();
    let template = Arr2d::from_vec(cells.clone(), 5, 5);
    for difference in 0..=2 {
        let side = (4 >> difference) + 1;
        let mut output: Arr2d<f64> = Arr2d::init_with_value(5, 5, UNSET);
        let mut reduced: Arr2d<f64> = Arr2d::init_with_value(side, side, UNSET);
        let calls: RefCell<u32> = RefCell::new(0);
        let mut rng = Mcg128Xsl64::new(5);
        diamond_square_2(
            &template,
            &mut output,
            2,
            &mut reduced,
            1,
            difference,
            2,
            &mut rng,
            &|m: Midpoint<f64>| {
                *calls.borrow_mut() += 1;
                displaced(m)
            },
            &no_erosion,
        );
        assert_eq!(output.get_vec(), &cells);
        // every round is skipped: nothing is blended and nothing is drawn
        assert_eq!(calls.into_inner(), 0);
        assert!(rng == Mcg128Xsl64::new(5));
        for ry in 0..side {
            for rx in 0..side {
                assert_eq!(reduced.get(rx, ry), template.get(rx << difference, ry << difference));
            }
        }
    }
}

#[test]
fn stamped_cells_hold_their_template_value_at_the_end() {
    let template = Arr2d::from_vec(vec![1.0, 5.0, 2.0, 7.0, 3.0, 9.0, 4.0, 6.0, 8.0], 3, 3);
    let mut output: Arr2d<f64> = Arr2d::init_with_value(17, 17, UNSET);
    let mut reduced: Arr2d<f64> = Arr2d::init_with_value(9, 9, UNSET);
    let mut rng = Mcg128Xsl64::new(31);
    diamond_square_2(
        &template,
        &mut output,
        4,
        &mut reduced,
        8,
        1,
        1,
        &mut rng,
        &displaced,
        &no_erosion,
    );
    for j in 0..3 {
        for i in 0..3 {
            assert_eq!(output.get(i * 8, j * 8), template.get(i, j));
            assert_eq!(reduced.get(i * 4, j * 4), template.get(i, j));
        }
    }
    assert!(output.get_vec().iter().all(|v| *v != UNSET));
}

#[test]
fn outer_corners_hold_what_they_were_seeded_with() {
    let mut output: Arr2d<f64> = Arr2d::init_with_value(9, 9, 0.0);
    *output.get_mut(0, 0).unwrap() = 1.0;
    *output.get_mut(8, 0).unwrap() = 2.0;
    *output.get_mut(0, 8).unwrap() = 3.0;
    *output.get_mut(8, 8).unwrap() = 4.0;
    let mut rng = Mcg128Xsl64::new(77);
    diamond_step(&mut output, 8, false, &mut rng, &displaced);
    assert_eq!(output.get(0, 0), Some(&1.0));
    assert_eq!(output.get(8, 0), Some(&2.0));
    assert_eq!(output.get(0, 8), Some(&3.0));
    assert_eq!(output.get(8, 8), Some(&4.0));
    let mut step = 8;
    while step > 1 {
        diamond_square_round(&mut output, step, false, &mut rng, &displaced);
        step /= 2;
    }
    assert_eq!(output.get(0, 0), Some(&1.0));
    assert_eq!(output.get(8, 0), Some(&2.0));
    assert_eq!(output.get(0, 8), Some(&3.0));
    assert_eq!(output.get(8, 8), Some(&4.0));
}

#[test]
fn unseeded_corners_spread_their_initial_value() {
    let mut output: Arr2d<f64> = Arr2d::init_with_value(3, 3, 0.0);
    let mut rng = Mcg128Xsl64::new(77);
    diamond_square_round(&mut output, 2, false, &mut rng, &average);
    assert!(output.get_vec().iter().all(|v| *v == 0.0));
}

#[test]
fn erosion_runs_once_when_the_step_reaches_the_reduced_stride() {
    let template = Arr2d::from_vec(vec![1.0, 2.0, 3.0, 4.0], 2, 2);
    let mut output: Arr2d<f64> = Arr2d::init_with_value(9, 9, UNSET);
    let mut reduced: Arr2d<f64> = Arr2d::init_with_value(5, 5, UNSET);
    let seen: RefCell<Vec<(u32, u32, Vec<f64>)>> = RefCell::new(Vec::new());
    let damped_steps: RefCell<Vec<(usize, bool)>> = RefCell::new(Vec::new());
    let mut rng = Mcg128Xsl64::new(3);
    diamond_square_2(
        &template,
        &mut output,
        3,
        &mut reduced,
        8,
        1,
        0,
        &mut rng,
        &|m: Midpoint<f64>| {
            damped_steps.borrow_mut().push((m.half_step, m.damped));
            displaced(m)
        },
        &|view: &mut ReducedArrayWrapper<f64>, _rng: &mut Mcg128Xsl64| {
            let snapshot = view.array.get_vec().clone();
            seen.borrow_mut().push((view.n_array, view.reduced_n, snapshot));
            *view.get_mut(1, 1).unwrap() = 500.0;
        },
    );
    let seen = seen.into_inner();
    assert_eq!(seen.len(), 1);
    let (n_array, reduced_n, snapshot) = &seen[0];
    assert_eq!((*n_array, *reduced_n), (3, 2));
    for y in 0..9 {
        for x in 0..9 {
            let generated = snapshot[y * 9 + x] != UNSET;
            assert_eq!(generated, x % 2 == 0 && y % 2 == 0);
        }
    }
    for (half_step, damped) in damped_steps.into_inner() {
        assert_eq!(damped, half_step == 1);
    }
    assert_eq!(output.get(2, 2), Some(&500.0));
    assert!(output.get_vec().iter().all(|v| *v != UNSET));
    for ry in 0..5 {
        for rx in 0..5 {
            assert_eq!(reduced.get(rx, ry), output.get(rx * 2, ry * 2));
        }
    }
    // damped rounds add nothing to the average of the neighbours
    let centre = (*output.get(0, 0).unwrap() + *output.get(0, 2).unwrap()
        + *output.get(2, 2).unwrap() + *output.get(2, 0).unwrap()) / 4.0;
    assert!(close(*output.get(1, 1).unwrap(), centre));
}

#[test]
fn erosion_at_full_resolution_runs_after_the_last_round() {
    let mut output: Arr2d<f64> = Arr2d::init_with_value(5, 5, UNSET);
    let mut reduced: Arr2d<f64> = Arr2d::init_with_value(5, 5, UNSET);
    let seen: RefCell<Vec<(u32, u32, bool)>> = RefCell::new(Vec::new());
    let mut rng = Mcg128Xsl64::new(3);
    diamond_square_2(
        &corners_template(),
        &mut output,
        2,
        &mut reduced,
        4,
        0,
        0,
        &mut rng,
        &displaced,
        &|view: &mut ReducedArrayWrapper<f64>, _rng: &mut Mcg128Xsl64| {
            let complete = view.array.get_vec().iter().all(|v| *v != UNSET);
            seen.borrow_mut().push((view.n_array, view.reduced_n, complete));
        },
    );
    assert_eq!(seen.into_inner(), vec![(2, 2, true)]);
    assert_eq!(reduced.get_vec(), output.get_vec());
}

#[test]
fn no_erosion_when_the_reduced_stride_is_the_whole_side() {
    let mut output: Arr2d<f64> = Arr2d::init_with_value(5, 5, UNSET);
    let mut reduced: Arr2d<f64> = Arr2d::init_with_value(2, 2, UNSET);
    let calls: RefCell<u32> = RefCell::new(0);
    let mut rng = Mcg128Xsl64::new(3);
    diamond_square_2(
        &corners_template(),
        &mut output,
        2,
        &mut reduced,
        4,
        2,
        0,
        &mut rng,
        &displaced,
        &|_view: &mut ReducedArrayWrapper<f64>, _rng: &mut Mcg128Xsl64| {
            *calls.borrow_mut() += 1;
        },
    );
    assert_eq!(calls.into_inner(), 0);
    assert_eq!(reduced.get_vec(), &vec![0.0, 4.0, 8.0, 12.0]);
}

#[test]
fn generation_on_the_smallest_grid_only_stamps_and_subsamples() {
    let mut output: Arr2d<f32> = Arr2d::init_with_value(2, 2, 10.0);
    let mut reduced: Arr2d<f32> = Arr2d::init_with_value(2, 2, 10.0);
    let template: Arr2d<f32> = Arr2d::from_vec(vec![1.0, 2.0, 3.0, 4.0], 2, 2);
    let mut rng = Mcg128Xsl64::new(3);
    diamond_square_2(
        &template,
        &mut output,
        0,
        &mut reduced,
        1,
        0,
        0,
        &mut rng,
        &|_m: Midpoint<f32>| 0.0,
        &|_view: &mut ReducedArrayWrapper<f32>, _rng: &mut Mcg128Xsl64| {},
    );
    assert_eq!(output.get_vec(), &vec![1.0, 2.0, 3.0, 4.0]);
    assert_eq!(reduced.get_vec(), &vec![1.0, 2.0, 3.0, 4.0]);
}
