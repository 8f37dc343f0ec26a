use mapgeneration::erosion::{
    compute_points_in_range, corner_heights, deposit, wear_cells, Corners, Point,
    PointsInRangeIterator, RelativePoint,
};
use mapgeneration::grid::Arr2d;
use mapgeneration::reduced::ReducedArrayWrapper;

fn weight(radius: i32) -> impl Fn(i32, i32) -> f64 {
    move |dx: i32, dy: i32| radius as f64 - ((dx * dx + dy * dy) as f64).sqrt()
}

fn offsets(table: &Vec<RelativePoint<f64>>) -> Vec<(i32, i32)> {
    table.iter().map(|p| (p.dx, p.dy)).collect()
}

fn collect(points: &mut PointsInRangeIterator<f64>) -> Vec<(usize, usize, f64)> {
    let mut cells = Vec::new();
    while let Some(Point { x, y, weight }) = points.next() {
        cells.push((x, y, weight));
    }
    cells
}

fn numbered(side: usize) -> Arr2d<f64> {
    let cells: Vec<f64> = (0..side * side).map(|v| v as f64).collect();
    Arr2d::from_vec(cells, side, side)
}

#[test]
fn disc_of_radius_one_is_the_centre() {
    let mut table = Vec::new();
    compute_points_in_range(&mut table, 1, &weight(1));
    assert_eq!(offsets(&table), vec![(0, 0)]);
    assert_eq!(table[0].weight, 1.0);
}

#[test]
fn disc_of_radius_two_is_scanned_column_by_column() {
    let mut table = Vec::new();
    compute_points_in_range(&mut table, 2, &weight(2));
    assert_eq!(
        offsets(&table),
        vec![(-1, -1), (-1, 0), (-1, 1), (0, -1), (0, 0), (0, 1), (1, -1), (1, 0), (1, 1)]
    );
    assert_eq!(table[4].weight, 2.0);
    assert_eq!(table[1].weight, 1.0);
    assert_eq!(table[0].weight, 2.0 - 2.0_f64.sqrt());
}

#[test]
fn disc_of_radius_three_leaves_the_rim_out() {
    let mut table = Vec::new();
    compute_points_in_range(&mut table, 3, &weight(3));
    assert_eq!(table.len(), 25);
    let held = offsets(&table);
    for dx in -3..=3 {
        for dy in -3..=3 {
            assert_eq!(held.contains(&(dx, dy)), dx * dx + dy * dy < 9);
        }
    }
    assert!(table.iter().all(|p| p.weight > 0.0));
    let mut sorted = held.clone();
    sorted.sort();
    assert_eq!(held, sorted);
}

#[test]
fn disc_without_radius_is_empty() {
    let mut table: Vec<RelativePoint<f64>> = Vec::new();
    compute_points_in_range(&mut table, 0, &weight(0));
    assert!(table.is_empty());
    compute_points_in_range(&mut table, -4, &weight(-4));
    assert!(table.is_empty());
    compute_points_in_range(&mut table, i32::MIN, &weight(0));
    assert!(table.is_empty());
}

#[test]
fn disc_is_appended_to_the_table() {
    let mut table = vec![RelativePoint { dx: 9, dy: 9, weight: 0.5 }];
    compute_points_in_range(&mut table, 1, &weight(1));
    assert_eq!(offsets(&table), vec![(9, 9), (0, 0)]);
    assert_eq!(table[0].weight, 0.5);
}

#[test]
fn normalised_weights_of_a_disc_sum_to_one() {
    for radius in 1..8 {
        let mut table = Vec::new();
        compute_points_in_range(&mut table, radius, &weight(radius));
        let sum: f64 = table.iter().map(|p| p.weight).sum();
        let normalised: Vec<f64> = table.iter().map(|p| p.weight / sum).collect();
        assert!(normalised.iter().all(|w| 0.0 < *w && *w <= 1.0));
        let total: f64 = normalised.iter().sum();
        assert!((total - 1.0).abs() < 1e-12);
    }
}

#[test]
fn points_in_range_are_the_offsets_inside_the_grid() {
    let mut table = Vec::new();
    compute_points_in_range(&mut table, 2, &weight(2));
    let mut inside = PointsInRangeIterator::new(&table, 5, 2, 2);
    let cells: Vec<(usize, usize)> = collect(&mut inside).iter().map(|c| (c.0, c.1)).collect();
    assert_eq!(cells, vec![(1, 1), (1, 2), (1, 3), (2, 1), (2, 2), (2, 3), (3, 1), (3, 2), (3, 3)]);
    assert!(inside.next().is_none());
    let mut corner = PointsInRangeIterator::new(&table, 5, 0, 4);
    assert_eq!(
        collect(&mut corner),
        vec![(0, 3, 1.0), (0, 4, 2.0), (1, 3, 2.0 - 2.0_f64.sqrt()), (1, 4, 1.0)]
    );
}

#[test]
fn points_in_range_of_a_cell_far_outside_are_none() {
    let mut table = Vec::new();
    compute_points_in_range(&mut table, 2, &weight(2));
    assert!(collect(&mut PointsInRangeIterator::new(&table, 5, 7, 2)).is_empty());
    assert!(collect(&mut PointsInRangeIterator::new(&table, 5, -3, 0)).is_empty());
    assert!(collect(&mut PointsInRangeIterator::new(&table, 5, i32::MAX, i32::MIN)).is_empty());
    assert!(collect(&mut PointsInRangeIterator::new(&table, 0, 0, 0)).is_empty());
    let none: Vec<RelativePoint<f64>> = Vec::new();
    assert!(collect(&mut PointsInRangeIterator::new(&none, 5, 2, 2)).is_empty());
}

#[test]
fn points_in_range_keep_the_order_of_the_table() {
    let table = vec![
        RelativePoint { dx: 1, dy: 0, weight: 0.1 },
        RelativePoint { dx: -5, dy: 0, weight: 0.2 },
        RelativePoint { dx: 0, dy: 0, weight: 0.3 },
        RelativePoint { dx: 1, dy: 0, weight: 0.4 },
    ];
    let mut points = PointsInRangeIterator::new(&table, 3, 1, 1);
    assert_eq!(collect(&mut points), vec![(2, 1, 0.1), (1, 1, 0.3), (2, 1, 0.4)]);
}

#[test]
fn corner_heights_are_the_four_cells_around_a_position() {
    let mut grid = numbered(5);
    let view = ReducedArrayWrapper::new(&mut grid, 2, 1);
    let Corners { h00, h01, h10, h11 } = corner_heights(&view, 0, 1).unwrap();
    assert_eq!((h00, h01, h10, h11), (10.0, 20.0, 12.0, 22.0));
    assert!(corner_heights(&view, 1, 1).is_some());
    assert!(corner_heights(&view, 2, 0).is_none());
    assert!(corner_heights(&view, 0, 2).is_none());
    assert!(corner_heights(&view, usize::MAX, 0).is_none());
}

#[test]
fn deposit_adds_each_share_to_its_corner() {
    let mut grid = numbered(5);
    {
        let mut view = ReducedArrayWrapper::new(&mut grid, 2, 2);
        let shares = Corners { h00: 0.5, h01: 0.25, h10: 0.125, h11: 1.0 };
        deposit(&mut view, 1, 2, shares, &|value: f64, share: f64| value + share);
    }
    for y in 0..5 {
        for x in 0..5 {
            let added = match (x, y) {
                (1, 2) => 0.5,
                (1, 3) => 0.25,
                (2, 2) => 0.125,
                (2, 3) => 1.0,
                _ => 0.0,
            };
            assert_eq!(grid.get(x, y), Some(&((y * 5 + x) as f64 + added)));
        }
    }
}

#[test]
fn wear_cells_moves_material_from_the_cells_to_the_load() {
    let mut grid: Arr2d<f64> = Arr2d::init_with_value(5, 5, 1.0);
    *grid.get_mut(4, 4).unwrap() = 0.01;
    let mut table = Vec::new();
    compute_points_in_range(&mut table, 2, &weight(2));
    let sum: f64 = table.iter().map(|p| p.weight).sum();
    for p in table.iter_mut() {
        p.weight /= sum;
    }
    let to_erode = 0.9;
    let load = {
        let mut view = ReducedArrayWrapper::new(&mut grid, 2, 2);
        wear_cells(&mut view, &table, 4, 4, 0.0, &|value: f64, weight: f64, load: f64| {
            let taken = f64::min(to_erode * weight, value);
            (value - taken, load + taken)
        })
    };
    // only (3, 3), (3, 4), (4, 3) and (4, 4) are inside the grid
    let share = |dx: i32, dy: i32| to_erode * (2.0 - ((dx * dx + dy * dy) as f64).sqrt()) / sum;
    let expected_load = share(-1, -1) + share(-1, 0) + share(0, -1) + 0.01;
    assert!((load - expected_load).abs() < 1e-12);
    assert_eq!(grid.get(4, 4), Some(&0.0));
    // what left the cells is what the load gained: the cell at (4, 4) started at 0.01
    let removed: f64 = grid.get_vec().iter().map(|v| 1.0 - v).sum::<f64>() - 0.99;
    assert!((removed - load).abs() < 1e-12);
    for y in 0..5 {
        for x in 0..5 {
            if x < 3 || y < 3 {
                assert_eq!(grid.get(x, y), Some(&1.0));
            } else {
                assert!(*grid.get(x, y).unwrap() >= 0.0);
            }
        }
    }
}

#[test]
fn wear_cells_threads_the_load_in_table_order() {
    let mut grid = numbered(3);
    let table = vec![
        RelativePoint { dx: 0, dy: 0, weight: 1u8 },
        RelativePoint { dx: 5, dy: 0, weight: 2u8 },
        RelativePoint { dx: 1, dy: 1, weight: 3u8 },
        RelativePoint { dx: 0, dy: 0, weight: 4u8 },
    ];
    let mut view = ReducedArrayWrapper::new(&mut grid, 1, 1);
    let log = wear_cells(
        &mut view,
        &table,
        1,
        1,
        Vec::new(),
        &|value: f64, weight: u8, mut log: Vec<(f64, u8)>| {
            log.push((value, weight));
            (value + 100.0, log)
        },
    );
    assert_eq!(log, vec![(4.0, 1), (8.0, 3), (104.0, 4)]);
    assert_eq!(grid.get_vec(), &vec![0.0, 1.0, 2.0, 3.0, 204.0, 5.0, 6.0, 7.0, 108.0]);
}
