use closest_pair::randomized::{cell_side, neighbourhood};
use closest_pair::{Grid, Point};

#[test]
fn grid_places_points_by_cell() {
    let mut grid = Grid::new(10);
    assert_eq!(grid.get_coordinates(0, 0), (0, 0));
    assert_eq!(grid.get_coordinates(9, 10), (0, 1));
    assert_eq!(grid.get_coordinates(25, 39), (2, 3));
    assert!(grid.get_cell(2, 3).is_none());
    grid.insert(&Point::new(25, 39));
    grid.insert(&Point::new(20, 30));
    grid.insert(&Point::new(30, 30));
    assert_eq!(grid.get_cell(2, 3), Some(&vec![Point::new(25, 39), Point::new(20, 30)]));
    assert_eq!(grid.get_cell(3, 3), Some(&vec![Point::new(30, 30)]));
    assert!(grid.get_cell(0, 0).is_none());
}

#[test]
fn grid_with_capacity_starts_empty() {
    let mut grid = Grid::with_capacity(3, 16);
    assert!(grid.get_cell(0, 0).is_none());
    grid.insert(&Point::new(0, 0));
    assert_eq!(grid.get_cell(0, 0), Some(&vec![Point::new(0, 0)]));
}

#[test]
fn cell_side_is_ceiling_square_root() {
    assert_eq!(cell_side(0), 1);
    assert_eq!(cell_side(1), 1);
    assert_eq!(cell_side(2), 2);
    assert_eq!(cell_side(4), 2);
    assert_eq!(cell_side(5), 3);
    assert_eq!(cell_side(100), 10);
    assert_eq!(cell_side(101), 11);
    let max = 2 * (u32::MAX as u128) * (u32::MAX as u128);
    let s = cell_side(max) as u128;
    assert!(s * s >= max && (s - 1) * (s - 1) < max);
}

#[test]
fn neighbourhood_is_clipped_at_zero() {
    let mut corner = neighbourhood(0, 0);
    corner.sort();
    assert_eq!(corner, vec![(0, 0), (0, 1), (1, 0), (1, 1)]);
    let mut edge = neighbourhood(0, 4);
    edge.sort();
    assert_eq!(edge, vec![(0, 3), (0, 4), (0, 5), (1, 3), (1, 4), (1, 5)]);
    let mut inner = neighbourhood(2, 2);
    inner.sort();
    assert_eq!(inner.len(), 9);
    assert_eq!(inner[0], (1, 1));
    assert_eq!(inner[8], (3, 3));
}

#[test]
fn rebuilt_grid_neighbourhood_finds_close_points() {
    let points = vec![
        Point::new(0, 0),
        Point::new(40, 40),
        Point::new(43, 44),
        Point::new(90, 10),
        Point::new(95, 12),
    ];
    // best squared distance so far is 25, between (40, 40) and (43, 44)
    let side = cell_side(25);
    assert_eq!(side, 5);
    let mut grid = Grid::new(side);
    for p in &points {
        grid.insert(p);
    }
    for p in &points {
        let (x, y) = grid.get_coordinates(p.x, p.y);
        let mut found = Vec::new();
        for (cx, cy) in neighbourhood(x, y) {
            if let Some(cell) = grid.get_cell(cx, cy) {
                found.extend(cell.iter().copied());
            }
        }
        for q in &points {
            if p.squared_dist(q) <= 25 {
                assert!(found.contains(q));
            }
        }
    }
}

#[test]
fn get_cell_or_create_new_gives_the_cell_in_place() {
    let mut grid = Grid::new(4);
    assert!(grid.get_cell(1, 2).is_none());
    assert!(grid.get_cell_or_create_new(1, 2).is_empty());
    assert_eq!(grid.get_cell(1, 2), Some(&Vec::new()));
    grid.get_cell_or_create_new(1, 2).push(Point::new(5, 9));
    grid.insert(&Point::new(6, 10));
    assert_eq!(grid.get_cell(1, 2), Some(&vec![Point::new(5, 9), Point::new(6, 10)]));
    assert_eq!(grid.get_cell_or_create_new(1, 2).len(), 2);
}
