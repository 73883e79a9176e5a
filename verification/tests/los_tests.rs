use grid_solver::errors::DndError;
use grid_solver::grid::{GridMap, Terrain};
use grid_solver::los::{compute_los, ElevationRule};
use grid_solver::types::GridPosition;

fn at(x: i32, y: i32) -> GridPosition {
    GridPosition::new(x, y)
}

fn open_grid(w: u32, h: u32) -> GridMap {
    GridMap::create(w, h, Terrain::Open).unwrap()
}

fn wall(g: &mut GridMap, x: i32, y: i32) {
    g.set_terrain(at(x, y), Terrain::Blocking, None).unwrap();
}

#[test]
fn open_ground_is_visible() {
    let g = open_grid(5, 5);
    let r = compute_los(&g, at(0, 0), at(4, 3), ElevationRule::Ignore).unwrap();
    assert!(r.visible);
    assert!(r.blocking_cells.is_empty());
}

#[test]
fn diagonal_walls_block_and_are_both_listed() {
    let mut g = open_grid(5, 5);
    wall(&mut g, 1, 1);
    wall(&mut g, 2, 2);
    let r = compute_los(&g, at(0, 0), at(3, 3), ElevationRule::Ignore).unwrap();
    assert!(!r.visible);
    assert_eq!(r.blocking_cells, vec![at(1, 1), at(2, 2)]);
}

#[test]
fn one_corner_cell_does_not_block() {
    let mut g = open_grid(3, 3);
    wall(&mut g, 1, 0);
    let r = compute_los(&g, at(0, 0), at(1, 1), ElevationRule::Ignore).unwrap();
    assert!(r.visible);
    assert!(r.blocking_cells.is_empty());
    let r = compute_los(&g, at(0, 0), at(2, 2), ElevationRule::Ignore).unwrap();
    assert!(r.visible);
}

#[test]
fn both_corner_cells_block() {
    let mut g = open_grid(3, 3);
    wall(&mut g, 1, 0);
    wall(&mut g, 0, 1);
    let r = compute_los(&g, at(0, 0), at(1, 1), ElevationRule::Ignore).unwrap();
    assert!(!r.visible);
    assert_eq!(r.blocking_cells, vec![at(1, 0), at(0, 1)]);
}

#[test]
fn every_touched_cell_counts() {
    let mut g = open_grid(4, 3);
    wall(&mut g, 1, 0);
    let r = compute_los(&g, at(0, 0), at(2, 1), ElevationRule::Ignore).unwrap();
    assert_eq!(r.blocking_cells, vec![at(1, 0)]);
    let mut g = open_grid(4, 3);
    wall(&mut g, 1, 1);
    let r = compute_los(&g, at(0, 0), at(2, 1), ElevationRule::Ignore).unwrap();
    assert_eq!(r.blocking_cells, vec![at(1, 1)]);
    let mut g = open_grid(4, 3);
    wall(&mut g, 0, 1);
    wall(&mut g, 2, 0);
    let r = compute_los(&g, at(0, 0), at(2, 1), ElevationRule::Ignore).unwrap();
    assert!(r.visible);
}

#[test]
fn end_cells_never_block() {
    let mut g = open_grid(4, 1);
    wall(&mut g, 0, 0);
    wall(&mut g, 3, 0);
    let r = compute_los(&g, at(0, 0), at(3, 0), ElevationRule::Ignore).unwrap();
    assert!(r.visible);
    wall(&mut g, 2, 0);
    let r = compute_los(&g, at(0, 0), at(3, 0), ElevationRule::Ignore).unwrap();
    assert_eq!(r.blocking_cells, vec![at(2, 0)]);
    let r = compute_los(&g, at(2, 0), at(2, 0), ElevationRule::Ignore).unwrap();
    assert!(r.visible);
}

#[test]
fn sight_is_the_same_both_ways() {
    let mut g = open_grid(7, 6);
    for (x, y) in [(1, 1), (2, 3), (3, 2), (4, 4), (5, 1), (2, 2), (3, 4), (1, 4)] {
        wall(&mut g, x, y);
    }
    g.set_terrain(at(4, 2), Terrain::Open, Some(6)).unwrap();
    for rule in [ElevationRule::Ignore, ElevationRule::AboveEndpoints { wall_height: 3 }] {
        for ax in 0..7 {
            for ay in 0..6 {
                for bx in 0..7 {
                    for by in 0..6 {
                        let one = compute_los(&g, at(ax, ay), at(bx, by), rule).unwrap();
                        let two = compute_los(&g, at(bx, by), at(ax, ay), rule).unwrap();
                        assert_eq!(one.visible, two.visible);
                        assert_eq!(one.blocking_cells, two.blocking_cells);
                        assert_eq!(one.visible, one.blocking_cells.is_empty());
                    }
                }
            }
        }
    }
}

#[test]
fn high_ground_blocks_under_the_endpoint_rule() {
    let mut g = open_grid(5, 1);
    g.set_terrain(at(2, 0), Terrain::Open, Some(2)).unwrap();
    let rule = ElevationRule::AboveEndpoints { wall_height: 2 };
    let r = compute_los(&g, at(0, 0), at(4, 0), rule).unwrap();
    assert_eq!(r.blocking_cells, vec![at(2, 0)]);
    let r = compute_los(&g, at(0, 0), at(4, 0), ElevationRule::AboveEndpoints { wall_height: 3 }).unwrap();
    assert!(r.visible);
    let r = compute_los(&g, at(0, 0), at(4, 0), ElevationRule::Ignore).unwrap();
    assert!(r.visible);
    g.set_terrain(at(4, 0), Terrain::Open, Some(1)).unwrap();
    let r = compute_los(&g, at(0, 0), at(4, 0), rule).unwrap();
    assert!(r.visible);
}

#[test]
fn the_source_rule_depends_on_direction() {
    let mut g = open_grid(3, 1);
    g.set_terrain(at(1, 0), Terrain::Open, Some(3)).unwrap();
    g.set_terrain(at(2, 0), Terrain::Open, Some(5)).unwrap();
    let rule = ElevationRule::AboveSource { wall_height: 2 };
    let up = compute_los(&g, at(0, 0), at(2, 0), rule).unwrap();
    assert!(!up.visible);
    assert_eq!(up.blocking_cells, vec![at(1, 0)]);
    let down = compute_los(&g, at(2, 0), at(0, 0), rule).unwrap();
    assert!(down.visible);
}

#[test]
fn sight_fails_off_the_grid() {
    let g = open_grid(3, 3);
    let e = compute_los(&g, at(3, 0), at(9, 9), ElevationRule::Ignore).unwrap_err();
    assert!(matches!(e, DndError::InvalidPosition { x: 3, y: 0 }));
    let e = compute_los(&g, at(0, 0), at(0, -1), ElevationRule::Ignore).unwrap_err();
    assert!(matches!(e, DndError::InvalidPosition { x: 0, y: -1 }));
}
