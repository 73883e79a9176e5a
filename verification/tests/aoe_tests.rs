use grid_solver::aoe::{compute_aoe, tangent_of, AoeShape, ElevationBand};
use grid_solver::errors::DndError;
use grid_solver::grid::{GridMap, Terrain};
use grid_solver::types::{Direction, DistanceMetric, EntityId, GridPosition, SizeCategory};

fn at(x: i32, y: i32) -> GridPosition {
    GridPosition::new(x, y)
}

fn cells(list: &[(i32, i32)]) -> Vec<GridPosition> {
    list.iter().map(|&(x, y)| at(x, y)).collect()
}

fn open_grid(w: u32, h: u32) -> GridMap {
    GridMap::create(w, h, Terrain::Open).unwrap()
}

#[test]
fn sphere_follows_the_metric() {
    let g = open_grid(5, 5);
    let s = AoeShape::Sphere { origin: at(2, 2), radius: 1, band: None };
    let r = compute_aoe(&g, &s, DistanceMetric::Euclidean).unwrap();
    assert_eq!(r.cells, cells(&[(2, 1), (1, 2), (2, 2), (3, 2), (2, 3)]));
    let r = compute_aoe(&g, &s, DistanceMetric::Chebyshev).unwrap();
    assert_eq!(r.cells.len(), 9);
    let s2 = AoeShape::Sphere { origin: at(2, 2), radius: 2, band: None };
    let r = compute_aoe(&g, &s2, DistanceMetric::FiveFoot).unwrap();
    assert_eq!(r.cells.len(), 21);
    assert!(!r.cells.contains(&at(0, 0)));
    let r = compute_aoe(&g, &s2, DistanceMetric::Chebyshev).unwrap();
    assert_eq!(r.cells.len(), 25);
    let r = compute_aoe(&g, &s2, DistanceMetric::Euclidean).unwrap();
    assert_eq!(r.cells.len(), 13);
}

#[test]
fn sphere_ignores_walls_and_clips_to_the_grid() {
    let mut g = open_grid(3, 3);
    g.set_terrain(at(1, 0), Terrain::Blocking, None).unwrap();
    let s = AoeShape::Sphere { origin: at(0, 0), radius: 1, band: None };
    let r = compute_aoe(&g, &s, DistanceMetric::Chebyshev).unwrap();
    assert_eq!(r.cells, cells(&[(0, 0), (1, 0), (0, 1), (1, 1)]));
}

#[test]
fn cube_reaches_toward_its_facing() {
    let g = open_grid(5, 5);
    let cube = |facing| AoeShape::Cube { origin: at(2, 2), side: 2, facing, band: None };
    let r = compute_aoe(&g, &cube(Direction::NorthEast), DistanceMetric::Chebyshev).unwrap();
    assert_eq!(r.cells, cells(&[(2, 1), (3, 1), (2, 2), (3, 2)]));
    let r = compute_aoe(&g, &cube(Direction::North), DistanceMetric::Chebyshev).unwrap();
    assert_eq!(r.cells, cells(&[(2, 1), (3, 1), (2, 2), (3, 2)]));
    let r = compute_aoe(&g, &cube(Direction::East), DistanceMetric::Chebyshev).unwrap();
    assert_eq!(r.cells, cells(&[(2, 2), (3, 2), (2, 3), (3, 3)]));
    let r = compute_aoe(&g, &cube(Direction::SouthWest), DistanceMetric::Chebyshev).unwrap();
    assert_eq!(r.cells, cells(&[(1, 2), (2, 2), (1, 3), (2, 3)]));
    let r = compute_aoe(&g, &cube(Direction::West), DistanceMetric::Chebyshev).unwrap();
    assert_eq!(r.cells, cells(&[(1, 1), (2, 1), (1, 2), (2, 2)]));
}

#[test]
fn cone_of_thirty_degrees_facing_east() {
    let g = open_grid(5, 5);
    let cone = AoeShape::Cone { origin: at(0, 0), length: 3, half_angle: 30, facing: Direction::East, band: None };
    for metric in [DistanceMetric::Chebyshev, DistanceMetric::Euclidean, DistanceMetric::FiveFoot] {
        let r = compute_aoe(&g, &cone, metric).unwrap();
        assert!(r.cells.contains(&at(3, 1)));
        assert!(!r.cells.contains(&at(3, 2)));
        assert!(!r.cells.contains(&at(0, 0)));
        assert_eq!(r.cells, cells(&[(1, 0), (2, 0), (3, 0), (2, 1), (3, 1)]));
    }
}

#[test]
fn cone_boundary_is_inclusive() {
    let g = open_grid(7, 7);
    let cone = |half_angle, facing| AoeShape::Cone { origin: at(3, 3), length: 3, half_angle, facing, band: None };
    let r = compute_aoe(&g, &cone(45, Direction::East), DistanceMetric::Chebyshev).unwrap();
    assert!(r.cells.contains(&at(5, 5)));
    assert!(r.cells.contains(&at(4, 2)));
    assert!(!r.cells.contains(&at(4, 5)));
    assert!(!r.cells.contains(&at(3, 4)));
    let r = compute_aoe(&g, &cone(44, Direction::East), DistanceMetric::Chebyshev).unwrap();
    assert!(!r.cells.contains(&at(5, 5)));
    assert!(r.cells.contains(&at(5, 4)));
    let r = compute_aoe(&g, &cone(90, Direction::East), DistanceMetric::Chebyshev).unwrap();
    assert!(r.cells.contains(&at(3, 0)));
    assert!(!r.cells.contains(&at(2, 0)));
    let r = compute_aoe(&g, &cone(135, Direction::East), DistanceMetric::Chebyshev).unwrap();
    assert!(r.cells.contains(&at(1, 1)));
    assert!(!r.cells.contains(&at(1, 2)));
    let r = compute_aoe(&g, &cone(180, Direction::East), DistanceMetric::Chebyshev).unwrap();
    assert_eq!(r.cells.len(), 48);
    let r = compute_aoe(&g, &cone(45, Direction::NorthEast), DistanceMetric::Chebyshev).unwrap();
    assert!(r.cells.contains(&at(3, 1)));
    assert!(r.cells.contains(&at(5, 3)));
    assert!(r.cells.contains(&at(5, 1)));
    assert!(!r.cells.contains(&at(2, 1)));
}

#[test]
fn tangent_table_is_exact_where_it_can_be() {
    assert_eq!(tangent_of(45), 1u64 << 32);
    assert_eq!(tangent_of(30), 2479700525);
    assert_eq!(tangent_of(60), 7439101574);
    for d in 1..89u32 {
        assert!(tangent_of(d) < tangent_of(d + 1));
    }
    for d in 1..90u32 {
        let exact = (d as f64).to_radians().tan() * 4294967296.0;
        assert!((tangent_of(d) as f64 - exact).abs() < 1.0);
    }
}

#[test]
fn line_runs_from_the_origin_edge() {
    let g = open_grid(5, 5);
    let line = |length, width, facing, origin| AoeShape::Line { origin, length, width, facing, band: None };
    let r = compute_aoe(&g, &line(3, 1, Direction::East, at(0, 2)), DistanceMetric::Chebyshev).unwrap();
    assert_eq!(r.cells, cells(&[(1, 2), (2, 2), (3, 2)]));
    let r = compute_aoe(&g, &line(3, 2, Direction::East, at(0, 2)), DistanceMetric::Chebyshev).unwrap();
    assert_eq!(r.cells.len(), 9);
    let r = compute_aoe(&g, &line(2, 1, Direction::North, at(2, 4)), DistanceMetric::Chebyshev).unwrap();
    assert_eq!(r.cells, cells(&[(2, 2), (2, 3)]));
    let r = compute_aoe(&g, &line(3, 1, Direction::SouthEast, at(0, 0)), DistanceMetric::Chebyshev).unwrap();
    assert_eq!(r.cells, cells(&[(1, 1), (2, 2)]));
    let r = compute_aoe(&g, &line(3, 2, Direction::SouthEast, at(0, 0)), DistanceMetric::Chebyshev).unwrap();
    assert_eq!(r.cells, cells(&[(1, 1), (2, 1), (1, 2), (2, 2), (3, 2), (2, 3)]));
}

#[test]
fn cylinder_keeps_to_its_elevation_band() {
    let mut g = open_grid(5, 5);
    g.set_terrain(at(2, 1), Terrain::Open, Some(5)).unwrap();
    g.set_terrain(at(1, 2), Terrain::Open, Some(2)).unwrap();
    g.set_terrain(at(3, 2), Terrain::Open, Some(-1)).unwrap();
    let c = AoeShape::Cylinder { origin: at(2, 2), radius: 1, height: 2 };
    let r = compute_aoe(&g, &c, DistanceMetric::Euclidean).unwrap();
    assert_eq!(r.cells, cells(&[(1, 2), (2, 2), (2, 3)]));
    let s = AoeShape::Sphere { origin: at(2, 2), radius: 1, band: Some(ElevationBand { low: 2, high: 9 }) };
    let r = compute_aoe(&g, &s, DistanceMetric::Euclidean).unwrap();
    assert_eq!(r.cells, cells(&[(2, 1), (1, 2)]));
}

#[test]
fn larger_templates_cover_more() {
    let g = open_grid(9, 9);
    let o = at(4, 4);
    for metric in [DistanceMetric::Euclidean, DistanceMetric::Chebyshev, DistanceMetric::FiveFoot] {
        for n in 1..6 {
            let pairs = [
                (AoeShape::Sphere { origin: o, radius: n, band: None }, AoeShape::Sphere {
                    origin: o,
                    radius: n + 1,
                    band: None,
                }),
                (
                    AoeShape::Cube { origin: o, side: n, facing: Direction::South, band: None },
                    AoeShape::Cube { origin: o, side: n + 1, facing: Direction::South, band: None },
                ),
                (
                    AoeShape::Line { origin: o, length: n, width: n, facing: Direction::NorthWest, band: None },
                    AoeShape::Line { origin: o, length: n + 1, width: n, facing: Direction::NorthWest, band: None },
                ),
                (
                    AoeShape::Line { origin: o, length: n, width: n, facing: Direction::West, band: None },
                    AoeShape::Line { origin: o, length: n, width: n + 1, facing: Direction::West, band: None },
                ),
                (AoeShape::Cylinder { origin: o, radius: n, height: n }, AoeShape::Cylinder {
                    origin: o,
                    radius: n + 1,
                    height: n + 1,
                }),
            ];
            for (small, big) in pairs {
                let a = compute_aoe(&g, &small, metric).unwrap();
                let b = compute_aoe(&g, &big, metric).unwrap();
                for c in &a.cells {
                    assert!(b.cells.contains(c));
                }
            }
        }
    }
}

#[test]
fn entities_are_listed_once_even_when_partly_inside() {
    let mut g = open_grid(6, 6);
    let ogre = EntityId(7);
    let elf = EntityId(3);
    let far = EntityId(5);
    g.place_occupant(ogre, at(3, 3), SizeCategory::Large).unwrap();
    g.place_occupant(elf, at(1, 2), SizeCategory::Medium).unwrap();
    g.place_occupant(far, at(5, 0), SizeCategory::Medium).unwrap();
    let s = AoeShape::Sphere { origin: at(2, 2), radius: 1, band: None };
    let r = compute_aoe(&g, &s, DistanceMetric::Chebyshev).unwrap();
    assert_eq!(r.entities, vec![elf, ogre]);
    let s = AoeShape::Sphere { origin: at(3, 3), radius: 2, band: None };
    let r = compute_aoe(&g, &s, DistanceMetric::Chebyshev).unwrap();
    assert_eq!(r.entities, vec![elf, ogre]);
    let s = AoeShape::Sphere { origin: at(0, 5), radius: 1, band: None };
    let r = compute_aoe(&g, &s, DistanceMetric::Chebyshev).unwrap();
    assert!(r.entities.is_empty());
}

#[test]
fn bad_templates_are_refused() {
    let g = open_grid(3, 3);
    let o = at(1, 1);
    let bad = [
        AoeShape::Sphere { origin: o, radius: 0, band: None },
        AoeShape::Sphere { origin: at(9, 9), radius: -1, band: None },
        AoeShape::Cube { origin: o, side: -3, facing: Direction::North, band: None },
        AoeShape::Cone { origin: o, length: 0, half_angle: 30, facing: Direction::North, band: None },
        AoeShape::Cone { origin: o, length: 2, half_angle: 0, facing: Direction::North, band: None },
        AoeShape::Cone { origin: o, length: 2, half_angle: 181, facing: Direction::North, band: None },
        AoeShape::Line { origin: o, length: 2, width: 0, facing: Direction::North, band: None },
        AoeShape::Line { origin: o, length: 0, width: 2, facing: Direction::North, band: None },
        AoeShape::Cylinder { origin: o, radius: 1, height: 0 },
        AoeShape::Cylinder { origin: o, radius: 0, height: 1 },
    ];
    for s in bad {
        assert!(!s.is_valid());
        let e = compute_aoe(&g, &s, DistanceMetric::Chebyshev).unwrap_err();
        assert!(matches!(e, DndError::InvalidAction(_)));
    }
    let s = AoeShape::Sphere { origin: at(3, 1), radius: 1, band: None };
    assert_eq!(s.origin_cell(), at(3, 1));
    let e = compute_aoe(&g, &s, DistanceMetric::Chebyshev).unwrap_err();
    assert!(matches!(e, DndError::InvalidPosition { x: 3, y: 1 }));
}

#[test]
fn huge_sizes_do_not_overflow() {
    let g = open_grid(4, 4);
    let o = at(0, 0);
    let big = i32::MAX;
    for metric in [DistanceMetric::Euclidean, DistanceMetric::Chebyshev, DistanceMetric::FiveFoot] {
        let r = compute_aoe(&g, &AoeShape::Sphere { origin: o, radius: big, band: None }, metric).unwrap();
        assert_eq!(r.cells.len(), 16);
        let cone = AoeShape::Cone { origin: o, length: big, half_angle: 180, facing: Direction::South, band: None };
        assert_eq!(compute_aoe(&g, &cone, metric).unwrap().cells.len(), 15);
    }
    let line = AoeShape::Line { origin: o, length: big, width: big, facing: Direction::SouthEast, band: None };
    assert_eq!(compute_aoe(&g, &line, DistanceMetric::Chebyshev).unwrap().cells.len(), 13);
    let cube = AoeShape::Cube { origin: o, side: big, facing: Direction::East, band: None };
    assert_eq!(compute_aoe(&g, &cube, DistanceMetric::Chebyshev).unwrap().cells.len(), 16);
    let cyl = AoeShape::Cylinder { origin: o, radius: big, height: big };
    assert_eq!(compute_aoe(&g, &cyl, DistanceMetric::Chebyshev).unwrap().cells.len(), 16);
}
