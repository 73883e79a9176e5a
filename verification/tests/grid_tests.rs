use grid_solver::errors::DndError;
use grid_solver::grid::{Cell, GridMap, Terrain, MAX_GRID_SIDE};
use grid_solver::types::{ceil_sqrt_u128, DistanceMetric, EntityId, GridPosition, SizeCategory};

fn pos(x: i32, y: i32) -> GridPosition {
    GridPosition::new(x, y)
}

#[test]
fn position_new_keeps_coordinates() {
    let p = GridPosition::new(3, -7);
    assert_eq!(p.x, 3);
    assert_eq!(p.y, -7);
    assert_eq!(p, GridPosition { x: 3, y: -7 });
}

#[test]
fn euclidean_distance_rounds_up() {
    let o = pos(0, 0);
    assert_eq!(o.distance_to(&pos(3, 4), DistanceMetric::Euclidean), 5);
    assert_eq!(o.distance_to(&pos(1, 1), DistanceMetric::Euclidean), 2);
    assert_eq!(o.distance_to(&pos(0, 0), DistanceMetric::Euclidean), 0);
    assert_eq!(o.distance_to(&pos(-3, 0), DistanceMetric::Euclidean), 3);
}

#[test]
fn counting_distances_follow_their_formulas() {
    let o = pos(0, 0);
    assert_eq!(o.distance_to(&pos(3, 2), DistanceMetric::Chebyshev), 3);
    assert_eq!(o.distance_to(&pos(3, 2), DistanceMetric::FiveFoot), 4);
    assert_eq!(o.distance_to(&pos(4, 4), DistanceMetric::FiveFoot), 6);
    assert_eq!(o.distance_to(&pos(-2, 5), DistanceMetric::Chebyshev), 5);
}

#[test]
fn distance_survives_extreme_coordinates() {
    let a = pos(i32::MIN, i32::MIN);
    let b = pos(i32::MAX, i32::MAX);
    assert_eq!(a.distance_to(&b, DistanceMetric::Chebyshev), 4294967295);
    assert_eq!(a.distance_to(&b, DistanceMetric::Euclidean), 6074000999);
}

#[test]
fn within_agrees_with_rounded_distance() {
    let o = pos(2, 2);
    for x in -3..8 {
        for y in -3..8 {
            for r in 0..6u32 {
                for m in [DistanceMetric::Euclidean, DistanceMetric::Chebyshev, DistanceMetric::FiveFoot] {
                    let c = pos(x, y);
                    assert_eq!(o.is_within(&c, m, r), o.distance_to(&c, m) <= r as u64);
                }
            }
        }
    }
    assert!(o.is_within(&pos(5, 6), DistanceMetric::Euclidean, 5));
    assert!(!o.is_within(&pos(5, 7), DistanceMetric::Euclidean, 5));
}

#[test]
fn ceil_sqrt_is_the_least_root() {
    assert_eq!(ceil_sqrt_u128(0), 0);
    assert_eq!(ceil_sqrt_u128(1), 1);
    assert_eq!(ceil_sqrt_u128(2), 2);
    assert_eq!(ceil_sqrt_u128(16), 4);
    assert_eq!(ceil_sqrt_u128(17), 5);
    assert_eq!(ceil_sqrt_u128(1u128 << 66), 1u64 << 33);
}

#[test]
fn fresh_entity_ids_are_version_four() {
    let a = EntityId::new();
    let b = EntityId::default();
    for id in [a, b] {
        assert_eq!((id.0 >> 76) & 0xf, 4);
        assert_eq!((id.0 >> 62) & 0x3, 2);
    }
    assert_ne!(a, b);
}

#[test]
fn entity_text_is_canonical_uuid() {
    assert_eq!(EntityId(42).text(), "00000000-0000-0000-0000-00000000002a");
    assert_eq!(
        EntityId(0xa1a2a3a4b1b2c1c2d1d2d3d4d5d6d7d8).text(),
        "a1a2a3a4-b1b2-c1c2-d1d2-d3d4d5d6d7d8"
    );
}

#[test]
fn create_fills_the_rectangle() {
    let g = GridMap::create(4, 3, Terrain::Difficult).unwrap();
    assert_eq!(g.width(), 4);
    assert_eq!(g.height(), 3);
    assert_eq!(g.cell_count(), 12);
    for y in 0..3 {
        for x in 0..4 {
            let c: Cell = g.cell_at(pos(x, y)).unwrap();
            assert_eq!(c.position, pos(x, y));
            assert_eq!(c.terrain, Terrain::Difficult);
            assert_eq!(c.elevation, None);
            assert_eq!(c.occupant, None);
        }
    }
}

#[test]
fn create_rejects_oversized_grids() {
    assert!(GridMap::create(MAX_GRID_SIDE, 1, Terrain::Open).is_ok());
    let e = GridMap::create(MAX_GRID_SIDE + 1, 1, Terrain::Open).unwrap_err();
    assert!(matches!(e, DndError::InvalidAction(_)));
    let e = GridMap::create(1, MAX_GRID_SIDE + 1, Terrain::Open).unwrap_err();
    assert!(matches!(e, DndError::InvalidAction(_)));
}

#[test]
fn empty_grid_has_no_cells() {
    let g = GridMap::create(0, 5, Terrain::Open).unwrap();
    assert_eq!(g.cell_count(), 0);
    assert!(matches!(g.cell_at(pos(0, 0)), Err(DndError::InvalidPosition { x: 0, y: 0 })));
}

#[test]
fn reads_fail_off_the_grid() {
    let g = GridMap::create(3, 3, Terrain::Open).unwrap();
    assert!(matches!(g.cell_at(pos(3, 0)), Err(DndError::InvalidPosition { x: 3, y: 0 })));
    assert!(matches!(g.is_blocking(pos(0, -1)), Err(DndError::InvalidPosition { x: 0, y: -1 })));
    assert!(matches!(g.occupant_at(pos(-1, 5)), Err(DndError::InvalidPosition { x: -1, y: 5 })));
    assert!(!g.contains(pos(0, 3)));
    assert!(g.contains(pos(2, 2)));
}

#[test]
fn set_terrain_changes_one_cell() {
    let mut g = GridMap::create(3, 3, Terrain::Open).unwrap();
    g.set_terrain(pos(1, 2), Terrain::Blocking, Some(7)).unwrap();
    assert_eq!(g.is_blocking(pos(1, 2)).unwrap(), true);
    assert_eq!(g.cell_at(pos(1, 2)).unwrap().elevation, Some(7));
    assert_eq!(g.cell_at(pos(1, 2)).unwrap().level_of(), 7);
    assert_eq!(g.is_blocking(pos(2, 1)).unwrap(), false);
    assert_eq!(g.cell_at(pos(2, 1)).unwrap().level_of(), 0);
    let e = g.set_terrain(pos(3, 3), Terrain::Blocking, None).unwrap_err();
    assert!(matches!(e, DndError::InvalidPosition { x: 3, y: 3 }));
}

#[test]
fn place_marks_the_whole_footprint() {
    let mut g = GridMap::create(5, 5, Terrain::Open).unwrap();
    let ogre = EntityId(1);
    g.place_occupant(ogre, pos(1, 2), SizeCategory::Large).unwrap();
    for (x, y) in [(1, 2), (2, 2), (1, 3), (2, 3)] {
        assert_eq!(g.occupant_at(pos(x, y)).unwrap(), Some(ogre));
    }
    assert_eq!(g.occupant_at(pos(3, 2)).unwrap(), None);
    assert_eq!(g.occupant_at(pos(1, 1)).unwrap(), None);
    let rec = g.occupant_record(ogre).unwrap();
    assert_eq!(rec.anchor, pos(1, 2));
    assert_eq!(rec.size, SizeCategory::Large);
    assert_eq!(g.find_occupant(ogre), Some(0));
}

#[test]
fn place_refuses_blocked_and_occupied_cells() {
    let mut g = GridMap::create(5, 5, Terrain::Open).unwrap();
    g.set_terrain(pos(2, 2), Terrain::Blocking, None).unwrap();
    let e = g.place_occupant(EntityId(1), pos(1, 1), SizeCategory::Large).unwrap_err();
    assert!(matches!(e, DndError::RulesViolation(_)));
    assert_eq!(g.occupant_at(pos(1, 1)).unwrap(), None);
    g.place_occupant(EntityId(1), pos(0, 0), SizeCategory::Medium).unwrap();
    let e = g.place_occupant(EntityId(2), pos(0, 0), SizeCategory::Medium).unwrap_err();
    assert!(matches!(e, DndError::RulesViolation(_)));
    assert_eq!(g.occupant_at(pos(0, 0)).unwrap(), Some(EntityId(1)));
}

#[test]
fn place_refuses_an_entity_twice() {
    let mut g = GridMap::create(5, 5, Terrain::Open).unwrap();
    g.place_occupant(EntityId(1), pos(0, 0), SizeCategory::Medium).unwrap();
    let e = g.place_occupant(EntityId(1), pos(3, 3), SizeCategory::Medium).unwrap_err();
    match e {
        DndError::RulesViolation(m) => assert_eq!(m, "entity is already on the grid"),
        other => panic!("unexpected {:?}", other),
    }
    assert_eq!(g.occupant_at(pos(3, 3)).unwrap(), None);
}

#[test]
fn place_checks_rules_before_bounds() {
    let mut g = GridMap::create(5, 5, Terrain::Open).unwrap();
    let e = g.place_occupant(EntityId(1), pos(4, 4), SizeCategory::Large).unwrap_err();
    assert!(matches!(e, DndError::InvalidPosition { x: 4, y: 4 }));
    g.set_terrain(pos(4, 4), Terrain::Blocking, None).unwrap();
    let e = g.place_occupant(EntityId(1), pos(4, 4), SizeCategory::Large).unwrap_err();
    match e {
        DndError::RulesViolation(m) => assert_eq!(m, "footprint is blocked or occupied"),
        other => panic!("unexpected {:?}", other),
    }
    let e = g.place_occupant(EntityId(1), pos(-1, 0), SizeCategory::Medium).unwrap_err();
    assert!(matches!(e, DndError::InvalidPosition { x: -1, y: 0 }));
    let e = g.place_occupant(EntityId(1), pos(i32::MAX, i32::MAX), SizeCategory::Gargantuan).unwrap_err();
    assert!(matches!(e, DndError::InvalidPosition { .. }));
}

#[test]
fn remove_clears_the_footprint() {
    let mut g = GridMap::create(5, 5, Terrain::Open).unwrap();
    g.place_occupant(EntityId(1), pos(0, 0), SizeCategory::Huge).unwrap();
    g.place_occupant(EntityId(2), pos(4, 4), SizeCategory::Medium).unwrap();
    g.remove_occupant(EntityId(1)).unwrap();
    for y in 0..3 {
        for x in 0..3 {
            assert_eq!(g.occupant_at(pos(x, y)).unwrap(), None);
        }
    }
    assert_eq!(g.occupant_at(pos(4, 4)).unwrap(), Some(EntityId(2)));
    assert!(g.occupant_record(EntityId(1)).is_none());
    assert_eq!(g.find_occupant(EntityId(2)), Some(0));
}

#[test]
fn remove_of_a_stranger_names_it() {
    let mut g = GridMap::create(2, 2, Terrain::Open).unwrap();
    let e = g.remove_occupant(EntityId(42)).unwrap_err();
    match e {
        DndError::EntityNotFound(m) => assert_eq!(m, "00000000-0000-0000-0000-00000000002a"),
        other => panic!("unexpected {:?}", other),
    }
}

#[test]
fn move_shifts_the_footprint() {
    let mut g = GridMap::create(5, 5, Terrain::Open).unwrap();
    let ogre = EntityId(9);
    g.place_occupant(ogre, pos(0, 0), SizeCategory::Large).unwrap();
    g.move_occupant(ogre, pos(1, 0)).unwrap();
    assert_eq!(g.occupant_at(pos(0, 0)).unwrap(), None);
    assert_eq!(g.occupant_at(pos(0, 1)).unwrap(), None);
    for (x, y) in [(1, 0), (2, 0), (1, 1), (2, 1)] {
        assert_eq!(g.occupant_at(pos(x, y)).unwrap(), Some(ogre));
    }
    assert_eq!(g.occupant_record(ogre).unwrap().anchor, pos(1, 0));
}

#[test]
fn move_fails_as_place_does() {
    let mut g = GridMap::create(5, 5, Terrain::Open).unwrap();
    let e = g.move_occupant(EntityId(3), pos(1, 1)).unwrap_err();
    assert!(matches!(e, DndError::EntityNotFound(_)));
    g.place_occupant(EntityId(3), pos(0, 0), SizeCategory::Medium).unwrap();
    g.place_occupant(EntityId(4), pos(1, 1), SizeCategory::Medium).unwrap();
    g.set_terrain(pos(2, 2), Terrain::Blocking, None).unwrap();
    assert!(matches!(g.move_occupant(EntityId(3), pos(1, 1)), Err(DndError::RulesViolation(_))));
    assert!(matches!(g.move_occupant(EntityId(3), pos(2, 2)), Err(DndError::RulesViolation(_))));
    assert!(matches!(g.move_occupant(EntityId(3), pos(5, 0)), Err(DndError::InvalidPosition { x: 5, y: 0 })));
    assert_eq!(g.occupant_at(pos(0, 0)).unwrap(), Some(EntityId(3)));
    g.move_occupant(EntityId(3), pos(0, 0)).unwrap();
    assert_eq!(g.occupant_at(pos(0, 0)).unwrap(), Some(EntityId(3)));
}

#[test]
fn footprint_queries_match_the_cells() {
    let mut g = GridMap::create(4, 4, Terrain::Open).unwrap();
    g.set_terrain(pos(1, 1), Terrain::Difficult, None).unwrap();
    g.place_occupant(EntityId(1), pos(3, 3), SizeCategory::Medium).unwrap();
    assert!(g.footprint_rough(pos(0, 0), SizeCategory::Large));
    assert!(!g.footprint_rough(pos(2, 2), SizeCategory::Large));
    assert!(g.footprint_conflicts(pos(2, 2), SizeCategory::Large, None));
    assert!(!g.footprint_conflicts(pos(2, 2), SizeCategory::Large, Some(EntityId(1))));
    assert!(g.can_stand(pos(2, 2), SizeCategory::Large, EntityId(1)));
    assert!(!g.can_stand(pos(2, 2), SizeCategory::Large, EntityId(2)));
    assert!(!g.can_stand(pos(3, 3), SizeCategory::Large, EntityId(1)));
    assert!(g.footprint_fits(pos(2, 2), SizeCategory::Large));
    assert!(!g.footprint_fits(pos(2, 2), SizeCategory::Huge));
}

#[test]
fn entity_footprint_is_a_square() {
    let e = grid_solver::grid::Entity { id: EntityId(1), anchor: pos(2, 3), size: SizeCategory::Huge, reach: Some(2) };
    assert!(e.occupies(pos(2, 3)));
    assert!(e.occupies(pos(4, 5)));
    assert!(!e.occupies(pos(5, 5)));
    assert!(!e.occupies(pos(1, 3)));
    assert!(!e.occupies(pos(2, 6)));
    let m = grid_solver::grid::Entity { id: EntityId(2), anchor: pos(i32::MAX, 0), size: SizeCategory::Large, reach: None };
    assert!(m.occupies(pos(i32::MAX, 1)));
    assert!(!m.occupies(pos(i32::MIN, 1)));
}
