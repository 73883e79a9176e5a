use grid_solver::errors::DndError;
use grid_solver::grid::{GridMap, Terrain};
use grid_solver::moves::{DiagonalRule, Mover};
use grid_solver::path::{find_path, find_path_within, PathRequest, PathResult, PathStatus};
use grid_solver::types::{EntityId, GridPosition, SizeCategory};

fn at(x: i32, y: i32) -> GridPosition {
    GridPosition::new(x, y)
}

fn open_grid(w: u32, h: u32) -> GridMap {
    GridMap::create(w, h, Terrain::Open).unwrap()
}

fn walker() -> Mover {
    Mover { id: EntityId(1), size: SizeCategory::Medium }
}

fn request(start: GridPosition, goal: GridPosition, budget: u32, rule: DiagonalRule) -> PathRequest {
    PathRequest { start, goal, mover: walker(), budget, rule }
}

fn step_cost(g: &GridMap, rule: DiagonalRule, diagonals: u32, a: GridPosition, b: GridPosition) -> u32 {
    let diagonal = a.x != b.x && a.y != b.y;
    let base = if diagonal && rule == DiagonalRule::Variant5e && diagonals % 2 == 1 { 2 } else { 1 };
    if g.cell_at(b).unwrap().terrain == Terrain::Difficult {
        2 * base
    } else {
        base
    }
}

fn check_walk(g: &GridMap, req: &PathRequest, res: &PathResult) {
    assert!(!res.path.is_empty());
    assert_eq!(res.path[0], req.start);
    let mut cost = 0;
    let mut diagonals = 0;
    for w in res.path.windows(2) {
        let dx = (w[0].x - w[1].x).abs();
        let dy = (w[0].y - w[1].y).abs();
        assert!(dx <= 1 && dy <= 1 && dx + dy >= 1);
        if req.rule == DiagonalRule::Disabled {
            assert_eq!(dx + dy, 1);
        }
        cost += step_cost(g, req.rule, diagonals, w[0], w[1]);
        if dx + dy == 2 {
            diagonals += 1;
        }
    }
    for p in &res.path {
        let c = g.cell_at(*p).unwrap();
        assert_ne!(c.terrain, Terrain::Blocking);
        assert!(c.occupant.is_none() || c.occupant == Some(req.mover.id));
    }
    assert_eq!(cost, res.cost);
}

#[test]
fn open_grid_takes_the_diagonal() {
    let g = open_grid(5, 5);
    let req = request(at(0, 0), at(4, 4), 30, DiagonalRule::Equal);
    let res = find_path(&g, &req).unwrap();
    assert_eq!(res.status, PathStatus::Reached);
    assert_eq!(res.cost, 4);
    assert_eq!(res.path.len(), 5);
    assert_eq!(res.path, vec![at(0, 0), at(1, 1), at(2, 2), at(3, 3), at(4, 4)]);
    check_walk(&g, &req, &res);
}

#[test]
fn wall_forces_a_detour_through_the_gap() {
    let mut g = open_grid(5, 5);
    for y in 0..4 {
        g.set_terrain(at(2, y), Terrain::Blocking, None).unwrap();
    }
    let req = request(at(0, 0), at(4, 4), 30, DiagonalRule::Equal);
    let res = find_path(&g, &req).unwrap();
    assert_eq!(res.status, PathStatus::Reached);
    assert_eq!(res.cost, 6);
    assert_eq!(res.path.len(), 7);
    assert!(res.path.contains(&at(2, 4)));
    assert_eq!(*res.path.last().unwrap(), at(4, 4));
    check_walk(&g, &req, &res);
}

#[test]
fn short_budget_gives_the_paid_part() {
    let g = open_grid(5, 5);
    let req = request(at(0, 0), at(4, 4), 2, DiagonalRule::Equal);
    let res = find_path(&g, &req).unwrap();
    assert_eq!(res.status, PathStatus::BudgetExceeded);
    assert_eq!(res.cost, 2);
    assert_eq!(res.path, vec![at(0, 0), at(1, 1), at(2, 2)]);
    check_walk(&g, &req, &res);
    let req = request(at(0, 0), at(4, 4), 0, DiagonalRule::Equal);
    let res = find_path(&g, &req).unwrap();
    assert_eq!(res.status, PathStatus::BudgetExceeded);
    assert_eq!(res.cost, 0);
    assert_eq!(res.path, vec![at(0, 0)]);
    let req = request(at(0, 0), at(4, 4), 4, DiagonalRule::Equal);
    assert_eq!(find_path(&g, &req).unwrap().status, PathStatus::Reached);
    let req = request(at(0, 0), at(4, 4), 3, DiagonalRule::Equal);
    let res = find_path(&g, &req).unwrap();
    assert_eq!(res.status, PathStatus::BudgetExceeded);
    assert_eq!(res.cost, 3);
    assert_eq!(res.path.len(), 4);
}

#[test]
fn every_second_diagonal_costs_double() {
    let g = open_grid(5, 5);
    let req = request(at(0, 0), at(4, 4), 30, DiagonalRule::Variant5e);
    let res = find_path(&g, &req).unwrap();
    assert_eq!(res.status, PathStatus::Reached);
    assert_eq!(res.cost, 6);
    check_walk(&g, &req, &res);
    let req = request(at(0, 0), at(1, 1), 30, DiagonalRule::Variant5e);
    assert_eq!(find_path(&g, &req).unwrap().cost, 1);
    let req = request(at(0, 0), at(2, 2), 30, DiagonalRule::Variant5e);
    assert_eq!(find_path(&g, &req).unwrap().cost, 3);
    let req = request(at(0, 0), at(3, 1), 30, DiagonalRule::Variant5e);
    assert_eq!(find_path(&g, &req).unwrap().cost, 3);
    let req = request(at(4, 0), at(0, 3), 30, DiagonalRule::Variant5e);
    assert_eq!(find_path(&g, &req).unwrap().cost, 5);
}

#[test]
fn without_diagonals_steps_add_up() {
    let g = open_grid(5, 5);
    let req = request(at(0, 0), at(4, 4), 30, DiagonalRule::Disabled);
    let res = find_path(&g, &req).unwrap();
    assert_eq!(res.status, PathStatus::Reached);
    assert_eq!(res.cost, 8);
    assert_eq!(res.path.len(), 9);
    check_walk(&g, &req, &res);
}

#[test]
fn difficult_ground_costs_double() {
    let mut g = open_grid(3, 1);
    g.set_terrain(at(1, 0), Terrain::Difficult, None).unwrap();
    let req = request(at(0, 0), at(2, 0), 30, DiagonalRule::Equal);
    let res = find_path(&g, &req).unwrap();
    assert_eq!(res.cost, 3);
    check_walk(&g, &req, &res);
    let mut g = open_grid(3, 3);
    for y in 0..3 {
        for x in 0..3 {
            if x != y {
                g.set_terrain(at(x, y), Terrain::Blocking, None).unwrap();
            }
        }
    }
    g.set_terrain(at(2, 2), Terrain::Difficult, None).unwrap();
    let req = request(at(0, 0), at(2, 2), 30, DiagonalRule::Variant5e);
    assert_eq!(find_path(&g, &req).unwrap().cost, 5);
    let req = request(at(0, 0), at(2, 2), 30, DiagonalRule::Equal);
    assert_eq!(find_path(&g, &req).unwrap().cost, 3);
    let req = request(at(0, 0), at(2, 2), 30, DiagonalRule::Disabled);
    assert_eq!(find_path(&g, &req).unwrap().status, PathStatus::Unreachable);
}

#[test]
fn going_around_difficult_ground_when_cheaper() {
    let mut g = open_grid(3, 3);
    g.set_terrain(at(1, 1), Terrain::Difficult, None).unwrap();
    g.set_terrain(at(1, 0), Terrain::Difficult, None).unwrap();
    let req = request(at(0, 1), at(2, 1), 30, DiagonalRule::Equal);
    let res = find_path(&g, &req).unwrap();
    assert_eq!(res.cost, 2);
    assert_eq!(res.path, vec![at(0, 1), at(1, 2), at(2, 1)]);
}

#[test]
fn closed_wall_is_unreachable() {
    let mut g = open_grid(5, 5);
    for y in 0..5 {
        g.set_terrain(at(2, y), Terrain::Blocking, None).unwrap();
    }
    let req = request(at(0, 0), at(4, 4), 30, DiagonalRule::Equal);
    let res = find_path(&g, &req).unwrap();
    assert_eq!(res.status, PathStatus::Unreachable);
    assert!(res.path.is_empty());
    assert_eq!(res.cost, 0);
    let req = request(at(0, 0), at(2, 2), 30, DiagonalRule::Equal);
    assert_eq!(find_path(&g, &req).unwrap().status, PathStatus::Unreachable);
    let req = request(at(2, 2), at(0, 0), 30, DiagonalRule::Equal);
    assert_eq!(find_path(&g, &req).unwrap().status, PathStatus::Unreachable);
}

#[test]
fn standing_still_costs_nothing() {
    let g = open_grid(2, 2);
    let req = request(at(1, 1), at(1, 1), 0, DiagonalRule::Variant5e);
    let res = find_path(&g, &req).unwrap();
    assert_eq!(res.status, PathStatus::Reached);
    assert_eq!(res.cost, 0);
    assert_eq!(res.path, vec![at(1, 1)]);
}

#[test]
fn others_block_but_the_mover_does_not() {
    let mut g = open_grid(3, 1);
    g.place_occupant(EntityId(1), at(0, 0), SizeCategory::Medium).unwrap();
    let req = request(at(0, 0), at(2, 0), 30, DiagonalRule::Equal);
    let res = find_path(&g, &req).unwrap();
    assert_eq!(res.status, PathStatus::Reached);
    assert_eq!(res.cost, 2);
    g.place_occupant(EntityId(2), at(1, 0), SizeCategory::Medium).unwrap();
    assert_eq!(find_path(&g, &req).unwrap().status, PathStatus::Unreachable);
    let mut g = open_grid(3, 2);
    g.place_occupant(EntityId(2), at(1, 0), SizeCategory::Medium).unwrap();
    let res = find_path(&g, &req).unwrap();
    assert_eq!(res.path, vec![at(0, 0), at(1, 1), at(2, 0)]);
    check_walk(&g, &req, &res);
}

#[test]
fn large_movers_need_room() {
    let mut g = open_grid(6, 4);
    for y in 0..3 {
        g.set_terrain(at(3, y), Terrain::Blocking, None).unwrap();
    }
    let small = request(at(0, 0), at(5, 0), 30, DiagonalRule::Equal);
    assert_eq!(find_path(&g, &small).unwrap().status, PathStatus::Reached);
    let large = PathRequest { mover: Mover { id: EntityId(1), size: SizeCategory::Large }, goal: at(4, 0), ..small };
    assert_eq!(find_path(&g, &large).unwrap().status, PathStatus::Unreachable);
    g.set_terrain(at(3, 2), Terrain::Open, None).unwrap();
    let res = find_path(&g, &large).unwrap();
    assert_eq!(res.status, PathStatus::Reached);
    assert_eq!(res.cost, 5);
    for p in &res.path {
        assert!(g.can_stand(*p, SizeCategory::Large, EntityId(1)));
    }
    let off = PathRequest { goal: at(5, 0), ..large };
    assert_eq!(find_path(&g, &off).unwrap().status, PathStatus::Unreachable);
}

#[test]
fn search_fails_off_the_grid() {
    let g = open_grid(3, 3);
    let req = request(at(-1, 0), at(9, 9), 5, DiagonalRule::Equal);
    assert!(matches!(find_path(&g, &req), Err(DndError::InvalidPosition { x: -1, y: 0 })));
    let req = request(at(0, 0), at(3, 2), 5, DiagonalRule::Equal);
    assert!(matches!(find_path(&g, &req), Err(DndError::InvalidPosition { x: 3, y: 2 })));
}

#[test]
fn a_blocked_start_reaches_nothing() {
    let mut g = open_grid(3, 3);
    g.set_terrain(at(0, 0), Terrain::Blocking, None).unwrap();
    let req = request(at(0, 0), at(0, 0), 5, DiagonalRule::Equal);
    assert_eq!(find_path(&g, &req).unwrap().status, PathStatus::Unreachable);
    let req = request(at(0, 0), at(2, 2), 5, DiagonalRule::Equal);
    assert_eq!(find_path(&g, &req).unwrap().status, PathStatus::Unreachable);
}

#[test]
fn expansion_limit_times_out() {
    let g = open_grid(5, 5);
    let req = request(at(0, 0), at(4, 4), 30, DiagonalRule::Equal);
    assert!(matches!(find_path_within(&g, &req, 0), Err(DndError::Timeout)));
    assert!(matches!(find_path_within(&g, &req, 2), Err(DndError::Timeout)));
    let full = find_path_within(&g, &req, 50).unwrap();
    let free = find_path(&g, &req).unwrap();
    assert_eq!(full.path, free.path);
    assert_eq!(full.cost, free.cost);
    assert_eq!(full.status, free.status);
    let still = request(at(1, 1), at(1, 1), 30, DiagonalRule::Equal);
    assert_eq!(find_path_within(&g, &still, 0).unwrap().status, PathStatus::Reached);
}

#[test]
fn repeated_queries_agree() {
    let mut g = open_grid(8, 8);
    for (x, y) in [(1, 1), (2, 1), (3, 1), (3, 2), (3, 3), (5, 5), (5, 6), (6, 3), (1, 5), (2, 5)] {
        g.set_terrain(at(x, y), Terrain::Blocking, None).unwrap();
    }
    g.set_terrain(at(4, 4), Terrain::Difficult, None).unwrap();
    for rule in [DiagonalRule::Disabled, DiagonalRule::Equal, DiagonalRule::Variant5e] {
        for budget in [3, 100] {
            let req = request(at(0, 0), at(7, 7), budget, rule);
            let one = find_path(&g, &req).unwrap();
            let two = find_path(&g, &req).unwrap();
            assert_eq!(one.path, two.path);
            assert_eq!(one.cost, two.cost);
            assert_eq!(one.status, two.status);
            check_walk(&g, &req, &one);
        }
    }
}

#[test]
fn costs_obey_the_triangle_inequality() {
    let mut g = open_grid(6, 6);
    for (x, y) in [(2, 0), (2, 1), (2, 2), (4, 3), (4, 4), (4, 5), (0, 4)] {
        g.set_terrain(at(x, y), Terrain::Blocking, None).unwrap();
    }
    g.set_terrain(at(3, 3), Terrain::Difficult, None).unwrap();
    let spots = [at(0, 0), at(5, 5), at(3, 0), at(1, 5), at(5, 0), at(3, 3)];
    for rule in [DiagonalRule::Disabled, DiagonalRule::Equal] {
        let cost = |a: GridPosition, b: GridPosition| {
            let res = find_path(&g, &request(a, b, 1000, rule)).unwrap();
            assert_eq!(res.status, PathStatus::Reached);
            res.cost
        };
        for a in spots {
            for b in spots {
                for c in spots {
                    assert!(cost(a, c) <= cost(a, b) + cost(b, c));
                }
            }
        }
    }
}

#[test]
fn the_diagonal_count_breaks_the_triangle_inequality() {
    let g = open_grid(3, 3);
    let cost = |a: GridPosition, b: GridPosition| {
        find_path(&g, &request(a, b, 1000, DiagonalRule::Variant5e)).unwrap().cost
    };
    assert_eq!(cost(at(0, 0), at(1, 1)), 1);
    assert_eq!(cost(at(1, 1), at(2, 2)), 1);
    assert_eq!(cost(at(0, 0), at(2, 2)), 3);
}

#[test]
fn cheapest_cost_matches_exhaustive_search() {
    let mut g = open_grid(5, 4);
    for (x, y) in [(1, 0), (1, 1), (3, 2), (3, 3), (2, 2)] {
        g.set_terrain(at(x, y), Terrain::Blocking, None).unwrap();
    }
    g.set_terrain(at(2, 1), Terrain::Difficult, None).unwrap();
    g.set_terrain(at(0, 3), Terrain::Difficult, None).unwrap();
    g.set_terrain(at(4, 1), Terrain::Difficult, None).unwrap();
    for rule in [DiagonalRule::Disabled, DiagonalRule::Equal, DiagonalRule::Variant5e] {
        let start = at(0, 0);
        let mut best = vec![u32::MAX; 5 * 4 * 2];
        best[0] = 0;
        let mut changed = true;
        while changed {
            changed = false;
            for y in 0..4 {
                for x in 0..5 {
                    for par in 0..2u32 {
                        let here = best[((y * 5 + x) * 2) as usize + par as usize];
                        if here == u32::MAX {
                            continue;
                        }
                        for dy in -1..=1 {
                            for dx in -1..=1 {
                                let (nx, ny) = (x + dx, y + dy);
                                if (dx == 0 && dy == 0) || nx < 0 || ny < 0 || nx >= 5 || ny >= 4 {
                                    continue;
                                }
                                let diag = dx != 0 && dy != 0;
                                if diag && rule == DiagonalRule::Disabled {
                                    continue;
                                }
                                if g.is_blocking(at(nx, ny)).unwrap() {
                                    continue;
                                }
                                let c = step_cost(&g, rule, par, at(x, y), at(nx, ny));
                                let np = if diag && rule == DiagonalRule::Variant5e { 1 - par } else { par };
                                let slot = ((ny * 5 + nx) * 2) as usize + np as usize;
                                if here + c < best[slot] {
                                    best[slot] = here + c;
                                    changed = true;
                                }
                            }
                        }
                    }
                }
            }
        }
        for y in 0..4 {
            for x in 0..5 {
                let req = request(start, at(x, y), 1000, rule);
                let res = find_path(&g, &req).unwrap();
                let i = ((y * 5 + x) * 2) as usize;
                let want = best[i].min(best[i + 1]);
                if want == u32::MAX {
                    assert_eq!(res.status, PathStatus::Unreachable);
                } else {
                    assert_eq!(res.status, PathStatus::Reached);
                    assert_eq!(res.cost, want);
                    check_walk(&g, &req, &res);
                }
            }
        }
    }
}
