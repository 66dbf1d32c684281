use s4mc_pathing::action::{default_moveset, moveset_2d_cardinal, MoveAction, SpatialAction};
use s4mc_pathing::algorithm::{over_budget, PathCalculator, SearchStep};
use s4mc_pathing::config::Configuration;
use s4mc_pathing::data::PathNode;
use s4mc_pathing::math::{Vector2i, Vector3i};
use s4mc_pathing::position::GraphPosition;
use s4mc_pathing::world::{FlatSpace, Space, VoxelSpace};

fn vec2i(x: i32, y: i32) -> Vector2i {
    Vector2i::new(x, y)
}

struct PathfindingScenario2D {
    calc: PathCalculator<Vector2i, FlatSpace>,
    moveset: Vec<MoveAction<Vector2i>>,
}

impl PathfindingScenario2D {
    fn new(environment: Vec<&'static str>, moveset: Vec<MoveAction<Vector2i>>) -> PathfindingScenario2D {
        let config = Configuration::new();
        let space = FlatSpace::new(environment, config);
        PathfindingScenario2D { calc: PathCalculator::new(moveset.clone(), config, space), moveset }
    }

    fn eval(&mut self, start: Vector2i, end: Vector2i, follow: Vec<&'static str>) {
        let out = self.calc.calculate(start, end);
        assert!(out.is_ok(), "Pathfinder failed to calculate a path entirely");
        let path = out.unwrap();
        assert!(path.len() > 0, "Pathfinder returned an empty path");

        let target_path: Vec<Vector2i> = self.to_positions(start, end, follow);
        let res_path: Vec<Vector2i> = path.iter().map(|pn| pn.action.pos).collect();
        assert_eq!(target_path.len(), res_path.len(), "Paths did not have equal length");
        for i in 0..path.len() {
            assert_eq!(target_path[i], res_path[i], "Pathfinder did not choose the optimal path");
        }
        self.calc.reset()
    }

    fn to_positions(&self, start: Vector2i, end: Vector2i, follow: Vec<&'static str>) -> Vec<Vector2i> {
        let mut out_path: Vec<Vector2i> = Vec::new();
        let mut current = start;
        out_path.push(start);

        while current != end {
            let mut pushed = false;
            for m in self.moveset.iter() {
                let new_pos = current.offset_by(m.offset);
                if new_pos.x < 0 || new_pos.y < 0 || out_path.contains(&new_pos) {
                    continue;
                }
                let cell = follow.get(new_pos.y as usize).and_then(|row| row.chars().nth(new_pos.x as usize));
                if cell == Some('O') {
                    out_path.push(new_pos);
                    current = new_pos;
                    pushed = true;
                    break;
                }
            }
            if !pushed {
                break;
            }
        }

        out_path
    }

    fn eval_success(&mut self, start: Vector2i, end: Vector2i) {
        let out = self.calc.calculate(start, end);
        assert!(out.is_ok(), "Pathfinder failed to calculate a path entirely");
        let path = out.unwrap();
        assert!(path.len() > 0, "Pathfinder returned an empty path");
        assert_eq!(path.last().unwrap().action.pos, end, "Pathfinder did not reach the end successfully");
        assert_eq!(path[0].action, SpatialAction::new_root(start));
        self.calc.reset()
    }

    fn eval_failure(&mut self, start: Vector2i, end: Vector2i) {
        let out = self.calc.calculate(start, end);
        assert!(out.is_ok());
        assert!(out.unwrap().is_empty(), "Pathfinder calculated an impossible path");
        self.calc.reset();
    }
}

fn edge_cost_sum(moves: &[MoveAction<Vector2i>], path: &[PathNode<Vector2i>]) -> u64 {
    path.iter().filter_map(|n| n.action.edge).map(|e| moves[e].cost).sum()
}

#[test]
fn scenario_from_str() {
    let scenario = PathfindingScenario2D::new(
        vec!["_____", "_____", "_____", "_____", "_____"],
        moveset_2d_cardinal(),
    );

    let conv_path1 = scenario.to_positions(
        vec2i(0, 0),
        vec2i(4, 0),
        vec!["OOOOO", "_____", "_____", "_____", "_____"],
    );
    assert_eq!(
        conv_path1,
        vec![vec2i(0, 0), vec2i(1, 0), vec2i(2, 0), vec2i(3, 0), vec2i(4, 0)],
        "Failed to convert FlatSpace to a path"
    );
    let conv_path2 = scenario.to_positions(
        vec2i(0, 0),
        vec2i(0, 4),
        vec!["O____", "O____", "O____", "O____", "O____"],
    );
    assert_eq!(
        conv_path2,
        vec![vec2i(0, 0), vec2i(0, 1), vec2i(0, 2), vec2i(0, 3), vec2i(0, 4)],
        "Failed to convert FlatSpace to a path"
    );

    let conv_path3 = scenario.to_positions(
        vec2i(0, 0),
        vec2i(4, 4),
        vec!["O_OOO", "O_O_O", "O_O_O", "O_O_O", "OOO_O"],
    );
    assert_eq!(
        conv_path3,
        vec![
            vec2i(0, 0), vec2i(0, 1), vec2i(0, 2), vec2i(0, 3), vec2i(0, 4),
            vec2i(1, 4),
            vec2i(2, 4), vec2i(2, 3), vec2i(2, 2), vec2i(2, 1), vec2i(2, 0),
            vec2i(3, 0),
            vec2i(4, 0), vec2i(4, 1), vec2i(4, 2), vec2i(4, 3), vec2i(4, 4)
        ],
        "Failed to convert FlatSpace to a path"
    );
}

#[test]
fn pathfinder_trivial() {
    let mut scenario = PathfindingScenario2D::new(vec!["O_G"], moveset_2d_cardinal());

    scenario.eval_success(vec2i(0, 0), vec2i(2, 0));
}

#[test]
fn pathfinder_trivial_large() {
    let mut scenario = PathfindingScenario2D::new(
        vec!["O____G", "_____", "_____", "_____", "O___O"],
        moveset_2d_cardinal(),
    );

    scenario.eval_success(vec2i(0, 0), vec2i(4, 4));
    scenario.eval_success(vec2i(0, 4), vec2i(4, 4));
    scenario.eval_success(vec2i(4, 0), vec2i(4, 4));
}

#[test]
fn pathfinder_trivial_blocked() {
    let mut scenario = PathfindingScenario2D::new(
        vec!["OX_XG", "XX_XX", "_____", "XX_XX", "OX_XO"],
        moveset_2d_cardinal(),
    );

    scenario.eval_failure(vec2i(0, 0), vec2i(4, 4));
    scenario.eval_failure(vec2i(0, 4), vec2i(4, 4));
    scenario.eval_failure(vec2i(4, 0), vec2i(4, 4));
    scenario.eval_failure(vec2i(2, 2), vec2i(4, 4));
}

#[test]
fn pathfinder_maze_simple() {
    let mut scenario = PathfindingScenario2D::new(
        vec!["OX_XG", "_X_X_", "_X_X_", "_XXX_", "_____"],
        moveset_2d_cardinal(),
    );

    scenario.eval_success(vec2i(0, 0), vec2i(4, 4));
    scenario.eval_success(vec2i(0, 4), vec2i(4, 4));
}

#[test]
fn pathfinder_maze_shortcut() {
    let mut scenario = PathfindingScenario2D::new(
        vec!["OX_XG", "_X_X_", "_____", "_XXX_", "_____"],
        moveset_2d_cardinal(),
    );

    scenario.eval(
        vec2i(0, 0),
        vec2i(4, 0),
        vec!["O___O", "O___O", "OOOOO", "_____", "_____"],
    );
}

#[test]
fn pathfinder_maze_complex() {
    let mut scenario = PathfindingScenario2D::new(
        vec![
            "OX____XXXX",
            "_X__X__XX_",
            "_X__X_____",
            "_XX_XXX__X",
            "____XG__XX",
            "_X_XXXX__X",
            "XX____X___",
            "____X___XX",
            "__X_XXX___",
            "XXX_____XX",
        ],
        moveset_2d_cardinal(),
    );

    // the goal `G` is drawn at column 5 of row 4; the one cheapest route
    // (19 moves) leaves the top-left region through row 6
    scenario.eval(
        vec2i(0, 0),
        vec2i(5, 4),
        vec![
            "O_________",
            "O_________",
            "O_________",
            "O_________",
            "OOO__OOO__",
            "__O____O__",
            "__OOOO_O__",
            "_____OOO__",
            "__________",
            "__________",
        ],
    );
}

#[test]
fn corridor_gives_three_node_path() {
    let moves = moveset_2d_cardinal();
    let mut calc = PathCalculator::new(moves.clone(), Configuration::new(), FlatSpace::new(vec!["O_G"], Configuration::new()));
    let path = calc.calculate(vec2i(0, 0), vec2i(2, 0)).unwrap();
    let positions: Vec<Vector2i> = path.iter().map(|n| n.action.pos).collect();
    assert_eq!(positions, vec![vec2i(0, 0), vec2i(1, 0), vec2i(2, 0)]);
    assert_eq!(path[0].action.edge, None);
    assert_eq!(path[1].action.edge, Some(0));
    assert_eq!(path[2].action.edge, Some(0));
    assert_eq!(edge_cost_sum(&moves, &path), 200);
}

#[test]
fn walled_grid_gives_empty_path() {
    let mut calc = PathCalculator::new(
        moveset_2d_cardinal(),
        Configuration::new(),
        FlatSpace::new(vec!["OXXXX", "XXXXX", "XXXXX", "XXXXX", "XXXXG"], Configuration::new()),
    );
    assert!(calc.calculate(vec2i(0, 0), vec2i(4, 4)).unwrap().is_empty());
    assert!(calc.calculate(vec2i(4, 4), vec2i(0, 0)).unwrap().is_empty());
}

#[test]
fn start_at_goal_gives_single_node() {
    let mut calc = PathCalculator::new(moveset_2d_cardinal(), Configuration::new(), FlatSpace::new(vec!["O_G"], Configuration::new()));
    let path = calc.calculate(vec2i(1, 0), vec2i(1, 0)).unwrap();
    assert_eq!(path, vec![PathNode::new(SpatialAction::new_root(vec2i(1, 0)))]);
}

#[test]
fn cheapest_route_avoids_hazard() {
    // straight through the hazard costs (1+5) + (1+5) + (1+1) units; around it 5 * (1+1)
    let moves = moveset_2d_cardinal();
    let mut calc = PathCalculator::new(
        moves.clone(),
        Configuration::new(),
        FlatSpace::new(vec!["O**G", "____"], Configuration::new()),
    );
    let path = calc.calculate(vec2i(0, 0), vec2i(3, 0)).unwrap();
    let positions: Vec<Vector2i> = path.iter().map(|n| n.action.pos).collect();
    assert_eq!(
        positions,
        vec![vec2i(0, 0), vec2i(0, 1), vec2i(1, 1), vec2i(2, 1), vec2i(3, 1), vec2i(3, 0)]
    );
}

#[test]
fn equal_cost_optima_give_a_shortest_path() {
    let moves = moveset_2d_cardinal();
    let mut calc = PathCalculator::new(
        moves.clone(),
        Configuration::new(),
        FlatSpace::new(vec!["O__", "___", "__G"], Configuration::new()),
    );
    let path = calc.calculate(vec2i(0, 0), vec2i(2, 2)).unwrap();
    assert_eq!(path.len(), 5);
    assert_eq!(edge_cost_sum(&moves, &path), 400);
    for w in path.windows(2) {
        let step = w[1].action;
        assert_eq!(step.pos, w[0].action.pos.offset_by(moves[step.edge.unwrap()].offset));
    }
}

#[test]
fn reset_then_reuse_matches_fresh_calculator() {
    let plane = vec!["OX_XG", "_X_X_", "_____", "_XXX_", "_____"];
    let mut reused = PathCalculator::new(moveset_2d_cardinal(), Configuration::new(), FlatSpace::new(plane.clone(), Configuration::new()));
    let first = reused.calculate(vec2i(0, 0), vec2i(4, 0)).unwrap();
    assert!(!first.is_empty());
    reused.reset();
    let again = reused.calculate(vec2i(4, 4), vec2i(0, 4)).unwrap();
    let mut fresh = PathCalculator::new(moveset_2d_cardinal(), Configuration::new(), FlatSpace::new(plane, Configuration::new()));
    let expected = fresh.calculate(vec2i(4, 4), vec2i(0, 4)).unwrap();
    assert_eq!(again, expected);
    assert_eq!(again.len(), 5);
}

#[test]
fn same_cell_through_two_edges_is_two_identities() {
    // two moves with the same offset reach the same cell by different edges
    let moves = vec![
        MoveAction { cost: 100, offset: vec2i(1, 0) },
        MoveAction { cost: 300, offset: vec2i(1, 0) },
    ];
    let mut calc = PathCalculator::new(moves.clone(), Configuration::new(), FlatSpace::new(vec!["O_G"], Configuration::new()));
    let path = calc.calculate(vec2i(0, 0), vec2i(2, 0)).unwrap();
    assert_eq!(path.len(), 3);
    assert_eq!(path[1].action, SpatialAction::new(vec2i(1, 0), 0));
    assert_eq!(path[2].action, SpatialAction::new(vec2i(2, 0), 0));
    assert_ne!(SpatialAction::new(vec2i(1, 0), 0), SpatialAction::new(vec2i(1, 0), 1));
}

#[test]
fn flat_space_costs() {
    let config = Configuration::new();
    let space = FlatSpace::new(vec!["O*X", "_G?"], config);
    assert_eq!(space.material_cost(vec2i(0, 0)), 100);
    assert_eq!(space.material_cost(vec2i(1, 0)), 500);
    assert_eq!(space.material_cost(vec2i(2, 0)), config.cost_inf);
    assert_eq!(space.material_cost(vec2i(0, 1)), 100);
    assert_eq!(space.material_cost(vec2i(1, 1)), 100);
    assert_eq!(space.material_cost(vec2i(2, 1)), config.cost_inf);
    assert_eq!(space.material_cost(vec2i(3, 0)), config.cost_inf);
    assert_eq!(space.material_cost(vec2i(-1, 0)), config.cost_inf);
    assert_eq!(space.material_cost(vec2i(0, 2)), config.cost_inf);
}

#[test]
fn same_position_by_two_edges_has_two_costs() {
    let moves = vec![
        MoveAction { cost: 100, offset: vec2i(1, 0) },
        MoveAction { cost: 300, offset: vec2i(1, 0) },
    ];
    let mut calc = PathCalculator::new(moves, Configuration::new(), FlatSpace::new(vec!["O__G"], Configuration::new()));
    calc.begin(vec2i(0, 0), vec2i(3, 0));
    assert_eq!(calc.visited_count(), 1);
    match calc.step(&vec2i(3, 0)) {
        SearchStep::Expanded(n) => assert_eq!(n.id, 0),
        _ => panic!("the root was not expanded"),
    }
    assert_eq!(calc.visited_count(), 3);
    let walk = calc.visited_node(1).unwrap();
    let jump = calc.visited_node(2).unwrap();
    assert_eq!(walk.action, SpatialAction::new(vec2i(1, 0), 0));
    assert_eq!(jump.action, SpatialAction::new(vec2i(1, 0), 1));
    assert_eq!(walk.g_cost, 200);
    assert_eq!(jump.g_cost, 400);
    assert_eq!(walk.parent, Some(0));
    assert!(calc.visited_node(3).is_none());
}

#[test]
fn steps_of_a_corridor_search() {
    let mut calc = PathCalculator::new(moveset_2d_cardinal(), Configuration::new(), FlatSpace::new(vec!["O_G"], Configuration::new()));
    let end = vec2i(2, 0);
    calc.begin(vec2i(0, 0), end);
    let root = calc.visited_node(0).unwrap();
    assert_eq!(root.g_cost, 0);
    assert_eq!(root.h_cost, 200);
    match calc.step(&end) {
        SearchStep::Expanded(n) => assert_eq!(n.action, SpatialAction::new_root(vec2i(0, 0))),
        _ => panic!("the root was not expanded"),
    }
    // the four neighbors of the root are in the store; only (1, 0) is passable
    assert_eq!(calc.visited_count(), 5);
    match calc.step(&end) {
        SearchStep::Expanded(n) => {
            assert_eq!(n.action.pos, vec2i(1, 0));
            assert_eq!(n.g_cost, 200);
            assert_eq!(n.h_cost, 100);
        }
        _ => panic!("the middle was not expanded"),
    }
    match calc.step(&end) {
        SearchStep::Found(n, path) => {
            assert_eq!(n.g_cost, 400);
            assert_eq!(path.len(), 3);
            assert_eq!(path[2].action, n.action);
        }
        _ => panic!("the goal was not found"),
    }
}

#[test]
fn exhausted_search_reports_it() {
    let mut calc = PathCalculator::new(moveset_2d_cardinal(), Configuration::new(), FlatSpace::new(vec!["OX", "XG"], Configuration::new()));
    let end = vec2i(1, 1);
    calc.begin(vec2i(0, 0), end);
    assert!(matches!(calc.step(&end), SearchStep::Expanded(_)));
    assert!(matches!(calc.step(&end), SearchStep::Exhausted));
    assert!(matches!(calc.step(&end), SearchStep::Exhausted));
}

#[test]
fn time_budget_ends_search_with_empty_path() {
    let mut config = Configuration::new();
    config.timeout_millis = 0;
    let mut calc = PathCalculator::new(default_moveset(), config, VoxelSpace::new());
    let start = Vector3i::new(0, 0, 0);
    // tens of millions of expansions away: only the time budget can end this search
    let path = calc.calculate(start, Vector3i::new(50_000_000, 0, 0)).unwrap();
    assert!(path.is_empty());
    let near = calc.calculate(start, start).unwrap();
    assert_eq!(near, vec![PathNode::new(SpatialAction::new_root(start))]);
}

#[test]
fn known_identities_are_found_again() {
    // the cheaper walk reaches each cell first; expanding the costlier one
    // resolves the same neighbor identities again instead of adding nodes
    let moves = vec![
        MoveAction { cost: 100, offset: vec2i(1, 0) },
        MoveAction { cost: 150, offset: vec2i(1, 0) },
    ];
    let mut calc = PathCalculator::new(moves, Configuration::new(), FlatSpace::new(vec!["O__G"], Configuration::new()));
    let path = calc.calculate(vec2i(0, 0), vec2i(3, 0)).unwrap();
    let edges: Vec<Option<usize>> = path.iter().map(|n| n.action.edge).collect();
    assert_eq!(edges, vec![None, Some(0), Some(0), Some(0)]);
    assert_eq!(calc.visited_count(), 7);
}

#[test]
fn budget_comparison() {
    assert!(!over_budget(2000, 2000));
    assert!(over_budget(2001, 2000));
    assert!(!over_budget(0, 0));
    assert!(over_budget(1, 0));
}

#[test]
fn new_calculator_holds_no_state() {
    let mut calc = PathCalculator::new(moveset_2d_cardinal(), Configuration::new(), FlatSpace::new(vec!["O_G"], Configuration::new()));
    assert_eq!(calc.visited_count(), 0);
    assert_eq!(calc.open_len(), 0);
    calc.begin(vec2i(0, 0), vec2i(2, 0));
    assert_eq!(calc.open_len(), 1);
    calc.reset();
    assert_eq!(calc.visited_count(), 0);
    assert_eq!(calc.open_len(), 0);
}
