use snake::block::{Block, Direction};
use snake::game::{Food, Game, Snake};
use snake::pathfinder::{PathFindingStrategy, Step, Visit};
use snake::strategy::Strategy;
use std::collections::VecDeque;

fn game_of(cells: &[(u32, u32)], direction: Direction, food: (u32, u32)) -> Game {
    let blocks: VecDeque<Block> = cells.iter().map(|&(x, y)| Block::new(x, y)).collect();
    Game {
        snake: Snake { blocks, direction, last_growth_direction: direction },
        food: Food { block: Block::new(food.0, food.1) },
        running: true,
    }
}

fn walk(game: &Game, start: Block, path: &[Direction]) -> Block {
    let body: Vec<Block> = game.snake.blocks.iter().copied().collect();
    let obstacles = &body[..body.len() - 1];
    let mut cell = start;
    for &dir in path {
        cell = cell.apply(dir).unwrap();
        assert!(!obstacles.contains(&cell));
    }
    cell
}

const TRAP: [(u32, u32); 6] = [(1, 0), (1, 1), (0, 1), (0, 2), (0, 3), (0, 4)];

#[test]
fn step_defaults_to_an_unknown_cost() {
    let step = Step::default();
    assert_eq!(step.cost, u32::MAX);
    assert_eq!(step.direction, None);
}

#[test]
fn estimated_cost_adds_the_distance_left() {
    let visit = Visit { current: Block::new(3, 4), cost: 7, goal: Block::new(10, 1) };
    assert_eq!(visit.estimated_cost(), 17);
    let visit = Visit { current: Block::new(3, 4), cost: 0, goal: Block::new(3, 4) };
    assert_eq!(visit.estimated_cost(), 0);
}

#[test]
fn find_path_goes_straight_along_a_row() {
    let game = game_of(&[(4, 0), (3, 0), (2, 0), (1, 0), (0, 0)], Direction::Right, (10, 0));
    let path = PathFindingStrategy.find_path(&game, Block::new(4, 0), Block::new(10, 0));
    assert_eq!(path, Some(vec![Direction::Right; 6]));
}

#[test]
fn find_path_is_as_long_as_the_distance_on_open_ground() {
    let game = game_of(&[(9, 6)], Direction::Right, (0, 0));
    for x in 0..20u32 {
        for y in 0..12u32 {
            let goal = Block::new(x, y);
            let path = PathFindingStrategy.find_path(&game, Block::new(9, 6), goal).unwrap();
            assert_eq!(path.len() as u32, Block::new(9, 6).manhattan_distance(goal));
            assert_eq!(walk(&game, Block::new(9, 6), &path), goal);
        }
    }
}

#[test]
fn find_path_of_no_moves_when_already_there() {
    let game = game_of(&[(4, 0), (3, 0)], Direction::Right, (10, 0));
    let path = PathFindingStrategy.find_path(&game, Block::new(4, 0), Block::new(4, 0));
    assert_eq!(path, Some(vec![]));
}

#[test]
fn find_path_finds_no_way_off_the_grid() {
    let game = game_of(&[(4, 0), (3, 0)], Direction::Right, (10, 0));
    assert_eq!(PathFindingStrategy.find_path(&game, Block::new(4, 0), Block::new(20, 0)), None);
    assert_eq!(PathFindingStrategy.find_path(&game, Block::new(4, 0), Block::new(4, 12)), None);
}

#[test]
fn find_path_finds_no_way_into_the_body() {
    let game = game_of(&[(4, 0), (3, 0), (2, 0), (1, 0)], Direction::Right, (10, 0));
    assert_eq!(PathFindingStrategy.find_path(&game, Block::new(4, 0), Block::new(2, 0)), None);
}

#[test]
fn find_path_may_enter_the_tail_cell() {
    let game = game_of(&[(0, 0), (1, 0), (1, 1), (0, 1)], Direction::Left, (10, 0));
    let path = PathFindingStrategy.find_path(&game, Block::new(0, 0), Block::new(0, 1));
    assert_eq!(path, Some(vec![Direction::Down]));
}

#[test]
fn find_path_walks_around_the_body() {
    // The body is a wall from the top border down to row 5.
    let cells = [(5, 0), (5, 1), (5, 2), (5, 3), (5, 4), (5, 5), (5, 6)];
    let game = game_of(&cells, Direction::Up, (19, 11));
    let start = Block::new(4, 0);
    let goal = Block::new(6, 0);
    let path = PathFindingStrategy.find_path(&game, start, goal).unwrap();
    assert_eq!(walk(&game, start, &path), goal);
    assert_eq!(path.len(), 14);
}

#[test]
fn find_path_finds_no_way_out_of_an_enclosure() {
    // The body closes the top left corner off; its tail lies elsewhere.
    let cells = [(0, 2), (1, 2), (2, 2), (2, 1), (2, 0), (3, 0), (4, 0)];
    let game = game_of(&cells, Direction::Up, (10, 10));
    assert_eq!(PathFindingStrategy.find_path(&game, Block::new(0, 0), Block::new(10, 10)), None);
    let inside = PathFindingStrategy.find_path(&game, Block::new(0, 0), Block::new(1, 1));
    assert_eq!(inside.map(|p| p.len()), Some(2));
}

#[test]
fn safe_path_leads_to_the_food() {
    let game = game_of(&[(4, 0), (3, 0), (2, 0), (1, 0), (0, 0)], Direction::Right, (10, 0));
    let path = PathFindingStrategy.find_safe_path_to_food(&game);
    assert_eq!(path, Some(vec![Direction::Right; 6]));
}

#[test]
fn safe_path_is_refused_where_the_food_is_a_trap() {
    let game = game_of(&TRAP, Direction::Up, (0, 0));
    let to_food = PathFindingStrategy.find_path(&game, Block::new(1, 0), Block::new(0, 0));
    assert_eq!(to_food, Some(vec![Direction::Left]));
    assert_eq!(PathFindingStrategy.find_safe_path_to_food(&game), None);
}

#[test]
fn planner_heads_for_the_tail_where_the_food_is_a_trap() {
    let game = game_of(&TRAP, Direction::Up, (0, 0));
    let to_tail = PathFindingStrategy.find_path(&game, Block::new(1, 0), Block::new(0, 4)).unwrap();
    assert_eq!(to_tail.len(), 7);
    assert_eq!(to_tail[0], Direction::Right);
    assert_eq!(PathFindingStrategy.plan(&game), Some(Direction::Right));
    assert_eq!(PathFindingStrategy.tick(&game), Direction::Right);
}

#[test]
fn planner_goes_right_from_the_starting_position() {
    let game = game_of(&[(4, 0), (3, 0), (2, 0), (1, 0), (0, 0)], Direction::Right, (10, 0));
    assert_eq!(PathFindingStrategy.plan(&game), Some(Direction::Right));
    assert_eq!(PathFindingStrategy.tick(&game), Direction::Right);
}

#[test]
fn planner_leaves_the_round_as_it_is() {
    let game = game_of(&[(4, 0), (3, 0), (2, 0), (1, 0), (0, 0)], Direction::Right, (10, 0));
    let _ = PathFindingStrategy.tick(&game);
    let cells: Vec<(u32, u32)> = game.snake.blocks.iter().map(|b| (b.x, b.y)).collect();
    assert_eq!(cells, vec![(4, 0), (3, 0), (2, 0), (1, 0), (0, 0)]);
    assert_eq!(game.food.block, Block::new(10, 0));
    assert!(game.running);
}

#[test]
fn planner_brings_the_food_nearer_on_open_ground() {
    for hx in [0u32, 7, 19] {
        for hy in [0u32, 5, 11] {
            for fx in [0u32, 3, 12, 19] {
                for fy in [0u32, 6, 11] {
                    if (hx, hy) == (fx, fy) {
                        continue;
                    }
                    for heading in Direction::all() {
                        let game = game_of(&[(hx, hy)], heading, (fx, fy));
                        let head = Block::new(hx, hy);
                        let food = Block::new(fx, fy);
                        let dir = PathFindingStrategy.plan(&game).unwrap();
                        let next = head.apply(dir).unwrap();
                        assert_eq!(
                            next.manhattan_distance(food) + 1,
                            head.manhattan_distance(food)
                        );
                    }
                }
            }
        }
    }
}

#[test]
fn planner_has_no_choice_on_top_of_the_food() {
    let game = game_of(&[(4, 4), (3, 4), (2, 4)], Direction::Right, (4, 4));
    assert_eq!(PathFindingStrategy.find_safe_path_to_food(&game), Some(vec![]));
    assert_eq!(PathFindingStrategy.plan(&game), None);
    let _ = PathFindingStrategy.tick(&game);
}

#[test]
fn planner_has_no_choice_when_walled_in() {
    // The head sits in the corner behind its own body; food and tail are outside.
    let cells = [(0, 0), (1, 0), (1, 1), (0, 1), (0, 2), (0, 3)];
    let game = game_of(&cells, Direction::Left, (10, 10));
    assert_eq!(PathFindingStrategy.find_safe_path_to_food(&game), None);
    assert_eq!(PathFindingStrategy.plan(&game), None);
    let _ = PathFindingStrategy.tick(&game);
}
