use snake::block::{Block, Direction};
use snake::game::{Food, Game, Snake};
use snake::mcts::{play, run, Aggregate, MonteCarloStrategy, Run, DEFAULT_RUNS, MAX_STEPS};
use snake::random::RandomStrategy;
use snake::strategy::{Strategy, StrategyImpl};
use std::collections::VecDeque;

fn game_of(cells: &[(u32, u32)], direction: Direction, food: (u32, u32)) -> Game {
    let blocks: VecDeque<Block> = cells.iter().map(|&(x, y)| Block::new(x, y)).collect();
    Game {
        snake: Snake { blocks, direction, last_growth_direction: direction },
        food: Food { block: Block::new(food.0, food.1) },
        running: true,
    }
}

fn cells_of(game: &Game) -> Vec<(u32, u32)> {
    game.snake.blocks.iter().map(|b| (b.x, b.y)).collect()
}

fn tally_of(agg: &Aggregate, dir: Direction) -> Option<(u64, u64)> {
    agg.tally(dir).map(|t| (t.total, t.runs))
}

fn aggregate(runs: &[Run]) -> Aggregate {
    let mut agg = Aggregate::new();
    for &r in runs {
        agg = agg.record(r);
    }
    agg
}

fn sample() -> Vec<Run> {
    vec![
        Run { start: Direction::Up, score: 10 },
        Run { start: Direction::Right, score: 3 },
        Run { start: Direction::Up, score: 61 },
        Run { start: Direction::Down, score: 7 },
        Run { start: Direction::Right, score: 4 },
        Run { start: Direction::Up, score: 1 },
        Run { start: Direction::Down, score: 120 },
    ]
}

#[test]
fn limits_are_as_documented() {
    assert_eq!(DEFAULT_RUNS, 10_000);
    assert_eq!(MAX_STEPS, 576_000);
}

#[test]
fn play_scores_one_point_for_a_move() {
    let mut game = game_of(&[(4, 4), (3, 4), (2, 4)], Direction::Right, (10, 10));
    assert_eq!(play(&mut game, Direction::Down), (1, true));
    assert_eq!(cells_of(&game), vec![(4, 5), (4, 4), (3, 4)]);
}

#[test]
fn play_scores_the_bonus_at_the_food() {
    let mut game = game_of(&[(4, 4), (3, 4), (2, 4)], Direction::Right, (4, 3));
    assert_eq!(play(&mut game, Direction::Up), (51, true));
    assert_eq!(cells_of(&game), vec![(4, 3), (4, 4), (3, 4), (2, 4)]);
}

#[test]
fn play_ends_on_a_collision() {
    let mut game = game_of(&[(4, 0), (3, 0), (2, 0)], Direction::Right, (10, 10));
    assert_eq!(play(&mut game, Direction::Up), (1, false));
    assert_eq!(cells_of(&game), vec![(4, 0), (3, 0), (2, 0)]);
    assert_eq!(game.snake.direction, Direction::Up);
    assert!(game.running);
}

#[test]
fn play_ignores_a_reversal() {
    let mut game = game_of(&[(4, 4), (3, 4), (2, 4)], Direction::Right, (10, 10));
    assert_eq!(play(&mut game, Direction::Left), (1, true));
    assert_eq!(cells_of(&game), vec![(5, 4), (4, 4), (3, 4)]);
}

#[test]
fn run_never_starts_by_reversing() {
    let game = game_of(&[(4, 4), (3, 4), (2, 4)], Direction::Right, (10, 10));
    for _ in 0..300 {
        let r = run(&game);
        assert_ne!(r.start, Direction::Left);
        assert!(r.score >= 1);
        assert!(r.score as u64 <= 51 * MAX_STEPS as u64);
    }
    assert_eq!(cells_of(&game), vec![(4, 4), (3, 4), (2, 4)]);
}

#[test]
fn run_ends_at_once_in_a_dead_end() {
    // Every heading but the reverse leads off the grid or into the body.
    let game = game_of(&[(0, 0), (0, 1), (1, 1), (1, 0), (2, 0)], Direction::Up, (10, 10));
    for _ in 0..50 {
        let r = run(&game);
        assert_ne!(r.start, Direction::Down);
        assert_eq!(r.score, 1);
    }
}

#[test]
fn new_aggregate_is_empty() {
    let agg = Aggregate::new();
    for dir in Direction::all() {
        assert_eq!(tally_of(&agg, dir), None);
    }
    assert_eq!(agg.best(), None);
}

#[test]
fn record_adds_score_and_count() {
    let agg = aggregate(&sample());
    assert_eq!(tally_of(&agg, Direction::Up), Some((72, 3)));
    assert_eq!(tally_of(&agg, Direction::Right), Some((7, 2)));
    assert_eq!(tally_of(&agg, Direction::Down), Some((127, 2)));
    assert_eq!(tally_of(&agg, Direction::Left), None);
}

#[test]
fn merge_adds_the_tallies() {
    let a = aggregate(&[
        Run { start: Direction::Up, score: 10 },
        Run { start: Direction::Left, score: 5 },
    ]);
    let b = aggregate(&[
        Run { start: Direction::Up, score: 20 },
        Run { start: Direction::Down, score: 9 },
    ]);
    let m = a.merge(b);
    assert_eq!(tally_of(&m, Direction::Up), Some((30, 2)));
    assert_eq!(tally_of(&m, Direction::Left), Some((5, 1)));
    assert_eq!(tally_of(&m, Direction::Down), Some((9, 1)));
    assert_eq!(tally_of(&m, Direction::Right), None);
}

#[test]
fn merge_with_nothing_changes_nothing() {
    let m = aggregate(&sample()).merge(Aggregate::new());
    assert_eq!(tally_of(&m, Direction::Up), Some((72, 3)));
    let m = Aggregate::new().merge(aggregate(&sample()));
    assert_eq!(tally_of(&m, Direction::Up), Some((72, 3)));
    assert_eq!(tally_of(&m, Direction::Left), None);
}

#[test]
fn any_split_into_batches_gives_the_same_tallies() {
    let runs = sample();
    let whole = aggregate(&runs);
    for first in 0..=runs.len() {
        for second in first..=runs.len() {
            let a = aggregate(&runs[..first]);
            let b = aggregate(&runs[first..second]);
            let c = aggregate(&runs[second..]);
            let left = a.merge(b).merge(c);
            let a = aggregate(&runs[..first]);
            let b = aggregate(&runs[first..second]);
            let c = aggregate(&runs[second..]);
            let right = a.merge(b.merge(c));
            let a = aggregate(&runs[..first]);
            let b = aggregate(&runs[first..second]);
            let c = aggregate(&runs[second..]);
            let mixed = c.merge(a).merge(b);
            for dir in Direction::all() {
                assert_eq!(tally_of(&left, dir), tally_of(&whole, dir));
                assert_eq!(tally_of(&right, dir), tally_of(&whole, dir));
                assert_eq!(tally_of(&mixed, dir), tally_of(&whole, dir));
            }
        }
    }
}

#[test]
fn best_takes_the_highest_mean() {
    // Means: Up 24, Right 3.5, Down 63.5.
    assert_eq!(aggregate(&sample()).best(), Some(Direction::Down));
    let agg = aggregate(&[
        Run { start: Direction::Left, score: 100 },
        Run { start: Direction::Left, score: 1 },
        Run { start: Direction::Right, score: 51 },
    ]);
    assert_eq!(agg.best(), Some(Direction::Right));
}

#[test]
fn best_tells_means_apart_that_differ_by_a_fraction() {
    // Means: Up 10.5, Down 10.75.
    let agg = aggregate(&[
        Run { start: Direction::Up, score: 10 },
        Run { start: Direction::Up, score: 11 },
        Run { start: Direction::Down, score: 10 },
        Run { start: Direction::Down, score: 11 },
        Run { start: Direction::Down, score: 11 },
        Run { start: Direction::Down, score: 11 },
    ]);
    assert_eq!(agg.best(), Some(Direction::Down));
}

#[test]
fn best_takes_the_first_of_equal_means() {
    let agg = aggregate(&[
        Run { start: Direction::Down, score: 8 },
        Run { start: Direction::Right, score: 4 },
        Run { start: Direction::Right, score: 12 },
    ]);
    assert_eq!(agg.best(), Some(Direction::Right));
}

#[test]
fn survey_counts_every_playout() {
    let game = game_of(&[(4, 4), (3, 4), (2, 4)], Direction::Right, (10, 10));
    for n in [0u32, 1, 7, 500] {
        let agg = MonteCarloStrategy.survey(&game, n);
        let mut runs = 0;
        for dir in Direction::all() {
            if let Some((total, count)) = tally_of(&agg, dir) {
                assert!(count >= 1);
                assert!(total >= count);
                runs += count;
            }
        }
        assert_eq!(runs, n as u64);
        assert_eq!(tally_of(&agg, Direction::Left), None);
    }
}

#[test]
fn survey_scores_a_dead_end_with_one_point() {
    let game = game_of(&[(0, 0), (0, 1), (1, 1), (1, 0), (2, 0)], Direction::Up, (10, 10));
    let agg = MonteCarloStrategy.survey(&game, 300);
    let up = tally_of(&agg, Direction::Up).unwrap();
    let left = tally_of(&agg, Direction::Left).unwrap();
    let right = tally_of(&agg, Direction::Right).unwrap();
    assert_eq!(up.0, up.1);
    assert_eq!(left.0, left.1);
    assert_eq!(right.0, right.1);
    assert_eq!(up.1 + left.1 + right.1, 300);
    assert_eq!(tally_of(&agg, Direction::Down), None);
}

#[test]
fn monte_carlo_never_reverses() {
    let game = game_of(&[(4, 4), (3, 4), (2, 4)], Direction::Right, (10, 10));
    let dir = MonteCarloStrategy.tick(&game);
    assert_ne!(dir, Direction::Left);
    assert_eq!(cells_of(&game), vec![(4, 4), (3, 4), (2, 4)]);
}

#[test]
fn monte_carlo_takes_the_food_next_to_the_head() {
    // Up leads off the grid at once, Left reverses; the food lies to the right.
    let game = game_of(&[(4, 0), (3, 0), (2, 0)], Direction::Right, (5, 0));
    assert_eq!(MonteCarloStrategy.tick(&game), Direction::Right);
}

#[test]
fn random_strategy_gives_every_heading() {
    let game = game_of(&[(4, 4), (3, 4), (2, 4)], Direction::Right, (10, 10));
    let mut seen = [false; 4];
    for _ in 0..2000 {
        seen[RandomStrategy.tick(&game).index() as usize] = true;
    }
    assert_eq!(seen, [true; 4]);
}

#[test]
fn strategy_impl_hands_on_to_its_variant() {
    let game = game_of(&[(4, 0), (3, 0), (2, 0), (1, 0), (0, 0)], Direction::Right, (10, 0));
    assert_eq!(StrategyImpl::PathFinder(snake::pathfinder::PathFindingStrategy).tick(&game), Direction::Right);
    assert_ne!(StrategyImpl::MonteCarlo(MonteCarloStrategy).tick(&game), Direction::Left);
    let _ = StrategyImpl::Random(RandomStrategy).tick(&game);
}
