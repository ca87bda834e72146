use snake::block::{Block, Direction};
use snake::consts::{GRID_CELLS, GRID_HEIGHT, GRID_WIDTH, START_SIZE};

#[test]
fn grid_has_the_documented_size() {
    assert_eq!(GRID_WIDTH, 20);
    assert_eq!(GRID_HEIGHT, 12);
    assert_eq!(GRID_CELLS, 240);
    assert_eq!(START_SIZE, 5);
}

#[test]
fn all_lists_the_headings_in_order() {
    assert_eq!(
        Direction::all(),
        [Direction::Left, Direction::Right, Direction::Up, Direction::Down]
    );
}

#[test]
fn opposite_pairs_the_headings() {
    assert_eq!(Direction::Left.opposite(), Direction::Right);
    assert_eq!(Direction::Right.opposite(), Direction::Left);
    assert_eq!(Direction::Up.opposite(), Direction::Down);
    assert_eq!(Direction::Down.opposite(), Direction::Up);
}

#[test]
fn opposite_is_an_involution() {
    for dir in Direction::all() {
        assert_eq!(dir.opposite().opposite(), dir);
        assert_ne!(dir.opposite(), dir);
    }
}

#[test]
fn index_and_from_index_agree() {
    for (i, dir) in Direction::all().iter().enumerate() {
        assert_eq!(dir.index(), i as u32);
        assert_eq!(Direction::from_index(i as u32), *dir);
    }
}

#[test]
fn nth_other_skips_the_heading_to_avoid() {
    assert_eq!(Direction::nth_other(Direction::Left, 0), Direction::Right);
    assert_eq!(Direction::nth_other(Direction::Left, 1), Direction::Up);
    assert_eq!(Direction::nth_other(Direction::Left, 2), Direction::Down);
    assert_eq!(Direction::nth_other(Direction::Up, 0), Direction::Left);
    assert_eq!(Direction::nth_other(Direction::Up, 1), Direction::Right);
    assert_eq!(Direction::nth_other(Direction::Up, 2), Direction::Down);
    assert_eq!(Direction::nth_other(Direction::Down, 2), Direction::Up);
}

#[test]
fn random_other_never_gives_the_heading_to_avoid() {
    for dir in Direction::all() {
        for _ in 0..200 {
            assert_ne!(Direction::random_other(dir), dir);
        }
    }
}

#[test]
fn random_reaches_every_heading() {
    let mut seen = [false; 4];
    for _ in 0..2000 {
        seen[Direction::random().index() as usize] = true;
    }
    assert_eq!(seen, [true; 4]);
}

#[test]
fn new_keeps_the_coordinates() {
    let b = Block::new(3, 7);
    assert_eq!(b.x, 3);
    assert_eq!(b.y, 7);
    assert_eq!(b, Block { x: 3, y: 7 });
}

#[test]
fn apply_moves_by_one_cell() {
    let b = Block::new(5, 5);
    assert_eq!(b.apply(Direction::Left), Some(Block::new(4, 5)));
    assert_eq!(b.apply(Direction::Right), Some(Block::new(6, 5)));
    assert_eq!(b.apply(Direction::Up), Some(Block::new(5, 4)));
    assert_eq!(b.apply(Direction::Down), Some(Block::new(5, 6)));
}

#[test]
fn apply_stops_at_the_border() {
    assert_eq!(Block::new(0, 0).apply(Direction::Left), None);
    assert_eq!(Block::new(0, 0).apply(Direction::Up), None);
    assert_eq!(Block::new(19, 11).apply(Direction::Right), None);
    assert_eq!(Block::new(19, 11).apply(Direction::Down), None);
    assert_eq!(Block::new(18, 10).apply(Direction::Right), Some(Block::new(19, 10)));
    assert_eq!(Block::new(18, 10).apply(Direction::Down), Some(Block::new(18, 11)));
}

#[test]
fn step_and_step_back_return_to_the_origin() {
    for x in 0..GRID_WIDTH {
        for y in 0..GRID_HEIGHT {
            let origin = Block::new(x, y);
            for dir in Direction::all() {
                if let Some(next) = origin.apply(dir) {
                    assert!(next.is_in_grid());
                    assert_eq!(next.apply(dir.opposite()), Some(origin));
                }
            }
        }
    }
}

#[test]
fn manhattan_distance_adds_both_axes() {
    assert_eq!(Block::new(0, 0).manhattan_distance(Block::new(19, 11)), 30);
    assert_eq!(Block::new(3, 5).manhattan_distance(Block::new(7, 2)), 7);
    assert_eq!(Block::new(7, 2).manhattan_distance(Block::new(3, 5)), 7);
    assert_eq!(Block::new(4, 4).manhattan_distance(Block::new(4, 4)), 0);
    assert_eq!(Block::new(2, 9).manhattan_distance(Block::new(2, 1)), 8);
}

#[test]
fn is_in_grid_tells_the_border() {
    assert!(Block::new(0, 0).is_in_grid());
    assert!(Block::new(19, 11).is_in_grid());
    assert!(!Block::new(20, 0).is_in_grid());
    assert!(!Block::new(0, 12).is_in_grid());
}
