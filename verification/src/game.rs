//! The state of a round (snake, food, running flag) and its one-tick
//! transition.

use crate::block::{Block, Direction};
use crate::chance::random_below;
use crate::consts::{GRID_CELLS, GRID_HEIGHT, GRID_WIDTH, START_SIZE};
use std::collections::VecDeque;
use vstd::prelude::*;
use vstd::seq_lib::seq_to_set_is_finite;
use vstd::set_lib::lemma_len_subset;

verus! {

/// Mathematical model of a snake: its cells head first, its heading, and the
/// heading of its most recent advance.
pub struct SnakeView {
    pub blocks: Seq<Block>,
    pub direction: Direction,
    pub last_growth_direction: Direction,
}

impl SnakeView {
    /// A snake has at least one cell, and all its cells lie on the grid.
    pub open spec fn wf(self) -> bool {
        &&& self.blocks.len() >= 1
        &&& forall|i: int| 0 <= i < self.blocks.len() ==> (#[trigger] self.blocks[i]).in_grid()
    }

    pub open spec fn head(self) -> Block {
        self.blocks[0]
    }

    pub open spec fn tail(self) -> Block {
        self.blocks.last()
    }

    /// The cell the head moves into on the next advance, if it is on the grid.
    pub open spec fn next(self) -> Option<Block> {
        self.head().step(self.direction)
    }

    /// The cells that block a move: the body without its tail cell, which is
    /// vacated as the head arrives.
    pub open spec fn obstacles(self) -> Seq<Block> {
        self.blocks.drop_last()
    }

    /// The snake after a request to head towards `dir`: the request is ignored
    /// when `dir` reverses the heading of the most recent advance.
    pub open spec fn turned(self, dir: Direction) -> SnakeView {
        SnakeView {
            direction: if dir != self.last_growth_direction.opposite() {
                dir
            } else {
                self.direction
            },
            ..self
        }
    }

    /// The snake at the start of a round: `START_SIZE` cells along the top
    /// row, the head rightmost, heading right.
    pub open spec fn initial() -> SnakeView {
        SnakeView {
            blocks: Seq::new(START_SIZE as nat, |i: int| Block { x: (START_SIZE - 1 - i) as u32, y: 0 }),
            direction: Direction::Right,
            last_growth_direction: Direction::Right,
        }
    }
}

/// The snake: an ordered body of cells, head at the front.
pub struct Snake {
    pub blocks: VecDeque<Block>,
    pub direction: Direction,
    pub last_growth_direction: Direction,
}

impl View for Snake {
    type V = SnakeView;

    open spec fn view(&self) -> SnakeView {
        SnakeView {
            blocks: self.blocks@,
            direction: self.direction,
            last_growth_direction: self.last_growth_direction,
        }
    }
}

impl Clone for Snake {
    fn clone(&self) -> (s: Snake)
        ensures
            s@ == self@,
    {
        let mut blocks: VecDeque<Block> = VecDeque::new();
        let n: usize = self.blocks.len();
        let mut i: usize = 0;
        while i < n
            invariant
                n == self.blocks@.len(),
                i <= n,
                blocks@ == self.blocks@.take(i as int),
            decreases n - i,
        {
            blocks.push_back(self.blocks[i]);
            i += 1;
        }
        assert(blocks@ =~= self.blocks@);
        Snake {
            blocks,
            direction: self.direction,
            last_growth_direction: self.last_growth_direction,
        }
    }
}

impl Snake {
    pub fn new() -> (s: Snake)
        ensures
            s@ == SnakeView::initial(),
            s@.wf(),
    {
        let mut blocks: VecDeque<Block> = VecDeque::new();
        let mut x: u32 = 0;
        while x < START_SIZE
            invariant
                x <= START_SIZE,
                blocks@.len() == x,
                forall|i: int| 0 <= i < x ==> blocks@[i] == (Block { x: (x - 1 - i) as u32, y: 0 }),
            decreases START_SIZE - x,
        {
            blocks.push_front(Block::new(x, 0));
            x += 1;
        }
        assert(blocks@ =~= SnakeView::initial().blocks);
        Snake { blocks, direction: Direction::Right, last_growth_direction: Direction::Right }
    }

    pub fn head(&self) -> (b: Block)
        requires
            self@.blocks.len() >= 1,
        ensures
            b == self@.head(),
    {
        self.blocks[0]
    }

    pub fn last(&self) -> (b: Block)
        requires
            self@.blocks.len() >= 1,
        ensures
            b == self@.tail(),
    {
        self.blocks[self.blocks.len() - 1]
    }

    /// Requests a new heading. A request for the reverse of the heading of the
    /// most recent advance leaves the heading as it is.
    pub fn turn(&mut self, dir: Direction)
        ensures
            final(self)@ == old(self)@.turned(dir),
    {
        if dir != self.last_growth_direction.opposite() {
            self.direction = dir;
        }
    }

    /// Whether `block` is one of the snake's cells.
    pub fn occupies(&self, block: Block) -> (r: bool)
        ensures
            r == self@.blocks.contains(block),
    {
        let n: usize = self.blocks.len();
        let mut i: usize = 0;
        while i < n
            invariant
                n == self.blocks@.len(),
                i <= n,
                forall|j: int| 0 <= j < i ==> self.blocks@[j] != block,
            decreases n - i,
        {
            if self.blocks[i] == block {
                return true;
            }
            i += 1;
        }
        false
    }

    /// Whether the snake has a cell and all its cells lie on the grid.
    pub fn is_valid(&self) -> (r: bool)
        ensures
            r == self@.wf(),
    {
        let n: usize = self.blocks.len();
        if n == 0 {
            return false;
        }
        let mut i: usize = 0;
        while i < n
            invariant
                n == self.blocks@.len(),
                i <= n,
                forall|j: int| 0 <= j < i ==> (#[trigger] self.blocks@[j]).in_grid(),
            decreases n - i,
        {
            if !self.blocks[i].is_in_grid() {
                return false;
            }
            i += 1;
        }
        true
    }

    fn grow(&mut self)
        requires
            old(self)@.blocks.len() >= 1,
            old(self)@.next() is Some,
        ensures
            final(self)@.blocks == seq![old(self)@.next().unwrap()] + old(self)@.blocks,
            final(self)@.direction == old(self)@.direction,
            final(self)@.last_growth_direction == old(self)@.direction,
    {
        let next = self.head().apply(self.direction).unwrap();
        self.blocks.push_front(next);
        self.last_growth_direction = self.direction;
    }

    fn shrink(&mut self)
        ensures
            final(self)@.blocks == if old(self)@.blocks.len() > 0 {
                old(self)@.blocks.drop_last()
            } else {
                old(self)@.blocks
            },
            final(self)@.direction == old(self)@.direction,
            final(self)@.last_growth_direction == old(self)@.last_growth_direction,
    {
        self.blocks.pop_back();
    }
}

/// The goal marker.
#[derive(Clone, Copy)]
pub struct Food {
    pub block: Block,
}

impl Food {
    /// A cell of the grid, drawn at random.
    pub fn random() -> (f: Food)
        ensures
            f.block.in_grid(),
    {
        let x = random_below(GRID_WIDTH);
        let y = random_below(GRID_HEIGHT);
        Food { block: Block::new(x, y) }
    }
}

/// The cells of the grid, row by row.
pub open spec fn grid_cells() -> Seq<Block> {
    Seq::new(
        (GRID_WIDTH * GRID_HEIGHT) as nat,
        |i: int| Block { x: (i % GRID_WIDTH as int) as u32, y: (i / GRID_WIDTH as int) as u32 },
    )
}

/// Mathematical model of a round.
pub struct GameView {
    pub snake: SnakeView,
    pub food: Block,
    pub running: bool,
}

impl GameView {
    pub open spec fn wf(self) -> bool {
        self.snake.wf()
    }

    /// Whether the next advance reaches the food.
    pub open spec fn scores(self) -> bool {
        self.snake.next() == Some(self.food)
    }

    /// Whether the next advance leaves the grid or runs into the body. The
    /// tail cell does not count as body: it is vacated as the head arrives.
    pub open spec fn collides(self) -> bool {
        match self.snake.next() {
            None => true,
            Some(next) => self.snake.obstacles().contains(next),
        }
    }

    /// Whether food may be placed on `cell`: it is a cell of the grid that the
    /// snake neither occupies nor moves into on the next advance.
    pub open spec fn is_free(self, cell: Block) -> bool {
        &&& cell.in_grid()
        &&& !self.snake.blocks.contains(cell)
        &&& self.snake.next() != Some(cell)
    }

    pub open spec fn free_pred(self) -> spec_fn(Block) -> bool {
        |cell: Block| self.is_free(cell)
    }

    /// The cells on which food may be placed, row by row.
    pub open spec fn free_cells(self) -> Seq<Block> {
        grid_cells().filter(self.free_pred())
    }

    /// Whether `food` is a possible outcome of placing new food: one of the
    /// free cells, or the old food where no cell is free.
    pub open spec fn respawned(self, food: Block) -> bool {
        if self.free_cells().len() > 0 {
            self.is_free(food)
        } else {
            food == self.food
        }
    }

    /// The body after an advance that does not collide: the next cell in
    /// front, and the tail cell gone unless the advance reaches the food.
    pub open spec fn moved_body(self) -> Seq<Block> {
        if self.scores() {
            seq![self.snake.next().unwrap()] + self.snake.blocks
        } else {
            seq![self.snake.next().unwrap()] + self.snake.blocks.drop_last()
        }
    }

    /// Whether `new` is a possible state after one tick from `self`.
    ///
    /// A halted round stays as it is. A collision halts the round and changes
    /// nothing else. Otherwise the snake advances by one cell, the heading
    /// used becomes the heading of the most recent advance, and where the food
    /// is reached it is placed anew; only the new place of the food is left
    /// open.
    pub open spec fn successor(self, new: GameView) -> bool {
        if !self.running {
            new == self
        } else if self.collides() {
            new == (GameView { running: false, ..self })
        } else {
            &&& new.running
            &&& new.snake == (SnakeView {
                blocks: self.moved_body(),
                direction: self.snake.direction,
                last_growth_direction: self.snake.direction,
            })
            &&& if self.scores() {
                self.respawned(new.food)
            } else {
                new.food == self.food
            }
        }
    }
}

/// Whether `states` are the states of a round in which the headings of
/// `path` are requested one by one, each followed by a tick.
pub open spec fn is_run(path: Seq<Direction>, states: Seq<GameView>) -> bool {
    &&& states.len() == path.len() + 1
    &&& forall|i: int|
        0 <= i < path.len() ==> (#[trigger] states[i]).wf() && (GameView {
            snake: states[i].snake.turned(path[i]),
            ..states[i]
        }).successor(states[i + 1])
}

/// Whether `end` is a possible state after the headings of `path` have been
/// requested one by one, each followed by a tick.
pub open spec fn follows(game: GameView, path: Seq<Direction>, end: GameView) -> bool {
    exists|states: Seq<GameView>| #[trigger]
        is_run(path, states) && states.first() == game && states.last() == end
}

/// Nothing requested, nothing changed.
pub proof fn lemma_follows_nothing(game: GameView)
    ensures
        follows(game, Seq::<Direction>::empty(), game),
{
    assert(is_run(Seq::<Direction>::empty(), seq![game]));
}

/// One more request and tick extend what has been followed so far.
pub proof fn lemma_follows_step(
    game: GameView,
    path: Seq<Direction>,
    mid: GameView,
    dir: Direction,
    end: GameView,
)
    requires
        follows(game, path, mid),
        mid.wf(),
        (GameView { snake: mid.snake.turned(dir), ..mid }).successor(end),
    ensures
        follows(game, path.push(dir), end),
{
    let states = choose|states: Seq<GameView>| #[trigger]
        is_run(path, states) && states.first() == game && states.last() == mid;
    let longer = states.push(end);
    assert forall|i: int| 0 <= i < path.push(dir).len() implies (#[trigger] longer[i]).wf() && (
    GameView { snake: longer[i].snake.turned(path.push(dir)[i]), ..longer[i] }).successor(
        longer[i + 1],
    ) by {
        if i < path.len() {
            assert(states[i].wf());
            assert(longer[i] == states[i]);
            assert(longer[i + 1] == states[i + 1]);
        }
    }
    assert(is_run(path.push(dir), longer));
}

/// A key of the game's controls.
#[derive(Debug, Clone, Copy, PartialEq, Eq, Structural)]
pub enum Key {
    Space,
    R,
    Left,
    Right,
    Up,
    Down,
    Other,
}

/// A round: the snake, the food and the running flag.
pub struct Game {
    pub snake: Snake,
    pub food: Food,
    pub running: bool,
}

impl View for Game {
    type V = GameView;

    open spec fn view(&self) -> GameView {
        GameView { snake: self.snake@, food: self.food.block, running: self.running }
    }
}

impl Clone for Game {
    fn clone(&self) -> (g: Game)
        ensures
            g@ == self@,
    {
        Game { snake: self.snake.clone(), food: self.food, running: self.running }
    }
}

/// The reversal lock: a request for the reverse of the heading of the most
/// recent advance never changes the heading.
pub proof fn lemma_reversal_lock(snake: SnakeView)
    ensures
        snake.turned(snake.last_growth_direction.opposite()) == snake,
{
}

/// A tick of a running round whose next head position is off the grid or on
/// a body cell other than the tail halts the round and leaves the snake and
/// the food as they are.
pub proof fn lemma_collision_halts(old_game: GameView, new_game: GameView)
    requires
        old_game.running,
        old_game.successor(new_game),
        old_game.snake.next() is None || old_game.snake.obstacles().contains(
            old_game.snake.next().unwrap(),
        ),
    ensures
        !new_game.running,
        new_game.snake == old_game.snake,
        new_game.food == old_game.food,
{
}

/// A tick that reaches the food makes the snake longer by exactly one cell
/// and, where a free cell exists, puts the food on a cell of the grid that
/// the snake does not occupy after the move.
pub proof fn lemma_growth(old_game: GameView, new_game: GameView)
    requires
        old_game.wf(),
        old_game.running,
        !old_game.collides(),
        old_game.scores(),
        old_game.successor(new_game),
    ensures
        new_game.snake.blocks.len() == old_game.snake.blocks.len() + 1,
        new_game.snake.head() == old_game.food,
        old_game.free_cells().len() > 0 ==> new_game.food.in_grid()
            && !new_game.snake.blocks.contains(new_game.food),
{
    if old_game.free_cells().len() > 0 {
        let body = new_game.snake.blocks;
        if body.contains(new_game.food) {
            let i = choose|i: int| 0 <= i < body.len() && body[i] == new_game.food;
            if i > 0 {
                assert(old_game.snake.blocks[i - 1] == new_game.food);
            }
        }
    }
}

/// A tick that neither collides nor reaches the food keeps the length of the
/// snake and the food.
pub proof fn lemma_plain_move(old_game: GameView, new_game: GameView)
    requires
        old_game.wf(),
        old_game.running,
        !old_game.collides(),
        !old_game.scores(),
        old_game.successor(new_game),
    ensures
        new_game.snake.blocks.len() == old_game.snake.blocks.len(),
        new_game.snake.head() == old_game.snake.next().unwrap(),
        new_game.food == old_game.food,
{
}

/// While the snake leaves two cells of the grid or more to spare, there is a
/// cell for the food.
pub proof fn lemma_room_for_food(game: GameView)
    requires
        game.snake.blocks.len() + 2 <= GRID_CELLS,
    ensures
        game.free_cells().len() > 0,
{
    let cells = grid_cells();
    let body = game.snake.blocks;
    assert(cells.no_duplicates());
    cells.unique_seq_to_set();
    body.lemma_cardinality_of_set();
    seq_to_set_is_finite(body);
    let taken = match game.snake.next() {
        Some(next) => body.to_set().insert(next),
        None => body.to_set(),
    };
    assert(taken.finite() && taken.len() <= body.len() + 1);
    if forall|i: int| 0 <= i < cells.len() ==> !game.is_free(#[trigger] cells[i]) {
        assert forall|cell: Block| cells.to_set().contains(cell) implies taken.contains(cell) by {
            let i = choose|i: int| 0 <= i < cells.len() && cells[i] == cell;
            assert(!game.is_free(cells[i]));
        }
        lemma_len_subset(cells.to_set(), taken);
    }
    let i = choose|i: int| 0 <= i < cells.len() && game.is_free(#[trigger] cells[i]);
    assert(game.free_pred()(cells[i]));
    cells.lemma_filter_contains(game.free_pred(), i);
}

/// At the start of a round there is a cell for the food.
pub proof fn lemma_initial_has_free_cell(game: GameView)
    requires
        game.snake == SnakeView::initial(),
    ensures
        game.free_cells().len() > 0,
{
    let cell = Block { x: 0, y: 1 };
    assert(grid_cells()[20] == cell);
    assert(game.is_free(cell));
    assert(game.free_pred()(grid_cells()[20]));
    grid_cells().lemma_filter_contains(game.free_pred(), 20);
    assert(game.free_cells().contains(cell));
}

impl Game {
    /// A fresh round: the snake in its starting position, food on a free
    /// cell, running.
    pub fn new() -> (g: Game)
        ensures
            g@.snake == SnakeView::initial(),
            g@.running,
            g@.is_free(g@.food),
            g@.wf(),
    {
        let mut game = Game {
            snake: Snake::new(),
            food: Food { block: Block::new(0, 0) },
            running: true,
        };
        game.init();
        game
    }

    /// Advances the round by one tick.
    pub fn update(&mut self)
        requires
            old(self)@.snake.blocks.len() >= 1,
        ensures
            old(self)@.successor(final(self)@),
            final(self)@.snake.blocks.len() >= 1,
            old(self)@.wf() ==> final(self)@.wf(),
    {
        if !self.running {
            return ;
        }
        if self.collides() {
            self.running = false;
            return ;
        }
        let eats = self.scores();
        if eats {
            self.spawn_food();
        }
        self.snake.grow();
        if !eats {
            self.snake.shrink();
        }
        proof {
            let old_v = old(self)@;
            let next = old_v.snake.next().unwrap();
            assert(old_v.snake.head().in_grid() ==> next.in_grid());
            assert((seq![next] + old_v.snake.blocks).drop_last() =~= seq![next]
                + old_v.snake.blocks.drop_last());
            assert(self@.snake.blocks =~= old_v.moved_body());
        }
    }

    /// Applies a key of the controls: space halts or resumes the round, `R`
    /// restarts it, an arrow requests a heading, any other key does nothing.
    pub fn key(&mut self, key: Key)
        ensures
            match key {
                Key::Space => final(self)@ == (GameView {
                    running: !old(self)@.running,
                    ..old(self)@
                }),
                Key::R => {
                    &&& final(self)@.snake == SnakeView::initial()
                    &&& final(self)@.running
                    &&& final(self)@.is_free(final(self)@.food)
                },
                Key::Left => final(self)@ == (GameView {
                    snake: old(self)@.snake.turned(Direction::Left),
                    ..old(self)@
                }),
                Key::Right => final(self)@ == (GameView {
                    snake: old(self)@.snake.turned(Direction::Right),
                    ..old(self)@
                }),
                Key::Up => final(self)@ == (GameView {
                    snake: old(self)@.snake.turned(Direction::Up),
                    ..old(self)@
                }),
                Key::Down => final(self)@ == (GameView {
                    snake: old(self)@.snake.turned(Direction::Down),
                    ..old(self)@
                }),
                Key::Other => final(self)@ == old(self)@,
            },
            old(self)@.wf() ==> final(self)@.wf(),
    {
        match key {
            Key::Space => {
                self.running = !self.running;
            },
            Key::R => {
                self.init();
            },
            Key::Left => {
                self.snake.turn(Direction::Left);
            },
            Key::Right => {
                self.snake.turn(Direction::Right);
            },
            Key::Up => {
                self.snake.turn(Direction::Up);
            },
            Key::Down => {
                self.snake.turn(Direction::Down);
            },
            Key::Other => {},
        }
    }

    /// Restarts the round in place.
    pub fn init(&mut self)
        ensures
            final(self)@.snake == SnakeView::initial(),
            final(self)@.running,
            final(self)@.is_free(final(self)@.food),
            final(self)@.wf(),
    {
        self.snake = Snake::new();
        proof {
            lemma_initial_has_free_cell(self@);
        }
        self.spawn_food();
        self.running = true;
    }

    /// Whether food may be placed on `cell`.
    pub fn accepts(&self, cell: Block) -> (r: bool)
        requires
            self@.snake.blocks.len() >= 1,
        ensures
            r == self@.is_free(cell),
    {
        if !cell.is_in_grid() || self.snake.occupies(cell) {
            return false;
        }
        match self.snake.head().apply(self.snake.direction) {
            Some(next) => next != cell,
            None => true,
        }
    }

    /// The cells on which food may be placed, row by row.
    pub fn free_cells(&self) -> (cells: Vec<Block>)
        requires
            self@.snake.blocks.len() >= 1,
        ensures
            cells@ == self@.free_cells(),
            cells@.len() <= GRID_WIDTH * GRID_HEIGHT,
    {
        let mut cells: Vec<Block> = Vec::new();
        let total: u32 = GRID_WIDTH * GRID_HEIGHT;
        let mut i: u32 = 0;
        proof {
            reveal(Seq::filter);
            assert(grid_cells().take(0) =~= Seq::<Block>::empty());
        }
        while i < total
            invariant
                total == GRID_WIDTH * GRID_HEIGHT,
                i <= total,
                self@.snake.blocks.len() >= 1,
                cells@ == grid_cells().take(i as int).filter(self@.free_pred()),
                cells@.len() <= i,
            decreases total - i,
        {
            let cell = Block::new(i % GRID_WIDTH, i / GRID_WIDTH);
            let free = self.accepts(cell);
            proof {
                reveal(Seq::filter);
                let prefix = grid_cells().take(i + 1);
                assert(prefix.drop_last() =~= grid_cells().take(i as int));
                assert(prefix.last() == cell);
                assert(self@.free_pred()(cell) == free);
            }
            if free {
                cells.push(cell);
            }
            i += 1;
        }
        assert(grid_cells().take(total as int) =~= grid_cells());
        cells
    }

    /// Places the food on the free cell of the given rank, counting row by
    /// row from zero. Where there is no such cell nothing changes.
    pub fn spawn_food_at(&mut self, rank: usize)
        requires
            old(self)@.snake.blocks.len() >= 1,
        ensures
            final(self)@.snake == old(self)@.snake,
            final(self)@.running == old(self)@.running,
            final(self)@.food == if rank < old(self)@.free_cells().len() {
                old(self)@.free_cells()[rank as int]
            } else {
                old(self)@.food
            },
    {
        let cells = self.free_cells();
        if rank < cells.len() {
            self.food = Food { block: cells[rank] };
        }
    }

    /// Places the food on a free cell drawn at random, each free cell being
    /// as likely as any other. Where no cell is free the food stays.
    pub fn spawn_food(&mut self)
        requires
            old(self)@.snake.blocks.len() >= 1,
        ensures
            final(self)@.snake == old(self)@.snake,
            final(self)@.running == old(self)@.running,
            old(self)@.respawned(final(self)@.food),
    {
        let count = self.free_cells().len();
        if count > 0 {
            let rank = random_below(count as u32);
            proof {
                grid_cells().lemma_filter_pred(self@.free_pred(), rank as int);
            }
            self.spawn_food_at(rank as usize);
        }
    }

    /// Whether the next advance reaches the food.
    pub fn scores(&self) -> (r: bool)
        requires
            self@.snake.blocks.len() >= 1,
        ensures
            r == self@.scores(),
    {
        match self.snake.head().apply(self.snake.direction) {
            Some(next) => next == self.food.block,
            None => false,
        }
    }

    /// Whether the next advance leaves the grid or runs into the body.
    pub fn collides(&self) -> (r: bool)
        requires
            self@.snake.blocks.len() >= 1,
        ensures
            r == self@.collides(),
    {
        let head = self.snake.head();
        match head.apply(self.snake.direction) {
            None => true,
            Some(next) => {
                let limit: usize = self.snake.blocks.len() - 1;
                let mut i: usize = 1;
                assert(head != next);
                while i < limit
                    invariant
                        limit == self@.snake.blocks.len() - 1,
                        1 <= i,
                        self@.snake.next() == Some(next),
                        forall|j: int| 0 <= j < i && j < limit ==> self@.snake.blocks[j] != next,
                    decreases limit - i,
                {
                    if self.snake.blocks[i] == next {
                        assert(self@.snake.obstacles()[i as int] == next);
                        return true;
                    }
                    i += 1;
                }
                assert(forall|j: int|
                    0 <= j < self@.snake.obstacles().len() ==> self@.snake.obstacles()[j]
                        == self@.snake.blocks[j]);
                false
            },
        }
    }

    /// Whether the round satisfies what the other operations ask of it.
    pub fn is_valid(&self) -> (r: bool)
        ensures
            r == self@.wf(),
    {
        self.snake.is_valid()
    }
}

} // verus!
