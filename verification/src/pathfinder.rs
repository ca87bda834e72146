//! Shortest-path planning with a look-ahead for the snake's own tail.

use crate::block::{lemma_distance_step, lemma_step_back, Block, Direction};
use crate::consts::{GRID_CELLS, GRID_HEIGHT, GRID_WIDTH};
use crate::game::{follows, lemma_follows_nothing, lemma_follows_step, Game, GameView};
use crate::strategy::Strategy;
use crate::table::{lookup, store};
use fnv::FnvHashMap;
use vstd::prelude::*;

verus! {

/// The cell reached from `start` by the moves of `path`, provided every move
/// stays on the grid and enters no cell of `obstacles`.
pub open spec fn walk_end(obstacles: Seq<Block>, start: Block, path: Seq<Direction>) -> Option<
    Block,
>
    decreases path.len(),
{
    if path.len() == 0 {
        Some(start)
    } else {
        match walk_end(obstacles, start, path.drop_last()) {
            Some(cell) => match cell.step(path.last()) {
                Some(next) => if obstacles.contains(next) {
                    None
                } else {
                    Some(next)
                },
                None => None,
            },
            None => None,
        }
    }
}

/// Whether `path` leads from `start` to `goal` around `obstacles`.
pub open spec fn is_path(obstacles: Seq<Block>, start: Block, goal: Block, path: Seq<Direction>) -> bool {
    walk_end(obstacles, start, path) == Some(goal)
}

/// Whether some path leads from `start` to `goal` around `obstacles`.
pub open spec fn reachable(obstacles: Seq<Block>, start: Block, goal: Block) -> bool {
    exists|path: Seq<Direction>| is_path(obstacles, start, goal, path)
}

/// Whether `path` leads from `start` to `goal` and no path does so in fewer
/// moves.
pub open spec fn is_shortest_path(
    obstacles: Seq<Block>,
    start: Block,
    goal: Block,
    path: Seq<Direction>,
) -> bool {
    &&& is_path(obstacles, start, goal, path)
    &&& forall|other: Seq<Direction>| #[trigger]
        is_path(obstacles, start, goal, other) ==> path.len() <= other.len()
}

/// A path from a cell of the grid ends on the grid.
pub proof fn lemma_walk_in_grid(obstacles: Seq<Block>, start: Block, path: Seq<Direction>)
    requires
        start.in_grid(),
        walk_end(obstacles, start, path) is Some,
    ensures
        walk_end(obstacles, start, path).unwrap().in_grid(),
    decreases path.len(),
{
    if path.len() > 0 {
        lemma_walk_in_grid(obstacles, start, path.drop_last());
    }
}

/// A path can be extended at its front by one legal move.
pub proof fn lemma_walk_prepend(
    obstacles: Seq<Block>,
    from: Block,
    dir: Direction,
    path: Seq<Direction>,
)
    requires
        from.step(dir) is Some,
        !obstacles.contains(from.step(dir).unwrap()),
    ensures
        walk_end(obstacles, from, seq![dir] + path) == walk_end(
            obstacles,
            from.step(dir).unwrap(),
            path,
        ),
    decreases path.len(),
{
    let whole = seq![dir] + path;
    if path.len() == 0 {
        assert(whole.drop_last() =~= Seq::<Direction>::empty());
        assert(walk_end(obstacles, from, whole.drop_last()) == Some(from));
    } else {
        assert(whole.drop_last() =~= seq![dir] + path.drop_last());
        lemma_walk_prepend(obstacles, from, dir, path.drop_last());
    }
}

/// A path is at least as long as the distance between its ends.
pub proof fn lemma_walk_distance(obstacles: Seq<Block>, start: Block, path: Seq<Direction>)
    requires
        walk_end(obstacles, start, path) is Some,
    ensures
        start.distance(walk_end(obstacles, start, path).unwrap()) <= path.len(),
    decreases path.len(),
{
    if path.len() > 0 {
        let before = walk_end(obstacles, start, path.drop_last()).unwrap();
        lemma_walk_distance(obstacles, start, path.drop_last());
        lemma_distance_step(before, path.last(), start);
    }
}

/// A path with at least one move starts with a legal move, and what is left
/// of it leads on from there.
pub proof fn lemma_walk_first(obstacles: Seq<Block>, start: Block, path: Seq<Direction>)
    requires
        path.len() > 0,
        walk_end(obstacles, start, path) is Some,
    ensures
        start.step(path[0]) is Some,
        !obstacles.contains(start.step(path[0]).unwrap()),
        walk_end(obstacles, start.step(path[0]).unwrap(), path.drop_first()) == walk_end(
            obstacles,
            start,
            path,
        ),
    decreases path.len(),
{
    if path.len() == 1 {
        assert(path.drop_last() =~= Seq::<Direction>::empty());
        assert(path.drop_first() =~= Seq::<Direction>::empty());
    } else {
        lemma_walk_first(obstacles, start, path.drop_last());
        assert(path.drop_last().drop_first() =~= path.drop_first().drop_last());
        assert(path.drop_last()[0] == path[0]);
        assert(path.drop_first().last() == path.last());
    }
}

/// Where nothing is in the way, some path between two cells of the grid is
/// exactly as long as their distance.
pub proof fn lemma_direct_path(start: Block, goal: Block) -> (path: Seq<Direction>)
    requires
        start.in_grid(),
        goal.in_grid(),
    ensures
        is_path(Seq::<Block>::empty(), start, goal, path),
        path.len() == start.distance(goal),
    decreases start.distance(goal),
{
    if start == goal {
        Seq::<Direction>::empty()
    } else {
        let dir = if start.x > goal.x {
            Direction::Left
        } else if start.x < goal.x {
            Direction::Right
        } else if start.y > goal.y {
            Direction::Up
        } else {
            Direction::Down
        };
        let next = start.step(dir).unwrap();
        let rest = lemma_direct_path(next, goal);
        lemma_walk_prepend(Seq::<Block>::empty(), start, dir, rest);
        seq![dir] + rest
    }
}

/// On a grid with nothing in the way, a shortest path between two different
/// cells is as long as their distance, and its first move brings the goal
/// nearer by exactly one.
pub proof fn lemma_open_grid_first_step(start: Block, goal: Block, path: Seq<Direction>)
    requires
        start.in_grid(),
        goal.in_grid(),
        start != goal,
        is_shortest_path(Seq::<Block>::empty(), start, goal, path),
    ensures
        path.len() == start.distance(goal),
        path.len() > 0,
        start.step(path[0]) is Some,
        start.step(path[0]).unwrap().distance(goal) + 1 == start.distance(goal),
{
    let obstacles = Seq::<Block>::empty();
    let direct = lemma_direct_path(start, goal);
    assert(is_path(obstacles, start, goal, direct));
    lemma_walk_distance(obstacles, start, path);
    lemma_walk_first(obstacles, start, path);
    let next = start.step(path[0]).unwrap();
    lemma_walk_distance(obstacles, next, path.drop_first());
    lemma_distance_step(start, path[0], goal);
}

/// What the search knows of a cell: the number of moves of the best path
/// found to it so far, and the heading that leads from the cell back to the
/// cell before it on that path.
#[derive(Clone, Copy)]
pub struct Step {
    pub cost: u32,
    pub direction: Option<Direction>,
}

impl Default for Step {
    fn default() -> (s: Step)
        ensures
            s == (Step { cost: u32::MAX, direction: None }),
    {
        Step { cost: u32::MAX, direction: None }
    }
}

/// A cell waiting to be expanded, with the number of moves that led to it.
#[derive(Clone, Copy)]
pub struct Visit {
    pub current: Block,
    pub cost: u32,
    pub goal: Block,
}

impl Visit {
    /// Moves made so far plus the distance that is left at least.
    pub open spec fn estimate(self) -> nat {
        self.cost as nat + self.current.distance(self.goal)
    }

    pub fn estimated_cost(&self) -> (c: u32)
        requires
            self.estimate() <= u32::MAX,
        ensures
            c == self.estimate(),
    {
        self.cost + self.current.manhattan_distance(self.goal)
    }
}

/// The key under which the search files a cell of the grid.
spec fn key(cell: Block) -> u32 {
    (cell.y * GRID_WIDTH + cell.x) as u32
}

/// What a cell weighs in the measure of the search's progress: its recorded
/// cost, or more than any cost while nothing is recorded.
spec fn weight(costs: Map<u32, Step>, k: u32) -> nat {
    if costs.contains_key(k) {
        costs[k].cost as nat
    } else {
        (GRID_CELLS + 1) as nat
    }
}

/// The sum of the weights of the first `n` keys.
spec fn potential(costs: Map<u32, Step>, n: nat) -> nat
    decreases n,
{
    if n == 0 {
        0
    } else {
        potential(costs, (n - 1) as nat) + weight(costs, (n - 1) as u32)
    }
}

/// The number of keys among the first `n` for which a cost is recorded.
spec fn settled(costs: Map<u32, Step>, n: nat) -> nat
    decreases n,
{
    if n == 0 {
        0
    } else {
        settled(costs, (n - 1) as nat) + if costs.contains_key((n - 1) as u32) {
            1nat
        } else {
            0nat
        }
    }
}

proof fn lemma_settled_bound(costs: Map<u32, Step>, n: nat)
    ensures
        settled(costs, n) <= n,
    decreases n,
{
    if n > 0 {
        lemma_settled_bound(costs, (n - 1) as nat);
    }
}

/// Recording a lower cost under one key changes the two measures as much as
/// that key's own share changes.
proof fn lemma_record(costs: Map<u32, Step>, k: u32, step: Step, n: nat)
    requires
        n <= u32::MAX,
    ensures
        potential(costs.insert(k, step), n) == if k < n {
            potential(costs, n) - weight(costs, k) + step.cost
        } else {
            potential(costs, n) as int
        },
        settled(costs.insert(k, step), n) == if k < n && !costs.contains_key(k) {
            settled(costs, n) + 1
        } else {
            settled(costs, n)
        },
    decreases n,
{
    if n > 0 {
        lemma_record(costs, k, step, (n - 1) as nat);
    }
}

/// Two cells of the grid with the same key are the same cell.
proof fn lemma_key_injective(a: Block, b: Block)
    requires
        a.in_grid(),
        b.in_grid(),
    ensures
        key(a) == key(b) ==> a == b,
        key(a) < GRID_CELLS,
{
}

/// Whether the neighbour of `cell` towards `dir`, if there is one and it is
/// no obstacle, has a recorded cost of at most `cost + 1`.
spec fn relaxed(
    obstacles: Seq<Block>,
    costs: Map<u32, Step>,
    cost: int,
    cell: Block,
    dir: Direction,
) -> bool {
    match cell.step(dir) {
        Some(next) => obstacles.contains(next) || (costs.contains_key(key(next)) && costs[key(
            next,
        )].cost <= cost + 1),
        None => true,
    }
}

/// Whether all neighbours of `cell` are relaxed with respect to its cost.
spec fn closed(obstacles: Seq<Block>, costs: Map<u32, Step>, cell: Block) -> bool {
    forall|dir: Direction| #[trigger]
        relaxed(obstacles, costs, costs[key(cell)].cost as int, cell, dir)
}

/// Whether `cell` waits in the queue with exactly its recorded cost.
spec fn has_fresh(costs: Map<u32, Step>, open: Seq<Visit>, cell: Block) -> bool {
    exists|j: int|
        0 <= j < open.len() && (#[trigger] open[j]).current == cell && open[j].cost == costs[key(
            cell,
        )].cost
}

/// Whether the record of `cell` points back to a neighbour with a record of
/// lower cost. The start points nowhere.
spec fn linked(
    obstacles: Seq<Block>,
    start: Block,
    costs: Map<u32, Step>,
    cell: Block,
) -> bool {
    cell != start ==> {
        &&& costs[key(cell)].cost >= 1
        &&& !obstacles.contains(cell)
        &&& costs[key(cell)].direction is Some
        &&& cell.step(costs[key(cell)].direction.unwrap()) is Some
        &&& costs.contains_key(key(cell.step(costs[key(cell)].direction.unwrap()).unwrap()))
        &&& costs[key(cell.step(costs[key(cell)].direction.unwrap()).unwrap())].cost + 1
            <= costs[key(cell)].cost
    }
}

/// Whether every recorded cell of the grid is linked back towards the start.
spec fn traceable(obstacles: Seq<Block>, start: Block, costs: Map<u32, Step>) -> bool {
    &&& start.in_grid()
    &&& costs.contains_key(key(start))
    &&& costs[key(start)].cost == 0
    &&& forall|cell: Block|
        cell.in_grid() && costs.contains_key(#[trigger] key(cell)) ==> linked(
            obstacles,
            start,
            costs,
            cell,
        )
}

/// What holds of every queue entry.
spec fn entry_ok(costs: Map<u32, Step>, goal: Block, entry: Visit) -> bool {
    &&& entry.current.in_grid()
    &&& entry.goal == goal
    &&& costs.contains_key(key(entry.current))
    &&& costs[key(entry.current)].cost <= entry.cost
    &&& entry.cost < settled(costs, GRID_CELLS as nat)
}

/// Whether the first `done` neighbours of the cell under expansion are
/// relaxed, the entry being the cell's fresh one.
spec fn partly_closed(
    obstacles: Seq<Block>,
    costs: Map<u32, Step>,
    visit: Visit,
    done: nat,
) -> bool {
    &&& visit.cost == costs[key(visit.current)].cost
    &&& forall|dir: Direction|
        dir.index_spec() < done ==> #[trigger] relaxed(
            obstacles,
            costs,
            visit.cost as int,
            visit.current,
            dir,
        )
}

/// The state of the search between two expansions.
spec fn search_inv(
    obstacles: Seq<Block>,
    start: Block,
    goal: Block,
    costs: Map<u32, Step>,
    open: Seq<Visit>,
) -> bool {
    &&& goal.in_grid()
    &&& start != goal
    &&& traceable(obstacles, start, costs)
    &&& forall|cell: Block|
        cell.in_grid() && costs.contains_key(#[trigger] key(cell)) ==> {
            &&& costs[key(cell)].cost < settled(costs, GRID_CELLS as nat)
            &&& has_fresh(costs, open, cell) || closed(obstacles, costs, cell)
        }
    &&& forall|j: int| 0 <= j < open.len() ==> entry_ok(costs, goal, #[trigger] open[j])
    &&& costs.contains_key(key(goal)) ==> has_fresh(costs, open, goal)
}

/// The state of the search while `visit` is expanded and `done` of its
/// neighbours have been looked at.
spec fn expanding_inv(
    obstacles: Seq<Block>,
    start: Block,
    goal: Block,
    costs: Map<u32, Step>,
    open: Seq<Visit>,
    visit: Visit,
    done: nat,
) -> bool {
    &&& goal.in_grid()
    &&& start != goal
    &&& traceable(obstacles, start, costs)
    &&& forall|cell: Block|
        cell.in_grid() && costs.contains_key(#[trigger] key(cell)) ==> {
            &&& costs[key(cell)].cost < settled(costs, GRID_CELLS as nat)
            &&& has_fresh(costs, open, cell) || closed(obstacles, costs, cell) || (cell
                == visit.current && partly_closed(obstacles, costs, visit, done))
        }
    &&& forall|j: int| 0 <= j < open.len() ==> entry_ok(costs, goal, #[trigger] open[j])
    &&& costs.contains_key(key(goal)) ==> has_fresh(costs, open, goal)
    &&& entry_ok(costs, goal, visit)
}

/// The search starts in a proper state.
proof fn lemma_search_start(obstacles: Seq<Block>, start: Block, goal: Block)
    requires
        start.in_grid(),
        goal.in_grid(),
        start != goal,
    ensures
        search_inv(
            obstacles,
            start,
            goal,
            Map::<u32, Step>::empty().insert(key(start), (Step { cost: 0, direction: None })),
            seq![(Visit { current: start, cost: 0, goal })],
        ),
{
    let first = Step { cost: 0, direction: None };
    let costs = Map::<u32, Step>::empty().insert(key(start), first);
    let open = seq![Visit { current: start, cost: 0, goal }];
    lemma_record(Map::<u32, Step>::empty(), key(start), first, GRID_CELLS as nat);
    assert forall|cell: Block| cell.in_grid() && costs.contains_key(#[trigger] key(cell)) implies {
        &&& linked(obstacles, start, costs, cell)
        &&& costs[key(cell)].cost < settled(costs, GRID_CELLS as nat)
        &&& has_fresh(costs, open, cell)
    } by {
        lemma_key_injective(cell, start);
        assert(open[0].current == cell);
    }
    if costs.contains_key(key(goal)) {
        lemma_key_injective(goal, start);
    }
}

/// A cell that waits in the queue still waits there after another entry has
/// been taken out.
proof fn lemma_fresh_remove(costs: Map<u32, Step>, open: Seq<Visit>, i: int, cell: Block)
    requires
        0 <= i < open.len(),
        has_fresh(costs, open, cell),
    ensures
        has_fresh(costs, open.remove(i), cell) || (open[i].current == cell && open[i].cost
            == costs[key(cell)].cost),
{
    let j = choose|j: int|
        0 <= j < open.len() && (#[trigger] open[j]).current == cell && open[j].cost == costs[key(
            cell,
        )].cost;
    if j < i {
        assert(open.remove(i)[j] == open[j]);
    } else if j > i {
        assert(open.remove(i)[j - 1] == open[j]);
    }
}

/// Taking an entry that is not for the goal out of the queue starts its
/// expansion.
proof fn lemma_pop(
    obstacles: Seq<Block>,
    start: Block,
    goal: Block,
    costs: Map<u32, Step>,
    open: Seq<Visit>,
    i: int,
)
    requires
        search_inv(obstacles, start, goal, costs, open),
        0 <= i < open.len(),
        open[i].current != goal,
    ensures
        expanding_inv(obstacles, start, goal, costs, open.remove(i), open[i], 0),
{
    let rest = open.remove(i);
    let visit = open[i];
    assert forall|cell: Block|
        cell.in_grid() && costs.contains_key(#[trigger] key(cell)) implies {
        &&& costs[key(cell)].cost < settled(costs, GRID_CELLS as nat)
        &&& has_fresh(costs, rest, cell) || closed(obstacles, costs, cell) || (cell
            == visit.current && partly_closed(obstacles, costs, visit, 0))
    } by {
        if has_fresh(costs, open, cell) {
            lemma_fresh_remove(costs, open, i, cell);
        }
    }
    assert forall|j: int| 0 <= j < rest.len() implies entry_ok(costs, goal, #[trigger] rest[j]) by {
        if j < i {
            assert(rest[j] == open[j]);
        } else {
            assert(rest[j] == open[j + 1]);
        }
    }
    if costs.contains_key(key(goal)) {
        lemma_fresh_remove(costs, open, i, goal);
    }
    assert(entry_ok(costs, goal, open[i]));
}

/// Looking at a neighbour that needs no better record.
proof fn lemma_skip(
    obstacles: Seq<Block>,
    start: Block,
    goal: Block,
    costs: Map<u32, Step>,
    open: Seq<Visit>,
    visit: Visit,
    done: nat,
    dir: Direction,
)
    requires
        expanding_inv(obstacles, start, goal, costs, open, visit, done),
        dir.index_spec() == done,
        relaxed(obstacles, costs, visit.cost as int, visit.current, dir),
    ensures
        expanding_inv(obstacles, start, goal, costs, open, visit, done + 1),
{
    assert forall|cell: Block|
        cell.in_grid() && costs.contains_key(#[trigger] key(cell)) && cell == visit.current
            && partly_closed(obstacles, costs, visit, done) implies partly_closed(
        obstacles,
        costs,
        visit,
        done + 1,
    ) by {
        assert forall|other: Direction| other.index_spec() < done + 1 implies #[trigger] relaxed(
            obstacles,
            costs,
            visit.cost as int,
            visit.current,
            other,
        ) by {
            if other.index_spec() == done {
                assert(other == dir);
            }
        }
    }
}

/// Recording a better cost for a neighbour and queueing it.
proof fn lemma_improve(
    obstacles: Seq<Block>,
    start: Block,
    goal: Block,
    costs: Map<u32, Step>,
    open: Seq<Visit>,
    visit: Visit,
    done: nat,
    dir: Direction,
)
    requires
        expanding_inv(obstacles, start, goal, costs, open, visit, done),
        dir.index_spec() == done,
        visit.current.step(dir) is Some,
        !obstacles.contains(visit.current.step(dir).unwrap()),
        weight(costs, key(visit.current.step(dir).unwrap())) > visit.cost + 1,
    ensures
        visit.cost + 1 <= GRID_CELLS,
        expanding_inv(
            obstacles,
            start,
            goal,
            costs.insert(
                key(visit.current.step(dir).unwrap()),
                (Step { cost: (visit.cost + 1) as u32, direction: Some(dir.opposite()) }),
            ),
            open.push(
                (Visit {
                    current: visit.current.step(dir).unwrap(),
                    cost: (visit.cost + 1) as u32,
                    goal,
                }),
            ),
            visit,
            done + 1,
        ),
        potential(
            costs.insert(
                key(visit.current.step(dir).unwrap()),
                (Step { cost: (visit.cost + 1) as u32, direction: Some(dir.opposite()) }),
            ),
            GRID_CELLS as nat,
        ) < potential(costs, GRID_CELLS as nat),
{
    let next = visit.current.step(dir).unwrap();
    let step = Step { cost: (visit.cost + 1) as u32, direction: Some(dir.opposite()) };
    let entry = Visit { current: next, cost: (visit.cost + 1) as u32, goal };
    let new_costs = costs.insert(key(next), step);
    let new_open = open.push(entry);
    let cells = GRID_CELLS as nat;
    lemma_step_back(visit.current, dir, GRID_WIDTH, GRID_HEIGHT);
    lemma_settled_bound(costs, cells);
    lemma_record(costs, key(next), step, cells);
    lemma_key_injective(next, start);
    lemma_key_injective(next, visit.current);
    assert(next != start);
    assert(next != visit.current);
    assert(settled(new_costs, cells) >= settled(costs, cells));
    assert(step.cost < settled(new_costs, cells)) by {
        if costs.contains_key(key(next)) {
            assert(costs[key(next)].cost < settled(costs, cells));
        }
    }
    // Other cells keep their record, the neighbour's cost only falls.
    assert forall|cell: Block| cell.in_grid() && cell != next implies new_costs.contains_key(
        #[trigger] key(cell),
    ) == costs.contains_key(key(cell)) && new_costs[key(cell)] == costs[key(cell)] by {
        lemma_key_injective(cell, next);
    }
    assert forall|cell: Block|
        cell.in_grid() && costs.contains_key(#[trigger] key(cell)) implies new_costs.contains_key(
        key(cell),
    ) && new_costs[key(cell)].cost <= costs[key(cell)].cost by {
        lemma_key_injective(cell, next);
    }
    assert forall|cell: Block, cost: int, other: Direction|
        cell.in_grid() && relaxed(obstacles, costs, cost, cell, other) implies #[trigger] relaxed(
        obstacles,
        new_costs,
        cost,
        cell,
        other,
    ) by {
        if cell.step(other) is Some {
            let nb = cell.step(other).unwrap();
            assert(nb.in_grid());
            if !obstacles.contains(nb) {
                assert(costs.contains_key(key(nb)));
                lemma_key_injective(nb, next);
            }
        }
    }
    assert forall|cell: Block|
        cell.in_grid() && new_costs.contains_key(#[trigger] key(cell)) implies linked(
        obstacles,
        start,
        new_costs,
        cell,
    ) by {
        if cell == next {
            assert(next.step(dir.opposite()) == Some(visit.current));
            assert(new_costs[key(visit.current)] == costs[key(visit.current)]);
        } else if cell != start {
            assert(costs.contains_key(key(cell)));
            assert(linked(obstacles, start, costs, cell));
            let pred = cell.step(costs[key(cell)].direction.unwrap()).unwrap();
            assert(pred.in_grid());
            assert(costs.contains_key(key(pred)));
            assert(new_costs[key(pred)].cost <= costs[key(pred)].cost);
        }
    }
    assert(traceable(obstacles, start, new_costs));
    assert forall|cell: Block|
        cell.in_grid() && new_costs.contains_key(#[trigger] key(cell)) implies {
        &&& new_costs[key(cell)].cost < settled(new_costs, cells)
        &&& has_fresh(new_costs, new_open, cell) || closed(obstacles, new_costs, cell) || (cell
            == visit.current && partly_closed(obstacles, new_costs, visit, done + 1))
    } by {
        if cell == next {
            assert(new_open[open.len() as int] == entry);
            assert(has_fresh(new_costs, new_open, cell));
        } else {
            assert(costs.contains_key(key(cell)));
            assert(new_costs[key(cell)] == costs[key(cell)]);
            if has_fresh(costs, open, cell) {
                let j = choose|j: int|
                    0 <= j < open.len() && (#[trigger] open[j]).current == cell && open[j].cost
                        == costs[key(cell)].cost;
                assert(new_open[j] == open[j]);
                assert(has_fresh(new_costs, new_open, cell));
            } else if closed(obstacles, costs, cell) {
                assert forall|other: Direction| #[trigger]
                    relaxed(
                        obstacles,
                        new_costs,
                        new_costs[key(cell)].cost as int,
                        cell,
                        other,
                    ) by {
                    assert(relaxed(obstacles, costs, costs[key(cell)].cost as int, cell, other));
                }
                assert(closed(obstacles, new_costs, cell));
            } else {
                assert(cell == visit.current && partly_closed(obstacles, costs, visit, done));
                assert forall|other: Direction|
                    other.index_spec() < done + 1 implies #[trigger] relaxed(
                    obstacles,
                    new_costs,
                    visit.cost as int,
                    visit.current,
                    other,
                ) by {
                    if other.index_spec() == done {
                        assert(other == dir);
                    } else {
                        assert(relaxed(obstacles, costs, visit.cost as int, visit.current, other));
                    }
                }
                assert(partly_closed(obstacles, new_costs, visit, done + 1));
            }
        }
    }
    assert forall|j: int| 0 <= j < new_open.len() implies entry_ok(
        new_costs,
        goal,
        #[trigger] new_open[j],
    ) by {
        if j < open.len() {
            assert(new_open[j] == open[j]);
            assert(entry_ok(costs, goal, open[j]));
        }
    }
    if new_costs.contains_key(key(goal)) {
        if goal == next {
            assert(new_open[open.len() as int] == entry);
            assert(has_fresh(new_costs, new_open, goal));
        } else {
            lemma_key_injective(goal, next);
            assert(has_fresh(costs, open, goal));
            let j = choose|j: int|
                0 <= j < open.len() && (#[trigger] open[j]).current == goal && open[j].cost
                    == costs[key(goal)].cost;
            assert(new_open[j] == open[j]);
            assert(has_fresh(new_costs, new_open, goal));
        }
    }
    assert(entry_ok(new_costs, goal, visit));
}

/// When all neighbours have been looked at the expansion is over.
proof fn lemma_finish(
    obstacles: Seq<Block>,
    start: Block,
    goal: Block,
    costs: Map<u32, Step>,
    open: Seq<Visit>,
    visit: Visit,
)
    requires
        expanding_inv(obstacles, start, goal, costs, open, visit, 4),
    ensures
        search_inv(obstacles, start, goal, costs, open),
{
    assert forall|cell: Block|
        cell.in_grid() && costs.contains_key(#[trigger] key(cell)) && cell == visit.current
            && partly_closed(obstacles, costs, visit, 4) implies closed(obstacles, costs, cell) by {
        assert forall|dir: Direction| #[trigger]
            relaxed(obstacles, costs, costs[key(cell)].cost as int, cell, dir) by {
            assert(dir.index_spec() < 4);
        }
    }
}

/// Along every path from the start, either some queue entry promises a way to
/// the goal that is no longer than the path and what is left after it, or the
/// end of the path has a record that costs no more than the path.
proof fn lemma_frontier(
    obstacles: Seq<Block>,
    start: Block,
    goal: Block,
    costs: Map<u32, Step>,
    open: Seq<Visit>,
    path: Seq<Direction>,
    rest: nat,
)
    requires
        search_inv(obstacles, start, goal, costs, open),
        walk_end(obstacles, start, path) is Some,
        walk_end(obstacles, start, path).unwrap().distance(goal) <= rest,
    ensures
        (exists|j: int| 0 <= j < open.len() && (#[trigger] open[j]).estimate() <= path.len() + rest)
            || (costs.contains_key(key(walk_end(obstacles, start, path).unwrap())) && costs[key(
            walk_end(obstacles, start, path).unwrap(),
        )].cost <= path.len()),
    decreases path.len(),
{
    if path.len() > 0 {
        let before = walk_end(obstacles, start, path.drop_last()).unwrap();
        let end = walk_end(obstacles, start, path).unwrap();
        lemma_walk_in_grid(obstacles, start, path.drop_last());
        lemma_distance_step(before, path.last(), goal);
        lemma_frontier(obstacles, start, goal, costs, open, path.drop_last(), rest + 1);
        if exists|j: int|
            0 <= j < open.len() && (#[trigger] open[j]).estimate() <= path.drop_last().len() + rest
                + 1 {
            let j = choose|j: int|
                0 <= j < open.len() && (#[trigger] open[j]).estimate() <= path.drop_last().len()
                    + rest + 1;
            assert(open[j].estimate() <= path.len() + rest);
        } else {
            assert(costs.contains_key(key(before)));
            if has_fresh(costs, open, before) {
                let j = choose|j: int|
                    0 <= j < open.len() && (#[trigger] open[j]).current == before && open[j].cost
                        == costs[key(before)].cost;
                assert(entry_ok(costs, goal, open[j]));
                assert(open[j].estimate() <= path.len() + rest);
            } else {
                assert(closed(obstacles, costs, before));
                assert(relaxed(
                    obstacles,
                    costs,
                    costs[key(before)].cost as int,
                    before,
                    path.last(),
                ));
            }
        }
    }
}

/// When the entry that promises most is one for the goal, the goal's record
/// costs no more than any path to the goal is long.
proof fn lemma_goal_cost(
    obstacles: Seq<Block>,
    start: Block,
    goal: Block,
    costs: Map<u32, Step>,
    open: Seq<Visit>,
    i: int,
    path: Seq<Direction>,
)
    requires
        search_inv(obstacles, start, goal, costs, open),
        0 <= i < open.len(),
        open[i].current == goal,
        forall|j: int| 0 <= j < open.len() ==> open[i].estimate() <= (#[trigger] open[j]).estimate(),
        is_path(obstacles, start, goal, path),
    ensures
        costs.contains_key(key(goal)),
        costs[key(goal)].cost <= path.len(),
{
    lemma_frontier(obstacles, start, goal, costs, open, path, 0);
    assert(entry_ok(costs, goal, open[i]));
    if exists|j: int| 0 <= j < open.len() && (#[trigger] open[j]).estimate() <= path.len() + 0 {
        let j = choose|j: int|
            0 <= j < open.len() && (#[trigger] open[j]).estimate() <= path.len() + 0;
        assert(open[i].estimate() <= open[j].estimate());
    }
}

/// When the queue has run empty, no path leads to the goal.
proof fn lemma_exhausted(
    obstacles: Seq<Block>,
    start: Block,
    goal: Block,
    costs: Map<u32, Step>,
    path: Seq<Direction>,
)
    requires
        search_inv(obstacles, start, goal, costs, Seq::<Visit>::empty()),
    ensures
        !is_path(obstacles, start, goal, path),
{
    if is_path(obstacles, start, goal, path) {
        lemma_frontier(obstacles, start, goal, costs, Seq::<Visit>::empty(), path, 0);
    }
}

/// The key of a cell of the grid: cells are numbered row by row.
fn cell_key(cell: Block) -> (k: u32)
    requires
        cell.in_grid(),
    ensures
        k == key(cell),
        k < GRID_CELLS,
{
    cell.y * GRID_WIDTH + cell.x
}

/// Whether `cell` is a body cell of the snake other than its tail.
fn blocked(game: &Game, cell: Block) -> (r: bool)
    requires
        game@.snake.blocks.len() >= 1,
    ensures
        r == game@.snake.obstacles().contains(cell),
{
    let limit: usize = game.snake.blocks.len() - 1;
    let mut i: usize = 0;
    while i < limit
        invariant
            limit == game@.snake.blocks.len() - 1,
            forall|j: int| 0 <= j < i ==> game@.snake.obstacles()[j] != cell,
        decreases limit - i,
    {
        if game.snake.blocks[i] == cell {
            assert(game@.snake.obstacles()[i as int] == cell);
            return true;
        }
        i += 1;
    }
    false
}

/// Takes the entry with the least estimated cost out of the queue, the one
/// queued first among several.
fn pop_best(open: &mut Vec<Visit>) -> (r: (Visit, Ghost<int>))
    requires
        old(open)@.len() > 0,
        forall|j: int| 0 <= j < old(open)@.len() ==> (#[trigger] old(open)@[j]).estimate() <= u32::MAX,
    ensures
        0 <= r.1@ < old(open)@.len(),
        r.0 == old(open)@[r.1@],
        final(open)@ == old(open)@.remove(r.1@),
        forall|j: int| 0 <= j < old(open)@.len() ==> r.0.estimate() <= (#[trigger] old(open)@[j]).estimate(),
        forall|j: int| 0 <= j < r.1@ ==> r.0.estimate() < (#[trigger] old(open)@[j]).estimate(),
{
    let mut best: usize = 0;
    let mut best_cost: u32 = open[0].estimated_cost();
    let mut i: usize = 1;
    while i < open.len()
        invariant
            1 <= i,
            best < i,
            best < open@.len(),
            open@ == old(open)@,
            best_cost == open@[best as int].estimate(),
            forall|j: int| 0 <= j < open@.len() ==> (#[trigger] open@[j]).estimate() <= u32::MAX,
            forall|j: int| 0 <= j < i && j < open@.len() ==> best_cost <= (#[trigger] open@[j]).estimate(),
            forall|j: int| 0 <= j < best ==> best_cost < (#[trigger] open@[j]).estimate(),
        decreases open@.len() - i,
    {
        let cost = open[i].estimated_cost();
        if cost < best_cost {
            best = i;
            best_cost = cost;
        }
        i += 1;
    }
    let visit = open.remove(best);
    (visit, Ghost(best as int))
}

/// Follows the records back from `goal` to `start` and gives the moves in
/// travel order.
fn trace(
    costs: &FnvHashMap<u32, Step>,
    Ghost(obstacles): Ghost<Seq<Block>>,
    start: Block,
    goal: Block,
) -> (path: Vec<Direction>)
    requires
        traceable(obstacles, start, costs@),
        goal.in_grid(),
        costs@.contains_key(key(goal)),
    ensures
        is_path(obstacles, start, goal, path@),
        path@.len() <= costs@[key(goal)].cost,
{
    let mut path: Vec<Direction> = Vec::new();
    let mut block = goal;
    while block != start
        invariant
            traceable(obstacles, start, costs@),
            block.in_grid(),
            costs@.contains_key(key(block)),
            walk_end(obstacles, block, path@) == Some(goal),
            path@.len() + costs@[key(block)].cost <= costs@[key(goal)].cost,
        decreases costs@[key(block)].cost,
    {
        let step = lookup(costs, cell_key(block)).unwrap();
        assert(linked(obstacles, start, costs@, block));
        let dir = step.direction.unwrap();
        let before = block.apply(dir).unwrap();
        proof {
            lemma_step_back(block, dir, GRID_WIDTH, GRID_HEIGHT);
            lemma_walk_prepend(obstacles, before, dir.opposite(), path@);
            assert(path@.insert(0, dir.opposite()) =~= seq![dir.opposite()] + path@);
        }
        path.insert(0, dir.opposite());
        block = before;
    }
    path
}

/// Whether the snake can reach its own tail.
pub open spec fn tail_reachable(game: GameView) -> bool {
    reachable(game.snake.obstacles(), game.snake.head(), game.snake.tail())
}

/// Whether `path` is a shortest way from the head to the food.
pub open spec fn food_path(game: GameView, path: Seq<Direction>) -> bool {
    is_shortest_path(game.snake.obstacles(), game.snake.head(), game.food, path)
}

/// Whether `path` is a shortest way from the head to the tail.
pub open spec fn tail_path(game: GameView, path: Seq<Direction>) -> bool {
    is_shortest_path(game.snake.obstacles(), game.snake.head(), game.snake.tail(), path)
}

/// Whether following `path` can end in a state from which the snake reaches
/// its tail.
pub open spec fn leads_to_safety(game: GameView, path: Seq<Direction>) -> bool {
    exists|end: GameView| #[trigger] follows(game, path, end) && end.wf() && tail_reachable(end)
}

/// Whether following `path` can end in a state from which the snake does not
/// reach its tail.
pub open spec fn leads_to_trap(game: GameView, path: Seq<Direction>) -> bool {
    exists|end: GameView| #[trigger] follows(game, path, end) && end.wf() && !tail_reachable(end)
}

/// Whether `path` is a shortest way to the food that can be followed without
/// getting trapped.
pub open spec fn safe_food_path(game: GameView, path: Seq<Direction>) -> bool {
    food_path(game, path) && leads_to_safety(game, path)
}

/// Whether the planner may give up on the food: there is no way to it, or a
/// shortest way to it can end in a trap.
pub open spec fn food_out_of_reach(game: GameView) -> bool {
    ||| !reachable(game.snake.obstacles(), game.snake.head(), game.food)
    ||| exists|path: Seq<Direction>| #[trigger] food_path(game, path) && leads_to_trap(game, path)
}

/// Whether `choice` is a possible outcome of planning: the first move of a
/// safe shortest way to the food; or, where the planner may give up on the
/// food, the first move of a shortest way to the tail; or nothing, where the
/// way chosen has no move or there is no way to the tail either.
pub open spec fn planned(game: GameView, choice: Option<Direction>) -> bool {
    match choice {
        Some(dir) => {
            ||| exists|path: Seq<Direction>| #[trigger]
                safe_food_path(game, path) && path.len() > 0 && path[0] == dir
            ||| food_out_of_reach(game) && exists|path: Seq<Direction>| #[trigger]
                tail_path(game, path) && path.len() > 0 && path[0] == dir
        },
        None => {
            ||| exists|path: Seq<Direction>| #[trigger]
                safe_food_path(game, path) && path.len() == 0
            ||| food_out_of_reach(game) && !tail_reachable(game)
            ||| food_out_of_reach(game) && exists|path: Seq<Direction>| #[trigger]
                tail_path(game, path) && path.len() == 0
        },
    }
}

/// For a snake of one cell nothing is in the way: whenever the planner has a
/// choice then, and the food lies elsewhere on the grid, the move chosen
/// brings the food nearer by exactly one.
pub proof fn lemma_plan_on_open_grid(game: GameView, dir: Direction)
    requires
        game.wf(),
        game.snake.blocks.len() == 1,
        game.food.in_grid(),
        game.food != game.snake.head(),
        planned(game, Some(dir)),
    ensures
        game.snake.head().step(dir) is Some,
        game.snake.head().step(dir).unwrap().distance(game.food) + 1 == game.snake.head().distance(
            game.food,
        ),
{
    let obstacles = game.snake.obstacles();
    let head = game.snake.head();
    assert(obstacles =~= Seq::<Block>::empty());
    assert(game.snake.tail() == head);
    if exists|path: Seq<Direction>| #[trigger]
        safe_food_path(game, path) && path.len() > 0 && path[0] == dir {
        let path = choose|path: Seq<Direction>| #[trigger]
            safe_food_path(game, path) && path.len() > 0 && path[0] == dir;
        lemma_open_grid_first_step(head, game.food, path);
    } else {
        let path = choose|path: Seq<Direction>| #[trigger]
            tail_path(game, path) && path.len() > 0 && path[0] == dir;
        assert(is_path(obstacles, head, head, Seq::<Direction>::empty()));
    }
}

/// The planner: it holds no state between two decisions.
pub struct PathFindingStrategy;

impl PathFindingStrategy {
    /// Searches a shortest way from `start` to `goal` that enters no body
    /// cell of the snake other than its tail, best estimate first.
    ///
    /// The result is such a way if there is one and `None` if there is none.
    /// Which of several shortest ways comes out is left open.
    pub fn find_path(&self, game: &Game, start: Block, goal: Block) -> (r: Option<Vec<Direction>>)
        requires
            game@.snake.blocks.len() >= 1,
            start.in_grid(),
        ensures
            match r {
                Some(path) => is_shortest_path(game@.snake.obstacles(), start, goal, path@),
                None => !reachable(game@.snake.obstacles(), start, goal),
            },
    {
        let ghost obstacles = game@.snake.obstacles();
        if start == goal {
            let path: Vec<Direction> = Vec::new();
            assert(is_path(obstacles, start, goal, path@));
            return Some(path);
        }
        if !goal.is_in_grid() {
            assert forall|path: Seq<Direction>| !is_path(obstacles, start, goal, path) by {
                if walk_end(obstacles, start, path) is Some {
                    lemma_walk_in_grid(obstacles, start, path);
                }
            }
            return None;
        }
        let mut to_visit: Vec<Visit> = Vec::new();
        let mut costs: FnvHashMap<u32, Step> = FnvHashMap::default();
        store(&mut costs, cell_key(start), Step { cost: 0, direction: None });
        to_visit.push(Visit { current: start, cost: 0, goal });
        proof {
            lemma_search_start(obstacles, start, goal);
            assert(to_visit@ =~= seq![Visit { current: start, cost: 0, goal }]);
        }
        while to_visit.len() > 0
            invariant
                obstacles == game@.snake.obstacles(),
                game@.snake.blocks.len() >= 1,
                search_inv(obstacles, start, goal, costs@, to_visit@),
            decreases 2 * potential(costs@, GRID_CELLS as nat) + to_visit@.len(),
        {
            let ghost before = to_visit@;
            let ghost measure = 2 * potential(costs@, GRID_CELLS as nat) + to_visit@.len();
            proof {
                lemma_settled_bound(costs@, GRID_CELLS as nat);
                assert forall|j: int| 0 <= j < before.len() implies (#[trigger] before[j]).estimate()
                    <= u32::MAX by {
                    assert(entry_ok(costs@, goal, before[j]));
                }
            }
            let (visit, Ghost(at)) = pop_best(&mut to_visit);
            if visit.current == goal {
                proof {
                    assert forall|path: Seq<Direction>| #[trigger]
                        is_path(obstacles, start, goal, path) implies costs@[key(goal)].cost
                        <= path.len() by {
                        lemma_goal_cost(obstacles, start, goal, costs@, before, at, path);
                    }
                    assert(entry_ok(costs@, goal, before[at]));
                }
                let path = trace(&costs, Ghost(obstacles), start, goal);
                return Some(path);
            }
            proof {
                lemma_pop(obstacles, start, goal, costs@, before, at);
            }
            let dirs = Direction::all();
            let mut d: usize = 0;
            while d < 4
                invariant
                    d <= 4,
                    dirs@ == Direction::all_spec(),
                    obstacles == game@.snake.obstacles(),
                    game@.snake.blocks.len() >= 1,
                    expanding_inv(obstacles, start, goal, costs@, to_visit@, visit, d as nat),
                    2 * potential(costs@, GRID_CELLS as nat) + to_visit@.len() < measure,
                decreases 4 - d,
            {
                let dir = dirs[d];
                assert(dir == Direction::all_spec()[d as int]);
                assert(dir.index_spec() == d);
                let ghost old_costs = costs@;
                let ghost old_open = to_visit@;
                let mut improved = false;
                proof {
                    lemma_settled_bound(old_costs, GRID_CELLS as nat);
                }
                match visit.current.apply(dir) {
                    Some(neighbour) => {
                        if !blocked(game, neighbour) {
                            let k = cell_key(neighbour);
                            let next_cost = visit.cost + 1;
                            let best = match lookup(&costs, k) {
                                Some(step) => step,
                                None => Step::default(),
                            };
                            if next_cost < best.cost {
                                proof {
                                    lemma_improve(
                                        obstacles,
                                        start,
                                        goal,
                                        old_costs,
                                        old_open,
                                        visit,
                                        d as nat,
                                        dir,
                                    );
                                }
                                store(
                                    &mut costs,
                                    k,
                                    Step { cost: next_cost, direction: Some(dir.opposite()) },
                                );
                                to_visit.push(Visit { current: neighbour, cost: next_cost, goal });
                                improved = true;
                            }
                        }
                    },
                    None => {},
                }
                proof {
                    if !improved {
                        lemma_skip(obstacles, start, goal, old_costs, old_open, visit, d as nat, dir);
                    }
                }
                d += 1;
            }
            proof {
                lemma_finish(obstacles, start, goal, costs@, to_visit@, visit);
            }
        }
        assert forall|path: Seq<Direction>| !is_path(obstacles, start, goal, path) by {
            assert(to_visit@ =~= Seq::<Visit>::empty());
            lemma_exhausted(obstacles, start, goal, costs@, path);
        }
        None
    }

    /// Searches a shortest way to the food and tries it out on a copy of the
    /// round. The way is handed out if the snake reaches its tail from where
    /// the trial ends.
    pub fn find_safe_path_to_food(&self, game: &Game) -> (r: Option<Vec<Direction>>)
        requires
            game@.wf(),
        ensures
            match r {
                Some(path) => safe_food_path(game@, path@),
                None => food_out_of_reach(game@),
            },
    {
        match self.find_path(game, game.snake.head(), game.food.block) {
            Some(path) => {
                let mut game_sim = game.clone();
                let mut i: usize = 0;
                proof {
                    lemma_follows_nothing(game@);
                    assert(path@.take(0) =~= Seq::<Direction>::empty());
                }
                while i < path.len()
                    invariant
                        i <= path@.len(),
                        game_sim@.wf(),
                        follows(game@, path@.take(i as int), game_sim@),
                    decreases path@.len() - i,
                {
                    let ghost mid = game_sim@;
                    game_sim.snake.turn(path[i]);
                    let ghost turned = game_sim@;
                    game_sim.update();
                    proof {
                        assert(turned == (GameView {
                            snake: mid.snake.turned(path@[i as int]),
                            ..mid
                        }));
                        lemma_follows_step(
                            game@,
                            path@.take(i as int),
                            mid,
                            path@[i as int],
                            game_sim@,
                        );
                        assert(path@.take(i + 1) =~= path@.take(i as int).push(path@[i as int]));
                    }
                    i += 1;
                }
                assert(path@.take(path@.len() as int) =~= path@);
                let way_out = self.find_path(
                    &game_sim,
                    game_sim.snake.head(),
                    game_sim.snake.last(),
                );
                match way_out {
                    Some(_) => {
                        assert(follows(game@, path@, game_sim@) && tail_reachable(game_sim@));
                        Some(path)
                    },
                    None => {
                        assert(follows(game@, path@, game_sim@) && !tail_reachable(game_sim@));
                        assert(food_path(game@, path@) && leads_to_trap(game@, path@));
                        None
                    },
                }
            },
            None => None,
        }
    }

    /// The planner's choice, if it has one: the first move of a safe shortest
    /// way to the food, else the first move of a shortest way to the tail.
    pub fn plan(&self, game: &Game) -> (r: Option<Direction>)
        requires
            game@.wf(),
        ensures
            planned(game@, r),
    {
        match self.find_safe_path_to_food(game) {
            Some(path) => {
                assert(safe_food_path(game@, path@));
                if path.len() > 0 {
                    Some(path[0])
                } else {
                    None
                }
            },
            None => match self.find_path(game, game.snake.head(), game.snake.last()) {
                Some(path) => {
                    assert(tail_path(game@, path@));
                    if path.len() > 0 {
                        Some(path[0])
                    } else {
                        None
                    }
                },
                None => None,
            },
        }
    }
}

impl Strategy for PathFindingStrategy {
    /// The planner's choice, or a heading drawn at random where it has none.
    fn tick(&self, game: &Game) -> (dir: Direction)
        ensures
            planned(game@, Some(dir)) || planned(game@, None),
    {
        match self.plan(game) {
            Some(dir) => dir,
            None => Direction::random(),
        }
    }
}

} // verus!
