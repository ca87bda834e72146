//! Choosing a heading from the scores of many random playouts.

use crate::block::Direction;
use crate::consts::GRID_CELLS;
use crate::game::{Game, GameView};
use crate::strategy::Strategy;
use crate::table::{lookup, store};
use fnv::FnvHashMap;
use rayon::iter::{IntoParallelIterator, ParallelIterator};
use vstd::prelude::*;

verus! {

/// Number of playouts per decision.
pub const DEFAULT_RUNS: usize = 10_000;

/// Number of moves after which a playout ends at the latest.
pub const MAX_STEPS: u32 = 10 * GRID_CELLS * GRID_CELLS;

/// Points for a move.
pub const STEP_SCORE: u32 = 1;

/// Additional points for a move that reaches the food.
pub const GOAL_BONUS: u32 = 50;

/// The outcome of one playout: the heading it started with and the points it
/// gathered.
#[derive(Debug, Clone, Copy)]
pub struct Run {
    pub start: Direction,
    pub score: u32,
}

/// The round after a heading has been requested.
pub open spec fn headed(game: GameView, dir: Direction) -> GameView {
    GameView { snake: game.snake.turned(dir), ..game }
}

/// The points the next advance is worth.
pub open spec fn gain(game: GameView) -> nat {
    if game.scores() {
        (STEP_SCORE + GOAL_BONUS) as nat
    } else {
        STEP_SCORE as nat
    }
}

/// Whether a playout goes on after the next advance: it ends on a collision,
/// unless the advance reaches the food.
pub open spec fn goes_on(game: GameView) -> bool {
    game.scores() || !game.collides()
}

/// Whether `after` is a possible state after one move of a playout from
/// `before` with the heading `dir` requested: the round after a tick where
/// the playout goes on, and else the round with nothing but the heading
/// changed.
#[verifier::opaque]
pub open spec fn moved(before: GameView, dir: Direction, after: GameView) -> bool {
    if goes_on(headed(before, dir)) {
        headed(before, dir).successor(after)
    } else {
        after == headed(before, dir)
    }
}

/// Whether `states` are the states of a playout from `states[0]` in which
/// the headings of `headings` are requested move by move: every move but the
/// last goes on, and the last one ends the playout unless `MAX_STEPS` moves
/// are made.
pub open spec fn is_playout(headings: Seq<Direction>, states: Seq<GameView>) -> bool {
    &&& 1 <= headings.len() <= MAX_STEPS
    &&& states.len() == headings.len() + 1
    &&& forall|i: int|
        0 <= i < headings.len() ==> {
            &&& (#[trigger] states[i]).wf()
            &&& moved(states[i], headings[i], states[i + 1])
            &&& i < headings.len() - 1 ==> goes_on(headed(states[i], headings[i]))
        }
    &&& headings.len() == MAX_STEPS || !goes_on(
        headed(states[headings.len() - 1], headings.last()),
    )
}

/// The points of the first `n` moves of a playout.
pub open spec fn points(headings: Seq<Direction>, states: Seq<GameView>, n: nat) -> nat
    decreases n,
{
    if n == 0 {
        0
    } else {
        points(headings, states, (n - 1) as nat) + gain(headed(states[n - 1], headings[n - 1]))
    }
}

/// Whether some playout of `game` starts with the heading of `run` and is
/// worth its score.
#[verifier::opaque]
pub open spec fn has_playout(game: GameView, run: Run) -> bool {
    exists|headings: Seq<Direction>, states: Seq<GameView>|
        {
            &&& #[trigger] is_playout(headings, states)
            &&& states[0] == game
            &&& headings[0] == run.start
            &&& run.score == points(headings, states, headings.len())
        }
}

/// Whether `run` is the outcome of some playout of `game`: one that does not
/// start by reversing the current heading, and whose moves are worth the
/// score.
pub open spec fn is_rollout(game: GameView, run: Run) -> bool {
    run.start != game.snake.direction.opposite() && has_playout(game, run)
}

pub open spec fn are_rollouts(game: GameView, runs: Seq<Run>) -> bool {
    forall|i: int| 0 <= i < runs.len() ==> is_rollout(game, #[trigger] runs[i])
}

/// Whether `tallies` are the tallies of some `n` playouts of `game`.
pub open spec fn tallies_of_rollouts(
    tallies: Map<Direction, TallyView>,
    game: GameView,
    n: nat,
) -> bool {
    exists|runs: Seq<Run>| #[trigger]
        are_rollouts(game, runs) && runs.len() == n && tallies == aggregate_of(runs)
}

/// The points of a playout depend on the moves counted only.
proof fn lemma_points_prefix(
    headings: Seq<Direction>,
    states: Seq<GameView>,
    longer_headings: Seq<Direction>,
    longer_states: Seq<GameView>,
    n: nat,
)
    requires
        n <= headings.len() <= longer_headings.len(),
        n <= states.len() <= longer_states.len(),
        forall|i: int| 0 <= i < n ==> headings[i] == longer_headings[i],
        forall|i: int| 0 <= i < n ==> states[i] == longer_states[i],
    ensures
        points(headings, states, n) == points(longer_headings, longer_states, n),
    decreases n,
{
    if n > 0 {
        lemma_points_prefix(headings, states, longer_headings, longer_states, (n - 1) as nat);
    }
}

/// One more move extends the moves made so far.
proof fn lemma_playout_grows(
    headings: Seq<Direction>,
    states: Seq<GameView>,
    dir: Direction,
    after: GameView,
)
    requires
        states.len() == headings.len() + 1,
        states.last().wf(),
        moved(states.last(), dir, after),
        headings.len() > 0 ==> goes_on(
            headed(states[headings.len() - 1], headings[headings.len() - 1]),
        ),
        forall|i: int|
            0 <= i < headings.len() ==> {
                &&& (#[trigger] states[i]).wf()
                &&& moved(states[i], headings[i], states[i + 1])
                &&& i < headings.len() - 1 ==> goes_on(headed(states[i], headings[i]))
            },
    ensures
        forall|i: int|
            0 <= i < headings.len() + 1 ==> {
                &&& (#[trigger] states.push(after)[i]).wf()
                &&& moved(
                    states.push(after)[i],
                    headings.push(dir)[i],
                    states.push(after)[i + 1],
                )
                &&& i < headings.len() ==> goes_on(
                    headed(states.push(after)[i], headings.push(dir)[i]),
                )
            },
{
    let longer = states.push(after);
    assert forall|i: int| 0 <= i < headings.len() + 1 implies {
        &&& (#[trigger] longer[i]).wf()
        &&& moved(longer[i], headings.push(dir)[i], longer[i + 1])
        &&& i < headings.len() ==> goes_on(headed(longer[i], headings.push(dir)[i]))
    } by {
        if i < headings.len() {
            assert(longer[i] == states[i]);
            assert(states[i].wf());
            assert(longer[i + 1] == states[i + 1]);
        }
    }
}

/// Every move of a playout is worth a point at least, and the bonus on top
/// at most.
pub proof fn lemma_points_bounds(headings: Seq<Direction>, states: Seq<GameView>, n: nat)
    ensures
        n * STEP_SCORE <= points(headings, states, n) <= n * (STEP_SCORE + GOAL_BONUS),
    decreases n,
{
    if n > 0 {
        lemma_points_bounds(headings, states, (n - 1) as nat);
    }
}

/// One move of a playout: requests the heading `dir`, counts the points of
/// the advance, and makes the advance unless the playout ends here. Gives the
/// points and whether the playout goes on.
pub fn play(game: &mut Game, dir: Direction) -> (r: (u32, bool))
    requires
        old(game)@.snake.blocks.len() >= 1,
    ensures
        r.0 == gain(headed(old(game)@, dir)),
        r.1 == goes_on(headed(old(game)@, dir)),
        moved(old(game)@, dir, final(game)@),
        final(game)@.snake.blocks.len() >= 1,
        old(game)@.wf() ==> final(game)@.wf(),
{
    reveal(moved);
    game.snake.turn(dir);
    let mut points = STEP_SCORE;
    if game.scores() {
        points += GOAL_BONUS;
    } else if game.collides() {
        return (points, false);
    }
    game.update();
    (points, true)
}

/// One playout on a copy of `game`: a first heading that does not reverse the
/// current one, then a new random heading after every move, until the snake
/// collides or `MAX_STEPS` moves are made.
pub fn run(game: &Game) -> (r: Run)
    requires
        game@.wf(),
    ensures
        is_rollout(game@, r),
{
    let ghost first = game@;
    let mut game = game.clone();
    let start = Direction::random_other(game.snake.direction.opposite());
    let mut score: u32 = 0;
    let mut dir = start;
    let mut moves: u32 = 0;
    let ghost mut headings: Seq<Direction> = Seq::empty();
    let ghost mut states: Seq<GameView> = seq![first];
    while moves < MAX_STEPS
        invariant_except_break
            moves == 0 ==> dir == start,
            moves > 0 ==> goes_on(headed(states[moves - 1], headings[moves - 1])),
        invariant
            MAX_STEPS == 576_000,
            moves <= MAX_STEPS,
            game@.wf(),
            headings.len() == moves,
            states.len() == moves + 1,
            states[0] == first,
            states[moves as int] == game@,
            moves > 0 ==> headings[0] == start,
            score == points(headings, states, moves as nat),
            forall|i: int|
                0 <= i < moves ==> {
                    &&& (#[trigger] states[i]).wf()
                    &&& moved(states[i], headings[i], states[i + 1])
                    &&& i < moves - 1 ==> goes_on(headed(states[i], headings[i]))
                },
        ensures
            moves >= 1,
            moves == MAX_STEPS || !goes_on(headed(states[moves - 1], headings[moves - 1])),
        decreases MAX_STEPS - moves,
    {
        let ghost old_headings = headings;
        let ghost old_states = states;
        let (gained, more) = play(&mut game, dir);
        proof {
            lemma_points_bounds(headings, states, moves as nat);
            headings = old_headings.push(dir);
            states = old_states.push(game@);
            lemma_points_prefix(old_headings, old_states, headings, states, moves as nat);
            lemma_playout_grows(old_headings, old_states, dir, game@);
        }
        score += gained;
        moves += 1;
        if !more {
            break ;
        }
        dir = Direction::random();
    }
    proof {
        assert(headings.last() == headings[moves - 1]);
        assert(is_playout(headings, states));
        reveal(has_playout);
    }
    Run { start, score }
}

/// Mathematical model of a tally: the sum of the scores of some playouts and
/// their number. Their mean is the quotient of the two.
pub struct TallyView {
    pub total: nat,
    pub runs: nat,
}

/// The scores gathered for one heading.
#[derive(Debug, Clone, Copy)]
pub struct Tally {
    pub total: u64,
    pub runs: u64,
}

impl View for Tally {
    type V = TallyView;

    open spec fn view(&self) -> TallyView {
        TallyView { total: self.total as nat, runs: self.runs as nat }
    }
}

/// The tally of `dir`, empty where nothing is recorded.
pub open spec fn tally_of(tallies: Map<Direction, TallyView>, dir: Direction) -> TallyView {
    if tallies.contains_key(dir) {
        tallies[dir]
    } else {
        TallyView { total: 0, runs: 0 }
    }
}

/// The tallies after one more playout: with `n` playouts of mean `avg`
/// recorded for its heading, the new mean is `(avg * n + score) / (n + 1)`.
pub open spec fn record_spec(tallies: Map<Direction, TallyView>, run: Run) -> Map<
    Direction,
    TallyView,
> {
    tallies.insert(
        run.start,
        TallyView {
            total: tally_of(tallies, run.start).total + run.score as nat,
            runs: tally_of(tallies, run.start).runs + 1,
        },
    )
}

/// Two sets of tallies combined: for each heading the mean weighted by the
/// numbers of playouts, `(avg_a * n_a + avg_b * n_b) / (n_a + n_b)`.
pub open spec fn merge_spec(a: Map<Direction, TallyView>, b: Map<Direction, TallyView>) -> Map<
    Direction,
    TallyView,
> {
    Map::new(
        |dir: Direction| a.contains_key(dir) || b.contains_key(dir),
        |dir: Direction|
            TallyView {
                total: tally_of(a, dir).total + tally_of(b, dir).total,
                runs: tally_of(a, dir).runs + tally_of(b, dir).runs,
            },
    )
}

/// The tallies of a sequence of playouts, recorded one after the other.
pub open spec fn aggregate_of(runs: Seq<Run>) -> Map<Direction, TallyView>
    decreases runs.len(),
{
    if runs.len() == 0 {
        Map::empty()
    } else {
        record_spec(aggregate_of(runs.drop_last()), runs.last())
    }
}

/// The playouts of all batches, batch after batch.
pub open spec fn concat(batches: Seq<Seq<Run>>) -> Seq<Run>
    decreases batches.len(),
{
    if batches.len() == 0 {
        Seq::empty()
    } else {
        concat(batches.drop_last()) + batches.last()
    }
}

/// The tallies of the batches, each batch recorded by itself and the results
/// combined.
pub open spec fn merged_batches(batches: Seq<Seq<Run>>) -> Map<Direction, TallyView>
    decreases batches.len(),
{
    if batches.len() == 0 {
        Map::empty()
    } else {
        merge_spec(merged_batches(batches.drop_last()), aggregate_of(batches.last()))
    }
}

/// The tallies of `a` combined with those of `b` for the first `done`
/// headings of the enumeration order.
spec fn merged_upto(
    a: Map<Direction, TallyView>,
    b: Map<Direction, TallyView>,
    done: nat,
) -> Map<Direction, TallyView> {
    Map::new(
        |dir: Direction| a.contains_key(dir) || (dir.index_spec() < done && b.contains_key(dir)),
        |dir: Direction|
            if dir.index_spec() < done {
                TallyView {
                    total: tally_of(a, dir).total + tally_of(b, dir).total,
                    runs: tally_of(a, dir).runs + tally_of(b, dir).runs,
                }
            } else {
                tally_of(a, dir)
            },
    )
}

/// Whether the mean of `a` is greater than the mean of `b`.
pub open spec fn better(a: TallyView, b: TallyView) -> bool {
    a.total * b.runs > b.total * a.runs
}

/// Whether `dir` is the heading to choose: its mean is the highest, and it is
/// the first in enumeration order among the headings with that mean.
pub open spec fn is_best(tallies: Map<Direction, TallyView>, dir: Direction) -> bool {
    &&& tallies.contains_key(dir)
    &&& forall|other: Direction| #[trigger]
        tallies.contains_key(other) ==> {
            &&& !better(tallies[other], tallies[dir])
            &&& other.index_spec() < dir.index_spec() ==> better(tallies[dir], tallies[other])
        }
}

/// Whether the tallies can be kept in machine numbers: every recorded
/// heading has at least one and at most `u32::MAX` playouts.
pub open spec fn fits(tallies: Map<Direction, TallyView>) -> bool {
    forall|dir: Direction| #[trigger]
        tallies.contains_key(dir) ==> {
            &&& 1 <= tallies[dir].runs <= u32::MAX
            &&& tallies[dir].total <= tallies[dir].runs * u32::MAX
        }
}

/// At most one heading is the one to choose.
pub proof fn lemma_best_unique(tallies: Map<Direction, TallyView>, a: Direction, b: Direction)
    requires
        is_best(tallies, a),
        is_best(tallies, b),
    ensures
        a == b,
{
    if a.index_spec() < b.index_spec() {
        assert(tallies.contains_key(a));
    } else if b.index_spec() < a.index_spec() {
        assert(tallies.contains_key(b));
    }
}

/// Combining tallies does not depend on the order of the two.
pub proof fn lemma_merge_commutative(a: Map<Direction, TallyView>, b: Map<Direction, TallyView>)
    ensures
        merge_spec(a, b) == merge_spec(b, a),
{
    assert(merge_spec(a, b) =~= merge_spec(b, a));
}

/// Combining tallies does not depend on the grouping.
pub proof fn lemma_merge_associative(
    a: Map<Direction, TallyView>,
    b: Map<Direction, TallyView>,
    c: Map<Direction, TallyView>,
)
    ensures
        merge_spec(merge_spec(a, b), c) == merge_spec(a, merge_spec(b, c)),
{
    assert(merge_spec(merge_spec(a, b), c) =~= merge_spec(a, merge_spec(b, c)));
}

/// Combining with no tallies changes nothing.
pub proof fn lemma_merge_empty(a: Map<Direction, TallyView>)
    ensures
        merge_spec(a, Map::empty()) == a,
        merge_spec(Map::empty(), a) == a,
{
    assert(merge_spec(a, Map::empty()) =~= a);
    assert(merge_spec(Map::empty(), a) =~= a);
}

/// Recording playouts in two batches and combining the tallies gives what
/// recording all of them in one sequence gives.
pub proof fn lemma_aggregate_concat(first: Seq<Run>, second: Seq<Run>)
    ensures
        aggregate_of(first + second) == merge_spec(aggregate_of(first), aggregate_of(second)),
    decreases second.len(),
{
    if second.len() == 0 {
        assert(first + second =~= first);
        lemma_merge_empty(aggregate_of(first));
    } else {
        let whole = first + second;
        assert(whole.drop_last() =~= first + second.drop_last());
        lemma_aggregate_concat(first, second.drop_last());
        assert(aggregate_of(whole) =~= merge_spec(aggregate_of(first), aggregate_of(second)));
    }
}

/// However a sequence of playouts is split into batches, recording each
/// batch by itself and combining the tallies batch by batch gives the
/// tallies, and so the means, of recording the whole sequence in one go.
pub proof fn lemma_partition(batches: Seq<Seq<Run>>)
    ensures
        merged_batches(batches) == aggregate_of(concat(batches)),
    decreases batches.len(),
{
    if batches.len() > 0 {
        lemma_partition(batches.drop_last());
        lemma_aggregate_concat(concat(batches.drop_last()), batches.last());
    }
}

/// The tallies do not depend on the order in which playouts are recorded.
pub proof fn lemma_aggregate_order(first: Seq<Run>, second: Seq<Run>)
    ensures
        aggregate_of(first + second) == aggregate_of(second + first),
{
    lemma_aggregate_concat(first, second);
    lemma_aggregate_concat(second, first);
    lemma_merge_commutative(aggregate_of(first), aggregate_of(second));
}

/// A heading has a tally exactly if a playout started with it, and no tally
/// counts more playouts than there are.
pub proof fn lemma_aggregate_keys(runs: Seq<Run>, dir: Direction)
    ensures
        aggregate_of(runs).contains_key(dir) <==> exists|i: int|
            0 <= i < runs.len() && (#[trigger] runs[i]).start == dir,
        tally_of(aggregate_of(runs), dir).runs <= runs.len(),
        tally_of(aggregate_of(runs), dir).total <= tally_of(aggregate_of(runs), dir).runs
            * u32::MAX,
        aggregate_of(runs).contains_key(dir) ==> tally_of(aggregate_of(runs), dir).runs >= 1,
    decreases runs.len(),
{
    if runs.len() > 0 {
        let front = runs.drop_last();
        lemma_aggregate_keys(front, dir);
        if aggregate_of(runs).contains_key(dir) {
            if runs.last().start == dir {
                assert(runs[runs.len() - 1].start == dir);
            } else {
                let i = choose|i: int| 0 <= i < front.len() && (#[trigger] front[i]).start == dir;
                assert(runs[i].start == dir);
            }
        } else {
            assert forall|i: int| 0 <= i < runs.len() implies (#[trigger] runs[i]).start != dir by {
                if i < front.len() {
                    assert(front[i] == runs[i]);
                }
            }
        }
        let before = tally_of(aggregate_of(front), dir);
        assert(before.total <= before.runs * u32::MAX);
        assert((before.runs + 1) * u32::MAX == before.runs * u32::MAX + u32::MAX)
            by (nonlinear_arith);
    }
}


/// If one mean is greater than a second and the second is not less than a
/// third, the first is greater than the third.
proof fn lemma_better_transitive(a: TallyView, b: TallyView, c: TallyView)
    requires
        a.runs > 0,
        b.runs > 0,
        c.runs > 0,
        better(a, b),
        !better(c, b),
    ensures
        better(a, c),
{
    assert(a.total * b.runs * c.runs > b.total * a.runs * c.runs) by (nonlinear_arith)
        requires
            a.total * b.runs > b.total * a.runs,
            c.runs > 0,
    ;
    assert(c.total * b.runs * a.runs <= b.total * c.runs * a.runs) by (nonlinear_arith)
        requires
            c.total * b.runs <= b.total * c.runs,
            a.runs > 0,
    ;
    assert(a.total * c.runs > c.total * a.runs) by (nonlinear_arith)
        requires
            a.total * b.runs * c.runs > b.total * a.runs * c.runs,
            c.total * b.runs * a.runs <= b.total * c.runs * a.runs,
            b.runs > 0,
    ;
}

/// Whether the mean of `a` is greater than the mean of `b`.
fn exceeds(a: Tally, b: Tally) -> (r: bool)
    ensures
        r == better(a@, b@),
{
    assert(a.total * b.runs <= u64::MAX * u64::MAX) by (nonlinear_arith)
        requires
            a.total <= u64::MAX,
            b.runs <= u64::MAX,
    ;
    assert(b.total * a.runs <= u64::MAX * u64::MAX) by (nonlinear_arith)
        requires
            b.total <= u64::MAX,
            a.runs <= u64::MAX,
    ;
    (a.total as u128) * (b.runs as u128) > (b.total as u128) * (a.runs as u128)
}

/// The tallies of the playouts recorded so far, by heading.
pub struct Aggregate {
    pub tallies: FnvHashMap<u32, Tally>,
}

impl View for Aggregate {
    type V = Map<Direction, TallyView>;

    open spec fn view(&self) -> Map<Direction, TallyView> {
        Map::new(
            |dir: Direction| self.tallies@.contains_key(dir.index_spec() as u32),
            |dir: Direction| self.tallies@[dir.index_spec() as u32]@,
        )
    }
}

impl Aggregate {
    pub open spec fn wf(&self) -> bool {
        fits(self@)
    }

    /// No playout recorded.
    pub fn new() -> (agg: Aggregate)
        ensures
            agg@ == Map::<Direction, TallyView>::empty(),
            agg.wf(),
    {
        let agg = Aggregate { tallies: FnvHashMap::default() };
        assert(agg@ =~= Map::<Direction, TallyView>::empty());
        agg
    }

    /// The tally of `dir`, if a playout started with it.
    pub fn tally(&self, dir: Direction) -> (r: Option<Tally>)
        ensures
            match r {
                Some(tally) => self@.contains_key(dir) && self@[dir] == tally@,
                None => !self@.contains_key(dir),
            },
    {
        lookup(&self.tallies, dir.index())
    }

    /// Records one more playout.
    pub fn record(self, run: Run) -> (agg: Aggregate)
        requires
            self.wf(),
            tally_of(self@, run.start).runs < u32::MAX,
        ensures
            agg@ == record_spec(self@, run),
            agg.wf(),
    {
        let ghost before = self@;
        let mut agg = self;
        let k = run.start.index();
        let old = match lookup(&agg.tallies, k) {
            Some(tally) => tally,
            None => Tally { total: 0, runs: 0 },
        };
        assert(old@ == tally_of(before, run.start));
        assert(old.total + run.score <= (old.runs + 1) * u32::MAX && (old.runs + 1) * u32::MAX
            <= u32::MAX * u32::MAX) by (nonlinear_arith)
            requires
                old.total <= old.runs * u32::MAX,
                old.runs < u32::MAX,
                run.score <= u32::MAX,
        ;
        store(&mut agg.tallies, k, Tally { total: old.total + run.score as u64, runs: old.runs + 1 });
        assert(agg@ =~= record_spec(before, run));
        agg
    }

    /// Combines the tallies of two sets of playouts.
    pub fn merge(self, other: Aggregate) -> (agg: Aggregate)
        requires
            self.wf(),
            other.wf(),
            forall|dir: Direction|
                tally_of(self@, dir).runs + tally_of(other@, dir).runs <= u32::MAX,
        ensures
            agg@ == merge_spec(self@, other@),
            agg.wf(),
    {
        let ghost mine = self@;
        let mut agg = self;
        let mut i: u32 = 0;
        assert(agg@ =~= merged_upto(mine, other@, 0));
        while i < 4
            invariant
                i <= 4,
                fits(mine),
                other.wf(),
                forall|dir: Direction|
                    tally_of(mine, dir).runs + tally_of(other@, dir).runs <= u32::MAX,
                agg@ == merged_upto(mine, other@, i as nat),
            decreases 4 - i,
        {
            let dir = Direction::from_index(i);
            let ghost prev = agg@;
            match lookup(&other.tallies, i) {
                Some(theirs) => {
                    let ours = match lookup(&agg.tallies, i) {
                        Some(tally) => tally,
                        None => Tally { total: 0, runs: 0 },
                    };
                    assert(ours@ == tally_of(agg@, dir));
                    assert(ours@ == tally_of(mine, dir));
                    assert(other@.contains_key(dir));
                    assert(theirs@ == tally_of(other@, dir));
                    assert(tally_of(mine, dir).runs + tally_of(other@, dir).runs <= u32::MAX);
                    assert(ours.total + theirs.total <= u32::MAX * u32::MAX) by (nonlinear_arith)
                        requires
                            ours.total <= ours.runs * u32::MAX,
                            theirs.total <= theirs.runs * u32::MAX,
                            ours.runs + theirs.runs <= u32::MAX,
                    ;
                    store(
                        &mut agg.tallies,
                        i,
                        Tally { total: ours.total + theirs.total, runs: ours.runs + theirs.runs },
                    );
                },
                None => {
                    assert(!other@.contains_key(dir));
                },
            }
            proof {
                let goal = merged_upto(mine, other@, (i + 1) as nat);
                assert forall|d: Direction|
                    #![trigger agg@.dom().contains(d)]
                    #![trigger goal.dom().contains(d)]
                    agg@.dom().contains(d) == goal.dom().contains(d) && (agg@.dom().contains(d)
                        ==> agg@[d] == goal[d]) by {
                    assert(d.index_spec() < 4);
                    if d.index_spec() == i {
                        assert(d == dir);
                    } else {
                        assert(agg@.contains_key(d) == prev.contains_key(d));
                        assert(agg@.contains_key(d) ==> agg@[d] == prev[d]);
                    }
                }
                assert(agg@ =~= goal);
            }
            i += 1;
        }
        assert(agg@ =~= merge_spec(mine, other@));
        assert forall|dir: Direction| #[trigger] agg@.contains_key(dir) implies {
            &&& 1 <= agg@[dir].runs <= u32::MAX
            &&& agg@[dir].total <= agg@[dir].runs * u32::MAX
        } by {
            let a = tally_of(mine, dir);
            let b = tally_of(other@, dir);
            assert(tally_of(mine, dir).runs + tally_of(other@, dir).runs <= u32::MAX);
            assert(a.total + b.total <= (a.runs + b.runs) * u32::MAX) by (nonlinear_arith)
                requires
                    a.total <= a.runs * u32::MAX,
                    b.total <= b.runs * u32::MAX,
            ;
        }
        agg
    }

    /// The heading with the highest mean score, the first in enumeration
    /// order among several; `None` where no playout is recorded.
    pub fn best(&self) -> (r: Option<Direction>)
        requires
            self.wf(),
        ensures
            match r {
                Some(dir) => is_best(self@, dir),
                None => forall|dir: Direction| !self@.contains_key(dir),
            },
    {
        let mut best: Option<(Direction, Tally)> = None;
        let mut i: u32 = 0;
        while i < 4
            invariant
                i <= 4,
                self.wf(),
                match best {
                    Some((dir, tally)) => {
                        &&& dir.index_spec() < i
                        &&& self@.contains_key(dir)
                        &&& self@[dir] == tally@
                        &&& forall|other: Direction|
                            other.index_spec() < i && #[trigger] self@.contains_key(other) ==> {
                                &&& !better(self@[other], tally@)
                                &&& other.index_spec() < dir.index_spec() ==> better(
                                    tally@,
                                    self@[other],
                                )
                            }
                    },
                    None => forall|other: Direction|
                        other.index_spec() < i ==> !self@.contains_key(other),
                },
            decreases 4 - i,
        {
            let dir = Direction::from_index(i);
            match lookup(&self.tallies, i) {
                Some(tally) => {
                    assert(self@.contains_key(dir) && self@[dir] == tally@);
                    match best {
                        Some((leader, leading)) => {
                            if exceeds(tally, leading) {
                                assert forall|other: Direction|
                                    other.index_spec() < i + 1 && #[trigger] self@.contains_key(
                                        other,
                                    ) implies {
                                    &&& !better(self@[other], tally@)
                                    &&& other.index_spec() < dir.index_spec() ==> better(
                                        tally@,
                                        self@[other],
                                    )
                                } by {
                                    if other.index_spec() < i {
                                        lemma_better_transitive(tally@, leading@, self@[other]);
                                    } else {
                                        assert(other == dir);
                                    }
                                }
                                best = Some((dir, tally));
                            } else {
                                assert forall|other: Direction|
                                    other.index_spec() < i + 1 && #[trigger] self@.contains_key(
                                        other,
                                    ) implies {
                                    &&& !better(self@[other], leading@)
                                    &&& other.index_spec() < leader.index_spec() ==> better(
                                        leading@,
                                        self@[other],
                                    )
                                } by {
                                    if other.index_spec() >= i {
                                        assert(other == dir);
                                    }
                                }
                            }
                        },
                        None => {
                            assert forall|other: Direction|
                                other.index_spec() < i + 1 && #[trigger] self@.contains_key(
                                    other,
                                ) implies other == dir by {}
                            best = Some((dir, tally));
                        },
                    }
                },
                None => {
                    assert forall|other: Direction| other.index_spec() == i implies other == dir by {}
                },
            }
            i += 1;
        }
        match best {
            Some((dir, _)) => Some(dir),
            None => None,
        }
    }
}

/// Makes `n` playouts of `game` and records them, the work being handed to
/// the worker threads of the `rayon` crate. `into_par_iter` and `map` make
/// one playout for each number below `n`; `ParallelIterator::fold` has each
/// worker record the playouts that fall to it, starting from no tallies; and
/// `ParallelIterator::reduce` combines the workers' tallies. The contract
/// claims that the result is what recording `n` playouts of `game` in one
/// sequence gives. This rests on `rayon` handing every playout to exactly
/// one worker, and on combining being associative with the empty tallies as
/// its identity, which `lemma_partition` shows. Which playouts come out is
/// left open.
#[verifier::external_body]
fn rollouts(game: &Game, n: usize) -> (agg: Aggregate)
    requires
        game@.wf(),
        n <= u32::MAX,
    ensures
        agg.wf(),
        tallies_of_rollouts(agg@, game@, n as nat),
{
    (0..n)
        .into_par_iter()
        .map(|_| run(game))
        .fold(|| Aggregate::new(), |agg, r| agg.record(r))
        .reduce(|| Aggregate::new(), |a, b| a.merge(b))
}

/// The strategy that scores each first heading by random playouts.
pub struct MonteCarloStrategy;

impl MonteCarloStrategy {
    /// The tallies of `runs` playouts of `game`, made side by side.
    pub fn survey(&self, game: &Game, runs: u32) -> (agg: Aggregate)
        requires
            game@.wf(),
        ensures
            agg.wf(),
            tallies_of_rollouts(agg@, game@, runs as nat),
    {
        rollouts(game, runs as usize)
    }
}

impl Strategy for MonteCarloStrategy {
    /// The first heading whose playouts scored best on average: the best
    /// heading by the tallies of `DEFAULT_RUNS` playouts. It never reverses
    /// the current heading.
    fn tick(&self, game: &Game) -> (dir: Direction)
        ensures
            dir != game@.snake.direction.opposite(),
            exists|tallies: Map<Direction, TallyView>| #[trigger]
                tallies_of_rollouts(tallies, game@, DEFAULT_RUNS as nat) && is_best(tallies, dir),
    {
        let agg = self.survey(game, DEFAULT_RUNS as u32);
        proof {
            let runs = choose|runs: Seq<Run>| #[trigger]
                are_rollouts(game@, runs) && runs.len() == DEFAULT_RUNS as nat && agg@
                    == aggregate_of(runs);
            lemma_aggregate_keys(runs, runs[0].start);
            assert forall|dir: Direction| agg@.contains_key(dir) implies dir
                != game@.snake.direction.opposite() by {
                lemma_aggregate_keys(runs, dir);
                let i = choose|i: int| 0 <= i < runs.len() && (#[trigger] runs[i]).start == dir;
                assert(is_rollout(game@, runs[i]));
            }
        }
        agg.best().unwrap()
    }
}

} // verus!
