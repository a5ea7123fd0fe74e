//! What holds of the engine whatever the catalogue and whatever the calls:
//! theorems about the functions of the model.

use crate::bits::{count, is_set, lemma_same_members, set_bits};
use crate::column::{ColumnView, Coord, COLUMN_HEIGHT};
use crate::compat::{is_table, NeighboursBits};
use crate::model::{
    choose_spec, collapse_all, collapse_from, propagate_spec, single, spawn_all_world,
    spawn_around_spec, spread, step, with_bits, Node, SpawnRequest, State, Visit, World,
    PROPAGATION_BUDGET,
};
use crate::order::{
    columns_of, dedup_spec, is_sorted, lemma_plan_members, lemma_ranked_members, lemma_sort_members,
    lemma_sort_spec, plan, ranked_spec, sort_spec, Ranked,
};
use crate::rng::range_draw;
use crate::tiles::{Neighbour, Side, Tile};
use vstd::prelude::*;

verus! {

/// Every column that is closed in `before` is the same in `after`.
pub open spec fn keeps_closed(before: World, after: World) -> bool {
    forall|p: (int, int)| (#[trigger] before[p]) is Collapsed ==> after[p] == before[p]
}

/// Every column of the list is closed in the world.
pub open spec fn all_closed(world: World, cols: Seq<Coord>) -> bool {
    forall|i: int| 0 <= i < cols.len() ==> world[(#[trigger] cols[i])@] is Collapsed
}

/// What two changes in a row leave closed, the two together leave closed.
pub proof fn lemma_keeps_closed_twice(first: World, second: World, third: World)
    requires
        keeps_closed(first, second),
        keeps_closed(second, third),
    ensures
        keeps_closed(first, third),
{
    assert forall|p: (int, int)| (#[trigger] first[p]) is Collapsed implies third[p] == first[p] by {
        assert(second[p] == first[p]);
        assert(third[p] == second[p]);
    }
}

/// The rules have one table only.
pub proof fn lemma_table_unique(
    first: Seq<NeighboursBits>,
    second: Seq<NeighboursBits>,
    rules: Seq<[Neighbour; 2]>,
    tiles: int,
)
    requires
        is_table(first, rules, tiles),
        is_table(second, rules, tiles),
    ensures
        first == second,
{
    assert forall|a: int| 0 <= a < first.len() implies first[a] == second[a] by {
        assert forall|side: Side| first[a].toward(side) == second[a].toward(side) by {
            assert forall|b: int| 0 <= b < 128 implies is_set(first[a].toward(side), b) == is_set(
                second[a].toward(side),
                b,
            ) by {}
            lemma_same_members(first[a].toward(side), second[a].toward(side));
        }
        assert(first[a].toward(Side::North) == second[a].toward(Side::North));
        assert(first[a].toward(Side::East) == second[a].toward(Side::East));
        assert(first[a].toward(Side::South) == second[a].toward(Side::South));
        assert(first[a].toward(Side::West) == second[a].toward(Side::West));
        assert(first[a].toward(Side::Up) == second[a].toward(Side::Up));
        assert(first[a].toward(Side::Down) == second[a].toward(Side::Down));
    }
    assert(first =~= second);
}

/// A step of propagation leaves closed columns as they are.
pub proof fn lemma_step_keeps_closed(
    table: Seq<NeighboursBits>,
    problem: usize,
    world: World,
    queue: Seq<Node>,
)
    ensures
        keeps_closed(world, step(table, problem, world, queue).0),
{
}

/// Propagation ends within its budget, for every table and every world: a
/// run with a countdown takes fewer nodes from the work list than the
/// countdown has ticks.
pub proof fn lemma_propagation_ends(
    table: Seq<NeighboursBits>,
    problem: usize,
    world: World,
    queue: Seq<Node>,
    countdown: nat,
)
    requires
        countdown >= 1,
    ensures
        propagate_spec(table, problem, world, queue, countdown).steps < countdown,
    decreases countdown,
{
    if countdown <= 1 || queue.len() == 0 {
    } else {
        let (next_world, next_queue) = step(table, problem, world, queue);
        lemma_propagation_ends(table, problem, next_world, next_queue, (countdown - 1) as nat);
    }
}

/// Propagation leaves closed columns as they are.
pub proof fn lemma_propagate_keeps_closed(
    table: Seq<NeighboursBits>,
    problem: usize,
    world: World,
    queue: Seq<Node>,
    countdown: nat,
)
    ensures
        keeps_closed(world, propagate_spec(table, problem, world, queue, countdown).world),
    decreases countdown,
{
    if countdown <= 1 || queue.len() == 0 {
    } else {
        let (next_world, next_queue) = step(table, problem, world, queue);
        lemma_step_keeps_closed(table, problem, world, queue);
        lemma_propagate_keeps_closed(table, problem, next_world, next_queue, (countdown - 1) as nat);
        lemma_keeps_closed_twice(
            world,
            next_world,
            propagate_spec(table, problem, world, queue, countdown).world,
        );
    }
}

/// The choice of a candidate leaves closed columns as they are.
pub proof fn lemma_choose_keeps_closed(
    table: Seq<NeighboursBits>,
    problem: usize,
    world: World,
    queue: Seq<Node>,
    node: Node,
    nth: int,
)
    ensures
        keeps_closed(world, choose_spec(table, problem, world, queue, node, nth).world),
{
    match world[(node.x, node.y)] {
        ColumnView::Collapsed { .. } => {},
        ColumnView::Superposition { bits } => {
            if 0 <= nth < count(bits[node.floor]) {
                let chosen = with_bits(world, node, single(set_bits(bits[node.floor])[nth]));
                lemma_propagate_keeps_closed(
                    table,
                    problem,
                    chosen,
                    queue + spread(node, false),
                    PROPAGATION_BUDGET as nat,
                );
                assert(keeps_closed(world, chosen));
                lemma_keeps_closed_twice(
                    world,
                    chosen,
                    choose_spec(table, problem, world, queue, node, nth).world,
                );
            }
        },
    }
}

/// The collapse of a column leaves closed columns as they are.
pub proof fn lemma_collapse_from_keeps_closed(
    table: Seq<NeighboursBits>,
    problem: usize,
    state: State,
    queue: Seq<Node>,
    x: int,
    y: int,
    floor: int,
)
    ensures
        keeps_closed(state.world, collapse_from(table, problem, state, queue, x, y, floor).0.world),
    decreases COLUMN_HEIGHT - floor,
{
    if floor >= COLUMN_HEIGHT || floor < 0 {
    } else {
        match state.world[(x, y)] {
            ColumnView::Collapsed { .. } => {},
            ColumnView::Superposition { bits } => {
                let candidates = count(bits[floor]);
                if candidates <= 1 {
                    lemma_collapse_from_keeps_closed(table, problem, state, queue, x, y, floor + 1);
                } else {
                    let draw = range_draw(state.rng, candidates as u64);
                    let node = Node { x, y, floor };
                    let run = choose_spec(table, problem, state.world, queue, node, draw.0 as int);
                    lemma_choose_keeps_closed(table, problem, state.world, queue, node, draw.0 as int);
                    lemma_collapse_from_keeps_closed(
                        table,
                        problem,
                        State { world: run.world, rng: draw.1 },
                        run.queue,
                        x,
                        y,
                        floor + 1,
                    );
                    lemma_keeps_closed_twice(
                        state.world,
                        run.world,
                        collapse_from(table, problem, state, queue, x, y, floor).0.world,
                    );
                }
            },
        }
    }
}

/// The collapse of a list of columns leaves closed columns as they are.
pub proof fn lemma_collapse_all_keeps_closed(
    table: Seq<NeighboursBits>,
    problem: usize,
    state: State,
    cols: Seq<Coord>,
)
    ensures
        keeps_closed(state.world, collapse_all(table, problem, state, cols).world),
    decreases cols.len(),
{
    if cols.len() > 0 {
        let before = collapse_all(table, problem, state, cols.drop_last());
        lemma_collapse_all_keeps_closed(table, problem, state, cols.drop_last());
        lemma_collapse_from_keeps_closed(
            table,
            problem,
            before,
            Seq::empty(),
            cols.last().x as int,
            cols.last().y as int,
            0,
        );
        lemma_keeps_closed_twice(
            state.world,
            before.world,
            collapse_all(table, problem, state, cols).world,
        );
    }
}

/// Closing a list of columns leaves closed columns as they are, and leaves
/// every column of the list closed.
pub proof fn lemma_spawn_all_closes(problem: usize, world: World, cols: Seq<Coord>)
    ensures
        keeps_closed(world, spawn_all_world(problem, world, cols)),
        all_closed(spawn_all_world(problem, world, cols), cols),
    decreases cols.len(),
{
    if cols.len() > 0 {
        let shorter = cols.drop_last();
        lemma_spawn_all_closes(problem, world, shorter);
        let before = spawn_all_world(problem, world, shorter);
        let after = spawn_all_world(problem, world, cols);
        assert(keeps_closed(before, after));
        lemma_keeps_closed_twice(world, before, after);
        assert forall|i: int| 0 <= i < cols.len() implies after[(#[trigger] cols[i])@] is Collapsed by {
            if i < shorter.len() {
                assert(before[shorter[i]@] is Collapsed);
            }
        }
    }
}

/// Monotonicity: a visit leaves every closed column as it is. No call ever
/// opens a column again or changes an id that a cell has taken.
pub proof fn lemma_visit_keeps_closed(
    tiles: Seq<Tile>,
    table: Seq<NeighboursBits>,
    problem: usize,
    state: State,
    candidates: Seq<Coord>,
)
    ensures
        keeps_closed(
            state.world,
            spawn_around_spec(tiles, table, problem, state, candidates).state.world,
        ),
{
    let cols = plan(state.world, candidates);
    let collapsed = collapse_all(table, problem, state, cols);
    lemma_collapse_all_keeps_closed(table, problem, state, cols);
    lemma_spawn_all_closes(problem, collapsed.world, cols);
    lemma_keeps_closed_twice(
        state.world,
        collapsed.world,
        spawn_all_world(problem, collapsed.world, cols),
    );
}

/// After a visit every candidate is closed.
pub proof fn lemma_visit_closes(
    tiles: Seq<Tile>,
    table: Seq<NeighboursBits>,
    problem: usize,
    state: State,
    candidates: Seq<Coord>,
)
    ensures
        all_closed(spawn_around_spec(tiles, table, problem, state, candidates).state.world, candidates),
{
    let cols = plan(state.world, candidates);
    let collapsed = collapse_all(table, problem, state, cols);
    let after = spawn_all_world(problem, collapsed.world, cols);
    lemma_plan_members(state.world, candidates);
    lemma_collapse_all_keeps_closed(table, problem, state, cols);
    lemma_spawn_all_closes(problem, collapsed.world, cols);
    assert forall|i: int| 0 <= i < candidates.len() implies after[(#[trigger] candidates[i])@] is Collapsed by {
        let col = candidates[i];
        assert(candidates.contains(col));
        if state.world[col@] is Superposition {
            assert(cols.contains(col));
            let k = choose|k: int| 0 <= k < cols.len() && cols[k] == col;
            assert(after[cols[k]@] is Collapsed);
        } else {
            assert(collapsed.world[col@] == state.world[col@]);
        }
    }
}

/// A visit to candidates that are all closed changes nothing and asks for
/// nothing.
pub proof fn lemma_visit_of_closed(
    tiles: Seq<Tile>,
    table: Seq<NeighboursBits>,
    problem: usize,
    state: State,
    candidates: Seq<Coord>,
)
    requires
        all_closed(state.world, candidates),
    ensures
        spawn_around_spec(tiles, table, problem, state, candidates) == (Visit {
            state,
            requests: Seq::empty(),
        }),
{
    let cols = plan(state.world, candidates);
    lemma_plan_members(state.world, candidates);
    if cols.len() > 0 {
        assert(cols.contains(cols[0]));
        let col = cols[0];
        let i = choose|i: int| 0 <= i < candidates.len() && candidates[i] == col;
        assert(state.world[candidates[i]@] is Collapsed);
    }
    assert(cols =~= Seq::<Coord>::empty());
    let visit = spawn_around_spec(tiles, table, problem, state, candidates);
    assert(visit.state.world == state.world);
    assert(visit.state.rng == state.rng);
}

/// Idempotence of revisits: once a region has been visited, every further
/// visit to the same candidates leaves the state as it is, resolves no
/// column again, and asks for the same objects as any other such visit:
/// none.
pub proof fn lemma_revisit(
    tiles: Seq<Tile>,
    table: Seq<NeighboursBits>,
    problem: usize,
    state: State,
    candidates: Seq<Coord>,
)
    ensures
        ({
            let first = spawn_around_spec(tiles, table, problem, state, candidates);
            let second = spawn_around_spec(tiles, table, problem, first.state, candidates);
            let third = spawn_around_spec(tiles, table, problem, second.state, candidates);
            &&& plan(first.state.world, candidates) == Seq::<Coord>::empty()
            &&& second.state == first.state
            &&& second.requests == Seq::<SpawnRequest>::empty()
            &&& third == second
        }),
{
    let first = spawn_around_spec(tiles, table, problem, state, candidates);
    lemma_visit_closes(tiles, table, problem, state, candidates);
    lemma_visit_of_closed(tiles, table, problem, first.state, candidates);
    lemma_plan_members(first.state.world, candidates);
    let cols = plan(first.state.world, candidates);
    if cols.len() > 0 {
        assert(cols.contains(cols[0]));
        let col = cols[0];
        let i = choose|i: int| 0 <= i < candidates.len() && candidates[i] == col;
        assert(first.state.world[candidates[i]@] is Collapsed);
    }
    assert(cols =~= Seq::<Coord>::empty());
}

/// Among columns without repeats, as among the sorted columns they are
/// taken from, none has more left to decide than one behind it.
proof fn lemma_dedup_ordered(world: World, sorted: Seq<Ranked>)
    requires
        is_sorted(sorted),
        forall|k: int| 0 <= k < sorted.len() ==> world[(#[trigger] sorted[k]).col@].order() == Some(
            sorted[k].order,
        ),
    ensures
        forall|i: int, j: int|
            0 <= i <= j < dedup_spec(columns_of(sorted)).len() ==> world[dedup_spec(
                columns_of(sorted),
            )[i]@].order()->Some_0 <= world[dedup_spec(columns_of(sorted))[j]@].order()->Some_0,
        forall|i: int|
            0 <= i < dedup_spec(columns_of(sorted)).len() ==> world[dedup_spec(
                columns_of(sorted),
            )[i]@].order()->Some_0 <= sorted.last().order,
    decreases sorted.len(),
{
    let cols = columns_of(sorted);
    let out = dedup_spec(cols);
    if sorted.len() > 0 {
        let shorter = sorted.drop_last();
        assert(columns_of(shorter) =~= cols.drop_last());
        assert(is_sorted(shorter)) by {
            assert forall|i: int, j: int| 0 <= i <= j < shorter.len() implies shorter[i].order
                <= shorter[j].order by {
                assert(sorted[i].order <= sorted[j].order);
            }
        }
        assert forall|k: int| 0 <= k < shorter.len() implies world[(#[trigger] shorter[k]).col@].order()
            == Some(shorter[k].order) by {
            assert(shorter[k] == sorted[k]);
        }
        lemma_dedup_ordered(world, shorter);
        let rest = dedup_spec(cols.drop_last());
        if shorter.len() > 0 {
            assert(shorter.last().order <= sorted.last().order) by {
                assert(sorted[sorted.len() - 2].order <= sorted[sorted.len() - 1].order);
            }
        }
        assert(world[sorted[sorted.len() - 1].col@].order() == Some(sorted.last().order));
        assert(cols.last() == sorted.last().col);
        assert forall|i: int| 0 <= i < out.len() implies world[out[i]@].order()->Some_0
            <= sorted.last().order by {
            if i < rest.len() {
                assert(out[i] == rest[i]);
            }
        }
        assert forall|i: int, j: int| 0 <= i <= j < out.len() implies world[out[i]@].order()->Some_0
            <= world[out[j]@].order()->Some_0 by {
            if j < rest.len() {
                assert(out[i] == rest[i] && out[j] == rest[j]);
            } else if i < rest.len() {
                assert(out[i] == rest[i]);
            }
        }
    }
}

/// Entropy ordering: in the order of work no column has more left to decide,
/// counted in the world before the visit, than a column behind it. So of two
/// candidates the one with strictly less left to decide is collapsed first.
pub proof fn lemma_plan_ordered(world: World, candidates: Seq<Coord>)
    ensures
        forall|i: int, j: int|
            0 <= i <= j < plan(world, candidates).len() ==> {
                &&& world[plan(world, candidates)[i]@] is Superposition
                &&& world[plan(world, candidates)[j]@] is Superposition
                &&& world[plan(world, candidates)[i]@].order()->Some_0 <= world[plan(
                    world,
                    candidates,
                )[j]@].order()->Some_0
            },
{
    let ranked = ranked_spec(world, candidates);
    let sorted = sort_spec(ranked);
    lemma_sort_spec(ranked);
    lemma_sort_members(ranked);
    lemma_ranked_members(world, candidates);
    lemma_plan_members(world, candidates);
    assert forall|k: int| 0 <= k < sorted.len() implies world[(#[trigger] sorted[k]).col@].order()
        == Some(sorted[k].order) by {
        assert(sorted.contains(sorted[k]));
        assert(ranked.contains(sorted[k]));
    }
    lemma_dedup_ordered(world, sorted);
    let cols = plan(world, candidates);
    assert forall|i: int, j: int| 0 <= i <= j < cols.len() implies {
        &&& world[cols[i]@] is Superposition
        &&& world[cols[j]@] is Superposition
        &&& world[cols[i]@].order()->Some_0 <= world[cols[j]@].order()->Some_0
    } by {
        assert(cols.contains(cols[i]));
        assert(cols.contains(cols[j]));
    }
}

} // verus!
