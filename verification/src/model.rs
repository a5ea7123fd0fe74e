//! What the engine does, said over mathematical values: a world is a map from
//! positions to columns, the work list is a sequence of nodes, and each
//! operation of the engine is a function from the state before to the state
//! after. The executable engine is proved against these functions.

use crate::bits::{count, set_bits};
use crate::column::{ColumnView, Coord, COLUMN_HEIGHT};
use crate::compat::NeighboursBits;
use crate::order::plan;
use crate::rng::range_draw;
use crate::tiles::{MeshHandle, Side, Tile};
use vstd::prelude::*;

verus! {

/// The column at every position of the grid.
pub type World = Map<(int, int), ColumnView>;

/// A cell that waits for its candidates to be worked out again.
#[derive(Clone, Copy, Debug, PartialEq, Eq, Structural)]
pub struct Pending {
    pub col: Coord,
    pub floor: usize,
}

/// A cell of the grid, as a mathematical value.
pub struct Node {
    pub x: int,
    pub y: int,
    pub floor: int,
}

impl View for Pending {
    type V = Node;

    open spec fn view(&self) -> Node {
        Node { x: self.col.x as int, y: self.col.y as int, floor: self.floor as int }
    }
}

/// One object to bring into the world: the tile of a closed cell that has a
/// mesh.
#[derive(Clone, Copy, Debug, PartialEq, Eq, Structural)]
pub struct SpawnRequest {
    /// The column of the cell.
    pub col: Coord,
    /// The floor of the cell.
    pub floor: usize,
    /// The tile's index in the catalogue.
    pub tile: usize,
    /// The number of quarter turns of the tile.
    pub rotation: usize,
    /// The mesh of the tile.
    pub mesh: MeshHandle,
}

/// How many entries of the work list one call of `propagate` may look at, the
/// last one not included.
pub const PROPAGATION_BUDGET: usize = 1000;

/// The work list as a sequence of nodes.
pub open spec fn nodes(queue: Seq<Pending>) -> Seq<Node> {
    queue.map_values(|p: Pending| p@)
}

/// Every column of the world has its floors and holds only ids below `limit`.
pub open spec fn world_valid(world: World, limit: int) -> bool {
    forall|p: (int, int)| world.contains_key(p) && (#[trigger] world[p]).valid(limit)
}

/// The set with the one member `bit`, as the engine makes it: the empty set
/// with `bit` set.
pub open spec fn single(bit: usize) -> u128 {
    0u128 | (1u128 << (bit as u128))
}

/// The candidates that the neighbours of a cell leave it: what the four
/// columns around it let stand next to them on its floor, and what the cells
/// above and below it in its own column let stand below and above them. Where
/// that leaves nothing, the problem tile stands in.
pub open spec fn possible_spec(table: Seq<NeighboursBits>, problem: usize, world: World, node: Node) -> u128 {
    let north = world[(node.x, node.y + 1)].neighbours_spec(table, node.floor, Side::South);
    let east = world[(node.x + 1, node.y)].neighbours_spec(table, node.floor, Side::West);
    let south = world[(node.x, node.y - 1)].neighbours_spec(table, node.floor, Side::North);
    let west = world[(node.x - 1, node.y)].neighbours_spec(table, node.floor, Side::East);
    let around = ((west & east) & north) & south;
    let column = world[(node.x, node.y)];
    let above = if node.floor < COLUMN_HEIGHT - 1 {
        around & column.neighbours_spec(table, node.floor + 1, Side::Down)
    } else {
        around
    };
    let below = if node.floor > 0 {
        above & column.neighbours_spec(table, node.floor - 1, Side::Up)
    } else {
        above
    };
    if below == 0 {
        below | (1u128 << (problem as u128))
    } else {
        below
    }
}

/// The cells that a change of `node` touches: the cell above it, the cell
/// below it where `below` says so, and the cells on its floor to the north,
/// east, south and west.
pub open spec fn spread(node: Node, below: bool) -> Seq<Node> {
    let up = if node.floor < COLUMN_HEIGHT - 1 {
        seq![Node { x: node.x, y: node.y, floor: node.floor + 1 }]
    } else {
        Seq::empty()
    };
    let down = if below && node.floor > 0 {
        seq![Node { x: node.x, y: node.y, floor: node.floor - 1 }]
    } else {
        Seq::empty()
    };
    up + down + seq![
        Node { x: node.x, y: node.y + 1, floor: node.floor },
        Node { x: node.x + 1, y: node.y, floor: node.floor },
        Node { x: node.x, y: node.y - 1, floor: node.floor },
        Node { x: node.x - 1, y: node.y, floor: node.floor },
    ]
}

/// The world with the candidates of one open cell replaced.
pub open spec fn with_bits(world: World, node: Node, bits: u128) -> World {
    match world[(node.x, node.y)] {
        ColumnView::Superposition { bits: column } => world.insert(
            (node.x, node.y),
            ColumnView::Superposition { bits: column.update(node.floor, bits) },
        ),
        ColumnView::Collapsed { .. } => world,
    }
}

/// One step of propagation: the first node leaves the work list. If its
/// column is open and its neighbours leave it other candidates than it has,
/// it takes those, and the cells around it join the work list.
pub open spec fn step(table: Seq<NeighboursBits>, problem: usize, world: World, queue: Seq<Node>) -> (
    World,
    Seq<Node>,
) {
    let node = queue[0];
    let rest = queue.drop_first();
    match world[(node.x, node.y)] {
        ColumnView::Collapsed { .. } => (world, rest),
        ColumnView::Superposition { bits } => {
            let possible = possible_spec(table, problem, world, node);
            if bits[node.floor] == possible {
                (world, rest)
            } else {
                (with_bits(world, node, possible), rest + spread(node, true))
            }
        },
    }
}

/// What a run of propagation leaves.
pub struct Propagated {
    /// The world after the run.
    pub world: World,
    /// What is left of the work list: nothing, unless the budget ran out.
    pub queue: Seq<Node>,
    /// The number of nodes that the run took from the work list.
    pub steps: nat,
}

/// Propagation: steps, until the work list is empty or the countdown is at
/// its last tick.
pub open spec fn propagate_spec(
    table: Seq<NeighboursBits>,
    problem: usize,
    world: World,
    queue: Seq<Node>,
    countdown: nat,
) -> Propagated
    decreases countdown,
{
    if countdown <= 1 || queue.len() == 0 {
        Propagated { world, queue, steps: 0 }
    } else {
        let (next_world, next_queue) = step(table, problem, world, queue);
        let rest = propagate_spec(table, problem, next_world, next_queue, (countdown - 1) as nat);
        Propagated { world: rest.world, queue: rest.queue, steps: rest.steps + 1 }
    }
}

/// The part of the engine's state that its work changes: the world, and the
/// state words of the random stream.
pub struct State {
    pub world: World,
    pub rng: Seq<u32>,
}

/// The choice of one candidate for the open cell `node`: the cell is left
/// with the `nth` of its candidates, counted from 0 in ascending order, the
/// cell above it and the cells around it on its floor join the work list, and
/// propagation runs. Nothing happens where the column is closed or the cell
/// has no `nth` candidate.
pub open spec fn choose_spec(
    table: Seq<NeighboursBits>,
    problem: usize,
    world: World,
    queue: Seq<Node>,
    node: Node,
    nth: int,
) -> Propagated {
    match world[(node.x, node.y)] {
        ColumnView::Collapsed { .. } => Propagated { world, queue, steps: 0 },
        ColumnView::Superposition { bits } => {
            if 0 <= nth < count(bits[node.floor]) {
                propagate_spec(
                    table,
                    problem,
                    with_bits(world, node, single(set_bits(bits[node.floor])[nth])),
                    queue + spread(node, false),
                    PROPAGATION_BUDGET as nat,
                )
            } else {
                Propagated { world, queue, steps: 0 }
            }
        },
    }
}

/// The collapse of one column from `floor` up. For a floor with more than one
/// candidate a number below their number is drawn from the random stream, the
/// candidate with that number is chosen, and the choice is propagated; the
/// work list that a run leaves is the next run's to go on with.
pub open spec fn collapse_from(
    table: Seq<NeighboursBits>,
    problem: usize,
    state: State,
    queue: Seq<Node>,
    x: int,
    y: int,
    floor: int,
) -> (State, Seq<Node>)
    decreases COLUMN_HEIGHT - floor,
{
    if floor >= COLUMN_HEIGHT || floor < 0 {
        (state, queue)
    } else {
        match state.world[(x, y)] {
            ColumnView::Collapsed { .. } => (state, queue),
            ColumnView::Superposition { bits } => {
                let candidates = count(bits[floor]);
                if candidates <= 1 {
                    collapse_from(table, problem, state, queue, x, y, floor + 1)
                } else {
                    let draw = range_draw(state.rng, candidates as u64);
                    let run = choose_spec(
                        table,
                        problem,
                        state.world,
                        queue,
                        Node { x, y, floor },
                        draw.0 as int,
                    );
                    collapse_from(
                        table,
                        problem,
                        State { world: run.world, rng: draw.1 },
                        run.queue,
                        x,
                        y,
                        floor + 1,
                    )
                }
            },
        }
    }
}

/// The collapse of the column at `(x, y)`.
pub open spec fn collapse_column_spec(
    table: Seq<NeighboursBits>,
    problem: usize,
    state: State,
    x: int,
    y: int,
) -> State {
    collapse_from(table, problem, state, Seq::empty(), x, y, 0).0
}

/// The id that a cell is closed with: the least of its candidates, and the
/// problem tile where it has none.
pub open spec fn settle(bits: u128, problem: usize) -> usize {
    if count(bits) > 0 {
        set_bits(bits)[0]
    } else {
        problem
    }
}

/// The column closed: every floor with the id that it settles on. A closed
/// column stays as it is.
pub open spec fn settled(column: ColumnView, problem: usize) -> ColumnView {
    match column {
        ColumnView::Superposition { bits } => ColumnView::Collapsed {
            tiles: Seq::new(COLUMN_HEIGHT as nat, |f: int| settle(bits[f], problem)),
        },
        ColumnView::Collapsed { .. } => column,
    }
}

/// The requests for the floors below `floor` of a column closed with the ids
/// `ids`: one for each floor whose tile has a mesh, from the ground up.
pub open spec fn requests_below(tiles: Seq<Tile>, col: Coord, ids: Seq<usize>, floor: int) -> Seq<
    SpawnRequest,
>
    decreases floor,
{
    if floor <= 0 {
        Seq::empty()
    } else {
        let rest = requests_below(tiles, col, ids, floor - 1);
        let id = ids[floor - 1];
        match tiles[(id / 4) as int].mesh {
            Some(mesh) => rest.push(
                SpawnRequest {
                    col,
                    floor: (floor - 1) as usize,
                    tile: id / 4,
                    rotation: id % 4,
                    mesh,
                },
            ),
            None => rest,
        }
    }
}

/// The requests that closing a column gives: those of its floors, where it
/// was open, and none where it was closed already.
pub open spec fn spawn_column_requests(tiles: Seq<Tile>, problem: usize, world: World, col: Coord) -> Seq<
    SpawnRequest,
> {
    match world[col@] {
        ColumnView::Superposition { .. } => requests_below(
            tiles,
            col,
            settled(world[col@], problem)->Collapsed_tiles,
            COLUMN_HEIGHT as int,
        ),
        ColumnView::Collapsed { .. } => Seq::empty(),
    }
}

/// The world after closing a column.
pub open spec fn spawn_column_world(problem: usize, world: World, col: Coord) -> World {
    world.insert(col@, settled(world[col@], problem))
}

/// The columns of the list collapsed one after the other.
pub open spec fn collapse_all(table: Seq<NeighboursBits>, problem: usize, state: State, cols: Seq<Coord>) -> State
    decreases cols.len(),
{
    if cols.len() == 0 {
        state
    } else {
        let before = collapse_all(table, problem, state, cols.drop_last());
        collapse_column_spec(table, problem, before, cols.last().x as int, cols.last().y as int)
    }
}

/// The world after the columns of the list have been closed one after the
/// other.
pub open spec fn spawn_all_world(problem: usize, world: World, cols: Seq<Coord>) -> World
    decreases cols.len(),
{
    if cols.len() == 0 {
        world
    } else {
        spawn_column_world(problem, spawn_all_world(problem, world, cols.drop_last()), cols.last())
    }
}

/// The requests that closing the columns of the list one after the other
/// gives.
pub open spec fn spawn_all_requests(tiles: Seq<Tile>, problem: usize, world: World, cols: Seq<Coord>) -> Seq<
    SpawnRequest,
>
    decreases cols.len(),
{
    if cols.len() == 0 {
        Seq::empty()
    } else {
        spawn_all_requests(tiles, problem, world, cols.drop_last()) + spawn_column_requests(
            tiles,
            problem,
            spawn_all_world(problem, world, cols.drop_last()),
            cols.last(),
        )
    }
}

/// What a visit leaves: the new state, and the requests for the embedding
/// program.
pub struct Visit {
    pub state: State,
    pub requests: Seq<SpawnRequest>,
}

/// A visit to the candidates: the open columns among them are put in order,
/// collapsed in that order, and then closed in that order.
pub open spec fn spawn_around_spec(
    tiles: Seq<Tile>,
    table: Seq<NeighboursBits>,
    problem: usize,
    state: State,
    candidates: Seq<Coord>,
) -> Visit {
    let cols = plan(state.world, candidates);
    let collapsed = collapse_all(table, problem, state, cols);
    Visit {
        state: State {
            world: spawn_all_world(problem, collapsed.world, cols),
            rng: collapsed.rng,
        },
        requests: spawn_all_requests(tiles, problem, collapsed.world, cols),
    }
}

/// The place, on the grid of chunks, of the chunk that holds the column at
/// `(x, y)`, for chunks of the given size.
pub open spec fn chunk_of(extent: Coord, x: int, y: int) -> (int, int) {
    (x / (extent.x as int), y / (extent.y as int))
}

/// The chunks that working out a node again asks the store for: that of the
/// node's column and, where the column is open, those of the four columns
/// around it.
pub open spec fn reduce_chunks(extent: Coord, world: World, node: Node) -> Set<(int, int)> {
    let own = set![chunk_of(extent, node.x, node.y)];
    match world[(node.x, node.y)] {
        ColumnView::Collapsed { .. } => own,
        ColumnView::Superposition { .. } => own.insert(chunk_of(extent, node.x, node.y + 1)).insert(
            chunk_of(extent, node.x + 1, node.y),
        ).insert(chunk_of(extent, node.x, node.y - 1)).insert(chunk_of(extent, node.x - 1, node.y)),
    }
}

/// The chunks that a run of propagation asks the store for.
pub open spec fn propagate_chunks(
    extent: Coord,
    table: Seq<NeighboursBits>,
    problem: usize,
    world: World,
    queue: Seq<Node>,
    countdown: nat,
) -> Set<(int, int)>
    decreases countdown,
{
    if countdown <= 1 || queue.len() == 0 {
        Set::empty()
    } else {
        let (next_world, next_queue) = step(table, problem, world, queue);
        reduce_chunks(extent, world, queue[0]).union(
            propagate_chunks(extent, table, problem, next_world, next_queue, (countdown - 1) as nat),
        )
    }
}

/// The chunks that the choice of a candidate asks the store for.
pub open spec fn choose_chunks(
    extent: Coord,
    table: Seq<NeighboursBits>,
    problem: usize,
    world: World,
    queue: Seq<Node>,
    node: Node,
    nth: int,
) -> Set<(int, int)> {
    let own = set![chunk_of(extent, node.x, node.y)];
    match world[(node.x, node.y)] {
        ColumnView::Collapsed { .. } => own,
        ColumnView::Superposition { bits } => {
            if 0 <= nth < count(bits[node.floor]) {
                own.union(
                    propagate_chunks(
                        extent,
                        table,
                        problem,
                        with_bits(world, node, single(set_bits(bits[node.floor])[nth])),
                        queue + spread(node, false),
                        PROPAGATION_BUDGET as nat,
                    ),
                )
            } else {
                own
            }
        },
    }
}

/// The chunks that the collapse of one column from `floor` up asks the store
/// for.
pub open spec fn collapse_chunks(
    extent: Coord,
    table: Seq<NeighboursBits>,
    problem: usize,
    state: State,
    queue: Seq<Node>,
    x: int,
    y: int,
    floor: int,
) -> Set<(int, int)>
    decreases COLUMN_HEIGHT - floor,
{
    if floor >= COLUMN_HEIGHT || floor < 0 {
        Set::empty()
    } else {
        let own = set![chunk_of(extent, x, y)];
        match state.world[(x, y)] {
            ColumnView::Collapsed { .. } => own,
            ColumnView::Superposition { bits } => {
                let candidates = count(bits[floor]);
                if candidates <= 1 {
                    own.union(collapse_chunks(extent, table, problem, state, queue, x, y, floor + 1))
                } else {
                    let draw = range_draw(state.rng, candidates as u64);
                    let node = Node { x, y, floor };
                    let run = choose_spec(table, problem, state.world, queue, node, draw.0 as int);
                    choose_chunks(extent, table, problem, state.world, queue, node, draw.0 as int).union(
                        collapse_chunks(
                            extent,
                            table,
                            problem,
                            State { world: run.world, rng: draw.1 },
                            run.queue,
                            x,
                            y,
                            floor + 1,
                        ),
                    )
                }
            },
        }
    }
}

/// The chunks of the columns of a list.
pub open spec fn chunks_of(extent: Coord, cols: Seq<Coord>) -> Set<(int, int)>
    decreases cols.len(),
{
    if cols.len() == 0 {
        Set::empty()
    } else {
        chunks_of(extent, cols.drop_last()).insert(
            chunk_of(extent, cols.last().x as int, cols.last().y as int),
        )
    }
}

/// The chunks that the collapse of the columns of a list, one after the
/// other, asks the store for.
pub open spec fn collapse_all_chunks(
    extent: Coord,
    table: Seq<NeighboursBits>,
    problem: usize,
    state: State,
    cols: Seq<Coord>,
) -> Set<(int, int)>
    decreases cols.len(),
{
    if cols.len() == 0 {
        Set::empty()
    } else {
        collapse_all_chunks(extent, table, problem, state, cols.drop_last()).union(
            collapse_chunks(
                extent,
                table,
                problem,
                collapse_all(table, problem, state, cols.drop_last()),
                Seq::empty(),
                cols.last().x as int,
                cols.last().y as int,
                0,
            ),
        )
    }
}

/// The chunks that a visit asks the store for: those of the candidates, and
/// those that the collapse of the columns to resolve asks for.
pub open spec fn visit_chunks(
    extent: Coord,
    table: Seq<NeighboursBits>,
    problem: usize,
    state: State,
    candidates: Seq<Coord>,
) -> Set<(int, int)> {
    chunks_of(extent, candidates).union(
        collapse_all_chunks(extent, table, problem, state, plan(state.world, candidates)),
    )
}

} // verus!
