//! The terrain: the catalogue, the compatibility table, the store of columns
//! and the random stream, with the operations that resolve columns.

use crate::bits::{
    bit_empty, bit_intersection, bit_set, bit_test_none, bounded, count_bits, first_bit, full_below,
    is_set, iter_bits, lemma_is_set_and, lemma_is_set_low_mask, lemma_is_set_or, lemma_is_set_single,
    lemma_is_set_zero, lemma_same_members, lemma_set_bits_below, low_mask,
};
use crate::chunks::Chunks;
use crate::column::{lemma_fresh_valid, Cell, Column, ColumnView, Coord, Memoized, COLUMN_HEIGHT};
use crate::compat::{
    aggregate, aggregate_spec, allowed, build_table, is_table, lemma_aggregate_bounded,
    lemma_aggregate_members, lemma_table_bounded, rules_valid, table_bounded, NeighboursBits,
};
use crate::laws::{
    all_closed, keeps_closed, lemma_choose_keeps_closed, lemma_collapse_from_keeps_closed,
    lemma_propagate_keeps_closed,
    lemma_table_unique, lemma_visit_closes, lemma_visit_keeps_closed,
};
use crate::model::{
    choose_chunks, choose_spec, chunk_of, chunks_of, collapse_all, collapse_all_chunks,
    collapse_chunks, collapse_column_spec, propagate_chunks, reduce_chunks, visit_chunks, collapse_from, nodes, possible_spec, propagate_spec,
    requests_below, settle, settled, spawn_all_requests, spawn_all_world, spawn_around_spec,
    spawn_column_requests, spawn_column_world, spread, step, with_bits, world_valid, Node, Pending,
    SpawnRequest, State, World, PROPAGATION_BUDGET,
};
use crate::order::{dedup_columns, lemma_plan_members, plan, ranked_spec, sort_by_order, Ranked};
use crate::rng::{draw_below, rng_words, seed_rng, seeded_words};
use crate::tiles::{Neighbour, Side, Tile, TileSet, MAX_TILES};
use rand_xoshiro::Xoshiro128PlusPlus;
use std::collections::VecDeque;
use vstd::prelude::*;

verus! {

/// Why a terrain could not be made.
#[derive(Clone, Copy, Debug, PartialEq, Eq, Structural)]
pub enum TerrainError {
    /// A chunk has no columns, or more than can be counted.
    ChunkExtent,
    /// The catalogue has more tiles than a set of ids has room for.
    Capacity,
    /// The problem tile is no id of the catalogue.
    ProblemTile,
    /// A rule names a tile that the catalogue lacks, or pairs an upper or
    /// lower face with anything but its counterpart.
    Adjacency,
    /// In some direction some id can stand next to no id at all.
    Inconsistent,
}

/// The world generator.
pub struct Terrain {
    chunks: Chunks,
    rng: Xoshiro128PlusPlus,
    tile_set: TileSet,
    problem_tile: usize,
    any_tile_bits: u128,
    neighbours: Vec<NeighboursBits>,
    memoized: Memoized,
}

/// A chunk of this size has at least one column, and no more than can be
/// counted.
pub open spec fn extent_ok(extent: Coord) -> bool {
    extent.x > 0 && extent.y > 0 && extent.x * extent.y <= isize::MAX
}

/// Some id of `tiles` tiles lets `b` stand on its `side` side.
pub open spec fn has_partner(rules: Seq<[Neighbour; 2]>, tiles: int, side: Side, b: int) -> bool {
    exists|a: int| 0 <= a < 4 * tiles && #[trigger] allowed(rules, a, side, b)
}

/// In every direction, every id of `tiles` tiles may stand next to some id.
pub open spec fn closure_holds(rules: Seq<[Neighbour; 2]>, tiles: int) -> bool {
    forall|side: Side, b: int| 0 <= b < 4 * tiles ==> #[trigger] has_partner(rules, tiles, side, b)
}

/// Why no terrain can be made of these parts, if none can.
pub open spec fn construction_error(
    tiles: Seq<Tile>,
    rules: Seq<[Neighbour; 2]>,
    problem_tile: usize,
    chunk_extent: Coord,
) -> Option<TerrainError> {
    if !extent_ok(chunk_extent) {
        Some(TerrainError::ChunkExtent)
    } else if tiles.len() * 4 > 128 {
        Some(TerrainError::Capacity)
    } else if problem_tile >= tiles.len() * 4 {
        Some(TerrainError::ProblemTile)
    } else if !rules_valid(rules, tiles.len() as int) {
        Some(TerrainError::Adjacency)
    } else if !closure_holds(rules, tiles.len() as int) {
        Some(TerrainError::Inconsistent)
    } else {
        None
    }
}

/// Over the table of well-formed rules, the aggregate of all ids toward a
/// side is the set of all ids exactly if every id may stand on that side of
/// some id.
proof fn lemma_closure(table: Seq<NeighboursBits>, rules: Seq<[Neighbour; 2]>, tiles: int, side: Side)
    requires
        0 <= tiles <= MAX_TILES,
        is_table(table, rules, tiles),
        rules_valid(rules, tiles),
    ensures
        aggregate_spec(table, low_mask(4 * tiles), side) == low_mask(4 * tiles) <==> (forall|b: int|
            0 <= b < 4 * tiles ==> #[trigger] has_partner(rules, tiles, side, b)),
{
    let any = low_mask(4 * tiles);
    let all = aggregate_spec(table, any, side);
    lemma_table_bounded(table, rules, tiles);
    assert forall|a: int| is_set(any, a) <==> 0 <= a < 4 * tiles by {
        lemma_is_set_low_mask(4 * tiles, a);
    }
    if forall|b: int| 0 <= b < 4 * tiles ==> #[trigger] has_partner(rules, tiles, side, b) {
        assert forall|i: int| 0 <= i < 128 implies is_set(all, i) == is_set(any, i) by {
            lemma_aggregate_members(table, any, side, 128, i);
            if i < 4 * tiles {
                assert(has_partner(rules, tiles, side, i));
                let a = choose|a: int| 0 <= a < 4 * tiles && #[trigger] allowed(rules, a, side, i);
                assert(is_set(table[a].toward(side), i));
                assert(is_set(any, a));
            } else if is_set(all, i) {
                let a = choose|a: int|
                    0 <= a < 128 && is_set(any, a) && #[trigger] is_set(table[a].toward(side), i);
                assert(bounded(table[a].toward(side), table.len() as int));
            }
        }
        lemma_same_members(all, any);
    }
    if all == any {
        assert forall|b: int| 0 <= b < 4 * tiles implies #[trigger] has_partner(
            rules,
            tiles,
            side,
            b,
        ) by {
            lemma_aggregate_members(table, any, side, 128, b);
            assert(is_set(any, b));
            let a = choose|a: int|
                0 <= a < 128 && is_set(any, a) && #[trigger] is_set(table[a].toward(side), b);
            assert(allowed(rules, a, side, b));
        }
    }
}

impl Terrain {
    /// The tiles of the catalogue.
    pub closed spec fn tiles(&self) -> Seq<Tile> {
        self.tile_set.tiles@
    }

    /// The rules of the catalogue.
    pub closed spec fn rules(&self) -> Seq<[Neighbour; 2]> {
        self.tile_set.neighbours@
    }

    /// The compatibility table.
    pub closed spec fn table(&self) -> Seq<NeighboursBits> {
        self.neighbours@
    }

    /// The id that stands in where nothing fits.
    pub closed spec fn problem_tile(&self) -> usize {
        self.problem_tile
    }

    /// The set of all ids of the catalogue.
    pub closed spec fn any_tile_bits(&self) -> u128 {
        self.any_tile_bits
    }

    /// The size of a chunk in columns.
    pub closed spec fn chunk_extent(&self) -> Coord {
        self.chunks.extent()
    }

    /// Whether the chunk at `(cx, cy)` of the grid of chunks exists.
    pub closed spec fn loaded(&self, cx: int, cy: int) -> bool {
        self.chunks.loaded(cx, cy)
    }

    /// The column at every position.
    pub closed spec fn world(&self) -> World {
        self.chunks.world()
    }

    /// The state words of the random stream.
    pub closed spec fn rng(&self) -> Seq<u32> {
        rng_words(self.rng)
    }

    /// The world and the random stream together.
    pub open spec fn state(&self) -> State {
        State { world: self.world(), rng: self.rng() }
    }

    /// What holds of every terrain: the table is that of the rules, in every
    /// direction every id may stand next to some id, and every column holds
    /// ids of the catalogue only.
    pub closed spec fn wf(&self) -> bool {
        &&& self.chunks.wf()
        &&& self.chunks.fill() == self.any_tile_bits
        &&& self.tile_set.tiles.len() <= MAX_TILES
        &&& self.problem_tile < self.neighbours.len()
        &&& self.any_tile_bits == low_mask(self.neighbours.len() as int)
        &&& rules_valid(self.rules(), self.tile_set.tiles.len() as int)
        &&& is_table(self.neighbours@, self.rules(), self.tile_set.tiles.len() as int)
        &&& closure_holds(self.rules(), self.tile_set.tiles.len() as int)
        &&& world_valid(self.chunks.world(), self.neighbours.len() as int)
        &&& self.memoized.wf(self.neighbours@)
    }

    /// The closure of the table: for every direction, the ids that may stand
    /// in that direction of some id of the catalogue are all ids of the
    /// catalogue. It holds of every terrain, from its construction on.
    pub proof fn lemma_closure_invariant(&self, side: Side)
        requires
            self.wf(),
        ensures
            aggregate_spec(self.table(), self.any_tile_bits(), side) == self.any_tile_bits(),
    {
        let tiles = self.tile_set.tiles.len() as int;
        lemma_closure(self.neighbours@, self.rules(), tiles, side);
        assert forall|b: int| 0 <= b < 4 * tiles implies #[trigger] has_partner(
            self.rules(),
            tiles,
            side,
            b,
        ) by {}
    }

    /// What a terrain keeps to, whatever has been done to it: the table is
    /// that of its rules, which are well formed; the problem tile and every id
    /// in every column are ids of the catalogue.
    pub proof fn lemma_invariants(&self)
        requires
            self.wf(),
        ensures
            self.tiles().len() <= MAX_TILES,
            self.table().len() == 4 * self.tiles().len(),
            self.any_tile_bits() == low_mask(4 * self.tiles().len() as int),
            self.problem_tile() < 4 * self.tiles().len(),
            rules_valid(self.rules(), self.tiles().len() as int),
            is_table(self.table(), self.rules(), self.tiles().len() as int),
            closure_holds(self.rules(), self.tiles().len() as int),
            world_valid(self.world(), 4 * self.tiles().len() as int),
    {
    }

    /// Determinism: what a visit leaves and asks for depends on the
    /// catalogue, the problem tile, the world and the state of the random
    /// stream, and on nothing else of a terrain.
    pub proof fn lemma_deterministic(&self, other: Terrain, candidates: Seq<Coord>)
        requires
            self.wf(),
            other.wf(),
            self.tiles() == other.tiles(),
            self.rules() == other.rules(),
            self.problem_tile() == other.problem_tile(),
            self.state() == other.state(),
        ensures
            self.table() == other.table(),
            self.any_tile_bits() == other.any_tile_bits(),
            spawn_around_spec(
                self.tiles(),
                self.table(),
                self.problem_tile(),
                self.state(),
                candidates,
            ) == spawn_around_spec(
                other.tiles(),
                other.table(),
                other.problem_tile(),
                other.state(),
                candidates,
            ),
    {
        lemma_table_unique(
            self.neighbours@,
            other.neighbours@,
            self.rules(),
            self.tile_set.tiles.len() as int,
        );
    }

    /// A terrain over a catalogue, with every column fresh and no chunk in
    /// being yet; or the reason why the catalogue, the problem tile or the
    /// size of a chunk will not do.
    pub fn new(tile_set: TileSet, problem_tile: usize, chunk_extent: Coord, seed: u64) -> (r: Result<
        Terrain,
        TerrainError,
    >)
        ensures
            match r {
                Ok(terrain) => {
                    &&& construction_error(
                        tile_set.tiles@,
                        tile_set.neighbours@,
                        problem_tile,
                        chunk_extent,
                    ) is None
                    &&& terrain.wf()
                    &&& terrain.tiles() == tile_set.tiles@
                    &&& terrain.rules() == tile_set.neighbours@
                    &&& terrain.problem_tile() == problem_tile
                    &&& terrain.chunk_extent() == chunk_extent
                    &&& terrain.any_tile_bits() == low_mask(4 * tile_set.tiles.len())
                    &&& is_table(terrain.table(), tile_set.neighbours@, tile_set.tiles.len() as int)
                    &&& forall|side: Side| #[trigger]
                        aggregate_spec(terrain.table(), terrain.any_tile_bits(), side)
                            == terrain.any_tile_bits()
                    &&& terrain.world() == Map::total(
                        |p: (int, int)| ColumnView::fresh(terrain.any_tile_bits()),
                    )
                    &&& terrain.chunks() == Set::<(int, int)>::empty()
                    &&& terrain.rng() == seeded_words(seed)
                },
                Err(error) => construction_error(
                    tile_set.tiles@,
                    tile_set.neighbours@,
                    problem_tile,
                    chunk_extent,
                ) == Some(error),
            },
    {
        if chunk_extent.x <= 0 || chunk_extent.y <= 0 {
            return Err(TerrainError::ChunkExtent);
        }
        if chunk_extent.x.checked_mul(chunk_extent.y).is_none() {
            return Err(TerrainError::ChunkExtent);
        }
        let len = tile_set.tiles.len();
        if len > MAX_TILES {
            return Err(TerrainError::Capacity);
        }
        if problem_tile >= len * 4 {
            return Err(TerrainError::ProblemTile);
        }
        let any_tile_bits = full_below(len * 4);
        let neighbours = match build_table(len, &tile_set.neighbours) {
            None => {
                return Err(TerrainError::Adjacency);
            },
            Some(table) => table,
        };
        proof {
            lemma_table_bounded(neighbours@, tile_set.neighbours@, len as int);
            assert forall|a: int| #[trigger] is_set(any_tile_bits, a) implies a < neighbours.len() by {
                lemma_is_set_low_mask(4 * len, a);
            }
        }
        let sides = [Side::North, Side::East, Side::South, Side::West, Side::Up, Side::Down];
        let mut k: usize = 0;
        while k < 6
            invariant
                k <= 6,
                len <= MAX_TILES,
                len == tile_set.tiles.len(),
                extent_ok(chunk_extent),
                problem_tile < len * 4,
                neighbours.len() == 4 * len,
                sides@ == seq![Side::North, Side::East, Side::South, Side::West, Side::Up, Side::Down],
                any_tile_bits == low_mask(4 * len),
                bounded(any_tile_bits, neighbours.len() as int),
                is_table(neighbours@, tile_set.neighbours@, len as int),
                rules_valid(tile_set.neighbours@, len as int),
                forall|j: int|
                    0 <= j < k ==> aggregate_spec(neighbours@, any_tile_bits, #[trigger] sides@[j])
                        == any_tile_bits,
            decreases 6 - k,
        {
            let is_any = aggregate(&neighbours, any_tile_bits, sides[k]);
            if is_any != any_tile_bits {
                proof {
                    let side = sides@[k as int];
                    lemma_closure(neighbours@, tile_set.neighbours@, len as int, side);
                    if closure_holds(tile_set.neighbours@, len as int) {
                        assert forall|b: int| 0 <= b < 4 * len implies #[trigger] has_partner(
                            tile_set.neighbours@,
                            len as int,
                            side,
                            b,
                        ) by {}
                    }
                }
                return Err(TerrainError::Inconsistent);
            }
            k = k + 1;
        }
        proof {
            assert forall|side: Side| #[trigger]
                aggregate_spec(neighbours@, any_tile_bits, side) == any_tile_bits by {
                assert(side == sides@[side.index_spec()]);
            }
            assert forall|side: Side, b: int| 0 <= b < 4 * len implies #[trigger] has_partner(
                tile_set.neighbours@,
                len as int,
                side,
                b,
            ) by {
                lemma_closure(neighbours@, tile_set.neighbours@, len as int, side);
            }
            lemma_fresh_valid(any_tile_bits, neighbours.len() as int);
        }
        let chunks = Chunks::new(chunk_extent, any_tile_bits);
        let terrain = Terrain {
            chunks,
            rng: seed_rng(seed),
            tile_set,
            problem_tile,
            any_tile_bits,
            neighbours,
            memoized: Memoized::new(),
        };
        Ok(terrain)
    }
}

/// How far from the column that a call works on the work list may come to
/// reach: each of the sixteen runs of propagation for a column moves away by
/// less than its budget.
pub const REACH: isize = 16_016;

/// The farthest from the origin, along either axis, that a column to be
/// resolved may lie: the largest coordinate, less what the work list may
/// reach beyond it.
pub open spec fn coord_limit() -> int {
    isize::MAX - REACH
}

/// The farthest from the origin, along either axis, that an entry of a work
/// list handed to `propagate` may lie.
pub open spec fn queue_limit() -> int {
    isize::MAX - PROPAGATION_BUDGET
}

/// Whether a column lies within `coord_limit()` of the origin along either
/// axis.
pub fn reachable(col: Coord) -> (r: bool)
    ensures
        r == (-coord_limit() <= col.x <= coord_limit() && -coord_limit() <= col.y <= coord_limit()),
{
    let limit = isize::MAX - REACH;
    -limit <= col.x && col.x <= limit && -limit <= col.y && col.y <= limit
}

/// Every entry of the work list names a floor of a column, no farther than
/// `reach` from the origin along either axis.
pub open spec fn within(queue: Seq<Pending>, reach: int) -> bool {
    forall|i: int|
        0 <= i < queue.len() ==> {
            &&& -reach <= (#[trigger] queue[i]).col.x <= reach
            &&& -reach <= queue[i].col.y <= reach
            &&& queue[i].floor < COLUMN_HEIGHT
        }
}

/// What the neighbours leave a cell holds ids of the table only.
proof fn lemma_possible_bounded(table: Seq<NeighboursBits>, problem: usize, world: World, node: Node)
    requires
        table_bounded(table),
        problem < table.len() <= 128,
        world_valid(world, table.len() as int),
        0 <= node.floor < COLUMN_HEIGHT,
    ensures
        bounded(possible_spec(table, problem, world, node), table.len() as int),
{
    let limit = table.len() as int;
    let west = world[(node.x - 1, node.y)].neighbours_spec(table, node.floor, Side::East);
    let east = world[(node.x + 1, node.y)].neighbours_spec(table, node.floor, Side::West);
    let north = world[(node.x, node.y + 1)].neighbours_spec(table, node.floor, Side::South);
    let south = world[(node.x, node.y - 1)].neighbours_spec(table, node.floor, Side::North);
    lemma_neighbours_bounded(table, world[(node.x - 1, node.y)], node.floor, Side::East);
    let around = ((west & east) & north) & south;
    let column = world[(node.x, node.y)];
    let up = column.neighbours_spec(table, node.floor + 1, Side::Down);
    let down = column.neighbours_spec(table, node.floor - 1, Side::Up);
    let above = if node.floor < COLUMN_HEIGHT - 1 {
        around & up
    } else {
        around
    };
    let below = if node.floor > 0 {
        above & down
    } else {
        above
    };
    assert forall|i: int| #[trigger] is_set(possible_spec(table, problem, world, node), i) implies i
        < limit by {
        if below == 0 {
            lemma_is_set_or(below, 1u128 << (problem as u128), i);
            lemma_is_set_zero(i);
            lemma_is_set_single(problem as int, i);
        } else {
            lemma_is_set_and(above, down, i);
            lemma_is_set_and(around, up, i);
            lemma_is_set_and((west & east) & north, south, i);
            lemma_is_set_and(west & east, north, i);
            lemma_is_set_and(west, east, i);
            assert(is_set(west, i));
        }
    }
}

/// What a cell of a valid column lets stand next to it holds ids of the table
/// only.
proof fn lemma_neighbours_bounded(table: Seq<NeighboursBits>, column: ColumnView, floor: int, side: Side)
    requires
        table_bounded(table),
        column.valid(table.len() as int),
        0 <= floor < COLUMN_HEIGHT,
    ensures
        bounded(column.neighbours_spec(table, floor, side), table.len() as int),
{
    match column {
        ColumnView::Superposition { bits } => {
            lemma_aggregate_bounded(table, bits[floor], side);
        },
        ColumnView::Collapsed { tiles } => {
            assert(tiles[floor] < table.len());
        },
    }
}

/// The work list with the cells that a change of `at` touches added at its
/// end.
fn enqueue_spread(queue: &mut VecDeque<Pending>, at: Pending, below: bool)
    requires
        at.floor < COLUMN_HEIGHT,
        isize::MIN < at.col.x < isize::MAX,
        isize::MIN < at.col.y < isize::MAX,
    ensures
        nodes(final(queue)@) == nodes(old(queue)@) + spread(at@, below),
        forall|reach: int|
            #[trigger] within(old(queue)@, reach) && -reach <= at.col.x <= reach && -reach <= at.col.y
                <= reach ==> within(final(queue)@, reach + 1),
{
    let col = at.col;
    let floor = at.floor;
    let ghost start = queue@;
    if floor < COLUMN_HEIGHT - 1 {
        queue.push_back(Pending { col, floor: floor + 1 });
    }
    if below && floor > 0 {
        queue.push_back(Pending { col, floor: floor - 1 });
    }
    queue.push_back(Pending { col: Coord { x: col.x, y: col.y + 1 }, floor });
    queue.push_back(Pending { col: Coord { x: col.x + 1, y: col.y }, floor });
    queue.push_back(Pending { col: Coord { x: col.x, y: col.y - 1 }, floor });
    queue.push_back(Pending { col: Coord { x: col.x - 1, y: col.y }, floor });
    proof {
        assert(nodes(queue@) =~= nodes(start) + spread(at@, below));
    }
}

impl Terrain {
    /// What the cell at `floor` of the column at `col` lets stand on its
    /// `side` side.
    fn side_neighbours(&mut self, col: Coord, floor: usize, side: Side) -> (r: u128)
        requires
            old(self).wf(),
            floor < COLUMN_HEIGHT,
        ensures
            final(self).wf(),
            final(self).same_terms(*old(self)),
            final(self).chunks() == old(self).chunks_with(col),
            final(self).state() == old(self).state(),
            r == old(self).world()[col@].neighbours_spec(old(self).table(), floor as int, side),
    {
        let ghost world = self.chunks.world();
        assert(world.contains_key(col@) && world[col@].valid(self.neighbours.len() as int));
        let column = self.chunks.get_column(col);
        let r = column.neighbours(floor, side, &self.neighbours, &mut self.memoized);
        assert(self.chunks.world() =~= world);
        assert(self.chunks() =~= old(self).chunks_with(col));
        r
    }

    /// The catalogue, the table, the problem tile and the size of a chunk are
    /// those of `other`.
    pub open spec fn same_terms(&self, other: Terrain) -> bool {
        &&& self.tiles() == other.tiles()
        &&& self.rules() == other.rules()
        &&& self.table() == other.table()
        &&& self.problem_tile() == other.problem_tile()
        &&& self.any_tile_bits() == other.any_tile_bits()
        &&& self.chunk_extent() == other.chunk_extent()
    }

    /// The chunks that exist, by their places on the grid of chunks.
    pub open spec fn chunks(&self) -> Set<(int, int)> {
        Set::new(|c: (int, int)| self.loaded(c.0, c.1))
    }

    /// The chunks that exist once the chunk of the column `col` has been
    /// asked for.
    pub open spec fn chunks_with(&self, col: Coord) -> Set<(int, int)> {
        self.chunks().insert(chunk_of(self.chunk_extent(), col.x as int, col.y as int))
    }

    /// Works through the work list: each cell taken from its front gets the
    /// candidates that its neighbours leave it, and where that changes it, the
    /// cells around it join the list. Ends when the list is empty, or with
    /// entries left when the budget is used up. Returns the number of entries
    /// taken.
    pub fn propagate(&mut self, queue: &mut VecDeque<Pending>) -> (steps: usize)
        requires
            old(self).wf(),
            within(old(queue)@, queue_limit()),
        ensures
            final(self).wf(),
            final(self).same_terms(*old(self)),
            final(self).rng() == old(self).rng(),
            steps < PROPAGATION_BUDGET,
            ({
                let run = propagate_spec(
                    old(self).table(),
                    old(self).problem_tile(),
                    old(self).world(),
                    nodes(old(queue)@),
                    PROPAGATION_BUDGET as nat,
                );
                &&& final(self).world() == run.world
                &&& nodes(final(queue)@) == run.queue
                &&& steps == run.steps
            }),
            final(self).chunks() == old(self).chunks().union(
                propagate_chunks(
                    old(self).chunk_extent(),
                    old(self).table(),
                    old(self).problem_tile(),
                    old(self).world(),
                    nodes(old(queue)@),
                    PROPAGATION_BUDGET as nat,
                ),
            ),
            forall|reach: int| #[trigger]
                within(old(queue)@, reach) ==> within(final(queue)@, reach + steps),
            keeps_closed(old(self).world(), final(self).world()),
    {
        let mut countdown: usize = PROPAGATION_BUDGET;
        let mut steps: usize = 0;
        proof {
            lemma_propagate_keeps_closed(
                self.table(),
                self.problem_tile(),
                self.world(),
                nodes(queue@),
                PROPAGATION_BUDGET as nat,
            );
        }
        loop
            invariant
                self.wf(),
                keeps_closed(
                    old(self).world(),
                    propagate_spec(
                        old(self).table(),
                        old(self).problem_tile(),
                        old(self).world(),
                        nodes(old(queue)@),
                        PROPAGATION_BUDGET as nat,
                    ).world,
                ),
                self.same_terms(*old(self)),
                self.chunks().union(
                    propagate_chunks(
                        old(self).chunk_extent(),
                        old(self).table(),
                        old(self).problem_tile(),
                        self.world(),
                        nodes(queue@),
                        countdown as nat,
                    ),
                ) == old(self).chunks().union(
                    propagate_chunks(
                        old(self).chunk_extent(),
                        old(self).table(),
                        old(self).problem_tile(),
                        old(self).world(),
                        nodes(old(queue)@),
                        PROPAGATION_BUDGET as nat,
                    ),
                ),
                self.rng() == old(self).rng(),
                1 <= countdown <= PROPAGATION_BUDGET,
                steps == PROPAGATION_BUDGET - countdown,
                within(queue@, queue_limit() + steps),
                forall|reach: int| #[trigger]
                    within(old(queue)@, reach) ==> within(queue@, reach + steps),
                ({
                    let run = propagate_spec(
                        old(self).table(),
                        old(self).problem_tile(),
                        old(self).world(),
                        nodes(old(queue)@),
                        PROPAGATION_BUDGET as nat,
                    );
                    let rest = propagate_spec(
                        old(self).table(),
                        old(self).problem_tile(),
                        self.world(),
                        nodes(queue@),
                        countdown as nat,
                    );
                    &&& rest.world == run.world
                    &&& rest.queue == run.queue
                    &&& rest.steps + steps == run.steps
                }),
            decreases countdown,
        {
            let ghost total = old(self).chunks().union(
                propagate_chunks(
                    old(self).chunk_extent(),
                    old(self).table(),
                    old(self).problem_tile(),
                    old(self).world(),
                    nodes(old(queue)@),
                    PROPAGATION_BUDGET as nat,
                ),
            );
            let ghost rest = propagate_chunks(
                old(self).chunk_extent(),
                old(self).table(),
                old(self).problem_tile(),
                self.world(),
                nodes(queue@),
                countdown as nat,
            );
            let ghost held = self.chunks();
            countdown = countdown - 1;
            if countdown == 0 {
                assert(held =~= held.union(rest));
                return steps;
            }
            let ghost before = queue@;
            let ghost world = self.world();
            match queue.pop_front() {
                None => {
                    assert(held =~= held.union(rest));
                    return steps;
                },
                Some(at) => {
                    assert(at == before[0]);
                    assert(nodes(queue@) =~= nodes(before).drop_first());
                    assert(nodes(before)[0] == at@);
                    assert(within(queue@, queue_limit() + steps));
                    let changed = self.reduce(at);
                    proof {
                        let asked = reduce_chunks(old(self).chunk_extent(), world, at@);
                        let later = propagate_chunks(
                            old(self).chunk_extent(),
                            old(self).table(),
                            old(self).problem_tile(),
                            step(old(self).table(), old(self).problem_tile(), world, nodes(before)).0,
                            step(old(self).table(), old(self).problem_tile(), world, nodes(before)).1,
                            countdown as nat,
                        );
                        assert(rest == asked.union(later));
                        assert(held.union(asked).union(later) =~= held.union(rest));
                    }
                    if changed {
                        let ghost popped = queue@;
                        enqueue_spread(queue, at, true);
                        proof {
                            assert(within(popped, queue_limit() + steps));
                            assert(within(queue@, queue_limit() + steps + 1));
                            assert forall|reach: int| #[trigger]
                                within(old(queue)@, reach) implies within(queue@, reach + steps + 1) by {
                                assert(within(before, reach + steps));
                                assert(within(popped, reach + steps));
                            }
                        }
                    } else {
                        proof {
                            assert forall|reach: int| #[trigger]
                                within(old(queue)@, reach) implies within(queue@, reach + steps + 1) by {
                                assert(within(before, reach + steps));
                            }
                        }
                    }
                    steps = steps + 1;
                },
            }
        }
    }

    /// Gives the open cell `at` the candidates that its neighbours leave it.
    /// Says whether that changed the cell.
    fn reduce(&mut self, at: Pending) -> (changed: bool)
        requires
            old(self).wf(),
            at.floor < COLUMN_HEIGHT,
            isize::MIN < at.col.x < isize::MAX,
            isize::MIN < at.col.y < isize::MAX,
        ensures
            final(self).wf(),
            final(self).same_terms(*old(self)),
            final(self).chunks() == old(self).chunks().union(
                reduce_chunks(old(self).chunk_extent(), old(self).world(), at@),
            ),
            final(self).rng() == old(self).rng(),
            ({
                let possible = possible_spec(
                    old(self).table(),
                    old(self).problem_tile(),
                    old(self).world(),
                    at@,
                );
                match old(self).world()[at.col@] {
                    ColumnView::Collapsed { .. } => !changed && final(self).world() == old(self).world(),
                    ColumnView::Superposition { bits } => {
                        &&& changed == (bits[at.floor as int] != possible)
                        &&& final(self).world() == (if changed {
                            with_bits(old(self).world(), at@, possible)
                        } else {
                            old(self).world()
                        })
                    },
                }
            }),
    {
        let col = at.col;
        let floor = at.floor;
        let ghost world = self.world();
        let ghost table = self.table();
        let ghost start = self.chunks();
        let ghost extent = self.chunk_extent();
        let ghost own = chunk_of(extent, col.x as int, col.y as int);
        assert(world.contains_key(col@) && world[col@].valid(table.len() as int));
        let open = match self.chunks.get_column(col) {
            Column::Collapsed { .. } => false,
            Column::Superposition { .. } => true,
        };
        assert(self.chunks.world() =~= world);
        assert(self.chunks() =~= start.insert(own));
        if !open {
            assert(start.insert(own) =~= start.union(reduce_chunks(extent, world, at@)));
            return false;
        }
        let north = self.side_neighbours(Coord { x: col.x, y: col.y + 1 }, floor, Side::South);
        let east = self.side_neighbours(Coord { x: col.x + 1, y: col.y }, floor, Side::West);
        let south = self.side_neighbours(Coord { x: col.x, y: col.y - 1 }, floor, Side::North);
        let west = self.side_neighbours(Coord { x: col.x - 1, y: col.y }, floor, Side::East);
        let ghost around = self.chunks();
        assert(around =~= start.union(reduce_chunks(extent, world, at@)));
        let mut possible = bit_intersection(bit_intersection(bit_intersection(west, east), north), south);
        if floor < COLUMN_HEIGHT - 1 {
            let up = self.side_neighbours(col, floor + 1, Side::Down);
            possible = bit_intersection(possible, up);
        }
        assert(self.chunks() =~= around);
        if floor > 0 {
            let down = self.side_neighbours(col, floor - 1, Side::Up);
            possible = bit_intersection(possible, down);
        }
        assert(self.chunks() =~= around);
        if bit_test_none(possible) {
            bit_set(&mut possible, self.problem_tile);
        }
        assert(possible == possible_spec(table, self.problem_tile, world, at@));
        proof {
            lemma_table_bounded(table, self.rules(), self.tile_set.tiles.len() as int);
            lemma_possible_bounded(table, self.problem_tile, world, at@);
        }
        let column = self.chunks.get_column(col);
        let mut changed = false;
        match column {
            Column::Collapsed { .. } => {},
            Column::Superposition { bits } => {
                if bits[floor] != possible {
                    bits[floor] = possible;
                    changed = true;
                }
            },
        }
        proof {
            assert(self.chunks() =~= around);
            if changed {
                assert(self.chunks.world() =~= with_bits(world, at@, possible));
                assert forall|p: (int, int)|
                    self.chunks.world().contains_key(p) && (#[trigger] self.chunks.world()[p]).valid(
                        table.len() as int,
                    ) by {
                    assert(world.contains_key(p) && world[p].valid(table.len() as int));
                }
            } else {
                assert(self.chunks.world() =~= world);
            }
        }
        changed
    }
}

impl Terrain {
    /// Gives the open cell `at` the candidates `bits`.
    fn assign(&mut self, at: Pending, bits: u128)
        requires
            old(self).wf(),
            at.floor < COLUMN_HEIGHT,
            bounded(bits, old(self).table().len() as int),
        ensures
            final(self).wf(),
            final(self).same_terms(*old(self)),
            final(self).chunks() == old(self).chunks_with(at.col),
            final(self).rng() == old(self).rng(),
            final(self).world() == with_bits(old(self).world(), at@, bits),
    {
        let ghost world = self.world();
        let ghost table = self.table();
        assert(world.contains_key(at.col@) && world[at.col@].valid(table.len() as int));
        let column = self.chunks.get_column(at.col);
        match column {
            Column::Collapsed { .. } => {},
            Column::Superposition { bits: cells } => {
                cells[at.floor] = bits;
            },
        }
        proof {
            assert(self.chunks() =~= old(self).chunks_with(at.col));
            assert(self.chunks.world() =~= with_bits(world, at@, bits));
            assert forall|p: (int, int)|
                self.chunks.world().contains_key(p) && (#[trigger] self.chunks.world()[p]).valid(
                    table.len() as int,
                ) by {
                assert(world.contains_key(p) && world[p].valid(table.len() as int));
            }
        }
    }

    /// Whether the chunk at `chunk` of the grid of chunks exists.
    pub fn has_chunk(&self, chunk: Coord) -> (r: bool)
        requires
            self.wf(),
        ensures
            r == self.chunks().contains(chunk@),
    {
        self.chunks.contains(chunk)
    }

    /// The candidates of the cell at `floor` of the column at `col`, or the
    /// id that it has taken. The column's chunk comes into being if it did
    /// not exist.
    pub fn cell(&mut self, col: Coord, floor: usize) -> (r: Cell)
        requires
            old(self).wf(),
            floor < COLUMN_HEIGHT,
        ensures
            final(self).wf(),
            final(self).same_terms(*old(self)),
            final(self).chunks() == old(self).chunks_with(col),
            final(self).state() == old(self).state(),
            r == old(self).world()[col@].cell(floor as int),
    {
        let ghost world = self.world();
        let r = match self.chunks.get_column(col) {
            Column::Collapsed { tiles } => Cell::Collapsed { tile: tiles[floor] },
            Column::Superposition { bits } => Cell::Superposition { bits: bits[floor] },
        };
        assert(self.chunks.world() =~= world);
        assert(self.chunks() =~= old(self).chunks_with(col));
        r
    }

    /// The place of the column at `col` in the order of work: the number of
    /// candidates left on its floors, added up, and nothing for a closed
    /// column.
    pub fn column_order(&mut self, col: Coord) -> (r: Option<usize>)
        requires
            old(self).wf(),
        ensures
            final(self).wf(),
            final(self).same_terms(*old(self)),
            final(self).chunks() == old(self).chunks_with(col),
            final(self).state() == old(self).state(),
            r == old(self).world()[col@].order(),
    {
        let ghost world = self.world();
        let r = self.chunks.get_column(col).order();
        assert(self.chunks.world() =~= world);
        assert(self.chunks() =~= old(self).chunks_with(col));
        r
    }

    /// The open cell `at` is left with the `nth` of its candidates, counted
    /// from 0 in ascending order; the cell above it and the cells around it on
    /// its floor join the work list, and the choice is propagated. Nothing
    /// happens where the column is closed or the cell has no `nth` candidate.
    /// Returns the number of entries that the propagation took.
    pub fn collapse_cell(&mut self, at: Pending, nth: usize, queue: &mut VecDeque<Pending>) -> (steps:
        usize)
        requires
            old(self).wf(),
            at.floor < COLUMN_HEIGHT,
            -queue_limit() < at.col.x < queue_limit(),
            -queue_limit() < at.col.y < queue_limit(),
            within(old(queue)@, queue_limit() - 1),
        ensures
            final(self).wf(),
            final(self).same_terms(*old(self)),
            final(self).chunks() == old(self).chunks().union(
                choose_chunks(
                    old(self).chunk_extent(),
                    old(self).table(),
                    old(self).problem_tile(),
                    old(self).world(),
                    nodes(old(queue)@),
                    at@,
                    nth as int,
                ),
            ),
            final(self).rng() == old(self).rng(),
            steps < PROPAGATION_BUDGET,
            ({
                let run = choose_spec(
                    old(self).table(),
                    old(self).problem_tile(),
                    old(self).world(),
                    nodes(old(queue)@),
                    at@,
                    nth as int,
                );
                &&& final(self).world() == run.world
                &&& nodes(final(queue)@) == run.queue
                &&& steps == run.steps
            }),
            forall|reach: int|
                #[trigger] within(old(queue)@, reach) && -reach <= at.col.x <= reach && -reach
                    <= at.col.y <= reach ==> within(final(queue)@, reach + 1 + steps),
            keeps_closed(old(self).world(), final(self).world()),
    {
        let ghost world = self.world();
        let ghost table = self.table();
        proof {
            lemma_choose_keeps_closed(
                table,
                self.problem_tile(),
                world,
                nodes(queue@),
                at@,
                nth as int,
            );
            assert(world.contains_key(at.col@) && world[at.col@].valid(table.len() as int));
        }
        let ghost start = self.chunks();
        let ghost own = chunk_of(self.chunk_extent(), at.col.x as int, at.col.y as int);
        let here = self.cell(at.col, at.floor);
        assert(start.insert(own) =~= start.union(set![own]));
        match here {
            Cell::Collapsed { .. } => 0,
            Cell::Superposition { bits } => {
                let candidates = iter_bits(bits);
                if nth < candidates.len() {
                    let bit = candidates[nth];
                    proof {
                        lemma_set_bits_below(bits, 128);
                    }
                    let mut chosen = bit_empty();
                    bit_set(&mut chosen, bit);
                    proof {
                        assert(is_set(bits, bit as int));
                        assert forall|i: int| #[trigger] is_set(chosen, i) implies i < table.len() by {
                            lemma_is_set_or(0, 1u128 << (bit as u128), i);
                            lemma_is_set_zero(i);
                            lemma_is_set_single(bit as int, i);
                        }
                    }
                    self.assign(at, chosen);
                    assert(self.chunks() =~= start.insert(own));
                    let ghost before = queue@;
                    enqueue_spread(queue, at, false);
                    let ghost spreaded = queue@;
                    proof {
                        assert(within(before, queue_limit() - 1));
                        assert(within(spreaded, queue_limit() - 1 + 1));
                    }
                    let steps = self.propagate(queue);
                    proof {
                        let asked = propagate_chunks(
                            old(self).chunk_extent(),
                            table,
                            old(self).problem_tile(),
                            with_bits(world, at@, chosen),
                            nodes(spreaded),
                            PROPAGATION_BUDGET as nat,
                        );
                        assert(self.chunks() =~= start.union(set![own].union(asked)));
                        assert forall|reach: int|
                            #[trigger] within(old(queue)@, reach) && -reach <= at.col.x <= reach
                                && -reach <= at.col.y <= reach implies within(
                            queue@,
                            reach + 1 + steps,
                        ) by {
                            assert(within(spreaded, reach + 1));
                        }
                    }
                    steps
                } else {
                    0
                }
            },
        }
    }

    /// Resolves the column at `col` from the ground up: for each floor that
    /// still has more than one candidate a number below their number is drawn
    /// from the random stream, the candidate with that number is chosen, and
    /// the choice is propagated. A closed column is left as it is.
    pub fn collapse_column(&mut self, col: Coord)
        requires
            old(self).wf(),
            -coord_limit() <= col.x <= coord_limit(),
            -coord_limit() <= col.y <= coord_limit(),
        ensures
            final(self).wf(),
            final(self).same_terms(*old(self)),
            final(self).state() == collapse_column_spec(
                old(self).table(),
                old(self).problem_tile(),
                old(self).state(),
                col.x as int,
                col.y as int,
            ),
            final(self).chunks() == old(self).chunks().union(
                collapse_chunks(
                    old(self).chunk_extent(),
                    old(self).table(),
                    old(self).problem_tile(),
                    old(self).state(),
                    Seq::empty(),
                    col.x as int,
                    col.y as int,
                    0,
                ),
            ),
            keeps_closed(old(self).world(), final(self).world()),
    {
        let mut queue: VecDeque<Pending> = VecDeque::new();
        let mut floor: usize = 0;
        assert(nodes(queue@) =~= Seq::<Node>::empty());
        proof {
            lemma_collapse_from_keeps_closed(
                self.table(),
                self.problem_tile(),
                self.state(),
                Seq::empty(),
                col.x as int,
                col.y as int,
                0,
            );
        }
        while floor < COLUMN_HEIGHT
            invariant
                self.wf(),
                keeps_closed(
                    old(self).world(),
                    collapse_column_spec(
                        old(self).table(),
                        old(self).problem_tile(),
                        old(self).state(),
                        col.x as int,
                        col.y as int,
                    ).world,
                ),
                self.same_terms(*old(self)),
                self.chunks().union(
                    collapse_chunks(
                        old(self).chunk_extent(),
                        old(self).table(),
                        old(self).problem_tile(),
                        self.state(),
                        nodes(queue@),
                        col.x as int,
                        col.y as int,
                        floor as int,
                    ),
                ) == old(self).chunks().union(
                    collapse_chunks(
                        old(self).chunk_extent(),
                        old(self).table(),
                        old(self).problem_tile(),
                        old(self).state(),
                        Seq::empty(),
                        col.x as int,
                        col.y as int,
                        0,
                    ),
                ),
                floor <= COLUMN_HEIGHT,
                -coord_limit() <= col.x <= coord_limit(),
                -coord_limit() <= col.y <= coord_limit(),
                within(queue@, coord_limit() + 1000 * floor),
                collapse_from(
                    old(self).table(),
                    old(self).problem_tile(),
                    self.state(),
                    nodes(queue@),
                    col.x as int,
                    col.y as int,
                    floor as int,
                ).0 == collapse_column_spec(
                    old(self).table(),
                    old(self).problem_tile(),
                    old(self).state(),
                    col.x as int,
                    col.y as int,
                ),
            decreases COLUMN_HEIGHT - floor,
        {
            let ghost held = self.chunks();
            let ghost state = self.state();
            let ghost listed = nodes(queue@);
            let ghost extent = self.chunk_extent();
            let ghost table = self.table();
            let ghost problem = self.problem_tile();
            let ghost own = set![chunk_of(extent, col.x as int, col.y as int)];
            let ghost rest = collapse_chunks(
                extent,
                table,
                problem,
                state,
                listed,
                col.x as int,
                col.y as int,
                floor as int,
            );
            let here = self.cell(col, floor);
            assert(self.chunks() =~= held.union(own));
            match here {
                Cell::Collapsed { .. } => {
                    assert(rest == own);
                    return ;
                },
                Cell::Superposition { bits } => {
                    let count = count_bits(bits);
                    if count > 1 {
                        let nth = draw_below(&mut self.rng, count as u64) as usize;
                        assert(self.chunks() =~= held.union(own));
                        let ghost before = queue@;
                        let at = Pending { col, floor };
                        let steps = self.collapse_cell(at, nth, &mut queue);
                        proof {
                            assert(within(before, coord_limit() + 1000 * floor));
                            assert(within(queue@, coord_limit() + 1000 * floor + 1 + steps));
                            let asked = choose_chunks(
                                extent,
                                table,
                                problem,
                                state.world,
                                listed,
                                at@,
                                nth as int,
                            );
                            let later = collapse_chunks(
                                extent,
                                table,
                                problem,
                                self.state(),
                                nodes(queue@),
                                col.x as int,
                                col.y as int,
                                floor as int + 1,
                            );
                            assert(rest == asked.union(later));
                            assert(self.chunks() =~= held.union(own).union(asked));
                            assert(own.subset_of(asked));
                            assert(self.chunks().union(later) =~= held.union(rest));
                        }
                    } else {
                        proof {
                            let later = collapse_chunks(
                                extent,
                                table,
                                problem,
                                state,
                                listed,
                                col.x as int,
                                col.y as int,
                                floor as int + 1,
                            );
                            assert(rest == own.union(later));
                            assert(self.chunks().union(later) =~= held.union(rest));
                        }
                    }
                },
            }
            floor = floor + 1;
        }
        assert(self.chunks() =~= self.chunks().union(Set::<(int, int)>::empty()));
    }

    /// Closes the column at `col`: every floor takes the least of its
    /// candidates, or the problem tile where it has none, and for every floor
    /// whose tile has a mesh a request joins `out`, from the ground up. A
    /// closed column is left as it is and gives no request.
    pub fn spawn_column(&mut self, col: Coord, out: &mut Vec<SpawnRequest>)
        requires
            old(self).wf(),
        ensures
            final(self).wf(),
            final(self).same_terms(*old(self)),
            final(self).chunks() == old(self).chunks_with(col),
            final(self).rng() == old(self).rng(),
            final(self).world() == spawn_column_world(old(self).problem_tile(), old(self).world(), col),
            final(out)@ == old(out)@ + spawn_column_requests(
                old(self).tiles(),
                old(self).problem_tile(),
                old(self).world(),
                col,
            ),
            keeps_closed(old(self).world(), final(self).world()),
            final(self).world()[col@] is Collapsed,
    {
        let ghost world = self.world();
        let ghost table = self.table();
        let problem_tile = self.problem_tile;
        let mut tiles = [0usize;16];
        assert(world.contains_key(col@) && world[col@].valid(table.len() as int));
        let column = self.chunks.get_column(col);
        match column {
            Column::Collapsed { .. } => {
                assert(self.chunks.world() =~= world);
                assert(self.chunks() =~= old(self).chunks_with(col));
                assert(out@ =~= old(out)@ + Seq::<SpawnRequest>::empty());
                return ;
            },
            Column::Superposition { bits } => {
                let mut floor: usize = 0;
                while floor < COLUMN_HEIGHT
                    invariant
                        floor <= COLUMN_HEIGHT,
                        problem_tile < table.len(),
                        forall|f: int| 0 <= f < COLUMN_HEIGHT ==> bounded(#[trigger] bits@[f], table.len() as int),
                        forall|f: int|
                            0 <= f < floor ==> #[trigger] tiles@[f] == settle(bits@[f], problem_tile),
                        forall|f: int| 0 <= f < floor ==> #[trigger] tiles@[f] < table.len(),
                    decreases COLUMN_HEIGHT - floor,
                {
                    let bit = first_bit(bits[floor]);
                    proof {
                        lemma_set_bits_below(bits@[floor as int], 128);
                        assert(bounded(bits@[floor as int], table.len() as int));
                    }
                    tiles[floor] = match bit {
                        None => problem_tile,
                        Some(tile) => tile,
                    };
                    floor = floor + 1;
                }
                assert(tiles@ =~= settled(world[col@], problem_tile)->Collapsed_tiles);
                *column = Column::Collapsed { tiles };
            },
        }
        proof {
            assert(self.chunks() =~= old(self).chunks_with(col));
            assert(self.chunks.world() =~= spawn_column_world(problem_tile, world, col));
            assert forall|p: (int, int)|
                self.chunks.world().contains_key(p) && (#[trigger] self.chunks.world()[p]).valid(
                    table.len() as int,
                ) by {
                assert(world.contains_key(p) && world[p].valid(table.len() as int));
            }
        }
        let mut floor: usize = 0;
        while floor < COLUMN_HEIGHT
            invariant
                floor <= COLUMN_HEIGHT,
                self.wf(),
                self.same_terms(*old(self)),
                self.chunks() == old(self).chunks_with(col),
                self.rng() == old(self).rng(),
                self.world() == spawn_column_world(old(self).problem_tile(), old(self).world(), col),
                forall|f: int| 0 <= f < COLUMN_HEIGHT ==> #[trigger] tiles@[f] < self.table().len(),
                out@ == old(out)@ + requests_below(self.tiles(), col, tiles@, floor as int),
            decreases COLUMN_HEIGHT - floor,
        {
            let tile = tiles[floor];
            let id = tile / 4;
            let rot = tile % 4;
            assert(tiles@[floor as int] < self.table().len());
            match self.tile_set.tiles[id].mesh {
                Some(mesh) => {
                    out.push(SpawnRequest { col, floor, tile: id, rotation: rot, mesh });
                },
                None => {},
            }
            assert(out@ =~= old(out)@ + requests_below(self.tiles(), col, tiles@, floor as int + 1));
            floor = floor + 1;
        }
    }
}

/// The chunk of every column of a list is among the chunks of the list.
proof fn lemma_chunks_of_member(extent: Coord, cols: Seq<Coord>, i: int)
    requires
        0 <= i < cols.len(),
    ensures
        chunks_of(extent, cols).contains(chunk_of(extent, cols[i].x as int, cols[i].y as int)),
    decreases cols.len(),
{
    if i < cols.len() - 1 {
        lemma_chunks_of_member(extent, cols.drop_last(), i);
    }
}

/// Every column of the list lies no farther than `coord_limit()` from the
/// origin along either axis.
pub open spec fn in_reach(cols: Seq<Coord>) -> bool {
    forall|i: int|
        0 <= i < cols.len() ==> {
            &&& -coord_limit() <= (#[trigger] cols[i]).x <= coord_limit()
            &&& -coord_limit() <= cols[i].y <= coord_limit()
        }
}

impl Terrain {
    /// A visit to the columns `candidates`: those of them that are still open
    /// are resolved, the ones with the least left to decide first, and then
    /// closed; the requests for their tiles join `out`.
    pub fn spawn_around(&mut self, candidates: &Vec<Coord>, out: &mut Vec<SpawnRequest>)
        requires
            old(self).wf(),
            in_reach(candidates@),
        ensures
            final(self).wf(),
            final(self).same_terms(*old(self)),
            ({
                let visit = spawn_around_spec(
                    old(self).tiles(),
                    old(self).table(),
                    old(self).problem_tile(),
                    old(self).state(),
                    candidates@,
                );
                &&& final(self).state() == visit.state
                &&& final(out)@ == old(out)@ + visit.requests
            }),
            final(self).chunks() == old(self).chunks().union(
                visit_chunks(
                    old(self).chunk_extent(),
                    old(self).table(),
                    old(self).problem_tile(),
                    old(self).state(),
                    candidates@,
                ),
            ),
            keeps_closed(old(self).world(), final(self).world()),
            all_closed(final(self).world(), candidates@),
    {
        proof {
            lemma_visit_keeps_closed(
                self.tiles(),
                self.table(),
                self.problem_tile(),
                self.state(),
                candidates@,
            );
            lemma_visit_closes(
                self.tiles(),
                self.table(),
                self.problem_tile(),
                self.state(),
                candidates@,
            );
        }
        let ghost start = self.state();
        let ghost table = self.table();
        let ghost problem = self.problem_tile();
        let mut ranked: Vec<Ranked> = Vec::new();
        let mut n: usize = 0;
        assert(candidates@.take(0) =~= Seq::<Coord>::empty());
        while n < candidates.len()
            invariant
                n <= candidates.len(),
                self.wf(),
                self.same_terms(*old(self)),
                self.chunks() == old(self).chunks().union(
                    chunks_of(old(self).chunk_extent(), candidates@.take(n as int)),
                ),
                self.state() == start,
                ranked@ == ranked_spec(start.world, candidates@.take(n as int)),
            decreases candidates.len() - n,
        {
            let col = candidates[n];
            proof {
                assert(candidates@.take(n as int + 1).drop_last() =~= candidates@.take(n as int));
                assert(candidates@.take(n as int + 1).last() == col);
            }
            match self.column_order(col) {
                Some(order) => {
                    ranked.push(Ranked { order, col });
                },
                None => {},
            }
            proof {
                let extent = old(self).chunk_extent();
                assert(self.chunks() =~= old(self).chunks().union(
                    chunks_of(extent, candidates@.take(n as int + 1)),
                ));
            }
            n = n + 1;
        }
        assert(candidates@.take(n as int) =~= candidates@);
        let sorted = sort_by_order(&ranked);
        let cols = dedup_columns(&sorted);
        assert(cols@ == plan(start.world, candidates@));
        proof {
            lemma_plan_members(start.world, candidates@);
            assert forall|i: int| 0 <= i < cols.len() implies {
                &&& -coord_limit() <= (#[trigger] cols@[i]).x <= coord_limit()
                &&& -coord_limit() <= cols@[i].y <= coord_limit()
            } by {
                assert(cols@.contains(cols@[i]));
                assert(candidates@.contains(cols@[i]));
            }
            assert(cols@.take(0) =~= Seq::<Coord>::empty());
        }
        let mut k: usize = 0;
        while k < cols.len()
            invariant
                k <= cols.len(),
                self.wf(),
                self.same_terms(*old(self)),
                self.chunks() == old(self).chunks().union(
                    chunks_of(old(self).chunk_extent(), candidates@),
                ).union(
                    collapse_all_chunks(
                        old(self).chunk_extent(),
                        table,
                        problem,
                        start,
                        cols@.take(k as int),
                    ),
                ),
                table == old(self).table(),
                problem == old(self).problem_tile(),
                in_reach(cols@),
                self.state() == collapse_all(table, problem, start, cols@.take(k as int)),
            decreases cols.len() - k,
        {
            proof {
                assert(cols@.take(k as int + 1).drop_last() =~= cols@.take(k as int));
                assert(cols@.take(k as int + 1).last() == cols@[k as int]);
            }
            self.collapse_column(cols[k]);
            proof {
                let extent = old(self).chunk_extent();
                let before = collapse_all_chunks(extent, table, problem, start, cols@.take(k as int));
                let asked = collapse_chunks(
                    extent,
                    table,
                    problem,
                    collapse_all(table, problem, start, cols@.take(k as int)),
                    Seq::empty(),
                    cols@[k as int].x as int,
                    cols@[k as int].y as int,
                    0,
                );
                assert(self.chunks() =~= old(self).chunks().union(chunks_of(extent, candidates@)).union(
                    before.union(asked),
                ));
            }
            k = k + 1;
        }
        assert(cols@.take(k as int) =~= cols@);
        let ghost collapsed = self.state();
        let ghost tiles = self.tiles();
        let mut k: usize = 0;
        proof {
            assert(out@ =~= old(out)@ + Seq::<SpawnRequest>::empty());
        }
        while k < cols.len()
            invariant
                k <= cols.len(),
                self.wf(),
                self.same_terms(*old(self)),
                self.chunks() == old(self).chunks().union(
                    visit_chunks(old(self).chunk_extent(), table, problem, start, candidates@),
                ),
                cols@ == plan(start.world, candidates@),
                table == old(self).table(),
                tiles == old(self).tiles(),
                problem == old(self).problem_tile(),
                self.rng() == collapsed.rng,
                self.world() == spawn_all_world(problem, collapsed.world, cols@.take(k as int)),
                out@ == old(out)@ + spawn_all_requests(
                    tiles,
                    problem,
                    collapsed.world,
                    cols@.take(k as int),
                ),
            decreases cols.len() - k,
        {
            proof {
                assert(cols@.take(k as int + 1).drop_last() =~= cols@.take(k as int));
                assert(cols@.take(k as int + 1).last() == cols@[k as int]);
            }
            let ghost held = self.chunks();
            self.spawn_column(cols[k], out);
            proof {
                let extent = old(self).chunk_extent();
                let col = cols@[k as int];
                lemma_plan_members(start.world, candidates@);
                assert(cols@.contains(col));
                assert(candidates@.contains(col));
                let i = choose|i: int| 0 <= i < candidates@.len() && candidates@[i] == col;
                lemma_chunks_of_member(extent, candidates@, i);
                assert(self.chunks() =~= held);
                let head = spawn_all_requests(tiles, problem, collapsed.world, cols@.take(k as int));
                let tail = spawn_column_requests(
                    tiles,
                    problem,
                    spawn_all_world(problem, collapsed.world, cols@.take(k as int)),
                    cols@[k as int],
                );
                assert(out@ =~= old(out)@ + (head + tail));
            }
            k = k + 1;
        }
        assert(cols@.take(k as int) =~= cols@);
    }
}

} // verus!
