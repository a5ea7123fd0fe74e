//! Columns: the vertical stacks of cells that the world is made of.

use crate::bits::{bounded, count, count_bits};
use crate::compat::{aggregate, aggregate_spec, NeighboursBits};
use crate::tiles::Side;
use std::collections::HashMap;
use vstd::prelude::*;

verus! {

/// The number of cells in a column.
pub const COLUMN_HEIGHT: usize = 16;

/// A position on the horizontal grid: of a column, or of a chunk on the grid
/// of chunks; also the size of a chunk in columns.
#[derive(Clone, Copy, Debug, PartialEq, Eq, Structural)]
pub struct Coord {
    pub x: isize,
    pub y: isize,
}

impl View for Coord {
    type V = (int, int);

    open spec fn view(&self) -> (int, int) {
        (self.x as int, self.y as int)
    }
}

/// One floor of one column: the ids that it may still take, or the id that
/// it has taken.
#[derive(Clone, Copy, Debug, PartialEq, Eq, Structural)]
pub enum Cell {
    Superposition { bits: u128 },
    Collapsed { tile: usize },
}

/// A column: still open, with a set of candidates for each floor, or closed,
/// with one id for each floor.
#[derive(Clone, Copy, Debug)]
pub enum Column {
    Superposition { bits: [u128; 16] },
    Collapsed { tiles: [usize; 16] },
}

/// A column as a mathematical value.
pub enum ColumnView {
    Superposition { bits: Seq<u128> },
    Collapsed { tiles: Seq<usize> },
}

impl ColumnView {
    /// The column has one entry for each floor.
    pub open spec fn wf(self) -> bool {
        match self {
            ColumnView::Superposition { bits } => bits.len() == COLUMN_HEIGHT,
            ColumnView::Collapsed { tiles } => tiles.len() == COLUMN_HEIGHT,
        }
    }

    /// The column has an entry for each floor, and holds only ids below
    /// `limit`.
    pub open spec fn valid(self, limit: int) -> bool {
        match self {
            ColumnView::Superposition { bits } => bits.len() == COLUMN_HEIGHT && forall|f: int|
                0 <= f < COLUMN_HEIGHT ==> bounded(#[trigger] bits[f], limit),
            ColumnView::Collapsed { tiles } => tiles.len() == COLUMN_HEIGHT && forall|f: int|
                0 <= f < COLUMN_HEIGHT ==> #[trigger] tiles[f] < limit,
        }
    }

    /// The cell at a floor.
    pub open spec fn cell(self, floor: int) -> Cell {
        match self {
            ColumnView::Superposition { bits } => Cell::Superposition { bits: bits[floor] },
            ColumnView::Collapsed { tiles } => Cell::Collapsed { tile: tiles[floor] },
        }
    }

    /// The column in which every floor may still take every id of `any`.
    pub open spec fn fresh(any: u128) -> ColumnView {
        ColumnView::Superposition { bits: Seq::new(COLUMN_HEIGHT as nat, |f: int| any) }
    }

    /// The number of candidates left on the floors below `floor`, added up.
    pub open spec fn entropy_below(self, floor: int) -> nat
        decreases floor,
    {
        if floor <= 0 {
            0
        } else {
            match self {
                ColumnView::Superposition { bits } => self.entropy_below(floor - 1) + count(
                    bits[floor - 1],
                ),
                ColumnView::Collapsed { .. } => 0,
            }
        }
    }

    /// The number of candidates left on all floors of the column, added up.
    pub open spec fn entropy(self) -> nat {
        self.entropy_below(COLUMN_HEIGHT as int)
    }

    /// The place of an open column in the order of work, and nothing for a
    /// closed one.
    pub open spec fn order(self) -> Option<usize> {
        match self {
            ColumnView::Superposition { .. } => Some(self.entropy() as usize),
            ColumnView::Collapsed { .. } => None,
        }
    }

    /// The ids that the cell at `floor` lets stand on its `side` side: for an
    /// open cell what the table gives its candidates, taken together; for a
    /// closed cell what the table gives its id.
    pub open spec fn neighbours_spec(self, table: Seq<NeighboursBits>, floor: int, side: Side) -> u128 {
        match self {
            ColumnView::Superposition { bits } => aggregate_spec(table, bits[floor], side),
            ColumnView::Collapsed { tiles } => table[tiles[floor] as int].toward(side),
        }
    }
}

impl View for Column {
    type V = ColumnView;

    open spec fn view(&self) -> ColumnView {
        match *self {
            Column::Superposition { bits } => ColumnView::Superposition { bits: bits@ },
            Column::Collapsed { tiles } => ColumnView::Collapsed { tiles: tiles@ },
        }
    }
}

/// What has been worked out before: for each direction, the aggregate of the
/// sets of candidates that have been met.
pub struct Memoized {
    pub north: HashMap<u128, u128>,
    pub south: HashMap<u128, u128>,
    pub west: HashMap<u128, u128>,
    pub east: HashMap<u128, u128>,
    pub up: HashMap<u128, u128>,
    pub down: HashMap<u128, u128>,
}

/// Every entry of `memo` is the aggregate of its key toward `side`.
pub open spec fn memo_holds(memo: Map<u128, u128>, table: Seq<NeighboursBits>, side: Side) -> bool {
    forall|key: u128| #[trigger] memo.contains_key(key) ==> memo[key] == aggregate_spec(table, key, side)
}

impl Memoized {
    /// The entries for one direction.
    pub open spec fn toward(&self, side: Side) -> Map<u128, u128> {
        match side {
            Side::North => self.north@,
            Side::East => self.east@,
            Side::South => self.south@,
            Side::West => self.west@,
            Side::Up => self.up@,
            Side::Down => self.down@,
        }
    }

    /// Every entry is what the table gives.
    pub open spec fn wf(&self, table: Seq<NeighboursBits>) -> bool {
        forall|side: Side| memo_holds(#[trigger] self.toward(side), table, side)
    }

    /// Nothing worked out yet.
    pub fn new() -> (r: Memoized)
        ensures
            forall|side: Side| #[trigger] r.toward(side) == Map::<u128, u128>::empty(),
            forall|table: Seq<NeighboursBits>| #[trigger] r.wf(table),
    {
        Memoized {
            north: HashMap::new(),
            south: HashMap::new(),
            west: HashMap::new(),
            east: HashMap::new(),
            up: HashMap::new(),
            down: HashMap::new(),
        }
    }
}

/// The aggregate of `bits` toward `side`, from `memo` where it is there, and
/// entered in it where it is not.
fn memoized_aggregate(
    memo: &mut HashMap<u128, u128>,
    table: &Vec<NeighboursBits>,
    bits: u128,
    side: Side,
) -> (r: u128)
    requires
        bounded(bits, table.len() as int),
        memo_holds(old(memo)@, table@, side),
    ensures
        r == aggregate_spec(table@, bits, side),
        memo_holds(final(memo)@, table@, side),
{
    broadcast use vstd::std_specs::hash::group_hash_axioms;

    match memo.get(&bits) {
        Some(known) => *known,
        None => {
            let fresh = aggregate(table, bits, side);
            memo.insert(bits, fresh);
            fresh
        },
    }
}

impl Column {
    /// The ids that the cell at `floor` lets stand on its `side` side.
    pub fn neighbours(
        &self,
        floor: usize,
        side: Side,
        neighbours: &Vec<NeighboursBits>,
        memoized: &mut Memoized,
    ) -> (r: u128)
        requires
            floor < COLUMN_HEIGHT,
            self@.valid(neighbours.len() as int),
            old(memoized).wf(neighbours@),
        ensures
            r == self@.neighbours_spec(neighbours@, floor as int, side),
            final(memoized).wf(neighbours@),
    {
        match self {
            Column::Superposition { bits } => {
                let key = bits[floor];
                assert(bounded(bits@[floor as int], neighbours.len() as int));
                let ghost before = *memoized;
                assert(memo_holds(memoized.toward(side), neighbours@, side));
                let r = match side {
                    Side::North => memoized_aggregate(&mut memoized.north, neighbours, key, side),
                    Side::East => memoized_aggregate(&mut memoized.east, neighbours, key, side),
                    Side::South => memoized_aggregate(&mut memoized.south, neighbours, key, side),
                    Side::West => memoized_aggregate(&mut memoized.west, neighbours, key, side),
                    Side::Up => memoized_aggregate(&mut memoized.up, neighbours, key, side),
                    Side::Down => memoized_aggregate(&mut memoized.down, neighbours, key, side),
                };
                proof {
                    assert forall|other: Side|
                        memo_holds(#[trigger] memoized.toward(other), neighbours@, other) by {
                        if other != side {
                            assert(memoized.toward(other) == before.toward(other));
                        }
                    }
                }
                r
            },
            Column::Collapsed { tiles } => {
                assert(tiles@[floor as int] < neighbours.len());
                neighbours[tiles[floor]].get(side)
            },
        }
    }

    /// The place of an open column in the order of work: the number of
    /// candidates left on its floors, added up; nothing for a closed column.
    pub fn order(&self) -> (r: Option<usize>)
        ensures
            r == self@.order(),
    {
        match self {
            Column::Superposition { bits } => {
                let mut total: usize = 0;
                let mut floor: usize = 0;
                while floor < COLUMN_HEIGHT
                    invariant
                        floor <= COLUMN_HEIGHT,
                        self@ == (ColumnView::Superposition { bits: bits@ }),
                        total == self@.entropy_below(floor as int),
                        total <= 128 * floor,
                    decreases COLUMN_HEIGHT - floor,
                {
                    total = total + count_bits(bits[floor]);
                    floor = floor + 1;
                }
                Some(total)
            },
            Column::Collapsed { .. } => None,
        }
    }

    /// The column in which every floor may still take every id of `any`.
    pub fn fresh(any: u128) -> (r: Column)
        ensures
            r@ == ColumnView::fresh(any),
    {
        let r = Column::Superposition { bits: [any;16] };
        assert(r@->Superposition_bits =~= Seq::new(COLUMN_HEIGHT as nat, |f: int| any));
        r
    }
}

/// A fresh column over a set of ids below `limit` is valid.
pub proof fn lemma_fresh_valid(any: u128, limit: int)
    requires
        bounded(any, limit),
    ensures
        ColumnView::fresh(any).valid(limit),
{
}

} // verus!
