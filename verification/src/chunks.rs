//! The store of columns: an unbounded grid, held in chunks that come into
//! being when a column of theirs is first asked for.

use crate::column::{Column, ColumnView, Coord};
use std::collections::HashMap;
use vstd::arithmetic::div_mod::{lemma_fundamental_div_mod, lemma_fundamental_div_mod_converse, lemma_mod_bound};
use vstd::prelude::*;

verus! {

/// A block of `extent.x * extent.y` columns.
pub struct Chunk {
    columns: Vec<Column>,
}

/// The chunks that exist, each under the key of its place on the grid of
/// chunks.
pub struct Chunks {
    extent: Coord,
    fill: u128,
    map: HashMap<u128, Chunk>,
}

/// The key of the chunk at `(cx, cy)`: no two chunks share one.
pub open spec fn key_of(cx: int, cy: int) -> int {
    (cx + 0x8000_0000_0000_0000) * 0x1_0000_0000_0000_0000 + (cy + 0x8000_0000_0000_0000)
}

/// The place of column `(x, y)` in its chunk.
pub open spec fn index_of(ex: int, ey: int, x: int, y: int) -> int {
    x % ex + (y % ey) * ex
}

/// The number is one that a coordinate can be.
pub open spec fn in_range(v: int) -> bool {
    isize::MIN <= v <= isize::MAX
}

/// The place of a column in its chunk lies within the chunk.
proof fn lemma_index_bounds(ex: int, ey: int, x: int, y: int)
    requires
        ex > 0,
        ey > 0,
    ensures
        0 <= index_of(ex, ey, x, y) < ex * ey,
{
    lemma_mod_bound(x, ex);
    lemma_mod_bound(y, ey);
    let lx = x % ex;
    let ly = y % ey;
    assert(ly * ex <= (ey - 1) * ex) by (nonlinear_arith)
        requires
            0 <= ly <= ey - 1,
            ex > 0,
    ;
    assert((ey - 1) * ex == ex * ey - ex) by (nonlinear_arith);
    assert(0 <= ly * ex) by (nonlinear_arith)
        requires
            0 <= ly,
            ex > 0,
    ;
}

/// Two columns with one chunk and one place in it are one column.
proof fn lemma_index_injective(ex: int, ey: int, x1: int, y1: int, x2: int, y2: int)
    requires
        ex > 0,
        ey > 0,
        x1 / ex == x2 / ex,
        y1 / ey == y2 / ey,
        index_of(ex, ey, x1, y1) == index_of(ex, ey, x2, y2),
    ensures
        x1 == x2,
        y1 == y2,
{
    lemma_mod_bound(x1, ex);
    lemma_mod_bound(x2, ex);
    lemma_mod_bound(y1, ey);
    lemma_mod_bound(y2, ey);
    let idx = index_of(ex, ey, x1, y1);
    lemma_fundamental_div_mod_converse(idx, ex, y1 % ey, x1 % ex);
    lemma_fundamental_div_mod_converse(idx, ex, y2 % ey, x2 % ex);
    lemma_fundamental_div_mod(x1, ex);
    lemma_fundamental_div_mod(x2, ex);
    lemma_fundamental_div_mod(y1, ey);
    lemma_fundamental_div_mod(y2, ey);
}

/// The quotient of a coordinate by a positive size is a coordinate.
proof fn lemma_div_in_range(a: int, d: int)
    requires
        in_range(a),
        d > 0,
    ensures
        in_range(a / d),
{
    lemma_fundamental_div_mod(a, d);
    lemma_mod_bound(a, d);
    let q = a / d;
    if a >= 0 {
        assert(0 <= q <= a) by (nonlinear_arith)
            requires
                a == d * q + a % d,
                0 <= a % d < d,
                d > 0,
                a >= 0,
        ;
    } else {
        assert(a <= q <= 0) by (nonlinear_arith)
            requires
                a == d * q + a % d,
                0 <= a % d < d,
                d > 0,
                a < 0,
        ;
    }
}

/// `a / d`, rounded down.
fn div_floor(a: isize, d: isize) -> (q: isize)
    requires
        d > 0,
    ensures
        q == a as int / d as int,
{
    proof {
        lemma_div_in_range(a as int, d as int);
    }
    match a.checked_div_euclid(d) {
        Some(q) => q,
        None => 0,
    }
}

/// What is left of `a` over the multiple of `d` below it.
fn rem_floor(a: isize, d: isize) -> (r: isize)
    requires
        d > 0,
    ensures
        r == a as int % d as int,
        0 <= r < d,
{
    proof {
        lemma_mod_bound(a as int, d as int);
    }
    match a.checked_rem_euclid(d) {
        Some(r) => r,
        None => 0,
    }
}

impl Chunk {
    /// The columns of the chunk, as mathematical values.
    pub closed spec fn columns(&self) -> Seq<ColumnView> {
        self.columns@.map_values(|c: Column| c@)
    }

    /// A chunk of `extent.x * extent.y` columns in which every floor may
    /// still take every id of `any_tile_bits`.
    fn new(chunk_extent: Coord, any_tile_bits: u128) -> (r: Chunk)
        requires
            chunk_extent.x > 0,
            chunk_extent.y > 0,
            chunk_extent.x * chunk_extent.y <= isize::MAX,
        ensures
            r.columns().len() == chunk_extent.x * chunk_extent.y,
            forall|i: int|
                0 <= i < r.columns().len() ==> #[trigger] r.columns()[i] == ColumnView::fresh(
                    any_tile_bits,
                ),
    {
        let total = (chunk_extent.x * chunk_extent.y) as usize;
        let fresh = Column::fresh(any_tile_bits);
        let mut columns: Vec<Column> = Vec::new();
        let mut n: usize = 0;
        while n < total
            invariant
                n <= total,
                columns.len() == n,
                fresh@ == ColumnView::fresh(any_tile_bits),
                forall|i: int| 0 <= i < n ==> (#[trigger] columns@[i])@ == ColumnView::fresh(any_tile_bits),
            decreases total - n,
        {
            columns.push(fresh);
            n = n + 1;
        }
        Chunk { columns }
    }

    /// The column `column` of the grid, in the chunk that holds it.
    #[allow(dead_code)]
    fn column(&self, chunk_extent: Coord, column: Coord) -> (r: &Column)
        requires
            chunk_extent.x > 0,
            chunk_extent.y > 0,
            chunk_extent.x * chunk_extent.y <= isize::MAX,
            self.columns().len() == chunk_extent.x * chunk_extent.y,
        ensures
            r@ == self.columns()[index_of(
                chunk_extent.x as int,
                chunk_extent.y as int,
                column.x as int,
                column.y as int,
            )],
    {
        let x = rem_floor(column.x, chunk_extent.x);
        let y = rem_floor(column.y, chunk_extent.y);
        proof {
            lemma_index_bounds(
                chunk_extent.x as int,
                chunk_extent.y as int,
                column.x as int,
                column.y as int,
            );
            assert(y * chunk_extent.x >= 0) by (nonlinear_arith)
                requires
                    y >= 0,
                    chunk_extent.x > 0,
            ;
        }
        let idx = x + y * chunk_extent.x;
        &self.columns[idx as usize]
    }

    /// The column `column` of the grid, in the chunk that holds it, to be
    /// changed in place.
    fn column_mut(&mut self, chunk_extent: Coord, column: Coord) -> (r: &mut Column)
        requires
            chunk_extent.x > 0,
            chunk_extent.y > 0,
            chunk_extent.x * chunk_extent.y <= isize::MAX,
            old(self).columns().len() == chunk_extent.x * chunk_extent.y,
        ensures
            r@ == old(self).columns()[index_of(
                chunk_extent.x as int,
                chunk_extent.y as int,
                column.x as int,
                column.y as int,
            )],
            final(self).columns() == old(self).columns().update(
                index_of(
                    chunk_extent.x as int,
                    chunk_extent.y as int,
                    column.x as int,
                    column.y as int,
                ),
                final(r)@,
            ),
    {
        let x = rem_floor(column.x, chunk_extent.x);
        let y = rem_floor(column.y, chunk_extent.y);
        proof {
            lemma_index_bounds(
                chunk_extent.x as int,
                chunk_extent.y as int,
                column.x as int,
                column.y as int,
            );
            assert(y * chunk_extent.x >= 0) by (nonlinear_arith)
                requires
                    y >= 0,
                    chunk_extent.x > 0,
            ;
        }
        let idx = x + y * chunk_extent.x;
        let ghost before = self.columns@;
        let r = &mut self.columns[idx as usize];
        proof {
            let after = before.update(idx as int, *final(r));
            assert(after.map_values(|c: Column| c@) =~= before.map_values(|c: Column| c@).update(
                idx as int,
                final(r)@,
            ));
        }
        r
    }
}

impl Chunks {
    /// The size of a chunk in columns.
    pub closed spec fn extent(&self) -> Coord {
        self.extent
    }

    /// The set of ids that a column starts with on every floor.
    pub closed spec fn fill(&self) -> u128 {
        self.fill
    }

    /// The chunks have a size, and each chunk that exists has its columns.
    pub closed spec fn wf(&self) -> bool {
        &&& self.extent.x > 0
        &&& self.extent.y > 0
        &&& self.extent.x * self.extent.y <= isize::MAX
        &&& forall|key: u128| #[trigger]
            self.map@.contains_key(key) ==> self.map@[key].columns().len() == self.extent.x
                * self.extent.y
    }

    /// Whether the chunk at `(cx, cy)` of the grid of chunks exists.
    pub closed spec fn loaded(&self, cx: int, cy: int) -> bool {
        in_range(cx) && in_range(cy) && self.map@.contains_key(key_of(cx, cy) as u128)
    }

    /// The column at `(x, y)`: the one that its chunk holds, or a fresh one
    /// where its chunk does not exist yet.
    pub closed spec fn column_at(&self, x: int, y: int) -> ColumnView {
        let cx = x / (self.extent.x as int);
        let cy = y / (self.extent.y as int);
        if self.loaded(cx, cy) {
            self.map@[key_of(cx, cy) as u128].columns()[index_of(
                self.extent.x as int,
                self.extent.y as int,
                x,
                y,
            )]
        } else {
            ColumnView::fresh(self.fill)
        }
    }

    /// The whole grid: the column at every position.
    pub open spec fn world(&self) -> Map<(int, int), ColumnView> {
        Map::total(|p: (int, int)| self.column_at(p.0, p.1))
    }

    /// An empty store for chunks of the given size.
    pub fn new(extent: Coord, any_tile_bits: u128) -> (r: Chunks)
        requires
            extent.x > 0,
            extent.y > 0,
            extent.x * extent.y <= isize::MAX,
        ensures
            r.wf(),
            r.extent() == extent,
            r.fill() == any_tile_bits,
            forall|cx: int, cy: int| !#[trigger] r.loaded(cx, cy),
            r.world() == Map::total(|p: (int, int)| ColumnView::fresh(any_tile_bits)),
    {
        let r = Chunks { extent, fill: any_tile_bits, map: HashMap::new() };
        assert(r.world() =~= Map::total(|p: (int, int)| ColumnView::fresh(any_tile_bits)));
        r
    }

    /// Whether the chunk at `chunk` of the grid of chunks exists.
    pub fn contains(&self, chunk: Coord) -> (r: bool)
        requires
            self.wf(),
        ensures
            r == self.loaded(chunk.x as int, chunk.y as int),
    {
        broadcast use vstd::std_specs::hash::group_hash_axioms;

        let key: u128 = ((chunk.x as i128 + 0x8000_0000_0000_0000) as u128) * 0x1_0000_0000_0000_0000 + ((
        chunk.y as i128 + 0x8000_0000_0000_0000) as u128);
        assert(key == key_of(chunk.x as int, chunk.y as int));
        self.map.contains_key(&key)
    }

    /// The column at `col`, to be changed in place. Its chunk comes into
    /// being here if it did not exist: a chunk of fresh columns.
    pub fn get_column(&mut self, col: Coord) -> (r: &mut Column)
        requires
            old(self).wf(),
        ensures
            r@ == old(self).world()[col@],
            final(self).world() == old(self).world().insert(col@, final(r)@),
            final(self).wf(),
            final(self).extent() == old(self).extent(),
            final(self).fill() == old(self).fill(),
            forall|cx: int, cy: int| #[trigger]
                final(self).loaded(cx, cy) <==> old(self).loaded(cx, cy) || (cx == col.x as int / (
                old(self).extent().x as int) && cy == col.y as int / (old(self).extent().y as int)),
    {
        broadcast use vstd::std_specs::hash::group_hash_axioms;

        let chunk_extent = self.extent;
        let cx = div_floor(col.x, chunk_extent.x);
        let cy = div_floor(col.y, chunk_extent.y);
        let key: u128 = ((cx as i128 + 0x8000_0000_0000_0000) as u128) * 0x1_0000_0000_0000_0000 + ((cy as i128
            + 0x8000_0000_0000_0000) as u128);
        assert(key == key_of(cx as int, cy as int));
        if !self.map.contains_key(&key) {
            let chunk = Chunk::new(chunk_extent, self.fill);
            self.map.insert(key, chunk);
            proof {
                lemma_index_bounds(chunk_extent.x as int, chunk_extent.y as int, 0, 0);
                assert forall|x: int, y: int| #[trigger]
                    self.column_at(x, y) == old(self).column_at(x, y) by {
                    lemma_index_bounds(chunk_extent.x as int, chunk_extent.y as int, x, y);
                }
                assert(self.world() =~= old(self).world());
            }
        }
        let ghost middle = *self;
        assert(middle.world() == old(self).world());
        assert(middle.loaded(cx as int, cy as int));
        let ghost after = *final(self);
        let chunk = self.map.entry(key).or_insert(Chunk { columns: Vec::new() });
        let r = chunk.column_mut(chunk_extent, col);
        proof {
            let ex = chunk_extent.x as int;
            let ey = chunk_extent.y as int;
            let idx = index_of(ex, ey, col.x as int, col.y as int);
            lemma_index_bounds(ex, ey, col.x as int, col.y as int);
            assert(after.map@ == middle.map@.insert(key, after.map@[key]));
            assert(after.map@[key].columns() == middle.map@[key].columns().update(idx, final(r)@));
            assert forall|x: int, y: int| #[trigger]
                after.column_at(x, y) == (if (x, y) == col@ {
                    final(r)@
                } else {
                    middle.column_at(x, y)
                }) by {
                let cx2 = x / ex;
                let cy2 = y / ey;
                if middle.loaded(cx2, cy2) && key_of(cx2, cy2) == key_of(cx as int, cy as int) {
                    assert(cx2 == cx && cy2 == cy);
                    lemma_index_bounds(ex, ey, x, y);
                    if index_of(ex, ey, x, y) == idx {
                        lemma_index_injective(ex, ey, x, y, col.x as int, col.y as int);
                    }
                }
            }
            assert(after.world() =~= middle.world().insert(col@, final(r)@));
            assert(r@ == middle.column_at(col.x as int, col.y as int));
        }
        r
    }
}

} // verus!
