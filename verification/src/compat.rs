//! The compatibility table: for every tile-rotation id and every direction,
//! the set of ids that may stand next to it in that direction.

use crate::bits::{
    bit_empty, bit_find_first_set, bit_set, bit_union, bounded, is_set, lemma_is_set_or,
    lemma_is_set_single, lemma_is_set_zero,
};
use crate::tiles::{rot_id, rot_id_spec, Neighbour, Side, MAX_TILES};
use vstd::prelude::*;

verus! {

/// The six sets of one tile-rotation id: who may stand to its north, south,
/// west and east, above it and below it.
#[derive(Clone, Copy, Debug)]
pub struct NeighboursBits {
    pub north: u128,
    pub south: u128,
    pub west: u128,
    pub east: u128,
    pub up: u128,
    pub down: u128,
}

impl NeighboursBits {
    /// The set for one direction.
    pub open spec fn toward(self, side: Side) -> u128 {
        match side {
            Side::North => self.north,
            Side::East => self.east,
            Side::South => self.south,
            Side::West => self.west,
            Side::Up => self.up,
            Side::Down => self.down,
        }
    }

    /// The set for one direction.
    pub fn get(&self, side: Side) -> (r: u128)
        ensures
            r == self.toward(side),
    {
        match side {
            Side::North => self.north,
            Side::East => self.east,
            Side::South => self.south,
            Side::West => self.west,
            Side::Up => self.up,
            Side::Down => self.down,
        }
    }

    /// Six empty sets.
    pub fn empty() -> (r: NeighboursBits)
        ensures
            forall|side: Side| #[trigger] r.toward(side) == 0,
    {
        NeighboursBits {
            north: bit_empty(),
            south: bit_empty(),
            west: bit_empty(),
            east: bit_empty(),
            up: bit_empty(),
            down: bit_empty(),
        }
    }
}

/// The face that tile-rotation `id` shows toward `side`: a quarter turn moves
/// the north face to the east, and leaves the upper and lower faces.
pub open spec fn face(id: int, side: Side) -> Side {
    if side.is_horizontal() {
        Side::horizontal_spec(side.index_spec() + 4 - id % 4)
    } else {
        side
    }
}

/// With `b` standing on the `side` side of `a`, the face that `a` shows to `b`
/// is `p` and the face that `b` shows to `a` is `q`.
pub open spec fn joins(p: Neighbour, q: Neighbour, a: int, side: Side, b: int) -> bool {
    &&& p.id == a / 4
    &&& p.side == face(a, side)
    &&& q.id == b / 4
    &&& q.side == face(b, side.opposite_spec())
}

/// The rule lets `b` stand on the `side` side of `a`: the two faces that then
/// touch are the pair that the rule names, in either order.
pub open spec fn rule_allows(rule: [Neighbour; 2], a: int, side: Side, b: int) -> bool {
    &&& 0 <= a
    &&& 0 <= b
    &&& joins(rule[0], rule[1], a, side, b) || joins(rule[1], rule[0], a, side, b)
}

/// A rule is well formed over a catalogue of `tiles` tiles: it names tiles of
/// the catalogue, and either two horizontal faces or an upper and a lower one.
pub open spec fn rule_valid(rule: [Neighbour; 2], tiles: int) -> bool {
    &&& rule[0].id < tiles
    &&& rule[1].id < tiles
    &&& (rule[0].side.is_horizontal() && rule[1].side.is_horizontal()) || (rule[0].side == Side::Up
        && rule[1].side == Side::Down) || (rule[0].side == Side::Down && rule[1].side == Side::Up)
}

/// Every rule of the list is well formed.
pub open spec fn rules_valid(rules: Seq<[Neighbour; 2]>, tiles: int) -> bool {
    forall|k: int| 0 <= k < rules.len() ==> rule_valid(#[trigger] rules[k], tiles)
}

/// One of the first `n` rules lets `b` stand on the `side` side of `a`.
pub open spec fn allowed_upto(rules: Seq<[Neighbour; 2]>, n: int, a: int, side: Side, b: int) -> bool {
    exists|k: int| 0 <= k < n && #[trigger] rule_allows(rules[k], a, side, b)
}

/// Some rule lets `b` stand on the `side` side of `a`.
pub open spec fn allowed(rules: Seq<[Neighbour; 2]>, a: int, side: Side, b: int) -> bool {
    allowed_upto(rules, rules.len() as int, a, side, b)
}

/// `table` holds, for the ids of `tiles` tiles, what the first `n` rules allow.
pub open spec fn table_holds(
    table: Seq<NeighboursBits>,
    rules: Seq<[Neighbour; 2]>,
    n: int,
    tiles: int,
) -> bool {
    &&& table.len() == 4 * tiles
    &&& forall|a: int, side: Side, b: int|
        0 <= a < table.len() ==> (#[trigger] is_set(table[a].toward(side), b) <==> allowed_upto(
            rules,
            n,
            a,
            side,
            b,
        ))
}

/// `table` is the compatibility table of the rules over `tiles` tiles.
pub open spec fn is_table(table: Seq<NeighboursBits>, rules: Seq<[Neighbour; 2]>, tiles: int) -> bool {
    table_holds(table, rules, rules.len() as int, tiles)
}

/// `after` allows what `before` allows and, besides, `b` on the `side` side of
/// `a`.
pub open spec fn extends_by(
    before: Seq<NeighboursBits>,
    after: Seq<NeighboursBits>,
    a: int,
    side: Side,
    b: int,
) -> bool {
    &&& after.len() == before.len()
    &&& forall|a2: int, s2: Side, b2: int|
        0 <= a2 < before.len() ==> (#[trigger] is_set(after[a2].toward(s2), b2) <==> is_set(
            before[a2].toward(s2),
            b2,
        ) || (a2 == a && s2 == side && b2 == b))
}

/// Lets `b` stand on the `side` side of `a`.
fn allow(table: &mut Vec<NeighboursBits>, a: usize, side: Side, b: usize)
    requires
        a < old(table).len(),
        b < 128,
    ensures
        extends_by(old(table)@, final(table)@, a as int, side, b as int),
{
    let mut entry = table[a];
    let ghost was = entry;
    match side {
        Side::North => bit_set(&mut entry.north, b),
        Side::East => bit_set(&mut entry.east, b),
        Side::South => bit_set(&mut entry.south, b),
        Side::West => bit_set(&mut entry.west, b),
        Side::Up => bit_set(&mut entry.up, b),
        Side::Down => bit_set(&mut entry.down, b),
    }
    table[a] = entry;
    proof {
        assert forall|a2: int, s2: Side, b2: int| 0 <= a2 < old(table).len() implies (#[trigger] is_set(
            table@[a2].toward(s2),
            b2,
        ) <==> is_set(old(table)@[a2].toward(s2), b2) || (a2 == a && s2 == side && b2 == b)) by {
            if a2 == a && s2 == side {
                lemma_is_set_or(was.toward(side), 1u128 << (b as u128), b2);
                lemma_is_set_single(b as int, b2);
            }
        }
    }
}

/// `after` allows what `before` allows and what `rule` allows.
pub open spec fn extends_by_rule(
    before: Seq<NeighboursBits>,
    after: Seq<NeighboursBits>,
    rule: [Neighbour; 2],
) -> bool {
    &&& after.len() == before.len()
    &&& forall|a2: int, s2: Side, b2: int|
        0 <= a2 < before.len() ==> (#[trigger] is_set(after[a2].toward(s2), b2) <==> is_set(
            before[a2].toward(s2),
            b2,
        ) || rule_allows(rule, a2, s2, b2))
}

/// The horizontal side with the given number.
fn horizontal(k: usize) -> (r: Side)
    requires
        k < 4,
    ensures
        r == Side::horizontal_spec(k as int),
        r.index_spec() == k,
{
    if k == 0 {
        Side::North
    } else if k == 1 {
        Side::East
    } else if k == 2 {
        Side::South
    } else {
        Side::West
    }
}

/// Turning back: the face with number `s` looks toward the direction with
/// number `k` after `r` quarter turns exactly if `r` is `k - s`, modulo 4.
proof fn lemma_quarter_turns(k: int, r: int, s: int)
    requires
        0 <= k < 4,
        0 <= r < 4,
        0 <= s < 4,
    ensures
        (k + 4 - r) % 4 == s <==> r == (4 + k - s) % 4,
{
}

/// The number of the face that an id shows toward a horizontal side.
proof fn lemma_face_index(id: int, side: Side)
    requires
        0 <= id,
        side.is_horizontal(),
    ensures
        face(id, side).is_horizontal(),
        face(id, side).index_spec() == (side.index_spec() + 4 - id % 4) % 4,
{
}

/// Which ids two horizontal faces join across the horizontal side with number
/// `k`: the rotation of each tile that turns the named face toward the other.
proof fn lemma_joins_horizontal(p: Neighbour, q: Neighbour, k: int, a: int, b: int)
    requires
        p.side.is_horizontal(),
        q.side.is_horizontal(),
        0 <= k < 4,
        0 <= a,
        0 <= b,
    ensures
        joins(p, q, a, Side::horizontal_spec(k), b) <==> (a == p.id * 4 + (4 + k - p.side.index_spec())
            % 4 && b == q.id * 4 + (4 + (k + 2) % 4 - q.side.index_spec()) % 4),
{
    let side = Side::horizontal_spec(k);
    let back = side.opposite_spec();
    let ps = p.side.index_spec();
    let qs = q.side.index_spec();
    let k2 = (k + 2) % 4;
    assert(side.index_spec() == k);
    assert(back.index_spec() == k2 && back.is_horizontal());
    lemma_face_index(a, side);
    lemma_face_index(b, back);
    lemma_quarter_turns(k, a % 4, ps);
    lemma_quarter_turns(k2, b % 4, qs);
    let fa = face(a, side);
    let fb = face(b, back);
    assert(p.side == fa <==> ps == fa.index_spec());
    assert(q.side == fb <==> qs == fb.index_spec());
    let ra = (4 + k - ps) % 4;
    let rb = (4 + k2 - qs) % 4;
    assert(p.id == a / 4 && a % 4 == ra <==> a == p.id * 4 + ra);
    assert(q.id == b / 4 && b % 4 == rb <==> b == q.id * 4 + rb);
}

/// Enters a rule between two horizontal faces: for each direction, the
/// rotation of either tile that turns its face that way may have next to it
/// the rotation of the other that turns its face the opposite way.
fn apply_horizontal(table: &mut Vec<NeighboursBits>, rule: &[Neighbour; 2], tiles: usize)
    requires
        tiles <= MAX_TILES,
        old(table).len() == 4 * tiles,
        rule_valid(*rule, tiles as int),
        rule[0].side.is_horizontal(),
    ensures
        extends_by_rule(old(table)@, final(table)@, *rule),
{
    let left = rule[0];
    let right = rule[1];
    let ls = left.side.index();
    let rs = right.side.index();
    let mut k: usize = 0;
    while k < 4
        invariant
            k <= 4,
            tiles <= MAX_TILES,
            table.len() == 4 * tiles,
            table.len() == old(table).len(),
            rule_valid(*rule, tiles as int),
            left == rule[0],
            right == rule[1],
            ls == left.side.index_spec(),
            rs == right.side.index_spec(),
            ls < 4,
            rs < 4,
            forall|a2: int, s2: Side, b2: int|
                0 <= a2 < table.len() ==> (#[trigger] is_set(table@[a2].toward(s2), b2) <==> is_set(
                    old(table)@[a2].toward(s2),
                    b2,
                ) || (s2.index_spec() < k && rule_allows(*rule, a2, s2, b2))),
        decreases 4 - k,
    {
        let side = horizontal(k);
        let ghost before = table@;
        let la = rot_id(left.id, (4 + k - ls) % 4);
        let rb = rot_id(right.id, (4 + (k + 2) % 4 - rs) % 4);
        allow(table, la, side, rb);
        let ghost middle = table@;
        let ra = rot_id(right.id, (4 + k - rs) % 4);
        let lb = rot_id(left.id, (4 + (k + 2) % 4 - ls) % 4);
        allow(table, ra, side, lb);
        proof {
            assert forall|a2: int, s2: Side, b2: int| 0 <= a2 < table.len() implies (#[trigger] is_set(
                table@[a2].toward(s2),
                b2,
            ) <==> is_set(old(table)@[a2].toward(s2), b2) || (s2.index_spec() < k + 1
                && rule_allows(*rule, a2, s2, b2))) by {
                assert(is_set(table@[a2].toward(s2), b2) <==> is_set(middle[a2].toward(s2), b2) || (a2
                    == ra && s2 == side && b2 == lb));
                assert(is_set(middle[a2].toward(s2), b2) <==> is_set(before[a2].toward(s2), b2) || (a2
                    == la && s2 == side && b2 == rb));
                if s2 == side && 0 <= b2 {
                    lemma_joins_horizontal(left, right, k as int, a2, b2);
                    lemma_joins_horizontal(right, left, k as int, a2, b2);
                } else if s2.index_spec() == k {
                    assert(s2 == side);
                }
            }
        }
        k = k + 1;
    }
    proof {
        assert forall|a2: int, s2: Side, b2: int| 0 <= a2 < table.len() implies (#[trigger] is_set(
            table@[a2].toward(s2),
            b2,
        ) <==> is_set(old(table)@[a2].toward(s2), b2) || rule_allows(*rule, a2, s2, b2)) by {
            if !s2.is_horizontal() {
                assert(!rule_allows(*rule, a2, s2, b2));
            }
        }
    }
}

/// What the loops of a vertical rule have entered when the first `rows`
/// rotations are done and `cols` more of the next: `b` above `a` where `a` is
/// a rotation of `lower` and `b` one of `upper`, and `b` below `a` the other
/// way round.
pub open spec fn stacked(lower: int, upper: int, rows: int, cols: int, a: int, side: Side, b: int) -> bool {
    &&& 0 <= a
    &&& 0 <= b
    &&& a % 4 < rows || (a % 4 == rows && b % 4 < cols)
    &&& (side == Side::Up && a / 4 == lower && b / 4 == upper) || (side == Side::Down && a / 4
        == upper && b / 4 == lower)
}

/// Enters a rule between an upper and a lower face: every rotation of the
/// tile `lower` may have every rotation of the tile `upper` above it.
fn apply_vertical(table: &mut Vec<NeighboursBits>, lower: usize, upper: usize, tiles: usize)
    requires
        tiles <= MAX_TILES,
        old(table).len() == 4 * tiles,
        lower < tiles,
        upper < tiles,
    ensures
        final(table).len() == old(table).len(),
        forall|a2: int, s2: Side, b2: int|
            0 <= a2 < old(table).len() ==> (#[trigger] is_set(final(table)@[a2].toward(s2), b2)
                <==> is_set(old(table)@[a2].toward(s2), b2) || stacked(
                lower as int,
                upper as int,
                4,
                0,
                a2,
                s2,
                b2,
            )),
{
    let mut i: usize = 0;
    while i < 4
        invariant
            i <= 4,
            tiles <= MAX_TILES,
            table.len() == 4 * tiles,
            table.len() == old(table).len(),
            lower < tiles,
            upper < tiles,
            forall|a2: int, s2: Side, b2: int|
                0 <= a2 < table.len() ==> (#[trigger] is_set(table@[a2].toward(s2), b2) <==> is_set(
                    old(table)@[a2].toward(s2),
                    b2,
                ) || stacked(lower as int, upper as int, i as int, 0, a2, s2, b2)),
        decreases 4 - i,
    {
        let mut j: usize = 0;
        while j < 4
            invariant
                i < 4,
                j <= 4,
                tiles <= MAX_TILES,
                table.len() == 4 * tiles,
                table.len() == old(table).len(),
                lower < tiles,
                upper < tiles,
                forall|a2: int, s2: Side, b2: int|
                    0 <= a2 < table.len() ==> (#[trigger] is_set(table@[a2].toward(s2), b2)
                        <==> is_set(old(table)@[a2].toward(s2), b2) || stacked(
                        lower as int,
                        upper as int,
                        i as int,
                        j as int,
                        a2,
                        s2,
                        b2,
                    )),
            decreases 4 - j,
        {
            let ghost before = table@;
            allow(table, rot_id(lower, i), Side::Up, rot_id(upper, j));
            let ghost middle = table@;
            allow(table, rot_id(upper, i), Side::Down, rot_id(lower, j));
            proof {
                assert forall|a2: int, s2: Side, b2: int| 0 <= a2 < table.len() implies (
                #[trigger] is_set(table@[a2].toward(s2), b2) <==> is_set(
                    old(table)@[a2].toward(s2),
                    b2,
                ) || stacked(lower as int, upper as int, i as int, j as int + 1, a2, s2, b2)) by {
                    assert(is_set(table@[a2].toward(s2), b2) <==> is_set(middle[a2].toward(s2), b2)
                        || (a2 == rot_id_spec(upper as int, i as int) && s2 == Side::Down && b2
                        == rot_id_spec(lower as int, j as int)));
                    assert(is_set(middle[a2].toward(s2), b2) <==> is_set(before[a2].toward(s2), b2)
                        || (a2 == rot_id_spec(lower as int, i as int) && s2 == Side::Up && b2
                        == rot_id_spec(upper as int, j as int)));
                }
            }
            j = j + 1;
        }
        i = i + 1;
    }
}

/// The compatibility table of the rules over `tiles` tiles, or `None` where a
/// rule is not well formed.
pub fn build_table(tiles: usize, rules: &[[Neighbour; 2]]) -> (r: Option<Vec<NeighboursBits>>)
    requires
        tiles <= MAX_TILES,
    ensures
        r is Some <==> rules_valid(rules@, tiles as int),
        r matches Some(table) ==> is_table(table@, rules@, tiles as int),
{
    let mut table: Vec<NeighboursBits> = Vec::new();
    let mut n: usize = 0;
    while n < 4 * tiles
        invariant
            tiles <= MAX_TILES,
            n <= 4 * tiles,
            table.len() == n,
            forall|a: int, side: Side| 0 <= a < n ==> #[trigger] table@[a].toward(side) == 0,
        decreases 4 * tiles - n,
    {
        table.push(NeighboursBits::empty());
        n = n + 1;
    }
    proof {
        assert forall|a: int, side: Side, b: int| 0 <= a < table.len() implies (#[trigger] is_set(
            table@[a].toward(side),
            b,
        ) <==> allowed_upto(rules@, 0, a, side, b)) by {
            assert(table@[a].toward(side) == 0);
            lemma_is_set_zero(b);
        }
    }
    let mut i: usize = 0;
    while i < rules.len()
        invariant
            tiles <= MAX_TILES,
            i <= rules.len(),
            table_holds(table@, rules@, i as int, tiles as int),
            forall|k: int| 0 <= k < i ==> rule_valid(#[trigger] rules@[k], tiles as int),
        decreases rules.len() - i,
    {
        let rule = &rules[i];
        let ghost before = table@;
        if rule[0].id >= tiles || rule[1].id >= tiles {
            assert(!rule_valid(rules@[i as int], tiles as int));
            return None;
        }
        match (rule[0].side, rule[1].side) {
            (Side::Up, Side::Down) => {
                apply_vertical(&mut table, rule[0].id, rule[1].id, tiles);
            },
            (Side::Down, Side::Up) => {
                apply_vertical(&mut table, rule[1].id, rule[0].id, tiles);
            },
            (Side::Up, _) | (Side::Down, _) | (_, Side::Up) | (_, Side::Down) => {
                assert(!rule_valid(rules@[i as int], tiles as int));
                return None;
            },
            _ => {
                apply_horizontal(&mut table, rule, tiles);
            },
        }
        proof {
            assert(extends_by_rule(before, table@, *rule));
            assert forall|a: int, side: Side, b: int| 0 <= a < table.len() implies (#[trigger] is_set(
                table@[a].toward(side),
                b,
            ) <==> allowed_upto(rules@, i as int + 1, a, side, b)) by {
                assert(is_set(table@[a].toward(side), b) <==> is_set(before[a].toward(side), b)
                    || rule_allows(rules@[i as int], a, side, b));
                assert(is_set(before[a].toward(side), b) <==> allowed_upto(
                    rules@,
                    i as int,
                    a,
                    side,
                    b,
                ));
                if allowed_upto(rules@, i as int + 1, a, side, b) {
                    let k = choose|k: int|
                        0 <= k < i + 1 && #[trigger] rule_allows(rules@[k], a, side, b);
                    if k < i {
                        assert(allowed_upto(rules@, i as int, a, side, b));
                    }
                }
            }
        }
        i = i + 1;
    }
    Some(table)
}

/// The union, over the members of `bits` that are below `n`, of the sets that
/// the table gives them toward `side`.
pub open spec fn aggregate_below(table: Seq<NeighboursBits>, bits: u128, side: Side, n: int) -> u128
    decreases n,
{
    if n <= 0 {
        0
    } else if is_set(bits, n - 1) {
        aggregate_below(table, bits, side, n - 1) | table[n - 1].toward(side)
    } else {
        aggregate_below(table, bits, side, n - 1)
    }
}

/// The ids that may stand on the `side` side of a cell that still has the
/// candidates `bits`: the union of what the table gives each candidate.
pub open spec fn aggregate_spec(table: Seq<NeighboursBits>, bits: u128, side: Side) -> u128 {
    aggregate_below(table, bits, side, 128)
}

/// No set of the table holds an id that the table has no row for.
pub open spec fn table_bounded(table: Seq<NeighboursBits>) -> bool {
    forall|a: int, side: Side|
        0 <= a < table.len() ==> bounded(#[trigger] table[a].toward(side), table.len() as int)
}

/// The members of an aggregate: `b` is in it exactly if the table lets `b`
/// stand on the `side` side of some member of `bits`.
pub proof fn lemma_aggregate_members(
    table: Seq<NeighboursBits>,
    bits: u128,
    side: Side,
    n: int,
    b: int,
)
    requires
        0 <= n <= 128,
    ensures
        is_set(aggregate_below(table, bits, side, n), b) <==> exists|a: int|
            0 <= a < n && is_set(bits, a) && #[trigger] is_set(table[a].toward(side), b),
    decreases n,
{
    if n <= 0 {
        lemma_is_set_zero(b);
    } else {
        lemma_aggregate_members(table, bits, side, n - 1, b);
        let rest = aggregate_below(table, bits, side, n - 1);
        if is_set(bits, n - 1) {
            lemma_is_set_or(rest, table[n - 1].toward(side), b);
            if is_set(table[n - 1].toward(side), b) {
                assert(0 <= n - 1 < n && is_set(bits, n - 1) && is_set(table[n - 1].toward(side), b));
            }
        }
        if exists|a: int| 0 <= a < n && is_set(bits, a) && #[trigger] is_set(table[a].toward(side), b) {
            let a = choose|a: int|
                0 <= a < n && is_set(bits, a) && #[trigger] is_set(table[a].toward(side), b);
            if a < n - 1 {
                assert(is_set(rest, b));
            }
        }
    }
}

/// Where no bit from `lo` up to `hi` is set, the aggregate does not grow
/// between the two.
pub proof fn lemma_aggregate_gap(table: Seq<NeighboursBits>, bits: u128, side: Side, lo: int, hi: int)
    requires
        0 <= lo <= hi <= 128,
        forall|j: int| lo <= j < hi ==> !is_set(bits, j),
    ensures
        aggregate_below(table, bits, side, hi) == aggregate_below(table, bits, side, lo),
    decreases hi - lo,
{
    if lo < hi {
        lemma_aggregate_gap(table, bits, side, lo, hi - 1);
    }
}

/// An aggregate over a bounded table is bounded.
pub proof fn lemma_aggregate_bounded(table: Seq<NeighboursBits>, bits: u128, side: Side)
    requires
        table_bounded(table),
        bounded(bits, table.len() as int),
    ensures
        bounded(aggregate_spec(table, bits, side), table.len() as int),
{
    assert forall|b: int| #[trigger] is_set(aggregate_spec(table, bits, side), b) implies b
        < table.len() by {
        lemma_aggregate_members(table, bits, side, 128, b);
        let a = choose|a: int|
            0 <= a < 128 && is_set(bits, a) && #[trigger] is_set(table[a].toward(side), b);
        assert(bounded(table[a].toward(side), table.len() as int));
    }
}

/// The table of well-formed rules holds no id beyond its rows.
pub proof fn lemma_table_bounded(table: Seq<NeighboursBits>, rules: Seq<[Neighbour; 2]>, tiles: int)
    requires
        is_table(table, rules, tiles),
        rules_valid(rules, tiles),
    ensures
        table_bounded(table),
{
    assert forall|a: int, side: Side| 0 <= a < table.len() implies bounded(
        #[trigger] table[a].toward(side),
        table.len() as int,
    ) by {
        assert forall|b: int| #[trigger] is_set(table[a].toward(side), b) implies b < table.len() by {
            assert(allowed_upto(rules, rules.len() as int, a, side, b));
            let k = choose|k: int| 0 <= k < rules.len() && #[trigger] rule_allows(rules[k], a, side, b);
            assert(rule_valid(rules[k], tiles));
        }
    }
}

/// The ids that may stand on the `side` side of a cell that still has the
/// candidates `bits`.
pub fn aggregate(table: &Vec<NeighboursBits>, bits: u128, side: Side) -> (r: u128)
    requires
        bounded(bits, table.len() as int),
    ensures
        r == aggregate_spec(table@, bits, side),
{
    let mut acc = bit_empty();
    let mut next: usize = 0;
    while next < 128
        invariant
            next <= 128,
            bounded(bits, table.len() as int),
            acc == aggregate_below(table@, bits, side, next as int),
        decreases 128 - next,
    {
        match bit_find_first_set(bits, next) {
            None => {
                proof {
                    lemma_aggregate_gap(table@, bits, side, next as int, 128);
                }
                return acc;
            },
            Some(bit) => {
                proof {
                    lemma_aggregate_gap(table@, bits, side, next as int, bit as int);
                }
                acc = bit_union(acc, table[bit].get(side));
                next = bit + 1;
            },
        }
    }
    acc
}

} // verus!
