//! The order of work: columns sorted by what is left to decide in them, the
//! least first, and columns that come twice in a row taken once.

use crate::column::Coord;
use crate::model::World;
use vstd::prelude::*;

verus! {

/// A column with its place in the order of work.
#[derive(Clone, Copy, Debug, PartialEq, Eq, Structural)]
pub struct Ranked {
    pub order: usize,
    pub col: Coord,
}

/// Where an entry with the given order goes into a sorted list: behind the
/// last entry whose order is not greater.
pub open spec fn insert_at(sorted: Seq<Ranked>, order: usize) -> int
    decreases sorted.len(),
{
    if sorted.len() == 0 || sorted.last().order <= order {
        sorted.len() as int
    } else {
        insert_at(sorted.drop_last(), order)
    }
}

/// The list sorted by order, entries of equal order in the sequence in which
/// the list has them.
pub open spec fn sort_spec(list: Seq<Ranked>) -> Seq<Ranked>
    decreases list.len(),
{
    if list.len() == 0 {
        Seq::empty()
    } else {
        let rest = sort_spec(list.drop_last());
        rest.insert(insert_at(rest, list.last().order), list.last())
    }
}

/// The list without the entries that repeat the entry before them.
pub open spec fn dedup_spec(list: Seq<Coord>) -> Seq<Coord>
    decreases list.len(),
{
    if list.len() == 0 {
        Seq::empty()
    } else {
        let rest = dedup_spec(list.drop_last());
        if rest.len() > 0 && rest.last() == list.last() {
            rest
        } else {
            rest.push(list.last())
        }
    }
}

/// No entry of the list has a greater order than an entry behind it.
pub open spec fn is_sorted(list: Seq<Ranked>) -> bool {
    forall|i: int, j: int| 0 <= i <= j < list.len() ==> list[i].order <= list[j].order
}

/// The columns of a list of ranked columns.
pub open spec fn columns_of(list: Seq<Ranked>) -> Seq<Coord> {
    list.map_values(|r: Ranked| r.col)
}

/// Where an entry goes: within the list, behind every entry whose order is
/// not greater and before every entry behind that.
pub proof fn lemma_insert_at(sorted: Seq<Ranked>, order: usize)
    requires
        is_sorted(sorted),
    ensures
        0 <= insert_at(sorted, order) <= sorted.len(),
        forall|i: int| 0 <= i < insert_at(sorted, order) ==> sorted[i].order <= order,
        forall|i: int| insert_at(sorted, order) <= i < sorted.len() ==> sorted[i].order > order,
    decreases sorted.len(),
{
    if sorted.len() == 0 {
    } else if sorted.last().order <= order {
        assert forall|i: int| 0 <= i < sorted.len() implies sorted[i].order <= order by {
            assert(sorted[i].order <= sorted[sorted.len() - 1].order);
        }
    } else {
        let shorter = sorted.drop_last();
        assert(is_sorted(shorter)) by {
            assert forall|i: int, j: int| 0 <= i <= j < shorter.len() implies shorter[i].order
                <= shorter[j].order by {
                assert(sorted[i].order <= sorted[j].order);
            }
        }
        lemma_insert_at(shorter, order);
        let at = insert_at(shorter, order);
        assert forall|i: int| 0 <= i < at implies sorted[i].order <= order by {
            assert(shorter[i].order <= order);
        }
        assert forall|i: int| at <= i < sorted.len() implies sorted[i].order > order by {
            if i < shorter.len() {
                assert(shorter[i].order > order);
            }
        }
    }
}

/// Entries whose order is greater can be left off the end of the list when
/// looking for the place of an entry.
pub proof fn lemma_insert_at_take(sorted: Seq<Ranked>, order: usize, p: int)
    requires
        0 <= p <= sorted.len(),
        forall|i: int| p <= i < sorted.len() ==> sorted[i].order > order,
    ensures
        insert_at(sorted, order) == insert_at(sorted.take(p), order),
    decreases sorted.len() - p,
{
    if p < sorted.len() {
        assert(sorted.last().order > order);
        let shorter = sorted.drop_last();
        lemma_insert_at_take(shorter, order, p);
        assert(shorter.take(p) =~= sorted.take(p));
    } else {
        assert(sorted.take(p) =~= sorted);
    }
}

/// A sorted list is sorted, and holds what the list held.
pub proof fn lemma_sort_spec(list: Seq<Ranked>)
    ensures
        is_sorted(sort_spec(list)),
        sort_spec(list).len() == list.len(),
        sort_spec(list).to_multiset() == list.to_multiset(),
    decreases list.len(),
{
    broadcast use vstd::seq_lib::group_to_multiset_ensures;

    if list.len() == 0 {
    } else {
        let rest = sort_spec(list.drop_last());
        let last = list.last();
        lemma_sort_spec(list.drop_last());
        lemma_insert_at(rest, last.order);
        let at = insert_at(rest, last.order);
        let sorted = rest.insert(at, last);
        assert forall|i: int, j: int| 0 <= i <= j < sorted.len() implies sorted[i].order
            <= sorted[j].order by {
            if i < at && j > at {
                assert(rest[i].order <= last.order);
                assert(rest[j - 1].order > last.order);
            } else if i < at && j < at {
                assert(rest[i].order <= rest[j].order);
            } else if i > at {
                assert(rest[i - 1].order <= rest[j - 1].order);
            }
        }
        assert(list =~= list.drop_last().push(last));
        assert(sorted.to_multiset() =~= rest.to_multiset().insert(last));
        assert(list.to_multiset() =~= list.drop_last().to_multiset().insert(last));
    }
}

/// Sorts the list by order; entries of equal order keep their sequence.
pub fn sort_by_order(list: &Vec<Ranked>) -> (sorted: Vec<Ranked>)
    ensures
        sorted@ == sort_spec(list@),
{
    let mut sorted: Vec<Ranked> = Vec::new();
    let mut n: usize = 0;
    assert(list@.take(0) =~= Seq::<Ranked>::empty());
    while n < list.len()
        invariant
            n <= list.len(),
            sorted@ == sort_spec(list@.take(n as int)),
        decreases list.len() - n,
    {
        let entry = list[n];
        let mut at: usize = sorted.len();
        proof {
            lemma_sort_spec(list@.take(n as int));
            assert(sorted@.take(at as int) =~= sorted@);
        }
        while at > 0 && sorted[at - 1].order > entry.order
            invariant
                at <= sorted.len(),
                is_sorted(sorted@),
                forall|i: int| at <= i < sorted.len() ==> sorted@[i].order > entry.order,
            decreases at,
        {
            proof {
                assert forall|i: int| at - 1 <= i < sorted.len() implies sorted@[i].order
                    > entry.order by {
                    assert(sorted@[at - 1].order <= sorted@[i].order);
                }
            }
            at = at - 1;
        }
        proof {
            lemma_insert_at_take(sorted@, entry.order, at as int);
            let head = sorted@.take(at as int);
            if at > 0 {
                assert(head.last() == sorted@[at - 1]);
            }
            assert(insert_at(head, entry.order) == at);
            assert(list@.take(n as int + 1).drop_last() =~= list@.take(n as int));
            assert(list@.take(n as int + 1).last() == entry);
        }
        sorted.insert(at, entry);
        n = n + 1;
    }
    assert(list@.take(n as int) =~= list@);
    sorted
}

/// The columns of a list of ranked columns, without those that repeat the
/// column before them.
pub fn dedup_columns(list: &Vec<Ranked>) -> (cols: Vec<Coord>)
    ensures
        cols@ == dedup_spec(columns_of(list@)),
{
    let mut cols: Vec<Coord> = Vec::new();
    let mut n: usize = 0;
    assert(columns_of(list@).take(0) =~= Seq::<Coord>::empty());
    while n < list.len()
        invariant
            n <= list.len(),
            cols@ == dedup_spec(columns_of(list@).take(n as int)),
        decreases list.len() - n,
    {
        let col = list[n].col;
        proof {
            let all = columns_of(list@);
            assert(all.take(n as int + 1).drop_last() =~= all.take(n as int));
            assert(all.take(n as int + 1).last() == col);
        }
        let repeats = cols.len() > 0 && cols[cols.len() - 1] == col;
        if !repeats {
            cols.push(col);
        }
        n = n + 1;
    }
    assert(columns_of(list@).take(n as int) =~= columns_of(list@));
    cols
}

/// The open columns among the candidates, each with its place in the order
/// of work, in the sequence of the candidates.
pub open spec fn ranked_spec(world: World, candidates: Seq<Coord>) -> Seq<Ranked>
    decreases candidates.len(),
{
    if candidates.len() == 0 {
        Seq::empty()
    } else {
        let rest = ranked_spec(world, candidates.drop_last());
        let col = candidates.last();
        match world[col@].order() {
            Some(order) => rest.push(Ranked { order, col }),
            None => rest,
        }
    }
}

/// The columns to resolve, in the order in which they are resolved: the open
/// columns among the candidates, those with the least left to decide first,
/// none twice in a row.
pub open spec fn plan(world: World, candidates: Seq<Coord>) -> Seq<Coord> {
    dedup_spec(columns_of(sort_spec(ranked_spec(world, candidates))))
}

/// A list without repeats holds the columns that the list holds.
pub proof fn lemma_dedup_members(list: Seq<Coord>)
    ensures
        forall|col: Coord|
            #![trigger dedup_spec(list).contains(col)]
            #![trigger list.contains(col)]
            dedup_spec(list).contains(col) <==> list.contains(col),
        dedup_spec(list).len() > 0 ==> list.len() > 0 && dedup_spec(list).last() == list.last(),
    decreases list.len(),
{
    if list.len() > 0 {
        let shorter = list.drop_last();
        lemma_dedup_members(shorter);
        let rest = dedup_spec(shorter);
        let out = dedup_spec(list);
        assert forall|col: Coord| out.contains(col) <==> list.contains(col) by {
            if out.contains(col) {
                let k = choose|k: int| 0 <= k < out.len() && out[k] == col;
                if k < rest.len() {
                    assert(rest[k] == col);
                    assert(rest.contains(col));
                    let j = choose|j: int| 0 <= j < shorter.len() && shorter[j] == col;
                    assert(list[j] == col);
                } else {
                    assert(list[list.len() - 1] == col);
                }
            }
            if list.contains(col) {
                let j = choose|j: int| 0 <= j < list.len() && list[j] == col;
                if j < shorter.len() {
                    assert(shorter[j] == col);
                    assert(rest.contains(col));
                    let k = choose|k: int| 0 <= k < rest.len() && rest[k] == col;
                    assert(out[k] == col);
                } else {
                    assert(out[out.len() - 1] == col);
                }
            }
        }
    }
}

/// A sorted list holds the entries that the list holds.
pub proof fn lemma_sort_members(list: Seq<Ranked>)
    ensures
        forall|entry: Ranked|
            #![trigger sort_spec(list).contains(entry)]
            #![trigger list.contains(entry)]
            sort_spec(list).contains(entry) <==> list.contains(entry),
{
    broadcast use vstd::seq_lib::group_to_multiset_ensures;

    lemma_sort_spec(list);
    assert forall|entry: Ranked| sort_spec(list).contains(entry) <==> list.contains(entry) by {
        assert(sort_spec(list).to_multiset().count(entry) == list.to_multiset().count(entry));
    }
}

/// The ranked columns are the open columns among the candidates, each with
/// the order that the world gives it.
pub proof fn lemma_ranked_members(world: World, candidates: Seq<Coord>)
    ensures
        forall|entry: Ranked|
            #![trigger ranked_spec(world, candidates).contains(entry)]
            #![trigger candidates.contains(entry.col), world[entry.col@].order(), entry.order]
            ranked_spec(world, candidates).contains(entry) <==> candidates.contains(entry.col)
                && world[entry.col@].order() == Some(entry.order),
    decreases candidates.len(),
{
    if candidates.len() > 0 {
        let shorter = candidates.drop_last();
        lemma_ranked_members(world, shorter);
        let rest = ranked_spec(world, shorter);
        let out = ranked_spec(world, candidates);
        let col = candidates.last();
        assert forall|entry: Ranked|
            out.contains(entry) <==> candidates.contains(entry.col) && world[entry.col@].order()
                == Some(entry.order) by {
            if out.contains(entry) {
                let k = choose|k: int| 0 <= k < out.len() && out[k] == entry;
                if k < rest.len() {
                    assert(rest[k] == entry);
                    assert(rest.contains(entry));
                    let j = choose|j: int| 0 <= j < shorter.len() && shorter[j] == entry.col;
                    assert(candidates[j] == entry.col);
                } else {
                    assert(candidates[candidates.len() - 1] == entry.col);
                }
            }
            if candidates.contains(entry.col) && world[entry.col@].order() == Some(entry.order) {
                let j = choose|j: int| 0 <= j < candidates.len() && candidates[j] == entry.col;
                if j < shorter.len() {
                    assert(shorter[j] == entry.col);
                    assert(rest.contains(entry));
                    let k = choose|k: int| 0 <= k < rest.len() && rest[k] == entry;
                    assert(out[k] == entry);
                } else {
                    assert(out[out.len() - 1] == entry);
                }
            }
        }
    }
}

/// The plan holds exactly the open columns among the candidates.
pub proof fn lemma_plan_members(world: World, candidates: Seq<Coord>)
    ensures
        forall|col: Coord|
            #![trigger plan(world, candidates).contains(col)]
            #![trigger candidates.contains(col)]
            plan(world, candidates).contains(col) <==> candidates.contains(col)
                && world[col@] is Superposition,
{
    let ranked = ranked_spec(world, candidates);
    let sorted = sort_spec(ranked);
    let cols = columns_of(sorted);
    lemma_ranked_members(world, candidates);
    lemma_sort_members(ranked);
    lemma_dedup_members(cols);
    assert forall|col: Coord|
        plan(world, candidates).contains(col) <==> candidates.contains(col)
            && world[col@] is Superposition by {
        if cols.contains(col) {
            let k = choose|k: int| 0 <= k < cols.len() && cols[k] == col;
            assert(sorted.contains(sorted[k]));
            assert(ranked.contains(sorted[k]));
        }
        if candidates.contains(col) && world[col@] is Superposition {
            let entry = Ranked { order: world[col@].order()->Some_0, col };
            assert(ranked.contains(entry));
            assert(sorted.contains(entry));
            let k = choose|k: int| 0 <= k < sorted.len() && sorted[k] == entry;
            assert(cols[k] == col);
        }
    }
}

} // verus!
