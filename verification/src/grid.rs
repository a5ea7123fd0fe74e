//! The columns of a rectangle of the grid, in the order in which a visit
//! looks at them.

use crate::column::Coord;
use vstd::prelude::*;

verus! {

/// The columns `(x, south)`, .., `(x, north)`, from south to north.
pub open spec fn row_spec(x: isize, south: isize, north: int) -> Seq<Coord>
    decreases north - south + 1,
{
    if north < south {
        Seq::empty()
    } else {
        row_spec(x, south, north - 1).push(Coord { x, y: north as isize })
    }
}

/// The columns of the rectangle from `west` to `east` and from `south` to
/// `north`, the bounds included: row after row from west to east, each row
/// from south to north.
pub open spec fn grid_spec(west: isize, east: int, south: isize, north: isize) -> Seq<Coord>
    decreases east - west + 1,
{
    if east < west {
        Seq::empty()
    } else {
        grid_spec(west, east - 1, south, north) + row_spec(east as isize, south, north as int)
    }
}

/// The columns of the rectangle from `west` to `east` and from `south` to
/// `north`, the bounds included: row after row from west to east, each row
/// from south to north. A rectangle whose bounds cross has no columns.
pub fn columns_between(west: isize, east: isize, south: isize, north: isize) -> (cols: Vec<Coord>)
    ensures
        cols@ == grid_spec(west, east as int, south, north),
{
    let mut cols: Vec<Coord> = Vec::new();
    if east < west || north < south {
        proof {
            lemma_empty_rows(west, east as int, south, north);
        }
        return cols;
    }
    let mut x = west;
    loop
        invariant_except_break
            cols@ == grid_spec(west, x - 1, south, north),
        invariant
            west <= x <= east,
            south <= north,
        ensures
            cols@ == grid_spec(west, east as int, south, north),
        decreases east - x,
    {
        let mut y = south;
        let ghost before = cols@;
        assert(cols@ =~= before + row_spec(x, south, y - 1));
        loop
            invariant_except_break
                cols@ == before + row_spec(x, south, y - 1),
            invariant
                west <= x <= east,
                south <= y <= north,
            ensures
                cols@ == before + row_spec(x, south, north as int),
            decreases north - y,
        {
            cols.push(Coord { x, y });
            assert(cols@ =~= before + row_spec(x, south, y as int));
            if y == north {
                break ;
            }
            y = y + 1;
        }
        assert(cols@ == grid_spec(west, x as int, south, north));
        if x == east {
            break ;
        }
        x = x + 1;
    }
    cols
}

/// A rectangle without rows, or with empty rows, has no columns.
proof fn lemma_empty_rows(west: isize, east: int, south: isize, north: isize)
    requires
        east < west || north < south,
    ensures
        grid_spec(west, east, south, north) == Seq::<Coord>::empty(),
    decreases east - west + 1,
{
    if east >= west {
        lemma_empty_rows(west, east - 1, south, north);
    }
}

} // verus!
