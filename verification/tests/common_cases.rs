use terragen::bits::{count_bits, first_bit, full_below, iter_bits};
use terragen::column::{Column, Coord, Memoized};
use terragen::compat::{aggregate, build_table, NeighboursBits};
use terragen::grid::columns_between;
use terragen::order::{dedup_columns, sort_by_order, Ranked};
use terragen::tiles::{rot_id, Neighbour, Side, SideOutOfBounds};

#[test]
fn full_below_sets_the_low_bits() {
    assert_eq!(full_below(0), 0);
    assert_eq!(full_below(1), 1);
    assert_eq!(full_below(4), 0b1111);
    assert_eq!(full_below(127), u128::MAX >> 1);
    assert_eq!(full_below(128), u128::MAX);
}

#[test]
fn iter_bits_lists_each_member_once_in_ascending_order() {
    assert_eq!(iter_bits(0), Vec::<usize>::new());
    assert_eq!(iter_bits(0b1000), vec![3]);
    assert_eq!(iter_bits(0b1010_0001), vec![0, 5, 7]);
    assert_eq!(iter_bits(1u128 << 127), vec![127]);
    assert_eq!(iter_bits((1u128 << 127) | 1), vec![0, 127]);
    assert_eq!(iter_bits(u128::MAX).len(), 128);
}

#[test]
fn count_bits_counts_members() {
    assert_eq!(count_bits(0), 0);
    assert_eq!(count_bits(0b1000), 1);
    assert_eq!(count_bits(0b1010_0001), 3);
    assert_eq!(count_bits(u128::MAX), 128);
}

#[test]
fn first_bit_is_the_least_member() {
    assert_eq!(first_bit(0), None);
    assert_eq!(first_bit(0b1010_0000), Some(5));
    assert_eq!(first_bit(1u128 << 127), Some(127));
    assert_eq!(first_bit(u128::MAX), Some(0));
}

#[test]
fn side_try_from_numbers_the_sides() {
    assert_eq!(Side::try_from(0usize), Ok(Side::North));
    assert_eq!(Side::try_from(1usize), Ok(Side::East));
    assert_eq!(Side::try_from(2usize), Ok(Side::South));
    assert_eq!(Side::try_from(3usize), Ok(Side::West));
    assert_eq!(Side::try_from(4usize), Ok(Side::Up));
    assert_eq!(Side::try_from(5usize), Ok(Side::Down));
    assert_eq!(Side::try_from(6usize), Err(SideOutOfBounds));
    assert_eq!(Side::try_from(usize::MAX), Err(SideOutOfBounds));
}

#[test]
fn side_index_numbers_the_sides() {
    let sides = [Side::North, Side::East, Side::South, Side::West, Side::Up, Side::Down];
    for (number, side) in sides.iter().enumerate() {
        assert_eq!(side.index(), number);
        assert_eq!(Side::try_from(side.index()), Ok(*side));
    }
}

#[test]
fn rot_id_is_four_times_the_tile_plus_the_rotation() {
    assert_eq!(rot_id(0, 0), 0);
    assert_eq!(rot_id(5, 3), 23);
    assert_eq!(rot_id(31, 3), 127);
}

fn bits_of(entry: &NeighboursBits) -> [u128; 6] {
    [entry.north, entry.east, entry.south, entry.west, entry.up, entry.down]
}

#[test]
fn horizontal_rule_turns_with_the_tiles() {
    let rules = vec![[Neighbour { id: 0, side: Side::North }, Neighbour { id: 0, side: Side::South }]];
    let table = build_table(1, &rules).unwrap();
    assert_eq!(table.len(), 4);
    assert_eq!(bits_of(&table[0]), [1, 0, 1, 0, 0, 0]);
    assert_eq!(bits_of(&table[1]), [0, 2, 0, 2, 0, 0]);
    assert_eq!(bits_of(&table[2]), [4, 0, 4, 0, 0, 0]);
    assert_eq!(bits_of(&table[3]), [0, 8, 0, 8, 0, 0]);
}

#[test]
fn horizontal_rule_between_two_tiles() {
    // The east face of tile 0 may touch the north face of tile 1.
    let rules = vec![[Neighbour { id: 0, side: Side::East }, Neighbour { id: 1, side: Side::North }]];
    let table = build_table(2, &rules).unwrap();
    assert_eq!(table.len(), 8);
    // Tile 0 unturned shows its east face to the east; tile 1 shows its
    // north face to the west after three quarter turns.
    assert_eq!(table[0].east, 1 << 7);
    assert_eq!(table[7].west, 1 << 0);
    // Tile 0 turned three times shows its east face to the north; tile 1
    // shows its north face to the south after two quarter turns.
    assert_eq!(table[3].north, 1 << 6);
    assert_eq!(table[6].south, 1 << 3);
    let mut members = 0;
    for entry in &table {
        for bits in bits_of(entry) {
            members += count_bits(bits);
        }
    }
    assert_eq!(members, 8);
}

#[test]
fn vertical_rule_holds_for_every_rotation() {
    let rules = vec![[Neighbour { id: 0, side: Side::Up }, Neighbour { id: 1, side: Side::Down }]];
    let table = build_table(2, &rules).unwrap();
    for id in 0..4 {
        assert_eq!(bits_of(&table[id]), [0, 0, 0, 0, 0xf0, 0]);
    }
    for id in 4..8 {
        assert_eq!(bits_of(&table[id]), [0, 0, 0, 0, 0, 0x0f]);
    }
    let swapped = vec![[Neighbour { id: 1, side: Side::Down }, Neighbour { id: 0, side: Side::Up }]];
    let other = build_table(2, &swapped).unwrap();
    for id in 0..8 {
        assert_eq!(bits_of(&other[id]), bits_of(&table[id]));
    }
}

#[test]
fn malformed_rules_give_no_table() {
    let mixed = vec![[Neighbour { id: 0, side: Side::Up }, Neighbour { id: 0, side: Side::North }]];
    assert!(build_table(1, &mixed).is_none());
    let mixed = vec![[Neighbour { id: 0, side: Side::West }, Neighbour { id: 0, side: Side::Down }]];
    assert!(build_table(1, &mixed).is_none());
    let twice_up = vec![[Neighbour { id: 0, side: Side::Up }, Neighbour { id: 0, side: Side::Up }]];
    assert!(build_table(1, &twice_up).is_none());
    let twice_down = vec![[Neighbour { id: 0, side: Side::Down }, Neighbour { id: 0, side: Side::Down }]];
    assert!(build_table(1, &twice_down).is_none());
    let unknown = vec![[Neighbour { id: 0, side: Side::North }, Neighbour { id: 1, side: Side::South }]];
    assert!(build_table(1, &unknown).is_none());
    assert!(build_table(2, &unknown).is_some());
    assert_eq!(build_table(0, &Vec::new()).unwrap().len(), 0);
}

#[test]
fn aggregate_is_the_union_over_the_members() {
    let rules = vec![
        [Neighbour { id: 0, side: Side::Up }, Neighbour { id: 1, side: Side::Down }],
        [Neighbour { id: 1, side: Side::Up }, Neighbour { id: 2, side: Side::Down }],
    ];
    let table = build_table(3, &rules).unwrap();
    assert_eq!(aggregate(&table, 0, Side::Up), 0);
    assert_eq!(aggregate(&table, 0b0001, Side::Up), 0x0f0);
    assert_eq!(aggregate(&table, 0b1_0000, Side::Up), 0xf00);
    assert_eq!(aggregate(&table, 0b1_0001, Side::Up), 0xff0);
    assert_eq!(aggregate(&table, 0xfff, Side::Up), 0xff0);
    assert_eq!(aggregate(&table, 0xfff, Side::Down), 0x0ff);
    assert_eq!(aggregate(&table, 0xfff, Side::North), 0);
}

fn ranked(order: usize, x: isize) -> Ranked {
    Ranked { order, col: Coord { x, y: 0 } }
}

#[test]
fn sort_by_order_is_stable() {
    let list = vec![ranked(3, 0), ranked(1, 1), ranked(3, 2), ranked(1, 3), ranked(2, 4), ranked(0, 5)];
    let sorted = sort_by_order(&list);
    assert_eq!(
        sorted,
        vec![ranked(0, 5), ranked(1, 1), ranked(1, 3), ranked(2, 4), ranked(3, 0), ranked(3, 2)]
    );
    assert_eq!(sort_by_order(&Vec::new()), Vec::new());
    assert_eq!(sort_by_order(&vec![ranked(7, 7)]), vec![ranked(7, 7)]);
}

#[test]
fn dedup_columns_drops_repeats_in_a_row() {
    let list = vec![ranked(1, 0), ranked(1, 0), ranked(2, 1), ranked(3, 0), ranked(3, 0), ranked(3, 0)];
    let cols = dedup_columns(&list);
    assert_eq!(cols, vec![Coord { x: 0, y: 0 }, Coord { x: 1, y: 0 }, Coord { x: 0, y: 0 }]);
    assert_eq!(dedup_columns(&Vec::new()), Vec::new());
}

#[test]
fn columns_between_goes_row_by_row() {
    let cols = columns_between(-1, 1, 4, 5);
    let expected: Vec<Coord> = [(-1, 4), (-1, 5), (0, 4), (0, 5), (1, 4), (1, 5)]
        .iter()
        .map(|&(x, y)| Coord { x, y })
        .collect();
    assert_eq!(cols, expected);
    assert_eq!(columns_between(3, 3, -2, -2), vec![Coord { x: 3, y: -2 }]);
    assert!(columns_between(1, 0, 0, 5).is_empty());
    assert!(columns_between(0, 5, 1, 0).is_empty());
    let edge = columns_between(isize::MAX - 1, isize::MAX, isize::MIN, isize::MIN + 1);
    assert_eq!(edge.len(), 4);
    assert_eq!(edge[0], Coord { x: isize::MAX - 1, y: isize::MIN });
    assert_eq!(edge[3], Coord { x: isize::MAX, y: isize::MIN + 1 });
}

#[test]
fn fresh_column_counts_its_candidates() {
    assert_eq!(Column::fresh(0b1011).order(), Some(16 * 3));
    assert_eq!(Column::fresh(0).order(), Some(0));
    assert_eq!(Column::fresh(u128::MAX).order(), Some(16 * 128));
    assert_eq!(Column::Collapsed { tiles: [3; 16] }.order(), None);
    let mut mixed = [1u128; 16];
    mixed[4] = 0b111;
    mixed[15] = 0;
    assert_eq!(Column::Superposition { bits: mixed }.order(), Some(14 + 3));
}

#[test]
fn column_neighbours_by_cell_and_side() {
    let rules = vec![
        [Neighbour { id: 0, side: Side::Up }, Neighbour { id: 1, side: Side::Down }],
        [Neighbour { id: 1, side: Side::Up }, Neighbour { id: 2, side: Side::Down }],
    ];
    let table = build_table(3, &rules).unwrap();
    let mut memo = Memoized::new();
    let mut bits = [0u128; 16];
    bits[0] = 0b1_0001;
    bits[1] = 0b1;
    let open = Column::Superposition { bits };
    assert_eq!(open.neighbours(0, Side::Up, &table, &mut memo), 0xff0);
    assert_eq!(memo.up.get(&0b1_0001), Some(&0xff0));
    assert_eq!(memo.up.len(), 1);
    assert!(memo.down.is_empty());
    // What has been worked out is looked up the next time.
    assert_eq!(open.neighbours(0, Side::Up, &table, &mut memo), 0xff0);
    assert_eq!(memo.up.len(), 1);
    assert_eq!(open.neighbours(1, Side::Up, &table, &mut memo), 0x0f0);
    assert_eq!(open.neighbours(0, Side::Down, &table, &mut memo), 0x00f);
    assert_eq!(open.neighbours(2, Side::Down, &table, &mut memo), 0);
    assert_eq!(open.neighbours(0, Side::North, &table, &mut memo), 0);
    let mut tiles = [0usize; 16];
    tiles[3] = 5;
    let closed = Column::Collapsed { tiles };
    assert_eq!(closed.neighbours(3, Side::Up, &table, &mut memo), 0xf00);
    assert_eq!(closed.neighbours(3, Side::Down, &table, &mut memo), 0x00f);
    assert_eq!(closed.neighbours(0, Side::Up, &table, &mut memo), 0x0f0);
}
