use rand::{Rng, SeedableRng};
use rand_xoshiro::Xoshiro128PlusPlus;
use std::collections::VecDeque;
use terragen::bits::full_below;
use terragen::column::{Cell, Coord};
use terragen::compat::{aggregate, build_table};
use terragen::model::{Pending, SpawnRequest, PROPAGATION_BUDGET};
use terragen::terrain::{reachable, Terrain, TerrainError};
use terragen::tiles::{MeshHandle, Neighbour, Side, Tile, TileSet};

const HORIZONTAL: [Side; 4] = [Side::North, Side::East, Side::South, Side::West];

fn face(id: usize, side: Side) -> Neighbour {
    Neighbour { id, side }
}

/// Every horizontal face of tile `a` may touch every horizontal face of tile `b`.
fn all_horizontal(rules: &mut Vec<[Neighbour; 2]>, a: usize, b: usize) {
    for p in HORIZONTAL {
        for q in HORIZONTAL {
            rules.push([face(a, p), face(b, q)]);
        }
    }
}

fn stack(rules: &mut Vec<[Neighbour; 2]>, lower: usize, upper: usize) {
    rules.push([face(lower, Side::Up), face(upper, Side::Down)]);
}

fn meshes(count: usize) -> Vec<Tile> {
    (0..count).map(|id| Tile { mesh: Some(MeshHandle(100 + id as u64)) }).collect()
}

fn catalogue(tiles: Vec<Tile>, rules: Vec<[Neighbour; 2]>) -> TileSet {
    TileSet { tiles: tiles.into(), neighbours: rules.into() }
}

/// The rules of one tile that fits itself on every side in every rotation.
fn one_tile_rules() -> Vec<[Neighbour; 2]> {
    let mut rules = Vec::new();
    all_horizontal(&mut rules, 0, 0);
    stack(&mut rules, 0, 0);
    rules
}

/// One tile that fits itself on every side in every rotation.
fn one_tile() -> TileSet {
    catalogue(meshes(1), one_tile_rules())
}

/// Two tiles that stand on one another freely and next to their own kind only.
fn two_kinds() -> TileSet {
    let mut rules = Vec::new();
    all_horizontal(&mut rules, 0, 0);
    all_horizontal(&mut rules, 1, 1);
    for lower in 0..2 {
        for upper in 0..2 {
            stack(&mut rules, lower, upper);
        }
    }
    catalogue(meshes(2), rules)
}

/// Two tiles of which tile 0 takes tile 1 on its east face only, itself on
/// its west face only, and has its north face against its own south face:
/// tile 1 never fits the north face of tile 0.
fn quarrel() -> TileSet {
    let mut rules = Vec::new();
    for q in HORIZONTAL {
        rules.push([face(0, Side::East), face(1, q)]);
    }
    rules.push([face(0, Side::West), face(0, Side::West)]);
    rules.push([face(0, Side::North), face(0, Side::South)]);
    for lower in 0..2 {
        for upper in 0..2 {
            stack(&mut rules, lower, upper);
        }
    }
    catalogue(meshes(2), rules)
}

/// Two tiles that stand next to one another freely, and on the other kind
/// only.
fn layers() -> TileSet {
    let mut rules = Vec::new();
    for a in 0..2 {
        for b in a..2 {
            all_horizontal(&mut rules, a, b);
        }
    }
    stack(&mut rules, 0, 1);
    stack(&mut rules, 1, 0);
    catalogue(meshes(2), rules)
}

fn square(radius: isize) -> Vec<Coord> {
    let mut cols = Vec::new();
    for x in -radius..=radius {
        for y in -radius..=radius {
            cols.push(Coord { x, y });
        }
    }
    cols
}

fn ids(terrain: &mut Terrain, col: Coord) -> Vec<usize> {
    (0..16)
        .map(|floor| match terrain.cell(col, floor) {
            Cell::Collapsed { tile } => tile,
            Cell::Superposition { .. } => panic!("open cell at {:?} floor {}", col, floor),
        })
        .collect()
}

fn cells(terrain: &mut Terrain, cols: &[Coord]) -> Vec<Cell> {
    let mut all = Vec::new();
    for col in cols {
        for floor in 0..16 {
            all.push(terrain.cell(*col, floor));
        }
    }
    all
}

fn extent() -> Coord {
    Coord { x: 4, y: 4 }
}

#[test]
fn single_tile_fills_three_by_three() {
    let mut terrain = Terrain::new(one_tile(), 0, extent(), 1).unwrap();
    let cols = square(1);
    assert_eq!(cols.len(), 9);
    let mut out: Vec<SpawnRequest> = Vec::new();
    terrain.spawn_around(&cols, &mut out);
    assert_eq!(out.len(), 9 * 16);
    for col in &cols {
        let tiles = ids(&mut terrain, *col);
        for (floor, id) in tiles.iter().enumerate() {
            assert_eq!(id / 4, 0);
            let asked: Vec<&SpawnRequest> =
                out.iter().filter(|r| r.col == *col && r.floor == floor).collect();
            assert_eq!(asked.len(), 1);
            assert_eq!(asked[0].tile, 0);
            assert_eq!(asked[0].rotation, id % 4);
            assert_eq!(asked[0].mesh, MeshHandle(100));
        }
    }
}

#[test]
fn requests_come_column_by_column_from_the_ground_up() {
    let mut terrain = Terrain::new(one_tile(), 0, extent(), 3).unwrap();
    let cols = vec![Coord { x: 7, y: -2 }];
    let mut out = vec![SpawnRequest {
        col: Coord { x: 0, y: 0 },
        floor: 0,
        tile: 0,
        rotation: 0,
        mesh: MeshHandle(1),
    }];
    terrain.spawn_around(&cols, &mut out);
    assert_eq!(out.len(), 17);
    assert_eq!(out[0].mesh, MeshHandle(1));
    for floor in 0..16 {
        assert_eq!(out[1 + floor].col, Coord { x: 7, y: -2 });
        assert_eq!(out[1 + floor].floor, floor);
    }
}

#[test]
fn the_draws_are_those_of_the_seeded_generator() {
    // With one tile nothing constrains a floor, so each floor of the first
    // column takes the rotation that the next draw below four picks.
    for seed in [0u64, 1, 42, u64::MAX] {
        let mut terrain = Terrain::new(one_tile(), 0, extent(), seed).unwrap();
        let col = Coord { x: 0, y: 0 };
        let mut out = Vec::new();
        terrain.spawn_around(&vec![col], &mut out);
        let mut rng = Xoshiro128PlusPlus::seed_from_u64(seed);
        let expected: Vec<usize> = (0..16).map(|_| rng.gen_range(0..4u64) as usize).collect();
        assert_eq!(ids(&mut terrain, col), expected);
    }
}

#[test]
fn tiles_without_a_mesh_ask_for_nothing() {
    let set = catalogue(vec![Tile { mesh: None }], one_tile_rules());
    let mut terrain = Terrain::new(set, 0, extent(), 1).unwrap();
    let cols = square(1);
    let mut out = Vec::new();
    terrain.spawn_around(&cols, &mut out);
    assert!(out.is_empty());
    for col in &cols {
        assert_eq!(ids(&mut terrain, *col).len(), 16);
    }
}

#[test]
fn contradiction_at_a_chunk_boundary_takes_the_problem_tile() {
    let problem = 5;
    let mut terrain = Terrain::new(quarrel(), problem, extent(), 9).unwrap();
    // Closing fresh columns gives each floor the least id: tile 0 unturned.
    let west = Coord { x: 3, y: 0 };
    let east = Coord { x: 5, y: 0 };
    let mut out = Vec::new();
    terrain.spawn_column(west, &mut out);
    terrain.spawn_column(east, &mut out);
    assert_eq!(ids(&mut terrain, west), vec![0; 16]);
    assert_eq!(ids(&mut terrain, east), vec![0; 16]);
    assert_eq!(out.len(), 32);
    // The column between them, the first of the next chunk, can take no
    // tile: tile 0 wants tile 1 to its east and itself, turned round, to its
    // west.
    let middle = Coord { x: 4, y: 0 };
    let mut queue = VecDeque::new();
    queue.push_back(Pending { col: middle, floor: 3 });
    let steps = terrain.propagate(&mut queue);
    assert!(steps >= 1);
    assert_eq!(terrain.cell(middle, 3), Cell::Superposition { bits: 1 << problem });
    terrain.spawn_around(&vec![middle], &mut out);
    let tiles = ids(&mut terrain, middle);
    assert_eq!(tiles[0], problem);
    assert_eq!(tiles[1], problem);
    assert_eq!(tiles[3], problem);
    for id in tiles {
        assert!(id < 8);
    }
    assert_eq!(ids(&mut terrain, west), vec![0; 16]);
    assert_eq!(ids(&mut terrain, east), vec![0; 16]);
}

fn run(seed: u64) -> (Vec<Cell>, Vec<SpawnRequest>) {
    let mut terrain = Terrain::new(two_kinds(), 0, extent(), seed).unwrap();
    let mut out = Vec::new();
    terrain.spawn_around(&square(1), &mut out);
    terrain.spawn_around(&square(2), &mut out);
    terrain.spawn_around(&vec![Coord { x: 40, y: -17 }], &mut out);
    let mut watched = square(3);
    watched.push(Coord { x: 40, y: -17 });
    (cells(&mut terrain, &watched), out)
}

#[test]
fn same_seed_same_world() {
    let (first_cells, first_out) = run(42);
    let (second_cells, second_out) = run(42);
    assert_eq!(first_cells, second_cells);
    assert_eq!(first_out, second_out);
}

#[test]
fn other_seed_other_world() {
    let (first_cells, _) = run(42);
    let (second_cells, _) = run(43);
    assert_ne!(first_cells, second_cells);
}

#[test]
fn forty_tiles_are_too_many() {
    let set = catalogue(vec![Tile { mesh: None }; 40], Vec::new());
    match Terrain::new(set, 0, extent(), 0) {
        Err(error) => assert_eq!(error, TerrainError::Capacity),
        Ok(_) => panic!("built"),
    }
}

fn error_of(set: TileSet, problem: usize, chunk: Coord) -> Option<TerrainError> {
    Terrain::new(set, problem, chunk, 0).err()
}

#[test]
fn construction_errors() {
    assert_eq!(error_of(one_tile(), 0, Coord { x: 0, y: 4 }), Some(TerrainError::ChunkExtent));
    assert_eq!(error_of(one_tile(), 0, Coord { x: 4, y: -1 }), Some(TerrainError::ChunkExtent));
    assert_eq!(
        error_of(one_tile(), 0, Coord { x: isize::MAX, y: 2 }),
        Some(TerrainError::ChunkExtent)
    );
    // The size of a chunk is looked at first, the number of tiles next.
    let many = catalogue(vec![Tile { mesh: None }; 33], Vec::new());
    assert_eq!(error_of(many.clone(), 0, Coord { x: 0, y: 0 }), Some(TerrainError::ChunkExtent));
    assert_eq!(error_of(many, 0, extent()), Some(TerrainError::Capacity));
    assert_eq!(error_of(one_tile(), 4, extent()), Some(TerrainError::ProblemTile));
    assert_eq!(error_of(one_tile(), 3, extent()), None);
    let none = catalogue(Vec::new(), Vec::new());
    assert_eq!(error_of(none, 0, extent()), Some(TerrainError::ProblemTile));
    let mut mixed = one_tile_rules();
    mixed.push([face(0, Side::Up), face(0, Side::East)]);
    assert_eq!(error_of(catalogue(meshes(1), mixed), 0, extent()), Some(TerrainError::Adjacency));
    let mut unknown = one_tile_rules();
    unknown.push([face(0, Side::North), face(1, Side::East)]);
    assert_eq!(error_of(catalogue(meshes(1), unknown), 0, extent()), Some(TerrainError::Adjacency));
    // Without a rule for upper and lower faces nothing can stand on anything.
    let mut flat = one_tile_rules();
    flat.pop();
    assert_eq!(error_of(catalogue(meshes(1), flat), 0, extent()), Some(TerrainError::Inconsistent));
    // A face that no rule names can touch nothing.
    let mut rules = Vec::new();
    stack(&mut rules, 0, 0);
    rules.push([face(0, Side::North), face(0, Side::South)]);
    let lonely = catalogue(meshes(1), rules);
    assert_eq!(error_of(lonely, 0, extent()), Some(TerrainError::Inconsistent));
}

#[test]
fn thirty_two_tiles_fill_the_set() {
    let mut rules = Vec::new();
    for id in 0..32 {
        all_horizontal(&mut rules, id, id);
        stack(&mut rules, id, id);
    }
    let set = catalogue(meshes(32), rules);
    let mut terrain = Terrain::new(set, 127, extent(), 5).unwrap();
    assert_eq!(terrain.cell(Coord { x: 0, y: 0 }, 0), Cell::Superposition { bits: u128::MAX });
    assert_eq!(terrain.column_order(Coord { x: 0, y: 0 }), Some(16 * 128));
    let mut out = Vec::new();
    terrain.spawn_around(&square(1), &mut out);
    assert_eq!(out.len(), 9 * 16);
    for request in &out {
        assert!(request.tile < 32);
        assert!(request.rotation < 4);
        assert_eq!(request.mesh, MeshHandle(100 + request.tile as u64));
    }
}

#[test]
fn second_visit_resolves_nothing() {
    let mut terrain = Terrain::new(two_kinds(), 0, extent(), 11).unwrap();
    let cols = square(2);
    let mut first = Vec::new();
    terrain.spawn_around(&cols, &mut first);
    assert_eq!(first.len(), 25 * 16);
    let before = cells(&mut terrain, &square(4));
    let mut second = Vec::new();
    terrain.spawn_around(&cols, &mut second);
    assert!(second.is_empty());
    assert_eq!(cells(&mut terrain, &square(4)), before);
    let mut third = Vec::new();
    terrain.spawn_around(&cols, &mut third);
    assert_eq!(third, second);
    assert_eq!(cells(&mut terrain, &square(4)), before);
    for col in &cols {
        assert_eq!(terrain.column_order(*col), None);
    }
}

#[test]
fn closed_cells_stay_as_they_are() {
    let mut terrain = Terrain::new(two_kinds(), 0, extent(), 77).unwrap();
    let mut out = Vec::new();
    terrain.spawn_around(&square(1), &mut out);
    let inner = cells(&mut terrain, &square(1));
    for cell in &inner {
        assert!(matches!(cell, Cell::Collapsed { .. }));
    }
    terrain.spawn_around(&square(3), &mut out);
    assert_eq!(cells(&mut terrain, &square(1)), inner);
    terrain.collapse_column(Coord { x: 0, y: 0 });
    terrain.spawn_column(Coord { x: 1, y: 1 }, &mut out);
    let mut queue = VecDeque::new();
    for floor in 0..16 {
        queue.push_back(Pending { col: Coord { x: 0, y: 0 }, floor });
        queue.push_back(Pending { col: Coord { x: 2, y: 2 }, floor });
    }
    terrain.propagate(&mut queue);
    assert_eq!(cells(&mut terrain, &square(1)), inner);
}

#[test]
fn less_left_to_decide_goes_first() {
    let mut terrain = Terrain::new(two_kinds(), 0, extent(), 5).unwrap();
    let mut out = Vec::new();
    let middle = Coord { x: 0, y: 0 };
    terrain.spawn_around(&vec![middle], &mut out);
    out.clear();
    // The neighbour of the closed column has lost the other kind on every
    // floor; a column far away has lost nothing.
    let near = Coord { x: 1, y: 0 };
    let far = Coord { x: 500, y: 500 };
    let near_order = terrain.column_order(near).unwrap();
    let far_order = terrain.column_order(far).unwrap();
    assert_eq!(far_order, 16 * 8);
    assert!(near_order < far_order);
    terrain.spawn_around(&vec![far, middle, near, far], &mut out);
    assert_eq!(out.len(), 32);
    for floor in 0..16 {
        assert_eq!(out[floor].col, near);
        assert_eq!(out[16 + floor].col, far);
    }
}

#[test]
fn equal_columns_keep_the_order_of_the_candidates() {
    let mut terrain = Terrain::new(one_tile(), 0, extent(), 5).unwrap();
    let mut out = Vec::new();
    let cols = vec![Coord { x: 300, y: 0 }, Coord { x: 100, y: 0 }, Coord { x: 200, y: 0 }];
    terrain.spawn_around(&cols, &mut out);
    assert_eq!(out.len(), 48);
    for (k, col) in cols.iter().enumerate() {
        assert_eq!(out[16 * k].col, *col);
    }
}

#[test]
fn propagation_stops_within_its_budget() {
    let mut terrain = Terrain::new(two_kinds(), 0, extent(), 5).unwrap();
    let mut queue = VecDeque::new();
    assert_eq!(terrain.propagate(&mut queue), 0);
    // With nothing decided, no cell changes: each entry is taken and that is
    // all.
    for k in 0..10 {
        queue.push_back(Pending { col: Coord { x: k, y: 0 }, floor: 0 });
    }
    assert_eq!(terrain.propagate(&mut queue), 10);
    assert!(queue.is_empty());
    for k in 0..1500 {
        queue.push_back(Pending { col: Coord { x: k, y: 0 }, floor: 0 });
    }
    let steps = terrain.propagate(&mut queue);
    assert_eq!(steps, PROPAGATION_BUDGET - 1);
    assert_eq!(queue.len(), 1500 - steps);
    assert_eq!(queue[0], Pending { col: Coord { x: 999, y: 0 }, floor: 0 });
}

#[test]
fn propagation_narrows_the_neighbours_of_a_choice() {
    let mut terrain = Terrain::new(two_kinds(), 0, extent(), 8).unwrap();
    let col = Coord { x: 0, y: 0 };
    terrain.collapse_column(col);
    // The ground floor is chosen first, with nothing waiting: its kind goes
    // round to the columns next to it, and comes back to it as the four
    // rotations of that kind.
    let ground = match terrain.cell(col, 0) {
        Cell::Superposition { bits } => bits,
        Cell::Collapsed { .. } => panic!("closed"),
    };
    assert!(ground == 0x0f || ground == 0xf0);
    for near in [Coord { x: 1, y: 0 }, Coord { x: -1, y: 0 }, Coord { x: 0, y: 1 }, Coord { x: 0, y: -1 }] {
        assert_eq!(terrain.cell(near, 0), Cell::Superposition { bits: ground });
    }
    // The column stays open, and no floor is left without a candidate.
    for floor in 0..16 {
        match terrain.cell(col, floor) {
            Cell::Superposition { bits } => {
                assert!(bits != 0);
                assert_eq!(bits & !0xff, 0);
            }
            Cell::Collapsed { .. } => panic!("closed"),
        }
    }
}

#[test]
fn fresh_columns_hold_every_id() {
    let mut terrain = Terrain::new(two_kinds(), 0, extent(), 8).unwrap();
    for col in [Coord { x: 0, y: 0 }, Coord { x: -1, y: -1 }, Coord { x: isize::MAX, y: isize::MIN }] {
        for floor in [0, 7, 15] {
            assert_eq!(terrain.cell(col, floor), Cell::Superposition { bits: 0xff });
        }
        assert_eq!(terrain.column_order(col), Some(16 * 8));
    }
}

#[test]
fn columns_of_one_chunk_are_told_apart() {
    let mut terrain = Terrain::new(one_tile(), 0, Coord { x: 3, y: 2 }, 8).unwrap();
    let mut out = Vec::new();
    let closed = Coord { x: -1, y: -1 };
    terrain.spawn_column(closed, &mut out);
    for x in -7..7 {
        for y in -5..5 {
            let col = Coord { x, y };
            let order = terrain.column_order(col);
            if col == closed {
                assert_eq!(order, None);
            } else {
                assert_eq!(order, Some(16 * 4));
            }
        }
    }
}

#[test]
fn reach_of_the_grid() {
    assert!(reachable(Coord { x: 0, y: 0 }));
    assert!(reachable(Coord { x: 1_000_000_000, y: -1_000_000_000 }));
    assert!(reachable(Coord { x: isize::MAX - 16_016, y: 16_016 - isize::MAX }));
    assert!(!reachable(Coord { x: isize::MAX - 16_015, y: 0 }));
    assert!(!reachable(Coord { x: 0, y: isize::MIN }));
    let mut terrain = Terrain::new(one_tile(), 0, extent(), 8).unwrap();
    let edge = Coord { x: isize::MAX - 16_016, y: 16_016 - isize::MAX };
    let mut out = Vec::new();
    terrain.spawn_around(&vec![edge], &mut out);
    assert_eq!(out.len(), 16);
}

#[test]
fn layers_alternate_up_the_column() {
    for seed in 0..8 {
        let mut terrain = Terrain::new(layers(), 0, extent(), seed).unwrap();
        let col = Coord { x: -9, y: 4 };
        terrain.collapse_column(col);
        // The choice on the ground floor goes up the column: every floor above
        // is left with the four rotations of the kind that may stand there
        // before its own turn comes, and with one of them after it.
        let ground = match terrain.cell(col, 0) {
            Cell::Superposition { bits } => bits,
            Cell::Collapsed { .. } => panic!("closed"),
        };
        assert!(ground == 0x0f || ground == 0xf0);
        for floor in 1..16 {
            let kind = if floor % 2 == 0 { ground } else { 0xff ^ ground };
            match terrain.cell(col, floor) {
                Cell::Superposition { bits } => {
                    assert_eq!(bits.count_ones(), 1);
                    assert_eq!(bits & kind, bits);
                }
                Cell::Collapsed { .. } => panic!("closed"),
            }
        }
        // The columns around it are not narrowed: either kind may stand there.
        assert_eq!(terrain.cell(Coord { x: -8, y: 4 }, 0), Cell::Superposition { bits: 0xff });
        let mut out = Vec::new();
        terrain.spawn_column(col, &mut out);
        let tiles = ids(&mut terrain, col);
        assert_eq!(tiles[0] % 4, 0);
        for floor in 0..16 {
            assert_eq!(tiles[floor] / 4, (tiles[0] / 4 + floor) % 2);
            assert_eq!(out[floor].tile, tiles[floor] / 4);
            assert_eq!(out[floor].rotation, tiles[floor] % 4);
        }
    }
}

#[test]
fn collapse_cell_takes_the_candidate_with_the_number() {
    let mut terrain = Terrain::new(one_tile(), 0, extent(), 0).unwrap();
    let col = Coord { x: 2, y: 2 };
    let mut queue = VecDeque::new();
    // One tile lets everything stand: the choice narrows nothing around it
    // and stays as it is. The cell above and the four cells around are taken
    // from the list, and that is all.
    let steps = terrain.collapse_cell(Pending { col, floor: 6 }, 2, &mut queue);
    assert_eq!(steps, 5);
    assert!(queue.is_empty());
    assert_eq!(terrain.cell(col, 6), Cell::Superposition { bits: 0b0100 });
    assert_eq!(terrain.cell(col, 5), Cell::Superposition { bits: 0b1111 });
    assert_eq!(terrain.cell(col, 7), Cell::Superposition { bits: 0b1111 });
    // The top floor has no cell above it.
    assert_eq!(terrain.collapse_cell(Pending { col, floor: 15 }, 0, &mut queue), 4);
    assert_eq!(terrain.cell(col, 15), Cell::Superposition { bits: 0b0001 });
    // A cell with one candidate has no second one.
    assert_eq!(terrain.collapse_cell(Pending { col, floor: 6 }, 1, &mut queue), 0);
    assert_eq!(terrain.cell(col, 6), Cell::Superposition { bits: 0b0100 });
    assert_eq!(terrain.collapse_cell(Pending { col, floor: 0 }, 4, &mut queue), 0);
    assert_eq!(terrain.cell(col, 0), Cell::Superposition { bits: 0b1111 });
    // A closed column is left alone.
    let mut out = Vec::new();
    terrain.spawn_column(col, &mut out);
    assert_eq!(terrain.collapse_cell(Pending { col, floor: 3 }, 0, &mut queue), 0);
    assert_eq!(ids(&mut terrain, col), vec![0, 0, 0, 0, 0, 0, 2, 0, 0, 0, 0, 0, 0, 0, 0, 0]);
}

#[test]
fn collapse_cell_spreads_the_choice() {
    let mut terrain = Terrain::new(two_kinds(), 0, extent(), 0).unwrap();
    let col = Coord { x: 0, y: 0 };
    let mut queue = VecDeque::new();
    let steps = terrain.collapse_cell(Pending { col, floor: 0 }, 5, &mut queue);
    assert_eq!(steps, PROPAGATION_BUDGET - 1);
    assert!(!queue.is_empty());
    // The sixth candidate is a rotation of tile 1: its kind goes round, and
    // comes back to the cell as all four rotations of the kind.
    assert_eq!(terrain.cell(col, 0), Cell::Superposition { bits: 0xf0 });
    for near in [Coord { x: 1, y: 0 }, Coord { x: 0, y: -1 }, Coord { x: 3, y: 2 }] {
        assert_eq!(terrain.cell(near, 0), Cell::Superposition { bits: 0xf0 });
    }
    // Either kind stands on either: the floor above is not narrowed.
    assert_eq!(terrain.cell(col, 1), Cell::Superposition { bits: 0xff });
    assert_eq!(terrain.cell(Coord { x: 400, y: 0 }, 0), Cell::Superposition { bits: 0xff });
}

#[test]
fn chunks_come_into_being_where_columns_are_asked_for() {
    let mut terrain = Terrain::new(one_tile(), 0, extent(), 0).unwrap();
    let chunks = square(2);
    for chunk in &chunks {
        assert!(!terrain.has_chunk(*chunk));
    }
    // Looking at a column brings its chunk, and that chunk only.
    terrain.cell(Coord { x: 5, y: -1 }, 0);
    for chunk in &chunks {
        assert_eq!(terrain.has_chunk(*chunk), *chunk == Coord { x: 1, y: -1 });
    }
    terrain.column_order(Coord { x: -4, y: 7 });
    let mut out = Vec::new();
    terrain.spawn_column(Coord { x: -5, y: 8 }, &mut out);
    for chunk in &chunks {
        let there = [Coord { x: 1, y: -1 }, Coord { x: -1, y: 1 }, Coord { x: -2, y: 2 }].contains(chunk);
        assert_eq!(terrain.has_chunk(*chunk), there);
    }
    // Working out a cell again asks for its column and the four around it.
    let mut terrain = Terrain::new(one_tile(), 0, extent(), 0).unwrap();
    let mut queue = VecDeque::new();
    queue.push_back(Pending { col: Coord { x: 0, y: 0 }, floor: 0 });
    assert_eq!(terrain.propagate(&mut queue), 1);
    for chunk in &chunks {
        let there = [(0, 0), (-1, 0), (0, -1)].contains(&(chunk.x, chunk.y));
        assert_eq!(terrain.has_chunk(*chunk), there);
    }
    // A closed column is not looked round.
    let mut terrain = Terrain::new(one_tile(), 0, extent(), 0).unwrap();
    terrain.spawn_column(Coord { x: 0, y: 0 }, &mut out);
    queue.push_back(Pending { col: Coord { x: 0, y: 0 }, floor: 0 });
    assert_eq!(terrain.propagate(&mut queue), 1);
    for chunk in &chunks {
        assert_eq!(terrain.has_chunk(*chunk), *chunk == Coord { x: 0, y: 0 });
    }
    // A visit asks for the chunks of its candidates, open or closed.
    terrain.spawn_around(&vec![Coord { x: 0, y: 0 }, Coord { x: 9, y: 9 }], &mut out);
    assert!(terrain.has_chunk(Coord { x: 2, y: 2 }));
    assert!(terrain.has_chunk(Coord { x: 0, y: 0 }));
    assert!(!terrain.has_chunk(Coord { x: -2, y: -2 }));
}

#[test]
fn every_id_has_a_place_in_every_direction() {
    let sides = [Side::North, Side::East, Side::South, Side::West, Side::Up, Side::Down];
    for set in [one_tile(), two_kinds(), layers(), quarrel()] {
        let count = set.tiles.len();
        assert!(Terrain::new(set.clone(), 0, extent(), 0).is_ok());
        let table = build_table(count, &set.neighbours).unwrap();
        let any = full_below(4 * count);
        for side in sides {
            assert_eq!(aggregate(&table, any, side), any);
        }
    }
    // Where a terrain cannot be made, some direction leaves some id out.
    let mut rules = one_tile_rules();
    rules.pop();
    let table = build_table(1, &rules).unwrap();
    assert_eq!(aggregate(&table, 0b1111, Side::North), 0b1111);
    assert_eq!(aggregate(&table, 0b1111, Side::Up), 0);
    assert_eq!(aggregate(&table, 0b1111, Side::Down), 0);
}
