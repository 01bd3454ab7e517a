use game_tree_search::flower_skud::outcome::{finish_ring, ring_contains_center, wins_by_ring};
use game_tree_search::flower_skud::{
    all_possibilities_for_piece_to_move, correct_garden, flood_fill, Board, Direction, FlowerTile,
    Grid, Move, Owner, Position, Tile,
};
use game_tree_search::monte_carlo_tree_search::{
    create_root_node, engine, GameState, Mode, Output, Player,
};

fn at(x: i8, y: i8) -> Position {
    Position::new(x, y).unwrap()
}

fn flower(kind: FlowerTile) -> Tile {
    Tile::Flower(kind)
}

const KINDS: [FlowerTile; 6] = [
    FlowerTile::Rose,
    FlowerTile::Chrysanthemum,
    FlowerTile::Rhododendron,
    FlowerTile::Jasmine,
    FlowerTile::Lily,
    FlowerTile::WhiteJade,
];

/// The board after both opening moves: each player has planted a rose.
fn opened() -> Board {
    let mut board = Board::empty();
    board.apply_move(Move::Planting(FlowerTile::Rose, at(0, -8)));
    board.apply_move(Move::Planting(FlowerTile::Rose, at(0, 8)));
    board
}

#[test]
fn positions_lie_on_the_board() {
    assert!(Position::new(0, 0).is_some());
    assert!(Position::new(8, 0).is_some());
    assert!(Position::new(8, 4).is_some());
    assert!(Position::new(-8, -4).is_some());
    assert!(Position::new(6, 6).is_some());
    assert!(Position::new(8, 5).is_none());
    assert!(Position::new(7, 6).is_none());
    assert!(Position::new(9, 0).is_none());
    assert!(Position::new(0, -9).is_none());
    assert!(Position::new(-128, 0).is_none());
    assert!(Position::new(127, 127).is_none());
    assert_eq!(at(3, -5).value(), (3, -5));
    assert!(!Position::out_of_bound(8, 4));
    assert!(Position::out_of_bound(8, 5));
    assert!(Position::out_of_bound(-9, 0));
}

#[test]
fn gates_are_the_four_ends_of_the_midlines() {
    assert!(at(8, 0).is_gate());
    assert!(at(-8, 0).is_gate());
    assert!(at(0, 8).is_gate());
    assert!(at(0, -8).is_gate());
    assert!(!at(0, 0).is_gate());
    assert!(!at(8, 1).is_gate());
    assert!(!at(0, 7).is_gate());
    let gates = Position::gates();
    assert_eq!(gates, [at(8, 0), at(-8, 0), at(0, 8), at(0, -8)]);
}

#[test]
fn add_steps_to_the_neighbour() {
    assert_eq!(at(0, 0).add(Direction::Up), Some(at(0, 1)));
    assert_eq!(at(0, 0).add(Direction::Down), Some(at(0, -1)));
    assert_eq!(at(0, 0).add(Direction::Left), Some(at(-1, 0)));
    assert_eq!(at(0, 0).add(Direction::Right), Some(at(1, 0)));
    assert_eq!(at(8, 0).add(Direction::Right), None);
    assert_eq!(at(8, 4).add(Direction::Up), None);
    assert_eq!(at(0, -8).add(Direction::Down), None);
    assert_eq!(
        Direction::ALL,
        [Direction::Up, Direction::Down, Direction::Left, Direction::Right]
    );
}

#[test]
fn opposite_flowers_clash() {
    for (i, a) in KINDS.iter().enumerate() {
        for (j, b) in KINDS.iter().enumerate() {
            let expected = (i + 3) % 6 == j;
            assert_eq!(flower(*a).clashes(&flower(*b)), expected);
        }
    }
    assert!(flower(FlowerTile::Rose).clashes(&flower(FlowerTile::Jasmine)));
    assert!(!flower(FlowerTile::Rose).clashes(&flower(FlowerTile::Rose)));
}

#[test]
fn neighbouring_flowers_harmonize() {
    for (i, a) in KINDS.iter().enumerate() {
        for (j, b) in KINDS.iter().enumerate() {
            let expected = (i + 1) % 6 == j || (j + 1) % 6 == i;
            assert_eq!(flower(*a).harmonizes(&flower(*b)), expected);
        }
    }
    assert!(flower(FlowerTile::Rose).harmonizes(&flower(FlowerTile::WhiteJade)));
    assert!(!flower(FlowerTile::Rose).harmonizes(&flower(FlowerTile::Rhododendron)));
}

#[test]
fn gardens_suit_the_colour() {
    let red = flower(FlowerTile::Rose);
    let white = flower(FlowerTile::Jasmine);
    assert!(correct_garden(at(1, 1), red));
    assert!(correct_garden(at(-2, -3), red));
    assert!(!correct_garden(at(-1, 1), red));
    assert!(!correct_garden(at(2, -4), red));
    assert!(!correct_garden(at(1, 1), white));
    assert!(correct_garden(at(-1, 1), white));
    assert!(correct_garden(at(0, 3), red));
    assert!(correct_garden(at(0, 3), white));
    assert!(correct_garden(at(0, 0), white));
    // Outside the inner part any colour may rest.
    assert!(correct_garden(at(-4, 4), red));
    assert!(correct_garden(at(4, 4), white));
    assert!(!correct_garden(at(0, 8), red));
    assert!(!correct_garden(at(-8, 0), white));
}

#[test]
fn empty_board_has_full_reserves() {
    let board = Board::empty();
    assert_eq!(board.move_count(), 0);
    assert_eq!(board.moves_since_planting(), 0);
    assert!(board.guest_tiles().is_empty());
    assert!(board.host_tiles().is_empty());
    let full: Vec<(Tile, u8)> = KINDS.iter().map(|k| (flower(*k), 3)).collect();
    assert_eq!(*board.guest_reserve(), full);
    assert_eq!(*board.host_reserve(), full);
    assert_eq!(board.next_to_move(), Player::Guest);
}

#[test]
fn planting_takes_a_tile_from_the_reserve() {
    let mut board = Board::empty();
    board.apply_move(Move::Planting(FlowerTile::Lily, at(0, -8)));
    assert_eq!(board.move_count(), 1);
    assert_eq!(board.next_to_move(), Player::Host);
    assert_eq!(*board.guest_tiles(), vec![(flower(FlowerTile::Lily), at(0, -8))]);
    assert_eq!(board.guest_reserve()[4], (flower(FlowerTile::Lily), 2));
    assert_eq!(board.guest_reserve()[0], (flower(FlowerTile::Rose), 3));
    assert_eq!(board.host_reserve()[4], (flower(FlowerTile::Lily), 3));
    board.apply_move(Move::Planting(FlowerTile::Lily, at(0, 8)));
    assert_eq!(*board.host_tiles(), vec![(flower(FlowerTile::Lily), at(0, 8))]);
    assert_eq!(board.host_reserve()[4], (flower(FlowerTile::Lily), 2));
    assert_eq!(board.moves_since_planting(), 0);
    let mut copy = board.replica();
    copy.guest_add_tile(flower(FlowerTile::Rose), at(1, 1));
    copy.host_add_tile(flower(FlowerTile::Rose), at(2, 2));
    assert_eq!(copy.guest_tiles().len(), 2);
    assert_eq!(copy.host_tiles().len(), 2);
    assert_eq!(copy.guest_reserve()[0].1, 2);
    assert_eq!(copy.host_reserve()[0].1, 2);
    assert_eq!(board.guest_tiles().len(), 1);
}

#[test]
fn arranging_moves_the_first_tile_on_the_point() {
    let mut board = opened();
    board.apply_move(Move::Arranging(at(0, -8), at(0, -6)));
    assert_eq!(*board.guest_tiles(), vec![(flower(FlowerTile::Rose), at(0, -6))]);
    assert_eq!(board.moves_since_planting(), 1);
    assert_eq!(board.move_count(), 3);
    // The host has no tile on (5, 5): nothing moves.
    board.apply_move(Move::Arranging(at(5, 5), at(4, 4)));
    assert_eq!(*board.host_tiles(), vec![(flower(FlowerTile::Rose), at(0, 8))]);
    assert_eq!(board.moves_since_planting(), 2);
    assert_eq!(board.move_count(), 4);
}

#[test]
fn test_board_is_in_the_middle_of_a_game() {
    let board = Board::create_test();
    assert_eq!(board.move_count(), 10);
    assert_eq!(board.moves_since_planting(), 1);
    assert_eq!(
        *board.guest_tiles(),
        vec![
            (flower(FlowerTile::Chrysanthemum), at(0, -4)),
            (flower(FlowerTile::Rhododendron), at(7, -4)),
            (flower(FlowerTile::Rhododendron), at(-8, 0)),
        ]
    );
    assert_eq!(
        *board.host_tiles(),
        vec![
            (flower(FlowerTile::Chrysanthemum), at(2, 6)),
            (flower(FlowerTile::Rhododendron), at(-7, 4)),
            (flower(FlowerTile::Rhododendron), at(8, 0)),
        ]
    );
    assert_eq!(board.guest_reserve()[1].1, 2);
    assert_eq!(board.guest_reserve()[2].1, 1);
    assert_eq!(board.host_reserve()[1].1, 2);
    assert_eq!(board.host_reserve()[2].1, 1);
}

#[test]
fn grid_holds_the_tiles_of_the_board() {
    let board = Board::create_test();
    let grid = Grid::create(&board);
    assert_eq!(
        *grid.index(&at(0, -4)),
        Some((flower(FlowerTile::Chrysanthemum), Owner::Guest))
    );
    assert_eq!(
        *grid.index(&at(8, 0)),
        Some((flower(FlowerTile::Rhododendron), Owner::Host))
    );
    assert_eq!(*grid.index(&at(0, 0)), None);
    assert_eq!(*grid.index(&at(0, -8)), None);
    assert_eq!(grid.open_gates(), vec![at(0, 8), at(0, -8)]);
    let mut grid = grid;
    *grid.index_mut(&at(0, 0)) = Some((flower(FlowerTile::Lily), Owner::Host));
    assert_eq!(
        *grid.index(&at(0, 0)),
        Some((flower(FlowerTile::Lily), Owner::Host))
    );
    assert_eq!(*grid.index(&at(1, 0)), None);
    assert_eq!(*grid.index(&at(0, 1)), None);
}

#[test]
fn next_tile_is_the_first_on_the_way() {
    let board = Board::create_test();
    let grid = Grid::create(&board);
    assert_eq!(
        grid.next_tile_in_direction(&at(0, 0), Direction::Down),
        Some((flower(FlowerTile::Chrysanthemum), at(0, -4), Owner::Guest))
    );
    assert_eq!(
        grid.next_tile_in_direction(&at(0, -4), Direction::Right),
        Some((flower(FlowerTile::Rhododendron), at(7, -4), Owner::Guest))
    );
    assert_eq!(
        grid.next_tile_in_direction(&at(0, 0), Direction::Right),
        Some((flower(FlowerTile::Rhododendron), at(8, 0), Owner::Host))
    );
    assert_eq!(
        grid.next_tile_in_direction(&at(0, 0), Direction::Left),
        Some((flower(FlowerTile::Rhododendron), at(-8, 0), Owner::Guest))
    );
    assert_eq!(grid.next_tile_in_direction(&at(0, 0), Direction::Up), None);
    assert_eq!(grid.next_tile_in_direction(&at(7, -4), Direction::Right), None);
}

#[test]
fn harmonies_join_neighbours_of_one_owner() {
    let board = Board::create_test();
    let grid = Grid::create(&board);
    assert_eq!(
        grid.list_all_harmonies(),
        vec![(Owner::Guest, at(0, -4), at(7, -4))]
    );
    let mut list = Vec::new();
    grid.add_all_harmonies_column(-4, &mut list);
    assert_eq!(list, vec![(Owner::Guest, at(0, -4), at(7, -4))]);
    let mut list = Vec::new();
    grid.add_all_harmonies_row(-4, &mut list);
    assert!(list.is_empty());
    assert!(Grid::create(&Board::empty()).list_all_harmonies().is_empty());
}

#[test]
fn grid_move_brings_harmonies_up_to_date() {
    let board = Board::create_test();
    let mut grid = Grid::create(&board);
    let mut harmonies = grid.list_all_harmonies();
    grid.apply_move(
        Move::Arranging(at(7, -4), at(3, -4)),
        Player::Guest,
        &mut harmonies,
    );
    assert_eq!(*grid.index(&at(7, -4)), None);
    assert_eq!(
        *grid.index(&at(3, -4)),
        Some((flower(FlowerTile::Rhododendron), Owner::Guest))
    );
    assert_eq!(harmonies, vec![(Owner::Guest, at(3, -4), at(0, -4))]);
    // Moving the tile out of the row ends the harmony.
    grid.apply_move(
        Move::Arranging(at(3, -4), at(3, -3)),
        Player::Guest,
        &mut harmonies,
    );
    assert!(harmonies.is_empty());
    grid.apply_move(
        Move::Planting(FlowerTile::Rose, at(0, -8)),
        Player::Host,
        &mut harmonies,
    );
    assert_eq!(
        *grid.index(&at(0, -8)),
        Some((flower(FlowerTile::Rose), Owner::Host))
    );
    assert!(harmonies.is_empty());
}

#[test]
fn grid_move_finds_harmony_behind_the_tile() {
    // A guest rose stands between a guest chrysanthemum and a guest white
    // jade, which harmonize with it but not with each other; between two
    // guest tiles that harmonize, a tile that leaves opens their harmony.
    let mut board = Board::empty();
    board.guest_add_tile(flower(FlowerTile::Rose), at(-2, 2));
    board.guest_add_tile(flower(FlowerTile::Chrysanthemum), at(0, 2));
    board.guest_add_tile(flower(FlowerTile::Rhododendron), at(0, 5));
    board.guest_add_tile(flower(FlowerTile::Rose), at(3, 2));
    let mut grid = Grid::create(&board);
    let mut harmonies = grid.list_all_harmonies();
    assert_eq!(
        harmonies,
        vec![
            (Owner::Guest, at(0, 2), at(0, 5)),
            (Owner::Guest, at(-2, 2), at(0, 2)),
            (Owner::Guest, at(0, 2), at(3, 2)),
        ]
    );
    grid.apply_move(
        Move::Arranging(at(0, 2), at(0, 3)),
        Player::Guest,
        &mut harmonies,
    );
    // All three harmonies of the tile end. On its new point it harmonizes
    // with the rhododendron above it. The two roses it stood between do not
    // harmonize.
    assert_eq!(harmonies, vec![(Owner::Guest, at(0, 3), at(0, 5))]);
}

#[test]
fn flood_fill_reaches_free_points_in_range() {
    let grid = Grid::create(&Board::empty());
    let marks = flood_fill(&grid, flower(FlowerTile::Rose), &at(0, 0));
    let mut count = 0;
    for y in -8i32..=8 {
        for x in -8i32..=8 {
            let reached = marks[((x + 8) + (y + 8) * 17) as usize];
            assert_eq!(reached, x.abs() + y.abs() <= 3, "at {x} {y}");
            if reached {
                count += 1;
            }
        }
    }
    assert_eq!(count, 25);
    let marks = flood_fill(&grid, flower(FlowerTile::Lily), &at(0, 0));
    assert_eq!(marks.iter().filter(|m| **m).count(), 41);
    let marks = flood_fill(&grid, flower(FlowerTile::WhiteJade), &at(0, 0));
    assert_eq!(marks.iter().filter(|m| **m).count(), 61);
}

#[test]
fn flood_fill_stops_at_tiles_and_gates() {
    let board = opened();
    let grid = Grid::create(&board);
    let marks = flood_fill(&grid, flower(FlowerTile::Rose), &at(0, -8));
    let mut reached = Vec::new();
    for y in -8i32..=8 {
        for x in -8i32..=8 {
            if marks[((x + 8) + (y + 8) * 17) as usize] {
                reached.push((x, y));
            }
        }
    }
    assert_eq!(reached.len(), 15);
    assert!(!reached.contains(&(0, -8)));
    assert!(reached.contains(&(-3, -8)));
    assert!(reached.contains(&(0, -5)));
    assert!(!reached.contains(&(0, -4)));
    // A tile in the way: the rose on (0, -7) blocks the column, and the
    // way around it to (0, -6) is four steps long.
    let mut board = opened();
    board.guest_add_tile(flower(FlowerTile::Rose), at(0, -7));
    let grid = Grid::create(&board);
    let marks = flood_fill(&grid, flower(FlowerTile::Rose), &at(0, -8));
    assert!(!marks[(8 + 1 * 17) as usize]);
    assert!(marks[(9 + 0 * 17) as usize]);
    assert!(marks[(9 + 1 * 17) as usize]);
    assert!(!marks[(8 + 2 * 17) as usize]);
    assert!(marks[(9 + 2 * 17) as usize]);
}

#[test]
fn tile_moves_to_reachable_points() {
    let board = opened();
    let grid = Grid::create(&board);
    let moves =
        all_possibilities_for_piece_to_move(&board, &grid, flower(FlowerTile::Rose), at(0, -8));
    assert_eq!(moves.len(), 15);
    assert_eq!(moves[0], Move::Arranging(at(0, -8), at(-3, -8)));
    assert_eq!(moves[6], Move::Arranging(at(0, -8), at(-2, -7)));
    assert_eq!(moves[14], Move::Arranging(at(0, -8), at(0, -5)));
}

#[test]
fn clashing_tile_keeps_a_tile_from_its_line() {
    // A host jasmine on (0, -5) clashes with the guest rose: the rose may
    // not rest on the points of the column below it nor beside it in its
    // row, where the jasmine is the next tile.
    let mut board = opened();
    board.host_add_tile(flower(FlowerTile::Jasmine), at(0, -5));
    let grid = Grid::create(&board);
    let moves =
        all_possibilities_for_piece_to_move(&board, &grid, flower(FlowerTile::Rose), at(0, -8));
    let targets: Vec<Position> = moves
        .iter()
        .map(|m| match m {
            Move::Arranging(_, to) => *to,
            Move::Planting(_, _) => panic!("a planting among the arrangings"),
        })
        .collect();
    assert!(!targets.contains(&at(0, -7)));
    assert!(!targets.contains(&at(0, -6)));
    assert!(!targets.contains(&at(0, -5)));
    assert!(targets.contains(&at(1, -7)));
    assert!(targets.contains(&at(-1, -6)));
    assert_eq!(targets.len(), 12);
}

#[test]
fn first_moves_are_the_opening() {
    let board = Board::empty();
    let mut grid = Grid::create(&board);
    let moves = board.all_legal_moves(&mut grid);
    let expected: Vec<Move> = KINDS
        .iter()
        .map(|k| Move::Planting(*k, at(0, -8)))
        .collect();
    assert_eq!(moves, expected);
    for _ in 0..30 {
        let mv = board.get_random_move(&grid).unwrap();
        assert!(expected.contains(&mv));
    }
    let mut board = board;
    board.apply_move(Move::Planting(FlowerTile::Lily, at(0, -8)));
    let mut grid = Grid::create(&board);
    assert_eq!(
        board.all_legal_moves(&mut grid),
        vec![Move::Planting(FlowerTile::Lily, at(0, 8))]
    );
    assert_eq!(
        board.get_random_move(&grid),
        Some(Move::Planting(FlowerTile::Lily, at(0, 8)))
    );
}

#[test]
fn later_moves_arrange_or_plant() {
    let board = opened();
    let mut grid = Grid::create(&board);
    let moves = board.all_legal_moves(&mut grid);
    assert_eq!(moves.len(), 27);
    assert_eq!(moves[0], Move::Arranging(at(0, -8), at(-3, -8)));
    assert_eq!(moves[15], Move::Planting(FlowerTile::Rose, at(8, 0)));
    assert_eq!(moves[20], Move::Planting(FlowerTile::WhiteJade, at(8, 0)));
    assert_eq!(moves[21], Move::Planting(FlowerTile::Rose, at(-8, 0)));
    let mut plantings = 0;
    let mut arrangings = 0;
    for _ in 0..300 {
        match board.get_random_move(&grid) {
            Some(mv) => {
                assert!(moves.contains(&mv));
                match mv {
                    Move::Planting(_, _) => plantings += 1,
                    Move::Arranging(_, _) => arrangings += 1,
                }
            }
            None => panic!("a move can be found"),
        }
    }
    assert!(plantings > 0);
    assert!(arrangings > plantings);
}

#[test]
fn rings_contain_the_centre_or_not() {
    assert!(ring_contains_center(&vec![at(1, 1), at(-1, 1), at(-1, -1), at(1, -1)]));
    assert!(ring_contains_center(&vec![at(1, -1), at(1, 1), at(-1, 1), at(-1, -1)]));
    assert!(!ring_contains_center(&vec![at(1, 1), at(2, 1), at(2, 2), at(1, 2)]));
    assert!(!ring_contains_center(&vec![at(0, 0), at(1, 0), at(1, 1)]));
    assert!(!ring_contains_center(&vec![at(0, -2), at(0, 2), at(3, 2), at(3, -2)]));
    assert!(!ring_contains_center(&vec![at(-2, 0), at(2, 0), at(2, 3), at(-2, 3)]));
    assert!(!ring_contains_center(&vec![]));
}

#[test]
fn harmonies_close_rings() {
    let square = vec![
        (at(1, 1), at(-1, 1)),
        (at(-1, 1), at(-1, -1)),
        (at(-1, -1), at(1, -1)),
        (at(1, -1), at(1, 1)),
    ];
    assert!(wins_by_ring(square.clone()));
    let open = vec![
        (at(1, 1), at(-1, 1)),
        (at(-1, 1), at(-1, -1)),
        (at(-1, -1), at(1, -1)),
    ];
    assert!(!wins_by_ring(open.clone()));
    assert!(!wins_by_ring(Vec::new()));
    assert!(finish_ring(&open, &vec![at(1, -1), at(1, 1)]));
    assert!(!finish_ring(&open, &vec![at(5, 5), at(6, 5)]));
    let beside = vec![
        (at(1, 1), at(3, 1)),
        (at(3, 1), at(3, 3)),
        (at(3, 3), at(1, 3)),
        (at(1, 3), at(1, 1)),
    ];
    assert!(!wins_by_ring(beside));
}

#[test]
fn ring_decides_the_game() {
    let board = Board::empty();
    let ring = |owner: Owner| {
        vec![
            (owner, at(1, 1), at(-1, 1)),
            (owner, at(-1, 1), at(-1, -1)),
            (owner, at(-1, -1), at(1, -1)),
            (owner, at(1, -1), at(1, 1)),
        ]
    };
    assert_eq!(
        board.finished(ring(Owner::Guest), Player::Guest),
        Some(Output::Win)
    );
    assert_eq!(
        board.finished(ring(Owner::Guest), Player::Host),
        Some(Output::Loss)
    );
    assert_eq!(
        board.finished(ring(Owner::Host), Player::Host),
        Some(Output::Win)
    );
    assert_eq!(
        board.finished(ring(Owner::Host), Player::Guest),
        Some(Output::Loss)
    );
    let mut both = ring(Owner::Guest);
    both.extend(ring(Owner::Host));
    assert_eq!(board.finished(both.clone(), Player::Guest), Some(Output::Draw));
    assert_eq!(board.finished(both, Player::Host), Some(Output::Draw));
    assert_eq!(board.finished(Vec::new(), Player::Guest), None);
}

#[test]
fn empty_reserve_ends_the_game_by_count() {
    let mut board = Board::empty();
    for kind in KINDS {
        for round in 0..3 {
            board.apply_move(Move::Planting(kind, at(round, 0)));
            board.apply_move(Move::Planting(kind, at(round, 1)));
        }
    }
    assert_eq!(board.move_count(), 36);
    assert!(board.guest_reserve().iter().all(|(_, amount)| *amount == 0));
    assert!(board.host_reserve().iter().all(|(_, amount)| *amount == 0));
    assert_eq!(board.finished(Vec::new(), Player::Guest), Some(Output::Draw));
    let crossing = (Owner::Guest, at(2, 3), at(-2, 3));
    let level = (Owner::Host, at(2, 3), at(4, 3));
    assert_eq!(
        board.finished(vec![crossing, level], Player::Guest),
        Some(Output::Win)
    );
    assert_eq!(
        board.finished(vec![crossing, level], Player::Host),
        Some(Output::Loss)
    );
    let host_crossing = (Owner::Host, at(2, 3), at(2, -3));
    assert_eq!(
        board.finished(vec![crossing, host_crossing], Player::Host),
        Some(Output::Draw)
    );
    assert_eq!(
        board.finished(vec![host_crossing], Player::Host),
        Some(Output::Win)
    );
    assert_eq!(
        board.finished(vec![host_crossing], Player::Guest),
        Some(Output::Loss)
    );
}

#[test]
fn fifty_moves_without_planting_are_a_draw() {
    let mut board = opened();
    for _ in 0..49 {
        board.apply_move(Move::Arranging(at(5, 5), at(5, 6)));
    }
    assert_eq!(board.moves_since_planting(), 49);
    assert_eq!(board.finished(Vec::new(), Player::Guest), None);
    board.apply_move(Move::Arranging(at(5, 5), at(5, 6)));
    assert_eq!(board.moves_since_planting(), 50);
    assert_eq!(board.finished(Vec::new(), Player::Guest), Some(Output::Draw));
    assert_eq!(board.finished(Vec::new(), Player::Host), Some(Output::Draw));
    let mut grid = Grid::create(&board);
    assert!(board.all_legal_moves(&mut grid).is_empty());
}

#[test]
fn flower_board_is_a_game_state() {
    let mut board = Board::empty();
    assert_eq!(board.to_move(), Player::Guest);
    assert_eq!(board.terminal_outcome(Player::Guest), None);
    assert_eq!(board.legal_moves().len(), 6);
    let copy = board.duplicate();
    let mv = board.random_move().unwrap();
    board.apply(mv);
    assert_eq!(copy.move_count(), 0);
    assert_eq!(board.move_count(), 1);
    assert_eq!(board.to_move(), Player::Host);
    assert_eq!(board.legal_moves().len(), 1);
}

#[test]
fn random_play_comes_to_an_end() {
    for _ in 0..5 {
        let mut board = Board::empty();
        let mut count = 0;
        loop {
            if board.terminal_outcome(Player::Guest).is_some() {
                break;
            }
            match board.random_move() {
                Some(mv) => board.apply(mv),
                None => break,
            }
            count += 1;
            assert!(count <= 51 * 37);
        }
        assert!(count >= 2);
    }
}

#[test]
fn search_runs_on_the_flower_board() {
    let score = |w: u32, d: u32, n: u32, p: u32| {
        let rate = (w as f64 * 2.0 + d as f64) / (n as f64 * 2.0);
        (rate + 2.0 * ((p as f64).ln() / n as f64).sqrt()).to_bits()
    };
    let tree = create_root_node(Board::empty());
    let tree = engine(tree, Mode::Iterations(8), 1, &score);
    assert_eq!(tree.node(0).simulations, 8);
    assert_eq!(tree.node(0).children.len(), 6);
    assert!(tree.node(0).untried_moves.is_empty());
}

#[test]
fn move_source_has_no_move_where_nothing_can_move_or_be_planted() {
    // The host fills all four gates while the guest passes with arrangings
    // that move nothing: the guest has no tile on the board and no gate to
    // plant in.
    let mut board = Board::empty();
    for gate in [at(8, 0), at(-8, 0), at(0, 8), at(0, -8)] {
        board.apply_move(Move::Arranging(at(5, 5), at(5, 6)));
        board.apply_move(Move::Planting(FlowerTile::Rose, gate));
    }
    assert_eq!(board.move_count(), 8);
    assert_eq!(board.next_to_move(), Player::Guest);
    let grid = Grid::create(&board);
    assert!(grid.open_gates().is_empty());
    for _ in 0..20 {
        assert_eq!(board.get_random_move(&grid), None);
    }
    assert_eq!(board.terminal_outcome(Player::Guest), None);
    assert_eq!(board.random_move(), None);
    // The host has tiles that can leave their gates: there is a move.
    board.apply_move(Move::Arranging(at(5, 5), at(5, 6)));
    let grid = Grid::create(&board);
    for _ in 0..20 {
        match board.get_random_move(&grid) {
            Some(Move::Arranging(from, _)) => assert!(from.is_gate()),
            other => panic!("no arranging: {other:?}"),
        }
    }
    assert!(board.random_move().is_some());
}

#[test]
fn move_source_stops_when_the_game_is_over() {
    let mut board = opened();
    for _ in 0..50 {
        board.apply_move(Move::Arranging(at(5, 5), at(5, 6)));
    }
    assert_eq!(board.terminal_outcome(Player::Guest), Some(Output::Draw));
    assert_eq!(board.random_move(), None);
    // The move source of the board itself does not look at the end of the
    // game.
    let grid = Grid::create(&board);
    assert!(board.get_random_move(&grid).is_some());
}
