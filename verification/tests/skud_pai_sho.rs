use game_tree_search::skud_pai_sho::{
    AccentTile, AccentTileMove, Board, FlowerTile, HarmonyBonus, Move, Position, SpecialFlowerTile,
    Tile,
};

fn at(x: i8, y: i8) -> Position {
    Position::new(x, y)
}

fn reserve() -> Vec<(Tile, u8)> {
    vec![
        (Tile::Flower(FlowerTile::Rose), 3),
        (Tile::Flower(FlowerTile::Lily), 3),
        (Tile::Special(SpecialFlowerTile::Lotus), 1),
        (Tile::Accent(AccentTile::Boat), 1),
        (Tile::Accent(AccentTile::Wheel), 1),
        (Tile::Accent(AccentTile::Rock), 1),
    ]
}

fn started() -> Board {
    let mut board = Board::new(reserve(), reserve());
    board.apply_move(Move::Planting(FlowerTile::Rose, at(0, -8)));
    board.apply_move(Move::Planting(FlowerTile::Lily, at(0, 8)));
    board
}

#[test]
fn skud_positions_keep_their_coordinates() {
    assert_eq!(at(3, -4).value(), (3, -4));
    assert_eq!(at(3, -4), at(3, -4));
    assert_ne!(at(3, -4), at(-4, 3));
}

#[test]
fn skud_planting_goes_to_the_player_to_move() {
    let board = started();
    assert_eq!(board.move_count(), 2);
    assert_eq!(
        *board.guest_tiles(),
        vec![(Tile::Flower(FlowerTile::Rose), at(0, -8))]
    );
    assert_eq!(
        *board.host_tiles(),
        vec![(Tile::Flower(FlowerTile::Lily), at(0, 8))]
    );
    assert_eq!(board.guest_reserve()[0].1, 2);
    assert_eq!(board.guest_reserve()[1].1, 3);
    assert_eq!(board.host_reserve()[0].1, 3);
    assert_eq!(board.host_reserve()[1].1, 2);
}

#[test]
fn skud_arranging_moves_a_guest_tile_on_either_turn() {
    let mut board = started();
    board.apply_move(Move::Arranging(at(0, -8), at(0, -5), None));
    assert_eq!(board.guest_tiles()[0].1, at(0, -5));
    assert_eq!(board.move_count(), 3);
    // On the host's turn, too, the tile that moves is a tile of the guest.
    board.apply_move(Move::Arranging(at(0, -5), at(1, -5), None));
    assert_eq!(board.guest_tiles()[0].1, at(1, -5));
    assert_eq!(board.host_tiles()[0].1, at(0, 8));
    assert_eq!(board.move_count(), 4);
}

#[test]
fn skud_bonus_flower_is_planted() {
    let mut board = started();
    board.apply_move(Move::Arranging(
        at(0, -8),
        at(0, -5),
        Some(HarmonyBonus::PlantFlower(FlowerTile::Lily, at(8, 0))),
    ));
    assert_eq!(board.guest_tiles().len(), 2);
    assert_eq!(
        board.guest_tiles()[1],
        (Tile::Flower(FlowerTile::Lily), at(8, 0))
    );
    assert_eq!(board.guest_reserve()[1].1, 2);
    board.apply_move(Move::Arranging(
        at(7, 7),
        at(6, 6),
        Some(HarmonyBonus::PlantSpecialFlower(
            SpecialFlowerTile::Lotus,
            at(-8, 0),
        )),
    ));
    assert_eq!(
        board.host_tiles()[1],
        (Tile::Special(SpecialFlowerTile::Lotus), at(-8, 0))
    );
    assert_eq!(board.host_reserve()[2].1, 0);
}

#[test]
fn skud_boat_pushes_and_belongs_to_the_host() {
    let mut board = started();
    board.apply_move(Move::Arranging(
        at(5, 5),
        at(5, 6),
        Some(HarmonyBonus::PlaceAccentTile(
            AccentTileMove::Boat(at(1, -8)),
            at(0, -8),
        )),
    ));
    assert_eq!(board.guest_tiles()[0].1, at(1, -8));
    assert_eq!(
        board.host_tiles()[1],
        (Tile::Accent(AccentTile::Boat), at(0, -8))
    );
    assert_eq!(board.host_reserve()[3].1, 0);
    assert_eq!(board.guest_reserve()[3].1, 1);
}

#[test]
fn skud_wheel_turns_the_tiles_around_it() {
    let mut below = at(2, 1);
    Board::wheel_a_tile(at(2, 2), &mut below);
    assert_eq!(below, at(3, 1));
    let mut below_left = at(3, 1);
    Board::wheel_a_tile(at(2, 2), &mut below_left);
    assert_eq!(below_left, at(4, 1));
    let mut above = at(2, 3);
    Board::wheel_a_tile(at(2, 2), &mut above);
    assert_eq!(above, at(1, 3));
    let mut left = at(1, 2);
    Board::wheel_a_tile(at(2, 2), &mut left);
    assert_eq!(left, at(2, 2));
    let mut right = at(3, 2);
    Board::wheel_a_tile(at(2, 2), &mut right);
    assert_eq!(right, at(2, 2));
    let mut far = at(5, 5);
    Board::wheel_a_tile(at(2, 2), &mut far);
    assert_eq!(far, at(5, 5));
    let mut same = at(2, 2);
    Board::wheel_a_tile(at(2, 2), &mut same);
    assert_eq!(same, at(2, 2));
}

#[test]
fn skud_wheel_bonus_turns_the_tiles_of_the_player_to_move() {
    let mut board = started();
    board.apply_move(Move::Arranging(
        at(0, -8),
        at(2, 1),
        Some(HarmonyBonus::PlaceAccentTile(
            AccentTileMove::Wrapper(AccentTile::Wheel),
            at(2, 2),
        )),
    ));
    assert_eq!(board.guest_tiles()[0].1, at(3, 1));
    assert_eq!(
        board.host_tiles()[1],
        (Tile::Accent(AccentTile::Wheel), at(2, 2))
    );
    assert_eq!(board.host_tiles()[0].1, at(0, 8));
    board.apply_move(Move::Arranging(
        at(9, 9),
        at(9, 9),
        Some(HarmonyBonus::PlaceAccentTile(
            AccentTileMove::Wrapper(AccentTile::Rock),
            at(0, 7),
        )),
    ));
    assert_eq!(board.host_tiles().len(), 3);
    assert_eq!(board.host_tiles()[0].1, at(0, 8));
    assert_eq!(board.host_reserve()[5].1, 0);
}

#[test]
fn skud_board_without_tiles_and_flowers_has_no_moves() {
    let accents = vec![(Tile::Accent(AccentTile::Rock), 1)];
    let board = Board::new(accents.clone(), accents);
    assert!(board.all_legal_moves().is_empty());
    let mut board = board;
    board.guest_add_tile(Tile::Accent(AccentTile::Rock), at(0, 0));
    assert_eq!(board.guest_reserve()[0].1, 0);
    board.host_add_tile(Tile::Accent(AccentTile::Knotweed), at(1, 0));
    assert_eq!(board.host_reserve()[0].1, 1);
    assert_eq!(board.host_tiles().len(), 1);
}
