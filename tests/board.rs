use battleship::gameboard::{gameboard_init, Block, Board, SetupAction, SetupEvent};
use battleship::grid::Grid;
use battleship::ships::Ship;

fn select(board: &mut Board, len: u8, cells: &[(u8, u8)]) {
    for &(x, y) in cells {
        let r = board.setup_ship(len, SetupEvent::Touch(Block { x, y }));
        assert_eq!(r, SetupAction::Mark(Block { x, y }));
    }
}

fn place(board: &mut Board, len: u8, cells: &[(u8, u8)]) -> SetupAction {
    select(board, len, cells);
    board.setup_ship(len, SetupEvent::Confirm)
}

fn occupied_count(board: &Board) -> usize {
    let mut n = 0;
    for x in 0..10u8 {
        for y in 0..10u8 {
            if board.is_occupied(x, y) {
                n += 1;
            }
        }
    }
    n
}

fn selection_empty(board: &Board) -> bool {
    (0..10u8).all(|x| (0..10u8).all(|y| !board.is_selected(x, y)))
}

fn place_fleet(board: &mut Board) {
    let layout: [&[(u8, u8)]; 5] = [
        &[(0, 0), (1, 0), (2, 0), (3, 0), (4, 0)],
        &[(0, 2), (0, 3), (0, 4), (0, 5)],
        &[(2, 2), (3, 2), (4, 2)],
        &[(9, 0), (9, 1), (9, 2)],
        &[(6, 9), (7, 9)],
    ];
    for cells in layout.iter() {
        let len = board.next_ship_len().unwrap();
        assert_eq!(len as usize, cells.len());
        for &(x, y) in cells.iter() {
            board.initial_setup(SetupEvent::Touch(Block { x, y })).unwrap();
        }
        assert_eq!(board.initial_setup(SetupEvent::Confirm), Some(SetupAction::Placed));
    }
}

#[test]
fn grid_set_get_clear() {
    let mut g = Grid::new();
    assert!(!g.get(3, 4));
    g.set(3, 4, true);
    assert!(g.get(3, 4));
    assert!(!g.get(4, 3));
    g.clear();
    assert!(!g.get(3, 4));
}

#[test]
fn ship_new_and_sunk() {
    let mut s = Ship::new(3, 1, 2, true);
    assert_eq!(s, Ship { size: 3, x_start_location: 1, y_start_location: 2, vertical: true, sunken_fields: 0 });
    assert!(!s.sunk());
    s.sunken_fields = 3;
    assert!(s.sunk());
}

#[test]
fn touch_toggles_selection() {
    let mut b = gameboard_init();
    let blk = Block { x: 4, y: 7 };
    assert_eq!(b.setup_ship(3, SetupEvent::Touch(blk)), SetupAction::Mark(blk));
    assert!(b.is_selected(4, 7));
    assert_eq!(b.setup_ship(3, SetupEvent::Touch(blk)), SetupAction::Unmark(blk));
    assert!(!b.is_selected(4, 7));
}

#[test]
fn horizontal_ship_is_placed() {
    let mut b = gameboard_init();
    assert_eq!(place(&mut b, 3, &[(2, 3), (3, 3), (4, 3)]), SetupAction::Placed);
    assert_eq!(b.ship_count(), 1);
    assert_eq!(b.ship(0), Ship::new(3, 2, 3, false));
    assert!(b.is_occupied(2, 3) && b.is_occupied(3, 3) && b.is_occupied(4, 3));
    assert_eq!(occupied_count(&b), 3);
    assert!(selection_empty(&b));
}

#[test]
fn vertical_ship_at_edge_is_placed() {
    let mut b = gameboard_init();
    assert_eq!(place(&mut b, 4, &[(9, 6), (9, 7), (9, 8), (9, 9)]), SetupAction::Placed);
    assert_eq!(b.ship(0), Ship::new(4, 9, 6, true));
    assert_eq!(occupied_count(&b), 4);
}

#[test]
fn straight_mask_adds_exactly_its_cells() {
    let mut b = gameboard_init();
    assert_eq!(place(&mut b, 2, &[(0, 0), (0, 1)]), SetupAction::Placed);
    let before = occupied_count(&b);
    assert_eq!(place(&mut b, 5, &[(3, 5), (4, 5), (5, 5), (6, 5), (7, 5)]), SetupAction::Placed);
    assert_eq!(occupied_count(&b), before + 5);
}

#[test]
fn wrong_cell_count_is_refused() {
    let mut b = gameboard_init();
    assert_eq!(place(&mut b, 3, &[(2, 3), (3, 3)]), SetupAction::Retry);
    assert_eq!(b.ship_count(), 0);
    assert_eq!(occupied_count(&b), 0);
    assert!(selection_empty(&b));
    assert_eq!(place(&mut b, 2, &[(2, 3), (3, 3), (4, 3)]), SetupAction::Retry);
    assert_eq!(b.ship_count(), 0);
}

#[test]
fn refused_selection_leaves_grids_alone() {
    let mut setup = Grid::new();
    setup.set(1, 1, true);
    setup.set(2, 1, true);
    let mut b = Board::new(Vec::new(), Grid::new(), setup, Grid::new());
    assert!(!b.get_valid_ship(3));
    assert!(b.is_selected(1, 1) && b.is_selected(2, 1));
    assert_eq!(occupied_count(&b), 0);
    assert_eq!(b.ship_count(), 0);
    assert!(b.get_valid_ship(2));
    assert_eq!(b.ship(0), Ship::new(2, 1, 1, false));
}

#[test]
fn gap_bend_and_diagonal_are_refused() {
    let mut b = gameboard_init();
    assert_eq!(place(&mut b, 3, &[(1, 1), (2, 1), (4, 1)]), SetupAction::Retry);
    assert_eq!(place(&mut b, 3, &[(1, 1), (2, 1), (2, 2)]), SetupAction::Retry);
    assert_eq!(place(&mut b, 2, &[(1, 1), (2, 2)]), SetupAction::Retry);
    assert_eq!(place(&mut b, 2, &[(0, 9), (1, 0)]), SetupAction::Retry);
    assert_eq!(b.ship_count(), 0);
    assert_eq!(occupied_count(&b), 0);
}

#[test]
fn adjacent_second_ship_is_refused() {
    let mut b = gameboard_init();
    assert_eq!(place(&mut b, 3, &[(2, 2), (3, 2), (4, 2)]), SetupAction::Placed);
    // diagonal neighbour
    assert_eq!(place(&mut b, 2, &[(5, 3), (5, 4)]), SetupAction::Retry);
    // side neighbour
    assert_eq!(place(&mut b, 2, &[(2, 3), (3, 3)]), SetupAction::Retry);
    // overlapping
    assert_eq!(place(&mut b, 2, &[(4, 1), (4, 2)]), SetupAction::Retry);
    assert_eq!(b.ship_count(), 1);
    // one cell of water in between is enough
    assert_eq!(place(&mut b, 2, &[(6, 3), (6, 4)]), SetupAction::Placed);
    assert_eq!(b.ship_count(), 2);
}

#[test]
fn single_cell_ship() {
    let mut b = gameboard_init();
    assert_eq!(place(&mut b, 1, &[(5, 5)]), SetupAction::Placed);
    assert_eq!(b.ship(0), Ship::new(1, 5, 5, false));
}

#[test]
fn fleet_is_placed_in_order() {
    let mut b = gameboard_init();
    place_fleet(&mut b);
    assert_eq!(b.ship_count(), 5);
    assert_eq!(b.next_ship_len(), None);
    assert_eq!(b.initial_setup(SetupEvent::Confirm), None);
    assert_eq!(b.get_own_ships_of_len(), (1, 2, 1, 1));
    assert_eq!(occupied_count(&b), 17);
}

#[test]
fn initial_setup_retries_same_slot() {
    let mut b = gameboard_init();
    assert_eq!(b.next_ship_len(), Some(5));
    b.initial_setup(SetupEvent::Touch(Block { x: 0, y: 0 })).unwrap();
    assert_eq!(b.initial_setup(SetupEvent::Confirm), Some(SetupAction::Retry));
    assert_eq!(b.next_ship_len(), Some(5));
}

#[test]
fn shots_miss_hit_and_sink() {
    let mut b = gameboard_init();
    place(&mut b, 2, &[(3, 3), (3, 4)]);
    assert_eq!(b.shoot_at(Block { x: 0, y: 0 }), (false, 0));
    assert!(b.is_shot(0, 0));
    assert_eq!(b.shoot_at(Block { x: 3, y: 3 }), (true, 0));
    assert_eq!(b.ship(0).sunken_fields, 1);
    assert_eq!(b.shoot_at(Block { x: 3, y: 4 }), (true, 2));
    assert_eq!(b.ship(0).sunken_fields, 2);
}

#[test]
fn repeated_shot_reports_nothing() {
    let mut b = gameboard_init();
    place(&mut b, 3, &[(1, 1), (2, 1), (3, 1)]);
    assert_eq!(b.shoot_at(Block { x: 2, y: 1 }), (true, 0));
    assert_eq!(b.shoot_at(Block { x: 2, y: 1 }), (false, 0));
    assert_eq!(b.ship(0).sunken_fields, 1);
    assert_eq!(b.shoot_at(Block { x: 7, y: 7 }), (false, 0));
    assert_eq!(b.shoot_at(Block { x: 7, y: 7 }), (false, 0));
}

#[test]
fn shooting_every_cell_sinks_on_last() {
    let mut b = gameboard_init();
    let cells = [(4, 2), (4, 3), (4, 4), (4, 5), (4, 6)];
    place(&mut b, 5, &cells);
    for (k, &(x, y)) in cells.iter().enumerate() {
        let expected = if k == 4 { 5 } else { 0 };
        assert_eq!(b.shoot_at(Block { x, y }), (true, expected));
    }
    assert_eq!(b.get_own_ships_of_len(), (0, 0, 0, 0));
}

#[test]
fn win_only_when_every_ship_sunk() {
    let mut b = gameboard_init();
    assert!(b.check_win());
    place(&mut b, 2, &[(0, 0), (1, 0)]);
    place(&mut b, 2, &[(5, 5), (5, 6)]);
    assert!(!b.check_win());
    b.shoot_at(Block { x: 0, y: 0 });
    b.shoot_at(Block { x: 1, y: 0 });
    assert!(!b.check_win());
    b.shoot_at(Block { x: 5, y: 5 });
    assert!(!b.check_win());
    b.shoot_at(Block { x: 5, y: 6 });
    assert!(b.check_win());
}

#[test]
fn own_fleet_counts_drop_when_sunk() {
    let mut b = gameboard_init();
    place_fleet(&mut b);
    b.shoot_at(Block { x: 6, y: 9 });
    assert_eq!(b.get_own_ships_of_len(), (1, 2, 1, 1));
    b.shoot_at(Block { x: 7, y: 9 });
    assert_eq!(b.get_own_ships_of_len(), (0, 2, 1, 1));
}

#[test]
fn infer_horizontal_ship_finished_at_east_end() {
    let mut b = gameboard_init();
    for x in 2..5u8 {
        b.enemy_ships_hit.set(x, 2, true);
    }
    assert_eq!(b.get_enemy_ships_of_len(), (1, 2, 1, 1));
    assert_eq!(b.get_enemy_ship_start_dir_len(4, 2), (2, 2, false, 3));
    assert_eq!(b.get_enemy_ships_of_len(), (1, 1, 1, 1));
}

#[test]
fn infer_size_five_ship_counts_it_off() {
    let mut b = gameboard_init();
    assert_eq!(b.get_enemy_ships_of_len(), (1, 2, 1, 1));
    for y in 3..8u8 {
        b.enemy_ships_hit.set(6, y, true);
    }
    assert_eq!(b.get_enemy_ship_start_dir_len(6, 7), (6, 3, true, 5));
    assert_eq!(b.get_enemy_ships_of_len(), (1, 2, 1, 0));
    // a further size-5 report cannot push the counter below zero
    let mut c = gameboard_init();
    for y in 3..8u8 {
        c.enemy_ships_hit.set(6, y, true);
    }
    c.get_enemy_ship_start_dir_len(6, 3);
    c.get_enemy_ship_start_dir_len(6, 3);
    assert_eq!(c.get_enemy_ships_of_len(), (1, 2, 1, 0));
}

#[test]
fn infer_from_start_cell() {
    let mut b = gameboard_init();
    b.enemy_ships_hit.set(0, 0, true);
    b.enemy_ships_hit.set(1, 0, true);
    assert_eq!(b.get_enemy_ship_start_dir_len(0, 0), (0, 0, false, 2));
    b.enemy_ships_hit.set(7, 5, true);
    b.enemy_ships_hit.set(7, 6, true);
    b.enemy_ships_hit.set(7, 7, true);
    b.enemy_ships_hit.set(7, 8, true);
    assert_eq!(b.get_enemy_ship_start_dir_len(7, 5), (7, 5, true, 4));
    assert_eq!(b.get_enemy_ships_of_len(), (0, 2, 0, 1));
}

#[test]
fn infer_from_middle_cell() {
    let mut b = gameboard_init();
    for x in 3..7u8 {
        b.enemy_ships_hit.set(x, 9, true);
    }
    assert_eq!(b.get_enemy_ship_start_dir_len(5, 9), (3, 9, false, 4));
    let mut c = gameboard_init();
    for y in 0..3u8 {
        c.enemy_ships_hit.set(0, y, true);
    }
    assert_eq!(c.get_enemy_ship_start_dir_len(0, 1), (0, 0, true, 3));
    assert_eq!(c.get_enemy_ships_of_len(), (1, 1, 1, 1));
}

#[test]
fn infer_without_ship_changes_nothing() {
    let mut b = gameboard_init();
    // no hit recorded at the cell
    assert_eq!(b.get_enemy_ship_start_dir_len(4, 4), (0, 0, false, 0));
    // an isolated hit
    b.enemy_ships_hit.set(4, 4, true);
    assert_eq!(b.get_enemy_ship_start_dir_len(4, 4), (4, 4, false, 0));
    // a run of six hits is longer than any ship
    for x in 0..6u8 {
        b.enemy_ships_hit.set(x, 8, true);
    }
    assert_eq!(b.get_enemy_ship_start_dir_len(5, 8), (5, 8, false, 0));
    assert_eq!(b.get_enemy_ships_of_len(), (1, 2, 1, 1));
}

#[test]
fn shot_feedback_is_recorded() {
    let mut b = gameboard_init();
    assert_eq!(b.record_shot_feedback(Block { x: 1, y: 1 }, false, 0), None);
    assert!(b.enemy_fields_shot.get(1, 1));
    assert!(!b.enemy_ships_hit.get(1, 1));
    assert_eq!(b.record_shot_feedback(Block { x: 5, y: 5 }, true, 0), None);
    assert!(b.enemy_ships_hit.get(5, 5));
    assert_eq!(b.record_shot_feedback(Block { x: 6, y: 5 }, true, 2), Some((5, 5, false, 2)));
    assert_eq!(b.get_enemy_ships_of_len(), (0, 2, 1, 1));
}

#[test]
fn touch_point_to_block() {
    let mut b = gameboard_init();
    assert_eq!(b.calculate_touch_block(25, 25).map(|k| (k.x, k.y)), Some((0, 0)));
    assert_eq!(b.calculate_touch_block(272, 272).map(|k| (k.x, k.y)), Some((9, 9)));
    assert_eq!(b.calculate_touch_block(100, 49).map(|k| (k.x, k.y)), Some((3, 0)));
    assert!(b.calculate_touch_block(24, 100).is_none());
    assert!(b.calculate_touch_block(273, 100).is_none());
    assert!(b.calculate_touch_block(100, 300).is_none());
}

#[test]
fn own_ship_lookup() {
    let mut b = gameboard_init();
    place(&mut b, 2, &[(0, 0), (1, 0)]);
    place(&mut b, 3, &[(5, 5), (5, 6), (5, 7)]);
    assert_eq!(b.get_ship_at(1, 0), Some(0));
    assert_eq!(b.get_ship_at(5, 7), Some(1));
    assert_eq!(b.get_ship_at(5, 8), None);
    assert_eq!(b.get_ship_at(2, 0), None);
}
