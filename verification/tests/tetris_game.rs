use tg_kernel::tetris::{
    draw_block, get_rotated_points, interval_at, key_action, pick_shape, score_for, shape_blocks,
    shape_color, Action, TetrisGame, COLOR_EMPTY, EMPTY,
};

fn filled(game: &TetrisGame) -> Vec<(usize, usize, i32)> {
    let mut cells = Vec::new();
    for (r, row) in game.grid.iter().enumerate() {
        for (c, v) in row.iter().enumerate() {
            if *v != EMPTY {
                cells.push((c, r, *v));
            }
        }
    }
    cells
}

/// Fills the rows from `top` down but for the columns 4 to 7.
fn with_a_well(now: isize, top: usize) -> TetrisGame {
    let mut game = TetrisGame::new(now);
    for r in top..20 {
        for c in (0..4).chain(8..10) {
            game.grid[r][c] = 5;
        }
    }
    game
}

#[test]
fn shapes_are_four_blocks_each() {
    assert_eq!(shape_blocks(0), [(0, 0), (1, 0), (2, 0), (3, 0)]);
    assert_eq!(shape_blocks(1), [(0, 0), (1, 0), (0, 1), (1, 1)]);
    assert_eq!(shape_blocks(2), [(0, 0), (1, 0), (2, 0), (1, 1)]);
    assert_eq!(shape_blocks(3), [(1, 0), (2, 0), (0, 1), (1, 1)]);
    assert_eq!(shape_blocks(4), [(0, 0), (1, 0), (1, 1), (2, 1)]);
    assert_eq!(shape_blocks(5), [(0, 0), (0, 1), (1, 1), (2, 1)]);
    assert_eq!(shape_blocks(6), [(2, 0), (0, 1), (1, 1), (2, 1)]);
}

#[test]
fn turning_moves_a_shape_back_into_the_corner() {
    assert_eq!(get_rotated_points(0, 0), [(0, 0), (1, 0), (2, 0), (3, 0)]);
    assert_eq!(get_rotated_points(0, 1), [(0, 0), (0, 1), (0, 2), (0, 3)]);
    assert_eq!(get_rotated_points(0, 2), [(3, 0), (2, 0), (1, 0), (0, 0)]);
    assert_eq!(get_rotated_points(2, 1), [(1, 0), (1, 1), (1, 2), (0, 1)]);
    assert_eq!(get_rotated_points(2, 2), [(2, 1), (1, 1), (0, 1), (1, 0)]);
    assert_eq!(get_rotated_points(1, 3), [(0, 1), (0, 0), (1, 1), (1, 0)]);
    // four quarter turns are a full turn
    for shape in 0..7 {
        assert_eq!(get_rotated_points(shape, 4), get_rotated_points(shape, 0));
        assert_eq!(get_rotated_points(shape, 7), get_rotated_points(shape, 3));
    }
}

#[test]
fn the_clock_picks_the_next_shape() {
    assert_eq!(pick_shape(0), 0);
    assert_eq!(pick_shape(13), 6);
    assert_eq!(pick_shape(1000), 1000 % 7);
    assert_eq!(pick_shape(-1), usize::MAX % 7);
}

#[test]
fn a_new_game_starts_with_the_first_shape_at_the_top() {
    let game = TetrisGame::new(12);
    assert_eq!(game.grid.len(), 20);
    assert!(filled(&game).is_empty());
    assert_eq!((game.current_x, game.current_y), (4, 0));
    assert_eq!(game.current_shape_idx, 0);
    assert_eq!(game.current_rotation, 0);
    assert_eq!(game.next_shape_idx, 5);
    assert_eq!(game.score, 0);
    assert!(!game.game_over);
    assert_eq!(game.last_move_time, 12);
    assert_eq!(game.move_interval, 1000);
}

#[test]
fn collisions_are_with_the_walls_the_floor_and_blocks() {
    let mut game = TetrisGame::new(0);
    assert!(!game.check_collision(0, 0, 0));
    assert!(game.check_collision(-1, 0, 0));
    assert!(!game.check_collision(6, 0, 0));
    assert!(game.check_collision(7, 0, 0));
    assert!(!game.check_collision(9, 16, 1));
    assert!(game.check_collision(9, 17, 1));
    assert!(!game.check_collision(0, 19, 0));
    assert!(game.check_collision(0, 20, 0));
    // above the grid there is room
    assert!(!game.check_collision(3, -5, 1));
    assert!(game.check_collision(i32::MAX, i32::MAX, 0));
    assert!(game.check_collision(i32::MIN, 0, 0));
    game.grid[3][2] = 1;
    assert!(game.check_collision(0, 3, 0));
    assert!(game.check_collision(2, 0, 1));
    assert!(!game.check_collision(3, 3, 0));
}

#[test]
fn moves_stop_at_the_walls() {
    let mut game = TetrisGame::new(0);
    for _ in 0..4 {
        game.move_left();
    }
    assert_eq!(game.current_x, 0);
    game.move_left();
    assert_eq!(game.current_x, 0);
    for _ in 0..10 {
        game.move_right();
    }
    assert_eq!(game.current_x, 6);
    game.rotate();
    assert_eq!(game.current_rotation, 1);
    for _ in 0..10 {
        game.move_right();
    }
    assert_eq!(game.current_x, 9);
    // lying down again the shape would stick out of the grid
    game.rotate();
    assert_eq!(game.current_rotation, 1);
    game.move_down(5);
    assert_eq!((game.current_y, game.last_move_time), (1, 5));
}

#[test]
fn a_dropped_shape_comes_to_rest_on_the_floor() {
    let mut game = TetrisGame::new(3);
    game.hard_drop(8);
    assert_eq!(filled(&game), vec![(4, 19, 0), (5, 19, 0), (6, 19, 0), (7, 19, 0)]);
    assert_eq!(game.current_shape_idx, 3);
    assert_eq!(game.next_shape_idx, 1);
    assert_eq!((game.current_x, game.current_y, game.current_rotation), (4, 0, 0));
    assert_eq!(game.last_move_time, 8);
    assert_eq!(game.score, 0);
    assert!(!game.game_over);
    // the next one comes to rest on top of it
    game.hard_drop(9);
    assert_eq!(
        filled(&game),
        vec![(5, 17, 3), (6, 17, 3), (4, 18, 3), (5, 18, 3), (4, 19, 0), (5, 19, 0), (6, 19, 0), (7, 19, 0)]
    );
}

#[test]
fn a_full_row_is_cleared_and_the_rows_above_sink() {
    let mut game = with_a_well(0, 19);
    game.grid[18][0] = 2;
    game.grid[17][9] = 4;
    game.hard_drop(1);
    assert_eq!(filled(&game), vec![(9, 18, 4), (0, 19, 2)]);
    assert_eq!(game.score, 100);
    assert_eq!(game.move_interval, 1000);
}

#[test]
fn four_rows_at_once_are_worth_most() {
    let mut game = with_a_well(0, 16);
    // the wells of the four rows are filled but for one column
    for r in 16..20 {
        for c in 5..8 {
            game.grid[r][c] = 6;
        }
    }
    game.grid[15][3] = 1;
    game.rotate();
    assert_eq!(game.current_rotation, 1);
    game.hard_drop(1);
    assert_eq!(filled(&game), vec![(3, 19, 1)]);
    assert_eq!(game.score, 800);
    assert_eq!(game.move_interval, 950);
}

#[test]
fn rows_that_are_not_full_stay_between_cleared_ones() {
    let mut game = with_a_well(0, 17);
    for r in [17, 19] {
        for c in 5..8 {
            game.grid[r][c] = 6;
        }
    }
    game.rotate();
    game.hard_drop(1);
    // rows 17 and 19 were full; row 18 keeps its well and sinks to the floor
    let mut expected = vec![(4, 18, 0)];
    expected.extend((0..5).chain(8..10).map(|c| (c, 19, if c == 4 { 0 } else { 5 })));
    assert_eq!(filled(&game), expected);
    assert_eq!(game.score, 300);
}

#[test]
fn clearing_counts_points_and_speeds_the_game_up() {
    assert_eq!(
        [score_for(0), score_for(1), score_for(2), score_for(3), score_for(4)],
        [0, 100, 300, 500, 800]
    );
    assert_eq!(interval_at(0), 1000);
    assert_eq!(interval_at(499), 1000);
    assert_eq!(interval_at(500), 950);
    assert_eq!(interval_at(7999), 250);
    assert_eq!(interval_at(8000), 200);
    assert_eq!(interval_at(8500), 200);
    assert_eq!(interval_at(usize::MAX), 200);
    let mut game = TetrisGame::new(0);
    game.score = 400;
    game.move_interval = 777;
    game.clear_lines();
    assert_eq!((game.score, game.move_interval), (400, 777));
    for c in 0..10 {
        game.grid[7][c] = 1;
    }
    game.grid[6][2] = 3;
    game.clear_lines();
    assert_eq!((game.score, game.move_interval), (500, 950));
    assert_eq!(filled(&game), vec![(2, 7, 3)]);
}

#[test]
fn the_game_is_over_when_a_new_shape_has_no_room() {
    let mut game = TetrisGame::new(0);
    game.grid[0][5] = 2;
    game.move_left();
    game.hard_drop(1);
    assert!(game.game_over);
    assert_eq!((game.current_x, game.current_y), (4, 0));
}

#[test]
fn the_shape_falls_when_its_time_has_come() {
    let mut game = TetrisGame::new(100);
    assert!(!game.is_due(1099));
    assert!(game.is_due(1100));
    assert!(!game.is_due(isize::MIN));
    game.tick(1099);
    assert_eq!((game.current_y, game.last_move_time), (0, 100));
    game.tick(1100);
    assert_eq!((game.current_y, game.last_move_time), (1, 1100));
    for k in 0..18 {
        game.move_down(2000 + k);
    }
    assert_eq!(game.current_y, 19);
    assert!(filled(&game).is_empty());
    game.move_down(3000);
    assert_eq!(filled(&game).len(), 4);
    assert_eq!((game.current_y, game.last_move_time), (0, 3000));
}

#[test]
fn keys_ask_for_moves() {
    assert_eq!(key_action(1, 17, 1), Some(Action::Rotate));
    assert_eq!(key_action(1, 103, 1), Some(Action::Rotate));
    assert_eq!(key_action(1, 30, 1), Some(Action::Left));
    assert_eq!(key_action(1, 105, 1), Some(Action::Left));
    assert_eq!(key_action(1, 32, 1), Some(Action::Right));
    assert_eq!(key_action(1, 106, 1), Some(Action::Right));
    assert_eq!(key_action(1, 31, 1), Some(Action::Down));
    assert_eq!(key_action(1, 108, 1), Some(Action::Down));
    assert_eq!(key_action(1, 57, 1), Some(Action::Drop));
    assert_eq!(key_action(1, 58, 1), None);
    assert_eq!(key_action(1, 57, 0), None);
    assert_eq!(key_action(1, 57, 2), None);
    assert_eq!(key_action(0, 57, 1), None);
    let mut game = TetrisGame::new(0);
    game.apply(Action::Left, 1);
    game.apply(Action::Rotate, 1);
    game.apply(Action::Down, 1);
    assert_eq!((game.current_x, game.current_y, game.current_rotation), (3, 1, 1));
    game.apply(Action::Right, 1);
    game.apply(Action::Drop, 2);
    assert_eq!(filled(&game), vec![(4, 16, 0), (4, 17, 0), (4, 18, 0), (4, 19, 0)]);
}

#[test]
fn a_block_is_a_tile_without_its_rim() {
    let mut fb = vec![0u32; 800 * 600];
    draw_block(&mut fb, 280, 60, 9);
    assert_eq!(fb.iter().filter(|p| **p == 9).count(), 22 * 22);
    assert_eq!(fb[61 * 800 + 281], 9);
    assert_eq!(fb[82 * 800 + 302], 9);
    assert_eq!(fb[60 * 800 + 281], 0);
    assert_eq!(fb[61 * 800 + 280], 0);
    assert_eq!(fb[83 * 800 + 302], 0);
    assert_eq!(fb[82 * 800 + 303], 0);
    // what lies behind the end of the frame buffer is left out
    let mut short = vec![0u32; 62 * 800];
    draw_block(&mut short, 280, 60, 9);
    assert_eq!(short.iter().filter(|p| **p == 9).count(), 22);
}

#[test]
fn the_picture_shows_the_grid_and_the_falling_shape() {
    let mut game = TetrisGame::new(0);
    game.grid[19][0] = 4;
    let tiles = game.tiles();
    assert_eq!(tiles.len(), 204);
    assert_eq!((tiles[0].x, tiles[0].y, tiles[0].color), (280, 60, COLOR_EMPTY));
    assert_eq!((tiles[19].x, tiles[19].y), (280 + 9 * 24, 60 + 24));
    assert_eq!((tiles[190].x, tiles[190].y, tiles[190].color), (280, 60 + 19 * 24, 0xFF00_00FF));
    assert_eq!((tiles[200].x, tiles[200].y, tiles[200].color), (280 + 4 * 24, 60, 0x00FF_FFFF));
    let mut fb = vec![7u32; 800 * 600];
    game.render(&mut fb);
    assert_eq!(fb[0], 0);
    assert_eq!(fb[61 * 800 + 281], COLOR_EMPTY);
    assert_eq!(fb[60 * 800 + 280], 0);
    assert_eq!(fb[(60 + 19 * 24 + 1) * 800 + 281], shape_color(4));
    for c in 4..8 {
        assert_eq!(fb[61 * 800 + 280 + c * 24 + 1], shape_color(0));
    }
    assert_eq!(fb.iter().filter(|p| **p == shape_color(0)).count(), 4 * 22 * 22);
    assert_eq!(fb.iter().filter(|p| **p == COLOR_EMPTY).count(), 195 * 22 * 22);
    assert_eq!(fb.iter().filter(|p| **p == 0).count(), 800 * 600 - 200 * 22 * 22);
}
