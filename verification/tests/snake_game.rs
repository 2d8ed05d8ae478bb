use tg_kernel::snake::{
    encode_command, frame_due, input_handler, paint_pixel, spin_delay, Direction, DrawCommand,
    Point, SnakeGame, HEIGHT, TILE_SIZE, WIDTH,
};

fn lcg(state: u64) -> u64 {
    state.wrapping_mul(6364136223846793005).wrapping_add(1)
}

#[test]
fn new_game_places_food_with_the_generator() {
    let game = SnakeGame::new();
    let s1 = lcg(12345);
    let s2 = lcg(s1);
    let expected = Point { x: (s1 % 40) as isize, y: (s2 % 30) as isize };
    assert_ne!(expected, Point { x: 5, y: 5 });
    assert_eq!(game.food(), expected);
    assert_eq!(game.head(), Point { x: 5, y: 5 });
    assert_eq!(game.len(), 1);
    assert_eq!(game.direction(), Direction::Right);
    assert!(!game.game_over());
}

#[test]
fn rand_is_the_linear_congruential_step() {
    let mut game = SnakeGame::new();
    let s2 = lcg(lcg(12345));
    assert_eq!(game.rand(), lcg(s2));
    assert_eq!(game.rand(), lcg(lcg(s2)));
}

#[test]
fn snake_runs_into_the_right_wall() {
    let mut game = SnakeGame::new();
    let food = game.food();
    let mut moves = 0;
    while !game.game_over() {
        game.step();
        moves += 1;
        assert!(moves <= 40);
    }
    // from x = 5 the head reaches x = 39 after 34 moves; the 35th leaves the board
    assert_eq!(moves, 35);
    assert_eq!(game.head(), Point { x: 39, y: 5 });
    let ate = food.y == 5 && food.x > 5;
    assert_eq!(game.len(), if ate { 2 } else { 1 });
    game.step();
    assert!(game.game_over());
    assert_eq!(game.head(), Point { x: 39, y: 5 });
}

#[test]
fn snake_cannot_reverse() {
    let mut game = SnakeGame::new();
    game.turn(Direction::Left);
    assert_eq!(game.direction(), Direction::Right);
    game.turn(Direction::Up);
    assert_eq!(game.direction(), Direction::Up);
    game.turn(Direction::Down);
    assert_eq!(game.direction(), Direction::Up);
    game.step();
    assert_eq!(game.head(), Point { x: 5, y: 4 });
}

#[test]
fn snake_eats_and_grows() {
    let mut game = SnakeGame::new();
    let food = game.food();
    // walk to the food's column, then to its row
    while game.head().x != food.x {
        game.step_towards(if food.x > game.head().x { Direction::Right } else { Direction::Left });
        assert!(!game.game_over());
    }
    while game.head().y != food.y {
        game.step_towards(if food.y > game.head().y { Direction::Down } else { Direction::Up });
        assert!(!game.game_over());
    }
    assert_eq!(game.head(), food);
    assert_eq!(game.len(), 2);
    assert_ne!(game.food(), food);
    assert!(!game.occupies(game.food()));
    assert!(game.food().x >= 0 && (game.food().x as usize) < WIDTH);
    assert!(game.food().y >= 0 && (game.food().y as usize) < HEIGHT);
}

#[test]
fn render_lists_screen_food_body_head_flush() {
    let mut game = SnakeGame::new();
    let first = game.render();
    assert_eq!(first.len(), 4);
    assert_eq!(
        first[0],
        DrawCommand::Rect { x: 0, y: 0, w: 800, h: 600, color: 0 }
    );
    let food = game.food();
    assert_eq!(
        first[1],
        DrawCommand::Rect {
            x: food.x as usize * TILE_SIZE,
            y: food.y as usize * TILE_SIZE,
            w: 20,
            h: 20,
            color: 0xFFFF00FF
        }
    );
    assert_eq!(
        first[2],
        DrawCommand::Rect { x: 100, y: 100, w: 20, h: 20, color: 0xFF0000FF }
    );
    assert_eq!(first[3], DrawCommand::Flush);
    game.step();
    let second = game.render();
    assert_eq!(
        second[second.len() - 2],
        DrawCommand::Rect { x: 120, y: 100, w: 20, h: 20, color: 0xFF0000FF }
    );
}

#[test]
fn paint_pixel_is_a_rectangle_of_one_pixel() {
    assert_eq!(
        paint_pixel(3, 4, 0xAABBCCDD),
        DrawCommand::Rect { x: 3, y: 4, w: 1, h: 1, color: 0xAABBCCDD }
    );
    assert_eq!(encode_command(paint_pixel(3, 4, 0xAABBCCDD)), vec![3, 4, 1, 1, 0xAABBCCDD]);
    assert_eq!(encode_command(DrawCommand::Flush), Vec::<u32>::new());
    spin_delay();
}

#[test]
fn arrow_keys_steer_but_never_reverse() {
    assert_eq!(input_handler(Direction::Right, 24, 1, 103, 1), Direction::Up);
    assert_eq!(input_handler(Direction::Right, 24, 1, 108, 1), Direction::Down);
    assert_eq!(input_handler(Direction::Right, 24, 1, 106, 1), Direction::Right);
    assert_eq!(input_handler(Direction::Right, 24, 1, 105, 1), Direction::Right);
    assert_eq!(input_handler(Direction::Up, 24, 1, 105, 1), Direction::Left);
    assert_eq!(input_handler(Direction::Up, 24, 1, 108, 1), Direction::Up);
    assert_eq!(input_handler(Direction::Down, 24, 1, 103, 1), Direction::Down);
    assert_eq!(input_handler(Direction::Left, 24, 1, 106, 1), Direction::Left);
    // a key that goes up, another kind of event, another key, a short read
    assert_eq!(input_handler(Direction::Right, 24, 1, 103, 0), Direction::Right);
    assert_eq!(input_handler(Direction::Right, 24, 2, 103, 1), Direction::Right);
    assert_eq!(input_handler(Direction::Right, 24, 1, 17, 1), Direction::Right);
    assert_eq!(input_handler(Direction::Right, 0, 1, 103, 1), Direction::Right);
    assert_eq!(input_handler(Direction::Right, -1, 1, 103, 1), Direction::Right);
}

#[test]
fn the_snake_moves_five_times_a_second() {
    assert!(!frame_due(199, 0));
    assert!(frame_due(200, 0));
    assert!(frame_due(1200, 1000));
    assert!(!frame_due(isize::MIN, isize::MAX));
    assert!(frame_due(isize::MAX, isize::MIN));
}
