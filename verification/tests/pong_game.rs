use tg_kernel::pong::{
    absolute, center_dashes, clamp, fill, move_paddle, rect, Player, Pong, C_BALL, C_BG, C_LINE,
    C_PADDLE, KEY_DOWN, KEY_S, KEY_UP, KEY_W,
};

fn keys(down: &[usize]) -> [u8; 256] {
    let mut keys = [0u8; 256];
    for k in down {
        keys[*k] = 1;
    }
    keys
}

#[test]
fn pong_starts_in_the_middle() {
    let g = Pong::new();
    assert_eq!((g.p1y, g.p2y), (250, 250));
    assert_eq!((g.bx, g.by, g.bdx, g.bdy), (390, 290, 6, 5));
    assert_eq!((g.s1, g.s2), (0, 0));
}

#[test]
fn paddles_follow_their_keys_and_stay_on_the_screen() {
    assert_eq!(move_paddle(250, true, false), 242);
    assert_eq!(move_paddle(250, false, true), 258);
    assert_eq!(move_paddle(250, true, true), 250);
    assert_eq!(move_paddle(250, false, false), 250);
    assert_eq!(move_paddle(5, true, false), 0);
    assert_eq!(move_paddle(0, true, true), 8);
    assert_eq!(move_paddle(496, false, true), 500);
    assert_eq!(move_paddle(500, false, true), 500);
    let mut g = Pong::new();
    g.step(&keys(&[KEY_W, KEY_DOWN]));
    assert_eq!((g.p1y, g.p2y), (242, 258));
    g.step(&keys(&[KEY_S, KEY_UP]));
    assert_eq!((g.p1y, g.p2y), (250, 250));
    g.step(&keys(&[1, 2, 3]));
    assert_eq!((g.p1y, g.p2y), (250, 250));
}

#[test]
fn the_ball_moves_and_bounces_off_the_edges() {
    let mut g = Pong::new();
    assert_eq!(g.step(&keys(&[])), None);
    assert_eq!((g.bx, g.by, g.bdx, g.bdy), (396, 295, 6, 5));
    let mut g = Pong { by: 578, ..Pong::new() };
    g.step(&keys(&[]));
    assert_eq!((g.by, g.bdy), (580, -5));
    g.step(&keys(&[]));
    assert_eq!((g.by, g.bdy), (575, -5));
    let mut g = Pong { by: 3, bdy: -5, ..Pong::new() };
    g.step(&keys(&[]));
    assert_eq!((g.by, g.bdy), (0, 5));
    assert_eq!(absolute(-5), 5);
    assert_eq!(absolute(5), 5);
    assert_eq!(absolute(0), 0);
}

#[test]
fn the_ball_bounces_off_the_paddles() {
    let mut g = Pong { bx: 24, by: 300, bdx: -6, ..Pong::new() };
    assert_eq!(g.step(&keys(&[])), None);
    assert_eq!((g.bx, g.bdx), (20, 6));
    let mut g = Pong { bx: 756, by: 300, ..Pong::new() };
    assert_eq!(g.step(&keys(&[])), None);
    assert_eq!((g.bx, g.bdx), (760, -6));
    // the ball just touches the lower end of the paddle: 345 <= 250 + 100
    let mut g = Pong { bx: 24, by: 340, bdx: -6, ..Pong::new() };
    g.step(&keys(&[]));
    assert_eq!((g.bx, g.bdx), (20, 6));
    // one step lower it passes by
    let mut g = Pong { bx: 24, by: 346, bdx: -6, ..Pong::new() };
    g.step(&keys(&[]));
    assert_eq!((g.bx, g.bdx), (18, -6));
}

#[test]
fn a_missed_ball_is_a_point_for_the_other_player() {
    let mut g = Pong { bx: 5, by: 10, bdx: -6, p1y: 400, ..Pong::new() };
    assert_eq!(g.step(&keys(&[])), Some(Player::Second));
    assert_eq!((g.s1, g.s2), (0, 1));
    assert_eq!((g.bx, g.by, g.bdx, g.bdy), (400, 300, -6, 5));
    let mut g = Pong { bx: 775, by: 10, p2y: 400, s1: 6, ..Pong::new() };
    assert_eq!(g.step(&keys(&[])), Some(Player::First));
    assert_eq!((g.s1, g.s2), (7, 0));
    assert_eq!((g.bx, g.by, g.bdx, g.bdy), (400, 300, 6, 5));
}

#[test]
fn a_long_rally_keeps_everything_on_the_screen() {
    let mut g = Pong::new();
    let mut points = 0;
    for turn in 0..5000 {
        let down = if turn % 3 == 0 { keys(&[KEY_W, KEY_DOWN]) } else { keys(&[KEY_S]) };
        if g.step(&down).is_some() {
            points += 1;
        }
        assert!((0..=500).contains(&g.p1y) && (0..=500).contains(&g.p2y));
        assert!(0 < g.bx && g.bx < 780, "bx = {}", g.bx);
        assert!((0..=580).contains(&g.by));
        assert_eq!((g.bdx.abs(), g.bdy.abs()), (6, 5));
    }
    assert_eq!(g.s1 + g.s2, points);
    assert!(points > 0);
}

#[test]
fn rectangles_are_cut_at_the_screen() {
    assert_eq!(clamp(10, 20, 800), (10, 20));
    assert_eq!(clamp(-5, 20, 800), (0, 15));
    assert_eq!(clamp(790, 20, 800), (790, 10));
    assert_eq!(clamp(900, 20, 800), (900, 0));
    assert_eq!(clamp(-5, 5, 800), (0, 0));
    assert_eq!(clamp(-30, 20, 800), (0, 800));
    let mut fb = vec![0u32; 800 * 600];
    rect(&mut fb, 790, -5, 20, 10, 7);
    assert_eq!(fb.iter().filter(|p| **p == 7).count(), 10 * 5);
    assert_eq!(fb[790], 7);
    assert_eq!(fb[4 * 800 + 799], 7);
    assert_eq!(fb[5 * 800 + 799], 0);
    assert_eq!(fb[5 * 800], 0);
    rect(&mut fb, 100, 595, 2, 50, 8);
    assert_eq!(fb.iter().filter(|p| **p == 8).count(), 2 * 5);
    let mut short = vec![0u32; 100];
    rect(&mut short, 90, 0, 20, 2, 7);
    assert_eq!(short.iter().filter(|p| **p == 7).count(), 10);
}

#[test]
fn the_centre_line_is_dashed() {
    let mut fb = vec![0u32; 800 * 600];
    center_dashes(&mut fb);
    assert_eq!(fb.iter().filter(|p| **p == C_LINE).count(), 19 * 16);
    for row in 0..600 {
        let expected = if row % 32 < 16 { C_LINE } else { 0 };
        assert_eq!(fb[row * 800 + 400], expected);
    }
    fill(&mut fb, 3);
    assert!(fb.iter().all(|p| *p == 3));
    let mut long = vec![0u32; 800 * 600 + 5];
    fill(&mut long, 3);
    assert_eq!(long.iter().filter(|p| **p == 3).count(), 800 * 600);
    assert_eq!(long[800 * 600], 0);
}

#[test]
fn the_picture_shows_paddles_and_ball_over_the_line() {
    let g = Pong { bx: 395, by: 8, ..Pong::new() };
    let mut fb = vec![0u32; 800 * 600];
    g.render(&mut fb);
    assert_eq!(fb.iter().filter(|p| **p == C_PADDLE).count(), 2 * 20 * 100);
    assert_eq!(fb.iter().filter(|p| **p == C_BALL).count(), 20 * 20);
    // the ball hides rows 8 to 15 of the first dash and leaves rows 0 to 7
    assert_eq!(fb.iter().filter(|p| **p == C_LINE).count(), 19 * 16 - 8);
    assert_eq!(fb[250 * 800], C_PADDLE);
    assert_eq!(fb[349 * 800 + 19], C_PADDLE);
    assert_eq!(fb[350 * 800], C_BG);
    assert_eq!(fb[250 * 800 + 780], C_PADDLE);
    assert_eq!(fb[250 * 800 + 779], C_BG);
    assert_eq!(fb[8 * 800 + 400], C_BALL);
    assert_eq!(fb[7 * 800 + 400], C_LINE);
    assert_eq!(fb[0], C_BG);
}
