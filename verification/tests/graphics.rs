use tg_kernel::graphics::{
    decode_rect, draw_fill_rect, draw_quad, draw_triangle, fill_cells, paint_rect, piece,
    render_piece, set_pixel, Color, Piece,
};

const INK: Color = Color { r: 1, g: 2, b: 3, a: 4 };

fn painted(fb: &[u32], width: usize) -> Vec<(usize, usize)> {
    fb.iter().enumerate().filter(|(_, p)| **p != 0).map(|(k, _)| (k % width, k / width)).collect()
}

#[test]
fn set_pixel_writes_row_major() {
    let mut fb = vec![0u32; 12];
    set_pixel(&mut fb, 4, 3, 1, 2, 7);
    assert_eq!(fb[2 * 4 + 1], 7);
    assert_eq!(fb.iter().filter(|p| **p != 0).count(), 1);
}

#[test]
fn set_pixel_leaves_out_what_is_off_screen() {
    let mut fb = vec![0u32; 12];
    set_pixel(&mut fb, 4, 3, -1, 0, 7);
    set_pixel(&mut fb, 4, 3, 0, -1, 7);
    set_pixel(&mut fb, 4, 3, 4, 0, 7);
    set_pixel(&mut fb, 4, 3, 0, 3, 7);
    assert_eq!(fb, vec![0u32; 12]);
}

#[test]
fn color_is_packed_little_endian() {
    let c = Color { r: 10, g: 20, b: 200, a: 255 };
    assert_eq!(c.to_u32(), u32::from_le_bytes([10, 20, 200, 255]));
    assert_eq!(Color { r: 255, g: 255, b: 255, a: 255 }.to_u32(), 0xFFFF_FFFF);
}

#[test]
fn fill_rect_paints_exactly_its_pixels() {
    let mut fb = vec![0u32; 6 * 4];
    draw_fill_rect(&mut fb, 24, 1, 1, 2, 2, INK);
    assert_eq!(painted(&fb, 6), vec![(1, 1), (2, 1), (1, 2), (2, 2)]);
    assert_eq!(fb[7], INK.to_u32());
}

#[test]
fn fill_rect_runs_into_the_next_row_and_stops_at_the_end() {
    let mut fb = vec![0u32; 4 * 3];
    draw_fill_rect(&mut fb, 16, 3, 0, 2, 1, INK);
    // the second pixel lies beyond the row: it is the first of the next row
    assert_eq!(painted(&fb, 4), vec![(3, 0), (0, 1)]);
    let mut fb = vec![0u32; 4 * 3];
    draw_fill_rect(&mut fb, 16, 2, 2, 2, 5, INK);
    assert_eq!(painted(&fb, 4), vec![(2, 2), (3, 2)]);
}

#[test]
fn paint_rect_is_clipped_at_the_end_of_a_row() {
    let mut fb = vec![0u32; 4 * 3];
    paint_rect(&mut fb, 4, 3, 0, 2, 2, 9);
    assert_eq!(painted(&fb, 4), vec![(3, 0), (3, 1)]);
    let mut fb = vec![0u32; 4 * 3];
    paint_rect(&mut fb, 4, 0, 2, 4, 4, 9);
    assert_eq!(painted(&fb, 4), vec![(0, 2), (1, 2), (2, 2), (3, 2)]);
    let mut fb = vec![0u32; 4 * 3];
    fill_cells(&mut fb, 4, 1, 1, 0, 2, 9, true);
    assert_eq!(fb, vec![0u32; 12]);
}

#[test]
fn a_rectangle_is_five_words() {
    assert_eq!(decode_rect(&vec![1, 2, 3, 4, 5]), Some((1, 2, 3, 4, 5)));
    assert_eq!(decode_rect(&vec![1, 2, 3, 4]), None);
    assert_eq!(decode_rect(&vec![1, 2, 3, 4, 5, 6]), None);
    assert_eq!(decode_rect(&Vec::new()), None);
}

#[test]
fn triangle_covers_its_edges_and_its_inside() {
    let mut fb = vec![0u32; 8 * 8];
    draw_triangle(&mut fb, 32, (0, 0), (4, 0), (0, 4), INK);
    let expected: Vec<(usize, usize)> =
        (0..8).flat_map(|y| (0..8).map(move |x| (x, y))).filter(|(x, y)| x + y <= 4).collect();
    assert_eq!(expected.len(), 15);
    assert_eq!(painted(&fb, 8), expected);
    // the same triangle with its corners the other way round
    let mut other = vec![0u32; 8 * 8];
    draw_triangle(&mut other, 32, (0, 4), (4, 0), (0, 0), INK);
    assert_eq!(other, fb);
}

#[test]
fn triangle_is_cut_at_the_screen() {
    let mut fb = vec![0u32; 4 * 4];
    draw_triangle(&mut fb, 16, (-2, -2), (6, -2), (-2, 6), INK);
    // all of the screen lies on the near side of the long edge, x + y <= 4 ...
    let expected: Vec<(usize, usize)> =
        (0..4).flat_map(|y| (0..4).map(move |x| (x, y))).filter(|(x, y)| x + y <= 4).collect();
    assert_eq!(painted(&fb, 4), expected);
    let mut fb = vec![0u32; 4 * 4];
    draw_triangle(&mut fb, 16, (10, 10), (20, 10), (10, 20), INK);
    assert_eq!(fb, vec![0u32; 16]);
}

#[test]
fn a_flat_triangle_is_a_line() {
    let mut fb = vec![0u32; 8 * 2];
    draw_triangle(&mut fb, 32, (1, 1), (3, 1), (5, 1), INK);
    assert_eq!(painted(&fb, 8), vec![(1, 1), (2, 1), (3, 1), (4, 1), (5, 1)]);
}

#[test]
fn quad_is_two_triangles() {
    let mut fb = vec![0u32; 8 * 8];
    draw_quad(&mut fb, 32, (1, 1), (5, 1), (5, 4), (1, 4), INK);
    let expected: Vec<(usize, usize)> = (0..8)
        .flat_map(|y| (0..8).map(move |x| (x, y)))
        .filter(|(x, y)| (1..=5).contains(x) && (1..=4).contains(y))
        .collect();
    assert_eq!(painted(&fb, 8), expected);
    let mut two = vec![0u32; 8 * 8];
    draw_triangle(&mut two, 32, (1, 1), (5, 1), (5, 4), INK);
    draw_triangle(&mut two, 32, (1, 1), (5, 4), (1, 4), INK);
    assert_eq!(two, fb);
}

#[test]
fn there_are_fourteen_pieces() {
    assert!(matches!(piece(0), Some(Piece::Background(c)) if c == Color::rgb(255, 255, 255)));
    assert!(matches!(
        piece(1),
        Some(Piece::Triangle((50, 50), (150, 50), (50, 150), c)) if c == Color::rgb(10, 20, 200)
    ));
    assert!(matches!(
        piece(10),
        Some(Piece::Rect(600, 250, 100, 100, c)) if c == Color::rgb(40, 240, 100)
    ));
    assert!(matches!(
        piece(12),
        Some(Piece::Quad((500, 450), (600, 450), (650, 550), (550, 550), c))
            if c == Color::rgb(0, 140, 255)
    ));
    for id in 0..14 {
        assert!(piece(id).is_some());
    }
    assert!(piece(14).is_none());
    assert!(piece(usize::MAX).is_none());
}

#[test]
fn pieces_are_rendered_in_place() {
    let mut fb = vec![0u32; 800 * 600];
    render_piece(&mut fb, 3200, 14);
    assert!(fb.iter().all(|p| *p == 0));
    render_piece(&mut fb, 3200, 10);
    let lime = Color::rgb(40, 240, 100).to_u32();
    assert_eq!(fb.iter().filter(|p| **p == lime).count(), 100 * 100);
    assert_eq!(fb[250 * 800 + 600], lime);
    assert_eq!(fb[349 * 800 + 699], lime);
    assert_eq!(fb[250 * 800 + 599], 0);
    assert_eq!(fb[350 * 800 + 600], 0);
    render_piece(&mut fb, 3200, 1);
    let blue = Color::rgb(10, 20, 200).to_u32();
    assert_eq!(fb[50 * 800 + 50], blue);
    assert_eq!(fb[50 * 800 + 150], blue);
    assert_eq!(fb[150 * 800 + 50], blue);
    assert_eq!(fb[100 * 800 + 100], blue);
    assert_eq!(fb[101 * 800 + 100], 0);
    assert_eq!(fb.iter().filter(|p| **p == blue).count(), 101 * 102 / 2);
    render_piece(&mut fb, 3200, 0);
    assert!(fb.iter().all(|p| *p == 0xFFFF_FFFF));
}

#[test]
fn the_background_covers_a_small_screen() {
    let mut fb = vec![0u32; 4 * 3];
    render_piece(&mut fb, 16, 0);
    assert_eq!(fb, vec![0xFFFF_FFFFu32; 12]);
}

#[test]
fn set_pixel_needs_only_the_place_of_its_pixel() {
    // a frame buffer that ends in the middle of the screen's second row
    let mut fb = vec![0u32; 6];
    set_pixel(&mut fb, 4, 3, 1, 1, 9);
    set_pixel(&mut fb, 4, 3, 7, 0, 9);
    set_pixel(&mut fb, 4, 3, 0, 5, 9);
    assert_eq!(fb, vec![0, 0, 0, 0, 0, 9]);
}
