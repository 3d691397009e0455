use sobol_scramble::image::{
    render_stats_image, Canvas, BIT_PIXEL_SIZE, POINT_RADIUS, STATS_IMAGE_HEIGHT,
    STATS_IMAGE_WIDTH,
};

const WHITE: (u8, u8, u8, u8) = (255, 255, 255, 255);
const BLACK: (u8, u8, u8, u8) = (0, 0, 0, 255);

fn black_pixels(canvas: &Canvas) -> Vec<(usize, usize)> {
    let mut found = Vec::new();
    for y in 0..canvas.height() {
        for x in 0..canvas.width() {
            if canvas.get_pixel(x, y) == BLACK {
                found.push((x, y));
            }
        }
    }
    found
}

#[test]
fn image_constants() {
    assert_eq!(POINT_RADIUS, 2);
    assert_eq!(BIT_PIXEL_SIZE, 8);
    assert_eq!(STATS_IMAGE_WIDTH, 8 * 32 * 3);
    assert_eq!(STATS_IMAGE_HEIGHT, 8 * 32);
}

#[test]
fn new_canvas_is_filled() {
    let canvas = Canvas::new(7, 3, 0xff);
    assert_eq!(canvas.width(), 7);
    assert_eq!(canvas.height(), 3);
    assert_eq!(canvas.as_bytes().len(), 7 * 3 * 4);
    assert!(canvas.as_bytes().iter().all(|&b| b == 0xff));
    assert_eq!(canvas.get_pixel(6, 2), WHITE);
    let empty = Canvas::new(0, 5, 1);
    assert_eq!(empty.as_bytes().len(), 0);
}

#[test]
fn set_pixel_writes_four_bytes_in_row_order() {
    let mut canvas = Canvas::new(4, 3, 0);
    canvas.set_pixel(1, 2, (10, 20, 30, 40));
    assert_eq!(canvas.get_pixel(1, 2), (10, 20, 30, 40));
    let at = (2 * 4 + 1) * 4;
    assert_eq!(&canvas.as_bytes()[at..at + 4], &[10, 20, 30, 40]);
    let others = canvas.as_bytes().iter().filter(|&&b| b != 0).count();
    assert_eq!(others, 4);
}

#[test]
fn a_point_is_a_disk_of_radius_two() {
    let mut canvas = Canvas::new(9, 9, 0xff);
    canvas.plot_point(4, 4);
    let expected = vec![
        (4, 2),
        (3, 3),
        (4, 3),
        (5, 3),
        (2, 4),
        (3, 4),
        (4, 4),
        (5, 4),
        (6, 4),
        (3, 5),
        (4, 5),
        (5, 5),
        (4, 6),
    ];
    assert_eq!(black_pixels(&canvas), expected);
    assert_eq!(canvas.get_pixel(2, 2), WHITE);
    assert_eq!(canvas.get_pixel(6, 6), WHITE);
}

#[test]
fn a_point_at_the_corner_is_cut_off() {
    let mut canvas = Canvas::new(5, 5, 0xff);
    canvas.plot_point(0, 0);
    assert_eq!(black_pixels(&canvas), vec![(0, 0), (1, 0), (2, 0), (0, 1), (1, 1), (0, 2)]);
    let mut canvas = Canvas::new(5, 5, 0xff);
    canvas.plot_point(4, 4);
    assert_eq!(black_pixels(&canvas), vec![(4, 2), (3, 3), (4, 3), (2, 4), (3, 4), (4, 4)]);
}

#[test]
fn a_point_off_the_image_still_reaches_it() {
    let mut canvas = Canvas::new(5, 5, 0xff);
    canvas.plot_point(6, 2);
    assert_eq!(black_pixels(&canvas), vec![(4, 2)]);
    let mut canvas = Canvas::new(5, 5, 0xff);
    canvas.plot_point(7, 2);
    assert!(black_pixels(&canvas).is_empty());
    let mut canvas = Canvas::new(5, 5, 0xff);
    canvas.plot_point(2, 100);
    assert!(black_pixels(&canvas).is_empty());
}

#[test]
fn points_are_drawn_one_over_the_other() {
    let mut together = Canvas::new(12, 8, 0xff);
    together.plot_points(&[(2, 2), (4, 3), (10, 6)]);
    let mut one_by_one = Canvas::new(12, 8, 0xff);
    one_by_one.plot_point(2, 2);
    one_by_one.plot_point(4, 3);
    one_by_one.plot_point(10, 6);
    assert_eq!(together.as_bytes(), one_by_one.as_bytes());
    assert_eq!(together.get_pixel(3, 3), BLACK);
    assert_eq!(together.get_pixel(7, 3), WHITE);
    let mut none = Canvas::new(12, 8, 0xff);
    none.plot_points(&[]);
    assert!(black_pixels(&none).is_empty());
}

#[test]
fn fill_block_fills_one_square() {
    let mut canvas = Canvas::new(24, 16, 0);
    canvas.fill_block(1, 1, 77);
    for y in 0..16 {
        for x in 0..24 {
            let inside = (8..16).contains(&x) && (8..16).contains(&y);
            let expected = if inside { (77, 77, 77, 255) } else { (0, 0, 0, 0) };
            assert_eq!(canvas.get_pixel(x, y), expected);
        }
    }
}

#[test]
fn stats_image_shows_three_tables_side_by_side() {
    let avalanche: Vec<u8> = (0..1024).map(|k| (k % 251) as u8).collect();
    let bias: Vec<u8> = (0..1024).map(|k| (k % 241) as u8).collect();
    let tree: Vec<u8> = (0..1024).map(|k| (k % 239) as u8).collect();
    let canvas = render_stats_image(&avalanche, &bias, &tree);
    assert_eq!(canvas.width(), 768);
    assert_eq!(canvas.height(), 256);
    for y in 0..256 {
        for x in 0..768 {
            let bit_in = y / 8;
            let bit_out = (x / 8) % 32;
            let table = match x / 256 {
                0 => &avalanche,
                1 => &bias,
                _ => &tree,
            };
            let shade = table[bit_in * 32 + bit_out];
            assert_eq!(canvas.get_pixel(x, y), (shade, shade, shade, 255));
        }
    }
    // Input bit 3, output bit 5 of the middle table.
    assert_eq!(canvas.get_pixel(256 + 5 * 8, 3 * 8).0, bias[3 * 32 + 5]);
}
