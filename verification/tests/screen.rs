use galaxyy::screen::egui_screen::EguiTextOutput;
use galaxyy::screen::text_render::{TerminalOutputer, TextRender, HEIGHT, PIXELS, WIDTH};
use galaxyy::screen::{bytes_of, Point, TextOutputter};

fn renderer(rows: usize, cols: usize) -> TextRender<EguiTextOutput> {
    TextRender::new(EguiTextOutput::new(rows, cols, Vec::new()))
}

fn lit(r: &TextRender<EguiTextOutput>) -> Vec<(usize, usize)> {
    let mut out = Vec::new();
    for (k, on) in r.canvas.iter().enumerate() {
        if *on {
            out.push((k / WIDTH, k % WIDTH));
        }
    }
    out
}

fn block(r: i64, c: i64) -> Vec<(i64, i64)> {
    let mut out = Vec::new();
    for i in r - 1..=r + 1 {
        for j in c - 1..=c + 1 {
            out.push((i, j));
        }
    }
    out
}

fn on_canvas(mut pixels: Vec<(i64, i64)>) -> Vec<(usize, usize)> {
    pixels.retain(|p| p.0 >= 0 && p.1 >= 0 && p.0 < HEIGHT as i64 && p.1 < WIDTH as i64);
    let mut out: Vec<(usize, usize)> = pixels.iter().map(|p| (p.0 as usize, p.1 as usize)).collect();
    out.sort();
    out.dedup();
    out
}

// The centers of a line by the error-term walk along the longer side.
fn walk(a: (i64, i64), b: (i64, i64)) -> Vec<(i64, i64)> {
    let (d0, d1) = (b.0 - a.0, b.1 - a.1);
    let mut centers = Vec::new();
    if d1.abs() < d0.abs() || (d0 == 0 && d1 == 0) {
        let (from, to) = if a.0 <= b.0 { (a, b) } else { (b, a) };
        let dx = to.0 - from.0;
        let (dy, yi) = if to.1 >= from.1 { (to.1 - from.1, 1) } else { (from.1 - to.1, -1) };
        let mut d = 2 * dy - dx;
        let mut y = from.1;
        for x in from.0..=to.0 {
            centers.push((x, y));
            if d > 0 {
                y += yi;
                d -= 2 * dx;
            }
            d += 2 * dy;
        }
    } else {
        let (from, to) = if a.1 <= b.1 { (a, b) } else { (b, a) };
        let dy = to.1 - from.1;
        let (dx, xi) = if to.0 >= from.0 { (to.0 - from.0, 1) } else { (from.0 - to.0, -1) };
        let mut d = 2 * dx - dy;
        let mut x = from.0;
        for y in from.1..=to.1 {
            centers.push((x, y));
            if d > 0 {
                x += xi;
                d -= 2 * dy;
            }
            d += 2 * dx;
        }
    }
    centers
}

fn bold_line(a: (i64, i64), b: (i64, i64)) -> Vec<(usize, usize)> {
    on_canvas(walk(a, b).into_iter().flat_map(|c| block(c.0, c.1)).collect())
}

#[test]
fn terminal_output_starts_without_a_size() {
    let out = TerminalOutputer::new();
    assert_eq!((out.width(), out.height()), (0, 0));
    assert!(out.frame.is_empty());
    assert!(!out.is_ready());
}

#[test]
fn terminal_output_takes_the_reported_size() {
    let mut out = TerminalOutputer::new();
    assert!(!out.apply_size(None));
    assert_eq!((out.width, out.height), (0, 0));
    assert!(out.apply_size(Some((4, 3))));
    assert_eq!((out.width(), out.height()), (4, 3));
    assert_eq!(out.frame, vec![b' '; 12]);
    assert!(out.is_ready());
    assert!(out.apply_size(Some((0, 7))));
    assert!(!out.is_ready());
    assert!(out.frame.is_empty());
    assert!(!out.apply_size(None));
    assert_eq!((out.width, out.height), (0, 7));
}

#[test]
fn terminal_output_setup_is_ready_only_with_a_size() {
    let mut out = TerminalOutputer::new();
    out.setup();
    if out.is_ready() {
        assert_eq!(out.frame, vec![b' '; out.width() * out.height()]);
    } else {
        assert!(out.frame.is_empty());
    }
}

#[test]
fn terminal_output_sends_the_cursor_home_before_the_frame() {
    let mut out = TerminalOutputer::new();
    out.apply_size(Some((2, 2)));
    out.write(b"ab\ncd");
    assert_eq!(out.frame, b"\x1b[0;1Hab\ncd".to_vec());
    out.write(b"");
    assert_eq!(out.frame, b"\x1b[0;1H".to_vec());
    assert_eq!((out.width(), out.height()), (2, 2));
}

#[test]
fn egui_output_keeps_the_last_frame() {
    let mut out = EguiTextOutput::new(45, 130, b"old".to_vec());
    assert_eq!((out.height(), out.width()), (45, 130));
    out.setup();
    assert_eq!(out.frame, b"old".to_vec());
    out.write(b"new frame");
    assert_eq!(out.frame, b"new frame".to_vec());
    assert_eq!((out.height(), out.width()), (45, 130));
    let mut huge = EguiTextOutput::new(usize::MAX, usize::MAX, Vec::new());
    huge.setup();
    assert!(huge.frame.is_empty());
}

#[test]
fn bytes_of_copies() {
    assert_eq!(bytes_of(b"xyz"), b"xyz".to_vec());
    assert_eq!(bytes_of(b""), Vec::<u8>::new());
}

#[test]
fn new_renderer_is_dark() {
    let r = renderer(67, 95);
    assert_eq!(r.canvas.len(), PIXELS);
    assert_eq!(PIXELS, WIDTH * HEIGHT);
    assert!(lit(&r).is_empty());
    assert_eq!(r.palette, 0);
    assert!(r.frame.is_empty());
}

#[test]
fn draw_point_lights_one_pixel_on_the_canvas() {
    let mut r = renderer(67, 95);
    r.draw_point(Point(3, 5));
    r.draw_point(Point(0, 0));
    r.draw_point(Point(669, 949));
    assert_eq!(lit(&r), vec![(0, 0), (3, 5), (669, 949)]);
    r.draw_point(Point(-1, 5));
    r.draw_point(Point(5, -1));
    r.draw_point(Point(670, 5));
    r.draw_point(Point(5, 950));
    r.draw_point(Point(i32::MIN, i32::MAX));
    r.draw_point(Point(3, 5));
    assert_eq!(lit(&r), vec![(0, 0), (3, 5), (669, 949)]);
}

#[test]
fn clear_darkens_everything() {
    let mut r = renderer(67, 95);
    r.draw_rectangle(Point(0, 0), Point(20, 20));
    r.set_palette(2);
    assert_eq!(lit(&r).len(), 441);
    r.clear();
    assert!(lit(&r).is_empty());
    assert_eq!(r.canvas.len(), PIXELS);
    assert_eq!(r.palette, 2);
}

#[test]
fn bold_point_is_three_by_three() {
    let mut r = renderer(67, 95);
    r.draw_bold_point(Point(10, 20));
    assert_eq!(lit(&r), on_canvas(block(10, 20)));
    assert_eq!(lit(&r).len(), 9);
    r.clear();
    r.draw_bold_point(Point(0, 0));
    assert_eq!(lit(&r), vec![(0, 0), (0, 1), (1, 0), (1, 1)]);
    r.clear();
    r.draw_bold_point(Point(670, 950));
    assert_eq!(lit(&r), vec![(669, 949)]);
    r.clear();
    r.draw_bold_point(Point(i32::MAX, i32::MIN));
    assert!(lit(&r).is_empty());
}

#[test]
fn rectangle_is_filled_and_clipped() {
    let mut r = renderer(67, 95);
    r.draw_rectangle(Point(5, 9), Point(3, 7));
    let mut expected = Vec::new();
    for i in 3..=5 {
        for j in 7..=9 {
            expected.push((i, j));
        }
    }
    assert_eq!(lit(&r), expected);
    r.clear();
    r.draw_rectangle(Point(-5, 948), Point(1, 2000));
    assert_eq!(lit(&r), vec![(0, 948), (0, 949), (1, 948), (1, 949)]);
    r.clear();
    r.draw_rectangle(Point(-5, -5), Point(-1, 2000));
    assert!(lit(&r).is_empty());
    r.draw_rectangle(Point(i32::MIN, i32::MIN), Point(i32::MAX, i32::MAX));
    assert_eq!(lit(&r).len(), PIXELS);
}

#[test]
fn flat_and_upright_lines() {
    let mut r = renderer(67, 95);
    r.draw_line(Point(10, 10), Point(10, 14));
    let mut expected = Vec::new();
    for i in 9..=11 {
        for j in 9..=15 {
            expected.push((i, j));
        }
    }
    assert_eq!(lit(&r), expected);
    r.clear();
    r.draw_line(Point(14, 10), Point(10, 10));
    let mut expected = Vec::new();
    for i in 9..=15 {
        for j in 9..=11 {
            expected.push((i, j));
        }
    }
    assert_eq!(lit(&r), expected);
    r.clear();
    r.draw_line(Point(7, 7), Point(7, 7));
    assert_eq!(lit(&r), on_canvas(block(7, 7)));
}

#[test]
fn sloped_line_stays_nearest_to_the_straight_line() {
    // From (10, 10) four rows down and two columns right: the column
    // moves on after the second and after the fourth row.
    let centers = vec![(10, 10), (11, 10), (12, 11), (13, 11), (14, 12)];
    assert_eq!(walk((10, 10), (14, 12)), centers);
    let mut r = renderer(67, 95);
    r.draw_line(Point(10, 10), Point(14, 12));
    assert_eq!(lit(&r), on_canvas(centers.iter().flat_map(|c| block(c.0, c.1)).collect()));
    let mut back = renderer(67, 95);
    back.draw_line(Point(14, 12), Point(10, 10));
    assert_eq!(lit(&back), lit(&r));
}

#[test]
fn lines_of_every_direction_match_the_error_term_walk() {
    let ends = [
        ((100, 100), (130, 117)),
        ((100, 100), (130, 83)),
        ((130, 117), (100, 100)),
        ((100, 100), (117, 130)),
        ((100, 100), (83, 130)),
        ((117, 70), (100, 100)),
        ((100, 100), (120, 120)),
        ((100, 100), (80, 120)),
        ((100, 100), (101, 100)),
        ((100, 100), (100, 99)),
        ((5, 3), (2, 900)),
        ((600, 3), (20, 4)),
        ((-20, -30), (40, 25)),
        ((660, 940), (700, 1000)),
        ((300, -50), (310, 1000)),
        ((50, 60), (51, 62)),
        ((50, 60), (52, 61)),
        ((3, 4), (9, 7)),
        ((9, 7), (3, 4)),
        ((9, 4), (3, 7)),
    ];
    for (a, b) in ends {
        let mut r = renderer(67, 95);
        r.draw_line(Point(a.0 as i32, a.1 as i32), Point(b.0 as i32, b.1 as i32));
        assert_eq!(lit(&r), bold_line(a, b), "line from {:?} to {:?}", a, b);
    }
}

#[test]
fn drawing_adds_to_what_is_lit() {
    let mut r = renderer(67, 95);
    r.draw_point(Point(200, 200));
    r.draw_line(Point(10, 10), Point(14, 12));
    r.draw_rectangle(Point(300, 300), Point(301, 301));
    let mut expected = bold_line((10, 10), (14, 12));
    expected.extend([(200, 200), (300, 300), (300, 301), (301, 300), (301, 301)]);
    expected.sort();
    assert_eq!(lit(&r), expected);
}

#[test]
fn brightness_spreads_the_palette_over_the_counts() {
    let mut r = renderer(67, 95);
    let glyphs: Vec<u8> = [0, 11, 12, 23, 34, 45, 56, 67, 78, 89, 99, 100]
        .iter()
        .map(|c| r.brightness(*c, 100))
        .collect();
    assert_eq!(glyphs, b"  .,:;oOQ##@".to_vec());
    assert_eq!(r.brightness(64, 64), b'@');
    assert_eq!(r.brightness(63, 64), b'#');
    assert_eq!(r.brightness(1, 1), b'@');
    assert_eq!(r.brightness(0, PIXELS), b' ');
    assert_eq!(r.brightness(PIXELS, PIXELS), b'@');
    assert_eq!(r.brightness(usize::MAX, usize::MAX), b'@');
    assert_eq!(r.brightness(usize::MAX - 1, usize::MAX), b'#');
    assert_eq!(r.brightness(usize::MAX / 2, usize::MAX), b';');
    r.set_palette(1);
    let glyphs: Vec<u8> = [0, 55, 56, 67, 78, 89, 100].iter().map(|c| r.brightness(*c, 100)).collect();
    assert_eq!(glyphs, b"  .oO@@".to_vec());
    r.set_palette(2);
    let glyphs: Vec<u8> = [0, 49, 50, 99, 100].iter().map(|c| r.brightness(*c, 100)).collect();
    assert_eq!(glyphs, b"  ..:".to_vec());
    r.set_palette(3);
    assert_eq!(r.brightness(100, 100), b' ');
    r.set_palette(-1);
    assert_eq!(r.brightness(100, 100), b' ');
}

#[test]
fn count_block_counts_lit_pixels() {
    let mut r = renderer(67, 95);
    r.draw_rectangle(Point(10, 10), Point(14, 29));
    assert_eq!(r.count_block(10, 10, 10, 10), 50);
    assert_eq!(r.count_block(10, 20, 10, 10), 50);
    assert_eq!(r.count_block(0, 0, 10, 10), 0);
    assert_eq!(r.count_block(14, 29, 1, 1), 1);
    assert_eq!(r.count_block(15, 29, 1, 1), 0);
    assert_eq!(r.count_block(0, 0, HEIGHT, WIDTH), 100);
    assert_eq!(r.count_block(12, 12, 0, 5), 0);
}

#[test]
fn frame_has_borders_line_ends_and_a_closing_zero() {
    let mut r = renderer(4, 5);
    r.draw();
    assert_eq!(r.frame, b"####\n#   \n#   \n####\0".to_vec());
    assert_eq!(r.output.frame, r.frame);
}

#[test]
fn frame_shows_the_brightness_of_every_block() {
    let mut r = renderer(67, 95);
    r.draw_rectangle(Point(10, 10), Point(19, 19));
    r.draw_rectangle(Point(20, 30), Point(24, 39));
    r.draw_point(Point(30, 40));
    r.draw_rectangle(Point(0, 0), Point(9, 949));
    r.draw();
    assert_eq!(r.frame.len(), 67 * 95);
    let cell = |i: usize, j: usize| r.frame[i * 95 + j];
    assert_eq!(cell(1, 1), b'@');
    assert_eq!(cell(2, 3), b';');
    assert_eq!(cell(3, 4), b' ');
    assert_eq!(cell(1, 2), b' ');
    for j in 1..94 {
        assert_eq!(cell(0, j), b'#');
        assert_eq!(cell(66, j), b'#');
    }
    for i in 0..67 {
        assert_eq!(cell(i, 0), b'#');
        assert_eq!(cell(i, 94), if i == 66 { 0 } else { b'\n' });
    }
    assert_eq!(r.output.frame, r.frame);
    r.set_palette(2);
    r.draw();
    assert_eq!(r.frame[1 * 95 + 1], b':');
    assert_eq!(r.frame[2 * 95 + 3], b'.');
    assert_eq!(r.output.frame, r.frame);
}

#[test]
fn frame_for_one_column_is_all_line_ends() {
    let mut r = renderer(3, 1);
    r.draw_rectangle(Point(0, 0), Point(669, 949));
    r.draw();
    assert_eq!(r.frame, b"\n\n\0".to_vec());
    let mut one = renderer(1, 1);
    one.draw();
    assert_eq!(one.frame, b"\0".to_vec());
}

#[test]
fn frame_for_a_terminal_is_sent_after_the_cursor_went_home() {
    let mut out = TerminalOutputer::new();
    out.apply_size(Some((3, 2)));
    let mut r = TextRender::new(out);
    if r.output.width() != 3 || r.output.height() != 2 {
        // A terminal is attached and gave its own size.
        return;
    }
    r.draw();
    assert_eq!(r.frame, b"##\n##\0".to_vec());
    assert_eq!(r.output.frame, b"\x1b[0;1H##\n##\0".to_vec());
}

#[test]
fn widest_frame_has_one_character_per_pixel() {
    let mut r = renderer(HEIGHT, WIDTH);
    r.draw_point(Point(5, 7));
    r.draw_point(Point(0, 7));
    r.draw();
    assert_eq!(r.frame.len(), PIXELS);
    assert_eq!(r.frame[5 * WIDTH + 7], b'@');
    assert_eq!(r.frame[5 * WIDTH + 8], b' ');
    assert_eq!(r.frame[7], b'#');
}

#[test]
fn setting_up_the_renderer_sets_up_its_output() {
    let mut r = TextRender::new(EguiTextOutput::new(67, 95, b"kept".to_vec()));
    assert_eq!((r.output.height(), r.output.width()), (67, 95));
    assert_eq!(r.output.frame, b"kept".to_vec());
    r.draw_point(Point(3, 5));
    r.set_palette(1);
    r.setup();
    assert_eq!((r.output.height(), r.output.width()), (67, 95));
    assert_eq!(r.output.frame, b"kept".to_vec());
    assert_eq!(lit(&r), vec![(3, 5)]);
    assert_eq!(r.palette, 1);
    assert!(r.frame.is_empty());

    let mut t = TextRender::new(TerminalOutputer::new());
    t.setup();
    if t.output.is_ready() {
        assert_eq!(t.output.frame, vec![b' '; t.output.width() * t.output.height()]);
    } else {
        assert_eq!((t.output.width(), t.output.height()), (0, 0));
        assert!(t.output.frame.is_empty());
    }
}
