use ray_tracer_challenge::{Canvas, Color};

fn color(red: f64, green: f64, blue: f64) -> Color {
    Color { red: red.to_bits(), green: green.to_bits(), blue: blue.to_bits() }
}

fn close(a: u64, b: u64) -> bool {
    (f64::from_bits(a) - f64::from_bits(b)).abs() < 0.0001
}

fn same_color(a: Color, b: Color) -> bool {
    close(a.red, b.red) && close(a.green, b.green) && close(a.blue, b.blue)
}

#[test]
fn canvas_creation() {
    let c = Canvas::new(10, 20);

    assert_eq!(c.width, 10);
    assert_eq!(c.height, 20);
    for x in 0..10 {
        for y in 0..20 {
            assert!(same_color(c.pixel_at(x, y), color(0.0, 0.0, 0.0)));
        }
    }
}

#[test]
fn write_pixel() {
    let mut c = Canvas::new(10, 20);
    let red = color(0.0, 0.0, 0.0);

    c.write_pixel(2, 3, red);

    assert!(same_color(c.pixel_at(2, 3), red));
}

#[test]
fn to_ppm_file_1() {
    let c = Canvas::new(5, 3);
    let buffer = c.to_ppm();
    let lines = buffer.split("\n").collect::<Vec<_>>();
    assert_eq!(lines[0], "P3");
    assert_eq!(lines[1], "5 3");
    assert_eq!(lines[2], "255");
}

#[test]
fn to_ppm_file_2() {
    let mut c = Canvas::new(5, 3);
    let c1 = color(1.5, 0.0, 0.0);
    let c2 = color(0.0, 0.5, 0.0);
    let c3 = color(-0.5, 0.0, 1.0);
    c.write_pixel(0, 0, c1);
    c.write_pixel(2, 1, c2);
    c.write_pixel(4, 2, c3);
    let buffer = c.to_ppm();
    let lines = buffer.split("\n").collect::<Vec<_>>();
    assert_eq!(lines[3], "255 0 0 0 0 0 0 0 0 0 0 0 0 0 0");
    assert_eq!(lines[4], "0 0 0 0 0 0 0 128 0 0 0 0 0 0 0");
    assert_eq!(lines[5], "0 0 0 0 0 0 0 0 0 0 0 0 0 0 255");
}

#[test]
fn ppm_not_over_70_chars() {
    let mut c = Canvas::new(10, 2);
    let color = color(1.0, 0.8, 0.6);
    for x in 0..10 {
        for y in 0..2 {
            c.write_pixel(x, y, color)
        }
    }
    let buffer = c.to_ppm();
    let lines = buffer.split("\n").collect::<Vec<_>>();
    assert_eq!(
        lines[3],
        "255 204 153 255 204 153 255 204 153 255 204 153 255 204 153 255 204"
    );
    assert_eq!(
        lines[4],
        "153 255 204 153 255 204 153 255 204 153 255 204 153"
    );
    assert_eq!(
        lines[5],
        "255 204 153 255 204 153 255 204 153 255 204 153 255 204 153 255 204"
    );
    assert_eq!(
        lines[6],
        "153 255 204 153 255 204 153 255 204 153 255 204 153"
    );
}

#[test]
fn fresh_canvas_is_black_bit_for_bit() {
    for (w, h) in [(0usize, 0usize), (1, 1), (3, 7), (16, 2)] {
        let c = Canvas::new(w, h);
        assert_eq!(c.pixels.len(), w * h);
        for y in 0..h {
            for x in 0..w {
                let p = c.pixel_at(x, y);
                assert_eq!((p.red, p.green, p.blue), (0, 0, 0));
            }
        }
    }
}

#[test]
fn write_then_read_gives_the_color_and_touches_nothing_else() {
    let mut c = Canvas::new(4, 3);
    for y in 0..3 {
        for x in 0..4 {
            c.write_pixel(x, y, color(x as f64, y as f64, 0.25));
        }
    }
    let v = color(-7.5, 1e300, f64::MIN_POSITIVE);
    c.write_pixel(3, 1, v);
    for y in 0..3 {
        for x in 0..4 {
            let p = c.pixel_at(x, y);
            let want = if (x, y) == (3, 1) { v } else { color(x as f64, y as f64, 0.25) };
            assert_eq!((p.red, p.green, p.blue), (want.red, want.green, want.blue));
        }
    }
    assert_eq!(c.width, 4);
    assert_eq!(c.height, 3);
    assert_eq!(c.pixels.len(), 12);
}

#[test]
fn pixel_is_stored_row_major() {
    let mut c = Canvas::new(5, 4);
    let v = color(0.1, 0.2, 0.3);
    c.write_pixel(2, 3, v);
    assert_eq!(c.pixels[2 + 3 * 5].green, v.green);
}

#[test]
fn write_overwrites_without_blending() {
    let mut c = Canvas::new(2, 2);
    c.write_pixel(1, 1, color(0.9, 0.9, 0.9));
    c.write_pixel(1, 1, color(0.1, 0.0, 0.0));
    let p = c.pixel_at(1, 1);
    assert_eq!(f64::from_bits(p.red), 0.1);
    assert_eq!(f64::from_bits(p.green), 0.0);
}

#[test]
fn encodes_a_small_canvas_exactly() {
    let mut c = Canvas::new(2, 2);
    c.write_pixel(0, 0, color(1.0, 0.5, 0.25));
    c.write_pixel(1, 1, color(0.999, 0.004, 2.0));
    assert_eq!(c.to_ppm(), "P3\n2 2\n255\n255 128 64 0 0 0\n0 0 0 255 1 255\n\n");
}

#[test]
fn zero_width_canvas_has_no_pixel_lines() {
    assert_eq!(Canvas::new(0, 3).to_ppm(), "P3\n0 3\n255\n\n");
}

#[test]
fn zero_height_canvas_has_no_pixel_lines() {
    assert_eq!(Canvas::new(4, 0).to_ppm(), "P3\n4 0\n255\n\n");
}

#[test]
fn empty_canvas_has_no_pixel_lines() {
    assert_eq!(Canvas::new(0, 0).to_ppm(), "P3\n0 0\n255\n\n");
}

#[test]
fn header_names_the_size() {
    for (w, h) in [(1usize, 1usize), (10, 2), (123, 4), (7, 1000)] {
        let text = Canvas::new(w, h).to_ppm();
        let lines = text.split('\n').collect::<Vec<_>>();
        assert_eq!(lines[0], "P3");
        assert_eq!(lines[1], format!("{} {}", w, h));
        assert_eq!(lines[2], "255");
    }
}

fn speckled(width: usize, height: usize) -> Canvas {
    let mut c = Canvas::new(width, height);
    let mut seed: u64 = 0x9E37_79B9_7F4A_7C15;
    for y in 0..height {
        for x in 0..width {
            let mut channel = [0.0f64; 3];
            for slot in channel.iter_mut() {
                seed = seed.wrapping_mul(6364136223846793005).wrapping_add(1442695040888963407);
                *slot = ((seed >> 40) % 1400) as f64 / 1000.0 - 0.2;
            }
            c.write_pixel(x, y, color(channel[0], channel[1], channel[2]));
        }
    }
    c
}

#[test]
fn no_pixel_line_is_longer_than_70() {
    for width in [1usize, 5, 6, 17, 18, 23, 24, 40, 100] {
        let text = speckled(width, 3).to_ppm();
        for line in text.split('\n').skip(3) {
            assert!(line.len() <= 70, "{:?}", line);
        }
    }
}

#[test]
fn no_pixel_line_is_empty() {
    for width in [1usize, 5, 17, 18, 23, 24, 40, 100] {
        let text = speckled(width, 4).to_ppm();
        let lines = text.split('\n').collect::<Vec<_>>();
        let n = lines.len();
        assert!(n >= 3 + 4 + 2);
        for line in &lines[3..n - 2] {
            assert!(!line.is_empty());
        }
    }
}

#[test]
fn blank_line_ends_the_text_once() {
    for (w, h) in [(0usize, 0usize), (0, 2), (3, 0), (5, 3), (30, 2)] {
        let text = speckled(w, h).to_ppm();
        assert!(text.ends_with("\n\n"));
        assert!(!text.ends_with("\n\n\n"));
        assert_eq!(text.matches("\n\n").count(), 1);
    }
}

#[test]
fn rows_never_share_a_line() {
    let text = speckled(5, 6).to_ppm();
    let lines = text.split('\n').collect::<Vec<_>>();
    // 15 samples of at most three digits fit one line, so each row is one line.
    assert_eq!(lines.len(), 3 + 6 + 2);
    for line in &lines[3..9] {
        assert_eq!(line.split(' ').count(), 15);
    }
}

#[test]
fn wrapped_lines_hold_the_row_in_order() {
    let c = speckled(40, 2);
    let text = c.to_ppm();
    let lines = text.split('\n').collect::<Vec<_>>();
    let samples = lines[3..lines.len() - 2]
        .iter()
        .flat_map(|l| l.split(' '))
        .map(|t| t.parse::<u8>().unwrap())
        .collect::<Vec<_>>();
    let mut want = Vec::new();
    for y in 0..2 {
        for x in 0..40 {
            let p = c.pixel_at(x, y);
            for bits in [p.red, p.green, p.blue] {
                want.push((f64::from_bits(bits).clamp(0.0, 1.0) * 256.0) as u8);
            }
        }
    }
    assert_eq!(samples, want);
}

#[test]
fn a_line_breaks_only_where_the_next_token_does_not_fit() {
    let text = speckled(100, 1).to_ppm();
    let lines = text.split('\n').collect::<Vec<_>>();
    let row = &lines[3..lines.len() - 2];
    for pair in row.windows(2) {
        let next = pair[1].split(' ').next().unwrap();
        assert!(pair[0].len() + 1 + next.len() + 1 > 70);
    }
}
