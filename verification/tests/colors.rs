use ppm_canvas::canvas::Canvas;
use ppm_canvas::color::{channel_level, Color};

// Channels are fixed-point thousandths: 900 stands for 0.9.

#[test]
fn adding_colors() {
    let c1 = Color::new(900, 600, 750);
    let c2 = Color::new(700, 100, 250);
    assert_eq!(c1.add(c2), Color::new(1600, 700, 1000))
}

#[test]
fn subtracting_colors() {
    let c1 = Color::new(900, 600, 750);
    let c2 = Color::new(700, 100, 250);
    assert_eq!(c1.sub(c2), Color::new(200, 500, 500))
}

#[test]
fn multiplying_a_color_by_a_scalar() {
    let c = Color::new(200, 300, 400);
    assert_eq!(c.mul_scalar(2000), Color::new(400, 600, 800))
}

#[test]
fn multiplying_colors() {
    let c1 = Color::new(1000, 200, 400);
    let c2 = Color::new(900, 1000, 100);
    assert_eq!(c1.mul(c2), Color::new(900, 200, 40));
}

#[test]
fn creating_a_canvas() {
    let c = Canvas::new(10, 20);
    assert!(c.data.iter().all(|elt| elt == &Color::new(0, 0, 0)))
}

#[test]
fn writing_pixels_to_a_canvas() {
    let mut c = Canvas::new(10, 20);
    let red = Color::new(1000, 0, 0);
    c.write_pixel((2, 3), red);
    assert_eq!(c.pixel_at((2, 3)), &Color::new(1000, 0, 0))
}

#[test]
fn fresh_canvas_is_black_everywhere() {
    let c = Canvas::new(7, 4);
    for x in 0..7 {
        for y in 0..4 {
            assert_eq!(c.pixel_at((x, y)), &Color::black());
        }
    }
}

#[test]
fn channel_levels_are_clamped() {
    assert_eq!(channel_level(-100), 0);
    assert_eq!(channel_level(0), 0);
    assert_eq!(channel_level(1000), 255);
    assert_eq!(channel_level(2000), 255);
}

#[test]
fn channel_levels_round_to_nearest() {
    assert_eq!(channel_level(500), 128);
    assert_eq!(channel_level(800), 204);
    assert_eq!(channel_level(600), 153);
    assert_eq!(channel_level(1), 0);
    assert_eq!(channel_level(999), 255);
}

#[test]
fn negative_channels_multiply_toward_zero() {
    let c = Color::new(-500, 500, -1);
    let scaled = c.mul_scalar(1000);
    assert_eq!(scaled, Color::new(-500, 500, -1));
    let tiny = Color::new(-1999, 1999, 0).mul_scalar(1);
    assert_eq!(tiny, Color::new(-1, 1, 0));
}
