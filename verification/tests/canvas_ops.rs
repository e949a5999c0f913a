use tpaint::canvas::{rgb, Canvas, WHITE};

const BLACK: u32 = 0;

fn blank(w: i32, h: i32) -> Canvas {
    Canvas::new(w, h)
}

fn count(c: &Canvas, colour: u32) -> usize {
    c.buf.iter().filter(|v| **v == colour).count()
}

#[test]
fn rgb_packs_red_first() {
    assert_eq!(rgb(1, 2, 3), 0x0003_0201);
    assert_eq!(rgb(255, 255, 255), WHITE);
}

#[test]
fn new_canvas_is_white_and_at_least_one_pixel() {
    let c = blank(0, -5);
    assert_eq!((c.width, c.height), (1, 1));
    assert_eq!(c.buf, vec![WHITE]);
    let c = blank(3, 2);
    assert_eq!(c.buf.len(), 6);
    assert_eq!(c.px(5, 5), WHITE);
}

#[test]
fn set_and_read_pixels() {
    let mut c = blank(4, 3);
    c.set_px(1, 2, BLACK);
    c.set_px(9, 9, BLACK);
    assert_eq!(c.px(1, 2), BLACK);
    assert_eq!(c.buf[2 * 4 + 1], BLACK);
    assert_eq!(count(&c, BLACK), 1);
    assert!(c.contains(3, 2));
    assert!(!c.contains(4, 2));
    assert!(!c.contains(-1, 0));
}

#[test]
fn disc_of_radius_one_is_a_plus() {
    let mut c = blank(5, 5);
    c.disc(2, 2, 1, BLACK);
    assert_eq!(count(&c, BLACK), 5);
    assert_eq!(c.px(2, 1), BLACK);
    assert_eq!(c.px(1, 1), WHITE);
    let mut d = blank(5, 5);
    d.disc(2, 2, -1, BLACK);
    assert_eq!(count(&d, BLACK), 0);
}

#[test]
fn thick_line_reaches_both_ends() {
    let mut c = blank(10, 10);
    c.thick_line(0, 0, 9, 3, 0, BLACK);
    assert_eq!(c.px(0, 0), BLACK);
    assert_eq!(c.px(9, 3), BLACK);
    assert_eq!(count(&c, BLACK), 10, "one pixel per column");
    let mut d = blank(10, 10);
    d.thick_line(4, 8, 4, 1, 0, BLACK);
    assert_eq!(count(&d, BLACK), 8);
}

#[test]
fn rect_filled_and_outlined() {
    let mut c = blank(8, 8);
    c.rect(5, 6, 2, 1, true, 0, BLACK);
    assert_eq!(count(&c, BLACK), 4 * 6);
    let mut d = blank(8, 8);
    d.rect(1, 1, 6, 5, false, 0, BLACK);
    assert_eq!(count(&d, BLACK), 2 * 6 + 2 * 3);
    assert_eq!(d.px(3, 3), WHITE);
}

#[test]
fn flood_fill_respects_walls() {
    let mut c = blank(6, 4);
    for y in 0..4 {
        c.set_px(3, y, BLACK);
    }
    c.flood_fill(0, 0, rgb(255, 0, 0));
    assert_eq!(count(&c, rgb(255, 0, 0)), 12);
    assert_eq!(c.px(4, 0), WHITE);
    c.flood_fill(9, 9, BLACK);
    assert_eq!(count(&c, BLACK), 4, "a start outside changes nothing");
    c.flood_fill(3, 0, BLACK);
    assert_eq!(count(&c, BLACK), 4, "filling with the same colour changes nothing");
}

#[test]
fn snapshot_restore_and_resize() {
    let mut c = blank(3, 3);
    let snap = c.snapshot();
    c.clear(BLACK);
    assert_eq!(count(&c, BLACK), 9);
    c.restore(&[1, 2]);
    assert_eq!(count(&c, BLACK), 9, "a snapshot of another size is ignored");
    c.restore(&snap);
    assert_eq!(count(&c, WHITE), 9);
    c.set_px(2, 2, BLACK);
    c.resize_preserve(4, 2);
    assert_eq!((c.width, c.height), (4, 2));
    assert_eq!(count(&c, BLACK), 0);
    c.set_px(0, 1, BLACK);
    c.resize_preserve(2, 3);
    assert_eq!(c.px(0, 1), BLACK);
    assert_eq!(c.px(1, 2), WHITE);
}

#[test]
fn canvas_takes_rgb_bytes_and_writes_them_top_byte_first() {
    let mut c = tpaint::canvas::Canvas::new(1, 1);
    c.load_rgb(2, 1, &[1, 2, 3, 4, 5, 6]);
    assert_eq!((c.width, c.height), (2, 1));
    assert_eq!(c.px(0, 0), tpaint::canvas::rgb(1, 2, 3));
    assert_eq!(c.rgb_bytes(), vec![3, 2, 1, 6, 5, 4]);
}
