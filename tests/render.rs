use bitwise_challenge::render::Output;

const RED: u32 = 0xff00_00ff;
const GREEN: u32 = 0xff00_ff00;
const BLUE: u32 = 0xffff_0000;

fn paint(width: usize, height: usize, rects: &[(i32, i32, u32, u32, [u8; 3])]) -> Vec<u32> {
    let mut out = Output::new(width, height);
    for &(x, y, w, h, c) in rects {
        out.rect(x, y, w, h, c);
    }
    let mut buf = vec![0u32; width * height];
    out.write_to(&mut buf);
    buf
}

#[test]
fn rect_at_origin_skips_row_and_column_zero() {
    let buf = paint(4, 4, &[(0, 0, 4, 4, [255, 0, 0])]);
    for y in 0..4 {
        for x in 0..4 {
            let expected = if x == 0 || y == 0 { 0 } else { RED };
            assert_eq!(buf[y * 4 + x], expected, "pixel ({}, {})", x, y);
        }
    }
}

#[test]
fn rect_inside_writes_exact_opaque_color() {
    let buf = paint(5, 5, &[(1, 2, 2, 2, [1, 2, 3])]);
    for y in 0..5 {
        for x in 0..5 {
            let inside = (1..3).contains(&x) && (2..4).contains(&y);
            let expected = if inside { 0xff03_0201 } else { 0 };
            assert_eq!(buf[y * 5 + x], expected, "pixel ({}, {})", x, y);
        }
    }
}

#[test]
fn later_rect_overdraws_earlier() {
    let buf = paint(4, 4, &[(1, 1, 2, 2, [255, 0, 0]), (2, 2, 2, 2, [0, 255, 0])]);
    assert_eq!(buf[1 * 4 + 1], RED);
    assert_eq!(buf[1 * 4 + 2], RED);
    assert_eq!(buf[2 * 4 + 1], RED);
    assert_eq!(buf[2 * 4 + 2], GREEN);
    assert_eq!(buf[3 * 4 + 3], GREEN);
}

#[test]
fn rect_partly_off_buffer_is_clipped() {
    let buf = paint(3, 3, &[(-5, -5, 7, 8, [0, 0, 255]), (2, 2, 100, 100, [255, 0, 0])]);
    assert_eq!(buf, vec![0, 0, 0, 0, BLUE, 0, 0, BLUE, RED]);
}

#[test]
fn empty_and_far_rects_change_nothing() {
    let buf = paint(3, 3, &[(1, 1, 0, 5, [9, 9, 9]), (10, 10, 3, 3, [9, 9, 9]), (-9, 1, 3, 3, [9, 9, 9])]);
    assert_eq!(buf, vec![0; 9]);
}

#[test]
fn output_reports_its_size() {
    let out = Output::new(7, 9);
    assert_eq!(out.width(), 7);
    assert_eq!(out.height(), 9);
}
