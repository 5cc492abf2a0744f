use ray_tracer::canvas::Canvas;
use ray_tracer::ppm::{encode, Sample};

fn grey(v: i64) -> Sample {
    Sample { r: v, g: v, b: v }
}

fn text(canvas: &Canvas<Sample>) -> String {
    String::from_utf8(encode(canvas)).unwrap()
}

#[test]
fn a_file_is_header_pixel_lines_and_an_empty_line() {
    let mut canvas = Canvas::filled(2, 2, grey(0));
    canvas.write_pixel(0, 0, Sample { r: 255, g: 0, b: 0 });
    canvas.write_pixel(1, 0, Sample { r: 0, g: 127, b: 0 });
    canvas.write_pixel(0, 1, Sample { r: 0, g: 0, b: 255 });
    canvas.write_pixel(1, 1, Sample { r: 25, g: 50, b: 100 });
    assert_eq!(text(&canvas), "P3\n2 2\n255\n255 0 0\n0 127 0\n0 0 255\n25 50 100\n\n");
}

#[test]
fn pixels_are_written_row_by_row() {
    let canvas = Canvas::render(3, 2, |x, y| Sample { r: x as i64, g: y as i64, b: 0 });
    assert_eq!(
        text(&canvas),
        "P3\n3 2\n255\n0 0 0\n1 0 0\n2 0 0\n0 1 0\n1 1 0\n2 1 0\n\n"
    );
}

#[test]
fn the_header_gives_width_before_height() {
    let canvas = Canvas::filled(12, 1, grey(7));
    let out = text(&canvas);
    assert!(out.starts_with("P3\n12 1\n255\n7 7 7\n"));
    assert_eq!(out.lines().count(), 3 + 12 + 1);
    assert!(out.ends_with("7 7 7\n\n"));
}

#[test]
fn samples_out_of_range_are_written_as_they_are() {
    let mut canvas = Canvas::filled(1, 2, grey(0));
    canvas.write_pixel(0, 0, Sample { r: -1, g: 256, b: 1020 });
    canvas.write_pixel(0, 1, Sample { r: -255, g: -10, b: 1000000 });
    assert_eq!(text(&canvas), "P3\n1 2\n255\n-1 256 1020\n-255 -10 1000000\n\n");
}

#[test]
fn the_largest_and_smallest_samples_are_written_in_full() {
    let canvas = Canvas::filled(1, 1, Sample { r: i64::MAX, g: i64::MIN, b: 0 });
    assert_eq!(
        text(&canvas),
        "P3\n1 1\n255\n9223372036854775807 -9223372036854775808 0\n\n"
    );
}

#[test]
fn numbers_have_no_leading_zeros() {
    let canvas = Canvas::filled(1, 1, Sample { r: 10, g: 100, b: 9 });
    assert_eq!(text(&canvas), "P3\n1 1\n255\n10 100 9\n\n");
    let canvas = Canvas::filled(1, 1, Sample { r: 1001, g: 90, b: 109 });
    assert_eq!(text(&canvas), "P3\n1 1\n255\n1001 90 109\n\n");
}

#[test]
fn a_canvas_without_pixels_is_a_header_and_an_empty_line() {
    assert_eq!(text(&Canvas::filled(0, 0, grey(0))), "P3\n0 0\n255\n\n");
    assert_eq!(text(&Canvas::filled(0, 3, grey(0))), "P3\n0 3\n255\n\n");
    assert_eq!(text(&Canvas::filled(4, 0, grey(0))), "P3\n4 0\n255\n\n");
}

#[test]
fn every_number_agrees_with_the_standard_formatter() {
    let values = [0i64, 1, 9, 10, 11, 99, 100, 255, 256, 12345, -1, -9, -10, -99, -100, -12345];
    for v in values {
        let canvas = Canvas::filled(1, 1, grey(v));
        assert_eq!(text(&canvas), format!("P3\n1 1\n255\n{} {} {}\n\n", v, v, v));
    }
}
