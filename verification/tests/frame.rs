use raytracer::color::Rgb;
use raytracer::frame::{frame_len, render, write_pixel, BYTES_PER_PIXEL};

#[test]
fn frame_len_is_four_bytes_per_pixel() {
    assert_eq!(BYTES_PER_PIXEL, 4);
    assert_eq!(frame_len(1920, 1080), Some(8_294_400));
    assert_eq!(frame_len(3, 2), Some(24));
    assert_eq!(frame_len(1, 1), Some(4));
}

#[test]
fn frame_len_of_an_empty_image_is_zero() {
    assert_eq!(frame_len(0, 1080), Some(0));
    assert_eq!(frame_len(1920, 0), Some(0));
    assert_eq!(frame_len(0, usize::MAX), Some(0));
}

#[test]
fn frame_len_refuses_what_cannot_be_addressed() {
    assert_eq!(frame_len(usize::MAX, 2), None);
    assert_eq!(frame_len(usize::MAX, 1), None);
    assert_eq!(frame_len(usize::MAX / 4 + 1, 1), None);
    assert_eq!(frame_len(usize::MAX / 4, 1), Some(usize::MAX / 4 * 4));
}

#[test]
fn write_pixel_stores_at_row_major_offset() {
    let mut frame = vec![0u8; 3 * 2 * 4];
    write_pixel(&mut frame, 2, 1, 3, Rgb::new(10, 20, 30));
    // offset = y * 4 * width + 4 * x = 1 * 4 * 3 + 4 * 2 = 20
    let mut expected = vec![0u8; 24];
    expected[20] = 10;
    expected[21] = 20;
    expected[22] = 30;
    expected[23] = 255;
    assert_eq!(frame, expected);
}

#[test]
fn write_pixel_at_origin() {
    let mut frame = vec![7u8; 8];
    write_pixel(&mut frame, 0, 0, 2, Rgb::new(1, 2, 3));
    assert_eq!(frame, vec![1, 2, 3, 255, 7, 7, 7, 7]);
}

#[test]
fn write_pixel_touches_nothing_else() {
    let before: Vec<u8> = (0..48).collect();
    let mut frame = before.clone();
    write_pixel(&mut frame, 1, 2, 4, Rgb::new(200, 201, 202));
    let offset = 2 * 4 * 4 + 4 * 1;
    for i in 0..48 {
        if i < offset || i >= offset + 4 {
            assert_eq!(frame[i], before[i]);
        }
    }
    assert_eq!(&frame[offset..offset + 4], &[200, 201, 202, 255]);
}

#[test]
fn write_pixel_saturates_channels() {
    let mut frame = vec![9u8; 4];
    write_pixel(&mut frame, 0, 0, 1, Rgb::new(-1, 256, 128));
    assert_eq!(frame, vec![0, 255, 128, 255]);
}

#[test]
fn write_pixel_in_a_frame_without_columns() {
    let mut frame = vec![0u8; 4];
    write_pixel(&mut frame, 0, usize::MAX, 0, Rgb::splat(5));
    assert_eq!(frame, vec![5, 5, 5, 255]);
}

#[test]
fn write_pixel_last_pixel_of_a_frame() {
    let mut frame = vec![0u8; 5 * 3 * 4];
    write_pixel(&mut frame, 4, 2, 5, Rgb::new(1, 1, 1));
    assert_eq!(&frame[56..60], &[1, 1, 1, 255]);
    assert!(frame[..56].iter().all(|b| *b == 0));
}

#[test]
fn render_fills_every_pixel() {
    let mut frame = vec![0u8; 4 * 3 * 4];
    render(&mut frame, 4, 3, |x, y| Rgb::new(x as i32, y as i32, (10 * y + x) as i32));
    for y in 0..3usize {
        for x in 0..4usize {
            let at = 4 * (y * 4 + x);
            assert_eq!(&frame[at..at + 4], &[x as u8, y as u8, (10 * y + x) as u8, 255]);
        }
    }
}

#[test]
fn render_constant_shader_gives_constant_frame() {
    let mut frame = vec![0u8; 16 * 9 * 4];
    render(&mut frame, 16, 9, |_, _| Rgb::splat(51));
    assert_eq!(frame.len(), 16 * 9 * 4);
    for pixel in frame.chunks(4) {
        assert_eq!(pixel, &[51, 51, 51, 255]);
    }
}

#[test]
fn render_alpha_is_always_opaque() {
    let mut frame = vec![0u8; 5 * 5 * 4];
    render(&mut frame, 5, 5, |x, y| Rgb::new(x as i32 - 2, 300 * y as i32, -5));
    for pixel in frame.chunks(4) {
        assert_eq!(pixel[3], 0xff);
    }
}

#[test]
fn render_overwrites_what_was_there() {
    let shade = |x: usize, y: usize| Rgb::new((x * 40) as i32, (y * 60) as i32, 7);
    let mut clean = vec![0u8; 6 * 4 * 4];
    let mut dirty: Vec<u8> = (0..6 * 4 * 4).map(|i| (i * 37 % 251) as u8).collect();
    render(&mut clean, 6, 4, shade);
    render(&mut dirty, 6, 4, shade);
    assert_eq!(clean, dirty);
}

#[test]
fn render_twice_is_byte_identical() {
    let shade = |x: usize, y: usize| Rgb::new((x * x) as i32, (x + y) as i32, (y * 9) as i32);
    let mut frame = vec![0u8; 7 * 5 * 4];
    render(&mut frame, 7, 5, shade);
    let first = frame.clone();
    render(&mut frame, 7, 5, shade);
    assert_eq!(frame, first);
}

#[test]
fn render_asks_each_pixel_once() {
    let calls = std::cell::RefCell::new(Vec::new());
    let mut frame = vec![0u8; 3 * 2 * 4];
    render(&mut frame, 3, 2, |x, y| {
        calls.borrow_mut().push((x, y));
        Rgb::splat(0)
    });
    let mut seen = calls.into_inner();
    assert_eq!(seen, vec![(0, 0), (0, 1), (1, 0), (1, 1), (2, 0), (2, 1)]);
    seen.sort();
    seen.dedup();
    assert_eq!(seen.len(), 6);
}

#[test]
fn render_empty_frames() {
    let mut frame: Vec<u8> = Vec::new();
    render(&mut frame, 0, 0, |_, _| Rgb::splat(1));
    render(&mut frame, 0, 5, |_, _| Rgb::splat(1));
    render(&mut frame, 5, 0, |_, _| Rgb::splat(1));
    assert!(frame.is_empty());
}

#[test]
fn render_single_row_and_single_column() {
    let mut row = vec![0u8; 3 * 4];
    render(&mut row, 3, 1, |x, _| Rgb::splat(x as i32 + 1));
    assert_eq!(row, vec![1, 1, 1, 255, 2, 2, 2, 255, 3, 3, 3, 255]);
    let mut column = vec![0u8; 3 * 4];
    render(&mut column, 1, 3, |_, y| Rgb::splat(y as i32 + 1));
    assert_eq!(column, vec![1, 1, 1, 255, 2, 2, 2, 255, 3, 3, 3, 255]);
}
