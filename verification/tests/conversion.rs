use webcam_viewer::yuyv::{yuv422_to_rgb24, yuv422_to_rgb32};

fn identity(y: u8, cb: u8, cr: u8) -> (u8, u8, u8) {
    (y, cb, cr)
}

#[test]
fn rgb24_layout() {
    let input = [1u8, 2, 3, 4, 5, 6, 7, 8];
    let mut out = [0u8; 12];
    yuv422_to_rgb24(&input, &mut out, identity);
    assert_eq!(out, [1, 2, 4, 3, 2, 4, 5, 6, 8, 7, 6, 8]);
}

#[test]
fn rgb24_uses_the_conversion() {
    let input = [100u8, 128, 200, 128];
    let mut out = [0u8; 6];
    yuv422_to_rgb24(&input, &mut out, |y, cb, cr| (y / 2, cb.wrapping_add(1), cr.wrapping_sub(1)));
    assert_eq!(out, [50, 129, 127, 100, 129, 127]);
}

#[test]
fn rgb24_short_output_leaves_tail() {
    let input = [1u8, 2, 3, 4, 5, 6, 7, 8];
    let mut out = [9u8; 10];
    yuv422_to_rgb24(&input, &mut out, identity);
    assert_eq!(out, [1, 2, 4, 3, 2, 4, 9, 9, 9, 9]);
}

#[test]
fn rgb24_short_input_leaves_tail() {
    let input = [1u8, 2, 3, 4, 5, 6];
    let mut out = [9u8; 12];
    yuv422_to_rgb24(&input, &mut out, identity);
    assert_eq!(out, [1, 2, 4, 3, 2, 4, 9, 9, 9, 9, 9, 9]);
}

#[test]
fn rgb24_empty() {
    let mut out: [u8; 0] = [];
    yuv422_to_rgb24(&[], &mut out, identity);
}

#[test]
fn rgb32_layout_keeps_fourth_bytes() {
    let input = [1u8, 2, 3, 4, 5, 6, 7, 8];
    let mut out = [0xAAu8; 17];
    yuv422_to_rgb32(&input, &mut out, identity);
    assert_eq!(
        out,
        [4, 2, 1, 0xAA, 4, 2, 3, 0xAA, 8, 6, 5, 0xAA, 8, 6, 7, 0xAA, 0xAA]
    );
}

#[test]
fn full_frame_sizes() {
    let input = vec![16u8; webcam_viewer::WIDTH * webcam_viewer::HEIGHT * 2];
    let mut out = vec![0u8; webcam_viewer::WIDTH * webcam_viewer::HEIGHT * 3];
    yuv422_to_rgb24(&input, &mut out, |y, _, _| (y, y, y));
    assert!(out.iter().all(|&b| b == 16));
}

use webcam_viewer::yuyv::{rgb24_sizes_match, rgb32_sizes_match};

fn colour(y: u8, cb: u8, cr: u8) -> (u8, u8, u8) {
    (y ^ cb, cb.wrapping_mul(3), cr.wrapping_add(y))
}

#[test]
fn frame_sizes_rgb24() {
    assert!(rgb24_sizes_match(4, 6));
    assert!(rgb24_sizes_match(2, 3));
    assert!(rgb24_sizes_match(0, 0));
    assert!(!rgb24_sizes_match(4, 8));
    assert!(!rgb24_sizes_match(3, 4));
    assert!(rgb24_sizes_match(640 * 480 * 2, 640 * 480 * 3));
    assert!(!rgb24_sizes_match(usize::MAX, usize::MAX));
}

#[test]
fn frame_sizes_rgb32() {
    assert!(rgb32_sizes_match(4, 8));
    assert!(rgb32_sizes_match(0, 0));
    assert!(!rgb32_sizes_match(4, 6));
    assert!(!rgb32_sizes_match(usize::MAX, usize::MAX - 1));
}

#[test]
fn joined_frames_convert_as_parts() {
    let a: Vec<u8> = (0u8..16).collect();
    let b: Vec<u8> = (100u8..108).collect();
    let mut oa = vec![0u8; 24];
    let mut ob = vec![0u8; 12];
    yuv422_to_rgb24(&a, &mut oa, colour);
    yuv422_to_rgb24(&b, &mut ob, colour);
    let joined: Vec<u8> = a.iter().chain(b.iter()).copied().collect();
    let mut o = vec![7u8; 36];
    yuv422_to_rgb24(&joined, &mut o, colour);
    let expected: Vec<u8> = oa.iter().chain(ob.iter()).copied().collect();
    assert_eq!(o, expected);
}

#[test]
fn rgb32_reverses_rgb24_pixels() {
    let input: Vec<u8> = (10u8..30).collect();
    let mut o24 = vec![0u8; 30];
    let mut o32 = vec![0u8; 40];
    yuv422_to_rgb24(&input, &mut o24, colour);
    yuv422_to_rgb32(&input, &mut o32, colour);
    for p in 0..input.len() / 2 {
        assert_eq!(o32[4 * p], o24[3 * p + 2]);
        assert_eq!(o32[4 * p + 1], o24[3 * p + 1]);
        assert_eq!(o32[4 * p + 2], o24[3 * p]);
    }
}
