use detile::{quantize_image, RgbaBuffer};

fn gradient(w: u32, h: u32) -> RgbaBuffer {
    let mut img = RgbaBuffer::new(w, h);
    for y in 0..h {
        for x in 0..w {
            img.put_pixel(x, y, [(x * 16) as u8, (y * 16) as u8, ((x + y) * 8) as u8, 255]);
        }
    }
    img
}

#[test]
fn quantize_zero_colors_is_identity() {
    let img = gradient(8, 8);
    let out = quantize_image(&img, 0);
    assert_eq!(out.data, img.data);
    assert_eq!((out.width, out.height), (8, 8));
}

#[test]
fn quantize_too_small_image_is_identity() {
    // Four pixels cannot train a 16-colour palette.
    let img = gradient(2, 2);
    let out = quantize_image(&img, 16);
    assert_eq!(out.data, img.data);
}

#[test]
fn quantize_limits_palette() {
    let img = gradient(16, 16);
    let out = quantize_image(&img, 4);
    assert_eq!((out.width, out.height), (16, 16));
    assert_eq!(out.data.len(), img.data.len());
    let mut colors: Vec<[u8; 4]> = out.data.chunks(4).map(|c| [c[0], c[1], c[2], c[3]]).collect();
    colors.sort();
    colors.dedup();
    assert!(colors.len() <= 4, "got {} colours", colors.len());
    // The palette changed the image.
    assert_ne!(out.data, img.data);
}

#[test]
fn quantize_one_color_request_uses_one() {
    let img = gradient(8, 8);
    let out = quantize_image(&img, 1);
    let mut colors: Vec<[u8; 4]> = out.data.chunks(4).map(|c| [c[0], c[1], c[2], c[3]]).collect();
    colors.sort();
    colors.dedup();
    assert_eq!(colors.len(), 1);
}

#[test]
fn quantize_one_color_needs_two_pixels() {
    // A single pixel is too little to learn from, even for one colour.
    let img = gradient(1, 1);
    assert_eq!(quantize_image(&img, 1).data, img.data);
    let two = gradient(2, 1);
    let out = quantize_image(&two, 1);
    assert_eq!(&out.data[0..4], &out.data[4..8]);
}
