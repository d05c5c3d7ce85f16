use numalgo::image_blur;

fn raster_from_channels(c0: &[u8], c1: &[u8], c2: &[u8], c3: &[u8]) -> Vec<u8> {
    let mut out = Vec::new();
    for i in 0..c0.len() {
        out.push(c0[i]);
        out.push(c1[i]);
        out.push(c2[i]);
        out.push(c3[i]);
    }
    out
}

#[test]
fn blur_uniform_raster_is_unchanged() {
    let width = 4;
    let height = 5;
    let pixels = vec![7u8; width * height * 4];
    let out = image_blur(pixels.clone(), width, height);
    assert_eq!(out, pixels);
}

#[test]
fn blur_three_by_three_exact_values() {
    // One interior pixel; per channel the nine samples are chosen so the
    // truncating mean is easy to check by hand. Channel 0 sums to 17,
    // so floor division yields 1, not 2.
    let c0 = [2, 2, 2, 2, 1, 2, 2, 2, 2];
    let c1 = [9, 9, 9, 9, 9, 9, 9, 9, 9];
    let c2 = [0, 1, 2, 3, 4, 5, 6, 7, 8];
    let c3 = [255, 255, 255, 255, 255, 255, 255, 255, 255];
    let pixels = raster_from_channels(&c0, &c1, &c2, &c3);
    let out = image_blur(pixels.clone(), 3, 3);
    // Border pixels are untouched.
    for p in [0usize, 1, 2, 3, 5, 6, 7, 8] {
        for c in 0..4 {
            assert_eq!(out[p * 4 + c], pixels[p * 4 + c]);
        }
    }
    // The center pixel holds the channel means.
    assert_eq!(&out[16..20], &[1, 9, 4, 255]);
}

#[test]
fn blur_border_pixels_are_copied() {
    let width = 5;
    let height = 4;
    let pixels: Vec<u8> = (0..width * height * 4).map(|i| (i * 7 % 256) as u8).collect();
    let out = image_blur(pixels.clone(), width, height);
    assert_eq!(out.len(), pixels.len());
    for y in 0..height {
        for x in 0..width {
            if x == 0 || x == width - 1 || y == 0 || y == height - 1 {
                for c in 0..4 {
                    let i = (y * width + x) * 4 + c;
                    assert_eq!(out[i], pixels[i]);
                }
            }
        }
    }
}

#[test]
fn blur_degenerate_dimensions_copy_everything() {
    let narrow: Vec<u8> = (0..12).collect();
    assert_eq!(image_blur(narrow.clone(), 1, 3), narrow);
    let flat: Vec<u8> = (100..112).collect();
    assert_eq!(image_blur(flat.clone(), 3, 1), flat);
    let tiny: Vec<u8> = (0..16).collect();
    assert_eq!(image_blur(tiny.clone(), 2, 2), tiny);
    let empty: Vec<u8> = Vec::new();
    assert_eq!(image_blur(empty.clone(), 0, 0), empty);
}
