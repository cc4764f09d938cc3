use vellum::clahe::clahe;
use vellum::gray::{Gray, Rgb8};
use vellum::morph::{close, ellipse_offsets};
use vellum::otsu::otsu;
use vellum::prep::{
    CandidateKind, Preparation, fits, is_busy_background, prepare, to_gray, upscale,
};
use vellum::tone::{autocontrast, divide, histogram, invert, mean_luminance, robust_range, threshold};

fn solid(width: usize, height: usize, value: u8) -> Rgb8 {
    Rgb8::from_raw(width, height, vec![value; width * height * 3])
}

#[test]
fn an_ellipse_kernel_matches_opencv_shape() {
    let offsets = ellipse_offsets(15);
    assert_eq!(offsets.len(), 15);
    assert_eq!(offsets[7], (0, 7));
    assert_eq!(offsets[0].1, 0);
    assert_eq!(offsets[14].1, 0);
    for pair in offsets.windows(2).take(7) {
        assert!(pair[1].1 >= pair[0].1);
    }
}

#[test]
fn a_flat_panel_is_not_busy() {
    let image = solid(64, 48, 200);
    assert!(!is_busy_background(&image));
}

#[test]
fn a_textured_background_is_busy() {
    let (w, h) = (96usize, 96usize);
    let mut data = Vec::with_capacity(w * h * 3);
    for y in 0..h {
        for x in 0..w {
            let base = ((x * 5 + y * 3) % 200) as u8;
            data.extend_from_slice(&[base, base, base]);
        }
    }
    let image = Rgb8::from_raw(w, h, data);
    assert!(is_busy_background(&image));
}

#[test]
fn closing_a_flat_image_changes_nothing() {
    let gray = to_gray(&solid(40, 30, 128));
    let closed = close(&gray, 15);
    assert!(closed.data.iter().all(|&value| value == 128));
}

#[test]
fn closing_removes_thin_dark_strokes() {
    let (w, h) = (40usize, 20usize);
    let mut gray = Gray::new(w, h);
    gray.data.fill(220);
    for y in 4..16 {
        gray.data[y * w + 20] = 10;
    }
    let closed = close(&gray, 15);
    assert!(closed.row(10)[20] > 200);
}

#[test]
fn autocontrast_stretches_a_narrow_band() {
    let mut gray = Gray::new(10, 10);
    for (index, value) in gray.data.iter_mut().enumerate() {
        *value = if index % 2 == 0 { 100 } else { 140 };
    }
    autocontrast(&mut gray, 1);
    assert_eq!(gray.data.iter().copied().min(), Some(0));
    assert_eq!(gray.data.iter().copied().max(), Some(255));
}

#[test]
fn otsu_splits_a_two_peak_histogram() {
    let mut gray = Gray::new(20, 20);
    for (index, value) in gray.data.iter_mut().enumerate() {
        *value = if index % 2 == 0 { 30 } else { 220 };
    }
    let cut = otsu(&gray);
    assert!((30..220).contains(&cut), "threshold landed at {cut}");
}

#[test]
fn a_dark_theme_is_inverted_before_recognition() {
    let mut dark = solid(32, 32, 20);
    for pixel in dark.data.chunks_exact_mut(3).take(16) {
        pixel.copy_from_slice(&[200, 200, 200]);
    }
    let prepared = prepare(&dark, 1000);
    let mean = mean_luminance(&to_gray(&prepared));
    assert!(!mean.below(128), "expected a light background");
    assert!(mean.total > 128 * mean.count);
}

#[test]
fn upscaling_keeps_the_aspect_ratio() {
    let gray = to_gray(&solid(20, 10, 90));
    let bigger = upscale(&gray, 3000);
    assert_eq!((bigger.width, bigger.height), (60, 30));
    assert!(bigger.data.iter().all(|&v| v.abs_diff(90) <= 1));
}

#[test]
fn isoluminant_text_asks_for_a_colour_candidate() {
    let (width, height) = (80usize, 48usize);
    let background = [35u8, 105, 170];
    let foreground = [255u8, 25, 0];
    let mut data = Vec::with_capacity(width * height * 3);
    for y in 0..height {
        for x in 0..width {
            let pixel = if (16..64).contains(&x) && (12..36).contains(&y) {
                foreground
            } else {
                background
            };
            data.extend_from_slice(&pixel);
        }
    }
    let image = Rgb8::from_raw(width, height, data);
    assert_eq!(robust_range(&to_gray(&image)), 0);
    let plan = Preparation::new(&image, 1000);
    assert!(plan.kinds().contains(&CandidateKind::ColorContrast));
}

#[test]
fn low_contrast_scenes_request_a_local_candidate() {
    let (width, height) = (96usize, 64usize);
    let mut image = solid(width, height, 220);
    for y in 18..46 {
        for x in 20..76 {
            let base = (y * width + x) * 3;
            image.data[base..base + 3].copy_from_slice(&[190, 190, 190]);
        }
    }
    let plan = Preparation::new(&image, 1000);
    assert!(plan.kinds().contains(&CandidateKind::LocalContrast));
    let local = plan.render(CandidateKind::LocalContrast, &to_gray(&image));
    assert!(robust_range(&to_gray(&local)) > robust_range(&to_gray(&image)));
}

#[test]
fn busy_scenes_offer_the_other_text_polarity() {
    let (width, height) = (96usize, 72usize);
    let mut data = Vec::with_capacity(width * height * 3);
    for y in 0..height {
        for x in 0..width {
            let value = ((x * 5 + y * 7) % 180 + 35) as u8;
            data.extend_from_slice(&[value, value.saturating_add(8), value]);
        }
    }
    let image = Rgb8::from_raw(width, height, data);
    let plan = Preparation::new(&image, 1000);
    assert!(plan.kinds().contains(&CandidateKind::OppositePolarity));
}

#[test]
fn clahe_handles_tiny_uniform_images_without_seams() {
    let gray = Gray { width: 2, height: 2, data: vec![120; 4] };
    let enhanced = clahe(&gray);
    assert_eq!((enhanced.width, enhanced.height), (2, 2));
    assert!(enhanced.data.windows(2).all(|pair| pair[0] == pair[1]));
}

#[test]
fn clahe_preserves_mirrored_image_edges() {
    let axis = [
        10u8, 20, 40, 60, 80, 100, 120, 140, 140, 120, 100, 80, 60, 40, 20, 10,
    ];
    let mut gray = Gray::new(axis.len(), axis.len());
    for y in 0..gray.height {
        for x in 0..gray.width {
            gray.set(x, y, ((u16::from(axis[x]) + u16::from(axis[y])) / 2) as u8);
        }
    }
    let enhanced = clahe(&gray);
    for y in 0..enhanced.height {
        for x in 0..enhanced.width {
            assert_eq!(
                enhanced.row(y)[x],
                enhanced.row(y)[enhanced.width - 1 - x],
                "horizontal symmetry at ({x}, {y})"
            );
            assert_eq!(
                enhanced.row(y)[x],
                enhanced.row(enhanced.height - 1 - y)[x],
                "vertical symmetry at ({x}, {y})"
            );
        }
    }
}

#[test]
fn preparing_an_empty_image_is_a_no_op() {
    let empty = Rgb8::new(0, 0);
    let prepared = prepare(&empty, 3000);
    assert!(prepared.is_empty());
}

#[test]
fn inverting_twice_changes_nothing() {
    let mut gray = Gray { width: 3, height: 1, data: vec![0, 100, 255] };
    invert(&mut gray);
    assert_eq!(gray.data, vec![255, 155, 0]);
    invert(&mut gray);
    assert_eq!(gray.data, vec![0, 100, 255]);
}

#[test]
fn shades_are_counted_cut_and_divided() {
    let mut gray = Gray { width: 4, height: 1, data: vec![10, 10, 200, 40] };
    let counts = histogram(&gray);
    assert_eq!((counts[10], counts[200], counts[0]), (2, 1, 0));
    let half = divide(&gray, &Gray { width: 4, height: 1, data: vec![20, 10, 100, 0] });
    assert_eq!(half.data[1], 255);
    assert_eq!(half.data[2], 255);
    threshold(&mut gray, 40);
    assert_eq!(gray.data, vec![0, 0, 255, 0]);
}

#[test]
fn a_dark_theme_is_judged_as_it_is_prepared() {
    let mut data = vec![20u8; 64 * 64 * 3];
    for y in 0..64 {
        for c in 0..3 {
            data[(y * 64 + 32) * 3 + c] = 200;
        }
    }
    assert!(!is_busy_background(&Rgb8::from_raw(64, 64, data)));
}

#[test]
fn sizes_are_scaled_in_single_precision() {
    assert_eq!(upscale(&Gray { width: 85, height: 1, data: vec![9; 85] }, 1300).width, 110);
    for factor in [1001u32, 1100, 1300, 1700, 2300, 2500, 3000] {
        for width in (1..400usize).step_by(7) {
            let gray = Gray { width, height: 1, data: vec![9; width] };
            let wanted = (width as f32 * (factor as f32 / 1000.0)).round() as usize;
            let out = upscale(&gray, factor);
            assert_eq!(out.width, wanted.max(1));
            assert!(out.data.iter().all(|shade| *shade == 9));
        }
    }
}

#[test]
fn the_longest_sides_cannot_be_resampled() {
    assert!(!fits(33_554_435, 1, 2000));
    assert!(!fits(8_388_609, 1, 1001));
    assert!(!fits(4_194_305, 1, 2000));
    assert!(fits(4_194_304, 1, 2000));
    assert!(fits(8_388_609, 1, 1000));
}

#[test]
fn an_enlarged_picture_shows_the_same_parts() {
    let (width, height) = (40usize, 30usize);
    let shade = |x: usize, y: usize| match (x < 20, y < 15) {
        (true, true) => 10u8,
        (false, true) => 90,
        (true, false) => 170,
        (false, false) => 250,
    };
    let data = (0..width * height).map(|i| shade(i % width, i / width)).collect();
    let out = upscale(&Gray { width, height, data }, 3000);
    assert_eq!((out.width, out.height), (120, 90));
    let near = |t: usize, middle: usize| t.abs_diff(middle) < 10;
    for y in 0..out.height {
        for x in 0..out.width {
            if !near(x, 60) && !near(y, 45) {
                assert_eq!(out.data[y * out.width + x], shade(x / 3, y / 3), "{x} {y}");
            }
        }
    }
    assert_ne!(out.data[out.width * 10 + 60], out.data[out.width * 10 + 20]);
}
