use visual_diff::metric::{
    color_distance, euclidean_distance, is_antialiased, measure, Distance, Metric,
};
use visual_diff::quantity::Threshold;
use visual_diff::raster::{Image, Pixel};

fn rgba(r: u8, g: u8, b: u8, a: u8) -> Pixel {
    Pixel { r, g, b, a }
}

fn threshold(value: f32) -> Threshold {
    Threshold::from_bits(value.to_bits())
}

fn as_float(distance: Distance) -> f64 {
    match distance {
        Distance::Perceptual { colour, alpha } => {
            (f32::from_bits(colour) as f64 + alpha as f64 / 2.55) / 100.0
        }
        Distance::Euclidean { squares } => (squares as f64).sqrt() / 255.0,
    }
}

fn perceptual(colour: u32, alpha: u8) -> Distance {
    Distance::Perceptual { colour, alpha }
}

fn uniform(width: u32, height: u32, pixel: Pixel) -> Vec<u8> {
    let mut data = Vec::new();
    for _ in 0..(width * height) {
        data.extend_from_slice(&[pixel.r, pixel.g, pixel.b, pixel.a]);
    }
    data
}

fn set(data: &mut [u8], width: u32, x: u32, y: u32, pixel: Pixel) {
    let offset = 4 * (y * width + x) as usize;
    data[offset..offset + 4].copy_from_slice(&[pixel.r, pixel.g, pixel.b, pixel.a]);
}

#[test]
fn test_color_distance() {
    let p1 = rgba(0, 0, 0, 255);
    let p2 = rgba(255, 255, 255, 255);
    // Black against white is about 1.0.
    assert!((as_float(color_distance(p1, p2)) - 1.0).abs() < 0.1);

    let p3 = rgba(100, 100, 100, 255);
    assert_eq!(as_float(color_distance(p3, p3)), 0.0);
}

#[test]
fn black_and_white_lie_between_two_thresholds() {
    let distance = color_distance(rgba(0, 0, 0, 255), rgba(255, 255, 255, 255));
    assert!(distance.exceeds(threshold(0.9)));
    assert!(!distance.exceeds(threshold(1.1)));
    assert!(!distance.is_close());
}

#[test]
fn identical_pixels_are_at_distance_nought() {
    for value in [0u8, 1, 17, 100, 128, 254, 255] {
        let pixel = rgba(value, 255 - value, value / 2, value);
        let distance = color_distance(pixel, pixel);
        assert_eq!(distance, perceptual(0, 0));
        assert!(!distance.exceeds(threshold(0.0)));
        assert!(distance.exceeds(threshold(-0.001)));
        assert!(distance.is_close());
    }
}

#[test]
fn colour_difference_is_what_the_metric_returns() {
    let first = rgba(234, 76, 76, 255);
    let second = rgba(76, 187, 234, 255);
    let distance = color_distance(first, second);
    let expected = delta_e::DE2000::from_rgb(&[234, 76, 76], &[76, 187, 234]);
    assert_eq!(distance, perceptual(expected.to_bits(), 0));
    let by_hand = delta_e::DE2000::new(
        lab::Lab::from_rgb(&[234, 76, 76]),
        lab::Lab::from_rgb(&[76, 187, 234]),
    );
    assert_eq!(distance, perceptual(by_hand.to_bits(), 0));
}

#[test]
fn alpha_gap_alone_gives_an_exact_distance() {
    let opaque = rgba(40, 50, 60, 255);
    let clear = rgba(40, 50, 60, 0);
    let distance = color_distance(opaque, clear);
    assert_eq!(distance, perceptual(0, 255));
    // 255 / 2.55 / 100 is exactly one.
    assert!(!distance.exceeds(threshold(1.0)));
    assert!(distance.exceeds(threshold(0.99999994)));
    let swapped = color_distance(clear, opaque);
    assert_eq!(swapped, perceptual(0, 255));

    let fifth = color_distance(rgba(1, 2, 3, 51), rgba(1, 2, 3, 0));
    assert_eq!(fifth, perceptual(0, 51));
    // 51 / 2.55 / 100 is exactly one fifth; 0.2f32 lies just above one fifth.
    assert!(!fifth.exceeds(threshold(0.2)));
    assert!(fifth.exceeds(threshold(0.19999999)));
}

#[test]
fn exceeds_agrees_with_floating_point_comparison() {
    let pairs = [
        (rgba(100, 100, 100, 255), rgba(130, 130, 130, 255)),
        (rgba(100, 100, 100, 255), rgba(255, 0, 0, 255)),
        (rgba(10, 200, 30, 255), rgba(12, 198, 33, 250)),
        (rgba(0, 0, 0, 0), rgba(255, 255, 255, 255)),
        (rgba(90, 90, 90, 128), rgba(90, 91, 90, 127)),
    ];
    let thresholds = [0.0f32, 0.01, 0.05, 0.1, 0.15, 0.5, 1.0, 1.5, 2.5, -0.5];
    for (first, second) in pairs {
        let distance = color_distance(first, second);
        let value = as_float(distance);
        for limit in thresholds {
            let wide = limit as f64;
            if (value - wide).abs() > 1e-9 {
                assert_eq!(distance.exceeds(threshold(limit)), value > wide);
            }
            if (value - wide).abs() > 1e-9 && (value - wide * 1.5).abs() > 1e-9 {
                assert_eq!(
                    distance.in_band(threshold(limit)),
                    value > wide && value < wide * 1.5
                );
            }
        }
        if (value - 0.05).abs() > 1e-9 {
            assert_eq!(distance.is_close(), value < 0.05);
        }
    }
}

#[test]
fn unordered_and_infinite_values_follow_floating_point_rules() {
    let nan = perceptual(f32::NAN.to_bits(), 10);
    assert!(!nan.exceeds(threshold(0.0)));
    assert!(!nan.exceeds(threshold(f32::NEG_INFINITY)));
    assert!(!nan.in_band(threshold(0.1)));
    assert!(!nan.is_close());

    let huge = perceptual(f32::INFINITY.to_bits(), 0);
    assert!(huge.exceeds(threshold(f32::MAX)));
    assert!(!huge.exceeds(threshold(f32::INFINITY)));
    assert!(!huge.in_band(threshold(0.1)));
    assert!(!huge.is_close());

    let small = perceptual(1.0f32.to_bits(), 0);
    assert!(!small.exceeds(threshold(f32::NAN)));
    assert!(!small.exceeds(threshold(f32::INFINITY)));
    assert!(small.exceeds(threshold(f32::NEG_INFINITY)));
    assert!(small.exceeds(threshold(-0.0)));
    assert!(!Distance::zero(Metric::Perceptual).exceeds(threshold(-0.0)));
    assert!(Distance::zero(Metric::Perceptual).exceeds(threshold(-1.0e-45)));
}

#[test]
fn tiny_and_huge_numbers_are_compared_exactly() {
    // One step of 2^-149 of colour difference is more than nothing.
    let speck = perceptual(1, 0);
    assert!(speck.exceeds(threshold(0.0)));
    assert!(!speck.exceeds(threshold(f32::from_bits(1))));
    assert!(speck.is_close());
    // An alpha gap of one outweighs any colour difference that small.
    let gap = perceptual(1, 1);
    assert!(gap.exceeds(threshold(1.0 / 255.0 - 1.0e-6)));
    assert!(!gap.exceeds(threshold(1.0 / 255.0 + 1.0e-6)));
    // A colour difference of 100 is the distance one.
    let full = perceptual(100.0f32.to_bits(), 0);
    assert!(!full.exceeds(threshold(1.0)));
    assert!(full.exceeds(threshold(0.99999994)));
    // The largest finite colour difference exceeds the largest threshold
    // only by a hundredth of itself, which is not enough.
    let largest = perceptual(f32::MAX.to_bits(), 255);
    assert!(!largest.exceeds(threshold(f32::MAX)));
    assert!(largest.exceeds(threshold(1.0e36)));
}

#[test]
fn a_negative_colour_difference_is_weighed_with_its_sign() {
    let distance = perceptual((-5.0f32).to_bits(), 255);
    // (-5 + 100) / 100 = 0.95
    assert!(distance.exceeds(threshold(0.9)));
    assert!(!distance.exceeds(threshold(0.96)));
    let below = perceptual((-5.0f32).to_bits(), 0);
    assert!(!below.exceeds(threshold(0.0)));
    assert!(below.exceeds(threshold(-0.06)));
    assert!(!below.exceeds(threshold(-0.04)));
    assert!(below.is_close());
}

#[test]
fn band_is_open_at_both_ends() {
    // The distance is exactly 0.3: an alpha gap of 51 is 0.2, and a colour
    // difference of 10 is 0.1.
    let distance = perceptual(10.0f32.to_bits(), 51);
    assert!(distance.in_band(threshold(0.25)));
    assert!(!distance.in_band(threshold(0.5)));
    assert!(!distance.in_band(threshold(0.125)));
    // 0.3 is one and a half times 0.2, up to the rounding of 0.2f32,
    // which lies above one fifth, so 0.3 is inside the band of 0.2f32.
    assert!(distance.in_band(threshold(0.2)));
    let exact = perceptual(75.0f32.to_bits(), 0);
    // 0.75 is exactly one and a half times 0.5: outside.
    assert!(!exact.in_band(threshold(0.5)));
    assert!(exact.exceeds(threshold(0.5)));
    // 0.5 is exactly the threshold: outside.
    let level = perceptual(50.0f32.to_bits(), 0);
    assert!(!level.in_band(threshold(0.5)));
}

#[test]
fn close_limit_is_one_twentieth() {
    let under = perceptual(4.9999995f32.to_bits(), 0);
    let level = perceptual(5.0f32.to_bits(), 0);
    let over = perceptual(5.0000005f32.to_bits(), 0);
    assert!(under.is_close());
    assert!(!level.is_close());
    assert!(!over.is_close());
}

#[test]
fn shifted_neighbour_is_found_on_each_side() {
    let gray = rgba(100, 100, 100, 255);
    let light = rgba(130, 130, 130, 255);
    let spots = [(4u32, 5u32), (6, 5), (5, 4), (5, 6)];
    for (x, y) in spots {
        let mut data_a = uniform(10, 10, gray);
        set(&mut data_a, 10, x, y, light);
        let mut data_b = uniform(10, 10, gray);
        set(&mut data_b, 10, 5, 5, light);
        let img_a = Image::from_raw(10, 10, data_a).unwrap();
        let img_b = Image::from_raw(10, 10, data_b).unwrap();
        assert!(is_antialiased(Metric::Perceptual, 5, 5, 10, 10, &img_a, &img_b));
    }
}

#[test]
fn diagonal_neighbour_is_not_looked_at() {
    let gray = rgba(100, 100, 100, 255);
    let light = rgba(130, 130, 130, 255);
    let mut data_a = uniform(10, 10, gray);
    set(&mut data_a, 10, 4, 4, light);
    let mut data_b = uniform(10, 10, gray);
    set(&mut data_b, 10, 5, 5, light);
    let img_a = Image::from_raw(10, 10, data_a).unwrap();
    let img_b = Image::from_raw(10, 10, data_b).unwrap();
    assert!(!is_antialiased(Metric::Perceptual, 5, 5, 10, 10, &img_a, &img_b));
}

#[test]
fn neighbours_at_the_corner_stay_on_the_canvas() {
    let gray = rgba(100, 100, 100, 255);
    let light = rgba(130, 130, 130, 255);
    // At the top-left corner only the right and lower neighbours count:
    // the corner is not its own neighbour.
    let mut data_a = uniform(3, 3, gray);
    set(&mut data_a, 3, 0, 0, light);
    let mut data_b = uniform(3, 3, gray);
    set(&mut data_b, 3, 0, 0, light);
    let img_a = Image::from_raw(3, 3, data_a).unwrap();
    let img_b = Image::from_raw(3, 3, data_b).unwrap();
    assert!(!is_antialiased(Metric::Perceptual, 0, 0, 3, 3, &img_a, &img_b));
    // At the bottom-right corner only the left and upper neighbours count.
    let mut corner_a = uniform(3, 3, gray);
    set(&mut corner_a, 3, 2, 2, light);
    let mut corner_b = uniform(3, 3, gray);
    set(&mut corner_b, 3, 2, 2, light);
    let img_a = Image::from_raw(3, 3, corner_a).unwrap();
    let img_b = Image::from_raw(3, 3, corner_b).unwrap();
    assert!(!is_antialiased(Metric::Perceptual, 2, 2, 3, 3, &img_a, &img_b));
}

#[test]
fn single_pixel_has_no_neighbour() {
    let img_a = Image::from_raw(1, 1, vec![100, 100, 100, 255]).unwrap();
    let img_b = Image::from_raw(1, 1, vec![100, 100, 100, 245]).unwrap();
    assert!(color_distance(img_b.get_pixel(0, 0), img_a.get_pixel(0, 0)).is_close());
    assert!(!is_antialiased(Metric::Perceptual, 0, 0, 1, 1, &img_a, &img_b));
    assert!(!is_antialiased(Metric::Euclidean, 0, 0, 1, 1, &img_a, &img_b));
    assert!(!is_antialiased(Metric::Perceptual, 0, 0, 1, 1, &img_a, &img_a));
}

#[test]
fn first_column_and_row_look_right_and_down_only() {
    let gray = rgba(100, 100, 100, 255);
    let light = rgba(130, 130, 130, 255);
    let mut data_b = uniform(4, 4, gray);
    set(&mut data_b, 4, 0, 2, light);
    set(&mut data_b, 4, 2, 0, light);
    let img_b = Image::from_raw(4, 4, data_b).unwrap();
    // The same light pixels in the first image alone excuse nothing.
    let mut same = uniform(4, 4, gray);
    set(&mut same, 4, 0, 2, light);
    set(&mut same, 4, 2, 0, light);
    let same = Image::from_raw(4, 4, same).unwrap();
    assert!(!is_antialiased(Metric::Perceptual, 0, 2, 4, 4, &same, &img_b));
    assert!(!is_antialiased(Metric::Perceptual, 2, 0, 4, 4, &same, &img_b));
    // A light pixel to the right of the first column, or below the
    // first row, does.
    let mut right = uniform(4, 4, gray);
    set(&mut right, 4, 1, 2, light);
    let right = Image::from_raw(4, 4, right).unwrap();
    assert!(is_antialiased(Metric::Perceptual, 0, 2, 4, 4, &right, &img_b));
    let mut below = uniform(4, 4, gray);
    set(&mut below, 4, 2, 1, light);
    let below = Image::from_raw(4, 4, below).unwrap();
    assert!(is_antialiased(Metric::Perceptual, 2, 0, 4, 4, &below, &img_b));
    // So do the neighbours along the edge itself.
    let mut above = uniform(4, 4, gray);
    set(&mut above, 4, 0, 1, light);
    let above = Image::from_raw(4, 4, above).unwrap();
    assert!(is_antialiased(Metric::Perceptual, 0, 2, 4, 4, &above, &img_b));
}

#[test]
fn pixel_beyond_the_second_image_is_transparent_black() {
    let gray = rgba(100, 100, 100, 255);
    let large = Image::from_raw(3, 3, uniform(3, 3, gray)).unwrap();
    let small = Image::from_raw(2, 2, uniform(2, 2, gray)).unwrap();
    // The second image has no pixel at (2, 2); transparent black is far
    // from every gray neighbour in the first.
    assert!(!is_antialiased(Metric::Perceptual, 2, 2, 3, 3, &large, &small));
    // The first image has no pixel at (2, 1) or (1, 2), but its pixel
    // at (0, 1) is the same gray as the second image's at (1, 1).
    assert!(is_antialiased(Metric::Perceptual, 1, 1, 3, 3, &small, &large));
    // Transparent black in the second image meets transparent black
    // beyond the first.
    assert!(is_antialiased(Metric::Perceptual, 2, 2, 3, 3, &small, &small));
}

#[test]
fn euclidean_distance_of_black_and_white() {
    let black = rgba(0, 0, 0, 255);
    let white = rgba(255, 255, 255, 255);
    let distance = euclidean_distance(black, white);
    assert_eq!(distance, Distance::Euclidean { squares: 3 * 255 * 255 });
    assert!((as_float(distance) - 1.732).abs() < 0.01);
    assert!(distance.exceeds(threshold(1.73)));
    assert!(!distance.exceeds(threshold(1.74)));
    let same = euclidean_distance(white, white);
    assert_eq!(same, Distance::Euclidean { squares: 0 });
    assert_eq!(as_float(same), 0.0);
}

#[test]
fn euclidean_distance_spans_nought_to_two() {
    let clear_black = rgba(0, 0, 0, 0);
    let white = rgba(255, 255, 255, 255);
    let distance = euclidean_distance(clear_black, white);
    assert_eq!(distance, Distance::Euclidean { squares: 4 * 255 * 255 });
    assert_eq!(euclidean_distance(white, clear_black), distance);
    // The distance is exactly two.
    assert!(!distance.exceeds(threshold(2.0)));
    assert!(distance.exceeds(threshold(1.9999999)));
    assert!(!distance.in_band(threshold(2.0)));
    assert!(distance.in_band(threshold(1.5)));
    // Two is exactly one and a half times four thirds; the binary32
    // number next to four thirds lies just above it.
    assert!(distance.in_band(threshold(4.0 / 3.0)));
    assert!(!distance.in_band(threshold(1.3333)));
    assert!(!distance.is_close());
}

#[test]
fn euclidean_distance_adds_the_squares_of_all_channels() {
    let first = rgba(10, 20, 30, 40);
    let second = rgba(13, 16, 30, 52);
    let distance = euclidean_distance(first, second);
    assert_eq!(distance, Distance::Euclidean { squares: 9 + 16 + 0 + 144 });
    assert_eq!(measure(Metric::Euclidean, second, first), distance);
    // 13 / 255 is a little more than 0.05.
    assert!(!distance.is_close());
    assert!(distance.exceeds(threshold(0.05)));
    assert!(!distance.exceeds(threshold(0.051)));
    // A sum of squares of 162 is the last one below 0.05.
    assert!(Distance::Euclidean { squares: 162 }.is_close());
    assert!(!Distance::Euclidean { squares: 163 }.is_close());
}

#[test]
fn euclidean_thresholds_follow_floating_point_rules() {
    let distance = Distance::Euclidean { squares: 255 * 255 };
    assert!(distance.exceeds(threshold(-1.0)));
    assert!(distance.exceeds(threshold(f32::NEG_INFINITY)));
    assert!(distance.exceeds(threshold(0.0)));
    assert!(distance.exceeds(threshold(-0.0)));
    assert!(!distance.exceeds(threshold(1.0)));
    assert!(distance.exceeds(threshold(0.99999994)));
    assert!(!distance.exceeds(threshold(f32::INFINITY)));
    assert!(!distance.exceeds(threshold(f32::NAN)));
    assert!(!distance.exceeds(threshold(f32::MAX)));
    assert!(distance.exceeds(threshold(f32::from_bits(1))));
    assert!(!distance.in_band(threshold(-1.0)));
    assert!(!distance.in_band(threshold(0.0)));
    assert!(!distance.in_band(threshold(f32::NAN)));
    assert!(!distance.in_band(threshold(f32::NEG_INFINITY)));
    assert!(distance.within_half_more(threshold(f32::INFINITY)));
    assert!(distance.within_half_more(threshold(f32::MAX)));
    assert!(!distance.within_half_more(threshold(f32::from_bits(1))));
    let nought = Distance::zero(Metric::Euclidean);
    assert_eq!(nought, Distance::Euclidean { squares: 0 });
    assert!(!nought.exceeds(threshold(0.0)));
    assert!(!nought.exceeds(threshold(-0.0)));
    assert!(nought.exceeds(threshold(-1.0e-45)));
    assert!(nought.is_close());
}

#[test]
fn euclidean_decisions_agree_with_floating_point_comparison() {
    let pairs = [
        (rgba(100, 100, 100, 255), rgba(130, 130, 130, 255)),
        (rgba(100, 100, 100, 255), rgba(255, 0, 0, 255)),
        (rgba(10, 200, 30, 255), rgba(12, 198, 33, 250)),
        (rgba(0, 0, 0, 0), rgba(255, 255, 255, 255)),
        (rgba(90, 90, 90, 128), rgba(90, 91, 90, 127)),
    ];
    let thresholds = [0.0f32, 0.01, 0.05, 0.1, 0.15, 0.5, 1.0, 1.5, 2.5, -0.5];
    for (first, second) in pairs {
        let distance = measure(Metric::Euclidean, first, second);
        let value = as_float(distance);
        for limit in thresholds {
            let wide = limit as f64;
            if (value - wide).abs() > 1e-9 {
                assert_eq!(distance.exceeds(threshold(limit)), value > wide);
            }
            if (value - wide).abs() > 1e-9 && (value - wide * 1.5).abs() > 1e-9 {
                assert_eq!(
                    distance.in_band(threshold(limit)),
                    value > wide && value < wide * 1.5
                );
            }
        }
        if (value - 0.05).abs() > 1e-9 {
            assert_eq!(distance.is_close(), value < 0.05);
        }
    }
}

#[test]
fn measure_follows_the_metric() {
    let first = rgba(234, 76, 76, 255);
    let second = rgba(76, 187, 234, 200);
    assert_eq!(measure(Metric::Perceptual, first, second), color_distance(first, second));
    assert_eq!(measure(Metric::Euclidean, first, second), euclidean_distance(first, second));
    assert!(matches!(color_distance(first, second), Distance::Perceptual { .. }));
    assert!(matches!(euclidean_distance(first, second), Distance::Euclidean { .. }));
}

#[test]
fn shifted_neighbour_is_found_under_the_euclidean_metric() {
    let gray = rgba(100, 100, 100, 255);
    let light = rgba(130, 130, 130, 255);
    let mut data_a = uniform(10, 10, gray);
    set(&mut data_a, 10, 5, 6, light);
    let mut data_b = uniform(10, 10, gray);
    set(&mut data_b, 10, 5, 5, light);
    let img_a = Image::from_raw(10, 10, data_a).unwrap();
    let img_b = Image::from_raw(10, 10, data_b).unwrap();
    assert!(is_antialiased(Metric::Euclidean, 5, 5, 10, 10, &img_a, &img_b));
    assert!(is_antialiased(Metric::Euclidean, 4, 4, 10, 10, &img_a, &img_b));
    let plain = Image::from_raw(10, 10, uniform(10, 10, gray)).unwrap();
    assert!(!is_antialiased(Metric::Euclidean, 5, 5, 10, 10, &plain, &img_b));
}
