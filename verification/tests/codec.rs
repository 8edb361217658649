use gsj::altitude_tile::error::NishiokaNagatsuError;
use gsj::altitude_tile::nishioka_nagatsu_2015::{
    check, decode, decode_pixel, encode, encode_pixel, Sample,
};
use gsj::altitude_tile::raster::{ColorKind, Raster, Rgb};

const GSI_DEM_PNG_SCALING_FACTOR: f64 = 1.0e-2;

/// What a caller does with a decoded sample: scale the code into meters,
/// with NaN standing for a no-data cell.
fn meters_of(sample: Sample, resolution_factor: f64) -> f64 {
    match sample {
        Sample::NoData => f64::NAN,
        Sample::Value(v) => v as f64 * resolution_factor,
    }
}

/// What a caller does before encoding: divide meters by the resolution
/// factor and round half away from zero, with NaN becoming no-data.
fn sample_of(meters: f64, resolution_factor: f64) -> Sample {
    if meters.is_nan() {
        Sample::NoData
    } else {
        Sample::Value((meters / resolution_factor).round() as i32)
    }
}

fn one_pixel_raster(r: u8, g: u8, b: u8) -> Raster {
    Raster::new(1, 1, ColorKind::Rgb8, vec![Rgb { r, g, b }]).unwrap()
}

#[test]
fn decode_no_data_pixel_is_nan_for_any_factor() {
    let raster = one_pixel_raster(128, 0, 0);
    let samples = decode(&raster);
    assert_eq!(samples, vec![Sample::NoData]);
    assert!(meters_of(samples[0], GSI_DEM_PNG_SCALING_FACTOR).is_nan());
    assert!(meters_of(samples[0], 5.0).is_nan());
}

#[test]
fn decode_small_positive_code() {
    let raster = one_pixel_raster(0, 0, 100);
    let samples = decode(&raster);
    assert_eq!(samples, vec![Sample::Value(100)]);
    assert_eq!(meters_of(samples[0], GSI_DEM_PNG_SCALING_FACTOR), 1.00);
}

#[test]
fn decode_all_ones_code_is_minus_one() {
    let raster = one_pixel_raster(255, 255, 255);
    let samples = decode(&raster);
    assert_eq!(samples, vec![Sample::Value(-1)]);
    assert_eq!(meters_of(samples[0], GSI_DEM_PNG_SCALING_FACTOR), -0.01);
}

#[test]
fn encode_minus_one_hundredth_meter() {
    let sample = sample_of(-0.01, GSI_DEM_PNG_SCALING_FACTOR);
    assert_eq!(sample, Sample::Value(-1));
    assert_eq!(encode_pixel(sample), Rgb { r: 255, g: 255, b: 255 });
}

#[test]
fn round_trip_representable_codes() {
    let codes: Vec<i32> = vec![-8388607, -8388606, -65536, -256, -1, 0, 1, 100, 255, 65535, 8388606, 8388607];
    let grid: Vec<Sample> = codes.iter().map(|k| Sample::Value(*k)).collect();
    let raster = encode(&grid, 3);
    assert_eq!(raster.width, 3);
    assert_eq!(raster.height, 4);
    let back = decode(&raster);
    assert_eq!(back, grid);
}

#[test]
fn round_trip_through_meters_stays_within_half_resolution() {
    let rf = GSI_DEM_PNG_SCALING_FACTOR;
    for k in [-8388607i32, -12345, -1, 0, 1, 4242, 8388607] {
        let altitude = k as f64 * rf;
        let grid = vec![sample_of(altitude, rf)];
        let back = decode(&encode(&grid, 1));
        let recovered = meters_of(back[0], rf);
        assert!((recovered - altitude).abs() <= rf / 2.0);
        assert_eq!(back[0], Sample::Value(k));
    }
}

#[test]
fn encode_all_no_data_decodes_to_all_nan() {
    let grid = vec![Sample::NoData; 6];
    let raster = encode(&grid, 3);
    let back = decode(&raster);
    assert_eq!(back, grid);
    for s in back {
        assert!(meters_of(s, GSI_DEM_PNG_SCALING_FACTOR).is_nan());
    }
}

#[test]
fn encode_shape_uses_floor_division() {
    let grid = vec![Sample::Value(7); 10];
    let raster = encode(&grid, 3);
    assert_eq!(raster.width, 3);
    assert_eq!(raster.height, 3);
    assert_eq!(raster.pixels.len(), 9);
    assert_eq!(raster.color, ColorKind::Rgb8);
}

#[test]
fn encode_width_larger_than_grid_gives_empty_raster() {
    let grid = vec![Sample::Value(7); 2];
    let raster = encode(&grid, 5);
    assert_eq!(raster.width, 5);
    assert_eq!(raster.height, 0);
    assert_eq!(raster.pixels.len(), 0);
}

#[test]
fn decode_preserves_row_major_order() {
    let pixels = vec![
        Rgb { r: 0, g: 0, b: 1 },
        Rgb { r: 0, g: 0, b: 2 },
        Rgb { r: 0, g: 1, b: 0 },
        Rgb { r: 128, g: 0, b: 0 },
    ];
    let raster = Raster::new(2, 2, ColorKind::Rgb8, pixels).unwrap();
    let samples = decode(&raster);
    assert_eq!(
        samples,
        vec![Sample::Value(1), Sample::Value(2), Sample::Value(256), Sample::NoData]
    );
}

#[test]
fn check_accepts_256_by_256_rgb8() {
    let pixels = vec![Rgb { r: 0, g: 0, b: 0 }; 256 * 256];
    let raster = Raster::new(256, 256, ColorKind::Rgb8, pixels).unwrap();
    assert_eq!(check(&raster), Ok(()));
}

#[test]
fn check_accepts_256_by_256_rgba8() {
    let pixels = vec![Rgb { r: 0, g: 0, b: 0 }; 256 * 256];
    let raster = Raster::new(256, 256, ColorKind::Rgba8, pixels).unwrap();
    assert_eq!(check(&raster), Ok(()));
}

#[test]
fn check_rejects_255_by_256() {
    let pixels = vec![Rgb { r: 0, g: 0, b: 0 }; 255 * 256];
    let raster = Raster::new(255, 256, ColorKind::Rgb8, pixels).unwrap();
    assert_eq!(
        check(&raster),
        Err(NishiokaNagatsuError::SizeIsNot256x256Pixels { w: 255, h: 256 })
    );
}

#[test]
fn check_rejects_grayscale() {
    let pixels = vec![Rgb { r: 0, g: 0, b: 0 }; 256 * 256];
    let raster = Raster::new(256, 256, ColorKind::L8, pixels).unwrap();
    assert_eq!(
        check(&raster),
        Err(NishiokaNagatsuError::ColorTypeIsNotRgb8OrRgba8(ColorKind::L8))
    );
}

#[test]
fn out_of_range_codes_wrap_silently() {
    // Documented limitation: only the low 24 bits are kept, so values past
    // the representable range alias other codes instead of failing.
    assert_eq!(encode_pixel(Sample::Value(16777217)), Rgb { r: 0, g: 0, b: 1 });
    assert_eq!(decode_pixel(encode_pixel(Sample::Value(16777217))), Sample::Value(1));
    // Both ends of the excluded boundary alias the no-data sentinel.
    assert_eq!(encode_pixel(Sample::Value(8388608)), Rgb { r: 128, g: 0, b: 0 });
    assert_eq!(encode_pixel(Sample::Value(-8388608)), Rgb { r: 128, g: 0, b: 0 });
    assert_eq!(decode_pixel(encode_pixel(Sample::Value(-8388608))), Sample::NoData);
}

#[test]
fn raster_new_checks_pixel_count() {
    let pixels = vec![Rgb { r: 0, g: 0, b: 0 }; 4];
    assert!(Raster::new(2, 2, ColorKind::Rgb8, pixels).is_some());
    let short = vec![Rgb { r: 0, g: 0, b: 0 }; 3];
    assert!(Raster::new(2, 2, ColorKind::Rgb8, short).is_none());
}
