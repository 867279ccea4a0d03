use rapidraw::color_space::{
    BRADFORD_E4, PROPHOTO_LUMA_E7, PROPHOTO_TO_XYZ_D50_E7, WHITE_D50_E5, WHITE_D65_E5,
    XYZ_D65_TO_SRGB_E7,
};

fn decimal(units: i64, places: i32) -> f32 {
    (units as f64 / 10f64.powi(places)) as f32
}

#[test]
fn luma_weights_sum_to_one() {
    let sum: f32 = PROPHOTO_LUMA_E7.iter().map(|&w| decimal(w, 7)).sum();
    assert!((sum - 1.0).abs() < 1e-4, "luma weights summed to {sum}");
}

#[test]
fn prophoto_white_is_d50() {
    for r in 0..3 {
        let white: f32 = PROPHOTO_TO_XYZ_D50_E7[r].iter().map(|&c| decimal(c, 7)).sum();
        let expected = decimal(WHITE_D50_E5[r], 5);
        assert!((white - expected).abs() < 1e-4, "ProPhoto (1,1,1): {white} vs {expected}");
    }
}

#[test]
fn the_luma_weights_are_exactly_the_luminance_row() {
    assert_eq!(PROPHOTO_LUMA_E7, PROPHOTO_TO_XYZ_D50_E7[1]);
    assert_eq!(PROPHOTO_LUMA_E7.iter().sum::<i64>(), 10_000_000);
}

#[test]
fn the_constants_read_back_as_their_published_values() {
    assert_eq!(decimal(PROPHOTO_TO_XYZ_D50_E7[0][0], 7), 0.7976749f32);
    assert_eq!(decimal(PROPHOTO_TO_XYZ_D50_E7[1][2], 7), 0.0000857f32);
    assert_eq!(decimal(XYZ_D65_TO_SRGB_E7[0][0], 7), 3.2404542f32);
    assert_eq!(decimal(XYZ_D65_TO_SRGB_E7[1][1], 7), 1.8760108f32);
    assert_eq!(decimal(XYZ_D65_TO_SRGB_E7[2][1], 7), -0.2040259f32);
    assert_eq!(decimal(BRADFORD_E4[1][1], 4), 1.7135f32);
    assert_eq!(decimal(WHITE_D50_E5[2], 5), 0.82521f32);
    assert_eq!(decimal(WHITE_D65_E5[2], 5), 1.08883f32);
}
