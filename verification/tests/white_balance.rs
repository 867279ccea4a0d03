use rapidraw::white_balance::{
    MIREDS_PER_STEP_TENTHS, ORIGIN_CCT, TARGET_MIN_Z_HUNDREDTHS, TEMPERATURE_SCALE, TINT_SCALE,
    TINT_V_PER_STEP_E4,
};

fn mireds_per_step() -> f32 {
    MIREDS_PER_STEP_TENTHS as f32 / 10.0
}

fn tint_v_per_step() -> f32 {
    (TINT_V_PER_STEP_E4 as f64 / 1e4) as f32
}

const SHADER_MIREDS_PER_STEP: f32 = 37.5;
const SHADER_TINT_V_PER_STEP: f32 = 0.03;

#[test]
fn shader_step_constants_absorb_the_plumbing_scale() {
    assert!((SHADER_MIREDS_PER_STEP - mireds_per_step() * TEMPERATURE_SCALE as f32).abs() < 1e-4);
    assert!((SHADER_TINT_V_PER_STEP - tint_v_per_step() * TINT_SCALE as f32).abs() < 1e-6);
}

#[test]
fn full_slider_travel_spans_a_useful_range() {
    let origin_mireds = 1.0e6 / ORIGIN_CCT as f32;
    let warm = 1.0e6 / (origin_mireds - 100.0 * mireds_per_step());
    let cool = 1.0e6 / (origin_mireds + 100.0 * mireds_per_step());
    assert!(
        warm > 15000.0 && (2500.0..3500.0).contains(&cool),
        "full travel reached {cool} K to {warm} K"
    );
}

#[test]
fn the_slider_constants_read_back_as_their_published_values() {
    assert_eq!(mireds_per_step(), 1.5);
    assert_eq!(tint_v_per_step(), 0.0003);
    assert_eq!(TARGET_MIN_Z_HUNDREDTHS as f32 / 100.0, 0.05);
    assert_eq!(ORIGIN_CCT as f32, 5003.0);
}
