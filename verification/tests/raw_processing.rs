use rapidraw::raw_processing::{
    illuminant_cct, linear_mode, plan_develop, select_matrices, to_mat3, Illuminant, LinearMode,
    MatrixChoice, MatrixEntry, ProcessingStep, long_side,
};
use rapidraw::shader_probe::columns_to_rows;

fn entry(illuminant: Illuminant, coefficients: usize) -> MatrixEntry {
    MatrixEntry { illuminant, coefficients }
}

const DEFAULT_STEPS: [ProcessingStep; 8] = [
    ProcessingStep::Rescale,
    ProcessingStep::Demosaic,
    ProcessingStep::FujiRotate,
    ProcessingStep::CropActiveArea,
    ProcessingStep::WhiteBalance,
    ProcessingStep::Calibrate,
    ProcessingStep::CropDefault,
    ProcessingStep::SRgb,
];

#[test]
fn illuminants_carry_their_nominal_temperatures() {
    assert_eq!(illuminant_cct(Illuminant::A), Some(2856));
    assert_eq!(illuminant_cct(Illuminant::Tungsten), Some(2856));
    assert_eq!(illuminant_cct(Illuminant::B), Some(4874));
    assert_eq!(illuminant_cct(Illuminant::C), Some(6774));
    assert_eq!(illuminant_cct(Illuminant::D50), Some(5003));
    assert_eq!(illuminant_cct(Illuminant::Flash), Some(5503));
    assert_eq!(illuminant_cct(Illuminant::CloudyWeather), Some(6504));
    assert_eq!(illuminant_cct(Illuminant::Shade), Some(7504));
    assert_eq!(illuminant_cct(Illuminant::IsoStudioTungsten), Some(3200));
    assert_eq!(illuminant_cct(Illuminant::CoolWhiteFluorescent), Some(4230));
    assert_eq!(illuminant_cct(Illuminant::DaylightFluorescent), Some(6430));
    assert_eq!(illuminant_cct(Illuminant::DaylightWhiteFluorescent), Some(5000));
    assert_eq!(illuminant_cct(Illuminant::WhiteFluorescent), Some(3450));
    assert_eq!(illuminant_cct(Illuminant::Unknown), None);
}

#[test]
fn a_file_without_a_three_by_three_matrix_is_unusable() {
    assert_eq!(select_matrices(&[]), MatrixChoice::Unusable);
    assert_eq!(select_matrices(&[entry(Illuminant::D65, 12)]), MatrixChoice::Unusable);
}

#[test]
fn without_known_temperatures_the_first_usable_matrix_is_used() {
    let entries = [
        entry(Illuminant::D65, 12),
        entry(Illuminant::Unknown, 9),
        entry(Illuminant::Unknown, 9),
    ];
    assert_eq!(select_matrices(&entries), MatrixChoice::Single(1));
}

#[test]
fn one_referenced_matrix_is_used_alone() {
    let entries = [entry(Illuminant::Unknown, 9), entry(Illuminant::D65, 9), entry(Illuminant::A, 12)];
    assert_eq!(select_matrices(&entries), MatrixChoice::Single(1));
}

#[test]
fn two_references_are_blended_warm_to_cool() {
    let expected = |warm, cool| MatrixChoice::Blend { warm, warm_cct: 2856, cool, cool_cct: 6504 };
    assert_eq!(
        select_matrices(&[entry(Illuminant::A, 9), entry(Illuminant::D65, 9)]),
        expected(0, 1)
    );
    assert_eq!(
        select_matrices(&[entry(Illuminant::D65, 9), entry(Illuminant::A, 9)]),
        expected(1, 0)
    );
}

#[test]
fn ties_keep_the_order_the_file_gave() {
    let entries = [
        entry(Illuminant::A, 9),
        entry(Illuminant::D50, 9),
        entry(Illuminant::Tungsten, 9),
        entry(Illuminant::D65, 9),
        entry(Illuminant::CloudyWeather, 9),
        entry(Illuminant::Shade, 12),
    ];
    assert_eq!(
        select_matrices(&entries),
        MatrixChoice::Blend { warm: 0, warm_cct: 2856, cool: 4, cool_cct: 6504 }
    );
    let same = [entry(Illuminant::D55, 9), entry(Illuminant::Daylight, 9)];
    assert_eq!(
        select_matrices(&same),
        MatrixChoice::Blend { warm: 0, warm_cct: 5503, cool: 1, cool_cct: 5503 }
    );
}

#[test]
fn linear_modes_read_as_named() {
    let mode = |apply_ungamma, apply_calibration| LinearMode { apply_ungamma, apply_calibration };
    assert_eq!(linear_mode("gamma"), mode(true, true));
    assert_eq!(linear_mode("skip_calib"), mode(false, false));
    assert_eq!(linear_mode("gamma_skip_calib"), mode(true, false));
    assert_eq!(linear_mode(""), mode(false, true));
    assert_eq!(linear_mode("Gamma"), mode(false, true));
    assert_eq!(linear_mode("linear"), mode(false, true));
}

#[test]
fn a_mosaiced_file_drops_only_the_srgb_output() {
    let plan = plan_develop(&DEFAULT_STEPS, false, true, true, false);
    assert_eq!(plan.steps, DEFAULT_STEPS[..7].to_vec());
    assert!(plan.speed_demosaic);
    assert!(plan.decoder_calibrates);
    assert!(!plan_develop(&DEFAULT_STEPS, false, false, true, false).speed_demosaic);
}

#[test]
fn an_own_camera_transform_replaces_the_decoders_calibration() {
    let plan = plan_develop(&DEFAULT_STEPS, false, false, true, true);
    assert!(!plan.steps.contains(&ProcessingStep::Calibrate));
    assert!(!plan.steps.contains(&ProcessingStep::SRgb));
    assert_eq!(plan.steps.len(), 6);
    assert!(!plan.decoder_calibrates);
}

#[test]
fn a_linear_file_is_not_demosaiced_and_calibrates_only_when_asked() {
    let calibrated = plan_develop(&DEFAULT_STEPS, true, true, true, false);
    assert!(!calibrated.steps.contains(&ProcessingStep::Demosaic));
    assert!(calibrated.decoder_calibrates);
    assert!(!calibrated.speed_demosaic);
    let skipped = plan_develop(&DEFAULT_STEPS, true, false, false, false);
    assert_eq!(
        skipped.steps,
        vec![
            ProcessingStep::Rescale,
            ProcessingStep::FujiRotate,
            ProcessingStep::CropActiveArea,
            ProcessingStep::WhiteBalance,
            ProcessingStep::CropDefault,
        ]
    );
    assert!(!skipped.decoder_calibrates);
}

#[test]
fn coefficients_fill_a_matrix_row_by_row() {
    let c = [1, 2, 3, 4, 5, 6, 7, 8, 9, 10, 11, 12];
    assert_eq!(to_mat3(&c), [[1, 2, 3], [4, 5, 6], [7, 8, 9]]);
}

#[test]
fn reading_columns_transposes_reading_rows() {
    let c = [1.5f32, 2.0, 3.0, 4.0, 5.0, 6.0, 7.0, 8.0, 9.0];
    let rows = to_mat3(&c);
    let columns = columns_to_rows(&c);
    for r in 0..3 {
        for k in 0..3 {
            assert_eq!(columns[r][k], rows[k][r]);
        }
    }
}

#[test]
fn the_long_side_is_the_larger_dimension() {
    assert_eq!(long_side(Some((2888, 2136))), Some(2888));
    assert_eq!(long_side(Some((2136, 2888))), Some(2888));
    assert_eq!(long_side(Some((4000, 4000))), Some(4000));
    assert_eq!(long_side(Some((0, 0))), Some(0));
    assert_eq!(long_side(None), None);
}
