//! The constants of the linear ProPhoto RGB (ROMM, D50) working space, as
//! exact decimals.
//!
//! Each coefficient is published with a fixed number of decimal places, so it
//! is held here as an integer count of the last place: `_E7` values are in
//! ten-millionths, `_E5` in hundred-thousandths, `_E4` in ten-thousandths.
//! Held exactly, the identities between them can be proved rather than
//! checked to a tolerance.

use vstd::prelude::*;

verus! {

/// ROMM RGB (ISO 22028-2) primaries, D50 adapted, in ten-millionths.
pub const PROPHOTO_TO_XYZ_D50_E7: [[i64; 3]; 3] = [
    [7976749, 1351917, 313534],
    [2880402, 7118741, 857],
    [0, 0, 8252100],
];

/// XYZ (D65) to linear sRGB, in ten-millionths.
pub const XYZ_D65_TO_SRGB_E7: [[i64; 3]; 3] = [
    [32404542, -15371385, -4985314],
    [-9692660, 18760108, 415560],
    [556434, -2040259, 10572252],
];

/// The Bradford cone response matrix, in ten-thousandths.
pub const BRADFORD_E4: [[i64; 3]; 3] = [
    [8951, 2664, -1614],
    [-7502, 17135, 367],
    [389, -685, 10296],
];

/// The D50 white point in XYZ, in hundred-thousandths.
pub const WHITE_D50_E5: [i64; 3] = [96422, 100000, 82521];

/// The D65 white point in XYZ, in hundred-thousandths.
pub const WHITE_D65_E5: [i64; 3] = [95047, 100000, 108883];

/// Relative luminance weights for ProPhoto primaries, in ten-millionths:
/// the Y row of the primaries matrix, which replaces the Rec.709 weights that
/// are only correct for an sRGB working space.
pub const PROPHOTO_LUMA_E7: [i64; 3] = [2880402, 7118741, 857];

/// The luma weights are the luminance row of the primaries matrix.
pub proof fn lemma_luma_is_the_luminance_row()
    ensures
        forall|c: int| 0 <= c < 3 ==> #[trigger] PROPHOTO_LUMA_E7[c] == PROPHOTO_TO_XYZ_D50_E7[1][c],
{
}

/// The luma weights sum to exactly one, so a neutral keeps its level.
pub proof fn lemma_luma_weights_sum_to_one()
    ensures
        PROPHOTO_LUMA_E7[0] + PROPHOTO_LUMA_E7[1] + PROPHOTO_LUMA_E7[2] == 10_000_000,
{
}

/// ProPhoto white (1, 1, 1) maps to the D50 white point exactly: each row of
/// the primaries matrix sums to that component of D50.
pub proof fn lemma_prophoto_white_is_d50()
    ensures
        forall|r: int|
            0 <= r < 3 ==> #[trigger] PROPHOTO_TO_XYZ_D50_E7[r][0] + PROPHOTO_TO_XYZ_D50_E7[r][1]
                + PROPHOTO_TO_XYZ_D50_E7[r][2] == WHITE_D50_E5[r] * 100,
{
}

} // verus!
