//! The decisions a raw develop makes before any pixel is touched: which of
//! the camera's colour matrices to trust, how the linear mode reads, and
//! which of the decoder's processing steps to keep.

use vstd::prelude::*;
use vstd::string::StringSliceAdditionalSpecFns;
use vstd::utf8::*;

verus! {

broadcast use group_utf8_lib;

/// The light a DNG colour matrix was measured under, by its DNG code.
#[derive(Clone, Copy, Debug, PartialEq, Eq, Structural)]
pub enum Illuminant {
    Unknown,
    Daylight,
    Fluorescent,
    Tungsten,
    Flash,
    FineWeather,
    CloudyWeather,
    Shade,
    DaylightFluorescent,
    DaylightWhiteFluorescent,
    CoolWhiteFluorescent,
    WhiteFluorescent,
    A,
    B,
    C,
    D55,
    D65,
    D75,
    D50,
    IsoStudioTungsten,
}

/// Nominal temperature in kelvin of each illuminant code; none for a code
/// that names no particular light.
pub open spec fn nominal_cct(illuminant: Illuminant) -> Option<u32> {
    match illuminant {
        Illuminant::A | Illuminant::Tungsten => Some(2856),
        Illuminant::B => Some(4874),
        Illuminant::C => Some(6774),
        Illuminant::D50 => Some(5003),
        Illuminant::D55 | Illuminant::Daylight | Illuminant::FineWeather | Illuminant::Flash => Some(
            5503,
        ),
        Illuminant::D65 | Illuminant::CloudyWeather => Some(6504),
        Illuminant::D75 | Illuminant::Shade => Some(7504),
        Illuminant::IsoStudioTungsten => Some(3200),
        Illuminant::Fluorescent | Illuminant::CoolWhiteFluorescent => Some(4230),
        Illuminant::DaylightFluorescent => Some(6430),
        Illuminant::DaylightWhiteFluorescent => Some(5000),
        Illuminant::WhiteFluorescent => Some(3450),
        Illuminant::Unknown => None,
    }
}

/// Nominal temperature in kelvin of a DNG illuminant code.
///
/// Returns None where the code names no particular light, in which case the
/// matrix it labels cannot take part in interpolation.
pub fn illuminant_cct(illuminant: Illuminant) -> (cct: Option<u32>)
    ensures
        cct == nominal_cct(illuminant),
{
    match illuminant {
        Illuminant::A | Illuminant::Tungsten => Some(2856),
        Illuminant::B => Some(4874),
        Illuminant::C => Some(6774),
        Illuminant::D50 => Some(5003),
        Illuminant::D55 | Illuminant::Daylight | Illuminant::FineWeather | Illuminant::Flash => Some(
            5503,
        ),
        Illuminant::D65 | Illuminant::CloudyWeather => Some(6504),
        Illuminant::D75 | Illuminant::Shade => Some(7504),
        Illuminant::IsoStudioTungsten => Some(3200),
        Illuminant::Fluorescent | Illuminant::CoolWhiteFluorescent => Some(4230),
        Illuminant::DaylightFluorescent => Some(6430),
        Illuminant::DaylightWhiteFluorescent => Some(5000),
        Illuminant::WhiteFluorescent => Some(3450),
        Illuminant::Unknown => None,
    }
}

/// One colour matrix a raw file carries: the illuminant it was measured
/// under and how many coefficients it holds.
#[derive(Clone, Copy, Debug, PartialEq, Eq, Structural)]
pub struct MatrixEntry {
    pub illuminant: Illuminant,
    pub coefficients: usize,
}

/// Which of a file's colour matrices to build the camera transform from,
/// by their positions in the list the file gave.
#[derive(Clone, Copy, Debug, PartialEq, Eq, Structural)]
pub enum MatrixChoice {
    /// No matrix holds the nine coefficients of a 3x3.
    Unusable,
    /// Use this matrix alone.
    Single(usize),
    /// Interpolate between the matrix measured under the warmest light and
    /// the one measured under the coolest, at the frame's own temperature.
    Blend { warm: usize, warm_cct: u32, cool: usize, cool_cct: u32 },
}

/// A matrix that a 3x3 transform can be built from. A four-colour sensor
/// carries twelve coefficients, which no 3x3 can resolve.
pub open spec fn usable(e: Seq<MatrixEntry>, k: int) -> bool {
    0 <= k < e.len() && e[k].coefficients == 9
}

/// A usable matrix whose illuminant has a temperature to interpolate at.
pub open spec fn referenced(e: Seq<MatrixEntry>, k: int) -> bool {
    usable(e, k) && nominal_cct(e[k].illuminant) is Some
}

/// The temperature of a referenced matrix.
pub open spec fn cct_of(e: Seq<MatrixEntry>, k: int) -> u32 {
    nominal_cct(e[k].illuminant)->0
}

/// The choice that the matrices of a file call for.
///
/// Referenced matrices are ranked by temperature in a stable order: the warm
/// end is the earliest listed at the lowest temperature, the cool end the
/// latest listed at the highest. With one referenced matrix it is used
/// alone; with none, the first usable matrix is.
pub open spec fn is_choice(e: Seq<MatrixEntry>, c: MatrixChoice) -> bool {
    match c {
        MatrixChoice::Unusable => forall|j: int| !usable(e, j),
        MatrixChoice::Single(k) => {
            ||| referenced(e, k as int) && forall|j: int| j != k ==> !referenced(e, j)
            ||| usable(e, k as int) && (forall|j: int| !referenced(e, j)) && forall|j: int|
                0 <= j < k ==> !usable(e, j)
        },
        MatrixChoice::Blend { warm, warm_cct, cool, cool_cct } => {
            &&& warm != cool
            &&& referenced(e, warm as int)
            &&& referenced(e, cool as int)
            &&& cct_of(e, warm as int) == warm_cct
            &&& cct_of(e, cool as int) == cool_cct
            &&& forall|j: int|
                #![trigger referenced(e, j)]
                referenced(e, j) ==> {
                    &&& warm_cct <= cct_of(e, j) <= cool_cct
                    &&& (cct_of(e, j) == warm_cct ==> warm <= j)
                    &&& (cct_of(e, j) == cool_cct ==> j <= cool)
                }
        },
    }
}

/// Chooses the colour matrices to build the camera-native transform from.
///
/// Cameras are characterised at two reference illuminants, and using either
/// one alone renders anything lit differently with the wrong colorimetry.
/// Where two or more are usable with known temperatures, the warmest and the
/// coolest are interpolated; otherwise one matrix is used as it is.
pub fn select_matrices(entries: &[MatrixEntry]) -> (choice: MatrixChoice)
    ensures
        is_choice(entries@, choice),
{
    let ghost e = entries@;
    let mut first_usable: Option<usize> = None;
    // Warm end: lowest temperature, earliest listed. Cool end: highest
    // temperature, latest listed.
    let mut warm: Option<(usize, u32)> = None;
    let mut cool: Option<(usize, u32)> = None;
    let mut count: usize = 0;
    let mut only: usize = 0;
    let mut i: usize = 0;
    while i < entries.len()
        invariant
            i <= entries.len(),
            e == entries@,
            count <= i,
            match first_usable {
                Some(k) => k < i && usable(e, k as int) && forall|j: int|
                    0 <= j < k ==> !usable(e, j),
                None => forall|j: int| 0 <= j < i ==> !usable(e, j),
            },
            count == 0 ==> forall|j: int| 0 <= j < i ==> !referenced(e, j),
            count == 1 ==> only < i && referenced(e, only as int) && forall|j: int|
                0 <= j < i && j != only ==> !referenced(e, j),
            count >= 2 ==> exists|a: int, b: int|
                0 <= a < i && 0 <= b < i && a != b && referenced(e, a) && referenced(e, b),
            count == 0 <==> warm is None,
            count == 0 <==> cool is None,
            match warm {
                Some((w, wc)) => w < i && referenced(e, w as int) && cct_of(e, w as int) == wc
                    && forall|j: int|
                    #![trigger referenced(e, j)]
                    0 <= j < i && referenced(e, j) ==> wc <= cct_of(e, j) && (cct_of(e, j) == wc
                        ==> w <= j),
                None => true,
            },
            match cool {
                Some((c, cc)) => c < i && referenced(e, c as int) && cct_of(e, c as int) == cc
                    && forall|j: int|
                    #![trigger referenced(e, j)]
                    0 <= j < i && referenced(e, j) ==> cct_of(e, j) <= cc && (cct_of(e, j) == cc
                        ==> j <= c),
                None => true,
            },
        decreases entries.len() - i,
    {
        let entry = entries[i];
        if entry.coefficients == 9 {
            if first_usable.is_none() {
                first_usable = Some(i);
            }
            match illuminant_cct(entry.illuminant) {
                Some(t) => {
                    if count == 1 {
                        assert(referenced(e, only as int) && referenced(e, i as int));
                    }
                    only = i;
                    if count < 2 {
                        count = count + 1;
                    }
                    match warm {
                        Some((_, wc)) => {
                            if t < wc {
                                warm = Some((i, t));
                            }
                        },
                        None => {
                            warm = Some((i, t));
                        },
                    }
                    match cool {
                        Some((_, cc)) => {
                            if t >= cc {
                                cool = Some((i, t));
                            }
                        },
                        None => {
                            cool = Some((i, t));
                        },
                    }
                },
                None => {},
            }
        }
        i = i + 1;
    }
    if count >= 2 {
        match (warm, cool) {
            (Some((w, wc)), Some((c, cc))) => {
                proof {
                    let (a, b) = choose|a: int, b: int|
                        0 <= a < i && 0 <= b < i && a != b && referenced(e, a) && referenced(e, b);
                    if w == c {
                        // Both ends at one matrix means every referenced
                        // matrix shares its temperature, and then the warm end
                        // is the earliest and the cool end the latest of them.
                        assert(cct_of(e, a) == wc && cct_of(e, b) == wc);
                        assert(w <= a && w <= b && a <= c && b <= c);
                    }
                }
                MatrixChoice::Blend { warm: w, warm_cct: wc, cool: c, cool_cct: cc }
            },
            _ => MatrixChoice::Unusable,
        }
    } else if count == 1 {
        MatrixChoice::Single(only)
    } else {
        match first_usable {
            Some(k) => MatrixChoice::Single(k),
            None => MatrixChoice::Unusable,
        }
    }
}

/// A 3x3 matrix from its coefficients listed row after row.
pub fn to_mat3<T: Copy>(coefficients: &[T]) -> (m: [[T; 3]; 3])
    requires
        coefficients@.len() >= 9,
    ensures
        forall|row: int, column: int|
            0 <= row < 3 && 0 <= column < 3 ==> #[trigger] m[row][column] == coefficients@[row
                * 3 + column],
{
    [
        [coefficients[0], coefficients[1], coefficients[2]],
        [coefficients[3], coefficients[4], coefficients[5]],
        [coefficients[6], coefficients[7], coefficients[8]],
    ]
}

/// How the develop treats linear files and calibration.
#[derive(Clone, Copy, Debug, PartialEq, Eq, Structural)]
pub struct LinearMode {
    /// Undo an sRGB transfer curve that a linear file was stored with.
    pub apply_ungamma: bool,
    /// Calibrate the camera's colour into the working space.
    pub apply_calibration: bool,
}

/// What a linear mode name asks for: `gamma`, `skip_calib` and
/// `gamma_skip_calib` are recognised, and anything else means neither
/// ungamma nor skipping calibration.
pub open spec fn linear_mode_of(mode: Seq<char>) -> LinearMode {
    if mode == "gamma"@ {
        LinearMode { apply_ungamma: true, apply_calibration: true }
    } else if mode == "skip_calib"@ {
        LinearMode { apply_ungamma: false, apply_calibration: false }
    } else if mode == "gamma_skip_calib"@ {
        LinearMode { apply_ungamma: true, apply_calibration: false }
    } else {
        LinearMode { apply_ungamma: false, apply_calibration: true }
    }
}

/// Whether two texts are the same.
fn same_text(a: &str, b: &str) -> (r: bool)
    ensures
        r == (a@ == b@),
{
    let x = a.as_bytes();
    let y = b.as_bytes();
    proof {
        assert(decode_utf8(a.spec_bytes()) == a@);
        assert(decode_utf8(b.spec_bytes()) == b@);
    }
    if x.len() != y.len() {
        return false;
    }
    let mut k: usize = 0;
    while k < x.len()
        invariant
            k <= x.len(),
            x.len() == y.len(),
            x@ == a.spec_bytes(),
            y@ == b.spec_bytes(),
            decode_utf8(a.spec_bytes()) == a@,
            decode_utf8(b.spec_bytes()) == b@,
            forall|j: int| 0 <= j < k ==> x@[j] == y@[j],
        decreases x.len() - k,
    {
        if x[k] != y[k] {
            return false;
        }
        k = k + 1;
    }
    assert(x@ =~= y@);
    true
}

/// The linear mode names compose: a name with `gamma` asks for the sRGB
/// curve to be undone, a name with `skip_calib` asks for calibration to be
/// skipped, and any other name keeps the default of calibrating without
/// undoing a curve.
pub proof fn lemma_linear_mode_names_compose(mode: Seq<char>)
    ensures
        linear_mode_of(mode).apply_ungamma <==> (mode == "gamma"@ || mode == "gamma_skip_calib"@),
        !linear_mode_of(mode).apply_calibration <==> (mode == "skip_calib"@ || mode
            == "gamma_skip_calib"@),
{
    reveal_strlit("gamma");
    reveal_strlit("skip_calib");
    reveal_strlit("gamma_skip_calib");
    assert("gamma"@ != "skip_calib"@) by {
        assert("gamma"@.len() != "skip_calib"@.len());
    }
    assert("gamma"@ != "gamma_skip_calib"@) by {
        assert("gamma"@.len() != "gamma_skip_calib"@.len());
    }
    assert("skip_calib"@ != "gamma_skip_calib"@) by {
        assert("skip_calib"@.len() != "gamma_skip_calib"@.len());
    }
}

/// Reads the linear mode setting.
pub fn linear_mode(mode: &str) -> (m: LinearMode)
    ensures
        m == linear_mode_of(mode@),
{
    if same_text(mode, "gamma") {
        LinearMode { apply_ungamma: true, apply_calibration: true }
    } else if same_text(mode, "skip_calib") {
        LinearMode { apply_ungamma: false, apply_calibration: false }
    } else if same_text(mode, "gamma_skip_calib") {
        LinearMode { apply_ungamma: true, apply_calibration: false }
    } else {
        LinearMode { apply_ungamma: false, apply_calibration: true }
    }
}

/// A step of the raw decoder's develop.
#[derive(Clone, Copy, Debug, PartialEq, Eq, Structural)]
pub enum ProcessingStep {
    Rescale,
    Demosaic,
    FujiRotate,
    CropActiveArea,
    WhiteBalance,
    Calibrate,
    CropDefault,
    SRgb,
}

/// What the develop asks of the raw decoder.
#[derive(Debug)]
pub struct DevelopPlan {
    /// The decoder's steps that still run, in their order.
    pub steps: Vec<ProcessingStep>,
    /// Demosaic with the decoder's fast algorithm.
    pub speed_demosaic: bool,
    /// The decoder still calibrates to sRGB primaries itself, so its output
    /// has to be lifted into the working space afterwards.
    pub decoder_calibrates: bool,
}

/// Whether a decoder step survives: the output transform to sRGB never
/// does; a linear file is already demosaiced and is only calibrated by the
/// decoder when calibration is wanted; and where the develop has its own
/// camera transform the decoder's calibration, which clips to sRGB, is
/// dropped.
pub open spec fn keeps_step(
    step: ProcessingStep,
    is_linear_format: bool,
    apply_calibration: bool,
    has_working_transform: bool,
) -> bool {
    &&& step != ProcessingStep::SRgb
    &&& (is_linear_format ==> step != ProcessingStep::Demosaic && (apply_calibration || step
        != ProcessingStep::Calibrate))
    &&& (has_working_transform ==> step != ProcessingStep::Calibrate)
}

/// `keeps_step` for one kind of develop, as a predicate on steps.
pub open spec fn step_filter(
    is_linear_format: bool,
    apply_calibration: bool,
    has_working_transform: bool,
) -> spec_fn(ProcessingStep) -> bool {
    |s: ProcessingStep| keeps_step(s, is_linear_format, apply_calibration, has_working_transform)
}

/// The decoder steps, demosaic algorithm and calibration that a develop of
/// this kind of file runs.
pub fn plan_develop(
    steps: &[ProcessingStep],
    is_linear_format: bool,
    fast_demosaic: bool,
    apply_calibration: bool,
    has_working_transform: bool,
) -> (plan: DevelopPlan)
    ensures
        plan.steps@ == steps@.filter(
            step_filter(is_linear_format, apply_calibration, has_working_transform),
        ),
        plan.speed_demosaic == (!is_linear_format && fast_demosaic),
        plan.decoder_calibrates == plan.steps@.contains(ProcessingStep::Calibrate),
{
    let ghost keep = step_filter(is_linear_format, apply_calibration, has_working_transform);
    let mut kept: Vec<ProcessingStep> = Vec::new();
    let mut calibrates = false;
    let mut i: usize = 0;
    while i < steps.len()
        invariant
            i <= steps.len(),
            kept@ == steps@.take(i as int).filter(keep),
            calibrates == kept@.contains(ProcessingStep::Calibrate),
            keep == step_filter(is_linear_format, apply_calibration, has_working_transform),
        decreases steps.len() - i,
    {
        let step = steps[i];
        let keeps = step != ProcessingStep::SRgb && (!is_linear_format || (step
            != ProcessingStep::Demosaic && (apply_calibration || step
            != ProcessingStep::Calibrate))) && (!has_working_transform || step
            != ProcessingStep::Calibrate);
        proof {
            reveal_with_fuel(Seq::filter, 1);
            assert(steps@.take(i + 1).drop_last() =~= steps@.take(i as int));
        }
        if keeps {
            let ghost before = kept@;
            kept.push(step);
            if step == ProcessingStep::Calibrate {
                calibrates = true;
            }
            proof {
                let c = ProcessingStep::Calibrate;
                if before.contains(c) {
                    let j = choose|j: int| 0 <= j < before.len() && before[j] == c;
                    assert(kept@[j] == c);
                }
                if step == c {
                    assert(kept@[before.len() as int] == c);
                }
                if kept@.contains(c) {
                    let j = choose|j: int| 0 <= j < kept@.len() && kept@[j] == c;
                    if j < before.len() {
                        assert(before[j] == c);
                    }
                }
            }
        }
        i = i + 1;
    }
    assert(steps@.take(steps.len() as int) =~= steps@);
    DevelopPlan {
        steps: kept,
        speed_demosaic: !is_linear_format && fast_demosaic,
        decoder_calibrates: calibrates,
    }
}

/// The longer side in pixels of a raw image of the given width and height,
/// which sets how far a fast preview was scaled down; `None` where the file
/// could not be read for its dimensions.
pub fn long_side(dims: Option<(usize, usize)>) -> (side: Option<usize>)
    ensures
        side == match dims {
            Some((w, h)) => Some(if w >= h { w } else { h }),
            None => None::<usize>,
        },
{
    match dims {
        Some((w, h)) => Some(if w >= h { w } else { h }),
        None => None,
    }
}

/// A develop keeps exactly one colour space downstream: the decoder's sRGB
/// output step is never run, and where the develop has its own camera
/// transform the decoder does not calibrate (and clip) to sRGB first.
pub proof fn lemma_plan_keeps_one_working_space(
    steps: Seq<ProcessingStep>,
    is_linear_format: bool,
    apply_calibration: bool,
    has_working_transform: bool,
)
    ensures
        !steps.filter(
            step_filter(is_linear_format, apply_calibration, has_working_transform),
        ).contains(ProcessingStep::SRgb),
        has_working_transform ==> !steps.filter(
            step_filter(is_linear_format, apply_calibration, has_working_transform),
        ).contains(ProcessingStep::Calibrate),
{
    let keep = step_filter(is_linear_format, apply_calibration, has_working_transform);
    let kept = steps.filter(keep);
    if kept.contains(ProcessingStep::SRgb) {
        let i = choose|i: int| 0 <= i < kept.len() && kept[i] == ProcessingStep::SRgb;
        steps.lemma_filter_pred(keep, i);
    }
    if has_working_transform && kept.contains(ProcessingStep::Calibrate) {
        let i = choose|i: int| 0 <= i < kept.len() && kept[i] == ProcessingStep::Calibrate;
        steps.lemma_filter_pred(keep, i);
    }
}

/// What a develop keeps of the decoder's steps: every step but the sRGB
/// output, Demosaic and Calibrate is kept whatever the flags; Demosaic is
/// kept exactly for a mosaiced (not linear) file; Calibrate is kept exactly
/// where the develop has no camera transform of its own and the file is
/// either mosaiced or to be calibrated; the sRGB output step never runs.
pub proof fn lemma_plan_drops_only_what_it_must(
    steps: Seq<ProcessingStep>,
    is_linear_format: bool,
    apply_calibration: bool,
    has_working_transform: bool,
)
    ensures
        forall|s: ProcessingStep|
            s != ProcessingStep::SRgb && s != ProcessingStep::Demosaic && s
                != ProcessingStep::Calibrate ==> (#[trigger] steps.filter(
                step_filter(is_linear_format, apply_calibration, has_working_transform),
            ).contains(s) <==> steps.contains(s)),
        !steps.filter(
            step_filter(is_linear_format, apply_calibration, has_working_transform),
        ).contains(ProcessingStep::SRgb),
        steps.filter(
            step_filter(is_linear_format, apply_calibration, has_working_transform),
        ).contains(ProcessingStep::Demosaic) <==> (steps.contains(ProcessingStep::Demosaic)
            && !is_linear_format),
        steps.filter(
            step_filter(is_linear_format, apply_calibration, has_working_transform),
        ).contains(ProcessingStep::Calibrate) <==> (steps.contains(ProcessingStep::Calibrate)
            && !has_working_transform && (!is_linear_format || apply_calibration)),
{
    let keep = step_filter(is_linear_format, apply_calibration, has_working_transform);
    let kept = steps.filter(keep);
    assert forall|s: ProcessingStep|
        #![trigger kept.contains(s)]
        kept.contains(s) <==> (steps.contains(s) && keep(s)) by {
        if kept.contains(s) {
            let i = choose|i: int| 0 <= i < kept.len() && kept[i] == s;
            steps.lemma_filter_pred(keep, i);
            steps.lemma_filter_contains_rev(keep, s);
        }
        if steps.contains(s) && keep(s) {
            let i = choose|i: int| 0 <= i < steps.len() && steps[i] == s;
            steps.lemma_filter_contains(keep, i);
        }
    }
    assert(kept.contains(ProcessingStep::SRgb) <==> (steps.contains(ProcessingStep::SRgb)
        && keep(ProcessingStep::SRgb)));
    assert(kept.contains(ProcessingStep::Demosaic) <==> (steps.contains(
        ProcessingStep::Demosaic,
    ) && keep(ProcessingStep::Demosaic)));
    assert(kept.contains(ProcessingStep::Calibrate) <==> (steps.contains(
        ProcessingStep::Calibrate,
    ) && keep(ProcessingStep::Calibrate)));
}

/// Every illuminant code but Unknown names a light with a temperature, and
/// those temperatures run from incandescent (2856 K) to north-sky shade
/// (7504 K); only a matrix labelled Unknown is left out of interpolation.
pub proof fn lemma_only_unknown_lacks_a_temperature(illuminant: Illuminant)
    ensures
        nominal_cct(illuminant) is None <==> illuminant == Illuminant::Unknown,
        nominal_cct(illuminant) matches Some(t) ==> 2856 <= t <= 7504,
{
}

/// Matrices are interpolated exactly when the file holds two or more 3x3
/// matrices measured under lights with a temperature, and then the blend
/// runs between the lowest and the highest of those temperatures, each end
/// being a 3x3 measured at that temperature.
pub proof fn lemma_two_references_are_blended(e: Seq<MatrixEntry>, c: MatrixChoice)
    requires
        is_choice(e, c),
    ensures
        c is Blend <==> exists|j1: int, j2: int|
            #![trigger e[j1], e[j2]]
            0 <= j1 < e.len() && 0 <= j2 < e.len() && j1 != j2 && e[j1].coefficients == 9
                && e[j2].coefficients == 9 && nominal_cct(e[j1].illuminant) is Some
                && nominal_cct(e[j2].illuminant) is Some,
        c matches MatrixChoice::Blend { warm, warm_cct, cool, cool_cct } ==> {
            &&& nominal_cct(e[warm as int].illuminant) == Some(warm_cct)
            &&& nominal_cct(e[cool as int].illuminant) == Some(cool_cct)
            &&& forall|j: int|
                0 <= j < e.len() && #[trigger] e[j].coefficients == 9 ==> (nominal_cct(
                    e[j].illuminant,
                ) matches Some(t) ==> warm_cct <= t <= cool_cct)
        },
{
    match c {
        MatrixChoice::Blend { warm, cool, .. } => {
            assert(referenced(e, warm as int) && referenced(e, cool as int));
            assert(e[warm as int] == e[warm as int] && e[cool as int] == e[cool as int]);
            assert forall|j: int|
                0 <= j < e.len() && #[trigger] e[j].coefficients == 9 implies (nominal_cct(
                e[j].illuminant,
            ) matches Some(t) ==> c->warm_cct <= t <= c->cool_cct) by {
                if nominal_cct(e[j].illuminant) is Some {
                    assert(referenced(e, j));
                }
            }
        },
        _ => {
            if exists|j1: int, j2: int|
                #![trigger e[j1], e[j2]]
                0 <= j1 < e.len() && 0 <= j2 < e.len() && j1 != j2 && e[j1].coefficients == 9
                    && e[j2].coefficients == 9 && nominal_cct(e[j1].illuminant) is Some
                    && nominal_cct(e[j2].illuminant) is Some {
                let (j1, j2) = choose|j1: int, j2: int|
                    #![trigger e[j1], e[j2]]
                    0 <= j1 < e.len() && 0 <= j2 < e.len() && j1 != j2 && e[j1].coefficients
                        == 9 && e[j2].coefficients == 9 && nominal_cct(e[j1].illuminant) is Some
                        && nominal_cct(e[j2].illuminant) is Some;
                assert(referenced(e, j1) && referenced(e, j2));
                assert(usable(e, j1));
            }
        },
    }
}

/// The choice of matrices is a function of the file's matrices: two choices
/// that both fit the same list are the same.
pub proof fn lemma_choice_is_unique(e: Seq<MatrixEntry>, c1: MatrixChoice, c2: MatrixChoice)
    requires
        is_choice(e, c1),
        is_choice(e, c2),
    ensures
        c1 == c2,
{
    match (c1, c2) {
        (MatrixChoice::Unusable, MatrixChoice::Unusable) => {},
        (MatrixChoice::Unusable, MatrixChoice::Single(k)) => {
            assert(usable(e, k as int));
        },
        (MatrixChoice::Single(k), MatrixChoice::Unusable) => {
            assert(usable(e, k as int));
        },
        (MatrixChoice::Unusable, MatrixChoice::Blend { warm, .. }) => {
            assert(usable(e, warm as int));
        },
        (MatrixChoice::Blend { warm, .. }, MatrixChoice::Unusable) => {
            assert(usable(e, warm as int));
        },
        (MatrixChoice::Single(k1), MatrixChoice::Single(k2)) => {
            if referenced(e, k1 as int) {
                assert(referenced(e, k2 as int) || !referenced(e, k1 as int));
            }
            if k1 < k2 {
                assert(usable(e, k1 as int));
            }
            if k2 < k1 {
                assert(usable(e, k2 as int));
            }
        },
        (MatrixChoice::Single(k), MatrixChoice::Blend { warm, cool, .. }) => {
            assert(referenced(e, warm as int) && referenced(e, cool as int));
        },
        (MatrixChoice::Blend { warm, cool, .. }, MatrixChoice::Single(k)) => {
            assert(referenced(e, warm as int) && referenced(e, cool as int));
        },
        (
            MatrixChoice::Blend { warm: w1, warm_cct: wc1, cool: k1, cool_cct: kc1 },
            MatrixChoice::Blend { warm: w2, warm_cct: wc2, cool: k2, cool_cct: kc2 },
        ) => {
            assert(referenced(e, w1 as int) && referenced(e, w2 as int));
            assert(referenced(e, k1 as int) && referenced(e, k2 as int));
            assert(wc1 == wc2);
            assert(kc1 == kc2);
        },
    }
}

/// Only a matrix of nine coefficients is ever chosen, so a four-colour
/// sensor's twelve are never truncated into a plausible-looking 3x3; and no
/// matrix is chosen exactly when the file holds none of nine.
pub proof fn lemma_only_3x3_matrices_are_chosen(e: Seq<MatrixEntry>, c: MatrixChoice)
    requires
        is_choice(e, c),
    ensures
        c matches MatrixChoice::Single(k) ==> k < e.len() && e[k as int].coefficients == 9,
        c matches MatrixChoice::Blend { warm, cool, .. } ==> {
            &&& warm < e.len() && e[warm as int].coefficients == 9
            &&& cool < e.len() && e[cool as int].coefficients == 9
        },
        c is Unusable <==> forall|j: int| 0 <= j < e.len() ==> e[j].coefficients != 9,
{
    match c {
        MatrixChoice::Unusable => {
            assert forall|j: int| 0 <= j < e.len() implies e[j].coefficients != 9 by {
                assert(!usable(e, j));
            }
        },
        MatrixChoice::Single(k) => {
            assert(usable(e, k as int));
        },
        MatrixChoice::Blend { warm, .. } => {
            assert(usable(e, warm as int));
        },
    }
}

/// The warm end of a blend is never cooler than its cool end.
pub proof fn lemma_warm_end_is_warmer(e: Seq<MatrixEntry>, c: MatrixChoice)
    requires
        is_choice(e, c),
    ensures
        c matches MatrixChoice::Blend { warm_cct, cool_cct, .. } ==> warm_cct <= cool_cct,
{
    if let MatrixChoice::Blend { cool, .. } = c {
        assert(referenced(e, cool as int));
    }
}

} // verus!
