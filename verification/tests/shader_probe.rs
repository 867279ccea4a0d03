use rapidraw::shader_probe::{
    columns_to_rows, const_literals_in, constructor_literals_in, constructor_payload, declaration,
    float_literals, fn_body, fn_body_in, ProbeError,
};

const FIXTURE: &str = "\
// const COMMENTED_OUT: f32 = 9.0;
const SCALAR: f32 = 0.18;
const EXPONENT: f32 = 1.5e-3;
const WEIGHTS = vec3<f32>(0.2126, 0.7152, 0.0722);
const WEIGHTS_B = vec3<f32>(1.0, 2.0, 3.0);
const COLUMNS = mat3x3<f32>(
    vec3<f32>(1.0, 2.0, 3.0),
    vec3<f32>(4.0, 5.0, 6.0),
    vec3<f32>(7.0, 8.0, 9.0),
);
const INLINE_LIST = array<f32, 4>(10.0, 20.0, 30.0, 40.0);
const WRAPPED_LIST = array<f32, 4>(
    -1.0, 2.5, -3.25, 4.0
);

fn shaped(x: f32) -> f32 {
    return x * SCALAR;
}
";

fn numbers(literals: &[&str]) -> Vec<f32> {
    literals
        .iter()
        .map(|t| t.parse::<f32>().unwrap_or_else(|_| panic!("could not read a number from {t:?}")))
        .collect()
}

fn scalar(src: &str, name: &str) -> f32 {
    let values = numbers(&const_literals_in(src, name).unwrap());
    assert_eq!(values.len(), 1, "`const {name}` holds {} values, not one", values.len());
    values[0]
}

fn vector<const N: usize>(src: &str, name: &str) -> [f32; N] {
    let values = numbers(&constructor_literals_in(src, name).unwrap());
    values
        .as_slice()
        .try_into()
        .unwrap_or_else(|_| panic!("`const {name}` holds {} values, not {N}", values.len()))
}

#[test]
fn reads_a_scalar() {
    assert_eq!(scalar(FIXTURE, "SCALAR"), 0.18);
    assert_eq!(scalar(FIXTURE, "EXPONENT"), 1.5e-3);
}

#[test]
fn reads_a_vector_without_its_type() {
    assert_eq!(vector::<3>(FIXTURE, "WEIGHTS"), [0.2126, 0.7152, 0.0722]);
}

#[test]
fn reads_a_matrix_by_rows() {
    let columns = numbers(&constructor_literals_in(FIXTURE, "COLUMNS").unwrap());
    assert_eq!(columns.len(), 9);
    assert_eq!(
        columns_to_rows(&columns),
        [[1.0, 4.0, 7.0], [2.0, 5.0, 8.0], [3.0, 6.0, 9.0]]
    );
}

#[test]
fn reads_an_array_without_its_length() {
    assert_eq!(vector::<4>(FIXTURE, "INLINE_LIST"), [10.0, 20.0, 30.0, 40.0]);
    assert_eq!(vector::<4>(FIXTURE, "WRAPPED_LIST"), [-1.0, 2.5, -3.25, 4.0]);
}

#[test]
fn reads_a_function_body() {
    assert!(fn_body_in(FIXTURE, "shaped").contains("x * SCALAR"));
}

#[test]
fn matches_a_whole_name() {
    assert_eq!(vector::<3>(FIXTURE, "WEIGHTS_B"), [1.0, 2.0, 3.0]);
}

#[test]
fn ignores_a_commented_declaration() {
    assert_eq!(const_literals_in(FIXTURE, "COMMENTED_OUT"), Err(ProbeError::NoConstant));
}

#[test]
fn declaration_runs_from_after_the_name_to_the_semicolon() {
    assert_eq!(declaration(FIXTURE, "SCALAR"), Ok(": f32 = 0.18"));
    assert_eq!(declaration(FIXTURE, "WEIGHTS"), Ok(" = vec3<f32>(0.2126, 0.7152, 0.0722)"));
}

#[test]
fn a_declaration_may_be_indented_but_not_preceded_by_code() {
    let src = "  \t const A = 1.0;\nx const B = 2.0;\n";
    assert_eq!(declaration(src, "A"), Ok(" = 1.0"));
    assert_eq!(declaration(src, "B"), Err(ProbeError::NoConstant));
}

#[test]
fn unicode_white_space_also_opens_a_line() {
    let src = "\u{3000}\u{a0}const A = 1.0;";
    assert_eq!(declaration(src, "A"), Ok(" = 1.0"));
}

#[test]
fn a_later_declaration_is_found_after_a_commented_one() {
    let src = "// const A = 1.0;\nconst A = 2.0;";
    assert_eq!(declaration(src, "A"), Ok(" = 2.0"));
}

#[test]
fn a_declaration_without_a_semicolon_is_reported() {
    assert_eq!(declaration("const A = 1.0", "A"), Err(ProbeError::NoSemicolon));
}

#[test]
fn a_name_followed_by_a_non_ascii_letter_is_a_longer_name() {
    let src = "const Aé = 1.0;\nconst A = 2.0;";
    assert_eq!(declaration(src, "A"), Ok(" = 2.0"));
    assert_eq!(declaration(src, "Aé"), Ok(" = 1.0"));
}

#[test]
fn a_name_that_is_not_an_identifier_matches_nothing() {
    assert_eq!(declaration("const A-B = 1.0;", "A-B"), Err(ProbeError::NoConstant));
    assert_eq!(declaration(" const  = 1.0;", ""), Ok(" = 1.0"));
}

#[test]
fn a_constant_without_a_constructor_is_reported() {
    assert_eq!(constructor_literals_in(FIXTURE, "SCALAR"), Err(ProbeError::NotConstructor));
    assert_eq!(constructor_payload("vec3<f32>(1.0"), Err(ProbeError::NoClosingParenthesis));
    assert_eq!(
        constructor_literals_in("const V = f(1.0;", "V"),
        Err(ProbeError::NoClosingParenthesis)
    );
}

#[test]
fn the_payload_runs_from_the_first_open_to_the_last_close() {
    assert_eq!(constructor_payload(" = array<f32, 2>(f(1.0), 2.0)"), Ok("f(1.0), 2.0"));
    assert_eq!(constructor_payload("()"), Ok(""));
}

#[test]
fn literals_skip_digits_that_belong_to_names() {
    assert_eq!(float_literals("vec3<f32>(1.0, -2e-3, .5, +7)"), vec!["1.0", "-2e-3", ".5", "+7"]);
    assert_eq!(float_literals("x2 _3 a.5 1e+5e"), vec!["5", "1e+5e"]);
    assert_eq!(float_literals("- 5 -x"), vec!["5"]);
    assert!(float_literals("").is_empty());
}

#[test]
fn a_digit_after_a_byte_that_reads_as_a_letter_is_not_a_literal() {
    // The byte before the digit is read as a character on its own: the last
    // byte of 'µ' is 0xB5, itself 'µ', a letter; the last byte of 'é' is
    // 0xA9, '©', which is not.
    assert_eq!(float_literals("µ5"), Vec::<&str>::new());
    assert_eq!(float_literals("é5"), vec!["5"]);
}

#[test]
fn a_missing_function_has_no_body() {
    assert_eq!(fn_body(FIXTURE, "missing"), None);
    assert_eq!(fn_body(FIXTURE, "shape"), Some("d(x: f32) -> f32 {\n    return x * SCALAR;"));
}

#[test]
fn a_body_stops_at_the_next_function_of_the_same_name() {
    let src = "fn a() { 1 }fn a() { 2 }";
    assert_eq!(fn_body_in(src, "a"), "() { 1 }");
    assert_eq!(fn_body("fn a", "a"), Some(""));
}

#[test]
fn what_a_declaration_holds_is_what_was_written() {
    assert_eq!(declaration("const GAIN: f32 = 2.5; rest", "GAIN"), Ok(": f32 = 2.5"));
    assert_eq!(constructor_payload("V = f(a(1), b)  "), Ok("a(1), b"));
    assert_eq!(fn_body("fn main() { 1 }", "main"), Some("() { 1 }"));
}

#[test]
fn a_body_stops_at_the_close_of_its_block() {
    let src = "fn f() {\n    1\n}\nfn g() {\n}";
    assert_eq!(fn_body(src, "f"), Some("() {\n    1"));
    assert_eq!(fn_body(src, "g"), Some("() {"));
}
