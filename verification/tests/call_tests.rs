//! Tests of the call-building layer: rendering values as expression text,
//! building call expressions, and the round trip through a decoded reply.

use mocktave::build_call;
use mocktave::decode;
use mocktave::render_value;
use mocktave::OctaveType;

#[test]
fn scalar_renders_as_its_token() {
    let v = OctaveType::Scalar("2.5".to_string());
    assert_eq!(render_value(&v), "2.5".to_string());
}

#[test]
fn text_renders_as_is() {
    let v = OctaveType::Text("hello".to_string());
    assert_eq!(render_value(&v), "hello".to_string());
}

#[test]
fn empty_renders_as_nothing() {
    assert_eq!(render_value(&OctaveType::Empty), "".to_string());
}

#[test]
fn error_renders_with_its_message() {
    let v = OctaveType::Error("boom".to_string());
    assert_eq!(render_value(&v), "Error: boom".to_string());
}

#[test]
fn complex_scalar_renders_with_a_sign() {
    let v = OctaveType::ComplexScalar("1".to_string(), "2".to_string());
    assert_eq!(render_value(&v), "1+2i".to_string());
    let v = OctaveType::ComplexScalar("1".to_string(), "-2".to_string());
    assert_eq!(render_value(&v), "1-2i".to_string());
}

#[test]
fn matrix_renders_rows_and_columns() {
    let v = OctaveType::Matrix(vec![
        vec!["1".to_string(), "2".to_string()],
        vec!["3".to_string(), "4".to_string()],
    ]);
    assert_eq!(render_value(&v), "[1, 2; 3, 4]".to_string());
}

#[test]
fn empty_matrix_renders_as_brackets() {
    let v = OctaveType::Matrix(vec![]);
    assert_eq!(render_value(&v), "[]".to_string());
}

#[test]
fn cell_renders_recursively() {
    let v = OctaveType::Cell(vec![vec![
        OctaveType::Scalar("1".to_string()),
        OctaveType::Text("a".to_string()),
    ]]);
    assert_eq!(render_value(&v), "{1, a}".to_string());
}

#[test]
fn build_call_joins_the_arguments() {
    let args = vec![
        OctaveType::Scalar("100".to_string()),
        OctaveType::Scalar("101".to_string()),
    ];
    assert_eq!(
        build_call("max", &args),
        "result_of_function = max(100, 101)".to_string()
    );
}

#[test]
fn build_call_without_arguments() {
    let args: Vec<OctaveType> = vec![];
    assert_eq!(build_call("rand", &args), "result_of_function = rand()".to_string());
}

#[test]
fn norm_call_round_trip_yields_zero() {
    // Construct the arguments: an all-zero matrix and the scalar two.
    let args = vec![
        OctaveType::matrix_from_i64_grid(&vec![vec![0, 0], vec![0, 0]]),
        OctaveType::scalar_from_i64(2),
    ];
    let expr = build_call("norm", &args);
    assert_eq!(
        expr,
        "result_of_function = norm([0, 0; 0, 0], 2)".to_string()
    );
    // The reply an interpreter serializes for that call: the computed norm
    // of the zero matrix, which is zero.
    let reply = "# name: result_of_function\n# type: scalar\n0\n";
    let res = decode(reply.to_string());
    assert_eq!(res.get_scalar("result_of_function"), Some("0".to_string()));
    let v = res.get_unchecked("result_of_function");
    assert!(matches!(v, OctaveType::Scalar(t) if t == "0"));
}
