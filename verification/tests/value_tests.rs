//! Tests of the value model: narrowing accessors, constructors from native
//! integers and text, defaults, and cloning.

use mocktave::OctaveType;

#[test]
fn try_into_scalar_unwraps_the_token() {
    let v = OctaveType::Scalar("2.5".to_string());
    assert_eq!(v.try_into_scalar().unwrap(), "2.5".to_string());
}

#[test]
fn try_into_scalar_rejects_other_variants() {
    let v = OctaveType::Text("2.5".to_string());
    let e = v.try_into_scalar().unwrap_err();
    assert_eq!(e.message(), "not a scalar value".to_string());
}

#[test]
fn try_into_string_unwraps_the_text() {
    let v = OctaveType::Text("asdf".to_string());
    assert_eq!(v.try_into_string().unwrap(), "asdf".to_string());
    let e = OctaveType::Empty.try_into_string().unwrap_err();
    assert_eq!(e.message(), "not a string value".to_string());
}

#[test]
fn try_into_matrix_unwraps_the_grid() {
    let g = vec![vec!["1".to_string(), "2".to_string()]];
    let v = OctaveType::Matrix(g.clone());
    assert_eq!(v.try_into_matrix().unwrap(), g);
    let e = OctaveType::Scalar("1".to_string()).try_into_matrix().unwrap_err();
    assert_eq!(e.message(), "not a matrix value".to_string());
}

#[test]
fn try_into_vec_octave_type_unwraps_the_cell_grid() {
    let g = vec![vec![OctaveType::Empty]];
    let v = OctaveType::Cell(g);
    let back = v.try_into_vec_octave_type().unwrap();
    assert_eq!(back.len(), 1);
    assert!(matches!(back[0][0], OctaveType::Empty));
    let e = OctaveType::Empty.try_into_vec_octave_type().unwrap_err();
    assert_eq!(e.message(), "not a cell array value".to_string());
}

#[test]
fn try_into_empty_accepts_only_absence() {
    OctaveType::Empty.try_into_empty().unwrap();
    let e = OctaveType::Scalar("0".to_string()).try_into_empty().unwrap_err();
    assert_eq!(e.message(), "not an empty value".to_string());
}

#[test]
fn default_value_is_empty() {
    let v = OctaveType::default();
    assert!(matches!(v, OctaveType::Empty));
}

#[test]
fn default_workspace_is_empty() {
    let w = mocktave::InterpreterResults::default();
    assert_eq!(w.raw, "".to_string());
    assert!(w.get("anything").is_none());
}

#[test]
fn scalars_from_integers_render_in_decimal() {
    assert!(matches!(OctaveType::scalar_from_u64(0), OctaveType::Scalar(t) if t == "0"));
    assert!(matches!(OctaveType::scalar_from_u64(105), OctaveType::Scalar(t) if t == "105"));
    assert!(matches!(OctaveType::scalar_from_i64(-17), OctaveType::Scalar(t) if t == "-17"));
    assert!(matches!(OctaveType::scalar_from_i64(42), OctaveType::Scalar(t) if t == "42"));
    assert!(
        matches!(OctaveType::scalar_from_i64(i64::MIN), OctaveType::Scalar(t) if t == "-9223372036854775808")
    );
}

#[test]
fn matrix_from_integer_grid_renders_every_entry() {
    let v = OctaveType::matrix_from_i64_grid(&vec![vec![1, -2], vec![3, 4]]);
    let g = v.try_into_matrix().unwrap();
    assert_eq!(g[0], vec!["1".to_string(), "-2".to_string()]);
    assert_eq!(g[1], vec!["3".to_string(), "4".to_string()]);
}

#[test]
fn matrix_from_integer_row_is_one_row() {
    let v = OctaveType::matrix_from_i64_row(&vec![5, 6, 7]);
    let g = v.try_into_matrix().unwrap();
    assert_eq!(g.len(), 1);
    assert_eq!(g[0], vec!["5".to_string(), "6".to_string(), "7".to_string()]);
}

#[test]
fn from_text_holds_the_string() {
    let v = OctaveType::from_text("hello".to_string());
    assert_eq!(v.try_into_string().unwrap(), "hello".to_string());
}

#[test]
fn clone_copies_a_nested_value() {
    let v = OctaveType::Cell(vec![vec![
        OctaveType::Scalar("1".to_string()),
        OctaveType::Cell(vec![vec![OctaveType::Text("deep".to_string())]]),
    ]]);
    let c = v.clone();
    let g = c.try_into_vec_octave_type().unwrap();
    assert!(matches!(&g[0][0], OctaveType::Scalar(t) if t == "1"));
    let inner = match &g[0][1] {
        OctaveType::Cell(inner) => inner,
        _ => panic!("expected a nested cell"),
    };
    assert!(matches!(&inner[0][0], OctaveType::Text(s) if s == "deep"));
}
