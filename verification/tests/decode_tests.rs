//! End-to-end tests of the dump decoder: scalars, strings, matrices,
//! diagonal matrices, cell arrays, and the malformed cases.

use mocktave::decode;
use mocktave::OctaveType;

#[test]
fn scalar_decodes_to_its_literal() {
    let res = decode("# name: a\n# type: scalar\n7\n".to_string());
    assert_eq!(res.get_scalar("a"), Some("7".to_string()));
}

#[test]
fn scalar_float_literal_is_kept_verbatim() {
    let res = decode("# name: x\n# type: scalar\n-2.75e-3\n".to_string());
    assert_eq!(res.get_scalar("x"), Some("-2.75e-3".to_string()));
}

#[test]
fn scalar_with_unparseable_literal_is_absent() {
    let res = decode("# name: a\n# type: scalar\nsideways\n".to_string());
    assert_eq!(res.get_scalar("a"), None);
    assert!(res.get("a").is_none());
}

#[test]
fn raw_text_is_kept() {
    let text = "# name: a\n# type: scalar\n7\n";
    let res = decode(text.to_string());
    assert_eq!(res.raw, text);
}

#[test]
fn matrix_cells_fill_in_row_major_order() {
    let res = decode(
        "# name: m\n# type: matrix\n# rows: 2\n# columns: 3\n 1 2 3\n 4 5 6\n".to_string(),
    );
    let m = res.get_matrix("m").unwrap();
    assert_eq!(m.len(), 2);
    assert_eq!(m[0], vec!["1".to_string(), "2".to_string(), "3".to_string()]);
    assert_eq!(m[1], vec!["4".to_string(), "5".to_string(), "6".to_string()]);
}

#[test]
fn matrix_without_data_is_all_zero() {
    let res = decode("# name: z\n# type: matrix\n# rows: 2\n# columns: 2\n".to_string());
    let m = res.get_matrix("z").unwrap();
    assert_eq!(m, vec![vec!["0".to_string(); 2]; 2]);
}

#[test]
fn matrix_with_zero_rows_is_empty() {
    let res = decode("# name: e\n# type: matrix\n# rows: 0\n# columns: 3\n".to_string());
    let m = res.get_matrix("e").unwrap();
    assert_eq!(m.len(), 0);
}

#[test]
fn matrix_with_nan_token_keeps_not_a_number_cell() {
    let res = decode(
        "# name: m\n# type: matrix\n# rows: 2\n# columns: 2\n 1 NaN\n 3 4\n".to_string(),
    );
    let m = res.get_matrix("m").unwrap();
    assert_eq!(m[0][1], "NaN".to_string());
    assert!(m[0][1].parse::<f64>().unwrap().is_nan());
    assert_eq!(m[1][0], "3".to_string());
}

#[test]
fn matrix_with_garbage_token_degrades_that_cell_only() {
    let res = decode(
        "# name: m\n# type: matrix\n# rows: 1\n# columns: 3\n 1 wat 3\n".to_string(),
    );
    let m = res.get_matrix("m").unwrap();
    assert_eq!(m[0], vec!["1".to_string(), "NaN".to_string(), "3".to_string()]);
}

#[test]
fn matrix_with_wrong_token_count_is_absent() {
    let res = decode("# name: m\n# type: matrix\n# rows: 2\n# columns: 2\n 1 2 3\n".to_string());
    assert!(res.get_matrix("m").is_none());
}

#[test]
fn diagonal_matrix_scatters_tokens_onto_the_diagonal() {
    let res = decode(
        "# name: d\n# type: diagonal matrix\n# rows: 5\n# columns: 5\n3\n3\n3\n3\n3\n"
            .to_string(),
    );
    let m = res.get_matrix("d").unwrap();
    assert_eq!(m.len(), 5);
    for i in 0..5 {
        assert_eq!(m[i].len(), 5);
        for j in 0..5 {
            if i == j {
                assert_eq!(m[i][j], "3".to_string());
            } else {
                assert_eq!(m[i][j], "0".to_string());
            }
        }
    }
}

#[test]
fn diagonal_matrix_takes_min_dimension_tokens() {
    let res = decode(
        "# name: d\n# type: diagonal matrix\n# rows: 2\n# columns: 3\n7 8\n".to_string(),
    );
    let m = res.get_matrix("d").unwrap();
    assert_eq!(m[0], vec!["7".to_string(), "0".to_string(), "0".to_string()]);
    assert_eq!(m[1], vec!["0".to_string(), "8".to_string(), "0".to_string()]);
}

#[test]
fn sq_string_and_string_decode_alike() {
    let sq = decode(
        "# name: s\n# type: sq_string\n# elements: 1\n# length: 4\nasdf\n".to_string(),
    );
    let dq = decode(
        "# name: s\n# type: string\n# elements: 1\n# length: 4\nasdf\n".to_string(),
    );
    assert_eq!(sq.get_string("s"), Some("asdf".to_string()));
    assert_eq!(dq.get_string("s"), Some("asdf".to_string()));
}

#[test]
fn string_trailing_blank_lines_are_stripped() {
    let res = decode(
        "# name: s\n# type: sq_string\n# elements: 1\n# length: 1\na\n\n\n".to_string(),
    );
    assert_eq!(res.get_string("s"), Some("a".to_string()));
}

#[test]
fn cell_array_collects_nested_elements_in_order() {
    let text = "# name: g\n# type: cell\n# rows: 1\n# columns: 2\n".to_string()
        + "# name: <cell-element>\n# type: sq_string\n# elements: 1\n# length: 1\na\n\n\n"
        + "# name: <cell-element>\n# type: scalar\n1\n";
    let res = decode(text.clone());
    let g = res.get_cell_array("g").unwrap();
    assert_eq!(g.len(), 1);
    assert_eq!(g[0].len(), 2);
    assert!(matches!(&g[0][0], OctaveType::Text(s) if s == "a"));
    assert!(matches!(&g[0][1], OctaveType::Scalar(t) if t == "1"));
}

#[test]
fn nested_cell_array_recurses() {
    let text = "# name: g\n# type: cell\n# rows: 1\n# columns: 1\n".to_string()
        + "# name: <cell-element>\n# type: cell\n# rows: 1\n# columns: 1\n"
        + "# name: <cell-element>\n# type: scalar\n9\n";
    let res = decode(text.clone());
    let g = res.get_cell_array("g").unwrap();
    let inner = match &g[0][0] {
        OctaveType::Cell(inner) => inner,
        _ => panic!("expected a nested cell"),
    };
    assert!(matches!(&inner[0][0], OctaveType::Scalar(t) if t == "9"));
}

#[test]
fn cell_with_unknown_element_tag_degrades_to_empty() {
    let text = "# name: g\n# type: cell\n# rows: 1\n# columns: 1\n".to_string()
        + "# name: <cell-element>\n# type: bool matrix\n# rows: 1\n# columns: 1\n1\n";
    let res = decode(text.clone());
    let g = res.get_cell_array("g").unwrap();
    assert!(matches!(g[0][0], OctaveType::Empty));
}

#[test]
fn cell_missing_elements_is_absent_and_later_variables_survive() {
    let text = "# name: g\n# type: cell\n# rows: 2\n# columns: 2\n".to_string()
        + "# name: <cell-element>\n# type: scalar\n1\n"
        + "# name: <cell-element>\n# type: scalar\n2\n"
        + "# name: <cell-element>\n# type: scalar\n3\n"
        + "# name: later\n# type: scalar\n42\n";
    let res = decode(text.clone());
    assert!(res.get("g").is_none());
    assert_eq!(res.get_scalar("later"), Some("42".to_string()));
}

#[test]
fn later_declaration_of_the_same_name_wins() {
    let text = "# name: a\n# type: scalar\n1\n".to_string()
        + "# name: a\n# type: scalar\n2\n";
    let res = decode(text.clone());
    assert_eq!(res.get_scalar("a"), Some("2".to_string()));
}

#[test]
fn unknown_top_level_tag_is_absent() {
    let res = decode("# name: c\n# type: complex scalar\n1 2\n".to_string());
    assert!(res.get("c").is_none());
}

#[test]
fn decoding_twice_yields_identical_mappings() {
    let text = "# name: a\n# type: scalar\n7\n".to_string()
        + "# name: s\n# type: sq_string\n# elements: 1\n# length: 2\nhi\n"
        + "# name: m\n# type: matrix\n# rows: 1\n# columns: 2\n 1 2\n";
    let first = decode(text.clone());
    let second = decode(text.clone());
    assert_eq!(first.get_scalar("a"), second.get_scalar("a"));
    assert_eq!(first.get_string("s"), second.get_string("s"));
    assert_eq!(first.get_matrix("m"), second.get_matrix("m"));
    assert_eq!(first.get("nope").is_none(), second.get("nope").is_none());
}

#[test]
fn whole_workspace_decodes_many_variables() {
    let text = "# Created by an interpreter\n".to_string()
        + "# name: a\n# type: scalar\n7\n\n"
        + "# name: m\n# type: matrix\n# rows: 2\n# columns: 2\n 1 2\n 3 4\n\n"
        + "# name: s\n# type: sq_string\n# elements: 1\n# length: 4\nasdf\n\n";
    let res = decode(text.clone());
    assert_eq!(res.get_scalar("a"), Some("7".to_string()));
    assert_eq!(
        res.get_matrix("m").unwrap(),
        vec![
            vec!["1".to_string(), "2".to_string()],
            vec!["3".to_string(), "4".to_string()]
        ]
    );
    assert_eq!(res.get_string("s"), Some("asdf".to_string()));
    let v = res.get_unchecked("a");
    assert!(matches!(v, OctaveType::Scalar(t) if t == "7"));
}

#[test]
fn getters_reject_the_wrong_shape() {
    let res = decode("# name: a\n# type: scalar\n7\n".to_string());
    assert!(res.get_string("a").is_none());
    assert!(res.get_matrix("a").is_none());
    assert!(res.get_cell_array("a").is_none());
    assert!(res.get_scalar("missing").is_none());
}

#[test]
fn scalar_infinity_literals_are_accepted() {
    let res = decode("# name: p\n# type: scalar\nInf\n".to_string());
    assert_eq!(res.get_scalar("p"), Some("Inf".to_string()));
    let res = decode("# name: n\n# type: scalar\n-Inf\n".to_string());
    assert_eq!(res.get_scalar("n"), Some("-Inf".to_string()));
    let res = decode("# name: q\n# type: scalar\nNaN\n".to_string());
    assert_eq!(res.get_scalar("q"), Some("NaN".to_string()));
}

#[test]
fn empty_input_decodes_to_an_empty_workspace() {
    let res = decode("".to_string());
    assert!(res.get("a").is_none());
}

#[test]
fn matrix_with_unparseable_dimension_is_absent() {
    let res = decode("# name: m\n# type: matrix\n# rows: two\n# columns: 2\n 1 2\n".to_string());
    assert!(res.get("m").is_none());
}

#[test]
fn matrix_missing_a_dimension_header_is_absent() {
    let res = decode("# name: m\n# type: matrix\n# rows: 2\n 1 2\n".to_string());
    assert!(res.get("m").is_none());
}

#[test]
fn repeated_dimension_header_takes_the_last_value() {
    let res = decode(
        "# name: m\n# type: matrix\n# rows: 9\n# rows: 1\n# columns: 2\n 1 2\n".to_string(),
    );
    let m = res.get_matrix("m").unwrap();
    assert_eq!(m.len(), 1);
    assert_eq!(m[0], vec!["1".to_string(), "2".to_string()]);
}

#[test]
fn workspace_clone_keeps_the_mapping() {
    let res = decode("# name: a\n# type: scalar\n7\n".to_string());
    let copy = res.clone();
    assert_eq!(copy.get_scalar("a"), Some("7".to_string()));
    assert_eq!(copy.raw, res.raw);
}

#[test]
fn realistic_dump_with_blank_separators_and_scientific_notation() {
    let text = "# Created by Octave 8.1.0, Fri Jun 02 12:00:00 2023 UTC <octave@host>\n".to_string()
        + "# name: a\n# type: scalar\n7\n\n\n"
        + "# name: big\n# type: scalar\n1.2345678901234567e+101\n\n\n"
        + "# name: m\n# type: matrix\n# rows: 2\n# columns: 2\n 1 2.5e-1\n -3 4\n\n\n"
        + "# name: s\n# type: sq_string\n# elements: 1\n# length: 5\nhello\n\n\n";
    let res = decode(text.clone());
    assert_eq!(res.get_scalar("a"), Some("7".to_string()));
    assert_eq!(res.get_scalar("big"), Some("1.2345678901234567e+101".to_string()));
    let m = res.get_matrix("m").unwrap();
    assert_eq!(m[0], vec!["1".to_string(), "2.5e-1".to_string()]);
    assert_eq!(m[1], vec!["-3".to_string(), "4".to_string()]);
    assert_eq!(res.get_string("s"), Some("hello".to_string()));
}
