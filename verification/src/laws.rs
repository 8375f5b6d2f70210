//! Properties of the decoder as a whole: decoding is deterministic, a
//! well-formed scalar declaration decodes to exactly its literal, a matrix
//! declaration with a full token block decodes cell-for-cell in row-major
//! order, and a diagonal declaration scatters its compact token list onto an
//! otherwise zero grid.

use vstd::prelude::*;

verus! {

use crate::decode::cell_elem_name;
use crate::decode::data_tokens;
use crate::decode::diag_grid;
use crate::decode::dims_ok;
use crate::decode::min_dim;
use crate::decode::numeral_of;
use crate::decode::token_grid;
use crate::interpreter_results::spec_build;
use crate::interpreter_results::spec_decode;
use crate::interpreter_results::spec_top_value;
use crate::interpreter_results::InterpreterResults;
use crate::lex::SpecDecl;
use crate::lex::TypeTag;
use crate::num::is_float_literal;
use crate::octave_types::zero_token;
use crate::octave_types::SpecValue;

/// Decoding holds no hidden state: the mapping is a function of the raw
/// text alone, so two workspaces decoded from the same text hold identical
/// mappings.
pub proof fn lemma_decode_idempotent(
    w1: InterpreterResults,
    w2: InterpreterResults,
    s: Seq<char>,
)
    requires
        w1.mapping() == spec_decode(s),
        w2.mapping() == spec_decode(s),
    ensures
        w1.mapping() == w2.mapping(),
{
}

/// A name in the built mapping always comes from some declaration at or
/// after the scan position.
proof fn lemma_build_dom(decls: Seq<SpecDecl>, j: int, k: Seq<char>)
    requires
        spec_build(decls, j).contains_key(k),
    ensures
        exists|t: int| j <= t < decls.len() && (#[trigger] decls[t]).name == k,
    decreases decls.len() - j,
{
    if j < 0 || j >= decls.len() {
        assert(!spec_build(decls, j).contains_key(k));
    } else {
        let rest = spec_build(decls, j + 1);
        if rest.contains_key(k) {
            lemma_build_dom(decls, j + 1, k);
        } else {
            assert(decls[j].name == k);
        }
    }
}

/// An entry present from position `j1` on is still present, with the same
/// value, when the scan starts earlier: an earlier declaration never
/// overwrites a later one.
proof fn lemma_build_preserve(decls: Seq<SpecDecl>, j0: int, j1: int, k: Seq<char>)
    requires
        0 <= j0 <= j1,
        spec_build(decls, j1).contains_key(k),
    ensures
        spec_build(decls, j0).contains_key(k),
        spec_build(decls, j0)[k] == spec_build(decls, j1)[k],
    decreases j1 - j0,
{
    if j0 < j1 {
        lemma_build_preserve(decls, j0 + 1, j1, k);
    }
}

/// A top-level declaration that decodes to a value, and whose name no later
/// declaration carries, lands in the final mapping with exactly that value.
pub proof fn lemma_top_decl_decodes(decls: Seq<SpecDecl>, i: int, v: SpecValue)
    requires
        0 <= i < decls.len(),
        decls[i].name != cell_elem_name(),
        spec_top_value(decls, i) == Some(v),
        forall|j: int| i < j < decls.len() ==> (#[trigger] decls[j]).name != decls[i].name,
    ensures
        spec_build(decls, 0).contains_key(decls[i].name),
        spec_build(decls, 0)[decls[i].name] == v,
{
    let k = decls[i].name;
    let rest = spec_build(decls, i + 1);
    if rest.contains_key(k) {
        lemma_build_dom(decls, i + 1, k);
        assert(false);
    }
    assert(spec_build(decls, i).contains_key(k) && spec_build(decls, i)[k] == v);
    lemma_build_preserve(decls, 0, i, k);
}

/// For every well-formed scalar declaration whose data line is a parseable
/// numeric literal, and whose name no later declaration carries, decoding
/// yields exactly that literal as a scalar value.
pub proof fn lemma_scalar_decl_decodes(decls: Seq<SpecDecl>, i: int)
    requires
        0 <= i < decls.len(),
        decls[i].tag == TypeTag::Scalar,
        decls[i].name != cell_elem_name(),
        decls[i].data.len() >= 1,
        is_float_literal(decls[i].data[0]),
        forall|j: int| i < j < decls.len() ==> (#[trigger] decls[j]).name != decls[i].name,
    ensures
        spec_build(decls, 0).contains_key(decls[i].name),
        spec_build(decls, 0)[decls[i].name] == SpecValue::Scalar(decls[i].data[0]),
{
    lemma_top_decl_decodes(decls, i, SpecValue::Scalar(decls[i].data[0]));
}

/// For every matrix declaration whose data block holds exactly
/// `rows * columns` tokens, and whose name no later declaration carries,
/// the decoded grid has exactly `rows` rows of length `columns`, and the
/// entry at `(a, b)` is token number `a * columns + b`.
pub proof fn lemma_matrix_decl_decodes(decls: Seq<SpecDecl>, i: int, r: u64, c: u64)
    requires
        0 <= i < decls.len(),
        decls[i].tag == TypeTag::Matrix,
        decls[i].name != cell_elem_name(),
        decls[i].rows == Some(r),
        decls[i].columns == Some(c),
        dims_ok(r, c),
        data_tokens(decls[i].data).len() == r * c,
        r * c > 0,
        forall|j: int| i < j < decls.len() ==> (#[trigger] decls[j]).name != decls[i].name,
    ensures
        spec_build(decls, 0).contains_key(decls[i].name),
        spec_build(decls, 0)[decls[i].name] == SpecValue::Matrix(
            token_grid(data_tokens(decls[i].data), r as int, c as int),
        ),
        token_grid(data_tokens(decls[i].data), r as int, c as int).len() == r,
        forall|a: int|
            0 <= a < r ==> #[trigger] token_grid(
                data_tokens(decls[i].data),
                r as int,
                c as int,
            )[a].len() == c,
        forall|a: int, b: int|
            0 <= a < r && 0 <= b < c ==> #[trigger] token_grid(
                data_tokens(decls[i].data),
                r as int,
                c as int,
            )[a][b] == numeral_of(data_tokens(decls[i].data)[a * c + b]),
{
    let toks = data_tokens(decls[i].data);
    let g = token_grid(toks, r as int, c as int);
    lemma_top_decl_decodes(decls, i, SpecValue::Matrix(g));
    assert forall|a: int, b: int| 0 <= a < r && 0 <= b < c implies #[trigger] g[a][b]
        == numeral_of(toks[a * c + b]) by {
        assert(a * c + b < r * c) by (nonlinear_arith)
            requires
                0 <= a < r,
                0 <= b < c,
        ;
        assert(0 <= a * c + b) by (nonlinear_arith)
            requires
                0 <= a,
                0 <= b,
                0 <= c,
        ;
    }
}

/// For every diagonal-matrix declaration whose data block holds exactly
/// `min(rows, columns)` tokens, and whose name no later declaration
/// carries, the decoded grid carries token `a` at position `(a, a)` and is
/// exactly zero everywhere off the diagonal.
pub proof fn lemma_diagonal_decl_decodes(decls: Seq<SpecDecl>, i: int, r: u64, c: u64)
    requires
        0 <= i < decls.len(),
        decls[i].tag == TypeTag::DiagonalMatrix,
        decls[i].name != cell_elem_name(),
        decls[i].rows == Some(r),
        decls[i].columns == Some(c),
        dims_ok(r, c),
        data_tokens(decls[i].data).len() == min_dim(r as int, c as int),
        min_dim(r as int, c as int) > 0,
        forall|j: int| i < j < decls.len() ==> (#[trigger] decls[j]).name != decls[i].name,
    ensures
        spec_build(decls, 0).contains_key(decls[i].name),
        spec_build(decls, 0)[decls[i].name] == SpecValue::Matrix(
            diag_grid(data_tokens(decls[i].data), r as int, c as int),
        ),
        diag_grid(data_tokens(decls[i].data), r as int, c as int).len() == r,
        forall|a: int|
            0 <= a < r ==> #[trigger] diag_grid(
                data_tokens(decls[i].data),
                r as int,
                c as int,
            )[a].len() == c,
        forall|a: int, b: int|
            0 <= a < r && 0 <= b < c && a != b ==> #[trigger] diag_grid(
                data_tokens(decls[i].data),
                r as int,
                c as int,
            )[a][b] == zero_token(),
        forall|a: int|
            0 <= a < min_dim(r as int, c as int) ==> #[trigger] diag_grid(
                data_tokens(decls[i].data),
                r as int,
                c as int,
            )[a][a] == numeral_of(data_tokens(decls[i].data)[a]),
{
    let toks = data_tokens(decls[i].data);
    let g = diag_grid(toks, r as int, c as int);
    lemma_top_decl_decodes(decls, i, SpecValue::Matrix(g));
}

} // verus!
