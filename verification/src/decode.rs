//! The four decoders: scalar, string, matrix/diagonal-matrix and cell array.
//! Each consumes one lexed declaration (the cell decoder also consumes the
//! nested element declarations that follow its header) and produces a typed
//! value, or nothing where the declaration is structurally malformed.

use vstd::prelude::*;

verus! {

use crate::lex::Decl;
use crate::lex::SpecDecl;
use crate::lex::TypeTag;
use crate::num::is_float_literal;
use crate::num::check_float_literal;
use crate::octave_types::nan_token;
use crate::octave_types::zero_token;
use crate::octave_types::OctaveType;
use crate::octave_types::SpecValue;
use crate::text::push_tokens;
use crate::text::spec_tokens;
use crate::text::views_of;

/// The token kept for a numeric entry: the entry itself when it is a float
/// literal, the canonical not-a-number token otherwise.
pub open spec fn numeral_of(t: Seq<char>) -> Seq<char> {
    if is_float_literal(t) {
        t
    } else {
        nan_token()
    }
}

/// Normalizes one numeric token.
pub fn numeral(t: &Vec<char>) -> (r: Vec<char>)
    ensures
        r@ == numeral_of(t@),
        is_float_literal(r@),
{
    proof {
        crate::octave_types::lemma_nan_token_literal();
    }
    if check_float_literal(t) {
        let mut r: Vec<char> = Vec::new();
        let mut i: usize = 0;
        while i < t.len()
            invariant
                i <= t@.len(),
                r@ == t@.subrange(0, i as int),
            decreases t@.len() - i,
        {
            r.push(t[i]);
            assert(r@ =~= t@.subrange(0, i + 1));
            i += 1;
        }
        assert(r@ =~= t@);
        r
    } else {
        let mut r: Vec<char> = Vec::new();
        r.push('N');
        r.push('a');
        r.push('N');
        assert(r@ =~= nan_token());
        r
    }
}

/// The data block without its trailing empty lines.
pub open spec fn trim_trailing_empty(lines: Seq<Seq<char>>) -> Seq<Seq<char>>
    decreases lines.len(),
{
    if lines.len() > 0 && lines.last().len() == 0 {
        trim_trailing_empty(lines.drop_last())
    } else {
        lines
    }
}

/// The lines joined with single newlines.
pub open spec fn join_nl(lines: Seq<Seq<char>>) -> Seq<char>
    decreases lines.len(),
{
    if lines.len() == 0 {
        Seq::empty()
    } else if lines.len() == 1 {
        lines[0]
    } else {
        join_nl(lines.drop_last()) + seq!['\n'] + lines.last()
    }
}

/// The text content of a string declaration's data block: the lines up to
/// the trailing empty artifact, joined with newlines.
pub open spec fn spec_text_of(data: Seq<Seq<char>>) -> Seq<char> {
    join_nl(trim_trailing_empty(data))
}

/// Joins a data block into its text content.
pub fn text_of(data: &Vec<Vec<char>>) -> (r: Vec<char>)
    ensures
        r@ == spec_text_of(views_of(data@)),
{
    let ghost dv = views_of(data@);
    let mut end: usize = data.len();
    assert(dv.subrange(0, data@.len() as int) =~= dv);
    while end > 0 && data[end - 1].len() == 0
        invariant
            0 <= end <= data@.len(),
            dv == views_of(data@),
            trim_trailing_empty(dv) == trim_trailing_empty(dv.subrange(0, end as int)),
        decreases end,
    {
        proof {
            let cur = dv.subrange(0, end as int);
            assert(cur.last() == dv[end - 1]);
            assert(dv[end - 1] == data@[end - 1]@);
            assert(cur.drop_last() =~= dv.subrange(0, end - 1));
        }
        end -= 1;
    }
    proof {
        let cur = dv.subrange(0, end as int);
        if end > 0 {
            assert(cur.last() == dv[end - 1]);
            assert(dv[end - 1] == data@[end - 1]@);
            assert(cur.last().len() != 0);
        }
        assert(trim_trailing_empty(cur) == cur);
    }
    let ghost kept = dv.subrange(0, end as int);
    let mut r: Vec<char> = Vec::new();
    let mut i: usize = 0;
    while i < end
        invariant
            0 <= i <= end <= data@.len(),
            dv == views_of(data@),
            kept == dv.subrange(0, end as int),
            r@ == join_nl(kept.subrange(0, i as int)),
        decreases end - i,
    {
        if i > 0 {
            r.push('\n');
        }
        let src = &data[i];
        let mut q: usize = 0;
        let ghost base = r@;
        while q < src.len()
            invariant
                q <= src@.len(),
                r@ == base + src@.subrange(0, q as int),
            decreases src@.len() - q,
        {
            r.push(src[q]);
            assert(r@ =~= base + src@.subrange(0, q + 1));
            q += 1;
        }
        proof {
            assert(src@ == dv[i as int]);
            assert(base + src@.subrange(0, src@.len() as int) =~= base + src@);
            let pre = kept.subrange(0, i as int);
            let now = kept.subrange(0, i + 1);
            assert(now.drop_last() =~= pre);
            assert(now.last() == kept[i as int]);
            assert(kept[i as int] == dv[i as int]);
            if i == 0 {
                assert(join_nl(now) == now[0]);
                assert(r@ =~= now[0]);
            } else {
                assert(join_nl(now) == join_nl(pre) + seq!['\n'] + dv[i as int]);
                assert(r@ =~= join_nl(pre) + seq!['\n'] + dv[i as int]);
            }
        }
        i += 1;
    }
    assert(kept.subrange(0, end as int) =~= kept);
    r
}

/// All tokens of a data block, line by line in order.
pub open spec fn data_tokens(data: Seq<Seq<char>>) -> Seq<Seq<char>>
    decreases data.len(),
{
    if data.len() == 0 {
        Seq::empty()
    } else {
        data_tokens(data.drop_last()) + spec_tokens(data.last())
    }
}

/// Collects the tokens of a data block.
pub fn tokens_of(data: &Vec<Vec<char>>) -> (r: Vec<Vec<char>>)
    ensures
        views_of(r@) == data_tokens(views_of(data@)),
{
    let ghost dv = views_of(data@);
    let mut out: Vec<Vec<char>> = Vec::new();
    let mut i: usize = 0;
    assert(views_of(out@) =~= data_tokens(dv.subrange(0, 0)));
    while i < data.len()
        invariant
            i <= data@.len(),
            dv == views_of(data@),
            views_of(out@) == data_tokens(dv.subrange(0, i as int)),
        decreases data@.len() - i,
    {
        push_tokens(&mut out, &data[i]);
        proof {
            let pre = dv.subrange(0, i as int);
            let now = dv.subrange(0, i + 1);
            assert(now.drop_last() =~= pre);
            assert(now.last() == dv[i as int]);
            assert(dv[i as int] == data@[i as int]@);
        }
        i += 1;
    }
    assert(dv.subrange(0, data@.len() as int) =~= dv);
    out
}

/// Decodes a scalar declaration: its first data line must be a float
/// literal; otherwise the declaration is rejected.
pub open spec fn spec_decode_scalar(d: SpecDecl) -> Option<SpecValue> {
    if d.data.len() >= 1 && is_float_literal(d.data[0]) {
        Some(SpecValue::Scalar(d.data[0]))
    } else {
        None
    }
}

pub fn decode_scalar(d: &Decl) -> (r: Option<OctaveType>)
    ensures
        match r {
            Some(v) => spec_decode_scalar(d@) == Some(v@) && crate::octave_types::value_wf(v@),
            None => spec_decode_scalar(d@) is None,
        },
{
    if d.data.len() == 0 {
        return None;
    }
    assert(views_of(d.data@)[0] == d.data@[0]@);
    if !check_float_literal(&d.data[0]) {
        return None;
    }
    let t = crate::text::string_from(&d.data[0]);
    Some(OctaveType::Scalar(t))
}

/// Decodes a string declaration; the data block is authoritative and the
/// declared element and length headers are not used to truncate.
pub open spec fn spec_decode_text(d: SpecDecl) -> SpecValue {
    SpecValue::Text(spec_text_of(d.data))
}

pub fn decode_text(d: &Decl) -> (r: OctaveType)
    ensures
        r@ == spec_decode_text(d@),
        crate::octave_types::value_wf(r@),
{
    let t = text_of(&d.data);
    OctaveType::Text(crate::text::string_from(&t))
}

// ---------------------------------------------------------------------------
// Matrix and diagonal-matrix decoding.
// ---------------------------------------------------------------------------
/// Machine bound: both dimensions and their product must fit a `usize` so
/// that the grid can be allocated.
pub open spec fn dims_ok(r: u64, c: u64) -> bool {
    r <= usize::MAX && c <= usize::MAX && r * c <= usize::MAX
}

pub open spec fn min_dim(r: int, c: int) -> int {
    if r <= c {
        r
    } else {
        c
    }
}

/// The all-zero grid for a declaration without a data block.
pub open spec fn zero_grid(r: int, c: int) -> Seq<Seq<Seq<char>>> {
    Seq::new(r as nat, |i: int| Seq::new(c as nat, |j: int| zero_token()))
}

/// The grid filled with the tokens in row-major order.
pub open spec fn token_grid(toks: Seq<Seq<char>>, r: int, c: int) -> Seq<Seq<Seq<char>>> {
    Seq::new(
        r as nat,
        |i: int|
            Seq::new(
                c as nat,
                |j: int|
                    if 0 <= i && 0 <= j && 0 <= i * c + j < toks.len() {
                        numeral_of(toks[i * c + j])
                    } else {
                        zero_token()
                    },
            ),
    )
}

/// The square-scattered grid of a diagonal declaration: entry `i` of the
/// compact token list lands at position `(i, i)`, everything else is zero.
pub open spec fn diag_grid(toks: Seq<Seq<char>>, r: int, c: int) -> Seq<Seq<Seq<char>>> {
    Seq::new(
        r as nat,
        |i: int|
            Seq::new(
                c as nat,
                |j: int|
                    if i == j && 0 <= i < toks.len() {
                        numeral_of(toks[i])
                    } else {
                        zero_token()
                    },
            ),
    )
}

/// Decodes a matrix or diagonal-matrix declaration. A plain matrix needs
/// `rows * columns` tokens, a diagonal one `min(rows, columns)`; an absent
/// data block yields the all-zero grid; any other token count rejects the
/// declaration.
pub open spec fn spec_decode_matrix(d: SpecDecl, diag: bool) -> Option<SpecValue> {
    match (d.rows, d.columns) {
        (Some(r), Some(c)) => {
            if !dims_ok(r, c) {
                None
            } else {
                let toks = data_tokens(d.data);
                let want = if diag {
                    min_dim(r as int, c as int)
                } else {
                    r * c
                };
                if toks.len() == 0 {
                    Some(SpecValue::Matrix(zero_grid(r as int, c as int)))
                } else if toks.len() == want {
                    if diag {
                        Some(SpecValue::Matrix(diag_grid(toks, r as int, c as int)))
                    } else {
                        Some(SpecValue::Matrix(token_grid(toks, r as int, c as int)))
                    }
                } else {
                    None
                }
            }
        },
        _ => None,
    }
}

proof fn lemma_zero_token_literal()
    ensures
        is_float_literal(zero_token()),
{
    let z = zero_token();
    assert(z[0] == '0');
    assert(crate::num::all_digits(z));
    crate::octave_types::lemma_digits_literal(z);
}

/// Builds the zero-filled token string.
fn zero_string() -> (r: String)
    ensures
        r@ == zero_token(),
{
    let mut v: Vec<char> = Vec::new();
    v.push('0');
    assert(v@ =~= zero_token());
    crate::text::string_from(&v)
}

pub fn decode_matrix(d: &Decl, diag: bool) -> (r: Option<OctaveType>)
    ensures
        match r {
            Some(v) => spec_decode_matrix(d@, diag) == Some(v@) && crate::octave_types::value_wf(
                v@,
            ),
            None => spec_decode_matrix(d@, diag) is None,
        },
{
    let rows64 = match d.rows {
        Some(r) => r,
        None => {
            return None;
        },
    };
    let cols64 = match d.columns {
        Some(c) => c,
        None => {
            return None;
        },
    };
    let total64 = match rows64.checked_mul(cols64) {
        Some(t) => t,
        None => {
            assert(rows64 * cols64 > u64::MAX >= usize::MAX);
            return None;
        },
    };
    if rows64 > (usize::MAX as u64) || cols64 > (usize::MAX as u64) || total64 > (usize::MAX
        as u64) {
        return None;
    }
    let rows = rows64 as usize;
    let cols = cols64 as usize;
    let toks = tokens_of(&d.data);
    let ghost tv = data_tokens(d@.data);
    assert(views_of(toks@) == tv);
    let grid: Vec<Vec<String>>;
    if toks.len() == 0 {
        grid = fill_zero_grid(rows, cols);
    } else if !diag && toks.len() == rows * cols {
        grid = fill_token_grid(&toks, rows, cols);
    } else if diag && toks.len() == (if rows < cols {
        rows
    } else {
        cols
    }) {
        grid = fill_diag_grid(&toks, rows, cols);
    } else {
        return None;
    }
    let v = OctaveType::Matrix(grid);
    Some(v)
}

/// Builds the `r` by `c` grid of zero tokens.
fn fill_zero_grid(r: usize, c: usize) -> (g: Vec<Vec<String>>)
    ensures
        crate::octave_types::grid_view(g@) == zero_grid(r as int, c as int),
        crate::octave_types::value_wf(SpecValue::Matrix(crate::octave_types::grid_view(g@))),
{
    proof {
        lemma_zero_token_literal();
    }
    let mut g: Vec<Vec<String>> = Vec::new();
    let mut i: usize = 0;
    while i < r
        invariant
            i <= r,
            g@.len() == i,
            forall|a: int| 0 <= a < i ==> (#[trigger] g@[a])@.len() == c,
            forall|a: int, b: int|
                0 <= a < i && 0 <= b < c ==> (#[trigger] g@[a]@[b])@ == zero_token(),
        decreases r - i,
    {
        let mut row: Vec<String> = Vec::new();
        let mut j: usize = 0;
        while j < c
            invariant
                j <= c,
                row@.len() == j,
                forall|b: int| 0 <= b < j ==> (#[trigger] row@[b])@ == zero_token(),
            decreases c - j,
        {
            row.push(zero_string());
            j += 1;
        }
        g.push(row);
        i += 1;
    }
    proof {
        lemma_grid_eq(g@, zero_grid(r as int, c as int));
    }
    g
}

/// Deep equality of a built token grid against its target, from elementwise
/// facts.
proof fn lemma_grid_eq(g: Seq<Vec<String>>, target: Seq<Seq<Seq<char>>>)
    requires
        g.len() == target.len(),
        forall|a: int| 0 <= a < g.len() ==> (#[trigger] g[a])@.len() == target[a].len(),
        forall|a: int, b: int|
            0 <= a < g.len() && 0 <= b < target[a].len() ==> (#[trigger] g[a]@[b])@
                == target[a][b],
    ensures
        crate::octave_types::grid_view(g) == target,
{
    let gv = crate::octave_types::grid_view(g);
    assert forall|a: int| 0 <= a < gv.len() implies gv[a] == target[a] by {
        let m1 = g[a]@.map_values(|t: String| t@);
        assert(gv[a] == m1);
        assert forall|b: int| 0 <= b < m1.len() implies #[trigger] m1[b] == target[a][b] by {
            assert(m1[b] == g[a]@[b]@);
        }
        assert(m1 =~= target[a]);
    }
    assert(gv =~~= target);
}

/// Builds the row-major token grid.
fn fill_token_grid(toks: &Vec<Vec<char>>, r: usize, c: usize) -> (g: Vec<Vec<String>>)
    requires
        toks@.len() == r * c,
    ensures
        crate::octave_types::grid_view(g@) == token_grid(views_of(toks@), r as int, c as int),
        crate::octave_types::value_wf(
            SpecValue::Matrix(crate::octave_types::grid_view(g@)),
        ),
{
    let ghost tv = views_of(toks@);
    let ghost target = token_grid(tv, r as int, c as int);
    let tl = toks.len();
    assert(r * c <= usize::MAX);
    let mut g: Vec<Vec<String>> = Vec::new();
    let mut i: usize = 0;
    while i < r
        invariant
            i <= r,
            r * c <= usize::MAX,
            toks@.len() == r * c,
            tv == views_of(toks@),
            target == token_grid(tv, r as int, c as int),
            g@.len() == i,
            forall|a: int| 0 <= a < i ==> (#[trigger] g@[a])@.len() == c,
            forall|a: int, b: int|
                0 <= a < i && 0 <= b < c ==> (#[trigger] g@[a]@[b])@ == target[a][b],
            forall|a: int, b: int|
                0 <= a < i && 0 <= b < c ==> is_float_literal((#[trigger] g@[a]@[b])@),
        decreases r - i,
    {
        let mut row: Vec<String> = Vec::new();
        let mut j: usize = 0;
        while j < c
            invariant
                j <= c,
                i < r,
                r * c <= usize::MAX,
                toks@.len() == r * c,
                tv == views_of(toks@),
                target == token_grid(tv, r as int, c as int),
                row@.len() == j,
                forall|b: int| 0 <= b < j ==> (#[trigger] row@[b])@ == target[i as int][b],
                forall|b: int| 0 <= b < j ==> is_float_literal((#[trigger] row@[b])@),
            decreases c - j,
        {
            proof {
                assert(i * c + j < r * c) by (nonlinear_arith)
                    requires
                        0 <= i < r,
                        0 <= j < c,
                ;
                assert(0 <= i * c + j) by (nonlinear_arith)
                    requires
                        0 <= i,
                        0 <= j,
                        0 <= c,
                ;
            }
            let idx = i * c + j;
            let t = numeral(&toks[idx]);
            proof {
                assert(tv[idx as int] == toks@[idx as int]@);
                assert(target[i as int][j as int] == numeral_of(tv[idx as int]));
            }
            row.push(crate::text::string_from(&t));
            j += 1;
        }
        g.push(row);
        i += 1;
    }
    proof {
        assert(forall|a: int| 0 <= a < target.len() ==> (#[trigger] target[a]).len() == c);
        lemma_grid_eq(g@, target);
        assert(crate::octave_types::rect(target)) by {
            assert(forall|a: int|
                0 <= a < target.len() ==> (#[trigger] target[a]).len() == target[0].len());
        }
    }
    g
}

/// Builds the diagonal-scatter grid.
fn fill_diag_grid(toks: &Vec<Vec<char>>, r: usize, c: usize) -> (g: Vec<Vec<String>>)
    requires
        toks@.len() == min_dim(r as int, c as int),
    ensures
        crate::octave_types::grid_view(g@) == diag_grid(views_of(toks@), r as int, c as int),
        crate::octave_types::value_wf(
            SpecValue::Matrix(crate::octave_types::grid_view(g@)),
        ),
{
    proof {
        lemma_zero_token_literal();
    }
    let ghost tv = views_of(toks@);
    let ghost target = diag_grid(tv, r as int, c as int);
    let mut g: Vec<Vec<String>> = Vec::new();
    let mut i: usize = 0;
    while i < r
        invariant
            i <= r,
            toks@.len() == min_dim(r as int, c as int),
            tv == views_of(toks@),
            target == diag_grid(tv, r as int, c as int),
            g@.len() == i,
            forall|a: int| 0 <= a < i ==> (#[trigger] g@[a])@.len() == c,
            forall|a: int, b: int|
                0 <= a < i && 0 <= b < c ==> (#[trigger] g@[a]@[b])@ == target[a][b],
            forall|a: int, b: int|
                0 <= a < i && 0 <= b < c ==> is_float_literal((#[trigger] g@[a]@[b])@),
        decreases r - i,
    {
        let mut row: Vec<String> = Vec::new();
        let mut j: usize = 0;
        while j < c
            invariant
                j <= c,
                i < r,
                toks@.len() == min_dim(r as int, c as int),
                tv == views_of(toks@),
                target == diag_grid(tv, r as int, c as int),
                row@.len() == j,
                forall|b: int| 0 <= b < j ==> (#[trigger] row@[b])@ == target[i as int][b],
                forall|b: int| 0 <= b < j ==> is_float_literal((#[trigger] row@[b])@),
            decreases c - j,
        {
            if i == j {
                let t = numeral(&toks[i]);
                proof {
                    assert(tv[i as int] == toks@[i as int]@);
                    assert(target[i as int][j as int] == numeral_of(tv[i as int]));
                }
                row.push(crate::text::string_from(&t));
            } else {
                proof {
                    lemma_zero_token_literal();
                    assert(target[i as int][j as int] == zero_token());
                }
                row.push(zero_string());
            }
            j += 1;
        }
        g.push(row);
        i += 1;
    }
    proof {
        lemma_grid_eq(g@, target);
        assert(crate::octave_types::rect(target)) by {
            assert(forall|a: int|
                0 <= a < target.len() ==> (#[trigger] target[a]).len() == target[0].len());
        }
    }
    g
}

// ---------------------------------------------------------------------------
// Cell-array decoding: a cell header is followed by exactly rows * columns
// nested element declarations, consumed in row-major order; an element may
// itself be a cell, consuming its own run recursively.
// ---------------------------------------------------------------------------
/// The placeholder name that every nested element declaration carries.
pub open spec fn cell_elem_name() -> Seq<char> {
    "<cell-element>"@
}

/// The value of one simple (non-cell) element declaration. A scalar element
/// degrades to the not-a-number token, and a malformed matrix element to the
/// empty value, so that one corrupt entry does not fail the whole array.
pub open spec fn spec_elem_simple(d: SpecDecl) -> SpecValue {
    match d.tag {
        TypeTag::Scalar => SpecValue::Scalar(
            if d.data.len() >= 1 {
                numeral_of(d.data[0])
            } else {
                nan_token()
            },
        ),
        TypeTag::DqString => SpecValue::Text(spec_text_of(d.data)),
        TypeTag::SqString => SpecValue::Text(spec_text_of(d.data)),
        TypeTag::Matrix => match spec_decode_matrix(d, false) {
            Some(v) => v,
            None => SpecValue::Empty,
        },
        TypeTag::DiagonalMatrix => match spec_decode_matrix(d, true) {
            Some(v) => v,
            None => SpecValue::Empty,
        },
        TypeTag::Cell => SpecValue::Empty,
        TypeTag::Unknown => SpecValue::Empty,
    }
}

/// The `r` by `c` grid over a flat row-major run of values.
pub open spec fn chunk_grid(vals: Seq<SpecValue>, r: int, c: int) -> Seq<Seq<SpecValue>> {
    Seq::new(
        r as nat,
        |i: int|
            Seq::new(
                c as nat,
                |j: int|
                    if 0 <= i && 0 <= j && 0 <= i * c + j < vals.len() {
                        vals[i * c + j]
                    } else {
                        SpecValue::Empty
                    },
            ),
    )
}

/// Consumes `n` nested element declarations starting at `i`; yields their
/// values and the index just past the last declaration consumed, or nothing
/// where the run is malformed.
pub open spec fn spec_take(decls: Seq<SpecDecl>, i: int, n: int) -> Option<(Seq<SpecValue>, int)>
    decreases decls.len() - i, n,
{
    if n <= 0 {
        Some((Seq::empty(), i))
    } else if i < 0 || i >= decls.len() {
        None
    } else if decls[i].name != cell_elem_name() {
        None
    } else if decls[i].tag is Cell {
        match (decls[i].rows, decls[i].columns) {
            (Some(r), Some(c)) => {
                if !dims_ok(r, c) {
                    None
                } else {
                    match spec_take(decls, i + 1, r * c) {
                        Some((vs, e)) => {
                            // The end index always lies in this range; the
                            // guard only keeps the recursion well-founded.
                            if i + 1 <= e <= decls.len() {
                                let v = SpecValue::Cell(chunk_grid(vs, r as int, c as int));
                                match spec_take(decls, e, n - 1) {
                                    Some((vs2, e2)) => Some((seq![v] + vs2, e2)),
                                    None => None,
                                }
                            } else {
                                None
                            }
                        },
                        None => None,
                    }
                }
            },
            _ => None,
        }
    } else {
        let v = spec_elem_simple(decls[i]);
        match spec_take(decls, i + 1, n - 1) {
            Some((vs, e)) => Some((seq![v] + vs, e)),
            None => None,
        }
    }
}

/// The views of a run of values.
pub open spec fn vals_view(vs: Seq<OctaveType>) -> Seq<SpecValue> {
    vs.map_values(|v: OctaveType| crate::octave_types::view_of(v))
}

/// Decodes one simple element declaration.
fn elem_simple(d: &Decl) -> (v: OctaveType)
    requires
        !(d.tag is Cell),
    ensures
        v@ == spec_elem_simple(d@),
        crate::octave_types::value_wf(v@),
{
    match d.tag {
        TypeTag::Scalar => {
            if d.data.len() >= 1 {
                assert(views_of(d.data@)[0] == d.data@[0]@);
                let t = numeral(&d.data[0]);
                OctaveType::Scalar(crate::text::string_from(&t))
            } else {
                proof {
                    crate::octave_types::lemma_nan_token_literal();
                }
                let mut t: Vec<char> = Vec::new();
                t.push('N');
                t.push('a');
                t.push('N');
                assert(t@ =~= nan_token());
                OctaveType::Scalar(crate::text::string_from(&t))
            }
        },
        TypeTag::DqString => decode_text(d),
        TypeTag::SqString => decode_text(d),
        TypeTag::Matrix => match decode_matrix(d, false) {
            Some(v) => v,
            None => OctaveType::Empty,
        },
        TypeTag::DiagonalMatrix => match decode_matrix(d, true) {
            Some(v) => v,
            None => OctaveType::Empty,
        },
        TypeTag::Cell => OctaveType::Empty,
        TypeTag::Unknown => OctaveType::Empty,
    }
}

/// Arranges a flat run of values into an `r` by `c` grid.
pub fn chunk_exec(vals: Vec<OctaveType>, r: usize, c: usize) -> (g: Vec<Vec<OctaveType>>)
    requires
        vals@.len() == r * c,
        r * c <= usize::MAX,
    ensures
        crate::octave_types::view_of(OctaveType::Cell(g)) == SpecValue::Cell(
            chunk_grid(vals_view(vals@), r as int, c as int),
        ),
{
    let ghost vv = vals_view(vals@);
    let ghost target = chunk_grid(vv, r as int, c as int);
    let mut rest = vals;
    let ghost whole = rest@;
    let mut g: Vec<Vec<OctaveType>> = Vec::new();
    let mut i: usize = 0;
    assert(rest@ =~= whole.subrange((i * c) as int, whole.len() as int));
    while i < r
        invariant
            i <= r,
            r * c <= usize::MAX,
            whole.len() == r * c,
            vv == vals_view(whole),
            target == chunk_grid(vv, r as int, c as int),
            i * c <= whole.len(),
            rest@ == whole.subrange((i * c) as int, whole.len() as int),
            g@.len() == i,
            forall|a: int| 0 <= a < i ==> (#[trigger] g@[a])@.len() == c,
            forall|a: int, b: int|
                0 <= a < i && 0 <= b < c ==> crate::octave_types::view_of(#[trigger] g@[a]@[b])
                    == target[a][b],
        decreases r - i,
    {
        proof {
            assert((i + 1) * c == i * c + c) by (nonlinear_arith);
            assert(i * c + c <= r * c) by (nonlinear_arith)
                requires
                    0 <= i < r,
                    0 <= c,
            ;
        }
        let mut row: Vec<OctaveType> = Vec::new();
        let mut j: usize = 0;
        while j < c
            invariant
                j <= c,
                i < r,
                r * c <= usize::MAX,
                i * c + c <= r * c,
                whole.len() == r * c,
                vv == vals_view(whole),
                target == chunk_grid(vv, r as int, c as int),
                rest@ == whole.subrange((i * c + j) as int, whole.len() as int),
                row@.len() == j,
                forall|b: int|
                    0 <= b < j ==> crate::octave_types::view_of(#[trigger] row@[b])
                        == target[i as int][b],
            decreases c - j,
        {
            let e = rest.remove(0);
            proof {
                assert(whole.subrange((i * c + j) as int, whole.len() as int)[0] == whole[(i * c
                    + j) as int]);
                assert(rest@ =~= whole.subrange((i * c + j + 1) as int, whole.len() as int));
                assert(target[i as int][j as int] == vv[(i * c + j) as int]);
                assert(vv[(i * c + j) as int] == crate::octave_types::view_of(
                    whole[(i * c + j) as int],
                ));
            }
            row.push(e);
            j += 1;
        }
        g.push(row);
        proof {
            assert(rest@ =~= whole.subrange(((i + 1) * c) as int, whole.len() as int));
        }
        i += 1;
    }
    proof {
        let built = crate::octave_types::view_of(OctaveType::Cell(g));
        let bg = built->Cell_0;
        assert(bg.len() == target.len());
        assert forall|a: int| 0 <= a < bg.len() implies bg[a] == target[a] by {
            assert(bg[a].len() == g@[a]@.len());
            assert forall|b: int| 0 <= b < bg[a].len() implies bg[a][b] == target[a][b] by {
                assert(bg[a][b] == crate::octave_types::view_of(g@[a]@[b]));
            }
            assert(bg[a] =~= target[a]);
        }
        assert(bg =~= target);
    }
    g
}

/// Consumes `n` nested element declarations starting at `i`.
pub fn take_elems(decls: &Vec<Decl>, i: usize, n: u64) -> (r: Option<(Vec<OctaveType>, usize)>)
    ensures
        match r {
            Some(p) => {
                &&& crate::lex::decls_view(decls@).len() == decls@.len()
                &&& spec_take(crate::lex::decls_view(decls@), i as int, n as int) == Some(
                    (vals_view(p.0@), p.1 as int),
                )
                &&& p.0@.len() == n
                &&& i <= p.1
                &&& n == 0 ==> p.1 == i
                &&& n > 0 ==> p.1 <= decls@.len()
                &&& forall|t: int|
                    0 <= t < p.0@.len() ==> crate::octave_types::value_wf(
                        crate::octave_types::view_of(#[trigger] p.0@[t]),
                    )
            },
            None => spec_take(crate::lex::decls_view(decls@), i as int, n as int) is None,
        },
    decreases decls@.len() - i, n,
{
    let ghost dv = crate::lex::decls_view(decls@);
    if n == 0 {
        let empty: Vec<OctaveType> = Vec::new();
        assert(vals_view(empty@) =~= Seq::empty());
        return Some((empty, i));
    }
    if i >= decls.len() {
        return None;
    }
    let d = &decls[i];
    assert(dv[i as int] == decls@[i as int]@);
    if !crate::lex::chars_eq_str(&d.name, "<cell-element>") {
        return None;
    }
    if let TypeTag::Cell = d.tag {
        let r64 = match d.rows {
            Some(r) => r,
            None => {
                return None;
            },
        };
        let c64 = match d.columns {
            Some(c) => c,
            None => {
                return None;
            },
        };
        let total = match r64.checked_mul(c64) {
            Some(t) => t,
            None => {
                assert(r64 * c64 > u64::MAX >= usize::MAX);
                return None;
            },
        };
        if r64 > (usize::MAX as u64) || c64 > (usize::MAX as u64) || total > (usize::MAX as u64) {
            return None;
        }
        let (vs, e) = match take_elems(decls, i + 1, total) {
            Some(p) => p,
            None => {
                return None;
            },
        };
        let ghost vsv = vals_view(vs@);
        proof {
            lemma_chunk_wf(vsv, r64 as int, c64 as int);
        }
        let grid = chunk_exec(vs, r64 as usize, c64 as usize);
        let v = OctaveType::Cell(grid);
        let (vs2, e2) = match take_elems(decls, e, n - 1) {
            Some(p) => p,
            None => {
                return None;
            },
        };
        let ghost ovs = vs2@;
        let mut out = vs2;
        out.insert(0, v);
        proof {
            assert(out@ == ovs.insert(0, v));
            assert(vals_view(out@) =~= seq![v@] + vals_view(ovs));
            assert forall|t: int|
                0 <= t < out@.len() implies crate::octave_types::value_wf(
                crate::octave_types::view_of(#[trigger] out@[t]),
            ) by {
                if t == 0 {
                    assert(out@[0] == v);
                } else {
                    assert(out@[t] == ovs[t - 1]);
                }
            }
        }
        Some((out, e2))
    } else {
        let v = elem_simple(d);
        let (vs, e) = match take_elems(decls, i + 1, n - 1) {
            Some(p) => p,
            None => {
                return None;
            },
        };
        let ghost ovs = vs@;
        let mut out = vs;
        out.insert(0, v);
        proof {
            assert(out@ == ovs.insert(0, v));
            assert(vals_view(out@) =~= seq![v@] + vals_view(ovs));
            assert forall|t: int|
                0 <= t < out@.len() implies crate::octave_types::value_wf(
                crate::octave_types::view_of(#[trigger] out@[t]),
            ) by {
                if t == 0 {
                    assert(out@[0] == v);
                } else {
                    assert(out@[t] == ovs[t - 1]);
                }
            }
        }
        Some((out, e))
    }
}

/// A chunked grid of well-formed values is itself well-formed.
pub proof fn lemma_chunk_wf(vals: Seq<SpecValue>, r: int, c: int)
    requires
        forall|t: int|
            0 <= t < vals.len() ==> crate::octave_types::value_wf(#[trigger] vals[t]),
    ensures
        crate::octave_types::value_wf(SpecValue::Cell(chunk_grid(vals, r, c))),
{
    let g = chunk_grid(vals, r, c);
    assert(crate::octave_types::rect(g)) by {
        assert(forall|a: int| 0 <= a < g.len() ==> (#[trigger] g[a]).len() == g[0].len());
    }
    assert forall|a: int, b: int|
        0 <= a < g.len() && 0 <= b < g[a].len() implies crate::octave_types::value_wf(
        #[trigger] g[a][b],
    ) by {
        assert(crate::octave_types::value_wf(SpecValue::Empty));
    }
}

} // verus!
