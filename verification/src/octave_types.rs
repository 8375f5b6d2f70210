//! The value model: a closed tagged union holding the decoded form of any
//! workspace variable. A numeric entry is carried as its literal token text
//! (validated against the float-literal grammar), so no arithmetic is ever
//! performed on it; a matrix is a rectangular grid of such tokens; a cell
//! array is a rectangular grid of nested values.

use vstd::prelude::*;

verus! {

use crate::num::all_digits;
use crate::num::dec_digits;
use crate::num::dot_count;
use crate::num::is_count;
use crate::num::is_float_literal;
use crate::num::lemma_dec_digits_are_digits;
use crate::num::u64_digits;
use crate::text::lemma_find_first_is;
use crate::text::string_from;

/// The mathematical shape of a decoded value: token text as character
/// sequences, grids as sequences of rows.
pub enum SpecValue {
    Scalar(Seq<char>),
    ComplexScalar(Seq<char>, Seq<char>),
    Matrix(Seq<Seq<Seq<char>>>),
    Text(Seq<char>),
    Cell(Seq<Seq<SpecValue>>),
    Empty,
    Error(Seq<char>),
}

/// A decoded workspace value. Numeric entries keep their literal token text;
/// the variants mirror the dump's type tags.
#[derive(Debug)]
pub enum OctaveType {
    /// One numeric literal token.
    Scalar(String),
    /// Real and imaginary literal tokens. The decoder does not produce this
    /// variant; it is representable for the call layer.
    ComplexScalar(String, String),
    /// A rectangular grid of numeric literal tokens.
    Matrix(Vec<Vec<String>>),
    /// Decoded string content.
    Text(String),
    /// A rectangular grid of nested values.
    Cell(Vec<Vec<OctaveType>>),
    /// Explicit absence; also the fallback for an unrecognized cell entry.
    Empty,
    /// A message carried by the call layer; never produced by the decoder.
    Error(String),
}

/// The view of a token grid.
pub open spec fn grid_view(g: Seq<Vec<String>>) -> Seq<Seq<Seq<char>>> {
    g.map_values(|row: Vec<String>| row@.map_values(|t: String| t@))
}

/// The view of a value.
pub open spec fn view_of(v: OctaveType) -> SpecValue
    decreases v,
{
    match v {
        OctaveType::Scalar(t) => SpecValue::Scalar(t@),
        OctaveType::ComplexScalar(re, im) => SpecValue::ComplexScalar(re@, im@),
        OctaveType::Matrix(g) => SpecValue::Matrix(grid_view(g@)),
        OctaveType::Text(s) => SpecValue::Text(s@),
        OctaveType::Cell(g) => SpecValue::Cell(
            Seq::new(
                g@.len(),
                |i: int|
                    if 0 <= i < g@.len() {
                        Seq::new(
                            g@[i]@.len(),
                            |j: int|
                                if 0 <= j < g@[i]@.len() {
                                    view_of(g@[i]@[j])
                                } else {
                                    SpecValue::Empty
                                },
                        )
                    } else {
                        Seq::empty()
                    },
            ),
        ),
        OctaveType::Empty => SpecValue::Empty,
        OctaveType::Error(m) => SpecValue::Error(m@),
    }
}

impl View for OctaveType {
    type V = SpecValue;

    open spec fn view(&self) -> SpecValue {
        view_of(*self)
    }
}

/// A grid is rectangular when every row has the length of the first.
pub open spec fn rect<T>(g: Seq<Seq<T>>) -> bool {
    forall|i: int| 0 <= i < g.len() ==> (#[trigger] g[i]).len() == g[0].len()
}

/// Well-formedness: numeric tokens are float literals and grids are
/// rectangular, recursively.
pub open spec fn value_wf(v: SpecValue) -> bool
    decreases v,
{
    match v {
        SpecValue::Scalar(t) => is_float_literal(t),
        SpecValue::ComplexScalar(re, im) => is_float_literal(re) && is_float_literal(im),
        SpecValue::Matrix(g) => rect(g) && forall|i: int, j: int|
            0 <= i < g.len() && 0 <= j < g[i].len() ==> is_float_literal(#[trigger] g[i][j]),
        SpecValue::Text(_) => true,
        SpecValue::Cell(g) => rect(g) && forall|i: int, j: int|
            0 <= i < g.len() && 0 <= j < g[i].len() ==> value_wf(#[trigger] g[i][j]),
        SpecValue::Empty => true,
        SpecValue::Error(_) => true,
    }
}

/// The canonical token stored for an unparseable numeric entry.
pub open spec fn nan_token() -> Seq<char> {
    seq!['N', 'a', 'N']
}

/// The canonical token for a zero fill entry.
pub open spec fn zero_token() -> Seq<char> {
    seq!['0']
}

pub proof fn lemma_nan_token_literal()
    ensures
        is_float_literal(nan_token()),
{
    let t = nan_token();
    assert(t[0] == 'N' && t[1] == 'a' && t[2] == 'N');
    let w = seq!['n', 'a', 'n'];
    assert(w[0] == 'n' && w[1] == 'a' && w[2] == 'n');
    assert('N' as int + 32 == 'n' as int);
    assert(forall|i: int| 0 <= i < 3 ==> crate::num::ci_eq(#[trigger] t[i], w[i]));
    assert(crate::num::is_special_word(t));
}

/// A non-empty digit run is a float literal, with or without a leading minus.
pub proof fn lemma_digits_literal(s: Seq<char>)
    requires
        is_count(s),
    ensures
        is_float_literal(s),
        is_float_literal(seq!['-'] + s),
{
    let p = |c: char| c == 'e' || c == 'E';
    assert forall|i: int| 0 <= i < s.len() implies !p(s[i]) by {
        assert(crate::num::is_digit(s[i]));
    }
    lemma_find_first_is(s, p, s.len() as int);
    lemma_all_digits_no_dot(s);
    assert(crate::num::is_mantissa(s));
    let m = seq!['-'] + s;
    assert(m[0] == '-');
    assert(crate::num::strip_sign(m) =~= s);
}

proof fn lemma_all_digits_no_dot(s: Seq<char>)
    requires
        all_digits(s),
    ensures
        dot_count(s) == 0,
    decreases s.len(),
{
    if s.len() > 0 {
        assert(all_digits(s.drop_last()));
        lemma_all_digits_no_dot(s.drop_last());
        assert(crate::num::is_digit(s.last()));
    }
}

/// The decimal token of a signed integer.
pub open spec fn int_token(i: int) -> Seq<char> {
    if i < 0 {
        seq!['-'] + dec_digits(-i)
    } else {
        dec_digits(i)
    }
}

pub proof fn lemma_int_token_literal(i: int)
    ensures
        is_float_literal(int_token(i)),
{
    if i < 0 {
        lemma_dec_digits_are_digits(-i);
        lemma_digits_literal(dec_digits(-i));
    } else {
        lemma_dec_digits_are_digits(i);
        lemma_digits_literal(dec_digits(i));
    }
}

/// The error for a narrowing accessor applied to the wrong variant.
#[derive(Debug)]
pub struct OctaveTryIntoError {
    message: String,
}

impl View for OctaveTryIntoError {
    type V = Seq<char>;

    closed spec fn view(&self) -> Seq<char> {
        self.message@
    }
}

impl OctaveTryIntoError {
    pub fn new(message: String) -> (r: OctaveTryIntoError)
        ensures
            r@ == message@,
    {
        OctaveTryIntoError { message }
    }

    /// The human-readable description of the mismatch.
    pub fn message(self) -> (m: String)
        ensures
            m@ == self@,
    {
        self.message
    }
}

impl OctaveType {
    /// Unwraps a scalar into its literal token text.
    pub fn try_into_scalar(self) -> (r: Result<String, OctaveTryIntoError>)
        ensures
            match r {
                Ok(t) => self@ == SpecValue::Scalar(t@),
                Err(e) => !(self@ is Scalar) && e@ == "not a scalar value"@,
            },
    {
        match self {
            OctaveType::Scalar(t) => Ok(t),
            _ => Err(OctaveTryIntoError::new("not a scalar value".to_owned())),
        }
    }

    /// Unwraps a string value.
    pub fn try_into_string(self) -> (r: Result<String, OctaveTryIntoError>)
        ensures
            match r {
                Ok(s) => self@ == SpecValue::Text(s@),
                Err(e) => !(self@ is Text) && e@ == "not a string value"@,
            },
    {
        match self {
            OctaveType::Text(s) => Ok(s),
            _ => Err(OctaveTryIntoError::new("not a string value".to_owned())),
        }
    }

    /// Unwraps a matrix into its grid of literal tokens.
    pub fn try_into_matrix(self) -> (r: Result<Vec<Vec<String>>, OctaveTryIntoError>)
        ensures
            match r {
                Ok(g) => self@ == SpecValue::Matrix(grid_view(g@)),
                Err(e) => !(self@ is Matrix) && e@ == "not a matrix value"@,
            },
    {
        match self {
            OctaveType::Matrix(g) => Ok(g),
            _ => Err(OctaveTryIntoError::new("not a matrix value".to_owned())),
        }
    }

    /// Unwraps a cell array into its grid of values.
    pub fn try_into_vec_octave_type(self) -> (r: Result<Vec<Vec<OctaveType>>, OctaveTryIntoError>)
        ensures
            match r {
                Ok(g) => self@ is Cell && self@ == view_of(OctaveType::Cell(g)),
                Err(e) => !(self@ is Cell) && e@ == "not a cell array value"@,
            },
    {
        match self {
            OctaveType::Cell(g) => Ok(g),
            _ => Err(OctaveTryIntoError::new("not a cell array value".to_owned())),
        }
    }

    /// Unwraps an explicit absence.
    pub fn try_into_empty(self) -> (r: Result<(), OctaveTryIntoError>)
        ensures
            match r {
                Ok(_) => self@ is Empty,
                Err(e) => !(self@ is Empty) && e@ == "not an empty value"@,
            },
    {
        match self {
            OctaveType::Empty => Ok(()),
            _ => Err(OctaveTryIntoError::new("not an empty value".to_owned())),
        }
    }

    /// The scalar holding the decimal token of an unsigned integer.
    pub fn scalar_from_u64(n: u64) -> (r: OctaveType)
        ensures
            r@ == SpecValue::Scalar(int_token(n as int)),
            value_wf(r@),
    {
        proof {
            lemma_int_token_literal(n as int);
        }
        OctaveType::Scalar(string_from(&u64_digits(n)))
    }

    /// The scalar holding the decimal token of a signed integer.
    pub fn scalar_from_i64(n: i64) -> (r: OctaveType)
        ensures
            r@ == SpecValue::Scalar(int_token(n as int)),
            value_wf(r@),
    {
        proof {
            lemma_int_token_literal(n as int);
        }
        if n >= 0 {
            OctaveType::Scalar(string_from(&u64_digits(n as u64)))
        } else {
            let m: u64 = ((-(n + 1)) as u64) + 1;
            assert(m == -(n as int));
            let mut cs: Vec<char> = Vec::new();
            cs.push('-');
            let ds = u64_digits(m);
            let mut i: usize = 0;
            while i < ds.len()
                invariant
                    i <= ds@.len(),
                    cs@ == seq!['-'] + ds@.subrange(0, i as int),
                decreases ds@.len() - i,
            {
                cs.push(ds[i]);
                assert(cs@ =~= seq!['-'] + ds@.subrange(0, i + 1));
                i += 1;
            }
            assert(cs@ =~= seq!['-'] + ds@);
            OctaveType::Scalar(string_from(&cs))
        }
    }

    /// The string value holding the given text.
    pub fn from_text(s: String) -> (r: OctaveType)
        ensures
            r@ == SpecValue::Text(s@),
            value_wf(r@),
    {
        OctaveType::Text(s)
    }
}

/// The token grid holding the decimal tokens of a grid of signed integers.
pub open spec fn int_grid_tokens(g: Seq<Seq<i64>>) -> Seq<Seq<Seq<char>>> {
    g.map_values(|row: Seq<i64>| row.map_values(|x: i64| int_token(x as int)))
}

impl OctaveType {
    /// The matrix holding one row of integer entries.
    pub fn matrix_from_i64_row(row: &Vec<i64>) -> (r: OctaveType)
        ensures
            r@ == SpecValue::Matrix(int_grid_tokens(seq![row@])),
            value_wf(r@),
    {
        let mut rows: Vec<Vec<i64>> = Vec::new();
        let mut row2: Vec<i64> = Vec::new();
        let mut i: usize = 0;
        while i < row.len()
            invariant
                i <= row@.len(),
                row2@ == row@.subrange(0, i as int),
            decreases row@.len() - i,
        {
            row2.push(row[i]);
            assert(row2@ =~= row@.subrange(0, i + 1));
            i += 1;
        }
        assert(row2@ =~= row@);
        rows.push(row2);
        assert(rows@.map_values(|r2: Vec<i64>| r2@) =~~= seq![row@]);
        let r = OctaveType::matrix_from_i64_grid(&rows);
        proof {
            let gv = seq![row@];
            assert(rect(gv)) by {
                assert(forall|a: int| 0 <= a < gv.len() ==> a == 0 && (#[trigger] gv[a]).len()
                    == gv[0].len());
            }
        }
        r
    }

    /// The matrix holding the decimal tokens of an integer grid.
    pub fn matrix_from_i64_grid(g: &Vec<Vec<i64>>) -> (r: OctaveType)
        ensures
            r@ == SpecValue::Matrix(int_grid_tokens(g@.map_values(|row: Vec<i64>| row@))),
            value_wf(r@) == rect(g@.map_values(|row: Vec<i64>| row@)),
    {
        let ghost gv = g@.map_values(|row: Vec<i64>| row@);
        let ghost tg = int_grid_tokens(gv);
        let mut out: Vec<Vec<String>> = Vec::new();
        let mut i: usize = 0;
        while i < g.len()
            invariant
                i <= g@.len(),
                gv == g@.map_values(|row: Vec<i64>| row@),
                out@.len() == i,
                forall|a: int| 0 <= a < i ==> (#[trigger] out@[a])@.len() == gv[a].len(),
                forall|a: int, b: int|
                    0 <= a < i && 0 <= b < gv[a].len() ==> (#[trigger] out@[a]@[b])@ == int_token(
                        gv[a][b] as int,
                    ),
            decreases g@.len() - i,
        {
            let row = &g[i];
            let mut out_row: Vec<String> = Vec::new();
            let mut j: usize = 0;
            while j < row.len()
                invariant
                    j <= row@.len(),
                    row@ == g@[i as int]@,
                    i < g@.len(),
                    gv == g@.map_values(|r2: Vec<i64>| r2@),
                    out_row@.len() == j,
                    forall|b: int|
                        0 <= b < j ==> (#[trigger] out_row@[b])@ == int_token(row@[b] as int),
                decreases row@.len() - j,
            {
                let x = row[j];
                let ot = OctaveType::scalar_from_i64(x);
                let t = match ot {
                    OctaveType::Scalar(t) => t,
                    _ => String::new(),
                };
                out_row.push(t);
                j += 1;
            }
            out.push(out_row);
            i += 1;
        }
        let r = OctaveType::Matrix(out);
        proof {
            assert(gv.len() == g@.len() && tg.len() == gv.len());
            assert(forall|a: int| 0 <= a < gv.len() ==> gv[a] == (#[trigger] g@[a])@);
            assert forall|a: int| 0 <= a < tg.len() implies grid_view(out@)[a] == tg[a] by {
                let m1 = out@[a]@.map_values(|t: String| t@);
                assert(grid_view(out@)[a] == m1);
                assert(tg[a] == gv[a].map_values(|x: i64| int_token(x as int)));
                assert forall|b: int| 0 <= b < gv[a].len() implies #[trigger] m1[b] == tg[a][b] by {
                    assert(m1[b] == out@[a]@[b]@);
                    assert(tg[a][b] == int_token(gv[a][b] as int));
                }
                assert(m1 =~= tg[a]);
            }
            assert(grid_view(out@) =~~= tg);
            assert(forall|a: int| 0 <= a < tg.len() ==> (#[trigger] tg[a]).len() == gv[a].len());
            assert forall|a: int, b: int|
                0 <= a < tg.len() && 0 <= b < tg[a].len() implies is_float_literal(
                #[trigger] tg[a][b],
            ) by {
                lemma_int_token_literal(gv[a][b] as int);
            }
            if rect(gv) {
                assert forall|a: int| 0 <= a < tg.len() implies (#[trigger] tg[a]).len()
                    == tg[0].len() by {
                    assert(gv[a].len() == gv[0].len());
                }
            }
            if rect(tg) {
                assert forall|a: int| 0 <= a < gv.len() implies (#[trigger] gv[a]).len()
                    == gv[0].len() by {
                    assert(tg[a].len() == tg[0].len());
                }
            }
            assert(rect(tg) == rect(gv));
            assert(value_wf(r@) == rect(gv));
        }
        r
    }
}

impl Default for OctaveType {
    /// The default value is the explicit absence.
    fn default() -> (r: Self)
        ensures
            r@ == SpecValue::Empty,
    {
        OctaveType::Empty
    }
}

/// Clones a value; the copy has the same view.
pub fn clone_value(v: &OctaveType) -> (r: OctaveType)
    ensures
        r@ == v@,
    decreases v,
{
    match v {
        OctaveType::Scalar(t) => OctaveType::Scalar(t.clone()),
        OctaveType::ComplexScalar(re, im) => OctaveType::ComplexScalar(re.clone(), im.clone()),
        OctaveType::Matrix(g) => {
            let mut out: Vec<Vec<String>> = Vec::new();
            let mut i: usize = 0;
            while i < g.len()
                invariant
                    i <= g@.len(),
                    out@.len() == i,
                    forall|a: int| 0 <= a < i ==> (#[trigger] out@[a])@.len() == g@[a]@.len(),
                    forall|a: int, b: int|
                        0 <= a < i && 0 <= b < g@[a]@.len() ==> (#[trigger] out@[a]@[b])@
                            == g@[a]@[b]@,
                decreases g@.len() - i,
            {
                let row = &g[i];
                let mut out_row: Vec<String> = Vec::new();
                let mut j: usize = 0;
                while j < row.len()
                    invariant
                        j <= row@.len(),
                        row@ == g@[i as int]@,
                        i < g@.len(),
                        out_row@.len() == j,
                        forall|b: int| 0 <= b < j ==> (#[trigger] out_row@[b])@ == row@[b]@,
                    decreases row@.len() - j,
                {
                    out_row.push(row[j].clone());
                    j += 1;
                }
                out.push(out_row);
                i += 1;
            }
            proof {
                assert forall|a: int| 0 <= a < g@.len() implies grid_view(out@)[a] == grid_view(
                    g@,
                )[a] by {
                    let m1 = out@[a]@.map_values(|t: String| t@);
                    let m2 = g@[a]@.map_values(|t: String| t@);
                    assert(grid_view(out@)[a] == m1);
                    assert(grid_view(g@)[a] == m2);
                    assert forall|b: int| 0 <= b < m1.len() implies #[trigger] m1[b] == m2[b] by {
                        assert(m1[b] == out@[a]@[b]@);
                        assert(m2[b] == g@[a]@[b]@);
                    }
                    assert(m1 =~= m2);
                }
                assert(grid_view(out@) =~~= grid_view(g@));
            }
            OctaveType::Matrix(out)
        },
        OctaveType::Text(s) => OctaveType::Text(s.clone()),
        OctaveType::Cell(g) => {
            let ghost gview = (v@)->Cell_0;
            let mut out: Vec<Vec<OctaveType>> = Vec::new();
            let mut i: usize = 0;
            while i < g.len()
                invariant
                    i <= g@.len(),
                    *v is Cell,
                    (*v)->Cell_0 == *g,
                    gview == (view_of(OctaveType::Cell(*g)))->Cell_0,
                    out@.len() == i,
                    forall|a: int| 0 <= a < i ==> (#[trigger] out@[a])@.len() == g@[a]@.len(),
                    forall|a: int, b: int|
                        0 <= a < i && 0 <= b < g@[a]@.len() ==> view_of(#[trigger] out@[a]@[b])
                            == view_of(g@[a]@[b]),
                decreases g@.len() - i,
            {
                let row = &g[i];
                let mut out_row: Vec<OctaveType> = Vec::new();
                let mut j: usize = 0;
                while j < row.len()
                    invariant
                        j <= row@.len(),
                        row@ == g@[i as int]@,
                        i < g@.len(),
                        *v is Cell,
                        (*v)->Cell_0 == *g,
                        gview == (view_of(OctaveType::Cell(*g)))->Cell_0,
                        out_row@.len() == j,
                        forall|b: int|
                            0 <= b < j ==> view_of(#[trigger] out_row@[b]) == view_of(
                                g@[i as int]@[b],
                            ),
                    decreases row@.len() - j,
                {
                    proof {
                        assert(row@[j as int] == (*v)->Cell_0@[i as int]@[j as int]);
                        assert(decreases_to!(*v => (*v)->Cell_0@[i as int]@[j as int]));
                    }
                    let e = clone_value(&row[j]);
                    out_row.push(e);
                    j += 1;
                }
                out.push(out_row);
                i += 1;
            }
            let r = OctaveType::Cell(out);
            proof {
                let rg = (r@)->Cell_0;
                assert(rg.len() == gview.len());
                assert forall|a: int| 0 <= a < rg.len() implies rg[a] == gview[a] by {
                    assert(rg[a].len() == out@[a]@.len());
                    assert(gview[a].len() == g@[a]@.len());
                    assert forall|b: int| 0 <= b < rg[a].len() implies rg[a][b] == gview[a][b] by {
                        assert(rg[a][b] == view_of(out@[a]@[b]));
                        assert(gview[a][b] == view_of(g@[a]@[b]));
                    }
                    assert(rg[a] =~= gview[a]);
                }
                assert(rg =~= gview);
                assert(r@ == v@);
            }
            r
        },
        OctaveType::Empty => OctaveType::Empty,
        OctaveType::Error(m) => OctaveType::Error(m.clone()),
    }
}

impl Clone for OctaveType {
    /// The clone of a value has the same view.
    fn clone(&self) -> (r: Self)
        ensures
            r@ == self@,
    {
        clone_value(self)
    }
}

} // verus!
