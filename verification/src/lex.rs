//! The header/field lexer: one pass over the dump's lines producing a stream
//! of variable declarations. Each declaration carries its name, its type tag,
//! the declared dimensions that were present, and the verbatim data block
//! (the lines up to the next name header or the end of input).

use vstd::prelude::*;

verus! {

use crate::num::digits_val;
use crate::num::is_count;
use crate::num::parse_u64;
use crate::text::chars_of;
use crate::text::views_of;

/// The type tag of a declaration.
#[derive(Clone, Copy, PartialEq, Eq, Structural, Debug)]
pub enum TypeTag {
    Scalar,
    Matrix,
    DiagonalMatrix,
    DqString,
    SqString,
    Cell,
    Unknown,
}

/// The mathematical shape of one declaration.
pub struct SpecDecl {
    pub name: Seq<char>,
    pub tag: TypeTag,
    pub rows: Option<u64>,
    pub columns: Option<u64>,
    pub elements: Option<u64>,
    pub length: Option<u64>,
    pub data: Seq<Seq<char>>,
}

/// One lexed declaration.
pub struct Decl {
    pub name: Vec<char>,
    pub tag: TypeTag,
    pub rows: Option<u64>,
    pub columns: Option<u64>,
    pub elements: Option<u64>,
    pub length: Option<u64>,
    pub data: Vec<Vec<char>>,
}

impl View for Decl {
    type V = SpecDecl;

    open spec fn view(&self) -> SpecDecl {
        SpecDecl {
            name: self.name@,
            tag: self.tag,
            rows: self.rows,
            columns: self.columns,
            elements: self.elements,
            length: self.length,
            data: views_of(self.data@),
        }
    }
}

// The fixed header vocabulary.
pub open spec fn key_name() -> Seq<char> {
    "# name: "@
}

pub open spec fn key_type() -> Seq<char> {
    "# type: "@
}

pub open spec fn key_rows() -> Seq<char> {
    "# rows: "@
}

pub open spec fn key_columns() -> Seq<char> {
    "# columns: "@
}

pub open spec fn key_elements() -> Seq<char> {
    "# elements: "@
}

pub open spec fn key_length() -> Seq<char> {
    "# length: "@
}

/// What follows the key if the line starts with it.
pub open spec fn header_rest(line: Seq<char>, key: Seq<char>) -> Option<Seq<char>> {
    if line.len() >= key.len() && line.subrange(0, key.len() as int) == key {
        Some(line.subrange(key.len() as int, line.len() as int))
    } else {
        None
    }
}

pub open spec fn is_name_line(line: Seq<char>) -> bool {
    header_rest(line, key_name()) is Some
}

/// Whether the line is one of the four dimension headers.
pub open spec fn is_dim_line(line: Seq<char>) -> bool {
    header_rest(line, key_rows()) is Some || header_rest(line, key_columns()) is Some
        || header_rest(line, key_elements()) is Some || header_rest(line, key_length()) is Some
}

/// The tag for one type word.
pub open spec fn tag_of(w: Seq<char>) -> TypeTag {
    if w == "scalar"@ {
        TypeTag::Scalar
    } else if w == "matrix"@ {
        TypeTag::Matrix
    } else if w == "diagonal matrix"@ {
        TypeTag::DiagonalMatrix
    } else if w == "string"@ {
        TypeTag::DqString
    } else if w == "sq_string"@ {
        TypeTag::SqString
    } else if w == "cell"@ {
        TypeTag::Cell
    } else {
        TypeTag::Unknown
    }
}

/// The numeric value of a dimension header, if it is a digit run that fits.
pub open spec fn spec_u64(v: Seq<char>) -> Option<u64> {
    if is_count(v) && digits_val(v) <= u64::MAX {
        Some(digits_val(v) as u64)
    } else {
        None
    }
}

/// The parsed value of the last matching dimension header in `lines[from..to)`.
pub open spec fn field_val(lines: Seq<Seq<char>>, from: int, to: int, key: Seq<char>) -> Option<
    u64,
>
    decreases to - from,
{
    if from >= to {
        None
    } else {
        let earlier = field_val(lines, from, to - 1, key);
        let here = match header_rest(lines[to - 1], key) {
            Some(v) => spec_u64(v),
            None => None,
        };
        if here is Some {
            here
        } else {
            earlier
        }
    }
}

/// The first index at or after `from` whose line is not a dimension header.
pub open spec fn hdr_end(lines: Seq<Seq<char>>, from: int) -> int
    decreases lines.len() - from,
{
    if from < 0 || from >= lines.len() {
        lines.len() as int
    } else if is_dim_line(lines[from]) {
        hdr_end(lines, from + 1)
    } else {
        from
    }
}

/// The first index at or after `from` whose line is a name header.
pub open spec fn data_end(lines: Seq<Seq<char>>, from: int) -> int
    decreases lines.len() - from,
{
    if from < 0 || from >= lines.len() {
        lines.len() as int
    } else if is_name_line(lines[from]) {
        from
    } else {
        data_end(lines, from + 1)
    }
}

pub proof fn lemma_hdr_end_bounds(lines: Seq<Seq<char>>, from: int)
    requires
        0 <= from <= lines.len(),
    ensures
        from <= hdr_end(lines, from) <= lines.len(),
    decreases lines.len() - from,
{
    if from < lines.len() && is_dim_line(lines[from]) {
        lemma_hdr_end_bounds(lines, from + 1);
    }
}

pub proof fn lemma_data_end_bounds(lines: Seq<Seq<char>>, from: int)
    requires
        0 <= from <= lines.len(),
    ensures
        from <= data_end(lines, from) <= lines.len(),
    decreases lines.len() - from,
{
    if from < lines.len() && !is_name_line(lines[from]) {
        lemma_data_end_bounds(lines, from + 1);
    }
}

/// The declaration starting at the name line `i`, given that line `i + 1` is
/// a type line.
pub open spec fn decl_at(lines: Seq<Seq<char>>, i: int) -> SpecDecl {
    let nm = header_rest(lines[i], key_name())->0;
    let tw = header_rest(lines[i + 1], key_type())->0;
    let j = hdr_end(lines, i + 2);
    let k = data_end(lines, j);
    SpecDecl {
        name: nm,
        tag: tag_of(tw),
        rows: field_val(lines, i + 2, j, key_rows()),
        columns: field_val(lines, i + 2, j, key_columns()),
        elements: field_val(lines, i + 2, j, key_elements()),
        length: field_val(lines, i + 2, j, key_length()),
        data: lines.subrange(j, k),
    }
}

/// The declaration stream of the dump's lines, scanning from line `i`.
pub open spec fn spec_lex(lines: Seq<Seq<char>>, i: int) -> Seq<SpecDecl>
    decreases lines.len() - i,
{
    if i < 0 || i >= lines.len() {
        Seq::empty()
    } else if !(is_name_line(lines[i]) && i + 1 < lines.len() && header_rest(
        lines[i + 1],
        key_type(),
    ) is Some) {
        spec_lex(lines, i + 1)
    } else {
        let j = hdr_end(lines, i + 2);
        let k = data_end(lines, j);
        // The bounds always hold; the guard only keeps the recursion
        // well-founded.
        if i + 2 <= j <= k <= lines.len() {
            seq![decl_at(lines, i)] + spec_lex(lines, k)
        } else {
            spec_lex(lines, i + 1)
        }
    }
}

/// The views of a sequence of declarations.
pub open spec fn decls_view(r: Seq<Decl>) -> Seq<SpecDecl> {
    r.map_values(|d: Decl| d@)
}

/// Whether the line starts with the key; if so, hands back what follows.
fn header_value(line: &Vec<char>, key: &str) -> (r: Option<Vec<char>>)
    ensures
        match r {
            Some(v) => header_rest(line@, key@) == Some(v@),
            None => header_rest(line@, key@) is None,
        },
{
    let kv = chars_of(key);
    if line.len() < kv.len() {
        return None;
    }
    let mut i: usize = 0;
    while i < kv.len()
        invariant
            i <= kv@.len() <= line@.len(),
            kv@ == key@,
            forall|a: int| 0 <= a < i ==> line@[a] == kv@[a],
        decreases kv@.len() - i,
    {
        if line[i] != kv[i] {
            assert(line@.subrange(0, key@.len() as int) != key@) by {
                assert(line@.subrange(0, key@.len() as int)[i as int] != key@[i as int]);
            }
            return None;
        }
        i += 1;
    }
    assert(line@.subrange(0, key@.len() as int) =~= key@);
    let mut v: Vec<char> = Vec::new();
    let mut p: usize = kv.len();
    while p < line.len()
        invariant
            kv@.len() <= p <= line@.len(),
            kv@ == key@,
            v@ == line@.subrange(kv@.len() as int, p as int),
        decreases line@.len() - p,
    {
        v.push(line[p]);
        assert(v@ =~= line@.subrange(kv@.len() as int, p + 1));
        p += 1;
    }
    assert(v@ =~= line@.subrange(key@.len() as int, line@.len() as int));
    Some(v)
}

/// Whether two character vectors hold the same text.
fn chars_eq(a: &Vec<char>, b: &Vec<char>) -> (r: bool)
    ensures
        r == (a@ == b@),
{
    if a.len() != b.len() {
        assert(a@ != b@) by {
            assert(a@.len() != b@.len());
        }
        return false;
    }
    let mut i: usize = 0;
    while i < a.len()
        invariant
            i <= a@.len(),
            a@.len() == b@.len(),
            forall|j: int| 0 <= j < i ==> a@[j] == b@[j],
        decreases a@.len() - i,
    {
        if a[i] != b[i] {
            return false;
        }
        i += 1;
    }
    assert(a@ =~= b@);
    true
}

/// Whether the character vector holds exactly the given text.
pub fn chars_eq_str(a: &Vec<char>, b: &str) -> (r: bool)
    ensures
        r == (a@ == b@),
{
    chars_eq(a, &chars_of(b))
}

/// The tag for one type word.
fn tag_value(w: &Vec<char>) -> (t: TypeTag)
    ensures
        t == tag_of(w@),
{
    if chars_eq(w, &chars_of("scalar")) {
        TypeTag::Scalar
    } else if chars_eq(w, &chars_of("matrix")) {
        TypeTag::Matrix
    } else if chars_eq(w, &chars_of("diagonal matrix")) {
        TypeTag::DiagonalMatrix
    } else if chars_eq(w, &chars_of("string")) {
        TypeTag::DqString
    } else if chars_eq(w, &chars_of("sq_string")) {
        TypeTag::SqString
    } else if chars_eq(w, &chars_of("cell")) {
        TypeTag::Cell
    } else {
        TypeTag::Unknown
    }
}

/// The parsed value of one dimension header line for one key, if both match.
fn dim_value(line: &Vec<char>, key: &str) -> (r: Option<u64>)
    ensures
        r == (match header_rest(line@, key@) {
            Some(v) => spec_u64(v),
            None => None::<u64>,
        }),
{
    match header_value(line, key) {
        None => None,
        Some(v) => {
            let r = parse_u64(&v);
            proof {
                if r is Some {
                    crate::num::lemma_digits_val_nonneg(v@);
                }
            }
            r
        },
    }
}

/// Runs the lexer over the dump's lines.
pub fn lex(lines: &Vec<Vec<char>>) -> (r: Vec<Decl>)
    ensures
        decls_view(r@) == spec_lex(views_of(lines@), 0),
{
    let ghost lv = views_of(lines@);
    let mut out: Vec<Decl> = Vec::new();
    let mut pos: usize = 0;
    assert(decls_view(out@) + spec_lex(lv, 0) =~= spec_lex(lv, 0));
    while pos < lines.len()
        invariant
            0 <= pos <= lines@.len(),
            lv == views_of(lines@),
            spec_lex(lv, 0) == decls_view(out@) + spec_lex(lv, pos as int),
        decreases lines@.len() - pos,
    {
        assert(lv[pos as int] == lines@[pos as int]@);
        let name = match header_value(&lines[pos], "# name: ") {
            None => {
                pos += 1;
                continue ;
            },
            Some(nm) => nm,
        };
        if pos + 1 >= lines.len() {
            assert(spec_lex(lv, pos as int) =~= spec_lex(lv, pos + 1));
            pos += 1;
            continue ;
        }
        assert(lv[pos + 1] == lines@[pos + 1]@);
        let tw = match header_value(&lines[pos + 1], "# type: ") {
            None => {
                assert(spec_lex(lv, pos as int) =~= spec_lex(lv, pos + 1));
                pos += 1;
                continue ;
            },
            Some(tw) => tw,
        };
        let tag = tag_value(&tw);
        // scan the dimension headers
        let mut j: usize = pos + 2;
        let mut rows: Option<u64> = None;
        let mut columns: Option<u64> = None;
        let mut elements: Option<u64> = None;
        let mut length: Option<u64> = None;
        loop
            invariant
                pos + 2 <= j <= lv.len(),
                lv == views_of(lines@),
                lines@.len() == lv.len(),
                hdr_end(lv, pos + 2) == hdr_end(lv, j as int),
                rows == field_val(lv, pos + 2, j as int, key_rows()),
                columns == field_val(lv, pos + 2, j as int, key_columns()),
                elements == field_val(lv, pos + 2, j as int, key_elements()),
                length == field_val(lv, pos + 2, j as int, key_length()),
            ensures
                j == hdr_end(lv, pos + 2),
                j <= lv.len(),
                rows == field_val(lv, pos + 2, j as int, key_rows()),
                columns == field_val(lv, pos + 2, j as int, key_columns()),
                elements == field_val(lv, pos + 2, j as int, key_elements()),
                length == field_val(lv, pos + 2, j as int, key_length()),
            decreases lv.len() - j,
        {
            if j >= lines.len() {
                break ;
            }
            assert(lv[j as int] == lines@[j as int]@);
            let line = &lines[j];
            if !(header_value(line, "# rows: ").is_some() || header_value(
                line,
                "# columns: ",
            ).is_some() || header_value(line, "# elements: ").is_some() || header_value(
                line,
                "# length: ",
            ).is_some()) {
                break ;
            }
            let r1 = dim_value(line, "# rows: ");
            let r2 = dim_value(line, "# columns: ");
            let r3 = dim_value(line, "# elements: ");
            let r4 = dim_value(line, "# length: ");
            if r1.is_some() {
                rows = r1;
            }
            if r2.is_some() {
                columns = r2;
            }
            if r3.is_some() {
                elements = r3;
            }
            if r4.is_some() {
                length = r4;
            }
            j += 1;
        }
        // collect the data block
        let mut k: usize = j;
        let mut data: Vec<Vec<char>> = Vec::new();
        loop
            invariant
                j <= k <= lv.len(),
                lv == views_of(lines@),
                lines@.len() == lv.len(),
                data_end(lv, j as int) == data_end(lv, k as int),
                views_of(data@) =~= lv.subrange(j as int, k as int),
            ensures
                k == data_end(lv, j as int),
                j <= k <= lv.len(),
                views_of(data@) =~= lv.subrange(j as int, k as int),
            decreases lv.len() - k,
        {
            if k >= lines.len() {
                break ;
            }
            assert(lv[k as int] == lines@[k as int]@);
            if header_value(&lines[k], "# name: ").is_some() {
                break ;
            }
            let mut line: Vec<char> = Vec::new();
            let src = &lines[k];
            let mut q: usize = 0;
            while q < src.len()
                invariant
                    q <= src@.len(),
                    line@ == src@.subrange(0, q as int),
                decreases src@.len() - q,
            {
                line.push(src[q]);
                assert(line@ =~= src@.subrange(0, q + 1));
                q += 1;
            }
            assert(line@ =~= src@);
            let ghost od = data@;
            data.push(line);
            proof {
                assert(data@.drop_last() =~= od);
                assert(views_of(data@) =~= views_of(od) + seq![line@]);
                assert(views_of(data@) =~= lv.subrange(j as int, k + 1));
            }
            k += 1;
        }
        let d = Decl { name, tag, rows, columns, elements, length, data };
        proof {
            lemma_hdr_end_bounds(lv, pos + 2);
            lemma_data_end_bounds(lv, j as int);
            assert(d@.data =~= decl_at(lv, pos as int).data);
            assert(d@ == decl_at(lv, pos as int));
            assert(spec_lex(lv, pos as int) == seq![decl_at(lv, pos as int)] + spec_lex(
                lv,
                k as int,
            ));
        }
        let ghost old_out = out@;
        out.push(d);
        proof {
            assert(decls_view(out@) =~= decls_view(old_out) + seq![d@]);
            assert(decls_view(old_out) + (seq![d@] + spec_lex(lv, k as int)) =~= (decls_view(
                old_out,
            ) + seq![d@]) + spec_lex(lv, k as int));
        }
        pos = k;
    }
    assert(spec_lex(lv, pos as int) =~= Seq::empty());
    assert(decls_view(out@) =~= spec_lex(lv, 0));
    out
}

} // verus!
