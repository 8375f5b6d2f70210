//! The workspace container: the raw dump text plus the mapping from variable
//! name to decoded value, built by one pass over the lexed declaration
//! stream. Later declarations for the same name overwrite earlier ones; a
//! structurally malformed declaration is simply absent.

use vstd::prelude::*;

verus! {

use crate::decode::cell_elem_name;
use crate::decode::chunk_exec;
use crate::decode::chunk_grid;
use crate::decode::decode_matrix;
use crate::decode::decode_scalar;
use crate::decode::decode_text;
use crate::decode::dims_ok;
use crate::decode::spec_decode_matrix;
use crate::decode::spec_decode_scalar;
use crate::decode::spec_decode_text;
use crate::decode::spec_take;
use crate::decode::take_elems;
use crate::decode::vals_view;
use crate::lex::decls_view;
use crate::lex::lex;
use crate::lex::Decl;
use crate::lex::SpecDecl;
use crate::lex::TypeTag;
use crate::octave_types::clone_value;
use crate::octave_types::grid_view;
use crate::octave_types::value_wf;
use crate::octave_types::view_of;
use crate::octave_types::OctaveType;
use crate::octave_types::SpecValue;
use crate::text::chars_of;
use crate::text::spec_lines;
use crate::text::split_lines;
use crate::text::string_from;
use crate::text::views_of;

/// The decoded value of the top-level declaration at `i`, or nothing where
/// it is malformed or its type tag is not recognized.
pub open spec fn spec_top_value(decls: Seq<SpecDecl>, i: int) -> Option<SpecValue> {
    let d = decls[i];
    match d.tag {
        TypeTag::Scalar => spec_decode_scalar(d),
        TypeTag::DqString => Some(spec_decode_text(d)),
        TypeTag::SqString => Some(spec_decode_text(d)),
        TypeTag::Matrix => spec_decode_matrix(d, false),
        TypeTag::DiagonalMatrix => spec_decode_matrix(d, true),
        TypeTag::Cell => match (d.rows, d.columns) {
            (Some(r), Some(c)) => {
                if !dims_ok(r, c) {
                    None
                } else {
                    match spec_take(decls, i + 1, r * c) {
                        Some((vs, e)) => Some(
                            SpecValue::Cell(chunk_grid(vs, r as int, c as int)),
                        ),
                        None => None,
                    }
                }
            },
            _ => None,
        },
        TypeTag::Unknown => None,
    }
}

/// The name-to-value mapping contributed by the declarations from `i` on.
/// An earlier declaration only fills a name that no later declaration set,
/// so the last declaration of a name wins.
pub open spec fn spec_build(decls: Seq<SpecDecl>, i: int) -> Map<Seq<char>, SpecValue>
    decreases decls.len() - i,
{
    if i < 0 || i >= decls.len() {
        Map::empty()
    } else {
        let rest = spec_build(decls, i + 1);
        let d = decls[i];
        if d.name == cell_elem_name() {
            rest
        } else {
            match spec_top_value(decls, i) {
                Some(v) => if rest.contains_key(d.name) {
                    rest
                } else {
                    rest.insert(d.name, v)
                },
                None => rest,
            }
        }
    }
}

/// The mapping decoded from one raw dump text.
pub open spec fn spec_decode(s: Seq<char>) -> Map<Seq<char>, SpecValue> {
    spec_build(crate::lex::spec_lex(spec_lines(s), 0), 0)
}

/// The mapping held by a list of name-value entries; a later entry for the
/// same name shadows an earlier one.
pub open spec fn entries_map(s: Seq<(String, OctaveType)>) -> Map<Seq<char>, SpecValue>
    decreases s.len(),
{
    if s.len() == 0 {
        Map::empty()
    } else {
        entries_map(s.drop_last()).insert(s.last().0@, view_of(s.last().1))
    }
}

/// The workspace that resulted from decoding one dump.
#[derive(Debug)]
pub struct InterpreterResults {
    /// The raw dump text, kept for diagnostics.
    pub raw: String,
    vars: Vec<(String, OctaveType)>,
}

impl InterpreterResults {
    /// The raw dump text this workspace was decoded from.
    pub closed spec fn raw_text(self) -> Seq<char> {
        self.raw@
    }

    /// The name-to-value mapping this workspace holds.
    pub closed spec fn mapping(self) -> Map<Seq<char>, SpecValue> {
        entries_map(self.vars@)
    }

    /// Every value held is well-formed: literal tokens and rectangular grids.
    pub closed spec fn wf(self) -> bool {
        forall|t: int|
            0 <= t < self.vars@.len() ==> value_wf(view_of(#[trigger] self.vars@[t].1))
    }
}

proof fn lemma_entries_map_last(s: Seq<(String, OctaveType)>, t: int)
    requires
        0 <= t < s.len(),
        forall|u: int| t < u < s.len() ==> (#[trigger] s[u]).0@ != s[t].0@,
    ensures
        entries_map(s).contains_key(s[t].0@),
        entries_map(s)[s[t].0@] == view_of(s[t].1),
    decreases s.len(),
{
    if t == s.len() - 1 {
    } else {
        assert(forall|u: int|
            t < u < s.drop_last().len() ==> (#[trigger] s.drop_last()[u]).0@ != s.drop_last()[t].0@);
        lemma_entries_map_last(s.drop_last(), t);
        assert(s.last().0@ != s[t].0@);
    }
}

proof fn lemma_entries_map_absent(s: Seq<(String, OctaveType)>, k: Seq<char>)
    requires
        forall|t: int| 0 <= t < s.len() ==> (#[trigger] s[t]).0@ != k,
    ensures
        !entries_map(s).contains_key(k),
    decreases s.len(),
{
    if s.len() > 0 {
        assert(forall|t: int|
            0 <= t < s.drop_last().len() ==> (#[trigger] s.drop_last()[t]).0@ != k);
        lemma_entries_map_absent(s.drop_last(), k);
    }
}

/// Every value in the mapping of a well-formed workspace is well-formed.
proof fn lemma_entries_map_wf(s: Seq<(String, OctaveType)>, k: Seq<char>)
    requires
        forall|t: int| 0 <= t < s.len() ==> value_wf(view_of(#[trigger] s[t].1)),
        entries_map(s).contains_key(k),
    ensures
        value_wf(entries_map(s)[k]),
    decreases s.len(),
{
    if s.len() > 0 {
        if s.last().0@ == k {
        } else {
            assert(forall|t: int|
                0 <= t < s.drop_last().len() ==> value_wf(
                    view_of(#[trigger] s.drop_last()[t].1),
                ));
            lemma_entries_map_wf(s.drop_last(), k);
        }
    }
}

/// Every value in a well-formed workspace's mapping is itself well-formed:
/// scalar tokens are float literals and every matrix and cell grid is
/// rectangular, as decoded grids always match their declared dimensions.
pub proof fn lemma_workspace_values_wf(w: InterpreterResults, k: Seq<char>)
    requires
        w.wf(),
        w.mapping().contains_key(k),
    ensures
        value_wf(w.mapping()[k]),
{
    lemma_entries_map_wf(w.vars@, k);
}

/// Decodes the top-level declaration at `i`.
fn top_value(decls: &Vec<Decl>, i: usize) -> (r: Option<OctaveType>)
    requires
        i < decls@.len(),
    ensures
        match r {
            Some(v) => spec_top_value(decls_view(decls@), i as int) == Some(v@) && value_wf(v@),
            None => spec_top_value(decls_view(decls@), i as int) is None,
        },
{
    let ghost dv = decls_view(decls@);
    let dlen = decls.len();
    assert(i < dlen);
    let d = &decls[i];
    assert(dv[i as int] == decls@[i as int]@);
    match d.tag {
        TypeTag::Scalar => decode_scalar(d),
        TypeTag::DqString => Some(decode_text(d)),
        TypeTag::SqString => Some(decode_text(d)),
        TypeTag::Matrix => decode_matrix(d, false),
        TypeTag::DiagonalMatrix => decode_matrix(d, true),
        TypeTag::Cell => {
            let r64 = match d.rows {
                Some(r) => r,
                None => {
                    return None;
                },
            };
            let c64 = match d.columns {
                Some(c) => c,
                None => {
                    return None;
                },
            };
            let total = match r64.checked_mul(c64) {
                Some(t) => t,
                None => {
                    assert(r64 * c64 > u64::MAX >= usize::MAX);
                    return None;
                },
            };
            if r64 > (usize::MAX as u64) || c64 > (usize::MAX as u64) || total > (usize::MAX
                as u64) {
                return None;
            }
            let (vs, e) = match take_elems(decls, i + 1, total) {
                Some(p) => p,
                None => {
                    return None;
                },
            };
            let ghost vsv = vals_view(vs@);
            proof {
                crate::decode::lemma_chunk_wf(vsv, r64 as int, c64 as int);
            }
            let grid = chunk_exec(vs, r64 as usize, c64 as usize);
            Some(OctaveType::Cell(grid))
        },
        TypeTag::Unknown => None,
    }
}

/// Decodes one raw dump into a workspace: the collaborator interface of the
/// decode core. The resulting mapping is exactly the mathematical decode of
/// the text, so decoding equal texts gives equal mappings.
pub fn decode(raw: String) -> (w: InterpreterResults)
    ensures
        w.raw_text() == raw@,
        w.wf(),
        w.mapping() == spec_decode(raw@),
{
    let cs = chars_of(raw.as_str());
    let lines = split_lines(&cs);
    let decls = lex(&lines);
    let ghost dv = decls_view(decls@);
    let mut vars: Vec<(String, OctaveType)> = Vec::new();
    let mut i: usize = 0;
    proof {
        assert(spec_build(dv, dv.len() as int) =~= Map::<Seq<char>, SpecValue>::empty());
        assert(entries_map(vars@).union_prefer_right(spec_build(dv, 0)) =~= spec_build(dv, 0));
    }
    while i < decls.len()
        invariant
            i <= decls@.len(),
            dv == decls_view(decls@),
            dv.len() == decls@.len(),
            forall|t: int| 0 <= t < vars@.len() ==> value_wf(view_of(#[trigger] vars@[t].1)),
            entries_map(vars@).union_prefer_right(spec_build(dv, i as int)) == spec_build(dv, 0),
        decreases decls@.len() - i,
    {
        let d = &decls[i];
        assert(dv[i as int] == decls@[i as int]@);
        if !crate::lex::chars_eq_str(&d.name, "<cell-element>") {
            match top_value(&decls, i) {
                Some(v) => {
                    let name = string_from(&d.name);
                    let ghost ov = vars@;
                    vars.push((name, v));
                    proof {
                        assert(vars@.drop_last() =~= ov);
                        assert(entries_map(vars@) == entries_map(ov).insert(d@.name, v@));
                        let m1 = entries_map(ov);
                        let rest = spec_build(dv, i + 1);
                        assert(spec_build(dv, i as int) == (if rest.contains_key(dv[i as int].name) {
                            rest
                        } else {
                            rest.insert(dv[i as int].name, v@)
                        }));
                        assert(m1.insert(d@.name, v@).union_prefer_right(rest)
                            =~= m1.union_prefer_right(spec_build(dv, i as int)));
                    }
                },
                None => {
                    assert(spec_build(dv, i as int) == spec_build(dv, i + 1));
                },
            }
        } else {
            assert(spec_build(dv, i as int) == spec_build(dv, i + 1));
        }
        i += 1;
    }
    proof {
        assert(spec_build(dv, i as int) =~= Map::<Seq<char>, SpecValue>::empty());
        assert(entries_map(vars@).union_prefer_right(spec_build(dv, i as int)) =~= entries_map(
            vars@,
        ));
        assert(views_of(lines@) == spec_lines(cs@));
    }
    InterpreterResults { raw, vars }
}

impl InterpreterResults {
    /// Looks a variable up by name; a copy of its value, if it exists.
    pub fn get(&self, name: &str) -> (r: Option<OctaveType>)
        ensures
            match r {
                Some(v) => self.mapping().contains_key(name@) && view_of(v)
                    == self.mapping()[name@] && (self.wf() ==> value_wf(view_of(v))),
                None => !self.mapping().contains_key(name@),
            },
    {
        let mut t: usize = self.vars.len();
        while t > 0
            invariant
                t <= self.vars@.len(),
                forall|u: int| t <= u < self.vars@.len() ==> (#[trigger] self.vars@[u]).0@ != name@,
            decreases t,
        {
            t -= 1;
            let key = &self.vars[t].0;
            if crate::lex::chars_eq_str(&chars_of(key.as_str()), name) {
                proof {
                    lemma_entries_map_last(self.vars@, t as int);
                    if self.wf() {
                        lemma_entries_map_wf(self.vars@, name@);
                    }
                }
                return Some(clone_value(&self.vars[t].1));
            }
        }
        proof {
            lemma_entries_map_absent(self.vars@, name@);
        }
        None
    }

    /// Looks a variable up and narrows it to its scalar token, if the
    /// variable exists and holds a scalar.
    pub fn get_scalar(&self, name: &str) -> (r: Option<String>)
        ensures
            match r {
                Some(t) => self.mapping().contains_key(name@) && self.mapping()[name@]
                    == SpecValue::Scalar(t@),
                None => !self.mapping().contains_key(name@) || !(self.mapping()[name@] is Scalar),
            },
    {
        match self.get(name) {
            Some(v) => match v.try_into_scalar() {
                Ok(t) => Some(t),
                Err(_) => None,
            },
            None => None,
        }
    }

    /// Looks a variable up and narrows it to its token grid, if the variable
    /// exists and holds a matrix.
    pub fn get_matrix(&self, name: &str) -> (r: Option<Vec<Vec<String>>>)
        ensures
            match r {
                Some(g) => self.mapping().contains_key(name@) && self.mapping()[name@]
                    == SpecValue::Matrix(grid_view(g@)),
                None => !self.mapping().contains_key(name@) || !(self.mapping()[name@] is Matrix),
            },
    {
        match self.get(name) {
            Some(v) => match v.try_into_matrix() {
                Ok(g) => Some(g),
                Err(_) => None,
            },
            None => None,
        }
    }

    /// Looks a variable up and narrows it to its text, if the variable
    /// exists and holds a string.
    pub fn get_string(&self, name: &str) -> (r: Option<String>)
        ensures
            match r {
                Some(s) => self.mapping().contains_key(name@) && self.mapping()[name@]
                    == SpecValue::Text(s@),
                None => !self.mapping().contains_key(name@) || !(self.mapping()[name@] is Text),
            },
    {
        match self.get(name) {
            Some(v) => match v.try_into_string() {
                Ok(s) => Some(s),
                Err(_) => None,
            },
            None => None,
        }
    }

    /// Looks a variable up and narrows it to its value grid, if the variable
    /// exists and holds a cell array.
    pub fn get_cell_array(&self, name: &str) -> (r: Option<Vec<Vec<OctaveType>>>)
        ensures
            match r {
                Some(g) => self.mapping().contains_key(name@) && self.mapping()[name@] == view_of(
                    OctaveType::Cell(g),
                ) && self.mapping()[name@] is Cell,
                None => !self.mapping().contains_key(name@) || !(self.mapping()[name@] is Cell),
            },
    {
        match self.get(name) {
            Some(v) => match v.try_into_vec_octave_type() {
                Ok(g) => Some(g),
                Err(_) => None,
            },
            None => None,
        }
    }

    /// Fetches a variable that is known to exist.
    pub fn get_unchecked(&self, name: &str) -> (v: OctaveType)
        requires
            self.mapping().contains_key(name@),
        ensures
            view_of(v) == self.mapping()[name@],
    {
        match self.get(name) {
            Some(v) => v,
            None => OctaveType::Empty,
        }
    }
}

impl Clone for InterpreterResults {
    /// The clone of a workspace holds the same raw text and the same mapping.
    fn clone(&self) -> (r: Self)
        ensures
            r.raw_text() == self.raw_text(),
            r.mapping() == self.mapping(),
            r.wf() == self.wf(),
    {
        let mut vars: Vec<(String, OctaveType)> = Vec::new();
        let mut t: usize = 0;
        while t < self.vars.len()
            invariant
                t <= self.vars@.len(),
                vars@.len() == t,
                forall|u: int|
                    0 <= u < t ==> (#[trigger] vars@[u]).0@ == self.vars@[u].0@ && view_of(
                        vars@[u].1,
                    ) == view_of(self.vars@[u].1),
            decreases self.vars@.len() - t,
        {
            let name = self.vars[t].0.clone();
            let value = clone_value(&self.vars[t].1);
            vars.push((name, value));
            t += 1;
        }
        let r = InterpreterResults { raw: self.raw.clone(), vars };
        proof {
            lemma_entries_map_congruent(r.vars@, self.vars@);
        }
        r
    }
}

/// Entry lists equal name-by-name and view-by-view hold the same mapping.
proof fn lemma_entries_map_congruent(a: Seq<(String, OctaveType)>, b: Seq<(String, OctaveType)>)
    requires
        a.len() == b.len(),
        forall|u: int|
            0 <= u < a.len() ==> (#[trigger] a[u]).0@ == b[u].0@ && view_of(a[u].1) == view_of(
                b[u].1,
            ),
    ensures
        entries_map(a) == entries_map(b),
        (forall|t: int| 0 <= t < a.len() ==> value_wf(view_of(#[trigger] a[t].1))) == (forall|
            t: int,
        |
            0 <= t < b.len() ==> value_wf(view_of(#[trigger] b[t].1))),
    decreases a.len(),
{
    if a.len() > 0 {
        assert(forall|u: int|
            0 <= u < a.drop_last().len() ==> (#[trigger] a.drop_last()[u]).0@
                == b.drop_last()[u].0@ && view_of(a.drop_last()[u].1) == view_of(
                b.drop_last()[u].1,
            ));
        lemma_entries_map_congruent(a.drop_last(), b.drop_last());
    }
    assert forall|t: int|
        0 <= t < a.len() && value_wf(view_of(#[trigger] b[t].1)) implies value_wf(
        view_of(a[t].1),
    ) by {}
}

impl Default for InterpreterResults {
    /// The empty workspace: no raw text and no variables.
    fn default() -> (r: Self)
        ensures
            r.raw_text() == Seq::<char>::empty(),
            r.mapping() == Map::<Seq<char>, SpecValue>::empty(),
            r.wf(),
    {
        InterpreterResults { raw: String::new(), vars: Vec::new() }
    }
}

} // verus!
