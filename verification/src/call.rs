//! The call-building layer: renders decoded values back into interpreter
//! expression text and builds the call expression that assigns a function's
//! result to a fixed temporary name, ready to be handed to the external
//! execution collaborator.

use vstd::prelude::*;

verus! {

use crate::decode::vals_view;
use crate::octave_types::view_of;
use crate::octave_types::OctaveType;
use crate::octave_types::SpecValue;
use crate::text::string_from;

/// One numeric token rendered as expression text: the token itself.
pub open spec fn render_complex(re: Seq<char>, im: Seq<char>) -> Seq<char> {
    if im.len() > 0 && (im[0] == '-' || im[0] == '+') {
        re + im + seq!['i']
    } else {
        re + seq!['+'] + im + seq!['i']
    }
}

/// The tokens of one matrix row joined with `", "`.
pub open spec fn render_token_row(row: Seq<Seq<char>>, j: int) -> Seq<char>
    decreases row.len() - j,
{
    if j < 0 || j >= row.len() {
        Seq::empty()
    } else if j + 1 < row.len() {
        row[j] + seq![',', ' '] + render_token_row(row, j + 1)
    } else {
        row[j]
    }
}

/// The rows of a matrix joined with `"; "` inside brackets.
pub open spec fn render_token_rows(g: Seq<Seq<Seq<char>>>, i: int) -> Seq<char>
    decreases g.len() - i,
{
    if i < 0 || i >= g.len() {
        Seq::empty()
    } else if i + 1 < g.len() {
        render_token_row(g[i], 0) + seq![';', ' '] + render_token_rows(g, i + 1)
    } else {
        render_token_row(g[i], 0)
    }
}

/// The expression text of one value. A scalar is its token; a matrix is its
/// rows in brackets; a string is its text as-is; a cell array is its
/// recursively rendered rows in braces; an absence renders as nothing.
pub open spec fn spec_render(v: SpecValue) -> Seq<char>
    decreases v, 2int, 0int,
{
    match v {
        SpecValue::Scalar(t) => t,
        SpecValue::ComplexScalar(re, im) => render_complex(re, im),
        SpecValue::Matrix(g) => seq!['['] + render_token_rows(g, 0) + seq![']'],
        SpecValue::Text(s) => s,
        SpecValue::Cell(g) => seq!['{'] + render_cell_rows(v, 0) + seq!['}'],
        SpecValue::Empty => Seq::empty(),
        SpecValue::Error(m) => "Error: "@ + m,
    }
}

/// The rows of a cell grid joined with `"; "`.
pub open spec fn render_cell_rows(v: SpecValue, i: int) -> Seq<char>
    decreases v, 1int, (if v is Cell {
        v->Cell_0.len() - i
    } else {
        0
    }),
{
    if !(v is Cell) {
        Seq::empty()
    } else {
        let g = v->Cell_0;
        if i < 0 || i >= g.len() {
            Seq::empty()
        } else if i + 1 < g.len() {
            render_cell_row(v, i, 0) + seq![';', ' '] + render_cell_rows(v, i + 1)
        } else {
            render_cell_row(v, i, 0)
        }
    }
}

/// The values of one cell row joined with `", "`, each rendered recursively.
pub open spec fn render_cell_row(v: SpecValue, i: int, j: int) -> Seq<char>
    decreases v, 0int, (if v is Cell && 0 <= i < v->Cell_0.len() {
        v->Cell_0[i].len() - j
    } else {
        0
    }),
{
    if !(v is Cell) || !(0 <= i < v->Cell_0.len()) {
        Seq::empty()
    } else {
        let row = v->Cell_0[i];
        if j < 0 || j >= row.len() {
            Seq::empty()
        } else if j + 1 < row.len() {
            spec_render(row[j]) + seq![',', ' '] + render_cell_row(v, i, j + 1)
        } else {
            spec_render(row[j])
        }
    }
}

/// Appends the expression text of one value.
pub fn render_into(v: &OctaveType, out: &mut Vec<char>)
    ensures
        final(out)@ == old(out)@ + spec_render(view_of(*v)),
    decreases v,
{
    let ghost base = out@;
    match v {
        OctaveType::Scalar(t) => {
            push_str_chars(out, t.as_str());
            assert(final(out)@ =~= base + spec_render(view_of(*v)));
        },
        OctaveType::ComplexScalar(re, im) => {
            push_str_chars(out, re.as_str());
            let needs_sign = if im.unicode_len() > 0 {
                let c0 = im.as_str().get_char(0);
                !(c0 == '-' || c0 == '+')
            } else {
                true
            };
            if needs_sign {
                out.push('+');
            }
            push_str_chars(out, im.as_str());
            out.push('i');
            assert(out@ =~= base + spec_render(view_of(*v)));
        },
        OctaveType::Matrix(g) => {
            out.push('[');
            let ghost gv = crate::octave_types::grid_view(g@);
            let mut i: usize = 0;
            if g.len() > 0 {
                loop
                    invariant_except_break
                        base + seq!['['] + render_token_rows(gv, 0) == out@ + render_token_rows(
                            gv,
                            i as int,
                        ),
                    invariant
                        0 <= i < g@.len(),
                        g@.len() <= usize::MAX,
                        gv == crate::octave_types::grid_view(g@),
                        gv.len() == g@.len(),
                    ensures
                        out@ == base + seq!['['] + render_token_rows(gv, 0),
                    decreases g@.len() - i,
                {
                    let row = &g[i];
                    let ghost rv = gv[i as int];
                    let mut j: usize = 0;
                    if row.len() > 0 {
                        loop
                            invariant_except_break
                                base + seq!['['] + render_token_rows(gv, 0) == (out@
                                    + render_token_row(rv, j as int)) + (if i + 1 < g@.len() {
                                    seq![';', ' '] + render_token_rows(gv, i + 1)
                                } else {
                                    Seq::empty()
                                }),
                            invariant
                                0 <= j < row@.len(),
                                row@.len() <= usize::MAX,
                                g@.len() <= usize::MAX,
                                row@ == g@[i as int]@,
                                i < g@.len(),
                                gv == crate::octave_types::grid_view(g@),
                                rv == gv[i as int],
                                rv.len() == row@.len(),
                            ensures
                                base + seq!['['] + render_token_rows(gv, 0) == out@ + (if i + 1
                                    < g@.len() {
                                    seq![';', ' '] + render_token_rows(gv, i + 1)
                                } else {
                                    Seq::empty()
                                }),
                            decreases row@.len() - j,
                        {
                            push_str_chars(out, row[j].as_str());
                            proof {
                                assert(rv[j as int] == row@[j as int]@);
                            }
                            if j + 1 < row.len() {
                                out.push(',');
                                out.push(' ');
                                j += 1;
                            } else {
                                break ;
                            }
                        }
                    }
                    if i + 1 < g.len() {
                        out.push(';');
                        out.push(' ');
                        i += 1;
                    } else {
                        break ;
                    }
                }
            }
            out.push(']');
            assert(out@ =~= (base + seq!['['] + render_token_rows(gv, 0)) + seq![']']);
            assert(out@ =~= base + spec_render(view_of(*v)));
        },
        OctaveType::Text(s) => {
            push_str_chars(out, s.as_str());
            assert(final(out)@ =~= base + spec_render(view_of(*v)));
        },
        OctaveType::Cell(g) => {
            out.push('{');
            let ghost vv = view_of(*v);
            let ghost gv = vv->Cell_0;
            let mut i: usize = 0;
            if g.len() > 0 {
                loop
                    invariant_except_break
                        base + seq!['{'] + render_cell_rows(vv, 0) == out@ + render_cell_rows(
                            vv,
                            i as int,
                        ),
                    invariant
                        0 <= i < g@.len(),
                        g@.len() <= usize::MAX,
                        *v is Cell,
                        (*v)->Cell_0 == *g,
                        vv == view_of(*v),
                        vv is Cell,
                        gv == vv->Cell_0,
                        gv.len() == g@.len(),
                    ensures
                        out@ == base + seq!['{'] + render_cell_rows(vv, 0),
                    decreases g@.len() - i,
                {
                    let row = &g[i];
                    let mut j: usize = 0;
                    if row.len() > 0 {
                        loop
                            invariant_except_break
                                base + seq!['{'] + render_cell_rows(vv, 0) == (out@
                                    + render_cell_row(vv, i as int, j as int)) + (if i + 1
                                    < g@.len() {
                                    seq![';', ' '] + render_cell_rows(vv, i + 1)
                                } else {
                                    Seq::empty()
                                }),
                            invariant
                                0 <= j < row@.len(),
                                row@.len() <= usize::MAX,
                                g@.len() <= usize::MAX,
                                row@ == g@[i as int]@,
                                i < g@.len(),
                                *v is Cell,
                                (*v)->Cell_0 == *g,
                                vv == view_of(*v),
                                vv is Cell,
                                gv == vv->Cell_0,
                                gv.len() == g@.len(),
                                gv[i as int].len() == row@.len(),
                            ensures
                                base + seq!['{'] + render_cell_rows(vv, 0) == out@ + (if i + 1
                                    < g@.len() {
                                    seq![';', ' '] + render_cell_rows(vv, i + 1)
                                } else {
                                    Seq::empty()
                                }),
                            decreases row@.len() - j,
                        {
                            proof {
                                assert(row@[j as int] == (*v)->Cell_0@[i as int]@[j as int]);
                                assert(decreases_to!(*v => (*v)->Cell_0@[i as int]@[j as int]));
                                assert(gv[i as int][j as int] == view_of(row@[j as int]));
                            }
                            render_into(&row[j], out);
                            if j + 1 < row.len() {
                                out.push(',');
                                out.push(' ');
                                j += 1;
                            } else {
                                break ;
                            }
                        }
                    }
                    if i + 1 < g.len() {
                        out.push(';');
                        out.push(' ');
                        i += 1;
                    } else {
                        break ;
                    }
                }
            }
            out.push('}');
            assert(out@ =~= (base + seq!['{'] + render_cell_rows(vv, 0)) + seq!['}']);
            assert(out@ =~= base + spec_render(view_of(*v)));
        },
        OctaveType::Empty => {
            assert(out@ =~= base + spec_render(view_of(*v)));
        },
        OctaveType::Error(m) => {
            push_str_chars(out, "Error: ");
            push_str_chars(out, m.as_str());
            assert(out@ =~= base + spec_render(view_of(*v)));
        },
    }
}

/// Appends a string's characters.
fn push_str_chars(out: &mut Vec<char>, s: &str)
    ensures
        final(out)@ == old(out)@ + s@,
{
    let ghost base = out@;
    let n = s.unicode_len();
    let mut i: usize = 0;
    while i < n
        invariant
            i <= n,
            n == s@.len(),
            out@ == base + s@.subrange(0, i as int),
        decreases n - i,
    {
        let c = s.get_char(i);
        out.push(c);
        assert(out@ =~= base + s@.subrange(0, i + 1));
        i += 1;
    }
    assert(out@ =~= base + s@);
}

/// The expression text of one value.
pub fn render_value(v: &OctaveType) -> (r: String)
    ensures
        r@ == spec_render(view_of(*v)),
{
    let mut out: Vec<char> = Vec::new();
    render_into(v, &mut out);
    assert(out@ =~= spec_render(view_of(*v)));
    string_from(&out)
}

/// The rendered argument list, joined with `", "`.
pub open spec fn render_args(args: Seq<SpecValue>, i: int) -> Seq<char>
    decreases args.len() - i,
{
    if i < 0 || i >= args.len() {
        Seq::empty()
    } else if i + 1 < args.len() {
        spec_render(args[i]) + seq![',', ' '] + render_args(args, i + 1)
    } else {
        spec_render(args[i])
    }
}

/// The call expression that assigns the function's result to the fixed
/// temporary name.
pub open spec fn spec_call(function: Seq<char>, args: Seq<SpecValue>) -> Seq<char> {
    "result_of_function = "@ + function + seq!['('] + render_args(args, 0) + seq![')']
}

/// Builds the call expression for a function name and an ordered argument
/// list; decoding the collaborator's reply and extracting the temporary
/// yields the call's result.
pub fn build_call(function: &str, args: &Vec<OctaveType>) -> (r: String)
    ensures
        r@ == spec_call(function@, vals_view(args@)),
{
    let ghost av = vals_view(args@);
    let mut out: Vec<char> = Vec::new();
    push_str_chars(&mut out, "result_of_function = ");
    push_str_chars(&mut out, function);
    out.push('(');
    let ghost head = "result_of_function = "@ + function@ + seq!['('];
    assert(out@ =~= head);
    let mut i: usize = 0;
    if args.len() > 0 {
        loop
            invariant_except_break
                head + render_args(av, 0) == out@ + render_args(av, i as int),
            invariant
                0 <= i < args@.len(),
                args@.len() <= usize::MAX,
                av == vals_view(args@),
                av.len() == args@.len(),
            ensures
                out@ == head + render_args(av, 0),
            decreases args@.len() - i,
        {
            proof {
                assert(av[i as int] == view_of(args@[i as int]));
            }
            render_into(&args[i], &mut out);
            if i + 1 < args.len() {
                out.push(',');
                out.push(' ');
                i += 1;
            } else {
                break ;
            }
        }
    }
    out.push(')');
    assert(out@ =~= (head + render_args(av, 0)) + seq![')']);
    assert(out@ =~= spec_call(function@, av));
    string_from(&out)
}

} // verus!
