//! Numeric lexemes: decimal header values (`rows`, `columns`, ...), decimal
//! rendering of integers, and the lexical grammar of floating-point literals
//! as the standard library's float parser accepts them. The decoder never
//! computes with a numeric value; it only validates and carries the token.

use vstd::prelude::*;

verus! {

use crate::text::find_first;
use crate::text::lemma_find_first;
use crate::text::lemma_find_first_is;

pub open spec fn is_digit(c: char) -> bool {
    '0' <= c && c <= '9'
}

/// The numeric value of one decimal digit character.
pub open spec fn digit_of(c: char) -> int {
    c as int - '0' as int
}

pub open spec fn all_digits(s: Seq<char>) -> bool {
    forall|i: int| 0 <= i < s.len() ==> is_digit(#[trigger] s[i])
}

/// The value of a run of decimal digits, most significant first.
pub open spec fn digits_val(s: Seq<char>) -> int
    decreases s.len(),
{
    if s.len() == 0 {
        0
    } else {
        digits_val(s.drop_last()) * 10 + digit_of(s.last())
    }
}

pub proof fn lemma_digits_val_nonneg(s: Seq<char>)
    requires
        all_digits(s),
    ensures
        digits_val(s) >= 0,
    decreases s.len(),
{
    if s.len() > 0 {
        assert(all_digits(s.drop_last()));
        lemma_digits_val_nonneg(s.drop_last());
    }
}

/// Extending a digit run to the right never shrinks its value.
pub proof fn lemma_digits_val_prefix(s: Seq<char>, i: int)
    requires
        all_digits(s),
        0 <= i <= s.len(),
    ensures
        digits_val(s.subrange(0, i)) <= digits_val(s),
    decreases s.len() - i,
{
    if i < s.len() {
        lemma_digits_val_prefix(s, i + 1);
        let a = s.subrange(0, i);
        let b = s.subrange(0, i + 1);
        assert(b.drop_last() =~= a);
        assert(all_digits(a));
        lemma_digits_val_nonneg(a);
        assert(digits_val(b) == digits_val(a) * 10 + digit_of(b.last()));
    } else {
        assert(s.subrange(0, i) =~= s);
    }
}

/// Parses a run of decimal digits as a `u64`; `None` if the run is empty,
/// holds a non-digit, or overflows.
pub fn parse_u64(s: &Vec<char>) -> (r: Option<u64>)
    ensures
        match r {
            Some(v) => s@.len() > 0 && all_digits(s@) && v == digits_val(s@),
            None => s@.len() == 0 || !all_digits(s@) || digits_val(s@) > u64::MAX,
        },
{
    if s.len() == 0 {
        return None;
    }
    let mut val: u64 = 0;
    let mut i: usize = 0;
    while i < s.len()
        invariant
            i <= s.len(),
            all_digits(s@.subrange(0, i as int)),
            val == digits_val(s@.subrange(0, i as int)),
        decreases s.len() - i,
    {
        let c = s[i];
        if !('0' <= c && c <= '9') {
            return None;
        }
        let d: u64 = (c as u32 as u64) - ('0' as u32 as u64);
        assert(d == digit_of(c));
        if val > (u64::MAX - d) / 10 {
            proof {
                let pre = s@.subrange(0, i + 1);
                assert(pre.drop_last() =~= s@.subrange(0, i as int));
                assert(digits_val(pre) == val * 10 + d > u64::MAX);
                if all_digits(s@) {
                    lemma_digits_val_prefix(s@, i + 1);
                }
            }
            return None;
        }
        val = val * 10 + d;
        assert(s@.subrange(0, i + 1).drop_last() =~= s@.subrange(0, i as int));
        i += 1;
    }
    assert(s@.subrange(0, s@.len() as int) =~= s@);
    Some(val)
}

/// The decimal digit character for a value below ten.
pub open spec fn digit_char(d: int) -> char {
    if d == 0 {
        '0'
    } else if d == 1 {
        '1'
    } else if d == 2 {
        '2'
    } else if d == 3 {
        '3'
    } else if d == 4 {
        '4'
    } else if d == 5 {
        '5'
    } else if d == 6 {
        '6'
    } else if d == 7 {
        '7'
    } else if d == 8 {
        '8'
    } else {
        '9'
    }
}

/// The decimal rendering of a non-negative integer, without sign or padding.
pub open spec fn dec_digits(n: int) -> Seq<char>
    decreases n,
{
    if n < 10 {
        seq![digit_char(n)]
    } else {
        dec_digits(n / 10).push(digit_char(n % 10))
    }
}

pub proof fn lemma_dec_digits_are_digits(n: int)
    requires
        n >= 0,
    ensures
        dec_digits(n).len() > 0,
        all_digits(dec_digits(n)),
    decreases n,
{
    if n >= 10 {
        lemma_dec_digits_are_digits(n / 10);
        let s = dec_digits(n);
        assert forall|i: int| 0 <= i < s.len() implies is_digit(#[trigger] s[i]) by {
            if i < s.len() - 1 {
                assert(s[i] == dec_digits(n / 10)[i]);
            }
        }
    }
}

fn digit_char_exec(d: u64) -> (c: char)
    requires
        d < 10,
    ensures
        c == digit_char(d as int),
{
    if d == 0 {
        '0'
    } else if d == 1 {
        '1'
    } else if d == 2 {
        '2'
    } else if d == 3 {
        '3'
    } else if d == 4 {
        '4'
    } else if d == 5 {
        '5'
    } else if d == 6 {
        '6'
    } else if d == 7 {
        '7'
    } else if d == 8 {
        '8'
    } else {
        '9'
    }
}

/// Renders a `u64` in decimal.
pub fn u64_digits(n: u64) -> (r: Vec<char>)
    ensures
        r@ == dec_digits(n as int),
    decreases n,
{
    if n < 10 {
        let mut r: Vec<char> = Vec::new();
        r.push(digit_char_exec(n));
        assert(r@ =~= dec_digits(n as int));
        r
    } else {
        let mut r = u64_digits(n / 10);
        r.push(digit_char_exec(n % 10));
        r
    }
}

// ---------------------------------------------------------------------------
// The lexical grammar of float literals.
//
// A token is accepted exactly when the standard library's float parser
// accepts it: an optional sign, then either one of the words `inf`,
// `infinity`, `nan` (any letter case), or a mantissa of digits with at most
// one point, optionally followed by `e`/`E`, an optional sign and a
// non-empty digit run.
// ---------------------------------------------------------------------------
/// The token without a single leading `+` or `-`.
pub open spec fn strip_sign(s: Seq<char>) -> Seq<char> {
    if s.len() > 0 && (s[0] == '+' || s[0] == '-') {
        s.drop_first()
    } else {
        s
    }
}

/// Case-insensitive match of a letter against its lower-case form.
pub open spec fn ci_eq(a: char, b: char) -> bool {
    a == b || a as int + 32 == b as int
}

pub open spec fn ci_match(s: Seq<char>, w: Seq<char>) -> bool {
    s.len() == w.len() && forall|i: int| 0 <= i < s.len() ==> ci_eq(#[trigger] s[i], w[i])
}

/// One of the special words the float parser knows.
pub open spec fn is_special_word(s: Seq<char>) -> bool {
    ci_match(s, seq!['i', 'n', 'f']) || ci_match(
        s,
        seq!['i', 'n', 'f', 'i', 'n', 'i', 't', 'y'],
    ) || ci_match(s, seq!['n', 'a', 'n'])
}

pub open spec fn is_count(s: Seq<char>) -> bool {
    s.len() > 0 && all_digits(s)
}

/// The number of point characters in a mantissa.
pub open spec fn dot_count(s: Seq<char>) -> int
    decreases s.len(),
{
    if s.len() == 0 {
        0
    } else {
        dot_count(s.drop_last()) + if s.last() == '.' {
            1int
        } else {
            0int
        }
    }
}

/// Digits with at most one point and at least one digit.
pub open spec fn is_mantissa(s: Seq<char>) -> bool {
    &&& s.len() > 0
    &&& forall|i: int| 0 <= i < s.len() ==> (is_digit(#[trigger] s[i]) || s[i] == '.')
    &&& dot_count(s) <= 1
    &&& s.len() > dot_count(s)
}

/// An exponent part after the `e`: optional sign, then digits.
pub open spec fn is_exp_part(s: Seq<char>) -> bool {
    is_count(strip_sign(s))
}

/// Whether the token is a float literal in the standard lexical form.
pub open spec fn is_float_literal(s: Seq<char>) -> bool {
    let b = strip_sign(s);
    if is_special_word(b) {
        true
    } else {
        let k = find_first(b, |c: char| c == 'e' || c == 'E');
        if k >= b.len() {
            is_mantissa(b)
        } else {
            is_mantissa(b.subrange(0, k as int)) && is_exp_part(
                b.subrange(k as int + 1, b.len() as int),
            )
        }
    }
}

/// Decides `is_mantissa` for a slice of the token.
fn check_mantissa(s: &Vec<char>, from: usize, to: usize) -> (r: bool)
    requires
        from <= to <= s@.len(),
    ensures
        r == is_mantissa(s@.subrange(from as int, to as int)),
{
    let ghost m = s@.subrange(from as int, to as int);
    if from == to {
        return false;
    }
    let mut dots: usize = 0;
    let mut i: usize = from;
    while i < to
        invariant
            from <= i <= to <= s@.len(),
            m == s@.subrange(from as int, to as int),
            forall|j: int|
                0 <= j < i - from ==> (is_digit(#[trigger] m[j]) || m[j] == '.'),
            dots == dot_count(m.subrange(0, i - from)),
            dots <= i - from,
        decreases to - i,
    {
        let c = s[i];
        assert(m[i - from] == c);
        if c == '.' {
            dots += 1;
        } else if !('0' <= c && c <= '9') {
            assert(!(is_digit(m[i - from]) || m[i - from] == '.'));
            return false;
        }
        assert(m.subrange(0, i + 1 - from).drop_last() =~= m.subrange(0, i - from));
        i += 1;
    }
    assert(m.subrange(0, to - from) =~= m);
    dots <= 1 && (to - from) > dots
}

/// Decides `is_count` for a slice of the token.
fn check_count(s: &Vec<char>, from: usize, to: usize) -> (r: bool)
    requires
        from <= to <= s@.len(),
    ensures
        r == is_count(s@.subrange(from as int, to as int)),
{
    let ghost m = s@.subrange(from as int, to as int);
    if from == to {
        return false;
    }
    let mut i: usize = from;
    while i < to
        invariant
            from <= i <= to <= s@.len(),
            m == s@.subrange(from as int, to as int),
            forall|j: int| 0 <= j < i - from ==> is_digit(#[trigger] m[j]),
        decreases to - i,
    {
        let c = s[i];
        assert(m[i - from] == c);
        if !('0' <= c && c <= '9') {
            return false;
        }
        i += 1;
    }
    true
}

fn ci_eq_exec(a: char, b: char) -> (r: bool)
    ensures
        r == ci_eq(a, b),
{
    a == b || (a as u32).checked_add(32) == Some(b as u32)
}

/// Decides whether the token, already stripped of its sign, is one of the
/// special float words.
fn check_special(s: &Vec<char>, from: usize) -> (r: bool)
    requires
        from <= s@.len(),
    ensures
        r == is_special_word(s@.subrange(from as int, s@.len() as int)),
{
    let ghost b = s@.subrange(from as int, s@.len() as int);
    let n = s.len() - from;
    if n == 3 {
        let r = (ci_eq_exec(s[from], 'i') && ci_eq_exec(s[from + 1], 'n') && ci_eq_exec(
            s[from + 2],
            'f',
        )) || (ci_eq_exec(s[from], 'n') && ci_eq_exec(s[from + 1], 'a') && ci_eq_exec(
            s[from + 2],
            'n',
        ));
        assert(b.len() == 3);
        assert(b[0] == s@[from as int] && b[1] == s@[from as int + 1] && b[2] == s@[from as int
            + 2]);
        assert(r == is_special_word(b)) by {
            let inf = seq!['i', 'n', 'f'];
            let nan = seq!['n', 'a', 'n'];
            assert(inf[0] == 'i' && inf[1] == 'n' && inf[2] == 'f');
            assert(nan[0] == 'n' && nan[1] == 'a' && nan[2] == 'n');
            if ci_eq(b[0], 'i') && ci_eq(b[1], 'n') && ci_eq(b[2], 'f') {
                assert(forall|i: int| 0 <= i < 3 ==> ci_eq(#[trigger] b[i], inf[i]));
            }
            if ci_eq(b[0], 'n') && ci_eq(b[1], 'a') && ci_eq(b[2], 'n') {
                assert(forall|i: int| 0 <= i < 3 ==> ci_eq(#[trigger] b[i], nan[i]));
            }
            if ci_match(b, inf) {
                assert(ci_eq(b[0], inf[0]) && ci_eq(b[1], inf[1]) && ci_eq(b[2], inf[2]));
            }
            if ci_match(b, nan) {
                assert(ci_eq(b[0], nan[0]) && ci_eq(b[1], nan[1]) && ci_eq(b[2], nan[2]));
            }
        }
        r
    } else if n == 8 {
        let r = ci_eq_exec(s[from], 'i') && ci_eq_exec(s[from + 1], 'n') && ci_eq_exec(
            s[from + 2],
            'f',
        ) && ci_eq_exec(s[from + 3], 'i') && ci_eq_exec(s[from + 4], 'n') && ci_eq_exec(
            s[from + 5],
            'i',
        ) && ci_eq_exec(s[from + 6], 't') && ci_eq_exec(s[from + 7], 'y');
        assert(b.len() == 8);
        assert(forall|i: int| 0 <= i < 8 ==> b[i] == s@[from + i]);
        assert(r == is_special_word(b)) by {
            let w = seq!['i', 'n', 'f', 'i', 'n', 'i', 't', 'y'];
            assert(w[0] == 'i' && w[1] == 'n' && w[2] == 'f' && w[3] == 'i' && w[4] == 'n' && w[5]
                == 'i' && w[6] == 't' && w[7] == 'y');
            if r {
                assert(forall|i: int| 0 <= i < 8 ==> ci_eq(#[trigger] b[i], w[i]));
            }
            if ci_match(b, w) {
                assert(ci_eq(b[0], w[0]) && ci_eq(b[1], w[1]) && ci_eq(b[2], w[2]) && ci_eq(
                    b[3],
                    w[3],
                ) && ci_eq(b[4], w[4]) && ci_eq(b[5], w[5]) && ci_eq(b[6], w[6]) && ci_eq(
                    b[7],
                    w[7],
                ));
            }
        }
        r
    } else {
        assert(!is_special_word(b));
        false
    }
}

/// Decides whether one token is a float literal.
pub fn check_float_literal(s: &Vec<char>) -> (r: bool)
    ensures
        r == is_float_literal(s@),
{
    let mut from: usize = 0;
    if s.len() > 0 && (s[0] == '+' || s[0] == '-') {
        from = 1;
    }
    let ghost b = strip_sign(s@);
    assert(b =~= s@.subrange(from as int, s@.len() as int));
    if check_special(s, from) {
        return true;
    }
    // find the first exponent marker
    let mut k: usize = from;
    while k < s.len() && !(s[k] == 'e' || s[k] == 'E')
        invariant
            from <= k <= s@.len(),
            b == s@.subrange(from as int, s@.len() as int),
            forall|j: int| 0 <= j < k - from ==> !(#[trigger] b[j] == 'e' || b[j] == 'E'),
        decreases s@.len() - k,
    {
        assert(b[k - from] == s@[k as int]);
        k += 1;
    }
    proof {
        let p = |c: char| c == 'e' || c == 'E';
        if k < s@.len() {
            assert(b[k - from] == s@[k as int]);
            lemma_find_first_is(b, p, k - from);
        } else {
            lemma_find_first_is(b, p, b.len() as int);
        }
    }
    if k == s.len() {
        check_mantissa(s, from, k)
    } else {
        assert(b.subrange(0, k - from) =~= s@.subrange(from as int, k as int));
        if !check_mantissa(s, from, k) {
            return false;
        }
        let ghost e = b.subrange(k - from + 1, b.len() as int);
        assert(e =~= s@.subrange(k as int + 1, s@.len() as int));
        let mut efrom: usize = k + 1;
        if efrom < s.len() && (s[efrom] == '+' || s[efrom] == '-') {
            assert(e[0] == s@[efrom as int]);
            efrom = efrom + 1;
        }
        assert(strip_sign(e) =~= s@.subrange(efrom as int, s@.len() as int));
        check_count(s, efrom, s.len())
    }
}

} // verus!
