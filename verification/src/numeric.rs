//! The numeric interpretation of list items, used by smart sort.
//!
//! An item counts as numeric when, after trimming, it matches the float
//! token grammar `[+-]? ( inf | infinity | nan | digits [ '.' digits ]
//! [ (e|E) [+-]? digits ] | '.' digits [ (e|E) [+-]? digits ] )`, the
//! alphabetic parts case-insensitive — the strings a 64-bit float
//! parser accepts. Finite tokens are compared exactly, as the rationals
//! their digits denote; the infinity tokens sit below and above every
//! finite value. A not-a-number token denotes no ordered value, so it
//! takes the defensive fallback key zero. Since float rounding and
//! saturation are monotone, a list sorted this way is also
//! non-decreasing by parsed float value.
//!
//! One bound keeps the comparison within machine integers: an exponent
//! is valued exactly up to 10^30 and clamped there. Any two tokens
//! whose orders of magnitude reach that bound are far past where every
//! 64-bit float saturates to infinity or zero, so the clamp never
//! disagrees with parsed-float order; among themselves such tokens
//! compare by sign and digits.

use vstd::arithmetic::mul::{
    lemma_mul_inequality, lemma_mul_is_associative, lemma_mul_is_distributive_add_other_way,
    lemma_mul_strict_inequality, lemma_mul_strictly_positive, lemma_mul_unary_negation,
};
use vstd::arithmetic::power::{lemma_pow_adds, lemma_pow_increases, lemma_pow_positive, pow};
use vstd::prelude::*;

use crate::text::{find_char, lemma_find_char, lemma_find_char_is, spec_trim, trim_str};

verus! {

/// Ten to the `e`.
pub open spec fn pow10(e: nat) -> int {
    pow(10, e)
}

pub proof fn lemma_pow10_pos(e: nat)
    ensures
        pow10(e) > 0,
{
    lemma_pow_positive(10, e);
}

pub proof fn lemma_pow10_succ(e: nat)
    ensures
        pow10(e + 1) == 10 * pow10(e),
{
    vstd::arithmetic::power::lemma_pow1(10);
    lemma_pow_adds(10, 1, e);
}

/// Characters with equal code points are equal.
pub proof fn lemma_char_eq(c: char, d: char)
    requires
        c as u32 == d as u32,
    ensures
        c == d,
{
}

/// Whether `c` is a decimal digit.
pub open spec fn is_digit(c: char) -> bool {
    48 <= c as u32 <= 57
}

/// The value of a decimal digit.
pub open spec fn digit_val(c: char) -> int {
    c as u32 - 48
}

pub open spec fn all_digits(s: Seq<char>) -> bool {
    forall|i: int| 0 <= i < s.len() ==> is_digit(#[trigger] s[i])
}

/// The integer a digit sequence denotes, most significant digit first.
pub open spec fn digits_val(s: Seq<char>) -> int
    decreases s.len(),
{
    if s.len() == 0 {
        0
    } else {
        digits_val(s.drop_last()) * 10 + digit_val(s.last())
    }
}

pub proof fn lemma_digits_val_bounds(s: Seq<char>)
    requires
        all_digits(s),
    ensures
        0 <= digits_val(s) < pow10(s.len() as nat),
    decreases s.len(),
{
    lemma_pow10_pos(s.len() as nat);
    if s.len() == 0 {
    } else {
        let t = s.drop_last();
        assert(all_digits(t));
        lemma_digits_val_bounds(t);
        assert(is_digit(s[s.len() - 1]));
        assert(0 <= digit_val(s.last()) <= 9);
        lemma_pow10_succ(t.len() as nat);
        assert(pow10(s.len() as nat) == 10 * pow10(t.len() as nat));
        assert(digits_val(s) == digits_val(t) * 10 + digit_val(s.last()));
        assert(digits_val(t) * 10 <= (pow10(t.len() as nat) - 1) * 10);
    }
}

pub proof fn lemma_digits_val_concat(a: Seq<char>, b: Seq<char>)
    ensures
        digits_val(a + b) == digits_val(a) * pow10(b.len() as nat) + digits_val(b),
    decreases b.len(),
{
    if b.len() == 0 {
        assert(a + b =~= a);
        assert(pow10(0) == 1) by {
            vstd::arithmetic::power::lemma_pow0(10);
        }
        assert(digits_val(a) * 1 == digits_val(a));
    } else {
        let bt = b.drop_last();
        lemma_digits_val_concat(a, bt);
        assert((a + b).drop_last() =~= a + bt);
        assert((a + b).last() == b.last());
        assert(digits_val(a + b) == (digits_val(a) * pow10(bt.len() as nat) + digits_val(bt)) * 10
            + digit_val(b.last()));
        assert((digits_val(a) * pow10(bt.len() as nat)) * 10 == digits_val(a) * (pow10(
            bt.len() as nat,
        ) * 10)) by {
            lemma_mul_is_associative(digits_val(a), pow10(bt.len() as nat), 10);
        }
        lemma_pow10_succ(bt.len() as nat);
        assert(pow10(bt.len() as nat) * 10 == pow10(b.len() as nat));
    }
}

/// A sequence of `'0'` characters denotes zero.
pub proof fn lemma_zeros_val(s: Seq<char>)
    requires
        forall|i: int| 0 <= i < s.len() ==> s[i] == '0',
    ensures
        digits_val(s) == 0,
        all_digits(s),
    decreases s.len(),
{
    if s.len() > 0 {
        lemma_zeros_val(s.drop_last());
    }
}

/// A digit sequence denotes zero exactly when every digit is `'0'`.
pub proof fn lemma_digits_val_zero(s: Seq<char>)
    requires
        all_digits(s),
    ensures
        digits_val(s) == 0 <==> (forall|i: int| 0 <= i < s.len() ==> s[i] == '0'),
    decreases s.len(),
{
    if s.len() == 0 {
    } else {
        let t = s.drop_last();
        assert(all_digits(t));
        lemma_digits_val_zero(t);
        lemma_digits_val_bounds(t);
        if digits_val(s) == 0 {
            assert(is_digit(s[s.len() - 1]));
            assert(0 <= digit_val(s.last()) <= 9);
            assert(digits_val(t) * 10 + digit_val(s.last()) == 0);
            assert(digits_val(t) == 0 && digit_val(s.last()) == 0);
            assert(s.last() as u32 == '0' as u32);
            lemma_char_eq(s.last(), '0');
            assert(s.last() == '0');
            assert(forall|i: int| 0 <= i < t.len() ==> #[trigger] s[i] == t[i]);
        } else {
            if forall|i: int| 0 <= i < s.len() ==> s[i] == '0' {
                assert(forall|i: int| 0 <= i < t.len() ==> t[i] == '0');
                assert(digit_val(s.last()) == 0);
            }
        }
    }
}

/// A digit sequence that does not start with `'0'` denotes at least
/// ten to its remaining length.
pub proof fn lemma_digits_val_lower(s: Seq<char>)
    requires
        all_digits(s),
        s.len() >= 1,
        s[0] != '0',
    ensures
        digits_val(s) >= pow10((s.len() - 1) as nat),
{
    let rest = s.subrange(1, s.len() as int);
    assert(s =~= seq![s[0]] + rest);
    lemma_digits_val_concat(seq![s[0]], rest);
    assert(digits_val(seq![s[0]]) == digit_val(s[0])) by {
        let one = seq![s[0]];
        assert(one.drop_last() =~= Seq::<char>::empty());
        assert(digits_val(one.drop_last()) == 0);
        assert(one.last() == s[0]);
        assert(digits_val(one) == digits_val(one.drop_last()) * 10 + digit_val(one.last()));
    }
    assert(digit_val(s[0]) >= 1) by {
        if s[0] as u32 == 48 {
            lemma_char_eq(s[0], '0');
        }
    }
    assert(all_digits(rest));
    lemma_digits_val_bounds(rest);
    lemma_pow10_pos(rest.len() as nat);
    lemma_mul_inequality(1, digit_val(s[0]), pow10(rest.len() as nat));
}

/// Equal-length digit sequences that agree up to `j` and differ at `j`
/// compare as their values do.
pub proof fn lemma_lex_value(a: Seq<char>, b: Seq<char>, j: int)
    requires
        all_digits(a),
        all_digits(b),
        a.len() == b.len(),
        0 <= j < a.len(),
        forall|k: int| 0 <= k < j ==> a[k] == b[k],
        digit_val(a[j]) < digit_val(b[j]),
    ensures
        digits_val(a) < digits_val(b),
{
    let n = a.len() as int;
    let p = a.subrange(0, j);
    let pa = a.subrange(0, j + 1);
    let pb = b.subrange(0, j + 1);
    let sa = a.subrange(j + 1, n);
    let sb = b.subrange(j + 1, n);
    assert(p =~= b.subrange(0, j));
    assert(pa =~= p.push(a[j]));
    assert(pb =~= p.push(b[j]));
    assert(pa.drop_last() =~= p);
    assert(pb.drop_last() =~= p);
    assert(digits_val(pa) == digits_val(p) * 10 + digit_val(a[j]));
    assert(digits_val(pb) == digits_val(p) * 10 + digit_val(b[j]));
    assert(a =~= pa + sa);
    assert(b =~= pb + sb);
    let k = (n - j - 1) as nat;
    lemma_digits_val_concat(pa, sa);
    lemma_digits_val_concat(pb, sb);
    assert(all_digits(sa));
    assert(all_digits(sb));
    lemma_digits_val_bounds(sa);
    lemma_digits_val_bounds(sb);
    // digits_val(a) < (digits_val(pa) + 1) * pow10(k) <= digits_val(pb) * pow10(k) <= digits_val(b)
    lemma_pow10_pos(k);
    assert((digits_val(pa) + 1) * pow10(k) == digits_val(pa) * pow10(k) + pow10(k)) by {
        lemma_mul_is_distributive_add_other_way(pow10(k), digits_val(pa), 1);
    }
    assert(digits_val(pa) + 1 <= digits_val(pb));
    lemma_mul_inequality(digits_val(pa) + 1, digits_val(pb), pow10(k));
}

/// Length of the optional leading sign.
pub open spec fn sign_len(s: Seq<char>) -> int {
    if s.len() > 0 && (s[0] == '+' || s[0] == '-') {
        1
    } else {
        0
    }
}

/// Whether a trimmed numeric text carries a minus sign.
pub open spec fn spec_is_neg(s: Seq<char>) -> bool {
    s.len() > 0 && s[0] == '-'
}

/// The text after the optional sign.
pub open spec fn num_body(s: Seq<char>) -> Seq<char> {
    s.subrange(sign_len(s), s.len() as int)
}

/// Case-insensitive match of `c` against a lowercase ASCII letter.
pub open spec fn spec_ci(c: char, l: char) -> bool {
    c == l || c as u32 + 32 == l as u32
}

/// Whether the unsigned body is an infinity token: `inf` or `infinity`,
/// case-insensitive.
pub open spec fn is_inf_body(b: Seq<char>) -> bool {
    (b.len() == 3 && spec_ci(b[0], 'i') && spec_ci(b[1], 'n') && spec_ci(b[2], 'f')) || (b.len()
        == 8 && spec_ci(b[0], 'i') && spec_ci(b[1], 'n') && spec_ci(b[2], 'f') && spec_ci(
        b[3],
        'i',
    ) && spec_ci(b[4], 'n') && spec_ci(b[5], 'i') && spec_ci(b[6], 't') && spec_ci(b[7], 'y'))
}

/// Whether the unsigned body is a not-a-number token: `nan`,
/// case-insensitive.
pub open spec fn is_nan_body(b: Seq<char>) -> bool {
    b.len() == 3 && spec_ci(b[0], 'n') && spec_ci(b[1], 'a') && spec_ci(b[2], 'n')
}

/// Whether `c` marks the exponent part.
pub open spec fn is_exp_mark(c: char) -> bool {
    c == 'e' || c == 'E'
}

/// Index of the first exponent marker in `s`, or `s.len()` if absent.
pub open spec fn find_mark(s: Seq<char>) -> int
    decreases s.len(),
{
    if s.len() == 0 {
        0
    } else if is_exp_mark(s[0]) {
        0
    } else {
        1 + find_mark(s.drop_first())
    }
}

/// What `find_mark` returns: in range, nothing before it is a marker,
/// and it points at a marker unless none occurs.
pub proof fn lemma_find_mark(s: Seq<char>)
    ensures
        0 <= find_mark(s) <= s.len(),
        forall|k: int| 0 <= k < find_mark(s) ==> !is_exp_mark(s[k]),
        find_mark(s) < s.len() ==> is_exp_mark(s[find_mark(s)]),
    decreases s.len(),
{
    if s.len() > 0 && !is_exp_mark(s[0]) {
        let t = s.drop_first();
        lemma_find_mark(t);
        assert(forall|k: int| 1 <= k < find_mark(s) ==> s[k] == t[k - 1]);
    }
}

/// `find_mark` is pinned by any position that is a first marker.
pub proof fn lemma_find_mark_is(s: Seq<char>, j: int)
    requires
        0 <= j <= s.len(),
        forall|k: int| 0 <= k < j ==> !is_exp_mark(s[k]),
        j < s.len() ==> is_exp_mark(s[j]),
    ensures
        find_mark(s) == j,
    decreases s.len(),
{
    if s.len() > 0 && !is_exp_mark(s[0]) {
        let t = s.drop_first();
        assert(forall|k: int| 0 <= k < j - 1 ==> t[k] == s[k + 1]);
        lemma_find_mark_is(t, j - 1);
    }
}

/// The mantissa: the body up to the exponent marker.
pub open spec fn mant_of(t: Seq<char>) -> Seq<char> {
    let b = num_body(t);
    b.subrange(0, find_mark(b))
}

/// The digits before the decimal point of the mantissa.
pub open spec fn int_digits(t: Seq<char>) -> Seq<char> {
    let m = mant_of(t);
    m.subrange(0, find_char(m, '.'))
}

/// The digits after the decimal point, empty when there is no point.
pub open spec fn frac_digits(t: Seq<char>) -> Seq<char> {
    let m = mant_of(t);
    let i = find_char(m, '.');
    if i < m.len() {
        m.subrange(i + 1, m.len() as int)
    } else {
        Seq::empty()
    }
}

/// The text after the exponent marker, empty when there is none.
pub open spec fn exp_part(t: Seq<char>) -> Seq<char> {
    let b = num_body(t);
    if find_mark(b) < b.len() {
        b.subrange(find_mark(b) + 1, b.len() as int)
    } else {
        Seq::empty()
    }
}

/// Length of the exponent's optional sign.
pub open spec fn exp_sign_len(t: Seq<char>) -> int {
    let e = exp_part(t);
    if e.len() > 0 && (e[0] == '+' || e[0] == '-') {
        1
    } else {
        0
    }
}

/// Whether the exponent carries a minus sign.
pub open spec fn spec_exp_neg(t: Seq<char>) -> bool {
    let e = exp_part(t);
    e.len() > 0 && e[0] == '-'
}

/// The exponent's digits.
pub open spec fn exp_digits(t: Seq<char>) -> Seq<char> {
    let e = exp_part(t);
    e.subrange(exp_sign_len(t), e.len() as int)
}

/// Whether an already-trimmed text is a finite token of the grammar.
pub open spec fn finite_form(t: Seq<char>) -> bool {
    let b = num_body(t);
    &&& all_digits(int_digits(t))
    &&& all_digits(frac_digits(t))
    &&& int_digits(t).len() + frac_digits(t).len() >= 1
    &&& all_digits(exp_digits(t))
    &&& (find_mark(b) < b.len() ==> exp_digits(t).len() >= 1)
}

/// Whether an already-trimmed text is an infinity token.
pub open spec fn spec_is_inf(t: Seq<char>) -> bool {
    is_inf_body(num_body(t))
}

/// Whether an already-trimmed text is a not-a-number token.
pub open spec fn spec_is_nan(t: Seq<char>) -> bool {
    is_nan_body(num_body(t))
}

/// Whether an already-trimmed text matches the numeric grammar.
pub open spec fn valid_number(t: Seq<char>) -> bool {
    spec_is_inf(t) || spec_is_nan(t) || finite_form(t)
}

/// Whether an item counts as numeric: its trimmed text matches the
/// grammar.
pub open spec fn is_numeric_str(s: Seq<char>) -> bool {
    valid_number(spec_trim(s))
}

/// The bound at which exponent values are clamped: far beyond where
/// any 64-bit float saturates, so the clamp never reorders parsed
/// float values.
pub open spec fn exp_cap() -> int {
    1000000000000000000000000000000
}

/// `x` clamped at the exponent bound.
pub open spec fn cap_at(x: int) -> int {
    if x > exp_cap() {
        exp_cap()
    } else {
        x
    }
}

/// The value a numeric item denotes: minus infinity, a rational
/// `n * 10^p`, or plus infinity.
pub enum NumVal {
    NegInf,
    Finite(int, int),
    PosInf,
}

/// The value of an item under the numeric grammar. A not-a-number
/// token (and any non-numeric text, which never reaches the numeric
/// branch) takes the defensive fallback key zero.
pub open spec fn spec_num_val(s: Seq<char>) -> NumVal {
    let t = spec_trim(s);
    if spec_is_inf(t) {
        if spec_is_neg(t) {
            NumVal::NegInf
        } else {
            NumVal::PosInf
        }
    } else if spec_is_nan(t) || !finite_form(t) {
        NumVal::Finite(0, 0)
    } else {
        let mag = digits_val(int_digits(t) + frac_digits(t));
        let n = if spec_is_neg(t) {
            -mag
        } else {
            mag
        };
        let e = cap_at(digits_val(exp_digits(t)));
        let p = (if spec_exp_neg(t) {
            -e
        } else {
            e
        }) - frac_digits(t).len();
        NumVal::Finite(n, p)
    }
}

/// `n1 * 10^p1 <= n2 * 10^p2`, by cross-scaling to a common power.
pub open spec fn fin_le(n1: int, p1: int, n2: int, p2: int) -> bool {
    if p1 >= p2 {
        n1 * pow10((p1 - p2) as nat) <= n2
    } else {
        n1 <= n2 * pow10((p2 - p1) as nat)
    }
}

/// The order on numeric values.
pub open spec fn ext_le(x: NumVal, y: NumVal) -> bool {
    match x {
        NumVal::NegInf => true,
        NumVal::PosInf => y is PosInf,
        NumVal::Finite(n1, p1) => match y {
            NumVal::NegInf => false,
            NumVal::PosInf => true,
            NumVal::Finite(n2, p2) => fin_le(n1, p1, n2, p2),
        },
    }
}

/// The numeric order on items: `a` denotes a value at most that of `b`.
pub open spec fn num_le(a: Seq<char>, b: Seq<char>) -> bool {
    ext_le(spec_num_val(a), spec_num_val(b))
}

/// `fin_le` is scale-invariant: it agrees with the comparison of both
/// sides brought to any common power of ten.
pub proof fn lemma_fin_le_shift(n1: int, p1: int, n2: int, p2: int, k: int)
    requires
        p1 + k >= 0,
        p2 + k >= 0,
    ensures
        fin_le(n1, p1, n2, p2) == (n1 * pow10((p1 + k) as nat) <= n2 * pow10((p2 + k) as nat)),
{
    if p1 >= p2 {
        let d = (p1 - p2) as nat;
        let q = (p2 + k) as nat;
        lemma_pow10_pos(q);
        lemma_pow_adds(10, d, q);
        assert(n1 * pow10((p1 + k) as nat) == (n1 * pow10(d)) * pow10(q)) by {
            lemma_mul_is_associative(n1, pow10(d), pow10(q));
        }
        let x = n1 * pow10(d);
        let pq = pow10(q);
        assert((x <= n2) ==> (x * pq <= n2 * pq)) by {
            if x <= n2 {
                lemma_mul_inequality(x, n2, pq);
            }
        }
        assert((x * pq <= n2 * pq) ==> (x <= n2)) by {
            if n2 < x {
                lemma_mul_strict_inequality(n2, x, pq);
            }
        }
    } else {
        let d = (p2 - p1) as nat;
        let q = (p1 + k) as nat;
        lemma_pow10_pos(q);
        lemma_pow_adds(10, d, q);
        assert(n2 * pow10((p2 + k) as nat) == (n2 * pow10(d)) * pow10(q)) by {
            lemma_mul_is_associative(n2, pow10(d), pow10(q));
        }
        let y = n2 * pow10(d);
        let pq = pow10(q);
        assert((n1 <= y) ==> (n1 * pq <= y * pq)) by {
            if n1 <= y {
                lemma_mul_inequality(n1, y, pq);
            }
        }
        assert((n1 * pq <= y * pq) ==> (n1 <= y)) by {
            if y < n1 {
                lemma_mul_strict_inequality(y, n1, pq);
            }
        }
    }
}

/// The numeric order relates every pair of items.
pub proof fn lemma_num_le_total(a: Seq<char>, b: Seq<char>)
    ensures
        num_le(a, b) || num_le(b, a),
{
    let x = spec_num_val(a);
    let y = spec_num_val(b);
    if x is Finite && y is Finite {
        let n1 = x->Finite_0;
        let p1 = x->Finite_1;
        let n2 = y->Finite_0;
        let p2 = y->Finite_1;
        let k = if -p1 > -p2 {
            -p1
        } else {
            -p2
        };
        lemma_fin_le_shift(n1, p1, n2, p2, k);
        lemma_fin_le_shift(n2, p2, n1, p1, k);
    }
}

/// The numeric order is transitive.
pub proof fn lemma_num_le_trans(a: Seq<char>, b: Seq<char>, c: Seq<char>)
    requires
        num_le(a, b),
        num_le(b, c),
    ensures
        num_le(a, c),
{
    let x = spec_num_val(a);
    let y = spec_num_val(b);
    let z = spec_num_val(c);
    if x is Finite && y is Finite && z is Finite {
        let n1 = x->Finite_0;
        let p1 = x->Finite_1;
        let n2 = y->Finite_0;
        let p2 = y->Finite_1;
        let n3 = z->Finite_0;
        let p3 = z->Finite_1;
        let k0 = if -p1 > -p2 {
            -p1
        } else {
            -p2
        };
        let k = if k0 > -p3 {
            k0
        } else {
            -p3
        };
        lemma_fin_le_shift(n1, p1, n2, p2, k);
        lemma_fin_le_shift(n2, p2, n3, p3, k);
        lemma_fin_le_shift(n1, p1, n3, p3, k);
    }
}

/// The digit parts of a parsed numeric item.
pub enum NumParsed {
    /// A finite token: sign, digits before and after the point, and
    /// the exponent's sign and digits.
    Finite { neg: bool, ip: Vec<char>, fp: Vec<char>, eneg: bool, ex: Vec<char> },
    /// An infinity token and its sign.
    Inf { neg: bool },
    /// A not-a-number token.
    Nan,
}

/// Runtime digit test.
fn digit_check(c: char) -> (r: bool)
    ensures
        r == is_digit(c),
{
    let u = c as u32;
    48 <= u && u <= 57
}

/// Runtime case-insensitive match against a lowercase letter.
fn ci_check(c: char, l: char) -> (r: bool)
    ensures
        r == spec_ci(c, l),
{
    c == l || (c as u32) + 32 == (l as u32)
}

/// Runtime exponent-marker test.
fn mark_check(c: char) -> (r: bool)
    ensures
        r == is_exp_mark(c),
{
    c == 'e' || c == 'E'
}

/// Parse an item into its numeric parts; `None` when it is not numeric.
#[verifier::rlimit(100)]
pub fn parse_num(s: &String) -> (r: Option<NumParsed>)
    ensures
        r is Some <==> is_numeric_str(s@),
        r is Some && spec_is_inf(spec_trim(s@)) ==> r->Some_0 == (NumParsed::Inf {
            neg: spec_is_neg(spec_trim(s@)),
        }),
        r is Some && spec_is_nan(spec_trim(s@)) ==> r->Some_0 == NumParsed::Nan,
        r is Some && !spec_is_inf(spec_trim(s@)) && !spec_is_nan(spec_trim(s@)) ==> (match r->Some_0 {
            NumParsed::Finite { neg, ip, fp, eneg, ex } => {
                &&& neg == spec_is_neg(spec_trim(s@))
                &&& ip@ == int_digits(spec_trim(s@))
                &&& fp@ == frac_digits(spec_trim(s@))
                &&& eneg == spec_exp_neg(spec_trim(s@))
                &&& ex@ == exp_digits(spec_trim(s@))
            },
            _ => false,
        }),
{
    let t = trim_str(s.as_str());
    let ts = t.as_str();
    let n = ts.unicode_len();
    let ghost tv = spec_trim(s@);
    let mut start: usize = 0;
    let mut neg = false;
    if n > 0 {
        let c0 = ts.get_char(0);
        if c0 == '-' {
            neg = true;
            start = 1;
        } else if c0 == '+' {
            start = 1;
        }
    }
    proof {
        assert(start as int == sign_len(tv));
        assert(neg == spec_is_neg(tv));
    }
    let ghost body = num_body(tv);
    assert(body =~= tv.subrange(start as int, n as int));
    // the alphabetic tokens: inf, infinity, nan
    let m = n - start;
    let mut token_inf = false;
    let mut token_nan = false;
    if m == 3 {
        let c0 = ts.get_char(start);
        let c1 = ts.get_char(start + 1);
        let c2 = ts.get_char(start + 2);
        if ci_check(c0, 'i') && ci_check(c1, 'n') && ci_check(c2, 'f') {
            token_inf = true;
        } else if ci_check(c0, 'n') && ci_check(c1, 'a') && ci_check(c2, 'n') {
            token_nan = true;
        }
    } else if m == 8 {
        let ok = ci_check(ts.get_char(start), 'i') && ci_check(ts.get_char(start + 1), 'n')
            && ci_check(ts.get_char(start + 2), 'f') && ci_check(ts.get_char(start + 3), 'i')
            && ci_check(ts.get_char(start + 4), 'n') && ci_check(ts.get_char(start + 5), 'i')
            && ci_check(ts.get_char(start + 6), 't') && ci_check(ts.get_char(start + 7), 'y');
        if ok {
            token_inf = true;
        }
    }
    proof {
        assert(body.len() == m);
        assert(forall|k: int| 0 <= k < m ==> body[k] == tv[start + k]);
        assert(token_inf == spec_is_inf(tv));
        assert(token_nan == spec_is_nan(tv));
    }
    if token_inf {
        return Some(NumParsed::Inf { neg });
    }
    if token_nan {
        return Some(NumParsed::Nan);
    }
    // the finite grammar: digits, optional point, optional exponent
    let mut ip: Vec<char> = Vec::new();
    let mut j: usize = start;
    let mut dot: usize = n;
    let mut saw_dot = false;
    let mut mark: usize = n;
    let mut saw_mark = false;
    while j < n && !saw_dot && !saw_mark
        invariant
            start <= j <= n,
            n == tv.len(),
            tv == t@,
            ts@ == tv,
            tv == spec_trim(s@),
            body == num_body(tv),
            body == tv.subrange(start as int, n as int),
            start as int == sign_len(tv),
            !spec_is_inf(tv) && !spec_is_nan(tv),
            !saw_dot && !saw_mark ==> ip@ == body.subrange(0, j - start) && (forall|k: int|
                0 <= k < j - start ==> body[k] != '.' && !is_exp_mark(body[k])),
            saw_dot ==> !saw_mark && j == dot + 1 && start <= dot < n && body[dot - start] == '.'
                && ip@ == body.subrange(0, dot - start) && (forall|k: int|
                0 <= k < dot - start ==> body[k] != '.' && !is_exp_mark(body[k])),
            saw_mark ==> !saw_dot && j == mark + 1 && start <= mark < n && is_exp_mark(
                body[mark - start],
            ) && ip@ == body.subrange(0, mark - start) && (forall|k: int|
                0 <= k < mark - start ==> body[k] != '.' && !is_exp_mark(body[k])),
            all_digits(ip@),
        decreases n - j,
    {
        let c = ts.get_char(j);
        if digit_check(c) {
            ip.push(c);
            assert(body.subrange(0, j + 1 - start) =~= body.subrange(0, j - start).push(
                body[j - start],
            ));
            j = j + 1;
        } else if c == '.' {
            saw_dot = true;
            dot = j;
            j = j + 1;
        } else if mark_check(c) {
            saw_mark = true;
            mark = j;
            j = j + 1;
        } else {
            proof {
                let pos = j - start;
                lemma_find_mark(body);
                let fm = find_mark(body);
                if fm <= pos {
                    assert(is_exp_mark(body[fm]));
                    assert(false);
                }
                let mn = mant_of(tv);
                assert(mn == body.subrange(0, fm));
                lemma_find_char(mn, '.');
                let fd = find_char(mn, '.');
                if fd <= pos {
                    assert(mn[fd] == '.');
                    assert(mn[fd] == body[fd]);
                    assert(false);
                }
                assert(int_digits(tv) == mn.subrange(0, fd));
                assert(int_digits(tv)[pos] == body[pos]);
                assert(!is_digit(int_digits(tv)[pos]));
            }
            return None;
        }
    }
    // the fraction digits, when a point was seen
    let mut fp: Vec<char> = Vec::new();
    if saw_dot {
        let mut q: usize = dot + 1;
        while q < n && !saw_mark
            invariant
                dot + 1 <= q <= n,
                n == tv.len(),
                tv == t@,
                ts@ == tv,
                tv == spec_trim(s@),
                body == num_body(tv),
                body == tv.subrange(start as int, n as int),
                start <= dot < n,
                body[dot - start] == '.',
                forall|k: int| 0 <= k < dot - start ==> body[k] != '.' && !is_exp_mark(body[k]),
                ip@ == body.subrange(0, dot - start),
                all_digits(ip@),
                all_digits(fp@),
                !spec_is_inf(tv) && !spec_is_nan(tv),
                !saw_mark ==> fp@ == body.subrange(dot - start + 1, q - start) && (forall|k: int|
                    dot - start < k < q - start ==> !is_exp_mark(body[k])),
                saw_mark ==> q == mark + 1 && dot < mark < n && is_exp_mark(body[mark - start])
                    && fp@ == body.subrange(dot - start + 1, mark - start) && (forall|k: int|
                    dot - start < k < mark - start ==> !is_exp_mark(body[k])),
            decreases n - q,
        {
            let c = ts.get_char(q);
            if digit_check(c) {
                fp.push(c);
                assert(body.subrange(dot - start + 1, q + 1 - start) =~= body.subrange(
                    dot - start + 1,
                    q - start,
                ).push(body[q - start]));
                q = q + 1;
            } else if mark_check(c) {
                saw_mark = true;
                mark = q;
                q = q + 1;
            } else {
                proof {
                    let pos = q - start;
                    lemma_find_mark(body);
                    let fm = find_mark(body);
                    if fm <= pos {
                        assert(is_exp_mark(body[fm]));
                        assert(false);
                    }
                    let mn = mant_of(tv);
                    assert(mn == body.subrange(0, fm));
                    lemma_find_char_is(mn, '.', dot - start);
                    assert(frac_digits(tv) == mn.subrange(dot - start + 1, mn.len() as int));
                    assert(frac_digits(tv)[pos - (dot - start) - 1] == body[pos]);
                    assert(!is_digit(frac_digits(tv)[pos - (dot - start) - 1]));
                }
                return None;
            }
        }
    }
    proof {
        if saw_mark {
            lemma_find_mark_is(body, mark - start);
        } else {
            lemma_find_mark_is(body, body.len() as int);
        }
        let mn = mant_of(tv);
        if saw_dot {
            lemma_find_char_is(mn, '.', dot - start);
            assert(int_digits(tv) =~= ip@);
            assert(frac_digits(tv) =~= fp@);
        } else {
            lemma_find_char_is(mn, '.', mn.len() as int);
            assert(int_digits(tv) =~= ip@);
            assert(frac_digits(tv) =~= Seq::<char>::empty());
            assert(fp@ =~= frac_digits(tv));
        }
    }
    if ip.len() == 0 && fp.len() == 0 {
        proof {
            assert(!finite_form(tv));
        }
        return None;
    }
    // the exponent, when a marker was seen
    let mut eneg = false;
    let mut ex: Vec<char> = Vec::new();
    if saw_mark {
        let ghost ep = exp_part(tv);
        proof {
            assert(ep =~= body.subrange(mark - start + 1, body.len() as int));
        }
        let mut w: usize = mark + 1;
        if w < n {
            let c0 = ts.get_char(w);
            if c0 == '-' {
                eneg = true;
                w = w + 1;
            } else if c0 == '+' {
                w = w + 1;
            }
        }
        proof {
            assert((w - mark - 1) as int == exp_sign_len(tv));
            assert(eneg == spec_exp_neg(tv));
        }
        while w < n
            invariant
                mark + 1 <= w <= n,
                n == tv.len(),
                tv == t@,
                ts@ == tv,
                tv == spec_trim(s@),
                body == num_body(tv),
                body == tv.subrange(start as int, n as int),
                start <= mark < n,
                find_mark(body) == mark - start,
                exp_digits(tv) == body.subrange(
                    mark - start + 1 + exp_sign_len(tv),
                    body.len() as int,
                ),
                mark + 1 + exp_sign_len(tv) <= w,
                ex@ == body.subrange(mark - start + 1 + exp_sign_len(tv), w - start),
                all_digits(ex@),
                !spec_is_inf(tv) && !spec_is_nan(tv),
                all_digits(ip@) && all_digits(fp@),
                ip@ == int_digits(tv),
                fp@ == frac_digits(tv),
            decreases n - w,
        {
            let c = ts.get_char(w);
            if digit_check(c) {
                ex.push(c);
                assert(body.subrange(mark - start + 1 + exp_sign_len(tv), w + 1 - start)
                    =~= body.subrange(mark - start + 1 + exp_sign_len(tv), w - start).push(
                    body[w - start],
                ));
                w = w + 1;
            } else {
                proof {
                    assert(exp_digits(tv)[w - start - (mark - start + 1 + exp_sign_len(tv))]
                        == body[w - start]);
                    assert(!all_digits(exp_digits(tv)));
                }
                return None;
            }
        }
        proof {
            assert(ex@ =~= exp_digits(tv));
        }
        if ex.len() == 0 {
            proof {
                assert(!finite_form(tv));
            }
            return None;
        }
    } else {
        proof {
            assert(exp_part(tv) =~= Seq::<char>::empty());
            assert(ex@ =~= exp_digits(tv));
        }
    }
    proof {
        assert(all_digits(int_digits(tv)));
        assert(all_digits(frac_digits(tv)));
        assert(int_digits(tv).len() + frac_digits(tv).len() >= 1);
        assert(all_digits(exp_digits(tv)));
        assert(find_mark(num_body(tv)) < num_body(tv).len() ==> exp_digits(tv).len() >= 1);
        assert(finite_form(tv));
    }
    Some(NumParsed::Finite { neg, ip, fp, eneg, ex })
}

/// Whether the item is numeric at runtime.
pub fn is_numeric(s: &String) -> (r: bool)
    ensures
        r == is_numeric_str(s@),
{
    parse_num(s).is_some()
}

/// Outcome of a three-way comparison.
pub enum Rel {
    Lt,
    Eq,
    Gt,
}

/// A sequence of `n` zero digits.
pub open spec fn zeros(n: nat) -> Seq<char> {
    Seq::new(n, |i: int| '0')
}

/// A finite token reduced for comparison: sign, all mantissa digits,
/// the fraction length, and the exponent's sign and digits.
struct FinRep {
    neg: bool,
    comb: Vec<char>,
    flen: usize,
    eneg: bool,
    ex: Vec<char>,
}

/// The numerator the representation denotes.
spec fn rep_n(r: FinRep) -> int {
    if r.neg {
        -digits_val(r.comb@)
    } else {
        digits_val(r.comb@)
    }
}

/// The power of ten the representation denotes.
spec fn rep_p(r: FinRep) -> int {
    (if r.eneg {
        -cap_at(digits_val(r.ex@))
    } else {
        cap_at(digits_val(r.ex@))
    }) - r.flen
}

/// The exponent's clamped value.
fn exp_accum(ex: &Vec<char>) -> (e: i128)
    requires
        all_digits(ex@),
    ensures
        e as int == cap_at(digits_val(ex@)),
        0 <= e as int <= exp_cap(),
{
    let cap: i128 = 1000000000000000000000000000000;
    let mut e: i128 = 0;
    let mut i: usize = 0;
    proof {
        assert(ex@.subrange(0, 0) =~= Seq::<char>::empty());
        lemma_digits_val_bounds(ex@.subrange(0, 0));
    }
    while i < ex.len()
        invariant
            0 <= i <= ex@.len(),
            all_digits(ex@),
            cap as int == exp_cap(),
            e as int == cap_at(digits_val(ex@.subrange(0, i as int))),
            0 <= e <= cap,
        decreases ex@.len() - i,
    {
        let ghost pfx = ex@.subrange(0, i as int);
        let c = ex[i];
        let d = (c as u32) - 48;
        proof {
            assert(ex@.subrange(0, i + 1) =~= pfx.push(ex@[i as int]));
            assert(ex@.subrange(0, i + 1).drop_last() =~= pfx);
            assert(is_digit(ex@[i as int]));
            lemma_digits_val_bounds(pfx);
        }
        if e >= cap {
            proof {
                assert(digits_val(pfx) >= exp_cap());
                assert(digits_val(ex@.subrange(0, i + 1)) == digits_val(pfx) * 10 + digit_val(
                    ex@[i as int],
                ));
                assert(digits_val(pfx) * 10 >= exp_cap() * 10) by {
                    lemma_mul_inequality(exp_cap(), digits_val(pfx), 10);
                }
            }
        } else {
            let t = e * 10 + (d as i128);
            if t > cap {
                e = cap;
            } else {
                e = t;
            }
        }
        i = i + 1;
    }
    proof {
        assert(ex@.subrange(0, ex@.len() as int) =~= ex@);
    }
    e
}

/// The index of the first significant (non-zero) digit, or the length
/// when every digit is zero.
fn first_significant(v: &Vec<char>) -> (z: usize)
    requires
        all_digits(v@),
    ensures
        0 <= z <= v@.len(),
        forall|k: int| 0 <= k < z ==> v@[k] == '0',
        z < v@.len() ==> v@[z as int] != '0',
        (z == v@.len()) == (digits_val(v@) == 0),
{
    let mut z: usize = 0;
    while z < v.len() && v[z] == '0'
        invariant
            0 <= z <= v@.len(),
            forall|k: int| 0 <= k < z ==> v@[k] == '0',
        decreases v@.len() - z,
    {
        z = z + 1;
    }
    proof {
        lemma_digits_val_zero(v@);
        if z == v@.len() {
            assert(forall|k: int| 0 <= k < v@.len() ==> v@[k] == '0');
        } else {
            if digits_val(v@) == 0 {
                assert(v@[z as int] == '0');
            }
        }
    }
    z
}

/// Stripping leading zeros keeps the value.
proof fn lemma_strip_val(v: Seq<char>, z: int)
    requires
        all_digits(v),
        0 <= z <= v.len(),
        forall|k: int| 0 <= k < z ==> v[k] == '0',
    ensures
        digits_val(v.subrange(z, v.len() as int)) == digits_val(v),
{
    let pre = v.subrange(0, z);
    let suf = v.subrange(z, v.len() as int);
    assert(v =~= pre + suf);
    lemma_zeros_val(pre);
    lemma_digits_val_concat(pre, suf);
    assert(digits_val(pre) * pow10(suf.len() as nat) == 0) by {
        vstd::arithmetic::mul::lemma_mul_by_zero_is_zero(pow10(suf.len() as nat));
    }
}

/// One digit of the significant sequence padded with trailing zeros.
fn sig_digit(v: &Vec<char>, z: usize, q: usize) -> (c: char)
    requires
        z <= v@.len(),
    ensures
        c == (if z + q < v@.len() {
            v@[z + q]
        } else {
            '0'
        }),
{
    if q < v.len() - z {
        v[z + q]
    } else {
        '0'
    }
}

/// Compare two finite representations as the rationals they denote.
#[verifier::rlimit(100)]
fn fin_cmp(a: &FinRep, b: &FinRep) -> (r: Rel)
    requires
        all_digits(a.comb@),
        all_digits(a.ex@),
        all_digits(b.comb@),
        all_digits(b.ex@),
    ensures
        (r == Rel::Gt <==> !fin_le(rep_n(*a), rep_p(*a), rep_n(*b), rep_p(*b))),
        (r == Rel::Lt <==> !fin_le(rep_n(*b), rep_p(*b), rep_n(*a), rep_p(*a))),
        (r == Rel::Eq <==> fin_le(rep_n(*a), rep_p(*a), rep_n(*b), rep_p(*b)) && fin_le(
            rep_n(*b),
            rep_p(*b),
            rep_n(*a),
            rep_p(*a),
        )),
{
    let ghost na = rep_n(*a);
    let ghost pa = rep_p(*a);
    let ghost nb = rep_n(*b);
    let ghost pb = rep_p(*b);
    let za = first_significant(&a.comb);
    let zb = first_significant(&b.comb);
    let a_zero = za == a.comb.len();
    let b_zero = zb == b.comb.len();
    proof {
        lemma_digits_val_bounds(a.comb@);
        lemma_digits_val_bounds(b.comb@);
    }
    if a_zero && b_zero {
        proof {
            lemma_zero_fin_le(pa, pb);
            lemma_zero_fin_le(pb, pa);
        }
        return Rel::Eq;
    }
    if a_zero {
        proof {
            lemma_sign_fin_cmp(nb, pb, pa);
        }
        if b.neg {
            return Rel::Gt;
        } else {
            return Rel::Lt;
        }
    }
    if b_zero {
        proof {
            lemma_sign_fin_cmp(na, pa, pb);
        }
        if a.neg {
            return Rel::Lt;
        } else {
            return Rel::Gt;
        }
    }
    // both non-zero; opposite signs decide at once
    if a.neg && !b.neg {
        proof {
            lemma_opposite_signs(na, pa, nb, pb);
        }
        return Rel::Lt;
    }
    if !a.neg && b.neg {
        proof {
            lemma_opposite_signs(nb, pb, na, pa);
        }
        return Rel::Gt;
    }
    // same sign: compare magnitudes by order of magnitude, then digits
    let ea = exp_accum(&a.ex);
    let eb = exp_accum(&b.ex);
    let da = a.comb.len() - za;
    let db = b.comb.len() - zb;
    let sea: i128 = if a.eneg {
        -ea
    } else {
        ea
    };
    let seb: i128 = if b.eneg {
        -eb
    } else {
        eb
    };
    let aa: i128 = sea + (da as i128) - (a.flen as i128);
    let ab: i128 = seb + (db as i128) - (b.flen as i128);
    let ghost sa = a.comb@.subrange(za as int, a.comb@.len() as int);
    let ghost sb = b.comb@.subrange(zb as int, b.comb@.len() as int);
    proof {
        lemma_strip_val(a.comb@, za as int);
        lemma_strip_val(b.comb@, zb as int);
        assert(aa as int == pa + da);
        assert(ab as int == pb + db);
    }
    let mag = if aa < ab {
        proof {
            lemma_mag_position(sa, pa, sb, pb);
        }
        Rel::Lt
    } else if ab < aa {
        proof {
            lemma_mag_position(sb, pb, sa, pa);
        }
        Rel::Gt
    } else {
        // equal order of magnitude: compare significant digits, the
        // shorter padded with trailing zeros
        let dmax = if da > db {
            da
        } else {
            db
        };
        let ghost ppa = sa + zeros((dmax - da) as nat);
        let ghost ppb = sb + zeros((dmax - db) as nat);
        proof {
            lemma_zeros_val(zeros((dmax - da) as nat));
            lemma_zeros_val(zeros((dmax - db) as nat));
            lemma_digits_val_concat(sa, zeros((dmax - da) as nat));
            lemma_digits_val_concat(sb, zeros((dmax - db) as nat));
        }
        let mut q: usize = 0;
        let mut out = Rel::Eq;
        let mut decided = false;
        while q < dmax && !decided
            invariant
                0 <= q <= dmax,
                za <= a.comb@.len(),
                zb <= b.comb@.len(),
                da == a.comb@.len() - za,
                db == b.comb@.len() - zb,
                dmax == if da > db {
                    da
                } else {
                    db
                },
                all_digits(a.comb@),
                all_digits(b.comb@),
                sa == a.comb@.subrange(za as int, a.comb@.len() as int),
                sb == b.comb@.subrange(zb as int, b.comb@.len() as int),
                ppa == sa + zeros((dmax - da) as nat),
                ppb == sb + zeros((dmax - db) as nat),
                !decided ==> out == Rel::Eq && (forall|k: int| 0 <= k < q ==> ppa[k] == ppb[k]),
                decided ==> (out == Rel::Lt && digits_val(ppa) < digits_val(ppb)) || (out
                    == Rel::Gt && digits_val(ppb) < digits_val(ppa)),
            decreases dmax - q + (if decided {
                0int
            } else {
                1int
            }),
        {
            let ca = sig_digit(&a.comb, za, q);
            let cb = sig_digit(&b.comb, zb, q);
            proof {
                assert(ppa.len() == dmax && ppb.len() == dmax);
                assert(ppa[q as int] == ca);
                assert(ppb[q as int] == cb);
                assert(all_digits(ppa));
                assert(all_digits(ppb));
            }
            let ua = ca as u32;
            let ub = cb as u32;
            if ua < ub {
                proof {
                    lemma_lex_value(ppa, ppb, q as int);
                }
                out = Rel::Lt;
                decided = true;
            } else if ub < ua {
                proof {
                    lemma_lex_value(ppb, ppa, q as int);
                }
                out = Rel::Gt;
                decided = true;
            } else {
                proof {
                    lemma_char_eq(ca, cb);
                }
                q = q + 1;
            }
        }
        proof {
            if !decided {
                assert(ppa =~= ppb);
                assert(digits_val(ppa) == digits_val(ppb));
            }
            lemma_mag_digits(sa, pa, sb, pb, dmax as int, digits_val(ppa), digits_val(ppb));
        }
        out
    };
    // apply the shared sign
    proof {
        lemma_signed_from_mag(sa, pa, sb, pb, a.neg);
    }
    if a.neg {
        match mag {
            Rel::Lt => Rel::Gt,
            Rel::Eq => Rel::Eq,
            Rel::Gt => Rel::Lt,
        }
    } else {
        mag
    }
}

/// Zero compares below or equal to zero at any powers.
proof fn lemma_zero_fin_le(p1: int, p2: int)
    ensures
        fin_le(0, p1, 0, p2),
{
    broadcast use vstd::arithmetic::mul::lemma_mul_by_zero_is_zero;

    if p1 >= p2 {
        assert(0 * pow10((p1 - p2) as nat) == 0);
    } else {
        assert(0 * pow10((p2 - p1) as nat) == 0);
    }
}

/// A non-zero value compares to zero by its sign.
proof fn lemma_sign_fin_cmp(n: int, p: int, pz: int)
    requires
        n != 0,
    ensures
        n > 0 ==> !fin_le(n, p, 0, pz) && fin_le(0, pz, n, p),
        n < 0 ==> fin_le(n, p, 0, pz) && !fin_le(0, pz, n, p),
{
    broadcast use vstd::arithmetic::mul::lemma_mul_by_zero_is_zero;

    let k = if -p > -pz {
        -p
    } else {
        -pz
    };
    lemma_fin_le_shift(n, p, 0, pz, k);
    lemma_fin_le_shift(0, pz, n, p, k);
    lemma_pow10_pos((p + k) as nat);
    if n > 0 {
        lemma_mul_strictly_positive(n, pow10((p + k) as nat));
    } else {
        lemma_mul_strictly_positive(-n, pow10((p + k) as nat));
        lemma_mul_unary_negation(n, pow10((p + k) as nat));
    }
}

/// A negative value sits strictly below a positive one.
proof fn lemma_opposite_signs(nneg: int, pneg: int, npos: int, ppos: int)
    requires
        nneg < 0,
        npos > 0,
    ensures
        fin_le(nneg, pneg, npos, ppos),
        !fin_le(npos, ppos, nneg, pneg),
{
    let k = if -pneg > -ppos {
        -pneg
    } else {
        -ppos
    };
    lemma_fin_le_shift(nneg, pneg, npos, ppos, k);
    lemma_fin_le_shift(npos, ppos, nneg, pneg, k);
    lemma_pow10_pos((pneg + k) as nat);
    lemma_pow10_pos((ppos + k) as nat);
    lemma_mul_strictly_positive(npos, pow10((ppos + k) as nat));
    lemma_mul_strictly_positive(-nneg, pow10((pneg + k) as nat));
    lemma_mul_unary_negation(nneg, pow10((pneg + k) as nat));
}

/// A strictly lower order of magnitude means a strictly smaller
/// positive value: the significant digits `s1` at power `p1` stay below
/// the significant digits `s2` at power `p2`.
proof fn lemma_mag_position(s1: Seq<char>, p1: int, s2: Seq<char>, p2: int)
    requires
        all_digits(s1),
        all_digits(s2),
        s1.len() >= 1,
        s2.len() >= 1,
        s1[0] != '0',
        s2[0] != '0',
        p1 + s1.len() < p2 + s2.len(),
    ensures
        fin_le(digits_val(s1), p1, digits_val(s2), p2),
        !fin_le(digits_val(s2), p2, digits_val(s1), p1),
{
    let d1 = s1.len() as int;
    let d2 = s2.len() as int;
    let k = if -p1 > -p2 {
        -p1
    } else {
        -p2
    };
    let u1 = digits_val(s1) * pow10((p1 + k) as nat);
    let u2 = digits_val(s2) * pow10((p2 + k) as nat);
    lemma_digits_val_bounds(s1);
    lemma_digits_val_lower(s2);
    lemma_pow10_pos((p1 + k) as nat);
    lemma_pow10_pos((p2 + k) as nat);
    // u1 < 10^(d1 + p1 + k) <= 10^(d2 - 1 + p2 + k) <= u2
    assert(u1 < pow10((d1 + p1 + k) as nat)) by {
        lemma_mul_strict_inequality(digits_val(s1), pow10(d1 as nat), pow10((p1 + k) as nat));
        lemma_pow_adds(10, d1 as nat, (p1 + k) as nat);
    }
    assert(pow10((d1 + p1 + k) as nat) <= pow10((d2 - 1 + p2 + k) as nat)) by {
        lemma_pow_increases(10, (d1 + p1 + k) as nat, (d2 - 1 + p2 + k) as nat);
    }
    assert(pow10((d2 - 1 + p2 + k) as nat) <= u2) by {
        lemma_mul_inequality(pow10((d2 - 1) as nat), digits_val(s2), pow10((p2 + k) as nat));
        lemma_pow_adds(10, (d2 - 1) as nat, (p2 + k) as nat);
    }
    lemma_fin_le_shift(digits_val(s1), p1, digits_val(s2), p2, k);
    lemma_fin_le_shift(digits_val(s2), p2, digits_val(s1), p1, k);
}

/// At an equal order of magnitude, the padded significant digits
/// decide the comparison of the positive values.
proof fn lemma_mag_digits(s1: Seq<char>, p1: int, s2: Seq<char>, p2: int, dmax: int, v1: int, v2: int)
    requires
        all_digits(s1),
        all_digits(s2),
        p1 + s1.len() == p2 + s2.len(),
        s1.len() <= dmax,
        s2.len() <= dmax,
        dmax == if s1.len() > s2.len() {
            s1.len() as int
        } else {
            s2.len() as int
        },
        v1 == digits_val(s1) * pow10((dmax - s1.len()) as nat),
        v2 == digits_val(s2) * pow10((dmax - s2.len()) as nat),
    ensures
        fin_le(digits_val(s1), p1, digits_val(s2), p2) == (v1 <= v2),
        fin_le(digits_val(s2), p2, digits_val(s1), p1) == (v2 <= v1),
{
    let aa = p1 + s1.len();
    let k = dmax - aa;
    assert(p1 + k == dmax - s1.len());
    assert(p2 + k == dmax - s2.len());
    lemma_fin_le_shift(digits_val(s1), p1, digits_val(s2), p2, k);
    lemma_fin_le_shift(digits_val(s2), p2, digits_val(s1), p1, k);
}

/// The comparison of negative values is the flipped comparison of
/// their magnitudes.
proof fn lemma_signed_from_mag(s1: Seq<char>, p1: int, s2: Seq<char>, p2: int, neg: bool)
    requires
        all_digits(s1),
        all_digits(s2),
    ensures
        neg ==> fin_le(-digits_val(s1), p1, -digits_val(s2), p2) == fin_le(
            digits_val(s2),
            p2,
            digits_val(s1),
            p1,
        ),
        neg ==> fin_le(-digits_val(s2), p2, -digits_val(s1), p1) == fin_le(
            digits_val(s1),
            p1,
            digits_val(s2),
            p2,
        ),
{
    if neg {
        let k = if -p1 > -p2 {
            -p1
        } else {
            -p2
        };
        lemma_fin_le_shift(-digits_val(s1), p1, -digits_val(s2), p2, k);
        lemma_fin_le_shift(-digits_val(s2), p2, -digits_val(s1), p1, k);
        lemma_fin_le_shift(digits_val(s1), p1, digits_val(s2), p2, k);
        lemma_fin_le_shift(digits_val(s2), p2, digits_val(s1), p1, k);
        lemma_mul_unary_negation(digits_val(s1), pow10((p1 + k) as nat));
        lemma_mul_unary_negation(digits_val(s2), pow10((p2 + k) as nat));
    }
}

/// All mantissa digits of a finite token, point removed.
fn combine_digits(ip: &Vec<char>, fp: &Vec<char>) -> (r: Vec<char>)
    ensures
        r@ == ip@ + fp@,
{
    let mut r: Vec<char> = Vec::new();
    let mut i: usize = 0;
    while i < ip.len()
        invariant
            0 <= i <= ip@.len(),
            r@ == ip@.subrange(0, i as int),
        decreases ip@.len() - i,
    {
        r.push(ip[i]);
        proof {
            assert(ip@.subrange(0, i + 1) =~= ip@.subrange(0, i as int).push(ip@[i as int]));
        }
        i = i + 1;
    }
    proof {
        assert(ip@.subrange(0, ip@.len() as int) =~= ip@);
    }
    let mut j: usize = 0;
    while j < fp.len()
        invariant
            0 <= j <= fp@.len(),
            r@ == ip@ + fp@.subrange(0, j as int),
        decreases fp@.len() - j,
    {
        r.push(fp[j]);
        proof {
            assert(ip@ + fp@.subrange(0, j + 1) =~= (ip@ + fp@.subrange(0, j as int)).push(
                fp@[j as int],
            ));
        }
        j = j + 1;
    }
    proof {
        assert(ip@ + fp@.subrange(0, fp@.len() as int) =~= ip@ + fp@);
    }
    r
}

/// The zero representation, the fallback key of a not-a-number token.
fn zero_rep() -> (r: FinRep)
    ensures
        rep_n(r) == 0,
        rep_p(r) == 0,
        r.comb@.len() == 0,
        r.ex@.len() == 0,
{
    let r = FinRep { neg: false, comb: Vec::new(), flen: 0, eneg: false, ex: Vec::new() };
    proof {
        assert(digits_val(r.comb@) == 0);
        assert(digits_val(r.ex@) == 0);
    }
    r
}

/// Parse an item and reduce it for comparison: `None` is minus
/// infinity, `Some(None)` plus infinity, and `Some(Some(rep))` a
/// finite value (a not-a-number token reducing to the zero fallback).
fn classify(x: &String) -> (c: Option<Option<FinRep>>)
    requires
        is_numeric_str(x@),
    ensures
        match c {
            Option::None => spec_num_val(x@) is NegInf,
            Option::Some(Option::None) => spec_num_val(x@) is PosInf,
            Option::Some(Option::Some(rep)) => spec_num_val(x@) == NumVal::Finite(
                rep_n(rep),
                rep_p(rep),
            ) && all_digits(rep.comb@) && all_digits(rep.ex@),
        },
{
    let ghost t = spec_trim(x@);
    let p = parse_num(x).unwrap();
    match p {
        NumParsed::Inf { neg } => {
            proof {
                assert(spec_is_inf(t));
            }
            if neg {
                None
            } else {
                Some(None)
            }
        },
        NumParsed::Nan => {
            let z = zero_rep();
            proof {
                assert(spec_is_nan(t));
                assert(!spec_is_inf(t));
                assert(spec_num_val(x@) == NumVal::Finite(0, 0));
            }
            Some(Some(z))
        },
        NumParsed::Finite { neg, ip, fp, eneg, ex } => {
            proof {
                assert(!spec_is_inf(t) && !spec_is_nan(t));
                assert(finite_form(t));
            }
            let flen = fp.len();
            let comb = combine_digits(&ip, &fp);
            let rep = FinRep { neg, comb, flen, eneg, ex };
            proof {
                assert(rep.comb@ == int_digits(t) + frac_digits(t));
                assert forall|i: int| 0 <= i < rep.comb@.len() implies is_digit(
                    #[trigger] rep.comb@[i],
                ) by {
                    if i < int_digits(t).len() {
                        assert(rep.comb@[i] == int_digits(t)[i]);
                    } else {
                        assert(rep.comb@[i] == frac_digits(t)[i - int_digits(t).len()]);
                    }
                }
                assert(spec_num_val(x@) == NumVal::Finite(rep_n(rep), rep_p(rep)));
            }
            Some(Some(rep))
        },
    }
}

/// Three-way numeric comparison of two numeric items, as the values
/// `spec_num_val` assigns them.
pub fn num_cmp(a: &String, b: &String) -> (r: Rel)
    requires
        is_numeric_str(a@),
        is_numeric_str(b@),
    ensures
        (r == Rel::Gt <==> !num_le(a@, b@)),
        (r == Rel::Lt <==> !num_le(b@, a@)),
        (r == Rel::Eq <==> num_le(a@, b@) && num_le(b@, a@)),
{
    let ca = classify(a);
    let cb = classify(b);
    match (ca, cb) {
        (None, None) => Rel::Eq,
        (None, Some(_)) => Rel::Lt,
        (Some(_), None) => Rel::Gt,
        (Some(None), Some(None)) => Rel::Eq,
        (Some(None), Some(Some(_))) => Rel::Gt,
        (Some(Some(_)), Some(None)) => Rel::Lt,
        (Some(Some(ra)), Some(Some(rb))) => fin_cmp(&ra, &rb),
    }
}

} // verus!
