//! Scalar parsing and rendering: the precedence chain that classifies a
//! trimmed token as boolean, null, quoted string, integer, float, or bare
//! string, and the inverse rendering with its quoting rule.

use vstd::prelude::*;
use vstd::arithmetic::div_mod::lemma_fundamental_div_mod;
use crate::text::{str_to_chars, chars_to_string};
use crate::value::{Value, Vs};

verus! {

// ---------------------------------------------------------------------------
// Keywords and case-insensitive matching
// ---------------------------------------------------------------------------

pub open spec fn kw_true() -> Seq<char> {
    seq!['t', 'r', 'u', 'e']
}

pub open spec fn kw_false() -> Seq<char> {
    seq!['f', 'a', 'l', 's', 'e']
}

pub open spec fn kw_null() -> Seq<char> {
    seq!['n', 'u', 'l', 'l']
}

/// `c` equals the lowercase ASCII letter `l`, ignoring ASCII case: either it
/// has the same code point or it is the uppercase counterpart of a letter.
pub open spec fn matches_icase(c: char, l: char) -> bool {
    c as u32 == l as u32 || (97 <= l as u32 <= 122 && c as u32 + 32 == l as u32)
}

/// `s` equals the lowercase ASCII keyword `kw`, ignoring ASCII case.
pub open spec fn eq_icase(s: Seq<char>, kw: Seq<char>) -> bool {
    s.len() == kw.len() && forall|i: int| 0 <= i < s.len() ==> matches_icase(s[i], kw[i])
}

/// Executable test for [`eq_icase`] against a lowercase ASCII keyword.
pub fn eq_icase_chars(t: &Vec<char>, kw: &Vec<char>) -> (b: bool)
    ensures
        b == eq_icase(t@, kw@),
{
    if t.len() != kw.len() {
        return false;
    }
    let n = t.len();
    let mut i: usize = 0;
    while i < n
        invariant
            n == t@.len() == kw@.len(),
            i <= n,
            forall|k: int| 0 <= k < i ==> matches_icase(t@[k], kw@[k]),
        decreases n - i,
    {
        let c = t[i] as u32;
        let l = kw[i] as u32;
        if !(c == l || (97 <= l && l <= 122 && c == l - 32)) {
            proof {
                assert(!matches_icase(t@[i as int], kw@[i as int]));
            }
            return false;
        }
        proof {
            assert(matches_icase(t@[i as int], kw@[i as int]));
        }
        i = i + 1;
    }
    true
}

// ---------------------------------------------------------------------------
// Integer text
// ---------------------------------------------------------------------------

pub open spec fn is_digit(c: char) -> bool {
    48 <= c as u32 <= 57
}

pub open spec fn digit_val(c: char) -> int {
    c as u32 - 48
}

pub open spec fn all_digits(s: Seq<char>) -> bool {
    forall|i: int| 0 <= i < s.len() ==> is_digit(s[i])
}

/// The numeric value of a digit string, most significant digit first.
pub open spec fn digits_val(s: Seq<char>) -> int
    decreases s.len(),
{
    if s.len() == 0 {
        0
    } else {
        digits_val(s.drop_last()) * 10 + digit_val(s.last())
    }
}

/// The token with one leading sign character removed, if present.
pub open spec fn sign_body(s: Seq<char>) -> Seq<char> {
    if s.len() > 0 && (s[0] == '+' || s[0] == '-') {
        s.drop_first()
    } else {
        s
    }
}

pub open spec fn is_negative(s: Seq<char>) -> bool {
    s.len() > 0 && s[0] == '-'
}

/// The signed value a well-formed integer token denotes.
pub open spec fn int_text_val(s: Seq<char>) -> int {
    if is_negative(s) {
        -digits_val(sign_body(s))
    } else {
        digits_val(sign_body(s))
    }
}

/// The token parses as a signed 64-bit integer: an optional sign, one or
/// more ASCII digits, and a value within the `i64` range.
pub open spec fn is_int_text(s: Seq<char>) -> bool {
    &&& sign_body(s).len() > 0
    &&& all_digits(sign_body(s))
    &&& -0x8000_0000_0000_0000 <= int_text_val(s) <= 0x7fff_ffff_ffff_ffff
}

/// What parsing the token as an `i64` yields.
pub open spec fn parse_i64_spec(s: Seq<char>) -> Option<i64> {
    if is_int_text(s) {
        Some(int_text_val(s) as i64)
    } else {
        None
    }
}

pub open spec fn pow10(n: nat) -> int
    decreases n,
{
    if n == 0 {
        1
    } else {
        10 * pow10((n - 1) as nat)
    }
}

pub proof fn lemma_digits_val_nonneg(s: Seq<char>)
    requires
        all_digits(s),
    ensures
        digits_val(s) >= 0,
    decreases s.len(),
{
    if s.len() > 0 {
        lemma_digits_val_nonneg(s.drop_last());
    }
}

pub proof fn lemma_digits_val_lower(s: Seq<char>)
    requires
        all_digits(s),
        s.len() > 0,
        digit_val(s[0]) != 0,
    ensures
        digits_val(s) >= pow10((s.len() - 1) as nat),
    decreases s.len(),
{
    assert(is_digit(s[0]));
    if s.len() == 1 {
        assert(digits_val(s.drop_last()) == 0);
        assert(digit_val(s[0]) >= 1);
    } else {
        let t = s.drop_last();
        assert(t[0] == s[0]);
        assert(forall|i: int| 0 <= i < t.len() ==> is_digit(#[trigger] t[i]));
        lemma_digits_val_lower(t);
        lemma_digits_val_nonneg(t);
        assert(is_digit(s.last()));
        assert(pow10((s.len() - 1) as nat) == 10 * pow10((s.len() - 2) as nat));
    }
}

pub proof fn lemma_pow10_mono(a: nat, b: nat)
    requires
        a <= b,
    ensures
        pow10(a) <= pow10(b),
    decreases b,
{
    if a < b {
        lemma_pow10_mono(a, (b - 1) as nat);
        lemma_pow10_pos((b - 1) as nat);
    }
}

/// The two powers of ten that bracket the `i64` range.
pub proof fn lemma_pow10_vals()
    ensures
        pow10(18) == 1_000_000_000_000_000_000,
        pow10(19) == 10_000_000_000_000_000_000,
{
    reveal_with_fuel(pow10, 20);
}

pub proof fn lemma_pow10_pos(n: nat)
    ensures
        pow10(n) >= 1,
    decreases n,
{
    if n > 0 {
        lemma_pow10_pos((n - 1) as nat);
    }
}

/// A digit string keeps its value when leading zeros are dropped.
pub proof fn lemma_digits_val_skip_zeros(s: Seq<char>, m: int)
    requires
        0 <= m <= s.len(),
        forall|k: int| 0 <= k < m ==> digit_val(#[trigger] s[k]) == 0,
    ensures
        digits_val(s) == digits_val(s.subrange(m, s.len() as int)),
    decreases s.len(),
{
    if m == s.len() {
        lemma_digits_val_all_zero(s);
        assert(s.subrange(m, s.len() as int) =~= Seq::<char>::empty());
    } else {
        if s.len() > 0 {
            let t = s.drop_last();
            lemma_digits_val_skip_zeros(t, m);
            assert(t.subrange(m, t.len() as int) =~= s.subrange(m, s.len() as int).drop_last());
        }
    }
}

pub proof fn lemma_digits_val_all_zero(s: Seq<char>)
    requires
        forall|k: int| 0 <= k < s.len() ==> digit_val(#[trigger] s[k]) == 0,
    ensures
        digits_val(s) == 0,
    decreases s.len(),
{
    if s.len() > 0 {
        lemma_digits_val_all_zero(s.drop_last());
    }
}

/// Parses the token as a signed 64-bit integer, exactly when it is an
/// integer text whose value fits.
#[verifier::rlimit(50)]
pub fn parse_i64_chars(t: &Vec<char>) -> (r: Option<i64>)
    ensures
        r == parse_i64_spec(t@),
{
    let n = t.len();
    let mut i: usize = 0;
    if n > 0 && (t[0] == '+' || t[0] == '-') {
        i = 1;
    }
    let neg = n > 0 && t[0] == '-';
    proof {
        assert(t@.subrange(i as int, n as int) =~= sign_body(t@));
        assert(neg == is_negative(t@));
    }
    let body_ghost: Ghost<Seq<char>> = Ghost(sign_body(t@));
    if i == n {
        // no digits at all
        return None;
    }
    // every remaining character must be a digit
    let mut j: usize = i;
    while j < n
        invariant
            i <= j <= n,
            n == t@.len(),
            body_ghost@ == sign_body(t@),
            body_ghost@ == t@.subrange(i as int, n as int),
            forall|k: int| i <= k < j ==> is_digit(t@[k]),
        decreases n - j,
    {
        let c = t[j] as u32;
        if !(48 <= c && c <= 57) {
            proof {
                assert(!is_digit(t@[j as int]));
                assert(body_ghost@[j - i] == t@[j as int]);
                assert(!all_digits(body_ghost@));
            }
            return None;
        }
        j = j + 1;
    }
    proof {
        assert(forall|k: int| 0 <= k < body_ghost@.len() ==> body_ghost@[k] == t@[k + i]);
        assert(all_digits(body_ghost@));
    }
    // skip leading zeros
    let mut z: usize = i;
    while z < n && t[z] as u32 == 48
        invariant
            i <= z <= n,
            n == t@.len(),
            forall|k: int| i <= k < z ==> digit_val(#[trigger] t@[k]) == 0,
        decreases n - z,
    {
        z = z + 1;
    }
    let digits_ghost: Ghost<Seq<char>> = Ghost(t@.subrange(z as int, n as int));
    proof {
        let shifted = body_ghost@.subrange((z - i) as int, body_ghost@.len() as int);
        assert(shifted =~= digits_ghost@);
        assert(forall|k: int| 0 <= k < z - i ==> digit_val(#[trigger] body_ghost@[k]) == 0) by {
            assert(forall|k: int| 0 <= k < z - i ==> body_ghost@[k] == t@[k + i]);
        }
        lemma_digits_val_skip_zeros(body_ghost@, (z - i) as int);
        assert(digits_val(body_ghost@) == digits_val(digits_ghost@));
        assert(forall|k: int| 0 <= k < digits_ghost@.len() ==> digits_ghost@[k] == t@[k + z]);
        assert(all_digits(digits_ghost@));
    }
    if n - z > 19 {
        // at least twenty significant digits: out of the i64 range
        proof {
            assert(digits_ghost@[0] == t@[z as int]);
            assert(digit_val(digits_ghost@[0]) != 0);
            lemma_digits_val_lower(digits_ghost@);
            lemma_pow10_mono(19, (digits_ghost@.len() - 1) as nat);
            lemma_pow10_vals();
            assert(!is_int_text(t@));
        }
        return None;
    }
    let mut mag: u64 = 0;
    let mut k: usize = z;
    while k < n
        invariant
            z <= k <= n,
            n == t@.len(),
            n - z <= 19,
            digits_ghost@ == t@.subrange(z as int, n as int),
            all_digits(digits_ghost@),
            mag == digits_val(t@.subrange(z as int, k as int)),
            mag < pow10((k - z) as nat),
        decreases n - k,
    {
        let c = t[k] as u32;
        proof {
            let pref = t@.subrange(z as int, k as int);
            let pref1 = t@.subrange(z as int, k as int + 1);
            assert(pref1.drop_last() =~= pref);
            assert(pref1.last() == t@[k as int]);
            assert(is_digit(digits_ghost@[k - z]));
            assert(digits_ghost@[k - z] == t@[k as int]);
            assert(is_digit(t@[k as int]));
            lemma_pow10_mono((k - z) as nat, 18);
            lemma_pow10_vals();
        }
        mag = mag * 10 + ((c - 48) as u64);
        k = k + 1;
    }
    proof {
        assert(t@.subrange(z as int, n as int) =~= digits_ghost@);
        assert(mag == digits_val(digits_ghost@));
        assert(digits_val(body_ghost@) == mag);
        lemma_digits_val_nonneg(body_ghost@);
    }
    if neg {
        if mag > 0x8000_0000_0000_0000u64 {
            proof {
                assert(int_text_val(t@) < -0x8000_0000_0000_0000);
            }
            None
        } else if mag == 0x8000_0000_0000_0000u64 {
            Some(i64::MIN)
        } else {
            Some(-(mag as i64))
        }
    } else {
        if mag > 0x7fff_ffff_ffff_ffffu64 {
            proof {
                assert(int_text_val(t@) > 0x7fff_ffff_ffff_ffff);
            }
            None
        } else {
            Some(mag as i64)
        }
    }
}

// ---------------------------------------------------------------------------
// Searching and slicing character vectors
// ---------------------------------------------------------------------------

/// The index of the first occurrence of `a` or `b` in `s`, or `s.len()` when
/// neither occurs.
pub open spec fn idx_of2(s: Seq<char>, a: char, b: char) -> int
    decreases s.len(),
{
    if s.len() == 0 {
        0
    } else if s[0] == a || s[0] == b {
        0
    } else {
        1 + idx_of2(s.drop_first(), a, b)
    }
}

pub proof fn lemma_idx_of2(s: Seq<char>, a: char, b: char)
    ensures
        0 <= idx_of2(s, a, b) <= s.len(),
        idx_of2(s, a, b) < s.len() ==> (s[idx_of2(s, a, b)] == a || s[idx_of2(s, a, b)] == b),
        forall|k: int| 0 <= k < idx_of2(s, a, b) ==> s[k] != a && s[k] != b,
    decreases s.len(),
{
    if s.len() > 0 && !(s[0] == a || s[0] == b) {
        lemma_idx_of2(s.drop_first(), a, b);
        assert(forall|k: int| 1 <= k < idx_of2(s, a, b) ==> s[k] == s.drop_first()[k - 1]);
    }
}

/// A position with no occurrence before it, and an occurrence (or the end)
/// at it, is the first occurrence.
pub proof fn lemma_idx_of2_unique(s: Seq<char>, a: char, b: char, i: int)
    requires
        0 <= i <= s.len(),
        forall|k: int| 0 <= k < i ==> s[k] != a && s[k] != b,
        i < s.len() ==> (s[i] == a || s[i] == b),
    ensures
        idx_of2(s, a, b) == i,
    decreases s.len(),
{
    if i == 0 {
    } else {
        assert(s[0] != a && s[0] != b);
        let t = s.drop_first();
        assert(forall|k: int| 0 <= k < i - 1 ==> t[k] != a && t[k] != b) by {
            assert(forall|k: int| 0 <= k < i - 1 ==> t[k] == s[k + 1]);
        }
        lemma_idx_of2_unique(t, a, b, i - 1);
    }
}

/// The first occurrence of `a` or `b` in `t`, or `t.len()` when neither
/// occurs.
pub fn find2(t: &Vec<char>, a: char, b: char) -> (r: usize)
    ensures
        r as int == idx_of2(t@, a, b),
{
    let n = t.len();
    let mut i: usize = 0;
    while i < n
        invariant
            i <= n,
            n == t@.len(),
            forall|k: int| 0 <= k < i ==> t@[k] != a && t@[k] != b,
        decreases n - i,
    {
        if t[i] == a || t[i] == b {
            proof {
                lemma_idx_of2_unique(t@, a, b, i as int);
            }
            return i;
        }
        i = i + 1;
    }
    proof {
        lemma_idx_of2_unique(t@, a, b, n as int);
    }
    n
}

/// A copy of the characters of `t` from `from` (inclusive) to `to`
/// (exclusive).
pub fn subvec(t: &Vec<char>, from: usize, to: usize) -> (r: Vec<char>)
    requires
        from <= to <= t@.len(),
    ensures
        r@ == t@.subrange(from as int, to as int),
{
    let mut r: Vec<char> = Vec::new();
    let mut i: usize = from;
    while i < to
        invariant
            from <= i <= to <= t@.len(),
            r@ == t@.subrange(from as int, i as int),
        decreases to - i,
    {
        r.push(t[i]);
        i = i + 1;
        proof {
            assert(r@ =~= t@.subrange(from as int, i as int));
        }
    }
    r
}

/// Whether every character of `t` is an ASCII digit.
pub fn all_digits_chars(t: &Vec<char>) -> (b: bool)
    ensures
        b == all_digits(t@),
{
    let n = t.len();
    let mut i: usize = 0;
    while i < n
        invariant
            i <= n,
            n == t@.len(),
            forall|k: int| 0 <= k < i ==> is_digit(#[trigger] t@[k]),
        decreases n - i,
    {
        let c = t[i] as u32;
        if !(48 <= c && c <= 57) {
            proof {
                assert(!is_digit(t@[i as int]));
            }
            return false;
        }
        i = i + 1;
    }
    true
}

// ---------------------------------------------------------------------------
// Float text
// ---------------------------------------------------------------------------

pub open spec fn kw_inf() -> Seq<char> {
    seq!['i', 'n', 'f']
}

pub open spec fn kw_infinity() -> Seq<char> {
    seq!['i', 'n', 'f', 'i', 'n', 'i', 't', 'y']
}

pub open spec fn kw_nan() -> Seq<char> {
    seq!['n', 'a', 'n']
}

/// An exponent tail: an optional sign followed by one or more digits.
pub open spec fn is_exp_tail(s: Seq<char>) -> bool {
    sign_body(s).len() > 0 && all_digits(sign_body(s))
}

/// A mantissa: digits, optionally with one decimal point, with at least one
/// digit overall.
pub open spec fn is_mantissa(m: Seq<char>) -> bool {
    let d = idx_of2(m, '.', '.');
    if d == m.len() {
        m.len() > 0 && all_digits(m)
    } else {
        let pre = m.subrange(0, d);
        let post = m.subrange(d + 1, m.len() as int);
        all_digits(pre) && all_digits(post) && (pre.len() > 0 || post.len() > 0)
    }
}

/// A number: a mantissa, optionally followed by `e` or `E` and an exponent
/// tail.
pub open spec fn is_number_text(b: Seq<char>) -> bool {
    let e = idx_of2(b, 'e', 'E');
    if e == b.len() {
        is_mantissa(b)
    } else {
        is_mantissa(b.subrange(0, e)) && is_exp_tail(b.subrange(e + 1, b.len() as int))
    }
}

/// The token parses as a 64-bit float: an optional sign followed by `inf`,
/// `infinity` or `nan` (ignoring ASCII case), or by a number.
pub open spec fn is_float_text(s: Seq<char>) -> bool {
    let b = sign_body(s);
    ||| eq_icase(b, kw_inf())
    ||| eq_icase(b, kw_infinity())
    ||| eq_icase(b, kw_nan())
    ||| is_number_text(b)
}

fn kw_inf_vec() -> (v: Vec<char>)
    ensures
        v@ == kw_inf(),
{
    let mut v: Vec<char> = Vec::new();
    v.push('i');
    v.push('n');
    v.push('f');
    proof {
        assert(v@ =~= kw_inf());
    }
    v
}

fn kw_infinity_vec() -> (v: Vec<char>)
    ensures
        v@ == kw_infinity(),
{
    let mut v = kw_inf_vec();
    v.push('i');
    v.push('n');
    v.push('i');
    v.push('t');
    v.push('y');
    proof {
        assert(v@ =~= kw_infinity());
    }
    v
}

fn kw_nan_vec() -> (v: Vec<char>)
    ensures
        v@ == kw_nan(),
{
    let mut v: Vec<char> = Vec::new();
    v.push('n');
    v.push('a');
    v.push('n');
    proof {
        assert(v@ =~= kw_nan());
    }
    v
}

fn kw_true_vec() -> (v: Vec<char>)
    ensures
        v@ == kw_true(),
{
    let mut v: Vec<char> = Vec::new();
    v.push('t');
    v.push('r');
    v.push('u');
    v.push('e');
    proof {
        assert(v@ =~= kw_true());
    }
    v
}

fn kw_false_vec() -> (v: Vec<char>)
    ensures
        v@ == kw_false(),
{
    let mut v: Vec<char> = Vec::new();
    v.push('f');
    v.push('a');
    v.push('l');
    v.push('s');
    v.push('e');
    proof {
        assert(v@ =~= kw_false());
    }
    v
}

fn kw_null_vec() -> (v: Vec<char>)
    ensures
        v@ == kw_null(),
{
    let mut v: Vec<char> = Vec::new();
    v.push('n');
    v.push('u');
    v.push('l');
    v.push('l');
    proof {
        assert(v@ =~= kw_null());
    }
    v
}

/// Whether the token matches the float grammar.
pub fn is_float_chars(t: &Vec<char>) -> (r: bool)
    ensures
        r == is_float_text(t@),
{
    let n = t.len();
    let start: usize = if n > 0 && (t[0] == '+' || t[0] == '-') {
        1
    } else {
        0
    };
    let b = subvec(t, start, n);
    proof {
        assert(b@ =~= sign_body(t@));
    }
    if eq_icase_chars(&b, &kw_inf_vec()) {
        return true;
    }
    if eq_icase_chars(&b, &kw_infinity_vec()) {
        return true;
    }
    if eq_icase_chars(&b, &kw_nan_vec()) {
        return true;
    }
    // the number path
    let e = find2(&b, 'e', 'E');
    proof {
        lemma_idx_of2(b@, 'e', 'E');
    }
    let m = subvec(&b, 0, e);
    let mantissa_ok = mantissa_chars(&m);
    if e == b.len() {
        proof {
            assert(b@.subrange(0, b@.len() as int) =~= b@);
        }
        mantissa_ok
    } else {
        if !mantissa_ok {
            return false;
        }
        let tail = subvec(&b, e + 1, b.len());
        exp_tail_chars(&tail)
    }
}

/// Whether the token matches the mantissa grammar.
fn mantissa_chars(m: &Vec<char>) -> (r: bool)
    ensures
        r == is_mantissa(m@),
{
    let d = find2(m, '.', '.');
    proof {
        lemma_idx_of2(m@, '.', '.');
    }
    if d == m.len() {
        m.len() > 0 && all_digits_chars(m)
    } else {
        let pre = subvec(m, 0, d);
        let post = subvec(m, d + 1, m.len());
        let ok = all_digits_chars(&pre) && all_digits_chars(&post) && (pre.len() > 0 || post.len() > 0);
        ok
    }
}

/// Whether the token matches the exponent-tail grammar.
fn exp_tail_chars(t: &Vec<char>) -> (r: bool)
    ensures
        r == is_exp_tail(t@),
{
    let n = t.len();
    let start: usize = if n > 0 && (t[0] == '+' || t[0] == '-') {
        1
    } else {
        0
    };
    let u = subvec(t, start, n);
    proof {
        assert(u@ =~= sign_body(t@));
    }
    u.len() > 0 && all_digits_chars(&u)
}

// ---------------------------------------------------------------------------
// Scalar classification
// ---------------------------------------------------------------------------

/// The token is wrapped in double quotes.
pub open spec fn is_quoted(t: Seq<char>) -> bool {
    t.len() >= 2 && t[0] == '"' && t.last() == '"'
}

/// What a trimmed token denotes, in this exact precedence order: the
/// booleans, null, a quoted string with the quotes stripped, a signed 64-bit
/// integer, a float, and otherwise the bare text itself.
pub open spec fn parse_scalar_spec(t: Seq<char>) -> Vs {
    if eq_icase(t, kw_true()) {
        Vs::Bool(true)
    } else if eq_icase(t, kw_false()) {
        Vs::Bool(false)
    } else if eq_icase(t, kw_null()) {
        Vs::Null
    } else if is_quoted(t) {
        Vs::Str(t.subrange(1, t.len() - 1))
    } else if is_int_text(t) {
        Vs::Int(int_text_val(t))
    } else if is_float_text(t) {
        Vs::Float(t)
    } else {
        Vs::Str(t)
    }
}

/// Classifies a trimmed token.
pub fn parse_value_chars(t: &Vec<char>) -> (v: Value)
    ensures
        v.dv() == parse_scalar_spec(t@),
{
    if eq_icase_chars(t, &kw_true_vec()) {
        return Value::Boolean(true);
    }
    if eq_icase_chars(t, &kw_false_vec()) {
        return Value::Boolean(false);
    }
    if eq_icase_chars(t, &kw_null_vec()) {
        return Value::Null;
    }
    let n = t.len();
    if n >= 2 && t[0] == '"' && t[n - 1] == '"' {
        let inner = subvec(t, 1, n - 1);
        return Value::String(chars_to_string(&inner));
    }
    match parse_i64_chars(t) {
        Option::Some(i) => Value::Integer(i),
        Option::None => {
            if is_float_chars(t) {
                Value::Float(chars_to_string(t))
            } else {
                Value::String(chars_to_string(t))
            }
        },
    }
}

/// Classifies a trimmed token given as a string.
pub fn parse_value(s: &str) -> (v: Value)
    ensures
        v.dv() == parse_scalar_spec(s@),
{
    let t = str_to_chars(s);
    parse_value_chars(&t)
}

// ---------------------------------------------------------------------------
// Scalar rendering
// ---------------------------------------------------------------------------

pub open spec fn digit_char(d: int) -> char {
    if d == 0 {
        '0'
    } else if d == 1 {
        '1'
    } else if d == 2 {
        '2'
    } else if d == 3 {
        '3'
    } else if d == 4 {
        '4'
    } else if d == 5 {
        '5'
    } else if d == 6 {
        '6'
    } else if d == 7 {
        '7'
    } else if d == 8 {
        '8'
    } else {
        '9'
    }
}

/// The decimal digits of a nonnegative number, most significant first.
pub open spec fn digits_of(n: int) -> Seq<char>
    decreases n,
{
    if n < 10 {
        seq![digit_char(n)]
    } else {
        digits_of(n / 10) + seq![digit_char(n % 10)]
    }
}

/// The decimal rendering of an integer: a minus sign for negative values,
/// then the digits with no leading zeros.
pub open spec fn int_to_text(i: int) -> Seq<char> {
    if i < 0 {
        seq!['-'] + digits_of(-i)
    } else {
        digits_of(i)
    }
}

/// The decimal digit character for `d`.
fn digit_to_char(d: u64) -> (c: char)
    requires
        d < 10,
    ensures
        c == digit_char(d as int),
{
    if d == 0 {
        '0'
    } else if d == 1 {
        '1'
    } else if d == 2 {
        '2'
    } else if d == 3 {
        '3'
    } else if d == 4 {
        '4'
    } else if d == 5 {
        '5'
    } else if d == 6 {
        '6'
    } else if d == 7 {
        '7'
    } else if d == 8 {
        '8'
    } else {
        '9'
    }
}

/// Renders an integer in decimal: a minus sign for negative values, then the
/// digits with no leading zeros.
pub fn i64_to_string(i: i64) -> (r: String)
    ensures
        r@ == int_to_text(i as int),
{
    let neg = i < 0;
    let mag: u64 = if i < 0 {
        (-(i + 1)) as u64 + 1
    } else {
        i as u64
    };
    proof {
        if neg {
            assert(mag == -(i as int));
        } else {
            assert(mag == i as int);
        }
    }
    // collect the digits, least significant first
    let mut rev: Vec<char> = Vec::new();
    if mag == 0 {
        rev.push('0');
        proof {
            assert(rev@.reverse() =~= digits_of(mag as int));
        }
    } else {
        let mut m = mag;
        proof {
            assert(rev@.reverse() =~= Seq::<char>::empty());
            assert(digits_of(m as int) + rev@.reverse() =~= digits_of(mag as int));
        }
        while m > 0
            invariant
                (if m > 0 {
                    digits_of(m as int)
                } else {
                    Seq::<char>::empty()
                }) + rev@.reverse() == digits_of(mag as int),
            decreases m,
        {
            let ghost m_pre = m as int;
            proof {
                lemma_fundamental_div_mod(m as int, 10);
            }
            let d = m % 10;
            let c = digit_to_char(d);
            let ghost rev0 = rev@;
            rev.push(c);
            m = m / 10;
            proof {
                assert(rev@.reverse() =~= seq![c] + rev0.reverse());
                assert(digits_of(m_pre) == (if m_pre >= 10 {
                    digits_of(m_pre / 10)
                } else {
                    Seq::<char>::empty()
                }) + seq![digit_char(m_pre % 10)]) by {
                    if m_pre < 10 {
                        assert(digits_of(m_pre) == seq![digit_char(m_pre)]);
                        assert(Seq::<char>::empty() + seq![digit_char(m_pre)] =~= seq![
                            digit_char(m_pre),
                        ]);
                    }
                }
                assert((if m > 0 {
                    digits_of(m as int)
                } else {
                    Seq::<char>::empty()
                }) + rev@.reverse() =~= digits_of(m_pre) + rev0.reverse());
            }
        }
        proof {
            assert(Seq::<char>::empty() + rev@.reverse() =~= rev@.reverse());
        }
    }
    // emit the sign, then the digits most significant first
    let ghost sign: Seq<char> = if neg {
        seq!['-']
    } else {
        Seq::<char>::empty()
    };
    let mut out: Vec<char> = Vec::new();
    if neg {
        out.push('-');
    }
    proof {
        assert(out@ =~= sign + Seq::new(0, |j: int| rev@[rev@.len() - 1 - j]));
    }
    let n = rev.len();
    let mut k: usize = n;
    while k > 0
        invariant
            k <= n,
            n == rev@.len(),
            out@ == sign + Seq::new((n - k) as nat, |j: int| rev@[n - 1 - j]),
        decreases k,
    {
        k = k - 1;
        out.push(rev[k]);
        proof {
            assert(out@ =~= sign + Seq::new((n - k) as nat, |j: int| rev@[n - 1 - j]));
        }
    }
    proof {
        assert(Seq::new(n as nat, |j: int| rev@[n - 1 - j]) =~= rev@.reverse());
        assert(out@ =~= sign + rev@.reverse());
        assert(out@ =~= int_to_text(i as int));
    }
    chars_to_string(&out)
}

/// A string must be quoted when rendered: it holds a space or a colon, or it
/// collides with a keyword, ignoring ASCII case.
pub open spec fn needs_quotes(s: Seq<char>) -> bool {
    ||| s.contains(' ')
    ||| s.contains(':')
    ||| eq_icase(s, kw_true())
    ||| eq_icase(s, kw_false())
    ||| eq_icase(s, kw_null())
}

fn needs_quotes_chars(t: &Vec<char>) -> (r: bool)
    ensures
        r == needs_quotes(t@),
{
    let n = t.len();
    let mut i: usize = 0;
    while i < n
        invariant
            i <= n,
            n == t@.len(),
            forall|k: int| 0 <= k < i ==> t@[k] != ' ' && t@[k] != ':',
        decreases n - i,
    {
        if t[i] == ' ' || t[i] == ':' {
            proof {
                assert(t@.contains(' ') || t@.contains(':'));
            }
            return true;
        }
        i = i + 1;
    }
    proof {
        assert(!t@.contains(' ') && !t@.contains(':')) by {
            if t@.contains(' ') {
                let k = choose|k: int| 0 <= k < t@.len() && t@[k] == ' ';
            }
            if t@.contains(':') {
                let k = choose|k: int| 0 <= k < t@.len() && t@[k] == ':';
            }
        }
    }
    eq_icase_chars(t, &kw_true_vec()) || eq_icase_chars(t, &kw_false_vec()) || eq_icase_chars(
        t,
        &kw_null_vec(),
    )
}

/// What a scalar renders as: strings are quoted by [`needs_quotes`], integers
/// render in decimal, floats keep their text, booleans and null render as
/// their lowercase keywords.
pub open spec fn format_scalar_spec(v: Vs) -> Seq<char> {
    match v {
        Vs::Str(s) => if needs_quotes(s) {
            seq!['"'] + s + seq!['"']
        } else {
            s
        },
        Vs::Int(i) => int_to_text(i),
        Vs::Float(t) => t,
        Vs::Bool(b) => if b {
            kw_true()
        } else {
            kw_false()
        },
        Vs::Null => kw_null(),
        Vs::List(_) => Seq::empty(),
        Vs::Mapping(_) => Seq::empty(),
    }
}

/// Renders a scalar as text.
pub fn format_value(v: &Value) -> (s: String)
    requires
        !(v.dv() is List),
        !(v.dv() is Mapping),
    ensures
        s@ == format_scalar_spec(v.dv()),
{
    match v {
        Value::String(s) => {
            let cs = str_to_chars(s.as_str());
            if needs_quotes_chars(&cs) {
                let mut out: Vec<char> = Vec::new();
                out.push('"');
                let mut i: usize = 0;
                let n = cs.len();
                while i < n
                    invariant
                        i <= n,
                        n == cs@.len(),
                        out@ == seq!['"'] + cs@.subrange(0, i as int),
                    decreases n - i,
                {
                    out.push(cs[i]);
                    i = i + 1;
                    proof {
                        assert(out@ =~= seq!['"'] + cs@.subrange(0, i as int));
                    }
                }
                out.push('"');
                proof {
                    assert(cs@.subrange(0, n as int) =~= cs@);
                    assert(out@ =~= seq!['"'] + cs@ + seq!['"']);
                }
                chars_to_string(&out)
            } else {
                s.clone()
            }
        },
        Value::Integer(i) => i64_to_string(*i),
        Value::Float(t) => t.clone(),
        Value::Boolean(b) => {
            if *b {
                chars_to_string(&kw_true_vec())
            } else {
                chars_to_string(&kw_false_vec())
            }
        },
        Value::Null => chars_to_string(&kw_null_vec()),
        Value::List(_) => unreached(),
        Value::Mapping(_) => unreached(),
    }
}


} // verus!
