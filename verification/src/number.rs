use vstd::prelude::*;

verus! {

// ---------------------------------------------------------------------------
// Decimal digit strings
// ---------------------------------------------------------------------------

pub open spec fn is_digit(c: char) -> bool {
    '0' <= c && c <= '9'
}

pub open spec fn digit_val(c: char) -> int {
    c as int - '0' as int
}

pub open spec fn all_digits(s: Seq<char>) -> bool {
    forall|i: int| 0 <= i < s.len() ==> is_digit(#[trigger] s[i])
}

/// The integer denoted by a string of decimal digits, most significant first.
pub open spec fn digits_val(s: Seq<char>) -> int
    decreases s.len(),
{
    if s.len() == 0 {
        0
    } else {
        digits_val(s.drop_last()) * 10 + digit_val(s.last())
    }
}

pub proof fn lemma_digits_val_nonneg(s: Seq<char>)
    requires
        all_digits(s),
    ensures
        digits_val(s) >= 0,
    decreases s.len(),
{
    if s.len() > 0 {
        assert(all_digits(s.drop_last()));
        lemma_digits_val_nonneg(s.drop_last());
    }
}

/// Extending a digit string on the right never shrinks its value.
pub proof fn lemma_digits_val_prefix_le(s: Seq<char>, i: int)
    requires
        all_digits(s),
        0 <= i <= s.len(),
    ensures
        digits_val(s.take(i)) <= digits_val(s),
    decreases s.len() - i,
{
    if i < s.len() {
        assert(s.take(i + 1).drop_last() =~= s.take(i));
        assert(s.take(i + 1).last() == s[i]);
        assert(all_digits(s.take(i)));
        lemma_digits_val_nonneg(s.take(i));
        assert(digits_val(s.take(i + 1)) == digits_val(s.take(i)) * 10 + digit_val(s[i]));
        lemma_digits_val_prefix_le(s, i + 1);
    } else {
        assert(s.take(i) =~= s);
    }
}

// ---------------------------------------------------------------------------
// Integer literals, as `i128::from_str` accepts them: an optional `+` or `-`
// sign followed by one or more decimal digits, denoting a value in range.
// ---------------------------------------------------------------------------

pub open spec fn has_sign(s: Seq<char>) -> bool {
    s.len() > 0 && (s[0] == '+' || s[0] == '-')
}

/// The part of a signed literal after its optional sign.
pub open spec fn num_body(s: Seq<char>) -> Seq<char> {
    if has_sign(s) {
        s.drop_first()
    } else {
        s
    }
}

pub open spec fn num_is_neg(s: Seq<char>) -> bool {
    s.len() > 0 && s[0] == '-'
}

pub open spec fn is_int_syntax(s: Seq<char>) -> bool {
    num_body(s).len() > 0 && all_digits(num_body(s))
}

pub open spec fn int_lit_val(s: Seq<char>) -> int {
    if num_is_neg(s) {
        -digits_val(num_body(s))
    } else {
        digits_val(num_body(s))
    }
}

/// A token that classifies as an integer: integer syntax whose value fits
/// the 128-bit signed range.
pub open spec fn is_int_literal(s: Seq<char>) -> bool {
    is_int_syntax(s) && i128::MIN <= int_lit_val(s) <= i128::MAX
}

/// Reads a whole token as a signed 128-bit integer, returning `None` on any
/// token that is not integer syntax or whose value is out of range.
pub fn parse_int_chars(s: &Vec<char>) -> (r: Option<i128>)
    ensures
        is_int_literal(s@) ==> r == Some(int_lit_val(s@) as i128),
        !is_int_literal(s@) ==> r is None,
{
    let n = s.len();
    let mut i: usize = 0;
    let mut neg = false;
    if n > 0 && (s[0] == '+' || s[0] == '-') {
        neg = s[0] == '-';
        i = 1;
    }
    let ghost start = i as int;
    let ghost body = num_body(s@);
    proof {
        assert(num_body(s@) =~= s@.subrange(start, n as int));
    }
    if i == n {
        return None;
    }
    // acc holds the negation of the value of the digits read so far, so the
    // most negative value is reachable without overflow.
    let mut acc: i128 = 0;
    while i < n
        invariant
            n == s.len(),
            0 <= start <= i as int <= n as int,
            body == num_body(s@),
            body == s@.subrange(start, n as int),
            all_digits(body.take(i - start)),
            acc == -digits_val(body.take(i - start)),
        decreases n - i,
    {
        let c = s[i];
        if !('0' <= c && c <= '9') {
            assert(!all_digits(body)) by {
                assert(body[i - start] == c);
            }
            return None;
        }
        let d = (c as u32 - '0' as u32) as i128;
        proof {
            assert(body.take(i - start + 1).drop_last() =~= body.take(i - start));
            assert(body.take(i - start + 1).last() == c);
        }
        let acc10 = match acc.checked_mul(10) {
            Some(v) => v,
            None => {
                proof {
                    lemma_digits_val_nonneg(body.take(i - start));
                    lemma_out_of_range(s@, start, i as int);
                }
                return None;
            },
        };
        let acc2 = match acc10.checked_sub(d) {
            Some(v) => v,
            None => {
                proof {
                    lemma_digits_val_nonneg(body.take(i - start));
                    lemma_out_of_range(s@, start, i as int);
                }
                return None;
            },
        };
        acc = acc2;
        i = i + 1;
    }
    proof {
        assert(body.take(n - start) =~= body);
    }
    if neg {
        Some(acc)
    } else if acc == i128::MIN {
        proof {
            assert(int_lit_val(s@) == digits_val(body));
        }
        None
    } else {
        Some(-acc)
    }
}

/// If the digits read so far already exceed the 128-bit range, the whole
/// token is out of range for either sign.
proof fn lemma_out_of_range(s: Seq<char>, start: int, i: int)
    requires
        0 <= start <= i < s.len(),
        num_body(s) =~= s.subrange(start, s.len() as int),
        all_digits(num_body(s).take(i - start)),
        is_digit(s[i]),
        digits_val(num_body(s).take(i - start)) * 10 + digit_val(s[i]) > -(i128::MIN as int),
    ensures
        !is_int_literal(s),
{
    let body = num_body(s);
    if is_int_syntax(s) {
        assert(body.take(i - start + 1).drop_last() =~= body.take(i - start));
        assert(body.take(i - start + 1).last() == s[i]);
        assert(digits_val(body.take(i - start + 1)) > -(i128::MIN as int));
        lemma_digits_val_prefix_le(body, i - start + 1);
        assert(digits_val(body) > -(i128::MIN as int));
    }
}

// ---------------------------------------------------------------------------
// Rendering integers back to decimal text
// ---------------------------------------------------------------------------

/// The canonical decimal digits of a non-negative integer.
pub open spec fn nat_text(m: int) -> Seq<char>
    decreases m,
{
    if m < 10 {
        seq![digit_char(m)]
    } else {
        nat_text(m / 10).push(digit_char(m % 10))
    }
}

pub open spec fn digit_char(d: int) -> char {
    (('0' as int) + d) as char
}

/// The canonical decimal rendering of an integer, minus sign included.
pub open spec fn int_text(n: int) -> Seq<char> {
    if n < 0 {
        seq!['-'] + nat_text(-n)
    } else {
        nat_text(n)
    }
}

pub proof fn lemma_nat_text_digits(m: int)
    requires
        m >= 0,
    ensures
        nat_text(m).len() >= 1,
        all_digits(nat_text(m)),
        digits_val(nat_text(m)) == m,
    decreases m,
{
    if m < 10 {
        assert(is_digit(digit_char(m)));
        assert(seq![digit_char(m)].drop_last() =~= Seq::<char>::empty());
        assert(digits_val(Seq::<char>::empty()) == 0);
        assert(digits_val(nat_text(m)) == digit_val(digit_char(m)));
    } else {
        lemma_nat_text_digits(m / 10);
        let t = nat_text(m);
        assert(t.drop_last() =~= nat_text(m / 10));
        assert(t.last() == digit_char(m % 10));
        assert(is_digit(digit_char(m % 10)));
        assert(all_digits(t)) by {
            assert(forall|i: int|
                0 <= i < t.len() - 1 ==> t[i] == nat_text(m / 10)[i] && is_digit(
                    #[trigger] t[i],
                ));
        }
    }
}

fn push_nat_text(m: u128, out: &mut Vec<char>)
    ensures
        final(out)@ == old(out)@ + nat_text(m as int),
    decreases m,
{
    if m < 10 {
        out.push((48 + m as u8) as char);
        proof {
            assert(48 + m == digit_char(m as int) as int);
            assert(out@ =~= old(out)@ + nat_text(m as int));
        }
    } else {
        push_nat_text(m / 10, out);
        out.push((48 + (m % 10) as u8) as char);
        proof {
            assert(48 + (m % 10) == digit_char((m as int) % 10) as int);
            assert(out@ =~= old(out)@ + nat_text(m as int));
        }
    }
}

/// Renders a signed 128-bit integer as its canonical decimal text.
pub fn int_to_chars(n: i128) -> (r: Vec<char>)
    ensures
        r@ == int_text(n as int),
{
    let mut out: Vec<char> = Vec::new();
    if n >= 0 {
        push_nat_text(n as u128, &mut out);
    } else {
        out.push('-');
        let mag: u128 = ((-(n + 1)) as u128) + 1;
        proof {
            assert(mag == -(n as int));
        }
        push_nat_text(mag, &mut out);
        proof {
            assert(out@ =~= seq!['-'] + nat_text(-(n as int)));
        }
    }
    out
}

// ---------------------------------------------------------------------------
// Floating-point literals, as `f64::from_str` accepts them: an optional sign
// followed by `inf`, `infinity`, `nan` (in any letter case) or by a decimal
// mantissa with an optional fraction and exponent.
// ---------------------------------------------------------------------------

/// Case-insensitive match of one character against a letter given in both
/// cases.
pub open spec fn ci(c: char, lo: char, up: char) -> bool {
    c == lo || c == up
}

pub open spec fn matches_nan(t: Seq<char>) -> bool {
    t.len() == 3 && ci(t[0], 'n', 'N') && ci(t[1], 'a', 'A') && ci(t[2], 'n', 'N')
}

pub open spec fn matches_inf(t: Seq<char>) -> bool {
    t.len() == 3 && ci(t[0], 'i', 'I') && ci(t[1], 'n', 'N') && ci(t[2], 'f', 'F')
}

pub open spec fn matches_infinity(t: Seq<char>) -> bool {
    t.len() == 8 && ci(t[0], 'i', 'I') && ci(t[1], 'n', 'N') && ci(t[2], 'f', 'F') && ci(
        t[3],
        'i',
        'I',
    ) && ci(t[4], 'n', 'N') && ci(t[5], 'i', 'I') && ci(t[6], 't', 'T') && ci(t[7], 'y', 'Y')
}

/// How many decimal digits stand at the front of a string.
pub open spec fn leading_digits(s: Seq<char>) -> int
    decreases s.len(),
{
    if s.len() > 0 && is_digit(s[0]) {
        1 + leading_digits(s.drop_first())
    } else {
        0
    }
}

pub proof fn lemma_leading_digits_is(s: Seq<char>, k: int)
    requires
        0 <= k <= s.len(),
        forall|i: int| 0 <= i < k ==> is_digit(#[trigger] s[i]),
        k < s.len() ==> !is_digit(s[k]),
    ensures
        leading_digits(s) == k,
    decreases s.len(),
{
    if s.len() > 0 && is_digit(s[0]) {
        assert(k >= 1);
        let s2 = s.drop_first();
        assert(forall|i: int| 0 <= i < k - 1 ==> is_digit(#[trigger] s2[i]) && s2[i] == s[i + 1]);
        lemma_leading_digits_is(s2, k - 1);
    } else {
        assert(k == 0);
    }
}

/// An exponent part: `e` or `E`, then integer syntax reaching the end.
pub open spec fn is_exp(s: Seq<char>) -> bool {
    s.len() > 0 && (s[0] == 'e' || s[0] == 'E') && is_int_syntax(s.drop_first())
}

/// A decimal mantissa with optional fraction and exponent, after the sign:
/// `D+ [. D*] [exp]` or `. D+ [exp]`.
pub open spec fn mantissa_exp_ok(t: Seq<char>) -> bool {
    let d1 = leading_digits(t);
    if d1 > 0 {
        let rest = t.skip(d1);
        if rest.len() == 0 {
            true
        } else if rest[0] == '.' {
            let d2 = leading_digits(rest.drop_first());
            let rest2 = rest.skip(1 + d2);
            rest2.len() == 0 || is_exp(rest2)
        } else {
            is_exp(rest)
        }
    } else {
        t.len() >= 2 && t[0] == '.' && {
            let d2 = leading_digits(t.drop_first());
            let rest2 = t.skip(1 + d2);
            d2 > 0 && (rest2.len() == 0 || is_exp(rest2))
        }
    }
}

/// A token that `f64::from_str` accepts.
pub open spec fn is_float_literal(s: Seq<char>) -> bool {
    let t = num_body(s);
    matches_nan(t) || matches_inf(t) || matches_infinity(t) || mantissa_exp_ok(t)
}

// ---------------------------------------------------------------------------
// The value a floating-point literal denotes, as this library models it: an
// exact decimal. A finite literal is reduced to sign, significant digits and
// a power of ten; exponents too large for any binary64 reading collapse to
// the infinite class, exponents too small to the zero class.
// ---------------------------------------------------------------------------

pub enum FloatSem {
    Nan,
    Inf(bool),
    Zero,
    Fin(bool, Seq<char>, int),
}

pub open spec fn strip_leading_zeros(s: Seq<char>) -> Seq<char>
    decreases s.len(),
{
    if s.len() > 0 && s[0] == '0' {
        strip_leading_zeros(s.drop_first())
    } else {
        s
    }
}

pub open spec fn trailing_zeros(s: Seq<char>) -> int
    decreases s.len(),
{
    if s.len() > 0 && s.last() == '0' {
        1 + trailing_zeros(s.drop_last())
    } else {
        0
    }
}

/// Exponent magnitudes beyond nineteen significant digits are clamped to a
/// value far outside the range any binary64 literal can distinguish.
pub open spec fn exp_huge() -> int {
    100000000000000000000
}

/// The clamped value of an exponent tail (`e`/`E` and a signed digit run),
/// or zero for an empty tail.
pub open spec fn exp_val_clamped(e: Seq<char>) -> int {
    if e.len() == 0 {
        0
    } else {
        let b = num_body(e.drop_first());
        let st = strip_leading_zeros(b);
        let mag = if st.len() > 19 {
            exp_huge()
        } else {
            digits_val(st)
        };
        if num_is_neg(e.drop_first()) {
            -mag
        } else {
            mag
        }
    }
}

/// All mantissa digits of a numeric literal body, fraction included.
pub open spec fn mant_digits(t: Seq<char>) -> Seq<char> {
    let d1 = leading_digits(t);
    let rest = t.skip(d1);
    if rest.len() > 0 && rest[0] == '.' {
        t.take(d1) + rest.drop_first().take(leading_digits(rest.drop_first()))
    } else {
        t.take(d1)
    }
}

/// The number of digits after the decimal point.
pub open spec fn frac_len(t: Seq<char>) -> int {
    let d1 = leading_digits(t);
    let rest = t.skip(d1);
    if rest.len() > 0 && rest[0] == '.' {
        leading_digits(rest.drop_first())
    } else {
        0
    }
}

/// What remains of a numeric literal body after mantissa and fraction.
pub open spec fn exp_tail(t: Seq<char>) -> Seq<char> {
    let d1 = leading_digits(t);
    let rest = t.skip(d1);
    if rest.len() > 0 && rest[0] == '.' {
        rest.skip(1 + leading_digits(rest.drop_first()))
    } else {
        rest
    }
}

/// The normal form of a finite decimal: significant digits with the
/// leading and trailing zeros folded into a power of ten, overlarge
/// magnitudes collapsing to the infinite class, vanishing ones to zero.
pub open spec fn norm_sem(neg: bool, digits: Seq<char>, adj0: int) -> FloatSem {
    let sig0 = strip_leading_zeros(digits);
    if sig0.len() == 0 {
        FloatSem::Zero
    } else {
        let tz = trailing_zeros(sig0);
        let sig = sig0.take(sig0.len() - tz);
        let adj = adj0 + tz;
        if adj >= 310 {
            FloatSem::Inf(neg)
        } else if adj + sig.len() <= -324 {
            FloatSem::Zero
        } else {
            FloatSem::Fin(neg, sig, adj)
        }
    }
}

/// The decimal class and normal form a floating-point literal denotes.
pub open spec fn float_sem(s: Seq<char>) -> FloatSem {
    let neg = num_is_neg(s);
    let t = num_body(s);
    if matches_nan(t) {
        FloatSem::Nan
    } else if matches_inf(t) || matches_infinity(t) {
        FloatSem::Inf(neg)
    } else {
        norm_sem(neg, mant_digits(t), exp_val_clamped(exp_tail(t)) - frac_len(t))
    }
}

/// Equality of two decimal classes: never for a `nan`, by sign for
/// infinities, and by exact decimal value otherwise, all zeros being equal.
pub open spec fn sem_eq(x: FloatSem, y: FloatSem) -> bool {
    match (x, y) {
        (FloatSem::Inf(a), FloatSem::Inf(b)) => a == b,
        (FloatSem::Zero, FloatSem::Zero) => true,
        (FloatSem::Fin(nx, sx, ex), FloatSem::Fin(ny, sy, ey)) => nx == ny && sx == sy && ex
            == ey,
        _ => false,
    }
}

/// Equality of two floating-point literals, by their decimal classes.
pub open spec fn float_float_eq(a: Seq<char>, b: Seq<char>) -> bool {
    sem_eq(float_sem(a), float_sem(b))
}

pub open spec fn pow10(k: int) -> int
    decreases k,
{
    if k <= 0 {
        1
    } else {
        10 * pow10(k - 1)
    }
}

/// Equality of an integer and a decimal class: the exact decimal value must
/// be that integer.
pub open spec fn sem_int_eq(n: int, x: FloatSem) -> bool {
    match x {
        FloatSem::Nan => false,
        FloatSem::Inf(_) => false,
        FloatSem::Zero => n == 0,
        FloatSem::Fin(neg, sig, adj) => adj >= 0 && (if neg {
            n == -(digits_val(sig) * pow10(adj))
        } else {
            n == digits_val(sig) * pow10(adj)
        }),
    }
}

/// Equality of an integer and a floating-point literal.
pub open spec fn float_int_eq(n: int, s: Seq<char>) -> bool {
    sem_int_eq(n, float_sem(s))
}


// ---------------------------------------------------------------------------
// Executable decoding of floating-point literals
// ---------------------------------------------------------------------------

#[derive(Debug, Clone, Copy, PartialEq, Eq, Structural)]
pub enum FloatClass {
    Nan,
    Inf,
    Zero,
    Fin,
}

/// The decoded decimal normal form of a floating-point literal.
#[derive(Debug)]
pub struct FloatDec {
    pub class: FloatClass,
    pub neg: bool,
    pub sig: Vec<char>,
    pub exp: i128,
}

pub open spec fn dec_view(d: FloatDec) -> FloatSem {
    match d.class {
        FloatClass::Nan => FloatSem::Nan,
        FloatClass::Inf => FloatSem::Inf(d.neg),
        FloatClass::Zero => FloatSem::Zero,
        FloatClass::Fin => FloatSem::Fin(d.neg, d.sig@, d.exp as int),
    }
}

pub proof fn lemma_strip_leading_zeros_is(s: Seq<char>, k: int)
    requires
        0 <= k <= s.len(),
        forall|i: int| 0 <= i < k ==> #[trigger] s[i] == '0',
        k < s.len() ==> s[k] != '0',
    ensures
        strip_leading_zeros(s) =~= s.skip(k),
    decreases s.len(),
{
    if s.len() > 0 && s[0] == '0' {
        assert(k >= 1);
        let s2 = s.drop_first();
        assert(forall|i: int| 0 <= i < k - 1 ==> #[trigger] s2[i] == s[i + 1]);
        lemma_strip_leading_zeros_is(s2, k - 1);
        assert(s2.skip(k - 1) =~= s.skip(k));
    } else {
        assert(k == 0);
        assert(s.skip(0) =~= s);
    }
}

pub proof fn lemma_trailing_zeros_is(s: Seq<char>, k: int)
    requires
        0 <= k <= s.len(),
        forall|i: int| s.len() - k <= i < s.len() ==> #[trigger] s[i] == '0',
        k < s.len() ==> s[s.len() - k - 1] != '0',
    ensures
        trailing_zeros(s) == k,
    decreases s.len(),
{
    if s.len() > 0 && s.last() == '0' {
        assert(k >= 1);
        let s2 = s.drop_last();
        lemma_trailing_zeros_is(s2, k - 1);
    } else {
        assert(k == 0);
    }
}

pub proof fn lemma_digits_val_upper(s: Seq<char>)
    requires
        all_digits(s),
    ensures
        digits_val(s) < pow10(s.len() as int),
    decreases s.len(),
{
    if s.len() > 0 {
        assert(all_digits(s.drop_last()));
        lemma_digits_val_upper(s.drop_last());
        assert(digit_val(s.last()) <= 9);
    }
}

proof fn lemma_pow10_19()
    ensures
        pow10(19) == 10000000000000000000,
{
    assert(pow10(0) == 1);
    assert(pow10(1) == 10);
    assert(pow10(2) == 100);
    assert(pow10(3) == 1000);
    assert(pow10(4) == 10000);
    assert(pow10(5) == 100000);
    assert(pow10(6) == 1000000);
    assert(pow10(7) == 10000000);
    assert(pow10(8) == 100000000);
    assert(pow10(9) == 1000000000);
    assert(pow10(10) == 10000000000);
    assert(pow10(11) == 100000000000);
    assert(pow10(12) == 1000000000000);
    assert(pow10(13) == 10000000000000);
    assert(pow10(14) == 100000000000000);
    assert(pow10(15) == 1000000000000000);
    assert(pow10(16) == 10000000000000000);
    assert(pow10(17) == 100000000000000000);
    assert(pow10(18) == 1000000000000000000);
    assert(pow10(19) == 10000000000000000000);
}

pub proof fn lemma_pow10_pos(a: int)
    ensures
        pow10(a) >= 1,
    decreases (if a > 0 {
        a
    } else {
        0
    }),
{
    if a > 0 {
        lemma_pow10_pos(a - 1);
    }
}

pub proof fn lemma_pow10_mono(a: int, b: int)
    requires
        a <= b,
    ensures
        1 <= pow10(a) <= pow10(b),
    decreases b - a,
{
    if a < b {
        lemma_pow10_mono(a, b - 1);
        lemma_pow10_pos(b);
    } else {
        lemma_pow10_pos(a);
    }
}

/// The first position at or after `from` that does not hold a digit.
fn scan_digits(s: &Vec<char>, from: usize) -> (k: usize)
    requires
        from <= s.len(),
    ensures
        from <= k <= s.len(),
        forall|i: int| from <= i < k ==> is_digit(#[trigger] s@[i]),
        k < s.len() ==> !is_digit(s@[k as int]),
        leading_digits(s@.skip(from as int)) == k - from,
    decreases s.len() - from,
{
    let n = s.len();
    let mut k = from;
    while k < n
        invariant
            from <= k <= n,
            n == s.len(),
            forall|i: int| from <= i < k ==> is_digit(#[trigger] s@[i]),
        ensures
            from <= k <= n,
            forall|i: int| from <= i < k ==> is_digit(#[trigger] s@[i]),
            k < n ==> !is_digit(s@[k as int]),
        decreases n - k,
    {
        let c = s[k];
        if !('0' <= c && c <= '9') {
            break;
        }
        k = k + 1;
    }
    proof {
        let t = s@.skip(from as int);
        assert(forall|i: int|
            0 <= i < k - from ==> #[trigger] t[i] == s@[i + from] && is_digit(t[i]));
        assert(k < n ==> !is_digit(t[k - from]));
        lemma_leading_digits_is(t, k - from);
    }
    k
}

/// Reads the value of at most nineteen decimal digits.
fn digits_to_val(s: &Vec<char>, from: usize, to: usize) -> (v: i128)
    requires
        from <= to <= s.len(),
        to - from <= 19,
        forall|i: int| from <= i < to ==> is_digit(#[trigger] s@[i]),
    ensures
        v == digits_val(s@.subrange(from as int, to as int)),
        0 <= v,
        v < pow10(to - from),
{
    let ghost whole = s@.subrange(from as int, to as int);
    let mut v: i128 = 0;
    let mut i = from;
    while i < to
        invariant
            from <= i <= to <= s.len(),
            to - from <= 19,
            whole == s@.subrange(from as int, to as int),
            forall|j: int| from <= j < to ==> is_digit(#[trigger] s@[j]),
            v == digits_val(whole.take(i - from)),
            0 <= v < pow10(i - from),
        decreases to - i,
    {
        let c = s[i];
        let d = (c as u32 - '0' as u32) as i128;
        proof {
            assert(whole.take(i - from + 1).drop_last() =~= whole.take(i - from));
            assert(whole.take(i - from + 1).last() == s@[i as int]);
            lemma_pow10_19();
            lemma_pow10_mono(i - from + 1, 19);
            assert(pow10(i - from + 1) == 10 * pow10(i - from));
        }
        v = v * 10 + d;
        i = i + 1;
    }
    proof {
        assert(whole.take(to - from) =~= whole);
    }
    v
}

/// The first position at or after `from` that does not hold `'0'`.
fn scan_zeros(s: &Vec<char>, from: usize) -> (k: usize)
    requires
        from <= s.len(),
    ensures
        from <= k <= s.len(),
        forall|i: int| from <= i < k ==> #[trigger] s@[i] == '0',
        k < s.len() ==> s@[k as int] != '0',
{
    let n = s.len();
    let mut k = from;
    while k < n
        invariant
            from <= k <= n,
            n == s.len(),
            forall|i: int| from <= i < k ==> #[trigger] s@[i] == '0',
        ensures
            from <= k <= n,
            forall|i: int| from <= i < k ==> #[trigger] s@[i] == '0',
            k < n ==> s@[k as int] != '0',
        decreases n - k,
    {
        if s[k] != '0' {
            break;
        }
        k = k + 1;
    }
    k
}

/// How many `'0'` characters end the vector.
fn scan_zeros_back(s: &Vec<char>) -> (k: usize)
    ensures
        0 <= k <= s.len(),
        forall|i: int| s.len() - k <= i < s.len() ==> #[trigger] s@[i] == '0',
        k < s.len() ==> s@[s.len() - k - 1] != '0',
{
    let n = s.len();
    let mut k: usize = 0;
    while k < n
        invariant
            0 <= k <= n,
            n == s.len(),
            forall|i: int| n - k <= i < n ==> #[trigger] s@[i] == '0',
        ensures
            0 <= k <= n,
            forall|i: int| n - k <= i < n ==> #[trigger] s@[i] == '0',
            k < n ==> s@[n - k - 1] != '0',
        decreases n - k,
    {
        if s[n - k - 1] != '0' {
            break;
        }
        k = k + 1;
    }
    k
}

/// Copies `s[from..to]` onto the end of `out`.
pub(crate) fn push_range(s: &Vec<char>, from: usize, to: usize, out: &mut Vec<char>)
    requires
        from <= to <= s.len(),
    ensures
        final(out)@ == old(out)@ + s@.subrange(from as int, to as int),
{
    let mut i = from;
    while i < to
        invariant
            from <= i <= to <= s.len(),
            out@ == old(out)@ + s@.subrange(from as int, i as int),
        decreases to - i,
    {
        out.push(s[i]);
        proof {
            assert(out@ =~= old(out)@ + s@.subrange(from as int, i + 1));
        }
        i = i + 1;
    }
}

/// Reads an exponent tail starting at `pe`: nothing at all, or `e`/`E`
/// followed by an optionally signed digit run reaching the end.
fn parse_exp_tail(s: &Vec<char>, pe: usize) -> (r: Option<i128>)
    requires
        pe <= s.len(),
    ensures
        match r {
            Some(v) => {
                let e = s@.subrange(pe as int, s.len() as int);
                (e.len() == 0 || is_exp(e)) && v == exp_val_clamped(e)
                    && -100000000000000000000 <= v <= 100000000000000000000
            },
            None => {
                let e = s@.subrange(pe as int, s.len() as int);
                e.len() > 0 && !is_exp(e)
            },
        },
{
    let n = s.len();
    let ghost e = s@.subrange(pe as int, n as int);
    if pe == n {
        proof {
            assert(e.len() == 0);
        }
        return Some(0);
    }
    let ce = s[pe];
    if !(ce == 'e' || ce == 'E') {
        proof {
            assert(e[0] == ce);
        }
        return None;
    }
    let mut pb = pe + 1;
    let mut eneg = false;
    if pb < n && (s[pb] == '+' || s[pb] == '-') {
        eneg = s[pb] == '-';
        pb = pb + 1;
    }
    let ghost ebody = num_body(e.drop_first());
    proof {
        assert(e.drop_first() =~= s@.subrange(pe + 1, n as int));
        assert(ebody =~= s@.subrange(pb as int, n as int));
        assert(num_is_neg(e.drop_first()) == eneg);
    }
    if pb == n {
        proof {
            assert(!is_int_syntax(e.drop_first()));
        }
        return None;
    }
    let pd = scan_digits(s, pb);
    if pd != n {
        proof {
            assert(!is_digit(ebody[pd - pb]));
            assert(!all_digits(ebody));
        }
        return None;
    }
    proof {
        assert(all_digits(ebody)) by {
            assert(forall|i: int|
                0 <= i < ebody.len() ==> #[trigger] ebody[i] == s@[pb + i] && is_digit(ebody[i]));
        }
        assert(is_exp(e));
    }
    let pz = scan_zeros(s, pb);
    let ghost est = strip_leading_zeros(ebody);
    proof {
        assert(forall|i: int|
            0 <= i < pz - pb ==> #[trigger] ebody[i] == s@[pb + i] && ebody[i] == '0');
        lemma_strip_leading_zeros_is(ebody, pz - pb);
        assert(est =~= s@.subrange(pz as int, n as int));
    }
    let mag: i128 = if n - pz > 19 {
        100000000000000000000i128
    } else {
        let m = digits_to_val(s, pz, n);
        proof {
            lemma_pow10_19();
            lemma_pow10_mono(n - pz, 19);
        }
        m
    };
    let v: i128 = if eneg {
        -mag
    } else {
        mag
    };
    proof {
        assert(v == exp_val_clamped(e));
    }
    Some(v)
}

/// Normalizes gathered mantissa digits against an adjusted exponent.
fn normalize_fin(digits: &Vec<char>, neg: bool, adj0: i128) -> (d: FloatDec)
    requires
        -200000000000000000000 <= adj0 as int <= 200000000000000000000,
    ensures
        dec_view(d) == norm_sem(neg, digits@, adj0 as int),
        all_digits(digits@) ==> all_digits(d.sig@),
{
    let dlen = digits.len();
    let lz = scan_zeros(digits, 0);
    let ghost sig0 = strip_leading_zeros(digits@);
    proof {
        lemma_strip_leading_zeros_is(digits@, lz as int);
        assert(sig0 =~= digits@.skip(lz as int));
    }
    if lz == dlen {
        proof {
            assert(sig0.len() == 0);
        }
        return FloatDec { class: FloatClass::Zero, neg, sig: Vec::new(), exp: 0 };
    }
    let tz = scan_zeros_back(digits);
    proof {
        assert(digits@[lz as int] != '0');
        assert(tz < dlen - lz) by {
            if tz >= dlen - lz {
                assert(digits@[lz as int] == '0');
            }
        }
        assert(forall|i: int|
            sig0.len() - tz <= i < sig0.len() ==> #[trigger] sig0[i] == digits@[i + lz]
                && sig0[i] == '0');
        assert(sig0[sig0.len() - tz - 1] == digits@[dlen - tz - 1]);
        lemma_trailing_zeros_is(sig0, tz as int);
    }
    let mut sig: Vec<char> = Vec::new();
    push_range(digits, lz, dlen - tz, &mut sig);
    proof {
        assert(sig@ =~= sig0.take(sig0.len() - tz));
    }
    let adj: i128 = adj0 + (tz as i128);
    if adj >= 310 {
        return FloatDec { class: FloatClass::Inf, neg, sig: Vec::new(), exp: 0 };
    }
    if adj + (sig.len() as i128) <= -324 {
        return FloatDec { class: FloatClass::Zero, neg, sig: Vec::new(), exp: 0 };
    }
    FloatDec { class: FloatClass::Fin, neg, sig, exp: adj }
}

/// Recognizes the words `nan`, `inf` and `infinity` in any letter case.
fn parse_special(s: &Vec<char>, st0: usize, neg: bool) -> (r: Option<FloatDec>)
    requires
        st0 <= s.len(),
        num_body(s@) == s@.subrange(st0 as int, s.len() as int),
        neg == num_is_neg(s@),
    ensures
        match r {
            Some(d) => is_float_literal(s@) && dec_view(d) == float_sem(s@) && all_digits(d.sig@),
            None => !matches_nan(num_body(s@)) && !matches_inf(num_body(s@)) && !matches_infinity(
                num_body(s@),
            ),
        },
{
    let n = s.len();
    let ghost t = num_body(s@);
    proof {
        assert(forall|i: int| 0 <= i < t.len() ==> #[trigger] t[i] == s@[st0 + i]);
    }
    if n - st0 == 3 {
        let c0 = s[st0];
        let c1 = s[st0 + 1];
        let c2 = s[st0 + 2];
        if (c0 == 'n' || c0 == 'N') && (c1 == 'a' || c1 == 'A') && (c2 == 'n' || c2 == 'N') {
            proof {
                assert(matches_nan(t));
            }
            return Some(FloatDec { class: FloatClass::Nan, neg, sig: Vec::new(), exp: 0 });
        }
        if (c0 == 'i' || c0 == 'I') && (c1 == 'n' || c1 == 'N') && (c2 == 'f' || c2 == 'F') {
            proof {
                assert(matches_inf(t));
            }
            return Some(FloatDec { class: FloatClass::Inf, neg, sig: Vec::new(), exp: 0 });
        }
    }
    if n - st0 == 8 {
        let c0 = s[st0];
        let c1 = s[st0 + 1];
        let c2 = s[st0 + 2];
        let c3 = s[st0 + 3];
        let c4 = s[st0 + 4];
        let c5 = s[st0 + 5];
        let c6 = s[st0 + 6];
        let c7 = s[st0 + 7];
        if (c0 == 'i' || c0 == 'I') && (c1 == 'n' || c1 == 'N') && (c2 == 'f' || c2 == 'F') && (c3
            == 'i' || c3 == 'I') && (c4 == 'n' || c4 == 'N') && (c5 == 'i' || c5 == 'I') && (c6
            == 't' || c6 == 'T') && (c7 == 'y' || c7 == 'Y') {
            proof {
                assert(matches_infinity(t));
            }
            return Some(FloatDec { class: FloatClass::Inf, neg, sig: Vec::new(), exp: 0 });
        }
    }
    proof {
        assert(!matches_nan(t));
        assert(!matches_inf(t));
        assert(!matches_infinity(t));
    }
    None
}

/// Decodes a whole token as a floating-point literal, giving its decimal
/// class and normal form, or `None` on a token `f64::from_str` rejects.
#[verifier::rlimit(60)]
pub fn parse_float_chars(s: &Vec<char>) -> (r: Option<FloatDec>)
    ensures
        match r {
            Some(d) => is_float_literal(s@) && dec_view(d) == float_sem(s@) && all_digits(d.sig@),
            None => !is_float_literal(s@),
        },
{
    let n = s.len();
    let mut st0: usize = 0;
    let mut neg = false;
    if n > 0 && (s[0] == '+' || s[0] == '-') {
        neg = s[0] == '-';
        st0 = 1;
    }
    let ghost t = num_body(s@);
    proof {
        assert(t =~= s@.subrange(st0 as int, n as int));
        assert(neg == num_is_neg(s@));
        assert(forall|i: int| 0 <= i < t.len() ==> #[trigger] t[i] == s@[st0 + i]);
    }
    match parse_special(s, st0, neg) {
        Some(d) => {
            return Some(d);
        },
        None => {
        },
    }
    // The mantissa: integer digits, then an optional fraction.
    let p1 = scan_digits(s, st0);
    proof {
        assert(s@.skip(st0 as int) =~= t);
        assert(leading_digits(t) == p1 - st0);
        assert(t.skip(p1 - st0) =~= s@.subrange(p1 as int, n as int));
    }
    let has_dot = p1 < n && s[p1] == '.';
    let mut p2 = p1;
    let mut fl: usize = 0;
    if has_dot {
        p2 = scan_digits(s, p1 + 1);
        fl = p2 - (p1 + 1);
        proof {
            assert(s@.subrange(p1 as int, n as int).drop_first() =~= s@.subrange(p1 + 1, n as int));
            assert(s@.skip(p1 + 1) =~= s@.subrange(p1 + 1, n as int));
            assert(frac_len(t) == fl);
            assert(exp_tail(t) =~= s@.subrange(p2 as int, n as int));
            assert(mant_digits(t) =~= s@.subrange(st0 as int, p1 as int) + s@.subrange(
                p1 + 1,
                p2 as int,
            ));
        }
    } else {
        proof {
            assert(frac_len(t) == 0);
            assert(exp_tail(t) =~= s@.subrange(p1 as int, n as int));
            assert(mant_digits(t) =~= s@.subrange(st0 as int, p1 as int));
        }
    }
    if p1 == st0 && !(has_dot && fl > 0) {
        proof {
            assert(!mantissa_exp_ok(t)) by {
                if has_dot {
                    assert(t[0] == '.');
                    assert(t.drop_first() =~= s@.subrange(p1 + 1, n as int));
                    assert(leading_digits(t.drop_first()) == 0);
                }
            }
        }
        return None;
    }
    let pe = if has_dot {
        p2
    } else {
        p1
    };
    let expv = match parse_exp_tail(s, pe) {
        Some(v) => v,
        None => {
            proof {
                assert(!mantissa_exp_ok(t));
            }
            return None;
        },
    };
    proof {
        assert(mantissa_exp_ok(t));
        assert(is_float_literal(s@));
    }
    // Gather the mantissa digits and normalize them.
    let mut digits: Vec<char> = Vec::new();
    push_range(s, st0, p1, &mut digits);
    if has_dot {
        push_range(s, p1 + 1, p2, &mut digits);
    }
    proof {
        assert(digits@ =~= mant_digits(t));
    }
    let adj0: i128 = expv - (fl as i128);
    let d = normalize_fin(&digits, neg, adj0);
    proof {
        assert(dec_view(d) == float_sem(s@));
    }
    Some(d)
}

/// Whether two character vectors hold the same characters.
pub fn chars_eq(x: &Vec<char>, y: &Vec<char>) -> (r: bool)
    ensures
        r == (x@ == y@),
{
    let n = x.len();
    if n != y.len() {
        return false;
    }
    let mut i: usize = 0;
    while i < n
        invariant
            0 <= i <= n,
            n == x.len() == y.len(),
            forall|j: int| 0 <= j < i ==> x@[j] == y@[j],
        decreases n - i,
    {
        if x[i] != y[i] {
            return false;
        }
        i = i + 1;
    }
    proof {
        assert(x@ =~= y@);
    }
    true
}

/// Whether two decoded floating-point literals denote equal values.
pub fn dec_eq(a: &FloatDec, b: &FloatDec) -> (r: bool)
    ensures
        r == sem_eq(dec_view(*a), dec_view(*b)),
{
    match (a.class, b.class) {
        (FloatClass::Inf, FloatClass::Inf) => a.neg == b.neg,
        (FloatClass::Zero, FloatClass::Zero) => true,
        (FloatClass::Fin, FloatClass::Fin) => a.neg == b.neg && a.exp == b.exp && chars_eq(
            &a.sig,
            &b.sig,
        ),
        _ => false,
    }
}

proof fn lemma_mul_ge(a: int, b: int)
    requires
        a >= 0,
        b >= 1,
    ensures
        a * b >= a,
{
    assert(a * b >= a * 1 == a) by (nonlinear_arith)
        requires
            a >= 0,
            b >= 1,
    ;
}

proof fn lemma_mul_mono_right(a: int, b: int, c: int)
    requires
        a >= 0,
        0 <= b <= c,
    ensures
        a * b <= a * c,
{
    assert(a * b <= a * c) by (nonlinear_arith)
        requires
            a >= 0,
            0 <= b <= c,
    ;
}

/// The significand alone already exceeds what 128 bits can hold, so no
/// 128-bit integer of either sign equals the denoted value.
proof fn lemma_too_big(sig: Seq<char>, adj: int, i: int)
    requires
        adj >= 0,
        0 <= i < sig.len(),
        all_digits(sig),
        digits_val(sig.take(i)) * 10 + digit_val(sig[i]) > u128::MAX as int,
    ensures
        digits_val(sig) * pow10(adj) > u128::MAX as int,
{
    assert(sig.take(i + 1).drop_last() =~= sig.take(i));
    assert(sig.take(i + 1).last() == sig[i]);
    assert(digits_val(sig.take(i + 1)) > u128::MAX as int);
    lemma_digits_val_prefix_le(sig, i + 1);
    assert(digits_val(sig) > u128::MAX as int);
    lemma_pow10_pos(adj);
    lemma_mul_ge(digits_val(sig), pow10(adj));
}

/// Whether a decoded floating-point literal denotes exactly the integer `n`.
pub fn dec_int_eq(n: i128, d: &FloatDec) -> (r: bool)
    requires
        all_digits(d.sig@),
    ensures
        r == sem_int_eq(n as int, dec_view(*d)),
{
    match d.class {
        FloatClass::Nan => false,
        FloatClass::Inf => false,
        FloatClass::Zero => n == 0,
        FloatClass::Fin => {
            if d.exp < 0 {
                return false;
            }
            let ghost sig = d.sig@;
            let ghost value = digits_val(sig) * pow10(d.exp as int);
            proof {
                lemma_digits_val_nonneg(sig);
                lemma_pow10_pos(d.exp as int);
                assert(value >= 0) by (nonlinear_arith)
                    requires
                        digits_val(sig) >= 0,
                        pow10(d.exp as int) >= 1,
                        value == digits_val(sig) * pow10(d.exp as int),
                ;
            }
            // The denoted magnitude, or an early answer if it cannot even
            // fit 128 bits.
            let m = d.sig.len();
            let mut i: usize = 0;
            let mut acc: u128 = 0;
            while i < m
                invariant
                    d.class == FloatClass::Fin,
                    0 <= i <= m,
                    m == d.sig.len(),
                    sig == d.sig@,
                    all_digits(sig),
                    d.exp >= 0,
                    value == digits_val(sig) * pow10(d.exp as int),
                    value >= 0,
                    acc == digits_val(sig.take(i as int)),
                decreases m - i,
            {
                let c = d.sig[i];
                let dv = (c as u32 - '0' as u32) as u128;
                proof {
                    assert(is_digit(sig[i as int]));
                    assert(sig.take(i + 1).drop_last() =~= sig.take(i as int));
                    assert(sig.take(i + 1).last() == sig[i as int]);
                    lemma_digits_val_nonneg(sig.take(i as int));
                }
                let acc10 = match acc.checked_mul(10) {
                    Some(v) => v,
                    None => {
                        proof {
                            lemma_too_big(sig, d.exp as int, i as int);
                        }
                        return false;
                    },
                };
                let acc2 = match acc10.checked_add(dv) {
                    Some(v) => v,
                    None => {
                        proof {
                            lemma_too_big(sig, d.exp as int, i as int);
                        }
                        return false;
                    },
                };
                acc = acc2;
                i = i + 1;
            }
            proof {
                assert(sig.take(m as int) =~= sig);
            }
            // Multiply in the power of ten.
            let mut k: i128 = 0;
            while k < d.exp
                invariant
                    d.class == FloatClass::Fin,
                    0 <= k <= d.exp,
                    sig == d.sig@,
                    all_digits(sig),
                    digits_val(sig) >= 0,
                    value == digits_val(sig) * pow10(d.exp as int),
                    acc == digits_val(sig) * pow10(k as int),
                decreases d.exp - k,
            {
                proof {
                    assert(acc * 10 == digits_val(sig) * pow10(k + 1)) by (nonlinear_arith)
                        requires
                            acc == digits_val(sig) * pow10(k as int),
                            pow10(k + 1) == 10 * pow10(k as int),
                    ;
                }
                let next = match acc.checked_mul(10) {
                    Some(v) => v,
                    None => {
                        proof {
                            lemma_pow10_mono(k + 1, d.exp as int);
                            lemma_mul_mono_right(digits_val(sig), pow10(k + 1), pow10(d.exp as int));
                        }
                        return false;
                    },
                };
                acc = next;
                k = k + 1;
            }
            // acc now holds the exact magnitude; compare against n by sign.
            if d.neg {
                if n > 0 {
                    acc == 0 && false
                } else {
                    let mag_n: u128 = if n == 0 {
                        0
                    } else {
                        ((-(n + 1)) as u128) + 1
                    };
                    proof {
                        assert(mag_n == -(n as int));
                    }
                    mag_n == acc
                }
            } else {
                if n < 0 {
                    false
                } else {
                    (n as u128) == acc
                }
            }
        },
    }
}

} // verus!
