//! Numeric literal syntax: decimal `i64` values read from and written to
//! character sequences, and a recognizer for the floating-point literal
//! grammar (optional sign, then `inf`, `infinity` or `nan` in any case, or a
//! mantissa of digits with at most one dot and an optional `e`/`E` exponent).

use vstd::prelude::*;

verus! {

pub open spec fn is_digit_char(c: char) -> bool {
    48 <= c as u32 <= 57
}

#[verifier::when_used_as_spec(is_digit_char)]
pub fn is_digit(c: char) -> (r: bool)
    ensures
        r == is_digit_char(c),
{
    let u = c as u32;
    48 <= u && u <= 57
}

pub open spec fn digit_val(c: char) -> int {
    c as u32 - 48
}

pub open spec fn all_digits(s: Seq<char>) -> bool {
    forall|i: int| 0 <= i < s.len() ==> is_digit_char(s[i])
}

/// The value of a digit sequence read as a decimal numeral.
pub open spec fn digits_val(s: Seq<char>) -> int
    decreases s.len(),
{
    if s.len() == 0 {
        0
    } else {
        digits_val(s.drop_last()) * 10 + digit_val(s.last())
    }
}

pub proof fn lemma_digits_val_nonneg(s: Seq<char>)
    requires
        all_digits(s),
    ensures
        digits_val(s) >= 0,
    decreases s.len(),
{
    if s.len() > 0 {
        assert(all_digits(s.drop_last()));
        lemma_digits_val_nonneg(s.drop_last());
    }
}

/// Reading more digits never shrinks the value.
pub proof fn lemma_digits_val_prefix_le(s: Seq<char>, k: int)
    requires
        all_digits(s),
        0 <= k <= s.len(),
    ensures
        digits_val(s.subrange(0, k)) <= digits_val(s),
    decreases s.len() - k,
{
    if k < s.len() {
        let t = s.subrange(0, k + 1);
        assert(all_digits(t));
        assert(t.drop_last() =~= s.subrange(0, k));
        lemma_digits_val_nonneg(t.drop_last());
        assert(digits_val(t) == digits_val(s.subrange(0, k)) * 10 + digit_val(t.last()));
        lemma_digits_val_prefix_le(s, k + 1);
    } else {
        assert(s.subrange(0, k) =~= s);
    }
}

/// The value a decimal `i64` literal denotes: an optional sign, then one or
/// more digits, in range; `None` otherwise.
pub open spec fn int_literal_value(s: Seq<char>) -> Option<int> {
    let neg = s.len() > 0 && s[0] == '-';
    let signed = s.len() > 0 && (s[0] == '-' || s[0] == '+');
    let ds = if signed {
        s.drop_first()
    } else {
        s
    };
    if ds.len() > 0 && all_digits(ds) {
        let v = if neg {
            -digits_val(ds)
        } else {
            digits_val(ds)
        };
        if i64::MIN <= v <= i64::MAX {
            Some(v)
        } else {
            None
        }
    } else {
        None
    }
}

/// Decimal `i64` parse of `v`, exactly on the literals `int_literal_value`
/// accepts.
pub fn parse_i64(v: &Vec<char>) -> (r: Option<i64>)
    ensures
        match r {
            Some(x) => int_literal_value(v@) == Some(x as int),
            None => int_literal_value(v@) is None,
        },
{
    let mut start: usize = 0;
    let mut neg = false;
    if v.len() > 0 && (v[0] == '-' || v[0] == '+') {
        neg = v[0] == '-';
        start = 1;
    }
    let ghost ds = if start == 1 {
        v@.drop_first()
    } else {
        v@
    };
    proof {
        assert(ds =~= v@.subrange(start as int, v@.len() as int));
    }
    if start >= v.len() {
        return None;
    }
    let mut k: usize = start;
    let mut acc: u64 = 0;
    while k < v.len()
        invariant
            start <= k <= v.len(),
            start <= 1,
            (start == 1) == (v@.len() > 0 && (v@[0] == '-' || v@[0] == '+')),
            neg == (v@.len() > 0 && v@[0] == '-'),
            ds == if start == 1 {
                v@.drop_first()
            } else {
                v@
            },
            ds == v@.subrange(start as int, v@.len() as int),
            all_digits(ds.subrange(0, k - start)),
            acc as int == digits_val(ds.subrange(0, k - start)),
        decreases v.len() - k,
    {
        let c = v[k];
        if !is_digit(c) {
            assert(!all_digits(ds)) by {
                assert(ds[k - start] == c);
            }
            return None;
        }
        let d: u64 = (c as u32 as u64) - 48;
        let ghost prefix = ds.subrange(0, k - start);
        let ghost prefix1 = ds.subrange(0, k + 1 - start);
        proof {
            assert(prefix1.drop_last() =~= prefix);
            assert(prefix1.last() == c);
            assert(all_digits(prefix1));
        }
        let next = match acc.checked_mul(10) {
            Some(a) => a.checked_add(d),
            None => None,
        };
        match next {
            Some(a) => {
                acc = a;
            },
            None => {
                // The prefix already exceeds u64::MAX, so the whole numeral,
                // if it is one, lies outside the i64 range.
                assert(int_literal_value(v@) is None) by {
                    if all_digits(ds) {
                        assert(digits_val(prefix1) > u64::MAX);
                        lemma_digits_val_prefix_le(ds, k + 1 - start);
                    }
                }
                return None;
            },
        }
        k = k + 1;
    }
    proof {
        assert(ds.subrange(0, v@.len() - start) =~= ds);
    }
    if neg {
        if acc <= 9223372036854775807u64 {
            Some(-(acc as i64))
        } else if acc == 9223372036854775808u64 {
            Some(i64::MIN)
        } else {
            None
        }
    } else {
        if acc <= 9223372036854775807u64 {
            Some(acc as i64)
        } else {
            None
        }
    }
}

pub open spec fn digit_of(d: int) -> char {
    if d == 0 {
        '0'
    } else if d == 1 {
        '1'
    } else if d == 2 {
        '2'
    } else if d == 3 {
        '3'
    } else if d == 4 {
        '4'
    } else if d == 5 {
        '5'
    } else if d == 6 {
        '6'
    } else if d == 7 {
        '7'
    } else if d == 8 {
        '8'
    } else {
        '9'
    }
}

/// The decimal numeral of a nonnegative value, most significant digit first.
pub open spec fn spec_nat_to_chars(n: int) -> Seq<char>
    decreases n,
{
    if n < 10 {
        seq![digit_of(n)]
    } else {
        spec_nat_to_chars(n / 10).push(digit_of(n % 10))
    }
}

/// Writing a value and reading it back is the identity: the decimal numeral
/// of `n` is all digits and denotes `n`.
pub proof fn lemma_nat_to_chars_digits(n: int)
    requires
        n >= 0,
    ensures
        all_digits(spec_nat_to_chars(n)),
        digits_val(spec_nat_to_chars(n)) == n,
    decreases n,
{
    if n < 10 {
        let s = seq![digit_of(n)];
        assert(s.drop_last() =~= Seq::<char>::empty());
        assert(digits_val(Seq::<char>::empty()) == 0);
        assert(digit_val(digit_of(n)) == n);
        assert(is_digit_char(digit_of(n)));
        assert(all_digits(s));
    } else {
        lemma_nat_to_chars_digits(n / 10);
        let h = spec_nat_to_chars(n / 10);
        let s = spec_nat_to_chars(n);
        assert(s == h.push(digit_of(n % 10)));
        assert(s.drop_last() =~= h);
        assert(s.last() == digit_of(n % 10));
        assert(digit_val(digit_of(n % 10)) == n % 10);
        assert(digits_val(s) == (n / 10) * 10 + n % 10);
        assert(is_digit_char(digit_of(n % 10)));
        assert forall|i: int| 0 <= i < s.len() implies is_digit_char(s[i]) by {
            if i < h.len() {
                assert(s[i] == h[i]);
            }
        }
    }
}

/// The decimal numeral of an `i64` value, with a leading `-` when negative.
pub open spec fn spec_i64_to_chars(v: int) -> Seq<char> {
    if v < 0 {
        seq!['-'] + spec_nat_to_chars(-v)
    } else {
        spec_nat_to_chars(v)
    }
}

fn push_u64_digits(n: u64, out: &mut Vec<char>)
    ensures
        final(out)@ == old(out)@ + spec_nat_to_chars(n as int),
    decreases n,
{
    if n >= 10 {
        push_u64_digits(n / 10, out);
    }
    let d: u64 = n % 10;
    let c = if d == 0 {
        '0'
    } else if d == 1 {
        '1'
    } else if d == 2 {
        '2'
    } else if d == 3 {
        '3'
    } else if d == 4 {
        '4'
    } else if d == 5 {
        '5'
    } else if d == 6 {
        '6'
    } else if d == 7 {
        '7'
    } else if d == 8 {
        '8'
    } else {
        '9'
    };
    let ghost mid = out@;
    out.push(c);
    proof {
        if n < 10 {
            assert(out@ =~= old(out)@ + spec_nat_to_chars(n as int));
        } else {
            assert(out@ =~= old(out)@ + spec_nat_to_chars(n as int));
        }
    }
}

/// Appends the decimal numeral of `n` to `out`.
pub fn push_usize_chars(n: usize, out: &mut Vec<char>)
    ensures
        final(out)@ == old(out)@ + spec_nat_to_chars(n as int),
{
    push_u64_digits(n as u64, out);
}

/// Appends the decimal numeral of `v` to `out`.
pub fn push_i64_chars(v: i64, out: &mut Vec<char>)
    ensures
        final(out)@ == old(out)@ + spec_i64_to_chars(v as int),
{
    if v >= 0 {
        push_u64_digits(v as u64, out);
    } else {
        out.push('-');
        let ghost mid = out@;
        // `-(v + 1)` avoids overflow at the smallest value.
        let mag: u64 = (-(v + 1)) as u64 + 1;
        assert(mag as int == -(v as int));
        push_u64_digits(mag, out);
        proof {
            assert(out@ =~= old(out)@ + spec_i64_to_chars(v as int));
        }
    }
}

pub open spec fn lower_char(c: char) -> char {
    if c == 'A' {
        'a'
    } else if c == 'B' {
        'b'
    } else if c == 'C' {
        'c'
    } else if c == 'D' {
        'd'
    } else if c == 'E' {
        'e'
    } else if c == 'F' {
        'f'
    } else if c == 'I' {
        'i'
    } else if c == 'N' {
        'n'
    } else if c == 'T' {
        't'
    } else if c == 'Y' {
        'y'
    } else {
        c
    }
}

/// Case-insensitive match of `s` against a lower-case word.
pub open spec fn matches_word_ci(s: Seq<char>, w: Seq<char>) -> bool {
    s.len() == w.len() && forall|i: int| 0 <= i < s.len() ==> lower_char(s[i]) == w[i]
}

/// Whether `s` (sign already removed) is one of the non-finite words the
/// float grammar admits.
pub open spec fn is_inf_nan(s: Seq<char>) -> bool {
    matches_word_ci(s, "inf"@) || matches_word_ci(s, "infinity"@) || matches_word_ci(s, "nan"@)
}

/// Whether `m` is a mantissa: digits with at most one dot and at least one
/// digit overall.
pub open spec fn is_mantissa(m: Seq<char>) -> bool {
    let dot = crate::text::spec_scan_to(m, 0, '.');
    if dot >= m.len() {
        m.len() >= 1 && all_digits(m)
    } else {
        let ip = m.subrange(0, dot);
        let fp = m.subrange(dot + 1, m.len() as int);
        all_digits(ip) && all_digits(fp) && ip.len() + fp.len() >= 1
    }
}

/// Whether `t` (the part after `e`/`E`) is an exponent: an optional sign and
/// one or more digits.
pub open spec fn is_exponent(t: Seq<char>) -> bool {
    let ds = if t.len() > 0 && (t[0] == '+' || t[0] == '-') {
        t.drop_first()
    } else {
        t
    };
    ds.len() >= 1 && all_digits(ds)
}

/// Whether `s` (sign already removed) is a finite-number literal.
pub open spec fn is_number_body(s: Seq<char>) -> bool {
    let e = spec_scan_to_exp(s, 0);
    if e >= s.len() {
        is_mantissa(s)
    } else {
        is_mantissa(s.subrange(0, e)) && is_exponent(s.subrange(e + 1, s.len() as int))
    }
}

/// First position of `e` or `E` at or after `i`, or the end.
pub open spec fn spec_scan_to_exp(s: Seq<char>, i: int) -> int
    decreases s.len() - i,
{
    if i < 0 || i >= s.len() || s[i] == 'e' || s[i] == 'E' {
        i
    } else {
        spec_scan_to_exp(s, i + 1)
    }
}

/// The floating-point literal grammar: an optional sign, then `inf`,
/// `infinity` or `nan` in any case, or digits with at most one dot and an
/// optional exponent.
pub open spec fn is_float_literal(s: Seq<char>) -> bool {
    let body = if s.len() > 0 && (s[0] == '+' || s[0] == '-') {
        s.drop_first()
    } else {
        s
    };
    is_inf_nan(body) || is_number_body(body)
}

fn all_digits_range(v: &Vec<char>, a: usize, b: usize) -> (r: bool)
    requires
        a <= b <= v.len(),
    ensures
        r == all_digits(v@.subrange(a as int, b as int)),
{
    let ghost piece = v@.subrange(a as int, b as int);
    let mut k: usize = a;
    while k < b
        invariant
            a <= k <= b <= v.len(),
            piece == v@.subrange(a as int, b as int),
            forall|i: int| 0 <= i < k - a ==> is_digit_char(piece[i]),
        decreases b - k,
    {
        if !is_digit(v[k]) {
            assert(piece[k - a] == v@[k as int]);
            return false;
        }
        k = k + 1;
    }
    true
}

fn lower(c: char) -> (r: char)
    ensures
        r == lower_char(c),
{
    if c == 'A' {
        'a'
    } else if c == 'B' {
        'b'
    } else if c == 'C' {
        'c'
    } else if c == 'D' {
        'd'
    } else if c == 'E' {
        'e'
    } else if c == 'F' {
        'f'
    } else if c == 'I' {
        'i'
    } else if c == 'N' {
        'n'
    } else if c == 'T' {
        't'
    } else if c == 'Y' {
        'y'
    } else {
        c
    }
}

fn word_ci_range(v: &Vec<char>, a: usize, w: &str) -> (r: bool)
    requires
        a <= v.len(),
    ensures
        r == matches_word_ci(v@.subrange(a as int, v@.len() as int), w@),
{
    let ghost piece = v@.subrange(a as int, v@.len() as int);
    let n = w.unicode_len();
    if v.len() - a != n {
        return false;
    }
    let mut k: usize = 0;
    while k < n
        invariant
            0 <= k <= n,
            a + n == v.len(),
            n == w@.len(),
            piece == v@.subrange(a as int, v@.len() as int),
            forall|i: int| 0 <= i < k ==> lower_char(piece[i]) == w@[i],
        decreases n - k,
    {
        if lower(v[a + k]) != w.get_char(k) {
            assert(piece[k as int] == v@[a + k]);
            return false;
        }
        k = k + 1;
    }
    true
}

/// Whether the characters of `v` form a floating-point literal.
pub fn check_float_literal(v: &Vec<char>) -> (r: bool)
    ensures
        r == is_float_literal(v@),
{
    let mut a: usize = 0;
    if v.len() > 0 && (v[0] == '+' || v[0] == '-') {
        a = 1;
    }
    let ghost body = if a == 1 {
        v@.drop_first()
    } else {
        v@
    };
    proof {
        assert(body =~= v@.subrange(a as int, v@.len() as int));
    }
    if word_ci_range(v, a, "inf") || word_ci_range(v, a, "infinity") || word_ci_range(v, a, "nan") {
        return true;
    }
    // find the exponent marker
    let mut e: usize = a;
    while e < v.len() && v[e] != 'e' && v[e] != 'E'
        invariant
            a <= e <= v.len(),
            body == v@.subrange(a as int, v@.len() as int),
            spec_scan_to_exp(body, 0) == spec_scan_to_exp(body, e - a),
        decreases v.len() - e,
    {
        e = e + 1;
    }
    let mantissa_ok = mantissa_range(v, a, e);
    proof {
        assert(body.subrange(0, e - a) =~= v@.subrange(a as int, e as int));
    }
    if e >= v.len() {
        return mantissa_ok;
    }
    // exponent part
    let mut x: usize = e + 1;
    if x < v.len() && (v[x] == '+' || v[x] == '-') {
        x = x + 1;
    }
    let ghost expart = body.subrange(e - a + 1, body.len() as int);
    proof {
        assert(expart =~= v@.subrange(e + 1, v@.len() as int));
        assert(expart.len() > 0 ==> expart[0] == v@[e + 1]);
        if x == e + 2 {
            assert(expart.drop_first() =~= v@.subrange(x as int, v@.len() as int));
        }
    }
    let exp_ok = x < v.len() && all_digits_range(v, x, v.len());
    mantissa_ok && exp_ok
}

fn mantissa_range(v: &Vec<char>, a: usize, b: usize) -> (r: bool)
    requires
        a <= b <= v.len(),
    ensures
        r == is_mantissa(v@.subrange(a as int, b as int)),
{
    let ghost m = v@.subrange(a as int, b as int);
    let mut dot: usize = a;
    while dot < b && v[dot] != '.'
        invariant
            a <= dot <= b <= v.len(),
            m == v@.subrange(a as int, b as int),
            crate::text::spec_scan_to(m, 0, '.') == crate::text::spec_scan_to(m, dot - a, '.'),
        decreases b - dot,
    {
        dot = dot + 1;
    }
    if dot >= b {
        proof {
            crate::text::lemma_scan_to_bounds(m, dot - a, '.');
        }
        b - a >= 1 && all_digits_range(v, a, b)
    } else {
        proof {
            assert(m.subrange(0, dot - a) =~= v@.subrange(a as int, dot as int));
            assert(m.subrange(dot - a + 1, m.len() as int) =~= v@.subrange(dot + 1, b as int));
        }
        let ip = all_digits_range(v, a, dot);
        let fp = all_digits_range(v, dot + 1, b);
        ip && fp && b - a >= 2
    }
}

} // verus!
