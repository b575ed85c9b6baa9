//! Decimal numbers in the textual form
//! `[+|-]digits[.digits][(e|E)[+|-]digits]`, read exactly as a sign, a
//! string of mantissa digits and a power of ten.

use vstd::prelude::*;

verus! {

/// Fixed-point units per whole: one dollar, one share, or 100% of a ratio.
pub const UNIT: i64 = 1_000_000;

pub open spec fn is_digit(c: char) -> bool {
    '0' <= c && c <= '9'
}

pub open spec fn digit_value(c: char) -> int {
    (c as u32) as int - ('0' as u32) as int
}

pub open spec fn all_digits(s: Seq<char>) -> bool {
    forall|i: int| 0 <= i < s.len() ==> is_digit(#[trigger] s[i])
}

/// Value of a run of decimal digits, most significant first.
pub open spec fn digits_value(s: Seq<char>) -> int
    decreases s.len(),
{
    if s.len() == 0 {
        0
    } else {
        digits_value(s.drop_last()) * 10 + digit_value(s.last())
    }
}

/// Number of decimal digits at the start of `s`.
pub open spec fn leading_digits(s: Seq<char>) -> nat
    decreases s.len(),
{
    if s.len() == 0 || !is_digit(s[0]) {
        0
    } else {
        1 + leading_digits(s.drop_first())
    }
}

/// Largest exponent magnitude read.
pub const MAX_EXPONENT: i64 = 1_000_000_000_000;

/// Exact value of a decimal: `±digits × 10^scale`.
pub struct DecimalParts {
    pub negative: bool,
    pub digits: Seq<char>,
    pub scale: int,
}

/// Value of an exponent suffix `(e|E)[+|-]digits`, zero where there is none.
pub open spec fn exponent_value(t: Seq<char>) -> Option<int> {
    if t.len() == 0 {
        Some(0)
    } else if t[0] == 'e' || t[0] == 'E' {
        let x = t.skip(1);
        let signed = x.len() > 0 && (x[0] == '-' || x[0] == '+');
        let e = if signed { x.skip(1) } else { x };
        if e.len() > 0 && all_digits(e) && digits_value(e) <= MAX_EXPONENT {
            Some(if x.len() > 0 && x[0] == '-' { -digits_value(e) } else { digits_value(e) })
        } else {
            None
        }
    } else {
        None
    }
}

/// Mantissa digits and scale of an unsigned decimal with at least one digit.
pub open spec fn unsigned_parts(b: Seq<char>) -> Option<(Seq<char>, int)> {
    let i = leading_digits(b) as int;
    let after = b.skip(i);
    let dot = after.len() > 0 && after[0] == '.';
    let fs = if dot { after.skip(1) } else { Seq::<char>::empty() };
    let f = leading_digits(fs) as int;
    let tail = if dot { fs.skip(f) } else { after };
    if i + f == 0 {
        None
    } else {
        match exponent_value(tail) {
            Some(e) => Some((b.take(i) + fs.take(f), e - f)),
            None => None,
        }
    }
}

/// The exact value of a decimal text, or `None` where the text is not one.
pub open spec fn decimal_parts(s: Seq<char>) -> Option<DecimalParts> {
    let signed = s.len() > 0 && (s[0] == '-' || s[0] == '+');
    let body = if signed { s.drop_first() } else { s };
    match unsigned_parts(body) {
        Some((digits, scale)) => Some(
            DecimalParts { negative: s.len() > 0 && s[0] == '-', digits, scale },
        ),
        None => None,
    }
}

/// A decimal read from text.
pub struct Decimal {
    pub negative: bool,
    pub digits: Vec<char>,
    pub scale: i128,
}

impl View for Decimal {
    type V = DecimalParts;

    open spec fn view(&self) -> DecimalParts {
        DecimalParts { negative: self.negative, digits: self.digits@, scale: self.scale as int }
    }
}

proof fn lemma_digits_nonneg(s: Seq<char>)
    requires
        all_digits(s),
    ensures
        digits_value(s) >= 0,
    decreases s.len(),
{
    if s.len() > 0 {
        lemma_digits_nonneg(s.drop_last());
    }
}

proof fn lemma_digits_prefix_le(s: Seq<char>, k: int)
    requires
        all_digits(s),
        0 <= k <= s.len(),
    ensures
        digits_value(s.take(k)) <= digits_value(s),
    decreases s.len(),
{
    if k < s.len() {
        let d = s.drop_last();
        lemma_digits_prefix_le(d, k);
        lemma_digits_nonneg(d);
        assert(d.take(k) =~= s.take(k));
    } else {
        assert(s.take(k) =~= s);
    }
}

proof fn lemma_leading_digits(s: Seq<char>, i: int)
    requires
        0 <= i <= s.len(),
        all_digits(s.take(i)),
        i == s.len() || !is_digit(s[i]),
    ensures
        leading_digits(s) == i,
    decreases i,
{
    if i > 0 {
        let t = s.drop_first();
        assert(is_digit(s.take(i)[0]));
        assert forall|j: int| 0 <= j < i - 1 implies is_digit(#[trigger] t.take(i - 1)[j]) by {
            assert(s.take(i)[j + 1] == t.take(i - 1)[j]);
        }
        lemma_leading_digits(t, i - 1);
    }
}

fn digit_of(c: char) -> (d: u32)
    requires
        is_digit(c),
    ensures
        d as int == digit_value(c),
        d < 10,
{
    (c as u32) - ('0' as u32)
}

/// Appends the run of digits that starts at `from` and returns where it ends.
fn scan_digits(s: &str, from: usize, n: usize, digits: &mut Vec<char>) -> (r: usize)
    requires
        n == s@.len(),
        from <= n,
    ensures
        r == from + leading_digits(s@.skip(from as int)),
        r <= n,
        final(digits)@ == old(digits)@ + s@.skip(from as int).take(r - from),
        all_digits(s@.skip(from as int).take(r - from)),
{
    let ghost t = s@.skip(from as int);
    let mut i: usize = from;
    while i < n && is_digit_char(s.get_char(i))
        invariant
            n == s@.len(),
            from <= i <= n,
            t == s@.skip(from as int),
            all_digits(t.take(i - from)),
            digits@ == old(digits)@ + t.take(i - from),
        decreases n - i,
    {
        let c = s.get_char(i);
        assert(t.take(i - from + 1) =~= t.take(i - from).push(c));
        digits.push(c);
        assert(digits@ =~= old(digits)@ + t.take(i - from + 1));
        i = i + 1;
    }
    proof {
        lemma_leading_digits(t, i - from);
    }
    i
}

/// Reads the exponent suffix that starts at `from`.
#[verifier::loop_isolation(false)]
fn read_exponent(s: &str, from: usize, n: usize) -> (r: Option<i128>)
    requires
        n == s@.len(),
        from <= n,
    ensures
        match r {
            Some(e) => exponent_value(s@.skip(from as int)) == Some(e as int),
            None => exponent_value(s@.skip(from as int)) is None,
        },
        r matches Some(e) ==> -MAX_EXPONENT <= e <= MAX_EXPONENT,
{
    let ghost t = s@.skip(from as int);
    if from == n {
        return Some(0);
    }
    let c = s.get_char(from);
    assert(c == t[0]);
    if c != 'e' && c != 'E' {
        return None;
    }
    let mut i = from + 1;
    let mut negative = false;
    let ghost x = t.skip(1);
    assert(x =~= s@.skip(i as int));
    if i < n {
        let c1 = s.get_char(i);
        assert(c1 == x[0]);
        if c1 == '-' {
            negative = true;
            i = i + 1;
        } else if c1 == '+' {
            i = i + 1;
        }
    }
    let ghost e = s@.skip(i as int);
    assert(e =~= (if x.len() > 0 && (x[0] == '-' || x[0] == '+') { x.skip(1) } else { x }));
    if i == n {
        return None;
    }
    let start = i;
    let mut value: i128 = 0;
    while i < n
        invariant
            n == s@.len(),
            start <= i <= n,
            e == s@.skip(start as int),
            all_digits(e.take(i - start)),
            value == digits_value(e.take(i - start)),
            0 <= value <= MAX_EXPONENT,
        decreases n - i,
    {
        let c = s.get_char(i);
        assert(c == e[i - start]);
        if !is_digit_char(c) {
            assert(!all_digits(e));
            return None;
        }
        let d = digit_of(c);
        assert(e.take(i - start + 1).drop_last() =~= e.take(i - start));
        assert(e.take(i - start + 1) =~= e.take(i - start).push(c));
        value = value * 10 + d as i128;
        i = i + 1;
        if value > MAX_EXPONENT as i128 {
            proof {
                assert(all_digits(e.take(i - start)));
                if all_digits(e) {
                    lemma_digits_prefix_le(e, i - start);
                }
            }
            return None;
        }
    }
    assert(e.take(i - start) =~= e);
    if negative {
        Some(-value)
    } else {
        Some(value)
    }
}

/// Reads a decimal text exactly, such as `"0.95"`, `"-12"`, `".5"` or `"1e-7"`.
#[verifier::rlimit(60)]
pub fn parse_decimal(s: &str) -> (r: Option<Decimal>)
    ensures
        match r {
            Some(d) => decimal_parts(s@) == Some(d@) && all_digits(d@.digits),
            None => decimal_parts(s@) is None,
        },
        r matches Some(d) ==> -0x1_0000_0000_0000_0000_0000_0000 <= d.scale <= 0x1_0000_0000_0000_0000_0000_0000,
{
    let n = s.unicode_len();
    let mut start: usize = 0;
    let mut negative = false;
    if n > 0 {
        let c0 = s.get_char(0);
        if c0 == '-' {
            negative = true;
            start = 1;
        } else if c0 == '+' {
            start = 1;
        }
    }
    let ghost b = if start == 1 { s@.drop_first() } else { s@ };
    assert(b =~= s@.skip(start as int));
    let mut digits: Vec<char> = Vec::new();
    let i = scan_digits(s, start, n, &mut digits);
    let int_len = i - start;
    assert(digits@ =~= b.take(int_len as int));
    let ghost after = b.skip(int_len as int);
    assert(after =~= s@.skip(i as int));
    let mut frac_len: usize = 0;
    let mut tail_start = i;
    let dot = i < n && s.get_char(i) == '.';
    assert(dot == (after.len() > 0 && after[0] == '.'));
    let ghost fs = if dot { after.skip(1) } else { Seq::<char>::empty() };
    if dot {
        assert(fs =~= s@.skip(i + 1));
        let j = scan_digits(s, i + 1, n, &mut digits);
        frac_len = j - (i + 1);
        tail_start = j;
        assert(fs.skip(frac_len as int) =~= s@.skip(j as int));
    } else {
        assert(fs.take(0) =~= Seq::<char>::empty());
    }
    assert(digits@ =~= b.take(int_len as int) + fs.take(frac_len as int));
    assert(all_digits(digits@)) by {
        assert forall|k: int| 0 <= k < digits@.len() implies is_digit(#[trigger] digits@[k]) by {
            if k < int_len {
                assert(digits@[k] == b.take(int_len as int)[k]);
            } else {
                assert(digits@[k] == fs.take(frac_len as int)[k - int_len]);
            }
        }
    }
    if int_len == 0 && frac_len == 0 {
        return None;
    }
    match read_exponent(s, tail_start, n) {
        Some(e) => {
            let d = Decimal { negative, digits, scale: e - frac_len as i128 };
            Some(d)
        },
        None => None,
    }
}

/// Millionths in a decimal, truncated toward zero, where they fit in an `i64`.
pub open spec fn parts_units(p: DecimalParts) -> Option<int> {
    let n = digits_value(p.digits);
    let m = if p.scale + 6 >= 0 {
        n * ten_pow((p.scale + 6) as nat)
    } else {
        n / ten_pow((-(p.scale + 6)) as nat)
    };
    if m <= i64::MAX {
        Some(if p.negative { -m } else { m })
    } else {
        None
    }
}

/// Millionths in a decimal text, where it is one and they fit in an `i64`.
pub open spec fn decimal_units(s: Seq<char>) -> Option<int> {
    match decimal_parts(s) {
        Some(p) => parts_units(p),
        None => None,
    }
}

proof fn lemma_ten_pow_pos(k: nat)
    ensures
        ten_pow(k) >= 1,
    decreases k,
{
    if k > 0 {
        lemma_ten_pow_pos((k - 1) as nat);
    }
}

proof fn lemma_ten_pow_mono(a: nat, b: nat)
    requires
        a <= b,
    ensures
        ten_pow(a) <= ten_pow(b),
    decreases b,
{
    if a < b {
        lemma_ten_pow_mono(a, (b - 1) as nat);
        lemma_ten_pow_pos((b - 1) as nat);
    }
}

proof fn lemma_ten_pow_add(a: nat, b: nat)
    ensures
        ten_pow(a + b) == ten_pow(a) * ten_pow(b),
    decreases b,
{
    if b > 0 {
        lemma_ten_pow_add(a, (b - 1) as nat);
        assert(ten_pow(a + b) == ten_pow((a + b - 1) as nat) * 10);
        assert(ten_pow(a) * ten_pow((b - 1) as nat) * 10 == ten_pow(a) * (ten_pow((b - 1) as nat) * 10))
            by (nonlinear_arith);
    }
}

/// Digits split into a head and a tail of `b.len()` digits.
proof fn lemma_digits_split(a: Seq<char>, b: Seq<char>)
    ensures
        digits_value(a + b) == digits_value(a) * ten_pow(b.len()) + digits_value(b),
    decreases b.len(),
{
    if b.len() == 0 {
        assert(a + b =~= a);
    } else {
        let b0 = b.drop_last();
        lemma_digits_split(a, b0);
        assert((a + b).drop_last() =~= a + b0);
        assert((a + b).last() == b.last());
        let x = digits_value(a);
        let p = ten_pow(b0.len());
        assert((x * p + digits_value(b0)) * 10 + digit_value(b.last()) == x * (p * 10) + (digits_value(b0) * 10
            + digit_value(b.last()))) by (nonlinear_arith);
    }
}

proof fn lemma_digits_bound(s: Seq<char>)
    requires
        all_digits(s),
    ensures
        0 <= digits_value(s) < ten_pow(s.len()),
    decreases s.len(),
{
    if s.len() > 0 {
        let t = s.drop_last();
        lemma_digits_bound(t);
        assert(is_digit(s[s.len() - 1]));
    }
}

/// Value of the first `k` digits, where it is at most `i64::MAX`.
fn prefix_value(digits: &Vec<char>, k: usize) -> (r: Option<i128>)
    requires
        all_digits(digits@),
        k <= digits@.len(),
    ensures
        match r {
            Some(v) => v == digits_value(digits@.take(k as int)) && v <= i64::MAX,
            None => digits_value(digits@.take(k as int)) > i64::MAX,
        },
{
    let ghost t = digits@.take(k as int);
    let mut v: i128 = 0;
    let mut i: usize = 0;
    assert(t.take(0) =~= Seq::<char>::empty());
    while i < k
        invariant
            k <= digits@.len(),
            t == digits@.take(k as int),
            all_digits(digits@),
            i <= k,
            v == digits_value(t.take(i as int)),
            0 <= v <= i64::MAX,
        decreases k - i,
    {
        let c = digits[i];
        assert(is_digit(digits@[i as int]));
        assert(t.take(i + 1).drop_last() =~= t.take(i as int));
        assert(t.take(i + 1).last() == c);
        v = v * 10 + digit_of(c) as i128;
        i = i + 1;
        if v > i64::MAX as i128 {
            proof {
                assert(all_digits(t));
                lemma_digits_prefix_le(t, i as int);
            }
            return None;
        }
    }
    assert(t.take(k as int) =~= t);
    Some(v)
}

/// Millionths of a decimal, truncated toward zero, where they fit.
pub fn units_of(d: &Decimal) -> (r: Option<i64>)
    requires
        all_digits(d@.digits),
        -0x1_0000_0000_0000_0000_0000_0000 <= d.scale <= 0x1_0000_0000_0000_0000_0000_0000,
    ensures
        match r {
            Some(v) => parts_units(d@) == Some(v as int),
            None => parts_units(d@) is None,
        },
{
    let ghost ds = d.digits@;
    let ghost n = digits_value(ds);
    let len = d.digits.len();
    let q: i128 = len as i128 + d.scale + 6;
    proof {
        lemma_digits_bound(ds);
        assert(ds.take(len as int) =~= ds);
    }
    let m: i128 = if q <= 0 {
        proof {
            let e = (-(d.scale + 6)) as nat;
            lemma_ten_pow_mono(len as nat, e);
            vstd::arithmetic::div_mod::lemma_basic_div(n, ten_pow(e));
        }
        0
    } else if q <= len as i128 {
        let k = q as usize;
        proof {
            let head = ds.take(k as int);
            let tail = ds.skip(k as int);
            assert(head + tail =~= ds);
            lemma_digits_split(head, tail);
            assert(all_digits(tail)) by {
                assert forall|j: int| 0 <= j < tail.len() implies is_digit(#[trigger] tail[j]) by {
                    assert(tail[j] == ds[j + k]);
                }
            }
            lemma_digits_bound(tail);
            let p = ten_pow(tail.len());
            assert(tail.len() == (-(d.scale + 6)) as nat);
            vstd::arithmetic::div_mod::lemma_fundamental_div_mod_converse(
                n,
                p,
                digits_value(head),
                digits_value(tail),
            );
        }
        match prefix_value(&d.digits, k) {
            Some(v) => v,
            None => return None,
        }
    } else {
        let base = match prefix_value(&d.digits, len) {
            Some(v) => v,
            None => {
                proof {
                    lemma_ten_pow_pos((d.scale + 6) as nat);
                    assert(n * ten_pow((d.scale + 6) as nat) >= n) by (nonlinear_arith)
                        requires
                            n >= 0,
                            ten_pow((d.scale + 6) as nat) >= 1,
                    ;
                }
                return None;
            },
        };
        let steps = q - len as i128;
        let mut v = base;
        let mut i: i128 = 0;
        while i < steps
            invariant
                0 <= i <= steps,
                steps == d.scale + 6,
                ds == d.digits@,
                n == digits_value(ds),
                n >= 0,
                v == n * ten_pow(i as nat),
                0 <= v <= i64::MAX,
            decreases steps - i,
        {
            proof {
                lemma_ten_pow_pos(i as nat);
            }
            if v == 0 {
                proof {
                    assert(n == 0) by (nonlinear_arith)
                        requires
                            n * ten_pow(i as nat) == 0,
                            ten_pow(i as nat) >= 1,
                    ;
                    assert(0 * ten_pow(steps as nat) == 0);
                }
                i = steps;
            } else {
                if v > i64::MAX as i128 / 10 {
                    proof {
                        let rest = (steps - i - 1) as nat;
                        lemma_ten_pow_add((i + 1) as nat, rest);
                        lemma_ten_pow_pos(rest);
                        assert(ten_pow((i + 1) as nat) == ten_pow(i as nat) * 10);
                        assert(n * ten_pow(steps as nat) >= v * 10) by (nonlinear_arith)
                            requires
                                v == n * ten_pow(i as nat),
                                ten_pow(steps as nat) == ten_pow((i + 1) as nat) * ten_pow(rest),
                                ten_pow((i + 1) as nat) == ten_pow(i as nat) * 10,
                                ten_pow(rest) >= 1,
                                n >= 0,
                                ten_pow(i as nat) >= 1,
                        ;
                    }
                    assert(v * 10 > i64::MAX);
                    assert(n * ten_pow((d.scale + 6) as nat) > i64::MAX);
                    return None;
                }
                proof {
                    assert(ten_pow((i + 1) as nat) == ten_pow(i as nat) * 10);
                    assert(v * 10 == n * ten_pow((i + 1) as nat)) by (nonlinear_arith)
                        requires
                            v == n * ten_pow(i as nat),
                            ten_pow((i + 1) as nat) == ten_pow(i as nat) * 10,
                    ;
                }
                v = v * 10;
                i = i + 1;
            }
        }
        v
    };
    if d.negative {
        Some(-(m as i64))
    } else {
        Some(m as i64)
    }
}

/// Reads a decimal text as millionths, truncated toward zero.
pub fn parse_units(s: &str) -> (r: Option<i64>)
    ensures
        match r {
            Some(v) => decimal_units(s@) == Some(v as int),
            None => decimal_units(s@) is None,
        },
{
    match parse_decimal(s) {
        Some(d) => units_of(&d),
        None => None,
    }
}

/// The decimal's exact value is above 9/10.
pub open spec fn exceeds_nine_tenths(p: DecimalParts) -> bool {
    let n = digits_value(p.digits);
    !p.negative && if p.scale >= 0 {
        10 * n * ten_pow(p.scale as nat) > 9
    } else {
        10 * n > 9 * ten_pow((-p.scale) as nat)
    }
}

proof fn lemma_all_digits_skip(s: Seq<char>, k: int)
    requires
        all_digits(s),
        0 <= k <= s.len(),
    ensures
        all_digits(s.skip(k)),
        all_digits(s.take(k)),
{
    assert forall|j: int| 0 <= j < s.skip(k).len() implies is_digit(#[trigger] s.skip(k)[j]) by {
        assert(s.skip(k)[j] == s[j + k]);
    }
    assert forall|j: int| 0 <= j < s.take(k).len() implies is_digit(#[trigger] s.take(k)[j]) by {
        assert(s.take(k)[j] == s[j]);
    }
}

/// Whether a decimal's exact value is above 9/10. Reads the position of
/// its first nonzero digit, so no power of ten is ever formed.
pub fn above_nine_tenths(d: &Decimal) -> (r: bool)
    requires
        all_digits(d@.digits),
        -0x1_0000_0000_0000_0000_0000_0000 <= d.scale <= 0x1_0000_0000_0000_0000_0000_0000,
    ensures
        r == exceeds_nine_tenths(d@),
{
    if d.negative {
        return false;
    }
    let len = d.digits.len();
    let ghost ds = d.digits@;
    let ghost n = digits_value(ds);
    let ghost s = d.scale as int;
    let mut k: usize = 0;
    assert(ds.take(0) =~= Seq::<char>::empty());
    while k < len && d.digits[k] == '0'
        invariant
            k <= len,
            len == ds.len(),
            ds == d.digits@,
            all_digits(ds),
            digits_value(ds.take(k as int)) == 0,
        decreases len - k,
    {
        assert(ds.take(k + 1).drop_last() =~= ds.take(k as int));
        k = k + 1;
    }
    if k == len {
        proof {
            assert(ds.take(len as int) =~= ds);
            assert(n == 0);
            lemma_ten_pow_pos((-s) as nat);
            if s >= 0 {
                assert(10 * n * ten_pow(s as nat) == 0) by (nonlinear_arith)
                    requires
                        n == 0,
                ;
            }
        }
        return false;
    }
    let first = digit_of(d.digits[k]);
    let m: usize = len - 1 - k;
    let ghost x = ds.skip(k as int);
    let ghost rest = x.skip(1);
    let ghost r0 = digits_value(rest);
    let ghost pm = ten_pow(m as nat);
    proof {
        assert(ds.take(k as int) + x =~= ds);
        lemma_digits_split(ds.take(k as int), x);
        lemma_all_digits_skip(ds, k as int);
        assert(x.take(1) + rest =~= x);
        lemma_digits_split(x.take(1), rest);
        assert(x.take(1).drop_last() =~= Seq::<char>::empty());
        assert(x.take(1).last() == ds[k as int]);
        lemma_all_digits_skip(x, 1);
        lemma_digits_bound(rest);
        assert(rest.len() == m);
        assert(first >= 1);
        assert(digits_value(x.take(1).drop_last()) == 0);
        assert(digit_value(x.take(1).last()) == first);
        assert(digits_value(x.take(1)) == first);
        assert(digits_value(x) == first * pm + r0);
        assert(digits_value(ds.take(k as int)) == 0);
        assert(0 * ten_pow(x.len()) == 0);
        assert(n == first * pm + r0);
        lemma_ten_pow_pos(m as nat);
    }
    let t: i128 = m as i128 + d.scale;
    if t >= 0 {
        proof {
            assert(n >= pm) by (nonlinear_arith)
                requires
                    n == first * pm + r0,
                    first >= 1,
                    r0 >= 0,
                    pm >= 1,
            ;
            if s >= 0 {
                lemma_ten_pow_pos(s as nat);
                assert(10 * n * ten_pow(s as nat) > 9) by (nonlinear_arith)
                    requires
                        n >= 1,
                        ten_pow(s as nat) >= 1,
                ;
            } else {
                lemma_ten_pow_mono((-s) as nat, m as nat);
                lemma_ten_pow_pos((-s) as nat);
            }
        }
        true
    } else if t <= -2 {
        proof {
            let e = (-s) as nat;
            lemma_ten_pow_mono((m + 1) as nat, (e - 1) as nat);
            assert(ten_pow((m + 1) as nat) == pm * 10);
            assert(ten_pow(e) == ten_pow((e - 1) as nat) * 10);
            assert(first * pm <= 9 * pm) by (nonlinear_arith)
                requires
                    first <= 9,
                    pm >= 1,
            ;
            assert(n < 10 * pm);
            lemma_ten_pow_pos(e);
            assert(10 * n <= 9 * ten_pow(e));
        }
        false
    } else {
        proof {
            assert(ten_pow((m + 1) as nat) == pm * 10);
            assert((-s) as nat == (m + 1) as nat);
        }
        if first != 9 {
            proof {
                assert(first * pm <= 8 * pm) by (nonlinear_arith)
                    requires
                        first <= 8,
                        pm >= 1,
                ;
                assert(10 * n <= 9 * (pm * 10));
            }
            return false;
        }
        let mut j: usize = k + 1;
        assert(rest.take(0) =~= Seq::<char>::empty());
        while j < len && d.digits[j] == '0'
            invariant
                k + 1 <= j <= len,
                len == ds.len(),
                ds == d.digits@,
                rest == ds.skip(k + 1),
                digits_value(rest.take(j - k - 1)) == 0,
            decreases len - j,
        {
            assert(rest[j - k - 1] == ds[j as int]);
            assert(rest.take(j - k).drop_last() =~= rest.take(j - k - 1));
            j = j + 1;
        }
        proof {
            assert(rest =~= ds.skip(k + 1));
            if j == len {
                assert(rest.take(j - k - 1) =~= rest);
                assert(10 * n <= 9 * (pm * 10)) by (nonlinear_arith)
                    requires
                        n == 9 * pm + r0,
                        r0 == 0,
                ;
            } else {
                let i = j - k - 1;
                assert(rest[i] == ds[j as int]);
                assert(rest.take(i + 1).drop_last() =~= rest.take(i));
                assert(rest.take(i + 1).last() == rest[i]);
                lemma_digits_prefix_le(rest, i + 1);
                assert(10 * n > 9 * (pm * 10)) by (nonlinear_arith)
                    requires
                        n == 9 * pm + r0,
                        r0 >= 1,
                ;
            }
        }
        j < len
    }
}

pub open spec fn ten_pow(k: nat) -> int
    decreases k,
{
    if k == 0 {
        1
    } else {
        ten_pow((k - 1) as nat) * 10
    }
}

fn is_digit_char(c: char) -> (r: bool)
    ensures
        r == is_digit(c),
{
    '0' <= c && c <= '9'
}

} // verus!
