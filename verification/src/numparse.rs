use vstd::prelude::*;
use crate::text::str_chars;
use crate::numbits::{spec_f64_as_i32, f64_bits_as_i32};

verus! {

/// Rust's `char::is_whitespace`: the Unicode `White_Space` characters.
pub open spec fn spec_is_whitespace(c: char) -> bool {
    ('\u{9}' <= c && c <= '\u{d}') || c == ' ' || c == '\u{85}' || c == '\u{a0}'
        || c == '\u{1680}' || ('\u{2000}' <= c && c <= '\u{200a}') || c == '\u{2028}'
        || c == '\u{2029}' || c == '\u{202f}' || c == '\u{205f}' || c == '\u{3000}'
}

/// Whether `c` is a whitespace character.
pub fn is_whitespace(c: char) -> (r: bool)
    ensures
        r == spec_is_whitespace(c),
{
    (c >= '\u{9}' && c <= '\u{d}') || c == ' ' || c == '\u{85}' || c == '\u{a0}'
        || c == '\u{1680}' || (c >= '\u{2000}' && c <= '\u{200a}') || c == '\u{2028}'
        || c == '\u{2029}' || c == '\u{202f}' || c == '\u{205f}' || c == '\u{3000}'
}

/// The number of whitespace characters at the start of `s`.
pub open spec fn leading_ws(s: Seq<char>) -> nat
    decreases s.len(),
{
    if s.len() > 0 && spec_is_whitespace(s[0]) {
        1 + leading_ws(s.drop_first())
    } else {
        0
    }
}

/// The number of whitespace characters at the end of `s`.
pub open spec fn trailing_ws(s: Seq<char>) -> nat
    decreases s.len(),
{
    if s.len() > 0 && spec_is_whitespace(s.last()) {
        1 + trailing_ws(s.drop_last())
    } else {
        0
    }
}

/// `s` without its leading and trailing whitespace (Rust's `str::trim`).
pub open spec fn spec_trim(s: Seq<char>) -> Seq<char> {
    let t = s.skip(leading_ws(s) as int);
    t.take(t.len() - trailing_ws(t))
}

proof fn lemma_leading_ws_bound(s: Seq<char>)
    ensures
        leading_ws(s) <= s.len(),
        leading_ws(s) < s.len() ==> !spec_is_whitespace(s[leading_ws(s) as int]),
    decreases s.len(),
{
    if s.len() > 0 && spec_is_whitespace(s[0]) {
        lemma_leading_ws_bound(s.drop_first());
    }
}

proof fn lemma_trailing_ws_bound(s: Seq<char>)
    ensures
        trailing_ws(s) <= s.len(),
    decreases s.len(),
{
    if s.len() > 0 && spec_is_whitespace(s.last()) {
        lemma_trailing_ws_bound(s.drop_last());
    }
}

/// The characters of `s` without leading and trailing whitespace.
pub fn trim_chars(s: &Vec<char>) -> (r: Vec<char>)
    ensures
        r@ == spec_trim(s@),
{
    let n = s.len();
    let mut a: usize = 0;
    proof {
        lemma_leading_ws_bound(s@);
        assert(s@.skip(0) =~= s@);
    }
    while a < n && is_whitespace(s[a])
        invariant
            a <= n,
            n == s@.len(),
            leading_ws(s@.skip(a as int)) + a == leading_ws(s@),
        decreases n - a,
    {
        assert(s@.skip(a as int).drop_first() =~= s@.skip(a as int + 1));
        a = a + 1;
    }
    assert(leading_ws(s@) == a) by {
        if a < n {
            assert(s@.skip(a as int)[0] == s@[a as int]);
        }
    }
    let ghost t = s@.skip(a as int);
    let mut b: usize = n;
    proof {
        assert(t.take(t.len() as int) =~= t);
        lemma_trailing_ws_bound(t);
    }
    while b > a && is_whitespace(s[b - 1])
        invariant
            a <= b <= n,
            n == s@.len(),
            t == s@.skip(a as int),
            trailing_ws(t.take(b - a)) + (n - b) == trailing_ws(t),
        decreases b,
    {
        assert(t.take(b - a).drop_last() =~= t.take(b - 1 - a));
        assert(t.take(b - a).last() == s@[b - 1]);
        b = b - 1;
    }
    assert(trailing_ws(t) == n - b) by {
        if b > a {
            assert(t.take(b - a).last() == s@[b - 1]);
        }
    }
    let mut r: Vec<char> = Vec::new();
    let mut k = a;
    while k < b
        invariant
            a <= k <= b <= n,
            n == s@.len(),
            r@ == s@.subrange(a as int, k as int),
        decreases b - k,
    {
        r.push(s[k]);
        assert(s@.subrange(a as int, k + 1) =~= s@.subrange(a as int, k as int).push(s@[k as int]));
        k = k + 1;
    }
    assert(r@ =~= spec_trim(s@));
    r
}

/// The value of a letter-or-digit in bases up to 36: `0`-`9`, then `a`-`z` (or `A`-`Z`) for 10-35.
pub open spec fn spec_digit_value(c: char) -> Option<u32> {
    if '0' <= c && c <= '9' {
        Some(((c as u32) - 48) as u32)
    } else if 'a' <= c && c <= 'z' {
        Some(((c as u32) - 97 + 10) as u32)
    } else if 'A' <= c && c <= 'Z' {
        Some(((c as u32) - 65 + 10) as u32)
    } else {
        None
    }
}

fn digit_value(c: char) -> (r: Option<u32>)
    ensures
        r == spec_digit_value(c),
{
    if c >= '0' && c <= '9' {
        Some((c as u32) - 48)
    } else if c >= 'a' && c <= 'z' {
        Some((c as u32) - 97 + 10)
    } else if c >= 'A' && c <= 'Z' {
        Some((c as u32) - 65 + 10)
    } else {
        None
    }
}

/// The longest run of digits valid in `radix` at the start of `s`, as digit values.
pub open spec fn digit_run(s: Seq<char>, radix: int) -> Seq<u32>
    decreases s.len(),
{
    if s.len() == 0 {
        seq![]
    } else {
        match spec_digit_value(s[0]) {
            Some(d) => if (d as int) < radix {
                seq![d] + digit_run(s.drop_first(), radix)
            } else {
                seq![]
            },
            None => seq![],
        }
    }
}

/// Whether `s` starts with `0x` or `0X`.
pub open spec fn starts_with_hex_prefix(s: Seq<char>) -> bool {
    s.len() >= 2 && s[0] == '0' && (s[1] == 'x' || s[1] == 'X')
}

/// The radix that `parseInt` uses: the second argument's number (given by its bits) cast to
/// `i32` when there is one (10 when it converts to no number), else 16 for text starting
/// with `0x`/`0X` and 10 otherwise.
pub open spec fn spec_parse_int_radix(input: Seq<char>, radix_arg: Option<Option<u64>>) -> int {
    match radix_arg {
        Some(Some(b)) => spec_f64_as_i32(b) as int,
        Some(None) => 10,
        None => if starts_with_hex_prefix(input) {
            16
        } else {
            10
        },
    }
}

/// The text after the optional base prefix: `0x`/`0X` in base 16, a leading `0` in base 8.
pub open spec fn strip_radix_prefix(t: Seq<char>, radix: int) -> Seq<char> {
    if radix == 16 {
        if starts_with_hex_prefix(t) {
            t.skip(2)
        } else {
            t
        }
    } else if radix == 8 && t.len() >= 1 && t[0] == '0' {
        t.skip(1)
    } else {
        t
    }
}

/// What `parseInt` reads: `None` for NaN, else the sign (true for `-`), the radix and the
/// digit values, most significant first. Its number is the digits read in that radix, negated
/// for a `-` sign.
pub open spec fn spec_parse_int(input: Option<Seq<char>>, radix_arg: Option<Option<u64>>) -> Option<
    (bool, int, Seq<u32>),
> {
    match input {
        None => None,
        Some(s) => {
            let radix = spec_parse_int_radix(s, radix_arg);
            if radix < 2 || radix > 36 {
                None
            } else {
                let p = strip_radix_prefix(spec_trim(s), radix);
                let negative = p.len() > 0 && p[0] == '-';
                let body = if p.len() > 0 && (p[0] == '-' || p[0] == '+') {
                    p.skip(1)
                } else {
                    p
                };
                let digits = digit_run(body, radix);
                if digits.len() == 0 {
                    None
                } else {
                    Some((negative, radix, digits))
                }
            }
        },
    }
}

/// The outcome of `parseInt`: NaN, or a sign, a radix and the digits read in that radix.
pub enum ParsedInt {
    NaN,
    Digits { negative: bool, radix: u32, digits: Vec<u32> },
}

/// The outcome of `parseFloat`: NaN, or the sign, the digits before and after the decimal
/// point, and the exponent's sign and digits.
pub enum ParsedFloat {
    NaN,
    Number {
        negative: bool,
        int_digits: Vec<u32>,
        frac_digits: Vec<u32>,
        exp_negative: bool,
        exp_digits: Vec<u32>,
    },
}

fn chars_skip(s: &Vec<char>, k: usize) -> (r: Vec<char>)
    requires
        k <= s.len(),
    ensures
        r@ == s@.skip(k as int),
{
    let mut r: Vec<char> = Vec::new();
    let mut i = k;
    while i < s.len()
        invariant
            k <= i <= s.len(),
            r@ == s@.subrange(k as int, i as int),
        decreases s.len() - i,
    {
        r.push(s[i]);
        assert(s@.subrange(k as int, i + 1) =~= s@.subrange(k as int, i as int).push(s@[i as int]));
        i = i + 1;
    }
    assert(r@ =~= s@.skip(k as int));
    r
}

fn read_digit_run(s: &Vec<char>, radix: u32) -> (r: Vec<u32>)
    ensures
        r@ == digit_run(s@, radix as int),
{
    let mut r: Vec<u32> = Vec::new();
    let mut i: usize = 0;
    assert(s@.skip(0) =~= s@);
    while i < s.len()
        invariant
            i <= s.len(),
            r@ + digit_run(s@.skip(i as int), radix as int) == digit_run(s@, radix as int),
        decreases s.len() - i,
    {
        let ghost rest = s@.skip(i as int);
        assert(rest[0] == s@[i as int]);
        assert(rest.drop_first() =~= s@.skip(i + 1));
        match digit_value(s[i]) {
            Some(d) => {
                if d >= radix {
                    assert(r@ + Seq::<u32>::empty() =~= r@);
                    return r;
                }
                r.push(d);
                assert(r@ + digit_run(s@.skip(i + 1), radix as int) =~= r@.drop_last() + (seq![d] + digit_run(rest.drop_first(), radix as int)));
            },
            None => {
                assert(r@ + Seq::<u32>::empty() =~= r@);
                return r;
            },
        }
        i = i + 1;
    }
    assert(r@ + Seq::<u32>::empty() =~= r@);
    r
}

/// `parseInt(string, radix)`. `input` is the first argument as text (`None` when there is no
/// argument); `radix_arg` is `None` when there is no second argument, else the bits of that
/// argument's number (`None` when it converts to no number).
pub fn global_parse_int(input: Option<&str>, radix_arg: Option<Option<u64>>) -> (r: ParsedInt)
    ensures
        match (r, spec_parse_int(
            match input {
                Some(s) => Some(s@),
                None => None,
            },
            radix_arg,
        )) {
            (ParsedInt::NaN, None) => true,
            (ParsedInt::Digits { negative, radix, digits }, Some((n, rd, ds))) => negative == n
                && radix == rd && digits@ == ds,
            _ => false,
        },
{
    let s = match input {
        Some(s) => s,
        None => return ParsedInt::NaN,
    };
    let cs = str_chars(s);
    let radix: i32 = match radix_arg {
        Some(Some(b)) => f64_bits_as_i32(b),
        Some(None) => 10,
        None => if cs.len() >= 2 && cs[0] == '0' && (cs[1] == 'x' || cs[1] == 'X') {
            16
        } else {
            10
        },
    };
    if radix < 2 || radix > 36 {
        return ParsedInt::NaN;
    }
    let t = trim_chars(&cs);
    let p = if radix == 16 {
        if t.len() >= 2 && t[0] == '0' && (t[1] == 'x' || t[1] == 'X') {
            chars_skip(&t, 2)
        } else {
            t
        }
    } else if radix == 8 && t.len() >= 1 && t[0] == '0' {
        chars_skip(&t, 1)
    } else {
        t
    };
    let negative = p.len() > 0 && p[0] == '-';
    let body = if p.len() > 0 && (p[0] == '-' || p[0] == '+') {
        chars_skip(&p, 1)
    } else {
        p
    };
    let digits = read_digit_run(&body, radix as u32);
    if digits.len() == 0 {
        ParsedInt::NaN
    } else {
        ParsedInt::Digits { negative, radix: radix as u32, digits }
    }
}

} // verus!

verus! {

/// The state of the `parseFloat` scanner: the digits read so far in each part, the
/// exponent's sign, which part the scanner is in, and whether a nonzero exponent digit
/// has been read.
pub struct FloatScan {
    pub int_digits: Seq<u32>,
    pub frac_digits: Seq<u32>,
    pub exp_negative: bool,
    pub exp_digits: Seq<u32>,
    pub in_decimal: bool,
    pub in_exponent: bool,
    pub exp_nonzero: bool,
}

/// Whether the scanner has read any digit.
pub open spec fn scan_parsed_any(st: FloatScan) -> bool {
    st.int_digits.len() > 0 || st.frac_digits.len() > 0 || st.exp_digits.len() > 0
}

/// One step of the scanner on character `c`: `None` where the scan stops. A digit goes to
/// the exponent once an `e` was read, else to the fraction once a `.` was read, else to
/// the integer part; one `.` is taken before the exponent; one `e`/`E` after some digit;
/// a `-` or `+` in the exponent while no nonzero exponent digit was read sets its sign.
pub open spec fn float_step(st: FloatScan, c: char) -> Option<FloatScan> {
    if '0' <= c && c <= '9' {
        let d = ((c as u32) - 48) as u32;
        if st.in_exponent {
            Some(FloatScan { exp_digits: st.exp_digits.push(d), exp_nonzero: st.exp_nonzero || d != 0, ..st })
        } else if st.in_decimal {
            Some(FloatScan { frac_digits: st.frac_digits.push(d), ..st })
        } else {
            Some(FloatScan { int_digits: st.int_digits.push(d), ..st })
        }
    } else if c == '.' && !st.in_decimal && !st.in_exponent {
        Some(FloatScan { in_decimal: true, ..st })
    } else if (c == 'e' || c == 'E') && scan_parsed_any(st) && !st.in_exponent {
        Some(FloatScan { in_exponent: true, ..st })
    } else if c == '-' && st.in_exponent && !st.exp_nonzero {
        Some(FloatScan { exp_negative: true, ..st })
    } else if c == '+' && st.in_exponent && !st.exp_nonzero {
        Some(FloatScan { exp_negative: false, ..st })
    } else {
        None
    }
}

/// The scanner run over `s` from state `st` until a character stops it.
pub open spec fn float_scan(s: Seq<char>, st: FloatScan) -> FloatScan
    decreases s.len(),
{
    if s.len() == 0 {
        st
    } else {
        match float_step(st, s[0]) {
            Some(next) => float_scan(s.drop_first(), next),
            None => st,
        }
    }
}

/// The scanner before the first character.
pub open spec fn float_scan_start() -> FloatScan {
    FloatScan {
        int_digits: seq![],
        frac_digits: seq![],
        exp_negative: false,
        exp_digits: seq![],
        in_decimal: false,
        in_exponent: false,
        exp_nonzero: false,
    }
}

/// What `parseFloat` reads: `None` for NaN, else the sign (true for `-`) and the final state
/// of the scan of the trimmed text after its sign. Its number is
/// `±(int_digits . frac_digits) × 10^(±exp_digits)`.
pub open spec fn spec_parse_float(input: Option<Seq<char>>) -> Option<(bool, FloatScan)> {
    match input {
        None => None,
        Some(s) => {
            let t = spec_trim(s);
            let negative = t.len() > 0 && t[0] == '-';
            let body = if t.len() > 0 && (t[0] == '-' || t[0] == '+') {
                t.skip(1)
            } else {
                t
            };
            let st = float_scan(body, float_scan_start());
            if scan_parsed_any(st) {
                Some((negative, st))
            } else {
                None
            }
        },
    }
}

/// `parseFloat(string)`. `input` is the argument as text (`None` when there is no argument).
pub fn global_parse_float(input: Option<&str>) -> (r: ParsedFloat)
    ensures
        match (r, spec_parse_float(
            match input {
                Some(s) => Some(s@),
                None => None,
            },
        )) {
            (ParsedFloat::NaN, None) => true,
            (
                ParsedFloat::Number { negative, int_digits, frac_digits, exp_negative, exp_digits },
                Some((n, st)),
            ) => negative == n && int_digits@ == st.int_digits && frac_digits@ == st.frac_digits
                && exp_negative == st.exp_negative && exp_digits@ == st.exp_digits,
            _ => false,
        },
{
    let s = match input {
        Some(s) => s,
        None => return ParsedFloat::NaN,
    };
    let cs = str_chars(s);
    let t = trim_chars(&cs);
    let negative = t.len() > 0 && t[0] == '-';
    let body = if t.len() > 0 && (t[0] == '-' || t[0] == '+') {
        chars_skip(&t, 1)
    } else {
        t
    };
    let mut int_digits: Vec<u32> = Vec::new();
    let mut frac_digits: Vec<u32> = Vec::new();
    let mut exp_digits: Vec<u32> = Vec::new();
    let mut exp_negative = false;
    let mut in_decimal = false;
    let mut in_exponent = false;
    let mut exp_nonzero = false;
    let ghost target = float_scan(body@, float_scan_start());
    let mut i: usize = 0;
    assert(body@.skip(0) =~= body@);
    assert(int_digits@ =~= Seq::<u32>::empty());
    assert(frac_digits@ =~= Seq::<u32>::empty());
    assert(exp_digits@ =~= Seq::<u32>::empty());
    while i < body.len()
        invariant_except_break
            i <= body.len(),
            float_scan(
                body@.skip(i as int),
                FloatScan {
                    int_digits: int_digits@,
                    frac_digits: frac_digits@,
                    exp_negative,
                    exp_digits: exp_digits@,
                    in_decimal,
                    in_exponent,
                    exp_nonzero,
                },
            ) == target,
        ensures
            target == (FloatScan {
                int_digits: int_digits@,
                frac_digits: frac_digits@,
                exp_negative,
                exp_digits: exp_digits@,
                in_decimal,
                in_exponent,
                exp_nonzero,
            }),
        decreases body.len() - i,
    {
        let ghost rest = body@.skip(i as int);
        assert(rest[0] == body@[i as int]);
        assert(rest.drop_first() =~= body@.skip(i + 1));
        let c = body[i];
        let parsed_any = int_digits.len() > 0 || frac_digits.len() > 0 || exp_digits.len() > 0;
        if c >= '0' && c <= '9' {
            let d = (c as u32) - 48;
            if in_exponent {
                exp_digits.push(d);
                exp_nonzero = exp_nonzero || d != 0;
            } else if in_decimal {
                frac_digits.push(d);
            } else {
                int_digits.push(d);
            }
        } else if c == '.' && !in_decimal && !in_exponent {
            in_decimal = true;
        } else if (c == 'e' || c == 'E') && parsed_any && !in_exponent {
            in_exponent = true;
        } else if c == '-' && in_exponent && !exp_nonzero {
            exp_negative = true;
        } else if c == '+' && in_exponent && !exp_nonzero {
            exp_negative = false;
        } else {
            break;
        }
        i = i + 1;
    }
    if int_digits.len() > 0 || frac_digits.len() > 0 || exp_digits.len() > 0 {
        ParsedFloat::Number { negative, int_digits, frac_digits, exp_negative, exp_digits }
    } else {
        ParsedFloat::NaN
    }
}

} // verus!

verus! {

/// Every digit that a run in `radix` reads is below `radix`.
pub proof fn lemma_digit_run_below(s: Seq<char>, radix: int)
    ensures
        forall|i: int| 0 <= i < digit_run(s, radix).len() ==> (#[trigger] digit_run(s, radix)[i] as int) < radix,
    decreases s.len(),
{
    if s.len() > 0 {
        lemma_digit_run_below(s.drop_first(), radix);
        match spec_digit_value(s[0]) {
            Some(d) => {
                if (d as int) < radix {
                    let rest = digit_run(s.drop_first(), radix);
                    assert forall|i: int| 0 <= i < digit_run(s, radix).len() implies (#[trigger] digit_run(s, radix)[i] as int) < radix by {
                        if i > 0 {
                            assert(digit_run(s, radix)[i] == rest[i - 1]);
                        }
                    }
                }
            },
            None => {},
        }
    }
}

/// Law: what `parseInt` reads is a radix from 2 to 36 and at least one digit, each below the radix.
pub proof fn law_parse_int_digits(input: Option<Seq<char>>, radix_arg: Option<Option<u64>>)
    ensures
        spec_parse_int(input, radix_arg) matches Some((negative, radix, digits)) ==> {
            &&& 2 <= radix <= 36
            &&& digits.len() >= 1
            &&& forall|i: int| 0 <= i < digits.len() ==> (#[trigger] digits[i] as int) < radix
        },
{
    match input {
        Some(s) => {
            let radix = spec_parse_int_radix(s, radix_arg);
            let p = strip_radix_prefix(spec_trim(s), radix);
            let body = if p.len() > 0 && (p[0] == '-' || p[0] == '+') {
                p.skip(1)
            } else {
                p
            };
            lemma_digit_run_below(body, radix);
        },
        None => {},
    }
}

} // verus!

verus! {

proof fn lemma_trim_unchanged(x: Seq<char>)
    requires
        x.len() > 0,
        !spec_is_whitespace(x[0]),
        !spec_is_whitespace(x.last()),
    ensures
        spec_trim(x) == x,
{
    assert(leading_ws(x) == 0);
    assert(x.skip(0) =~= x);
    assert(trailing_ws(x) == 0);
    assert(x.take(x.len() as int) =~= x);
}

/// Law: for text `s` of digits valid in the radix given by the second argument (2 to 36),
/// not starting with `0`, `parseInt` reads the same digits from `s`, `+s` and `-s`, with the
/// sign of the last one negative (so `parseInt("-" + s, r)` is `-parseInt(s, r)`).
pub proof fn law_parse_int_sign(s: Seq<char>, b: u64)
    requires
        2 <= spec_f64_as_i32(b) <= 36,
        s.len() > 0,
        s[0] != '0',
        forall|i: int| 0 <= i < s.len() ==> ((#[trigger] spec_digit_value(s[i])) matches Some(d)
            && (d as int) < spec_f64_as_i32(b)),
    ensures
        spec_parse_int(Some(s), Some(Some(b))) == Some((false, spec_f64_as_i32(b) as int, digit_run(s, spec_f64_as_i32(b) as int))),
        spec_parse_int(Some(seq!['-'] + s), Some(Some(b))) == Some((true, spec_f64_as_i32(b) as int, digit_run(s, spec_f64_as_i32(b) as int))),
        spec_parse_int(Some(seq!['+'] + s), Some(Some(b))) == Some((false, spec_f64_as_i32(b) as int, digit_run(s, spec_f64_as_i32(b) as int))),
        digit_run(s, spec_f64_as_i32(b) as int).len() == s.len(),
{
    let r = spec_f64_as_i32(b) as int;
    assert(spec_digit_value(s[0]) is Some);
    assert(spec_digit_value(s.last()) is Some) by {
        assert(spec_digit_value(s[s.len() - 1]) is Some);
    }
    lemma_digit_run_full(s, r);
    lemma_trim_unchanged(s);
    let m = seq!['-'] + s;
    let q = seq!['+'] + s;
    assert(m.last() == s.last());
    assert(q.last() == s.last());
    lemma_trim_unchanged(m);
    lemma_trim_unchanged(q);
    assert(m.skip(1) =~= s);
    assert(q.skip(1) =~= s);
}

proof fn lemma_digit_run_full(s: Seq<char>, radix: int)
    requires
        forall|i: int| 0 <= i < s.len() ==> ((#[trigger] spec_digit_value(s[i])) matches Some(d) && (d as int) < radix),
    ensures
        digit_run(s, radix).len() == s.len(),
    decreases s.len(),
{
    if s.len() > 0 {
        assert forall|i: int| 0 <= i < s.drop_first().len() implies ((#[trigger] spec_digit_value(s.drop_first()[i])) matches Some(d) && (d as int) < radix) by {
            assert(s.drop_first()[i] == s[i + 1]);
        }
        lemma_digit_run_full(s.drop_first(), radix);
        assert(spec_digit_value(s[0]) is Some);
    }
}

} // verus!

verus! {

/// The values of a text of decimal digits.
pub open spec fn decimal_digit_values(d: Seq<char>) -> Seq<u32> {
    Seq::new(d.len(), |i: int| ((d[i] as u32) - 48) as u32)
}

/// Whether every character of `d` is a decimal digit.
pub open spec fn all_decimal(d: Seq<char>) -> bool {
    forall|i: int| 0 <= i < d.len() ==> '0' <= #[trigger] d[i] && d[i] <= '9'
}

proof fn lemma_scan_fraction(d: Seq<char>, st: FloatScan)
    requires
        all_decimal(d),
        st.in_decimal,
        !st.in_exponent,
    ensures
        float_scan(d, st) == (FloatScan { frac_digits: st.frac_digits + decimal_digit_values(d), ..st }),
    decreases d.len(),
{
    if d.len() == 0 {
        assert(st.frac_digits + decimal_digit_values(d) =~= st.frac_digits);
    } else {
        let v = ((d[0] as u32) - 48) as u32;
        let next = FloatScan { frac_digits: st.frac_digits.push(v), ..st };
        assert(float_step(st, d[0]) == Some(next));
        let rest = d.drop_first();
        assert(all_decimal(rest)) by {
            assert forall|i: int| 0 <= i < rest.len() implies '0' <= #[trigger] rest[i] && rest[i] <= '9' by {
                assert(rest[i] == d[i + 1]);
            }
        }
        lemma_scan_fraction(rest, next);
        assert(st.frac_digits.push(v) + decimal_digit_values(rest) =~= st.frac_digits + decimal_digit_values(d));
    }
}

/// Law: a decimal point before any digit starts the fraction: for every non-empty text `d`
/// of decimal digits, `parseFloat("." + d)` reads a positive number with no integer digits,
/// the fraction digits of `d` and no exponent.
pub proof fn law_parse_float_leading_point(d: Seq<char>)
    requires
        d.len() > 0,
        all_decimal(d),
    ensures
        spec_parse_float(Some(seq!['.'] + d)) matches Some((negative, st)) && {
            &&& !negative
            &&& st.int_digits.len() == 0
            &&& st.frac_digits == decimal_digit_values(d)
            &&& st.exp_digits.len() == 0
        },
{
    let t = seq!['.'] + d;
    assert(t.last() == d.last());
    assert(t.last() == d[d.len() - 1]);
    lemma_trim_unchanged(t);
    let s0 = float_scan_start();
    let s1 = FloatScan { in_decimal: true, ..s0 };
    assert(float_step(s0, '.') == Some(s1));
    assert(t[0] == '.');
    assert(t.drop_first() =~= d);
    lemma_scan_fraction(d, s1);
    assert(s1.frac_digits + decimal_digit_values(d) =~= decimal_digit_values(d));
}

/// Law: `parseInt` stops reading at the first character that is no digit of the radix: for
/// any texts `s` and `t` and such a character `c`, reading `s + c + t` gives the digits that
/// reading `s` gives.
pub proof fn law_digit_run_stops(s: Seq<char>, c: char, t: Seq<char>, radix: int)
    requires
        !(spec_digit_value(c) matches Some(d) && (d as int) < radix),
    ensures
        digit_run(s + seq![c] + t, radix) == digit_run(s, radix),
    decreases s.len(),
{
    let x = s + seq![c] + t;
    if s.len() == 0 {
        assert(x[0] == c);
        assert(digit_run(s, radix) == Seq::<u32>::empty());
    } else {
        assert(x[0] == s[0]);
        assert(x.drop_first() =~= s.drop_first() + seq![c] + t);
        law_digit_run_stops(s.drop_first(), c, t, radix);
    }
}

} // verus!
