//! Timestamps of the subtitle formats: `hh:mm:ss,mmm` (SRT) and
//! `hh:mm:ss.mmm` (WebVTT), from whole milliseconds.

use vstd::prelude::*;
use vstd::arithmetic::div_mod::lemma_fundamental_div_mod_converse;
use crate::srt::{
    decimal_value, digit_value, fields_from, find_sep_from, is_digit, is_number, is_time_sep,
    time_fields, timestamp_ms, SrtError,
};
use crate::decimal::{pow10, sig_digits};
use crate::number::{
    all_digits, classify, eq_no_case, first_from, frac_part, int_part, mantissa_part, number_exp,
    number_mant, number_ok, spec_field, split_sign, exponent_part, FieldClass,
};
use crate::timestamp::{
    any4, combine, field_scale, field_term, fields_scale, fields_total, is_inf, is_nan,
    spec_parse_time, SpecTime,
};
use crate::text::string_of;

verus! {

/// The decimal digit character for `d < 10`.
pub open spec fn digit_char(d: nat) -> char {
    if d == 0 {
        '0'
    } else if d == 1 {
        '1'
    } else if d == 2 {
        '2'
    } else if d == 3 {
        '3'
    } else if d == 4 {
        '4'
    } else if d == 5 {
        '5'
    } else if d == 6 {
        '6'
    } else if d == 7 {
        '7'
    } else if d == 8 {
        '8'
    } else {
        '9'
    }
}

/// The decimal representation of `n`, without leading zeros.
pub open spec fn decimal_digits(n: nat) -> Seq<char>
    decreases n,
{
    if n < 10 {
        seq![digit_char(n)]
    } else {
        decimal_digits(n / 10).push(digit_char(n % 10))
    }
}

/// `k` zero digits.
pub open spec fn zeros(k: nat) -> Seq<char> {
    Seq::new(k, |i: int| '0')
}

/// `n` in decimal, padded with leading zeros to at least `width` digits
/// (`format!("{n:0width$}")`).
pub open spec fn padded(n: nat, width: nat) -> Seq<char> {
    let d = decimal_digits(n);
    if d.len() >= width {
        d
    } else {
        zeros((width - d.len()) as nat) + d
    }
}

/// The clock text of `t` milliseconds: hours, minutes and seconds of two or
/// more digits separated by `:`, then `frac_sep` and three digits of
/// milliseconds.
pub open spec fn clock_text(t: nat, frac_sep: char) -> Seq<char> {
    padded(t / 3600000, 2) + seq![':'] + padded((t % 3600000) / 60000, 2) + seq![':'] + padded(
        (t % 60000) / 1000,
        2,
    ) + seq![frac_sep] + padded(t % 1000, 3)
}

fn digit_to_char(d: u64) -> (c: char)
    requires
        d < 10,
    ensures
        c == digit_char(d as nat),
{
    if d == 0 {
        '0'
    } else if d == 1 {
        '1'
    } else if d == 2 {
        '2'
    } else if d == 3 {
        '3'
    } else if d == 4 {
        '4'
    } else if d == 5 {
        '5'
    } else if d == 6 {
        '6'
    } else if d == 7 {
        '7'
    } else if d == 8 {
        '8'
    } else {
        '9'
    }
}

/// Appends the decimal digits of `n`.
pub fn push_decimal(out: &mut Vec<char>, n: u64)
    ensures
        final(out)@ == old(out)@ + decimal_digits(n as nat),
    decreases n,
{
    if n >= 10 {
        push_decimal(out, n / 10);
    }
    out.push(digit_to_char(n % 10));
    proof {
        if n < 10 {
            assert(old(out)@ + decimal_digits(n as nat) =~= old(out)@.push(digit_char(n as nat)));
        } else {
            assert(old(out)@ + decimal_digits(n as nat) =~= old(out)@ + decimal_digits(
                (n / 10) as nat,
            ) + seq![digit_char((n % 10) as nat)]);
        }
    }
}

fn push_padded(out: &mut Vec<char>, n: u64, width: usize)
    ensures
        final(out)@ == old(out)@ + padded(n as nat, width as nat),
{
    let mut d: Vec<char> = Vec::new();
    push_decimal(&mut d, n);
    assert(d@ =~= decimal_digits(n as nat));
    let ghost base = out@;
    let mut k: usize = d.len();
    while k < width
        invariant
            d@ == decimal_digits(n as nat),
            d@.len() <= k <= if width >= d@.len() { width as int } else { d@.len() as int },
            out@ == base + zeros((k - d@.len()) as nat),
        decreases width - k,
    {
        out.push('0');
        assert(zeros((k + 1 - d@.len()) as nat) =~= zeros((k - d@.len()) as nat).push('0'));
        k = k + 1;
    }
    let mut j: usize = 0;
    let ghost mid = out@;
    while j < d.len()
        invariant
            j <= d@.len(),
            out@ == mid + d@.take(j as int),
        decreases d@.len() - j,
    {
        out.push(d[j]);
        assert(d@.take(j + 1) =~= d@.take(j as int).push(d@[j as int]));
        j = j + 1;
    }
    proof {
        assert(d@.take(d@.len() as int) =~= d@);
        if d@.len() >= width {
            assert(zeros(0) =~= Seq::<char>::empty());
            assert(out@ =~= base + d@);
        } else {
            assert(out@ =~= base + (zeros((width - d@.len()) as nat) + d@));
        }
    }
}

/// The clock text of `t` milliseconds with `frac_sep` before the milliseconds.
pub fn clock_chars(t: u64, frac_sep: char) -> (r: Vec<char>)
    ensures
        r@ == clock_text(t as nat, frac_sep),
{
    let mut out: Vec<char> = Vec::new();
    push_padded(&mut out, t / 3600000, 2);
    out.push(':');
    push_padded(&mut out, (t % 3600000) / 60000, 2);
    out.push(':');
    push_padded(&mut out, (t % 60000) / 1000, 2);
    out.push(frac_sep);
    push_padded(&mut out, t % 1000, 3);
    assert(out@ =~= clock_text(t as nat, frac_sep));
    out
}

/// The SRT timestamp `hh:mm:ss,mmm` of `t` milliseconds.
pub fn format_srt_time(t: u64) -> (r: String)
    ensures
        r@ == clock_text(t as nat, ','),
{
    let cs = clock_chars(t, ',');
    string_of(cs.as_slice())
}

/// The WebVTT timestamp `hh:mm:ss.mmm` of `t` milliseconds.
pub fn format_vtt_time(t: u64) -> (r: String)
    ensures
        r@ == clock_text(t as nat, '.'),
{
    let cs = clock_chars(t, '.');
    string_of(cs.as_slice())
}

} // verus!

verus! {

/// A run of characters made only of decimal digits.
pub open spec fn only_digits(s: Seq<char>) -> bool {
    forall|i: int| 0 <= i < s.len() ==> is_digit(#[trigger] s[i])
}

proof fn lemma_digit_char(d: nat)
    requires
        d < 10,
    ensures
        is_digit(digit_char(d)),
        digit_value(digit_char(d)) == d,
{
}

pub proof fn lemma_decimal_digits(n: nat)
    ensures
        only_digits(decimal_digits(n)),
        decimal_digits(n).len() > 0,
        decimal_value(decimal_digits(n)) == n,
    decreases n,
{
    if n < 10 {
        lemma_digit_char(n);
        assert(decimal_digits(n).drop_last() =~= Seq::<char>::empty());
        assert(decimal_value(Seq::<char>::empty()) == 0);
        assert(decimal_value(decimal_digits(n)) == n);
    } else {
        lemma_decimal_digits(n / 10);
        lemma_digit_char(n % 10);
        let d = decimal_digits(n);
        assert(d.drop_last() =~= decimal_digits(n / 10));
        assert(d.last() == digit_char(n % 10));
        assert(decimal_value(d) == decimal_value(decimal_digits(n / 10)) * 10 + digit_value(
            digit_char(n % 10),
        ));
        vstd::arithmetic::div_mod::lemma_fundamental_div_mod(n as int, 10);
        assert(decimal_value(d) == n);
        assert(only_digits(d)) by {
            assert forall|i: int| 0 <= i < d.len() implies is_digit(#[trigger] d[i]) by {
                if i < d.len() - 1 {
                    assert(d[i] == decimal_digits(n / 10)[i]);
                }
            }
        }
    }
}

proof fn lemma_zeros_value(k: nat, d: Seq<char>)
    ensures
        decimal_value(zeros(k) + d) == decimal_value(d),
        only_digits(zeros(k)),
    decreases d.len() + k,
{
    if d.len() == 0 {
        assert(zeros(k) + d =~= zeros(k));
        if k > 0 {
            lemma_zeros_value((k - 1) as nat, d);
            assert(zeros(k).drop_last() =~= zeros((k - 1) as nat));
            assert(zeros((k - 1) as nat) + d =~= zeros((k - 1) as nat));
        }
    } else {
        lemma_zeros_value(k, d.drop_last());
        assert((zeros(k) + d).drop_last() =~= zeros(k) + d.drop_last());
    }
}

pub proof fn lemma_padded(n: nat, w: nat)
    ensures
        is_number(padded(n, w)),
        only_digits(padded(n, w)),
        decimal_value(padded(n, w)) == n,
{
    lemma_decimal_digits(n);
    let d = decimal_digits(n);
    if d.len() < w {
        let k = (w - d.len()) as nat;
        lemma_zeros_value(k, d);
        assert forall|i: int| 0 <= i < padded(n, w).len() implies is_digit(
            #[trigger] padded(n, w)[i],
        ) by {
            if i < k {
                assert(padded(n, w)[i] == zeros(k)[i]);
            } else {
                assert(padded(n, w)[i] == d[i - k]);
            }
        }
    }
}

/// One step of splitting at a known separator position `j` (or at the end).
proof fn lemma_fields_step(s: Seq<char>, start: int, j: int)
    requires
        0 <= start <= j <= s.len(),
        forall|k: int| start <= k < j ==> !is_time_sep(#[trigger] s[k]),
        j < s.len() ==> is_time_sep(s[j]),
    ensures
        j < s.len() ==> fields_from(s, start) == seq![s.subrange(start, j)] + fields_from(
            s,
            j + 1,
        ),
        j == s.len() ==> fields_from(s, start) == seq![s.subrange(start, j)],
{
    crate::srt::lemma_find_sep_from(s, start);
    match find_sep_from(s, start) {
        Some(j2) => {
            if j2 < j {
            } else if j2 > j {
                assert(!is_time_sep(s[j]));
            }
        },
        None => {
            if j < s.len() {
                assert(!is_time_sep(s[j]));
            }
        },
    }
}

proof fn lemma_digits_not_sep(s: Seq<char>)
    requires
        only_digits(s),
    ensures
        forall|i: int| 0 <= i < s.len() ==> !is_time_sep(#[trigger] s[i]),
{
    assert forall|i: int| 0 <= i < s.len() implies !is_time_sep(#[trigger] s[i]) by {
        assert(is_digit(s[i]));
    }
}

/// The fields of `a:b:c,d` where none of the parts holds a separator.
proof fn lemma_four_fields(a: Seq<char>, b: Seq<char>, c: Seq<char>, d: Seq<char>, sep3: char)
    requires
        only_digits(a),
        only_digits(b),
        only_digits(c),
        only_digits(d),
        is_time_sep(sep3),
    ensures
        time_fields(a + seq![':'] + b + seq![':'] + c + seq![sep3] + d) == seq![a, b, c, d],
{
    let s = a + seq![':'] + b + seq![':'] + c + seq![sep3] + d;
    lemma_digits_not_sep(a);
    lemma_digits_not_sep(b);
    lemma_digits_not_sep(c);
    lemma_digits_not_sep(d);
    let i1 = a.len() as int;
    let i2 = i1 + 1 + b.len();
    let i3 = i2 + 1 + c.len();
    let n = s.len() as int;
    assert forall|k: int| 0 <= k < i1 implies !is_time_sep(#[trigger] s[k]) by {
        assert(s[k] == a[k]);
    }
    assert forall|k: int| i1 + 1 <= k < i2 implies !is_time_sep(#[trigger] s[k]) by {
        assert(s[k] == b[k - i1 - 1]);
    }
    assert forall|k: int| i2 + 1 <= k < i3 implies !is_time_sep(#[trigger] s[k]) by {
        assert(s[k] == c[k - i2 - 1]);
    }
    assert forall|k: int| i3 + 1 <= k < n implies !is_time_sep(#[trigger] s[k]) by {
        assert(s[k] == d[k - i3 - 1]);
    }
    assert(s[i1] == ':');
    assert(s[i2] == ':');
    assert(s[i3] == sep3);
    lemma_fields_step(s, 0, i1);
    lemma_fields_step(s, i1 + 1, i2);
    lemma_fields_step(s, i2 + 1, i3);
    lemma_fields_step(s, i3 + 1, n);
    assert(s.subrange(0, i1) =~= a);
    assert(s.subrange(i1 + 1, i2) =~= b);
    assert(s.subrange(i2 + 1, i3) =~= c);
    assert(s.subrange(i3 + 1, n) =~= d);
    assert(time_fields(s) =~= seq![a, b, c, d]);
}

/// Hours, minutes, seconds and milliseconds of `t` add up to `t`.
proof fn lemma_clock_parts(t: nat)
    ensures
        timestamp_ms(t / 3600000, (t % 3600000) / 60000, (t % 60000) / 1000, t % 1000) == t,
{
    let h = t / 3600000;
    let r1 = t % 3600000;
    let m = r1 / 60000;
    let r2 = r1 % 60000;
    let s = r2 / 1000;
    let r3 = r2 % 1000;
    lemma_fundamental_div_mod_converse(t as int, 3600000, h as int, r1 as int);
    assert(t == h * 3600000 + r1) by {
        vstd::arithmetic::div_mod::lemma_fundamental_div_mod(t as int, 3600000);
    }
    assert(r1 == m * 60000 + r2) by {
        vstd::arithmetic::div_mod::lemma_fundamental_div_mod(r1 as int, 60000);
    }
    assert(r2 == s * 1000 + r3) by {
        vstd::arithmetic::div_mod::lemma_fundamental_div_mod(r2 as int, 1000);
    }
    assert(t == (h * 60 + m) * 60000 + r2) by (nonlinear_arith)
        requires
            t == h * 3600000 + r1,
            r1 == m * 60000 + r2,
    ;
    lemma_fundamental_div_mod_converse(t as int, 60000, (h * 60 + m) as int, r2 as int);
    assert(t == ((h * 60 + m) * 60 + s) * 1000 + r3) by (nonlinear_arith)
        requires
            t == (h * 60 + m) * 60000 + r2,
            r2 == s * 1000 + r3,
    ;
    lemma_fundamental_div_mod_converse(t as int, 1000, ((h * 60 + m) * 60 + s) as int, r3 as int);
}

proof fn lemma_first_from_digits(p: Seq<char>, a: char, b: char, i: int)
    requires
        only_digits(p),
        !is_digit(a),
        !is_digit(b),
        0 <= i <= p.len(),
    ensures
        first_from(p, a, b, i) == p.len(),
    decreases p.len() - i,
{
    if i < p.len() {
        assert(is_digit(p[i]));
        lemma_first_from_digits(p, a, b, i + 1);
    }
}

proof fn lemma_sig_digits_bound(n: nat, k: nat)
    requires
        n < pow10(k),
    ensures
        sig_digits(n) <= k,
    decreases n,
{
    if n > 0 {
        if k == 0 {
            assert(pow10(0) == 1);
        } else {
            assert(pow10(k) == 10 * pow10((k - 1) as nat));
            lemma_sig_digits_bound(n / 10, (k - 1) as nat);
        }
    }
}

/// A run of digits is read as the whole number it writes.
proof fn lemma_digit_field(p: Seq<char>)
    requires
        is_number(p),
        decimal_value(p) <= u64::MAX,
    ensures
        spec_field(p) == Some(
            if decimal_value(p) == 0 {
                FieldClass::Zero
            } else {
                FieldClass::Finite { neg: false, mant: decimal_value(p), exp: 0 }
            },
        ),
{
    assert(only_digits(p));
    assert(is_digit(p[0]));
    assert(split_sign(p) == (false, p));
    assert(!eq_no_case(p, seq!['i', 'n', 'f']));
    assert(!eq_no_case(p, seq!['i', 'n', 'f', 'i', 'n', 'i', 't', 'y']));
    assert(!eq_no_case(p, seq!['n', 'a', 'n']));
    lemma_first_from_digits(p, 'e', 'E', 0);
    assert(mantissa_part(p) =~= p);
    lemma_first_from_digits(p, '.', '.', 0);
    assert(int_part(p) =~= p);
    assert(frac_part(p) =~= Seq::<char>::empty());
    assert(exponent_part(p) =~= Seq::<char>::empty());
    assert(all_digits(p)) by {
        assert forall|i: int| 0 <= i < p.len() implies crate::decimal::is_digit_char(
            #[trigger] p[i],
        ) by {
            assert(is_digit(p[i]));
        }
    }
    assert(all_digits(Seq::<char>::empty()));
    assert(number_ok(p));
    assert(p + Seq::<char>::empty() =~= p);
    assert(number_mant(p) == decimal_value(p));
    assert(number_exp(p) == 0);
    assert(pow10(20) == 100000000000000000000nat) by {
        reveal_with_fuel(pow10, 21);
    }
    lemma_sig_digits_bound(decimal_value(p), 20);
}

/// What a run of digits reads as.
spec fn digit_class(v: nat) -> FieldClass {
    if v == 0 {
        FieldClass::Zero
    } else {
        FieldClass::Finite { neg: false, mant: v, exp: 0 }
    }
}

proof fn lemma_digit_term(v: nat, mul: nat, e: nat)
    ensures
        field_scale(digit_class(v), e as int, 0) == 0,
        field_term(digit_class(v), mul, e as int, 0) == mul * v * pow10(e),
{
    if v == 0 {
        assert(mul * v * pow10(e) == 0) by (nonlinear_arith)
            requires
                v == 0,
        ;
    }
}

/// Reading back a formatted SRT timestamp gives the time that was
/// formatted: for every `t`, parsing `format_srt_time(t)` yields `t`
/// milliseconds.
pub proof fn lemma_srt_time_round_trip(t: u64)
    ensures
        spec_parse_time(clock_text(t as nat, ',')) == Ok::<SpecTime, SrtError>(
            SpecTime::Ms { value: t as int, scale: 0 },
        ),
{
    let tn = t as nat;
    let h = tn / 3600000;
    let m = (tn % 3600000) / 60000;
    let sec = (tn % 60000) / 1000;
    let ms = tn % 1000;
    let a = padded(h, 2);
    let b = padded(m, 2);
    let c = padded(sec, 2);
    let d = padded(ms, 3);
    lemma_padded(h, 2);
    lemma_padded(m, 2);
    lemma_padded(sec, 2);
    lemma_padded(ms, 3);
    lemma_four_fields(a, b, c, d, ',');
    assert(clock_text(tn, ',') == a + seq![':'] + b + seq![':'] + c + seq![','] + d);
    let f = time_fields(clock_text(tn, ','));
    assert(f == seq![a, b, c, d]);
    lemma_digit_field(a);
    lemma_digit_field(b);
    lemma_digit_field(c);
    lemma_digit_field(d);
    assert(spec_field(f[0]) == Some(digit_class(h)));
    assert(spec_field(f[1]) == Some(digit_class(m)));
    assert(spec_field(f[2]) == Some(digit_class(sec)));
    assert(spec_field(f[3]) == Some(digit_class(ms)));
    let cs = seq![digit_class(h), digit_class(m), digit_class(sec), digit_class(ms)];
    assert(!any4(cs, |k: FieldClass| is_nan(k)));
    assert(!any4(cs, |k: FieldClass| is_inf(k, false)));
    assert(!any4(cs, |k: FieldClass| is_inf(k, true)));
    lemma_digit_term(h, 36, 5);
    lemma_digit_term(m, 6, 4);
    lemma_digit_term(sec, 1, 3);
    lemma_digit_term(ms, 1, 0);
    assert(fields_scale(cs) == 0);
    lemma_clock_parts(tn);
    assert(pow10(0) == 1 && pow10(3) == 1000 && pow10(4) == 10000 && pow10(5) == 100000) by {
        reveal_with_fuel(pow10, 6);
    }
    assert(timestamp_ms(h, m, sec, ms) == 36 * h * 100000 + 6 * m * 10000 + sec * 1000 + ms)
        by (nonlinear_arith);
    assert(fields_total(cs, 0) == tn);
    assert(combine(cs) == SpecTime::Ms { value: t as int, scale: 0 });
}

} // verus!

verus! {

// ---------------------------------------------------------------------------
// Order of the written timestamps
// ---------------------------------------------------------------------------

/// `a` comes no later than `b` in the order of strings, character code by
/// character code.
pub open spec fn text_le(a: Seq<char>, b: Seq<char>) -> bool
    decreases a.len(),
{
    if a.len() == 0 {
        true
    } else if b.len() == 0 {
        false
    } else if (a[0] as u32) != (b[0] as u32) {
        (a[0] as u32) < (b[0] as u32)
    } else {
        text_le(a.drop_first(), b.drop_first())
    }
}

/// Two texts of one length with the same character codes throughout.
pub open spec fn same_codes(a: Seq<char>, b: Seq<char>) -> bool {
    a.len() == b.len() && forall|i: int| 0 <= i < a.len() ==> (a[i] as u32) == (b[i] as u32)
}

/// A common beginning does not decide the order.
proof fn lemma_text_le_prefix(p: Seq<char>, q: Seq<char>, s: Seq<char>, t: Seq<char>)
    requires
        same_codes(p, q),
    ensures
        text_le(p + s, q + t) == text_le(s, t),
    decreases p.len(),
{
    if p.len() == 0 {
        assert(p + s =~= s);
        assert(q + t =~= t);
    } else {
        assert((p + s).drop_first() =~= p.drop_first() + s);
        assert((q + t).drop_first() =~= q.drop_first() + t);
        assert((p + s)[0] == p[0]);
        assert((q + t)[0] == q[0]);
        assert(same_codes(p.drop_first(), q.drop_first())) by {
            assert forall|i: int| 0 <= i < p.len() - 1 implies (p.drop_first()[i] as u32) == (
            q.drop_first()[i] as u32) by {
                assert(p.drop_first()[i] == p[i + 1]);
                assert(q.drop_first()[i] == q[i + 1]);
            }
        }
        assert((p[0] as u32) == (q[0] as u32));
        lemma_text_le_prefix(p.drop_first(), q.drop_first(), s, t);
    }
}

/// Of two texts of one length that differ, the earlier stays earlier
/// whatever follows each.
proof fn lemma_text_lt_extend(a: Seq<char>, b: Seq<char>, s: Seq<char>, t: Seq<char>)
    requires
        a.len() == b.len(),
        text_le(a, b),
        !same_codes(a, b),
    ensures
        text_le(a + s, b + t),
    decreases a.len(),
{
    if a.len() > 0 {
        assert((a + s)[0] == a[0]);
        assert((b + t)[0] == b[0]);
        if (a[0] as u32) == (b[0] as u32) {
            if same_codes(a.drop_first(), b.drop_first()) {
                assert(same_codes(a, b)) by {
                    assert forall|i: int| 0 <= i < a.len() implies (a[i] as u32) == (
                    b[i] as u32) by {
                        if i > 0 {
                            assert(a[i] == a.drop_first()[i - 1]);
                            assert(b[i] == b.drop_first()[i - 1]);
                        }
                    }
                }
            }
            assert((a + s).drop_first() =~= a.drop_first() + s);
            assert((b + t).drop_first() =~= b.drop_first() + t);
            lemma_text_lt_extend(a.drop_first(), b.drop_first(), s, t);
        }
    }
}

/// Digit runs of one length are in string order as their values are, and
/// have the same characters exactly when their values are equal.
proof fn lemma_digits_order(a: Seq<char>, b: Seq<char>)
    requires
        only_digits(a),
        only_digits(b),
        a.len() == b.len(),
        decimal_value(a) <= decimal_value(b),
    ensures
        text_le(a, b),
        same_codes(a, b) == (decimal_value(a) == decimal_value(b)),
    decreases a.len(),
{
    if a.len() == 0 {
        assert(same_codes(a, b));
    } else {
        let a0 = a.drop_last();
        let b0 = b.drop_last();
        let x = a.last();
        let y = b.last();
        assert(is_digit(x) && is_digit(y));
        assert(only_digits(a0)) by {
            assert forall|i: int| 0 <= i < a0.len() implies is_digit(#[trigger] a0[i]) by {
                assert(a0[i] == a[i]);
            }
        }
        assert(only_digits(b0)) by {
            assert forall|i: int| 0 <= i < b0.len() implies is_digit(#[trigger] b0[i]) by {
                assert(b0[i] == b[i]);
            }
        }
        assert(decimal_value(a) == decimal_value(a0) * 10 + digit_value(x));
        assert(decimal_value(b) == decimal_value(b0) * 10 + digit_value(y));
        assert(digit_value(x) < 10 && digit_value(y) < 10);
        assert(decimal_value(a0) <= decimal_value(b0));
        lemma_digits_order(a0, b0);
        assert(a =~= a0 + seq![x]);
        assert(b =~= b0 + seq![y]);
        if same_codes(a, b) {
            assert(same_codes(a0, b0)) by {
                assert forall|i: int| 0 <= i < a0.len() implies (a0[i] as u32) == (
                b0[i] as u32) by {
                    assert(a0[i] == a[i] && b0[i] == b[i]);
                }
            }
            assert((a[a.len() - 1] as u32) == (b[a.len() - 1] as u32));
        }
        if decimal_value(a0) < decimal_value(b0) {
            lemma_text_lt_extend(a0, b0, seq![x], seq![y]);
        } else {
            assert(digit_value(x) <= digit_value(y));
            lemma_text_le_prefix(a0, b0, seq![x], seq![y]);
            assert(seq![x].drop_first() =~= Seq::<char>::empty());
            assert(seq![y].drop_first() =~= Seq::<char>::empty());
            assert(text_le(Seq::<char>::empty(), Seq::<char>::empty()));
            assert(seq![x][0] == x && seq![y][0] == y);
            assert(text_le(seq![x], seq![y]));
            if decimal_value(a) == decimal_value(b) {
                assert(same_codes(a, b)) by {
                    assert forall|i: int| 0 <= i < a.len() implies (a[i] as u32) == (
                    b[i] as u32) by {
                        if i < a0.len() {
                            assert(a0[i] == a[i] && b0[i] == b[i]);
                        }
                    }
                }
            }
        }
    }
}

/// One part of a timestamp: the part decides the order unless the two
/// parts are equal, and then what follows decides.
proof fn lemma_part_order(p: Seq<char>, q: Seq<char>, r: Seq<char>, s: Seq<char>)
    requires
        only_digits(p),
        only_digits(q),
        p.len() == q.len(),
        decimal_value(p) <= decimal_value(q),
        decimal_value(p) == decimal_value(q) ==> text_le(r, s),
    ensures
        text_le(p + r, q + s),
{
    lemma_digits_order(p, q);
    if decimal_value(p) == decimal_value(q) {
        lemma_text_le_prefix(p, q, r, s);
    } else {
        lemma_text_lt_extend(p, q, r, s);
    }
}

proof fn lemma_digits_len(n: nat, w: nat)
    requires
        w >= 1,
        n < pow10(w),
    ensures
        decimal_digits(n).len() <= w,
    decreases n,
{
    if n >= 10 {
        assert(w >= 2) by {
            if w == 1 {
                assert(pow10(1) == 10) by {
                    reveal_with_fuel(pow10, 2);
                }
            }
        }
        assert(pow10(w) == 10 * pow10((w - 1) as nat));
        lemma_digits_len(n / 10, (w - 1) as nat);
    }
}

/// A value below `10^w` is written in exactly `w` digits.
proof fn lemma_padded_len(n: nat, w: nat)
    requires
        w >= 1,
        n < pow10(w),
    ensures
        padded(n, w).len() == w,
        only_digits(padded(n, w)),
        decimal_value(padded(n, w)) == n,
{
    lemma_digits_len(n, w);
    lemma_padded(n, w);
}

/// Hours, minutes, seconds and milliseconds of two times are ordered as
/// the times are.
proof fn lemma_clock_parts_order(x: nat, y: nat)
    requires
        x <= y,
    ensures
        x / 3600000 <= y / 3600000,
        x / 3600000 == y / 3600000 ==> (x % 3600000) / 60000 <= (y % 3600000) / 60000,
        x / 3600000 == y / 3600000 && (x % 3600000) / 60000 == (y % 3600000) / 60000 ==> (x
            % 60000) / 1000 <= (y % 60000) / 1000,
        x / 3600000 == y / 3600000 && (x % 3600000) / 60000 == (y % 3600000) / 60000 && (x
            % 60000) / 1000 == (y % 60000) / 1000 ==> x % 1000 <= y % 1000,
{
    vstd::arithmetic::div_mod::lemma_div_is_ordered(x as int, y as int, 3600000);
    vstd::arithmetic::div_mod::lemma_fundamental_div_mod(x as int, 3600000);
    vstd::arithmetic::div_mod::lemma_fundamental_div_mod(y as int, 3600000);
    let rx = x % 3600000;
    let ry = y % 3600000;
    if x / 3600000 == y / 3600000 {
        assert(rx <= ry);
        vstd::arithmetic::div_mod::lemma_div_is_ordered(rx as int, ry as int, 60000);
        vstd::arithmetic::div_mod::lemma_fundamental_div_mod(rx as int, 60000);
        vstd::arithmetic::div_mod::lemma_fundamental_div_mod(ry as int, 60000);
        vstd::arithmetic::div_mod::lemma_mod_mod(x as int, 60000, 60);
        vstd::arithmetic::div_mod::lemma_mod_mod(y as int, 60000, 60);
        let sx = x % 60000;
        let sy = y % 60000;
        assert(sx == rx % 60000);
        assert(sy == ry % 60000);
        if rx / 60000 == ry / 60000 {
            assert(sx <= sy);
            vstd::arithmetic::div_mod::lemma_div_is_ordered(sx as int, sy as int, 1000);
            vstd::arithmetic::div_mod::lemma_fundamental_div_mod(sx as int, 1000);
            vstd::arithmetic::div_mod::lemma_fundamental_div_mod(sy as int, 1000);
            vstd::arithmetic::div_mod::lemma_mod_mod(x as int, 1000, 60);
            vstd::arithmetic::div_mod::lemma_mod_mod(y as int, 1000, 60);
            assert(x % 1000 == sx % 1000);
            assert(y % 1000 == sy % 1000);
        }
    }
}

/// Written SRT (or WebVTT) timestamps sort as strings in the order of
/// their times, for times under one hundred hours (where the hours take
/// two digits).
pub proof fn lemma_clock_text_order(x: nat, y: nat, frac_sep: char)
    requires
        x <= y < 360_000_000,
    ensures
        text_le(clock_text(x, frac_sep), clock_text(y, frac_sep)),
{
    assert(pow10(2) == 100 && pow10(3) == 1000) by {
        reveal_with_fuel(pow10, 4);
    }
    let h1 = x / 3600000;
    let m1 = (x % 3600000) / 60000;
    let s1 = (x % 60000) / 1000;
    let f1 = x % 1000;
    let h2 = y / 3600000;
    let m2 = (y % 3600000) / 60000;
    let s2 = (y % 60000) / 1000;
    let f2 = y % 1000;
    lemma_clock_parts_order(x, y);
    lemma_padded_len(h1, 2);
    lemma_padded_len(h2, 2);
    lemma_padded_len(m1, 2);
    lemma_padded_len(m2, 2);
    lemma_padded_len(s1, 2);
    lemma_padded_len(s2, 2);
    lemma_padded_len(f1, 3);
    lemma_padded_len(f2, 3);
    let colon = seq![':'];
    let t3x = seq![frac_sep] + padded(f1, 3);
    let t3y = seq![frac_sep] + padded(f2, 3);
    if h1 == h2 && m1 == m2 && s1 == s2 {
        lemma_digits_order(padded(f1, 3), padded(f2, 3));
        lemma_text_le_prefix(seq![frac_sep], seq![frac_sep], padded(f1, 3), padded(f2, 3));
    }
    let t2x = colon + (padded(s1, 2) + t3x);
    let t2y = colon + (padded(s2, 2) + t3y);
    if h1 == h2 && m1 == m2 {
        lemma_part_order(padded(s1, 2), padded(s2, 2), t3x, t3y);
        lemma_text_le_prefix(colon, colon, padded(s1, 2) + t3x, padded(s2, 2) + t3y);
    }
    let t1x = colon + (padded(m1, 2) + t2x);
    let t1y = colon + (padded(m2, 2) + t2y);
    if h1 == h2 {
        lemma_part_order(padded(m1, 2), padded(m2, 2), t2x, t2y);
        lemma_text_le_prefix(colon, colon, padded(m1, 2) + t2x, padded(m2, 2) + t2y);
    }
    lemma_part_order(padded(h1, 2), padded(h2, 2), t1x, t1y);
    assert(clock_text(x, frac_sep) =~= padded(h1, 2) + t1x);
    assert(clock_text(y, frac_sep) =~= padded(h2, 2) + t1y);
}

} // verus!
