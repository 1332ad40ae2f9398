//! SRT timestamps `hh:mm:ss,mmm` read into milliseconds, each field read as
//! `f32::from_str` reads it and the sum computed exactly; the writers round
//! it (`round_ms`).

use vstd::prelude::*;
use crate::decimal::{
    big_add, big_drop, big_mul_small, big_shift, big_sub, big_to_capped, big_val, is_digits,
    lemma_pow10_add, lemma_pow10_pos, pow10,
};
use crate::number::{field_view, field_wf, read_field, spec_field, text_limit, Field, FieldClass};
use crate::srt::{time_fields, SrtError};
use crate::text::{chars_of, views};

verus! {

/// A time read from a subtitle: `(-1)^neg * mag * 10^-scale`
/// milliseconds, held exactly (`mag` holds decimal digits, lowest first),
/// an infinity, or not a number.
#[derive(Debug, PartialEq, Eq)]
pub enum SrtTime {
    Ms { neg: bool, mag: Vec<u8>, scale: usize },
    PosInf,
    NegInf,
    NaN,
}

/// The value of a time: `value * 10^-scale` milliseconds, an infinity, or
/// not a number.
pub enum SpecTime {
    Ms { value: int, scale: nat },
    PosInf,
    NegInf,
    NaN,
}

impl View for SrtTime {
    type V = SpecTime;

    open spec fn view(&self) -> SpecTime {
        match self {
            SrtTime::Ms { neg, mag, scale } => SpecTime::Ms {
                value: if *neg {
                    -big_val(mag@)
                } else {
                    big_val(mag@) as int
                },
                scale: *scale as nat,
            },
            SrtTime::PosInf => SpecTime::PosInf,
            SrtTime::NegInf => SpecTime::NegInf,
            SrtTime::NaN => SpecTime::NaN,
        }
    }
}

/// The magnitude of a finite time holds decimal digits.
pub open spec fn time_wf(t: SrtTime) -> bool {
    t matches SrtTime::Ms { mag, .. } ==> is_digits(mag@)
}

/// `n * 10^-k` rounded to a whole number, halves upwards.
#[verifier::opaque]
pub open spec fn round_half_up(n: int, k: nat) -> int {
    if k == 0 {
        n
    } else {
        (n + 5 * pow10((k - 1) as nat)) / (pow10(k) as int)
    }
}

/// The lowest power of ten (at most `10^0`) that the field's value, in
/// milliseconds through `10^e`, is a whole multiple of, given the lowest so
/// far.
pub open spec fn field_scale(c: FieldClass, e: int, acc: int) -> int {
    match c {
        FieldClass::Finite { exp, .. } => if exp + e < acc {
            exp + e
        } else {
            acc
        },
        _ => acc,
    }
}

/// The field's value in milliseconds (`mul * 10^e` per unit) as a multiple
/// of `10^s0`.
pub open spec fn field_term(c: FieldClass, mul: nat, e: int, s0: int) -> int {
    match c {
        FieldClass::Finite { neg, mant, exp } => {
            let v = (mul * mant * pow10((exp + e - s0) as nat)) as int;
            if neg {
                -v
            } else {
                v
            }
        },
        _ => 0,
    }
}

/// Hours, minutes, seconds and milliseconds: the lowest common power of ten.
pub open spec fn fields_scale(cs: Seq<FieldClass>) -> int {
    field_scale(cs[3], 0, field_scale(cs[2], 3, field_scale(cs[1], 4, field_scale(cs[0], 5, 0))))
}

/// Hours, minutes, seconds and milliseconds: the total in milliseconds as
/// a multiple of `10^s0`.
pub open spec fn fields_total(cs: Seq<FieldClass>, s0: int) -> int {
    field_term(cs[0], 36, 5, s0) + field_term(cs[1], 6, 4, s0) + field_term(cs[2], 1, 3, s0)
        + field_term(cs[3], 1, 0, s0)
}

pub open spec fn is_nan(c: FieldClass) -> bool {
    c is NaN
}

pub open spec fn is_inf(c: FieldClass, neg: bool) -> bool {
    c == FieldClass::Inf { neg }
}

/// Some of the four fields is of the kind.
pub open spec fn any4(cs: Seq<FieldClass>, p: spec_fn(FieldClass) -> bool) -> bool {
    p(cs[0]) || p(cs[1]) || p(cs[2]) || p(cs[3])
}

/// The time of the four fields `h:m:s,ms`: not a number if a field is, or
/// if infinities of both signs meet; an infinity if one is present;
/// otherwise `h * 3600000 + m * 60000 + s * 1000 + ms` milliseconds,
/// computed exactly, in units of the lowest power of ten (at most one)
/// that the fields are written in.
pub open spec fn combine(cs: Seq<FieldClass>) -> SpecTime {
    let pinf = any4(cs, |c: FieldClass| is_inf(c, false));
    let ninf = any4(cs, |c: FieldClass| is_inf(c, true));
    if any4(cs, |c: FieldClass| is_nan(c)) || (pinf && ninf) {
        SpecTime::NaN
    } else if pinf {
        SpecTime::PosInf
    } else if ninf {
        SpecTime::NegInf
    } else {
        let s0 = fields_scale(cs);
        SpecTime::Ms { value: fields_total(cs, s0), scale: (-s0) as nat }
    }
}

/// The time that an SRT timestamp denotes: four fields separated by `:` or
/// `,`, each a number as `f32::from_str` reads it.
pub open spec fn spec_parse_time(t: Seq<char>) -> Result<SpecTime, SrtError> {
    let f = time_fields(t);
    if f.len() != 4 {
        Err(SrtError::TimestampShape)
    } else if spec_field(f[0]) is None || spec_field(f[1]) is None || spec_field(f[2]) is None
        || spec_field(f[3]) is None {
        Err(SrtError::TimestampNumber)
    } else {
        Ok(
            combine(
                seq![
                    spec_field(f[0]).unwrap(),
                    spec_field(f[1]).unwrap(),
                    spec_field(f[2]).unwrap(),
                    spec_field(f[3]).unwrap(),
                ],
            ),
        )
    }
}

/// Adds the field's value (in units of `10^s0` ms) to `pos` or `neg`.
fn add_term(pos: &mut Vec<u8>, neg: &mut Vec<u8>, f: &Field, mul: u8, e: i128, s0: i128, n: usize)
    requires
        is_digits(old(pos)@),
        is_digits(old(neg)@),
        field_wf(*f, n as int),
        n as int <= text_limit(),
        mul <= 36,
        0 <= e <= 5,
        -45 - n as int <= s0 <= 0,
        f.kind == 3 ==> s0 <= f.exp + e,
    ensures
        is_digits(final(pos)@),
        is_digits(final(neg)@),
        big_val(final(pos)@) - big_val(final(neg)@) == big_val(old(pos)@) - big_val(old(neg)@)
            + field_term(field_view(*f), mul as nat, e as int, s0 as int),
{
    if f.kind != 3 {
        return;
    }
    let sh = f.exp + e - s0;
    assert(sh <= 44 + 45 + n);
    let a = big_mul_small(&f.digits, mul);
    let t = big_shift(&a, sh as usize);
    proof {
        assert(pow10(sh as nat) * (big_val(f.digits@) * mul as nat) == mul as nat * big_val(
            f.digits@,
        ) * pow10(sh as nat)) by (nonlinear_arith);
    }
    if f.neg {
        let r = big_add(neg, &t);
        *neg = r;
    } else {
        let r = big_add(pos, &t);
        *pos = r;
    }
}

/// A single digit is worth itself.
proof fn lemma_val_one_digit(s: Seq<u8>)
    requires
        s.len() == 1,
    ensures
        big_val(s) == s[0] as nat,
{
    assert(s.drop_first() =~= Seq::<u8>::empty());
    assert(big_val(s.drop_first()) == 0);
}

/// A time of zero or less rounds to zero or less.
pub proof fn lemma_round_nonpos(v: int, k: nat)
    requires
        v <= 0,
    ensures
        round_half_up(v, k) <= 0,
{
    reveal(round_half_up);
    if k > 0 {
        lemma_pow10_pos(k);
        let d = pow10(k) as int;
        let x = v + 5 * pow10((k - 1) as nat);
        assert(d == 10 * pow10((k - 1) as nat));
        assert(x < d);
        vstd::arithmetic::div_mod::lemma_fundamental_div_mod(x, d);
        assert(x / d <= 0) by (nonlinear_arith)
            requires
                x == d * (x / d) + x % d,
                0 <= x % d < d,
                x < d,
                d > 0,
        ;
    }
}

/// The whole milliseconds nearest to `mag * 10^-k` (halves upwards), at
/// most `u64::MAX`.
pub fn round_ms(mag: &Vec<u8>, k: usize) -> (r: u64)
    requires
        is_digits(mag@),
    ensures
        r as int == if round_half_up(big_val(mag@) as int, k as nat) > u64::MAX {
            u64::MAX as int
        } else {
            round_half_up(big_val(mag@) as int, k as nat)
        },
{
    let cap: u128 = 0xffff_ffff_ffff_ffff;
    proof {
        lemma_pow10_pos(k as nat);
        reveal(round_half_up);
    }
    if k == 0 {
        let v = big_to_capped(mag, cap);
        return v as u64;
    }
    let five: Vec<u8> = vec![5];
    assert(big_val(five@) == 5) by {
        lemma_val_one_digit(five@);
    }
    let h = big_shift(&five, k - 1);
    let x = big_add(mag, &h);
    let t = big_drop(&x, k);
    proof {
        assert(pow10((k - 1) as nat) * 5 == 5 * pow10((k - 1) as nat)) by (nonlinear_arith);
        assert(big_val(t@) as int == round_half_up(big_val(mag@) as int, k as nat));
    }
    let v = big_to_capped(&t, cap);
    v as u64
}

/// The classes of four fields that were read.
pub open spec fn classes(fs: Seq<Field>) -> Seq<FieldClass> {
    seq![field_view(fs[0]), field_view(fs[1]), field_view(fs[2]), field_view(fs[3])]
}

/// The lowest common power of ten of four finite or zero fields.
fn scale_of(fs: &Vec<Field>, n: usize) -> (s0: i128)
    requires
        fs@.len() == 4,
        n as int <= text_limit(),
        forall|i: int| 0 <= i < 4 ==> field_wf(#[trigger] fs@[i], n as int),
    ensures
        s0 == fields_scale(classes(fs@)),
        -45 - n as int <= s0 <= 0,
        fs@[0].kind == 3 ==> s0 <= fs@[0].exp + 5,
        fs@[1].kind == 3 ==> s0 <= fs@[1].exp + 4,
        fs@[2].kind == 3 ==> s0 <= fs@[2].exp + 3,
        fs@[3].kind == 3 ==> s0 <= fs@[3].exp,
{
    assert(field_wf(fs@[0], n as int) && field_wf(fs@[1], n as int) && field_wf(fs@[2], n as int)
        && field_wf(fs@[3], n as int));
    let mut s0: i128 = 0;
    if fs[0].kind == 3 && fs[0].exp + 5 < s0 {
        s0 = fs[0].exp + 5;
    }
    if fs[1].kind == 3 && fs[1].exp + 4 < s0 {
        s0 = fs[1].exp + 4;
    }
    if fs[2].kind == 3 && fs[2].exp + 3 < s0 {
        s0 = fs[2].exp + 3;
    }
    if fs[3].kind == 3 && fs[3].exp < s0 {
        s0 = fs[3].exp;
    }
    s0
}

/// The exact total of four fields, none of them infinite or not a number.
fn finite_time(fs: &Vec<Field>, n: usize) -> (r: SrtTime)
    requires
        fs@.len() == 4,
        n as int <= text_limit(),
        forall|i: int| 0 <= i < 4 ==> field_wf(#[trigger] fs@[i], n as int),
    ensures
        r@ == (SpecTime::Ms {
            value: fields_total(classes(fs@), fields_scale(classes(fs@))),
            scale: (-fields_scale(classes(fs@))) as nat,
        }),
        time_wf(r),
{
    let ghost cs = classes(fs@);
    let s0 = scale_of(fs, n);
    assert(field_wf(fs@[0], n as int) && field_wf(fs@[1], n as int) && field_wf(fs@[2], n as int)
        && field_wf(fs@[3], n as int));
    let mut pos: Vec<u8> = Vec::new();
    let mut neg: Vec<u8> = Vec::new();
    add_term(&mut pos, &mut neg, &fs[0], 36, 5, s0, n);
    add_term(&mut pos, &mut neg, &fs[1], 6, 4, s0, n);
    add_term(&mut pos, &mut neg, &fs[2], 1, 3, s0, n);
    add_term(&mut pos, &mut neg, &fs[3], 1, 0, s0, n);
    assert(big_val(pos@) - big_val(neg@) == fields_total(cs, s0 as int));
    let scale = (-s0) as usize;
    let (d, borrow) = big_sub(&pos, &neg);
    if !borrow {
        SrtTime::Ms { neg: false, mag: d, scale }
    } else {
        let (d2, _) = big_sub(&neg, &pos);
        SrtTime::Ms { neg: true, mag: d2, scale }
    }
}

/// The time of four fields that were read.
fn combine_fields(fs: &Vec<Field>, n: usize) -> (r: SrtTime)
    requires
        fs@.len() == 4,
        n as int <= text_limit(),
        forall|i: int| 0 <= i < 4 ==> field_wf(#[trigger] fs@[i], n as int),
    ensures
        r@ == combine(classes(fs@)),
        time_wf(r),
{
    let ghost cs = classes(fs@);
    let k0 = fs[0].kind;
    let k1 = fs[1].kind;
    let k2 = fs[2].kind;
    let k3 = fs[3].kind;
    let nan = k0 == 0 || k1 == 0 || k2 == 0 || k3 == 0;
    let pinf = (k0 == 1 && !fs[0].neg) || (k1 == 1 && !fs[1].neg) || (k2 == 1 && !fs[2].neg) || (
    k3 == 1 && !fs[3].neg);
    let ninf = (k0 == 1 && fs[0].neg) || (k1 == 1 && fs[1].neg) || (k2 == 1 && fs[2].neg) || (k3
        == 1 && fs[3].neg);
    assert(nan == any4(cs, |c: FieldClass| is_nan(c)));
    assert(pinf == any4(cs, |c: FieldClass| is_inf(c, false)));
    assert(ninf == any4(cs, |c: FieldClass| is_inf(c, true)));
    if nan || (pinf && ninf) {
        return SrtTime::NaN;
    }
    if pinf {
        return SrtTime::PosInf;
    }
    if ninf {
        return SrtTime::NegInf;
    }
    finite_time(fs, n)
}

/// The time of an SRT timestamp.
pub fn parse_time_chars(t: &[char]) -> (r: Result<SrtTime, SrtError>)
    requires
        t@.len() < text_limit(),
    ensures
        match r {
            Ok(v) => spec_parse_time(t@) == Ok::<SpecTime, SrtError>(v@) && time_wf(v),
            Err(e) => spec_parse_time(t@) == Err::<SpecTime, SrtError>(e),
        },
{
    let f = crate::srt::split_time_fields(t);
    proof {
        assert(views(f@).len() == f@.len());
    }
    if f.len() != 4 {
        return Err(SrtError::TimestampShape);
    }
    proof {
        assert forall|i: int| 0 <= i < 4 implies #[trigger] views(f@)[i] == f@[i]@ by {}
        crate::srt::lemma_fields_shorter(t@);
    }
    let mut out: Vec<Field> = Vec::new();
    let mut i: usize = 0;
    while i < 4
        invariant
            f@.len() == 4,
            i <= 4,
            out@.len() == i,
            t@.len() < text_limit(),
            views(f@) == time_fields(t@),
            forall|j: int| 0 <= j < 4 ==> (#[trigger] f@[j])@.len() <= t@.len(),
            forall|j: int| 0 <= j < 4 ==> views(f@)[j] == f@[j]@,
            forall|j: int| 0 <= j < i ==> spec_field(f@[j]@) is Some,
            forall|j: int|
                0 <= j < i ==> spec_field(f@[j]@) == Some(field_view(#[trigger] out@[j]))
                    && field_wf(out@[j], t@.len() as int),
        decreases 4 - i,
    {
        assert(views(f@)[i as int] == f@[i as int]@);
        match read_field(f[i].as_slice()) {
            None => {
                proof {
                    assert(spec_field(time_fields(t@)[i as int]) is None);
                }
                return Err(SrtError::TimestampNumber);
            },
            Some(v) => {
                out.push(v);
            },
        }
        i = i + 1;
    }
    let n = t.len();
    proof {
        assert forall|j: int| 0 <= j < 4 implies field_wf(#[trigger] out@[j], n as int) by {}
    }
    let r = combine_fields(&out, n);
    proof {
        let fs = time_fields(t@);
        assert(classes(out@) =~= seq![
            spec_field(fs[0]).unwrap(),
            spec_field(fs[1]).unwrap(),
            spec_field(fs[2]).unwrap(),
            spec_field(fs[3]).unwrap(),
        ]);
    }
    Ok(r)
}

/// The time of an SRT timestamp `hh:mm:ss,mmm`.
pub fn parse_srt_time(s: &str) -> (r: Result<SrtTime, SrtError>)
    requires
        s@.len() < text_limit(),
    ensures
        match r {
            Ok(v) => spec_parse_time(s@) == Ok::<SpecTime, SrtError>(v@) && time_wf(v),
            Err(e) => spec_parse_time(s@) == Err::<SpecTime, SrtError>(e),
        },
{
    let cs = chars_of(s);
    parse_time_chars(cs.as_slice())
}

} // verus!
