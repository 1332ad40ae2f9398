//! The decimal numbers that a timestamp field may hold: the grammar of
//! Rust's `f32::from_str` (a sign, digits with an optional fraction, an
//! optional exponent, or `inf`, `infinity` and `nan` in any case), read
//! exactly.

use vstd::prelude::*;
use crate::decimal::{
    big_from_chars, big_to_capped, big_trim, big_val, digits_of_chars, is_digit_char, is_digits,
    is_trimmed, lemma_sig_digits, sig_digits, lemma_val_push,
};
use crate::srt::decimal_value;
use crate::text::copy_range;

verus! {

/// A number read from a field, by class: not a number, an infinity, zero,
/// or `(-1)^neg * mant * 10^exp` with `mant > 0`.
pub enum FieldClass {
    NaN,
    Inf { neg: bool },
    Zero,
    Finite { neg: bool, mant: nat, exp: int },
}

/// Numbers of `10^39` or more are read as infinite. This decimal bound
/// stands for `f32`'s own, which is lower (about `3.4 * 10^38`): numbers
/// between the two are kept finite.
pub open spec fn top_digit_limit() -> int {
    39
}

/// Numbers below `10^-45` are read as zero. This decimal bound stands for
/// `f32`'s own (about `7 * 10^-46`, half its least positive value).
pub open spec fn bottom_digit_limit() -> int {
    -45
}

/// An optional leading sign and the rest.
pub open spec fn split_sign(f: Seq<char>) -> (bool, Seq<char>) {
    if f.len() > 0 && f[0] == '-' {
        (true, f.drop_first())
    } else if f.len() > 0 && f[0] == '+' {
        (false, f.drop_first())
    } else {
        (false, f)
    }
}

/// ASCII lower case of a character, as a code point.
pub open spec fn lower_code(c: char) -> u32 {
    if 65 <= (c as u32) <= 90 {
        ((c as u32) + 32) as u32
    } else {
        c as u32
    }
}

/// `s` equals the lower-case `word` with ASCII letters compared without case.
pub open spec fn eq_no_case(s: Seq<char>, word: Seq<char>) -> bool {
    s.len() == word.len() && forall|i: int| 0 <= i < s.len() ==> lower_code(#[trigger] s[i])
        == word[i] as u32
}

/// The first index at or after `i` that holds `a` or `b`, else the length.
pub open spec fn first_from(s: Seq<char>, a: char, b: char, i: int) -> int
    decreases s.len() - i,
{
    if i < 0 || i >= s.len() {
        s.len() as int
    } else if s[i] == a || s[i] == b {
        i
    } else {
        first_from(s, a, b, i + 1)
    }
}

/// All characters are decimal digits.
pub open spec fn all_digits(s: Seq<char>) -> bool {
    forall|i: int| 0 <= i < s.len() ==> is_digit_char(#[trigger] s[i])
}

/// The part of a number before its exponent marker.
pub open spec fn mantissa_part(b: Seq<char>) -> Seq<char> {
    b.subrange(0, first_from(b, 'e', 'E', 0))
}

/// The part of a number after its exponent marker (empty without one).
pub open spec fn exponent_part(b: Seq<char>) -> Seq<char> {
    let e = first_from(b, 'e', 'E', 0);
    if e < b.len() {
        b.subrange(e + 1, b.len() as int)
    } else {
        seq![]
    }
}

/// The digits before the decimal point.
pub open spec fn int_part(m: Seq<char>) -> Seq<char> {
    m.subrange(0, first_from(m, '.', '.', 0))
}

/// The characters after the decimal point (empty without one).
pub open spec fn frac_part(m: Seq<char>) -> Seq<char> {
    let d = first_from(m, '.', '.', 0);
    if d < m.len() {
        m.subrange(d + 1, m.len() as int)
    } else {
        seq![]
    }
}

/// The body of a number (after its sign) is well formed: digits with an
/// optional point and at least one digit, then optionally `e` or `E`, an
/// optional sign and at least one digit.
pub open spec fn number_ok(b: Seq<char>) -> bool {
    let m = mantissa_part(b);
    let ip = int_part(m);
    let fp = frac_part(m);
    &&& all_digits(ip)
    &&& all_digits(fp)
    &&& ip.len() + fp.len() > 0
    &&& first_from(b, 'e', 'E', 0) < b.len() ==> {
        let x = split_sign(exponent_part(b)).1;
        x.len() > 0 && all_digits(x)
    }
}

/// The decimal exponent of a well-formed number body: its written exponent
/// less the number of fraction digits.
pub open spec fn number_exp(b: Seq<char>) -> int {
    let fp = frac_part(mantissa_part(b));
    let (xneg, xd) = split_sign(exponent_part(b));
    let e = if first_from(b, 'e', 'E', 0) < b.len() {
        decimal_value(xd) as int
    } else {
        0
    };
    (if xneg {
        -e
    } else {
        e
    }) - fp.len()
}

/// The digits of a well-formed number body, point removed, as a whole number.
pub open spec fn number_mant(b: Seq<char>) -> nat {
    let m = mantissa_part(b);
    decimal_value(int_part(m) + frac_part(m))
}

/// The class of the number `(-1)^neg * mant * 10^exp`.
pub open spec fn classify(neg: bool, mant: nat, exp: int) -> FieldClass {
    if mant == 0 {
        FieldClass::Zero
    } else if sig_digits(mant) + exp > top_digit_limit() {
        FieldClass::Inf { neg }
    } else if sig_digits(mant) + exp < bottom_digit_limit() {
        FieldClass::Zero
    } else {
        FieldClass::Finite { neg, mant, exp }
    }
}

/// A timestamp field read as `f32::from_str` reads it, or `None` when the
/// field is not a number.
pub open spec fn spec_field(f: Seq<char>) -> Option<FieldClass> {
    let (neg, b) = split_sign(f);
    if eq_no_case(b, seq!['i', 'n', 'f']) || eq_no_case(
        b,
        seq!['i', 'n', 'f', 'i', 'n', 'i', 't', 'y'],
    ) {
        Some(FieldClass::Inf { neg })
    } else if eq_no_case(b, seq!['n', 'a', 'n']) {
        Some(FieldClass::NaN)
    } else if number_ok(b) {
        Some(classify(neg, number_mant(b), number_exp(b)))
    } else {
        None
    }
}

/// Texts this long cannot be held in memory together with their digits.
pub open spec fn text_limit() -> int {
    usize::MAX - 200
}

/// A field as read: its class and, for a finite one, its trimmed digits and
/// exponent.
pub struct Field {
    /// 0: not a number, 1: infinite, 2: zero, 3: finite.
    pub kind: u8,
    pub neg: bool,
    pub digits: Vec<u8>,
    pub exp: i128,
}

/// The class a read field stands for.
pub open spec fn field_view(f: Field) -> FieldClass {
    if f.kind == 0 {
        FieldClass::NaN
    } else if f.kind == 1 {
        FieldClass::Inf { neg: f.neg }
    } else if f.kind == 2 {
        FieldClass::Zero
    } else {
        FieldClass::Finite { neg: f.neg, mant: big_val(f.digits@), exp: f.exp as int }
    }
}

/// A finite field keeps trimmed digits whose top lies within the limits.
pub open spec fn field_wf(f: Field, n: int) -> bool {
    &&& f.kind <= 3
    &&& f.kind == 3 ==> {
        &&& is_digits(f.digits@)
        &&& is_trimmed(f.digits@)
        &&& 0 < f.digits@.len() <= n
        &&& bottom_digit_limit() <= f.digits@.len() + f.exp <= top_digit_limit()
    }
}

proof fn lemma_digits_value(cs: Seq<char>)
    requires
        all_digits(cs),
    ensures
        big_val(digits_of_chars(cs)) == decimal_value(cs),
    decreases cs.len(),
{
    if cs.len() > 0 {
        let init = cs.drop_last();
        assert(all_digits(init)) by {
            assert forall|i: int| 0 <= i < init.len() implies is_digit_char(#[trigger] init[i]) by {
                assert(init[i] == cs[i]);
            }
        }
        lemma_digits_value(init);
        let d = digits_of_chars(cs);
        assert(d.drop_first() =~= digits_of_chars(init));
        assert(d[0] as nat == ((cs.last() as u32) - 48) as nat);
    }
}

fn find_first(s: &[char], a: char, b: char) -> (r: usize)
    ensures
        r as int == first_from(s@, a, b, 0),
        r <= s@.len(),
{
    let mut i: usize = 0;
    while i < s.len()
        invariant
            i <= s@.len(),
            first_from(s@, a, b, 0) == first_from(s@, a, b, i as int),
        decreases s@.len() - i,
    {
        if s[i] == a || s[i] == b {
            return i;
        }
        i = i + 1;
    }
    i
}

fn lower_code_exec(c: char) -> (r: u32)
    ensures
        r == lower_code(c),
{
    let u = c as u32;
    if 65 <= u && u <= 90 {
        u + 32
    } else {
        u
    }
}

fn eq_no_case_exec(s: &[char], word: &[char]) -> (r: bool)
    ensures
        r == eq_no_case(s@, word@),
{
    if s.len() != word.len() {
        return false;
    }
    let mut i: usize = 0;
    while i < s.len()
        invariant
            s@.len() == word@.len(),
            i <= s@.len(),
            forall|j: int| 0 <= j < i ==> lower_code(#[trigger] s@[j]) == word@[j] as u32,
        decreases s@.len() - i,
    {
        if lower_code_exec(s[i]) != word[i] as u32 {
            return false;
        }
        i = i + 1;
    }
    true
}

fn all_digits_exec(s: &[char]) -> (r: bool)
    ensures
        r == all_digits(s@),
{
    let mut i: usize = 0;
    while i < s.len()
        invariant
            i <= s@.len(),
            forall|j: int| 0 <= j < i ==> is_digit_char(#[trigger] s@[j]),
        decreases s@.len() - i,
    {
        let u = s[i] as u32;
        if u < 48 || u > 57 {
            return false;
        }
        i = i + 1;
    }
    true
}

fn split_sign_exec(f: &[char]) -> (r: (bool, Vec<char>))
    ensures
        (r.0, r.1@) == split_sign(f@),
{
    if f.len() > 0 && f[0] == '-' {
        let rest = copy_range(f, 1, f.len());
        assert(rest@ =~= f@.drop_first());
        (true, rest)
    } else if f.len() > 0 && f[0] == '+' {
        let rest = copy_range(f, 1, f.len());
        assert(rest@ =~= f@.drop_first());
        (false, rest)
    } else {
        let rest = copy_range(f, 0, f.len());
        assert(rest@ =~= f@);
        (false, rest)
    }
}

pub proof fn lemma_first_from(s: Seq<char>, a: char, b: char, i: int)
    requires
        0 <= i <= s.len(),
    ensures
        i <= first_from(s, a, b, i) <= s.len(),
    decreases s.len() - i,
{
    if i < s.len() && !(s[i] == a || s[i] == b) {
        lemma_first_from(s, a, b, i + 1);
    }
}

/// What a well-formed number body holds: its trimmed mantissa digits, its
/// exponent's sign and value (saturated at `10^30`) and its fraction length.
struct NumberParts {
    digits: Vec<u8>,
    xneg: bool,
    xval: u128,
    frac_len: usize,
}

/// Reads the body of a number (after its sign).
fn read_number(b: &[char]) -> (r: Option<NumberParts>)
    ensures
        match r {
            None => !number_ok(b@),
            Some(p) => {
                &&& number_ok(b@)
                &&& is_digits(p.digits@)
                &&& is_trimmed(p.digits@)
                &&& big_val(p.digits@) == number_mant(b@)
                &&& p.digits@.len() <= b@.len()
                &&& p.frac_len <= b@.len()
                &&& p.frac_len == frac_part(mantissa_part(b@)).len()
                &&& p.xneg == split_sign(exponent_part(b@)).0
                &&& (first_from(b@, 'e', 'E', 0) < b@.len() ==> {
                    let v = decimal_value(split_sign(exponent_part(b@)).1);
                    p.xval as nat == if v < 1_000_000_000_000_000_000_000_000_000_000 {
                        v
                    } else {
                        1_000_000_000_000_000_000_000_000_000_000
                    }
                })
                &&& (first_from(b@, 'e', 'E', 0) >= b@.len() ==> p.xval == 0 && !p.xneg)
            },
        },
{
    let e = find_first(b, 'e', 'E');
    let m = copy_range(b, 0, e);
    assert(m@ == mantissa_part(b@));
    let d = find_first(m.as_slice(), '.', '.');
    let ip = copy_range(m.as_slice(), 0, d);
    let fp = if d < m.len() {
        copy_range(m.as_slice(), d + 1, m.len())
    } else {
        Vec::new()
    };
    assert(ip@ == int_part(m@));
    assert(fp@ =~= frac_part(m@));
    if !(all_digits_exec(ip.as_slice()) && all_digits_exec(fp.as_slice()) && ip.len() + fp.len()
        > 0) {
        return None;
    }
    let mut xneg = false;
    let mut xval: u128 = 0;
    if e < b.len() {
        let x = copy_range(b, e + 1, b.len());
        assert(x@ == exponent_part(b@));
        let (sn, xd) = split_sign_exec(x.as_slice());
        if !(xd.len() > 0 && all_digits_exec(xd.as_slice())) {
            return None;
        }
        let xdig = big_from_chars(xd.as_slice());
        proof {
            lemma_digits_value(xd@);
        }
        xneg = sn;
        xval = big_to_capped(&xdig, 1_000_000_000_000_000_000_000_000_000_000u128);
    } else {
        assert(exponent_part(b@) =~= Seq::<char>::empty());
    }
    let mut all: Vec<char> = Vec::new();
    let mut j: usize = 0;
    while j < ip.len()
        invariant
            j <= ip@.len(),
            all@ == ip@.take(j as int),
        decreases ip@.len() - j,
    {
        all.push(ip[j]);
        assert(ip@.take(j + 1) =~= ip@.take(j as int).push(ip@[j as int]));
        j = j + 1;
    }
    assert(ip@.take(ip@.len() as int) =~= ip@);
    let mut j2: usize = 0;
    while j2 < fp.len()
        invariant
            j2 <= fp@.len(),
            all@ == ip@ + fp@.take(j2 as int),
        decreases fp@.len() - j2,
    {
        all.push(fp[j2]);
        assert(fp@.take(j2 + 1) =~= fp@.take(j2 as int).push(fp@[j2 as int]));
        assert(all@ =~= ip@ + fp@.take(j2 + 1));
        j2 = j2 + 1;
    }
    assert(fp@.take(fp@.len() as int) =~= fp@);
    assert(all@ =~= ip@ + fp@);
    assert(all_digits(all@)) by {
        assert forall|i: int| 0 <= i < all@.len() implies is_digit_char(#[trigger] all@[i]) by {
            if i < ip@.len() {
                assert(all@[i] == ip@[i]);
            } else {
                assert(all@[i] == fp@[i - ip@.len()]);
            }
        }
    }
    let raw = big_from_chars(all.as_slice());
    proof {
        lemma_digits_value(all@);
        lemma_first_from(b@, 'e', 'E', 0);
        lemma_first_from(m@, '.', '.', 0);
    }
    let digits = big_trim(&raw);
    Some(NumberParts { digits, xneg, xval, frac_len: fp.len() })
}

/// Reads a timestamp field as `f32::from_str` reads it: `None` when it is
/// not a number.
pub fn read_field(f: &[char]) -> (r: Option<Field>)
    requires
        f@.len() < text_limit(),
    ensures
        match r {
            None => spec_field(f@) is None,
            Some(v) => spec_field(f@) == Some(field_view(v)) && field_wf(v, f@.len() as int),
        },
{
    let (neg, b) = split_sign_exec(f);
    let inf3: Vec<char> = vec!['i', 'n', 'f'];
    let inf8: Vec<char> = vec!['i', 'n', 'f', 'i', 'n', 'i', 't', 'y'];
    let nan3: Vec<char> = vec!['n', 'a', 'n'];
    assert(inf3@ == seq!['i', 'n', 'f']);
    assert(inf8@ == seq!['i', 'n', 'f', 'i', 'n', 'i', 't', 'y']);
    assert(nan3@ == seq!['n', 'a', 'n']);
    if eq_no_case_exec(b.as_slice(), inf3.as_slice()) || eq_no_case_exec(
        b.as_slice(),
        inf8.as_slice(),
    ) {
        return Some(Field { kind: 1, neg, digits: Vec::new(), exp: 0 });
    }
    if eq_no_case_exec(b.as_slice(), nan3.as_slice()) {
        return Some(Field { kind: 0, neg, digits: Vec::new(), exp: 0 });
    }
    let parts = match read_number(b.as_slice()) {
        None => return None,
        Some(p) => p,
    };
    let digits = parts.digits;
    proof {
        lemma_sig_digits(digits@);
    }
    let nd = digits.len();
    if nd == 0 {
        return Some(Field { kind: 2, neg, digits, exp: 0 });
    }
    let fl = parts.frac_len as i128;
    let cap: u128 = 1_000_000_000_000_000_000_000_000_000_000u128;
    if parts.xval >= cap {
        // an exponent of thirty digits or more: far beyond either limit
        if parts.xneg {
            return Some(Field { kind: 2, neg, digits, exp: 0 });
        } else {
            return Some(Field { kind: 1, neg, digits, exp: 0 });
        }
    }
    let xv = parts.xval as i128;
    let ex: i128 = if parts.xneg {
        -xv - fl
    } else {
        xv - fl
    };
    assert(ex == number_exp(b@));
    let top = nd as i128 + ex;
    if top > 39 {
        Some(Field { kind: 1, neg, digits, exp: 0 })
    } else if top < -45 {
        Some(Field { kind: 2, neg, digits, exp: 0 })
    } else {
        Some(Field { kind: 3, neg, digits, exp: ex })
    }
}

} // verus!
