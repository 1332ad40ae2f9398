//! Natural numbers of any size as little-endian decimal digits, for exact
//! arithmetic on the decimal numbers of subtitle timestamps.

use vstd::prelude::*;
use vstd::arithmetic::div_mod::lemma_fundamental_div_mod_converse;

verus! {

/// `10^k`.
pub open spec fn pow10(k: nat) -> nat
    decreases k,
{
    if k == 0 {
        1
    } else {
        10 * pow10((k - 1) as nat)
    }
}

/// The value of little-endian decimal digits.
pub open spec fn big_val(d: Seq<u8>) -> nat
    decreases d.len(),
{
    if d.len() == 0 {
        0
    } else {
        d[0] as nat + 10 * big_val(d.drop_first())
    }
}

/// Every entry is a decimal digit.
pub open spec fn is_digits(d: Seq<u8>) -> bool {
    forall|i: int| 0 <= i < d.len() ==> #[trigger] d[i] < 10
}

/// The digit at `i`, zero beyond the end.
pub open spec fn digit_at(d: Seq<u8>, i: int) -> nat {
    if 0 <= i < d.len() {
        d[i] as nat
    } else {
        0
    }
}

/// The value of the digits below position `i`.
pub open spec fn val_below(d: Seq<u8>, i: int) -> nat {
    if i >= d.len() {
        big_val(d)
    } else {
        big_val(d.take(i))
    }
}

pub proof fn lemma_pow10_pos(k: nat)
    ensures
        pow10(k) >= 1,
    decreases k,
{
    if k > 0 {
        lemma_pow10_pos((k - 1) as nat);
    }
}

pub proof fn lemma_pow10_add(a: nat, b: nat)
    ensures
        pow10(a + b) == pow10(a) * pow10(b),
    decreases a,
{
    if a > 0 {
        let a1 = (a - 1) as nat;
        lemma_pow10_add(a1, b);
        assert((a + b - 1) as nat == a1 + b);
        assert(pow10(a + b) == 10 * pow10(a1 + b));
        assert(pow10(a) == 10 * pow10(a1));
        assert(10 * (pow10(a1) * pow10(b)) == (10 * pow10(a1)) * pow10(b)) by (nonlinear_arith);
    } else {
        assert(pow10(0) == 1);
        assert(a + b == b);
        assert(1 * pow10(b) == pow10(b));
    }
}

pub proof fn lemma_pow10_mono(a: nat, b: nat)
    requires
        a <= b,
    ensures
        pow10(a) <= pow10(b),
    decreases b,
{
    if a < b {
        lemma_pow10_mono(a, (b - 1) as nat);
        lemma_pow10_pos((b - 1) as nat);
    }
}

/// Appending a top digit.
pub proof fn lemma_val_push(d: Seq<u8>, x: u8)
    ensures
        big_val(d.push(x)) == big_val(d) + x as nat * pow10(d.len()),
    decreases d.len(),
{
    if d.len() > 0 {
        let r = d.drop_first();
        assert(d.push(x).drop_first() =~= r.push(x));
        assert(d.push(x)[0] == d[0]);
        lemma_val_push(r, x);
        assert(pow10(d.len()) == 10 * pow10(r.len()));
        assert(10 * (big_val(r) + x as nat * pow10(r.len())) == 10 * big_val(r) + x as nat * (10
            * pow10(r.len()))) by (nonlinear_arith);
    } else {
        assert(d.push(x).drop_first() =~= Seq::<u8>::empty());
        assert(d.push(x)[0] == x);
        assert(big_val(Seq::<u8>::empty()) == 0);
        assert(big_val(d) == 0);
        assert(pow10(0) == 1);
        assert(x as nat * 1 == x as nat);
    }
}

/// The value of digits is below `10^len`.
pub proof fn lemma_val_bound(d: Seq<u8>)
    requires
        is_digits(d),
    ensures
        big_val(d) < pow10(d.len()),
    decreases d.len(),
{
    if d.len() > 0 {
        let r = d.drop_first();
        assert(is_digits(r)) by {
            assert forall|i: int| 0 <= i < r.len() implies #[trigger] r[i] < 10 by {
                assert(r[i] == d[i + 1]);
            }
        }
        lemma_val_bound(r);
        assert(d[0] < 10);
    }
}

/// Stepping the value below a position.
pub proof fn lemma_val_below_step(d: Seq<u8>, i: int)
    requires
        0 <= i,
    ensures
        val_below(d, i + 1) == val_below(d, i) + digit_at(d, i) * pow10(i as nat),
{
    if i < d.len() {
        assert(d.take(i + 1) =~= d.take(i).push(d[i]));
        lemma_val_push(d.take(i), d[i]);
        if i + 1 == d.len() {
            assert(d.take(i + 1) =~= d);
        }
    } else {
        assert(digit_at(d, i) == 0);
        assert(0 * pow10(i as nat) == 0);
    }
}

pub proof fn lemma_val_below_zero(d: Seq<u8>)
    ensures
        val_below(d, 0) == 0,
{
    assert(d.take(0) =~= Seq::<u8>::empty());
    if d.len() == 0 {
        assert(d =~= Seq::<u8>::empty());
    }
}

pub proof fn lemma_val_below_all(d: Seq<u8>, i: int)
    requires
        i >= d.len(),
    ensures
        val_below(d, i) == big_val(d),
{
}

/// Leading (low) zeros multiply by a power of ten.
pub proof fn lemma_val_shift(k: nat, d: Seq<u8>)
    ensures
        big_val(Seq::new(k, |i: int| 0u8) + d) == pow10(k) * big_val(d),
    decreases k,
{
    if k > 0 {
        let z = Seq::new(k, |i: int| 0u8);
        let z1 = Seq::new((k - 1) as nat, |i: int| 0u8);
        assert((z + d).drop_first() =~= z1 + d);
        assert((z + d)[0] == 0);
        assert(pow10(k) == 10 * pow10((k - 1) as nat));
        lemma_val_shift((k - 1) as nat, d);
        assert(10 * (pow10((k - 1) as nat) * big_val(d)) == (10 * pow10((k - 1) as nat)) * big_val(
            d,
        )) by (nonlinear_arith);
    } else {
        assert(Seq::new(0, |i: int| 0u8) + d =~= d);
        assert(pow10(0) == 1);
        assert(1 * big_val(d) == big_val(d));
    }
}

/// Splitting the digits at `k`.
pub proof fn lemma_val_split(d: Seq<u8>, k: int)
    requires
        0 <= k <= d.len(),
    ensures
        big_val(d) == big_val(d.take(k)) + pow10(k as nat) * big_val(d.skip(k)),
    decreases k,
{
    if k > 0 {
        let r = d.drop_first();
        lemma_val_split(r, k - 1);
        assert(r.take(k - 1) =~= d.take(k).drop_first());
        assert(r.skip(k - 1) =~= d.skip(k));
        assert(d.take(k)[0] == d[0]);
        assert(pow10(k as nat) == 10 * pow10((k - 1) as nat));
        assert(10 * (big_val(r.take(k - 1)) + pow10((k - 1) as nat) * big_val(r.skip(k - 1)))
            == 10 * big_val(r.take(k - 1)) + (10 * pow10((k - 1) as nat)) * big_val(r.skip(k - 1)))
            by (nonlinear_arith);
    } else {
        assert(d.take(0) =~= Seq::<u8>::empty());
        assert(d.skip(0) =~= d);
        assert(pow10(0) == 1);
        assert(big_val(Seq::<u8>::empty()) == 0);
        assert(1 * big_val(d) == big_val(d));
    }
}

/// Dropping the `k` low digits divides by `10^k`.
pub proof fn lemma_val_drop(d: Seq<u8>, k: int)
    requires
        is_digits(d),
        0 <= k <= d.len(),
    ensures
        big_val(d.skip(k)) == big_val(d) / pow10(k as nat),
{
    lemma_val_split(d, k);
    assert(is_digits(d.take(k))) by {
        assert forall|i: int| 0 <= i < d.take(k).len() implies #[trigger] d.take(k)[i] < 10 by {
            assert(d.take(k)[i] == d[i]);
        }
    }
    lemma_val_bound(d.take(k));
    lemma_pow10_pos(k as nat);
    assert(big_val(d) as int == big_val(d.skip(k)) as int * pow10(k as nat) as int + big_val(
        d.take(k),
    ) as int) by (nonlinear_arith)
        requires
            big_val(d) == big_val(d.take(k)) + pow10(k as nat) * big_val(d.skip(k)),
    ;
    lemma_fundamental_div_mod_converse(
        big_val(d) as int,
        pow10(k as nat) as int,
        big_val(d.skip(k)) as int,
        big_val(d.take(k)) as int,
    );
}

/// The sum of two digit sequences.
pub fn big_add(a: &Vec<u8>, b: &Vec<u8>) -> (r: Vec<u8>)
    requires
        is_digits(a@),
        is_digits(b@),
    ensures
        is_digits(r@),
        big_val(r@) == big_val(a@) + big_val(b@),
{
    let n = if a.len() > b.len() {
        a.len()
    } else {
        b.len()
    };
    let mut out: Vec<u8> = Vec::new();
    let mut carry: u8 = 0;
    let mut i: usize = 0;
    proof {
        lemma_val_below_zero(a@);
        lemma_val_below_zero(b@);
        assert(0 * pow10(0) == 0);
    }
    while i < n
        invariant
            n >= a@.len(),
            n >= b@.len(),
            i <= n,
            out@.len() == i,
            is_digits(a@),
            is_digits(b@),
            is_digits(out@),
            carry <= 1,
            big_val(out@) + carry as nat * pow10(i as nat) == val_below(a@, i as int) + val_below(
                b@,
                i as int,
            ),
        decreases n - i,
    {
        let x: u8 = if i < a.len() {
            a[i]
        } else {
            0
        };
        let y: u8 = if i < b.len() {
            b[i]
        } else {
            0
        };
        let s = x + y + carry;
        let dg = s % 10;
        let nc = s / 10;
        proof {
            lemma_val_below_step(a@, i as int);
            lemma_val_below_step(b@, i as int);
            lemma_val_push(out@, dg);
            assert(digit_at(a@, i as int) == x as nat);
            assert(digit_at(b@, i as int) == y as nat);
            assert(pow10((i + 1) as nat) == 10 * pow10(i as nat));
            assert(s == dg + 10 * nc);
            assert((dg as nat) * pow10(i as nat) + (nc as nat) * (10 * pow10(i as nat)) == (s as nat)
                * pow10(i as nat)) by (nonlinear_arith)
                requires
                    s == dg + 10 * nc,
            ;
            assert((s as nat) * pow10(i as nat) == (x as nat) * pow10(i as nat) + (y as nat) * pow10(
                i as nat,
            ) + (carry as nat) * pow10(i as nat)) by (nonlinear_arith)
                requires
                    s == x + y + carry,
            ;
        }
        out.push(dg);
        carry = nc;
        i = i + 1;
    }
    proof {
        lemma_val_below_all(a@, n as int);
        lemma_val_below_all(b@, n as int);
    }
    if carry > 0 {
        proof {
            lemma_val_push(out@, carry);
        }
        out.push(carry);
    }
    out
}

/// `a - b` when `b <= a`, with `true` when `a < b` (the digits are then
/// meaningless).
pub fn big_sub(a: &Vec<u8>, b: &Vec<u8>) -> (r: (Vec<u8>, bool))
    requires
        is_digits(a@),
        is_digits(b@),
    ensures
        is_digits(r.0@),
        r.1 == (big_val(a@) < big_val(b@)),
        !r.1 ==> big_val(r.0@) == big_val(a@) - big_val(b@),
{
    let n = if a.len() > b.len() {
        a.len()
    } else {
        b.len()
    };
    let mut out: Vec<u8> = Vec::new();
    let mut borrow: u8 = 0;
    let mut i: usize = 0;
    proof {
        lemma_val_below_zero(a@);
        lemma_val_below_zero(b@);
        assert(0 * pow10(0) == 0);
    }
    while i < n
        invariant
            n >= a@.len(),
            n >= b@.len(),
            i <= n,
            out@.len() == i,
            is_digits(a@),
            is_digits(b@),
            is_digits(out@),
            borrow <= 1,
            big_val(out@) as int - borrow as int * pow10(i as nat) == val_below(a@, i as int) as int
                - val_below(b@, i as int) as int,
        decreases n - i,
    {
        let x: u8 = if i < a.len() {
            a[i]
        } else {
            0
        };
        let y: u8 = if i < b.len() {
            b[i]
        } else {
            0
        };
        let need = y + borrow;
        let (dg, nb): (u8, u8) = if x >= need {
            (x - need, 0)
        } else {
            (x + 10 - need, 1)
        };
        proof {
            lemma_val_below_step(a@, i as int);
            lemma_val_below_step(b@, i as int);
            lemma_val_push(out@, dg);
            assert(digit_at(a@, i as int) == x as nat);
            assert(digit_at(b@, i as int) == y as nat);
            assert(pow10((i + 1) as nat) == 10 * pow10(i as nat));
            let p = pow10(i as nat) as int;
            assert((dg as int) * p - (nb as int) * (10 * p) == (x as int) * p - (y as int) * p - (
            borrow as int) * p) by (nonlinear_arith)
                requires
                    dg as int - 10 * nb as int == x as int - y as int - borrow as int,
            ;
        }
        out.push(dg);
        borrow = nb;
        i = i + 1;
    }
    proof {
        lemma_val_below_all(a@, n as int);
        lemma_val_below_all(b@, n as int);
        lemma_val_bound(out@);
    }
    (out, borrow == 1)
}

/// `a * c` for a small factor `c`.
pub fn big_mul_small(a: &Vec<u8>, c: u8) -> (r: Vec<u8>)
    requires
        is_digits(a@),
        c <= 100,
    ensures
        is_digits(r@),
        big_val(r@) == big_val(a@) * c as nat,
{
    let n = a.len();
    let mut out: Vec<u8> = Vec::new();
    let mut carry: u32 = 0;
    let mut i: usize = 0;
    proof {
        lemma_val_below_zero(a@);
        assert(0 * pow10(0) == 0);
        assert(0 * (c as nat) == 0);
    }
    while i < n
        invariant
            n == a@.len(),
            i <= n,
            out@.len() == i,
            c <= 100,
            is_digits(a@),
            is_digits(out@),
            carry <= 100,
            big_val(out@) + carry as nat * pow10(i as nat) == val_below(a@, i as int) * c as nat,
        decreases n - i,
    {
        let x = a[i] as u32;
        assert(a@[i as int] < 10);
        assert(x * (c as u32) <= 1000) by (nonlinear_arith)
            requires
                x < 10,
                c <= 100,
        ;
        let s = x * (c as u32) + carry;
        let dg = (s % 10) as u8;
        let nc = s / 10;
        proof {
            lemma_val_below_step(a@, i as int);
            lemma_val_push(out@, dg);
            assert(digit_at(a@, i as int) == x as nat);
            assert(pow10((i + 1) as nat) == 10 * pow10(i as nat));
            let p = pow10(i as nat);
            assert((dg as nat) * p + (nc as nat) * (10 * p) == (x as nat) * (c as nat) * p + (
            carry as nat) * p) by (nonlinear_arith)
                requires
                    s == dg + 10 * nc,
                    s == x * c + carry,
            ;
            assert((val_below(a@, i as int) + (x as nat) * p) * (c as nat) == val_below(a@, i as int)
                * (c as nat) + (x as nat) * (c as nat) * p) by (nonlinear_arith);
            assert(x * c <= 900) by (nonlinear_arith)
                requires
                    x < 10,
                    c <= 100,
            ;
        }
        out.push(dg);
        carry = nc;
        i = i + 1;
    }
    proof {
        lemma_val_below_all(a@, n as int);
    }
    while carry > 0
        invariant
            is_digits(out@),
            big_val(out@) + carry as nat * pow10(out@.len()) == big_val(a@) * c as nat,
        decreases carry,
    {
        let dg = (carry % 10) as u8;
        proof {
            lemma_val_push(out@, dg);
            assert(pow10((out@.len() + 1) as nat) == 10 * pow10(out@.len()));
            let p = pow10(out@.len());
            assert((dg as nat) * p + ((carry / 10) as nat) * (10 * p) == (carry as nat) * p)
                by (nonlinear_arith)
                requires
                    carry == dg + 10 * (carry / 10),
            ;
        }
        out.push(dg);
        carry = carry / 10;
    }
    out
}

/// `a * 10^k`: `k` zero digits below `a`.
pub fn big_shift(a: &Vec<u8>, k: usize) -> (r: Vec<u8>)
    requires
        is_digits(a@),
    ensures
        is_digits(r@),
        big_val(r@) == pow10(k as nat) * big_val(a@),
{
    let mut out: Vec<u8> = Vec::new();
    let mut i: usize = 0;
    while i < k
        invariant
            i <= k,
            out@ == Seq::new(i as nat, |j: int| 0u8),
        decreases k - i,
    {
        out.push(0);
        assert(out@ =~= Seq::new((i + 1) as nat, |j: int| 0u8));
        i = i + 1;
    }
    let mut j: usize = 0;
    while j < a.len()
        invariant
            j <= a@.len(),
            out@ == Seq::new(k as nat, |t: int| 0u8) + a@.take(j as int),
        decreases a@.len() - j,
    {
        out.push(a[j]);
        assert(a@.take(j + 1) =~= a@.take(j as int).push(a@[j as int]));
        assert(out@ =~= Seq::new(k as nat, |t: int| 0u8) + a@.take(j + 1));
        j = j + 1;
    }
    assert(a@.take(a@.len() as int) =~= a@);
    proof {
        lemma_val_shift(k as nat, a@);
        assert forall|t: int| 0 <= t < out@.len() implies #[trigger] out@[t] < 10 by {
            if t >= k {
                assert(out@[t] == a@[t - k]);
            }
        }
    }
    out
}

/// `a / 10^k` (rounded down): the digits from position `k` up.
pub fn big_drop(a: &Vec<u8>, k: usize) -> (r: Vec<u8>)
    requires
        is_digits(a@),
    ensures
        is_digits(r@),
        big_val(r@) == big_val(a@) / pow10(k as nat),
{
    let mut out: Vec<u8> = Vec::new();
    if k >= a.len() {
        proof {
            lemma_val_bound(a@);
            lemma_pow10_mono(a@.len(), k as nat);
            assert(big_val(a@) / pow10(k as nat) == 0) by (nonlinear_arith)
                requires
                    big_val(a@) < pow10(k as nat),
            ;
            assert(big_val(out@) == 0);
        }
        return out;
    }
    let mut j: usize = k;
    while j < a.len()
        invariant
            k <= j <= a@.len(),
            out@ == a@.subrange(k as int, j as int),
        decreases a@.len() - j,
    {
        out.push(a[j]);
        assert(out@ =~= a@.subrange(k as int, j + 1));
        j = j + 1;
    }
    proof {
        assert(out@ =~= a@.skip(k as int));
        lemma_val_drop(a@, k as int);
        assert forall|t: int| 0 <= t < out@.len() implies #[trigger] out@[t] < 10 by {
            assert(out@[t] == a@[t + k]);
        }
    }
    out
}

/// Number of digits of `n` (none for zero).
pub open spec fn sig_digits(n: nat) -> nat
    decreases n,
{
    if n == 0 {
        0
    } else {
        1 + sig_digits(n / 10)
    }
}

/// Digits without zero digits above the top non-zero one.
pub open spec fn is_trimmed(d: Seq<u8>) -> bool {
    d.len() == 0 || d.last() != 0
}

pub proof fn lemma_sig_digits(d: Seq<u8>)
    requires
        is_digits(d),
        is_trimmed(d),
    ensures
        sig_digits(big_val(d)) == d.len(),
        big_val(d) == 0 <==> d.len() == 0,
    decreases d.len(),
{
    if d.len() > 0 {
        let r = d.drop_first();
        assert(is_digits(r)) by {
            assert forall|i: int| 0 <= i < r.len() implies #[trigger] r[i] < 10 by {
                assert(r[i] == d[i + 1]);
            }
        }
        if r.len() > 0 {
            assert(r.last() == d.last());
        }
        lemma_sig_digits(r);
        assert(d[0] < 10);
        let v = big_val(d);
        assert(v / 10 == big_val(r)) by {
            lemma_fundamental_div_mod_converse(v as int, 10, big_val(r) as int, d[0] as int);
        }
        if r.len() == 0 {
            assert(d[0] == d.last());
        }
    }
}

/// Drops zero digits from the top.
pub fn big_trim(a: &Vec<u8>) -> (r: Vec<u8>)
    requires
        is_digits(a@),
    ensures
        is_digits(r@),
        is_trimmed(r@),
        big_val(r@) == big_val(a@),
        r@.len() <= a@.len(),
{
    let mut n = a.len();
    while n > 0 && a[n - 1] == 0
        invariant
            n <= a@.len(),
            forall|t: int| n <= t < a@.len() ==> #[trigger] a@[t] == 0,
        decreases n,
    {
        n = n - 1;
    }
    let mut out: Vec<u8> = Vec::new();
    let mut j: usize = 0;
    while j < n
        invariant
            j <= n <= a@.len(),
            out@ == a@.take(j as int),
        decreases n - j,
    {
        out.push(a[j]);
        assert(a@.take(j + 1) =~= a@.take(j as int).push(a@[j as int]));
        j = j + 1;
    }
    proof {
        lemma_val_split(a@, n as int);
        let hi = a@.skip(n as int);
        assert(hi =~= Seq::new(hi.len(), |t: int| 0u8) + Seq::<u8>::empty());
        lemma_val_shift(hi.len(), Seq::<u8>::empty());
        assert(big_val(Seq::<u8>::empty()) == 0);
        assert(pow10(hi.len()) * 0 == 0);
        assert(big_val(hi) == 0);
        assert(pow10(n as nat) * big_val(hi) == 0) by (nonlinear_arith)
            requires
                big_val(hi) == 0,
        ;
        assert forall|t: int| 0 <= t < out@.len() implies #[trigger] out@[t] < 10 by {
            assert(out@[t] == a@[t]);
        }
    }
    out
}

/// The value, or `cap` when it is larger.
pub fn big_to_capped(a: &Vec<u8>, cap: u128) -> (r: u128)
    requires
        is_digits(a@),
        cap <= 0x1000_0000_0000_0000_0000_0000_0000_0000,
    ensures
        r as nat == if big_val(a@) < cap {
            big_val(a@)
        } else {
            cap as nat
        },
{
    let mut i: usize = a.len();
    let mut acc: u128 = 0;
    proof {
        assert(a@.skip(a@.len() as int) =~= Seq::<u8>::empty());
    }
    while i > 0
        invariant
            i <= a@.len(),
            is_digits(a@),
            cap <= 0x1000_0000_0000_0000_0000_0000_0000_0000,
            acc as nat == if big_val(a@.skip(i as int)) < cap {
                big_val(a@.skip(i as int))
            } else {
                cap as nat
            },
        decreases i,
    {
        let dg = a[i - 1] as u128;
        proof {
            assert(a@.skip(i - 1).drop_first() =~= a@.skip(i as int));
        }
        let t = acc * 10 + dg;
        acc = if t < cap {
            t
        } else {
            cap
        };
        i = i - 1;
    }
    proof {
        assert(a@.skip(0) =~= a@);
    }
    acc
}

/// Is every character a decimal digit?
pub open spec fn is_digit_char(c: char) -> bool {
    48 <= (c as u32) <= 57
}

/// The little-endian digits of decimal characters written most significant
/// first.
pub open spec fn digits_of_chars(cs: Seq<char>) -> Seq<u8> {
    Seq::new(cs.len(), |i: int| ((cs[cs.len() - 1 - i] as u32) - 48) as u8)
}

/// The digits of a run of decimal characters.
pub fn big_from_chars(cs: &[char]) -> (r: Vec<u8>)
    requires
        forall|i: int| 0 <= i < cs@.len() ==> is_digit_char(#[trigger] cs@[i]),
    ensures
        r@ == digits_of_chars(cs@),
        is_digits(r@),
{
    let n = cs.len();
    let mut out: Vec<u8> = Vec::new();
    let mut k: usize = 0;
    while k < n
        invariant
            n == cs@.len(),
            k <= n,
            forall|i: int| 0 <= i < cs@.len() ==> is_digit_char(#[trigger] cs@[i]),
            out@ == digits_of_chars(cs@).take(k as int),
        decreases n - k,
    {
        let c = cs[n - 1 - k];
        assert(is_digit_char(cs@[n - 1 - k]));
        out.push((c as u32 - 48) as u8);
        assert(out@ =~= digits_of_chars(cs@).take(k + 1));
        k = k + 1;
    }
    assert(digits_of_chars(cs@).take(n as int) =~= digits_of_chars(cs@));
    out
}

/// The digits of `n`.
pub fn big_from_u64(n: u64) -> (r: Vec<u8>)
    ensures
        is_digits(r@),
        big_val(r@) == n,
{
    let mut out: Vec<u8> = Vec::new();
    let mut m: u64 = n;
    assert(big_val(out@) == 0 && pow10(out@.len()) == 1);
    while m > 0
        invariant
            is_digits(out@),
            big_val(out@) + pow10(out@.len()) * m == n,
        decreases m,
    {
        let d = (m % 10) as u8;
        proof {
            lemma_val_push(out@, d);
            let p = pow10(out@.len());
            assert(pow10(out@.len() + 1) == 10 * p);
            assert(d as nat * p + 10 * p * (m / 10) as nat == p * m) by (nonlinear_arith)
                requires
                    d as nat == m % 10,
                    m == 10 * (m / 10) + m % 10,
            ;
        }
        out.push(d);
        m = m / 10;
    }
    out
}

} // verus!
