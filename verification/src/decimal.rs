//! Fixed-point prices.
//!
//! A price is held in micro-units (millionths of one unit), so that the
//! midpoint and the rounding to two decimal places are exact integer
//! arithmetic, pinned here rather than inherited from a platform float.
//! A numeric literal (sign, integer digits, optional fraction, optional
//! exponent) is parsed into micro-units, truncating toward zero below the
//! sixth decimal; values above [`MICRO_MAX`] in magnitude are not
//! representable and yield no price.

use vstd::prelude::*;
use vstd::arithmetic::div_mod::lemma_fundamental_div_mod_converse;

verus! {

/// Micro-units per whole cent (hundredth of a unit).
pub const MICRO_PER_CENT: i64 = 10_000;

/// Largest representable price magnitude, in micro-units (one hundred
/// billion whole units): the cap the exact fixed-point model forces. A
/// numeric literal beyond it in magnitude denotes no price, and the query
/// it came from is skipped.
pub const MICRO_MAX: i64 = 100_000_000_000_000_000;

pub open spec fn is_digit(c: u8) -> bool {
    48 <= c <= 57
}

pub open spec fn digit_val(c: u8) -> int {
    c - 48
}

pub open spec fn all_digits(s: Seq<u8>) -> bool {
    forall|i: int| 0 <= i < s.len() ==> is_digit(s[i])
}

/// The number a string of decimal digits denotes.
pub open spec fn digits_val(s: Seq<u8>) -> int
    decreases s.len(),
{
    if s.len() == 0 {
        0
    } else {
        digits_val(s.drop_last()) * 10 + digit_val(s.last())
    }
}

pub open spec fn pow10(e: nat) -> int
    decreases e,
{
    if e == 0 {
        1
    } else {
        10 * pow10((e - 1) as nat)
    }
}

pub proof fn lemma_pow10_pos(e: nat)
    ensures
        pow10(e) >= 1,
    decreases e,
{
    if e > 0 {
        lemma_pow10_pos((e - 1) as nat);
    }
}

pub proof fn lemma_pow10_adds(a: nat, b: nat)
    ensures
        pow10(a + b) == pow10(a) * pow10(b),
    decreases a,
{
    if a == 0 {
    } else {
        lemma_pow10_adds((a - 1) as nat, b);
        assert(pow10(a + b) == 10 * pow10((a + b - 1) as nat));
        assert(10 * (pow10((a - 1) as nat) * pow10(b)) == (10 * pow10((a - 1) as nat)) * pow10(b))
            by (nonlinear_arith);
    }
}

pub proof fn lemma_pow10_increases(a: nat, b: nat)
    requires
        a <= b,
    ensures
        pow10(a) <= pow10(b),
    decreases b,
{
    if a < b {
        lemma_pow10_increases(a, (b - 1) as nat);
        lemma_pow10_pos((b - 1) as nat);
    }
}

/// A digit string denotes a value below ten to its length.
pub proof fn lemma_digits_val_bound(s: Seq<u8>)
    requires
        all_digits(s),
    ensures
        0 <= digits_val(s) < pow10(s.len()),
    decreases s.len(),
{
    if s.len() > 0 {
        lemma_digits_val_bound(s.drop_last());
        assert(is_digit(s.last()));
        assert(digits_val(s.drop_last()) * 10 + digit_val(s.last()) < pow10(s.len())) by {
            let v = digits_val(s.drop_last());
            assert(v <= pow10((s.len() - 1) as nat) - 1);
            assert(v * 10 <= (pow10((s.len() - 1) as nat) - 1) * 10) by (nonlinear_arith)
                requires v <= pow10((s.len() - 1) as nat) - 1;
        }
    }
}

/// A digit string with a nonzero leading digit denotes at least ten to the
/// power of one less than its length.
pub proof fn lemma_digits_val_lower(s: Seq<u8>)
    requires
        all_digits(s),
        s.len() > 0,
        s[0] != 48,
    ensures
        digits_val(s) >= pow10((s.len() - 1) as nat),
    decreases s.len(),
{
    if s.len() == 1 {
        assert(digits_val(s) == digits_val(s.drop_last()) * 10 + digit_val(s.last()));
        assert(digit_val(s[0]) >= 1);
    } else {
        lemma_digits_val_lower(s.drop_last());
        lemma_digits_val_bound(s);
        let p = pow10((s.len() - 2) as nat);
        assert(digits_val(s.drop_last()) >= p);
        assert(digits_val(s.drop_last()) * 10 >= p * 10) by (nonlinear_arith)
            requires digits_val(s.drop_last()) >= p;
        assert(is_digit(s.last()));
        assert(pow10((s.len() - 1) as nat) == 10 * p);
    }
}

/// Splitting a digit string splits its value at the corresponding power of
/// ten.
pub proof fn lemma_digits_val_split(s: Seq<u8>, m: int)
    requires
        all_digits(s),
        0 <= m <= s.len(),
    ensures
        digits_val(s) == digits_val(s.take(m)) * pow10((s.len() - m) as nat) + digits_val(
            s.skip(m),
        ),
    decreases s.len(),
{
    if m == s.len() {
        assert(s.take(m) =~= s);
        assert(s.skip(m) =~= Seq::<u8>::empty());
    } else {
        let dl = s.drop_last();
        lemma_digits_val_split(dl, m);
        assert(dl.take(m) =~= s.take(m));
        assert(dl.skip(m) =~= s.skip(m).drop_last());
        assert(s.skip(m).len() > 0);
        assert(s.skip(m).last() == s.last());
        let k = (s.len() - 1 - m) as nat;
        let a = digits_val(s.take(m));
        let b = digits_val(s.skip(m).drop_last());
        assert(digits_val(s) == (a * pow10(k) + b) * 10 + digit_val(s.last()));
        assert((a * pow10(k) + b) * 10 == a * (10 * pow10(k)) + b * 10) by (nonlinear_arith);
        assert(pow10((s.len() - m) as nat) == 10 * pow10(k));
        assert(digits_val(s.skip(m)) == b * 10 + digit_val(s.last()));
    }
}

/// A leading zero does not change the denoted value.
pub proof fn lemma_digits_val_leading_zero(s: Seq<u8>)
    requires
        s.len() > 0,
        s[0] == 48,
    ensures
        digits_val(s) == digits_val(s.drop_first()),
    decreases s.len(),
{
    if s.len() == 1 {
        assert(s.drop_last().len() == 0);
        assert(digits_val(s.drop_last()) == 0);
        assert(digits_val(s) == digit_val(s.last()));
        assert(digit_val(s.last()) == 0);
        assert(s.drop_first().len() == 0);
        assert(digits_val(s.drop_first()) == 0);
    } else {
        let dl = s.drop_last();
        lemma_digits_val_leading_zero(dl);
        assert(dl.drop_first() =~= s.drop_first().drop_last());
        assert(s.drop_first().last() == s.last());
        assert(digits_val(s) == digits_val(dl) * 10 + digit_val(s.last()));
        assert(s.drop_first().len() > 0);
        assert(digits_val(s.drop_first()) == digits_val(s.drop_first().drop_last()) * 10
            + digit_val(s.drop_first().last()));
    }
}

/// Dropping the last `k` digits divides the denoted value by ten to the
/// `k`, rounding toward zero.
pub proof fn lemma_digits_val_shift(s: Seq<u8>, k: int)
    requires
        all_digits(s),
        0 <= k <= s.len(),
    ensures
        digits_val(s) / pow10(k as nat) == digits_val(s.take(s.len() - k)),
{
    let m = s.len() - k;
    lemma_digits_val_split(s, m);
    lemma_digits_val_bound(s.skip(m));
    lemma_digits_val_bound(s.take(m));
    assert(s.skip(m).len() == k);
    lemma_pow10_pos(k as nat);
    lemma_fundamental_div_mod_converse(
        digits_val(s),
        pow10(k as nat),
        digits_val(s.take(m)),
        digits_val(s.skip(m)),
    );
}

/// Leading zero digits do not change the denoted value.
pub proof fn lemma_digits_val_skip_zeros(s: Seq<u8>, z: int)
    requires
        0 <= z <= s.len(),
        forall|j: int| 0 <= j < z ==> s[j] == 48,
    ensures
        digits_val(s.skip(z)) == digits_val(s),
    decreases z,
{
    if z == 0 {
        assert(s.skip(0) =~= s);
    } else {
        lemma_digits_val_leading_zero(s);
        assert(forall|j: int| 0 <= j < z - 1 ==> s.drop_first()[j] == 48);
        lemma_digits_val_skip_zeros(s.drop_first(), z - 1);
        assert(s.drop_first().skip(z - 1) =~= s.skip(z));
    }
}

/// First position at or after `i` that does not hold a decimal digit.
pub open spec fn digits_end(s: Seq<u8>, i: int) -> int
    decreases s.len() - i,
    when 0 <= i <= s.len()
{
    if i < s.len() && is_digit(s[i]) {
        digits_end(s, i + 1)
    } else {
        i
    }
}

pub proof fn lemma_digits_end_props(s: Seq<u8>, i: int)
    requires
        0 <= i <= s.len(),
    ensures
        i <= digits_end(s, i) <= s.len(),
        forall|j: int| i <= j < digits_end(s, i) ==> is_digit(s[j]),
        digits_end(s, i) < s.len() ==> !is_digit(s[digits_end(s, i)]),
    decreases s.len() - i,
{
    if i < s.len() && is_digit(s[i]) {
        lemma_digits_end_props(s, i + 1);
    }
}

/// Index where the digits of a numeric literal start: past a leading minus
/// sign.
pub open spec fn num_start(s: Seq<u8>) -> int {
    if s.len() > 0 && s[0] == 45 {
        1
    } else {
        0
    }
}

/// End of the integer-digit part. A literal starting with `0` has exactly
/// that one integer digit.
pub open spec fn num_int_end(s: Seq<u8>) -> int {
    let p = num_start(s);
    if p < s.len() && s[p] == 48 {
        p + 1
    } else {
        digits_end(s, p)
    }
}

pub open spec fn num_has_frac(s: Seq<u8>) -> bool {
    num_int_end(s) < s.len() && s[num_int_end(s)] == 46
}

pub open spec fn num_frac_end(s: Seq<u8>) -> int {
    if num_has_frac(s) {
        digits_end(s, num_int_end(s) + 1)
    } else {
        num_int_end(s)
    }
}

pub open spec fn num_has_exp(s: Seq<u8>) -> bool {
    num_frac_end(s) < s.len() && (s[num_frac_end(s)] == 101 || s[num_frac_end(s)] == 69)
}

pub open spec fn num_exp_digit_start(s: Seq<u8>) -> int {
    let q = num_frac_end(s) + 1;
    if q < s.len() && (s[q] == 43 || s[q] == 45) {
        q + 1
    } else {
        q
    }
}

pub open spec fn num_exp_neg(s: Seq<u8>) -> bool {
    let q = num_frac_end(s) + 1;
    q < s.len() && s[q] == 45
}

pub open spec fn num_exp_end(s: Seq<u8>) -> int {
    digits_end(s, num_exp_digit_start(s))
}

/// The significant digits of the literal (integer and fraction digits, in
/// order, without the dot).
pub open spec fn num_digits(s: Seq<u8>) -> Seq<u8> {
    s.subrange(num_start(s), num_int_end(s)) + if num_has_frac(s) {
        s.subrange(num_int_end(s) + 1, num_frac_end(s))
    } else {
        Seq::<u8>::empty()
    }
}

pub open spec fn num_fraclen(s: Seq<u8>) -> int {
    if num_has_frac(s) {
        num_frac_end(s) - (num_int_end(s) + 1)
    } else {
        0
    }
}

pub open spec fn num_exp(s: Seq<u8>) -> int {
    if num_has_exp(s) {
        let v = digits_val(s.subrange(num_exp_digit_start(s), num_exp_end(s)));
        if num_exp_neg(s) {
            -v
        } else {
            v
        }
    } else {
        0
    }
}

/// Whether `s` is a well-formed numeric literal: an optional minus sign,
/// integer digits without a superfluous leading zero, an optional fraction
/// with at least one digit, an optional exponent with at least one digit,
/// and nothing else.
pub open spec fn num_valid(s: Seq<u8>) -> bool {
    &&& num_int_end(s) > num_start(s)
    &&& (num_has_frac(s) ==> num_frac_end(s) > num_int_end(s) + 1)
    &&& (if num_has_exp(s) {
        num_exp_end(s) > num_exp_digit_start(s) && num_exp_end(s) == s.len()
    } else {
        num_frac_end(s) == s.len()
    })
}

/// The micro-unit value denoted by significant digits `d`, of which the
/// last `fraclen` fall behind the decimal point, scaled by ten to the
/// `exp`: truncated toward zero below the sixth decimal place, `None` above
/// [`MICRO_MAX`] in magnitude.
pub open spec fn spec_micro_value(d: Seq<u8>, fraclen: int, exp: int, neg: bool) -> Option<int> {
    let e = exp - fraclen + 6;
    let mag = if e >= 0 {
        digits_val(d) * pow10(e as nat)
    } else {
        digits_val(d) / pow10((-e) as nat)
    };
    if mag > MICRO_MAX as int {
        None
    } else if neg {
        Some(-mag)
    } else {
        Some(mag)
    }
}

/// The price a numeric literal denotes, in micro-units; `None` for an
/// ill-formed literal and for a magnitude above [`MICRO_MAX`].
pub open spec fn spec_price_micro(s: Seq<u8>) -> Option<int> {
    if !num_valid(s) {
        None
    } else {
        spec_micro_value(num_digits(s), num_fraclen(s), num_exp(s), s.len() > 0 && s[0] == 45)
    }
}

/// Scans forward over decimal digits.
fn scan_digits(s: &[u8], i: usize) -> (r: usize)
    requires
        i <= s@.len(),
    ensures
        r == digits_end(s@, i as int),
        i <= r <= s@.len(),
{
    let mut j: usize = i;
    while j < s.len() && 48 <= s[j] && s[j] <= 57
        invariant
            i <= j <= s@.len(),
            digits_end(s@, i as int) == digits_end(s@, j as int),
        decreases s@.len() - j,
    {
        j = j + 1;
    }
    proof {
        lemma_digits_end_props(s@, j as int);
    }
    j
}

/// Reads up to 18 digits as a number.
fn read_digits(s: &[u8], from: usize, to: usize) -> (r: u64)
    requires
        from <= to <= s@.len(),
        to - from <= 18,
        forall|j: int| from <= j < to ==> is_digit(s@[j]),
    ensures
        r as int == digits_val(s@.subrange(from as int, to as int)),
        (r as int) < pow10((to - from) as nat),
{
    let mut acc: u64 = 0;
    let mut j: usize = from;
    proof {
        lemma_pow10_18();
        assert(s@.subrange(from as int, from as int) =~= Seq::<u8>::empty());
    }
    while j < to
        invariant
            from <= j <= to <= s@.len(),
            to - from <= 18,
            forall|k: int| from <= k < to ==> is_digit(s@[k]),
            acc as int == digits_val(s@.subrange(from as int, j as int)),
            (acc as int) < pow10((j - from) as nat),
            pow10(18) == 1_000_000_000_000_000_000,
        decreases to - j,
    {
        proof {
            lemma_pow10_increases(((j - from) + 1) as nat, 18);
            assert(s@.subrange(from as int, j + 1) =~= s@.subrange(from as int, j as int).push(
                s@[j as int],
            ));
            assert(s@.subrange(from as int, j + 1).drop_last() =~= s@.subrange(
                from as int,
                j as int,
            ));
        }
        acc = acc * 10 + (s[j] - 48) as u64;
        j = j + 1;
    }
    acc
}

proof fn lemma_pow10_18()
    ensures
        pow10(18) == 1_000_000_000_000_000_000,
        pow10(17) == 100_000_000_000_000_000,
{
    reveal_with_fuel(pow10, 20);
}

/// Exponent saturation bound: any exponent at or above it puts the value
/// out of range whatever the rest of the literal says.
const EXP_SAT: u128 = 100_000_000_000_000_000_000;

proof fn lemma_pow10_20()
    ensures
        pow10(20) == EXP_SAT as int,
    decreases 0int,
{
    reveal_with_fuel(pow10, 22);
}

/// Reads exponent digits, saturating at [`EXP_SAT`].
fn exp_digits_sat(s: &[u8], from: usize, to: usize) -> (r: u128)
    requires
        from <= to <= s@.len(),
        forall|j: int| from <= j < to ==> is_digit(s@[j]),
    ensures
        ({
            let v = digits_val(s@.subrange(from as int, to as int));
            (v < EXP_SAT as int && r as int == v) || (v >= EXP_SAT as int && r == EXP_SAT)
        }),
{
    let mut acc: u128 = 0;
    let mut j: usize = from;
    proof {
        lemma_pow10_20();
        assert(s@.subrange(from as int, from as int) =~= Seq::<u8>::empty());
    }
    while j < to
        invariant
            from <= j <= to <= s@.len(),
            forall|k: int| from <= k < to ==> is_digit(s@[k]),
            ({
                let v = digits_val(s@.subrange(from as int, j as int));
                (v < EXP_SAT as int && acc as int == v) || (v >= EXP_SAT as int && acc == EXP_SAT)
            }),
        decreases to - j,
    {
        proof {
            assert(s@.subrange(from as int, j + 1) =~= s@.subrange(from as int, j as int).push(
                s@[j as int],
            ));
            assert(s@.subrange(from as int, j + 1).drop_last() =~= s@.subrange(
                from as int,
                j as int,
            ));
        }
        if acc >= 10_000_000_000_000_000_000 {
            acc = EXP_SAT;
        } else {
            acc = acc * 10 + (s[j] - 48) as u128;
        }
        j = j + 1;
    }
    acc
}

proof fn lemma_div_small(x: int, d: int)
    requires
        0 <= x < d,
    ensures
        x / d == 0,
{
    lemma_fundamental_div_mod_converse(x, d, 0, x);
}

/// Parses a numeric literal into a price in micro-units.
#[verifier::rlimit(100)]
pub fn parse_price_micro(s: &[u8]) -> (r: Option<i64>)
    ensures
        match r {
            Some(m) => spec_price_micro(s@) == Some(m as int) && -MICRO_MAX <= m <= MICRO_MAX,
            None => spec_price_micro(s@) is None,
        },
{
    let n = s.len();
    let neg = n > 0 && s[0] == 45;
    let p: usize = if neg { 1 } else { 0 };
    proof {
        assert(p as int == num_start(s@));
        lemma_digits_end_props(s@, p as int);
    }
    if p >= n || s[p] < 48 || s[p] > 57 {
        return None;
    }
    let ie: usize = if s[p] == 48 {
        p + 1
    } else {
        scan_digits(s, p)
    };
    proof {
        assert(ie as int == num_int_end(s@));
        lemma_digits_end_props(s@, p as int);
        assert(ie > p);
    }
    // fraction part
    let mut fe: usize = ie;
    let mut fs: usize = ie;
    if ie < n && s[ie] == 46 {
        fs = ie + 1;
        fe = scan_digits(s, ie + 1);
        if fe == ie + 1 {
            return None;
        }
    }
    proof {
        assert(fe as int == num_frac_end(s@));
        if fs > ie {
            lemma_digits_end_props(s@, fs as int);
        }
    }
    // exponent part
    let mut exp_sat: u128 = 0;
    let mut exp_neg = false;
    let ghost mut ev: int = 0int;
    if fe < n && (s[fe] == 101 || s[fe] == 69) {
        let mut ds = fe + 1;
        if ds < n && (s[ds] == 43 || s[ds] == 45) {
            exp_neg = s[ds] == 45;
            ds = ds + 1;
        }
        proof {
            assert(ds as int == num_exp_digit_start(s@));
            assert(exp_neg == num_exp_neg(s@));
            lemma_digits_end_props(s@, ds as int);
        }
        let ee = scan_digits(s, ds);
        if ee == ds || ee < n {
            return None;
        }
        exp_sat = exp_digits_sat(s, ds, ee);
        proof {
            ev = digits_val(s@.subrange(ds as int, ee as int));
            lemma_digits_val_bound(s@.subrange(ds as int, ee as int));
            assert(num_has_exp(s@));
            assert(num_exp(s@) == if exp_neg { -ev } else { ev });
        }
    } else {
        if fe < n {
            return None;
        }
        proof {
            assert(!num_has_exp(s@));
            assert(num_exp(s@) == if exp_neg { -ev } else { ev });
        }
    }
    proof {
        assert(num_valid(s@));
        assert(num_exp(s@) == if exp_neg { -ev } else { ev });
        assert(ev >= 0);
        assert((ev < EXP_SAT as int && exp_sat as int == ev) || (ev >= EXP_SAT as int && exp_sat
            == EXP_SAT));
    }
    // collect the significant digits, dropping the dot
    let mut d: Vec<u8> = Vec::new();
    let mut j: usize = p;
    proof {
        assert(s@.subrange(p as int, p as int) =~= Seq::<u8>::empty());
        assert(d@ =~= s@.subrange(p as int, p as int));
    }
    while j < ie
        invariant
            p <= j <= ie <= s@.len(),
            d@ == s@.subrange(p as int, j as int),
        decreases ie - j,
    {
        proof {
            assert(s@.subrange(p as int, j + 1) =~= s@.subrange(p as int, j as int).push(
                s@[j as int],
            ));
        }
        d.push(s[j]);
        j = j + 1;
    }
    let ghost intpart: Seq<u8> = s@.subrange(p as int, ie as int);
    let mut j2: usize = fs;
    proof {
        assert(s@.subrange(fs as int, fs as int) =~= Seq::<u8>::empty());
        assert(d@ =~= intpart + s@.subrange(fs as int, fs as int));
    }
    while j2 < fe
        invariant
            fs <= j2 <= fe <= s@.len(),
            d@ == intpart + s@.subrange(fs as int, j2 as int),
        decreases fe - j2,
    {
        proof {
            assert(s@.subrange(fs as int, j2 + 1) =~= s@.subrange(fs as int, j2 as int).push(
                s@[j2 as int],
            ));
            assert(intpart + s@.subrange(fs as int, j2 + 1) =~= (intpart + s@.subrange(
                fs as int,
                j2 as int,
            )).push(s@[j2 as int]));
        }
        d.push(s[j2]);
        j2 = j2 + 1;
    }
    proof {
        assert(d@ =~= num_digits(s@));
        assert(all_digits(d@));
    }
    let flen: usize = fe - fs;
    proof {
        assert(flen as int == num_fraclen(s@));
    }
    let r = digits_to_micro(d.as_slice(), flen, exp_sat, exp_neg, neg, Ghost(ev));
    proof {
        assert(spec_price_micro(s@) == spec_micro_value(
            num_digits(s@),
            num_fraclen(s@),
            num_exp(s@),
            neg,
        ));
    }
    r
}

/// Computes the micro-unit value from the collected digit and exponent
/// parts: `d` are the significant digits (last `flen` of them fractional),
/// `exp_sat` the saturated exponent magnitude, `ev` its exact value.
#[verifier::rlimit(100)]
fn digits_to_micro(
    d: &[u8],
    flen: usize,
    exp_sat: u128,
    exp_neg: bool,
    neg: bool,
    Ghost(ev): Ghost<int>,
) -> (r: Option<i64>)
    requires
        all_digits(d@),
        ev >= 0,
        (ev < EXP_SAT as int && exp_sat as int == ev) || (ev >= EXP_SAT as int && exp_sat
            == EXP_SAT),
    ensures
        ({
            let sexp = if exp_neg { -ev } else { ev };
            match r {
                Some(m) => spec_micro_value(d@, flen as int, sexp, neg) == Some(m as int)
                    && -MICRO_MAX <= m <= MICRO_MAX,
                None => spec_micro_value(d@, flen as int, sexp, neg) is None,
            }
        }),
{
    let ghost sexp: int = if exp_neg { -ev } else { ev };
    let ghost etrue: int = sexp - flen + 6;
    // skip leading zeros
    let mut z: usize = 0;
    while z < d.len() && d[z] == 48
        invariant
            z <= d@.len(),
            forall|k: int| 0 <= k < z ==> d@[k] == 48,
        decreases d@.len() - z,
    {
        z = z + 1;
    }
    let ghost sig: Seq<u8> = d@.skip(z as int);
    proof {
        lemma_digits_val_skip_zeros(d@, z as int);
        assert(digits_val(sig) == digits_val(d@));
        assert(all_digits(sig));
        assert(sig.len() > 0 ==> sig[0] != 48);
    }
    let nsig: usize = d.len() - z;
    if nsig == 0 {
        proof {
            assert(sig.len() == 0);
            assert(digits_val(sig) == 0);
            if etrue >= 0 {
                assert(digits_val(d@) * pow10(etrue as nat) == 0) by (nonlinear_arith)
                    requires digits_val(d@) == 0;
            } else {
                lemma_pow10_pos((-etrue) as nat);
                lemma_div_small(0, pow10((-etrue) as nat));
            }
            assert(spec_micro_value(d@, flen as int, sexp, neg) == Some(0int));
        }
        return Some(0);
    }
    let fraclen_i: i128 = flen as i128;
    let exp_i: i128 = if exp_neg {
        -(exp_sat as i128)
    } else {
        exp_sat as i128
    };
    let e: i128 = exp_i - fraclen_i + 6;
    proof {
        assert(flen as int <= u64::MAX as int);
        assert(nsig as int <= u64::MAX as int);
    }
    if e >= 0 {
        if (nsig as i128) + e > 18 {
            proof {
                lemma_micro_value_large(d@, flen as int, sexp, neg, sig, z as int);
                // out of range: at least ten to the eighteenth micro-units
                if exp_neg {
                    // a saturated negative exponent would make e negative
                    assert(exp_sat as int == ev);
                    assert(etrue == e);
                } else {
                    if ev < EXP_SAT as int {
                        assert(etrue == e);
                    } else {
                        assert(etrue == ev - flen + 6);
                        assert(etrue >= e);
                    }
                }
                assert(etrue >= 0 && nsig + etrue > 18);
            }
            return None;
        }
        proof {
            assert(exp_sat as int == ev);
            assert(e == etrue);
        }
        let mut val: u64 = read_digits(d, z, z + nsig);
        proof {
            assert(d@.subrange(z as int, z as int + nsig as int) =~= sig);
            lemma_pow10_18();
        }
        let mul: usize = e as usize;
        let mut k: usize = 0;
        while k < mul
            invariant
                k <= mul,
                nsig >= 1,
                nsig + mul <= 18,
                val as int == digits_val(sig) * pow10(k as nat),
                (val as int) < pow10((nsig + k) as nat),
                pow10(18) == 1_000_000_000_000_000_000,
            decreases mul - k,
        {
            proof {
                lemma_pow10_increases((nsig + k + 1) as nat, 18);
                assert(pow10((k + 1) as nat) == 10 * pow10(k as nat));
                assert(digits_val(sig) * (10 * pow10(k as nat)) == (digits_val(sig) * pow10(
                    k as nat,
                )) * 10) by (nonlinear_arith);
                assert(pow10((nsig + k + 1) as nat) == 10 * pow10((nsig + k) as nat));
            }
            val = val * 10;
            k = k + 1;
        }
        proof {
            lemma_pow10_18();
            assert(val as int == digits_val(d@) * pow10(etrue as nat));
        }
        if val > 100_000_000_000_000_000u64 {
            return None;
        }
        let m = val as i64;
        if neg {
            Some(-m)
        } else {
            Some(m)
        }
    } else {
        let kk: i128 = -e;
        if kk >= nsig as i128 {
            proof {
                // every digit falls below the micro place: the value
                // truncates to zero
                if exp_neg && ev >= EXP_SAT as int {
                    assert(etrue == -ev - flen + 6);
                    assert(-etrue >= EXP_SAT as int - 6);
                } else {
                    assert(exp_sat as int == ev);
                    assert(e == etrue);
                }
                assert(etrue < 0 && -etrue >= nsig as int);
                lemma_digits_val_bound(sig);
                lemma_pow10_increases(nsig as nat, (-etrue) as nat);
                lemma_div_small(digits_val(sig), pow10((-etrue) as nat));
                assert(spec_micro_value(d@, flen as int, sexp, neg) == Some(0int));
            }
            return Some(0);
        }
        proof {
            assert(exp_sat as int == ev);
            assert(e == etrue);
        }
        let keep: usize = nsig - (kk as usize);
        proof {
            lemma_digits_val_shift(sig, kk as int);
            assert(sig.take((nsig - kk) as int) =~= d@.subrange(z as int, z as int + keep as int));
        }
        if keep > 18 {
            proof {
                lemma_digits_val_lower(sig.take(keep as int));
                lemma_pow10_18();
                lemma_pow10_increases(18, (keep - 1) as nat);
            }
            return None;
        }
        let val = read_digits(d, z, z + keep);
        proof {
            lemma_pow10_18();
            assert(val as int == digits_val(d@) / pow10((-etrue) as nat));
        }
        if val > 100_000_000_000_000_000u64 {
            return None;
        }
        let m = val as i64;
        if neg {
            Some(-m)
        } else {
            Some(m)
        }
    }
}

/// With at least nineteen digit positions above the micro place, the value
/// is out of range.
proof fn lemma_micro_value_large(d: Seq<u8>, fraclen: int, exp: int, neg: bool, sig: Seq<u8>, z: int)
    requires
        all_digits(d),
        0 <= z <= d.len(),
        forall|j: int| 0 <= j < z ==> d[j] == 48,
        sig == d.skip(z),
        sig.len() >= 1,
        sig[0] != 48,
        exp - fraclen + 6 >= 0,
        sig.len() + (exp - fraclen + 6) > 18,
    ensures
        spec_micro_value(d, fraclen, exp, neg) is None,
{
    let etrue = exp - fraclen + 6;
    lemma_digits_val_skip_zeros(d, z);
    lemma_digits_val_lower(sig);
    lemma_pow10_pos(etrue as nat);
    lemma_pow10_increases(18, (sig.len() - 1 + etrue) as nat);
    lemma_pow10_adds((sig.len() - 1) as nat, etrue as nat);
    assert(digits_val(sig) * pow10(etrue as nat) >= pow10((sig.len() - 1) as nat) * pow10(
        etrue as nat,
    )) by (nonlinear_arith)
        requires
            digits_val(sig) >= pow10((sig.len() - 1) as nat),
            pow10(etrue as nat) >= 1;
    lemma_pow10_18();
    assert(digits_val(d) * pow10(etrue as nat) > MICRO_MAX as int);
}


/// Largest price magnitude in whole cents.
pub const CENTS_MAX: i64 = 10_000_000_000_000;

/// `n / d` rounded half away from zero.
pub open spec fn round_half_away(n: int, d: int) -> int
    recommends
        d > 0,
{
    if n >= 0 {
        (n + d / 2) / d
    } else {
        -((-n + d / 2) / d)
    }
}

/// Rounds a price in micro-units to whole cents, half away from zero.
pub fn round_micro_to_cents(p: i64) -> (r: i64)
    requires
        -MICRO_MAX <= p <= MICRO_MAX,
    ensures
        r as int == round_half_away(p as int, MICRO_PER_CENT as int),
        -CENTS_MAX <= r <= CENTS_MAX,
{
    if p >= 0 {
        let q = ((p as u64) + 5_000) / 10_000;
        q as i64
    } else {
        let q = (((-p) as u64) + 5_000) / 10_000;
        -(q as i64)
    }
}

/// The midpoint of two micro-unit prices, rounded to whole cents half away
/// from zero.
pub fn midpoint_cents(b: i64, a: i64) -> (r: i64)
    requires
        -MICRO_MAX <= b <= MICRO_MAX,
        -MICRO_MAX <= a <= MICRO_MAX,
    ensures
        r as int == round_half_away(b + a, 2 * MICRO_PER_CENT as int),
        -CENTS_MAX <= r <= CENTS_MAX,
{
    let s = b + a;
    if s >= 0 {
        let q = ((s as u64) + 10_000) / 20_000;
        q as i64
    } else {
        let q = (((-s) as u64) + 10_000) / 20_000;
        -(q as i64)
    }
}

/// Rounding to cents is idempotent: a price already on a whole cent stays
/// itself.
pub proof fn lemma_round_cents_idempotent(c: int)
    ensures
        round_half_away(c * MICRO_PER_CENT as int, MICRO_PER_CENT as int) == c,
{
    if c >= 0 {
        lemma_fundamental_div_mod_converse(c * 10_000 + 5_000, 10_000, c, 5_000);
    } else {
        assert(-(c * 10_000) == (-c) * 10_000) by (nonlinear_arith);
        lemma_fundamental_div_mod_converse((-c) * 10_000 + 5_000, 10_000, -c, 5_000);
    }
}

/// The decimal digits of a number, most significant first.
pub open spec fn spec_digits_of(n: nat) -> Seq<u8>
    decreases n,
{
    if n < 10 {
        seq![(48 + n) as u8]
    } else {
        spec_digits_of(n / 10).push((48 + n % 10) as u8)
    }
}

/// Writes a number in decimal.
pub fn digits_of(n: u64) -> (r: Vec<u8>)
    ensures
        r@ == spec_digits_of(n as nat),
    decreases n,
{
    if n < 10 {
        let mut v: Vec<u8> = Vec::new();
        v.push(48 + (n as u8));
        proof {
            assert(v@ =~= spec_digits_of(n as nat));
        }
        v
    } else {
        let mut v = digits_of(n / 10);
        v.push(48 + ((n % 10) as u8));
        v
    }
}

/// The canonical decimal form of a price in whole cents: optional minus
/// sign, the whole units, a dot, then the cents with any trailing zero
/// dropped and at least one digit kept.
pub open spec fn spec_format_cents(c: int) -> Seq<u8> {
    let mag = if c < 0 {
        -c
    } else {
        c
    };
    let whole = mag / 100;
    let frac = mag % 100;
    let sign: Seq<u8> = if c < 0 {
        seq![45u8]
    } else {
        Seq::<u8>::empty()
    };
    let fracpart: Seq<u8> = if frac == 0 {
        seq![48u8]
    } else if frac % 10 == 0 {
        seq![(48 + frac / 10) as u8]
    } else {
        seq![(48 + frac / 10) as u8, (48 + frac % 10) as u8]
    };
    sign + spec_digits_of(whole as nat) + seq![46u8] + fracpart
}

/// Writes a price in whole cents in its canonical decimal form.
pub fn format_cents(c: i64) -> (r: Vec<u8>)
    requires
        -CENTS_MAX <= c <= CENTS_MAX,
    ensures
        r@ == spec_format_cents(c as int),
{
    let mag: u64 = if c < 0 {
        (-c) as u64
    } else {
        c as u64
    };
    let mut r: Vec<u8> = Vec::new();
    if c < 0 {
        r.push(45);
    }
    let mut whole_digits = digits_of(mag / 100);
    r.append(&mut whole_digits);
    r.push(46);
    let frac: u64 = mag % 100;
    if frac == 0 {
        r.push(48);
    } else if frac % 10 == 0 {
        r.push(48 + ((frac / 10) as u8));
    } else {
        r.push(48 + ((frac / 10) as u8));
        r.push(48 + ((frac % 10) as u8));
    }
    proof {
        assert(r@ =~= spec_format_cents(c as int));
    }
    r
}


pub proof fn lemma_digits_of_val(n: nat)
    ensures
        all_digits(spec_digits_of(n)),
        digits_val(spec_digits_of(n)) == n,
        spec_digits_of(n).len() >= 1,
        n >= 1 ==> spec_digits_of(n)[0] != 48,
    decreases n,
{
    if n < 10 {
        let s = spec_digits_of(n);
        assert(s.len() == 1);
        assert(digits_val(s) == digits_val(s.drop_last()) * 10 + digit_val(s.last()));
        assert(s.drop_last().len() == 0);
    } else {
        lemma_digits_of_val(n / 10);
        let s = spec_digits_of(n);
        let w = spec_digits_of(n / 10);
        assert(s == w.push((48 + n % 10) as u8));
        assert(s.drop_last() =~= w);
        assert(digits_val(s) == digits_val(w) * 10 + (n % 10));
        assert(n / 10 * 10 + n % 10 == n) by (nonlinear_arith);
        assert(n / 10 >= 1);
        assert(s[0] == w[0]);
    }
}

proof fn lemma_digits_end_exact(s: Seq<u8>, i: int, m: int)
    requires
        0 <= i <= m <= s.len(),
        forall|j: int| i <= j < m ==> is_digit(s[j]),
        m < s.len() ==> !is_digit(s[m]),
    ensures
        digits_end(s, i) == m,
    decreases m - i,
{
    if i < m {
        lemma_digits_end_exact(s, i + 1, m);
    }
}

/// A price written by [`spec_format_cents`] reads back as exactly that
/// price, and rounding it to cents gives the price itself: a value already
/// on two decimals is a fixed point of the write–parse–round pipeline.
pub proof fn lemma_two_decimal_round_trip(c: int)
    requires
        -CENTS_MAX <= c <= CENTS_MAX,
    ensures
        spec_price_micro(spec_format_cents(c)) == Some(c * MICRO_PER_CENT as int),
        round_half_away(c * MICRO_PER_CENT as int, MICRO_PER_CENT as int) == c,
{
    lemma_round_cents_idempotent(c);
    let s = spec_format_cents(c);
    let mag = if c < 0 { -c } else { c };
    let whole = mag / 100;
    let frac = mag % 100;
    let w = spec_digits_of(whole as nat);
    let f: Seq<u8> = if frac == 0 {
        seq![48u8]
    } else if frac % 10 == 0 {
        seq![(48 + frac / 10) as u8]
    } else {
        seq![(48 + frac / 10) as u8, (48 + frac % 10) as u8]
    };
    lemma_digits_of_val(whole as nat);
    vstd::arithmetic::div_mod::lemma_fundamental_div_mod(mag, 100);
    assert(0 <= frac < 100);
    assert(all_digits(f));
    let p: int = if c < 0 { 1int } else { 0int };
    let wl = w.len() as int;
    let fl = f.len() as int;
    // the exact positions of every part of the literal
    assert(s.len() == p + wl + 1 + fl);
    assert(forall|j: int| 0 <= j < wl ==> s[p + j] == w[j]);
    assert(s[p + wl] == 46);
    assert(forall|j: int| 0 <= j < fl ==> s[p + wl + 1 + j] == f[j]);
    assert(num_start(s) == p);
    assert(forall|j: int| 0 <= j < wl ==> is_digit(#[trigger] s[p + j]));
    assert(forall|j: int| 0 <= j < fl ==> is_digit(#[trigger] s[p + wl + 1 + j]));
    // the integer digits end at the dot
    let ie = num_int_end(s);
    assert(!is_digit(s[p + wl]));
    if p < s.len() && s[p] == 48 {
        // the whole part is the single digit zero
        assert(w[0] == 48);
        assert(whole == 0);
        assert(wl == 1);
        assert(ie == p + 1);
    } else {
        lemma_digits_end_exact(s, p, p + wl);
        assert(ie == p + wl);
    }
    assert(ie == p + wl);
    assert(num_has_frac(s));
    lemma_digits_end_exact(s, ie + 1, s.len() as int);
    assert(num_frac_end(s) == s.len());
    assert(!num_has_exp(s));
    assert(num_valid(s));
    assert(num_exp(s) == 0);
    assert(num_fraclen(s) == fl);
    // the significant digits are the whole digits then the fraction digits
    let d = num_digits(s);
    assert(s.subrange(p, ie) =~= w);
    assert(s.subrange(ie + 1, num_frac_end(s)) =~= f);
    assert(d == w + f);
    assert(all_digits(d));
    lemma_digits_val_split(d, wl);
    assert(d.take(wl) =~= w);
    assert(d.skip(wl) =~= f);
    assert(digits_val(d) == whole * pow10(f.len()) + digits_val(f));
    let e = num_exp(s) - num_fraclen(s) + 6;
    assert(e == 6 - fl);
    let magv = digits_val(d) * pow10((6 - fl) as nat);
    // in every fraction shape the digits scale back to mag in hundredths
    reveal_with_fuel(pow10, 7);
    if frac == 0 {
        assert(digits_val(f) == 0);
        assert(digits_val(d) == whole * 10);
        assert(magv == (whole * 10) * 100000);
        assert((whole * 10) * 100000 == whole * 1000000) by (nonlinear_arith);
        assert(magv == mag * 10000);
    } else if frac % 10 == 0 {
        assert(digits_val(f) == frac / 10);
        vstd::arithmetic::div_mod::lemma_fundamental_div_mod(frac, 10);
        assert(frac == 10 * (frac / 10));
        assert(magv == (whole * 10 + frac / 10) * 100000);
        assert((whole * 10 + frac / 10) * 100000 == whole * 1000000 + (frac / 10) * 100000)
            by (nonlinear_arith);
        assert((frac / 10) * 100000 == frac * 10000) by (nonlinear_arith)
            requires frac == 10 * (frac / 10);
        assert(magv == (whole * 100 + frac) * 10000) by (nonlinear_arith)
            requires magv == whole * 1000000 + frac * 10000;
        assert(magv == mag * 10000);
    } else {
        assert(f.drop_last() =~= seq![(48 + frac / 10) as u8]);
        let g = f.drop_last();
        assert(g.drop_last().len() == 0);
        assert(digits_val(g.drop_last()) == 0);
        assert(digits_val(g) == digit_val(g.last()));
        assert(digits_val(g) == frac / 10);
        assert(digits_val(f) == digits_val(g) * 10 + digit_val(f.last()));
        assert(digits_val(f) == (frac / 10) * 10 + frac % 10);
        vstd::arithmetic::div_mod::lemma_fundamental_div_mod(frac, 10);
        assert(digits_val(f) == frac);
        assert(magv == (whole * 100 + frac) * 10000);
        assert(magv == mag * 10000);
    }
    assert(mag * 10000 <= CENTS_MAX * 10000) by (nonlinear_arith)
        requires mag <= CENTS_MAX;
    assert(magv <= MICRO_MAX as int);
    if c < 0 {
        assert(s[0] == 45);
        assert(spec_price_micro(s) == Some(-magv));
        assert(-(mag * 10000) == c * 10000) by (nonlinear_arith)
            requires mag == -c;
    } else {
        assert(s[0] == w[0]);
        assert(is_digit(s[0]));
        assert(spec_price_micro(s) == Some(magv));
    }
}

} // verus!
