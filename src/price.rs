//! Fixed-point prices: decimal text parsing and averaging.
use vstd::prelude::*;

verus! {

/// Number of decimal places a price carries.
pub const FRACTION_DIGITS: u64 = 8;

/// A price is an integer count of units; this many units make one whole.
pub const UNITS_PER_WHOLE: u64 = 100_000_000;

pub open spec fn pow10(n: nat) -> nat
    decreases n,
{
    if n == 0 {
        1
    } else {
        10 * pow10((n - 1) as nat)
    }
}

pub open spec fn is_digit(c: char) -> bool {
    '0' <= c && c <= '9'
}

pub open spec fn digit_value(c: char) -> nat {
    (c as int - '0' as int) as nat
}

pub open spec fn all_digits(s: Seq<char>) -> bool {
    forall|i: int| 0 <= i < s.len() ==> is_digit(#[trigger] s[i])
}

/// The number written by a run of decimal digits (0 for an empty run).
pub open spec fn digits_value(s: Seq<char>) -> nat
    decreases s.len(),
{
    if s.len() == 0 {
        0
    } else {
        digits_value(s.drop_last()) * 10 + digit_value(s.last())
    }
}

/// `s` reads `I.F` with the point at `k`: `I` one or more digits, `F` at most
/// `FRACTION_DIGITS` digits.
pub open spec fn point_at(s: Seq<char>, k: int) -> bool {
    &&& 0 < k < s.len()
    &&& s[k] == '.'
    &&& all_digits(s.take(k))
    &&& all_digits(s.skip(k + 1))
    &&& s.len() - (k + 1) <= FRACTION_DIGITS
}

/// The value in units of a decimal text `I` or `I.F`, if it is one.
pub open spec fn decimal_units(s: Seq<char>) -> Option<nat> {
    if s.len() > 0 && all_digits(s) {
        Some((digits_value(s) * UNITS_PER_WHOLE) as nat)
    } else if exists|k: int| point_at(s, k) {
        let k = choose|k: int| point_at(s, k);
        let frac = s.skip(k + 1);
        Some(
            (digits_value(s.take(k)) * UNITS_PER_WHOLE + digits_value(frac) * pow10(
                (FRACTION_DIGITS - frac.len()) as nat,
            )) as nat,
        )
    } else {
        None
    }
}

/// The price a text denotes: a decimal whose value fits in a `u64` of units.
pub open spec fn price_of_text(s: Seq<char>) -> Option<u64> {
    match decimal_units(s) {
        Some(v) => if v <= u64::MAX {
            Some(v as u64)
        } else {
            None
        },
        None => None,
    }
}

pub open spec fn sum_of(s: Seq<u64>) -> int
    decreases s.len(),
{
    if s.len() == 0 {
        0
    } else {
        sum_of(s.drop_last()) + s.last()
    }
}

/// The arithmetic mean, rounded down; none for an empty sequence.
pub open spec fn mean_of(s: Seq<u64>) -> Option<u64> {
    if s.len() == 0 {
        None
    } else {
        Some((sum_of(s) / s.len() as int) as u64)
    }
}

proof fn lemma_digits_value_prefix(s: Seq<char>, i: int)
    requires
        0 <= i <= s.len(),
    ensures
        digits_value(s.take(i)) <= digits_value(s),
    decreases s.len(),
{
    if i < s.len() {
        lemma_digits_value_prefix(s.drop_last(), i);
        assert(s.drop_last().take(i) =~= s.take(i));
    } else {
        assert(s.take(i) =~= s);
    }
}

proof fn lemma_digits_value_bound(s: Seq<char>)
    requires
        all_digits(s),
    ensures
        digits_value(s) < pow10(s.len()),
    decreases s.len(),
{
    if s.len() > 0 {
        let t = s.drop_last();
        assert(all_digits(t)) by {
            assert forall|i: int| 0 <= i < t.len() implies is_digit(#[trigger] t[i]) by {
                assert(t[i] == s[i]);
            }
        }
        lemma_digits_value_bound(t);
        assert(is_digit(s[s.len() - 1]));
        assert(digits_value(s) == digits_value(t) * 10 + digit_value(s.last()));
        assert(digits_value(s) < pow10(s.len())) by (nonlinear_arith)
            requires
                digits_value(s) == digits_value(t) * 10 + digit_value(s.last()),
                digit_value(s.last()) < 10,
                digits_value(t) < pow10(t.len()),
                pow10(s.len()) == 10 * pow10(t.len()),
        ;
    }
}

pub proof fn lemma_pow10_positive(n: nat)
    ensures
        pow10(n) >= 1,
    decreases n,
{
    if n > 0 {
        lemma_pow10_positive((n - 1) as nat);
    }
}

fn is_digit_char(c: char) -> (r: bool)
    ensures
        r == is_digit(c),
{
    '0' <= c && c <= '9'
}

fn pow10_of(n: u64) -> (r: u64)
    requires
        n <= FRACTION_DIGITS,
    ensures
        r == pow10(n as nat),
        r <= UNITS_PER_WHOLE,
{
    let mut r: u64 = 1;
    let mut i: u64 = 0;
    while i < n
        invariant
            i <= n <= FRACTION_DIGITS,
            r == pow10(i as nat),
        decreases n - i,
    {
        proof {
            reveal_with_fuel(pow10, 9);
        }
        assert(pow10(i as nat) <= 10000000) by {
            reveal_with_fuel(pow10, 9);
            lemma_pow10_mono(i as nat, 7);
        }
        r = r * 10;
        i = i + 1;
    }
    proof {
        lemma_pow10_mono(n as nat, 8);
        reveal_with_fuel(pow10, 9);
    }
    r
}

proof fn lemma_pow10_mono(a: nat, b: nat)
    requires
        a <= b,
    ensures
        pow10(a) <= pow10(b),
    decreases b,
{
    if a < b {
        lemma_pow10_mono(a, (b - 1) as nat);
        lemma_pow10_positive((b - 1) as nat);
    }
}

/// Reads a price written as decimal text (`"42123.45"`, `"7"`, `"0.5"`).
pub fn parse_price(text: &str) -> (r: Option<u64>)
    ensures
        r == price_of_text(text@),
{
    let ghost s = text@;
    let n = text.unicode_len();
    let mut i: usize = 0;
    let mut whole: u64 = 0;
    while i < n && is_digit_char(text.get_char(i))
        invariant
            i <= n,
            n == s.len(),
            s == text@,
            all_digits(s.take(i as int)),
            whole == digits_value(s.take(i as int)),
        decreases n - i,
    {
        let c = text.get_char(i);
        let d = (c as u32 - '0' as u32) as u64;
        assert(s.take(i + 1).drop_last() =~= s.take(i as int));
        if whole > (u64::MAX - d) / 10 {
            proof {
                assert(digits_value(s.take(i + 1)) > u64::MAX);
                lemma_parse_overflow(s, i + 1);
            }
            return None;
        }
        whole = whole * 10 + d;
        i = i + 1;
        assert(all_digits(s.take(i as int))) by {
            assert forall|j: int| 0 <= j < i implies is_digit(#[trigger] s.take(i as int)[j]) by {
                if j < i - 1 {
                    assert(s.take(i as int)[j] == s.take(i - 1)[j]);
                }
            }
        }
    }
    if i == 0 {
        proof {
            assert forall|k: int| !point_at(s, k) by {
                if point_at(s, k) {
                    assert(s.take(k)[0] == s[0]);
                }
            }
            if s.len() > 0 {
                assert(!is_digit(s[0]));
            }
        }
        return None;
    }
    if i == n {
        assert(s.take(i as int) =~= s);
        if whole > u64::MAX / UNITS_PER_WHOLE {
            return None;
        }
        return Some(whole * UNITS_PER_WHOLE);
    }
    assert(!is_digit(s[i as int]));
    proof {
        lemma_point_unique(s, i as int);
    }
    if text.get_char(i) != '.' {
        return None;
    }
    let start = i + 1;
    let mut j: usize = start;
    let mut frac: u64 = 0;
    while j < n
        invariant
            i < start <= j <= n,
            start == i + 1,
            n == s.len(),
            s[i as int] == '.',
            !all_digits(s),
            forall|k: int| point_at(s, k) ==> k == i,
            all_digits(s.take(i as int)),
            whole == digits_value(s.take(i as int)),
            s == text@,
            j - start <= FRACTION_DIGITS,
            all_digits(s.subrange(start as int, j as int)),
            frac == digits_value(s.subrange(start as int, j as int)),
            frac < pow10((j - start) as nat),
            pow10((j - start) as nat) <= UNITS_PER_WHOLE,
        decreases n - j,
    {
        let c = text.get_char(j);
        if !is_digit_char(c) || j - start >= FRACTION_DIGITS as usize {
            proof {
                if !is_digit(c) {
                    assert(s.skip(start as int)[j - start] == c);
                }
                assert(!point_at(s, i as int));
                assert(forall|k: int| !point_at(s, k));
            }
            return None;
        }
        let d = (c as u32 - '0' as u32) as u64;
        let ghost t = s.subrange(start as int, j + 1);
        assert(t.drop_last() =~= s.subrange(start as int, j as int));
        proof {
            lemma_pow10_mono((j - start + 1) as nat, 8);
            reveal_with_fuel(pow10, 9);
        }
        frac = frac * 10 + d;
        j = j + 1;
        assert(all_digits(s.subrange(start as int, j as int))) by {
            assert forall|x: int| 0 <= x < t.len() implies is_digit(#[trigger] t[x]) by {
                if x < t.len() - 1 {
                    assert(t[x] == t.drop_last()[x]);
                }
            }
        }
    }
    assert(s.subrange(start as int, n as int) =~= s.skip(start as int));
    assert(point_at(s, i as int));
    let scale = pow10_of(FRACTION_DIGITS - (j - start) as u64);
    proof {
        lemma_pow10_mono((j - start) as nat, 8);
        reveal_with_fuel(pow10, 9);
        assert(pow10((j - start) as nat) * pow10((8 - (j - start)) as nat) == pow10(8)) by {
            lemma_pow10_add((j - start) as nat, (8 - (j - start)) as nat);
        }
        assert(frac * scale < UNITS_PER_WHOLE) by (nonlinear_arith)
            requires
                frac < pow10((j - start) as nat),
                scale == pow10((8 - (j - start)) as nat),
                pow10((j - start) as nat) * pow10((8 - (j - start)) as nat) == 100000000,
                UNITS_PER_WHOLE == 100000000,
        ;
    }
    let tail = frac * scale;
    if whole > (u64::MAX - tail) / UNITS_PER_WHOLE {
        return None;
    }
    Some(whole * UNITS_PER_WHOLE + tail)
}

proof fn lemma_pow10_add(a: nat, b: nat)
    ensures
        pow10(a) * pow10(b) == pow10(a + b),
    decreases a,
{
    if a == 0 {
        assert(pow10(a) == 1);
    } else {
        let p = pow10((a - 1) as nat);
        let q = pow10(b);
        lemma_pow10_add((a - 1) as nat, b);
        assert(pow10(a + b) == 10 * pow10((a - 1 + b) as nat));
        assert(pow10(a) == 10 * p);
        assert((10 * p) * q == 10 * (p * q)) by (nonlinear_arith);
    }
}

/// Any point of a decimal text stands where its leading digits end.
proof fn lemma_point_unique(s: Seq<char>, i: int)
    requires
        0 < i < s.len(),
        all_digits(s.take(i)),
        !is_digit(s[i]),
    ensures
        forall|k: int| point_at(s, k) ==> k == i,
        !all_digits(s),
{
    assert forall|k: int| point_at(s, k) implies k == i by {
        if k < i {
            assert(s.take(i)[k] == s[k]);
        } else if k > i {
            assert(s.take(k)[i] == s[i]);
        }
    }
}

/// Once the leading digits exceed `u64::MAX`, no price can follow.
proof fn lemma_parse_overflow(s: Seq<char>, i: int)
    requires
        0 < i <= s.len(),
        all_digits(s.take(i)),
        digits_value(s.take(i)) > u64::MAX,
    ensures
        price_of_text(s) is None,
{
    if s.len() > 0 && all_digits(s) {
        lemma_digits_value_prefix(s, i);
    } else if exists|k: int| point_at(s, k) {
        let k = choose|k: int| point_at(s, k);
        if k < i {
            assert(s.take(i)[k] == s[k]);
        }
        lemma_digits_value_prefix(s.take(k), i);
        assert(s.take(k).take(i) =~= s.take(i));
    }
}

/// The mean of a sequence of prices, rounded down to a unit.
pub fn calculate_average(prices: &[u64]) -> (r: Option<u64>)
    ensures
        r == mean_of(prices@),
{
    let n = prices.len();
    if n == 0 {
        return None;
    }
    let ghost s = prices@;
    let mut total: u128 = 0;
    let mut i: usize = 0;
    while i < n
        invariant
            i <= n,
            n == s.len(),
            s == prices@,
            total == sum_of(s.take(i as int)),
            0 <= sum_of(s.take(i as int)) <= i * (u64::MAX as int),
        decreases n - i,
    {
        assert(s.take(i + 1).drop_last() =~= s.take(i as int));
        proof {
            assert((i + 1) * (u64::MAX as int) == i * (u64::MAX as int) + u64::MAX) by (nonlinear_arith);
            assert(i * (u64::MAX as int) <= usize::MAX * (u64::MAX as int)) by (nonlinear_arith)
                requires
                    i <= usize::MAX,
            ;
        }
        total = total + prices[i] as u128;
        i = i + 1;
    }
    assert(s.take(n as int) =~= s);
    let avg = total / (n as u128);
    proof {
        assert(avg <= u64::MAX) by (nonlinear_arith)
            requires
                avg == total as int / (n as int),
                total as int <= n * (u64::MAX as int),
                n > 0,
        ;
    }
    Some(avg as u64)
}

/// Averaging is a function of the sequence alone: equal sequences give equal
/// results, however often it is computed.
pub proof fn lemma_mean_deterministic(a: Seq<u64>, b: Seq<u64>)
    requires
        a =~= b,
    ensures
        mean_of(a) == mean_of(b),
{
}

/// A non-empty sequence has a mean: its sum divided by its length, rounded
/// down; an empty one has none.
pub proof fn lemma_mean_is_sum_over_len(a: Seq<u64>)
    ensures
        a.len() == 0 <==> mean_of(a) is None,
        a.len() > 0 ==> mean_of(a)->0 == sum_of(a) / a.len() as int,
{
    if a.len() > 0 {
        lemma_sum_bound(a);
        assert(sum_of(a) / a.len() as int <= u64::MAX) by (nonlinear_arith)
            requires
                0 <= sum_of(a) <= a.len() * u64::MAX,
                a.len() > 0,
        ;
    }
}

proof fn lemma_sum_bound(a: Seq<u64>)
    ensures
        0 <= sum_of(a) <= a.len() * u64::MAX,
    decreases a.len(),
{
    if a.len() > 0 {
        lemma_sum_bound(a.drop_last());
        assert((a.len() - 1) * u64::MAX + u64::MAX == a.len() * u64::MAX) by (nonlinear_arith);
    }
}

} // verus!
