//! The canonical message `"<client_id>:<average>"` that a client signs and the
//! aggregator checks. Both sides build it with `canonical_message` alone.
use vstd::prelude::*;
use crate::price::{pow10, UNITS_PER_WHOLE};
use vstd::arithmetic::div_mod::lemma_mod_breakdown;

verus! {

pub open spec fn digit_byte(d: nat) -> u8 {
    (48 + d % 10) as u8
}

/// The decimal digits of `n`, without leading zeros.
pub open spec fn decimal_text(n: nat) -> Seq<u8>
    decreases n,
{
    if n < 10 {
        seq![digit_byte(n)]
    } else {
        decimal_text(n / 10).push(digit_byte(n))
    }
}

/// The last `width` decimal digits of `n`, zero-padded on the left.
pub open spec fn padded_text(n: nat, width: nat) -> Seq<u8>
    decreases width,
{
    if width == 0 {
        seq![]
    } else {
        padded_text(n / 10, (width - 1) as nat).push(digit_byte(n))
    }
}

/// The fraction digits of `f` written over `width` places, trailing zeros dropped.
pub open spec fn fraction_text(f: nat, width: nat) -> Seq<u8>
    decreases width,
{
    if width > 0 && f % 10 == 0 {
        fraction_text(f / 10, (width - 1) as nat)
    } else {
        padded_text(f, width)
    }
}

/// A price in units as decimal text: the whole part, then a point and the
/// significant fraction digits when the fraction is not zero (`101`, `100.5`).
pub open spec fn price_text(units: nat) -> Seq<u8> {
    let f = units % (UNITS_PER_WHOLE as nat);
    if f == 0 {
        decimal_text(units / (UNITS_PER_WHOLE as nat))
    } else {
        decimal_text(units / (UNITS_PER_WHOLE as nat)) + seq![46u8] + fraction_text(f, 8)
    }
}

/// The bytes that bind a client's identity to its average.
pub open spec fn canonical_bytes(client_id: nat, average: nat) -> Seq<u8> {
    decimal_text(client_id) + seq![58u8] + price_text(average)
}

pub open spec fn is_digit_byte(b: u8) -> bool {
    48 <= b <= 57
}

/// The number a run of digit bytes writes.
pub open spec fn bytes_value(s: Seq<u8>) -> nat
    decreases s.len(),
{
    if s.len() == 0 {
        0
    } else {
        bytes_value(s.drop_last()) * 10 + (s.last() - 48) as nat
    }
}

proof fn lemma_decimal_text_digits(n: nat)
    ensures
        decimal_text(n).len() >= 1,
        forall|i: int| 0 <= i < decimal_text(n).len() ==> is_digit_byte(#[trigger] decimal_text(n)[i]),
    decreases n,
{
    if n >= 10 {
        lemma_decimal_text_digits(n / 10);
        let t = decimal_text(n / 10);
        assert forall|i: int| 0 <= i < decimal_text(n).len() implies is_digit_byte(#[trigger] decimal_text(n)[i]) by {
            if i < t.len() {
                assert(decimal_text(n)[i] == t[i]);
            }
        }
    }
}

proof fn lemma_decimal_text_injective(a: nat, b: nat)
    requires
        decimal_text(a) == decimal_text(b),
    ensures
        a == b,
    decreases a,
{
    lemma_decimal_text_digits(a / 10);
    lemma_decimal_text_digits(b / 10);
    if a < 10 && b < 10 {
        assert(decimal_text(a)[0] == digit_byte(a));
        assert(decimal_text(b)[0] == digit_byte(b));
        assert(decimal_text(a)[0] == decimal_text(b)[0]);
    } else if a < 10 {
        assert(decimal_text(b).len() >= 2);
    } else if b < 10 {
        assert(decimal_text(a).len() >= 2);
    } else {
        assert(decimal_text(a).drop_last() =~= decimal_text(a / 10));
        assert(decimal_text(b).drop_last() =~= decimal_text(b / 10));
        assert(decimal_text(a).last() == digit_byte(a));
        assert(decimal_text(b).last() == digit_byte(b));
        assert(a % 10 == b % 10);
        lemma_decimal_text_injective(a / 10, b / 10);
        assert(a == 10 * (a / 10) + a % 10);
        assert(b == 10 * (b / 10) + b % 10);
    }
}

/// Splitting at the first separator: parts free of `sep` are recovered.
proof fn lemma_split_at_separator(x1: Seq<u8>, y1: Seq<u8>, x2: Seq<u8>, y2: Seq<u8>, sep: u8)
    requires
        x1 + seq![sep] + y1 == x2 + seq![sep] + y2,
        forall|i: int| 0 <= i < x1.len() ==> #[trigger] x1[i] != sep,
        forall|i: int| 0 <= i < x2.len() ==> #[trigger] x2[i] != sep,
    ensures
        x1 == x2,
        y1 == y2,
{
    let l = x1 + seq![sep] + y1;
    let r = x2 + seq![sep] + y2;
    if x1.len() < x2.len() {
        assert(l[x1.len() as int] == sep);
        assert(r[x1.len() as int] == x2[x1.len() as int]);
    } else if x2.len() < x1.len() {
        assert(r[x2.len() as int] == sep);
        assert(l[x2.len() as int] == x1[x2.len() as int]);
    }
    assert(x1 =~= l.take(x1.len() as int));
    assert(x2 =~= r.take(x2.len() as int));
    assert(y1 =~= l.skip(x1.len() as int + 1));
    assert(y2 =~= r.skip(x2.len() as int + 1));
}

proof fn lemma_padded_text_value(n: nat, width: nat)
    ensures
        padded_text(n, width).len() == width,
        bytes_value(padded_text(n, width)) == n % pow10(width),
    decreases width,
{
    if width > 0 {
        lemma_padded_text_value(n / 10, (width - 1) as nat);
        let p = pow10((width - 1) as nat);
        crate::price::lemma_pow10_positive((width - 1) as nat);
        assert(padded_text(n, width).drop_last() =~= padded_text(n / 10, (width - 1) as nat));
        lemma_mod_breakdown(n as int, 10, p as int);
        assert(pow10(width) == 10 * p);
    }
}

proof fn lemma_fraction_text_value(f: nat, width: nat)
    requires
        f < pow10(width),
    ensures
        fraction_text(f, width).len() <= width,
        bytes_value(fraction_text(f, width)) * pow10(
            (width - fraction_text(f, width).len()) as nat,
        ) == f,
    decreases width,
{
    if width > 0 && f % 10 == 0 {
        let w1 = (width - 1) as nat;
        assert(f / 10 < pow10(w1)) by (nonlinear_arith)
            requires
                f < pow10(width),
                pow10(width) == 10 * pow10(w1),
        ;
        lemma_fraction_text_value(f / 10, w1);
        let t = fraction_text(f / 10, w1);
        assert(fraction_text(f, width) == t);
        let v = bytes_value(t);
        let q = pow10((w1 - t.len()) as nat);
        let e = (width - t.len()) as nat;
        assert(e > 0);
        assert((e - 1) as nat == (w1 - t.len()) as nat);
        assert(pow10(e) == 10 * q);
        assert(v * (10 * q) == 10 * (v * q)) by (nonlinear_arith);
        assert(f == 10 * (f / 10));
        assert(v * q == f / 10);
        assert(v * pow10(e) == f);
    } else {
        lemma_padded_text_value(f, width);
        assert(fraction_text(f, width) == padded_text(f, width));
        assert(f % pow10(width) == f) by {
            vstd::arithmetic::div_mod::lemma_small_mod(f, pow10(width));
        }
        assert(pow10(0) == 1);
        assert(bytes_value(padded_text(f, width)) == f);
        assert(bytes_value(padded_text(f, width)) * pow10(0) == f);
    }
}

proof fn lemma_fraction_text_digits(f: nat, width: nat)
    ensures
        forall|i: int| 0 <= i < fraction_text(f, width).len() ==> is_digit_byte(#[trigger] fraction_text(f, width)[i]),
    decreases width,
{
    if width > 0 && f % 10 == 0 {
        lemma_fraction_text_digits(f / 10, (width - 1) as nat);
        assert(fraction_text(f, width) == fraction_text(f / 10, (width - 1) as nat));
    } else {
        lemma_padded_text_digits(f, width);
        assert(fraction_text(f, width) == padded_text(f, width));
    }
}

proof fn lemma_padded_text_digits(n: nat, width: nat)
    ensures
        forall|i: int| 0 <= i < padded_text(n, width).len() ==> is_digit_byte(#[trigger] padded_text(n, width)[i]),
    decreases width,
{
    if width > 0 {
        lemma_padded_text_digits(n / 10, (width - 1) as nat);
        let t = padded_text(n / 10, (width - 1) as nat);
        assert forall|i: int| 0 <= i < padded_text(n, width).len() implies is_digit_byte(#[trigger] padded_text(n, width)[i]) by {
            if i < t.len() {
                assert(padded_text(n, width)[i] == t[i]);
            }
        }
    }
}

proof fn lemma_price_text_injective(a: nat, b: nat)
    requires
        price_text(a) == price_text(b),
    ensures
        a == b,
{
    let u = UNITS_PER_WHOLE as nat;
    let (fa, fb) = (a % u, b % u);
    let (wa, wb) = (a / u, b / u);
    lemma_decimal_text_digits(wa);
    lemma_decimal_text_digits(wb);
    if fa == 0 && fb == 0 {
        lemma_decimal_text_injective(wa, wb);
    } else if fa == 0 {
        let k = decimal_text(wb).len() as int;
        assert(price_text(b)[k] == 46u8);
        assert(k < price_text(a).len() ==> !is_digit_byte(price_text(a)[k]));
        assert(price_text(a).len() > k);
    } else if fb == 0 {
        let k = decimal_text(wa).len() as int;
        assert(price_text(a)[k] == 46u8);
        assert(price_text(b).len() > k);
    } else {
        lemma_split_at_separator(decimal_text(wa), fraction_text(fa, 8), decimal_text(wb), fraction_text(fb, 8), 46u8);
        lemma_decimal_text_injective(wa, wb);
        reveal_with_fuel(pow10, 9);
        lemma_fraction_text_value(fa, 8);
        lemma_fraction_text_value(fb, 8);
    }
}

/// Distinct ids or distinct averages give distinct canonical messages: a
/// signature over one message covers no other pair.
pub proof fn lemma_canonical_bytes_injective(id1: nat, average1: nat, id2: nat, average2: nat)
    requires
        canonical_bytes(id1, average1) == canonical_bytes(id2, average2),
    ensures
        id1 == id2,
        average1 == average2,
{
    lemma_decimal_text_digits(id1);
    lemma_decimal_text_digits(id2);
    lemma_split_at_separator(decimal_text(id1), price_text(average1), decimal_text(id2), price_text(average2), 58u8);
    lemma_decimal_text_injective(id1, id2);
    lemma_price_text_injective(average1, average2);
}

fn push_decimal(n: u64, out: &mut Vec<u8>)
    ensures
        final(out)@ == old(out)@ + decimal_text(n as nat),
    decreases n,
{
    if n < 10 {
        out.push((48 + n) as u8);
        assert(final(out)@ =~= old(out)@ + decimal_text(n as nat));
    } else {
        push_decimal(n / 10, out);
        out.push((48 + n % 10) as u8);
        assert(final(out)@ =~= old(out)@ + decimal_text(n as nat));
    }
}

fn push_padded(n: u64, width: u64, out: &mut Vec<u8>)
    ensures
        final(out)@ == old(out)@ + padded_text(n as nat, width as nat),
    decreases width,
{
    if width == 0 {
        assert(final(out)@ =~= old(out)@ + padded_text(n as nat, width as nat));
    } else {
        push_padded(n / 10, width - 1, out);
        out.push((48 + n % 10) as u8);
        assert(final(out)@ =~= old(out)@ + padded_text(n as nat, width as nat));
    }
}

/// Appends `price_text(units)` to `out`.
pub fn push_price(units: u64, out: &mut Vec<u8>)
    ensures
        final(out)@ == old(out)@ + price_text(units as nat),
{
    let whole = units / UNITS_PER_WHOLE;
    let mut f = units % UNITS_PER_WHOLE;
    push_decimal(whole, out);
    if f == 0 {
        assert(final(out)@ =~= old(out)@ + price_text(units as nat));
        return;
    }
    let ghost mid = out@;
    out.push(46u8);
    let mut width: u64 = 8;
    while width > 0 && f % 10 == 0
        invariant
            width <= 8,
            fraction_text(f as nat, width as nat) == fraction_text(
                (units % UNITS_PER_WHOLE) as nat,
                8,
            ),
        decreases width,
    {
        f = f / 10;
        width = width - 1;
    }
    push_padded(f, width, out);
    assert(out@ =~= mid + seq![46u8] + fraction_text((units % UNITS_PER_WHOLE) as nat, 8));
    assert(final(out)@ =~= old(out)@ + price_text(units as nat));
}

/// Builds `"<client_id>:<average>"` as bytes.
pub fn canonical_message(client_id: usize, average: u64) -> (r: Vec<u8>)
    ensures
        r@ == canonical_bytes(client_id as nat, average as nat),
{
    let mut out: Vec<u8> = Vec::new();
    push_decimal(client_id as u64, &mut out);
    out.push(58u8);
    push_price(average, &mut out);
    assert(out@ =~= canonical_bytes(client_id as nat, average as nat));
    out
}

} // verus!
