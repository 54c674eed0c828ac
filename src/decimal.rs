//! Decimal digits of unsigned and signed integers, as they stand on the wire.
use vstd::prelude::*;

verus! {

pub open spec fn is_digit(b: u8) -> bool {
    48 <= b <= 57
}

/// The ASCII digits of `n`, most significant first, without leading zeros.
pub open spec fn digits(n: nat) -> Seq<u8>
    decreases n,
{
    if n < 10 {
        seq![(48 + n) as u8]
    } else {
        digits(n / 10).push((48 + n % 10) as u8)
    }
}

/// The decimal form of a signed integer: a `-` before the digits of a negative one.
pub open spec fn decimal(n: int) -> Seq<u8> {
    if n < 0 {
        seq![45u8] + digits((-n) as nat)
    } else {
        digits(n as nat)
    }
}

/// The value of a sequence of ASCII digits.
pub open spec fn value(d: Seq<u8>) -> nat
    decreases d.len(),
{
    if d.len() == 0 {
        0
    } else {
        value(d.drop_last()) * 10 + (d.last() - 48) as nat
    }
}

/// Digits only, at least one, and no leading zero unless the number is zero.
pub open spec fn canonical(d: Seq<u8>) -> bool {
    &&& d.len() > 0
    &&& forall|i: int| 0 <= i < d.len() ==> is_digit(#[trigger] d[i])
    &&& d.len() > 1 ==> d[0] != 48
}

proof fn lemma_value_positive(d: Seq<u8>)
    requires
        canonical(d),
        d[0] != 48,
    ensures
        value(d) >= 1,
        d.len() > 1 ==> value(d) >= 10,
    decreases d.len(),
{
    if d.len() > 1 {
        let p = d.drop_last();
        assert(p[0] == d[0]);
        assert(canonical(p)) by {
            assert forall|i: int| 0 <= i < p.len() implies is_digit(#[trigger] p[i]) by {
                assert(p[i] == d[i]);
            }
        }
        lemma_value_positive(p);
    }
}

/// The digits of a number are canonical and read back as that number.
pub proof fn lemma_digits_value(n: nat)
    ensures
        canonical(digits(n)),
        value(digits(n)) == n,
    decreases n,
{
    let d = digits(n);
    if n < 10 {
        assert(d.drop_last() =~= Seq::<u8>::empty());
        assert(value(d) == value(d.drop_last()) * 10 + (d.last() - 48) as nat);
        assert(is_digit(d[0]));
    } else {
        lemma_digits_value(n / 10);
        let p = digits(n / 10);
        assert(d.drop_last() =~= p);
        assert(d.last() == (48 + n % 10) as u8);
        assert(d[0] == p[0]);
        if n / 10 < 10 {
            assert(p[0] == (48 + n / 10) as u8);
        } else {
            assert(p == digits(n / 10 / 10).push((48 + (n / 10) % 10) as u8));
            lemma_digits_value(n / 10 / 10);
            assert(p.len() > 1);
        }
        assert forall|i: int| 0 <= i < d.len() implies is_digit(#[trigger] d[i]) by {
            if i < p.len() {
                assert(d[i] == p[i]);
            }
        }
        assert(value(d) == value(p) * 10 + n % 10);
        assert(n == (n / 10) * 10 + n % 10);
    }
}

/// Canonical digits are exactly the digits of their value.
pub proof fn lemma_value_digits(d: Seq<u8>)
    requires
        canonical(d),
    ensures
        digits(value(d)) == d,
    decreases d.len(),
{
    if d.len() == 1 {
        assert(d.drop_last() =~= Seq::<u8>::empty());
        assert(value(d) == value(d.drop_last()) * 10 + (d.last() - 48) as nat);
        assert(is_digit(d[0]));
        assert(digits(value(d)) =~= d);
    } else {
        let p = d.drop_last();
        assert(p[0] == d[0]);
        assert(canonical(p)) by {
            assert forall|i: int| 0 <= i < p.len() implies is_digit(#[trigger] p[i]) by {
                assert(p[i] == d[i]);
            }
        }
        lemma_value_positive(p);
        lemma_value_digits(p);
        let c = (d.last() - 48) as nat;
        assert(is_digit(d[d.len() - 1]));
        let v = value(d);
        assert(v == value(p) * 10 + c);
        assert(v / 10 == value(p) && v % 10 == c) by (nonlinear_arith)
            requires
                v == value(p) * 10 + c,
                c < 10,
        ;
        assert(digits(v) =~= d);
    }
}

/// Appends the digits of `n` to `out`.
pub fn push_digits(n: u64, out: &mut Vec<u8>)
    ensures
        final(out)@ == old(out)@ + digits(n as nat),
    decreases n,
{
    if n >= 10 {
        push_digits(n / 10, out);
    }
    out.push(48 + (n % 10) as u8);
    assert(final(out)@ =~= old(out)@ + digits(n as nat));
}

/// Appends the decimal form of `n` to `out`.
pub fn push_decimal(n: i64, out: &mut Vec<u8>)
    ensures
        final(out)@ == old(out)@ + decimal(n as int),
{
    if n < 0 {
        out.push(45);
        let m: u64 = (-(n as i128)) as u64;
        push_digits(m, out);
        assert(final(out)@ =~= old(out)@ + decimal(n as int));
    } else {
        push_digits(n as u64, out);
    }
}

} // verus!
