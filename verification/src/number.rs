//! Integer arithmetic of the language: reading number literals and
//! raising to a power, both within 32 bits.

use vstd::prelude::*;

verus! {

/// What the byte `b` counts for in a literal: a digit its value, any
/// other byte nothing.
pub open spec fn digit(b: u8) -> int {
    if 48 <= b <= 57 {
        b - 48
    } else {
        0
    }
}

/// The number that the decimal digits `d` write.
pub open spec fn digits_value(d: Seq<u8>) -> int
    decreases d.len(),
{
    if d.len() == 0 {
        0
    } else {
        digits_value(d.drop_last()) * 10 + digit(d.last())
    }
}

/// The number that the literal `t` writes: digits behind an optional sign.
pub open spec fn literal_value(t: Seq<u8>) -> int {
    if t.len() > 0 && t[0] == 45 {
        -digits_value(t.drop_first())
    } else if t.len() > 0 && t[0] == 43 {
        digits_value(t.drop_first())
    } else {
        digits_value(t)
    }
}

/// Whether `n` is a signed 32-bit number.
pub open spec fn fits(n: int) -> bool {
    i32::MIN <= n <= i32::MAX
}

/// `b` raised to `e`.
pub open spec fn power(b: int, e: nat) -> int
    decreases e,
{
    if e == 0 {
        1
    } else {
        b * power(b, (e - 1) as nat)
    }
}

/// More digits never write a smaller number.
pub proof fn lemma_digits_grow(d: Seq<u8>, k: int)
    requires
        0 <= k <= d.len(),
    ensures
        0 <= digits_value(d.subrange(0, k)) <= digits_value(d),
    decreases d.len(),
{
    if k == d.len() {
        assert(d.subrange(0, k) =~= d);
        if k > 0 {
            lemma_digits_grow(d.drop_last(), k - 1);
        }
    } else {
        lemma_digits_grow(d.drop_last(), k);
        assert(d.drop_last().subrange(0, k) =~= d.subrange(0, k));
    }
}

pub proof fn lemma_power_of_zero(e: nat)
    ensures
        power(0, e) == if e == 0 { 1int } else { 0int },
{
}

pub proof fn lemma_power_of_one(e: nat)
    ensures
        power(1, e) == 1,
    decreases e,
{
    if e > 0 {
        lemma_power_of_one((e - 1) as nat);
    }
}

pub proof fn lemma_power_of_minus_one(e: nat)
    ensures
        power(-1, e) == if e % 2 == 0 { 1int } else { -1int },
    decreases e,
{
    if e > 0 {
        lemma_power_of_minus_one((e - 1) as nat);
    }
}

pub open spec fn abs(n: int) -> int {
    if n < 0 {
        -n
    } else {
        n
    }
}

/// With a base of magnitude two or more, each further factor at least
/// doubles the magnitude of the power.
pub proof fn lemma_power_grows(b: int, j: nat, e: nat)
    requires
        abs(b) >= 2,
        j < e,
    ensures
        abs(power(b, e)) >= 2 * abs(power(b, j)),
    decreases e,
{
    let x = power(b, (e - 1) as nat);
    assert(abs(b * x) >= 2 * abs(x)) by (nonlinear_arith)
        requires
            abs(b) >= 2,
    ;
    if e - 1 > j {
        lemma_power_grows(b, j, (e - 1) as nat);
    }
}

/// Reads the literal `t`: `Some` with its number exactly when that fits
/// in 32 bits.
pub fn read_number(t: &[u8]) -> (r: Option<i32>)
    ensures
        match r {
            Some(n) => n == literal_value(t@),
            None => !fits(literal_value(t@)),
        },
{
    let negative = t.len() > 0 && t[0] == 45;
    let start: usize = if t.len() > 0 && (t[0] == 45 || t[0] == 43) {
        1
    } else {
        0
    };
    let ghost d = t@.subrange(start as int, t.len() as int);
    let mut acc: i64 = 0;
    let mut i: usize = start;
    assert(t@.subrange(start as int, start as int) =~= Seq::<u8>::empty());
    assert(d =~= if start == 1 {
        t@.drop_first()
    } else {
        t@
    });
    while i < t.len()
        invariant
            start <= i <= t.len(),
            d == t@.subrange(start as int, t.len() as int),
            literal_value(t@) == if negative {
                -digits_value(d)
            } else {
                digits_value(d)
            },
            acc == digits_value(t@.subrange(start as int, i as int)),
            0 <= acc <= 2147483648,
        decreases t.len() - i,
    {
        let b = t[i];
        let dg: i64 = if 48 <= b && b <= 57 {
            (b - 48) as i64
        } else {
            0
        };
        assert(t@.subrange(start as int, i + 1).drop_last() =~= t@.subrange(
            start as int,
            i as int,
        ));
        acc = acc * 10 + dg;
        i += 1;
        if acc > 2147483648 {
            proof {
                lemma_digits_grow(d, i - start);
                assert(d.subrange(0, i - start) =~= t@.subrange(start as int, i as int));
            }
            return None;
        }
    }
    if negative {
        Some((-acc) as i32)
    } else if acc == 2147483648 {
        None
    } else {
        Some(acc as i32)
    }
}

/// Raises `b` to `e`: `Some` with the power exactly when it fits in 32
/// bits.
pub fn checked_power(b: i32, e: u32) -> (r: Option<i32>)
    ensures
        match r {
            Some(n) => n == power(b as int, e as nat),
            None => !fits(power(b as int, e as nat)),
        },
{
    if b == 0 {
        proof {
            lemma_power_of_zero(e as nat);
        }
        return Some(if e == 0 { 1 } else { 0 });
    }
    if b == 1 {
        proof {
            lemma_power_of_one(e as nat);
        }
        return Some(1);
    }
    if b == -1 {
        proof {
            lemma_power_of_minus_one(e as nat);
        }
        return Some(if e % 2 == 0 { 1 } else { -1 });
    }
    let mut acc: i64 = 1;
    let mut k: u32 = 0;
    while k < e
        invariant
            k <= e,
            abs(b as int) >= 2,
            acc == power(b as int, k as nat),
            fits(acc as int),
        decreases e - k,
    {
        assert(power(b as int, (k + 1) as nat) == b * power(b as int, k as nat));
        assert(-4611686018427387904 <= acc * b <= 4611686018427387904) by (nonlinear_arith)
            requires
                -2147483648 <= acc <= 2147483647,
                -2147483648 <= b <= 2147483647,
        ;
        let wide: i64 = acc * (b as i64);
        assert(wide == b * acc) by (nonlinear_arith)
            requires
                wide == acc * b,
        ;
        k += 1;
        assert(wide == power(b as int, k as nat));
        if wide > 2147483647 || wide < -2147483648 {
            proof {
                if k < e {
                    lemma_power_grows(b as int, k as nat, e as nat);
                }
            }
            return None;
        }
        acc = wide;
    }
    Some(acc as i32)
}

} // verus!
