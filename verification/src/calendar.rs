//! The pattern that selects the trades of one calendar month.
use vstd::prelude::*;
use crate::text::{push_all, string_of};

verus! {

/// The character of a decimal digit.
pub open spec fn digit_char(d: int) -> char {
    seq!['0', '1', '2', '3', '4', '5', '6', '7', '8', '9'][d]
}

/// The decimal digits of `n`, most significant first, without leading zeros.
pub open spec fn decimal(n: nat) -> Seq<char>
    decreases n,
{
    if n < 10 {
        seq![digit_char(n as int)]
    } else {
        decimal(n / 10) + seq![digit_char((n % 10) as int)]
    }
}

/// `k` zeros (none when `k` is not positive).
pub open spec fn zeros(k: int) -> Seq<char> {
    Seq::new(
        if k > 0 {
            k as nat
        } else {
            0
        },
        |i: int| '0',
    )
}

/// `n` in decimal, padded with zeros after the sign to at least `width`
/// characters, as `format!("{:0width$}", n)` writes it.
pub open spec fn zero_padded(n: int, width: int) -> Seq<char> {
    if n >= 0 {
        zeros(width - decimal(n as nat).len()) + decimal(n as nat)
    } else {
        seq!['-'] + zeros(width - 1 - decimal((-n) as nat).len()) + decimal((-n) as nat)
    }
}

/// The pattern `YYYY-MM%` for a year and a month, as
/// `format!("{:04}-{:02}%", year, month)` writes it.
pub open spec fn month_pattern(year: int, month: int) -> Seq<char> {
    zero_padded(year, 4) + seq!['-'] + zero_padded(month, 2) + seq!['%']
}

/// Appends the decimal digits of `n`.
fn push_decimal(out: &mut Vec<char>, n: u64)
    ensures
        final(out)@ == old(out)@ + decimal(n as nat),
    decreases n,
{
    let digits = ['0', '1', '2', '3', '4', '5', '6', '7', '8', '9'];
    assert(digits@ =~= seq!['0', '1', '2', '3', '4', '5', '6', '7', '8', '9']);
    let ghost start = out@;
    if n >= 10 {
        push_decimal(out, n / 10);
    }
    out.push(digits[(n % 10) as usize]);
    if n >= 10 {
        assert(out@ =~= start + (decimal((n / 10) as nat) + seq![digit_char((n % 10) as int)]));
    } else {
        assert(out@ =~= start + seq![digit_char(n as int)]);
    }
}

/// Appends `n` padded with zeros to `width` characters.
fn push_padded(out: &mut Vec<char>, n: i64, width: usize)
    ensures
        final(out)@ == old(out)@ + zero_padded(n as int, width as int),
{
    let ghost start = out@;
    let magnitude: u64 = if n < 0 {
        (-(n + 1)) as u64 + 1
    } else {
        n as u64
    };
    let mut digits: Vec<char> = Vec::new();
    push_decimal(&mut digits, magnitude);
    assert(digits@ =~= decimal(magnitude as nat));
    let taken: usize = if n < 0 {
        out.push('-');
        1
    } else {
        0
    };
    let mut count: usize = 0;
    let fill: usize = if digits.len() < width && taken < width - digits.len() {
        width - digits.len() - taken
    } else {
        0
    };
    let ghost signed = out@;
    while count < fill
        invariant
            count <= fill,
            out@ == signed + Seq::new(count as nat, |i: int| '0'),
        decreases fill - count,
    {
        out.push('0');
        count = count + 1;
        assert(out@ =~= signed + Seq::new(count as nat, |i: int| '0'));
    }
    push_all(out, &digits);
    if n < 0 {
        assert(zeros(width - 1 - decimal((-n) as nat).len()) =~= Seq::new(
            fill as nat,
            |i: int| '0',
        ));
        assert(out@ =~= start + zero_padded(n as int, width as int));
    } else {
        assert(zeros(width - decimal(n as nat).len()) =~= Seq::new(fill as nat, |i: int| '0'));
        assert(out@ =~= start + zero_padded(n as int, width as int));
    }
}

/// The pattern that matches the entry dates of a month: `YYYY-MM%`.
pub fn calendar_month_pattern(year: i64, month: i64) -> (res: String)
    ensures
        res@ == month_pattern(year as int, month as int),
{
    let mut out: Vec<char> = Vec::new();
    push_padded(&mut out, year, 4);
    out.push('-');
    push_padded(&mut out, month, 2);
    out.push('%');
    assert(out@ =~= month_pattern(year as int, month as int));
    string_of(&out)
}

proof fn lemma_decimal_len(n: nat, k: nat, bound: int)
    requires
        n < bound,
        bound == vstd::arithmetic::power::pow(10, k),
        k >= 1,
    ensures
        decimal(n).len() <= k,
    decreases k,
{
    vstd::arithmetic::power::lemma_pow_positive(10, k);
    if n >= 10 {
        assert(k >= 2) by {
            if k == 1 {
                vstd::arithmetic::power::lemma_pow1(10);
            }
        }
        let b2 = vstd::arithmetic::power::pow(10, (k - 1) as nat);
        vstd::arithmetic::power::lemma_pow_adds(10, 1, (k - 1) as nat);
        vstd::arithmetic::power::lemma_pow1(10);
        assert(bound == 10 * b2);
        assert(n / 10 < b2) by (nonlinear_arith)
            requires
                n < 10 * b2,
        ;
        lemma_decimal_len(n / 10, (k - 1) as nat, b2);
    }
}

/// For a four-digit year and a month below 100 the pattern has eight
/// characters: the year, a hyphen, the month in two digits and `%`, which are
/// the first seven characters of every ISO date (`YYYY-MM-DD`) of that month,
/// then the wildcard.
pub proof fn lemma_month_pattern_shape(year: int, month: int)
    requires
        1000 <= year <= 9999,
        0 <= month <= 99,
    ensures
        month_pattern(year, month).len() == 8,
        month_pattern(year, month).subrange(0, 4) == decimal(year as nat),
        month_pattern(year, month)[4] == '-',
        month_pattern(year, month).subrange(5, 7) == zero_padded(month, 2),
        month_pattern(year, month)[7] == '%',
{
    vstd::arithmetic::power::lemma_pow1(10);
    assert(vstd::arithmetic::power::pow(10, 2) == 100) by {
        vstd::arithmetic::power::lemma_pow_adds(10, 1, 1);
    }
    assert(vstd::arithmetic::power::pow(10, 4) == 10000) by {
        vstd::arithmetic::power::lemma_pow_adds(10, 2, 2);
    }
    lemma_decimal_len(year as nat, 4, 10000);
    lemma_decimal_len(month as nat, 2, 100);
    assert(decimal(year as nat).len() >= 4) by {
        let y = year as nat;
        assert(decimal(y) == decimal(y / 10) + seq![digit_char((y % 10) as int)]);
        assert(decimal(y / 10) == decimal(y / 100) + seq![digit_char(((y / 10) % 10) as int)]);
        assert(decimal(y / 100) == decimal(y / 1000) + seq![digit_char(((y / 100) % 10) as int)]);
    }
    assert(decimal(month as nat).len() >= 1);
    assert(zeros(4 - decimal(year as nat).len()) =~= Seq::<char>::empty());
    assert(zero_padded(month, 2).len() == 2);
    let p = month_pattern(year, month);
    assert(p =~= decimal(year as nat) + seq!['-'] + zero_padded(month, 2) + seq!['%']);
    assert(p.subrange(0, 4) =~= decimal(year as nat));
    assert(p.subrange(5, 7) =~= zero_padded(month, 2));
}

} // verus!
