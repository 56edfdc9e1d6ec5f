//! Recognising the texts that `str::parse::<f64>` accepts.
//!
//! The accepted language is the one the standard library documents for
//! `f64::from_str`, with ASCII letters compared without regard to case:
//!
//! ```text
//! Float  ::= Sign? ( 'inf' | 'infinity' | 'nan' | Number )
//! Number ::= ( Digit+ | Digit+ '.' Digit* | Digit* '.' Digit+ ) Exp?
//! Exp    ::= 'e' Sign? Digit+
//! Sign   ::= [+-]
//! Digit  ::= [0-9]
//! ```
//!
//! Leading or trailing white space is not accepted.  The library keeps the
//! accepted text itself; turning it into a binary floating-point value is left
//! to the caller.
use vstd::prelude::*;

verus! {

pub open spec fn is_digit(c: char) -> bool {
    '0' as u32 <= c as u32 <= '9' as u32
}

pub open spec fn is_sign(c: char) -> bool {
    c == '+' || c == '-'
}

/// `c` with an ASCII upper-case letter mapped to its lower-case form.
pub open spec fn ascii_lower(c: char) -> u32 {
    let u = c as u32;
    if 'A' as u32 <= u <= 'Z' as u32 {
        (u + 32) as u32
    } else {
        u
    }
}

/// `s` spells `w` (a lower-case ASCII word) in any mix of cases.
pub open spec fn spells(s: Seq<char>, w: Seq<char>) -> bool {
    &&& s.len() == w.len()
    &&& forall|i: int| 0 <= i < s.len() ==> ascii_lower(#[trigger] s[i]) == w[i] as u32
}

/// The first position at or after `i` that does not hold a digit.
pub open spec fn digits_end(s: Seq<char>, i: int) -> int
    decreases s.len() - i,
{
    if 0 <= i < s.len() && is_digit(s[i]) {
        digits_end(s, i + 1)
    } else {
        i
    }
}

/// `s[k..]` is empty or an exponent `e Sign? Digit+`.
pub open spec fn exponent_rest(s: Seq<char>, k: int) -> bool {
    ||| k == s.len()
    ||| {
        &&& 0 <= k < s.len()
        &&& (s[k] == 'e' || s[k] == 'E')
        &&& {
            let j = if k + 1 < s.len() && is_sign(s[k + 1]) {
                k + 2
            } else {
                k + 1
            };
            digits_end(s, j) > j && digits_end(s, j) == s.len()
        }
    }
}

/// `s` is a `Number` of the grammar.
pub open spec fn is_number_text(s: Seq<char>) -> bool {
    let a = digits_end(s, 0);
    if a < s.len() && s[a] == '.' {
        let b = digits_end(s, a + 1);
        (a > 0 || b > a + 1) && exponent_rest(s, b)
    } else {
        a > 0 && exponent_rest(s, a)
    }
}

/// The length of the optional leading sign of `s`.
pub open spec fn sign_len(s: Seq<char>) -> int {
    if s.len() > 0 && is_sign(s[0]) {
        1
    } else {
        0
    }
}

/// `s` is accepted by `str::parse::<f64>`.
pub open spec fn is_float_text(s: Seq<char>) -> bool {
    let r = s.skip(sign_len(s));
    ||| spells(r, seq!['i', 'n', 'f'])
    ||| spells(r, seq!['i', 'n', 'f', 'i', 'n', 'i', 't', 'y'])
    ||| spells(r, seq!['n', 'a', 'n'])
    ||| is_number_text(r)
}

/// All characters of `s` are digits.
pub open spec fn all_digits(s: Seq<char>) -> bool {
    forall|i: int| 0 <= i < s.len() ==> is_digit(#[trigger] s[i])
}

/// A sign in front of an unsigned text changes nothing of whether it is
/// accepted: `-s` and `+s` are numbers exactly when `s` is.
pub proof fn lemma_float_sign_symmetric(s: Seq<char>)
    requires
        !(s.len() > 0 && is_sign(s[0])),
    ensures
        is_float_text(seq!['-'] + s) == is_float_text(s),
        is_float_text(seq!['+'] + s) == is_float_text(s),
{
    assert((seq!['-'] + s).skip(1) =~= s);
    assert((seq!['+'] + s).skip(1) =~= s);
    assert(s.skip(0) =~= s);
}

/// Where `s[i..j]` holds digits only and `s[j]` is not one, the digits that
/// start at `i` end at `j`.
proof fn lemma_digits_end_at(s: Seq<char>, i: int, j: int)
    requires
        0 <= i <= j <= s.len(),
        forall|k: int| i <= k < j ==> is_digit(#[trigger] s[k]),
        j == s.len() || !is_digit(s[j]),
    ensures
        digits_end(s, i) == j,
    decreases j - i,
{
    if i < j {
        lemma_digits_end_at(s, i + 1, j);
    }
}

/// Digits with at most one `.` among them, and at least one digit, form a
/// number, with or without a sign in front: `12`, `1.5`, `.5`, `3.`, `-0.35`.
pub proof fn lemma_decimal_is_float(whole: Seq<char>, frac: Seq<char>)
    requires
        all_digits(whole),
        all_digits(frac),
    ensures
        whole.len() > 0 ==> is_float_text(whole),
        whole.len() > 0 || frac.len() > 0 ==> is_float_text(whole + seq!['.'] + frac),
        whole.len() > 0 || frac.len() > 0 ==> is_float_text(seq!['-'] + (whole + seq!['.']
            + frac)),
        whole.len() > 0 || frac.len() > 0 ==> is_float_text(seq!['+'] + (whole + seq!['.']
            + frac)),
        whole.len() > 0 ==> is_float_text(seq!['-'] + whole),
{
    let n = whole + seq!['.'] + frac;
    let w = whole.len() as int;
    if w > 0 {
        lemma_digits_end_at(whole, 0, w);
        assert(whole.skip(0) =~= whole);
        assert(!is_digit('.'));
        assert(is_number_text(whole));
        assert(is_float_text(whole));
        lemma_float_sign_symmetric(whole);
    }
    if w > 0 || frac.len() > 0 {
        assert forall|k: int| 0 <= k < w implies is_digit(#[trigger] n[k]) by {
            assert(n[k] == whole[k]);
        }
        assert(n[w] == '.');
        lemma_digits_end_at(n, 0, w);
        assert forall|k: int| w + 1 <= k < n.len() implies is_digit(#[trigger] n[k]) by {
            assert(n[k] == frac[k - w - 1]);
        }
        lemma_digits_end_at(n, w + 1, n.len() as int);
        assert(is_number_text(n));
        assert(n.skip(0) =~= n);
        assert(is_float_text(n));
        lemma_float_sign_symmetric(n);
    }
}

proof fn lemma_digits_end(s: Seq<char>, i: int)
    requires
        0 <= i <= s.len(),
    ensures
        i <= digits_end(s, i) <= s.len(),
        forall|k: int| i <= k < digits_end(s, i) ==> is_digit(#[trigger] s[k]),
        digits_end(s, i) < s.len() ==> !is_digit(s[digits_end(s, i)]),
    decreases s.len() - i,
{
    if i < s.len() && is_digit(s[i]) {
        lemma_digits_end(s, i + 1);
    }
}

/// A character that a number may hold: a digit, a sign, `.`, `e` or `E`.
pub open spec fn is_number_char(c: char) -> bool {
    is_digit(c) || is_sign(c) || c == '.' || c == 'e' || c == 'E'
}

/// Apart from the spelled-out infinities and NaN, an accepted text holds
/// only digits, signs, `.`, `e` and `E`, and at least one digit; so the empty
/// text, a lone sign or `.`, and any text with white space or another letter
/// are refused.
pub proof fn lemma_float_chars(s: Seq<char>)
    ensures
        is_float_text(s) ==> s.len() > 0,
        is_float_text(s) && is_number_text(s.skip(sign_len(s))) ==> {
            &&& forall|i: int| 0 <= i < s.len() ==> is_number_char(#[trigger] s[i])
            &&& exists|i: int| 0 <= i < s.len() && is_digit(#[trigger] s[i])
        },
{
    let r = s.skip(sign_len(s));
    let q = sign_len(s);
    if is_float_text(s) && is_number_text(r) {
        lemma_digits_end(r, 0);
        let a = digits_end(r, 0);
        let b = if a < r.len() && r[a] == '.' {
            lemma_digits_end(r, a + 1);
            digits_end(r, a + 1)
        } else {
            a
        };
        // the exponent
        if b < r.len() {
            let j = if b + 1 < r.len() && is_sign(r[b + 1]) {
                b + 2
            } else {
                b + 1
            };
            lemma_digits_end(r, j);
        }
        assert forall|i: int| 0 <= i < s.len() implies is_number_char(#[trigger] s[i]) by {
            if i >= q {
                assert(s[i] == r[i - q]);
            }
        }
        if a > 0 {
            assert(s[q] == r[0]);
            assert(is_digit(s[q]));
        } else {
            assert(s[q + a + 1] == r[a + 1]);
            assert(is_digit(s[q + a + 1]));
        }
    }
    if is_float_text(s) && s.len() == 0 {
        assert(r.len() == 0);
        assert(digits_end(r, 0) == 0);
    }
}

fn digit(c: char) -> (res: bool)
    ensures
        res == is_digit(c),
{
    '0' as u32 <= c as u32 && c as u32 <= '9' as u32
}

fn sign(c: char) -> (res: bool)
    ensures
        res == is_sign(c),
{
    c == '+' || c == '-'
}

/// The first position at or after `i` that does not hold a digit.
fn skip_digits(s: &Vec<char>, i: usize) -> (res: usize)
    requires
        i <= s.len(),
    ensures
        res == digits_end(s@, i as int),
        i <= res <= s.len(),
{
    let mut j = i;
    while j < s.len() && digit(s[j])
        invariant
            i <= j <= s.len(),
            digits_end(s@, i as int) == digits_end(s@, j as int),
        decreases s.len() - j,
    {
        j = j + 1;
    }
    j
}

/// Whether `s[from..]` spells `w` in any mix of cases.
fn spells_from(s: &Vec<char>, from: usize, w: &[char]) -> (res: bool)
    requires
        from <= s.len(),
    ensures
        res == spells(s@.skip(from as int), w@),
{
    if s.len() - from != w.len() {
        return false;
    }
    let mut i: usize = 0;
    while i < w.len()
        invariant
            i <= w.len(),
            s.len() - from == w.len(),
            forall|k: int| 0 <= k < i ==> ascii_lower(#[trigger] s@.skip(from as int)[k]) == w@[k] as u32,
        decreases w.len() - i,
    {
        let u = s[from + i] as u32;
        let low = if 'A' as u32 <= u && u <= 'Z' as u32 {
            u + 32
        } else {
            u
        };
        assert(s@.skip(from as int)[i as int] == s@[from + i]);
        if low != w[i] as u32 {
            return false;
        }
        i = i + 1;
    }
    true
}

/// Whether `s[k..]` is empty or an exponent.
fn exponent_from(s: &Vec<char>, k: usize) -> (res: bool)
    requires
        k <= s.len(),
    ensures
        res == exponent_rest(s@, k as int),
{
    if k == s.len() {
        return true;
    }
    if s[k] != 'e' && s[k] != 'E' {
        return false;
    }
    let j = if k + 1 < s.len() && sign(s[k + 1]) {
        k + 2
    } else {
        k + 1
    };
    let d = skip_digits(s, j);
    d > j && d == s.len()
}

/// Whether `str::parse::<f64>` accepts the text `s`.
pub fn is_float(s: &Vec<char>) -> (res: bool)
    ensures
        res == is_float_text(s@),
{
    let start: usize = if s.len() > 0 && sign(s[0]) {
        1
    } else {
        0
    };
    let ghost r = s@.skip(start as int);
    assert(seq!['i', 'n', 'f'] =~= ['i', 'n', 'f']@);
    assert(seq!['i', 'n', 'f', 'i', 'n', 'i', 't', 'y'] =~= ['i', 'n', 'f', 'i', 'n', 'i', 't', 'y']@);
    assert(seq!['n', 'a', 'n'] =~= ['n', 'a', 'n']@);
    if spells_from(s, start, &['i', 'n', 'f']) || spells_from(
        s,
        start,
        &['i', 'n', 'f', 'i', 'n', 'i', 't', 'y'],
    ) || spells_from(s, start, &['n', 'a', 'n']) {
        return true;
    }
    let rest = crate::text::copy_range(s, start, s.len());
    assert(rest@ =~= r);
    let a = skip_digits(&rest, 0);
    if a < rest.len() && rest[a] == '.' {
        let b = skip_digits(&rest, a + 1);
        (a > 0 || b > a + 1) && exponent_from(&rest, b)
    } else {
        a > 0 && exponent_from(&rest, a)
    }
}

} // verus!
