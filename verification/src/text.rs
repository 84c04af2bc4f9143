use vstd::prelude::*;
use vstd::string::StrSliceExecFns;
use vstd::string::StringExecFns;

verus! {

use crate::err::Error;

/// Index of the first occurrence of `x` among `s[0..bound]`, or `-1` if
/// there is none.
pub open spec fn find_first<A>(s: Seq<A>, x: A, bound: int) -> int
    decreases bound,
{
    if bound <= 0 {
        -1
    } else {
        let p = find_first(s, x, bound - 1);
        if p >= 0 {
            p
        } else if bound - 1 < s.len() && s[bound - 1] == x {
            bound - 1
        } else {
            -1
        }
    }
}

pub proof fn lemma_find_first<A>(s: Seq<A>, x: A, bound: int)
    requires
        bound <= s.len(),
    ensures
        find_first(s, x, bound) == -1 <==> (forall|i: int| 0 <= i < bound ==> s[i] != x),
        find_first(s, x, bound) >= 0 ==> 0 <= find_first(s, x, bound) < bound
            && s[find_first(s, x, bound)] == x
            && (forall|i: int| 0 <= i < find_first(s, x, bound) ==> s[i] != x),
    decreases bound,
{
    if bound > 0 {
        lemma_find_first(s, x, bound - 1);
    }
}

pub proof fn lemma_find_first_at<A>(s: Seq<A>, x: A, bound: int, p: int)
    requires
        0 <= p < bound <= s.len(),
        s[p] == x,
        forall|i: int| 0 <= i < p ==> s[i] != x,
    ensures
        find_first(s, x, bound) == p,
    decreases bound,
{
    if bound - 1 > p {
        lemma_find_first_at(s, x, bound - 1, p);
    } else {
        lemma_find_first(s, x, bound - 1);
    }
}

pub open spec fn is_digit(c: char) -> bool {
    48 <= c as u32 <= 57
}

pub open spec fn digit_val(c: char) -> nat {
    (c as u32 - 48) as nat
}

pub open spec fn digit_char(d: nat) -> char {
    if d == 0 { '0' }
    else if d == 1 { '1' }
    else if d == 2 { '2' }
    else if d == 3 { '3' }
    else if d == 4 { '4' }
    else if d == 5 { '5' }
    else if d == 6 { '6' }
    else if d == 7 { '7' }
    else if d == 8 { '8' }
    else { '9' }
}

/// `s` is a non-empty run of decimal digits.
pub open spec fn dec_digits(s: Seq<char>) -> bool {
    s.len() > 0 && forall|i: int| 0 <= i < s.len() ==> is_digit(#[trigger] s[i])
}

/// Numeric value of a run of decimal digits.
pub open spec fn dec_val(s: Seq<char>) -> nat
    decreases s.len(),
{
    if s.len() == 0 {
        0
    } else {
        dec_val(s.drop_last()) * 10 + digit_val(s.last())
    }
}

/// The text forms that parse as an unsigned 32-bit number: an optional
/// leading plus sign, then at least one digit, with a value that fits.
pub open spec fn u32_text(s: Seq<char>) -> bool {
    if s.len() > 0 && s[0] == '+' {
        dec_digits(s.drop_first()) && dec_val(s.drop_first()) <= u32::MAX
    } else {
        dec_digits(s) && dec_val(s) <= u32::MAX
    }
}

pub open spec fn u32_of_text(s: Seq<char>) -> nat {
    if s.len() > 0 && s[0] == '+' {
        dec_val(s.drop_first())
    } else {
        dec_val(s)
    }
}

/// Decimal rendering of a number, most significant digit first.
pub open spec fn dec_chars(n: nat) -> Seq<char>
    decreases n,
{
    if n < 10 {
        seq![digit_char(n)]
    } else {
        dec_chars(n / 10) + seq![digit_char(n % 10)]
    }
}

pub proof fn lemma_dec_chars_digits(n: nat)
    ensures
        dec_digits(dec_chars(n)),
    decreases n,
{
    if n >= 10 {
        lemma_dec_chars_digits(n / 10);
    }
}

/// The value of a digit run only grows as digits are appended.
proof fn lemma_dec_val_prefix(t: Seq<char>, i: int)
    requires
        0 <= i <= t.len(),
    ensures
        dec_val(t.take(i)) <= dec_val(t),
    decreases t.len() - i,
{
    if i < t.len() {
        assert(t.take(i + 1).drop_last() =~= t.take(i));
        assert(dec_val(t.take(i + 1)) == dec_val(t.take(i)) * 10 + digit_val(t.take(i + 1).last()));
        assert(dec_val(t.take(i)) <= dec_val(t.take(i)) * 10) by (nonlinear_arith);
        lemma_dec_val_prefix(t, i + 1);
    } else {
        assert(t.take(i) =~= t);
    }
}

/// Character-for-character equality of two string slices.
pub fn str_eq(a: &str, b: &str) -> (r: bool)
    ensures
        r == (a@ == b@),
{
    let an = a.unicode_len();
    let bn = b.unicode_len();
    if an != bn {
        return false;
    }
    let mut i: usize = 0;
    while i < an
        invariant
            an == a@.len(),
            an == b@.len(),
            0 <= i <= an,
            forall|k: int| 0 <= k < i ==> a@[k] == b@[k],
        decreases an - i,
    {
        if a.get_char(i) != b.get_char(i) {
            return false;
        }
        i += 1;
    }
    proof {
        assert(a@ =~= b@);
    }
    true
}

/// Parses the decimal text forms accepted by [`u32_text`]; any other text
/// is a numeric-parse error.
pub fn parse_u32(s: &str) -> (r: core::result::Result<u32, Error>)
    ensures
        u32_text(s@) ==> r == Ok::<u32, Error>(u32_of_text(s@) as u32),
        !u32_text(s@) ==> r == Err::<u32, Error>(Error::ParseInt),
{
    let n = s.unicode_len();
    if n == 0 {
        return Err(Error::ParseInt);
    }
    let start: usize = if s.get_char(0) == '+' { 1 } else { 0 };
    if start == n {
        return Err(Error::ParseInt);
    }
    let ghost digits = s@.subrange(start as int, n as int);
    proof {
        if start == 1 {
            assert(digits == s@.drop_first());
        } else {
            assert(digits =~= s@);
        }
    }
    let mut acc: u32 = 0;
    let mut i: usize = start;
    while i < n
        invariant
            n == s@.len(),
            start <= i <= n,
            start < n,
            start == 0 || start == 1,
            start == 1 ==> s@[0] == '+',
            start == 0 ==> s@.len() == 0 || s@[0] != '+',
            digits == s@.subrange(start as int, n as int),
            start == 1 ==> digits == s@.drop_first(),
            start == 0 ==> digits == s@,
            forall|k: int| start <= k < i ==> is_digit(#[trigger] s@[k]),
            acc == dec_val(s@.subrange(start as int, i as int)),
        decreases n - i,
    {
        let c = s.get_char(i);
        let cu = c as u32;
        if cu < 48 || cu > 57 {
            proof {
                assert(!is_digit(digits[i - start]));
                assert(!dec_digits(digits));
            }
            return Err(Error::ParseInt);
        }
        let d: u32 = cu - 48;
        proof {
            assert(s@.subrange(start as int, i + 1).drop_last() =~= s@.subrange(
                start as int,
                i as int,
            ));
        }
        if acc > (u32::MAX - d) / 10 {
            proof {
                assert(acc * 10 + d > u32::MAX) by (nonlinear_arith)
                    requires
                        acc > (u32::MAX - d) / 10,
                        d <= 9,
                        acc <= u32::MAX,
                ;
                assert(dec_val(s@.subrange(start as int, i + 1)) > u32::MAX);
                if dec_digits(digits) {
                    assert(digits.take(i + 1 - start) =~= s@.subrange(start as int, i + 1));
                    lemma_dec_val_prefix(digits, i + 1 - start);
                }
            }
            return Err(Error::ParseInt);
        }
        proof {
            assert(acc * 10 + d <= u32::MAX) by (nonlinear_arith)
                requires
                    acc <= (u32::MAX - d) / 10,
                    d <= 9,
            ;
        }
        acc = acc * 10 + d;
        i += 1;
    }
    proof {
        assert(digits =~= s@.subrange(start as int, n as int));
        assert(dec_digits(digits));
        assert(acc == dec_val(digits));
    }
    Ok(acc)
}

fn digit_str(d: u32) -> (r: &'static str)
    requires
        d < 10,
    ensures
        r@ =~= seq![digit_char(d as nat)],
{
    proof {
        reveal_strlit("0");
        reveal_strlit("1");
        reveal_strlit("2");
        reveal_strlit("3");
        reveal_strlit("4");
        reveal_strlit("5");
        reveal_strlit("6");
        reveal_strlit("7");
        reveal_strlit("8");
        reveal_strlit("9");
    }
    match d {
        0 => "0",
        1 => "1",
        2 => "2",
        3 => "3",
        4 => "4",
        5 => "5",
        6 => "6",
        7 => "7",
        8 => "8",
        _ => "9",
    }
}

/// Renders a number as decimal text, the form the wire protocol uses for
/// relay and input-line identifiers.
pub fn u32_string(n: u32) -> (r: String)
    ensures
        r@ == dec_chars(n as nat),
    decreases n,
{
    if n < 10 {
        digit_str(n).to_owned()
    } else {
        let mut r = u32_string(n / 10);
        r.append(digit_str(n % 10));
        r
    }
}

} // verus!
