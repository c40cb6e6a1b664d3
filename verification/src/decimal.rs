//! Whole numbers as decimal text, the form in which the archive header holds
//! file offsets.

use vstd::prelude::*;
use vstd::string::StringExecFns;

verus! {

/// Why a text is not the decimal form of a `u64`.
#[derive(Debug, Clone, Copy, PartialEq, Eq, Structural)]
pub enum NumberFault {
    /// The text is empty.
    Empty,
    /// A character is no decimal digit, or a sign stands alone.
    InvalidDigit,
    /// The digits name a number above `u64::MAX`.
    Overflow,
}

/// The character of a digit from 0 to 9.
pub open spec fn digit_char(d: nat) -> char {
    if d == 0 {
        '0'
    } else if d == 1 {
        '1'
    } else if d == 2 {
        '2'
    } else if d == 3 {
        '3'
    } else if d == 4 {
        '4'
    } else if d == 5 {
        '5'
    } else if d == 6 {
        '6'
    } else if d == 7 {
        '7'
    } else if d == 8 {
        '8'
    } else {
        '9'
    }
}

/// Whether a character is one of `0` to `9`.
pub open spec fn is_digit(c: char) -> bool {
    '0' <= c <= '9'
}

/// The digit that a character of `0` to `9` stands for.
pub open spec fn digit_value(c: char) -> nat {
    (c as u32 - '0' as u32) as nat
}

/// The decimal form of a number, without leading zeros.
pub open spec fn decimal(n: nat) -> Seq<char>
    decreases n,
{
    if n < 10 {
        seq![digit_char(n)]
    } else {
        decimal(n / 10).push(digit_char(n % 10))
    }
}

/// Reads digits from the left. The first character that is no digit, or that
/// takes the number above `u64::MAX`, ends the reading with its fault.
pub open spec fn scan_digits(s: Seq<char>) -> Result<nat, NumberFault>
    decreases s.len(),
{
    if s.len() == 0 {
        Ok(0)
    } else {
        match scan_digits(s.drop_last()) {
            Err(fault) => Err(fault),
            Ok(value) => if !is_digit(s.last()) {
                Err(NumberFault::InvalidDigit)
            } else if value * 10 + digit_value(s.last()) > u64::MAX {
                Err(NumberFault::Overflow)
            } else {
                Ok(value * 10 + digit_value(s.last()))
            },
        }
    }
}

/// The number that a text stands for: decimal digits, with at most one `+`
/// in front of them.
pub open spec fn parse_decimal(s: Seq<char>) -> Result<u64, NumberFault> {
    if s.len() == 0 {
        Err(NumberFault::Empty)
    } else if s.len() == 1 && (s[0] == '+' || s[0] == '-') {
        Err(NumberFault::InvalidDigit)
    } else {
        let digits = if s[0] == '+' {
            s.subrange(1, s.len() as int)
        } else {
            s
        };
        match scan_digits(digits) {
            Ok(value) => Ok(value as u64),
            Err(fault) => Err(fault),
        }
    }
}

/// The decimal form of a number is made of digits and reads back as the number.
pub proof fn lemma_decimal_scans(n: nat)
    requires
        n <= u64::MAX,
    ensures
        decimal(n).len() >= 1,
        is_digit(decimal(n)[0]),
        scan_digits(decimal(n)) == Ok::<nat, NumberFault>(n),
    decreases n,
{
    if n < 10 {
        let s = decimal(n);
        assert(s.drop_last() =~= Seq::<char>::empty());
        assert(scan_digits(s.drop_last()) == Ok::<nat, NumberFault>(0));
        assert(digit_value(digit_char(n)) == n);
    } else {
        lemma_decimal_scans(n / 10);
        let s = decimal(n);
        assert(s.drop_last() =~= decimal(n / 10));
        assert(s.last() == digit_char(n % 10));
        assert(digit_value(digit_char(n % 10)) == n % 10);
        assert(s[0] == decimal(n / 10)[0]);
    }
}

/// A number written in decimal reads back as itself.
pub proof fn lemma_decimal_round_trip(n: u64)
    ensures
        parse_decimal(decimal(n as nat)) == Ok::<u64, NumberFault>(n),
{
    lemma_decimal_scans(n as nat);
    let s = decimal(n as nat);
    assert(s[0] != '+' && s[0] != '-');
}

/// The text of one digit.
fn digit_text(d: u64) -> (r: &'static str)
    requires
        d < 10,
    ensures
        r@ == seq![digit_char(d as nat)],
{
    proof {
        reveal_strlit("0");
        reveal_strlit("1");
        reveal_strlit("2");
        reveal_strlit("3");
        reveal_strlit("4");
        reveal_strlit("5");
        reveal_strlit("6");
        reveal_strlit("7");
        reveal_strlit("8");
        reveal_strlit("9");
    }
    let r = if d == 0 {
        "0"
    } else if d == 1 {
        "1"
    } else if d == 2 {
        "2"
    } else if d == 3 {
        "3"
    } else if d == 4 {
        "4"
    } else if d == 5 {
        "5"
    } else if d == 6 {
        "6"
    } else if d == 7 {
        "7"
    } else if d == 8 {
        "8"
    } else {
        "9"
    };
    assert(r@ =~= seq![digit_char(d as nat)]);
    r
}

/// Writes a number in decimal.
pub fn to_decimal(n: u64) -> (r: String)
    ensures
        r@ == decimal(n as nat),
    decreases n,
{
    if n < 10 {
        digit_text(n).to_owned()
    } else {
        let mut r = to_decimal(n / 10);
        r.append(digit_text(n % 10));
        assert(r@ =~= decimal(n as nat));
        r
    }
}

/// A fault met while reading the front of a text is the fault of the whole text.
pub proof fn lemma_scan_prefix_fault(s: Seq<char>, k: int)
    requires
        0 <= k <= s.len(),
        scan_digits(s.subrange(0, k)) is Err,
    ensures
        scan_digits(s) == scan_digits(s.subrange(0, k)),
    decreases s.len(),
{
    if k < s.len() {
        assert(s.drop_last().subrange(0, k) =~= s.subrange(0, k));
        lemma_scan_prefix_fault(s.drop_last(), k);
    } else {
        assert(s.subrange(0, k) =~= s);
    }
}

/// Reads a number written in decimal.
pub fn from_decimal(s: &str) -> (r: Result<u64, NumberFault>)
    ensures
        r == parse_decimal(s@),
{
    let mut value: u64 = 0;
    let mut any = false;
    let mut signed = false;
    let mut any_digit = false;
    let ghost mut digits: Seq<char> = Seq::empty();
    for c in it: s.chars()
        invariant
            it.seq() == s@,
            any <==> it.index() > 0,
            signed ==> it.index() >= 1 && s@[0] == '+',
            !signed && any ==> is_digit(s@[0]),
            any_digit <==> it.index() > (if signed { 1int } else { 0int }),
            digits == s@.subrange(if signed { 1int } else { 0int }, it.index() as int),
            scan_digits(digits) == Ok::<nat, NumberFault>(value as nat),
    {
        let ghost k = it.index() as int;
        assert(c == s@[k]);
        if !any && c == '+' {
            any = true;
            signed = true;
            proof {
                assert(s@.subrange(1, 1) =~= digits);
            }
        } else {
            let ghost off = if signed { 1int } else { 0int };
            let ghost whole = s@.subrange(off, s@.len() as int);
            proof {
                digits = digits.push(c);
                assert(digits =~= s@.subrange(off, k + 1));
                assert(digits.drop_last() =~= s@.subrange(off, k));
                assert(whole.subrange(0, k + 1 - off) =~= digits);
                if !signed {
                    assert(whole =~= s@);
                }
            }
            any = true;
            any_digit = true;
            if !('0' <= c && c <= '9') {
                proof {
                    lemma_scan_prefix_fault(whole, k + 1 - off);
                }
                return Err(NumberFault::InvalidDigit);
            }
            let d = (c as u32 - '0' as u32) as u64;
            if value > (u64::MAX - d) / 10 {
                proof {
                    lemma_scan_prefix_fault(whole, k + 1 - off);
                }
                return Err(NumberFault::Overflow);
            }
            value = value * 10 + d;
        }
    }
    proof {
        if signed {
            assert(digits =~= s@.subrange(1, s@.len() as int));
        } else {
            assert(digits =~= s@);
        }
    }
    if !any {
        Err(NumberFault::Empty)
    } else if signed && !any_digit {
        Err(NumberFault::InvalidDigit)
    } else {
        Ok(value)
    }
}

} // verus!
