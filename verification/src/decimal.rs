//! Decimal text of `usize` values, written and read back.
use vstd::prelude::*;

verus! {

/// Why a decimal number could not be read (the kinds that `usize::from_str`
/// distinguishes).
#[derive(Debug, PartialEq, Eq, Structural, Clone, Copy)]
pub enum DigitError {
    /// There was no text at all.
    Empty,
    /// A byte is not a decimal digit (or the text is a lone sign).
    InvalidDigit,
    /// The value does not fit in a `usize`.
    PosOverflow,
}

/// Whether `b` is an ASCII decimal digit.
pub open spec fn is_digit(b: u8) -> bool {
    48 <= b <= 57
}

/// The value of the digits `d`, read from left to right; the first byte that
/// is not a digit, or the first digit that takes the value past
/// `usize::MAX`, decides the error.
pub open spec fn digits_value(d: Seq<u8>) -> Result<nat, DigitError>
    decreases d.len(),
{
    if d.len() == 0 {
        Ok(0)
    } else {
        match digits_value(d.drop_last()) {
            Err(e) => Err(e),
            Ok(v) => if !is_digit(d.last()) {
                Err(DigitError::InvalidDigit)
            } else if v * 10 + (d.last() - 48) > usize::MAX {
                Err(DigitError::PosOverflow)
            } else {
                Ok((v * 10 + (d.last() - 48)) as nat)
            },
        }
    }
}

/// What `usize::from_str` makes of the text `s`: an optional leading `+`
/// followed by at least one decimal digit.
pub open spec fn parsed_usize(s: Seq<u8>) -> Result<nat, DigitError> {
    if s.len() == 0 {
        Err(DigitError::Empty)
    } else if s.len() == 1 && (s[0] == 43 || s[0] == 45) {
        Err(DigitError::InvalidDigit)
    } else if s[0] == 43 {
        digits_value(s.drop_first())
    } else {
        digits_value(s)
    }
}

/// The decimal digits of `n`, without sign or leading zeros.
pub open spec fn decimal(n: nat) -> Seq<u8>
    decreases n,
{
    if n < 10 {
        seq![(48 + n) as u8]
    } else {
        decimal(n / 10).push((48 + n % 10) as u8)
    }
}

/// Reads the decimal number in `s[lo..hi]`, as `usize::from_str` does.
pub fn parse_usize(s: &Vec<u8>, lo: usize, hi: usize) -> (r: Result<usize, DigitError>)
    requires
        lo <= hi <= s@.len(),
    ensures
        match parsed_usize(s@.subrange(lo as int, hi as int)) {
            Ok(v) => r == Ok::<usize, DigitError>(v as usize),
            Err(e) => r == Err::<usize, DigitError>(e),
        },
{
    let ghost text = s@.subrange(lo as int, hi as int);
    if lo == hi {
        return Err(DigitError::Empty);
    }
    if hi - lo == 1 && (s[lo] == 43 || s[lo] == 45) {
        return Err(DigitError::InvalidDigit);
    }
    let start = if s[lo] == 43 {
        lo + 1
    } else {
        lo
    };
    let ghost digits = s@.subrange(start as int, hi as int);
    assert(parsed_usize(text) == digits_value(digits)) by {
        if s[lo as int] == 43 {
            assert(text.drop_first() =~= digits);
        } else {
            assert(text =~= digits);
        }
    }
    let mut value: usize = 0;
    let mut i = start;
    while i < hi
        invariant
            start <= i <= hi <= s@.len(),
            digits == s@.subrange(start as int, hi as int),
            parsed_usize(text) == digits_value(digits),
            text == s@.subrange(lo as int, hi as int),
            digits_value(s@.subrange(start as int, i as int)) == Ok::<nat, DigitError>(
                value as nat,
            ),
        decreases hi - i,
    {
        let ghost prefix = s@.subrange(start as int, i as int);
        let ghost next = s@.subrange(start as int, i + 1);
        assert(next.drop_last() =~= prefix);
        let b = s[i];
        if b < 48 || b > 57 {
            proof {
                assert(digits_value(next) == Err::<nat, DigitError>(DigitError::InvalidDigit));
                assert(digits.take((i + 1 - start) as int) =~= next);
                lemma_digits_error_extends(digits, (i + 1 - start) as int);
            }
            return Err(DigitError::InvalidDigit);
        }
        let scaled = value.checked_mul(10);
        match scaled {
            None => {
                proof {
                    assert(value * 10 + (b - 48) > usize::MAX);
                    assert(digits_value(next) == Err::<nat, DigitError>(DigitError::PosOverflow));
                    assert(digits.take((i + 1 - start) as int) =~= next);
                    lemma_digits_error_extends(digits, (i + 1 - start) as int);
                }
                return Err(DigitError::PosOverflow);
            },
            Some(m) => {
                let sum = m.checked_add((b - 48) as usize);
                match sum {
                    None => {
                        proof {
                            assert(digits_value(next) == Err::<nat, DigitError>(DigitError::PosOverflow));
                            assert(digits.take((i + 1 - start) as int) =~= next);
                            lemma_digits_error_extends(digits, (i + 1 - start) as int);
                        }
                        return Err(DigitError::PosOverflow);
                    },
                    Some(v) => {
                        assert(digits_value(next) == Ok::<nat, DigitError>(v as nat));
                        value = v;
                    },
                }
            },
        }
        i = i + 1;
    }
    assert(s@.subrange(start as int, hi as int) =~= digits);
    Ok(value)
}

/// Once a prefix of the digits fails, the whole text fails the same way.
proof fn lemma_digits_error_extends(d: Seq<u8>, k: int)
    requires
        0 <= k <= d.len(),
        digits_value(d.take(k)) is Err,
    ensures
        digits_value(d) == digits_value(d.take(k)),
    decreases d.len() - k,
{
    if k < d.len() {
        assert(d.take(k + 1).drop_last() =~= d.take(k));
        lemma_digits_error_extends(d, k + 1);
    } else {
        assert(d.take(k) =~= d);
    }
}

/// Appends the decimal digits of `n` to `out`.
pub fn push_decimal(out: &mut Vec<u8>, n: usize)
    ensures
        final(out)@ == old(out)@ + decimal(n as nat),
    decreases n,
{
    if n >= 10 {
        push_decimal(out, n / 10);
    }
    out.push((48 + n % 10) as u8);
    proof {
        if n >= 10 {
            assert(old(out)@ + decimal(n as nat) =~= old(out)@ + decimal((n / 10) as nat) + seq![
                (48 + n % 10) as u8,
            ]);
        }
    }
}

/// The decimal digits of a number are nonempty digits and read back as the
/// number.
pub proof fn lemma_decimal_reads_back(n: nat)
    requires
        n <= usize::MAX,
    ensures
        decimal(n).len() >= 1,
        forall|i: int| 0 <= i < decimal(n).len() ==> is_digit(#[trigger] decimal(n)[i]),
        digits_value(decimal(n)) == Ok::<nat, DigitError>(n),
        parsed_usize(decimal(n)) == Ok::<nat, DigitError>(n),
    decreases n,
{
    if n >= 10 {
        lemma_decimal_reads_back(n / 10);
        let d = decimal(n);
        assert(d.drop_last() =~= decimal(n / 10));
        assert((n / 10) * 10 + n % 10 == n);
        assert(d.last() == (48 + n % 10) as u8);
        assert(d.last() - 48 == n % 10);
        assert(digits_value(d) == Ok::<nat, DigitError>(n));
        assert(d[0] == decimal(n / 10)[0]);
    } else {
        let d = decimal(n);
        assert(d.drop_last() =~= Seq::<u8>::empty());
        assert(digits_value(d.drop_last()) == Ok::<nat, DigitError>(0));
        assert(d.last() - 48 == n);
    }
}

} // verus!
