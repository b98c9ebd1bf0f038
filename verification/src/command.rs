//! The contract with a command line: reading the depth argument, choosing
//! the mode from the decrypt flag, and wording the line that reports the
//! outcome.

use vstd::prelude::*;
use vstd::string::StringExecFns;
use crate::cipher::{rail_fence_cipher, transform_spec, CipherError, CipherMode};
use crate::text::chars_of;

verus! {

/// Whether `c` is one of the decimal digits `0` to `9`.
pub open spec fn is_digit(c: char) -> bool {
    '0' as int <= c as int <= '9' as int
}

/// The number that a decimal digit stands for.
pub open spec fn digit_value(c: char) -> nat {
    (c as int - '0' as int) as nat
}

/// The number that a run of decimal digits stands for.
pub open spec fn decimal_value(digits: Seq<char>) -> nat
    decreases digits.len(),
{
    if digits.len() == 0 {
        0
    } else {
        10 * decimal_value(digits.drop_last()) + digit_value(digits.last())
    }
}

/// Whether every character of `digits` is a decimal digit.
pub open spec fn all_digits(digits: Seq<char>) -> bool {
    forall|i: int| 0 <= i < digits.len() ==> is_digit(#[trigger] digits[i])
}

/// The argument without the plus sign that may lead it.
pub open spec fn unsigned_part(text: Seq<char>) -> Seq<char> {
    if text.len() > 0 && text[0] == '+' {
        text.drop_first()
    } else {
        text
    }
}

/// The depth that an argument names: one or more decimal digits, after an
/// optional plus sign, whose value fits the machine's word. Anything else
/// names no depth.
pub open spec fn depth_spec(text: Seq<char>) -> Option<nat> {
    let digits = unsigned_part(text);
    if digits.len() > 0 && all_digits(digits) && decimal_value(digits) <= usize::MAX {
        Some(decimal_value(digits))
    } else {
        None
    }
}

/// The words that introduce the outcome of a transform.
pub open spec fn label_spec(mode: CipherMode) -> Seq<char> {
    match mode {
        CipherMode::Encrypt => "Encrypted Text: "@,
        CipherMode::Decrypt => "Decrypted Text: "@,
    }
}

/// What [`run`] returns: the labelled outcome, or the reason there is none.
pub open spec fn run_spec(depth: Seq<char>, input: Seq<char>, decrypt: bool) -> Result<
    Seq<char>,
    CipherError,
> {
    let mode = if decrypt {
        CipherMode::Decrypt
    } else {
        CipherMode::Encrypt
    };
    match depth_spec(depth) {
        None => Err(CipherError::ParameterFormat),
        Some(rails) => match transform_spec(input, rails, mode) {
            Ok(moved) => Ok(label_spec(mode) + moved),
            Err(e) => Err(e),
        },
    }
}

/// A run of digits stands for at least as much as any of its beginnings.
pub proof fn lemma_decimal_value_grows(digits: Seq<char>, k: int)
    requires
        0 <= k <= digits.len(),
    ensures
        decimal_value(digits.take(k)) <= decimal_value(digits),
    decreases digits.len(),
{
    if k < digits.len() {
        lemma_decimal_value_grows(digits.drop_last(), k);
        assert(digits.drop_last().take(k) =~= digits.take(k));
    } else {
        assert(digits.take(k) =~= digits);
    }
}

/// Reads the depth argument.
pub fn parse_depth(text: &str) -> (res: Result<usize, CipherError>)
    ensures
        res is Ok <==> depth_spec(text@) is Some,
        res matches Ok(depth) ==> depth_spec(text@) == Some(depth as nat),
        res matches Err(e) ==> e == CipherError::ParameterFormat,
{
    let chars = chars_of(text);
    let n: usize = chars.len();
    let first: usize = if n > 0 && chars[0] == '+' { 1 } else { 0 };
    let ghost digits = unsigned_part(text@);
    assert(digits =~= chars@.subrange(first as int, n as int));
    if first == n {
        return Err(CipherError::ParameterFormat);
    }
    let mut value: usize = 0;
    let mut i: usize = first;
    while i < n
        invariant
            first <= i <= n,
            n == chars@.len(),
            digits == chars@.subrange(first as int, n as int),
            digits == unsigned_part(text@),
            all_digits(digits.take(i - first)),
            value as nat == decimal_value(digits.take(i - first)),
        decreases n - i,
    {
        let c: char = chars[i];
        assert(digits[i - first] == c);
        if c < '0' || c > '9' {
            return Err(CipherError::ParameterFormat);
        }
        let digit: usize = (c as u8 - '0' as u8) as usize;
        assert(digit as nat == digit_value(c));
        proof {
            assert forall|j: int| 0 <= j < i - first + 1 implies is_digit(
                #[trigger] digits.take(i - first + 1)[j],
            ) by {
                if j < i - first {
                    assert(digits.take(i - first + 1)[j] == digits.take(i - first)[j]);
                }
            }
            let longer = digits.take(i - first + 1);
            assert(longer.drop_last() =~= digits.take(i - first));
            assert(longer.last() == c);
            assert(decimal_value(longer) == 10 * value + digit);
            lemma_decimal_value_grows(digits, i - first + 1);
        }
        if value > (usize::MAX - digit) / 10 {
            return Err(CipherError::ParameterFormat);
        }
        value = value * 10 + digit;
        i += 1;
    }
    assert(digits.take(n - first) =~= digits);
    Ok(value)
}

/// The mode that the decrypt flag selects: encoding unless it is set.
pub fn mode_for(decrypt: bool) -> (mode: CipherMode)
    ensures
        mode == if decrypt {
            CipherMode::Decrypt
        } else {
            CipherMode::Encrypt
        },
{
    if decrypt {
        CipherMode::Decrypt
    } else {
        CipherMode::Encrypt
    }
}

/// The line that reports `outcome` as the result of a transform in `mode`.
pub fn report(mode: CipherMode, outcome: &str) -> (line: String)
    ensures
        line@ == label_spec(mode) + outcome@,
{
    let label = match mode {
        CipherMode::Encrypt => "Encrypted Text: ",
        CipherMode::Decrypt => "Decrypted Text: ",
    };
    let mut line = String::from_str(label);
    line.append(outcome);
    line
}

/// Carries out one request: reads the depth, transforms `input` in the mode
/// the flag selects, and words the report.
pub fn run(depth: &str, input: &str, decrypt: bool) -> (res: Result<String, CipherError>)
    ensures
        res is Ok <==> run_spec(depth@, input@, decrypt) is Ok,
        res matches Ok(line) ==> run_spec(depth@, input@, decrypt) == Ok::<
            Seq<char>,
            CipherError,
        >(line@),
        res matches Err(e) ==> run_spec(depth@, input@, decrypt) == Err::<
            Seq<char>,
            CipherError,
        >(e),
{
    let mode = mode_for(decrypt);
    match parse_depth(depth) {
        Err(e) => Err(e),
        Ok(rails) => match rail_fence_cipher(input, rails, mode) {
            Ok(moved) => Ok(report(mode, moved.as_str())),
            Err(e) => Err(e),
        },
    }
}

} // verus!
