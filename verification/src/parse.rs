//! Turning user-entered text into a recorded guess: the guessed digits are
//! validated symbol by symbol, and the reported outcome text is read as one
//! `p` per presence-only match and one `f` per positional match.

use vstd::prelude::*;
use vstd::string::StrSliceExecFns;
use crate::feedback::PbfStats;
use crate::solver::Guess;

verus! {

/// `true` exactly when `c` is a decimal digit symbol.
pub open spec fn is_digit_symbol(c: char) -> bool {
    48 <= c as u32 <= 57
}

/// Number of occurrences of `c` among the first `n` symbols of `s`.
pub open spec fn count_char(s: Seq<char>, c: char, n: int) -> int
    decreases n,
{
    if n <= 0 {
        0
    } else {
        count_char(s, c, n - 1) + if s[n - 1] == c {
            1int
        } else {
            0int
        }
    }
}

/// Reads a guess as the user typed it. Every symbol of `digits` must be a
/// decimal digit; the first symbol that is not one is returned as the error.
/// `results` is the outcome the guess received: each `p` counts one
/// presence-only match and each `f` one positional match, and any other
/// symbol in it is ignored.
pub fn parse_guess(digits: &str, results: &str) -> (r: Result<Guess, char>)
    requires
        results@.len() <= i32::MAX,
    ensures
        match r {
            Ok(g) => (forall|i: int|
                0 <= i < digits@.len() ==> is_digit_symbol(#[trigger] digits@[i])) && g.guess@
                == digits@ && g.result.p as int == count_char(
                results@,
                'p',
                results@.len() as int,
            ) && g.result.f as int == count_char(results@, 'f', results@.len() as int),
            Err(c) => !is_digit_symbol(c) && exists|i: int|
                0 <= i < digits@.len() && digits@[i] == c && (forall|j: int|
                    0 <= j < i ==> is_digit_symbol(#[trigger] digits@[j])),
        },
{
    let n = digits.unicode_len();
    let mut ds: Vec<char> = Vec::new();
    for i in 0..n
        invariant
            n == digits@.len(),
            ds@ == digits@.take(i as int),
            forall|j: int| 0 <= j < i ==> is_digit_symbol(#[trigger] digits@[j]),
        decreases n - i,
    {
        let c = digits.get_char(i);
        let u = c as u32;
        if u < 48 || u > 57 {
            return Err(c);
        }
        ds.push(c);
        proof {
            assert(digits@.take(i + 1) =~= digits@.take(i as int).push(digits@[i as int]));
        }
    }
    proof {
        assert(digits@.take(n as int) =~= digits@);
    }
    let m = results.unicode_len();
    let mut pc: usize = 0;
    let mut fc: usize = 0;
    for i in 0..m
        invariant
            m == results@.len(),
            m <= i32::MAX,
            pc <= i,
            fc <= i,
            pc as int == count_char(results@, 'p', i as int),
            fc as int == count_char(results@, 'f', i as int),
        decreases m - i,
    {
        let c = results.get_char(i);
        if c == 'p' {
            pc = pc + 1;
        }
        if c == 'f' {
            fc = fc + 1;
        }
    }
    Ok(Guess { guess: ds, result: PbfStats { p: pc as i32, f: fc as i32 } })
}

} // verus!
