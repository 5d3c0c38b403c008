//! Validation of positive integer values given as text.

use vstd::prelude::*;
use vstd::string::StrSliceExecFns;

verus! {

/// Whether `c` is an ASCII decimal digit.
pub open spec fn is_digit(c: char) -> bool {
    '0' <= c && c <= '9'
}

/// The numeric value of a digit character.
pub open spec fn digit_val(c: char) -> int {
    c as int - '0' as int
}

/// Whether `s` is a decimal numeral: one or more digits.
pub open spec fn is_numeral(s: Seq<char>) -> bool {
    s.len() >= 1 && forall|i: int| 0 <= i < s.len() ==> is_digit(#[trigger] s[i])
}

/// The value of a digit sequence read in base ten.
pub open spec fn numeral_val(s: Seq<char>) -> int
    decreases s.len(),
{
    if s.len() == 0 {
        0
    } else {
        numeral_val(s.drop_last()) * 10 + digit_val(s.last())
    }
}

/// The digits of `s`: everything after an optional leading plus sign.
pub open spec fn digits_of(s: Seq<char>) -> Seq<char> {
    if s.len() >= 1 && s[0] == '+' {
        s.skip(1)
    } else {
        s
    }
}

proof fn lemma_numeral_val_nonneg(s: Seq<char>)
    requires
        forall|m: int| 0 <= m < s.len() ==> is_digit(#[trigger] s[m]),
    ensures
        numeral_val(s) >= 0,
    decreases s.len(),
{
    if s.len() > 0 {
        lemma_numeral_val_nonneg(s.drop_last());
    }
}

proof fn lemma_numeral_val_prefix(s: Seq<char>, i: int)
    requires
        0 <= i <= s.len(),
        forall|m: int| 0 <= m < s.len() ==> is_digit(#[trigger] s[m]),
    ensures
        numeral_val(s) >= numeral_val(s.take(i)),
    decreases s.len() - i,
{
    if i == s.len() {
        assert(s.take(i) =~= s);
    } else {
        lemma_numeral_val_prefix(s, i + 1);
        assert(s.take(i + 1).drop_last() =~= s.take(i));
        assert(s.take(i + 1).last() == s[i]);
        assert forall|m: int| 0 <= m < s.take(i).len() implies is_digit(
            #[trigger] s.take(i)[m],
        ) by {
            assert(s.take(i)[m] == s[m]);
        }
        lemma_numeral_val_nonneg(s.take(i));
    }
}

/// Read a string as a positive integer, as command-line and configuration
/// values require: an optional leading plus sign followed by one or more
/// decimal digits, with a value between 1 and `u32::MAX`. Anything else is
/// rejected — a malformed or too-large numeral as not an integer, a zero
/// value as not positive.
pub fn positive_int(s: &str) -> (r: Result<u32, String>)
    ensures
        r is Ok <==> (is_numeral(digits_of(s@)) && 1 <= numeral_val(digits_of(s@)) <= u32::MAX),
        r matches Ok(v) ==> v as int == numeral_val(digits_of(s@)),
        is_numeral(digits_of(s@)) && numeral_val(digits_of(s@)) == 0 ==> (r matches Err(e) && e@
            == "must be > 0"@),
        !(is_numeral(digits_of(s@)) && numeral_val(digits_of(s@)) <= u32::MAX) ==> (r matches Err(e)
            && e@ == "must be a positive integer"@),
{
    let n = s.unicode_len();
    let start: usize = if n >= 1 && s.get_char(0) == '+' {
        1
    } else {
        0
    };
    let ghost digits = digits_of(s@);
    proof {
        assert(digits.len() == n - start);
        assert(forall|m: int| 0 <= m < digits.len() ==> digits[m] == s@[m + start]);
    }
    if n == start {
        return Err("must be a positive integer".to_owned());
    }
    let mut val: u64 = 0;
    let mut i: usize = start;
    while i < n
        invariant
            n == s@.len(),
            start <= i <= n,
            start + 1 <= n,
            start <= 1,
            digits == digits_of(s@),
            digits.len() == n - start,
            forall|m: int| 0 <= m < digits.len() ==> digits[m] == s@[m + start],
            forall|m: int| 0 <= m < i - start ==> is_digit(#[trigger] digits[m]),
            val <= u32::MAX,
            val as int == numeral_val(digits.take(i - start)),
        decreases n - i,
    {
        let c = s.get_char(i);
        let cu: u32 = c as u32;
        proof {
            assert(digits.take(i - start + 1).drop_last() =~= digits.take(i - start));
            assert(digits.take(i - start + 1).last() == digits[i - start]);
        }
        if cu < 48 || cu > 57 {
            proof {
                assert(!is_digit(digits[i - start]));
            }
            return Err("must be a positive integer".to_owned());
        }
        let d: u64 = (cu - 48) as u64;
        let next: u64 = val * 10 + d;
        if next > u32::MAX as u64 {
            proof {
                if is_numeral(digits) {
                    lemma_numeral_val_prefix(digits, i - start + 1);
                    lemma_numeral_val_nonneg(digits);
                    assert(numeral_val(digits) > u32::MAX);
                }
            }
            return Err("must be a positive integer".to_owned());
        }
        val = next;
        i = i + 1;
    }
    proof {
        assert(digits.take(n - start) =~= digits);
        assert(is_numeral(digits));
    }
    if val == 0 {
        Err("must be > 0".to_owned())
    } else {
        Ok(val as u32)
    }
}

} // verus!
