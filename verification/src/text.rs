//! Character and string helpers shared by the code generators.
//!
//! Unicode character classes and case mappings come from std; their results
//! are named by uninterpreted spec functions, since spelling out the Unicode
//! tables is neither possible nor useful here. Everything built on top of
//! them is verified against those names.

use vstd::prelude::*;
use vstd::string::StrSliceExecFns;

verus! {

/// What `char::is_uppercase` returns: the Unicode property `Uppercase`.
pub uninterp spec fn unicode_is_uppercase(c: char) -> bool;

/// What `char::is_lowercase` returns: the Unicode property `Lowercase`.
pub uninterp spec fn unicode_is_lowercase(c: char) -> bool;

/// What `char::is_numeric` returns: the Unicode property `Numeric`.
pub uninterp spec fn unicode_is_numeric(c: char) -> bool;

/// What `char::is_alphabetic` returns: the Unicode property `Alphabetic`.
pub uninterp spec fn unicode_is_alphabetic(c: char) -> bool;

/// What `char::to_uppercase` yields: the uppercase mapping of a character.
pub uninterp spec fn unicode_upper(c: char) -> Seq<char>;

/// What `char::to_lowercase` yields: the lowercase mapping of a character.
pub uninterp spec fn unicode_lower(c: char) -> Seq<char>;

/// Relies on char::is_uppercase: the Unicode property of the character alone.
pub assume_specification[ char::is_uppercase ](c: char) -> (r: bool)
    ensures
        r == unicode_is_uppercase(c),
;

/// Relies on char::is_lowercase: the Unicode property of the character alone.
pub assume_specification[ char::is_lowercase ](c: char) -> (r: bool)
    ensures
        r == unicode_is_lowercase(c),
;

/// Relies on char::is_numeric: the Unicode property of the character alone.
pub assume_specification[ char::is_numeric ](c: char) -> (r: bool)
    ensures
        r == unicode_is_numeric(c),
;

/// Relies on char::is_alphabetic: the Unicode property of the character alone.
pub assume_specification[ char::is_alphabetic ](c: char) -> (r: bool)
    ensures
        r == unicode_is_alphabetic(c),
;

/// Relies on char::to_uppercase: the mapping depends on the character alone
/// and yields one or more characters.
#[verifier::external_body]
pub fn char_to_uppercase(c: char) -> (r: Vec<char>)
    ensures
        r@ == unicode_upper(c),
        r@.len() >= 1,
{
    c.to_uppercase().collect()
}

/// Relies on char::to_lowercase: the mapping depends on the character alone
/// and yields one or more characters.
#[verifier::external_body]
pub fn char_to_lowercase(c: char) -> (r: Vec<char>)
    ensures
        r@ == unicode_lower(c),
        r@.len() >= 1,
{
    c.to_lowercase().collect()
}

/// Relies on String::from_iter over characters: it collects them in order.
#[verifier::external_body]
pub fn chars_to_string(chars: &Vec<char>) -> (r: String)
    ensures
        r@ == chars@,
{
    chars.iter().collect()
}

/// The characters of a string slice, in order.
pub fn str_to_chars(s: &str) -> (r: Vec<char>)
    ensures
        r@ == s@,
{
    let n = s.unicode_len();
    let mut out: Vec<char> = Vec::new();
    let mut i: usize = 0;
    while i < n
        invariant
            i <= n,
            n == s@.len(),
            out@ =~= s@.take(i as int),
        decreases n - i,
    {
        out.push(s.get_char(i));
        i = i + 1;
    }
    proof {
        assert(out@ =~= s@);
    }
    out
}

/// Whether two character vectors hold the same characters.
pub fn chars_eq(a: &Vec<char>, b: &Vec<char>) -> (r: bool)
    ensures
        r == (a@ == b@),
{
    if a.len() != b.len() {
        proof {
            assert(a@ != b@);
        }
        return false;
    }
    let mut i: usize = 0;
    while i < a.len()
        invariant
            i <= a@.len(),
            a@.len() == b@.len(),
            forall|j: int| 0 <= j < i ==> a@[j] == b@[j],
        decreases a@.len() - i,
    {
        if a[i] != b[i] {
            proof {
                assert(a@ != b@);
            }
            return false;
        }
        i = i + 1;
    }
    proof {
        assert(a@ =~= b@);
    }
    true
}

/// The decimal digit characters of `n`, most significant first.
pub open spec fn dec_str(n: nat) -> Seq<char>
    decreases n,
{
    if n < 10 {
        seq![dec_digit(n)]
    } else {
        dec_str(n / 10).push(dec_digit(n % 10))
    }
}

/// The character for one decimal digit.
pub open spec fn dec_digit(d: nat) -> char {
    if d == 0 {
        '0'
    } else if d == 1 {
        '1'
    } else if d == 2 {
        '2'
    } else if d == 3 {
        '3'
    } else if d == 4 {
        '4'
    } else if d == 5 {
        '5'
    } else if d == 6 {
        '6'
    } else if d == 7 {
        '7'
    } else if d == 8 {
        '8'
    } else {
        '9'
    }
}

/// Append the decimal digits of `n` to `out`.
pub fn push_decimal(n: u64, out: &mut Vec<char>) -> (r: ())
    requires
        old(out)@.len() + 20 <= usize::MAX,
    ensures
        final(out)@ == old(out)@ + dec_str(n as nat),
    decreases n,
{
    proof {
        lemma_pow10_20();
        lemma_dec_str_len(n as nat);
    }
    if n < 10 {
        out.push(digit_char(n));
        proof {
            assert(final(out)@ =~= old(out)@ + dec_str(n as nat));
        }
    } else {
        push_decimal(n / 10, out);
        out.push(digit_char(n % 10));
        proof {
            assert(final(out)@ =~= old(out)@ + dec_str(n as nat));
        }
    }
}

/// The decimal digits of `n`, ready for use as text.
pub fn decimal_chars(n: u64) -> (r: Vec<char>)
    ensures
        r@ == dec_str(n as nat),
{
    let mut out: Vec<char> = Vec::new();
    push_decimal(n, &mut out);
    proof {
        assert(out@ =~= dec_str(n as nat));
    }
    out
}

/// A decimal representation never exceeds twenty digits for a machine word.
pub proof fn lemma_dec_str_len(n: nat)
    requires
        n < pow10(20),
    ensures
        1 <= dec_str(n).len() <= 20,
{
    lemma_dec_str_le(n, 20);
}

/// A value below `pow10(d)` has at most `d` decimal digits.
proof fn lemma_dec_str_le(n: nat, d: nat)
    requires
        d >= 1,
        n < pow10(d),
    ensures
        dec_str(n).len() <= d,
    decreases d,
{
    if n >= 10 {
        assert(pow10(d) == 10 * pow10((d - 1) as nat));
        assert(n / 10 < pow10((d - 1) as nat)) by (nonlinear_arith)
            requires n < 10 * pow10((d - 1) as nat) && n >= 0;
        if d == 1 {
            assert(pow10(0) == 1);
            assert(false);
        }
        lemma_dec_str_le(n / 10, (d - 1) as nat);
    }
}

/// Powers of ten.
pub open spec fn pow10(k: nat) -> nat
    decreases k,
{
    if k == 0 {
        1
    } else {
        10 * pow10((k - 1) as nat)
    }
}

/// Twenty decimal digits cover every machine word.
proof fn lemma_pow10_20()
    ensures
        pow10(20) > u64::MAX,
{
    reveal_with_fuel(pow10, 21);
    assert(pow10(20) == 100000000000000000000);
}

/// The character of one decimal digit.
fn digit_char(d: u64) -> (r: char)
    requires
        d < 10,
    ensures
        r == dec_digit(d as nat),
{
    if d == 0 {
        '0'
    } else if d == 1 {
        '1'
    } else if d == 2 {
        '2'
    } else if d == 3 {
        '3'
    } else if d == 4 {
        '4'
    } else if d == 5 {
        '5'
    } else if d == 6 {
        '6'
    } else if d == 7 {
        '7'
    } else if d == 8 {
        '8'
    } else {
        '9'
    }
}

} // verus!
