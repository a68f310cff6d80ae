//! Verified helpers for building display strings: decimal notation of
//! numbers and the one trusted conversion from characters to `String`.

use vstd::prelude::*;

verus! {

/// The decimal digit character for `d` (meaningful for `0 <= d <= 9`).
pub open spec fn dec_digit(d: int) -> char {
    ((d + 48) as u8) as char
}

/// The decimal notation of a non-negative number, most significant digit
/// first.
pub open spec fn dec_chars(n: int) -> Seq<char>
    decreases n,
{
    if n < 10 {
        seq![dec_digit(n)]
    } else {
        dec_chars(n / 10) + seq![dec_digit(n % 10)]
    }
}

/// Appends the decimal digits of `n` to `out`.
pub fn push_dec(out: &mut Vec<char>, n: usize)
    ensures
        final(out)@ == old(out)@ + dec_chars(n as int),
    decreases n,
{
    if n >= 10 {
        push_dec(out, n / 10);
        let d = (n % 10) as u8 + 48;
        out.push(d as char);
        proof {
            assert(out@ =~= old(out)@ + dec_chars(n as int));
        }
    } else {
        let d = n as u8 + 48;
        out.push(d as char);
        proof {
            assert(out@ =~= old(out)@ + dec_chars(n as int));
        }
    }
}

/// Relies on `String`'s `FromIterator<char>` implementation, reached through
/// `Iterator::collect`: collecting characters yields the string made of
/// exactly those characters, in order.
#[verifier::external_body]
pub fn chars_to_string(v: &Vec<char>) -> (r: String)
    ensures
        r@ == v@,
{
    v.iter().collect()
}

/// The decimal notation of `n` as a string.
pub fn usize_string(n: usize) -> (r: String)
    ensures
        r@ == dec_chars(n as int),
{
    let mut v: Vec<char> = Vec::new();
    push_dec(&mut v, n);
    proof {
        assert(v@ =~= dec_chars(n as int));
    }
    chars_to_string(&v)
}

} // verus!
