//! Building text a character at a time: decimal numerals and the
//! conversion of a character buffer into a `String`.

use vstd::prelude::*;

verus! {

/// The ASCII digit for `d` (`d` in `0..=9`).
pub open spec fn digit_char(d: nat) -> char {
    (48 + d) as char
}

/// The decimal numeral of `n`, without sign or leading zeros.
pub open spec fn decimal(n: nat) -> Seq<char>
    decreases n,
{
    if n < 10 {
        seq![digit_char(n)]
    } else {
        decimal(n / 10).push(digit_char(n % 10))
    }
}

/// Appends the characters of `s` to `out`.
pub(crate) fn push_chars(out: &mut Vec<char>, s: &[char])
    ensures
        final(out)@ == old(out)@ + s@,
{
    let n = s.len();
    for i in 0..n
        invariant
            n == s@.len(),
            out@ == old(out)@ + s@.take(i as int),
    {
        out.push(s[i]);
        assert(s@.take(i + 1) =~= s@.take(i as int).push(s@[i as int]));
    }
    assert(s@.take(n as int) =~= s@);
}

/// Appends the decimal numeral of `n` to `out`.
pub(crate) fn push_decimal(out: &mut Vec<char>, n: usize)
    ensures
        final(out)@ == old(out)@ + decimal(n as nat),
    decreases n,
{
    if n >= 10 {
        push_decimal(out, n / 10);
    }
    let d = (n % 10) as u8;
    out.push((48u8 + d) as char);
    proof {
        assert(((48u8 + d) as char) == digit_char((n % 10) as nat));
        if n >= 10 {
            assert(decimal(n as nat) == decimal((n / 10) as nat).push(digit_char((n % 10) as nat)));
        }
    }
}

/// Appends the characters of the string `s` to `out`.
pub(crate) fn push_str(out: &mut Vec<char>, s: &str)
    ensures
        final(out)@ == old(out)@ + s@,
{
    for c in it: s.chars()
        invariant
            it.seq() == s@,
            out@ == old(out)@ + it.seq().take(it.index() as int),
    {
        out.push(c);
        assert(it.seq().take(it.index() + 1) =~= it.seq().take(it.index() as int).push(c));
    }
    assert(s@.take(s@.len() as int) =~= s@);
}

/// `String::from(char)`: trusted to give the one-character string
/// holding exactly `c`.
#[verifier::external_body]
pub(crate) fn string_of_char(c: char) -> (s: String)
    ensures
        s@ == seq![c],
{
    String::from(c)
}

/// `String::from_iter` over the characters of `chars`: trusted to give
/// the string holding exactly those characters, in order.
#[verifier::external_body]
pub(crate) fn string_from_chars(chars: &Vec<char>) -> (s: String)
    ensures
        s@ == chars@,
{
    String::from_iter(chars.iter())
}

/// Whether the text of `s` is exactly `lit`.
pub(crate) fn str_equals(s: &str, lit: &[char]) -> (r: bool)
    ensures
        r == (s@ == lit@),
{
    let mut k: usize = 0;
    let n = lit.len();
    for c in it: s.chars()
        invariant
            it.seq() == s@,
            n == lit@.len(),
            k == it.index(),
            k <= n,
            it.seq().take(k as int) == lit@.take(k as int),
    {
        if k >= n || c != lit[k] {
            proof {
                if k < n {
                    assert(s@[k as int] != lit@[k as int]);
                } else {
                    assert(s@.len() > lit@.len());
                }
            }
            return false;
        }
        k += 1;
        proof {
            assert(it.seq().take(k as int) =~= lit@.take(k as int)) by {
                assert forall|j: int| 0 <= j < k implies it.seq().take(k as int)[j] == lit@.take(
                    k as int,
                )[j] by {
                    if j < k - 1 {
                        assert(it.seq().take(k - 1)[j] == lit@.take(k - 1)[j]);
                    }
                }
            }
        }
    }
    if k < n {
        return false;
    }
    assert(s@ =~= s@.take(k as int));
    assert(lit@ =~= lit@.take(k as int));
    true
}

} // verus!
