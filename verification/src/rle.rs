//! Run-length compression of sixel data: a run of four or more equal
//! characters is written `!<count><char>`, shorter runs literally.

use vstd::prelude::*;
use crate::text::{decimal, digit_char, push_chars, push_decimal};

verus! {

/// Number of leading characters of `s` equal to `c`.
pub open spec fn run_len(s: Seq<char>, c: char) -> nat
    decreases s.len(),
{
    if s.len() > 0 && s[0] == c {
        1 + run_len(s.drop_first(), c)
    } else {
        0
    }
}

/// The text of a run of `count` copies of `ch`.
pub open spec fn run_text(ch: char, count: nat) -> Seq<char> {
    if count >= 4 {
        seq!['!'] + decimal(count) + seq![ch]
    } else {
        Seq::new(count, |_i: int| ch)
    }
}

/// Run-length compression of `s`: each maximal run of equal characters,
/// left to right, as its run text.
pub open spec fn rle(s: Seq<char>) -> Seq<char>
    decreases s.len(),
    via rle_decreases
{
    if s.len() == 0 {
        Seq::empty()
    } else {
        let n = run_len(s, s[0]);
        run_text(s[0], n) + rle(s.skip(n as int))
    }
}

#[via_fn]
proof fn rle_decreases(s: Seq<char>) {
    if s.len() > 0 {
        lemma_run_len_bounds(s, s[0]);
    }
}

pub proof fn lemma_run_len_bounds(s: Seq<char>, c: char)
    ensures
        run_len(s, c) <= s.len(),
        s.len() > 0 && s[0] == c ==> run_len(s, c) >= 1,
    decreases s.len(),
{
    if s.len() > 0 && s[0] == c {
        lemma_run_len_bounds(s.drop_first(), c);
    }
}

/// A stretch of `k` copies of `c` that ends the sequence or is followed
/// by another character is exactly the leading run.
pub proof fn lemma_run_len_exact(s: Seq<char>, c: char, k: nat)
    requires
        k <= s.len(),
        forall|j: int| 0 <= j < k ==> s[j] == c,
        k == s.len() || s[k as int] != c,
    ensures
        run_len(s, c) == k,
    decreases k,
{
    if k > 0 {
        let t = s.drop_first();
        assert forall|j: int| 0 <= j < k - 1 implies t[j] == c by {
            assert(s[j + 1] == c);
        }
        if (k as int) < s.len() {
            assert(t[k - 1] == s[k as int]);
        }
        lemma_run_len_exact(t, c, (k - 1) as nat);
    } else {
        if s.len() > 0 {
            assert(s[0] != c);
        }
    }
}

/// Appends the run text of `count` copies of `ch`.
pub fn push_run(out: &mut Vec<char>, ch: char, count: usize)
    ensures
        final(out)@ == old(out)@ + run_text(ch, count as nat),
{
    if count >= 4 {
        let bang: [char; 1] = ['!'];
        push_chars(out, &bang);
        push_decimal(out, count);
        out.push(ch);
        assert(bang@ =~= seq!['!']);
        assert(out@ =~= old(out)@ + run_text(ch, count as nat));
        return;
    }
    for i in 0..count
        invariant
            count < 4,
            out@ == old(out)@ + Seq::new(i as nat, |_j: int| ch),
    {
        out.push(ch);
        assert(Seq::new((i + 1) as nat, |_j: int| ch) =~= Seq::new(i as nat, |_j: int| ch).push(ch));
    }
}

/// Appends the run-length compression of `chars`.
pub fn push_rle(out: &mut Vec<char>, chars: &[char])
    ensures
        final(out)@ == old(out)@ + rle(chars@),
{
    let n = chars.len();
    if n == 0 {
        assert(rle(chars@) =~= Seq::<char>::empty());
        assert(out@ =~= old(out)@ + rle(chars@));
        return;
    }
    let mut current = chars[0];
    let mut count: usize = 1;
    let ghost mut start: int = 0;
    assert(chars@.skip(0) =~= chars@);
    for i in 1..n
        invariant
            n == chars@.len(),
            0 <= start < i <= n,
            count == i - start,
            current == chars@[start],
            forall|j: int| start <= j < i ==> chars@[j] == current,
            old(out)@ + rle(chars@) == out@ + rle(chars@.skip(start)),
    {
        let ch = chars[i];
        if ch == current {
            count += 1;
        } else {
            proof {
                let rest = chars@.skip(start);
                assert forall|j: int| 0 <= j < count implies rest[j] == current by {
                    assert(rest[j] == chars@[start + j]);
                }
                assert(rest[count as int] == chars@[i as int]);
                lemma_run_len_exact(rest, current, count as nat);
                assert(rest.skip(count as int) =~= chars@.skip(i as int));
                assert(rle(rest) == run_text(current, count as nat) + rle(chars@.skip(i as int)));
            }
            push_run(out, current, count);
            proof {
                assert(old(out)@ + rle(chars@) =~= out@ + rle(chars@.skip(i as int)));
                start = i as int;
            }
            current = ch;
            count = 1;
        }
    }
    proof {
        let rest = chars@.skip(start);
        assert forall|j: int| 0 <= j < count implies rest[j] == current by {
            assert(rest[j] == chars@[start + j]);
        }
        lemma_run_len_exact(rest, current, count as nat);
        assert(rest.skip(count as int) =~= Seq::<char>::empty());
        assert(rle(rest.skip(count as int)) =~= Seq::<char>::empty());
        assert(rle(rest) =~= run_text(current, count as nat));
    }
    push_run(out, current, count);
    assert(old(out)@ + rle(chars@) =~= out@);
}


/// An ASCII decimal digit.
pub open spec fn is_digit(c: char) -> bool {
    '0' <= c && c <= '9'
}

/// A character that may be run-length compressed: neither the repeat
/// marker `!` nor a digit. All sixel data characters (`?` to `~`) are.
pub open spec fn is_plain(c: char) -> bool {
    c != '!' && !is_digit(c)
}

/// Number of leading digits of `s`.
pub open spec fn digit_prefix_len(s: Seq<char>) -> nat
    decreases s.len(),
{
    if s.len() > 0 && is_digit(s[0]) {
        1 + digit_prefix_len(s.drop_first())
    } else {
        0
    }
}

/// The number written by the digit string `s`.
pub open spec fn digits_value(s: Seq<char>) -> nat
    decreases s.len(),
{
    if s.len() == 0 {
        0
    } else {
        digits_value(s.drop_last()) * 10 + ((s.last() as int) - 48) as nat
    }
}

/// Expansion of run-length compressed text: `!<count><char>` stands for
/// `count` copies of `char`, any other character for itself.
pub open spec fn expand_runs(t: Seq<char>) -> Seq<char>
    decreases t.len(),
    via expand_runs_decreases
{
    if t.len() == 0 {
        Seq::empty()
    } else if t[0] == '!' {
        let k = digit_prefix_len(t.drop_first()) as int;
        if 1 + k < t.len() {
            let n = digits_value(t.subrange(1, 1 + k));
            Seq::new(n, |_i: int| t[1 + k]) + expand_runs(t.skip(2 + k))
        } else {
            Seq::empty()
        }
    } else {
        seq![t[0]] + expand_runs(t.drop_first())
    }
}

#[via_fn]
proof fn expand_runs_decreases(t: Seq<char>) {
    if t.len() > 0 && t[0] == '!' {
        lemma_digit_prefix_len_bound(t.drop_first());
    }
}

pub(crate) proof fn lemma_digit_prefix_len_bound(s: Seq<char>)
    ensures
        digit_prefix_len(s) <= s.len(),
    decreases s.len(),
{
    if s.len() > 0 && is_digit(s[0]) {
        lemma_digit_prefix_len_bound(s.drop_first());
    }
}

/// The decimal numeral of `n` is one or more digits that read back as
/// `n`.
pub proof fn lemma_decimal_digits(n: nat)
    ensures
        decimal(n).len() >= 1,
        forall|j: int| 0 <= j < decimal(n).len() ==> is_digit(#[trigger] decimal(n)[j]),
        digits_value(decimal(n)) == n,
    decreases n,
{
    if n < 10 {
        assert(decimal(n) == seq![digit_char(n)]);
        assert(digit_char(n) as int == 48 + n);
        assert(decimal(n).drop_last() =~= Seq::<char>::empty());
        assert(digits_value(decimal(n)) == digits_value(Seq::<char>::empty()) * 10 + n);
    } else {
        lemma_decimal_digits(n / 10);
        let d = decimal(n);
        assert(d == decimal(n / 10).push(digit_char(n % 10)));
        assert(digit_char(n % 10) as int == 48 + n % 10);
        assert(d.drop_last() =~= decimal(n / 10));
        assert(d.last() == digit_char(n % 10));
        assert(digits_value(d) == digits_value(decimal(n / 10)) * 10 + n % 10);
        assert((n / 10) * 10 + n % 10 == n);
    }
}

pub(crate) proof fn lemma_digit_prefix_of_digits(d: Seq<char>, u: Seq<char>)
    requires
        forall|j: int| 0 <= j < d.len() ==> is_digit(#[trigger] d[j]),
        u.len() > 0,
        !is_digit(u[0]),
    ensures
        digit_prefix_len(d + u) == d.len(),
    decreases d.len(),
{
    if d.len() == 0 {
        assert(d + u =~= u);
    } else {
        assert((d + u).drop_first() =~= d.drop_first() + u);
        assert forall|j: int| 0 <= j < d.drop_first().len() implies is_digit(
            #[trigger] d.drop_first()[j],
        ) by {
            assert(d.drop_first()[j] == d[j + 1]);
        }
        lemma_digit_prefix_of_digits(d.drop_first(), u);
    }
}

proof fn lemma_expand_literal_run(c: char, n: nat, rest: Seq<char>)
    requires
        is_plain(c),
    ensures
        expand_runs(Seq::new(n, |_i: int| c) + rest) == Seq::new(n, |_i: int| c) + expand_runs(rest),
    decreases n,
{
    let t = Seq::new(n, |_i: int| c) + rest;
    if n > 0 {
        let shorter = Seq::new((n - 1) as nat, |_i: int| c);
        assert(t.drop_first() =~= shorter + rest);
        lemma_expand_literal_run(c, (n - 1) as nat, rest);
        assert(Seq::new(n, |_i: int| c) =~= seq![c] + shorter);
    } else {
        assert(t =~= rest);
    }
}

proof fn lemma_expand_run_text(c: char, n: nat, rest: Seq<char>)
    requires
        is_plain(c),
    ensures
        expand_runs(run_text(c, n) + rest) == Seq::new(n, |_i: int| c) + expand_runs(rest),
{
    if n >= 4 {
        let d = decimal(n);
        let t = run_text(c, n) + rest;
        lemma_decimal_digits(n);
        assert(t =~= seq!['!'] + (d + (seq![c] + rest)));
        assert(t.drop_first() =~= d + (seq![c] + rest));
        lemma_digit_prefix_of_digits(d, seq![c] + rest);
        let k = d.len();
        assert(t.subrange(1, 1 + k as int) =~= d);
        assert(t[1 + k as int] == c);
        assert(t.skip(2 + k as int) =~= rest);
    } else {
        lemma_expand_literal_run(c, n, rest);
    }
}

/// The leading run of `s` consists of copies of its first character.
pub(crate) proof fn lemma_run_is_uniform(s: Seq<char>, c: char)
    ensures
        forall|j: int| 0 <= j < run_len(s, c) ==> s[j] == c,
    decreases s.len(),
{
    if s.len() > 0 && s[0] == c {
        lemma_run_is_uniform(s.drop_first(), c);
        lemma_run_len_bounds(s.drop_first(), c);
        assert forall|j: int| 0 <= j < run_len(s, c) implies s[j] == c by {
            if j > 0 {
                assert(s[j] == s.drop_first()[j - 1]);
            }
        }
    }
}

/// Run-length compression loses nothing: expanding the runs of the
/// compressed text gives back the input characters, provided none of
/// them is the repeat marker or a digit (as no sixel data character is).
pub proof fn lemma_rle_round_trip(s: Seq<char>)
    requires
        forall|j: int| 0 <= j < s.len() ==> is_plain(#[trigger] s[j]),
    ensures
        expand_runs(rle(s)) == s,
    decreases s.len(),
{
    if s.len() > 0 {
        let c = s[0];
        let n = run_len(s, c);
        lemma_run_len_bounds(s, c);
        lemma_run_is_uniform(s, c);
        let rest = s.skip(n as int);
        assert forall|j: int| 0 <= j < rest.len() implies is_plain(#[trigger] rest[j]) by {
            assert(rest[j] == s[j + n]);
        }
        lemma_rle_round_trip(rest);
        lemma_expand_run_text(c, n, rle(rest));
        assert(s =~= Seq::new(n, |_i: int| c) + rest);
    } else {
        assert(rle(s) =~= Seq::<char>::empty());
        assert(s =~= Seq::<char>::empty());
    }
}

} // verus!
