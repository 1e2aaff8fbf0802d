//! Decimal digit rendering: canonical (unpadded) digit strings for the
//! artifact codec and fixed-width zero-padded fields for cache keys.

use vstd::prelude::*;
use vstd::string::StringExecFns;

verus! {

/// The character for one decimal digit.
pub open spec fn char_of_digit(d: int) -> char {
    if d == 0 {
        '0'
    } else if d == 1 {
        '1'
    } else if d == 2 {
        '2'
    } else if d == 3 {
        '3'
    } else if d == 4 {
        '4'
    } else if d == 5 {
        '5'
    } else if d == 6 {
        '6'
    } else if d == 7 {
        '7'
    } else if d == 8 {
        '8'
    } else {
        '9'
    }
}

/// The digit a character stands for, if any.
pub open spec fn digit_of(c: char) -> Option<int> {
    if c == '0' {
        Some(0int)
    } else if c == '1' {
        Some(1int)
    } else if c == '2' {
        Some(2int)
    } else if c == '3' {
        Some(3int)
    } else if c == '4' {
        Some(4int)
    } else if c == '5' {
        Some(5int)
    } else if c == '6' {
        Some(6int)
    } else if c == '7' {
        Some(7int)
    } else if c == '8' {
        Some(8int)
    } else if c == '9' {
        Some(9int)
    } else {
        None
    }
}

/// The canonical decimal rendering of `n`: no sign, no leading zero except
/// for `n == 0` itself.
pub open spec fn dec_digits(n: nat) -> Seq<char>
    decreases n,
{
    if n < 10 {
        seq![char_of_digit(n as int)]
    } else {
        dec_digits(n / 10) + seq![char_of_digit((n % 10) as int)]
    }
}

/// Two-digit zero-padded rendering of `n < 100`.
pub open spec fn two_digits(n: int) -> Seq<char> {
    seq![char_of_digit(n / 10), char_of_digit(n % 10)]
}

/// Four-digit zero-padded rendering of `n < 10000`.
pub open spec fn four_digits(n: int) -> Seq<char> {
    seq![
        char_of_digit(n / 1000),
        char_of_digit((n / 100) % 10),
        char_of_digit((n / 10) % 10),
        char_of_digit(n % 10),
    ]
}

/// Ten to the power `k`.
pub open spec fn pow10(k: nat) -> nat
    decreases k,
{
    if k == 0 {
        1
    } else {
        10 * pow10((k - 1) as nat)
    }
}

/// Every character of `ds` is a decimal digit.
pub open spec fn is_digit_seq(ds: Seq<char>) -> bool {
    forall|i: int| 0 <= i < ds.len() ==> (#[trigger] digit_of(ds[i])) is Some
}

/// The number a digit sequence denotes; non-digit characters count as zero.
pub open spec fn seq_val(ds: Seq<char>) -> nat
    decreases ds.len(),
{
    if ds.len() == 0 {
        0
    } else {
        seq_val(ds.drop_last()) * 10 + (match digit_of(ds.last()) {
            Some(d) => d as nat,
            None => 0,
        })
    }
}

/// The digit characters and their values correspond one to one.
pub proof fn lemma_digit_char_id(d: int, c: char)
    ensures
        0 <= d < 10 ==> digit_of(char_of_digit(d)) == Some(d),
        digit_of(c) is Some ==> char_of_digit(digit_of(c)->Some_0) == c,
        digit_of(c) is Some ==> 0 <= digit_of(c)->Some_0 < 10,
        0 <= d < 10 && d != 0 ==> char_of_digit(d) != '0',
{
}

/// The canonical digits of `n`: at least one digit, value `n`, and no
/// leading zero unless `n` itself is zero.
pub proof fn lemma_dec_digits_props(n: nat)
    ensures
        dec_digits(n).len() >= 1,
        is_digit_seq(dec_digits(n)),
        seq_val(dec_digits(n)) == n,
        n >= 1 ==> dec_digits(n)[0] != '0',
        n == 0 ==> dec_digits(n) =~= seq!['0'],
    decreases n,
{
    if n < 10 {
        lemma_digit_char_id(n as int, '0');
        let ds = dec_digits(n);
        assert(ds =~= seq![char_of_digit(n as int)]);
        assert(ds.last() == char_of_digit(n as int));
        assert(digit_of(ds.last()) == Some(n as int));
        assert(ds.drop_last() =~= Seq::<char>::empty());
        assert(seq_val(ds.drop_last()) == 0);
        assert(seq_val(ds) == n);
    } else {
        lemma_dec_digits_props(n / 10);
        lemma_digit_char_id((n % 10) as int, '0');
        let ds = dec_digits(n);
        assert(ds.drop_last() =~= dec_digits(n / 10));
        assert(ds.last() == char_of_digit((n % 10) as int));
        assert(seq_val(ds) == (n / 10) * 10 + n % 10);
    }
}

/// Prepending a digit multiplies its value by ten to the length of the rest.
pub proof fn lemma_seq_val_prepend(d: int, rest: Seq<char>)
    requires
        0 <= d < 10,
    ensures
        seq_val(seq![char_of_digit(d)] + rest) == d * pow10(rest.len()) + seq_val(rest),
    decreases rest.len(),
{
    let all = seq![char_of_digit(d)] + rest;
    if rest.len() == 0 {
        lemma_digit_char_id(d, '0');
        assert(all.drop_last() =~= Seq::<char>::empty());
        assert(seq_val(all.drop_last()) == 0);
        assert(all.last() == char_of_digit(d));
        assert(digit_of(all.last()) == Some(d));
        assert(pow10(rest.len()) == 1);
        assert(seq_val(rest) == 0);
        assert(d * 1 == d) by (nonlinear_arith);
        assert(seq_val(all) == d * pow10(rest.len()) + seq_val(rest));
    } else {
        lemma_seq_val_prepend(d, rest.drop_last());
        assert(all.drop_last() =~= seq![char_of_digit(d)] + rest.drop_last());
        assert(all.last() == rest.last());
        let k = (rest.len() - 1) as nat;
        assert(pow10(rest.len()) == 10 * pow10(k));
        assert((d * pow10(k) + seq_val(rest.drop_last())) * 10 == d * (10 * pow10(k)) + seq_val(
            rest.drop_last(),
        ) * 10) by (nonlinear_arith);
    }
}

/// The one-character string for a decimal digit.
fn digit_str(d: u64) -> (r: &'static str)
    requires
        d < 10,
    ensures
        r@ == seq![char_of_digit(d as int)],
{
    if d == 0 {
        proof {
            reveal_strlit("0");
            assert("0"@ =~= seq![char_of_digit(0)]);
        }
        "0"
    } else if d == 1 {
        proof {
            reveal_strlit("1");
            assert("1"@ =~= seq![char_of_digit(1)]);
        }
        "1"
    } else if d == 2 {
        proof {
            reveal_strlit("2");
            assert("2"@ =~= seq![char_of_digit(2)]);
        }
        "2"
    } else if d == 3 {
        proof {
            reveal_strlit("3");
            assert("3"@ =~= seq![char_of_digit(3)]);
        }
        "3"
    } else if d == 4 {
        proof {
            reveal_strlit("4");
            assert("4"@ =~= seq![char_of_digit(4)]);
        }
        "4"
    } else if d == 5 {
        proof {
            reveal_strlit("5");
            assert("5"@ =~= seq![char_of_digit(5)]);
        }
        "5"
    } else if d == 6 {
        proof {
            reveal_strlit("6");
            assert("6"@ =~= seq![char_of_digit(6)]);
        }
        "6"
    } else if d == 7 {
        proof {
            reveal_strlit("7");
            assert("7"@ =~= seq![char_of_digit(7)]);
        }
        "7"
    } else if d == 8 {
        proof {
            reveal_strlit("8");
            assert("8"@ =~= seq![char_of_digit(8)]);
        }
        "8"
    } else {
        proof {
            reveal_strlit("9");
            assert("9"@ =~= seq![char_of_digit(9)]);
        }
        "9"
    }
}

/// The digit a character stands for, if any.
pub fn digit_value(c: char) -> (r: Option<u64>)
    ensures
        match r {
            Some(v) => digit_of(c) == Some(v as int) && v < 10,
            None => digit_of(c) is None,
        },
{
    match c {
        '0' => Some(0u64),
        '1' => Some(1u64),
        '2' => Some(2u64),
        '3' => Some(3u64),
        '4' => Some(4u64),
        '5' => Some(5u64),
        '6' => Some(6u64),
        '7' => Some(7u64),
        '8' => Some(8u64),
        '9' => Some(9u64),
        _ => None,
    }
}

/// Appends the character of one decimal digit to `out`.
pub fn push_digit(out: &mut String, d: u64)
    requires
        d < 10,
    ensures
        final(out)@ == old(out)@ + seq![char_of_digit(d as int)],
{
    out.append(digit_str(d));
}

/// Appends the canonical decimal rendering of `n` to `out`.
pub fn push_u64(out: &mut String, n: u64)
    ensures
        final(out)@ == old(out)@ + dec_digits(n as nat),
    decreases n,
{
    if n < 10 {
        out.append(digit_str(n));
        proof {
            assert(final(out)@ =~= old(out)@ + dec_digits(n as nat));
        }
    } else {
        push_u64(out, n / 10);
        out.append(digit_str(n % 10));
        proof {
            assert(final(out)@ =~= old(out)@ + dec_digits(n as nat));
        }
    }
}

/// Appends the two-digit zero-padded rendering of `n < 100` to `out`.
pub fn push_two_digits(out: &mut String, n: u64)
    requires
        n < 100,
    ensures
        final(out)@ == old(out)@ + two_digits(n as int),
{
    out.append(digit_str(n / 10));
    out.append(digit_str(n % 10));
    proof {
        assert(final(out)@ =~= old(out)@ + two_digits(n as int));
    }
}

/// Appends the four-digit zero-padded rendering of `n < 10000` to `out`.
pub fn push_four_digits(out: &mut String, n: u64)
    requires
        n < 10000,
    ensures
        final(out)@ == old(out)@ + four_digits(n as int),
{
    out.append(digit_str(n / 1000));
    out.append(digit_str((n / 100) % 10));
    out.append(digit_str((n / 10) % 10));
    out.append(digit_str(n % 10));
    proof {
        assert(final(out)@ =~= old(out)@ + four_digits(n as int));
    }
}

} // verus!
