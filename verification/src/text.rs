//! Building texts: decimal numbers and concatenation.
use vstd::prelude::*;
use vstd::string::StringExecFns;

verus! {

/// The decimal digit `d`.
pub open spec fn digit_char(d: int) -> char {
    if d == 0 {
        '0'
    } else if d == 1 {
        '1'
    } else if d == 2 {
        '2'
    } else if d == 3 {
        '3'
    } else if d == 4 {
        '4'
    } else if d == 5 {
        '5'
    } else if d == 6 {
        '6'
    } else if d == 7 {
        '7'
    } else if d == 8 {
        '8'
    } else {
        '9'
    }
}

/// The decimal representation of `n`, without leading zeros.
pub open spec fn dec(n: nat) -> Seq<char>
    decreases n,
{
    if n < 10 {
        seq![digit_char(n as int)]
    } else {
        dec(n / 10) + seq![digit_char((n % 10) as int)]
    }
}

fn push_digit(s: &mut String, d: usize)
    requires
        d < 10,
    ensures
        final(s)@ == old(s)@ + seq![digit_char(d as int)],
{
    let t: &str = if d == 0 {
        "0"
    } else if d == 1 {
        "1"
    } else if d == 2 {
        "2"
    } else if d == 3 {
        "3"
    } else if d == 4 {
        "4"
    } else if d == 5 {
        "5"
    } else if d == 6 {
        "6"
    } else if d == 7 {
        "7"
    } else if d == 8 {
        "8"
    } else {
        "9"
    };
    proof {
        reveal_strlit("0");
        reveal_strlit("1");
        reveal_strlit("2");
        reveal_strlit("3");
        reveal_strlit("4");
        reveal_strlit("5");
        reveal_strlit("6");
        reveal_strlit("7");
        reveal_strlit("8");
        reveal_strlit("9");
    }
    assert(t@ =~= seq![digit_char(d as int)]);
    s.append(t);
}

/// Appends the decimal representation of `n` to `s`.
pub fn push_decimal(s: &mut String, n: usize)
    ensures
        final(s)@ == old(s)@ + dec(n as nat),
    decreases n,
{
    if n >= 10 {
        push_decimal(s, n / 10);
        push_digit(s, n % 10);
        assert(final(s)@ =~= old(s)@ + dec(n as nat)) by {
            assert(dec(n as nat) == dec((n / 10) as nat) + seq![digit_char((n % 10) as int)]);
        }
    } else {
        push_digit(s, n);
    }
}

/// Appends the decimal representation of `n` to `s`.
pub fn push_decimal_wide(s: &mut String, n: u128)
    ensures
        final(s)@ == old(s)@ + dec(n as nat),
    decreases n,
{
    if n >= 10 {
        push_decimal_wide(s, n / 10);
        push_digit(s, (n % 10) as usize);
        assert(final(s)@ =~= old(s)@ + dec(n as nat)) by {
            assert(dec(n as nat) == dec((n / 10) as nat) + seq![digit_char((n % 10) as int)]);
        }
    } else {
        push_digit(s, n as usize);
    }
}

/// Appends `t` to `s`.
pub fn push_str(s: &mut String, t: &str)
    ensures
        final(s)@ == old(s)@ + t@,
{
    s.append(t);
}

/// The decimal representation of `n`.
pub fn decimal(n: usize) -> (r: String)
    ensures
        r@ == dec(n as nat),
{
    let mut s = String::new();
    push_decimal(&mut s, n);
    assert(s@ =~= dec(n as nat));
    s
}

} // verus!
