//! Decimal text for the integer fields that appear inside generated strings:
//! the costume hash value and the timestamp suffix of a save file name.

use vstd::prelude::*;
use vstd::string::StringExecFns;

verus! {

/// The digit character for one decimal digit value.
pub open spec fn spec_digit_char(d: int) -> char
    recommends
        0 <= d < 10,
{
    if d == 0 {
        '0'
    } else if d == 1 {
        '1'
    } else if d == 2 {
        '2'
    } else if d == 3 {
        '3'
    } else if d == 4 {
        '4'
    } else if d == 5 {
        '5'
    } else if d == 6 {
        '6'
    } else if d == 7 {
        '7'
    } else if d == 8 {
        '8'
    } else {
        '9'
    }
}

/// The decimal digits of a non-negative value, most significant first.
pub open spec fn spec_decimal_nat(n: int) -> Seq<char>
    recommends
        n >= 0,
    decreases n,
{
    if n < 10 {
        seq![spec_digit_char(n)]
    } else {
        spec_decimal_nat(n / 10) + seq![spec_digit_char(n % 10)]
    }
}

/// The decimal text of a signed value: a minus sign before the digits of the
/// magnitude when the value is negative.
pub open spec fn spec_decimal_int(v: int) -> Seq<char> {
    if v < 0 {
        seq!['-'] + spec_decimal_nat(-v)
    } else {
        spec_decimal_nat(v)
    }
}

/// Appends the digit character for `d` to `s`.
fn push_digit_char(s: &mut String, d: u64)
    requires
        d < 10,
    ensures
        final(s)@ == old(s)@ + seq![spec_digit_char(d as int)],
{
    match d {
        0 => {
            proof {
                reveal_strlit("0");
            }
            s.append("0");
        },
        1 => {
            proof {
                reveal_strlit("1");
            }
            s.append("1");
        },
        2 => {
            proof {
                reveal_strlit("2");
            }
            s.append("2");
        },
        3 => {
            proof {
                reveal_strlit("3");
            }
            s.append("3");
        },
        4 => {
            proof {
                reveal_strlit("4");
            }
            s.append("4");
        },
        5 => {
            proof {
                reveal_strlit("5");
            }
            s.append("5");
        },
        6 => {
            proof {
                reveal_strlit("6");
            }
            s.append("6");
        },
        7 => {
            proof {
                reveal_strlit("7");
            }
            s.append("7");
        },
        8 => {
            proof {
                reveal_strlit("8");
            }
            s.append("8");
        },
        _ => {
            proof {
                reveal_strlit("9");
            }
            s.append("9");
        },
    }
    assert(s@ =~= old(s)@ + seq![spec_digit_char(d as int)]);
}

/// Appends the decimal digits of `n` to `s`, most significant first.
fn append_decimal_u64(s: &mut String, n: u64)
    ensures
        final(s)@ == old(s)@ + spec_decimal_nat(n as int),
    decreases n,
{
    if n < 10 {
        push_digit_char(s, n);
    } else {
        append_decimal_u64(s, n / 10);
        push_digit_char(s, n % 10);
        assert(s@ =~= old(s)@ + spec_decimal_nat(n as int));
    }
}

/// The decimal text of a non-negative 64-bit value.
pub fn u64_to_decimal(n: u64) -> (s: String)
    ensures
        s@ == spec_decimal_nat(n as int),
{
    let mut s = String::new();
    append_decimal_u64(&mut s, n);
    assert(s@ =~= spec_decimal_nat(n as int));
    s
}

/// The decimal text of a signed 64-bit value, minus sign included.
pub fn i64_to_decimal(v: i64) -> (s: String)
    ensures
        s@ == spec_decimal_int(v as int),
{
    if v >= 0 {
        u64_to_decimal(v as u64)
    } else {
        let mut s = String::new();
        proof {
            reveal_strlit("-");
        }
        s.append("-");
        let magnitude: u64 = if v == i64::MIN {
            9223372036854775808u64
        } else {
            (-v) as u64
        };
        append_decimal_u64(&mut s, magnitude);
        assert(s@ =~= spec_decimal_int(v as int));
        s
    }
}

} // verus!
