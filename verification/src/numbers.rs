//! Ordinal words for choice positions: `1st`, `2nd`, `3rd`, `4th`, ...

use vstd::prelude::*;
use vstd::string::StringExecFns;

verus! {

/// The character for one decimal digit.
pub open spec fn digit_char(d: int) -> char {
    if d == 0 {
        '0'
    } else if d == 1 {
        '1'
    } else if d == 2 {
        '2'
    } else if d == 3 {
        '3'
    } else if d == 4 {
        '4'
    } else if d == 5 {
        '5'
    } else if d == 6 {
        '6'
    } else if d == 7 {
        '7'
    } else if d == 8 {
        '8'
    } else {
        '9'
    }
}

/// The decimal digits of `n`, most significant first.
pub open spec fn spec_decimal(n: int) -> Seq<char>
    decreases n,
{
    if n < 10 {
        seq![digit_char(n)]
    } else {
        spec_decimal(n / 10).push(digit_char(n % 10))
    }
}

/// The ordinal word for position `n`: `1st`, `2nd` and `3rd` are special,
/// every other position takes a plain `th`.
pub open spec fn spec_num_word(n: int) -> Seq<char> {
    if n == 1 {
        seq!['1', 's', 't']
    } else if n == 2 {
        seq!['2', 'n', 'd']
    } else if n == 3 {
        seq!['3', 'r', 'd']
    } else {
        spec_decimal(n) + seq!['t', 'h']
    }
}

/// A one-character string for the digit `d`.
fn digit_str(d: u8) -> (r: &'static str)
    requires
        d < 10,
    ensures
        r@ == seq![digit_char(d as int)],
{
    proof {
        reveal_strlit("0");
        reveal_strlit("1");
        reveal_strlit("2");
        reveal_strlit("3");
        reveal_strlit("4");
        reveal_strlit("5");
        reveal_strlit("6");
        reveal_strlit("7");
        reveal_strlit("8");
        reveal_strlit("9");
    }
    let r = match d {
        0 => "0",
        1 => "1",
        2 => "2",
        3 => "3",
        4 => "4",
        5 => "5",
        6 => "6",
        7 => "7",
        8 => "8",
        _ => "9",
    };
    proof {
        assert(r@ =~= seq![digit_char(d as int)]);
    }
    r
}

/// Writes `n` in decimal.
fn decimal_string(n: u8) -> (r: String)
    ensures
        r@ == spec_decimal(n as int),
{
    let mut s = String::new();
    if n >= 100 {
        s.append(digit_str(n / 100));
        s.append(digit_str((n / 10) % 10));
        s.append(digit_str(n % 10));
        proof {
            assert((n as int / 10) / 10 == n as int / 100) by {
                vstd::arithmetic::div_mod::lemma_div_denominator(n as int, 10, 10);
            };
            assert(n as int / 10 >= 10) by {
                vstd::arithmetic::div_mod::lemma_div_is_ordered(100, n as int, 10);
            };
            reveal_with_fuel(spec_decimal, 4);
            assert(s@ =~= spec_decimal(n as int));
        }
    } else if n >= 10 {
        s.append(digit_str(n / 10));
        s.append(digit_str(n % 10));
        proof {
            reveal_with_fuel(spec_decimal, 3);
            assert(s@ =~= spec_decimal(n as int));
        }
    } else {
        s.append(digit_str(n));
        proof {
            assert(s@ =~= spec_decimal(n as int));
        }
    }
    s
}

/// The ordinal word for choice position `n`.
pub fn num_word(n: u8) -> (r: String)
    ensures
        r@ == spec_num_word(n as int),
{
    proof {
        reveal_strlit("1st");
        reveal_strlit("2nd");
        reveal_strlit("3rd");
        reveal_strlit("th");
    }
    match n {
        1 => {
            let r = String::from_str("1st");
            proof {
                assert(r@ =~= spec_num_word(1));
            }
            r
        }
        2 => {
            let r = String::from_str("2nd");
            proof {
                assert(r@ =~= spec_num_word(2));
            }
            r
        }
        3 => {
            let r = String::from_str("3rd");
            proof {
                assert(r@ =~= spec_num_word(3));
            }
            r
        }
        _ => {
            let mut s = decimal_string(n);
            s.append("th");
            proof {
                assert(s@ =~= spec_num_word(n as int));
            }
            s
        }
    }
}

} // verus!
