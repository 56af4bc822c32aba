//! Characters and decimal numerals: what a digit is worth, what a
//! non-negative integer looks like in text, and how a value is written back.

use vstd::prelude::*;
use vstd::string::StrSliceExecFns;
use vstd::string::StringExecFns;

verus! {

pub open spec fn is_digit(c: char) -> bool {
    c == '0' || c == '1' || c == '2' || c == '3' || c == '4' || c == '5' || c == '6' || c == '7'
        || c == '8' || c == '9'
}

/// The value of a digit character; anything else counts zero.
pub open spec fn digit_val(c: char) -> int {
    if c == '1' {
        1
    } else if c == '2' {
        2
    } else if c == '3' {
        3
    } else if c == '4' {
        4
    } else if c == '5' {
        5
    } else if c == '6' {
        6
    } else if c == '7' {
        7
    } else if c == '8' {
        8
    } else if c == '9' {
        9
    } else {
        0
    }
}

/// The digit character for a value below ten; anything else maps to '0'.
pub open spec fn char_of_digit(d: int) -> char {
    if d == 1 {
        '1'
    } else if d == 2 {
        '2'
    } else if d == 3 {
        '3'
    } else if d == 4 {
        '4'
    } else if d == 5 {
        '5'
    } else if d == 6 {
        '6'
    } else if d == 7 {
        '7'
    } else if d == 8 {
        '8'
    } else if d == 9 {
        '9'
    } else {
        '0'
    }
}

/// The value of a string of digits read as a decimal numeral.
pub open spec fn num_val(s: Seq<char>) -> int
    decreases s.len(),
{
    if s.len() == 0 {
        0
    } else {
        num_val(s.drop_last()) * 10 + digit_val(s.last())
    }
}

/// A nonempty string of decimal digits.
pub open spec fn is_num(s: Seq<char>) -> bool {
    s.len() > 0 && forall|i: int| 0 <= i < s.len() ==> is_digit(s[i])
}

/// A numeral that names a value of the unsigned 32-bit type.
pub open spec fn u32_str(s: Seq<char>) -> bool {
    is_num(s) && num_val(s) <= u32::MAX
}

/// The decimal numeral of a non-negative value, most significant digit
/// first, with no leading zero except for the value zero itself.
pub open spec fn dec_seq(n: int) -> Seq<char>
    decreases n,
{
    if n < 10 {
        seq![char_of_digit(n)]
    } else {
        dec_seq(n / 10).push(char_of_digit(n % 10))
    }
}

proof fn lemma_num_val_nonneg(s: Seq<char>)
    ensures
        num_val(s) >= 0,
    decreases s.len(),
{
    if s.len() > 0 {
        lemma_num_val_nonneg(s.drop_last());
    }
}

/// A numeral is worth at least any of its prefixes.
proof fn lemma_num_val_prefix(s: Seq<char>, i: int)
    requires
        0 <= i <= s.len(),
    ensures
        num_val(s.take(i)) <= num_val(s),
    decreases s.len() - i,
{
    if i < s.len() {
        lemma_num_val_nonneg(s.take(i));
        assert(s.take(i + 1).drop_last() =~= s.take(i));
        assert(s.take(i + 1).last() == s[i]);
        assert(num_val(s.take(i + 1)) == num_val(s.take(i)) * 10 + digit_val(s[i]));
        lemma_num_val_prefix(s, i + 1);
    } else {
        assert(s.take(i) =~= s);
    }
}

/// Writing a value and reading it back returns the value, and the written
/// form is made of digits alone.
pub proof fn lemma_dec_seq_val(n: int)
    requires
        n >= 0,
    ensures
        is_num(dec_seq(n)),
        num_val(dec_seq(n)) == n,
    decreases n,
{
    if n < 10 {
        let s = dec_seq(n);
        assert(s.drop_last() =~= Seq::<char>::empty());
        assert(num_val(Seq::<char>::empty()) == 0);
        assert(s.last() == char_of_digit(n));
        assert(num_val(s) == digit_val(char_of_digit(n)));
        assert(is_digit(char_of_digit(n)));
    } else {
        lemma_dec_seq_val(n / 10);
        let t = dec_seq(n / 10);
        let c = char_of_digit(n % 10);
        let s = dec_seq(n);
        assert(s == t.push(c));
        assert(s.drop_last() =~= t);
        assert(s.last() == c);
        assert(num_val(s) == num_val(t) * 10 + digit_val(c));
        assert(n / 10 * 10 + n % 10 == n) by {
            vstd::arithmetic::div_mod::lemma_fundamental_div_mod(n, 10);
        }
        assert(digit_val(c) == n % 10);
        assert forall|i: int| 0 <= i < s.len() implies is_digit(s[i]) by {
            if i < t.len() {
                assert(s[i] == t[i]);
            }
        }
    }
}

/// Turn a string slice into the vector of its characters.
pub fn chars_vec(s: &str) -> (r: Vec<char>)
    ensures
        r@ == s@,
{
    let n = s.unicode_len();
    let mut v: Vec<char> = Vec::new();
    let mut i: usize = 0;
    while i < n
        invariant
            n == s@.len(),
            0 <= i <= n,
            v@ == s@.take(i as int),
        decreases n - i,
    {
        let c = s.get_char(i);
        v.push(c);
        proof {
            assert(s@.take(i + 1) =~= s@.take(i as int).push(s@[i as int]));
        }
        i += 1;
    }
    proof {
        assert(s@.take(n as int) =~= s@);
    }
    v
}

/// The value a digit character stands for, if it is one.
pub fn digit_value(c: char) -> (r: Option<u32>)
    ensures
        r is Some <==> is_digit(c),
        r is Some ==> r->0 == digit_val(c),
{
    match c {
        '0' => Some(0),
        '1' => Some(1),
        '2' => Some(2),
        '3' => Some(3),
        '4' => Some(4),
        '5' => Some(5),
        '6' => Some(6),
        '7' => Some(7),
        '8' => Some(8),
        '9' => Some(9),
        _ => None,
    }
}

/// Read a slice of characters as a decimal numeral for the unsigned
/// 32-bit type. Succeeds exactly on nonempty all-digit strings whose
/// value fits the type.
pub fn parse_u32(s: &[char]) -> (r: Result<u32, crate::rolling::ParseError>)
    ensures
        u32_str(s@) ==> r == Ok::<u32, crate::rolling::ParseError>((num_val(s@)) as u32),
        !u32_str(s@) ==> r == Err::<u32, crate::rolling::ParseError>(
            crate::rolling::ParseError::InvalidNumber,
        ),
{
    if s.len() == 0 {
        return Err(crate::rolling::ParseError::InvalidNumber);
    }
    let mut acc: u32 = 0;
    let mut i: usize = 0;
    while i < s.len()
        invariant
            0 <= i <= s@.len(),
            forall|j: int| 0 <= j < i ==> is_digit(s@[j]),
            acc == num_val(s@.take(i as int)),
        decreases s@.len() - i,
    {
        let c = s[i];
        proof {
            assert(s@.take(i + 1).drop_last() =~= s@.take(i as int));
            assert(s@.take(i + 1).last() == s@[i as int]);
        }
        match digit_value(c) {
            None => {
                return Err(crate::rolling::ParseError::InvalidNumber);
            },
            Some(d) => {
                if acc > u32::MAX / 10 || (acc == u32::MAX / 10 && d > u32::MAX % 10) {
                    proof {
                        assert(num_val(s@.take(i + 1)) > u32::MAX);
                        lemma_num_val_prefix(s@, i + 1);
                    }
                    return Err(crate::rolling::ParseError::InvalidNumber);
                }
                acc = acc * 10 + d;
                i += 1;
            },
        }
    }
    proof {
        assert(s@.take(i as int) =~= s@);
    }
    Ok(acc)
}

/// Append one digit character to a string.
fn push_digit_char(out: &mut String, d: u32)
    requires
        d < 10,
    ensures
        final(out)@ == old(out)@ + seq![char_of_digit(d as int)],
{
    match d {
        0 => {
            out.append("0");
            proof {
                reveal_strlit("0");
                assert("0"@ =~= seq![char_of_digit(0)]);
            }
        },
        1 => {
            out.append("1");
            proof {
                reveal_strlit("1");
                assert("1"@ =~= seq![char_of_digit(1)]);
            }
        },
        2 => {
            out.append("2");
            proof {
                reveal_strlit("2");
                assert("2"@ =~= seq![char_of_digit(2)]);
            }
        },
        3 => {
            out.append("3");
            proof {
                reveal_strlit("3");
                assert("3"@ =~= seq![char_of_digit(3)]);
            }
        },
        4 => {
            out.append("4");
            proof {
                reveal_strlit("4");
                assert("4"@ =~= seq![char_of_digit(4)]);
            }
        },
        5 => {
            out.append("5");
            proof {
                reveal_strlit("5");
                assert("5"@ =~= seq![char_of_digit(5)]);
            }
        },
        6 => {
            out.append("6");
            proof {
                reveal_strlit("6");
                assert("6"@ =~= seq![char_of_digit(6)]);
            }
        },
        7 => {
            out.append("7");
            proof {
                reveal_strlit("7");
                assert("7"@ =~= seq![char_of_digit(7)]);
            }
        },
        8 => {
            out.append("8");
            proof {
                reveal_strlit("8");
                assert("8"@ =~= seq![char_of_digit(8)]);
            }
        },
        _ => {
            out.append("9");
            proof {
                reveal_strlit("9");
                assert("9"@ =~= seq![char_of_digit(9)]);
            }
        },
    }
}

/// Append the decimal numeral of a value to a string.
pub fn push_decimal(out: &mut String, n: u32)
    ensures
        final(out)@ == old(out)@ + dec_seq(n as int),
    decreases n,
{
    if n >= 10 {
        push_decimal(out, n / 10);
        push_digit_char(out, n % 10);
        proof {
            assert(dec_seq(n as int) == dec_seq(n as int / 10).push(char_of_digit(n as int % 10)));
            assert(old(out)@ + dec_seq(n as int) =~= (old(out)@ + dec_seq(n as int / 10)) + seq![
                char_of_digit(n as int % 10),
            ]);
        }
    } else {
        push_digit_char(out, n);
    }
}

} // verus!
