//! Dice values: parsing `QdS` notation, sampling a roll, and writing both
//! back to text.

use vstd::prelude::*;
use vstd::slice::slice_subrange;
use vstd::string::StringExecFns;

use crate::rolling::ParseError;
use crate::rolling::text::{chars_vec, dec_seq, num_val, parse_u32, push_decimal, u32_str};

verus! {

/// The thread-local generator of the `rand` crate, left opaque: nothing is
/// assumed of the values it produces beyond what each sampling call states.
#[verifier::external_type_specification]
#[verifier::external_body]
pub struct ExThreadRng(rand::rngs::ThreadRng);

/// Relies on `rand::Rng::gen_range`: a draw from a nonempty inclusive range
/// lies within that range (uniformly distributed; the call panics only on an
/// empty range, which `requires` rules out). Nothing relates one draw to the
/// next.
#[verifier::external_body]
fn sample_between(rng: &mut rand::rngs::ThreadRng, lo: u32, hi: u32) -> (r: u32)
    requires
        lo <= hi,
    ensures
        lo <= r <= hi,
{
    rand::Rng::gen_range(rng, lo..=hi)
}

/// A quantity of dice with a common number of sides, as written `QdS`.
#[derive(Debug, Clone, Copy, PartialEq, Eq, Structural)]
pub struct Dice {
    pub quantity: u32,
    pub sides: u32,
}

/// One sampled outcome of a dice value; the result never changes once drawn.
#[derive(Debug, Clone, Copy, PartialEq, Eq, Structural)]
pub struct Roll {
    pub dice: Dice,
    pub result: u32,
}

/// How many times a character occurs in a string.
pub open spec fn count_char(s: Seq<char>, c: char) -> nat
    decreases s.len(),
{
    if s.len() == 0 {
        0
    } else {
        count_char(s.drop_last(), c) + if s.last() == c {
            1nat
        } else {
            0nat
        }
    }
}

/// The first position of a character in a string, or -1 when absent.
pub open spec fn find_char(s: Seq<char>, c: char) -> int
    decreases s.len(),
{
    if s.len() == 0 {
        -1
    } else if find_char(s.drop_last(), c) != -1 {
        find_char(s.drop_last(), c)
    } else if s.last() == c {
        s.len() - 1
    } else {
        -1
    }
}

/// What parsing a dice token returns: the text must split into exactly two
/// parts on the separator `d`, a quantity and a nonempty sides count, both
/// decimal numerals of the unsigned 32-bit type.
pub open spec fn dice_spec(s: Seq<char>) -> Result<Dice, ParseError> {
    let k = find_char(s, 'd');
    if count_char(s, 'd') == 0 {
        Err(ParseError::MissingSides)
    } else if count_char(s, 'd') > 1 {
        Err(ParseError::TooManySeparators)
    } else if k == s.len() - 1 {
        Err(ParseError::MissingSides)
    } else if !u32_str(s.take(k)) || !u32_str(s.skip(k + 1)) {
        Err(ParseError::InvalidNumber)
    } else {
        Ok(Dice { quantity: num_val(s.take(k)) as u32, sides: num_val(s.skip(k + 1)) as u32 })
    }
}

/// The text form of a dice value, `QdS`.
pub open spec fn dice_text(d: Dice) -> Seq<char> {
    dec_seq(d.quantity as int) + seq!['d'] + dec_seq(d.sides as int)
}

/// The text form of a roll, `QdS [result]`.
pub open spec fn roll_text(r: Roll) -> Seq<char> {
    dice_text(r.dice) + seq![' ', '['] + dec_seq(r.result as int) + seq![']']
}

impl Dice {
    /// The sampling range `[quantity, quantity * sides]` is nonempty and its
    /// top fits the result type; parsing alone does not guarantee this.
    pub open spec fn sample_ok(self) -> bool {
        self.quantity * self.sides <= u32::MAX && self.quantity <= self.quantity * self.sides
    }

    /// Parse `QdS` text into a dice value.
    pub fn new(string_repr: &str) -> (r: Result<Dice, ParseError>)
        ensures
            r == dice_spec(string_repr@),
    {
        let chars = chars_vec(string_repr);
        let ghost s = string_repr@;
        let n = chars.len();
        let mut count: usize = 0;
        let mut first: usize = 0;
        let mut i: usize = 0;
        while i < n
            invariant
                chars@ == s,
                n == s.len(),
                0 <= i <= n,
                count <= i,
                count == count_char(s.take(i as int), 'd'),
                count > 0 ==> first < i && find_char(s.take(i as int), 'd') == first as int,
                count == 0 ==> find_char(s.take(i as int), 'd') == -1,
            decreases n - i,
        {
            proof {
                assert(s.take(i + 1).drop_last() =~= s.take(i as int));
                assert(s.take(i + 1).last() == s[i as int]);
            }
            if chars[i] == 'd' {
                if count == 0 {
                    first = i;
                }
                count += 1;
            }
            i += 1;
        }
        proof {
            assert(s.take(n as int) =~= s);
        }
        if count == 0 {
            Err(ParseError::MissingSides)
        } else if count > 1 {
            Err(ParseError::TooManySeparators)
        } else if first == n - 1 {
            Err(ParseError::MissingSides)
        } else {
            let q_part = slice_subrange(chars.as_slice(), 0, first);
            let s_part = slice_subrange(chars.as_slice(), first + 1, n);
            proof {
                assert(q_part@ =~= s.take(first as int));
                assert(s_part@ =~= s.skip(first as int + 1));
            }
            match parse_u32(q_part) {
                Err(e) => Err(e),
                Ok(quantity) => match parse_u32(s_part) {
                    Err(e) => Err(e),
                    Ok(sides) => Ok(Dice { quantity, sides }),
                },
            }
        }
    }

    /// Sample this dice value once: a single draw from the inclusive range
    /// `[quantity, quantity * sides]`, a deliberate approximation that keeps
    /// the exact minimum and maximum of a sum of independent dice.
    pub fn roll(&self, rng: &mut rand::rngs::ThreadRng) -> (r: Roll)
        requires
            self.sample_ok(),
        ensures
            r.dice == *self,
            self.quantity <= r.result,
            r.result <= self.quantity * self.sides,
    {
        let hi = self.quantity * self.sides;
        let result = sample_between(rng, self.quantity, hi);
        Roll { dice: Dice { quantity: self.quantity, sides: self.sides }, result }
    }

    /// Write this dice value as `QdS`.
    pub fn render(&self) -> (r: String)
        ensures
            r@ == dice_text(*self),
    {
        let mut out = String::new();
        push_decimal(&mut out, self.quantity);
        out.append("d");
        push_decimal(&mut out, self.sides);
        proof {
            reveal_strlit("d");
            assert("d"@ =~= seq!['d']);
            assert(out@ =~= dice_text(*self));
        }
        out
    }
}

impl Roll {
    /// Write this roll as `QdS [result]`.
    pub fn render(&self) -> (r: String)
        ensures
            r@ == roll_text(*self),
    {
        let mut out = self.dice.render();
        out.append(" [");
        push_decimal(&mut out, self.result);
        out.append("]");
        proof {
            reveal_strlit(" [");
            reveal_strlit("]");
            assert(" ["@ =~= seq![' ', '[']);
            assert("]"@ =~= seq![']']);
            assert(out@ =~= roll_text(*self));
        }
        out
    }
}

} // verus!
