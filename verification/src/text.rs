//! The text that a program writes.

use vstd::prelude::*;

use crate::lex::decimal;
use crate::semantics::Action;

verus! {

/// The decimal digits of `n`, without leading zeros.
pub open spec fn digits(n: nat) -> Seq<u8>
    decreases n,
{
    if n < 10 {
        seq![(0x30 + n) as u8]
    } else {
        digits(n / 10).push((0x30 + n % 10) as u8)
    }
}

/// `v` in decimal: `-` before the digits where `v` is negative.
pub open spec fn decimal_text(v: int) -> Seq<u8> {
    if v < 0 {
        seq![0x2du8] + digits((-v) as nat)
    } else {
        digits(v as nat)
    }
}

/// The character with code `c` in UTF-8: itself below 0x80, and two bytes
/// from there on.
pub open spec fn char_text(c: u8) -> Seq<u8> {
    if c < 0x80 {
        seq![c]
    } else if c < 0xc0 {
        seq![0xc2u8, c]
    } else {
        seq![0xc3u8, (c - 0x40) as u8]
    }
}

/// What the surroundings are to write for `action`: nothing, unless it is a
/// value or a character to be written.
pub open spec fn text_of(action: Action) -> Seq<u8> {
    match action {
        Action::WriteInt(v) => decimal_text(v as int),
        Action::WriteChar(c) => char_text(c),
        _ => Seq::empty(),
    }
}

/// Adds the decimal digits of `n` to `out`.
fn push_digits(n: u128, out: &mut Vec<u8>)
    ensures
        final(out)@ == old(out)@ + digits(n as nat),
    decreases n,
{
    if n >= 10 {
        push_digits(n / 10, out);
    }
    out.push(0x30 + (n % 10) as u8);
    assert(out@ =~= old(out)@ + digits(n as nat));
}

impl Action {
    /// The text to be written for this action, in UTF-8.
    pub fn text(&self) -> (out: Vec<u8>)
        ensures
            out@ == text_of(*self),
    {
        let mut out: Vec<u8> = Vec::new();
        match self {
            Action::WriteInt(v) => {
                if *v < 0 {
                    out.push(0x2d);
                    push_digits((-(*v + 1)) as u128 + 1, &mut out);
                } else {
                    push_digits(*v as u128, &mut out);
                }
                assert(out@ =~= text_of(*self));
            },
            Action::WriteChar(c) => {
                if *c < 0x80 {
                    out.push(*c);
                } else if *c < 0xc0 {
                    out.push(0xc2);
                    out.push(*c);
                } else {
                    out.push(0xc3);
                    out.push(*c - 0x40);
                }
                assert(out@ =~= text_of(*self));
            },
            _ => {},
        }
        out
    }
}

/// The digits of a number spell that number: what is written can be read
/// back.
pub proof fn lemma_digits_spell(n: nat)
    ensures
        decimal(digits(n)) == n,
        digits(n).len() >= 1,
        forall|i: int| 0 <= i < digits(n).len() ==> 0x30 <= #[trigger] digits(n)[i] <= 0x39,
    decreases n,
{
    reveal_with_fuel(decimal, 2);
    if n < 10 {
        assert(digits(n).drop_last() =~= Seq::<u8>::empty());
        assert(digits(n).last() == 0x30 + n);
    } else {
        lemma_digits_spell(n / 10);
        assert(digits(n).drop_last() =~= digits(n / 10));
        assert(digits(n).last() == 0x30 + n % 10);
    }
}

} // verus!
