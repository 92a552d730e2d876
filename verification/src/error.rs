//! The error that drawing operations report, and the text it is shown as.

use vstd::prelude::*;
use vstd::string::StringExecFns;

verus! {

/// Why a drawing operation stopped.
#[derive(Debug, Clone, Copy, PartialEq, Eq, Structural)]
pub enum DrawError {
    /// The pixel at column `.0`, row `.1` does not lie in the buffer.
    OutOfBounds(i128, i128),
}

impl View for DrawError {
    type V = (int, int);

    /// The position that was rejected, column first.
    open spec fn view(&self) -> (int, int) {
        match *self {
            DrawError::OutOfBounds(x, y) => (x as int, y as int),
        }
    }
}

/// The position at which an operation stopped, if it did.
pub open spec fn failure_of(res: Result<(), DrawError>) -> Option<(int, int)> {
    match res {
        Ok(_) => None,
        Err(e) => Some(e@),
    }
}

/// The character of a decimal digit.
pub open spec fn digit_char(d: int) -> char {
    if d == 0 {
        '0'
    } else if d == 1 {
        '1'
    } else if d == 2 {
        '2'
    } else if d == 3 {
        '3'
    } else if d == 4 {
        '4'
    } else if d == 5 {
        '5'
    } else if d == 6 {
        '6'
    } else if d == 7 {
        '7'
    } else if d == 8 {
        '8'
    } else {
        '9'
    }
}

/// A natural number in decimal, without leading zeros.
pub open spec fn decimal(n: nat) -> Seq<char>
    decreases n,
{
    if n < 10 {
        seq![digit_char(n as int)]
    } else {
        decimal(n / 10).push(digit_char((n % 10) as int))
    }
}

/// An integer in decimal, with a minus sign before a negative one.
pub open spec fn signed_decimal(v: int) -> Seq<char> {
    if v < 0 {
        seq!['-'] + decimal((-v) as nat)
    } else {
        decimal(v as nat)
    }
}

/// The text of an out-of-bounds error for position `p`.
pub open spec fn out_of_bounds_text(p: (int, int)) -> Seq<char> {
    "Out of Bounds: x: "@ + signed_decimal(p.0) + " y: "@ + signed_decimal(p.1)
}

/// The one-character text of a decimal digit.
fn digit_text(d: u8) -> (text: &'static str)
    requires
        d < 10,
    ensures
        text@ == seq![digit_char(d as int)],
{
    proof {
        reveal_strlit("0");
        reveal_strlit("1");
        reveal_strlit("2");
        reveal_strlit("3");
        reveal_strlit("4");
        reveal_strlit("5");
        reveal_strlit("6");
        reveal_strlit("7");
        reveal_strlit("8");
        reveal_strlit("9");
    }
    let text = if d == 0 {
        "0"
    } else if d == 1 {
        "1"
    } else if d == 2 {
        "2"
    } else if d == 3 {
        "3"
    } else if d == 4 {
        "4"
    } else if d == 5 {
        "5"
    } else if d == 6 {
        "6"
    } else if d == 7 {
        "7"
    } else if d == 8 {
        "8"
    } else {
        "9"
    };
    assert(text@ =~= seq![digit_char(d as int)]);
    text
}

/// Appends `n` in decimal.
fn push_decimal(text: &mut String, n: u128)
    ensures
        final(text)@ == old(text)@ + decimal(n as nat),
    decreases n,
{
    if n >= 10 {
        push_decimal(text, n / 10);
    }
    let digit = digit_text((n % 10) as u8);
    text.append(digit);
    assert(final(text)@ =~= old(text)@ + decimal(n as nat));
}

/// Appends `v` in decimal, with its sign.
fn push_signed_decimal(text: &mut String, v: i128)
    ensures
        final(text)@ == old(text)@ + signed_decimal(v as int),
{
    if v < 0 {
        proof {
            reveal_strlit("-");
        }
        text.append("-");
        let magnitude = (-(v + 1)) as u128 + 1;
        push_decimal(text, magnitude);
        assert(final(text)@ =~= old(text)@ + signed_decimal(v as int)) by {
            assert("-"@ =~= seq!['-']);
        }
    } else {
        push_decimal(text, v as u128);
    }
}

impl DrawError {
    /// The error as text for a reader, such as
    /// `Out of Bounds: x: 12 y: -3`.
    pub fn message(&self) -> (text: String)
        ensures
            text@ == out_of_bounds_text(self@),
    {
        match *self {
            DrawError::OutOfBounds(x, y) => {
                let mut text = String::from_str("Out of Bounds: x: ");
                push_signed_decimal(&mut text, x);
                text.append(" y: ");
                push_signed_decimal(&mut text, y);
                assert(text@ =~= out_of_bounds_text(self@));
                text
            },
        }
    }
}

} // verus!
