//! Why an operation that names an item can fail, and what the caller is told.

use vstd::prelude::*;
use vstd::string::StringExecFns;

verus! {

/// The failures of the operations that change one item in place.
#[derive(Debug, Clone, Copy, PartialEq, Eq, Structural)]
pub enum TodoError {
    /// The caller has never added an item, so there is no list to change.
    NoSuchUser,
    /// The caller's list holds no live item with this id.
    NotFound(usize),
}

/// The character for a decimal digit.
pub open spec fn digit_char(digit: nat) -> char
    recommends
        digit < 10,
{
    if digit == 0 {
        '0'
    } else if digit == 1 {
        '1'
    } else if digit == 2 {
        '2'
    } else if digit == 3 {
        '3'
    } else if digit == 4 {
        '4'
    } else if digit == 5 {
        '5'
    } else if digit == 6 {
        '6'
    } else if digit == 7 {
        '7'
    } else if digit == 8 {
        '8'
    } else {
        '9'
    }
}

/// A number written in decimal, without leading zeros.
pub open spec fn decimal_digits(n: nat) -> Seq<char>
    decreases n,
{
    if n < 10 {
        seq![digit_char(n)]
    } else {
        decimal_digits(n / 10).push(digit_char(n % 10))
    }
}

/// What a caller is told about a failure.
pub open spec fn message_text(error: TodoError) -> Seq<char> {
    match error {
        TodoError::NoSuchUser => "Todo list for this user not found"@,
        TodoError::NotFound(id) => "Todo with id "@ + decimal_digits(id as nat) + " not found"@,
    }
}

/// The one-character string of a decimal digit.
fn digit_text(digit: usize) -> (text: &'static str)
    requires
        digit < 10,
    ensures
        text@ == seq![digit_char(digit as nat)],
{
    proof {
        reveal_strlit("0");
        reveal_strlit("1");
        reveal_strlit("2");
        reveal_strlit("3");
        reveal_strlit("4");
        reveal_strlit("5");
        reveal_strlit("6");
        reveal_strlit("7");
        reveal_strlit("8");
        reveal_strlit("9");
    }
    let text = if digit == 0 {
        "0"
    } else if digit == 1 {
        "1"
    } else if digit == 2 {
        "2"
    } else if digit == 3 {
        "3"
    } else if digit == 4 {
        "4"
    } else if digit == 5 {
        "5"
    } else if digit == 6 {
        "6"
    } else if digit == 7 {
        "7"
    } else if digit == 8 {
        "8"
    } else {
        "9"
    };
    assert(text@ =~= seq![digit_char(digit as nat)]);
    text
}

/// `n` written in decimal.
fn decimal(n: usize) -> (text: String)
    ensures
        text@ == decimal_digits(n as nat),
    decreases n,
{
    if n < 10 {
        String::from_str(digit_text(n))
    } else {
        let mut text = decimal(n / 10);
        text.append(digit_text(n % 10));
        assert(text@ =~= decimal_digits((n / 10) as nat).push(digit_char((n % 10) as nat)));
        text
    }
}

impl TodoError {
    /// What a caller is told about this failure.
    pub fn message(&self) -> (text: String)
        ensures
            text@ == message_text(*self),
    {
        match self {
            TodoError::NoSuchUser => String::from_str("Todo list for this user not found"),
            TodoError::NotFound(id) => {
                let mut text = String::from_str("Todo with id ");
                let digits = decimal(*id);
                text.append(digits.as_str());
                text.append(" not found");
                text
            },
        }
    }
}

} // verus!
