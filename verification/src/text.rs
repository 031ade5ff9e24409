//! Numbers and lists written as text.

use vstd::prelude::*;
use vstd::string::StringExecFns;

verus! {

/// The character of a decimal digit.
pub open spec fn digit_char(digit: nat) -> char {
    if digit == 0 {
        '0'
    } else if digit == 1 {
        '1'
    } else if digit == 2 {
        '2'
    } else if digit == 3 {
        '3'
    } else if digit == 4 {
        '4'
    } else if digit == 5 {
        '5'
    } else if digit == 6 {
        '6'
    } else if digit == 7 {
        '7'
    } else if digit == 8 {
        '8'
    } else {
        '9'
    }
}

/// A number written in decimal digits, without leading zero.
pub open spec fn decimal(n: nat) -> Seq<char>
    decreases n,
{
    if n < 10 {
        seq![digit_char(n)]
    } else {
        decimal(n / 10).push(digit_char(n % 10))
    }
}

fn digit_text(digit: u64) -> (text: &'static str)
    requires
        digit < 10,
    ensures
        text@ == seq![digit_char(digit as nat)],
{
    proof {
        reveal_strlit("0");
        reveal_strlit("1");
        reveal_strlit("2");
        reveal_strlit("3");
        reveal_strlit("4");
        reveal_strlit("5");
        reveal_strlit("6");
        reveal_strlit("7");
        reveal_strlit("8");
        reveal_strlit("9");
    }
    let text = if digit == 0 {
        "0"
    } else if digit == 1 {
        "1"
    } else if digit == 2 {
        "2"
    } else if digit == 3 {
        "3"
    } else if digit == 4 {
        "4"
    } else if digit == 5 {
        "5"
    } else if digit == 6 {
        "6"
    } else if digit == 7 {
        "7"
    } else if digit == 8 {
        "8"
    } else {
        "9"
    };
    assert(text@ =~= seq![digit_char(digit as nat)]);
    text
}

/// Appends a number in decimal digits to a text.
pub fn push_decimal(text: &mut String, n: u64)
    ensures
        final(text)@ == old(text)@ + decimal(n as nat),
    decreases n,
{
    if n >= 10 {
        push_decimal(text, n / 10);
    }
    text.append(digit_text(n % 10));
    assert(text@ =~= old(text)@ + decimal(n as nat));
}

/// Writes a number in decimal digits.
pub fn decimal_text(n: u64) -> (text: String)
    ensures
        text@ == decimal(n as nat),
{
    let mut text = String::new();
    push_decimal(&mut text, n);
    assert(text@ =~= decimal(n as nat));
    text
}

/// The first `n` numbers of a list, written in decimal and separated by a
/// comma and a space.
pub open spec fn listed_numbers(numbers: Seq<u32>, n: int) -> Seq<char>
    decreases n,
{
    if n <= 0 {
        Seq::empty()
    } else if n == 1 {
        decimal(numbers[0] as nat)
    } else {
        listed_numbers(numbers, n - 1) + ", "@ + decimal(numbers[n - 1] as nat)
    }
}

/// A list of numbers written between brackets.
pub open spec fn numbers_text(numbers: Seq<u32>) -> Seq<char> {
    "["@ + listed_numbers(numbers, numbers.len() as int) + "]"@
}

/// Writes a list of numbers between brackets.
pub fn numbers_text_of(numbers: &Vec<u32>) -> (text: String)
    ensures
        text@ == numbers_text(numbers@),
{
    let mut text = "[".to_owned();
    let mut i: usize = 0;
    assert(text@ =~= "["@ + listed_numbers(numbers@, 0));
    while i < numbers.len()
        invariant
            i <= numbers@.len(),
            text@ == "["@ + listed_numbers(numbers@, i as int),
        decreases numbers@.len() - i,
    {
        if i > 0 {
            text.append(", ");
        }
        push_decimal(&mut text, numbers[i] as u64);
        assert(text@ =~= "["@ + listed_numbers(numbers@, i + 1));
        i += 1;
    }
    text.append("]");
    text
}

} // verus!
