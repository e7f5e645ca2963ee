//! The rules of a number guessing game: a secret number between 1 and 100 is
//! drawn, and every line the player types is answered.

use vstd::prelude::*;

verus! {

/// The answer to one line typed by the player.
#[derive(Debug, Clone, Copy, PartialEq, Eq, Structural)]
pub enum Reply {
    /// The line is no number; it does not count as a guess.
    NotANumber,
    /// The guess is below the secret number.
    TooSmall(i32),
    /// The guess is above the secret number.
    TooBig(i32),
    /// The guess is the secret number: the game is over.
    Win(i32),
}

/// The least secret number.
pub const LOWEST: i32 = 1;

/// The greatest secret number.
pub const HIGHEST: i32 = 100;

/// What `str::trim` leaves of a text: the text without the white space at
/// its two ends.
pub uninterp spec fn trimmed(text: Seq<char>) -> Seq<char>;

/// `c` is one of the digits `0` to `9`.
pub open spec fn is_digit(c: char) -> bool {
    '0' <= c <= '9'
}

/// The number that a run of digits writes in base ten.
pub open spec fn decimal_value(digits: Seq<char>) -> int
    decreases digits.len(),
{
    if digits.len() == 0 {
        0
    } else {
        decimal_value(digits.drop_last()) * 10 + (digits.last() as int - '0' as int)
    }
}

/// The number that `text` writes: an optional sign and then digits only, at
/// least one, for a value that an `i32` holds. Anything else writes none.
pub open spec fn parsed_i32(text: Seq<char>) -> Option<i32> {
    let signed = text.len() > 0 && (text[0] == '+' || text[0] == '-');
    let digits = if signed {
        text.drop_first()
    } else {
        text
    };
    let value = if signed && text[0] == '-' {
        -decimal_value(digits)
    } else {
        decimal_value(digits)
    };
    if digits.len() > 0 && (forall|i: int| 0 <= i < digits.len() ==> is_digit(#[trigger] digits[i]))
        && i32::MIN <= value <= i32::MAX {
        Some(value as i32)
    } else {
        None
    }
}

/// The answer to the guess `guess` when the secret number is `secret`.
pub open spec fn judged(guess: i32, secret: i32) -> Reply {
    if guess < secret {
        Reply::TooSmall(guess)
    } else if guess > secret {
        Reply::TooBig(guess)
    } else {
        Reply::Win(guess)
    }
}

/// The answer to a line whose trimmed form writes `number`.
pub open spec fn answered(number: Option<i32>, secret: i32) -> Reply {
    match number {
        Some(guess) => judged(guess, secret),
        None => Reply::NotANumber,
    }
}

/// `rand::random_range` on the inclusive range from `low` to `high`: some
/// number of that range, drawn from the thread's generator. An empty range
/// makes it panic and is left out.
#[verifier::external_body]
fn random_in(low: i32, high: i32) -> (n: i32)
    requires
        low <= high,
    ensures
        low <= n <= high,
{
    rand::random_range(low..=high)
}

/// `str::trim`: the slice of `text` between the white space at its two ends,
/// a function of `text` alone.
#[verifier::external_body]
fn str_trim<'a>(text: &'a str) -> (inner: &'a str)
    ensures
        inner@ == trimmed(text@),
{
    text.trim()
}

/// `str::parse` for `i32`: the number written by an optional sign and decimal
/// digits, if `text` is that and the number fits; an error otherwise, here `None`.
#[verifier::external_body]
fn str_parse_i32(text: &str) -> (number: Option<i32>)
    ensures
        number == parsed_i32(text@),
{
    text.parse::<i32>().ok()
}

/// Draws a secret number from `LOWEST` to `HIGHEST`.
pub fn pick_secret() -> (secret: i32)
    ensures
        LOWEST <= secret <= HIGHEST,
{
    random_in(LOWEST, HIGHEST)
}

/// Compares a guess with the secret number.
pub fn judge(guess: i32, secret: i32) -> (reply: Reply)
    ensures
        reply == judged(guess, secret),
{
    if guess < secret {
        Reply::TooSmall(guess)
    } else if guess > secret {
        Reply::TooBig(guess)
    } else {
        Reply::Win(guess)
    }
}

/// The answer to what was read from a line: none for a line that is no
/// number, else the judgement of the guess.
pub fn answer(number: Option<i32>, secret: i32) -> (reply: Reply)
    ensures
        reply == answered(number, secret),
{
    match number {
        Some(guess) => judge(guess, secret),
        None => Reply::NotANumber,
    }
}

/// Answers one line typed by the player: the line is trimmed and read as a
/// number, and the number is compared with the secret.
pub fn respond(line: &str, secret: i32) -> (reply: Reply)
    ensures
        reply == answered(parsed_i32(trimmed(line@)), secret),
{
    let number = str_parse_i32(str_trim(line));
    answer(number, secret)
}

} // verus!
