//! The rules of a game in which a player looks for a secret number from 1 to 100.
use rand::rngs::ThreadRng;
use rand::Rng;
use std::cmp::Ordering;
use vstd::prelude::*;

verus! {

/// Whether `c` is white space: a character with the Unicode property `White_Space`.
pub open spec fn is_space(c: char) -> bool {
    ||| '\u{9}' <= c <= '\u{d}'
    ||| c == ' '
    ||| c == '\u{85}'
    ||| c == '\u{a0}'
    ||| c == '\u{1680}'
    ||| '\u{2000}' <= c <= '\u{200a}'
    ||| c == '\u{2028}'
    ||| c == '\u{2029}'
    ||| c == '\u{202f}'
    ||| c == '\u{205f}'
    ||| c == '\u{3000}'
}

/// `s` without the white space it starts with.
pub open spec fn trim_start(s: Seq<char>) -> Seq<char>
    decreases s.len(),
{
    if s.len() > 0 && is_space(s[0]) {
        trim_start(s.drop_first())
    } else {
        s
    }
}

/// `s` without the white space it ends with.
pub open spec fn trim_end(s: Seq<char>) -> Seq<char>
    decreases s.len(),
{
    if s.len() > 0 && is_space(s.last()) {
        trim_end(s.drop_last())
    } else {
        s
    }
}

/// The value of the decimal digit `c`.
pub open spec fn digit(c: char) -> Option<int> {
    if '0' <= c <= '9' {
        Some(c as int - '0' as int)
    } else {
        None
    }
}

/// Whether `s` is made of decimal digits only.
pub open spec fn all_digits(s: Seq<char>) -> bool {
    forall|i: int| 0 <= i < s.len() ==> (#[trigger] digit(s[i])) is Some
}

/// The number that the decimal digits `s` write.
pub open spec fn decimal(s: Seq<char>) -> int
    decreases s.len(),
{
    if s.len() == 0 {
        0
    } else {
        decimal(s.drop_last()) * 10 + match digit(s.last()) {
            Some(d) => d,
            None => 0,
        }
    }
}

/// The number from 0 to 255 that `s` writes: an optional `+`, then one decimal digit or more.
pub open spec fn number(s: Seq<char>) -> Option<u8> {
    let digits = if s.len() > 0 && s[0] == '+' {
        s.drop_first()
    } else {
        s
    };
    if digits.len() > 0 && all_digits(digits) && decimal(digits) <= 255 {
        Some(decimal(digits) as u8)
    } else {
        None
    }
}

/// What the player's line says once the white space around it is gone.
pub open spec fn guess_of(line: Seq<char>) -> Option<u8> {
    number(trim_end(trim_start(line)))
}

/// What the game makes of a line of the player.
#[derive(Debug, PartialEq, Eq, Clone, Copy, Structural)]
pub enum Turn {
    /// The line is no number from 0 to 255. The player is asked again.
    Unreadable,
    /// The number is greater than 100. The player is asked again.
    OutOfRange,
    /// The guess is smaller than the secret number. The player is asked again.
    TooSmall,
    /// The guess is greater than the secret number. The player is asked again.
    TooBig,
    /// The guess is the secret number. The game ends.
    Found,
}

/// What the game makes of the guess that it read from a line, if it could read one.
pub open spec fn turn_of(secret_number: u8, guess: Option<u8>) -> Turn {
    match guess {
        None => Turn::Unreadable,
        Some(value) => if value > 100 {
            Turn::OutOfRange
        } else if value < secret_number {
            Turn::TooSmall
        } else if value > secret_number {
            Turn::TooBig
        } else {
            Turn::Found
        },
    }
}

/// The number that a start of a sequence of digits writes is at most the number that the
/// whole sequence writes.
proof fn lemma_decimal_grows(s: Seq<char>, k: int)
    requires
        0 <= k <= s.len(),
    ensures
        0 <= decimal(s.take(k)) <= decimal(s),
    decreases s.len(),
{
    if k == s.len() {
        assert(s.take(k) =~= s);
        if k > 0 {
            lemma_decimal_grows(s.drop_last(), k - 1);
        }
    } else {
        assert(s.drop_last().take(k) =~= s.take(k));
        lemma_decimal_grows(s.drop_last(), k);
    }
}

/// The random number generator of a thread, `rand::rngs::ThreadRng`. Nothing of what is
/// inside it is known here.
#[verifier::external_type_specification]
#[verifier::external_body]
pub struct ExThreadRng(rand::rngs::ThreadRng);

/// Calls `rand::thread_rng`, which hands out the generator of the current thread. Nothing is
/// claimed of the generator.
#[verifier::external_body]
fn thread_generator() -> ThreadRng {
    rand::thread_rng()
}

/// Calls `rand::Rng::gen_range` with the half-open range from `low` to `high`, which must
/// not be empty. The call gives a number of that range; which one it gives is left open.
#[verifier::external_body]
fn sample_between(generator: &mut ThreadRng, low: u8, high: u8) -> (n: u8)
    requires
        low < high,
    ensures
        low <= n < high,
{
    generator.gen_range(low..high)
}

/// Picks the secret number of a game at random: a number from 1 to 100.
pub fn pick_secret() -> (secret_number: u8)
    ensures
        1 <= secret_number <= 100,
{
    let mut generator = thread_generator();
    sample_between(&mut generator, 1, 101)
}

fn is_whitespace(c: char) -> (space: bool)
    ensures
        space == is_space(c),
{
    ('\u{9}' <= c && c <= '\u{d}') || c == ' ' || c == '\u{85}' || c == '\u{a0}' || c
        == '\u{1680}' || ('\u{2000}' <= c && c <= '\u{200a}') || c == '\u{2028}' || c
        == '\u{2029}' || c == '\u{202f}' || c == '\u{205f}' || c == '\u{3000}'
}

fn digit_value(c: char) -> (value: Option<u32>)
    ensures
        match value {
            Some(d) => digit(c) == Some(d as int),
            None => digit(c) is None,
        },
{
    match c {
        '0' => Some(0),
        '1' => Some(1),
        '2' => Some(2),
        '3' => Some(3),
        '4' => Some(4),
        '5' => Some(5),
        '6' => Some(6),
        '7' => Some(7),
        '8' => Some(8),
        '9' => Some(9),
        _ => None,
    }
}

/// Reads the player's guess from a line: the number from 0 to 255 that the line holds between
/// white space, written as an optional `+` and decimal digits. A line that holds anything
/// else gives `None`.
pub fn parse_guess(line: &str) -> (guess: Option<u8>)
    ensures
        guess == guess_of(line@),
{
    let mut chars: Vec<char> = Vec::new();
    for c in it: line.chars()
        invariant
            chars@ == it.seq().take(it.index()),
            it.seq() == line@,
    {
        chars.push(c);
        assert(it.seq().take(it.index() + 1) =~= it.seq().take(it.index()).push(c));
    }
    assert(line@.take(line@.len() as int) =~= line@);
    let ghost s = line@;
    let n: usize = chars.len();
    let mut a: usize = 0;
    assert(s.subrange(0, n as int) =~= s);
    while a < n && is_whitespace(chars[a])
        invariant
            0 <= a <= n,
            n == s.len(),
            chars@ == s,
            trim_start(s) == trim_start(s.subrange(a as int, n as int)),
        decreases n - a,
    {
        assert(s.subrange(a as int, n as int).drop_first() =~= s.subrange(a + 1, n as int));
        a += 1;
    }
    assert(trim_start(s) == s.subrange(a as int, n as int));
    let mut b: usize = n;
    while b > a && is_whitespace(chars[b - 1])
        invariant
            0 <= a <= b <= n,
            n == s.len(),
            chars@ == s,
            trim_end(s.subrange(a as int, n as int)) == trim_end(s.subrange(a as int, b as int)),
        decreases b,
    {
        assert(s.subrange(a as int, b as int).drop_last() =~= s.subrange(a as int, b - 1));
        b -= 1;
    }
    let ghost word = s.subrange(a as int, b as int);
    assert(trim_end(trim_start(s)) == word);
    let mut i: usize = a;
    if i < b && chars[i] == '+' {
        i += 1;
    }
    let ghost digits = s.subrange(i as int, b as int);
    assert(digits =~= if word.len() > 0 && word[0] == '+' {
        word.drop_first()
    } else {
        word
    });
    if i == b {
        return None;
    }
    let first: usize = i;
    let mut value: u32 = 0;
    assert(digits.take(0) =~= Seq::<char>::empty());
    while i < b
        invariant
            first <= i <= b <= n,
            n == s.len(),
            chars@ == s,
            digits == s.subrange(first as int, b as int),
            guess_of(line@) == (if digits.len() > 0 && all_digits(digits) && decimal(digits)
                <= 255 {
                Some(decimal(digits) as u8)
            } else {
                None
            }),
            all_digits(digits.take(i - first)),
            value == decimal(digits.take(i - first)),
            value <= 255,
        decreases b - i,
    {
        let ghost k = i - first;
        proof {
            assert(digits.take(k + 1).drop_last() =~= digits.take(k));
            assert(digits.take(k + 1).last() == s[i as int]);
            lemma_decimal_grows(digits, k + 1);
        }
        match digit_value(chars[i]) {
            None => {
                assert(digit(digits[k]) is None);
                return None;
            },
            Some(d) => {
                value = value * 10 + d;
                assert(value == decimal(digits.take(k + 1)));
                if value > 255 {
                    return None;
                }
                assert forall|j: int| 0 <= j < k + 1 implies (#[trigger] digit(
                    digits.take(k + 1)[j],
                )) is Some by {
                    if j < k {
                        assert(digits.take(k + 1)[j] == digits.take(k)[j]);
                    }
                }
            },
        }
        i += 1;
    }
    assert(digits.take(i - first) =~= digits);
    Some(value as u8)
}

/// Compares the specified arguments using `std::cmp::Ordering`.
/// Returns the ordering of the guess `input` compared to `secret_number`.
pub fn get_ordering(secret_number: u8, input: u8) -> (ordering: Ordering)
    ensures
        input < secret_number ==> ordering == Ordering::Less,
        input == secret_number ==> ordering == Ordering::Equal,
        input > secret_number ==> ordering == Ordering::Greater,
{
    match input.cmp(&secret_number) {
        Ordering::Equal => Ordering::Equal,
        Ordering::Greater => Ordering::Greater,
        Ordering::Less => Ordering::Less,
    }
}

/// The hint that the player is shown for the ordering of a guess compared to the secret
/// number.
pub fn result_message(result: Ordering) -> (text: &'static str)
    ensures
        result == Ordering::Less ==> text@ == "Your guess is too small!"@,
        result == Ordering::Greater ==> text@ == "Your guess is too big!"@,
        result == Ordering::Equal ==> text@ == "Congrats, you guessed right!"@,
{
    match result {
        Ordering::Less => "Your guess is too small!",
        Ordering::Greater => "Your guess is too big!",
        Ordering::Equal => "Congrats, you guessed right!",
    }
}

/// Returns `true` if the user has found the secret number, false otherwise.
pub fn has_found(result: Ordering) -> (found: bool)
    ensures
        found == (result == Ordering::Equal),
{
    match result {
        Ordering::Equal => true,
        _ => false,
    }
}

/// Decides one turn of the game from the line that the player has entered.
pub fn play_turn(secret_number: u8, line: &str) -> (turn: Turn)
    ensures
        turn == turn_of(secret_number, guess_of(line@)),
{
    match parse_guess(line) {
        None => Turn::Unreadable,
        Some(guess) => {
            if guess > 100 {
                Turn::OutOfRange
            } else {
                let result = get_ordering(secret_number, guess);
                if has_found(result) {
                    Turn::Found
                } else {
                    match result {
                        Ordering::Less => Turn::TooSmall,
                        _ => Turn::TooBig,
                    }
                }
            }
        },
    }
}

/// What the player is told after a turn.
pub fn turn_message(turn: Turn) -> (text: &'static str)
    ensures
        text@ == (match turn {
            Turn::Unreadable => "error: value cannot be parsed into a `u8`"@,
            Turn::OutOfRange => "Error: guess is greater than 100"@,
            Turn::TooSmall => "Your guess is too small!"@,
            Turn::TooBig => "Your guess is too big!"@,
            Turn::Found => "Congrats, you guessed right!"@,
        }),
{
    match turn {
        Turn::Unreadable => "error: value cannot be parsed into a `u8`",
        Turn::OutOfRange => "Error: guess is greater than 100",
        Turn::TooSmall => result_message(Ordering::Less),
        Turn::TooBig => result_message(Ordering::Greater),
        Turn::Found => result_message(Ordering::Equal),
    }
}

} // verus!
