//! The commands of the duplicate-resolution prompt and how a line of input is
//! read as one.

use crate::text::{
    chars_of, find_trim_end, find_word_end, find_word_start, parse_index, read_index, trimmed,
    word_at, word_end,
};
use vstd::prelude::*;
use vstd::string::{StrSliceExecFns, StringExecFns};

verus! {

/// What the user asks for at the prompt. The number of `Keep` and `Preview`
/// is the one typed, counted from one and not yet held against the group; it
/// is absent when none was typed or what was typed is no number.
#[derive(Clone, Copy, Debug, PartialEq, Eq)]
pub enum Command {
    Keep(Option<usize>),
    KeepNewest,
    KeepOldest,
    Preview(Option<usize>),
    Skip,
    Quit,
    Blank,
    Unknown,
}

/// The command that a line of input stands for. The first word selects it,
/// the second is its number, and further words are not looked at.
pub open spec fn command_of(line: Seq<char>) -> Command {
    let word = word_at(line, 0);
    let arg = word_at(line, word_end(line, 0));
    if word.len() == 0 {
        Command::Blank
    } else if word == seq!['k'] {
        Command::Keep(parse_index(arg))
    } else if word == seq!['k', 'n'] {
        Command::KeepNewest
    } else if word == seq!['k', 'o'] {
        Command::KeepOldest
    } else if word == seq!['p'] {
        Command::Preview(parse_index(arg))
    } else if word == seq!['s'] {
        Command::Skip
    } else if word == seq!['q'] {
        Command::Quit
    } else {
        Command::Unknown
    }
}

/// Reads a line of input as a command.
pub fn parse_command(line: &str) -> (c: Command)
    ensures
        c == command_of(line@),
{
    let chars = chars_of(line);
    let a = find_word_start(&chars, 0);
    let b = find_word_end(&chars, a);
    let a2 = find_word_start(&chars, b);
    let b2 = find_word_end(&chars, a2);
    let ghost word = word_at(line@, 0);
    assert(word == chars@.subrange(a as int, b as int));
    assert(word_at(line@, word_end(line@, 0)) == chars@.subrange(a2 as int, b2 as int));
    let n = b - a;
    if n == 0 {
        Command::Blank
    } else if n == 1 {
        let c0 = chars[a];
        assert(word =~= seq![c0]);
        assert(seq![c0][0] == c0);
        if c0 == 'k' {
            Command::Keep(read_index(&chars, a2, b2))
        } else if c0 == 'p' {
            Command::Preview(read_index(&chars, a2, b2))
        } else if c0 == 's' {
            Command::Skip
        } else if c0 == 'q' {
            Command::Quit
        } else {
            assert(seq!['k'][0] == 'k' && seq!['p'][0] == 'p' && seq!['s'][0] == 's' && seq!['q'][0]
                == 'q');
            Command::Unknown
        }
    } else if n == 2 {
        let c0 = chars[a];
        let c1 = chars[a + 1];
        assert(word =~= seq![c0, c1]);
        assert(seq![c0, c1][1] == c1 && seq![c0, c1][0] == c0);
        if c0 == 'k' && c1 == 'n' {
            Command::KeepNewest
        } else if c0 == 'k' && c1 == 'o' {
            Command::KeepOldest
        } else {
            assert(seq!['k', 'n'][0] == 'k' && seq!['k', 'n'][1] == 'n');
            assert(seq!['k', 'o'][0] == 'k' && seq!['k', 'o'][1] == 'o');
            Command::Unknown
        }
    } else {
        Command::Unknown
    }
}

/// The first word of a line: what an unknown command is reported as.
pub fn command_word(line: &str) -> (w: String)
    ensures
        w@ == word_at(line@, 0),
{
    let chars = chars_of(line);
    let a = find_word_start(&chars, 0);
    let b = find_word_end(&chars, a);
    String::from_str(line.substring_char(a, b))
}

/// Whether `c` is the letter `lower`, in either case.
pub open spec fn is_letter(c: char, lower: char) -> bool {
    c == lower || c as u32 + 32 == lower as u32
}

/// An answer that confirms: `y` or `yes`, in any mix of upper and lower case,
/// with white space allowed around it.
pub open spec fn affirmative(answer: Seq<char>) -> bool {
    let t = trimmed(answer);
    ||| t.len() == 1 && is_letter(t[0], 'y')
    ||| t.len() == 3 && is_letter(t[0], 'y') && is_letter(t[1], 'e') && is_letter(t[2], 's')
}

/// Whether `c` is the letter `lower`, in either case.
pub fn letter_matches(c: char, lower: char) -> (r: bool)
    ensures
        r == is_letter(c, lower),
{
    c == lower || c as u32 + 32 == lower as u32
}

/// Whether an answer to a yes-or-no question confirms.
pub fn is_affirmative(answer: &str) -> (r: bool)
    ensures
        r == affirmative(answer@),
{
    let chars = chars_of(answer);
    let lo = find_word_start(&chars, 0);
    let hi = find_trim_end(&chars, lo, chars.len());
    let n = hi - lo;
    assert(trimmed(answer@) == chars@.subrange(lo as int, hi as int));
    if n == 1 {
        letter_matches(chars[lo], 'y')
    } else if n == 3 {
        letter_matches(chars[lo], 'y') && letter_matches(chars[lo + 1], 'e') && letter_matches(
            chars[lo + 2],
            's',
        )
    } else {
        false
    }
}

} // verus!
