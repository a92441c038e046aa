//! The parser of a command line.
//!
//! ```text
//! SET <key> <flags> <ttl> <bytes> [noreply]\r\n
//! GET <key>\r\n
//! VERSION\r\n
//! ```
//!
//! The command word and `noreply` are matched without regard to case. A key
//! is one or more printable ASCII characters other than the space. A number
//! is one to ten decimal digits that a `u32` holds. One space stands
//! between two fields and nowhere else.
//!
//! [`parse_line`] says how a line is read, from its first byte on. What the
//! lines that it accepts are made of is stated in [`crate::parser::grammar`],
//! with the proof that the two agree.

use crate::decimal::{decimal_value, is_decimal_u32, is_digit, is_digit_byte, read_decimal_u32};
use crate::frame::crlf_at;
use crate::parser::grammar::{
    begins_with_command_word, begins_with_line_of, is_line_of, lemma_parser_accepts_the_grammar,
};
use crate::parser::{Cmd, Command, ParseError};
use crate::text::{ascii, lower, text_bytes, to_lower};
use vstd::prelude::*;
use vstd::slice::{slice_subrange, slice_to_vec};

verus! {

/// The most digits a number may have.
pub const MAX_DIGITS: usize = 10;

/// A byte that may stand in a key: printable ASCII other than the space.
pub open spec fn key_char(c: u8) -> bool {
    32 < c < 127
}

/// Whether `chr` may stand in a key.
pub fn is_key_char(chr: u8) -> (b: bool)
    ensures
        b == key_char(chr),
{
    chr > 32 && chr < 127
}

/// The byte `b` stands at index `at` of `s`.
pub open spec fn byte_at(s: Seq<u8>, at: int, b: u8) -> bool {
    0 <= at < s.len() && s[at] == b
}

/// The bytes of `s` from index `at` on spell `word`, without regard to
/// case.
pub open spec fn word_at(s: Seq<u8>, at: int, word: Seq<u8>) -> bool {
    &&& 0 <= at
    &&& at + word.len() <= s.len()
    &&& forall|i: int| 0 <= i < word.len() ==> lower(#[trigger] s[at + i]) == lower(word[i])
}

/// How many key characters stand in a row from index `from` of `s` on.
pub open spec fn key_run(s: Seq<u8>, from: int) -> nat
    decreases s.len() - from,
{
    if 0 <= from < s.len() && key_char(s[from]) {
        1 + key_run(s, from + 1)
    } else {
        0
    }
}

/// How many digits stand in a row from index `from` of `s` on.
pub open spec fn digit_run(s: Seq<u8>, from: int) -> nat
    decreases s.len() - from,
{
    if 0 <= from < s.len() && is_digit(s[from]) {
        1 + digit_run(s, from + 1)
    } else {
        0
    }
}

/// How many bytes the number at index `at` of `s` takes: the digits in a
/// row there, and no more than [`MAX_DIGITS`] of them.
pub open spec fn number_len(s: Seq<u8>, at: int) -> nat {
    if digit_run(s, at) <= MAX_DIGITS {
        digit_run(s, at)
    } else {
        MAX_DIGITS as nat
    }
}

/// The number at index `at` of `s`, when its digits write one that a `u32`
/// holds.
pub open spec fn number_at(s: Seq<u8>, at: int) -> Option<u32> {
    let digits = s.subrange(at, at + number_len(s, at));
    if 0 <= at <= s.len() && is_decimal_u32(digits) {
        Some(decimal_value(digits) as u32)
    } else {
        None
    }
}

/// The set command that `s` holds after its command word, which ends at
/// index `at`, and the number of bytes of `s` that the line takes.
pub open spec fn set_line(s: Seq<u8>, at: int) -> Option<(Command, int)> {
    let key_start: int = at + 1;
    let key_end: int = key_start + key_run(s, key_start);
    let flag_start: int = key_end + 1;
    let flag_end: int = flag_start + number_len(s, flag_start);
    let ttl_start: int = flag_end + 1;
    let ttl_end: int = ttl_start + number_len(s, ttl_start);
    let len_start: int = ttl_end + 1;
    let len_end: int = len_start + number_len(s, len_start);
    let noreply = byte_at(s, len_end, 32) && word_at(s, len_end + 1, ascii("noreply"));
    let end: int = if noreply {
        len_end + 1 + ascii("noreply").len() as int
    } else {
        len_end
    };
    let well_formed = {
        &&& byte_at(s, at, 32)
        &&& key_start < key_end
        &&& byte_at(s, key_end, 32)
        &&& number_at(s, flag_start) is Some
        &&& byte_at(s, flag_end, 32)
        &&& number_at(s, ttl_start) is Some
        &&& byte_at(s, ttl_end, 32)
        &&& number_at(s, len_start) is Some
        &&& crlf_at(s, end)
    };
    if well_formed {
        Some(
            (
                Command::CmdSet {
                    key: s.subrange(key_start, key_end),
                    flag: number_at(s, flag_start).unwrap(),
                    ttl: number_at(s, ttl_start).unwrap(),
                    len: number_at(s, len_start).unwrap(),
                    noreply: if noreply {
                        Some(true)
                    } else {
                        None
                    },
                },
                end + 2,
            ),
        )
    } else {
        None
    }
}

/// The get command that `s` holds after its command word, which ends at
/// index `at`, and the number of bytes of `s` that the line takes.
pub open spec fn get_line(s: Seq<u8>, at: int) -> Option<(Command, int)> {
    let key_start: int = at + 1;
    let key_end: int = key_start + key_run(s, key_start);
    if byte_at(s, at, 32) && key_start < key_end && crlf_at(s, key_end) {
        Some((Command::CmdGet { key: s.subrange(key_start, key_end) }, key_end + 2))
    } else {
        None
    }
}

/// The version command that `s` holds after its command word, which ends
/// at index `at`, and the number of bytes of `s` that the line takes.
pub open spec fn version_line(s: Seq<u8>, at: int) -> Option<(Command, int)> {
    if crlf_at(s, at) {
        Some((Command::CmdVersion, at + 2))
    } else {
        None
    }
}

/// A line that starts with a command word is that command or malformed.
pub open spec fn command_or_malformed(
    line: Option<(Command, int)>,
) -> Result<(Command, int), ParseError> {
    match line {
        Some(parsed) => Ok(parsed),
        None => Err(ParseError::Malformed),
    }
}

/// The command at the start of `s` with the number of bytes its line takes,
/// or why `s` starts with no command.
pub open spec fn parse_line(s: Seq<u8>) -> Result<(Command, int), ParseError> {
    if s.len() == 0 {
        Err(ParseError::Empty)
    } else if word_at(s, 0, ascii("set")) {
        command_or_malformed(set_line(s, ascii("set").len() as int))
    } else if word_at(s, 0, ascii("get")) {
        command_or_malformed(get_line(s, ascii("get").len() as int))
    } else if word_at(s, 0, ascii("version")) {
        command_or_malformed(version_line(s, ascii("version").len() as int))
    } else {
        Err(ParseError::UnknownCommand)
    }
}

/// Whether `word` stands at index `at` of `buf`, without regard to case.
fn has_word(buf: &[u8], at: usize, word: &[u8]) -> (b: bool)
    ensures
        b == word_at(buf@, at as int, word@),
{
    let n: usize = word.len();
    let total: usize = buf.len();
    if at > total || n > total - at {
        return false;
    }
    let mut i: usize = 0;
    while i < n
        invariant
            n == word@.len(),
            total == buf@.len(),
            at + n <= total,
            i <= n,
            forall|j: int| 0 <= j < i ==> lower(#[trigger] buf@[at + j]) == lower(word@[j]),
        decreases n - i,
    {
        if to_lower(buf[at + i]) != to_lower(word[i]) {
            return false;
        }
        i = i + 1;
    }
    true
}

/// Whether the byte `b` stands at index `at` of `buf`.
fn has_byte(buf: &[u8], at: usize, b: u8) -> (yes: bool)
    ensures
        yes == byte_at(buf@, at as int, b),
{
    at < buf.len() && buf[at] == b
}

/// Whether a terminator stands at index `at` of `buf`.
fn has_crlf(buf: &[u8], at: usize) -> (yes: bool)
    ensures
        yes == crlf_at(buf@, at as int),
{
    at < buf.len() && buf.len() - at >= 2 && buf[at] == 13u8 && buf[at + 1] == 10u8
}

/// The index at which the key characters that start at `from` end.
fn key_end(buf: &[u8], from: usize) -> (end: usize)
    ensures
        end == from + key_run(buf@, from as int),
        end <= buf@.len() || end == from,
{
    let mut i: usize = from;
    while i < buf.len() && is_key_char(buf[i])
        invariant
            from <= i,
            i <= buf@.len() || i == from,
            key_run(buf@, from as int) == (i - from) + key_run(buf@, i as int),
        decreases buf@.len() - i,
    {
        i = i + 1;
    }
    i
}

/// The index at which the number that starts at `from` ends.
fn number_end(buf: &[u8], from: usize) -> (end: usize)
    ensures
        end == from + number_len(buf@, from as int),
        end <= buf@.len() || end == from,
{
    let mut i: usize = from;
    let mut taken: usize = 0;
    while taken < MAX_DIGITS && i < buf.len() && is_digit_byte(buf[i])
        invariant
            from <= i,
            i <= buf@.len() || i == from,
            taken == i - from,
            taken <= MAX_DIGITS,
            digit_run(buf@, from as int) == taken + digit_run(buf@, i as int),
        decreases MAX_DIGITS - taken,
    {
        i = i + 1;
        taken = taken + 1;
    }
    i
}

/// Reads the number at index `at` of `buf` and returns it with the index
/// at which it ends.
fn parse_ascii_u32(buf: &[u8], at: usize) -> (parsed: Option<(u32, usize)>)
    ensures
        match parsed {
            Some((n, end)) => number_at(buf@, at as int) == Some(n) && end == at + number_len(
                buf@,
                at as int,
            ) && end <= buf@.len(),
            None => number_at(buf@, at as int) is None,
        },
{
    if at > buf.len() {
        return None;
    }
    let end: usize = number_end(buf, at);
    match read_decimal_u32(slice_subrange(buf, at, end)) {
        Some(n) => Some((n, end)),
        None => None,
    }
}

/// Reads the rest of a set command, whose command word ends at index `at`
/// of `buf`, and returns it with the number of bytes the line takes.
fn parse_set(buf: &[u8], at: usize) -> (line: Option<(Cmd, usize)>)
    ensures
        match line {
            Some((cmd, taken)) => set_line(buf@, at as int) == Some((cmd@, taken as int)) && taken
                <= buf@.len(),
            None => set_line(buf@, at as int) is None,
        },
{
    let total: usize = buf.len();
    if at >= total {
        return None;
    }
    if !has_byte(buf, at, 32) {
        return None;
    }
    let key_start: usize = at + 1;
    let key_stop: usize = key_end(buf, key_start);
    if key_stop == key_start || !has_byte(buf, key_stop, 32) {
        return None;
    }
    let (flag, flag_end): (u32, usize) = match parse_ascii_u32(buf, key_stop + 1) {
        Some(number) => number,
        None => {
            return None;
        },
    };
    if !has_byte(buf, flag_end, 32) {
        return None;
    }
    let (ttl, ttl_end): (u32, usize) = match parse_ascii_u32(buf, flag_end + 1) {
        Some(number) => number,
        None => {
            return None;
        },
    };
    if !has_byte(buf, ttl_end, 32) {
        return None;
    }
    let (len, len_end): (u32, usize) = match parse_ascii_u32(buf, ttl_end + 1) {
        Some(number) => number,
        None => {
            return None;
        },
    };
    proof {
        reveal_strlit("noreply");
    }
    let silent: bool = has_byte(buf, len_end, 32) && has_word(
        buf,
        len_end + 1,
        text_bytes("noreply"),
    );
    let end: usize = if silent {
        len_end + 8
    } else {
        len_end
    };
    if !has_crlf(buf, end) {
        return None;
    }
    let key: Vec<u8> = slice_to_vec(slice_subrange(buf, key_start, key_stop));
    let noreply: Option<bool> = if silent {
        Some(true)
    } else {
        None
    };
    Some((Cmd::CmdSet { key, flag, ttl, len, noreply }, end + 2))
}

/// Reads the rest of a get command, whose command word ends at index `at`
/// of `buf`, and returns it with the number of bytes the line takes.
fn parse_get(buf: &[u8], at: usize) -> (line: Option<(Cmd, usize)>)
    ensures
        match line {
            Some((cmd, taken)) => get_line(buf@, at as int) == Some((cmd@, taken as int)) && taken
                <= buf@.len(),
            None => get_line(buf@, at as int) is None,
        },
{
    let total: usize = buf.len();
    if at >= total {
        return None;
    }
    if !has_byte(buf, at, 32) {
        return None;
    }
    let key_start: usize = at + 1;
    let key_stop: usize = key_end(buf, key_start);
    if key_stop == key_start || !has_crlf(buf, key_stop) {
        return None;
    }
    let key: Vec<u8> = slice_to_vec(slice_subrange(buf, key_start, key_stop));
    Some((Cmd::CmdGet { key }, key_stop + 2))
}

/// Reads the rest of a version command, whose command word ends at index
/// `at` of `buf`, and returns it with the number of bytes the line takes.
fn parse_version(buf: &[u8], at: usize) -> (line: Option<(Cmd, usize)>)
    ensures
        match line {
            Some((cmd, taken)) => version_line(buf@, at as int) == Some((cmd@, taken as int))
                && taken <= buf@.len(),
            None => version_line(buf@, at as int) is None,
        },
{
    let total: usize = buf.len();
    if at >= total {
        return None;
    }
    if !has_crlf(buf, at) {
        return None;
    }
    Some((Cmd::CmdVersion, at + 2))
}

/// Hands on what a command's own parser found, with the bytes of `buf`
/// that follow the line.
fn finish<'a>(
    buf: &'a [u8],
    line: Option<(Cmd, usize)>,
) -> (parsed: Result<(&'a [u8], Cmd), ParseError>)
    requires
        line matches Some((_, taken)) ==> taken <= buf@.len(),
    ensures
        match parsed {
            Ok((rest, cmd)) => line matches Some((found, taken)) && cmd == found && rest@
                == buf@.skip(taken as int),
            Err(e) => line is None && e == ParseError::Malformed,
        },
{
    match line {
        Some((cmd, taken)) => Ok((slice_subrange(buf, taken, buf.len()), cmd)),
        None => Err(ParseError::Malformed),
    }
}

/// Parses the command line at the start of `buf` and returns the command
/// with the bytes that follow the line.
///
/// The result is a command exactly when `buf` begins with a line of the
/// grammar, and then it is the command of that line. Otherwise the error
/// is `Empty` for no bytes at all, `UnknownCommand` when `buf` begins with
/// none of the command words, and `Malformed` when it begins with one and
/// does not go on as a line of the grammar. The same result is given, step
/// by step, by [`parse_line`].
pub fn parse_ascii_cmd(buf: &[u8]) -> (parsed: Result<(&[u8], Cmd), ParseError>)
    ensures
        match parsed {
            Ok((rest, cmd)) => {
                &&& rest@.len() <= buf@.len()
                &&& is_line_of(buf@.take(buf@.len() - rest@.len()), cmd@)
                &&& rest@ == buf@.skip(buf@.len() - rest@.len())
            },
            Err(ParseError::Empty) => buf@.len() == 0,
            Err(ParseError::UnknownCommand) => buf@.len() > 0 && !begins_with_command_word(buf@),
            Err(ParseError::Malformed) => begins_with_command_word(buf@) && forall|command: Command|
                !#[trigger] begins_with_line_of(buf@, command),
        },
        forall|command: Command| #[trigger]
            begins_with_line_of(buf@, command) ==> (parsed matches Ok((_, cmd)) && cmd@
                == command),
        match parsed {
            Ok((rest, cmd)) => parse_line(buf@) matches Ok((command, taken)) && cmd@ == command
                && rest@ == buf@.skip(taken),
            Err(e) => parse_line(buf@) matches Err(expected) && e == expected,
        },
{
    proof {
        lemma_parser_accepts_the_grammar(buf@);
    }
    if buf.len() == 0 {
        return Err(ParseError::Empty);
    }
    proof {
        reveal_strlit("set");
        reveal_strlit("get");
        reveal_strlit("version");
    }
    if has_word(buf, 0, text_bytes("set")) {
        finish(buf, parse_set(buf, 3))
    } else if has_word(buf, 0, text_bytes("get")) {
        finish(buf, parse_get(buf, 3))
    } else if has_word(buf, 0, text_bytes("version")) {
        finish(buf, parse_version(buf, 7))
    } else {
        Err(ParseError::UnknownCommand)
    }
}

} // verus!
