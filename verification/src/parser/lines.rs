//! The lines as a client writes them, in lower case and with numbers
//! without leading zeros, and what holds of a command once it is accepted.

use crate::decimal::{decimal_digits, lemma_decimal_round_trip};
use crate::frame::{crlf_at, is_first_frame};
use crate::parser::ascii::{parse_line, MAX_DIGITS};
use crate::parser::grammar::{
    get_parts, is_key, is_number, is_word, lemma_get_parts_are_parsed, lemma_set_parts_are_parsed,
    lemma_version_parts_are_parsed, set_parts, version_parts,
};
use crate::parser::{Command, ParseError};
use crate::text::ascii;
use vstd::prelude::*;

verus! {

/// The line of a set command.
pub open spec fn set_text(key: Seq<u8>, flag: u32, ttl: u32, len: u32, noreply: bool) -> Seq<u8> {
    set_parts(
        ascii("set"),
        key,
        decimal_digits(flag as nat),
        decimal_digits(ttl as nat),
        decimal_digits(len as nat),
        ascii("noreply"),
        noreply,
    )
}

/// The line of a get command.
pub open spec fn get_text(key: Seq<u8>) -> Seq<u8> {
    get_parts(ascii("get"), key)
}

/// The line of a version command.
pub open spec fn version_text() -> Seq<u8> {
    version_parts(ascii("version"))
}

/// Ten to the power `k`.
pub open spec fn pow10(k: nat) -> nat
    decreases k,
{
    if k == 0 {
        1
    } else {
        10 * pow10((k - 1) as nat)
    }
}

/// A number below ten to the `k` is written with at most `k` digits.
pub proof fn lemma_digits_len(n: nat, k: nat)
    requires
        k >= 1,
        n < pow10(k),
    ensures
        decimal_digits(n).len() <= k,
    decreases k,
{
    reveal_with_fuel(pow10, 2);
    if n >= 10 {
        assert(k >= 2);
        lemma_digits_len(n / 10, (k - 1) as nat);
    }
}

/// A number that a `u32` holds is written with at most ten digits.
pub proof fn lemma_u32_digits_len(n: u32)
    ensures
        1 <= decimal_digits(n as nat).len() <= MAX_DIGITS,
{
    assert(pow10(10) == 10_000_000_000) by {
        reveal_with_fuel(pow10, 11);
    }
    lemma_digits_len(n as nat, 10);
    lemma_decimal_round_trip(n as nat);
}

/// The digits that write a number are a number text for it.
pub proof fn lemma_digits_write_the_number(n: u32)
    ensures
        is_number(decimal_digits(n as nat), n),
{
    lemma_u32_digits_len(n);
    lemma_decimal_round_trip(n as nat);
}

/// A word spells itself.
pub proof fn lemma_word_spells_itself(word: Seq<u8>)
    ensures
        is_word(word, word),
{
}

/// The line of a set command is read as that command, with or without
/// `noreply`.
pub proof fn lemma_set_text_is_parsed(key: Seq<u8>, flag: u32, ttl: u32, len: u32, noreply: bool)
    requires
        is_key(key),
    ensures
        parse_line(set_text(key, flag, ttl, len, noreply)) == Ok::<(Command, int), ParseError>(
            (
                Command::CmdSet {
                    key,
                    flag,
                    ttl,
                    len,
                    noreply: if noreply {
                        Some(true)
                    } else {
                        None
                    },
                },
                set_text(key, flag, ttl, len, noreply).len() as int,
            ),
        ),
{
    lemma_digits_write_the_number(flag);
    lemma_digits_write_the_number(ttl);
    lemma_digits_write_the_number(len);
    lemma_word_spells_itself(ascii("set"));
    lemma_word_spells_itself(ascii("noreply"));
    lemma_set_parts_are_parsed(
        ascii("set"),
        key,
        decimal_digits(flag as nat),
        decimal_digits(ttl as nat),
        decimal_digits(len as nat),
        ascii("noreply"),
        flag,
        ttl,
        len,
        noreply,
        Seq::empty(),
    );
    assert(set_text(key, flag, ttl, len, noreply) + Seq::<u8>::empty() =~= set_text(
        key,
        flag,
        ttl,
        len,
        noreply,
    ));
}

/// The line of a get command for a key is read as that command.
pub proof fn lemma_get_text_is_parsed(key: Seq<u8>)
    requires
        is_key(key),
    ensures
        parse_line(get_text(key)) == Ok::<(Command, int), ParseError>(
            (Command::CmdGet { key }, get_text(key).len() as int),
        ),
{
    lemma_word_spells_itself(ascii("get"));
    lemma_get_parts_are_parsed(ascii("get"), key, Seq::empty());
    assert(get_text(key) + Seq::<u8>::empty() =~= get_text(key));
}

/// The line of a version command is read as the version command.
pub proof fn lemma_version_text_is_parsed()
    ensures
        parse_line(version_text()) == Ok::<(Command, int), ParseError>(
            (Command::CmdVersion, version_text().len() as int),
        ),
{
    lemma_word_spells_itself(ascii("version"));
    lemma_version_parts_are_parsed(ascii("version"), Seq::empty());
    assert(version_text() + Seq::<u8>::empty() =~= version_text());
}

/// A line that is a command ends in a terminator, and the command takes
/// the line through that terminator.
pub proof fn lemma_command_ends_in_terminator(s: Seq<u8>)
    requires
        parse_line(s) is Ok,
    ensures
        ({
            let taken: int = parse_line(s)->Ok_0.1;
            2 <= taken <= s.len() && crlf_at(s, taken - 2)
        }),
{
}

/// A frame that is a command is that command through its last byte: the
/// frame reader cuts a frame at its first terminator, and a command ends at
/// a terminator, so nothing of the frame is left over.
pub proof fn lemma_frame_is_parsed_whole(held: Seq<u8>, frame: Seq<u8>)
    requires
        is_first_frame(held, frame),
        parse_line(frame) is Ok,
    ensures
        parse_line(frame)->Ok_0.1 == frame.len(),
{
    lemma_command_ends_in_terminator(frame);
    let taken: int = parse_line(frame)->Ok_0.1;
    if taken < frame.len() {
        assert(crlf_at(held, taken - 2));
    }
}

} // verus!
