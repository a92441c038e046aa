//! The form of a command line, stated as what the line is made of, and the
//! proof that the parser accepts the lines of this form and no others.
//!
//! ```text
//! set-line     = "set" SP key SP number SP number SP number [SP "noreply"] CRLF
//! get-line     = "get" SP key CRLF
//! version-line = "version" CRLF
//! ```
//!
//! The words in quotes are matched without regard to case.

use crate::decimal::{decimal_value, is_decimal_u32, is_digit};
use crate::frame::{crlf_at, is_first_frame};
use crate::parser::ascii::{
    byte_at, digit_run, get_line, key_char, key_run, number_at, number_len, parse_line, set_line,
    version_line, word_at, MAX_DIGITS,
};
use crate::parser::{Command, ParseError};
use crate::text::{ascii, lower};
use vstd::prelude::*;

verus! {

/// `text` spells `word`, without regard to case.
pub open spec fn is_word(text: Seq<u8>, word: Seq<u8>) -> bool {
    text.len() == word.len() && forall|i: int|
        0 <= i < word.len() ==> lower(#[trigger] text[i]) == lower(word[i])
}

/// `key` may stand in a command: it is not empty and each of its bytes is
/// a key character.
pub open spec fn is_key(key: Seq<u8>) -> bool {
    key.len() > 0 && forall|i: int| 0 <= i < key.len() ==> key_char(#[trigger] key[i])
}

/// `text` writes the number `n`: one to ten decimal digits whose value is
/// `n`.
pub open spec fn is_number(text: Seq<u8>, n: u32) -> bool {
    text.len() <= MAX_DIGITS && is_decimal_u32(text) && decimal_value(text) == n
}

/// The space that separates two fields.
pub open spec fn space() -> Seq<u8> {
    seq![32u8]
}

/// The terminator of a line.
pub open spec fn end_of_line() -> Seq<u8> {
    seq![13u8, 10u8]
}

/// What follows the last number of a set line: the terminator, after a
/// space and the word `word` when the client asks for no reply.
pub open spec fn set_end(word: Seq<u8>, noreply: bool) -> Seq<u8> {
    if noreply {
        space() + word + end_of_line()
    } else {
        end_of_line()
    }
}

/// The set line made of these parts.
pub open spec fn set_parts(
    word: Seq<u8>,
    key: Seq<u8>,
    flag: Seq<u8>,
    ttl: Seq<u8>,
    len: Seq<u8>,
    quiet: Seq<u8>,
    noreply: bool,
) -> Seq<u8> {
    word + space() + key + space() + flag + space() + ttl + space() + len + set_end(quiet, noreply)
}

/// The get line made of these parts.
pub open spec fn get_parts(word: Seq<u8>, key: Seq<u8>) -> Seq<u8> {
    word + space() + key + end_of_line()
}

/// The version line made of this word.
pub open spec fn version_parts(word: Seq<u8>) -> Seq<u8> {
    word + end_of_line()
}

/// `line` is a set line for this key, flag, time-to-live and length, with
/// `noreply` or without it.
pub open spec fn is_set_line(
    line: Seq<u8>,
    key: Seq<u8>,
    flag: u32,
    ttl: u32,
    len: u32,
    noreply: bool,
) -> bool {
    exists|word: Seq<u8>, f: Seq<u8>, t: Seq<u8>, l: Seq<u8>, quiet: Seq<u8>|
        line == #[trigger] set_parts(word, key, f, t, l, quiet, noreply) && is_word(
            word,
            ascii("set"),
        ) && is_key(key) && is_number(f, flag) && is_number(t, ttl) && is_number(l, len)
            && is_word(quiet, ascii("noreply"))
}

/// `line` is a get line for this key.
pub open spec fn is_get_line(line: Seq<u8>, key: Seq<u8>) -> bool {
    exists|word: Seq<u8>|
        line == #[trigger] get_parts(word, key) && is_word(word, ascii("get")) && is_key(key)
}

/// `line` is a version line.
pub open spec fn is_version_line(line: Seq<u8>) -> bool {
    exists|word: Seq<u8>| line == #[trigger] version_parts(word) && is_word(word, ascii("version"))
}

/// `line` is the line of `command`. A set command holds `Some(true)` for a
/// line with `noreply` and `None` for one without.
pub open spec fn is_line_of(line: Seq<u8>, command: Command) -> bool {
    match command {
        Command::CmdSet { key, flag, ttl, len, noreply } => (noreply is None || noreply == Some(
            true,
        )) && is_set_line(line, key, flag, ttl, len, noreply is Some),
        Command::CmdGet { key } => is_get_line(line, key),
        Command::CmdVersion => is_version_line(line),
    }
}

/// `s` begins with the line of `command`: what follows the line is not
/// looked at.
pub open spec fn begins_with_line_of(s: Seq<u8>, command: Command) -> bool {
    exists|n: int| 0 <= n <= s.len() && is_line_of(#[trigger] s.take(n), command)
}

/// `s` begins with one of the three command words.
pub open spec fn begins_with_command_word(s: Seq<u8>) -> bool {
    word_at(s, 0, ascii("set")) || word_at(s, 0, ascii("get")) || word_at(s, 0, ascii("version"))
}

/// The bytes of `part` stand in `s` from index `at` on.
pub open spec fn holds_at(s: Seq<u8>, at: int, part: Seq<u8>) -> bool {
    0 <= at && at + part.len() <= s.len() && s.subrange(at, at + part.len()) == part
}

/// A part of a sequence stands where what comes before it ends.
proof fn lemma_part(before: Seq<u8>, part: Seq<u8>, after: Seq<u8>)
    ensures
        holds_at(before + part + after, before.len() as int, part),
{
    let s = before + part + after;
    assert(s.subrange(before.len() as int, before.len() as int + part.len()) =~= part);
}

/// Each byte of a part that stands in `s` is found at its place.
proof fn lemma_byte_of_part(s: Seq<u8>, at: int, part: Seq<u8>, i: int)
    requires
        holds_at(s, at, part),
        0 <= i < part.len(),
    ensures
        s[at + i] == part[i],
{
    assert(s[at + i] == s.subrange(at, at + part.len())[i]);
}

/// Key characters that stand in a row and are followed by another byte, or
/// by nothing, are a run of their number.
pub proof fn lemma_key_run(s: Seq<u8>, from: int, n: nat)
    requires
        0 <= from,
        from + n <= s.len(),
        forall|i: int| from <= i < from + n ==> key_char(#[trigger] s[i]),
        from + n == s.len() || !key_char(s[from + n]),
    ensures
        key_run(s, from) == n,
    decreases n,
{
    if n > 0 {
        lemma_key_run(s, from + 1, (n - 1) as nat);
    }
}

/// Digits that stand in a row and are followed by another byte, or by
/// nothing, are a run of their number.
pub proof fn lemma_digit_run(s: Seq<u8>, from: int, n: nat)
    requires
        0 <= from,
        from + n <= s.len(),
        forall|i: int| from <= i < from + n ==> is_digit(#[trigger] s[i]),
        from + n == s.len() || !is_digit(s[from + n]),
    ensures
        digit_run(s, from) == n,
    decreases n,
{
    if n > 0 {
        lemma_digit_run(s, from + 1, (n - 1) as nat);
    }
}

/// A run of key characters lies within the sequence and holds key
/// characters only.
pub proof fn lemma_key_run_holds_key_chars(s: Seq<u8>, from: int)
    requires
        0 <= from,
    ensures
        from + key_run(s, from) <= s.len() || key_run(s, from) == 0,
        forall|i: int| from <= i < from + key_run(s, from) ==> key_char(#[trigger] s[i]),
    decreases s.len() - from,
{
    if from < s.len() && key_char(s[from]) {
        lemma_key_run_holds_key_chars(s, from + 1);
    }
}

/// A run of digits lies within the sequence.
pub proof fn lemma_digit_run_is_within(s: Seq<u8>, from: int)
    requires
        0 <= from,
    ensures
        from + digit_run(s, from) <= s.len() || digit_run(s, from) == 0,
    decreases s.len() - from,
{
    if from < s.len() && is_digit(s[from]) {
        lemma_digit_run_is_within(s, from + 1);
    }
}

/// Where `s` holds a text that writes `n` from index `at` on, followed by
/// a space or a carriage return, the number at `at` is `n` and takes that
/// text.
proof fn lemma_number_in_line(s: Seq<u8>, at: int, text: Seq<u8>, n: u32, next: Seq<u8>)
    requires
        is_number(text, n),
        holds_at(s, at, text),
        holds_at(s, at + text.len(), next),
        next.len() > 0,
        next[0] == 32u8 || next[0] == 13u8,
    ensures
        number_len(s, at) == text.len(),
        number_at(s, at) == Some(n),
        s[at + text.len()] == next[0],
{
    lemma_byte_of_part(s, at + text.len(), next, 0);
    assert forall|i: int| at <= i < at + text.len() implies is_digit(#[trigger] s[i]) by {
        lemma_byte_of_part(s, at, text, i - at);
    }
    lemma_digit_run(s, at, text.len());
}

/// The number at index `at` of `s`, when there is one, is written by the
/// bytes it takes.
proof fn lemma_number_text(s: Seq<u8>, at: int)
    requires
        number_at(s, at) is Some,
    ensures
        at + number_len(s, at) <= s.len(),
        is_number(s.subrange(at, at + number_len(s, at)), number_at(s, at).unwrap()),
{
    lemma_digit_run_is_within(s, at);
}

/// Two neighbouring ranges of a sequence join to one range.
proof fn lemma_join(s: Seq<u8>, from: int, mid: int, to: int)
    requires
        0 <= from <= mid <= to <= s.len(),
    ensures
        s.subrange(from, mid) + s.subrange(mid, to) == s.subrange(from, to),
{
    assert(s.subrange(from, mid) + s.subrange(mid, to) =~= s.subrange(from, to));
}

/// A range of one byte is that byte.
proof fn lemma_one_byte(s: Seq<u8>, at: int, b: u8)
    requires
        byte_at(s, at, b),
    ensures
        s.subrange(at, at + 1) == seq![b],
{
    assert(s.subrange(at, at + 1) =~= seq![b]);
}

/// The range of a terminator is the terminator.
proof fn lemma_terminator(s: Seq<u8>, at: int)
    requires
        crlf_at(s, at),
    ensures
        s.subrange(at, at + 2) == end_of_line(),
{
    assert(s.subrange(at, at + 2) =~= end_of_line());
}

/// The range of a word that stands in `s` spells the word.
proof fn lemma_word_text(s: Seq<u8>, at: int, word: Seq<u8>)
    requires
        word_at(s, at, word),
    ensures
        is_word(s.subrange(at, at + word.len()), word),
{
    let text = s.subrange(at, at + word.len());
    assert forall|i: int| 0 <= i < word.len() implies lower(#[trigger] text[i]) == lower(
        word[i],
    ) by {
        assert(text[i] == s[at + i]);
    }
}

/// A word that stands at the start of a part of `s` stands in `s`.
proof fn lemma_word_in_line(s: Seq<u8>, at: int, text: Seq<u8>, from: int, word: Seq<u8>)
    requires
        holds_at(s, at, text),
        0 <= from,
        from + word.len() <= text.len(),
        is_word(text.subrange(from, from + word.len()), word),
    ensures
        word_at(s, at + from, word),
{
    let spelled = text.subrange(from, from + word.len());
    assert forall|i: int| 0 <= i < word.len() implies lower(#[trigger] s[at + from + i]) == lower(
        word[i],
    ) by {
        lemma_byte_of_part(s, at, text, from + i);
        assert(spelled[i] == text[from + i]);
    }
}

/// Where the parts of a set line stand in it.
spec fn set_layout(
    s: Seq<u8>,
    word: Seq<u8>,
    key: Seq<u8>,
    f: Seq<u8>,
    t: Seq<u8>,
    l: Seq<u8>,
    tail: Seq<u8>,
) -> bool {
    let key_end: int = 4int + key.len();
    let flag_end: int = key_end + 1 + f.len();
    let ttl_end: int = flag_end + 1 + t.len();
    let len_end: int = ttl_end + 1 + l.len();
    &&& word.len() == 3
    &&& holds_at(s, 0, word)
    &&& holds_at(s, 3, space())
    &&& holds_at(s, 4, key)
    &&& holds_at(s, key_end, space())
    &&& holds_at(s, key_end + 1, f)
    &&& holds_at(s, flag_end, space())
    &&& holds_at(s, flag_end + 1, t)
    &&& holds_at(s, ttl_end, space())
    &&& holds_at(s, ttl_end + 1, l)
    &&& holds_at(s, len_end, tail)
}

/// The parts of a set line stand in it one after the other.
proof fn lemma_set_layout(
    word: Seq<u8>,
    key: Seq<u8>,
    f: Seq<u8>,
    t: Seq<u8>,
    l: Seq<u8>,
    tail: Seq<u8>,
    rest: Seq<u8>,
)
    requires
        word.len() == 3,
    ensures
        set_layout(
            word + space() + key + space() + f + space() + t + space() + l + tail + rest,
            word,
            key,
            f,
            t,
            l,
            tail,
        ),
{
    let sp = space();
    let s = word + sp + key + sp + f + sp + t + sp + l + tail + rest;
    let none = Seq::<u8>::empty();
    let key_end: int = 4int + key.len();
    let flag_end: int = key_end + 1 + f.len();
    let ttl_end: int = flag_end + 1 + t.len();
    let len_end: int = ttl_end + 1 + l.len();
    assert(holds_at(s, 0, word)) by {
        let after = sp + key + sp + f + sp + t + sp + l + tail + rest;
        assert(s =~= none + word + after);
        lemma_part(none, word, after);
    }
    assert(holds_at(s, 3, sp)) by {
        let after = key + sp + f + sp + t + sp + l + tail + rest;
        assert(s =~= word + sp + after);
        lemma_part(word, sp, after);
    }
    assert(holds_at(s, 4, key)) by {
        let before = word + sp;
        let after = sp + f + sp + t + sp + l + tail + rest;
        assert(s =~= before + key + after);
        lemma_part(before, key, after);
    }
    assert(holds_at(s, key_end, sp)) by {
        let before = word + sp + key;
        let after = f + sp + t + sp + l + tail + rest;
        assert(s =~= before + sp + after);
        lemma_part(before, sp, after);
    }
    assert(holds_at(s, key_end + 1, f)) by {
        let before = word + sp + key + sp;
        let after = sp + t + sp + l + tail + rest;
        assert(s =~= before + f + after);
        lemma_part(before, f, after);
    }
    assert(holds_at(s, flag_end, sp)) by {
        let before = word + sp + key + sp + f;
        let after = t + sp + l + tail + rest;
        assert(s =~= before + sp + after);
        lemma_part(before, sp, after);
    }
    assert(holds_at(s, flag_end + 1, t)) by {
        let before = word + sp + key + sp + f + sp;
        let after = sp + l + tail + rest;
        assert(s =~= before + t + after);
        lemma_part(before, t, after);
    }
    assert(holds_at(s, ttl_end, sp)) by {
        let before = word + sp + key + sp + f + sp + t;
        let after = l + tail + rest;
        assert(s =~= before + sp + after);
        lemma_part(before, sp, after);
    }
    assert(holds_at(s, ttl_end + 1, l)) by {
        let before = word + sp + key + sp + f + sp + t + sp;
        let after = tail + rest;
        assert(s =~= before + l + after);
        lemma_part(before, l, after);
    }
    assert(holds_at(s, len_end, tail)) by {
        let before = word + sp + key + sp + f + sp + t + sp + l;
        lemma_part(before, tail, rest);
    }
}

/// A line whose parts stand as those of a set line is read as the set
/// command of those parts.
proof fn lemma_set_layout_is_parsed(
    s: Seq<u8>,
    word: Seq<u8>,
    key: Seq<u8>,
    f: Seq<u8>,
    t: Seq<u8>,
    l: Seq<u8>,
    quiet: Seq<u8>,
    flag: u32,
    ttl: u32,
    len: u32,
    noreply: bool,
)
    requires
        is_key(key),
        is_number(f, flag),
        is_number(t, ttl),
        is_number(l, len),
        is_word(quiet, ascii("noreply")),
        set_layout(s, word, key, f, t, l, set_end(quiet, noreply)),
    ensures
        set_line(s, 3) == Some(
            (
                Command::CmdSet {
                    key,
                    flag,
                    ttl,
                    len,
                    noreply: if noreply {
                        Some(true)
                    } else {
                        None
                    },
                },
                4int + key.len() + 1 + f.len() + 1 + t.len() + 1 + l.len() + set_end(
                    quiet,
                    noreply,
                ).len(),
            ),
        ),
{
    reveal_strlit("noreply");
    let sp = space();
    let tail = set_end(quiet, noreply);
    let key_end: int = 4int + key.len();
    let flag_end: int = key_end + 1 + f.len();
    let ttl_end: int = flag_end + 1 + t.len();
    let len_end: int = ttl_end + 1 + l.len();

    assert(byte_at(s, 3, 32)) by {
        lemma_byte_of_part(s, 3, sp, 0);
    }
    assert(key_run(s, 4) == key.len()) by {
        assert forall|i: int| 4 <= i < key_end implies key_char(#[trigger] s[i]) by {
            lemma_byte_of_part(s, 4, key, i - 4);
        }
        lemma_byte_of_part(s, key_end, sp, 0);
        lemma_key_run(s, 4, key.len());
    }
    assert(byte_at(s, key_end, 32)) by {
        lemma_byte_of_part(s, key_end, sp, 0);
    }
    lemma_number_in_line(s, key_end + 1, f, flag, sp);
    lemma_number_in_line(s, flag_end + 1, t, ttl, sp);
    lemma_number_in_line(s, ttl_end + 1, l, len, tail);
    if noreply {
        assert(tail.len() == 10);
        assert(byte_at(s, len_end, 32));
        assert(word_at(s, len_end + 1, ascii("noreply"))) by {
            assert(tail.subrange(1, 1int + ascii("noreply").len()) =~= quiet);
            lemma_word_in_line(s, len_end, tail, 1, ascii("noreply"));
        }
        assert(crlf_at(s, len_end + 8)) by {
            lemma_byte_of_part(s, len_end, tail, 8);
            lemma_byte_of_part(s, len_end, tail, 9);
        }
    } else {
        assert(!byte_at(s, len_end, 32));
        assert(crlf_at(s, len_end)) by {
            lemma_byte_of_part(s, len_end, tail, 0);
            lemma_byte_of_part(s, len_end, tail, 1);
        }
    }
    assert(s.subrange(4, key_end) == key);
}

/// A line made of the parts of a set line is read as the set command of
/// those parts, through its last byte and whatever follows it.
pub proof fn lemma_set_parts_are_parsed(
    word: Seq<u8>,
    key: Seq<u8>,
    f: Seq<u8>,
    t: Seq<u8>,
    l: Seq<u8>,
    quiet: Seq<u8>,
    flag: u32,
    ttl: u32,
    len: u32,
    noreply: bool,
    rest: Seq<u8>,
)
    requires
        is_word(word, ascii("set")),
        is_key(key),
        is_number(f, flag),
        is_number(t, ttl),
        is_number(l, len),
        is_word(quiet, ascii("noreply")),
    ensures
        parse_line(set_parts(word, key, f, t, l, quiet, noreply) + rest) == Ok::<
            (Command, int),
            ParseError,
        >(
            (
                Command::CmdSet {
                    key,
                    flag,
                    ttl,
                    len,
                    noreply: if noreply {
                        Some(true)
                    } else {
                        None
                    },
                },
                set_parts(word, key, f, t, l, quiet, noreply).len() as int,
            ),
        ),
{
    reveal_strlit("set");
    let s = set_parts(word, key, f, t, l, quiet, noreply) + rest;
    lemma_set_layout(word, key, f, t, l, set_end(quiet, noreply), rest);
    lemma_set_layout_is_parsed(s, word, key, f, t, l, quiet, flag, ttl, len, noreply);
    assert(word_at(s, 0, ascii("set"))) by {
        assert(word.subrange(0, 0int + ascii("set").len()) =~= word);
        lemma_word_in_line(s, 0, word, 0, ascii("set"));
    }
}

/// A line made of the parts of a get line is read as the get command for
/// its key, through its last byte and whatever follows it.
pub proof fn lemma_get_parts_are_parsed(word: Seq<u8>, key: Seq<u8>, rest: Seq<u8>)
    requires
        is_word(word, ascii("get")),
        is_key(key),
    ensures
        parse_line(get_parts(word, key) + rest) == Ok::<(Command, int), ParseError>(
            (Command::CmdGet { key }, get_parts(word, key).len() as int),
        ),
{
    reveal_strlit("set");
    reveal_strlit("get");
    let s = get_parts(word, key) + rest;
    let n: int = key.len() as int;
    assert(s.len() == 4 + n + 2 + rest.len());
    assert(!word_at(s, 0, ascii("set"))) by {
        assert(lower(s[0int + 0]) == lower(word[0]));
        assert(lower(word[0]) == lower(ascii("get")[0]));
        assert(lower(ascii("set")[0]) != lower(ascii("get")[0]));
    }
    assert(word_at(s, 0, ascii("get"))) by {
        assert forall|i: int| 0 <= i < 3 implies lower(#[trigger] s[0 + i]) == lower(
            ascii("get")[i],
        ) by {
            assert(s[i] == word[i]);
        }
    }
    assert(byte_at(s, 3, 32));
    assert forall|i: int| 4 <= i < 4 + n implies key_char(#[trigger] s[i]) by {
        assert(s[i] == key[i - 4]);
    }
    assert(s[4 + n] == 13u8);
    lemma_key_run(s, 4, key.len());
    assert(crlf_at(s, 4 + n));
    assert(s.subrange(4, 4 + n) =~= key);
}

/// A line made of the word of a version line and the terminator is read as
/// the version command, through its last byte and whatever follows it.
pub proof fn lemma_version_parts_are_parsed(word: Seq<u8>, rest: Seq<u8>)
    requires
        is_word(word, ascii("version")),
    ensures
        parse_line(version_parts(word) + rest) == Ok::<(Command, int), ParseError>(
            (Command::CmdVersion, version_parts(word).len() as int),
        ),
{
    reveal_strlit("set");
    reveal_strlit("get");
    reveal_strlit("version");
    let s = version_parts(word) + rest;
    assert(s.len() == 9 + rest.len());
    assert(!word_at(s, 0, ascii("set"))) by {
        assert(lower(s[0int + 0]) == lower(word[0]));
        assert(lower(word[0]) == lower(ascii("version")[0]));
    }
    assert(!word_at(s, 0, ascii("get"))) by {
        assert(lower(s[0int + 0]) == lower(word[0]));
        assert(lower(word[0]) == lower(ascii("version")[0]));
    }
    assert(word_at(s, 0, ascii("version"))) by {
        assert forall|i: int| 0 <= i < 7 implies lower(#[trigger] s[0 + i]) == lower(
            ascii("version")[i],
        ) by {
            assert(s[i] == word[i]);
        }
    }
    assert(crlf_at(s, 7));
}

/// Every line of the form of a command is accepted as that command,
/// whatever follows the line, and the command takes the line and no more.
pub proof fn lemma_line_of_the_form_is_accepted(line: Seq<u8>, command: Command, rest: Seq<u8>)
    requires
        is_line_of(line, command),
    ensures
        parse_line(line + rest) == Ok::<(Command, int), ParseError>((command, line.len() as int)),
{
    match command {
        Command::CmdSet { key, flag, ttl, len, noreply } => {
            let (word, f, t, l, quiet) = choose|
                word: Seq<u8>,
                f: Seq<u8>,
                t: Seq<u8>,
                l: Seq<u8>,
                quiet: Seq<u8>,
            |
                line == #[trigger] set_parts(word, key, f, t, l, quiet, noreply is Some) && is_word(
                    word,
                    ascii("set"),
                ) && is_key(key) && is_number(f, flag) && is_number(t, ttl) && is_number(l, len)
                    && is_word(quiet, ascii("noreply"));
            lemma_set_parts_are_parsed(
                word,
                key,
                f,
                t,
                l,
                quiet,
                flag,
                ttl,
                len,
                noreply is Some,
                rest,
            );
        },
        Command::CmdGet { key } => {
            let word = choose|word: Seq<u8>|
                line == #[trigger] get_parts(word, key) && is_word(word, ascii("get")) && is_key(
                    key,
                );
            lemma_get_parts_are_parsed(word, key, rest);
        },
        Command::CmdVersion => {
            let word = choose|word: Seq<u8>|
                line == #[trigger] version_parts(word) && is_word(word, ascii("version"));
            lemma_version_parts_are_parsed(word, rest);
        },
    }
}

/// A line that is read as a set command is of the form of a set line: the
/// word, a space, the key, a space and a number three times, a space and
/// `noreply` where the command says so and nothing in its place where it
/// does not, and the terminator.
pub proof fn lemma_accepted_set_line_has_the_form(s: Seq<u8>)
    requires
        word_at(s, 0, ascii("set")),
        set_line(s, 3) is Some,
    ensures
        ({
            let (command, taken): (Command, int) = set_line(s, 3).unwrap();
            0 <= taken <= s.len() && command is CmdSet && is_line_of(s.take(taken), command)
        }),
{
    reveal_strlit("set");
    reveal_strlit("noreply");
    let (command, taken): (Command, int) = set_line(s, 3).unwrap();
    let key_start: int = 4;
    let key_end: int = key_start + key_run(s, key_start);
    let flag_start: int = key_end + 1;
    let flag_end: int = flag_start + number_len(s, flag_start);
    let ttl_start: int = flag_end + 1;
    let ttl_end: int = ttl_start + number_len(s, ttl_start);
    let len_start: int = ttl_end + 1;
    let len_end: int = len_start + number_len(s, len_start);
    let noreply = byte_at(s, len_end, 32) && word_at(s, len_end + 1, ascii("noreply"));
    let end: int = if noreply {
        len_end + 8
    } else {
        len_end
    };
    assert(taken == end + 2);
    assert(crlf_at(s, end));

    let word = s.subrange(0, 3);
    let key = s.subrange(key_start, key_end);
    let f = s.subrange(flag_start, flag_end);
    let t = s.subrange(ttl_start, ttl_end);
    let l = s.subrange(len_start, len_end);
    let quiet = if noreply {
        s.subrange(len_end + 1, len_end + 8)
    } else {
        ascii("noreply")
    };
    assert(is_word(word, ascii("set"))) by {
        lemma_word_text(s, 0, ascii("set"));
    }
    assert(is_key(key)) by {
        lemma_key_run_holds_key_chars(s, key_start);
        assert forall|i: int| 0 <= i < key.len() implies key_char(#[trigger] key[i]) by {
            assert(key[i] == s[key_start + i]);
        }
    }
    lemma_number_text(s, flag_start);
    lemma_number_text(s, ttl_start);
    lemma_number_text(s, len_start);
    assert(is_word(quiet, ascii("noreply"))) by {
        if noreply {
            lemma_word_text(s, len_end + 1, ascii("noreply"));
        }
    }

    let sp = space();
    let tail = set_end(quiet, noreply);
    assert(word + sp == s.subrange(0, 4)) by {
        lemma_one_byte(s, 3, 32);
        lemma_join(s, 0, 3, 4);
    }
    assert(word + sp + key == s.subrange(0, key_end)) by {
        lemma_join(s, 0, 4, key_end);
    }
    assert(word + sp + key + sp == s.subrange(0, flag_start)) by {
        lemma_one_byte(s, key_end, 32);
        lemma_join(s, 0, key_end, flag_start);
    }
    assert(word + sp + key + sp + f == s.subrange(0, flag_end)) by {
        lemma_join(s, 0, flag_start, flag_end);
    }
    assert(word + sp + key + sp + f + sp == s.subrange(0, ttl_start)) by {
        lemma_one_byte(s, flag_end, 32);
        lemma_join(s, 0, flag_end, ttl_start);
    }
    assert(word + sp + key + sp + f + sp + t == s.subrange(0, ttl_end)) by {
        lemma_join(s, 0, ttl_start, ttl_end);
    }
    assert(word + sp + key + sp + f + sp + t + sp == s.subrange(0, len_start)) by {
        lemma_one_byte(s, ttl_end, 32);
        lemma_join(s, 0, ttl_end, len_start);
    }
    assert(word + sp + key + sp + f + sp + t + sp + l == s.subrange(0, len_end)) by {
        lemma_join(s, 0, len_start, len_end);
    }
    assert(tail == s.subrange(len_end, taken)) by {
        lemma_terminator(s, end);
        if noreply {
            lemma_one_byte(s, len_end, 32);
            lemma_join(s, len_end, len_end + 1, len_end + 8);
            lemma_join(s, len_end, len_end + 8, taken);
        }
    }
    assert(set_parts(word, key, f, t, l, quiet, noreply) == s.take(taken)) by {
        lemma_join(s, 0, len_end, taken);
        assert(s.subrange(0, taken) =~= s.take(taken));
    }
    assert(is_set_line(
        s.take(taken),
        key,
        number_at(s, flag_start).unwrap(),
        number_at(s, ttl_start).unwrap(),
        number_at(s, len_start).unwrap(),
        noreply,
    ));
}

/// A line that is read as a get command is of the form of a get line.
pub proof fn lemma_accepted_get_line_has_the_form(s: Seq<u8>)
    requires
        word_at(s, 0, ascii("get")),
        get_line(s, 3) is Some,
    ensures
        ({
            let (command, taken): (Command, int) = get_line(s, 3).unwrap();
            0 <= taken <= s.len() && command is CmdGet && is_line_of(s.take(taken), command)
        }),
{
    reveal_strlit("get");
    let (command, taken): (Command, int) = get_line(s, 3).unwrap();
    let key_start: int = 4;
    let key_end: int = key_start + key_run(s, key_start);
    let word = s.subrange(0, 3);
    let key = s.subrange(key_start, key_end);
    assert(is_word(word, ascii("get"))) by {
        lemma_word_text(s, 0, ascii("get"));
    }
    assert(is_key(key)) by {
        lemma_key_run_holds_key_chars(s, key_start);
        assert forall|i: int| 0 <= i < key.len() implies key_char(#[trigger] key[i]) by {
            assert(key[i] == s[key_start + i]);
        }
    }
    assert(get_parts(word, key) == s.take(taken)) by {
        lemma_one_byte(s, 3, 32);
        lemma_join(s, 0, 3, 4);
        lemma_join(s, 0, 4, key_end);
        lemma_terminator(s, key_end);
        lemma_join(s, 0, key_end, taken);
        assert(s.subrange(0, taken) =~= s.take(taken));
    }
    assert(is_get_line(s.take(taken), key));
}

/// A line that is read as a version command is of the form of a version
/// line.
pub proof fn lemma_accepted_version_line_has_the_form(s: Seq<u8>)
    requires
        word_at(s, 0, ascii("version")),
        version_line(s, 7) is Some,
    ensures
        ({
            let (command, taken): (Command, int) = version_line(s, 7).unwrap();
            0 <= taken <= s.len() && command is CmdVersion && is_line_of(s.take(taken), command)
        }),
{
    reveal_strlit("version");
    let word = s.subrange(0, 7);
    assert(is_word(word, ascii("version"))) by {
        lemma_word_text(s, 0, ascii("version"));
    }
    assert(version_parts(word) == s.take(9)) by {
        lemma_terminator(s, 7);
        lemma_join(s, 0, 7, 9);
        assert(s.subrange(0, 9) =~= s.take(9));
    }
    assert(is_version_line(s.take(9)));
}

/// Every line that is accepted as a command is of the form of that
/// command, up to the byte where the command ends. With
/// [`lemma_line_of_the_form_is_accepted`] this says that the parser accepts
/// the lines of the grammar and no others.
pub proof fn lemma_accepted_line_has_the_form(s: Seq<u8>)
    requires
        parse_line(s) is Ok,
    ensures
        ({
            let (command, taken): (Command, int) = parse_line(s)->Ok_0;
            0 <= taken <= s.len() && is_line_of(s.take(taken), command)
        }),
{
    reveal_strlit("set");
    reveal_strlit("get");
    reveal_strlit("version");
    if word_at(s, 0, ascii("set")) {
        lemma_accepted_set_line_has_the_form(s);
    } else if word_at(s, 0, ascii("get")) {
        lemma_accepted_get_line_has_the_form(s);
    } else {
        lemma_accepted_version_line_has_the_form(s);
    }
}

/// The parser accepts the grammar and nothing else: what it reads as a
/// command is the line of that command; a sequence that begins with the
/// line of a command is read as that command; and of the other sequences
/// the empty one is empty, those without a command word at their start are
/// unknown, and the rest are malformed.
pub proof fn lemma_parser_accepts_the_grammar(s: Seq<u8>)
    ensures
        parse_line(s) matches Ok((command, taken)) ==> 0 <= taken <= s.len() && is_line_of(
            s.take(taken),
            command,
        ),
        forall|command: Command| #[trigger]
            begins_with_line_of(s, command) ==> (parse_line(s) matches Ok((found, _)) && found
                == command),
        parse_line(s) == Err::<(Command, int), ParseError>(ParseError::Empty) <==> s.len() == 0,
        parse_line(s) == Err::<(Command, int), ParseError>(ParseError::UnknownCommand) <==> s.len()
            > 0 && !begins_with_command_word(s),
{
    if parse_line(s) is Ok {
        lemma_accepted_line_has_the_form(s);
    }
    assert forall|command: Command| #[trigger] begins_with_line_of(s, command) implies (parse_line(
        s,
    ) matches Ok((found, _)) && found == command) by {
        let n: int = choose|n: int| 0 <= n <= s.len() && is_line_of(#[trigger] s.take(n), command);
        lemma_line_of_the_form_is_accepted(s.take(n), command, s.skip(n));
        assert(s.take(n) + s.skip(n) =~= s);
    }
    if s.len() == 0 {
        reveal_strlit("set");
        reveal_strlit("get");
        reveal_strlit("version");
    }
}

/// A frame is accepted as a command exactly when the whole frame is of the
/// form of that command.
pub proof fn lemma_frame_is_a_command_exactly_when_of_its_form(
    held: Seq<u8>,
    frame: Seq<u8>,
    command: Command,
)
    requires
        is_first_frame(held, frame),
    ensures
        (parse_line(frame) matches Ok((found, _)) && found == command) <==> is_line_of(
            frame,
            command,
        ),
{
    if is_line_of(frame, command) {
        lemma_line_of_the_form_is_accepted(frame, command, Seq::empty());
        assert(frame + Seq::<u8>::empty() =~= frame);
    }
    if parse_line(frame) is Ok {
        lemma_accepted_line_has_the_form(frame);
        let (found, taken): (Command, int) = parse_line(frame)->Ok_0;
        if taken < frame.len() {
            assert(crlf_at(held, taken - 2));
        }
        assert(frame.take(taken) =~= frame);
    }
}

} // verus!
