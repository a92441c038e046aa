//! The dispatcher of one connection: what the server does with each frame
//! that the frame reader hands it, and what it answers.

use crate::cache::{lookup, Cache};
use crate::clock::{now, NANOS_PER_SEC};
use crate::decimal::{decimal_digits, push_decimal};
use crate::parser::ascii::{parse_ascii_cmd, parse_line};
use crate::parser::grammar::is_key;
use crate::parser::lines::{
    get_text, lemma_get_text_is_parsed, lemma_set_text_is_parsed, set_text,
};
use crate::parser::{Cmd, Command};
use crate::store::live_entries;
use crate::frame::{framed, write_frame};
use crate::text::{ascii, push_text, text_bytes};
use crate::value::{expiry_after_secs, Entry};
use vstd::prelude::*;
use vstd::slice::{slice_subrange, slice_to_vec};

verus! {

/// Where a connection stands between two frames.
#[derive(Debug, PartialEq, Eq)]
pub enum Session {
    /// The next frame is a command line.
    AwaitCommand,
    /// A set command was read; the next frame is its value.
    AwaitValue {
        /// The key to store under.
        key: Vec<u8>,
        /// The flag to store with the value.
        flag: u32,
        /// The time-to-live in seconds; zero means no expiry.
        ttl: u32,
        /// The number of bytes the value was announced with.
        len: u32,
        /// Whether the client asked for no reply.
        noreply: bool,
    },
    /// Reading or writing failed; nothing more happens on the connection.
    Closed,
}

/// What a [`Session`] is, mathematically.
pub enum SessionView {
    /// See [`Session::AwaitCommand`].
    AwaitCommand,
    /// See [`Session::AwaitValue`].
    AwaitValue { key: Seq<u8>, flag: u32, ttl: u32, len: u32, noreply: bool },
    /// See [`Session::Closed`].
    Closed,
}

impl View for Session {
    type V = SessionView;

    open spec fn view(&self) -> SessionView {
        match *self {
            Session::AwaitCommand => SessionView::AwaitCommand,
            Session::AwaitValue { key, flag, ttl, len, noreply } => SessionView::AwaitValue {
                key: key@,
                flag,
                ttl,
                len,
                noreply,
            },
            Session::Closed => SessionView::Closed,
        }
    }
}

impl Session {
    /// The session of a connection that has just been accepted.
    pub fn new() -> (session: Session)
        ensures
            session@ == SessionView::AwaitCommand,
    {
        Session::AwaitCommand
    }

    /// Ends the session: reading or writing the socket has failed.
    pub fn close(&mut self)
        ensures
            final(self)@ == SessionView::Closed,
    {
        *self = Session::Closed;
    }

    /// Whether the session has ended.
    pub fn is_closed(&self) -> (closed: bool)
        ensures
            closed == (self@ == SessionView::Closed),
    {
        match self {
            Session::Closed => true,
            _ => false,
        }
    }
}

/// A command whose handling the server's operator measures.
#[derive(Clone, Copy, Debug, PartialEq, Eq)]
pub enum Timed {
    /// A set command that stored its value.
    SetCommand,
    /// A get command.
    GetCommand,
}

/// The server's answer to one frame.
#[derive(Debug, PartialEq, Eq)]
pub struct Reply {
    /// The bytes to write to the client; none when there is nothing to
    /// write.
    pub bytes: Vec<u8>,
    /// The command that the frame completed, when it is one that is
    /// measured.
    pub timed: Option<Timed>,
}

/// What one frame comes to: the session and the cache after it, and the
/// answer.
pub struct Step {
    /// The session after the frame.
    pub session: SessionView,
    /// The entries of the cache after the frame.
    pub cache: Map<Seq<u8>, Entry>,
    /// The bytes to write to the client.
    pub reply: Seq<u8>,
    /// The measured command that the frame completed, if any.
    pub timed: Option<Timed>,
}

/// The block that answers a get command with the entry found under `key`.
pub open spec fn value_block(key: Seq<u8>, found: Entry) -> Seq<u8> {
    framed(
        ascii("VALUE ") + key + ascii(" ") + decimal_digits(found.flag as nat) + ascii(" ")
            + decimal_digits(found.value.len()),
    ) + framed(found.value)
}

/// The answer to a get command for `key`: the value block when an entry
/// was found, and the end line in either case.
pub open spec fn get_reply(key: Seq<u8>, found: Option<Entry>) -> Seq<u8> {
    match found {
        Some(entry) => value_block(key, entry) + framed(ascii("END")),
        None => framed(ascii("END")),
    }
}

/// What a command line comes to at `now`.
pub open spec fn command_step(cache: Map<Seq<u8>, Entry>, line: Seq<u8>, now: u128) -> Step {
    match parse_line(line) {
        Ok((Command::CmdSet { key, flag, ttl, len, noreply }, _)) => Step {
            session: SessionView::AwaitValue { key, flag, ttl, len, noreply: noreply == Some(true) },
            cache,
            reply: Seq::empty(),
            timed: None,
        },
        Ok((Command::CmdGet { key }, _)) => Step {
            session: SessionView::AwaitCommand,
            cache,
            reply: get_reply(key, lookup(cache, key, now)),
            timed: Some(Timed::GetCommand),
        },
        Ok((Command::CmdVersion, _)) => Step {
            session: SessionView::AwaitCommand,
            cache,
            reply: framed(ascii("VERSION 0.1.0")),
            timed: None,
        },
        Err(_) => Step {
            session: SessionView::AwaitCommand,
            cache,
            reply: framed(ascii("ERROR")),
            timed: None,
        },
    }
}

/// What the frame after a set command comes to at `now`: the value is
/// stored when the frame is as long as announced, its terminator counted.
pub open spec fn value_step(
    cache: Map<Seq<u8>, Entry>,
    key: Seq<u8>,
    flag: u32,
    ttl: u32,
    len: u32,
    noreply: bool,
    payload: Seq<u8>,
    now: u128,
) -> Step {
    if payload.len() == len + 2 {
        Step {
            session: SessionView::AwaitCommand,
            cache: cache.insert(
                key,
                Entry {
                    value: payload.take(len as int),
                    flag,
                    expires_at: expiry_after_secs(ttl, now),
                },
            ),
            reply: if noreply {
                Seq::empty()
            } else {
                framed(ascii("STORED"))
            },
            timed: Some(Timed::SetCommand),
        }
    } else {
        Step {
            session: SessionView::AwaitCommand,
            cache,
            reply: framed(ascii("CLIENT_ERROR bad data chunk")),
            timed: None,
        }
    }
}

/// What the frame `frame` comes to at `now` for a connection in state
/// `session` over the entries `cache`.
pub open spec fn step(
    session: SessionView,
    cache: Map<Seq<u8>, Entry>,
    frame: Seq<u8>,
    now: u128,
) -> Step {
    match session {
        SessionView::AwaitCommand => command_step(cache, frame, now),
        SessionView::AwaitValue { key, flag, ttl, len, noreply } => value_step(
            cache,
            key,
            flag,
            ttl,
            len,
            noreply,
            frame,
            now,
        ),
        SessionView::Closed => Step {
            session: SessionView::Closed,
            cache,
            reply: Seq::empty(),
            timed: None,
        },
    }
}

/// The server side of the protocol over one cache. Its view is the
/// cache's.
pub struct MemcacheServer {
    cache: Cache,
}

impl View for MemcacheServer {
    type V = Map<Seq<u8>, Entry>;

    closed spec fn view(&self) -> Map<Seq<u8>, Entry> {
        self.cache@
    }
}

impl MemcacheServer {
    /// A server over `cache`.
    pub fn new(cache: Cache) -> (server: MemcacheServer)
        ensures
            server@ == cache@,
            server@.dom().finite(),
    {
        proof {
            use_type_invariant(&cache);
        }
        MemcacheServer { cache }
    }

    /// The cache the server works on, for reading.
    pub fn cache(&self) -> (cache: &Cache)
        ensures
            cache@ == self@,
    {
        &self.cache
    }

    /// The answer to a get command for `key` at `now`.
    fn answer_get(&self, key: &Vec<u8>, now: u128) -> (bytes: Vec<u8>)
        ensures
            bytes@ == get_reply(key@, lookup(self@, key@, now)),
    {
        let mut bytes: Vec<u8> = Vec::new();
        proof {
            reveal_strlit("VALUE ");
            reveal_strlit(" ");
            reveal_strlit("END");
        }
        match self.cache.get_at(key, now) {
            Some(found) => {
                let value: &Vec<u8> = found.value();
                let mut header: Vec<u8> = Vec::new();
                push_text(&mut header, "VALUE ");
                header.extend_from_slice(key.as_slice());
                push_text(&mut header, " ");
                push_decimal(&mut header, found.get_flag() as u64);
                push_text(&mut header, " ");
                push_decimal(&mut header, value.len() as u64);
                write_frame(&mut bytes, header.as_slice());
                write_frame(&mut bytes, value.as_slice());
                write_frame(&mut bytes, text_bytes("END"));
                assert(bytes@ =~= get_reply(key@, Some(found@)));
            },
            None => {
                write_frame(&mut bytes, text_bytes("END"));
                assert(bytes@ =~= framed(ascii("END")));
            },
        }
        bytes
    }

    /// Handles a command line at `now`.
    fn on_command(&mut self, line: &[u8], now: u128) -> (done: (Session, Reply))
        ensures
            ({
                let next = command_step(old(self)@, line@, now);
                &&& done.0@ == next.session
                &&& final(self)@ == next.cache
                &&& done.1.bytes@ == next.reply
                &&& done.1.timed == next.timed
            }),
    {
        match parse_ascii_cmd(line) {
            Ok((_, Cmd::CmdSet { key, flag, ttl, len, noreply })) => {
                let silent: bool = match noreply {
                    Some(asked) => asked,
                    None => false,
                };
                (
                    Session::AwaitValue { key, flag, ttl, len, noreply: silent },
                    Reply { bytes: Vec::new(), timed: None },
                )
            },
            Ok((_, Cmd::CmdGet { key })) => {
                let bytes: Vec<u8> = self.answer_get(&key, now);
                (Session::AwaitCommand, Reply { bytes, timed: Some(Timed::GetCommand) })
            },
            Ok((_, Cmd::CmdVersion)) => {
                let mut bytes: Vec<u8> = Vec::new();
                proof {
                    reveal_strlit("VERSION 0.1.0");
                }
                write_frame(&mut bytes, text_bytes("VERSION 0.1.0"));
                assert(bytes@ =~= framed(ascii("VERSION 0.1.0")));
                (Session::AwaitCommand, Reply { bytes, timed: None })
            },
            Err(_) => {
                let mut bytes: Vec<u8> = Vec::new();
                proof {
                    reveal_strlit("ERROR");
                }
                write_frame(&mut bytes, text_bytes("ERROR"));
                assert(bytes@ =~= framed(ascii("ERROR")));
                (Session::AwaitCommand, Reply { bytes, timed: None })
            },
        }
    }

    /// Handles the frame that follows a set command at `now`.
    fn on_value(
        &mut self,
        key: Vec<u8>,
        flag: u32,
        ttl: u32,
        len: u32,
        noreply: bool,
        payload: &[u8],
        now: u128,
    ) -> (reply: Reply)
        ensures
            ({
                let next = value_step(old(self)@, key@, flag, ttl, len, noreply, payload@, now);
                &&& final(self)@ == next.cache
                &&& reply.bytes@ == next.reply
                &&& reply.timed == next.timed
            }),
    {
        let mut bytes: Vec<u8> = Vec::new();
        let announced: usize = len as usize;
        if payload.len() < 2 || payload.len() - 2 != announced {
            proof {
                reveal_strlit("CLIENT_ERROR bad data chunk");
            }
            write_frame(&mut bytes, text_bytes("CLIENT_ERROR bad data chunk"));
            assert(bytes@ =~= framed(ascii("CLIENT_ERROR bad data chunk")));
            return Reply { bytes, timed: None };
        }
        let value: Vec<u8> = slice_to_vec(slice_subrange(payload, 0, announced));
        assert(value@ =~= payload@.take(len as int));
        self.cache.insert_with_ttl_at(key, value, ttl, flag, now);
        if !noreply {
            proof {
                reveal_strlit("STORED");
            }
            write_frame(&mut bytes, text_bytes("STORED"));
            assert(bytes@ =~= framed(ascii("STORED")));
        }
        Reply { bytes, timed: Some(Timed::SetCommand) }
    }

    /// Handles one frame of a connection at `now`: moves the session on,
    /// reads or changes the cache as the frame asks, and returns the
    /// answer. The outcome is the one [`step`] defines.
    pub fn process_at(&mut self, session: &mut Session, frame: &[u8], now: u128) -> (reply: Reply)
        ensures
            ({
                let next = step(old(session)@, old(self)@, frame@, now);
                &&& final(session)@ == next.session
                &&& final(self)@ == next.cache
                &&& reply.bytes@ == next.reply
                &&& reply.timed == next.timed
            }),
            old(self)@.dom().finite(),
            final(self)@.dom().finite(),
    {
        proof {
            use_type_invariant(&self.cache);
        }
        let mut current = Session::Closed;
        core::mem::swap(session, &mut current);
        match current {
            Session::AwaitCommand => {
                let (next, reply): (Session, Reply) = self.on_command(frame, now);
                *session = next;
                reply
            },
            Session::AwaitValue { key, flag, ttl, len, noreply } => {
                let reply: Reply = self.on_value(key, flag, ttl, len, noreply, frame, now);
                *session = Session::AwaitCommand;
                reply
            },
            Session::Closed => Reply { bytes: Vec::new(), timed: None },
        }
    }

    /// Handles one frame of a connection at the moment of the call.
    /// Whatever the clock reads, the outcome is the one
    /// [`MemcacheServer::process_at`] gives for that reading.
    pub fn process(&mut self, session: &mut Session, frame: &[u8]) -> (reply: Reply)
        ensures
            exists|t: u128|
                ({
                    let next = #[trigger] step(old(session)@, old(self)@, frame@, t);
                    &&& final(session)@ == next.session
                    &&& final(self)@ == next.cache
                    &&& reply.bytes@ == next.reply
                    &&& reply.timed == next.timed
                }),
            old(self)@.dom().finite(),
            final(self)@.dom().finite(),
    {
        self.process_at(session, frame, now())
    }

    /// The number of entries the cache holds, expired ones that no sweep
    /// has removed included.
    pub fn len(&self) -> (n: usize)
        ensures
            self@.dom().finite(),
            n == self@.len(),
    {
        self.cache.len()
    }

    /// Removes every entry that is expired at `now` and returns the number
    /// of entries before and after.
    pub fn sweep_at(&mut self, now: u128) -> (sizes: (usize, usize))
        ensures
            final(self)@ == live_entries(old(self)@, now),
            old(self)@.dom().finite(),
            final(self)@.dom().finite(),
            sizes.0 == old(self)@.len(),
            sizes.1 == final(self)@.len(),
    {
        self.cache.sweep_at(now)
    }

    /// Removes every entry that is expired at the moment of the call and
    /// returns the number of entries before and after.
    pub fn sweep(&mut self) -> (sizes: (usize, usize))
        ensures
            exists|t: u128| final(self)@ == #[trigger] live_entries(old(self)@, t),
            old(self)@.dom().finite(),
            final(self)@.dom().finite(),
            sizes.0 == old(self)@.len(),
            sizes.1 == final(self)@.len(),
    {
        let t: u128 = now();
        let sizes: (usize, usize) = self.cache.sweep_at(t);
        assert(self@ == live_entries(old(self)@, t));
        sizes
    }
}

/// A session moves between its states in one way only: a command line
/// leads to awaiting a command again, or, for a set command, to awaiting
/// its value; the value frame leads back to awaiting a command; a closed
/// session stays closed and does nothing.
pub proof fn lemma_session_moves(
    session: SessionView,
    cache: Map<Seq<u8>, Entry>,
    frame: Seq<u8>,
    now: u128,
)
    ensures
        session is AwaitCommand ==> !(step(session, cache, frame, now).session is Closed),
        session is AwaitCommand ==> (step(session, cache, frame, now).session is AwaitValue <==> (
        parse_line(frame) matches Ok((command, _)) && command is CmdSet)),
        session is AwaitValue ==> step(session, cache, frame, now).session is AwaitCommand,
        session is Closed ==> step(session, cache, frame, now) == (Step {
            session,
            cache,
            reply: Seq::empty(),
            timed: None,
        }),
{
}

/// Only a value frame of the announced length changes the cache: every
/// other frame leaves it as it was.
pub proof fn lemma_only_a_stored_value_changes_the_cache(
    session: SessionView,
    cache: Map<Seq<u8>, Entry>,
    frame: Seq<u8>,
    now: u128,
)
    ensures
        step(session, cache, frame, now).cache != cache ==> (session matches SessionView::AwaitValue {
            len,
            ..
        } && frame.len() == len + 2),
{
}

/// A line that is no command is answered with the error line and changes
/// nothing: the session awaits a command as before.
pub proof fn lemma_bad_line_is_answered_and_forgotten(
    cache: Map<Seq<u8>, Entry>,
    line: Seq<u8>,
    now: u128,
)
    requires
        parse_line(line) is Err,
    ensures
        step(SessionView::AwaitCommand, cache, line, now) == (Step {
            session: SessionView::AwaitCommand,
            cache,
            reply: framed(ascii("ERROR")),
            timed: None,
        }),
{
}

/// A value frame that is not as long as announced is answered with the
/// client error, and nothing is stored.
pub proof fn lemma_bad_chunk_stores_nothing(
    cache: Map<Seq<u8>, Entry>,
    key: Seq<u8>,
    flag: u32,
    ttl: u32,
    len: u32,
    noreply: bool,
    payload: Seq<u8>,
    now: u128,
)
    requires
        payload.len() != len + 2,
    ensures
        step(SessionView::AwaitValue { key, flag, ttl, len, noreply }, cache, payload, now) == (Step {
            session: SessionView::AwaitCommand,
            cache,
            reply: framed(ascii("CLIENT_ERROR bad data chunk")),
            timed: None,
        }),
{
}

/// A value that was stored is what a later get command for its key is
/// answered with, as long as the entry has not expired: the value block
/// names the key, the flag and the length, and holds the stored bytes.
pub proof fn lemma_stored_value_is_served(
    cache: Map<Seq<u8>, Entry>,
    key: Seq<u8>,
    flag: u32,
    ttl: u32,
    len: u32,
    noreply: bool,
    payload: Seq<u8>,
    stored_at: u128,
    line: Seq<u8>,
    read_at: u128,
)
    requires
        payload.len() == len + 2,
        parse_line(line) matches Ok((command, _)) && command == (Command::CmdGet { key }),
        ttl == 0 || read_at <= stored_at + ttl * NANOS_PER_SEC,
    ensures
        ({
            let stored = step(
                SessionView::AwaitValue { key, flag, ttl, len, noreply },
                cache,
                payload,
                stored_at,
            );
            let served = step(stored.session, stored.cache, line, read_at);
            let value = payload.take(len as int);
            &&& stored.reply == if noreply {
                Seq::<u8>::empty()
            } else {
                framed(ascii("STORED"))
            }
            &&& served.cache == stored.cache
            &&& served.reply == framed(
                ascii("VALUE ") + key + ascii(" ") + decimal_digits(flag as nat) + ascii(" ")
                    + decimal_digits(len as nat),
            ) + framed(value) + framed(ascii("END"))
        }),
{
}

/// A get command for a key under which nothing live is stored is answered
/// with the end line alone.
pub proof fn lemma_missing_key_is_answered_with_end(
    cache: Map<Seq<u8>, Entry>,
    key: Seq<u8>,
    line: Seq<u8>,
    now: u128,
)
    requires
        parse_line(line) matches Ok((command, _)) && command == (Command::CmdGet { key }),
        lookup(cache, key, now) is None,
    ensures
        step(SessionView::AwaitCommand, cache, line, now).reply == framed(ascii("END")),
{
}

/// A client that writes the line of a set command, then the value as a
/// frame, then the line of a get command for the same key, is answered as
/// the protocol says: `STORED`, unless it asked for no reply, and then the
/// value block with the key, the flag, the length and the bytes it sent,
/// followed by `END`. This holds for every key, flag and value, over every
/// cache, as long as the entry has not expired when it is read.
pub proof fn lemma_set_then_get_on_the_wire(
    cache: Map<Seq<u8>, Entry>,
    key: Seq<u8>,
    flag: u32,
    ttl: u32,
    value: Seq<u8>,
    noreply: bool,
    header_at: u128,
    stored_at: u128,
    read_at: u128,
)
    requires
        is_key(key),
        value.len() <= u32::MAX,
        ttl == 0 || read_at <= stored_at + ttl * NANOS_PER_SEC,
    ensures
        ({
            let len: u32 = value.len() as u32;
            let header = step(
                SessionView::AwaitCommand,
                cache,
                set_text(key, flag, ttl, len, noreply),
                header_at,
            );
            let stored = step(header.session, header.cache, framed(value), stored_at);
            let served = step(stored.session, stored.cache, get_text(key), read_at);
            &&& header.reply == Seq::<u8>::empty()
            &&& stored.reply == if noreply {
                Seq::<u8>::empty()
            } else {
                framed(ascii("STORED"))
            }
            &&& served.reply == framed(
                ascii("VALUE ") + key + ascii(" ") + decimal_digits(flag as nat) + ascii(" ")
                    + decimal_digits(value.len()),
            ) + framed(value) + framed(ascii("END"))
            &&& served.session == SessionView::AwaitCommand
        }),
{
    let len: u32 = value.len() as u32;
    let header = step(
        SessionView::AwaitCommand,
        cache,
        set_text(key, flag, ttl, len, noreply),
        header_at,
    );
    assert(header == (Step {
        session: SessionView::AwaitValue { key, flag, ttl, len, noreply },
        cache,
        reply: Seq::<u8>::empty(),
        timed: None,
    })) by {
        lemma_set_text_is_parsed(key, flag, ttl, len, noreply);
    }
    assert(parse_line(get_text(key)) matches Ok((command, _)) && command == (Command::CmdGet {
        key,
    })) by {
        lemma_get_text_is_parsed(key);
    }
    assert(framed(value).take(len as int) =~= value);
    lemma_stored_value_is_served(
        cache,
        key,
        flag,
        ttl,
        len,
        noreply,
        framed(value),
        stored_at,
        get_text(key),
        read_at,
    );
}

} // verus!
