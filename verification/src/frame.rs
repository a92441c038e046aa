//! The frame reader of one connection: it gathers the bytes a socket
//! delivers and hands out one CRLF-terminated frame at a time.

use crate::buffer::{
    buffer_advance, buffer_bytes, buffer_extend, buffer_with_capacity, buffered,
};
use bytes::BytesMut;
use vstd::prelude::*;
use vstd::slice::slice_subrange;

verus! {

/// The most bytes a connection buffers, and so the longest frame, its
/// terminator included, that it accepts.
pub const MAX_FRAME_LEN: usize = 4_194_304;

/// The buffer's capacity when a connection starts.
pub const INITIAL_CAPACITY: usize = 4096;

/// The two bytes `\r\n` stand at index `i` of `s`.
pub open spec fn crlf_at(s: Seq<u8>, i: int) -> bool {
    0 <= i && i + 1 < s.len() && s[i] == 13u8 && s[i + 1] == 10u8
}

/// `s` holds a terminator, and so a whole frame.
pub open spec fn has_frame(s: Seq<u8>) -> bool {
    exists|i: int| crlf_at(s, i)
}

/// `frame` is the first frame of `s`: the bytes from the start of `s`
/// through its first terminator.
pub open spec fn is_first_frame(s: Seq<u8>, frame: Seq<u8>) -> bool {
    &&& frame.len() <= s.len()
    &&& frame == s.take(frame.len() as int)
    &&& crlf_at(s, frame.len() - 2)
    &&& forall|j: int| 0 <= j < frame.len() - 2 ==> !crlf_at(s, j)
}

/// A payload as it is written: the payload and the terminator after it.
pub open spec fn framed(payload: Seq<u8>) -> Seq<u8> {
    payload + seq![13u8, 10u8]
}

/// `consume` was handed the first frame of `before` and made `made` of
/// it, and `after` is what follows the frame.
pub open spec fn consumed<T, F: FnOnce(&[u8]) -> T>(
    consume: F,
    before: Seq<u8>,
    after: Seq<u8>,
    made: T,
) -> bool {
    exists|frame: &[u8]|
        is_first_frame(before, frame@) && #[trigger] call_ensures(consume, (frame,), made) && after
            == before.skip(frame@.len() as int)
}

/// Why a connection cannot go on reading.
#[derive(Clone, Copy, Debug, PartialEq, Eq)]
pub enum FrameError {
    /// The peer closed the connection.
    ConnectionReset,
    /// The buffer is full and holds no terminator.
    FrameTooLarge,
}

/// Finds the first terminator in `bytes`.
pub fn find_crlf(bytes: &[u8]) -> (found: Option<usize>)
    ensures
        match found {
            Some(i) => crlf_at(bytes@, i as int) && forall|j: int| 0 <= j < i ==> !crlf_at(bytes@, j),
            None => !has_frame(bytes@),
        },
{
    let n: usize = bytes.len();
    if n < 2 {
        return None;
    }
    let mut i: usize = 0;
    while i < n - 1
        invariant
            2 <= n == bytes@.len(),
            i <= n - 1,
            forall|j: int| 0 <= j < i ==> !crlf_at(bytes@, j),
        decreases n - i,
    {
        if bytes[i] == 13u8 && bytes[i + 1] == 10u8 {
            return Some(i);
        }
        i = i + 1;
    }
    None
}

/// Appends `payload` to what is to be written, as a frame.
pub fn write_frame(out: &mut Vec<u8>, payload: &[u8])
    ensures
        final(out)@ == old(out)@ + framed(payload@),
{
    out.extend_from_slice(payload);
    out.push(13u8);
    out.push(10u8);
    assert(out@ =~= old(out)@ + framed(payload@));
}

/// The frame reader of one connection. Its view is the bytes that were
/// delivered and not yet handed out in a frame.
pub struct Connection {
    buffer: BytesMut,
}

impl View for Connection {
    type V = Seq<u8>;

    closed spec fn view(&self) -> Seq<u8> {
        buffered(self.buffer)
    }
}

impl Connection {
    #[verifier::type_invariant]
    spec fn within_ceiling(self) -> bool {
        buffered(self.buffer).len() <= MAX_FRAME_LEN
    }

    /// A reader that has been delivered nothing yet.
    pub fn new() -> (connection: Connection)
        ensures
            connection@ =~= Seq::empty(),
    {
        Connection { buffer: buffer_with_capacity(INITIAL_CAPACITY) }
    }

    /// Hands the first frame to `consume` when the buffer holds one, removes
    /// the frame from the buffer and returns what `consume` made of it.
    /// Without a terminator `consume` is not called and the buffer stays as
    /// it is: more bytes are needed, unless the buffer is full, which is the
    /// end of the connection.
    pub fn read_frame<T, F: FnOnce(&[u8]) -> T>(
        &mut self,
        consume: F,
    ) -> (outcome: Result<Option<T>, FrameError>)
        requires
            forall|frame: &[u8]|
                is_first_frame(old(self)@, frame@) ==> call_requires(consume, (frame,)),
        ensures
            match outcome {
                Ok(Some(made)) => consumed(consume, old(self)@, final(self)@, made),
                Ok(None) => {
                    &&& !has_frame(old(self)@)
                    &&& old(self)@.len() < MAX_FRAME_LEN
                    &&& final(self)@ == old(self)@
                },
                Err(e) => {
                    &&& e == FrameError::FrameTooLarge
                    &&& !has_frame(old(self)@)
                    &&& old(self)@.len() == MAX_FRAME_LEN
                    &&& final(self)@ == old(self)@
                },
            },
    {
        proof {
            use_type_invariant(&*self);
        }
        let bytes: &[u8] = buffer_bytes(&self.buffer);
        match find_crlf(bytes) {
            Some(i) => {
                let frame: &[u8] = slice_subrange(bytes, 0, i + 2);
                assert(frame@ =~= self@.take(frame@.len() as int));
                assert(is_first_frame(self@, frame@));
                let made: T = consume(frame);
                buffer_advance(&mut self.buffer, i + 2);
                assert(call_ensures(consume, (frame,), made));
                assert(consumed(consume, old(self)@, self@, made));
                Ok(Some(made))
            },
            None => {
                if bytes.len() >= MAX_FRAME_LEN {
                    Err(FrameError::FrameTooLarge)
                } else {
                    Ok(None)
                }
            },
        }
    }

    /// How many more bytes the buffer takes.
    pub fn room(&self) -> (n: usize)
        ensures
            n == MAX_FRAME_LEN - self@.len(),
    {
        proof {
            use_type_invariant(self);
        }
        MAX_FRAME_LEN - buffer_bytes(&self.buffer).len()
    }

    /// Takes in what one read of the socket delivered. A read that delivers
    /// nothing means that the peer has closed the connection. Bytes beyond
    /// the buffer's room are not taken in: the delivery is refused whole.
    pub fn receive(&mut self, data: &[u8]) -> (outcome: Result<(), FrameError>)
        ensures
            match outcome {
                Ok(()) => {
                    &&& data@.len() > 0
                    &&& old(self)@.len() + data@.len() <= MAX_FRAME_LEN
                    &&& final(self)@ == old(self)@ + data@
                },
                Err(FrameError::ConnectionReset) => {
                    &&& data@.len() == 0
                    &&& final(self)@ == old(self)@
                },
                Err(FrameError::FrameTooLarge) => {
                    &&& data@.len() > 0
                    &&& old(self)@.len() + data@.len() > MAX_FRAME_LEN
                    &&& final(self)@ == old(self)@
                },
            },
            final(self)@.len() <= MAX_FRAME_LEN,
    {
        proof {
            use_type_invariant(&*self);
        }
        if data.len() == 0 {
            Err(FrameError::ConnectionReset)
        } else if data.len() > MAX_FRAME_LEN - buffer_bytes(&self.buffer).len() {
            Err(FrameError::FrameTooLarge)
        } else {
            buffer_extend(&mut self.buffer, data);
            Ok(())
        }
    }
}

/// A buffer has at most one first frame.
pub proof fn lemma_first_frame_is_unique(s: Seq<u8>, f: Seq<u8>, g: Seq<u8>)
    requires
        is_first_frame(s, f),
        is_first_frame(s, g),
    ensures
        f == g,
{
    if f.len() < g.len() {
        assert(crlf_at(s, f.len() - 2));
    } else if g.len() < f.len() {
        assert(crlf_at(s, g.len() - 2));
    }
}

/// A frame that is whole stays the first frame whatever is delivered after
/// it.
pub proof fn lemma_frame_survives_later_bytes(s: Seq<u8>, frame: Seq<u8>, later: Seq<u8>)
    requires
        is_first_frame(s, frame),
    ensures
        is_first_frame(s + later, frame),
{
    let t = s + later;
    assert(frame =~= t.take(frame.len() as int));
    assert forall|j: int| 0 <= j < frame.len() - 2 implies !crlf_at(t, j) by {
        assert(!crlf_at(s, j));
    }
}

/// A frame whose bytes come in two deliveries, cut anywhere inside it, is
/// found as one frame: after the first delivery no frame is reported, and
/// after the second the frame is the first frame of what was delivered.
/// The cut may fall between the two bytes of the terminator.
pub proof fn lemma_frame_found_wherever_cut(first: Seq<u8>, second: Seq<u8>, frame: Seq<u8>)
    requires
        is_first_frame(first + second, frame),
        first.len() < frame.len(),
    ensures
        !has_frame(first),
{
    let s = first + second;
    assert forall|i: int| !crlf_at(first, i) by {
        if crlf_at(first, i) {
            assert(crlf_at(s, i));
            assert(i < frame.len() - 2);
        }
    }
}

/// A terminator whose two bytes come in two deliveries ends a frame: when
/// what was delivered first ends in `\r` and holds no terminator, and what
/// comes next starts with `\n`, the first frame is the first delivery with
/// that `\n`.
pub proof fn lemma_split_terminator(first: Seq<u8>, second: Seq<u8>)
    requires
        !has_frame(first),
        first.len() > 0,
        first.last() == 13u8,
        second.len() > 0,
        second[0] == 10u8,
    ensures
        is_first_frame(first + second, first.push(10u8)),
{
    let s = first + second;
    let frame = first.push(10u8);
    assert(frame =~= s.take(frame.len() as int));
    assert(crlf_at(s, frame.len() - 2));
    assert forall|j: int| 0 <= j < frame.len() - 2 implies !crlf_at(s, j) by {
        if crlf_at(s, j) {
            assert(crlf_at(first, j));
        }
    }
}

/// Two deliveries leave the buffer as one delivery of the same bytes does.
pub proof fn lemma_deliveries_join(held: Seq<u8>, first: Seq<u8>, second: Seq<u8>)
    ensures
        (held + first) + second == held + (first + second),
{
    assert((held + first) + second =~= held + (first + second));
}

/// What is written as a frame is read as that frame, whatever is written
/// after it, as long as the payload holds no terminator and does not end in
/// `\r`.
pub proof fn lemma_written_frame_is_read(payload: Seq<u8>, later: Seq<u8>)
    requires
        !has_frame(payload),
        payload.len() == 0 || payload.last() != 13u8,
    ensures
        is_first_frame(framed(payload) + later, framed(payload)),
{
    let frame = framed(payload);
    let s = frame + later;
    assert(frame =~= s.take(frame.len() as int));
    assert forall|j: int| 0 <= j < frame.len() - 2 implies !crlf_at(s, j) by {
        if crlf_at(s, j) {
            if j + 1 < payload.len() {
                assert(crlf_at(payload, j));
            }
        }
    }
}

} // verus!
