use kv_cache::{Cache, Connection, FrameError, MemcacheServer, Reply, Session, Timed};
use std::time::Duration;

/// Feeds `input` to the connection and answers every frame it holds.
fn exchange(
    server: &mut MemcacheServer,
    session: &mut Session,
    connection: &mut Connection,
    input: &[u8],
) -> Vec<u8> {
    connection.receive(input).expect("the input is taken in");
    let mut written = Vec::new();
    while let Some(frame) = connection.read_frame(<[u8]>::to_vec).expect("the buffer is not full") {
        written.extend_from_slice(&server.process(session, &frame).bytes);
    }
    written
}

fn fresh() -> (MemcacheServer, Session, Connection) {
    (MemcacheServer::new(Cache::new(Some(Duration::from_secs(3600)))), Session::new(), Connection::new())
}

fn bytes(text: &str) -> Vec<u8> {
    text.as_bytes().to_vec()
}

#[test]
fn set_then_get_serves_the_value() {
    let (mut server, mut session, mut connection) = fresh();
    let written = exchange(&mut server, &mut session, &mut connection, b"set foo 1 0 3\r\nbar\r\n");
    assert_eq!(written, b"STORED\r\n");
    assert_eq!(server.len(), 1);
    let written = exchange(&mut server, &mut session, &mut connection, b"get foo\r\n");
    assert_eq!(written, b"VALUE foo 1 3\r\nbar\r\nEND\r\n");
    assert_eq!(session, Session::AwaitCommand);
}

#[test]
fn cache_behind_the_server_can_be_read() {
    let (mut server, mut session, mut connection) = fresh();
    exchange(&mut server, &mut session, &mut connection, b"set foo 7 0 3\r\nbar\r\n");
    assert_eq!(server.cache().len(), 1);
    let found = server.cache().get(&bytes("foo")).expect("stored");
    assert_eq!(found.value(), &bytes("bar"));
    assert_eq!(found.get_flag(), 7);
}

#[test]
fn set_with_noreply_writes_nothing() {
    let (mut server, mut session, mut connection) = fresh();
    let written =
        exchange(&mut server, &mut session, &mut connection, b"set foo 0 0 3 noreply\r\nbar\r\n");
    assert_eq!(written, b"");
    let written = exchange(&mut server, &mut session, &mut connection, b"get foo\r\n");
    assert_eq!(written, b"VALUE foo 0 3\r\nbar\r\nEND\r\n");
}

#[test]
fn get_of_a_missing_key_writes_end_alone() {
    let (mut server, mut session, mut connection) = fresh();
    let written = exchange(&mut server, &mut session, &mut connection, b"get missing\r\n");
    assert_eq!(written, b"END\r\n");
}

#[test]
fn version_names_the_server() {
    let (mut server, mut session, mut connection) = fresh();
    let written = exchange(&mut server, &mut session, &mut connection, b"version\r\n");
    assert_eq!(written, b"VERSION 0.1.0\r\n");
    assert_eq!(session, Session::AwaitCommand);
}

#[test]
fn value_of_the_wrong_length_is_a_client_error_and_is_not_stored() {
    let (mut server, mut session, mut connection) = fresh();
    let written = exchange(&mut server, &mut session, &mut connection, b"set foo 0 0 5\r\nbar\r\n");
    assert_eq!(written, b"CLIENT_ERROR bad data chunk\r\n");
    assert_eq!(server.len(), 0);
    assert_eq!(session, Session::AwaitCommand);
    let written = exchange(&mut server, &mut session, &mut connection, b"get foo\r\n");
    assert_eq!(written, b"END\r\n");
}

#[test]
fn value_longer_than_announced_is_a_client_error() {
    let (mut server, mut session, mut connection) = fresh();
    let written = exchange(&mut server, &mut session, &mut connection, b"set foo 0 0 2\r\nbar\r\n");
    assert_eq!(written, b"CLIENT_ERROR bad data chunk\r\n");
    assert_eq!(server.len(), 0);
}

#[test]
fn unknown_line_is_an_error_and_the_connection_goes_on() {
    let (mut server, mut session, mut connection) = fresh();
    let written = exchange(&mut server, &mut session, &mut connection, b"frobnicate\r\n");
    assert_eq!(written, b"ERROR\r\n");
    assert_eq!(session, Session::AwaitCommand);
    let written = exchange(&mut server, &mut session, &mut connection, b"set foo 1 0 3\r\nbar\r\n");
    assert_eq!(written, b"STORED\r\n");
    let written = exchange(&mut server, &mut session, &mut connection, b"get foo\r\n");
    assert_eq!(written, b"VALUE foo 1 3\r\nbar\r\nEND\r\n");
}

#[test]
fn malformed_line_is_an_error() {
    let (mut server, mut session, mut connection) = fresh();
    for line in [&b"set foo 1 0\r\n"[..], b"get\r\n", b"\r\n", b"set foo x 0 3\r\n", b"version 2\r\n"] {
        assert_eq!(exchange(&mut server, &mut session, &mut connection, line), b"ERROR\r\n");
        assert_eq!(session, Session::AwaitCommand);
    }
    assert_eq!(server.len(), 0);
}

#[test]
fn set_line_with_misplaced_space_is_an_error_and_stores_nothing() {
    let (mut server, mut session, mut connection) = fresh();
    for line in [&b"set foo 0 0 3noreply\r\n"[..], b"set foo 0 0 3 \r\n", b"set foo 0 0 3  noreply\r\n"] {
        assert_eq!(exchange(&mut server, &mut session, &mut connection, line), b"ERROR\r\n");
        assert_eq!(session, Session::AwaitCommand);
    }
    assert_eq!(exchange(&mut server, &mut session, &mut connection, b"bar\r\n"), b"ERROR\r\n");
    assert_eq!(server.len(), 0);
}

#[test]
fn commands_in_one_delivery_are_answered_in_order() {
    let (mut server, mut session, mut connection) = fresh();
    let written = exchange(
        &mut server,
        &mut session,
        &mut connection,
        b"get a\r\nset a 5 0 1\r\nx\r\nget a\r\nbogus\r\nversion\r\n",
    );
    assert_eq!(
        written,
        bytes("END\r\nSTORED\r\nVALUE a 5 1\r\nx\r\nEND\r\nERROR\r\nVERSION 0.1.0\r\n")
    );
}

#[test]
fn command_split_across_deliveries_is_answered_once_whole() {
    let (mut server, mut session, mut connection) = fresh();
    assert_eq!(exchange(&mut server, &mut session, &mut connection, b"set foo 1 0 3\r"), b"");
    assert_eq!(session, Session::AwaitCommand);
    assert_eq!(exchange(&mut server, &mut session, &mut connection, b"\nba"), b"");
    assert_eq!(
        session,
        Session::AwaitValue { key: bytes("foo"), flag: 1, ttl: 0, len: 3, noreply: false }
    );
    assert_eq!(exchange(&mut server, &mut session, &mut connection, b"r\r"), b"");
    assert_eq!(exchange(&mut server, &mut session, &mut connection, b"\nget foo\r\n"), bytes(
        "STORED\r\nVALUE foo 1 3\r\nbar\r\nEND\r\n"
    ));
}

#[test]
fn set_overwrites() {
    let (mut server, mut session, mut connection) = fresh();
    exchange(&mut server, &mut session, &mut connection, b"set foo 1 0 3\r\nbar\r\n");
    exchange(&mut server, &mut session, &mut connection, b"set foo 2 0 6\r\nbarbaz\r\n");
    assert_eq!(server.len(), 1);
    let written = exchange(&mut server, &mut session, &mut connection, b"get foo\r\n");
    assert_eq!(written, b"VALUE foo 2 6\r\nbarbaz\r\nEND\r\n");
}

#[test]
fn empty_value_is_stored() {
    let (mut server, mut session, mut connection) = fresh();
    let written = exchange(&mut server, &mut session, &mut connection, b"set foo 0 0 0\r\n\r\n");
    assert_eq!(written, b"STORED\r\n");
    let written = exchange(&mut server, &mut session, &mut connection, b"get foo\r\n");
    assert_eq!(written, b"VALUE foo 0 0\r\n\r\nEND\r\n");
}

#[test]
fn value_with_a_terminator_inside_is_cut_there() {
    let (mut server, mut session, mut connection) = fresh();
    let written = exchange(&mut server, &mut session, &mut connection, b"set foo 0 0 5\r\nab\r\nc\r\n");
    assert_eq!(written, bytes("CLIENT_ERROR bad data chunk\r\nERROR\r\n"));
    assert_eq!(server.len(), 0);
}

#[test]
fn value_may_look_like_a_command() {
    let (mut server, mut session, mut connection) = fresh();
    let written = exchange(&mut server, &mut session, &mut connection, b"set foo 0 0 7\r\nget foo\r\n");
    assert_eq!(written, b"STORED\r\n");
    let written = exchange(&mut server, &mut session, &mut connection, b"get foo\r\n");
    assert_eq!(written, b"VALUE foo 0 7\r\nget foo\r\nEND\r\n");
}

#[test]
fn largest_flag_and_binary_value_are_served() {
    let (mut server, mut session, mut connection) = fresh();
    let written = exchange(
        &mut server,
        &mut session,
        &mut connection,
        b"set k 4294967295 0 4\r\n\x00\xff\n\r\r\n",
    );
    assert_eq!(written, b"STORED\r\n");
    let written = exchange(&mut server, &mut session, &mut connection, b"get k\r\n");
    assert_eq!(written, b"VALUE k 4294967295 4\r\n\x00\xff\n\r\r\nEND\r\n");
}

#[test]
fn step_reports_what_is_measured() {
    let mut server = MemcacheServer::new(Cache::new(None));
    let mut session = Session::new();
    assert_eq!(
        server.process(&mut session, b"set foo 1 0 3\r\n"),
        Reply { bytes: Vec::new(), timed: None }
    );
    assert_eq!(
        server.process(&mut session, b"bar\r\n"),
        Reply { bytes: bytes("STORED\r\n"), timed: Some(Timed::SetCommand) }
    );
    assert_eq!(
        server.process(&mut session, b"get foo\r\n"),
        Reply { bytes: bytes("VALUE foo 1 3\r\nbar\r\nEND\r\n"), timed: Some(Timed::GetCommand) }
    );
    assert_eq!(
        server.process(&mut session, b"get nothing\r\n"),
        Reply { bytes: bytes("END\r\n"), timed: Some(Timed::GetCommand) }
    );
    assert_eq!(
        server.process(&mut session, b"version\r\n"),
        Reply { bytes: bytes("VERSION 0.1.0\r\n"), timed: None }
    );
    assert_eq!(
        server.process(&mut session, b"what\r\n"),
        Reply { bytes: bytes("ERROR\r\n"), timed: None }
    );
    assert_eq!(
        server.process(&mut session, b"set foo 1 0 3 noreply\r\n"),
        Reply { bytes: Vec::new(), timed: None }
    );
    assert_eq!(
        server.process(&mut session, b"abc\r\n"),
        Reply { bytes: Vec::new(), timed: Some(Timed::SetCommand) }
    );
    assert_eq!(
        server.process(&mut session, b"set foo 1 0 3\r\n"),
        Reply { bytes: Vec::new(), timed: None }
    );
    assert_eq!(
        server.process(&mut session, b"abcd\r\n"),
        Reply { bytes: bytes("CLIENT_ERROR bad data chunk\r\n"), timed: None }
    );
}

#[test]
fn set_with_ttl_is_served_until_it_expires() {
    let mut server = MemcacheServer::new(Cache::new(None));
    let mut session = Session::new();
    let stored_at: u128 = 1_000_000_000_000;
    server.process_at(&mut session, b"set foo 9 60 3\r\n", stored_at);
    assert_eq!(server.process_at(&mut session, b"bar\r\n", stored_at).bytes, b"STORED\r\n");
    let expiry: u128 = stored_at + 60_000_000_000;
    assert_eq!(
        server.process_at(&mut session, b"get foo\r\n", expiry).bytes,
        b"VALUE foo 9 3\r\nbar\r\nEND\r\n"
    );
    assert_eq!(server.process_at(&mut session, b"get foo\r\n", expiry + 1).bytes, b"END\r\n");
    assert_eq!(server.len(), 1);
    assert_eq!(server.sweep_at(expiry + 1), (1, 0));
    assert_eq!(server.len(), 0);
}

#[test]
fn expiry_counts_from_the_value_frame() {
    let mut server = MemcacheServer::new(Cache::new(None));
    let mut session = Session::new();
    server.process_at(&mut session, b"set foo 9 1 3\r\n", 0);
    server.process_at(&mut session, b"bar\r\n", 500);
    assert_eq!(
        server.process_at(&mut session, b"get foo\r\n", 1_000_000_500).bytes,
        b"VALUE foo 9 3\r\nbar\r\nEND\r\n"
    );
    assert_eq!(server.process_at(&mut session, b"get foo\r\n", 1_000_000_501).bytes, b"END\r\n");
}

#[test]
fn sweep_by_the_clock_keeps_what_is_live() {
    let mut server = MemcacheServer::new(Cache::new(None));
    let mut session = Session::new();
    server.process_at(&mut session, b"set old 0 1 1\r\n", 0);
    server.process_at(&mut session, b"x\r\n", 0);
    server.process(&mut session, b"set new 0 0 1\r\n");
    server.process(&mut session, b"y\r\n");
    assert_eq!(server.sweep(), (2, 1));
    assert_eq!(server.process(&mut session, b"get new\r\n").bytes, b"VALUE new 0 1\r\ny\r\nEND\r\n");
}

#[test]
fn closed_session_does_nothing() {
    let mut server = MemcacheServer::new(Cache::new(None));
    let mut session = Session::new();
    assert!(!session.is_closed());
    server.process(&mut session, b"set foo 1 0 3\r\n");
    assert!(!session.is_closed());
    session.close();
    assert!(session.is_closed());
    assert_eq!(server.process(&mut session, b"bar\r\n"), Reply { bytes: Vec::new(), timed: None });
    assert_eq!(server.process(&mut session, b"version\r\n"), Reply { bytes: Vec::new(), timed: None });
    assert_eq!(session, Session::Closed);
    assert_eq!(server.len(), 0);
}

#[test]
fn line_that_fills_the_buffer_ends_the_connection_without_a_reply() {
    let (mut server, mut session, mut connection) = fresh();
    let chunk = vec![b'a'; 64 * 1024];
    let mut written = Vec::new();
    let outcome = loop {
        match connection.read_frame(<[u8]>::to_vec) {
            Ok(Some(frame)) => written.extend_from_slice(&server.process(&mut session, &frame).bytes),
            Ok(None) => {
                let room = connection.room().min(chunk.len());
                connection.receive(&chunk[..room]).expect("there is room");
            },
            Err(e) => {
                session.close();
                break e;
            },
        }
    };
    assert_eq!(outcome, FrameError::FrameTooLarge);
    assert!(written.is_empty());
    assert!(session.is_closed());
    assert_eq!(server.len(), 0);
}

#[test]
fn peer_closing_ends_the_connection() {
    let (_, mut session, mut connection) = fresh();
    connection.receive(b"get fo").expect("taken in");
    assert_eq!(connection.read_frame(<[u8]>::to_vec), Ok(None));
    assert_eq!(connection.receive(b""), Err(FrameError::ConnectionReset));
    session.close();
    assert!(session.is_closed());
}
