use rustis::command::{Command, Return};
use rustis::server::{ClientConnection, RustisServer, MAX_CONNECTIONS};
use rustis::value::Value;

#[test]
fn test_select_range() {
    let mut server = RustisServer::new(4);
    let mut conn = ClientConnection::new();
    assert_eq!(conn.db, 0);
    // An index at or beyond the configured count is refused and the
    // selection stays where it was.
    let r = server.dispatch(&mut conn, Command::Select(4));
    assert_eq!(r, Return::Error("ERR db out of range".to_string()));
    assert_eq!(conn.db, 0);
    let r = server.dispatch(&mut conn, Command::Select(3));
    assert_eq!(r, Return::Okay);
    assert_eq!(conn.db, 3);
}

#[test]
fn test_select_routes_to_database() {
    let mut server = RustisServer::new(2);
    let mut conn = ClientConnection::new();
    server.dispatch(
        &mut conn,
        Command::SetCmd {
            key: "k".to_string(),
            value: Value::IntValue(1),
            exp: None,
        },
    );
    server.dispatch(&mut conn, Command::Select(1));
    assert_eq!(
        server.dispatch(
            &mut conn,
            Command::Get {
                key: "k".to_string()
            }
        ),
        Return::ValueReturn(Value::Nil)
    );
    server.dispatch(&mut conn, Command::Select(0));
    assert_eq!(
        server.dispatch(
            &mut conn,
            Command::Get {
                key: "k".to_string()
            }
        ),
        Return::ValueReturn(Value::IntValue(1))
    );
}

#[test]
fn test_swapdb() {
    let mut server = RustisServer::new(2);
    let mut conn = ClientConnection::new();
    server.dispatch(
        &mut conn,
        Command::SetCmd {
            key: "k".to_string(),
            value: Value::IntValue(7),
            exp: None,
        },
    );
    assert_eq!(
        server.dispatch(&mut conn, Command::SwapDb(0, 1)),
        Return::Okay
    );
    // The connection still selects index zero, which now holds the other
    // database.
    assert_eq!(
        server.dispatch(
            &mut conn,
            Command::Get {
                key: "k".to_string()
            }
        ),
        Return::ValueReturn(Value::Nil)
    );
    server.dispatch(&mut conn, Command::Select(1));
    assert_eq!(
        server.dispatch(
            &mut conn,
            Command::Get {
                key: "k".to_string()
            }
        ),
        Return::ValueReturn(Value::IntValue(7))
    );
    // Out-of-range slots are refused.
    assert_eq!(
        server.dispatch(&mut conn, Command::SwapDb(0, 9)),
        Return::Error("ERR db out of range".to_string())
    );
}

#[test]
fn test_flushall_empties_every_database() {
    let mut server = RustisServer::new(3);
    let mut conn = ClientConnection::new();
    for i in 0..3usize {
        server.dispatch(&mut conn, Command::Select(i));
        server.dispatch(
            &mut conn,
            Command::SetCmd {
                key: format!("k{}", i),
                value: Value::IntValue(i as i64),
                exp: None,
            },
        );
    }
    assert_eq!(
        server.dispatch(&mut conn, Command::FlushAll),
        Return::Okay
    );
    for i in 0..3usize {
        server.dispatch(&mut conn, Command::Select(i));
        assert_eq!(
            server.dispatch(&mut conn, Command::DbSize),
            Return::ValueReturn(Value::IntValue(0))
        );
    }
}

#[test]
fn test_handle_input_pipelined() {
    let mut server = RustisServer::new(1);
    let mut conn = ClientConnection::new();
    let out = server.handle_input(
        &mut conn,
        "*3\r\n$3\r\nSET\r\n$1\r\nk\r\n$2\r\nhi\r\n*2\r\n$3\r\nGET\r\n$1\r\nk\r\n",
        0,
    );
    assert_eq!(out, "+OK\r\n$2\r\nhi\r\n");
    assert_eq!(conn.buf, "");
}

#[test]
fn test_handle_input_partial_frame_buffered() {
    let mut server = RustisServer::new(1);
    let mut conn = ClientConnection::new();
    let out = server.handle_input(&mut conn, "*1\r\n$4\r\nPI", 0);
    assert_eq!(out, "");
    assert_eq!(conn.buf, "*1\r\n$4\r\nPI");
    let out = server.handle_input(&mut conn, "NG\r\n", 0);
    assert_eq!(out, "$4\r\nPONG\r\n");
    assert_eq!(conn.buf, "");
}

#[test]
fn test_handle_input_unknown_command() {
    let mut server = RustisServer::new(1);
    let mut conn = ClientConnection::new();
    let out = server.handle_input(
        &mut conn,
        "*1\r\n$7\r\nNOTHING\r\n*1\r\n$4\r\nPING\r\n",
        0,
    );
    // The unrecognized frame is answered and the batch continues.
    assert_eq!(out, "-ERR unknown command\r\n$4\r\nPONG\r\n");
}

#[test]
fn test_handle_input_select_pipeline() {
    let mut server = RustisServer::new(2);
    let mut conn = ClientConnection::new();
    let out = server.handle_input(
        &mut conn,
        "*2\r\n$6\r\nSELECT\r\n$1\r\n9\r\n*2\r\n$6\r\nSELECT\r\n$1\r\n1\r\n",
        0,
    );
    assert_eq!(out, "-ERR db out of range\r\n+OK\r\n");
    assert_eq!(conn.db, 1);
}

#[test]
fn test_token_pool() {
    let mut server = RustisServer::new(1);
    // Tokens come from the top of the pool and can be returned.
    let t1 = server.get_client_token();
    assert_eq!(t1, Some(MAX_CONNECTIONS));
    let t2 = server.get_client_token();
    assert_eq!(t2, Some(MAX_CONNECTIONS - 1));
    server.recycle_client_token(MAX_CONNECTIONS - 1);
    assert_eq!(server.get_client_token(), Some(MAX_CONNECTIONS - 1));
}

#[test]
fn test_handle_input_sweeps_expired() {
    let mut server = RustisServer::new(1);
    let mut conn = ClientConnection::new();
    // Establish a key with an expiry through the engine, then let a later
    // readable event sweep it before serving the read.
    let out = server.handle_input(&mut conn, "*3\r\n$3\r\nSET\r\n$1\r\nk\r\n$1\r\nv\r\n", 0);
    assert_eq!(out, "+OK\r\n");
    // No expiry was set, so the key survives any sweep instant.
    let out = server.handle_input(&mut conn, "*2\r\n$3\r\nGET\r\n$1\r\nk\r\n", 1000000);
    assert_eq!(out, "$1\r\nv\r\n");
}
