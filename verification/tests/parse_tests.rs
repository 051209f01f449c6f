use rustis::command::Command;
use rustis::decimal::{parse_dec_full, Dec};
use rustis::grammar::{command_parser, parse_int, parse_string};
use rustis::parse::{decode_reply, parse_frames, ParseResult};
use rustis::value::Value;

#[test]
fn test_parse() {
    assert_eq!(
        Command::parse("*1\r\n$6\r\nDBSIZE\r\n"),
        ParseResult(16, vec![Command::DbSize])
    );
    assert_eq!(
        Command::parse("*1\r\n$6\r\nDBSIZE\r\n*2\r\n$3\r\nGET\r\n$4\r\nabcd\r\n"),
        ParseResult(
            39,
            vec![
                Command::DbSize,
                Command::Get {
                    key: "abcd".to_string()
                }
            ]
        )
    );
}

#[test]
fn test_parse_resp() {
    assert_eq!(parse_frames("*0\r\n"), (vec![Vec::<String>::new()], 4));
    assert_eq!(
        parse_frames("*1\r\n$12\r\nabcdefghijkl\r\n"),
        (vec![vec!["abcdefghijkl".to_string()]], 23)
    );
    assert_eq!(
        parse_frames("*2\r\n$0\r\n\r\n$4\r\nabcd\r\n"),
        (vec![vec!["".to_string(), "abcd".to_string()]], 20)
    );
    assert_eq!(
        parse_frames("*1\r\n$6\r\nDBSIZE\r\n"),
        (vec![vec!["DBSIZE".to_string()]], 16)
    );
    assert_eq!(
        decode_reply("$0\r\n\r\n"),
        Some(Value::StrValue("".to_string()))
    );
    assert_eq!(
        decode_reply("$1\r\nx\r\n"),
        Some(Value::StrValue("x".to_string()))
    );
    assert_eq!(
        decode_reply("$4\r\nabcd\r\n"),
        Some(Value::StrValue("abcd".to_string()))
    );
}

#[test]
fn test_parse_int() {
    assert_eq!(parse_int("123", 3, 0), Some((123, 3)));
    assert_eq!(parse_int("0", 1, 0), Some((0, 1)));
    assert_eq!(parse_int("-123", 4, 0), Some((-123, 4)));
}

#[test]
fn test_parse_float() {
    assert_eq!(parse_dec_full("1"), Some(Dec { mant: 1, scale: 0 }));
    assert_eq!(parse_dec_full("1.0"), Some(Dec { mant: 10, scale: 1 }));
    assert_eq!(parse_dec_full("1.2"), Some(Dec { mant: 12, scale: 1 }));
    assert_eq!(parse_dec_full("-3.25"), Some(Dec { mant: -325, scale: 2 }));
    assert_eq!(parse_dec_full("abc"), None);
}

#[test]
fn test_parse_quoted_chars() {
    assert_eq!(parse_string("\"\"", 2, 0), Some(("".to_string(), 2)));
    assert_eq!(
        parse_string("\"abc123def\"", 11, 0),
        Some(("abc123def".to_string(), 11))
    );
    assert_eq!(parse_string("\" \"", 3, 0), Some((" ".to_string(), 3)));
    assert_eq!(
        parse_string("\"hello world\"", 13, 0),
        Some(("hello world".to_string(), 13))
    );
}

#[test]
fn test_parse_command() {
    assert_eq!(command_parser("SELECT 1"), Some((Command::Select(1), 8)));
    assert_eq!(command_parser("DBSIZE"), Some((Command::DbSize, 6)));
    assert_eq!(command_parser("FLUSHALL"), Some((Command::FlushAll, 8)));
    assert_eq!(command_parser("FLUSHDB"), Some((Command::FlushDb, 7)));
    assert_eq!(
        command_parser("GET abcd"),
        Some((
            Command::Get {
                key: "abcd".to_string()
            },
            8
        ))
    );
    assert_eq!(
        command_parser("SET abc 1"),
        Some((
            Command::SetCmd {
                key: "abc".to_string(),
                value: Value::IntValue(1),
                exp: None
            },
            9
        ))
    );
    assert_eq!(
        command_parser("EXISTS abcd"),
        Some((
            Command::Exists {
                key: "abcd".to_string()
            },
            11
        ))
    );
    assert_eq!(
        command_parser("TYPE abcd"),
        Some((
            Command::Type {
                key: "abcd".to_string()
            },
            9
        ))
    );
    assert_eq!(
        command_parser("DEL abcd efgh"),
        Some((
            Command::Del {
                keys: vec!["abcd".to_string(), "efgh".to_string()]
            },
            13
        ))
    );
    assert_eq!(
        command_parser("INCR abcd"),
        Some((
            Command::Incr {
                key: "abcd".to_string()
            },
            9
        ))
    );
    assert_eq!(
        command_parser("INCRBY abcd 10"),
        Some((
            Command::IncrBy {
                key: "abcd".to_string(),
                increment: 10
            },
            14
        ))
    );
    assert_eq!(
        command_parser("INCRBYFLOAT abcd 0.1"),
        Some((
            Command::IncrByFloat {
                key: "abcd".to_string(),
                increment: Dec { mant: 1, scale: 1 }
            },
            20
        ))
    );
    assert_eq!(
        command_parser("PING"),
        Some((
            Command::Ping {
                message: "PONG".to_string()
            },
            4
        ))
    );
    assert_eq!(
        command_parser("ECHO \"hello world\""),
        Some((
            Command::Echo {
                message: "hello world".to_string()
            },
            18
        ))
    );
}

#[test]
fn test_parse_command_case_insensitive() {
    assert_eq!(command_parser("dbsize"), Some((Command::DbSize, 6)));
    assert_eq!(
        command_parser("get KeY"),
        Some((
            Command::Get {
                key: "KeY".to_string()
            },
            7
        ))
    );
}

#[test]
fn test_parse_command_list_verbs() {
    assert_eq!(
        command_parser("LPUSH k a b"),
        Some((
            Command::Lpush {
                key: "k".to_string(),
                values: vec!["a".to_string(), "b".to_string()]
            },
            11
        ))
    );
    assert_eq!(
        command_parser("LSET k -1 v"),
        Some((
            Command::Lset {
                key: "k".to_string(),
                index: -1,
                value: "v".to_string()
            },
            11
        ))
    );
    assert_eq!(
        command_parser("LINDEX k 2"),
        Some((
            Command::Lindex {
                key: "k".to_string(),
                index: 2
            },
            10
        ))
    );
    assert_eq!(command_parser("TIME"), Some((Command::Time, 4)));
}

#[test]
fn test_parse_frames_stops_at_partial() {
    // The second frame is incomplete and must stay unconsumed.
    let (frames, used) = parse_frames("*1\r\n$4\r\nPING\r\n*1\r\n$3\r\nGE");
    assert_eq!(frames, vec![vec!["PING".to_string()]]);
    assert_eq!(used, 14);
    // A malformed head consumes nothing.
    assert_eq!(parse_frames("hello"), (Vec::<Vec<String>>::new(), 0));
    assert_eq!(parse_frames("*x\r\n"), (Vec::<Vec<String>>::new(), 0));
}

#[test]
fn test_parse_concatenated_frames_all_consumed() {
    // Complete frames concatenated into one buffer are consumed exactly
    // and decoded in order.
    let one = "*1\r\n$4\r\nPING\r\n";
    let two = "*2\r\n$3\r\nGET\r\n$1\r\nk\r\n";
    let buf = format!("{}{}", one, two);
    let (frames, used) = parse_frames(&buf);
    assert_eq!(used, one.len() + two.len());
    assert_eq!(
        frames,
        vec![
            vec!["PING".to_string()],
            vec!["GET".to_string(), "k".to_string()]
        ]
    );
}

#[test]
fn test_quote() {
    assert_eq!(Command::quote("abc"), "abc");
    assert_eq!(Command::quote(""), "\"\"");
    assert_eq!(Command::quote("a b"), "\"a b\"");
}

#[test]
fn test_unknown_frame_becomes_unknown_command() {
    let r = Command::parse("*1\r\n$7\r\nNOTHING\r\n");
    assert_eq!(r, ParseResult(17, vec![Command::Unknown]));
}

#[test]
fn test_partially_consumed_line_is_unknown() {
    // The value parser commits to the integer "123" and leaves "abc", so
    // the line is not fully consumed and the frame is answered as unknown.
    let r = Command::parse("*3\r\n$3\r\nSET\r\n$3\r\nabc\r\n$6\r\n123abc\r\n");
    assert_eq!(r, ParseResult(34, vec![Command::Unknown]));
}

#[test]
fn test_select_negative_clamps_out_of_range() {
    assert_eq!(
        command_parser("SELECT -1"),
        Some((Command::Select(usize::MAX), 9))
    );
}

#[test]
fn test_empty_frame_is_unknown() {
    assert_eq!(Command::parse("*0\r\n"), ParseResult(4, vec![Command::Unknown]));
}
