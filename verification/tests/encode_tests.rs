use rustis::command::Return;
use rustis::parse::decode_reply;
use rustis::value::Value;

#[test]
fn test_nil() {
    assert_eq!(Value::Nil.encode(), "$-1\r\n");
}

#[test]
fn test_int() {
    assert_eq!(Value::IntValue(1).encode(), ":1\r\n");
    assert_eq!(Value::IntValue(20).encode(), ":20\r\n");
    assert_eq!(Value::IntValue(500).encode(), ":500\r\n");
    assert_eq!(Value::IntValue(-12).encode(), ":-12\r\n");
}

#[test]
fn test_str() {
    assert_eq!(Value::StrValue("".to_string()).encode(), "$0\r\n\r\n");
    assert_eq!(Value::StrValue("a".to_string()).encode(), "$1\r\na\r\n");
    assert_eq!(
        Value::StrValue("abc def".to_string()).encode(),
        "$7\r\nabc def\r\n"
    );
    assert_eq!(
        Value::StrValue("abc\ndefg".to_string()).encode(),
        "$8\r\nabc\ndefg\r\n"
    );
}

#[test]
fn test_array() {
    assert_eq!(
        Value::ArrayValue(vec![
            Value::IntValue(1),
            Value::Nil,
            Value::StrValue("abc".to_string())
        ])
        .encode(),
        "*3\r\n:1\r\n$-1\r\n$3\r\nabc\r\n"
    );
}

#[test]
fn test_ok() {
    assert_eq!(Return::Okay.encode(), "+OK\r\n");
}

#[test]
fn test_error() {
    assert_eq!(
        Return::Error("ERR there was an error".to_string()).encode(),
        "-ERR there was an error\r\n"
    );
}

#[test]
fn test_list_encode() {
    let mut l = std::collections::VecDeque::new();
    l.push_back("x".to_string());
    l.push_back("yz".to_string());
    assert_eq!(
        Value::ListValue(l).encode(),
        "*2\r\n$1\r\nx\r\n$2\r\nyz\r\n"
    );
}

#[test]
fn test_extreme_ints() {
    assert_eq!(Value::IntValue(i64::MAX).encode(), ":9223372036854775807\r\n");
    assert_eq!(Value::IntValue(i64::MIN).encode(), ":-9223372036854775808\r\n");
    assert_eq!(Value::IntValue(0).encode(), ":0\r\n");
}

#[test]
fn test_reply_round_trip() {
    let cases = vec![
        Value::Nil,
        Value::IntValue(0),
        Value::IntValue(42),
        Value::IntValue(-7),
        Value::IntValue(i64::MIN),
        Value::StrValue("".to_string()),
        Value::StrValue("hello world".to_string()),
        Value::StrValue("with\r\nbreaks".to_string()),
    ];
    for v in cases {
        let encoded = v.clone().encode();
        let decoded = decode_reply(&encoded);
        assert_eq!(decoded, Some(v));
    }
}

#[test]
fn test_reply_decode_rejects_trailing() {
    assert_eq!(decode_reply(":1\r\nx"), None);
    assert_eq!(decode_reply("$4\r\nabcd\r\nmore"), None);
    assert_eq!(decode_reply(""), None);
    assert_eq!(decode_reply("+OK\r\n"), None);
}
