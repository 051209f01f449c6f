use rustis::command::{Command, Return};
use rustis::db::RustisDb;
use rustis::decimal::Dec;
use rustis::value::Value;

#[test]
fn test_dbsize() {
    let mut db = RustisDb::new();
    assert_eq!(
        db.run_command(Command::DbSize),
        Return::ValueReturn(Value::IntValue(0))
    );
    let result = db.run_command(Command::SetCmd {
        key: "test_key123".to_string(),
        value: Value::StrValue("abc".to_string()),
        exp: None,
    });
    assert_eq!(result, Return::Okay);
    assert_eq!(
        db.run_command(Command::DbSize),
        Return::ValueReturn(Value::IntValue(1))
    );
    let result = db.run_command(Command::SetCmd {
        key: "test_key123".to_string(),
        value: Value::StrValue("def".to_string()),
        exp: None,
    });
    assert_eq!(result, Return::Okay);
    assert_eq!(
        db.run_command(Command::DbSize),
        Return::ValueReturn(Value::IntValue(1))
    );
    let result = db.run_command(Command::SetCmd {
        key: "test_key456".to_string(),
        value: Value::StrValue("abc".to_string()),
        exp: None,
    });
    assert_eq!(result, Return::Okay);
    assert_eq!(
        db.run_command(Command::DbSize),
        Return::ValueReturn(Value::IntValue(2))
    );
    let result = db.run_command(Command::Del {
        keys: vec!["test_key456".to_string()],
    });
    assert_eq!(result, Return::ValueReturn(Value::IntValue(1)));
    assert_eq!(
        db.run_command(Command::DbSize),
        Return::ValueReturn(Value::IntValue(1))
    );
}

#[test]
fn test_get_set() {
    let mut db = RustisDb::new();
    assert_eq!(
        db.run_command(Command::Get {
            key: "test_key123".to_string()
        }),
        Return::ValueReturn(Value::Nil)
    );
    let result = db.run_command(Command::SetCmd {
        key: "test_key123".to_string(),
        value: Value::StrValue("def".to_string()),
        exp: None,
    });
    assert_eq!(result, Return::Okay);
    assert_eq!(
        db.run_command(Command::Get {
            key: "test_key123".to_string()
        }),
        Return::ValueReturn(Value::StrValue("def".to_string()))
    );
}

#[test]
fn test_incr() {
    let mut db = RustisDb::new();
    assert_eq!(
        db.run_command(Command::Incr {
            key: "abc".to_string()
        }),
        Return::ValueReturn(Value::IntValue(1))
    );
    assert_eq!(
        db.run_command(Command::Incr {
            key: "abc".to_string()
        }),
        Return::ValueReturn(Value::IntValue(2))
    );
    assert_eq!(
        db.run_command(Command::IncrBy {
            key: "abc".to_string(),
            increment: 10
        }),
        Return::ValueReturn(Value::IntValue(12))
    );
    assert_eq!(
        db.run_command(Command::IncrByFloat {
            key: "abc".to_string(),
            increment: Dec { mant: 1, scale: 1 }
        }),
        Return::ValueReturn(Value::StrValue("12.1".to_string()))
    );
    db.run_command(Command::SetCmd {
        key: "abc".to_string(),
        value: Value::StrValue("defg".to_string()),
        exp: None,
    });
    assert!(match db.run_command(Command::IncrBy {
        key: "abc".to_string(),
        increment: 10,
    }) {
        Return::Error(_) => true,
        _ => false,
    });
}

#[test]
fn test_list() {
    let mut db = RustisDb::new();
    db.run_command(Command::Lpush {
        key: "abc".to_string(),
        values: vec!["a".to_string()],
    });
    db.run_command(Command::Lpush {
        key: "abc".to_string(),
        values: vec!["b".to_string(), "c".to_string()],
    });
    assert_eq!(
        db.run_command(Command::Lpop {
            key: "abc".to_string()
        }),
        Return::ValueReturn(Value::StrValue("c".to_string()))
    );
    assert_eq!(
        db.run_command(Command::Lpop {
            key: "abc".to_string()
        }),
        Return::ValueReturn(Value::StrValue("b".to_string()))
    );
    assert_eq!(
        db.run_command(Command::Lpop {
            key: "abc".to_string()
        }),
        Return::ValueReturn(Value::StrValue("a".to_string()))
    );
}

#[test]
fn test_set_get_del_exists() {
    let mut db = RustisDb::new();
    db.run_command(Command::SetCmd {
        key: "k".to_string(),
        value: Value::StrValue("v".to_string()),
        exp: None,
    });
    assert_eq!(
        db.run_command(Command::Get {
            key: "k".to_string()
        }),
        Return::ValueReturn(Value::StrValue("v".to_string()))
    );
    assert_eq!(
        db.run_command(Command::Exists {
            key: "k".to_string()
        }),
        Return::ValueReturn(Value::IntValue(1))
    );
    assert_eq!(
        db.run_command(Command::Del {
            keys: vec!["k".to_string()]
        }),
        Return::ValueReturn(Value::IntValue(1))
    );
    assert_eq!(
        db.run_command(Command::Get {
            key: "k".to_string()
        }),
        Return::ValueReturn(Value::Nil)
    );
    assert_eq!(
        db.run_command(Command::Exists {
            key: "k".to_string()
        }),
        Return::ValueReturn(Value::IntValue(0))
    );
}

#[test]
fn test_append() {
    let mut db = RustisDb::new();
    assert_eq!(
        db.run_command(Command::Append {
            key: "k".to_string(),
            value: "ab".to_string()
        }),
        Return::ValueReturn(Value::IntValue(2))
    );
    assert_eq!(
        db.run_command(Command::Append {
            key: "k".to_string(),
            value: "cd".to_string()
        }),
        Return::ValueReturn(Value::IntValue(4))
    );
    assert_eq!(
        db.run_command(Command::Get {
            key: "k".to_string()
        }),
        Return::ValueReturn(Value::StrValue("abcd".to_string()))
    );
    // Appending to an integer first writes it out as text.
    db.run_command(Command::SetCmd {
        key: "n".to_string(),
        value: Value::IntValue(12),
        exp: None,
    });
    assert_eq!(
        db.run_command(Command::Append {
            key: "n".to_string(),
            value: "x".to_string()
        }),
        Return::ValueReturn(Value::IntValue(3))
    );
    assert_eq!(
        db.run_command(Command::Get {
            key: "n".to_string()
        }),
        Return::ValueReturn(Value::StrValue("12x".to_string()))
    );
    // Appending to a list is refused.
    db.run_command(Command::Lpush {
        key: "l".to_string(),
        values: vec!["a".to_string()],
    });
    assert_eq!(
        db.run_command(Command::Append {
            key: "l".to_string(),
            value: "x".to_string()
        }),
        Return::Error("WRONGTYPE key doesn't contain a string".to_string())
    );
}

#[test]
fn test_list_errors_and_indexing() {
    let mut db = RustisDb::new();
    db.run_command(Command::Rpush {
        key: "l".to_string(),
        values: vec!["a".to_string(), "b".to_string(), "c".to_string()],
    });
    assert_eq!(
        db.run_command(Command::Llen {
            key: "l".to_string()
        }),
        Return::ValueReturn(Value::IntValue(3))
    );
    assert_eq!(
        db.run_command(Command::Lindex {
            key: "l".to_string(),
            index: 0
        }),
        Return::ValueReturn(Value::StrValue("a".to_string()))
    );
    assert_eq!(
        db.run_command(Command::Lindex {
            key: "l".to_string(),
            index: -1
        }),
        Return::ValueReturn(Value::StrValue("c".to_string()))
    );
    assert_eq!(
        db.run_command(Command::Lindex {
            key: "l".to_string(),
            index: 3
        }),
        Return::Error("ERR index out of range".to_string())
    );
    assert_eq!(
        db.run_command(Command::Lset {
            key: "l".to_string(),
            index: -2,
            value: "B".to_string()
        }),
        Return::Okay
    );
    assert_eq!(
        db.run_command(Command::Lindex {
            key: "l".to_string(),
            index: 1
        }),
        Return::ValueReturn(Value::StrValue("B".to_string()))
    );
    assert_eq!(
        db.run_command(Command::Rpop {
            key: "l".to_string()
        }),
        Return::ValueReturn(Value::StrValue("c".to_string()))
    );
    // Popping until empty, then once more.
    db.run_command(Command::Lpop {
        key: "l".to_string(),
    });
    db.run_command(Command::Lpop {
        key: "l".to_string(),
    });
    assert_eq!(
        db.run_command(Command::Lpop {
            key: "l".to_string()
        }),
        Return::Error("ERR list is empty".to_string())
    );
    // A list command on a scalar key is refused.
    db.run_command(Command::SetCmd {
        key: "s".to_string(),
        value: Value::StrValue("v".to_string()),
        exp: None,
    });
    assert_eq!(
        db.run_command(Command::Lpop {
            key: "s".to_string()
        }),
        Return::Error("WRONGTYPE not a list".to_string())
    );
}

#[test]
fn test_type_names() {
    let mut db = RustisDb::new();
    assert_eq!(
        db.run_command(Command::Type {
            key: "missing".to_string()
        }),
        Return::ValueReturn(Value::Nil)
    );
    db.run_command(Command::SetCmd {
        key: "s".to_string(),
        value: Value::StrValue("v".to_string()),
        exp: None,
    });
    assert_eq!(
        db.run_command(Command::Type {
            key: "s".to_string()
        }),
        Return::ValueReturn(Value::StrValue("string".to_string()))
    );
    db.run_command(Command::SetCmd {
        key: "n".to_string(),
        value: Value::IntValue(5),
        exp: None,
    });
    assert_eq!(
        db.run_command(Command::Type {
            key: "n".to_string()
        }),
        Return::ValueReturn(Value::StrValue("string".to_string()))
    );
    db.run_command(Command::Rpush {
        key: "l".to_string(),
        values: vec!["a".to_string()],
    });
    assert_eq!(
        db.run_command(Command::Type {
            key: "l".to_string()
        }),
        Return::ValueReturn(Value::StrValue("list".to_string()))
    );
}

#[test]
fn test_decr_and_string_numbers() {
    let mut db = RustisDb::new();
    db.run_command(Command::SetCmd {
        key: "k".to_string(),
        value: Value::StrValue("41".to_string()),
        exp: None,
    });
    assert_eq!(
        db.run_command(Command::Incr {
            key: "k".to_string()
        }),
        Return::ValueReturn(Value::IntValue(42))
    );
    assert_eq!(
        db.run_command(Command::Decr {
            key: "k".to_string()
        }),
        Return::ValueReturn(Value::IntValue(41))
    );
    assert_eq!(
        db.run_command(Command::DecrBy {
            key: "k".to_string(),
            decrement: 40
        }),
        Return::ValueReturn(Value::IntValue(1))
    );
    // An increment that would leave the 64-bit range is refused.
    db.run_command(Command::SetCmd {
        key: "m".to_string(),
        value: Value::IntValue(i64::MAX),
        exp: None,
    });
    assert_eq!(
        db.run_command(Command::Incr {
            key: "m".to_string()
        }),
        Return::Error("ERR value is not an integer or out of range".to_string())
    );
}

#[test]
fn test_incr_by_float_forms() {
    let mut db = RustisDb::new();
    // Absent key: the delta itself, as text.
    assert_eq!(
        db.run_command(Command::IncrByFloat {
            key: "f".to_string(),
            increment: Dec { mant: -325, scale: 2 }
        }),
        Return::ValueReturn(Value::StrValue("-3.25".to_string()))
    );
    // Stored decimal text adds exactly; trailing zeros are trimmed.
    assert_eq!(
        db.run_command(Command::IncrByFloat {
            key: "f".to_string(),
            increment: Dec { mant: 325, scale: 2 }
        }),
        Return::ValueReturn(Value::StrValue("0".to_string()))
    );
    // Non-numeric text is refused.
    db.run_command(Command::SetCmd {
        key: "s".to_string(),
        value: Value::StrValue("pqr".to_string()),
        exp: None,
    });
    assert_eq!(
        db.run_command(Command::IncrByFloat {
            key: "s".to_string(),
            increment: Dec { mant: 1, scale: 1 }
        }),
        Return::Error("ERR value is not an integer or out of range".to_string())
    );
}

#[test]
fn test_expiry_purge() {
    let mut db = RustisDb::new();
    db.run_command(Command::SetCmd {
        key: "k".to_string(),
        value: Value::StrValue("v".to_string()),
        exp: Some(100),
    });
    db.run_command(Command::SetCmd {
        key: "keep".to_string(),
        value: Value::StrValue("w".to_string()),
        exp: None,
    });
    // Before the deadline nothing is dropped.
    db.purge_expired(99);
    assert_eq!(
        db.run_command(Command::Get {
            key: "k".to_string()
        }),
        Return::ValueReturn(Value::StrValue("v".to_string()))
    );
    // At the deadline the key goes, the unexpiring one stays.
    db.purge_expired(100);
    assert_eq!(
        db.run_command(Command::Get {
            key: "k".to_string()
        }),
        Return::ValueReturn(Value::Nil)
    );
    assert_eq!(
        db.run_command(Command::Get {
            key: "keep".to_string()
        }),
        Return::ValueReturn(Value::StrValue("w".to_string()))
    );
}

#[test]
fn test_expiry_superseded() {
    let mut db = RustisDb::new();
    db.run_command(Command::SetCmd {
        key: "k".to_string(),
        value: Value::StrValue("a".to_string()),
        exp: Some(50),
    });
    // Rewriting without an expiry clears the pending one.
    db.run_command(Command::SetCmd {
        key: "k".to_string(),
        value: Value::StrValue("b".to_string()),
        exp: None,
    });
    db.purge_expired(1000);
    assert_eq!(
        db.run_command(Command::Get {
            key: "k".to_string()
        }),
        Return::ValueReturn(Value::StrValue("b".to_string()))
    );
    // DEL drops the pending expiry with the key.
    db.run_command(Command::SetCmd {
        key: "j".to_string(),
        value: Value::StrValue("x".to_string()),
        exp: Some(10),
    });
    db.run_command(Command::Del {
        keys: vec!["j".to_string()],
    });
    db.purge_expired(1000);
    assert_eq!(
        db.run_command(Command::DbSize),
        Return::ValueReturn(Value::IntValue(1))
    );
}

#[test]
fn test_time_shape() {
    let mut db = RustisDb::new();
    match db.run_command(Command::Time) {
        Return::ValueReturn(Value::ArrayValue(items)) => {
            assert_eq!(items.len(), 2);
            match (&items[0], &items[1]) {
                (Value::IntValue(s), Value::IntValue(us)) => {
                    assert!(*s >= 0);
                    assert!(*us >= 0 && *us < 1000000);
                }
                _ => panic!("TIME members must be integers"),
            }
        }
        _ => panic!("TIME must reply with an array"),
    }
}

#[test]
fn test_flushdb() {
    let mut db = RustisDb::new();
    db.run_command(Command::SetCmd {
        key: "a".to_string(),
        value: Value::IntValue(1),
        exp: None,
    });
    db.run_command(Command::SetCmd {
        key: "b".to_string(),
        value: Value::IntValue(2),
        exp: Some(7),
    });
    assert_eq!(db.run_command(Command::FlushDb), Return::Okay);
    assert_eq!(
        db.run_command(Command::DbSize),
        Return::ValueReturn(Value::IntValue(0))
    );
}

#[test]
fn test_ping_echo() {
    let mut db = RustisDb::new();
    assert_eq!(
        db.run_command(Command::Ping {
            message: "PONG".to_string()
        }),
        Return::ValueReturn(Value::StrValue("PONG".to_string()))
    );
    assert_eq!(
        db.run_command(Command::Echo {
            message: "hi".to_string()
        }),
        Return::ValueReturn(Value::StrValue("hi".to_string()))
    );
}
