use bytes::Bytes;
use resp_store::cmd::Command;
use resp_store::frame::RespFrame;

fn bulk(s: &str) -> RespFrame {
    RespFrame::BulkString(Bytes::from(s.to_string()))
}

fn cmd(words: &[&str]) -> Result<Command, String> {
    Command::from_frame(RespFrame::Array(words.iter().map(|w| bulk(w)).collect()))
}

fn err(words: &[&str]) -> String {
    match cmd(words) {
        Err(e) => e,
        Ok(c) => panic!("expected an error, got {:?}", c),
    }
}

#[test]
fn get_in_any_case() {
    for verb in ["GET", "get", "GeT"] {
        match cmd(&[verb, "user:1"]).unwrap() {
            Command::Get { key } => assert_eq!(key, "user:1"),
            other => panic!("{:?}", other),
        }
    }
}

#[test]
fn set_without_expiry() {
    match cmd(&["SET", "k", "v"]).unwrap() {
        Command::SetKey { key, value, time } => {
            assert_eq!(key, "k");
            assert_eq!(value, bulk("v"));
            assert_eq!(time, None);
        },
        other => panic!("{:?}", other),
    }
}

#[test]
fn set_with_ex_in_any_case() {
    for opt in ["EX", "ex", "eX"] {
        match cmd(&["set", "k", "v", opt, "60"]).unwrap() {
            Command::SetKey { key, value, time } => {
                assert_eq!(key, "k");
                assert_eq!(value, bulk("v"));
                assert_eq!(time, Some(60));
            },
            other => panic!("{:?}", other),
        }
    }
    match cmd(&["SET", "k", "v", "EX", "+18446744073709551615"]).unwrap() {
        Command::SetKey { time, .. } => assert_eq!(time, Some(u64::MAX)),
        other => panic!("{:?}", other),
    }
}

#[test]
fn set_with_another_option_is_unknown() {
    assert!(matches!(cmd(&["SET", "k", "v", "PX", "60"]).unwrap(), Command::Unknown));
}

#[test]
fn set_with_a_bad_expiry() {
    assert_eq!(err(&["SET", "k", "v", "EX", "abc"]), "Invalid integer for EX");
    assert_eq!(err(&["SET", "k", "v", "EX", "-1"]), "Invalid integer for EX");
    assert_eq!(err(&["SET", "k", "v", "EX", "18446744073709551616"]), "Invalid integer for EX");
    assert_eq!(err(&["SET", "k", "v", "EX", ""]), "Invalid integer for EX");
}

#[test]
fn wrong_numbers_of_arguments() {
    assert_eq!(err(&["GET"]), "ERR wrong number of arguments for 'get' command");
    assert_eq!(err(&["GET", "a", "b"]), "ERR wrong number of arguments for 'get' command");
    assert_eq!(err(&["SET", "k"]), "ERR wrong number of arguments for 'set' command");
    assert_eq!(err(&["SET", "k", "v", "EX"]), "ERR wrong number of arguments for 'set' command");
    assert_eq!(err(&["DEL"]), "ERR wrong number of arguments for 'del' command");
    assert_eq!(err(&["EXIST", "a", "b"]), "ERR wrong number of arguments for 'exist' command");
}

#[test]
fn del_and_exist() {
    assert!(matches!(cmd(&["DEL", "k"]).unwrap(), Command::Del { key } if key == "k"));
    assert!(matches!(cmd(&["exist", "k"]).unwrap(), Command::Exist { key } if key == "k"));
}

#[test]
fn unknown_verbs() {
    assert!(matches!(cmd(&["PING"]).unwrap(), Command::Unknown));
    assert!(matches!(cmd(&["EXISTS", "k"]).unwrap(), Command::Unknown));
}

#[test]
fn frames_that_are_no_commands() {
    assert_eq!(Command::from_frame(RespFrame::Integer(1)).unwrap_err(), "ERR expected an array of strings");
    assert_eq!(Command::from_frame(RespFrame::Array(vec![])).unwrap_err(), "ERR empty command");
    assert_eq!(
        Command::from_frame(RespFrame::Array(vec![RespFrame::Integer(1)])).unwrap_err(),
        "ERR invalid command format"
    );
    assert_eq!(
        Command::from_frame(RespFrame::Array(vec![bulk("GET"), RespFrame::Integer(1)])).unwrap_err(),
        "ERR expected string argument"
    );
    assert_eq!(
        Command::from_frame(RespFrame::Array(vec![bulk("SET"), bulk("k"), bulk("v"), RespFrame::Null, bulk("1")])).unwrap_err(),
        "ERR expected string argument"
    );
}

#[test]
fn simple_strings_count_as_strings() {
    let f = RespFrame::Array(vec![
        RespFrame::SimpleString("set".to_string()),
        RespFrame::SimpleString("k".to_string()),
        RespFrame::Integer(5),
    ]);
    match Command::from_frame(f).unwrap() {
        Command::SetKey { key, value, time } => {
            assert_eq!(key, "k");
            assert_eq!(value, RespFrame::Integer(5));
            assert_eq!(time, None);
        },
        other => panic!("{:?}", other),
    }
}

#[test]
fn keys_are_read_lossily() {
    let f = RespFrame::Array(vec![bulk("GET"), RespFrame::BulkString(Bytes::from_static(b"a\xffb"))]);
    match Command::from_frame(f).unwrap() {
        Command::Get { key } => assert_eq!(key, "a\u{FFFD}b"),
        other => panic!("{:?}", other),
    }
}
