use tiny_redis::db::Db;
use tiny_redis::executor::RedisHandler;
use tiny_redis::number::{decimal_bytes, parse_i64};
use tiny_redis::parser::{parse_one, ParseError, RespValue};
use tiny_redis::server::{error_line, HandlerResult};
use tiny_redis::text::same_text;

fn other_message(input: &[u8]) -> String {
    match parse_one(input) {
        Err(ParseError::Other(msg)) => msg,
        other => panic!("Expected an error message, got {:?}", other),
    }
}

fn handle_all(handler: &mut RedisHandler, bytes: &[u8]) -> (HandlerResult, Vec<u8>) {
    let mut buffer = bytes.to_vec();
    let res = handler.handle(&mut buffer);
    (res, buffer)
}

fn response(res: HandlerResult) -> Vec<u8> {
    match res {
        HandlerResult::Response(bytes) => bytes,
        other => panic!("Expected a response, got {:?}", other),
    }
}

fn error(res: HandlerResult) -> String {
    match res {
        HandlerResult::Error(msg) => msg,
        other => panic!("Expected an error, got {:?}", other),
    }
}

// ---- parser ----

#[test]
fn parse_empty_buffer_is_incomplete() {
    assert!(matches!(parse_one(b""), Err(ParseError::Incomplete)));
}

#[test]
fn parse_unknown_type_byte() {
    assert!(matches!(parse_one(b"!oops\r\n"), Err(ParseError::InvalidType)));
}

#[test]
fn parse_simple_string() {
    match parse_one(b"+OK\r\n") {
        Ok((RespValue::Simple(s), 5)) => assert_eq!(s, "OK"),
        other => panic!("Expected simple string, got {:?}", other),
    }
}

#[test]
fn parse_simple_string_without_terminator_is_incomplete() {
    assert!(matches!(parse_one(b"+OK\r"), Err(ParseError::Incomplete)));
}

#[test]
fn parse_simple_string_invalid_utf8() {
    assert_eq!(other_message(b"+\xff\r\n"), "invalid utf8");
}

#[test]
fn parse_integer_errors() {
    assert_eq!(other_message(b":abc\r\n"), "invalid integer");
    assert_eq!(other_message(b":\r\n"), "invalid integer");
    assert_eq!(other_message(b":-\r\n"), "invalid integer");
    assert_eq!(other_message(b":9223372036854775808\r\n"), "invalid integer");
    assert_eq!(other_message(b":\xff\r\n"), "invalid utf8 in integer");
}

#[test]
fn parse_integer_limits_and_signs() {
    match parse_one(b":-9223372036854775808\r\n") {
        Ok((RespValue::Integer(n), 23)) => assert_eq!(n, i64::MIN),
        other => panic!("Expected integer, got {:?}", other),
    }
    match parse_one(b":9223372036854775807\r\n") {
        Ok((RespValue::Integer(n), 22)) => assert_eq!(n, i64::MAX),
        other => panic!("Expected integer, got {:?}", other),
    }
    match parse_one(b":+007\r\n") {
        Ok((RespValue::Integer(n), 7)) => assert_eq!(n, 7),
        other => panic!("Expected integer, got {:?}", other),
    }
}

#[test]
fn parse_bulk_string_errors() {
    assert_eq!(other_message(b"$x\r\n"), "invalid length");
    assert_eq!(other_message(b"$\xff\r\n"), "invalid utf8 in length");
    assert_eq!(other_message(b"$-2\r\n"), "negative length");
    assert_eq!(other_message(b"$3\r\nabcX\n"), "missing CRLF after bulk string");
    assert_eq!(other_message(b"$2\r\n\xff\xfe\r\n"), "invalid utf8");
    assert!(matches!(parse_one(b"$5\r\nhel"), Err(ParseError::Incomplete)));
    assert!(matches!(parse_one(b"$5\r\nhello\r"), Err(ParseError::Incomplete)));
}

#[test]
fn parse_bulk_string_may_hold_line_breaks() {
    match parse_one(b"$4\r\na\r\nb\r\n") {
        Ok((RespValue::Bulk(s), 10)) => assert_eq!(s, "a\r\nb"),
        other => panic!("Expected bulk string, got {:?}", other),
    }
}

#[test]
fn parse_bulk_string_counts_bytes_not_characters() {
    let input = "$6\r\nh\u{e9}llo\r\n".as_bytes();
    match parse_one(input) {
        Ok((RespValue::Bulk(s), 12)) => assert_eq!(s, "h\u{e9}llo"),
        other => panic!("Expected bulk string, got {:?}", other),
    }
}

#[test]
fn parse_array_errors() {
    assert_eq!(other_message(b"*x\r\n"), "invalid count");
    assert_eq!(other_message(b"*\xff\r\n"), "invalid utf8 in count");
    assert_eq!(other_message(b"*-2\r\n"), "negative count");
    assert_eq!(other_message(b"*1\r\n:z\r\n"), "invalid integer");
    assert!(matches!(parse_one(b"*1\r\n?\r\n"), Err(ParseError::InvalidType)));
}

#[test]
fn parse_nested_array() {
    match parse_one(b"*2\r\n*1\r\n:1\r\n$-1\r\n") {
        Ok((RespValue::Array(outer), 17)) => {
            assert_eq!(outer.len(), 2);
            match &outer[0] {
                RespValue::Array(inner) => {
                    assert_eq!(inner.len(), 1);
                    assert!(matches!(inner[0], RespValue::Integer(1)));
                }
                other => panic!("Expected inner array, got {:?}", other),
            }
            assert!(matches!(outer[1], RespValue::Null));
        }
        other => panic!("Expected array, got {:?}", other),
    }
}

#[test]
fn every_strict_prefix_of_a_value_is_incomplete() {
    let input = b"*3\r\n$3\r\nSET\r\n$3\r\nkey\r\n$5\r\nvalue\r\n";
    for k in 0..input.len() {
        assert!(
            matches!(parse_one(&input[..k]), Err(ParseError::Incomplete)),
            "prefix of length {} should be incomplete",
            k
        );
    }
    match parse_one(input) {
        Ok((RespValue::Array(arr), n)) => {
            assert_eq!(arr.len(), 3);
            assert_eq!(n, input.len());
        }
        other => panic!("Expected array, got {:?}", other),
    }
}

#[test]
fn bytes_after_a_value_change_nothing() {
    let mut input = b"$5\r\nhello\r\n".to_vec();
    input.extend_from_slice(b"*9\r\ngarbage");
    match parse_one(&input) {
        Ok((RespValue::Bulk(s), 11)) => assert_eq!(s, "hello"),
        other => panic!("Expected bulk string, got {:?}", other),
    }
    let mut refused = b"$-2\r\n".to_vec();
    refused.extend_from_slice(b"more");
    assert_eq!(other_message(&refused), "negative length");
}

// ---- numbers and text ----

#[test]
fn parse_i64_reads_like_from_str() {
    for text in ["0", "-0", "+12", "-12", "0042", "9223372036854775807", "-9223372036854775808"] {
        assert_eq!(parse_i64(text.as_bytes()), text.parse::<i64>().ok(), "{}", text);
    }
    for text in ["", "+", "-", "1a", " 1", "--1", "+-1", "9223372036854775808", "-9223372036854775809"] {
        assert_eq!(parse_i64(text.as_bytes()), None, "{}", text);
    }
}

#[test]
fn decimal_bytes_writes_like_format() {
    for n in [0usize, 7, 10, 407, 1000, usize::MAX] {
        assert_eq!(decimal_bytes(n), format!("{}", n).into_bytes());
    }
}

#[test]
fn same_text_compares_characters() {
    assert!(same_text("PING", "PING"));
    assert!(!same_text("PING", "PONG"));
    assert!(!same_text("PING", "PIN"));
    assert!(same_text("\u{e9}", "\u{e9}"));
}

// ---- store ----

#[test]
fn db_get_set_del() {
    let mut db = Db::new();
    assert_eq!(db.get("k"), None);
    db.set("k".to_string(), "v1".to_string());
    assert_eq!(db.get("k"), Some("v1".to_string()));
    db.set("k".to_string(), "v2".to_string());
    db.set("other".to_string(), "x".to_string());
    assert_eq!(db.get("k"), Some("v2".to_string()));
    assert!(db.del("k"));
    assert_eq!(db.get("k"), None);
    assert!(!db.del("k"));
    assert_eq!(db.get("other"), Some("x".to_string()));
}

// ---- handler ----

#[test]
fn command_names_are_case_insensitive() {
    let mut handler = RedisHandler::new();
    let (res, buffer) = handle_all(&mut handler, b"*1\r\n$4\r\nping\r\n");
    assert_eq!(response(res), b"+PONG\r\n");
    assert!(buffer.is_empty());
    let (res, _) = handle_all(&mut handler, b"*2\r\n+eChO\r\n+hi\r\n");
    assert_eq!(response(res), b"$2\r\nhi\r\n");
}

#[test]
fn ping_takes_any_arguments() {
    let mut handler = RedisHandler::new();
    let (res, _) = handle_all(&mut handler, b"*2\r\n$4\r\nPING\r\n:5\r\n");
    assert_eq!(response(res), b"+PONG\r\n");
}

#[test]
fn echo_reply_counts_bytes() {
    let mut handler = RedisHandler::new();
    let (res, _) = handle_all(&mut handler, "*2\r\n$4\r\nECHO\r\n$6\r\nh\u{e9}llo\r\n".as_bytes());
    let reply = response(res);
    assert_eq!(reply, "$6\r\nh\u{e9}llo\r\n".as_bytes());
    match parse_one(&reply) {
        Ok((RespValue::Bulk(s), n)) => {
            assert_eq!(s, "h\u{e9}llo");
            assert_eq!(n, reply.len());
        }
        other => panic!("Expected bulk string, got {:?}", other),
    }
}

#[test]
fn set_overwrites_and_del_removes() {
    let mut handler = RedisHandler::new();
    let (res, _) = handle_all(&mut handler, b"*3\r\n$3\r\nSET\r\n$1\r\nk\r\n$1\r\na\r\n");
    assert_eq!(response(res), b"+OK\r\n");
    let (res, _) = handle_all(&mut handler, b"*3\r\n$3\r\nset\r\n$1\r\nk\r\n$2\r\nbb\r\n");
    assert_eq!(response(res), b"+OK\r\n");
    let (res, _) = handle_all(&mut handler, b"*2\r\n$3\r\nGET\r\n$1\r\nk\r\n");
    assert_eq!(response(res), b"$2\r\nbb\r\n");
    let (res, _) = handle_all(&mut handler, b"*2\r\n$3\r\nDEL\r\n$1\r\nk\r\n");
    assert_eq!(response(res), b":1\r\n");
    let (res, _) = handle_all(&mut handler, b"*2\r\n$3\r\nGET\r\n$1\r\nk\r\n");
    assert_eq!(response(res), b"$-1\r\n");
    let (res, _) = handle_all(&mut handler, b"*2\r\n$3\r\ndel\r\n$1\r\nk\r\n");
    assert_eq!(response(res), b":0\r\n");
}

#[test]
fn refused_commands_give_messages() {
    let mut handler = RedisHandler::new();
    let (res, buffer) = handle_all(&mut handler, b"*1\r\n$3\r\nFOO\r\n");
    assert_eq!(error(res), "Unknown or invalid command: FOO");
    assert!(buffer.is_empty());
    let (res, _) = handle_all(&mut handler, b"*1\r\n$4\r\nECHO\r\n");
    assert_eq!(error(res), "Unknown or invalid command: ECHO");
    let (res, _) = handle_all(&mut handler, b"$4\r\nPING\r\n");
    assert_eq!(error(res), "Expected array command");
    let (res, _) = handle_all(&mut handler, b"*0\r\n");
    assert_eq!(error(res), "Expected array command");
    let (res, _) = handle_all(&mut handler, b"*1\r\n:1\r\n");
    assert_eq!(error(res), "Invalid command format");
    let (res, _) = handle_all(&mut handler, b"*2\r\n$4\r\nECHO\r\n:1\r\n");
    assert_eq!(error(res), "Expected string value");
    let (res, buffer) = handle_all(&mut handler, b"hello\r\n");
    assert_eq!(error(res), "Invalid RESP type");
    assert!(buffer.is_empty());
    let (res, _) = handle_all(&mut handler, b"*1\r\n$-5\r\n");
    assert_eq!(error(res), "negative length");
}

#[test]
fn a_refused_command_drops_the_whole_buffer() {
    let mut handler = RedisHandler::new();
    let (res, buffer) = handle_all(
        &mut handler,
        b"*3\r\n$3\r\nSET\r\n$1\r\nk\r\n$1\r\nv\r\n*1\r\n$3\r\nBAD\r\n",
    );
    assert_eq!(error(res), "Unknown or invalid command: BAD");
    assert!(buffer.is_empty());
    let (res, _) = handle_all(&mut handler, b"*2\r\n$3\r\nGET\r\n$1\r\nk\r\n");
    assert_eq!(response(res), b"$-1\r\n");
}

#[test]
fn a_command_arriving_in_pieces() {
    let mut handler = RedisHandler::new();
    let whole = b"*3\r\n$3\r\nSET\r\n$3\r\nkey\r\n$5\r\nvalue\r\n";
    let mut buffer = Vec::new();
    for (i, byte) in whole.iter().enumerate() {
        buffer.push(*byte);
        let res = handler.handle(&mut buffer);
        if i + 1 < whole.len() {
            assert!(matches!(res, HandlerResult::Incomplete));
            assert_eq!(buffer, whole[..i + 1].to_vec());
        } else {
            assert_eq!(response(res), b"+OK\r\n");
            assert!(buffer.is_empty());
        }
    }
    let (res, _) = handle_all(&mut handler, b"*2\r\n$3\r\nGET\r\n$3\r\nkey\r\n");
    assert_eq!(response(res), b"$5\r\nvalue\r\n");
}

#[test]
fn pipelined_commands_keep_the_unfinished_tail() {
    let mut handler = RedisHandler::new();
    let mut buffer =
        b"*3\r\n$3\r\nSET\r\n$1\r\na\r\n$1\r\n1\r\n*2\r\n$3\r\nGET\r\n$1\r\na\r\n*2\r\n$3\r\nGE".to_vec();
    let res = handler.handle(&mut buffer);
    assert_eq!(response(res), b"+OK\r\n$1\r\n1\r\n");
    assert_eq!(buffer, b"*2\r\n$3\r\nGE".to_vec());
    buffer.extend_from_slice(b"T\r\n$1\r\nb\r\n");
    let res = handler.handle(&mut buffer);
    assert_eq!(response(res), b"$-1\r\n");
    assert!(buffer.is_empty());
}

#[test]
fn pipelining_equals_one_at_a_time() {
    let first = b"*3\r\n$3\r\nSET\r\n$1\r\nx\r\n$2\r\n42\r\n".to_vec();
    let second = b"*2\r\n$3\r\nGET\r\n$1\r\nx\r\n*1\r\n$4\r\nPING\r\n".to_vec();
    let mut together = RedisHandler::new();
    let mut both = first.clone();
    both.extend_from_slice(&second);
    let joined = response(together.handle(&mut both));
    let mut apart = RedisHandler::new();
    let mut a = first.clone();
    let mut b = second.clone();
    let mut split = response(apart.handle(&mut a));
    split.extend_from_slice(&response(apart.handle(&mut b)));
    assert_eq!(joined, split);
    assert_eq!(joined, b"+OK\r\n$2\r\n42\r\n+PONG\r\n".to_vec());
}

#[test]
fn every_reply_reads_back() {
    let mut handler = RedisHandler::new();
    let requests: [&[u8]; 6] = [
        b"*1\r\n$4\r\nPING\r\n",
        b"*3\r\n$3\r\nSET\r\n$1\r\nk\r\n$3\r\nabc\r\n",
        b"*2\r\n$3\r\nGET\r\n$1\r\nk\r\n",
        b"*2\r\n$3\r\nDEL\r\n$1\r\nk\r\n",
        b"*2\r\n$3\r\nDEL\r\n$1\r\nk\r\n",
        b"*2\r\n$3\r\nGET\r\n$1\r\nk\r\n",
    ];
    let mut values = Vec::new();
    for request in requests {
        let (res, _) = handle_all(&mut handler, request);
        let reply = response(res);
        match parse_one(&reply) {
            Ok((value, n)) => {
                assert_eq!(n, reply.len());
                values.push(value);
            }
            Err(e) => panic!("reply {:?} does not read back: {:?}", reply, e),
        }
    }
    assert!(matches!(&values[0], RespValue::Simple(s) if s == "PONG"));
    assert!(matches!(&values[1], RespValue::Simple(s) if s == "OK"));
    assert!(matches!(&values[2], RespValue::Bulk(s) if s == "abc"));
    assert!(matches!(values[3], RespValue::Integer(1)));
    assert!(matches!(values[4], RespValue::Integer(0)));
    assert!(matches!(values[5], RespValue::Null));
}

#[test]
fn error_line_frames_the_message() {
    assert_eq!(error_line("Invalid RESP type"), b"ERR Invalid RESP type\r\n".to_vec());
    assert_eq!(error_line("h\u{e9}"), "ERR h\u{e9}\r\n".as_bytes().to_vec());
    assert_eq!(error_line(""), b"ERR \r\n".to_vec());
}

#[test]
fn integers_read_back_whatever_follows() {
    for n in [i64::MIN, -1, 0, 7, i64::MAX] {
        let mut bytes = format!(":{}\r\n", n).into_bytes();
        let own = bytes.len();
        bytes.extend_from_slice(b"$3\r\nxyz");
        match parse_one(&bytes) {
            Ok((RespValue::Integer(m), used)) => {
                assert_eq!(m, n);
                assert_eq!(used, own);
            }
            other => panic!("Expected integer, got {:?}", other),
        }
    }
}

#[test]
fn simple_strings_read_back_whatever_follows() {
    for text in ["OK", "", "caf\u{e9} \u{263a}", "a\rb", "x\ny"] {
        let mut bytes = format!("+{}\r\n", text).into_bytes();
        let own = bytes.len();
        bytes.extend_from_slice(b"+next\r\n");
        match parse_one(&bytes) {
            Ok((RespValue::Simple(s), used)) => {
                assert_eq!(s, text);
                assert_eq!(used, own);
            }
            other => panic!("Expected simple string, got {:?}", other),
        }
    }
}

#[test]
fn splitting_the_stream_anywhere_changes_nothing() {
    let stream: &[u8] =
        b"*3\r\n$3\r\nSET\r\n$1\r\nk\r\n$2\r\nv1\r\n*2\r\n$3\r\nGET\r\n$1\r\nk\r\n*2\r\n$3\r\nDEL\r\n$1\r\nk\r\n*1\r\n$4\r\nPING\r\n";
    let mut whole = RedisHandler::new();
    let mut all = stream.to_vec();
    let expected = response(whole.handle(&mut all));
    assert!(all.is_empty());
    for k in 0..=stream.len() {
        let mut handler = RedisHandler::new();
        let mut buffer = stream[..k].to_vec();
        let mut replies = match handler.handle(&mut buffer) {
            HandlerResult::Response(bytes) => bytes,
            HandlerResult::Incomplete => Vec::new(),
            HandlerResult::Error(msg) => panic!("refused at {}: {}", k, msg),
        };
        buffer.extend_from_slice(&stream[k..]);
        match handler.handle(&mut buffer) {
            HandlerResult::Response(bytes) => replies.extend_from_slice(&bytes),
            HandlerResult::Incomplete => {}
            HandlerResult::Error(msg) => panic!("refused at {}: {}", k, msg),
        }
        assert!(buffer.is_empty());
        assert_eq!(replies, expected, "split at {}", k);
        let mut get = b"*2\r\n$3\r\nGET\r\n$1\r\nk\r\n".to_vec();
        assert_eq!(response(handler.handle(&mut get)), b"$-1\r\n");
    }
}
