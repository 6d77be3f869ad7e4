use tiny_redis::parser::{parse_one, ParseError, RespValue};

#[test]
fn test_parse_array_simple() {
    let input = b"*2\r\n$3\r\nGET\r\n$3\r\nkey\r\n";

    let (value, consumed) = parse_one(input).unwrap();

    match value {
        RespValue::Array(arr) => {
            assert_eq!(arr.len(), 2);
            assert_eq!(consumed, 22);

            match &arr[0] {
                RespValue::Bulk(s) => assert_eq!(s, "GET"),
                _ => panic!("Expected bulk string"),
            }

            match &arr[1] {
                RespValue::Bulk(s) => assert_eq!(s, "key"),
                _ => panic!("Expected bulk string"),
            }
        }
        _ => panic!("Expected array"),
    }
}

#[test]
fn test_parse_array_set_command() {
    let input = b"*3\r\n$3\r\nSET\r\n$5\r\nmykey\r\n$7\r\nmyvalue\r\n";

    let (value, consumed) = parse_one(input).unwrap();

    match value {
        RespValue::Array(arr) => {
            assert_eq!(arr.len(), 3);
            assert_eq!(consumed, 37);

            match &arr[0] {
                RespValue::Bulk(s) => assert_eq!(s, "SET"),
                _ => panic!("Expected bulk string"),
            }
            match &arr[1] {
                RespValue::Bulk(s) => assert_eq!(s, "mykey"),
                _ => panic!("Expected bulk string"),
            }
            match &arr[2] {
                RespValue::Bulk(s) => assert_eq!(s, "myvalue"),
                _ => panic!("Expected bulk string"),
            }
        }
        _ => panic!("Expected array"),
    }
}

#[test]
fn test_parse_array_ping() {
    let input = b"*1\r\n$4\r\nPING\r\n";

    let (value, consumed) = parse_one(input).unwrap();

    match value {
        RespValue::Array(arr) => {
            assert_eq!(arr.len(), 1);
            assert_eq!(consumed, 14);

            match &arr[0] {
                RespValue::Bulk(s) => assert_eq!(s, "PING"),
                _ => panic!("Expected bulk string"),
            }
        }
        _ => panic!("Expected array"),
    }
}

#[test]
fn test_parse_array_empty() {
    let input = b"*0\r\n";

    let (value, consumed) = parse_one(input).unwrap();

    match value {
        RespValue::Array(arr) => {
            assert_eq!(arr.len(), 0);
            assert_eq!(consumed, 4);
        }
        _ => panic!("Expected empty array"),
    }
}

#[test]
fn test_parse_array_null() {
    let input = b"*-1\r\n";

    let (value, consumed) = parse_one(input).unwrap();

    match value {
        RespValue::Null => {
            assert_eq!(consumed, 5);
        }
        _ => panic!("Expected null array"),
    }
}

#[test]
fn test_parse_array_incomplete() {
    let input = b"*2\r\n$3\r\nGET\r\n";

    match parse_one(input) {
        Err(ParseError::Incomplete) => {}
        _ => panic!("Expected Incomplete error"),
    }
}

#[test]
fn test_parse_array_mixed_types() {
    let input = b"*3\r\n+OK\r\n:42\r\n$5\r\nhello\r\n";

    let (value, _) = parse_one(input).unwrap();

    match value {
        RespValue::Array(arr) => {
            assert_eq!(arr.len(), 3);

            match &arr[0] {
                RespValue::Simple(s) => assert_eq!(s, "OK"),
                _ => panic!("Expected simple string"),
            }
            match &arr[1] {
                RespValue::Integer(n) => assert_eq!(*n, 42),
                _ => panic!("Expected integer"),
            }
            match &arr[2] {
                RespValue::Bulk(s) => assert_eq!(s, "hello"),
                _ => panic!("Expected bulk string"),
            }
        }
        _ => panic!("Expected array with mixed types"),
    }
}

#[test]
fn test_parse_bulk_string() {
    let input = b"$5\r\nhello\r\n";

    let (value, consumed) = parse_one(input).unwrap();

    match value {
        RespValue::Bulk(s) => {
            assert_eq!(s, "hello");
            assert_eq!(consumed, 11);
        }
        _ => panic!("Expected bulk string"),
    }
}

#[test]
fn test_parse_bulk_string_null() {
    let input = b"$-1\r\n";

    let (value, consumed) = parse_one(input).unwrap();

    match value {
        RespValue::Null => {
            assert_eq!(consumed, 5);
        }
        _ => panic!("Expected null bulk string"),
    }
}

#[test]
fn test_parse_integer() {
    let input = b":42\r\n";

    let (value, consumed) = parse_one(input).unwrap();

    match value {
        RespValue::Integer(n) => {
            assert_eq!(n, 42);
            assert_eq!(consumed, 5);
        }
        _ => panic!("Expected integer"),
    }
}

#[test]
fn test_parse_integer_negative() {
    let input = b":-100\r\n";

    let (value, consumed) = parse_one(input).unwrap();

    match value {
        RespValue::Integer(n) => {
            assert_eq!(n, -100);
            assert_eq!(consumed, 7);
        }
        _ => panic!("Expected negative integer"),
    }
}
