use tiny_redis::executor::RedisHandler;
use tiny_redis::server::HandlerResult;

#[test]
fn test_ping_command() {
    let mut handler = RedisHandler::new();
    let mut buffer = b"*1\r\n$4\r\nPING\r\n".to_vec();

    match handler.handle(&mut buffer) {
        HandlerResult::Response(response) => {
            assert_eq!(response, b"+PONG\r\n");
            assert!(buffer.is_empty());
        }
        _ => panic!("Expected Ok response"),
    }
}

#[test]
fn test_echo_command() {
    let mut handler = RedisHandler::new();
    let mut buffer = b"*2\r\n$4\r\nECHO\r\n$5\r\nhello\r\n".to_vec();

    match handler.handle(&mut buffer) {
        HandlerResult::Response(response) => {
            assert_eq!(response, b"$5\r\nhello\r\n");
            assert!(buffer.is_empty());
        }
        _ => panic!("Expected Ok response"),
    }
}

#[test]
fn test_incomplete_command() {
    let mut handler = RedisHandler::new();
    let mut buffer = b"*2\r\n$3\r\nGET".to_vec();

    match handler.handle(&mut buffer) {
        HandlerResult::Incomplete => {
            // Buffer should still contain the incomplete data
            assert_eq!(buffer, b"*2\r\n$3\r\nGET");
        }
        _ => panic!("Expected Incomplete"),
    }
}

#[test]
fn test_multiple_commands() {
    let mut handler = RedisHandler::new();
    let mut buffer = b"*1\r\n$4\r\nPING\r\n*2\r\n$4\r\nECHO\r\n$2\r\nhi\r\n".to_vec();

    match handler.handle(&mut buffer) {
        HandlerResult::Response(response) => {
            assert_eq!(response, b"+PONG\r\n$2\r\nhi\r\n");
            assert!(buffer.is_empty());
        }
        _ => panic!("Expected Ok response"),
    }
}

#[test]
fn test_set_get_commands() {
    let mut handler = RedisHandler::new();

    // SET command
    let mut buffer = b"*3\r\n$3\r\nSET\r\n$3\r\nkey\r\n$5\r\nvalue\r\n".to_vec();
    match handler.handle(&mut buffer) {
        HandlerResult::Response(response) => {
            assert_eq!(response, b"+OK\r\n");
        }
        _ => panic!("Expected Ok response"),
    }

    // GET command - should now return the value
    let mut buffer = b"*2\r\n$3\r\nGET\r\n$3\r\nkey\r\n".to_vec();
    match handler.handle(&mut buffer) {
        HandlerResult::Response(response) => {
            assert_eq!(response, b"$5\r\nvalue\r\n");
        }
        _ => panic!("Expected Ok response"),
    }
}

#[test]
fn test_get_nonexistent_key() {
    let mut handler = RedisHandler::new();
    let mut buffer = b"*2\r\n$3\r\nGET\r\n$7\r\nmissing\r\n".to_vec();

    match handler.handle(&mut buffer) {
        HandlerResult::Response(response) => {
            assert_eq!(response, b"$-1\r\n");
        }
        _ => panic!("Expected Ok response"),
    }
}
