//! What a request handler tells the connection loop after it has looked at the
//! bytes received so far.
use vstd::prelude::*;
use vstd::slice::slice_to_vec;
use vstd::utf8::encode_utf8;

verus! {

/// The handler's answer to the connection loop.
#[derive(Debug)]
pub enum HandlerResult {
    /// Not enough bytes yet, keep reading
    Incomplete,
    /// Fatal error, with message
    Error(String),
    /// Successfully handled, optionally return bytes to write back
    Response(Vec<u8>),
}

/// The content of a `HandlerResult`.
pub enum Outcome {
    Incomplete,
    Error(Seq<char>),
    Response(Seq<u8>),
}

impl View for HandlerResult {
    type V = Outcome;

    open spec fn view(&self) -> Outcome {
        match self {
            HandlerResult::Incomplete => Outcome::Incomplete,
            HandlerResult::Error(msg) => Outcome::Error(msg@),
            HandlerResult::Response(bytes) => Outcome::Response(bytes@),
        }
    }
}

/// The line sent to a client whose bytes were refused: `ERR `, the message's UTF-8
/// text, `\r\n`.
pub open spec fn error_line_bytes(msg: Seq<char>) -> Seq<u8> {
    seq![69u8, 82u8, 82u8, 32u8] + encode_utf8(msg) + seq![13u8, 10u8]
}

/// The line sent to a client whose bytes were refused with the message `msg`.
pub fn error_line(msg: &str) -> (line: Vec<u8>)
    ensures
        line@ == error_line_bytes(msg@),
{
    let mut line: Vec<u8> = vec![69u8, 82u8, 82u8, 32u8];
    let mut text = slice_to_vec(msg.as_bytes());
    line.append(&mut text);
    line.push(13u8);
    line.push(10u8);
    assert(line@ =~= error_line_bytes(msg@));
    line
}

} // verus!
