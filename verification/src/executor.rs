//! Turning RESP values into commands, running them against the store, and
//! handling a connection's buffer of received bytes.
use crate::db::Db;
use crate::number::{decimal, decimal_bytes};
use crate::parser::{
    items_view, lemma_parse_length, parse_one, spec_parse, Failure, ParseError, Resp, RespValue,
};
use crate::server::{HandlerResult, Outcome};
use crate::text::{same_text, to_uppercase, unicode_uppercase};
use vstd::prelude::*;
use vstd::slice::{slice_subrange, slice_to_vec};
use vstd::utf8::encode_utf8;

verus! {

/// A command the server understands.
#[allow(non_camel_case_types)]
pub enum Command {
    PING,
    SET(String, String),
    GET(String),
    ECHO(String),
    DEL(String),
}

/// The content of a command.
pub enum Cmd {
    Ping,
    Put(Seq<char>, Seq<char>),
    Get(Seq<char>),
    Echo(Seq<char>),
    Del(Seq<char>),
}

impl View for Command {
    type V = Cmd;

    open spec fn view(&self) -> Cmd {
        match self {
            Command::PING => Cmd::Ping,
            Command::SET(k, v) => Cmd::Put(k@, v@),
            Command::GET(k) => Cmd::Get(k@),
            Command::ECHO(m) => Cmd::Echo(m@),
            Command::DEL(k) => Cmd::Del(k@),
        }
    }
}

/// The text a string value carries.
pub open spec fn spec_extract_string(v: Resp) -> Result<Seq<char>, Seq<char>> {
    match v {
        Resp::Bulk(s) => Ok(s),
        Resp::Simple(s) => Ok(s),
        _ => Err("Expected string value"@),
    }
}

/// The command named `name`, already upper-cased, whose request holds the values
/// `items` (the name first), or the message that refuses it. PING takes any
/// arguments, ECHO, GET and DEL exactly one, SET exactly two.
pub open spec fn spec_named_command(name: Seq<char>, items: Seq<Resp>) -> Result<Cmd, Seq<char>> {
    if name == ("PING"@) {
        Ok(Cmd::Ping)
    } else if name == ("ECHO"@) && items.len() == 2 {
        match spec_extract_string(items[1]) {
            Ok(m) => Ok(Cmd::Echo(m)),
            Err(e) => Err(e),
        }
    } else if name == ("SET"@) && items.len() == 3 {
        match spec_extract_string(items[1]) {
            Err(e) => Err(e),
            Ok(k) => match spec_extract_string(items[2]) {
                Err(e) => Err(e),
                Ok(val) => Ok(Cmd::Put(k, val)),
            },
        }
    } else if name == ("GET"@) && items.len() == 2 {
        match spec_extract_string(items[1]) {
            Ok(k) => Ok(Cmd::Get(k)),
            Err(e) => Err(e),
        }
    } else if name == ("DEL"@) && items.len() == 2 {
        match spec_extract_string(items[1]) {
            Ok(k) => Ok(Cmd::Del(k)),
            Err(e) => Err(e),
        }
    } else {
        Err("Unknown or invalid command: "@ + name)
    }
}

/// The command that the value `v` asks for, or the message that refuses it: an
/// array whose first value is a string, the command's name, matched once
/// upper-cased.
pub open spec fn spec_command(v: Resp) -> Result<Cmd, Seq<char>> {
    match v {
        Resp::Array(items) => if items.len() == 0 {
            Err("Expected array command"@)
        } else {
            match items[0] {
                Resp::Bulk(s) => spec_named_command(unicode_uppercase(s), items),
                Resp::Simple(s) => spec_named_command(unicode_uppercase(s), items),
                _ => Err("Invalid command format"@),
            }
        },
        _ => Err("Expected array command"@),
    }
}

/// The reply `+PONG\r\n`.
pub open spec fn pong_reply() -> Seq<u8> {
    seq![43u8, 80u8, 79u8, 78u8, 71u8, 13u8, 10u8]
}

/// The reply `+OK\r\n`.
pub open spec fn ok_reply() -> Seq<u8> {
    seq![43u8, 79u8, 75u8, 13u8, 10u8]
}

/// The reply `$-1\r\n`, a null bulk string.
pub open spec fn null_reply() -> Seq<u8> {
    seq![36u8, 45u8, 49u8, 13u8, 10u8]
}

/// The reply `:1\r\n`, the integer one.
pub open spec fn one_reply() -> Seq<u8> {
    seq![58u8, 49u8, 13u8, 10u8]
}

/// The reply `:0\r\n`, the integer zero.
pub open spec fn zero_reply() -> Seq<u8> {
    seq![58u8, 48u8, 13u8, 10u8]
}

/// The bulk string carrying `s`: `$`, the byte length of its UTF-8 text in
/// decimal, `\r\n`, the text, `\r\n`.
pub open spec fn bulk_string(s: Seq<char>) -> Seq<u8> {
    seq![36u8] + decimal(encode_utf8(s).len()) + seq![13u8, 10u8] + encode_utf8(s) + seq![
        13u8,
        10u8,
    ]
}

/// The store after `cmd` runs on `db`, and the reply it sends.
pub open spec fn spec_execute(db: Map<Seq<char>, Seq<char>>, cmd: Cmd) -> (
    Map<Seq<char>, Seq<char>>,
    Seq<u8>,
) {
    match cmd {
        Cmd::Ping => (db, pong_reply()),
        Cmd::Echo(m) => (db, bulk_string(m)),
        Cmd::Put(k, v) => (db.insert(k, v), ok_reply()),
        Cmd::Get(k) => if db.contains_key(k) {
            (db, bulk_string(db[k]))
        } else {
            (db, null_reply())
        },
        Cmd::Del(k) => if db.contains_key(k) {
            (db.remove(k), one_reply())
        } else {
            (db, zero_reply())
        },
    }
}

/// The store after `cmds` run in order on `db`, and their replies one after the other.
pub open spec fn spec_run(db: Map<Seq<char>, Seq<char>>, cmds: Seq<Cmd>) -> (
    Map<Seq<char>, Seq<char>>,
    Seq<u8>,
)
    decreases cmds.len(),
{
    if cmds.len() == 0 {
        (db, Seq::empty())
    } else {
        let (db1, first) = spec_execute(db, cmds[0]);
        let (db2, rest) = spec_run(db1, cmds.drop_first());
        (db2, first + rest)
    }
}

/// How the bytes received so far divide: either they are refused, with a message,
/// or they begin with complete commands, taking `used` bytes, and what follows them
/// is empty or not yet a complete value.
pub enum Scan {
    Refused(Seq<char>),
    Commands(Seq<Cmd>, nat),
}

/// `rest` with the commands `front`, taking `used` bytes, put before it.
pub open spec fn prepend_scan(front: Seq<Cmd>, used: nat, rest: Scan) -> Scan {
    match rest {
        Scan::Refused(m) => Scan::Refused(m),
        Scan::Commands(cmds, n) => Scan::Commands(front + cmds, used + n),
    }
}

/// How the handler reads the buffer `b`: value after value from the front, each
/// turned into a command, until the bytes run out or no complete value is left.
/// A value that is not a command, a bad type byte or malformed bytes refuse the
/// whole buffer.
pub open spec fn spec_scan(b: Seq<u8>) -> Scan
    decreases b.len(),
{
    if b.len() == 0 {
        Scan::Commands(Seq::empty(), 0)
    } else {
        match spec_parse(b) {
            Ok((v, c)) => match spec_command(v) {
                Err(m) => Scan::Refused(m),
                Ok(cmd) => {
                    proof {
                        lemma_parse_length(b);
                    }
                    prepend_scan(seq![cmd], c, spec_scan(b.subrange(c as int, b.len() as int)))
                },
            },
            Err(Failure::Incomplete) => Scan::Commands(Seq::empty(), 0),
            Err(Failure::InvalidType) => Scan::Refused("Invalid RESP type"@),
            Err(Failure::Other(m)) => Scan::Refused(m),
        }
    }
}

/// What handling the buffer `b` does to the store `db`: the new store, the bytes
/// left in the buffer, and the answer. Refused bytes are dropped with an error and
/// nothing runs; otherwise the complete commands are taken off the front and run in
/// order, and their replies answered together, or `Incomplete` when there are none.
pub open spec fn spec_handle(db: Map<Seq<char>, Seq<char>>, b: Seq<u8>) -> (
    Map<Seq<char>, Seq<char>>,
    Seq<u8>,
    Outcome,
) {
    match spec_scan(b) {
        Scan::Refused(m) => (db, Seq::empty(), Outcome::Error(m)),
        Scan::Commands(cmds, used) => {
            let rest = b.subrange(used as int, b.len() as int);
            if cmds.len() == 0 {
                (db, rest, Outcome::Incomplete)
            } else {
                (spec_run(db, cmds).0, rest, Outcome::Response(spec_run(db, cmds).1))
            }
        },
    }
}

/// The contents of a sequence of commands.
pub open spec fn commands_view(cmds: Seq<Command>) -> Seq<Cmd> {
    Seq::new(cmds.len(), |i: int| cmds[i]@)
}

/// A server that keeps a store and answers the commands it receives.
pub struct RedisHandler {
    db: Db,
}

impl View for RedisHandler {
    type V = Map<Seq<char>, Seq<char>>;

    closed spec fn view(&self) -> Map<Seq<char>, Seq<char>> {
        self.db@
    }
}

/// The text carried by a string value.
fn extract_string(value: &RespValue) -> (res: Result<String, String>)
    ensures
        match (res, spec_extract_string(value@)) {
            (Ok(s), Ok(t)) => s@ == t,
            (Err(e), Err(m)) => e@ == m,
            _ => false,
        },
{
    match value {
        RespValue::Bulk(s) => Ok(s.clone()),
        RespValue::Simple(s) => Ok(s.clone()),
        _ => Err("Expected string value".to_owned()),
    }
}

/// The command that `value` asks for.
fn parse_command(value: &RespValue) -> (res: Result<Command, String>)
    ensures
        match (res, spec_command(value@)) {
            (Ok(c), Ok(d)) => c@ == d,
            (Err(e), Err(m)) => e@ == m,
            _ => false,
        },
{
    match value {
        RespValue::Array(arr) => {
            if arr.len() == 0 {
                return Err("Expected array command".to_owned());
            }
            assert(value@->Array_0 =~= items_view(arr@));
            let cmd_name = match &arr[0] {
                RespValue::Bulk(s) => to_uppercase(s.as_str()),
                RespValue::Simple(s) => to_uppercase(s.as_str()),
                _ => return Err("Invalid command format".to_owned()),
            };
            command_named(cmd_name.as_str(), arr)
        },
        _ => Err("Expected array command".to_owned()),
    }
}

/// The command named `name`, already upper-cased, whose request holds the values
/// `arr` (the name first).
pub fn command_named(name: &str, arr: &Vec<RespValue>) -> (res: Result<Command, String>)
    ensures
        match (res, spec_named_command(name@, items_view(arr@))) {
            (Ok(c), Ok(d)) => c@ == d,
            (Err(e), Err(m)) => e@ == m,
            _ => false,
        },
{
    if same_text(name, "PING") {
        Ok(Command::PING)
    } else if same_text(name, "ECHO") && arr.len() == 2 {
        match extract_string(&arr[1]) {
            Ok(msg) => Ok(Command::ECHO(msg)),
            Err(e) => Err(e),
        }
    } else if same_text(name, "SET") && arr.len() == 3 {
        let key = match extract_string(&arr[1]) {
            Ok(k) => k,
            Err(e) => return Err(e),
        };
        match extract_string(&arr[2]) {
            Ok(v) => Ok(Command::SET(key, v)),
            Err(e) => Err(e),
        }
    } else if same_text(name, "GET") && arr.len() == 2 {
        match extract_string(&arr[1]) {
            Ok(k) => Ok(Command::GET(k)),
            Err(e) => Err(e),
        }
    } else if same_text(name, "DEL") && arr.len() == 2 {
        match extract_string(&arr[1]) {
            Ok(k) => Ok(Command::DEL(k)),
            Err(e) => Err(e),
        }
    } else {
        let mut msg = "Unknown or invalid command: ".to_owned();
        msg.append(name);
        Err(msg)
    }
}

/// The bulk-string reply carrying `s`.
fn bulk_string_reply(s: &str) -> (res: Vec<u8>)
    ensures
        res@ == bulk_string(s@),
{
    let bytes = s.as_bytes();
    let mut out: Vec<u8> = Vec::new();
    out.push(36u8);
    let mut digits = decimal_bytes(bytes.len());
    out.append(&mut digits);
    out.push(13u8);
    out.push(10u8);
    let mut body = slice_to_vec(bytes);
    out.append(&mut body);
    out.push(13u8);
    out.push(10u8);
    assert(out@ =~= bulk_string(s@));
    out
}

impl RedisHandler {
    /// A handler with an empty store.
    pub fn new() -> (handler: Self)
        ensures
            handler@ == Map::<Seq<char>, Seq<char>>::empty(),
    {
        RedisHandler { db: Db::new() }
    }

    /// Reads every complete command at the front of `buffer`, runs them in order and
    /// answers their replies together; leaves in `buffer` the bytes not yet read.
    /// Bytes that can never form a command are dropped, with an error, and nothing runs.
    pub fn handle(&mut self, buffer: &mut Vec<u8>) -> (res: HandlerResult)
        ensures
            (final(self)@, final(buffer)@, res@) == spec_handle(old(self)@, old(buffer)@),
    {
        let ghost b0 = buffer@;
        let len = buffer.len();
        let mut commands: Vec<Command> = Vec::new();
        let mut total: usize = 0;
        proof {
            assert(b0.subrange(0, len as int) =~= b0);
            if let Scan::Commands(cmds, n) = spec_scan(b0) {
                assert(Seq::<Cmd>::empty() + cmds =~= cmds);
            }
        }
        while total < len
            invariant
                buffer@ == b0,
                old(buffer)@ == b0,
                len == b0.len(),
                total <= len,
                self@ == old(self)@,
                spec_scan(b0) == prepend_scan(
                    commands_view(commands@),
                    total as nat,
                    spec_scan(b0.subrange(total as int, len as int)),
                ),
            ensures
                total <= len,
                buffer@ == b0,
                self@ == old(self)@,
                spec_scan(b0) == prepend_scan(
                    commands_view(commands@),
                    total as nat,
                    Scan::Commands(Seq::empty(), 0),
                ),
            decreases len - total,
        {
            let remaining = slice_subrange(buffer.as_slice(), total, len);
            let ghost rest = remaining@;
            assert(rest == b0.subrange(total as int, len as int));
            match parse_one(remaining) {
                Ok((value, consumed)) => {
                    match parse_command(&value) {
                        Ok(cmd) => {
                            proof {
                                lemma_parse_length(rest);
                                let after = rest.subrange(consumed as int, rest.len() as int);
                                assert(after =~= b0.subrange(total + consumed, len as int));
                                let tail = spec_scan(after);
                                if let Scan::Commands(cs, n) = tail {
                                    assert(commands_view(commands@) + (seq![cmd@] + cs)
                                        =~= commands_view(commands@).push(cmd@) + cs);
                                }
                            }
                            let ghost front = commands_view(commands@);
                            commands.push(cmd);
                            assert(commands_view(commands@) =~= front.push(cmd@));
                            total = total + consumed;
                        },
                        Err(err) => {
                            assert(spec_scan(rest) == Scan::Refused(err@));
                            buffer.clear();
                            return HandlerResult::Error(err);
                        },
                    }
                },
                Err(ParseError::Incomplete) => {
                    break;
                },
                Err(ParseError::InvalidType) => {
                    assert(spec_scan(rest) == Scan::Refused("Invalid RESP type"@));
                    buffer.clear();
                    return HandlerResult::Error("Invalid RESP type".to_owned());
                },
                Err(ParseError::Other(msg)) => {
                    assert(spec_scan(rest) == Scan::Refused(msg@));
                    buffer.clear();
                    return HandlerResult::Error(msg);
                },
            }
        }
        let ghost cmds = commands_view(commands@);
        assert(spec_scan(b0) == Scan::Commands(cmds, total as nat)) by {
            assert(cmds + Seq::<Cmd>::empty() =~= cmds);
        }
        let kept = slice_to_vec(slice_subrange(buffer.as_slice(), total, len));
        *buffer = kept;
        if commands.len() == 0 {
            return HandlerResult::Incomplete;
        }
        let ghost db0 = self@;
        let mut response: Vec<u8> = Vec::new();
        let mut i: usize = 0;
        proof {
            assert(cmds.skip(0) =~= cmds);
            assert(Seq::<u8>::empty() + spec_run(db0, cmds).1 =~= spec_run(db0, cmds).1);
        }
        while i < commands.len()
            invariant
                i <= commands.len(),
                cmds == commands_view(commands@),
                spec_run(db0, cmds) == (
                    spec_run(self@, cmds.skip(i as int)).0,
                    response@ + spec_run(self@, cmds.skip(i as int)).1,
                ),
            decreases commands.len() - i,
        {
            let ghost db_before = self@;
            let ghost out_before = response@;
            let mut reply = self.execute_command(&commands[i]);
            proof {
                let later = cmds.skip(i as int);
                assert(later[0] == commands@[i as int]@);
                assert(later.drop_first() =~= cmds.skip(i + 1));
                let r2 = spec_run(self@, cmds.skip(i + 1)).1;
                assert(out_before + (reply@ + r2) =~= (out_before + reply@) + r2);
            }
            response.append(&mut reply);
            i = i + 1;
        }
        assert(cmds.skip(i as int) =~= Seq::<Cmd>::empty());
        assert(response@ + Seq::<u8>::empty() =~= response@);
        HandlerResult::Response(response)
    }

    /// Runs `cmd` on the store and gives its reply.
    fn execute_command(&mut self, cmd: &Command) -> (reply: Vec<u8>)
        ensures
            (final(self)@, reply@) == spec_execute(old(self)@, cmd@),
    {
        match cmd {
            Command::PING => {
                let r: Vec<u8> = vec![43u8, 80u8, 79u8, 78u8, 71u8, 13u8, 10u8];
                assert(r@ =~= pong_reply());
                r
            },
            Command::ECHO(msg) => bulk_string_reply(msg.as_str()),
            Command::SET(key, value) => {
                self.db.set(key.clone(), value.clone());
                let r: Vec<u8> = vec![43u8, 79u8, 75u8, 13u8, 10u8];
                assert(r@ =~= ok_reply());
                r
            },
            Command::GET(key) => {
                match self.db.get(key.as_str()) {
                    Some(value) => bulk_string_reply(value.as_str()),
                    None => {
                        let r: Vec<u8> = vec![36u8, 45u8, 49u8, 13u8, 10u8];
                        assert(r@ =~= null_reply());
                        r
                    },
                }
            },
            Command::DEL(key) => {
                if self.db.del(key.as_str()) {
                    let r: Vec<u8> = vec![58u8, 49u8, 13u8, 10u8];
                    assert(r@ =~= one_reply());
                    r
                } else {
                    let r: Vec<u8> = vec![58u8, 48u8, 13u8, 10u8];
                    assert(r@ =~= zero_reply());
                    r
                }
            },
        }
    }
}

} // verus!
