//! The RESP wire format: reading one value (simple string, integer, bulk
//! string, array or null) from the front of a byte buffer.
use crate::number::{parse_i64, spec_parse_i64};
use crate::text::str_from_utf8;
use vstd::prelude::*;
use vstd::slice::slice_subrange;
use vstd::utf8::*;

verus! {

/// ASCII code of `'\r'`.
pub const CR: u8 = 13u8;

/// ASCII code of `'\n'`.
pub const LF: u8 = 10u8;

/// A RESP value read from the wire.
#[derive(Debug)]
pub enum RespValue {
    Simple(String),
    Integer(i64),
    Bulk(String),
    Array(Vec<RespValue>),
    Null,
}

/// Why no value could be read.
#[derive(Debug)]
pub enum ParseError {
    /// The buffer ends before the value does: more bytes may complete it.
    Incomplete,
    /// The first byte names no RESP type.
    InvalidType,
    /// The bytes can never form a value; the message says why.
    Other(String),
}

/// The mathematical content of a RESP value: text as characters, integers as `int`.
pub enum Resp {
    Simple(Seq<char>),
    Integer(int),
    Bulk(Seq<char>),
    Array(Seq<Resp>),
    Null,
}

/// The content of a `ParseError`.
pub enum Failure {
    Incomplete,
    InvalidType,
    Other(Seq<char>),
}

impl View for RespValue {
    type V = Resp;

    open spec fn view(&self) -> Resp
        decreases self,
    {
        match self {
            RespValue::Simple(s) => Resp::Simple(s@),
            RespValue::Integer(n) => Resp::Integer(*n as int),
            RespValue::Bulk(s) => Resp::Bulk(s@),
            RespValue::Array(items) => Resp::Array(
                Seq::new(
                    items.len() as nat,
                    |i: int|
                        if 0 <= i < items.len() {
                            items@[i].view()
                        } else {
                            Resp::Null
                        },
                ),
            ),
            RespValue::Null => Resp::Null,
        }
    }
}

impl View for ParseError {
    type V = Failure;

    open spec fn view(&self) -> Failure {
        match self {
            ParseError::Incomplete => Failure::Incomplete,
            ParseError::InvalidType => Failure::InvalidType,
            ParseError::Other(s) => Failure::Other(s@),
        }
    }
}

/// The outcome of reading a value: the value and the number of bytes it took.
pub type SpecParse = Result<(Resp, nat), Failure>;

/// True when `b[i..i + 2]` is the line terminator `\r\n`.
pub open spec fn crlf_at(b: Seq<u8>, i: int) -> bool {
    0 <= i && i + 1 < b.len() && b[i] == CR && b[i + 1] == LF
}

/// True when `i` is the position of the first `\r\n` in `b`.
pub open spec fn is_first_crlf(b: Seq<u8>, i: int) -> bool {
    crlf_at(b, i) && forall|j: int| 0 <= j < i ==> !crlf_at(b, j)
}

/// True when `b` holds a `\r\n`.
pub open spec fn has_crlf(b: Seq<u8>) -> bool {
    exists|i: int| #[trigger] is_first_crlf(b, i)
}

/// Position of the first `\r\n` in `b`.
pub open spec fn first_crlf(b: Seq<u8>) -> int
    recommends
        has_crlf(b),
{
    choose|i: int| #[trigger] is_first_crlf(b, i)
}

/// The bytes after the type byte, up to the first `\r\n`.
pub open spec fn header(b: Seq<u8>) -> Seq<u8>
    recommends
        has_crlf(b),
{
    b.subrange(1, first_crlf(b))
}

/// Where the bytes after the first line begin.
pub open spec fn after_header(b: Seq<u8>) -> nat
    recommends
        has_crlf(b),
{
    (first_crlf(b) + 2) as nat
}

/// A simple string, `+text\r\n`.
pub open spec fn spec_parse_simple(b: Seq<u8>) -> SpecParse {
    if !has_crlf(b) {
        Err(Failure::Incomplete)
    } else if !valid_utf8(header(b)) {
        Err(Failure::Other("invalid utf8"@))
    } else {
        Ok((Resp::Simple(decode_utf8(header(b))), after_header(b)))
    }
}

/// An integer, `:digits\r\n`.
pub open spec fn spec_parse_integer(b: Seq<u8>) -> SpecParse {
    if !has_crlf(b) {
        Err(Failure::Incomplete)
    } else if !valid_utf8(header(b)) {
        Err(Failure::Other("invalid utf8 in integer"@))
    } else {
        match spec_parse_i64(header(b)) {
            None => Err(Failure::Other("invalid integer"@)),
            Some(n) => Ok((Resp::Integer(n), after_header(b))),
        }
    }
}

/// A bulk string, `$len\r\n` then `len` bytes then `\r\n`; `$-1\r\n` is null.
pub open spec fn spec_parse_bulk(b: Seq<u8>) -> SpecParse {
    if !has_crlf(b) {
        Err(Failure::Incomplete)
    } else if !valid_utf8(header(b)) {
        Err(Failure::Other("invalid utf8 in length"@))
    } else {
        match spec_parse_i64(header(b)) {
            None => Err(Failure::Other("invalid length"@)),
            Some(len) => {
                let start = after_header(b);
                let end = start + len;
                if len == -1 {
                    Ok((Resp::Null, start))
                } else if len < 0 {
                    Err(Failure::Other("negative length"@))
                } else if b.len() < end + 2 {
                    Err(Failure::Incomplete)
                } else if !crlf_at(b, end) {
                    Err(Failure::Other("missing CRLF after bulk string"@))
                } else if !valid_utf8(b.subrange(start as int, end)) {
                    Err(Failure::Other("invalid utf8"@))
                } else {
                    Ok((Resp::Bulk(decode_utf8(b.subrange(start as int, end))), (end + 2) as nat))
                }
            },
        }
    }
}

/// The outcome of reading `n` values one after the other from the front of `b`:
/// the values and the bytes they took together, or the first failure. (A value
/// never takes more bytes than `b` has, by `lemma_parse_length`, so the last
/// branch is never taken.)
pub open spec fn spec_parse_items(b: Seq<u8>, n: nat) -> Result<(Seq<Resp>, nat), Failure>
    decreases b.len(), 3nat, n,
{
    if n == 0 {
        Ok((Seq::empty(), 0))
    } else {
        match spec_parse(b) {
            Err(e) => Err(e),
            Ok((v, c)) => if c <= b.len() {
                match spec_parse_items(b.subrange(c as int, b.len() as int), (n - 1) as nat) {
                    Err(e) => Err(e),
                    Ok((vs, d)) => Ok((seq![v] + vs, c + d)),
                }
            } else {
                Err(Failure::Incomplete)
            },
        }
    }
}

/// An array, `*count\r\n` then `count` values; `*-1\r\n` is null.
pub open spec fn spec_parse_array(b: Seq<u8>) -> SpecParse
    decreases b.len(), 1nat, 0nat,
{
    if !has_crlf(b) {
        Err(Failure::Incomplete)
    } else if !valid_utf8(header(b)) {
        Err(Failure::Other("invalid utf8 in count"@))
    } else {
        match spec_parse_i64(header(b)) {
            None => Err(Failure::Other("invalid count"@)),
            Some(count) => {
                let start = after_header(b);
                if count == -1 {
                    Ok((Resp::Null, start))
                } else if count < 0 {
                    Err(Failure::Other("negative count"@))
                } else {
                    match spec_parse_items(b.subrange(start as int, b.len() as int), count as nat) {
                        Err(e) => Err(e),
                        Ok((items, used)) => Ok((Resp::Array(items), start + used)),
                    }
                }
            },
        }
    }
}

/// The outcome of reading one RESP value from the front of `b`.
pub open spec fn spec_parse(b: Seq<u8>) -> SpecParse
    decreases b.len(), 2nat, 0nat,
{
    if b.len() == 0 {
        Err(Failure::Incomplete)
    } else if b[0] == 43u8 {
        spec_parse_simple(b)
    } else if b[0] == 58u8 {
        spec_parse_integer(b)
    } else if b[0] == 36u8 {
        spec_parse_bulk(b)
    } else if b[0] == 42u8 {
        spec_parse_array(b)
    } else {
        Err(Failure::InvalidType)
    }
}

/// There is at most one first `\r\n`.
pub proof fn lemma_first_crlf_unique(b: Seq<u8>, i: int)
    requires
        is_first_crlf(b, i),
    ensures
        has_crlf(b),
        first_crlf(b) == i,
{
    let j = first_crlf(b);
    assert(is_first_crlf(b, j));
    if j < i {
        assert(!crlf_at(b, j));
    } else if i < j {
        assert(!crlf_at(b, i));
    }
}

/// Position of the first `\r\n` in `buffer`.
fn find_crlf(buffer: &[u8]) -> (res: Option<usize>)
    ensures
        match res {
            Some(i) => is_first_crlf(buffer@, i as int) && first_crlf(buffer@) == i && i + 2
                <= buffer.len(),
            None => !has_crlf(buffer@),
        },
{
    let n = buffer.len();
    let mut i: usize = 0;
    while n > 1 && i < n - 1
        invariant
            n == buffer@.len(),
            i <= n,
            forall|j: int| 0 <= j < i ==> !crlf_at(buffer@, j),
        decreases n - i,
    {
        if buffer[i] == CR && buffer[i + 1] == LF {
            proof {
                lemma_first_crlf_unique(buffer@, i as int);
            }
            return Some(i);
        }
        i = i + 1;
    }
    None
}

/// The error that carries `msg`.
fn failure(msg: &str) -> (res: ParseError)
    ensures
        res@ == Failure::Other(msg@),
{
    ParseError::Other(msg.to_owned())
}

/// True when the result of an executable parse is the outcome `spec` describes.
pub open spec fn parse_agrees(res: Result<(RespValue, usize), ParseError>, spec: SpecParse) -> bool {
    match (res, spec) {
        (Ok((v, n)), Ok((w, m))) => v@ == w && n == m,
        (Err(e), Err(f)) => e@ == f,
        _ => false,
    }
}

/// The contents of a sequence of values.
pub open spec fn items_view(items: Seq<RespValue>) -> Seq<Resp> {
    Seq::new(items.len(), |i: int| items[i]@)
}

/// `rest` with `front` and `used` bytes put before it.
pub open spec fn prepend_items(
    front: Seq<Resp>,
    used: nat,
    rest: Result<(Seq<Resp>, nat), Failure>,
) -> Result<(Seq<Resp>, nat), Failure> {
    match rest {
        Err(e) => Err(e),
        Ok((vs, d)) => Ok((front + vs, used + d)),
    }
}

/// A value read successfully takes at least three bytes and no more than the buffer has.
pub proof fn lemma_parse_length(b: Seq<u8>)
    ensures
        spec_parse(b) matches Ok((_, c)) ==> 3 <= c <= b.len(),
    decreases b.len(), 2nat, 0nat,
{
    if b.len() > 0 && has_crlf(b) {
        let pos = first_crlf(b);
        assert(is_first_crlf(b, pos));
        if b[0] == 42u8 {
            lemma_array_length(b);
        }
    }
}

/// `n` values read successfully are `n` values and take no more than the buffer has.
pub proof fn lemma_items_length(b: Seq<u8>, n: nat)
    ensures
        spec_parse_items(b, n) matches Ok((vs, d)) ==> vs.len() == n && d <= b.len(),
    decreases b.len(), 3nat, n,
{
    if n > 0 {
        lemma_parse_length(b);
        if let Ok((v, c)) = spec_parse(b) {
            lemma_items_length(b.subrange(c as int, b.len() as int), (n - 1) as nat);
        }
    }
}

/// An array read successfully takes at least three bytes and no more than the buffer has.
pub proof fn lemma_array_length(b: Seq<u8>)
    requires
        b.len() > 0,
        b[0] == 42u8,
    ensures
        spec_parse_array(b) matches Ok((_, c)) ==> 3 <= c <= b.len(),
    decreases b.len(), 1nat, 0nat,
{
    if has_crlf(b) {
        let pos = first_crlf(b);
        assert(is_first_crlf(b, pos));
        let start = after_header(b);
        if let Some(count) = spec_parse_i64(header(b)) {
            if count >= 0 {
                lemma_items_length(b.subrange(start as int, b.len() as int), count as nat);
            }
        }
    }
}

proof fn lemma_prepend_step(
    front: Seq<Resp>,
    used: nat,
    v: Resp,
    c: nat,
    rest: Result<(Seq<Resp>, nat), Failure>,
)
    ensures
        prepend_items(front, used, prepend_items(seq![v], c, rest)) == prepend_items(
            front.push(v),
            used + c,
            rest,
        ),
{
    if let Ok((vs, d)) = rest {
        assert(front + (seq![v] + vs) =~= front.push(v) + vs);
    }
}

fn parse_simple_string(buffer: &[u8]) -> (res: Result<(RespValue, usize), ParseError>)
    requires
        buffer@.len() > 0,
        buffer@[0] == 43u8,
    ensures
        parse_agrees(res, spec_parse_simple(buffer@)),
{
    let pos = match find_crlf(buffer) {
        Some(p) => p,
        None => return Err(ParseError::Incomplete),
    };
    let content = slice_subrange(buffer, 1, pos);
    match str_from_utf8(content) {
        None => Err(failure("invalid utf8")),
        Some(s) => Ok((RespValue::Simple(s.to_owned()), pos + 2)),
    }
}

fn parse_integer(buffer: &[u8]) -> (res: Result<(RespValue, usize), ParseError>)
    requires
        buffer@.len() > 0,
        buffer@[0] == 58u8,
    ensures
        parse_agrees(res, spec_parse_integer(buffer@)),
{
    let pos = match find_crlf(buffer) {
        Some(p) => p,
        None => return Err(ParseError::Incomplete),
    };
    let text = slice_subrange(buffer, 1, pos);
    if str_from_utf8(text).is_none() {
        return Err(failure("invalid utf8 in integer"));
    }
    match parse_i64(text) {
        None => Err(failure("invalid integer")),
        Some(n) => Ok((RespValue::Integer(n), pos + 2)),
    }
}

fn parse_bulk_string(buffer: &[u8]) -> (res: Result<(RespValue, usize), ParseError>)
    requires
        buffer@.len() > 0,
        buffer@[0] == 36u8,
    ensures
        parse_agrees(res, spec_parse_bulk(buffer@)),
{
    let pos = match find_crlf(buffer) {
        Some(p) => p,
        None => return Err(ParseError::Incomplete),
    };
    let text = slice_subrange(buffer, 1, pos);
    if str_from_utf8(text).is_none() {
        return Err(failure("invalid utf8 in length"));
    }
    let len = match parse_i64(text) {
        None => return Err(failure("invalid length")),
        Some(n) => n,
    };
    if len == -1 {
        return Ok((RespValue::Null, pos + 2));
    }
    if len < 0 {
        return Err(failure("negative length"));
    }
    let data_start = pos + 2;
    let available = buffer.len() - data_start;
    if (available as u128) < (len as u128) + 2 {
        return Err(ParseError::Incomplete);
    }
    let data_end = data_start + len as usize;
    if buffer[data_end] != CR || buffer[data_end + 1] != LF {
        return Err(failure("missing CRLF after bulk string"));
    }
    let content = slice_subrange(buffer, data_start, data_end);
    match str_from_utf8(content) {
        None => Err(failure("invalid utf8")),
        Some(s) => Ok((RespValue::Bulk(s.to_owned()), data_end + 2)),
    }
}

fn parse_array(buffer: &[u8]) -> (res: Result<(RespValue, usize), ParseError>)
    requires
        buffer@.len() > 0,
        buffer@[0] == 42u8,
    ensures
        parse_agrees(res, spec_parse_array(buffer@)),
    decreases buffer@.len(), 1nat,
{
    let pos = match find_crlf(buffer) {
        Some(p) => p,
        None => return Err(ParseError::Incomplete),
    };
    let text = slice_subrange(buffer, 1, pos);
    if str_from_utf8(text).is_none() {
        return Err(failure("invalid utf8 in count"));
    }
    let count = match parse_i64(text) {
        None => return Err(failure("invalid count")),
        Some(n) => n,
    };
    if count == -1 {
        return Ok((RespValue::Null, pos + 2));
    }
    if count < 0 {
        return Err(failure("negative count"));
    }
    let n = count as u64;
    let len = buffer.len();
    let ghost body = buffer@.subrange(pos + 2, len as int);
    let mut elements: Vec<RespValue> = Vec::new();
    let mut total: usize = pos + 2;
    let mut i: u64 = 0;
    assert(spec_parse_array(buffer@) == match spec_parse_items(body, n as nat) {
        Err(e) => Err(e),
        Ok((items, used)) => Ok((Resp::Array(items), (pos + 2 + used) as nat)),
    });
    proof {
        let whole = spec_parse_items(body, n as nat);
        if let Ok((vs, d)) = whole {
            assert(Seq::<Resp>::empty() + vs =~= vs);
        }
        assert(buffer@.subrange(total as int, len as int) =~= body);
    }
    while i < n
        invariant
            len == buffer@.len(),
            1 <= pos,
            pos + 2 <= total <= len,
            i <= n,
            n == count,
            body == buffer@.subrange(pos + 2, len as int),
            spec_parse_array(buffer@) == match spec_parse_items(body, n as nat) {
                Err(e) => Err(e),
                Ok((items, used)) => Ok((Resp::Array(items), (pos + 2 + used) as nat)),
            },
            spec_parse_items(body, n as nat) == prepend_items(
                items_view(elements@),
                (total - pos - 2) as nat,
                spec_parse_items(buffer@.subrange(total as int, len as int), (n - i) as nat),
            ),
        decreases n - i,
    {
        let remaining = slice_subrange(buffer, total, len);
        let ghost rest = remaining@;
        match parse_one(remaining) {
            Ok((val, consumed)) => {
                proof {
                    lemma_parse_length(rest);
                    assert(rest.subrange(consumed as int, rest.len() as int) =~= buffer@.subrange(
                        total + consumed,
                        len as int,
                    ));
                    lemma_prepend_step(
                        items_view(elements@),
                        (total - pos - 2) as nat,
                        val@,
                        consumed as nat,
                        spec_parse_items(
                            rest.subrange(consumed as int, rest.len() as int),
                            (n - i - 1) as nat,
                        ),
                    );
                }
                let ghost front = items_view(elements@);
                elements.push(val);
                assert(items_view(elements@) =~= front.push(val@));
                total = total + consumed;
                i = i + 1;
            },
            Err(e) => {
                assert(spec_parse_items(rest, (n - i) as nat) == Err::<(Seq<Resp>, nat), Failure>(e@));
                return Err(e);
            },
        }
    }
    let ghost items = items_view(elements@);
    let res = RespValue::Array(elements);
    assert(res@ == Resp::Array(items)) by {
        assert(res@ is Array);
        assert(res@->Array_0 =~= items);
    }
    Ok((res, total))
}

/// Reads one RESP value from the front of `buffer`, and says how many bytes it took.
pub fn parse_one(buffer: &[u8]) -> (res: Result<(RespValue, usize), ParseError>)
    ensures
        parse_agrees(res, spec_parse(buffer@)),
    decreases buffer@.len(), 2nat,
{
    if buffer.len() == 0 {
        return Err(ParseError::Incomplete);
    }
    let kind = buffer[0];
    if kind == 43u8 {
        parse_simple_string(buffer)
    } else if kind == 58u8 {
        parse_integer(buffer)
    } else if kind == 36u8 {
        parse_bulk_string(buffer)
    } else if kind == 42u8 {
        parse_array(buffer)
    } else {
        Err(ParseError::InvalidType)
    }
}

} // verus!
