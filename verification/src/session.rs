//! Laws of a client session: what handling requests does to the store and the
//! buffer, for requests sent whole, in pieces, or several at once.
use crate::executor::{
    bulk_string, null_reply, ok_reply, one_reply, prepend_scan, spec_command, spec_execute,
    spec_handle, spec_run, spec_scan, Cmd, Scan,
};
use crate::framing::{
    law_reply_reads_back, law_bulk_string_reads_back, law_parse_extension, law_parse_prefix, lemma_decimal_parses,
};
use crate::number::decimal;
use crate::parser::{
    crlf_at, header, lemma_first_crlf_unique, lemma_parse_length,
    spec_parse, spec_parse_items, Failure, Resp,
};
use crate::server::Outcome;
use crate::text::unicode_uppercase;
use vstd::prelude::*;
use vstd::utf8::encode_utf8;

verus! {

/// The bulk strings carrying `parts`, one after the other.
pub open spec fn bulk_strings(parts: Seq<Seq<char>>) -> Seq<u8>
    decreases parts.len(),
{
    if parts.len() == 0 {
        Seq::empty()
    } else {
        bulk_string(parts[0]) + bulk_strings(parts.drop_first())
    }
}

/// A request as a client sends it: an array of bulk strings.
pub open spec fn request(parts: Seq<Seq<char>>) -> Seq<u8> {
    seq![42u8] + decimal(parts.len()) + seq![13u8, 10u8] + bulk_strings(parts)
}

/// The value a request carries.
pub open spec fn request_value(parts: Seq<Seq<char>>) -> Resp {
    Resp::Array(parts.map_values(|p: Seq<char>| Resp::Bulk(p)))
}

/// Every part's UTF-8 text, and the number of parts, fit in an `i64`.
pub open spec fn fits(parts: Seq<Seq<char>>) -> bool {
    &&& parts.len() <= i64::MAX
    &&& forall|i: int| 0 <= i < parts.len() ==> encode_utf8(#[trigger] parts[i]).len() <= i64::MAX
}

/// The bulk strings carrying `parts`, one after the other, read back as those parts.
pub proof fn law_bulk_strings_read_back(parts: Seq<Seq<char>>)
    requires
        fits(parts),
    ensures
        spec_parse_items(bulk_strings(parts), parts.len()) == Ok::<(Seq<Resp>, nat), Failure>(
            (parts.map_values(|p: Seq<char>| Resp::Bulk(p)), bulk_strings(parts).len()),
        ),
    decreases parts.len(),
{
    if parts.len() > 0 {
        let first = bulk_string(parts[0]);
        let tail = parts.drop_first();
        let b = bulk_strings(parts);
        assert(encode_utf8(parts[0]).len() <= i64::MAX);
        law_bulk_string_reads_back(parts[0], bulk_strings(tail));
        assert(b.subrange(first.len() as int, b.len() as int) =~= bulk_strings(tail));
        assert(fits(tail)) by {
            assert forall|i: int| 0 <= i < tail.len() implies encode_utf8(#[trigger] tail[i]).len()
                <= i64::MAX by {
                assert(tail[i] == parts[i + 1]);
            }
        }
        law_bulk_strings_read_back(tail);
        assert(seq![Resp::Bulk(parts[0])] + tail.map_values(|p: Seq<char>| Resp::Bulk(p))
            =~= parts.map_values(|p: Seq<char>| Resp::Bulk(p)));
    } else {
        assert(parts.map_values(|p: Seq<char>| Resp::Bulk(p)) =~= Seq::<Resp>::empty());
    }
}

/// A request reads back as the array of its parts, taking all of its bytes.
pub proof fn law_request_reads_back(parts: Seq<Seq<char>>)
    requires
        fits(parts),
    ensures
        spec_parse(request(parts)) == Ok::<(Resp, nat), Failure>(
            (request_value(parts), request(parts).len()),
        ),
{
    let n = parts.len();
    let d = decimal(n);
    let b = request(parts);
    lemma_decimal_parses(n);
    let pos = (d.len() + 1) as int;
    assert forall|j: int| 0 <= j < pos implies !crlf_at(b, j) by {
        if j > 0 {
            assert(b[j] == d[j - 1]);
        }
    }
    assert(crlf_at(b, pos));
    lemma_first_crlf_unique(b, pos);
    assert(header(b) =~= d);
    assert(b.subrange(pos + 2, b.len() as int) =~= bulk_strings(parts));
    law_bulk_strings_read_back(parts);
}

/// Handling one whole request runs its command and replies, leaving the buffer
/// empty; a request that names no command is refused and changes nothing.
pub proof fn law_handle_request(db: Map<Seq<char>, Seq<char>>, parts: Seq<Seq<char>>)
    requires
        fits(parts),
    ensures
        spec_handle(db, request(parts)) == (match spec_command(request_value(parts)) {
            Ok(cmd) => (
                spec_execute(db, cmd).0,
                Seq::<u8>::empty(),
                Outcome::Response(spec_execute(db, cmd).1),
            ),
            Err(m) => (db, Seq::<u8>::empty(), Outcome::Error(m)),
        }),
{
    let b = request(parts);
    law_request_reads_back(parts);
    let rest = b.subrange(b.len() as int, b.len() as int);
    assert(rest =~= Seq::<u8>::empty());
    assert(b.len() > 0);
    assert(spec_scan(rest) == Scan::Commands(Seq::empty(), 0));
    if let Ok(cmd) = spec_command(request_value(parts)) {
        assert(seq![cmd] + Seq::<Cmd>::empty() =~= seq![cmd]);
        assert(spec_scan(b) == prepend_scan(seq![cmd], b.len(), spec_scan(rest)));
        assert(spec_scan(b) == Scan::Commands(seq![cmd], b.len()));
        assert(seq![cmd].drop_first() =~= Seq::<Cmd>::empty());
        let one = spec_execute(db, cmd);
        assert(one.1 + Seq::<u8>::empty() =~= one.1);
        assert(spec_run(one.0, Seq::<Cmd>::empty()) == (one.0, Seq::<u8>::empty()));
        assert(spec_run(db, seq![cmd]) == one);
    } else {
        assert(spec_scan(b) == Scan::Refused(spec_command(request_value(parts))->Err_0));
    }
}

/// A request whose first part upper-cases to GET asks for GET of its second part.
proof fn lemma_get_command(name: Seq<char>, key: Seq<char>)
    requires
        unicode_uppercase(name) == "GET"@,
    ensures
        spec_command(request_value(seq![name, key])) == Ok::<Cmd, Seq<char>>(Cmd::Get(key)),
{
    let items = request_value(seq![name, key])->Array_0;
    assert(items.len() == 2);
    assert(items[0] == Resp::Bulk(name));
    assert(items[1] == Resp::Bulk(key));
    reveal_strlit("GET");
    reveal_strlit("PING");
    reveal_strlit("ECHO");
    assert("GET"@.len() != "PING"@.len());
    assert("GET"@.len() != "ECHO"@.len());
}

/// A request whose first part upper-cases to SET asks to store its third part under
/// its second.
proof fn lemma_set_command(name: Seq<char>, key: Seq<char>, value: Seq<char>)
    requires
        unicode_uppercase(name) == "SET"@,
    ensures
        spec_command(request_value(seq![name, key, value])) == Ok::<Cmd, Seq<char>>(
            Cmd::Put(key, value),
        ),
{
    let items = request_value(seq![name, key, value])->Array_0;
    assert(items.len() == 3);
    assert(items[0] == Resp::Bulk(name));
    assert(items[1] == Resp::Bulk(key));
    assert(items[2] == Resp::Bulk(value));
    reveal_strlit("SET");
    reveal_strlit("PING");
    assert("SET"@.len() != "PING"@.len());
}

/// A request whose first part upper-cases to DEL asks to remove its second part.
proof fn lemma_del_command(name: Seq<char>, key: Seq<char>)
    requires
        unicode_uppercase(name) == "DEL"@,
    ensures
        spec_command(request_value(seq![name, key])) == Ok::<Cmd, Seq<char>>(Cmd::Del(key)),
{
    let items = request_value(seq![name, key])->Array_0;
    assert(items.len() == 2);
    assert(items[0] == Resp::Bulk(name));
    assert(items[1] == Resp::Bulk(key));
    reveal_strlit("DEL");
    reveal_strlit("GET");
    reveal_strlit("PING");
    reveal_strlit("ECHO");
    assert("DEL"@.len() != "PING"@.len());
    assert("DEL"@.len() != "ECHO"@.len());
    assert("DEL"@[0] != "GET"@[0]);
}

/// The `i64` bound of `fits` for a request of two or three parts.
proof fn lemma_fits_small(parts: Seq<Seq<char>>)
    requires
        parts.len() <= 3,
        forall|i: int| 0 <= i < parts.len() ==> encode_utf8(#[trigger] parts[i]).len() <= i64::MAX,
    ensures
        fits(parts),
{
}

/// A value stored by SET is what a later GET of the same key replies with: a SET
/// request stores the value and replies `+OK`; a GET request for that key then
/// replies with the value as a bulk string. Names match once upper-cased, so any
/// name whose upper case is SET or GET counts.
pub proof fn law_get_returns_set(
    db: Map<Seq<char>, Seq<char>>,
    set_name: Seq<char>,
    get_name: Seq<char>,
    key: Seq<char>,
    value: Seq<char>,
)
    requires
        unicode_uppercase(set_name) == "SET"@,
        unicode_uppercase(get_name) == "GET"@,
        encode_utf8(set_name).len() <= i64::MAX,
        encode_utf8(get_name).len() <= i64::MAX,
        encode_utf8(key).len() <= i64::MAX,
        encode_utf8(value).len() <= i64::MAX,
    ensures
        spec_handle(db, request(seq![set_name, key, value])) == (
            db.insert(key, value),
            Seq::<u8>::empty(),
            Outcome::Response(ok_reply()),
        ),
        spec_handle(db.insert(key, value), request(seq![get_name, key])) == (
            db.insert(key, value),
            Seq::<u8>::empty(),
            Outcome::Response(bulk_string(value)),
        ),
{
    let set = seq![set_name, key, value];
    let get = seq![get_name, key];
    lemma_fits_small(set);
    lemma_fits_small(get);
    law_handle_request(db, set);
    law_handle_request(db.insert(key, value), get);
    lemma_set_command(set_name, key, value);
    lemma_get_command(get_name, key);
}

/// DEL removes a key and replies `:1`; a GET of that key then replies null, and a
/// second DEL replies `:0`.
pub proof fn law_del_removes(
    db: Map<Seq<char>, Seq<char>>,
    del_name: Seq<char>,
    get_name: Seq<char>,
    key: Seq<char>,
)
    requires
        unicode_uppercase(del_name) == "DEL"@,
        unicode_uppercase(get_name) == "GET"@,
        encode_utf8(del_name).len() <= i64::MAX,
        encode_utf8(get_name).len() <= i64::MAX,
        encode_utf8(key).len() <= i64::MAX,
        db.contains_key(key),
    ensures
        spec_handle(db, request(seq![del_name, key])) == (
            db.remove(key),
            Seq::<u8>::empty(),
            Outcome::Response(one_reply()),
        ),
        spec_handle(db.remove(key), request(seq![get_name, key])) == (
            db.remove(key),
            Seq::<u8>::empty(),
            Outcome::Response(null_reply()),
        ),
        spec_handle(db.remove(key), request(seq![del_name, key])) == (
            db.remove(key),
            Seq::<u8>::empty(),
            Outcome::Response(crate::executor::zero_reply()),
        ),
{
    let del = seq![del_name, key];
    let get = seq![get_name, key];
    lemma_fits_small(del);
    lemma_fits_small(get);
    law_handle_request(db, del);
    law_handle_request(db.remove(key), get);
    law_handle_request(db.remove(key), del);
    lemma_del_command(del_name, key);
    lemma_get_command(get_name, key);
}

/// The commands read from a buffer take no more bytes than it has, and take some
/// bytes exactly when there is at least one command.
pub proof fn lemma_scan_bounds(b: Seq<u8>)
    ensures
        spec_scan(b) matches Scan::Commands(cmds, used) ==> used <= b.len() && (cmds.len() == 0
            <==> used == 0),
    decreases b.len(),
{
    if b.len() > 0 {
        lemma_parse_length(b);
        if let Ok((v, c)) = spec_parse(b) {
            lemma_scan_bounds(b.subrange(c as int, b.len() as int));
        }
    }
}

/// A handler that answers `Incomplete` has changed neither the store nor the buffer.
pub proof fn law_incomplete_changes_nothing(db: Map<Seq<char>, Seq<char>>, b: Seq<u8>)
    requires
        spec_handle(db, b).2 == Outcome::Incomplete,
    ensures
        spec_handle(db, b).0 == db,
        spec_handle(db, b).1 == b,
{
    lemma_scan_bounds(b);
    assert(b.subrange(0, b.len() as int) =~= b);
}

/// While only part of a value has arrived, handling the buffer runs nothing and
/// keeps every byte, answering `Incomplete`.
pub proof fn law_partial_value_waits(db: Map<Seq<char>, Seq<char>>, b: Seq<u8>, k: int)
    requires
        spec_parse(b) is Ok,
        0 <= k < spec_parse(b)->Ok_0.1,
    ensures
        spec_handle(db, b.take(k)) == (db, b.take(k), Outcome::Incomplete),
{
    let p = b.take(k);
    lemma_parse_length(b);
    if k > 0 {
        law_parse_prefix(b, k);
    }
    assert(p.subrange(0, p.len() as int) =~= p);
}

/// Reading commands from `b1 + b2`, where `b1` is made of whole commands, reads
/// the commands of `b1` and then goes on with `b2`.
pub proof fn law_scan_concat(b1: Seq<u8>, b2: Seq<u8>)
    requires
        spec_scan(b1) matches Scan::Commands(_, used) && used == b1.len(),
    ensures
        spec_scan(b1 + b2) == prepend_scan(spec_scan(b1)->Commands_0, b1.len(), spec_scan(b2)),
    decreases b1.len(),
{
    let cmds1 = spec_scan(b1)->Commands_0;
    if b1.len() == 0 {
        assert(b1 + b2 =~= b2);
        if let Scan::Commands(cs, n) = spec_scan(b2) {
            assert(cmds1 + cs =~= cs);
        }
    } else {
        lemma_parse_length(b1);
        let (v, c) = spec_parse(b1)->Ok_0;
        let cmd = spec_command(v)->Ok_0;
        let tail = b1.subrange(c as int, b1.len() as int);
        law_parse_extension(b1, b2);
        assert((b1 + b2).subrange(c as int, (b1 + b2).len() as int) =~= tail + b2);
        lemma_scan_bounds(tail);
        law_scan_concat(tail, b2);
        let cs1 = spec_scan(tail)->Commands_0;
        assert(cmds1 == seq![cmd] + cs1);
        if let Scan::Commands(cs, n) = spec_scan(b2) {
            assert(seq![cmd] + (cs1 + cs) =~= (seq![cmd] + cs1) + cs);
        }
    }
}

/// Running `c1 + c2` runs `c1`, then `c2` on the store that `c1` left, and replies
/// with both replies one after the other.
pub proof fn lemma_run_concat(db: Map<Seq<char>, Seq<char>>, c1: Seq<Cmd>, c2: Seq<Cmd>)
    ensures
        spec_run(db, c1 + c2) == (
            spec_run(spec_run(db, c1).0, c2).0,
            spec_run(db, c1).1 + spec_run(spec_run(db, c1).0, c2).1,
        ),
    decreases c1.len(),
{
    if c1.len() == 0 {
        assert(c1 + c2 =~= c2);
        assert(Seq::<u8>::empty() + spec_run(db, c2).1 =~= spec_run(db, c2).1);
    } else {
        let (db1, first) = spec_execute(db, c1[0]);
        assert((c1 + c2).drop_first() =~= c1.drop_first() + c2);
        assert((c1 + c2)[0] == c1[0]);
        lemma_run_concat(db1, c1.drop_first(), c2);
        let r1 = spec_run(db1, c1.drop_first()).1;
        let r2 = spec_run(spec_run(db1, c1.drop_first()).0, c2).1;
        assert(first + (r1 + r2) =~= (first + r1) + r2);
    }
}

/// Pipelining: handling whole commands `b1` followed by `b2` in one buffer does
/// what handling `b1` and then `b2` does, with the replies together; except that
/// when `b2` is refused, the whole buffer is, and none of its commands run.
pub proof fn law_pipelining(db: Map<Seq<char>, Seq<char>>, b1: Seq<u8>, b2: Seq<u8>)
    requires
        spec_scan(b1) matches Scan::Commands(cmds, used) && used == b1.len() && cmds.len() > 0,
    ensures
        ({
            let (d1, r1, o1) = spec_handle(db, b1);
            let (d2, r2, o2) = spec_handle(d1, b2);
            &&& r1 == Seq::<u8>::empty()
            &&& spec_handle(db, b1 + b2) == match o2 {
                Outcome::Incomplete => (d1, r2, o1),
                Outcome::Response(out2) => (d2, r2, Outcome::Response(o1->Response_0 + out2)),
                Outcome::Error(m) => (db, Seq::<u8>::empty(), Outcome::Error(m)),
            }
        }),
{
    let c1 = spec_scan(b1)->Commands_0;
    law_scan_concat(b1, b2);
    lemma_scan_bounds(b2);
    assert(b1.subrange(b1.len() as int, b1.len() as int) =~= Seq::<u8>::empty());
    let d1 = spec_run(db, c1).0;
    if let Scan::Commands(c2, u2) = spec_scan(b2) {
        let big = b1 + b2;
        assert(big.subrange((b1.len() + u2) as int, big.len() as int) =~= b2.subrange(
            u2 as int,
            b2.len() as int,
        ));
        lemma_run_concat(db, c1, c2);
        if c2.len() == 0 {
            assert(c1 + c2 =~= c1);
            assert(spec_run(db, c1).1 + Seq::<u8>::empty() =~= spec_run(db, c1).1);
        }
    }
}

/// The front `b.take(k)` of a buffer `b` of whole commands reads as the first `j`
/// of those commands, taking `used` bytes, and what is left from there on reads as
/// the other commands, to the end.
#[verifier::rlimit(50)]
pub proof fn lemma_scan_prefix(b: Seq<u8>, k: int) -> (split: (int, nat))
    requires
        spec_scan(b) matches Scan::Commands(_, used) && used == b.len(),
        0 <= k <= b.len(),
    ensures
        0 <= split.0 <= spec_scan(b)->Commands_0.len(),
        split.1 <= k,
        spec_scan(b.take(k)) == Scan::Commands(spec_scan(b)->Commands_0.take(split.0), split.1),
        spec_scan(b.subrange(split.1 as int, b.len() as int)) == Scan::Commands(
            spec_scan(b)->Commands_0.skip(split.0),
            (b.len() - split.1) as nat,
        ),
    decreases b.len(),
{
    let cmds = spec_scan(b)->Commands_0;
    let p = b.take(k);
    assert(b.subrange(0, b.len() as int) =~= b);
    assert(cmds.take(0) =~= Seq::<Cmd>::empty());
    assert(cmds.skip(0) =~= cmds);
    if b.len() == 0 {
        assert(p =~= b);
        (0, 0)
    } else {
        lemma_parse_length(b);
        let (v, c) = spec_parse(b)->Ok_0;
        let cmd = spec_command(v)->Ok_0;
        let tail = b.subrange(c as int, b.len() as int);
        lemma_scan_bounds(tail);
        let rest_cmds = spec_scan(tail)->Commands_0;
        assert(cmds == seq![cmd] + rest_cmds);
        if k < c {
            if k > 0 {
                law_parse_prefix(b, k);
            }
            (0, 0)
        } else {
            law_parse_prefix(b, k);
            assert(p.subrange(c as int, k) =~= tail.take(k - c));
            let (j, u) = lemma_scan_prefix(tail, k - c);
            assert(seq![cmd] + rest_cmds.take(j) =~= cmds.take(j + 1));
            assert(rest_cmds.skip(j) =~= cmds.skip(j + 1));
            assert(b.subrange((c + u) as int, b.len() as int) =~= tail.subrange(
                u as int,
                tail.len() as int,
            ));
            (j + 1, c + u)
        }
    }
}

/// The replies an answer carries: those of a `Response`, and none otherwise.
pub open spec fn replies(answer: Outcome) -> Seq<u8> {
    match answer {
        Outcome::Response(bytes) => bytes,
        _ => Seq::empty(),
    }
}

/// Splitting the stream anywhere changes nothing: when a buffer `s` of whole
/// commands arrives as `s.take(k)` and then the rest, at any byte `k`, handling the
/// first piece, then what it kept followed by the rest, refuses nothing, ends with
/// an empty buffer and leaves the store and the replies, taken together, exactly as
/// handling `s` at once does.
pub proof fn law_split_anywhere(db: Map<Seq<char>, Seq<char>>, s: Seq<u8>, k: int)
    requires
        spec_scan(s) matches Scan::Commands(_, used) && used == s.len(),
        0 <= k <= s.len(),
    ensures
        ({
            let (d1, r1, o1) = spec_handle(db, s.take(k));
            let (d2, r2, o2) = spec_handle(d1, r1 + s.skip(k));
            let (d, r, o) = spec_handle(db, s);
            &&& o1 !is Error
            &&& o2 !is Error
            &&& r2 == Seq::<u8>::empty()
            &&& r == Seq::<u8>::empty()
            &&& d2 == d
            &&& replies(o1) + replies(o2) == replies(o)
        }),
{
    let cmds = spec_scan(s)->Commands_0;
    let (j, u) = lemma_scan_prefix(s, k);
    let first = cmds.take(j);
    let second = cmds.skip(j);
    let p = s.take(k);
    let r1 = p.subrange(u as int, k);
    let later = s.subrange(u as int, s.len() as int);
    assert(r1 + s.skip(k) =~= later);
    assert(later.subrange(later.len() as int, later.len() as int) =~= Seq::<u8>::empty());
    assert(s.subrange(s.len() as int, s.len() as int) =~= Seq::<u8>::empty());
    assert(first + second =~= cmds);
    lemma_run_concat(db, first, second);
    let d1 = spec_run(db, first).0;
    if j == 0 {
        assert(first =~= Seq::<Cmd>::empty());
        assert(spec_run(db, first) == (db, Seq::<u8>::empty()));
    }
    if second.len() == 0 {
        assert(spec_run(d1, second) == (d1, Seq::<u8>::empty()));
    }
    if cmds.len() == 0 {
        assert(spec_run(db, cmds) == (db, Seq::<u8>::empty()));
    }
    let out1 = spec_run(db, first).1;
    let out2 = spec_run(d1, second).1;
    assert(out1 + Seq::<u8>::empty() =~= out1);
    assert(Seq::<u8>::empty() + out2 =~= out2);
    assert(Seq::<u8>::empty() + Seq::<u8>::empty() =~= Seq::<u8>::empty());
}

/// A request whose first part upper-cases to PING asks for PING, whatever follows.
proof fn lemma_ping_command(parts: Seq<Seq<char>>)
    requires
        parts.len() >= 1,
        unicode_uppercase(parts[0]) == "PING"@,
    ensures
        spec_command(request_value(parts)) == Ok::<Cmd, Seq<char>>(Cmd::Ping),
{
    let items = request_value(parts)->Array_0;
    assert(items.len() == parts.len());
    assert(items[0] == Resp::Bulk(parts[0]));
}

/// A request whose first part upper-cases to ECHO asks to echo its second part.
proof fn lemma_echo_command(name: Seq<char>, message: Seq<char>)
    requires
        unicode_uppercase(name) == "ECHO"@,
    ensures
        spec_command(request_value(seq![name, message])) == Ok::<Cmd, Seq<char>>(
            Cmd::Echo(message),
        ),
{
    let items = request_value(seq![name, message])->Array_0;
    assert(items.len() == 2);
    assert(items[0] == Resp::Bulk(name));
    assert(items[1] == Resp::Bulk(message));
    reveal_strlit("ECHO");
    reveal_strlit("PING");
    assert("ECHO"@[1] != "PING"@[1]);
}

/// PING leaves the store as it was, whatever arguments it has, and its reply reads
/// back as the simple string PONG.
pub proof fn law_ping_request(db: Map<Seq<char>, Seq<char>>, parts: Seq<Seq<char>>)
    requires
        parts.len() >= 1,
        unicode_uppercase(parts[0]) == "PING"@,
        fits(parts),
    ensures
        spec_handle(db, request(parts)).0 == db,
        spec_handle(db, request(parts)).1 == Seq::<u8>::empty(),
        spec_handle(db, request(parts)).2 matches Outcome::Response(reply) && spec_parse(reply)
            == Ok::<(Resp, nat), Failure>((Resp::Simple("PONG"@), reply.len())),
{
    lemma_ping_command(parts);
    law_handle_request(db, parts);
    law_reply_reads_back(db, Cmd::Ping);
}

/// ECHO leaves the store as it was and replies with its message: the reply reads
/// back as exactly the bulk string of the text the request carried.
pub proof fn law_echo_request(db: Map<Seq<char>, Seq<char>>, name: Seq<char>, message: Seq<char>)
    requires
        unicode_uppercase(name) == "ECHO"@,
        encode_utf8(name).len() <= i64::MAX,
        encode_utf8(message).len() <= i64::MAX,
    ensures
        spec_handle(db, request(seq![name, message])).0 == db,
        spec_handle(db, request(seq![name, message])).1 == Seq::<u8>::empty(),
        spec_handle(db, request(seq![name, message])).2 matches Outcome::Response(reply)
            && spec_parse(reply) == Ok::<(Resp, nat), Failure>((Resp::Bulk(message), reply.len())),
{
    let parts = seq![name, message];
    lemma_fits_small(parts);
    lemma_echo_command(name, message);
    law_handle_request(db, parts);
    law_reply_reads_back(db, Cmd::Echo(message));
}

/// SET stores its value under its key, leaving every other key as it was, and its
/// reply reads back as the simple string OK.
pub proof fn law_set_request(
    db: Map<Seq<char>, Seq<char>>,
    name: Seq<char>,
    key: Seq<char>,
    value: Seq<char>,
)
    requires
        unicode_uppercase(name) == "SET"@,
        encode_utf8(name).len() <= i64::MAX,
        encode_utf8(key).len() <= i64::MAX,
        encode_utf8(value).len() <= i64::MAX,
    ensures
        spec_handle(db, request(seq![name, key, value])).0 == db.insert(key, value),
        spec_handle(db, request(seq![name, key, value])).1 == Seq::<u8>::empty(),
        spec_handle(db, request(seq![name, key, value])).2 matches Outcome::Response(reply)
            && spec_parse(reply) == Ok::<(Resp, nat), Failure>((Resp::Simple("OK"@), reply.len())),
{
    let parts = seq![name, key, value];
    lemma_fits_small(parts);
    lemma_set_command(name, key, value);
    law_handle_request(db, parts);
    law_reply_reads_back(db, Cmd::Put(key, value));
}

/// GET leaves the store as it was; its reply reads back as the bulk string of the
/// value stored under its key, or as null when there is none.
pub proof fn law_get_request(db: Map<Seq<char>, Seq<char>>, name: Seq<char>, key: Seq<char>)
    requires
        unicode_uppercase(name) == "GET"@,
        encode_utf8(name).len() <= i64::MAX,
        encode_utf8(key).len() <= i64::MAX,
        db.contains_key(key) ==> encode_utf8(db[key]).len() <= i64::MAX,
    ensures
        spec_handle(db, request(seq![name, key])).0 == db,
        spec_handle(db, request(seq![name, key])).1 == Seq::<u8>::empty(),
        spec_handle(db, request(seq![name, key])).2 matches Outcome::Response(reply)
            && spec_parse(reply) == Ok::<(Resp, nat), Failure>(
            (
                if db.contains_key(key) {
                    Resp::Bulk(db[key])
                } else {
                    Resp::Null
                },
                reply.len(),
            ),
        ),
{
    let parts = seq![name, key];
    lemma_fits_small(parts);
    lemma_get_command(name, key);
    law_handle_request(db, parts);
    law_reply_reads_back(db, Cmd::Get(key));
}

/// DEL removes its key, leaving every other key as it was, and its reply reads
/// back as the number of keys it removed: 1 when the key was there, 0 when not.
pub proof fn law_del_request(db: Map<Seq<char>, Seq<char>>, name: Seq<char>, key: Seq<char>)
    requires
        unicode_uppercase(name) == "DEL"@,
        encode_utf8(name).len() <= i64::MAX,
        encode_utf8(key).len() <= i64::MAX,
    ensures
        spec_handle(db, request(seq![name, key])).0 == db.remove(key),
        spec_handle(db, request(seq![name, key])).1 == Seq::<u8>::empty(),
        spec_handle(db, request(seq![name, key])).2 matches Outcome::Response(reply)
            && spec_parse(reply) == Ok::<(Resp, nat), Failure>(
            (Resp::Integer(if db.contains_key(key) { 1 } else { 0 }), reply.len()),
        ),
{
    let parts = seq![name, key];
    lemma_fits_small(parts);
    lemma_del_command(name, key);
    law_handle_request(db, parts);
    law_reply_reads_back(db, Cmd::Del(key));
    if !db.contains_key(key) {
        assert(db.remove(key) =~= db);
    }
}

/// A refused buffer is dropped whole and nothing in it runs: the store stays as
/// it was and the buffer is left empty. A buffer that gets replies keeps only its
/// unread end: the bytes left are the last bytes of what was handled.
pub proof fn law_refusal_and_tail(db: Map<Seq<char>, Seq<char>>, b: Seq<u8>)
    ensures
        spec_handle(db, b).2 is Error ==> spec_handle(db, b).0 == db && spec_handle(db, b).1
            == Seq::<u8>::empty(),
        spec_handle(db, b).1.len() <= b.len(),
        spec_handle(db, b).1 == b.subrange(b.len() - spec_handle(db, b).1.len(), b.len() as int),
{
    lemma_scan_bounds(b);
    assert(b.subrange(b.len() as int, b.len() as int) =~= Seq::<u8>::empty());
}

} // verus!
