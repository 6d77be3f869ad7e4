//! Laws of reading RESP values from a byte stream that arrives in pieces: a value
//! is recognised exactly when all of its bytes are there, and bytes that arrive
//! after a decided outcome do not change it.
use crate::parser::{
    after_header, crlf_at, first_crlf, has_crlf, header, is_first_crlf, lemma_first_crlf_unique,
    lemma_parse_length, spec_parse, spec_parse_array, spec_parse_items, Failure, Resp,
};
use crate::executor::{
    bulk_string, null_reply, ok_reply, one_reply, pong_reply, spec_execute, zero_reply, Cmd,
};
use crate::number::{
    all_digits, decimal, digits_value, integer_text, lemma_decimal_reads_back, spec_parse_i64,
    unsigned_part,
};
use vstd::prelude::*;
use vstd::utf8::{
    encode_utf8, encode_utf8_decode_utf8, encode_utf8_valid_utf8,
    is_ascii_chars, is_ascii_chars_encode_utf8, is_leading_byte_width_1,
    partial_valid_utf8_extend_ascii_block, valid_utf8,
};

verus! {

/// Where `b` is the front of `big`, both find the same first `\r\n` when `b` holds
/// it whole, and `b` finds none when it stops before the end of `big`'s first one.
pub proof fn lemma_crlf_of_prefix(b: Seq<u8>, big: Seq<u8>)
    requires
        b.len() <= big.len(),
        b == big.take(b.len() as int),
    ensures
        has_crlf(b) ==> has_crlf(big) && first_crlf(big) == first_crlf(b),
        has_crlf(big) && first_crlf(big) + 2 <= b.len() ==> has_crlf(b) && first_crlf(b)
            == first_crlf(big),
        has_crlf(big) && b.len() < first_crlf(big) + 2 ==> !has_crlf(b),
{
    assert forall|j: int| crlf_at(b, j) implies crlf_at(big, j) by {
        assert(b[j] == big[j]);
        assert(b[j + 1] == big[j + 1]);
    }
    assert forall|j: int| j + 1 < b.len() && crlf_at(big, j) implies crlf_at(b, j) by {
        assert(b[j] == big[j]);
        assert(b[j + 1] == big[j + 1]);
    }
    if has_crlf(b) {
        let p = first_crlf(b);
        assert(is_first_crlf(b, p));
        assert(is_first_crlf(big, p));
        lemma_first_crlf_unique(big, p);
    }
    if has_crlf(big) {
        let p = first_crlf(big);
        assert(is_first_crlf(big, p));
        if p + 2 <= b.len() {
            assert(is_first_crlf(b, p));
            lemma_first_crlf_unique(b, p);
        } else if has_crlf(b) {
            let q = first_crlf(b);
            assert(is_first_crlf(b, q));
            assert(crlf_at(big, q));
        }
    }
}

/// The first line of a prefix that holds it whole is the first line of the whole.
proof fn lemma_header_of_prefix(b: Seq<u8>, big: Seq<u8>)
    requires
        b.len() <= big.len(),
        b == big.take(b.len() as int),
        has_crlf(b),
        b.len() > 0,
        b[0] != 13u8,
    ensures
        has_crlf(big),
        first_crlf(big) == first_crlf(b),
        header(big) == header(b),
        after_header(big) == after_header(b),
{
    lemma_crlf_of_prefix(b, big);
    assert(is_first_crlf(b, first_crlf(b)));
    assert(!crlf_at(b, 0));
    assert(header(big) =~= header(b));
}

/// Reading a value from the first `k` bytes of `b`: the same value once all of its
/// bytes are there, and `Incomplete` before that.
pub proof fn law_parse_prefix(b: Seq<u8>, k: int)
    requires
        spec_parse(b) is Ok,
        0 <= k <= b.len(),
    ensures
        spec_parse(b.take(k)) == (if k >= spec_parse(b)->Ok_0.1 {
            spec_parse(b)
        } else {
            Err(Failure::Incomplete)
        }),
    decreases b.len(), 2nat, 0nat,
{
    let p = b.take(k);
    lemma_parse_length(b);
    if k == 0 {
        return;
    }
    assert(p[0] == b[0]);
    let pos = first_crlf(b);
    assert(is_first_crlf(b, pos));
    lemma_crlf_of_prefix(p, b);
    if k >= pos + 2 {
        lemma_header_of_prefix(p, b);
        if b[0] == 36u8 {
            let start = after_header(b);
            assert(p.subrange(start as int, k) =~= b.subrange(start as int, k));
            if let Some(len) = crate::number::spec_parse_i64(header(b)) {
                if len >= 0 && k >= start + len + 2 {
                    assert(p.subrange(start as int, start + len) =~= b.subrange(
                        start as int,
                        start + len,
                    ));
                    assert(p[start + len] == b[start + len]);
                    assert(p[start + len + 1] == b[start + len + 1]);
                }
            }
        } else if b[0] == 42u8 {
            law_array_prefix(b, k);
        }
    }
}

/// Reading an array from the first `k` bytes of `b`, as `law_parse_prefix` says.
proof fn law_array_prefix(b: Seq<u8>, k: int)
    requires
        b.len() > 0,
        b[0] == 42u8,
        spec_parse_array(b) is Ok,
        has_crlf(b),
        first_crlf(b) + 2 <= k <= b.len(),
    ensures
        spec_parse_array(b.take(k)) == (if k >= spec_parse_array(b)->Ok_0.1 {
            spec_parse_array(b)
        } else {
            Err(Failure::Incomplete)
        }),
    decreases b.len(), 1nat, 0nat,
{
    let p = b.take(k);
    assert(is_first_crlf(b, first_crlf(b)));
    lemma_crlf_of_prefix(p, b);
    assert(p[0] == b[0]);
    lemma_header_of_prefix(p, b);
    let start = after_header(b);
    let body = b.subrange(start as int, b.len() as int);
    assert(p.subrange(start as int, p.len() as int) =~= body.take(k - start));
    if let Some(count) = crate::number::spec_parse_i64(header(b)) {
        if count >= 0 {
            law_items_prefix(body, count as nat, k - start);
        }
    }
}

/// Reading `n` values from the first `k` bytes of `s`: the same values once all of
/// their bytes are there, and `Incomplete` before that.
pub proof fn law_items_prefix(s: Seq<u8>, n: nat, k: int)
    requires
        spec_parse_items(s, n) is Ok,
        0 <= k <= s.len(),
    ensures
        spec_parse_items(s.take(k), n) == (if k >= spec_parse_items(s, n)->Ok_0.1 {
            spec_parse_items(s, n)
        } else {
            Err(Failure::Incomplete)
        }),
    decreases s.len(), 3nat, n,
{
    if n > 0 {
        let p = s.take(k);
        lemma_parse_length(s);
        law_parse_prefix(s, k);
        let (v, c) = spec_parse(s)->Ok_0;
        let rest = s.subrange(c as int, s.len() as int);
        if k >= c {
            assert(p.subrange(c as int, p.len() as int) =~= rest.take(k - c));
            law_items_prefix(rest, (n - 1) as nat, k - c);
        }
    }
}

/// Once the bytes at the front of a buffer decide the outcome, a value or a
/// refusal, bytes that arrive after them change nothing.
pub proof fn law_parse_extension(b: Seq<u8>, e: Seq<u8>)
    requires
        spec_parse(b) != Err::<(Resp, nat), Failure>(Failure::Incomplete),
    ensures
        spec_parse(b + e) == spec_parse(b),
    decreases b.len(), 2nat, 0nat,
{
    let big = b + e;
    assert(big.take(b.len() as int) =~= b);
    assert(big[0] == b[0]);
    if b[0] == 43u8 || b[0] == 58u8 || b[0] == 36u8 || b[0] == 42u8 {
        lemma_header_of_prefix(b, big);
        let pos = first_crlf(b);
        assert(is_first_crlf(b, pos));
        if b[0] == 36u8 {
            let start = after_header(b);
            if let Some(len) = crate::number::spec_parse_i64(header(b)) {
                if len >= 0 && b.len() >= start + len + 2 {
                    assert(big.subrange(start as int, start + len) =~= b.subrange(
                        start as int,
                        start + len,
                    ));
                    assert(big[start + len] == b[start + len]);
                    assert(big[start + len + 1] == b[start + len + 1]);
                }
            }
        } else if b[0] == 42u8 {
            law_array_extension(b, e);
        }
    }
}

/// Arrays, as `law_parse_extension` says.
proof fn law_array_extension(b: Seq<u8>, e: Seq<u8>)
    requires
        b.len() > 0,
        b[0] == 42u8,
        has_crlf(b),
        spec_parse_array(b) != Err::<(Resp, nat), Failure>(Failure::Incomplete),
    ensures
        spec_parse_array(b + e) == spec_parse_array(b),
    decreases b.len(), 1nat, 0nat,
{
    let big = b + e;
    assert(big.take(b.len() as int) =~= b);
    assert(big[0] == b[0]);
    lemma_header_of_prefix(b, big);
    assert(is_first_crlf(b, first_crlf(b)));
    let start = after_header(b);
    let body = b.subrange(start as int, b.len() as int);
    assert(big.subrange(start as int, big.len() as int) =~= body + e);
    if let Some(count) = crate::number::spec_parse_i64(header(b)) {
        if count >= 0 && vstd::utf8::valid_utf8(header(b)) {
            law_items_extension(body, count as nat, e);
        }
    }
}

/// Once the front of `s` decides the outcome of reading `n` values, bytes that
/// arrive after them change nothing.
pub proof fn law_items_extension(s: Seq<u8>, n: nat, e: Seq<u8>)
    requires
        spec_parse_items(s, n) != Err::<(Seq<Resp>, nat), Failure>(Failure::Incomplete),
    ensures
        spec_parse_items(s + e, n) == spec_parse_items(s, n),
    decreases s.len(), 3nat, n,
{
    if n > 0 {
        law_parse_extension(s, e);
        lemma_parse_length(s);
        if let Ok((v, c)) = spec_parse(s) {
            let rest = s.subrange(c as int, s.len() as int);
            assert((s + e).subrange(c as int, (s + e).len() as int) =~= rest + e);
            law_items_extension(rest, (n - 1) as nat, e);
        }
    }
}

/// Bytes below 128 are well-formed UTF-8.
pub proof fn lemma_ascii_valid_utf8(bytes: Seq<u8>)
    requires
        forall|i: int| 0 <= i < bytes.len() ==> #[trigger] bytes[i] < 128,
    ensures
        valid_utf8(bytes),
{
    assert(bytes.subrange(0, 0) =~= Seq::<u8>::empty());
    assert forall|i: int| 0 <= 0 <= i < bytes.len() <= bytes.len() implies #[trigger] is_leading_byte_width_1(bytes[i]) by {}
    partial_valid_utf8_extend_ascii_block(bytes, 0, bytes.len() as int);
    assert(bytes.subrange(0, bytes.len() as int) =~= bytes);
}

/// The decimal text of a number that fits in an `i64` reads back as that number.
pub proof fn lemma_decimal_parses(n: nat)
    requires
        n <= i64::MAX,
    ensures
        spec_parse_i64(decimal(n)) == Some(n as int),
        valid_utf8(decimal(n)),
        forall|i: int| 0 <= i < decimal(n).len() ==> #[trigger] decimal(n)[i] != 13u8,
{
    lemma_decimal_reads_back(n);
    let d = decimal(n);
    assert(d[0] != 45u8 && d[0] != 43u8);
    assert(unsigned_part(d) == d);
    assert forall|i: int| 0 <= i < d.len() implies #[trigger] d[i] < 128 by {
        assert(crate::number::is_digit(d[i]));
    }
    lemma_ascii_valid_utf8(d);
    assert forall|i: int| 0 <= i < d.len() implies #[trigger] d[i] != 13u8 by {
        assert(crate::number::is_digit(d[i]));
    }
}

/// The bulk string carrying `s` reads back as exactly that text, taking just its
/// own bytes, whatever follows. The text is taken by its byte length, so it may
/// hold any bytes, `\r\n` among them.
pub proof fn law_bulk_string_reads_back(s: Seq<char>, rest: Seq<u8>)
    requires
        encode_utf8(s).len() <= i64::MAX,
    ensures
        spec_parse(bulk_string(s) + rest) == Ok::<(Resp, nat), Failure>(
            (Resp::Bulk(s), bulk_string(s).len()),
        ),
{
    let u = encode_utf8(s);
    let n = u.len();
    let d = decimal(n);
    let b = bulk_string(s);
    lemma_decimal_parses(n);
    lemma_decimal_reads_back(n);
    let pos = (d.len() + 1) as int;
    assert(b[0] == 36u8);
    assert forall|j: int| 0 <= j < pos implies !crlf_at(b, j) by {
        if j > 0 {
            assert(b[j] == d[j - 1]);
        }
    }
    assert(crlf_at(b, pos));
    assert(is_first_crlf(b, pos));
    lemma_first_crlf_unique(b, pos);
    assert(header(b) =~= d);
    let start: int = pos + 2;
    let end: int = start + n;
    assert(b.len() == end + 2);
    assert(b.subrange(start, end) =~= u);
    assert(crlf_at(b, end));
    encode_utf8_valid_utf8(s);
    encode_utf8_decode_utf8(s);
    law_parse_extension(b, rest);
}

/// The simple string `+text\r\n` reads back as `text`, taking just its own bytes,
/// whatever follows; `text` is any text whose UTF-8 holds no `\r\n`.
pub proof fn law_simple_string_reads_back(text: Seq<char>, rest: Seq<u8>)
    requires
        forall|j: int| !crlf_at(encode_utf8(text), j),
    ensures
        spec_parse(seq![43u8] + encode_utf8(text) + seq![13u8, 10u8] + rest) == Ok::<
            (Resp, nat),
            Failure,
        >((Resp::Simple(text), encode_utf8(text).len() + 3)),
{
    let u = encode_utf8(text);
    let b = seq![43u8] + u + seq![13u8, 10u8];
    let pos = (u.len() + 1) as int;
    assert forall|j: int| 0 <= j < pos implies !crlf_at(b, j) by {
        if 0 < j && j + 1 < pos {
            assert(b[j] == u[j - 1]);
            assert(b[j + 1] == u[j]);
            assert(!crlf_at(u, j - 1));
        } else if j > 0 {
            assert(b[j + 1] == 13u8);
        }
    }
    assert(crlf_at(b, pos));
    lemma_first_crlf_unique(b, pos);
    assert(header(b) =~= u);
    encode_utf8_valid_utf8(text);
    encode_utf8_decode_utf8(text);
    law_parse_extension(b, rest);
}

/// The decimal text of every `i64`, `i64::MIN` included, reads back as that number.
pub proof fn lemma_integer_text_parses(n: int)
    requires
        i64::MIN <= n <= i64::MAX,
    ensures
        spec_parse_i64(integer_text(n)) == Some(n),
        valid_utf8(integer_text(n)),
        forall|i: int| 0 <= i < integer_text(n).len() ==> #[trigger] integer_text(n)[i] != 13u8,
{
    let t = integer_text(n);
    if n >= 0 {
        lemma_decimal_parses(n as nat);
    } else {
        let m = (-n) as nat;
        let d = decimal(m);
        lemma_decimal_reads_back(m);
        assert(t[0] == 45u8);
        assert(unsigned_part(t) =~= d);
        assert forall|i: int| 0 <= i < t.len() implies #[trigger] t[i] < 128 && t[i] != 13u8 by {
            if i > 0 {
                assert(t[i] == d[i - 1]);
                assert(crate::number::is_digit(d[i - 1]));
            }
        }
        lemma_ascii_valid_utf8(t);
    }
}

/// The integer `:text\r\n`, for the decimal text of any `i64`, reads back as that
/// integer, taking just its own bytes, whatever follows.
pub proof fn law_integer_reads_back(n: int, rest: Seq<u8>)
    requires
        i64::MIN <= n <= i64::MAX,
    ensures
        spec_parse(seq![58u8] + integer_text(n) + seq![13u8, 10u8] + rest) == Ok::<
            (Resp, nat),
            Failure,
        >((Resp::Integer(n), integer_text(n).len() + 3)),
{
    let t = integer_text(n);
    let b = seq![58u8] + t + seq![13u8, 10u8];
    lemma_integer_text_parses(n);
    let pos = (t.len() + 1) as int;
    assert forall|j: int| 0 <= j < pos implies !crlf_at(b, j) by {
        if j > 0 {
            assert(b[j] == t[j - 1]);
        }
    }
    assert(crlf_at(b, pos));
    lemma_first_crlf_unique(b, pos);
    assert(header(b) =~= t);
    law_parse_extension(b, rest);
}

/// A one-line reply `+text\r\n` of ASCII text without `\r` reads back as `text`.
proof fn lemma_ascii_reply_reads_back(text: Seq<char>, b: Seq<u8>)
    requires
        is_ascii_chars(text),
        forall|i: int| 0 <= i < text.len() ==> #[trigger] text[i] != '\r',
        b == seq![43u8] + encode_utf8(text) + seq![13u8, 10u8],
    ensures
        spec_parse(b) == Ok::<(Resp, nat), Failure>((Resp::Simple(text), b.len())),
{
    is_ascii_chars_encode_utf8(text);
    let u = encode_utf8(text);
    assert forall|j: int| !crlf_at(u, j) by {
        if 0 <= j < u.len() {
            assert(u[j] == text[j] as u8);
        }
    }
    law_simple_string_reads_back(text, Seq::empty());
    assert(b + Seq::<u8>::empty() =~= b);
}

/// What a reply stands for: the value a client reads from it.
pub open spec fn reply_value(db: Map<Seq<char>, Seq<char>>, cmd: Cmd) -> Resp {
    match cmd {
        Cmd::Ping => Resp::Simple("PONG"@),
        Cmd::Echo(m) => Resp::Bulk(m),
        Cmd::Put(_, _) => Resp::Simple("OK"@),
        Cmd::Get(k) => if db.contains_key(k) {
            Resp::Bulk(db[k])
        } else {
            Resp::Null
        },
        Cmd::Del(k) => Resp::Integer(if db.contains_key(k) { 1 } else { 0 }),
    }
}

/// Every reply is one well-formed RESP value, which a client reads back whole:
/// `+PONG`, the echoed text, `+OK`, the stored value or null for a missing key,
/// and for DEL the number of keys removed.
pub proof fn law_reply_reads_back(db: Map<Seq<char>, Seq<char>>, cmd: Cmd)
    requires
        cmd matches Cmd::Echo(m) ==> encode_utf8(m).len() <= i64::MAX,
        cmd matches Cmd::Get(k) ==> (db.contains_key(k) ==> encode_utf8(db[k]).len()
            <= i64::MAX),
    ensures
        spec_parse(spec_execute(db, cmd).1) == Ok::<(Resp, nat), Failure>(
            (reply_value(db, cmd), spec_execute(db, cmd).1.len()),
        ),
{
    match cmd {
        Cmd::Ping => {
            reveal_strlit("PONG");
            is_ascii_chars_encode_utf8("PONG"@);
            assert(pong_reply() =~= seq![43u8] + encode_utf8("PONG"@) + seq![13u8, 10u8]);
            lemma_ascii_reply_reads_back("PONG"@, pong_reply());
        },
        Cmd::Echo(m) => {
            law_bulk_string_reads_back(m, Seq::empty());
            assert(bulk_string(m) + Seq::<u8>::empty() =~= bulk_string(m));
        },
        Cmd::Put(_, _) => {
            reveal_strlit("OK");
            is_ascii_chars_encode_utf8("OK"@);
            assert(ok_reply() =~= seq![43u8] + encode_utf8("OK"@) + seq![13u8, 10u8]);
            lemma_ascii_reply_reads_back("OK"@, ok_reply());
        },
        Cmd::Get(k) => {
            if db.contains_key(k) {
                law_bulk_string_reads_back(db[k], Seq::empty());
                assert(bulk_string(db[k]) + Seq::<u8>::empty() =~= bulk_string(db[k]));
            } else {
                let b = null_reply();
                assert(crlf_at(b, 3));
                assert(!crlf_at(b, 0) && !crlf_at(b, 1) && !crlf_at(b, 2));
                lemma_first_crlf_unique(b, 3);
                let h = header(b);
                assert(h =~= seq![45u8, 49u8]);
                assert(unsigned_part(h) =~= seq![49u8]);
                assert(digits_value(seq![49u8]) == 1) by {
                    let one = seq![49u8];
                    assert(one.drop_last() =~= Seq::<u8>::empty());
                    assert(one.last() == 49u8);
                    assert(digits_value(one) == digits_value(one.drop_last()) * 10 + (one.last()
                        - 48) as nat);
                }
                assert(all_digits(seq![49u8]));
                assert(spec_parse_i64(h) == Some(-1int));
                lemma_ascii_valid_utf8(h);
            }
        },
        Cmd::Del(k) => {
            let n: int = if db.contains_key(k) { 1 } else { 0 };
            let b = seq![58u8] + integer_text(n) + seq![13u8, 10u8];
            law_integer_reads_back(n, Seq::empty());
            assert(b + Seq::<u8>::empty() =~= b);
            assert(decimal(n as nat) =~= seq![(48 + n) as u8]);
            assert(b =~= spec_execute(db, cmd).1);
        },
    }
}

/// Values inside an array are read one after another, each exactly as its bytes
/// read on their own: when `n > 0` values are read from `s`, the first is the value
/// that `s` reads as, and the others are read from the bytes after it.
pub proof fn law_items_read_one_after_another(s: Seq<u8>, n: nat)
    requires
        n > 0,
        spec_parse_items(s, n) is Ok,
    ensures
        spec_parse(s) is Ok,
        spec_parse(s)->Ok_0.1 <= s.len(),
        spec_parse_items(s, n)->Ok_0.0.len() == n,
        spec_parse_items(s, n)->Ok_0.0[0] == spec_parse(s)->Ok_0.0,
        spec_parse_items(
            s.subrange(spec_parse(s)->Ok_0.1 as int, s.len() as int),
            (n - 1) as nat,
        ) == Ok::<(Seq<Resp>, nat), Failure>(
            (
                spec_parse_items(s, n)->Ok_0.0.drop_first(),
                (spec_parse_items(s, n)->Ok_0.1 - spec_parse(s)->Ok_0.1) as nat,
            ),
        ),
{
    lemma_parse_length(s);
    crate::parser::lemma_items_length(s, n);
    let (v, c) = spec_parse(s)->Ok_0;
    let rest = s.subrange(c as int, s.len() as int);
    let (vs, d) = spec_parse_items(rest, (n - 1) as nat)->Ok_0;
    assert((seq![v] + vs).drop_first() =~= vs);
}

/// The values that the pieces `segs` each read as whole, one after the other.
proof fn lemma_segments_read_back(segs: Seq<Seq<u8>>, vals: Seq<Resp>)
    requires
        segs.len() == vals.len(),
        forall|i: int| 0 <= i < segs.len() ==> spec_parse(#[trigger] segs[i]) == Ok::<
            (Resp, nat),
            Failure,
        >((vals[i], segs[i].len())),
    ensures
        spec_parse_items(segs.flatten(), segs.len()) == Ok::<(Seq<Resp>, nat), Failure>(
            (vals, segs.flatten().len()),
        ),
    decreases segs.len(),
{
    if segs.len() > 0 {
        let first = segs[0];
        let tail = segs.drop_first();
        let b = segs.flatten();
        assert(spec_parse(segs[0]) == Ok::<(Resp, nat), Failure>((vals[0], segs[0].len())));
        law_parse_extension(first, tail.flatten());
        assert(b == first + tail.flatten());
        assert(b.subrange(first.len() as int, b.len() as int) =~= tail.flatten());
        assert forall|i: int| 0 <= i < tail.len() implies spec_parse(#[trigger] tail[i]) == Ok::<
            (Resp, nat),
            Failure,
        >((vals.drop_first()[i], tail[i].len())) by {
            assert(tail[i] == segs[i + 1]);
        }
        lemma_segments_read_back(tail, vals.drop_first());
        assert(seq![vals[0]] + vals.drop_first() =~= vals);
    } else {
        assert(vals =~= Seq::<Resp>::empty());
    }
}

/// An array written as `*count\r\n` followed by the bytes of its values.
pub open spec fn array_bytes(segs: Seq<Seq<u8>>) -> Seq<u8> {
    seq![42u8] + decimal(segs.len()) + seq![13u8, 10u8] + segs.flatten()
}

/// An array of pieces, each of which reads whole as a value, reads back as the
/// array of exactly those values, taking just its own bytes, whatever follows.
pub proof fn law_array_reads_back(segs: Seq<Seq<u8>>, vals: Seq<Resp>, rest: Seq<u8>)
    requires
        segs.len() == vals.len(),
        segs.len() <= i64::MAX,
        forall|i: int| 0 <= i < segs.len() ==> spec_parse(#[trigger] segs[i]) == Ok::<
            (Resp, nat),
            Failure,
        >((vals[i], segs[i].len())),
    ensures
        spec_parse(array_bytes(segs) + rest) == Ok::<(Resp, nat), Failure>(
            (Resp::Array(vals), array_bytes(segs).len()),
        ),
{
    let n = segs.len();
    let d = decimal(n);
    let b = array_bytes(segs);
    lemma_decimal_parses(n);
    let pos = (d.len() + 1) as int;
    assert forall|j: int| 0 <= j < pos implies !crlf_at(b, j) by {
        if j > 0 {
            assert(b[j] == d[j - 1]);
        }
    }
    assert(crlf_at(b, pos));
    lemma_first_crlf_unique(b, pos);
    assert(header(b) =~= d);
    assert(b.subrange(pos + 2, b.len() as int) =~= segs.flatten());
    lemma_segments_read_back(segs, vals);
    law_parse_extension(b, rest);
}

/// In particular an array of one integer, for every `i64` `n`, reads back as the
/// array holding `n`, sign included.
pub proof fn law_integer_array_reads_back(n: int, rest: Seq<u8>)
    requires
        i64::MIN <= n <= i64::MAX,
    ensures
        spec_parse(seq![42u8, 49u8, 13u8, 10u8, 58u8] + integer_text(n) + seq![13u8, 10u8] + rest)
            == Ok::<(Resp, nat), Failure>(
            (Resp::Array(seq![Resp::Integer(n)]), integer_text(n).len() + 7),
        ),
{
    let seg = seq![58u8] + integer_text(n) + seq![13u8, 10u8];
    law_integer_reads_back(n, Seq::empty());
    assert(seg + Seq::<u8>::empty() =~= seg);
    let segs = seq![seg];
    assert(segs.drop_first() =~= Seq::<Seq<u8>>::empty());
    assert(segs.drop_first().flatten() == Seq::<u8>::empty());
    assert(segs.first() == seg);
    assert(segs.flatten() =~= seg);
    assert(decimal(1) =~= seq![49u8]);
    law_array_reads_back(segs, seq![Resp::Integer(n)], rest);
    assert(array_bytes(segs) =~= seq![42u8, 49u8, 13u8, 10u8, 58u8] + integer_text(n) + seq![
        13u8,
        10u8,
    ]);
    assert(array_bytes(segs) + rest =~= seq![42u8, 49u8, 13u8, 10u8, 58u8] + integer_text(n)
        + seq![13u8, 10u8] + rest);
}

} // verus!
