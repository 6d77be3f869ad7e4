//! Text conversions done by the standard library: reading bytes as UTF-8 and
//! upper-casing a command name.
use vstd::prelude::*;
use vstd::utf8::*;

verus! {

/// What `str::to_uppercase` gives for the text `s` (Unicode's upper-case mapping).
pub uninterp spec fn unicode_uppercase(s: Seq<char>) -> Seq<char>;

/// Calls `std::str::from_utf8`. It returns the text that the bytes encode when they
/// are well-formed UTF-8, and nothing when they are not. The text is a view of the
/// same bytes, so it decodes to the characters that the bytes encode.
#[verifier::external_body]
pub(crate) fn str_from_utf8(bytes: &[u8]) -> (res: Option<&str>)
    ensures
        res is Some <==> valid_utf8(bytes@),
        res matches Some(s) ==> s@ == decode_utf8(bytes@),
{
    std::str::from_utf8(bytes).ok()
}

/// Calls `str::to_uppercase`. Its result is named `unicode_uppercase`, Unicode's
/// upper-case mapping of the text, which depends on the text alone; this library
/// does not spell the mapping out, so nothing else is stated of it.
#[verifier::external_body]
pub(crate) fn to_uppercase(s: &str) -> (res: String)
    ensures
        res@ == unicode_uppercase(s@),
{
    s.to_uppercase()
}

/// Whether the texts `a` and `b` are the same characters.
pub fn same_text(a: &str, b: &str) -> (res: bool)
    ensures
        res == (a@ == b@),
{
    broadcast use vstd::utf8::group_utf8_lib;

    let x = a.as_bytes();
    let y = b.as_bytes();
    if x.len() != y.len() {
        assert(a@ == b@ ==> encode_utf8(a@) == encode_utf8(b@));
        return false;
    }
    let n = x.len();
    let mut i: usize = 0;
    while i < n
        invariant
            n == x@.len(),
            n == y@.len(),
            x@ == encode_utf8(a@),
            y@ == encode_utf8(b@),
            i <= n,
            forall|j: int| 0 <= j < i ==> x@[j] == y@[j],
        decreases n - i,
    {
        if x[i] != y[i] {
            assert(x@[i as int] != y@[i as int]);
            assert(a@ == b@ ==> encode_utf8(a@) == encode_utf8(b@));
            return false;
        }
        i = i + 1;
    }
    assert(x@ =~= y@);
    assert(decode_utf8(encode_utf8(a@)) == a@);
    assert(decode_utf8(encode_utf8(b@)) == b@);
    true
}

} // verus!
