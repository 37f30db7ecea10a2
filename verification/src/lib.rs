//! A verified HTTP/1.1 request framer: it watches the bytes accumulated from
//! a socket and decides at which offset a complete request has arrived, using
//! only the start line, the `\r\n\r\n` header terminator and the
//! `Content-Length` header.
use vstd::prelude::*;

pub mod framing;
pub mod response;

verus! {

use vstd::string::StrSliceExecFns;

/// `p` is a prefix of `s`, character for character.
pub open spec fn char_prefix(s: Seq<char>, p: Seq<char>) -> bool {
    p.len() <= s.len() && (forall|i: int| 0 <= i < p.len() ==> s[i] == p[i])
}

/// The header block starts with one of the methods whose requests carry no
/// body. The test is a plain prefix test against the whole block, so a header
/// line that happens to open the block with one of these tokens matches too.
pub open spec fn spec_bodiless_line(s: Seq<char>) -> bool {
    ||| char_prefix(s, "CONNECT"@)
    ||| char_prefix(s, "GET"@)
    ||| char_prefix(s, "HEAD"@)
    ||| char_prefix(s, "OPTIONS"@)
    ||| char_prefix(s, "TRACE"@)
}

fn starts_with_chars(s: &str, p: &str) -> (r: bool)
    ensures
        r == char_prefix(s@, p@),
{
    let pl = p.unicode_len();
    let sl = s.unicode_len();
    if pl > sl {
        return false;
    }
    let mut i: usize = 0;
    while i < pl
        invariant
            i <= pl,
            pl <= sl,
            sl == s@.len(),
            pl == p@.len(),
            forall|j: int| 0 <= j < i ==> s@[j] == p@[j],
        decreases pl - i,
    {
        if s.get_char(i) != p.get_char(i) {
            return false;
        }
        i = i + 1;
    }
    true
}

/// Whether a request whose header block is `line` is bodiless: true exactly
/// when the block starts with CONNECT, GET, HEAD, OPTIONS or TRACE.
pub fn bodiless_request(line: &String) -> (r: bool)
    ensures
        r == spec_bodiless_line(line@),
{
    starts_with_chars(line.as_str(), "CONNECT") || starts_with_chars(line.as_str(), "GET")
        || starts_with_chars(line.as_str(), "HEAD") || starts_with_chars(
        line.as_str(),
        "OPTIONS",
    ) || starts_with_chars(line.as_str(), "TRACE")
}

} // verus!
