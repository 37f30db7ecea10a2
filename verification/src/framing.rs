//! Request framing: deciding, from the bytes accumulated on one connection,
//! whether a complete HTTP/1.1 request has arrived and how long it is.
use vstd::prelude::*;

verus! {

/// Carriage return.
pub const CR: u8 = 13;

/// Line feed.
pub const LF: u8 = 10;

/// The four-byte header terminator `\r\n\r\n` begins at index `i` of `s`.
pub open spec fn is_terminator_at(s: Seq<u8>, i: int) -> bool {
    &&& 0 <= i
    &&& i + 4 <= s.len()
    &&& s[i] == CR
    &&& s[i + 1] == LF
    &&& s[i + 2] == CR
    &&& s[i + 3] == LF
}

/// Index of the first header terminator of `s` at or after `i`, if any.
pub open spec fn find_terminator_from(s: Seq<u8>, i: int) -> Option<int>
    decreases s.len() - i,
{
    if i < 0 || i + 4 > s.len() {
        None
    } else if is_terminator_at(s, i) {
        Some(i)
    } else {
        find_terminator_from(s, i + 1)
    }
}

/// Offset of the first header terminator of `s`, if any: the byte length of
/// the header block.
pub open spec fn spec_header_end(s: Seq<u8>) -> Option<int> {
    find_terminator_from(s, 0)
}

/// `s` ends with the header terminator.
pub open spec fn ends_with_terminator(s: Seq<u8>) -> bool {
    s.len() >= 4 && is_terminator_at(s, s.len() - 4)
}

/// A found terminator is the first one: nothing before it matches.
pub proof fn lemma_find_some(s: Seq<u8>, i: int, h: int)
    requires
        find_terminator_from(s, i) == Some(h),
    ensures
        i <= h,
        is_terminator_at(s, h),
        forall|j: int| i <= j < h ==> !is_terminator_at(s, j),
    decreases s.len() - i,
{
    if !(i < 0 || i + 4 > s.len()) && !is_terminator_at(s, i) {
        lemma_find_some(s, i + 1, h);
    }
}

/// Converse: a terminator with nothing matching before it is what the search
/// finds.
pub proof fn lemma_find_converse(s: Seq<u8>, i: int, h: int)
    requires
        0 <= i <= h,
        is_terminator_at(s, h),
        forall|j: int| i <= j < h ==> !is_terminator_at(s, j),
    ensures
        find_terminator_from(s, i) == Some(h),
    decreases h - i,
{
    if i < h {
        lemma_find_converse(s, i + 1, h);
    }
}

/// Searching from `0` or from any point that skips only non-matches gives the
/// same answer.
pub proof fn lemma_find_skip(s: Seq<u8>, i: int, k: int)
    requires
        0 <= i <= k,
        forall|j: int| i <= j < k ==> !is_terminator_at(s, j),
    ensures
        find_terminator_from(s, i) == find_terminator_from(s, k),
    decreases k - i,
{
    if i < k {
        lemma_find_skip(s, i + 1, k);
    }
}

/// Index of the first `\r\n` of `s` at or after `i`, or `s.len()` if there is
/// none: the end of the header line that starts at `i`.
pub open spec fn find_crlf_from(s: Seq<u8>, i: int) -> int
    decreases s.len() - i,
{
    if i < 0 || i + 2 > s.len() {
        s.len() as int
    } else if s[i] == CR && s[i + 1] == LF {
        i
    } else {
        find_crlf_from(s, i + 1)
    }
}

/// ASCII whitespace, as trimmed around a `Content-Length` value.
pub open spec fn is_ws(b: u8) -> bool {
    b == 32 || b == 9 || b == 10 || b == 12 || b == 13
}

/// An ASCII decimal digit.
pub open spec fn is_digit(b: u8) -> bool {
    48 <= b <= 57
}

/// Every byte of `s` is an ASCII decimal digit.
pub open spec fn all_digits(s: Seq<u8>) -> bool {
    forall|i: int| 0 <= i < s.len() ==> is_digit(s[i])
}

/// The value of `s` read as a decimal numeral.
pub open spec fn dec_value(s: Seq<u8>) -> nat
    decreases s.len(),
{
    if s.len() == 0 {
        0
    } else {
        (dec_value(s.drop_last()) * 10 + (s.last() - 48)) as nat
    }
}

/// Index of the first byte of `s` at or after `i` that is not whitespace, or
/// `s.len()` if all of them are.
pub open spec fn skip_ws_from(s: Seq<u8>, i: int) -> int
    decreases s.len() - i,
{
    if i < 0 || i >= s.len() {
        s.len() as int
    } else if is_ws(s[i]) {
        skip_ws_from(s, i + 1)
    } else {
        i
    }
}

/// One past the last byte of `s.take(i)` that is not whitespace, or `0` if all
/// of them are.
pub open spec fn skip_ws_back(s: Seq<u8>, i: int) -> int
    decreases i,
{
    if i <= 0 || i > s.len() {
        0
    } else if is_ws(s[i - 1]) {
        skip_ws_back(s, i - 1)
    } else {
        i
    }
}

/// `s` with leading and trailing whitespace removed.
pub open spec fn trim_ws(s: Seq<u8>) -> Seq<u8> {
    let lo = skip_ws_from(s, 0);
    let hi = skip_ws_back(s, s.len() as int);
    if lo < hi {
        s.subrange(lo, hi)
    } else {
        Seq::empty()
    }
}

/// The value a `Content-Length` header contributes: its text after the colon,
/// trimmed of surrounding whitespace, read as a decimal number. `None` when
/// the trimmed text is empty, holds a non-digit, or does not fit in `usize`.
pub open spec fn parse_cl_value(v: Seq<u8>) -> Option<nat> {
    let t = trim_ws(v);
    if t.len() > 0 && all_digits(t) && dec_value(t) <= usize::MAX {
        Some(dec_value(t))
    } else {
        None
    }
}

/// `p` is a prefix of `s`, byte for byte.
pub open spec fn byte_prefix(s: Seq<u8>, p: Seq<u8>) -> bool {
    p.len() <= s.len() && (forall|i: int| 0 <= i < p.len() ==> s[i] == p[i])
}

/// The bytes of `Content-Length:`, the one header the framer interprets.
pub open spec fn cl_prefix() -> Seq<u8> {
    seq![
        'C' as u8,
        'o' as u8,
        'n' as u8,
        't' as u8,
        'e' as u8,
        'n' as u8,
        't' as u8,
        '-' as u8,
        'L' as u8,
        'e' as u8,
        'n' as u8,
        'g' as u8,
        't' as u8,
        'h' as u8,
        ':' as u8,
    ]
}

/// Walks the header block line by line from `i` and reports what the first
/// line that starts with `Content-Length:` parses to, or `None` when no line
/// starts that way. The match is case-sensitive and the first such line
/// decides, parseable or not.
pub open spec fn cl_search(hdr: Seq<u8>, i: int) -> Option<nat>
    decreases hdr.len() - i,
{
    if i < 0 || i > hdr.len() {
        None
    } else {
        let e = find_crlf_from(hdr, i);
        if byte_prefix(hdr.subrange(i, e), cl_prefix()) {
            parse_cl_value(hdr.subrange(i + 15, e))
        } else if i <= e && e + 2 <= hdr.len() {
            cl_search(hdr, e + 2)
        } else {
            None
        }
    }
}

/// The `Content-Length` announced by the header block `hdr`, if one of its
/// lines announces one that parses.
pub open spec fn content_length_of(hdr: Seq<u8>) -> Option<nat> {
    cl_search(hdr, 0)
}

/// The body length the framer works with: a missing or malformed
/// `Content-Length` counts as zero, never as an error.
pub open spec fn spec_body_len(hdr: Seq<u8>) -> nat {
    match content_length_of(hdr) {
        Some(n) => n,
        None => 0,
    }
}

/// The header block starts with one of the methods whose requests carry no
/// body: CONNECT, GET, HEAD, OPTIONS or TRACE. A plain prefix test against
/// the whole block, so a first header line opening with such a token matches
/// too.
pub open spec fn spec_bodiless(hdr: Seq<u8>) -> bool {
    ||| byte_prefix(
        hdr,
        seq!['C' as u8, 'O' as u8, 'N' as u8, 'N' as u8, 'E' as u8, 'C' as u8, 'T' as u8],
    )
    ||| byte_prefix(hdr, seq!['G' as u8, 'E' as u8, 'T' as u8])
    ||| byte_prefix(hdr, seq!['H' as u8, 'E' as u8, 'A' as u8, 'D' as u8])
    ||| byte_prefix(
        hdr,
        seq!['O' as u8, 'P' as u8, 'T' as u8, 'I' as u8, 'O' as u8, 'N' as u8, 'S' as u8],
    )
    ||| byte_prefix(hdr, seq!['T' as u8, 'R' as u8, 'A' as u8, 'C' as u8, 'E' as u8])
}

/// A complete request has arrived in `s`: the header terminator has been
/// found, and either the request is bodiless and `s` ends at a terminator, or
/// `s` already holds the announced body.
pub open spec fn spec_complete(s: Seq<u8>) -> bool {
    match spec_header_end(s) {
        None => false,
        Some(h) => {
            let hdr = s.take(h);
            (spec_bodiless(hdr) && ends_with_terminator(s)) || h + 4 + spec_body_len(hdr)
                <= s.len()
        },
    }
}

/// The length the framer reports for a complete request: the header block and
/// terminator alone for a bodiless request that ends at the terminator, and
/// everything accumulated so far otherwise.
pub open spec fn spec_total_len(s: Seq<u8>) -> int {
    match spec_header_end(s) {
        None => 0,
        Some(h) => {
            let hdr = s.take(h);
            if spec_bodiless(hdr) && ends_with_terminator(s) {
                h + 4
            } else {
                s.len() as int
            }
        },
    }
}

/// Growing the buffer never moves an already-found first terminator.
pub proof fn lemma_find_stable_under_append(s: Seq<u8>, t: Seq<u8>, h: int)
    requires
        spec_header_end(s) == Some(h),
        s.len() <= t.len(),
        forall|i: int| 0 <= i < s.len() ==> s[i] == t[i],
    ensures
        spec_header_end(t) == Some(h),
{
    lemma_find_some(s, 0, h);
    assert(is_terminator_at(t, h));
    assert forall|j: int| 0 <= j < h implies !is_terminator_at(t, j) by {
        assert(!is_terminator_at(s, j));
        assert(j + 4 <= s.len());
    }
    lemma_find_converse(t, 0, h);
}

/// A prefix of a digit string never exceeds the whole string's value.
pub proof fn lemma_dec_prefix_mono(s: Seq<u8>, j: int)
    requires
        all_digits(s),
        0 <= j <= s.len(),
    ensures
        dec_value(s.take(j)) <= dec_value(s),
    decreases s.len(),
{
    if j < s.len() {
        assert(is_digit(s.last()));
        assert(all_digits(s.drop_last())) by {
            assert(forall|i: int|
                0 <= i < s.drop_last().len() ==> s.drop_last()[i] == s[i] && is_digit(s[i]));
        }
        lemma_dec_prefix_mono(s.drop_last(), j);
        assert(s.take(j) =~= s.drop_last().take(j));
        assert(dec_value(s) >= dec_value(s.drop_last()));
    } else {
        assert(s.take(j) =~= s);
    }
}

/// A bodiless request completes exactly at its header terminator, with no
/// body bytes consumed, whatever `Content-Length` its headers announce: a
/// buffer that is a header block of a bodiless method followed by the
/// terminator is complete at the terminator's end.
pub proof fn lemma_bodiless_completes_at_terminator(s: Seq<u8>, h: int)
    requires
        spec_header_end(s) == Some(h),
        spec_bodiless(s.take(h)),
        s.len() == h + 4,
    ensures
        spec_complete(s),
        spec_total_len(s) == h + 4,
{
    lemma_find_some(s, 0, h);
}

/// A request that is not bodiless and announces `Content-Length: n` is
/// incomplete until the buffer holds the header block, the terminator and `n`
/// body bytes, and complete from then on, at the full buffer's length.
pub proof fn lemma_body_completes_at_content_length(s: Seq<u8>, h: int, n: nat)
    requires
        spec_header_end(s) == Some(h),
        !spec_bodiless(s.take(h)),
        content_length_of(s.take(h)) == Some(n),
    ensures
        spec_complete(s) <==> s.len() >= h + 4 + n,
        spec_complete(s) ==> spec_total_len(s) == s.len(),
{
}

/// A header block with no usable `Content-Length` announces a body of zero
/// bytes: the headers alone complete the request once the terminator is seen.
pub proof fn lemma_missing_content_length_completes(s: Seq<u8>, h: int)
    requires
        spec_header_end(s) == Some(h),
        content_length_of(s.take(h)) is None,
    ensures
        spec_body_len(s.take(h)) == 0,
        spec_complete(s),
        spec_bodiless(s.take(h)) && ends_with_terminator(s) ==> spec_total_len(s) == h + 4,
        !(spec_bodiless(s.take(h)) && ends_with_terminator(s)) ==> spec_total_len(s) == s.len(),
{
    lemma_find_some(s, 0, h);
}

/// Asking the framer twice without feeding it anything in between cannot
/// change its answer: an empty addition leaves completion and reported
/// length as they were.
pub proof fn lemma_verdict_idempotent(s: Seq<u8>)
    ensures
        spec_complete(s + Seq::<u8>::empty()) == spec_complete(s),
        spec_total_len(s + Seq::<u8>::empty()) == spec_total_len(s),
{
    assert(s + Seq::<u8>::empty() =~= s);
}

/// Chunked delivery invariance: two framers that accumulated the same bytes,
/// one perhaps in many small updates and the other in a single one, reach the
/// same verdict. The verdict is a function of the accumulated bytes alone,
/// never of how they arrived.
pub proof fn lemma_chunked_delivery_invariance(a: Request, b: Request)
    requires
        a.wf(),
        b.wf(),
        a.raw@ == b.raw@,
    ensures
        spec_complete(a.raw@) == spec_complete(b.raw@),
        spec_total_len(a.raw@) == spec_total_len(b.raw@),
{
}

/// The verdict the framer reaches on the bytes accumulated so far.
#[derive(Clone, Copy, Debug, PartialEq, Eq, Structural)]
pub enum Verdict {
    /// More bytes are needed.
    Incomplete,
    /// A complete request of the given total byte length has arrived.
    Complete(usize),
}

fn find_crlf(hdr: &[u8], from: usize) -> (e: usize)
    requires
        from <= hdr@.len(),
    ensures
        e == find_crlf_from(hdr@, from as int),
        from <= e <= hdr@.len(),
{
    let mut e = from;
    while hdr.len() >= 2 && e <= hdr.len() - 2
        invariant
            from <= e <= hdr@.len(),
            find_crlf_from(hdr@, from as int) == find_crlf_from(hdr@, e as int),
        decreases hdr@.len() - e,
    {
        if hdr[e] == CR && hdr[e + 1] == LF {
            return e;
        }
        e = e + 1;
    }
    hdr.len()
}

fn is_cl_line(line: &[u8]) -> (r: bool)
    ensures
        r == byte_prefix(line@, cl_prefix()),
{
    if line.len() < 15 {
        return false;
    }
    let r = line[0] == 'C' as u8 && line[1] == 'o' as u8 && line[2] == 'n' as u8 && line[3]
        == 't' as u8 && line[4] == 'e' as u8 && line[5] == 'n' as u8 && line[6] == 't' as u8
        && line[7] == '-' as u8 && line[8] == 'L' as u8 && line[9] == 'e' as u8 && line[10]
        == 'n' as u8 && line[11] == 'g' as u8 && line[12] == 't' as u8 && line[13] == 'h' as u8
        && line[14] == ':' as u8;
    assert(cl_prefix().len() == 15);
    assert(r == byte_prefix(line@, cl_prefix())) by {
        if r {
            assert forall|i: int| 0 <= i < 15 implies line@[i] == cl_prefix()[i] by {
                assert(cl_prefix()[0] == 'C' as u8);
                assert(cl_prefix()[1] == 'o' as u8);
                assert(cl_prefix()[2] == 'n' as u8);
                assert(cl_prefix()[3] == 't' as u8);
                assert(cl_prefix()[4] == 'e' as u8);
                assert(cl_prefix()[5] == 'n' as u8);
                assert(cl_prefix()[6] == 't' as u8);
                assert(cl_prefix()[7] == '-' as u8);
                assert(cl_prefix()[8] == 'L' as u8);
                assert(cl_prefix()[9] == 'e' as u8);
                assert(cl_prefix()[10] == 'n' as u8);
                assert(cl_prefix()[11] == 'g' as u8);
                assert(cl_prefix()[12] == 't' as u8);
                assert(cl_prefix()[13] == 'h' as u8);
                assert(cl_prefix()[14] == ':' as u8);
            }
        }
    }
    r
}

fn parse_value(line: &[u8]) -> (r: Option<usize>)
    requires
        line@.len() >= 15,
    ensures
        match r {
            Some(n) => parse_cl_value(line@.skip(15)) == Some(n as nat),
            None => parse_cl_value(line@.skip(15)) is None,
        },
{
    let v = vstd::slice::slice_subrange(line, 15, line.len());
    proof {
        assert(v@ =~= line@.skip(15));
    }
    let mut lo: usize = 0;
    while lo < v.len() && (v[lo] == 32 || v[lo] == 9 || v[lo] == 10
        || v[lo] == 12 || v[lo] == 13)
        invariant
            lo <= v@.len(),
            skip_ws_from(v@, 0) == skip_ws_from(v@, lo as int),
        decreases v@.len() - lo,
    {
        lo = lo + 1;
    }
    let mut hi: usize = v.len();
    while hi > 0 && (v[hi - 1] == 32 || v[hi - 1] == 9 || v[hi - 1] == 10 || v[hi - 1] == 12
        || v[hi - 1] == 13)
        invariant
            hi <= v@.len(),
            skip_ws_back(v@, v@.len() as int) == skip_ws_back(v@, hi as int),
        decreases hi,
    {
        hi = hi - 1;
    }
    assert(skip_ws_from(v@, 0) == lo as int);
    assert(skip_ws_back(v@, v@.len() as int) == hi as int);
    if lo >= hi {
        assert(trim_ws(v@).len() == 0);
        return None;
    }
    let t = vstd::slice::slice_subrange(v, lo, hi);
    proof {
        assert(t@ == trim_ws(v@));
    }
    let mut acc: usize = 0;
    let mut k: usize = 0;
    while k < t.len()
        invariant
            k <= t@.len(),
            all_digits(t@.take(k as int)),
            acc as nat == dec_value(t@.take(k as int)),
            v@ == line@.skip(15),
            t@ == trim_ws(v@),
        decreases t@.len() - k,
    {
        let b = t[k];
        if !(48 <= b && b <= 57) {
            assert(!all_digits(t@));
            return None;
        }
        let d = (b - 48) as usize;
        let limit = (usize::MAX - d) / 10;
        if acc > limit {
            proof {
                vstd::arithmetic::div_mod::lemma_fundamental_div_mod(
                    (usize::MAX - d) as int,
                    10,
                );
                assert(acc * 10 + d > usize::MAX) by (nonlinear_arith)
                    requires
                        acc > (usize::MAX - d) / 10,
                        (usize::MAX - d) == ((usize::MAX - d) / 10) * 10 + ((usize::MAX - d)
                            % 10),
                        0 <= (usize::MAX - d) % 10 < 10,
                ;
                if all_digits(t@) {
                    lemma_dec_prefix_mono(t@, k + 1);
                    assert(t@.take(k + 1).drop_last() =~= t@.take(k as int));
                    assert(t@.take(k + 1).last() == t@[k as int]);
                    assert(dec_value(t@.take(k + 1)) == acc * 10 + d);
                    assert(dec_value(t@) > usize::MAX);
                }
            }
            return None;
        }
        proof {
            vstd::arithmetic::div_mod::lemma_fundamental_div_mod((usize::MAX - d) as int, 10);
            assert(acc * 10 + d <= usize::MAX) by (nonlinear_arith)
                requires
                    acc <= (usize::MAX - d) / 10,
                    (usize::MAX - d) == ((usize::MAX - d) / 10) * 10 + ((usize::MAX - d) % 10),
                    0 <= (usize::MAX - d) % 10 < 10,
            ;
            assert(t@.take(k + 1).drop_last() =~= t@.take(k as int));
            assert(t@.take(k + 1).last() == t@[k as int]);
        }
        acc = acc * 10 + d;
        k = k + 1;
    }
    proof {
        assert(t@.take(t@.len() as int) =~= t@);
    }
    Some(acc)
}

/// The `Content-Length` the header block `hdr` announces, with a missing or
/// malformed header counting as zero.
pub fn content_length(hdr: &[u8]) -> (r: usize)
    ensures
        r as nat == spec_body_len(hdr@),
{
    let mut i: usize = 0;
    loop
        invariant
            i <= hdr@.len(),
            cl_search(hdr@, 0) == cl_search(hdr@, i as int),
        decreases hdr@.len() - i,
    {
        let e = find_crlf(hdr, i);
        let line = vstd::slice::slice_subrange(hdr, i, e);
        proof {
            assert(line@ =~= hdr@.subrange(i as int, e as int));
        }
        if is_cl_line(line) {
            proof {
                assert(line@.skip(15) =~= hdr@.subrange(i + 15, e as int));
            }
            match parse_value(line) {
                Some(n) => {
                    return n;
                },
                None => {
                    return 0;
                },
            }
        } else if hdr.len() >= 2 && e <= hdr.len() - 2 {
            i = e + 2;
        } else {
            return 0;
        }
    }
}

/// Whether the header block names a bodiless method, byte for byte.
pub fn bodiless_header(hdr: &[u8]) -> (r: bool)
    ensures
        r == spec_bodiless(hdr@),
{
    let n = hdr.len();
    let c = n >= 7 && hdr[0] == 'C' as u8 && hdr[1] == 'O' as u8 && hdr[2] == 'N' as u8 && hdr[3]
        == 'N' as u8 && hdr[4] == 'E' as u8 && hdr[5] == 'C' as u8 && hdr[6] == 'T' as u8;
    let g = n >= 3 && hdr[0] == 'G' as u8 && hdr[1] == 'E' as u8 && hdr[2] == 'T' as u8;
    let h = n >= 4 && hdr[0] == 'H' as u8 && hdr[1] == 'E' as u8 && hdr[2] == 'A' as u8 && hdr[3]
        == 'D' as u8;
    let o = n >= 7 && hdr[0] == 'O' as u8 && hdr[1] == 'P' as u8 && hdr[2] == 'T' as u8 && hdr[3]
        == 'I' as u8 && hdr[4] == 'O' as u8 && hdr[5] == 'N' as u8 && hdr[6] == 'S' as u8;
    let t = n >= 5 && hdr[0] == 'T' as u8 && hdr[1] == 'R' as u8 && hdr[2] == 'A' as u8 && hdr[3]
        == 'C' as u8 && hdr[4] == 'E' as u8;
    c || g || h || o || t
}

/// One connection's framing state: the bytes received so far and the memory
/// of how far the terminator scan has come, so that no byte is scanned twice.
pub struct Request {
    /// Everything received on the connection so far, in order, never shrunk.
    pub raw: Vec<u8>,
    /// The first index the terminator scan has not yet ruled out.
    pub scan: usize,
    /// Offset of the first header terminator, once found.
    pub header_end: Option<usize>,
    /// The announced body length, valid once the terminator is found.
    pub body_len: usize,
    /// Whether the header block names a bodiless method, valid once the
    /// terminator is found.
    pub bodiless: bool,
}

impl Request {
    /// The framer's bookkeeping agrees with its bytes: the scan
    /// cursor has skipped only non-terminators and stands within three bytes
    /// of the end while no terminator is found; once one is found, the offset
    /// is the first terminator's and the header facts are those of the block
    /// before it.
    pub open spec fn wf(self) -> bool {
        match self.header_end {
            None => {
                &&& self.scan <= self.raw@.len()
                &&& self.scan + 3 >= self.raw@.len()
                &&& (self.scan == 0 || self.scan + 3 == self.raw@.len())
                &&& forall|j: int| 0 <= j < self.scan ==> !is_terminator_at(self.raw@, j)
            },
            Some(h) => {
                &&& h + 4 <= self.raw@.len()
                &&& spec_header_end(self.raw@) == Some(h as int)
                &&& self.body_len as nat == spec_body_len(self.raw@.take(h as int))
                &&& self.bodiless == spec_bodiless(self.raw@.take(h as int))
            },
        }
    }

    /// A framer that has seen nothing yet.
    pub fn new() -> (r: Request)
        ensures
            r.wf(),
            r.raw@ == Seq::<u8>::empty(),
    {
        let r = Request { raw: Vec::new(), scan: 0, header_end: None, body_len: 0, bodiless: false };
        proof {
            assert(r.raw@ =~= Seq::<u8>::empty());
        }
        r
    }

    /// Appends freshly read bytes and advances the terminator scan over the
    /// new bytes only.
    pub fn update(&mut self, chunk: &[u8])
        requires
            old(self).wf(),
        ensures
            final(self).wf(),
            final(self).raw@ == old(self).raw@ + chunk@,
    {
        let ghost s0 = self.raw@;
        self.raw.extend_from_slice(chunk);
        proof {
            assert(self.raw@ =~= s0 + chunk@) by {
                assert forall|i: int| 0 <= i < self.raw@.len() implies self.raw@[i] == (s0
                    + chunk@)[i] by {
                    if i >= s0.len() {
                        assert(cloned::<u8>(chunk@[i - s0.len()], self.raw@[i]));
                    }
                }
            }
        }
        if self.header_end.is_none() {
            let mut scan: usize = self.scan;
            let mut found: bool = false;
            proof {
                assert forall|j: int| 0 <= j < scan implies !is_terminator_at(self.raw@, j) by {
                    assert(!is_terminator_at(s0, j));
                    assert(j + 4 <= s0.len());
                }
            }
            while !found && self.raw.len() >= 4 && scan <= self.raw.len() - 4
                invariant
                    scan <= self.raw@.len(),
                    scan == 0 || scan + 3 <= self.raw@.len(),
                    forall|j: int| 0 <= j < scan ==> !is_terminator_at(self.raw@, j),
                    found ==> is_terminator_at(self.raw@, scan as int),
                decreases self.raw@.len() - scan, (if found { 0int } else { 1int }),
            {
                if self.raw[scan] == CR && self.raw[scan + 1] == LF && self.raw[scan + 2] == CR
                    && self.raw[scan + 3] == LF {
                    found = true;
                } else {
                    scan = scan + 1;
                }
            }
            if found {
                let hdr = vstd::slice::slice_subrange(self.raw.as_slice(), 0, scan);
                proof {
                    assert(hdr@ =~= self.raw@.take(scan as int));
                    lemma_find_converse(self.raw@, 0, scan as int);
                }
                let blen = content_length(hdr);
                let nobody = bodiless_header(hdr);
                self.scan = scan;
                self.header_end = Some(scan);
                self.body_len = blen;
                self.bodiless = nobody;
            } else {
                self.scan = scan;
            }
        } else {
            proof {
                let h = self.header_end->Some_0 as int;
                lemma_find_stable_under_append(s0, self.raw@, h);
                assert(self.raw@.take(h) =~= s0.take(h));
            }
        }
    }

    /// The verdict on everything accumulated so far. It depends on those
    /// bytes alone, so asking again without new bytes gives the same answer.
    pub fn verdict(&self) -> (v: Verdict)
        requires
            self.wf(),
        ensures
            match v {
                Verdict::Incomplete => !spec_complete(self.raw@),
                Verdict::Complete(n) => spec_complete(self.raw@) && n == spec_total_len(
                    self.raw@,
                ),
            },
    {
        match self.header_end {
            None => {
                proof {
                    lemma_find_skip(self.raw@, 0, self.scan as int);
                }
                Verdict::Incomplete
            },
            Some(h) => {
                let len = self.raw.len();
                let ends_term = len >= 4 && self.raw[len - 4] == CR && self.raw[len - 3] == LF
                    && self.raw[len - 2] == CR && self.raw[len - 1] == LF;
                assert(ends_term == ends_with_terminator(self.raw@));
                if self.bodiless && ends_term {
                    Verdict::Complete(h + 4)
                } else if self.body_len <= len - h - 4 {
                    Verdict::Complete(len)
                } else {
                    Verdict::Incomplete
                }
            },
        }
    }

    /// Whether a complete request has arrived.
    pub fn body_complete(&self) -> (r: bool)
        requires
            self.wf(),
        ensures
            r == spec_complete(self.raw@),
    {
        match self.verdict() {
            Verdict::Incomplete => false,
            Verdict::Complete(_) => true,
        }
    }
}

impl Default for Request {
    /// A framer that has seen nothing yet.
    fn default() -> (r: Request)
        ensures
            r.wf(),
            r.raw@ == Seq::<u8>::empty(),
    {
        Request::new()
    }
}

} // verus!
