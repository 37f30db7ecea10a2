//! The responder: once a request is complete, the connection answers with a
//! fixed-shape `200 OK` response that echoes the accumulated request bytes,
//! with their exact byte length as `Content-Length`.
use vstd::prelude::*;

verus! {

/// The decimal numeral of `n`, most significant digit first, no sign and no
/// leading zero (a single `0` for zero).
pub open spec fn dec_digits(n: nat) -> Seq<u8>
    decreases n,
{
    if n < 10 {
        seq![(48 + n) as u8]
    } else {
        dec_digits(n / 10).push((48 + n % 10) as u8)
    }
}

/// The response bytes up to the `Content-Length` value: the status line, the
/// `Content-Type` header and the `Content-Length` name.
pub open spec fn response_prefix() -> Seq<u8> {
    seq![
        'H' as u8,
        'T' as u8,
        'T' as u8,
        'P' as u8,
        '/' as u8,
        '1' as u8,
        '.' as u8,
        '1' as u8,
        ' ' as u8,
        '2' as u8,
        '0' as u8,
        '0' as u8,
        ' ' as u8,
        'O' as u8,
        'K' as u8,
        13u8,
        10u8,
        'C' as u8,
        'o' as u8,
        'n' as u8,
        't' as u8,
        'e' as u8,
        'n' as u8,
        't' as u8,
        '-' as u8,
        'T' as u8,
        'y' as u8,
        'p' as u8,
        'e' as u8,
        ':' as u8,
        ' ' as u8,
        't' as u8,
        'e' as u8,
        'x' as u8,
        't' as u8,
        '/' as u8,
        'p' as u8,
        'l' as u8,
        'a' as u8,
        'i' as u8,
        'n' as u8,
        13u8,
        10u8,
        'C' as u8,
        'o' as u8,
        'n' as u8,
        't' as u8,
        'e' as u8,
        'n' as u8,
        't' as u8,
        '-' as u8,
        'L' as u8,
        'e' as u8,
        'n' as u8,
        'g' as u8,
        't' as u8,
        'h' as u8,
        ':' as u8,
        ' ' as u8,
    ]
}

/// The whole response to a request whose accumulated bytes are `body`: status
/// line, `Content-Type`, a `Content-Length` of `body`'s byte length, a blank
/// line, then `body` verbatim.
pub open spec fn spec_response(body: Seq<u8>) -> Seq<u8> {
    response_prefix() + dec_digits(body.len()) + seq![13u8, 10u8, 13u8, 10u8] + body
}

fn push_dec_digits(out: &mut Vec<u8>, n: usize)
    ensures
        final(out)@ == old(out)@ + dec_digits(n as nat),
{
    let mut tmp: Vec<u8> = Vec::new();
    let ghost mut tail = Seq::<u8>::empty();
    let mut m: usize = n;
    while m >= 10
        invariant
            dec_digits(n as nat) == dec_digits(m as nat) + tail,
            tmp@.len() == tail.len(),
            forall|i: int| 0 <= i < tail.len() ==> tail[i] == tmp@[tail.len() - 1 - i],
        decreases m,
    {
        let d: u8 = (m % 10) as u8 + 48;
        tmp.push(d);
        proof {
            assert(dec_digits(m as nat) == dec_digits((m / 10) as nat).push(d));
            assert(dec_digits((m / 10) as nat) + (seq![d] + tail) =~= (dec_digits(
                (m / 10) as nat,
            ).push(d)) + tail);
            tail = seq![d] + tail;
        }
        m = m / 10;
    }
    out.push(m as u8 + 48);
    proof {
        assert(dec_digits(m as nat) =~= seq![(48 + m as nat) as u8]);
        assert(out@ =~= old(out)@ + dec_digits(m as nat));
    }
    let mut idx: usize = tmp.len();
    while idx > 0
        invariant
            idx <= tmp@.len(),
            tmp@.len() == tail.len(),
            forall|i: int| 0 <= i < tail.len() ==> tail[i] == tmp@[tail.len() - 1 - i],
            dec_digits(n as nat) == dec_digits(m as nat) + tail,
            out@ == old(out)@ + dec_digits(m as nat) + tail.take(tail.len() - idx),
        decreases idx,
    {
        idx = idx - 1;
        out.push(tmp[idx]);
        proof {
            assert(out@ =~= old(out)@ + dec_digits(m as nat) + tail.take(
                tail.len() - idx,
            ));
        }
    }
    proof {
        assert(tail.take(tail.len() as int) =~= tail);
        assert(out@ =~= old(out)@ + dec_digits(n as nat));
    }
}

fn append_bytes(out: &mut Vec<u8>, b: &[u8])
    ensures
        final(out)@ == old(out)@ + b@,
{
    let ghost s0 = out@;
    out.extend_from_slice(b);
    proof {
        assert(out@ =~= s0 + b@) by {
            assert forall|i: int| 0 <= i < out@.len() implies out@[i] == (s0 + b@)[i] by {
                if i >= s0.len() {
                    assert(cloned::<u8>(b@[i - s0.len()], out@[i]));
                }
            }
        }
    }
}

/// Relies on std's str::from_utf8: it returns `Ok` exactly when its input is
/// well-formed UTF-8.
#[verifier::external_body]
fn utf8_check(b: &[u8]) -> (r: bool)
    ensures
        r == vstd::utf8::valid_utf8(b@),
{
    core::str::from_utf8(b).is_ok()
}

/// Whether the accumulated request bytes decode as UTF-8 text. A request that
/// does not is fatal to its own connection: no response is owed for it.
pub fn request_is_utf8(raw: &Vec<u8>) -> (r: bool)
    ensures
        r == vstd::utf8::valid_utf8(raw@),
{
    utf8_check(raw.as_slice())
}

/// The exact response owed to a request whose accumulated bytes are `body`.
pub fn render_response(body: &Vec<u8>) -> (r: Vec<u8>)
    ensures
        r@ == spec_response(body@),
{
    let mut out: Vec<u8> = Vec::new();
    out.push('H' as u8);
    out.push('T' as u8);
    out.push('T' as u8);
    out.push('P' as u8);
    out.push('/' as u8);
    out.push('1' as u8);
    out.push('.' as u8);
    out.push('1' as u8);
    out.push(' ' as u8);
    out.push('2' as u8);
    out.push('0' as u8);
    out.push('0' as u8);
    out.push(' ' as u8);
    out.push('O' as u8);
    out.push('K' as u8);
    out.push(13);
    out.push(10);
    out.push('C' as u8);
    out.push('o' as u8);
    out.push('n' as u8);
    out.push('t' as u8);
    out.push('e' as u8);
    out.push('n' as u8);
    out.push('t' as u8);
    out.push('-' as u8);
    out.push('T' as u8);
    out.push('y' as u8);
    out.push('p' as u8);
    out.push('e' as u8);
    out.push(':' as u8);
    out.push(' ' as u8);
    out.push('t' as u8);
    out.push('e' as u8);
    out.push('x' as u8);
    out.push('t' as u8);
    out.push('/' as u8);
    out.push('p' as u8);
    out.push('l' as u8);
    out.push('a' as u8);
    out.push('i' as u8);
    out.push('n' as u8);
    out.push(13);
    out.push(10);
    out.push('C' as u8);
    out.push('o' as u8);
    out.push('n' as u8);
    out.push('t' as u8);
    out.push('e' as u8);
    out.push('n' as u8);
    out.push('t' as u8);
    out.push('-' as u8);
    out.push('L' as u8);
    out.push('e' as u8);
    out.push('n' as u8);
    out.push('g' as u8);
    out.push('t' as u8);
    out.push('h' as u8);
    out.push(':' as u8);
    out.push(' ' as u8);
    proof {
        assert(out@ =~= response_prefix());
    }
    push_dec_digits(&mut out, body.len());
    out.push(13);
    out.push(10);
    out.push(13);
    out.push(10);
    append_bytes(&mut out, body.as_slice());
    proof {
        assert(out@ =~= spec_response(body@));
    }
    out
}

} // verus!
