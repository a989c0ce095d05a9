//! The wire protocol: a request is `*<count>\r\n` followed by `<count>` bulk
//! strings, each `$<length>\r\n<bytes>\r\n`; replies use the same grammar
//! (simple status, bulk string, null bulk string, array of bulk strings).

use vstd::prelude::*;

use crate::text::{
    all_digits, copy_range, dec_digits, digits_val, is_digit, lemma_digits_val_bound,
    lemma_pow10_19_bound, lemma_pow10_increases, pow10, push_all, u64_to_dec, views,
};

verus! {

/// Why a request was rejected or a command refused; any of these ends the
/// connection's command loop.
#[derive(Debug, PartialEq, Eq)]
pub enum ProtocolError {
    /// The chunk is not a well-formed array of bulk strings.
    Malformed,
    /// The command name is not recognized.
    UnknownCommand,
    /// The command came with fewer arguments than it needs.
    MissingArgument,
    /// CONFIG GET named a parameter that does not exist.
    UnknownParameter,
    /// CONFIG GET named a parameter that was never configured.
    ValueUnset,
}

/// Position just past the run of decimal digits starting at `pos`.
pub open spec fn digits_end(s: Seq<u8>, pos: int) -> int
    decreases s.len() - pos,
{
    if pos < 0 || pos >= s.len() || !is_digit(s[pos]) {
        pos
    } else {
        digits_end(s, pos + 1)
    }
}

/// Parse `<digits>\r\n` at `pos`: the value and the position past the line
/// terminator. One to nineteen digits are accepted, so the value fits a
/// machine word.
pub open spec fn parse_num_crlf(s: Seq<u8>, pos: int) -> Option<(nat, int)> {
    let e = digits_end(s, pos);
    if e == pos || e - pos > 19 {
        None
    } else if e + 2 > s.len() {
        None
    } else if s[e] == 13 && s[e + 1] == 10 {
        Some((digits_val(s, pos, e), e + 2))
    } else {
        None
    }
}

/// Parse one bulk string `$<length>\r\n<bytes>\r\n` at `pos`: its bytes and
/// the position past its trailing line terminator.
pub open spec fn parse_bulk_at(s: Seq<u8>, pos: int) -> Option<(Seq<u8>, int)> {
    if pos < 0 || pos >= s.len() || s[pos] != 36 {
        None
    } else {
        match parse_num_crlf(s, pos + 1) {
            None => None,
            Some((len, p)) => if p + len + 2 > s.len() {
                None
            } else if s[p + len] == 13 && s[p + len + 1] == 10 {
                Some((s.subrange(p, p + len), p + len + 2))
            } else {
                None
            },
        }
    }
}

/// Parse `n` bulk strings in sequence starting at `pos`.
pub open spec fn parse_bulks_at(s: Seq<u8>, pos: int, n: nat) -> Option<(Seq<Seq<u8>>, int)>
    decreases n,
{
    if n == 0 {
        Some((Seq::empty(), pos))
    } else {
        match parse_bulk_at(s, pos) {
            None => None,
            Some((tok, p)) => match parse_bulks_at(s, p, (n - 1) as nat) {
                None => None,
                Some((toks, e)) => Some((seq![tok] + toks, e)),
            },
        }
    }
}

/// The tokens of a whole request: `*<count>\r\n` then `count` bulk strings.
/// Bytes past the end of the request are ignored: a request arrives inside
/// one read chunk, which may be longer than the request itself.
pub open spec fn parse_request_spec(s: Seq<u8>) -> Option<Seq<Seq<u8>>> {
    if s.len() == 0 || s[0] != 42 {
        None
    } else {
        match parse_num_crlf(s, 1) {
            None => None,
            Some((n, p)) => match parse_bulks_at(s, p, n) {
                None => None,
                Some((toks, _)) => Some(toks),
            },
        }
    }
}

/// Position just past the digits starting at `pos`.
fn scan_digits(buf: &Vec<u8>, pos: usize) -> (e: usize)
    requires
        pos <= buf@.len(),
    ensures
        e == digits_end(buf@, pos as int),
        pos <= e <= buf@.len(),
{
    let mut i: usize = pos;
    while i < buf.len() && buf[i] >= 48 && buf[i] <= 57
        invariant
            pos <= i <= buf@.len(),
            digits_end(buf@, pos as int) == digits_end(buf@, i as int),
        decreases buf@.len() - i,
    {
        i += 1;
    }
    i
}

/// Parse `<digits>\r\n` at `pos`.
fn parse_num(buf: &Vec<u8>, pos: usize) -> (r: Option<(u64, usize)>)
    requires
        pos <= buf@.len(),
    ensures
        match parse_num_crlf(buf@, pos as int) {
            Some(p) => r is Some && r->Some_0.0 == p.0 && r->Some_0.1 == p.1,
            None => r is None,
        },
{
    let e = scan_digits(buf, pos);
    if e == pos || e - pos > 19 {
        return None;
    }
    if buf.len() - e < 2 {
        return None;
    }
    if !(buf[e] == 13 && buf[e + 1] == 10) {
        return None;
    }
    proof {
        assert(all_digits(buf@, pos as int, e as int)) by {
            lemma_digits_end_digits(buf@, pos as int, e as int);
        }
    }
    let mut acc: u64 = 0;
    let mut i: usize = pos;
    while i < e
        invariant
            pos <= i <= e <= buf@.len(),
            e - pos <= 19,
            all_digits(buf@, pos as int, e as int),
            acc == digits_val(buf@, pos as int, i as int),
            acc < pow10((i - pos) as nat),
        decreases e - i,
    {
        proof {
            lemma_digits_val_bound(buf@, pos as int, i + 1);
            lemma_pow10_19_bound();
            lemma_pow10_increases((i + 1 - pos) as nat, 19);
        }
        acc = acc * 10 + (buf[i] - 48) as u64;
        i += 1;
    }
    Some((acc, e + 2))
}

/// Every byte before the end of a digit run is a digit.
proof fn lemma_digits_end_digits(s: Seq<u8>, pos: int, e: int)
    requires
        0 <= pos,
        e == digits_end(s, pos),
    ensures
        all_digits(s, pos, e),
    decreases s.len() - pos,
{
    if pos < s.len() && is_digit(s[pos]) {
        lemma_digits_end_digits(s, pos + 1, e);
    }
}

/// Parse one bulk string at `pos`.
fn parse_bulk(buf: &Vec<u8>, pos: usize) -> (r: Option<(Vec<u8>, usize)>)
    requires
        pos <= buf@.len(),
    ensures
        match parse_bulk_at(buf@, pos as int) {
            Some(p) => r is Some && r->Some_0.0@ == p.0 && r->Some_0.1 == p.1 && p.1
                <= buf@.len(),
            None => r is None,
        },
{
    if pos >= buf.len() || buf[pos] != 36 {
        return None;
    }
    let (len, p) = match parse_num(buf, pos + 1) {
        None => {
            return None;
        },
        Some(x) => x,
    };
    proof {
        assert(p <= buf@.len());
    }
    let rem = buf.len() - p;
    if rem < 2 || len > (rem - 2) as u64 {
        return None;
    }
    let l = len as usize;
    let d = p + l;
    if !(buf[d] == 13 && buf[d + 1] == 10) {
        return None;
    }
    let tok = copy_range(buf, p, d);
    Some((tok, d + 2))
}

/// Parse a whole request into its tokens; every malformed chunk is refused.
pub fn parse_request(buf: &Vec<u8>) -> (r: Result<Vec<Vec<u8>>, ProtocolError>)
    ensures
        match parse_request_spec(buf@) {
            Some(toks) => r is Ok && views(r->Ok_0@) == toks,
            None => r == Err::<Vec<Vec<u8>>, ProtocolError>(ProtocolError::Malformed),
        },
{
    if buf.len() == 0 || buf[0] != 42 {
        return Err(ProtocolError::Malformed);
    }
    let (n, p0) = match parse_num(buf, 1) {
        None => {
            return Err(ProtocolError::Malformed);
        },
        Some(x) => x,
    };
    let mut toks: Vec<Vec<u8>> = Vec::new();
    let mut p: usize = p0;
    let mut i: u64 = 0;
    proof {
        match parse_bulks_at(buf@, p0 as int, n as nat) {
            Some(rest) => {
                assert(views(toks@) + rest.0 =~= rest.0);
            },
            None => {},
        }
    }
    while i < n
        invariant
            i <= n,
            p <= buf@.len(),
            buf@.len() > 0 && buf@[0] == 42,
            parse_num_crlf(buf@, 1) == Some::<(nat, int)>((n as nat, p0 as int)),
            match parse_bulks_at(buf@, p as int, (n - i) as nat) {
                Some(rest) => parse_bulks_at(buf@, p0 as int, n as nat) == Some::<
                    (Seq<Seq<u8>>, int),
                >((views(toks@) + rest.0, rest.1)),
                None => parse_bulks_at(buf@, p0 as int, n as nat) is None,
            },
        decreases n - i,
    {
        match parse_bulk(buf, p) {
            None => {
                proof {
                    assert(parse_bulk_at(buf@, p as int) is None);
                    assert(parse_bulks_at(buf@, p as int, (n - i) as nat) is None);
                    assert(parse_bulks_at(buf@, p0 as int, n as nat) is None);
                    assert(buf@.len() > 0 && buf@[0] == 42);
                    assert(parse_num_crlf(buf@, 1) == Some::<(nat, int)>(
                        (n as nat, p0 as int),
                    ));
                    assert(parse_request_spec(buf@) is None);
                }
                return Err(ProtocolError::Malformed);
            },
            Some((tok, np)) => {
                proof {
                    assert(views(toks@.push(tok)) =~= views(toks@) + seq![tok@]);
                    match parse_bulks_at(buf@, np as int, (n - i - 1) as nat) {
                        Some(rs) => {
                            assert(views(toks@) + (seq![tok@] + rs.0) =~= views(toks@.push(tok))
                                + rs.0);
                        },
                        None => {},
                    }
                }
                toks.push(tok);
                p = np;
                i += 1;
            },
        }
    }
    proof {
        assert(views(toks@) + Seq::<Seq<u8>>::empty() =~= views(toks@));
    }
    Ok(toks)
}

/// The line terminator.
pub open spec fn crlf() -> Seq<u8> {
    seq![13u8, 10u8]
}

/// The null bulk reply, sent when GET finds nothing.
pub open spec fn null_reply() -> Seq<u8> {
    seq![36u8, 45u8, 49u8, 13u8, 10u8]
}

/// The fixed pong status.
pub open spec fn pong_reply() -> Seq<u8> {
    seq![43u8, 80u8, 79u8, 78u8, 71u8, 13u8, 10u8]
}

/// The fixed OK status.
pub open spec fn ok_reply() -> Seq<u8> {
    seq![43u8, 79u8, 75u8, 13u8, 10u8]
}

/// A bulk-string reply: `$<length>\r\n<bytes>\r\n`.
pub open spec fn bulk_reply(data: Seq<u8>) -> Seq<u8> {
    seq![36u8] + dec_digits(data.len()) + crlf() + data + crlf()
}

/// The first `i` items of an array reply, each encoded as a bulk string.
pub open spec fn bulks_concat(items: Seq<Seq<u8>>, i: int) -> Seq<u8>
    decreases i,
{
    if i <= 0 {
        Seq::empty()
    } else {
        bulks_concat(items, i - 1) + bulk_reply(items[i - 1])
    }
}

/// An array reply: `*<count>\r\n` then each item as a bulk string.
pub open spec fn array_reply(items: Seq<Seq<u8>>) -> Seq<u8> {
    seq![42u8] + dec_digits(items.len()) + crlf() + bulks_concat(items, items.len() as int)
}

/// Encode the null bulk reply.
pub fn encode_null() -> (r: Vec<u8>)
    ensures
        r@ == null_reply(),
{
    let mut r: Vec<u8> = Vec::new();
    r.push(36);
    r.push(45);
    r.push(49);
    r.push(13);
    r.push(10);
    assert(r@ =~= null_reply());
    r
}

/// Encode the pong status.
pub fn encode_pong() -> (r: Vec<u8>)
    ensures
        r@ == pong_reply(),
{
    let mut r: Vec<u8> = Vec::new();
    r.push(43);
    r.push(80);
    r.push(79);
    r.push(78);
    r.push(71);
    r.push(13);
    r.push(10);
    assert(r@ =~= pong_reply());
    r
}

/// Encode the OK status.
pub fn encode_ok() -> (r: Vec<u8>)
    ensures
        r@ == ok_reply(),
{
    let mut r: Vec<u8> = Vec::new();
    r.push(43);
    r.push(79);
    r.push(75);
    r.push(13);
    r.push(10);
    assert(r@ =~= ok_reply());
    r
}

/// Encode a bulk-string reply.
pub fn encode_bulk(data: &Vec<u8>) -> (r: Vec<u8>)
    ensures
        r@ == bulk_reply(data@),
{
    let mut r: Vec<u8> = Vec::new();
    r.push(36);
    let d = u64_to_dec(data.len() as u64);
    push_all(&mut r, &d);
    r.push(13);
    r.push(10);
    push_all(&mut r, data);
    r.push(13);
    r.push(10);
    assert(r@ =~= bulk_reply(data@));
    r
}

/// Encode an array-of-bulk-strings reply.
pub fn encode_array(items: &Vec<Vec<u8>>) -> (r: Vec<u8>)
    ensures
        r@ == array_reply(views(items@)),
{
    let mut r: Vec<u8> = Vec::new();
    r.push(42);
    let d = u64_to_dec(items.len() as u64);
    push_all(&mut r, &d);
    r.push(13);
    r.push(10);
    assert(r@ =~= seq![42u8] + dec_digits(views(items@).len()) + crlf() + bulks_concat(
        views(items@),
        0,
    ));
    let mut i: usize = 0;
    while i < items.len()
        invariant
            i <= items@.len(),
            r@ == seq![42u8] + dec_digits(views(items@).len()) + crlf() + bulks_concat(
                views(items@),
                i as int,
            ),
        decreases items@.len() - i,
    {
        let b = encode_bulk(&items[i]);
        push_all(&mut r, &b);
        proof {
            assert(views(items@)[i as int] == items@[i as int]@);
            assert(r@ =~= seq![42u8] + dec_digits(views(items@).len()) + crlf() + bulks_concat(
                views(items@),
                i + 1,
            ));
        }
        i += 1;
    }
    r
}

} // verus!
