//! The snapshot decoder: turns the byte buffer of an on-disk dump into the
//! initial key-value mapping, discarding records whose expiry timestamp is
//! already in the past. The caller supplies the current wall-clock time in
//! both granularities, so decoding is a pure function of its arguments.

use vstd::prelude::*;

use crate::store::Store;
use crate::text::{copy_range, is_utf8, utf8_valid};

verus! {

/// The mapping a successful decode yields.
pub type Mapping = Map<Seq<u8>, Seq<u8>>;

/// Why a decode failed.
#[derive(Debug, PartialEq, Eq)]
pub enum DecodeError {
    /// The buffer does not begin with the magic marker.
    BadMagic,
    /// The buffer ended inside a record, or without the end-of-file marker.
    Truncated,
    /// A string used a length scheme other than the six-bit one.
    UnsupportedLength,
    /// A key or value (or the version marker) is not well-formed text.
    InvalidUtf8,
}

/// Marker for a byte string that failed the text well-formedness check.
pub struct Utf8Failure;

/// Turn a text-encoding failure into the decoder's error.
pub fn io_ify(_x: Utf8Failure) -> (r: DecodeError)
    ensures
        r == DecodeError::InvalidUtf8,
{
    DecodeError::InvalidUtf8
}

/// How the length prefix of a string is encoded, by the top two bits of its
/// first byte.
pub enum LenEncoding {
    /// `00`: the six low bits of this byte are the length.
    NextSixBits(u8),
    /// `01`: the six low bits and the following byte form the length.
    NextByte(u16),
    /// `10`: the following four bytes form the length.
    NextFourBytes(u32),
    /// `11`: a non-string encoding.
    SpecialFormat,
}

/// Granularity of an expiry timestamp.
pub enum ExpiryType {
    Seconds,
    Milliseconds,
}

/// Little-endian value of the `n` bytes at `pos`.
pub open spec fn le_val(s: Seq<u8>, pos: int, n: nat) -> nat
    decreases n,
{
    if n == 0 {
        0
    } else {
        (s[pos] + 256 * le_val(s, pos + 1, (n - 1) as nat)) as nat
    }
}

/// Powers of 256.
pub open spec fn pow256(n: nat) -> nat
    decreases n,
{
    if n == 0 {
        1
    } else {
        256 * pow256((n - 1) as nat)
    }
}

/// `n` bytes denote a value below `pow256(n)`.
pub proof fn lemma_le_val_bound(s: Seq<u8>, pos: int, n: nat)
    requires
        forall|i: int| pos <= i < pos + n ==> 0 <= #[trigger] s[i] < 256,
    ensures
        le_val(s, pos, n) < pow256(n),
    decreases n,
{
    if n > 0 {
        lemma_le_val_bound(s, pos + 1, (n - 1) as nat);
    }
}

/// Read the little-endian value of `buf[pos..pos + n]`.
pub fn le_bytes(buf: &Vec<u8>, pos: usize, n: usize) -> (r: u64)
    requires
        n <= 8,
        pos + n <= buf@.len(),
    ensures
        r == le_val(buf@, pos as int, n as nat),
{
    let blen: usize = buf.len();
    let mut acc: u64 = 0;
    let mut k: usize = n;
    while k > 0
        invariant
            k <= n <= 8,
            blen == buf@.len(),
            pos + n <= blen,
            acc == le_val(buf@, pos + k, (n - k) as nat),
            acc < pow256((n - k) as nat),
        decreases k,
    {
        proof {
            reveal_with_fuel(pow256, 9);
            lemma_pow256_increases((n - k + 1) as nat, 8);
            assert(pow256(8) == 0x1_0000_0000_0000_0000);
        }
        acc = acc * 256 + buf[pos + k - 1] as u64;
        k -= 1;
    }
    acc
}

/// `pow256` is monotone.
pub proof fn lemma_pow256_increases(a: nat, b: nat)
    requires
        a <= b,
    ensures
        pow256(a) <= pow256(b),
    decreases b,
{
    if a < b {
        lemma_pow256_increases(a, (b - 1) as nat);
    }
}

/// The length encoding found at `pos`, exactly as the decoder reads it.
pub open spec fn len_enc_at(s: Seq<u8>, pos: int) -> Result<LenEncoding, DecodeError> {
    if pos >= s.len() {
        Err(DecodeError::Truncated)
    } else {
        let b = s[pos];
        let e = b & 0xC0;
        if e == 0x00 {
            Ok(LenEncoding::NextSixBits(b))
        } else if e == 0x40 {
            if pos + 2 > s.len() {
                Err(DecodeError::Truncated)
            } else {
                Ok(LenEncoding::NextByte((((b & 0x3F) + 256 * s[pos + 1]) as u16)))
            }
        } else if e == 0x80 {
            if pos + 5 > s.len() {
                Err(DecodeError::Truncated)
            } else {
                Ok(LenEncoding::NextFourBytes(le_val(s, pos + 1, 4) as u32))
            }
        } else {
            Ok(LenEncoding::SpecialFormat)
        }
    }
}

/// Read the length encoding whose first byte sits at `pos`.
pub fn get_string_encoded_len(buf: &Vec<u8>, pos: usize) -> (r: Result<LenEncoding, DecodeError>)
    ensures
        r == len_enc_at(buf@, pos as int),
{
    if pos >= buf.len() {
        return Err(DecodeError::Truncated);
    }
    let b = buf[pos];
    let e = b & 0xC0;
    if e == 0x00 {
        Ok(LenEncoding::NextSixBits(b))
    } else if e == 0x40 {
        if buf.len() - pos < 2 {
            return Err(DecodeError::Truncated);
        }
        let low = b & 0x3F;
        let v: u16 = low as u16 + 256 * (buf[pos + 1] as u16);
        assert(low < 64) by (bit_vector)
            requires
                low == b & 0x3F,
        ;
        Ok(LenEncoding::NextByte(v))
    } else if e == 0x80 {
        if buf.len() - pos < 5 {
            return Err(DecodeError::Truncated);
        }
        let v = le_bytes(buf, pos + 1, 4);
        proof {
            lemma_le_val_bound(buf@, pos + 1, 4);
            reveal_with_fuel(pow256, 5);
        }
        Ok(LenEncoding::NextFourBytes(v as u32))
    } else {
        Ok(LenEncoding::SpecialFormat)
    }
}

/// What reading an expiry marker at `pos` yields: whether the following
/// record is kept (its timestamp is still in the future), and the position
/// just past the timestamp.
pub open spec fn expiry_at(
    s: Seq<u8>,
    pos: int,
    t: ExpiryType,
    now_s: u64,
    now_ms: u64,
) -> Result<(bool, int), DecodeError> {
    match t {
        ExpiryType::Seconds => if pos + 5 > s.len() {
            Err(DecodeError::Truncated)
        } else {
            Ok((le_val(s, pos + 1, 4) > now_s, pos + 5))
        },
        ExpiryType::Milliseconds => if pos + 9 > s.len() {
            Err(DecodeError::Truncated)
        } else {
            Ok((le_val(s, pos + 1, 8) > now_ms, pos + 9))
        },
    }
}

/// Read the expiry timestamp whose marker byte sits at `pos` and decide
/// whether the record that follows is kept.
pub fn load_expiry(
    buf: &Vec<u8>,
    pos: usize,
    expiry_type: ExpiryType,
    now_s: u64,
    now_ms: u64,
) -> (r: Result<(bool, usize), DecodeError>)
    ensures
        match expiry_at(buf@, pos as int, expiry_type, now_s, now_ms) {
            Ok(p) => r is Ok && r->Ok_0.0 == p.0 && r->Ok_0.1 == p.1,
            Err(e) => r == Err::<(bool, usize), DecodeError>(e),
        },
{
    match expiry_type {
        ExpiryType::Seconds => {
            if pos >= buf.len() || buf.len() - pos < 5 {
                return Err(DecodeError::Truncated);
            }
            let ts = le_bytes(buf, pos + 1, 4);
            Ok((ts > now_s, pos + 5))
        },
        ExpiryType::Milliseconds => {
            if pos >= buf.len() || buf.len() - pos < 9 {
                return Err(DecodeError::Truncated);
            }
            let ts = le_bytes(buf, pos + 1, 8);
            Ok((ts > now_ms, pos + 9))
        },
    }
}

/// The mapping denoted by the record section of a snapshot, read from `pos`:
/// an optional expiry marker before a record decides whether that record is
/// inserted; every record is parsed either way; a record for a key that
/// appears again later is shadowed by the later one; the section must end
/// with the end-of-file marker.
pub open spec fn parse_records_at(
    s: Seq<u8>,
    pos: int,
    save: bool,
    now_s: u64,
    now_ms: u64,
) -> Result<Mapping, DecodeError>
    decreases s.len() - pos,
{
    if pos < 0 || pos >= s.len() {
        Err(DecodeError::Truncated)
    } else if s[pos] == 0xFF {
        Ok(Map::empty())
    } else if s[pos] == 0xFD {
        match expiry_at(s, pos, ExpiryType::Seconds, now_s, now_ms) {
            Ok(p) => parse_records_at(s, p.1, p.0, now_s, now_ms),
            Err(e) => Err(e),
        }
    } else if s[pos] == 0xFC {
        match expiry_at(s, pos, ExpiryType::Milliseconds, now_s, now_ms) {
            Ok(p) => parse_records_at(s, p.1, p.0, now_s, now_ms),
            Err(e) => Err(e),
        }
    } else {
        // Any other byte is the value-type tag of a record; only
        // string-valued records are in scope, with six-bit lengths.
        match len_enc_at(s, pos + 1) {
            Err(e) => Err(e),
            Ok(LenEncoding::NextSixBits(kl)) => {
                let key_end = pos + 2 + kl;
                if key_end > s.len() {
                    Err(DecodeError::Truncated)
                } else {
                    let key = s.subrange(pos + 2, key_end);
                    if !is_utf8(key) {
                        Err(DecodeError::InvalidUtf8)
                    } else {
                        match len_enc_at(s, key_end) {
                            Err(e) => Err(e),
                            Ok(LenEncoding::NextSixBits(vl)) => {
                                let val_end = key_end + 1 + vl;
                                if val_end > s.len() {
                                    Err(DecodeError::Truncated)
                                } else {
                                    let value = s.subrange(key_end + 1, val_end);
                                    if !is_utf8(value) {
                                        Err(DecodeError::InvalidUtf8)
                                    } else {
                                        match parse_records_at(s, val_end, true, now_s, now_ms) {
                                            Err(e) => Err(e),
                                            Ok(m) => Ok(
                                                if save && !m.contains_key(key) {
                                                    m.insert(key, value)
                                                } else {
                                                    m
                                                },
                                            ),
                                        }
                                    }
                                }
                            },
                            Ok(_) => Err(DecodeError::UnsupportedLength),
                        }
                    }
                }
            },
            Ok(_) => Err(DecodeError::UnsupportedLength),
        }
    }
}

/// Inserting a record first and merging later records over it is the same
/// as merging the record section's own mapping, where later records win.
proof fn lemma_merge_insert(base: Mapping, m: Mapping, k: Seq<u8>, v: Seq<u8>)
    ensures
        base.insert(k, v).union_prefer_right(m) == base.union_prefer_right(
            if !m.contains_key(k) {
                m.insert(k, v)
            } else {
                m
            },
        ),
{
    let rhs_m = if !m.contains_key(k) {
        m.insert(k, v)
    } else {
        m
    };
    assert(base.insert(k, v).union_prefer_right(m) =~= base.union_prefer_right(rhs_m));
}

/// Decode the record section at `pos` into `db`, inserting over what is
/// already there; records already in `db` are overwritten by the snapshot.
pub fn load_key_values(
    buf: &Vec<u8>,
    pos: usize,
    db: &mut Store,
    save: bool,
    now_s: u64,
    now_ms: u64,
) -> (r: Result<(), DecodeError>)
    requires
        old(db).wf(),
    ensures
        final(db).wf(),
        match parse_records_at(buf@, pos as int, save, now_s, now_ms) {
            Ok(m) => r is Ok && final(db)@ == old(db)@.union_prefer_right(m),
            Err(e) => r == Err::<(), DecodeError>(e),
        },
    decreases buf@.len() - pos,
{
    if pos >= buf.len() {
        return Err(DecodeError::Truncated);
    }
    let b = buf[pos];
    if b == 0xFF {
        proof {
            assert(old(db)@.union_prefer_right(Map::empty()) =~= old(db)@);
        }
        return Ok(());
    }
    if b == 0xFD {
        return match load_expiry(buf, pos, ExpiryType::Seconds, now_s, now_ms) {
            Ok((keep, np)) => load_key_values(buf, np, db, keep, now_s, now_ms),
            Err(e) => Err(e),
        };
    }
    if b == 0xFC {
        return match load_expiry(buf, pos, ExpiryType::Milliseconds, now_s, now_ms) {
            Ok((keep, np)) => load_key_values(buf, np, db, keep, now_s, now_ms),
            Err(e) => Err(e),
        };
    }
    let kl = match get_string_encoded_len(buf, pos + 1) {
        Ok(LenEncoding::NextSixBits(l)) => l as usize,
        Ok(_) => {
            return Err(DecodeError::UnsupportedLength);
        },
        Err(e) => {
            return Err(e);
        },
    };
    if kl > buf.len() - (pos + 2) {
        return Err(DecodeError::Truncated);
    }
    let key_end = pos + 2 + kl;
    if !utf8_valid(buf, pos + 2, key_end) {
        return Err(DecodeError::InvalidUtf8);
    }
    let key = copy_range(buf, pos + 2, key_end);
    let vl = match get_string_encoded_len(buf, key_end) {
        Ok(LenEncoding::NextSixBits(l)) => l as usize,
        Ok(_) => {
            return Err(DecodeError::UnsupportedLength);
        },
        Err(e) => {
            return Err(e);
        },
    };
    if vl > buf.len() - (key_end + 1) {
        return Err(DecodeError::Truncated);
    }
    let val_end = key_end + 1 + vl;
    if !utf8_valid(buf, key_end + 1, val_end) {
        return Err(DecodeError::InvalidUtf8);
    }
    let value = copy_range(buf, key_end + 1, val_end);
    let ghost key_s = key@;
    let ghost value_s = value@;
    let ghost mid: Mapping = if save {
        old(db)@.insert(key_s, value_s)
    } else {
        old(db)@
    };
    if save {
        let _ = db.set(key, value);
    }
    assert(db@ == mid);
    let r = load_key_values(buf, val_end, db, true, now_s, now_ms);
    proof {
        match parse_records_at(buf@, val_end as int, true, now_s, now_ms) {
            Ok(m) => {
                if save {
                    lemma_merge_insert(old(db)@, m, key_s, value_s);
                }
            },
            Err(_) => {},
        }
    }
    r
}

/// The five-byte magic marker every snapshot begins with.
pub open spec fn magic() -> Seq<u8> {
    seq![82u8, 69u8, 68u8, 73u8, 83u8]
}

/// Index of the last occurrence of the database-selector marker, or -1.
pub open spec fn last_selector(s: Seq<u8>) -> int
    decreases s.len(),
{
    if s.len() == 0 {
        -1
    } else if s[s.len() - 1] == 0xFE {
        s.len() - 1
    } else {
        last_selector(s.drop_last())
    }
}

/// The mapping denoted by a whole snapshot: the magic marker, a version
/// marker, everything up to and including the four bytes after the last
/// database-selector byte skipped, then the record section.
pub open spec fn decode_spec(s: Seq<u8>, now_s: u64, now_ms: u64) -> Result<Mapping, DecodeError> {
    if s.len() < 5 {
        Err(DecodeError::Truncated)
    } else if s.subrange(0, 5) != magic() {
        Err(DecodeError::BadMagic)
    } else if s.len() < 9 {
        Err(DecodeError::Truncated)
    } else if !is_utf8(s.subrange(5, 9)) {
        Err(DecodeError::InvalidUtf8)
    } else {
        let start = last_selector(s) + 5;
        if start > s.len() {
            Err(DecodeError::Truncated)
        } else {
            parse_records_at(s, start, true, now_s, now_ms)
        }
    }
}

/// Decode a snapshot buffer into a fresh store.
///
/// `now_s` and `now_ms` are the current wall-clock time, in seconds and in
/// milliseconds since the epoch; a record whose pending expiry timestamp is
/// not strictly greater than the current time (in matching units) is parsed
/// but left out of the result.
pub fn load_db(bytes: &Vec<u8>, now_s: u64, now_ms: u64) -> (r: Result<Store, DecodeError>)
    ensures
        match r {
            Ok(st) => st.wf() && decode_spec(bytes@, now_s, now_ms) == Ok::<Mapping, DecodeError>(
                st@,
            ),
            Err(e) => decode_spec(bytes@, now_s, now_ms) == Err::<Mapping, DecodeError>(e),
        },
{
    if bytes.len() < 5 {
        return Err(DecodeError::Truncated);
    }
    if !(bytes[0] == 82 && bytes[1] == 69 && bytes[2] == 68 && bytes[3] == 73 && bytes[4] == 83) {
        proof {
            assert(bytes@.subrange(0, 5) != magic());
        }
        return Err(DecodeError::BadMagic);
    }
    proof {
        assert(bytes@.subrange(0, 5) =~= magic());
    }
    if bytes.len() < 9 {
        return Err(DecodeError::Truncated);
    }
    if !utf8_valid(bytes, 5, 9) {
        return Err(io_ify(Utf8Failure));
    }
    // The four size-hint bytes after the last database-selector marker are
    // skipped; with no marker the section is taken to start at offset 4.
    let mut place: usize = 0;
    let mut i: usize = 0;
    while i < bytes.len()
        invariant
            i <= bytes@.len(),
            place == last_selector(bytes@.take(i as int)) + 1,
            place <= i,
        decreases bytes@.len() - i,
    {
        proof {
            assert(bytes@.take(i + 1).drop_last() =~= bytes@.take(i as int));
            assert(bytes@.take(i + 1).last() == bytes@[i as int]);
        }
        if bytes[i] == 0xFE {
            place = i + 1;
        }
        i += 1;
    }
    proof {
        assert(bytes@.take(bytes@.len() as int) =~= bytes@);
    }
    if bytes.len() - place < 4 {
        return Err(DecodeError::Truncated);
    }
    let start = place + 4;
    let mut db = Store::new();
    match load_key_values(bytes, start, &mut db, true, now_s, now_ms) {
        Ok(()) => {
            proof {
                match parse_records_at(bytes@, start as int, true, now_s, now_ms) {
                    Ok(m) => {
                        assert(Map::<Seq<u8>, Seq<u8>>::empty().union_prefer_right(m) =~= m);
                    },
                    Err(_) => {},
                }
            }
            Ok(db)
        },
        Err(e) => Err(e),
    }
}

/// Law: a record whose key length uses the 14-bit, the 32-bit or the
/// special scheme makes the decode fail with the unsupported-length error
/// (given the scheme's own bytes are present, so the failure is the scheme
/// and not truncation), never a corrupted mapping.
pub proof fn lemma_unsupported_length(s: Seq<u8>, pos: int, save: bool, now_s: u64, now_ms: u64)
    requires
        0 <= pos < s.len(),
        s[pos] != 0xFF && s[pos] != 0xFD && s[pos] != 0xFC,
        pos + 1 < s.len(),
        s[pos + 1] & 0xC0 != 0,
        s[pos + 1] & 0xC0 == 0x40 ==> pos + 3 <= s.len(),
        s[pos + 1] & 0xC0 == 0x80 ==> pos + 6 <= s.len(),
    ensures
        parse_records_at(s, pos, save, now_s, now_ms) == Err::<Mapping, DecodeError>(
            DecodeError::UnsupportedLength,
        ),
{
    let b = s[pos + 1];
    assert(b & 0xC0 == 0 || b & 0xC0 == 0x40 || b & 0xC0 == 0x80 || b & 0xC0 == 0xC0)
        by (bit_vector);
}

/// Law: an expiry marker only decides whether the record after it is kept:
/// the section starting at the marker denotes exactly what the section
/// after the marker and its timestamp denotes, with the keep flag true
/// exactly when the timestamp is still in the future.
pub proof fn lemma_expiry_marker(s: Seq<u8>, pos: int, save: bool, now_s: u64, now_ms: u64)
    requires
        0 <= pos < s.len(),
    ensures
        s[pos] == 0xFD && pos + 5 <= s.len() ==> parse_records_at(s, pos, save, now_s, now_ms)
            == parse_records_at(s, pos + 5, le_val(s, pos + 1, 4) > now_s, now_s, now_ms),
        s[pos] == 0xFC && pos + 9 <= s.len() ==> parse_records_at(s, pos, save, now_s, now_ms)
            == parse_records_at(s, pos + 9, le_val(s, pos + 1, 8) > now_ms, now_s, now_ms),
{
}

/// Law: a well-formed record is parsed whether or not it is kept — the
/// records after it are decoded from the same position either way — and
/// when it is kept its key is in the result; when it is dropped (an expiry
/// in the past) and no later record carries its key, the key is absent.
pub proof fn lemma_record_kept_or_dropped(
    s: Seq<u8>,
    pos: int,
    save: bool,
    now_s: u64,
    now_ms: u64,
)
    requires
        0 <= pos < s.len(),
        s[pos] != 0xFF && s[pos] != 0xFD && s[pos] != 0xFC,
        pos + 1 < s.len(),
        s[pos + 1] & 0xC0 == 0,
        pos + 2 + s[pos + 1] < s.len(),
        is_utf8(s.subrange(pos + 2, pos + 2 + s[pos + 1])),
        s[pos + 2 + s[pos + 1]] & 0xC0 == 0,
        pos + 3 + s[pos + 1] + s[pos + 2 + s[pos + 1]] <= s.len(),
        is_utf8(
            s.subrange(
                pos + 3 + s[pos + 1],
                pos + 3 + s[pos + 1] + s[pos + 2 + s[pos + 1]],
            ),
        ),
    ensures
        ({
            let kl = s[pos + 1];
            let key = s.subrange(pos + 2, pos + 2 + kl);
            let vl = s[pos + 2 + kl];
            let value = s.subrange(pos + 3 + kl, pos + 3 + kl + vl);
            let d = parse_records_at(s, pos, save, now_s, now_ms);
            match parse_records_at(s, pos + 3 + kl + vl, true, now_s, now_ms) {
                Ok(m) => {
                    &&& d == Ok::<Mapping, DecodeError>(
                        if save && !m.contains_key(key) {
                            m.insert(key, value)
                        } else {
                            m
                        },
                    )
                    &&& (save ==> d->Ok_0.contains_key(key))
                    &&& (!save && !m.contains_key(key) ==> !d->Ok_0.contains_key(key))
                },
                Err(e) => d == Err::<Mapping, DecodeError>(e),
            }
        }),
{
}

/// The canonical encoding of one never-expiring record: the string value
/// type tag, the six-bit key length, the key, the six-bit value length,
/// the value.
pub open spec fn plain_record(key: Seq<u8>, value: Seq<u8>) -> Seq<u8> {
    seq![0u8] + seq![key.len() as u8] + key + seq![value.len() as u8] + value
}

/// The canonical record section holding a batch of never-expiring records,
/// ended by the end-of-file marker.
pub open spec fn plain_records(recs: Seq<(Seq<u8>, Seq<u8>)>) -> Seq<u8>
    decreases recs.len(),
{
    if recs.len() == 0 {
        seq![0xFFu8]
    } else {
        plain_record(recs[0].0, recs[0].1) + plain_records(recs.skip(1))
    }
}

/// A well-formed batch: keys and values short enough for the six-bit
/// scheme and well-formed text, keys pairwise distinct.
pub open spec fn wf_records(recs: Seq<(Seq<u8>, Seq<u8>)>) -> bool {
    &&& forall|i: int|
        0 <= i < recs.len() ==> (#[trigger] recs[i]).0.len() <= 63 && recs[i].1.len() <= 63
            && is_utf8(recs[i].0) && is_utf8(recs[i].1)
    &&& forall|i: int, j: int| 0 <= i < j < recs.len() ==> recs[i].0 != recs[j].0
}

/// The mapping a batch of records denotes.
pub open spec fn records_map(recs: Seq<(Seq<u8>, Seq<u8>)>) -> Mapping
    decreases recs.len(),
{
    if recs.len() == 0 {
        Map::empty()
    } else {
        records_map(recs.skip(1)).insert(recs[0].0, recs[0].1)
    }
}

/// A key is in a batch's mapping exactly when some record carries it.
pub proof fn lemma_records_map_contains(recs: Seq<(Seq<u8>, Seq<u8>)>, k: Seq<u8>)
    ensures
        records_map(recs).contains_key(k) <==> exists|i: int|
            0 <= i < recs.len() && recs[i].0 == k,
    decreases recs.len(),
{
    if recs.len() > 0 {
        lemma_records_map_contains(recs.skip(1), k);
        if recs[0].0 == k {
        } else {
            if exists|i: int| 0 <= i < recs.len() && recs[i].0 == k {
                let i = choose|i: int| 0 <= i < recs.len() && recs[i].0 == k;
                assert(recs.skip(1)[i - 1] == recs[i]);
            }
            if exists|i: int| 0 <= i < recs.skip(1).len() && recs.skip(1)[i].0 == k {
                let i = choose|i: int| 0 <= i < recs.skip(1).len() && recs.skip(1)[i].0 == k;
                assert(recs[i + 1] == recs.skip(1)[i]);
            }
        }
    }
}

/// Law: decoding the canonical record section of a well-formed batch of
/// never-expiring records, wherever it stands in the buffer, succeeds and
/// yields exactly the batch's mapping: those keys, those values.
#[verifier::rlimit(60)]
#[verifier::spinoff_prover]
pub proof fn lemma_round_trip(
    s: Seq<u8>,
    pos: int,
    recs: Seq<(Seq<u8>, Seq<u8>)>,
    now_s: u64,
    now_ms: u64,
)
    requires
        wf_records(recs),
        0 <= pos <= s.len(),
        s.subrange(pos, s.len() as int) == plain_records(recs),
    ensures
        parse_records_at(s, pos, true, now_s, now_ms) == Ok::<Mapping, DecodeError>(
            records_map(recs),
        ),
    decreases recs.len(),
{
    let t = plain_records(recs);
    assert(forall|i: int| 0 <= i < t.len() ==> s[pos + i] == #[trigger] t[i]) by {
        assert(forall|i: int|
            0 <= i < t.len() ==> s.subrange(pos, s.len() as int)[i] == #[trigger] t[i]);
    }
    if recs.len() == 0 {
        assert(t[0] == 0xFF);
        assert(s[pos] == t[0]);
        assert(records_map(recs) =~= Map::<Seq<u8>, Seq<u8>>::empty());
    } else {
        let k = recs[0].0;
        let v = recs[0].1;
        let kl = k.len() as int;
        let vl = v.len() as int;
        let pr = plain_record(k, v);
        let rest = recs.skip(1);
        let tail = plain_records(rest);
        assert(t == pr + tail);
        assert(pr.len() == kl + vl + 3);
        assert(tail.len() >= 1) by {
            if rest.len() == 0 {
            } else {
                assert(plain_records(rest) == plain_record(rest[0].0, rest[0].1) + plain_records(
                    rest.skip(1),
                ));
            }
        }
        assert(t.len() == pr.len() + tail.len());
        let kb = k.len() as u8;
        let vb = v.len() as u8;
        assert(t[0] == 0u8);
        assert(s[pos] == t[0]);
        assert(t[1] == kb);
        assert(s[pos + 1] == t[1]);
        assert(kb & 0xC0 == 0) by (bit_vector)
            requires
                kb < 64,
        ;
        assert(len_enc_at(s, pos + 1) == Ok::<LenEncoding, DecodeError>(
            LenEncoding::NextSixBits(kb),
        ));
        let key_end = pos + 2 + kl;
        assert forall|i: int| 0 <= i < kl implies s[pos + 2 + i] == #[trigger] k[i] by {
            assert(s[pos + 2 + i] == t[2 + i]);
            assert(t[2 + i] == k[i]);
        }
        assert(s.subrange(pos + 2, key_end) =~= k);
        assert(t[2 + kl] == vb);
        assert(s[key_end] == t[2 + kl]);
        assert(vb & 0xC0 == 0) by (bit_vector)
            requires
                vb < 64,
        ;
        assert(key_end < s.len());
        assert(len_enc_at(s, key_end) == Ok::<LenEncoding, DecodeError>(
            LenEncoding::NextSixBits(vb),
        ));
        let val_end = key_end + 1 + vl;
        assert(val_end <= s.len());
        assert forall|i: int| 0 <= i < vl implies s[pos + 3 + kl + i] == #[trigger] v[i] by {
            assert(s[pos + 3 + kl + i] == t[3 + kl + i]);
            assert(t[3 + kl + i] == v[i]);
        }
        assert(s.subrange(key_end + 1, val_end) =~= v);
        assert(wf_records(rest)) by {
            assert(forall|i: int| 0 <= i < rest.len() ==> #[trigger] rest[i] == recs[i + 1]);
        }
        assert forall|i: int| 0 <= i < tail.len() implies s[val_end + i] == #[trigger] tail[i] by {
            assert(s[val_end + i] == s[pos + ((kl + vl + 3) + i)]);
            assert(s[pos + ((kl + vl + 3) + i)] == t[(kl + vl + 3) + i]);
            assert(t[(kl + vl + 3) + i] == tail[i]);
        }
        assert(s.subrange(val_end, s.len() as int) =~= tail);
        lemma_round_trip(s, val_end, rest, now_s, now_ms);
        lemma_records_map_contains(rest, k);
        assert(!records_map(rest).contains_key(k)) by {
            assert(forall|i: int| 0 <= i < rest.len() ==> #[trigger] rest[i] == recs[i + 1]);
        }
        assert(parse_records_at(s, pos, true, now_s, now_ms) == Ok::<Mapping, DecodeError>(
            records_map(rest).insert(k, v),
        ));
    }
}

} // verus!
