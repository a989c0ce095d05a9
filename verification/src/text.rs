//! Byte-string utilities shared by the decoder and the command engine:
//! ASCII case folding, decimal parsing and rendering.

use vstd::prelude::*;

verus! {

/// Lower-case a single ASCII byte; other bytes are unchanged.
pub open spec fn lower_byte(b: u8) -> u8 {
    if 65 <= b && b <= 90 {
        (b + 32) as u8
    } else {
        b
    }
}

/// ASCII case folding of a byte string.
pub open spec fn lower(s: Seq<u8>) -> Seq<u8> {
    s.map_values(|b: u8| lower_byte(b))
}

/// Lower-case one byte.
pub fn lower_byte_exec(b: u8) -> (r: u8)
    ensures
        r == lower_byte(b),
{
    if 65 <= b && b <= 90 {
        b + 32
    } else {
        b
    }
}

/// Case-insensitive comparison of a byte string against an
/// already-lower-case pattern.
pub fn eq_lower(a: &Vec<u8>, pat: &Vec<u8>) -> (r: bool)
    requires
        lower(pat@) == pat@,
    ensures
        r == (lower(a@) == pat@),
{
    if a.len() != pat.len() {
        assert(lower(a@).len() == a@.len());
        return false;
    }
    let mut i: usize = 0;
    while i < a.len()
        invariant
            i <= a.len(),
            a.len() == pat.len(),
            lower(pat@) == pat@,
            forall|j: int| 0 <= j < i ==> lower(a@)[j] == pat@[j],
        decreases a.len() - i,
    {
        if lower_byte_exec(a[i]) != pat[i] {
            assert(lower(a@)[i as int] == lower_byte(a@[i as int]));
            return false;
        }
        i += 1;
    }
    assert(lower(a@) =~= pat@);
    true
}

/// Whether a byte is an ASCII decimal digit.
pub open spec fn is_digit(b: u8) -> bool {
    48 <= b && b <= 57
}

/// All bytes of `s` in `[from, to)` are decimal digits.
pub open spec fn all_digits(s: Seq<u8>, from: int, to: int) -> bool {
    forall|i: int| from <= i < to ==> is_digit(#[trigger] s[i])
}

/// Value of the decimal digit run `s[from..to]`.
pub open spec fn digits_val(s: Seq<u8>, from: int, to: int) -> nat
    decreases to - from,
{
    if to <= from {
        0
    } else {
        digits_val(s, from, to - 1) * 10 + (s[to - 1] - 48) as nat
    }
}

/// Powers of ten.
pub open spec fn pow10(n: nat) -> nat
    decreases n,
{
    if n == 0 {
        1
    } else {
        10 * pow10((n - 1) as nat)
    }
}

/// A digit run of `n` digits denotes a value below `pow10(n)`.
pub proof fn lemma_digits_val_bound(s: Seq<u8>, from: int, to: int)
    requires
        from <= to,
        all_digits(s, from, to),
    ensures
        digits_val(s, from, to) < pow10((to - from) as nat),
    decreases to - from,
{
    if from < to {
        lemma_digits_val_bound(s, from, to - 1);
        assert(digits_val(s, from, to - 1) <= pow10((to - from - 1) as nat) - 1);
        assert((s[to - 1] - 48) as nat <= 9);
    }
}

/// Nineteen decimal digits always fit in a machine word.
pub proof fn lemma_pow10_19_bound()
    ensures
        pow10(19) < 0x1_0000_0000_0000_0000,
{
    reveal_with_fuel(pow10, 20);
    assert(pow10(19) == 10_000_000_000_000_000_000);
}

/// Maximum number of digits a decimal token may have and still be accepted.
pub open spec fn max_digits() -> nat {
    19
}

/// A byte string is a well-formed decimal number: one to nineteen digits.
pub open spec fn is_decimal(s: Seq<u8>) -> bool {
    1 <= s.len() <= max_digits() && all_digits(s, 0, s.len() as int)
}

/// Parse a whole byte string as a decimal number.
///
/// Returns `Some` exactly on well-formed decimal tokens (one to nineteen
/// digits); the bound keeps every accepted value inside a `u64`.
pub fn parse_u64(s: &Vec<u8>) -> (r: Option<u64>)
    ensures
        match r {
            Some(v) => is_decimal(s@) && v == digits_val(s@, 0, s@.len() as int),
            None => !is_decimal(s@),
        },
{
    if s.len() == 0 || s.len() > 19 {
        return None;
    }
    let mut acc: u64 = 0;
    let mut i: usize = 0;
    while i < s.len()
        invariant
            i <= s.len(),
            1 <= s.len() <= 19,
            all_digits(s@, 0, i as int),
            acc == digits_val(s@, 0, i as int),
            acc < pow10(i as nat),
        decreases s.len() - i,
    {
        let b = s[i];
        if b < 48 || b > 57 {
            return None;
        }
        proof {
            lemma_digits_val_bound(s@, 0, i + 1);
            lemma_pow10_19_bound();
            assert(pow10((i + 1) as nat) <= pow10(19)) by {
                lemma_pow10_increases((i + 1) as nat, 19);
            }
        }
        acc = acc * 10 + (b - 48) as u64;
        i += 1;
    }
    Some(acc)
}

/// `pow10` is monotone.
pub proof fn lemma_pow10_increases(a: nat, b: nat)
    requires
        a <= b,
    ensures
        pow10(a) <= pow10(b),
    decreases b,
{
    if a < b {
        lemma_pow10_increases(a, (b - 1) as nat);
        assert(pow10(b) == 10 * pow10((b - 1) as nat));
    }
}

/// Decimal rendering of a number, most significant digit first.
pub open spec fn dec_digits(n: nat) -> Seq<u8>
    decreases n,
{
    if n < 10 {
        seq![(48 + n) as u8]
    } else {
        dec_digits(n / 10).push((48 + n % 10) as u8)
    }
}

/// Render a number in decimal.
pub fn u64_to_dec(n: u64) -> (r: Vec<u8>)
    ensures
        r@ == dec_digits(n as nat),
    decreases n,
{
    if n < 10 {
        let mut v: Vec<u8> = Vec::new();
        v.push(48 + n as u8);
        assert(v@ =~= dec_digits(n as nat));
        v
    } else {
        let mut v = u64_to_dec(n / 10);
        v.push(48 + (n % 10) as u8);
        assert(v@ =~= dec_digits(n as nat));
        v
    }
}

/// The byte strings a sequence of owned byte vectors denotes.
pub open spec fn views(s: Seq<Vec<u8>>) -> Seq<Seq<u8>> {
    s.map_values(|v: Vec<u8>| v@)
}

/// A continuation byte of a multi-byte character.
pub open spec fn is_cont(b: u8) -> bool {
    0x80 <= b && b <= 0xBF
}

/// Allowed second byte of a three-byte character: the first byte rules out
/// over-long forms (`E0`) and surrogate code points (`ED`).
pub open spec fn cont2_ok(b0: u8, b1: u8) -> bool {
    if b0 == 0xE0 {
        0xA0 <= b1 && b1 <= 0xBF
    } else if b0 == 0xED {
        0x80 <= b1 && b1 <= 0x9F
    } else {
        is_cont(b1)
    }
}

/// Allowed second byte of a four-byte character: the first byte rules out
/// over-long forms (`F0`) and code points past the last plane (`F4`).
pub open spec fn cont3_ok(b0: u8, b1: u8) -> bool {
    if b0 == 0xF0 {
        0x90 <= b1 && b1 <= 0xBF
    } else if b0 == 0xF4 {
        0x80 <= b1 && b1 <= 0x8F
    } else {
        is_cont(b1)
    }
}

/// The byte string is well-formed UTF-8: one to four byte characters, no
/// over-long forms, no surrogates, nothing above the last code point.
pub open spec fn is_utf8(s: Seq<u8>) -> bool
    decreases s.len(),
{
    if s.len() == 0 {
        true
    } else {
        let b0 = s[0];
        if b0 < 0x80 {
            is_utf8(s.skip(1))
        } else if 0xC2 <= b0 && b0 <= 0xDF {
            s.len() >= 2 && is_cont(s[1]) && is_utf8(s.skip(2))
        } else if 0xE0 <= b0 && b0 <= 0xEF {
            s.len() >= 3 && cont2_ok(b0, s[1]) && is_cont(s[2]) && is_utf8(s.skip(3))
        } else if 0xF0 <= b0 && b0 <= 0xF4 {
            s.len() >= 4 && cont3_ok(b0, s[1]) && is_cont(s[2]) && is_cont(s[3]) && is_utf8(
                s.skip(4),
            )
        } else {
            false
        }
    }
}

/// Check that `buf[from..to]` is well-formed UTF-8.
pub fn utf8_valid(buf: &Vec<u8>, from: usize, to: usize) -> (r: bool)
    requires
        from <= to <= buf@.len(),
    ensures
        r == is_utf8(buf@.subrange(from as int, to as int)),
    decreases to - from,
{
    let ghost s = buf@.subrange(from as int, to as int);
    if from == to {
        return true;
    }
    let b0 = buf[from];
    assert(s[0] == b0);
    if b0 < 0x80 {
        let r = utf8_valid(buf, from + 1, to);
        assert(buf@.subrange(from + 1, to as int) =~= s.skip(1));
        r
    } else if 0xC2 <= b0 && b0 <= 0xDF {
        if to - from < 2 {
            return false;
        }
        let b1 = buf[from + 1];
        assert(s[1] == b1);
        if !(0x80 <= b1 && b1 <= 0xBF) {
            return false;
        }
        let r = utf8_valid(buf, from + 2, to);
        assert(buf@.subrange(from + 2, to as int) =~= s.skip(2));
        r
    } else if 0xE0 <= b0 && b0 <= 0xEF {
        if to - from < 3 {
            return false;
        }
        let b1 = buf[from + 1];
        let b2 = buf[from + 2];
        assert(s[1] == b1 && s[2] == b2);
        let ok1 = if b0 == 0xE0 {
            0xA0 <= b1 && b1 <= 0xBF
        } else if b0 == 0xED {
            0x80 <= b1 && b1 <= 0x9F
        } else {
            0x80 <= b1 && b1 <= 0xBF
        };
        if !ok1 || !(0x80 <= b2 && b2 <= 0xBF) {
            return false;
        }
        let r = utf8_valid(buf, from + 3, to);
        assert(buf@.subrange(from + 3, to as int) =~= s.skip(3));
        r
    } else if 0xF0 <= b0 && b0 <= 0xF4 {
        if to - from < 4 {
            return false;
        }
        let b1 = buf[from + 1];
        let b2 = buf[from + 2];
        let b3 = buf[from + 3];
        assert(s[1] == b1 && s[2] == b2 && s[3] == b3);
        let ok1 = if b0 == 0xF0 {
            0x90 <= b1 && b1 <= 0xBF
        } else if b0 == 0xF4 {
            0x80 <= b1 && b1 <= 0x8F
        } else {
            0x80 <= b1 && b1 <= 0xBF
        };
        if !ok1 || !(0x80 <= b2 && b2 <= 0xBF) || !(0x80 <= b3 && b3 <= 0xBF) {
            return false;
        }
        let r = utf8_valid(buf, from + 4, to);
        assert(buf@.subrange(from + 4, to as int) =~= s.skip(4));
        r
    } else {
        false
    }
}

/// Copy `buf[from..to]` into a fresh byte string.
pub fn copy_range(buf: &Vec<u8>, from: usize, to: usize) -> (r: Vec<u8>)
    requires
        from <= to <= buf@.len(),
    ensures
        r@ == buf@.subrange(from as int, to as int),
{
    let mut r: Vec<u8> = Vec::new();
    let mut i: usize = from;
    while i < to
        invariant
            from <= i <= to <= buf@.len(),
            r@ == buf@.subrange(from as int, i as int),
        decreases to - i,
    {
        r.push(buf[i]);
        assert(r@ =~= buf@.subrange(from as int, i + 1));
        i += 1;
    }
    r
}

/// Append all bytes of `src` to `dst`.
pub fn push_all(dst: &mut Vec<u8>, src: &Vec<u8>)
    ensures
        final(dst)@ == old(dst)@ + src@,
{
    let mut i: usize = 0;
    while i < src.len()
        invariant
            i <= src.len(),
            dst@ == old(dst)@ + src@.subrange(0, i as int),
        decreases src.len() - i,
    {
        dst.push(src[i]);
        assert(dst@ =~= old(dst)@ + src@.subrange(0, i + 1));
        i += 1;
    }
    assert(dst@ =~= old(dst)@ + src@);
}

} // verus!
