//! Canonical binary encodings.
//!
//! All fixed-width and variable-length-prefixed byte forms produced by the
//! argument encoder must match the ledger's canonical binary serialization
//! bit for bit. The spec functions here state those byte forms; the
//! executable encodings are obtained by calling the canonical serializer
//! itself through the trusted wrappers at the bottom of this file, never by
//! reimplementing it.

use vstd::prelude::*;

verus! {

/// Little-endian base-256 digits of `n`, exactly `len` bytes
/// (higher digits beyond `len` are discarded).
pub open spec fn le_bytes(n: nat, len: nat) -> Seq<u8>
    decreases len,
{
    if len == 0 {
        Seq::empty()
    } else {
        seq![(n % 256) as u8] + le_bytes(n / 256, (len - 1) as nat)
    }
}

/// The canonical variable-length encoding of a sequence length: seven bits
/// per byte, least significant group first, high bit set on every byte but
/// the last.
pub open spec fn uleb128(n: nat) -> Seq<u8>
    decreases n,
{
    if n < 128 {
        seq![n as u8]
    } else {
        seq![(n % 128 + 128) as u8] + uleb128(n / 128)
    }
}

/// The canonical one-byte form of a boolean.
pub open spec fn bool_byte(v: bool) -> Seq<u8> {
    if v {
        seq![1u8]
    } else {
        seq![0u8]
    }
}

/// Sequence lengths above this bound are refused by the canonical serializer.
pub const MAX_SEQUENCE_LENGTH: usize = 0x7fff_ffff;

/// Whether a byte is an ASCII hexadecimal digit, either case.
pub open spec fn is_hex_digit(b: u8) -> bool {
    (48 <= b && b <= 57) || (97 <= b && b <= 102) || (65 <= b && b <= 70)
}

/// The value of an ASCII hexadecimal digit (0 for non-digits).
pub open spec fn hex_digit_value(b: u8) -> u8 {
    if 48 <= b && b <= 57 {
        (b - 48) as u8
    } else if 97 <= b && b <= 102 {
        (b - 97 + 10) as u8
    } else if 65 <= b && b <= 70 {
        (b - 65 + 10) as u8
    } else {
        0u8
    }
}

/// Whether every byte of `s` is a hexadecimal digit.
pub open spec fn all_hex_digits(s: Seq<u8>) -> bool {
    forall|i: int| 0 <= i < s.len() ==> is_hex_digit(#[trigger] s[i])
}

/// The bytes denoted by a sequence of hexadecimal digit pairs, two digits
/// per byte, most significant digit first.
pub open spec fn hex_pairs(s: Seq<u8>) -> Seq<u8> {
    Seq::new(s.len() / 2, |i: int| (hex_digit_value(s[2 * i]) * 16 + hex_digit_value(s[2 * i + 1])) as u8)
}

/// ASCII lowercasing of one byte; other bytes are unchanged.
pub open spec fn ascii_lower(b: u8) -> u8 {
    if 65 <= b && b <= 90 {
        (b + 32) as u8
    } else {
        b
    }
}

/// ASCII lowercasing of a byte string.
pub open spec fn lower_seq(s: Seq<u8>) -> Seq<u8> {
    s.map_values(|b: u8| ascii_lower(b))
}

/// Whether a byte is ASCII whitespace (space, tab, line feed, vertical
/// tab, form feed, carriage return).
pub open spec fn is_ascii_whitespace(b: u8) -> bool {
    b == 32 || (9 <= b && b <= 13)
}

/// `s` without its leading ASCII whitespace.
pub open spec fn trim_front(s: Seq<u8>) -> Seq<u8>
    decreases s.len(),
{
    if s.len() > 0 && is_ascii_whitespace(s[0]) {
        trim_front(s.skip(1))
    } else {
        s
    }
}

/// `s` without its trailing ASCII whitespace.
pub open spec fn trim_back(s: Seq<u8>) -> Seq<u8>
    decreases s.len(),
{
    if s.len() > 0 && is_ascii_whitespace(s[s.len() - 1]) {
        trim_back(s.take(s.len() - 1))
    } else {
        s
    }
}

/// `s` without leading or trailing ASCII whitespace.
pub open spec fn trimmed(s: Seq<u8>) -> Seq<u8> {
    trim_back(trim_front(s))
}

/// Whether `s` starts with the hexadecimal marker `0x`.
pub open spec fn has_hex_prefix(s: Seq<u8>) -> bool {
    s.len() >= 2 && s[0] == 48 && s[1] == 120
}

/// `s` with every leading occurrence of the marker `0x` removed.
pub open spec fn strip_hex_prefixes(s: Seq<u8>) -> Seq<u8>
    decreases s.len(),
{
    if has_hex_prefix(s) {
        strip_hex_prefixes(s.skip(2))
    } else {
        s
    }
}

fn trim_front_slice(s: &[u8]) -> (r: &[u8])
    ensures
        r@ == trim_front(s@),
    decreases s@.len(),
{
    if s.len() > 0 && (s[0] == 32 || (9 <= s[0] && s[0] <= 13)) {
        trim_front_slice(vstd::slice::slice_subrange(s, 1, s.len()))
    } else {
        s
    }
}

fn trim_back_slice(s: &[u8]) -> (r: &[u8])
    ensures
        r@ == trim_back(s@),
    decreases s@.len(),
{
    let n = s.len();
    if n > 0 && (s[n - 1] == 32 || (9 <= s[n - 1] && s[n - 1] <= 13)) {
        trim_back_slice(vstd::slice::slice_subrange(s, 0, n - 1))
    } else {
        s
    }
}

/// `s` with every leading `0x` marker removed.
pub(crate) fn strip_hex_prefixes_slice(s: &[u8]) -> (r: &[u8])
    ensures
        r@ == strip_hex_prefixes(s@),
    decreases s@.len(),
{
    if s.len() >= 2 && s[0] == 48 && s[1] == 120 {
        strip_hex_prefixes_slice(vstd::slice::slice_subrange(s, 2, s.len()))
    } else {
        s
    }
}

/// ASCII-trims both ends of `s`, then lowercases it.
pub(crate) fn trim_and_lower(s: &[u8]) -> (r: Vec<u8>)
    ensures
        r@ == lower_seq(trimmed(s@)),
{
    let t = trim_back_slice(trim_front_slice(s));
    let mut r: Vec<u8> = Vec::new();
    let mut i: usize = 0;
    while i < t.len()
        invariant
            i <= t@.len(),
            r@.len() == i,
            forall|j: int| 0 <= j < i ==> r@[j] == ascii_lower(t@[j]),
        decreases t@.len() - i,
    {
        let b = t[i];
        if 65 <= b && b <= 90 {
            r.push(b + 32);
        } else {
            r.push(b);
        }
        i += 1;
    }
    proof {
        assert(r@ =~= lower_seq(t@));
    }
    r
}

/// Whether a byte is an ASCII decimal digit.
pub open spec fn is_dec_digit(b: u8) -> bool {
    48 <= b && b <= 57
}

/// Whether every byte of `s` is a decimal digit.
pub open spec fn all_dec_digits(s: Seq<u8>) -> bool {
    forall|i: int| 0 <= i < s.len() ==> is_dec_digit(#[trigger] s[i])
}

/// The value of an ASCII decimal digit (0 for non-digits).
pub open spec fn dec_digit_value(b: u8) -> u8 {
    if 48 <= b && b <= 57 {
        (b - 48) as u8
    } else {
        0u8
    }
}

/// The unsigned integer denoted by a sequence of decimal digits, most
/// significant first.
pub open spec fn dec_value(s: Seq<u8>) -> nat
    decreases s.len(),
{
    if s.len() == 0 {
        0
    } else {
        dec_value(s.take(s.len() - 1)) * 10 + dec_digit_value(s[s.len() - 1]) as nat
    }
}

/// The unsigned integer denoted by a sequence of hexadecimal digits, most
/// significant first.
pub open spec fn hex_value(s: Seq<u8>) -> nat
    decreases s.len(),
{
    if s.len() == 0 {
        0
    } else {
        hex_value(s.take(s.len() - 1)) * 16 + hex_digit_value(s[s.len() - 1]) as nat
    }
}

/// `s` without one optional leading plus sign, as the canonical integer
/// parser accepts.
pub open spec fn sign_stripped(s: Seq<u8>) -> Seq<u8> {
    if s.len() > 0 && s[0] == 43 {
        s.skip(1)
    } else {
        s
    }
}

/// Whether `s` parses as an unsigned 128-bit decimal integer: an optional
/// plus sign, then at least one decimal digit, denoting a value below
/// 2^128.
pub open spec fn dec_parses_u128(s: Seq<u8>) -> bool {
    let d = sign_stripped(s);
    d.len() > 0 && all_dec_digits(d) && dec_value(d) < 0x1_0000_0000_0000_0000_0000_0000_0000_0000
}

/// Whether `s` parses as an unsigned 128-bit hexadecimal integer (no
/// marker): an optional plus sign, then at least one hexadecimal digit,
/// denoting a value below 2^128.
pub open spec fn hex_parses_u128(s: Seq<u8>) -> bool {
    let d = sign_stripped(s);
    d.len() > 0 && all_hex_digits(d) && hex_value(d) < 0x1_0000_0000_0000_0000_0000_0000_0000_0000
}

/// A partial decimal value never exceeds the value of the whole digit
/// string.
proof fn lemma_dec_value_monotonic(s: Seq<u8>, i: int)
    requires
        0 <= i <= s.len(),
    ensures
        dec_value(s.take(i)) <= dec_value(s),
    decreases s.len() - i,
{
    if i < s.len() {
        lemma_dec_value_monotonic(s, i + 1);
        assert(s.take(i + 1).take(i) =~= s.take(i));
        assert(dec_value(s.take(i + 1)) == dec_value(s.take(i)) * 10 + dec_digit_value(s[i]) as nat);
    } else {
        assert(s.take(i) =~= s);
    }
}

/// A partial hexadecimal value never exceeds the value of the whole digit
/// string.
proof fn lemma_hex_value_monotonic(s: Seq<u8>, i: int)
    requires
        0 <= i <= s.len(),
    ensures
        hex_value(s.take(i)) <= hex_value(s),
    decreases s.len() - i,
{
    if i < s.len() {
        lemma_hex_value_monotonic(s, i + 1);
        assert(s.take(i + 1).take(i) =~= s.take(i));
        assert(hex_value(s.take(i + 1)) == hex_value(s.take(i)) * 16 + hex_digit_value(s[i]) as nat);
    } else {
        assert(s.take(i) =~= s);
    }
}

/// Parses an unsigned 128-bit decimal integer: an optional plus sign, then
/// decimal digits.
pub(crate) fn parse_u128_dec(s: &[u8]) -> (r: Option<u128>)
    ensures
        (r is Some) == dec_parses_u128(s@),
        r matches Some(v) ==> v as nat == dec_value(sign_stripped(s@)),
{
    let d: &[u8] = if s.len() > 0 && s[0] == 43 {
        vstd::slice::slice_subrange(s, 1, s.len())
    } else {
        s
    };
    if d.len() == 0 {
        return None;
    }
    let mut acc: u128 = 0;
    let mut i: usize = 0;
    while i < d.len()
        invariant
            d@ == sign_stripped(s@),
            i <= d@.len(),
            d@.len() > 0,
            all_dec_digits(d@.take(i as int)),
            acc as nat == dec_value(d@.take(i as int)),
        decreases d@.len() - i,
    {
        let b = d[i];
        if !(48 <= b && b <= 57) {
            proof {
                assert(!is_dec_digit(d@[i as int]));
            }
            return None;
        }
        let digit = (b - 48) as u128;
        proof {
            assert(d@.take(i as int + 1).take(i as int) =~= d@.take(i as int));
            assert(d@.take(i as int + 1).len() == i as int + 1);
            assert(dec_value(d@.take(i as int + 1)) == acc as nat * 10 + digit as nat);
        }
        // u128::MAX == 34028236692093846346337460743176821145 * 10 + 5,
        // so any larger accumulator (or a larger final digit) overflows.
        if acc > 34028236692093846346337460743176821145u128
            || (acc == 34028236692093846346337460743176821145u128 && digit > 5) {
            proof {
                lemma_dec_value_monotonic(d@, i as int + 1);
            }
            return None;
        }
        acc = acc * 10 + digit;
        i += 1;
    }
    proof {
        assert(d@.take(i as int) =~= d@);
    }
    Some(acc)
}

/// Parses an unsigned 128-bit hexadecimal integer (without a marker): an
/// optional plus sign, then hexadecimal digits of either case.
pub(crate) fn parse_u128_hex(s: &[u8]) -> (r: Option<u128>)
    ensures
        (r is Some) == hex_parses_u128(s@),
        r matches Some(v) ==> v as nat == hex_value(sign_stripped(s@)),
{
    let d: &[u8] = if s.len() > 0 && s[0] == 43 {
        vstd::slice::slice_subrange(s, 1, s.len())
    } else {
        s
    };
    if d.len() == 0 {
        return None;
    }
    let mut acc: u128 = 0;
    let mut i: usize = 0;
    while i < d.len()
        invariant
            d@ == sign_stripped(s@),
            i <= d@.len(),
            d@.len() > 0,
            all_hex_digits(d@.take(i as int)),
            acc as nat == hex_value(d@.take(i as int)),
        decreases d@.len() - i,
    {
        let b = d[i];
        let digit: u128 = if 48 <= b && b <= 57 {
            (b - 48) as u128
        } else if 97 <= b && b <= 102 {
            (b - 97 + 10) as u128
        } else if 65 <= b && b <= 70 {
            (b - 65 + 10) as u128
        } else {
            proof {
                assert(!is_hex_digit(d@[i as int]));
            }
            return None;
        };
        proof {
            assert(d@.take(i as int + 1).take(i as int) =~= d@.take(i as int));
            assert(d@.take(i as int + 1).len() == i as int + 1);
            assert(hex_value(d@.take(i as int + 1)) == acc as nat * 16 + digit as nat);
        }
        // u128::MAX == 0x0fffffffffffffffffffffffffffffff * 16 + 15, so any
        // larger accumulator overflows (a hexadecimal digit is at most 15).
        if acc > 0x0fff_ffff_ffff_ffff_ffff_ffff_ffff_ffffu128 {
            proof {
                lemma_hex_value_monotonic(d@, i as int + 1);
            }
            return None;
        }
        acc = acc * 16 + digit;
        i += 1;
    }
    proof {
        assert(d@.take(i as int) =~= d@);
    }
    Some(acc)
}

/// Relies on bcs::to_bytes for bool: a single byte, 1 for true and 0 for
/// false. Serialization of a bool cannot fail.
#[verifier::external_body]
pub(crate) fn bcs_bool(v: bool) -> (r: Vec<u8>)
    ensures
        r@ == bool_byte(v),
{
    bcs::to_bytes(&v).unwrap()
}

/// Relies on bcs::to_bytes for u8: the byte itself. Serialization of a u8
/// cannot fail.
#[verifier::external_body]
pub(crate) fn bcs_u8(v: u8) -> (r: Vec<u8>)
    ensures
        r@ == seq![v],
{
    bcs::to_bytes(&v).unwrap()
}

/// Relies on bcs::to_bytes for u64: eight bytes, little-endian.
/// Serialization of a u64 cannot fail.
#[verifier::external_body]
pub(crate) fn bcs_u64(v: u64) -> (r: Vec<u8>)
    ensures
        r@ == le_bytes(v as nat, 8),
{
    bcs::to_bytes(&v).unwrap()
}

/// Relies on bcs::to_bytes for u128: sixteen bytes, little-endian.
/// Serialization of a u128 cannot fail.
#[verifier::external_body]
pub(crate) fn bcs_u128(v: u128) -> (r: Vec<u8>)
    ensures
        r@ == le_bytes(v as nat, 16),
{
    bcs::to_bytes(&v).unwrap()
}

/// Relies on bcs::to_bytes for Vec<u8>: the ULEB128 encoding of the length
/// followed by the bytes themselves, failing exactly when the length
/// exceeds the serializer's maximum sequence length.
#[verifier::external_body]
pub(crate) fn bcs_byte_vec(v: &Vec<u8>) -> (r: Option<Vec<u8>>)
    ensures
        (r is Some) == (v@.len() <= MAX_SEQUENCE_LENGTH),
        r matches Some(b) ==> b@ == uleb128(v@.len() as nat) + v@,
{
    match bcs::to_bytes(v) {
        Ok(b) => Some(b),
        Err(_) => None,
    }
}

/// Relies on hex::decode: succeeds exactly on an even number of
/// hexadecimal digits (either case), turning each digit pair into one
/// byte.
#[verifier::external_body]
pub(crate) fn hex_decode(s: &[u8]) -> (r: Option<Vec<u8>>)
    ensures
        (r is Some) == (s@.len() % 2 == 0 && all_hex_digits(s@)),
        r matches Some(b) ==> b@ == hex_pairs(s@),
{
    match hex::decode(s) {
        Ok(b) => Some(b),
        Err(_) => None,
    }
}

} // verus!
