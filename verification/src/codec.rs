//! Hexadecimal address codec: parsing 64-bit addresses from hexadecimal
//! text and rendering addresses and raw bytes as upper-case hexadecimal.

use vstd::prelude::*;
use crate::strutil::push_char;

verus! {

/// Failure of `decode_address`: the text is not an even run of
/// hexadecimal digits spelling one to eight bytes.
#[derive(Clone, Copy, Debug, PartialEq, Eq, Structural)]
pub enum AddressError {
    InvalidAddress,
}

/// True of the characters that stand for a hexadecimal digit, upper or
/// lower case.
pub open spec fn is_hex_digit(c: char) -> bool {
    ('0' <= c && c <= '9') || ('a' <= c && c <= 'f') || ('A' <= c && c <= 'F')
}

/// The value of one hexadecimal digit character.
pub open spec fn hex_val(c: char) -> int {
    if '0' <= c && c <= '9' {
        c as int - '0' as int
    } else if 'a' <= c && c <= 'f' {
        c as int - 'a' as int + 10
    } else {
        c as int - 'A' as int + 10
    }
}

/// The upper-case character that stands for one hexadecimal digit.
pub open spec fn hex_digit_char(n: int) -> char {
    if n == 0 {
        '0'
    } else if n == 1 {
        '1'
    } else if n == 2 {
        '2'
    } else if n == 3 {
        '3'
    } else if n == 4 {
        '4'
    } else if n == 5 {
        '5'
    } else if n == 6 {
        '6'
    } else if n == 7 {
        '7'
    } else if n == 8 {
        '8'
    } else if n == 9 {
        '9'
    } else if n == 10 {
        'A'
    } else if n == 11 {
        'B'
    } else if n == 12 {
        'C'
    } else if n == 13 {
        'D'
    } else if n == 14 {
        'E'
    } else {
        'F'
    }
}

/// Reading a hexadecimal digit back from its upper-case character gives
/// the digit again.
pub proof fn lemma_hex_digit_char_val(n: int)
    requires
        0 <= n < 16,
    ensures
        is_hex_digit(hex_digit_char(n)),
        hex_val(hex_digit_char(n)) == n,
{
}

/// The bytes spelled by an even run of hexadecimal digit characters, two
/// digits to a byte, high digit first.
pub open spec fn bytes_of_hex(s: Seq<char>) -> Seq<u8>
    recommends
        s.len() % 2 == 0,
    decreases s.len(),
{
    if s.len() < 2 {
        Seq::empty()
    } else {
        bytes_of_hex(s.subrange(0, s.len() - 2)) + seq![
            (hex_val(s[s.len() - 2]) * 16 + hex_val(s[s.len() - 1])) as u8,
        ]
    }
}

pub proof fn lemma_bytes_of_hex_len(s: Seq<char>)
    requires
        s.len() % 2 == 0,
    ensures
        bytes_of_hex(s).len() == s.len() / 2,
    decreases s.len(),
{
    if s.len() >= 2 {
        lemma_bytes_of_hex_len(s.subrange(0, s.len() - 2));
    }
}

pub proof fn lemma_bytes_of_hex_index(s: Seq<char>, i: int)
    requires
        s.len() % 2 == 0,
        0 <= i < s.len() / 2,
    ensures
        bytes_of_hex(s).len() == s.len() / 2,
        bytes_of_hex(s)[i] == (hex_val(s[2 * i]) * 16 + hex_val(s[2 * i + 1])) as u8,
    decreases s.len(),
{
    lemma_bytes_of_hex_len(s);
    if s.len() >= 2 {
        let p = s.subrange(0, s.len() - 2);
        lemma_bytes_of_hex_len(p);
        if i < s.len() / 2 - 1 {
            lemma_bytes_of_hex_index(p, i);
            assert(p[2 * i] == s[2 * i]);
            assert(p[2 * i + 1] == s[2 * i + 1]);
        }
    }
}

/// The value of a byte string read big-endian.
pub open spec fn be_value_of(bs: Seq<u8>) -> int
    decreases bs.len(),
{
    if bs.len() == 0 {
        0
    } else {
        be_value_of(bs.drop_last()) * 256 + bs.last()
    }
}

/// Powers of 256, to bound big-endian values.
pub open spec fn pow256(n: nat) -> int
    decreases n,
{
    if n == 0 {
        1
    } else {
        256 * pow256((n - 1) as nat)
    }
}

proof fn lemma_pow256_pos(n: nat)
    ensures
        pow256(n) >= 1,
    decreases n,
{
    if n > 0 {
        lemma_pow256_pos((n - 1) as nat);
    }
}

proof fn lemma_pow256_mono(a: nat, b: nat)
    requires
        a <= b,
    ensures
        pow256(a) <= pow256(b),
    decreases b,
{
    if a < b {
        lemma_pow256_mono(a, (b - 1) as nat);
        lemma_pow256_pos((b - 1) as nat);
    }
}

pub proof fn lemma_be_value_bound(bs: Seq<u8>)
    ensures
        0 <= be_value_of(bs) < pow256(bs.len()),
    decreases bs.len(),
{
    if bs.len() > 0 {
        lemma_be_value_bound(bs.drop_last());
        let p = be_value_of(bs.drop_last());
        assert(pow256(bs.len()) == 256 * pow256((bs.len() - 1) as nat));
    }
}

/// Relies on `hex::decode`: it succeeds exactly on an even number of
/// hexadecimal digits (upper or lower case) and returns the bytes they
/// spell, two digits to a byte, high digit first.
#[verifier::external_body]
fn hex_decode(s: &str) -> (r: Option<Vec<u8>>)
    ensures
        match r {
            Some(b) => {
                &&& s@.len() % 2 == 0
                &&& forall|i: int| 0 <= i < s@.len() ==> is_hex_digit(s@[i])
                &&& b@ == bytes_of_hex(s@)
            },
            None => !(s@.len() % 2 == 0 && forall|i: int|
                0 <= i < s@.len() ==> is_hex_digit(s@[i])),
        },
{
    match hex::decode(s) {
        Ok(v) => Some(v),
        Err(_) => None,
    }
}

/// Folds a big-endian byte string into a `u64`.
pub fn be_u64(bytes: &[u8]) -> (r: u64)
    requires
        bytes@.len() <= 8,
    ensures
        r == be_value_of(bytes@),
{
    let mut acc: u64 = 0;
    let mut i: usize = 0;
    while i < bytes.len()
        invariant
            0 <= i <= bytes@.len() <= 8,
            acc == be_value_of(bytes@.subrange(0, i as int)),
            acc < pow256(i as nat),
        decreases bytes@.len() - i,
    {
        proof {
            reveal_with_fuel(pow256, 9);
            assert(pow256(8) == 0x10000000000000000);
            lemma_pow256_mono((i + 1) as nat, 8);
            assert(pow256((i + 1) as nat) == 256 * pow256(i as nat));
            assert(bytes@.subrange(0, (i + 1) as int).drop_last() =~= bytes@.subrange(0, i as int));
        }
        acc = acc * 256 + (bytes[i] as u64);
        i = i + 1;
    }
    proof {
        assert(bytes@.subrange(0, bytes@.len() as int) =~= bytes@);
    }
    acc
}

/// What `decode_address` returns: the big-endian value of the bytes the
/// text spells, defined exactly when the text is a non-empty even run of
/// hexadecimal digits for at most eight bytes.
pub open spec fn decode_addr_spec(s: Seq<char>) -> Option<u64> {
    if 0 < s.len() <= 16 && s.len() % 2 == 0 && (forall|i: int|
        0 <= i < s.len() ==> is_hex_digit(s[i])) {
        Some(be_value_of(bytes_of_hex(s)) as u64)
    } else {
        None
    }
}

/// Parses hexadecimal text as a 64-bit address, read as a big-endian byte
/// sequence.  Fails exactly on malformed input: an odd digit count, a
/// non-hexadecimal character, an empty text, or more than eight bytes.
pub fn decode_address(s: &str) -> (r: Result<u64, AddressError>)
    ensures
        match r {
            Ok(v) => decode_addr_spec(s@) == Some(v),
            Err(e) => decode_addr_spec(s@) is None && e == AddressError::InvalidAddress,
        },
{
    match hex_decode(s) {
        None => Err(AddressError::InvalidAddress),
        Some(bytes) => {
            proof {
                lemma_bytes_of_hex_len(s@);
            }
            if bytes.len() == 0 || bytes.len() > 8 {
                Err(AddressError::InvalidAddress)
            } else {
                proof {
                    lemma_be_value_bound(bytes@);
                    reveal_with_fuel(pow256, 9);
                    assert(pow256(8) == 0x10000000000000000);
                    lemma_pow256_mono(bytes@.len(), 8);
                }
                Ok(be_u64(bytes.as_slice()))
            }
        },
    }
}

/// The nibble of `x` that the `i`-th character of its encoding spells,
/// high nibble first.
pub open spec fn nibble_of(x: u64, i: int) -> int {
    ((x >> ((60 - 4 * i) as u64)) & 0xf) as int
}

/// What `encode_address` returns: sixteen upper-case hexadecimal digits,
/// the fixed width of a 64-bit address.
pub open spec fn encode_addr_spec(x: u64) -> Seq<char> {
    Seq::new(16, |i: int| hex_digit_char(nibble_of(x, i)))
}

fn hex_digit(n: u64) -> (c: char)
    requires
        n < 16,
    ensures
        c == hex_digit_char(n as int),
{
    match n {
        0 => '0',
        1 => '1',
        2 => '2',
        3 => '3',
        4 => '4',
        5 => '5',
        6 => '6',
        7 => '7',
        8 => '8',
        9 => '9',
        10 => 'A',
        11 => 'B',
        12 => 'C',
        13 => 'D',
        14 => 'E',
        _ => 'F',
    }
}

/// Renders an address as fixed-width upper-case hexadecimal: sixteen
/// digits, the full 64-bit range.
pub fn encode_address(x: u64) -> (r: String)
    ensures
        r@ == encode_addr_spec(x),
        r@.len() == 16,
{
    let mut out = String::new();
    let mut i: usize = 0;
    while i < 16
        invariant
            0 <= i <= 16,
            out@.len() == i,
            forall|k: int| 0 <= k < i ==> out@[k] == encode_addr_spec(x)[k],
        decreases 16 - i,
    {
        let sh: u64 = 60 - 4 * (i as u64);
        let nib: u64 = (x >> sh) & 0xf;
        proof {
            assert((x >> sh) & 0xf < 16) by (bit_vector);
        }
        let c = hex_digit(nib);
        push_char(&mut out, c);
        i = i + 1;
    }
    proof {
        assert(out@ =~= encode_addr_spec(x));
    }
    out
}

/// A nibble is below sixteen, whatever the shift.
proof fn lemma_nibble_bound(x: u64, s: u64)
    ensures
        (x >> s) & 0xf < 16,
{
    assert((x >> s) & 0xf < 16) by (bit_vector);
}

/// Two adjacent nibbles assemble into the byte at the lower shift.
proof fn lemma_nibble_pair(x: u64, sl: u64)
    requires
        sl <= 56,
    ensures
        ((x >> ((sl + 4) as u64)) & 0xf) * 16 + ((x >> sl) & 0xf) == (x >> sl) & 0xff,
{
    let sh: u64 = (sl + 4) as u64;
    assert(((x >> sh) & 0xf) * 16 + ((x >> sl) & 0xf) == (x >> sl) & 0xff) by (bit_vector)
        requires
            sl <= 56 && sh == sl + 4,
    ;
}

/// The sixteen digits of an encoded address spell the eight bytes of the
/// address, high byte first.
proof fn lemma_encode_bytes(x: u64)
    ensures
        bytes_of_hex(encode_addr_spec(x)).len() == 8,
        forall|i: int|
            0 <= i < 8 ==> #[trigger] bytes_of_hex(encode_addr_spec(x))[i] == ((x >> ((56 - 8 * i)
                as u64)) & 0xff) as u8,
{
    let e = encode_addr_spec(x);
    lemma_bytes_of_hex_len(e);
    assert forall|i: int| 0 <= i < 8 implies #[trigger] bytes_of_hex(e)[i] == ((x >> ((56 - 8 * i)
        as u64)) & 0xff) as u8 by {
        lemma_bytes_of_hex_index(e, i);
        let sl: u64 = (56 - 8 * i) as u64;
        lemma_nibble_bound(x, (sl + 4) as u64);
        lemma_nibble_bound(x, sl);
        lemma_hex_digit_char_val(nibble_of(x, 2 * i));
        lemma_hex_digit_char_val(nibble_of(x, 2 * i + 1));
        assert((60 - 4 * (2 * i)) as u64 == (sl + 4) as u64);
        assert((60 - 4 * (2 * i + 1)) as u64 == sl);
        lemma_nibble_pair(x, sl);
    }
}

/// A byte mask leaves a value below 256, whatever the shift.
proof fn lemma_byte_bound(x: u64, s: u64)
    ensures
        (x >> s) & 0xff < 256,
{
    assert((x >> s) & 0xff < 256) by (bit_vector);
}

/// Big-endian reassembly, one byte at a time: the value of the first `k`
/// bytes of the address is the address shifted down past the rest.
proof fn lemma_be_shift(x: u64, bs: Seq<u8>, k: int)
    requires
        1 <= k <= 8,
        bs.len() == 8,
        forall|i: int|
            0 <= i < 8 ==> #[trigger] bs[i] == ((x >> ((56 - 8 * i) as u64)) & 0xff) as u8,
    ensures
        be_value_of(bs.subrange(0, k)) == x >> ((64 - 8 * k) as u64),
    decreases k,
{
    if k == 1 {
        let pre = bs.subrange(0, 1);
        assert(pre.drop_last() =~= bs.subrange(0, 0));
        lemma_byte_bound(x, 56);
        assert(bs[0] == ((x >> 56u64) & 0xff) as u8);
        assert(be_value_of(bs.subrange(0, 0)) == 0);
        assert(pre.last() == bs[0]);
        assert(be_value_of(pre) == bs[0]);
        assert((x >> 56u64) & 0xff == x >> 56u64) by (bit_vector);
    } else {
        lemma_be_shift(x, bs, k - 1);
        let pre = bs.subrange(0, k);
        assert(pre.drop_last() =~= bs.subrange(0, k - 1));
        assert(pre.last() == bs[k - 1]);
        let s: u64 = (64 - 8 * (k - 1)) as u64;
        let sm8: u64 = (64 - 8 * k) as u64;
        assert((56 - 8 * (k - 1)) as u64 == sm8);
        lemma_byte_bound(x, sm8);
        assert(bs[k - 1] == ((x >> sm8) & 0xff) as u8);
        assert(x >> sm8 == (x >> s) * 256 + ((x >> sm8) & 0xff)) by (bit_vector)
            requires
                8 <= s <= 56 && sm8 == s - 8,
        ;
    }
}

/// Decoding an encoded address gives the address back, for every 64-bit
/// value.
pub proof fn lemma_address_round_trip(x: u64)
    ensures
        decode_addr_spec(encode_addr_spec(x)) == Some(x),
{
    let e = encode_addr_spec(x);
    assert forall|i: int| 0 <= i < e.len() implies is_hex_digit(e[i]) by {
        let sh: u64 = (60 - 4 * i) as u64;
        lemma_nibble_bound(x, sh);
        lemma_hex_digit_char_val(nibble_of(x, i));
    }
    lemma_encode_bytes(x);
    let bs = bytes_of_hex(e);
    lemma_be_shift(x, bs, 8);
    assert(bs.subrange(0, 8) =~= bs);
    assert(x >> 0u64 == x) by (bit_vector);
}

/// The pair of upper-case hexadecimal digits for each byte, in order:
/// what `bytes_to_hex` renders.
pub open spec fn hex_upper_of(bs: Seq<u8>) -> Seq<char>
    decreases bs.len(),
{
    if bs.len() == 0 {
        Seq::empty()
    } else {
        hex_upper_of(bs.drop_last()) + seq![
            hex_digit_char(bs.last() as int / 16),
            hex_digit_char(bs.last() as int % 16),
        ]
    }
}

/// Two digits stand for each byte.
pub proof fn lemma_hex_upper_len(bs: Seq<u8>)
    ensures
        hex_upper_of(bs).len() == 2 * bs.len(),
    decreases bs.len(),
{
    if bs.len() > 0 {
        lemma_hex_upper_len(bs.drop_last());
    }
}

/// Renders bytes as unseparated upper-case hexadecimal, two digits for
/// each byte.
pub fn bytes_to_hex(bytes: &[u8]) -> (r: String)
    ensures
        r@ == hex_upper_of(bytes@),
{
    let mut out = String::new();
    let mut i: usize = 0;
    while i < bytes.len()
        invariant
            0 <= i <= bytes@.len(),
            out@ == hex_upper_of(bytes@.subrange(0, i as int)),
        decreases bytes@.len() - i,
    {
        let b = bytes[i];
        let hi = hex_digit((b / 16) as u64);
        let lo = hex_digit((b % 16) as u64);
        let ghost before = out@;
        push_char(&mut out, hi);
        push_char(&mut out, lo);
        proof {
            let sub1 = bytes@.subrange(0, (i + 1) as int);
            assert(sub1.drop_last() =~= bytes@.subrange(0, i as int));
            assert(sub1.last() == bytes@[i as int]);
            assert(out@ =~= before + seq![hi, lo]);
        }
        i = i + 1;
    }
    proof {
        assert(bytes@.subrange(0, bytes@.len() as int) =~= bytes@);
    }
    out
}

} // verus!
