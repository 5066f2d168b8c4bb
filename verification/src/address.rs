use vstd::prelude::*;
use vstd::string::*;
use vstd::utf8::*;
use crate::error::SlotError;
use crate::text::{append_bytes, decimal_value, is_decimal, parse_decimal};

verus! {

/// Whether `c` is one of `0`-`9`, `a`-`f`.
pub open spec fn is_hex_char(c: char) -> bool {
    ('0' <= c <= '9') || ('a' <= c <= 'f')
}

/// The number a lowercase hex digit stands for.
pub open spec fn hex_value(c: char) -> int {
    if c <= '9' {
        c as int - 48
    } else {
        c as int - 87
    }
}

/// The lowercase hex digit for a number below sixteen.
pub open spec fn hex_char(v: int) -> char {
    if v < 10 {
        ((48 + v) as u8) as char
    } else {
        ((87 + v) as u8) as char
    }
}

/// Whether every character of `s` is a lowercase hex digit.
pub open spec fn is_hex_text(s: Seq<char>) -> bool {
    forall|i: int| 0 <= i < s.len() ==> is_hex_char(#[trigger] s[i])
}

/// Whether `s` has the shape of a storage slot or word: 64 lowercase hex digits.
pub open spec fn is_slot(s: Seq<char>) -> bool {
    s.len() == 64 && is_hex_text(s)
}

/// The bytes that a text of lowercase hex digits encodes, two digits to a byte.
pub open spec fn hex_bytes(s: Seq<char>) -> Seq<u8> {
    Seq::new(s.len() / 2, |i: int| (16 * hex_value(s[2 * i]) + hex_value(s[2 * i + 1])) as u8)
}

/// The lowercase hex text of some bytes, two digits to a byte.
pub open spec fn hex_text(b: Seq<u8>) -> Seq<char> {
    Seq::new(
        2 * b.len(),
        |i: int|
            if i % 2 == 0 {
                hex_char(b[i / 2] as int / 16)
            } else {
                hex_char(b[i / 2] as int % 16)
            },
    )
}

/// The number that bytes stand for when the first byte is the most significant.
pub open spec fn be_value(b: Seq<u8>) -> nat
    decreases b.len(),
{
    if b.len() == 0 {
        0
    } else {
        be_value(b.drop_last()) * 256 + b.last() as nat
    }
}

/// 256 to the power `n`.
pub open spec fn pow256(n: nat) -> nat
    decreases n,
{
    if n == 0 {
        1
    } else {
        256 * pow256((n - 1) as nat)
    }
}

/// The number of distinct storage slots, 2^256.
pub open spec fn slot_space() -> nat {
    pow256(32)
}

/// The number a slot text stands for.
pub open spec fn slot_number(s: Seq<char>) -> nat {
    be_value(hex_bytes(s))
}

/// The `len` least significant bytes of a number, the most significant of them first.
pub open spec fn be_bytes(n: nat, len: nat) -> Seq<u8>
    decreases len,
{
    if len == 0 {
        Seq::<u8>::empty()
    } else {
        be_bytes(n / 256, (len - 1) as nat).push((n % 256) as u8)
    }
}

/// The slot text of a number: its 32 big-endian bytes in lowercase hex.
pub open spec fn number_slot(n: nat) -> Seq<char> {
    hex_text(be_bytes(n, 32))
}

/// The value of an ASCII hex digit of either case, or `None` for any other byte.
pub open spec fn ascii_hex_digit(b: u8) -> Option<int> {
    if 48 <= b <= 57 {
        Some(b - 48)
    } else if 97 <= b <= 102 {
        Some(b - 87)
    } else if 65 <= b <= 70 {
        Some(b - 55)
    } else {
        None
    }
}

/// The input of a hex decoder with a leading `0x` or `0X` taken off.
pub open spec fn without_hex_prefix(b: Seq<u8>) -> Seq<u8> {
    if b.len() >= 2 && b[0] == 48 && (b[1] == 120 || b[1] == 88) {
        b.subrange(2, b.len() as int)
    } else {
        b
    }
}

/// Whether a hex decoder accepts the input: an even number of bytes that, after an
/// optional prefix, are all hex digits.
pub open spec fn hex_decodable(b: Seq<u8>) -> bool {
    &&& b.len() % 2 == 0
    &&& forall|i: int|
        0 <= i < without_hex_prefix(b).len() ==> ascii_hex_digit(
            #[trigger] without_hex_prefix(b)[i],
        ) is Some
}

/// What a hex decoder makes of an accepted input.
pub open spec fn hex_decoded(b: Seq<u8>) -> Seq<u8> {
    let t = without_hex_prefix(b);
    Seq::new(
        t.len() / 2,
        |i: int| (16 * ascii_hex_digit(t[2 * i])->0 + ascii_hex_digit(t[2 * i + 1])->0) as u8,
    )
}

/// The error of the hex decoder of `ethers::utils::hex`. Nothing is read from it: the
/// library only tells success from failure.
#[verifier::external_type_specification]
#[verifier::external_body]
pub struct ExFromHexError(ethers::utils::hex::FromHexError);

/// The Keccak-256 digest of a byte string.
pub uninterp spec fn keccak256_digest(bytes: Seq<u8>) -> Seq<u8>;

/// `ethers::utils::keccak256`: the 32-byte Keccak-256 digest of the input. The digest
/// is a function of the input bytes alone; nothing else is claimed of it.
#[verifier::external_body]
pub(crate) fn keccak256(bytes: &[u8]) -> (digest: [u8; 32])
    ensures
        digest@ == keccak256_digest(bytes@),
{
    ethers::utils::keccak256(bytes)
}

/// `ethers::utils::hex::encode`: two lowercase hex digits for each byte, the high
/// half of the byte first, and nothing else.
#[verifier::external_body]
fn hex_encode(data: &[u8]) -> (s: String)
    ensures
        s@ == hex_text(data@),
{
    ethers::utils::hex::encode(data)
}

/// `ethers::utils::hex::decode`: fails on an odd number of bytes; otherwise drops a
/// leading `0x` or `0X`, fails if a byte that is left is no hex digit of either case,
/// and else gives one byte for each pair of digits.
#[verifier::external_body]
fn hex_decode(input: &[u8]) -> (r: Result<Vec<u8>, ethers::utils::hex::FromHexError>)
    ensures
        r is Ok <==> hex_decodable(input@),
        r matches Ok(v) ==> v@ == hex_decoded(input@),
{
    ethers::utils::hex::decode(input)
}

/// Adds a 64-bit number to a big-endian number with `num_bigint::BigUint`:
/// `from_bytes_be` reads the bytes, `+` adds without loss, and `to_bytes_be` writes
/// the sum back as big-endian bytes.
#[verifier::external_body]
fn add_be(value: &[u8], number: u64) -> (sum: Vec<u8>)
    ensures
        be_value(sum@) == be_value(value@) + number,
{
    let value_uint = num_bigint::BigUint::from_bytes_be(value);
    let number_uint = num_bigint::BigUint::from(number);
    (value_uint + number_uint).to_bytes_be()
}

/// A digit written and read back is the same digit.
proof fn lemma_hex_char_value(v: int)
    requires
        0 <= v < 16,
    ensures
        is_hex_char(hex_char(v)),
        hex_value(hex_char(v)) == v,
{
}

/// The text of some bytes is hex text, twice as long, and decodes to the same bytes.
pub proof fn lemma_hex_text_round_trip(b: Seq<u8>)
    ensures
        hex_text(b).len() == 2 * b.len(),
        is_hex_text(hex_text(b)),
        hex_bytes(hex_text(b)) == b,
{
    let t = hex_text(b);
    assert forall|i: int| 0 <= i < t.len() implies is_hex_char(#[trigger] t[i]) by {
        lemma_hex_char_value(b[i / 2] as int / 16);
        lemma_hex_char_value(b[i / 2] as int % 16);
    }
    assert forall|i: int| 0 <= i < b.len() implies #[trigger] hex_bytes(t)[i] == b[i] by {
        lemma_hex_char_value(b[i] as int / 16);
        lemma_hex_char_value(b[i] as int % 16);
        assert((2 * i) / 2 == i && (2 * i + 1) / 2 == i);
        assert((2 * i) % 2 == 0 && (2 * i + 1) % 2 == 1);
    }
    assert(hex_bytes(t) =~= b);
}

/// Bytes are the big-endian bytes of their value.
pub proof fn lemma_be_bytes_of_value(b: Seq<u8>)
    ensures
        be_bytes(be_value(b), b.len()) == b,
    decreases b.len(),
{
    if b.len() > 0 {
        lemma_be_bytes_of_value(b.drop_last());
        let v = be_value(b.drop_last());
        assert((v * 256 + b.last() as nat) / 256 == v);
        assert((v * 256 + b.last() as nat) % 256 == b.last() as nat);
        assert(be_bytes(be_value(b), b.len()) =~= b);
    } else {
        assert(be_bytes(be_value(b), b.len()) =~= b);
    }
}

/// The big-endian bytes of a number stand for the number modulo 256^len.
pub proof fn lemma_value_of_be_bytes(n: nat, len: nat)
    ensures
        be_bytes(n, len).len() == len,
        be_value(be_bytes(n, len)) == n % pow256(len),
    decreases len,
{
    if len > 0 {
        lemma_value_of_be_bytes(n / 256, (len - 1) as nat);
        let b = be_bytes(n, len);
        assert(b.drop_last() =~= be_bytes(n / 256, (len - 1) as nat));
        let p = pow256((len - 1) as nat);
        lemma_pow256_positive((len - 1) as nat);
        // n = 256 * (n / 256) + n % 256, and (n / 256) = p * q + (n / 256) % p.
        let h = n / 256;
        let q = h / p;
        let r = h % p;
        vstd::arithmetic::div_mod::lemma_fundamental_div_mod(h as int, p as int);
        assert(n == 256 * h + n % 256);
        assert(256 * (p * q + r) == (256 * p) * q + 256 * r) by (nonlinear_arith);
        vstd::arithmetic::div_mod::lemma_mod_pos_bound(h as int, p as int);
        assert(n == (256 * p) * q + (256 * r + n % 256));
        assert(q * (256 * p) == (256 * p) * q) by (nonlinear_arith);
        assert(0 <= 256 * r + n % 256 < 256 * p);
        vstd::arithmetic::div_mod::lemma_fundamental_div_mod_converse(
            n as int,
            (256 * p) as int,
            q as int,
            (256 * r + n % 256) as int,
        );
    }
}

/// The slot text of a number below 2^256 is a slot text that stands for that number,
/// and every slot text is the slot text of its number.
pub proof fn lemma_number_slot(n: nat)
    requires
        n < slot_space(),
    ensures
        is_slot(number_slot(n)),
        slot_number(number_slot(n)) == n,
{
    lemma_value_of_be_bytes(n, 32);
    lemma_hex_text_round_trip(be_bytes(n, 32));
    vstd::arithmetic::div_mod::lemma_small_mod(n, pow256(32));
}

/// A power of 256 is positive.
pub proof fn lemma_pow256_positive(n: nat)
    ensures
        pow256(n) > 0,
    decreases n,
{
    if n > 0 {
        lemma_pow256_positive((n - 1) as nat);
    }
}

/// Big-endian bytes of length `n` stand for a number below 256^n.
pub proof fn lemma_be_value_bound(b: Seq<u8>)
    ensures
        be_value(b) < pow256(b.len()),
    decreases b.len(),
{
    if b.len() > 0 {
        lemma_be_value_bound(b.drop_last());
    }
}

/// The value of two byte strings laid end to end.
pub proof fn lemma_be_value_concat(a: Seq<u8>, b: Seq<u8>)
    ensures
        be_value(a + b) == be_value(a) * pow256(b.len()) + be_value(b),
    decreases b.len(),
{
    if b.len() == 0 {
        assert(a + b =~= a);
        assert(pow256(0) == 1);
        assert(be_value(a) * 1 == be_value(a));
    } else {
        lemma_be_value_concat(a, b.drop_last());
        assert((a + b).drop_last() =~= a + b.drop_last());
        assert((a + b).last() == b.last());
        let x = be_value(a) as int;
        let y = be_value(b.drop_last()) as int;
        let p = pow256((b.len() - 1) as nat) as int;
        assert((x * p + y) * 256 == x * (256 * p) + y * 256) by (nonlinear_arith);
        assert(be_value(a + b.drop_last()) == x * p + y);
        assert(be_value(a + b) == (x * p + y) * 256 + b.last() as nat);
        assert(pow256(b.len()) == 256 * p);
        assert(be_value(b) == y * 256 + b.last() as nat);
    }
}

/// Leading zero bytes do not change the value.
proof fn lemma_be_value_zeros(z: Seq<u8>)
    requires
        forall|i: int| 0 <= i < z.len() ==> z[i] == 0,
    ensures
        be_value(z) == 0,
    decreases z.len(),
{
    if z.len() > 0 {
        lemma_be_value_zeros(z.drop_last());
    }
}

/// A multiple of `p` plus a number below `p` leaves that number modulo `p`.
pub proof fn lemma_mod_of_sum(x: int, p: int, y: int)
    requires
        0 <= x,
        0 < p,
        0 <= y < p,
    ensures
        (x * p + y) % p == y,
{
    vstd::arithmetic::div_mod::lemma_fundamental_div_mod_converse(x * p + y, p, x, y);
}

/// The last 32 bytes of a big-endian number, filled up with zero bytes in front where
/// it has fewer: the number modulo 2^256.
fn low_32_bytes(sum: &Vec<u8>) -> (out: Vec<u8>)
    ensures
        out@.len() == 32,
        be_value(out@) == be_value(sum@) % slot_space(),
{
    let n = sum.len();
    let mut out: Vec<u8> = Vec::new();
    if n >= 32 {
        let start: usize = n - 32;
        let mut i: usize = start;
        while i < n
            invariant
                n == sum.len(),
                start == n - 32,
                start <= i <= n,
                out@ == sum@.subrange(start as int, i as int),
            decreases n - i,
        {
            out.push(sum[i]);
            i += 1;
        }
        proof {
            let head = sum@.subrange(0, start as int);
            assert(out@.len() == 32);
            assert(sum@ =~= head + out@);
            lemma_be_value_concat(head, out@);
            lemma_be_value_bound(out@);
            lemma_pow256_positive(32);
            lemma_mod_of_sum(be_value(head) as int, pow256(32) as int, be_value(out@) as int);
        }
    } else {
        let pad: usize = 32 - n;
        let mut i: usize = 0;
        while i < pad
            invariant
                i <= pad,
                out@.len() == i,
                forall|k: int| 0 <= k < i ==> out@[k] == 0,
            decreases pad - i,
        {
            out.push(0u8);
            i += 1;
        }
        let ghost zeros = out@;
        let mut j: usize = 0;
        while j < n
            invariant
                n == sum.len(),
                j <= n,
                out@ == zeros + sum@.subrange(0, j as int),
            decreases n - j,
        {
            out.push(sum[j]);
            j += 1;
        }
        proof {
            assert(sum@.subrange(0, n as int) =~= sum@);
            lemma_be_value_concat(zeros, sum@);
            lemma_be_value_zeros(zeros);
            assert(be_value(zeros) * pow256(sum@.len()) == 0) by (nonlinear_arith)
                requires
                    be_value(zeros) == 0,
            ;
            assert(out@.len() == 32);
            lemma_be_value_bound(sum@);
            lemma_pow256_grows(n as nat, 32);
            vstd::arithmetic::div_mod::lemma_small_mod(be_value(sum@), pow256(32));
        }
    }
    out
}

/// The powers of 256 grow with the exponent.
pub proof fn lemma_pow256_grows(a: nat, b: nat)
    requires
        a <= b,
    ensures
        pow256(a) <= pow256(b),
    decreases b,
{
    if a < b {
        lemma_pow256_grows(a, (b - 1) as nat);
        lemma_pow256_positive((b - 1) as nat);
    }
}

/// Hex text holds ASCII characters only.
proof fn lemma_hex_text_is_ascii(s: Seq<char>)
    requires
        is_hex_text(s),
    ensures
        is_ascii_chars(s),
{
    assert forall|i: int| 0 <= i < s.len() implies '\0' <= #[trigger] s[i] <= '\u{7f}' by {
        assert(is_hex_char(s[i]));
    }
}

/// Whether a byte is a lowercase hex digit in ASCII.
fn is_hex_byte(b: u8) -> (r: bool)
    ensures
        r == ((48 <= b <= 57) || (97 <= b <= 102)),
{
    (48 <= b && b <= 57) || (97 <= b && b <= 102)
}

/// The 32 bytes that a slot text encodes.
///
/// Fails with `InvalidLength` when the text does not have 64 characters, and with
/// `NonHex` when it has 64 and one of them is not a lowercase hex digit.
pub fn slot_bytes(slot: &str) -> (r: Result<Vec<u8>, SlotError>)
    ensures
        match r {
            Ok(bytes) => is_slot(slot@) && bytes@ == hex_bytes(slot@) && bytes@.len() == 32,
            Err(SlotError::InvalidLength) => slot@.len() != 64,
            Err(SlotError::NonHex) => slot@.len() == 64 && !is_hex_text(slot@),
            Err(SlotError::InvalidNumber) => false,
        },
{
    broadcast use group_utf8_lib;

    if slot.unicode_len() != 64 {
        return Err(SlotError::InvalidLength);
    }
    if !slot.is_ascii() {
        proof {
            if is_hex_text(slot@) {
                lemma_hex_text_is_ascii(slot@);
            }
        }
        return Err(SlotError::NonHex);
    }
    let bytes = slot.as_bytes();
    proof {
        is_ascii_chars_encode_utf8(slot@);
        is_ascii_chars_nat_bound(slot@);
    }
    assert(bytes@.len() == 64);
    assert(forall|k: int| 0 <= k < 64 ==> (#[trigger] slot@[k]) as int == bytes@[k] as int);
    let mut i: usize = 0;
    while i < 64
        invariant
            i <= 64,
            bytes@.len() == 64,
            slot@.len() == 64,
            is_ascii_chars(slot@),
            forall|k: int| 0 <= k < 64 ==> (#[trigger] slot@[k]) as int == bytes@[k] as int,
            forall|k: int| 0 <= k < i ==> is_hex_char(#[trigger] slot@[k]),
        decreases 64 - i,
    {
        if !is_hex_byte(bytes[i]) {
            assert(!is_hex_char(slot@[i as int]));
            return Err(SlotError::NonHex);
        }
        assert(is_hex_char(slot@[i as int]));
        i += 1;
    }
    assert(is_slot(slot@));
    proof {
        assert(without_hex_prefix(bytes@) == bytes@) by {
            assert(is_hex_char(slot@[1]));
        }
        assert forall|k: int| 0 <= k < 64 implies ascii_hex_digit(#[trigger] bytes@[k]) is Some
            && ascii_hex_digit(bytes@[k])->0 == hex_value(slot@[k]) by {
            assert(is_hex_char(slot@[k]));
        }
        assert(hex_decodable(bytes@));
        assert(hex_decoded(bytes@) =~= hex_bytes(slot@));
    }
    match hex_decode(bytes) {
        Ok(v) => Ok(v),
        Err(_) => Err(SlotError::NonHex),
    }
}

/// The text of a slot computed from 32 bytes.
fn slot_text(bytes: &[u8]) -> (out: String)
    requires
        bytes@.len() == 32,
    ensures
        out@ == hex_text(bytes@),
        out@ == number_slot(be_value(bytes@)),
        is_slot(out@),
        hex_bytes(out@) == bytes@,
{
    proof {
        lemma_hex_text_round_trip(bytes@);
        lemma_be_bytes_of_value(bytes@);
    }
    hex_encode(bytes)
}

/// The slot text of a struct member, from its parent's and its relative slot.
pub open spec fn child_slot_text(parent: Seq<char>, relative: Seq<char>) -> Seq<char> {
    number_slot((slot_number(parent) + decimal_value(relative)) % slot_space())
}

/// The slot text of a collection element, from its parent's slot and its key.
pub open spec fn element_slot_text(parent: Seq<char>, key: Seq<char>) -> Seq<char> {
    hex_text(keccak256_digest(element_preimage(parent, key)))
}

/// The slot of a struct member: the parent's slot plus the member's relative slot,
/// modulo 2^256.
///
/// `parent` is a slot text and `relative` a decimal numeral that fits 64 bits. A wrong
/// parent is reported before a wrong numeral.
pub fn child_slot(parent: &str, relative: &str) -> (r: Result<String, SlotError>)
    ensures
        match r {
            Ok(out) => {
                &&& is_slot(parent@)
                &&& is_decimal(relative@)
                &&& decimal_value(relative@) <= u64::MAX
                &&& is_slot(out@)
                &&& out@ == child_slot_text(parent@, relative@)
                &&& slot_number(out@) == (slot_number(parent@) + decimal_value(relative@))
                    % slot_space()
            },
            Err(SlotError::InvalidLength) => parent@.len() != 64,
            Err(SlotError::NonHex) => parent@.len() == 64 && !is_hex_text(parent@),
            Err(SlotError::InvalidNumber) => is_slot(parent@) && (!is_decimal(relative@)
                || decimal_value(relative@) > u64::MAX),
        },
{
    let base = match slot_bytes(parent) {
        Ok(bytes) => bytes,
        Err(e) => {
            return Err(e);
        },
    };
    let number = match parse_decimal(relative) {
        Some(n) => n,
        None => {
            return Err(SlotError::InvalidNumber);
        },
    };
    let sum = add_be(base.as_slice(), number);
    let low = low_32_bytes(&sum);
    Ok(slot_text(low.as_slice()))
}

/// The bytes that are hashed for an element: the key's bytes, then the parent slot's.
pub open spec fn element_preimage(parent: Seq<char>, key: Seq<char>) -> Seq<u8> {
    encode_utf8(key) + hex_bytes(parent)
}

/// The slot of a collection element: the Keccak-256 digest of the key's UTF-8 bytes
/// followed by the 32 bytes of the parent's slot, as slot text.
///
/// For an array element the key is the decimal index; for a mapping element it is the
/// key as the caller wrote it.
pub fn element_slot(parent: &str, key: &str) -> (r: Result<String, SlotError>)
    ensures
        match r {
            Ok(out) => {
                &&& is_slot(parent@)
                &&& is_slot(out@)
                &&& out@ == element_slot_text(parent@, key@)
            },
            Err(SlotError::InvalidLength) => parent@.len() != 64,
            Err(SlotError::NonHex) => parent@.len() == 64 && !is_hex_text(parent@),
            Err(SlotError::InvalidNumber) => false,
        },
{
    let base = match slot_bytes(parent) {
        Ok(bytes) => bytes,
        Err(e) => {
            return Err(e);
        },
    };
    let mut preimage = key.as_bytes_vec();
    append_bytes(&mut preimage, base.as_slice());
    let digest = keccak256(preimage.as_slice());
    Ok(slot_text(digest.as_slice()))
}

/// The number a storage word stands for, modulo 2^64.
pub open spec fn word_number(word: Seq<char>) -> u64 {
    (slot_number(word) % 0x1_0000_0000_0000_0000) as u64
}

/// The number of slots is 2^256.
pub proof fn lemma_slot_space()
    ensures
        slot_space()
            == 0x1_0000_0000_0000_0000_0000_0000_0000_0000_0000_0000_0000_0000_0000_0000_0000_0000int,
{
    reveal_with_fuel(pow256, 9);
    let p8: int = 0x1_0000_0000_0000_0000int;
    assert(pow256(8) == p8);
    lemma_pow256_adds(8, 8);
    lemma_pow256_adds(16, 16);
    assert(pow256(16) == p8 * p8);
    let p16: int = 0x1_0000_0000_0000_0000_0000_0000_0000_0000int;
    assert(p8 * p8 == p16) by (nonlinear_arith)
        requires
            p8 == 0x1_0000_0000_0000_0000int,
            p16 == 0x1_0000_0000_0000_0000_0000_0000_0000_0000int,
    ;
    let p32: int = 0x1_0000_0000_0000_0000_0000_0000_0000_0000_0000_0000_0000_0000_0000_0000_0000_0000int;
    assert(p16 * p16 == p32) by (nonlinear_arith)
        requires
            p16 == 0x1_0000_0000_0000_0000_0000_0000_0000_0000int,
            p32
                == 0x1_0000_0000_0000_0000_0000_0000_0000_0000_0000_0000_0000_0000_0000_0000_0000_0000int,
    ;
}

/// 256^(a + b) is 256^a times 256^b.
pub proof fn lemma_pow256_adds(a: nat, b: nat)
    ensures
        pow256(a + b) == pow256(a) * pow256(b),
    decreases a,
{
    if a == 0 {
        assert(pow256(0) == 1);
        assert(1 * pow256(b) == pow256(b));
    } else {
        lemma_pow256_adds((a - 1) as nat, b);
        assert(pow256(a + b) == 256 * pow256((a - 1 + b) as nat));
        assert(256 * (pow256((a - 1) as nat) * pow256(b)) == (256 * pow256((a - 1) as nat))
            * pow256(b)) by (nonlinear_arith);
    }
}

/// 256^8 is 2^64.
pub proof fn lemma_pow256_8()
    ensures
        pow256(8) == 0x1_0000_0000_0000_0000,
{
    reveal_with_fuel(pow256, 9);
}

/// Reads a storage word as a big-endian number and keeps its 64 low bits; `None`
/// for a text that is no 64-digit word.
pub fn word_value(word: &str) -> (r: Option<u64>)
    ensures
        r is Some <==> is_slot(word@),
        r matches Some(n) ==> n == word_number(word@),
{
    let bytes = match slot_bytes(word) {
        Ok(b) => b,
        Err(_) => {
            return None;
        },
    };
    let ghost low = bytes@.subrange(24, 32);
    let mut acc: u64 = 0;
    let mut i: usize = 0;
    while i < 8
        invariant
            i <= 8,
            bytes@.len() == 32,
            low == bytes@.subrange(24, 32),
            acc == be_value(low.take(i as int)),
        decreases 8 - i,
    {
        proof {
            lemma_be_value_bound(low.take(i as int));
            lemma_pow256_grows(i as nat + 1, 8);
            lemma_pow256_8();
            assert(low.take(i + 1).drop_last() =~= low.take(i as int));
            assert(low.take(i + 1).last() == bytes@[24 + i]);
        }
        acc = acc * 256 + bytes[24 + i] as u64;
        i += 1;
    }
    proof {
        assert(low.take(8) =~= low);
        let head = bytes@.subrange(0, 24);
        assert(bytes@ =~= head + low);
        lemma_be_value_concat(head, low);
        lemma_be_value_bound(low);
        lemma_pow256_8();
        lemma_mod_of_sum(be_value(head) as int, pow256(8) as int, be_value(low) as int);
    }
    Some(acc)
}

} // verus!
