//! Fixed-layout byte encodings: storage keys, big-endian 256-bit words,
//! event-log serialization, hex rendering, and address derivation.

use vstd::prelude::*;

verus! {

/// A 20-byte account address.
pub type RawAddress = [u8; 20];

/// A 32-byte word holding a big-endian 256-bit unsigned integer.
pub type RawU256 = [u8; 32];

/// A 32-byte hash value.
pub type RawH256 = [u8; 32];

// ---------------------------------------------------------------------------
// Hex rendering
// ---------------------------------------------------------------------------

/// The lowercase hex digit for a value below 16.
pub open spec fn hex_digit(n: u8) -> char
    recommends
        n < 16,
{
    if n == 0 {
        '0'
    } else if n == 1 {
        '1'
    } else if n == 2 {
        '2'
    } else if n == 3 {
        '3'
    } else if n == 4 {
        '4'
    } else if n == 5 {
        '5'
    } else if n == 6 {
        '6'
    } else if n == 7 {
        '7'
    } else if n == 8 {
        '8'
    } else if n == 9 {
        '9'
    } else if n == 10 {
        'a'
    } else if n == 11 {
        'b'
    } else if n == 12 {
        'c'
    } else if n == 13 {
        'd'
    } else if n == 14 {
        'e'
    } else {
        'f'
    }
}

/// The value of a lowercase hex digit; 16 for any other character.
pub open spec fn hex_val(c: char) -> u8 {
    if c == '0' {
        0
    } else if c == '1' {
        1
    } else if c == '2' {
        2
    } else if c == '3' {
        3
    } else if c == '4' {
        4
    } else if c == '5' {
        5
    } else if c == '6' {
        6
    } else if c == '7' {
        7
    } else if c == '8' {
        8
    } else if c == '9' {
        9
    } else if c == 'a' {
        10
    } else if c == 'b' {
        11
    } else if c == 'c' {
        12
    } else if c == 'd' {
        13
    } else if c == 'e' {
        14
    } else if c == 'f' {
        15
    } else {
        16
    }
}

/// The lowercase hex rendering of a byte sequence: two digits per byte.
pub open spec fn hex_chars(b: Seq<u8>) -> Seq<char>
    decreases b.len(),
{
    if b.len() == 0 {
        Seq::empty()
    } else {
        hex_chars(b.drop_last()).push(hex_digit(b.last() / 16)).push(hex_digit(b.last() % 16))
    }
}

/// The byte sequence read back from a hex digit sequence, two digits per byte.
pub open spec fn hex_decode(s: Seq<char>) -> Seq<u8> {
    Seq::new((s.len() / 2) as nat, |i: int| (hex_val(s[2 * i]) * 16 + hex_val(s[2 * i + 1])) as u8)
}

/// Relies on String::push: appends exactly the given character to the string.
#[verifier::external_body]
pub(crate) fn push_char(s: &mut String, c: char)
    ensures
        final(s)@ == old(s)@.push(c),
{
    s.push(c);
}

pub(crate) fn hex_digit_char(n: u8) -> (c: char)
    requires
        n < 16,
    ensures
        c == hex_digit(n),
{
    if n == 0 {
        '0'
    } else if n == 1 {
        '1'
    } else if n == 2 {
        '2'
    } else if n == 3 {
        '3'
    } else if n == 4 {
        '4'
    } else if n == 5 {
        '5'
    } else if n == 6 {
        '6'
    } else if n == 7 {
        '7'
    } else if n == 8 {
        '8'
    } else if n == 9 {
        '9'
    } else if n == 10 {
        'a'
    } else if n == 11 {
        'b'
    } else if n == 12 {
        'c'
    } else if n == 13 {
        'd'
    } else if n == 14 {
        'e'
    } else {
        'f'
    }
}

/// Renders a byte sequence as lowercase hex, two digits per byte,
/// with no separators and no prefix.
pub fn bytes_to_hex(v: &[u8]) -> (r: String)
    ensures
        r@ == hex_chars(v@),
        r@.len() == 2 * v@.len(),
{
    proof {
        lemma_hex_chars_len(v@);
    }
    let mut result = String::new();
    let mut i: usize = 0;
    while i < v.len()
        invariant
            i <= v@.len(),
            result@ == hex_chars(v@.take(i as int)),
            result@.len() == 2 * i,
        decreases v@.len() - i,
    {
        let x = v[i];
        push_char(&mut result, hex_digit_char(x / 16));
        push_char(&mut result, hex_digit_char(x % 16));
        proof {
            let t = v@.take(i + 1);
            assert(t.drop_last() =~= v@.take(i as int));
            assert(t.last() == v@[i as int]);
            lemma_hex_chars_len(t);
        }
        i = i + 1;
    }
    proof {
        assert(v@.take(v@.len() as int) =~= v@);
    }
    result
}

proof fn lemma_hex_chars_len(b: Seq<u8>)
    ensures
        hex_chars(b).len() == 2 * b.len(),
    decreases b.len(),
{
    if b.len() > 0 {
        lemma_hex_chars_len(b.drop_last());
    }
}

// ---------------------------------------------------------------------------
// Storage keys
// ---------------------------------------------------------------------------

/// The leading byte that partitions the persistent key space by kind.
#[derive(Debug, Clone, Copy, PartialEq, Eq, Structural)]
pub enum KeyPrefix {
    Config,
    Nonce,
    Balance,
    Code,
    Storage,
}

impl KeyPrefix {
    /// The discriminant byte written at the front of a key.
    pub open spec fn spec_byte(self) -> u8 {
        match self {
            KeyPrefix::Config => 0,
            KeyPrefix::Nonce => 1,
            KeyPrefix::Balance => 2,
            KeyPrefix::Code => 3,
            KeyPrefix::Storage => 4,
        }
    }

    pub fn as_byte(self) -> (b: u8)
        ensures
            b == self.spec_byte(),
    {
        match self {
            KeyPrefix::Config => 0,
            KeyPrefix::Nonce => 1,
            KeyPrefix::Balance => 2,
            KeyPrefix::Code => 3,
            KeyPrefix::Storage => 4,
        }
    }
}

/// The 21-byte key for an address under a prefix: the prefix byte,
/// then the 20 address bytes.
pub open spec fn spec_address_key(prefix: KeyPrefix, address: Seq<u8>) -> Seq<u8> {
    seq![prefix.spec_byte()] + address
}

/// The 53-byte key for a storage slot: the storage prefix byte,
/// the 20 address bytes, then the 32 slot bytes.
pub open spec fn spec_storage_key(address: Seq<u8>, slot: Seq<u8>) -> Seq<u8> {
    seq![KeyPrefix::Storage.spec_byte()] + address + slot
}

/// Builds the 21-byte persistent key for an address under a prefix.
pub fn address_to_key(prefix: KeyPrefix, address: &RawAddress) -> (r: [u8; 21])
    ensures
        r@ == spec_address_key(prefix, address@),
{
    let mut result = [0u8; 21];
    result[0] = prefix.as_byte();
    let mut i: usize = 0;
    while i < 20
        invariant
            i <= 20,
            result@.len() == 21,
            result@[0] == prefix.spec_byte(),
            forall|j: int| 0 <= j < i ==> result@[j + 1] == address@[j],
        decreases 20 - i,
    {
        result[i + 1] = address[i];
        i = i + 1;
    }
    proof {
        assert(result@ =~= spec_address_key(prefix, address@));
    }
    result
}

/// Builds the 53-byte persistent key for a storage slot of an address.
pub fn storage_to_key(address: &RawAddress, key: &RawH256) -> (r: [u8; 53])
    ensures
        r@ == spec_storage_key(address@, key@),
        r@.subrange(0, 21) == spec_address_key(KeyPrefix::Storage, address@),
{
    let mut result = [0u8; 53];
    result[0] = KeyPrefix::Storage.as_byte();
    let mut i: usize = 0;
    while i < 20
        invariant
            i <= 20,
            result@.len() == 53,
            result@[0] == KeyPrefix::Storage.spec_byte(),
            forall|j: int| 0 <= j < i ==> result@[j + 1] == address@[j],
        decreases 20 - i,
    {
        result[i + 1] = address[i];
        i = i + 1;
    }
    let mut k: usize = 0;
    while k < 32
        invariant
            k <= 32,
            result@.len() == 53,
            result@[0] == KeyPrefix::Storage.spec_byte(),
            forall|j: int| 0 <= j < 20 ==> result@[j + 1] == address@[j],
            forall|j: int| 0 <= j < k ==> result@[j + 21] == key@[j],
        decreases 32 - k,
    {
        result[k + 21] = key[k];
        k = k + 1;
    }
    proof {
        assert(result@ =~= spec_storage_key(address@, key@));
        assert(result@.subrange(0, 21) =~= spec_address_key(KeyPrefix::Storage, address@));
    }
    result
}

/// Key partitioning: keys made under different prefixes never collide,
/// whatever the addresses, and a storage key of an address begins with
/// that address's key under the storage prefix.
pub proof fn lemma_key_partitioning(
    p1: KeyPrefix,
    p2: KeyPrefix,
    a1: Seq<u8>,
    a2: Seq<u8>,
    slot: Seq<u8>,
)
    requires
        p1 != p2,
    ensures
        spec_address_key(p1, a1) != spec_address_key(p2, a2),
        a1.len() == 20 && slot.len() == 32 ==> spec_storage_key(a1, slot).len() == 53,
        a1.len() == 20 ==> spec_storage_key(a1, slot).subrange(0, 21) == spec_address_key(
            KeyPrefix::Storage,
            a1,
        ),
{
    assert(p1.spec_byte() != p2.spec_byte());
    assert(spec_address_key(p1, a1)[0] == p1.spec_byte());
    assert(spec_address_key(p2, a2)[0] == p2.spec_byte());
    if a1.len() == 20 {
        assert(spec_storage_key(a1, slot).subrange(0, 21) =~= spec_address_key(
            KeyPrefix::Storage,
            a1,
        ));
    }
}

// ---------------------------------------------------------------------------
// 256-bit words, big-endian
// ---------------------------------------------------------------------------

/// An unsigned 256-bit integer held as four 64-bit limbs,
/// least significant limb first.
#[derive(Debug, Clone, Copy, PartialEq, Eq)]
pub struct U256 {
    pub limbs: [u64; 4],
}

impl U256 {
    /// The integer this word stands for.
    pub open spec fn as_nat(self) -> nat {
        (self.limbs@[0] + self.limbs@[1] * 0x1_0000_0000_0000_0000
            + self.limbs@[2] * 0x1_0000_0000_0000_0000_0000_0000_0000_0000
            + self.limbs@[3]
            * 0x1_0000_0000_0000_0000_0000_0000_0000_0000_0000_0000_0000_0000) as nat
    }

    pub fn new(limbs: [u64; 4]) -> (r: Self)
        ensures
            r.limbs == limbs,
    {
        U256 { limbs }
    }

    pub fn from_u64(v: u64) -> (r: Self)
        ensures
            r.as_nat() == v,
    {
        U256 { limbs: [v, 0, 0, 0] }
    }
}

/// The integer a byte sequence stands for when read big-endian.
pub open spec fn be_interp(s: Seq<u8>) -> nat
    decreases s.len(),
{
    if s.len() == 0 {
        0
    } else {
        (be_interp(s.drop_last()) * 256 + s.last()) as nat
    }
}

/// The eight bytes of a 64-bit value, most significant first.
pub open spec fn be8(x: u64) -> Seq<u8> {
    Seq::new(8, |k: int| (x >> (56 - 8 * k)) as u8)
}

proof fn lemma_be_interp_be8(x: u64)
    ensures
        be_interp(be8(x)) == x,
{
    let s = be8(x);
    assert(s.take(1).drop_last() =~= s.take(0));
    assert(s.take(2).drop_last() =~= s.take(1));
    assert(s.take(3).drop_last() =~= s.take(2));
    assert(s.take(4).drop_last() =~= s.take(3));
    assert(s.take(5).drop_last() =~= s.take(4));
    assert(s.take(6).drop_last() =~= s.take(5));
    assert(s.take(7).drop_last() =~= s.take(6));
    assert(s.take(8).drop_last() =~= s.take(7));
    assert(s.take(0) =~= Seq::empty());
    assert(s.take(8) =~= s);
    assert(((x >> 56) as u8) as u64 == x >> 56) by (bit_vector);
    assert((x >> 56) * 256 + (((x >> 48) as u8) as u64) == x >> 48) by (bit_vector);
    assert((x >> 48) * 256 + (((x >> 40) as u8) as u64) == x >> 40) by (bit_vector);
    assert((x >> 40) * 256 + (((x >> 32) as u8) as u64) == x >> 32) by (bit_vector);
    assert((x >> 32) * 256 + (((x >> 24) as u8) as u64) == x >> 24) by (bit_vector);
    assert((x >> 24) * 256 + (((x >> 16) as u8) as u64) == x >> 16) by (bit_vector);
    assert((x >> 16) * 256 + (((x >> 8) as u8) as u64) == x >> 8) by (bit_vector);
    assert((x >> 8) * 256 + (((x >> 0) as u8) as u64) == x) by (bit_vector);
    assert(be_interp(s.take(0)) == 0);
    assert(s[0] == (x >> 56) as u8);
    assert(s[1] == (x >> 48) as u8);
    assert(s[2] == (x >> 40) as u8);
    assert(s[3] == (x >> 32) as u8);
    assert(s[4] == (x >> 24) as u8);
    assert(s[5] == (x >> 16) as u8);
    assert(s[6] == (x >> 8) as u8);
    assert(s[7] == (x >> 0) as u8);
    assert(be_interp(s.take(1)) == x >> 56);
    assert(be_interp(s.take(2)) == x >> 48);
    assert(be_interp(s.take(3)) == x >> 40);
    assert(be_interp(s.take(4)) == x >> 32);
    assert(be_interp(s.take(5)) == x >> 24);
    assert(be_interp(s.take(6)) == x >> 16);
    assert(be_interp(s.take(7)) == x >> 8);
    assert(be_interp(s.take(8)) == x);
}

proof fn lemma_be_interp_concat(a: Seq<u8>, b: Seq<u8>)
    ensures
        be_interp(a + b) == be_interp(a) * vstd::arithmetic::power::pow(256, b.len()) + be_interp(
            b,
        ),
    decreases b.len(),
{
    vstd::arithmetic::power::lemma_pow_positive(256, b.len() as nat);
    if b.len() == 0 {
        assert(a + b =~= a);
        assert(vstd::arithmetic::power::pow(256, 0) == 1) by {
            vstd::arithmetic::power::lemma_pow0(256);
        }
    } else {
        lemma_be_interp_concat(a, b.drop_last());
        assert((a + b).drop_last() =~= a + b.drop_last());
        assert((a + b).last() == b.last());
        let p = vstd::arithmetic::power::pow(256, (b.len() - 1) as nat);
        assert(vstd::arithmetic::power::pow(256, b.len() as nat) == 256 * p) by {
            vstd::arithmetic::power::lemma_pow1(256);
            vstd::arithmetic::power::lemma_pow_adds(256, 1, (b.len() - 1) as nat);
        }
        assert(be_interp(a + b) == (be_interp(a) * p + be_interp(b.drop_last())) * 256
            + b.last());
        assert((be_interp(a) * p + be_interp(b.drop_last())) * 256 == be_interp(a) * p * 256
            + be_interp(b.drop_last()) * 256) by (nonlinear_arith);
        assert(be_interp(a) * p * 256 == be_interp(a) * (256 * p)) by (nonlinear_arith);
    }
}

/// The canonical 32-byte big-endian encoding of a 256-bit word.
pub open spec fn spec_u256_bytes(v: U256) -> Seq<u8> {
    be8(v.limbs@[3]) + be8(v.limbs@[2]) + be8(v.limbs@[1]) + be8(v.limbs@[0])
}

/// Big-endian round trip: reading the canonical encoding back as a
/// big-endian integer reproduces the encoded value.
pub proof fn lemma_u256_big_endian_round_trip(v: U256)
    ensures
        spec_u256_bytes(v).len() == 32,
        be_interp(spec_u256_bytes(v)) == v.as_nat(),
{
    let l0 = v.limbs@[0];
    let l1 = v.limbs@[1];
    let l2 = v.limbs@[2];
    let l3 = v.limbs@[3];
    lemma_be_interp_be8(l0);
    lemma_be_interp_be8(l1);
    lemma_be_interp_be8(l2);
    lemma_be_interp_be8(l3);
    let p8 = vstd::arithmetic::power::pow(256, 8);
    assert(p8 == 0x1_0000_0000_0000_0000) by {
        reveal_with_fuel(vstd::arithmetic::power::pow, 9);
    }
    lemma_be_interp_concat(be8(l3), be8(l2));
    lemma_be_interp_concat(be8(l3) + be8(l2), be8(l1));
    lemma_be_interp_concat(be8(l3) + be8(l2) + be8(l1), be8(l0));
    let i32_ = be_interp(spec_u256_bytes(v));
    assert(i32_ == ((l3 * p8 + l2) * p8 + l1) * p8 + l0);
    assert(((l3 * p8 + l2) * p8 + l1) * p8 + l0 == l0 + l1 * p8 + l2 * (p8 * p8) + l3 * (p8 * p8
        * p8)) by (nonlinear_arith);
    assert(p8 * p8 == 0x1_0000_0000_0000_0000_0000_0000_0000_0000);
    assert(p8 * p8 * p8 == 0x1_0000_0000_0000_0000_0000_0000_0000_0000_0000_0000_0000_0000);
}

/// Encodes a 256-bit word as exactly 32 bytes, big-endian,
/// zero-padded on the left.
pub fn u256_to_arr(value: &U256) -> (r: RawU256)
    ensures
        r@ == spec_u256_bytes(*value),
        be_interp(r@) == value.as_nat(),
{
    let mut result = [0u8; 32];
    let mut j: usize = 0;
    while j < 4
        invariant
            j <= 4,
            result@.len() == 32,
            forall|idx: int|
                0 <= idx < 8 * j ==> result@[idx] == spec_u256_bytes(*value)[idx],
        decreases 4 - j,
    {
        let limb = value.limbs[3 - j];
        let mut k: usize = 0;
        while k < 8
            invariant
                j < 4,
                k <= 8,
                result@.len() == 32,
                limb == value.limbs@[3 - j],
                forall|idx: int|
                    0 <= idx < 8 * j + k ==> result@[idx] == spec_u256_bytes(*value)[idx],
            decreases 8 - k,
        {
            let shift: u64 = 56 - 8 * (k as u64);
            result[8 * j + k] = (limb >> shift) as u8;
            proof {
                assert(be8(limb)[k as int] == (limb >> (56 - 8 * (k as int))) as u8);
                assert(spec_u256_bytes(*value)[8 * (j as int) + k] == be8(limb)[k as int]);
            }
            k = k + 1;
        }
        j = j + 1;
    }
    proof {
        assert(result@ =~= spec_u256_bytes(*value));
        lemma_u256_big_endian_round_trip(*value);
    }
    result
}

/// Hex round trip: reading a rendered byte sequence back, two digits
/// per byte, yields the original bytes, and the rendering is twice as long.
pub proof fn lemma_hex_round_trip(b: Seq<u8>)
    ensures
        hex_chars(b).len() == 2 * b.len(),
        hex_decode(hex_chars(b)) =~= b,
    decreases b.len(),
{
    lemma_hex_chars_len(b);
    if b.len() > 0 {
        let prev = b.drop_last();
        lemma_hex_round_trip(prev);
        let s = hex_chars(b);
        let sp = hex_chars(prev);
        assert forall|i: int| 0 <= i < b.len() implies (hex_val(s[2 * i]) * 16 + hex_val(
            s[2 * i + 1],
        )) as u8 == b[i] by {
            let x = b.last();
            assert(x / 16 < 16 && x % 16 < 16) by (bit_vector);
            assert(hex_val(hex_digit(x / 16)) == x / 16);
            assert(hex_val(hex_digit(x % 16)) == x % 16);
            if i < b.len() - 1 {
                assert(s[2 * i] == sp[2 * i]);
                assert(s[2 * i + 1] == sp[2 * i + 1]);
                assert(hex_decode(sp)[i] == prev[i]);
            } else {
                assert(s[2 * i] == hex_digit(x / 16));
                assert(s[2 * i + 1] == hex_digit(x % 16));
                assert(x / 16 * 16 + x % 16 == x) by (bit_vector);
            }
        }
    }
}

// ---------------------------------------------------------------------------
// Fixed-layout call-argument records
// ---------------------------------------------------------------------------

/// The four little-endian bytes framing a variable-length field's length.
pub open spec fn le32(n: int) -> Seq<u8>
    recommends
        0 <= n < 0x1_0000_0000,
{
    seq![
        (n % 256) as u8,
        ((n / 256) % 256) as u8,
        ((n / 0x10000) % 256) as u8,
        ((n / 0x1000000) % 256) as u8,
    ]
}

/// The length read back from a four-byte little-endian frame.
pub open spec fn le32_val(s: Seq<u8>) -> int
    recommends
        s.len() == 4,
{
    s[0] + s[1] * 256 + s[2] * 0x10000 + s[3] * 0x1000000
}

proof fn lemma_le32_round_trip(n: int)
    requires
        0 <= n < 0x1_0000_0000,
    ensures
        le32_val(le32(n)) == n,
{
    let x = n as u32;
    assert((x % 256) + ((x / 256) % 256) * 256 + ((x / 0x10000) % 256) * 0x10000 + ((x
        / 0x1000000) % 256) * 0x1000000 == x) by (bit_vector);
}

proof fn lemma_le32_of_bytes(b0: u8, b1: u8, b2: u8, b3: u8)
    ensures
        le32(b0 + b1 * 256 + b2 * 0x10000 + b3 * 0x1000000) =~= seq![b0, b1, b2, b3],
{
    assert(((b0 + b1 * 256 + b2 * 0x10000 + b3 * 0x1000000) % 0x1_0000_0000) as u32 % 256 == b0
        as u32) by (bit_vector);
    let n = b0 + b1 * 256 + b2 * 0x10000 + b3 * 0x1000000;
    let x = n as u32;
    assert(x % 256 == b0 as u32 && (x / 256) % 256 == b1 as u32 && (x / 0x10000) % 256 == b2
        as u32 && (x / 0x1000000) % 256 == b3 as u32) by (bit_vector)
        requires
            x == b0 + b1 * 256 + b2 * 0x10000 + b3 * 0x1000000,
    ;
}

/// Appends every byte of a slice to a vector.
fn push_slice(dst: &mut Vec<u8>, src: &[u8])
    ensures
        final(dst)@ == old(dst)@ + src@,
{
    let mut i: usize = 0;
    while i < src.len()
        invariant
            i <= src@.len(),
            dst@ == old(dst)@ + src@.take(i as int),
        decreases src@.len() - i,
    {
        dst.push(src[i]);
        proof {
            assert(src@.take(i + 1) =~= src@.take(i as int).push(src@[i as int]));
            assert(dst@ =~= old(dst)@ + src@.take(i + 1));
        }
        i = i + 1;
    }
    proof {
        assert(src@.take(src@.len() as int) =~= src@);
    }
}

/// Appends the four little-endian length bytes of a value below 2^32.
fn push_le32(dst: &mut Vec<u8>, n: usize)
    requires
        n < 0x1_0000_0000,
    ensures
        final(dst)@ == old(dst)@ + le32(n as int),
{
    dst.push((n % 256) as u8);
    dst.push(((n / 256) % 256) as u8);
    dst.push(((n / 0x10000) % 256) as u8);
    dst.push(((n / 0x1000000) % 256) as u8);
    proof {
        assert(dst@ =~= old(dst)@ + le32(n as int));
    }
}

/// Copies a fixed-width field out of a byte slice.
fn read_arr<const N: usize>(bytes: &[u8], start: usize) -> (r: [u8; N])
    requires
        start + N <= bytes@.len(),
    ensures
        r@ == bytes@.subrange(start as int, start + N),
{
    let len = bytes.len();
    let mut result = [0u8; N];
    let mut i: usize = 0;
    while i < N
        invariant
            i <= N,
            len == bytes@.len(),
            start + N <= len,
            result@.len() == N,
            forall|j: int| 0 <= j < i ==> result@[j] == bytes@[start + j],
        decreases N - i,
    {
        result[i] = bytes[start + i];
        i = i + 1;
    }
    proof {
        assert(result@ =~= bytes@.subrange(start as int, start + N));
    }
    result
}

/// Parameters of a contract call: target address and raw input.
#[derive(Debug, PartialEq, Eq)]
pub struct FunctionCallArgs {
    pub contract: RawAddress,
    pub input: Vec<u8>,
}

impl FunctionCallArgs {
    /// The input must fit the four-byte length frame.
    pub open spec fn wf(self) -> bool {
        self.input@.len() < 0x1_0000_0000
    }

    /// The canonical encoding: 20 address bytes, the input length as
    /// four little-endian bytes, then the input.
    pub open spec fn spec_bytes(self) -> Seq<u8> {
        self.contract@ + le32(self.input@.len() as int) + self.input@
    }

    pub fn to_bytes(&self) -> (r: Vec<u8>)
        requires
            self.wf(),
        ensures
            r@ == self.spec_bytes(),
    {
        let mut result: Vec<u8> = Vec::new();
        push_slice(&mut result, self.contract.as_slice());
        push_le32(&mut result, self.input.len());
        push_slice(&mut result, self.input.as_slice());
        result
    }

    /// Decodes the canonical encoding; any byte sequence that is not
    /// the encoding of exactly one record is rejected.
    pub fn try_from_bytes(bytes: &[u8]) -> (r: Option<Self>)
        ensures
            match r {
                Some(a) => a.wf() && bytes@ == a.spec_bytes(),
                None => forall|a: FunctionCallArgs| a.wf() ==> a.spec_bytes() != bytes@,
            },
    {
        if bytes.len() < 24 {
            return None;
        }
        let contract: RawAddress = read_arr(bytes, 0);
        let n: usize = bytes[20] as usize + bytes[21] as usize * 256 + bytes[22] as usize
            * 0x10000 + bytes[23] as usize * 0x1000000;
        proof {
            lemma_le32_of_bytes(bytes@[20], bytes@[21], bytes@[22], bytes@[23]);
        }
        if bytes.len() - 24 != n {
            proof {
                assert forall|a: FunctionCallArgs| a.wf() implies a.spec_bytes() != bytes@ by {
                    if a.spec_bytes() == bytes@ {
                        assert(a.spec_bytes().subrange(20, 24) =~= le32(
                            a.input@.len() as int,
                        ));
                        assert(bytes@.subrange(20, 24) =~= seq![
                            bytes@[20],
                            bytes@[21],
                            bytes@[22],
                            bytes@[23],
                        ]);
                        lemma_le32_round_trip(a.input@.len() as int);
                        assert(a.input@.len() == n);
                    }
                }
            }
            return None;
        }
        let mut input: Vec<u8> = Vec::new();
        let mut i: usize = 0;
        while i < n
            invariant
                n + 24 == bytes@.len(),
                n + 24 <= usize::MAX,
                i <= n,
                input@ == bytes@.subrange(24, 24 + i),
            decreases n - i,
        {
            input.push(bytes[24 + i]);
            proof {
                assert(bytes@.subrange(24, 24 + i + 1) =~= bytes@.subrange(24, 24 + i).push(
                    bytes@[24 + i],
                ));
            }
            i = i + 1;
        }
        let a = FunctionCallArgs { contract, input };
        proof {
            lemma_le32_of_bytes(bytes@[20], bytes@[21], bytes@[22], bytes@[23]);
            assert(bytes@ =~= a.spec_bytes());
        }
        Some(a)
    }
}

/// Parameters of a read-only view call.
#[derive(Debug, PartialEq, Eq)]
pub struct ViewCallArgs {
    pub sender: RawAddress,
    pub address: RawAddress,
    pub amount: RawU256,
    pub input: Vec<u8>,
}

impl ViewCallArgs {
    /// The input must fit the four-byte length frame.
    pub open spec fn wf(self) -> bool {
        self.input@.len() < 0x1_0000_0000
    }

    /// The canonical encoding: sender, target, 32 amount bytes, the
    /// input length as four little-endian bytes, then the input.
    pub open spec fn spec_bytes(self) -> Seq<u8> {
        self.sender@ + self.address@ + self.amount@ + le32(self.input@.len() as int)
            + self.input@
    }

    pub fn to_bytes(&self) -> (r: Vec<u8>)
        requires
            self.wf(),
        ensures
            r@ == self.spec_bytes(),
    {
        let mut result: Vec<u8> = Vec::new();
        push_slice(&mut result, self.sender.as_slice());
        push_slice(&mut result, self.address.as_slice());
        push_slice(&mut result, self.amount.as_slice());
        push_le32(&mut result, self.input.len());
        push_slice(&mut result, self.input.as_slice());
        result
    }

    /// Decodes the canonical encoding; any byte sequence that is not
    /// the encoding of exactly one record is rejected.
    pub fn try_from_bytes(bytes: &[u8]) -> (r: Option<Self>)
        ensures
            match r {
                Some(a) => a.wf() && bytes@ == a.spec_bytes(),
                None => forall|a: ViewCallArgs| a.wf() ==> a.spec_bytes() != bytes@,
            },
    {
        if bytes.len() < 76 {
            return None;
        }
        let sender: RawAddress = read_arr(bytes, 0);
        let address: RawAddress = read_arr(bytes, 20);
        let amount: RawU256 = read_arr(bytes, 40);
        let n: usize = bytes[72] as usize + bytes[73] as usize * 256 + bytes[74] as usize
            * 0x10000 + bytes[75] as usize * 0x1000000;
        proof {
            lemma_le32_of_bytes(bytes@[72], bytes@[73], bytes@[74], bytes@[75]);
        }
        if bytes.len() - 76 != n {
            proof {
                assert forall|a: ViewCallArgs| a.wf() implies a.spec_bytes() != bytes@ by {
                    if a.spec_bytes() == bytes@ {
                        assert(a.spec_bytes().subrange(72, 76) =~= le32(
                            a.input@.len() as int,
                        ));
                        assert(bytes@.subrange(72, 76) =~= seq![
                            bytes@[72],
                            bytes@[73],
                            bytes@[74],
                            bytes@[75],
                        ]);
                        lemma_le32_round_trip(a.input@.len() as int);
                        assert(a.input@.len() == n);
                    }
                }
            }
            return None;
        }
        let mut input: Vec<u8> = Vec::new();
        let mut i: usize = 0;
        while i < n
            invariant
                n + 76 == bytes@.len(),
                n + 76 <= usize::MAX,
                i <= n,
                input@ == bytes@.subrange(76, 76 + i),
            decreases n - i,
        {
            input.push(bytes[76 + i]);
            proof {
                assert(bytes@.subrange(76, 76 + i + 1) =~= bytes@.subrange(76, 76 + i).push(
                    bytes@[76 + i],
                ));
            }
            i = i + 1;
        }
        let a = ViewCallArgs { sender, address, amount, input };
        proof {
            lemma_le32_of_bytes(bytes@[72], bytes@[73], bytes@[74], bytes@[75]);
            assert(bytes@ =~= a.spec_bytes());
        }
        Some(a)
    }
}

/// Parameters of a storage read: address and 32-byte slot key.
#[derive(Debug, PartialEq, Eq)]
pub struct GetStorageAtArgs {
    pub address: RawAddress,
    pub key: RawH256,
}

impl GetStorageAtArgs {
    /// The canonical encoding: 20 address bytes then the 32 key bytes.
    pub open spec fn spec_bytes(self) -> Seq<u8> {
        self.address@ + self.key@
    }

    pub fn to_bytes(&self) -> (r: Vec<u8>)
        ensures
            r@ == self.spec_bytes(),
    {
        let mut result: Vec<u8> = Vec::new();
        push_slice(&mut result, self.address.as_slice());
        push_slice(&mut result, self.key.as_slice());
        result
    }

    /// Decodes the canonical encoding; exactly 52 bytes are accepted.
    pub fn try_from_bytes(bytes: &[u8]) -> (r: Option<Self>)
        ensures
            match r {
                Some(a) => bytes@ == a.spec_bytes(),
                None => forall|a: GetStorageAtArgs| a.spec_bytes() != bytes@,
            },
    {
        if bytes.len() != 52 {
            return None;
        }
        let a = GetStorageAtArgs { address: read_arr(bytes, 0), key: read_arr(bytes, 20) };
        proof {
            assert(bytes@ =~= a.spec_bytes());
        }
        Some(a)
    }
}

/// Parameters initializing a chain: its 32-byte chain id.
#[derive(Debug, PartialEq, Eq)]
pub struct BeginChainArgs {
    pub chain_id: RawU256,
}

impl BeginChainArgs {
    /// The canonical encoding: the 32 chain-id bytes.
    pub open spec fn spec_bytes(self) -> Seq<u8> {
        self.chain_id@
    }

    pub fn to_bytes(&self) -> (r: Vec<u8>)
        ensures
            r@ == self.spec_bytes(),
    {
        let mut result: Vec<u8> = Vec::new();
        push_slice(&mut result, self.chain_id.as_slice());
        result
    }

    /// Decodes the canonical encoding; exactly 32 bytes are accepted.
    pub fn try_from_bytes(bytes: &[u8]) -> (r: Option<Self>)
        ensures
            match r {
                Some(a) => bytes@ == a.spec_bytes(),
                None => forall|a: BeginChainArgs| a.spec_bytes() != bytes@,
            },
    {
        if bytes.len() != 32 {
            return None;
        }
        let a = BeginChainArgs { chain_id: read_arr(bytes, 0) };
        proof {
            assert(bytes@ =~= a.spec_bytes());
        }
        Some(a)
    }
}

/// Parameters initializing a block: six 32-byte header fields.
#[derive(Debug, PartialEq, Eq)]
pub struct BeginBlockArgs {
    /// The current block's hash (for replayer use).
    pub hash: RawU256,
    /// The current block's beneficiary address.
    pub coinbase: RawU256,
    /// The current block's timestamp (in seconds since the Unix epoch).
    pub timestamp: RawU256,
    /// The current block's number (the genesis block is number zero).
    pub number: RawU256,
    /// The current block's difficulty.
    pub difficulty: RawU256,
    /// The current block's gas limit.
    pub gaslimit: RawU256,
}

impl BeginBlockArgs {
    /// The canonical encoding: the six 32-byte fields in order.
    pub open spec fn spec_bytes(self) -> Seq<u8> {
        self.hash@ + self.coinbase@ + self.timestamp@ + self.number@ + self.difficulty@
            + self.gaslimit@
    }

    pub fn to_bytes(&self) -> (r: Vec<u8>)
        ensures
            r@ == self.spec_bytes(),
    {
        let mut result: Vec<u8> = Vec::new();
        push_slice(&mut result, self.hash.as_slice());
        push_slice(&mut result, self.coinbase.as_slice());
        push_slice(&mut result, self.timestamp.as_slice());
        push_slice(&mut result, self.number.as_slice());
        push_slice(&mut result, self.difficulty.as_slice());
        push_slice(&mut result, self.gaslimit.as_slice());
        result
    }

    /// Decodes the canonical encoding; exactly 192 bytes are accepted.
    pub fn try_from_bytes(bytes: &[u8]) -> (r: Option<Self>)
        ensures
            match r {
                Some(a) => bytes@ == a.spec_bytes(),
                None => forall|a: BeginBlockArgs| a.spec_bytes() != bytes@,
            },
    {
        if bytes.len() != 192 {
            return None;
        }
        let a = BeginBlockArgs {
            hash: read_arr(bytes, 0),
            coinbase: read_arr(bytes, 32),
            timestamp: read_arr(bytes, 64),
            number: read_arr(bytes, 96),
            difficulty: read_arr(bytes, 128),
            gaslimit: read_arr(bytes, 160),
        };
        proof {
            assert(bytes@ =~= a.spec_bytes());
        }
        Some(a)
    }
}

// ---------------------------------------------------------------------------
// Event-log serialization
// ---------------------------------------------------------------------------

/// The concatenation of 32-byte topics.
pub open spec fn topics_bytes(ts: Seq<RawH256>) -> Seq<u8>
    decreases ts.len(),
{
    if ts.len() == 0 {
        Seq::empty()
    } else {
        topics_bytes(ts.drop_last()) + ts.last()@
    }
}

/// The byte serialization of an event log: one topic-count byte,
/// the topics at 32 bytes each, then the data.
pub open spec fn spec_log_bytes(ts: Seq<RawH256>, data: Seq<u8>) -> Seq<u8> {
    seq![ts.len() as u8] + topics_bytes(ts) + data
}

proof fn lemma_topics_bytes_len(ts: Seq<RawH256>)
    ensures
        topics_bytes(ts).len() == 32 * ts.len(),
    decreases ts.len(),
{
    if ts.len() > 0 {
        lemma_topics_bytes_len(ts.drop_last());
    }
}

/// Serializes an event log's topics and data. A log with more than 255
/// topics cannot be framed by the one-byte count and is rejected.
pub fn log_to_bytes(topics: &Vec<RawH256>, data: &Vec<u8>) -> (r: Option<Vec<u8>>)
    ensures
        match r {
            Some(bytes) => topics@.len() <= 255 && bytes@ == spec_log_bytes(topics@, data@),
            None => topics@.len() > 255,
        },
{
    if topics.len() > 255 {
        return None;
    }
    let mut result: Vec<u8> = Vec::new();
    result.push(topics.len() as u8);
    let mut i: usize = 0;
    while i < topics.len()
        invariant
            i <= topics@.len(),
            topics@.len() <= 255,
            result@ == seq![topics@.len() as u8] + topics_bytes(topics@.take(i as int)),
        decreases topics@.len() - i,
    {
        let mut k: usize = 0;
        while k < 32
            invariant
                i < topics@.len(),
                k <= 32,
                result@ == seq![topics@.len() as u8] + topics_bytes(topics@.take(i as int))
                    + topics@[i as int]@.take(k as int),
            decreases 32 - k,
        {
            result.push(topics[i][k]);
            proof {
                assert(topics@[i as int]@.take(k + 1) =~= topics@[i as int]@.take(k as int).push(
                    topics@[i as int]@[k as int],
                ));
                assert(result@ =~= seq![topics@.len() as u8] + topics_bytes(
                    topics@.take(i as int),
                ) + topics@[i as int]@.take(k + 1));
            }
            k = k + 1;
        }
        proof {
            let t = topics@.take(i + 1);
            assert(t.drop_last() =~= topics@.take(i as int));
            assert(t.last() == topics@[i as int]);
            assert(topics@[i as int]@.take(32) =~= topics@[i as int]@);
            assert(result@ =~= seq![topics@.len() as u8] + topics_bytes(topics@.take(i + 1)));
        }
        i = i + 1;
    }
    proof {
        assert(topics@.take(topics@.len() as int) =~= topics@);
    }
    let mut d: usize = 0;
    while d < data.len()
        invariant
            d <= data@.len(),
            result@ == seq![topics@.len() as u8] + topics_bytes(topics@) + data@.take(d as int),
        decreases data@.len() - d,
    {
        result.push(data[d]);
        proof {
            assert(data@.take(d + 1) =~= data@.take(d as int).push(data@[d as int]));
            assert(result@ =~= seq![topics@.len() as u8] + topics_bytes(topics@) + data@.take(
                d + 1,
            ));
        }
        d = d + 1;
    }
    proof {
        assert(data@.take(data@.len() as int) =~= data@);
        assert(result@ =~= spec_log_bytes(topics@, data@));
    }
    Some(result)
}

// ---------------------------------------------------------------------------
// Address derivation
// ---------------------------------------------------------------------------

/// The Keccak-256 digest of a byte sequence. The digest is a pure
/// function of the input bytes alone; its definition lives in the
/// hashing backend.
pub uninterp spec fn keccak256_of(data: Seq<u8>) -> Seq<u8>;

/// Relies on sha3::Keccak256 through the Digest trait: the Keccak-256
/// digest of the input, 32 bytes, depending on the input bytes alone.
#[verifier::external_body]
pub fn keccak(data: &[u8]) -> (r: RawH256)
    ensures
        r@ == keccak256_of(data@),
{
    let digest = <sha3::Keccak256 as sha3::Digest>::digest(data);
    let mut out = [0u8; 32];
    out.copy_from_slice(&digest);
    out
}

/// Derives the 160-bit address of an opaque account identifier: the low
/// 20 bytes of the identifier's Keccak-256 digest.
pub fn near_account_to_evm_address(addr: &[u8]) -> (r: RawAddress)
    ensures
        r@ == keccak256_of(addr@).subrange(12, 32),
{
    let h = keccak(addr);
    let mut result = [0u8; 20];
    let mut i: usize = 0;
    while i < 20
        invariant
            i <= 20,
            result@.len() == 20,
            h@ == keccak256_of(addr@),
            forall|j: int| 0 <= j < i ==> result@[j] == h@[j + 12],
        decreases 20 - i,
    {
        result[i] = h[i + 12];
        i = i + 1;
    }
    proof {
        assert(result@ =~= keccak256_of(addr@).subrange(12, 32));
    }
    result
}

} // verus!
