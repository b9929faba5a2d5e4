//! Bit strings: the inputs of the protocol are strings of bits, least
//! significant bit of each number or byte first.

use vstd::prelude::*;
use vstd::string::{is_ascii, is_ascii_spec_bytes, StringSliceAdditionalSpecFns};

verus! {

/// Bit `i` of `x`, counted from the least significant one.
pub open spec fn bit_of(x: u32, i: u32) -> bool {
    (x >> i) & 1u32 == 1u32
}

/// The bits of a byte string: eight bits for each byte, lowest bit first.
pub open spec fn bits_of_bytes(bytes: Seq<u8>) -> Seq<bool> {
    Seq::new(8 * bytes.len(), |j: int| bit_of(bytes[j / 8] as u32, (j % 8) as u32))
}

/// The value of a bit as a byte with that bit at position `i`.
pub open spec fn bit_at(b: bool, i: u8) -> u8 {
    if b {
        1u8 << i
    } else {
        0u8
    }
}

/// The byte that eight bits spell, lowest bit first.
pub open spec fn byte_of_bits(b: Seq<bool>) -> u8 {
    bit_at(b[0], 0) | bit_at(b[1], 1) | bit_at(b[2], 2) | bit_at(b[3], 3) | bit_at(b[4], 4)
        | bit_at(b[5], 5) | bit_at(b[6], 6) | bit_at(b[7], 7)
}

/// The characters that a bit string spells, eight bits for each character.
pub open spec fn chars_of_bits(bits: Seq<bool>) -> Seq<char> {
    Seq::new(
        (bits.len() / 8) as nat,
        |k: int| byte_of_bits(bits.subrange(8 * k, 8 * k + 8)) as char,
    )
}

/// Whether the bit string spells ASCII characters only: its length is a
/// multiple of eight and the highest bit of every byte is clear.
pub open spec fn spells_ascii(bits: Seq<bool>) -> bool {
    &&& bits.len() % 8 == 0
    &&& forall|k: int| 0 <= k < bits.len() / 8 ==> !#[trigger] bits[8 * k + 7]
}

/// Calls `String::push`, which appends one character.
#[verifier::external_body]
fn push_char(s: &mut String, c: char)
    ensures
        final(s)@ == old(s)@.push(c),
{
    s.push(c);
}

/// The lowest `nbits` bits of `input`, lowest first.
pub fn u32_to_bits(nbits: u8, input: u32) -> (out: Vec<bool>)
    requires
        nbits <= 32,
    ensures
        out@.len() == nbits,
        forall|i: int| 0 <= i < nbits ==> out@[i] == bit_of(input, i as u32),
{
    let mut out: Vec<bool> = Vec::new();
    let mut i: u32 = 0;
    while i < nbits as u32
        invariant
            i <= nbits <= 32,
            out@.len() == i,
            forall|j: int| 0 <= j < i ==> out@[j] == bit_of(input, j as u32),
        decreases nbits - i,
    {
        out.push((input >> i) & 1u32 == 1u32);
        i += 1;
    }
    out
}

/// The bits of the bytes of a string. The bits of an ASCII string spell the
/// string again, so that [`bits_to_string`] gives it back.
pub fn string_to_bits(s: &str) -> (out: Vec<bool>)
    ensures
        out@ == bits_of_bytes(s.spec_bytes()),
        is_ascii(s) ==> spells_ascii(out@) && chars_of_bits(out@) == s@,
{
    let bytes = s.as_bytes();
    let mut out: Vec<bool> = Vec::new();
    let mut k: usize = 0;
    while k < bytes.len()
        invariant
            k <= bytes@.len(),
            out@.len() == 8 * k,
            forall|j: int|
                0 <= j < 8 * k ==> out@[j] == bit_of(bytes@[j / 8] as u32, (j % 8) as u32),
        decreases bytes@.len() - k,
    {
        let byte_bits = u32_to_bits(8, bytes[k] as u32);
        let mut i: usize = 0;
        while i < 8
            invariant
                i <= 8,
                k < bytes@.len(),
                byte_bits@.len() == 8,
                forall|j: int|
                    0 <= j < 8 ==> byte_bits@[j] == bit_of(bytes@[k as int] as u32, j as u32),
                out@.len() == 8 * k + i,
                forall|j: int|
                    0 <= j < 8 * k + i ==> out@[j] == bit_of(
                        bytes@[j / 8] as u32,
                        (j % 8) as u32,
                    ),
            decreases 8 - i,
        {
            out.push(byte_bits[i]);
            i += 1;
        }
        k += 1;
    }
    assert(out@ =~= bits_of_bytes(s.spec_bytes()));
    proof {
        if is_ascii(s) {
            lemma_string_roundtrip(s);
        }
    }
    out
}

/// The byte that the eight bits from position `at` on spell.
fn bits_to_u8(bits: &[bool], at: usize) -> (out: u8)
    requires
        at + 8 <= bits@.len(),
    ensures
        out == byte_of_bits(bits@.subrange(at as int, at + 8)),
        !bits@[at + 7] ==> out < 128,
{
    let b0: u8 = if bits[at] { 1u8 << 0u8 } else { 0u8 };
    let b1: u8 = if bits[at + 1] { 1u8 << 1u8 } else { 0u8 };
    let b2: u8 = if bits[at + 2] { 1u8 << 2u8 } else { 0u8 };
    let b3: u8 = if bits[at + 3] { 1u8 << 3u8 } else { 0u8 };
    let b4: u8 = if bits[at + 4] { 1u8 << 4u8 } else { 0u8 };
    let b5: u8 = if bits[at + 5] { 1u8 << 5u8 } else { 0u8 };
    let b6: u8 = if bits[at + 6] { 1u8 << 6u8 } else { 0u8 };
    let b7: u8 = if bits[at + 7] { 1u8 << 7u8 } else { 0u8 };
    let out = b0 | b1 | b2 | b3 | b4 | b5 | b6 | b7;
    proof {
        if !bits@[at + 7] {
            assert((b0 | b1 | b2 | b3 | b4 | b5 | b6 | b7) < 128u8) by (bit_vector)
                requires
                    b0 == 0u8 || b0 == 1u8 << 0u8,
                    b1 == 0u8 || b1 == 1u8 << 1u8,
                    b2 == 0u8 || b2 == 1u8 << 2u8,
                    b3 == 0u8 || b3 == 1u8 << 3u8,
                    b4 == 0u8 || b4 == 1u8 << 4u8,
                    b5 == 0u8 || b5 == 1u8 << 5u8,
                    b6 == 0u8 || b6 == 1u8 << 6u8,
                    b7 == 0u8,
            ;
        }
    }
    out
}

/// The string that a bit string spells, eight bits for each character.
pub fn bits_to_string(bits: &[bool]) -> (out: String)
    requires
        spells_ascii(bits@),
    ensures
        out@ == chars_of_bits(bits@),
{
    let mut out = String::new();
    let n = bits.len() / 8;
    let mut k: usize = 0;
    while k < n
        invariant
            k <= n,
            n == bits@.len() / 8,
            8 * n <= bits@.len() <= usize::MAX,
            spells_ascii(bits@),
            out@.len() == k,
            forall|j: int|
                0 <= j < k ==> out@[j] == byte_of_bits(bits@.subrange(8 * j, 8 * j + 8)) as char,
        decreases n - k,
    {
        assert(!bits@[8 * k + 7]);
        let byte = bits_to_u8(bits, 8 * k);
        push_char(&mut out, byte as char);
        k += 1;
    }
    assert(out@ =~= chars_of_bits(bits@));
    out
}

/// One bit of a byte, put back at its place, is the byte masked to that bit.
proof fn lemma_bit_back(x: u8, i: u8)
    requires
        i < 8,
    ensures
        bit_at(bit_of(x as u32, i as u32), i) == x & (1u8 << i),
{
    assert(((x as u32 >> i as u32) & 1u32 == 1u32) ==> (x & (1u8 << i)) == (1u8 << i))
        by (bit_vector)
        requires
            i < 8,
    ;
    assert(!((x as u32 >> i as u32) & 1u32 == 1u32) ==> (x & (1u8 << i)) == 0u8)
        by (bit_vector)
        requires
            i < 8,
    ;
}

/// The eight bits of a byte spell the byte.
pub proof fn lemma_byte_roundtrip(x: u8)
    ensures
        byte_of_bits(Seq::new(8, |i: int| bit_of(x as u32, i as u32))) == x,
        x < 128 ==> !bit_of(x as u32, 7),
{
    lemma_bit_back(x, 0);
    lemma_bit_back(x, 1);
    lemma_bit_back(x, 2);
    lemma_bit_back(x, 3);
    lemma_bit_back(x, 4);
    lemma_bit_back(x, 5);
    lemma_bit_back(x, 6);
    lemma_bit_back(x, 7);
    assert((x & (1u8 << 0u8)) | (x & (1u8 << 1u8)) | (x & (1u8 << 2u8)) | (x & (1u8 << 3u8)) | (x
        & (1u8 << 4u8)) | (x & (1u8 << 5u8)) | (x & (1u8 << 6u8)) | (x & (1u8 << 7u8)) == x)
        by (bit_vector);
    assert(x < 128 ==> !((x as u32 >> 7u32) & 1u32 == 1u32)) by (bit_vector);
}

/// The bits of a byte string spell its bytes, one character for each byte;
/// and if every byte is below 128, they spell ASCII characters only.
pub proof fn lemma_bits_roundtrip(bytes: Seq<u8>)
    ensures
        chars_of_bits(bits_of_bytes(bytes)) == Seq::new(bytes.len(), |k: int| bytes[k] as char),
        (forall|k: int| 0 <= k < bytes.len() ==> bytes[k] < 128) ==> spells_ascii(
            bits_of_bytes(bytes),
        ),
{
    let bits = bits_of_bytes(bytes);
    assert forall|k: int| 0 <= k < bytes.len() implies byte_of_bits(
        #[trigger] bits.subrange(8 * k, 8 * k + 8),
    ) == bytes[k] by {
        lemma_byte_roundtrip(bytes[k]);
        assert(bits.subrange(8 * k, 8 * k + 8) =~= Seq::new(
            8,
            |i: int| bit_of(bytes[k] as u32, i as u32),
        ));
    }
    assert(chars_of_bits(bits) =~= Seq::new(bytes.len(), |k: int| bytes[k] as char));
    if forall|k: int| 0 <= k < bytes.len() ==> bytes[k] < 128 {
        assert forall|k: int| 0 <= k < bits.len() / 8 implies !#[trigger] bits[8 * k + 7] by {
            lemma_byte_roundtrip(bytes[k]);
        }
    }
}

/// An ASCII string is spelled back by its bits: what [`bits_to_string`] makes
/// of what [`string_to_bits`] makes of it is the string itself.
pub proof fn lemma_string_roundtrip(s: &str)
    requires
        is_ascii(s),
    ensures
        spells_ascii(bits_of_bytes(s.spec_bytes())),
        chars_of_bits(bits_of_bytes(s.spec_bytes())) == s@,
{
    is_ascii_spec_bytes(s);
    let bytes = s.spec_bytes();
    lemma_bits_roundtrip(bytes);
    assert forall|k: int| 0 <= k < bytes.len() implies bytes[k] < 128 && bytes[k] as char
        == s@[k] by {
        assert('\0' <= s@[k] <= '\u{7f}');
    }
    assert(chars_of_bits(bits_of_bytes(bytes)) =~= s@);
}

} // verus!
