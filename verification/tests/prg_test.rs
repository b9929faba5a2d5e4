use mastic::bits::{bits_to_string, string_to_bits, u32_to_bits};
use mastic::prg::{hash_pair, xor_bytes, PrgSeed, HASH_SIZE, SEED_SIZE};
use mastic::FieldElm;

#[test]
fn expansion_is_the_hash_of_the_seed() {
    let seed = PrgSeed { key: *b"0123456789abcdef" };
    let out = seed.expand();
    let h = blake3::hash(&seed.key);
    let d = h.as_bytes();
    assert_eq!(out.seeds.0.key[..], d[0..16]);
    assert_eq!(out.seeds.1.key[..], d[16..32]);
    assert_eq!(out.bits.0, d[0] & 1 == 1);
    assert_eq!(out.bits.1, d[16] & 1 == 1);
    assert_ne!(out.seeds.0.key, seed.key);
    let again = seed.expand();
    assert_eq!(again.seeds, out.seeds);
    assert_eq!(again.bits, out.bits);
    assert_eq!(SEED_SIZE, 16);
    assert_eq!(HASH_SIZE, 32);
}

#[test]
fn conversion_is_the_hash_of_the_tagged_seed() {
    let seed = PrgSeed { key: [9u8; 16] };
    let mut input = seed.key.to_vec();
    input.push(1);
    let h = blake3::hash(&input);
    let d = h.as_bytes();
    let raw = u64::from_le_bytes(d[16..24].try_into().unwrap());
    let (next, word) = seed.convert::<u64>();
    assert_eq!(next.key[..], d[0..16]);
    assert_eq!(word, raw);
    let (next, word) = seed.convert::<FieldElm>();
    assert_eq!(next.key[..], d[0..16]);
    assert_eq!(word, FieldElm::from(raw));
}

#[test]
fn verification_material_is_the_hash_of_the_tagged_seed() {
    let seed = PrgSeed { key: [3u8; 16] };
    let mut input = seed.key.to_vec();
    input.push(2);
    assert_eq!(seed.node_proof(), *blake3::hash(&input).as_bytes());
    let a = [7u8; 32];
    let b = [8u8; 32];
    let mut both = a.to_vec();
    both.extend_from_slice(&b);
    assert_eq!(hash_pair(&a, &b), *blake3::hash(&both).as_bytes());
    assert_ne!(hash_pair(&a, &b), hash_pair(&b, &a));
}

#[test]
fn exclusive_or_cancels() {
    let a = PrgSeed { key: *b"0123456789abcdef" };
    let b = PrgSeed { key: [0x5a; 16] };
    let c = a.xor(&b);
    assert_eq!(c.key[0], b'0' ^ 0x5a);
    assert_eq!(c.key[15], b'f' ^ 0x5a);
    assert_eq!(c.xor(&b), a);
    assert_eq!(c.xor(&a), b);
    assert_eq!(a.xor(&PrgSeed::zero()), a);
    assert_eq!(PrgSeed::zero().key, [0u8; 16]);
    assert_eq!(xor_bytes(&[1u8, 2, 3], &[3u8, 2, 1]), [2u8, 0, 2]);
}

#[test]
fn random_seeds_differ() {
    let a = PrgSeed::random();
    let b = PrgSeed::random();
    assert_ne!(a, b);
}

#[test]
fn numbers_are_spelled_lowest_bit_first() {
    assert_eq!(u32_to_bits(5, 21), vec![true, false, true, false, true]);
    assert_eq!(u32_to_bits(3, 21), vec![true, false, true]);
    assert_eq!(u32_to_bits(0, 21), Vec::<bool>::new());
    let all = u32_to_bits(32, 0x8000_0001);
    assert_eq!(all.len(), 32);
    assert!(all[0] && all[31]);
    assert_eq!(all.iter().filter(|b| **b).count(), 2);
}

#[test]
fn strings_are_spelled_byte_by_byte() {
    assert_eq!(
        string_to_bits("a"),
        vec![true, false, false, false, false, true, true, false]
    );
    assert_eq!(string_to_bits("").len(), 0);
    assert_eq!(string_to_bits("abdef").len(), 40);
    let bits = string_to_bits("gZ???");
    assert_eq!(bits_to_string(&bits), "gZ???");
    assert_eq!(bits_to_string(&string_to_bits("  ?*g")), "  ?*g");
    assert_eq!(bits_to_string(&[]), "");
    assert_eq!(
        bits_to_string(&[false, true, false, false, false, false, true, false]),
        "B"
    );
}

#[test]
fn expansion_in_one_direction_leaves_the_other_seed_zero() {
    let seed = PrgSeed { key: *b"0123456789abcdef" };
    let both = seed.expand();
    let left = seed.expand_dir(true, false);
    assert_eq!(left.seeds.0, both.seeds.0);
    assert_eq!(left.seeds.1, PrgSeed::zero());
    assert_eq!(left.bits, both.bits);
    let right = seed.expand_dir(false, true);
    assert_eq!(right.seeds.0, PrgSeed::zero());
    assert_eq!(right.seeds.1, both.seeds.1);
    assert_eq!(right.bits, both.bits);
    let all = seed.expand_dir(true, true);
    assert_eq!(all.seeds, both.seeds);
}
