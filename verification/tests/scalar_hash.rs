use md5::{Digest, Md5};
use md5_many::scalar::hash;

fn reference(input: &[u8]) -> [u8; 16] {
    let mut hasher = Md5::new();
    hasher.update(input);
    hasher.finalize().into()
}

#[test]
fn scalar_hash_known_answers() {
    assert_eq!(
        hash(b""),
        [
            0xd4, 0x1d, 0x8c, 0xd9, 0x8f, 0x00, 0xb2, 0x04, 0xe9, 0x80, 0x09, 0x98, 0xec, 0xf8,
            0x42, 0x7e
        ]
    );
    assert_eq!(
        hash(b"The quick brown fox jumps over the lazy dog"),
        [
            0x9e, 0x10, 0x7d, 0x9d, 0x37, 0x2b, 0xb6, 0x82, 0x6b, 0xd8, 0x1d, 0x35, 0x42, 0xa4,
            0x19, 0xd6
        ]
    );
}

#[test]
fn scalar_hash_matches_reference_at_padding_boundaries() {
    for len in [0usize, 1, 55, 56, 57, 63, 64, 65, 119, 120, 127, 128, 129, 1000] {
        let data: Vec<u8> = (0..len).map(|i| (i as u8).wrapping_mul(31).wrapping_add(7)).collect();
        assert_eq!(hash(&data), reference(&data), "len={len}");
    }
}
