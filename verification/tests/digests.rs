use proof_of_history::hash;

fn unhex(text: &str) -> [u8; 32] {
    let digits: Vec<u8> = text
        .bytes()
        .map(|c| match c {
            b'0'..=b'9' => c - b'0',
            b'a'..=b'f' => c - b'a' + 10,
            _ => panic!("not a hex digit"),
        })
        .collect();
    assert_eq!(digits.len(), 64);
    let mut bytes = [0u8; 32];
    for i in 0..32 {
        bytes[i] = digits[2 * i] * 16 + digits[2 * i + 1];
    }
    bytes
}

#[test]
fn hash_of_the_empty_message() {
    let expected = unhex("e3b0c44298fc1c149afbf4c8996fb92427ae41e4649b934ca495991b7852b855");
    assert_eq!(hash::hash(b""), hash::Hash::new(expected));
}

#[test]
fn hash_of_abc() {
    let expected = unhex("ba7816bf8f01cfea414140de5dae2223b00361a396177a9cb410ff61f20015ad");
    assert_eq!(hash::hash(b"abc"), hash::Hash::new(expected));
}

#[test]
fn hash_of_hello_world() {
    let expected = unhex("b94d27b9934d3e08a52e52d7da7dabfac484efe37a5380ee9088f7ace2efcde9");
    assert_eq!(hash::hash(b"hello world").0, expected);
}

#[test]
fn hash_of_the_zero_digest() {
    let expected = unhex("66687aadf862bd776c8fc18b8e9f8e20089714856ee233b3902a591d0d5f2925");
    assert_eq!(hash::hash(hash::Hash::default().as_bytes()).0, expected);
}

#[test]
fn hash_is_not_the_identity() {
    let zero = hash::Hash::default();
    assert_ne!(hash::hash(zero.as_bytes()), zero);
}

#[test]
fn hashv_of_two_zero_digests() {
    let expected = unhex("f5a5fd42d16a20302798ef6ed309979b43003d2320d9f0e8ea9831a92759fb4b");
    let zero = hash::Hash::default();
    assert_eq!(hash::hashv(&[zero.as_bytes(), zero.as_bytes()]).0, expected);
}

#[test]
fn hashv_hashes_the_concatenation() {
    assert_eq!(hash::hashv(&[b"hello", b" ", b"world"]), hash::hash(b"hello world"));
    assert_eq!(hash::hashv(&[b"hello world"]), hash::hash(b"hello world"));
    assert_eq!(hash::hashv(&[b"", b"abc", b""]), hash::hash(b"abc"));
}

#[test]
fn hashv_of_no_parts_is_the_hash_of_the_empty_message() {
    assert_eq!(hash::hashv(&[]), hash::hash(b""));
}

#[test]
fn hashv_depends_on_the_order_of_its_parts() {
    assert_ne!(hash::hashv(&[b"ab", b"cd"]), hash::hashv(&[b"cd", b"ab"]));
}

#[test]
fn default_hash_is_all_zero() {
    assert_eq!(hash::Hash::default().0, [0u8; 32]);
    assert_eq!(hash::Hash::default().as_bytes(), &[0u8; 32][..]);
}

#[test]
fn new_keeps_the_bytes() {
    let mut bytes = [0u8; 32];
    for i in 0..32 {
        bytes[i] = i as u8;
    }
    let h = hash::Hash::new(bytes);
    assert_eq!(h.0, bytes);
    assert_eq!(h.as_bytes(), &bytes[..]);
    assert_eq!(h.as_bytes().len(), 32);
}

#[test]
fn hashes_are_equal_when_all_bytes_are() {
    let a = hash::Hash::new([3u8; 32]);
    let b = hash::Hash::new([3u8; 32]);
    assert!(a == b);
    assert!(!(a != b));
    for i in 0..32 {
        let mut bytes = [3u8; 32];
        bytes[i] ^= 1;
        let c = hash::Hash::new(bytes);
        assert!(a != c, "byte {} differs", i);
        assert!(!(a == c));
    }
}
