use rsync_core::checksum::{compute_strong_checksum, RollingChecksum, StrongChecksum};
use rsync_core::options::ChecksumAlgorithm;

#[test]
fn test_rolling_checksum_basic() {
    let data = b"hello world";
    let checksum = RollingChecksum::new(data);

    assert_ne!(checksum.checksum(), 0);
    assert_eq!(checksum.block_size(), data.len());
}

#[test]
fn test_rolling_checksum_roll() {
    let data1 = b"abc";
    let mut checksum1 = RollingChecksum::new(data1);

    let data2 = b"bcd";
    let checksum2 = RollingChecksum::new(data2);

    checksum1.roll(b'a', b'd');

    assert_eq!(checksum1.checksum(), checksum2.checksum());
}

#[test]
fn test_rolling_checksum_sliding_window() {
    let data = b"abcdefgh";
    let window_size = 4;

    let mut rolling = RollingChecksum::new(&data[0..window_size]);
    let first_checksum = rolling.checksum();

    rolling.roll(data[0], data[4]);
    let second_checksum = rolling.checksum();

    let direct = RollingChecksum::new(&data[1..5]);
    assert_eq!(second_checksum, direct.checksum());

    assert_ne!(first_checksum, second_checksum);
}

#[test]
fn test_strong_checksum_md5() {
    let data = b"test data";
    let checksum = compute_strong_checksum(data, &ChecksumAlgorithm::Md5);

    match checksum {
        StrongChecksum::Md5(ref bytes) => {
            assert_eq!(bytes.len(), 16);

            let checksum2 = compute_strong_checksum(data, &ChecksumAlgorithm::Md5);
            assert_eq!(checksum, checksum2);
        }
        _ => panic!("Expected Md5 checksum"),
    }
}

#[test]
fn test_strong_checksum_different_algorithms() {
    let data = b"test data";

    let md4 = compute_strong_checksum(data, &ChecksumAlgorithm::Md4);
    let md5 = compute_strong_checksum(data, &ChecksumAlgorithm::Md5);
    let blake2 = compute_strong_checksum(data, &ChecksumAlgorithm::Blake2);

    assert_ne!(md4.as_bytes(), md5.as_bytes());
    assert_ne!(md5.as_bytes(), blake2.as_bytes());
}

#[test]
fn test_strong_checksum_deterministic() {
    let data = b"deterministic test";

    let checksum1 = compute_strong_checksum(data, &ChecksumAlgorithm::Md5);
    let checksum2 = compute_strong_checksum(data, &ChecksumAlgorithm::Md5);

    assert_eq!(checksum1, checksum2);
}

#[test]
fn test_md5_known_digest() {
    // the reference MD5 of "abc"
    let digest = compute_strong_checksum(b"abc", &ChecksumAlgorithm::Md5);
    let expected: [u8; 16] = [
        0x90, 0x01, 0x50, 0x98, 0x3c, 0xd2, 0x4f, 0xb0,
        0xd6, 0x96, 0x3f, 0x7d, 0x28, 0xe1, 0x7f, 0x72,
    ];
    assert_eq!(digest.as_bytes().as_slice(), &expected);
}

#[test]
fn test_md4_known_digest() {
    // the reference MD4 of "abc"
    let digest = compute_strong_checksum(b"abc", &ChecksumAlgorithm::Md4);
    let expected: [u8; 16] = [
        0xa4, 0x48, 0x01, 0x7a, 0xaf, 0x21, 0xd8, 0x52,
        0x5f, 0xc1, 0x0a, 0xe8, 0x7a, 0xa6, 0x72, 0x9d,
    ];
    assert_eq!(digest.as_bytes().as_slice(), &expected);
}

#[test]
fn test_blake2_digest_length() {
    let digest = compute_strong_checksum(b"abc", &ChecksumAlgorithm::Blake2);
    assert_eq!(digest.as_bytes().len(), 64);
}

#[test]
fn test_xxh128_aliases_md5() {
    let a = compute_strong_checksum(b"alias check", &ChecksumAlgorithm::Xxh128);
    let b = compute_strong_checksum(b"alias check", &ChecksumAlgorithm::Md5);
    assert_eq!(a.as_bytes(), b.as_bytes());
}

#[test]
fn test_rolling_checksum_empty_window() {
    let checksum = RollingChecksum::new(b"");
    assert_eq!(checksum.checksum(), 0);
    assert_eq!(checksum.block_size(), 0);
}
