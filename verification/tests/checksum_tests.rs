use snowflake::checksum::{bytes_hex, Checksums};

#[test]
fn crc32_known_values() {
    // the classic CRC-32 check value
    assert_eq!(Checksums::from_bytes(&b"123456789".to_vec()).crc32, 0xcbf43926);
    assert_eq!(Checksums::from_bytes(&vec![]).crc32, 0);
    assert_ne!(
        Checksums::from_bytes(&b"a".to_vec()).crc32,
        Checksums::from_bytes(&b"b".to_vec()).crc32
    );
}

#[test]
fn digests_of_empty_input() {
    let c = Checksums::from_bytes(&vec![]);
    assert_eq!(c.crc32, 0);
    assert_eq!(c.md5, "d41d8cd98f00b204e9800998ecf8427e");
    assert_eq!(c.sha1, "da39a3ee5e6b4b0d3255bfef95601890afd80709");
    assert_eq!(
        c.sha256,
        "e3b0c44298fc1c149afbf4c8996fb92427ae41e4649b934ca495991b7852b855"
    );
}

#[test]
fn digests_of_known_text() {
    let c = Checksums::from_bytes(&b"abc".to_vec());
    assert_eq!(c.md5, "900150983cd24fb0d6963f7d28e17f72");
    assert_eq!(c.sha1, "a9993e364706816aba3e25717850c26c9cd0d89d");
    assert_eq!(
        c.sha256,
        "ba7816bf8f01cfea414140de5dae2223b00361a396177a9cb410ff61f20015ad"
    );
}

#[test]
fn hex_rendering() {
    assert_eq!(bytes_hex(&vec![]), "");
    assert_eq!(bytes_hex(&vec![0x00, 0xff, 0x1a]), "00ff1a");
}
