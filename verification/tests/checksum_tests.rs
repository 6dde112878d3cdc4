use rsync::checksum::{adler32, md5};

#[test]
fn adler32_known_value() {
    assert_eq!(adler32(b"Wikipedia"), 0x11E60398);
}

#[test]
fn adler32_empty_is_one() {
    assert_eq!(adler32(b""), 1);
}

#[test]
fn adler32_matches_reference_implementation() {
    let samples: Vec<Vec<u8>> = vec![
        vec![],
        vec![0u8; 100],
        b"hello world".to_vec(),
        (0u8..=255).collect(),
        (0..1000).map(|i| (i * 7 % 251) as u8).collect(),
    ];
    for data in samples {
        let mut reference = adler32::RollingAdler32::new();
        reference.update_buffer(&data);
        assert_eq!(adler32(&data), reference.hash());
    }
}

#[test]
fn adler32_forced_collision_pair() {
    // same byte sum and same weighted sum, different content
    assert_eq!(adler32(&[1, 0, 1]), adler32(&[0, 2, 0]));
    assert_ne!([1u8, 0, 1], [0u8, 2, 0]);
}

#[test]
fn md5_known_vectors() {
    assert_eq!(md5(b""), "d41d8cd98f00b204e9800998ecf8427e");
    assert_eq!(md5(b"abc"), "900150983cd24fb0d6963f7d28e17f72");
    assert_eq!(
        md5(b"The quick brown fox jumps over the lazy dog"),
        "9e107d9d372bb6826bd81d3542a419d6"
    );
}

#[test]
fn md5_is_32_hex_chars() {
    let digest = md5(b"anything at all");
    assert_eq!(digest.len(), 32);
    assert!(digest.chars().all(|c| c.is_ascii_hexdigit() && !c.is_ascii_uppercase()));
}
