use varu64::{decode, encode, encode_write, encoding_length, DecodeError};

// Assert that the given u64 encodes to the expected encoding, and that the
// expected encoding decodes to the u64.
fn test_fixture(n: u64, exp: &[u8]) {
    let mut foo = [0u8; 9];

    let enc_len = encode(n, &mut foo[..]);
    assert_eq!(&foo[..enc_len], exp);

    let (dec, tail) = decode(exp).unwrap();
    assert_eq!(dec, n);
    assert_eq!(tail, &[][..]);
}

#[test]
fn fixtures() {
    test_fixture(0, &[0]);
    test_fixture(1, &[1]);
    test_fixture(247, &[247]);
    test_fixture(248, &[248, 248]);
    test_fixture(255, &[248, 255]);
    test_fixture(256, &[249, 1, 0]);
    test_fixture(65535, &[249, 255, 255]);
    test_fixture(65536, &[250, 1, 0, 0]);
    test_fixture(72057594037927935, &[254, 255, 255, 255, 255, 255, 255, 255]);
    test_fixture(72057594037927936, &[255, 1, 0, 0, 0, 0, 0, 0, 0]);

    assert_eq!(
        decode(&[]).unwrap_err(),
        (DecodeError::UnexpectedEndOfInput, &[][..])
    );
    assert_eq!(
        decode(&[248]).unwrap_err(),
        (DecodeError::UnexpectedEndOfInput, &[][..])
    );
    assert_eq!(
        decode(&[255, 0, 1, 2, 3, 4, 5]).unwrap_err(),
        (DecodeError::UnexpectedEndOfInput, &[][..])
    );
    assert_eq!(
        decode(&[255, 0, 1, 2, 3, 4, 5, 6]).unwrap_err(),
        (DecodeError::UnexpectedEndOfInput, &[][..])
    );

    assert_eq!(
        decode(&[248, 42]).unwrap_err(),
        (DecodeError::NonCanonical(42), &[][..])
    );
    assert_eq!(
        decode(&[249, 0, 42]).unwrap_err(),
        (DecodeError::NonCanonical(42), &[][..])
    );
}

#[test]
fn length_buckets_at_boundaries() {
    assert_eq!(encoding_length(0), 1);
    assert_eq!(encoding_length(247), 1);
    assert_eq!(encoding_length(248), 2);
    assert_eq!(encoding_length(255), 2);
    assert_eq!(encoding_length(256), 3);
    assert_eq!(encoding_length(65535), 3);
    assert_eq!(encoding_length(65536), 4);
    assert_eq!(encoding_length(16777215), 4);
    assert_eq!(encoding_length(16777216), 5);
    assert_eq!(encoding_length(4294967295), 5);
    assert_eq!(encoding_length(4294967296), 6);
    assert_eq!(encoding_length(1099511627775), 6);
    assert_eq!(encoding_length(1099511627776), 7);
    assert_eq!(encoding_length(281474976710655), 7);
    assert_eq!(encoding_length(281474976710656), 8);
    assert_eq!(encoding_length(72057594037927935), 8);
    assert_eq!(encoding_length(72057594037927936), 9);
    assert_eq!(encoding_length(u64::MAX), 9);
}

#[test]
fn encode_writes_exactly_encoding_length_bytes() {
    for &n in &[0u64, 247, 248, 255, 256, 65535, 65536, u64::MAX] {
        let mut buf = [0xAAu8; 9];
        let written = encode(n, &mut buf[..]);
        assert_eq!(written, encoding_length(n));
        // Re-decoding what encode produced never reports NonCanonical.
        let (dec, tail) = decode(&buf[..written]).unwrap();
        assert_eq!(dec, n);
        assert!(tail.is_empty());
        // Bytes past the encoding are untouched.
        for &b in &buf[written..] {
            assert_eq!(b, 0xAA);
        }
    }
}

#[test]
fn truncated_prefixes_beat_canonicity() {
    // A frame that would decode to NonCanonical(42) when complete: every
    // strictly shorter prefix must report UnexpectedEndOfInput instead.
    let frame = [249u8, 0, 42];
    for k in 0..frame.len() {
        assert_eq!(
            decode(&frame[..k]).unwrap_err(),
            (DecodeError::UnexpectedEndOfInput, &[][..])
        );
    }
    // The same for a canonical multi-byte frame.
    let frame = [250u8, 1, 0, 0];
    for k in 0..frame.len() {
        assert_eq!(
            decode(&frame[..k]).unwrap_err(),
            (DecodeError::UnexpectedEndOfInput, &[][..])
        );
    }
}

#[test]
fn non_canonical_consumes_the_full_frame() {
    // The full frame is consumed even on error, so a caller can
    // resynchronize on whatever follows.
    let input = [248u8, 42, 7];
    let (err, rest) = decode(&input).unwrap_err();
    assert_eq!(err, DecodeError::NonCanonical(42));
    assert_eq!(rest, &[7][..]);
}

#[test]
fn sequential_decoding_recovers_both_values() {
    let mut buf = [0u8; 18];
    let first_len = encode(300, &mut buf[..]);
    let second_len = encode(5, &mut buf[first_len..]);
    let total = first_len + second_len;

    let (a, rest) = decode(&buf[..total]).unwrap();
    assert_eq!(a, 300);
    assert_eq!(rest.len(), second_len);
    let (b, rest) = decode(rest).unwrap();
    assert_eq!(b, 5);
    assert!(rest.is_empty());
}

#[test]
fn encode_write_reports_the_byte_count() {
    let mut sink: Vec<u8> = Vec::new();
    let written = encode_write(256, &mut sink).unwrap();
    assert_eq!(written, 3);
    assert_eq!(sink, vec![249, 1, 0]);

    let mut sink: Vec<u8> = Vec::new();
    let written = encode_write(5, &mut sink).unwrap();
    assert_eq!(written, 1);
    assert_eq!(sink, vec![5]);
}

#[test]
fn error_messages_name_the_failure() {
    assert_eq!(
        DecodeError::NonCanonical(42).message(),
        "Invalid varu64: NonCanonical encoding of 42"
    );
    assert_eq!(
        DecodeError::UnexpectedEndOfInput.message(),
        "Invalid varu64: Not enough input bytes"
    );
}
