use loaded::checksum::Checksum;
use loaded::stream::{PerpetualByteStream, PerpetualByteStreamSupplier};

#[test]
fn stream_emits_exactly_len_bytes_with_wrap() {
    let buf: Vec<u8> = (0u8..10).collect();
    let mut stream = PerpetualByteStream::new(buf, 7, 8);
    let bytes = stream.collect_remaining();
    assert_eq!(bytes, vec![7u8, 8, 9, 0, 1, 2, 3, 4]);
}

#[test]
fn stream_whole_buffer_without_wrap() {
    let buf: Vec<u8> = vec![10u8, 20, 30, 40];
    let mut stream = PerpetualByteStream::new(buf, 0, 4);
    let bytes = stream.collect_remaining();
    assert_eq!(bytes, vec![10u8, 20, 30, 40]);
}

#[test]
fn stream_wraps_repeatedly_over_short_buffer() {
    let buf: Vec<u8> = vec![b'a', b'b'];
    let mut stream = PerpetualByteStream::new(buf, 1, 5);
    let bytes = stream.collect_remaining();
    assert_eq!(bytes, vec![b'b', b'a', b'b', b'a', b'b']);
}

#[test]
fn stream_frames_capped_at_chunk_size() {
    let buf: Vec<u8> = vec![0u8; 20000];
    let mut stream = PerpetualByteStream::new(buf, 0, 20000);
    let mut sizes = Vec::new();
    while let Some(f) = stream.next_frame() {
        sizes.push(f.len());
    }
    assert_eq!(sizes, vec![16384, 3616]);
}

#[test]
fn empty_stream_emits_nothing() {
    let mut stream = PerpetualByteStream::empty();
    assert!(stream.next_frame().is_none());
}

#[test]
fn checksum_known_digests() {
    let abc = b"abc".to_vec();
    assert_eq!(Checksum::Md5.apply(&abc), "900150983cd24fb0d6963f7d28e17f72");
    assert_eq!(Checksum::Sha1.apply(&abc), "a9993e364706816aba3e25717850c26c9cd0d89d");
    assert_eq!(
        Checksum::Sha2.apply(&abc),
        "ba7816bf8f01cfea414140de5dae2223b00361a396177a9cb410ff61f20015ad"
    );
    let check = b"123456789".to_vec();
    assert_eq!(Checksum::Crc32.apply(&check), "765e7680");
    assert_eq!(Checksum::Crc32c.apply(&check), "e3069283");
}

#[test]
fn checksum_name_parsing() {
    assert!(matches!(Checksum::from_name("md5"), Some(Checksum::Md5)));
    assert!(matches!(Checksum::from_name("MD5"), Some(Checksum::Md5)));
    assert!(matches!(Checksum::from_name("Crc32"), Some(Checksum::Crc32)));
    assert!(matches!(Checksum::from_name("crc32c"), Some(Checksum::Crc32c)));
    assert!(matches!(Checksum::from_name("sha1"), Some(Checksum::Sha1)));
    assert!(matches!(Checksum::from_name("ShA2"), Some(Checksum::Sha2)));
    assert!(Checksum::from_name("sha256").is_none());
    assert!(Checksum::from_name("").is_none());
    assert!(Checksum::from_name("bogus").is_none());
}

#[test]
fn checksum_header_names() {
    assert_eq!(Checksum::Md5.header_name(), "Content-MD5");
    assert_eq!(Checksum::Crc32.header_name(), "x-amz-checksum-crc32");
    assert_eq!(Checksum::Crc32c.header_name(), "x-amz-checksum-crc32c");
    assert_eq!(Checksum::Sha1.header_name(), "x-amz-checksum-sha1");
    assert_eq!(Checksum::Sha2.header_name(), "x-amz-checksum-sha256");
}

#[test]
fn supplier_digest_matches_stream_bytes() {
    // Stride equal to the buffer length keeps every stream at offset 0.
    let supplier_buf = b"abc".to_vec();
    let mut supplier = PerpetualByteStreamSupplier::new_with_stride(supplier_buf, 0, 3, 3);
    let (mut stream, digest) = supplier.new_stream_with_checksum(&Checksum::Md5);
    assert_eq!(digest, "900150983cd24fb0d6963f7d28e17f72");
    assert_eq!(stream.collect_remaining(), b"abc".to_vec());

    // The same starting offset yields the same digest again.
    let (_, digest2) = supplier.new_stream_with_checksum(&Checksum::Md5);
    assert_eq!(digest2, "900150983cd24fb0d6963f7d28e17f72");
}

#[test]
fn supplier_advances_offset_per_stream() {
    let buf: Vec<u8> = (0u8..10).collect();
    let mut supplier = PerpetualByteStreamSupplier::new_with_stride(buf, 0, 4, 3);
    let mut s1 = supplier.new_stream();
    assert_eq!(s1.collect_remaining(), vec![0u8, 1, 2, 3]);
    let mut s2 = supplier.new_stream();
    assert_eq!(s2.collect_remaining(), vec![3u8, 4, 5, 6]);
    let mut s3 = supplier.new_stream();
    assert_eq!(s3.collect_remaining(), vec![6u8, 7, 8, 9]);
}

#[test]
fn warmed_supplier_returns_correct_digests() {
    let supplier_buf = b"abc".to_vec();
    let mut supplier = PerpetualByteStreamSupplier::with_checksums(
        supplier_buf,
        0,
        3,
        3,
        &vec![Checksum::Sha1],
    );
    let (_, digest) = supplier.new_stream_with_checksum(&Checksum::Sha1);
    assert_eq!(digest, "a9993e364706816aba3e25717850c26c9cd0d89d");
}
