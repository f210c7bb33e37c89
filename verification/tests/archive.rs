use artifice_installer::archive::{compress, decompress, download};

#[test]
fn compress_then_decompress_restores_the_bytes() {
    let data: Vec<u8> = b"the quick brown fox jumps over the lazy dog".to_vec();
    let packed = compress(&data).expect("in-memory compression must succeed");
    assert_ne!(packed, data);
    let unpacked = decompress(&packed).expect("decompressing what compress produced");
    assert_eq!(unpacked, data);
}

#[test]
fn empty_blob_round_trips() {
    let data: Vec<u8> = Vec::new();
    let packed = compress(&data).expect("in-memory compression must succeed");
    let unpacked = decompress(&packed).expect("decompressing what compress produced");
    assert_eq!(unpacked, data);
}

#[test]
fn decompress_rejects_bytes_that_are_no_archive() {
    let garbage: Vec<u8> = vec![1, 2, 3, 4, 5];
    assert!(decompress(&garbage).is_err());
}

#[test]
fn download_is_a_no_op() {
    download();
}
