use rustsptag::spann::compression::ZstdCompressor;

#[test]
fn compress_changes_bytes_and_decompress_restores_them() {
    let c = ZstdCompressor::new(3);
    let data: Vec<u8> = (0..5000u32).map(|i| (i % 7) as u8).collect();
    let packed = c.compress(&data).unwrap();
    assert_ne!(packed, data);
    assert!(packed.len() < data.len());
    assert_eq!(c.decompress(&packed).unwrap(), data);
}

#[test]
fn decompress_of_garbage_fails() {
    let c = ZstdCompressor::new(1);
    assert!(c.decompress(&[1, 2, 3, 4, 5, 6, 7, 8]).is_err());
}

#[test]
fn dictionary_is_set_and_used() {
    let mut c = ZstdCompressor::new(3);
    assert!(c.get_dict().is_none());
    let samples: Vec<Vec<u8>> = (0..200u32)
        .map(|i| format!("posting list {} with ids {} {} {}", i % 13, i, i * 3, i * 7).into_bytes())
        .collect();
    if c.train_dict(&samples, 1024).is_ok() {
        assert!(c.get_dict().is_some());
        let data = b"posting list 5 with ids 10 30 70".to_vec();
        let packed = c.compress(&data).unwrap();
        assert_ne!(packed, data);
        assert_eq!(c.decompress(&packed).unwrap(), data);
    }
    c.set_dict(vec![1, 2, 3]);
    assert_eq!(c.get_dict(), Some(&[1u8, 2, 3][..]));
}

#[test]
fn raw_dictionary_round_trips() {
    let mut c = ZstdCompressor::new(3);
    c.set_dict(b"posting list with ids and vectors posting list with ids".to_vec());
    let data = b"posting list with ids 1 2 3 and vectors".to_vec();
    let packed = c.compress(&data).unwrap();
    assert_ne!(packed, data);
    assert_eq!(c.decompress(&packed).unwrap(), data);
    let plain = ZstdCompressor::new(3);
    assert!(plain.decompress(&packed).is_err() || plain.decompress(&packed).unwrap() != data);
}
