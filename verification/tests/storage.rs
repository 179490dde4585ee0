use rustsptag::spann::decode::first_copies;
use rustsptag::spann::storage::LoadedPosting;
use rustsptag::spann::storage::{
    load, parse_header, parse_list_infos, encode_header, encode_list_info, PostingPayload, QuantizedBlock, SPANNStorage,
    StorageError, StorageHeader, ListInfo, PAGE_SIZE, HEADER_SIZE,
};
use rustsptag::spann::async_storage::AsyncStorage;
use rustsptag::spann::optimized_storage::OptimizedAsyncStorage;

fn ids_bytes(ids: &[usize]) -> Vec<u8> {
    let mut out = Vec::new();
    for &id in ids {
        out.extend_from_slice(&(id as u32).to_le_bytes());
    }
    out
}

fn sample_postings() -> Vec<PostingPayload> {
    vec![
        PostingPayload { vector_ids: vec![7, 3, 9], quantized: None, vector_bytes: vec![1, 2, 3, 4, 5, 6] },
        PostingPayload { vector_ids: vec![], quantized: None, vector_bytes: vec![] },
        PostingPayload { vector_ids: vec![42], quantized: None, vector_bytes: vec![0xAA; 20] },
    ]
}

#[test]
fn save_then_load_gives_back_postings() {
    let postings = sample_postings();
    let mut st = SPANNStorage::new();
    let image = st.save(&postings, 4, false, true, false).unwrap();
    let loaded = load(&image).unwrap();
    assert_eq!(loaded.header.num_postings, 3);
    assert_eq!(loaded.header.dim, 4);
    assert!(!loaded.header.enable_compression);
    assert!(loaded.header.enable_delta);
    assert!(!loaded.header.has_quantization);
    assert_eq!(loaded.postings.len(), 3);
    for (p, l) in postings.iter().zip(loaded.postings.iter()) {
        assert_eq!(l.vector_ids, p.vector_ids);
        let mut expected = ids_bytes(&p.vector_ids);
        expected.extend_from_slice(&p.vector_bytes);
        assert_eq!(l.buffer, expected);
    }
    assert_eq!(loaded.max_vector_id, 42);
    assert_eq!(loaded.postings[0].head_id, 7);
    assert_eq!(loaded.postings[1].head_id, 1);
}

#[test]
fn saved_postings_start_on_page_boundaries() {
    let postings = sample_postings();
    let mut st = SPANNStorage::new();
    let image = st.save(&postings, 4, false, false, false).unwrap();
    let loaded = load(&image).unwrap();
    let infos = &loaded.list_infos;
    assert_eq!(infos[0].offset as usize, PAGE_SIZE);
    assert_eq!(infos[0].total_bytes, 18);
    assert_eq!(infos[0].page_count, 1);
    assert_eq!(infos[0].ele_count, 3);
    assert_eq!(infos[0].page_offset, 0);
    assert_eq!(infos[1].total_bytes, 0);
    assert_eq!(infos[1].page_count, 0);
    assert_eq!(infos[2].offset as usize, 2 * PAGE_SIZE);
    assert_eq!(image.len() % PAGE_SIZE, 0);
}

#[test]
fn save_with_compression_round_trips() {
    let mut postings = sample_postings();
    postings.push(PostingPayload { vector_ids: (0..100).collect(), quantized: None, vector_bytes: vec![5; 4000] });
    let mut st = SPANNStorage::new();
    let image = st.save(&postings, 8, true, false, false).unwrap();
    let loaded = load(&image).unwrap();
    assert!(loaded.header.enable_compression);
    let big = &loaded.postings[3];
    assert_eq!(big.vector_ids, (0..100).collect::<Vec<usize>>());
    assert_eq!(big.buffer.len(), 400 + 4000);
    // the stored form is compressed: far shorter than the raw bytes
    assert!((loaded.list_infos[3].total_bytes as usize) < 4400);
}

#[test]
fn save_quantized_postings_store_metadata_and_codes() {
    let postings = vec![PostingPayload {
        vector_ids: vec![1, 2],
        quantized: Some(QuantizedBlock { metadata: vec![9, 9, 9], codes: vec![0x11, 0x22] }),
        vector_bytes: vec![0; 32],
    }];
    let mut st = SPANNStorage::new();
    let image = st.save(&postings, 4, false, false, true).unwrap();
    let loaded = load(&image).unwrap();
    assert!(loaded.header.has_quantization);
    let mut expected = ids_bytes(&[1, 2]);
    expected.extend_from_slice(&3u32.to_le_bytes());
    expected.extend_from_slice(&[9, 9, 9, 0x11, 0x22]);
    assert_eq!(loaded.postings[0].buffer, expected);
}

#[test]
fn load_of_short_file_is_truncated() {
    assert!(matches!(load(&[0u8; 10]), Err(StorageError::Truncated)));
    let postings = sample_postings();
    let mut st = SPANNStorage::new();
    let image = st.save(&postings, 4, false, false, false).unwrap();
    assert!(matches!(load(&image[..PAGE_SIZE + 4]), Err(StorageError::Truncated)));
}

#[test]
fn load_of_corrupt_compressed_posting_fails() {
    let postings = sample_postings();
    let mut st = SPANNStorage::new();
    let mut image = st.save(&postings, 4, true, false, false).unwrap();
    let off = PAGE_SIZE;
    for b in &mut image[off..off + 8] {
        *b = 0xFF;
    }
    assert!(matches!(load(&image), Err(StorageError::Compression(_))));
}

#[test]
fn header_and_table_encode_and_parse() {
    let h = StorageHeader { num_postings: 5, dim: 128, enable_compression: true, enable_delta: false, has_quantization: true };
    let mut out = Vec::new();
    encode_header(&mut out, &h);
    assert_eq!(out.len(), HEADER_SIZE);
    assert_eq!(parse_header(&out), Some(h));
    assert_eq!(parse_header(&out[..14]), None);
    let info = ListInfo { offset: 8192, page_count: 2, ele_count: 7, total_bytes: 9000, page_offset: 12 };
    let mut t = Vec::new();
    encode_list_info(&mut t, &info);
    encode_list_info(&mut t, &info);
    assert_eq!(t.len(), 40);
    assert_eq!(parse_list_infos(&t, 2), Some(vec![info, info]));
    assert_eq!(parse_list_infos(&t, 3), None);
}

#[test]
fn direct_reads_cover_whole_pages() {
    let info = ListInfo { offset: 3 * 8192 + 100, page_count: 2, ele_count: 1, total_bytes: 10, page_offset: 100 };
    assert_eq!(SPANNStorage::direct_read_window(&info), (3 * 8192, 2 * 8192));
    let mut pages = vec![0u8; 2 * 8192];
    pages[100..104].copy_from_slice(&5u32.to_le_bytes());
    pages[104..110].copy_from_slice(&[1, 2, 3, 4, 5, 6]);
    let body = SPANNStorage::read_posting_direct(&pages, &info, false).unwrap();
    assert_eq!(body, vec![5, 0, 0, 0, 1, 2, 3, 4, 5, 6]);
    assert_eq!(SPANNStorage::alloc_aligned_buffer(4096), vec![0u8; 4096]);
}

#[test]
fn async_storage_reads_stored_postings() {
    let postings = sample_postings();
    let mut st = SPANNStorage::new();
    let image = st.save(&postings, 4, true, false, false).unwrap();
    let loaded = load(&image).unwrap();
    let storage = AsyncStorage::new("index.bin".to_string(), loaded.list_infos.clone(), true, false);
    assert_eq!(storage.path(), "index.bin");
    let info = storage.list_info(0);
    let stored = &image[info.offset as usize..info.offset as usize + info.total_bytes as usize];
    let raw = storage.finish_posting(stored).unwrap();
    assert_eq!(raw, loaded.postings[0].buffer);
}

#[test]
fn optimized_storage_plans_reads() {
    let infos = vec![
        ListInfo { offset: 8192, page_count: 1, ele_count: 3, total_bytes: 18, page_offset: 0 },
        ListInfo { offset: 16384 + 10, page_count: 2, ele_count: 1, total_bytes: 8200, page_offset: 10 },
    ];
    let st = OptimizedAsyncStorage::new("f".to_string(), infos.clone(), false, true, true);
    assert_eq!(st.num_postings(), 2);
    assert!(st.is_delta_enabled());
    assert!(st.is_direct_io());
    assert_eq!(*st.get_list_info(1), infos[1]);
    assert_eq!(st.read_request(1), (16384 + 10, 12288));
    assert_eq!(st.read_request(0), (8192, 4096));
    let buffered = OptimizedAsyncStorage::new("f".to_string(), infos.clone(), false, true, false);
    assert!(!buffered.is_direct_io());
    assert_eq!(buffered.read_request(1), (16384 + 10, 8200));
}

#[test]
fn first_copy_of_each_vector_is_decoded() {
    let postings = vec![
        LoadedPosting { head_id: 0, vector_ids: vec![3, 1], buffer: vec![] },
        LoadedPosting { head_id: 1, vector_ids: vec![1, 2], buffer: vec![] },
        LoadedPosting { head_id: 2, vector_ids: vec![2, 4], buffer: vec![] },
    ];
    let copies = first_copies(&postings, &[true, false, true], 2);
    let got: Vec<(usize, usize, usize, usize)> = copies.iter().map(|c| (c.posting, c.slot, c.vector_id, c.offset)).collect();
    assert_eq!(got, vec![(0, 0, 3, 8), (0, 1, 1, 16), (2, 0, 2, 8), (2, 1, 4, 16)]);
    let all = first_copies(&postings, &[true, true, true], 2);
    let ids: Vec<usize> = all.iter().map(|c| c.vector_id).collect();
    assert_eq!(ids, vec![3, 1, 2, 4]);
    assert_eq!((all[2].posting, all[2].slot), (1, 1));
}

#[test]
fn compressed_save_of_no_postings_is_just_the_header() {
    let mut st = SPANNStorage::new();
    let image = st.save(&[], 2, true, false, false).unwrap();
    assert_eq!(image, vec![0, 0, 0, 0, 0, 0, 0, 0, 2, 0, 0, 0, 1, 0, 0]);
}
