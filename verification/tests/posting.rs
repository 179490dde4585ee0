use rustsptag::spann::posting::{PostingList, PostingListManager};

#[test]
fn posting_list_save_load_round_trip() {
    let mut p = PostingList::new(12);
    p.add_vector(3, &[1, 2]);
    p.add_vector(70000, &[3, 4]);
    assert_eq!(p.len(), 2);
    let bytes = p.save();
    assert_eq!(bytes.len(), 12 + 8 + 4);
    assert_eq!(&bytes[0..4], &12u32.to_le_bytes());
    assert_eq!(&bytes[4..8], &2u32.to_le_bytes());
    assert_eq!(&bytes[8..12], &4u32.to_le_bytes());
    let q = PostingList::load(&bytes).unwrap();
    assert_eq!(q.cluster_id, 12);
    assert_eq!(q.vector_ids, vec![3, 70000]);
    assert_eq!(q.quantized_data, vec![1, 2, 3, 4]);
}

#[test]
fn posting_list_load_of_short_bytes_is_none() {
    let mut p = PostingList::new(1);
    p.add_vector(5, &[9, 9, 9]);
    let bytes = p.save();
    assert!(PostingList::load(&bytes[..bytes.len() - 1]).is_none());
    assert!(PostingList::load(&bytes[..11]).is_none());
    let mut longer = bytes.clone();
    longer.push(0);
    assert_eq!(PostingList::load(&longer).unwrap().quantized_data, vec![9, 9, 9]);
}

#[test]
fn manager_saves_every_list_and_finds_by_cluster() {
    let mut m = PostingListManager::new("/tmp/postings".to_string());
    assert_eq!(m.base_path(), "/tmp/postings");
    let mut a = PostingList::new(4);
    a.add_vector(1, &[7]);
    let b = PostingList::new(9);
    m.add_posting_list(a);
    m.add_posting_list(b);
    let files = m.save_all();
    assert_eq!(files.len(), 2);
    assert_eq!(files[0].0, 4);
    assert_eq!(files[1].0, 9);
    assert_eq!(PostingList::load(&files[0].1).unwrap().vector_ids, vec![1]);
    assert_eq!(m.get_posting(9).unwrap().cluster_id, 9);
    assert!(m.get_posting(5).is_none());
}
