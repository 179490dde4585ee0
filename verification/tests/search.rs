use rustsptag::spann::index::{
    decode_head_map, encode_head_map, gather_candidates, gather_on_demand, posting_limit, quantized_bytes_per_vector,
    quantized_sections, parse_posting_ids_prefix, PostingCandidates, QuantizationType, SearchStats,
};

fn full(ids: Vec<usize>) -> PostingCandidates {
    PostingCandidates { vector_ids: ids, quantized_count: None, check_uncoded: false }
}

#[test]
fn candidates_follow_head_order_and_skip_duplicates() {
    let postings = vec![full(vec![1, 2, 3]), full(vec![3, 4, 10])];
    let (cands, accessed) = gather_candidates(&[1, 0, 5], &postings, 5, 10);
    let ids: Vec<usize> = cands.iter().map(|c| c.vector_id).collect();
    assert_eq!(ids, vec![3, 4, 1, 2]);
    assert_eq!(accessed, 2);
    assert_eq!((cands[2].rank, cands[2].posting, cands[2].slot), (1, 0, 0));
}

#[test]
fn candidates_stop_at_max_check() {
    let postings = vec![full(vec![1, 2, 3]), full(vec![3, 4, 0])];
    let (cands, _) = gather_candidates(&[1, 0], &postings, 5, 3);
    let ids: Vec<usize> = cands.iter().map(|c| c.vector_id).collect();
    assert_eq!(ids, vec![3, 4, 0]);
}

#[test]
fn quantized_candidates_need_a_code() {
    let postings = vec![PostingCandidates { vector_ids: vec![7, 8, 9], quantized_count: Some(2), check_uncoded: false }];
    let (cands, _) = gather_candidates(&[0], &postings, 0, 10);
    let ids: Vec<usize> = cands.iter().map(|c| c.vector_id).collect();
    assert_eq!(ids, vec![7, 8]);
}

#[test]
fn head_map_round_trips() {
    let map = vec![5, 0, 70000, 3];
    let bytes = encode_head_map(&map);
    assert_eq!(bytes.len(), 16);
    assert_eq!(decode_head_map(&bytes), map);
    assert_eq!(decode_head_map(&bytes[..15]), vec![5, 0, 70000]);
}

#[test]
fn sizes_and_limits() {
    assert_eq!(quantized_bytes_per_vector(128, 1), 16);
    assert_eq!(quantized_bytes_per_vector(100, 4), 50);
    assert_eq!(quantized_bytes_per_vector(3, 2), 1);
    assert_eq!(posting_limit(8, 1000, 10, 100), 800);
    assert_eq!(posting_limit(8, 100, 10, 100), 100);
    assert_eq!(QuantizationType::Full.bits(), None);
    assert_eq!(QuantizationType::TwoBit.bits(), Some(2));
    assert_eq!(QuantizationType::FourBit.bits(), Some(4));
    let s = SearchStats::new();
    assert_eq!((s.bytes_read, s.posting_lists_accessed), (0, 0));
}

#[test]
fn on_demand_posting_sections() {
    let mut data = Vec::new();
    for id in [4u32, 9] {
        data.extend_from_slice(&id.to_le_bytes());
    }
    data.extend_from_slice(&3u32.to_le_bytes());
    data.extend_from_slice(&[1, 2, 3, 0xC0, 0xDE]);
    let (ids, meta_start, meta_len, codes_start) = quantized_sections(&data, 2).unwrap();
    assert_eq!(ids, vec![4, 9]);
    assert_eq!((meta_start, meta_len, codes_start), (12, 3, 15));
    assert!(quantized_sections(&data[..15], 2).is_none());
    assert_eq!(parse_posting_ids_prefix(&data[..6], 2), vec![4]);
}

#[test]
fn on_demand_candidates_need_their_whole_vector() {
    let dim = 1;
    let mut a = Vec::new();
    for id in [1u32, 2] {
        a.extend_from_slice(&id.to_le_bytes());
    }
    a.extend_from_slice(&[0; 8]);
    let mut b = Vec::new();
    for id in [2u32, 3] {
        b.extend_from_slice(&id.to_le_bytes());
    }
    b.extend_from_slice(&[0; 4]);
    let cands = gather_on_demand(&[a, b], &[2, 2], dim, 10);
    let got: Vec<(usize, usize, usize, usize)> = cands.iter().map(|c| (c.posting, c.slot, c.vector_id, c.offset)).collect();
    assert_eq!(got, vec![(0, 0, 1, 8), (0, 1, 2, 12)]);
}

#[test]
fn full_dedup_table_lets_a_repeated_id_through() {
    // Four checked but ineligible ids fill the four slots of a table sized
    // for two candidates; id 20 then finds no room and is never recorded.
    let postings = vec![
        PostingCandidates { vector_ids: vec![10, 11, 12, 13], quantized_count: Some(0), check_uncoded: true },
        full(vec![20, 20]),
    ];
    let (cands, _) = gather_candidates(&[0, 1], &postings, 100, 2);
    let got: Vec<(usize, usize)> = cands.iter().map(|c| (c.vector_id, c.slot)).collect();
    assert_eq!(got, vec![(20, 0), (20, 1)]);
}

#[test]
fn on_demand_full_dedup_table_lets_a_repeated_id_through() {
    let mut lists = Vec::new();
    for id in [10u32, 11, 12, 13] {
        lists.push(id.to_le_bytes().to_vec());
    }
    let mut last = Vec::new();
    for id in [20u32, 20] {
        last.extend_from_slice(&id.to_le_bytes());
    }
    last.extend_from_slice(&[0; 8]);
    lists.push(last);
    let cands = gather_on_demand(&lists, &[1, 1, 1, 1, 2], 1, 2);
    let got: Vec<(usize, usize, usize, usize)> = cands.iter().map(|c| (c.posting, c.slot, c.vector_id, c.offset)).collect();
    assert_eq!(got, vec![(4, 0, 20, 8), (4, 1, 20, 12)]);
}

#[test]
fn candidates_before_the_last_are_every_first_occurrence() {
    let postings = vec![full(vec![1, 2, 2, 3]), full(vec![3, 4, 5])];
    let (cands, _) = gather_candidates(&[0, 1], &postings, 10, 4);
    let ids: Vec<usize> = cands.iter().map(|c| c.vector_id).collect();
    assert_eq!(ids, vec![1, 2, 3, 4]);
}

#[test]
fn accessed_lists_stop_with_the_scan() {
    let postings = vec![full(vec![1, 2]), full(vec![3]), full(vec![4])];
    let (cands, accessed) = gather_candidates(&[0, 1, 2], &postings, 10, 2);
    let ids: Vec<usize> = cands.iter().map(|c| c.vector_id).collect();
    assert_eq!(ids, vec![1, 2]);
    assert_eq!(accessed, 2);
    let (_, all) = gather_candidates(&[0, 7, 1, 2], &postings, 10, 10);
    assert_eq!(all, 3);
}
