use rustsptag::datasets::{parse_dim_records, parse_matrix};

fn words(ws: &[u32]) -> Vec<u8> {
    ws.iter().flat_map(|w| w.to_le_bytes()).collect()
}

#[test]
fn dim_prefixed_records_are_read_until_the_end() {
    let data = words(&[2, 1.5f32.to_bits(), 2.5f32.to_bits(), 0, 1, 7]);
    let rows = parse_dim_records(&data).unwrap();
    assert_eq!(rows.len(), 3);
    assert_eq!(f32::from_bits(rows[0][1]), 2.5);
    assert!(rows[1].is_empty());
    assert_eq!(rows[2], vec![7]);
}

#[test]
fn dim_prefixed_trailing_bytes_are_ignored_but_cut_records_fail() {
    let mut data = words(&[1, 9]);
    data.extend_from_slice(&[1, 2, 3]);
    assert_eq!(parse_dim_records(&data), Some(vec![vec![9]]));
    let cut = words(&[3, 1, 2]);
    assert_eq!(parse_dim_records(&cut), None);
    assert_eq!(parse_dim_records(&[]), Some(vec![]));
}

#[test]
fn matrix_rows_follow_their_counts() {
    let data = words(&[2, 3, 1, 2, 3, 4, 5, 6, 99]);
    assert_eq!(parse_matrix(&data), Some(vec![vec![1, 2, 3], vec![4, 5, 6]]));
    assert_eq!(parse_matrix(&data[..4 * 7]), None);
    assert_eq!(parse_matrix(&words(&[5, 0])), Some(vec![vec![]; 5]));
    assert_eq!(parse_matrix(&[0, 0, 0]), None);
}
