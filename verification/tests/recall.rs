use rustsptag::recall::{count_recall_matches, parse_ground_truth};

fn ivecs(rows: &[Vec<u32>]) -> Vec<u8> {
    let mut out = Vec::new();
    for r in rows {
        out.extend_from_slice(&(r.len() as u32).to_le_bytes());
        for x in r {
            out.extend_from_slice(&x.to_le_bytes());
        }
    }
    out
}

#[test]
fn ground_truth_rows_are_read_in_order() {
    let data = ivecs(&[vec![1, 2, 3], vec![], vec![9, 8]]);
    assert_eq!(parse_ground_truth(&data, 3), Some(vec![vec![1, 2, 3], vec![], vec![9, 8]]));
    assert_eq!(parse_ground_truth(&data, 1), Some(vec![vec![1, 2, 3]]));
    assert_eq!(parse_ground_truth(&data, 0), Some(vec![]));
}

#[test]
fn ground_truth_of_short_file_is_none() {
    let data = ivecs(&[vec![1, 2, 3], vec![4, 5]]);
    assert_eq!(parse_ground_truth(&data, 3), None);
    assert_eq!(parse_ground_truth(&data[..data.len() - 1], 2), None);
}

#[test]
fn recall_counts_hits_in_top_k() {
    assert_eq!(count_recall_matches(&[1, 2, 3, 4], &[4, 3, 9, 10], 2), 0);
    assert_eq!(count_recall_matches(&[1, 2, 3, 4], &[4, 3, 9, 10], 4), 2);
    assert_eq!(count_recall_matches(&[5, 6], &[6, 5, 1], 2), 2);
    assert_eq!(count_recall_matches(&[5, 5], &[5, 1], 2), 2);
    assert_eq!(count_recall_matches(&[], &[1, 2], 2), 0);
}
