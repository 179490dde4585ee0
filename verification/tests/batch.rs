use rustsptag::spann::batch::{BatchError, BatchProcessor};

#[test]
fn batch_path_names_the_process() {
    let b = BatchProcessor::new("/tmp/work", 10, 4321);
    assert_eq!(b.tmp_file(), "/tmp/work/batch_tmp_4321");
    assert_eq!(b.total(), 0);
}

#[test]
fn batch_flush_then_load_gives_back_items() {
    let mut b = BatchProcessor::new("/tmp", 3, 1);
    assert!(!b.add(vec![1, 2, 3]));
    assert!(!b.add(vec![]));
    assert!(b.add(vec![9]));
    let mut file = b.flush();
    assert_eq!(file.len(), 4 * 3 + 4);
    assert_eq!(b.flush(), file);
    b.flushed();
    assert!(!b.add(vec![5, 5]));
    file.extend(b.flush());
    b.flushed();
    assert_eq!(b.total(), 4);
    assert!(b.flush().is_empty());
    assert_eq!(b.load_batch(&file, 0, 4), Ok(vec![vec![1, 2, 3], vec![], vec![9], vec![5, 5]]));
    assert_eq!(b.load_batch(&file, 1, 3), Ok(vec![vec![], vec![9]]));
    assert_eq!(b.load_batch(&file, 2, 10), Ok(vec![vec![9], vec![5, 5]]));
    assert_eq!(b.load_batch(&file, 3, 1), Ok(vec![]));
}

#[test]
fn batch_load_of_cut_file_is_truncated() {
    let mut b = BatchProcessor::new("/tmp", 8, 1);
    b.add(vec![1, 2, 3, 4]);
    b.add(vec![5, 6]);
    let file = b.flush();
    let cut = &file[..file.len() - 1];
    assert_eq!(b.load_batch(cut, 0, 2), Err(BatchError::Truncated));
    assert_eq!(b.load_batch(cut, 0, 1), Ok(vec![vec![1, 2, 3, 4]]));
    assert_eq!(b.load_batch(&file[..2], 1, 2), Err(BatchError::Truncated));
}

#[test]
fn batch_items_stay_pending_until_flushed() {
    let mut b = BatchProcessor::new("/tmp", 2, 1);
    assert!(!b.add(vec![7]));
    assert!(b.add(vec![8, 8]));
    let first = b.flush();
    assert!(b.add(vec![9]));
    let second = b.flush();
    assert_eq!(second.len(), first.len() + 5);
    assert_eq!(b.load_batch(&second, 0, 3), Ok(vec![vec![7], vec![8, 8], vec![9]]));
    assert_eq!(b.total(), 3);
}
