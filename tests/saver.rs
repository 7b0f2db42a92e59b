use local_searcher::saver::DataSaver;

#[test]
fn save_chunks_numbers_in_order() {
    let mut saver = DataSaver::new("/tmp/db".to_string());
    let first = saver.save_chunk("héllo".to_string());
    assert_eq!(first.id, 1);
    assert_eq!(first.byte_len, 6);
    let recs = saver.save_chunks(vec!["a".to_string(), "bc".to_string()]);
    assert_eq!(recs.len(), 2);
    assert_eq!((recs[0].id, recs[0].byte_len), (2, 1));
    assert_eq!((recs[1].id, recs[1].byte_len), (3, 2));
    assert_eq!(saver.saved(), 3);
    assert_eq!(saver.db_path(), "/tmp/db");
}

#[test]
fn save_no_chunks() {
    let mut saver = DataSaver::new(String::new());
    assert!(saver.save_chunks(Vec::new()).is_empty());
    assert_eq!(saver.saved(), 0);
}
