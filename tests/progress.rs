use backup_copier::progress::{
    progress_percent, FileProgress, Msg, MsgLogBoundary, ProgressTable, CHUNK_BYTES,
};

#[test]
fn percent_of_transferred_bytes() {
    assert_eq!(progress_percent(0, 0), 100);
    assert_eq!(progress_percent(5, 0), 100);
    assert_eq!(progress_percent(0, 1024), 0);
    assert_eq!(progress_percent(512, 1024), 50);
    assert_eq!(progress_percent(1023, 1024), 99);
    assert_eq!(progress_percent(1024, 1024), 100);
    assert_eq!(progress_percent(2000, 1024), 100);
    assert_eq!(progress_percent(usize::MAX - 1, usize::MAX), 99);
}

#[test]
fn stride_grows_with_file_size() {
    assert_eq!(MsgLogBoundary::from(0).0, 100);
    assert_eq!(MsgLogBoundary::from(10_000_000_000).0, 100);
    assert_eq!(MsgLogBoundary::from(10_000_000_001).0, 1000);
}

#[test]
fn zero_byte_file_reports_completion() {
    let mut p = FileProgress::new(7, "b.txt".to_string(), 0);
    let m = p.on_chunk(0).unwrap();
    assert_eq!((m.id, m.file_name.as_str(), m.progress), (7, "b.txt", 100));
    assert!(p.finished);
    assert_eq!(p.chunks, 0);
}

#[test]
fn small_files_report_each_chunk_and_the_end() {
    let mut p = FileProgress::new(0, "a.txt".to_string(), 5);
    let m = p.on_chunk(5).unwrap();
    assert_eq!(m.progress, 100);
    assert_eq!(p.on_chunk(0).unwrap().progress, 100);
    assert_eq!(p.transferred, 5);

    let mut q = FileProgress::new(1, "c.txt".to_string(), 1024);
    assert_eq!(q.on_chunk(256).unwrap().progress, 25);
    assert!(q.on_chunk(768).is_none());
    assert_eq!(q.on_chunk(0).unwrap().progress, 100);
    assert_eq!(q.transferred, 1024);
}

#[test]
fn one_chunk_in_a_hundred_is_reported() {
    let size = 300 * CHUNK_BYTES;
    let mut p = FileProgress::new(2, "big".to_string(), size);
    let mut reported = Vec::new();
    for i in 0..300 {
        if let Some(m) = p.on_chunk(CHUNK_BYTES) {
            reported.push((i, m.progress));
        }
    }
    assert_eq!(reported, vec![(0, 0), (100, 33), (200, 67)]);
    assert_eq!(p.on_chunk(0).unwrap().progress, 100);
}

fn msg(name: &str, progress: usize) -> Msg {
    Msg { id: 0, file_name: name.to_string(), progress }
}

#[test]
fn table_keeps_the_last_report_per_file() {
    let mut t = ProgressTable::new();
    assert_eq!(t.len(), 0);
    t.record(msg("a.txt", 10));
    t.record(msg("b.txt", 0));
    t.record(msg("a.txt", 60));
    assert_eq!(t.len(), 2);
    assert_eq!(t.get(&"a.txt".to_string()), Some(60));
    assert_eq!(t.get(&"b.txt".to_string()), Some(0));
    assert_eq!(t.get(&"c.txt".to_string()), None);
    assert_eq!(t.entry(0).file_name, "a.txt");
    assert_eq!(t.entry(1).progress, 0);
    assert_eq!(t.find(&"b.txt".to_string()), Some(1));
}
