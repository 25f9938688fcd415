use ununlink::drives::{drive_letters, drive_view, is_ntfs, is_ntfs_name, SourceDrive};
use ununlink::indexer::{Candidate, EntryOrDir};
use ununlink::scan::{scan_spans, worker_count, IndexerWorker, Received};

fn file(mft_no: u64, path: &str) -> Candidate {
    Candidate {
        mft_no,
        path: path.to_string(),
        size: 1,
        is_dir: false,
        created: None,
        modified: None,
        accessed: None,
    }
}

#[test]
fn default_worker_count_is_seven_tenths_but_at_least_two() {
    assert_eq!(worker_count(0, None), 2);
    assert_eq!(worker_count(1, None), 2);
    assert_eq!(worker_count(2, None), 2);
    assert_eq!(worker_count(3, None), 2);
    assert_eq!(worker_count(4, None), 3);
    assert_eq!(worker_count(5, None), 4);
    assert_eq!(worker_count(8, None), 6);
    assert_eq!(worker_count(16, None), 11);
    assert_eq!(worker_count(45, None), 32);
    assert_eq!(worker_count(64, None), 45);
}

#[test]
fn requested_worker_count_is_at_least_one() {
    assert_eq!(worker_count(8, Some(0)), 1);
    assert_eq!(worker_count(8, Some(1)), 1);
    assert_eq!(worker_count(8, Some(12)), 12);
}

#[test]
fn spans_are_contiguous_and_cover_the_range() {
    assert_eq!(scan_spans(24, 124, 4), vec![(24, 49), (49, 74), (74, 99), (99, 124)]);
    assert_eq!(scan_spans(24, 34, 3), vec![(24, 28), (28, 32), (32, 34)]);
    assert_eq!(scan_spans(0, 10, 1), vec![(0, 10)]);
    assert_eq!(scan_spans(24, 27, 8), vec![(24, 25), (25, 26), (26, 27)]);
    assert_eq!(scan_spans(0, 10, 4), vec![(0, 3), (3, 6), (6, 9), (9, 10)]);
    assert_eq!(scan_spans(0, 9, 4), vec![(0, 3), (3, 6), (6, 9)]);
}

#[test]
fn empty_range_has_no_span() {
    assert!(scan_spans(24, 24, 4).is_empty());
    assert!(scan_spans(30, 24, 4).is_empty());
}

#[test]
fn spans_at_the_end_of_the_number_range() {
    assert_eq!(
        scan_spans(u64::MAX - 5, u64::MAX, 2),
        vec![(u64::MAX - 5, u64::MAX - 2), (u64::MAX - 2, u64::MAX)]
    );
    assert_eq!(scan_spans(0, u64::MAX, 1), vec![(0, u64::MAX)]);
}

#[test]
fn worker_starts_with_the_root_only() {
    let w = IndexerWorker::new(4096);
    assert_eq!(w.flush_every, 4096);
    assert!(w.staging.is_empty());
    let (idx, found) = w.finish();
    assert_eq!(found, 0);
    assert!(matches!(idx.get("\\"), Some(EntryOrDir::Dir)));
    assert_eq!(idx.node_keys().len(), 1);
}

#[test]
fn worker_flushes_when_enough_candidates_wait() {
    let mut w = IndexerWorker::new(2);
    assert_eq!(w.receive(Received::Candidate(file(1, "\\d\\a"))), (0, true));
    assert_eq!(w.staging.len(), 1);
    assert!(w.index.get("\\d\\a").is_none());
    assert_eq!(w.receive(Received::Candidate(file(2, "\\d\\b"))), (2, true));
    assert!(w.staging.is_empty());
    assert!(w.index.get("\\d\\a").is_some());
    assert!(w.index.get("\\d\\b").is_some());
}

#[test]
fn worker_flushes_on_timeout() {
    let mut w = IndexerWorker::new(100);
    assert_eq!(w.receive(Received::Timeout), (0, true));
    assert_eq!(w.receive(Received::Candidate(file(1, "\\d\\a"))), (0, true));
    assert_eq!(w.receive(Received::Timeout), (1, true));
    assert!(w.staging.is_empty());
    assert!(w.index.get("\\d\\a").is_some());
}

#[test]
fn worker_stops_on_disconnect_and_flushes_at_the_end() {
    let mut w = IndexerWorker::new(100);
    assert_eq!(w.receive(Received::Candidate(file(1, "\\d\\a"))), (0, true));
    assert_eq!(w.receive(Received::Candidate(file(2, "\\d\\A"))), (0, true));
    assert_eq!(w.receive(Received::Disconnected), (0, false));
    assert_eq!(w.staging.len(), 2);
    let (idx, found) = w.finish();
    assert_eq!(found, 2);
    assert!(idx.get("\\d\\a").is_some());
    assert!(idx.get("\\d\\a_2").is_some());
}

#[test]
fn ntfs_is_recognized_in_any_case() {
    assert!(is_ntfs("NTFS"));
    assert!(is_ntfs("ntfs"));
    assert!(is_ntfs("Ntfs"));
    assert!(!is_ntfs("FAT32"));
    assert!(!is_ntfs("NTFS "));
    assert!(!is_ntfs(""));
    assert!(is_ntfs_name("NTFS"));
    assert!(!is_ntfs_name("ntfs"));
}

#[test]
fn drive_letters_follow_the_mask() {
    assert!(drive_letters(0).is_empty());
    assert_eq!(drive_letters(0b101), vec!['A', 'C']);
    assert_eq!(drive_letters(1 << 25), vec!['Z']);
    assert_eq!(drive_letters(1 << 26), Vec::<char>::new());
    assert_eq!(drive_letters(u32::MAX).len(), 26);
}

#[test]
fn drives_are_shown_with_humanized_sizes() {
    let v = drive_view(SourceDrive {
        letter: 'C',
        fs_name: "NTFS".to_string(),
        total_bytes: 500 * 1024 * 1024 * 1024,
        free_bytes: 1536,
    });
    assert_eq!(v.letter, 'C');
    assert_eq!(v.fs_name, "NTFS");
    assert_eq!(v.total, "500 GB");
    assert_eq!(v.free, "1 KB");
}
