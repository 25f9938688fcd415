use ununlink::handler::{
    after_fill, file_index_from_key, key_for_dir_listing, Attributes, Disposition, FillOutcome,
    FindData, FsError, HandleCtx, OpenOptions, UnUnlinkFs,
};
use ununlink::indexer::{apply_staging, Candidate, DeletedIndex, EntryMeta};
use ununlink::util::EpochTime;

fn w(s: &str) -> Vec<u16> {
    s.encode_utf16().collect()
}

fn none() -> OpenOptions {
    OpenOptions {
        directory_file: false,
        non_directory_file: false,
        delete_on_close: false,
        open_reparse_point: false,
    }
}

fn file(mft_no: u64, path: &str, size: u64) -> Candidate {
    Candidate {
        mft_no,
        path: path.to_string(),
        size,
        is_dir: false,
        created: Some(1000),
        modified: Some(2000),
        accessed: None,
    }
}

fn entered(files: Vec<(u64, &str, u64)>) -> UnUnlinkFs {
    let mut idx = DeletedIndex::new();
    idx.ensure_dirs_from_root("\\");
    for (mft_no, path, size) in files {
        let meta = EntryMeta {
            mft_no,
            is_dir: false,
            size,
            created: Some(EpochTime { secs: 1000 }),
            modified: Some(EpochTime { secs: 2000 }),
            accessed: None,
            name_u16: Vec::new(),
        };
        assert!(idx.insert_file(&w(path), meta));
    }
    UnUnlinkFs::new("\\\\.\\C:".to_string(), idx)
}

fn serving(candidates: Vec<Candidate>) -> UnUnlinkFs {
    let mut idx = DeletedIndex::new();
    idx.ensure_dirs_from_root("\\");
    let mut staging = candidates;
    apply_staging(&mut idx, &mut staging);
    UnUnlinkFs::new("\\\\.\\C:".to_string(), idx)
}

fn sample() -> UnUnlinkFs {
    entered(vec![
        (100, "\\report.txt", 10),
        (101, "\\dir\\a.txt", 5),
        (102, "\\DIR\\A.TXT", 7),
        (103, "\\dir\\sub\\deep.bin", 1),
        (0, "\\dir\\zero", 3),
    ])
}

fn names(entries: &[FindData]) -> Vec<String> {
    entries.iter().map(|e| String::from_utf16_lossy(&e.file_name)).collect()
}

fn dir_ctx(path: &str) -> HandleCtx {
    HandleCtx { is_dir: true, mft_no: None, _path_u16: w(path) }
}

fn file_ctx(path: &str, mft_no: u64) -> HandleCtx {
    HandleCtx { is_dir: false, mft_no: Some(mft_no), _path_u16: w(path) }
}

#[test]
fn writing_dispositions_are_denied() {
    let fs = sample();
    for d in [
        Disposition::Create,
        Disposition::Supersede,
        Disposition::Overwrite,
        Disposition::OverwriteIf,
    ] {
        for path in ["\\", "\\report.txt", "\\dir", "\\missing"] {
            assert_eq!(fs.create_file(&w(path), d, none()).unwrap_err(), FsError::AccessDenied);
        }
    }
}

#[test]
fn delete_on_close_is_denied() {
    let fs = sample();
    let o = OpenOptions { delete_on_close: true, ..none() };
    assert_eq!(
        fs.create_file(&w("\\report.txt"), Disposition::Open, o).unwrap_err(),
        FsError::AccessDenied
    );
    assert_eq!(fs.create_file(&w("\\"), Disposition::Open, o).unwrap_err(), FsError::AccessDenied);
}

#[test]
fn root_opens_as_directory() {
    let fs = sample();
    for path in ["\\", "", "\\*", "\\*.*", "\\."] {
        let info = fs.create_file(&w(path), Disposition::Open, none()).unwrap();
        assert!(info.is_dir);
        assert!(info.context.is_dir);
        assert!(info.context.mft_no.is_none());
        assert!(!info.new_file_created);
        assert_eq!(info.context._path_u16, w(path));
    }
    let o = OpenOptions { non_directory_file: true, ..none() };
    assert!(fs.create_file(&w("\\"), Disposition::Other, o).unwrap().is_dir);
}

#[test]
fn directory_opens_as_directory_unless_a_file_is_demanded() {
    let fs = sample();
    let info = fs.create_file(&w("\\Dir"), Disposition::Open, none()).unwrap();
    assert!(info.is_dir);
    assert!(fs.create_file(&w("\\dir"), Disposition::Other, none()).unwrap().is_dir);
    let o = OpenOptions { non_directory_file: true, ..none() };
    assert_eq!(
        fs.create_file(&w("\\dir"), Disposition::Open, o).unwrap_err(),
        FsError::FileIsADirectory
    );
}

#[test]
fn file_opens_with_its_record_number() {
    let fs = sample();
    for d in [Disposition::Open, Disposition::OpenIf] {
        let info = fs.create_file(&w("\\Report.txt"), d, none()).unwrap();
        assert!(!info.is_dir);
        assert!(!info.context.is_dir);
        assert_eq!(info.context.mft_no, Some(100));
    }
    let o = OpenOptions { open_reparse_point: true, ..none() };
    assert!(fs.create_file(&w("\\report.txt"), Disposition::Open, o).is_ok());
}

#[test]
fn file_refuses_directory_and_other_dispositions() {
    let fs = sample();
    let o = OpenOptions { directory_file: true, ..none() };
    assert_eq!(
        fs.create_file(&w("\\report.txt"), Disposition::Open, o).unwrap_err(),
        FsError::NotADirectory
    );
    assert_eq!(
        fs.create_file(&w("\\report.txt"), Disposition::Other, none()).unwrap_err(),
        FsError::AccessDenied
    );
}

#[test]
fn absent_target() {
    let fs = sample();
    assert_eq!(
        fs.create_file(&w("\\missing"), Disposition::Open, none()).unwrap_err(),
        FsError::NotFound
    );
    assert_eq!(
        fs.create_file(&w("\\missing"), Disposition::OpenIf, none()).unwrap_err(),
        FsError::NotFound
    );
    assert_eq!(
        fs.create_file(&w("\\missing"), Disposition::Other, none()).unwrap_err(),
        FsError::AccessDenied
    );
}

#[test]
fn listing_key_drops_wildcards() {
    assert_eq!(key_for_dir_listing(&w("\\Dir\\*")), "\\dir");
    assert_eq!(key_for_dir_listing(&w("\\Dir\\*.*")), "\\dir");
    assert_eq!(key_for_dir_listing(&w("\\*")), "\\");
    assert_eq!(key_for_dir_listing(&w("\\Dir\\sub")), "\\dir\\sub");
    assert_eq!(key_for_dir_listing(&w("\\..")), "\\");
    assert_eq!(key_for_dir_listing(&w("")), "\\");
    assert_eq!(key_for_dir_listing(&w("\\a*")), "\\a*");
}

#[test]
fn fnv_file_index() {
    assert_eq!(file_index_from_key(""), 0xcbf29ce484222325);
    assert_eq!(file_index_from_key("a"), 0xaf63dc4c8601ec8c);
    assert_eq!(file_index_from_key("foobar"), 0x85944171f73967e8);
    assert_eq!(file_index_from_key("\\"), 0xaf64114c8602469b);
    assert_eq!(file_index_from_key("\\dir"), 0x2d0ed13dd19961ba);
}

#[test]
fn information_of_directories() {
    let fs = sample();
    let root = fs.get_file_information(&w("\\")).unwrap();
    assert_eq!(root.attributes, Attributes::Directory);
    assert_eq!(root.creation_time, EpochTime { secs: 0 });
    assert_eq!(root.last_access_time, EpochTime { secs: 0 });
    assert_eq!(root.last_write_time, EpochTime { secs: 0 });
    assert_eq!(root.file_size, 0);
    assert_eq!(root.number_of_links, 1);
    assert_eq!(root.file_index, file_index_from_key("\\"));
    let dir = fs.get_file_information(&w("\\DIR")).unwrap();
    assert_eq!(dir.attributes, Attributes::Directory);
    assert_eq!(dir.file_index, file_index_from_key("\\dir"));
    assert_eq!(dir.number_of_links, 1);
}

#[test]
fn information_of_files() {
    let fs = sample();
    let fi = fs.get_file_information(&w("\\Report.TXT")).unwrap();
    assert_eq!(fi.attributes, Attributes::ReadOnly);
    assert_eq!(fi.creation_time, EpochTime { secs: 1000 });
    assert_eq!(fi.last_write_time, EpochTime { secs: 2000 });
    assert_eq!(fi.last_access_time, EpochTime { secs: 0 });
    assert_eq!(fi.file_size, 10);
    assert_eq!(fi.number_of_links, 1);
    assert_eq!(fi.file_index, 100);
    let zero = fs.get_file_information(&w("\\dir\\zero")).unwrap();
    assert_eq!(zero.file_index, 0);
    assert_eq!(fs.get_file_information(&w("\\nope")).unwrap_err(), FsError::NotFound);
}

#[test]
fn entry_rendering() {
    let m = EntryMeta {
        mft_no: 5,
        is_dir: false,
        size: 77,
        created: Some(EpochTime { secs: 1 }),
        modified: None,
        accessed: Some(EpochTime { secs: 3 }),
        name_u16: w("N.txt"),
    };
    let d = m.to_find_data();
    assert_eq!(d.attributes, Attributes::ReadOnly);
    assert_eq!(d.creation_time.secs, 1);
    assert_eq!(d.last_write_time.secs, 0);
    assert_eq!(d.last_access_time.secs, 3);
    assert_eq!(d.file_size, 77);
    assert_eq!(d.file_name, w("N.txt"));
    let fi = m.to_file_info();
    assert_eq!(fi.file_index, 5);
    assert_eq!(fi.number_of_links, 1);
    assert_eq!(fi.file_size, 77);
    let as_dir = EntryMeta { is_dir: true, ..m };
    assert_eq!(as_dir.to_find_data().attributes, Attributes::Directory);
    assert_eq!(as_dir.to_file_info().attributes, Attributes::Directory);
}

#[test]
fn empty_volume_lists_only_the_dot_entries() {
    let fs = serving(Vec::new());
    let entries = fs.find_files(&dir_ctx("\\")).unwrap();
    assert_eq!(names(&entries), vec![".", ".."]);
    assert!(entries.iter().all(|e| e.attributes == Attributes::Directory));
    assert!(entries.iter().all(|e| e.file_size == 0 && e.creation_time.secs == 0));
}

#[test]
fn one_orphan_file_scenario() {
    let fs = entered(vec![(100, "\\report.txt", 10)]);
    let entries = fs.find_files(&dir_ctx("\\")).unwrap();
    assert_eq!(names(&entries), vec![".", "..", "report.txt"]);
    assert_eq!(entries[2].attributes, Attributes::ReadOnly);
    assert_eq!(entries[2].file_size, 10);
    let opened = fs.create_file(&w("\\report.txt"), Disposition::Open, none()).unwrap();
    assert_eq!(opened.context.mft_no, Some(100));
    let data = b"HELLO\nWRLD".to_vec();
    let mut buffer = vec![0xffu8; 10];
    let n = fs
        .read_file(&w("\\report.txt"), 0, &mut buffer, &opened.context, Some(&data))
        .unwrap();
    assert_eq!(n, 10);
    assert_eq!(buffer, data);
}

#[test]
fn scanned_file_without_a_directory_goes_under_fakepath() {
    let fs = serving(vec![file(100, "\\report.txt", 10)]);
    assert_eq!(names(&fs.find_files(&dir_ctx("\\")).unwrap()), vec![".", "..", "fakepath"]);
    let inside = fs.find_files(&dir_ctx("\\fakepath")).unwrap();
    assert_eq!(names(&inside), vec![".", "..", "report.txt"]);
    let opened =
        fs.create_file(&w("\\fakepath\\report.txt"), Disposition::Open, none()).unwrap();
    let data = b"HELLO\nWRLD".to_vec();
    let mut buffer = vec![0u8; 10];
    assert_eq!(
        fs.read_file(&w("\\fakepath\\report.txt"), 0, &mut buffer, &opened.context, Some(&data)),
        Ok(10)
    );
    assert_eq!(buffer, data);
}

#[test]
fn case_collision_is_enumerable_and_openable() {
    let fs = serving(vec![file(1, "\\dir\\a.txt", 5), file(2, "\\DIR\\A.TXT", 7)]);
    let entries = fs.find_files(&dir_ctx("\\dir")).unwrap();
    assert_eq!(names(&entries), vec![".", "..", "a.txt", "A_2.TXT"]);
    assert_eq!(entries[2].file_size, 5);
    assert_eq!(entries[3].file_size, 7);
    let first = fs.create_file(&w("\\dir\\a.txt"), Disposition::Open, none()).unwrap();
    let second = fs.create_file(&w("\\dir\\A_2.TXT"), Disposition::Open, none()).unwrap();
    assert_eq!(first.context.mft_no, Some(1));
    assert_eq!(second.context.mft_no, Some(2));
}

#[test]
fn fakepath_appears_at_the_root() {
    let fs = serving(vec![file(9, "orphan.bin", 4)]);
    let root = fs.find_files(&dir_ctx("\\")).unwrap();
    assert_eq!(names(&root), vec![".", "..", "fakepath"]);
    assert_eq!(root[2].attributes, Attributes::Directory);
    let inside = fs.find_files(&dir_ctx("\\fakepath")).unwrap();
    assert_eq!(names(&inside), vec![".", "..", "orphan.bin"]);
    assert!(fs.create_file(&w("\\fakepath\\orphan.bin"), Disposition::Open, none()).is_ok());
}

#[test]
fn listing_follows_order_of_arrival() {
    let fs = sample();
    let root = fs.find_files(&dir_ctx("\\")).unwrap();
    assert_eq!(names(&root), vec![".", "..", "report.txt", "dir"]);
    let dir = fs.find_files(&dir_ctx("\\dir\\*")).unwrap();
    assert_eq!(names(&dir), vec![".", "..", "a.txt", "A_2.TXT", "sub", "zero"]);
    assert_eq!(dir[4].attributes, Attributes::Directory);
}

#[test]
fn listing_through_a_file_handle() {
    let fs = sample();
    assert_eq!(
        fs.find_files(&file_ctx("\\report.txt", 100)).unwrap_err(),
        FsError::InvalidRequest
    );
    assert_eq!(
        fs.find_files_with_pattern(&w("*"), &file_ctx("\\report.txt", 100)).unwrap_err(),
        FsError::InvalidRequest
    );
    assert!(fs.find_files(&file_ctx("\\dir", 0)).is_ok());
    assert!(fs.find_files(&file_ctx("\\", 0)).is_ok());
    assert!(fs.find_files(&dir_ctx("\\report.txt")).is_ok());
}

#[test]
fn root_falls_back_to_first_level_names() {
    let mut idx = DeletedIndex::new();
    assert!(idx.list_children("\\").is_empty());
    let fs = UnUnlinkFs::new(String::new(), idx);
    assert!(fs.first_level_names().is_empty());
    assert_eq!(names(&fs.find_files(&dir_ctx("\\")).unwrap()), vec![".", ".."]);
    let fs = sample();
    assert_eq!(fs.first_level_names(), vec![w("dir"), w("report.txt")]);
    assert_eq!(fs.name_list("\\"), vec![w("report.txt"), w("dir")]);
    assert!(fs.name_list("\\nowhere").is_empty());
}

#[test]
fn pattern_listing_filters_without_regard_to_case() {
    let fs = sample();
    let ctx = dir_ctx("\\dir");
    let all = fs.find_files_with_pattern(&w("*"), &ctx).unwrap();
    assert_eq!(names(&all), vec![".", "..", "a.txt", "A_2.TXT", "sub", "zero"]);
    let all2 = fs.find_files_with_pattern(&w("*.*"), &ctx).unwrap();
    assert_eq!(names(&all2), names(&all));
    let txt = fs.find_files_with_pattern(&w("*.TXT"), &ctx).unwrap();
    assert_eq!(names(&txt), vec!["a.txt", "A_2.TXT"]);
    let one = fs.find_files_with_pattern(&w("?.txt"), &ctx).unwrap();
    assert_eq!(names(&one), vec!["a.txt"]);
    let nothing = fs.find_files_with_pattern(&w("*.doc"), &ctx).unwrap();
    assert!(nothing.is_empty());
}

#[test]
fn literal_pattern_stops_after_the_first_entry() {
    let fs = sample();
    let ctx = dir_ctx("\\dir");
    let lit = fs.find_files_with_pattern(&w("A_2.txt"), &ctx).unwrap();
    assert_eq!(names(&lit), vec!["A_2.TXT"]);
    let empty = fs.find_files_with_pattern(&w(""), &ctx).unwrap();
    assert_eq!(names(&empty), vec![".", "..", "a.txt"]);
    let missing = fs.find_files_with_pattern(&w("nothing"), &ctx).unwrap();
    assert!(missing.is_empty());
}

#[test]
fn fill_outcomes() {
    assert_eq!(after_fill(FillOutcome::Accepted), Ok(()));
    assert_eq!(after_fill(FillOutcome::NameTooLong), Ok(()));
    assert_eq!(after_fill(FillOutcome::BufferFull), Err(FsError::BufferOverflow));
}

#[test]
fn read_is_bounded_by_buffer_and_content() {
    let fs = sample();
    let ctx = file_ctx("\\report.txt", 100);
    let name = w("\\report.txt");
    let data: Vec<u8> = (1..=10).collect();
    let mut small = vec![0u8; 4];
    assert_eq!(fs.read_file(&name, 3, &mut small, &ctx, Some(&data)), Ok(4));
    assert_eq!(small, vec![4, 5, 6, 7]);
    let mut large = vec![0xeeu8; 16];
    assert_eq!(fs.read_file(&name, 6, &mut large, &ctx, Some(&data)), Ok(4));
    assert_eq!(&large[..4], &[7, 8, 9, 10]);
    assert!(large[4..].iter().all(|b| *b == 0xee));
    let mut any = vec![0xeeu8; 3];
    assert_eq!(fs.read_file(&name, 10, &mut any, &ctx, Some(&data)), Ok(0));
    assert_eq!(fs.read_file(&name, 11, &mut any, &ctx, Some(&data)), Ok(0));
    assert_eq!(fs.read_file(&name, i64::MAX, &mut any, &ctx, Some(&data)), Ok(0));
    assert_eq!(any, vec![0xee; 3]);
    assert_eq!(fs.read_file(&name, -5, &mut any, &ctx, Some(&data)), Ok(3));
    assert_eq!(any, vec![1, 2, 3]);
}

#[test]
fn trimmed_file_scenario() {
    let fs = entered(vec![(7, "\\zeroed.dat", 8)]);
    let opened = fs.create_file(&w("\\zeroed.dat"), Disposition::Open, none()).unwrap();
    let data = vec![0u8; 8];
    let mut buffer = vec![0xaau8; 8];
    assert_eq!(
        fs.read_file(&w("\\zeroed.dat"), 0, &mut buffer, &opened.context, Some(&data)),
        Err(FsError::NotFound)
    );
    assert_eq!(buffer, vec![0xaa; 8]);
}

#[test]
fn zero_rule_holds_only_at_the_start() {
    let fs = sample();
    let ctx = file_ctx("\\report.txt", 100);
    let name = w("\\report.txt");
    let data = vec![0u8, 0, 0, 0, 9, 0, 0, 0];
    let mut four = vec![1u8; 4];
    assert_eq!(fs.read_file(&name, 0, &mut four, &ctx, Some(&data)), Err(FsError::NotFound));
    assert_eq!(fs.read_file(&name, -1, &mut four, &ctx, Some(&data)), Err(FsError::NotFound));
    let mut five = vec![1u8; 5];
    assert_eq!(fs.read_file(&name, 0, &mut five, &ctx, Some(&data)), Ok(5));
    assert_eq!(five, vec![0, 0, 0, 0, 9]);
    let mut three = vec![1u8; 3];
    assert_eq!(fs.read_file(&name, 5, &mut three, &ctx, Some(&data)), Ok(3));
    assert_eq!(three, vec![0, 0, 0]);
    let mut empty: Vec<u8> = Vec::new();
    assert_eq!(fs.read_file(&name, 0, &mut empty, &ctx, Some(&data)), Err(FsError::NotFound));
    let no_data: Vec<u8> = Vec::new();
    assert_eq!(fs.read_file(&name, 0, &mut four, &ctx, Some(&no_data)), Ok(0));
}

#[test]
fn read_needs_a_file_handle_and_a_reader_that_answers() {
    let fs = sample();
    let name = w("\\report.txt");
    let data = vec![1u8, 2, 3];
    let mut buffer = vec![0u8; 3];
    assert_eq!(
        fs.read_file(&name, 0, &mut buffer, &dir_ctx("\\report.txt"), Some(&data)),
        Err(FsError::InvalidRequest)
    );
    assert_eq!(
        fs.read_file(&w("\\"), 0, &mut buffer, &file_ctx("\\", 5), Some(&data)),
        Err(FsError::InvalidRequest)
    );
    let no_record = HandleCtx { is_dir: false, mft_no: None, _path_u16: name.clone() };
    assert_eq!(
        fs.read_file(&name, 0, &mut buffer, &no_record, Some(&data)),
        Err(FsError::InvalidRequest)
    );
    assert_eq!(
        fs.read_file(&name, 0, &mut buffer, &file_ctx("\\report.txt", 100), None),
        Err(FsError::InvalidRequest)
    );
    assert_eq!(buffer, vec![0, 0, 0]);
    assert_eq!(fs.read_record(&name, &file_ctx("\\report.txt", 100)), Ok(100));
    assert_eq!(fs.read_record(&name, &dir_ctx("\\report.txt")), Err(FsError::InvalidRequest));
}

#[test]
fn every_write_is_denied_and_changes_nothing() {
    let fs = sample();
    let name = w("\\report.txt");
    let ctx = file_ctx("\\report.txt", 100);
    let before = names(&fs.find_files(&dir_ctx("\\dir")).unwrap());
    assert_eq!(fs.set_file_time(&name, &ctx), Err(FsError::AccessDenied));
    assert_eq!(fs.delete_file(&name, &ctx), Err(FsError::AccessDenied));
    assert_eq!(fs.delete_directory(&w("\\dir"), &dir_ctx("\\dir")), Err(FsError::AccessDenied));
    assert_eq!(fs.move_file(&name, &w("\\x"), true, &ctx), Err(FsError::AccessDenied));
    assert_eq!(fs.set_end_of_file(&name, 0, &ctx), Err(FsError::AccessDenied));
    assert_eq!(fs.set_allocation_size(&name, 0, &ctx), Err(FsError::AccessDenied));
    assert_eq!(fs.set_file_security(&name, &ctx), Err(FsError::AccessDenied));
    assert_eq!(fs.get_file_security(&name, &ctx), Err(FsError::NotImplemented));
    fs.cleanup(&name, &ctx);
    fs.close_file(&name, &ctx);
    assert_eq!(names(&fs.find_files(&dir_ctx("\\dir")).unwrap()), before);
    assert_eq!(fs.get_file_information(&name).unwrap().file_index, 100);
}

#[test]
fn volume_is_synthetic() {
    let fs = sample();
    let space = fs.get_disk_free_space().unwrap();
    assert_eq!(space.byte_count, 1 << 30);
    assert_eq!(space.free_byte_count, 1 << 30);
    assert_eq!(space.available_byte_count, 1 << 30);
    let v = fs.get_volume_information().unwrap();
    assert_eq!(v.name, "RecMagic");
    assert_eq!(v.fs_name, "NTFS");
    assert_eq!(v.serial_number, 0);
    assert_eq!(v.max_component_length, 255);
    assert!(v.case_preserved_names && v.unicode_on_disk && v.persistent_acls && v.named_streams);
    assert!(fs.mounted(&w("R:")).is_ok());
    assert!(fs.unmounted().is_ok());
}
