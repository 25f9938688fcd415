use ununlink::indexer::{
    apply_staging, is_basename_only, path_key_lc_from_u16, place_candidate, staged_path_of,
    Candidate, DeletedIndex, EntryMeta, EntryOrDir,
};

fn w(s: &str) -> Vec<u16> {
    s.encode_utf16().collect()
}

fn meta(mft_no: u64, size: u64) -> EntryMeta {
    EntryMeta {
        mft_no,
        is_dir: false,
        size,
        created: None,
        modified: None,
        accessed: None,
        name_u16: Vec::new(),
    }
}

fn file(mft_no: u64, path: &str, size: u64) -> Candidate {
    Candidate {
        mft_no,
        path: path.to_string(),
        size,
        is_dir: false,
        created: None,
        modified: None,
        accessed: None,
    }
}

fn dir(mft_no: u64, path: &str) -> Candidate {
    Candidate {
        mft_no,
        path: path.to_string(),
        size: 0,
        is_dir: true,
        created: None,
        modified: None,
        accessed: None,
    }
}

fn is_dir_node(idx: &DeletedIndex, key: &str) -> bool {
    matches!(idx.get(key), Some(EntryOrDir::Dir))
}

fn file_node<'a>(idx: &'a DeletedIndex, key: &str) -> &'a EntryMeta {
    match idx.get(key) {
        Some(EntryOrDir::File(m)) => m,
        other => panic!("no file under {:?}: {:?}", key, other),
    }
}

#[test]
fn new_index_holds_nothing() {
    let idx = DeletedIndex::new();
    assert!(idx.get("\\").is_none());
    assert!(idx.list_children("\\").is_empty());
    assert!(idx.node_keys().is_empty());
}

#[test]
fn ensuring_the_root_adds_only_the_root() {
    let mut idx = DeletedIndex::new();
    idx.ensure_dirs_from_root("\\");
    assert!(is_dir_node(&idx, "\\"));
    assert!(idx.list_children("\\").is_empty());
    assert_eq!(idx.node_keys().len(), 1);
}

#[test]
fn ensuring_a_path_adds_every_directory_on_it() {
    let mut idx = DeletedIndex::new();
    idx.ensure_dirs_from_root("\\Users\\Me\\Docs");
    assert!(is_dir_node(&idx, "\\"));
    assert!(is_dir_node(&idx, "\\users"));
    assert!(is_dir_node(&idx, "\\users\\me"));
    assert!(is_dir_node(&idx, "\\users\\me\\docs"));
    assert_eq!(idx.list_children("\\"), vec![w("Users")]);
    assert_eq!(idx.list_children("\\users"), vec![w("Me")]);
    assert_eq!(idx.list_children("\\users\\me"), vec![w("Docs")]);
    assert!(idx.list_children("\\users\\me\\docs").is_empty());
    assert_eq!(idx.node_keys().len(), 4);
}

#[test]
fn ensuring_twice_changes_nothing() {
    let mut idx = DeletedIndex::new();
    idx.ensure_dirs_from_root("\\a\\b");
    idx.ensure_dirs_from_root("\\A\\B");
    assert_eq!(idx.list_children("\\"), vec![w("a")]);
    assert_eq!(idx.list_children("\\a"), vec![w("b")]);
    assert_eq!(idx.node_keys().len(), 3);
}

#[test]
fn children_keep_their_order_of_arrival() {
    let mut idx = DeletedIndex::new();
    idx.insert_dir(&w("\\z"));
    idx.insert_dir(&w("\\a"));
    idx.insert_dir(&w("\\m"));
    assert_eq!(idx.list_children("\\"), vec![w("z"), w("a"), w("m")]);
}

#[test]
fn inserted_file_is_stored_under_its_key_with_its_name() {
    let mut idx = DeletedIndex::new();
    assert!(idx.insert_file(&w("\\Dir\\Report.TXT"), meta(100, 10)));
    assert!(is_dir_node(&idx, "\\dir"));
    let m = file_node(&idx, "\\dir\\report.txt");
    assert_eq!(m.mft_no, 100);
    assert_eq!(m.size, 10);
    assert_eq!(m.name_u16, w("Report.TXT"));
    assert_eq!(idx.list_children("\\dir"), vec![w("Report.TXT")]);
    assert_eq!(idx.list_children("\\"), vec![w("Dir")]);
}

#[test]
fn file_directly_under_the_root() {
    let mut idx = DeletedIndex::new();
    assert!(idx.insert_file(&w("\\report.txt"), meta(1, 2)));
    assert_eq!(file_node(&idx, "\\report.txt").name_u16, w("report.txt"));
    assert_eq!(idx.list_children("\\"), vec![w("report.txt")]);
}

#[test]
fn colliding_names_get_the_least_free_number() {
    let mut idx = DeletedIndex::new();
    assert!(idx.insert_file(&w("\\d\\file.txt"), meta(1, 1)));
    assert!(idx.insert_file(&w("\\d\\FILE.txt"), meta(2, 2)));
    assert!(idx.insert_file(&w("\\d\\File.TXT"), meta(3, 3)));
    assert_eq!(
        idx.list_children("\\d"),
        vec![w("file.txt"), w("FILE_2.txt"), w("File_3.TXT")]
    );
    assert_eq!(file_node(&idx, "\\d\\file.txt").mft_no, 1);
    assert_eq!(file_node(&idx, "\\d\\file_2.txt").mft_no, 2);
    assert_eq!(file_node(&idx, "\\d\\file_3.txt").mft_no, 3);
    assert_eq!(file_node(&idx, "\\d\\file_3.txt").name_u16, w("File_3.TXT"));
}

#[test]
fn number_goes_before_the_last_dot_only() {
    let mut idx = DeletedIndex::new();
    for _ in 0..2 {
        assert!(idx.insert_file(&w("\\noext"), meta(1, 1)));
        assert!(idx.insert_file(&w("\\a.tar.gz"), meta(1, 1)));
        assert!(idx.insert_file(&w("\\.hidden"), meta(1, 1)));
    }
    assert_eq!(
        idx.list_children("\\"),
        vec![
            w("noext"),
            w("a.tar.gz"),
            w(".hidden"),
            w("noext_2"),
            w("a.tar_2.gz"),
            w(".hidden_2")
        ]
    );
}

#[test]
fn a_taken_number_is_passed_over() {
    let mut idx = DeletedIndex::new();
    assert!(idx.insert_file(&w("\\a_2.txt"), meta(1, 1)));
    assert!(idx.insert_file(&w("\\a.txt"), meta(2, 1)));
    assert!(idx.insert_file(&w("\\A.txt"), meta(3, 1)));
    assert_eq!(idx.list_children("\\"), vec![w("a_2.txt"), w("a.txt"), w("A_3.txt")]);
}

#[test]
fn file_name_that_collides_with_a_directory_is_renamed() {
    let mut idx = DeletedIndex::new();
    idx.insert_dir(&w("\\a"));
    assert!(idx.insert_file(&w("\\A"), meta(7, 1)));
    assert!(is_dir_node(&idx, "\\a"));
    assert_eq!(file_node(&idx, "\\a_2").mft_no, 7);
    assert_eq!(idx.list_children("\\"), vec![w("a"), w("A_2")]);
}

#[test]
fn a_file_stays_and_nothing_is_entered_below_it() {
    let mut idx = DeletedIndex::new();
    assert!(idx.insert_file(&w("\\a"), meta(7, 1)));
    assert!(!idx.insert_file(&w("\\a\\b"), meta(8, 1)));
    assert!(!idx.insert_dir(&w("\\A\\c")));
    assert!(!idx.insert_dir(&w("\\a")));
    assert_eq!(file_node(&idx, "\\a").mft_no, 7);
    assert!(idx.get("\\a\\b").is_none());
    assert!(idx.get("\\a\\c").is_none());
    assert_eq!(idx.list_children("\\"), vec![w("a")]);
    assert_eq!(idx.node_keys().len(), 2);
}

#[test]
fn a_file_never_takes_the_place_of_the_root_or_a_directory() {
    let mut idx = DeletedIndex::new();
    assert!(idx.insert_dir(&w("\\a\\b")));
    assert!(!idx.insert_file(&w("\\.."), meta(1, 1)));
    assert!(!idx.insert_file(&w("\\a\\."), meta(2, 1)));
    assert!(!idx.insert_file(&w("\\a\\b\\.."), meta(3, 1)));
    assert!(!idx.insert_file(&w("\\"), meta(4, 1)));
    assert!(is_dir_node(&idx, "\\"));
    assert!(is_dir_node(&idx, "\\a"));
    assert!(is_dir_node(&idx, "\\a\\b"));
    assert_eq!(idx.list_children("\\"), vec![w("a")]);
    assert_eq!(idx.list_children("\\a"), vec![w("b")]);
    assert_eq!(idx.node_keys().len(), 3);
}

#[test]
fn directories_with_dots_and_drives_keep_the_tree_whole() {
    let mut idx = DeletedIndex::new();
    assert!(idx.insert_dir(&w("\\a\\..\\b\\.\\c")));
    assert!(idx.insert_file(&w("\\x\\c:\\y\\f.txt"), meta(1, 1)));
    let keys: Vec<String> = idx.node_keys().clone();
    for key in &keys {
        if key == "\\" {
            continue;
        }
        let at = key.rfind('\\').unwrap();
        let parent = if at == 0 { "\\" } else { &key[..at] };
        assert!(is_dir_node(&idx, parent), "parent of {:?}", key);
    }
    assert!(is_dir_node(&idx, "\\b\\c"));
    assert_eq!(file_node(&idx, "\\x\\c:\\y\\f.txt").mft_no, 1);
}

#[test]
fn index_coherence_on_a_mixed_sequence() {
    let mut idx = DeletedIndex::new();
    idx.insert_dir(&w("\\Alpha\\Beta"));
    idx.insert_file(&w("\\Alpha\\x.bin"), meta(1, 1));
    idx.insert_file(&w("\\alpha\\X.BIN"), meta(2, 1));
    idx.insert_file(&w("\\Gamma\\Delta\\y"), meta(3, 1));
    idx.insert_dir(&w("\\gamma"));
    let keys: Vec<String> = idx.node_keys().clone();
    for key in &keys {
        if key == "\\" {
            continue;
        }
        let at = key.rfind('\\').unwrap();
        let parent = if at == 0 { "\\" } else { &key[..at] };
        assert!(is_dir_node(&idx, parent), "parent of {:?}", key);
        let last = &key[at + 1..];
        let lows: Vec<String> = idx
            .list_children(parent)
            .iter()
            .map(|n| String::from_utf16_lossy(n).to_lowercase())
            .collect();
        assert_eq!(lows.iter().filter(|l| l.as_str() == last).count(), 1);
    }
    for key in &keys {
        let lows: Vec<String> = idx
            .list_children(key)
            .iter()
            .map(|n| String::from_utf16_lossy(n).to_lowercase())
            .collect();
        for (i, a) in lows.iter().enumerate() {
            for b in &lows[i + 1..] {
                assert_ne!(a, b);
            }
        }
    }
    assert_eq!(keys.len(), 8);
}

#[test]
fn basename_only_paths() {
    assert!(is_basename_only("\\orphan.bin"));
    assert!(is_basename_only("\\"));
    assert!(!is_basename_only("\\a\\b"));
    assert!(!is_basename_only("orphan.bin"));
    assert!(!is_basename_only(""));
}

#[test]
fn staged_paths_move_orphans_under_fakepath() {
    assert_eq!(staged_path_of("orphan.bin"), "\\fakepath\\orphan.bin");
    assert_eq!(staged_path_of("\\orphan.bin"), "\\fakepath\\orphan.bin");
    assert_eq!(staged_path_of("\\dir\\a.txt"), "\\dir\\a.txt");
    assert_eq!(staged_path_of("C:\\dir\\a.txt"), "\\dir\\a.txt");
    assert_eq!(staged_path_of(""), "\\");
}

#[test]
fn key_from_utf16_units() {
    assert_eq!(path_key_lc_from_u16(&w("\\Dir\\A.TXT")), "\\dir\\a.txt");
    assert_eq!(path_key_lc_from_u16(&w("R:\\")), "\\");
    assert_eq!(path_key_lc_from_u16(&[0x5c, 0xd800, 0x41]), "\\\u{fffd}a");
}

#[test]
fn placing_a_directory_candidate() {
    let mut idx = DeletedIndex::new();
    assert!(place_candidate(&mut idx, &dir(5, "\\Top\\Sub")));
    assert!(is_dir_node(&idx, "\\top\\sub"));
    assert_eq!(idx.list_children("\\top"), vec![w("Sub")]);
}

#[test]
fn placing_a_file_candidate_keeps_its_metadata() {
    let mut idx = DeletedIndex::new();
    let c = Candidate {
        mft_no: 42,
        path: "\\d\\f.txt".to_string(),
        size: 9,
        is_dir: false,
        created: Some(100),
        modified: Some(-3),
        accessed: None,
    };
    assert!(place_candidate(&mut idx, &c));
    let m = file_node(&idx, "\\d\\f.txt");
    assert_eq!(m.mft_no, 42);
    assert_eq!(m.size, 9);
    assert!(!m.is_dir);
    assert_eq!(m.created.map(|t| t.secs), Some(100));
    assert_eq!(m.modified.map(|t| t.secs), Some(0));
    assert!(m.accessed.is_none());
    assert_eq!(m.name_u16, w("f.txt"));
}

#[test]
fn applying_staging_places_all_and_empties_the_buffer() {
    let mut idx = DeletedIndex::new();
    idx.ensure_dirs_from_root("\\");
    let mut staging = vec![file(1, "\\a\\x", 1), dir(2, "\\b\\c"), file(3, "y", 3)];
    assert_eq!(apply_staging(&mut idx, &mut staging), 3);
    assert!(staging.is_empty());
    assert_eq!(idx.list_children("\\"), vec![w("a"), w("b"), w("fakepath")]);
    assert_eq!(file_node(&idx, "\\fakepath\\y").mft_no, 3);
    assert_eq!(apply_staging(&mut idx, &mut staging), 0);
}

#[test]
fn directory_candidate_without_a_parent_goes_under_fakepath() {
    let mut idx = DeletedIndex::new();
    assert!(place_candidate(&mut idx, &dir(2, "\\b")));
    assert!(is_dir_node(&idx, "\\fakepath\\b"));
    assert_eq!(idx.list_children("\\"), vec![w("fakepath")]);
}

#[test]
fn case_collision_scenario() {
    let mut idx = DeletedIndex::new();
    idx.ensure_dirs_from_root("\\");
    let mut staging = vec![file(1, "\\dir\\a.txt", 5), file(2, "\\DIR\\A.TXT", 7)];
    assert_eq!(apply_staging(&mut idx, &mut staging), 2);
    assert_eq!(idx.list_children("\\"), vec![w("dir")]);
    assert_eq!(idx.list_children("\\dir"), vec![w("a.txt"), w("A_2.TXT")]);
    assert_eq!(file_node(&idx, "\\dir\\a.txt").size, 5);
    assert_eq!(file_node(&idx, "\\dir\\a_2.txt").size, 7);
    assert_eq!(file_node(&idx, "\\dir\\a_2.txt").name_u16, w("A_2.TXT"));
}

#[test]
fn basename_only_candidate_scenario() {
    let mut idx = DeletedIndex::new();
    idx.ensure_dirs_from_root("\\");
    let mut staging = vec![file(9, "orphan.bin", 4)];
    assert_eq!(apply_staging(&mut idx, &mut staging), 1);
    assert_eq!(idx.list_children("\\"), vec![w("fakepath")]);
    assert!(is_dir_node(&idx, "\\fakepath"));
    assert_eq!(file_node(&idx, "\\fakepath\\orphan.bin").mft_no, 9);
}
