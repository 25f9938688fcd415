use ununlink::bridge::{
    copy_name, extension, file_list_item, list_is_full, list_limit, shown_path,
};

#[test]
fn list_limit_defaults_to_fifty_thousand() {
    assert_eq!(list_limit(None), 50_000);
    assert_eq!(list_limit(Some(10)), 10);
    assert_eq!(list_limit(Some(0)), 0);
}

#[test]
fn list_is_full_at_the_limit() {
    assert!(!list_is_full(9, 10));
    assert!(list_is_full(10, 10));
    assert!(list_is_full(11, 10));
    assert!(list_is_full(0, 0));
}

#[test]
fn shown_path_drops_the_verbatim_prefix() {
    assert_eq!(shown_path("\\\\?\\R:\\dir\\a.txt"), "R:\\dir\\a.txt");
    assert_eq!(shown_path("R:\\dir\\a.txt"), "R:\\dir\\a.txt");
    assert_eq!(shown_path("\\\\?\\"), "");
    assert_eq!(shown_path("\\\\?"), "\\\\?");
    assert_eq!(shown_path("\\\\.\\R:"), "\\\\.\\R:");
}

#[test]
fn extension_is_what_follows_the_last_dot() {
    assert_eq!(extension("a.txt"), ".txt");
    assert_eq!(extension("a.tar.gz"), ".gz");
    assert_eq!(extension("noext"), "");
    assert_eq!(extension(".hidden"), "");
    assert_eq!(extension(".hidden.txt"), ".txt");
    assert_eq!(extension("a."), ".");
    assert_eq!(extension(".."), "");
    assert_eq!(extension(""), "");
}

#[test]
fn file_list_item_is_built_from_name_and_path() {
    let item = file_list_item("Report.TXT".to_string(), "\\\\?\\R:\\d\\Report.TXT", Some(5), None);
    assert_eq!(item.name, "Report.TXT");
    assert_eq!(item.path, "R:\\d\\Report.TXT");
    assert_eq!(item.ext, ".TXT");
    assert_eq!(item.last_opened_ts, Some(5));
    assert_eq!(item.last_modified_ts, None);
}

#[test]
fn copy_names_are_numbered_before_the_last_dot() {
    assert_eq!(copy_name("a.txt", 2), "a (2).txt");
    assert_eq!(copy_name("a.tar.gz", 13), "a.tar (13).gz");
    assert_eq!(copy_name("noext", 3), "noext (3)");
    assert_eq!(copy_name(".hidden", 2), " (2).hidden");
    assert_eq!(copy_name("a", 0), "a (0)");
    assert_eq!(copy_name("a", u64::MAX), "a (18446744073709551615)");
}
