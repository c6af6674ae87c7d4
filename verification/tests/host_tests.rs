use gpui_ohos::host::{
    fits_c_string, list_picked_dir, open_picked_file, query_answer, query_answer_size, read_picked_file, remove_payload,
    rename_payload, restore_folder, status, utf8_valid_up_to, window_op_payload,
};
use gpui_ohos::ohos::{
    current_platform, request_quit, report_recovered_panic, root_dir, set_root_dir, should_close_window, take_frame_request,
    take_quit_request, take_restore_folder, tick, want_tick, Backend,
};
use gpui_ohos::picked_fs::{components, descriptor, directory_uri, file_uri, is_tagged_file, join, picked_metadata, OhosFs, PickedSource};

#[test]
fn command_payloads() {
    assert_eq!(window_op_payload("gpui_surface_2", "dark"), "gpui_surface_2\tdark");
    assert_eq!(remove_payload("file://docs/a", true), "1\tfile://docs/a");
    assert_eq!(remove_payload("file://docs/a", false), "0\tfile://docs/a");
    assert_eq!(rename_payload("a", "b"), "a\tb");
    assert!(fits_c_string("plain"));
    assert!(!fits_c_string("nul\0inside"));
}

#[test]
fn answers_are_read_as_the_host_writes_them() {
    assert_eq!(open_picked_file(Ok(" 42\n".to_string())), Some(42));
    assert_eq!(open_picked_file(Ok("-1".to_string())), Some(-1));
    assert_eq!(open_picked_file(Ok("x".to_string())), None);
    assert_eq!(open_picked_file(Err("gone".to_string())), None);
    assert_eq!(status(Ok(" 0 ".to_string())), Ok(()));
    assert_eq!(status(Ok(" denied\n".to_string())), Err("denied".to_string()));
    assert_eq!(status(Err("no host".to_string())), Err("no host".to_string()));
    assert_eq!(restore_folder(Ok(String::new())), None);
    assert_eq!(restore_folder(Ok("/data/p".to_string())), Some("/data/p".to_string()));
    assert_eq!(restore_folder(Err("e".to_string())), None);
}

#[test]
fn directory_listings() {
    let entries = list_picked_dir(Ok("a.txt|0|file://docs/a.txt\nsub|1|file://docs/sub|x\nbroken\n\nb|1\n".to_string()));
    assert_eq!(
        entries,
        vec![
            ("a.txt".to_string(), false, "file://docs/a.txt".to_string()),
            ("sub".to_string(), true, "file://docs/sub|x".to_string()),
        ]
    );
    assert!(list_picked_dir(Err("failed".to_string())).is_empty());
}

#[test]
fn query_answers_in_two_steps() {
    assert_eq!(query_answer_size(106, 12), Ok(12));
    assert_eq!(query_answer_size(106, -2), Err("host query 106 failed while sizing its answer: -2".to_string()));
    assert_eq!(query_answer(105, b"17xx".to_vec(), 2), Ok("17".to_string()));
    assert_eq!(query_answer(105, b"17".to_vec(), 9), Ok("17".to_string()));
    assert_eq!(query_answer(105, b"17".to_vec(), -1), Err("host query 105 failed while copying its answer: -1".to_string()));
    assert_eq!(
        query_answer(107, vec![b'a', 0xff, b'b'], 3),
        Err("host query 107 answered with invalid UTF-8 at byte 1".to_string())
    );
    assert_eq!(query_answer(107, "好".as_bytes().to_vec(), 3), Ok("好".to_string()));
}

#[test]
fn utf8_prefixes() {
    assert_eq!(utf8_valid_up_to(b"abc"), 3);
    assert_eq!(utf8_valid_up_to(&[0x61, 0xe5, 0xa5]), 1);
    assert_eq!(utf8_valid_up_to(&[0xed, 0xa0, 0x80]), 0);
    assert_eq!(utf8_valid_up_to(&[0xc0, 0x80]), 0);
    assert_eq!(utf8_valid_up_to("😀a".as_bytes()), 5);
    assert_eq!(utf8_valid_up_to(&[0xf4, 0x90, 0x80, 0x80]), 0);
}

#[test]
fn picked_files_read_as_text() {
    assert_eq!(read_picked_file(Ok(b"hello".to_vec())), Ok("hello".to_string()));
    assert!(read_picked_file(Ok(vec![0xff])).is_err());
    assert_eq!(read_picked_file(Err("read failed".to_string())), Err("read failed".to_string()));
}

#[test]
fn tags_name_picked_things() {
    assert_eq!(directory_uri("dir:file://docs/x"), Some("file://docs/x".to_string()));
    assert_eq!(directory_uri("file:file://docs/x"), None);
    assert_eq!(file_uri("file:file://docs/x"), Some("file://docs/x".to_string()));
    assert_eq!(descriptor("fd:12"), Some(12));
    assert_eq!(descriptor("fd:x"), None);
    assert!(is_tagged_file("fd:3"));
    assert!(is_tagged_file("file:u"));
    assert!(!is_tagged_file("dir:u"));
    assert!(!is_tagged_file("/plain/path"));
}

#[test]
fn paths_compare_by_components() {
    let c = |p: &str| -> Vec<String> { components(p).into_iter().map(|v| v.into_iter().collect()).collect() };
    assert_eq!(c("/a//b/"), vec!["/", "a", "b"]);
    assert_eq!(c("./a/./b"), vec![".", "a", "b"]);
    assert_eq!(c("dir:file://docs/x"), vec!["dir:file:", "docs", "x"]);
    assert_eq!(join("dir:root", "a.txt"), "dir:root/a.txt");
    assert_eq!(join("dir:root/", "a.txt"), "dir:root/a.txt");
    assert_eq!(join("base", "/abs"), "/abs");
    assert_eq!(join("", "x"), "x");
}

#[test]
fn listings_teach_the_picked_filesystem() {
    let mut fs = OhosFs::new();
    assert!(fs.is_picked("dir:file://docs/root"));
    assert_eq!(fs.is_dir("dir:file://docs/root"), Some(true));
    assert_eq!(fs.is_file("fd:4"), Some(true));
    assert_eq!(fs.is_dir("/etc"), None);
    assert_eq!(fs.metadata("/etc"), None);
    let children = fs.record_listing(
        "dir:file://docs/root",
        &[
            ("a.txt".to_string(), false, "file://docs/root/a.txt".to_string()),
            ("sub".to_string(), true, "file://docs/root/sub".to_string()),
        ],
    );
    assert_eq!(children, vec!["dir:file://docs/root/a.txt".to_string(), "dir:file://docs/root/sub".to_string()]);
    // Found again through a path spelled differently.
    assert_eq!(fs.picked_uri("dir:file://docs/root//a.txt"), Some("file://docs/root/a.txt".to_string()));
    assert_eq!(fs.is_file("dir:file://docs/root/a.txt"), Some(true));
    assert_eq!(fs.is_dir("dir:file://docs/root/sub"), Some(true));
    assert_eq!(fs.metadata("dir:file://docs/root/sub"), Some(picked_metadata(true)));
    assert_eq!(fs.canonicalize("dir:file://docs/root/sub"), Some("dir:file://docs/root/sub".to_string()));
    assert_eq!(fs.canonicalize("/tmp"), None);
    // A second listing overwrites what the first taught.
    fs.record_listing("dir:file://docs/root", &[("a.txt".to_string(), true, "u2".to_string())]);
    assert_eq!(fs.is_dir("dir:file://docs/root/a.txt"), Some(true));
    assert_eq!(fs.picked_uri("dir:file://docs/root/a.txt"), Some("u2".to_string()));
    assert!(matches!(fs.picked_source("fd:9"), Ok(PickedSource::Descriptor(9))));
    assert!(matches!(fs.picked_source("dir:file://docs/root/a.txt"), Ok(PickedSource::Uri(ref u)) if u == "u2"));
    assert!(matches!(fs.picked_source("/tmp/x"), Err(ref e) if e == "/tmp/x is not a picked file"));
    assert!(fs.picked_entry("/tmp/x").is_none());
}

#[test]
fn backend_state() {
    let mut b = Backend::new();
    assert_eq!(root_dir(&b), None);
    set_root_dir(&mut b, "/data/files");
    assert_eq!(root_dir(&b), Some("/data/files".to_string()));
    assert!(!take_frame_request(&mut b));
    tick(&mut b);
    want_tick(&mut b);
    assert!(take_frame_request(&mut b));
    assert!(!take_frame_request(&mut b));
    request_quit(&mut b);
    assert!(take_quit_request(&mut b));
    assert!(!take_quit_request(&mut b));
}

#[test]
fn recovered_panics_are_reported_sparingly() {
    let mut b = Backend::new();
    assert_eq!(report_recovered_panic(&mut b, "a frame", 1000), Some("[gpui_ohos] recovered from a panic in a frame".to_string()));
    assert_eq!(report_recovered_panic(&mut b, "a frame", 2000), None);
    assert_eq!(report_recovered_panic(&mut b, "a frame", 5999), None);
    assert_eq!(
        report_recovered_panic(&mut b, "a queued job", 6000),
        Some("[gpui_ohos] recovered from a panic in a queued job; 2 more were left unreported".to_string())
    );
}

#[test]
fn closing_needs_every_window_to_agree() {
    assert!(should_close_window(None));
    assert!(should_close_window(Some(&[])));
    assert!(should_close_window(Some(&[true, true])));
    assert!(!should_close_window(Some(&[true, false])));
}

#[test]
fn the_current_platform_is_reused() {
    let mut p = current_platform(None);
    p.set_surface("a", 1, 2, 3);
    let p = current_platform(Some(p));
    assert_eq!(p.route_targets("a"), Vec::<u64>::new());
    let mut current = Some(p);
    assert_eq!(take_restore_folder(&mut current), None);
    let mut none = None;
    assert_eq!(take_restore_folder(&mut none), None);
}
