use gpui_ohos::dispatcher::TimerQueue;
use gpui_ohos::host::{EVENT_FOCUS, OP_REQUEST_FOCUS};
use gpui_ohos::platform::{Effect, OhosPlatform};
use gpui_ohos::text::{decimal, parse_i32, parse_u32, parse_u64, signed_decimal};
use gpui_ohos::translations::{compare, tr, tr_scoped, translations};

#[test]
fn known_strings_are_translated() {
    assert_eq!(tr("Copy"), "复制");
    assert_eq!(tr("Save As"), "另存为");
    assert_eq!(tr("Window"), "窗口");
    assert_eq!(tr("Add Folder to Project"), "向项目添加文件夹");
}

#[test]
fn translating_twice_changes_nothing_more() {
    for text in ["Copy", "Save As", "Window", "Nope", ""] {
        assert_eq!(tr(tr(text)), tr(text));
    }
}

#[test]
fn unknown_strings_come_back_unchanged() {
    assert_eq!(tr("Nope"), "Nope");
    assert_eq!(tr(""), "");
    assert_eq!(tr("copy"), "copy");
}

#[test]
fn scoped_names_use_the_plain_name() {
    assert_eq!(tr_scoped("Save", "workspace::Save"), "保存");
    assert_eq!(tr_scoped("Zzz", "ns::Zzz"), "ns::Zzz");
}

#[test]
fn table_is_sorted_and_complete() {
    let table = translations();
    assert_eq!(table.len(), 31);
    for pair in table.windows(2) {
        let a: Vec<char> = pair[0].0.chars().collect();
        let b: Vec<char> = pair[1].0.chars().collect();
        assert_eq!(compare(&a, &b), -1);
        assert_eq!(compare(&b, &a), 1);
        assert!(pair[0].0 < pair[1].0);
    }
    for (original, _) in &table {
        let a: Vec<char> = original.chars().collect();
        assert_eq!(compare(&a, &a), 0);
    }
}

#[test]
fn timers_come_out_in_time_order() {
    let mut q = TimerQueue::new();
    assert_eq!(q.next_deadline(), None);
    q.push(30, 1);
    q.push(10, 2);
    q.push(20, 3);
    q.push(10, 4);
    assert_eq!(q.next_deadline(), Some(10));
    // Equal times keep the order they were set in.
    assert_eq!(q.take_due(15), vec![2, 4]);
    assert_eq!(q.next_deadline(), Some(20));
    assert_eq!(q.take_due(19), Vec::<u64>::new());
    assert_eq!(q.take_due(30), vec![3, 1]);
    assert_eq!(q.next_deadline(), None);
}

#[test]
fn a_timer_due_now_is_taken() {
    let mut q = TimerQueue::new();
    q.push(5, 9);
    assert_eq!(q.take_due(5), vec![9]);
    assert_eq!(q.take_due(u64::MAX), Vec::<u64>::new());
}

#[test]
fn decimals_read_back() {
    for n in [0u64, 7, 10, 99, 1234567890, u64::MAX] {
        let text = decimal(n);
        assert_eq!(text, n.to_string());
        assert_eq!(parse_u64(&text), Some(n));
    }
    assert_eq!(signed_decimal(-42), "-42");
    assert_eq!(signed_decimal(0), "0");
    assert_eq!(parse_i32(&signed_decimal(-42)), Some(-42));
    assert_eq!(parse_u32(&decimal(u32::MAX as u64)), Some(u32::MAX));
    assert_eq!(parse_u32(&decimal(u32::MAX as u64 + 1)), None);
}

#[test]
fn parsing_follows_from_str() {
    assert_eq!(parse_i32("+12"), Some(12));
    assert_eq!(parse_i32("-0"), Some(0));
    assert_eq!(parse_i32("-"), None);
    assert_eq!(parse_i32("2147483648"), None);
    assert_eq!(parse_i32("-2147483648"), Some(i32::MIN));
    assert_eq!(parse_u64("-1"), None);
    assert_eq!(parse_u64(" 1"), None);
    assert_eq!(parse_u64(""), None);
}

#[test]
fn focus_is_requested_only_for_other_windows() {
    let mut p = OhosPlatform::new();
    p.set_surface("gpui_surface", 7, 2400, 1600);
    let _ = p.open_window(1);
    match p.focus_request("gpui_surface") {
        Some(Effect::HostOp { op, arg }) => {
            assert_eq!(op, OP_REQUEST_FOCUS);
            assert_eq!(arg, "gpui_surface\tgpui_surface");
        }
        _ => panic!("expected a focus request"),
    }
    p.note_focus("gpui_surface", true);
    assert!(p.focus_request("gpui_surface").is_none());
}

#[test]
fn display_size_follows_the_primary_surface() {
    let mut p = OhosPlatform::new();
    assert_eq!(p.display_size(), (3120, 2080));
    p.set_surface("gpui_surface", 7, 2400, 1600);
    assert_eq!(p.display_size(), (2400, 1600));
}

#[test]
fn the_focused_window_is_mirrored_first() {
    let mut p = OhosPlatform::new();
    p.set_surface("a", 1, 10, 10);
    let (first, _) = p.open_window(1);
    let (second, _) = p.open_window(2);
    p.add_surface("gpui_surface_1", 2, 10, 10);
    assert_eq!(p.ime_context_order(), vec![first, second]);
    p.handle_host_event(EVENT_FOCUS, "gpui_surface_1\t1");
    p.apply_pending_focus();
    assert_eq!(p.ime_context_order(), vec![second, first]);
    assert_eq!(p.window_surface_id(first), Some("a".to_string()));
    assert_eq!(p.window_surface_id(second), Some("gpui_surface_1".to_string()));
    assert_eq!(p.window_surface_id(999), None);
}
