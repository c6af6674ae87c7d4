use gpui_ohos::host::{EVENT_APPEARANCE, EVENT_BENCHMARK, EVENT_FOCUS, EVENT_LIFECYCLE, EVENT_PICK_RESULT, EVENT_RESTORE_FOLDER, EVENT_WINDOW_RECT, EVENT_WINDOW_STATUS, OP_PICK_NEW_PATH, OP_PICK_PATHS, OP_SET_APPEARANCE};
use gpui_ohos::platform::{
    create_window_payload, cursor_style_name, picked_handle, picked_paths, pick_id_of, split_window_event,
    window_kind_name, Appearance, CursorStyle, Effect, OhosPlatform, WindowKind,
};

fn frames(effects: &[Effect]) -> Vec<u64> {
    effects
        .iter()
        .filter_map(|e| match e {
            Effect::RequestFrame { window } => Some(*window),
            _ => None,
        })
        .collect()
}

#[test]
fn first_window_takes_the_primary_surface() {
    let mut p = OhosPlatform::new();
    assert!(p.set_surface("gpui_surface", 7, 2400, 1600));
    let (key, effects) = p.open_window(100);
    assert!(effects.is_empty());
    assert_eq!(p.windows(), vec![key]);
    assert_eq!(p.route_targets("gpui_surface"), vec![key]);
    assert_eq!(p.window_stack(), vec![100]);
    assert_eq!(p.active_window(), Some(100));
}

#[test]
fn second_window_asks_the_host_for_a_surface() {
    let mut p = OhosPlatform::new();
    p.set_surface("gpui_surface", 7, 2400, 1600);
    let _ = p.open_window(1);
    let (key, effects) = p.open_window(2);
    assert_eq!(effects.len(), 2);
    match &effects[0] {
        Effect::CreateWindow { id, width, height } => {
            assert_eq!(id, "gpui_surface_1");
            assert_eq!((*width, *height), (2400, 1600));
        }
        _ => panic!("expected a window request"),
    }
    match &effects[1] {
        Effect::HostOp { op, arg } => {
            assert_eq!(*op, OP_SET_APPEARANCE);
            assert_eq!(arg, "gpui_surface_1\tsystem");
        }
        _ => panic!("expected the theme"),
    }
    // The host creates the XComponent; its surface is filled in and the
    // window told its size.
    let effects = p.add_surface("gpui_surface_1", 9, 1200, 800);
    assert_eq!(effects.len(), 1);
    match &effects[0] {
        Effect::SurfaceResized { window, width, height } => {
            assert_eq!((*window, *width, *height), (key, 1200, 800));
        }
        _ => panic!("expected a resize"),
    }
}

#[test]
fn a_window_without_a_primary_surface_uses_the_default_size() {
    let mut p = OhosPlatform::new();
    let (_, effects) = p.open_window(1);
    match &effects[0] {
        Effect::CreateWindow { id, width, height } => {
            assert_eq!(id, "gpui_surface_1");
            assert_eq!((*width, *height), (2200, 1430));
        }
        _ => panic!("expected a window request"),
    }
}

#[test]
fn a_second_native_window_for_one_surface_is_refused() {
    let mut p = OhosPlatform::new();
    assert!(p.set_surface("a", 7, 10, 10));
    assert!(!p.set_surface("a", 8, 20, 20));
    assert!(p.set_surface("a", 7, 30, 30));
    assert!(p.add_surface("a", 9, 40, 40).is_empty());
}

#[test]
fn destroying_a_surface_closes_its_windows_once() {
    let mut p = OhosPlatform::new();
    p.set_surface("main", 7, 100, 100);
    let (key, _) = p.open_window(1);
    p.note_focus("main", true);
    let effects = p.surface_destroyed("main");
    assert_eq!(effects.len(), 1);
    match &effects[0] {
        Effect::WindowClosed { window } => assert_eq!(*window, key),
        _ => panic!("expected a close"),
    }
    assert_eq!(p.window_count(), 0);
    assert_eq!(p.focused_surface(), None);
    // A second report changes nothing.
    assert!(p.surface_destroyed("main").is_empty());
    assert_eq!(p.window_count(), 0);
    // An unknown id changes nothing either.
    assert!(p.surface_destroyed("nowhere").is_empty());
}

#[test]
fn resizes_wait_for_the_tick_and_the_latest_wins() {
    let mut p = OhosPlatform::new();
    p.set_surface("main", 7, 100, 100);
    let (key, _) = p.open_window(1);
    p.surface_resized("main", 0, 50);
    p.surface_resized("main", 300, 200);
    p.surface_resized("main", 640, 480);
    let effects = p.apply_pending_surface_size();
    assert_eq!(effects.len(), 2);
    match &effects[0] {
        Effect::SurfaceResized { window, width, height } => assert_eq!((*window, *width, *height), (key, 640, 480)),
        _ => panic!("expected a resize"),
    }
    assert_eq!(frames(&effects), vec![key]);
    assert!(p.apply_pending_surface_size().is_empty());
}

#[test]
fn a_window_rect_of_the_current_size_changes_nothing() {
    let mut p = OhosPlatform::new();
    p.set_surface("main", 7, 100, 100);
    let _ = p.open_window(1);
    p.apply_window_rect("main", 100, 100);
    assert!(p.apply_pending_surface_size().is_empty());
    p.apply_window_rect("main", 200, 100);
    assert_eq!(p.apply_pending_surface_size().len(), 2);
}

#[test]
fn focus_is_applied_by_the_frame_loop() {
    let mut p = OhosPlatform::new();
    p.set_surface("a", 1, 10, 10);
    let (first, _) = p.open_window(1);
    let (second, _) = p.open_window(2);
    p.add_surface("gpui_surface_1", 2, 10, 10);
    let effects = p.handle_host_event(EVENT_FOCUS, "gpui_surface_1\t1");
    assert!(effects.is_empty());
    assert_eq!(p.focused_surface(), Some("gpui_surface_1".to_string()));
    let effects = p.apply_pending_focus();
    assert_eq!(effects.len(), 1);
    match &effects[0] {
        Effect::ActiveChanged { window, active } => assert_eq!((*window, *active), (first, false)),
        _ => panic!("expected an activity change"),
    }
    assert_eq!(p.ime_target(None), Some(second));
    assert_eq!(p.active_window(), Some(2));
    // A blur of another surface leaves the focus alone.
    p.note_focus("a", false);
    assert_eq!(p.focused_surface(), Some("gpui_surface_1".to_string()));
}

#[test]
fn appearance_reports_reach_every_window_that_changes() {
    let mut p = OhosPlatform::new();
    p.set_surface("a", 1, 10, 10);
    let (key, _) = p.open_window(1);
    let effects = p.handle_host_event(EVENT_APPEARANCE, "0");
    assert_eq!(effects.len(), 1);
    match &effects[0] {
        Effect::AppearanceChanged { window } => assert_eq!(*window, key),
        _ => panic!("expected an appearance change"),
    }
    assert!(p.handle_host_event(EVENT_APPEARANCE, "0").is_empty());
    assert_eq!(p.handle_host_event(EVENT_APPEARANCE, "1").len(), 1);
}

#[test]
fn window_status_and_rect_events() {
    let mut p = OhosPlatform::new();
    p.set_surface("a", 1, 10, 10);
    let _ = p.open_window(1);
    assert!(p.handle_host_event(EVENT_WINDOW_STATUS, "a\t2").is_empty());
    let effects = p.handle_host_event(EVENT_WINDOW_RECT, "a\t0,0,300,200");
    match &effects[0] {
        Effect::WindowRect { id, value } => {
            assert_eq!(id, "a");
            assert_eq!(value, "0,0,300,200");
        }
        _ => panic!("expected a rectangle"),
    }
}

#[test]
fn lifecycle_events_call_the_application() {
    let mut p = OhosPlatform::new();
    assert!(matches!(p.handle_host_event(EVENT_LIFECYCLE, "background")[0], Effect::Quit));
    assert!(matches!(p.handle_host_event(EVENT_LIFECYCLE, "destroy")[0], Effect::Quit));
    assert!(matches!(p.handle_host_event(EVENT_LIFECYCLE, "newwant")[0], Effect::Reopen));
    assert!(matches!(p.handle_host_event(EVENT_LIFECYCLE, "foreground")[0], Effect::SystemWake));
    assert!(p.handle_host_event(EVENT_LIFECYCLE, "sleep").is_empty());
    assert!(p.handle_host_event(42, "anything").is_empty());
}

#[test]
fn benchmark_event_asks_for_frames() {
    let mut p = OhosPlatform::new();
    p.set_surface("a", 1, 10, 10);
    let (key, _) = p.open_window(1);
    let effects = p.handle_host_event(EVENT_BENCHMARK, "3");
    assert_eq!(frames(&effects), vec![key]);
    assert!(p.benchmark_enabled());
    assert!(p.take_benchmark_frame());
    assert!(p.take_benchmark_frame());
    assert!(p.take_benchmark_frame());
    assert!(!p.take_benchmark_frame());
    p.handle_host_event(EVENT_BENCHMARK, "many");
    let mut count = 0;
    while p.take_benchmark_frame() {
        count += 1;
    }
    assert_eq!(count, 720);
}

#[test]
fn picks_are_answered_once() {
    let mut p = OhosPlatform::new();
    let (id, op) = p.pick_paths(true, false, true, &[]);
    assert_eq!(id, 1);
    match op {
        Effect::HostOp { op, arg } => {
            assert_eq!(op, OP_PICK_PATHS);
            assert_eq!(arg, "p1|1|0|1");
        }
        _ => panic!("expected a command"),
    }
    let effects = p.handle_host_event(EVENT_PICK_RESULT, "p1\tf|8|a.txt\n\nd|/data/x|uri\n");
    match &effects[0] {
        Effect::PickAnswer { id, lines } => {
            assert_eq!(*id, 1);
            assert_eq!(lines, &vec!["f|8|a.txt".to_string(), "d|/data/x|uri".to_string()]);
        }
        _ => panic!("expected an answer"),
    }
    let effects = p.handle_host_event(EVENT_PICK_RESULT, "p1\tf|8|a.txt");
    assert!(matches!(effects[0], Effect::PickDropped { id: 1 }));
}

#[test]
fn answers_naming_no_pick_reach_nobody() {
    let mut p = OhosPlatform::new();
    let (id, _) = p.pick_paths(true, false, false, &[]);
    for token in ["", "x", "p", "p99"] {
        let event = format!("{token}\tf|1|a.txt");
        let effects = p.handle_host_event(EVENT_PICK_RESULT, &event);
        assert_eq!(effects.len(), 1);
        assert!(matches!(effects[0], Effect::PickDropped { .. }));
    }
    let effects = p.handle_host_event(EVENT_PICK_RESULT, "p1\tf|1|a.txt");
    assert!(matches!(effects[0], Effect::PickAnswer { id: answered, .. } if answered == id));
}

#[test]
fn canceled_picks_stop_waiting() {
    let mut p = OhosPlatform::new();
    let (first, _) = p.pick_paths(true, true, false, &[]);
    let (second, op) = p.pick_new_path("/docs", Some("new.txt"), &[first]);
    assert_eq!(second, 2);
    match op {
        Effect::HostOp { op, arg } => {
            assert_eq!(op, OP_PICK_NEW_PATH);
            assert_eq!(arg, "n2|/docs|new.txt");
        }
        _ => panic!("expected a command"),
    }
    let effects = p.handle_host_event(EVENT_PICK_RESULT, "p1\tline");
    assert!(matches!(effects[0], Effect::PickDropped { id: 1 }));
}

#[test]
fn picker_tokens_name_their_pick() {
    assert_eq!(pick_id_of("p12"), 12);
    assert_eq!(pick_id_of("n7"), 7);
    assert_eq!(pick_id_of("p12x"), 0);
    assert_eq!(pick_id_of("nothing"), 0);
}

#[test]
fn restore_folder_goes_to_the_listener_once() {
    let mut p = OhosPlatform::new();
    p.set_surface("a", 1, 10, 10);
    let (key, _) = p.open_window(1);
    // Pushed before the application listens: it waits.
    assert!(p.handle_host_event(EVENT_RESTORE_FOLDER, "/data/project").is_empty());
    p.set_open_listener();
    // Nothing drawn yet: the tick does not deliver.
    let effects = p.tick();
    assert!(!effects.iter().any(|e| matches!(e, Effect::OpenUrls { .. })));
    p.mark_rendered(key);
    let effects = p.tick();
    let urls: Vec<&Vec<String>> = effects
        .iter()
        .filter_map(|e| match e {
            Effect::OpenUrls { urls } => Some(urls),
            _ => None,
        })
        .collect();
    assert_eq!(urls, vec![&vec!["file:///data/project".to_string()]]);
    let effects = p.tick();
    assert!(!effects.iter().any(|e| matches!(e, Effect::OpenUrls { .. })));
}

#[test]
fn restore_folder_is_pulled_once_when_none_was_pushed() {
    let mut p = OhosPlatform::new();
    let effects = p.deliver_restore_folder();
    assert!(matches!(effects[0], Effect::PullRestoreFolder));
    assert!(p.deliver_restore_folder().is_empty());
    assert!(p.restore_folder_answer(Some("/x".to_string())).is_empty());
    assert_eq!(p.take_restore_folder(), Some("/x".to_string()));
    assert_eq!(p.take_restore_folder(), None);
}

#[test]
fn a_tick_runs_the_application_and_asks_for_frames() {
    let mut p = OhosPlatform::new();
    p.set_surface("a", 1, 10, 10);
    let (key, _) = p.open_window(1);
    let effects = p.tick();
    assert_eq!(effects.len(), 2);
    assert!(matches!(effects[0], Effect::RunForegroundTasks));
    assert_eq!(frames(&effects), vec![key]);
    p.handle_host_event(EVENT_BENCHMARK, "2");
    let effects = p.tick();
    assert_eq!(frames(&effects).len(), 33);
}

#[test]
fn theme_reports_reach_every_window() {
    let mut p = OhosPlatform::new();
    p.set_surface("a", 1, 10, 10);
    let _ = p.open_window(1);
    let effects = p.set_window_appearance(Some(Appearance::VibrantDark));
    match &effects[0] {
        Effect::HostOp { op, arg } => {
            assert_eq!(*op, OP_SET_APPEARANCE);
            assert_eq!(arg, "a\tdark");
        }
        _ => panic!("expected a command"),
    }
    let (_, effects) = p.open_window(2);
    match &effects[1] {
        Effect::HostOp { arg, .. } => assert_eq!(arg, "gpui_surface_1\tdark"),
        _ => panic!("expected a command"),
    }
}

#[test]
fn input_from_an_empty_id_reaches_every_window() {
    let mut p = OhosPlatform::new();
    p.set_surface("a", 1, 10, 10);
    let (a, _) = p.open_window(1);
    let (b, _) = p.open_window(2);
    assert_eq!(p.route_targets(""), vec![a, b]);
    assert_eq!(p.route_targets("gpui_surface_1"), vec![b]);
    assert!(p.route_targets("unknown").is_empty());
}

#[test]
fn window_events_split_at_the_tab() {
    assert_eq!(split_window_event("a\tb\tc"), ("a".to_string(), "b\tc".to_string()));
    assert_eq!(split_window_event("plain"), ("".to_string(), "plain".to_string()));
}

#[test]
fn window_kinds_and_cursor_names() {
    assert_eq!(window_kind_name(WindowKind::Normal), "normal");
    assert_eq!(window_kind_name(WindowKind::AnchoredPopup), "popup");
    assert_eq!(window_kind_name(WindowKind::Dialog), "dialog");
    assert_eq!(cursor_style_name(CursorStyle::Arrow), "DEFAULT");
    assert_eq!(cursor_style_name(CursorStyle::IBeam), "TEXT_CURSOR");
    assert_eq!(cursor_style_name(CursorStyle::ResizeUpLeftDownRight), "NORTH_WEST_SOUTH_EAST");
    assert_eq!(cursor_style_name(CursorStyle::ContextualMenu), "CURSOR_CIRCLE");
}

#[test]
fn create_window_payload_falls_back_to_the_primary_size() {
    assert_eq!(
        create_window_payload("w", -3, 4, 0, 100, 2200, 1430, "Title", true, WindowKind::Floating),
        "w\t-3,4,2200,1430\tTitle\t1\tfloating"
    );
    assert_eq!(
        create_window_payload("w", 0, 0, 640, 480, 1, 1, "", false, WindowKind::Normal),
        "w\t0,0,640,480\t\t0\tnormal"
    );
}

#[test]
fn picker_lines_become_paths() {
    assert_eq!(picked_handle("f|8|a.txt"), "fd:8");
    assert_eq!(picked_handle("f|8|a.txt|/storage/a.txt"), "/storage/a.txt");
    assert_eq!(picked_handle("f|8|a.txt|relative"), "fd:8");
    assert_eq!(picked_handle("f||a.txt"), "f||a.txt");
    assert_eq!(picked_handle("d|/data/dir|content://x"), "/data/dir");
    assert_eq!(picked_handle("d|/data/dir"), "/data/dir");
    assert_eq!(picked_handle("something"), "something");
    assert_eq!(picked_paths(&[]), None);
    assert_eq!(
        picked_paths(&["f|3|x".to_string(), "d|/a|b".to_string()]),
        Some(vec!["fd:3".to_string(), "/a".to_string()])
    );
}
