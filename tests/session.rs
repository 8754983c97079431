use key_activity::session::{EventType, KeyEvent, Session, MAX_LOG_ROWS, MAX_PATTERN_LENGTH};

fn s(x: &str) -> String {
    x.to_string()
}

fn down(session: &mut Session, code: &str, key: &str, repeat: bool, at: u64) {
    session.on_key_down(&s(code), &s(key), repeat, at);
}

fn up(session: &mut Session, code: &str, key: &str, at: u64) {
    session.on_key_up(&s(code), &s(key), at);
}

#[test]
fn scenario_first_press() {
    let mut session = Session::new(0);
    let d = session.on_key_down(&s("KeyA"), &s("a"), false, 100);
    assert!(d.held_keys && d.log && !d.pattern && !d.repeat_counts);
    let held = session.active_keys();
    assert_eq!(held.len(), 1);
    assert_eq!(held[0].code, "KeyA");
    assert_eq!(held[0].key, "a");
    assert_eq!(held[0].pressed_at, 100);
    assert_eq!(session.log().len(), 1);
    assert_eq!(session.log()[0].delta_ms, None);
    assert_eq!(session.log()[0].elapsed_ms, 100);
    assert_eq!(session.log()[0].event_type, EventType::KeyDown);
    assert_eq!(session.last_event_time(), Some(100));
}

#[test]
fn scenario_repeat_of_held_key() {
    let mut session = Session::new(0);
    down(&mut session, "KeyA", "a", false, 100);
    let d = session.on_key_down(&s("KeyA"), &s("a"), true, 150);
    assert!(!d.held_keys && d.log && d.pattern && d.repeat_counts);
    let held = session.active_keys();
    assert_eq!(held.len(), 1);
    assert_eq!(held[0].pressed_at, 100);
    assert_eq!(held[0].key, "a");
    let counts = session.repeat_counts();
    assert_eq!(counts.len(), 1);
    assert_eq!(counts[0].code, "KeyA");
    assert_eq!(counts[0].key, "a");
    assert_eq!(counts[0].count, 1);
    assert_eq!(session.pattern().to_vec(), vec![s("a")]);
    assert_eq!(session.log().len(), 2);
    assert_eq!(session.log()[0].delta_ms, Some(50));
    assert!(session.log()[0].repeat);
}

#[test]
fn scenario_release() {
    let mut session = Session::new(0);
    down(&mut session, "KeyA", "a", false, 100);
    down(&mut session, "KeyA", "a", true, 150);
    let d = session.on_key_up(&s("KeyA"), &s("a"), 300);
    assert!(d.held_keys && d.log && !d.pattern && !d.repeat_counts);
    assert!(session.active_keys().is_empty());
    assert_eq!(session.repeat_counts().len(), 1);
    assert_eq!(session.repeat_counts()[0].count, 1);
    assert_eq!(session.pattern().to_vec(), vec![s("a")]);
    assert_eq!(session.log().len(), 3);
    assert_eq!(session.log()[0].event_type, EventType::KeyUp);
    assert_eq!(session.log()[0].delta_ms, Some(150));
    assert!(!session.log()[0].repeat);
}

#[test]
fn scenario_log_keeps_newest() {
    let mut session = Session::new(0);
    for i in 0..301u64 {
        let code = format!("Key{}", i);
        if i % 2 == 0 {
            down(&mut session, &code, "k", false, i * 10);
        } else {
            up(&mut session, &code, "k", i * 10);
        }
    }
    let log = session.log();
    assert_eq!(log.len(), MAX_LOG_ROWS);
    assert_eq!(log[0].code, "Key300");
    assert_eq!(log[0].at, 3000);
    assert_eq!(log[MAX_LOG_ROWS - 1].code, "Key1");
    assert!(log.iter().all(|r| r.code != "Key0"));
}

#[test]
fn scenario_paused_session_ignores_events() {
    let mut session = Session::new(5);
    down(&mut session, "KeyB", "b", false, 10);
    down(&mut session, "KeyB", "b", true, 20);
    assert!(session.toggle_pause());
    let d = session.on_key_down(&s("KeyC"), &s("c"), true, 30);
    assert!(!d.held_keys && !d.log && !d.pattern && !d.repeat_counts);
    let d = session.on_key_up(&s("KeyB"), &s("b"), 40);
    assert!(!d.held_keys && !d.log);
    assert_eq!(session.active_keys().len(), 1);
    assert_eq!(session.active_keys()[0].code, "KeyB");
    assert_eq!(session.repeat_counts().len(), 1);
    assert_eq!(session.repeat_counts()[0].count, 1);
    assert_eq!(session.pattern().to_vec(), vec![s("b")]);
    assert_eq!(session.log().len(), 2);
    assert_eq!(session.last_event_time(), Some(20));
    assert!(session.is_paused());
    assert!(!session.toggle_pause());
}

#[test]
fn held_keys_are_unreleased_presses() {
    let mut session = Session::new(0);
    down(&mut session, "KeyA", "a", false, 1);
    down(&mut session, "KeyB", "b", false, 2);
    down(&mut session, "KeyC", "c", false, 3);
    up(&mut session, "KeyB", "b", 4);
    up(&mut session, "KeyZ", "z", 5);
    down(&mut session, "KeyB", "b", false, 6);
    up(&mut session, "KeyA", "a", 7);
    let codes: Vec<String> = session.active_keys().iter().map(|h| h.code.clone()).collect();
    assert_eq!(codes, vec![s("KeyC"), s("KeyB")]);
    assert_eq!(session.active_keys()[1].pressed_at, 6);
    // a release of a key that was never held is still logged
    assert_eq!(session.log().len(), 7);
}

#[test]
fn press_during_pause_then_release_is_logged_only() {
    let mut session = Session::new(0);
    session.set_paused(true);
    down(&mut session, "KeyQ", "q", false, 1);
    session.set_paused(false);
    let d = session.on_key_up(&s("KeyQ"), &s("q"), 2);
    assert!(!d.held_keys && d.log);
    assert!(session.active_keys().is_empty());
    assert_eq!(session.log().len(), 1);
    assert_eq!(session.log()[0].delta_ms, None);
}

#[test]
fn repeated_presses_keep_first_press_time() {
    let mut session = Session::new(0);
    down(&mut session, "ShiftLeft", "Shift", false, 10);
    for t in 11..20u64 {
        down(&mut session, "ShiftLeft", "Shift", true, t);
    }
    assert_eq!(session.active_keys().len(), 1);
    assert_eq!(session.active_keys()[0].pressed_at, 10);
}

#[test]
fn repeat_counts_follow_repeats() {
    let mut session = Session::new(0);
    down(&mut session, "KeyA", "a", true, 1);
    down(&mut session, "KeyA", "A", true, 2);
    down(&mut session, "KeyB", "b", true, 3);
    down(&mut session, "KeyC", "c", false, 4);
    down(&mut session, "KeyA", "a", true, 5);
    let counts = session.repeat_counts();
    assert_eq!(counts.len(), 2);
    assert_eq!(counts[0].code, "KeyA");
    assert_eq!(counts[0].count, 3);
    assert_eq!(counts[0].key, "a");
    assert_eq!(counts[1].code, "KeyB");
    assert_eq!(counts[1].count, 1);
    assert!(counts.iter().all(|r| r.code != "KeyC"));
}

#[test]
fn repeat_record_label_tracks_latest_key() {
    let mut session = Session::new(0);
    down(&mut session, "KeyA", "a", true, 1);
    down(&mut session, "KeyA", "A", true, 2);
    assert_eq!(session.repeat_counts()[0].key, "A");
}

#[test]
fn pattern_uses_code_for_long_keys() {
    let mut session = Session::new(0);
    down(&mut session, "ShiftLeft", "Shift", true, 1);
    down(&mut session, "KeyE", "\u{e9}", true, 2);
    down(&mut session, "Space", " ", true, 3);
    assert_eq!(session.pattern().to_vec(), vec![s("ShiftLeft"), s("\u{e9}"), s(" ")]);
}

#[test]
fn pattern_drops_oldest_label() {
    let mut session = Session::new(0);
    for i in 0..81u64 {
        let code = format!("Code{}", i);
        down(&mut session, &code, "long", true, i);
    }
    let pattern = session.pattern();
    assert_eq!(pattern.len(), MAX_PATTERN_LENGTH);
    assert_eq!(pattern[0], "Code1");
    assert_eq!(pattern[MAX_PATTERN_LENGTH - 1], "Code80");
}

#[test]
fn reset_clears_everything() {
    let mut session = Session::new(0);
    down(&mut session, "KeyA", "a", false, 1);
    down(&mut session, "KeyA", "a", true, 2);
    session.set_paused(true);
    let d = session.reset(500, false);
    assert!(d.held_keys && d.pattern && d.repeat_counts && d.log);
    assert!(session.active_keys().is_empty());
    assert!(session.repeat_counts().is_empty());
    assert!(session.pattern().is_empty());
    assert!(session.log().is_empty());
    assert_eq!(session.last_event_time(), None);
    assert_eq!(session.origin(), 500);
    assert!(session.is_paused());
    session.reset(600, true);
    assert!(!session.is_paused());
    down(&mut session, "KeyA", "a", false, 650);
    assert_eq!(session.log()[0].delta_ms, None);
    assert_eq!(session.log()[0].elapsed_ms, 50);
}

#[test]
fn negative_elapsed_and_delta() {
    let mut session = Session::new(1000);
    down(&mut session, "KeyA", "a", false, 900);
    down(&mut session, "KeyB", "b", false, 850);
    assert_eq!(session.log()[0].elapsed_ms, -150);
    assert_eq!(session.log()[0].delta_ms, Some(-50));
}

#[test]
fn apply_folds_events() {
    let mut session = Session::new(0);
    session.apply(&KeyEvent::Down { code: s("KeyA"), key: s("a"), repeat: false, at: 1 });
    session.apply(&KeyEvent::Down { code: s("KeyA"), key: s("a"), repeat: true, at: 2 });
    let d = session.apply(&KeyEvent::Up { code: s("KeyA"), key: s("a"), at: 3 });
    assert!(d.held_keys && d.log);
    assert!(session.active_keys().is_empty());
    assert_eq!(session.pattern().len(), 1);
    assert_eq!(session.log().len(), 3);
    assert_eq!(session.log()[2].event_type, EventType::KeyDown);
}
