use key_activity::display::{
    count_label, escape_html, event_type_name, format_delta, format_seconds, held_keys_by_press,
    is_code_before, log_row_html, pattern_text, repeat_counts_ranked, repeat_text,
};
use key_activity::session::{EventType, HeldKey, LogRecord, RepeatRecord};

fn s(x: &str) -> String {
    x.to_string()
}

#[test]
fn seconds_have_three_decimals() {
    assert_eq!(format_seconds(0), "0.000");
    assert_eq!(format_seconds(1234), "1.234");
    assert_eq!(format_seconds(50), "0.050");
    assert_eq!(format_seconds(61007), "61.007");
    assert_eq!(format_seconds(-1500), "-1.500");
}

#[test]
fn delta_text() {
    assert_eq!(format_delta(Some(50)), "50 ms");
    assert_eq!(format_delta(Some(0)), "0 ms");
    assert_eq!(format_delta(Some(-7)), "-7 ms");
    assert_eq!(format_delta(Some(i128::MIN)), format!("{} ms", i128::MIN));
    assert_eq!(format_delta(None), "\u{2014}");
}

#[test]
fn escapes_markup() {
    assert_eq!(escape_html("<a href=\"x\">Tom & 'Jo'</a>"), "&lt;a href=&quot;x&quot;&gt;Tom &amp; &#39;Jo&#39;&lt;/a&gt;");
    assert_eq!(escape_html(""), "");
    assert_eq!(escape_html("KeyA \u{e9}"), "KeyA \u{e9}");
}

#[test]
fn pattern_text_joins_labels() {
    assert_eq!(pattern_text(&[]), "Waiting for repeated events...");
    assert_eq!(pattern_text(&[s("a")]), "a");
    assert_eq!(pattern_text(&[s("a"), s("Shift"), s("b")]), "a \u{2192} Shift \u{2192} b");
}

#[test]
fn counter_label_and_flags() {
    assert_eq!(count_label("KeyA", 12), "KeyA \u{d7}12");
    assert_eq!(repeat_text(true), "yes");
    assert_eq!(repeat_text(false), "no");
    assert_eq!(event_type_name(EventType::KeyDown), "keydown");
    assert_eq!(event_type_name(EventType::KeyUp), "keyup");
}

#[test]
fn held_keys_sorted_by_press_time() {
    let keys = vec![
        HeldKey { code: s("KeyC"), key: s("c"), pressed_at: 30 },
        HeldKey { code: s("KeyA"), key: s("a"), pressed_at: 10 },
        HeldKey { code: s("KeyD"), key: s("d"), pressed_at: 30 },
        HeldKey { code: s("KeyB"), key: s("b"), pressed_at: 20 },
    ];
    let sorted = held_keys_by_press(&keys);
    let codes: Vec<String> = sorted.iter().map(|h| h.code.clone()).collect();
    assert_eq!(codes, vec![s("KeyA"), s("KeyB"), s("KeyC"), s("KeyD")]);
}

#[test]
fn repeat_counts_ranked_by_count_then_code() {
    let counts = vec![
        RepeatRecord { code: s("KeyB"), key: s("b"), count: 2 },
        RepeatRecord { code: s("KeyA"), key: s("a"), count: 2 },
        RepeatRecord { code: s("Space"), key: s(" "), count: 9 },
        RepeatRecord { code: s("Key"), key: s("k"), count: 2 },
        RepeatRecord { code: s("ArrowUp"), key: s("ArrowUp"), count: 1 },
    ];
    let ranked = repeat_counts_ranked(&counts);
    let codes: Vec<String> = ranked.iter().map(|r| r.code.clone()).collect();
    assert_eq!(codes, vec![s("Space"), s("Key"), s("KeyA"), s("KeyB"), s("ArrowUp")]);
}

#[test]
fn code_order_is_character_order() {
    assert!(is_code_before("KeyA", "KeyB"));
    assert!(!is_code_before("KeyB", "KeyA"));
    assert!(is_code_before("Key", "KeyA"));
    assert!(!is_code_before("KeyA", "KeyA"));
    assert!(is_code_before("Z", "a"));
}

#[test]
fn log_row_markup() {
    let rec = LogRecord {
        event_type: EventType::KeyDown,
        key: s("<"),
        code: s("IntlBackslash"),
        repeat: true,
        at: 1250,
        elapsed_ms: 1250,
        delta_ms: Some(50),
    };
    assert_eq!(
        log_row_html(&rec),
        "<td>1.250</td><td>50 ms</td><td>keydown</td><td>&lt;</td><td>IntlBackslash</td><td>yes</td>"
    );
}
