use vstd::prelude::*;

verus! {

/// Largest number of records the event log keeps.
pub const MAX_LOG_ROWS: usize = 300;

/// Largest number of labels the pattern buffer keeps.
pub const MAX_PATTERN_LENGTH: usize = 80;

/// Kind of a logged event.
#[derive(Clone, Copy, Debug, PartialEq, Eq, Structural)]
pub enum EventType {
    KeyDown,
    KeyUp,
}

/// A physical key that is currently held down.
#[derive(Clone, Debug)]
pub struct HeldKey {
    pub code: String,
    pub key: String,
    /// Time of the first press, in milliseconds.
    pub pressed_at: u64,
}

pub struct HeldView {
    pub code: Seq<char>,
    pub key: Seq<char>,
    pub pressed_at: u64,
}

impl View for HeldKey {
    type V = HeldView;

    open spec fn view(&self) -> HeldView {
        HeldView { code: self.code@, key: self.key@, pressed_at: self.pressed_at }
    }
}

/// Auto-repeat statistics of one physical key.
#[derive(Clone, Debug)]
pub struct RepeatRecord {
    pub code: String,
    /// Label of the most recent repeat event for this code.
    pub key: String,
    pub count: u64,
}

pub struct RepeatView {
    pub code: Seq<char>,
    pub key: Seq<char>,
    pub count: u64,
}

impl View for RepeatRecord {
    type V = RepeatView;

    open spec fn view(&self) -> RepeatView {
        RepeatView { code: self.code@, key: self.key@, count: self.count }
    }
}

/// One entry of the event log.
#[derive(Clone, Debug)]
pub struct LogRecord {
    pub event_type: EventType,
    pub key: String,
    pub code: String,
    pub repeat: bool,
    /// Time of the event, in milliseconds.
    pub at: u64,
    /// Milliseconds since the session origin.
    pub elapsed_ms: i128,
    /// Milliseconds since the previous logged event, if there was one.
    pub delta_ms: Option<i128>,
}

pub struct LogView {
    pub event_type: EventType,
    pub key: Seq<char>,
    pub code: Seq<char>,
    pub repeat: bool,
    pub at: u64,
    pub elapsed_ms: int,
    pub delta_ms: Option<int>,
}

impl View for LogRecord {
    type V = LogView;

    open spec fn view(&self) -> LogView {
        LogView {
            event_type: self.event_type,
            key: self.key@,
            code: self.code@,
            repeat: self.repeat,
            at: self.at,
            elapsed_ms: self.elapsed_ms as int,
            delta_ms: match self.delta_ms {
                Some(d) => Some(d as int),
                None => None,
            },
        }
    }
}

/// Which derived views changed and must be redrawn.
#[derive(Clone, Copy, Debug, PartialEq, Eq, Structural)]
pub struct DirtyFlags {
    pub held_keys: bool,
    pub pattern: bool,
    pub repeat_counts: bool,
    pub log: bool,
}

/// The abstract state of a session.
pub struct SessionView {
    pub active: Seq<HeldView>,
    pub repeats: Seq<RepeatView>,
    pub pattern: Seq<Seq<char>>,
    /// Newest record first.
    pub log: Seq<LogView>,
    pub last_event_time: Option<u64>,
    pub origin: u64,
    pub paused: bool,
}

pub open spec fn has_held(s: Seq<HeldView>, code: Seq<char>) -> bool {
    exists|i: int| 0 <= i < s.len() && (#[trigger] s[i]).code == code
}

pub open spec fn held_index(s: Seq<HeldView>, code: Seq<char>) -> int {
    choose|i: int| 0 <= i < s.len() && (#[trigger] s[i]).code == code
}

pub open spec fn has_repeat(s: Seq<RepeatView>, code: Seq<char>) -> bool {
    exists|i: int| 0 <= i < s.len() && (#[trigger] s[i]).code == code
}

pub open spec fn repeat_index(s: Seq<RepeatView>, code: Seq<char>) -> int {
    choose|i: int| 0 <= i < s.len() && (#[trigger] s[i]).code == code
}

/// The codes of the held keys.
pub open spec fn held_codes(s: Seq<HeldView>) -> Set<Seq<char>> {
    Set::new(|c: Seq<char>| has_held(s, c))
}

impl SessionView {
    /// Codes are unique in both maps, every repeat count is positive and both
    /// buffers are within their bounds.
    pub open spec fn well_formed(&self) -> bool {
        &&& forall|i: int, j: int|
            0 <= i < j < self.active.len() ==> #[trigger] self.active[i].code
                != #[trigger] self.active[j].code
        &&& forall|i: int, j: int|
            0 <= i < j < self.repeats.len() ==> #[trigger] self.repeats[i].code
                != #[trigger] self.repeats[j].code
        &&& forall|i: int| 0 <= i < self.repeats.len() ==> #[trigger] self.repeats[i].count >= 1
        &&& self.pattern.len() <= MAX_PATTERN_LENGTH
        &&& self.log.len() <= MAX_LOG_ROWS
    }
}

/// The label a repeat event adds to the pattern: the key when it is a single
/// character, else the code.
pub open spec fn label_of(code: Seq<char>, key: Seq<char>) -> Seq<char> {
    if key.len() == 1 {
        key
    } else {
        code
    }
}

/// Appends a label and drops the oldest one when the bound is exceeded.
pub open spec fn pattern_push(p: Seq<Seq<char>>, label: Seq<char>) -> Seq<Seq<char>> {
    let q = p.push(label);
    if q.len() > MAX_PATTERN_LENGTH {
        q.drop_first()
    } else {
        q
    }
}

/// Puts a record in front of the log and keeps the newest records only.
pub open spec fn log_push(log: Seq<LogView>, r: LogView) -> Seq<LogView> {
    let l = seq![r] + log;
    if l.len() > MAX_LOG_ROWS {
        l.subrange(0, MAX_LOG_ROWS as int)
    } else {
        l
    }
}

pub open spec fn saturating_inc(n: u64) -> u64 {
    if n < u64::MAX {
        (n + 1) as u64
    } else {
        n
    }
}

/// Counts one more repeat of `code`, labelled with the current key.
pub open spec fn bump_repeat(r: Seq<RepeatView>, code: Seq<char>, key: Seq<char>) -> Seq<
    RepeatView,
> {
    if has_repeat(r, code) {
        let i = repeat_index(r, code);
        r.update(i, RepeatView { code, key, count: saturating_inc(r[i].count) })
    } else {
        r.push(RepeatView { code, key, count: 1 })
    }
}

/// The log record of an event at time `at` in state `s`.
pub open spec fn record_of(
    s: SessionView,
    event_type: EventType,
    code: Seq<char>,
    key: Seq<char>,
    repeat: bool,
    at: u64,
) -> LogView {
    LogView {
        event_type,
        key,
        code,
        repeat,
        at,
        elapsed_ms: at - s.origin,
        delta_ms: match s.last_event_time {
            Some(last) => Some(at - last),
            None => None,
        },
    }
}

/// The state after a key press (`repeat` marks an auto-repeat).
pub open spec fn key_down_step(
    s: SessionView,
    code: Seq<char>,
    key: Seq<char>,
    repeat: bool,
    at: u64,
) -> SessionView {
    if s.paused {
        s
    } else {
        SessionView {
            active: if has_held(s.active, code) {
                s.active
            } else {
                s.active.push(HeldView { code, key, pressed_at: at })
            },
            repeats: if repeat {
                bump_repeat(s.repeats, code, key)
            } else {
                s.repeats
            },
            pattern: if repeat {
                pattern_push(s.pattern, label_of(code, key))
            } else {
                s.pattern
            },
            log: log_push(s.log, record_of(s, EventType::KeyDown, code, key, repeat, at)),
            last_event_time: Some(at),
            ..s
        }
    }
}

/// The state after a key release.
pub open spec fn key_up_step(s: SessionView, code: Seq<char>, key: Seq<char>, at: u64) -> SessionView {
    if s.paused {
        s
    } else {
        SessionView {
            active: if has_held(s.active, code) {
                s.active.remove(held_index(s.active, code))
            } else {
                s.active
            },
            log: log_push(s.log, record_of(s, EventType::KeyUp, code, key, false, at)),
            last_event_time: Some(at),
            ..s
        }
    }
}

/// A raw input event; times are in milliseconds.
#[derive(Clone, Debug)]
pub enum KeyEvent {
    Down { code: String, key: String, repeat: bool, at: u64 },
    Up { code: String, key: String, at: u64 },
}

pub enum EventView {
    Down { code: Seq<char>, key: Seq<char>, repeat: bool, at: u64 },
    Up { code: Seq<char>, key: Seq<char>, at: u64 },
}

impl View for KeyEvent {
    type V = EventView;

    open spec fn view(&self) -> EventView {
        match self {
            KeyEvent::Down { code, key, repeat, at } => EventView::Down {
                code: code@,
                key: key@,
                repeat: *repeat,
                at: *at,
            },
            KeyEvent::Up { code, key, at } => EventView::Up { code: code@, key: key@, at: *at },
        }
    }
}

/// The state after one event.
pub open spec fn step(s: SessionView, e: EventView) -> SessionView {
    match e {
        EventView::Down { code, key, repeat, at } => key_down_step(s, code, key, repeat, at),
        EventView::Up { code, key, at } => key_up_step(s, code, key, at),
    }
}

/// The state after a sequence of events, folded in delivery order.
pub open spec fn fold(s: SessionView, evs: Seq<EventView>) -> SessionView
    decreases evs.len(),
{
    if evs.len() == 0 {
        s
    } else {
        step(fold(s, evs.drop_last()), evs.last())
    }
}

/// The live session: held keys, repeat counters, pattern buffer and log.
pub struct Session {
    active_keys: Vec<HeldKey>,
    repeat_counts: Vec<RepeatRecord>,
    pattern: Vec<String>,
    log: Vec<LogRecord>,
    last_event_time: Option<u64>,
    origin: u64,
    paused: bool,
}

impl View for Session {
    type V = SessionView;

    closed spec fn view(&self) -> SessionView {
        SessionView {
            active: self.active_keys@.map_values(|h: HeldKey| h@),
            repeats: self.repeat_counts@.map_values(|r: RepeatRecord| r@),
            pattern: self.pattern@.map_values(|p: String| p@),
            log: self.log@.map_values(|r: LogRecord| r@),
            last_event_time: self.last_event_time,
            origin: self.origin,
            paused: self.paused,
        }
    }
}

impl Session {
    /// A fresh session whose origin is `origin`.
    pub fn new(origin: u64) -> (s: Session)
        ensures
            s@.active.len() == 0,
            s@.repeats.len() == 0,
            s@.pattern.len() == 0,
            s@.log.len() == 0,
            s@.last_event_time is None,
            s@.origin == origin,
            !s@.paused,
            s@.well_formed(),
    {
        let s = Session {
            active_keys: Vec::new(),
            repeat_counts: Vec::new(),
            pattern: Vec::new(),
            log: Vec::new(),
            last_event_time: None,
            origin,
            paused: false,
        };
        s
    }

    /// Records an event in the log, newest first, and keeps at most
    /// `MAX_LOG_ROWS` records.
    fn append_log(&mut self, event_type: EventType, code: &String, key: &String, repeat: bool, at: u64)
        requires
            old(self)@.well_formed(),
        ensures
            final(self)@ == (SessionView {
                log: log_push(old(self)@.log, record_of(old(self)@, event_type, code@, key@, repeat, at)),
                last_event_time: Some(at),
                ..old(self)@
            }),
            final(self)@.well_formed(),
    {
        let delta_ms: Option<i128> = match self.last_event_time {
            Some(last) => Some(at as i128 - last as i128),
            None => None,
        };
        let rec = LogRecord {
            event_type,
            key: key.clone(),
            code: code.clone(),
            repeat,
            at,
            elapsed_ms: at as i128 - self.origin as i128,
            delta_ms,
        };
        proof {
            assert(rec@ == record_of(self@, event_type, code@, key@, repeat, at));
        }
        let ghost before = self.log@;
        self.log.insert(0, rec);
        if self.log.len() > MAX_LOG_ROWS {
            self.log.truncate(MAX_LOG_ROWS);
        }
        self.last_event_time = Some(at);
        proof {
            let r = record_of(old(self)@, event_type, code@, key@, repeat, at);
            let l = seq![r] + old(self)@.log;
            assert(before.insert(0, rec).map_values(|x: LogRecord| x@) =~= l);
            assert(self@.log =~= log_push(old(self)@.log, r));
        }
    }

    /// Folds a key press into the session. Does nothing while paused.
    pub fn on_key_down(&mut self, code: &String, key: &String, repeat: bool, at: u64) -> (d:
        DirtyFlags)
        requires
            old(self)@.well_formed(),
        ensures
            final(self)@ == key_down_step(old(self)@, code@, key@, repeat, at),
            final(self)@.well_formed(),
            d == (DirtyFlags {
                held_keys: !old(self)@.paused && !has_held(old(self)@.active, code@),
                pattern: !old(self)@.paused && repeat,
                repeat_counts: !old(self)@.paused && repeat,
                log: !old(self)@.paused,
            }),
    {
        let none = DirtyFlags { held_keys: false, pattern: false, repeat_counts: false, log: false };
        if self.paused {
            return none;
        }
        let ghost s0 = self@;
        let mut held_changed = false;
        match self.find_held(code) {
            Some(_) => {},
            None => {
                self.active_keys.push(HeldKey { code: code.clone(), key: key.clone(), pressed_at: at });
                held_changed = true;
                proof {
                    assert(self@.active =~= s0.active.push(HeldView { code: code@, key: key@, pressed_at: at }));
                    assert forall|i: int, j: int|
                        0 <= i < j < self@.active.len() implies #[trigger] self@.active[i].code
                            != #[trigger] self@.active[j].code by {
                        if j == s0.active.len() {
                            assert(s0.active[i].code == self@.active[i].code);
                        }
                    }
                }
            },
        }
        assert(self@.active == key_down_step(s0, code@, key@, repeat, at).active);
        let ghost s1 = self@;
        self.append_log(EventType::KeyDown, code, key, repeat, at);
        assert(record_of(s1, EventType::KeyDown, code@, key@, repeat, at)
            == record_of(s0, EventType::KeyDown, code@, key@, repeat, at));
        if repeat {
            let label = if key.as_str().unicode_len() == 1 {
                key.clone()
            } else {
                code.clone()
            };
            let ghost p0 = self@.pattern;
            self.pattern.push(label);
            if self.pattern.len() > MAX_PATTERN_LENGTH {
                self.pattern.remove(0);
            }
            proof {
                assert(self@.pattern =~= pattern_push(p0, label_of(code@, key@)));
            }
            let ghost r0 = self@.repeats;
            match self.find_repeat(code) {
                Some(i) => {
                    let c = self.repeat_counts[i].count;
                    let count = if c < u64::MAX { c + 1 } else { c };
                    self.repeat_counts.set(i, RepeatRecord { code: code.clone(), key: key.clone(), count });
                    proof {
                        assert(repeat_index(r0, code@) == i as int);
                        assert(self@.repeats =~= bump_repeat(r0, code@, key@));
                    }
                },
                None => {
                    self.repeat_counts.push(RepeatRecord { code: code.clone(), key: key.clone(), count: 1 });
                    proof {
                        assert(self@.repeats =~= bump_repeat(r0, code@, key@));
                    }
                },
            }
            proof {
                assert forall|i: int, j: int|
                    0 <= i < j < self@.repeats.len() implies #[trigger] self@.repeats[i].code
                        != #[trigger] self@.repeats[j].code by {
                    assert(r0[i].code == self@.repeats[i].code || self@.repeats[i].code == code@);
                }
            }
        }
        proof {
            assert(self@ == key_down_step(s0, code@, key@, repeat, at));
        }
        DirtyFlags { held_keys: held_changed, pattern: repeat, repeat_counts: repeat, log: true }
    }

    /// Folds a key release into the session. Does nothing while paused.
    pub fn on_key_up(&mut self, code: &String, key: &String, at: u64) -> (d: DirtyFlags)
        requires
            old(self)@.well_formed(),
        ensures
            final(self)@ == key_up_step(old(self)@, code@, key@, at),
            final(self)@.well_formed(),
            d == (DirtyFlags {
                held_keys: !old(self)@.paused && has_held(old(self)@.active, code@),
                pattern: false,
                repeat_counts: false,
                log: !old(self)@.paused,
            }),
    {
        let none = DirtyFlags { held_keys: false, pattern: false, repeat_counts: false, log: false };
        if self.paused {
            return none;
        }
        let ghost s0 = self@;
        self.append_log(EventType::KeyUp, code, key, false, at);
        let mut held_changed = false;
        match self.find_held(code) {
            Some(i) => {
                self.active_keys.remove(i);
                held_changed = true;
                proof {
                    let j = held_index(s0.active, code@);
                    assert(s0.active[j].code == code@);
                    assert(j == i as int);
                    assert(self@.active =~= s0.active.remove(i as int));
                }
            },
            None => {},
        }
        proof {
            assert(self@ == key_up_step(s0, code@, key@, at));
        }
        DirtyFlags { held_keys: held_changed, pattern: false, repeat_counts: false, log: true }
    }

    /// Clears held keys, repeat counters, pattern and log, forgets the last
    /// event time and moves the origin to `now`. With `clear_pause` the session
    /// is also resumed; otherwise pausing is left as it was.
    pub fn reset(&mut self, now: u64, clear_pause: bool) -> (d: DirtyFlags)
        ensures
            final(self)@ == (SessionView {
                active: Seq::empty(),
                repeats: Seq::empty(),
                pattern: Seq::empty(),
                log: Seq::empty(),
                last_event_time: None,
                origin: now,
                paused: if clear_pause { false } else { old(self)@.paused },
            }),
            final(self)@.well_formed(),
            d == (DirtyFlags { held_keys: true, pattern: true, repeat_counts: true, log: true }),
    {
        self.active_keys.clear();
        self.repeat_counts.clear();
        self.pattern.clear();
        self.log.clear();
        self.last_event_time = None;
        self.origin = now;
        if clear_pause {
            self.paused = false;
        }
        proof {
            assert(self@.active =~= Seq::empty());
            assert(self@.repeats =~= Seq::empty());
            assert(self@.pattern =~= Seq::empty());
            assert(self@.log =~= Seq::empty());
        }
        DirtyFlags { held_keys: true, pattern: true, repeat_counts: true, log: true }
    }

    /// Pauses or resumes the session; nothing else changes.
    pub fn set_paused(&mut self, value: bool)
        ensures
            final(self)@ == (SessionView { paused: value, ..old(self)@ }),
    {
        self.paused = value;
    }

    /// Flips pausing and returns the new setting.
    pub fn toggle_pause(&mut self) -> (r: bool)
        ensures
            r == !old(self)@.paused,
            final(self)@ == (SessionView { paused: r, ..old(self)@ }),
    {
        self.paused = !self.paused;
        self.paused
    }

    pub fn is_paused(&self) -> (r: bool)
        ensures
            r == self@.paused,
    {
        self.paused
    }

    pub fn origin(&self) -> (r: u64)
        ensures
            r == self@.origin,
    {
        self.origin
    }

    pub fn last_event_time(&self) -> (r: Option<u64>)
        ensures
            r == self@.last_event_time,
    {
        self.last_event_time
    }

    /// Held keys, in the order they were first pressed.
    pub fn active_keys(&self) -> (r: &[HeldKey])
        ensures
            r@.map_values(|h: HeldKey| h@) == self@.active,
    {
        self.active_keys.as_slice()
    }

    /// Repeat counters, in the order their codes first repeated.
    pub fn repeat_counts(&self) -> (r: &[RepeatRecord])
        ensures
            r@.map_values(|x: RepeatRecord| x@) == self@.repeats,
    {
        self.repeat_counts.as_slice()
    }

    /// Pattern labels, oldest first.
    pub fn pattern(&self) -> (r: &[String])
        ensures
            r@.map_values(|p: String| p@) == self@.pattern,
    {
        self.pattern.as_slice()
    }

    /// Log records, newest first.
    pub fn log(&self) -> (r: &[LogRecord])
        ensures
            r@.map_values(|x: LogRecord| x@) == self@.log,
    {
        self.log.as_slice()
    }

    /// Folds one input event into the session.
    pub fn apply(&mut self, e: &KeyEvent) -> (d: DirtyFlags)
        requires
            old(self)@.well_formed(),
        ensures
            final(self)@ == step(old(self)@, e@),
            final(self)@.well_formed(),
            d == match e@ {
                EventView::Down { code, repeat, .. } => DirtyFlags {
                    held_keys: !old(self)@.paused && !has_held(old(self)@.active, code),
                    pattern: !old(self)@.paused && repeat,
                    repeat_counts: !old(self)@.paused && repeat,
                    log: !old(self)@.paused,
                },
                EventView::Up { code, .. } => DirtyFlags {
                    held_keys: !old(self)@.paused && has_held(old(self)@.active, code),
                    pattern: false,
                    repeat_counts: false,
                    log: !old(self)@.paused,
                },
            },
    {
        match e {
            KeyEvent::Down { code, key, repeat, at } => self.on_key_down(code, key, *repeat, *at),
            KeyEvent::Up { code, key, at } => self.on_key_up(code, key, *at),
        }
    }

    fn find_held(&self, code: &String) -> (r: Option<usize>)
        ensures
            match r {
                Some(i) => i < self@.active.len() && self@.active[i as int].code == code@,
                None => !has_held(self@.active, code@),
            },
    {
        let mut i: usize = 0;
        while i < self.active_keys.len()
            invariant
                i <= self.active_keys@.len(),
                self@.active.len() == self.active_keys@.len(),
                forall|j: int| 0 <= j < i ==> (#[trigger] self@.active[j]).code != code@,
            decreases self.active_keys@.len() - i,
        {
            if self.active_keys[i].code == *code {
                return Some(i);
            }
            i = i + 1;
        }
        None
    }

    fn find_repeat(&self, code: &String) -> (r: Option<usize>)
        ensures
            match r {
                Some(i) => i < self@.repeats.len() && self@.repeats[i as int].code == code@,
                None => !has_repeat(self@.repeats, code@),
            },
    {
        let mut i: usize = 0;
        while i < self.repeat_counts.len()
            invariant
                i <= self.repeat_counts@.len(),
                self@.repeats.len() == self.repeat_counts@.len(),
                forall|j: int| 0 <= j < i ==> (#[trigger] self@.repeats[j]).code != code@,
            decreases self.repeat_counts@.len() - i,
        {
            if self.repeat_counts[i].code == *code {
                return Some(i);
            }
            i = i + 1;
        }
        None
    }
}

} // verus!
