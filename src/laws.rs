//! Properties of the session model over whole sequences of events.
use vstd::prelude::*;

use crate::session::{
    bump_repeat, fold, has_held, has_repeat, held_index, key_down_step, label_of, log_push,
    pattern_push, record_of, repeat_index, step, EventType, EventView, HeldView, LogView,
    SessionView, MAX_LOG_ROWS, MAX_PATTERN_LENGTH,
};

verus! {

/// One event keeps the session well formed.
pub proof fn lemma_step_well_formed(s: SessionView, e: EventView)
    requires
        s.well_formed(),
    ensures
        step(s, e).well_formed(),
        step(s, e).paused == s.paused,
{
    let t = step(s, e);
    if !s.paused {
        match e {
            EventView::Down { code, key, repeat, at } => {
                assert forall|i: int, j: int|
                    0 <= i < j < t.active.len() implies #[trigger] t.active[i].code
                        != #[trigger] t.active[j].code by {
                    if !has_held(s.active, code) && j == s.active.len() {
                        assert(s.active[i].code == t.active[i].code);
                    }
                }
                if repeat {
                    let r = s.repeats;
                    if has_repeat(r, code) {
                        let k = repeat_index(r, code);
                        assert forall|i: int, j: int|
                            0 <= i < j < t.repeats.len() implies #[trigger] t.repeats[i].code
                                != #[trigger] t.repeats[j].code by {
                            assert(t.repeats[i].code == r[i].code);
                            assert(t.repeats[j].code == r[j].code);
                        }
                        assert forall|i: int| 0 <= i < t.repeats.len() implies #[trigger] t.repeats[i].count >= 1 by {
                            if i != k {
                                assert(t.repeats[i] == r[i]);
                            }
                        }
                    } else {
                        assert forall|i: int, j: int|
                            0 <= i < j < t.repeats.len() implies #[trigger] t.repeats[i].code
                                != #[trigger] t.repeats[j].code by {
                            assert(t.repeats[i].code == r[i].code);
                        }
                        assert forall|i: int| 0 <= i < t.repeats.len() implies #[trigger] t.repeats[i].count >= 1 by {
                            if i < r.len() {
                                assert(t.repeats[i] == r[i]);
                            }
                        }
                    }
                }
            },
            EventView::Up { code, key, at } => {
                if has_held(s.active, code) {
                    let k = held_index(s.active, code);
                    assert forall|i: int, j: int|
                        0 <= i < j < t.active.len() implies #[trigger] t.active[i].code
                            != #[trigger] t.active[j].code by {
                        let i0 = if i < k { i } else { i + 1 };
                        let j0 = if j < k { j } else { j + 1 };
                        assert(t.active[i] == s.active[i0]);
                        assert(t.active[j] == s.active[j0]);
                    }
                }
            },
        }
    }
}

/// A sequence of events keeps the session well formed and leaves pausing alone.
pub proof fn lemma_fold_well_formed(s: SessionView, evs: Seq<EventView>)
    requires
        s.well_formed(),
    ensures
        fold(s, evs).well_formed(),
        fold(s, evs).paused == s.paused,
    decreases evs.len(),
{
    if evs.len() > 0 {
        lemma_fold_well_formed(s, evs.drop_last());
        lemma_step_well_formed(fold(s, evs.drop_last()), evs.last());
    }
}

/// While the session is paused, no sequence of events changes any part of it.
pub proof fn lemma_paused_session_is_inert(s: SessionView, evs: Seq<EventView>)
    requires
        s.paused,
    ensures
        fold(s, evs) == s,
    decreases evs.len(),
{
    if evs.len() > 0 {
        lemma_paused_session_is_inert(s, evs.drop_last());
    }
}

/// An auto-repeat of a key that is already held leaves the held keys as they
/// were: no second entry, no new press time.
pub proof fn lemma_repeat_keeps_held_key(
    s: SessionView,
    code: Seq<char>,
    key: Seq<char>,
    at: u64,
)
    requires
        s.well_formed(),
        has_held(s.active, code),
    ensures
        key_down_step(s, code, key, true, at).active == s.active,
{
}

/// The labels that the repeat events of `evs` add to the pattern, in order.
pub open spec fn repeat_labels(evs: Seq<EventView>) -> Seq<Seq<char>>
    decreases evs.len(),
{
    if evs.len() == 0 {
        Seq::empty()
    } else {
        let rest = repeat_labels(evs.drop_last());
        match evs.last() {
            EventView::Down { code, key, repeat, at } => if repeat {
                rest.push(label_of(code, key))
            } else {
                rest
            },
            EventView::Up { .. } => rest,
        }
    }
}

/// The last `n` items of `q` (all of it when it is shorter).
pub open spec fn keep_last<A>(q: Seq<A>, n: nat) -> Seq<A> {
    if q.len() <= n {
        q
    } else {
        q.subrange(q.len() - n, q.len() as int)
    }
}

proof fn lemma_pattern_push_window(q: Seq<Seq<char>>, l: Seq<char>)
    ensures
        pattern_push(keep_last(q, MAX_PATTERN_LENGTH as nat), l) == keep_last(
            q.push(l),
            MAX_PATTERN_LENGTH as nat,
        ),
{
    let n = MAX_PATTERN_LENGTH as int;
    if q.len() < n {
    } else if q.len() == n {
        assert(q.push(l).drop_first() =~= q.push(l).subrange(1, n + 1));
    } else {
        assert(keep_last(q, n as nat).push(l).drop_first() =~= q.push(l).subrange(
            q.len() + 1 - n,
            (q.len() + 1) as int,
        ));
    }
}

/// The pattern holds the last `MAX_PATTERN_LENGTH` labels of everything it
/// has received, oldest first: the oldest label is dropped first and the
/// newest one stands at the end.
pub proof fn lemma_pattern_keeps_newest_labels(s: SessionView, evs: Seq<EventView>)
    requires
        s.well_formed(),
        !s.paused,
    ensures
        fold(s, evs).pattern == keep_last(s.pattern + repeat_labels(evs), MAX_PATTERN_LENGTH as nat),
        fold(s, evs).pattern.len() <= MAX_PATTERN_LENGTH,
    decreases evs.len(),
{
    lemma_fold_well_formed(s, evs);
    if evs.len() == 0 {
        assert(s.pattern + repeat_labels(evs) =~= s.pattern);
    } else {
        let p = evs.drop_last();
        lemma_pattern_keeps_newest_labels(s, p);
        lemma_fold_well_formed(s, p);
        match evs.last() {
            EventView::Down { code, key, repeat, at } => {
                if repeat {
                    let l = label_of(code, key);
                    lemma_pattern_push_window(s.pattern + repeat_labels(p), l);
                    assert(s.pattern + repeat_labels(evs) =~= (s.pattern + repeat_labels(p)).push(l));
                }
            },
            EventView::Up { .. } => {},
        }
    }
}

/// A log record stands for an event: same kind, key, code, repeat flag and time.
pub open spec fn describes(r: LogView, e: EventView) -> bool {
    match e {
        EventView::Down { code, key, repeat, at } => r.event_type == EventType::KeyDown
            && r.code == code && r.key == key && r.repeat == repeat && r.at == at,
        EventView::Up { code, key, at } => r.event_type == EventType::KeyUp && r.code == code
            && r.key == key && !r.repeat && r.at == at,
    }
}

/// The log keeps the `MAX_LOG_ROWS` most recent records, newest first: its
/// first records stand for the events of `evs` from the last one backwards,
/// and after them come the records that were there before, while room lasts.
pub proof fn lemma_log_keeps_newest_records(s: SessionView, evs: Seq<EventView>)
    requires
        s.well_formed(),
        !s.paused,
    ensures
        fold(s, evs).log.len() == if s.log.len() + evs.len() > MAX_LOG_ROWS {
            MAX_LOG_ROWS as int
        } else {
            (s.log.len() + evs.len()) as int
        },
        forall|i: int|
            0 <= i < fold(s, evs).log.len() ==> if i < evs.len() {
                describes(#[trigger] fold(s, evs).log[i], evs[evs.len() - 1 - i])
            } else {
                fold(s, evs).log[i] == s.log[i - evs.len()]
            },
    decreases evs.len(),
{
    lemma_fold_well_formed(s, evs);
    if evs.len() > 0 {
        let p = evs.drop_last();
        lemma_log_keeps_newest_records(s, p);
        lemma_fold_well_formed(s, p);
        let f = fold(s, p);
        let e = evs.last();
        let r = match e {
            EventView::Down { code, key, repeat, at } => record_of(f, EventType::KeyDown, code, key, repeat, at),
            EventView::Up { code, key, at } => record_of(f, EventType::KeyUp, code, key, false, at),
        };
        assert(fold(s, evs).log == log_push(f.log, r));
        assert forall|i: int| 0 <= i < fold(s, evs).log.len() implies if i < evs.len() {
            describes(#[trigger] fold(s, evs).log[i], evs[evs.len() - 1 - i])
        } else {
            fold(s, evs).log[i] == s.log[i - evs.len()]
        } by {
            if i > 0 {
                assert(fold(s, evs).log[i] == f.log[i - 1]);
                if i < evs.len() {
                    assert(p[p.len() - 1 - (i - 1)] == evs[evs.len() - 1 - i]);
                }
            }
        }
    }
}

/// `e` is a press of the key `c`.
pub open spec fn is_press_of(e: EventView, c: Seq<char>) -> bool {
    match e {
        EventView::Down { code, .. } => code == c,
        EventView::Up { .. } => false,
    }
}

/// `e` is a release of the key `c`.
pub open spec fn is_release_of(e: EventView, c: Seq<char>) -> bool {
    match e {
        EventView::Down { .. } => false,
        EventView::Up { code, .. } => code == c,
    }
}

/// Some event of `evs` after position `i` releases `c`.
pub open spec fn released_after(evs: Seq<EventView>, i: int, c: Seq<char>) -> bool {
    exists|j: int| i < j < evs.len() && is_release_of(#[trigger] evs[j], c)
}

/// `evs` presses `c` and does not release it afterwards.
pub open spec fn pressed_and_not_released(evs: Seq<EventView>, c: Seq<char>) -> bool {
    exists|i: int| 0 <= i < evs.len() && is_press_of(#[trigger] evs[i], c) && !released_after(evs, i, c)
}

proof fn lemma_remove_other_code(a: Seq<HeldView>, k: int, c: Seq<char>)
    requires
        0 <= k < a.len(),
        a[k].code != c,
    ensures
        has_held(a.remove(k), c) == has_held(a, c),
{
    if has_held(a, c) {
        let i = choose|i: int| 0 <= i < a.len() && (#[trigger] a[i]).code == c;
        let i2 = if i < k { i } else { i - 1 };
        assert(a.remove(k)[i2].code == c);
    }
    if has_held(a.remove(k), c) {
        let i = choose|i: int| 0 <= i < a.remove(k).len() && (#[trigger] a.remove(k)[i]).code == c;
        let i0 = if i < k { i } else { i + 1 };
        assert(a[i0].code == c);
    }
}

/// A key is held exactly when it is pressed and not released afterwards, or
/// it was held before and the events never release it. Starting from no held
/// keys, the held keys are exactly those pressed and not yet released.
pub proof fn lemma_held_keys_are_unreleased_presses(s: SessionView, evs: Seq<EventView>, c: Seq<char>)
    requires
        s.well_formed(),
        !s.paused,
    ensures
        has_held(fold(s, evs).active, c) == (pressed_and_not_released(evs, c) || (has_held(
            s.active,
            c,
        ) && !released_after(evs, -1, c))),
    decreases evs.len(),
{
    if evs.len() > 0 {
        let p = evs.drop_last();
        let n = p.len() as int;
        let e = evs.last();
        lemma_held_keys_are_unreleased_presses(s, p, c);
        lemma_fold_well_formed(s, p);
        let f = fold(s, p);
        assert forall|j: int| 0 <= j < n implies #[trigger] evs[j] == p[j] by {}
        assert(evs[n] == e);
        if is_press_of(e, c) {
            assert(!released_after(evs, n, c));
            assert(has_held(fold(s, evs).active, c)) by {
                if !has_held(f.active, c) {
                    assert(fold(s, evs).active[f.active.len() as int].code == c);
                }
            }
        } else if is_release_of(e, c) {
            assert forall|i: int| 0 <= i < evs.len() && is_press_of(#[trigger] evs[i], c) implies released_after(evs, i, c) by {
                assert(is_release_of(evs[n], c));
            }
            assert(released_after(evs, -1, c)) by {
                assert(is_release_of(evs[n], c));
            }
            if has_held(f.active, c) {
                let k = held_index(f.active, c);
                let a = f.active.remove(k);
                assert(fold(s, evs).active == a);
                if has_held(a, c) {
                    let i = choose|i: int| 0 <= i < a.len() && (#[trigger] a[i]).code == c;
                    let i0 = if i < k { i } else { i + 1 };
                    assert(f.active[i0].code == c);
                }
            }
        } else {
            match e {
                EventView::Down { code, key, repeat, at } => {
                    if !has_held(f.active, code) {
                        if has_held(f.active, c) {
                            let i = choose|i: int| 0 <= i < f.active.len() && (#[trigger] f.active[i]).code == c;
                            assert(fold(s, evs).active[i].code == c);
                        }
                        if has_held(fold(s, evs).active, c) {
                            let i = choose|i: int| 0 <= i < fold(s, evs).active.len() && (#[trigger] fold(s, evs).active[i]).code == c;
                            assert(f.active[i].code == c);
                        }
                    }
                },
                EventView::Up { code, key, at } => {
                    if has_held(f.active, code) {
                        lemma_remove_other_code(f.active, held_index(f.active, code), c);
                    }
                },
            }
            assert(pressed_and_not_released(evs, c) == pressed_and_not_released(p, c)) by {
                if pressed_and_not_released(evs, c) {
                    let i = choose|i: int| 0 <= i < evs.len() && is_press_of(#[trigger] evs[i], c) && !released_after(evs, i, c);
                    assert(is_press_of(p[i], c));
                    assert(!released_after(p, i, c)) by {
                        if released_after(p, i, c) {
                            let j = choose|j: int| i < j < p.len() && is_release_of(#[trigger] p[j], c);
                            assert(is_release_of(evs[j], c));
                        }
                    }
                }
                if pressed_and_not_released(p, c) {
                    let i = choose|i: int| 0 <= i < p.len() && is_press_of(#[trigger] p[i], c) && !released_after(p, i, c);
                    assert(is_press_of(evs[i], c));
                    assert(!released_after(evs, i, c)) by {
                        if released_after(evs, i, c) {
                            let j = choose|j: int| i < j < evs.len() && is_release_of(#[trigger] evs[j], c);
                            assert(is_release_of(p[j], c));
                        }
                    }
                }
            }
            assert(released_after(evs, -1, c) == released_after(p, -1, c)) by {
                if released_after(evs, -1, c) {
                    let j = choose|j: int| -1 < j < evs.len() && is_release_of(#[trigger] evs[j], c);
                    assert(is_release_of(p[j], c));
                }
                if released_after(p, -1, c) {
                    let j = choose|j: int| -1 < j < p.len() && is_release_of(#[trigger] p[j], c);
                    assert(is_release_of(evs[j], c));
                }
            }
        }
    }
}

/// `e` is an auto-repeat press of the key `c`.
pub open spec fn is_repeat_of(e: EventView, c: Seq<char>) -> bool {
    match e {
        EventView::Down { code, repeat, .. } => repeat && code == c,
        EventView::Up { .. } => false,
    }
}

/// How many auto-repeat presses of `c` the events hold.
pub open spec fn repeat_count(evs: Seq<EventView>, c: Seq<char>) -> nat
    decreases evs.len(),
{
    if evs.len() == 0 {
        0
    } else {
        repeat_count(evs.drop_last(), c) + if is_repeat_of(evs.last(), c) {
            1nat
        } else {
            0nat
        }
    }
}

proof fn lemma_repeat_count_bound(evs: Seq<EventView>, c: Seq<char>)
    ensures
        repeat_count(evs, c) <= evs.len(),
    decreases evs.len(),
{
    if evs.len() > 0 {
        lemma_repeat_count_bound(evs.drop_last(), c);
    }
}

/// Starting from no repeat counters, a code has a counter exactly when the
/// events repeat it, and its count is the number of those repeats.
pub proof fn lemma_repeat_counts_match_repeats(s: SessionView, evs: Seq<EventView>, c: Seq<char>)
    requires
        s.well_formed(),
        !s.paused,
        s.repeats.len() == 0,
        evs.len() <= u64::MAX,
    ensures
        repeat_count(evs, c) == 0 ==> !has_repeat(fold(s, evs).repeats, c),
        repeat_count(evs, c) > 0 ==> exists|i: int|
            0 <= i < fold(s, evs).repeats.len() && (#[trigger] fold(s, evs).repeats[i]).code == c
                && fold(s, evs).repeats[i].count == repeat_count(evs, c),
    decreases evs.len(),
{
    if evs.len() > 0 {
        let p = evs.drop_last();
        lemma_repeat_counts_match_repeats(s, p, c);
        lemma_fold_well_formed(s, p);
        lemma_repeat_count_bound(p, c);
        let f = fold(s, p);
        let r = f.repeats;
        let t = fold(s, evs).repeats;
        match evs.last() {
            EventView::Down { code, key, repeat, at } => {
                if repeat {
                    assert(t == bump_repeat(r, code, key));
                    if has_repeat(r, code) {
                        let k = repeat_index(r, code);
                        if code == c {
                            let i = choose|i: int| 0 <= i < r.len() && (#[trigger] r[i]).code == c
                                && r[i].count == repeat_count(p, c);
                            assert(i == k);
                            assert(t[k].code == c && t[k].count == repeat_count(evs, c));
                        } else {
                            if repeat_count(p, c) > 0 {
                                let i = choose|i: int| 0 <= i < r.len() && (#[trigger] r[i]).code == c
                                    && r[i].count == repeat_count(p, c);
                                assert(t[i] == r[i]);
                            } else if has_repeat(t, c) {
                                let i = choose|i: int| 0 <= i < t.len() && (#[trigger] t[i]).code == c;
                                assert(r[i].code == c);
                            }
                        }
                    } else {
                        let n = r.len() as int;
                        if code == c {
                            assert(t[n].code == c && t[n].count == 1);
                        } else {
                            if repeat_count(p, c) > 0 {
                                let i = choose|i: int| 0 <= i < r.len() && (#[trigger] r[i]).code == c
                                    && r[i].count == repeat_count(p, c);
                                assert(t[i] == r[i]);
                            } else if has_repeat(t, c) {
                                let i = choose|i: int| 0 <= i < t.len() && (#[trigger] t[i]).code == c;
                                assert(r[i].code == c);
                            }
                        }
                    }
                }
            },
            EventView::Up { .. } => {},
        }
    }
}

} // verus!
