//! Text and ordering that the view shows for a session.
use vstd::prelude::*;

use crate::session::{EventType, HeldKey, HeldView, LogRecord, LogView, RepeatRecord, RepeatView};

verus! {

/// The decimal digit for `d`, which is below ten.
pub open spec fn digit(d: nat) -> char {
    if d == 0 {
        '0'
    } else if d == 1 {
        '1'
    } else if d == 2 {
        '2'
    } else if d == 3 {
        '3'
    } else if d == 4 {
        '4'
    } else if d == 5 {
        '5'
    } else if d == 6 {
        '6'
    } else if d == 7 {
        '7'
    } else if d == 8 {
        '8'
    } else {
        '9'
    }
}

/// Decimal text of a natural number, without leading zeros.
pub open spec fn decimal(n: nat) -> Seq<char>
    decreases n,
{
    if n < 10 {
        seq![digit(n)]
    } else {
        decimal(n / 10).push(digit(n % 10))
    }
}

/// Decimal text of an integer, with a leading minus sign when negative.
pub open spec fn signed_decimal(n: int) -> Seq<char> {
    if n < 0 {
        seq!['-'] + decimal((-n) as nat)
    } else {
        decimal(n as nat)
    }
}

/// Milliseconds shown as seconds with three decimals (`1234` is `1.234`).
pub open spec fn seconds_text(ms: int) -> Seq<char> {
    let a = if ms < 0 { -ms } else { ms };
    let frac = (a % 1000) as nat;
    (if ms < 0 { seq!['-'] } else { Seq::empty() }) + decimal((a / 1000) as nat) + seq![
        '.',
        digit(frac / 100),
        digit((frac / 10) % 10),
        digit(frac % 10),
    ]
}

/// Text of the time since the previous event: `<n> ms`, or a dash for none.
pub open spec fn delta_text(delta: Option<int>) -> Seq<char> {
    match delta {
        Some(d) => signed_decimal(d) + seq![' ', 'm', 's'],
        None => seq!['\u{2014}'],
    }
}

/// The markup-safe form of one character.
pub open spec fn escape_char(c: char) -> Seq<char> {
    if c == '&' {
        seq!['&', 'a', 'm', 'p', ';']
    } else if c == '<' {
        seq!['&', 'l', 't', ';']
    } else if c == '>' {
        seq!['&', 'g', 't', ';']
    } else if c == '"' {
        seq!['&', 'q', 'u', 'o', 't', ';']
    } else if c == '\'' {
        seq!['&', '#', '3', '9', ';']
    } else {
        seq![c]
    }
}

/// The markup-safe form of a text: each character escaped in turn.
pub open spec fn escape_text(s: Seq<char>) -> Seq<char>
    decreases s.len(),
{
    if s.len() == 0 {
        Seq::empty()
    } else {
        escape_text(s.drop_last()) + escape_char(s.last())
    }
}

fn digit_str(d: u128) -> (r: &'static str)
    requires
        d < 10,
    ensures
        r@ == seq![digit(d as nat)],
{
    proof {
        reveal_strlit("0");
        reveal_strlit("1");
        reveal_strlit("2");
        reveal_strlit("3");
        reveal_strlit("4");
        reveal_strlit("5");
        reveal_strlit("6");
        reveal_strlit("7");
        reveal_strlit("8");
        reveal_strlit("9");
    }
    if d == 0 {
        "0"
    } else if d == 1 {
        "1"
    } else if d == 2 {
        "2"
    } else if d == 3 {
        "3"
    } else if d == 4 {
        "4"
    } else if d == 5 {
        "5"
    } else if d == 6 {
        "6"
    } else if d == 7 {
        "7"
    } else if d == 8 {
        "8"
    } else {
        assert(seq!['9'] =~= "9"@);
        "9"
    }
}

/// Appends the decimal text of `n` to `out`.
fn push_decimal(out: &mut String, n: u128)
    ensures
        final(out)@ == old(out)@ + decimal(n as nat),
    decreases n,
{
    if n < 10 {
        out.append(digit_str(n));
    } else {
        push_decimal(out, n / 10);
        out.append(digit_str(n % 10));
        assert(decimal(n as nat) == decimal((n / 10) as nat).push(digit((n % 10) as nat)));
        assert(final(out)@ =~= old(out)@ + decimal(n as nat));
    }
}

/// The magnitude of `n`, without overflow at the smallest value.
fn magnitude(n: i128) -> (r: u128)
    ensures
        r as int == if n < 0 { -n } else { n as int },
{
    if n < 0 {
        ((0 - (n + 1)) as u128) + 1
    } else {
        n as u128
    }
}

/// Milliseconds since the origin as seconds with three decimals.
pub fn format_seconds(elapsed_ms: i128) -> (r: String)
    ensures
        r@ == seconds_text(elapsed_ms as int),
{
    let a = magnitude(elapsed_ms);
    let mut r = String::new();
    if elapsed_ms < 0 {
        r.append("-");
        proof { reveal_strlit("-"); }
    }
    push_decimal(&mut r, a / 1000);
    r.append(".");
    proof { reveal_strlit("."); }
    let frac = a % 1000;
    r.append(digit_str(frac / 100));
    r.append(digit_str((frac / 10) % 10));
    r.append(digit_str(frac % 10));
    assert(r@ =~= seconds_text(elapsed_ms as int));
    r
}

/// The time since the previous event, as `<n> ms`, or a dash when there was none.
pub fn format_delta(delta_ms: Option<i128>) -> (r: String)
    ensures
        r@ == delta_text(
            match delta_ms {
                Some(d) => Some(d as int),
                None => None,
            },
        ),
{
    match delta_ms {
        Some(d) => {
            let mut r = String::new();
            if d < 0 {
                r.append("-");
                proof { reveal_strlit("-"); }
            }
            push_decimal(&mut r, magnitude(d));
            r.append(" ms");
            proof { reveal_strlit(" ms"); }
            assert(r@ =~= signed_decimal(d as int) + seq![' ', 'm', 's']);
            r
        },
        None => {
            proof { reveal_strlit("\u{2014}"); }
            String::from_str("\u{2014}")
        },
    }
}

/// Replaces the characters that carry meaning in markup (`&`, `<`, `>`, `"`
/// and `'`) by their entities.
pub fn escape_html(input: &str) -> (r: String)
    ensures
        r@ == escape_text(input@),
{
    let n = input.unicode_len();
    let mut r = String::new();
    let mut i: usize = 0;
    proof {
        assert(input@.subrange(0, 0) =~= Seq::<char>::empty());
    }
    while i < n
        invariant
            n == input@.len(),
            i <= n,
            r@ == escape_text(input@.subrange(0, i as int)),
        decreases n - i,
    {
        let c = input.get_char(i);
        let ghost r0 = r@;
        if c == '&' {
            r.append("&amp;");
        } else if c == '<' {
            r.append("&lt;");
        } else if c == '>' {
            r.append("&gt;");
        } else if c == '"' {
            r.append("&quot;");
        } else if c == '\'' {
            r.append("&#39;");
        } else {
            r.append(input.substring_char(i, i + 1));
        }
        proof {
            reveal_strlit("&amp;");
            reveal_strlit("&lt;");
            reveal_strlit("&gt;");
            reveal_strlit("&quot;");
            reveal_strlit("&#39;");
            let s = input@.subrange(0, i + 1);
            assert(s.drop_last() =~= input@.subrange(0, i as int));
            assert(input@.subrange(i as int, i + 1) =~= seq![c]);
            assert(r@ =~= r0 + escape_char(c));
            assert(s.last() == c);
            assert(escape_text(s) == escape_text(s.drop_last()) + escape_char(c));
        }
        i = i + 1;
    }
    assert(input@.subrange(0, n as int) =~= input@);
    r
}

/// The separator between pattern labels.
pub open spec fn arrow() -> Seq<char> {
    seq![' ', '\u{2192}', ' ']
}

/// The labels joined by arrows, oldest first.
pub open spec fn join_labels(q: Seq<Seq<char>>) -> Seq<char>
    decreases q.len(),
{
    if q.len() == 0 {
        Seq::empty()
    } else if q.len() == 1 {
        q[0]
    } else {
        join_labels(q.drop_last()) + arrow() + q.last()
    }
}

/// What the pattern view shows: the labels joined by arrows, or a waiting
/// notice while there are none.
pub open spec fn pattern_text_of(q: Seq<Seq<char>>) -> Seq<char> {
    if q.len() == 0 {
        "Waiting for repeated events..."@
    } else {
        join_labels(q)
    }
}

/// The text of the pattern view for the given labels, oldest first.
pub fn pattern_text(labels: &[String]) -> (r: String)
    ensures
        r@ == pattern_text_of(labels@.map_values(|p: String| p@)),
{
    let ghost q = labels@.map_values(|p: String| p@);
    if labels.len() == 0 {
        return String::from_str("Waiting for repeated events...");
    }
    let mut r = labels[0].clone();
    let mut i: usize = 1;
    assert(q.subrange(0, 1).drop_last() =~= Seq::<Seq<char>>::empty());
    while i < labels.len()
        invariant
            1 <= i <= labels@.len(),
            q == labels@.map_values(|p: String| p@),
            r@ == join_labels(q.subrange(0, i as int)),
        decreases labels@.len() - i,
    {
        r.append(" \u{2192} ");
        proof {
            reveal_strlit(" \u{2192} ");
        }
        r.append(labels[i].as_str());
        proof {
            let t = q.subrange(0, i + 1);
            assert(t.drop_last() =~= q.subrange(0, i as int));
        }
        i = i + 1;
    }
    assert(q.subrange(0, labels@.len() as int) =~= q);
    r
}

/// The text beside a repeat counter: the code, a times sign and the count.
pub fn count_label(code: &str, count: u64) -> (r: String)
    ensures
        r@ == code@ + seq![' ', '\u{d7}'] + decimal(count as nat),
{
    let mut r = String::from_str(code);
    r.append(" \u{d7}");
    proof {
        reveal_strlit(" \u{d7}");
    }
    push_decimal(&mut r, count as u128);
    assert(r@ =~= code@ + seq![' ', '\u{d7}'] + decimal(count as nat));
    r
}

/// How the log shows the repeat flag.
pub fn repeat_text(repeat: bool) -> (r: &'static str)
    ensures
        r@ == if repeat { "yes"@ } else { "no"@ },
{
    if repeat {
        "yes"
    } else {
        "no"
    }
}

/// Held keys ordered by the time of their first press.
pub open spec fn sorted_by_press(s: Seq<HeldView>) -> bool {
    forall|i: int, j: int| 0 <= i < j < s.len() ==> #[trigger] s[i].pressed_at <= #[trigger] s[j].pressed_at
}

fn copy_held(h: &HeldKey) -> (r: HeldKey)
    ensures
        r@ == h@,
{
    HeldKey { code: h.code.clone(), key: h.key.clone(), pressed_at: h.pressed_at }
}

/// The held keys in the order the view lists them: by press time, earliest
/// first.
pub fn held_keys_by_press(keys: &[HeldKey]) -> (r: Vec<HeldKey>)
    ensures
        sorted_by_press(r@.map_values(|h: HeldKey| h@)),
        r@.map_values(|h: HeldKey| h@).to_multiset() == keys@.map_values(|h: HeldKey| h@).to_multiset(),
{
    broadcast use vstd::seq_lib::group_to_multiset_ensures;

    let ghost kv = keys@.map_values(|h: HeldKey| h@);
    let mut r: Vec<HeldKey> = Vec::new();
    let mut i: usize = 0;
    assert(kv.subrange(0, 0) =~= Seq::<HeldView>::empty());
    while i < keys.len()
        invariant
            i <= keys@.len(),
            kv == keys@.map_values(|h: HeldKey| h@),
            sorted_by_press(r@.map_values(|h: HeldKey| h@)),
            r@.map_values(|h: HeldKey| h@).to_multiset() == kv.subrange(0, i as int).to_multiset(),
        decreases keys@.len() - i,
    {
        let x = copy_held(&keys[i]);
        let mut k: usize = 0;
        while k < r.len() && r[k].pressed_at <= x.pressed_at
            invariant
                k <= r@.len(),
                forall|j: int| 0 <= j < k ==> (#[trigger] r@[j]).pressed_at <= x.pressed_at,
            decreases r@.len() - k,
        {
            k = k + 1;
        }
        let ghost rv = r@.map_values(|h: HeldKey| h@);
        let ghost xv = x@;
        r.insert(k, x);
        proof {
            let nv = r@.map_values(|h: HeldKey| h@);
            assert(nv =~= rv.insert(k as int, xv));
            assert(xv == kv[i as int]);
            assert(kv.subrange(0, i + 1) =~= kv.subrange(0, i as int).push(xv));
            vstd::seq_lib::to_multiset_insert(rv, k as int, xv);
            vstd::seq_lib::to_multiset_build(kv.subrange(0, i as int), xv);
            assert forall|a: int, b: int| 0 <= a < b < nv.len() implies #[trigger] nv[a].pressed_at
                <= #[trigger] nv[b].pressed_at by {
                if a < k && b > k {
                    assert(nv[a] == rv[a] && nv[b] == rv[b - 1]);
                } else if a == k && b > k {
                    assert(nv[b] == rv[b - 1]);
                    assert(rv[k as int].pressed_at <= rv[b - 1].pressed_at);
                } else if b > k {
                    assert(nv[a] == rv[a - 1] && nv[b] == rv[b - 1]);
                } else if b == k {
                    assert(nv[a] == rv[a]);
                } else {
                    assert(nv[a] == rv[a] && nv[b] == rv[b]);
                }
            }
        }
        i = i + 1;
    }
    assert(kv.subrange(0, keys@.len() as int) =~= kv);
    r
}

/// `a` comes before `b` in character order (a proper prefix comes first).
pub open spec fn code_before(a: Seq<char>, b: Seq<char>) -> bool
    decreases a.len(),
{
    if a.len() == 0 {
        b.len() > 0
    } else if b.len() == 0 {
        false
    } else if a[0] != b[0] {
        (a[0] as u32) < (b[0] as u32)
    } else {
        code_before(a.drop_first(), b.drop_first())
    }
}

/// `a` is listed before `b`: a higher count first, equal counts by code.
pub open spec fn ranks_before(a: RepeatView, b: RepeatView) -> bool {
    a.count > b.count || (a.count == b.count && code_before(a.code, b.code))
}

/// Repeat counters in the order the view lists them.
pub open spec fn sorted_by_rank(s: Seq<RepeatView>) -> bool {
    forall|i: int, j: int| 0 <= i < j < s.len() ==> !ranks_before(#[trigger] s[j], #[trigger] s[i])
}

proof fn lemma_code_before_order(a: Seq<char>, b: Seq<char>, c: Seq<char>)
    ensures
        code_before(a, b) ==> !code_before(b, a),
        code_before(a, b) && code_before(b, c) ==> code_before(a, c),
    decreases a.len(),
{
    if a.len() > 0 && b.len() > 0 {
        let c1 = if c.len() > 0 { c.drop_first() } else { c };
        lemma_code_before_order(a.drop_first(), b.drop_first(), c1);
    }
}

/// Compares two codes in character order.
pub fn is_code_before(a: &str, b: &str) -> (r: bool)
    ensures
        r == code_before(a@, b@),
{
    let n = a.unicode_len();
    let m = b.unicode_len();
    let mut i: usize = 0;
    assert(a@.skip(0) =~= a@);
    assert(b@.skip(0) =~= b@);
    while i < n && i < m
        invariant
            n == a@.len(),
            m == b@.len(),
            i <= n,
            i <= m,
            code_before(a@, b@) == code_before(a@.skip(i as int), b@.skip(i as int)),
        decreases n - i,
    {
        let x = a.get_char(i);
        let y = b.get_char(i);
        if x != y {
            return (x as u32) < (y as u32);
        }
        assert(a@.skip(i as int).drop_first() =~= a@.skip(i + 1));
        assert(b@.skip(i as int).drop_first() =~= b@.skip(i + 1));
        i = i + 1;
    }
    i == n && i < m
}

fn copy_repeat(x: &RepeatRecord) -> (r: RepeatRecord)
    ensures
        r@ == x@,
{
    RepeatRecord { code: x.code.clone(), key: x.key.clone(), count: x.count }
}

/// The repeat counters in the order the view lists them: highest count
/// first, equal counts by code in character order.
pub fn repeat_counts_ranked(counts: &[RepeatRecord]) -> (r: Vec<RepeatRecord>)
    ensures
        sorted_by_rank(r@.map_values(|x: RepeatRecord| x@)),
        r@.map_values(|x: RepeatRecord| x@).to_multiset() == counts@.map_values(
            |x: RepeatRecord| x@,
        ).to_multiset(),
{
    broadcast use vstd::seq_lib::group_to_multiset_ensures;

    let ghost cv = counts@.map_values(|x: RepeatRecord| x@);
    let mut r: Vec<RepeatRecord> = Vec::new();
    let mut i: usize = 0;
    assert(cv.subrange(0, 0) =~= Seq::<RepeatView>::empty());
    while i < counts.len()
        invariant
            i <= counts@.len(),
            cv == counts@.map_values(|x: RepeatRecord| x@),
            sorted_by_rank(r@.map_values(|x: RepeatRecord| x@)),
            r@.map_values(|x: RepeatRecord| x@).to_multiset() == cv.subrange(0, i as int).to_multiset(),
        decreases counts@.len() - i,
    {
        let x = copy_repeat(&counts[i]);
        let mut k: usize = 0;
        while k < r.len() && !(x.count > r[k].count || (x.count == r[k].count && is_code_before(
            x.code.as_str(),
            r[k].code.as_str(),
        )))
            invariant
                k <= r@.len(),
                forall|j: int| 0 <= j < k ==> !ranks_before(x@, #[trigger] r@[j]@),
            decreases r@.len() - k,
        {
            k = k + 1;
        }
        let ghost rv = r@.map_values(|x: RepeatRecord| x@);
        let ghost xv = x@;
        r.insert(k, x);
        proof {
            let nv = r@.map_values(|x: RepeatRecord| x@);
            assert(nv =~= rv.insert(k as int, xv));
            assert(xv == cv[i as int]);
            assert(cv.subrange(0, i + 1) =~= cv.subrange(0, i as int).push(xv));
            vstd::seq_lib::to_multiset_insert(rv, k as int, xv);
            vstd::seq_lib::to_multiset_build(cv.subrange(0, i as int), xv);
            assert forall|a: int, b: int| 0 <= a < b < nv.len() implies !ranks_before(
                #[trigger] nv[b],
                #[trigger] nv[a],
            ) by {
                if a < k && b > k {
                    assert(nv[a] == rv[a] && nv[b] == rv[b - 1]);
                } else if a == k && b > k {
                    assert(nv[b] == rv[b - 1]);
                    assert(ranks_before(xv, rv[k as int]));
                    lemma_code_before_order(xv.code, rv[k as int].code, rv[b - 1].code);
                    lemma_code_before_order(rv[b - 1].code, xv.code, rv[k as int].code);
                    if b - 1 > k {
                        assert(!ranks_before(rv[b - 1], rv[k as int]));
                    }
                } else if b > k {
                    assert(nv[a] == rv[a - 1] && nv[b] == rv[b - 1]);
                } else if b == k {
                    assert(nv[a] == rv[a]);
                } else {
                    assert(nv[a] == rv[a] && nv[b] == rv[b]);
                }
            }
        }
        i = i + 1;
    }
    assert(cv.subrange(0, counts@.len() as int) =~= cv);
    r
}

/// The name of an event kind as the log shows it.
pub open spec fn event_type_text(t: EventType) -> Seq<char> {
    match t {
        EventType::KeyDown => "keydown"@,
        EventType::KeyUp => "keyup"@,
    }
}

/// The name of an event kind as the log shows it.
pub fn event_type_name(t: EventType) -> (r: &'static str)
    ensures
        r@ == event_type_text(t),
{
    match t {
        EventType::KeyDown => "keydown",
        EventType::KeyUp => "keyup",
    }
}

/// A table cell holding `c`.
pub open spec fn cell(c: Seq<char>) -> Seq<char> {
    "<td>"@ + c + "</td>"@
}

/// The markup of one log row: time, delta, kind, key, code and repeat flag,
/// the free-text fields escaped.
pub open spec fn row_markup(r: LogView) -> Seq<char> {
    cell(seconds_text(r.elapsed_ms)) + cell(delta_text(r.delta_ms)) + cell(
        escape_text(event_type_text(r.event_type)),
    ) + cell(escape_text(r.key)) + cell(escape_text(r.code)) + cell(
        if r.repeat {
            "yes"@
        } else {
            "no"@
        },
    )
}

fn push_cell(out: &mut String, c: &str)
    ensures
        final(out)@ == old(out)@ + cell(c@),
{
    out.append("<td>");
    out.append(c);
    out.append("</td>");
    assert(final(out)@ =~= old(out)@ + cell(c@));
}

/// The markup of one log row.
pub fn log_row_html(rec: &LogRecord) -> (r: String)
    ensures
        r@ == row_markup(rec@),
{
    let mut r = String::new();
    let t = format_seconds(rec.elapsed_ms);
    push_cell(&mut r, t.as_str());
    let d = format_delta(rec.delta_ms);
    push_cell(&mut r, d.as_str());
    let e = escape_html(event_type_name(rec.event_type));
    push_cell(&mut r, e.as_str());
    let k = escape_html(rec.key.as_str());
    push_cell(&mut r, k.as_str());
    let c = escape_html(rec.code.as_str());
    push_cell(&mut r, c.as_str());
    push_cell(&mut r, repeat_text(rec.repeat));
    assert(r@ =~= row_markup(rec@));
    r
}

} // verus!
