//! Alarms: an agent ends its turn with an `<alarm>` tag to be woken later, and
//! a scheduler fires due alarms into idle threads only.
use crate::text;
use vstd::prelude::*;
use vstd::string::*;

verus! {

/// The longest delay that is accepted, in seconds: a day.
pub const MAX_ALARM_DELAY_SECS: u64 = 86_400;

/// How often the scheduler looks, in seconds.
pub const SCHEDULER_TICK_SECS: u64 = 1;

/// An `<alarm>` tag with a valid delay.
#[derive(Debug, Clone, PartialEq, Eq)]
pub struct ParsedAlarm {
    /// In seconds.
    pub delay: u64,
    pub wake_message: String,
}

#[verifier::ext_equal]
pub ghost struct AlarmView {
    pub delay: u64,
    pub wake_message: Seq<char>,
}

impl View for ParsedAlarm {
    type V = AlarmView;

    open spec fn view(&self) -> AlarmView {
        AlarmView { delay: self.delay, wake_message: self.wake_message@ }
    }
}

// ---------------------------------------------------------------------------
// Delays

/// The seconds that one of a delay's unit stands for; a bare digit ends a
/// number of seconds.
pub open spec fn unit_seconds(last: char) -> Option<nat> {
    if last == 's' {
        Some(1)
    } else if last == 'm' {
        Some(60)
    } else if last == 'h' {
        Some(3600)
    } else if text::is_digit(last) {
        Some(1)
    } else {
        None
    }
}

/// The number part of a trimmed delay: all of it, or all but its unit.
pub open spec fn delay_digits(raw: Seq<char>) -> Seq<char> {
    if text::is_digit(raw.last()) {
        raw
    } else {
        raw.drop_last()
    }
}

/// The delay that a text writes, in seconds: a number with an optional unit,
/// at most a day.
pub open spec fn delay_of(raw: Seq<char>) -> Option<nat> {
    let t = text::trimmed(raw);
    if t.len() == 0 {
        None
    } else {
        match (unit_seconds(t.last()), text::natural_up_to(
            text::trimmed(delay_digits(t)),
            u64::MAX as nat,
        )) {
            (Some(unit), Some(n)) => if n * unit <= MAX_ALARM_DELAY_SECS {
                Some(n * unit)
            } else {
                None
            },
            _ => None,
        }
    }
}

/// Reads a delay: `30s`, `10m`, `2h`, or bare seconds.
pub fn parse_alarm_delay(raw: &str) -> (r: Option<u64>)
    ensures
        match r {
            Some(secs) => delay_of(raw@) == Some(secs as nat) && secs <= MAX_ALARM_DELAY_SECS,
            None => delay_of(raw@) is None,
        },
{
    let t = text::trim(raw);
    let v = text::chars_of(t);
    let n: usize = v.len();
    if n == 0 {
        return None;
    }
    let last = v[n - 1];
    let (digits, unit): (&str, u64) = if last == 's' {
        (text::head(t, n - 1), 1)
    } else if last == 'm' {
        (text::head(t, n - 1), 60)
    } else if last == 'h' {
        (text::head(t, n - 1), 3600)
    } else if text::digit(last) {
        (t, 1)
    } else {
        return None;
    };
    assert(t@.take(n - 1) =~= t@.drop_last());
    let count: u64 = match text::parse_natural(text::trim(digits), u64::MAX) {
        Some(c) => c,
        None => return None,
    };
    assert(digits@ == delay_digits(t@));
    let secs: u64 = match count.checked_mul(unit) {
        Some(s) => s,
        None => return None,
    };
    if secs > MAX_ALARM_DELAY_SECS {
        return None;
    }
    Some(secs)
}

// ---------------------------------------------------------------------------
// Tags

/// The value of the first well-formed `delay="…"` at or after `from`. The name
/// must stand at the start or after white space.
pub open spec fn delay_attr(attrs: Seq<char>, from: int) -> Option<Seq<char>>
    decreases attrs.len() - from,
    via delay_attr_decreases
{
    if from < 0 {
        None
    } else {
        match text::first_from(attrs, "delay"@, from) {
            None => None,
            Some(at) => {
                let next = at + "delay"@.len();
                let after = text::trimmed_start(attrs.skip(next));
                if at > 0 && !text::is_ascii_white_space(attrs[at - 1]) {
                    delay_attr(attrs, next)
                } else {
                    match text::without_prefix(after, "="@) {
                        None => delay_attr(attrs, next),
                        Some(value) => match text::without_prefix(
                            text::trimmed_start(value),
                            "\""@,
                        ) {
                            None => delay_attr(attrs, next),
                            Some(rest) => match text::first_at(rest, "\""@) {
                                None => None,
                                Some(end) => Some(rest.take(end)),
                            },
                        },
                    }
                }
            },
        }
    }
}

#[via_fn]
proof fn delay_attr_decreases(attrs: Seq<char>, from: int) {
    reveal_strlit("delay");
    if from >= 0 {
        text::first_from_is_first(attrs, "delay"@, from);
    }
}

/// Extracts the double-quoted value of the `delay` attribute.
pub fn extract_delay_attr(attrs: &str) -> (r: Option<String>)
    ensures
        text::opt_view(r) == delay_attr(attrs@, 0),
{
    let v = text::chars_of(attrs);
    let key = text::chars_of("delay");
    proof {
        reveal_strlit("delay");
    }
    let mut from: usize = 0;
    loop
        invariant
            v@ == attrs@,
            key@ == "delay"@,
            key@.len() == 5,
            from <= v@.len(),
            delay_attr(attrs@, 0) == delay_attr(attrs@, from as int),
        decreases v@.len() - from,
    {
        let at: usize = match text::position(&v, &key, from) {
            Some(i) => i,
            None => return None,
        };
        let next: usize = at + 5;
        let mut found: Option<&str> = None;
        if at == 0 || text::ascii_white_space(v[at - 1]) {
            let after = text::trim_start(text::tail(attrs, next));
            if let Some(value) = text::strip_prefix(after, "=") {
                found = text::strip_prefix(text::trim_start(value), "\"");
            }
        }
        match found {
            None => {
                from = next;
            },
            Some(rest) => {
                return match text::find(rest, "\"") {
                    Some(end) => Some(text::head(rest, end).to_owned()),
                    None => None,
                };
            },
        }
    }
}

/// The alarm that a tag with these attributes and this body asks for.
pub open spec fn tag_alarm(attrs: Seq<char>, body: Seq<char>) -> Option<AlarmView> {
    match delay_attr(attrs, 0) {
        None => None,
        Some(d) => match delay_of(d) {
            None => None,
            Some(secs) => Some(
                AlarmView { delay: secs as u64, wake_message: text::trimmed(body) },
            ),
        },
    }
}

/// What each closed `<alarm>` tag of a text asks for, in order: nothing where
/// its delay is missing or invalid. A tag that is not closed is passed over.
pub open spec fn tags_in(s: Seq<char>) -> Seq<Option<AlarmView>>
    decreases s.len(),
    via tags_in_decreases
{
    match text::first_at(s, "<alarm"@) {
        None => Seq::empty(),
        Some(i) => {
            let after = s.skip(i + "<alarm"@.len());
            if after.len() == 0 || !(text::is_ascii_white_space(after[0]) || after[0] == '>') {
                tags_in(after)
            } else {
                match text::first_at(after, ">"@) {
                    None => Seq::empty(),
                    Some(k) => {
                        let inner = after.skip(k + 1);
                        match text::first_at(inner, "</alarm>"@) {
                            None => tags_in(inner),
                            Some(c) => seq![tag_alarm(after.take(k), inner.take(c))] + tags_in(
                                inner.skip(c + "</alarm>"@.len()),
                            ),
                        }
                    },
                }
            }
        },
    }
}

#[via_fn]
proof fn tags_in_decreases(s: Seq<char>) {
    tag_parts_are_shorter(s);
}

/// What follows an opening tag, its end and its closing tag is shorter each
/// time.
proof fn tag_parts_are_shorter(s: Seq<char>)
    ensures
        text::first_at(s, "<alarm"@) matches Some(i) ==> {
            let after = s.skip(i + "<alarm"@.len());
            &&& after.len() < s.len()
            &&& text::first_at(after, ">"@) matches Some(k) ==> {
                let inner = after.skip(k + 1);
                &&& inner.len() < s.len()
                &&& text::first_at(inner, "</alarm>"@) matches Some(c) ==> inner.skip(
                    c + "</alarm>"@.len(),
                ).len() < s.len()
            }
        },
{
    reveal_strlit("<alarm");
    reveal_strlit(">");
    reveal_strlit("</alarm>");
    text::first_from_is_first(s, "<alarm"@, 0);
    if let Some(i) = text::first_at(s, "<alarm"@) {
        let after = s.skip(i + "<alarm"@.len());
        text::first_from_is_first(after, ">"@, 0);
        if let Some(k) = text::first_at(after, ">"@) {
            text::first_from_is_first(after.skip(k + 1), "</alarm>"@, 0);
        }
    }
}

/// The alarms among what the tags ask for.
pub open spec fn asked_for(tags: Seq<Option<AlarmView>>) -> Seq<AlarmView>
    decreases tags.len(),
{
    if tags.len() == 0 {
        Seq::empty()
    } else {
        match tags.last() {
            Some(a) => asked_for(tags.drop_last()).push(a),
            None => asked_for(tags.drop_last()),
        }
    }
}

/// The alarms that a text asks for, in order. A tag without a valid delay, and
/// one that is not closed, asks for nothing.
pub open spec fn alarms_in(s: Seq<char>) -> Seq<AlarmView> {
    asked_for(tags_in(s))
}

pub open spec fn alarm_views(alarms: Seq<ParsedAlarm>) -> Seq<AlarmView> {
    alarms.map_values(|a: ParsedAlarm| a@)
}

fn read_tag(attrs: &str, body: &str) -> (r: Option<ParsedAlarm>)
    ensures
        match r {
            Some(a) => tag_alarm(attrs@, body@) == Some(a@),
            None => tag_alarm(attrs@, body@) is None,
        },
{
    match extract_delay_attr(attrs) {
        None => None,
        Some(d) => match parse_alarm_delay(d.as_str()) {
            None => None,
            Some(delay) => Some(ParsedAlarm { delay, wake_message: text::trim(body).to_owned() }),
        },
    }
}

pub open spec fn tag_views(tags: Seq<Option<ParsedAlarm>>) -> Seq<Option<AlarmView>> {
    tags.map_values(
        |tag: Option<ParsedAlarm>|
            match tag {
                Some(a) => Some(a@),
                None => None,
            },
    )
}

/// Reads the closed `<alarm delay="…">wake message</alarm>` tags of a turn's
/// final text, in order; one whose delay is missing or invalid gives `None`.
pub fn scan_alarm_tags(text: &str) -> (r: Vec<Option<ParsedAlarm>>)
    ensures
        tag_views(r@) == tags_in(text@),
{
    let mut out: Vec<Option<ParsedAlarm>> = Vec::new();
    let mut rest: &str = text;
    proof {
        reveal_strlit("<alarm");
        reveal_strlit("</alarm>");
        reveal_strlit(">");
    }
    assert(tag_views(out@) + tags_in(rest@) =~= tags_in(text@));
    loop
        invariant
            "<alarm"@.len() == 6,
            "</alarm>"@.len() == 8,
            ">"@.len() == 1,
            tag_views(out@) + tags_in(rest@) == tags_in(text@),
        decreases rest@.len(),
    {
        let open_at: usize = match text::find(rest, "<alarm") {
            Some(i) => i,
            None => {
                assert(tag_views(out@) =~= tags_in(text@));
                return out;
            },
        };
        let after = text::tail(rest, open_at + 6);
        let starts = text::chars_of(after);
        if starts.len() == 0 || !(text::ascii_white_space(starts[0]) || starts[0] == '>') {
            rest = after;
            continue;
        }
        let k: usize = match text::find(after, ">") {
            Some(i) => i,
            None => {
                assert(tag_views(out@) =~= tags_in(text@));
                return out;
            },
        };
        let attrs = text::head(after, k);
        let inner = text::tail(after, k + 1);
        let c: usize = match text::find(inner, "</alarm>") {
            Some(i) => i,
            None => {
                rest = inner;
                continue;
            },
        };
        let next = text::tail(inner, c + 8);
        let ghost before = tag_views(out@);
        let ghost tag = tag_alarm(attrs@, inner@.take(c as int));
        out.push(read_tag(attrs, text::head(inner, c)));
        assert(tag_views(out@) =~= before.push(tag));
        assert(tag_views(out@) + tags_in(next@) =~= before + tags_in(rest@));
        rest = next;
    }
}

/// Reads the alarms that a turn's final text asks for, in order.
pub fn parse_alarm_tags(text: &str) -> (r: Vec<ParsedAlarm>)
    ensures
        alarm_views(r@) == alarms_in(text@),
{
    let tags = scan_alarm_tags(text);
    let ghost all = tags@;
    let mut out: Vec<ParsedAlarm> = Vec::new();
    assert(tag_views(all).take(0) =~= Seq::empty());
    assert(alarm_views(out@) =~= Seq::empty());
    for tag in it: tags
        invariant
            it.seq() == all,
            alarm_views(out@) == asked_for(tag_views(all).take(it.index())),
    {
        let ghost k = it.index();
        let ghost before = alarm_views(out@);
        assert(tag_views(all).take(k + 1).drop_last() =~= tag_views(all).take(k));
        assert(tag_views(all).take(k + 1).last() == tag_views(all)[k]);
        if let Some(a) = tag {
            out.push(a);
            assert(alarm_views(out@) =~= before.push(a@));
        }
    }
    assert(tag_views(all).take(all.len() as int) =~= tag_views(all));
    out
}

proof fn tag_delays_are_bounded(s: Seq<char>)
    ensures
        forall|i: int|
            0 <= i < tags_in(s).len() ==> (#[trigger] tags_in(s)[i] matches Some(a) ==> a.delay
                <= MAX_ALARM_DELAY_SECS),
    decreases s.len(),
{
    tag_parts_are_shorter(s);
    if let Some(i) = text::first_at(s, "<alarm"@) {
        let after = s.skip(i + "<alarm"@.len());
        if after.len() == 0 || !(text::is_ascii_white_space(after[0]) || after[0] == '>') {
            tag_delays_are_bounded(after);
        } else if let Some(k) = text::first_at(after, ">"@) {
            let inner = after.skip(k + 1);
            match text::first_at(inner, "</alarm>"@) {
                None => {
                    tag_delays_are_bounded(inner);
                },
                Some(c) => {
                    let next = inner.skip(c + "</alarm>"@.len());
                    tag_delays_are_bounded(next);
                    assert forall|j: int| 0 <= j < tags_in(s).len() implies (
                    #[trigger] tags_in(s)[j] matches Some(a) ==> a.delay
                        <= MAX_ALARM_DELAY_SECS) by {
                        if j > 0 {
                            assert(tags_in(s)[j] == tags_in(next)[j - 1]);
                        }
                    }
                },
            }
        }
    }
}

proof fn asked_for_is_tagged(tags: Seq<Option<AlarmView>>, i: int)
    requires
        0 <= i < asked_for(tags).len(),
    ensures
        exists|k: int| 0 <= k < tags.len() && #[trigger] tags[k] == Some(asked_for(tags)[i]),
    decreases tags.len(),
{
    if tags.len() > 0 {
        let init = tags.drop_last();
        if i < asked_for(init).len() {
            asked_for_is_tagged(init, i);
            let k = choose|k: int| 0 <= k < init.len() && #[trigger] init[k] == Some(
                asked_for(init)[i],
            );
            assert(tags[k] == Some(asked_for(tags)[i]));
        } else {
            assert(tags[tags.len() - 1] == Some(asked_for(tags)[i]));
        }
    }
}

/// No accepted delay is longer than a day.
pub proof fn delays_are_bounded(s: Seq<char>)
    ensures
        forall|i: int|
            0 <= i < alarms_in(s).len() ==> (#[trigger] alarms_in(s)[i]).delay
                <= MAX_ALARM_DELAY_SECS,
{
    tag_delays_are_bounded(s);
    assert forall|i: int| 0 <= i < alarms_in(s).len() implies (#[trigger] alarms_in(s)[i]).delay
        <= MAX_ALARM_DELAY_SECS by {
        asked_for_is_tagged(tags_in(s), i);
    }
}

// ---------------------------------------------------------------------------
// The scheduler

/// A pending alarm: its thread, and when it is due on the host's monotonic
/// clock, in milliseconds.
#[derive(Debug, Clone, PartialEq, Eq)]
pub struct PendingAlarm {
    pub thread_id: String,
    pub fire_at: u64,
}

#[verifier::ext_equal]
pub ghost struct PendingView {
    pub thread_id: Seq<char>,
    pub fire_at: u64,
}

pub open spec fn pending_views(alarms: Seq<PendingAlarm>) -> Seq<PendingView> {
    alarms.map_values(|a: PendingAlarm| PendingView { thread_id: a.thread_id@, fire_at: a.fire_at })
}

/// The threads whose alarm is due and that are not active, in order.
pub open spec fn firing(
    alarms: Seq<PendingView>,
    now: u64,
    active: Seq<Seq<char>>,
) -> Seq<Seq<char>>
    decreases alarms.len(),
{
    if alarms.len() == 0 {
        Seq::empty()
    } else {
        let before = firing(alarms.drop_last(), now, active);
        let a = alarms.last();
        if a.fire_at <= now && !active.contains(a.thread_id) {
            before.push(a.thread_id)
        } else {
            before
        }
    }
}

fn lists_thread(ids: &Vec<String>, id: &str) -> (r: bool)
    ensures
        r == text::views(ids@).contains(id@),
{
    let ghost all = text::views(ids@);
    let mut i: usize = 0;
    while i < ids.len()
        invariant
            i <= ids@.len(),
            all == text::views(ids@),
            forall|j: int| 0 <= j < i ==> all[j] != id@,
        decreases ids@.len() - i,
    {
        assert(all[i as int] == ids@[i as int]@);
        if text::same(ids[i].as_str(), id) {
            return true;
        }
        i += 1;
    }
    false
}

/// Of the alarms, the threads that are due and not active. One that is due but
/// active waits for a later tick: firing into a turn would abort it.
pub fn alarms_to_fire(alarms: &Vec<PendingAlarm>, now: u64, active: &Vec<String>) -> (r: Vec<
    String,
>)
    ensures
        text::views(r@) == firing(pending_views(alarms@), now, text::views(active@)),
{
    let ghost all = pending_views(alarms@);
    let mut out: Vec<String> = Vec::new();
    let mut i: usize = 0;
    assert(all.take(0) =~= Seq::empty());
    assert(text::views(out@) =~= Seq::empty());
    while i < alarms.len()
        invariant
            i <= alarms@.len(),
            all == pending_views(alarms@),
            text::views(out@) == firing(all.take(i as int), now, text::views(active@)),
        decreases alarms@.len() - i,
    {
        assert(all.take(i + 1).drop_last() =~= all.take(i as int));
        let a = &alarms[i];
        assert(all[i as int].thread_id == a.thread_id@);
        if a.fire_at <= now && !lists_thread(active, a.thread_id.as_str()) {
            let ghost before = text::views(out@);
            let id = a.thread_id.clone();
            out.push(id);
            assert(text::views(out@) =~= before.push(id@));
        }
        i += 1;
    }
    assert(all.take(i as int) =~= all);
    out
}

/// Whether a thread can be woken.
#[derive(Debug, Clone, Copy, PartialEq, Eq, Structural)]
pub enum ThreadProbe {
    Idle,
    Active,
    /// The thread, or its workspace, is gone.
    Orphaned,
}

/// What the host knows of a thread.
#[derive(Debug, Clone, Copy, PartialEq, Eq, Structural)]
pub struct ThreadSighting {
    /// The workspace has a live session.
    pub has_session: bool,
    /// The session still maps the thread to a workspace.
    pub is_mapped: bool,
    /// A turn is running in the thread.
    pub in_turn: bool,
}

/// What a sighting says of a thread.
pub open spec fn probe_of(s: ThreadSighting) -> ThreadProbe {
    if !s.has_session || !s.is_mapped {
        ThreadProbe::Orphaned
    } else if s.in_turn {
        ThreadProbe::Active
    } else {
        ThreadProbe::Idle
    }
}

/// Decides what a sighting says of a thread.
pub fn probe_thread(s: ThreadSighting) -> (r: ThreadProbe)
    ensures
        r == probe_of(s),
{
    if !s.has_session || !s.is_mapped {
        ThreadProbe::Orphaned
    } else if s.in_turn {
        ThreadProbe::Active
    } else {
        ThreadProbe::Idle
    }
}

/// What a tick does.
#[derive(Debug)]
pub struct TickPlan {
    /// Alarms to drop, as their threads are gone.
    pub orphaned: Vec<String>,
    /// Alarms to take out and fire, in order.
    pub fire: Vec<String>,
}

/// The due threads with this probe, in order.
pub open spec fn due_with(
    alarms: Seq<PendingView>,
    now: u64,
    probes: Seq<ThreadProbe>,
    wanted: ThreadProbe,
) -> Seq<Seq<char>>
    decreases alarms.len(),
{
    if alarms.len() == 0 {
        Seq::empty()
    } else {
        let before = due_with(alarms.drop_last(), now, probes, wanted);
        let a = alarms.last();
        if a.fire_at <= now && probes[alarms.len() - 1] == wanted {
            before.push(a.thread_id)
        } else {
            before
        }
    }
}

/// The alarms whose thread is not among `gone`.
pub open spec fn remaining(alarms: Seq<PendingView>, gone: Seq<Seq<char>>) -> Seq<PendingView>
    decreases alarms.len(),
{
    if alarms.len() == 0 {
        Seq::empty()
    } else {
        let before = remaining(alarms.drop_last(), gone);
        if gone.contains(alarms.last().thread_id) {
            before
        } else {
            before.push(alarms.last())
        }
    }
}

/// What a tick fires: of the alarms whose thread is not gone, those that are
/// due and not active.
pub open spec fn tick_fires(
    alarms: Seq<PendingView>,
    now: u64,
    probes: Seq<ThreadProbe>,
) -> Seq<Seq<char>> {
    firing(
        remaining(alarms, due_with(alarms, now, probes, ThreadProbe::Orphaned)),
        now,
        due_with(alarms, now, probes, ThreadProbe::Active),
    )
}

fn collect_due(
    alarms: &Vec<PendingAlarm>,
    now: u64,
    probes: &Vec<ThreadProbe>,
    wanted: ThreadProbe,
) -> (r: Vec<String>)
    requires
        alarms@.len() == probes@.len(),
    ensures
        text::views(r@) == due_with(pending_views(alarms@), now, probes@, wanted),
{
    let ghost all = pending_views(alarms@);
    let mut out: Vec<String> = Vec::new();
    let mut i: usize = 0;
    assert(all.take(0) =~= Seq::empty());
    assert(text::views(out@) =~= Seq::empty());
    while i < alarms.len()
        invariant
            alarms@.len() == probes@.len(),
            i <= alarms@.len(),
            all == pending_views(alarms@),
            text::views(out@) == due_with(all.take(i as int), now, probes@, wanted),
        decreases alarms@.len() - i,
    {
        assert(all.take(i + 1).drop_last() =~= all.take(i as int));
        assert(all[i as int].thread_id == alarms@[i as int].thread_id@);
        if alarms[i].fire_at <= now && probes[i] == wanted {
            let ghost before = text::views(out@);
            let id = alarms[i].thread_id.clone();
            out.push(id);
            assert(text::views(out@) =~= before.push(id@));
        }
        i += 1;
    }
    assert(all.take(i as int) =~= all);
    out
}

/// Plans a tick. `probes` holds what each alarm's thread was found to be; of an
/// alarm that is not due it is not looked at.
pub fn plan_tick(alarms: &Vec<PendingAlarm>, now: u64, probes: &Vec<ThreadProbe>) -> (r: TickPlan)
    requires
        alarms@.len() == probes@.len(),
    ensures
        text::views(r.orphaned@) == due_with(
            pending_views(alarms@),
            now,
            probes@,
            ThreadProbe::Orphaned,
        ),
        text::views(r.fire@) == tick_fires(pending_views(alarms@), now, probes@),
{
    let orphaned = collect_due(alarms, now, probes, ThreadProbe::Orphaned);
    let active = collect_due(alarms, now, probes, ThreadProbe::Active);
    let ghost all = pending_views(alarms@);
    let ghost gone = text::views(orphaned@);
    let mut left: Vec<PendingAlarm> = Vec::new();
    let mut i: usize = 0;
    assert(all.take(0) =~= Seq::empty());
    assert(pending_views(left@) =~= Seq::empty());
    while i < alarms.len()
        invariant
            i <= alarms@.len(),
            all == pending_views(alarms@),
            gone == text::views(orphaned@),
            pending_views(left@) == remaining(all.take(i as int), gone),
        decreases alarms@.len() - i,
    {
        assert(all.take(i + 1).drop_last() =~= all.take(i as int));
        assert(all[i as int].thread_id == alarms@[i as int].thread_id@);
        if !lists_thread(&orphaned, alarms[i].thread_id.as_str()) {
            let ghost before = pending_views(left@);
            left.push(
                PendingAlarm {
                    thread_id: alarms[i].thread_id.clone(),
                    fire_at: alarms[i].fire_at,
                },
            );
            assert(pending_views(left@) =~= before.push(all[i as int]));
        }
        i += 1;
    }
    assert(all.take(i as int) =~= all);
    let fire = alarms_to_fire(&left, now, &active);
    TickPlan { orphaned, fire }
}

/// The message that wakes a thread: a notice on a line of its own, then what was asked for.
pub open spec fn waking(message: Seq<char>) -> Seq<char> {
    "（你设定的闹钟触发）\n"@ + message
}

/// A thread is woken with the whole message, on the line after the notice.
pub proof fn threads_are_woken_with_the_whole_message(message: Seq<char>)
    ensures
        text::ends(waking(message), message),
        text::begins(waking(message), "（你设定的闹钟触发）\n"@),
        waking(message).len() == "（你设定的闹钟触发）\n"@.len() + message.len(),
{
    text::parts_stand_in_the_whole("（你设定的闹钟触发）\n"@, message, Seq::empty());
    text::parts_stand_in_the_whole(Seq::empty(), "（你设定的闹钟触发）\n"@, message);
}

/// The message that wakes a thread.
pub fn wake_message(message: &str) -> (r: String)
    ensures
        r@ == waking(message@),
        r@ == "（你设定的闹钟触发）\n"@ + message@,
{
    "（你设定的闹钟触发）\n".to_owned().concat(message)
}

proof fn firing_is_due_and_idle(
    alarms: Seq<PendingView>,
    now: u64,
    active: Seq<Seq<char>>,
    id: Seq<char>,
)
    requires
        firing(alarms, now, active).contains(id),
    ensures
        !active.contains(id),
        exists|k: int|
            0 <= k < alarms.len() && (#[trigger] alarms[k]).thread_id == id && alarms[k].fire_at
                <= now,
    decreases alarms.len(),
{
    if alarms.len() > 0 {
        let before = firing(alarms.drop_last(), now, active);
        let a = alarms.last();
        if before.contains(id) {
            firing_is_due_and_idle(alarms.drop_last(), now, active, id);
            let k = choose|k: int|
                0 <= k < alarms.drop_last().len() && (
                #[trigger] alarms.drop_last()[k]).thread_id == id && alarms.drop_last()[k].fire_at
                    <= now;
            assert(alarms[k] == alarms.drop_last()[k]);
        } else {
            let all = firing(alarms, now, active);
            let j = choose|j: int| 0 <= j < all.len() && all[j] == id;
            assert(j == before.len()) by {
                if j < before.len() {
                    assert(before[j] == id);
                }
            }
            assert(alarms[alarms.len() - 1] == a);
        }
    }
}

proof fn remaining_is_from(alarms: Seq<PendingView>, gone: Seq<Seq<char>>, k: int)
    requires
        0 <= k < remaining(alarms, gone).len(),
    ensures
        !gone.contains(remaining(alarms, gone)[k].thread_id),
        alarms.contains(remaining(alarms, gone)[k]),
    decreases alarms.len(),
{
    let before = remaining(alarms.drop_last(), gone);
    if k < before.len() {
        remaining_is_from(alarms.drop_last(), gone, k);
        let j = choose|j: int| 0 <= j < alarms.drop_last().len() && alarms.drop_last()[j]
            == before[k];
        assert(alarms[j] == before[k]);
    } else {
        assert(alarms[alarms.len() - 1] == alarms.last());
    }
}

/// A tick fires only what is due, never into an active thread, and never what
/// it drops as orphaned.
pub proof fn tick_fires_only_due_idle_threads(
    alarms: Seq<PendingView>,
    now: u64,
    probes: Seq<ThreadProbe>,
    id: Seq<char>,
)
    requires
        tick_fires(alarms, now, probes).contains(id),
    ensures
        exists|k: int|
            0 <= k < alarms.len() && (#[trigger] alarms[k]).thread_id == id && alarms[k].fire_at
                <= now,
        !due_with(alarms, now, probes, ThreadProbe::Active).contains(id),
        !due_with(alarms, now, probes, ThreadProbe::Orphaned).contains(id),
{
    let gone = due_with(alarms, now, probes, ThreadProbe::Orphaned);
    let left = remaining(alarms, gone);
    firing_is_due_and_idle(left, now, due_with(alarms, now, probes, ThreadProbe::Active), id);
    let k = choose|k: int|
        0 <= k < left.len() && (#[trigger] left[k]).thread_id == id && left[k].fire_at <= now;
    remaining_is_from(alarms, gone, k);
    let j = choose|j: int| 0 <= j < alarms.len() && alarms[j] == left[k];
    assert(alarms[j].thread_id == id);
}

/// No two alarms are of one thread.
pub open spec fn one_per_thread(alarms: Seq<PendingView>) -> bool {
    forall|i: int, j: int|
        0 <= i < j < alarms.len() ==> (#[trigger] alarms[i]).thread_id != (
        #[trigger] alarms[j]).thread_id
}

proof fn due_with_is_from(
    alarms: Seq<PendingView>,
    now: u64,
    probes: Seq<ThreadProbe>,
    wanted: ThreadProbe,
    id: Seq<char>,
)
    ensures
        due_with(alarms, now, probes, wanted).contains(id) <==> exists|k: int|
            0 <= k < alarms.len() && (#[trigger] alarms[k]).thread_id == id && alarms[k].fire_at
                <= now && probes[k] == wanted,
    decreases alarms.len(),
{
    if alarms.len() > 0 {
        let rest = alarms.drop_last();
        let before = due_with(rest, now, probes, wanted);
        let all = due_with(alarms, now, probes, wanted);
        let last = alarms.len() - 1;
        due_with_is_from(rest, now, probes, wanted, id);
        if before.contains(id) {
            let k = choose|k: int|
                0 <= k < rest.len() && (#[trigger] rest[k]).thread_id == id && rest[k].fire_at
                    <= now && probes[k] == wanted;
            assert(alarms[k].thread_id == id);
            let j = choose|j: int| 0 <= j < before.len() && before[j] == id;
            assert(all[j] == id);
        } else if alarms[last].thread_id == id && alarms[last].fire_at <= now && probes[last]
            == wanted {
            assert(all[before.len() as int] == id);
        } else {
            if all.contains(id) {
                let j = choose|j: int| 0 <= j < all.len() && all[j] == id;
                if j < before.len() {
                    assert(before[j] == id);
                }
            }
            assert forall|k: int|
                0 <= k < alarms.len() && (#[trigger] alarms[k]).thread_id == id
                    && alarms[k].fire_at <= now && probes[k] == wanted implies false by {
                assert(k < last);
                assert(rest[k].thread_id == id);
            }
        }
    }
}

proof fn remaining_keeps(alarms: Seq<PendingView>, gone: Seq<Seq<char>>, k: int)
    requires
        0 <= k < alarms.len(),
        !gone.contains(alarms[k].thread_id),
    ensures
        remaining(alarms, gone).contains(alarms[k]),
    decreases alarms.len(),
{
    let before = remaining(alarms.drop_last(), gone);
    let all = remaining(alarms, gone);
    if k < alarms.len() - 1 {
        remaining_keeps(alarms.drop_last(), gone, k);
        let j = choose|j: int| 0 <= j < before.len() && before[j] == alarms[k];
        assert(all[j] == alarms[k]);
    } else {
        assert(all[before.len() as int] == alarms[k]);
    }
}

proof fn due_and_idle_fires(
    alarms: Seq<PendingView>,
    now: u64,
    active: Seq<Seq<char>>,
    k: int,
)
    requires
        0 <= k < alarms.len(),
        alarms[k].fire_at <= now,
        !active.contains(alarms[k].thread_id),
    ensures
        firing(alarms, now, active).contains(alarms[k].thread_id),
    decreases alarms.len(),
{
    let before = firing(alarms.drop_last(), now, active);
    let all = firing(alarms, now, active);
    if k < alarms.len() - 1 {
        due_and_idle_fires(alarms.drop_last(), now, active, k);
        let j = choose|j: int| 0 <= j < before.len() && before[j] == alarms[k].thread_id;
        assert(all[j] == alarms[k].thread_id);
    } else {
        assert(all[before.len() as int] == alarms[k].thread_id);
    }
}

/// A tick settles each alarm by its due time and its thread: one that is due
/// fires where its thread is idle and is dropped where its thread is gone; one
/// that is not due, or whose thread is active, stays for a later tick.
pub proof fn tick_settles_each_alarm(
    alarms: Seq<PendingView>,
    now: u64,
    probes: Seq<ThreadProbe>,
    k: int,
)
    requires
        one_per_thread(alarms),
        probes.len() == alarms.len(),
        0 <= k < alarms.len(),
    ensures
        tick_fires(alarms, now, probes).contains(alarms[k].thread_id) <==> alarms[k].fire_at <= now
            && probes[k] == ThreadProbe::Idle,
        due_with(alarms, now, probes, ThreadProbe::Orphaned).contains(alarms[k].thread_id)
            <==> alarms[k].fire_at <= now && probes[k] == ThreadProbe::Orphaned,
{
    let id = alarms[k].thread_id;
    let gone = due_with(alarms, now, probes, ThreadProbe::Orphaned);
    let active = due_with(alarms, now, probes, ThreadProbe::Active);
    due_with_is_from(alarms, now, probes, ThreadProbe::Orphaned, id);
    due_with_is_from(alarms, now, probes, ThreadProbe::Active, id);
    assert forall|j: int| 0 <= j < alarms.len() && (#[trigger] alarms[j]).thread_id
        == id implies j == k by {
        if j < k {
            assert(alarms[j].thread_id != alarms[k].thread_id);
        } else if k < j {
            assert(alarms[k].thread_id != alarms[j].thread_id);
        }
    }
    if alarms[k].fire_at <= now && probes[k] == ThreadProbe::Idle {
        let left = remaining(alarms, gone);
        remaining_keeps(alarms, gone, k);
        let j = choose|j: int| 0 <= j < left.len() && left[j] == alarms[k];
        due_and_idle_fires(left, now, active, j);
    }
    if tick_fires(alarms, now, probes).contains(id) {
        tick_fires_only_due_idle_threads(alarms, now, probes, id);
    }
}

// ---------------------------------------------------------------------------
// Laws of what a tag says

/// A number of seconds, minutes or hours is read as that many, whatever white space
/// stands around it, up to a day; a bare number is one of seconds.
pub proof fn delays_are_read_by_their_unit(before: Seq<char>, n: nat, after: Seq<char>)
    requires
        text::is_white(before),
        text::is_white(after),
    ensures
        delay_of(before + text::decimal_text(n) + after) == (if n <= 86_400 {
            Some(n)
        } else {
            None
        }),
        delay_of(before + text::decimal_text(n).push('s') + after) == (if n <= 86_400 {
            Some(n)
        } else {
            None
        }),
        delay_of(before + text::decimal_text(n).push('m') + after) == (if n * 60 <= 86_400 {
            Some(n * 60)
        } else {
            None
        }),
        delay_of(before + text::decimal_text(n).push('h') + after) == (if n * 3600 <= 86_400 {
            Some(n * 3600)
        } else {
            None
        }),
{
    let d = text::decimal_text(n);
    text::naturals_read_back(n);
    assert(text::is_digit(d[0]));
    assert(text::is_digit(d[d.len() - 1]));
    text::trimming_drops_what_is_blank(before, d, after);
    assert(delay_digits(d) == d);
    number_with_unit(before + d + after, d, d, n, 1);
    unit_is_read(before, n, after, 's', 1);
    unit_is_read(before, n, after, 'm', 60);
    unit_is_read(before, n, after, 'h', 3600);
}

proof fn number_with_unit(raw: Seq<char>, t: Seq<char>, d: Seq<char>, n: nat, unit: nat)
    requires
        text::trimmed(raw) == t,
        t.len() > 0,
        unit_seconds(t.last()) == Some(unit),
        unit >= 1,
        delay_digits(t) == d,
        d == text::decimal_text(n),
    ensures
        delay_of(raw) == (if n * unit <= 86_400 {
            Some(n * unit)
        } else {
            None
        }),
{
    text::naturals_read_back(n);
    assert(text::is_digit(d[0]));
    assert(text::is_digit(d[d.len() - 1]));
    text::trimming_nothing(d);
    assert(text::natural_of(d) == Some(n));
    assert(n <= n * unit) by (nonlinear_arith)
        requires
            unit >= 1,
    ;
}

proof fn unit_is_read(before: Seq<char>, n: nat, after: Seq<char>, unit: char, seconds: nat)
    requires
        text::is_white(before),
        text::is_white(after),
        unit == 's' && seconds == 1 || unit == 'm' && seconds == 60 || unit == 'h' && seconds
            == 3600,
    ensures
        delay_of(before + text::decimal_text(n).push(unit) + after) == (if n * seconds <= 86_400 {
            Some(n * seconds)
        } else {
            None
        }),
{
    let d = text::decimal_text(n);
    let t = d.push(unit);
    text::naturals_read_back(n);
    assert(text::is_digit(d[0]));
    assert(t[0] == d[0]);
    assert(t.last() == unit);
    assert(!text::is_digit(unit));
    assert(t.drop_last() =~= d);
    text::trimming_drops_what_is_blank(before, t, after);
    number_with_unit(before + t + after, t, d, n, seconds);
}

/// A delay ends with a digit or with one of the three units; nothing else is read.
pub proof fn other_units_are_refused(raw: Seq<char>)
    ensures
        delay_of(raw) is Some ==> {
            let t = text::trimmed(raw);
            &&& t.len() > 0
            &&& text::is_digit(t[t.len() - 1]) || t[t.len() - 1] == 's' || t[t.len() - 1] == 'm'
                || t[t.len() - 1] == 'h'
            &&& delay_of(raw)->0 <= 86_400
        },
{
}

/// The delay of a tag is what stands between the quotes of its attribute.
proof fn attribute_is_what_is_quoted(d: Seq<char>)
    requires
        forall|i: int| 0 <= i < d.len() ==> d[i] != '"',
    ensures
        delay_attr(" delay=\""@ + d + "\""@, 0) == Some(d),
{
    reveal_strlit(" delay=\"");
    reveal_strlit("delay");
    reveal_strlit("=");
    reveal_strlit("\"");
    let attrs = " delay=\""@ + d + "\""@;
    text::first_from_is_first(attrs, "delay"@, 0);
    assert(attrs.subrange(1, 6) =~= "delay"@);
    assert(text::occurs_at(attrs, "delay"@, 1));
    assert(!text::occurs_at(attrs, "delay"@, 0)) by {
        if text::occurs_at(attrs, "delay"@, 0) {
            assert(attrs.subrange(0, 5)[0] == 'd');
        }
    }
    assert(text::first_from(attrs, "delay"@, 0) == Some(1int));
    let rest = attrs.skip(6);
    assert(rest[0] == '=');
    assert(text::trimmed_start(rest) == rest);
    assert(rest.take(1) =~= "="@);
    let value = rest.skip(1);
    assert(value[0] == '"');
    assert(text::trimmed_start(value) == value);
    assert(value.take(1) =~= "\""@);
    let quoted = value.skip(1);
    assert(quoted =~= d + "\""@ + Seq::empty());
    assert forall|j: int| 0 <= j < d.len() implies !text::occurs_at(d + "\""@, "\""@, j) by {
        if text::occurs_at(d + "\""@, "\""@, j) {
            assert((d + "\""@).subrange(j, j + 1)[0] == d[j]);
        }
    }
    text::first_behind(d, "\""@, Seq::empty());
    assert(quoted.take(d.len() as int) =~= d);
}

/// A name that only ends like the attribute's is not the attribute.
pub proof fn longer_names_are_no_delay(c: char, d: Seq<char>)
    requires
        !text::is_ascii_white_space(c),
        !text::has(d, "delay"@),
    ensures
        delay_attr(seq![c] + "delay=\""@ + d + "\""@, 0) is None,
{
    reveal_strlit("delay=\"");
    reveal_strlit("delay");
    reveal_strlit("\"");
    let attrs = seq![c] + "delay=\""@ + d + "\""@;
    text::first_from_is_first(attrs, "delay"@, 0);
    assert(attrs.subrange(1, 6) =~= "delay"@);
    assert(text::occurs_at(attrs, "delay"@, 1));
    assert(!text::occurs_at(attrs, "delay"@, 0)) by {
        if text::occurs_at(attrs, "delay"@, 0) {
            assert(attrs.subrange(0, 5)[1] == 'e');
        }
    }
    assert(text::first_from(attrs, "delay"@, 0) == Some(1int));
    assert(attrs[0] == c);
    text::first_from_is_first(attrs, "delay"@, 6);
    if let Some(j) = text::first_from(attrs, "delay"@, 6) {
        let w = attrs.subrange(j, j + 5);
        assert(w == "delay"@);
        assert(attrs[6] == '=' && attrs[7] == '"');
        assert(w[0] == attrs[j] && w[1] == attrs[j + 1] && w[4] == attrs[j + 4]);
        assert(j >= 8);
        let n = d.len() as int;
        assert(attrs[8 + n] == '"');
        if j + 4 >= 8 + n {
            assert(w[8 + n - j] == attrs[8 + n]);
        }
        assert(d.subrange(j - 8, j - 3) =~= w);
        assert(text::occurs_at(d, "delay"@, j - 8));
    }
    assert(delay_attr(attrs, 6) is None);
    assert(delay_attr(attrs, 0) == delay_attr(attrs, 6));
}

/// A tag in a text asks for what it says: an alarm after its delay, with its message
/// trimmed, or nothing where the delay is no delay. What stands before it is passed
/// over, and what follows is read by itself.
pub proof fn tags_are_read_one_by_one(
    before: Seq<char>,
    d: Seq<char>,
    message: Seq<char>,
    after: Seq<char>,
)
    requires
        forall|j: int|
            0 <= j < before.len() ==> !#[trigger] text::occurs_at(
                before + "<alarm"@,
                "<alarm"@,
                j,
            ),
        forall|i: int| 0 <= i < d.len() ==> d[i] != '"' && d[i] != '>',
        forall|j: int|
            0 <= j < message.len() ==> !#[trigger] text::occurs_at(
                message + "</alarm>"@,
                "</alarm>"@,
                j,
            ),
    ensures
        tags_in(
            before + "<alarm"@ + " delay=\""@ + d + "\""@ + ">"@ + message + "</alarm>"@ + after,
        ) == seq![
            match delay_of(d) {
                Some(secs) => Some(
                    AlarmView { delay: secs as u64, wake_message: text::trimmed(message) },
                ),
                None => None,
            },
        ] + tags_in(after),
{
    reveal_strlit("<alarm");
    reveal_strlit(" delay=\"");
    reveal_strlit("\"");
    reveal_strlit(">");
    reveal_strlit("</alarm>");
    let attrs = " delay=\""@ + d + "\""@;
    let inner = message + "</alarm>"@ + after;
    let opened = attrs + ">"@ + inner;
    let s = before + "<alarm"@ + " delay=\""@ + d + "\""@ + ">"@ + message + "</alarm>"@ + after;
    assert(s =~= before + "<alarm"@ + opened);
    text::first_behind(before, "<alarm"@, opened);
    let n = before.len() + "<alarm"@.len();
    assert(s.skip(n as int) =~= opened);
    assert(opened[0] == ' ');
    assert forall|j: int| 0 <= j < attrs.len() implies !text::occurs_at(
        attrs + ">"@,
        ">"@,
        j,
    ) by {
        if text::occurs_at(attrs + ">"@, ">"@, j) {
            assert((attrs + ">"@).subrange(j, j + 1)[0] == attrs[j]);
            if 8 <= j < 8 + d.len() {
                assert(attrs[j] == d[j - 8]);
            }
        }
    }
    text::first_behind(attrs, ">"@, inner);
    let k = attrs.len() as int;
    assert(opened.take(k) =~= attrs);
    assert(opened.skip(k + 1) =~= inner);
    text::first_behind(message, "</alarm>"@, after);
    let c = message.len() as int;
    assert(inner.take(c) =~= message);
    assert(inner.skip(c + "</alarm>"@.len()) =~= after);
    attribute_is_what_is_quoted(d);
}

/// A tag that is not closed is passed over, and what stands in it is read on; and what only
/// begins like a tag is none.
pub proof fn unclosed_tags_are_passed_over(
    before: Seq<char>,
    attrs: Seq<char>,
    inner: Seq<char>,
    c: char,
)
    requires
        forall|j: int|
            0 <= j < before.len() ==> !#[trigger] text::occurs_at(
                before + "<alarm"@,
                "<alarm"@,
                j,
            ),
        attrs.len() > 0 ==> text::is_ascii_white_space(attrs[0]),
        forall|i: int| 0 <= i < attrs.len() ==> attrs[i] != '>',
        !text::has(inner, "</alarm>"@),
        c != '>' && !text::is_ascii_white_space(c),
    ensures
        tags_in(before + "<alarm"@ + attrs + ">"@ + inner) == tags_in(inner),
        tags_in(before + "<alarm"@ + seq![c] + inner) == tags_in(seq![c] + inner),
{
    reveal_strlit("<alarm");
    reveal_strlit(">");
    let n = (before.len() + "<alarm"@.len()) as int;
    let opened = attrs + ">"@ + inner;
    let s = before + "<alarm"@ + attrs + ">"@ + inner;
    assert(s =~= before + "<alarm"@ + opened);
    text::first_behind(before, "<alarm"@, opened);
    assert(s.skip(n) =~= opened);
    assert(opened[0] == (if attrs.len() > 0 {
        attrs[0]
    } else {
        '>'
    }));
    assert forall|j: int| 0 <= j < attrs.len() implies !text::occurs_at(
        attrs + ">"@,
        ">"@,
        j,
    ) by {
        if text::occurs_at(attrs + ">"@, ">"@, j) {
            assert((attrs + ">"@).subrange(j, j + 1)[0] == attrs[j]);
        }
    }
    text::first_behind(attrs, ">"@, inner);
    let k = attrs.len() as int;
    assert(opened.skip(k + 1) =~= inner);
    text::first_from_is_first(inner, "</alarm>"@, 0);
    if let Some(k) = text::first_at(inner, "</alarm>"@) {
        assert(text::occurs_at(inner, "</alarm>"@, k));
    }
    let rest = seq![c] + inner;
    let t = before + "<alarm"@ + seq![c] + inner;
    assert(t =~= before + "<alarm"@ + rest);
    text::first_behind(before, "<alarm"@, rest);
    assert(t.skip(n) =~= rest);
    assert(rest[0] == c);
}

/// A text without a tag asks for nothing.
pub proof fn texts_without_tags_ask_for_nothing(s: Seq<char>)
    requires
        !text::has(s, "<alarm"@),
    ensures
        tags_in(s).len() == 0,
        alarms_in(s).len() == 0,
{
    text::first_from_is_first(s, "<alarm"@, 0);
    if let Some(i) = text::first_at(s, "<alarm"@) {
        assert(text::occurs_at(s, "<alarm"@, i));
    }
}

/// Of the tags, those that ask for an alarm are kept, in order.
pub proof fn valid_tags_are_kept_in_order(a: Seq<Option<AlarmView>>, b: Seq<Option<AlarmView>>)
    ensures
        asked_for(a + b) == asked_for(a) + asked_for(b),
        a.len() == 1 ==> asked_for(a) == (match a[0] {
            Some(x) => seq![x],
            None => Seq::empty(),
        }),
    decreases b.len(),
{
    if b.len() == 0 {
        assert(a + b =~= a);
    } else {
        assert((a + b).drop_last() =~= a + b.drop_last());
        valid_tags_are_kept_in_order(a, b.drop_last());
    }
    assert(asked_for(a + b) =~= asked_for(a) + asked_for(b));
    if a.len() == 1 {
        assert(a.drop_last() =~= Seq::empty());
        assert(asked_for(a.drop_last()) =~= Seq::empty());
        assert(asked_for(a) =~= (match a[0] {
            Some(x) => seq![x],
            None => Seq::empty(),
        }));
    }
}

// ---------------------------------------------------------------------------
// Laws of order

/// Due alarms fire in the order in which they stand, each once, and an alarm fires or
/// waits by itself.
pub proof fn alarms_fire_in_order(
    a: Seq<PendingView>,
    b: Seq<PendingView>,
    now: u64,
    active: Seq<Seq<char>>,
)
    ensures
        firing(a + b, now, active) == firing(a, now, active) + firing(b, now, active),
        a.len() == 1 ==> firing(a, now, active) == (if a[0].fire_at <= now && !active.contains(
            a[0].thread_id,
        ) {
            seq![a[0].thread_id]
        } else {
            Seq::empty()
        }),
    decreases b.len(),
{
    if b.len() == 0 {
        assert(a + b =~= a);
    } else {
        assert((a + b).drop_last() =~= a + b.drop_last());
        alarms_fire_in_order(a, b.drop_last(), now, active);
    }
    assert(firing(a + b, now, active) =~= firing(a, now, active) + firing(b, now, active));
    if a.len() == 1 {
        assert(a.drop_last() =~= Seq::empty());
        assert(firing(a.drop_last(), now, active) =~= Seq::empty());
        assert(firing(a, now, active) =~= (if a[0].fire_at <= now && !active.contains(
            a[0].thread_id,
        ) {
            seq![a[0].thread_id]
        } else {
            Seq::empty()
        }));
    }
}

/// Dropping threads that are gone keeps all other alarms, in order and unchanged.
pub proof fn other_alarms_remain_in_order(
    a: Seq<PendingView>,
    b: Seq<PendingView>,
    gone: Seq<Seq<char>>,
)
    ensures
        remaining(a + b, gone) == remaining(a, gone) + remaining(b, gone),
        a.len() == 1 ==> remaining(a, gone) == (if gone.contains(a[0].thread_id) {
            Seq::empty()
        } else {
            a
        }),
    decreases b.len(),
{
    if b.len() == 0 {
        assert(a + b =~= a);
    } else {
        assert((a + b).drop_last() =~= a + b.drop_last());
        other_alarms_remain_in_order(a, b.drop_last(), gone);
    }
    assert(remaining(a + b, gone) =~= remaining(a, gone) + remaining(b, gone));
    if a.len() == 1 {
        assert(a.drop_last() =~= Seq::empty());
        assert(remaining(a.drop_last(), gone) =~= Seq::empty());
        assert(remaining(a, gone) =~= (if gone.contains(a[0].thread_id) {
            Seq::empty()
        } else {
            a
        }));
    }
}

/// A thread is idle only with a session that knows it and no turn running, and it is
/// gone only where the session does not know it.
pub proof fn only_quiet_threads_are_idle(s: ThreadSighting)
    ensures
        probe_of(s) == ThreadProbe::Idle <==> s.has_session && s.is_mapped && !s.in_turn,
        probe_of(s) == ThreadProbe::Active <==> s.has_session && s.is_mapped && s.in_turn,
        probe_of(s) == ThreadProbe::Orphaned <==> !(s.has_session && s.is_mapped),
{
}

} // verus!
