use opencrab::alarm::alarms_to_fire;
use opencrab::alarm::extract_delay_attr;
use opencrab::alarm::parse_alarm_delay;
use opencrab::alarm::parse_alarm_tags;
use opencrab::alarm::plan_tick;
use opencrab::alarm::probe_thread;
use opencrab::alarm::scan_alarm_tags;
use opencrab::alarm::wake_message;
use opencrab::alarm::ParsedAlarm;
use opencrab::alarm::PendingAlarm;
use opencrab::alarm::ThreadProbe;
use opencrab::alarm::ThreadSighting;
use opencrab::alarm::MAX_ALARM_DELAY_SECS;
use std::collections::HashMap;
use std::time::Duration;

fn delay(raw: &str) -> Option<Duration> {
    parse_alarm_delay(raw).map(Duration::from_secs)
}

fn pending(thread_id: &str, fire_at: u64) -> PendingAlarm {
    PendingAlarm {
        thread_id: thread_id.to_string(),
        fire_at,
    }
}

#[test]
fn parse_delay_suffixes_and_bare_seconds() {
    assert_eq!(delay("30s"), Some(Duration::from_secs(30)));
    assert_eq!(delay("10m"), Some(Duration::from_secs(600)));
    assert_eq!(delay("2h"), Some(Duration::from_secs(7200)));
    assert_eq!(delay("90"), Some(Duration::from_secs(90)));
    assert_eq!(delay("  5m "), Some(Duration::from_secs(300)));
}

#[test]
fn parse_delay_zero_is_valid() {
    assert_eq!(delay("0"), Some(Duration::from_secs(0)));
    assert_eq!(delay("0s"), Some(Duration::from_secs(0)));
}

#[test]
fn parse_delay_rejects_negative_garbage_and_over_cap() {
    assert_eq!(delay("-5"), None);
    assert_eq!(delay("abc"), None);
    assert_eq!(delay("1d"), None); // no day unit
    assert_eq!(delay(""), None);
    assert_eq!(delay("m"), None); // no number
    assert_eq!(delay("25h"), None); // over the 24h cap
    assert_eq!(delay("100000"), None); // > 24h in bare seconds
}

#[test]
fn parse_delay_at_the_cap() {
    assert_eq!(parse_alarm_delay("24h"), Some(MAX_ALARM_DELAY_SECS));
    assert_eq!(parse_alarm_delay("86400"), Some(86_400));
    assert_eq!(parse_alarm_delay("86401s"), None);
    assert_eq!(parse_alarm_delay("1440 m"), Some(86_400));
    assert_eq!(parse_alarm_delay("+7s"), Some(7));
    assert_eq!(parse_alarm_delay("99999999999999999999"), None);
    assert_eq!(parse_alarm_delay("18446744073709551615h"), None);
}

#[test]
fn parse_tags_extracts_delay_and_message() {
    let alarms = parse_alarm_tags("blah <alarm delay=\"10m\">resume the build</alarm> done");
    assert_eq!(
        alarms,
        vec![ParsedAlarm {
            delay: 600,
            wake_message: "resume the build".to_string(),
        }]
    );
}

#[test]
fn parse_tags_skips_invalid_delay_keeps_valid() {
    let alarms =
        parse_alarm_tags("<alarm delay=\"-1\">bad</alarm><alarm delay=\"5s\">good</alarm>");
    assert_eq!(
        alarms,
        vec![ParsedAlarm {
            delay: 5,
            wake_message: "good".to_string(),
        }]
    );
}

#[test]
fn parse_tags_replacement_last_wins() {
    // Two alarms in one turn: both are read in order, and a registry that
    // inserts each under the same thread keeps the last.
    let alarms =
        parse_alarm_tags("<alarm delay=\"1m\">first</alarm> <alarm delay=\"2m\">second</alarm>");
    assert_eq!(alarms.len(), 2);
    let mut reg: HashMap<String, ParsedAlarm> = HashMap::new();
    for a in alarms {
        reg.insert("thread-1".to_string(), a);
    }
    assert_eq!(reg["thread-1"].wake_message, "second");
    assert_eq!(reg["thread-1"].delay, 120);
}

#[test]
fn parse_tags_needs_a_closed_tag_of_that_name() {
    assert_eq!(parse_alarm_tags("<alarm delay=\"5s\">never closed"), vec![]);
    assert_eq!(parse_alarm_tags("<alarms delay=\"5s\">x</alarm>"), vec![]);
    assert_eq!(parse_alarm_tags("no tag"), vec![]);
    let alarms = parse_alarm_tags("<alarm\n delay = \"5s\" >  padded \n</alarm>");
    assert_eq!(
        alarms,
        vec![ParsedAlarm {
            delay: 5,
            wake_message: "padded".to_string(),
        }]
    );
}

#[test]
fn delay_attr_is_a_word_of_its_own() {
    assert_eq!(
        extract_delay_attr(" delay=\"5s\"").as_deref(),
        Some("5s")
    );
    assert_eq!(extract_delay_attr(" nodelay=\"5s\""), None);
    assert_eq!(
        extract_delay_attr(" nodelay=\"1s\" delay=\"2s\"").as_deref(),
        Some("2s")
    );
    assert_eq!(extract_delay_attr(" delay='5s'"), None);
    assert_eq!(extract_delay_attr(" delay=\"5s"), None);
    assert_eq!(extract_delay_attr(""), None);
}

#[test]
fn alarms_to_fire_due_idle_selected_busy_skipped_future_left() {
    let now: u64 = 100_000;
    let past = now - 5_000;
    let future = now + 60_000;
    let alarms = vec![
        pending("idle-due", past),
        pending("busy-due", past),
        pending("idle-future", future),
    ];
    let active = vec!["busy-due".to_string()];

    let fired = alarms_to_fire(&alarms, now, &active);

    // due + idle fires; due + active is left for a later tick; not-due is left.
    assert_eq!(fired, vec!["idle-due".to_string()]);
}

#[test]
fn alarm_fires_at_its_very_moment() {
    assert_eq!(
        alarms_to_fire(&vec![pending("t", 7)], 7, &vec![]),
        vec!["t".to_string()]
    );
    assert!(alarms_to_fire(&vec![pending("t", 7)], 6, &vec![]).is_empty());
}

#[test]
fn tick_fires_idle_drops_orphaned_and_leaves_the_rest() {
    let alarms = vec![
        pending("idle", 10),
        pending("busy", 10),
        pending("gone", 10),
        pending("gone-later", 99),
    ];
    let probes = vec![
        ThreadProbe::Idle,
        ThreadProbe::Active,
        ThreadProbe::Orphaned,
        ThreadProbe::Orphaned,
    ];
    let plan = plan_tick(&alarms, 20, &probes);
    assert_eq!(plan.fire, vec!["idle".to_string()]);
    assert_eq!(plan.orphaned, vec!["gone".to_string()]);
}

#[test]
fn probe_reads_a_sighting() {
    let s = |has_session: bool, is_mapped: bool, in_turn: bool| {
        probe_thread(ThreadSighting {
            has_session,
            is_mapped,
            in_turn,
        })
    };
    assert_eq!(s(true, true, false), ThreadProbe::Idle);
    assert_eq!(s(true, true, true), ThreadProbe::Active);
    assert_eq!(s(true, false, false), ThreadProbe::Orphaned);
    assert_eq!(s(false, true, true), ThreadProbe::Orphaned);
}

#[test]
fn wake_message_names_the_alarm() {
    assert_eq!(wake_message("resume"), "（你设定的闹钟触发）\nresume");
}

#[test]
fn malformed_tags_are_told_from_alarms() {
    let text = r#"<alarm delay="5s">a</alarm> <alarm>b</alarm> <alarm delay="1m">c</alarm> <alarm delay="2s">"#;
    let tags = scan_alarm_tags(text);
    assert_eq!(tags.len(), 3);
    assert!(tags[1].is_none());
    let asked: Vec<ParsedAlarm> = tags.into_iter().flatten().collect();
    assert_eq!(asked, parse_alarm_tags(text));
    assert_eq!(asked.len(), 2);
}
