use ai_memory_panel::labels::{kind_label_pt, plural_pt, timeline_kinds, PageKind};
use ai_memory_panel::overview::{origin_counts_by_day, OverviewPage, ProjectOverview};
use ai_memory_panel::tally::{count_by_day, count_each, lookup_count, DayTally, KindTally};
use ai_memory_panel::timeline::{
    attach_produced, clamp_dias, day_kind_summary, duration_label, group_by_day,
    observations_label, percent, timeline_sessions, timeline_view, window_start, ProducedPage,
    RawSessionRow, SessionEvidence, TimelineSession,
};

const DAY: i64 = 86_400_000_000;

fn raw(id: u8, started_us: i64, ended_us: Option<i64>, count: i64) -> RawSessionRow {
    RawSessionRow {
        id_bytes: vec![id; 16],
        agent: "codex".to_string(),
        started_us,
        ended_us,
        ended_observation_count: count,
    }
}

fn page(path: &str, title: &str, kind: &str) -> ProducedPage {
    ProducedPage {
        path: path.to_string(),
        title: title.to_string(),
        kind: kind.to_string(),
    }
}

fn evidence(source_id: &str, page: ProducedPage) -> SessionEvidence {
    SessionEvidence {
        source_id: source_id.to_string(),
        page,
    }
}

fn tally(kind: &str, count: usize) -> KindTally {
    KindTally {
        kind: kind.to_string(),
        count,
    }
}

fn day(date: &str, kinds: Vec<KindTally>) -> DayTally {
    DayTally {
        date: date.to_string(),
        kinds,
    }
}

fn started(id: &str, started_us: i64) -> TimelineSession {
    TimelineSession {
        id: id.to_string(),
        agent: id.to_string(),
        started_us,
        ended_us: None,
        observations: None,
        produced: Vec::new(),
    }
}

#[test]
fn timeline_lists_sessions_and_what_each_one_produced() {
    let rows = vec![raw(7, 10, Some(20), 0)];
    let sid = "07070707-0707-0707-0707-070707070707";
    let sessions = timeline_sessions(&rows).unwrap();
    let found = vec![evidence(sid, page("gotchas/x.md", "Gotcha X", "gotcha"))];
    let timeline = attach_produced(&sessions, &found);
    assert_eq!(timeline.len(), 1);
    assert_eq!(timeline[0].id, sid.to_string());
    assert_eq!(timeline[0].produced.len(), 1);
    assert_eq!(timeline[0].produced[0].path, "gotchas/x.md");
    assert_eq!(timeline[0].produced[0].kind, "gotcha");
    assert_eq!(timeline[0].observations, Some(0));
}

#[test]
fn open_session_reports_no_observation_count() {
    let rows = vec![raw(9, 10, None, 0)];
    let timeline = timeline_sessions(&rows).unwrap();
    assert_eq!(timeline.len(), 1);
    assert_eq!(timeline[0].id, "09090909-0909-0909-0909-090909090909");
    assert_eq!(timeline[0].ended_us, None);
    assert_eq!(
        timeline[0].observations, None,
        "an open session's observation count is not yet meaningful"
    );
}

#[test]
fn a_bad_identifier_fails_the_timeline() {
    let mut bad = raw(1, 0, None, 0);
    bad.id_bytes = vec![1; 15];
    let mut worse = raw(1, 0, None, 0);
    worse.id_bytes = Vec::new();
    let rows = vec![raw(1, 0, None, 0), bad, worse];
    assert_eq!(timeline_sessions(&rows).unwrap_err().len, 15);
    assert!(timeline_sessions(&Vec::new()).unwrap().is_empty());
}

#[test]
fn pages_go_to_the_session_that_they_cite() {
    let sessions = timeline_sessions(&vec![raw(1, 0, None, 0), raw(2, 0, Some(5), 3)]).unwrap();
    let one = sessions[0].id.clone();
    let two = sessions[1].id.clone();
    let found = vec![
        evidence(&two, page("a", "A", "rule")),
        evidence("another", page("b", "B", "rule")),
        evidence(&one, page("c", "C", "rule")),
        evidence(&two, page("d", "D", "rule")),
    ];
    let timeline = attach_produced(&sessions, &found);
    let paths = |i: usize| -> Vec<&str> {
        timeline[i].produced.iter().map(|p| p.path.as_str()).collect()
    };
    assert_eq!(paths(0), vec!["c"]);
    assert_eq!(paths(1), vec!["a", "d"]);
    assert_eq!(timeline[1].observations, Some(3));
    // Of two sessions with one identifier the first gets the pages.
    let twice = vec![started("x", 1), started("x", 2)];
    let timeline = attach_produced(&twice, &vec![evidence("x", page("p", "P", "rule"))]);
    assert_eq!(timeline[0].produced.len(), 1);
    assert!(timeline[1].produced.is_empty());
}

#[test]
fn windows_are_7_30_or_90_days() {
    assert_eq!(clamp_dias(None), 30);
    assert_eq!(clamp_dias(Some("7")), 7);
    assert_eq!(clamp_dias(Some(" 90 ")), 90);
    assert_eq!(clamp_dias(Some("+30")), 30);
    assert_eq!(clamp_dias(Some("8")), 30);
    assert_eq!(clamp_dias(Some("-7")), 30);
    assert_eq!(clamp_dias(Some("")), 30);
    assert_eq!(clamp_dias(Some("7d")), 30);
    assert_eq!(clamp_dias(Some("99999999999999999999")), 30);
    assert_eq!(window_start(100 * DAY, 90), 10 * DAY);
}

#[test]
fn durations_are_in_seconds_minutes_or_hours() {
    let s = 1_000_000i64;
    assert_eq!(duration_label(5, None), "em aberto");
    assert_eq!(duration_label(0, Some(0)), "0s");
    assert_eq!(duration_label(10 * s, Some(0)), "0s");
    assert_eq!(duration_label(0, Some(59 * s + 999_999)), "59s");
    assert_eq!(duration_label(0, Some(60 * s)), "1min");
    assert_eq!(duration_label(0, Some(3_599 * s)), "59min");
    assert_eq!(duration_label(0, Some(3_600 * s)), "1h 00min");
    assert_eq!(duration_label(0, Some(3_600 * s + 9 * 60 * s)), "1h 09min");
    assert_eq!(duration_label(0, Some(3_900 * s)), "1h 05min");
    assert_eq!(duration_label(0, Some(36_000 * s + 10 * 60 * s)), "10h 10min");
    assert_eq!(duration_label(i64::MIN, Some(i64::MAX)), "5124095576h 01min");
}

#[test]
fn observations_have_a_dash_while_open() {
    assert_eq!(observations_label(None), "—");
    assert_eq!(observations_label(Some(0)), "0");
    assert_eq!(observations_label(Some(-3)), "-3");
}

#[test]
fn labels_agree_in_number() {
    assert_eq!(plural_pt(8, "sessão", "sessões"), "8 sessões");
    assert_eq!(plural_pt(1, "sessão", "sessões"), "1 sessão");
    assert_eq!(plural_pt(0, "sessão", "sessões"), "0 sessões");
    let kinds = timeline_kinds();
    assert_eq!(kind_label_pt(&kinds, "decision", 3), "3 decisões");
    assert_eq!(kind_label_pt(&kinds, "concept", 1), "1 conceito");
    assert_eq!(kind_label_pt(&kinds, "fact", 2), "2 fact");
}

#[test]
fn a_day_says_what_it_produced() {
    let kinds = timeline_kinds();
    let counts = vec![
        day("2026-09-16", vec![tally("rule", 9)]),
        day(
            "2026-09-17",
            vec![tally("concept", 1), tally("decision", 3), tally("gotcha", 5)],
        ),
        day(
            "2026-09-18",
            vec![tally("zebra", 2), tally("rule", 0), tally("fact", 1), tally("idle", 0)],
        ),
        day("2026-09-19", Vec::new()),
        day("2026-09-17", vec![tally("rule", 1)]),
    ];
    assert_eq!(
        day_kind_summary("2026-09-17", &counts, &kinds),
        "3 decisões · 5 gotchas · 1 conceito"
    );
    assert_eq!(
        day_kind_summary("2026-09-18", &counts, &kinds),
        "1 fact · 2 zebra"
    );
    assert_eq!(day_kind_summary("2026-09-19", &counts, &kinds), "");
    assert_eq!(day_kind_summary("2026-09-20", &counts, &kinds), "");
}

#[test]
fn sessions_are_grouped_by_day_the_last_first() {
    let kinds = timeline_kinds();
    let mut long = started("c", 2 * DAY + 5);
    long.ended_us = Some(2 * DAY + 5 + 90 * 60_000_000);
    long.observations = Some(12);
    long.produced = vec![page("decisions/a b.md", "A", "decision")];
    let sessions = vec![started("a", 2 * DAY), started("b", 5), long, started("d", 2 * DAY + 9)];
    let counts = vec![day("1970-01-03", vec![tally("decision", 1)])];
    let days = group_by_day(&sessions, "ws", "p q", &counts, &kinds);
    assert_eq!(days.len(), 2);
    assert_eq!(days[0].date, "1970-01-03");
    assert_eq!(days[0].count, 3);
    assert_eq!(days[0].pct, 100);
    assert_eq!(days[0].sessions_label, "3 sessões");
    assert_eq!(days[0].kind_summary, "1 decisão");
    let agents: Vec<&str> = days[0].sessions.iter().map(|s| s.agent.as_str()).collect();
    assert_eq!(agents, vec!["a", "c", "d"]);
    assert_eq!(days[0].sessions[1].duration_label, "1h 30min");
    assert_eq!(days[0].sessions[1].observations_label, "12");
    assert_eq!(
        days[0].sessions[1].produced[0].href,
        "w/ws/p%20q/p/decisions/a%20b.md"
    );
    assert_eq!(days[0].sessions[0].duration_label, "em aberto");
    assert_eq!(days[1].date, "1970-01-01");
    assert_eq!(days[1].pct, 33);
    assert_eq!(days[1].sessions_label, "1 sessão");
    assert_eq!(days[1].kind_summary, "");
    let total: usize = days.iter().map(|d| d.count).sum();
    assert_eq!(total, sessions.len());
}

#[test]
fn sessions_without_a_date_come_last() {
    let kinds: Vec<PageKind> = Vec::new();
    let sessions = vec![started("a", i64::MAX), started("b", 0)];
    let days = group_by_day(&sessions, "w", "p", &Vec::new(), &kinds);
    assert_eq!(days[0].date, "1970-01-01");
    assert_eq!(days[1].date, "");
    assert!(group_by_day(&Vec::new(), "w", "p", &Vec::new(), &kinds).is_empty());
}

#[test]
fn days_go_back_in_time_before_year_zero_too() {
    let kinds: Vec<PageKind> = Vec::new();
    let year = 366 * DAY;
    let zero = -62_167_219_200_000_000;
    let sessions = vec![
        started("a", zero - 5 * year),
        started("b", i64::MIN),
        started("c", zero - 3 * year),
        started("d", zero + year),
        started("e", zero - 3 * year - 1),
        started("f", zero - 3 * year + 1),
    ];
    let days = group_by_day(&sessions, "w", "p", &Vec::new(), &kinds);
    let agents: Vec<Vec<&str>> = days
        .iter()
        .map(|d| d.sessions.iter().map(|s| s.agent.as_str()).collect())
        .collect();
    assert_eq!(agents, vec![vec!["d"], vec!["c", "f"], vec!["e"], vec!["a"], vec!["b"]]);
    assert_eq!(days[4].date, "");
}

#[test]
fn percentages_round_down_and_stop_at_a_hundred() {
    assert_eq!(percent(0, 7), 0);
    assert_eq!(percent(1, 3), 33);
    assert_eq!(percent(3, 3), 100);
    assert_eq!(percent(5, 3), 100);
    assert_eq!(percent(usize::MAX, usize::MAX), 100);
    assert_eq!(percent(usize::MAX / 2, usize::MAX), 49);
}

#[test]
fn tallies_count_every_item_once() {
    let texts = |v: &[&str]| -> Vec<String> { v.iter().map(|s| s.to_string()).collect() };
    let days = texts(&["2", "1", "2", "2", "1"]);
    let kinds = texts(&["b", "a", "a", "b", "a"]);
    let tallies = count_by_day(&days, &kinds);
    assert_eq!(tallies.len(), 2);
    assert_eq!(tallies[0].date, "1");
    assert_eq!(lookup_count(&tallies[0].kinds, "a"), 2);
    assert_eq!(tallies[0].kinds.len(), 1);
    assert_eq!(tallies[1].date, "2");
    assert_eq!(lookup_count(&tallies[1].kinds, "a"), 1);
    assert_eq!(lookup_count(&tallies[1].kinds, "b"), 2);
    assert_eq!(lookup_count(&tallies[1].kinds, "c"), 0);
    let total: usize = tallies.iter().flat_map(|d| &d.kinds).map(|k| k.count).sum();
    assert_eq!(total, 5);
    let each = count_each(&kinds);
    assert_eq!((each[0].kind.as_str(), each[0].count), ("a", 3));
    assert_eq!((each[1].kind.as_str(), each[1].count), ("b", 2));
}

#[test]
fn pages_count_on_the_day_of_their_origin() {
    let origin = |kind: &str, us: Option<i64>| OverviewPage {
        path: "p".to_string(),
        title: "t".to_string(),
        kind: kind.to_string(),
        summary: None,
        origin_us: us,
    };
    let overview = ProjectOverview {
        pages: vec![
            origin("decision", Some(DAY)),
            origin("gotcha", Some(DAY + 5)),
            origin("decision", None),
            origin("decision", Some(0)),
            origin("decision", Some(2 * DAY - 1)),
        ],
        sessions: Vec::new(),
        first_session_us: None,
        last_session_us: None,
    };
    let counts = origin_counts_by_day(&overview);
    assert_eq!(counts.len(), 2);
    assert_eq!(counts[0].date, "1970-01-01");
    assert_eq!(counts[1].date, "1970-01-02");
    assert_eq!(lookup_count(&counts[1].kinds, "decision"), 2);
    assert_eq!(
        day_kind_summary("1970-01-02", &counts, &timeline_kinds()),
        "2 decisões · 1 gotcha"
    );
}

#[test]
fn the_view_of_a_timeline_has_its_tab() {
    let view = timeline_view("w", "p", 7, &vec![started("a", 0)], &Vec::new(), &timeline_kinds());
    assert_eq!(view.base_href, "w/w/p");
    assert_eq!(view.aba, "linha");
    assert_eq!(view.dias, 7);
    assert_eq!(view.days.len(), 1);
    assert_eq!(view.workspace, "w");
    assert_eq!(view.project, "p");
}
