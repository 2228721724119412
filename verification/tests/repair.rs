use ai_memory_panel::clock::format_us;
use ai_memory_panel::repair::{
    applied_report, plan_repair, range_text, refuse_apply_when_busy, repair_report,
    repairs_to_write, start_ranges,
    PlannedRepair, RepairPlan, SessionRow, FUTURE_SLACK_US,
};
use ai_memory_panel::session_id::{
    read_session_id, resolve_transcript_session_id, stored_session_id,
};
use ai_memory_panel::transcripts::{
    entry_action, merge_times, scan_one_transcript, EntryAction, TranscriptIndex, TranscriptScan,
    TranscriptTimes, MAX_LINE_BYTES, MAX_SCAN_FILES,
};

fn json_line(members: &[(&str, &str)]) -> String {
    let mut object = serde_json::Map::new();
    for (key, value) in members {
        object.insert(
            key.to_string(),
            serde_json::Value::String(value.to_string()),
        );
    }
    serde_json::Value::Object(object).to_string()
}

fn transcript(session_id: &str, first_ts: &str, last_ts: &str) -> Vec<String> {
    vec![
        json_line(&[("sessionId", session_id), ("timestamp", first_ts), ("cwd", "/x")]),
        json_line(&[("sessionId", session_id), ("timestamp", last_ts)]),
    ]
}

/// The index of the transcripts with these lines.
fn index_of(files: &[Vec<String>]) -> TranscriptIndex {
    let mut index = TranscriptIndex::new();
    for lines in files {
        if !index.allow_file() {
            break;
        }
        if let Some((id, times)) = scan_one_transcript(lines) {
            index.add(id, times);
        }
    }
    index
}

fn session(id: &str, started_us: i64, ended_us: Option<i64>) -> SessionRow {
    SessionRow {
        id: id.to_string(),
        started_us,
        ended_us,
    }
}

fn now_us() -> i64 {
    jiff::Timestamp::now().as_microsecond()
}

fn us(text: &str) -> i64 {
    text.parse::<jiff::Timestamp>().unwrap().as_microsecond()
}

#[test]
fn plan_repair_matches_a_session_by_native_uuid_and_computes_first_last_timestamps() {
    let sid = "11111111-2222-3333-4444-555555555555";
    let index = index_of(&[transcript(sid, "2026-09-10T12:00:00Z", "2026-09-10T12:05:00Z")]);
    let sessions = vec![session(sid, 0, Some(1))];
    let plan = plan_repair(&index, &sessions, us("2026-09-25T00:00:00Z"));
    assert_eq!(plan.matched.len(), 1, "{plan:?}");
    let m = &plan.matched[0];
    assert_eq!(m.new_started_us, us("2026-09-10T12:00:00Z"));
    assert_eq!(m.new_ended_us, Some(us("2026-09-10T12:05:00Z")));
    assert_eq!(m.old_started_us, 0);
    assert_eq!(m.old_ended_us, Some(1));
}

#[test]
fn plan_repair_matches_a_non_uuid_native_id_by_its_uuid_v5() {
    let native = "codex-native-id-123";
    let resolved = uuid::Uuid::new_v5(&uuid::Uuid::NAMESPACE_OID, native.as_bytes()).to_string();
    let index = index_of(&[transcript(native, "2026-09-10T12:00:00Z", "2026-09-10T12:05:00Z")]);
    let sessions = vec![session(&resolved, 0, None)];
    let plan = plan_repair(&index, &sessions, us("2026-09-25T00:00:00Z"));
    assert_eq!(plan.matched.len(), 1, "{plan:?}");
    assert_eq!(plan.matched[0].session_id, resolved);
}

#[test]
fn plan_repair_reports_a_session_with_no_matching_transcript_as_unmatched() {
    let index = TranscriptIndex::new();
    let sessions = vec![session("nope", 0, None)];
    let plan = plan_repair(&index, &sessions, now_us());
    assert_eq!(plan.unmatched, vec!["nope".to_string()]);
    assert!(plan.matched.is_empty());
}

#[test]
fn plan_repair_skips_a_session_whose_transcript_has_no_timestamps() {
    let sid = "22222222-3333-4444-5555-666666666666";
    let index = index_of(&[vec![json_line(&[("sessionId", sid), ("cwd", "/x")])]]);
    let sessions = vec![session(sid, 0, None)];
    let plan = plan_repair(&index, &sessions, now_us());
    assert_eq!(plan.skipped_no_timestamps, vec![sid.to_string()]);
    assert!(plan.matched.is_empty());
}

#[test]
fn plan_repair_never_sets_ended_at_for_an_open_session() {
    let sid = "33333333-4444-5555-6666-777777777777";
    let index = index_of(&[transcript(sid, "2026-09-10T12:00:00Z", "2026-09-10T12:05:00Z")]);
    let sessions = vec![session(sid, 0, None)];
    let plan = plan_repair(&index, &sessions, us("2026-09-25T00:00:00Z"));
    assert_eq!(plan.matched.len(), 1, "{plan:?}");
    assert_eq!(
        plan.matched[0].new_ended_us, None,
        "an open session must never get an end time"
    );
}

#[test]
fn plan_repair_rejects_a_start_time_more_than_five_minutes_in_the_future() {
    let sid = "55555555-6666-7777-8888-999999999999";
    let now = now_us();
    let far_future = format_us(now + 60 * 60 * 1_000_000);
    let index = index_of(&[transcript(sid, &far_future, &far_future)]);
    let sessions = vec![session(sid, 0, None)];
    let plan = plan_repair(&index, &sessions, now);
    assert_eq!(plan.skipped_future, vec![sid.to_string()]);
    assert!(plan.matched.is_empty());
}

#[test]
fn apply_is_refused_only_when_busy() {
    let siblings = vec![999_999u32];
    assert!(refuse_apply_when_busy(true, &siblings, "busy").is_some());
    assert!(refuse_apply_when_busy(true, &[], "busy").is_none());
    assert!(
        refuse_apply_when_busy(false, &siblings, "busy").is_none(),
        "dry-run is never blocked by a live sibling process"
    );
    assert_eq!(
        refuse_apply_when_busy(true, &siblings, "process 999999 is alive"),
        Some("process 999999 is alive".to_string())
    );
}

#[test]
fn the_slack_is_five_minutes_to_the_microsecond() {
    let sid = "66666666-6666-6666-6666-666666666666";
    let mut index = TranscriptIndex::new();
    index.add(
        sid.to_string(),
        TranscriptTimes::Found {
            first_us: 1_000 + FUTURE_SLACK_US,
            last_us: 1_001 + FUTURE_SLACK_US,
        },
    );
    let closed = vec![session(sid, 0, Some(5))];
    let plan = plan_repair(&index, &closed, 1_000);
    assert_eq!(plan.matched[0].new_started_us, 300_001_000);
    assert_eq!(plan.matched[0].new_ended_us, None);
    assert_eq!(plan.matched[0].old_ended_us, Some(5));
    let plan = plan_repair(&index, &closed, 1_001);
    assert_eq!(plan.matched[0].new_ended_us, Some(300_001_001));
    let plan = plan_repair(&index, &closed, 999);
    assert_eq!(plan.skipped_future, vec![sid.to_string()]);
    // The greatest clock there is does no harm.
    let plan = plan_repair(&index, &closed, i64::MAX);
    assert_eq!(plan.matched.len(), 1);
}

#[test]
fn every_session_lands_in_one_list() {
    let a = "aaaaaaaa-0000-0000-0000-000000000000";
    let mut index = TranscriptIndex::new();
    index.add(a.to_string(), TranscriptTimes::Found { first_us: 3, last_us: 9 });
    index.add("b".to_string(), TranscriptTimes::NoTimestamps);
    index.add(
        "c".to_string(),
        TranscriptTimes::Found { first_us: i64::MAX, last_us: i64::MAX },
    );
    let sessions = vec![
        session("c", 1, None),
        session(a, 2, Some(7)),
        session("d", 3, None),
        session("b", 4, None),
    ];
    let plan = plan_repair(&index, &sessions, 100);
    assert_eq!(plan.matched.len(), 1);
    assert_eq!(plan.matched[0].session_id, a);
    assert_eq!(plan.matched[0].new_ended_us, Some(9));
    assert_eq!(plan.unmatched, vec!["d"]);
    assert_eq!(plan.skipped_no_timestamps, vec!["b"]);
    assert_eq!(plan.skipped_future, vec!["c"]);
}

#[test]
fn transcripts_of_one_session_are_merged() {
    let sid = "77777777-7777-7777-7777-777777777777";
    let index = index_of(&[
        transcript(sid, "2026-09-10T12:00:00Z", "2026-09-10T12:05:00Z"),
        vec![json_line(&[("sessionId", sid)])],
        transcript(&sid.to_uppercase(), "2026-09-09T00:00:00Z", "2026-09-10T12:01:00Z"),
    ]);
    assert_eq!(
        index.get(sid),
        Some(TranscriptTimes::Found {
            first_us: us("2026-09-09T00:00:00Z"),
            last_us: us("2026-09-10T12:05:00Z"),
        })
    );
    assert_eq!(index.get("other"), None);
}

#[test]
fn merging_does_not_depend_on_the_order() {
    let a = TranscriptTimes::Found { first_us: 1, last_us: 5 };
    let b = TranscriptTimes::Found { first_us: -2, last_us: 3 };
    let none = TranscriptTimes::NoTimestamps;
    let mut x = a;
    merge_times(&mut x, b);
    assert_eq!(x, TranscriptTimes::Found { first_us: -2, last_us: 5 });
    let mut y = b;
    merge_times(&mut y, a);
    assert_eq!(x, y);
    let mut z = none;
    merge_times(&mut z, a);
    assert_eq!(z, a);
    merge_times(&mut z, none);
    assert_eq!(z, a);
    let mut w = none;
    merge_times(&mut w, none);
    assert_eq!(w, none);
}

#[test]
fn lines_that_are_too_long_or_no_json_are_passed_over() {
    let sid = "88888888-8888-8888-8888-888888888888";
    let mut long = json_line(&[("sessionId", "first"), ("timestamp", "2020-01-01T00:00:00Z")]);
    while long.len() <= MAX_LINE_BYTES {
        long.push(' ');
    }
    let mut longest = json_line(&[("timestamp", "2026-09-10T11:00:00Z")]);
    while longest.len() < MAX_LINE_BYTES {
        longest.push(' ');
    }
    let lines = vec![
        "not json".to_string(),
        "[1, 2]".to_string(),
        long,
        "{\"sessionId\": 5, \"timestamp\": 6}".to_string(),
        json_line(&[("timestamp", "yesterday")]),
        json_line(&[("sessionId", sid), ("timestamp", "2026-09-10T12:00:00Z")]),
        json_line(&[("sessionId", "later"), ("timestamp", "2026-09-10T10:00:00Z")]),
        longest,
    ];
    assert_eq!(
        scan_one_transcript(&lines),
        Some((
            sid.to_string(),
            TranscriptTimes::Found {
                first_us: us("2026-09-10T10:00:00Z"),
                last_us: us("2026-09-10T12:00:00Z"),
            }
        ))
    );
    assert_eq!(scan_one_transcript(&Vec::new()), None);
    assert_eq!(
        scan_one_transcript(&vec![json_line(&[("timestamp", "2026-09-10T10:00:00Z")])]),
        None
    );
}

#[test]
fn a_transcript_can_be_read_line_by_line() {
    let mut scan = TranscriptScan::new();
    scan.note(None, Some(5));
    scan.note(Some("x".to_string()), Some(-5));
    scan.note(Some("y".to_string()), None);
    scan.read_line("{\"timestamp\":\"1970-01-01T00:00:00.000009Z\"}");
    let key = uuid::Uuid::new_v5(&uuid::Uuid::NAMESPACE_OID, b"x").to_string();
    assert_eq!(
        scan.finish(),
        Some((key, TranscriptTimes::Found { first_us: -5, last_us: 9 }))
    );
}

#[test]
fn no_more_than_the_allowed_files_are_read() {
    let mut index = TranscriptIndex::new();
    for _ in 0..MAX_SCAN_FILES {
        assert!(index.allow_file());
    }
    assert!(!index.allow_file());
    assert!(!index.allow_file());
}

#[test]
fn directory_entries_are_sorted_out() {
    assert_eq!(entry_action(true, false, None), EntryAction::Descend);
    assert_eq!(entry_action(true, false, Some("jsonl")), EntryAction::Descend);
    assert_eq!(entry_action(false, true, Some("jsonl")), EntryAction::Read);
    assert_eq!(entry_action(false, true, Some("json")), EntryAction::Skip);
    assert_eq!(entry_action(false, true, Some("JSONL")), EntryAction::Skip);
    assert_eq!(entry_action(false, false, Some("jsonl")), EntryAction::Skip);
    assert_eq!(entry_action(false, true, None), EntryAction::Skip);
}

#[test]
fn session_keys_are_canonical_and_stable() {
    let sid = "67e55044-10b1-426f-9247-bb680e5fe0c8";
    assert_eq!(resolve_transcript_session_id(sid), sid);
    assert_eq!(
        resolve_transcript_session_id("{67E55044-10B1-426F-9247-BB680E5FE0C8}"),
        sid
    );
    assert_eq!(
        resolve_transcript_session_id("67e5504410b1426f9247bb680e5fe0c8"),
        sid
    );
    let derived = resolve_transcript_session_id("codex");
    assert_eq!(
        derived,
        uuid::Uuid::new_v5(&uuid::Uuid::NAMESPACE_OID, b"codex").to_string()
    );
    assert_eq!(resolve_transcript_session_id(&derived), derived);
    assert_ne!(resolve_transcript_session_id("codex2"), derived);
}

#[test]
fn stored_identifiers_have_sixteen_bytes() {
    let bytes: Vec<u8> = (0..16).map(|i| i * 17).collect();
    assert_eq!(
        stored_session_id(&bytes),
        Some("00112233-4455-6677-8899-aabbccddeeff".to_string())
    );
    assert_eq!(stored_session_id(&bytes[..15]), None);
    assert_eq!(stored_session_id(&[]), None);
}

fn repair(session_id: &str, old: i64, new: i64) -> PlannedRepair {
    PlannedRepair {
        session_id: session_id.to_string(),
        old_started_us: old,
        old_ended_us: None,
        new_started_us: new,
        new_ended_us: None,
    }
}

#[test]
fn the_report_counts_and_gives_the_ranges() {
    let plan = RepairPlan {
        matched: vec![
            repair("a", 86_400_000_000, 2_000_000),
            repair("b", 0, 5_000_000),
            repair("c", 172_800_000_000, 1_000_000),
        ],
        unmatched: vec!["x".to_string()],
        skipped_no_timestamps: vec!["y".to_string(), "z".to_string()],
        skipped_future: Vec::new(),
    };
    assert_eq!(
        repair_report("ws", "proj", &plan, true),
        "ai-memory: repair-backfill-timestamps for ws/proj: 3 session(s) matched, 1 unmatched \
         (no transcript found), 2 skipped (transcript has no timestamps), 0 skipped (would move \
         into the future).\n  date range before: 1970-01-01T00:00:00Z .. 1970-01-03T00:00:00Z\n  \
         date range after:  1970-01-01T00:00:01Z .. 1970-01-01T00:00:05Z\n"
    );
    let ranges = start_ranges(&plan.matched).unwrap();
    assert_eq!((ranges.before_min, ranges.before_max), (0, 172_800_000_000));
    assert_eq!((ranges.after_min, ranges.after_max), (1_000_000, 5_000_000));
}

#[test]
fn a_dry_run_says_so() {
    let plan = RepairPlan {
        matched: Vec::new(),
        unmatched: Vec::new(),
        skipped_no_timestamps: Vec::new(),
        skipped_future: Vec::new(),
    };
    let text = repair_report("w", "p", &plan, false);
    assert!(text.ends_with(
        "  dry run: nothing was written. Take a backup (`ai-memory backup`) with the server \
         stopped, then re-run with --apply.\n"
    ));
    assert!(!text.contains("date range"));
    assert!(start_ranges(&plan.matched).is_none());
    assert_eq!(applied_report(3), "applied 3 repaired session(s).\n");
    assert_eq!(
        range_text("a", "b", "c", "d"),
        "  date range before: a .. b\n  date range after:  c .. d\n"
    );
}

#[test]
fn planning_again_after_a_repair_finds_the_same_times() {
    let sid = "11111111-2222-3333-4444-555555555555";
    let index = index_of(&[transcript(sid, "2026-09-10T12:00:00Z", "2026-09-10T12:05:00Z")]);
    let now = us("2026-09-25T00:00:00Z");
    let first = plan_repair(&index, &[session(sid, 0, Some(1))], now);
    let repaired = session(sid, first.matched[0].new_started_us, first.matched[0].new_ended_us);
    let second = plan_repair(&index, &[repaired], now);
    assert_eq!(second.matched.len(), 1);
    assert_eq!(second.matched[0].old_started_us, us("2026-09-10T12:00:00Z"));
    assert_eq!(second.matched[0].new_started_us, us("2026-09-10T12:00:00Z"));
    assert_eq!(second.matched[0].old_ended_us, Some(us("2026-09-10T12:05:00Z")));
    assert_eq!(second.matched[0].new_ended_us, Some(us("2026-09-10T12:05:00Z")));
}

#[test]
fn a_dry_run_writes_nothing() {
    let mut index = TranscriptIndex::new();
    for id in ["a", "b", "c"] {
        index.add(id.to_string(), TranscriptTimes::Found { first_us: 3, last_us: 9 });
    }
    let sessions =
        vec![session("c", 1, None), session("x", 2, None), session("a", 3, Some(4)), session("b", 5, None)];
    let plan = plan_repair(&index, &sessions, 100);
    assert!(repairs_to_write(&plan, false).is_empty());
    let written = repairs_to_write(&plan, true);
    let ids: Vec<&str> = written.iter().map(|r| r.session_id.as_str()).collect();
    assert_eq!(ids, vec!["c", "a", "b"]);
    assert_eq!(written[1].new_ended_us, Some(9));
    assert_eq!(written[2].new_started_us, 3);
}

#[test]
fn stored_identifiers_are_read_back() {
    let id = [0u8, 1, 2, 3, 4, 5, 6, 7, 8, 9, 10, 11, 12, 13, 254, 255];
    let text = stored_session_id(&id).unwrap();
    assert_eq!(text, "00010203-0405-0607-0809-0a0b0c0dfeff");
    assert_eq!(read_session_id(&text), Some(id));
    assert_eq!(read_session_id("no identifier"), None);
}
