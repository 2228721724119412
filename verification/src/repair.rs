//! Repair of session times from transcripts.

use vstd::prelude::*;
use vstd::slice::slice_subrange;
use vstd::string::*;

use crate::clock::format_us;
use crate::clock::us_text;
use crate::number::decimal;
use crate::number::size_text;
use crate::transcripts::TranscriptIndex;
use crate::transcripts::TranscriptTimes;
use crate::utf8::lemma_views_push;
use crate::utf8::views;

verus! {

/// How far a time may lie ahead of the present, for clocks that differ.
pub const FUTURE_SLACK_US: i64 = 300_000_000;

/// A session as it is stored.
#[derive(Debug)]
pub struct SessionRow {
    pub id: String,
    pub started_us: i64,
    pub ended_us: Option<i64>,
}

/// The repair of one session.
#[derive(Debug)]
pub struct PlannedRepair {
    pub session_id: String,
    pub old_started_us: i64,
    pub old_ended_us: Option<i64>,
    pub new_started_us: i64,
    /// The end to write; none where the stored one is to stay as it is.
    pub new_ended_us: Option<i64>,
}

/// What is to be done with the sessions of a project.
#[derive(Debug)]
pub struct RepairPlan {
    /// Sessions whose times a transcript gives.
    pub matched: Vec<PlannedRepair>,
    /// Sessions without a transcript.
    pub unmatched: Vec<String>,
    /// Sessions whose transcript holds no timestamp.
    pub skipped_no_timestamps: Vec<String>,
    /// Sessions whose transcript starts in the future.
    pub skipped_future: Vec<String>,
}

/// What becomes of a session.
pub enum Outcome {
    Unmatched,
    NoTimestamps,
    Future,
    Matched { started: i64, ended: Option<i64> },
}

/// Whether a time lies too far ahead of the present.
pub open spec fn is_future(us: int, now: int) -> bool {
    us > now + FUTURE_SLACK_US
}

/// What becomes of a session, by what the transcripts say of it.
pub open spec fn outcome(
    index: Map<Seq<char>, TranscriptTimes>,
    session: SessionRow,
    now: int,
) -> Outcome {
    if !index.contains_key(session.id@) {
        Outcome::Unmatched
    } else {
        match index[session.id@] {
            TranscriptTimes::NoTimestamps => Outcome::NoTimestamps,
            TranscriptTimes::Found { first_us, last_us } => if is_future(first_us as int, now) {
                Outcome::Future
            } else {
                Outcome::Matched {
                    started: first_us,
                    ended: if session.ended_us is Some && !is_future(last_us as int, now) {
                        Some(last_us)
                    } else {
                        None
                    },
                }
            },
        }
    }
}

/// The sessions of which a condition holds, in order.
pub open spec fn kept(
    sessions: Seq<SessionRow>,
    keep: spec_fn(SessionRow) -> bool,
) -> Seq<SessionRow>
    decreases sessions.len(),
{
    if sessions.len() == 0 {
        Seq::empty()
    } else if keep(sessions.last()) {
        kept(sessions.drop_last(), keep).push(sessions.last())
    } else {
        kept(sessions.drop_last(), keep)
    }
}

pub open spec fn ids(sessions: Seq<SessionRow>) -> Seq<Seq<char>> {
    sessions.map_values(|s: SessionRow| s.id@)
}

/// `repair` writes to `session` what its outcome says.
pub open spec fn is_repair(repair: PlannedRepair, session: SessionRow, out: Outcome) -> bool {
    &&& out is Matched
    &&& repair.session_id@ == session.id@
    &&& repair.old_started_us == session.started_us
    &&& repair.old_ended_us == session.ended_us
    &&& repair.new_started_us == out->started
    &&& repair.new_ended_us == out->ended
}

/// `plan` is what becomes of the sessions, each list in their order.
pub open spec fn is_plan(
    plan: RepairPlan,
    index: Map<Seq<char>, TranscriptTimes>,
    sessions: Seq<SessionRow>,
    now: int,
) -> bool {
    let matched = kept(sessions, |s: SessionRow| outcome(index, s, now) is Matched);
    &&& views(plan.unmatched@) == ids(
        kept(sessions, |s: SessionRow| outcome(index, s, now) is Unmatched),
    )
    &&& views(plan.skipped_no_timestamps@) == ids(
        kept(sessions, |s: SessionRow| outcome(index, s, now) is NoTimestamps),
    )
    &&& views(plan.skipped_future@) == ids(
        kept(sessions, |s: SessionRow| outcome(index, s, now) is Future),
    )
    &&& plan.matched@.len() == matched.len()
    &&& forall|k: int|
        0 <= k < matched.len() ==> is_repair(
            #[trigger] plan.matched@[k],
            matched[k],
            outcome(index, matched[k], now),
        )
}

/// Whether a time lies too far ahead of the present.
fn too_far_ahead(us: i64, now_us: i64) -> (r: bool)
    ensures
        r == is_future(us as int, now_us as int),
{
    us as i128 > now_us as i128 + FUTURE_SLACK_US as i128
}

proof fn lemma_kept_push(
    sessions: Seq<SessionRow>,
    session: SessionRow,
    keep: spec_fn(SessionRow) -> bool,
)
    ensures
        kept(sessions.push(session), keep) == if keep(session) {
            kept(sessions, keep).push(session)
        } else {
            kept(sessions, keep)
        },
{
    assert(sessions.push(session).drop_last() =~= sessions);
}

/// Plans the repair of sessions against the transcripts that were found. A session is never
/// moved into the future, and one that is still open is never given an end.
pub fn plan_repair(index: &TranscriptIndex, sessions: &[SessionRow], now_us: i64) -> (plan:
    RepairPlan)
    ensures
        is_plan(plan, index@, sessions@, now_us as int),
{
    let mut plan = RepairPlan {
        matched: Vec::new(),
        unmatched: Vec::new(),
        skipped_no_timestamps: Vec::new(),
        skipped_future: Vec::new(),
    };
    let ghost m = index@;
    let ghost now = now_us as int;
    let mut i: usize = 0;
    assert(sessions@.take(0) =~= Seq::empty());
    assert(is_plan(plan, m, sessions@.take(0), now)) by {
        assert(views(plan.unmatched@) =~= Seq::empty());
        assert(views(plan.skipped_no_timestamps@) =~= Seq::empty());
        assert(views(plan.skipped_future@) =~= Seq::empty());
        assert(ids(Seq::<SessionRow>::empty()) =~= Seq::empty());
    }
    while i < sessions.len()
        invariant
            i <= sessions@.len(),
            m == index@,
            now == now_us,
            is_plan(plan, m, sessions@.take(i as int), now),
        decreases sessions@.len() - i,
    {
        let ghost before = plan;
        let ghost done = sessions@.take(i as int);
        let session = &sessions[i];
        match index.get(session.id.as_str()) {
            None => plan.unmatched.push(session.id.clone()),
            Some(TranscriptTimes::NoTimestamps) => plan.skipped_no_timestamps.push(
                session.id.clone(),
            ),
            Some(TranscriptTimes::Found { first_us, last_us }) => {
                if too_far_ahead(first_us, now_us) {
                    plan.skipped_future.push(session.id.clone());
                } else {
                    let new_ended_us = match session.ended_us {
                        None => None,
                        Some(_) => if too_far_ahead(last_us, now_us) {
                            None
                        } else {
                            Some(last_us)
                        },
                    };
                    plan.matched.push(
                        PlannedRepair {
                            session_id: session.id.clone(),
                            old_started_us: session.started_us,
                            old_ended_us: session.ended_us,
                            new_started_us: first_us,
                            new_ended_us,
                        },
                    );
                }
            },
        }
        proof {
            broadcast use lemma_views_push;

            assert(sessions@.take(i + 1) =~= done.push(*session));
            if plan.matched@.len() > before.matched@.len() {
                assert(plan.matched@.drop_last() =~= before.matched@);
            }
            lemma_plan_step(before, plan, m, done, *session, now);
        }
        i = i + 1;
    }
    assert(sessions@.take(i as int) =~= sessions@);
    plan
}

/// A plan for one more session.
proof fn lemma_plan_step(
    before: RepairPlan,
    after: RepairPlan,
    index: Map<Seq<char>, TranscriptTimes>,
    sessions: Seq<SessionRow>,
    session: SessionRow,
    now: int,
)
    requires
        is_plan(before, index, sessions, now),
        ({
            let out = outcome(index, session, now);
            &&& views(after.unmatched@) == if out is Unmatched {
                views(before.unmatched@).push(session.id@)
            } else {
                views(before.unmatched@)
            }
            &&& views(after.skipped_no_timestamps@) == if out is NoTimestamps {
                views(before.skipped_no_timestamps@).push(session.id@)
            } else {
                views(before.skipped_no_timestamps@)
            }
            &&& views(after.skipped_future@) == if out is Future {
                views(before.skipped_future@).push(session.id@)
            } else {
                views(before.skipped_future@)
            }
            &&& out is Matched ==> after.matched@.len() == before.matched@.len() + 1
                && after.matched@.drop_last() == before.matched@ && is_repair(
                after.matched@.last(),
                session,
                out,
            )
            &&& !(out is Matched) ==> after.matched@ == before.matched@
        }),
    ensures
        is_plan(after, index, sessions.push(session), now),
{
    let unmatched = |s: SessionRow| outcome(index, s, now) is Unmatched;
    let bare = |s: SessionRow| outcome(index, s, now) is NoTimestamps;
    let future = |s: SessionRow| outcome(index, s, now) is Future;
    let matched = |s: SessionRow| outcome(index, s, now) is Matched;
    lemma_kept_push(sessions, session, unmatched);
    lemma_kept_push(sessions, session, bare);
    lemma_kept_push(sessions, session, future);
    lemma_kept_push(sessions, session, matched);
    let all = sessions.push(session);
    assert(ids(kept(sessions, unmatched).push(session)) =~= ids(kept(sessions, unmatched)).push(
        session.id@,
    ));
    assert(ids(kept(sessions, bare).push(session)) =~= ids(kept(sessions, bare)).push(session.id@));
    assert(ids(kept(sessions, future).push(session)) =~= ids(kept(sessions, future)).push(
        session.id@,
    ));
    let now_matched = kept(all, matched);
    assert forall|k: int| 0 <= k < now_matched.len() implies is_repair(
        #[trigger] after.matched@[k],
        now_matched[k],
        outcome(index, now_matched[k], now),
    ) by {
        if k < before.matched@.len() {
            assert(after.matched@[k] == before.matched@[k]);
            assert(now_matched[k] == kept(sessions, matched)[k]);
        } else {
            assert(after.matched@[k] == after.matched@.last());
        }
    }
}

/// A plan says what becomes of a session.
pub open spec fn plans_for(plan: RepairPlan, session: SessionRow, out: Outcome) -> bool {
    match out {
        Outcome::Unmatched => views(plan.unmatched@).contains(session.id@),
        Outcome::NoTimestamps => views(plan.skipped_no_timestamps@).contains(session.id@),
        Outcome::Future => views(plan.skipped_future@).contains(session.id@),
        Outcome::Matched { .. } => exists|k: int|
            0 <= k < plan.matched@.len() && is_repair(#[trigger] plan.matched@[k], session, out),
    }
}

/// Every session is in the list of a plan that its outcome says, and the lists hold as many
/// sessions as there are.
pub proof fn law_plan_covers_every_session(
    plan: RepairPlan,
    index: Map<Seq<char>, TranscriptTimes>,
    sessions: Seq<SessionRow>,
    now: int,
)
    requires
        is_plan(plan, index, sessions, now),
    ensures
        plan.matched@.len() + plan.unmatched@.len() + plan.skipped_no_timestamps@.len()
            + plan.skipped_future@.len() == sessions.len(),
        forall|i: int|
            0 <= i < sessions.len() ==> plans_for(
                plan,
                #[trigger] sessions[i],
                outcome(index, sessions[i], now),
            ),
{
    lemma_kept_cover(index, sessions, now);
    assert forall|i: int| 0 <= i < sessions.len() implies plans_for(
        plan,
        #[trigger] sessions[i],
        outcome(index, sessions[i], now),
    ) by {
        let keep = match outcome(index, sessions[i], now) {
            Outcome::Unmatched => |s: SessionRow| outcome(index, s, now) is Unmatched,
            Outcome::NoTimestamps => |s: SessionRow| outcome(index, s, now) is NoTimestamps,
            Outcome::Future => |s: SessionRow| outcome(index, s, now) is Future,
            Outcome::Matched { .. } => |s: SessionRow| outcome(index, s, now) is Matched,
        };
        lemma_kept_has(sessions, keep, i);
        let here = kept(sessions, keep);
        let k = choose|k: int| 0 <= k < here.len() && here[k] == sessions[i];
        if outcome(index, sessions[i], now) is Matched {
            assert(is_repair(plan.matched@[k], here[k], outcome(index, here[k], now)));
        } else {
            assert(ids(here)[k] == sessions[i].id@);
        }
    }
    assert(views(plan.unmatched@).len() == plan.unmatched@.len());
    assert(views(plan.skipped_no_timestamps@).len() == plan.skipped_no_timestamps@.len());
    assert(views(plan.skipped_future@).len() == plan.skipped_future@.len());
}

proof fn lemma_kept_cover(
    index: Map<Seq<char>, TranscriptTimes>,
    sessions: Seq<SessionRow>,
    now: int,
)
    ensures
        kept(sessions, |s: SessionRow| outcome(index, s, now) is Matched).len() + kept(
            sessions,
            |s: SessionRow| outcome(index, s, now) is Unmatched,
        ).len() + kept(sessions, |s: SessionRow| outcome(index, s, now) is NoTimestamps).len()
            + kept(sessions, |s: SessionRow| outcome(index, s, now) is Future).len()
            == sessions.len(),
    decreases sessions.len(),
{
    if sessions.len() > 0 {
        lemma_kept_cover(index, sessions.drop_last(), now);
    }
}

/// A session of which the condition holds is kept.
proof fn lemma_kept_has(sessions: Seq<SessionRow>, keep: spec_fn(SessionRow) -> bool, i: int)
    requires
        0 <= i < sessions.len(),
        keep(sessions[i]),
    ensures
        kept(sessions, keep).contains(sessions[i]),
    decreases sessions.len(),
{
    let rest = sessions.drop_last();
    let here = kept(sessions, keep);
    if i < rest.len() {
        assert(rest[i] == sessions[i]);
        lemma_kept_has(rest, keep, i);
        let k = choose|k: int| 0 <= k < kept(rest, keep).len() && kept(rest, keep)[k] == rest[i];
        assert(here[k] == sessions[i]);
    } else {
        assert(here[here.len() - 1] == sessions[i]);
    }
}

/// What is kept is some session of which the condition holds.
proof fn lemma_kept_holds(sessions: Seq<SessionRow>, keep: spec_fn(SessionRow) -> bool, k: int)
    requires
        0 <= k < kept(sessions, keep).len(),
    ensures
        keep(kept(sessions, keep)[k]),
        sessions.contains(kept(sessions, keep)[k]),
    decreases sessions.len(),
{
    if sessions.len() > 0 {
        let rest = sessions.drop_last();
        if k < kept(rest, keep).len() {
            lemma_kept_holds(rest, keep, k);
            let s = kept(rest, keep)[k];
            let i = choose|i: int| 0 <= i < rest.len() && rest[i] == s;
            assert(sessions[i] == s);
        } else {
            assert(sessions[sessions.len() - 1] == sessions.last());
        }
    }
}

/// A repair is of a session that is there, writes no time that lies in the future, gives no
/// end to a session that is open, and takes both times from the session's transcripts.
pub proof fn law_repairs_are_sound(
    plan: RepairPlan,
    index: Map<Seq<char>, TranscriptTimes>,
    sessions: Seq<SessionRow>,
    now: int,
    k: int,
)
    requires
        is_plan(plan, index, sessions, now),
        0 <= k < plan.matched@.len(),
    ensures
        exists|s: SessionRow|
            sessions.contains(s) && s.id@ == plan.matched@[k].session_id@ && s.started_us
                == plan.matched@[k].old_started_us && s.ended_us == plan.matched@[k].old_ended_us,
        !is_future(plan.matched@[k].new_started_us as int, now),
        plan.matched@[k].new_ended_us is Some ==> !is_future(
            plan.matched@[k].new_ended_us->Some_0 as int,
            now,
        ),
        plan.matched@[k].old_ended_us is None ==> plan.matched@[k].new_ended_us is None,
        index.contains_key(plan.matched@[k].session_id@),
        index[plan.matched@[k].session_id@] matches TranscriptTimes::Found { first_us, last_us }
            && first_us == plan.matched@[k].new_started_us && (plan.matched@[k].new_ended_us is Some
            ==> last_us == plan.matched@[k].new_ended_us->Some_0),
{
    let keep = |s: SessionRow| outcome(index, s, now) is Matched;
    lemma_kept_holds(sessions, keep, k);
    let s = kept(sessions, keep)[k];
    assert(is_repair(plan.matched@[k], s, outcome(index, s, now)));
    assert(sessions.contains(s));
}

/// Once a session is repaired, planning again finds the same times for it.
pub proof fn law_planning_again_changes_nothing(
    index: Map<Seq<char>, TranscriptTimes>,
    session: SessionRow,
    repaired: SessionRow,
    now: int,
)
    requires
        outcome(index, session, now) is Matched,
        repaired.id@ == session.id@,
        repaired.started_us == outcome(index, session, now)->started,
        repaired.ended_us == match outcome(index, session, now)->ended {
            Some(us) => Some(us),
            None => session.ended_us,
        },
    ensures
        outcome(index, repaired, now) == outcome(index, session, now),
        outcome(index, repaired, now)->started == repaired.started_us,
        outcome(index, repaired, now)->ended is Some ==> outcome(index, repaired, now)->ended
            == repaired.ended_us,
{
}

/// The least and the greatest of some times.
pub open spec fn is_range(lo: i64, hi: i64, times: Seq<i64>) -> bool {
    &&& times.contains(lo)
    &&& times.contains(hi)
    &&& forall|k: int| 0 <= k < times.len() ==> lo <= #[trigger] times[k] <= hi
}

pub open spec fn old_starts(repairs: Seq<PlannedRepair>) -> Seq<i64> {
    repairs.map_values(|r: PlannedRepair| r.old_started_us)
}

pub open spec fn new_starts(repairs: Seq<PlannedRepair>) -> Seq<i64> {
    repairs.map_values(|r: PlannedRepair| r.new_started_us)
}

/// The dates between which sessions start, before and after a repair.
#[derive(Debug, Clone, Copy)]
pub struct StartRanges {
    pub before_min: i64,
    pub before_max: i64,
    pub after_min: i64,
    pub after_max: i64,
}

/// The ranges of start times of a plan; none where it matches no session.
pub fn start_ranges(repairs: &Vec<PlannedRepair>) -> (r: Option<StartRanges>)
    ensures
        match r {
            Some(ranges) => repairs@.len() > 0 && is_range(
                ranges.before_min,
                ranges.before_max,
                old_starts(repairs@),
            ) && is_range(ranges.after_min, ranges.after_max, new_starts(repairs@)),
            None => repairs@.len() == 0,
        },
{
    if repairs.len() == 0 {
        return None;
    }
    let mut before_min: i64 = repairs[0].old_started_us;
    let mut before_max: i64 = repairs[0].old_started_us;
    let mut after_min: i64 = repairs[0].new_started_us;
    let mut after_max: i64 = repairs[0].new_started_us;
    let ghost old_times = old_starts(repairs@);
    let ghost new_times = new_starts(repairs@);
    assert(old_times[0] == before_min);
    assert(new_times[0] == after_min);
    let mut i: usize = 1;
    while i < repairs.len()
        invariant
            1 <= i <= repairs@.len(),
            old_times == old_starts(repairs@),
            new_times == new_starts(repairs@),
            old_times.contains(before_min),
            old_times.contains(before_max),
            new_times.contains(after_min),
            new_times.contains(after_max),
            forall|k: int| 0 <= k < i ==> before_min <= #[trigger] old_times[k] <= before_max,
            forall|k: int| 0 <= k < i ==> after_min <= #[trigger] new_times[k] <= after_max,
        decreases repairs@.len() - i,
    {
        let old_us: i64 = repairs[i].old_started_us;
        let new_us: i64 = repairs[i].new_started_us;
        assert(old_times[i as int] == old_us);
        assert(new_times[i as int] == new_us);
        if old_us < before_min {
            before_min = old_us;
        }
        if old_us > before_max {
            before_max = old_us;
        }
        if new_us < after_min {
            after_min = new_us;
        }
        if new_us > after_max {
            after_max = new_us;
        }
        i = i + 1;
    }
    Some(StartRanges { before_min, before_max, after_min, after_max })
}

/// How many sessions a plan repairs and leaves.
#[derive(Debug, Clone, Copy)]
pub struct PlanCounts {
    pub matched: usize,
    pub unmatched: usize,
    pub no_timestamps: usize,
    pub future: usize,
}

/// The line with the counts of a plan.
pub open spec fn counts_line(
    workspace: Seq<char>,
    project: Seq<char>,
    counts: PlanCounts,
) -> Seq<char> {
    "ai-memory: repair-backfill-timestamps for "@ + workspace + "/"@ + project + ": "@ + decimal(
        counts.matched as nat,
    ) + " session(s) matched, "@ + decimal(counts.unmatched as nat)
        + " unmatched (no transcript found), "@ + decimal(counts.no_timestamps as nat)
        + " skipped (transcript has no timestamps), "@ + decimal(counts.future as nat)
        + " skipped (would move into the future).\n"@
}

/// The two lines with the dates between which sessions start.
pub open spec fn range_lines(
    before_min: Seq<char>,
    before_max: Seq<char>,
    after_min: Seq<char>,
    after_max: Seq<char>,
) -> Seq<char> {
    "  date range before: "@ + before_min + " .. "@ + before_max + "\n  date range after:  "@
        + after_min + " .. "@ + after_max + "\n"@
}

/// The line that says that nothing was written.
pub open spec fn dry_run_line() -> Seq<char> {
    "  dry run: nothing was written. Take a backup (`ai-memory backup`) with the server stopped, then re-run with --apply.\n"@
}

/// The report on a plan.
pub open spec fn report(
    workspace: Seq<char>,
    project: Seq<char>,
    counts: PlanCounts,
    ranges: Option<StartRanges>,
    apply: bool,
) -> Seq<char> {
    counts_line(workspace, project, counts) + (match ranges {
        Some(r) => range_lines(
            us_text(r.before_min),
            us_text(r.before_max),
            us_text(r.after_min),
            us_text(r.after_max),
        ),
        None => Seq::empty(),
    }) + (if apply {
        Seq::empty()
    } else {
        dry_run_line()
    })
}

fn counts_text(workspace: &str, project: &str, counts: PlanCounts) -> (r: String)
    ensures
        r@ == counts_line(workspace@, project@, counts),
{
    let mut r = "ai-memory: repair-backfill-timestamps for ".to_owned();
    r.append(workspace);
    r.append("/");
    r.append(project);
    r.append(": ");
    r.append(size_text(counts.matched).as_str());
    r.append(" session(s) matched, ");
    r.append(size_text(counts.unmatched).as_str());
    r.append(" unmatched (no transcript found), ");
    r.append(size_text(counts.no_timestamps).as_str());
    r.append(" skipped (transcript has no timestamps), ");
    r.append(size_text(counts.future).as_str());
    r.append(" skipped (would move into the future).\n");
    r
}

/// The lines with the dates between which sessions start.
pub fn range_text(
    before_min: &str,
    before_max: &str,
    after_min: &str,
    after_max: &str,
) -> (r: String)
    ensures
        r@ == range_lines(before_min@, before_max@, after_min@, after_max@),
{
    let mut r = "  date range before: ".to_owned();
    r.append(before_min);
    r.append(" .. ");
    r.append(before_max);
    r.append("\n  date range after:  ");
    r.append(after_min);
    r.append(" .. ");
    r.append(after_max);
    r.append("\n");
    r
}

/// The report on a plan, line by line.
pub fn repair_report(workspace: &str, project: &str, plan: &RepairPlan, apply: bool) -> (r: String)
    ensures
        ({
            let counts = PlanCounts {
                matched: plan.matched.len(),
                unmatched: plan.unmatched.len(),
                no_timestamps: plan.skipped_no_timestamps.len(),
                future: plan.skipped_future.len(),
            };
            exists|ranges: Option<StartRanges>| #[trigger]
                are_ranges(ranges, plan.matched@) && r@ == report(
                    workspace@,
                    project@,
                    counts,
                    ranges,
                    apply,
                )
        }),
{
    let counts = PlanCounts {
        matched: plan.matched.len(),
        unmatched: plan.unmatched.len(),
        no_timestamps: plan.skipped_no_timestamps.len(),
        future: plan.skipped_future.len(),
    };
    let mut r = counts_text(workspace, project, counts);
    let ranges = start_ranges(&plan.matched);
    let ghost ranges_are = ranges;
    if let Some(range) = ranges {
        let lines = range_text(
            format_us(range.before_min).as_str(),
            format_us(range.before_max).as_str(),
            format_us(range.after_min).as_str(),
            format_us(range.after_max).as_str(),
        );
        r.append(lines.as_str());
    }
    if !apply {
        r.append("  dry run: nothing was written. Take a backup (`ai-memory backup`) with the server stopped, then re-run with --apply.\n");
    }
    assert(are_ranges(ranges_are, plan.matched@));
    assert(r@ =~= report(workspace@, project@, counts, ranges_are, apply));
    r
}

/// `ranges` are those of the repairs; there are none without a repair.
pub open spec fn are_ranges(ranges: Option<StartRanges>, repairs: Seq<PlannedRepair>) -> bool {
    match ranges {
        Some(r) => repairs.len() > 0 && is_range(r.before_min, r.before_max, old_starts(repairs))
            && is_range(r.after_min, r.after_max, new_starts(repairs)),
        None => repairs.len() == 0,
    }
}

/// The repairs that a run writes, in the order in which it does.
pub open spec fn written_repairs(plan: RepairPlan, apply: bool) -> Seq<PlannedRepair> {
    if apply {
        plan.matched@
    } else {
        Seq::empty()
    }
}

/// The repairs that are to be written: none in a dry run, else each that was planned, once and
/// in order.
pub fn repairs_to_write(plan: &RepairPlan, apply: bool) -> (r: &[PlannedRepair])
    ensures
        r@ == written_repairs(*plan, apply),
{
    let all = plan.matched.as_slice();
    if apply {
        all
    } else {
        let none = slice_subrange(all, 0, 0);
        assert(none@ =~= Seq::empty());
        none
    }
}

/// No two sessions are the same.
pub open spec fn distinct_sessions(sessions: Seq<SessionRow>) -> bool {
    forall|i: int, j: int|
        0 <= i < j < sessions.len() ==> (#[trigger] sessions[i]).id@ != (
        #[trigger] sessions[j]).id@
}

/// Where all sessions differ, those that are kept do.
proof fn lemma_kept_ids_differ(
    sessions: Seq<SessionRow>,
    keep: spec_fn(SessionRow) -> bool,
    a: int,
    b: int,
)
    requires
        distinct_sessions(sessions),
        0 <= a < b < kept(sessions, keep).len(),
    ensures
        kept(sessions, keep)[a].id@ != kept(sessions, keep)[b].id@,
    decreases sessions.len(),
{
    let rest = sessions.drop_last();
    let here = kept(rest, keep);
    assert forall|i: int, j: int| 0 <= i < j < rest.len() implies (#[trigger] rest[i]).id@ != (
    #[trigger] rest[j]).id@ by {
        assert(sessions[i].id@ != sessions[j].id@);
    }
    if b < here.len() {
        lemma_kept_ids_differ(rest, keep, a, b);
    } else {
        lemma_kept_holds(rest, keep, a);
        let i = choose|i: int| 0 <= i < rest.len() && rest[i] == here[a];
        assert(sessions[i] == here[a]);
        assert(sessions[sessions.len() - 1] == sessions.last());
    }
}

/// A dry run writes nothing. Any other run writes, in the order of the sessions, the repair of
/// each for which a transcript gives times, and where no two sessions are the same it writes
/// none of them twice.
pub proof fn law_only_applied_repairs_are_written(
    plan: RepairPlan,
    index: Map<Seq<char>, TranscriptTimes>,
    sessions: Seq<SessionRow>,
    now: int,
)
    requires
        is_plan(plan, index, sessions, now),
    ensures
        written_repairs(plan, false).len() == 0,
        ({
            let written = written_repairs(plan, true);
            let repaired = kept(sessions, |s: SessionRow| outcome(index, s, now) is Matched);
            &&& written.len() == repaired.len()
            &&& forall|k: int|
                0 <= k < written.len() ==> is_repair(
                    #[trigger] written[k],
                    repaired[k],
                    outcome(index, repaired[k], now),
                )
            &&& distinct_sessions(sessions) ==> forall|a: int, b: int|
                0 <= a < b < written.len() ==> (#[trigger] written[a]).session_id@ != (
                #[trigger] written[b]).session_id@
        }),
{
    let written = written_repairs(plan, true);
    let keep = |s: SessionRow| outcome(index, s, now) is Matched;
    let repaired = kept(sessions, keep);
    if distinct_sessions(sessions) {
        assert forall|a: int, b: int| 0 <= a < b < written.len() implies (
        #[trigger] written[a]).session_id@ != (#[trigger] written[b]).session_id@ by {
            assert(is_repair(plan.matched@[a], repaired[a], outcome(index, repaired[a], now)));
            assert(is_repair(plan.matched@[b], repaired[b], outcome(index, repaired[b], now)));
            lemma_kept_ids_differ(sessions, keep, a, b);
        }
    }
}

/// The line that ends a repair that was written.
pub fn applied_report(n: usize) -> (r: String)
    ensures
        r@ == "applied "@ + decimal(n as nat) + " repaired session(s).\n"@,
{
    let mut r = "applied ".to_owned();
    r.append(size_text(n).as_str());
    r.append(" repaired session(s).\n");
    r
}

/// Whether writing has to be refused because other processes are alive: the message to refuse
/// it with. A dry run is never refused.
pub fn refuse_apply_when_busy(apply: bool, siblings: &[u32], busy: &str) -> (r: Option<String>)
    ensures
        match r {
            Some(message) => apply && siblings@.len() > 0 && message@ == busy@,
            None => !apply || siblings@.len() == 0,
        },
{
    if apply && siblings.len() > 0 {
        Some(busy.to_owned())
    } else {
        None
    }
}

proof fn lemma_kept_is_filter(sessions: Seq<SessionRow>, keep: spec_fn(SessionRow) -> bool)
    ensures
        kept(sessions, keep) == sessions.filter(keep),
    decreases sessions.len(),
{
    reveal(Seq::filter);
    if sessions.len() > 0 {
        lemma_kept_is_filter(sessions.drop_last(), keep);
    }
}

/// What becomes of each session. One without a transcript is unmatched. One whose transcript
/// has no time, or starts more than five minutes ahead of the present, is passed over. Every
/// other one starts anew where its transcript starts. Its end is written exactly where it has
/// one and the end of the transcript is no more than five minutes ahead, whatever the stored
/// end is. All lists keep the order of the sessions.
pub proof fn law_transcripts_decide_every_repair(
    plan: RepairPlan,
    index: Map<Seq<char>, TranscriptTimes>,
    sessions: Seq<SessionRow>,
    now: int,
)
    requires
        is_plan(plan, index, sessions, now),
    ensures
        ({
            let repaired = sessions.filter(
                |s: SessionRow|
                    index.contains_key(s.id@) && index[s.id@] is Found && index[s.id@]->first_us
                        <= now + 300_000_000,
            );
            &&& plan.matched@.len() == repaired.len()
            &&& forall|k: int|
                0 <= k < repaired.len() ==> {
                    let repair = #[trigger] plan.matched@[k];
                    let session = repaired[k];
                    let last_us = index[session.id@]->last_us;
                    &&& repair.session_id@ == session.id@
                    &&& repair.old_started_us == session.started_us
                    &&& repair.old_ended_us == session.ended_us
                    &&& repair.new_started_us == index[session.id@]->first_us
                    &&& repair.new_ended_us is Some <==> session.ended_us is Some && last_us <= now
                        + 300_000_000
                    &&& repair.new_ended_us is Some ==> repair.new_ended_us->Some_0 == last_us
                }
        }),
        ({
            let alone = sessions.filter(|s: SessionRow| !index.contains_key(s.id@));
            &&& plan.unmatched@.len() == alone.len()
            &&& forall|k: int|
                0 <= k < alone.len() ==> (#[trigger] plan.unmatched@[k])@ == alone[k].id@
        }),
        ({
            let timeless = sessions.filter(
                |s: SessionRow| index.contains_key(s.id@) && index[s.id@] is NoTimestamps,
            );
            &&& plan.skipped_no_timestamps@.len() == timeless.len()
            &&& forall|k: int|
                0 <= k < timeless.len() ==> (#[trigger] plan.skipped_no_timestamps@[k])@
                    == timeless[k].id@
        }),
        ({
            let ahead = sessions.filter(
                |s: SessionRow|
                    index.contains_key(s.id@) && index[s.id@] is Found && index[s.id@]->first_us
                        > now + 300_000_000,
            );
            &&& plan.skipped_future@.len() == ahead.len()
            &&& forall|k: int|
                0 <= k < ahead.len() ==> (#[trigger] plan.skipped_future@[k])@ == ahead[k].id@
        }),
{
    let repaired = |s: SessionRow|
        index.contains_key(s.id@) && index[s.id@] is Found && index[s.id@]->first_us <= now
            + 300_000_000;
    let alone = |s: SessionRow| !index.contains_key(s.id@);
    let timeless = |s: SessionRow| index.contains_key(s.id@) && index[s.id@] is NoTimestamps;
    let ahead = |s: SessionRow|
        index.contains_key(s.id@) && index[s.id@] is Found && index[s.id@]->first_us > now
            + 300_000_000;
    let matched = |s: SessionRow| outcome(index, s, now) is Matched;
    let unmatched = |s: SessionRow| outcome(index, s, now) is Unmatched;
    let bare = |s: SessionRow| outcome(index, s, now) is NoTimestamps;
    let future = |s: SessionRow| outcome(index, s, now) is Future;
    assert(matched =~= repaired);
    assert(unmatched =~= alone);
    assert(bare =~= timeless);
    assert(future =~= ahead);
    lemma_kept_is_filter(sessions, matched);
    lemma_kept_is_filter(sessions, unmatched);
    lemma_kept_is_filter(sessions, bare);
    lemma_kept_is_filter(sessions, future);
    let there = sessions.filter(repaired);
    assert forall|k: int| 0 <= k < there.len() implies is_repair(
        #[trigger] plan.matched@[k],
        there[k],
        outcome(index, there[k], now),
    ) && repaired(there[k]) by {
        sessions.lemma_filter_pred(repaired, k);
    }
    let a = sessions.filter(alone);
    assert(views(plan.unmatched@).len() == ids(a).len());
    assert(plan.unmatched@.len() == a.len());
    assert forall|k: int| 0 <= k < a.len() implies (#[trigger] plan.unmatched@[k])@ == a[k].id@ by {
        assert(views(plan.unmatched@)[k] == ids(a)[k]);
        assert(ids(a)[k] == a[k].id@);
    }
    let b = sessions.filter(timeless);
    assert(views(plan.skipped_no_timestamps@).len() == ids(b).len());
    assert(plan.skipped_no_timestamps@.len() == b.len());
    assert forall|k: int| 0 <= k < b.len() implies (#[trigger] plan.skipped_no_timestamps@[k])@
        == b[k].id@ by {
        assert(views(plan.skipped_no_timestamps@)[k] == ids(b)[k]);
        assert(ids(b)[k] == b[k].id@);
    }
    let c = sessions.filter(ahead);
    assert(views(plan.skipped_future@).len() == ids(c).len());
    assert(plan.skipped_future@.len() == c.len());
    assert forall|k: int| 0 <= k < c.len() implies (#[trigger] plan.skipped_future@[k])@
        == c[k].id@ by {
        assert(views(plan.skipped_future@)[k] == ids(c)[k]);
        assert(ids(c)[k] == c[k].id@);
    }
}

/// The ranges of a report are those between which the repaired sessions start, before and
/// after, and some session starts at each end of them.
pub proof fn law_ranges_span_the_repairs(ranges: Option<StartRanges>, repairs: Seq<PlannedRepair>)
    requires
        are_ranges(ranges, repairs),
    ensures
        ranges is Some <==> repairs.len() > 0,
        forall|k: int|
            0 <= k < repairs.len() ==> {
                let r = ranges->Some_0;
                &&& r.before_min <= (#[trigger] repairs[k]).old_started_us <= r.before_max
                &&& r.after_min <= repairs[k].new_started_us <= r.after_max
            },
        ranges is Some ==> {
            let r = ranges->Some_0;
            &&& exists|k: int|
                0 <= k < repairs.len() && (#[trigger] repairs[k]).old_started_us == r.before_min
            &&& exists|k: int|
                0 <= k < repairs.len() && (#[trigger] repairs[k]).old_started_us == r.before_max
            &&& exists|k: int|
                0 <= k < repairs.len() && (#[trigger] repairs[k]).new_started_us == r.after_min
            &&& exists|k: int|
                0 <= k < repairs.len() && (#[trigger] repairs[k]).new_started_us == r.after_max
        },
{
    let (old, new) = (old_starts(repairs), new_starts(repairs));
    assert forall|k: int| 0 <= k < repairs.len() implies {
        let r = ranges->Some_0;
        &&& r.before_min <= (#[trigger] repairs[k]).old_started_us <= r.before_max
        &&& r.after_min <= repairs[k].new_started_us <= r.after_max
    } by {
        assert(old[k] == repairs[k].old_started_us);
        assert(new[k] == repairs[k].new_started_us);
    }
    if let Some(r) = ranges {
        let a = choose|k: int| 0 <= k < old.len() && old[k] == r.before_min;
        let b = choose|k: int| 0 <= k < old.len() && old[k] == r.before_max;
        let c = choose|k: int| 0 <= k < new.len() && new[k] == r.after_min;
        let d = choose|k: int| 0 <= k < new.len() && new[k] == r.after_max;
        assert(repairs[a].old_started_us == r.before_min);
        assert(repairs[b].old_started_us == r.before_max);
        assert(repairs[c].new_started_us == r.after_min);
        assert(repairs[d].new_started_us == r.after_max);
    }
}

/// A report starts with its counts. The ranges follow where there are any, and last that
/// nothing was written where nothing was.
pub proof fn law_report_is_made_of_its_lines(
    workspace: Seq<char>,
    project: Seq<char>,
    counts: PlanCounts,
    r: StartRanges,
    ranges: Option<StartRanges>,
)
    ensures
        report(workspace, project, counts, ranges, false) == report(
            workspace,
            project,
            counts,
            ranges,
            true,
        ) + "  dry run: nothing was written. Take a backup (`ai-memory backup`) with the server stopped, then re-run with --apply.\n"@,
        report(workspace, project, counts, Some(r), true) == report(
            workspace,
            project,
            counts,
            None,
            true,
        ) + "  date range before: "@ + us_text(r.before_min) + " .. "@ + us_text(r.before_max)
            + "\n  date range after:  "@ + us_text(r.after_min) + " .. "@ + us_text(r.after_max)
            + "\n"@,
        report(workspace, project, counts, None, true)
            == "ai-memory: repair-backfill-timestamps for "@ + workspace + "/"@ + project + ": "@
            + decimal(counts.matched as nat) + " session(s) matched, "@ + decimal(
            counts.unmatched as nat,
        ) + " unmatched (no transcript found), "@ + decimal(counts.no_timestamps as nat)
            + " skipped (transcript has no timestamps), "@ + decimal(counts.future as nat)
            + " skipped (would move into the future).\n"@,
{
    assert(report(workspace, project, counts, None, true) =~= counts_line(
        workspace,
        project,
        counts,
    ));
    assert(report(workspace, project, counts, Some(r), true) =~= counts_line(
        workspace,
        project,
        counts,
    ) + "  date range before: "@ + us_text(r.before_min) + " .. "@ + us_text(r.before_max)
        + "\n  date range after:  "@ + us_text(r.after_min) + " .. "@ + us_text(r.after_max) + "\n"@);
}

} // verus!
