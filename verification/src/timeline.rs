//! The timeline of a project: its sessions by day, and what they produced.

use vstd::prelude::*;
use vstd::string::*;

use crate::clock::date_of;
use crate::clock::day_key;
use crate::clock::day_of;
use crate::clock::has_date;
use crate::clock::law_dates_tell_days_apart;
use crate::clock::EARLIEST_US;
use crate::clock::LATEST_US;
use crate::clock::MICROS_PER_DAY;
use crate::href::page_href;
use crate::href::page_link;
use crate::href::project_href;
use crate::href::project_link;
use crate::labels::is_listed;
use crate::labels::kind_label;
use crate::labels::kind_label_pt;
use crate::labels::plural;
use crate::labels::plural_pt;
use crate::labels::PageKind;
use crate::number::decimal;
use crate::number::decimal_text;
use crate::number::parse_signed;
use crate::number::signed_decimal;
use crate::number::signed_text;
use crate::number::signed_value;
use crate::number::zero_padded;
use crate::order::ascending;
use crate::order::distinct_sorted;
use crate::order::in_order;
use crate::order::law_sorted_distinct_exists;
use crate::order::lemma_in_order_unique;
use crate::order::sort_ranked;
use crate::order::sorted_distinct;
use crate::order::Ranking;
use crate::order::text_before;
use crate::overview::lemma_unlisted_has;
use crate::overview::unlisted;
use crate::overview::unlisted_kinds;
use crate::session_id::hyphenated;
use crate::session_id::stored_session_id;
use crate::tally::count_in;
use crate::tally::count_text;
use crate::tally::lemma_counts_add_up;
use crate::tally::lemma_occurrences_bound;
use crate::tally::lookup_count;
use crate::tally::occurrences;
use crate::tally::occurrences_of_all;
use crate::tally::DayTally;
use crate::tally::KindTally;
use crate::text::join;
use crate::text::joined;
use crate::text::trim;
use crate::text::trimmed;
use crate::utf8::lemma_views_push;
use crate::utf8::str_eq;
use crate::utf8::views;

verus! {

/// The window that is shown where none that is allowed was asked for.
pub const DEFAULT_DIAS: i64 = 30;

/// A page that a session produced.
#[derive(Debug, Clone)]
pub struct ProducedPage {
    pub path: String,
    pub title: String,
    pub kind: String,
}

/// What a produced page holds.
pub struct ProducedModel {
    pub path: Seq<char>,
    pub title: Seq<char>,
    pub kind: Seq<char>,
}

impl View for ProducedPage {
    type V = ProducedModel;

    open spec fn view(&self) -> ProducedModel {
        ProducedModel { path: self.path@, title: self.title@, kind: self.kind@ }
    }
}

pub open spec fn produced_models(pages: Seq<ProducedPage>) -> Seq<ProducedModel> {
    pages.map_values(|p: ProducedPage| p@)
}

/// A session with the pages that it produced.
#[derive(Debug, Clone)]
pub struct TimelineSession {
    /// Identifier in its canonical form.
    pub id: String,
    pub agent: String,
    pub started_us: i64,
    /// The end; none while the session is open.
    pub ended_us: Option<i64>,
    /// Number of observations at the end; none while the session is open, when the stored
    /// number means nothing.
    pub observations: Option<i64>,
    pub produced: Vec<ProducedPage>,
}

/// A session as it is stored.
#[derive(Debug)]
pub struct RawSessionRow {
    pub id_bytes: Vec<u8>,
    pub agent: String,
    pub started_us: i64,
    pub ended_us: Option<i64>,
    pub ended_observation_count: i64,
}

/// A page that cites a session.
#[derive(Debug)]
pub struct SessionEvidence {
    pub source_id: String,
    pub page: ProducedPage,
}

/// A stored identifier that has not sixteen bytes.
#[derive(Debug, Clone, Copy)]
pub struct BadSessionId {
    pub len: usize,
}

/// A produced page with its link.
#[derive(Debug)]
pub struct ProducedPageRow {
    pub path: String,
    pub title: String,
    pub kind: String,
    pub href: String,
}

/// A session with its labels.
#[derive(Debug)]
pub struct TimelineSessionRow {
    pub agent: String,
    pub duration_label: String,
    pub observations_label: String,
    pub produced: Vec<ProducedPageRow>,
}

/// A day with its sessions.
#[derive(Debug)]
pub struct TimelineDay {
    pub date: String,
    /// Number of sessions that started on the day.
    pub count: usize,
    /// That number as a percentage of that of the busiest day.
    pub pct: usize,
    pub sessions_label: String,
    /// What the day produced, by kind.
    pub kind_summary: String,
    pub sessions: Vec<TimelineSessionRow>,
}

/// The timeline of a project as it is shown.
#[derive(Debug)]
pub struct TimelineView {
    pub workspace: String,
    pub project: String,
    pub base_href: String,
    /// The tab that is active.
    pub aba: &'static str,
    /// The window in days.
    pub dias: i64,
    pub days: Vec<TimelineDay>,
}

/// `s` is a stored session, without what it produced.
pub open spec fn is_session(s: TimelineSession, row: RawSessionRow) -> bool {
    &&& row.id_bytes@.len() == 16
    &&& s.id@ == hyphenated(row.id_bytes@)
    &&& s.agent@ == row.agent@
    &&& s.started_us == row.started_us
    &&& s.ended_us == row.ended_us
    &&& s.observations == if row.ended_us is Some {
        Some(row.ended_observation_count)
    } else {
        None
    }
    &&& s.produced@.len() == 0
}

/// The pages that cite a session, in order.
pub open spec fn pages_citing(evidence: Seq<SessionEvidence>, id: Seq<char>) -> Seq<ProducedModel>
    decreases evidence.len(),
{
    if evidence.len() == 0 {
        Seq::empty()
    } else if evidence.last().source_id@ == id {
        pages_citing(evidence.drop_last(), id).push(evidence.last().page@)
    } else {
        pages_citing(evidence.drop_last(), id)
    }
}

/// Whether no session before number `k` has its identifier.
pub open spec fn is_first_of_id(sessions: Seq<TimelineSession>, k: int) -> bool {
    forall|j: int| 0 <= j < k ==> (#[trigger] sessions[j]).id@ != sessions[k].id@
}

/// `s` is session `k`, with the pages that cite it where some do.
pub open spec fn is_attached(
    s: TimelineSession,
    sessions: Seq<TimelineSession>,
    k: int,
    evidence: Seq<SessionEvidence>,
) -> bool {
    let of = sessions[k];
    let cited = pages_citing(evidence, of.id@);
    &&& s.id@ == of.id@
    &&& s.agent@ == of.agent@
    &&& s.started_us == of.started_us
    &&& s.ended_us == of.ended_us
    &&& s.observations == of.observations
    &&& produced_models(s.produced@) == if is_first_of_id(sessions, k) && cited.len() > 0 {
        cited
    } else {
        produced_models(of.produced@)
    }
}

/// How long a session lasted: in seconds, or in minutes, or in hours and two digits of minutes.
pub open spec fn duration_text(started: int, ended: Option<i64>) -> Seq<char> {
    match ended {
        None => "em aberto"@,
        Some(end) => {
            let secs = if end > started {
                ((end - started) / 1_000_000) as nat
            } else {
                0
            };
            let mins = secs / 60;
            let hours = mins / 60;
            if secs < 60 {
                decimal(secs) + "s"@
            } else if mins < 60 {
                decimal(mins) + "min"@
            } else {
                decimal(hours) + "h "@ + zero_padded(mins % 60, 2) + "min"@
            }
        },
    }
}

/// A number of observations, or a dash for an open session.
pub open spec fn observations_text(observations: Option<i64>) -> Seq<char> {
    match observations {
        Some(n) => signed_decimal(n as int),
        None => "—"@,
    }
}

/// The window that a request stands for.
pub open spec fn window_days(raw: Option<Seq<char>>) -> i64 {
    match raw {
        Some(text) => match signed_value(trimmed(text)) {
            Some(n) => if n == 7 || n == 30 || n == 90 {
                n as i64
            } else {
                DEFAULT_DIAS
            },
            None => DEFAULT_DIAS,
        },
        None => DEFAULT_DIAS,
    }
}

/// The tallies of a day; none where it has no entry. The first entry counts.
pub open spec fn tallies_on(counts: Seq<DayTally>, date: Seq<char>) -> Option<Seq<KindTally>>
    decreases counts.len(),
{
    if counts.len() == 0 {
        None
    } else if counts[0].date@ == date {
        Some(counts[0].kinds@)
    } else {
        tallies_on(counts.drop_first(), date)
    }
}

pub open spec fn tally_kinds(tallies: Seq<KindTally>) -> Seq<Seq<char>> {
    tallies.map_values(|t: KindTally| t.kind@)
}

/// The labels of the first `n` listed kinds, without those of which there is none.
pub open spec fn listed_parts(kinds: Seq<PageKind>, n: nat, tallies: Seq<KindTally>) -> Seq<
    Seq<char>,
>
    decreases n,
{
    if n == 0 {
        Seq::empty()
    } else {
        let kind = kinds[n - 1].kind@;
        let before = listed_parts(kinds, (n - 1) as nat, tallies);
        if count_in(tallies, kind) > 0 {
            before.push(kind_label(kinds, kind, count_in(tallies, kind)))
        } else {
            before
        }
    }
}

/// The labels of kinds, without those of which there is none.
pub open spec fn named_parts(
    kinds: Seq<PageKind>,
    names: Seq<Seq<char>>,
    tallies: Seq<KindTally>,
) -> Seq<Seq<char>>
    decreases names.len(),
{
    if names.len() == 0 {
        Seq::empty()
    } else {
        let kind = names.last();
        let before = named_parts(kinds, names.drop_last(), tallies);
        if count_in(tallies, kind) > 0 {
            before.push(kind_label(kinds, kind, count_in(tallies, kind)))
        } else {
            before
        }
    }
}

/// The labels of what a day produced: the listed kinds first, then the others in ascending
/// order.
pub open spec fn summary_parts(kinds: Seq<PageKind>, tallies: Seq<KindTally>) -> Seq<Seq<char>> {
    listed_parts(kinds, kinds.len(), tallies) + named_parts(
        kinds,
        sorted_distinct(unlisted(kinds, tally_kinds(tallies))),
        tallies,
    )
}

/// What a day produced.
pub open spec fn day_summary(
    date: Seq<char>,
    counts: Seq<DayTally>,
    kinds: Seq<PageKind>,
) -> Seq<char> {
    match tallies_on(counts, date) {
        Some(tallies) => joined(summary_parts(kinds, tallies), " · "@),
        None => Seq::empty(),
    }
}

/// The numbers of the items that fall on a day.
pub open spec fn numbers_on(days: Seq<Seq<char>>, day: Seq<char>) -> Seq<int>
    decreases days.len(),
{
    if days.len() == 0 {
        Seq::empty()
    } else if days.last() == day {
        numbers_on(days.drop_last(), day).push(days.len() - 1)
    } else {
        numbers_on(days.drop_last(), day)
    }
}

/// The number of items on the busiest of some dates.
pub open spec fn most_on(dates: Seq<Seq<char>>, days: Seq<Seq<char>>) -> nat
    decreases dates.len(),
{
    if dates.len() == 0 {
        0
    } else {
        let before = most_on(dates.drop_last(), days);
        let here = occurrences(days, dates.last());
        if before >= here {
            before
        } else {
            here
        }
    }
}

/// The number of items on the busiest day, and one where there is no item.
pub open spec fn busiest(days: Seq<Seq<char>>) -> nat {
    let most = most_on(sorted_distinct(days), days);
    if most >= 1 {
        most
    } else {
        1
    }
}

/// A part of a whole as a percentage, rounded down, at most a hundred.
pub open spec fn percentage(part: nat, whole: nat) -> nat {
    if part * 100 / whole <= 100 {
        part * 100 / whole
    } else {
        100
    }
}

pub open spec fn is_produced_row(
    row: ProducedPageRow,
    page: ProducedPage,
    workspace: Seq<char>,
    project: Seq<char>,
) -> bool {
    &&& row.path@ == page.path@
    &&& row.title@ == page.title@
    &&& row.kind@ == page.kind@
    &&& row.href@ == page_link(workspace, project, page.path@)
}

/// `row` shows `s`.
pub open spec fn is_session_row(
    row: TimelineSessionRow,
    s: TimelineSession,
    workspace: Seq<char>,
    project: Seq<char>,
) -> bool {
    &&& row.agent@ == s.agent@
    &&& row.duration_label@ == duration_text(s.started_us as int, s.ended_us)
    &&& row.observations_label@ == observations_text(s.observations)
    &&& row.produced@.len() == s.produced@.len()
    &&& forall|m: int|
        0 <= m < s.produced@.len() ==> is_produced_row(
            #[trigger] row.produced@[m],
            s.produced@[m],
            workspace,
            project,
        )
}

/// `day` shows the sessions of a date, in their order, where `days` are the dates of the
/// sessions.
pub open spec fn is_day(
    day: TimelineDay,
    date: Seq<char>,
    sessions: Seq<TimelineSession>,
    days: Seq<Seq<char>>,
    workspace: Seq<char>,
    project: Seq<char>,
    counts: Seq<DayTally>,
    kinds: Seq<PageKind>,
) -> bool {
    let here = numbers_on(days, date);
    &&& day.date@ == date
    &&& day.count == here.len()
    &&& day.pct == percentage(here.len(), busiest(days))
    &&& day.sessions_label@ == plural(here.len(), "sessão"@, "sessões"@)
    &&& day.kind_summary@ == day_summary(date, counts, kinds)
    &&& day.sessions@.len() == here.len()
    &&& forall|m: int|
        0 <= m < here.len() ==> is_session_row(
            #[trigger] day.sessions@[m],
            sessions[here[m]],
            workspace,
            project,
        )
}

/// The dates on which sessions started.
pub open spec fn start_days(sessions: Seq<TimelineSession>) -> Seq<Seq<char>> {
    sessions.map_values(|s: TimelineSession| date_of(s.started_us as int))
}

/// Whether a point in time is shown before another: it is the later one, and one without a
/// date comes last.
pub open spec fn shown_before(us: int, us2: int) -> bool {
    has_date(us) && (!has_date(us2) || us > us2)
}

/// Whether the sessions of one date are shown before those of another.
pub open spec fn date_before(
    sessions: Seq<TimelineSession>,
    date: Seq<char>,
    date2: Seq<char>,
) -> bool {
    let days = start_days(sessions);
    &&& days.contains(date)
    &&& days.contains(date2)
    &&& forall|i: int, j: int|
        0 <= i < days.len() && 0 <= j < days.len() && #[trigger] days[i] == date
            && #[trigger] days[j] == date2 ==> shown_before(
            sessions[i].started_us as int,
            sessions[j].started_us as int,
        )
}

pub open spec fn date_order(sessions: Seq<TimelineSession>) -> spec_fn(
    Seq<char>,
    Seq<char>,
) -> bool {
    |x: Seq<char>, y: Seq<char>| date_before(sessions, x, y)
}

/// `dates` are those of the sessions, each once, the most recent first.
pub open spec fn is_date_order(dates: Seq<Seq<char>>, sessions: Seq<TimelineSession>) -> bool {
    &&& in_order(dates, date_order(sessions))
    &&& forall|t: Seq<char>| #[trigger]
        dates.contains(t) <==> start_days(sessions).contains(t)
}

/// The dates of the sessions, each once, the most recent first.
pub open spec fn timeline_dates(sessions: Seq<TimelineSession>) -> Seq<Seq<char>> {
    choose|dates: Seq<Seq<char>>| is_date_order(dates, sessions)
}

/// `r` shows the sessions by date, the most recent date first.
pub open spec fn is_timeline(
    r: Seq<TimelineDay>,
    sessions: Seq<TimelineSession>,
    workspace: Seq<char>,
    project: Seq<char>,
    counts: Seq<DayTally>,
    kinds: Seq<PageKind>,
) -> bool {
    let dates = timeline_dates(sessions);
    &&& is_date_order(dates, sessions)
    &&& r.len() == dates.len()
    &&& forall|k: int|
        0 <= k < r.len() ==> is_day(
            #[trigger] r[k],
            dates[k],
            sessions,
            start_days(sessions),
            workspace,
            project,
            counts,
            kinds,
        )
}

/// The window that a request stands for: 7, 30 or 90 days, and 30 for anything else.
pub fn clamp_dias(raw: Option<&str>) -> (r: i64)
    ensures
        r == window_days(
            match raw {
                Some(text) => Some(text@),
                None => None,
            },
        ),
{
    match raw {
        Some(text) => match parse_signed(trim(text)) {
            Some(n) => if n == 7 || n == 30 || n == 90 {
                n
            } else {
                DEFAULT_DIAS
            },
            None => DEFAULT_DIAS,
        },
        None => DEFAULT_DIAS,
    }
}

/// The start of a window that ends now.
pub fn window_start(now_us: i64, dias: i64) -> (r: i64)
    requires
        i64::MIN <= dias * MICROS_PER_DAY <= i64::MAX,
        i64::MIN <= now_us - dias * MICROS_PER_DAY <= i64::MAX,
    ensures
        r == now_us - dias * MICROS_PER_DAY,
        now_us - r == dias * 24 * 3600 * 1_000_000,
{
    now_us - dias * MICROS_PER_DAY
}

/// How long a session lasted, or that it is open.
pub fn duration_label(started_us: i64, ended_us: Option<i64>) -> (r: String)
    ensures
        r@ == duration_text(started_us as int, ended_us),
{
    let end: i64 = match ended_us {
        Some(end) => end,
        None => return "em aberto".to_owned(),
    };
    let secs: u64 = if end > started_us {
        ((end as i128 - started_us as i128) / 1_000_000) as u64
    } else {
        0
    };
    if secs < 60 {
        let mut r = decimal_text(secs);
        r.append("s");
        return r;
    }
    let mins: u64 = secs / 60;
    if mins < 60 {
        let mut r = decimal_text(mins);
        r.append("min");
        return r;
    }
    let hours: u64 = mins / 60;
    let rest: u64 = mins % 60;
    let mut r = decimal_text(hours);
    r.append("h ");
    if rest < 10 {
        r.append("0");
    }
    r.append(decimal_text(rest).as_str());
    r.append("min");
    proof {
        reveal_strlit("0");
        reveal_with_fuel(decimal, 3);
        assert(zero_padded(rest as nat, 2) =~= if rest < 10 {
            "0"@ + decimal(rest as nat)
        } else {
            decimal(rest as nat)
        });
        assert(r@ =~= duration_text(started_us as int, ended_us));
    }
    r
}

/// The number of observations, or a dash for an open session.
pub fn observations_label(observations: Option<i64>) -> (r: String)
    ensures
        r@ == observations_text(observations),
{
    match observations {
        Some(n) => signed_text(n),
        None => "—".to_owned(),
    }
}

/// The sessions of a timeline as they are stored, without what they produced. Fails at the
/// first identifier that is none.
pub fn timeline_sessions(rows: &Vec<RawSessionRow>) -> (r: Result<
    Vec<TimelineSession>,
    BadSessionId,
>)
    ensures
        match r {
            Ok(sessions) => sessions@.len() == rows@.len() && forall|k: int|
                0 <= k < rows@.len() ==> is_session(#[trigger] sessions@[k], rows@[k]),
            Err(e) => exists|i: int|
                0 <= i < rows@.len() && (#[trigger] rows@[i]).id_bytes@.len() == e.len && e.len
                    != 16 && forall|j: int|
                    0 <= j < i ==> (#[trigger] rows@[j]).id_bytes@.len() == 16,
        },
{
    let mut out: Vec<TimelineSession> = Vec::new();
    let mut i: usize = 0;
    while i < rows.len()
        invariant
            i <= rows@.len(),
            out@.len() == i,
            forall|k: int| 0 <= k < i ==> is_session(#[trigger] out@[k], rows@[k]),
        decreases rows@.len() - i,
    {
        let row = &rows[i];
        let id = match stored_session_id(row.id_bytes.as_slice()) {
            Some(id) => id,
            None => {
                proof {
                    assert forall|j: int| 0 <= j < i implies (#[trigger] rows@[j]).id_bytes@.len()
                        == 16 by {
                        assert(is_session(out@[j], rows@[j]));
                    }
                }
                return Err(BadSessionId { len: row.id_bytes.len() });
            },
        };
        out.push(
            TimelineSession {
                id,
                agent: row.agent.clone(),
                started_us: row.started_us,
                ended_us: row.ended_us,
                observations: if row.ended_us.is_some() {
                    Some(row.ended_observation_count)
                } else {
                    None
                },
                produced: Vec::new(),
            },
        );
        i = i + 1;
    }
    Ok(out)
}

fn copy_page(page: &ProducedPage) -> (copy: ProducedPage)
    ensures
        copy@ == page@,
{
    ProducedPage { path: page.path.clone(), title: page.title.clone(), kind: page.kind.clone() }
}

fn copy_pages(pages: &Vec<ProducedPage>) -> (copy: Vec<ProducedPage>)
    ensures
        produced_models(copy@) == produced_models(pages@),
{
    let mut out: Vec<ProducedPage> = Vec::new();
    let mut i: usize = 0;
    while i < pages.len()
        invariant
            i <= pages@.len(),
            out@.len() == i,
            forall|k: int| 0 <= k < i ==> (#[trigger] out@[k])@ == pages@[k]@,
        decreases pages@.len() - i,
    {
        out.push(copy_page(&pages[i]));
        i = i + 1;
    }
    assert(produced_models(out@) =~= produced_models(pages@));
    out
}

/// The pages that cite a session.
fn cited_pages(evidence: &Vec<SessionEvidence>, id: &str) -> (pages: Vec<ProducedPage>)
    ensures
        produced_models(pages@) == pages_citing(evidence@, id@),
{
    let mut out: Vec<ProducedPage> = Vec::new();
    let mut i: usize = 0;
    assert(produced_models(out@) =~= Seq::empty());
    while i < evidence.len()
        invariant
            i <= evidence@.len(),
            produced_models(out@) == pages_citing(evidence@.take(i as int), id@),
        decreases evidence@.len() - i,
    {
        assert(evidence@.take(i + 1).drop_last() =~= evidence@.take(i as int));
        if str_eq(evidence[i].source_id.as_str(), id) {
            let page = copy_page(&evidence[i].page);
            assert(produced_models(out@.push(page)) =~= produced_models(out@).push(page@));
            out.push(page);
        }
        i = i + 1;
    }
    assert(evidence@.take(i as int) =~= evidence@);
    out
}

/// Whether no session before number `k` has its identifier.
fn first_of_id(sessions: &Vec<TimelineSession>, k: usize) -> (r: bool)
    requires
        k < sessions@.len(),
    ensures
        r == is_first_of_id(sessions@, k as int),
{
    let mut j: usize = 0;
    while j < k
        invariant
            j <= k < sessions@.len(),
            forall|q: int| 0 <= q < j ==> (#[trigger] sessions@[q]).id@ != sessions@[k as int].id@,
        decreases k - j,
    {
        if sessions[j].id == sessions[k].id {
            return false;
        }
        j = j + 1;
    }
    true
}

/// The sessions of a timeline with the pages that cite them. Of sessions with one identifier
/// the first gets them.
pub fn attach_produced(
    sessions: &Vec<TimelineSession>,
    evidence: &Vec<SessionEvidence>,
) -> (r: Vec<TimelineSession>)
    ensures
        r@.len() == sessions@.len(),
        forall|k: int|
            0 <= k < sessions@.len() ==> is_attached(
                #[trigger] r@[k],
                sessions@,
                k,
                evidence@,
            ),
{
    let mut out: Vec<TimelineSession> = Vec::new();
    let mut i: usize = 0;
    while i < sessions.len()
        invariant
            i <= sessions@.len(),
            out@.len() == i,
            forall|k: int|
                0 <= k < i ==> is_attached(#[trigger] out@[k], sessions@, k, evidence@),
        decreases sessions@.len() - i,
    {
        let s = &sessions[i];
        let cited = cited_pages(evidence, s.id.as_str());
        assert(produced_models(cited@).len() == cited@.len());
        let produced = if cited.len() > 0 && first_of_id(sessions, i) {
            cited
        } else {
            copy_pages(&s.produced)
        };
        out.push(
            TimelineSession {
                id: s.id.clone(),
                agent: s.agent.clone(),
                started_us: s.started_us,
                ended_us: s.ended_us,
                observations: s.observations,
                produced,
            },
        );
        i = i + 1;
    }
    out
}

fn kinds_in(tallies: &Vec<KindTally>) -> (r: Vec<String>)
    ensures
        views(r@) == tally_kinds(tallies@),
{
    let mut out: Vec<String> = Vec::new();
    let mut i: usize = 0;
    while i < tallies.len()
        invariant
            i <= tallies@.len(),
            out@.len() == i,
            forall|k: int| 0 <= k < i ==> (#[trigger] out@[k])@ == tallies@[k].kind@,
        decreases tallies@.len() - i,
    {
        out.push(tallies[i].kind.clone());
        i = i + 1;
    }
    assert(views(out@) =~= tally_kinds(tallies@));
    out
}

/// The labels of what a day produced.
fn summary_labels(tallies: &Vec<KindTally>, kinds: &Vec<PageKind>) -> (r: Vec<String>)
    ensures
        views(r@) == summary_parts(kinds@, tallies@),
{
    broadcast use lemma_views_push;

    let mut parts: Vec<String> = Vec::new();
    let mut i: usize = 0;
    assert(views(parts@) =~= Seq::empty());
    while i < kinds.len()
        invariant
            i <= kinds@.len(),
            views(parts@) == listed_parts(kinds@, i as nat, tallies@),
        decreases kinds@.len() - i,
    {
        let n: usize = lookup_count(tallies, kinds[i].kind.as_str());
        if n > 0 {
            parts.push(kind_label_pt(kinds, kinds[i].kind.as_str(), n));
        }
        i = i + 1;
    }
    let ghost listed = views(parts@);
    let extra = distinct_sorted(&unlisted_kinds(kinds, &kinds_in(tallies)));
    let mut j: usize = 0;
    assert(listed =~= listed + named_parts(kinds@, views(extra@).take(0), tallies@));
    while j < extra.len()
        invariant
            j <= extra@.len(),
            views(parts@) == listed + named_parts(
                kinds@,
                views(extra@).take(j as int),
                tallies@,
            ),
        decreases extra@.len() - j,
    {
        assert(views(extra@).take(j + 1).drop_last() =~= views(extra@).take(j as int));
        assert(views(extra@).take(j + 1).last() == extra@[j as int]@);
        let n: usize = lookup_count(tallies, extra[j].as_str());
        let ghost named = named_parts(kinds@, views(extra@).take(j as int), tallies@);
        if n > 0 {
            let label = kind_label_pt(kinds, extra[j].as_str(), n);
            assert((listed + named).push(label@) =~= listed + named.push(label@));
            parts.push(label);
        }
        j = j + 1;
    }
    assert(views(extra@).take(j as int) =~= views(extra@));
    parts
}

/// What a day produced, by kind: the listed kinds first, then the others in ascending order.
/// Nothing where the day has no entry.
pub fn day_kind_summary(
    date: &str,
    counts_by_day: &Vec<DayTally>,
    kinds: &Vec<PageKind>,
) -> (r: String)
    ensures
        r@ == day_summary(date@, counts_by_day@, kinds@),
{
    let mut i: usize = 0;
    assert(counts_by_day@.skip(0) =~= counts_by_day@);
    while i < counts_by_day.len()
        invariant
            i <= counts_by_day@.len(),
            tallies_on(counts_by_day@.skip(i as int), date@) == tallies_on(counts_by_day@, date@),
        decreases counts_by_day@.len() - i,
    {
        assert(counts_by_day@.skip(i as int)[0] == counts_by_day@[i as int]);
        assert(counts_by_day@.skip(i as int).drop_first() =~= counts_by_day@.skip(i + 1));
        if str_eq(counts_by_day[i].date.as_str(), date) {
            let parts = summary_labels(&counts_by_day[i].kinds, kinds);
            return join(&parts, " · ");
        }
        i = i + 1;
    }
    String::new()
}

fn produced_rows(workspace: &str, project: &str, pages: &Vec<ProducedPage>) -> (rows: Vec<
    ProducedPageRow,
>)
    ensures
        rows@.len() == pages@.len(),
        forall|m: int|
            0 <= m < pages@.len() ==> is_produced_row(
                #[trigger] rows@[m],
                pages@[m],
                workspace@,
                project@,
            ),
{
    let mut rows: Vec<ProducedPageRow> = Vec::new();
    let mut i: usize = 0;
    while i < pages.len()
        invariant
            i <= pages@.len(),
            rows@.len() == i,
            forall|m: int|
                0 <= m < i ==> is_produced_row(
                    #[trigger] rows@[m],
                    pages@[m],
                    workspace@,
                    project@,
                ),
        decreases pages@.len() - i,
    {
        let page = &pages[i];
        rows.push(
            ProducedPageRow {
                path: page.path.clone(),
                title: page.title.clone(),
                kind: page.kind.clone(),
                href: page_href(workspace, project, page.path.as_str()),
            },
        );
        i = i + 1;
    }
    rows
}

fn session_row(workspace: &str, project: &str, s: &TimelineSession) -> (row: TimelineSessionRow)
    ensures
        is_session_row(row, *s, workspace@, project@),
{
    TimelineSessionRow {
        agent: s.agent.clone(),
        duration_label: duration_label(s.started_us, s.ended_us),
        observations_label: observations_label(s.observations),
        produced: produced_rows(workspace, project, &s.produced),
    }
}

proof fn lemma_numbers_on(days: Seq<Seq<char>>, day: Seq<char>)
    ensures
        numbers_on(days, day).len() == occurrences(days, day),
        forall|m: int|
            0 <= m < numbers_on(days, day).len() ==> 0 <= #[trigger] numbers_on(days, day)[m]
                < days.len(),
    decreases days.len(),
{
    if days.len() > 0 {
        lemma_numbers_on(days.drop_last(), day);
    }
}

/// The sessions of a date, in their order.
fn rows_on(
    workspace: &str,
    project: &str,
    sessions: &Vec<TimelineSession>,
    days: &Vec<String>,
    date: &str,
) -> (rows: Vec<TimelineSessionRow>)
    requires
        days@.len() == sessions@.len(),
    ensures
        ({
            let here = numbers_on(views(days@), date@);
            &&& rows@.len() == here.len()
            &&& forall|m: int|
                0 <= m < here.len() ==> is_session_row(
                    #[trigger] rows@[m],
                    sessions@[here[m]],
                    workspace@,
                    project@,
                )
        }),
{
    let mut rows: Vec<TimelineSessionRow> = Vec::new();
    let mut i: usize = 0;
    while i < days.len()
        invariant
            i <= days@.len(),
            days@.len() == sessions@.len(),
            rows@.len() == numbers_on(views(days@).take(i as int), date@).len(),
            forall|m: int|
                0 <= m < rows@.len() ==> is_session_row(
                    #[trigger] rows@[m],
                    sessions@[numbers_on(views(days@).take(i as int), date@)[m]],
                    workspace@,
                    project@,
                ),
        decreases days@.len() - i,
    {
        assert(views(days@).take(i + 1).drop_last() =~= views(days@).take(i as int));
        if str_eq(days[i].as_str(), date) {
            rows.push(session_row(workspace, project, &sessions[i]));
        }
        i = i + 1;
    }
    assert(views(days@).take(i as int) =~= views(days@));
    rows
}

/// The number of sessions on the busiest day, at least one.
fn busiest_day(days: &Vec<String>, dates: &Vec<String>) -> (n: usize)
    requires
        views(dates@) == sorted_distinct(views(days@)),
    ensures
        n == busiest(views(days@)),
        n >= 1,
{
    let mut most: usize = 0;
    let mut k: usize = 0;
    while k < dates.len()
        invariant
            k <= dates@.len(),
            most == most_on(views(dates@).take(k as int), views(days@)),
        decreases dates@.len() - k,
    {
        assert(views(dates@).take(k + 1).drop_last() =~= views(dates@).take(k as int));
        let n: usize = count_text(days, dates[k].as_str());
        if n > most {
            most = n;
        }
        k = k + 1;
    }
    assert(views(dates@).take(k as int) =~= views(dates@));
    if most >= 1 {
        most
    } else {
        1
    }
}

/// A part of a whole as a percentage, rounded down, at most a hundred.
pub fn percent(part: usize, whole: usize) -> (r: usize)
    requires
        whole > 0,
    ensures
        r == percentage(part as nat, whole as nat),
{
    let share: u128 = part as u128 * 100 / whole as u128;
    if share <= 100 {
        share as usize
    } else {
        100
    }
}

/// Sessions by when they started, the last first.
struct StartRank<'a> {
    sessions: &'a Vec<TimelineSession>,
}

impl<'a> Ranking for StartRank<'a> {
    closed spec fn size(&self) -> nat {
        self.sessions@.len()
    }

    closed spec fn precedes(&self, i: int, j: int) -> bool {
        let (us, us2) = (self.sessions@[i].started_us as int, self.sessions@[j].started_us as int);
        shown_before(us, us2) || !shown_before(us2, us) && i < j
    }

    proof fn lemma_strict_total(&self) {
    }

    fn before(&self, i: usize, j: usize) -> (r: bool) {
        let us: i64 = self.sessions[i].started_us;
        let us2: i64 = self.sessions[j].started_us;
        shows_first(us, us2) || (!shows_first(us2, us) && i < j)
    }
}

fn shows_first(us: i64, us2: i64) -> (r: bool)
    ensures
        r == shown_before(us as int, us2 as int),
{
    let dated = EARLIEST_US <= us && us <= LATEST_US;
    let dated2 = EARLIEST_US <= us2 && us2 <= LATEST_US;
    dated && (!dated2 || us > us2)
}

/// One of the numbers is that of a date.
spec fn lists_date(numbers: Seq<usize>, days: Seq<String>, date: Seq<char>) -> bool {
    exists|k: int| 0 <= k < numbers.len() && days[(#[trigger] numbers[k]) as int]@ == date
}

/// The number of the first session of each date.
fn first_numbers(days: &Vec<String>) -> (out: Vec<usize>)
    ensures
        out@.no_duplicates(),
        forall|k: int| 0 <= k < out@.len() ==> #[trigger] out@[k] < days@.len(),
        forall|a: int, b: int|
            0 <= a < b < out@.len() ==> days@[(#[trigger] out@[a]) as int]@
                != days@[(#[trigger] out@[b]) as int]@,
        forall|i: int| 0 <= i < days@.len() ==> lists_date(out@, days@, (#[trigger] days@[i])@),
{
    let mut out: Vec<usize> = Vec::new();
    let mut i: usize = 0;
    while i < days.len()
        invariant
            i <= days@.len(),
            forall|k: int| 0 <= k < out@.len() ==> #[trigger] out@[k] < i,
            forall|a: int, b: int|
                0 <= a < b < out@.len() ==> days@[(#[trigger] out@[a]) as int]@
                    != days@[(#[trigger] out@[b]) as int]@,
            forall|q: int| 0 <= q < i ==> lists_date(out@, days@, (#[trigger] days@[q])@),
        decreases days@.len() - i,
    {
        let ghost before = out@;
        let mut known = false;
        let mut k: usize = 0;
        while k < out.len() && !known
            invariant
                k <= out@.len(),
                i < days@.len(),
                forall|k: int| 0 <= k < out@.len() ==> #[trigger] out@[k] < i,
                known ==> lists_date(out@, days@, days@[i as int]@),
                !known ==> forall|q: int|
                    0 <= q < k ==> days@[(#[trigger] out@[q]) as int]@ != days@[i as int]@,
            decreases out@.len() - k, !known as nat,
        {
            if str_eq(days[out[k]].as_str(), days[i].as_str()) {
                known = true;
            } else {
                k = k + 1;
            }
        }
        if !known {
            out.push(i);
        }
        proof {
            assert forall|q: int| 0 <= q < i + 1 implies lists_date(
                out@,
                days@,
                (#[trigger] days@[q])@,
            ) by {
                if q < i {
                    let k = choose|k: int|
                        0 <= k < before.len() && days@[(#[trigger] before[k]) as int]@
                            == days@[q]@;
                    assert(out@[k] == before[k]);
                } else if !known {
                    assert(out@[out@.len() - 1] == i);
                }
            }
        }
        i = i + 1;
    }
    out
}

/// Where the first session of a date is shown before that of another, all of them are.
proof fn lemma_first_decides(us: int, first: int, us2: int, first2: int)
    requires
        date_of(us) == date_of(first),
        date_of(us2) == date_of(first2),
        date_of(first) != date_of(first2),
        !shown_before(first2, first),
    ensures
        shown_before(us, us2),
{
    if has_date(us) {
        law_dates_tell_days_apart(us, us);
    }
    if has_date(us2) {
        law_dates_tell_days_apart(us2, us2);
    }
    if has_date(first) {
        law_dates_tell_days_apart(first, first);
    }
    if has_date(first2) {
        law_dates_tell_days_apart(first2, first2);
    }
    if has_date(us) && has_date(us2) {
        law_dates_tell_days_apart(us, first);
        law_dates_tell_days_apart(us2, first2);
        law_dates_tell_days_apart(first, first2);
    }
}

/// The dates of the sessions, the most recent first, where `days` are the dates on which they
/// started.
fn ordered_dates(sessions: &Vec<TimelineSession>, days: &Vec<String>) -> (dates: Vec<String>)
    requires
        views(days@) == start_days(sessions@),
    ensures
        views(dates@) == timeline_dates(sessions@),
        is_date_order(views(dates@), sessions@),
{
    let firsts = first_numbers(days);
    let rank = StartRank { sessions };
    assert(views(days@).len() == days@.len());
    let order = sort_ranked(&rank, &firsts);
    assert forall|q: int| 0 <= q < order@.len() implies #[trigger] order@[q] < days@.len() by {
        assert(order@.contains(order@[q]));
        assert(firsts@.contains(order@[q]));
    }
    let mut dates: Vec<String> = Vec::new();
    let mut k: usize = 0;
    while k < order.len()
        invariant
            k <= order@.len(),
            forall|q: int| 0 <= q < order@.len() ==> #[trigger] order@[q] < days@.len(),
            dates@.len() == k,
            forall|q: int|
                0 <= q < k ==> (#[trigger] dates@[q])@ == days@[order@[q] as int]@,
        decreases order@.len() - k,
    {
        dates.push(days[order[k]].clone());
        k = k + 1;
    }
    proof {
        let all = start_days(sessions@);
        let list = views(dates@);
        assert forall|q: int| 0 <= q < order@.len() implies firsts@.contains(
            #[trigger] order@[q],
        ) by {
            assert(order@.contains(order@[q]));
        }
        assert forall|a: int, b: int| 0 <= a < b < list.len() implies date_order(sessions@)(
            #[trigger] list[a],
            #[trigger] list[b],
        ) by {
            let (p, q) = (order@[a], order@[b]);
            assert(rank.precedes(p as int, q as int));
            rank.lemma_strict_total();
            assert(p != q);
            let x = choose|x: int| 0 <= x < firsts@.len() && firsts@[x] == p;
            let y = choose|y: int| 0 <= y < firsts@.len() && firsts@[y] == q;
            assert(days@[p as int]@ != days@[q as int]@) by {
                if x < y {
                    assert(days@[firsts@[x] as int]@ != days@[firsts@[y] as int]@);
                } else {
                    assert(days@[firsts@[y] as int]@ != days@[firsts@[x] as int]@);
                }
            }
            assert(all[p as int] == views(days@)[p as int]);
            assert(all[q as int] == views(days@)[q as int]);
            assert(all.contains(all[p as int]) && all.contains(all[q as int]));
            assert forall|i: int, j: int|
                0 <= i < all.len() && 0 <= j < all.len() && #[trigger] all[i] == list[a]
                    && #[trigger] all[j] == list[b] implies shown_before(
                sessions@[i].started_us as int,
                sessions@[j].started_us as int,
            ) by {
                lemma_first_decides(
                    sessions@[i].started_us as int,
                    sessions@[p as int].started_us as int,
                    sessions@[j].started_us as int,
                    sessions@[q as int].started_us as int,
                );
            }
        }
        assert forall|t: Seq<char>| #[trigger] list.contains(t) <==> all.contains(t) by {
            if list.contains(t) {
                let k = choose|k: int| 0 <= k < list.len() && list[k] == t;
                assert(dates@[k]@ == t);
                assert(views(days@)[order@[k] as int] == t);
                assert(all[order@[k] as int] == t);
            }
            if all.contains(t) {
                let i = choose|i: int| 0 <= i < all.len() && all[i] == t;
                assert(views(days@)[i] == days@[i]@);
                assert(lists_date(firsts@, days@, days@[i]@));
                let x = choose|x: int|
                    0 <= x < firsts@.len() && days@[(#[trigger] firsts@[x]) as int]@ == days@[i]@;
                assert(firsts@.contains(firsts@[x]));
                assert(order@.contains(firsts@[x]));
                let k = choose|k: int| 0 <= k < order@.len() && order@[k] == firsts@[x];
                assert(dates@[k]@ == t);
                assert(list[k] == t);
            }
        }
        assert(is_date_order(list, sessions@));
        law_date_order_is_unique(list, timeline_dates(sessions@), sessions@);
    }
    dates
}

/// There is one order only in which the dates of sessions go back in time.
pub proof fn law_date_order_is_unique(
    a: Seq<Seq<char>>,
    b: Seq<Seq<char>>,
    sessions: Seq<TimelineSession>,
)
    requires
        is_date_order(a, sessions),
        is_date_order(b, sessions),
    ensures
        a == b,
{
    let before = date_order(sessions);
    let days = start_days(sessions);
    assert forall|x: Seq<char>, y: Seq<char>| #[trigger] before(x, y) implies !before(y, x) by {
        let i = choose|i: int| 0 <= i < days.len() && days[i] == x;
        let j = choose|j: int| 0 <= j < days.len() && days[j] == y;
        assert(days[i] == x && days[j] == y);
    }
    assert forall|x: Seq<char>| a.contains(x) <==> b.contains(x) by {
        assert(a.contains(x) <==> days.contains(x));
        assert(b.contains(x) <==> days.contains(x));
    }
    lemma_in_order_unique(a, b, before);
}

/// Groups sessions by the day on which they started, the most recent day first, with the width
/// of each day's bar against the busiest day and with what the day produced.
pub fn group_by_day(
    sessions: &Vec<TimelineSession>,
    workspace: &str,
    project: &str,
    counts_by_day: &Vec<DayTally>,
    kinds: &Vec<PageKind>,
) -> (r: Vec<TimelineDay>)
    ensures
        is_timeline(r@, sessions@, workspace@, project@, counts_by_day@, kinds@),
{
    let mut days: Vec<String> = Vec::new();
    let mut i: usize = 0;
    while i < sessions.len()
        invariant
            i <= sessions@.len(),
            days@.len() == i,
            forall|k: int|
                0 <= k < i ==> (#[trigger] days@[k])@ == date_of(sessions@[k].started_us as int),
        decreases sessions@.len() - i,
    {
        days.push(day_key(sessions[i].started_us));
        i = i + 1;
    }
    assert(views(days@) =~= start_days(sessions@));
    let dates = ordered_dates(sessions, &days);
    let max_count: usize = busiest_day(&days, &distinct_sorted(&days));
    let mut out: Vec<TimelineDay> = Vec::new();
    let mut k: usize = 0;
    while k < dates.len()
        invariant
            k <= dates@.len(),
            views(days@) == start_days(sessions@),
            days@.len() == sessions@.len(),
            max_count == busiest(views(days@)),
            max_count >= 1,
            out@.len() == k,
            forall|q: int|
                0 <= q < k ==> is_day(
                    #[trigger] out@[q],
                    views(dates@)[q],
                    sessions@,
                    views(days@),
                    workspace@,
                    project@,
                    counts_by_day@,
                    kinds@,
                ),
        decreases dates@.len() - k,
    {
        let date = &dates[k];
        let rows = rows_on(workspace, project, sessions, &days, date.as_str());
        let count: usize = rows.len();
        out.push(
            TimelineDay {
                date: date.clone(),
                count,
                pct: percent(count, max_count),
                sessions_label: plural_pt(count, "sessão", "sessões"),
                kind_summary: day_kind_summary(date.as_str(), counts_by_day, kinds),
                sessions: rows,
            },
        );
        k = k + 1;
    }
    out
}

/// The timeline of a project.
pub fn timeline_view(
    workspace: &str,
    project: &str,
    dias: i64,
    sessions: &Vec<TimelineSession>,
    counts_by_day: &Vec<DayTally>,
    kinds: &Vec<PageKind>,
) -> (view: TimelineView)
    ensures
        view.workspace@ == workspace@,
        view.project@ == project@,
        view.base_href@ == project_link(workspace@, project@),
        view.aba@ == "linha"@,
        view.dias == dias,
        is_timeline(view.days@, sessions@, workspace@, project@, counts_by_day@, kinds@),
{
    TimelineView {
        workspace: workspace.to_owned(),
        project: project.to_owned(),
        base_href: project_href(workspace, project),
        aba: "linha",
        dias,
        days: group_by_day(sessions, workspace, project, counts_by_day, kinds),
    }
}

/// Number of sessions that some days show.
pub open spec fn sessions_shown(days: Seq<TimelineDay>) -> nat
    decreases days.len(),
{
    if days.len() == 0 {
        0
    } else {
        sessions_shown(days.drop_last()) + days.last().count as nat
    }
}

/// Some row under a date shows `s`.
pub open spec fn shows_session(
    r: Seq<TimelineDay>,
    date: Seq<char>,
    s: TimelineSession,
    workspace: Seq<char>,
    project: Seq<char>,
) -> bool {
    exists|k: int, m: int|
        0 <= k < r.len() && r[k].date@ == date && 0 <= m < r[k].sessions@.len() && is_session_row(
            #[trigger] r[k].sessions@[m],
            s,
            workspace,
            project,
        )
}

/// A timeline shows every session under its date, and as many sessions as there are. Every
/// day has its own entry, and no bar is wider than that of the busiest day.
pub proof fn law_timeline_shows_every_session(
    r: Seq<TimelineDay>,
    sessions: Seq<TimelineSession>,
    workspace: Seq<char>,
    project: Seq<char>,
    counts: Seq<DayTally>,
    kinds: Seq<PageKind>,
)
    requires
        is_timeline(r, sessions, workspace, project, counts, kinds),
    ensures
        sessions_shown(r) == sessions.len(),
        forall|i: int|
            0 <= i < sessions.len() ==> shows_session(
                r,
                date_of(sessions[i].started_us as int),
                #[trigger] sessions[i],
                workspace,
                project,
            ),
        forall|a: int, b: int|
            0 <= a < b < r.len() ==> (#[trigger] r[a]).date@ != (#[trigger] r[b]).date@,
        forall|k: int|
            0 <= k < r.len() ==> (#[trigger] r[k]).count >= 1 && r[k].count <= busiest(
                start_days(sessions),
            ),
        r.len() > 0 ==> exists|k: int|
            0 <= k < r.len() && (#[trigger] r[k]).count == busiest(start_days(sessions))
                && r[k].pct == 100,
{
    let days = start_days(sessions);
    let dates = timeline_dates(sessions);
    lemma_dates_differ(dates, sessions);
    assert forall|i: int| 0 <= i < days.len() implies dates.contains(#[trigger] days[i]) by {
        assert(days.contains(days[i]));
    }
    lemma_counts_add_up(dates, days);
    assert forall|k: int| 0 <= k < r.len() implies (#[trigger] r[k]).count == occurrences(
        days,
        dates[k],
    ) by {
        lemma_numbers_on(days, dates[k]);
    }
    lemma_shown_sum(r, dates, days);
    assert forall|i: int| 0 <= i < sessions.len() implies shows_session(
        r,
        date_of(sessions[i].started_us as int),
        #[trigger] sessions[i],
        workspace,
        project,
    ) by {
        lemma_day_has_number(days, i);
        let here = numbers_on(days, days[i]);
        let m = choose|m: int| 0 <= m < here.len() && here[m] == i;
        assert(days.contains(days[i]));
        let k = choose|k: int| 0 <= k < dates.len() && dates[k] == days[i];
        assert(is_day(r[k], dates[k], sessions, days, workspace, project, counts, kinds));
        assert(is_session_row(r[k].sessions@[m], sessions[i], workspace, project));
    }
    assert forall|a: int, b: int| 0 <= a < b < r.len() implies (#[trigger] r[a]).date@ != (
    #[trigger] r[b]).date@ by {
        assert(dates[a] != dates[b]);
    }
    let sorted = sorted_distinct(days);
    law_sorted_distinct_exists(days);
    lemma_most_on(sorted, days);
    assert forall|k: int| 0 <= k < r.len() implies (#[trigger] r[k]).count >= 1 && r[k].count
        <= busiest(days) by {
        assert(dates.contains(dates[k]));
        assert(days.contains(dates[k]));
        assert(sorted.contains(dates[k]));
        let j = choose|j: int| 0 <= j < sorted.len() && sorted[j] == dates[k];
        assert(occurrences(days, sorted[j]) <= most_on(sorted, days));
        lemma_occurrences_bound(days, dates[k]);
    }
    if r.len() > 0 {
        assert(dates.contains(dates[0]));
        assert(days.contains(dates[0]));
        assert(sorted.contains(dates[0]));
        let j = choose|j: int|
            0 <= j < sorted.len() && occurrences(days, #[trigger] sorted[j]) == most_on(
                sorted,
                days,
            );
        assert(sorted.contains(sorted[j]));
        assert(days.contains(sorted[j]));
        assert(dates.contains(sorted[j]));
        let k = choose|k: int| 0 <= k < dates.len() && dates[k] == sorted[j];
        assert(r[k].count == most_on(sorted, days));
        assert(r[k].count >= 1);
        let n = busiest(days);
        assert(n * 100 / n == 100) by (nonlinear_arith)
            requires
                n >= 1,
        ;
        assert(r[k].pct == 100);
    }
}

/// No date is listed twice.
proof fn lemma_dates_differ(dates: Seq<Seq<char>>, sessions: Seq<TimelineSession>)
    requires
        is_date_order(dates, sessions),
    ensures
        forall|a: int, b: int| 0 <= a < b < dates.len() ==> #[trigger] dates[a] != #[trigger] dates[b],
{
    let days = start_days(sessions);
    assert forall|a: int, b: int| 0 <= a < b < dates.len() implies #[trigger] dates[a]
        != #[trigger] dates[b] by {
        assert(date_order(sessions)(dates[a], dates[b]));
        let i = choose|i: int| 0 <= i < days.len() && days[i] == dates[a];
        assert(days[i] == dates[a]);
        if dates[a] == dates[b] {
            assert(shown_before(
                sessions[i].started_us as int,
                sessions[i].started_us as int,
            ));
        }
    }
}

proof fn lemma_most_on(dates: Seq<Seq<char>>, days: Seq<Seq<char>>)
    ensures
        forall|j: int|
            0 <= j < dates.len() ==> occurrences(days, #[trigger] dates[j]) <= most_on(dates, days),
        dates.len() > 0 ==> exists|j: int|
            0 <= j < dates.len() && occurrences(days, #[trigger] dates[j]) == most_on(dates, days),
    decreases dates.len(),
{
    if dates.len() > 0 {
        let rest = dates.drop_last();
        lemma_most_on(rest, days);
        assert forall|j: int| 0 <= j < dates.len() implies occurrences(days, #[trigger] dates[j])
            <= most_on(dates, days) by {
            if j < rest.len() {
                assert(dates[j] == rest[j]);
            }
        }
        if most_on(dates, days) == occurrences(days, dates.last()) {
            assert(dates[dates.len() - 1] == dates.last());
        } else {
            assert(rest.len() > 0);
            let j = choose|j: int|
                0 <= j < rest.len() && occurrences(days, #[trigger] rest[j]) == most_on(rest, days);
            assert(dates[j] == rest[j]);
        }
    }
}

proof fn lemma_shown_sum(r: Seq<TimelineDay>, dates: Seq<Seq<char>>, days: Seq<Seq<char>>)
    requires
        r.len() == dates.len(),
        forall|k: int|
            0 <= k < r.len() ==> (#[trigger] r[k]).count == occurrences(days, dates[k]),
    ensures
        sessions_shown(r) == occurrences_of_all(dates, days),
    decreases r.len(),
{
    if r.len() > 0 {
        let rest = r.drop_last();
        let less = dates.drop_last();
        assert forall|k: int| 0 <= k < rest.len() implies (#[trigger] rest[k]).count == occurrences(
            days,
            less[k],
        ) by {
            assert(r[k].count == occurrences(days, dates[k]));
        }
        lemma_shown_sum(rest, less, days);
        assert(r[r.len() - 1].count == occurrences(days, dates[dates.len() - 1]));
    }
}

/// The window is always one of the three that are allowed.
pub proof fn law_window_is_allowed(raw: Option<Seq<char>>)
    ensures
        window_days(raw) == 7 || window_days(raw) == 30 || window_days(raw) == 90,
{
}

/// A timeline goes back in time: a session of an earlier entry started on a later day than one
/// of a later entry. Sessions whose start has no date are in the last entry.
pub proof fn law_timeline_goes_back_in_time(
    r: Seq<TimelineDay>,
    sessions: Seq<TimelineSession>,
    workspace: Seq<char>,
    project: Seq<char>,
    counts: Seq<DayTally>,
    kinds: Seq<PageKind>,
    a: int,
    b: int,
    i: int,
    j: int,
)
    requires
        is_timeline(r, sessions, workspace, project, counts, kinds),
        0 <= a < b < r.len(),
        numbers_on(start_days(sessions), r[a].date@).contains(i),
        numbers_on(start_days(sessions), r[b].date@).contains(j),
    ensures
        has_date(sessions[i].started_us as int),
        has_date(sessions[j].started_us as int) ==> day_of(sessions[j].started_us as int) < day_of(
            sessions[i].started_us as int,
        ),
        !has_date(sessions[j].started_us as int) ==> b == r.len() - 1,
{
    let days = start_days(sessions);
    let dates = timeline_dates(sessions);
    let (us, us2) = (sessions[i].started_us as int, sessions[j].started_us as int);
    lemma_number_is_on(days, r[a].date@, i);
    lemma_number_is_on(days, r[b].date@, j);
    lemma_dates_differ(dates, sessions);
    assert(date_order(sessions)(dates[a], dates[b]));
    assert(days[i] == dates[a] && days[j] == dates[b]);
    assert(shown_before(us, us2));
    if has_date(us2) {
        law_dates_tell_days_apart(us, us2);
        assert(dates[a] != dates[b]);
    } else if b < r.len() - 1 {
        assert(date_order(sessions)(dates[b], dates[b + 1]));
        let q = choose|q: int| 0 <= q < days.len() && days[q] == dates[b + 1];
        assert(days[j] == dates[b] && days[q] == dates[b + 1]);
        assert(shown_before(us2, sessions[q].started_us as int));
    }
}

proof fn lemma_day_has_number(days: Seq<Seq<char>>, i: int)
    requires
        0 <= i < days.len(),
    ensures
        numbers_on(days, days[i]).contains(i),
    decreases days.len(),
{
    let rest = days.drop_last();
    let all = numbers_on(days, days[i]);
    if i < rest.len() {
        assert(rest[i] == days[i]);
        lemma_day_has_number(rest, i);
        let before = numbers_on(rest, days[i]);
        let m = choose|m: int| 0 <= m < before.len() && before[m] == i;
        assert(all[m] == i);
    } else {
        assert(all[all.len() - 1] == i);
    }
}

proof fn lemma_number_is_on(days: Seq<Seq<char>>, day: Seq<char>, i: int)
    requires
        numbers_on(days, day).contains(i),
    ensures
        0 <= i < days.len(),
        days[i] == day,
    decreases days.len(),
{
    let all = numbers_on(days, day);
    if days.len() > 0 {
        let rest = days.drop_last();
        let k = choose|k: int| 0 <= k < all.len() && all[k] == i;
        if k < numbers_on(rest, day).len() {
            assert(numbers_on(rest, day)[k] == i);
            lemma_number_is_on(rest, day, i);
        }
    }
}

/// A day of a timeline shows the sessions that started on it, all of them and no others, in the
/// order in which they are given, each with its own agent, observations and pages.
pub proof fn law_day_shows_its_sessions_in_order(
    r: Seq<TimelineDay>,
    sessions: Seq<TimelineSession>,
    workspace: Seq<char>,
    project: Seq<char>,
    counts: Seq<DayTally>,
    kinds: Seq<PageKind>,
    k: int,
)
    requires
        is_timeline(r, sessions, workspace, project, counts, kinds),
        0 <= k < r.len(),
    ensures
        r[k].count == r[k].sessions@.len(),
        r[k].sessions_label@ == decimal(r[k].count as nat) + " "@ + (if r[k].count == 1 {
            "sessão"@
        } else {
            "sessões"@
        }),
        exists|at: Seq<int>|
            {
                &&& #[trigger] at.len() == r[k].sessions@.len()
                &&& forall|a: int, b: int| 0 <= a < b < at.len() ==> #[trigger] at[a] < #[trigger] at[b]
                &&& forall|i: int| #[trigger]
                    at.contains(i) <==> 0 <= i < sessions.len() && date_of(
                        sessions[i].started_us as int,
                    ) == r[k].date@
                &&& forall|m: int|
                    0 <= m < at.len() ==> shows_what_it_has(
                        #[trigger] r[k].sessions@[m],
                        sessions[at[m]],
                        workspace,
                        project,
                    )
            },
{
    let days = start_days(sessions);
    let dates = timeline_dates(sessions);
    let date = dates[k];
    assert(is_day(r[k], date, sessions, days, workspace, project, counts, kinds));
    let at = numbers_on(days, date);
    lemma_numbers_ascend(days, date);
    assert(at.len() == r[k].sessions@.len());
    assert forall|i: int| #[trigger]
        at.contains(i) <==> 0 <= i < sessions.len() && date_of(sessions[i].started_us as int)
            == r[k].date@ by {
        if at.contains(i) {
            lemma_number_is_on(days, date, i);
        }
        if 0 <= i < sessions.len() && date_of(sessions[i].started_us as int) == date {
            assert(days[i] == date);
            lemma_day_has_number(days, i);
        }
    }
    assert forall|m: int| 0 <= m < at.len() implies shows_what_it_has(
        #[trigger] r[k].sessions@[m],
        sessions[at[m]],
        workspace,
        project,
    ) by {
        assert(is_session_row(r[k].sessions@[m], sessions[at[m]], workspace, project));
    }
}

/// A row has the agent, the length, the observations and the linked pages of a session.
pub open spec fn shows_what_it_has(
    row: TimelineSessionRow,
    s: TimelineSession,
    workspace: Seq<char>,
    project: Seq<char>,
) -> bool {
    &&& row.agent@ == s.agent@
    &&& row.duration_label@ == duration_text(s.started_us as int, s.ended_us)
    &&& s.observations is None ==> row.observations_label@ == "—"@
    &&& s.observations matches Some(n) ==> row.observations_label@ == signed_decimal(n as int)
    &&& row.produced@.len() == s.produced@.len()
    &&& forall|p: int|
        0 <= p < s.produced@.len() ==> (#[trigger] row.produced@[p]).path@ == s.produced@[p].path@
            && row.produced@[p].title@ == s.produced@[p].title@ && row.produced@[p].kind@
            == s.produced@[p].kind@ && row.produced@[p].href@ == page_link(
            workspace,
            project,
            s.produced@[p].path@,
        )
}

proof fn lemma_numbers_ascend(days: Seq<Seq<char>>, day: Seq<char>)
    ensures
        forall|m: int|
            0 <= m < numbers_on(days, day).len() ==> 0 <= #[trigger] numbers_on(days, day)[m]
                < days.len(),
        forall|a: int, b: int|
            0 <= a < b < numbers_on(days, day).len() ==> #[trigger] numbers_on(days, day)[a]
                < #[trigger] numbers_on(days, day)[b],
    decreases days.len(),
{
    if days.len() > 0 {
        lemma_numbers_ascend(days.drop_last(), day);
        let (all, before) = (numbers_on(days, day), numbers_on(days.drop_last(), day));
        assert forall|m: int| 0 <= m < all.len() implies 0 <= #[trigger] all[m] < days.len() by {
            if m < before.len() {
                assert(all[m] == before[m]);
            }
        }
        assert forall|a: int, b: int| 0 <= a < b < all.len() implies #[trigger] all[a]
            < #[trigger] all[b] by {
            assert(all[a] == before[a]);
            if b < before.len() {
                assert(all[b] == before[b]);
            }
        }
    }
}

/// The bar of a day is its share of the busiest day in whole percent, rounded down.
pub proof fn law_bar_is_the_share_of_the_busiest_day(
    r: Seq<TimelineDay>,
    sessions: Seq<TimelineSession>,
    workspace: Seq<char>,
    project: Seq<char>,
    counts: Seq<DayTally>,
    kinds: Seq<PageKind>,
    k: int,
    most: int,
)
    requires
        is_timeline(r, sessions, workspace, project, counts, kinds),
        0 <= k < r.len(),
        0 <= most < r.len(),
        forall|j: int| 0 <= j < r.len() ==> (#[trigger] r[j]).count <= r[most].count,
    ensures
        r[k].pct <= 100,
        r[k].pct * r[most].count <= r[k].count * 100 < (r[k].pct + 1) * r[most].count,
{
    law_timeline_shows_every_session(r, sessions, workspace, project, counts, kinds);
    let days = start_days(sessions);
    let dates = timeline_dates(sessions);
    assert(is_day(r[k], dates[k], sessions, days, workspace, project, counts, kinds));
    let j = choose|j: int|
        0 <= j < r.len() && (#[trigger] r[j]).count == busiest(days) && r[j].pct == 100;
    assert(r[j].count <= r[most].count && r[most].count <= busiest(days));
    let (part, whole) = (r[k].count as nat, busiest(days));
    assert(part <= whole && whole >= 1);
    let q = part * 100 / whole;
    assert(q * whole <= part * 100 && part * 100 < (q + 1) * whole && q <= 100) by (nonlinear_arith)
        requires
            q == part * 100 / whole,
            whole >= 1,
            part <= whole,
    ;
}

/// A session that has not ended is open. One that has shows its whole seconds where they are
/// fewer than sixty, its whole minutes where those are, and else its hours and minutes, the
/// minutes with two digits. One that ended before it started lasted no time.
pub proof fn law_length_is_in_hours_and_minutes(started: int, end: i64, secs: nat, h: nat, m: nat)
    requires
        (end <= started && secs == 0) || (end > started && secs * 1_000_000 <= end - started < (secs
            + 1) * 1_000_000),
        m < 60,
        (h * 60 + m) * 60 <= secs < (h * 60 + m + 1) * 60,
    ensures
        duration_text(started, None) == "em aberto"@,
        h == 0 && m == 0 ==> duration_text(started, Some(end)) == decimal(secs) + "s"@,
        h == 0 && m > 0 ==> duration_text(started, Some(end)) == decimal(m) + "min"@,
        h > 0 ==> duration_text(started, Some(end)) == decimal(h) + "h "@ + (if m < 10 {
            seq!['0']
        } else {
            Seq::empty()
        }) + decimal(m) + "min"@,
{
    if end > started {
        assert((end - started) / 1_000_000 == secs);
    }
    assert(secs / 60 == h * 60 + m);
    assert((secs / 60) / 60 == h);
    assert((secs / 60) % 60 == m);
    if h > 0 {
        reveal_with_fuel(decimal, 3);
        assert(zero_padded(m, 2) =~= (if m < 10 {
            seq!['0']
        } else {
            Seq::<char>::empty()
        }) + decimal(m));
        assert(duration_text(started, Some(end)) =~= decimal(h) + "h "@ + (if m < 10 {
            seq!['0']
        } else {
            Seq::empty()
        }) + decimal(m) + "min"@);
    }
}

/// The first session of an identifier gets the pages that cite it, all of them and in their
/// order. A session that no page cites, or that is not the first, keeps the pages it has. The
/// rest of a session stays as it is.
pub proof fn law_pages_go_to_the_session_that_they_cite(
    s: TimelineSession,
    sessions: Seq<TimelineSession>,
    k: int,
    evidence: Seq<SessionEvidence>,
)
    requires
        0 <= k < sessions.len(),
        is_attached(s, sessions, k, evidence),
    ensures
        s.id@ == sessions[k].id@,
        s.agent@ == sessions[k].agent@,
        s.started_us == sessions[k].started_us,
        s.ended_us == sessions[k].ended_us,
        s.observations == sessions[k].observations,
        ({
            let id = sessions[k].id@;
            let citing = evidence.filter(|e: SessionEvidence| e.source_id@ == id);
            let first = forall|j: int| 0 <= j < k ==> (#[trigger] sessions[j]).id@ != id;
            &&& first && citing.len() > 0 ==> {
                &&& s.produced@.len() == citing.len()
                &&& forall|p: int|
                    0 <= p < citing.len() ==> (#[trigger] s.produced@[p]).path@
                        == citing[p].page.path@ && s.produced@[p].title@ == citing[p].page.title@
                        && s.produced@[p].kind@ == citing[p].page.kind@
            }
            &&& !(first && citing.len() > 0) ==> {
                &&& s.produced@.len() == sessions[k].produced@.len()
                &&& forall|p: int|
                    0 <= p < s.produced@.len() ==> (#[trigger] s.produced@[p]).path@
                        == sessions[k].produced@[p].path@ && s.produced@[p].title@
                        == sessions[k].produced@[p].title@ && s.produced@[p].kind@
                        == sessions[k].produced@[p].kind@
            }
        }),
{
    let id = sessions[k].id@;
    let citing = evidence.filter(|e: SessionEvidence| e.source_id@ == id);
    lemma_citing_is_filter(evidence, id);
    let models = produced_models(s.produced@);
    let kept = produced_models(sessions[k].produced@);
    assert(models.len() == s.produced@.len());
    assert(kept.len() == sessions[k].produced@.len());
    let first = forall|j: int| 0 <= j < k ==> (#[trigger] sessions[j]).id@ != id;
    assert(first == is_first_of_id(sessions, k));
    if first && citing.len() > 0 {
        assert forall|p: int| 0 <= p < citing.len() implies (#[trigger] s.produced@[p]).path@
            == citing[p].page.path@ && s.produced@[p].title@ == citing[p].page.title@
            && s.produced@[p].kind@ == citing[p].page.kind@ by {
            assert(models[p] == s.produced@[p]@);
            assert(models[p] == citing[p].page@);
        }
    } else {
        assert forall|p: int| 0 <= p < s.produced@.len() implies (#[trigger] s.produced@[p]).path@
            == sessions[k].produced@[p].path@ && s.produced@[p].title@
            == sessions[k].produced@[p].title@ && s.produced@[p].kind@
            == sessions[k].produced@[p].kind@ by {
            assert(models[p] == s.produced@[p]@);
            assert(kept[p] == sessions[k].produced@[p]@);
        }
    }
}

proof fn lemma_citing_is_filter(evidence: Seq<SessionEvidence>, id: Seq<char>)
    ensures
        ({
            let citing = evidence.filter(|e: SessionEvidence| e.source_id@ == id);
            let pages = pages_citing(evidence, id);
            &&& pages.len() == citing.len()
            &&& forall|p: int| 0 <= p < pages.len() ==> #[trigger] pages[p] == citing[p].page@
        }),
    decreases evidence.len(),
{
    reveal(Seq::filter);
    if evidence.len() > 0 {
        lemma_citing_is_filter(evidence.drop_last(), id);
    }
}

/// A stored session is read as it is stored: its identifier in canonical form, and its number of
/// observations exactly where it has ended.
pub proof fn law_open_sessions_have_no_observations(s: TimelineSession, row: RawSessionRow)
    requires
        is_session(s, row),
    ensures
        s.observations is Some <==> row.ended_us is Some,
        s.observations is Some ==> s.observations == Some(row.ended_observation_count),
        s.id@ == hyphenated(row.id_bytes@),
        s.agent@ == row.agent@,
        s.started_us == row.started_us,
        s.ended_us == row.ended_us,
        s.produced@.len() == 0,
{
}

/// The window is the number of days asked for where that is 7, 30 or 90, with white space around
/// it or without, and 30 days in any other case.
pub proof fn law_window_is_the_one_asked_for(text: Seq<char>)
    ensures
        signed_value(trimmed(text)) == Some(7int) ==> window_days(Some(text)) == 7,
        signed_value(trimmed(text)) == Some(30int) ==> window_days(Some(text)) == 30,
        signed_value(trimmed(text)) == Some(90int) ==> window_days(Some(text)) == 90,
        signed_value(trimmed(text)) != Some(7int) && signed_value(trimmed(text)) != Some(90int)
            ==> window_days(Some(text)) == 30,
        window_days(None) == 30,
{
}

/// The summary of a day names each kind of which its first entry counts a page, with its count:
/// the listed kinds in the order of the list, and then the others in ascending order. A day
/// without an entry has none.
pub proof fn law_summary_names_what_a_day_produced(
    before: Seq<DayTally>,
    entry: DayTally,
    rest: Seq<DayTally>,
    kinds: Seq<PageKind>,
)
    requires
        forall|i: int| 0 <= i < before.len() ==> (#[trigger] before[i]).date@ != entry.date@,
    ensures
        day_summary(entry.date@, before, kinds).len() == 0,
        exists|others: Seq<Seq<char>>|
            {
                let tallies = entry.kinds@;
                let listed = kinds.map_values(|k: PageKind| k.kind@).filter(
                    |t: Seq<char>| count_in(tallies, t) > 0,
                );
                &&& #[trigger] ascending(others)
                &&& forall|t: Seq<char>| #[trigger]
                    others.contains(t) <==> count_in(tallies, t) > 0 && !is_listed(kinds, t)
                &&& day_summary(entry.date@, before + seq![entry] + rest, kinds) == joined(
                    (listed + others).map_values(
                        |t: Seq<char>| kind_label(kinds, t, count_in(tallies, t)),
                    ),
                    " · "@,
                )
            },
{
    let tallies = entry.kinds@;
    let date = entry.date@;
    lemma_first_tallies(before, entry, rest);
    let names = sorted_distinct(unlisted(kinds, tally_kinds(tallies)));
    let some = |t: Seq<char>| count_in(tallies, t) > 0;
    let label = |t: Seq<char>| kind_label(kinds, t, count_in(tallies, t));
    let others = names.filter(some);
    law_sorted_distinct_exists(unlisted(kinds, tally_kinds(tallies)));
    lemma_ascending_filter(names, some);
    assert forall|t: Seq<char>| #[trigger]
        others.contains(t) <==> count_in(tallies, t) > 0 && !is_listed(kinds, t) by {
        lemma_filter_has(names, some, t);
        lemma_unlisted_has(kinds, tally_kinds(tallies), t);
        if count_in(tallies, t) > 0 {
            lemma_counted_is_tallied(tallies, t);
        }
    }
    let all = kinds.map_values(|k: PageKind| k.kind@);
    let listed = all.filter(some);
    lemma_listed_parts(kinds, kinds.len(), tallies);
    assert(kinds.take(kinds.len() as int) =~= kinds);
    lemma_named_parts(kinds, names, tallies);
    assert(summary_parts(kinds, tallies) =~= (listed + others).map_values(label));
    assert(ascending(others));
}

proof fn lemma_first_tallies(before: Seq<DayTally>, entry: DayTally, rest: Seq<DayTally>)
    requires
        forall|i: int| 0 <= i < before.len() ==> (#[trigger] before[i]).date@ != entry.date@,
    ensures
        tallies_on(before, entry.date@) is None,
        tallies_on(before + seq![entry] + rest, entry.date@) == Some(entry.kinds@),
    decreases before.len(),
{
    let all = before + seq![entry] + rest;
    if before.len() > 0 {
        let less = before.drop_first();
        assert forall|i: int| 0 <= i < less.len() implies (#[trigger] less[i]).date@
            != entry.date@ by {
            assert(before[i + 1].date@ != entry.date@);
        }
        lemma_first_tallies(less, entry, rest);
        assert(all[0] == before[0]);
        assert(all.drop_first() =~= less + seq![entry] + rest);
    } else {
        assert(all[0] == entry);
    }
}

proof fn lemma_counted_is_tallied(tallies: Seq<KindTally>, t: Seq<char>)
    requires
        count_in(tallies, t) > 0,
    ensures
        tally_kinds(tallies).contains(t),
    decreases tallies.len(),
{
    let all = tally_kinds(tallies);
    if tallies[0].kind@ == t {
        assert(all[0] == t);
    } else {
        lemma_counted_is_tallied(tallies.drop_first(), t);
        let less = tally_kinds(tallies.drop_first());
        let i = choose|i: int| 0 <= i < less.len() && less[i] == t;
        assert(all[i + 1] == t);
    }
}

proof fn lemma_filter_has(s: Seq<Seq<char>>, pred: spec_fn(Seq<char>) -> bool, t: Seq<char>)
    ensures
        s.filter(pred).contains(t) <==> s.contains(t) && pred(t),
    decreases s.len(),
{
    reveal(Seq::filter);
    if s.len() > 0 {
        let less = s.drop_last();
        lemma_filter_has(less, pred, t);
        if s.contains(t) {
            let i = choose|i: int| 0 <= i < s.len() && s[i] == t;
            if i < less.len() {
                assert(less[i] == t);
            }
        }
        if less.contains(t) {
            let i = choose|i: int| 0 <= i < less.len() && less[i] == t;
            assert(s[i] == t);
        }
        assert(s[s.len() - 1] == s.last());
        let (all, part) = (s.filter(pred), less.filter(pred));
        if part.contains(t) {
            let i = choose|i: int| 0 <= i < part.len() && part[i] == t;
            assert(all[i] == t);
        }
        if pred(s.last()) {
            assert(all[all.len() - 1] == s.last());
        }
    }
}

proof fn lemma_ascending_filter(s: Seq<Seq<char>>, pred: spec_fn(Seq<char>) -> bool)
    requires
        ascending(s),
    ensures
        ascending(s.filter(pred)),
    decreases s.len(),
{
    reveal(Seq::filter);
    if s.len() > 0 {
        let less = s.drop_last();
        assert(ascending(less)) by {
            assert forall|i: int, j: int| 0 <= i < j < less.len() implies text_before(
                #[trigger] less[i],
                #[trigger] less[j],
            ) by {
                assert(text_before(s[i], s[j]));
            }
        }
        lemma_ascending_filter(less, pred);
        let (all, part) = (s.filter(pred), less.filter(pred));
        if pred(s.last()) {
            assert forall|i: int, j: int| 0 <= i < j < all.len() implies text_before(
                #[trigger] all[i],
                #[trigger] all[j],
            ) by {
                if j < part.len() {
                    assert(text_before(part[i], part[j]));
                } else {
                    lemma_filter_has(less, pred, part[i]);
                    assert(part.contains(part[i]));
                    let q = choose|q: int| 0 <= q < less.len() && less[q] == part[i];
                    assert(text_before(s[q], s[s.len() - 1]));
                }
            }
        }
    }
}

proof fn lemma_listed_parts(kinds: Seq<PageKind>, n: nat, tallies: Seq<KindTally>)
    requires
        n <= kinds.len(),
    ensures
        listed_parts(kinds, n, tallies) == kinds.take(n as int).map_values(
            |k: PageKind| k.kind@,
        ).filter(|t: Seq<char>| count_in(tallies, t) > 0).map_values(
            |t: Seq<char>| kind_label(kinds, t, count_in(tallies, t)),
        ),
    decreases n,
{
    reveal(Seq::filter);
    let some = |t: Seq<char>| count_in(tallies, t) > 0;
    let label = |t: Seq<char>| kind_label(kinds, t, count_in(tallies, t));
    let all = kinds.take(n as int).map_values(|k: PageKind| k.kind@);
    if n > 0 {
        lemma_listed_parts(kinds, (n - 1) as nat, tallies);
        let less = kinds.take(n - 1).map_values(|k: PageKind| k.kind@);
        assert(all.drop_last() =~= less);
        assert(all.last() == kinds[n - 1].kind@);
        assert(listed_parts(kinds, n, tallies) =~= all.filter(some).map_values(label));
    } else {
        assert(all.len() == 0);
        assert(listed_parts(kinds, n, tallies) =~= all.filter(some).map_values(label));
    }
}

proof fn lemma_named_parts(kinds: Seq<PageKind>, names: Seq<Seq<char>>, tallies: Seq<KindTally>)
    ensures
        named_parts(kinds, names, tallies) == names.filter(
            |t: Seq<char>| count_in(tallies, t) > 0,
        ).map_values(|t: Seq<char>| kind_label(kinds, t, count_in(tallies, t))),
    decreases names.len(),
{
    reveal(Seq::filter);
    let some = |t: Seq<char>| count_in(tallies, t) > 0;
    let label = |t: Seq<char>| kind_label(kinds, t, count_in(tallies, t));
    if names.len() > 0 {
        lemma_named_parts(kinds, names.drop_last(), tallies);
        assert(named_parts(kinds, names, tallies) =~= names.filter(some).map_values(label));
    } else {
        assert(named_parts(kinds, names, tallies) =~= names.filter(some).map_values(label));
    }
}

/// A percentage is rounded down, and is a hundred where the part is the whole or more.
pub proof fn law_percentages_are_rounded_down(part: nat, whole: nat)
    requires
        whole > 0,
    ensures
        percentage(part, whole) <= 100,
        part < whole ==> percentage(part, whole) * whole <= part * 100 < (percentage(part, whole)
            + 1) * whole,
        part >= whole ==> percentage(part, whole) == 100,
{
    let q = part * 100 / whole;
    assert(q * whole <= part * 100 && part * 100 < (q + 1) * whole) by (nonlinear_arith)
        requires
            q == part * 100 / whole,
            whole > 0,
    ;
    if part < whole {
        assert(q <= 100) by (nonlinear_arith)
            requires
                q * whole <= part * 100,
                part < whole,
                whole > 0,
        ;
    } else {
        assert(q >= 100) by (nonlinear_arith)
            requires
                part * 100 < (q + 1) * whole,
                part >= whole,
                whole > 0,
        ;
    }
}

} // verus!
