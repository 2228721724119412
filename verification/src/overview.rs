//! The overview of a project.

use vstd::prelude::*;
use vstd::string::*;

use crate::brief::BriefPageBody;
use crate::clock::date_of;
use crate::clock::day_key;
use crate::href::page_href;
use crate::href::page_link;
use crate::href::project_href;
use crate::href::project_link;
use crate::labels::is_listed;
use crate::labels::kind_label;
use crate::labels::kind_label_pt;
use crate::labels::lists_kind;
use crate::labels::plural;
use crate::labels::plural_pt;
use crate::labels::PageKind;
use crate::number::decimal;
use crate::order::ascending;
use crate::order::distinct_sorted;
use crate::order::in_order;
use crate::order::law_sorted_distinct_exists;
use crate::order::lemma_push_contains;
use crate::order::lemma_in_order_unique;
use crate::order::lemma_text_irreflexive;
use crate::order::lemma_text_total;
use crate::order::lemma_text_transitive;
use crate::order::sort_ranked;
use crate::order::sorted_distinct;
use crate::order::text_before;
use crate::order::text_less;
use crate::order::Ranking;
use crate::tally::count_by_day;
use crate::tally::count_text;
use crate::tally::kinds_on;
use crate::tally::law_every_item_is_counted_once;
use crate::tally::law_tallies_count_the_items;
use crate::tally::lemma_kinds_on_prefix;
use crate::tally::lemma_occurrences_bound;
use crate::tally::occurrences;
use crate::tally::tallied_days;
use crate::tally::tallies_by_day;
use crate::tally::DayTally;
use crate::tally::tallies_of;
use crate::utf8::lemma_views_push;
use crate::utf8::opt_view;
use crate::utf8::str_eq;
use crate::utf8::views;

verus! {

/// Number of pages in a list of recent ones.
pub const RECENT_LIMIT: usize = 10;

/// Number of weeks in the list of changes.
pub const MAX_WEEKS: usize = 4;

/// A knowledge page of a project. Its origin is the start of the first session that it came
/// from, if it came from any.
#[derive(Debug)]
pub struct OverviewPage {
    pub path: String,
    pub title: String,
    pub kind: String,
    pub summary: Option<String>,
    pub origin_us: Option<i64>,
}

/// A session of a project, and how many pages it produced.
#[derive(Debug)]
pub struct OverviewSession {
    pub id: String,
    pub started_us: i64,
    pub agent: String,
    pub produced: u32,
}

#[derive(Debug)]
pub struct ProjectOverview {
    pub pages: Vec<OverviewPage>,
    pub sessions: Vec<OverviewSession>,
    pub first_session_us: Option<i64>,
    pub last_session_us: Option<i64>,
}

/// What changed in a week.
#[derive(Debug)]
pub struct WeekChanges {
    pub start_date: String,
    pub sessions: u32,
    pub new_decisions: Vec<OverviewPage>,
    pub new_or_updated_concepts: Vec<OverviewPage>,
    pub top_session: Option<OverviewSession>,
}

/// A count with its link.
#[derive(Debug)]
pub struct KindCount {
    pub label: String,
    pub href: String,
}

/// A page with its link.
#[derive(Debug)]
pub struct OverviewPageRow {
    pub href: String,
    pub title: String,
    pub kind: String,
    pub summary: Option<String>,
    pub date: Option<String>,
}

/// The dates of the first and the last session.
#[derive(Debug)]
pub struct PeriodRow {
    pub first: String,
    pub last: String,
}

/// The session that produced most in a week.
#[derive(Debug)]
pub struct TopSessionRow {
    pub agent: String,
    pub pages_label: String,
}

/// A week with its labels and links.
#[derive(Debug)]
pub struct WeekChangesRow {
    pub start_date: String,
    pub sessions_label: String,
    pub new_decisions: Vec<OverviewPageRow>,
    pub new_or_updated_concepts: Vec<OverviewPageRow>,
    pub top_session: Option<TopSessionRow>,
}

/// The overview of a project as it is shown.
#[derive(Debug)]
pub struct OverviewView {
    pub workspace: String,
    pub project: String,
    pub base_href: String,
    /// The tab that is active.
    pub aba: &'static str,
    pub kind_counts: Vec<KindCount>,
    pub period: Option<PeriodRow>,
    pub weeks: Vec<WeekChangesRow>,
    pub recent_decisions: Vec<OverviewPageRow>,
    pub core_title: &'static str,
    pub core_show_kind: bool,
    pub core_pages: Vec<OverviewPageRow>,
    pub recent_gotchas: Vec<OverviewPageRow>,
    pub missing_origin: Vec<KindCount>,
}

/// The folder in which pages of a kind are kept.
pub open spec fn kind_folder(kind: Seq<char>) -> Option<Seq<char>> {
    if kind == "decision"@ {
        Some("decisions"@)
    } else if kind == "concept"@ {
        Some("concepts"@)
    } else if kind == "gotcha"@ {
        Some("gotchas"@)
    } else if kind == "rule"@ {
        Some("_rules"@)
    } else if kind == "procedure"@ {
        Some("procedures"@)
    } else {
        None
    }
}

/// The link of the folder of a kind, or of the list of pages where the kind has no folder.
pub open spec fn kind_link(base: Seq<char>, kind: Seq<char>) -> Seq<char> {
    match kind_folder(kind) {
        Some(folder) => base + "/paginas#pasta-"@ + folder,
        None => base + "/paginas"@,
    }
}

/// A count of pages of a kind with its link.
pub open spec fn kind_entry(
    kinds: Seq<PageKind>,
    base: Seq<char>,
    kind: Seq<char>,
    n: nat,
) -> (Seq<char>, Seq<char>) {
    (kind_label(kinds, kind, n), kind_link(base, kind))
}

/// The labels and links of counts.
pub open spec fn entries(counts: Seq<KindCount>) -> Seq<(Seq<char>, Seq<char>)> {
    counts.map_values(|c: KindCount| (c.label@, c.href@))
}

/// The kinds of pages.
pub open spec fn kinds_of(pages: Seq<OverviewPage>) -> Seq<Seq<char>> {
    pages.map_values(|p: OverviewPage| p.kind@)
}

/// The kinds of the pages without an origin.
pub open spec fn kinds_without_origin(pages: Seq<OverviewPage>) -> Seq<Seq<char>>
    decreases pages.len(),
{
    if pages.len() == 0 {
        Seq::empty()
    } else if pages.last().origin_us is None {
        kinds_without_origin(pages.drop_last()).push(pages.last().kind@)
    } else {
        kinds_without_origin(pages.drop_last())
    }
}

/// The kinds that are not listed.
pub open spec fn unlisted(kinds: Seq<PageKind>, s: Seq<Seq<char>>) -> Seq<Seq<char>>
    decreases s.len(),
{
    if s.len() == 0 {
        Seq::empty()
    } else if is_listed(kinds, s.last()) {
        unlisted(kinds, s.drop_last())
    } else {
        unlisted(kinds, s.drop_last()).push(s.last())
    }
}

/// One entry for each listed kind, whether or not it occurs in `s`.
pub open spec fn all_entries(
    kinds: Seq<PageKind>,
    base: Seq<char>,
    s: Seq<Seq<char>>,
) -> Seq<(Seq<char>, Seq<char>)> {
    kinds.map_values(|k: PageKind| kind_entry(kinds, base, k.kind@, occurrences(s, k.kind@)))
}

/// One entry for each of the first `n` listed kinds that occurs in `s`.
pub open spec fn listed_entries(
    kinds: Seq<PageKind>,
    n: nat,
    base: Seq<char>,
    s: Seq<Seq<char>>,
) -> Seq<(Seq<char>, Seq<char>)>
    decreases n,
{
    if n == 0 {
        Seq::empty()
    } else {
        let kind = kinds[n - 1].kind@;
        let before = listed_entries(kinds, (n - 1) as nat, base, s);
        if occurrences(s, kind) > 0 {
            before.push(kind_entry(kinds, base, kind, occurrences(s, kind)))
        } else {
            before
        }
    }
}

/// One entry for each kind of `names`.
pub open spec fn named_entries(
    kinds: Seq<PageKind>,
    names: Seq<Seq<char>>,
    base: Seq<char>,
    s: Seq<Seq<char>>,
) -> Seq<(Seq<char>, Seq<char>)> {
    names.map_values(|name: Seq<char>| kind_entry(kinds, base, name, occurrences(s, name)))
}

/// The counts of pages without an origin: listed kinds that occur, in the order of the list,
/// then the other kinds in ascending order.
pub open spec fn missing_entries(
    kinds: Seq<PageKind>,
    base: Seq<char>,
    s: Seq<Seq<char>>,
) -> Seq<(Seq<char>, Seq<char>)> {
    listed_entries(kinds, kinds.len(), base, s) + named_entries(
        kinds,
        sorted_distinct(unlisted(kinds, s)),
        base,
        s,
    )
}

/// `row` shows `page`, with its summary and its date where they are wanted.
pub open spec fn is_page_row(
    row: OverviewPageRow,
    page: OverviewPage,
    workspace: Seq<char>,
    project: Seq<char>,
    detailed: bool,
) -> bool {
    &&& row.href@ == page_link(workspace, project, page.path@)
    &&& row.title@ == page.title@
    &&& row.kind@ == page.kind@
    &&& opt_view(row.summary) == if detailed {
        opt_view(page.summary)
    } else {
        None
    }
    &&& opt_view(row.date) == if detailed {
        match page.origin_us {
            Some(us) => Some(date_of(us as int)),
            None => None,
        }
    } else {
        None
    }
}

/// `rows` show `pages`, one by one, without details.
pub open spec fn are_page_rows(
    rows: Seq<OverviewPageRow>,
    pages: Seq<OverviewPage>,
    workspace: Seq<char>,
    project: Seq<char>,
) -> bool {
    &&& rows.len() == pages.len()
    &&& forall|k: int|
        0 <= k < rows.len() ==> is_page_row(
            #[trigger] rows[k],
            pages[k],
            workspace,
            project,
            false,
        )
}

/// Whether an origin is later than another. A missing one is the earliest.
pub open spec fn later(a: Option<i64>, b: Option<i64>) -> bool {
    match (a, b) {
        (Some(x), Some(y)) => x > y,
        (Some(_), None) => true,
        _ => false,
    }
}

/// The order of recent pages: the latest origin first, then by path, then by number.
pub open spec fn more_recent(pages: Seq<OverviewPage>, i: int, j: int) -> bool {
    ||| later(pages[i].origin_us, pages[j].origin_us)
    ||| pages[i].origin_us == pages[j].origin_us && text_before(pages[i].path@, pages[j].path@)
    ||| pages[i].origin_us == pages[j].origin_us && pages[i].path@ == pages[j].path@ && i < j
}

pub open spec fn recency(pages: Seq<OverviewPage>) -> spec_fn(int, int) -> bool {
    |i: int, j: int| more_recent(pages, i, j)
}

/// `order` are the numbers of the pages of a kind that have an origin, the most recent first.
pub open spec fn is_recent_order(
    order: Seq<int>,
    pages: Seq<OverviewPage>,
    kind: Seq<char>,
) -> bool {
    &&& in_order(order, recency(pages))
    &&& forall|i: int| #[trigger]
        order.contains(i) <==> 0 <= i < pages.len() && pages[i].kind@ == kind
            && pages[i].origin_us is Some
}

/// The numbers of the pages of a kind that have an origin, the most recent first.
pub open spec fn recent_order(pages: Seq<OverviewPage>, kind: Seq<char>) -> Seq<int> {
    choose|order: Seq<int>| is_recent_order(order, pages, kind)
}

/// `rows` show the pages of a kind with the latest origins, at most ten, the most recent first.
pub open spec fn are_recent_rows(
    rows: Seq<OverviewPageRow>,
    pages: Seq<OverviewPage>,
    kind: Seq<char>,
    workspace: Seq<char>,
    project: Seq<char>,
) -> bool {
    let order = recent_order(pages, kind);
    &&& is_recent_order(order, pages, kind)
    &&& rows.len() == if order.len() <= RECENT_LIMIT {
        order.len()
    } else {
        RECENT_LIMIT as nat
    }
    &&& forall|k: int|
        0 <= k < rows.len() ==> is_page_row(
            #[trigger] rows[k],
            pages[order[k]],
            workspace,
            project,
            true,
        )
}

/// The kind of the page at a path; where several pages have that path, of the last.
pub open spec fn kind_at(pages: Seq<OverviewPage>, path: Seq<char>) -> Option<Seq<char>>
    decreases pages.len(),
{
    if pages.len() == 0 {
        None
    } else if pages.last().path@ == path {
        Some(pages.last().kind@)
    } else {
        kind_at(pages.drop_last(), path)
    }
}

/// `row` shows a core page of the briefing, under the kind that the overview gives it.
pub open spec fn is_core_row(
    row: OverviewPageRow,
    page: BriefPageBody,
    pages: Seq<OverviewPage>,
    workspace: Seq<char>,
    project: Seq<char>,
) -> bool {
    &&& row.href@ == page_link(workspace, project, page.path@)
    &&& row.title@ == page.title@
    &&& row.kind@ == match kind_at(pages, page.path@) {
        Some(kind) => kind,
        None => "outro"@,
    }
    &&& row.summary is None
    &&& row.date is None
}

/// The core pages of the briefing, in its order, with the title of their section and whether
/// their kinds are shown: unless all are concepts.
pub open spec fn is_core_section(
    title: Seq<char>,
    show_kind: bool,
    rows: Seq<OverviewPageRow>,
    core: Seq<BriefPageBody>,
    pages: Seq<OverviewPage>,
    workspace: Seq<char>,
    project: Seq<char>,
) -> bool {
    &&& rows.len() == core.len()
    &&& forall|k: int|
        0 <= k < core.len() ==> is_core_row(
            #[trigger] rows[k],
            core[k],
            pages,
            workspace,
            project,
        )
    &&& show_kind == exists|k: int| 0 <= k < rows.len() && (#[trigger] rows[k]).kind@ != "concept"@
    &&& title == if show_kind {
        "Páginas centrais (nem todas são conceitos)"@
    } else {
        "Conceitos centrais"@
    }
}

/// `row` are the dates of the first and the last session; there is none unless both are known.
pub open spec fn is_period(row: Option<PeriodRow>, overview: ProjectOverview) -> bool {
    match (row, overview.first_session_us, overview.last_session_us) {
        (Some(r), Some(first), Some(last)) => r.first@ == date_of(first as int) && r.last@
            == date_of(last as int),
        (None, Some(_), Some(_)) => false,
        (Some(_), _, _) => false,
        (None, _, _) => true,
    }
}

/// `rows` show the weeks, one by one.
pub open spec fn are_week_rows(
    rows: Seq<WeekChangesRow>,
    weeks: Seq<WeekChanges>,
    workspace: Seq<char>,
    project: Seq<char>,
) -> bool {
    &&& rows.len() == weeks.len()
    &&& forall|k: int|
        0 <= k < rows.len() ==> is_week_row(#[trigger] rows[k], weeks[k], workspace, project)
}

/// The counts of pages by kind, and of sessions.
pub open spec fn count_entries(
    kinds: Seq<PageKind>,
    base: Seq<char>,
    overview: ProjectOverview,
) -> Seq<(Seq<char>, Seq<char>)> {
    all_entries(kinds, base, kinds_of(overview.pages@)).push(
        (
            plural(overview.sessions@.len(), "sessão"@, "sessões"@),
            base + "/paginas#pasta-sessions"@,
        ),
    )
}

/// `view` shows the overview of a project.
pub open spec fn is_overview_view(
    view: OverviewView,
    workspace: Seq<char>,
    project: Seq<char>,
    overview: ProjectOverview,
    core: Seq<BriefPageBody>,
    weeks: Seq<WeekChanges>,
    kinds: Seq<PageKind>,
) -> bool {
    let base = project_link(workspace, project);
    let pages = overview.pages@;
    &&& view.workspace@ == workspace
    &&& view.project@ == project
    &&& view.base_href@ == base
    &&& view.aba@ == "visao"@
    &&& entries(view.kind_counts@) == count_entries(kinds, base, overview)
    &&& is_period(view.period, overview)
    &&& are_week_rows(view.weeks@, weeks, workspace, project)
    &&& are_recent_rows(view.recent_decisions@, pages, "decision"@, workspace, project)
    &&& is_core_section(
        view.core_title@,
        view.core_show_kind,
        view.core_pages@,
        core,
        pages,
        workspace,
        project,
    )
    &&& are_recent_rows(view.recent_gotchas@, pages, "gotcha"@, workspace, project)
    &&& entries(view.missing_origin@) == missing_entries(kinds, base, kinds_without_origin(pages))
}

/// `row` shows `week`.
pub open spec fn is_week_row(
    row: WeekChangesRow,
    week: WeekChanges,
    workspace: Seq<char>,
    project: Seq<char>,
) -> bool {
    &&& row.start_date@ == week.start_date@
    &&& row.sessions_label@ == plural(week.sessions as nat, "sessão"@, "sessões"@)
    &&& are_page_rows(row.new_decisions@, week.new_decisions@, workspace, project)
    &&& are_page_rows(
        row.new_or_updated_concepts@,
        week.new_or_updated_concepts@,
        workspace,
        project,
    )
    &&& match (row.top_session, week.top_session) {
        (Some(top), Some(session)) => top.agent@ == session.agent@ && top.pages_label@ == plural(
            session.produced as nat,
            "página"@,
            "páginas"@,
        ),
        (None, None) => true,
        _ => false,
    }
}

/// The folder in which pages of a kind are kept.
pub fn folder_for_kind(kind: &str) -> (r: Option<&'static str>)
    ensures
        match r {
            Some(folder) => kind_folder(kind@) == Some(folder@),
            None => kind_folder(kind@) is None,
        },
{
    if str_eq(kind, "decision") {
        Some("decisions")
    } else if str_eq(kind, "concept") {
        Some("concepts")
    } else if str_eq(kind, "gotcha") {
        Some("gotchas")
    } else if str_eq(kind, "rule") {
        Some("_rules")
    } else if str_eq(kind, "procedure") {
        Some("procedures")
    } else {
        None
    }
}

/// The link of the folder of a kind.
pub fn folder_href(base_href: &str, kind: &str) -> (r: String)
    ensures
        r@ == kind_link(base_href@, kind@),
{
    let mut r = base_href.to_owned();
    match folder_for_kind(kind) {
        Some(folder) => {
            r.append("/paginas#pasta-");
            r.append(folder);
        },
        None => {
            r.append("/paginas");
        },
    }
    r
}

fn copy_text(text: &Option<String>) -> (r: Option<String>)
    ensures
        opt_view(r) == opt_view(*text),
{
    match text {
        Some(t) => Some(t.clone()),
        None => None,
    }
}

/// A page with its link, and with its summary and its date where they are wanted.
pub fn page_row(
    workspace: &str,
    project: &str,
    page: &OverviewPage,
    with_summary_and_date: bool,
) -> (row: OverviewPageRow)
    ensures
        is_page_row(row, *page, workspace@, project@, with_summary_and_date),
{
    OverviewPageRow {
        href: page_href(workspace, project, page.path.as_str()),
        title: page.title.clone(),
        kind: page.kind.clone(),
        summary: if with_summary_and_date {
            copy_text(&page.summary)
        } else {
            None
        },
        date: if with_summary_and_date {
            match page.origin_us {
                Some(us) => Some(day_key(us)),
                None => None,
            }
        } else {
            None
        },
    }
}

fn page_rows(workspace: &str, project: &str, pages: &Vec<OverviewPage>) -> (rows: Vec<
    OverviewPageRow,
>)
    ensures
        are_page_rows(rows@, pages@, workspace@, project@),
{
    let mut rows: Vec<OverviewPageRow> = Vec::new();
    let mut i: usize = 0;
    while i < pages.len()
        invariant
            i <= pages@.len(),
            rows@.len() == i,
            forall|k: int|
                0 <= k < i ==> is_page_row(
                    #[trigger] rows@[k],
                    pages@[k],
                    workspace@,
                    project@,
                    false,
                ),
        decreases pages@.len() - i,
    {
        rows.push(page_row(workspace, project, &pages[i], false));
        i = i + 1;
    }
    rows
}

fn kind_count(kinds: &Vec<PageKind>, base_href: &str, kind: &str, n: usize) -> (r: KindCount)
    ensures
        (r.label@, r.href@) == kind_entry(kinds@, base_href@, kind@, n as nat),
{
    KindCount { label: kind_label_pt(kinds, kind, n), href: folder_href(base_href, kind) }
}

/// The counts of pages by kind, each listed kind in its place even where there is none, and
/// the count of sessions.
pub fn kind_counts(overview: &ProjectOverview, base_href: &str, kinds: &Vec<PageKind>) -> (r: Vec<
    KindCount,
>)
    ensures
        entries(r@) == count_entries(kinds@, base_href@, *overview),
{
    let names = page_kinds(&overview.pages);
    let mut out: Vec<KindCount> = Vec::new();
    let mut i: usize = 0;
    while i < kinds.len()
        invariant
            i <= kinds@.len(),
            views(names@) == kinds_of(overview.pages@),
            out@.len() == i,
            forall|k: int|
                0 <= k < i ==> ((#[trigger] out@[k]).label@, out@[k].href@) == kind_entry(
                    kinds@,
                    base_href@,
                    kinds@[k].kind@,
                    occurrences(views(names@), kinds@[k].kind@),
                ),
        decreases kinds@.len() - i,
    {
        let n: usize = count_text(&names, kinds[i].kind.as_str());
        out.push(kind_count(kinds, base_href, kinds[i].kind.as_str(), n));
        i = i + 1;
    }
    let mut href = base_href.to_owned();
    href.append("/paginas#pasta-sessions");
    out.push(
        KindCount { label: plural_pt(overview.sessions.len(), "sessão", "sessões"), href },
    );
    assert(entries(out@) =~= count_entries(kinds@, base_href@, *overview));
    out
}

fn page_kinds(pages: &Vec<OverviewPage>) -> (r: Vec<String>)
    ensures
        views(r@) == kinds_of(pages@),
{
    let mut out: Vec<String> = Vec::new();
    let mut i: usize = 0;
    while i < pages.len()
        invariant
            i <= pages@.len(),
            out@.len() == i,
            forall|k: int| 0 <= k < i ==> (#[trigger] out@[k])@ == pages@[k].kind@,
        decreases pages@.len() - i,
    {
        out.push(pages[i].kind.clone());
        i = i + 1;
    }
    assert(views(out@) =~= kinds_of(pages@));
    out
}

fn page_kinds_without_origin(pages: &Vec<OverviewPage>) -> (r: Vec<String>)
    ensures
        views(r@) == kinds_without_origin(pages@),
{
    broadcast use lemma_views_push;

    let mut out: Vec<String> = Vec::new();
    let mut i: usize = 0;
    assert(views(out@) =~= Seq::empty());
    while i < pages.len()
        invariant
            i <= pages@.len(),
            views(out@) == kinds_without_origin(pages@.take(i as int)),
        decreases pages@.len() - i,
    {
        assert(pages@.take(i + 1).drop_last() =~= pages@.take(i as int));
        if pages[i].origin_us.is_none() {
            out.push(pages[i].kind.clone());
        }
        i = i + 1;
    }
    assert(pages@.take(i as int) =~= pages@);
    out
}

/// The kinds that are not listed.
pub fn unlisted_kinds(kinds: &Vec<PageKind>, names: &Vec<String>) -> (r: Vec<String>)
    ensures
        views(r@) == unlisted(kinds@, views(names@)),
{
    broadcast use lemma_views_push;

    let mut out: Vec<String> = Vec::new();
    let mut i: usize = 0;
    assert(views(out@) =~= Seq::empty());
    while i < names.len()
        invariant
            i <= names@.len(),
            views(out@) == unlisted(kinds@, views(names@).take(i as int)),
        decreases names@.len() - i,
    {
        assert(views(names@).take(i + 1).drop_last() =~= views(names@).take(i as int));
        if !lists_kind(kinds, names[i].as_str()) {
            out.push(names[i].clone());
        }
        i = i + 1;
    }
    assert(views(names@).take(i as int) =~= views(names@));
    out
}

/// The counts of pages without an origin, by kind.
pub fn missing_origin(
    overview: &ProjectOverview,
    base_href: &str,
    kinds: &Vec<PageKind>,
) -> (r: Vec<KindCount>)
    ensures
        entries(r@) == missing_entries(
            kinds@,
            base_href@,
            kinds_without_origin(overview.pages@),
        ),
{
    let names = page_kinds_without_origin(&overview.pages);
    let ghost s = views(names@);
    let mut out: Vec<KindCount> = Vec::new();
    let mut i: usize = 0;
    assert(entries(out@) =~= Seq::empty());
    while i < kinds.len()
        invariant
            i <= kinds@.len(),
            s == views(names@),
            entries(out@) == listed_entries(kinds@, i as nat, base_href@, s),
        decreases kinds@.len() - i,
    {
        let n: usize = count_text(&names, kinds[i].kind.as_str());
        if n > 0 {
            let count = kind_count(kinds, base_href, kinds[i].kind.as_str(), n);
            assert(entries(out@.push(count)) =~= entries(out@).push((count.label@, count.href@)));
            out.push(count);
        }
        i = i + 1;
    }
    let ghost listed = entries(out@);
    let others = distinct_sorted(&unlisted_kinds(kinds, &names));
    let mut j: usize = 0;
    assert(named_entries(kinds@, views(others@).take(0), base_href@, s) =~= Seq::empty());
    assert(listed =~= listed + Seq::empty());
    while j < others.len()
        invariant
            j <= others@.len(),
            s == views(names@),
            entries(out@) == listed + named_entries(
                kinds@,
                views(others@).take(j as int),
                base_href@,
                s,
            ),
        decreases others@.len() - j,
    {
        let n: usize = count_text(&names, others[j].as_str());
        let count = kind_count(kinds, base_href, others[j].as_str(), n);
        assert(entries(out@.push(count)) =~= entries(out@).push((count.label@, count.href@)));
        out.push(count);
        j = j + 1;
        assert(named_entries(kinds@, views(others@).take(j as int), base_href@, s)
            =~= named_entries(kinds@, views(others@).take(j - 1), base_href@, s).push(
            (count.label@, count.href@),
        ));
        assert(entries(out@) =~= listed + named_entries(
            kinds@,
            views(others@).take(j as int),
            base_href@,
            s,
        ));
    }
    assert(views(others@).take(j as int) =~= views(others@));
    out
}

/// Pages in the order of their recency.
struct PageRank<'a> {
    pages: &'a Vec<OverviewPage>,
}

impl<'a> Ranking for PageRank<'a> {
    closed spec fn size(&self) -> nat {
        self.pages@.len()
    }

    closed spec fn precedes(&self, i: int, j: int) -> bool {
        more_recent(self.pages@, i, j)
    }

    proof fn lemma_strict_total(&self) {
        lemma_recency(self.pages@);
    }

    fn before(&self, i: usize, j: usize) -> (r: bool) {
        let a = &self.pages[i];
        let b = &self.pages[j];
        let (first, same) = match (a.origin_us, b.origin_us) {
            (Some(x), Some(y)) => (x > y, x == y),
            (Some(_), None) => (true, false),
            (None, Some(_)) => (false, false),
            (None, None) => (false, true),
        };
        first || (same && (text_less(a.path.as_str(), b.path.as_str()) || (a.path == b.path && i
            < j)))
    }
}

/// The order of recent pages is strict and total.
proof fn lemma_recency(pages: Seq<OverviewPage>)
    ensures
        forall|i: int| !#[trigger] more_recent(pages, i, i),
        forall|i: int, j: int, k: int| #[trigger]
            more_recent(pages, i, j) && #[trigger] more_recent(pages, j, k) ==> more_recent(
                pages,
                i,
                k,
            ),
        forall|i: int, j: int|
            0 <= i < pages.len() && 0 <= j < pages.len() && i != j ==> (#[trigger] more_recent(
                pages,
                i,
                j,
            ) || more_recent(pages, j, i)),
{
    broadcast use {lemma_text_irreflexive, lemma_text_transitive};

    assert forall|i: int, j: int|
        0 <= i < pages.len() && 0 <= j < pages.len() && i != j implies (#[trigger] more_recent(
        pages,
        i,
        j,
    ) || more_recent(pages, j, i)) by {
        lemma_text_total(pages[i].path@, pages[j].path@);
    }
}

/// There is one order of recent pages only.
pub proof fn law_recent_order_is_unique(
    a: Seq<int>,
    b: Seq<int>,
    pages: Seq<OverviewPage>,
    kind: Seq<char>,
)
    requires
        is_recent_order(a, pages, kind),
        is_recent_order(b, pages, kind),
    ensures
        a == b,
{
    lemma_recency(pages);
    assert forall|i: int, j: int| #[trigger] recency(pages)(i, j) implies !recency(pages)(j, i) by {
        if more_recent(pages, j, i) {
            assert(more_recent(pages, i, i));
        }
    }
    lemma_in_order_unique(a, b, recency(pages));
}

/// The numbers of the pages of a kind that have an origin.
fn dated_pages_of_kind(pages: &Vec<OverviewPage>, kind: &str) -> (r: Vec<usize>)
    ensures
        r@.no_duplicates(),
        forall|i: usize| #[trigger]
            r@.contains(i) <==> i < pages@.len() && pages@[i as int].kind@ == kind@
                && pages@[i as int].origin_us is Some,
{
    let mut out: Vec<usize> = Vec::new();
    let mut i: usize = 0;
    while i < pages.len()
        invariant
            i <= pages@.len(),
            out@.no_duplicates(),
            forall|k: usize| #[trigger]
                out@.contains(k) <==> k < i && pages@[k as int].kind@ == kind@
                    && pages@[k as int].origin_us is Some,
        decreases pages@.len() - i,
    {
        let ghost before = out@;
        if str_eq(pages[i].kind.as_str(), kind) && pages[i].origin_us.is_some() {
            assert(!before.contains(i));
            out.push(i);
            assert forall|k: usize| #[trigger] out@.contains(k) <==> before.contains(k) || k
                == i by {
                lemma_push_contains(before, i, k);
            }
            assert(out@.no_duplicates()) by {
                assert forall|a: int, b: int|
                    0 <= a < out@.len() && 0 <= b < out@.len() && a != b implies out@[a]
                    != out@[b] by {
                    if a < before.len() {
                        assert(before.contains(before[a]));
                    }
                    if b < before.len() {
                        assert(before.contains(before[b]));
                    }
                }
            }
        }
        i = i + 1;
    }
    out
}

/// The pages of a kind with the latest origins, at most ten, the most recent first.
pub fn recent_by_kind(
    overview: &ProjectOverview,
    kind: &str,
    workspace: &str,
    project: &str,
) -> (rows: Vec<OverviewPageRow>)
    ensures
        are_recent_rows(rows@, overview.pages@, kind@, workspace@, project@),
{
    let picked = dated_pages_of_kind(&overview.pages, kind);
    assert forall|k: int| 0 <= k < picked@.len() implies #[trigger] picked@[k]
        < overview.pages@.len() by {
        assert(picked@.contains(picked@[k]));
    }
    let rank = PageRank { pages: &overview.pages };
    let ordered = sort_ranked(&rank, &picked);
    let ghost order = ordered@.map_values(|i: usize| i as int);
    proof {
        assert(overview.pages@.len() == overview.pages.len());
        lemma_order_of(order, ordered@, picked@, overview.pages@, kind@);
        law_recent_order_is_unique(
            order,
            recent_order(overview.pages@, kind@),
            overview.pages@,
            kind@,
        );
    }
    let mut rows: Vec<OverviewPageRow> = Vec::new();
    let mut k: usize = 0;
    while k < ordered.len() && k < RECENT_LIMIT
        invariant
            k <= ordered@.len(),
            k <= RECENT_LIMIT,
            rows@.len() == k,
            order == ordered@.map_values(|i: usize| i as int),
            forall|q: int| 0 <= q < ordered@.len() ==> #[trigger] ordered@[q] < overview.pages@.len(),
            forall|q: int|
                0 <= q < k ==> is_page_row(
                    #[trigger] rows@[q],
                    overview.pages@[order[q]],
                    workspace@,
                    project@,
                    true,
                ),
        decreases ordered@.len() - k,
    {
        rows.push(page_row(workspace, project, &overview.pages[ordered[k]], true));
        k = k + 1;
    }
    rows
}

/// Sorted numbers of the pages of a kind are their order.
proof fn lemma_order_of(
    order: Seq<int>,
    ordered: Seq<usize>,
    picked: Seq<usize>,
    pages: Seq<OverviewPage>,
    kind: Seq<char>,
)
    requires
        order == ordered.map_values(|i: usize| i as int),
        pages.len() <= usize::MAX,
        forall|x: usize| #[trigger] ordered.contains(x) <==> picked.contains(x),
        forall|i: int, j: int|
            0 <= i < j < ordered.len() ==> more_recent(
                pages,
                (#[trigger] ordered[i]) as int,
                (#[trigger] ordered[j]) as int,
            ),
        forall|i: usize| #[trigger]
            picked.contains(i) <==> i < pages.len() && pages[i as int].kind@ == kind
                && pages[i as int].origin_us is Some,
    ensures
        is_recent_order(order, pages, kind),
        forall|q: int| 0 <= q < ordered.len() ==> #[trigger] ordered[q] < pages.len(),
{
    assert forall|i: int, j: int| 0 <= i < j < order.len() implies recency(pages)(
        #[trigger] order[i],
        #[trigger] order[j],
    ) by {
        assert(more_recent(pages, ordered[i] as int, ordered[j] as int));
    }
    assert forall|i: int| #[trigger] order.contains(i) <==> 0 <= i < pages.len() && pages[i].kind@
        == kind && pages[i].origin_us is Some by {
        if order.contains(i) {
            let k = choose|k: int| 0 <= k < order.len() && order[k] == i;
            assert(ordered.contains(ordered[k]));
            assert(picked.contains(ordered[k]));
        }
        if 0 <= i < pages.len() && pages[i].kind@ == kind && pages[i].origin_us is Some {
            assert(picked.contains(i as usize));
            assert(ordered.contains(i as usize));
            let k = choose|k: int| 0 <= k < ordered.len() && ordered[k] == i as usize;
            assert(order[k] == i);
        }
    }
    assert forall|q: int| 0 <= q < ordered.len() implies #[trigger] ordered[q] < pages.len() by {
        assert(ordered.contains(ordered[q]));
        assert(picked.contains(ordered[q]));
    }
}

/// Weeks with their labels and links.
pub fn week_rows(weeks: &Vec<WeekChanges>, workspace: &str, project: &str) -> (rows: Vec<
    WeekChangesRow,
>)
    ensures
        are_week_rows(rows@, weeks@, workspace@, project@),
{
    let mut rows: Vec<WeekChangesRow> = Vec::new();
    let mut i: usize = 0;
    while i < weeks.len()
        invariant
            i <= weeks@.len(),
            rows@.len() == i,
            forall|k: int|
                0 <= k < i ==> is_week_row(#[trigger] rows@[k], weeks@[k], workspace@, project@),
        decreases weeks@.len() - i,
    {
        let week = &weeks[i];
        let row = WeekChangesRow {
            start_date: week.start_date.clone(),
            sessions_label: plural_pt(week.sessions as usize, "sessão", "sessões"),
            new_decisions: page_rows(workspace, project, &week.new_decisions),
            new_or_updated_concepts: page_rows(workspace, project, &week.new_or_updated_concepts),
            top_session: match &week.top_session {
                Some(session) => Some(
                    TopSessionRow {
                        agent: session.agent.clone(),
                        pages_label: plural_pt(session.produced as usize, "página", "páginas"),
                    },
                ),
                None => None,
            },
        };
        rows.push(row);
        i = i + 1;
    }
    rows
}

/// The kind of the page at a path.
fn find_kind(pages: &Vec<OverviewPage>, path: &str) -> (r: String)
    ensures
        r@ == match kind_at(pages@, path@) {
            Some(kind) => kind,
            None => "outro"@,
        },
{
    let mut i: usize = pages.len();
    assert(pages@.take(i as int) =~= pages@);
    while i > 0
        invariant
            i <= pages@.len(),
            kind_at(pages@.take(i as int), path@) == kind_at(pages@, path@),
        decreases i,
    {
        i = i - 1;
        assert(pages@.take(i + 1).last() == pages@[i as int]);
        assert(pages@.take(i + 1).drop_last() =~= pages@.take(i as int));
        if str_eq(pages[i].path.as_str(), path) {
            return pages[i].kind.clone();
        }
    }
    "outro".to_owned()
}

/// The core pages of the briefing, in its order: the title of the section, whether the kinds
/// are shown, and the pages. The kinds are shown unless all pages are concepts.
pub fn core_pages_section(
    core: &[BriefPageBody],
    overview: &ProjectOverview,
    workspace: &str,
    project: &str,
) -> (r: (&'static str, bool, Vec<OverviewPageRow>))
    ensures
        is_core_section(r.0@, r.1, r.2@, core@, overview.pages@, workspace@, project@),
{
    let mut rows: Vec<OverviewPageRow> = Vec::new();
    let mut all_concepts = true;
    let mut i: usize = 0;
    while i < core.len()
        invariant
            i <= core@.len(),
            rows@.len() == i,
            forall|k: int|
                0 <= k < i ==> is_core_row(
                    #[trigger] rows@[k],
                    core@[k],
                    overview.pages@,
                    workspace@,
                    project@,
                ),
            all_concepts == forall|k: int|
                0 <= k < i ==> (#[trigger] rows@[k]).kind@ == "concept"@,
        decreases core@.len() - i,
    {
        let page = &core[i];
        let kind = find_kind(&overview.pages, page.path.as_str());
        let concept = str_eq(kind.as_str(), "concept");
        let ghost before = rows@;
        rows.push(
            OverviewPageRow {
                href: page_href(workspace, project, page.path.as_str()),
                title: page.title.clone(),
                kind,
                summary: None,
                date: None,
            },
        );
        proof {
            assert(rows@[i as int].kind@ == kind@);
            if all_concepts && concept {
                assert forall|k: int| 0 <= k < i + 1 implies (#[trigger] rows@[k]).kind@
                    == "concept"@ by {
                    if k < i {
                        assert(rows@[k] == before[k]);
                    }
                }
            }
            if !all_concepts {
                let k = choose|k: int| 0 <= k < i && (#[trigger] before[k]).kind@ != "concept"@;
                assert(rows@[k] == before[k]);
            }
        }
        all_concepts = all_concepts && concept;
        i = i + 1;
    }
    let title = if all_concepts {
        "Conceitos centrais"
    } else {
        "Páginas centrais (nem todas são conceitos)"
    };
    (title, !all_concepts, rows)
}

/// The dates of the first and the last session; none unless both are known.
pub fn period_row(overview: &ProjectOverview) -> (r: Option<PeriodRow>)
    ensures
        is_period(r, *overview),
{
    match (overview.first_session_us, overview.last_session_us) {
        (Some(first), Some(last)) => Some(
            PeriodRow { first: day_key(first), last: day_key(last) },
        ),
        _ => None,
    }
}

/// The overview of a project: its numbers, what changed of late, its recent decisions and
/// gotchas, its core pages, and what has no origin.
pub fn overview_view(
    workspace: &str,
    project: &str,
    overview: &ProjectOverview,
    core: &[BriefPageBody],
    weeks: &Vec<WeekChanges>,
    kinds: &Vec<PageKind>,
) -> (view: OverviewView)
    ensures
        is_overview_view(view, workspace@, project@, *overview, core@, weeks@, kinds@),
{
    let base_href = project_href(workspace, project);
    let (core_title, core_show_kind, core_pages) = core_pages_section(
        core,
        overview,
        workspace,
        project,
    );
    OverviewView {
        workspace: workspace.to_owned(),
        project: project.to_owned(),
        aba: "visao",
        kind_counts: kind_counts(overview, base_href.as_str(), kinds),
        period: period_row(overview),
        weeks: week_rows(weeks, workspace, project),
        recent_decisions: recent_by_kind(overview, "decision", workspace, project),
        core_title,
        core_show_kind,
        core_pages,
        recent_gotchas: recent_by_kind(overview, "gotcha", workspace, project),
        missing_origin: missing_origin(overview, base_href.as_str(), kinds),
        base_href,
    }
}

/// The dates of the pages that have an origin.
pub open spec fn origin_days(pages: Seq<OverviewPage>) -> Seq<Seq<char>>
    decreases pages.len(),
{
    if pages.len() == 0 {
        Seq::empty()
    } else {
        match pages.last().origin_us {
            Some(us) => origin_days(pages.drop_last()).push(date_of(us as int)),
            None => origin_days(pages.drop_last()),
        }
    }
}

/// The kinds of the pages that have an origin.
pub open spec fn origin_kinds(pages: Seq<OverviewPage>) -> Seq<Seq<char>>
    decreases pages.len(),
{
    if pages.len() == 0 {
        Seq::empty()
    } else if pages.last().origin_us is Some {
        origin_kinds(pages.drop_last()).push(pages.last().kind@)
    } else {
        origin_kinds(pages.drop_last())
    }
}

/// How many pages of each kind have their origin on each day.
pub fn origin_counts_by_day(overview: &ProjectOverview) -> (tallies: Vec<DayTally>)
    ensures
        tallies_by_day(
            tallies@,
            origin_days(overview.pages@),
            origin_kinds(overview.pages@),
        ),
{
    broadcast use lemma_views_push;

    let pages = &overview.pages;
    let mut days: Vec<String> = Vec::new();
    let mut kinds: Vec<String> = Vec::new();
    let mut i: usize = 0;
    assert(views(days@) =~= Seq::empty());
    assert(views(kinds@) =~= Seq::empty());
    while i < pages.len()
        invariant
            i <= pages@.len(),
            days@.len() == kinds@.len(),
            views(days@) == origin_days(pages@.take(i as int)),
            views(kinds@) == origin_kinds(pages@.take(i as int)),
        decreases pages@.len() - i,
    {
        assert(pages@.take(i + 1).drop_last() =~= pages@.take(i as int));
        if let Some(us) = pages[i].origin_us {
            days.push(day_key(us));
            kinds.push(pages[i].kind.clone());
        }
        i = i + 1;
    }
    assert(pages@.take(i as int) =~= pages@);
    count_by_day(&days, &kinds)
}

/// Every kind of which a page has no origin is shown, with the number of such pages.
pub proof fn law_missing_origins_are_shown(
    kinds: Seq<PageKind>,
    base: Seq<char>,
    pages: Seq<OverviewPage>,
    i: int,
)
    requires
        0 <= i < pages.len(),
        pages[i].origin_us is None,
    ensures
        ({
            let s = kinds_without_origin(pages);
            let kind = pages[i].kind@;
            &&& occurrences(s, kind) > 0
            &&& missing_entries(kinds, base, s).contains(
                kind_entry(kinds, base, kind, occurrences(s, kind)),
            )
        }),
{
    let s = kinds_without_origin(pages);
    let kind = pages[i].kind@;
    let entry = kind_entry(kinds, base, kind, occurrences(s, kind));
    lemma_kind_is_missing(pages, i);
    lemma_occurrences_bound(s, kind);
    let listed = listed_entries(kinds, kinds.len(), base, s);
    let others = sorted_distinct(unlisted(kinds, s));
    let rest = named_entries(kinds, others, base, s);
    if is_listed(kinds, kind) {
        let k = choose|k: int| 0 <= k < kinds.len() && (#[trigger] kinds[k]).kind@ == kind;
        lemma_listed_is_shown(kinds, kinds.len(), base, s, k);
        let m = choose|m: int| 0 <= m < listed.len() && listed[m] == entry;
        assert((listed + rest)[m] == entry);
    } else {
        lemma_unlisted_contains(kinds, s, kind);
        law_sorted_distinct_exists(unlisted(kinds, s));
        assert(others.contains(kind));
        let m = choose|m: int| 0 <= m < others.len() && others[m] == kind;
        assert(rest[m] == entry);
        assert((listed + rest)[listed.len() + m] == entry);
    }
}

proof fn lemma_kind_is_missing(pages: Seq<OverviewPage>, i: int)
    requires
        0 <= i < pages.len(),
        pages[i].origin_us is None,
    ensures
        kinds_without_origin(pages).contains(pages[i].kind@),
    decreases pages.len(),
{
    let rest = kinds_without_origin(pages.drop_last());
    if i == pages.len() - 1 {
        assert(kinds_without_origin(pages).last() == pages[i].kind@);
    } else {
        lemma_kind_is_missing(pages.drop_last(), i);
        let m = choose|m: int| 0 <= m < rest.len() && rest[m] == pages[i].kind@;
        assert(kinds_without_origin(pages)[m] == pages[i].kind@);
    }
}

proof fn lemma_listed_is_shown(
    kinds: Seq<PageKind>,
    n: nat,
    base: Seq<char>,
    s: Seq<Seq<char>>,
    k: int,
)
    requires
        0 <= k < n <= kinds.len(),
        occurrences(s, kinds[k].kind@) > 0,
    ensures
        listed_entries(kinds, n, base, s).contains(
            kind_entry(kinds, base, kinds[k].kind@, occurrences(s, kinds[k].kind@)),
        ),
    decreases n,
{
    let all = listed_entries(kinds, n, base, s);
    let before = listed_entries(kinds, (n - 1) as nat, base, s);
    let entry = kind_entry(kinds, base, kinds[k].kind@, occurrences(s, kinds[k].kind@));
    if k == n - 1 {
        assert(all[before.len() as int] == entry);
    } else {
        lemma_listed_is_shown(kinds, (n - 1) as nat, base, s, k);
        let m = choose|m: int| 0 <= m < before.len() && before[m] == entry;
        assert(all[m] == entry);
    }
}

proof fn lemma_unlisted_contains(kinds: Seq<PageKind>, s: Seq<Seq<char>>, kind: Seq<char>)
    requires
        s.contains(kind),
        !is_listed(kinds, kind),
    ensures
        unlisted(kinds, s).contains(kind),
    decreases s.len(),
{
    let all = unlisted(kinds, s);
    let rest = unlisted(kinds, s.drop_last());
    if s.last() == kind {
        assert(all[rest.len() as int] == kind);
    } else {
        let i = choose|i: int| 0 <= i < s.len() && s[i] == kind;
        assert(s.drop_last()[i] == kind);
        lemma_unlisted_contains(kinds, s.drop_last(), kind);
        let m = choose|m: int| 0 <= m < rest.len() && rest[m] == kind;
        assert(all[m] == kind);
    }
}

proof fn lemma_origin_counts(pages: Seq<OverviewPage>, date: Seq<char>, kind: Seq<char>)
    ensures
        origin_days(pages).len() == origin_kinds(pages).len(),
        origin_days(pages).len() == pages.filter(|p: OverviewPage| p.origin_us is Some).len(),
        occurrences(kinds_on(origin_days(pages), origin_kinds(pages), date), kind) == pages.filter(
            |p: OverviewPage|
                p.origin_us is Some && date_of(p.origin_us->Some_0 as int) == date && p.kind@
                    == kind,
        ).len(),
    decreases pages.len(),
{
    reveal(Seq::filter);
    if pages.len() > 0 {
        let rest = pages.drop_last();
        lemma_origin_counts(rest, date, kind);
        let (days, kinds) = (origin_days(pages), origin_kinds(pages));
        if pages.last().origin_us is Some {
            assert(days.drop_last() =~= origin_days(rest));
            lemma_kinds_on_prefix(origin_days(rest), origin_kinds(rest), pages.last().kind@, date);
            let before = kinds_on(origin_days(rest), origin_kinds(rest), date);
            if days.last() == date {
                assert(before.push(pages.last().kind@).drop_last() =~= before);
            }
        }
    }
}

proof fn lemma_origin_has(pages: Seq<OverviewPage>, i: int)
    requires
        0 <= i < pages.len(),
        pages[i].origin_us is Some,
    ensures
        exists|q: int|
            0 <= q < origin_days(pages).len() && #[trigger] origin_days(pages)[q] == date_of(
                pages[i].origin_us->Some_0 as int,
            ) && origin_kinds(pages)[q] == pages[i].kind@,
    decreases pages.len(),
{
    let (days, kinds) = (origin_days(pages), origin_kinds(pages));
    let rest = pages.drop_last();
    lemma_origin_counts(rest, Seq::empty(), Seq::empty());
    if i < rest.len() {
        assert(rest[i] == pages[i]);
        lemma_origin_has(rest, i);
        let q = choose|q: int|
            0 <= q < origin_days(rest).len() && #[trigger] origin_days(rest)[q] == date_of(
                pages[i].origin_us->Some_0 as int,
            ) && origin_kinds(rest)[q] == pages[i].kind@;
        assert(days[q] == origin_days(rest)[q]);
        assert(kinds[q] == origin_kinds(rest)[q]);
    } else {
        assert(days[days.len() - 1] == date_of(pages[i].origin_us->Some_0 as int));
        assert(kinds[days.len() - 1] == pages[i].kind@);
    }
}

/// Every page that has an origin counts once, on the day of its origin and under its kind,
/// whatever else it holds. A count is the number of such pages, and all counts together are
/// the number of pages that have an origin.
pub proof fn law_every_origin_counts_on_its_day(tallies: Seq<DayTally>, pages: Seq<OverviewPage>)
    requires
        tallies_by_day(tallies, origin_days(pages), origin_kinds(pages)),
    ensures
        tallied_days(tallies) == pages.filter(|p: OverviewPage| p.origin_us is Some).len(),
        forall|k: int, m: int|
            0 <= k < tallies.len() && 0 <= m < tallies[k].kinds@.len() ==> {
                let date = tallies[k].date@;
                let tally = #[trigger] tallies[k].kinds@[m];
                let kind = tally.kind@;
                &&& tally.count > 0
                &&& tally.count == pages.filter(
                    |p: OverviewPage|
                        p.origin_us is Some && date_of(p.origin_us->Some_0 as int) == date
                            && p.kind@ == kind,
                ).len()
            },
        forall|i: int|
            0 <= i < pages.len() && (#[trigger] pages[i]).origin_us is Some ==> exists|
                k: int,
                m: int,
            |
                0 <= k < tallies.len() && 0 <= m < tallies[k].kinds@.len() && tallies[k].date@
                    == date_of(pages[i].origin_us->Some_0 as int) && (
                #[trigger] tallies[k].kinds@[m]).kind@ == pages[i].kind@,
{
    let (days, kinds) = (origin_days(pages), origin_kinds(pages));
    lemma_origin_counts(pages, Seq::empty(), Seq::empty());
    law_every_item_is_counted_once(tallies, days, kinds);
    law_tallies_count_the_items(tallies, days, kinds);
    assert forall|k: int, m: int|
        0 <= k < tallies.len() && 0 <= m < tallies[k].kinds@.len() implies {
        let date = tallies[k].date@;
        let tally = #[trigger] tallies[k].kinds@[m];
        let kind = tally.kind@;
        &&& tally.count > 0
        &&& tally.count == pages.filter(
            |p: OverviewPage|
                p.origin_us is Some && date_of(p.origin_us->Some_0 as int) == date && p.kind@
                    == kind,
        ).len()
    } by {
        let date = tallies[k].date@;
        let tally = tallies[k].kinds@[m];
        lemma_origin_counts(pages, date, tally.kind@);
        assert(tallies_of(tallies[k].kinds@, kinds_on(days, kinds, date)));
    }
    assert forall|i: int|
        0 <= i < pages.len() && (#[trigger] pages[i]).origin_us is Some implies exists|
        k: int,
        m: int,
    |
        0 <= k < tallies.len() && 0 <= m < tallies[k].kinds@.len() && tallies[k].date@ == date_of(
            pages[i].origin_us->Some_0 as int,
        ) && (#[trigger] tallies[k].kinds@[m]).kind@ == pages[i].kind@ by {
        lemma_origin_has(pages, i);
        let q = choose|q: int|
            0 <= q < days.len() && #[trigger] days[q] == date_of(pages[i].origin_us->Some_0 as int)
                && kinds[q] == pages[i].kind@;
        assert(days[q] == days[q]);
    }
}

pub proof fn lemma_unlisted_has(kinds: Seq<PageKind>, s: Seq<Seq<char>>, kind: Seq<char>)
    ensures
        unlisted(kinds, s).contains(kind) <==> s.contains(kind) && !is_listed(kinds, kind),
    decreases s.len(),
{
    if s.contains(kind) && !is_listed(kinds, kind) {
        lemma_unlisted_contains(kinds, s, kind);
    }
    let all = unlisted(kinds, s);
    if all.contains(kind) {
        let m = choose|m: int| 0 <= m < all.len() && all[m] == kind;
        let rest = unlisted(kinds, s.drop_last());
        if m < rest.len() {
            assert(rest[m] == kind);
            lemma_unlisted_has(kinds, s.drop_last(), kind);
            let i = choose|i: int| 0 <= i < s.len() - 1 && s.drop_last()[i] == kind;
            assert(s[i] == kind);
        } else {
            assert(s[s.len() - 1] == kind);
        }
    }
}

proof fn lemma_kinds_of_count(pages: Seq<OverviewPage>, kind: Seq<char>)
    ensures
        occurrences(kinds_of(pages), kind) == pages.filter(|p: OverviewPage| p.kind@ == kind).len(),
        occurrences(kinds_without_origin(pages), kind) == pages.filter(
            |p: OverviewPage| p.origin_us is None && p.kind@ == kind,
        ).len(),
    decreases pages.len(),
{
    reveal(Seq::filter);
    if pages.len() > 0 {
        let rest = pages.drop_last();
        lemma_kinds_of_count(rest, kind);
        assert(kinds_of(pages).drop_last() =~= kinds_of(rest));
        if pages.last().origin_us is None {
            assert(kinds_without_origin(pages).drop_last() =~= kinds_without_origin(rest));
        }
    }
}

/// A kind of page has its own folder, to which its counts link. The others link to the list.
pub proof fn law_counts_link_to_their_folder(base: Seq<char>, kind: Seq<char>)
    ensures
        kind == "decision"@ ==> kind_link(base, kind) == base + "/paginas#pasta-"@ + "decisions"@,
        kind == "concept"@ ==> kind_link(base, kind) == base + "/paginas#pasta-"@ + "concepts"@,
        kind == "gotcha"@ ==> kind_link(base, kind) == base + "/paginas#pasta-"@ + "gotchas"@,
        kind == "rule"@ ==> kind_link(base, kind) == base + "/paginas#pasta-"@ + "_rules"@,
        kind == "procedure"@ ==> kind_link(base, kind) == base + "/paginas#pasta-"@ + "procedures"@,
        kind != "decision"@ && kind != "concept"@ && kind != "gotcha"@ && kind != "rule"@ && kind
            != "procedure"@ ==> kind_link(base, kind) == base + "/paginas"@,
{
    reveal_strlit("decision");
    reveal_strlit("concept");
    reveal_strlit("gotcha");
    reveal_strlit("rule");
    reveal_strlit("procedure");
    assert("decision"@.len() == 8 && "concept"@.len() == 7 && "gotcha"@.len() == 6);
    assert("rule"@.len() == 4 && "procedure"@.len() == 9);
}

/// The counts of an overview are one for each listed kind, in the order of the list, that says
/// how many pages are of that kind, and at the end one of the sessions.
pub proof fn law_overview_counts_its_pages(
    view: OverviewView,
    workspace: Seq<char>,
    project: Seq<char>,
    overview: ProjectOverview,
    core: Seq<BriefPageBody>,
    weeks: Seq<WeekChanges>,
    kinds: Seq<PageKind>,
)
    requires
        is_overview_view(view, workspace, project, overview, core, weeks, kinds),
    ensures
        view.kind_counts@.len() == kinds.len() + 1,
        forall|k: int|
            0 <= k < kinds.len() ==> {
                let kind = kinds[k].kind@;
                let row = #[trigger] view.kind_counts@[k];
                &&& row.label@ == kind_label(
                    kinds,
                    kind,
                    overview.pages@.filter(|p: OverviewPage| p.kind@ == kind).len(),
                )
                &&& row.href@ == kind_link(project_link(workspace, project), kind)
            },
        view.kind_counts@.last().label@ == decimal(overview.sessions@.len()) + " "@ + (if
        overview.sessions@.len() == 1 {
            "sessão"@
        } else {
            "sessões"@
        }),
        view.kind_counts@.last().href@ == project_link(workspace, project)
            + "/paginas#pasta-sessions"@,
{
    let base = project_link(workspace, project);
    let pages = overview.pages@;
    let rows = entries(view.kind_counts@);
    let want = count_entries(kinds, base, overview);
    assert(rows.len() == view.kind_counts@.len());
    assert(want.len() == kinds.len() + 1);
    assert forall|k: int| 0 <= k < kinds.len() implies {
        let kind = kinds[k].kind@;
        let row = #[trigger] view.kind_counts@[k];
        &&& row.label@ == kind_label(
            kinds,
            kind,
            pages.filter(|p: OverviewPage| p.kind@ == kind).len(),
        )
        &&& row.href@ == kind_link(base, kind)
    } by {
        lemma_kinds_of_count(pages, kinds[k].kind@);
        assert(rows[k] == (view.kind_counts@[k].label@, view.kind_counts@[k].href@));
        assert(want[k] == kind_entry(
            kinds,
            base,
            kinds[k].kind@,
            occurrences(kinds_of(pages), kinds[k].kind@),
        ));
    }
    let last = view.kind_counts@.len() - 1;
    assert(rows[last] == (view.kind_counts@[last].label@, view.kind_counts@[last].href@));
}

/// Some page of a kind has no origin.
pub open spec fn lacks_origin(pages: Seq<OverviewPage>, kind: Seq<char>) -> bool {
    exists|i: int|
        0 <= i < pages.len() && (#[trigger] pages[i]).origin_us is None && pages[i].kind@ == kind
}

/// An overview says of each kind of which some page has no origin how many those are: of the
/// listed kinds in the order of the list, and then of the others in ascending order.
pub proof fn law_overview_counts_pages_without_origin(
    view: OverviewView,
    workspace: Seq<char>,
    project: Seq<char>,
    overview: ProjectOverview,
    core: Seq<BriefPageBody>,
    weeks: Seq<WeekChanges>,
    kinds: Seq<PageKind>,
)
    requires
        is_overview_view(view, workspace, project, overview, core, weeks, kinds),
    ensures
        exists|others: Seq<Seq<char>>|
            {
                let pages = overview.pages@;
                let names = kinds.map_values(|k: PageKind| k.kind@).filter(
                    |t: Seq<char>| lacks_origin(pages, t),
                ) + others;
                &&& #[trigger] ascending(others)
                &&& forall|t: Seq<char>| #[trigger]
                    others.contains(t) <==> lacks_origin(pages, t) && !is_listed(kinds, t)
                &&& view.missing_origin@.len() == names.len()
                &&& forall|m: int|
                    0 <= m < names.len() ==> {
                        let row = #[trigger] view.missing_origin@[m];
                        let kind = names[m];
                        &&& row.label@ == kind_label(
                            kinds,
                            kind,
                            pages.filter(
                                |p: OverviewPage| p.origin_us is None && p.kind@ == kind,
                            ).len(),
                        )
                        &&& row.href@ == kind_link(project_link(workspace, project), kind)
                    }
            },
{
    let base = project_link(workspace, project);
    let pages = overview.pages@;
    let s = kinds_without_origin(pages);
    let lacking = |t: Seq<char>| lacks_origin(pages, t);
    let others = sorted_distinct(unlisted(kinds, s));
    let listed = kinds.map_values(|k: PageKind| k.kind@).filter(lacking);
    let names = listed + others;
    law_sorted_distinct_exists(unlisted(kinds, s));
    assert forall|t: Seq<char>| #[trigger]
        others.contains(t) <==> lacks_origin(pages, t) && !is_listed(kinds, t) by {
        lemma_unlisted_has(kinds, s, t);
        lemma_lacks_origin(pages, t);
    }
    lemma_listed_entries(kinds, kinds.len(), base, pages);
    assert(kinds.take(kinds.len() as int) =~= kinds);
    let rows = entries(view.missing_origin@);
    assert(rows.len() == view.missing_origin@.len());
    assert forall|m: int| 0 <= m < names.len() implies {
        let row = #[trigger] view.missing_origin@[m];
        let kind = names[m];
        &&& row.label@ == kind_label(
            kinds,
            kind,
            pages.filter(|p: OverviewPage| p.origin_us is None && p.kind@ == kind).len(),
        )
        &&& row.href@ == kind_link(base, kind)
    } by {
        let kind = names[m];
        lemma_kinds_of_count(pages, kind);
        assert(rows[m] == (view.missing_origin@[m].label@, view.missing_origin@[m].href@));
        if m < listed.len() {
            assert(rows[m] == listed_entries(kinds, kinds.len(), base, s)[m]);
        } else {
            assert(rows[m] == named_entries(kinds, others, base, s)[m - listed.len()]);
        }
        assert(rows[m] == kind_entry(kinds, base, kind, occurrences(s, kind)));
    }
    assert(ascending(others));
}

proof fn lemma_lacks_origin(pages: Seq<OverviewPage>, kind: Seq<char>)
    ensures
        lacks_origin(pages, kind) <==> kinds_without_origin(pages).contains(kind),
        lacks_origin(pages, kind) <==> occurrences(kinds_without_origin(pages), kind) > 0,
    decreases pages.len(),
{
    let s = kinds_without_origin(pages);
    lemma_occurrences_bound(s, kind);
    if lacks_origin(pages, kind) {
        let i = choose|i: int|
            0 <= i < pages.len() && (#[trigger] pages[i]).origin_us is None && pages[i].kind@
                == kind;
        lemma_kind_is_missing(pages, i);
    }
    if pages.len() > 0 {
        let rest = pages.drop_last();
        lemma_lacks_origin(rest, kind);
        if s.contains(kind) {
            if lacks_origin(rest, kind) {
                let i = choose|i: int|
                    0 <= i < rest.len() && (#[trigger] rest[i]).origin_us is None && rest[i].kind@
                        == kind;
                assert(pages[i].origin_us is None);
            } else {
                let m = choose|m: int| 0 <= m < s.len() && s[m] == kind;
                let before = kinds_without_origin(rest);
                if m < before.len() {
                    assert(before[m] == kind);
                }
                assert(pages[pages.len() - 1].origin_us is None);
            }
        }
    }
}

proof fn lemma_listed_entries(
    kinds: Seq<PageKind>,
    n: nat,
    base: Seq<char>,
    pages: Seq<OverviewPage>,
)
    requires
        n <= kinds.len(),
    ensures
        ({
            let s = kinds_without_origin(pages);
            let names = kinds.take(n as int).map_values(|k: PageKind| k.kind@).filter(
                |t: Seq<char>| lacks_origin(pages, t),
            );
            let all = listed_entries(kinds, n, base, s);
            &&& all.len() == names.len()
            &&& forall|m: int|
                0 <= m < all.len() ==> #[trigger] all[m] == kind_entry(
                    kinds,
                    base,
                    names[m],
                    occurrences(s, names[m]),
                )
        }),
    decreases n,
{
    reveal(Seq::filter);
    let some = kinds.take(n as int).map_values(|k: PageKind| k.kind@);
    if n > 0 {
        lemma_listed_entries(kinds, (n - 1) as nat, base, pages);
        lemma_lacks_origin(pages, kinds[n - 1].kind@);
        assert(some.drop_last() =~= kinds.take(n - 1).map_values(|k: PageKind| k.kind@));
        assert(some.last() == kinds[n - 1].kind@);
    } else {
        assert(some.len() == 0);
    }
}

/// A row has the link, the title and the kind of a page, and its summary and the date of its
/// origin where it has them.
pub open spec fn shows_page_in_full(
    row: OverviewPageRow,
    page: OverviewPage,
    workspace: Seq<char>,
    project: Seq<char>,
) -> bool {
    &&& row.href@ == page_link(workspace, project, page.path@)
    &&& row.title@ == page.title@
    &&& row.kind@ == page.kind@
    &&& row.summary is Some <==> page.summary is Some
    &&& page.summary matches Some(text) ==> row.summary->Some_0@ == text@
    &&& row.date is Some <==> page.origin_us is Some
    &&& page.origin_us matches Some(us) ==> row.date->Some_0@ == date_of(us as int)
}

/// The recent pages of a kind are at most ten of those that have an origin, the latest origin
/// first, and of one origin in the order of their paths. A page is left out only where there are
/// ten that come before it.
pub proof fn law_recent_pages_have_the_latest_origins(
    rows: Seq<OverviewPageRow>,
    pages: Seq<OverviewPage>,
    kind: Seq<char>,
    workspace: Seq<char>,
    project: Seq<char>,
)
    requires
        are_recent_rows(rows, pages, kind, workspace, project),
    ensures
        rows.len() <= 10,
        exists|at: Seq<int>|
            {
                &&& #[trigger] at.len() == rows.len()
                &&& forall|k: int|
                    0 <= k < at.len() ==> 0 <= #[trigger] at[k] < pages.len() && pages[at[k]].kind@
                        == kind && pages[at[k]].origin_us is Some
                &&& forall|k: int|
                    0 <= k < at.len() ==> shows_page_in_full(
                        #[trigger] rows[k],
                        pages[at[k]],
                        workspace,
                        project,
                    )
                &&& forall|a: int, b: int|
                    0 <= a < b < at.len() ==> comes_first(
                        pages,
                        #[trigger] at[a],
                        #[trigger] at[b],
                    )
                &&& forall|i: int|
                    0 <= i < pages.len() && (#[trigger] pages[i]).kind@ == kind
                        && pages[i].origin_us is Some && !at.contains(i) ==> rows.len() == 10
                        && forall|k: int|
                        0 <= k < at.len() ==> comes_first(pages, #[trigger] at[k], i)
            },
{
    let order = recent_order(pages, kind);
    let at = order.take(rows.len() as int);
    assert forall|k: int| 0 <= k < at.len() implies 0 <= #[trigger] at[k] < pages.len()
        && pages[at[k]].kind@ == kind && pages[at[k]].origin_us is Some by {
        assert(order.contains(order[k]));
    }
    assert forall|k: int| 0 <= k < at.len() implies shows_page_in_full(
        #[trigger] rows[k],
        pages[at[k]],
        workspace,
        project,
    ) by {
        assert(is_page_row(rows[k], pages[order[k]], workspace, project, true));
    }
    assert forall|a: int, b: int| 0 <= a < b < at.len() implies comes_first(
        pages,
        #[trigger] at[a],
        #[trigger] at[b],
    ) by {
        assert(order.contains(order[a]) && order.contains(order[b]));
        assert(recency(pages)(order[a], order[b]));
    }
    assert forall|i: int|
        0 <= i < pages.len() && (#[trigger] pages[i]).kind@ == kind && pages[i].origin_us is Some
            && !at.contains(i) implies rows.len() == 10 && forall|k: int|
        0 <= k < at.len() ==> comes_first(pages, #[trigger] at[k], i) by {
        assert(order.contains(i));
        let j = choose|j: int| 0 <= j < order.len() && order[j] == i;
        if j < at.len() {
            assert(at[j] == i);
        }
        assert forall|k: int| 0 <= k < at.len() implies comes_first(
            pages,
            #[trigger] at[k],
            i,
        ) by {
            assert(order.contains(order[k]));
            assert(recency(pages)(order[k], order[j]));
        }
    }
    assert(at.len() == rows.len());
}

/// Page `i` has a later origin than page `j`, or the same and a path that comes first, or both
/// the same and is given first.
pub open spec fn comes_first(pages: Seq<OverviewPage>, i: int, j: int) -> bool {
    let (x, y) = (pages[i].origin_us->Some_0, pages[j].origin_us->Some_0);
    ||| x > y
    ||| x == y && text_before(pages[i].path@, pages[j].path@)
    ||| x == y && pages[i].path@ == pages[j].path@ && i < j
}

/// The central pages are those of the briefing in its order, each under the kind of the last
/// page of the overview that has its path, and under "outro" where none has. The section is one
/// of concepts exactly where every page in it is a concept.
pub proof fn law_central_pages_have_the_kind_of_the_overview(
    view: OverviewView,
    workspace: Seq<char>,
    project: Seq<char>,
    overview: ProjectOverview,
    core: Seq<BriefPageBody>,
    weeks: Seq<WeekChanges>,
    kinds: Seq<PageKind>,
)
    requires
        is_overview_view(view, workspace, project, overview, core, weeks, kinds),
    ensures
        view.core_pages@.len() == core.len(),
        forall|k: int|
            0 <= k < core.len() ==> (#[trigger] view.core_pages@[k]).title@ == core[k].title@
                && view.core_pages@[k].href@ == page_link(workspace, project, core[k].path@)
                && view.core_pages@[k].summary is None && view.core_pages@[k].date is None,
        forall|k: int, i: int|
            0 <= k < core.len() && 0 <= i < overview.pages@.len() && (
            #[trigger] overview.pages@[i]).path@ == core[k].path@ && (forall|j: int|
                i < j < overview.pages@.len() ==> (#[trigger] overview.pages@[j]).path@
                    != core[k].path@) ==> (#[trigger] view.core_pages@[k]).kind@
                == overview.pages@[i].kind@,
        forall|k: int|
            0 <= k < core.len() && (forall|i: int|
                0 <= i < overview.pages@.len() ==> (#[trigger] overview.pages@[i]).path@
                    != core[k].path@) ==> (#[trigger] view.core_pages@[k]).kind@ == "outro"@,
        (forall|k: int|
            0 <= k < core.len() ==> (#[trigger] view.core_pages@[k]).kind@ == "concept"@)
            ==> !view.core_show_kind && view.core_title@ == "Conceitos centrais"@,
        (exists|k: int|
            0 <= k < core.len() && (#[trigger] view.core_pages@[k]).kind@ != "concept"@)
            ==> view.core_show_kind && view.core_title@
            == "Páginas centrais (nem todas são conceitos)"@,
{
    let pages = overview.pages@;
    assert forall|k: int| 0 <= k < core.len() implies is_core_row(
        #[trigger] view.core_pages@[k],
        core[k],
        pages,
        workspace,
        project,
    ) by {
    }
    assert forall|k: int, i: int|
        0 <= k < core.len() && 0 <= i < pages.len() && (#[trigger] pages[i]).path@ == core[k].path@
            && (forall|j: int| i < j < pages.len() ==> (#[trigger] pages[j]).path@ != core[k].path@)
        implies (#[trigger] view.core_pages@[k]).kind@ == pages[i].kind@ by {
        lemma_kind_at(pages, core[k].path@, i);
    }
    assert forall|k: int|
        0 <= k < core.len() && (forall|i: int|
            0 <= i < pages.len() ==> (#[trigger] pages[i]).path@ != core[k].path@) implies (
    #[trigger] view.core_pages@[k]).kind@ == "outro"@ by {
        lemma_kind_at(pages, core[k].path@, -1);
    }
}

proof fn lemma_kind_at(pages: Seq<OverviewPage>, path: Seq<char>, i: int)
    requires
        -1 <= i < pages.len(),
        i >= 0 ==> pages[i].path@ == path,
        forall|j: int| i < j < pages.len() ==> (#[trigger] pages[j]).path@ != path,
    ensures
        i >= 0 ==> kind_at(pages, path) == Some(pages[i].kind@),
        i < 0 ==> kind_at(pages, path) is None,
    decreases pages.len(),
{
    if pages.len() > 0 && i < pages.len() - 1 {
        let rest = pages.drop_last();
        assert forall|j: int| i < j < rest.len() implies (#[trigger] rest[j]).path@ != path by {
            assert(pages[j].path@ != path);
        }
        assert(pages[pages.len() - 1].path@ != path);
        lemma_kind_at(rest, path, i);
    }
}

/// A row has the link, the title and the kind of a page, and nothing else of it.
pub open spec fn shows_page_in_short(
    row: OverviewPageRow,
    page: OverviewPage,
    workspace: Seq<char>,
    project: Seq<char>,
) -> bool {
    &&& row.href@ == page_link(workspace, project, page.path@)
    &&& row.title@ == page.title@
    &&& row.kind@ == page.kind@
    &&& row.summary is None
    &&& row.date is None
}

/// Every week is shown, with the number of its sessions, all its decisions and concepts, and the
/// session that produced most in it where there is one.
pub proof fn law_weeks_show_what_changed(
    view: OverviewView,
    workspace: Seq<char>,
    project: Seq<char>,
    overview: ProjectOverview,
    core: Seq<BriefPageBody>,
    weeks: Seq<WeekChanges>,
    kinds: Seq<PageKind>,
    w: int,
)
    requires
        is_overview_view(view, workspace, project, overview, core, weeks, kinds),
        0 <= w < weeks.len(),
    ensures
        view.weeks@.len() == weeks.len(),
        ({
            let (row, week) = (view.weeks@[w], weeks[w]);
            &&& row.start_date@ == week.start_date@
            &&& row.sessions_label@ == decimal(week.sessions as nat) + " "@ + (if week.sessions == 1 {
                "sessão"@
            } else {
                "sessões"@
            })
            &&& row.new_decisions@.len() == week.new_decisions@.len()
            &&& forall|k: int|
                0 <= k < week.new_decisions@.len() ==> shows_page_in_short(
                    #[trigger] row.new_decisions@[k],
                    week.new_decisions@[k],
                    workspace,
                    project,
                )
            &&& row.new_or_updated_concepts@.len() == week.new_or_updated_concepts@.len()
            &&& forall|k: int|
                0 <= k < week.new_or_updated_concepts@.len() ==> shows_page_in_short(
                    #[trigger] row.new_or_updated_concepts@[k],
                    week.new_or_updated_concepts@[k],
                    workspace,
                    project,
                )
            &&& row.top_session is Some <==> week.top_session is Some
            &&& week.top_session matches Some(session) ==> row.top_session->Some_0.agent@
                == session.agent@ && row.top_session->Some_0.pages_label@ == decimal(
                session.produced as nat,
            ) + " "@ + (if session.produced == 1 {
                "página"@
            } else {
                "páginas"@
            })
        }),
{
    let (row, week) = (view.weeks@[w], weeks[w]);
    assert(is_week_row(row, week, workspace, project));
    assert forall|k: int| 0 <= k < week.new_decisions@.len() implies shows_page_in_short(
        #[trigger] row.new_decisions@[k],
        week.new_decisions@[k],
        workspace,
        project,
    ) by {
        assert(is_page_row(
            row.new_decisions@[k],
            week.new_decisions@[k],
            workspace,
            project,
            false,
        ));
    }
    assert forall|k: int| 0 <= k < week.new_or_updated_concepts@.len() implies shows_page_in_short(
        #[trigger] row.new_or_updated_concepts@[k],
        week.new_or_updated_concepts@[k],
        workspace,
        project,
    ) by {
        assert(is_page_row(
            row.new_or_updated_concepts@[k],
            week.new_or_updated_concepts@[k],
            workspace,
            project,
            false,
        ));
    }
}

/// The period of an overview is from the date of the first session to that of the last, where
/// both are known. Its recent pages are the decisions and the gotchas.
pub proof fn law_period_spans_the_sessions(
    view: OverviewView,
    workspace: Seq<char>,
    project: Seq<char>,
    overview: ProjectOverview,
    core: Seq<BriefPageBody>,
    weeks: Seq<WeekChanges>,
    kinds: Seq<PageKind>,
)
    requires
        is_overview_view(view, workspace, project, overview, core, weeks, kinds),
    ensures
        view.workspace@ == workspace,
        view.project@ == project,
        view.base_href@ == project_link(workspace, project),
        view.aba@ == "visao"@,
        view.period is Some <==> overview.first_session_us is Some && overview.last_session_us is Some,
        view.period is Some ==> view.period->Some_0.first@ == date_of(
            overview.first_session_us->Some_0 as int,
        ),
        view.period is Some ==> view.period->Some_0.last@ == date_of(
            overview.last_session_us->Some_0 as int,
        ),
        are_recent_rows(
            view.recent_decisions@,
            overview.pages@,
            "decision"@,
            workspace,
            project,
        ),
        are_recent_rows(view.recent_gotchas@, overview.pages@, "gotcha"@, workspace, project),
{
}

/// A page is shown in full or in short as asked for, whatever it holds.
pub proof fn law_pages_are_shown_as_asked_for(
    row: OverviewPageRow,
    page: OverviewPage,
    workspace: Seq<char>,
    project: Seq<char>,
    detailed: bool,
)
    requires
        is_page_row(row, page, workspace, project, detailed),
    ensures
        detailed ==> shows_page_in_full(row, page, workspace, project),
        !detailed ==> shows_page_in_short(row, page, workspace, project),
{
}

} // verus!
