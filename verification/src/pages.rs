//! The pages of a project: folder by folder, and the recent ones.

use vstd::prelude::*;
use vstd::string::*;

use crate::clock::clock_us;
use crate::clock::humanize_at;
use crate::clock::humanized;
use crate::clock::EARLIEST_US;
use crate::clock::LATEST_US;
use crate::href::page_href;
use crate::href::page_link;
use crate::href::project_href;
use crate::href::project_link;
use crate::order::distinct_sorted;
use crate::order::in_order;
use crate::order::law_sorted_distinct_exists;
use crate::order::lemma_in_order_unique;
use crate::order::lemma_push_contains;
use crate::order::lemma_text_irreflexive;
use crate::order::lemma_text_total;
use crate::order::lemma_text_transitive;
use crate::order::sort_ranked;
use crate::order::sorted_distinct;
use crate::order::text_before;
use crate::order::text_less;
use crate::order::Ranking;
use crate::tally::law_counts_add_up;
use crate::tally::lemma_occurrences_bound;
use crate::tally::occurrences;
use crate::tally::occurrences_of_all;
use crate::text::law_separator_parts_text;
use crate::text::lemma_split_on_nonempty;
use crate::text::split;
use crate::text::split_on;
use crate::utf8::lemma_views_push;
use crate::utf8::str_eq;
use crate::utf8::views;

verus! {

/// Number of pages in the list of recent ones.
pub const RECENT_PAGES: usize = 20;

/// A page as it is listed.
#[derive(Debug)]
pub struct PageSummary {
    pub path: String,
    pub title: String,
    pub kind: String,
    pub updated_at: String,
    /// Whether the page is part of the machinery, not of the knowledge.
    pub system: bool,
}

/// A page with its link.
#[derive(Debug)]
pub struct PageRow {
    pub path: String,
    pub href: String,
    pub title: String,
    pub kind: String,
    pub updated_relative: String,
}

/// The pages of a folder.
#[derive(Debug)]
pub struct Folder {
    pub name: String,
    pub pages: Vec<PageRow>,
}

/// The pages of a project as they are shown.
#[derive(Debug)]
pub struct ProjectView {
    pub workspace: String,
    pub project: String,
    pub base_href: String,
    /// The tab that is active.
    pub aba: &'static str,
    /// Folders of knowledge pages.
    pub folders: Vec<Folder>,
    /// Folders of machinery pages.
    pub system: Vec<Folder>,
    /// Recent knowledge pages.
    pub recent: Vec<PageRow>,
}

/// The folder of a page: the first segment of its path, where there are more.
pub open spec fn folder_of(path: Seq<char>) -> Seq<char> {
    let segments = split_on(path, '/');
    if segments.len() > 1 {
        segments[0]
    } else {
        "(root)"@
    }
}

/// `row` shows `page` at a point in time.
pub open spec fn is_row(
    row: PageRow,
    page: PageSummary,
    workspace: Seq<char>,
    project: Seq<char>,
    now: int,
) -> bool {
    &&& row.path@ == page.path@
    &&& row.href@ == page_link(workspace, project, page.path@)
    &&& row.title@ == page.title@
    &&& row.kind@ == page.kind@
    &&& row.updated_relative@ == humanized(page.updated_at@, now)
}

/// The folders of the pages that are, or are not, machinery.
pub open spec fn folder_names(pages: Seq<PageSummary>, system: bool) -> Seq<Seq<char>>
    decreases pages.len(),
{
    if pages.len() == 0 {
        Seq::empty()
    } else if pages.last().system == system {
        folder_names(pages.drop_last(), system).push(folder_of(pages.last().path@))
    } else {
        folder_names(pages.drop_last(), system)
    }
}

/// The numbers of the pages of a folder.
pub open spec fn numbers_in(
    pages: Seq<PageSummary>,
    system: bool,
    folder: Seq<char>,
) -> Seq<int>
    decreases pages.len(),
{
    if pages.len() == 0 {
        Seq::empty()
    } else if pages.last().system == system && folder_of(pages.last().path@) == folder {
        numbers_in(pages.drop_last(), system, folder).push(pages.len() - 1)
    } else {
        numbers_in(pages.drop_last(), system, folder)
    }
}

/// `folder` holds the pages of that name, in their order.
pub open spec fn is_folder(
    folder: Folder,
    name: Seq<char>,
    pages: Seq<PageSummary>,
    system: bool,
    workspace: Seq<char>,
    project: Seq<char>,
    now: int,
) -> bool {
    let here = numbers_in(pages, system, name);
    &&& folder.name@ == name
    &&& folder.pages@.len() == here.len()
    &&& forall|m: int|
        0 <= m < here.len() ==> is_row(
            #[trigger] folder.pages@[m],
            pages[here[m]],
            workspace,
            project,
            now,
        )
}

/// `folders` are those of the pages, in ascending order.
pub open spec fn are_folders(
    folders: Seq<Folder>,
    pages: Seq<PageSummary>,
    system: bool,
    workspace: Seq<char>,
    project: Seq<char>,
    now: int,
) -> bool {
    let names = sorted_distinct(folder_names(pages, system));
    &&& folders.len() == names.len()
    &&& forall|k: int|
        0 <= k < folders.len() ==> is_folder(
            #[trigger] folders[k],
            names[k],
            pages,
            system,
            workspace,
            project,
            now,
        )
}

/// The order of recent pages: by the text of the time of their update, the last first, then
/// by number.
pub open spec fn updated_later(pages: Seq<PageSummary>, i: int, j: int) -> bool {
    ||| text_before(pages[j].updated_at@, pages[i].updated_at@)
    ||| pages[i].updated_at@ == pages[j].updated_at@ && i < j
}

pub open spec fn update_order(pages: Seq<PageSummary>) -> spec_fn(int, int) -> bool {
    |i: int, j: int| updated_later(pages, i, j)
}

/// `order` are the numbers of the knowledge pages, the last updated first.
pub open spec fn is_update_order(order: Seq<int>, pages: Seq<PageSummary>) -> bool {
    &&& in_order(order, update_order(pages))
    &&& forall|i: int| #[trigger]
        order.contains(i) <==> 0 <= i < pages.len() && !pages[i].system
}

/// The numbers of the knowledge pages, the last updated first.
pub open spec fn updated_order(pages: Seq<PageSummary>) -> Seq<int> {
    choose|order: Seq<int>| is_update_order(order, pages)
}

/// `rows` are the knowledge pages that were updated last, at most twenty.
pub open spec fn are_recent(
    rows: Seq<PageRow>,
    pages: Seq<PageSummary>,
    workspace: Seq<char>,
    project: Seq<char>,
    now: int,
) -> bool {
    let order = updated_order(pages);
    &&& is_update_order(order, pages)
    &&& rows.len() == if order.len() <= RECENT_PAGES {
        order.len()
    } else {
        RECENT_PAGES as nat
    }
    &&& forall|k: int|
        0 <= k < rows.len() ==> is_row(
            #[trigger] rows[k],
            pages[order[k]],
            workspace,
            project,
            now,
        )
}

/// `r` shows the pages of a project at a point in time.
pub open spec fn shows_pages(
    r: ProjectView,
    pages: Seq<PageSummary>,
    workspace: Seq<char>,
    project: Seq<char>,
    now: int,
) -> bool {
    &&& r.workspace@ == workspace
    &&& r.project@ == project
    &&& r.base_href@ == project_link(workspace, project)
    &&& r.aba@ == "paginas"@
    &&& are_folders(r.folders@, pages, false, workspace, project, now)
    &&& are_folders(r.system@, pages, true, workspace, project, now)
    &&& are_recent(r.recent@, pages, workspace, project, now)
}

/// The folder of a page.
pub fn page_folder(path: &str) -> (r: String)
    ensures
        r@ == folder_of(path@),
{
    let segments = split(path, '/');
    assert(views(segments@).len() == segments@.len());
    if segments.len() > 1 {
        assert(views(segments@)[0] == segments@[0]@);
        segments[0].clone()
    } else {
        "(root)".to_owned()
    }
}

fn row_of(page: &PageSummary, workspace: &str, project: &str, now_us: i64) -> (row: PageRow)
    ensures
        is_row(row, *page, workspace@, project@, now_us as int),
{
    PageRow {
        path: page.path.clone(),
        href: page_href(workspace, project, page.path.as_str()),
        title: page.title.clone(),
        kind: page.kind.clone(),
        updated_relative: humanize_at(page.updated_at.as_str(), now_us),
    }
}

fn all_folder_names(pages: &Vec<PageSummary>, system: bool) -> (r: Vec<String>)
    ensures
        views(r@) == folder_names(pages@, system),
{
    broadcast use lemma_views_push;

    let mut out: Vec<String> = Vec::new();
    let mut i: usize = 0;
    assert(views(out@) =~= Seq::empty());
    while i < pages.len()
        invariant
            i <= pages@.len(),
            views(out@) == folder_names(pages@.take(i as int), system),
        decreases pages@.len() - i,
    {
        assert(pages@.take(i + 1).drop_last() =~= pages@.take(i as int));
        if pages[i].system == system {
            out.push(page_folder(pages[i].path.as_str()));
        }
        i = i + 1;
    }
    assert(pages@.take(i as int) =~= pages@);
    out
}

fn folder_rows(
    pages: &Vec<PageSummary>,
    system: bool,
    name: &str,
    workspace: &str,
    project: &str,
    now_us: i64,
) -> (rows: Vec<PageRow>)
    ensures
        ({
            let here = numbers_in(pages@, system, name@);
            &&& rows@.len() == here.len()
            &&& forall|m: int|
                0 <= m < here.len() ==> is_row(
                    #[trigger] rows@[m],
                    pages@[here[m]],
                    workspace@,
                    project@,
                    now_us as int,
                )
        }),
{
    let mut rows: Vec<PageRow> = Vec::new();
    let mut i: usize = 0;
    while i < pages.len()
        invariant
            i <= pages@.len(),
            rows@.len() == numbers_in(pages@.take(i as int), system, name@).len(),
            forall|m: int|
                0 <= m < rows@.len() ==> is_row(
                    #[trigger] rows@[m],
                    pages@[numbers_in(pages@.take(i as int), system, name@)[m]],
                    workspace@,
                    project@,
                    now_us as int,
                ),
        decreases pages@.len() - i,
    {
        assert(pages@.take(i + 1).drop_last() =~= pages@.take(i as int));
        if pages[i].system == system && str_eq(page_folder(pages[i].path.as_str()).as_str(), name) {
            rows.push(row_of(&pages[i], workspace, project, now_us));
        }
        i = i + 1;
    }
    assert(pages@.take(i as int) =~= pages@);
    rows
}

/// The pages that are, or are not, machinery, folder by folder.
pub fn folder_tree(
    pages: &Vec<PageSummary>,
    system: bool,
    workspace: &str,
    project: &str,
    now_us: i64,
) -> (folders: Vec<Folder>)
    ensures
        are_folders(folders@, pages@, system, workspace@, project@, now_us as int),
{
    let names = distinct_sorted(&all_folder_names(pages, system));
    let mut out: Vec<Folder> = Vec::new();
    let mut k: usize = 0;
    while k < names.len()
        invariant
            k <= names@.len(),
            out@.len() == k,
            forall|q: int|
                0 <= q < k ==> is_folder(
                    #[trigger] out@[q],
                    views(names@)[q],
                    pages@,
                    system,
                    workspace@,
                    project@,
                    now_us as int,
                ),
        decreases names@.len() - k,
    {
        let rows = folder_rows(pages, system, names[k].as_str(), workspace, project, now_us);
        out.push(Folder { name: names[k].clone(), pages: rows });
        k = k + 1;
    }
    out
}

/// Pages in the order of their updates.
struct UpdateRank<'a> {
    pages: &'a Vec<PageSummary>,
}

impl<'a> Ranking for UpdateRank<'a> {
    closed spec fn size(&self) -> nat {
        self.pages@.len()
    }

    closed spec fn precedes(&self, i: int, j: int) -> bool {
        updated_later(self.pages@, i, j)
    }

    proof fn lemma_strict_total(&self) {
        lemma_update_order(self.pages@);
    }

    fn before(&self, i: usize, j: usize) -> (r: bool) {
        let a = &self.pages[i];
        let b = &self.pages[j];
        text_less(b.updated_at.as_str(), a.updated_at.as_str()) || (a.updated_at == b.updated_at
            && i < j)
    }
}

proof fn lemma_update_order(pages: Seq<PageSummary>)
    ensures
        forall|i: int| !#[trigger] updated_later(pages, i, i),
        forall|i: int, j: int, k: int| #[trigger]
            updated_later(pages, i, j) && #[trigger] updated_later(pages, j, k) ==> updated_later(
                pages,
                i,
                k,
            ),
        forall|i: int, j: int|
            0 <= i < pages.len() && 0 <= j < pages.len() && i != j ==> (#[trigger] updated_later(
                pages,
                i,
                j,
            ) || updated_later(pages, j, i)),
{
    broadcast use {lemma_text_irreflexive, lemma_text_transitive};

    assert forall|i: int, j: int|
        0 <= i < pages.len() && 0 <= j < pages.len() && i != j implies (#[trigger] updated_later(
        pages,
        i,
        j,
    ) || updated_later(pages, j, i)) by {
        lemma_text_total(pages[i].updated_at@, pages[j].updated_at@);
    }
}

/// There is one order of updates only.
pub proof fn law_update_order_is_unique(a: Seq<int>, b: Seq<int>, pages: Seq<PageSummary>)
    requires
        is_update_order(a, pages),
        is_update_order(b, pages),
    ensures
        a == b,
{
    lemma_update_order(pages);
    assert forall|i: int, j: int| #[trigger] update_order(pages)(i, j) implies !update_order(pages)(
        j,
        i,
    ) by {
        if updated_later(pages, j, i) {
            assert(updated_later(pages, i, i));
        }
    }
    lemma_in_order_unique(a, b, update_order(pages));
}

/// The numbers of the knowledge pages.
fn knowledge_pages(pages: &Vec<PageSummary>) -> (r: Vec<usize>)
    ensures
        r@.no_duplicates(),
        forall|i: usize| #[trigger]
            r@.contains(i) <==> i < pages@.len() && !pages@[i as int].system,
{
    let mut out: Vec<usize> = Vec::new();
    let mut i: usize = 0;
    while i < pages.len()
        invariant
            i <= pages@.len(),
            out@.no_duplicates(),
            forall|k: usize| #[trigger]
                out@.contains(k) <==> k < i && !pages@[k as int].system,
        decreases pages@.len() - i,
    {
        let ghost before = out@;
        if !pages[i].system {
            assert(!before.contains(i));
            out.push(i);
            assert forall|k: usize| #[trigger] out@.contains(k) <==> before.contains(k) || k
                == i by {
                lemma_push_contains(before, i, k);
            }
            assert(out@.no_duplicates()) by {
                assert forall|a: int, b: int|
                    0 <= a < out@.len() && 0 <= b < out@.len() && a != b implies out@[a]
                    != out@[b] by {
                    if a < before.len() {
                        assert(before.contains(before[a]));
                    }
                    if b < before.len() {
                        assert(before.contains(before[b]));
                    }
                }
            }
        }
        i = i + 1;
    }
    out
}

/// The knowledge pages that were updated last, at most twenty.
pub fn recent_pages(
    pages: &Vec<PageSummary>,
    workspace: &str,
    project: &str,
    now_us: i64,
) -> (rows: Vec<PageRow>)
    ensures
        are_recent(rows@, pages@, workspace@, project@, now_us as int),
{
    let picked = knowledge_pages(pages);
    assert forall|k: int| 0 <= k < picked@.len() implies #[trigger] picked@[k] < pages@.len() by {
        assert(picked@.contains(picked@[k]));
    }
    let rank = UpdateRank { pages };
    let ordered = sort_ranked(&rank, &picked);
    let ghost order = ordered@.map_values(|i: usize| i as int);
    proof {
        assert(pages@.len() == pages.len());
        lemma_order_of(order, ordered@, picked@, pages@);
        law_update_order_is_unique(order, updated_order(pages@), pages@);
    }
    let mut rows: Vec<PageRow> = Vec::new();
    let mut k: usize = 0;
    while k < ordered.len() && k < RECENT_PAGES
        invariant
            k <= ordered@.len(),
            k <= RECENT_PAGES,
            rows@.len() == k,
            order == ordered@.map_values(|i: usize| i as int),
            forall|q: int| 0 <= q < ordered@.len() ==> #[trigger] ordered@[q] < pages@.len(),
            forall|q: int|
                0 <= q < k ==> is_row(
                    #[trigger] rows@[q],
                    pages@[order[q]],
                    workspace@,
                    project@,
                    now_us as int,
                ),
        decreases ordered@.len() - k,
    {
        rows.push(row_of(&pages[ordered[k]], workspace, project, now_us));
        k = k + 1;
    }
    rows
}

proof fn lemma_order_of(
    order: Seq<int>,
    ordered: Seq<usize>,
    picked: Seq<usize>,
    pages: Seq<PageSummary>,
)
    requires
        order == ordered.map_values(|i: usize| i as int),
        pages.len() <= usize::MAX,
        forall|x: usize| #[trigger] ordered.contains(x) <==> picked.contains(x),
        forall|i: int, j: int|
            0 <= i < j < ordered.len() ==> updated_later(
                pages,
                (#[trigger] ordered[i]) as int,
                (#[trigger] ordered[j]) as int,
            ),
        forall|i: usize| #[trigger]
            picked.contains(i) <==> i < pages.len() && !pages[i as int].system,
    ensures
        is_update_order(order, pages),
        forall|q: int| 0 <= q < ordered.len() ==> #[trigger] ordered[q] < pages.len(),
{
    assert forall|i: int, j: int| 0 <= i < j < order.len() implies update_order(pages)(
        #[trigger] order[i],
        #[trigger] order[j],
    ) by {
        assert(updated_later(pages, ordered[i] as int, ordered[j] as int));
    }
    assert forall|i: int| #[trigger] order.contains(i) <==> 0 <= i < pages.len()
        && !pages[i].system by {
        if order.contains(i) {
            let k = choose|k: int| 0 <= k < order.len() && order[k] == i;
            assert(ordered.contains(ordered[k]));
            assert(picked.contains(ordered[k]));
        }
        if 0 <= i < pages.len() && !pages[i].system {
            assert(picked.contains(i as usize));
            assert(ordered.contains(i as usize));
            let k = choose|k: int| 0 <= k < ordered.len() && ordered[k] == i as usize;
            assert(order[k] == i);
        }
    }
    assert forall|q: int| 0 <= q < ordered.len() implies #[trigger] ordered[q] < pages.len() by {
        assert(ordered.contains(ordered[q]));
        assert(picked.contains(ordered[q]));
    }
}

/// The pages of a project at a point in time.
pub fn project_view_at(
    pages: &Vec<PageSummary>,
    workspace: &str,
    project: &str,
    now_us: i64,
) -> (r: ProjectView)
    ensures
        shows_pages(r, pages@, workspace@, project@, now_us as int),
{
    ProjectView {
        workspace: workspace.to_owned(),
        project: project.to_owned(),
        base_href: project_href(workspace, project),
        aba: "paginas",
        folders: folder_tree(pages, false, workspace, project, now_us),
        system: folder_tree(pages, true, workspace, project, now_us),
        recent: recent_pages(pages, workspace, project, now_us),
    }
}

/// The pages of a project, with their ages at present.
pub fn project_view(pages: &Vec<PageSummary>, workspace: &str, project: &str) -> (r: ProjectView)
    ensures
        exists|now: int|
            EARLIEST_US <= now <= LATEST_US + 999_999 && #[trigger] shows_pages(
                r,
                pages@,
                workspace@,
                project@,
                now,
            ),
{
    let now: i64 = clock_us();
    let r = project_view_at(pages, workspace, project, now);
    assert(shows_pages(r, pages@, workspace@, project@, now as int));
    r
}

/// Number of pages in some folders.
pub open spec fn pages_in(folders: Seq<Folder>) -> nat
    decreases folders.len(),
{
    if folders.len() == 0 {
        0
    } else {
        pages_in(folders.drop_last()) + folders.last().pages@.len()
    }
}

/// Some row of a folder shows `page`.
pub open spec fn holds_page(
    folders: Seq<Folder>,
    page: PageSummary,
    workspace: Seq<char>,
    project: Seq<char>,
    now: int,
) -> bool {
    exists|k: int, m: int|
        0 <= k < folders.len() && folders[k].name@ == folder_of(page.path@) && 0 <= m
            < folders[k].pages@.len() && is_row(
            #[trigger] folders[k].pages@[m],
            page,
            workspace,
            project,
            now,
        )
}

/// Every page stands in its folder, with the knowledge or with the machinery, and the folders
/// hold as many pages as there are.
pub proof fn law_every_page_is_in_one_folder(
    r: ProjectView,
    pages: Seq<PageSummary>,
    workspace: Seq<char>,
    project: Seq<char>,
    now: int,
)
    requires
        shows_pages(r, pages, workspace, project, now),
    ensures
        pages_in(r.folders@) + pages_in(r.system@) == pages.len(),
        forall|i: int|
            0 <= i < pages.len() ==> holds_page(
                if pages[i].system {
                    r.system@
                } else {
                    r.folders@
                },
                #[trigger] pages[i],
                workspace,
                project,
                now,
            ),
{
    assert forall|i: int| 0 <= i < pages.len() implies holds_page(
        if pages[i].system {
            r.system@
        } else {
            r.folders@
        },
        #[trigger] pages[i],
        workspace,
        project,
        now,
    ) by {
        if pages[i].system {
            lemma_folder_has_page(r.system@, pages, true, workspace, project, now, i);
        } else {
            lemma_folder_has_page(r.folders@, pages, false, workspace, project, now, i);
        }
    }
    lemma_pages_in(r.folders@, pages, false, workspace, project, now);
    lemma_pages_in(r.system@, pages, true, workspace, project, now);
    lemma_names_cover(pages);
}

proof fn lemma_number_in(pages: Seq<PageSummary>, system: bool, i: int)
    requires
        0 <= i < pages.len(),
        pages[i].system == system,
    ensures
        folder_names(pages, system).contains(folder_of(pages[i].path@)),
        numbers_in(pages, system, folder_of(pages[i].path@)).contains(i),
    decreases pages.len(),
{
    let rest = pages.drop_last();
    let name = folder_of(pages[i].path@);
    let names = folder_names(pages, system);
    let here = numbers_in(pages, system, name);
    if i < rest.len() {
        assert(rest[i] == pages[i]);
        lemma_number_in(rest, system, i);
        let names_before = folder_names(rest, system);
        let here_before = numbers_in(rest, system, name);
        let a = choose|a: int| 0 <= a < names_before.len() && names_before[a] == name;
        let b = choose|b: int| 0 <= b < here_before.len() && here_before[b] == i;
        assert(names[a] == name);
        assert(here[b] == i);
    } else {
        assert(names[names.len() - 1] == name);
        assert(here[here.len() - 1] == i);
    }
}

proof fn lemma_folder_has_page(
    folders: Seq<Folder>,
    pages: Seq<PageSummary>,
    system: bool,
    workspace: Seq<char>,
    project: Seq<char>,
    now: int,
    i: int,
)
    requires
        are_folders(folders, pages, system, workspace, project, now),
        0 <= i < pages.len(),
        pages[i].system == system,
    ensures
        holds_page(folders, pages[i], workspace, project, now),
{
    let all = folder_names(pages, system);
    let names = sorted_distinct(all);
    let name = folder_of(pages[i].path@);
    law_sorted_distinct_exists(all);
    lemma_number_in(pages, system, i);
    let here = numbers_in(pages, system, name);
    let m = choose|m: int| 0 <= m < here.len() && here[m] == i;
    assert(names.contains(name));
    let k = choose|k: int| 0 <= k < names.len() && names[k] == name;
    assert(is_folder(folders[k], name, pages, system, workspace, project, now));
    assert(is_row(folders[k].pages@[m], pages[i], workspace, project, now));
}

proof fn lemma_names_cover(pages: Seq<PageSummary>)
    ensures
        folder_names(pages, false).len() + folder_names(pages, true).len() == pages.len(),
    decreases pages.len(),
{
    if pages.len() > 0 {
        lemma_names_cover(pages.drop_last());
    }
}

proof fn lemma_numbers_in(pages: Seq<PageSummary>, system: bool, folder: Seq<char>)
    ensures
        numbers_in(pages, system, folder).len() == occurrences(
            folder_names(pages, system),
            folder,
        ),
    decreases pages.len(),
{
    if pages.len() > 0 {
        let rest = pages.drop_last();
        lemma_numbers_in(rest, system, folder);
        if pages.last().system == system {
            assert(folder_names(pages, system).drop_last() =~= folder_names(rest, system));
        }
    }
}

proof fn lemma_pages_in(
    folders: Seq<Folder>,
    pages: Seq<PageSummary>,
    system: bool,
    workspace: Seq<char>,
    project: Seq<char>,
    now: int,
)
    requires
        are_folders(folders, pages, system, workspace, project, now),
    ensures
        pages_in(folders) == folder_names(pages, system).len(),
{
    let all = folder_names(pages, system);
    let names = sorted_distinct(all);
    law_sorted_distinct_exists(all);
    assert forall|k: int| 0 <= k < folders.len() implies (#[trigger] folders[k]).pages@.len()
        == occurrences(all, names[k]) by {
        lemma_numbers_in(pages, system, names[k]);
    }
    lemma_pages_sum(folders, names, all);
    law_counts_add_up(names, all);
}

proof fn lemma_pages_sum(folders: Seq<Folder>, names: Seq<Seq<char>>, all: Seq<Seq<char>>)
    requires
        folders.len() == names.len(),
        forall|k: int|
            0 <= k < folders.len() ==> (#[trigger] folders[k]).pages@.len() == occurrences(
                all,
                names[k],
            ),
    ensures
        pages_in(folders) == occurrences_of_all(names, all),
    decreases folders.len(),
{
    if folders.len() > 0 {
        let rest = folders.drop_last();
        assert forall|k: int| 0 <= k < rest.len() implies (#[trigger] rest[k]).pages@.len()
            == occurrences(all, names.drop_last()[k]) by {
            assert(folders[k].pages@.len() == occurrences(all, names[k]));
        }
        lemma_pages_sum(rest, names.drop_last(), all);
        assert(folders[folders.len() - 1].pages@.len() == occurrences(
            all,
            names[folders.len() - 1],
        ));
    }
}

proof fn lemma_numbers_filter(pages: Seq<PageSummary>, system: bool, folder: Seq<char>)
    ensures
        ({
            let numbers = numbers_in(pages, system, folder);
            let here = pages.filter(
                |p: PageSummary| p.system == system && folder_of(p.path@) == folder,
            );
            &&& numbers.len() == here.len()
            &&& forall|m: int|
                0 <= m < here.len() ==> 0 <= #[trigger] numbers[m] < pages.len()
                    && pages[numbers[m]] == here[m]
        }),
    decreases pages.len(),
{
    reveal(Seq::filter);
    if pages.len() > 0 {
        let rest = pages.drop_last();
        lemma_numbers_filter(rest, system, folder);
        let before = numbers_in(rest, system, folder);
        let numbers = numbers_in(pages, system, folder);
        let here = pages.filter(
            |p: PageSummary| p.system == system && folder_of(p.path@) == folder,
        );
        assert forall|m: int| 0 <= m < here.len() implies 0 <= #[trigger] numbers[m] < pages.len()
            && pages[numbers[m]] == here[m] by {
            if m < before.len() {
                assert(numbers[m] == before[m]);
                assert(rest[before[m]] == pages[before[m]]);
            }
        }
    }
}

/// A folder holds all pages of its name, knowledge or machinery as asked for, in their order
/// and with what they are called, and no others. Folders come in ascending order, each name
/// once.
pub proof fn law_folders_hold_their_pages(
    folders: Seq<Folder>,
    pages: Seq<PageSummary>,
    system: bool,
    workspace: Seq<char>,
    project: Seq<char>,
    now: int,
)
    requires
        are_folders(folders, pages, system, workspace, project, now),
    ensures
        forall|a: int, b: int|
            0 <= a < b < folders.len() ==> text_before(
                (#[trigger] folders[a]).name@,
                (#[trigger] folders[b]).name@,
            ),
        forall|k: int|
            0 <= k < folders.len() ==> {
                let name = folders[k].name@;
                let here = pages.filter(
                    |p: PageSummary| p.system == system && folder_of(p.path@) == name,
                );
                &&& (#[trigger] folders[k]).pages@.len() == here.len()
                &&& here.len() > 0
                &&& forall|m: int|
                    0 <= m < here.len() ==> {
                        let row = #[trigger] folders[k].pages@[m];
                        &&& row.path@ == here[m].path@
                        &&& row.title@ == here[m].title@
                        &&& row.kind@ == here[m].kind@
                        &&& row.href@ == page_link(workspace, project, here[m].path@)
                        &&& row.updated_relative@ == humanized(here[m].updated_at@, now)
                    }
            },
{
    let all = folder_names(pages, system);
    let names = sorted_distinct(all);
    law_sorted_distinct_exists(all);
    assert forall|a: int, b: int| 0 <= a < b < folders.len() implies text_before(
        (#[trigger] folders[a]).name@,
        (#[trigger] folders[b]).name@,
    ) by {
        assert(text_before(names[a], names[b]));
    }
    assert forall|k: int| 0 <= k < folders.len() implies {
        let name = folders[k].name@;
        let here = pages.filter(
            |p: PageSummary| p.system == system && folder_of(p.path@) == name,
        );
        &&& (#[trigger] folders[k]).pages@.len() == here.len()
        &&& here.len() > 0
        &&& forall|m: int|
            0 <= m < here.len() ==> {
                let row = #[trigger] folders[k].pages@[m];
                &&& row.path@ == here[m].path@
                &&& row.title@ == here[m].title@
                &&& row.kind@ == here[m].kind@
                &&& row.href@ == page_link(workspace, project, here[m].path@)
                &&& row.updated_relative@ == humanized(here[m].updated_at@, now)
            }
    } by {
        assert(is_folder(folders[k], names[k], pages, system, workspace, project, now));
        lemma_numbers_filter(pages, system, names[k]);
        lemma_numbers_in(pages, system, names[k]);
        assert(names.contains(names[k]));
        assert(all.contains(names[k]));
        lemma_occurrences_bound(all, names[k]);
        let here = pages.filter(
            |p: PageSummary| p.system == system && folder_of(p.path@) == names[k],
        );
        let numbers = numbers_in(pages, system, names[k]);
        assert forall|m: int| 0 <= m < here.len() implies is_row(
            #[trigger] folders[k].pages@[m],
            here[m],
            workspace,
            project,
            now,
        ) by {
            assert(pages[numbers[m]] == here[m]);
        }
    }
}

/// The folder of a page is its path up to the first slash. A page whose path has none is in
/// the root.
pub proof fn law_folder_is_the_first_segment(path: Seq<char>, rest: Seq<char>)
    ensures
        !path.contains('/') ==> folder_of(path + seq!['/'] + rest) == path,
        !path.contains('/') ==> folder_of(path) == "(root)"@,
{
    law_separator_parts_text(path, '/', rest);
    lemma_split_on_nonempty(rest, '/');
}

/// The recent pages are knowledge pages, at most twenty, each once and with what it is called.
/// None stands before one that was updated later, nor before an earlier one of the list where
/// both were updated at once. A knowledge page is left out only where there are twenty, and
/// then it was not updated later than any of them.
pub proof fn law_recent_pages_were_updated_last(
    rows: Seq<PageRow>,
    pages: Seq<PageSummary>,
    workspace: Seq<char>,
    project: Seq<char>,
    now: int,
)
    requires
        are_recent(rows, pages, workspace, project, now),
    ensures
        rows.len() <= 20,
        exists|at: Seq<int>|
            {
                &&& #[trigger] at.no_duplicates()
                &&& at.len() == rows.len()
                &&& forall|k: int|
                    0 <= k < at.len() ==> {
                        let page = pages[at[k]];
                        let row = rows[k];
                        &&& 0 <= #[trigger] at[k] < pages.len()
                        &&& !page.system
                        &&& row.path@ == page.path@
                        &&& row.title@ == page.title@
                        &&& row.kind@ == page.kind@
                        &&& row.href@ == page_link(workspace, project, page.path@)
                        &&& row.updated_relative@ == humanized(page.updated_at@, now)
                    }
                &&& forall|a: int, b: int|
                    0 <= a < b < at.len() ==> {
                        let x = pages[#[trigger] at[a]].updated_at@;
                        let y = pages[#[trigger] at[b]].updated_at@;
                        !text_before(x, y) && (x == y ==> at[a] < at[b])
                    }
                &&& forall|i: int|
                    0 <= i < pages.len() && !(#[trigger] pages[i]).system && !at.contains(i)
                        ==> rows.len() == 20
                &&& forall|i: int, k: int|
                    0 <= i < pages.len() && !(#[trigger] pages[i]).system && !at.contains(i) && 0
                        <= k < at.len() ==> !text_before(
                        pages[#[trigger] at[k]].updated_at@,
                        pages[i].updated_at@,
                    )
            },
{
    broadcast use {lemma_text_irreflexive, lemma_text_transitive};

    let order = updated_order(pages);
    let at = order.take(rows.len() as int);
    lemma_update_order(pages);
    assert forall|a: int, b: int| 0 <= a < b < order.len() implies updated_later(
        pages,
        #[trigger] order[a],
        #[trigger] order[b],
    ) by {
        assert(update_order(pages)(order[a], order[b]));
    }
    assert forall|k: int| 0 <= k < order.len() implies 0 <= #[trigger] order[k] < pages.len()
        && !pages[order[k]].system by {
        assert(order.contains(order[k]));
    }
    assert(at.no_duplicates()) by {
        assert forall|a: int, b: int| 0 <= a < at.len() && 0 <= b < at.len() && a != b implies at[a]
            != at[b] by {
            if a < b {
                assert(updated_later(pages, order[a], order[b]));
            } else {
                assert(updated_later(pages, order[b], order[a]));
            }
        }
    }
    assert forall|k: int| 0 <= k < at.len() implies {
        let page = pages[at[k]];
        let row = rows[k];
        &&& 0 <= #[trigger] at[k] < pages.len()
        &&& !page.system
        &&& row.path@ == page.path@
        &&& row.title@ == page.title@
        &&& row.kind@ == page.kind@
        &&& row.href@ == page_link(workspace, project, page.path@)
        &&& row.updated_relative@ == humanized(page.updated_at@, now)
    } by {
        assert(at[k] == order[k]);
        assert(is_row(rows[k], pages[order[k]], workspace, project, now));
    }
    assert forall|a: int, b: int| 0 <= a < b < at.len() implies {
        let x = pages[#[trigger] at[a]].updated_at@;
        let y = pages[#[trigger] at[b]].updated_at@;
        !text_before(x, y) && (x == y ==> at[a] < at[b])
    } by {
        assert(updated_later(pages, order[a], order[b]));
        lemma_text_total(pages[order[a]].updated_at@, pages[order[b]].updated_at@);
    }
    assert forall|i: int|
        0 <= i < pages.len() && !(#[trigger] pages[i]).system && !at.contains(i) implies rows.len()
        == 20 by {
        lemma_left_out(order, at, i);
    }
    assert forall|i: int, k: int|
        0 <= i < pages.len() && !(#[trigger] pages[i]).system && !at.contains(i) && 0 <= k
            < at.len() implies !text_before(
        pages[#[trigger] at[k]].updated_at@,
        pages[i].updated_at@,
    ) by {
        lemma_left_out(order, at, i);
        let q = choose|q: int| at.len() <= q < order.len() && order[q] == i;
        assert(updated_later(pages, order[k], order[q]));
        lemma_text_total(pages[order[k]].updated_at@, pages[i].updated_at@);
    }
}

/// What is in a list but not in its first part comes later.
proof fn lemma_left_out(order: Seq<int>, at: Seq<int>, i: int)
    requires
        at.len() <= order.len(),
        at == order.take(at.len() as int),
        order.contains(i),
        !at.contains(i),
    ensures
        at.len() < order.len(),
        exists|q: int| at.len() <= q < order.len() && order[q] == i,
{
    let q = choose|q: int| 0 <= q < order.len() && order[q] == i;
    if q < at.len() {
        assert(at[q] == i);
    }
}

/// The page list of a project names it and links to it, and shows its knowledge pages apart from
/// those of the machinery, each page in the list of its own sort, and only knowledge as recent.
pub proof fn law_machinery_is_shown_apart(
    r: ProjectView,
    pages: Seq<PageSummary>,
    workspace: Seq<char>,
    project: Seq<char>,
    now: int,
)
    requires
        shows_pages(r, pages, workspace, project, now),
    ensures
        r.workspace@ == workspace,
        r.project@ == project,
        r.base_href@ == project_link(workspace, project),
        r.aba@ == "paginas"@,
        pages_in(r.folders@) == pages.filter(|p: PageSummary| !p.system).len(),
        pages_in(r.system@) == pages.filter(|p: PageSummary| p.system).len(),
        r.recent@.len() == (if pages_in(r.folders@) <= 20 {
            pages_in(r.folders@)
        } else {
            20
        }),
        are_folders(r.folders@, pages, false, workspace, project, now),
        are_folders(r.system@, pages, true, workspace, project, now),
        are_recent(r.recent@, pages, workspace, project, now),
{
    lemma_pages_in(r.folders@, pages, false, workspace, project, now);
    lemma_pages_in(r.system@, pages, true, workspace, project, now);
    lemma_sorts(pages);
    let order = updated_order(pages);
    assert(order.no_duplicates()) by {
        broadcast use {lemma_text_irreflexive, lemma_text_transitive};

        assert forall|a: int, b: int| 0 <= a < order.len() && 0 <= b < order.len() && a
            != b implies order[a] != order[b] by {
            if a < b {
                assert(update_order(pages)(order[a], order[b]));
            } else {
                assert(update_order(pages)(order[b], order[a]));
            }
        }
    }
    let all = Seq::new(pages.len(), |i: int| i);
    let known = all.filter(|i: int| !pages[i].system);
    lemma_known_numbers(pages, pages.len());
    assert(order.to_set() =~= known.to_set()) by {
        assert forall|i: int| #[trigger]
            order.to_set().contains(i) <==> known.to_set().contains(i) by {
            assert(order.contains(i) <==> known.contains(i));
        }
    }
    order.unique_seq_to_set();
    known.unique_seq_to_set();
    assert(pages.take(pages.len() as int) =~= pages);
}

proof fn lemma_sorts(pages: Seq<PageSummary>)
    ensures
        folder_names(pages, false).len() == pages.filter(|p: PageSummary| !p.system).len(),
        folder_names(pages, true).len() == pages.filter(|p: PageSummary| p.system).len(),
    decreases pages.len(),
{
    reveal(Seq::filter);
    if pages.len() > 0 {
        lemma_sorts(pages.drop_last());
    }
}

proof fn lemma_known_numbers(pages: Seq<PageSummary>, n: nat)
    requires
        n <= pages.len(),
    ensures
        ({
            let known = Seq::new(n, |i: int| i).filter(|i: int| !pages[i].system);
            &&& known.no_duplicates()
            &&& known.len() == pages.take(n as int).filter(|p: PageSummary| !p.system).len()
            &&& forall|i: int| #[trigger]
                known.contains(i) <==> 0 <= i < n && !pages[i].system
        }),
    decreases n,
{
    reveal(Seq::filter);
    let all = Seq::new(n, |i: int| i);
    let known = all.filter(|i: int| !pages[i].system);
    if n > 0 {
        lemma_known_numbers(pages, (n - 1) as nat);
        let less = Seq::new((n - 1) as nat, |i: int| i);
        assert(all.drop_last() =~= less);
        assert(pages.take(n as int).drop_last() =~= pages.take(n - 1));
        let before = less.filter(|i: int| !pages[i].system);
        if !pages[n - 1].system {
            assert(known == before.push(n - 1));
            assert(!before.contains(n - 1));
            assert forall|i: int| #[trigger]
                known.contains(i) <==> 0 <= i < n && !pages[i].system by {
                if before.contains(i) {
                    let m = choose|m: int| 0 <= m < before.len() && before[m] == i;
                    assert(known[m] == i);
                }
                if i == n - 1 {
                    assert(known[before.len() as int] == i);
                }
                if known.contains(i) && i != n - 1 {
                    let m = choose|m: int| 0 <= m < known.len() && known[m] == i;
                    assert(before[m] == i);
                }
            }
            assert forall|a: int, b: int| 0 <= a < known.len() && 0 <= b < known.len() && a
                != b implies known[a] != known[b] by {
                if a < before.len() && b < before.len() {
                    assert(before[a] != before[b]);
                } else if a < before.len() {
                    assert(before.contains(before[a]));
                } else {
                    assert(before.contains(before[b]));
                }
            }
        }
    }
}

} // verus!
