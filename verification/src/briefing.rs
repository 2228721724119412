//! The briefing screen: what a session would be given, and how much of the budget it takes.

use vstd::prelude::*;
use vstd::string::*;
use vstd::utf8::encode_utf8;

use crate::brief::brief_history;
use crate::brief::brief_omitted;
use crate::brief::build_session_brief;
use crate::brief::clamped_budget;
use crate::brief::entered_pages;
use crate::brief::enters_brief;
use crate::brief::escaped_history;
use crate::brief::fences;
use crate::brief::law_entered_pages_have_their_heading;
use crate::brief::law_pages_that_are_not_omitted_enter;
use crate::brief::page_header;
use crate::brief::session_brief;
use crate::brief::BriefPageBody;
use crate::brief::BriefingPage;
use crate::brief::BRIEF_BUDGET_DEFAULT;
use crate::href::project_href;
use crate::href::project_link;
use crate::text::contains;
use crate::text::lemma_contains_part;
use crate::text::occurs_at;
use crate::text::trim;
use crate::text::trimmed;
use crate::timeline::percent;
use crate::timeline::percentage;
use crate::utf8::byte_count;
use crate::utf8::byte_len;

verus! {

/// A core page that the brief considered.
#[derive(Debug)]
pub struct ItemDoBriefing {
    pub path: String,
    pub title: String,
    /// Bytes of the body, without the space around it.
    pub bytes: usize,
    /// Whether the body of the page was rendered, and its heading stands in the brief.
    pub entrou: bool,
}

/// What the briefing screen shows.
#[derive(Debug)]
pub struct Briefing {
    /// The brief; empty where the project has no page for it.
    pub markdown: String,
    /// The budget in bytes.
    pub orcamento: usize,
    /// The core pages, whether or not they fit the budget.
    pub itens: Vec<ItemDoBriefing>,
}

/// A briefing as it is shown.
#[derive(Debug)]
pub struct BriefingView {
    pub workspace: String,
    pub project: String,
    pub base_href: String,
    /// The tab that is active.
    pub aba: &'static str,
    /// Bytes that the brief takes.
    pub usados: usize,
    /// The budget in bytes.
    pub orcamento: usize,
    /// What the brief takes, as a percentage of the budget.
    pub pct: usize,
    /// The budget where none is asked for.
    pub orcamento_padrao: usize,
    /// The brief as HTML.
    pub html: String,
    pub markdown: String,
    pub itens: Vec<ItemDoBriefing>,
}

/// The end of the heading under which the body of a page stands in a brief.
pub open spec fn header_marker(path: Seq<char>) -> Seq<char> {
    "(`"@ + path + "`)\n"@
}

/// `item` says of `page` how long it is and whether it is in the brief.
pub open spec fn is_item(item: ItemDoBriefing, page: BriefPageBody, entered: bool) -> bool {
    &&& item.path@ == page.path@
    &&& item.title@ == page.title@
    &&& item.bytes == byte_count(trimmed(page.body@))
    &&& item.entrou == entered
}

/// `items` say so of each core page.
pub open spec fn are_items(
    items: Seq<ItemDoBriefing>,
    core: Seq<BriefPageBody>,
    recent: Seq<BriefingPage>,
    budget: nat,
    notice: Seq<char>,
) -> bool {
    &&& items.len() == core.len()
    &&& forall|k: int|
        0 <= k < items.len() ==> is_item(
            #[trigger] items[k],
            core[k],
            enters_brief(core, recent, budget, notice, k),
        )
}

/// The end of the heading under which the body of a page stands in a brief.
pub fn corpo_header_marker(path: &str) -> (r: String)
    ensures
        r@ == header_marker(path@),
{
    let mut r = "(`".to_owned();
    r.append(path);
    r.append("`)\n");
    r
}

/// What is said of the core pages, where `entered` says which of them are in the brief.
fn briefing_items(core: &Vec<BriefPageBody>, entered: &Vec<bool>) -> (items: Vec<ItemDoBriefing>)
    requires
        entered@.len() == core@.len(),
    ensures
        items@.len() == core@.len(),
        forall|k: int|
            0 <= k < items@.len() ==> is_item(#[trigger] items@[k], core@[k], entered@[k]),
{
    let mut items: Vec<ItemDoBriefing> = Vec::new();
    let mut i: usize = 0;
    while i < core.len()
        invariant
            i <= core@.len(),
            entered@.len() == core@.len(),
            items@.len() == i,
            forall|k: int|
                0 <= k < i ==> is_item(#[trigger] items@[k], core@[k], entered@[k]),
        decreases core@.len() - i,
    {
        let page = &core[i];
        items.push(
            ItemDoBriefing {
                path: page.path.clone(),
                title: page.title.clone(),
                bytes: byte_len(trim(page.body.as_str())),
                entrou: entered[i],
            },
        );
        i = i + 1;
    }
    items
}

/// The briefing of the fetched pages: the text that a session would be given, its budget, and
/// the core pages with whether they are in it. Only a page that is not omitted is, and every
/// such page is where nothing had to be escaped.
pub fn montar(
    core: Vec<BriefPageBody>,
    recent: &[BriefingPage],
    max_chars: Option<&str>,
    notice: &str,
) -> (b: Briefing)
    ensures
        b.orcamento == clamped_budget(
            match max_chars {
                Some(text) => Some(text@),
                None => None,
            },
        ),
        b.markdown@ == if core@.len() == 0 && recent@.len() == 0 {
            Seq::empty()
        } else {
            session_brief(core@, recent@, b.orcamento as nat, notice@)
        },
        are_items(b.itens@, core@, recent@, b.orcamento as nat, notice@),
        forall|k: int|
            0 <= k < b.itens@.len() && (#[trigger] b.itens@[k]).entrou ==> k < core@.len()
                - brief_omitted(core@, recent@, b.orcamento as nat, notice@).len(),
        fences(brief_history(core@, recent@, b.orcamento as nat, notice@)) == 0 ==> forall|k: int|
            0 <= k < b.itens@.len() ==> (#[trigger] b.itens@[k]).entrou == (k < core@.len()
                - brief_omitted(core@, recent@, b.orcamento as nat, notice@).len()),
{
    let (rendered, orcamento, core) = build_session_brief(core, recent, max_chars, notice);
    let markdown = match rendered {
        Some(text) => text,
        None => String::new(),
    };
    let entered = entered_pages(core.as_slice(), recent, orcamento, notice);
    let itens = briefing_items(&core, &entered);
    proof {
        let budget = orcamento as nat;
        if fences(brief_history(core@, recent@, budget, notice@)) == 0 {
            assert forall|k: int| 0 <= k < itens@.len() implies (#[trigger] itens@[k]).entrou == (k
                < core@.len() - brief_omitted(core@, recent@, budget, notice@).len()) by {
                law_pages_that_are_not_omitted_enter(core@, recent@, budget, notice@, k);
            }
        }
    }
    Briefing { markdown, orcamento, itens }
}

/// How much of the budget a brief takes, as a percentage of at most a hundred.
pub fn usage_pct(markdown: &str, orcamento: usize) -> (r: usize)
    ensures
        r == percentage(
            byte_count(markdown@),
            if orcamento == 0 {
                1
            } else {
                orcamento as nat
            },
        ),
{
    percent(
        byte_len(markdown),
        if orcamento == 0 {
            1
        } else {
            orcamento
        },
    )
}

/// A briefing with how much of the budget it takes.
pub fn briefing_view(workspace: &str, project: &str, b: Briefing, html: String) -> (view:
    BriefingView)
    ensures
        view.workspace@ == workspace@,
        view.project@ == project@,
        view.base_href@ == project_link(workspace@, project@),
        view.aba@ == "briefing"@,
        view.usados == byte_count(b.markdown@),
        view.orcamento == b.orcamento,
        view.pct == percentage(
            byte_count(b.markdown@),
            if b.orcamento == 0 {
                1
            } else {
                b.orcamento as nat
            },
        ),
        view.orcamento_padrao == BRIEF_BUDGET_DEFAULT,
        view.html == html,
        view.markdown == b.markdown,
        view.itens == b.itens,
{
    BriefingView {
        workspace: workspace.to_owned(),
        project: project.to_owned(),
        base_href: project_href(workspace, project),
        aba: "briefing",
        usados: byte_len(b.markdown.as_str()),
        orcamento: b.orcamento,
        pct: usage_pct(b.markdown.as_str(), b.orcamento),
        orcamento_padrao: BRIEF_BUDGET_DEFAULT,
        html,
        markdown: b.markdown,
        itens: b.itens,
    }
}

/// A page that is in a brief has there the end of its heading, with its path, where the
/// heading holds no fence.
pub proof fn law_entered_pages_have_their_marker(
    core: Seq<BriefPageBody>,
    recent: Seq<BriefingPage>,
    budget: nat,
    notice: Seq<char>,
    k: int,
)
    requires
        enters_brief(core, recent, budget, notice, k),
        escaped_history(page_header(core[k])) == page_header(core[k]),
    ensures
        contains(session_brief(core, recent, budget, notice), header_marker(core[k].path@)),
{
    let whole = session_brief(core, recent, budget, notice);
    let header = page_header(core[k]);
    let marker = header_marker(core[k].path@);
    law_entered_pages_have_their_heading(core, recent, budget, notice, k);
    let from = header.len() - marker.len();
    assert(header.subrange(from, header.len() as int) =~= marker);
    assert(occurs_at(header, marker, from));
    let at = choose|at: int| occurs_at(whole, header, at);
    lemma_contains_part(whole, at, at + header.len(), marker);
}

/// A briefing lists every core page in order, with its path, its title and the number of bytes
/// of its body without the space around it.
pub proof fn law_items_are_the_core_pages(
    items: Seq<ItemDoBriefing>,
    core: Seq<BriefPageBody>,
    recent: Seq<BriefingPage>,
    budget: nat,
    notice: Seq<char>,
    k: int,
)
    requires
        are_items(items, core, recent, budget, notice),
        0 <= k < core.len(),
    ensures
        items.len() == core.len(),
        items[k].path@ == core[k].path@,
        items[k].title@ == core[k].title@,
        items[k].bytes == encode_utf8(trimmed(core[k].body@)).len(),
        items[k].entrou == enters_brief(core, recent, budget, notice, k),
{
    assert(is_item(items[k], core[k], enters_brief(core, recent, budget, notice, k)));
}

} // verus!
