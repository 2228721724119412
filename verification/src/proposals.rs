//! The queue of proposals: what each would change, and whether it still can.

use vstd::prelude::*;
use vstd::string::*;
use vstd::utf8::encode_utf8;

use crate::href::page_href;
use crate::href::page_link;
use crate::href::project_href;
use crate::href::project_link;
use crate::json::firsts;
use crate::json::json_item_strings;
use crate::json::read_item_strings;
use crate::json::seconds;
use crate::text::begins_with;
use crate::text::ends_with;
use crate::text::finishes_with;
use crate::text::is_space;
use crate::text::starts_with;
use crate::text::trim;
use crate::text::trimmed;
use crate::utf8::opt_view;
use crate::utf8::str_eq;

verus! {

/// The state of a proposal.
#[derive(Debug, Clone, Copy, PartialEq, Eq, Structural)]
pub enum AutoImproveProposalStatus {
    Pending,
    Approved,
    Rejected,
    Conflict,
    Failed,
}

/// What a proposal does to its page.
#[derive(Debug, Clone, Copy, PartialEq, Eq, Structural)]
pub enum AutoImproveProposalOperation {
    Create,
    Update,
}

/// A proposal as it is stored.
#[derive(Debug)]
pub struct AutoImproveProposalDetail {
    pub id: String,
    pub title: String,
    pub kind: String,
    pub operation: AutoImproveProposalOperation,
    pub target_path: String,
    /// How sure the proposal is, as a whole percentage.
    pub confidence_pct: i64,
    pub rationale: String,
    /// The evidence as JSON.
    pub evidence_json: String,
    pub body_markdown: String,
    /// SHA-256 of the page when the proposal was made.
    pub target_body_sha256_at_stage: Option<[u8; 32]>,
}

/// A citation with its link.
#[derive(Debug)]
pub struct EvidenceRow {
    pub page: String,
    pub quote: String,
    pub href: Option<String>,
}

/// A proposal as it is shown.
#[derive(Debug)]
pub struct ProposalCard {
    pub id: String,
    pub title: String,
    pub kind: String,
    pub operation: &'static str,
    pub target_path: String,
    pub confidence_pct: i64,
    /// Whether the page is no longer what it was when the proposal was made.
    pub conflict: bool,
    pub rationale: String,
    pub evidence: Vec<EvidenceRow>,
    /// The page as it is, for a proposal that updates it.
    pub before: Option<String>,
    pub after: String,
    pub approve_cmd: String,
    pub reject_cmd: String,
}

/// A proposal that was found, and the body of its page, if that is there.
#[derive(Debug)]
pub struct FoundProposal {
    pub detail: AutoImproveProposalDetail,
    pub current: Option<String>,
}

/// The queue of proposals as it is shown.
#[derive(Debug)]
pub struct ProposalsView {
    pub workspace: String,
    pub project: String,
    pub base_href: String,
    /// The tab that is active.
    pub aba: &'static str,
    /// The state of the proposals that are shown.
    pub status: &'static str,
    pub proposals: Vec<ProposalCard>,
}

/// The numbers of the proposals that were found.
pub open spec fn found_numbers(found: Seq<Option<FoundProposal>>) -> Seq<int>
    decreases found.len(),
{
    if found.len() == 0 {
        Seq::empty()
    } else if found.last() is Some {
        found_numbers(found.drop_last()).push(found.len() - 1)
    } else {
        found_numbers(found.drop_last())
    }
}

/// `cards` show the proposals that were found, in order. One that is gone is passed over.
pub open spec fn are_cards(
    cards: Seq<ProposalCard>,
    found: Seq<Option<FoundProposal>>,
    workspace: Seq<char>,
    project: Seq<char>,
) -> bool {
    let numbers = found_numbers(found);
    &&& cards.len() == numbers.len()
    &&& forall|k: int|
        0 <= k < cards.len() ==> is_card(
            #[trigger] cards[k],
            found[numbers[k]]->Some_0.detail,
            opt_view(found[numbers[k]]->Some_0.current),
            workspace,
            project,
        )
}

/// SHA-256 of bytes.
pub uninterp spec fn sha256(bytes: Seq<u8>) -> Seq<u8>;

/// The name of a state.
pub open spec fn status_name(status: AutoImproveProposalStatus) -> Seq<char> {
    match status {
        AutoImproveProposalStatus::Pending => "pending"@,
        AutoImproveProposalStatus::Approved => "approved"@,
        AutoImproveProposalStatus::Rejected => "rejected"@,
        AutoImproveProposalStatus::Conflict => "conflict"@,
        AutoImproveProposalStatus::Failed => "failed"@,
    }
}

/// The state that a request stands for: the one that it names, else pending.
pub open spec fn requested_status(raw: Option<Seq<char>>) -> AutoImproveProposalStatus {
    match raw {
        Some(text) => {
            let name = trimmed(text);
            if name == "approved"@ {
                AutoImproveProposalStatus::Approved
            } else if name == "rejected"@ {
                AutoImproveProposalStatus::Rejected
            } else if name == "conflict"@ {
                AutoImproveProposalStatus::Conflict
            } else if name == "failed"@ {
                AutoImproveProposalStatus::Failed
            } else {
                AutoImproveProposalStatus::Pending
            }
        },
        None => AutoImproveProposalStatus::Pending,
    }
}

/// A text that may be missing; then it is empty.
pub open spec fn or_empty(text: Option<Seq<char>>) -> Seq<char> {
    match text {
        Some(t) => t,
        None => Seq::empty(),
    }
}

/// Whether a citation is of a session.
pub open spec fn cites_session(page: Seq<char>) -> bool {
    starts_with(page, "sessions/"@) && ends_with(page, ".md"@)
}

/// `row` shows a citation. Only that of a session has a link.
pub open spec fn is_evidence_row(
    row: EvidenceRow,
    page: Option<Seq<char>>,
    quote: Option<Seq<char>>,
    workspace: Seq<char>,
    project: Seq<char>,
) -> bool {
    &&& row.page@ == or_empty(page)
    &&& row.quote@ == or_empty(quote)
    &&& opt_view(row.href) == if cites_session(or_empty(page)) {
        Some(page_link(workspace, project, or_empty(page)))
    } else {
        None
    }
}

/// `rows` show the citations, one by one.
pub open spec fn are_evidence_rows(
    rows: Seq<EvidenceRow>,
    pages: Seq<Option<Seq<char>>>,
    quotes: Seq<Option<Seq<char>>>,
    workspace: Seq<char>,
    project: Seq<char>,
) -> bool {
    &&& rows.len() == pages.len()
    &&& rows.len() == quotes.len()
    &&& forall|k: int|
        0 <= k < rows.len() ==> is_evidence_row(
            #[trigger] rows[k],
            pages[k],
            quotes[k],
            workspace,
            project,
        )
}

/// `rows` show what a JSON text cites.
pub open spec fn shows_evidence(
    rows: Seq<EvidenceRow>,
    json: Seq<char>,
    workspace: Seq<char>,
    project: Seq<char>,
) -> bool {
    match (json_item_strings(json, "page"@), json_item_strings(json, "quote"@)) {
        (Some(pages), Some(quotes)) => are_evidence_rows(rows, pages, quotes, workspace, project),
        _ => rows.len() == 0,
    }
}

/// Whether the page of a proposal is no longer what it was. A page that was not there then,
/// or is not there now, is not.
pub open spec fn is_conflict(
    operation: AutoImproveProposalOperation,
    staged: Option<[u8; 32]>,
    current_sha256: Option<Seq<u8>>,
) -> bool {
    match operation {
        AutoImproveProposalOperation::Create => false,
        AutoImproveProposalOperation::Update => match (staged, current_sha256) {
            (Some(then), Some(now)) => now != then@,
            _ => true,
        },
    }
}

/// `card` shows `detail`, where `current` is the body of the page.
pub open spec fn is_card(
    card: ProposalCard,
    detail: AutoImproveProposalDetail,
    current: Option<Seq<char>>,
    workspace: Seq<char>,
    project: Seq<char>,
) -> bool {
    &&& card.id@ == detail.id@
    &&& card.title@ == detail.title@
    &&& card.kind@ == detail.kind@
    &&& card.operation@ == operation_name(detail.operation)
    &&& card.target_path@ == detail.target_path@
    &&& card.confidence_pct == detail.confidence_pct
    &&& card.conflict == is_conflict(
        detail.operation,
        detail.target_body_sha256_at_stage,
        match current {
            Some(body) => Some(sha256(encode_utf8(body))),
            None => None,
        },
    )
    &&& card.rationale@ == detail.rationale@
    &&& shows_evidence(card.evidence@, detail.evidence_json@, workspace, project)
    &&& opt_view(card.before) == if detail.operation == AutoImproveProposalOperation::Update {
        current
    } else {
        None
    }
    &&& card.after@ == detail.body_markdown@
    &&& card.approve_cmd@ == "ai-memory pending-writes approve "@ + detail.id@
    &&& card.reject_cmd@ == "ai-memory pending-writes reject "@ + detail.id@
}

pub open spec fn operation_name(operation: AutoImproveProposalOperation) -> Seq<char> {
    match operation {
        AutoImproveProposalOperation::Create => "create"@,
        AutoImproveProposalOperation::Update => "update"@,
    }
}

/// `sha2::Sha256`: `new`, `update` with the bytes, and `finalize`. Claims that the digest
/// depends on the bytes alone.
#[verifier::external_body]
fn digest(bytes: &[u8]) -> (r: [u8; 32])
    ensures
        r@ == sha256(bytes@),
{
    let mut hasher = <sha2::Sha256 as sha2::Digest>::new();
    sha2::Digest::update(&mut hasher, bytes);
    sha2::Digest::finalize(hasher).into()
}

/// The digest of the body of a page.
pub fn body_sha256(body: &str) -> (r: [u8; 32])
    ensures
        r@ == sha256(encode_utf8(body@)),
{
    digest(body.as_bytes())
}

/// The state that a request stands for.
pub fn clamp_status(raw: Option<&str>) -> (r: AutoImproveProposalStatus)
    ensures
        r == requested_status(
            match raw {
                Some(text) => Some(text@),
                None => None,
            },
        ),
{
    match raw {
        Some(text) => {
            let name = trim(text);
            if str_eq(name, "approved") {
                AutoImproveProposalStatus::Approved
            } else if str_eq(name, "rejected") {
                AutoImproveProposalStatus::Rejected
            } else if str_eq(name, "conflict") {
                AutoImproveProposalStatus::Conflict
            } else if str_eq(name, "failed") {
                AutoImproveProposalStatus::Failed
            } else {
                AutoImproveProposalStatus::Pending
            }
        },
        None => AutoImproveProposalStatus::Pending,
    }
}

impl AutoImproveProposalStatus {
    /// The name of the state.
    pub fn as_str(self) -> (r: &'static str)
        ensures
            r@ == status_name(self),
    {
        match self {
            AutoImproveProposalStatus::Pending => "pending",
            AutoImproveProposalStatus::Approved => "approved",
            AutoImproveProposalStatus::Rejected => "rejected",
            AutoImproveProposalStatus::Conflict => "conflict",
            AutoImproveProposalStatus::Failed => "failed",
        }
    }
}

impl AutoImproveProposalOperation {
    /// The name of the operation.
    pub fn as_str(self) -> (r: &'static str)
        ensures
            r@ == operation_name(self),
    {
        match self {
            AutoImproveProposalOperation::Create => "create",
            AutoImproveProposalOperation::Update => "update",
        }
    }
}

fn text_or_empty(text: &Option<String>) -> (r: String)
    ensures
        r@ == or_empty(opt_view(*text)),
{
    match text {
        Some(t) => t.clone(),
        None => String::new(),
    }
}

/// A citation with its link, which only that of a session has.
pub fn evidence_row(
    workspace: &str,
    project: &str,
    page: &Option<String>,
    quote: &Option<String>,
) -> (row: EvidenceRow)
    ensures
        is_evidence_row(row, opt_view(*page), opt_view(*quote), workspace@, project@),
{
    let page = text_or_empty(page);
    let quote = text_or_empty(quote);
    let href = if begins_with(page.as_str(), "sessions/") && finishes_with(page.as_str(), ".md") {
        Some(page_href(workspace, project, page.as_str()))
    } else {
        None
    };
    EvidenceRow { page, quote, href }
}

/// The citations of a proposal, each a page and a quote that may be missing.
pub fn evidence_item_rows(
    workspace: &str,
    project: &str,
    items: &Vec<(Option<String>, Option<String>)>,
) -> (rows: Vec<EvidenceRow>)
    ensures
        are_evidence_rows(rows@, firsts(items@), seconds(items@), workspace@, project@),
{
    let mut rows: Vec<EvidenceRow> = Vec::new();
    let mut i: usize = 0;
    while i < items.len()
        invariant
            i <= items@.len(),
            rows@.len() == i,
            forall|k: int|
                0 <= k < i ==> is_evidence_row(
                    #[trigger] rows@[k],
                    opt_view(items@[k].0),
                    opt_view(items@[k].1),
                    workspace@,
                    project@,
                ),
        decreases items@.len() - i,
    {
        rows.push(evidence_row(workspace, project, &items[i].0, &items[i].1));
        i = i + 1;
    }
    rows
}

/// The citations of a proposal, read from JSON. There is none where the text is no array.
pub fn evidence_rows(workspace: &str, project: &str, evidence_json: &str) -> (rows: Vec<EvidenceRow>)
    ensures
        shows_evidence(rows@, evidence_json@, workspace@, project@),
{
    match read_item_strings(evidence_json, "page", "quote") {
        Some(items) => evidence_item_rows(workspace, project, &items),
        None => Vec::new(),
    }
}

fn digests_differ(a: &[u8; 32], b: &[u8; 32]) -> (r: bool)
    ensures
        r == (a@ != b@),
{
    let mut i: usize = 0;
    while i < 32
        invariant
            i <= 32,
            forall|k: int| 0 <= k < i ==> a@[k] == b@[k],
        decreases 32 - i,
    {
        if a[i] != b[i] {
            return true;
        }
        i = i + 1;
    }
    assert(a@ =~= b@);
    false
}

/// Whether the page of a proposal is no longer what it was, by the digests of what it was and
/// what it is.
pub fn has_conflict(
    operation: AutoImproveProposalOperation,
    staged: &Option<[u8; 32]>,
    current_sha256: &Option<[u8; 32]>,
) -> (r: bool)
    ensures
        r == is_conflict(
            operation,
            *staged,
            match *current_sha256 {
                Some(now) => Some(now@),
                None => None,
            },
        ),
{
    match operation {
        AutoImproveProposalOperation::Create => false,
        AutoImproveProposalOperation::Update => match (staged, current_sha256) {
            (Some(then), Some(now)) => digests_differ(now, then),
            _ => true,
        },
    }
}

fn command(verb: &str, id: &str) -> (r: String)
    ensures
        r@ == verb@ + id@,
{
    let mut r = verb.to_owned();
    r.append(id);
    r
}

/// The card of a proposal, where `current` is the body of its page, if that is there.
pub fn build_card(
    workspace: &str,
    project: &str,
    detail: &AutoImproveProposalDetail,
    current: &Option<String>,
) -> (card: ProposalCard)
    ensures
        is_card(card, *detail, opt_view(*current), workspace@, project@),
{
    let current_sha256 = match current {
        Some(body) => Some(body_sha256(body.as_str())),
        None => None,
    };
    let conflict = has_conflict(
        detail.operation,
        &detail.target_body_sha256_at_stage,
        &current_sha256,
    );
    let before = match detail.operation {
        AutoImproveProposalOperation::Create => None,
        AutoImproveProposalOperation::Update => match current {
            Some(body) => Some(body.clone()),
            None => None,
        },
    };
    ProposalCard {
        id: detail.id.clone(),
        title: detail.title.clone(),
        kind: detail.kind.clone(),
        operation: detail.operation.as_str(),
        target_path: detail.target_path.clone(),
        confidence_pct: detail.confidence_pct,
        conflict,
        rationale: detail.rationale.clone(),
        evidence: evidence_rows(workspace, project, detail.evidence_json.as_str()),
        before,
        after: detail.body_markdown.clone(),
        approve_cmd: command("ai-memory pending-writes approve ", detail.id.as_str()),
        reject_cmd: command("ai-memory pending-writes reject ", detail.id.as_str()),
    }
}

/// The cards of the proposals that were found.
pub fn build_cards(
    workspace: &str,
    project: &str,
    found: &Vec<Option<FoundProposal>>,
) -> (cards: Vec<ProposalCard>)
    ensures
        are_cards(cards@, found@, workspace@, project@),
{
    let mut cards: Vec<ProposalCard> = Vec::new();
    let mut i: usize = 0;
    while i < found.len()
        invariant
            i <= found@.len(),
            cards@.len() == found_numbers(found@.take(i as int)).len(),
            forall|k: int|
                0 <= k < cards@.len() ==> is_card(
                    #[trigger] cards@[k],
                    found@[found_numbers(found@.take(i as int))[k]]->Some_0.detail,
                    opt_view(found@[found_numbers(found@.take(i as int))[k]]->Some_0.current),
                    workspace@,
                    project@,
                ),
        decreases found@.len() - i,
    {
        assert(found@.take(i + 1).drop_last() =~= found@.take(i as int));
        if let Some(proposal) = &found[i] {
            cards.push(build_card(workspace, project, &proposal.detail, &proposal.current));
        }
        i = i + 1;
    }
    assert(found@.take(i as int) =~= found@);
    cards
}

/// The queue of the proposals in a state.
pub fn proposals_view(
    workspace: &str,
    project: &str,
    status: AutoImproveProposalStatus,
    found: &Vec<Option<FoundProposal>>,
) -> (view: ProposalsView)
    ensures
        view.workspace@ == workspace@,
        view.project@ == project@,
        view.base_href@ == project_link(workspace@, project@),
        view.aba@ == "propostas"@,
        view.status@ == status_name(status),
        are_cards(view.proposals@, found@, workspace@, project@),
{
    ProposalsView {
        workspace: workspace.to_owned(),
        project: project.to_owned(),
        base_href: project_href(workspace, project),
        aba: "propostas",
        status: status.as_str(),
        proposals: build_cards(workspace, project, found),
    }
}

/// The name of a state stands for it.
pub proof fn law_status_names_are_read_back(status: AutoImproveProposalStatus)
    ensures
        requested_status(Some(status_name(status))) == status,
{
    reveal_strlit("pending");
    reveal_strlit("approved");
    reveal_strlit("rejected");
    reveal_strlit("conflict");
    reveal_strlit("failed");
    let name = status_name(status);
    assert(!is_space(name[0]));
    assert(!is_space(name.last()));
    assert(trimmed(name) == name);
    if status == AutoImproveProposalStatus::Pending {
        assert(name[0] == 'p');
        assert("approved"@[0] == 'a');
        assert("rejected"@[0] == 'r');
        assert("conflict"@[0] == 'c');
        assert("failed"@[0] == 'f');
    } else {
        assert("approved"@[0] == 'a');
        assert("rejected"@[0] == 'r');
        assert("conflict"@[0] == 'c');
        assert("failed"@[0] == 'f');
    }
}

/// A proposal that makes a page never conflicts. One that changes a page does not exactly
/// where the page is there and has the digest that it had.
pub proof fn law_conflict_means_changed(
    operation: AutoImproveProposalOperation,
    staged: Option<[u8; 32]>,
    current_sha256: Option<Seq<u8>>,
)
    ensures
        operation == AutoImproveProposalOperation::Create ==> !is_conflict(operation, staged, current_sha256),
        operation == AutoImproveProposalOperation::Update ==> (!is_conflict(operation, staged, current_sha256)
            <==> staged is Some && current_sha256 is Some && current_sha256->Some_0
            == staged->Some_0@),
{
}

proof fn lemma_found_numbers(found: Seq<Option<FoundProposal>>)
    ensures
        ({
            let numbers = found_numbers(found);
            let there = found.filter(|p: Option<FoundProposal>| p is Some);
            &&& numbers.len() == there.len()
            &&& forall|k: int|
                0 <= k < there.len() ==> 0 <= #[trigger] numbers[k] < found.len()
                    && found[numbers[k]] == there[k]
        }),
    decreases found.len(),
{
    reveal(Seq::filter);
    if found.len() > 0 {
        let rest = found.drop_last();
        lemma_found_numbers(rest);
        let before = found_numbers(rest);
        let numbers = found_numbers(found);
        let there = found.filter(|p: Option<FoundProposal>| p is Some);
        assert forall|k: int| 0 <= k < there.len() implies 0 <= #[trigger] numbers[k] < found.len()
            && found[numbers[k]] == there[k] by {
            if k < before.len() {
                assert(numbers[k] == before[k]);
                assert(rest[before[k]] == found[before[k]]);
            }
        }
    }
}

/// Every proposal that was found has its card, in the order of the queue, and nothing else
/// has one. A card says what its proposal says. It conflicts exactly where it changes a page
/// that is gone, that was not there when the proposal was made, or that has another digest
/// now, and it shows the page as it is only where it changes it.
pub proof fn law_every_found_proposal_has_its_card(
    cards: Seq<ProposalCard>,
    found: Seq<Option<FoundProposal>>,
    workspace: Seq<char>,
    project: Seq<char>,
)
    requires
        are_cards(cards, found, workspace, project),
    ensures
        ({
            let there = found.filter(|p: Option<FoundProposal>| p is Some);
            &&& cards.len() == there.len()
            &&& forall|k: int|
                0 <= k < there.len() ==> {
                    let card = #[trigger] cards[k];
                    let detail = there[k]->Some_0.detail;
                    let current = there[k]->Some_0.current;
                    let update = detail.operation == AutoImproveProposalOperation::Update;
                    &&& card.id@ == detail.id@
                    &&& card.title@ == detail.title@
                    &&& card.kind@ == detail.kind@
                    &&& card.target_path@ == detail.target_path@
                    &&& card.confidence_pct == detail.confidence_pct
                    &&& card.rationale@ == detail.rationale@
                    &&& card.after@ == detail.body_markdown@
                    &&& card.operation@ == if update {
                        "update"@
                    } else {
                        "create"@
                    }
                    &&& card.approve_cmd@ == "ai-memory pending-writes approve "@ + detail.id@
                    &&& card.reject_cmd@ == "ai-memory pending-writes reject "@ + detail.id@
                    &&& shows_evidence(
                        card.evidence@,
                        detail.evidence_json@,
                        workspace,
                        project,
                    )
                    &&& card.before is Some <==> update && current is Some
                    &&& card.before is Some ==> card.before->Some_0@ == current->Some_0@
                    &&& card.conflict <==> update && (current is None
                        || detail.target_body_sha256_at_stage is None || sha256(
                        encode_utf8(current->Some_0@),
                    ) != detail.target_body_sha256_at_stage->Some_0@)
                }
        }),
{
    lemma_found_numbers(found);
    let there = found.filter(|p: Option<FoundProposal>| p is Some);
    let numbers = found_numbers(found);
    assert forall|k: int| 0 <= k < there.len() implies is_card(
        #[trigger] cards[k],
        there[k]->Some_0.detail,
        opt_view(there[k]->Some_0.current),
        workspace,
        project,
    ) && there[k] is Some by {
        assert(found[numbers[k]] == there[k]);
        found.lemma_filter_pred(|p: Option<FoundProposal>| p is Some, k);
    }
}

/// The evidence of a proposal shows every item of its list in order, with a missing page or
/// quote as empty text. An item is linked exactly where it cites a session, and the link is
/// that of the page cited. What is no list shows nothing.
pub proof fn law_evidence_shows_every_citation(
    rows: Seq<EvidenceRow>,
    json: Seq<char>,
    workspace: Seq<char>,
    project: Seq<char>,
)
    requires
        shows_evidence(rows, json, workspace, project),
    ensures
        json_item_strings(json, "page"@) is None || json_item_strings(json, "quote"@) is None
            ==> rows.len() == 0,
        json_item_strings(json, "page"@) is Some && json_item_strings(json, "quote"@) is Some
            ==> rows.len() == json_item_strings(json, "page"@)->Some_0.len(),
        forall|k: int|
            0 <= k < rows.len() ==> {
                let page = json_item_strings(json, "page"@)->Some_0[k];
                let quote = json_item_strings(json, "quote"@)->Some_0[k];
                let row = #[trigger] rows[k];
                &&& page is Some ==> row.page@ == page->Some_0
                &&& page is None ==> row.page@.len() == 0
                &&& quote is Some ==> row.quote@ == quote->Some_0
                &&& quote is None ==> row.quote@.len() == 0
                &&& row.href is Some <==> "sessions/"@.is_prefix_of(row.page@)
                    && ".md"@.is_suffix_of(row.page@)
                &&& row.href is Some ==> row.href->Some_0@ == page_link(
                    workspace,
                    project,
                    row.page@,
                )
            },
{
    assert forall|k: int| 0 <= k < rows.len() implies {
        let row = #[trigger] rows[k];
        &&& row.href is Some <==> "sessions/"@.is_prefix_of(row.page@) && ".md"@.is_suffix_of(
            row.page@,
        )
        &&& row.href is Some ==> row.href->Some_0@ == page_link(workspace, project, row.page@)
    } by {
        let page = json_item_strings(json, "page"@)->Some_0[k];
        let quote = json_item_strings(json, "quote"@)->Some_0[k];
        assert(is_evidence_row(rows[k], page, quote, workspace, project));
    }
}

/// A request is for the state that it names, space around the name aside, and for the pending
/// ones where it names none.
pub proof fn law_request_is_for_the_state_it_names(text: Seq<char>, status: AutoImproveProposalStatus)
    ensures
        trimmed(text) == status_name(status) ==> requested_status(Some(text)) == status,
        requested_status(Some(text)) == status ==> trimmed(text) == status_name(status) || status
            == AutoImproveProposalStatus::Pending,
        requested_status(None) == AutoImproveProposalStatus::Pending,
{
    law_status_names_are_read_back(status);
    reveal_strlit("pending");
    reveal_strlit("approved");
    reveal_strlit("rejected");
    reveal_strlit("conflict");
    reveal_strlit("failed");
    assert("pending"@[0] == 'p');
    assert("approved"@[0] == 'a');
    assert("rejected"@[0] == 'r');
    assert("conflict"@[0] == 'c');
    assert("failed"@[0] == 'f');
}

} // verus!
