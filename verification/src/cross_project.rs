//! The screen across projects: shared rules, open handoffs, pending messages.

use vstd::prelude::*;
use vstd::string::*;

use crate::href::page_href;
use crate::href::page_link;
use crate::href::project_href;
use crate::href::project_link;
use crate::order::distinct_sorted;
use crate::order::sorted_distinct;
use crate::rules::RuleCandidate;
use crate::rules::RuleGroup;
use crate::text::is_space;
use crate::text::law_trimming_takes_off_the_space_around;
use crate::text::trim;
use crate::text::trimmed;
use crate::utf8::opt_view;
use crate::utf8::views;

verus! {

/// Number of handoffs, and of messages, that are listed for a project.
pub const PER_PROJECT_LIMIT: usize = 50;

/// A rule with its link.
#[derive(Debug)]
pub struct RuleMemberRow {
    pub project: String,
    pub title: String,
    pub path: String,
    pub href: String,
}

/// A group of rules of one workspace.
#[derive(Debug)]
pub struct RuleGroupRow {
    pub workspace: String,
    pub members: Vec<RuleMemberRow>,
}

/// A handoff as it is stored.
#[derive(Debug)]
pub struct Handoff {
    pub agent: String,
    pub summary: String,
    /// Its age, in words.
    pub age: String,
}

/// An open handoff as it is shown.
#[derive(Debug)]
pub struct OpenHandoffRow {
    pub workspace: String,
    pub project: String,
    pub project_href: String,
    pub agent: String,
    /// The summary; none where the reader may not see it.
    pub summary: Option<String>,
    pub age: String,
}

/// A message as it is stored. The names of its sender may be gone.
#[derive(Debug)]
pub struct Message {
    pub from_workspace: Option<String>,
    pub from_project: Option<String>,
    pub subject: Option<String>,
    pub body: String,
    /// Its age, in words.
    pub age: String,
}

/// A pending message as it is shown.
#[derive(Debug)]
pub struct PendingMessageRow {
    pub from_workspace: String,
    pub from_project: String,
    pub to_workspace: String,
    pub to_project: String,
    pub summary: String,
    pub age: String,
}

pub open spec fn is_member_row(
    row: RuleMemberRow,
    rule: RuleCandidate,
    workspace: Seq<char>,
) -> bool {
    &&& row.project@ == rule.project@
    &&& row.title@ == rule.title@
    &&& row.path@ == rule.path@
    &&& row.href@ == page_link(workspace, rule.project@, rule.path@)
}

/// `row` shows `group`.
pub open spec fn is_group_row(row: RuleGroupRow, group: RuleGroup, workspace: Seq<char>) -> bool {
    &&& row.workspace@ == workspace
    &&& row.members@.len() == group.rules@.len()
    &&& forall|k: int|
        0 <= k < group.rules@.len() ==> is_member_row(
            #[trigger] row.members@[k],
            group.rules@[k],
            workspace,
        )
}

/// `row` shows `handoff`, its summary only to a reader who may see it.
pub open spec fn is_handoff_row(
    row: OpenHandoffRow,
    handoff: Handoff,
    workspace: Seq<char>,
    project: Seq<char>,
    with_body: bool,
) -> bool {
    &&& row.workspace@ == workspace
    &&& row.project@ == project
    &&& row.project_href@ == project_link(workspace, project)
    &&& row.agent@ == handoff.agent@
    &&& opt_view(row.summary) == if with_body {
        Some(handoff.summary@)
    } else {
        None
    }
    &&& row.age@ == handoff.age@
}

/// The summary of a message: its subject where that is not blank, else its body.
pub open spec fn message_summary(subject: Option<Seq<char>>, body: Seq<char>) -> Seq<char> {
    match subject {
        Some(text) => if trimmed(text).len() > 0 {
            text
        } else {
            body
        },
        None => body,
    }
}

/// A name that may be gone; then it is empty.
pub open spec fn name_or_empty(name: Option<String>) -> Seq<char> {
    match name {
        Some(text) => text@,
        None => Seq::empty(),
    }
}

/// `row` shows `message`.
pub open spec fn is_message_row(
    row: PendingMessageRow,
    message: Message,
    workspace: Seq<char>,
    project: Seq<char>,
) -> bool {
    &&& row.from_workspace@ == name_or_empty(message.from_workspace)
    &&& row.from_project@ == name_or_empty(message.from_project)
    &&& row.to_workspace@ == workspace
    &&& row.to_project@ == project
    &&& row.summary@ == message_summary(opt_view(message.subject), message.body@)
    &&& row.age@ == message.age@
}

/// The names of the workspaces, each once, in order.
pub fn workspace_names(names: &Vec<String>) -> (r: Vec<String>)
    ensures
        views(r@) == sorted_distinct(views(names@)),
{
    distinct_sorted(names)
}

/// A group of rules with its links.
pub fn build_rule_group_row(workspace: &str, group: &RuleGroup) -> (row: RuleGroupRow)
    ensures
        is_group_row(row, *group, workspace@),
{
    let mut members: Vec<RuleMemberRow> = Vec::new();
    let mut i: usize = 0;
    while i < group.rules.len()
        invariant
            i <= group.rules@.len(),
            members@.len() == i,
            forall|k: int|
                0 <= k < i ==> is_member_row(
                    #[trigger] members@[k],
                    group.rules@[k],
                    workspace@,
                ),
        decreases group.rules@.len() - i,
    {
        let rule = &group.rules[i];
        members.push(
            RuleMemberRow {
                project: rule.project.clone(),
                title: rule.title.clone(),
                path: rule.path.clone(),
                href: page_href(workspace, rule.project.as_str(), rule.path.as_str()),
            },
        );
        i = i + 1;
    }
    RuleGroupRow { workspace: workspace.to_owned(), members }
}

/// Appends the groups of rules of a workspace.
pub fn collect_rule_groups(rows: &mut Vec<RuleGroupRow>, workspace: &str, groups: &Vec<RuleGroup>)
    ensures
        final(rows)@.len() == old(rows)@.len() + groups@.len(),
        final(rows)@.take(old(rows)@.len() as int) == old(rows)@,
        forall|k: int|
            0 <= k < groups@.len() ==> is_group_row(
                #[trigger] final(rows)@[old(rows)@.len() + k],
                groups@[k],
                workspace@,
            ),
{
    let ghost before = rows@;
    let mut i: usize = 0;
    assert(rows@.take(before.len() as int) =~= before);
    while i < groups.len()
        invariant
            i <= groups@.len(),
            before == old(rows)@,
            rows@.len() == before.len() + i,
            rows@.take(before.len() as int) == before,
            forall|k: int|
                0 <= k < i ==> is_group_row(
                    #[trigger] rows@[before.len() + k],
                    groups@[k],
                    workspace@,
                ),
        decreases groups@.len() - i,
    {
        let ghost now = rows@;
        rows.push(build_rule_group_row(workspace, &groups[i]));
        proof {
            assert(rows@.take(before.len() as int) =~= now.take(before.len() as int));
            assert forall|k: int| 0 <= k < i + 1 implies is_group_row(
                #[trigger] rows@[before.len() + k],
                groups@[k],
                workspace@,
            ) by {
                if k < i {
                    assert(rows@[before.len() + k] == now[before.len() + k]);
                }
            }
        }
        i = i + 1;
    }
}

/// A handoff with the link of its project.
pub fn handoff_row(
    workspace: &str,
    project: &str,
    handoff: &Handoff,
    with_body: bool,
) -> (row: OpenHandoffRow)
    ensures
        is_handoff_row(row, *handoff, workspace@, project@, with_body),
{
    OpenHandoffRow {
        workspace: workspace.to_owned(),
        project: project.to_owned(),
        project_href: project_href(workspace, project),
        agent: handoff.agent.clone(),
        summary: if with_body {
            Some(handoff.summary.clone())
        } else {
            None
        },
        age: handoff.age.clone(),
    }
}

fn name_text(name: &Option<String>) -> (r: String)
    ensures
        r@ == name_or_empty(*name),
{
    match name {
        Some(text) => text.clone(),
        None => String::new(),
    }
}

/// A message with the names of both sides.
pub fn message_row(workspace: &str, project: &str, message: &Message) -> (row: PendingMessageRow)
    ensures
        is_message_row(row, *message, workspace@, project@),
{
    let summary = match &message.subject {
        Some(subject) => if trim(subject.as_str()).is_empty() {
            message.body.clone()
        } else {
            subject.clone()
        },
        None => message.body.clone(),
    };
    PendingMessageRow {
        from_workspace: name_text(&message.from_workspace),
        from_project: name_text(&message.from_project),
        to_workspace: workspace.to_owned(),
        to_project: project.to_owned(),
        summary,
        age: message.age.clone(),
    }
}

/// Appends the open handoffs and the pending messages of a project, in their order.
pub fn collect_handoffs_and_messages(
    workspace: &str,
    project: &str,
    open: &Vec<Handoff>,
    pending: &Vec<Message>,
    with_body: bool,
    handoffs: &mut Vec<OpenHandoffRow>,
    messages: &mut Vec<PendingMessageRow>,
)
    ensures
        final(handoffs)@.len() == old(handoffs)@.len() + open@.len(),
        final(handoffs)@.take(old(handoffs)@.len() as int) == old(handoffs)@,
        forall|k: int|
            0 <= k < open@.len() ==> is_handoff_row(
                #[trigger] final(handoffs)@[old(handoffs)@.len() + k],
                open@[k],
                workspace@,
                project@,
                with_body,
            ),
        final(messages)@.len() == old(messages)@.len() + pending@.len(),
        final(messages)@.take(old(messages)@.len() as int) == old(messages)@,
        forall|k: int|
            0 <= k < pending@.len() ==> is_message_row(
                #[trigger] final(messages)@[old(messages)@.len() + k],
                pending@[k],
                workspace@,
                project@,
            ),
{
    collect_handoffs(workspace, project, open, with_body, handoffs);
    collect_messages(workspace, project, pending, messages);
}

fn collect_handoffs(
    workspace: &str,
    project: &str,
    open: &Vec<Handoff>,
    with_body: bool,
    handoffs: &mut Vec<OpenHandoffRow>,
)
    ensures
        final(handoffs)@.len() == old(handoffs)@.len() + open@.len(),
        final(handoffs)@.take(old(handoffs)@.len() as int) == old(handoffs)@,
        forall|k: int|
            0 <= k < open@.len() ==> is_handoff_row(
                #[trigger] final(handoffs)@[old(handoffs)@.len() + k],
                open@[k],
                workspace@,
                project@,
                with_body,
            ),
{
    let ghost before = handoffs@;
    let mut i: usize = 0;
    assert(handoffs@.take(before.len() as int) =~= before);
    while i < open.len()
        invariant
            i <= open@.len(),
            before == old(handoffs)@,
            handoffs@.len() == before.len() + i,
            handoffs@.take(before.len() as int) == before,
            forall|k: int|
                0 <= k < i ==> is_handoff_row(
                    #[trigger] handoffs@[before.len() + k],
                    open@[k],
                    workspace@,
                    project@,
                    with_body,
                ),
        decreases open@.len() - i,
    {
        let ghost now = handoffs@;
        handoffs.push(handoff_row(workspace, project, &open[i], with_body));
        proof {
            assert(handoffs@.take(before.len() as int) =~= now.take(before.len() as int));
            assert forall|k: int| 0 <= k < i + 1 implies is_handoff_row(
                #[trigger] handoffs@[before.len() + k],
                open@[k],
                workspace@,
                project@,
                with_body,
            ) by {
                if k < i {
                    assert(handoffs@[before.len() + k] == now[before.len() + k]);
                }
            }
        }
        i = i + 1;
    }
}

fn collect_messages(
    workspace: &str,
    project: &str,
    pending: &Vec<Message>,
    messages: &mut Vec<PendingMessageRow>,
)
    ensures
        final(messages)@.len() == old(messages)@.len() + pending@.len(),
        final(messages)@.take(old(messages)@.len() as int) == old(messages)@,
        forall|k: int|
            0 <= k < pending@.len() ==> is_message_row(
                #[trigger] final(messages)@[old(messages)@.len() + k],
                pending@[k],
                workspace@,
                project@,
            ),
{
    let ghost before = messages@;
    let mut i: usize = 0;
    assert(messages@.take(before.len() as int) =~= before);
    while i < pending.len()
        invariant
            i <= pending@.len(),
            before == old(messages)@,
            messages@.len() == before.len() + i,
            messages@.take(before.len() as int) == before,
            forall|k: int|
                0 <= k < i ==> is_message_row(
                    #[trigger] messages@[before.len() + k],
                    pending@[k],
                    workspace@,
                    project@,
                ),
        decreases pending@.len() - i,
    {
        let ghost now = messages@;
        messages.push(message_row(workspace, project, &pending[i]));
        proof {
            assert(messages@.take(before.len() as int) =~= now.take(before.len() as int));
            assert forall|k: int| 0 <= k < i + 1 implies is_message_row(
                #[trigger] messages@[before.len() + k],
                pending@[k],
                workspace@,
                project@,
            ) by {
                if k < i {
                    assert(messages@[before.len() + k] == now[before.len() + k]);
                }
            }
        }
        i = i + 1;
    }
}

/// The summary of a handoff is shown exactly to a reader who may see it, and the rest of it to
/// every reader.
pub proof fn law_summaries_are_for_those_who_may_see_them(
    row: OpenHandoffRow,
    handoff: Handoff,
    workspace: Seq<char>,
    project: Seq<char>,
    with_body: bool,
)
    requires
        is_handoff_row(row, handoff, workspace, project, with_body),
    ensures
        row.summary is Some <==> with_body,
        with_body ==> row.summary->Some_0@ == handoff.summary@,
        row.agent@ == handoff.agent@,
        row.age@ == handoff.age@,
        row.workspace@ == workspace,
        row.project@ == project,
        row.project_href@ == project_link(workspace, project),
{
}

/// A message is shown by its subject where that holds more than white space, else by its body,
/// with the names of both sides. A name that is gone is empty.
pub proof fn law_messages_show_their_subject(
    row: PendingMessageRow,
    message: Message,
    workspace: Seq<char>,
    project: Seq<char>,
)
    requires
        is_message_row(row, message, workspace, project),
    ensures
        message.subject matches Some(subject) ==> ((exists|i: int|
            0 <= i < subject@.len() && !is_space(#[trigger] subject@[i])) ==> row.summary@
            == subject@),
        message.subject matches Some(subject) ==> ((forall|i: int|
            0 <= i < subject@.len() ==> is_space(#[trigger] subject@[i])) ==> row.summary@
            == message.body@),
        message.subject is None ==> row.summary@ == message.body@,
        message.from_workspace matches Some(name) ==> row.from_workspace@ == name@,
        message.from_workspace is None ==> row.from_workspace@.len() == 0,
        message.from_project matches Some(name) ==> row.from_project@ == name@,
        message.from_project is None ==> row.from_project@.len() == 0,
        row.to_workspace@ == workspace,
        row.to_project@ == project,
        row.age@ == message.age@,
{
    if let Some(subject) = message.subject {
        let s = subject@;
        law_trimming_takes_off_the_space_around(s);
        let (a, b) = choose|a: int, b: int|
            {
                &&& 0 <= a <= b <= s.len()
                &&& trimmed(s) == #[trigger] s.subrange(a, b)
                &&& forall|i: int| 0 <= i < a || b <= i < s.len() ==> is_space(#[trigger] s[i])
                &&& a < b ==> !is_space(s[a]) && !is_space(s[b - 1])
            };
        assert(trimmed(s).len() == b - a);
    }
}

/// A group is shown with all its rules in order, each with its link.
pub proof fn law_groups_show_all_their_rules(
    row: RuleGroupRow,
    group: RuleGroup,
    workspace: Seq<char>,
)
    requires
        is_group_row(row, group, workspace),
    ensures
        row.workspace@ == workspace,
        row.members@.len() == group.rules@.len(),
        forall|k: int|
            0 <= k < group.rules@.len() ==> {
                let (member, rule) = (#[trigger] row.members@[k], group.rules@[k]);
                &&& member.project@ == rule.project@
                &&& member.title@ == rule.title@
                &&& member.path@ == rule.path@
                &&& member.href@ == page_link(workspace, rule.project@, rule.path@)
            },
{
    assert forall|k: int| 0 <= k < group.rules@.len() implies is_member_row(
        #[trigger] row.members@[k],
        group.rules@[k],
        workspace,
    ) by {
    }
}

} // verus!
