use ai_memory_panel::brief::{
    BriefPageBody, BRIEF_BUDGET_DEFAULT, BRIEF_BUDGET_MIN, UNTRUSTED_HISTORY_END,
};
use ai_memory_panel::briefing::{
    briefing_view, corpo_header_marker, montar, usage_pct,
};
use ai_memory_panel::cross_project::{
    collect_handoffs_and_messages, handoff_row, message_row, Handoff, Message,
};
use ai_memory_panel::pages::{page_folder, project_view, project_view_at, PageSummary};
use ai_memory_panel::proposals::{
    body_sha256, build_card, clamp_status, evidence_item_rows, evidence_rows, has_conflict,
    proposals_view, AutoImproveProposalDetail, AutoImproveProposalOperation,
    AutoImproveProposalStatus, FoundProposal,
};

fn core_page(path: &str, body: &str) -> BriefPageBody {
    BriefPageBody {
        path: path.to_string(),
        title: "T".to_string(),
        body: body.to_string(),
        pinned: false,
        updated_at: String::new(),
    }
}

fn summary(path: &str, updated_at: &str, system: bool) -> PageSummary {
    PageSummary {
        path: path.to_string(),
        title: format!("Title {path}"),
        kind: "fact".to_string(),
        updated_at: updated_at.to_string(),
        system,
    }
}

fn detail(operation: AutoImproveProposalOperation, staged: Option<[u8; 32]>) -> AutoImproveProposalDetail {
    AutoImproveProposalDetail {
        id: "id-1".to_string(),
        title: "Title".to_string(),
        kind: "learning".to_string(),
        operation,
        target_path: "concepts/x.md".to_string(),
        confidence_pct: 87,
        rationale: "why".to_string(),
        evidence_json: "[{\"page\":\"sessions/a b.md\",\"quote\":\"q\"}]".to_string(),
        body_markdown: "after".to_string(),
        target_body_sha256_at_stage: staged,
    }
}

#[test]
fn the_briefing_says_which_pages_are_in_it() {
    let pages = vec![core_page("_rules/a.md", " á \n"), core_page("_rules/b.md", &"x".repeat(30_000)), core_page("_rules/c.md", "c")];
    let b = montar(pages, &[], Some("0"), "N");
    assert_eq!(b.orcamento, BRIEF_BUDGET_MIN);
    assert!(b.markdown.len() <= BRIEF_BUDGET_MIN);
    assert_eq!(b.itens.len(), 3);
    assert_eq!(b.itens[0].bytes, 2);
    assert!(b.itens[0].entrou);
    assert!(b.itens[1].entrou);
    assert_eq!(b.itens[1].bytes, 30_000);
    assert!(!b.itens[2].entrou, "an omitted page is listed, not entered");
    let empty = montar(Vec::new(), &[], None, "N");
    assert_eq!(empty.markdown, "");
    assert_eq!(empty.orcamento, BRIEF_BUDGET_DEFAULT);
    assert!(empty.itens.is_empty());
}

#[test]
fn the_marker_is_the_end_of_a_heading() {
    assert_eq!(corpo_header_marker("a/b.md"), "(`a/b.md`)\n");
    let b = montar(vec![core_page("a/b.md", "body")], &[], None, "N");
    assert!(b.markdown.contains(&corpo_header_marker("a/b.md")));
    assert!(b.itens[0].entrou);
}

#[test]
fn a_heading_inside_a_body_does_not_make_a_page_enter() {
    let shown = format!("{}x\n{}", corpo_header_marker("_rules/b.md"), "y".repeat(30_000));
    let pages = vec![core_page("_rules/a.md", &shown), core_page("_rules/b.md", "b")];
    let b = montar(pages, &[], None, "N");
    assert!(b.markdown.contains(&corpo_header_marker("_rules/b.md")));
    assert!(b.itens[0].entrou);
    assert!(!b.itens[1].entrou);
}

#[test]
fn a_page_that_escaping_cuts_off_does_not_enter() {
    let fences = UNTRUSTED_HISTORY_END.repeat(80);
    let pages = vec![core_page("a", &fences), core_page("b", "body")];
    let b = montar(pages, &[], None, "N");
    assert_eq!(b.markdown.len(), 4_000);
    assert!(!b.markdown.contains(&corpo_header_marker("b")));
    assert!(b.itens[0].entrou);
    assert!(!b.itens[1].entrou);
    // With fewer fences there is room for the second page.
    let pages = vec![core_page("a", &UNTRUSTED_HISTORY_END.repeat(70)), core_page("b", "body")];
    let b = montar(pages, &[], None, "N");
    assert!(b.markdown.contains(&corpo_header_marker("b")));
    assert!(b.itens[0].entrou && b.itens[1].entrou);
}

#[test]
fn usage_is_a_percentage_of_bytes() {
    assert_eq!(usage_pct("", 0), 0);
    assert_eq!(usage_pct("á", 4), 50);
    assert_eq!(usage_pct("áá", 3), 100);
    assert_eq!(usage_pct("x", 0), 100);
    let b = montar(vec![core_page("a", "b")], &[], Some("2000"), "N");
    let used = b.markdown.len();
    let view = briefing_view("w", "p", b, "<p>".to_string());
    assert_eq!(view.usados, used);
    assert_eq!(view.orcamento, 2000);
    assert_eq!(view.pct, used * 100 / 2000);
    assert_eq!(view.orcamento_padrao, 4000);
    assert_eq!((view.aba, view.base_href.as_str(), view.html.as_str()), ("briefing", "w/w/p", "<p>"));
    assert_eq!(view.itens.len(), 1);
}

#[test]
fn pages_are_kept_in_folders() {
    assert_eq!(page_folder("a/b/c.md"), "a");
    assert_eq!(page_folder("c.md"), "(root)");
    assert_eq!(page_folder("/c.md"), "");
    let pages = vec![
        summary("decisions/b.md", "2026-01-02T00:00:00Z", false),
        summary("readme.md", "2026-01-03T00:00:00Z", false),
        summary("sessions/x.md", "2026-01-09T00:00:00Z", true),
        summary("decisions/a.md", "2026-01-02T00:00:00Z", false),
        summary("concepts/c d.md", "not a time", false),
    ];
    let view = project_view_at(&pages, "w", "p", 1_767_571_200_000_000);
    let names: Vec<&str> = view.folders.iter().map(|f| f.name.as_str()).collect();
    assert_eq!(names, vec!["(root)", "concepts", "decisions"]);
    let paths: Vec<&str> = view.folders[2].pages.iter().map(|p| p.path.as_str()).collect();
    assert_eq!(paths, vec!["decisions/b.md", "decisions/a.md"]);
    assert_eq!(view.folders[1].pages[0].href, "w/w/p/p/concepts/c%20d.md");
    assert_eq!(view.folders[1].pages[0].updated_relative, "not a time");
    assert_eq!(view.folders[2].pages[0].updated_relative, "3 days ago");
    assert_eq!(view.system.len(), 1);
    assert_eq!(view.system[0].pages[0].title, "Title sessions/x.md");
    let recent: Vec<&str> = view.recent.iter().map(|p| p.path.as_str()).collect();
    assert_eq!(
        recent,
        vec!["concepts/c d.md", "readme.md", "decisions/b.md", "decisions/a.md"]
    );
    assert_eq!((view.aba, view.base_href.as_str()), ("paginas", "w/w/p"));
}

#[test]
fn at_most_twenty_pages_are_recent() {
    let mut pages = Vec::new();
    for i in 0..25 {
        pages.push(summary(&format!("a/{i}"), &format!("2026-01-{:02}", i + 1), false));
    }
    let view = project_view(&pages, "w", "p");
    assert_eq!(view.recent.len(), 20);
    assert_eq!(view.recent[0].path, "a/24");
    assert_eq!(view.recent[19].path, "a/5");
    assert_eq!(view.recent[0].updated_relative, "2026-01-25");
}

#[test]
fn a_status_that_is_unknown_is_pending() {
    assert_eq!(clamp_status(None), AutoImproveProposalStatus::Pending);
    assert_eq!(clamp_status(Some("")), AutoImproveProposalStatus::Pending);
    assert_eq!(clamp_status(Some("gone")), AutoImproveProposalStatus::Pending);
    assert_eq!(clamp_status(Some(" approved ")), AutoImproveProposalStatus::Approved);
    assert_eq!(clamp_status(Some("rejected")), AutoImproveProposalStatus::Rejected);
    for status in [
        AutoImproveProposalStatus::Pending,
        AutoImproveProposalStatus::Approved,
        AutoImproveProposalStatus::Rejected,
        AutoImproveProposalStatus::Conflict,
        AutoImproveProposalStatus::Failed,
    ] {
        assert_eq!(clamp_status(Some(status.as_str())), status);
    }
}

#[test]
fn digests_are_sha256() {
    let hex: String = body_sha256("abc").iter().map(|b| format!("{b:02x}")).collect();
    assert_eq!(
        hex,
        "ba7816bf8f01cfea414140de5dae2223b00361a396177a9cb410ff61f20015ad"
    );
    assert_ne!(body_sha256("á"), body_sha256("a"));
}

#[test]
fn only_sessions_are_linked_as_evidence() {
    let json = "[{\"page\":\"sessions/a#b.md\",\"quote\":\"q\"},{\"page\":\"concepts/x.md\"},\
                {\"quote\":7},\"text\",{\"page\":\"sessions/x.txt\"}]";
    let rows = evidence_rows("w", "p", json);
    assert_eq!(rows.len(), 5);
    assert_eq!(rows[0].href, Some("w/w/p/p/sessions/a%23b.md".to_string()));
    assert_eq!((rows[0].page.as_str(), rows[0].quote.as_str()), ("sessions/a#b.md", "q"));
    assert_eq!(rows[1].href, None);
    assert_eq!((rows[1].page.as_str(), rows[1].quote.as_str()), ("concepts/x.md", ""));
    assert_eq!((rows[2].page.as_str(), rows[2].quote.as_str()), ("", ""));
    assert_eq!(rows[3].page, "");
    assert_eq!(rows[4].href, None);
    assert!(evidence_rows("w", "p", "{\"page\":\"x\"}").is_empty());
    assert!(evidence_rows("w", "p", "not json").is_empty());
    assert!(evidence_rows("w", "p", "[]").is_empty());
    let rows = evidence_item_rows("w", "p", &vec![(Some("sessions/.md".to_string()), None)]);
    assert_eq!(rows[0].href, Some("w/w/p/p/sessions/.md".to_string()));
}

#[test]
fn a_changed_or_vanished_page_conflicts() {
    let update = AutoImproveProposalOperation::Update;
    let create = AutoImproveProposalOperation::Create;
    let staged = Some(body_sha256("before"));
    let card = build_card("w", "p", &detail(update, staged), &Some("before".to_string()));
    assert!(!card.conflict);
    assert_eq!(card.before, Some("before".to_string()));
    assert_eq!(card.operation, "update");
    assert_eq!(card.approve_cmd, "ai-memory pending-writes approve id-1");
    assert_eq!(card.reject_cmd, "ai-memory pending-writes reject id-1");
    assert_eq!(card.evidence[0].href, Some("w/w/p/p/sessions/a%20b.md".to_string()));
    assert_eq!(card.confidence_pct, 87);
    assert_eq!(card.after, "after");
    let card = build_card("w", "p", &detail(update, staged), &Some("changed".to_string()));
    assert!(card.conflict);
    assert_eq!(card.before, Some("changed".to_string()));
    let card = build_card("w", "p", &detail(update, staged), &None);
    assert!(card.conflict);
    assert_eq!(card.before, None);
    let card = build_card("w", "p", &detail(update, None), &Some("before".to_string()));
    assert!(card.conflict);
    let card = build_card("w", "p", &detail(create, None), &Some("before".to_string()));
    assert!(!card.conflict);
    assert_eq!(card.before, None);
    assert_eq!(card.operation, "create");
    assert!(!has_conflict(update, &Some([1; 32]), &Some([1; 32])));
    let mut other = [1; 32];
    other[31] = 2;
    assert!(has_conflict(update, &Some([1; 32]), &Some(other)));
}

#[test]
fn proposals_that_are_gone_are_passed_over() {
    let found = vec![
        None,
        Some(FoundProposal {
            detail: detail(AutoImproveProposalOperation::Create, None),
            current: None,
        }),
        None,
    ];
    let view = proposals_view("w", "p", AutoImproveProposalStatus::Failed, &found);
    assert_eq!(view.proposals.len(), 1);
    assert_eq!(view.proposals[0].id, "id-1");
    assert_eq!(view.status, "failed");
    assert_eq!((view.aba, view.base_href.as_str()), ("propostas", "w/w/p"));
}

#[test]
fn handoffs_hide_their_summary_from_some() {
    let handoff = Handoff {
        agent: "codex".to_string(),
        summary: "secret".to_string(),
        age: "há 3 horas".to_string(),
    };
    let shown = handoff_row("w", "p q", &handoff, true);
    assert_eq!(shown.summary, Some("secret".to_string()));
    assert_eq!(shown.project_href, "w/w/p%20q");
    assert_eq!(shown.age, "há 3 horas");
    let hidden = handoff_row("w", "p q", &handoff, false);
    assert_eq!(hidden.summary, None);
    assert_eq!(hidden.agent, "codex");
}

fn message(subject: Option<&str>) -> Message {
    Message {
        from_workspace: Some("fw".to_string()),
        from_project: None,
        subject: subject.map(|s| s.to_string()),
        body: "the body".to_string(),
        age: "agora".to_string(),
    }
}

#[test]
fn messages_show_a_subject_that_is_not_blank() {
    assert_eq!(message_row("w", "p", &message(Some(" s "))).summary, " s ");
    assert_eq!(message_row("w", "p", &message(Some(" \t\u{a0}"))).summary, "the body");
    assert_eq!(message_row("w", "p", &message(Some(""))).summary, "the body");
    let row = message_row("w", "p", &message(None));
    assert_eq!(row.summary, "the body");
    assert_eq!(row.from_workspace, "fw");
    assert_eq!(row.from_project, "");
    assert_eq!((row.to_workspace.as_str(), row.to_project.as_str()), ("w", "p"));
}

#[test]
fn listings_of_projects_are_appended() {
    let mut handoffs = Vec::new();
    let mut messages = Vec::new();
    let open = vec![Handoff {
        agent: "a".to_string(),
        summary: "s".to_string(),
        age: String::new(),
    }];
    collect_handoffs_and_messages("w", "one", &open, &vec![message(None)], true, &mut handoffs, &mut messages);
    collect_handoffs_and_messages("w", "two", &open, &Vec::new(), false, &mut handoffs, &mut messages);
    assert_eq!(handoffs.len(), 2);
    assert_eq!(handoffs[0].project, "one");
    assert_eq!(handoffs[0].summary, Some("s".to_string()));
    assert_eq!(handoffs[1].project, "two");
    assert_eq!(handoffs[1].summary, None);
    assert_eq!(messages.len(), 1);
    assert_eq!(messages[0].to_project, "one");
}
