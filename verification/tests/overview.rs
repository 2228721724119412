use ai_memory_panel::brief::BriefPageBody;
use ai_memory_panel::labels::overview_kinds;
use ai_memory_panel::overview::{
    core_pages_section, folder_for_kind, folder_href, kind_counts, missing_origin, overview_view,
    page_row, period_row, recent_by_kind, week_rows, OverviewPage, OverviewSession,
    ProjectOverview, WeekChanges,
};

const DAY: i64 = 86_400_000_000;

fn page(path: &str, kind: &str, origin_us: Option<i64>) -> OverviewPage {
    OverviewPage {
        path: path.to_string(),
        title: format!("Title of {path}"),
        kind: kind.to_string(),
        summary: Some(format!("Summary of {path}")),
        origin_us,
    }
}

fn session(agent: &str, produced: u32) -> OverviewSession {
    OverviewSession {
        id: agent.to_string(),
        started_us: 0,
        agent: agent.to_string(),
        produced,
    }
}

fn overview(pages: Vec<OverviewPage>) -> ProjectOverview {
    ProjectOverview {
        pages,
        sessions: vec![session("codex", 1)],
        first_session_us: Some(0),
        last_session_us: Some(2 * DAY),
    }
}

fn core_page(path: &str) -> BriefPageBody {
    BriefPageBody {
        path: path.to_string(),
        title: format!("Core {path}"),
        body: String::new(),
        pinned: false,
        updated_at: String::new(),
    }
}

#[test]
fn folders_of_kinds_are_linked() {
    assert_eq!(folder_for_kind("rule"), Some("_rules"));
    assert_eq!(folder_for_kind("fact"), None);
    assert_eq!(folder_href("w/a/b", "decision"), "w/a/b/paginas#pasta-decisions");
    assert_eq!(folder_href("w/a/b", "concept"), "w/a/b/paginas#pasta-concepts");
    assert_eq!(folder_href("w/a/b", "gotcha"), "w/a/b/paginas#pasta-gotchas");
    assert_eq!(folder_href("w/a/b", "procedure"), "w/a/b/paginas#pasta-procedures");
    assert_eq!(folder_href("w/a/b", "fact"), "w/a/b/paginas");
}

#[test]
fn numbers_have_a_fixed_order_zeros_and_all() {
    let o = overview(vec![
        page("a", "decision", None),
        page("b", "gotcha", Some(0)),
        page("c", "decision", Some(0)),
        page("d", "fact", Some(0)),
    ]);
    let counts = kind_counts(&o, "w/x/y", &overview_kinds());
    let labels: Vec<&str> = counts.iter().map(|c| c.label.as_str()).collect();
    assert_eq!(
        labels,
        vec!["2 decisões", "0 conceitos", "1 gotcha", "0 regras", "0 procedimentos", "1 sessão"]
    );
    assert_eq!(counts[0].href, "w/x/y/paginas#pasta-decisions");
    assert_eq!(counts[5].href, "w/x/y/paginas#pasta-sessions");
}

#[test]
fn pages_without_an_origin_are_counted_by_kind() {
    let o = overview(vec![
        page("a", "zebra", None),
        page("b", "gotcha", None),
        page("c", "decision", Some(0)),
        page("d", "fact", None),
        page("e", "gotcha", None),
        page("f", "concept", None),
    ]);
    let counts = missing_origin(&o, "b", &overview_kinds());
    let shown: Vec<(&str, &str)> = counts
        .iter()
        .map(|c| (c.label.as_str(), c.href.as_str()))
        .collect();
    assert_eq!(
        shown,
        vec![
            ("1 conceito", "b/paginas#pasta-concepts"),
            ("2 gotchas", "b/paginas#pasta-gotchas"),
            ("1 fact", "b/paginas"),
            ("1 zebra", "b/paginas"),
        ]
    );
    assert!(missing_origin(&overview(Vec::new()), "b", &overview_kinds()).is_empty());
}

#[test]
fn recent_pages_are_by_origin_then_path() {
    let mut pages = vec![
        page("b", "decision", Some(5 * DAY)),
        page("a", "decision", Some(5 * DAY)),
        page("x", "gotcha", Some(9 * DAY)),
        page("n", "decision", None),
    ];
    for i in 0..10 {
        pages.push(page(&format!("p{i}"), "decision", Some(i * DAY / 2)));
    }
    let rows = recent_by_kind(&overview(pages), "decision", "w", "p");
    assert_eq!(rows.len(), 10);
    let hrefs: Vec<&str> = rows.iter().map(|r| r.href.as_str()).collect();
    assert_eq!(
        hrefs,
        vec![
            "w/w/p/p/a", "w/w/p/p/b", "w/w/p/p/p9", "w/w/p/p/p8", "w/w/p/p/p7", "w/w/p/p/p6",
            "w/w/p/p/p5", "w/w/p/p/p4", "w/w/p/p/p3", "w/w/p/p/p2",
        ]
    );
    assert_eq!(rows[0].date, Some("1970-01-06".to_string()));
    assert_eq!(rows[0].summary, Some("Summary of a".to_string()));
}

#[test]
fn rows_show_details_only_where_wanted() {
    let p = page("c d", "concept", Some(DAY));
    let plain = page_row("w", "p", &p, false);
    assert_eq!(plain.href, "w/w/p/p/c%20d");
    assert_eq!(plain.title, "Title of c d");
    assert_eq!(plain.kind, "concept");
    assert_eq!(plain.summary, None);
    assert_eq!(plain.date, None);
    let full = page_row("w", "p", &p, true);
    assert_eq!(full.date, Some("1970-01-02".to_string()));
    assert_eq!(page_row("w", "p", &page("e", "k", None), true).date, None);
}

#[test]
fn weeks_have_labels_and_links() {
    let weeks = vec![
        WeekChanges {
            start_date: "2026-09-21".to_string(),
            sessions: 2,
            new_decisions: vec![page("d", "decision", Some(0))],
            new_or_updated_concepts: Vec::new(),
            top_session: Some(session("codex", 1)),
        },
        WeekChanges {
            start_date: "2026-09-14".to_string(),
            sessions: 1,
            new_decisions: Vec::new(),
            new_or_updated_concepts: vec![page("c", "concept", None)],
            top_session: None,
        },
    ];
    let rows = week_rows(&weeks, "w", "p");
    assert_eq!(rows[0].sessions_label, "2 sessões");
    assert_eq!(rows[0].new_decisions[0].href, "w/w/p/p/d");
    assert_eq!(rows[0].new_decisions[0].date, None);
    let top = rows[0].top_session.as_ref().unwrap();
    assert_eq!((top.agent.as_str(), top.pages_label.as_str()), ("codex", "1 página"));
    assert_eq!(rows[1].sessions_label, "1 sessão");
    assert_eq!(rows[1].new_or_updated_concepts.len(), 1);
    assert!(rows[1].top_session.is_none());
}

#[test]
fn core_pages_say_their_kind_unless_all_are_concepts() {
    let o = overview(vec![
        page("a", "rule", None),
        page("a", "concept", None),
        page("b", "concept", None),
    ]);
    let (title, show, rows) = core_pages_section(&[core_page("b"), core_page("a")], &o, "w", "p");
    assert_eq!(title, "Conceitos centrais");
    assert!(!show);
    assert_eq!(rows[0].title, "Core b");
    assert_eq!(rows[1].kind, "concept");
    let (title, show, rows) = core_pages_section(&[core_page("b"), core_page("_slots/x")], &o, "w", "p");
    assert_eq!(title, "Páginas centrais (nem todas são conceitos)");
    assert!(show);
    assert_eq!(rows[1].kind, "outro");
    assert_eq!(rows[1].href, "w/w/p/p/_slots/x");
    let (title, show, rows) = core_pages_section(&[], &o, "w", "p");
    assert_eq!(title, "Conceitos centrais");
    assert!(!show && rows.is_empty());
}

#[test]
fn the_period_needs_both_ends() {
    let mut o = overview(Vec::new());
    let period = period_row(&o).unwrap();
    assert_eq!((period.first.as_str(), period.last.as_str()), ("1970-01-01", "1970-01-03"));
    o.first_session_us = None;
    assert!(period_row(&o).is_none());
    o.last_session_us = None;
    assert!(period_row(&o).is_none());
}

#[test]
fn the_overview_puts_its_sections_together() {
    let o = overview(vec![
        page("d", "decision", Some(DAY)),
        page("g", "gotcha", Some(DAY)),
        page("c", "concept", None),
    ]);
    let view = overview_view("my ws", "p", &o, &[core_page("c")], &Vec::new(), &overview_kinds());
    assert_eq!(view.base_href, "w/my%20ws/p");
    assert_eq!(view.aba, "visao");
    assert_eq!(view.kind_counts.len(), 6);
    assert_eq!(view.recent_decisions.len(), 1);
    assert_eq!(view.recent_gotchas[0].href, "w/my%20ws/p/p/g");
    assert_eq!(view.core_title, "Conceitos centrais");
    assert!(!view.core_show_kind);
    assert_eq!(view.core_pages.len(), 1);
    assert_eq!(view.missing_origin[0].label, "1 conceito");
    assert!(view.weeks.is_empty());
    assert!(view.period.is_some());
    assert_eq!((view.workspace.as_str(), view.project.as_str()), ("my ws", "p"));
}
