use ai_memory_panel::cross_project::{build_rule_group_row, collect_rule_groups, workspace_names};
use ai_memory_panel::rules::{
    collapse_space, decode_vector, embedding_dim, group_rules, group_rules_by_keys,
    normalize_title, rules_across_projects, strip_accents, strip_lower, EmbeddingOrigin,
    RuleCandidate, RuleGroup, RuleRow,
};

const WS: [u8; 16] = [7; 16];

fn bits(v: &[f32]) -> Vec<u32> {
    v.iter().map(|x| x.to_bits()).collect()
}

fn f32_vec_to_bytes(v: &[f32]) -> Vec<u8> {
    let mut out = Vec::new();
    for x in v {
        out.extend_from_slice(&x.to_le_bytes());
    }
    out
}

fn candidate(project: &str, path: &str, title: &str, vector: Option<Vec<f32>>) -> RuleCandidate {
    RuleCandidate {
        workspace: WS,
        project: project.to_string(),
        path: path.to_string(),
        title: title.to_string(),
        vector: vector.map(|v| bits(&v)),
    }
}

fn cosine(a: &[f32], b: &[f32]) -> Option<f32> {
    if a.len() != b.len() {
        return None;
    }
    let dot: f32 = a.iter().zip(b).map(|(x, y)| x * y).sum();
    let norm_a = a.iter().map(|x| x * x).sum::<f32>().sqrt();
    let norm_b = b.iter().map(|x| x * x).sum::<f32>().sqrt();
    if norm_a == 0.0 || norm_b == 0.0 {
        return None;
    }
    Some(dot / (norm_a * norm_b))
}

/// Which pairs of embeddings reach the threshold.
fn similar(rules: &[RuleCandidate], threshold: f32) -> Vec<Vec<bool>> {
    let floats: Vec<Option<Vec<f32>>> = rules
        .iter()
        .map(|r| {
            r.vector
                .as_ref()
                .map(|v| v.iter().map(|x| f32::from_bits(*x)).collect())
        })
        .collect();
    let mut table = Vec::new();
    for a in &floats {
        let mut row = Vec::new();
        for b in &floats {
            row.push(match (a, b) {
                (Some(x), Some(y)) => cosine(x, y).is_some_and(|c| c >= threshold),
                _ => false,
            });
        }
        table.push(row);
    }
    table
}

fn rule_row(
    project: &str,
    slug: &str,
    title: &str,
    embedding: Option<(Vec<u8>, &str, &str, i64)>,
) -> RuleRow {
    let (vector, provider, model, dim) = match embedding {
        Some((bytes, provider, model, dim)) => (
            Some(bytes),
            Some(provider.to_string()),
            Some(model.to_string()),
            Some(dim),
        ),
        None => (None, None, None, None),
    };
    RuleRow {
        project: project.to_string(),
        path: format!("_rules/{slug}.md"),
        title: title.to_string(),
        vector,
        provider,
        model,
        dim,
    }
}

fn origin(provider: &str, model: &str, dim: u32) -> Option<EmbeddingOrigin> {
    Some(EmbeddingOrigin {
        provider: provider.to_string(),
        model: model.to_string(),
        dim,
    })
}

#[test]
fn similar_rules_across_projects_group_together() {
    let rules = vec![
        candidate("a", "_rules/env.md", "Nunca commitar .env", Some(vec![1.0, 0.0])),
        candidate(
            "b",
            "_rules/env.md",
            "Nao versionar arquivos .env",
            Some(vec![0.99, 0.05]),
        ),
        candidate("c", "_rules/tabs.md", "Usar tabs", Some(vec![0.0, 1.0])),
    ];
    let table = similar(&rules, 0.85);

    let groups = group_rules(rules, &table);

    assert_eq!(groups.len(), 1);
    assert_eq!(groups[0].projects(), vec!["a".to_string(), "b".to_string()]);
}

#[test]
fn no_vector_groups_by_normalized_title() {
    let rules = vec![
        candidate("a", "_rules/x.md", "Nunca Commitar Segredos", None),
        candidate("b", "_rules/x.md", "nunca   commitar segredos", None),
    ];
    let table = similar(&rules, 0.85);

    let groups = group_rules(rules, &table);

    assert_eq!(groups.len(), 1);
    assert_eq!(groups[0].projects(), vec!["a".to_string(), "b".to_string()]);
}

#[test]
fn same_project_pair_alone_does_not_form_a_group() {
    let rules = vec![
        candidate("a", "_rules/x.md", "Nunca commitar .env", Some(vec![1.0, 0.0])),
        candidate("a", "_rules/y.md", "Nao versionar .env", Some(vec![0.99, 0.05])),
    ];
    let table = similar(&rules, 0.85);

    let groups = group_rules(rules, &table);

    assert!(groups.is_empty());
}

#[test]
fn zero_norm_vectors_never_link() {
    let rules = vec![
        candidate("a", "_rules/x.md", "Regra A", Some(vec![0.0, 0.0])),
        candidate("b", "_rules/y.md", "Regra B", Some(vec![0.0, 0.0])),
    ];
    let table = similar(&rules, 0.0);

    let groups = group_rules(rules, &table);

    assert!(
        groups.is_empty(),
        "zero-norm vectors must never be judged similar, even at threshold 0.0"
    );
}

#[test]
fn vectors_of_different_dims_are_never_compared() {
    let rules = vec![
        candidate("a", "_rules/x.md", "Regra A", Some(vec![1.0, 0.0])),
        candidate("b", "_rules/y.md", "Regra B diferente", Some(vec![1.0, 0.0, 0.0])),
    ];
    let table = similar(&rules, 0.5);

    let groups = group_rules(rules.clone(), &table);

    assert!(groups.is_empty());
    // Not even where the table claims that they are similar.
    let all = vec![vec![true, true], vec![true, true]];
    assert!(group_rules(rules, &all).is_empty());
}

#[test]
fn rules_across_projects_ignores_vectors_of_a_non_majority_triple() {
    let rows = vec![
        rule_row(
            "b",
            "env",
            "Nao versionar .env",
            Some((f32_vec_to_bytes(&[0.99, 0.05]), "mock", "mock-embed", 2)),
        ),
        rule_row(
            "c",
            "env",
            "Nunca subir .env",
            Some((f32_vec_to_bytes(&[0.0, 1.0]), "mock", "old-embed", 2)),
        ),
        rule_row(
            "p",
            "env",
            "Nunca commitar .env",
            Some((f32_vec_to_bytes(&[1.0, 0.0]), "mock", "mock-embed", 2)),
        ),
    ];
    let candidates = rules_across_projects(WS, &origin("mock", "mock-embed", 2), &rows);
    assert_eq!(candidates.len(), 3);
    assert_eq!(candidates[2].project, "p");
    assert_eq!(candidates[2].vector, Some(bits(&[1.0, 0.0])));
    assert_eq!(candidates[0].vector, Some(bits(&[0.99, 0.05])));
    assert!(
        candidates[1].vector.is_none(),
        "a vector from a non-majority (provider, model, dim) triple must be ignored"
    );
    assert!(candidates.iter().all(|c| c.workspace == WS));
}

#[test]
fn non_majority_model_vectors_fall_back_to_title_matching() {
    let rows = vec![
        rule_row(
            "maj-a",
            "other",
            "Outra regra",
            Some((f32_vec_to_bytes(&[1.0, 0.0]), "mock", "main", 2)),
        ),
        rule_row(
            "minor",
            "env",
            "nunca   commitar .env",
            Some((f32_vec_to_bytes(&[0.0, 0.0, 1.0]), "mock", "stale", 3)),
        ),
        rule_row(
            "p",
            "env",
            "Nunca commitar .env",
            Some((f32_vec_to_bytes(&[1.0, 0.0, 0.0]), "mock", "stale", 3)),
        ),
    ];
    let candidates = rules_across_projects(WS, &origin("mock", "main", 2), &rows);
    assert!(candidates[2].vector.is_none());
    assert!(candidates[1].vector.is_none());
    assert!(candidates[0].vector.is_some());

    let pair = vec![candidates[2].clone(), candidates[1].clone()];
    let table = similar(&pair, 0.85);
    let groups = group_rules(pair, &table);
    assert_eq!(groups.len(), 1);
    assert_eq!(
        groups[0].projects(),
        vec!["minor".to_string(), "p".to_string()]
    );
}

#[test]
fn malformed_embedding_blob_becomes_none_without_panicking() {
    let rows = vec![rule_row(
        "p",
        "env",
        "Regra",
        Some((vec![1, 2, 3, 4, 5], "mock", "main", 1)),
    )];
    let candidates = rules_across_projects(WS, &origin("mock", "main", 1), &rows);
    assert_eq!(candidates.len(), 1);
    assert!(
        candidates[0].vector.is_none(),
        "a malformed blob must decode to None, never panic"
    );
}

#[test]
fn embedding_length_mismatched_with_dim_becomes_none() {
    let rows = vec![rule_row(
        "p",
        "env",
        "Regra",
        Some((f32_vec_to_bytes(&[1.0, 0.0]), "mock", "main", 3)),
    )];
    let candidates = rules_across_projects(WS, &origin("mock", "main", 3), &rows);
    assert_eq!(candidates.len(), 1);
    assert!(candidates[0].vector.is_none());
}

#[test]
fn without_a_majority_no_rule_has_a_vector() {
    let rows = vec![
        rule_row(
            "p",
            "env",
            "Regra",
            Some((f32_vec_to_bytes(&[1.0]), "mock", "main", 1)),
        ),
        rule_row("q", "env", "Regra", None),
    ];
    for c in rules_across_projects(WS, &None, &rows) {
        assert!(c.vector.is_none());
    }
    let some = rules_across_projects(WS, &origin("mock", "main", 1), &rows);
    assert!(some[0].vector.is_some());
    assert!(some[1].vector.is_none());
}

#[test]
fn dimensions_out_of_range_are_zero() {
    assert_eq!(embedding_dim(-1), 0);
    assert_eq!(embedding_dim(768), 768);
    assert_eq!(embedding_dim(u32::MAX as i64), u32::MAX);
    assert_eq!(embedding_dim(u32::MAX as i64 + 1), 0);
    // The dimension zero belongs to an empty vector.
    assert_eq!(decode_vector(&[], 0), Some(Vec::new()));
    assert_eq!(
        decode_vector(&[0x78, 0x56, 0x34, 0x12], 1),
        Some(vec![0x1234_5678])
    );
    assert_eq!(decode_vector(&[1, 2, 3], 1), None);
}

#[test]
fn titles_lose_case_accents_and_space() {
    assert_eq!(strip_lower("áàâãäéèêëíìîïóòôõöúùûüçñÁß"), "aaaaaeeeeiiiiooooouuuucnÁß");
    assert_eq!(strip_accents("Ação"), "acao");
    assert_eq!(strip_accents("ÁÀÂÃÄÉÈÊËÍÌÎÏÓÒÔÕÖÚÙÛÜÇÑß X"), "aaaaaeeeeiiiiooooouuuucnß x");
    assert_eq!(normalize_title("  NÃO \t Versionar\u{a0}.ENV "), "nao versionar .env");
    assert_eq!(collapse_space(" acao \t ja\n"), "acao ja");
    assert_eq!(normalize_title("ΑΣ İ"), {
        let lower = "ΑΣ İ".to_lowercase();
        lower.split_whitespace().collect::<Vec<_>>().join(" ")
    });
}

#[test]
fn links_are_followed_transitively() {
    let mut rules = Vec::new();
    for (project, path) in [("d", "4"), ("c", "3"), ("b", "2"), ("a", "1"), ("z", "9"), ("b", "0")] {
        rules.push(candidate(project, path, "t", Some(vec![1.0])));
    }
    // 0-1, 1-3 and 2-5 are linked; 4 is alone.
    let mut table = vec![vec![false; 6]; 6];
    table[0][1] = true;
    table[1][3] = true;
    table[2][5] = true;
    // An entry in the row of the greater number counts for nothing.
    table[4][0] = true;
    let groups = group_rules(rules, &table);
    assert_eq!(groups.len(), 1);
    let paths: Vec<&str> = groups[0].rules.iter().map(|r| r.path.as_str()).collect();
    assert_eq!(paths, vec!["1", "3", "4"]);
    assert_eq!(groups[0].projects(), vec!["a", "c", "d"]);
}

#[test]
fn groups_come_in_the_order_of_their_first_members() {
    let rules = vec![
        candidate("b", "x", "dois", None),
        candidate("c", "y", "um", None),
        candidate("a", "z", "dois", None),
        candidate("a", "b", "UM", None),
        candidate("a", "c", "sozinho", None),
    ];
    let groups = group_rules(rules, &Vec::new());
    assert_eq!(groups.len(), 2);
    let first: Vec<(&str, &str)> = groups[0]
        .rules
        .iter()
        .map(|r| (r.project.as_str(), r.path.as_str()))
        .collect();
    assert_eq!(first, vec![("a", "b"), ("c", "y")]);
    let second: Vec<(&str, &str)> = groups[1]
        .rules
        .iter()
        .map(|r| (r.project.as_str(), r.path.as_str()))
        .collect();
    assert_eq!(second, vec![("a", "z"), ("b", "x")]);
}

#[test]
fn a_rule_with_a_vector_is_not_matched_by_title() {
    let rules = vec![
        candidate("a", "x", "mesmo", Some(vec![1.0])),
        candidate("b", "y", "mesmo", None),
    ];
    let keys = vec!["mesmo".to_string(), "mesmo".to_string()];
    assert!(group_rules_by_keys(&rules, &keys, &vec![vec![true, true]]).is_empty());
}

#[test]
fn rule_groups_are_shown_with_links() {
    let rules = vec![
        candidate("b c", "_rules/x.md", "T", None),
        candidate("a", "_rules/y.md", "t", None),
    ];
    let groups = group_rules(rules, &Vec::new());
    let row = build_rule_group_row("ws", &groups[0]);
    assert_eq!(row.workspace, "ws");
    assert_eq!(row.members[0].project, "a");
    assert_eq!(row.members[1].href, "w/ws/b%20c/p/_rules/x.md");
    assert_eq!(row.members[1].title, "T");
    let mut rows = vec![row];
    collect_rule_groups(&mut rows, "other", &groups);
    assert_eq!(rows.len(), 2);
    assert_eq!(rows[0].workspace, "ws");
    assert_eq!(rows[1].workspace, "other");
    let names = vec!["b".to_string(), "a".to_string(), "b".to_string()];
    assert_eq!(workspace_names(&names), vec!["a", "b"]);
}

fn shown(groups: &[RuleGroup]) -> Vec<Vec<(String, String)>> {
    groups
        .iter()
        .map(|g| g.rules.iter().map(|r| (r.project.clone(), r.path.clone())).collect())
        .collect()
}

#[test]
fn the_order_of_rules_does_not_matter() {
    let rules = vec![
        candidate("a", "1", "t", Some(vec![1.0, 0.0])),
        candidate("b", "2", "t", Some(vec![0.9, 0.1])),
        candidate("b", "0", "Ação", None),
        candidate("c", "3", "t", Some(vec![0.0, 1.0])),
        candidate("a", "9", "acao", None),
        candidate("d", "4", "t", Some(vec![0.1, 0.9])),
    ];
    let expected = shown(&group_rules(rules.clone(), &similar(&rules, 0.85)));
    assert_eq!(expected.len(), 3);
    for order in [[5, 4, 3, 2, 1, 0], [2, 0, 4, 1, 5, 3], [3, 5, 0, 4, 2, 1]] {
        let moved: Vec<RuleCandidate> = order.iter().map(|i| rules[*i].clone()).collect();
        let table = similar(&moved, 0.85);
        assert_eq!(shown(&group_rules(moved, &table)), expected);
    }
}

#[test]
fn a_greater_threshold_only_splits_groups() {
    let rules = vec![
        candidate("a", "1", "t", Some(vec![1.0, 0.0])),
        candidate("b", "2", "t", Some(vec![0.9, 0.4])),
        candidate("c", "3", "t", Some(vec![0.7, 0.7])),
        candidate("d", "4", "t", Some(vec![0.6, 0.8])),
    ];
    let low = shown(&group_rules(rules.clone(), &similar(&rules, 0.8)));
    let high = shown(&group_rules(rules.clone(), &similar(&rules, 0.98)));
    assert_eq!(low.len(), 1);
    assert_eq!(low[0].len(), 4);
    assert_eq!(high.len(), 1);
    assert_eq!(high[0], vec![("c".to_string(), "3".to_string()), ("d".to_string(), "4".to_string())]);
    assert!(high[0].iter().all(|r| low[0].contains(r)));
}
