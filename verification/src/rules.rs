//! Rules that say the same thing in several projects.
//!
//! Two rules are linked where their embeddings are similar or, for rules without an
//! embedding, where their titles are equal but for case, accents and spacing. Links are
//! followed transitively, and what they connect is a group if it spans two projects.

use vstd::prelude::*;
use vstd::string::*;

use crate::order::distinct_sorted;
use crate::order::in_order;
use crate::order::is_distinct_sorted;
use crate::order::lemma_in_order_unique;
use crate::order::lemma_push_contains;
use crate::order::lemma_text_irreflexive;
use crate::order::lemma_text_total;
use crate::order::lemma_text_transitive;
use crate::order::sort_ranked;
use crate::order::sorted_distinct;
use crate::order::text_before;
use crate::order::text_less;
use crate::order::Ranking;
use crate::text::join;
use crate::text::joined;
use crate::text::split_words;
use crate::text::words;
use crate::union_find::chained;
use crate::union_find::connected;
use crate::union_find::find;
use crate::union_find::is_chain;
use crate::union_find::is_forest;
use crate::union_find::joins_only_connected;
use crate::union_find::law_connected_is_chained;
use crate::union_find::lemma_root;
use crate::union_find::lemma_roots_decide;
use crate::union_find::linked_either_way;
use crate::union_find::respects;
use crate::union_find::root;
use crate::union_find::singletons;
use crate::union_find::union;
use crate::utf8::views;

verus! {

/// A rule page as a candidate for grouping.
#[derive(Debug, Clone)]
pub struct RuleCandidate {
    /// Workspace of the page.
    pub workspace: [u8; 16],
    /// Name of the project that owns the page.
    pub project: String,
    pub path: String,
    pub title: String,
    /// The embedding, as the bits of its 32-bit floats, where the page has one that can be
    /// compared with those of other pages.
    pub vector: Option<Vec<u32>>,
}

/// What a candidate holds.
pub struct RuleModel {
    pub workspace: [u8; 16],
    pub project: Seq<char>,
    pub path: Seq<char>,
    pub title: Seq<char>,
    pub vector: Option<Seq<u32>>,
}

impl View for RuleCandidate {
    type V = RuleModel;

    open spec fn view(&self) -> RuleModel {
        RuleModel {
            workspace: self.workspace,
            project: self.project@,
            path: self.path@,
            title: self.title@,
            vector: match self.vector {
                Some(v) => Some(v@),
                None => None,
            },
        }
    }
}

/// What a list of candidates holds.
pub open spec fn models(rules: Seq<RuleCandidate>) -> Seq<RuleModel> {
    rules.map_values(|r: RuleCandidate| r@)
}

/// The projects of rules.
pub open spec fn projects_of(rules: Seq<RuleModel>) -> Seq<Seq<char>> {
    rules.map_values(|r: RuleModel| r.project)
}

/// Rules of at least two projects that say the same thing.
#[derive(Debug, Clone)]
pub struct RuleGroup {
    /// The members, by project and path.
    pub rules: Vec<RuleCandidate>,
}

/// A page as it is stored, with the embedding it may have.
#[derive(Debug)]
pub struct RuleRow {
    pub project: String,
    pub path: String,
    pub title: String,
    pub vector: Option<Vec<u8>>,
    pub provider: Option<String>,
    pub model: Option<String>,
    pub dim: Option<i64>,
}

/// What made an embedding. Only embeddings of one origin can be compared.
#[derive(Debug)]
pub struct EmbeddingOrigin {
    pub provider: String,
    pub model: String,
    pub dim: u32,
}

/// The lower case of a text, by Unicode's tables.
pub uninterp spec fn lowercase(s: Seq<char>) -> Seq<char>;

/// `str::to_lowercase`. Claims only that the result depends on the text alone.
#[verifier::external_body]
fn to_lowercase(s: &str) -> (r: String)
    ensures
        r@ == lowercase(s@),
{
    s.to_lowercase()
}

/// A lower case letter without its accent.
pub open spec fn without_accent(c: char) -> char {
    if c == 'á' || c == 'à' || c == 'â' || c == 'ã' || c == 'ä' {
        'a'
    } else if c == 'é' || c == 'è' || c == 'ê' || c == 'ë' {
        'e'
    } else if c == 'í' || c == 'ì' || c == 'î' || c == 'ï' {
        'i'
    } else if c == 'ó' || c == 'ò' || c == 'ô' || c == 'õ' || c == 'ö' {
        'o'
    } else if c == 'ú' || c == 'ù' || c == 'û' || c == 'ü' {
        'u'
    } else if c == 'ç' {
        'c'
    } else if c == 'ñ' {
        'n'
    } else {
        c
    }
}

pub open spec fn without_accents(s: Seq<char>) -> Seq<char> {
    s.map_values(|c: char| without_accent(c))
}

/// A text with its words one space apart.
pub open spec fn one_spaced(s: Seq<char>) -> Seq<char> {
    joined(words(s), " "@)
}

/// A title by which rules without an embedding are compared: in lower case, without accents,
/// its words one space apart.
pub open spec fn normalized_title(title: Seq<char>) -> Seq<char> {
    one_spaced(without_accents(lowercase(title)))
}

/// The titles of rules, normalized.
pub open spec fn title_keys(rules: Seq<RuleModel>) -> Seq<Seq<char>> {
    rules.map_values(|r: RuleModel| normalized_title(r.title))
}

/// The entry of a pair in a table of similar rules. A pair that is not in the table is not
/// similar.
pub open spec fn similar_pair(similar: Seq<Vec<bool>>, i: int, j: int) -> bool {
    0 <= i < similar.len() && 0 <= j < similar[i]@.len() && similar[i]@[j]
}

/// Whether rules `i` and `j` say the same thing, where `i` is the smaller number. Embeddings of
/// different lengths are never similar, and a rule with an embedding is never linked to one
/// without.
pub open spec fn linked(
    rules: Seq<RuleModel>,
    keys: Seq<Seq<char>>,
    similar: Seq<Vec<bool>>,
    i: int,
    j: int,
) -> bool {
    match (rules[i].vector, rules[j].vector) {
        (Some(a), Some(b)) => a.len() == b.len() && similar_pair(similar, i, j),
        (None, None) => keys[i] == keys[j],
        _ => false,
    }
}

pub open spec fn link(
    rules: Seq<RuleModel>,
    keys: Seq<Seq<char>>,
    similar: Seq<Vec<bool>>,
) -> spec_fn(int, int) -> bool {
    |i: int, j: int| linked(rules, keys, similar, i, j)
}

/// Whether links connect two rules.
pub open spec fn related(
    rules: Seq<RuleModel>,
    keys: Seq<Seq<char>>,
    similar: Seq<Vec<bool>>,
    i: int,
    j: int,
) -> bool {
    connected(rules.len(), link(rules, keys, similar), i, j)
}

/// Whether what rule `i` is related to spans two projects.
pub open spec fn spans_projects(
    rules: Seq<RuleModel>,
    keys: Seq<Seq<char>>,
    similar: Seq<Vec<bool>>,
    i: int,
) -> bool {
    exists|j: int|
        0 <= j < rules.len() && #[trigger] related(rules, keys, similar, j, i) && rules[j].project
            != rules[i].project
}

/// The order of rules: by project, then by path, then by number.
pub open spec fn rule_before(rules: Seq<RuleModel>, i: int, j: int) -> bool {
    ||| text_before(rules[i].project, rules[j].project)
    ||| rules[i].project == rules[j].project && text_before(rules[i].path, rules[j].path)
    ||| rules[i].project == rules[j].project && rules[i].path == rules[j].path && i < j
}

pub open spec fn rule_order(rules: Seq<RuleModel>) -> spec_fn(int, int) -> bool {
    |i: int, j: int| rule_before(rules, i, j)
}

/// `members` are all rules related to the first of them, in order, and span two projects.
pub open spec fn is_group(
    members: Seq<int>,
    rules: Seq<RuleModel>,
    keys: Seq<Seq<char>>,
    similar: Seq<Vec<bool>>,
) -> bool {
    &&& members.len() > 0
    &&& in_order(members, rule_order(rules))
    &&& forall|i: int| #[trigger]
        members.contains(i) <==> 0 <= i < rules.len() && related(
            rules,
            keys,
            similar,
            i,
            members[0],
        )
    &&& spans_projects(rules, keys, similar, members[0])
}

/// `groups` are all groups of rules, in the order of their first members.
pub open spec fn is_grouping(
    groups: Seq<Seq<int>>,
    rules: Seq<RuleModel>,
    keys: Seq<Seq<char>>,
    similar: Seq<Vec<bool>>,
) -> bool {
    &&& forall|k: int| 0 <= k < groups.len() ==> is_group(#[trigger] groups[k], rules, keys, similar)
    &&& forall|a: int, b: int|
        0 <= a < b < groups.len() ==> rule_before(
            rules,
            (#[trigger] groups[a])[0],
            (#[trigger] groups[b])[0],
        )
    &&& forall|i: int|
        0 <= i < rules.len() && #[trigger] spans_projects(rules, keys, similar, i)
            ==> exists|k: int| 0 <= k < groups.len() && (#[trigger] groups[k]).contains(i)
}

/// The rules with the given numbers.
pub open spec fn picked(rules: Seq<RuleModel>, members: Seq<int>) -> Seq<RuleModel> {
    members.map_values(|i: int| rules[i])
}

/// `groups` hold the rules of the grouping, in its order.
pub open spec fn groups_rules(
    groups: Seq<RuleGroup>,
    rules: Seq<RuleModel>,
    keys: Seq<Seq<char>>,
    similar: Seq<Vec<bool>>,
) -> bool {
    exists|grouping: Seq<Seq<int>>| #[trigger]
        is_grouping(grouping, rules, keys, similar) && hold(groups, grouping, rules)
}

pub open spec fn hold(
    groups: Seq<RuleGroup>,
    grouping: Seq<Seq<int>>,
    rules: Seq<RuleModel>,
) -> bool {
    &&& groups.len() == grouping.len()
    &&& forall|k: int|
        0 <= k < groups.len() ==> models((#[trigger] groups[k]).rules@) == picked(
            rules,
            grouping[k],
        )
}

/// A dimension as it is stored. One that cannot be is none.
pub open spec fn stored_dim(dim: i64) -> u32 {
    if 0 <= dim <= u32::MAX {
        dim as u32
    } else {
        0
    }
}

/// The number that four bytes write, the least significant first.
pub open spec fn word_at(bytes: Seq<u8>, k: int) -> int {
    bytes[4 * k] + 0x100 * bytes[4 * k + 1] + 0x1_0000 * bytes[4 * k + 2] + 0x100_0000 * bytes[4 * k
        + 3]
}

/// `words` are the numbers that `bytes` write.
pub open spec fn decodes(words: Seq<u32>, bytes: Seq<u8>) -> bool {
    &&& bytes.len() == 4 * words.len()
    &&& forall|k: int| 0 <= k < words.len() ==> #[trigger] words[k] == word_at(bytes, k)
}

/// Whether the embedding of a page is of the given origin, and of the length that it claims.
pub open spec fn comparable(row: RuleRow, majority: Option<EmbeddingOrigin>) -> bool {
    match (majority, row.vector, row.provider, row.model, row.dim) {
        (Some(origin), Some(bytes), Some(provider), Some(model), Some(dim)) => {
            &&& provider@ == origin.provider@
            &&& model@ == origin.model@
            &&& stored_dim(dim) == origin.dim
            &&& bytes@.len() == 4 * origin.dim
        },
        _ => false,
    }
}

/// The candidate of a page: with its embedding where that can be compared, else without.
pub open spec fn is_candidate(
    rule: RuleModel,
    workspace: [u8; 16],
    majority: Option<EmbeddingOrigin>,
    row: RuleRow,
) -> bool {
    &&& rule.workspace == workspace
    &&& rule.project == row.project@
    &&& rule.path == row.path@
    &&& rule.title == row.title@
    &&& match rule.vector {
        Some(words) => comparable(row, majority) && decodes(words, row.vector->Some_0@),
        None => !comparable(row, majority),
    }
}

/// Numbers are written by their bytes in one way only.
pub proof fn law_decoding_is_unique(a: Seq<u32>, b: Seq<u32>, bytes: Seq<u8>)
    requires
        decodes(a, bytes),
        decodes(b, bytes),
    ensures
        a == b,
{
    assert(a =~= b);
}

/// Strips the accents of a text in lower case.
pub fn strip_lower(s: &str) -> (r: String)
    ensures
        r@ == without_accents(s@),
{
    let mut out = String::new();
    for c in it: s.chars()
        invariant
            out@ == without_accents(s@.take(it.index() as int)),
            it.seq() == s@,
    {
        let plain = match c {
            'á' | 'à' | 'â' | 'ã' | 'ä' => 'a',
            'é' | 'è' | 'ê' | 'ë' => 'e',
            'í' | 'ì' | 'î' | 'ï' => 'i',
            'ó' | 'ò' | 'ô' | 'õ' | 'ö' => 'o',
            'ú' | 'ù' | 'û' | 'ü' => 'u',
            'ç' => 'c',
            'ñ' => 'n',
            other => other,
        };
        out.push(plain);
        assert(s@.take(it.index() as int + 1) =~= s@.take(it.index() as int).push(c));
        assert(out@ =~= without_accents(s@.take(it.index() as int + 1)));
    }
    assert(s@.take(s@.len() as int) =~= s@);
    out
}

/// Puts a title in lower case and strips its accents.
pub fn strip_accents(s: &str) -> (r: String)
    ensures
        r@ == without_accents(lowercase(s@)),
{
    let lower = to_lowercase(s);
    strip_lower(lower.as_str())
}

/// Collapses the space of a text.
pub fn collapse_space(s: &str) -> (r: String)
    ensures
        r@ == one_spaced(s@),
{
    let parts = split_words(s);
    join(&parts, " ")
}

/// A title by which rules without an embedding are compared.
pub fn normalize_title(title: &str) -> (r: String)
    ensures
        r@ == normalized_title(title@),
{
    let plain = strip_accents(title);
    collapse_space(plain.as_str())
}

/// Reads an embedding: the bits of its floats, least significant byte first. There is none
/// where the bytes are not as many as `dim` floats take.
pub fn decode_vector(bytes: &[u8], dim: u32) -> (r: Option<Vec<u32>>)
    ensures
        match r {
            Some(words) => decodes(words@, bytes@) && words@.len() == dim,
            None => bytes@.len() != 4 * dim,
        },
{
    if bytes.len() as u64 != dim as u64 * 4 {
        return None;
    }
    let mut out: Vec<u32> = Vec::new();
    let mut k: u32 = 0;
    while k < dim
        invariant
            k <= dim,
            bytes@.len() == 4 * dim,
            out@.len() == k,
            forall|m: int| 0 <= m < k ==> #[trigger] out@[m] == word_at(bytes@, m),
        decreases dim - k,
    {
        assert(bytes@.len() == bytes.len());
        let at: usize = 4 * (k as usize);
        let word: u32 = bytes[at] as u32 + 0x100 * (bytes[at + 1] as u32) + 0x1_0000 * (bytes[at + 2]
            as u32) + 0x100_0000 * (bytes[at + 3] as u32);
        out.push(word);
        k = k + 1;
    }
    Some(out)
}

/// The dimension of a stored embedding.
pub fn embedding_dim(dim: i64) -> (r: u32)
    ensures
        r == stored_dim(dim),
{
    if 0 <= dim && dim <= u32::MAX as i64 {
        dim as u32
    } else {
        0
    }
}

/// The candidate of a page.
pub fn rule_candidate(
    workspace: [u8; 16],
    majority: &Option<EmbeddingOrigin>,
    row: &RuleRow,
) -> (rule: RuleCandidate)
    ensures
        is_candidate(rule@, workspace, *majority, *row),
{
    let vector = match (majority, &row.vector, &row.provider, &row.model, row.dim) {
        (Some(origin), Some(bytes), Some(provider), Some(model), Some(dim)) => {
            let d: u32 = embedding_dim(dim);
            if *provider == origin.provider && *model == origin.model && d == origin.dim {
                decode_vector(bytes.as_slice(), d)
            } else {
                None
            }
        },
        _ => None,
    };
    RuleCandidate {
        workspace,
        project: row.project.clone(),
        path: row.path.clone(),
        title: row.title.clone(),
        vector,
    }
}

/// The candidates of the rule pages of a workspace.
pub fn rules_across_projects(
    workspace: [u8; 16],
    majority: &Option<EmbeddingOrigin>,
    rows: &Vec<RuleRow>,
) -> (rules: Vec<RuleCandidate>)
    ensures
        rules@.len() == rows@.len(),
        forall|k: int|
            0 <= k < rows@.len() ==> is_candidate(
                (#[trigger] rules@[k])@,
                workspace,
                *majority,
                rows@[k],
            ),
{
    let mut out: Vec<RuleCandidate> = Vec::new();
    let mut i: usize = 0;
    while i < rows.len()
        invariant
            i <= rows@.len(),
            out@.len() == i,
            forall|k: int|
                0 <= k < i ==> is_candidate(
                    (#[trigger] out@[k])@,
                    workspace,
                    *majority,
                    rows@[k],
                ),
        decreases rows@.len() - i,
    {
        out.push(rule_candidate(workspace, majority, &rows[i]));
        i = i + 1;
    }
    out
}

fn copy_words(words: &Vec<u32>) -> (out: Vec<u32>)
    ensures
        out@ == words@,
{
    let mut out: Vec<u32> = Vec::new();
    let mut i: usize = 0;
    while i < words.len()
        invariant
            i <= words@.len(),
            out@ == words@.take(i as int),
        decreases words@.len() - i,
    {
        out.push(words[i]);
        i = i + 1;
        assert(out@ =~= words@.take(i as int));
    }
    assert(words@.take(i as int) =~= words@);
    out
}

fn copy_rule(rule: &RuleCandidate) -> (copy: RuleCandidate)
    ensures
        copy@ == rule@,
{
    RuleCandidate {
        workspace: rule.workspace,
        project: rule.project.clone(),
        path: rule.path.clone(),
        title: rule.title.clone(),
        vector: match &rule.vector {
            Some(words) => Some(copy_words(words)),
            None => None,
        },
    }
}

impl RuleGroup {
    /// The projects of the members, each once, in order.
    pub fn projects(&self) -> (out: Vec<String>)
        ensures
            views(out@) == sorted_distinct(projects_of(models(self.rules@))),
            is_distinct_sorted(views(out@), projects_of(models(self.rules@))),
    {
        let mut names: Vec<String> = Vec::new();
        let mut i: usize = 0;
        while i < self.rules.len()
            invariant
                i <= self.rules@.len(),
                names@.len() == i,
                forall|k: int| 0 <= k < i ==> (#[trigger] names@[k])@ == self.rules@[k].project@,
            decreases self.rules@.len() - i,
        {
            names.push(self.rules[i].project.clone());
            i = i + 1;
        }
        assert(views(names@) =~= projects_of(models(self.rules@)));
        distinct_sorted(&names)
    }
}

/// Rules in their order.
struct RuleRank<'a> {
    rules: &'a Vec<RuleCandidate>,
}

impl<'a> Ranking for RuleRank<'a> {
    closed spec fn size(&self) -> nat {
        self.rules@.len()
    }

    closed spec fn precedes(&self, i: int, j: int) -> bool {
        rule_before(models(self.rules@), i, j)
    }

    proof fn lemma_strict_total(&self) {
        lemma_rule_order(models(self.rules@));
    }

    fn before(&self, i: usize, j: usize) -> (r: bool) {
        let a = &self.rules[i];
        let b = &self.rules[j];
        proof {
            lemma_text_total(a.project@, b.project@);
            lemma_text_total(a.path@, b.path@);
        }
        if text_less(a.project.as_str(), b.project.as_str()) {
            true
        } else if a.project == b.project {
            text_less(a.path.as_str(), b.path.as_str()) || (a.path == b.path && i < j)
        } else {
            false
        }
    }
}

/// The order of rules is strict and total.
pub proof fn lemma_rule_order(rules: Seq<RuleModel>)
    ensures
        forall|i: int| !#[trigger] rule_before(rules, i, i),
        forall|i: int, j: int, k: int| #[trigger]
            rule_before(rules, i, j) && #[trigger] rule_before(rules, j, k) ==> rule_before(
                rules,
                i,
                k,
            ),
        forall|i: int, j: int|
            0 <= i < rules.len() && 0 <= j < rules.len() && i != j ==> (#[trigger] rule_before(
                rules,
                i,
                j,
            ) || rule_before(rules, j, i)),
{
    broadcast use {lemma_text_irreflexive, lemma_text_transitive};

    assert forall|i: int, j: int|
        0 <= i < rules.len() && 0 <= j < rules.len() && i != j implies (#[trigger] rule_before(
        rules,
        i,
        j,
    ) || rule_before(rules, j, i)) by {
        lemma_text_total(rules[i].project, rules[j].project);
        lemma_text_total(rules[i].path, rules[j].path);
    }
}

/// Whether two rules are linked.
fn is_linked(
    rules: &Vec<RuleCandidate>,
    keys: &Vec<String>,
    similar: &Vec<Vec<bool>>,
    i: usize,
    j: usize,
) -> (r: bool)
    requires
        i < rules@.len(),
        j < rules@.len(),
        keys@.len() == rules@.len(),
    ensures
        r == linked(models(rules@), views(keys@), similar@, i as int, j as int),
{
    match (&rules[i].vector, &rules[j].vector) {
        (Some(a), Some(b)) => a.len() == b.len() && i < similar.len() && j < similar[i].len()
            && similar[i][j],
        (None, None) => keys[i] == keys[j],
        _ => false,
    }
}

/// Labels rules so that related rules have the same label, and no others.
fn related_labels(
    rules: &Vec<RuleCandidate>,
    keys: &Vec<String>,
    similar: &Vec<Vec<bool>>,
) -> (labels: Vec<usize>)
    requires
        keys@.len() == rules@.len(),
    ensures
        labels@.len() == rules@.len(),
        forall|i: int| 0 <= i < labels@.len() ==> #[trigger] labels@[i] < labels@.len(),
        forall|i: int, j: int|
            0 <= i < labels@.len() && 0 <= j < labels@.len() ==> (related(
                models(rules@),
                views(keys@),
                similar@,
                i,
                j,
            ) <==> #[trigger] labels@[i] == #[trigger] labels@[j]),
{
    let n: usize = rules.len();
    let mut parent = singletons(n);
    let ghost lk = link(models(rules@), views(keys@), similar@);
    assert(joins_only_connected(parent@, lk));
    let mut i: usize = 0;
    while i < n
        invariant
            i <= n,
            n == rules@.len(),
            keys@.len() == n,
            lk == link(models(rules@), views(keys@), similar@),
            parent@.len() == n,
            is_forest(parent@),
            joins_only_connected(parent@, lk),
            forall|a: int, b: int|
                0 <= a < b < n && a < i && #[trigger] lk(a, b) ==> root(parent@, a) == root(
                    parent@,
                    b,
                ),
        decreases n - i,
    {
        let mut j: usize = i + 1;
        while j < n
            invariant
                i < j <= n,
                n == rules@.len(),
                keys@.len() == n,
                lk == link(models(rules@), views(keys@), similar@),
                parent@.len() == n,
                is_forest(parent@),
                joins_only_connected(parent@, lk),
                forall|a: int, b: int|
                    0 <= a < b < n && (a < i || a == i && b < j) && #[trigger] lk(a, b) ==> root(
                        parent@,
                        a,
                    ) == root(parent@, b),
            decreases n - j,
        {
            if is_linked(rules, keys, similar, i, j) {
                let ghost before = parent@;
                union(&mut parent, i, j);
                proof {
                    assert(lk(i as int, j as int));
                    lemma_join_keeps(before, parent@, lk, i as int, j as int);
                }
            }
            j = j + 1;
        }
        i = i + 1;
    }
    let mut labels: Vec<usize> = Vec::new();
    let ghost joined_all = parent@;
    let mut k: usize = 0;
    while k < n
        invariant
            k <= n,
            parent@.len() == n,
            joined_all.len() == n,
            is_forest(parent@),
            is_forest(joined_all),
            labels@.len() == k,
            forall|x: int| 0 <= x < n ==> #[trigger] root(parent@, x) == root(joined_all, x),
            forall|x: int| 0 <= x < k ==> #[trigger] labels@[x] == root(joined_all, x),
            forall|x: int| 0 <= x < k ==> #[trigger] labels@[x] < n,
        decreases n - k,
    {
        proof {
            lemma_root(parent@, k as int);
        }
        let label: usize = find(&mut parent, k);
        labels.push(label);
        k = k + 1;
    }
    assert forall|i: int, j: int|
        0 <= i < labels@.len() && 0 <= j < labels@.len() implies (related(
        models(rules@),
        views(keys@),
        similar@,
        i,
        j,
    ) <==> #[trigger] labels@[i] == #[trigger] labels@[j]) by {
        lemma_roots_decide(joined_all, lk, i, j);
    }
    labels
}

/// Joining two linked rules joins only connected ones.
proof fn lemma_join_keeps(
    before: Seq<usize>,
    after: Seq<usize>,
    lk: spec_fn(int, int) -> bool,
    i: int,
    j: int,
)
    requires
        is_forest(before),
        before.len() == after.len(),
        0 <= i < j < before.len(),
        lk(i, j),
        joins_only_connected(before, lk),
        ({
            let ra = root(before, i);
            let rb = root(before, j);
            let lo = if ra < rb {
                ra
            } else {
                rb
            };
            forall|y: int|
                0 <= y < before.len() ==> #[trigger] root(after, y) == if root(before, y) == ra
                    || root(before, y) == rb {
                    lo
                } else {
                    root(before, y)
                }
        }),
    ensures
        joins_only_connected(after, lk),
        root(after, i) == root(after, j),
        forall|a: int, b: int|
            0 <= a < before.len() && 0 <= b < before.len() && root(before, a) == root(before, b)
                ==> #[trigger] root(after, a) == #[trigger] root(after, b),
{
    let n = before.len();
    assert forall|f: spec_fn(int) -> int, x: int|
        #![trigger respects(f, n, lk), root(after, x)]
        respects(f, n, lk) && 0 <= x < n implies f(root(after, x)) == f(x) by {
        assert(f(root(before, x)) == f(x));
        assert(f(root(before, i)) == f(i));
        assert(f(root(before, j)) == f(j));
        assert(f(i) == f(j));
    }
}

/// Whether every number of the list comes before those that follow it.
spec fn rules_in_order(rules: Seq<RuleModel>, s: Seq<usize>) -> bool {
    forall|a: int, b: int|
        0 <= a < b < s.len() ==> rule_before(
            rules,
            (#[trigger] s[a]) as int,
            (#[trigger] s[b]) as int,
        )
}

/// The numbers of `ordered` with the given label, in the same order.
fn class_members(
    rules: &Vec<RuleCandidate>,
    ordered: &Vec<usize>,
    labels: &Vec<usize>,
    label: usize,
) -> (members: Vec<usize>)
    requires
        rules_in_order(models(rules@), ordered@),
        forall|k: int| 0 <= k < ordered@.len() ==> #[trigger] ordered@[k] < labels@.len(),
    ensures
        rules_in_order(models(rules@), members@),
        forall|i: usize| #[trigger]
            members@.contains(i) <==> ordered@.contains(i) && labels@[i as int] == label,
{
    let mut members: Vec<usize> = Vec::new();
    let mut q: usize = 0;
    while q < ordered.len()
        invariant
            q <= ordered@.len(),
            rules_in_order(models(rules@), ordered@),
            forall|k: int| 0 <= k < ordered@.len() ==> #[trigger] ordered@[k] < labels@.len(),
            rules_in_order(models(rules@), members@),
            forall|i: usize| #[trigger]
                members@.contains(i) <==> ordered@.take(q as int).contains(i) && labels@[i as int]
                    == label,
        decreases ordered@.len() - q,
    {
        let ghost before = members@;
        let ghost seen = ordered@.take(q as int);
        let i: usize = ordered[q];
        assert(ordered@.take(q + 1) =~= seen.push(i));
        if labels[i] == label {
            members.push(i);
            assert forall|a: int| 0 <= a < before.len() implies rule_before(
                models(rules@),
                (#[trigger] before[a]) as int,
                i as int,
            ) by {
                assert(before.contains(before[a]));
                let m = choose|m: int| 0 <= m < seen.len() && seen[m] == before[a];
                assert(ordered@[m] == before[a]);
            }
        }
        assert forall|x: usize| #[trigger]
            members@.contains(x) <==> ordered@.take(q + 1).contains(x) && labels@[x as int]
                == label by {
            lemma_push_contains(seen, i, x);
            lemma_push_contains(before, i, x);
        }
        q = q + 1;
    }
    assert(ordered@.take(q as int) =~= ordered@);
    members
}

/// The numbers as mathematical ones.
spec fn ints(s: Seq<usize>) -> Seq<int> {
    s.map_values(|i: usize| i as int)
}

fn copy_members(rules: &Vec<RuleCandidate>, members: &Vec<usize>) -> (out: Vec<RuleCandidate>)
    requires
        forall|k: int| 0 <= k < members@.len() ==> #[trigger] members@[k] < rules@.len(),
    ensures
        models(out@) == picked(models(rules@), ints(members@)),
{
    let mut out: Vec<RuleCandidate> = Vec::new();
    let mut k: usize = 0;
    while k < members.len()
        invariant
            k <= members@.len(),
            forall|k: int| 0 <= k < members@.len() ==> #[trigger] members@[k] < rules@.len(),
            out@.len() == k,
            forall|m: int|
                0 <= m < k ==> (#[trigger] out@[m])@ == rules@[members@[m] as int]@,
        decreases members@.len() - k,
    {
        out.push(copy_rule(&rules[members[k]]));
        k = k + 1;
    }
    assert(models(out@) =~= picked(models(rules@), ints(members@)));
    out
}

/// Whether some rule of the list is of another project than the first.
fn differ_in_project(rules: &Vec<RuleCandidate>, members: &Vec<usize>) -> (r: bool)
    requires
        members@.len() > 0,
        forall|k: int| 0 <= k < members@.len() ==> #[trigger] members@[k] < rules@.len(),
    ensures
        r == exists|k: int|
            0 <= k < members@.len() && rules@[#[trigger] members@[k] as int].project@
                != rules@[members@[0] as int].project@,
{
    let mut k: usize = 0;
    while k < members.len()
        invariant
            k <= members@.len(),
            members@.len() > 0,
            forall|k: int| 0 <= k < members@.len() ==> #[trigger] members@[k] < rules@.len(),
            forall|m: int|
                0 <= m < k ==> rules@[#[trigger] members@[m] as int].project@
                    == rules@[members@[0] as int].project@,
        decreases members@.len() - k,
    {
        if rules[members[k]].project != rules[members[0]].project {
            return true;
        }
        k = k + 1;
    }
    false
}

/// All rules that are related share whether they span two projects.
proof fn lemma_spans_together(
    rules: Seq<RuleModel>,
    keys: Seq<Seq<char>>,
    similar: Seq<Vec<bool>>,
    i: int,
    j: int,
)
    requires
        0 <= i < rules.len(),
        0 <= j < rules.len(),
        related(rules, keys, similar, i, j),
        spans_projects(rules, keys, similar, i),
    ensures
        spans_projects(rules, keys, similar, j),
{
    let m = choose|m: int|
        0 <= m < rules.len() && #[trigger] related(rules, keys, similar, m, i) && rules[m].project
            != rules[i].project;
    let lk = link(rules, keys, similar);
    assert(related(rules, keys, similar, m, j)) by {
        assert forall|f: spec_fn(int) -> int| #[trigger]
            respects(f, rules.len(), lk) implies f(m) == f(j) by {
            assert(f(m) == f(i));
            assert(f(i) == f(j));
        }
    }
    if rules[m].project == rules[j].project {
        assert(related(rules, keys, similar, i, j));
    }
}

/// Groups rules under title keys that are given: one for each rule, which counts only where
/// the rule has no embedding. The table says which pairs of embeddings are similar.
pub fn group_rules_by_keys(
    rules: &Vec<RuleCandidate>,
    keys: &Vec<String>,
    similar: &Vec<Vec<bool>>,
) -> (groups: Vec<RuleGroup>)
    requires
        keys@.len() == rules@.len(),
    ensures
        groups_rules(groups@, models(rules@), views(keys@), similar@),
{
    let n: usize = rules.len();
    let labels = related_labels(rules, keys, similar);
    let all = singletons(n);
    let rank = RuleRank { rules };
    assert(all@.no_duplicates());
    let ordered = sort_ranked(&rank, &all);
    let ghost m = models(rules@);
    let ghost ks = views(keys@);
    let ghost sim = similar@;
    proof {
        lemma_rule_order(m);
        assert forall|k: int| 0 <= k < ordered@.len() implies #[trigger] ordered@[k] < n by {
            assert(ordered@.contains(ordered@[k]));
            assert(all@.contains(ordered@[k]));
        }
        assert forall|i: usize| i < n implies #[trigger] ordered@.contains(i) by {
            assert(all@[i as int] == i);
            assert(all@.contains(i));
        }
        assert forall|a: int, b: int| 0 <= a < b < ordered@.len() implies rule_before(
            m,
            (#[trigger] ordered@[a]) as int,
            (#[trigger] ordered@[b]) as int,
        ) by {
            assert(rank.precedes(ordered@[a] as int, ordered@[b] as int));
        }
    }
    let mut seen: Vec<bool> = Vec::new();
    let mut z: usize = 0;
    while z < n
        invariant
            z <= n,
            seen@.len() == z,
            forall|l: int| 0 <= l < z ==> !#[trigger] seen@[l],
        decreases n - z,
    {
        seen.push(false);
        z = z + 1;
    }
    let mut groups: Vec<RuleGroup> = Vec::new();
    let ghost mut g: Seq<Seq<int>> = Seq::empty();
    let mut p: usize = 0;
    while p < n
        invariant
            p <= n,
            n == rules@.len(),
            m == models(rules@),
            ks == views(keys@),
            sim == similar@,
            labels@.len() == n,
            ordered@.len() == n,
            seen@.len() == n,
            rules_in_order(m, ordered@),
            forall|i: int| 0 <= i < n ==> #[trigger] labels@[i] < n,
            forall|i: int, j: int|
                0 <= i < n && 0 <= j < n ==> (related(m, ks, sim, i, j) <==> #[trigger] labels@[i]
                    == #[trigger] labels@[j]),
            forall|k: int| 0 <= k < n ==> #[trigger] ordered@[k] < n,
            forall|i: usize| i < n ==> #[trigger] ordered@.contains(i),
            forall|l: int|
                0 <= l < n ==> (#[trigger] seen@[l] <==> exists|q: int|
                    0 <= q < p && labels@[#[trigger] ordered@[q] as int] == l),
            hold(groups@, g, m),
            forall|k: int| 0 <= k < g.len() ==> is_group(#[trigger] g[k], m, ks, sim),
            forall|k: int|
                0 <= k < g.len() ==> exists|q: int|
                    0 <= q < p && #[trigger] ordered@[q] == (#[trigger] g[k])[0],
            forall|a: int, b: int|
                0 <= a < b < g.len() ==> rule_before(m, (#[trigger] g[a])[0], (#[trigger] g[b])[0]),
            forall|q: int|
                0 <= q < p && spans_projects(m, ks, sim, #[trigger] ordered@[q] as int)
                    ==> exists|k: int|
                    0 <= k < g.len() && (#[trigger] g[k]).contains(ordered@[q] as int),
        decreases n - p,
    {
        let i: usize = ordered[p];
        let label: usize = labels[i];
        let ghost old_seen = seen@;
        let ghost old_g = g;
        if !seen[label] {
            let members = class_members(rules, &ordered, &labels, label);
            proof {
                lemma_first_of_class(m, ordered@, labels@, members@, p as int);
                assert forall|k: int| 0 <= k < members@.len() implies #[trigger] members@[k]
                    < n by {
                    assert(members@.contains(members@[k]));
                    let q = choose|q: int| 0 <= q < ordered@.len() && ordered@[q] == members@[k];
                    assert(ordered@[q] < n);
                }
                lemma_class_is_related(m, ks, sim, ordered@, labels@, members@, label);
            }
            if differ_in_project(rules, &members) {
                let copies = copy_members(rules, &members);
                groups.push(RuleGroup { rules: copies });
                proof {
                    let new = ints(members@);
                    g = g.push(new);
                    lemma_members_form_group(m, ks, sim, members@);
                    assert(is_group(new, m, ks, sim));
                    assert(new.contains(i as int)) by {
                        assert(new[0] == i);
                    }
                    assert(hold(groups@, g, m));
                    assert forall|a: int, b: int| 0 <= a < b < g.len() implies rule_before(
                        m,
                        (#[trigger] g[a])[0],
                        (#[trigger] g[b])[0],
                    ) by {
                        if b == old_g.len() {
                            let q = choose|q: int|
                                0 <= q < p && #[trigger] ordered@[q] == old_g[a][0];
                            assert(rule_before(
                                m,
                                ordered@[q] as int,
                                ordered@[p as int] as int,
                            ));
                        }
                    }
                }
            } else {
                assert(!spans_projects(m, ks, sim, i as int)) by {
                    if spans_projects(m, ks, sim, i as int) {
                        let j = choose|j: int|
                            0 <= j < m.len() && #[trigger] related(m, ks, sim, j, i as int)
                                && m[j].project != m[i as int].project;
                        assert(labels@[j] == labels@[i as int]);
                        assert(ordered@.contains(j as usize));
                        assert(members@.contains(j as usize));
                        let k = choose|k: int|
                            0 <= k < members@.len() && members@[k] == j as usize;
                        assert(rules@[members@[k] as int].project@ != rules@[members@[0] as int].project@);
                    }
                }
            }
            seen.set(label, true);
        } else {
            assert(spans_projects(m, ks, sim, i as int) ==> exists|k: int|
                0 <= k < g.len() && (#[trigger] g[k]).contains(i as int)) by {
                if spans_projects(m, ks, sim, i as int) {
                    let q = choose|q: int|
                        0 <= q < p && labels@[#[trigger] ordered@[q] as int] == label;
                    let e = ordered@[q] as int;
                    assert(labels@[e] == labels@[i as int]);
                    lemma_spans_together(m, ks, sim, i as int, e);
                    let k = choose|k: int| 0 <= k < g.len() && (#[trigger] g[k]).contains(e);
                    assert(is_group(g[k], m, ks, sim));
                    let first = g[k][0];
                    assert(g[k].contains(first));
                    assert(labels@[e] == labels@[first]);
                    assert(related(m, ks, sim, i as int, first));
                    assert(g[k].contains(i as int));
                }
            }
        }
        proof {
            assert forall|l: int| 0 <= l < n implies (#[trigger] seen@[l] <==> exists|q: int|
                0 <= q < p + 1 && labels@[#[trigger] ordered@[q] as int] == l) by {
                if seen@[l] {
                    if l == label {
                        assert(labels@[ordered@[p as int] as int] == l);
                    } else {
                        assert(old_seen[l]);
                        let q = choose|q: int|
                            0 <= q < p && labels@[#[trigger] ordered@[q] as int] == l;
                        assert(labels@[ordered@[q] as int] == l);
                    }
                }
                if exists|q: int| 0 <= q < p + 1 && labels@[#[trigger] ordered@[q] as int] == l {
                    let q = choose|q: int|
                        0 <= q < p + 1 && labels@[#[trigger] ordered@[q] as int] == l;
                    if q < p {
                        assert(old_seen[l]);
                    }
                }
            }
            assert forall|k: int| 0 <= k < g.len() implies exists|q: int|
                0 <= q < p + 1 && #[trigger] ordered@[q] == (#[trigger] g[k])[0] by {
                if k < old_g.len() {
                    let q = choose|q: int| 0 <= q < p && #[trigger] ordered@[q] == old_g[k][0];
                    assert(ordered@[q] == g[k][0]);
                } else {
                    assert(ordered@[p as int] == g[k][0]);
                }
            }
            assert forall|q: int|
                0 <= q < p + 1 && spans_projects(
                    m,
                    ks,
                    sim,
                    #[trigger] ordered@[q] as int,
                ) implies exists|k: int|
                0 <= k < g.len() && (#[trigger] g[k]).contains(ordered@[q] as int) by {
                if q < p {
                    let k = choose|k: int|
                        0 <= k < old_g.len() && (#[trigger] old_g[k]).contains(ordered@[q] as int);
                    assert(g[k].contains(ordered@[q] as int));
                } else if g.len() > old_g.len() {
                    assert(g[old_g.len() as int].contains(ordered@[q] as int));
                }
            }
        }
        p = p + 1;
    }
    proof {
        assert forall|i: int| 0 <= i < m.len() && #[trigger] spans_projects(m, ks, sim, i) implies
            exists|k: int| 0 <= k < g.len() && (#[trigger] g[k]).contains(i) by {
            assert(ordered@.contains(i as usize));
            let q = choose|q: int| 0 <= q < ordered@.len() && ordered@[q] == i as usize;
            assert(spans_projects(m, ks, sim, ordered@[q] as int));
        }
        assert(is_grouping(g, m, ks, sim));
    }
    groups
}

/// The first rule of a class in order is the first of its members.
proof fn lemma_first_of_class(
    rules: Seq<RuleModel>,
    ordered: Seq<usize>,
    labels: Seq<usize>,
    members: Seq<usize>,
    p: int,
)
    requires
        0 <= p < ordered.len(),
        rules_in_order(rules, ordered),
        rules_in_order(rules, members),
        forall|i: usize| #[trigger]
            members.contains(i) <==> ordered.contains(i) && labels[i as int]
                == labels[ordered[p] as int],
        forall|q: int| 0 <= q < p ==> labels[#[trigger] ordered[q] as int] != labels[ordered[p] as int],
    ensures
        members.len() > 0,
        members[0] == ordered[p],
{
    lemma_rule_order(rules);
    let i = ordered[p];
    assert(ordered.contains(i));
    assert(members.contains(i));
    let k = choose|k: int| 0 <= k < members.len() && members[k] == i;
    if k > 0 {
        assert(members.contains(members[0]));
        let q = choose|q: int| 0 <= q < ordered.len() && ordered[q] == members[0];
        assert(rule_before(rules, members[0] as int, members[k] as int));
        if q > p {
            assert(rule_before(rules, ordered[p] as int, ordered[q] as int));
            assert(rule_before(rules, i as int, i as int));
        }
    }
}

/// The members of a class are the rules related to its first.
proof fn lemma_class_is_related(
    rules: Seq<RuleModel>,
    keys: Seq<Seq<char>>,
    similar: Seq<Vec<bool>>,
    ordered: Seq<usize>,
    labels: Seq<usize>,
    members: Seq<usize>,
    label: usize,
)
    requires
        labels.len() == rules.len(),
        rules.len() <= usize::MAX,
        members.len() > 0,
        forall|k: int| 0 <= k < members.len() ==> #[trigger] members[k] < rules.len(),
        forall|i: usize| i < rules.len() ==> #[trigger] ordered.contains(i),
        forall|i: int, j: int|
            0 <= i < rules.len() && 0 <= j < rules.len() ==> (related(rules, keys, similar, i, j)
                <==> #[trigger] labels[i] == #[trigger] labels[j]),
        forall|i: usize| #[trigger]
            members.contains(i) <==> ordered.contains(i) && labels[i as int] == label,
    ensures
        forall|i: int| #[trigger]
            ints(members).contains(i) <==> 0 <= i < rules.len() && related(
                rules,
                keys,
                similar,
                i,
                members[0] as int,
            ),
{
    let s = ints(members);
    assert(members.contains(members[0]));
    assert forall|i: int| #[trigger] s.contains(i) <==> 0 <= i < rules.len() && related(
        rules,
        keys,
        similar,
        i,
        members[0] as int,
    ) by {
        if s.contains(i) {
            let k = choose|k: int| 0 <= k < s.len() && s[k] == i;
            assert(members.contains(members[k]));
            assert(labels[i] == labels[members[0] as int]);
        }
        if 0 <= i < rules.len() && related(rules, keys, similar, i, members[0] as int) {
            assert(labels[i] == labels[members[0] as int]);
            assert(ordered.contains(i as usize));
            assert(members.contains(i as usize));
            let k = choose|k: int| 0 <= k < members.len() && members[k] == i as usize;
            assert(s[k] == i);
        }
    }
}

proof fn lemma_members_form_group(
    rules: Seq<RuleModel>,
    keys: Seq<Seq<char>>,
    similar: Seq<Vec<bool>>,
    members: Seq<usize>,
)
    requires
        members.len() > 0,
        rules_in_order(rules, members),
        forall|k: int| 0 <= k < members.len() ==> #[trigger] members[k] < rules.len(),
        forall|i: int| #[trigger]
            ints(members).contains(i) <==> 0 <= i < rules.len() && related(
                rules,
                keys,
                similar,
                i,
                members[0] as int,
            ),
        exists|k: int|
            0 <= k < members.len() && rules[#[trigger] members[k] as int].project
                != rules[members[0] as int].project,
    ensures
        is_group(ints(members), rules, keys, similar),
{
    let s = ints(members);
    assert forall|a: int, b: int| 0 <= a < b < s.len() implies rule_order(rules)(
        #[trigger] s[a],
        #[trigger] s[b],
    ) by {
        assert(rule_before(rules, members[a] as int, members[b] as int));
    }
    let k = choose|k: int|
        0 <= k < members.len() && rules[#[trigger] members[k] as int].project
            != rules[members[0] as int].project;
    assert(s[k] == members[k]);
    assert(s.contains(s[k]));
    assert(related(rules, keys, similar, s[k], s[0]));
}

/// Groups rules that likely say the same thing, and keeps the groups that span at least two
/// projects. The table says which pairs of embeddings are similar enough: its row for the
/// smaller number holds the entry.
pub fn group_rules(rules: Vec<RuleCandidate>, similar: &Vec<Vec<bool>>) -> (groups: Vec<RuleGroup>)
    ensures
        groups_rules(groups@, models(rules@), title_keys(models(rules@)), similar@),
{
    let mut keys: Vec<String> = Vec::new();
    let mut i: usize = 0;
    while i < rules.len()
        invariant
            i <= rules@.len(),
            keys@.len() == i,
            forall|k: int|
                0 <= k < i ==> (#[trigger] keys@[k])@ == normalized_title(rules@[k].title@),
        decreases rules@.len() - i,
    {
        keys.push(normalize_title(rules[i].title.as_str()));
        i = i + 1;
    }
    assert(views(keys@) =~= title_keys(models(rules@)));
    group_rules_by_keys(&rules, &keys, similar)
}

/// Rules can be grouped in one way only.
pub proof fn law_grouping_is_unique(
    a: Seq<Seq<int>>,
    b: Seq<Seq<int>>,
    rules: Seq<RuleModel>,
    keys: Seq<Seq<char>>,
    similar: Seq<Vec<bool>>,
)
    requires
        is_grouping(a, rules, keys, similar),
        is_grouping(b, rules, keys, similar),
    ensures
        a == b,
{
    lemma_rule_order(rules);
    let before = |x: Seq<int>, y: Seq<int>| rule_before(rules, x[0], y[0]);
    assert forall|x: Seq<int>| a.contains(x) <==> b.contains(x) by {
        if a.contains(x) {
            lemma_group_is_in(x, a, b, rules, keys, similar);
        }
        if b.contains(x) {
            lemma_group_is_in(x, b, a, rules, keys, similar);
        }
    }
    assert forall|x: Seq<int>, y: Seq<int>| #[trigger] before(x, y) implies !before(y, x) by {
        if rule_before(rules, y[0], x[0]) {
            assert(rule_before(rules, x[0], x[0]));
        }
    }
    lemma_in_order_unique(a, b, before);
}

/// A group of one grouping is a group of the other.
proof fn lemma_group_is_in(
    x: Seq<int>,
    a: Seq<Seq<int>>,
    b: Seq<Seq<int>>,
    rules: Seq<RuleModel>,
    keys: Seq<Seq<char>>,
    similar: Seq<Vec<bool>>,
)
    requires
        is_grouping(a, rules, keys, similar),
        is_grouping(b, rules, keys, similar),
        a.contains(x),
    ensures
        b.contains(x),
{
    let k = choose|k: int| 0 <= k < a.len() && a[k] == x;
    assert(is_group(a[k], rules, keys, similar));
    assert(x.contains(x[0]));
    assert(spans_projects(rules, keys, similar, x[0]));
    let q = choose|q: int| 0 <= q < b.len() && (#[trigger] b[q]).contains(x[0]);
    let y = b[q];
    assert(is_group(y, rules, keys, similar));
    lemma_same_group(x, y, rules, keys, similar);
}

/// Groups that share their first rule with another group's members are that group.
proof fn lemma_same_group(
    x: Seq<int>,
    y: Seq<int>,
    rules: Seq<RuleModel>,
    keys: Seq<Seq<char>>,
    similar: Seq<Vec<bool>>,
)
    requires
        is_group(x, rules, keys, similar),
        is_group(y, rules, keys, similar),
        exists|i: int| x.contains(i) && y.contains(i),
    ensures
        x == y,
{
    let i = choose|i: int| x.contains(i) && y.contains(i);
    let lk = link(rules, keys, similar);
    let n = rules.len();
    assert forall|e: int| x.contains(e) <==> y.contains(e) by {
        if 0 <= e < n {
            assert(related(rules, keys, similar, e, x[0]) <==> related(
                rules,
                keys,
                similar,
                e,
                y[0],
            )) by {
                assert forall|f: spec_fn(int) -> int| #[trigger] respects(f, n, lk) implies f(x[0])
                    == f(y[0]) by {
                    assert(f(i) == f(x[0]));
                    assert(f(i) == f(y[0]));
                }
            }
        }
    }
    lemma_rule_order(rules);
    assert forall|a: int, b: int| #[trigger] rule_order(rules)(a, b) implies !rule_order(rules)(
        b,
        a,
    ) by {
        if rule_before(rules, b, a) {
            assert(rule_before(rules, a, a));
        }
    }
    lemma_in_order_unique(x, y, rule_order(rules));
}

/// No rule is in two groups.
pub proof fn law_groups_are_disjoint(
    grouping: Seq<Seq<int>>,
    rules: Seq<RuleModel>,
    keys: Seq<Seq<char>>,
    similar: Seq<Vec<bool>>,
    a: int,
    b: int,
    i: int,
)
    requires
        is_grouping(grouping, rules, keys, similar),
        0 <= a < grouping.len(),
        0 <= b < grouping.len(),
        grouping[a].contains(i),
        grouping[b].contains(i),
    ensures
        a == b,
{
    assert(is_group(grouping[a], rules, keys, similar));
    assert(is_group(grouping[b], rules, keys, similar));
    lemma_same_group(grouping[a], grouping[b], rules, keys, similar);
    lemma_rule_order(rules);
    if a < b {
        assert(rule_before(rules, grouping[a][0], grouping[b][0]));
    } else if b < a {
        assert(rule_before(rules, grouping[b][0], grouping[a][0]));
    }
}

/// A group holds one rule for each of its numbers.
proof fn lemma_group_holds(
    groups: Seq<RuleGroup>,
    grouping: Seq<Seq<int>>,
    rules: Seq<RuleModel>,
    k: int,
)
    requires
        hold(groups, grouping, rules),
        0 <= k < groups.len(),
    ensures
        groups[k].rules@.len() == grouping[k].len(),
        models(groups[k].rules@).len() == grouping[k].len(),
        forall|m: int|
            0 <= m < grouping[k].len() ==> (#[trigger] groups[k].rules@[m])@
                == rules[grouping[k][m]],
        forall|m: int|
            0 <= m < grouping[k].len() ==> #[trigger] models(groups[k].rules@)[m]
                == rules[grouping[k][m]],
{
    let held = models(groups[k].rules@);
    let members = picked(rules, grouping[k]);
    assert(held == members);
    assert(held.len() == groups[k].rules@.len());
    assert(members.len() == grouping[k].len());
    assert forall|m: int| 0 <= m < grouping[k].len() implies #[trigger] held[m]
        == rules[grouping[k][m]] by {
        assert(members[m] == rules[grouping[k][m]]);
    }
    assert forall|m: int| 0 <= m < grouping[k].len() implies (#[trigger] groups[k].rules@[m])@
        == rules[grouping[k][m]] by {
        assert(held[m] == groups[k].rules@[m]@);
    }
}

/// Rules of one project never form a group: every group names at least two projects.
pub proof fn law_groups_span_projects(
    groups: Seq<RuleGroup>,
    rules: Seq<RuleModel>,
    keys: Seq<Seq<char>>,
    similar: Seq<Vec<bool>>,
    k: int,
    projects: Seq<Seq<char>>,
)
    requires
        groups_rules(groups, rules, keys, similar),
        0 <= k < groups.len(),
        is_distinct_sorted(projects, projects_of(models(groups[k].rules@))),
    ensures
        projects.len() >= 2,
{
    let grouping = choose|grouping: Seq<Seq<int>>| #[trigger]
        is_grouping(grouping, rules, keys, similar) && hold(groups, grouping, rules);
    let members = grouping[k];
    assert(is_group(members, rules, keys, similar));
    let held = models(groups[k].rules@);
    lemma_group_holds(groups, grouping, rules, k);
    let names = projects_of(held);
    assert(names.len() == members.len());
    let j = choose|j: int|
        0 <= j < rules.len() && #[trigger] related(rules, keys, similar, j, members[0])
            && rules[j].project != rules[members[0]].project;
    assert(members.contains(j));
    let q = choose|q: int| 0 <= q < members.len() && members[q] == j;
    assert(names[q] == rules[j].project);
    assert(names[0] == rules[members[0]].project);
    assert(names.contains(names[q]));
    assert(names.contains(names[0]));
    assert(projects.contains(names[q]));
    assert(projects.contains(names[0]));
}

/// Groups of the rules of a workspace stay in that workspace.
pub proof fn law_groups_stay_in_workspace(
    groups: Seq<RuleGroup>,
    rules: Seq<RuleModel>,
    keys: Seq<Seq<char>>,
    similar: Seq<Vec<bool>>,
    workspace: [u8; 16],
)
    requires
        groups_rules(groups, rules, keys, similar),
        forall|i: int| 0 <= i < rules.len() ==> (#[trigger] rules[i]).workspace == workspace,
    ensures
        forall|k: int, m: int|
            0 <= k < groups.len() && 0 <= m < groups[k].rules@.len() ==> (
            #[trigger] groups[k].rules@[m]).workspace == workspace,
{
    let grouping = choose|grouping: Seq<Seq<int>>| #[trigger]
        is_grouping(grouping, rules, keys, similar) && hold(groups, grouping, rules);
    assert forall|k: int, m: int|
        0 <= k < groups.len() && 0 <= m < groups[k].rules@.len() implies (
    #[trigger] groups[k].rules@[m]).workspace == workspace by {
        let held = models(groups[k].rules@);
        lemma_group_holds(groups, grouping, rules, k);
        assert(is_group(grouping[k], rules, keys, similar));
        assert(grouping[k].contains(grouping[k][m]));
        assert(held[m] == rules[grouping[k][m]]);
    }
}

/// Whether a table calls a pair of rules similar. The row of the smaller number says so.
pub open spec fn similar_rules(similar: Seq<Vec<bool>>, i: int, j: int) -> bool {
    if i < j {
        similar_pair(similar, i, j)
    } else {
        similar_pair(similar, j, i)
    }
}

/// `numbers` are the numbers below `n` in some order.
pub open spec fn renumbers(numbers: Seq<int>, n: nat) -> bool {
    &&& numbers.len() == n
    &&& numbers.no_duplicates()
    &&& forall|x: int| #[trigger] numbers.contains(x) <==> 0 <= x < n
}

/// No two rules are the same page of the same project.
pub open spec fn distinct_pages(rules: Seq<RuleModel>) -> bool {
    forall|i: int, j: int|
        0 <= i < j < rules.len() ==> (#[trigger] rules[i]).project != (#[trigger] rules[j]).project
            || rules[i].path != rules[j].path
}

/// What `p` makes of a number is the same rule, for the table too.
spec fn moves(
    p: spec_fn(int) -> int,
    rules: Seq<RuleModel>,
    similar: Seq<Vec<bool>>,
    rules2: Seq<RuleModel>,
    similar2: Seq<Vec<bool>>,
) -> bool {
    &&& rules2.len() == rules.len()
    &&& forall|i: int|
        0 <= i < rules2.len() ==> 0 <= #[trigger] p(i) < rules.len() && rules2[i] == rules[p(i)]
    &&& forall|i: int, j: int|
        0 <= i < rules2.len() && 0 <= j < rules2.len() && i != j ==> #[trigger] p(i)
            != #[trigger] p(j) && similar_rules(similar2, i, j) == similar_rules(
            similar,
            p(i),
            p(j),
        )
}

/// Rules that are related stay so where they are moved.
proof fn lemma_related_moves(
    p: spec_fn(int) -> int,
    rules: Seq<RuleModel>,
    similar: Seq<Vec<bool>>,
    rules2: Seq<RuleModel>,
    similar2: Seq<Vec<bool>>,
    i: int,
    j: int,
)
    requires
        moves(p, rules, similar, rules2, similar2),
        0 <= i < rules2.len(),
        0 <= j < rules2.len(),
        related(rules2, title_keys(rules2), similar2, i, j),
    ensures
        related(rules, title_keys(rules), similar, p(i), p(j)),
{
    let n = rules.len();
    let keys = title_keys(rules);
    let keys2 = title_keys(rules2);
    let lk = link(rules, keys, similar);
    let lk2 = link(rules2, keys2, similar2);
    assert forall|f: spec_fn(int) -> int| #[trigger] respects(f, n, lk) implies f(p(i)) == f(
        p(j),
    ) by {
        let g = |x: int| f(p(x));
        assert forall|a: int, b: int| 0 <= a < b < n && #[trigger] lk2(a, b) implies g(a) == g(
            b,
        ) by {
            assert(linked(rules2, keys2, similar2, a, b));
            assert(p(a) != p(b));
            assert(rules2[a] == rules[p(a)] && rules2[b] == rules[p(b)]);
            assert(keys2[a] == keys[p(a)] && keys2[b] == keys[p(b)]);
            assert(similar_rules(similar2, a, b) == similar_rules(similar, p(a), p(b)));
            if p(a) < p(b) {
                assert(lk(p(a), p(b)));
            } else {
                assert(lk(p(b), p(a)));
            }
        }
        assert(respects(g, n, lk2));
        assert(g(i) == g(j));
    }
}

/// A grouping of moved rules, with the numbers from which they were moved.
proof fn lemma_grouping_moves(
    numbers: Seq<int>,
    grouping2: Seq<Seq<int>>,
    rules: Seq<RuleModel>,
    similar: Seq<Vec<bool>>,
    rules2: Seq<RuleModel>,
    similar2: Seq<Vec<bool>>,
)
    requires
        is_grouping(grouping2, rules2, title_keys(rules2), similar2),
        renumbers(numbers, rules.len()),
        moves(|i: int| numbers[i], rules, similar, rules2, similar2),
        distinct_pages(rules),
    ensures
        is_grouping(
            grouping2.map_values(|g: Seq<int>| g.map_values(|i: int| numbers[i])),
            rules,
            title_keys(rules),
            similar,
        ),
{
    let n = rules.len();
    let (keys, keys2) = (title_keys(rules), title_keys(rules2));
    let p = |i: int| numbers[i];
    let back = |x: int| choose|i: int| 0 <= i < n && numbers[i] == x;
    let moved = grouping2.map_values(|g: Seq<int>| g.map_values(|i: int| numbers[i]));
    assert forall|x: int| 0 <= x < n implies 0 <= #[trigger] back(x) < n && numbers[back(x)]
        == x by {
        assert(numbers.contains(x));
    }
    assert forall|i: int| 0 <= i < n implies back(#[trigger] numbers[i]) == i by {
        assert(p(i) == numbers[i]);
        assert(0 <= p(i) < n);
        let b = back(numbers[i]);
        assert(numbers[b] == numbers[i]);
    }
    assert(moves(back, rules2, similar2, rules, similar)) by {
        assert forall|x: int| 0 <= x < n implies 0 <= #[trigger] back(x) < n && rules[x]
            == rules2[back(x)] by {
            assert(p(back(x)) == x);
        }
        assert forall|x: int, y: int| 0 <= x < n && 0 <= y < n && x != y implies #[trigger] back(x)
            != #[trigger] back(y) && similar_rules(similar, x, y) == similar_rules(
            similar2,
            back(x),
            back(y),
        ) by {
            assert(p(back(x)) == x);
            assert(p(back(y)) == y);
        }
    }
    assert forall|i: int, j: int| 0 <= i < n && 0 <= j < n implies (#[trigger] related(
        rules2,
        keys2,
        similar2,
        i,
        j,
    ) <==> related(rules, keys, similar, numbers[i], numbers[j])) by {
        assert(p(i) == numbers[i] && p(j) == numbers[j]);
        if related(rules2, keys2, similar2, i, j) {
            lemma_related_moves(p, rules, similar, rules2, similar2, i, j);
        }
        if related(rules, keys, similar, numbers[i], numbers[j]) {
            lemma_related_moves(back, rules2, similar2, rules, similar, numbers[i], numbers[j]);
        }
    }
    assert forall|i: int| 0 <= i < n implies (#[trigger] spans_projects(rules2, keys2, similar2, i)
        <==> spans_projects(rules, keys, similar, numbers[i])) by {
        assert(p(i) == numbers[i]);
        if spans_projects(rules2, keys2, similar2, i) {
            let j = choose|j: int|
                0 <= j < n && #[trigger] related(rules2, keys2, similar2, j, i) && rules2[j].project
                    != rules2[i].project;
            assert(p(j) == numbers[j]);
            assert(related(rules, keys, similar, numbers[j], numbers[i]));
        }
        if spans_projects(rules, keys, similar, numbers[i]) {
            let y = choose|y: int|
                0 <= y < n && #[trigger] related(rules, keys, similar, y, numbers[i])
                    && rules[y].project != rules[numbers[i]].project;
            let j = back(y);
            assert(p(j) == y);
            assert(related(rules2, keys2, similar2, j, i));
        }
    }
    assert forall|i: int, j: int|
        0 <= i < n && 0 <= j < n && #[trigger] rule_before(rules2, i, j) implies rule_before(
        rules,
        numbers[i],
        numbers[j],
    ) by {
        assert(p(i) == numbers[i] && p(j) == numbers[j]);
        if numbers[i] < numbers[j] {
            assert(rules[numbers[i]].project != rules[numbers[j]].project || rules[numbers[i]].path
                != rules[numbers[j]].path);
        } else if numbers[j] < numbers[i] {
            assert(rules[numbers[j]].project != rules[numbers[i]].project || rules[numbers[j]].path
                != rules[numbers[i]].path);
        } else {
            assert(i == j);
        }
    }
    assert forall|k: int| 0 <= k < moved.len() implies is_group(
        #[trigger] moved[k],
        rules,
        keys,
        similar,
    ) by {
        lemma_group_moves(numbers, grouping2[k], rules, similar, rules2, similar2);
    }
    assert forall|a: int, b: int| 0 <= a < b < moved.len() implies rule_before(
        rules,
        (#[trigger] moved[a])[0],
        (#[trigger] moved[b])[0],
    ) by {
        assert(is_group(grouping2[a], rules2, keys2, similar2));
        assert(is_group(grouping2[b], rules2, keys2, similar2));
        assert(grouping2[a].contains(grouping2[a][0]));
        assert(grouping2[b].contains(grouping2[b][0]));
        assert(rule_before(rules2, grouping2[a][0], grouping2[b][0]));
    }
    assert forall|x: int| 0 <= x < n && #[trigger] spans_projects(rules, keys, similar, x) implies (
    exists|k: int| 0 <= k < moved.len() && (#[trigger] moved[k]).contains(x)) by {
        let i = back(x);
        assert(spans_projects(rules2, keys2, similar2, i));
        let k = choose|k: int| 0 <= k < grouping2.len() && (#[trigger] grouping2[k]).contains(i);
        let m = choose|m: int| 0 <= m < grouping2[k].len() && grouping2[k][m] == i;
        assert(moved[k][m] == x);
        assert(moved[k].contains(x));
    }
}

/// A group of moved rules, with the numbers from which they were moved.
proof fn lemma_group_moves(
    numbers: Seq<int>,
    group: Seq<int>,
    rules: Seq<RuleModel>,
    similar: Seq<Vec<bool>>,
    rules2: Seq<RuleModel>,
    similar2: Seq<Vec<bool>>,
)
    requires
        rules2.len() == rules.len(),
        is_group(group, rules2, title_keys(rules2), similar2),
        renumbers(numbers, rules.len()),
        forall|i: int, j: int|
            0 <= i < rules.len() && 0 <= j < rules.len() ==> (#[trigger] related(
                rules2,
                title_keys(rules2),
                similar2,
                i,
                j,
            ) <==> related(rules, title_keys(rules), similar, numbers[i], numbers[j])),
        forall|i: int|
            0 <= i < rules.len() ==> (#[trigger] spans_projects(
                rules2,
                title_keys(rules2),
                similar2,
                i,
            ) <==> spans_projects(rules, title_keys(rules), similar, numbers[i])),
        forall|i: int, j: int|
            0 <= i < rules.len() && 0 <= j < rules.len() && #[trigger] rule_before(rules2, i, j)
                ==> rule_before(rules, numbers[i], numbers[j]),
    ensures
        is_group(group.map_values(|i: int| numbers[i]), rules, title_keys(rules), similar),
{
    let n = rules.len();
    let (keys, keys2) = (title_keys(rules), title_keys(rules2));
    let moved = group.map_values(|i: int| numbers[i]);
    assert forall|a: int| 0 <= a < group.len() implies 0 <= #[trigger] group[a] < n by {
        assert(group.contains(group[a]));
    }
    assert forall|a: int, b: int| 0 <= a < b < moved.len() implies rule_order(rules)(
        #[trigger] moved[a],
        #[trigger] moved[b],
    ) by {
        assert(rule_order(rules2)(group[a], group[b]));
        assert(rule_before(rules2, group[a], group[b]));
    }
    assert forall|x: int| #[trigger] moved.contains(x) <==> 0 <= x < n && related(
        rules,
        keys,
        similar,
        x,
        moved[0],
    ) by {
        if moved.contains(x) {
            let m = choose|m: int| 0 <= m < moved.len() && moved[m] == x;
            assert(group.contains(group[m]));
            assert(related(rules2, keys2, similar2, group[m], group[0]));
            assert(numbers.contains(numbers[group[m]]));
        }
        if 0 <= x < n && related(rules, keys, similar, x, moved[0]) {
            assert(numbers.contains(x));
            let i = choose|i: int| 0 <= i < n && numbers[i] == x;
            assert(related(rules2, keys2, similar2, i, group[0]));
            assert(group.contains(i));
            let m = choose|m: int| 0 <= m < group.len() && group[m] == i;
            assert(moved[m] == x);
        }
    }
    assert(spans_projects(rules2, keys2, similar2, group[0]));
}

/// The order in which rules are handed over does not matter: where no two are the same page,
/// the same rules with the same similar pairs give the same groups in the same order.
/// `numbers` says where each rule of the second list stands in the first.
pub proof fn law_order_of_rules_does_not_matter(
    numbers: Seq<int>,
    groups: Seq<RuleGroup>,
    rules: Seq<RuleModel>,
    similar: Seq<Vec<bool>>,
    groups2: Seq<RuleGroup>,
    rules2: Seq<RuleModel>,
    similar2: Seq<Vec<bool>>,
)
    requires
        groups_rules(groups, rules, title_keys(rules), similar),
        groups_rules(groups2, rules2, title_keys(rules2), similar2),
        distinct_pages(rules),
        renumbers(numbers, rules.len()),
        rules2.len() == rules.len(),
        forall|i: int| 0 <= i < rules2.len() ==> #[trigger] rules2[i] == rules[numbers[i]],
        forall|i: int, j: int|
            0 <= i < rules2.len() && 0 <= j < rules2.len() && i != j ==> #[trigger] similar_rules(
                similar2,
                i,
                j,
            ) == similar_rules(similar, numbers[i], numbers[j]),
    ensures
        groups2.len() == groups.len(),
        forall|k: int|
            0 <= k < groups.len() ==> models((#[trigger] groups2[k]).rules@) == models(
                groups[k].rules@,
            ),
{
    let a = choose|a: Seq<Seq<int>>| #[trigger]
        is_grouping(a, rules, title_keys(rules), similar) && hold(groups, a, rules);
    let b = choose|b: Seq<Seq<int>>| #[trigger]
        is_grouping(b, rules2, title_keys(rules2), similar2) && hold(groups2, b, rules2);
    let p = |i: int| numbers[i];
    assert(moves(p, rules, similar, rules2, similar2)) by {
        assert forall|i: int| 0 <= i < rules2.len() implies 0 <= #[trigger] p(i) < rules.len()
            && rules2[i] == rules[p(i)] by {
            assert(numbers.contains(numbers[i]));
        }
    }
    lemma_grouping_moves(numbers, b, rules, similar, rules2, similar2);
    let moved = b.map_values(|g: Seq<int>| g.map_values(|i: int| numbers[i]));
    law_grouping_is_unique(a, moved, rules, title_keys(rules), similar);
    assert forall|k: int| 0 <= k < groups.len() implies models((#[trigger] groups2[k]).rules@)
        == models(groups[k].rules@) by {
        let (x, y) = (models(groups[k].rules@), models(groups2[k].rules@));
        lemma_group_holds(groups, a, rules, k);
        lemma_group_holds(groups2, b, rules2, k);
        assert(a[k] == moved[k]);
        assert(moved[k].len() == b[k].len());
        assert(is_group(b[k], rules2, title_keys(rules2), similar2));
        assert forall|m: int| 0 <= m < b[k].len() implies y[m] == x[m] by {
            assert(b[k].contains(b[k][m]));
            assert(moved[k][m] == numbers[b[k][m]]);
        }
        assert(y =~= x);
    }
}

/// A table with fewer similar pairs only splits groups: what it groups lies within one group
/// of the greater table.
pub proof fn law_fewer_similar_pairs_split_groups(
    groups: Seq<RuleGroup>,
    greater: Seq<RuleGroup>,
    rules: Seq<RuleModel>,
    few: Seq<Vec<bool>>,
    many: Seq<Vec<bool>>,
    k: int,
)
    requires
        groups_rules(groups, rules, title_keys(rules), few),
        groups_rules(greater, rules, title_keys(rules), many),
        forall|i: int, j: int|
            0 <= i < j < rules.len() && #[trigger] similar_pair(few, i, j) ==> similar_pair(
                many,
                i,
                j,
            ),
        0 <= k < groups.len(),
    ensures
        exists|q: int|
            0 <= q < greater.len() && forall|r: RuleModel|
                models(groups[k].rules@).contains(r) ==> models(
                    (#[trigger] greater[q]).rules@,
                ).contains(r),
{
    let keys = title_keys(rules);
    let n = rules.len();
    let a = choose|a: Seq<Seq<int>>| #[trigger]
        is_grouping(a, rules, keys, few) && hold(groups, a, rules);
    let b = choose|b: Seq<Seq<int>>| #[trigger]
        is_grouping(b, rules, keys, many) && hold(greater, b, rules);
    let x = a[k];
    assert(is_group(x, rules, keys, few));
    assert(x.contains(x[0]));
    let (lk, lk2) = (link(rules, keys, few), link(rules, keys, many));
    assert forall|i: int, j: int| #[trigger] related(rules, keys, few, i, j) implies related(
        rules,
        keys,
        many,
        i,
        j,
    ) by {
        assert forall|f: spec_fn(int) -> int| #[trigger] respects(f, n, lk2) implies f(i) == f(
            j,
        ) by {
            assert forall|c: int, d: int| 0 <= c < d < n && #[trigger] lk(c, d) implies f(c) == f(
                d,
            ) by {
                assert(lk2(c, d));
            }
            assert(respects(f, n, lk));
        }
    }
    let j = choose|j: int|
        0 <= j < n && #[trigger] related(rules, keys, few, j, x[0]) && rules[j].project
            != rules[x[0]].project;
    assert(related(rules, keys, many, j, x[0]));
    assert(spans_projects(rules, keys, many, x[0]));
    let q = choose|q: int| 0 <= q < b.len() && (#[trigger] b[q]).contains(x[0]);
    let y = b[q];
    assert(is_group(y, rules, keys, many));
    let small = models(groups[k].rules@);
    let large = models(greater[q].rules@);
    lemma_group_holds(groups, a, rules, k);
    lemma_group_holds(greater, b, rules, q);
    assert forall|r: RuleModel| small.contains(r) implies large.contains(r) by {
        let m = choose|m: int| 0 <= m < small.len() && small[m] == r;
        assert(x.contains(x[m]));
        assert(related(rules, keys, many, x[m], x[0]));
        assert(related(rules, keys, many, x[0], y[0]));
        assert(related(rules, keys, many, x[m], y[0]));
        assert(y.contains(x[m]));
        let s = choose|s: int| 0 <= s < y.len() && y[s] == x[m];
        assert(large[s] == r);
    }
}

/// Two rules say the same thing: neither has an embedding and their titles are alike, or both
/// have one, of the same length, and the table calls them similar.
pub open spec fn say_the_same(
    rules: Seq<RuleModel>,
    similar: Seq<Vec<bool>>,
    i: int,
    j: int,
) -> bool {
    let (x, y) = if i < j {
        (i, j)
    } else {
        (j, i)
    };
    ||| rules[x].vector is None && rules[y].vector is None && normalized_title(rules[x].title)
        == normalized_title(rules[y].title)
    ||| rules[x].vector is Some && rules[y].vector is Some && rules[x].vector->Some_0.len()
        == rules[y].vector->Some_0.len() && x < similar.len() && y < similar[x]@.len()
        && similar[x]@[y]
}

/// Each rule of the chain is another than the next and says the same thing.
pub open spec fn pass_it_on(
    rules: Seq<RuleModel>,
    similar: Seq<Vec<bool>>,
    chain: Seq<int>,
) -> bool {
    &&& chain.len() > 0
    &&& forall|q: int| 0 <= q < chain.len() ==> 0 <= #[trigger] chain[q] < rules.len()
    &&& forall|q: int|
        0 <= q < chain.len() - 1 ==> #[trigger] chain[q] != chain[q + 1] && say_the_same(
            rules,
            similar,
            chain[q],
            chain[q + 1],
        )
}

proof fn lemma_chains_agree(rules: Seq<RuleModel>, similar: Seq<Vec<bool>>, chain: Seq<int>)
    ensures
        pass_it_on(rules, similar, chain) <==> is_chain(
            rules.len(),
            link(rules, title_keys(rules), similar),
            chain,
        ),
{
    let keys = title_keys(rules);
    let lk = link(rules, keys, similar);
    if forall|q: int| 0 <= q < chain.len() ==> 0 <= #[trigger] chain[q] < rules.len() {
        assert forall|q: int| 0 <= q < chain.len() - 1 implies linked_either_way(
            lk,
            #[trigger] chain[q],
            chain[q + 1],
        ) == (chain[q] != chain[q + 1] && say_the_same(
            rules,
            similar,
            chain[q],
            chain[q + 1],
        )) by {
            let (i, j) = (chain[q], chain[q + 1]);
            assert(0 <= chain[q + 1] < rules.len());
            assert(keys[i] == normalized_title(rules[i].title));
            assert(keys[j] == normalized_title(rules[j].title));
            assert(lk(i, j) == linked(rules, keys, similar, i, j));
            assert(lk(j, i) == linked(rules, keys, similar, j, i));
        }
    }
}

/// Rules that say the same thing, directly or through others, are in one group as soon as they
/// are of two projects.
pub proof fn law_rules_that_say_the_same_share_a_group(
    groups: Seq<RuleGroup>,
    rules: Seq<RuleModel>,
    similar: Seq<Vec<bool>>,
    chain: Seq<int>,
    a: int,
    b: int,
)
    requires
        groups_rules(groups, rules, title_keys(rules), similar),
        pass_it_on(rules, similar, chain),
        0 <= a < chain.len(),
        0 <= b < chain.len(),
        rules[chain[a]].project != rules[chain[b]].project,
    ensures
        exists|k: int|
            0 <= k < groups.len() && forall|q: int|
                0 <= q < chain.len() ==> models((#[trigger] groups[k]).rules@).contains(
                    rules[#[trigger] chain[q]],
                ),
{
    let keys = title_keys(rules);
    let lk = link(rules, keys, similar);
    let n = rules.len();
    lemma_chains_agree(rules, similar, chain);
    assert forall|q: int| 0 <= q < chain.len() implies related(
        rules,
        keys,
        similar,
        #[trigger] chain[q],
        chain[0],
    ) by {
        let part = chain.take(q + 1);
        assert(is_chain(n, lk, part)) by {
            assert forall|p: int| 0 <= p < part.len() - 1 implies linked_either_way(
                lk,
                #[trigger] part[p],
                part[p + 1],
            ) by {
                assert(linked_either_way(lk, chain[p], chain[p + 1]));
            }
        }
        assert(part[0] == chain[0] && part.last() == chain[q]);
        assert(chained(n, lk, chain[0], chain[q]));
        law_connected_is_chained(n, lk, chain[0], chain[q]);
    }
    let far = if rules[chain[a]].project != rules[chain[0]].project {
        chain[a]
    } else {
        chain[b]
    };
    assert(related(rules, keys, similar, chain[a], chain[0]));
    assert(related(rules, keys, similar, chain[b], chain[0]));
    assert(related(rules, keys, similar, far, chain[0]));
    assert(spans_projects(rules, keys, similar, chain[0]));
    let grouping = choose|grouping: Seq<Seq<int>>| #[trigger]
        is_grouping(grouping, rules, keys, similar) && hold(groups, grouping, rules);
    let k = choose|k: int| 0 <= k < grouping.len() && (#[trigger] grouping[k]).contains(chain[0]);
    let members = grouping[k];
    assert(is_group(members, rules, keys, similar));
    lemma_group_holds(groups, grouping, rules, k);
    let held = models(groups[k].rules@);
    assert(related(rules, keys, similar, chain[0], members[0]));
    assert forall|q: int| 0 <= q < chain.len() implies held.contains(
        rules[#[trigger] chain[q]],
    ) by {
        assert(related(rules, keys, similar, chain[q], chain[0]));
        assert(related(rules, keys, similar, chain[q], members[0]));
        assert(members.contains(chain[q]));
        let m = choose|m: int| 0 <= m < members.len() && members[m] == chain[q];
        assert(held[m] == rules[chain[q]]);
    }
    assert(groups[k] == groups[k]);
}

/// Some chain of rules that say the same thing leads from `i` to `j`.
pub open spec fn lead_to(
    rules: Seq<RuleModel>,
    similar: Seq<Vec<bool>>,
    i: int,
    j: int,
) -> bool {
    exists|chain: Seq<int>| #[trigger]
        pass_it_on(rules, similar, chain) && chain[0] == i && chain.last() == j
}

/// A group holds only rules that say the same thing as its first, directly or through others,
/// each rule once, by project and then by path. Groups are in the order of their first rules.
pub proof fn law_groups_hold_only_rules_that_say_the_same(
    groups: Seq<RuleGroup>,
    rules: Seq<RuleModel>,
    similar: Seq<Vec<bool>>,
)
    requires
        groups_rules(groups, rules, title_keys(rules), similar),
    ensures
        forall|k: int|
            0 <= k < groups.len() ==> are_rules_alike((#[trigger] groups[k]).rules@, rules, similar),
        forall|a: int, b: int|
            0 <= a < b < groups.len() ==> comes_no_later(
                (#[trigger] groups[a]).rules@[0]@,
                (#[trigger] groups[b]).rules@[0]@,
            ),
{
    let keys = title_keys(rules);
    let lk = link(rules, keys, similar);
    let n = rules.len();
    let grouping = choose|grouping: Seq<Seq<int>>| #[trigger]
        is_grouping(grouping, rules, keys, similar) && hold(groups, grouping, rules);
    lemma_rule_order(rules);
    assert forall|k: int| 0 <= k < groups.len() implies are_rules_alike(
        (#[trigger] groups[k]).rules@,
        rules,
        similar,
    ) by {
        let at = grouping[k];
        assert(is_group(at, rules, keys, similar));
        lemma_group_holds(groups, grouping, rules, k);
        assert forall|m: int| 0 <= m < at.len() implies 0 <= #[trigger] at[m] < n by {
            assert(at.contains(at[m]));
        }
        assert forall|x: int, y: int| 0 <= x < y < at.len() implies comes_no_later(
            rules[#[trigger] at[x]],
            rules[#[trigger] at[y]],
        ) && at[x] != at[y] by {
            assert(rule_order(rules)(at[x], at[y]));
            assert(rule_before(rules, at[x], at[y]));
        }
        assert(is_in_order_of_pages(at, rules));
        assert forall|m: int| 0 <= m < at.len() implies (#[trigger] groups[k].rules@[m])@
            == rules[at[m]] && lead_to(rules, similar, at[0], at[m]) by {
            assert(at.contains(at[m]) && at.contains(at[0]));
            assert(related(rules, keys, similar, at[m], at[0]));
            law_connected_is_chained(n, lk, at[m], at[0]);
            law_connected_is_chained(n, lk, at[0], at[m]);
            let chain = choose|chain: Seq<int>| #[trigger]
                is_chain(n, lk, chain) && chain[0] == at[0] && chain.last() == at[m];
            lemma_chains_agree(rules, similar, chain);
        }
        assert(say_what_the_first_says(groups[k].rules@, at, rules, similar));
    }
    assert forall|a: int, b: int| 0 <= a < b < groups.len() implies comes_no_later(
        (#[trigger] groups[a]).rules@[0]@,
        (#[trigger] groups[b]).rules@[0]@,
    ) by {
        assert(is_group(grouping[a], rules, keys, similar));
        assert(is_group(grouping[b], rules, keys, similar));
        lemma_group_holds(groups, grouping, rules, a);
        lemma_group_holds(groups, grouping, rules, b);
        assert(rule_before(rules, grouping[a][0], grouping[b][0]));
        assert(groups[a].rules@[0]@ == rules[grouping[a][0]]);
        assert(groups[b].rules@[0]@ == rules[grouping[b][0]]);
    }
}

/// `held` are the rules with the given numbers, and each says what the first says, directly or
/// through others.
pub open spec fn say_what_the_first_says(
    held: Seq<RuleCandidate>,
    at: Seq<int>,
    rules: Seq<RuleModel>,
    similar: Seq<Vec<bool>>,
) -> bool {
    &&& held.len() == at.len()
    &&& forall|m: int|
        0 <= m < at.len() ==> (#[trigger] held[m])@ == rules[at[m]] && lead_to(
            rules,
            similar,
            at[0],
            at[m],
        )
}

/// `held` are rules that say the same thing, each once, by project and then by path.
pub open spec fn are_rules_alike(
    held: Seq<RuleCandidate>,
    rules: Seq<RuleModel>,
    similar: Seq<Vec<bool>>,
) -> bool {
    exists|at: Seq<int>|
        is_in_order_of_pages(at, rules) && #[trigger] say_what_the_first_says(
            held,
            at,
            rules,
            similar,
        )
}

/// A rule has a project that comes first, or the same project and a path that does not come
/// later.
pub open spec fn comes_no_later(a: RuleModel, b: RuleModel) -> bool {
    ||| text_before(a.project, b.project)
    ||| a.project == b.project && (a.path == b.path || text_before(a.path, b.path))
}

/// Numbers of rules, each once, by project and then by path.
pub open spec fn is_in_order_of_pages(at: Seq<int>, rules: Seq<RuleModel>) -> bool {
    &&& forall|m: int| 0 <= m < at.len() ==> 0 <= #[trigger] at[m] < rules.len()
    &&& forall|x: int, y: int|
        0 <= x < y < at.len() ==> comes_no_later(
            rules[#[trigger] at[x]],
            rules[#[trigger] at[y]],
        ) && at[x] != at[y]
}

/// A candidate is the page that it is made of. It has an embedding exactly where the page has
/// one of the provider, the model and the dimension that are compared, four bytes for each
/// number, and then those numbers, the least significant byte first.
pub proof fn law_candidates_have_comparable_embeddings(
    rule: RuleModel,
    workspace: [u8; 16],
    majority: Option<EmbeddingOrigin>,
    row: RuleRow,
)
    requires
        is_candidate(rule, workspace, majority, row),
    ensures
        rule.workspace == workspace,
        rule.project == row.project@,
        rule.path == row.path@,
        rule.title == row.title@,
        majority is None || row.vector is None || row.provider is None || row.model is None
            || row.dim is None ==> rule.vector is None,
        majority is Some && row.vector is Some && row.provider is Some && row.model is Some
            && row.dim is Some ==> {
            let (origin, bytes) = (majority->Some_0, row.vector->Some_0@);
            let dim = row.dim->Some_0 as int;
            let taken = if 0 <= dim < 0x1_0000_0000 {
                dim
            } else {
                0
            };
            &&& rule.vector is Some <==> row.provider->Some_0@ == origin.provider@
                && row.model->Some_0@ == origin.model@ && taken == origin.dim && bytes.len()
                == 4 * origin.dim
            &&& rule.vector matches Some(words) ==> words.len() == origin.dim && forall|k: int|
                0 <= k < words.len() ==> #[trigger] words[k] == bytes[4 * k] + 256 * (bytes[4 * k
                    + 1] + 256 * (bytes[4 * k + 2] + 256 * bytes[4 * k + 3]))
        },
{
}

/// Titles are compared in lower case and without accents, by their words alone: the white space
/// around and between them does not matter.
pub proof fn law_titles_are_compared_by_their_words(title: Seq<char>)
    ensures
        exists|plain: Seq<char>|
            {
                &&& plain.len() == lowercase(title).len()
                &&& forall|i: int|
                    0 <= i < plain.len() ==> loses_its_accent(
                        lowercase(title)[i],
                        #[trigger] plain[i],
                    )
                &&& normalized_title(title) == joined(#[trigger] words(plain), " "@)
            },
{
    let plain = without_accents(lowercase(title));
    assert forall|i: int| 0 <= i < plain.len() implies loses_its_accent(
        lowercase(title)[i],
        #[trigger] plain[i],
    ) by {
        lemma_without_accent(lowercase(title)[i]);
    }
    assert(normalized_title(title) == joined(words(plain), " "@));
}

/// `plain` is the letter of `c` where that has an accent, and `c` where it has none.
pub open spec fn loses_its_accent(c: char, plain: char) -> bool {
    &&& "áàâãä"@.contains(c) ==> plain == 'a'
    &&& "éèêë"@.contains(c) ==> plain == 'e'
    &&& "íìîï"@.contains(c) ==> plain == 'i'
    &&& "óòôõö"@.contains(c) ==> plain == 'o'
    &&& "úùûü"@.contains(c) ==> plain == 'u'
    &&& "ç"@.contains(c) ==> plain == 'c'
    &&& "ñ"@.contains(c) ==> plain == 'n'
    &&& !"áàâãäéèêëíìîïóòôõöúùûüçñ"@.contains(c) ==> plain == c
}

proof fn lemma_without_accent(c: char)
    ensures
        loses_its_accent(c, without_accent(c)),
{
    reveal_strlit("áàâãä");
    reveal_strlit("éèêë");
    reveal_strlit("íìîï");
    reveal_strlit("óòôõö");
    reveal_strlit("úùûü");
    reveal_strlit("ç");
    reveal_strlit("ñ");
    reveal_strlit("áàâãäéèêëíìîïóòôõöúùûüçñ");
    let all = "áàâãäéèêëíìîïóòôõöúùûüçñ"@;
    assert(all[0] == 'á' && all[1] == 'à' && all[2] == 'â' && all[3] == 'ã');
    assert(all[4] == 'ä' && all[5] == 'é' && all[6] == 'è' && all[7] == 'ê');
    assert(all[8] == 'ë' && all[9] == 'í' && all[10] == 'ì' && all[11] == 'î');
    assert(all[12] == 'ï' && all[13] == 'ó' && all[14] == 'ò' && all[15] == 'ô');
    assert(all[16] == 'õ' && all[17] == 'ö' && all[18] == 'ú' && all[19] == 'ù');
    assert(all[20] == 'û' && all[21] == 'ü' && all[22] == 'ç' && all[23] == 'ñ');
}

} // verus!
