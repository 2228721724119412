//! Counts with their words.

use vstd::prelude::*;
use vstd::string::*;

use crate::number::decimal;
use crate::number::size_text;
use crate::utf8::str_eq;

verus! {

/// A kind of page, and the words for one page of it and for several.
#[derive(Debug)]
pub struct PageKind {
    pub kind: String,
    pub one: String,
    pub many: String,
}

/// A number and its word.
pub open spec fn plural(n: nat, one: Seq<char>, many: Seq<char>) -> Seq<char> {
    decimal(n) + " "@ + (if n == 1 {
        one
    } else {
        many
    })
}

/// A number of pages of a kind. A kind that is not listed is its own word.
pub open spec fn kind_label(kinds: Seq<PageKind>, kind: Seq<char>, n: nat) -> Seq<char>
    decreases kinds.len(),
{
    if kinds.len() == 0 {
        plural(n, kind, kind)
    } else if kinds[0].kind@ == kind {
        plural(n, kinds[0].one@, kinds[0].many@)
    } else {
        kind_label(kinds.drop_first(), kind, n)
    }
}

/// Whether a kind is listed.
pub open spec fn is_listed(kinds: Seq<PageKind>, kind: Seq<char>) -> bool {
    exists|i: int| 0 <= i < kinds.len() && (#[trigger] kinds[i]).kind@ == kind
}

/// A number and its word: that for one, or that for several or none.
pub fn plural_pt(n: usize, one: &str, many: &str) -> (r: String)
    ensures
        r@ == plural(n as nat, one@, many@),
{
    let mut r = size_text(n);
    r.append(" ");
    r.append(
        if n == 1 {
            one
        } else {
            many
        },
    );
    r
}

/// A number of pages of a kind.
pub fn kind_label_pt(kinds: &Vec<PageKind>, kind: &str, n: usize) -> (r: String)
    ensures
        r@ == kind_label(kinds@, kind@, n as nat),
{
    let mut i: usize = 0;
    assert(kinds@.skip(0) =~= kinds@);
    while i < kinds.len()
        invariant
            i <= kinds@.len(),
            kind_label(kinds@.skip(i as int), kind@, n as nat) == kind_label(
                kinds@,
                kind@,
                n as nat,
            ),
        decreases kinds@.len() - i,
    {
        assert(kinds@.skip(i as int)[0] == kinds@[i as int]);
        assert(kinds@.skip(i as int).drop_first() =~= kinds@.skip(i + 1));
        if str_eq(kinds[i].kind.as_str(), kind) {
            return plural_pt(n, kinds[i].one.as_str(), kinds[i].many.as_str());
        }
        i = i + 1;
    }
    plural_pt(n, kind, kind)
}

/// Whether a kind is listed.
pub fn lists_kind(kinds: &Vec<PageKind>, kind: &str) -> (r: bool)
    ensures
        r == is_listed(kinds@, kind@),
{
    let mut i: usize = 0;
    while i < kinds.len()
        invariant
            i <= kinds@.len(),
            forall|k: int| 0 <= k < i ==> (#[trigger] kinds@[k]).kind@ != kind@,
        decreases kinds@.len() - i,
    {
        if str_eq(kinds[i].kind.as_str(), kind) {
            return true;
        }
        i = i + 1;
    }
    false
}

/// `k` is this kind with these words.
pub open spec fn is_kind(k: PageKind, kind: Seq<char>, one: Seq<char>, many: Seq<char>) -> bool {
    k.kind@ == kind && k.one@ == one && k.many@ == many
}

fn page_kind(kind: &str, one: &str, many: &str) -> (k: PageKind)
    ensures
        is_kind(k, kind@, one@, many@),
{
    PageKind { kind: kind.to_owned(), one: one.to_owned(), many: many.to_owned() }
}

/// The kinds of knowledge pages, in the order of the project overview.
pub fn overview_kinds() -> (kinds: Vec<PageKind>)
    ensures
        kinds@.len() == 5,
        is_kind(kinds@[0], "decision"@, "decisão"@, "decisões"@),
        is_kind(kinds@[1], "concept"@, "conceito"@, "conceitos"@),
        is_kind(kinds@[2], "gotcha"@, "gotcha"@, "gotchas"@),
        is_kind(kinds@[3], "rule"@, "regra"@, "regras"@),
        is_kind(kinds@[4], "procedure"@, "procedimento"@, "procedimentos"@),
{
    vec![
        page_kind("decision", "decisão", "decisões"),
        page_kind("concept", "conceito", "conceitos"),
        page_kind("gotcha", "gotcha", "gotchas"),
        page_kind("rule", "regra", "regras"),
        page_kind("procedure", "procedimento", "procedimentos"),
    ]
}

/// The kinds of knowledge pages, in the order of the timeline.
pub fn timeline_kinds() -> (kinds: Vec<PageKind>)
    ensures
        kinds@.len() == 5,
        is_kind(kinds@[0], "decision"@, "decisão"@, "decisões"@),
        is_kind(kinds@[1], "gotcha"@, "gotcha"@, "gotchas"@),
        is_kind(kinds@[2], "concept"@, "conceito"@, "conceitos"@),
        is_kind(kinds@[3], "rule"@, "regra"@, "regras"@),
        is_kind(kinds@[4], "procedure"@, "procedimento"@, "procedimentos"@),
{
    vec![
        page_kind("decision", "decisão", "decisões"),
        page_kind("gotcha", "gotcha", "gotchas"),
        page_kind("concept", "conceito", "conceitos"),
        page_kind("rule", "regra", "regras"),
        page_kind("procedure", "procedimento", "procedimentos"),
    ]
}

/// A count stands before its word, which is that for one where the count is one and that for
/// several otherwise. The word of a kind is that of its first entry, and a kind without an
/// entry is its own word.
pub proof fn law_counts_have_their_words(
    before: Seq<PageKind>,
    entry: PageKind,
    rest: Seq<PageKind>,
    n: nat,
)
    requires
        forall|i: int| 0 <= i < before.len() ==> (#[trigger] before[i]).kind@ != entry.kind@,
    ensures
        plural(1, entry.one@, entry.many@) == decimal(1) + " "@ + entry.one@,
        n != 1 ==> plural(n, entry.one@, entry.many@) == decimal(n) + " "@ + entry.many@,
        kind_label(before + seq![entry] + rest, entry.kind@, n) == plural(
            n,
            entry.one@,
            entry.many@,
        ),
        kind_label(before, entry.kind@, n) == decimal(n) + " "@ + entry.kind@,
    decreases before.len(),
{
    let all = before + seq![entry] + rest;
    if before.len() > 0 {
        let less = before.drop_first();
        assert forall|i: int| 0 <= i < less.len() implies (#[trigger] less[i]).kind@
            != entry.kind@ by {
            assert(before[i + 1].kind@ != entry.kind@);
        }
        law_counts_have_their_words(less, entry, rest, n);
        assert(all[0] == before[0]);
        assert(all.drop_first() =~= less + seq![entry] + rest);
    } else {
        assert(all[0] == entry);
    }
}

/// The listed kinds are those of the list, whatever their words are.
pub proof fn law_listed_kinds_are_those_of_the_list(kinds: Seq<PageKind>, kind: Seq<char>)
    ensures
        is_listed(kinds, kind) <==> kinds.map_values(|k: PageKind| k.kind@).contains(kind),
{
    let all = kinds.map_values(|k: PageKind| k.kind@);
    if is_listed(kinds, kind) {
        let i = choose|i: int| 0 <= i < kinds.len() && (#[trigger] kinds[i]).kind@ == kind;
        assert(all[i] == kind);
    }
    if all.contains(kind) {
        let i = choose|i: int| 0 <= i < all.len() && all[i] == kind;
        assert(kinds[i].kind@ == kind);
    }
}

/// An entry of a list of kinds has its kind and both its words as they are given.
pub proof fn law_entries_keep_their_words(
    k: PageKind,
    kind: Seq<char>,
    one: Seq<char>,
    many: Seq<char>,
)
    requires
        is_kind(k, kind, one, many),
    ensures
        k.kind@ == kind,
        k.one@ == one,
        k.many@ == many,
        kind_label(seq![k], kind, 1) == decimal(1) + " "@ + one,
        kind_label(seq![k], kind, 2) == decimal(2) + " "@ + many,
{
}

} // verus!
