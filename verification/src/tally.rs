//! Counting by day and by kind.

use vstd::prelude::*;

use crate::order::distinct_sorted;
use crate::order::is_distinct_sorted;
use crate::order::law_sorted_distinct_exists;
use crate::order::lemma_text_irreflexive;
use crate::order::sorted_distinct;
use crate::order::text_before;
use crate::utf8::lemma_views_push;
use crate::utf8::str_eq;
use crate::utf8::views;

verus! {

/// How many there are of a kind.
#[derive(Debug)]
pub struct KindTally {
    pub kind: String,
    pub count: usize,
}

/// How many there are of each kind on a day.
#[derive(Debug)]
pub struct DayTally {
    pub date: String,
    pub kinds: Vec<KindTally>,
}

/// How often a text occurs in a list.
pub open spec fn occurrences(s: Seq<Seq<char>>, t: Seq<char>) -> nat
    decreases s.len(),
{
    if s.len() == 0 {
        0
    } else {
        occurrences(s.drop_last(), t) + if s.last() == t {
            1nat
        } else {
            0nat
        }
    }
}

/// How often the texts of `r` occur in `s`, all together.
pub open spec fn occurrences_of_all(r: Seq<Seq<char>>, s: Seq<Seq<char>>) -> nat
    decreases r.len(),
{
    if r.len() == 0 {
        0
    } else {
        occurrences_of_all(r.drop_last(), s) + occurrences(s, r.last())
    }
}

/// The kinds of the items that fall on a day.
pub open spec fn kinds_on(days: Seq<Seq<char>>, kinds: Seq<Seq<char>>, day: Seq<char>) -> Seq<
    Seq<char>,
>
    decreases days.len(),
{
    if days.len() == 0 {
        Seq::empty()
    } else if days.last() == day {
        kinds_on(days.drop_last(), kinds, day).push(kinds[days.len() - 1])
    } else {
        kinds_on(days.drop_last(), kinds, day)
    }
}

/// `tallies` say how often each text occurs in `s`, in ascending order.
pub open spec fn tallies_of(tallies: Seq<KindTally>, s: Seq<Seq<char>>) -> bool {
    let kinds = sorted_distinct(s);
    &&& tallies.len() == kinds.len()
    &&& forall|m: int|
        0 <= m < tallies.len() ==> (#[trigger] tallies[m]).kind@ == kinds[m] && tallies[m].count
            == occurrences(s, kinds[m])
}

/// `tallies` say how many items of each kind fall on each day, in ascending order.
pub open spec fn tallies_by_day(
    tallies: Seq<DayTally>,
    days: Seq<Seq<char>>,
    kinds: Seq<Seq<char>>,
) -> bool {
    let dates = sorted_distinct(days);
    &&& tallies.len() == dates.len()
    &&& forall|k: int|
        0 <= k < tallies.len() ==> (#[trigger] tallies[k]).date@ == dates[k] && tallies_of(
            tallies[k].kinds@,
            kinds_on(days, kinds, dates[k]),
        )
}

/// The count of a kind; none where it is not in the list. The first entry counts.
pub open spec fn count_in(tallies: Seq<KindTally>, kind: Seq<char>) -> nat
    decreases tallies.len(),
{
    if tallies.len() == 0 {
        0
    } else if tallies[0].kind@ == kind {
        tallies[0].count as nat
    } else {
        count_in(tallies.drop_first(), kind)
    }
}

pub proof fn lemma_occurrences_bound(s: Seq<Seq<char>>, t: Seq<char>)
    ensures
        occurrences(s, t) <= s.len(),
        occurrences(s, t) > 0 <==> s.contains(t),
    decreases s.len(),
{
    if s.len() > 0 {
        let rest = s.drop_last();
        lemma_occurrences_bound(rest, t);
        if s.contains(t) {
            let i = choose|i: int| 0 <= i < s.len() && s[i] == t;
            if i < rest.len() {
                assert(rest[i] == t);
            }
        }
        if rest.contains(t) {
            let i = choose|i: int| 0 <= i < rest.len() && rest[i] == t;
            assert(s[i] == t);
        }
        if s.last() == t {
            assert(s[s.len() - 1] == t);
        }
    }
}

/// How often a text occurs in a list.
pub fn count_text(items: &Vec<String>, t: &str) -> (n: usize)
    ensures
        n == occurrences(views(items@), t@),
{
    let mut n: usize = 0;
    let mut i: usize = 0;
    while i < items.len()
        invariant
            i <= items@.len(),
            n <= i,
            n == occurrences(views(items@).take(i as int), t@),
        decreases items@.len() - i,
    {
        assert(views(items@).take(i + 1).drop_last() =~= views(items@).take(i as int));
        if str_eq(items[i].as_str(), t) {
            n = n + 1;
        }
        i = i + 1;
    }
    assert(views(items@).take(i as int) =~= views(items@));
    n
}

/// How often each text occurs in a list.
pub fn count_each(items: &Vec<String>) -> (tallies: Vec<KindTally>)
    ensures
        tallies_of(tallies@, views(items@)),
{
    let kinds = distinct_sorted(items);
    let mut out: Vec<KindTally> = Vec::new();
    let mut m: usize = 0;
    while m < kinds.len()
        invariant
            m <= kinds@.len(),
            out@.len() == m,
            forall|k: int|
                0 <= k < m ==> (#[trigger] out@[k]).kind@ == views(kinds@)[k] && out@[k].count
                    == occurrences(views(items@), views(kinds@)[k]),
        decreases kinds@.len() - m,
    {
        let count: usize = count_text(items, kinds[m].as_str());
        out.push(KindTally { kind: kinds[m].clone(), count });
        m = m + 1;
    }
    out
}

/// The kinds of the items that fall on a day.
fn pick_kinds(days: &Vec<String>, kinds: &Vec<String>, day: &str) -> (out: Vec<String>)
    requires
        days@.len() == kinds@.len(),
    ensures
        views(out@) == kinds_on(views(days@), views(kinds@), day@),
{
    let mut out: Vec<String> = Vec::new();
    let mut i: usize = 0;
    assert(views(out@) =~= Seq::empty());
    while i < days.len()
        invariant
            i <= days@.len(),
            days@.len() == kinds@.len(),
            views(out@) == kinds_on(views(days@).take(i as int), views(kinds@), day@),
        decreases days@.len() - i,
    {
        broadcast use lemma_views_push;

        assert(views(days@).take(i + 1).drop_last() =~= views(days@).take(i as int));
        if str_eq(days[i].as_str(), day) {
            out.push(kinds[i].clone());
        }
        i = i + 1;
    }
    assert(views(days@).take(i as int) =~= views(days@));
    out
}

/// How many items of each kind fall on each day, where item `i` is of the kind `kinds[i]` and
/// falls on `days[i]`.
pub fn count_by_day(days: &Vec<String>, kinds: &Vec<String>) -> (tallies: Vec<DayTally>)
    requires
        days@.len() == kinds@.len(),
    ensures
        tallies_by_day(tallies@, views(days@), views(kinds@)),
{
    let dates = distinct_sorted(days);
    let mut out: Vec<DayTally> = Vec::new();
    let mut k: usize = 0;
    while k < dates.len()
        invariant
            k <= dates@.len(),
            days@.len() == kinds@.len(),
            out@.len() == k,
            forall|q: int|
                0 <= q < k ==> (#[trigger] out@[q]).date@ == views(dates@)[q] && tallies_of(
                    out@[q].kinds@,
                    kinds_on(views(days@), views(kinds@), views(dates@)[q]),
                ),
        decreases dates@.len() - k,
    {
        let here = pick_kinds(days, kinds, dates[k].as_str());
        let tallies = count_each(&here);
        out.push(DayTally { date: dates[k].clone(), kinds: tallies });
        k = k + 1;
    }
    out
}

/// The count of a kind in a list of tallies.
pub fn lookup_count(tallies: &Vec<KindTally>, kind: &str) -> (n: usize)
    ensures
        n == count_in(tallies@, kind@),
{
    let mut i: usize = 0;
    assert(tallies@.skip(0) =~= tallies@);
    while i < tallies.len()
        invariant
            i <= tallies@.len(),
            count_in(tallies@.skip(i as int), kind@) == count_in(tallies@, kind@),
        decreases tallies@.len() - i,
    {
        assert(tallies@.skip(i as int)[0] == tallies@[i as int]);
        assert(tallies@.skip(i as int).drop_first() =~= tallies@.skip(i + 1));
        if str_eq(tallies[i].kind.as_str(), kind) {
            return tallies[i].count;
        }
        i = i + 1;
    }
    0
}

/// Counting each text of a list once counts every item once.
pub proof fn law_counts_add_up(r: Seq<Seq<char>>, s: Seq<Seq<char>>)
    requires
        is_distinct_sorted(r, s),
    ensures
        occurrences_of_all(r, s) == s.len(),
{
    assert forall|i: int, j: int| 0 <= i < j < r.len() implies #[trigger] r[i]
        != #[trigger] r[j] by {
        lemma_text_irreflexive(r[i]);
    }
    assert forall|k: int| 0 <= k < s.len() implies r.contains(#[trigger] s[k]) by {
        assert(s.contains(s[k]));
    }
    lemma_counts_add_up(r, s);
}

/// Counting each text of a list once, in any order, counts every item once.
pub proof fn lemma_counts_add_up(r: Seq<Seq<char>>, s: Seq<Seq<char>>)
    requires
        forall|i: int, j: int| 0 <= i < j < r.len() ==> #[trigger] r[i] != #[trigger] r[j],
        forall|k: int| 0 <= k < s.len() ==> r.contains(#[trigger] s[k]),
    ensures
        occurrences_of_all(r, s) == s.len(),
    decreases s.len(),
{
    if s.len() == 0 {
        lemma_none_occur(r, s);
    } else {
        let rest = s.drop_last();
        assert forall|k: int| 0 <= k < rest.len() implies r.contains(#[trigger] rest[k]) by {
            assert(r.contains(s[k]));
        }
        lemma_counts_add_up(r, rest);
        assert(r.contains(s[s.len() - 1]));
        let at = choose|i: int| 0 <= i < r.len() && r[i] == s.last();
        lemma_one_more(r, s, at);
    }
}

proof fn lemma_none_occur(r: Seq<Seq<char>>, s: Seq<Seq<char>>)
    requires
        s.len() == 0,
    ensures
        occurrences_of_all(r, s) == 0,
    decreases r.len(),
{
    if r.len() > 0 {
        lemma_none_occur(r.drop_last(), s);
    }
}

/// One more item is counted once more, at its place in `r` only.
proof fn lemma_one_more(r: Seq<Seq<char>>, s: Seq<Seq<char>>, at: int)
    requires
        s.len() > 0,
        forall|i: int, j: int| 0 <= i < j < r.len() ==> #[trigger] r[i] != #[trigger] r[j],
        at < r.len() ==> at >= 0 && r[at] == s.last(),
        at >= r.len() ==> forall|i: int| 0 <= i < r.len() ==> #[trigger] r[i] != s.last(),
    ensures
        occurrences_of_all(r, s) == occurrences_of_all(r, s.drop_last()) + if at < r.len() {
            1nat
        } else {
            0nat
        },
    decreases r.len(),
{
    if r.len() > 0 {
        let head = r.drop_last();
        assert forall|i: int, j: int| 0 <= i < j < head.len() implies #[trigger] head[i]
            != #[trigger] head[j] by {
            assert(r[i] != r[j]);
        }
        if at == head.len() {
            assert forall|i: int| 0 <= i < head.len() implies #[trigger] head[i] != s.last() by {
                assert(r[i] != r[at]);
            }
        } else if at > head.len() {
            assert forall|i: int| 0 <= i < head.len() implies #[trigger] head[i] != s.last() by {
                assert(r[i] != s.last());
            }
            assert(r[r.len() - 1] != s.last());
        } else {
            assert(head[at] == s.last());
            assert(r[at] != r[r.len() - 1]);
        }
        lemma_one_more(head, s, at);
    }
}

/// Number of items that a list of tallies counts.
pub open spec fn tallied(tallies: Seq<KindTally>) -> nat
    decreases tallies.len(),
{
    if tallies.len() == 0 {
        0
    } else {
        tallied(tallies.drop_last()) + tallies.last().count as nat
    }
}

/// Number of items that the tallies of all days count.
pub open spec fn tallied_days(tallies: Seq<DayTally>) -> nat
    decreases tallies.len(),
{
    if tallies.len() == 0 {
        0
    } else {
        tallied_days(tallies.drop_last()) + tallied(tallies.last().kinds@)
    }
}

/// Every item is counted once, on its own day.
pub proof fn law_every_item_is_counted_once(
    tallies: Seq<DayTally>,
    days: Seq<Seq<char>>,
    kinds: Seq<Seq<char>>,
)
    requires
        tallies_by_day(tallies, days, kinds),
        days.len() == kinds.len(),
    ensures
        tallied_days(tallies) == days.len(),
        forall|k: int|
            0 <= k < tallies.len() ==> tallied((#[trigger] tallies[k]).kinds@) == occurrences(
                days,
                tallies[k].date@,
            ),
{
    let dates = sorted_distinct(days);
    assert forall|k: int| 0 <= k < tallies.len() implies tallied((#[trigger] tallies[k]).kinds@)
        == occurrences(days, dates[k]) by {
        lemma_tallied(tallies[k].kinds@, kinds_on(days, kinds, dates[k]));
        lemma_kinds_on_len(days, kinds, dates[k]);
    }
    lemma_tallied_days(tallies, dates, days);
    law_sorted_distinct_exists(days);
    law_counts_add_up(dates, days);
}

proof fn lemma_kinds_on_len(days: Seq<Seq<char>>, kinds: Seq<Seq<char>>, day: Seq<char>)
    ensures
        kinds_on(days, kinds, day).len() == occurrences(days, day),
    decreases days.len(),
{
    if days.len() > 0 {
        lemma_kinds_on_len(days.drop_last(), kinds, day);
    }
}

proof fn lemma_tallied(tallies: Seq<KindTally>, s: Seq<Seq<char>>)
    requires
        tallies_of(tallies, s),
    ensures
        tallied(tallies) == s.len(),
{
    let kinds = sorted_distinct(s);
    lemma_tallied_is_sum(tallies, kinds, s);
    law_sorted_distinct_exists(s);
    law_counts_add_up(kinds, s);
}

proof fn lemma_tallied_is_sum(tallies: Seq<KindTally>, kinds: Seq<Seq<char>>, s: Seq<Seq<char>>)
    requires
        tallies.len() == kinds.len(),
        forall|m: int|
            0 <= m < tallies.len() ==> (#[trigger] tallies[m]).count == occurrences(s, kinds[m]),
    ensures
        tallied(tallies) == occurrences_of_all(kinds, s),
    decreases tallies.len(),
{
    if tallies.len() > 0 {
        assert forall|m: int| 0 <= m < tallies.drop_last().len() implies (
        #[trigger] tallies.drop_last()[m]).count == occurrences(s, kinds.drop_last()[m]) by {
            assert(tallies[m].count == occurrences(s, kinds[m]));
        }
        lemma_tallied_is_sum(tallies.drop_last(), kinds.drop_last(), s);
        assert(tallies[tallies.len() - 1].count == occurrences(s, kinds[tallies.len() - 1]));
    }
}

proof fn lemma_tallied_days(tallies: Seq<DayTally>, dates: Seq<Seq<char>>, days: Seq<Seq<char>>)
    requires
        tallies.len() == dates.len(),
        forall|k: int|
            0 <= k < tallies.len() ==> tallied((#[trigger] tallies[k]).kinds@) == occurrences(
                days,
                dates[k],
            ),
    ensures
        tallied_days(tallies) == occurrences_of_all(dates, days),
    decreases tallies.len(),
{
    if tallies.len() > 0 {
        assert forall|k: int| 0 <= k < tallies.drop_last().len() implies tallied(
            (#[trigger] tallies.drop_last()[k]).kinds@,
        ) == occurrences(days, dates.drop_last()[k]) by {
            assert(tallied(tallies[k].kinds@) == occurrences(days, dates[k]));
        }
        lemma_tallied_days(tallies.drop_last(), dates.drop_last(), days);
        assert(tallied(tallies[tallies.len() - 1].kinds@) == occurrences(
            days,
            dates[tallies.len() - 1],
        ));
    }
}

/// How often a text occurs is the number of items that are that text.
pub proof fn law_occurrences_are_the_items_alike(s: Seq<Seq<char>>, t: Seq<char>)
    ensures
        occurrences(s, t) == s.filter(|x: Seq<char>| x == t).len(),
    decreases s.len(),
{
    reveal(Seq::filter);
    if s.len() > 0 {
        law_occurrences_are_the_items_alike(s.drop_last(), t);
    }
}

/// The kinds on a day do not depend on kinds that come after.
pub proof fn lemma_kinds_on_prefix(
    days: Seq<Seq<char>>,
    kinds: Seq<Seq<char>>,
    more: Seq<char>,
    day: Seq<char>,
)
    requires
        days.len() <= kinds.len(),
    ensures
        kinds_on(days, kinds.push(more), day) == kinds_on(days, kinds, day),
    decreases days.len(),
{
    if days.len() > 0 {
        lemma_kinds_on_prefix(days.drop_last(), kinds, more, day);
    }
}

proof fn lemma_kinds_on_count(
    n: nat,
    days: Seq<Seq<char>>,
    kinds: Seq<Seq<char>>,
    day: Seq<char>,
    kind: Seq<char>,
)
    requires
        n <= days.len(),
        days.len() == kinds.len(),
    ensures
        occurrences(kinds_on(days.take(n as int), kinds, day), kind) == Seq::new(n, |i: int| i).filter(
            |i: int| days[i] == day && kinds[i] == kind,
        ).len(),
    decreases n,
{
    reveal(Seq::filter);
    if n > 0 {
        lemma_kinds_on_count((n - 1) as nat, days, kinds, day, kind);
        let s = days.take(n as int);
        assert(s.drop_last() =~= days.take(n - 1));
        let numbers = Seq::new(n, |i: int| i);
        assert(numbers.drop_last() =~= Seq::new((n - 1) as nat, |i: int| i));
        let rest = kinds_on(days.take(n - 1), kinds, day);
        if s.last() == day {
            assert(rest.push(kinds[n - 1]).drop_last() =~= rest);
        }
    } else {
        assert(days.take(0) =~= Seq::empty());
    }
}

/// Every item is counted, with those that share its day and its kind, and a count is the
/// number of the items that do. Days, and the kinds of a day, come in ascending order.
pub proof fn law_tallies_count_the_items(
    tallies: Seq<DayTally>,
    days: Seq<Seq<char>>,
    kinds: Seq<Seq<char>>,
)
    requires
        tallies_by_day(tallies, days, kinds),
        days.len() == kinds.len(),
    ensures
        forall|a: int, b: int|
            0 <= a < b < tallies.len() ==> text_before(
                (#[trigger] tallies[a]).date@,
                (#[trigger] tallies[b]).date@,
            ),
        forall|k: int, a: int, b: int|
            0 <= k < tallies.len() && 0 <= a < b < tallies[k].kinds@.len() ==> text_before(
                (#[trigger] tallies[k].kinds@[a]).kind@,
                (#[trigger] tallies[k].kinds@[b]).kind@,
            ),
        forall|k: int, m: int|
            0 <= k < tallies.len() && 0 <= m < tallies[k].kinds@.len() ==> {
                let tally = #[trigger] tallies[k].kinds@[m];
                let date = tallies[k].date@;
                let kind = tally.kind@;
                &&& tally.count > 0
                &&& tally.count == Seq::new(days.len(), |i: int| i).filter(
                    |i: int| days[i] == date && kinds[i] == kind,
                ).len()
            },
        forall|i: int|
            0 <= i < days.len() ==> exists|k: int, m: int|
                0 <= k < tallies.len() && 0 <= m < tallies[k].kinds@.len() && tallies[k].date@ == (
                #[trigger] days[i]) && (#[trigger] tallies[k].kinds@[m]).kind@ == kinds[i],
{
    let dates = sorted_distinct(days);
    law_sorted_distinct_exists(days);
    assert forall|a: int, b: int| 0 <= a < b < tallies.len() implies text_before(
        (#[trigger] tallies[a]).date@,
        (#[trigger] tallies[b]).date@,
    ) by {
        assert(text_before(dates[a], dates[b]));
    }
    assert forall|k: int, a: int, b: int|
        0 <= k < tallies.len() && 0 <= a < b < tallies[k].kinds@.len() implies text_before(
        (#[trigger] tallies[k].kinds@[a]).kind@,
        (#[trigger] tallies[k].kinds@[b]).kind@,
    ) by {
        let s = kinds_on(days, kinds, dates[k]);
        assert(tallies[k].date@ == dates[k]);
        law_sorted_distinct_exists(s);
        assert(text_before(sorted_distinct(s)[a], sorted_distinct(s)[b]));
    }
    assert forall|k: int, m: int|
        0 <= k < tallies.len() && 0 <= m < tallies[k].kinds@.len() implies {
        let tally = #[trigger] tallies[k].kinds@[m];
        let date = tallies[k].date@;
        let kind = tally.kind@;
        &&& tally.count > 0
        &&& tally.count == Seq::new(days.len(), |i: int| i).filter(
            |i: int| days[i] == date && kinds[i] == kind,
        ).len()
    } by {
        assert(tallies[k].date@ == dates[k]);
        let s = kinds_on(days, kinds, dates[k]);
        let tally = tallies[k].kinds@[m];
        law_sorted_distinct_exists(s);
        assert(sorted_distinct(s).contains(sorted_distinct(s)[m]));
        assert(s.contains(tally.kind@));
        lemma_occurrences_bound(s, tally.kind@);
        lemma_kinds_on_count(days.len(), days, kinds, dates[k], tally.kind@);
        assert(days.take(days.len() as int) =~= days);
    }
    assert forall|i: int| 0 <= i < days.len() implies exists|k: int, m: int|
        0 <= k < tallies.len() && 0 <= m < tallies[k].kinds@.len() && tallies[k].date@ == (
        #[trigger] days[i]) && (#[trigger] tallies[k].kinds@[m]).kind@ == kinds[i] by {
        assert(days.contains(days[i]));
        let k = choose|k: int| 0 <= k < dates.len() && dates[k] == days[i];
        assert(tallies[k].date@ == dates[k]);
        let s = kinds_on(days, kinds, dates[k]);
        lemma_kinds_on_has(days, kinds, i);
        law_sorted_distinct_exists(s);
        assert(sorted_distinct(s).contains(kinds[i]));
        let m = choose|m: int| 0 <= m < sorted_distinct(s).len() && sorted_distinct(s)[m]
            == kinds[i];
        assert(tallies[k].kinds@[m].kind@ == kinds[i]);
    }
}

proof fn lemma_kinds_on_has(days: Seq<Seq<char>>, kinds: Seq<Seq<char>>, i: int)
    requires
        0 <= i < days.len(),
    ensures
        kinds_on(days, kinds, days[i]).contains(kinds[i]),
    decreases days.len(),
{
    let all = kinds_on(days, kinds, days[i]);
    let rest = days.drop_last();
    if i < rest.len() {
        assert(rest[i] == days[i]);
        lemma_kinds_on_has(rest, kinds, i);
        let before = kinds_on(rest, kinds, days[i]);
        let m = choose|m: int| 0 <= m < before.len() && before[m] == kinds[i];
        assert(all[m] == kinds[i]);
    } else {
        assert(all[all.len() - 1] == kinds[i]);
    }
}

/// The count that is looked up is that of the first entry of the kind, and nothing where there
/// is none.
pub proof fn law_the_first_entry_counts(before: Seq<KindTally>, entry: KindTally, rest: Seq<KindTally>)
    requires
        forall|i: int| 0 <= i < before.len() ==> (#[trigger] before[i]).kind@ != entry.kind@,
    ensures
        count_in(before + seq![entry] + rest, entry.kind@) == entry.count,
        count_in(before, entry.kind@) == 0,
    decreases before.len(),
{
    let all = before + seq![entry] + rest;
    if before.len() > 0 {
        let less = before.drop_first();
        assert forall|i: int| 0 <= i < less.len() implies (#[trigger] less[i]).kind@
            != entry.kind@ by {
            assert(before[i + 1].kind@ != entry.kind@);
        }
        law_the_first_entry_counts(less, entry, rest);
        assert(all[0] == before[0]);
        assert(all.drop_first() =~= less + seq![entry] + rest);
    } else {
        assert(all[0] == entry);
    }
}

} // verus!
