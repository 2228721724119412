//! The order of strings by their bytes, and sorting.

use vstd::prelude::*;
use vstd::utf8::encode_utf8;

use crate::utf8::lemma_encode_injective;
use crate::utf8::views;

verus! {

/// `a` comes before `b` in the lexicographic order of bytes.
pub open spec fn bytes_before(a: Seq<u8>, b: Seq<u8>) -> bool
    decreases a.len(),
{
    if b.len() == 0 {
        false
    } else if a.len() == 0 {
        true
    } else if a[0] != b[0] {
        a[0] < b[0]
    } else {
        bytes_before(a.drop_first(), b.drop_first())
    }
}

/// `a` comes before `b` in the order of strings, which is that of their UTF-8 bytes.
pub open spec fn text_before(a: Seq<char>, b: Seq<char>) -> bool {
    bytes_before(encode_utf8(a), encode_utf8(b))
}

/// Each text of the list comes before all that follow it.
pub open spec fn ascending(s: Seq<Seq<char>>) -> bool {
    forall|i: int, j: int| 0 <= i < j < s.len() ==> text_before(#[trigger] s[i], #[trigger] s[j])
}

/// `r` lists the texts of `s`, each once, in ascending order.
pub open spec fn is_distinct_sorted(r: Seq<Seq<char>>, s: Seq<Seq<char>>) -> bool {
    &&& ascending(r)
    &&& forall|t: Seq<char>| r.contains(t) <==> s.contains(t)
}

proof fn lemma_bytes_irreflexive(a: Seq<u8>)
    ensures
        !bytes_before(a, a),
    decreases a.len(),
{
    if a.len() > 0 {
        lemma_bytes_irreflexive(a.drop_first());
    }
}

proof fn lemma_bytes_transitive(a: Seq<u8>, b: Seq<u8>, c: Seq<u8>)
    requires
        bytes_before(a, b),
        bytes_before(b, c),
    ensures
        bytes_before(a, c),
    decreases a.len(),
{
    if a.len() > 0 && a[0] == b[0] && b[0] == c[0] {
        lemma_bytes_transitive(a.drop_first(), b.drop_first(), c.drop_first());
    }
}

proof fn lemma_bytes_total(a: Seq<u8>, b: Seq<u8>)
    ensures
        a == b || bytes_before(a, b) || bytes_before(b, a),
    decreases a.len(),
{
    if a.len() > 0 && b.len() > 0 && a[0] == b[0] {
        lemma_bytes_total(a.drop_first(), b.drop_first());
        if a.drop_first() == b.drop_first() {
            assert(a =~= seq![a[0]] + a.drop_first());
            assert(b =~= seq![b[0]] + b.drop_first());
        }
    } else if a.len() == 0 && b.len() == 0 {
        assert(a =~= b);
    }
}

/// The first byte in which two texts differ decides.
pub proof fn lemma_first_difference(a: Seq<u8>, b: Seq<u8>, k: int)
    requires
        0 <= k < a.len(),
        k < b.len(),
        forall|i: int| 0 <= i < k ==> a[i] == b[i],
        a[k] < b[k],
    ensures
        bytes_before(a, b),
    decreases k,
{
    if k > 0 {
        assert forall|i: int| 0 <= i < k - 1 implies a.drop_first()[i] == b.drop_first()[i] by {
            assert(a[i + 1] == b[i + 1]);
        }
        lemma_first_difference(a.drop_first(), b.drop_first(), k - 1);
    }
}

/// No text comes before itself.
pub broadcast proof fn lemma_text_irreflexive(a: Seq<char>)
    ensures
        !(#[trigger] text_before(a, a)),
{
    lemma_bytes_irreflexive(encode_utf8(a));
}

pub broadcast proof fn lemma_text_transitive(a: Seq<char>, b: Seq<char>, c: Seq<char>)
    requires
        #[trigger] text_before(a, b),
        #[trigger] text_before(b, c),
    ensures
        text_before(a, c),
{
    lemma_bytes_transitive(encode_utf8(a), encode_utf8(b), encode_utf8(c));
}

/// Of two different texts one comes before the other.
pub proof fn lemma_text_total(a: Seq<char>, b: Seq<char>)
    ensures
        a == b || text_before(a, b) || text_before(b, a),
        !(text_before(a, b) && text_before(b, a)),
{
    lemma_bytes_total(encode_utf8(a), encode_utf8(b));
    if encode_utf8(a) == encode_utf8(b) {
        lemma_encode_injective(a, b);
    }
    if text_before(a, b) && text_before(b, a) {
        lemma_text_transitive(a, b, a);
        lemma_text_irreflexive(a);
    }
}

/// Each item of the list comes before all that follow it.
pub open spec fn in_order<T>(s: Seq<T>, before: spec_fn(T, T) -> bool) -> bool {
    forall|i: int, j: int| 0 <= i < j < s.len() ==> before(#[trigger] s[i], #[trigger] s[j])
}

pub proof fn lemma_push_contains<T>(s: Seq<T>, a: T, x: T)
    ensures
        s.push(a).contains(x) <==> s.contains(x) || x == a,
{
    if s.contains(x) {
        let k = choose|k: int| 0 <= k < s.len() && s[k] == x;
        assert(s.push(a)[k] == x);
    }
    if x == a {
        assert(s.push(a)[s.len() as int] == x);
    }
    if s.push(a).contains(x) {
        let k = choose|k: int| 0 <= k < s.push(a).len() && s.push(a)[k] == x;
        if k < s.len() {
            assert(s[k] == x);
        }
    }
}

/// Two lists of the same items in the same strict order are the same list.
pub proof fn lemma_in_order_unique<T>(a: Seq<T>, b: Seq<T>, before: spec_fn(T, T) -> bool)
    requires
        in_order(a, before),
        in_order(b, before),
        forall|x: T| a.contains(x) <==> b.contains(x),
        forall|x: T, y: T| #[trigger] before(x, y) ==> !before(y, x),
    ensures
        a == b,
    decreases a.len(),
{
    if a.len() == 0 {
        if b.len() > 0 {
            assert(b.contains(b[0]));
        }
        assert(a =~= b);
    } else {
        assert(a.contains(a[0]));
        assert(b.contains(a[0]));
        assert(b.contains(b[0]));
        assert(a.contains(b[0]));
        assert(a[0] == b[0]);
        let ra = a.drop_first();
        let rb = b.drop_first();
        assert forall|x: T| ra.contains(x) <==> rb.contains(x) by {
            if ra.contains(x) {
                let i = choose|i: int| 0 <= i < ra.len() && ra[i] == x;
                assert(a[i + 1] == x);
                assert(b.contains(x));
                let j = choose|j: int| 0 <= j < b.len() && b[j] == x;
                assert(j > 0);
                assert(rb[j - 1] == x);
            }
            if rb.contains(x) {
                let i = choose|i: int| 0 <= i < rb.len() && rb[i] == x;
                assert(b[i + 1] == x);
                assert(a.contains(x));
                let j = choose|j: int| 0 <= j < a.len() && a[j] == x;
                assert(j > 0);
                assert(ra[j - 1] == x);
            }
        }
        lemma_in_order_unique(ra, rb, before);
        assert(a =~= seq![a[0]] + ra);
        assert(b =~= seq![b[0]] + rb);
    }
}

/// There is one way only to list texts once each in ascending order.
pub proof fn law_distinct_sorted_unique(a: Seq<Seq<char>>, b: Seq<Seq<char>>, s: Seq<Seq<char>>)
    requires
        is_distinct_sorted(a, s),
        is_distinct_sorted(b, s),
    ensures
        a == b,
{
    assert forall|x: Seq<char>, y: Seq<char>| text_before(x, y) implies !text_before(y, x) by {
        lemma_text_total(x, y);
    }
    lemma_in_order_unique(a, b, |x: Seq<char>, y: Seq<char>| text_before(x, y));
}

/// The texts of a list, each once, in ascending order.
pub open spec fn sorted_distinct(s: Seq<Seq<char>>) -> Seq<Seq<char>> {
    choose|r: Seq<Seq<char>>| is_distinct_sorted(r, s)
}

/// An ascending list with one more text put in its place.
spec fn with_text(r: Seq<Seq<char>>, t: Seq<char>) -> Seq<Seq<char>>
    decreases r.len(),
{
    if r.len() == 0 || text_before(t, r[0]) {
        seq![t] + r
    } else if r[0] == t {
        r
    } else {
        seq![r[0]] + with_text(r.drop_first(), t)
    }
}

proof fn lemma_with_text(r: Seq<Seq<char>>, t: Seq<char>)
    requires
        ascending(r),
    ensures
        ascending(with_text(r, t)),
        forall|x: Seq<char>| with_text(r, t).contains(x) <==> r.contains(x) || x == t,
    decreases r.len(),
{
    broadcast use {lemma_text_irreflexive, lemma_text_transitive};

    let w = with_text(r, t);
    if r.len() == 0 || text_before(t, r[0]) {
        assert forall|i: int, j: int| 0 <= i < j < w.len() implies text_before(
            #[trigger] w[i],
            #[trigger] w[j],
        ) by {
            if i == 0 && j > 1 {
                assert(text_before(r[0], r[j - 1]));
            }
        }
        lemma_cons_contains(r, t);
    } else if r[0] == t {
        assert(r.contains(r[0]));
    } else {
        let rest = r.drop_first();
        lemma_text_total(r[0], t);
        lemma_with_text(rest, t);
        let wr = with_text(rest, t);
        assert forall|j: int| 0 <= j < wr.len() implies text_before(r[0], #[trigger] wr[j]) by {
            assert(wr.contains(wr[j]));
            if rest.contains(wr[j]) {
                let m = choose|m: int| 0 <= m < rest.len() && rest[m] == wr[j];
                assert(text_before(r[0], r[m + 1]));
            }
        }
        assert forall|i: int, j: int| 0 <= i < j < w.len() implies text_before(
            #[trigger] w[i],
            #[trigger] w[j],
        ) by {
            if i > 0 {
                assert(text_before(wr[i - 1], wr[j - 1]));
            }
        }
        lemma_cons_contains(wr, r[0]);
        lemma_cons_contains(rest, r[0]);
        assert(r =~= seq![r[0]] + rest);
        assert forall|x: Seq<char>| w.contains(x) <==> r.contains(x) || x == t by {
            assert((seq![r[0]] + wr).contains(x) <==> wr.contains(x) || x == r[0]);
            assert((seq![r[0]] + rest).contains(x) <==> rest.contains(x) || x == r[0]);
            assert(wr.contains(x) <==> rest.contains(x) || x == t);
        }
    }
}

proof fn lemma_cons_contains(r: Seq<Seq<char>>, t: Seq<char>)
    ensures
        forall|x: Seq<char>| (seq![t] + r).contains(x) <==> r.contains(x) || x == t,
{
    let w = seq![t] + r;
    assert forall|x: Seq<char>| w.contains(x) <==> r.contains(x) || x == t by {
        if w.contains(x) {
            let i = choose|i: int| 0 <= i < w.len() && w[i] == x;
            if i > 0 {
                assert(r[i - 1] == x);
            }
        }
        if r.contains(x) {
            let i = choose|i: int| 0 <= i < r.len() && r[i] == x;
            assert(w[i + 1] == x);
        }
        if x == t {
            assert(w[0] == x);
        }
    }
}

/// Every list of texts can be listed once each in ascending order.
pub proof fn law_sorted_distinct_exists(s: Seq<Seq<char>>)
    ensures
        is_distinct_sorted(sorted_distinct(s), s),
    decreases s.len(),
{
    if s.len() == 0 {
        assert(is_distinct_sorted(Seq::empty(), s));
    } else {
        let rest = s.drop_last();
        law_sorted_distinct_exists(rest);
        let r = with_text(sorted_distinct(rest), s.last());
        lemma_with_text(sorted_distinct(rest), s.last());
        assert forall|t: Seq<char>| r.contains(t) <==> s.contains(t) by {
            lemma_push_contains(rest, s.last(), t);
            assert(s =~= rest.push(s.last()));
        }
        assert(is_distinct_sorted(r, s));
    }
}

pub proof fn lemma_sorted_distinct(r: Seq<Seq<char>>, s: Seq<Seq<char>>)
    requires
        is_distinct_sorted(r, s),
    ensures
        r == sorted_distinct(s),
{
    law_distinct_sorted_unique(r, sorted_distinct(s), s);
}

/// A strict total order of the numbers below `size`, each of which stands for an item.
pub trait Ranking {
    spec fn size(&self) -> nat;

    spec fn precedes(&self, i: int, j: int) -> bool;

    proof fn lemma_strict_total(&self)
        ensures
            forall|i: int| !#[trigger] self.precedes(i, i),
            forall|i: int, j: int, k: int| #[trigger]
                self.precedes(i, j) && #[trigger] self.precedes(j, k) ==> self.precedes(i, k),
            forall|i: int, j: int|
                0 <= i < self.size() && 0 <= j < self.size() && i != j ==> (#[trigger] self.precedes(
                    i,
                    j,
                ) || self.precedes(j, i)),
    ;

    fn before(&self, i: usize, j: usize) -> (r: bool)
        requires
            i < self.size(),
            j < self.size(),
        ensures
            r == self.precedes(i as int, j as int),
    ;
}

/// `out` holds the numbers of `items`, in the order of `rank`.
pub open spec fn ranked<R: Ranking>(rank: &R, out: Seq<usize>, items: Seq<usize>) -> bool {
    &&& out.len() == items.len()
    &&& forall|x: usize| #[trigger] out.contains(x) <==> items.contains(x)
    &&& forall|i: int, j: int|
        0 <= i < j < out.len() ==> rank.precedes(
            (#[trigger] out[i]) as int,
            (#[trigger] out[j]) as int,
        )
}

/// Sorts numbers by their ranking.
pub fn sort_ranked<R: Ranking>(rank: &R, items: &Vec<usize>) -> (out: Vec<usize>)
    requires
        forall|k: int| 0 <= k < items@.len() ==> #[trigger] items@[k] < rank.size(),
        items@.no_duplicates(),
    ensures
        ranked(rank, out@, items@),
{
    proof {
        rank.lemma_strict_total();
    }
    let mut out: Vec<usize> = Vec::new();
    let mut k: usize = 0;
    while k < items.len()
        invariant
            k <= items@.len(),
            forall|k: int| 0 <= k < items@.len() ==> #[trigger] items@[k] < rank.size(),
            items@.no_duplicates(),
            ranked(rank, out@, items@.take(k as int)),
        decreases items@.len() - k,
    {
        insert_ranked(rank, &mut out, items[k], items, k);
        k = k + 1;
    }
    assert(items@.take(k as int) =~= items@);
    out
}

fn insert_ranked<R: Ranking>(
    rank: &R,
    out: &mut Vec<usize>,
    item: usize,
    items: &Vec<usize>,
    k: usize,
)
    requires
        k < items@.len(),
        item == items@[k as int],
        forall|k: int| 0 <= k < items@.len() ==> #[trigger] items@[k] < rank.size(),
        items@.no_duplicates(),
        ranked(rank, old(out)@, items@.take(k as int)),
    ensures
        ranked(rank, final(out)@, items@.take(k + 1)),
{
    let ghost before = out@;
    let ghost done = items@.take(k as int);
    assert forall|j: int| 0 <= j < before.len() implies #[trigger] before[j] < rank.size()
        && before[j] != item by {
        assert(before.contains(before[j]));
        let m = choose|m: int| 0 <= m < done.len() && done[m] == before[j];
        assert(items@[m] == before[j]);
    }
    proof {
        rank.lemma_strict_total();
    }
    let mut p: usize = 0;
    while p < out.len() && rank.before(out[p], item)
        invariant
            p <= out@.len(),
            out@ == before,
            item < rank.size(),
            forall|j: int| 0 <= j < before.len() ==> #[trigger] before[j] < rank.size(),
            forall|j: int| 0 <= j < p ==> rank.precedes((#[trigger] before[j]) as int, item as int),
        decreases out@.len() - p,
    {
        p = p + 1;
    }
    out.insert(p, item);
    let ghost after = out@;
    assert(after =~= before.insert(p as int, item));
    assert(items@.take(k + 1) =~= done.push(item));
    assert forall|x: usize| #[trigger] after.contains(x) <==> items@.take(k + 1).contains(x) by {
        if after.contains(x) {
            let j = choose|j: int| 0 <= j < after.len() && after[j] == x;
            if j == p {
                assert(done.push(item)[k as int] == x);
            } else {
                assert(before.contains(x)) by {
                    if j < p {
                        assert(before[j] == x);
                    } else {
                        assert(before[j - 1] == x);
                    }
                }
                let m = choose|m: int| 0 <= m < done.len() && done[m] == x;
                assert(done.push(item)[m] == x);
            }
        }
        if items@.take(k + 1).contains(x) {
            let m = choose|m: int| 0 <= m < k + 1 && done.push(item)[m] == x;
            if m == k {
                assert(after[p as int] == x);
            } else {
                assert(done[m] == x);
                assert(before.contains(x));
                let j = choose|j: int| 0 <= j < before.len() && before[j] == x;
                if j < p {
                    assert(after[j] == x);
                } else {
                    assert(after[j + 1] == x);
                }
            }
        }
    }
    assert forall|i: int, j: int| 0 <= i < j < after.len() implies rank.precedes(
        (#[trigger] after[i]) as int,
        (#[trigger] after[j]) as int,
    ) by {
        if p < before.len() {
            assert(rank.precedes(item as int, before[p as int] as int));
            if i == p {
                if j > p + 1 {
                    assert(rank.precedes(before[p as int] as int, before[j - 1] as int));
                }
            }
        }
    }
}

/// Whether a text comes before another.
pub fn text_less(a: &str, b: &str) -> (r: bool)
    ensures
        r == text_before(a@, b@),
{
    let x = a.as_bytes();
    let y = b.as_bytes();
    let ghost whole = bytes_before(x@, y@);
    let mut i: usize = 0;
    assert(x@.skip(0) =~= x@);
    assert(y@.skip(0) =~= y@);
    while i < x.len() && i < y.len() && x[i] == y[i]
        invariant
            i <= x@.len(),
            i <= y@.len(),
            whole == bytes_before(x@.skip(i as int), y@.skip(i as int)),
        decreases x@.len() - i,
    {
        assert(x@.skip(i as int).drop_first() =~= x@.skip(i + 1));
        assert(y@.skip(i as int).drop_first() =~= y@.skip(i + 1));
        i = i + 1;
    }
    if i < y.len() {
        if i < x.len() {
            x[i] < y[i]
        } else {
            true
        }
    } else {
        false
    }
}

/// The texts of a list, each once, in ascending order.
pub fn distinct_sorted(items: &Vec<String>) -> (out: Vec<String>)
    ensures
        views(out@) == sorted_distinct(views(items@)),
        is_distinct_sorted(views(out@), views(items@)),
{
    let mut out: Vec<String> = Vec::new();
    let mut k: usize = 0;
    while k < items.len()
        invariant
            k <= items@.len(),
            is_distinct_sorted(views(out@), views(items@).take(k as int)),
        decreases items@.len() - k,
    {
        insert_distinct(&mut out, &items[k]);
        proof {
            let seen = views(items@).take(k as int);
            let now = views(items@).take(k + 1);
            assert(now =~= seen.push(items@[k as int]@));
            assert forall|t: Seq<char>| now.contains(t) <==> seen.contains(t) || t
                == items@[k as int]@ by {
                if now.contains(t) {
                    let m = choose|m: int| 0 <= m < now.len() && now[m] == t;
                    if m < k {
                        assert(seen[m] == t);
                    }
                }
                if seen.contains(t) {
                    let m = choose|m: int| 0 <= m < seen.len() && seen[m] == t;
                    assert(now[m] == t);
                }
                if t == items@[k as int]@ {
                    assert(now[k as int] == t);
                }
            }
        }
        k = k + 1;
    }
    assert(views(items@).take(k as int) =~= views(items@));
    proof {
        lemma_sorted_distinct(views(out@), views(items@));
    }
    out
}

fn insert_distinct(out: &mut Vec<String>, item: &String)
    requires
        ascending(views(old(out)@)),
    ensures
        ascending(views(final(out)@)),
        forall|t: Seq<char>|
            views(final(out)@).contains(t) <==> views(old(out)@).contains(t) || t == item@,
{
    broadcast use {lemma_text_irreflexive, lemma_text_transitive};

    let ghost before = views(out@);
    let mut p: usize = 0;
    while p < out.len() && text_less(out[p].as_str(), item.as_str())
        invariant
            p <= out@.len(),
            views(out@) == before,
            forall|j: int| 0 <= j < p ==> text_before(#[trigger] before[j], item@),
        decreases out@.len() - p,
    {
        p = p + 1;
    }
    if p < out.len() && out[p] == *item {
        assert(before[p as int] == item@);
        return;
    }
    out.insert(p, item.clone());
    let ghost after = views(out@);
    proof {
        assert(after =~= before.insert(p as int, item@));
        if p < before.len() {
            lemma_text_total(before[p as int], item@);
        }
        assert forall|i: int, j: int| 0 <= i < j < after.len() implies text_before(
            #[trigger] after[i],
            #[trigger] after[j],
        ) by {
            if i == p && j > p + 1 {
                assert(text_before(before[p as int], before[j - 1]));
            }
        }
        assert forall|t: Seq<char>| after.contains(t) <==> before.contains(t) || t == item@ by {
            if after.contains(t) {
                let j = choose|j: int| 0 <= j < after.len() && after[j] == t;
                if j < p {
                    assert(before[j] == t);
                } else if j > p {
                    assert(before[j - 1] == t);
                }
            }
            if before.contains(t) {
                let j = choose|j: int| 0 <= j < before.len() && before[j] == t;
                if j < p {
                    assert(after[j] == t);
                } else {
                    assert(after[j + 1] == t);
                }
            }
            if t == item@ {
                assert(after[p as int] == t);
            }
        }
    }
}

/// Texts are in the order of their bytes: of two, the first is that which ends first where
/// they agree so far, or which has the smaller byte where they first differ.
pub proof fn law_texts_are_in_the_order_of_their_bytes(a: Seq<char>, b: Seq<char>)
    ensures
        text_before(a, b) <==> exists|k: int|
            {
                &&& 0 <= k <= encode_utf8(a).len()
                &&& k < encode_utf8(b).len()
                &&& #[trigger] encode_utf8(a).take(k) == encode_utf8(b).take(k)
                &&& k == encode_utf8(a).len() || encode_utf8(a)[k] < encode_utf8(b)[k]
            },
{
    lemma_bytes_first_difference(encode_utf8(a), encode_utf8(b));
}

proof fn lemma_bytes_first_difference(x: Seq<u8>, y: Seq<u8>)
    ensures
        bytes_before(x, y) <==> exists|k: int|
            {
                &&& 0 <= k <= x.len()
                &&& k < y.len()
                &&& #[trigger] x.take(k) == y.take(k)
                &&& k == x.len() || x[k] < y[k]
            },
    decreases x.len(),
{
    if y.len() > 0 && (x.len() == 0 || x[0] != y[0]) {
        assert(x.take(0) =~= y.take(0));
        if x.len() > 0 && x[0] > y[0] {
            assert forall|k: int| 0 <= k <= x.len() && k < y.len() && #[trigger] x.take(k) == y.take(
                k,
            ) implies !(k == x.len() || x[k] < y[k]) by {
                if k > 0 {
                    assert(x.take(k)[0] == y.take(k)[0]);
                }
            }
        }
    } else if y.len() > 0 {
        let (p, q) = (x.drop_first(), y.drop_first());
        lemma_bytes_first_difference(p, q);
        if bytes_before(x, y) {
            let k = choose|k: int|
                {
                    &&& 0 <= k <= p.len()
                    &&& k < q.len()
                    &&& #[trigger] p.take(k) == q.take(k)
                    &&& k == p.len() || p[k] < q[k]
                };
            assert(x.take(k + 1) =~= seq![x[0]] + p.take(k));
            assert(y.take(k + 1) =~= seq![y[0]] + q.take(k));
            if k < p.len() {
                assert(x[k + 1] == p[k]);
            }
            assert(y[k + 1] == q[k]);
            assert(x.take(k + 1) == y.take(k + 1));
        }
        if exists|k: int|
            {
                &&& 0 <= k <= x.len()
                &&& k < y.len()
                &&& #[trigger] x.take(k) == y.take(k)
                &&& k == x.len() || x[k] < y[k]
            } {
            let k = choose|k: int|
                {
                    &&& 0 <= k <= x.len()
                    &&& k < y.len()
                    &&& #[trigger] x.take(k) == y.take(k)
                    &&& k == x.len() || x[k] < y[k]
                };
            assert(k > 0);
            assert(p.take(k - 1) =~= x.take(k).drop_first());
            assert(q.take(k - 1) =~= y.take(k).drop_first());
            assert(p.take(k - 1) == q.take(k - 1));
        }
    }
}

/// A list that is sorted holds each text of the other once and nothing else, a text never after
/// one that is greater.
pub proof fn law_sorted_lists_hold_each_text_once(s: Seq<Seq<char>>)
    ensures
        sorted_distinct(s).no_duplicates(),
        forall|t: Seq<char>| sorted_distinct(s).contains(t) <==> #[trigger] s.contains(t),
        forall|i: int, j: int|
            0 <= i < j < sorted_distinct(s).len() ==> text_before(
                #[trigger] sorted_distinct(s)[i],
                #[trigger] sorted_distinct(s)[j],
            ),
{
    broadcast use lemma_text_irreflexive;

    law_sorted_distinct_exists(s);
    let r = sorted_distinct(s);
    assert forall|i: int, j: int| 0 <= i < j < r.len() implies text_before(
        #[trigger] r[i],
        #[trigger] r[j],
    ) by {
    }
    assert forall|i: int, j: int| 0 <= i < r.len() && 0 <= j < r.len() && i != j implies r[i]
        != r[j] by {
        if i < j {
            assert(text_before(r[i], r[j]));
        } else {
            assert(text_before(r[j], r[i]));
        }
    }
}

} // verus!
