//! Disjoint sets of numbers, joined by links.
//!
//! A set is represented by its least number. Each number points at one that is not greater;
//! the representatives point at themselves.

use vstd::prelude::*;

verus! {

/// A labelling that gives linked numbers the same label.
pub open spec fn respects(f: spec_fn(int) -> int, n: nat, link: spec_fn(int, int) -> bool) -> bool {
    forall|a: int, b: int| 0 <= a < b < n && #[trigger] link(a, b) ==> f(a) == f(b)
}

/// Whether links connect two numbers below `n`, directly or through others: no labelling that
/// gives linked numbers the same label can tell them apart. A link is read from the smaller
/// number to the greater.
pub open spec fn connected(n: nat, link: spec_fn(int, int) -> bool, i: int, j: int) -> bool {
    forall|f: spec_fn(int) -> int| #[trigger] respects(f, n, link) ==> f(i) == f(j)
}

/// Consecutive numbers of the chain are linked, one way or the other.
pub open spec fn is_chain(n: nat, link: spec_fn(int, int) -> bool, chain: Seq<int>) -> bool {
    &&& chain.len() > 0
    &&& forall|k: int| 0 <= k < chain.len() ==> 0 <= #[trigger] chain[k] < n
    &&& forall|k: int|
        0 <= k < chain.len() - 1 ==> linked_either_way(link, #[trigger] chain[k], chain[k + 1])
}

pub open spec fn linked_either_way(link: spec_fn(int, int) -> bool, a: int, b: int) -> bool {
    (a < b && link(a, b)) || (b < a && link(b, a))
}

/// Some chain of links leads from `i` to `j`.
pub open spec fn chained(n: nat, link: spec_fn(int, int) -> bool, i: int, j: int) -> bool {
    exists|chain: Seq<int>| #[trigger]
        is_chain(n, link, chain) && chain[0] == i && chain.last() == j
}

/// Every number points at one that is not greater.
pub open spec fn is_forest(parent: Seq<usize>) -> bool {
    forall|x: int| 0 <= x < parent.len() ==> #[trigger] parent[x] <= x
}

/// The representative of the set of `x`.
pub open spec fn root(parent: Seq<usize>, x: int) -> int
    decreases x,
{
    if 0 <= x < parent.len() && parent[x] < x {
        root(parent, parent[x] as int)
    } else {
        x
    }
}

/// Two numbers are connected exactly where a chain of links leads from one to the other.
pub proof fn law_connected_is_chained(n: nat, link: spec_fn(int, int) -> bool, i: int, j: int)
    requires
        0 <= i < n,
        0 <= j < n,
    ensures
        connected(n, link, i, j) <==> chained(n, link, i, j),
{
    if chained(n, link, i, j) {
        let chain = choose|chain: Seq<int>| #[trigger]
            is_chain(n, link, chain) && chain[0] == i && chain.last() == j;
        assert forall|f: spec_fn(int) -> int| #[trigger] respects(f, n, link) implies f(i) == f(
            j,
        ) by {
            lemma_chain_keeps_label(n, link, chain, f);
        }
    }
    if connected(n, link, i, j) {
        let f = |x: int|
            if chained(n, link, i, x) {
                1int
            } else {
                0int
            };
        assert forall|a: int, b: int| 0 <= a < b < n && #[trigger] link(a, b) implies f(a) == f(
            b,
        ) by {
            if chained(n, link, i, a) {
                lemma_chain_extends(n, link, i, a, b);
            }
            if chained(n, link, i, b) {
                lemma_chain_extends(n, link, i, b, a);
            }
        }
        assert(respects(f, n, link));
        assert(chained(n, link, i, i)) by {
            let one = seq![i];
            assert(is_chain(n, link, one));
            assert(one.last() == i);
        }
        assert(f(i) == f(j));
    }
}

proof fn lemma_chain_keeps_label(
    n: nat,
    link: spec_fn(int, int) -> bool,
    chain: Seq<int>,
    f: spec_fn(int) -> int,
)
    requires
        is_chain(n, link, chain),
        respects(f, n, link),
    ensures
        f(chain[0]) == f(chain.last()),
    decreases chain.len(),
{
    if chain.len() > 1 {
        let head = chain.drop_last();
        assert forall|k: int| 0 <= k < head.len() - 1 implies linked_either_way(
            link,
            #[trigger] head[k],
            head[k + 1],
        ) by {
            assert(linked_either_way(link, chain[k], chain[k + 1]));
        }
        lemma_chain_keeps_label(n, link, head, f);
        let last = chain.len() - 2;
        assert(linked_either_way(link, chain[last], chain[last + 1]));
    }
}

proof fn lemma_chain_extends(n: nat, link: spec_fn(int, int) -> bool, i: int, a: int, b: int)
    requires
        chained(n, link, i, a),
        0 <= b < n,
        linked_either_way(link, a, b),
    ensures
        chained(n, link, i, b),
{
    let chain = choose|chain: Seq<int>| #[trigger]
        is_chain(n, link, chain) && chain[0] == i && chain.last() == a;
    let longer = chain.push(b);
    assert forall|k: int| 0 <= k < longer.len() - 1 implies linked_either_way(
        link,
        #[trigger] longer[k],
        longer[k + 1],
    ) by {
        if k < chain.len() - 1 {
            assert(linked_either_way(link, chain[k], chain[k + 1]));
        }
    }
    assert(is_chain(n, link, longer));
    assert(longer.last() == b);
}

/// A representative is its own, and is not greater than what it stands for.
pub proof fn lemma_root(parent: Seq<usize>, x: int)
    requires
        is_forest(parent),
        0 <= x < parent.len(),
    ensures
        0 <= root(parent, x) <= x,
        parent[root(parent, x)] == root(parent, x),
        root(parent, root(parent, x)) == root(parent, x),
    decreases x,
{
    if parent[x] < x {
        lemma_root(parent, parent[x] as int);
    } else {
        assert(parent[x] <= x);
    }
}

proof fn lemma_shortcut(parent: Seq<usize>, x: int, y: int)
    requires
        is_forest(parent),
        0 <= x < parent.len(),
        0 <= y < parent.len(),
    ensures
        root(parent.update(x, root(parent, x) as usize), y) == root(parent, y),
    decreases y,
{
    lemma_root(parent, x);
    let r = root(parent, x);
    let next = parent.update(x, r as usize);
    assert(parent[y] <= y);
    if y == x {
        if r < x {
            assert(next[r] == r);
            assert(root(next, r) == r);
        }
    } else if parent[y] < y {
        lemma_shortcut(parent, x, parent[y] as int);
    }
}

proof fn lemma_attach(parent: Seq<usize>, lo: int, hi: int, y: int)
    requires
        is_forest(parent),
        0 <= lo < hi < parent.len(),
        parent[lo] == lo,
        parent[hi] == hi,
        0 <= y < parent.len(),
    ensures
        root(parent.update(hi, lo as usize), y) == if root(parent, y) == hi {
            lo
        } else {
            root(parent, y)
        },
    decreases y,
{
    let next = parent.update(hi, lo as usize);
    assert(parent[y] <= y);
    if y == hi {
        assert(next[lo] == lo);
        assert(root(next, lo) == lo);
    } else if parent[y] < y {
        lemma_attach(parent, lo, hi, parent[y] as int);
    }
}

/// The representative of `x`. Points what is on the way straight at it.
pub fn find(parent: &mut Vec<usize>, x: usize) -> (r: usize)
    requires
        is_forest(old(parent)@),
        x < old(parent)@.len(),
    ensures
        final(parent)@.len() == old(parent)@.len(),
        is_forest(final(parent)@),
        r == root(old(parent)@, x as int),
        forall|y: int|
            0 <= y < old(parent)@.len() ==> #[trigger] root(final(parent)@, y) == root(
                old(parent)@,
                y,
            ),
    decreases x,
{
    let p: usize = parent[x];
    if p == x {
        return x;
    }
    assert(parent@[x as int] <= x);
    let r: usize = find(parent, p);
    let ghost mid = parent@;
    proof {
        lemma_root(mid, x as int);
        assert(root(mid, x as int) == root(old(parent)@, x as int));
        assert(r == root(old(parent)@, x as int));
        assert forall|y: int| 0 <= y < mid.len() implies #[trigger] root(
            mid.update(x as int, r),
            y,
        ) == root(mid, y) by {
            lemma_shortcut(mid, x as int, y);
        }
    }
    parent.set(x, r);
    r
}

/// Joins the sets of `a` and `b` under the lesser representative.
pub fn union(parent: &mut Vec<usize>, a: usize, b: usize)
    requires
        is_forest(old(parent)@),
        a < old(parent)@.len(),
        b < old(parent)@.len(),
    ensures
        final(parent)@.len() == old(parent)@.len(),
        is_forest(final(parent)@),
        ({
            let ra = root(old(parent)@, a as int);
            let rb = root(old(parent)@, b as int);
            let lo = if ra < rb {
                ra
            } else {
                rb
            };
            forall|y: int|
                0 <= y < old(parent)@.len() ==> #[trigger] root(final(parent)@, y) == if root(
                    old(parent)@,
                    y,
                ) == ra || root(old(parent)@, y) == rb {
                    lo
                } else {
                    root(old(parent)@, y)
                }
        }),
{
    let ra: usize = find(parent, a);
    let rb: usize = find(parent, b);
    if ra != rb {
        let lo: usize = if ra < rb {
            ra
        } else {
            rb
        };
        let hi: usize = if ra < rb {
            rb
        } else {
            ra
        };
        let ghost mid = parent@;
        proof {
            lemma_root(mid, a as int);
            lemma_root(mid, b as int);
            assert forall|y: int| 0 <= y < mid.len() implies #[trigger] root(
                mid.update(hi as int, lo),
                y,
            ) == if root(mid, y) == hi {
                lo as int
            } else {
                root(mid, y)
            } by {
                lemma_attach(mid, lo as int, hi as int, y);
            }
        }
        parent.set(hi, lo);
    }
}

/// Each number as a set of its own.
pub fn singletons(n: usize) -> (parent: Vec<usize>)
    ensures
        parent@.len() == n,
        forall|x: int| 0 <= x < n ==> #[trigger] parent@[x] == x,
{
    let mut parent: Vec<usize> = Vec::new();
    let mut i: usize = 0;
    while i < n
        invariant
            i <= n,
            parent@.len() == i,
            forall|x: int| 0 <= x < i ==> #[trigger] parent@[x] == x,
        decreases n - i,
    {
        parent.push(i);
        i = i + 1;
    }
    parent
}

/// No labelling that respects the links tells a number from its representative.
pub open spec fn joins_only_connected(
    parent: Seq<usize>,
    link: spec_fn(int, int) -> bool,
) -> bool {
    forall|f: spec_fn(int) -> int, x: int|
        #![trigger respects(f, parent.len(), link), root(parent, x)]
        respects(f, parent.len(), link) && 0 <= x < parent.len() ==> f(root(parent, x)) == f(x)
}

/// Once every link is joined, and nothing else, sets and connected numbers are the same.
pub proof fn lemma_roots_decide(parent: Seq<usize>, link: spec_fn(int, int) -> bool, i: int, j: int)
    requires
        joins_only_connected(parent, link),
        forall|a: int, b: int|
            0 <= a < b < parent.len() && #[trigger] link(a, b) ==> root(parent, a) == root(
                parent,
                b,
            ),
        0 <= i < parent.len(),
        0 <= j < parent.len(),
    ensures
        connected(parent.len(), link, i, j) <==> root(parent, i) == root(parent, j),
{
    let n = parent.len();
    let f = |x: int| root(parent, x);
    assert(respects(f, n, link));
    if connected(n, link, i, j) {
        assert(f(i) == f(j));
    }
    if root(parent, i) == root(parent, j) {
        assert forall|g: spec_fn(int) -> int| #[trigger] respects(g, n, link) implies g(i) == g(
            j,
        ) by {
            assert(g(root(parent, i)) == g(i));
            assert(g(root(parent, j)) == g(j));
        }
    }
}

} // verus!
