//! Searching, trimming, splitting, joining and replacing in text.

use vstd::prelude::*;
use vstd::string::*;

use crate::utf8::byte_count;
use crate::utf8::chars_of;
use crate::utf8::lemma_byte_count_concat;
use crate::utf8::views;

verus! {

/// `String::push` adds one character at the end of the string.
pub assume_specification[ String::push ](s: &mut String, c: char)
    ensures
        final(s)@ == old(s)@.push(c),
;

/// The characters with the Unicode property White_Space.
pub open spec fn is_space(c: char) -> bool {
    ||| '\u{9}' <= c <= '\u{d}'
    ||| c == ' '
    ||| c == '\u{85}'
    ||| c == '\u{a0}'
    ||| c == '\u{1680}'
    ||| '\u{2000}' <= c <= '\u{200a}'
    ||| c == '\u{2028}'
    ||| c == '\u{2029}'
    ||| c == '\u{202f}'
    ||| c == '\u{205f}'
    ||| c == '\u{3000}'
}

/// `s` without the white space it starts with.
pub open spec fn trimmed_start(s: Seq<char>) -> Seq<char>
    decreases s.len(),
{
    if s.len() > 0 && is_space(s[0]) {
        trimmed_start(s.drop_first())
    } else {
        s
    }
}

/// `s` without the white space it ends with.
pub open spec fn trimmed_end(s: Seq<char>) -> Seq<char>
    decreases s.len(),
{
    if s.len() > 0 && is_space(s.last()) {
        trimmed_end(s.drop_last())
    } else {
        s
    }
}

/// `s` without the white space around it.
pub open spec fn trimmed(s: Seq<char>) -> Seq<char> {
    trimmed_end(trimmed_start(s))
}

/// Length of the run of characters at the start of `s` that are not white space.
pub open spec fn word_len(s: Seq<char>) -> nat
    decreases s.len(),
{
    if s.len() > 0 && !is_space(s[0]) {
        1 + word_len(s.drop_first())
    } else {
        0
    }
}

/// The runs of characters of `s` between white space, in order.
pub open spec fn words(s: Seq<char>) -> Seq<Seq<char>>
    decreases s.len(),
{
    if s.len() == 0 {
        Seq::empty()
    } else if is_space(s[0]) {
        words(s.drop_first())
    } else {
        proof {
            lemma_word_len(s);
        }
        seq![s.take(word_len(s) as int)] + words(s.skip(word_len(s) as int))
    }
}

/// The parts in order, with `sep` between neighbours.
pub open spec fn joined(parts: Seq<Seq<char>>, sep: Seq<char>) -> Seq<char>
    decreases parts.len(),
{
    if parts.len() == 0 {
        Seq::empty()
    } else if parts.len() == 1 {
        parts[0]
    } else {
        joined(parts.drop_last(), sep) + sep + parts.last()
    }
}

/// The pieces of `s` between occurrences of `c`: always one more than there are occurrences.
pub open spec fn split_on(s: Seq<char>, c: char) -> Seq<Seq<char>>
    decreases s.len(),
{
    if s.len() == 0 {
        seq![Seq::empty()]
    } else if s.last() == c {
        split_on(s.drop_last(), c).push(Seq::empty())
    } else {
        let rest = split_on(s.drop_last(), c);
        rest.drop_last().push(rest.last().push(s.last()))
    }
}

/// `pat` stands in `s` at position `i`.
pub open spec fn occurs_at(s: Seq<char>, pat: Seq<char>, i: int) -> bool {
    &&& 0 <= i
    &&& i + pat.len() <= s.len()
    &&& s.subrange(i, i + pat.len()) == pat
}

/// `pat` stands somewhere in `s`.
pub open spec fn contains(s: Seq<char>, pat: Seq<char>) -> bool {
    exists|i: int| occurs_at(s, pat, i)
}

/// `s` begins with `pat`.
pub open spec fn starts_with(s: Seq<char>, pat: Seq<char>) -> bool {
    occurs_at(s, pat, 0)
}

/// `s` ends with `pat`.
pub open spec fn ends_with(s: Seq<char>, pat: Seq<char>) -> bool {
    occurs_at(s, pat, s.len() - pat.len())
}

/// `s` with every occurrence of `pat`, found from left to right without overlap, replaced by
/// `rep`.
pub open spec fn replaced(s: Seq<char>, pat: Seq<char>, rep: Seq<char>) -> Seq<char>
    recommends
        pat.len() > 0,
    decreases s.len(),
{
    if s.len() == 0 {
        Seq::empty()
    } else if pat.len() > 0 && starts_with(s, pat) {
        rep + replaced(s.skip(pat.len() as int), pat, rep)
    } else {
        seq![s[0]] + replaced(s.drop_first(), pat, rep)
    }
}

/// Number of occurrences of `pat`, found from left to right without overlap.
pub open spec fn replacements(s: Seq<char>, pat: Seq<char>) -> nat
    recommends
        pat.len() > 0,
    decreases s.len(),
{
    if s.len() == 0 {
        0
    } else if pat.len() > 0 && starts_with(s, pat) {
        1 + replacements(s.skip(pat.len() as int), pat)
    } else {
        replacements(s.drop_first(), pat)
    }
}

/// The first word ends at the first white space, or with the text.
pub proof fn lemma_word_len(s: Seq<char>)
    ensures
        word_len(s) <= s.len(),
        forall|k: int| 0 <= k < word_len(s) ==> !is_space(#[trigger] s[k]),
        word_len(s) < s.len() ==> is_space(s[word_len(s) as int]),
    decreases s.len(),
{
    if s.len() > 0 && !is_space(s[0]) {
        let t = s.drop_first();
        lemma_word_len(t);
        assert forall|k: int| 0 <= k < word_len(s) implies !is_space(#[trigger] s[k]) by {
            if k > 0 {
                assert(s[k] == t[k - 1]);
            }
        }
    }
}

proof fn lemma_word_len_is(s: Seq<char>, n: int)
    requires
        0 <= n <= s.len(),
        forall|k: int| 0 <= k < n ==> !is_space(#[trigger] s[k]),
        n < s.len() ==> is_space(s[n]),
    ensures
        word_len(s) == n,
{
    lemma_word_len(s);
}

pub proof fn lemma_split_on_nonempty(s: Seq<char>, c: char)
    ensures
        split_on(s, c).len() > 0,
    decreases s.len(),
{
    if s.len() > 0 {
        lemma_split_on_nonempty(s.drop_last(), c);
    }
}

/// Joining what a split gave puts the text together again.
pub proof fn lemma_split_joined(s: Seq<char>, c: char)
    ensures
        joined(split_on(s, c), seq![c]) == s,
    decreases s.len(),
{
    let sep = seq![c];
    if s.len() == 0 {
        assert(joined(split_on(s, c), sep) =~= s);
    } else {
        let t = s.drop_last();
        let rest = split_on(t, c);
        lemma_split_on_nonempty(t, c);
        lemma_split_joined(t, c);
        if s.last() == c {
            let parts = rest.push(Seq::empty());
            assert(parts.drop_last() =~= rest);
            assert(t + sep + Seq::<char>::empty() =~= s);
        } else {
            let parts = rest.drop_last().push(rest.last().push(s.last()));
            assert(parts.drop_last() =~= rest.drop_last());
            assert(parts.last() == rest.last().push(s.last()));
            if rest.len() == 1 {
                assert(rest.last() == rest[0]);
                assert(parts[0] == parts.last());
                assert(t.push(s.last()) =~= s);
            } else {
                let head = joined(rest.drop_last(), sep) + sep;
                assert(head + rest.last() == t);
                assert(head + rest.last().push(s.last()) =~= t.push(s.last()));
                assert(t.push(s.last()) =~= s);
            }
        }
    }
}

/// Where the text after a replacement begins with `q`, and `q` holds no first character of the
/// replacement, the text before it begins with `q`.
proof fn lemma_replaced_prefix(s: Seq<char>, pat: Seq<char>, rep: Seq<char>, q: Seq<char>)
    requires
        pat.len() > 0,
        rep.len() > 0,
        !q.contains(rep[0]),
        starts_with(replaced(s, pat, rep), q),
    ensures
        starts_with(s, q),
    decreases s.len(),
{
    let r = replaced(s, pat, rep);
    if q.len() == 0 {
        assert(s.subrange(0, 0) =~= q);
    } else {
        assert(r.subrange(0, q.len() as int)[0] == q[0]);
        assert(r[0] == q[0]);
        assert(q.contains(q[0]));
        if starts_with(s, pat) {
            assert(r[0] == rep[0]);
        } else {
            let t = s.drop_first();
            let rt = replaced(t, pat, rep);
            let q1 = q.drop_first();
            assert(rt.subrange(0, q1.len() as int) =~= q1) by {
                assert forall|k: int| 0 <= k < q1.len() implies rt[k] == q1[k] by {
                    assert(r.subrange(0, q.len() as int)[k + 1] == q[k + 1]);
                }
            }
            assert(!q1.contains(rep[0])) by {
                if q1.contains(rep[0]) {
                    let k = choose|k: int| 0 <= k < q1.len() && q1[k] == rep[0];
                    assert(q[k + 1] == rep[0]);
                }
            }
            lemma_replaced_prefix(t, pat, rep, q1);
            assert(s.subrange(0, q.len() as int) =~= q) by {
                assert forall|k: int| 0 <= k < q.len() implies s[k] == q[k] by {
                    if k > 0 {
                        assert(t.subrange(0, q1.len() as int)[k - 1] == q1[k - 1]);
                    }
                }
            }
        }
    }
}

/// A replacement adds no occurrence of a text that shares neither its own first character with
/// the replacement nor the replacement's first character with itself.
pub proof fn lemma_replaced_adds_none(
    s: Seq<char>,
    pat: Seq<char>,
    rep: Seq<char>,
    other: Seq<char>,
)
    requires
        pat.len() > 0,
        rep.len() > 0,
        other.len() > 0,
        !other.contains(rep[0]),
        !rep.contains(other[0]),
        contains(replaced(s, pat, rep), other),
    ensures
        contains(s, other),
    decreases s.len(),
{
    let r = replaced(s, pat, rep);
    let p = choose|i: int| occurs_at(r, other, i);
    assert(r.subrange(p, p + other.len())[0] == other[0]);
    if s.len() > 0 {
        if starts_with(s, pat) {
            let t = s.skip(pat.len() as int);
            let rt = replaced(t, pat, rep);
            if p < rep.len() {
                assert(rep[p] == other[0]);
            }
            assert(rt.subrange(p - rep.len(), p - rep.len() + other.len()) =~= other) by {
                assert forall|k: int| 0 <= k < other.len() implies rt[p - rep.len() + k]
                    == other[k] by {
                    assert(r.subrange(p, p + other.len())[k] == other[k]);
                }
            }
            assert(occurs_at(rt, other, p - rep.len()));
            lemma_replaced_adds_none(t, pat, rep, other);
            let i = choose|i: int| occurs_at(t, other, i);
            assert(s.subrange(i + pat.len(), i + pat.len() + other.len()) =~= t.subrange(
                i,
                i + other.len(),
            ));
            assert(occurs_at(s, other, i + pat.len()));
        } else if p == 0 {
            lemma_replaced_prefix(s, pat, rep, other);
            assert(occurs_at(s, other, 0));
        } else {
            let t = s.drop_first();
            let rt = replaced(t, pat, rep);
            assert(rt.subrange(p - 1, p - 1 + other.len()) =~= other) by {
                assert forall|k: int| 0 <= k < other.len() implies rt[p - 1 + k] == other[k] by {
                    assert(r.subrange(p, p + other.len())[k] == other[k]);
                }
            }
            assert(occurs_at(rt, other, p - 1));
            lemma_replaced_adds_none(t, pat, rep, other);
            let i = choose|i: int| occurs_at(t, other, i);
            assert(s.subrange(i + 1, i + 1 + other.len()) =~= t.subrange(i, i + other.len()));
            assert(occurs_at(s, other, i + 1));
        }
    }
}

/// Replacing a text removes it, where the replacement cannot take part in a new occurrence.
pub proof fn lemma_replaced_removes(s: Seq<char>, pat: Seq<char>, rep: Seq<char>)
    requires
        pat.len() > 0,
        rep.len() > 0,
        !pat.contains(rep[0]),
        !rep.contains(pat[0]),
    ensures
        !contains(replaced(s, pat, rep), pat),
    decreases s.len(),
{
    let r = replaced(s, pat, rep);
    if contains(r, pat) {
        let p = choose|i: int| occurs_at(r, pat, i);
        assert(r.subrange(p, p + pat.len())[0] == pat[0]);
        if s.len() > 0 {
            if starts_with(s, pat) {
                let t = s.skip(pat.len() as int);
                let rt = replaced(t, pat, rep);
                if p < rep.len() {
                    assert(rep[p] == pat[0]);
                }
                assert(rt.subrange(p - rep.len(), p - rep.len() + pat.len()) =~= pat) by {
                    assert forall|k: int| 0 <= k < pat.len() implies rt[p - rep.len() + k]
                        == pat[k] by {
                        assert(r.subrange(p, p + pat.len())[k] == pat[k]);
                    }
                }
                assert(occurs_at(rt, pat, p - rep.len()));
                lemma_replaced_removes(t, pat, rep);
            } else if p == 0 {
                lemma_replaced_prefix(s, pat, rep, pat);
            } else {
                let t = s.drop_first();
                let rt = replaced(t, pat, rep);
                assert(rt.subrange(p - 1, p - 1 + pat.len()) =~= pat) by {
                    assert forall|k: int| 0 <= k < pat.len() implies rt[p - 1 + k] == pat[k] by {
                        assert(r.subrange(p, p + pat.len())[k] == pat[k]);
                    }
                }
                assert(occurs_at(rt, pat, p - 1));
                lemma_replaced_removes(t, pat, rep);
            }
        }
    }
}

/// Replacing a text that does not occur changes nothing.
pub proof fn lemma_replaced_absent(s: Seq<char>, pat: Seq<char>, rep: Seq<char>)
    requires
        pat.len() > 0,
        !contains(s, pat),
    ensures
        replaced(s, pat, rep) == s,
    decreases s.len(),
{
    if s.len() == 0 {
        assert(s =~= Seq::empty());
    } else {
        if starts_with(s, pat) {
            assert(occurs_at(s, pat, 0));
        }
        let t = s.drop_first();
        if contains(t, pat) {
            assert(s.subrange(1, s.len() as int) =~= t);
            lemma_contains_part(s, 1, s.len() as int, pat);
        }
        lemma_replaced_absent(t, pat, rep);
        assert(seq![s[0]] + t =~= s);
    }
}

/// Every replacement makes the same difference in bytes.
pub proof fn lemma_replaced_bytes(s: Seq<char>, pat: Seq<char>, rep: Seq<char>)
    requires
        pat.len() > 0,
        byte_count(rep) >= byte_count(pat),
    ensures
        byte_count(replaced(s, pat, rep)) == byte_count(s) + replacements(s, pat) * (byte_count(rep)
            - byte_count(pat)),
    decreases s.len(),
{
    let d = byte_count(rep) - byte_count(pat);
    if s.len() == 0 {
        assert(s =~= replaced(s, pat, rep));
        assert(0 * d == 0);
    } else if starts_with(s, pat) {
        let t = s.skip(pat.len() as int);
        lemma_replaced_bytes(t, pat, rep);
        lemma_byte_count_concat(rep, replaced(t, pat, rep));
        lemma_byte_count_concat(pat, t);
        assert(s =~= pat + t);
        let n = replacements(t, pat);
        assert((n + 1) * d == n * d + d) by (nonlinear_arith);
    } else {
        let t = s.drop_first();
        lemma_replaced_bytes(t, pat, rep);
        lemma_byte_count_concat(seq![s[0]], replaced(t, pat, rep));
        lemma_byte_count_concat(seq![s[0]], t);
        assert(s =~= seq![s[0]] + t);
    }
}

/// A part that does not hold the first character of `pat` is left alone.
pub proof fn lemma_replaced_skips(a: Seq<char>, b: Seq<char>, pat: Seq<char>, rep: Seq<char>)
    requires
        pat.len() > 0,
        !a.contains(pat[0]),
    ensures
        replaced(a + b, pat, rep) == a + replaced(b, pat, rep),
        replacements(a + b, pat) == replacements(b, pat),
    decreases a.len(),
{
    let s = a + b;
    if a.len() == 0 {
        assert(s =~= b);
        assert(a + replaced(b, pat, rep) =~= replaced(b, pat, rep));
    } else {
        let rest = a.drop_first();
        if starts_with(s, pat) {
            assert(s.subrange(0, pat.len() as int)[0] == pat[0]);
            assert(a.contains(a[0]));
        }
        if rest.contains(pat[0]) {
            let k = choose|k: int| 0 <= k < rest.len() && rest[k] == pat[0];
            assert(a[k + 1] == pat[0]);
        }
        lemma_replaced_skips(rest, b, pat, rep);
        assert(s.drop_first() =~= rest + b);
        assert(replaced(s, pat, rep) =~= a + replaced(b, pat, rep));
    }
}

/// What is replaced on either side of a character that `pat` does not hold is replaced apart.
pub proof fn lemma_replaced_concat(a: Seq<char>, b: Seq<char>, pat: Seq<char>, rep: Seq<char>)
    requires
        pat.len() > 0,
        a.len() > 0 ==> !pat.contains(a.last()),
    ensures
        replaced(a + b, pat, rep) == replaced(a, pat, rep) + replaced(b, pat, rep),
        a.len() > 0 ==> replaced(a, pat, rep).len() > 0 && replaced(a, pat, rep).last()
            == a.last(),
    decreases a.len(),
{
    let s = a + b;
    if a.len() == 0 {
        assert(s =~= b);
        assert(replaced(a, pat, rep) + replaced(b, pat, rep) =~= replaced(b, pat, rep));
    } else if starts_with(s, pat) {
        let n = pat.len() as int;
        if n >= a.len() {
            assert(s.subrange(0, n)[a.len() - 1] == pat[a.len() - 1]);
            assert(pat.contains(a.last()));
        }
        let rest = a.skip(n);
        assert(rest.last() == a.last());
        assert(a.subrange(0, n) =~= s.subrange(0, n));
        assert(s.skip(n) =~= rest + b);
        lemma_replaced_concat(rest, b, pat, rep);
        assert(replaced(s, pat, rep) =~= replaced(a, pat, rep) + replaced(b, pat, rep));
    } else {
        if starts_with(a, pat) {
            assert(s.subrange(0, pat.len() as int) =~= a.subrange(0, pat.len() as int));
        }
        let rest = a.drop_first();
        if rest.len() > 0 {
            assert(rest.last() == a.last());
        }
        assert(s.drop_first() =~= rest + b);
        lemma_replaced_concat(rest, b, pat, rep);
        assert(replaced(s, pat, rep) =~= replaced(a, pat, rep) + replaced(b, pat, rep));
    }
}

/// A replacement changes nothing in the number of occurrences of a text that cannot overlap
/// with what is replaced or with what replaces it.
pub proof fn lemma_replaced_keeps_number(
    s: Seq<char>,
    pat: Seq<char>,
    rep: Seq<char>,
    other: Seq<char>,
)
    requires
        pat.len() > 0,
        rep.len() > 0,
        other.len() > 0,
        !other.contains(rep[0]),
        !rep.contains(other[0]),
        !pat.drop_first().contains(other[0]),
        !other.drop_first().contains(pat[0]),
        !starts_with(pat, other),
        !starts_with(other, pat),
    ensures
        replacements(replaced(s, pat, rep), other) == replacements(s, other),
    decreases s.len(),
{
    let r = replaced(s, pat, rep);
    if s.len() > 0 {
        if starts_with(s, pat) {
            let t = s.skip(pat.len() as int);
            let rt = replaced(t, pat, rep);
            lemma_replaced_keeps_number(t, pat, rep, other);
            lemma_replaced_skips(rep, rt, other, rep);
            if starts_with(s, other) {
                if other.len() <= pat.len() {
                    assert(pat.subrange(0, other.len() as int) =~= s.subrange(
                        0,
                        pat.len() as int,
                    ).subrange(0, other.len() as int));
                    assert(pat.subrange(0, other.len() as int) =~= s.subrange(0, other.len() as int));
                } else {
                    assert(other.subrange(0, pat.len() as int) =~= s.subrange(
                        0,
                        other.len() as int,
                    ).subrange(0, pat.len() as int));
                    assert(other.subrange(0, pat.len() as int) =~= s.subrange(0, pat.len() as int));
                }
            }
            assert(s =~= pat + t);
            assert(s.drop_first() =~= pat.drop_first() + t);
            lemma_replaced_skips(pat.drop_first(), t, other, rep);
        } else if starts_with(s, other) {
            let t = s.skip(other.len() as int);
            let rt = replaced(t, pat, rep);
            lemma_replaced_keeps_number(t, pat, rep, other);
            assert(s =~= other + t);
            assert(s.drop_first() =~= other.drop_first() + t);
            lemma_replaced_skips(other.drop_first(), t, pat, rep);
            assert(r =~= other + rt) by {
                assert(seq![s[0]] + (other.drop_first() + rt) =~= other + rt);
            }
            assert(r.subrange(0, other.len() as int) =~= other);
            assert(r.skip(other.len() as int) =~= rt);
        } else {
            let t = s.drop_first();
            lemma_replaced_keeps_number(t, pat, rep, other);
            if starts_with(r, other) {
                lemma_replaced_prefix(s, pat, rep, other);
            }
            assert(r.drop_first() =~= replaced(t, pat, rep));
        }
    }
}

/// A part of a text holds nothing that the text does not hold.
pub proof fn lemma_contains_part(s: Seq<char>, from: int, to: int, pat: Seq<char>)
    requires
        0 <= from <= to <= s.len(),
        contains(s.subrange(from, to), pat),
    ensures
        contains(s, pat),
{
    let t = s.subrange(from, to);
    let i = choose|i: int| occurs_at(t, pat, i);
    assert(s.subrange(from + i, from + i + pat.len()) =~= t.subrange(i, i + pat.len()));
    assert(occurs_at(s, pat, from + i));
}

pub proof fn lemma_joined_push(parts: Seq<Seq<char>>, part: Seq<char>, sep: Seq<char>)
    ensures
        parts.len() == 0 ==> joined(parts.push(part), sep) == part,
        parts.len() > 0 ==> joined(parts.push(part), sep) == joined(parts, sep) + sep + part,
{
    assert(parts.push(part).drop_last() =~= parts);
}

/// Whether a character is white space.
pub fn space(c: char) -> (r: bool)
    ensures
        r == is_space(c),
{
    ('\u{9}' <= c && c <= '\u{d}') || c == ' ' || c == '\u{85}' || c == '\u{a0}' || c
        == '\u{1680}' || ('\u{2000}' <= c && c <= '\u{200a}') || c == '\u{2028}' || c
        == '\u{2029}' || c == '\u{202f}' || c == '\u{205f}' || c == '\u{3000}'
}

/// The string of the characters `from..to` of `v`.
pub fn string_of(v: &[char], from: usize, to: usize) -> (s: String)
    requires
        from <= to <= v@.len(),
    ensures
        s@ == v@.subrange(from as int, to as int),
{
    let mut s = String::new();
    let mut i: usize = from;
    while i < to
        invariant
            from <= i <= to <= v@.len(),
            s@ == v@.subrange(from as int, i as int),
        decreases to - i,
    {
        s.push(v[i]);
        assert(v@.subrange(from as int, i + 1) =~= v@.subrange(from as int, i as int).push(
            v@[i as int],
        ));
        i = i + 1;
    }
    s
}

/// A string without the white space around it.
pub fn trim(s: &str) -> (r: &str)
    ensures
        r@ == trimmed(s@),
{
    let v = chars_of(s);
    let n: usize = v.len();
    let mut from: usize = 0;
    assert(s@.skip(0) =~= s@);
    while from < n && space(v[from])
        invariant
            from <= n,
            n == v@.len(),
            v@ == s@,
            trimmed_start(s@) == trimmed_start(s@.skip(from as int)),
        decreases n - from,
    {
        assert(s@.skip(from as int).drop_first() =~= s@.skip(from + 1));
        from = from + 1;
    }
    let ghost t = s@.skip(from as int);
    let mut to: usize = n;
    assert(s@.subrange(from as int, n as int) =~= t);
    while from < to && space(v[to - 1])
        invariant
            from <= to <= n,
            n == v@.len(),
            v@ == s@,
            trimmed_end(t) == trimmed_end(s@.subrange(from as int, to as int)),
        decreases to - from,
    {
        assert(s@.subrange(from as int, to as int).drop_last() =~= s@.subrange(
            from as int,
            to - 1,
        ));
        to = to - 1;
    }
    s.substring_char(from, to)
}

/// The words of a string, in order.
pub fn split_words(s: &str) -> (r: Vec<String>)
    ensures
        views(r@) == words(s@),
{
    let v = chars_of(s);
    let n: usize = v.len();
    let mut r: Vec<String> = Vec::new();
    let mut i: usize = 0;
    assert(s@.skip(0) =~= s@);
    assert(views(r@) + words(s@) =~= words(s@));
    while i < n
        invariant
            i <= n,
            n == v@.len(),
            v@ == s@,
            views(r@) + words(s@.skip(i as int)) == words(s@),
        decreases n - i,
    {
        let ghost rest = s@.skip(i as int);
        if space(v[i]) {
            assert(rest.drop_first() =~= s@.skip(i + 1));
            i = i + 1;
        } else {
            let mut j: usize = i;
            while j < n && !space(v[j])
                invariant
                    i <= j <= n,
                    n == v@.len(),
                    v@ == s@,
                    forall|k: int| i <= k < j ==> !is_space(#[trigger] s@[k]),
                decreases n - j,
            {
                j = j + 1;
            }
            proof {
                assert forall|k: int| 0 <= k < j - i implies !is_space(#[trigger] rest[k]) by {
                    assert(rest[k] == s@[i + k]);
                }
                lemma_word_len_is(rest, j - i);
                assert(j > i) by {
                    assert(rest[0] == s@[i as int]);
                }
                assert(rest.take(j - i) =~= s@.subrange(i as int, j as int));
                assert(rest.skip(j - i) =~= s@.skip(j as int));
            }
            let ghost before = views(r@);
            let word = string_of(v.as_slice(), i, j);
            r.push(word);
            assert(views(r@) =~= before.push(word@));
            assert(before.push(word@) + words(s@.skip(j as int)) =~= before + words(rest));
            i = j;
        }
    }
    assert(s@.skip(n as int).len() == 0);
    assert(views(r@) + words(s@.skip(n as int)) =~= views(r@));
    r
}

/// The strings in order, with `sep` between neighbours.
pub fn join(parts: &Vec<String>, sep: &str) -> (r: String)
    ensures
        r@ == joined(views(parts@), sep@),
{
    let mut r = String::new();
    let n: usize = parts.len();
    let mut i: usize = 0;
    let ghost all = views(parts@);
    assert(all.take(0) =~= Seq::empty());
    while i < n
        invariant
            i <= n,
            n == parts@.len(),
            all == views(parts@),
            r@ == joined(all.take(i as int), sep@),
        decreases n - i,
    {
        proof {
            lemma_joined_push(all.take(i as int), all[i as int], sep@);
            assert(all.take(i + 1) =~= all.take(i as int).push(all[i as int]));
        }
        if i > 0 {
            r.append(sep);
            r.append(parts[i].as_str());
        } else {
            r.append(parts[i].as_str());
            assert(r@ =~= all[0]);
        }
        i = i + 1;
    }
    assert(all.take(n as int) =~= all);
    r
}

/// The pieces of a string between occurrences of `c`.
pub fn split(s: &str, c: char) -> (r: Vec<String>)
    ensures
        views(r@) == split_on(s@, c),
{
    let v = chars_of(s);
    let n: usize = v.len();
    let mut r: Vec<String> = Vec::new();
    let mut piece = String::new();
    let mut i: usize = 0;
    assert(s@.take(0) =~= Seq::empty());
    assert(views(r@).push(piece@) =~= split_on(s@.take(0), c));
    while i < n
        invariant
            i <= n,
            n == v@.len(),
            v@ == s@,
            views(r@).push(piece@) == split_on(s@.take(i as int), c),
        decreases n - i,
    {
        let ghost before = views(r@);
        let ghost head = s@.take(i + 1);
        assert(head.drop_last() =~= s@.take(i as int));
        assert(before.push(piece@).drop_last() =~= before);
        if v[i] == c {
            r.push(piece);
            assert(views(r@) =~= before.push(piece@));
            piece = String::new();
        } else {
            piece.push(v[i]);
        }
        i = i + 1;
    }
    assert(s@.take(n as int) =~= s@);
    let ghost before = views(r@);
    r.push(piece);
    assert(views(r@) =~= before.push(piece@));
    r
}

/// Whether `pat` stands in `v` at position `i`.
fn matches_at(v: &[char], pat: &[char], i: usize) -> (r: bool)
    requires
        i <= v@.len(),
    ensures
        r == occurs_at(v@, pat@, i as int),
{
    if pat.len() > v.len() - i {
        return false;
    }
    let n: usize = pat.len();
    let total: usize = v.len();
    let mut k: usize = 0;
    while k < n
        invariant
            k <= n,
            n == pat@.len(),
            total == v@.len(),
            i + n <= total,
            forall|j: int| 0 <= j < k ==> v@[i + j] == pat@[j],
        decreases n - k,
    {
        if v[i + k] != pat[k] {
            assert(v@.subrange(i as int, i + n)[k as int] != pat@[k as int]);
            return false;
        }
        k = k + 1;
    }
    assert(v@.subrange(i as int, i + n) =~= pat@);
    true
}

/// Whether a string begins with another.
pub fn begins_with(s: &str, pat: &str) -> (r: bool)
    ensures
        r == starts_with(s@, pat@),
{
    let v = chars_of(s);
    let p = chars_of(pat);
    matches_at(v.as_slice(), p.as_slice(), 0)
}

/// Whether a string ends with another.
pub fn finishes_with(s: &str, pat: &str) -> (r: bool)
    ensures
        r == ends_with(s@, pat@),
{
    let v = chars_of(s);
    let p = chars_of(pat);
    if p.len() > v.len() {
        return false;
    }
    matches_at(v.as_slice(), p.as_slice(), v.len() - p.len())
}

/// A string with every occurrence of `pat` replaced by `rep`.
pub fn replace_all(s: &str, pat: &str, rep: &str) -> (r: String)
    requires
        pat@.len() > 0,
    ensures
        r@ == replaced(s@, pat@, rep@),
{
    let v = chars_of(s);
    let p = chars_of(pat);
    let n: usize = v.len();
    let mut r = String::new();
    let mut i: usize = 0;
    assert(s@.skip(0) =~= s@);
    assert(r@ + replaced(s@, pat@, rep@) =~= replaced(s@, pat@, rep@));
    while i < n
        invariant
            i <= n,
            n == v@.len(),
            v@ == s@,
            p@ == pat@,
            pat@.len() > 0,
            r@ + replaced(s@.skip(i as int), pat@, rep@) == replaced(s@, pat@, rep@),
        decreases n - i,
    {
        let ghost rest = s@.skip(i as int);
        let ghost before = r@;
        let hit = matches_at(v.as_slice(), p.as_slice(), i);
        proof {
            if i + pat@.len() <= n {
                assert(rest.subrange(0, pat@.len() as int) =~= s@.subrange(
                    i as int,
                    i + pat@.len(),
                ));
            }
            assert(starts_with(rest, pat@) == hit);
        }
        if hit {
            r.append(rep);
            assert(rest.skip(pat@.len() as int) =~= s@.skip(i + pat@.len()));
            i = i + p.len();
            assert(before + (rep@ + replaced(s@.skip(i as int), pat@, rep@)) =~= r@ + replaced(
                s@.skip(i as int),
                pat@,
                rep@,
            ));
        } else {
            r.push(v[i]);
            assert(rest.drop_first() =~= s@.skip(i + 1));
            assert(rest[0] == s@[i as int]);
            i = i + 1;
            assert(before + (seq![rest[0]] + replaced(s@.skip(i as int), pat@, rep@)) =~= r@
                + replaced(s@.skip(i as int), pat@, rep@));
        }
    }
    assert(s@.skip(n as int).len() == 0);
    assert(r@ + replaced(s@.skip(n as int), pat@, rep@) =~= r@);
    r
}

/// Trimming takes off all white space at both ends, and nothing else.
pub proof fn law_trimming_takes_off_the_space_around(s: Seq<char>)
    ensures
        exists|a: int, b: int|
            {
                &&& 0 <= a <= b <= s.len()
                &&& trimmed(s) == #[trigger] s.subrange(a, b)
                &&& forall|i: int| 0 <= i < a || b <= i < s.len() ==> is_space(#[trigger] s[i])
                &&& a < b ==> !is_space(s[a]) && !is_space(s[b - 1])
            },
{
    let a = lemma_trimmed_start(s);
    let t = trimmed_start(s);
    let n = lemma_trimmed_end(t);
    assert(trimmed(s) =~= s.subrange(a, a + n));
    assert forall|i: int| 0 <= i < a || a + n <= i < s.len() implies is_space(#[trigger] s[i]) by {
        if i >= a {
            assert(t[i - a] == s[i]);
        }
    }
    if n > 0 {
        assert(t[0] == s[a]);
        assert(t[n - 1] == s[a + n - 1]);
    }
}

proof fn lemma_trimmed_start(s: Seq<char>) -> (a: int)
    ensures
        0 <= a <= s.len(),
        trimmed_start(s) == s.skip(a),
        forall|i: int| 0 <= i < a ==> is_space(#[trigger] s[i]),
        a < s.len() ==> !is_space(s[a]),
    decreases s.len(),
{
    if s.len() > 0 && is_space(s[0]) {
        let rest = s.drop_first();
        let a = lemma_trimmed_start(rest);
        assert(rest.skip(a) =~= s.skip(a + 1));
        assert forall|i: int| 0 <= i < a + 1 implies is_space(#[trigger] s[i]) by {
            if i > 0 {
                assert(rest[i - 1] == s[i]);
            }
        }
        if a < rest.len() {
            assert(rest[a] == s[a + 1]);
        }
        a + 1
    } else {
        assert(s.skip(0) =~= s);
        0
    }
}

proof fn lemma_trimmed_end(s: Seq<char>) -> (n: int)
    ensures
        0 <= n <= s.len(),
        trimmed_end(s) == s.take(n),
        forall|i: int| n <= i < s.len() ==> is_space(#[trigger] s[i]),
        n > 0 ==> !is_space(s[n - 1]),
    decreases s.len(),
{
    if s.len() > 0 && is_space(s.last()) {
        let rest = s.drop_last();
        let n = lemma_trimmed_end(rest);
        assert(rest.take(n) =~= s.take(n));
        assert forall|i: int| n <= i < s.len() implies is_space(#[trigger] s[i]) by {
            if i < rest.len() {
                assert(rest[i] == s[i]);
            }
        }
        if n > 0 {
            assert(rest[n - 1] == s[n - 1]);
        }
        n
    } else {
        assert(s.take(s.len() as int) =~= s);
        s.len() as int
    }
}

/// White space, and nothing else, parts words: a text without it is one word, and the words on
/// either side of it are those of the two sides.
pub proof fn law_white_space_parts_words(a: Seq<char>, space: char, b: Seq<char>)
    requires
        is_space(space),
    ensures
        words(a + seq![space] + b) == words(a) + words(b),
        a.len() > 0 && (forall|i: int| 0 <= i < a.len() ==> !is_space(#[trigger] a[i])) ==> words(a)
            == seq![a],
        a.len() == 0 ==> words(a).len() == 0,
    decreases a.len(),
{
    let s = a + seq![space] + b;
    if a.len() == 0 {
        assert(s.drop_first() =~= b);
        assert(words(a) + words(b) =~= words(b));
    } else if is_space(a[0]) {
        law_white_space_parts_words(a.drop_first(), space, b);
        assert(s.drop_first() =~= a.drop_first() + seq![space] + b);
    } else {
        lemma_word_len(a);
        let w = word_len(a) as int;
        assert forall|k: int| 0 <= k < w implies !is_space(#[trigger] s[k]) by {
            assert(s[k] == a[k]);
        }
        if w < a.len() {
            assert(s[w] == a[w]);
        } else {
            assert(s[w] == space);
        }
        lemma_word_len_is(s, w);
        assert(w > 0);
        law_white_space_parts_words(a.skip(w), space, b);
        assert(s.take(w) =~= a.take(w));
        assert(s.skip(w) =~= a.skip(w) + seq![space] + b);
        assert(words(s) =~= words(a) + words(b));
        if forall|i: int| 0 <= i < a.len() ==> !is_space(#[trigger] a[i]) {
            assert(w == a.len());
            assert(a.take(w) =~= a);
            assert(a.skip(w).len() == 0);
            assert(words(a) =~= seq![a]);
        }
    }
}

/// A separator, and nothing else, parts a text: one without it is one piece, and the pieces on
/// either side of it are those of the two sides.
pub proof fn law_separator_parts_text(a: Seq<char>, c: char, b: Seq<char>)
    ensures
        split_on(a + seq![c] + b, c) == split_on(a, c) + split_on(b, c),
        !a.contains(c) ==> split_on(a, c) == seq![a],
    decreases b.len(),
{
    lemma_split_whole(a, c);
    let s = a + seq![c] + b;
    if b.len() == 0 {
        assert(s.drop_last() =~= a);
        assert(split_on(s, c) =~= split_on(a, c) + split_on(b, c));
    } else {
        let rest = b.drop_last();
        law_separator_parts_text(a, c, rest);
        assert(s.drop_last() =~= a + seq![c] + rest);
        lemma_split_on_nonempty(rest, c);
        assert(s.last() == b.last());
        assert(split_on(s, c) =~= split_on(a, c) + split_on(b, c));
    }
}

proof fn lemma_split_whole(a: Seq<char>, c: char)
    ensures
        !a.contains(c) ==> split_on(a, c) == seq![a],
    decreases a.len(),
{
    if !a.contains(c) {
        if a.len() == 0 {
            assert(split_on(a, c)[0] =~= a);
            assert(split_on(a, c) =~= seq![a]);
        } else {
            let rest = a.drop_last();
            assert(!rest.contains(c)) by {
                if rest.contains(c) {
                    let i = choose|i: int| 0 <= i < rest.len() && rest[i] == c;
                    assert(a[i] == c);
                }
            }
            lemma_split_whole(rest, c);
            assert(a[a.len() - 1] != c);
            assert(rest.push(a.last()) =~= a);
            assert(split_on(a, c) =~= seq![a]);
        }
    }
}

/// Joining puts the separator between neighbours only, and undoes a split.
pub proof fn law_joining_separates_neighbours(
    parts: Seq<Seq<char>>,
    part: Seq<char>,
    sep: Seq<char>,
    s: Seq<char>,
    c: char,
)
    ensures
        joined(seq![part], sep) == part,
        parts.len() > 0 ==> joined(parts.push(part), sep) == joined(parts, sep) + sep + part,
        joined(split_on(s, c), seq![c]) == s,
{
    lemma_joined_push(parts, part, sep);
    lemma_split_joined(s, c);
}

/// Replacing goes from left to right: what stands before the first occurrence stays, then comes
/// the replacement, and the rest is replaced in turn. A text without an occurrence stays.
pub proof fn law_replacing_goes_from_left_to_right(
    before: Seq<char>,
    rest: Seq<char>,
    pat: Seq<char>,
    rep: Seq<char>,
)
    requires
        pat.len() > 0,
    ensures
        !contains(before, pat) ==> replaced(before, pat, rep) == before,
        (forall|i: int| 0 <= i < before.len() ==> !occurs_at(before + pat + rest, pat, i))
            ==> replaced(before + pat + rest, pat, rep) == before + rep + replaced(rest, pat, rep),
    decreases before.len(),
{
    if !contains(before, pat) {
        lemma_replaced_absent(before, pat, rep);
    }
    let s = before + pat + rest;
    if forall|i: int| 0 <= i < before.len() ==> !occurs_at(s, pat, i) {
        if before.len() == 0 {
            assert(s.subrange(0, pat.len() as int) =~= pat);
            assert(s.skip(pat.len() as int) =~= rest);
            assert(before + rep + replaced(rest, pat, rep) =~= rep + replaced(rest, pat, rep));
        } else {
            let less = before.drop_first();
            let t = less + pat + rest;
            assert(s.drop_first() =~= t);
            assert forall|i: int| 0 <= i < less.len() implies !occurs_at(t, pat, i) by {
                if occurs_at(t, pat, i) {
                    assert(s.subrange(i + 1, i + 1 + pat.len()) =~= t.subrange(i, i + pat.len()));
                    assert(occurs_at(s, pat, i + 1));
                }
            }
            law_replacing_goes_from_left_to_right(less, rest, pat, rep);
            assert(!occurs_at(s, pat, 0));
            assert(replaced(s, pat, rep) =~= before + rep + replaced(rest, pat, rep));
        }
    }
}

/// What is replaced on either side of a place is replaced apart, where the second side starts
/// with a character that stands at the start of `pat` only, if in it at all.
pub proof fn lemma_replaced_apart(a: Seq<char>, b: Seq<char>, pat: Seq<char>, rep: Seq<char>)
    requires
        pat.len() > 0,
        b.len() > 0 ==> !pat.drop_first().contains(b[0]),
    ensures
        replaced(a + b, pat, rep) == replaced(a, pat, rep) + replaced(b, pat, rep),
    decreases a.len(),
{
    let s = a + b;
    if a.len() == 0 {
        assert(s =~= b);
        assert(replaced(a, pat, rep) + replaced(b, pat, rep) =~= replaced(b, pat, rep));
    } else if starts_with(s, pat) {
        let n = pat.len() as int;
        if n > a.len() {
            assert(s.subrange(0, n)[a.len() as int] == pat[a.len() as int]);
            assert(s[a.len() as int] == b[0]);
            assert(pat.drop_first()[a.len() - 1] == b[0]);
        }
        assert(a.subrange(0, n) =~= s.subrange(0, n));
        assert(s.skip(n) =~= a.skip(n) + b);
        lemma_replaced_apart(a.skip(n), b, pat, rep);
        assert(replaced(s, pat, rep) =~= replaced(a, pat, rep) + replaced(b, pat, rep));
    } else {
        if starts_with(a, pat) {
            assert(s.subrange(0, pat.len() as int) =~= a.subrange(0, pat.len() as int));
        }
        assert(s.drop_first() =~= a.drop_first() + b);
        lemma_replaced_apart(a.drop_first(), b, pat, rep);
        assert(replaced(s, pat, rep) =~= replaced(a, pat, rep) + replaced(b, pat, rep));
    }
}

/// White space is the tab, the line breaks, the space, and the other characters that Unicode
/// calls so, by their numbers. Nothing joined is an empty text.
pub proof fn law_white_space_is_that_of_unicode(c: char, sep: Seq<char>)
    ensures
        is_space(c) <==> {
            let n = c as int;
            ||| n == 9 || n == 10 || n == 11 || n == 12 || n == 13 || n == 32
            ||| n == 133 || n == 160 || n == 5760 || 8192 <= n <= 8202
            ||| n == 8232 || n == 8233 || n == 8239 || n == 8287 || n == 12288
        },
        joined(Seq::empty(), sep).len() == 0,
{
}

} // verus!
