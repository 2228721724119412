//! Strings as sequences of characters, measured in UTF-8 bytes.

use vstd::prelude::*;
use vstd::utf8::*;

verus! {

/// Number of bytes that `s` takes in UTF-8.
pub open spec fn byte_count(s: Seq<char>) -> nat {
    encode_utf8(s).len()
}

/// Number of bytes that one character takes in UTF-8.
pub open spec fn char_bytes(c: char) -> nat {
    encode_scalar(c as u32).len()
}

/// The longest prefix of `s` that fits in `max` bytes.
pub open spec fn clipped(s: Seq<char>, max: int) -> Seq<char>
    decreases s.len(),
{
    if s.len() == 0 || char_bytes(s[0]) > max {
        Seq::empty()
    } else {
        seq![s[0]] + clipped(s.drop_first(), max - char_bytes(s[0]))
    }
}

/// The texts of a list of strings.
pub open spec fn views(v: Seq<String>) -> Seq<Seq<char>> {
    v.map_values(|s: String| s@)
}

/// The text of an optional string.
pub open spec fn opt_view(s: Option<String>) -> Option<Seq<char>> {
    match s {
        Some(t) => Some(t@),
        None => None,
    }
}

pub broadcast proof fn lemma_views_push(v: Seq<String>, s: String)
    ensures
        #[trigger] views(v.push(s)) == views(v).push(s@),
{
    assert(views(v.push(s)) =~= views(v).push(s@));
}

pub broadcast proof fn lemma_encode_concat(a: Seq<char>, b: Seq<char>)
    ensures
        #[trigger] encode_utf8(a + b) == encode_utf8(a) + encode_utf8(b),
    decreases a.len(),
{
    if a.len() == 0 {
        assert(a + b =~= b);
        assert(encode_utf8(a) + encode_utf8(b) =~= encode_utf8(b));
    } else {
        lemma_encode_concat(a.drop_first(), b);
        assert((a + b).drop_first() =~= a.drop_first() + b);
        assert((a + b)[0] == a[0]);
        assert(encode_scalar(a[0] as u32) + (encode_utf8(a.drop_first()) + encode_utf8(b)) =~= (
        encode_scalar(a[0] as u32) + encode_utf8(a.drop_first())) + encode_utf8(b));
    }
}

/// Byte counts add up over concatenation.
pub broadcast proof fn lemma_byte_count_concat(a: Seq<char>, b: Seq<char>)
    ensures
        #[trigger] byte_count(a + b) == byte_count(a) + byte_count(b),
{
    lemma_encode_concat(a, b);
}

pub proof fn lemma_byte_count_cons(c: char, s: Seq<char>)
    ensures
        byte_count(seq![c] + s) == char_bytes(c) + byte_count(s),
        1 <= char_bytes(c) <= 4,
{
    assert((seq![c] + s).drop_first() =~= s);
    assert((seq![c] + s)[0] == c);
}

/// Two texts with the same bytes are the same text.
pub proof fn lemma_encode_injective(a: Seq<char>, b: Seq<char>)
    requires
        encode_utf8(a) == encode_utf8(b),
    ensures
        a == b,
{
    encode_utf8_decode_utf8(a);
    encode_utf8_decode_utf8(b);
}

pub broadcast proof fn lemma_ascii_byte_count(s: Seq<char>)
    requires
        is_ascii_chars(s),
    ensures
        #[trigger] byte_count(s) == s.len(),
{
    is_ascii_chars_encode_utf8(s);
}

/// A clipped text is a prefix that fits; it is the whole text when that fits, and otherwise the
/// next character would not have fitted.
pub proof fn lemma_clipped(s: Seq<char>, max: int)
    requires
        max >= 0,
    ensures
        clipped(s, max).len() <= s.len(),
        clipped(s, max) == s.take(clipped(s, max).len() as int),
        byte_count(clipped(s, max)) <= max,
        byte_count(s) <= max ==> clipped(s, max) == s,
        clipped(s, max).len() < s.len() ==> byte_count(s.take(clipped(s, max).len() as int + 1)) > max,
    decreases s.len(),
{
    if s.len() == 0 {
        assert(s =~= Seq::empty());
    } else {
        let c = s[0];
        let rest = s.drop_first();
        lemma_byte_count_cons(c, rest);
        assert(s =~= seq![c] + rest);
        if char_bytes(c) > max {
            assert(s.take(1) =~= seq![c] + Seq::<char>::empty());
            lemma_byte_count_cons(c, Seq::empty());
            assert(s.take(0) =~= Seq::empty());
        } else {
            let m = max - char_bytes(c);
            lemma_clipped(rest, m);
            let r = clipped(rest, m);
            lemma_byte_count_cons(c, r);
            assert(seq![c] + r =~= s.take(r.len() as int + 1));
            if r.len() < rest.len() {
                assert(s.take(r.len() as int + 2) =~= seq![c] + rest.take(r.len() as int + 1));
                lemma_byte_count_cons(c, rest.take(r.len() as int + 1));
            }
        }
    }
}

/// Clipping a text behind a part that is kept whole.
pub proof fn lemma_clipped_concat(a: Seq<char>, b: Seq<char>, max: int)
    requires
        byte_count(a) <= max,
    ensures
        clipped(a + b, max) == a + clipped(b, max - byte_count(a)),
    decreases a.len(),
{
    if a.len() == 0 {
        assert(a + b =~= b);
        assert(a + clipped(b, max) =~= clipped(b, max));
    } else {
        let rest = a.drop_first();
        lemma_byte_count_cons(a[0], rest);
        assert(seq![a[0]] + rest =~= a);
        assert((a + b).drop_first() =~= rest + b);
        lemma_clipped_concat(rest, b, max - char_bytes(a[0]));
        assert(clipped(a + b, max) =~= a + clipped(b, max - byte_count(a)));
    }
}

/// Clipping a text to the size of a leading part gives that part.
pub proof fn lemma_clipped_split(a: Seq<char>, b: Seq<char>)
    ensures
        clipped(a + b, byte_count(a) as int) == a,
{
    lemma_clipped_concat(a, b, byte_count(a) as int);
    if b.len() > 0 {
        lemma_byte_count_cons(b[0], b.drop_first());
    }
    assert(clipped(a + b, byte_count(a) as int) =~= a);
}

/// A leading part ends on a character boundary.
pub proof fn lemma_boundary(a: Seq<char>, b: Seq<char>)
    ensures
        is_char_boundary(encode_utf8(a + b), byte_count(a) as int),
    decreases a.len(),
{
    let s = a + b;
    let bytes = encode_utf8(s);
    encode_utf8_valid_utf8(s);
    lemma_encode_concat(a, b);
    if a.len() > 0 {
        let rest = a.drop_first();
        lemma_byte_count_cons(a[0], rest);
        assert(seq![a[0]] + rest =~= a);
        assert(s.drop_first() =~= rest + b);
        encode_utf8_first_scalar(s);
        assert(pop_first_scalar(bytes) =~= encode_utf8(rest + b));
        lemma_boundary(rest, b);
    }
}

/// The greatest character boundary at or below `max` ends the clipped prefix.
proof fn lemma_clipped_at_boundary(s: Seq<char>, end: int, max: int)
    requires
        0 <= end <= max < byte_count(s),
        is_char_boundary(encode_utf8(s), end),
        forall|j: int| end < j <= max ==> !#[trigger] is_char_boundary(encode_utf8(s), j),
    ensures
        encode_utf8(clipped(s, max)) == encode_utf8(s).subrange(0, end),
    decreases s.len(),
{
    let bytes = encode_utf8(s);
    encode_utf8_valid_utf8(s);
    encode_utf8_first_scalar(s);
    let w = char_bytes(s[0]) as int;
    let rest = s.drop_first();
    lemma_byte_count_cons(s[0], rest);
    assert(s =~= seq![s[0]] + rest);
    assert(pop_first_scalar(bytes) =~= encode_utf8(rest));
    encode_utf8_valid_utf8(rest);
    if w > max {
        if end > 0 {
            assert(is_char_boundary(encode_utf8(rest), end - w));
        }
        assert(bytes.subrange(0, 0) =~= Seq::empty());
    } else {
        assert(is_char_boundary(encode_utf8(rest), 0));
        assert(is_char_boundary(bytes, w));
        assert(end >= w);
        assert forall|j: int| end - w < j <= max - w implies !#[trigger] is_char_boundary(
            encode_utf8(rest),
            j,
        ) by {
            assert(!is_char_boundary(bytes, j + w));
        }
        lemma_clipped_at_boundary(rest, end - w, max - w);
        let r = clipped(rest, max - w);
        assert((seq![s[0]] + r).drop_first() =~= r);
        assert(encode_utf8(seq![s[0]] + r) =~= bytes.subrange(0, end));
    }
}

/// Length of a string in bytes.
pub fn byte_len(s: &str) -> (n: usize)
    ensures
        n == byte_count(s@),
{
    s.as_bytes().len()
}

/// Truncates to at most `max` bytes without splitting a character.
pub fn truncate_at_char_boundary(s: &str, max: usize) -> (r: &str)
    ensures
        r@ == clipped(s@, max as int),
{
    let len: usize = byte_len(s);
    if len <= max {
        proof {
            lemma_clipped(s@, max as int);
        }
        return s;
    }
    let mut end: usize = max;
    proof {
        encode_utf8_valid_utf8(s@);
        is_char_boundary_start_end_of_seq(encode_utf8(s@));
    }
    while end > 0 && !s.is_char_boundary(end)
        invariant
            end <= max < byte_count(s@),
            forall|j: int| end < j <= max ==> !#[trigger] is_char_boundary(encode_utf8(s@), j),
        decreases end,
    {
        end = end - 1;
    }
    let parts = s.split_at(end);
    proof {
        lemma_clipped_at_boundary(s@, end as int, max as int);
        lemma_encode_injective(parts.0@, clipped(s@, max as int));
    }
    parts.0
}

/// Whether two strings hold the same text.
pub fn str_eq(a: &str, b: &str) -> (r: bool)
    ensures
        r == (a@ == b@),
{
    let x = a.as_bytes();
    let y = b.as_bytes();
    if x.len() != y.len() {
        return false;
    }
    let n: usize = x.len();
    let mut i: usize = 0;
    while i < n
        invariant
            i <= n,
            n == x@.len(),
            n == y@.len(),
            x@ == encode_utf8(a@),
            y@ == encode_utf8(b@),
            forall|k: int| 0 <= k < i ==> x@[k] == y@[k],
        decreases n - i,
    {
        if x[i] != y[i] {
            return false;
        }
        i = i + 1;
    }
    proof {
        assert(x@ =~= y@);
        lemma_encode_injective(a@, b@);
    }
    true
}

/// The characters of a string.
pub fn chars_of(s: &str) -> (v: Vec<char>)
    ensures
        v@ == s@,
{
    let mut v: Vec<char> = Vec::new();
    for c in it: s.chars()
        invariant
            it.seq() == s@,
            v@ == it.seq().take(it.index()),
    {
        v.push(c);
    }
    assert(v@ =~= s@);
    v
}

/// A text is cut to the longest start of it that fits: a whole number of characters, and one
/// more would not fit.
pub proof fn law_clipping_keeps_the_longest_start(s: Seq<char>, max: int)
    requires
        max >= 0,
    ensures
        clipped(s, max).len() <= s.len(),
        clipped(s, max) == s.take(clipped(s, max).len() as int),
        encode_utf8(clipped(s, max)).len() <= max,
        clipped(s, max).len() < s.len() ==> encode_utf8(
            s.take(clipped(s, max).len() as int + 1),
        ).len() > max,
        byte_count(s) == encode_utf8(s).len(),
{
    lemma_clipped(s, max);
}

} // verus!
