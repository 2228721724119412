//! Links, relative to the base of the site.

use vstd::prelude::*;
use vstd::string::*;
use vstd::utf8::*;

use crate::text::join;
use crate::text::joined;
use crate::text::law_separator_parts_text;
use crate::text::lemma_joined_push;
use crate::text::lemma_split_joined;
use crate::text::lemma_split_on_nonempty;
use crate::text::split;
use crate::text::split_on;
use crate::utf8::lemma_encode_concat;
use crate::utf8::lemma_encode_injective;
use crate::utf8::lemma_views_push;
use crate::utf8::views;

verus! {

/// Whether a byte stands for itself in a link.
pub open spec fn is_unreserved(b: u8) -> bool {
    ||| 'A' <= b as char <= 'Z'
    ||| 'a' <= b as char <= 'z'
    ||| '0' <= b as char <= '9'
    ||| b as char == '-'
    ||| b as char == '.'
    ||| b as char == '_'
    ||| b as char == '~'
}

pub open spec fn upper_hex_digit(n: int) -> char {
    if n < 10 {
        ('0' as u32 + n) as char
    } else {
        ('A' as u32 + n - 10) as char
    }
}

/// A byte as it stands in a link: itself, or a percent sign and its two hexadecimal digits.
pub open spec fn encoded_byte(b: u8) -> Seq<char> {
    if is_unreserved(b) {
        seq![b as char]
    } else {
        seq!['%', upper_hex_digit(b as int / 16), upper_hex_digit(b as int % 16)]
    }
}

pub open spec fn encoded_bytes(bytes: Seq<u8>) -> Seq<char>
    decreases bytes.len(),
{
    if bytes.len() == 0 {
        Seq::empty()
    } else {
        encoded_byte(bytes[0]) + encoded_bytes(bytes.drop_first())
    }
}

/// A segment of a path, percent-encoded.
pub open spec fn encoded_segment(s: Seq<char>) -> Seq<char> {
    encoded_bytes(encode_utf8(s))
}

pub open spec fn encoded_segments(s: Seq<Seq<char>>) -> Seq<Seq<char>> {
    s.map_values(|t: Seq<char>| encoded_segment(t))
}

/// A path, its segments percent-encoded.
pub open spec fn encoded_path(path: Seq<char>) -> Seq<char> {
    joined(encoded_segments(split_on(path, '/')), "/"@)
}

pub open spec fn project_link(workspace: Seq<char>, project: Seq<char>) -> Seq<char> {
    "w/"@ + encoded_segment(workspace) + "/"@ + encoded_segment(project)
}

pub open spec fn page_link(workspace: Seq<char>, project: Seq<char>, path: Seq<char>) -> Seq<char> {
    project_link(workspace, project) + "/p/"@ + encoded_path(path)
}

fn upper_hex(n: u8) -> (c: char)
    requires
        n < 16,
    ensures
        c == upper_hex_digit(n as int),
{
    if n < 10 {
        (48u8 + n) as char
    } else {
        (55u8 + n) as char
    }
}

/// Percent-encodes a segment of a path.
pub fn encode_segment(segment: &str) -> (r: String)
    ensures
        r@ == encoded_segment(segment@),
{
    let bytes = segment.as_bytes();
    let mut out = String::new();
    let mut i: usize = 0;
    assert(bytes@.skip(0) =~= bytes@);
    assert(out@ + encoded_bytes(bytes@) =~= encoded_bytes(bytes@));
    while i < bytes.len()
        invariant
            i <= bytes@.len(),
            out@ + encoded_bytes(bytes@.skip(i as int)) == encoded_bytes(bytes@),
        decreases bytes@.len() - i,
    {
        let ghost before = out@;
        let ghost rest = bytes@.skip(i as int);
        let b: u8 = bytes[i];
        assert(rest[0] == b);
        assert(rest.drop_first() =~= bytes@.skip(i + 1));
        let c = b as char;
        if ('A' <= c && c <= 'Z') || ('a' <= c && c <= 'z') || ('0' <= c && c <= '9') || c == '-'
            || c == '.' || c == '_' || c == '~' {
            out.push(c);
        } else {
            out.push('%');
            out.push(upper_hex(b / 16));
            out.push(upper_hex(b % 16));
        }
        assert(out@ =~= before + encoded_byte(b));
        assert(out@ + encoded_bytes(bytes@.skip(i + 1)) =~= before + encoded_bytes(rest));
        i = i + 1;
    }
    assert(bytes@.skip(i as int) =~= Seq::empty());
    assert(out@ + encoded_bytes(Seq::empty()) =~= out@);
    out
}

/// Percent-encodes the segments of a path.
pub fn encode_path(path: &str) -> (r: String)
    ensures
        r@ == encoded_path(path@),
{
    let parts = split(path, '/');
    let mut out: Vec<String> = Vec::new();
    let mut i: usize = 0;
    while i < parts.len()
        invariant
            i <= parts@.len(),
            views(out@) == encoded_segments(views(parts@).take(i as int)),
        decreases parts@.len() - i,
    {
        let part = encode_segment(parts[i].as_str());
        proof {
            lemma_views_push(out@, part);
            assert(views(parts@).take(i + 1) =~= views(parts@).take(i as int).push(
                parts@[i as int]@,
            ));
        }
        out.push(part);
        i = i + 1;
        assert(views(out@) =~= encoded_segments(views(parts@).take(i as int)));
    }
    assert(views(parts@).take(i as int) =~= views(parts@));
    join(&out, "/")
}

/// The link of a project.
pub fn project_href(workspace: &str, project: &str) -> (r: String)
    ensures
        r@ == project_link(workspace@, project@),
{
    let mut r = "w/".to_owned();
    r.append(encode_segment(workspace).as_str());
    r.append("/");
    r.append(encode_segment(project).as_str());
    r
}

/// The link of a page.
pub fn page_href(workspace: &str, project: &str, path: &str) -> (r: String)
    ensures
        r@ == page_link(workspace@, project@, path@),
{
    let mut r = project_href(workspace, project);
    r.append("/p/");
    r.append(encode_path(path).as_str());
    r
}

/// Whether a character can stand in an encoded segment.
pub open spec fn is_link_char(c: char) -> bool {
    c == '%' || (c as u32) < 128 && is_unreserved(c as u8)
}

proof fn lemma_encoded_bytes_chars(bytes: Seq<u8>)
    ensures
        forall|i: int|
            0 <= i < encoded_bytes(bytes).len() ==> is_link_char(
                #[trigger] encoded_bytes(bytes)[i],
            ),
    decreases bytes.len(),
{
    if bytes.len() > 0 {
        lemma_encoded_bytes_chars(bytes.drop_first());
        let head = encoded_byte(bytes[0]);
        assert(forall|i: int| 0 <= i < head.len() ==> is_link_char(#[trigger] head[i]));
        let whole = encoded_bytes(bytes);
        assert forall|i: int| 0 <= i < whole.len() implies is_link_char(#[trigger] whole[i]) by {
            if i >= head.len() {
                assert(whole[i] == encoded_bytes(bytes.drop_first())[i - head.len()]);
            }
        }
    }
}

/// An encoded segment is made of characters that stand for themselves and of percent signs. It
/// holds nothing that could end the segment or the link.
pub proof fn law_encoded_segment_is_plain(s: Seq<char>)
    ensures
        forall|i: int|
            0 <= i < encoded_segment(s).len() ==> is_link_char(#[trigger] encoded_segment(s)[i]),
        !encoded_segment(s).contains('/'),
        !encoded_segment(s).contains('#'),
        !encoded_segment(s).contains('?'),
{
    lemma_encoded_bytes_chars(encode_utf8(s));
    let e = encoded_segment(s);
    assert forall|c: char| e.contains(c) implies is_link_char(c) by {
        let i = choose|i: int| 0 <= i < e.len() && e[i] == c;
        assert(is_link_char(e[i]));
    }
}

/// The number that a hexadecimal digit stands for.
pub open spec fn hex_value(c: char) -> int {
    if '0' <= c <= '9' {
        c as int - '0' as int
    } else if 'A' <= c <= 'F' {
        c as int - 'A' as int + 10
    } else if 'a' <= c <= 'f' {
        c as int - 'a' as int + 10
    } else {
        0
    }
}

/// The bytes that a percent-encoded text stands for: a percent sign and two digits for one
/// byte, any other character for itself.
pub open spec fn percent_decoded(s: Seq<char>) -> Seq<u8>
    decreases s.len(),
{
    if s.len() == 0 {
        Seq::empty()
    } else if s[0] == '%' && s.len() >= 3 {
        seq![(hex_value(s[1]) * 16 + hex_value(s[2])) as u8] + percent_decoded(s.skip(3))
    } else {
        seq![s[0] as u8] + percent_decoded(s.drop_first())
    }
}

proof fn lemma_decode_encoded_bytes(bytes: Seq<u8>)
    ensures
        percent_decoded(encoded_bytes(bytes)) == bytes,
    decreases bytes.len(),
{
    if bytes.len() == 0 {
        assert(bytes =~= Seq::empty());
    } else {
        let b = bytes[0];
        let rest = bytes.drop_first();
        let s = encoded_bytes(bytes);
        lemma_decode_encoded_bytes(rest);
        if is_unreserved(b) {
            assert(s[0] == b as char);
            assert(s[0] as u8 == b);
            assert(s.drop_first() =~= encoded_bytes(rest));
        } else {
            let (hi, lo) = (b as int / 16, b as int % 16);
            assert(s[0] == '%' && s[1] == upper_hex_digit(hi) && s[2] == upper_hex_digit(lo));
            assert(hex_value(upper_hex_digit(hi)) == hi);
            assert(hex_value(upper_hex_digit(lo)) == lo);
            assert(s.skip(3) =~= encoded_bytes(rest));
        }
        assert(seq![b] + rest =~= bytes);
    }
}

/// Percent-decoding gives a segment back.
pub proof fn law_encoded_segment_decodes(s: Seq<char>)
    ensures
        percent_decoded(encoded_segment(s)) == encode_utf8(s),
        decode_utf8(percent_decoded(encoded_segment(s))) == s,
{
    lemma_decode_encoded_bytes(encode_utf8(s));
    encode_utf8_decode_utf8(s);
}

proof fn lemma_encoded_byte_injective(a: u8, b: u8)
    requires
        encoded_byte(a) == encoded_byte(b),
    ensures
        a == b,
{
    let x = encoded_byte(a);
    let y = encoded_byte(b);
    assert(x[0] == y[0]);
    if !is_unreserved(a) {
        assert(x.len() == 3 && y.len() == 3);
        assert(x[1] == y[1] && x[2] == y[2]);
        assert(a as int / 16 == b as int / 16);
        assert(a as int % 16 == b as int % 16);
    }
}

proof fn lemma_encoded_bytes_injective(a: Seq<u8>, b: Seq<u8>)
    requires
        encoded_bytes(a) == encoded_bytes(b),
    ensures
        a == b,
    decreases a.len(),
{
    if a.len() == 0 {
        if b.len() > 0 {
            assert(encoded_bytes(b).len() > 0);
        }
        assert(a =~= b);
    } else if b.len() == 0 {
        assert(encoded_bytes(a).len() > 0);
    } else {
        let x = encoded_byte(a[0]);
        let y = encoded_byte(b[0]);
        let ra = encoded_bytes(a.drop_first());
        let rb = encoded_bytes(b.drop_first());
        assert((x + ra)[0] == x[0]);
        assert((y + rb)[0] == y[0]);
        assert(x.len() == y.len());
        assert((x + ra).take(x.len() as int) =~= x);
        assert((y + rb).take(y.len() as int) =~= y);
        lemma_encoded_byte_injective(a[0], b[0]);
        assert((x + ra).skip(x.len() as int) =~= ra);
        assert((y + rb).skip(y.len() as int) =~= rb);
        lemma_encoded_bytes_injective(a.drop_first(), b.drop_first());
        assert(a =~= seq![a[0]] + a.drop_first());
        assert(b =~= seq![b[0]] + b.drop_first());
    }
}

/// Different segments are encoded differently.
pub proof fn law_encoded_segment_is_injective(a: Seq<char>, b: Seq<char>)
    requires
        encoded_segment(a) == encoded_segment(b),
    ensures
        a == b,
{
    lemma_encoded_bytes_injective(encode_utf8(a), encode_utf8(b));
    lemma_encode_injective(a, b);
}

/// Texts that agree up to the first slash agree before and after it.
proof fn lemma_slash_splits(x: Seq<char>, y: Seq<char>, x2: Seq<char>, y2: Seq<char>)
    requires
        x + seq!['/'] + y == x2 + seq!['/'] + y2,
        !x.contains('/'),
        !x2.contains('/'),
    ensures
        x == x2,
        y == y2,
{
    let s = x + seq!['/'] + y;
    let s2 = x2 + seq!['/'] + y2;
    assert(s[x.len() as int] == '/');
    assert(s2[x2.len() as int] == '/');
    if x.len() < x2.len() {
        assert(s2[x.len() as int] == x2[x.len() as int]);
        assert(x2.contains('/'));
    }
    if x2.len() < x.len() {
        assert(s[x2.len() as int] == x[x2.len() as int]);
        assert(x.contains('/'));
    }
    assert(s.take(x.len() as int) =~= x);
    assert(s2.take(x2.len() as int) =~= x2);
    assert(s.skip(x.len() as int + 1) =~= y);
    assert(s2.skip(x2.len() as int + 1) =~= y2);
}

/// Different projects have different links.
pub proof fn law_project_links_differ(w: Seq<char>, p: Seq<char>, w2: Seq<char>, p2: Seq<char>)
    requires
        project_link(w, p) == project_link(w2, p2),
    ensures
        w == w2,
        p == p2,
{
    reveal_strlit("w/");
    reveal_strlit("/");
    let (a, b, a2, b2) = (
        encoded_segment(w),
        encoded_segment(p),
        encoded_segment(w2),
        encoded_segment(p2),
    );
    assert("/"@ =~= seq!['/']);
    law_encoded_segment_is_plain(w);
    law_encoded_segment_is_plain(w2);
    assert(project_link(w, p).skip(2) =~= a + seq!['/'] + b);
    assert(project_link(w2, p2).skip(2) =~= a2 + seq!['/'] + b2);
    lemma_slash_splits(a, b, a2, b2);
    law_encoded_segment_is_injective(w, w2);
    law_encoded_segment_is_injective(p, p2);
}

/// Segments without a slash, joined by slashes, are told apart by them.
proof fn lemma_joined_injective(a: Seq<Seq<char>>, b: Seq<Seq<char>>)
    requires
        a.len() > 0,
        b.len() > 0,
        forall|i: int| 0 <= i < a.len() ==> !(#[trigger] a[i]).contains('/'),
        forall|i: int| 0 <= i < b.len() ==> !(#[trigger] b[i]).contains('/'),
        joined(a, seq!['/']) == joined(b, seq!['/']),
    ensures
        a == b,
    decreases a.len(),
{
    let s = joined(a, seq!['/']);
    if a.len() == 1 && b.len() == 1 {
        assert(a =~= b);
    } else if a.len() == 1 {
        let head = joined(b.drop_last(), seq!['/']);
        assert(s == head + seq!['/'] + b.last());
        assert(s[head.len() as int] == '/');
        assert(a[0].contains('/'));
    } else if b.len() == 1 {
        let head = joined(a.drop_last(), seq!['/']);
        assert(s == head + seq!['/'] + a.last());
        assert(s[head.len() as int] == '/');
        assert(b[0].contains('/'));
    } else {
        let x = joined(a.drop_last(), seq!['/']);
        let y = joined(b.drop_last(), seq!['/']);
        lemma_last_slash_splits(x, a.last(), y, b.last());
        assert forall|i: int| 0 <= i < a.drop_last().len() implies !(#[trigger] a.drop_last()[i]).contains(
            '/',
        ) by {
            assert(!a[i].contains('/'));
        }
        assert forall|i: int| 0 <= i < b.drop_last().len() implies !(#[trigger] b.drop_last()[i]).contains(
            '/',
        ) by {
            assert(!b[i].contains('/'));
        }
        lemma_joined_injective(a.drop_last(), b.drop_last());
        assert(a =~= a.drop_last().push(a.last()));
        assert(b =~= b.drop_last().push(b.last()));
    }
}

/// Texts that agree from the last slash on agree before and after it.
proof fn lemma_last_slash_splits(x: Seq<char>, y: Seq<char>, x2: Seq<char>, y2: Seq<char>)
    requires
        x + seq!['/'] + y == x2 + seq!['/'] + y2,
        !y.contains('/'),
        !y2.contains('/'),
    ensures
        x == x2,
        y == y2,
{
    let s = x + seq!['/'] + y;
    let s2 = x2 + seq!['/'] + y2;
    assert(s.len() == x.len() + 1 + y.len());
    assert(s2.len() == x2.len() + 1 + y2.len());
    if x.len() < x2.len() {
        assert(s[x2.len() as int] == y[x2.len() - x.len() - 1]);
        assert(s2[x2.len() as int] == '/');
        assert(y.contains('/'));
    }
    if x2.len() < x.len() {
        assert(s2[x.len() as int] == y2[x.len() - x2.len() - 1]);
        assert(s[x.len() as int] == '/');
        assert(y2.contains('/'));
    }
    assert(s.take(x.len() as int) =~= x);
    assert(s2.take(x2.len() as int) =~= x2);
    assert(s.skip(x.len() as int + 1) =~= y);
    assert(s2.skip(x2.len() as int + 1) =~= y2);
}

/// Different pages have different links.
pub proof fn law_page_links_differ(
    w: Seq<char>,
    p: Seq<char>,
    path: Seq<char>,
    w2: Seq<char>,
    p2: Seq<char>,
    path2: Seq<char>,
)
    requires
        page_link(w, p, path) == page_link(w2, p2, path2),
    ensures
        w == w2,
        p == p2,
        path == path2,
{
    reveal_strlit("w/");
    reveal_strlit("/");
    reveal_strlit("/p/");
    assert("/"@ =~= seq!['/']);
    let (a, b, c) = (encoded_segment(w), encoded_segment(p), encoded_path(path));
    let (a2, b2, c2) = (encoded_segment(w2), encoded_segment(p2), encoded_path(path2));
    law_encoded_segment_is_plain(w);
    law_encoded_segment_is_plain(w2);
    law_encoded_segment_is_plain(p);
    law_encoded_segment_is_plain(p2);
    let rest = b + seq!['/'] + (seq!['p', '/'] + c);
    let rest2 = b2 + seq!['/'] + (seq!['p', '/'] + c2);
    assert(page_link(w, p, path).skip(2) =~= a + seq!['/'] + rest);
    assert(page_link(w2, p2, path2).skip(2) =~= a2 + seq!['/'] + rest2);
    lemma_slash_splits(a, rest, a2, rest2);
    lemma_slash_splits(b, seq!['p', '/'] + c, b2, seq!['p', '/'] + c2);
    assert((seq!['p', '/'] + c).skip(2) =~= c);
    assert((seq!['p', '/'] + c2).skip(2) =~= c2);
    law_encoded_segment_is_injective(w, w2);
    law_encoded_segment_is_injective(p, p2);
    lemma_encoded_path_injective(path, path2);
}

proof fn lemma_encoded_path_injective(a: Seq<char>, b: Seq<char>)
    requires
        encoded_path(a) == encoded_path(b),
    ensures
        a == b,
{
    reveal_strlit("/");
    assert("/"@ =~= seq!['/']);
    let (x, y) = (split_on(a, '/'), split_on(b, '/'));
    lemma_split_on_nonempty(a, '/');
    lemma_split_on_nonempty(b, '/');
    let (ex, ey) = (encoded_segments(x), encoded_segments(y));
    assert forall|i: int| 0 <= i < ex.len() implies !(#[trigger] ex[i]).contains('/') by {
        law_encoded_segment_is_plain(x[i]);
    }
    assert forall|i: int| 0 <= i < ey.len() implies !(#[trigger] ey[i]).contains('/') by {
        law_encoded_segment_is_plain(y[i]);
    }
    lemma_joined_injective(ex, ey);
    assert forall|i: int| 0 <= i < x.len() implies x[i] == y[i] by {
        assert(ex[i] == ey[i]);
        law_encoded_segment_is_injective(x[i], y[i]);
    }
    assert(x =~= y);
    lemma_split_joined(a, '/');
    lemma_split_joined(b, '/');
}

/// Encoding goes byte by byte: the encoded form of two texts is that of the first and then that
/// of the second.
pub proof fn law_encoding_goes_byte_by_byte(a: Seq<char>, b: Seq<char>)
    ensures
        encoded_segment(a + b) == encoded_segment(a) + encoded_segment(b),
{
    lemma_encode_concat(a, b);
    lemma_encoded_bytes_concat(encode_utf8(a), encode_utf8(b));
}

proof fn lemma_encoded_bytes_concat(a: Seq<u8>, b: Seq<u8>)
    ensures
        encoded_bytes(a + b) == encoded_bytes(a) + encoded_bytes(b),
    decreases a.len(),
{
    if a.len() == 0 {
        assert(a + b =~= b);
        assert(encoded_bytes(a) + encoded_bytes(b) =~= encoded_bytes(b));
    } else {
        assert((a + b).drop_first() =~= a.drop_first() + b);
        lemma_encoded_bytes_concat(a.drop_first(), b);
        assert(encoded_bytes(a + b) =~= encoded_bytes(a) + encoded_bytes(b));
    }
}

/// A byte is encoded as itself where it is a letter, a digit, a hyphen, a dot, an underscore or
/// a tilde. Any other byte is a percent sign and two digits, the letters among them capital.
pub proof fn law_plain_bytes_stand_for_themselves(b: u8)
    ensures
        ({
            let s = encoded_bytes(seq![b]);
            let plain = 65 <= b <= 90 || 97 <= b <= 122 || 48 <= b <= 57 || b == 45 || b == 46 || b
                == 95 || b == 126;
            let (hi, lo) = (b as int / 16, b as int % 16);
            &&& plain ==> s.len() == 1 && s[0] as int == b
            &&& !plain ==> s.len() == 3 && s[0] == '%' && s[1] as int == (if hi < 10 {
                48 + hi
            } else {
                55 + hi
            }) && s[2] as int == (if lo < 10 {
                48 + lo
            } else {
                55 + lo
            })
        }),
{
    assert(seq![b].drop_first() =~= Seq::<u8>::empty());
    assert(encoded_bytes(seq![b].drop_first()) =~= Seq::<char>::empty());
    assert(encoded_bytes(seq![b]) =~= encoded_byte(b));
}

/// The link of a project has its two names, and that of a page the path after them, encoded
/// segment by segment.
pub proof fn law_links_hold_their_names(
    workspace: Seq<char>,
    project: Seq<char>,
    a: Seq<char>,
    b: Seq<char>,
)
    ensures
        project_link(workspace, project) == "w/"@ + encoded_segment(workspace) + "/"@
            + encoded_segment(project),
        !a.contains('/') ==> page_link(workspace, project, a) == project_link(workspace, project)
            + "/p/"@ + encoded_segment(a),
        page_link(workspace, project, a + seq!['/'] + b) == page_link(workspace, project, a)
            + "/"@ + encoded_path(b),
{
    law_separator_parts_text(a, '/', b);
    lemma_split_on_nonempty(a, '/');
    lemma_split_on_nonempty(b, '/');
    let (x, y) = (split_on(a, '/'), split_on(b, '/'));
    assert(encoded_segments(x + y) =~= encoded_segments(x) + encoded_segments(y));
    lemma_joined_concat(encoded_segments(x), encoded_segments(y), "/"@);
    if !a.contains('/') {
        assert(encoded_segments(x) =~= seq![encoded_segment(a)]);
    }
    assert(page_link(workspace, project, a + seq!['/'] + b) =~= page_link(workspace, project, a)
        + "/"@ + encoded_path(b));
}

proof fn lemma_joined_concat(a: Seq<Seq<char>>, b: Seq<Seq<char>>, sep: Seq<char>)
    requires
        a.len() > 0,
        b.len() > 0,
    ensures
        joined(a + b, sep) == joined(a, sep) + sep + joined(b, sep),
    decreases b.len(),
{
    if b.len() == 1 {
        assert(a + b =~= a.push(b[0]));
        lemma_joined_push(a, b[0], sep);
    } else {
        let less = b.drop_last();
        lemma_joined_concat(a, less, sep);
        assert((a + b).drop_last() =~= a + less);
        assert((a + b).last() == b.last());
        assert(joined(a + b, sep) =~= joined(a, sep) + sep + joined(b, sep));
    }
}

} // verus!
