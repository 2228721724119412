//! Session identifiers.

use vstd::prelude::*;
use vstd::utf8::encode_utf8;

verus! {

pub open spec fn hex_digit(n: int) -> char {
    if n < 10 {
        ('0' as u32 + n) as char
    } else {
        ('a' as u32 + n - 10) as char
    }
}

/// Bytes in lower case hexadecimal.
pub open spec fn hex(bytes: Seq<u8>) -> Seq<char>
    decreases bytes.len(),
{
    if bytes.len() == 0 {
        Seq::empty()
    } else {
        hex(bytes.drop_last()).push(hex_digit(bytes.last() as int / 16)).push(
            hex_digit(bytes.last() as int % 16),
        )
    }
}

/// The canonical text of an identifier of sixteen bytes.
pub open spec fn hyphenated(id: Seq<u8>) -> Seq<char> {
    hex(id.subrange(0, 4)) + seq!['-'] + hex(id.subrange(4, 6)) + seq!['-'] + hex(
        id.subrange(6, 8),
    ) + seq!['-'] + hex(id.subrange(8, 10)) + seq!['-'] + hex(id.subrange(10, 16))
}

/// The identifier that a text writes, in one of the forms of a UUID.
pub uninterp spec fn parsed_uuid(text: Seq<char>) -> Option<Seq<u8>>;

/// The name-based identifier of bytes, of version 5 in the namespace of object identifiers.
pub uninterp spec fn named_uuid(name: Seq<u8>) -> Seq<u8>;

/// The identifier of a session that calls itself `raw`.
pub open spec fn session_uuid(raw: Seq<char>) -> Seq<u8> {
    match parsed_uuid(raw) {
        Some(id) => id,
        None => named_uuid(encode_utf8(raw)),
    }
}

/// The key of a session that calls itself `raw`.
pub open spec fn session_key(raw: Seq<char>) -> Seq<char> {
    hyphenated(session_uuid(raw))
}

/// `uuid::Uuid::parse_str`. Claims that the result depends on the text alone, and that an
/// identifier has sixteen bytes.
#[verifier::external_body]
fn parse_uuid(text: &str) -> (r: Option<[u8; 16]>)
    ensures
        match r {
            Some(id) => parsed_uuid(text@) == Some(id@),
            None => parsed_uuid(text@) is None,
        },
{
    uuid::Uuid::parse_str(text).ok().map(|id| id.into_bytes())
}

/// `uuid::Uuid::new_v5` in the namespace of object identifiers. Claims that the result depends
/// on the bytes of the name alone.
#[verifier::external_body]
fn name_uuid(name: &[u8]) -> (id: [u8; 16])
    ensures
        id@ == named_uuid(name@),
{
    uuid::Uuid::new_v5(&uuid::Uuid::NAMESPACE_OID, name).into_bytes()
}

/// `uuid::Uuid::from_slice`, then `Display`. There is no result unless there are sixteen bytes.
/// Otherwise it is their canonical text, in lower case and with hyphens, and reading it back
/// gives the bytes.
#[verifier::external_body]
fn uuid_text(bytes: &[u8]) -> (r: Option<String>)
    ensures
        match r {
            Some(text) => bytes@.len() == 16 && text@ == hyphenated(bytes@) && parsed_uuid(text@)
                == Some(bytes@),
            None => bytes@.len() != 16,
        },
{
    uuid::Uuid::from_slice(bytes).ok().map(|id| id.to_string())
}

/// The text of a session identifier as it is stored. There is none unless it has sixteen
/// bytes. Reading the text gives the bytes back.
pub fn stored_session_id(bytes: &[u8]) -> (r: Option<String>)
    ensures
        match r {
            Some(text) => bytes@.len() == 16 && text@ == hyphenated(bytes@) && parsed_uuid(text@)
                == Some(bytes@),
            None => bytes@.len() != 16,
        },
{
    uuid_text(bytes)
}

/// The bytes under which a session is stored; none where the text is no identifier.
pub fn read_session_id(text: &str) -> (r: Option<[u8; 16]>)
    ensures
        match r {
            Some(id) => parsed_uuid(text@) == Some(id@),
            None => parsed_uuid(text@) is None,
        },
{
    parse_uuid(text)
}

/// The key of a session that calls itself `raw`: its own identifier where that is a UUID, in
/// canonical form, else one that is derived from it. The key of a key is that key.
pub fn resolve_transcript_session_id(raw: &str) -> (r: String)
    ensures
        r@ == session_key(raw@),
        session_key(r@) == r@,
{
    let id = match parse_uuid(raw) {
        Some(id) => id,
        None => name_uuid(raw.as_bytes()),
    };
    match uuid_text(id.as_slice()) {
        Some(text) => text,
        None => String::new(),
    }
}

proof fn lemma_hex_len(bytes: Seq<u8>)
    ensures
        hex(bytes).len() == 2 * bytes.len(),
    decreases bytes.len(),
{
    if bytes.len() > 0 {
        lemma_hex_len(bytes.drop_last());
    }
}

proof fn lemma_hex_digit_injective(a: int, b: int)
    requires
        0 <= a < 16,
        0 <= b < 16,
        hex_digit(a) == hex_digit(b),
    ensures
        a == b,
{
}

proof fn lemma_hex_injective(a: Seq<u8>, b: Seq<u8>)
    requires
        hex(a) == hex(b),
    ensures
        a == b,
    decreases a.len(),
{
    lemma_hex_len(a);
    lemma_hex_len(b);
    if a.len() > 0 {
        let x = hex(a.drop_last());
        let y = hex(b.drop_last());
        lemma_hex_len(a.drop_last());
        lemma_hex_len(b.drop_last());
        let n = hex(a).len();
        assert(hex(a).take(n - 2) =~= x);
        assert(hex(b).take(n - 2) =~= y);
        lemma_hex_injective(a.drop_last(), b.drop_last());
        assert(hex(a)[n - 2] == hex_digit(a.last() as int / 16));
        assert(hex(b)[n - 2] == hex_digit(b.last() as int / 16));
        assert(hex(a)[n - 1] == hex_digit(a.last() as int % 16));
        assert(hex(b)[n - 1] == hex_digit(b.last() as int % 16));
        lemma_hex_digit_injective(a.last() as int / 16, b.last() as int / 16);
        lemma_hex_digit_injective(a.last() as int % 16, b.last() as int % 16);
        assert(a =~= a.drop_last().push(a.last()));
        assert(b =~= b.drop_last().push(b.last()));
    } else {
        assert(a =~= b);
    }
}

/// Different identifiers have different texts.
pub proof fn law_texts_tell_identifiers_apart(a: Seq<u8>, b: Seq<u8>)
    requires
        a.len() == 16,
        b.len() == 16,
        hyphenated(a) == hyphenated(b),
    ensures
        a == b,
{
    lemma_hyphenated_parts(a);
    lemma_hyphenated_parts(b);
    lemma_hex_injective(a.subrange(0, 4), b.subrange(0, 4));
    lemma_hex_injective(a.subrange(4, 6), b.subrange(4, 6));
    lemma_hex_injective(a.subrange(6, 8), b.subrange(6, 8));
    lemma_hex_injective(a.subrange(8, 10), b.subrange(8, 10));
    lemma_hex_injective(a.subrange(10, 16), b.subrange(10, 16));
    assert(a =~= a.subrange(0, 4) + a.subrange(4, 6) + a.subrange(6, 8) + a.subrange(8, 10)
        + a.subrange(10, 16));
    assert(b =~= b.subrange(0, 4) + b.subrange(4, 6) + b.subrange(6, 8) + b.subrange(8, 10)
        + b.subrange(10, 16));
}

proof fn lemma_hyphenated_parts(id: Seq<u8>)
    requires
        id.len() == 16,
    ensures
        hyphenated(id).len() == 36,
        hyphenated(id).subrange(0, 8) == hex(id.subrange(0, 4)),
        hyphenated(id).subrange(9, 13) == hex(id.subrange(4, 6)),
        hyphenated(id).subrange(14, 18) == hex(id.subrange(6, 8)),
        hyphenated(id).subrange(19, 23) == hex(id.subrange(8, 10)),
        hyphenated(id).subrange(24, 36) == hex(id.subrange(10, 16)),
{
    lemma_hex_len(id.subrange(0, 4));
    lemma_hex_len(id.subrange(4, 6));
    lemma_hex_len(id.subrange(6, 8));
    lemma_hex_len(id.subrange(8, 10));
    lemma_hex_len(id.subrange(10, 16));
    let s = hyphenated(id);
    assert(s.subrange(0, 8) =~= hex(id.subrange(0, 4)));
    assert(s.subrange(9, 13) =~= hex(id.subrange(4, 6)));
    assert(s.subrange(14, 18) =~= hex(id.subrange(6, 8)));
    assert(s.subrange(19, 23) =~= hex(id.subrange(8, 10)));
    assert(s.subrange(24, 36) =~= hex(id.subrange(10, 16)));
}

/// The text of an identifier has thirty-six characters: two lower case hexadecimal digits for
/// each byte in order, and hyphens after the fourth, the sixth, the eighth and the tenth.
pub proof fn law_identifiers_have_one_form(id: Seq<u8>, k: int)
    requires
        id.len() == 16,
        0 <= k < 16,
    ensures
        hyphenated(id).len() == 36,
        hyphenated(id)[8] == '-',
        hyphenated(id)[13] == '-',
        hyphenated(id)[18] == '-',
        hyphenated(id)[23] == '-',
        ({
            let at = 2 * k + (if k >= 10 {
                4int
            } else if k >= 8 {
                3
            } else if k >= 6 {
                2
            } else if k >= 4 {
                1
            } else {
                0
            });
            let (hi, lo) = (id[k] as int / 16, id[k] as int % 16);
            &&& hyphenated(id)[at] as int == if hi < 10 {
                48 + hi
            } else {
                87 + hi
            }
            &&& hyphenated(id)[at + 1] as int == if lo < 10 {
                48 + lo
            } else {
                87 + lo
            }
        }),
{
    let (a, b, c, d, e) = (
        id.subrange(0, 4),
        id.subrange(4, 6),
        id.subrange(6, 8),
        id.subrange(8, 10),
        id.subrange(10, 16),
    );
    lemma_hex_len(a);
    lemma_hex_len(b);
    lemma_hex_len(c);
    lemma_hex_len(d);
    lemma_hex_len(e);
    if k < 4 {
        lemma_hex_digits(a, k);
    } else if k < 6 {
        lemma_hex_digits(b, k - 4);
    } else if k < 8 {
        lemma_hex_digits(c, k - 6);
    } else if k < 10 {
        lemma_hex_digits(d, k - 8);
    } else {
        lemma_hex_digits(e, k - 10);
    }
}

proof fn lemma_hex_digits(bytes: Seq<u8>, k: int)
    requires
        0 <= k < bytes.len(),
    ensures
        hex(bytes).len() == 2 * bytes.len(),
        hex(bytes)[2 * k] == hex_digit(bytes[k] as int / 16),
        hex(bytes)[2 * k + 1] == hex_digit(bytes[k] as int % 16),
    decreases bytes.len(),
{
    lemma_hex_len(bytes);
    lemma_hex_len(bytes.drop_last());
    if k < bytes.len() - 1 {
        lemma_hex_digits(bytes.drop_last(), k);
    }
}

/// The key of a session is the identifier that it calls itself, in canonical form, and where it
/// calls itself otherwise the one that is derived from that name.
pub proof fn law_sessions_keep_their_identifier(raw: Seq<char>)
    ensures
        parsed_uuid(raw) is Some ==> session_key(raw) == hyphenated(parsed_uuid(raw)->Some_0),
        parsed_uuid(raw) is None ==> session_key(raw) == hyphenated(named_uuid(encode_utf8(raw))),
{
}

} // verus!
