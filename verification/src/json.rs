//! What is read out of JSON texts.

use vstd::prelude::*;

use crate::utf8::opt_view;

verus! {

/// The string that the object which a JSON text writes holds under a key; nothing where the
/// text is not JSON, is no object, or holds no string there.
pub uninterp spec fn json_string(text: Seq<char>, key: Seq<char>) -> Option<Seq<char>>;

/// Of each item of the array which a JSON text writes, the string that it holds under a key;
/// nothing where the text is not JSON or is no array.
pub uninterp spec fn json_item_strings(
    text: Seq<char>,
    key: Seq<char>,
) -> Option<Seq<Option<Seq<char>>>>;

/// The first texts of a list of pairs.
pub open spec fn firsts(items: Seq<(Option<String>, Option<String>)>) -> Seq<Option<Seq<char>>> {
    items.map_values(|i: (Option<String>, Option<String>)| opt_view(i.0))
}

/// The second texts of a list of pairs.
pub open spec fn seconds(items: Seq<(Option<String>, Option<String>)>) -> Seq<Option<Seq<char>>> {
    items.map_values(|i: (Option<String>, Option<String>)| opt_view(i.1))
}

/// `serde_json::from_str`, then `Value::get` and `Value::as_str` under two keys. Claims only
/// that what is found under a key depends on the text and that key alone.
#[verifier::external_body]
pub(crate) fn read_strings(text: &str, a: &str, b: &str) -> (r: (Option<String>, Option<String>))
    ensures
        opt_view(r.0) == json_string(text@, a@),
        opt_view(r.1) == json_string(text@, b@),
{
    match serde_json::from_str::<serde_json::Value>(text) {
        Ok(value) => (
            value.get(a).and_then(|v| v.as_str()).map(|s| s.to_owned()),
            value.get(b).and_then(|v| v.as_str()).map(|s| s.to_owned()),
        ),
        Err(_) => (None, None),
    }
}

/// `serde_json::from_str`, then `Value::as_array`, and `Value::get` and `Value::as_str` under
/// two keys of each item. Claims only that what is found under a key depends on the text and
/// that key alone, item by item.
#[verifier::external_body]
pub(crate) fn read_item_strings(
    text: &str,
    a: &str,
    b: &str,
) -> (r: Option<Vec<(Option<String>, Option<String>)>>)
    ensures
        match r {
            Some(items) => json_item_strings(text@, a@) == Some(firsts(items@))
                && json_item_strings(text@, b@) == Some(seconds(items@)),
            None => json_item_strings(text@, a@) is None && json_item_strings(text@, b@) is None,
        },
{
    let value = serde_json::from_str::<serde_json::Value>(text).ok()?;
    let items = value.as_array()?;
    let read = |v: &serde_json::Value, key: &str| {
        v.get(key).and_then(|s| s.as_str()).map(|s| s.to_owned())
    };
    Some(items.iter().map(|v| (read(v, a), read(v, b))).collect())
}

/// Item by item, the two lists hold the two texts of a pair, where they are there.
pub proof fn law_pairs_keep_their_texts(items: Seq<(Option<String>, Option<String>)>, k: int)
    requires
        0 <= k < items.len(),
    ensures
        firsts(items).len() == items.len(),
        seconds(items).len() == items.len(),
        firsts(items)[k] is Some <==> items[k].0 is Some,
        seconds(items)[k] is Some <==> items[k].1 is Some,
        items[k].0 matches Some(text) ==> firsts(items)[k] == Some(text@),
        items[k].1 matches Some(text) ==> seconds(items)[k] == Some(text@),
{
}

} // verus!
