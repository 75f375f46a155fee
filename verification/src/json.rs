//! Lists of strings stored as JSON text, read and written with `serde_json`.

use vstd::prelude::*;

use crate::ids::{parse_uuid, uuid_from_text, uuid_text, uuid_to_text};
use crate::text::views;

verus! {

/// What `serde_json::from_str::<Vec<String>>` reads from `text`: the strings of a JSON
/// array of strings, or `None` where it fails.
pub uninterp spec fn json_string_list(text: Seq<char>) -> Option<Seq<Seq<char>>>;

/// What `serde_json::to_string` writes for a list of strings, or `None` where it fails.
pub uninterp spec fn json_text_of_strings(items: Seq<Seq<char>>) -> Option<Seq<char>>;

/// `serde_json::from_str::<Vec<String>>`; the contract only names the result
/// `json_string_list`, a function of the text alone (JSON's grammar is not written out).
#[verifier::external_body]
pub fn parse_string_list(text: &str) -> (r: Option<Vec<String>>)
    ensures
        match r {
            Some(v) => json_string_list(text@) == Some(views(v@)),
            None => json_string_list(text@) is None,
        },
{
    serde_json::from_str::<Vec<String>>(text).ok()
}

/// `serde_json::to_string` on a list of strings; the contract only names the result
/// `json_text_of_strings`, a function of the strings alone (JSON's escaping is not
/// written out).
#[verifier::external_body]
pub fn write_string_list(items: &Vec<String>) -> (r: Option<String>)
    ensures
        match r {
            Some(t) => json_text_of_strings(views(items@)) == Some(t@),
            None => json_text_of_strings(views(items@)) is None,
        },
{
    serde_json::to_string(items).ok()
}

/// The JSON text of a list of strings, or `[]` where writing it fails.
pub open spec fn strings_json_text(items: Seq<Seq<char>>) -> Seq<char> {
    match json_text_of_strings(items) {
        Some(t) => t,
        None => "[]"@,
    }
}

/// The strings of a stored JSON list; nothing when there is no text or it does not read
/// as a list of strings.
pub open spec fn stored_strings(text: Option<Seq<char>>) -> Seq<Seq<char>> {
    match text {
        Some(t) => match json_string_list(t) {
            Some(items) => items,
            None => Seq::empty(),
        },
        None => Seq::empty(),
    }
}

/// The ids that the texts read as, in order; texts that are not UUIDs are left out.
pub open spec fn ids_read(items: Seq<Seq<char>>) -> Seq<u128>
    decreases items.len(),
{
    if items.len() == 0 {
        Seq::empty()
    } else {
        let prev = ids_read(items.drop_last());
        match uuid_from_text(items.last()) {
            Some(v) => prev.push(v),
            None => prev,
        }
    }
}

/// The JSON text of a list of strings; `[]` where writing it fails.
pub fn strings_json(items: &Vec<String>) -> (r: String)
    ensures
        r@ == strings_json_text(views(items@)),
{
    match write_string_list(items) {
        Some(t) => t,
        None => String::from_str("[]"),
    }
}

/// The strings of a stored JSON list; empty when there is no text or it does not read as
/// a list of strings.
pub fn decode_strings(text: Option<&str>) -> (r: Vec<String>)
    ensures
        views(r@) == stored_strings(
            match text {
                Some(t) => Some(t@),
                None => None,
            },
        ),
{
    match text {
        Some(t) => match parse_string_list(t) {
            Some(v) => v,
            None => Vec::new(),
        },
        None => Vec::new(),
    }
}

/// The JSON text of a list of ids, each as its hyphenated UUID text; `[]` where writing it
/// fails.
pub fn encode_blocked_by(ids: &Vec<u128>) -> (r: String)
    ensures
        r@ == strings_json_text(ids@.map_values(|v: u128| uuid_text(v))),
{
    let mut texts: Vec<String> = Vec::new();
    for i in 0..ids.len()
        invariant
            views(texts@) == ids@.take(i as int).map_values(|v: u128| uuid_text(v)),
    {
        let ghost before = views(texts@);
        texts.push(uuid_to_text(ids[i]));
        assert(views(texts@) =~= before.push(uuid_text(ids@[i as int])));
        assert(ids@.take(i + 1).map_values(|v: u128| uuid_text(v)) =~= ids@.take(i as int).map_values(
            |v: u128| uuid_text(v),
        ).push(uuid_text(ids@[i as int])));
    }
    assert(ids@.take(ids@.len() as int) =~= ids@);
    strings_json(&texts)
}

/// The ids in a stored JSON list of UUID texts, in order: texts that are not UUIDs are
/// left out, and the list is empty when there is no text or it does not read as a list of
/// strings.
pub fn decode_blocked_by(text: Option<&str>) -> (r: Vec<u128>)
    ensures
        r@ == ids_read(
            stored_strings(
                match text {
                    Some(t) => Some(t@),
                    None => None,
                },
            ),
        ),
{
    let items = decode_strings(text);
    let ghost iv = views(items@);
    let mut out: Vec<u128> = Vec::new();
    for i in 0..items.len()
        invariant
            iv == views(items@),
            out@ == ids_read(iv.take(i as int)),
    {
        proof {
            assert(iv.take(i + 1).drop_last() =~= iv.take(i as int));
            assert(iv.take(i + 1).last() == items@[i as int]@);
        }
        match parse_uuid(items[i].as_str()) {
            Ok(v) => out.push(v),
            Err(_) => {},
        }
    }
    assert(iv.take(items@.len() as int) =~= iv);
    out
}

} // verus!
