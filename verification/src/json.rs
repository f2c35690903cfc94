//! Lists of texts as JSON.

use vstd::prelude::*;

verus! {

/// `serde_json::Error`, which says why a JSON text could not be made or read.
#[verifier::external_type_specification]
#[verifier::external_body]
pub struct ExJsonError(serde_json::Error);

/// The JSON text that `serde_json::to_string` makes of a list of texts, unless
/// it fails.
pub uninterp spec fn json_of_texts(list: Seq<Seq<char>>) -> Option<Seq<char>>;

/// The list of texts that `serde_json::from_str` reads from a JSON text, unless
/// it fails.
pub uninterp spec fn texts_of_json(json: Seq<char>) -> Option<Seq<Seq<char>>>;

/// `serde_json::to_string` on a list of texts: an array of strings, which
/// `serde_json::from_str` reads back as the same list.
#[verifier::external_body]
fn json_write(list: &Vec<String>) -> (r: Result<String, serde_json::Error>)
    ensures
        match r {
            Ok(json) => json_of_texts(list.deep_view()) == Some(json@) && texts_of_json(json@) == Some(
                list.deep_view(),
            ),
            Err(_) => json_of_texts(list.deep_view()) is None,
        },
{
    serde_json::to_string(list)
}

/// `serde_json::from_str` for a list of texts.
#[verifier::external_body]
fn json_read(json: &str) -> (r: Result<Vec<String>, serde_json::Error>)
    ensures
        match r {
            Ok(list) => texts_of_json(json@) == Some(list.deep_view()),
            Err(_) => texts_of_json(json@) is None,
        },
{
    serde_json::from_str(json)
}

/// A list of texts as JSON.
pub fn encode_texts(list: &Vec<String>) -> (r: Option<String>)
    ensures
        r.deep_view() == json_of_texts(list.deep_view()),
        match r {
            Some(json) => texts_of_json(json@) == Some(list.deep_view()),
            None => true,
        },
{
    match json_write(list) {
        Ok(json) => Some(json),
        Err(_) => None,
    }
}

/// The list that a JSON text holds; an empty one where it holds none.
pub open spec fn decoded_texts(json: Seq<char>) -> Seq<Seq<char>> {
    match texts_of_json(json) {
        Some(list) => list,
        None => Seq::empty(),
    }
}

pub fn decode_texts(json: &str) -> (r: Vec<String>)
    ensures
        r.deep_view() == decoded_texts(json@),
{
    match json_read(json) {
        Ok(list) => list,
        Err(_) => {
            let none: Vec<String> = Vec::new();
            assert(none.deep_view() =~= Seq::<Seq<char>>::empty());
            none
        },
    }
}

} // verus!
