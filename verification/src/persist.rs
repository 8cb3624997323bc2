//! The index as a text that can be stored: a JSON object that binds each
//! document's path to an object of its terms and counts.

use crate::index::{distinct_documents, documents_of, Index};
use std::collections::BTreeMap;
use vstd::prelude::*;

verus! {

/// The error type of `serde_json`. Nothing is known of a value of it.
#[verifier::external_type_specification]
#[verifier::external_body]
pub struct ExJsonError(serde_json::Error);

/// The text that `serde_json::to_string_pretty` gives for a map from paths to
/// maps from terms to counts.
pub uninterp spec fn pretty_json(documents: Map<Seq<char>, Map<Seq<char>, nat>>) -> Seq<char>;

/// `serde_json::to_string_pretty`, called on the ordered map that the list of
/// documents stands for. The list holds no path twice and no term twice in a
/// document, so each entry of the list is one entry of the map. The contract
/// claims two things. A text comes back: the serializer writes into a vector
/// of bytes, every key is a string and every value an unsigned integer, and
/// its errors come from a failing writer, a key that is no string, or a
/// value's own refusal, none of which can occur here. And the text depends on
/// the map alone, and is called [`pretty_json`] of the map. Nothing is claimed
/// of what the text holds.
#[verifier::external_body]
fn to_pretty_json(documents: &Vec<(String, Vec<(String, usize)>)>) -> (text: Result<
    String,
    serde_json::Error,
>)
    requires
        distinct_documents(documents@),
    ensures
        text is Ok,
        text matches Ok(t) ==> t@ == pretty_json(documents_of(documents@)),
{
    let map: BTreeMap<&String, BTreeMap<&String, usize>> = documents.iter().map(
        |(path, counts)| (path, counts.iter().map(|(term, n)| (term, *n)).collect()),
    ).collect();
    serde_json::to_string_pretty(&map)
}

/// Why an index could not be rendered.
#[derive(Clone, Copy, Debug, PartialEq, Eq, Structural)]
pub enum RenderError {
    /// The serializer gave up.
    Serialization,
}

/// What the serializer's answer means for the caller: its text as it is, or
/// [`RenderError::Serialization`] for any error of its own.
pub fn rendered(answer: Result<String, serde_json::Error>) -> (text: Result<String, RenderError>)
    ensures
        match (answer, text) {
            (Ok(given), Ok(kept)) => kept == given,
            (Err(_), Err(e)) => e == RenderError::Serialization,
            _ => false,
        },
{
    match answer {
        Ok(given) => Ok(given),
        Err(_) => Err(RenderError::Serialization),
    }
}

/// Renders `index` as pretty-printed JSON: one object, with a member for each
/// document, whose value is an object with a member for each term and its
/// count. Every valid index has a text, and the text depends on the index as
/// a mapping only, not on the order in which its documents came in.
pub fn render_index(index: &Index) -> (text: Result<String, RenderError>)
    requires
        index.wf(),
    ensures
        text is Ok,
        text matches Ok(t) ==> t@ == pretty_json(index@),
{
    let documents = index.entries();
    rendered(to_pretty_json(&documents))
}

} // verus!
