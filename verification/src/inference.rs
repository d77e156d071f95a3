//! The completion client's pure half: turning a raw response text into
//! the reply to relay, with every failure reported as a recoverable
//! error. The HTTP transport around it lives outside the library.

use vstd::prelude::*;
use crate::models::{ResponseBody, ResponseBodyV};
use crate::parser::{p_response, parse_response};

verus! {

/// Why a completion reply could not be produced from a response.
#[derive(Debug, Clone, Copy, PartialEq, Eq, Structural)]
pub enum ResponseError {
    /// The response text does not follow the documented shape.
    Malformed,
    /// The response carries no choice at all.
    NoChoices,
}

/// The reply text of a parsed response: the first choice's content.
pub open spec fn spec_reply(b: ResponseBodyV) -> Seq<char> {
    b.choices[0].message.content
}

/// Extracts the reply from a parsed response: the content of the first
/// choice. An empty `choices` array is a reported error, never a crash.
pub fn extract_reply(body: &ResponseBody) -> (r: Result<String, ResponseError>)
    ensures
        match r {
            Ok(text) => body@.choices.len() > 0 && text@ == spec_reply(body@),
            Err(e) => body@.choices.len() == 0 && e == ResponseError::NoChoices,
        },
{
    if body.choices.len() == 0 {
        Err(ResponseError::NoChoices)
    } else {
        Ok(body.choices[0].message.content.clone())
    }
}

/// Turns one raw completion-response text into the reply to relay: parses
/// the documented shape, then takes the first choice's content. Exactly
/// the malformed texts give `Malformed`; exactly the well-formed texts
/// without a choice give `NoChoices`.
pub fn complete(raw: &str) -> (r: Result<String, ResponseError>)
    ensures
        match r {
            Ok(text) => {
                &&& p_response(raw@) matches Some(b) && b.choices.len() > 0 && text@ == spec_reply(
                    b,
                )
            },
            Err(e) => {
                if e == ResponseError::Malformed {
                    p_response(raw@) is None
                } else {
                    &&& e == ResponseError::NoChoices
                    &&& p_response(raw@) matches Some(b) && b.choices.len() == 0
                }
            },
        },
{
    match parse_response(raw) {
        None => Err(ResponseError::Malformed),
        Some(body) => extract_reply(&body),
    }
}

} // verus!
