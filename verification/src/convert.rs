//! Conversion of one token into a datum: the length limit, the encoding check,
//! and the caller's number parser.
use vstd::prelude::*;
use vstd::string::StringSliceAdditionalSpecFns;
use vstd::utf8::valid_utf8;
use crate::token::MAX_TOKEN_LEN;

verus! {

/// Why a parse failed.
#[derive(Debug, Clone, Copy, PartialEq, Eq, Structural)]
pub enum ParseError {
    /// A token is not valid UTF-8.
    InvalidEncoding,
    /// A token is valid text but the number parser rejects it.
    NotANumber,
    /// A token is longer than `MAX_TOKEN_LEN` bytes.
    TokenTooLong,
    /// The byte source reported a fault.
    ReadFailed,
}

/// What to do with a token that does not convert.
#[derive(Debug, Clone, Copy, PartialEq, Eq, Structural)]
pub enum ErrorPolicy {
    /// The first such token ends the parse with its error.
    Strict,
    /// Such a token is dropped and the parse goes on.
    Permissive,
}

/// `std::str::from_utf8`: gives the text exactly where the bytes are valid
/// UTF-8, and the text then encodes to those bytes.
#[verifier::external_body]
fn text_of(bytes: &[u8]) -> (r: Option<&str>)
    ensures
        r is Some <==> valid_utf8(bytes@),
        r matches Some(text) ==> text.spec_bytes() == bytes@,
{
    match std::str::from_utf8(bytes) {
        Ok(text) => Some(text),
        Err(_) => None,
    }
}

/// Whether `outcome` is a possible result of converting `token` with
/// `parse_number`. The length limit is checked first, then the encoding, and
/// only valid text reaches the number parser.
pub open spec fn token_converts<T, F: Fn(&str) -> Option<T>>(
    parse_number: F,
    token: Seq<u8>,
    outcome: Result<T, ParseError>,
) -> bool {
    if token.len() > MAX_TOKEN_LEN {
        outcome == Err::<T, ParseError>(ParseError::TokenTooLong)
    } else if !valid_utf8(token) {
        outcome == Err::<T, ParseError>(ParseError::InvalidEncoding)
    } else {
        exists|text: &str| #[trigger]
            text.spec_bytes() == token && call_ensures(
                parse_number,
                (text,),
                number_of(outcome),
            ) && (outcome is Err ==> outcome == Err::<T, ParseError>(ParseError::NotANumber))
    }
}

/// The number parser's answer that stands behind `outcome`.
pub open spec fn number_of<T>(outcome: Result<T, ParseError>) -> Option<T> {
    match outcome {
        Ok(value) => Some(value),
        Err(_) => None,
    }
}

/// Converts one token.
pub fn convert_token<T, F: Fn(&str) -> Option<T>>(parse_number: &F, token: &[u8]) -> (outcome: Result<
    T,
    ParseError,
>)
    requires
        forall|text: &str| call_requires(*parse_number, (text,)),
    ensures
        token_converts(*parse_number, token@, outcome),
{
    if token.len() > MAX_TOKEN_LEN {
        return Err(ParseError::TokenTooLong);
    }
    match text_of(token) {
        None => Err(ParseError::InvalidEncoding),
        Some(text) => match parse_number(text) {
            Some(value) => Ok(value),
            None => Err(ParseError::NotANumber),
        },
    }
}

} // verus!
