//! How the language model is reached.
use crate::error::Error;
use vstd::prelude::*;

verus! {

/// The options of the language-model client.
pub struct LLMOptions {
    /// The LLM model to be used.
    pub model: String,
    /// The endpoint URL for the LLM OpenAI API.
    pub endpoint: String,
    /// The API key for the LLM OpenAI API.
    pub api_key: String,
    /// The API timeout for requests.
    pub api_timeout: core::time::Duration,
}

/// `url::Url`, a parsed URL. It is handed on as it comes.
#[verifier::external_type_specification]
#[verifier::external_body]
pub struct ExUrl(url::Url);

/// `url::ParseError`, the reason why a text is no URL. Only its description
/// is taken from it.
#[verifier::external_type_specification]
#[verifier::external_body]
pub struct ExParseError(url::ParseError);

/// Whether `text` is an absolute URL, as the parser of URLs decides it.
pub uninterp spec fn is_url(text: Seq<char>) -> bool;

/// `url::Url::parse`: whether it succeeds depends on the text alone; the
/// texts on which it does are named the absolute URLs here.
#[verifier::external_body]
fn parse_url(text: &str) -> (r: Result<url::Url, url::ParseError>)
    ensures
        r is Ok <==> is_url(text@),
{
    url::Url::parse(text)
}

/// `to_string` of `url::ParseError`: the description of the error. Nothing is
/// claimed of it.
#[verifier::external_body]
fn describe(error: &url::ParseError) -> String {
    error.to_string()
}

/// What becomes of a parsed endpoint: the URL, or the error of this library
/// that carries the description of the parser's.
pub fn endpoint_result(parsed: Result<url::Url, url::ParseError>) -> (r: Result<url::Url, Error>)
    ensures
        match parsed {
            Ok(url) => r == Ok::<url::Url, Error>(url),
            Err(_) => r matches Err(Error::Url(_)),
        },
{
    match parsed {
        Ok(url) => Ok(url),
        Err(e) => Err(Error::Url(describe(&e))),
    }
}

impl LLMOptions {
    /// The endpoint as a URL. An endpoint that is no absolute URL is an
    /// error.
    pub fn endpoint_url(&self) -> (r: Result<url::Url, Error>)
        ensures
            r is Ok <==> is_url(self.endpoint@),
            r matches Err(e) ==> e is Url,
    {
        endpoint_result(parse_url(self.endpoint.as_str()))
    }
}

} // verus!
