//! Bearer-token identity extraction from request headers.

use vstd::prelude::*;
use crate::errors::PipelineError;

verus! {

#[verifier::external_type_specification]
#[verifier::external_body]
pub struct ExHeaderValue(http::HeaderValue);

#[verifier::external_type_specification]
#[verifier::external_body]
#[verifier::reject_recursive_types(T)]
pub struct ExHeaderMap<T>(http::HeaderMap<T>);

/// The bytes a header value holds.
pub uninterp spec fn header_value_bytes(v: http::HeaderValue) -> Seq<u8>;

/// The bytes of the first value stored under a name in a header map, if the
/// map holds one.
pub uninterp spec fn header_entry(m: http::HeaderMap, name: Seq<char>) -> Option<Seq<u8>>;

/// A byte a header value may hold while still reading as text: visible
/// ASCII or tab.
pub open spec fn is_visible_header_byte(b: u8) -> bool {
    b == 9 || (32 <= b && b < 127)
}

/// Every byte of the value reads as text.
pub open spec fn header_decodable(b: Seq<u8>) -> bool {
    forall|i: int| 0 <= i < b.len() ==> is_visible_header_byte(#[trigger] b[i])
}

/// The text of a run of visible header bytes.
pub open spec fn header_text(b: Seq<u8>) -> Seq<char> {
    Seq::new(b.len(), |i: int| b[i] as char)
}

/// The token a header text carries: everything after the first 7 characters
/// (the `"Bearer "` scheme), empty if the text is shorter than that.
pub open spec fn token_of(s: Seq<char>) -> Seq<char> {
    if s.len() <= 7 {
        Seq::empty()
    } else {
        s.skip(7)
    }
}

/// Relies on http::HeaderMap::get: returns the first value stored under
/// `name`, and nothing exactly when the map holds no value under `name`.
#[verifier::external_body]
fn header_get<'a>(m: &'a http::HeaderMap, name: &str) -> (r: Option<&'a http::HeaderValue>)
    ensures
        match r {
            Some(v) => header_entry(*m, name@) == Some(header_value_bytes(*v)),
            None => header_entry(*m, name@) is None,
        },
{
    m.get(name)
}

/// Relies on http::HeaderValue::to_str: succeeds exactly when every byte of
/// the value is visible ASCII or tab, and then returns those bytes as text.
#[verifier::external_body]
fn header_value_text(v: &http::HeaderValue) -> (r: Option<String>)
    ensures
        match r {
            Some(s) => header_decodable(header_value_bytes(*v)) && s@ == header_text(
                header_value_bytes(*v),
            ),
            None => !header_decodable(header_value_bytes(*v)),
        },
{
    match v.to_str() {
        Ok(s) => Some(s.to_string()),
        Err(_) => None,
    }
}

/// Raw bearer credential: the `Authorization` value after its fixed
/// 7-character scheme prefix. Created per request, discarded after identity
/// resolution.
#[derive(Debug)]
pub struct BearerToken(String);

impl View for BearerToken {
    type V = Seq<char>;

    closed spec fn view(&self) -> Seq<char> {
        self.0@
    }
}

impl BearerToken {
    /// Build the token from a decoded header text by stripping the fixed
    /// 7-character scheme prefix. A shorter text yields an empty token; the
    /// scheme word itself is not validated, so a malformed header at least 7
    /// characters long is accepted with a garbled token.
    pub fn from_header_text(s: &str) -> (t: BearerToken)
        ensures
            t@ == token_of(s@),
    {
        let n = s.unicode_len();
        if n <= 7 {
            BearerToken(String::new())
        } else {
            let tail = s.substring_char(7, n);
            proof {
                assert(s@.skip(7) =~= s@.subrange(7, n as int));
            }
            BearerToken(String::from_str(tail))
        }
    }

    /// Build the token straight from a header value: decode it as text, then
    /// strip the scheme prefix. Fails exactly when the value does not read
    /// as text.
    pub fn from_header_value(v: &http::HeaderValue) -> (r: Result<BearerToken, PipelineError>)
        ensures
            match r {
                Ok(t) => header_decodable(header_value_bytes(*v)) && t@ == token_of(
                    header_text(header_value_bytes(*v)),
                ),
                Err(e) => !header_decodable(header_value_bytes(*v)) && e
                    == PipelineError::AuthenticationRequired,
            },
    {
        match header_value_text(v) {
            None => Err(PipelineError::AuthenticationRequired),
            Some(s) => Ok(BearerToken::from_header_text(s.as_str())),
        }
    }

    /// The raw token text.
    pub fn as_text(&self) -> (s: &str)
        ensures
            s@ == self@,
    {
        self.0.as_str()
    }

    /// Placeholder identity resolution: ignores the token contents and
    /// returns a fixed identity. A real deployment must swap in genuine
    /// token verification here.
    pub fn get_user_id(&self) -> (r: Result<String, PipelineError>)
        ensures
            r matches Ok(id) && id@ == "Migo"@,
    {
        Ok(String::from_str("Migo"))
    }
}

/// Derives a caller identity from request headers, for routes that require
/// authentication.
pub struct IdentityExtractor;

impl IdentityExtractor {
    /// Outcome of extraction as a function of the `Authorization` entry
    /// alone: absent or unreadable gives an authentication error, otherwise
    /// the token is the text after the scheme prefix.
    pub open spec fn extract_spec(auth: Option<Seq<u8>>) -> Result<Seq<char>, PipelineError> {
        match auth {
            None => Err(PipelineError::AuthenticationRequired),
            Some(b) => if header_decodable(b) {
                Ok(token_of(header_text(b)))
            } else {
                Err(PipelineError::AuthenticationRequired)
            },
        }
    }

    /// Look up the `Authorization` header and build the bearer token from it.
    pub fn extract(headers: &http::HeaderMap) -> (r: Result<BearerToken, PipelineError>)
        ensures
            ({
                let outcome = IdentityExtractor::extract_spec(
                    header_entry(*headers, "Authorization"@),
                );
                match r {
                    Ok(t) => outcome matches Ok(tok) && t@ == tok,
                    Err(e) => outcome matches Err(e2) && e == e2,
                }
            }),
    {
        match header_get(headers, "Authorization") {
            None => Err(PipelineError::AuthenticationRequired),
            Some(v) => BearerToken::from_header_value(v),
        }
    }
}

} // verus!
