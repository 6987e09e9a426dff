//! What the HTTP transport decides for itself: which methods and statuses pass,
//! whether a request carries a body, and what a failed request says.
use vstd::prelude::*;
use vstd::utf8::encode_utf8;

verus! {

/// How the transport names itself to servers.
pub const USER_AGENT: &'static str = "gpui-sys/0.1.0";

/// Why a request failed before or after it was on the wire.
#[derive(Clone, Copy, PartialEq, Eq, Structural, Debug)]
pub enum HttpError {
    /// The transport could not be started.
    Unavailable,
    /// The worker went away before it answered.
    Dropped,
    /// The method is not a token.
    InvalidMethod,
    /// The status is out of range.
    InvalidStatus,
}

/// What an error says.
pub open spec fn message_of(error: HttpError) -> Seq<char> {
    match error {
        HttpError::Unavailable => "gpui-sys: HTTP transport unavailable"@,
        HttpError::Dropped => "gpui-sys: HTTP worker dropped the request"@,
        HttpError::InvalidMethod => "invalid HTTP method"@,
        HttpError::InvalidStatus => "invalid status code"@,
    }
}

impl HttpError {
    /// What the error says.
    pub fn message(&self) -> (text: &'static str)
        ensures
            text@ == message_of(*self),
    {
        match self {
            HttpError::Unavailable => "gpui-sys: HTTP transport unavailable",
            HttpError::Dropped => "gpui-sys: HTTP worker dropped the request",
            HttpError::InvalidMethod => "invalid HTTP method",
            HttpError::InvalidStatus => "invalid status code",
        }
    }
}

/// May a byte stand in a method? Letters, digits and fifteen marks may.
pub open spec fn is_token_byte(byte: u8) -> bool {
    ||| 0x30 <= byte <= 0x39
    ||| 0x41 <= byte <= 0x5a
    ||| 0x61 <= byte <= 0x7a
    ||| byte == 0x21
    ||| 0x23 <= byte <= 0x27
    ||| byte == 0x2a
    ||| byte == 0x2b
    ||| byte == 0x2d
    ||| byte == 0x2e
    ||| 0x5e <= byte <= 0x60
    ||| byte == 0x7c
    ||| byte == 0x7e
}

/// Is a name a method? A non-empty token is.
pub open spec fn is_method(name: Seq<u8>) -> bool {
    name.len() > 0 && forall|i: int| 0 <= i < name.len() ==> is_token_byte(#[trigger] name[i])
}

/// Parses a method with `reqwest::Method::from_bytes`, which accepts the
/// non-empty tokens and keeps them as they stand.
#[verifier::external_body]
fn parse_method(name: &[u8]) -> (parsed: Option<String>)
    ensures
        parsed is Some <==> is_method(name@),
        parsed is Some ==> encode_utf8(parsed->0@) == name@,
{
    match reqwest::Method::from_bytes(name) {
        Ok(method) => Some(method.as_str().to_owned()),
        Err(_) => None,
    }
}

/// Checks the method of a request.
pub fn request_method(name: &str) -> (method: Result<String, HttpError>)
    ensures
        match method {
            Ok(method) => is_method(encode_utf8(name@)) && encode_utf8(method@) == encode_utf8(
                name@,
            ),
            Err(error) => !is_method(encode_utf8(name@)) && error == HttpError::InvalidMethod,
        },
{
    match parse_method(name.as_bytes()) {
        Some(method) => Ok(method),
        None => Err(HttpError::InvalidMethod),
    }
}

/// The body that a request is sent with. An empty one is none at all.
pub fn request_body(payload: Vec<u8>) -> (body: Option<Vec<u8>>)
    ensures
        match body {
            Some(body) => payload@.len() > 0 && body@ == payload@,
            None => payload@.len() == 0,
        },
{
    if payload.is_empty() {
        None
    } else {
        Some(payload)
    }
}

/// Parses a status with `reqwest::StatusCode::from_u16`, which accepts the
/// numbers from 100 to 999 and keeps them as they stand.
#[verifier::external_body]
fn parse_status(code: u16) -> (parsed: Option<u16>)
    ensures
        parsed == if 100 <= code <= 999 {
            Some(code)
        } else {
            None
        },
{
    match reqwest::StatusCode::from_u16(code) {
        Ok(status) => Some(status.as_u16()),
        Err(_) => None,
    }
}

/// Checks the status of a response.
pub fn response_status(code: u16) -> (status: Result<u16, HttpError>)
    ensures
        status == if 100 <= code <= 999 {
            Ok::<u16, HttpError>(code)
        } else {
            Err::<u16, HttpError>(HttpError::InvalidStatus)
        },
{
    match parse_status(code) {
        Some(status) => Ok(status),
        None => Err(HttpError::InvalidStatus),
    }
}

/// The client through which images are loaded. It has no state of its own.
pub struct ReqwestHttpClient;

impl ReqwestHttpClient {
    /// The name of the client.
    pub fn client_name(&self) -> (name: &'static str)
        ensures
            name@ == "ReqwestHttpClient"@,
    {
        "ReqwestHttpClient"
    }

    /// The client adds no name to single requests: the transport names itself in
    /// all of them.
    pub fn user_agent(&self) -> (name: Option<&'static str>)
        ensures
            name is None,
    {
        None
    }

    /// No proxy is used.
    pub fn proxy(&self) -> (url: Option<&'static str>)
        ensures
            url is None,
    {
        None
    }

    /// The answer to a request: `sent` is `None` where there was no transport to
    /// send it with, and what it holds is `None` where no reply came back.
    pub fn send<T, E>(&self, sent: Option<Option<Result<T, E>>>) -> (answer: Result<
        Result<T, E>,
        HttpError,
    >)
        ensures
            answer == match sent {
                None => Err::<Result<T, E>, HttpError>(HttpError::Unavailable),
                Some(None) => Err::<Result<T, E>, HttpError>(HttpError::Dropped),
                Some(Some(reply)) => Ok::<Result<T, E>, HttpError>(reply),
            },
    {
        match sent {
            None => Err(HttpError::Unavailable),
            Some(None) => Err(HttpError::Dropped),
            Some(Some(reply)) => Ok(reply),
        }
    }
}

/// The messages tell the errors apart.
pub proof fn law_messages_are_told_apart(a: HttpError, b: HttpError)
    ensures
        message_of(a) == message_of(b) <==> a == b,
{
    reveal_strlit("gpui-sys: HTTP transport unavailable");
    reveal_strlit("gpui-sys: HTTP worker dropped the request");
    reveal_strlit("invalid HTTP method");
    reveal_strlit("invalid status code");
    assert("gpui-sys: HTTP transport unavailable"@.len() == 36);
    assert("gpui-sys: HTTP worker dropped the request"@.len() == 41);
    assert("invalid HTTP method"@.len() == 19 && "invalid HTTP method"@[8] == 'H');
    assert("invalid status code"@.len() == 19 && "invalid status code"@[8] == 's');
}

} // verus!
