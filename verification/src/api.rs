use vstd::prelude::*;
use vstd::string::*;

verus! {

/// Error answered by the HTTP API.
pub enum ApiError {
    /// The request is invalid (answered with status 400).
    BadRequest(String),
    /// The server failed to produce the model (answered with status 500).
    InternalError(String),
}

/// A hexadecimal digit, lower case, of a value below 16.
pub open spec fn hex_digit(d: int) -> char {
    if d < 10 {
        (d + 48) as char
    } else {
        (d - 10 + 97) as char
    }
}

/// How `serde_json` writes one character inside a string literal: `"` and
/// `\` behind a backslash; backspace, tab, line feed, form feed and carriage
/// return as `\b \t \n \f \r`; the other characters below U+0020 as
/// `\u00` and two lower-case hex digits; every other character as itself.
pub open spec fn json_char(c: char) -> Seq<char> {
    if c == '"' {
        seq!['\\', '"']
    } else if c == '\\' {
        seq!['\\', '\\']
    } else if (c as u32) == 8 {
        seq!['\\', 'b']
    } else if (c as u32) == 9 {
        seq!['\\', 't']
    } else if (c as u32) == 10 {
        seq!['\\', 'n']
    } else if (c as u32) == 12 {
        seq!['\\', 'f']
    } else if (c as u32) == 13 {
        seq!['\\', 'r']
    } else if (c as u32) < 32 {
        seq!['\\', 'u', '0', '0', hex_digit(((c as u32) / 16) as int), hex_digit(((c as u32) % 16) as int)]
    } else {
        seq![c]
    }
}

/// The escaped characters of the first `n` characters of `s`.
pub open spec fn json_escaped(s: Seq<char>, n: int) -> Seq<char>
    decreases n,
{
    if n <= 0 {
        Seq::empty()
    } else {
        json_escaped(s, n - 1) + json_char(s[n - 1])
    }
}

/// The JSON string literal that `serde_json` writes for a text: the escaped
/// text between double quotes.
pub open spec fn json_string(s: Seq<char>) -> Seq<char> {
    seq!['"'] + json_escaped(s, s.len() as int) + seq!['"']
}

/// `serde_json::to_string` on a `str`: the text between double quotes with
/// `"`, `\` and the control characters below U+0020 escaped, the rest
/// written as is (its escape table). Serialising a `str` cannot fail, so the
/// error branch is never taken.
#[verifier::external_body]
fn json_quote(s: &str) -> (quoted: String)
    ensures
        quoted@ == json_string(s@),
{
    serde_json::to_string(s).unwrap_or_default()
}

/// The JSON body of an error response around an already quoted message:
/// `{"error":<message>}`.
pub fn error_body_from_json(quoted_message: &str) -> (body: String)
    ensures
        body@ == "{\"error\":"@ + quoted_message@ + "}"@,
{
    let mut body = String::from_str("{\"error\":");
    body.append(quoted_message);
    body.append("}");
    body
}

impl ApiError {
    /// The error message, as text.
    pub open spec fn message_text(self) -> Seq<char> {
        match self {
            ApiError::BadRequest(m) => m@,
            ApiError::InternalError(m) => m@,
        }
    }

    /// The HTTP status code of the response.
    pub fn status_code(&self) -> (code: u16)
        ensures
            code == match self {
                ApiError::BadRequest(_) => 400u16,
                ApiError::InternalError(_) => 500u16,
            },
    {
        match self {
            ApiError::BadRequest(_) => 400,
            ApiError::InternalError(_) => 500,
        }
    }

    /// The error message.
    pub fn message(&self) -> (msg: &String)
        ensures
            *msg == match self {
                ApiError::BadRequest(m) => *m,
                ApiError::InternalError(m) => *m,
            },
    {
        match self {
            ApiError::BadRequest(m) => m,
            ApiError::InternalError(m) => m,
        }
    }

    /// The JSON body of the response: `{"error":"<message>"}`.
    pub fn body(&self) -> (body: String)
        ensures
            body@ == "{\"error\":"@ + json_string(self.message_text()) + "}"@,
    {
        let quoted = json_quote(self.message().as_str());
        error_body_from_json(quoted.as_str())
    }
}

/// Smallest grid resolution (points per axis) a request may ask for.
pub const MIN_RESOLUTION: u32 = 50;

/// Largest grid resolution (points per axis) a request may ask for.
pub const MAX_RESOLUTION: u32 = 200;

/// Whether a requested grid resolution lies in the accepted range.
pub fn resolution_in_range(resolution: u32) -> (ok: bool)
    ensures
        ok == (MIN_RESOLUTION <= resolution <= MAX_RESOLUTION),
{
    MIN_RESOLUTION <= resolution && resolution <= MAX_RESOLUTION
}

} // verus!
