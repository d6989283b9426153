//! Reading the reply of the OpenAI chat-completions API.

use vstd::prelude::*;
use vstd::string::StringExecFns;

verus! {

/// Whether `serde_json` reads `body` as a JSON document.
pub uninterp spec fn json_parses(body: Seq<char>) -> bool;

/// Trusted: wraps `serde_json::from_str::<serde_json::Value>`, reporting
/// only whether it succeeds; the answer is named `json_parses` and depends
/// on the text alone.
#[verifier::external_body]
fn parses_as_json(body: &str) -> (r: bool)
    ensures
        r == json_parses(body@),
{
    serde_json::from_str::<serde_json::Value>(body).is_ok()
}

/// One step of a path into a JSON document: an object key or an array
/// index.
#[derive(Debug)]
pub enum JsonStep {
    Key(String),
    Index(usize),
}

/// What a path step selects.
pub enum JsonStepView {
    Key(Seq<char>),
    Index(nat),
}

impl View for JsonStep {
    type V = JsonStepView;

    open spec fn view(&self) -> JsonStepView {
        match self {
            JsonStep::Key(k) => JsonStepView::Key(k@),
            JsonStep::Index(i) => JsonStepView::Index(*i as nat),
        }
    }
}

/// The steps of a path, as they select.
pub open spec fn path_view(path: Seq<JsonStep>) -> Seq<JsonStepView> {
    path.map_values(|st: JsonStep| st@)
}

/// The string that `serde_json` finds in the JSON document `body` by
/// following `path` (each step with `Value::get`) and then `Value::as_str`:
/// `None` when `body` is not JSON, when a step finds nothing (a key on a
/// value that is not an object or that lacks it, an index on a value that
/// is not an array or is too short) or when the value reached is not a
/// string.
pub uninterp spec fn json_str_at(body: Seq<char>, path: Seq<JsonStepView>) -> Option<Seq<char>>;

/// Trusted: parses `body` with `serde_json::from_str::<serde_json::Value>`,
/// follows `path` with `Value::get` (a key or an index per step) and reads
/// the value reached with `Value::as_str`; the result is named
/// `json_str_at` and depends on the text and the path alone.
#[verifier::external_body]
fn json_str_at_exec(body: &str, path: &Vec<JsonStep>) -> (r: Option<String>)
    ensures
        r matches Some(c) ==> json_str_at(body@, path_view(path@)) == Some(c@),
        r is None ==> json_str_at(body@, path_view(path@)) is None,
{
    let v: serde_json::Value = serde_json::from_str(body).ok()?;
    let mut cur = &v;
    for step in path {
        cur = match step {
            JsonStep::Key(k) => cur.get(k.as_str())?,
            JsonStep::Index(i) => cur.get(*i)?,
        };
    }
    Some(cur.as_str()?.to_string())
}

/// Where a chat-completions reply holds the answer text:
/// `choices[0].message.content`.
pub open spec fn content_path() -> Seq<JsonStepView> {
    seq![
        JsonStepView::Key("choices"@),
        JsonStepView::Index(0),
        JsonStepView::Key("message"@),
        JsonStepView::Key("content"@),
    ]
}

/// The path `choices[0].message.content`.
fn content_path_exec() -> (path: Vec<JsonStep>)
    ensures
        path_view(path@) == content_path(),
{
    let path = vec![
        JsonStep::Key(String::from_str("choices")),
        JsonStep::Index(0),
        JsonStep::Key(String::from_str("message")),
        JsonStep::Key(String::from_str("content")),
    ];
    assert(path_view(path@) =~= content_path());
    path
}

/// Why an OpenAI reply gave no answer.
#[derive(Debug)]
pub enum OpenAiError {
    /// The HTTP status was not a success; `status` is its text (such as
    /// `404 Not Found`) and `body` the reply body.
    Status { code: u16, status: String, body: String },
    /// The body is not JSON.
    Parse,
    /// The body has no string at `choices[0].message.content`.
    MissingContent,
}

impl OpenAiError {
    /// The message shown for the error.
    pub open spec fn message_text(&self) -> Seq<char> {
        match self {
            OpenAiError::Status { code, status, body } => "OpenAI API error ("@ + status@ + "): "@
                + body@,
            OpenAiError::Parse => "parse OpenAI JSON response"@,
            OpenAiError::MissingContent => "OpenAI response missing choices[0].message.content"@,
        }
    }

    /// The message shown for the error.
    pub fn message(&self) -> (r: String)
        ensures
            r@ == self.message_text(),
    {
        match self {
            OpenAiError::Status { code, status, body } => {
                let mut s = String::from_str("OpenAI API error (");
                s.append(status.as_str());
                s.append("): ");
                s.append(body.as_str());
                s
            },
            OpenAiError::Parse => String::from_str("parse OpenAI JSON response"),
            OpenAiError::MissingContent => String::from_str(
                "OpenAI response missing choices[0].message.content",
            ),
        }
    }
}

/// A success status: 200 to 299.
pub open spec fn is_success(code: u16) -> bool {
    200 <= code < 300
}

/// The answer text in a reply with status `code` (whose text is
/// `status_text`) and body `body`: a non-success status is an error, then a
/// body that is not JSON, then one without a string at
/// `choices[0].message.content`.
pub fn openai_reply(code: u16, status_text: &str, body: &str) -> (r: Result<String, OpenAiError>)
    ensures
        !is_success(code) ==> (r matches Err(OpenAiError::Status { code: c, status, body: b }) && c
            == code && status@ == status_text@ && b@ == body@),
        is_success(code) && !json_parses(body@) ==> (r matches Err(OpenAiError::Parse)),
        is_success(code) && json_parses(body@) ==> match json_str_at(body@, content_path()) {
            Some(c) => (r matches Ok(s) && s@ == c),
            None => (r matches Err(OpenAiError::MissingContent)),
        },
{
    if !(200 <= code && code < 300) {
        return Err(
            OpenAiError::Status {
                code,
                status: String::from_str(status_text),
                body: String::from_str(body),
            },
        );
    }
    if !parses_as_json(body) {
        return Err(OpenAiError::Parse);
    }
    let path = content_path_exec();
    match json_str_at_exec(body, &path) {
        Some(c) => Ok(c),
        None => Err(OpenAiError::MissingContent),
    }
}

} // verus!
