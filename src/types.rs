//! The task definition and its parts.

use vstd::prelude::*;
use crate::value::Value;

verus! {

/// One check on a response.
#[derive(Debug)]
pub enum Expect {
    /// The status code equals `code`.
    Status { code: u16 },
    /// The node at the dotted `path` of the parsed body renders as `value`.
    JsonPath { path: String, value: String },
    /// The response text contains `contains`.
    Raw { contains: String },
}

/// The model of an expectation.
pub enum ExpectModel {
    Status(u16),
    JsonPath(Seq<char>, Seq<char>),
    Raw(Seq<char>),
}

impl View for Expect {
    type V = ExpectModel;

    open spec fn view(&self) -> ExpectModel {
        match self {
            Expect::Status { code } => ExpectModel::Status(*code),
            Expect::JsonPath { path, value } => ExpectModel::JsonPath(path@, value@),
            Expect::Raw { contains } => ExpectModel::Raw(contains@),
        }
    }
}

/// The models of a list of expectations.
pub open spec fn expects_of(s: Seq<Expect>) -> Seq<ExpectModel> {
    s.map_values(|e: Expect| e@)
}

/// A named list of tasks, run in order.
#[derive(Debug)]
pub struct Workflow {
    pub name: String,
    pub tasks: Vec<Task>,
}

/// How a task's body goes on the wire.
#[derive(Clone, Copy, Debug, PartialEq, Eq, Structural)]
pub enum BodyType {
    FormUrlencoded,
    Json,
    Raw,
    FormMultipart,
}

/// One step of a workflow.
#[derive(Debug)]
pub struct Task {
    pub name: String,
    /// `http` runs a request; `display` shows registered responses.
    pub kind: String,
    pub method: String,
    pub url: String,
    /// Header names and values, in order.
    pub headers: Vec<(String, String)>,
    pub body: Option<Value>,
    pub body_type: Option<BodyType>,
    pub depends_on: Vec<String>,
    pub retries: u32,
    /// Seconds to wait between attempts.
    pub retry_delay: u64,
    pub expect: Vec<Expect>,
    pub register: Option<String>,
    pub auth: Option<BasicAuth>,
    pub save_as: Option<String>,
    pub variables: Option<Vec<String>>,
}

/// Basic-auth credentials.
#[derive(Debug)]
pub struct BasicAuth {
    pub username: String,
    pub password: String,
}

/// How many times a failed attempt is retried when a task does not say.
pub fn default_retries() -> (r: u32)
    ensures
        r == 1,
{
    1
}

/// Seconds between attempts when a task does not say.
pub fn default_retry_delay() -> (r: u64)
    ensures
        r == 5,
{
    5
}

} // verus!
