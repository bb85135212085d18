//! Requests agents send to the coordinator and the responses they get, one
//! JSON object per line on the wire.

use vstd::prelude::*;
use crate::text::owned;

verus! {

#[derive(Debug, PartialEq)]
pub struct Request {
    pub id: String,
    pub token: String,
    pub action: String,
    pub agent_id: Option<String>,
    pub meta: serde_json::Value,
    pub event: serde_json::Value,
    /// The CAP version a `submit_event` request speaks.
    pub cap_version: Option<String>,
}

/// What a successful CAP event answers besides success: the claim made (its
/// id and status) and the advice for it, the status and reason of a rejected
/// claim, or an agent's new generation.
#[derive(Debug, Clone, PartialEq, Eq)]
pub struct ResponseData {
    pub claim_id: Option<String>,
    pub status: Option<String>,
    pub recommendation: Option<String>,
    pub reason: Option<String>,
    pub generation: Option<u64>,
}

#[derive(Debug, Clone, PartialEq, Eq)]
pub struct Response {
    pub id: String,
    pub ok: bool,
    pub agent_id: Option<String>,
    pub error: Option<String>,
    pub data: Option<ResponseData>,
}

/// A success for request `id`, with nothing more.
pub open spec fn answers_ok(r: Response, id: Seq<char>) -> bool {
    r.id@ == id && r.ok && r.agent_id is None && r.error is None && r.data is None
}

/// A success for request `id` naming agent `agent`.
pub open spec fn answers_agent(r: Response, id: Seq<char>, agent: Seq<char>) -> bool {
    r.id@ == id && r.ok && (r.agent_id matches Some(a) && a@ == agent) && r.error is None && r.data is None
}

/// A failure for request `id` with message `msg`.
pub open spec fn answers_err(r: Response, id: Seq<char>, msg: Seq<char>) -> bool {
    r.id@ == id && !r.ok && r.agent_id is None && (r.error matches Some(e) && e@ == msg) && r.data is None
}

/// A success for request `id` carrying `data`.
pub open spec fn answers_data(r: Response, id: Seq<char>, data: ResponseData) -> bool {
    r.id@ == id && r.ok && r.agent_id is None && r.error is None && r.data == Some(data)
}

impl Response {
    /// Success, with nothing more to say.
    pub fn ok_for(id: &str) -> (r: Response)
        ensures
            answers_ok(r, id@),
    {
        Response { id: owned(id), ok: true, agent_id: None, error: None, data: None }
    }

    /// Success, naming an agent (the id a registration got).
    pub fn ok_with_agent(id: &str, agent_id: &str) -> (r: Response)
        ensures
            answers_agent(r, id@, agent_id@),
    {
        Response { id: owned(id), ok: true, agent_id: Some(owned(agent_id)), error: None, data: None }
    }

    /// Success, with data.
    pub fn ok_with_data(id: &str, data: ResponseData) -> (r: Response)
        ensures
            answers_data(r, id@, data),
    {
        Response { id: owned(id), ok: true, agent_id: None, error: None, data: Some(data) }
    }

    /// Failure, with a message.
    pub fn err(id: &str, msg: &str) -> (r: Response)
        ensures
            answers_err(r, id@, msg@),
    {
        Response { id: owned(id), ok: false, agent_id: None, error: Some(owned(msg)), data: None }
    }
}

} // verus!
