use vstd::prelude::*;
use serde_json::Value;

verus! {

/// Structured values handed to tool and prompt handlers; opaque here, they are
/// only carried through.
#[verifier::external_type_specification]
#[verifier::external_body]
pub struct ExValue(serde_json::Value);

/// A remote peer that may hold capabilities that are absent locally.
pub struct RemoteMcpServer {
    pub id: String,
    pub url: String,
}

/// A callable capability: structured input in, structured output or an error out.
pub struct Tool<H> {
    pub name: String,
    pub description: String,
    pub input_schema: Value,
    pub handler: H,
}

/// A read-only capability producing string content.
pub struct Resource<H> {
    pub name: String,
    pub description: String,
    pub path: String,
    pub handler: H,
}

/// A capability expanding a template into a sequence of messages.
pub struct Prompt<H> {
    pub name: String,
    pub description: String,
    pub template: String,
    pub handler: H,
}

/// The closed set of capability kinds, each carrying its own handler.
pub enum Capability<T, R, P> {
    Tool(Tool<T>),
    Resource(Resource<R>),
    Prompt(Prompt<P>),
}

impl<T, R, P> Capability<T, R, P> {
    /// The name that identifies the capability, whatever its kind.
    pub open spec fn spec_name(&self) -> Seq<char> {
        match self {
            Capability::Tool(t) => t.name@,
            Capability::Resource(r) => r.name@,
            Capability::Prompt(p) => p.name@,
        }
    }

    pub fn name(&self) -> (r: &String)
        ensures
            r@ == self.spec_name(),
    {
        match self {
            Capability::Tool(t) => &t.name,
            Capability::Resource(r) => &r.name,
            Capability::Prompt(p) => &p.name,
        }
    }
}

/// The ways in which fetching, executing or resolving a capability can fail.
/// Each variant carries the capability name it concerns, except
/// `HandlerFailed`, which carries the handler's own message verbatim.
#[derive(Debug, PartialEq, Eq)]
pub enum McpError {
    NotFound(String),
    NotFetchable(String),
    WrongVariant(String),
    HandlerFailed(String),
    AllPeersExhausted(String),
}

/// What a handler's outcome becomes once dispatched: success passes through
/// unchanged, a failure message becomes `HandlerFailed` with that message.
pub open spec fn from_handler<V>(h: Result<V, String>) -> Result<V, McpError> {
    match h {
        Ok(v) => Ok(v),
        Err(e) => Err(McpError::HandlerFailed(e)),
    }
}

pub fn lift_handler_result<V>(h: Result<V, String>) -> (r: Result<V, McpError>)
    ensures
        r == from_handler(h),
{
    match h {
        Ok(v) => Ok(v),
        Err(e) => Err(McpError::HandlerFailed(e)),
    }
}

} // verus!
