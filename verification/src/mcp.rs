//! The JSON-RPC 2.0 layer of the MCP endpoint: what a request asks the
//! server to do, decided from the fields the transport read out of it.
use vstd::prelude::*;

verus! {

/// A resource the server exposes.
#[derive(Debug, Clone, Copy, PartialEq, Eq)]
pub enum McpResource {
    /// `openapi://spec`: the server's OpenAPI document.
    OpenApiSpec,
    /// `health://status`: the health report.
    HealthStatus,
}

/// A tool a client asked to call.
#[derive(Debug, Clone, PartialEq, Eq)]
pub enum McpTool {
    HealthCheck,
    SelfIssueApiKey,
    /// A tool the server does not have (answered as a tool-level error).
    Unknown(String),
}

/// What to do with one JSON-RPC request.
#[derive(Debug, Clone, PartialEq, Eq)]
pub enum McpStep {
    /// A notification (no `id`): no response at all.
    NoReply,
    /// A JSON-RPC error response with this code and message.
    Error(i64, String),
    /// The `initialize` handshake result.
    Initialize,
    /// The tool catalog.
    ToolsList,
    /// The resource catalog.
    ResourcesList,
    /// The contents of this resource.
    ReadResource(McpResource),
    /// The result of calling this tool.
    CallTool(McpTool),
}

/// [`McpStep`] as plain values, for contracts.
pub enum StepM {
    NoReply,
    Error(i64, Seq<char>),
    Initialize,
    ToolsList,
    ResourcesList,
    ReadResource(McpResource),
    CallTool(ToolM),
}

pub enum ToolM {
    HealthCheck,
    SelfIssueApiKey,
    Unknown(Seq<char>),
}

impl McpStep {
    pub open spec fn model(self) -> StepM {
        match self {
            McpStep::NoReply => StepM::NoReply,
            McpStep::Error(c, m) => StepM::Error(c, m@),
            McpStep::Initialize => StepM::Initialize,
            McpStep::ToolsList => StepM::ToolsList,
            McpStep::ResourcesList => StepM::ResourcesList,
            McpStep::ReadResource(r) => StepM::ReadResource(r),
            McpStep::CallTool(t) => StepM::CallTool(
                match t {
                    McpTool::HealthCheck => ToolM::HealthCheck,
                    McpTool::SelfIssueApiKey => ToolM::SelfIssueApiKey,
                    McpTool::Unknown(n) => ToolM::Unknown(n@),
                },
            ),
        }
    }
}

/// The JSON-RPC error code of a request that is not valid JSON-RPC 2.0.
pub open spec fn invalid_request() -> i64 {
    -32600i64
}

/// The JSON-RPC error code of an unknown method.
pub open spec fn method_not_found() -> i64 {
    -32601i64
}

/// The JSON-RPC error code of missing or bad parameters.
pub open spec fn invalid_params() -> i64 {
    -32602i64
}

/// What a request with (`has_id`) or without an id, the `jsonrpc`
/// version text, the `method`, and the `uri` and `name` string parameters
/// (where present) asks for. A notification gets no reply; a version
/// other than `2.0` is an invalid request; `resources/read` needs a known
/// `uri` and `tools/call` a `name`; any other method is not found.
pub open spec fn mcp_step_spec(
    has_id: bool,
    jsonrpc: Seq<char>,
    method: Seq<char>,
    uri: Option<Seq<char>>,
    name: Option<Seq<char>>,
) -> StepM {
    if !has_id {
        StepM::NoReply
    } else if jsonrpc != "2.0"@ {
        StepM::Error(invalid_request(), "invalid request: jsonrpc must be \"2.0\""@)
    } else if method == "initialize"@ {
        StepM::Initialize
    } else if method == "tools/list"@ {
        StepM::ToolsList
    } else if method == "resources/list"@ {
        StepM::ResourcesList
    } else if method == "resources/read"@ {
        match uri {
            None => StepM::Error(invalid_params(), "invalid params: missing \"uri\""@),
            Some(u) => if u == "openapi://spec"@ {
                StepM::ReadResource(McpResource::OpenApiSpec)
            } else if u == "health://status"@ {
                StepM::ReadResource(McpResource::HealthStatus)
            } else {
                StepM::Error(invalid_params(), "unknown resource: "@ + u)
            },
        }
    } else if method == "tools/call"@ {
        match name {
            None => StepM::Error(invalid_params(), "invalid params: missing \"name\""@),
            Some(n) => if n == "health_check"@ {
                StepM::CallTool(ToolM::HealthCheck)
            } else if n == "self_issue_api_key"@ {
                StepM::CallTool(ToolM::SelfIssueApiKey)
            } else {
                StepM::CallTool(ToolM::Unknown(n))
            },
        }
    } else {
        StepM::Error(method_not_found(), "method not found: "@ + method)
    }
}

pub open spec fn opt_text(o: Option<&str>) -> Option<Seq<char>> {
    match o {
        Some(s) => Some(s@),
        None => None,
    }
}

/// Decides what a JSON-RPC request to the MCP endpoint asks for (see
/// [`mcp_step_spec`]).
pub fn mcp_step(has_id: bool, jsonrpc: &str, method: &str, uri: Option<&str>, name: Option<&str>) -> (r: McpStep)
    ensures
        r.model() == mcp_step_spec(has_id, jsonrpc@, method@, opt_text(uri), opt_text(name)),
{
    if !has_id {
        return McpStep::NoReply;
    }
    if jsonrpc.to_owned() != "2.0".to_owned() {
        return McpStep::Error(-32600, "invalid request: jsonrpc must be \"2.0\"".to_owned());
    }
    let m = method.to_owned();
    if m == "initialize".to_owned() {
        McpStep::Initialize
    } else if m == "tools/list".to_owned() {
        McpStep::ToolsList
    } else if m == "resources/list".to_owned() {
        McpStep::ResourcesList
    } else if m == "resources/read".to_owned() {
        match uri {
            None => McpStep::Error(-32602, "invalid params: missing \"uri\"".to_owned()),
            Some(u) => {
                let us = u.to_owned();
                if us == "openapi://spec".to_owned() {
                    McpStep::ReadResource(McpResource::OpenApiSpec)
                } else if us == "health://status".to_owned() {
                    McpStep::ReadResource(McpResource::HealthStatus)
                } else {
                    let mut msg = "unknown resource: ".to_owned();
                    msg.append(u);
                    McpStep::Error(-32602, msg)
                }
            },
        }
    } else if m == "tools/call".to_owned() {
        match name {
            None => McpStep::Error(-32602, "invalid params: missing \"name\"".to_owned()),
            Some(n) => {
                let ns = n.to_owned();
                if ns == "health_check".to_owned() {
                    McpStep::CallTool(McpTool::HealthCheck)
                } else if ns == "self_issue_api_key".to_owned() {
                    McpStep::CallTool(McpTool::SelfIssueApiKey)
                } else {
                    McpStep::CallTool(McpTool::Unknown(ns))
                }
            },
        }
    } else {
        let mut msg = "method not found: ".to_owned();
        msg.append(method);
        McpStep::Error(-32601, msg)
    }
}

} // verus!
