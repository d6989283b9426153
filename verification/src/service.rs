//! Decisions of the HTTP and MCP service: request defaults, the health
//! verdict and the routing of MCP JSON-RPC calls.

use vstd::prelude::*;
use vstd::string::StringExecFns;
use crate::text::str_eq;

verus! {

/// Retrieval mode used when a request names none.
pub fn default_mode() -> (r: String)
    ensures
        r@ == "hybrid"@,
{
    String::from_str("hybrid")
}

/// Number of results returned when a request names none.
pub fn default_top_k() -> (r: usize)
    ensures
        r == 8,
{
    8
}

/// How retrieval scores are combined.
#[derive(Debug, PartialEq, Eq, Structural)]
pub enum ScoreMode {
    /// Vector similarity dominates.
    Vector,
    /// Vector similarity blended with lexical overlap.
    Hybrid,
}

/// The scoring a mode name selects: `vector`, or `hybrid` for any other
/// name.
pub open spec fn score_mode_for(mode: Seq<char>) -> ScoreMode {
    if mode == "vector"@ {
        ScoreMode::Vector
    } else {
        ScoreMode::Hybrid
    }
}

/// The scoring a mode name selects.
pub fn score_mode(mode: &str) -> (r: ScoreMode)
    ensures
        r == score_mode_for(mode@),
{
    if str_eq(mode, "vector") {
        ScoreMode::Vector
    } else {
        ScoreMode::Hybrid
    }
}

/// What follows an attempt to start the pack's configured embedding
/// provider.
#[derive(Debug)]
pub enum EmbedderStart {
    /// The configured provider started; embed queries with it.
    Ready,
    /// The configured provider failed to start; start `provider` instead
    /// (after warning that the configured one failed).
    FallBack { provider: String },
    /// The configured provider failed to start and nothing replaces it:
    /// the query fails with that start-up error.
    Fail,
}

/// The next step once the configured embedding provider `configured` has
/// been tried (`started` tells whether it came up). Only `fastembed`, the
/// local ONNX model, has a replacement: the `hash` provider, which needs no
/// model files. A failure of any other provider, or of the replacement
/// itself, is final.
pub fn embedder_start_step(configured: &str, started: bool) -> (r: EmbedderStart)
    ensures
        started ==> r is Ready,
        !started && configured@ == "fastembed"@ ==> (r matches EmbedderStart::FallBack { provider }
            && provider@ == "hash"@),
        !started && configured@ != "fastembed"@ ==> r is Fail,
{
    if started {
        EmbedderStart::Ready
    } else if str_eq(configured, "fastembed") {
        EmbedderStart::FallBack { provider: String::from_str("hash") }
    } else {
        EmbedderStart::Fail
    }
}

/// The answer to a health probe.
#[derive(Debug)]
pub struct HealthReport {
    /// HTTP status code: 200, or 503 when degraded.
    pub status_code: u16,
    /// `ok` or `degraded`.
    pub status: String,
    /// The graph-store socket, if one is configured.
    pub falkordb_socket: Option<String>,
    /// Whether the socket accepted a connection, if one is configured.
    pub falkordb_connected: Option<bool>,
}

/// The health verdict. `connected` tells whether the configured graph-store
/// socket accepted a connection; with no socket configured it is `None`.
/// The service is healthy unless that connection failed.
pub fn health_report(falkordb_socket: Option<String>, connected: Option<bool>) -> (r: HealthReport)
    ensures
        ({
            let ok = match connected {
                Some(b) => b,
                None => true,
            };
            &&& r.status_code == (if ok {
                200u16
            } else {
                503u16
            })
            &&& r.status@ == (if ok {
                "ok"@
            } else {
                "degraded"@
            })
        }),
        r.falkordb_socket == falkordb_socket,
        r.falkordb_connected == connected,
{
    let ok = match connected {
        Some(b) => b,
        None => true,
    };
    let status = if ok {
        String::from_str("ok")
    } else {
        String::from_str("degraded")
    };
    let status_code: u16 = if ok {
        200
    } else {
        503
    };
    HealthReport { status_code, status, falkordb_socket, falkordb_connected: connected }
}

/// The tools of the MCP surface.
#[derive(Debug, PartialEq, Eq, Structural)]
pub enum McpTool {
    MemoryQuery,
    MemoryStatus,
    MemorySources,
    Unknown,
}

/// What an MCP JSON-RPC call asks for.
#[derive(Debug, PartialEq, Eq, Structural)]
pub enum McpRoute {
    Initialize,
    ToolsList,
    CallTool(McpTool),
    /// Any other method: refused.
    BadMethod,
}

/// The tool a `tools/call` name selects.
pub open spec fn mcp_tool_for(name: Seq<char>) -> McpTool {
    if name == "memory_query"@ {
        McpTool::MemoryQuery
    } else if name == "memory_status"@ {
        McpTool::MemoryStatus
    } else if name == "memory_sources"@ {
        McpTool::MemorySources
    } else {
        McpTool::Unknown
    }
}

/// What a call of `method` (with tool name `tool_name`, empty when absent)
/// asks for.
pub open spec fn mcp_route_for(method: Seq<char>, tool_name: Seq<char>) -> McpRoute {
    if method == "initialize"@ {
        McpRoute::Initialize
    } else if method == "tools/list"@ {
        McpRoute::ToolsList
    } else if method == "tools/call"@ {
        McpRoute::CallTool(mcp_tool_for(tool_name))
    } else {
        McpRoute::BadMethod
    }
}

/// Routes an MCP call by its method (empty when absent) and, for
/// `tools/call`, by the tool name (empty when absent).
pub fn mcp_route(method: &str, tool_name: &str) -> (r: McpRoute)
    ensures
        r == mcp_route_for(method@, tool_name@),
{
    if str_eq(method, "initialize") {
        McpRoute::Initialize
    } else if str_eq(method, "tools/list") {
        McpRoute::ToolsList
    } else if str_eq(method, "tools/call") {
        let tool = if str_eq(tool_name, "memory_query") {
            McpTool::MemoryQuery
        } else if str_eq(tool_name, "memory_status") {
            McpTool::MemoryStatus
        } else if str_eq(tool_name, "memory_sources") {
            McpTool::MemorySources
        } else {
            McpTool::Unknown
        };
        McpRoute::CallTool(tool)
    } else {
        McpRoute::BadMethod
    }
}

/// The arguments of a `memory_query` call after defaults.
#[derive(Debug)]
pub struct MemoryQueryArgs {
    pub query: String,
    pub mode: String,
    pub top_k: usize,
}

/// Fills in the `memory_query` defaults: an empty query, mode `hybrid` and
/// 8 results; a given `top_k` is taken as a `usize`.
pub fn memory_query_args(query: Option<String>, mode: Option<String>, top_k: Option<u64>) -> (r: MemoryQueryArgs)
    ensures
        r.query@ == (match query {
            Some(q) => q@,
            None => Seq::<char>::empty(),
        }),
        r.mode@ == (match mode {
            Some(m) => m@,
            None => "hybrid"@,
        }),
        r.top_k == (match top_k {
            Some(k) => k as usize,
            None => 8usize,
        }),
{
    let query = match query {
        Some(q) => q,
        None => String::new(),
    };
    let mode = match mode {
        Some(m) => m,
        None => default_mode(),
    };
    let top_k = match top_k {
        Some(k) => k as usize,
        None => default_top_k(),
    };
    MemoryQueryArgs { query, mode, top_k }
}

} // verus!
