//! The decisions of the MCP (JSON-RPC over stdio) server: which handler a
//! request goes to, and the texts of replies that hold no scores.
use vstd::prelude::*;
use crate::text::{chars_of, concat, decimal, decimal_of, str_eq, string_of};

verus! {

broadcast use vstd::string::group_string_axioms;

/// The JSON-RPC code of an unknown method or tool.
pub const METHOD_NOT_FOUND: i32 = -32601;

/// The JSON-RPC code of a line that is not valid JSON.
pub const PARSE_ERROR: i32 = -32700;

/// Where a request goes.
#[derive(Debug, Clone, Copy, PartialEq, Eq, Structural)]
pub enum Route {
    Initialize,
    Ping,
    ToolsList,
    Search,
    Status,
    Graph,
    UnknownTool,
    UnknownMethod,
}

/// The route of a request by its method and, for `tools/call`, the tool
/// named in its parameters.
pub open spec fn route_of(method: Seq<char>, tool: Seq<char>) -> Route {
    if method == "initialize"@ {
        Route::Initialize
    } else if method == "ping"@ {
        Route::Ping
    } else if method == "tools/list"@ {
        Route::ToolsList
    } else if method == "tools/call"@ {
        if tool == "search"@ {
            Route::Search
        } else if tool == "status"@ {
            Route::Status
        } else if tool == "graph"@ {
            Route::Graph
        } else {
            Route::UnknownTool
        }
    } else {
        Route::UnknownMethod
    }
}

/// Where a request goes (`tool` is the called tool's name, empty if none).
pub fn route(method: &str, tool: &str) -> (r: Route)
    ensures
        r == route_of(method@, tool@),
{
    if str_eq(method, "initialize") {
        Route::Initialize
    } else if str_eq(method, "ping") {
        Route::Ping
    } else if str_eq(method, "tools/list") {
        Route::ToolsList
    } else if str_eq(method, "tools/call") {
        if str_eq(tool, "search") {
            Route::Search
        } else if str_eq(tool, "status") {
            Route::Status
        } else if str_eq(tool, "graph") {
            Route::Graph
        } else {
            Route::UnknownTool
        }
    } else {
        Route::UnknownMethod
    }
}

fn prefixed(prefix: &str, rest: &str) -> (r: String)
    ensures
        r@ == prefix@ + rest@,
{
    string_of(&concat(&chars_of(prefix), &chars_of(rest)))
}

/// The error message for an unknown tool.
pub fn unknown_tool_message(name: &str) -> (r: String)
    ensures
        r@ == "Unknown tool: "@ + name@,
{
    prefixed("Unknown tool: ", name)
}

/// The error message for an unknown method.
pub fn unknown_method_message(method: &str) -> (r: String)
    ensures
        r@ == "Method not found: "@ + method@,
{
    prefixed("Method not found: ", method)
}

/// The text of the `status` tool's reply.
pub open spec fn status_report(docs: u64, nodes: u64, entities: u64, mentions: u64, last: Seq<char>) -> Seq<char> {
    "RAGgy Index Status\n\nDocuments : "@ + decimal(docs as nat) + "\nNodes     : "@ + decimal(
        nodes as nat,
    ) + "\nEntities  : "@ + decimal(entities as nat) + " (canonical)\nMentions  : "@ + decimal(
        mentions as nat,
    ) + "\nLast indexed: "@ + last
}

/// The `status` tool's reply: counts of documents, nodes, canonical
/// entities and mentions, and when the index was last written.
pub fn status_text(docs: u64, nodes: u64, entities: u64, mentions: u64, last: &str) -> (r: String)
    ensures
        r@ == status_report(docs, nodes, entities, mentions, last@),
{
    let mut out = chars_of("RAGgy Index Status\n\nDocuments : ");
    out = concat(&out, &decimal_of(docs));
    out = concat(&out, &chars_of("\nNodes     : "));
    out = concat(&out, &decimal_of(nodes));
    out = concat(&out, &chars_of("\nEntities  : "));
    out = concat(&out, &decimal_of(entities));
    out = concat(&out, &chars_of(" (canonical)\nMentions  : "));
    out = concat(&out, &decimal_of(mentions));
    out = concat(&out, &chars_of("\nLast indexed: "));
    out = concat(&out, &chars_of(last));
    string_of(&out)
}

} // verus!
