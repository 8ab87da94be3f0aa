use open_runo::mcp::{mcp_step, McpResource, McpStep, McpTool};

#[test]
fn a_notification_gets_no_reply() {
    assert_eq!(mcp_step(false, "2.0", "notifications/initialized", None, None), McpStep::NoReply);
}

#[test]
fn catalogue_methods_are_recognised() {
    assert_eq!(mcp_step(true, "2.0", "initialize", None, None), McpStep::Initialize);
    assert_eq!(mcp_step(true, "2.0", "tools/list", None, None), McpStep::ToolsList);
    assert_eq!(mcp_step(true, "2.0", "resources/list", None, None), McpStep::ResourcesList);
}

#[test]
fn a_wrong_protocol_version_is_an_invalid_request() {
    assert_eq!(
        mcp_step(true, "1.0", "initialize", None, None),
        McpStep::Error(-32600, "invalid request: jsonrpc must be \"2.0\"".to_string())
    );
    assert_eq!(
        mcp_step(true, "", "initialize", None, None),
        McpStep::Error(-32600, "invalid request: jsonrpc must be \"2.0\"".to_string())
    );
}

#[test]
fn resources_are_read_by_uri() {
    assert_eq!(
        mcp_step(true, "2.0", "resources/read", Some("openapi://spec"), None),
        McpStep::ReadResource(McpResource::OpenApiSpec)
    );
    assert_eq!(
        mcp_step(true, "2.0", "resources/read", Some("health://status"), None),
        McpStep::ReadResource(McpResource::HealthStatus)
    );
}

#[test]
fn an_unknown_resource_uri_is_a_json_rpc_error() {
    assert_eq!(
        mcp_step(true, "2.0", "resources/read", Some("no://such/resource"), None),
        McpStep::Error(-32602, "unknown resource: no://such/resource".to_string())
    );
    assert_eq!(
        mcp_step(true, "2.0", "resources/read", None, None),
        McpStep::Error(-32602, "invalid params: missing \"uri\"".to_string())
    );
}

#[test]
fn tools_are_called_by_name() {
    assert_eq!(
        mcp_step(true, "2.0", "tools/call", None, Some("health_check")),
        McpStep::CallTool(McpTool::HealthCheck)
    );
    assert_eq!(
        mcp_step(true, "2.0", "tools/call", None, Some("self_issue_api_key")),
        McpStep::CallTool(McpTool::SelfIssueApiKey)
    );
}

#[test]
fn an_unknown_tool_is_a_tool_level_result_not_a_json_rpc_error() {
    assert_eq!(
        mcp_step(true, "2.0", "tools/call", None, Some("no_such_tool")),
        McpStep::CallTool(McpTool::Unknown("no_such_tool".to_string()))
    );
    assert_eq!(
        mcp_step(true, "2.0", "tools/call", None, None),
        McpStep::Error(-32602, "invalid params: missing \"name\"".to_string())
    );
}

#[test]
fn an_unknown_method_is_not_found() {
    assert_eq!(
        mcp_step(true, "2.0", "prompts/list", None, None),
        McpStep::Error(-32601, "method not found: prompts/list".to_string())
    );
}
