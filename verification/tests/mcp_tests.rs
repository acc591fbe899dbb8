use bears::error::Error;
use bears::mcp::merged_mcp_document;
use serde_json::Value;

const SEED: &str = "{\n  \"mcpServers\": {\n    \"bears\": {\n      \"args\": [\n        \"mcp\"\n      ],\n      \"command\": \"bea\"\n    }\n  }\n}\n";

fn parse(text: &str) -> Value {
    serde_json::from_str(text).unwrap()
}

#[test]
fn test_merge_mcp_json_preserves_other_servers() {
    let existing = "{\n  \"mcpServers\": {\n    \"other-tool\": {\n      \"command\": \"other\",\n      \"args\": [\"serve\"]\n    }\n  }\n}";
    let merged = merged_mcp_document(Some(existing), "mcpServers", SEED).unwrap();
    let result = parse(&merged);
    let servers = result["mcpServers"].as_object().unwrap();
    assert!(servers.contains_key("bears"), "bears entry missing");
    assert!(servers.contains_key("other-tool"), "other-tool entry must be preserved");
}

#[test]
fn test_merge_mcp_json_idempotent() {
    let after_first = merged_mcp_document(None, "mcpServers", SEED).unwrap();
    let after_second = merged_mcp_document(Some(&after_first), "mcpServers", SEED).unwrap();
    assert_eq!(after_first, after_second, "merge must be idempotent");
}

#[test]
fn test_merge_mcp_json_fresh_create() {
    let merged = merged_mcp_document(None, "mcpServers", SEED).unwrap();
    let result = parse(&merged);
    let servers = result["mcpServers"].as_object().unwrap();
    assert!(servers.contains_key("bears"), "fresh-created file must have bears entry");
    let bears = &servers["bears"];
    assert_eq!(bears["command"], "bea");
}

#[test]
fn fresh_document_is_the_seed_verbatim() {
    let seed = "{\"mcpServers\":{\"bears\":{\"command\":\"bea\"}}}";
    assert_eq!(merged_mcp_document(None, "mcpServers", seed).unwrap(), seed);
}

#[test]
fn merged_document_is_pretty_printed_with_a_newline() {
    let merged = merged_mcp_document(Some("{}"), "mcpServers", SEED).unwrap();
    assert_eq!(merged, SEED);
}

#[test]
fn merge_replaces_only_the_bears_entry() {
    let existing = "{\"editor\": 1, \"mcpServers\": {\"bears\": {\"command\": \"old\"}, \"x\": {\"a\": true}}}";
    let merged = merged_mcp_document(Some(existing), "mcpServers", SEED).unwrap();
    let result = parse(&merged);
    assert_eq!(result["editor"], 1);
    assert_eq!(result["mcpServers"]["x"]["a"], true);
    assert_eq!(result["mcpServers"]["bears"]["command"], "bea");
    assert!(merged.ends_with("}\n"));
}

#[test]
fn seed_without_entry_registers_an_empty_object() {
    let merged = merged_mcp_document(Some("{}"), "servers", "{\"other\": 1}").unwrap();
    let result = parse(&merged);
    assert_eq!(result["servers"]["bears"], parse("{}"));
}

#[test]
fn unreadable_existing_file_counts_as_empty() {
    let merged = merged_mcp_document(Some("not json"), "mcpServers", SEED).unwrap();
    let from_empty = merged_mcp_document(Some("{}"), "mcpServers", SEED).unwrap();
    assert_eq!(merged, from_empty);
}

#[test]
fn seed_that_is_not_json_is_refused() {
    let r = merged_mcp_document(None, "mcpServers", "{");
    assert!(matches!(r, Err(Error::Json { .. })));
}

#[test]
fn existing_document_that_is_not_an_object_is_refused() {
    let r = merged_mcp_document(Some("[1, 2]"), "mcpServers", SEED);
    match r {
        Err(Error::Json { reason }) => assert_eq!(reason, "top-level JSON must be an object"),
        _ => panic!("expected a JSON error"),
    }
}

#[test]
fn server_value_that_is_not_an_object_is_refused() {
    let r = merged_mcp_document(Some("{\"mcpServers\": 3}"), "mcpServers", SEED);
    match r {
        Err(Error::Json { reason }) => assert_eq!(reason, "server key must be a JSON object"),
        _ => panic!("expected a JSON error"),
    }
}
