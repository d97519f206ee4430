use engram::analyzer::{extract_memory_id, parse_engram_add_commands};

#[test]
fn test_parse_single_command() {
    let output = r#"engram add "User prefers concise responses""#;
    let commands = parse_engram_add_commands(output);
    assert_eq!(commands.len(), 1);
    assert_eq!(commands[0], "User prefers concise responses");
}

#[test]
fn test_parse_multiple_commands() {
    let output = r#"
engram add "Always run tests before commit"
engram add "OAuth requires HTTPS in production"
engram add "Use Divio documentation structure"
        "#;
    let commands = parse_engram_add_commands(output);
    assert_eq!(commands.len(), 3);
    assert_eq!(commands[0], "Always run tests before commit");
    assert_eq!(commands[1], "OAuth requires HTTPS in production");
    assert_eq!(commands[2], "Use Divio documentation structure");
}

#[test]
fn test_parse_with_noise() {
    let output = r#"
Let me analyze this conversation...

engram add "User likes Rust for system tools"

I also noticed...
engram add "Project uses cargo for builds"

Done.
        "#;
    let commands = parse_engram_add_commands(output);
    assert_eq!(commands.len(), 2);
    assert_eq!(commands[0], "User likes Rust for system tools");
    assert_eq!(commands[1], "Project uses cargo for builds");
}

#[test]
fn test_parse_no_commands() {
    let output = "No memories found in this conversation.";
    let commands = parse_engram_add_commands(output);
    assert_eq!(commands.len(), 0);
}

#[test]
fn test_extract_memory_id() {
    let output = "Added memory: engram-abc123";
    let id = extract_memory_id(output);
    assert_eq!(id, Some("engram-abc123".to_string()));
}

#[test]
fn test_extract_memory_id_multiline() {
    let output = r#"
Processing...
Added memory: engram-xyz789
Done.
        "#;
    let id = extract_memory_id(output);
    assert_eq!(id, Some("engram-xyz789".to_string()));
}

#[test]
fn test_extract_memory_id_absent() {
    assert_eq!(extract_memory_id("nothing to see"), None);
    assert_eq!(extract_memory_id(""), None);
}

#[test]
fn test_parse_skips_unquoted_commands() {
    let output = "engram add no quotes here\nengram add \"kept\"";
    let commands = parse_engram_add_commands(output);
    assert_eq!(commands, vec!["kept".to_string()]);
}
