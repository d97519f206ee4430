use engram::buffer::{ConversationBuffer, Message};

fn create_test_message(role: &str, content: &str, offset_secs: i64) -> Message {
    Message {
        timestamp: 1_700_000_000 + offset_secs,
        role: role.to_string(),
        content: content.to_string(),
    }
}

#[test]
fn test_basic_push_and_get() {
    let mut buffer = ConversationBuffer::new(10);

    buffer.push(create_test_message("user", "Hello", 0));
    buffer.push(create_test_message("assistant", "Hi there", 1));

    let messages = buffer.get_all();
    assert_eq!(messages.len(), 2);
    assert_eq!(messages[0].content, "Hello");
    assert_eq!(messages[1].content, "Hi there");
}

#[test]
fn test_sliding_window() {
    let mut buffer = ConversationBuffer::new(3);

    buffer.push(create_test_message("user", "Message 1", 0));
    buffer.push(create_test_message("user", "Message 2", 1));
    buffer.push(create_test_message("user", "Message 3", 2));
    buffer.push(create_test_message("user", "Message 4", 3));

    let messages = buffer.get_all();
    assert_eq!(messages.len(), 3);
    assert_eq!(messages[0].content, "Message 2");
    assert_eq!(messages[1].content, "Message 3");
    assert_eq!(messages[2].content, "Message 4");
}

#[test]
fn test_get_recent() {
    let mut buffer = ConversationBuffer::new(10);

    buffer.push(create_test_message("user", "Message 1", 0));
    buffer.push(create_test_message("user", "Message 2", 1));
    buffer.push(create_test_message("user", "Message 3", 2));
    buffer.push(create_test_message("user", "Message 4", 3));

    let recent = buffer.get_recent(2);
    assert_eq!(recent.len(), 2);
    assert_eq!(recent[0].content, "Message 3");
    assert_eq!(recent[1].content, "Message 4");
}

#[test]
fn test_get_since() {
    let now: i64 = 1_700_000_000;
    let mut buffer = ConversationBuffer::new(10);

    buffer.push(Message {
        timestamp: now - 10,
        role: "user".to_string(),
        content: "Old message".to_string(),
    });
    buffer.push(Message {
        timestamp: now + 1,
        role: "user".to_string(),
        content: "New message".to_string(),
    });

    let since = buffer.get_since(now);
    assert_eq!(since.len(), 1);
    assert_eq!(since[0].content, "New message");
}

#[test]
fn test_clear() {
    let mut buffer = ConversationBuffer::new(10);

    buffer.push(create_test_message("user", "Message 1", 0));
    buffer.push(create_test_message("user", "Message 2", 1));

    assert_eq!(buffer.len(), 2);

    buffer.clear();
    assert_eq!(buffer.len(), 0);
    assert!(buffer.is_empty());
}
