//! The directive parser on its own.

use zenpatch::data::action_type::ActionType;
use zenpatch::data::line_type::LineType;
use zenpatch::parser::parser::Parser;
use zenpatch::ZenpatchError;

#[test]
fn test_parse_add_file() {
    let content = "*** Begin Patch\n*** Add File: new.txt\n+hello\n+world\n*** End Patch";
    let mut parser = Parser::new(content);
    let actions = parser.parse().unwrap();

    assert_eq!(actions.len(), 1);
    let action = &actions[0];
    assert_eq!(action.type_, ActionType::Add);
    assert_eq!(action.path, "new.txt");
    assert_eq!(action.chunks.len(), 1);
    let chunk = &action.chunks[0];
    assert_eq!(chunk.lines.len(), 2);
    assert_eq!(chunk.lines[0], (LineType::Insertion, "hello".to_string()));
    assert_eq!(chunk.lines[1], (LineType::Insertion, "world".to_string()));
}

#[test]
fn test_parse_delete_file() {
    let content = "*** Begin Patch\n*** Delete File: old.txt\n*** End Patch";
    let mut parser = Parser::new(content);
    let actions = parser.parse().unwrap();
    assert_eq!(actions.len(), 1);
    let action = &actions[0];
    assert_eq!(action.type_, ActionType::Delete);
    assert_eq!(action.path, "old.txt");
    assert!(action.chunks.is_empty());
}

#[test]
fn test_parse_delete_file_with_content() {
    let content = "*** Begin Patch\n*** Delete File: old.txt\n-line1\n-line2\n*** End Patch";
    let mut parser = Parser::new(content);
    let actions = parser.parse().unwrap();
    assert_eq!(actions.len(), 1);
    let action = &actions[0];
    assert_eq!(action.type_, ActionType::Delete);
    assert_eq!(action.path, "old.txt");
    assert_eq!(action.chunks.len(), 1);
    let chunk = &action.chunks[0];
    assert_eq!(chunk.lines.len(), 2);
    assert_eq!(chunk.lines[0], (LineType::Deletion, "line1".to_string()));
    assert_eq!(chunk.lines[1], (LineType::Deletion, "line2".to_string()));
}

#[test]
fn test_parse_update_file() {
    let content = "*** Begin Patch\n*** Update File: file.txt\n@@\n-a\n+b\n c\n*** End Patch";
    let mut parser = Parser::new(content);
    let actions = parser.parse().unwrap();
    assert_eq!(actions.len(), 1);
    let action = &actions[0];
    assert_eq!(action.type_, ActionType::Update);
    assert_eq!(action.path, "file.txt");
    assert_eq!(action.chunks.len(), 1);
    let chunk = &action.chunks[0];
    assert_eq!(chunk.lines.len(), 3);
    assert_eq!(chunk.lines[0], (LineType::Deletion, "a".to_string()));
    assert_eq!(chunk.lines[1], (LineType::Insertion, "b".to_string()));
    assert_eq!(chunk.lines[2], (LineType::Context, "c".to_string()));
}

#[test]
fn test_parse_update_with_move() {
    let content =
        "*** Begin Patch\n*** Update File: old.txt\n*** Move to: new.txt\n@@\n+a\n*** End Patch";
    let mut parser = Parser::new(content);
    let actions = parser.parse().unwrap();

    assert_eq!(actions.len(), 1);
    let action = &actions[0];
    assert_eq!(action.type_, ActionType::Update);
    assert_eq!(action.path, "old.txt");
    assert_eq!(action.new_path, Some("new.txt".to_string()));
    assert_eq!(action.chunks.len(), 1);
}

#[test]
fn test_multiple_directives_success() {
    let content = "*** Begin Patch\n*** Add File: a.txt\n+1\n*** Delete File: b.txt\n*** End Patch";
    let mut parser = Parser::new(content);
    let actions = parser.parse().unwrap();
    assert_eq!(actions.len(), 2);
    assert_eq!(actions[0].type_, ActionType::Add);
    assert_eq!(actions[0].path, "a.txt");
    assert_eq!(actions[1].type_, ActionType::Delete);
    assert_eq!(actions[1].path, "b.txt");
}

#[test]
fn test_no_directive_error() {
    let content = "*** Begin Patch\nSome random text\n*** End Patch";
    let mut parser = Parser::new(content);
    let result = parser.parse();
    assert!(result.is_err());
    match result.unwrap_err() {
        ZenpatchError::InvalidPatchFormat(msg) => {
            assert!(msg.contains("No file directive found"));
        }
        _ => panic!("Expected InvalidPatchFormat error"),
    }
}
