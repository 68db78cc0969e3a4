//! The full patch-text parser.

use zenpatch::data::action_type::ActionType;
use zenpatch::data::line_type::LineType;
use zenpatch::parser::text_to_patch::text_to_patch;
use zenpatch::ZenpatchError;

#[test]
fn test_text_to_patch_valid_add() {
    let patch_text = "*** Begin Patch\n*** Add File: new.txt\n+content\n*** End Patch";
    let result = text_to_patch(patch_text);
    assert!(result.is_ok());
    let actions = result.unwrap();
    assert_eq!(actions.len(), 1);
    assert_eq!(actions[0].type_, ActionType::Add);
    assert_eq!(actions[0].path, "new.txt");
}

#[test]
fn test_text_to_patch_valid_empty_with_whitespace() {
    let patch_text = "  \n*** Begin Patch\n*** Add File: a.txt\n+a\n*** End Patch\n  ";
    let result = text_to_patch(patch_text);
    assert!(result.is_ok());
}

#[test]
fn test_text_to_patch_missing_start_marker() {
    let patch_text = "Invalid start\n*** End Patch";
    let result = text_to_patch(patch_text);
    assert!(result.is_err());
    match result.unwrap_err() {
        ZenpatchError::InvalidPatchFormat(msg) => {
            assert!(
                msg.contains("must start with"),
                "Incorrect error message: {}",
                msg
            );
        }
        _ => panic!("Expected InvalidPatchFormat error for missing start marker"),
    }
}

#[test]
fn test_text_to_patch_missing_end_marker() {
    let patch_text = "*** Begin Patch\nInvalid end";
    let result = text_to_patch(patch_text);
    assert!(result.is_err());
    match result.unwrap_err() {
        ZenpatchError::InvalidPatchFormat(msg) => {
            assert!(
                msg.contains("must end with"),
                "Incorrect error message: {}",
                msg
            );
        }
        _ => panic!("Expected InvalidPatchFormat error for missing end marker"),
    }
}

#[test]
fn test_text_to_patch_too_short() {
    let patch_text = "*** Begin Patch";
    let result = text_to_patch(patch_text);
    assert!(result.is_err());
    match result.unwrap_err() {
        ZenpatchError::InvalidPatchFormat(msg) => {
            assert!(msg.contains("too short"), "Incorrect error message: {}", msg);
        }
        _ => panic!("Expected InvalidPatchFormat error for short patch"),
    }
}

#[test]
fn test_text_to_patch_update_with_context() {
    let patch_text = "*** Begin Patch\n\
*** Update File: file.txt\n\
@@\n\
-old line 2\n\
+new line 2a\n\
*** End Patch";

    let result = text_to_patch(patch_text);
    assert!(result.is_ok(), "Parsing failed: {:?}", result);

    let actions = result.unwrap();
    assert_eq!(actions.len(), 1);
    let action = &actions[0];
    assert_eq!(action.type_, ActionType::Update);
    assert_eq!(action.path, "file.txt");
    assert_eq!(action.chunks.len(), 1, "Update action should have one chunk");
    let chunk = &action.chunks[0];
    assert_eq!(chunk.lines.len(), 2);
    assert_eq!(chunk.del_lines, vec!["old line 2"]);
    assert_eq!(chunk.ins_lines, vec!["new line 2a"]);
    assert_eq!(chunk.lines[0], (LineType::Deletion, "old line 2".to_string()));
    assert_eq!(chunk.lines[1], (LineType::Insertion, "new line 2a".to_string()));
}

#[test]
fn test_text_to_patch_multiple_actions_succeeds() {
    let patch_text = "*** Begin Patch\n\
*** Add File: new_file.txt\n\
+New content\n\
*** Delete File: old_file.txt\n\
*** End Patch";

    let actions = text_to_patch(patch_text).unwrap();
    assert_eq!(actions.len(), 2);
    assert_eq!(actions[0].type_, ActionType::Add);
    assert_eq!(actions[1].type_, ActionType::Delete);
    assert_eq!(actions[1].path, "old_file.txt");
}
