//! The patch data structures: actions, hunks and line roles.

use zenpatch::data::action_type::ActionType;
use zenpatch::data::chunk::Chunk;
use zenpatch::data::line_type::LineType;
use zenpatch::data::patch_action::PatchAction;

#[test]
fn test_action_type_variants_exist() {
    let add = ActionType::Add;
    let delete = ActionType::Delete;
    let update = ActionType::Update;

    assert_eq!(format!("{:?}", add), "Add");
    assert_eq!(format!("{:?}", delete), "Delete");
    assert_eq!(format!("{:?}", update), "Update");
}

#[test]
fn test_action_type_equality() {
    let add1 = ActionType::Add;
    let add2 = ActionType::Add;
    let delete = ActionType::Delete;

    assert_eq!(add1, add2);
    assert_ne!(add1, delete);
}

#[test]
fn test_action_type_cloning() {
    let original = ActionType::Update;
    let cloned = original.clone();

    assert_eq!(original, cloned);
}

#[test]
fn test_chunk_creation_empty() {
    let chunk = Chunk {
        orig_index: 0,
        lines: Vec::new(),
        del_lines: Vec::new(),
        ins_lines: Vec::new(),
    };
    assert_eq!(chunk.orig_index, 0);
    assert!(chunk.lines.is_empty());
    assert!(chunk.del_lines.is_empty());
    assert!(chunk.ins_lines.is_empty());
}

#[test]
fn test_chunk_creation_with_data() {
    let lines_data = vec![
        (LineType::Context, String::from("context line 1")),
        (LineType::Deletion, String::from("line to delete")),
        (LineType::Insertion, String::from("new line 1")),
        (LineType::Insertion, String::from("new line 2")),
        (LineType::Context, String::from("context line 2")),
    ];
    let del_lines_data = vec![String::from("line to delete")];
    let ins_lines_data = vec![String::from("new line 1"), String::from("new line 2")];

    let chunk = Chunk {
        orig_index: 10,
        lines: lines_data.clone(),
        del_lines: del_lines_data.clone(),
        ins_lines: ins_lines_data.clone(),
    };

    assert_eq!(chunk.orig_index, 10);
    assert_eq!(chunk.lines.len(), 5);
    assert_eq!(chunk.lines, lines_data);
    assert_eq!(chunk.del_lines, del_lines_data);
    assert_eq!(chunk.ins_lines, ins_lines_data);

    assert_eq!(chunk.lines[0].0, LineType::Context);
    assert_eq!(chunk.lines[1].0, LineType::Deletion);
    assert_eq!(chunk.lines[2].0, LineType::Insertion);
    assert_eq!(chunk.lines[3].0, LineType::Insertion);
    assert_eq!(chunk.lines[4].0, LineType::Context);
}

#[test]
fn test_chunk_equality_and_clone() {
    let chunk1 = Chunk {
        orig_index: 5,
        lines: vec![(LineType::Context, String::from("a"))],
        del_lines: Vec::new(),
        ins_lines: Vec::new(),
    };
    let chunk2 = chunk1.clone();
    let chunk3 = Chunk {
        orig_index: 6,
        lines: vec![(LineType::Context, String::from("a"))],
        del_lines: Vec::new(),
        ins_lines: Vec::new(),
    };
    let chunk4 = Chunk {
        orig_index: 5,
        lines: vec![(LineType::Deletion, String::from("a"))],
        del_lines: vec![String::from("a")],
        ins_lines: Vec::new(),
    };

    assert_eq!(chunk1, chunk2);
    assert_ne!(chunk1, chunk3);
    assert_ne!(chunk1, chunk4);
}

#[test]
fn test_line_type_variants() {
    let context = LineType::Context;
    let deletion = LineType::Deletion;
    let insertion = LineType::Insertion;

    assert_eq!(context, LineType::Context);
    assert_eq!(deletion, LineType::Deletion);
    assert_eq!(insertion, LineType::Insertion);
    assert_ne!(context, deletion);
    assert_ne!(context, insertion);
    assert_ne!(deletion, insertion);
}

#[test]
fn test_line_type_copy_clone() {
    let context1 = LineType::Context;
    let context2 = context1;
    let context3 = context1.clone();

    assert_eq!(context1, context2);
    assert_eq!(context1, context3);
}

#[test]
fn test_patch_action_add() {
    let action = PatchAction {
        type_: ActionType::Add,
        path: String::from("new/path/file.txt"),
        chunks: Vec::new(),
        new_path: None,
    };

    assert_eq!(action.type_, ActionType::Add);
    assert_eq!(action.path, "new/path/file.txt");
    assert!(action.chunks.is_empty());
    assert!(action.new_path.is_none());
}

#[test]
fn test_patch_action_update() {
    let chunk = Chunk {
        orig_index: 5,
        lines: vec![
            (LineType::Deletion, String::from("old line")),
            (LineType::Insertion, String::from("new line")),
        ],
        del_lines: vec![String::from("old line")],
        ins_lines: vec![String::from("new line")],
    };
    let action = PatchAction {
        type_: ActionType::Update,
        path: "file.txt".to_string(),
        chunks: vec![chunk],
        new_path: None,
    };

    assert_eq!(action.type_, ActionType::Update);
    assert_eq!(action.chunks.len(), 1);
    assert!(action.new_path.is_none());
}

#[test]
fn test_patch_action_delete() {
    let action = PatchAction {
        type_: ActionType::Delete,
        path: "file_to_delete.txt".to_string(),
        chunks: Vec::new(),
        new_path: None,
    };

    assert_eq!(action.type_, ActionType::Delete);
    assert_eq!(action.path, "file_to_delete.txt");
    assert!(action.chunks.is_empty());
    assert!(action.new_path.is_none());
}

#[test]
fn test_patch_action_update_with_move() {
    let chunk = Chunk {
        orig_index: 1,
        lines: vec![(LineType::Insertion, String::from("added line"))],
        del_lines: Vec::new(),
        ins_lines: vec![String::from("added line")],
    };
    let action = PatchAction {
        type_: ActionType::Update,
        path: "old/location.txt".to_string(),
        new_path: Some(String::from("new/location.txt")),
        chunks: vec![chunk],
    };

    assert_eq!(action.type_, ActionType::Update);
    assert_eq!(action.path, "old/location.txt");
    assert_eq!(action.new_path.as_deref(), Some("new/location.txt"));
    assert_eq!(action.chunks.len(), 1);
}

#[test]
fn test_patch_action_clone_and_equality() {
    let action1 = PatchAction {
        type_: ActionType::Update,
        path: "file.rs".to_string(),
        new_path: None,
        chunks: vec![Chunk {
            orig_index: 1,
            lines: vec![(LineType::Insertion, String::from("a"))],
            del_lines: Vec::new(),
            ins_lines: vec![String::from("a")],
        }],
    };
    let action2 = action1.clone();
    let action3 = PatchAction {
        type_: ActionType::Add,
        path: "file.txt".to_string(),
        new_path: None,
        chunks: vec![],
    };

    assert_eq!(action1, action2);
    assert_ne!(action1, action3);
}
