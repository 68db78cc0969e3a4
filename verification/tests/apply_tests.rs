//! Applying whole patches to an in-memory file map.

use zenpatch::apply;
use zenpatch::vfs::Vfs;
use zenpatch::ZenpatchError;

fn vfs_from_str(path: &str, content: &str) -> Vfs {
    let mut vfs = Vfs::new();
    vfs.insert(path.to_string(), content.to_string());
    vfs
}

#[test]
fn test_apply_add_simple() {
    let patch = "*** Begin Patch\n*** Add File: new.txt\n+hello\n+world\n*** End Patch";
    let vfs = Vfs::new();
    let result_vfs = apply(patch, &vfs).unwrap();
    assert_eq!(result_vfs.get("new.txt").unwrap(), "hello\nworld");
}

#[test]
fn test_apply_add_to_existing_fails() {
    let patch = "*** Begin Patch\n*** Add File: new.txt\n+hello\n*** End Patch";
    let vfs = vfs_from_str("new.txt", "i already exist");
    let result = apply(patch, &vfs);
    assert!(result.is_err());
    match result.unwrap_err() {
        ZenpatchError::FileExists(path) => {
            assert_eq!(path, "new.txt");
        }
        _ => panic!("Expected FileExists error"),
    }
}

#[test]
fn test_apply_delete_simple() {
    let patch = "*** Begin Patch\n*** Delete File: old.txt\n-line1\n-line2\n*** End Patch";
    let vfs = vfs_from_str("old.txt", "line1\nline2");
    let result_vfs = apply(patch, &vfs).unwrap();
    assert!(result_vfs.get("old.txt").is_none());
    assert!(result_vfs.is_empty());
}

#[test]
fn test_apply_delete_mismatch_fails() {
    let patch = "*** Begin Patch\n*** Delete File: old.txt\n-line1\n*** End Patch";
    let vfs = vfs_from_str("old.txt", "different content");
    let result = apply(patch, &vfs);
    assert!(result.is_err());
    match result.unwrap_err() {
        ZenpatchError::PatchConflict(msg) => {
            assert!(msg.contains("does not match"));
        }
        _ => panic!("Expected PatchConflict error"),
    }
}

#[test]
fn test_apply_delete_file_not_found() {
    let patch = "*** Begin Patch\n*** Delete File: old.txt\n-line1\n*** End Patch";
    let vfs = Vfs::new();
    let result = apply(patch, &vfs);
    assert!(result.is_err());
    match result.unwrap_err() {
        ZenpatchError::FileNotFound(path) => {
            assert_eq!(path, "old.txt");
        }
        _ => panic!("Expected FileNotFound error"),
    }
}

#[test]
fn test_apply_update_simple() {
    let patch = "*** Begin Patch\n*** Update File: a.txt\n@@\n-a\n+b\n*** End Patch";
    let vfs = vfs_from_str("a.txt", "a");
    let result_vfs = apply(patch, &vfs).unwrap();
    assert_eq!(result_vfs.get("a.txt").unwrap(), "b");
}

#[test]
fn test_apply_update_with_rename() {
    let patch =
        "*** Begin Patch\n*** Update File: a.txt\n*** Move to: b.txt\n@@\n-a\n+b\n*** End Patch";
    let vfs = vfs_from_str("a.txt", "a");
    let result_vfs = apply(patch, &vfs).unwrap();
    assert!(result_vfs.get("a.txt").is_none());
    assert_eq!(result_vfs.get("b.txt").unwrap(), "b");
}

#[test]
fn test_apply_multiple_actions() {
    let patch = "*** Begin Patch\n\
*** Add File: new.txt\n+new content\n\
*** Update File: a.txt\n@@\n-a\n+b\n\
*** Delete File: old.txt\n-old\n\
*** End Patch";
    let mut vfs = vfs_from_str("a.txt", "a");
    vfs.insert("old.txt".to_string(), "old".to_string());

    let result_vfs = apply(patch, &vfs).unwrap();

    assert_eq!(result_vfs.get("new.txt").unwrap(), "new content");
    assert_eq!(result_vfs.get("a.txt").unwrap(), "b");
    assert!(result_vfs.get("old.txt").is_none());
    assert_eq!(result_vfs.len(), 2);
}

#[test]
fn test_apply_add_to_non_empty_vfs() {
    let patch = "*** Begin Patch\n*** Add File: new.txt\n+new content\n*** End Patch";
    let vfs = vfs_from_str("existing.txt", "some content");
    let result_vfs = apply(patch, &vfs).unwrap();
    assert_eq!(result_vfs.len(), 2);
    assert_eq!(result_vfs.get("new.txt").unwrap(), "new content");
    assert_eq!(result_vfs.get("existing.txt").unwrap(), "some content");
}

#[test]
fn test_apply_add_empty_file() {
    let patch = "*** Begin Patch\n*** Add File: empty.txt\n*** End Patch";
    let vfs = Vfs::new();
    let result_vfs = apply(patch, &vfs).unwrap();
    assert_eq!(result_vfs.len(), 1);
    assert_eq!(result_vfs.get("empty.txt").unwrap(), "");
}

#[test]
fn test_apply_delete_from_multi_file_vfs() {
    let patch = "*** Begin Patch\n*** Delete File: b.txt\n-content b\n*** End Patch";
    let mut vfs = vfs_from_str("a.txt", "content a");
    vfs.insert("b.txt".to_string(), "content b".to_string());
    let result_vfs = apply(patch, &vfs).unwrap();
    assert_eq!(result_vfs.len(), 1);
    assert!(result_vfs.get("b.txt").is_none());
    assert_eq!(result_vfs.get("a.txt").unwrap(), "content a");
}

#[test]
fn test_apply_delete_no_content_on_empty_file() {
    let patch = "*** Begin Patch\n*** Delete File: empty.txt\n*** End Patch";
    let vfs = vfs_from_str("empty.txt", "");
    let result_vfs = apply(patch, &vfs).unwrap();
    assert!(result_vfs.is_empty());
}

#[test]
fn test_apply_delete_no_content_on_non_empty_file_fails() {
    let patch = "*** Begin Patch\n*** Delete File: file.txt\n*** End Patch";
    let vfs = vfs_from_str("file.txt", "i have content");
    let result = apply(patch, &vfs);
    assert!(result.is_err());
    match result.unwrap_err() {
        ZenpatchError::PatchConflict(msg) => {
            assert!(msg.contains("does not match original content."));
        }
        _ => panic!("Expected PatchConflict error"),
    }
}
