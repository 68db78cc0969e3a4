//! Single-file application scenarios.

use zenpatch::apply;
use zenpatch::vfs::Vfs;
use zenpatch::ZenpatchError;

/// Applies a patch to a single file held under `path` and returns the file's
/// new content.
fn apply_to(patch: &str, path: &str, content: &str) -> Result<String, ZenpatchError> {
    let mut vfs = Vfs::new();
    vfs.insert(path.to_string(), content.to_string());
    let result_vfs = apply(patch, &vfs)?;
    Ok(result_vfs.get(path).unwrap())
}

#[test]
fn test_update_file_multiple_chunks() {
    let initial_content = "foo\nbar\nbaz\nqux";
    let patch = "*** Begin Patch\n*** Update File: multi.txt\n@@\n foo\n-bar\n+BAR\n@@\n baz\n-qux\n+QUX\n*** End Patch";
    let result = apply_to(patch, "multi.txt", initial_content);
    assert!(result.is_ok());
    assert_eq!(result.unwrap(), "foo\nBAR\nbaz\nQUX");
}

#[test]
fn test_patch_fails_on_unicode_near_miss() {
    // The file uses GREEK CAPITAL LETTER ALPHA, not the Latin letter.
    let initial_content = "Line Alpha: \u{391}\nLine Next";
    // The patch context mistakenly uses the Latin letter instead.
    let patch = "*** Begin Patch\n*** Update File: test.txt\n@@\n Line Alpha: A\n-Line Next\n+Modified Line Next\n*** End Patch";

    let result = apply_to(patch, "test.txt", initial_content);

    assert!(result.is_err(), "Patch should have failed due to Unicode character mismatch");
    match result.unwrap_err() {
        ZenpatchError::PatchConflict(_) => (),
        e => panic!("Expected PatchConflict, got {:?}", e),
    }
}

#[test]
fn test_patch_idempotent_deletion_fails_on_second_apply() {
    let initial_content = "Line 1\nLineToDelete\nLine 3";
    let patch = "*** Begin Patch\n*** Update File: test.txt\n@@\n Line 1\n-LineToDelete\n Line 3\n*** End Patch";

    let result1 = apply_to(patch, "test.txt", initial_content);
    assert!(result1.is_ok(), "First patch application failed: {:?}", result1.err());
    let content_after_first = result1.unwrap();
    assert_eq!(content_after_first, "Line 1\nLine 3");

    let result2 = apply_to(patch, "test.txt", &content_after_first);
    assert!(result2.is_err(), "Second patch application should have failed (context not found)");
    assert!(matches!(result2.unwrap_err(), ZenpatchError::PatchConflict(_)));
}

#[test]
fn test_patch_repeated_context_close_proximity() {
    let initial_content = "Marker\nTarget\nMarker\nOther Target\nMarker";
    let patch = "*** Begin Patch\n*** Update File: test.txt\n@@\n Marker\n-Target\n+Modified Target\n Marker\n*** End Patch";

    let result = apply_to(patch, "test.txt", initial_content);
    assert!(result.is_ok(), "Patch failed: {:?}", result.err());
    assert_eq!(result.unwrap(), "Marker\nModified Target\nMarker\nOther Target\nMarker");
}

#[test]
fn test_patch_context_looks_like_patch_syntax() {
    let initial_content = "Line 1\n- Line 2 (looks like delete)\n+ Line 3 (looks like add)\n  Line 4 (looks like context)\nLine 5";
    let patch = "*** Begin Patch\n*** Update File: test.txt\n@@\n + Line 3 (looks like add)\n   Line 4 (looks like context)\n-Line 5\n+Modified Line 5\n*** End Patch";

    let result = apply_to(patch, "test.txt", initial_content);
    assert!(result.is_ok(), "Patch failed: {:?}", result.err());
    assert_eq!(
        result.unwrap(),
        "Line 1\n- Line 2 (looks like delete)\n+ Line 3 (looks like add)\n  Line 4 (looks like context)\nModified Line 5"
    );
}

#[test]
fn test_patch_delete_and_re_add_different_content() {
    let initial_content = "Line A\nLine B\nLine C";
    let patch = "*** Begin Patch\n*** Update File: test.txt\n@@\n Line A\n-Line B\n Line C\n@@\n Line A\n+Line B New\n Line C\n*** End Patch";

    let result = apply_to(patch, "test.txt", initial_content);
    assert!(result.is_ok(), "Patch failed: {:?}", result.err());
    assert_eq!(result.unwrap(), "Line A\nLine B New\nLine C");
}

#[test]
fn test_patch_no_op_change() {
    let initial_content = "Line 1\nLine 2\nLine 3";
    let patch = "*** Begin Patch\n*** Update File: test.txt\n@@\n Line 1\n-Line 2\n+Line 2\n Line 3\n*** End Patch";

    let result = apply_to(patch, "test.txt", initial_content);
    assert!(result.is_ok(), "Patch failed: {:?}", result.err());
    assert_eq!(result.unwrap(), initial_content);
}

#[test]
fn test_patch_windows_style_newlines() {
    let initial_content = "Line 1\r\nLine 2\r\nLine 3";
    let patch = "*** Begin Patch\n*** Update File: test.txt\n@@\n Line 1\n-Line 2\n+Modified Line 2\n Line 3\n*** End Patch";

    let result = apply_to(patch, "test.txt", initial_content);
    assert!(result.is_ok(), "Patch failed: {:?}", result.err());
    assert_eq!(result.unwrap(), "Line 1\nModified Line 2\nLine 3");
}
