//! The hunk engine and the line comparator, exercised directly.

use zenpatch::applier::backtracking_patcher::{
    apply_patch_backtracking, apply_patch_backtracking_mode, match_line, super_normalise,
};
use zenpatch::applier::state::BacktrackingState;
use zenpatch::applier::whitespace_mode::WhitespaceMode;
use zenpatch::data::chunk::Chunk;
use zenpatch::data::line_type::LineType;
use zenpatch::ZenpatchError;

fn lines_of(items: &[&str]) -> Vec<String> {
    items.iter().map(|s| s.to_string()).collect()
}

fn chunk(entries: &[(LineType, &str)], orig_index: usize) -> Chunk {
    let lines: Vec<(LineType, String)> =
        entries.iter().map(|(t, s)| (*t, s.to_string())).collect();
    let del_lines = entries
        .iter()
        .filter(|(t, _)| matches!(t, LineType::Deletion))
        .map(|(_, s)| s.to_string())
        .collect();
    let ins_lines = entries
        .iter()
        .filter(|(t, _)| matches!(t, LineType::Insertion))
        .map(|(_, s)| s.to_string())
        .collect();
    Chunk { orig_index, lines, del_lines, ins_lines }
}

#[test]
fn simple_replacement() {
    let original = lines_of(&["a"]);
    let chunks = vec![chunk(&[(LineType::Deletion, "a"), (LineType::Insertion, "b")], 0)];
    let result = apply_patch_backtracking(&original, &chunks).unwrap();
    assert_eq!(result, lines_of(&["b"]));
}

#[test]
fn replacement_with_surrounding_context() {
    let original = lines_of(&["c", "a", "d"]);
    let chunks = vec![chunk(
        &[
            (LineType::Context, "c"),
            (LineType::Deletion, "a"),
            (LineType::Insertion, "b"),
            (LineType::Context, "d"),
        ],
        0,
    )];
    let result = apply_patch_backtracking(&original, &chunks).unwrap();
    assert_eq!(result, lines_of(&["c", "b", "d"]));
}

#[test]
fn ambiguous_deletion_without_context_is_rejected() {
    let original = lines_of(&["x", "x", "x"]);
    let chunks = vec![chunk(&[(LineType::Deletion, "x"), (LineType::Insertion, "y")], 0)];
    let result = apply_patch_backtracking(&original, &chunks);
    assert!(matches!(result.unwrap_err(), ZenpatchError::AmbiguousPatch(_)));
}

#[test]
fn no_match_is_a_conflict() {
    let original = lines_of(&["p", "q"]);
    let chunks = vec![chunk(&[(LineType::Deletion, "zzz")], 0)];
    let result = apply_patch_backtracking(&original, &chunks);
    assert!(matches!(result.unwrap_err(), ZenpatchError::PatchConflict(_)));
}

#[test]
fn empty_original_concatenates_insertions() {
    let original: Vec<String> = Vec::new();
    let chunks = vec![
        chunk(&[(LineType::Insertion, "one")], 0),
        chunk(&[(LineType::Insertion, "two"), (LineType::Insertion, "three")], 0),
    ];
    let result = apply_patch_backtracking(&original, &chunks).unwrap();
    assert_eq!(result, lines_of(&["one", "two", "three"]));
}

#[test]
fn identity_hunk_leaves_lines_unchanged() {
    let original = lines_of(&["keep", "same", "tail"]);
    let chunks = vec![chunk(
        &[
            (LineType::Context, "keep"),
            (LineType::Deletion, "same"),
            (LineType::Insertion, "same"),
            (LineType::Context, "tail"),
        ],
        0,
    )];
    let result = apply_patch_backtracking(&original, &chunks).unwrap();
    assert_eq!(result, original);
}

#[test]
fn length_arithmetic_matches_insertions_minus_deletions() {
    let original = lines_of(&["a", "b", "c", "d", "e"]);
    let chunks = vec![
        chunk(
            &[
                (LineType::Context, "a"),
                (LineType::Deletion, "b"),
                (LineType::Insertion, "B1"),
                (LineType::Insertion, "B2"),
            ],
            0,
        ),
        chunk(&[(LineType::Context, "d"), (LineType::Deletion, "e")], 0),
    ];
    let result = apply_patch_backtracking(&original, &chunks).unwrap();
    let expected_len: i64 = 5 + (2 - 1) + (0 - 1);
    assert_eq!(result.len() as i64, expected_len);
    assert_eq!(result, lines_of(&["a", "B1", "B2", "c", "d"]));
}

#[test]
fn engine_is_deterministic() {
    let original = lines_of(&["one", "two", "three"]);
    let chunks = vec![chunk(
        &[
            (LineType::Context, "one"),
            (LineType::Deletion, "two"),
            (LineType::Insertion, "TWO"),
        ],
        0,
    )];
    let first = apply_patch_backtracking(&original, &chunks).unwrap();
    let second = apply_patch_backtracking(&original, &chunks).unwrap();
    assert_eq!(first, second);
}

#[test]
fn strict_and_lenient_agree_when_strict_succeeds() {
    let original = lines_of(&["alpha", "beta", "gamma"]);
    let chunks = vec![chunk(
        &[
            (LineType::Context, "alpha"),
            (LineType::Deletion, "beta"),
            (LineType::Insertion, "BETA"),
        ],
        0,
    )];
    let strict =
        apply_patch_backtracking_mode(&original, &chunks, WhitespaceMode::Strict).unwrap();
    let lenient =
        apply_patch_backtracking_mode(&original, &chunks, WhitespaceMode::Lenient).unwrap();
    assert_eq!(strict, lenient);
}

#[test]
fn lenient_mode_folds_whitespace() {
    let a = "  hello   world ".to_string();
    let b = "hello world".to_string();
    assert!(!match_line(&a, &b, WhitespaceMode::Strict));
    assert!(match_line(&a, &b, WhitespaceMode::Lenient));
    let c = "helloworld".to_string();
    assert!(!match_line(&a, &c, WhitespaceMode::Lenient));
}

#[test]
fn super_lenient_mode_folds_punctuation() {
    let fancy = "it\u{2019}s a \u{2014} dash".to_string();
    let plain = "it's a - dash".to_string();
    assert!(!match_line(&fancy, &plain, WhitespaceMode::Lenient));
    assert!(match_line(&fancy, &plain, WhitespaceMode::SuperLenient));
    let other = "it's a + dash".to_string();
    assert!(!match_line(&fancy, &other, WhitespaceMode::SuperLenient));
}

#[test]
fn super_normalise_trims_and_maps_characters_only() {
    // Trimming and the character map, nothing else: interior whitespace runs
    // are kept as they are.
    let folded = super_normalise(" a \u{2014} b ");
    assert_eq!(folded, vec!['a', ' ', '-', ' ', 'b']);
    let doubled = super_normalise("a  b");
    assert_eq!(doubled, vec!['a', ' ', ' ', 'b']);
    let quotes = super_normalise("\u{2018}x\u{2019}");
    assert_eq!(quotes, vec!['\'', 'x', '\'']);
}

#[test]
fn lenient_retry_applies_whitespace_folded_context() {
    let original = lines_of(&["  spaced   out  ", "victim"]);
    let chunks = vec![chunk(
        &[
            (LineType::Context, "spaced out"),
            (LineType::Deletion, "victim"),
            (LineType::Insertion, "replacement"),
        ],
        0,
    )];
    assert!(apply_patch_backtracking_mode(&original, &chunks, WhitespaceMode::Strict).is_err());
    let result =
        apply_patch_backtracking_mode(&original, &chunks, WhitespaceMode::Lenient).unwrap();
    assert_eq!(result, lines_of(&["  spaced   out  ", "replacement"]));
}

#[test]
fn lenient_fallback_anchors_on_last_context_line() {
    // No offset matches the full two-line pre-context, so in lenient mode the
    // locator falls back to scanning for its last line alone.
    let original = lines_of(&["A", "B", "victim"]);
    let chunks = vec![chunk(
        &[
            (LineType::Context, "X"),
            (LineType::Context, "B"),
            (LineType::Deletion, "victim"),
            (LineType::Insertion, "new"),
        ],
        0,
    )];
    assert!(apply_patch_backtracking_mode(&original, &chunks, WhitespaceMode::Strict).is_err());
    let result =
        apply_patch_backtracking_mode(&original, &chunks, WhitespaceMode::Lenient).unwrap();
    assert_eq!(result, lines_of(&["A", "B", "new"]));
}

#[test]
fn fresh_search_state_is_empty() {
    let state = BacktrackingState::new();
    assert_eq!(state.solution_count, 0);
    assert!(state.first_solution_result.is_none());
    assert!(state.solution_path.is_none());
    assert!(state.applied_chunks.is_empty());
    assert!(state.modified_indices.is_empty());
}

#[test]
fn pure_insertion_uses_hint_and_post_context() {
    let original = lines_of(&["Marker", "Tail", "Marker", "Other"]);
    let chunks = vec![chunk(
        &[
            (LineType::Context, "Marker"),
            (LineType::Insertion, "Inserted"),
            (LineType::Context, "Tail"),
        ],
        0,
    )];
    let result = apply_patch_backtracking(&original, &chunks).unwrap();
    assert_eq!(result, lines_of(&["Marker", "Inserted", "Tail", "Marker", "Other"]));
}

#[test]
fn test_instructions_are_not_empty() {
    let instructions = zenpatch::get_llm_instructions::get_llm_instructions();
    assert!(!instructions.is_empty(), "Instructions string should not be empty.");
    assert!(
        instructions.contains("Zenpatch Patch Format for LLMs"),
        "Instructions should contain the title."
    );
}
