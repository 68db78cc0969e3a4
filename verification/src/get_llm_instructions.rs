//! Documentation of the patch format, addressed to automated patch authors.

use vstd::prelude::*;

verus! {

/// Returns the patch-format instructions handed to automated agents that
/// produce patches for this library.
pub fn get_llm_instructions() -> (r: &'static str)
    ensures
        r@.len() > 0,
{
    let r = "Zenpatch Patch Format for LLMs

A patch is a plain-text envelope. It begins with the line
*** Begin Patch
and ends with the line
*** End Patch

Inside the envelope, file directives introduce actions:
*** Add File: <path>     adds a new file; every following line starts with +
*** Update File: <path>  edits an existing file through hunks
*** Delete File: <path>  removes a file; its full content follows, each line
                         starting with -
*** Move to: <path>      immediately after an update directive, renames the
                         updated file

Within an update, @@ introduces a new hunk. Each following line is
classified by its first character: a space for context, + for an insertion,
- for a deletion. Provide enough surrounding context for every hunk to have
exactly one placement in the file; a patch with no placement or with several
materially different placements is rejected.
";
    proof {
        reveal_strlit(
            "Zenpatch Patch Format for LLMs

A patch is a plain-text envelope. It begins with the line
*** Begin Patch
and ends with the line
*** End Patch

Inside the envelope, file directives introduce actions:
*** Add File: <path>     adds a new file; every following line starts with +
*** Update File: <path>  edits an existing file through hunks
*** Delete File: <path>  removes a file; its full content follows, each line
                         starting with -
*** Move to: <path>      immediately after an update directive, renames the
                         updated file

Within an update, @@ introduces a new hunk. Each following line is
classified by its first character: a space for context, + for an insertion,
- for a deletion. Provide enough surrounding context for every hunk to have
exactly one placement in the file; a patch with no placement or with several
materially different placements is rejected.
",
        );
    }
    r
}

} // verus!
