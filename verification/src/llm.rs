//! Preparing a rendered diff for the text-generation backend and reading the
//! backend's answer: deterministic truncation to a character budget, the
//! prompt texts, and extraction of the description from the response.
use vstd::prelude::*;
use vstd::string::StrSliceExecFns;
use vstd::string::StringExecFns;

use crate::text::dec_str;
use crate::text::trim_spec;
use crate::text::trim_str;
use crate::text::usize_dec_str;

verus! {

/// A failure of the text-generation backend.
#[derive(Debug, Clone)]
pub enum LlmError {
    /// The backend call failed, or its response could not be used.
    Api(String),
    /// The request could not be built.
    Build(String),
}

/// The character budget a diff is truncated to before it is sent.
pub const MAX_DIFF_CHARS: usize = 8000;

/// The marker appended to a truncated diff; `extra` counts the characters
/// that were elided.
pub open spec fn truncation_marker(extra: nat) -> Seq<char> {
    "...\n[diff truncated, "@ + dec_str(extra) + " more bytes]"@
}

/// What truncation to `budget` characters returns: the input itself when it
/// fits, else its first `budget` characters followed by the marker.
pub open spec fn truncate_spec(diff: Seq<char>, budget: nat) -> Seq<char> {
    if diff.len() <= budget {
        diff
    } else {
        diff.take(budget as int) + truncation_marker((diff.len() - budget) as nat)
    }
}

/// Truncates `diff` to at most `budget` characters, appending a marker that
/// says how much was elided. Input within the budget is returned unchanged,
/// so truncation is idempotent there.
pub fn truncate_diff(diff: &str, budget: usize) -> (r: String)
    ensures
        r@ == truncate_spec(diff@, budget as nat),
        diff@.len() <= budget ==> r@ == diff@,
        diff@.len() > budget ==> r@.len() == budget + truncation_marker(
            (diff@.len() - budget) as nat,
        ).len() && r@.subrange(0, budget as int) =~= diff@.take(budget as int),
{
    let n = diff.unicode_len();
    if n <= budget {
        diff.to_owned()
    } else {
        let mut s = diff.substring_char(0, budget).to_owned();
        s.append("...\n[diff truncated, ");
        let count = usize_dec_str(n - budget);
        s.append(count.as_str());
        s.append(" more bytes]");
        proof {
            assert(diff@.subrange(0, budget as int) =~= diff@.take(budget as int));
            assert(s@ =~= truncate_spec(diff@, budget as nat));
            assert(s@.subrange(0, budget as int) =~= diff@.take(budget as int));
        }
        s
    }
}

/// The fixed instruction under which every description is generated.
pub open spec fn base_instruction() -> Seq<char> {
    "You are an assistant that writes concise, informative commit descriptions based on code diffs.\nWrite a short summary (1-2 sentences) of what the changes do, followed by bullet points if there are multiple distinct changes.\nBe specific about what changed, not why. Do not include the commit hash or author information.\nKeep the description under 200 words."@
}

/// A commit-message style preset; each contributes one instruction block to
/// the system prompt.
#[derive(Debug, Clone, Copy, PartialEq, Eq, Structural)]
pub enum MessageStyle {
    /// Plain prose, no structural convention.
    Generic,
    /// Conventional-commits subject lines.
    Conventional,
    /// A leading emoji that classifies the change.
    Emoji,
}

/// The instruction block a style preset appends to the base instruction.
pub open spec fn style_instruction(style: MessageStyle) -> Seq<char> {
    match style {
        MessageStyle::Generic => ""@,
        MessageStyle::Conventional => "\nStart the summary with a conventional-commits type prefix such as feat:, fix:, refactor: or docs:."@,
        MessageStyle::Emoji => "\nStart the summary with a single emoji that classifies the change."@,
    }
}

/// Builds the system prompt for one style preset.
pub fn system_prompt(style: MessageStyle) -> (r: String)
    ensures
        r@ == base_instruction() + style_instruction(style),
{
    let mut s =
        "You are an assistant that writes concise, informative commit descriptions based on code diffs.\nWrite a short summary (1-2 sentences) of what the changes do, followed by bullet points if there are multiple distinct changes.\nBe specific about what changed, not why. Do not include the commit hash or author information.\nKeep the description under 200 words.".to_owned();
    match style {
        MessageStyle::Generic => {
            proof {
                reveal_strlit("");
            }
            s.append("");
        },
        MessageStyle::Conventional => {
            s.append(
                "\nStart the summary with a conventional-commits type prefix such as feat:, fix:, refactor: or docs:.",
            );
        },
        MessageStyle::Emoji => {
            s.append("\nStart the summary with a single emoji that classifies the change.");
        },
    }
    s
}

/// What the user payload wraps around the (already truncated) diff.
pub open spec fn user_prompt_spec(diff: Seq<char>) -> Seq<char> {
    "Generate a commit description for this diff:\n\n```\n"@ + diff + "\n```"@
}

/// Builds the user payload for one diff.
pub fn build_user_prompt(diff: &str) -> (r: String)
    ensures
        r@ == user_prompt_spec(diff@),
{
    let mut s = "Generate a commit description for this diff:\n\n```\n".to_owned();
    s.append(diff);
    s.append("\n```");
    s
}

/// Extracts the description from the backend's single-field response:
/// a missing field is a backend failure, a present one is trimmed.
pub fn description_from_response(message: Option<String>) -> (r: Result<String, LlmError>)
    ensures
        message is None ==> r is Err && r->Err_0 is Api,
        message is Some ==> r is Ok && r->Ok_0@ == trim_spec(message->0@),
{
    match message {
        None => Err(LlmError::Api("response held no message field".to_owned())),
        Some(m) => Ok(trim_str(m.as_str())),
    }
}

} // verus!
