//! Prompt strategy: heuristic prompt framing based on input analysis.
//!
//! Determines how to frame a user prompt before it is sent to inference,
//! by a keyword heuristic on the input text.
use vstd::prelude::*;
use crate::text::{has_sub, str_chars, contains_char, contains_str};

verus! {

/// How a user prompt is framed before inference.
#[derive(Debug, Clone, Copy, PartialEq, Eq, Structural)]
pub enum PromptStrategy {
    /// Factual question: answer concisely.
    Answer,
    /// Creative or construction request: step-by-step instructions.
    Instruct,
    /// General: respond helpfully.
    Assist,
}

/// The strategy the heuristic picks for an input: a question mark, "what" or
/// "how" make it a question; otherwise "create", "make" or "build" make it an
/// instruction; anything else is general assistance.
pub open spec fn strategy_for(input: Seq<char>) -> PromptStrategy {
    if input.contains('?') || has_sub(input, "what"@) || has_sub(input, "how"@) {
        PromptStrategy::Answer
    } else if has_sub(input, "create"@) || has_sub(input, "make"@) || has_sub(input, "build"@) {
        PromptStrategy::Instruct
    } else {
        PromptStrategy::Assist
    }
}

impl PromptStrategy {
    /// Analyze input text to determine the prompt strategy.
    pub fn from_input(input: &str) -> (r: PromptStrategy)
        ensures
            r == strategy_for(input@),
    {
        let s = str_chars(input);
        if contains_char(&s, '?') || contains_str(&s, "what") || contains_str(&s, "how") {
            PromptStrategy::Answer
        } else if contains_str(&s, "create") || contains_str(&s, "make") || contains_str(&s, "build") {
            PromptStrategy::Instruct
        } else {
            PromptStrategy::Assist
        }
    }

    /// Strategy name for tagging and logging.
    pub fn name(&self) -> (r: &'static str)
        ensures
            *self == PromptStrategy::Answer ==> r@ == "answer"@,
            *self == PromptStrategy::Instruct ==> r@ == "instruct"@,
            *self == PromptStrategy::Assist ==> r@ == "assist"@,
    {
        match self {
            PromptStrategy::Answer => "answer",
            PromptStrategy::Instruct => "instruct",
            PromptStrategy::Assist => "assist",
        }
    }
}

} // verus!
