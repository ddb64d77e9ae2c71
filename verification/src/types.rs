//! Plain data carried through the engine: tokens produced by an upstream
//! tokenizer and the replacement suggestions handed back to callers.

use vstd::prelude::*;

verus! {

/// One reading of a token's word: a part-of-speech tag and an inflection.
pub struct WordData {
    pub pos: String,
    pub inflection: String,
}

/// The word a token carries: its own text and its alternative readings.
pub struct Word {
    pub text: String,
    pub tags: Vec<WordData>,
}

/// One annotated token of the input. `text` is the full source text the token
/// was cut from; `char_span` is the token's character range `[start, end)`
/// into that text.
pub struct Token {
    pub text: String,
    pub char_span: (usize, usize),
    pub word: Word,
}

/// A proposed replacement of the character range `[start, end)` of the
/// original text by the first of `text` (the alternatives are kept in order).
pub struct Suggestion {
    pub start: usize,
    pub end: usize,
    pub text: Vec<String>,
}

/// The mathematical content of a `Suggestion`: its character range and the
/// characters of its replacement alternatives.
pub struct SuggestionModel {
    pub start: int,
    pub end: int,
    pub texts: Seq<Seq<char>>,
}

impl View for Suggestion {
    type V = SuggestionModel;

    open spec fn view(&self) -> SuggestionModel {
        SuggestionModel {
            start: self.start as int,
            end: self.end as int,
            texts: self.text.deep_view(),
        }
    }
}

impl DeepView for Suggestion {
    type V = SuggestionModel;

    open spec fn deep_view(&self) -> SuggestionModel {
        self.view()
    }
}

/// What the engine assumes of a token stream: every token's span is a valid
/// range into the source text (carried by the first token), and the tokens
/// are ordered left to right without overlap.
pub open spec fn tokens_wf(tokens: Seq<Token>) -> bool {
    &&& forall|i: int|
        0 <= i < tokens.len() ==> (#[trigger] tokens[i]).char_span.0 <= tokens[i].char_span.1
            <= tokens[0].text@.len()
    &&& forall|i: int, j: int|
        0 <= i < j < tokens.len() ==> (#[trigger] tokens[i]).char_span.1 <= (
        #[trigger] tokens[j]).char_span.0
}

} // verus!
