use vstd::prelude::*;

verus! {

/// Every failure that decoding, encoding or form reconstruction can report.
/// Decoding is all-or-nothing: any of these aborts the whole call.
#[derive(Debug, Clone, Copy, PartialEq, Eq, Structural)]
pub enum Error {
    /// A payload would be at least `u32::MAX - 8` bytes long.
    ChunkTooLarge,
    /// A singleton field (id, title, description, prompt) occurred twice.
    DuplicateField,
    /// A non-empty identifier payload is not valid base-62 text.
    InvalidIdFormat,
    /// The group-id segment of a form field name is not a valid integer.
    InvalidQuestionId,
    /// Reserved; no current path reports it.
    MissingCorrectAnswer,
    /// A question group ended without a prompt field.
    MissingQuestionPrompt,
    /// A question group ended without a type field.
    MissingQuestionType,
    /// Fewer choices than the question kind requires.
    NotEnoughChoices,
    /// More choices than the question kind allows.
    TooManyChoices,
    /// The input ended inside a chunk header.
    UnexpectedEOF,
    /// A tag value with no meaning in its nesting context.
    UnknownTypeIndex,
    /// A question type selector outside the known kinds.
    UnknownQuestionType,
    /// Malformed field syntax and other catch-all failures.
    Other,
}

} // verus!
