//! What can go wrong, and how it is put into words.

use vstd::prelude::*;
use crate::payload::SalvageError;

verus! {

/// An error of this library.
#[derive(Debug, Clone, Copy, PartialEq, Eq, Structural)]
pub enum StudyError {
    MissingApiKey,
    MissingVector,
    EmptyVector,
    MissingContent,
    Salvage(SalvageError),
    OcrFailed,
    CourseNotFound,
    CourseNameRequired,
    NoDocument,
    NoCourseForCapture,
    NoCourseForText,
    NoQuestion,
    NoSolvedQuestion,
    CaptureFailed,
    ClipboardUnreadable,
    ClipboardEmpty,
    ClipboardNotCleared,
    SnippingNotLaunched,
    NothingCopied,
}

/// The words for an error.
pub open spec fn message(error: StudyError) -> Seq<char> {
    match error {
        StudyError::MissingApiKey => "missing API key"@,
        StudyError::MissingVector => "embedding response missing vector"@,
        StudyError::EmptyVector => "embedding vector is empty"@,
        StudyError::MissingContent => "chat response missing content"@,
        StudyError::Salvage(SalvageError::MissingPayload) =>
            "model did not return a questions payload"@,
        StudyError::Salvage(SalvageError::MissingArray) => "questions array missing"@,
        StudyError::Salvage(SalvageError::NoCompleteObject) =>
            "no complete question objects could be salvaged"@,
        StudyError::OcrFailed => "tesseract OCR failed"@,
        StudyError::CourseNotFound => "course not found"@,
        StudyError::CourseNameRequired => "course name is required"@,
        StudyError::NoDocument => "select at least one document"@,
        StudyError::NoCourseForCapture => "set an active course before capturing"@,
        StudyError::NoCourseForText => "set an active course before solving"@,
        StudyError::NoQuestion => "failed to split any questions from screenshot"@,
        StudyError::NoSolvedQuestion => "model did not return any solved questions"@,
        StudyError::CaptureFailed => "capture was cancelled or failed"@,
        StudyError::ClipboardUnreadable => "failed to read clipboard text"@,
        StudyError::ClipboardEmpty => "clipboard does not contain readable text"@,
        StudyError::ClipboardNotCleared => "failed to clear clipboard before starting capture"@,
        StudyError::SnippingNotLaunched => "failed to launch Windows screen snipping"@,
        StudyError::NothingCopied =>
            "capture was cancelled or no image was copied to the clipboard"@,
    }
}

/// The words for an error.
pub fn error_to_string(error: StudyError) -> (r: String)
    ensures
        r@ == message(error),
{
    match error {
        StudyError::MissingApiKey => "missing API key".to_owned(),
        StudyError::MissingVector => "embedding response missing vector".to_owned(),
        StudyError::EmptyVector => "embedding vector is empty".to_owned(),
        StudyError::MissingContent => "chat response missing content".to_owned(),
        StudyError::Salvage(SalvageError::MissingPayload) =>
            "model did not return a questions payload".to_owned(),
        StudyError::Salvage(SalvageError::MissingArray) => "questions array missing".to_owned(),
        StudyError::Salvage(SalvageError::NoCompleteObject) =>
            "no complete question objects could be salvaged".to_owned(),
        StudyError::OcrFailed => "tesseract OCR failed".to_owned(),
        StudyError::CourseNotFound => "course not found".to_owned(),
        StudyError::CourseNameRequired => "course name is required".to_owned(),
        StudyError::NoDocument => "select at least one document".to_owned(),
        StudyError::NoCourseForCapture => "set an active course before capturing".to_owned(),
        StudyError::NoCourseForText => "set an active course before solving".to_owned(),
        StudyError::NoQuestion => "failed to split any questions from screenshot".to_owned(),
        StudyError::NoSolvedQuestion => "model did not return any solved questions".to_owned(),
        StudyError::CaptureFailed => "capture was cancelled or failed".to_owned(),
        StudyError::ClipboardUnreadable => "failed to read clipboard text".to_owned(),
        StudyError::ClipboardEmpty => "clipboard does not contain readable text".to_owned(),
        StudyError::ClipboardNotCleared =>
            "failed to clear clipboard before starting capture".to_owned(),
        StudyError::SnippingNotLaunched => "failed to launch Windows screen snipping".to_owned(),
        StudyError::NothingCopied =>
            "capture was cancelled or no image was copied to the clipboard".to_owned(),
    }
}

} // verus!
