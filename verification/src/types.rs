//! Types that the models share.
use vstd::prelude::*;

verus! {

/// Why a transcription failed.
#[derive(Debug)]
pub enum TranscribeError {
    /// The model's file or directory does not exist.
    ModelNotFound,
    /// The model could not be run, or its answer could not be used.
    Inference(String),
}

impl TranscribeError {
    /// Whether this is an inference error with the given message.
    pub open spec fn is_inference(self, message: Seq<char>) -> bool {
        self matches TranscribeError::Inference(m) && m@ == message
    }
}

/// Whether `r` is the value, or the inference error with the message, that `expected` gives.
pub open spec fn is_outcome<A>(
    r: Result<A, TranscribeError>,
    expected: Result<A, Seq<char>>,
) -> bool {
    match (r, expected) {
        (Ok(value), Ok(wanted)) => value == wanted,
        (Err(error), Err(message)) => error.is_inference(message),
        _ => false,
    }
}

/// How finely a transcription is timed.
#[derive(Debug, Clone, Copy, PartialEq, Eq, Structural)]
pub enum TimestampGranularity {
    Segment,
    Word,
    Token,
}

/// Options that every model understands.
pub struct TranscribeOptions {
    /// Language of the speech (e.g. "en"). If None, the model decides.
    pub language: Option<String>,
    /// Whether to translate the speech to English.
    pub translate: bool,
}

/// A stretch of a transcription with its time span. `T` is whatever time is measured in.
pub struct TranscriptionSegment<T> {
    pub start: T,
    pub end: T,
    pub text: String,
}

impl<T> View for TranscriptionSegment<T> {
    type V = (T, T, Seq<char>);

    open spec fn view(&self) -> (T, T, Seq<char>) {
        (self.start, self.end, self.text@)
    }
}

/// A transcription.
pub struct TranscriptionResult<T> {
    /// The whole text.
    pub text: String,
    /// The timed parts of the text, from models that time it.
    pub segments: Option<Vec<TranscriptionSegment<T>>>,
}

/// What a model can do.
pub struct ModelCapabilities {
    pub name: &'static str,
    pub engine_id: &'static str,
    pub sample_rate: u32,
    pub languages: &'static [&'static str],
    pub supports_timestamps: bool,
    pub supports_translation: bool,
    pub supports_streaming: bool,
}

/// It is an error if a model does not exist.
pub fn require_model(exists: bool) -> (r: Result<(), TranscribeError>)
    ensures
        exists ==> r == Ok::<(), TranscribeError>(()),
        !exists ==> r == Err::<(), TranscribeError>(TranscribeError::ModelNotFound),
{
    if exists {
        Ok(())
    } else {
        Err(TranscribeError::ModelNotFound)
    }
}

/// An inference error with the given message.
pub(crate) fn inference_error(message: &str) -> (r: TranscribeError)
    ensures
        r.is_inference(message@),
{
    TranscribeError::Inference(message.to_string())
}

/// An expected value is met by that value alone, and an expected message by the inference error
/// with that message alone.
pub proof fn outcomes_are_met_exactly<A>(
    r: Result<A, TranscribeError>,
    value: A,
    message: Seq<char>,
)
    ensures
        is_outcome(r, Ok(value)) <==> r == Ok::<A, TranscribeError>(value),
        is_outcome(r, Err(message)) <==> (r is Err && r->Err_0 is Inference && r->Err_0->Inference_0@
            == message),
{
}

/// A segment is seen with its own times and all its text.
pub proof fn segments_are_seen_whole<T>(segment: TranscriptionSegment<T>)
    ensures
        segment@.0 == segment.start && segment@.1 == segment.end && segment@.2 == segment.text@,
{
}

} // verus!
