//! What a beat detector answers.

use vstd::prelude::*;
use vstd::string::*;

verus! {

/// One detected beat or downbeat: where it is, and how sure the detector was.
/// Both are 32-bit floats, each held as its bit pattern.
///
/// Declared here rather than taken from a backend, because [`BeatDetector`] is
/// what a backend answers to and no backend owns the shape of the answer.
#[derive(Clone, Copy, Debug, PartialEq, Eq, Structural)]
pub struct BeatMark {
    /// Seconds from the start of the analysed window.
    pub at: u32,
    /// Probability the detector assigned this mark, in `(0, 1)`.
    pub confidence: u32,
}

/// Raw detector output: beat / downbeat marks in seconds from track start.
#[derive(Debug)]
pub struct RawBeats {
    pub beats: Vec<BeatMark>,
    pub downbeats: Vec<BeatMark>,
}

/// Failure of a beat detector backend.
#[derive(Debug)]
pub enum BeatDetectError {
    Buffer,
    Init { reason: String },
    Detect { reason: String },
}

impl BeatDetectError {
    pub fn message(&self) -> (message: String)
        ensures
            message@ == match self {
                BeatDetectError::Buffer => "beat analysis buffer budget exhausted"@,
                BeatDetectError::Init { reason } => "beat detector init failed: "@ + reason@,
                BeatDetectError::Detect { reason } => "beat detection failed: "@ + reason@,
            },
    {
        match self {
            BeatDetectError::Buffer => String::from_str("beat analysis buffer budget exhausted"),
            BeatDetectError::Init { reason } => {
                let mut message = String::from_str("beat detector init failed: ");
                message.append(reason.as_str());
                message
            },
            BeatDetectError::Detect { reason } => {
                let mut message = String::from_str("beat detection failed: ");
                message.append(reason.as_str());
                message
            },
        }
    }
}

/// Swappable beat/downbeat detector over one mono analysis window.
pub trait BeatDetector {
    /// # Errors
    /// [`BeatDetectError::Detect`] when the backend fails on this input.
    fn detect(&mut self, mono_window: &[u32]) -> Result<RawBeats, BeatDetectError>;
}

} // verus!
