//! Decisions of the transcription pipeline: which progress to report, how
//! the sidecar's replies are read, and which error a missing result gives.

use vstd::prelude::*;

verus! {

/// A progress report shown to the user.
#[derive(Debug)]
pub struct PipelineProgress {
    pub step: String,
    pub percent: u32,
    pub message: String,
}

impl PipelineProgress {
    pub fn new(step: &str, percent: u32, message: &str) -> (p: PipelineProgress)
        ensures
            p.step@ == step@,
            p.percent == percent,
            p.message@ == message@,
    {
        PipelineProgress { step: String::from_str(step), percent, message: String::from_str(message) }
    }

    /// The report for a progress message of the sidecar: a missing percentage
    /// counts as 0 and a missing message as empty.
    pub fn from_sidecar(step: &String, percent: Option<u32>, message: &Option<String>) -> (p: PipelineProgress)
        ensures
            p.step@ == step@,
            p.percent == (match percent {
                Some(x) => x,
                None => 0,
            }),
            p.message@ == (match message {
                Some(m) => m@,
                None => Seq::<char>::empty(),
            }),
    {
        let percent = match percent {
            Some(x) => x,
            None => 0,
        };
        let message = match message {
            Some(m) => m.clone(),
            None => String::new(),
        };
        PipelineProgress { step: step.clone(), percent, message }
    }
}

/// The kind of a line that the sidecar sends.
#[derive(Debug, Clone, Copy, PartialEq, Eq, Structural)]
pub enum SidecarReply {
    /// Progress to forward; keep reading.
    Progress,
    /// The command's result; stop reading.
    Result,
    /// The command failed; stop reading.
    Error,
    /// Anything else; ignore it and keep reading.
    Other,
}

/// The kind of a sidecar message with type `msg_type`.
pub open spec fn reply_kind(msg_type: Seq<char>) -> SidecarReply {
    if msg_type == "progress"@ {
        SidecarReply::Progress
    } else if msg_type == "result"@ {
        SidecarReply::Result
    } else if msg_type == "error"@ {
        SidecarReply::Error
    } else {
        SidecarReply::Other
    }
}

/// Reads the type field of a sidecar message.
pub fn classify_reply(msg_type: &String) -> (kind: SidecarReply)
    ensures
        kind == reply_kind(msg_type@),
{
    if *msg_type == String::from_str("progress") {
        SidecarReply::Progress
    } else if *msg_type == String::from_str("result") {
        SidecarReply::Result
    } else if *msg_type == String::from_str("error") {
        SidecarReply::Error
    } else {
        SidecarReply::Other
    }
}

/// The error reported for a failed command: the sidecar's message, or a
/// generic one when it sent none.
pub fn error_message(message: Option<String>) -> (e: String)
    ensures
        e@ == (match message {
            Some(m) => m@,
            None => "Unknown error"@,
        }),
{
    match message {
        Some(m) => m,
        None => String::from_str("Unknown error"),
    }
}

/// The error reported when the sidecar stops before answering.
pub fn closed_message() -> (e: String)
    ensures
        e@ == "Sidecar closed unexpectedly"@,
{
    String::from_str("Sidecar closed unexpectedly")
}

/// The steps of the pipeline, in order.
#[derive(Debug, Clone, Copy, PartialEq, Eq, Structural)]
pub enum PipelineStage {
    Extract,
    Separate,
    Transcribe,
    Convert,
}

/// The step after `stage`, if any.
pub open spec fn next_stage_spec(stage: PipelineStage) -> Option<PipelineStage> {
    match stage {
        PipelineStage::Extract => Some(PipelineStage::Separate),
        PipelineStage::Separate => Some(PipelineStage::Transcribe),
        PipelineStage::Transcribe => Some(PipelineStage::Convert),
        PipelineStage::Convert => None,
    }
}

pub fn next_stage(stage: PipelineStage) -> (next: Option<PipelineStage>)
    ensures
        next == next_stage_spec(stage),
{
    match stage {
        PipelineStage::Extract => Some(PipelineStage::Separate),
        PipelineStage::Separate => Some(PipelineStage::Transcribe),
        PipelineStage::Transcribe => Some(PipelineStage::Convert),
        PipelineStage::Convert => None,
    }
}

/// The name of a step as progress reports give it.
pub open spec fn stage_name(stage: PipelineStage) -> Seq<char> {
    match stage {
        PipelineStage::Extract => "extract"@,
        PipelineStage::Separate => "separate"@,
        PipelineStage::Transcribe => "transcribe"@,
        PipelineStage::Convert => "convert"@,
    }
}

/// The message announcing the start of a step.
pub open spec fn start_message(stage: PipelineStage) -> Seq<char> {
    match stage {
        PipelineStage::Extract => "Starting audio extraction..."@,
        PipelineStage::Separate => "Starting source separation..."@,
        PipelineStage::Transcribe => "Starting pitch detection..."@,
        PipelineStage::Convert => "Generating tab notation..."@,
    }
}

/// The report that a step starts, at 0%.
pub fn stage_started(stage: PipelineStage) -> (p: PipelineProgress)
    ensures
        p.step@ == stage_name(stage),
        p.percent == 0,
        p.message@ == start_message(stage),
{
    match stage {
        PipelineStage::Extract => PipelineProgress::new("extract", 0, "Starting audio extraction..."),
        PipelineStage::Separate => PipelineProgress::new("separate", 0, "Starting source separation..."),
        PipelineStage::Transcribe => PipelineProgress::new("transcribe", 0, "Starting pitch detection..."),
        PipelineStage::Convert => PipelineProgress::new("convert", 0, "Generating tab notation..."),
    }
}

/// The report that a step finished, at 100%: given for the in-process steps
/// (the sidecar reports its own).
pub fn stage_finished(stage: PipelineStage) -> (p: Option<PipelineProgress>)
    ensures
        match stage {
            PipelineStage::Transcribe => p matches Some(q) && q.step@ == "transcribe"@ && q.percent == 100
                && q.message@ == "Pitch detection complete"@,
            PipelineStage::Convert => p matches Some(q) && q.step@ == "convert"@ && q.percent == 100
                && q.message@ == "Tab generation complete!"@,
            _ => p is None,
        },
{
    match stage {
        PipelineStage::Transcribe => Some(PipelineProgress::new("transcribe", 100, "Pitch detection complete")),
        PipelineStage::Convert => Some(PipelineProgress::new("convert", 100, "Tab generation complete!")),
        _ => None,
    }
}

/// The steps that the sidecar performs.
#[derive(Debug, Clone, Copy, PartialEq, Eq, Structural)]
pub enum SidecarStep {
    Extract,
    Separate,
}

/// The message for a sidecar result that lacks its path.
pub open spec fn missing_path_message(step: SidecarStep) -> Seq<char> {
    match step {
        SidecarStep::Extract => "Missing audio_path in extract result"@,
        SidecarStep::Separate => "Missing bass_path in separate result"@,
    }
}

/// The path that a sidecar step must return (the extracted audio, or the
/// separated bass track), or the error naming the missing field.
pub fn path_from_reply(step: SidecarStep, path: Option<String>) -> (r: Result<String, String>)
    ensures
        match path {
            Some(p) => r == Ok::<String, String>(p),
            None => r matches Err(e) && e@ == missing_path_message(step),
        },
{
    match path {
        Some(p) => Ok(p),
        None => Err(
            match step {
                SidecarStep::Extract => String::from_str("Missing audio_path in extract result"),
                SidecarStep::Separate => String::from_str("Missing bass_path in separate result"),
            },
        ),
    }
}

/// The error reported when pitch detection fails.
pub fn transcription_error(cause: &str) -> (e: String)
    ensures
        e@ == "Pitch detection failed: "@ + cause@,
{
    let mut e = String::from_str("Pitch detection failed: ");
    e.append(cause);
    e
}

} // verus!
