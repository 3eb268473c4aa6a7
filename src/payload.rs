//! The structured payloads of the provider's answers, and what the decoder
//! takes from them.
use vstd::prelude::*;

use crate::error::AiError;
use crate::frame::Frame;

verus! {

/// One choice of a streamed chunk.
#[derive(Debug, PartialEq, Eq)]
pub struct ChoiceDelta {
    /// The incremental text, if this chunk carries any.
    pub content: Option<String>,
    /// Why the answer finished, if it did.
    pub finish_reason: Option<String>,
}

/// The payload of one data frame.
#[derive(Debug, PartialEq, Eq)]
pub struct ChatChunk {
    pub choices: Vec<ChoiceDelta>,
}

/// What one data frame contributes to the answer.
#[derive(Debug, PartialEq, Eq)]
pub struct DeltaEvent {
    /// The new text fragment; absent when the frame carries none.
    pub text: Option<String>,
    /// Whether the frame marks the answer as finished.
    pub finished: bool,
}

/// The text of an optional string.
pub open spec fn opt_text(o: Option<String>) -> Option<Seq<char>> {
    match o {
        Some(s) => Some(s@),
        None => None,
    }
}

/// The fragment of a chunk: the first choice's content, if any.
pub open spec fn chunk_text(c: ChatChunk) -> Option<Seq<char>> {
    if c.choices@.len() == 0 {
        None
    } else {
        opt_text(c.choices@[0].content)
    }
}

/// Whether the first choice of a chunk has a finish reason.
pub open spec fn chunk_finished(c: ChatChunk) -> bool {
    c.choices@.len() > 0 && c.choices@[0].finish_reason is Some
}

fn copy_text(o: &Option<String>) -> (r: Option<String>)
    ensures
        opt_text(r) == opt_text(*o),
{
    match o {
        Some(s) => Some(s.clone()),
        None => None,
    }
}

/// The delta event of a parsed chunk: the first choice's text fragment and
/// whether it carries a finish reason.
pub fn delta_event(chunk: &ChatChunk) -> (r: DeltaEvent)
    ensures
        opt_text(r.text) == chunk_text(*chunk),
        r.finished == chunk_finished(*chunk),
{
    if chunk.choices.len() == 0 {
        DeltaEvent { text: None, finished: false }
    } else {
        let first = &chunk.choices[0];
        DeltaEvent { text: copy_text(&first.content), finished: first.finish_reason.is_some() }
    }
}

/// What a frame comes to once its payload has been read.
#[derive(Debug, PartialEq, Eq)]
pub enum FrameEvent {
    /// A data frame whose payload is a structured chunk.
    Delta(DeltaEvent),
    /// The termination sentinel.
    StreamEnd,
    /// A frame without the data marker, or a data frame whose payload is
    /// malformed: it is skipped and decoding goes on.
    Ignored,
}

/// Classifies a frame given `parsed`, what its payload was read as (`None`
/// when it is not a structured chunk; only a data frame's is looked at).
pub fn classify(frame: &Frame, parsed: &Option<ChatChunk>) -> (r: FrameEvent)
    ensures
        frame is End ==> r is StreamEnd,
        frame is Other ==> r is Ignored,
        frame is Data ==> match parsed {
            Some(c) => r is Delta && opt_text(r->Delta_0.text) == chunk_text(*c)
                && r->Delta_0.finished == chunk_finished(*c),
            None => r is Ignored,
        },
{
    match frame {
        Frame::End => FrameEvent::StreamEnd,
        Frame::Other => FrameEvent::Ignored,
        Frame::Data(_) => match parsed {
            Some(c) => FrameEvent::Delta(delta_event(c)),
            None => FrameEvent::Ignored,
        },
    }
}

/// One choice of a complete (non-streamed) answer.
#[derive(Debug, PartialEq, Eq)]
pub struct MessageChoice {
    /// The message text, if present and textual.
    pub content: Option<String>,
}

/// A complete (non-streamed) answer.
#[derive(Debug, PartialEq, Eq)]
pub struct ChatResponse {
    pub choices: Vec<MessageChoice>,
}

/// The text of the first choice of a complete answer.
pub open spec fn response_text_of(resp: ChatResponse) -> Option<Seq<char>> {
    if resp.choices@.len() == 0 {
        None
    } else {
        opt_text(resp.choices@[0].content)
    }
}

/// The answer's text: the first choice's message content, or `MissingText`.
pub fn response_text(resp: &ChatResponse) -> (r: Result<String, AiError>)
    ensures
        match response_text_of(*resp) {
            Some(t) => r is Ok && r->Ok_0@ == t,
            None => r == Err::<String, AiError>(AiError::MissingText),
        },
{
    if resp.choices.len() == 0 {
        return Err(AiError::MissingText);
    }
    match &resp.choices[0].content {
        Some(s) => Ok(s.clone()),
        None => Err(AiError::MissingText),
    }
}

} // verus!
