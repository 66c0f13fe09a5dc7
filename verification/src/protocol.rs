//! The WebSocket protocol: the events sent to clients and the plan for
//! answering a synthesis request.
use vstd::prelude::*;

use crate::bytes::same_text;
use crate::text::{normalize_and_chunk, string_views, text_chunks};

verus! {

/// An event sent by the engine to a client.
pub struct WsEvent {
    pub task_id: String,
    pub event: String,
    /// Sample format of the audio frames, when the event announces audio.
    pub format: Option<String>,
    pub sample_rate: Option<u32>,
    pub channels: Option<u32>,
}

/// The sample rate of the synthesised audio, in Hz.
pub open spec fn sample_rate() -> u32 {
    22050
}

/// The event that opens the audio of a task: 32-bit float little-endian
/// PCM, mono, at the model's sample rate.
pub open spec fn is_audio_start(e: WsEvent, task_id: Seq<char>) -> bool {
    &&& e.task_id@ == task_id
    &&& e.event@ == "audio_start"@
    &&& e.format matches Some(f) && f@ == "pcm_f32le"@
    &&& e.sample_rate == Some(sample_rate())
    &&& e.channels == Some(1u32)
}

/// The event that closes the audio of a task.
pub open spec fn is_audio_end(e: WsEvent, task_id: Seq<char>) -> bool {
    &&& e.task_id@ == task_id
    &&& e.event@ == "audio_end"@
    &&& e.format is None
    &&& e.sample_rate is None
    &&& e.channels is None
}

/// The event that opens the audio of task `task_id`.
pub fn audio_start_event(task_id: &str) -> (e: WsEvent)
    ensures
        is_audio_start(e, task_id@),
{
    WsEvent {
        task_id: task_id.to_owned(),
        event: "audio_start".to_owned(),
        format: Some("pcm_f32le".to_owned()),
        sample_rate: Some(22050),
        channels: Some(1),
    }
}

/// The event that closes the audio of task `task_id`.
pub fn audio_end_event(task_id: &str) -> (e: WsEvent)
    ensures
        is_audio_end(e, task_id@),
{
    WsEvent {
        task_id: task_id.to_owned(),
        event: "audio_end".to_owned(),
        format: None,
        sample_rate: None,
        channels: None,
    }
}

/// How to answer a synthesis request: send `start`, then the audio of
/// each chunk in order, then `end`.
pub struct TtsJob {
    pub start: WsEvent,
    pub chunks: Vec<String>,
    pub end: WsEvent,
}

/// The answer to a request with the given task id, action and text: a
/// job for the action `tts`, whose chunks are the text's sentences, and
/// nothing for any other action.
pub fn plan_request(task_id: &str, action: &str, text: &str) -> (job: Option<TtsJob>)
    ensures
        job is Some <==> action@ == "tts"@,
        job matches Some(j) ==> {
            &&& is_audio_start(j.start, task_id@)
            &&& string_views(j.chunks@) == text_chunks(text@)
            &&& is_audio_end(j.end, task_id@)
        },
{
    if !same_text(action, "tts") {
        return None;
    }
    Some(
        TtsJob {
            start: audio_start_event(task_id),
            chunks: normalize_and_chunk(text),
            end: audio_end_event(task_id),
        },
    )
}

} // verus!
