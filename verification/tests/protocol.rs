use opentako::protocol::{audio_end_event, audio_start_event, plan_request};

#[test]
fn tts_request_is_planned() {
    let job = plan_request("req_1", "tts", "Hi there. Bye").unwrap();
    assert_eq!(job.start.task_id, "req_1");
    assert_eq!(job.start.event, "audio_start");
    assert_eq!(job.start.format.as_deref(), Some("pcm_f32le"));
    assert_eq!(job.start.sample_rate, Some(22050));
    assert_eq!(job.start.channels, Some(1));
    assert_eq!(job.chunks, vec!["Hi there.", "Bye."]);
    assert_eq!(job.end.task_id, "req_1");
    assert_eq!(job.end.event, "audio_end");
    assert_eq!(job.end.format, None);
    assert_eq!(job.end.sample_rate, None);
    assert_eq!(job.end.channels, None);
}

#[test]
fn other_actions_are_ignored() {
    assert!(plan_request("req_2", "stop", "Hi.").is_none());
    assert!(plan_request("req_2", "TTS", "Hi.").is_none());
    assert!(plan_request("req_2", "", "Hi.").is_none());
}

#[test]
fn empty_text_plans_no_chunks() {
    let job = plan_request("t", "tts", "").unwrap();
    assert!(job.chunks.is_empty());
}

#[test]
fn events_carry_the_task_id() {
    assert_eq!(audio_start_event("x").task_id, "x");
    assert_eq!(audio_end_event("y").event, "audio_end");
}
