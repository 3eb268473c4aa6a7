use rust_ai::decoder::{decode_chunks, StreamFrameDecoder};
use rust_ai::error::{check_status, AiError};
use rust_ai::frame::{classify_frame, Frame};
use rust_ai::payload::{
    classify, delta_event, response_text, ChatChunk, ChatResponse, ChoiceDelta, DeltaEvent,
    FrameEvent, MessageChoice,
};

/// Reads a data payload the way a caller would, tolerating unknown and
/// absent fields; `None` when it is not a structured chunk.
fn parse_chunk(payload: &str) -> Option<ChatChunk> {
    let v: serde_json::Value = serde_json::from_str(payload).ok()?;
    let items = v.get("choices")?.as_array()?;
    let mut choices = Vec::new();
    for c in items {
        let content = c
            .get("delta")
            .and_then(|d| d.get("content"))
            .and_then(|t| t.as_str())
            .map(|t| t.to_string());
        let finish_reason = c
            .get("finish_reason")
            .and_then(|t| t.as_str())
            .map(|t| t.to_string());
        choices.push(ChoiceDelta { content, finish_reason });
    }
    Some(ChatChunk { choices })
}

fn texts(frames: &[Frame]) -> Vec<String> {
    let mut out = Vec::new();
    for f in frames {
        if let Frame::Data(p) = f {
            if let Some(chunk) = parse_chunk(p) {
                if let Some(t) = delta_event(&chunk).text {
                    out.push(t);
                }
            }
        }
    }
    out
}

fn data(p: &str) -> Frame {
    Frame::Data(p.to_string())
}

#[test]
fn split_word_across_two_chunks() {
    let mut d = StreamFrameDecoder::new();
    let first = d.ingest(b"data: {\"choices\":[{\"delta\":{\"content\":\"Hel");
    assert!(first.is_empty());
    let second = d.ingest(b"lo\"}}]}\n\ndata: [DONE]\n\n");
    assert_eq!(
        second,
        vec![data("{\"choices\":[{\"delta\":{\"content\":\"Hello\"}}]}"), Frame::End]
    );
    assert_eq!(texts(&second), vec!["Hello".to_string()]);
    assert!(d.is_done());
    assert_eq!(d.finish(), Ok(()));
}

#[test]
fn three_frames_in_one_chunk_keep_their_order() {
    let mut d = StreamFrameDecoder::new();
    let frames = d.ingest(
        b"data: {\"choices\":[{\"delta\":{\"content\":\"a\"}}]}\n\n\
data: {\"choices\":[{\"delta\":{\"content\":\"b\"}}]}\n\n\
data: {\"choices\":[{\"delta\":{\"content\":\"c\"}}]}\n\n",
    );
    assert_eq!(frames.len(), 3);
    assert_eq!(texts(&frames), vec!["a".to_string(), "b".to_string(), "c".to_string()]);
    assert!(!d.is_done());
    let end = d.ingest(b"data: [DONE]\n\n");
    assert_eq!(end, vec![Frame::End]);
}

const STREAM: &[u8] = b"data: {\"choices\":[{\"delta\":{\"role\":\"assistant\"}}]}\n\n\
data: {\"choices\":[{\"delta\":{\"content\":\"Char\"}}]}\n\n\
: keep-alive\n\n\
data: {\"choices\":[{\"delta\":{\"content\":\"lemagne\"}}]}\n\n\
data: {\"choices\":[{\"delta\":{},\"finish_reason\":\"stop\"}]}\n\n\
data: [DONE]\n\n";

fn split_at_all(stream: &[u8], cuts: &[usize]) -> Vec<Vec<u8>> {
    let mut out = Vec::new();
    let mut prev = 0;
    for &c in cuts {
        out.push(stream[prev..c].to_vec());
        prev = c;
    }
    out.push(stream[prev..].to_vec());
    out
}

#[test]
fn every_chunking_gives_the_same_frames() {
    let whole = decode_chunks(&vec![STREAM.to_vec()]);
    assert_eq!(whole.1, Ok(()));
    assert_eq!(whole.0.len(), 6);
    for size in 1..STREAM.len() {
        let cuts: Vec<usize> = (1..)
            .map(|k| k * size)
            .take_while(|&c| c < STREAM.len())
            .collect();
        let split = decode_chunks(&split_at_all(STREAM, &cuts));
        assert_eq!(split.0, whole.0);
        assert_eq!(split.1, Ok(()));
    }
    // A cut between the two line breaks of a delimiter.
    let pos = STREAM.windows(2).position(|w| w == b"\n\n").unwrap();
    let split = decode_chunks(&split_at_all(STREAM, &[pos + 1]));
    assert_eq!(split.0, whole.0);
}

#[test]
fn reconstructed_text_is_the_same_for_any_chunking() {
    let whole = decode_chunks(&vec![STREAM.to_vec()]);
    assert_eq!(texts(&whole.0).concat(), "Charlemagne");
    for size in 1..STREAM.len() {
        let chunks: Vec<Vec<u8>> = STREAM.chunks(size).map(|c| c.to_vec()).collect();
        let split = decode_chunks(&chunks);
        assert_eq!(texts(&split.0).concat(), "Charlemagne");
    }
}

#[test]
fn frame_without_text_does_not_end_decoding() {
    let mut d = StreamFrameDecoder::new();
    let frames = d.ingest(
        b"data: {\"choices\":[{\"delta\":{\"role\":\"assistant\"}}]}\n\n\
data: {\"choices\":[{\"delta\":{\"content\":\"Hi\"}}]}\n\n",
    );
    assert_eq!(frames.len(), 2);
    let first = parse_chunk(match &frames[0] {
        Frame::Data(p) => p,
        _ => panic!("expected a data frame"),
    })
    .unwrap();
    assert_eq!(delta_event(&first), DeltaEvent { text: None, finished: false });
    assert!(!d.is_done());
    assert_eq!(texts(&frames), vec!["Hi".to_string()]);
}

#[test]
fn malformed_frame_is_skipped() {
    let mut d = StreamFrameDecoder::new();
    let frames = d.ingest(
        b"data: {not json\n\ndata: {\"choices\":[{\"delta\":{\"content\":\"ok\"}}]}\n\n",
    );
    assert_eq!(frames.len(), 2);
    assert_eq!(frames[0], data("{not json"));
    assert!(parse_chunk("{not json").is_none());
    assert_eq!(texts(&frames), vec!["ok".to_string()]);
    assert!(!d.is_done());
}

#[test]
fn nothing_after_the_sentinel_is_taken() {
    let mut d = StreamFrameDecoder::new();
    let frames = d.ingest(
        b"data: [DONE]\n\ndata: {\"choices\":[{\"delta\":{\"content\":\"late\"}}]}\n\n",
    );
    assert_eq!(frames, vec![Frame::End]);
    assert!(d.is_done());
    let more = d.ingest(b"data: {\"choices\":[{\"delta\":{\"content\":\"later\"}}]}\n\n");
    assert!(more.is_empty());
    assert_eq!(d.finish(), Ok(()));
}

#[test]
fn stream_ending_without_sentinel_is_abnormal() {
    let mut d = StreamFrameDecoder::new();
    let frames = d.ingest(b"data: {\"choices\":[{\"delta\":{\"content\":\"x\"}}]}\n\ndata: {");
    assert_eq!(frames.len(), 1);
    assert_eq!(d.finish(), Err(AiError::AbnormalTermination));
    let r = decode_chunks(&vec![]);
    assert!(r.0.is_empty());
    assert_eq!(r.1, Err(AiError::AbnormalTermination));
}

#[test]
fn empty_chunk_and_empty_frames() {
    let mut d = StreamFrameDecoder::new();
    assert!(d.ingest(b"").is_empty());
    let frames = d.ingest(b"\n\n\n\ndata: x\n\n");
    assert_eq!(frames, vec![Frame::Other, Frame::Other, data("x")]);
}

#[test]
fn three_line_breaks_leave_one_pending() {
    let mut d = StreamFrameDecoder::new();
    let frames = d.ingest(b"data: a\n\n\n");
    assert_eq!(frames, vec![data("a")]);
    // The pending line break joins the next one into a delimiter.
    let frames = d.ingest(b"\ndata: b\n\n");
    assert_eq!(frames, vec![Frame::Other, data("b")]);
}

#[test]
fn classification_of_frames() {
    assert_eq!(classify_frame(b"data: [DONE]"), Frame::End);
    assert_eq!(classify_frame(b"data: [DONE] "), data("[DONE] "));
    assert_eq!(classify_frame(b"data: "), data(""));
    assert_eq!(classify_frame(b"data:x"), Frame::Other);
    assert_eq!(classify_frame(b"event: ping"), Frame::Other);
    assert_eq!(classify_frame(b""), Frame::Other);
}

#[test]
fn invalid_bytes_are_replaced() {
    assert_eq!(classify_frame(b"data: a\xffb"), data("a\u{FFFD}b"));
    // A character cut across chunks is whole again once its frame is.
    let bytes = "data: caf\u{e9}\n\n".as_bytes();
    let cut = bytes.len() - 3;
    let r = decode_chunks(&vec![bytes[..cut].to_vec(), bytes[cut..].to_vec()]);
    assert_eq!(r.0, vec![data("caf\u{e9}")]);
}

#[test]
fn delta_event_takes_first_choice() {
    let chunk = ChatChunk {
        choices: vec![
            ChoiceDelta { content: Some("one".to_string()), finish_reason: Some("stop".to_string()) },
            ChoiceDelta { content: Some("two".to_string()), finish_reason: None },
        ],
    };
    assert_eq!(
        delta_event(&chunk),
        DeltaEvent { text: Some("one".to_string()), finished: true }
    );
    assert_eq!(
        delta_event(&ChatChunk { choices: vec![] }),
        DeltaEvent { text: None, finished: false }
    );
}

#[test]
fn response_text_of_complete_answer() {
    let resp = ChatResponse {
        choices: vec![MessageChoice { content: Some("Hello!".to_string()) }],
    };
    assert_eq!(response_text(&resp), Ok("Hello!".to_string()));
    assert_eq!(
        response_text(&ChatResponse { choices: vec![] }),
        Err(AiError::MissingText)
    );
    assert_eq!(
        response_text(&ChatResponse { choices: vec![MessageChoice { content: None }] }),
        Err(AiError::MissingText)
    );
}

#[test]
fn status_outside_success_range_is_kept() {
    assert_eq!(check_status(200, String::new()), Ok(()));
    assert_eq!(check_status(299, String::new()), Ok(()));
    assert_eq!(
        check_status(199, "b".to_string()),
        Err(AiError::Api { status: 199, body: "b".to_string() })
    );
    assert_eq!(
        check_status(401, "denied".to_string()),
        Err(AiError::Api { status: 401, body: "denied".to_string() })
    );
    assert_eq!(
        check_status(300, String::new()),
        Err(AiError::Api { status: 300, body: String::new() })
    );
}

#[test]
fn classify_by_frame_and_payload() {
    let chunk = || ChatChunk {
        choices: vec![ChoiceDelta { content: Some("x".to_string()), finish_reason: None }],
    };
    assert_eq!(classify(&Frame::End, &None), FrameEvent::StreamEnd);
    assert_eq!(classify(&Frame::Other, &Some(chunk())), FrameEvent::Ignored);
    assert_eq!(classify(&data("{not json"), &None), FrameEvent::Ignored);
    assert_eq!(
        classify(&data("{}"), &Some(chunk())),
        FrameEvent::Delta(DeltaEvent { text: Some("x".to_string()), finished: false })
    );
    let role_only = parse_chunk("{\"choices\":[{\"delta\":{\"role\":\"assistant\"}}]}");
    assert_eq!(
        classify(&data("{}"), &role_only),
        FrameEvent::Delta(DeltaEvent { text: None, finished: false })
    );
    let stop = parse_chunk("{\"choices\":[{\"delta\":{},\"finish_reason\":\"stop\"}]}");
    assert_eq!(
        classify(&data("{}"), &stop),
        FrameEvent::Delta(DeltaEvent { text: None, finished: true })
    );
}
