use chat_agent::json::{JsonNumber, JsonValue};
use chat_agent::message::{
    chunk_fits, completion_of_body, is_shell_call, stream_chunk, record_turn, stream_line, stream_payload, tool_delta_fits, Config,
    Message, StreamLine, StreamStep, ToolCall,
};

fn s(text: &str) -> JsonValue {
    JsonValue::String(text.to_string())
}

fn n(v: u64) -> JsonValue {
    JsonValue::Number(JsonNumber::PosInt(v))
}

fn obj(members: Vec<(&str, JsonValue)>) -> JsonValue {
    JsonValue::Object(members.into_iter().map(|(k, v)| (k.to_string(), v)).collect())
}

fn keys(v: &JsonValue) -> Vec<String> {
    match v {
        JsonValue::Object(members) => members.iter().map(|(k, _)| k.clone()).collect(),
        _ => panic!("not an object"),
    }
}

fn text(v: Option<&JsonValue>) -> Option<&str> {
    v.and_then(|x| x.as_str())
}

fn config(preserve_thinking: bool) -> Config {
    Config {
        url: "http://localhost".to_string(),
        model_name: "m".to_string(),
        api_key: "k".to_string(),
        stream: true,
        preserve_thinking,
        truncate_long_tool_results_after_turn_finished: false,
    }
}

fn call(name: &str, id: &str, args: &str) -> ToolCall {
    ToolCall {
        tool_name: name.to_string(),
        id: id.to_string(),
        arguments_string: args.to_string(),
    }
}

fn chunk(delta: JsonValue) -> JsonValue {
    obj(vec![("choices", JsonValue::Array(vec![obj(vec![("delta", delta)])]))])
}

#[test]
fn tool_call_json_form() {
    let j = call("Shell", "c1", "{\"command\":\"ls\"}").to_json();
    assert_eq!(keys(&j), vec!["id", "type", "function"]);
    assert_eq!(text(j.get("id")), Some("c1"));
    assert_eq!(text(j.get("type")), Some("function"));
    let f = j.get("function").unwrap();
    assert_eq!(text(f.get("name")), Some("Shell"));
    assert_eq!(text(f.get("arguments")), Some("{\"command\":\"ls\"}"));
}

#[test]
fn message_json_keeps_reasoning_only_when_asked() {
    let mut m = Message::user("hi".to_string());
    m.reasoning_content = Some("think".to_string());
    let with = m.to_json(&config(true));
    assert_eq!(keys(&with), vec!["role", "content", "reasoning_content"]);
    assert_eq!(text(with.get("reasoning_content")), Some("think"));
    let without = m.to_json(&config(false));
    assert_eq!(keys(&without), vec!["role", "content"]);
    assert_eq!(text(without.get("role")), Some("user"));
    assert_eq!(text(without.get("content")), Some("hi"));
}

#[test]
fn message_json_lists_tool_calls() {
    let mut m = Message::default();
    m.role = "assistant".to_string();
    m.tool_calls.push(call("Shell", "a", "{}"));
    m.tool_calls.push(call("Other", "b", "[]"));
    let j = m.to_json(&config(true));
    assert_eq!(keys(&j), vec!["role", "content", "tool_calls"]);
    match j.get("tool_calls").unwrap() {
        JsonValue::Array(items) => {
            assert_eq!(items.len(), 2);
            assert_eq!(text(items[1].get("id")), Some("b"));
        }
        _ => panic!("tool_calls is no array"),
    }
}

#[test]
fn content_deltas_append() {
    let mut m = Message::default();
    m.apply_content_delta("Hel");
    m.apply_content_delta("lo");
    assert_eq!(m.content, "Hello");
}

#[test]
fn first_reasoning_delta_is_stored_twice() {
    let mut m = Message::default();
    m.apply_reasoning_delta("ab");
    assert_eq!(m.reasoning_content.as_deref(), Some("abab"));
    m.apply_reasoning_delta("c");
    assert_eq!(m.reasoning_content.as_deref(), Some("ababc"));
}

#[test]
fn tool_delta_pads_and_accumulates() {
    let mut m = Message::default();
    let d1 = obj(vec![
        ("index", n(1)),
        ("id", s("call_")),
        ("function", obj(vec![("name", s("Sh")), ("arguments", s("{\"co"))])),
    ]);
    m.apply_tool_delta(&d1);
    assert_eq!(m.tool_calls.len(), 2);
    assert_eq!(m.tool_calls[0].tool_name, "");
    let d2 = obj(vec![
        ("index", n(1)),
        ("id", s("7")),
        ("function", obj(vec![("name", s("ell")), ("arguments", s("mmand\":1}"))])),
    ]);
    m.apply_tool_delta(&d2);
    assert_eq!(m.tool_calls.len(), 2);
    assert_eq!(m.tool_calls[1].tool_name, "Shell");
    assert_eq!(m.tool_calls[1].id, "call_7");
    assert_eq!(m.tool_calls[1].arguments_string, "{\"command\":1}");
}

#[test]
fn tool_delta_without_index_changes_nothing() {
    let mut m = Message::default();
    m.apply_tool_delta(&obj(vec![("id", s("x"))]));
    assert!(m.tool_calls.is_empty());
}

#[test]
fn tool_delta_ignores_non_string_pieces() {
    let mut m = Message::default();
    m.apply_tool_delta(&obj(vec![("index", n(0)), ("id", n(5)), ("function", s("x"))]));
    assert_eq!(m.tool_calls.len(), 1);
    assert_eq!(m.tool_calls[0].id, "");
}

#[test]
fn tool_delta_index_check() {
    assert!(tool_delta_fits(&obj(vec![("index", n(3))])));
    assert!(tool_delta_fits(&obj(vec![])));
    assert!(!tool_delta_fits(&obj(vec![("index", s("3"))])));
    assert!(!tool_delta_fits(&obj(vec![("index", n(u64::MAX))])));
}

#[test]
fn completion_reply_message() {
    let reply = obj(vec![(
        "choices",
        JsonValue::Array(vec![obj(vec![(
            "message",
            obj(vec![("content", s("answer")), ("reasoning_content", s("why"))]),
        )])]),
    )]);
    let m = Message::from_completion(&reply);
    assert_eq!(m.role, "assistant");
    assert_eq!(m.content, "answer");
    assert_eq!(m.reasoning_content.as_deref(), Some("why"));
    assert!(m.tool_call_id.is_none());
    assert!(m.tool_calls.is_empty());
    let empty = Message::from_completion(&JsonValue::Null);
    assert_eq!(empty.content, "");
    assert!(empty.reasoning_content.is_none());
}

#[test]
fn chunk_finish_reasons_stop_the_stream() {
    let stop = obj(vec![(
        "choices",
        JsonValue::Array(vec![obj(vec![
            ("finish_reason", s("stop")),
            ("delta", obj(vec![("content", s("ignored"))])),
        ])]),
    )]);
    let mut m = Message::default();
    assert!(matches!(m.apply_chunk(&stop), StreamStep::Finished));
    assert_eq!(m.content, "");
    let tools = obj(vec![(
        "choices",
        JsonValue::Array(vec![obj(vec![("finish_reason", s("tool_calls"))])]),
    )]);
    assert!(matches!(m.apply_chunk(&tools), StreamStep::Finished));
    let other = obj(vec![(
        "choices",
        JsonValue::Array(vec![obj(vec![
            ("finish_reason", s("length")),
            ("delta", obj(vec![("content", s("x"))])),
        ])]),
    )]);
    assert!(matches!(m.apply_chunk(&other), StreamStep::Continue(_)));
    assert_eq!(m.content, "x");
}

#[test]
fn chunk_merges_delta_and_echoes() {
    let mut m = Message::default();
    let c = chunk(obj(vec![
        ("role", s("assistant")),
        ("reasoning_content", s("r")),
        ("content", s("c")),
        (
            "tool_calls",
            JsonValue::Array(vec![obj(vec![
                ("index", n(0)),
                ("function", obj(vec![("name", s("Shell"))])),
            ])]),
        ),
    ]));
    match m.apply_chunk(&c) {
        StreamStep::Continue(echo) => assert_eq!(echo, "rc"),
        StreamStep::Finished => panic!("finished early"),
    }
    assert_eq!(m.role, "assistant");
    assert_eq!(m.reasoning_content.as_deref(), Some("rr"));
    assert_eq!(m.content, "c");
    assert_eq!(m.tool_calls[0].tool_name, "Shell");
}

#[test]
fn null_reasoning_still_starts_the_reasoning() {
    let mut m = Message::default();
    let c = chunk(obj(vec![("reasoning_content", JsonValue::Null)]));
    match m.apply_chunk(&c) {
        StreamStep::Continue(echo) => assert_eq!(echo, ""),
        StreamStep::Finished => panic!("finished early"),
    }
    assert_eq!(m.reasoning_content.as_deref(), Some(""));
}

#[test]
fn chunk_check_spots_bad_indexes() {
    let bad = chunk(obj(vec![(
        "tool_calls",
        JsonValue::Array(vec![obj(vec![("index", s("0"))])]),
    )]));
    assert!(!chunk_fits(&bad));
    let good = chunk(obj(vec![(
        "tool_calls",
        JsonValue::Array(vec![obj(vec![("index", n(0))])]),
    )]));
    assert!(chunk_fits(&good));
}

#[test]
fn payload_skips_the_prefix() {
    assert_eq!(stream_payload("data: {\"a\":1}"), Some(" {\"a\":1}"));
    assert_eq!(stream_payload("data"), None);
    assert_eq!(stream_payload("12345"), Some(""));
}

#[test]
fn shell_calls_are_recognised() {
    assert!(is_shell_call(&call("Shell", "", "")));
    assert!(!is_shell_call(&call("shell", "", "")));
}

#[test]
fn turns_are_recorded_in_order() {
    let mut thread = vec![Message::user("q".to_string())];
    let mut reply = Message::default();
    reply.tool_calls.push(call("Shell", "id1", "{}"));
    let result = Message::tool_result("id1".to_string(), "out".to_string());
    assert!(record_turn(&mut thread, reply, vec![result]));
    assert_eq!(thread.len(), 3);
    assert_eq!(thread[2].role, "tool");
    assert_eq!(thread[2].tool_call_id.as_deref(), Some("id1"));
    assert_eq!(thread[2].content, "out");
    assert!(!record_turn(&mut thread, Message::default(), vec![]));
    assert_eq!(thread.len(), 4);
}

#[test]
fn streamed_content_is_the_pieces_in_order() {
    let mut m = Message::default();
    m.content = "> ".to_string();
    for piece in ["Hel", "lo", ", world"] {
        let c = chunk(obj(vec![("content", s(piece))]));
        assert!(matches!(m.apply_chunk(&c), StreamStep::Continue(_)));
        let no_content = chunk(obj(vec![("role", s(""))]));
        assert!(matches!(m.apply_chunk(&no_content), StreamStep::Continue(_)));
    }
    assert_eq!(m.content, "> Hello, world");
}

#[test]
fn stream_lines_are_classified() {
    assert!(matches!(stream_line(b"data: {}".to_vec()), StreamLine::Payload(p) if p == " {}"));
    assert!(matches!(stream_line(b"data".to_vec()), StreamLine::Skip));
    assert!(matches!(stream_line(b"".to_vec()), StreamLine::Skip));
    assert!(matches!(stream_line(b"data: \xff".to_vec()), StreamLine::Stop));
}

#[test]
fn replies_from_text() {
    let m = completion_of_body(r#"{"choices":[{"message":{"content":"ok"}}]}"#).unwrap();
    assert_eq!(m.content, "ok");
    assert!(completion_of_body("<html>").is_none());
    let chunk = stream_chunk(r#" {"choices":[{"delta":{"content":"x"}}]}"#).unwrap();
    let mut msg = Message::default();
    assert!(matches!(msg.apply_chunk(&chunk), StreamStep::Continue(_)));
    assert_eq!(msg.content, "x");
    assert!(stream_chunk(" [DONE]").is_none());
}
