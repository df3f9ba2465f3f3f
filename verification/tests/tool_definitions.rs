use chat_agent::json::{json_text, parse_json, JsonNumber, JsonValue};
use chat_agent::request::{build_request, request_body};
use chat_agent::message::{Config, Message};
use chat_agent::tools::{
    edit_args, edit_file_args, find_args, find_in_file_args, find_tool, read_lines_args, shell_args, get_i64, get_string, line_range_args, shell_command,
    tool_definitions, tool_error_text, tool_not_found_text, ToolDefinition, ToolParameter,
};

fn s(text: &str) -> JsonValue {
    JsonValue::String(text.to_string())
}

fn num(v: i64) -> JsonValue {
    if v >= 0 {
        JsonValue::Number(JsonNumber::PosInt(v as u64))
    } else {
        JsonValue::Number(JsonNumber::NegInt(v))
    }
}

fn obj(members: Vec<(&str, JsonValue)>) -> JsonValue {
    JsonValue::Object(members.into_iter().map(|(k, v)| (k.to_string(), v)).collect())
}

fn text(v: Option<&JsonValue>) -> Option<&str> {
    v.and_then(|x| x.as_str())
}

#[test]
fn parameter_builders() {
    let p = ToolParameter::string("file");
    assert_eq!(p.name, "file");
    assert_eq!(p.ptype, "string");
    assert!(p.description.is_none());
    assert!(p.is_required);
    let q = ToolParameter::number("max").set_required(false).add_description("limit");
    assert_eq!(q.ptype, "number");
    assert!(!q.is_required);
    assert_eq!(q.description, Some("limit"));
}

#[test]
fn tool_json_schema() {
    let t = ToolDefinition {
        name: "T",
        description: Some("does"),
        parameters: vec![
            ToolParameter::string("a").add_description("first"),
            ToolParameter::number("b").set_required(false),
            ToolParameter::string("c"),
        ],
    };
    let j = t.to_json();
    assert_eq!(text(j.get("type")), Some("function"));
    let f = j.get("function").unwrap();
    assert_eq!(text(f.get("name")), Some("T"));
    assert_eq!(text(f.get("description")), Some("does"));
    let params = f.get("parameters").unwrap();
    assert_eq!(text(params.get("type")), Some("object"));
    let props = params.get("properties").unwrap();
    assert_eq!(text(props.get("a").unwrap().get("description")), Some("first"));
    assert_eq!(text(props.get("b").unwrap().get("type")), Some("number"));
    assert!(props.get("b").unwrap().get("description").is_none());
    match params.get("required").unwrap() {
        JsonValue::Array(names) => {
            let names: Vec<&str> = names.iter().map(|n| n.as_str().unwrap()).collect();
            assert_eq!(names, vec!["a", "c"]);
        }
        _ => panic!("required is no array"),
    }
}

#[test]
fn tool_without_description() {
    let j = ToolDefinition::default().to_json();
    let f = j.get("function").unwrap();
    assert!(f.get("description").is_none());
    assert_eq!(text(f.get("name")), Some(""));
}

#[test]
fn the_offered_tools() {
    let tools = tool_definitions();
    let names: Vec<&str> = tools.iter().map(|t| t.name).collect();
    assert_eq!(names, vec!["Shell", "FindInFile", "ReadLines", "EditFile"]);
    assert_eq!(tools[3].parameters.len(), 4);
    assert_eq!(tools[3].parameters[3].name, "content");
    assert_eq!(tools[2].parameters[1].ptype, "number");
}

#[test]
fn tools_are_found_by_name() {
    let tools = tool_definitions();
    assert_eq!(find_tool("ReadLines", &tools), Some(2));
    assert_eq!(find_tool("Nope", &tools), None);
}

#[test]
fn tool_answer_texts() {
    assert_eq!(tool_error_text("boom"), "Tool error: boom");
    assert_eq!(tool_not_found_text("X"), "Tool \"X\" not found!");
}

#[test]
fn argument_errors() {
    let args = obj(vec![("file", s("f")), ("n", s("1")), ("m", num(-4))]);
    assert_eq!(get_string(&args, "file"), Ok("f"));
    assert_eq!(get_string(&args, "x"), Err("Missing x argument".to_string()));
    assert_eq!(get_string(&args, "m"), Err("m argument is not string".to_string()));
    assert_eq!(get_i64(&args, "m"), Ok(-4));
    assert_eq!(get_i64(&args, "n"), Err("n argument is not string".to_string()));
}

#[test]
fn shell_arguments() {
    assert_eq!(shell_command(&obj(vec![("command", s("ls"))])), Ok("ls".to_string()));
    assert_eq!(shell_command(&obj(vec![])), Err("Couldn't parse JSON".to_string()));
    assert_eq!(
        shell_command(&obj(vec![("command", num(1))])),
        Err("Command argument is not string".to_string())
    );
}

#[test]
fn file_tool_arguments() {
    let a = find_args(&obj(vec![("file", s("f")), ("search_string", s("x y"))])).ok().unwrap();
    assert_eq!(a.file, "f");
    assert_eq!(a.search_string, "x y");
    assert_eq!(
        find_args(&obj(vec![("file", s("f"))])).err(),
        Some("Missing search_string argument".to_string())
    );
    let r = line_range_args(&obj(vec![
        ("file", s("f")),
        ("line_from", num(2)),
        ("line_to", num(5)),
    ]))
    .ok()
    .unwrap();
    assert_eq!((r.line_from, r.line_to), (2, 5));
    assert_eq!(
        line_range_args(&obj(vec![("line_from", num(2))])).err(),
        Some("Missing file argument".to_string())
    );
    let e = edit_args(&obj(vec![
        ("file", s("f")),
        ("line_from", num(0)),
        ("line_to", num(1)),
        ("content", s("new")),
    ]))
    .ok()
    .unwrap();
    assert_eq!(e.content, "new");
    assert_eq!(
        edit_args(&obj(vec![("file", s("f")), ("line_from", num(0)), ("line_to", num(1))])).err(),
        Some("Missing content argument".to_string())
    );
}

#[test]
fn request_body_json() {
    let config = Config {
        url: "u".to_string(),
        model_name: "model-x".to_string(),
        api_key: "k".to_string(),
        stream: false,
        preserve_thinking: false,
        truncate_long_tool_results_after_turn_finished: false,
    };
    let history = vec![Message::user("a".to_string()), Message::user("b".to_string())];
    let tools = tool_definitions();
    let r = build_request(&config, &tools, &history);
    assert_eq!(text(r.get("model")), Some("model-x"));
    assert_eq!(r.get("max_tokens").unwrap().as_u64(), Some(10000));
    assert!(matches!(r.get("stream"), Some(JsonValue::Bool(false))));
    match r.get("messages").unwrap() {
        JsonValue::Array(items) => {
            assert_eq!(items.len(), 2);
            assert_eq!(text(items[1].get("content")), Some("b"));
        }
        _ => panic!("messages is no array"),
    }
    match r.get("tools").unwrap() {
        JsonValue::Array(items) => assert_eq!(items.len(), 4),
        _ => panic!("tools is no array"),
    }
}

#[test]
fn tool_arguments_from_text() {
    assert_eq!(shell_args(r#"{"command":"ls -l"}"#), Ok("ls -l".to_string()));
    assert_eq!(shell_args("{not json"), Err("Couldn't parse JSON".to_string()));
    assert_eq!(shell_args("{}"), Err("Couldn't parse JSON".to_string()));
    assert_eq!(shell_args(r#"{"command":3}"#), Err("Command argument is not string".to_string()));
    let f = find_in_file_args(r#"{"file":"a.rs","search_string":"fn x"}"#).ok().unwrap();
    assert_eq!((f.file.as_str(), f.search_string.as_str()), ("a.rs", "fn x"));
    let r = read_lines_args(r#"{"file":"a","line_from":-2,"line_to":7}"#).ok().unwrap();
    assert_eq!((r.line_from, r.line_to), (-2, 7));
    assert_eq!(
        read_lines_args(r#"{"file":"a","line_from":1.5,"line_to":7}"#).err(),
        Some("line_from argument is not string".to_string())
    );
    let e = edit_file_args(r#"{"file":"a","line_from":0,"line_to":0,"content":"x"}"#).ok().unwrap();
    assert_eq!(e.content, "x");
    assert_eq!(edit_file_args("[1,2]").err(), Some("Missing file argument".to_string()));
}

#[test]
fn json_text_round_trip() {
    let v = parse_json(r#"{"b":[1,-2,1.5,"s",null,true],"a":{}}"#).unwrap();
    assert_eq!(json_text(&v), r#"{"a":{},"b":[1,-2,1.5,"s",null,true]}"#);
    assert!(parse_json("nope").is_none());
}

#[test]
fn request_text() {
    let config = Config {
        url: "u".to_string(),
        model_name: "m".to_string(),
        api_key: "k".to_string(),
        stream: true,
        preserve_thinking: false,
        truncate_long_tool_results_after_turn_finished: false,
    };
    let body = request_body(&config, &[], &[Message::user("hi".to_string())]);
    assert_eq!(
        body,
        r#"{"max_tokens":10000,"messages":[{"content":"hi","role":"user"}],"model":"m","stream":true,"tools":[]}"#
    );
}
