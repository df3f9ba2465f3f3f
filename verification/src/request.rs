use vstd::prelude::*;

use crate::json::{
    json_elem, json_field, json_get, lemma_member_lookup_push, member_lookup, json_str, json_text, text_of_json, lemma_items_view, lemma_members_view, items_view, members_view, Json, JsonNumber,
    JsonValue, Num,
};
use crate::message::{lemma_message_json_members, message_json, Config, Message};
use crate::tools::{tool_json, ToolDefinition};

verus! {

broadcast use vstd::std_specs::vec::group_vec_axioms;

/// The most tokens a reply may use.
pub const MAX_TOKENS: u64 = 10000;

/// The body of a chat-completions request: the model, the token limit,
/// whether to stream, the history and the tools.
pub open spec fn request_json(
    config: Config,
    tools: Seq<ToolDefinition>,
    history: Seq<Message>,
) -> Json {
    Json::Object(
        seq![
            ("model"@, Json::Str(config.model_name@)),
            ("max_tokens"@, Json::Number(Num::PosInt(MAX_TOKENS))),
            ("stream"@, Json::Bool(config.stream)),
            (
                "messages"@,
                Json::Array(
                    history.map_values(|m: Message| message_json(m@, config.preserve_thinking)),
                ),
            ),
            ("tools"@, Json::Array(tools.map_values(|t: ToolDefinition| tool_json(t)))),
        ],
    )
}

/// Looking a name up in the five members of a request body.
proof fn lemma_request_key(
    m0: (Seq<char>, Json),
    m1: (Seq<char>, Json),
    m2: (Seq<char>, Json),
    m3: (Seq<char>, Json),
    m4: (Seq<char>, Json),
    key: Seq<char>,
)
    ensures
        member_lookup(seq![m0, m1, m2, m3, m4], key) == if m4.0 == key {
            Some(m4.1)
        } else if m3.0 == key {
            Some(m3.1)
        } else if m2.0 == key {
            Some(m2.1)
        } else if m1.0 == key {
            Some(m1.1)
        } else if m0.0 == key {
            Some(m0.1)
        } else {
            None::<Json>
        },
{
    let e = Seq::<(Seq<char>, Json)>::empty();
    assert((m0.0, m0.1) == m0 && (m1.0, m1.1) == m1 && (m2.0, m2.1) == m2 && (m3.0, m3.1) == m3
        && (m4.0, m4.1) == m4);
    assert(seq![m0] =~= e.push(m0));
    assert(seq![m0, m1] =~= seq![m0].push(m1));
    assert(seq![m0, m1, m2] =~= seq![m0, m1].push(m2));
    assert(seq![m0, m1, m2, m3] =~= seq![m0, m1, m2].push(m3));
    assert(seq![m0, m1, m2, m3, m4] =~= seq![m0, m1, m2, m3].push(m4));
    lemma_member_lookup_push(e, m0.0, m0.1, key);
    lemma_member_lookup_push(seq![m0], m1.0, m1.1, key);
    lemma_member_lookup_push(seq![m0, m1], m2.0, m2.1, key);
    lemma_member_lookup_push(seq![m0, m1, m2], m3.0, m3.1, key);
    lemma_member_lookup_push(seq![m0, m1, m2, m3], m4.0, m4.1, key);
}

/// What a request body holds: the model, the token limit and whether to
/// stream, as the configuration says; one entry in `messages` per message
/// of the history, in order, each the message's JSON form under the
/// configuration's choice whether to keep reasoning (so a kept reasoning
/// stands in its entry); one entry in `tools` per tool, in order.
pub proof fn lemma_request_members(
    config: Config,
    tools: Seq<ToolDefinition>,
    history: Seq<Message>,
)
    ensures
        json_get(request_json(config, tools, history), "model"@) == Some(
            Json::Str(config.model_name@),
        ),
        json_get(request_json(config, tools, history), "max_tokens"@) == Some(
            Json::Number(Num::PosInt(MAX_TOKENS)),
        ),
        json_get(request_json(config, tools, history), "stream"@) == Some(Json::Bool(config.stream)),
        json_get(request_json(config, tools, history), "messages"@) matches Some(Json::Array(ms))
            && ms.len() == history.len() && forall|k: int|
            0 <= k < ms.len() ==> #[trigger] ms[k] == message_json(
                history[k]@,
                config.preserve_thinking,
            ),
        forall|k: int|
            0 <= k < history.len() ==> json_get(
                #[trigger] json_elem(json_field(request_json(config, tools, history), "messages"@), k),
                "reasoning_content"@,
            ) == (if config.preserve_thinking && history[k]@.reasoning_content is Some {
                Some(Json::Str(history[k]@.reasoning_content->0))
            } else {
                None::<Json>
            }),
        json_get(request_json(config, tools, history), "tools"@) matches Some(Json::Array(ts))
            && ts.len() == tools.len() && forall|k: int|
            0 <= k < ts.len() ==> #[trigger] ts[k] == tool_json(tools[k]),
{
    reveal_strlit("model");
    reveal_strlit("max_tokens");
    reveal_strlit("stream");
    reveal_strlit("messages");
    reveal_strlit("tools");
    assert("model"@.len() == 5);
    assert("max_tokens"@.len() == 10);
    assert("stream"@.len() == 6);
    assert("messages"@.len() == 8);
    assert("tools"@.len() == 5);
    assert("model"@ != "tools"@) by {
        assert("model"@[0] != "tools"@[0]);
    }
    let ms = history.map_values(|m: Message| message_json(m@, config.preserve_thinking));
    let ts = tools.map_values(|t: ToolDefinition| tool_json(t));
    let m0 = ("model"@, Json::Str(config.model_name@));
    let m1 = ("max_tokens"@, Json::Number(Num::PosInt(MAX_TOKENS)));
    let m2 = ("stream"@, Json::Bool(config.stream));
    let m3 = ("messages"@, Json::Array(ms));
    let m4 = ("tools"@, Json::Array(ts));
    assert(request_json(config, tools, history) == Json::Object(seq![m0, m1, m2, m3, m4]));
    lemma_request_key(m0, m1, m2, m3, m4, "model"@);
    lemma_request_key(m0, m1, m2, m3, m4, "max_tokens"@);
    lemma_request_key(m0, m1, m2, m3, m4, "stream"@);
    lemma_request_key(m0, m1, m2, m3, m4, "messages"@);
    lemma_request_key(m0, m1, m2, m3, m4, "tools"@);
    assert forall|k: int| 0 <= k < history.len() implies json_get(
        #[trigger] json_elem(json_field(request_json(config, tools, history), "messages"@), k),
        "reasoning_content"@,
    ) == (if config.preserve_thinking && history[k]@.reasoning_content is Some {
        Some(Json::Str(history[k]@.reasoning_content->0))
    } else {
        None::<Json>
    }) by {
        assert(json_elem(json_field(request_json(config, tools, history), "messages"@), k)
            == ms[k]);
        lemma_message_json_members(history[k]@, config.preserve_thinking);
    }
}

/// Builds the body of a chat-completions request.
pub fn build_request(config: &Config, tools: &[ToolDefinition], history: &[Message]) -> (r:
    JsonValue)
    ensures
        r@ == request_json(*config, tools@, history@),
{
    let mut messages: Vec<JsonValue> = Vec::new();
    let mut i: usize = 0;
    while i < history.len()
        invariant
            i <= history@.len(),
            messages@.len() == i,
            forall|k: int|
                0 <= k < i ==> #[trigger] messages@[k]@ == message_json(
                    history@[k]@,
                    config.preserve_thinking,
                ),
        decreases history@.len() - i,
    {
        messages.push(history[i].to_json(config));
        i = i + 1;
    }
    let mut tool_values: Vec<JsonValue> = Vec::new();
    let mut j: usize = 0;
    while j < tools.len()
        invariant
            j <= tools@.len(),
            tool_values@.len() == j,
            forall|k: int| 0 <= k < j ==> #[trigger] tool_values@[k]@ == tool_json(tools@[k]),
        decreases tools@.len() - j,
    {
        tool_values.push(tools[j].to_json());
        j = j + 1;
    }
    let mut members: Vec<(String, JsonValue)> = Vec::new();
    members.push(("model".to_owned(), json_str(config.model_name.as_str())));
    members.push(("max_tokens".to_owned(), JsonValue::Number(JsonNumber::PosInt(MAX_TOKENS))));
    members.push(("stream".to_owned(), JsonValue::Bool(config.stream)));
    members.push(("messages".to_owned(), JsonValue::Array(messages)));
    members.push(("tools".to_owned(), JsonValue::Array(tool_values)));
    let r = JsonValue::Object(members);
    proof {
        lemma_items_view(messages@);
        lemma_items_view(tool_values@);
        lemma_members_view(members@);
        assert(items_view(messages@) =~= history@.map_values(
            |m: Message| message_json(m@, config.preserve_thinking),
        ));
        assert(items_view(tool_values@) =~= tools@.map_values(|t: ToolDefinition| tool_json(t)));
        assert(members_view(members@) =~= seq![
            ("model"@, Json::Str(config.model_name@)),
            ("max_tokens"@, Json::Number(Num::PosInt(MAX_TOKENS))),
            ("stream"@, Json::Bool(config.stream)),
            ("messages"@, Json::Array(items_view(messages@))),
            ("tools"@, Json::Array(items_view(tool_values@))),
        ]);
    }
    r
}

/// The text of the body of a chat-completions request.
pub fn request_body(config: &Config, tools: &[ToolDefinition], history: &[Message]) -> (r: String)
    ensures
        r@ == text_of_json(request_json(*config, tools@, history@)),
{
    json_text(&build_request(config, tools, history))
}

} // verus!
