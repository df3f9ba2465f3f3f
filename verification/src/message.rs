use vstd::prelude::*;

use vstd::utf8::{decode_utf8, decode_utf8_encode_utf8, encode_utf8, is_char_boundary, valid_utf8};

use crate::text::utf8_string;
use crate::json::{
    json_of_text, parse_json,
    elem_of, items_view, json_as_str, json_as_u64, json_elem, json_field, json_get, json_str,
    json_str_or_empty, lemma_items_view, lemma_member_lookup_append, lemma_member_lookup_one, lemma_member_lookup_three, lemma_member_lookup_two, lemma_members_view, member_lookup, member_of, members_view, str_eq, Json,
    JsonValue,
};

verus! {

broadcast use vstd::std_specs::vec::group_vec_axioms;

/// Where to send requests and how to talk to the model.
#[derive(Debug)]
pub struct Config {
    pub url: String,
    pub model_name: String,
    pub api_key: String,
    pub stream: bool,
    pub preserve_thinking: bool,
    pub truncate_long_tool_results_after_turn_finished: bool,
}

/// A call of a tool that the model asked for; the arguments arrive as JSON text.
#[derive(Debug)]
pub struct ToolCall {
    pub tool_name: String,
    pub id: String,
    pub arguments_string: String,
}

/// The text of a tool call.
pub struct ToolCallView {
    pub tool_name: Seq<char>,
    pub id: Seq<char>,
    pub arguments: Seq<char>,
}

impl View for ToolCall {
    type V = ToolCallView;

    open spec fn view(&self) -> ToolCallView {
        ToolCallView { tool_name: self.tool_name@, id: self.id@, arguments: self.arguments_string@ }
    }
}

/// A tool call with no text yet.
pub open spec fn empty_call() -> ToolCallView {
    ToolCallView { tool_name: Seq::empty(), id: Seq::empty(), arguments: Seq::empty() }
}

impl Default for ToolCall {
    fn default() -> (r: ToolCall)
        ensures
            r@ == empty_call(),
    {
        ToolCall { tool_name: String::new(), id: String::new(), arguments_string: String::new() }
    }
}

/// One entry of the conversation history.
#[derive(Debug)]
pub struct Message {
    pub role: String,
    pub content: String,
    pub reasoning_content: Option<String>,
    pub tool_call_id: Option<String>,
    pub tool_calls: Vec<ToolCall>,
}

/// The text of a message.
pub struct MessageView {
    pub role: Seq<char>,
    pub content: Seq<char>,
    pub reasoning_content: Option<Seq<char>>,
    pub tool_call_id: Option<Seq<char>>,
    pub tool_calls: Seq<ToolCallView>,
}

/// The text of an optional string.
pub open spec fn opt_view(o: Option<String>) -> Option<Seq<char>> {
    match o {
        Some(s) => Some(s@),
        None => None,
    }
}

/// The text of each tool call.
pub open spec fn calls_view(calls: Seq<ToolCall>) -> Seq<ToolCallView> {
    calls.map_values(|c: ToolCall| c@)
}

impl View for Message {
    type V = MessageView;

    open spec fn view(&self) -> MessageView {
        MessageView {
            role: self.role@,
            content: self.content@,
            reasoning_content: opt_view(self.reasoning_content),
            tool_call_id: opt_view(self.tool_call_id),
            tool_calls: calls_view(self.tool_calls@),
        }
    }
}

/// A message with every field empty.
pub open spec fn empty_message() -> MessageView {
    MessageView {
        role: Seq::empty(),
        content: Seq::empty(),
        reasoning_content: None,
        tool_call_id: None,
        tool_calls: Seq::empty(),
    }
}

impl Default for Message {
    fn default() -> (r: Message)
        ensures
            r@ == empty_message(),
    {
        let r = Message {
            role: String::new(),
            content: String::new(),
            reasoning_content: None,
            tool_call_id: None,
            tool_calls: Vec::new(),
        };
        assert(r@.tool_calls =~= Seq::<ToolCallView>::empty());
        r
    }
}

/// The JSON form of a tool call in a request.
pub open spec fn tool_call_json(c: ToolCallView) -> Json {
    Json::Object(
        seq![
            ("id"@, Json::Str(c.id)),
            ("type"@, Json::Str("function"@)),
            (
                "function"@,
                Json::Object(
                    seq![("name"@, Json::Str(c.tool_name)), ("arguments"@, Json::Str(c.arguments))],
                ),
            ),
        ],
    )
}

/// The JSON form of a message in a request; the reasoning goes along only
/// when `preserve_thinking` is set, the tool calls only when there are some.
pub open spec fn message_json(m: MessageView, preserve_thinking: bool) -> Json {
    Json::Object(
        seq![("role"@, Json::Str(m.role)), ("content"@, Json::Str(m.content))] + (if preserve_thinking
            && m.reasoning_content is Some {
            seq![("reasoning_content"@, Json::Str(m.reasoning_content->0))]
        } else {
            Seq::empty()
        }) + (if m.tool_calls.len() > 0 {
            seq![("tool_calls"@, Json::Array(m.tool_calls.map_values(|c: ToolCallView| tool_call_json(c))))]
        } else {
            Seq::empty()
        }),
    )
}

/// What a tool call's JSON form holds: its id, the kind `function`, and
/// under `function` the tool's name and the arguments.
pub proof fn lemma_tool_call_json_members(c: ToolCallView)
    ensures
        json_get(tool_call_json(c), "id"@) == Some(Json::Str(c.id)),
        json_get(tool_call_json(c), "type"@) == Some(Json::Str("function"@)),
        json_get(json_field(tool_call_json(c), "function"@), "name"@) == Some(
            Json::Str(c.tool_name),
        ),
        json_get(json_field(tool_call_json(c), "function"@), "arguments"@) == Some(
            Json::Str(c.arguments),
        ),
{
    reveal_strlit("id");
    reveal_strlit("type");
    reveal_strlit("function");
    reveal_strlit("name");
    reveal_strlit("arguments");
    assert("id"@.len() == 2);
    assert("type"@.len() == 4);
    assert("function"@.len() == 8);
    assert("name"@.len() == 4);
    assert("arguments"@.len() == 9);
    assert("type"@ != "name"@) by {
        assert("type"@[0] != "name"@[0]);
    }
    let i = ("id"@, Json::Str(c.id));
    let k = ("type"@, Json::Str("function"@));
    let fm = Json::Object(seq![("name"@, Json::Str(c.tool_name)), ("arguments"@, Json::Str(c.arguments))]);
    let f = ("function"@, fm);
    lemma_member_lookup_three(i, k, f, "id"@);
    lemma_member_lookup_three(i, k, f, "type"@);
    lemma_member_lookup_three(i, k, f, "function"@);
    lemma_member_lookup_two(("name"@, Json::Str(c.tool_name)), ("arguments"@, Json::Str(c.arguments)), "name"@);
    lemma_member_lookup_two(("name"@, Json::Str(c.tool_name)), ("arguments"@, Json::Str(c.arguments)), "arguments"@);
}

/// What a message's JSON form holds: its role and its content; its
/// reasoning exactly where the reasoning is to be kept and the message has
/// some; its tool calls, in order, exactly where it has any.
pub proof fn lemma_message_json_members(m: MessageView, preserve_thinking: bool)
    ensures
        json_get(message_json(m, preserve_thinking), "role"@) == Some(Json::Str(m.role)),
        json_get(message_json(m, preserve_thinking), "content"@) == Some(Json::Str(m.content)),
        json_get(message_json(m, preserve_thinking), "reasoning_content"@) == (if preserve_thinking
            && m.reasoning_content is Some {
            Some(Json::Str(m.reasoning_content->0))
        } else {
            None::<Json>
        }),
        m.tool_calls.len() == 0 ==> json_get(message_json(m, preserve_thinking), "tool_calls"@)
            is None,
        m.tool_calls.len() > 0 ==> (json_get(message_json(m, preserve_thinking), "tool_calls"@)
            matches Some(Json::Array(cs)) && cs.len() == m.tool_calls.len() && forall|k: int|
            0 <= k < cs.len() ==> #[trigger] cs[k] == tool_call_json(m.tool_calls[k])),
{
    reveal_strlit("role");
    reveal_strlit("content");
    reveal_strlit("reasoning_content");
    reveal_strlit("tool_calls");
    let r = seq![("role"@, Json::Str(m.role))];
    let c = seq![("content"@, Json::Str(m.content))];
    let rs = if preserve_thinking && m.reasoning_content is Some {
        seq![("reasoning_content"@, Json::Str(m.reasoning_content->0))]
    } else {
        Seq::empty()
    };
    let cs = m.tool_calls.map_values(|c: ToolCallView| tool_call_json(c));
    let ts = if m.tool_calls.len() > 0 {
        seq![("tool_calls"@, Json::Array(cs))]
    } else {
        Seq::empty()
    };
    assert(message_json(m, preserve_thinking) == Json::Object(r + c + rs + ts)) by {
        assert(seq![("role"@, Json::Str(m.role)), ("content"@, Json::Str(m.content))] =~= r + c);
    }
    assert("role"@ != "content"@ && "role"@ != "reasoning_content"@ && "role"@ != "tool_calls"@
        && "content"@ != "reasoning_content"@ && "content"@ != "tool_calls"@ && "reasoning_content"@
        != "tool_calls"@) by {
        assert("role"@.len() == 4);
        assert("content"@.len() == 7);
        assert("reasoning_content"@.len() == 17);
        assert("tool_calls"@.len() == 10);
    }
    lemma_message_key(r, c, rs, ts, "role"@);
    lemma_message_key(r, c, rs, ts, "content"@);
    lemma_message_key(r, c, rs, ts, "reasoning_content"@);
    lemma_message_key(r, c, rs, ts, "tool_calls"@);
}

/// Looking a name up in the members of a message's JSON form.
proof fn lemma_message_key(
    r: Seq<(Seq<char>, Json)>,
    c: Seq<(Seq<char>, Json)>,
    rs: Seq<(Seq<char>, Json)>,
    ts: Seq<(Seq<char>, Json)>,
    key: Seq<char>,
)
    requires
        r.len() == 1,
        c.len() == 1,
        rs.len() <= 1,
        ts.len() <= 1,
    ensures
        member_lookup(r + c + rs + ts, key) == if ts.len() == 1 && ts[0].0 == key {
            Some(ts[0].1)
        } else if rs.len() == 1 && rs[0].0 == key {
            Some(rs[0].1)
        } else if c[0].0 == key {
            Some(c[0].1)
        } else if r[0].0 == key {
            Some(r[0].1)
        } else {
            None::<Json>
        },
{
    lemma_member_lookup_append(r + c + rs, ts, key);
    lemma_member_lookup_append(r + c, rs, key);
    lemma_member_lookup_append(r, c, key);
    assert(r =~= seq![r[0]]);
    assert(c =~= seq![c[0]]);
    lemma_member_lookup_one(r[0].0, r[0].1, key);
    lemma_member_lookup_one(c[0].0, c[0].1, key);
    if rs.len() == 1 {
        assert(rs =~= seq![rs[0]]);
        lemma_member_lookup_one(rs[0].0, rs[0].1, key);
    }
    if ts.len() == 1 {
        assert(ts =~= seq![ts[0]]);
        lemma_member_lookup_one(ts[0].0, ts[0].1, key);
    }
}

/// The reasoning after a piece of it arrived. Where there was none yet, the
/// piece is stored and then appended once more, so it stands there twice.
pub open spec fn reasoning_after(old: Option<Seq<char>>, delta: Seq<char>) -> Option<Seq<char>> {
    match old {
        Some(r) => Some(r + delta),
        None => Some(delta + delta),
    }
}

/// The text of the string member `key` of `j`; empty where there is none.
pub open spec fn string_member(j: Json, key: Seq<char>) -> Seq<char> {
    match json_get(j, key) {
        Some(Json::Str(s)) => s,
        _ => Seq::empty(),
    }
}

/// A tool-call delta can be applied: where it has an index, the index is a
/// non-negative integer below `usize::MAX`.
pub open spec fn tool_delta_ok(call: Json) -> bool {
    match json_get(call, "index"@) {
        Some(ix) => match json_as_u64(ix) {
            Some(n) => n < usize::MAX,
            None => false,
        },
        None => true,
    }
}

/// `calls` lengthened with empty tool calls to at least `len` entries.
pub open spec fn padded(calls: Seq<ToolCallView>, len: int) -> Seq<ToolCallView> {
    if calls.len() >= len {
        calls
    } else {
        calls + Seq::new((len - calls.len()) as nat, |k: int| empty_call())
    }
}

/// A tool call with the name, id and argument pieces of a delta appended.
pub open spec fn merged_call(c: ToolCallView, call: Json) -> ToolCallView {
    let f = json_field(call, "function"@);
    ToolCallView {
        tool_name: c.tool_name + string_member(f, "name"@),
        id: c.id + string_member(call, "id"@),
        arguments: c.arguments + string_member(f, "arguments"@),
    }
}

/// The tool calls after one tool-call delta of a streamed reply.
pub open spec fn calls_after_delta(calls: Seq<ToolCallView>, call: Json) -> Seq<ToolCallView> {
    match json_get(call, "index"@) {
        Some(ix) => {
            let i = json_as_u64(ix)->0 as int;
            let p = padded(calls, i + 1);
            p.update(i, merged_call(p[i], call))
        },
        None => calls,
    }
}

/// The first entry of the `choices` array of a reply.
pub open spec fn first_choice(j: Json) -> Json {
    json_elem(json_field(j, "choices"@), 0)
}

/// The message that a complete (not streamed) reply carries: role
/// `assistant`, its content (empty where there is none) and its reasoning.
pub open spec fn completion_message(reply: Json) -> MessageView {
    let m = json_field(first_choice(reply), "message"@);
    MessageView {
        role: "assistant"@,
        content: json_str_or_empty(json_field(m, "content"@)),
        reasoning_content: json_as_str(json_field(m, "reasoning_content"@)),
        tool_call_id: None,
        tool_calls: Seq::empty(),
    }
}

/// A streamed chunk that ends the reply: its finish reason is `stop` or
/// `tool_calls`.
pub open spec fn chunk_finishes(chunk: Json) -> bool {
    let reason = json_field(first_choice(chunk), "finish_reason"@);
    reason == Json::Str("stop"@) || reason == Json::Str("tool_calls"@)
}

/// The delta that a streamed chunk carries.
pub open spec fn chunk_delta(chunk: Json) -> Json {
    json_field(first_choice(chunk), "delta"@)
}

/// The tool-call deltas of a delta: its `tool_calls` array, or nothing.
pub open spec fn delta_tool_calls(delta: Json) -> Seq<Json> {
    match json_get(delta, "tool_calls"@) {
        Some(Json::Array(ds)) => ds,
        _ => Seq::empty(),
    }
}

/// A chunk can be merged: every tool-call delta of a chunk that does not end
/// the reply can be applied.
pub open spec fn chunk_ok(chunk: Json) -> bool {
    !chunk_finishes(chunk) ==> forall|i: int|
        0 <= i < delta_tool_calls(chunk_delta(chunk)).len() ==> #[trigger] tool_delta_ok(
            delta_tool_calls(chunk_delta(chunk))[i],
        )
}

/// The tool calls after a sequence of tool-call deltas, applied in order.
pub open spec fn fold_tool_deltas(calls: Seq<ToolCallView>, deltas: Seq<Json>) -> Seq<
    ToolCallView,
>
    decreases deltas.len(),
{
    if deltas.len() == 0 {
        calls
    } else {
        calls_after_delta(fold_tool_deltas(calls, deltas.drop_last()), deltas.last())
    }
}

/// A message after the delta of a streamed chunk was merged into it.
pub open spec fn message_after_chunk(m: MessageView, chunk: Json) -> MessageView {
    let d = chunk_delta(chunk);
    MessageView {
        role: match json_get(d, "role"@) {
            Some(v) => m.role + json_str_or_empty(v),
            None => m.role,
        },
        content: match json_get(d, "content"@) {
            Some(v) => m.content + json_str_or_empty(v),
            None => m.content,
        },
        reasoning_content: match json_get(d, "reasoning_content"@) {
            Some(v) => reasoning_after(m.reasoning_content, json_str_or_empty(v)),
            None => m.reasoning_content,
        },
        tool_call_id: m.tool_call_id,
        tool_calls: fold_tool_deltas(m.tool_calls, delta_tool_calls(d)),
    }
}

/// What a streamed chunk shows the user: its reasoning piece, then its
/// content piece.
pub open spec fn chunk_echo(chunk: Json) -> Seq<char> {
    let d = chunk_delta(chunk);
    (match json_get(d, "reasoning_content"@) {
        Some(v) => json_str_or_empty(v),
        None => Seq::empty(),
    }) + (match json_get(d, "content"@) {
        Some(v) => json_str_or_empty(v),
        None => Seq::empty(),
    })
}

/// The pieces of a tool call accumulate: two deltas for the same index
/// leave that call with its earlier text (empty where it was new) followed
/// by the pieces of the first delta, then those of the second; the other
/// calls keep their text.
pub proof fn lemma_tool_deltas_accumulate(calls: Seq<ToolCallView>, d1: Json, d2: Json, i: u64)
    requires
        json_get(d1, "index"@) matches Some(ix) && json_as_u64(ix) == Some(i),
        json_get(d2, "index"@) matches Some(ix) && json_as_u64(ix) == Some(i),
    ensures
        ({
            let after = calls_after_delta(calls_after_delta(calls, d1), d2);
            let before = padded(calls, i + 1);
            let f1 = json_field(d1, "function"@);
            let f2 = json_field(d2, "function"@);
            &&& after.len() == before.len()
            &&& after[i as int] == (ToolCallView {
                tool_name: before[i as int].tool_name + string_member(f1, "name"@)
                    + string_member(f2, "name"@),
                id: before[i as int].id + string_member(d1, "id"@) + string_member(d2, "id"@),
                arguments: before[i as int].arguments + string_member(f1, "arguments"@)
                    + string_member(f2, "arguments"@),
            })
            &&& forall|k: int| 0 <= k < before.len() && k != i ==> after[k] == before[k]
        }),
{
    let before = padded(calls, i + 1);
    let mid = calls_after_delta(calls, d1);
    assert(mid == before.update(i as int, merged_call(before[i as int], d1)));
    assert(padded(mid, i + 1) == mid);
    let f1 = json_field(d1, "function"@);
    let f2 = json_field(d2, "function"@);
    assert(before[i as int].tool_name + string_member(f1, "name"@) + string_member(f2, "name"@)
        =~= mid[i as int].tool_name + string_member(f2, "name"@));
}

/// The index that a tool-call delta names, where it names one.
pub open spec fn delta_index(d: Json) -> Option<int> {
    match json_get(d, "index"@) {
        Some(ix) => match json_as_u64(ix) {
            Some(n) => Some(n as int),
            None => None,
        },
        None => None,
    }
}

/// The pieces that the deltas for index `i` carry, as `piece` reads them,
/// one after the other in the order of the deltas.
pub open spec fn index_pieces(ds: Seq<Json>, i: int, piece: spec_fn(Json) -> Seq<char>) -> Seq<
    char,
> {
    ds.filter(|d: Json| delta_index(d) == Some(i)).map_values(piece).flatten()
}

/// The piece of a tool's name that a delta carries.
pub open spec fn name_piece(d: Json) -> Seq<char> {
    string_member(json_field(d, "function"@), "name"@)
}

/// The piece of a call's id that a delta carries.
pub open spec fn id_piece(d: Json) -> Seq<char> {
    string_member(d, "id"@)
}

/// The piece of a call's arguments that a delta carries.
pub open spec fn arguments_piece(d: Json) -> Seq<char> {
    string_member(json_field(d, "function"@), "arguments"@)
}

/// The call at `i` before any delta: the one there, or an empty one.
pub open spec fn call_before(calls: Seq<ToolCallView>, i: int) -> ToolCallView {
    if 0 <= i < calls.len() {
        calls[i]
    } else {
        empty_call()
    }
}

/// One more delta adds its piece to those of its own index alone.
proof fn lemma_index_pieces_push(
    ds: Seq<Json>,
    d: Json,
    i: int,
    piece: spec_fn(Json) -> Seq<char>,
)
    ensures
        index_pieces(ds.push(d), i, piece) == index_pieces(ds, i, piece) + if delta_index(d)
            == Some(i) {
            piece(d)
        } else {
            Seq::<char>::empty()
        },
{
    let pred = |e: Json| delta_index(e) == Some(i);
    reveal(Seq::filter);
    assert(ds.push(d).drop_last() =~= ds);
    assert(ds.push(d).last() == d);
    let f = ds.filter(pred);
    if pred(d) {
        assert(ds.push(d).filter(pred) == f.push(d));
        f.lemma_push_map_commute(piece, d);
        f.map_values(piece).lemma_flatten_push(piece(d));
    } else {
        assert(ds.push(d).filter(pred) == f);
        assert(f.map_values(piece).flatten() + Seq::<char>::empty() =~= f.map_values(
            piece,
        ).flatten());
    }
}

/// An index that no delta names has no pieces.
proof fn lemma_index_pieces_none(ds: Seq<Json>, i: int, piece: spec_fn(Json) -> Seq<char>)
    requires
        forall|k: int| 0 <= k < ds.len() ==> delta_index(#[trigger] ds[k]) != Some(i),
    ensures
        index_pieces(ds, i, piece) == Seq::<char>::empty(),
    decreases ds.len(),
{
    if ds.len() == 0 {
        reveal(Seq::filter);
        let f = ds.filter(|d: Json| delta_index(d) == Some(i));
        assert(f.map_values(piece) =~= Seq::<Seq<char>>::empty());
    } else {
        let rest = ds.drop_last();
        assert forall|k: int| 0 <= k < rest.len() implies delta_index(#[trigger] rest[k]) != Some(
            i,
        ) by {
            assert(rest[k] == ds[k]);
        }
        lemma_index_pieces_none(rest, i, piece);
        assert(rest.push(ds.last()) =~= ds);
        lemma_index_pieces_push(rest, ds.last(), i, piece);
        assert(Seq::<char>::empty() + Seq::<char>::empty() =~= Seq::<char>::empty());
    }
}

/// Merging tool-call deltas applies every one of them, in order: the calls
/// afterwards reach up to the highest index that a delta names, and no
/// further than that or than the calls before; and the call at each index
/// holds its earlier name, id and arguments (empty for a new call) followed
/// by the pieces of every delta for that index, in the order of the deltas.
pub proof fn lemma_fold_tool_deltas(calls: Seq<ToolCallView>, ds: Seq<Json>)
    requires
        forall|k: int| 0 <= k < ds.len() ==> #[trigger] tool_delta_ok(ds[k]),
    ensures
        fold_tool_deltas(calls, ds).len() >= calls.len(),
        forall|k: int|
            0 <= k < ds.len() && #[trigger] delta_index(ds[k]) is Some ==> delta_index(ds[k])->0
                < fold_tool_deltas(calls, ds).len(),
        fold_tool_deltas(calls, ds).len() == calls.len() || exists|k: int|
            0 <= k < ds.len() && #[trigger] delta_index(ds[k]) == Some(
                fold_tool_deltas(calls, ds).len() - 1,
            ),
        forall|i: int|
            0 <= i < fold_tool_deltas(calls, ds).len() ==> {
                let c = #[trigger] fold_tool_deltas(calls, ds)[i];
                &&& c.tool_name == call_before(calls, i).tool_name + index_pieces(
                    ds,
                    i,
                    |d: Json| name_piece(d),
                )
                &&& c.id == call_before(calls, i).id + index_pieces(ds, i, |d: Json| id_piece(d))
                &&& c.arguments == call_before(calls, i).arguments + index_pieces(
                    ds,
                    i,
                    |d: Json| arguments_piece(d),
                )
            },
    decreases ds.len(),
{
    let np = |d: Json| name_piece(d);
    let ip = |d: Json| id_piece(d);
    let ap = |d: Json| arguments_piece(d);
    if ds.len() == 0 {
        assert forall|i: int| 0 <= i < calls.len() implies {
            let c = #[trigger] fold_tool_deltas(calls, ds)[i];
            &&& c.tool_name == call_before(calls, i).tool_name + index_pieces(ds, i, np)
            &&& c.id == call_before(calls, i).id + index_pieces(ds, i, ip)
            &&& c.arguments == call_before(calls, i).arguments + index_pieces(ds, i, ap)
        } by {
            lemma_index_pieces_none(ds, i, np);
            lemma_index_pieces_none(ds, i, ip);
            lemma_index_pieces_none(ds, i, ap);
            assert(calls[i].tool_name + Seq::<char>::empty() =~= calls[i].tool_name);
            assert(calls[i].id + Seq::<char>::empty() =~= calls[i].id);
            assert(calls[i].arguments + Seq::<char>::empty() =~= calls[i].arguments);
        }
    } else {
        let rest = ds.drop_last();
        let d = ds.last();
        assert forall|k: int| 0 <= k < rest.len() implies #[trigger] tool_delta_ok(rest[k]) by {
            assert(rest[k] == ds[k]);
        }
        assert(tool_delta_ok(ds[ds.len() - 1]));
        lemma_fold_tool_deltas(calls, rest);
        assert(rest.push(d) =~= ds);
        let f = fold_tool_deltas(calls, rest);
        let after = fold_tool_deltas(calls, ds);
        assert(after == calls_after_delta(f, d));
        assert forall|k: int| 0 <= k < rest.len() implies rest[k] == ds[k] by {}
        // Indexes that no earlier delta names, past the earlier calls, hold nothing yet.
        assert forall|i: int| f.len() <= i implies index_pieces(rest, i, np) == Seq::<
            char,
        >::empty() && index_pieces(rest, i, ip) == Seq::<char>::empty() && index_pieces(
            rest,
            i,
            ap,
        ) == Seq::<char>::empty() by {
            assert forall|k: int| 0 <= k < rest.len() implies delta_index(#[trigger] rest[k])
                != Some(i) by {
                assert(ds[k] == rest[k]);
                if delta_index(rest[k]) is Some {
                    assert(delta_index(rest[k])->0 < f.len());
                }
            }
            lemma_index_pieces_none(rest, i, np);
            lemma_index_pieces_none(rest, i, ip);
            lemma_index_pieces_none(rest, i, ap);
        }
        assert forall|i: int| 0 <= i < after.len() implies {
            let c = #[trigger] after[i];
            &&& c.tool_name == call_before(calls, i).tool_name + index_pieces(ds, i, np)
            &&& c.id == call_before(calls, i).id + index_pieces(ds, i, ip)
            &&& c.arguments == call_before(calls, i).arguments + index_pieces(ds, i, ap)
        } by {
            lemma_index_pieces_push(rest, d, i, np);
            lemma_index_pieces_push(rest, d, i, ip);
            lemma_index_pieces_push(rest, d, i, ap);
            let b = call_before(calls, i);
            let prev = if i < f.len() {
                f[i]
            } else {
                empty_call()
            };
            if i >= f.len() {
                assert(b == empty_call());
                assert(b.tool_name + Seq::<char>::empty() =~= b.tool_name);
                assert(b.id + Seq::<char>::empty() =~= b.id);
                assert(b.arguments + Seq::<char>::empty() =~= b.arguments);
            }
            assert(prev.tool_name == b.tool_name + index_pieces(rest, i, np));
            assert(prev.id == b.id + index_pieces(rest, i, ip));
            assert(prev.arguments == b.arguments + index_pieces(rest, i, ap));
            if delta_index(d) == Some(i) {
                let p = padded(f, i + 1);
                assert(p[i] == prev);
                assert(after[i] == merged_call(prev, d));
                assert(b.tool_name + index_pieces(rest, i, np) + np(d) =~= b.tool_name + (
                index_pieces(rest, i, np) + np(d)));
                assert(b.id + index_pieces(rest, i, ip) + ip(d) =~= b.id + (index_pieces(
                    rest,
                    i,
                    ip,
                ) + ip(d)));
                assert(b.arguments + index_pieces(rest, i, ap) + ap(d) =~= b.arguments + (
                index_pieces(rest, i, ap) + ap(d)));
            } else {
                assert(after[i] == prev);
                assert(index_pieces(rest, i, np) + Seq::<char>::empty() =~= index_pieces(
                    rest,
                    i,
                    np,
                ));
                assert(index_pieces(rest, i, ip) + Seq::<char>::empty() =~= index_pieces(
                    rest,
                    i,
                    ip,
                ));
                assert(index_pieces(rest, i, ap) + Seq::<char>::empty() =~= index_pieces(
                    rest,
                    i,
                    ap,
                ));
            }
        }
        assert forall|k: int|
            0 <= k < ds.len() && #[trigger] delta_index(ds[k]) is Some implies delta_index(
            ds[k],
        )->0 < after.len() by {
            if k < rest.len() {
                assert(rest[k] == ds[k]);
            }
        }
        if after.len() != calls.len() {
            if after.len() == f.len() {
                let k = choose|k: int|
                    0 <= k < rest.len() && #[trigger] delta_index(rest[k]) == Some(f.len() - 1);
                assert(ds[k] == rest[k]);
            } else {
                assert(delta_index(ds[ds.len() - 1]) == Some(after.len() - 1));
            }
        }
    }
}

/// Merging a streamed chunk applies every tool-call delta of its delta, in
/// order, as `lemma_fold_tool_deltas` describes.
pub proof fn lemma_chunk_tool_calls(m: MessageView, chunk: Json)
    requires
        chunk_ok(chunk),
        !chunk_finishes(chunk),
    ensures
        ({
            let ds = delta_tool_calls(chunk_delta(chunk));
            let after = message_after_chunk(m, chunk).tool_calls;
            &&& after.len() >= m.tool_calls.len()
            &&& forall|k: int|
                0 <= k < ds.len() && #[trigger] delta_index(ds[k]) is Some ==> delta_index(
                    ds[k],
                )->0 < after.len()
            &&& after.len() == m.tool_calls.len() || exists|k: int|
                0 <= k < ds.len() && #[trigger] delta_index(ds[k]) == Some(after.len() - 1)
            &&& forall|i: int|
                0 <= i < after.len() ==> {
                    let c = #[trigger] after[i];
                    &&& c.tool_name == call_before(m.tool_calls, i).tool_name + index_pieces(
                        ds,
                        i,
                        |d: Json| name_piece(d),
                    )
                    &&& c.id == call_before(m.tool_calls, i).id + index_pieces(
                        ds,
                        i,
                        |d: Json| id_piece(d),
                    )
                    &&& c.arguments == call_before(m.tool_calls, i).arguments + index_pieces(
                        ds,
                        i,
                        |d: Json| arguments_piece(d),
                    )
                }
        }),
{
    lemma_fold_tool_deltas(m.tool_calls, delta_tool_calls(chunk_delta(chunk)));
}

/// The message after a sequence of streamed chunks, merged in order.
pub open spec fn merge_chunks(m: MessageView, chunks: Seq<Json>) -> MessageView
    decreases chunks.len(),
{
    if chunks.len() == 0 {
        m
    } else {
        message_after_chunk(merge_chunks(m, chunks.drop_last()), chunks.last())
    }
}

/// The content pieces of a sequence of streamed chunks, one after the other.
pub open spec fn chunks_content(chunks: Seq<Json>) -> Seq<char>
    decreases chunks.len(),
{
    if chunks.len() == 0 {
        Seq::empty()
    } else {
        chunks_content(chunks.drop_last()) + match json_get(
            chunk_delta(chunks.last()),
            "content"@,
        ) {
            Some(v) => json_str_or_empty(v),
            None => Seq::empty(),
        }
    }
}

/// A streamed reply's content is its pieces in the order they came: after
/// merging a sequence of chunks, the content is what it was followed by the
/// content piece of each chunk; the other fields do not affect it.
pub proof fn lemma_streamed_content(m: MessageView, chunks: Seq<Json>)
    ensures
        merge_chunks(m, chunks).content == m.content + chunks_content(chunks),
    decreases chunks.len(),
{
    if chunks.len() == 0 {
        assert(m.content + Seq::<char>::empty() =~= m.content);
    } else {
        lemma_streamed_content(m, chunks.drop_last());
        let piece = match json_get(chunk_delta(chunks.last()), "content"@) {
            Some(v) => json_str_or_empty(v),
            None => Seq::empty(),
        };
        assert(m.content + chunks_content(chunks.drop_last()) + piece =~= m.content + (
        chunks_content(chunks.drop_last()) + piece));
    }
}

/// What merging a streamed chunk leads to.
#[derive(Debug)]
pub enum StreamStep {
    /// The reply is complete.
    Finished,
    /// The reply goes on; the text is to be shown to the user.
    Continue(String),
}

impl ToolCall {
    /// The JSON form of this call in a request.
    pub fn to_json(&self) -> (r: JsonValue)
        ensures
            r@ == tool_call_json(self@),
    {
        let mut function: Vec<(String, JsonValue)> = Vec::new();
        function.push(("name".to_owned(), json_str(self.tool_name.as_str())));
        function.push(("arguments".to_owned(), json_str(self.arguments_string.as_str())));
        let mut members: Vec<(String, JsonValue)> = Vec::new();
        members.push(("id".to_owned(), json_str(self.id.as_str())));
        members.push(("type".to_owned(), json_str("function")));
        members.push(("function".to_owned(), JsonValue::Object(function)));
        let r = JsonValue::Object(members);
        proof {
            lemma_members_view(function@);
            lemma_members_view(members@);
            assert(members_view(function@) =~= seq![
                ("name"@, Json::Str(self.tool_name@)),
                ("arguments"@, Json::Str(self.arguments_string@)),
            ]);
            assert(members_view(members@) =~= seq![
                ("id"@, Json::Str(self.id@)),
                ("type"@, Json::Str("function"@)),
                ("function"@, Json::Object(members_view(function@))),
            ]);
        }
        r
    }
}


impl Message {
    /// A message that the user typed.
    pub fn user(content: String) -> (r: Message)
        ensures
            r@ == (MessageView { role: "user"@, content: content@, ..empty_message() }),
    {
        let r = Message {
            role: "user".to_owned(),
            content,
            reasoning_content: None,
            tool_call_id: None,
            tool_calls: Vec::new(),
        };
        assert(r@.tool_calls =~= Seq::<ToolCallView>::empty());
        r
    }

    /// The answer of a tool to the call with id `id`.
    pub fn tool_result(id: String, content: String) -> (r: Message)
        ensures
            r@ == (MessageView {
                role: "tool"@,
                content: content@,
                tool_call_id: Some(id@),
                ..empty_message()
            }),
    {
        let r = Message {
            role: "tool".to_owned(),
            content,
            reasoning_content: None,
            tool_call_id: Some(id),
            tool_calls: Vec::new(),
        };
        assert(r@.tool_calls =~= Seq::<ToolCallView>::empty());
        r
    }

    /// The JSON form of this message in a request.
    pub fn to_json(&self, config: &Config) -> (r: JsonValue)
        ensures
            r@ == message_json(self@, config.preserve_thinking),
    {
        let mut members: Vec<(String, JsonValue)> = Vec::new();
        members.push(("role".to_owned(), json_str(self.role.as_str())));
        members.push(("content".to_owned(), json_str(self.content.as_str())));
        if config.preserve_thinking {
            match &self.reasoning_content {
                Some(r) => {
                    members.push(("reasoning_content".to_owned(), json_str(r.as_str())));
                },
                None => {},
            }
        }
        let ghost before_calls = members@;
        if self.tool_calls.len() > 0 {
            let mut calls: Vec<JsonValue> = Vec::new();
            let mut i: usize = 0;
            while i < self.tool_calls.len()
                invariant
                    i <= self.tool_calls@.len(),
                    calls@.len() == i,
                    forall|k: int|
                        0 <= k < i ==> #[trigger] calls@[k]@ == tool_call_json(
                            self.tool_calls@[k]@,
                        ),
                decreases self.tool_calls@.len() - i,
            {
                calls.push(self.tool_calls[i].to_json());
                i = i + 1;
            }
            proof {
                lemma_items_view(calls@);
                assert(items_view(calls@) =~= self@.tool_calls.map_values(
                    |c: ToolCallView| tool_call_json(c),
                ));
            }
            members.push(("tool_calls".to_owned(), JsonValue::Array(calls)));
        }
        let r = JsonValue::Object(members);
        proof {
            lemma_members_view(members@);
            lemma_members_view(before_calls);
            let m = self@;
            let head = seq![("role"@, Json::Str(m.role)), ("content"@, Json::Str(m.content))];
            let thinking = if config.preserve_thinking && m.reasoning_content is Some {
                seq![("reasoning_content"@, Json::Str(m.reasoning_content->0))]
            } else {
                Seq::empty()
            };
            assert(members_view(before_calls) =~= head + thinking);
            assert(m.tool_calls.len() == self.tool_calls@.len());
            if m.tool_calls.len() > 0 {
                assert(members_view(members@) =~= head + thinking + seq![
                    ("tool_calls"@, Json::Array(m.tool_calls.map_values(|c: ToolCallView| tool_call_json(c)))),
                ]);
            } else {
                assert(members_view(members@) =~= head + thinking + Seq::empty());
            }
        }
        r
    }

    /// Appends a streamed piece of the content.
    pub fn apply_content_delta(&mut self, delta: &str)
        ensures
            final(self)@ == (MessageView { content: old(self)@.content + delta@, ..old(self)@ }),
    {
        self.content.append(delta);
    }

    /// Appends a streamed piece of the reasoning.
    pub fn apply_reasoning_delta(&mut self, delta: &str)
        ensures
            final(self)@ == (MessageView {
                reasoning_content: reasoning_after(old(self)@.reasoning_content, delta@),
                ..old(self)@
            }),
    {
        match &mut self.reasoning_content {
            Some(r) => {
                r.append(delta);
            },
            None => {
                let mut r = delta.to_owned();
                r.append(delta);
                self.reasoning_content = Some(r);
            },
        }
    }

    /// Merges one tool-call delta of a streamed reply: the entry at its
    /// index (created empty where the list is too short) gets the pieces of
    /// name, id and arguments that the delta carries.
    pub fn apply_tool_delta(&mut self, call: &JsonValue)
        requires
            tool_delta_ok(call@),
        ensures
            final(self)@ == (MessageView {
                tool_calls: calls_after_delta(old(self)@.tool_calls, call@),
                ..old(self)@
            }),
    {
        match call.get("index") {
            Some(index) => {
                let n = match index.as_u64() {
                    Some(n) => n,
                    None => {
                        return;
                    },
                };
                let idx = n as usize;
                let ghost start = old(self)@.tool_calls;
                while self.tool_calls.len() <= idx
                    invariant
                        idx == n,
                        n < usize::MAX,
                        start == old(self)@.tool_calls,
                        start.len() <= self.tool_calls@.len() <= if start.len() <= idx + 1 {
                            idx + 1
                        } else {
                            start.len() as int
                        },
                        calls_view(self.tool_calls@) =~= padded(
                            start,
                            self.tool_calls@.len() as int,
                        ),
                        self.role == old(self).role,
                        self.content == old(self).content,
                        self.reasoning_content == old(self).reasoning_content,
                        self.tool_call_id == old(self).tool_call_id,
                    decreases idx + 1 - self.tool_calls@.len(),
                {
                    let ghost before = self.tool_calls@;
                    self.tool_calls.push(ToolCall::default());
                    proof {
                        assert(calls_view(self.tool_calls@) =~= calls_view(before).push(
                            empty_call(),
                        ));
                    }
                }
                let ghost padded_calls = calls_view(self.tool_calls@);
                assert(padded_calls =~= padded(start, idx + 1));
                let mut slot = ToolCall::default();
                self.tool_calls.set_and_swap(idx, &mut slot);
                match call.get("function") {
                    Some(f) => {
                        match f.get("name") {
                            Some(v) => match v.as_str() {
                                Some(name) => slot.tool_name.append(name),
                                None => {},
                            },
                            None => {},
                        }
                        match f.get("arguments") {
                            Some(v) => match v.as_str() {
                                Some(arg) => slot.arguments_string.append(arg),
                                None => {},
                            },
                            None => {},
                        }
                    },
                    None => {},
                }
                match call.get("id") {
                    Some(v) => match v.as_str() {
                        Some(id) => slot.id.append(id),
                        None => {},
                    },
                    None => {},
                }
                assert(slot@ == merged_call(padded_calls[idx as int], call@));
                self.tool_calls.set(idx, slot);
                proof {
                    assert(calls_view(self.tool_calls@) =~= padded_calls.update(
                        idx as int,
                        merged_call(padded_calls[idx as int], call@),
                    ));
                }
            },
            None => {},
        }
    }

    /// The message of a complete (not streamed) reply.
    pub fn from_completion(reply: &JsonValue) -> (r: Message)
        ensures
            r@ == completion_message(reply@),
    {
        let choice = elem_of(reply.get("choices"), 0);
        let message = member_of(choice, "message");
        let content = match member_of(message, "content") {
            Some(v) => match v.as_str() {
                Some(s) => s.to_owned(),
                None => String::new(),
            },
            None => String::new(),
        };
        let reasoning_content = match member_of(message, "reasoning_content") {
            Some(v) => match v.as_str() {
                Some(s) => Some(s.to_owned()),
                None => None,
            },
            None => None,
        };
        let r = Message {
            role: "assistant".to_owned(),
            content,
            reasoning_content,
            tool_call_id: None,
            tool_calls: Vec::new(),
        };
        assert(r@.tool_calls =~= Seq::<ToolCallView>::empty());
        r
    }

    /// Merges one chunk of a streamed reply. A chunk whose finish reason is
    /// `stop` or `tool_calls` ends the reply and changes nothing; any other
    /// chunk has its delta merged, and the text to show is handed back.
    pub fn apply_chunk(&mut self, chunk: &JsonValue) -> (r: StreamStep)
        requires
            chunk_ok(chunk@),
        ensures
            chunk_finishes(chunk@) ==> r is Finished && final(self)@ == old(self)@,
            !chunk_finishes(chunk@) ==> (r matches StreamStep::Continue(echo) && echo@
                == chunk_echo(chunk@) && final(self)@ == message_after_chunk(old(self)@, chunk@)),
    {
        let choice = elem_of(chunk.get("choices"), 0);
        match member_of(choice, "finish_reason") {
            Some(v) => match v.as_str() {
                Some(reason) => {
                    if str_eq(reason, "stop") || str_eq(reason, "tool_calls") {
                        return StreamStep::Finished;
                    }
                },
                None => {},
            },
            None => {},
        }
        let delta = member_of(choice, "delta");
        let mut echo = String::new();
        match member_of(delta, "role") {
            Some(v) => match v.as_str() {
                Some(s) => self.role.append(s),
                None => {},
            },
            None => {},
        }
        match member_of(delta, "reasoning_content") {
            Some(v) => {
                let piece = match v.as_str() {
                    Some(s) => s,
                    None => "",
                };
                proof {
                    reveal_strlit("");
                }
                echo.append(piece);
                self.apply_reasoning_delta(piece);
            },
            None => {},
        }
        match member_of(delta, "content") {
            Some(v) => {
                let piece = match v.as_str() {
                    Some(s) => s,
                    None => "",
                };
                proof {
                    reveal_strlit("");
                }
                echo.append(piece);
                self.apply_content_delta(piece);
            },
            None => {},
        }
        match member_of(delta, "tool_calls") {
            Some(JsonValue::Array(calls)) => {
                let ghost at_start = self@;
                let ghost start = self@.tool_calls;
                let ghost ds = items_view(calls@);
                proof {
                    lemma_items_view(calls@);
                    assert(ds.take(0) =~= Seq::<Json>::empty());
                }
                let mut i: usize = 0;
                while i < calls.len()
                    invariant
                        i <= calls@.len(),
                        ds == items_view(calls@),
                        ds.len() == calls@.len(),
                        forall|k: int| 0 <= k < calls@.len() ==> #[trigger] ds[k] == calls@[k]@,
                        forall|k: int| 0 <= k < ds.len() ==> #[trigger] tool_delta_ok(ds[k]),
                        start == at_start.tool_calls,
                        self@ == (MessageView {
                            tool_calls: fold_tool_deltas(start, ds.take(i as int)),
                            ..at_start
                        }),
                    decreases calls@.len() - i,
                {
                    let ghost before = self@;
                    assert(tool_delta_ok(ds[i as int]));
                    self.apply_tool_delta(&calls[i]);
                    proof {
                        assert(ds.take(i + 1).drop_last() =~= ds.take(i as int));
                        assert(ds.take(i + 1).last() == ds[i as int]);
                    }
                    i = i + 1;
                }
                assert(ds.take(calls@.len() as int) =~= ds);
            },
            _ => {},
        }
        StreamStep::Continue(echo)
    }
}

/// The JSON text that a line of a streamed reply carries after its five
/// bytes of prefix (`data:`); nothing for a shorter line.
pub fn stream_payload(line: &str) -> (r: Option<&str>)
    requires
        encode_utf8(line@).len() >= 5 ==> is_char_boundary(encode_utf8(line@), 5),
    ensures
        match r {
            Some(payload) => encode_utf8(line@).len() >= 5 && encode_utf8(payload@)
                == encode_utf8(line@).subrange(5, encode_utf8(line@).len() as int),
            None => encode_utf8(line@).len() < 5,
        },
{
    if line.as_bytes().len() < 5 {
        return None;
    }
    let (_, payload) = line.split_at(5);
    Some(payload)
}

/// What a line of a streamed reply leads to.
#[derive(Debug)]
pub enum StreamLine {
    /// The line is no text: the reply ends here.
    Stop,
    /// The line is too short to carry a chunk.
    Skip,
    /// The JSON text of a chunk.
    Payload(String),
}

/// Reads a line of a streamed reply: a line that is no valid UTF-8 ends the
/// reply, a line shorter than five bytes is skipped, and any other line
/// carries what follows its five bytes of prefix.
pub fn stream_line(line: Vec<u8>) -> (r: StreamLine)
    requires
        valid_utf8(line@) && line@.len() >= 5 ==> is_char_boundary(line@, 5),
    ensures
        !valid_utf8(line@) ==> r is Stop,
        valid_utf8(line@) && line@.len() < 5 ==> r is Skip,
        valid_utf8(line@) && line@.len() >= 5 ==> (r matches StreamLine::Payload(p)
            && encode_utf8(p@) == line@.subrange(5, line@.len() as int)),
{
    let ghost bytes = line@;
    match utf8_string(line) {
        None => StreamLine::Stop,
        Some(text) => {
            proof {
                decode_utf8_encode_utf8(bytes);
            }
            match stream_payload(text.as_str()) {
                None => StreamLine::Skip,
                Some(payload) => StreamLine::Payload(payload.to_owned()),
            }
        },
    }
}

/// The message of a complete (not streamed) reply, read from its text;
/// nothing where the text is no JSON.
pub fn completion_of_body(body: &str) -> (r: Option<Message>)
    ensures
        match json_of_text(body@) {
            None => r is None,
            Some(j) => r matches Some(m) && m@ == completion_message(j),
        },
{
    match parse_json(body) {
        None => None,
        Some(v) => Some(Message::from_completion(&v)),
    }
}

/// The chunk that the JSON text of a streamed line holds; nothing where the
/// text is no JSON.
pub fn stream_chunk(payload: &str) -> (r: Option<JsonValue>)
    ensures
        match r {
            Some(v) => json_of_text(payload@) == Some(v@),
            None => json_of_text(payload@) is None,
        },
{
    parse_json(payload)
}

/// The tool call asks for the `Shell` tool.
pub fn is_shell_call(call: &ToolCall) -> (r: bool)
    ensures
        r == (call.tool_name@ == "Shell"@),
{
    str_eq(call.tool_name.as_str(), "Shell")
}

/// Adds a reply and the answers of the tools it called to the history, and
/// tells whether the model is to be asked again: it is where the reply
/// called tools.
pub fn record_turn(thread: &mut Vec<Message>, response: Message, tool_results: Vec<Message>) -> (r:
    bool)
    ensures
        final(thread)@ == old(thread)@.push(response) + tool_results@,
        r == (response.tool_calls@.len() > 0),
{
    let go_on = response.tool_calls.len() > 0;
    thread.push(response);
    let mut results = tool_results;
    thread.append(&mut results);
    go_on
}

/// Whether a tool-call delta can be applied (see `tool_delta_ok`).
pub fn tool_delta_fits(call: &JsonValue) -> (r: bool)
    ensures
        r == tool_delta_ok(call@),
{
    match call.get("index") {
        Some(ix) => match ix.as_u64() {
            Some(n) => n < usize::MAX as u64,
            None => false,
        },
        None => true,
    }
}

/// Whether a streamed chunk can be merged (see `chunk_ok`): a chunk on which
/// merging would have to give up, since one of its tool-call deltas has an
/// index that is no usable number.
pub fn chunk_fits(chunk: &JsonValue) -> (r: bool)
    ensures
        r == chunk_ok(chunk@),
{
    let choice = elem_of(chunk.get("choices"), 0);
    match member_of(choice, "finish_reason") {
        Some(v) => match v.as_str() {
            Some(reason) => {
                if str_eq(reason, "stop") || str_eq(reason, "tool_calls") {
                    return true;
                }
            },
            None => {},
        },
        None => {},
    }
    let delta = member_of(choice, "delta");
    match member_of(delta, "tool_calls") {
        Some(JsonValue::Array(calls)) => {
            let ghost ds = items_view(calls@);
            proof {
                lemma_items_view(calls@);
            }
            let mut i: usize = 0;
            while i < calls.len()
                invariant
                    i <= calls@.len(),
                    ds == items_view(calls@),
                    ds.len() == calls@.len(),
                    forall|k: int| 0 <= k < calls@.len() ==> #[trigger] ds[k] == calls@[k]@,
                    forall|k: int| 0 <= k < i ==> #[trigger] tool_delta_ok(ds[k]),
                    !chunk_finishes(chunk@),
                    delta_tool_calls(chunk_delta(chunk@)) == ds,
                decreases calls@.len() - i,
            {
                if !tool_delta_fits(&calls[i]) {
                    assert(!tool_delta_ok(delta_tool_calls(chunk_delta(chunk@))[i as int]));
                    return false;
                }
                i = i + 1;
            }
            true
        },
        _ => true,
    }
}

} // verus!
