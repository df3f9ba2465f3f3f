use vstd::prelude::*;

use crate::json::{
    items_view, json_as_i64, json_as_str, json_field, json_get, json_str, lemma_member_lookup_push, lemma_member_lookup_three, lemma_member_lookup_two,
    lemma_members_view, members_view,
    json_of_text, parse_json, str_eq, Json, JsonValue,
};

verus! {

broadcast use vstd::std_specs::vec::group_vec_axioms;

/// A parameter of a tool, as the model is told of it.
#[derive(Clone, Copy, Debug)]
pub struct ToolParameter {
    pub name: &'static str,
    /// `string`, `number` or `boolean`.
    pub ptype: &'static str,
    pub description: Option<&'static str>,
    pub is_required: bool,
}

/// A tool, as the model is told of it.
#[derive(Debug)]
pub struct ToolDefinition {
    pub name: &'static str,
    pub description: Option<&'static str>,
    pub parameters: Vec<ToolParameter>,
}

/// The text of an optional string slice.
pub open spec fn opt_str_view(o: Option<&'static str>) -> Option<Seq<char>> {
    match o {
        Some(s) => Some(s@),
        None => None,
    }
}

impl ToolParameter {
    /// A required parameter of type `string`, without description.
    pub fn string(name: &'static str) -> (r: ToolParameter)
        ensures
            r.name@ == name@,
            r.ptype@ == "string"@,
            r.description is None,
            r.is_required,
    {
        ToolParameter { name, ptype: "string", description: None, is_required: true }
    }

    /// A required parameter of type `number`, without description.
    pub fn number(name: &'static str) -> (r: ToolParameter)
        ensures
            r.name@ == name@,
            r.ptype@ == "number"@,
            r.description is None,
            r.is_required,
    {
        ToolParameter { name, ptype: "number", description: None, is_required: true }
    }

    /// The same parameter, required or not as `is_required` says.
    pub fn set_required(self, is_required: bool) -> (r: ToolParameter)
        ensures
            r == (ToolParameter { is_required, ..self }),
    {
        let mut p = self;
        p.is_required = is_required;
        p
    }

    /// The same parameter with the description `desc`.
    pub fn add_description(self, desc: &'static str) -> (r: ToolParameter)
        ensures
            r == (ToolParameter { description: Some(desc), ..self }),
    {
        let mut p = self;
        p.description = Some(desc);
        p
    }
}

impl Default for ToolDefinition {
    fn default() -> (r: ToolDefinition)
        ensures
            r.name@ == ""@,
            r.description is None,
            r.parameters@.len() == 0,
    {
        ToolDefinition { name: "", description: None, parameters: Vec::new() }
    }
}

/// The JSON schema of one parameter: its type, and its description where it
/// has one.
pub open spec fn parameter_schema(p: ToolParameter) -> Json {
    Json::Object(
        seq![("type"@, Json::Str(p.ptype@))] + match p.description {
            Some(d) => seq![("description"@, Json::Str(d@))],
            None => Seq::empty(),
        },
    )
}

/// The names of the required parameters, in order.
pub open spec fn required_names(ps: Seq<ToolParameter>) -> Seq<Json>
    decreases ps.len(),
{
    if ps.len() == 0 {
        Seq::empty()
    } else if ps.last().is_required {
        required_names(ps.drop_last()).push(Json::Str(ps.last().name@))
    } else {
        required_names(ps.drop_last())
    }
}

/// The JSON form of a tool in a request: a function whose parameters form an
/// object schema with a property per parameter and the list of the required
/// ones.
pub open spec fn tool_json(t: ToolDefinition) -> Json {
    let properties = Json::Object(
        t.parameters@.map_values(|p: ToolParameter| (p.name@, parameter_schema(p))),
    );
    let parameters = Json::Object(
        seq![
            ("type"@, Json::Str("object"@)),
            ("properties"@, properties),
            ("required"@, Json::Array(required_names(t.parameters@))),
        ],
    );
    let function = Json::Object(
        seq![("name"@, Json::Str(t.name@))] + match t.description {
            Some(d) => seq![("description"@, Json::Str(d@))],
            None => Seq::empty(),
        } + seq![("parameters"@, parameters)],
    );
    Json::Object(seq![("type"@, Json::Str("function"@)), ("function"@, function)])
}

/// The names of the required parameters are those of the parameters marked
/// required: each such name stands among them, and each of them is the name
/// of such a parameter.
pub proof fn lemma_required_names(ps: Seq<ToolParameter>)
    ensures
        forall|i: int|
            0 <= i < ps.len() && (#[trigger] ps[i]).is_required ==> required_names(ps).contains(
                Json::Str(ps[i].name@),
            ),
        forall|k: int|
            0 <= k < required_names(ps).len() ==> exists|i: int|
                0 <= i < ps.len() && ps[i].is_required && #[trigger] required_names(ps)[k]
                    == Json::Str(ps[i].name@),
    decreases ps.len(),
{
    if ps.len() > 0 {
        let rest = ps.drop_last();
        lemma_required_names(rest);
        let rn = required_names(ps);
        let rr = required_names(rest);
        assert forall|i: int|
            0 <= i < ps.len() && (#[trigger] ps[i]).is_required implies rn.contains(
                Json::Str(ps[i].name@),
            ) by {
            if i < rest.len() {
                assert(rest[i] == ps[i]);
                let k = choose|k: int| 0 <= k < rr.len() && rr[k] == Json::Str(rest[i].name@);
                assert(rn[k] == rr[k]);
            } else {
                assert(rn[rn.len() - 1] == Json::Str(ps[i].name@));
            }
        }
        assert forall|k: int| 0 <= k < rn.len() implies exists|i: int|
            0 <= i < ps.len() && ps[i].is_required && #[trigger] rn[k] == Json::Str(
                ps[i].name@,
            ) by {
            if k < rr.len() {
                assert(rn[k] == rr[k]);
                let i = choose|i: int|
                    0 <= i < rest.len() && rest[i].is_required && #[trigger] rr[k] == Json::Str(
                        rest[i].name@,
                    );
                assert(rest[i] == ps[i]);
            } else {
                assert(rn[k] == Json::Str(ps[ps.len() - 1].name@));
            }
        }
    }
}

/// A parameter's schema holds its type, whether or not it has a
/// description, and its description exactly where it has one.
pub proof fn lemma_parameter_schema_members(p: ToolParameter)
    ensures
        json_get(parameter_schema(p), "type"@) == Some(Json::Str(p.ptype@)),
        json_get(parameter_schema(p), "description"@) == match p.description {
            Some(d) => Some(Json::Str(d@)),
            None => None::<Json>,
        },
{
    reveal_strlit("type");
    reveal_strlit("description");
    assert("type"@.len() == 4);
    assert("description"@.len() == 11);
    let t = ("type"@, Json::Str(p.ptype@));
    let e = Seq::<(Seq<char>, Json)>::empty();
    assert(seq![t] =~= e.push(t));
    lemma_member_lookup_push(e, t.0, t.1, "type"@);
    lemma_member_lookup_push(e, t.0, t.1, "description"@);
    match p.description {
        Some(d) => {
            let dm = ("description"@, Json::Str(d@));
            assert(seq![t] + seq![dm] =~= seq![t, dm]);
            lemma_member_lookup_two(t, dm, "type"@);
            lemma_member_lookup_two(t, dm, "description"@);
        },
        None => {
            assert(seq![t] + Seq::<(Seq<char>, Json)>::empty() =~= seq![t]);
        },
    }
}

/// What a tool's JSON form holds: the kind `function`, and under
/// `function` the tool's name, its description exactly where it has one,
/// and an object schema of its parameters: one property per parameter, in
/// order, named after it and holding its type and its description (where
/// it has one), and the list of the names of the required parameters.
pub proof fn lemma_tool_json_members(t: ToolDefinition)
    ensures
        json_get(tool_json(t), "type"@) == Some(Json::Str("function"@)),
        json_get(json_field(tool_json(t), "function"@), "name"@) == Some(Json::Str(t.name@)),
        json_get(json_field(tool_json(t), "function"@), "description"@) == match t.description {
            Some(d) => Some(Json::Str(d@)),
            None => None::<Json>,
        },
        json_get(json_field(json_field(tool_json(t), "function"@), "parameters"@), "type"@)
            == Some(Json::Str("object"@)),
        json_get(json_field(json_field(tool_json(t), "function"@), "parameters"@), "properties"@)
            matches Some(Json::Object(props)) && props.len() == t.parameters@.len() && forall|i: int|
            0 <= i < props.len() ==> (#[trigger] props[i]).0 == t.parameters@[i].name@ && json_get(
                props[i].1,
                "type"@,
            ) == Some(Json::Str(t.parameters@[i].ptype@)) && json_get(props[i].1, "description"@)
                == match t.parameters@[i].description {
                Some(d) => Some(Json::Str(d@)),
                None => None::<Json>,
            },
        json_get(json_field(json_field(tool_json(t), "function"@), "parameters"@), "required"@)
            == Some(Json::Array(required_names(t.parameters@))),
{
    reveal_strlit("type");
    reveal_strlit("function");
    reveal_strlit("name");
    reveal_strlit("description");
    reveal_strlit("parameters");
    reveal_strlit("properties");
    reveal_strlit("required");
    assert("type"@.len() == 4);
    assert("function"@.len() == 8);
    assert("name"@.len() == 4);
    assert("description"@.len() == 11);
    assert("parameters"@.len() == 10);
    assert("properties"@.len() == 10);
    assert("required"@.len() == 8);
    assert("type"@ != "name"@) by {
        assert("type"@[0] != "name"@[0]);
    }
    assert("parameters"@ != "properties"@) by {
        assert("parameters"@[1] != "properties"@[1]);
    }
    assert("function"@ != "required"@) by {
        assert("function"@[0] != "required"@[0]);
    }
    let ps = t.parameters@;
    let props = ps.map_values(|p: ToolParameter| (p.name@, parameter_schema(p)));
    let parameters = Json::Object(
        seq![
            ("type"@, Json::Str("object"@)),
            ("properties"@, Json::Object(props)),
            ("required"@, Json::Array(required_names(ps))),
        ],
    );
    let n = ("name"@, Json::Str(t.name@));
    let pm = ("parameters"@, parameters);
    let function = match t.description {
        Some(d) => seq![n, ("description"@, Json::Str(d@)), pm],
        None => seq![n, pm],
    };
    assert(json_field(tool_json(t), "function"@) == Json::Object(function)) by {
        lemma_member_lookup_two(("type"@, Json::Str("function"@)), ("function"@, Json::Object(function)), "function"@);
        match t.description {
            Some(d) => {
                assert(seq![n] + seq![("description"@, Json::Str(d@))] + seq![pm] =~= function);
            },
            None => {
                assert(seq![n] + Seq::<(Seq<char>, Json)>::empty() + seq![pm] =~= function);
            },
        }
    }
    lemma_member_lookup_two(("type"@, Json::Str("function"@)), ("function"@, Json::Object(function)), "type"@);
    match t.description {
        Some(d) => {
            let dm = ("description"@, Json::Str(d@));
            lemma_member_lookup_three(n, dm, pm, "name"@);
            lemma_member_lookup_three(n, dm, pm, "description"@);
            lemma_member_lookup_three(n, dm, pm, "parameters"@);
        },
        None => {
            lemma_member_lookup_two(n, pm, "name"@);
            lemma_member_lookup_two(n, pm, "description"@);
            lemma_member_lookup_two(n, pm, "parameters"@);
        },
    }
    let a = ("type"@, Json::Str("object"@));
    let b = ("properties"@, Json::Object(props));
    let c = ("required"@, Json::Array(required_names(ps)));
    lemma_member_lookup_three(a, b, c, "type"@);
    lemma_member_lookup_three(a, b, c, "properties"@);
    lemma_member_lookup_three(a, b, c, "required"@);
    assert forall|i: int| 0 <= i < props.len() implies (#[trigger] props[i]).0 == ps[i].name@
        && json_get(props[i].1, "type"@) == Some(Json::Str(ps[i].ptype@)) && json_get(
        props[i].1,
        "description"@,
    ) == match ps[i].description {
        Some(d) => Some(Json::Str(d@)),
        None => None::<Json>,
    } by {
        lemma_parameter_schema_members(ps[i]);
    }
}

impl ToolDefinition {
    /// The JSON form of this tool in a request.
    pub fn to_json(&self) -> (r: JsonValue)
        ensures
            r@ == tool_json(*self),
    {
        let ps = &self.parameters;
        let mut properties: Vec<(String, JsonValue)> = Vec::new();
        let mut required: Vec<JsonValue> = Vec::new();
        let mut i: usize = 0;
        while i < ps.len()
            invariant
                i <= ps@.len(),
                properties@.len() == i,
                forall|k: int|
                    0 <= k < i ==> #[trigger] properties@[k].0@ == ps@[k].name@
                        && properties@[k].1@ == parameter_schema(ps@[k]),
                items_view(required@) == required_names(ps@.take(i as int)),
            decreases ps@.len() - i,
        {
            let p = &ps[i];
            let mut schema: Vec<(String, JsonValue)> = Vec::new();
            schema.push(("type".to_owned(), json_str(p.ptype)));
            match p.description {
                Some(d) => {
                    schema.push(("description".to_owned(), json_str(d)));
                },
                None => {},
            }
            proof {
                lemma_members_view(schema@);
                assert(members_view(schema@) =~= seq![("type"@, Json::Str(p.ptype@))] + match p.description {
                    Some(d) => seq![("description"@, Json::Str(d@))],
                    None => Seq::<(Seq<char>, Json)>::empty(),
                });
            }
            let entry = (p.name.to_owned(), JsonValue::Object(schema));
            assert(entry.1@ == Json::Object(members_view(schema@)));
            assert(entry.1@ == parameter_schema(ps@[i as int]));
            properties.push(entry);
            let ghost before = required@;
            if p.is_required {
                required.push(json_str(p.name));
            }
            proof {
                assert(ps@.take(i + 1).drop_last() =~= ps@.take(i as int));
                assert(ps@.take(i + 1).last() == ps@[i as int]);
                if p.is_required {
                    assert(required@ =~= before.push(required@.last()));
                    assert(required@.drop_last() =~= before);
                }
            }
            i = i + 1;
        }
        let mut parameters: Vec<(String, JsonValue)> = Vec::new();
        parameters.push(("type".to_owned(), json_str("object")));
        parameters.push(("properties".to_owned(), JsonValue::Object(properties)));
        parameters.push(("required".to_owned(), JsonValue::Array(required)));
        let mut function: Vec<(String, JsonValue)> = Vec::new();
        function.push(("name".to_owned(), json_str(self.name)));
        match self.description {
            Some(d) => {
                function.push(("description".to_owned(), json_str(d)));
            },
            None => {},
        }
        function.push(("parameters".to_owned(), JsonValue::Object(parameters)));
        let mut tool: Vec<(String, JsonValue)> = Vec::new();
        tool.push(("type".to_owned(), json_str("function")));
        tool.push(("function".to_owned(), JsonValue::Object(function)));
        let r = JsonValue::Object(tool);
        proof {
            lemma_members_view(properties@);
            lemma_members_view(parameters@);
            lemma_members_view(function@);
            lemma_members_view(tool@);
            assert(ps@.take(ps@.len() as int) =~= ps@);
            assert(members_view(properties@) =~= ps@.map_values(
                |p: ToolParameter| (p.name@, parameter_schema(p)),
            ));
            assert(members_view(parameters@) =~= seq![
                ("type"@, Json::Str("object"@)),
                ("properties"@, Json::Object(members_view(properties@))),
                ("required"@, Json::Array(required_names(ps@))),
            ]);
            assert(members_view(function@) =~= seq![("name"@, Json::Str(self.name@))] + match self.description {
                Some(d) => seq![("description"@, Json::Str(d@))],
                None => Seq::<(Seq<char>, Json)>::empty(),
            } + seq![("parameters"@, Json::Object(members_view(parameters@)))]);
            assert(members_view(tool@) =~= seq![
                ("type"@, Json::Str("function"@)),
                ("function"@, Json::Object(members_view(function@))),
            ]);
        }
        r
    }
}

/// `p` is a required parameter with the given name, type and description.
pub open spec fn parameter_is(
    p: ToolParameter,
    name: Seq<char>,
    ptype: Seq<char>,
    description: Option<Seq<char>>,
) -> bool {
    &&& p.name@ == name
    &&& p.ptype@ == ptype
    &&& opt_str_view(p.description) == description
    &&& p.is_required
}

/// The tools offered to the model: `Shell`, `FindInFile`, `ReadLines` and
/// `EditFile`, in this order, with their parameters.
pub fn tool_definitions() -> (r: Vec<ToolDefinition>)
    ensures
        r@.len() == 4,
        r@[0].name@ == "Shell"@,
        opt_str_view(r@[0].description) == Some(
            "Run a shell/terminal command. Shell state is not preserved between calls of this tool. So, you may need to prepend any required directory changes or virtualenv activations at the beginning of each command with a &&"@,
        ),
        r@[0].parameters@.len() == 1,
        parameter_is(
            r@[0].parameters@[0],
            "command"@,
            "string"@,
            Some("Command to run in the default OS shell."@),
        ),
        r@[1].name@ == "FindInFile"@,
        opt_str_view(r@[1].description) == Some(
            "Find file contents (for text/code files). Will return snippet and line number. Search is fuzzy and whitespace agnostic."@,
        ),
        r@[1].parameters@.len() == 2,
        parameter_is(r@[1].parameters@[0], "file"@, "string"@, None),
        parameter_is(
            r@[1].parameters@[1],
            "search_string"@,
            "string"@,
            Some("Content to search for (either a semantic description or an exact snippet)"@),
        ),
        r@[2].name@ == "ReadLines"@,
        opt_str_view(r@[2].description) == Some(
            "Read file contents from line until line (for text/code files)."@,
        ),
        r@[2].parameters@.len() == 3,
        parameter_is(r@[2].parameters@[0], "file"@, "string"@, None),
        parameter_is(r@[2].parameters@[1], "line_from"@, "number"@, None),
        parameter_is(r@[2].parameters@[2], "line_to"@, "number"@, None),
        r@[3].name@ == "EditFile"@,
        opt_str_view(r@[3].description) == Some(
            "Replace from `line_from`, up to and including `line_to` with `content`."@,
        ),
        r@[3].parameters@.len() == 4,
        parameter_is(r@[3].parameters@[0], "file"@, "string"@, None),
        parameter_is(r@[3].parameters@[1], "line_from"@, "number"@, None),
        parameter_is(r@[3].parameters@[2], "line_to"@, "number"@, None),
        parameter_is(r@[3].parameters@[3], "content"@, "string"@, None),
{
    let mut shell_params: Vec<ToolParameter> = Vec::new();
    shell_params.push(
        ToolParameter::string("command").add_description("Command to run in the default OS shell."),
    );
    let mut find_params: Vec<ToolParameter> = Vec::new();
    find_params.push(ToolParameter::string("file"));
    find_params.push(
        ToolParameter::string("search_string").add_description(
            "Content to search for (either a semantic description or an exact snippet)",
        ),
    );
    let mut read_params: Vec<ToolParameter> = Vec::new();
    read_params.push(ToolParameter::string("file"));
    read_params.push(ToolParameter::number("line_from"));
    read_params.push(ToolParameter::number("line_to"));
    let mut edit_params: Vec<ToolParameter> = Vec::new();
    edit_params.push(ToolParameter::string("file"));
    edit_params.push(ToolParameter::number("line_from"));
    edit_params.push(ToolParameter::number("line_to"));
    edit_params.push(ToolParameter::string("content"));
    let mut r: Vec<ToolDefinition> = Vec::new();
    r.push(
        ToolDefinition {
            name: "Shell",
            description: Some(
                "Run a shell/terminal command. Shell state is not preserved between calls of this tool. So, you may need to prepend any required directory changes or virtualenv activations at the beginning of each command with a &&",
            ),
            parameters: shell_params,
        },
    );
    r.push(
        ToolDefinition {
            name: "FindInFile",
            description: Some(
                "Find file contents (for text/code files). Will return snippet and line number. Search is fuzzy and whitespace agnostic.",
            ),
            parameters: find_params,
        },
    );
    r.push(
        ToolDefinition {
            name: "ReadLines",
            description: Some("Read file contents from line until line (for text/code files)."),
            parameters: read_params,
        },
    );
    r.push(
        ToolDefinition {
            name: "EditFile",
            description: Some(
                "Replace from `line_from`, up to and including `line_to` with `content`.",
            ),
            parameters: edit_params,
        },
    );
    r
}

/// The index of the first tool named `tool_name`, if there is one.
pub fn find_tool(tool_name: &str, definitions: &[ToolDefinition]) -> (r: Option<usize>)
    ensures
        match r {
            Some(i) => i < definitions@.len() && definitions@[i as int].name@ == tool_name@
                && forall|k: int| 0 <= k < i ==> #[trigger] definitions@[k].name@ != tool_name@,
            None => forall|k: int|
                0 <= k < definitions@.len() ==> #[trigger] definitions@[k].name@ != tool_name@,
        },
{
    let mut i: usize = 0;
    while i < definitions.len()
        invariant
            i <= definitions@.len(),
            forall|k: int| 0 <= k < i ==> #[trigger] definitions@[k].name@ != tool_name@,
        decreases definitions@.len() - i,
    {
        if str_eq(definitions[i].name, tool_name) {
            return Some(i);
        }
        i = i + 1;
    }
    None
}

/// What a tool call answers when the tool failed with `err`.
pub fn tool_error_text(err: &str) -> (r: String)
    ensures
        r@ == "Tool error: "@ + err@,
{
    let mut r = "Tool error: ".to_owned();
    r.append(err);
    r
}

/// What a call of an unknown tool is answered.
pub fn tool_not_found_text(tool_name: &str) -> (r: String)
    ensures
        r@ == "Tool \""@ + tool_name@ + "\" not found!"@,
{
    let mut r = "Tool \"".to_owned();
    r.append(tool_name);
    r.append("\" not found!");
    r
}

/// The message of a missing argument.
pub open spec fn missing_arg_text(argname: Seq<char>) -> Seq<char> {
    "Missing "@ + argname + " argument"@
}

/// The message of an argument of the wrong kind.
pub open spec fn not_string_arg_text(argname: Seq<char>) -> Seq<char> {
    argname + " argument is not string"@
}

/// The string argument `argname` of a tool's JSON arguments.
pub open spec fn string_arg(args: Json, argname: Seq<char>) -> Result<Seq<char>, Seq<char>> {
    match json_get(args, argname) {
        None => Err(missing_arg_text(argname)),
        Some(v) => match json_as_str(v) {
            Some(s) => Ok(s),
            None => Err(not_string_arg_text(argname)),
        },
    }
}

/// The integer argument `argname` of a tool's JSON arguments. (A value that
/// is no integer is reported with the same words as one that is no string.)
pub open spec fn i64_arg(args: Json, argname: Seq<char>) -> Result<i64, Seq<char>> {
    match json_get(args, argname) {
        None => Err(missing_arg_text(argname)),
        Some(v) => match json_as_i64(v) {
            Some(n) => Ok(n),
            None => Err(not_string_arg_text(argname)),
        },
    }
}

fn missing_arg(argname: &str) -> (r: String)
    ensures
        r@ == missing_arg_text(argname@),
{
    let mut r = "Missing ".to_owned();
    r.append(argname);
    r.append(" argument");
    r
}

fn not_string_arg(argname: &str) -> (r: String)
    ensures
        r@ == not_string_arg_text(argname@),
{
    let mut r = argname.to_owned();
    r.append(" argument is not string");
    r
}

/// Reads a string argument.
pub fn get_string<'a>(json: &'a JsonValue, argname: &str) -> (r: Result<&'a str, String>)
    ensures
        match r {
            Ok(s) => string_arg(json@, argname@) == Ok::<Seq<char>, Seq<char>>(s@),
            Err(e) => string_arg(json@, argname@) == Err::<Seq<char>, Seq<char>>(e@),
        },
{
    match json.get(argname) {
        None => Err(missing_arg(argname)),
        Some(v) => match v.as_str() {
            Some(s) => Ok(s),
            None => Err(not_string_arg(argname)),
        },
    }
}

/// Reads an integer argument.
pub fn get_i64(json: &JsonValue, argname: &str) -> (r: Result<i64, String>)
    ensures
        match r {
            Ok(n) => i64_arg(json@, argname@) == Ok::<i64, Seq<char>>(n),
            Err(e) => i64_arg(json@, argname@) == Err::<i64, Seq<char>>(e@),
        },
{
    match json.get(argname) {
        None => Err(missing_arg(argname)),
        Some(v) => match v.as_i64() {
            Some(n) => Ok(n),
            None => Err(not_string_arg(argname)),
        },
    }
}

/// The command that the `Shell` tool runs, read from its JSON arguments.
pub open spec fn shell_command_spec(args: Json) -> Result<Seq<char>, Seq<char>> {
    match json_get(args, "command"@) {
        None => Err("Couldn't parse JSON"@),
        Some(v) => match json_as_str(v) {
            Some(s) => Ok(s),
            None => Err("Command argument is not string"@),
        },
    }
}

/// Reads the command of the `Shell` tool from its JSON arguments.
pub fn shell_command(args: &JsonValue) -> (r: Result<String, String>)
    ensures
        match r {
            Ok(c) => shell_command_spec(args@) == Ok::<Seq<char>, Seq<char>>(c@),
            Err(e) => shell_command_spec(args@) == Err::<Seq<char>, Seq<char>>(e@),
        },
{
    match args.get("command") {
        None => Err("Couldn't parse JSON".to_owned()),
        Some(v) => match v.as_str() {
            Some(s) => Ok(s.to_owned()),
            None => Err("Command argument is not string".to_owned()),
        },
    }
}

/// The arguments of the `FindInFile` tool.
pub struct FindArgs {
    pub file: String,
    pub search_string: String,
}

/// The arguments of the `ReadLines` tool.
pub struct LineRangeArgs {
    pub file: String,
    pub line_from: i64,
    pub line_to: i64,
}

/// The arguments of the `EditFile` tool.
pub struct EditArgs {
    pub file: String,
    pub line_from: i64,
    pub line_to: i64,
    pub content: String,
}

/// The first error among the arguments `file` and `search_string`, or their
/// values.
pub open spec fn find_args_spec(args: Json) -> Result<(Seq<char>, Seq<char>), Seq<char>> {
    match string_arg(args, "file"@) {
        Err(e) => Err(e),
        Ok(file) => match string_arg(args, "search_string"@) {
            Err(e) => Err(e),
            Ok(search) => Ok((file, search)),
        },
    }
}

/// The first error among the arguments `file`, `line_from` and `line_to`,
/// or their values.
pub open spec fn line_range_args_spec(args: Json) -> Result<(Seq<char>, i64, i64), Seq<char>> {
    match string_arg(args, "file"@) {
        Err(e) => Err(e),
        Ok(file) => match i64_arg(args, "line_from"@) {
            Err(e) => Err(e),
            Ok(from) => match i64_arg(args, "line_to"@) {
                Err(e) => Err(e),
                Ok(to) => Ok((file, from, to)),
            },
        },
    }
}

/// The first error among the arguments `file`, `line_from`, `line_to` and
/// `content`, or their values.
pub open spec fn edit_args_spec(args: Json) -> Result<(Seq<char>, i64, i64, Seq<char>), Seq<char>> {
    match line_range_args_spec(args) {
        Err(e) => Err(e),
        Ok((file, from, to)) => match string_arg(args, "content"@) {
            Err(e) => Err(e),
            Ok(content) => Ok((file, from, to, content)),
        },
    }
}

/// The `Shell` arguments are read where the member `command` is a string,
/// and the command read is that string.
pub proof fn lemma_shell_command_members(args: Json)
    ensures
        shell_command_spec(args) is Ok <==> json_as_str(json_field(args, "command"@)) is Some,
        shell_command_spec(args) matches Ok(command) ==> json_as_str(json_field(args, "command"@))
            == Some(command),
{
}

/// The `FindInFile` arguments are read exactly where the members `file` and
/// `search_string` are strings, and what is read is those strings.
pub proof fn lemma_find_args_members(args: Json)
    ensures
        find_args_spec(args) is Ok <==> json_as_str(json_field(args, "file"@)) is Some
            && json_as_str(json_field(args, "search_string"@)) is Some,
        find_args_spec(args) matches Ok((file, search)) ==> json_as_str(json_field(args, "file"@))
            == Some(file) && json_as_str(json_field(args, "search_string"@)) == Some(search),
{
}

/// The `ReadLines` arguments are read exactly where the member `file` is a
/// string and `line_from` and `line_to` are integers that fit in an `i64`,
/// and what is read is those values, each from the member of its own name.
pub proof fn lemma_line_range_args_members(args: Json)
    ensures
        line_range_args_spec(args) is Ok <==> json_as_str(json_field(args, "file"@)) is Some
            && json_as_i64(json_field(args, "line_from"@)) is Some && json_as_i64(
            json_field(args, "line_to"@),
        ) is Some,
        line_range_args_spec(args) matches Ok((file, from, to)) ==> json_as_str(
            json_field(args, "file"@),
        ) == Some(file) && json_as_i64(json_field(args, "line_from"@)) == Some(from) && json_as_i64(
            json_field(args, "line_to"@),
        ) == Some(to),
{
}

/// The `EditFile` arguments are read exactly where the members `file` and
/// `content` are strings and `line_from` and `line_to` are integers that
/// fit in an `i64`, and what is read is those values, each from the member
/// of its own name.
pub proof fn lemma_edit_args_members(args: Json)
    ensures
        edit_args_spec(args) is Ok <==> json_as_str(json_field(args, "file"@)) is Some
            && json_as_i64(json_field(args, "line_from"@)) is Some && json_as_i64(
            json_field(args, "line_to"@),
        ) is Some && json_as_str(json_field(args, "content"@)) is Some,
        edit_args_spec(args) matches Ok((file, from, to, content)) ==> json_as_str(
            json_field(args, "file"@),
        ) == Some(file) && json_as_i64(json_field(args, "line_from"@)) == Some(from) && json_as_i64(
            json_field(args, "line_to"@),
        ) == Some(to) && json_as_str(json_field(args, "content"@)) == Some(content),
{
}

/// Reads the arguments of the `FindInFile` tool.
pub fn find_args(args: &JsonValue) -> (r: Result<FindArgs, String>)
    ensures
        match r {
            Ok(a) => find_args_spec(args@) == Ok::<(Seq<char>, Seq<char>), Seq<char>>(
                (a.file@, a.search_string@),
            ),
            Err(e) => find_args_spec(args@) == Err::<(Seq<char>, Seq<char>), Seq<char>>(e@),
        },
{
    let file = match get_string(args, "file") {
        Ok(s) => s,
        Err(e) => {
            return Err(e);
        },
    };
    let search = match get_string(args, "search_string") {
        Ok(s) => s,
        Err(e) => {
            return Err(e);
        },
    };
    Ok(FindArgs { file: file.to_owned(), search_string: search.to_owned() })
}

/// Reads the arguments of the `ReadLines` tool.
pub fn line_range_args(args: &JsonValue) -> (r: Result<LineRangeArgs, String>)
    ensures
        match r {
            Ok(a) => line_range_args_spec(args@) == Ok::<(Seq<char>, i64, i64), Seq<char>>(
                (a.file@, a.line_from, a.line_to),
            ),
            Err(e) => line_range_args_spec(args@) == Err::<(Seq<char>, i64, i64), Seq<char>>(
                e@,
            ),
        },
{
    let file = match get_string(args, "file") {
        Ok(s) => s,
        Err(e) => {
            return Err(e);
        },
    };
    let line_from = match get_i64(args, "line_from") {
        Ok(n) => n,
        Err(e) => {
            return Err(e);
        },
    };
    let line_to = match get_i64(args, "line_to") {
        Ok(n) => n,
        Err(e) => {
            return Err(e);
        },
    };
    Ok(LineRangeArgs { file: file.to_owned(), line_from, line_to })
}

/// Reads the arguments of the `EditFile` tool.
pub fn edit_args(args: &JsonValue) -> (r: Result<EditArgs, String>)
    ensures
        match r {
            Ok(a) => edit_args_spec(args@) == Ok::<(Seq<char>, i64, i64, Seq<char>), Seq<char>>(
                (a.file@, a.line_from, a.line_to, a.content@),
            ),
            Err(e) => edit_args_spec(args@) == Err::<
                (Seq<char>, i64, i64, Seq<char>),
                Seq<char>,
            >(e@),
        },
{
    let range = match line_range_args(args) {
        Ok(a) => a,
        Err(e) => {
            return Err(e);
        },
    };
    let content = match get_string(args, "content") {
        Ok(s) => s,
        Err(e) => {
            return Err(e);
        },
    };
    Ok(
        EditArgs {
            file: range.file,
            line_from: range.line_from,
            line_to: range.line_to,
            content: content.to_owned(),
        },
    )
}

/// What a tool answers whose arguments are no JSON.
pub open spec fn bad_json_text() -> Seq<char> {
    "Couldn't parse JSON"@
}

/// The command of the `Shell` tool, read from the text of its arguments.
pub fn shell_args(args: &str) -> (r: Result<String, String>)
    ensures
        match json_of_text(args@) {
            None => r matches Err(e) && e@ == bad_json_text(),
            Some(j) => match r {
                Ok(c) => shell_command_spec(j) == Ok::<Seq<char>, Seq<char>>(c@),
                Err(e) => shell_command_spec(j) == Err::<Seq<char>, Seq<char>>(e@),
            },
        },
{
    match parse_json(args) {
        None => Err("Couldn't parse JSON".to_owned()),
        Some(v) => shell_command(&v),
    }
}

/// The arguments of the `FindInFile` tool, read from their text.
pub fn find_in_file_args(args: &str) -> (r: Result<FindArgs, String>)
    ensures
        match json_of_text(args@) {
            None => r matches Err(e) && e@ == bad_json_text(),
            Some(j) => match r {
                Ok(a) => find_args_spec(j) == Ok::<(Seq<char>, Seq<char>), Seq<char>>(
                    (a.file@, a.search_string@),
                ),
                Err(e) => find_args_spec(j) == Err::<(Seq<char>, Seq<char>), Seq<char>>(e@),
            },
        },
{
    match parse_json(args) {
        None => Err("Couldn't parse JSON".to_owned()),
        Some(v) => find_args(&v),
    }
}

/// The arguments of the `ReadLines` tool, read from their text.
pub fn read_lines_args(args: &str) -> (r: Result<LineRangeArgs, String>)
    ensures
        match json_of_text(args@) {
            None => r matches Err(e) && e@ == bad_json_text(),
            Some(j) => match r {
                Ok(a) => line_range_args_spec(j) == Ok::<(Seq<char>, i64, i64), Seq<char>>(
                    (a.file@, a.line_from, a.line_to),
                ),
                Err(e) => line_range_args_spec(j) == Err::<(Seq<char>, i64, i64), Seq<char>>(
                    e@,
                ),
            },
        },
{
    match parse_json(args) {
        None => Err("Couldn't parse JSON".to_owned()),
        Some(v) => line_range_args(&v),
    }
}

/// The arguments of the `EditFile` tool, read from their text.
pub fn edit_file_args(args: &str) -> (r: Result<EditArgs, String>)
    ensures
        match json_of_text(args@) {
            None => r matches Err(e) && e@ == bad_json_text(),
            Some(j) => match r {
                Ok(a) => edit_args_spec(j) == Ok::<(Seq<char>, i64, i64, Seq<char>), Seq<char>>(
                    (a.file@, a.line_from, a.line_to, a.content@),
                ),
                Err(e) => edit_args_spec(j) == Err::<
                    (Seq<char>, i64, i64, Seq<char>),
                    Seq<char>,
                >(e@),
            },
        },
{
    match parse_json(args) {
        None => Err("Couldn't parse JSON".to_owned()),
        Some(v) => edit_args(&v),
    }
}

} // verus!
