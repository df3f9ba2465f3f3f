use vstd::prelude::*;

verus! {

broadcast use vstd::std_specs::vec::group_vec_axioms;

/// A JSON number as serde_json keeps it: a non-negative integer, a negative
/// integer, or a float (kept as its decimal text).
#[derive(Debug)]
pub enum JsonNumber {
    PosInt(u64),
    NegInt(i64),
    Float(String),
}

/// A JSON document. Object members keep the order in which they were added.
#[derive(Debug)]
pub enum JsonValue {
    Null,
    Bool(bool),
    Number(JsonNumber),
    String(String),
    Array(Vec<JsonValue>),
    Object(Vec<(String, JsonValue)>),
}

/// The mathematical model of a JSON number.
pub enum Num {
    PosInt(u64),
    NegInt(i64),
    Float(Seq<char>),
}

/// The mathematical model of a JSON document.
pub enum Json {
    Null,
    Bool(bool),
    Number(Num),
    Str(Seq<char>),
    Array(Seq<Json>),
    Object(Seq<(Seq<char>, Json)>),
}

impl View for JsonNumber {
    type V = Num;

    open spec fn view(&self) -> Num {
        match self {
            JsonNumber::PosInt(n) => Num::PosInt(*n),
            JsonNumber::NegInt(n) => Num::NegInt(*n),
            JsonNumber::Float(s) => Num::Float(s@),
        }
    }
}

/// The models of the elements of an array.
pub open spec fn items_view(items: Seq<JsonValue>) -> Seq<Json>
    decreases items,
{
    if items.len() == 0 {
        Seq::empty()
    } else {
        items_view(items.drop_last()).push(items.last().view())
    }
}

/// The names and models of the members of an object.
pub open spec fn members_view(members: Seq<(String, JsonValue)>) -> Seq<(Seq<char>, Json)>
    decreases members,
{
    if members.len() == 0 {
        Seq::empty()
    } else {
        members_view(members.drop_last()).push((members.last().0@, members.last().1.view()))
    }
}

impl View for JsonValue {
    type V = Json;

    open spec fn view(&self) -> Json
        decreases self,
    {
        match self {
            JsonValue::Null => Json::Null,
            JsonValue::Bool(b) => Json::Bool(*b),
            JsonValue::Number(n) => Json::Number(n@),
            JsonValue::String(s) => Json::Str(s@),
            JsonValue::Array(items) => Json::Array(items_view(items@)),
            JsonValue::Object(members) => Json::Object(members_view(members@)),
        }
    }
}


/// `items_view` keeps the length and views each element.
pub proof fn lemma_items_view(items: Seq<JsonValue>)
    ensures
        items_view(items).len() == items.len(),
        forall|i: int| 0 <= i < items.len() ==> #[trigger] items_view(items)[i] == items[i]@,
    decreases items.len(),
{
    if items.len() > 0 {
        lemma_items_view(items.drop_last());
        assert(items_view(items) == items_view(items.drop_last()).push(items.last().view()));
    } else {
        assert(items_view(items) == Seq::<Json>::empty());
    }
}

/// `members_view` keeps the length and views each member.
pub proof fn lemma_members_view(members: Seq<(String, JsonValue)>)
    ensures
        members_view(members).len() == members.len(),
        forall|i: int|
            0 <= i < members.len() ==> #[trigger] members_view(members)[i] == (
                members[i].0@,
                members[i].1@,
            ),
    decreases members.len(),
{
    if members.len() > 0 {
        lemma_members_view(members.drop_last());
        assert(members_view(members) == members_view(members.drop_last()).push(
            (members.last().0@, members.last().1.view()),
        ));
    } else {
        assert(members_view(members) == Seq::<(Seq<char>, Json)>::empty());
    }
}

/// The value of the last member named `key`, as a serde_json map that is
/// filled member by member keeps it.
pub open spec fn member_lookup(members: Seq<(Seq<char>, Json)>, key: Seq<char>) -> Option<Json>
    decreases members.len(),
{
    if members.len() == 0 {
        None
    } else if members.last().0 == key {
        Some(members.last().1)
    } else {
        member_lookup(members.drop_last(), key)
    }
}

/// Looking up a name that one member holds and no other gives that
/// member's value; looking up a name that no member holds gives nothing.
pub proof fn lemma_member_lookup(members: Seq<(Seq<char>, Json)>, key: Seq<char>)
    ensures
        (forall|j: int| 0 <= j < members.len() ==> (#[trigger] members[j]).0 != key)
            ==> member_lookup(members, key) is None,
        forall|i: int|
            0 <= i < members.len() && (#[trigger] members[i]).0 == key && (forall|j: int|
                0 <= j < members.len() && j != i ==> (#[trigger] members[j]).0 != key)
                ==> member_lookup(members, key) == Some(members[i].1),
    decreases members.len(),
{
    if members.len() > 0 {
        let rest = members.drop_last();
        lemma_member_lookup(rest, key);
        assert forall|j: int| 0 <= j < rest.len() implies rest[j] == members[j] by {}
    }
}

/// Looking a name up in members followed by more members finds it among the
/// later ones first.
pub proof fn lemma_member_lookup_append(
    a: Seq<(Seq<char>, Json)>,
    b: Seq<(Seq<char>, Json)>,
    key: Seq<char>,
)
    ensures
        member_lookup(a + b, key) == match member_lookup(b, key) {
            Some(v) => Some(v),
            None => member_lookup(a, key),
        },
    decreases b.len(),
{
    if b.len() == 0 {
        assert(a + b =~= a);
    } else {
        lemma_member_lookup_append(a, b.drop_last(), key);
        assert((a + b).drop_last() =~= a + b.drop_last());
        assert((a + b).last() == b.last());
    }
}

/// Looking a name up in one member finds its value exactly where the member
/// has that name.
pub proof fn lemma_member_lookup_one(name: Seq<char>, value: Json, key: Seq<char>)
    ensures
        member_lookup(seq![(name, value)], key) == if name == key {
            Some(value)
        } else {
            None::<Json>
        },
{
    let e = Seq::<(Seq<char>, Json)>::empty();
    assert(seq![(name, value)] =~= e.push((name, value)));
    lemma_member_lookup_push(e, name, value, key);
}

/// Looking a name up in members with one more at the end finds that last
/// member where it has the name, and otherwise what the others give.
pub proof fn lemma_member_lookup_push(
    members: Seq<(Seq<char>, Json)>,
    name: Seq<char>,
    value: Json,
    key: Seq<char>,
)
    ensures
        member_lookup(members.push((name, value)), key) == if name == key {
            Some(value)
        } else {
            member_lookup(members, key)
        },
{
    assert(members.push((name, value)).drop_last() =~= members);
}

/// Looking a name up in two members finds the later one that has it.
pub proof fn lemma_member_lookup_two(a: (Seq<char>, Json), b: (Seq<char>, Json), key: Seq<char>)
    ensures
        member_lookup(seq![a, b], key) == if b.0 == key {
            Some(b.1)
        } else if a.0 == key {
            Some(a.1)
        } else {
            None::<Json>
        },
{
    let e = Seq::<(Seq<char>, Json)>::empty();
    assert((a.0, a.1) == a && (b.0, b.1) == b);
    assert(seq![a] =~= e.push(a));
    assert(seq![a, b] =~= seq![a].push(b));
    lemma_member_lookup_push(e, a.0, a.1, key);
    lemma_member_lookup_push(seq![a], b.0, b.1, key);
}

/// Looking a name up in three members finds the last one that has it.
pub proof fn lemma_member_lookup_three(
    a: (Seq<char>, Json),
    b: (Seq<char>, Json),
    c: (Seq<char>, Json),
    key: Seq<char>,
)
    ensures
        member_lookup(seq![a, b, c], key) == if c.0 == key {
            Some(c.1)
        } else if b.0 == key {
            Some(b.1)
        } else if a.0 == key {
            Some(a.1)
        } else {
            None::<Json>
        },
{
    lemma_member_lookup_two(a, b, key);
    assert((c.0, c.1) == c);
    assert(seq![a, b, c] =~= seq![a, b].push(c));
    lemma_member_lookup_push(seq![a, b], c.0, c.1, key);
}

/// `value.get(key)`: a member of an object; nothing for any other value.
pub open spec fn json_get(j: Json, key: Seq<char>) -> Option<Json> {
    match j {
        Json::Object(members) => member_lookup(members, key),
        _ => None,
    }
}

/// `value[key]`: the member, or null where there is none.
pub open spec fn json_field(j: Json, key: Seq<char>) -> Json {
    match json_get(j, key) {
        Some(v) => v,
        None => Json::Null,
    }
}

/// `value[i]`: an element of an array, or null where there is none.
pub open spec fn json_elem(j: Json, i: int) -> Json {
    match j {
        Json::Array(items) => if 0 <= i < items.len() {
            items[i]
        } else {
            Json::Null
        },
        _ => Json::Null,
    }
}

/// `value.as_str()`.
pub open spec fn json_as_str(j: Json) -> Option<Seq<char>> {
    match j {
        Json::Str(s) => Some(s),
        _ => None,
    }
}

/// `value.as_str().unwrap_or_default()`.
pub open spec fn json_str_or_empty(j: Json) -> Seq<char> {
    match j {
        Json::Str(s) => s,
        _ => Seq::empty(),
    }
}

/// `value.as_u64()`.
pub open spec fn json_as_u64(j: Json) -> Option<u64> {
    match j {
        Json::Number(Num::PosInt(n)) => Some(n),
        _ => None,
    }
}

/// `value.as_i64()`.
pub open spec fn json_as_i64(j: Json) -> Option<i64> {
    match j {
        Json::Number(Num::PosInt(n)) => if n <= i64::MAX {
            Some(n as i64)
        } else {
            None
        },
        Json::Number(Num::NegInt(n)) => Some(n),
        _ => None,
    }
}

/// The JSON string whose text is `s`.
pub fn json_str(s: &str) -> (r: JsonValue)
    ensures
        r@ == Json::Str(s@),
{
    JsonValue::String(s.to_owned())
}

impl JsonValue {
    /// The member named `key` of an object (the last one, where several
    /// share the name); `None` for a value that is no object.
    pub fn get(&self, key: &str) -> (r: Option<&JsonValue>)
        ensures
            match r {
                Some(v) => json_get(self@, key@) == Some(v@),
                None => json_get(self@, key@) is None,
            },
    {
        match self {
            JsonValue::Object(members) => {
                let wanted = key.to_owned();
                let ghost mv = members_view(members@);
                proof {
                    lemma_members_view(members@);
                    assert(mv.take(members@.len() as int) =~= mv);
                }
                assert(self@ == Json::Object(mv));
                let mut i = members.len();
                while i > 0
                    invariant
                        i <= members@.len(),
                        mv == members_view(members@),
                        self@ == Json::Object(mv),
                        mv.len() == members@.len(),
                        forall|k: int|
                            0 <= k < members@.len() ==> #[trigger] mv[k] == (
                                members@[k].0@,
                                members@[k].1@,
                            ),
                        wanted@ == key@,
                        member_lookup(mv, key@) == member_lookup(mv.take(i as int), key@),
                    decreases i,
                {
                    let ghost pre = mv.take(i as int);
                    assert(pre.drop_last() =~= mv.take(i - 1));
                    assert(pre.last() == mv[i - 1]);
                    if members[i - 1].0 == wanted {
                        assert(member_lookup(pre, key@) == Some(members@[i - 1].1@));
                        return Some(&members[i - 1].1);
                    }
                    i = i - 1;
                }
                assert(mv.take(0) =~= Seq::<(Seq<char>, Json)>::empty());
                None
            },
            _ => None,
        }
    }

    /// The element at `i` of an array; `None` for a value that is no array
    /// or an index past its end.
    pub fn elem(&self, i: usize) -> (r: Option<&JsonValue>)
        ensures
            match r {
                Some(v) => json_elem(self@, i as int) == v@ && self@ is Array,
                None => json_elem(self@, i as int) == Json::Null,
            },
    {
        match self {
            JsonValue::Array(items) => {
                proof {
                    lemma_items_view(items@);
                }
                if i < items.len() {
                    Some(&items[i])
                } else {
                    None
                }
            },
            _ => None,
        }
    }

    /// The text of a JSON string.
    pub fn as_str(&self) -> (r: Option<&str>)
        ensures
            match r {
                Some(s) => json_as_str(self@) == Some(s@),
                None => json_as_str(self@) is None,
            },
    {
        match self {
            JsonValue::String(s) => Some(s.as_str()),
            _ => None,
        }
    }

    /// A non-negative integer.
    pub fn as_u64(&self) -> (r: Option<u64>)
        ensures
            r == json_as_u64(self@),
    {
        match self {
            JsonValue::Number(JsonNumber::PosInt(n)) => Some(*n),
            _ => None,
        }
    }

    /// An integer that fits in an `i64`.
    pub fn as_i64(&self) -> (r: Option<i64>)
        ensures
            r == json_as_i64(self@),
    {
        match self {
            JsonValue::Number(JsonNumber::PosInt(n)) => {
                if *n <= 9223372036854775807u64 {
                    Some(*n as i64)
                } else {
                    None
                }
            },
            JsonValue::Number(JsonNumber::NegInt(n)) => Some(*n),
            _ => None,
        }
    }
}

/// The value that an optional reference stands for: null where there is none.
pub open spec fn opt_json(o: Option<&JsonValue>) -> Json {
    match o {
        Some(v) => v@,
        None => Json::Null,
    }
}

/// `v.get(key)` where `v` may be missing (missing stands for null).
pub fn member_of<'a>(v: Option<&'a JsonValue>, key: &str) -> (r: Option<&'a JsonValue>)
    ensures
        match r {
            Some(x) => json_get(opt_json(v), key@) == Some(x@),
            None => json_get(opt_json(v), key@) is None,
        },
        opt_json(r) == json_field(opt_json(v), key@),
{
    match v {
        Some(x) => x.get(key),
        None => None,
    }
}

/// `v[i]` where `v` may be missing (missing stands for null); the result is
/// missing where it is null.
pub fn elem_of<'a>(v: Option<&'a JsonValue>, i: usize) -> (r: Option<&'a JsonValue>)
    ensures
        opt_json(r) == json_elem(opt_json(v), i as int),
{
    match v {
        Some(x) => x.elem(i),
        None => None,
    }
}

/// Whether two strings hold the same text.
pub fn str_eq(a: &str, b: &str) -> (r: bool)
    ensures
        r == (a@ == b@),
{
    a.to_owned() == b.to_owned()
}

/// serde_json's JSON value.
#[verifier::external_type_specification]
#[verifier::external_body]
pub struct ExSerdeValue(serde_json::Value);

/// serde_json's JSON number.
#[verifier::external_type_specification]
#[verifier::external_body]
pub struct ExSerdeNumber(serde_json::Number);

/// The library's form of a serde_json number: a non-negative integer, a
/// negative integer, or the text of a float. Trusted as a one-for-one
/// conversion; nothing is stated of it.
#[verifier::external_body]
fn number_from_serde(n: &serde_json::Number) -> JsonNumber {
    match (n.as_u64(), n.as_i64()) {
        (Some(u), _) => JsonNumber::PosInt(u),
        (None, Some(i)) => JsonNumber::NegInt(i),
        (None, None) => JsonNumber::Float(n.to_string()),
    }
}

/// The library's form of a serde_json value, variant by variant. Trusted as
/// a one-for-one conversion; nothing is stated of it.
#[verifier::external_body]
fn json_from_serde(v: &serde_json::Value) -> JsonValue {
    match v {
        serde_json::Value::Null => JsonValue::Null,
        serde_json::Value::Bool(b) => JsonValue::Bool(*b),
        serde_json::Value::Number(n) => JsonValue::Number(number_from_serde(n)),
        serde_json::Value::String(s) => JsonValue::String(s.clone()),
        serde_json::Value::Array(a) => JsonValue::Array(a.iter().map(json_from_serde).collect()),
        serde_json::Value::Object(m) => JsonValue::Object(
            m.iter().map(|(k, x)| (k.clone(), json_from_serde(x))).collect(),
        ),
    }
}

/// serde_json's form of the text of a float (null where serde_json reads no
/// number in it). Trusted as a conversion; nothing is stated of it.
#[verifier::external_body]
fn float_to_serde(text: &String) -> serde_json::Value {
    match text.parse::<serde_json::Number>() {
        Ok(n) => serde_json::Value::Number(n),
        Err(_) => serde_json::Value::Null,
    }
}

/// serde_json's form of a library value, variant by variant; members are
/// inserted in order, so a later member of the same name replaces an
/// earlier one. Trusted as a one-for-one conversion; nothing is stated of it.
#[verifier::external_body]
fn json_to_serde(v: &JsonValue) -> serde_json::Value {
    match v {
        JsonValue::Null => serde_json::Value::Null,
        JsonValue::Bool(b) => serde_json::Value::Bool(*b),
        JsonValue::Number(JsonNumber::PosInt(u)) => serde_json::Value::from(*u),
        JsonValue::Number(JsonNumber::NegInt(i)) => serde_json::Value::from(*i),
        JsonValue::Number(JsonNumber::Float(t)) => float_to_serde(t),
        JsonValue::String(s) => serde_json::Value::String(s.clone()),
        JsonValue::Array(a) => serde_json::Value::Array(a.iter().map(json_to_serde).collect()),
        JsonValue::Object(m) => serde_json::Value::Object(
            m.iter().map(|(k, x)| (k.clone(), json_to_serde(x))).collect(),
        ),
    }
}

/// The JSON document that serde_json reads from a text, if the text is JSON.
pub uninterp spec fn json_of_text(text: Seq<char>) -> Option<Json>;

/// The text that serde_json writes for a JSON document.
pub uninterp spec fn text_of_json(j: Json) -> Seq<char>;

/// Calls `serde_json::from_str` for a `serde_json::Value`. Trusted: the
/// result is the document that serde_json reads from this text, and there is
/// none exactly where serde_json refuses the text; what it reads is named,
/// not stated.
#[verifier::external_body]
pub fn parse_json(text: &str) -> (r: Option<JsonValue>)
    ensures
        match r {
            Some(v) => json_of_text(text@) == Some(v@),
            None => json_of_text(text@) is None,
        },
{
    match serde_json::from_str::<serde_json::Value>(text) {
        Ok(v) => Some(json_from_serde(&v)),
        Err(_) => None,
    }
}

/// Calls `to_string` on a `serde_json::Value` (compact JSON text). Trusted:
/// the text is the one serde_json writes for this document; it is named,
/// not stated.
#[verifier::external_body]
pub fn json_text(v: &JsonValue) -> (r: String)
    ensures
        r@ == text_of_json(v@),
{
    json_to_serde(v).to_string()
}

} // verus!
