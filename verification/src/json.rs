use vstd::prelude::*;

verus! {

/// A JSON number as the protocol carries it: a non-negative integer, a
/// negative integer, or any other number kept in its textual form.
pub enum JsonNumber {
    PosInt(u64),
    NegInt(i64),
    Float(String),
}

/// A JSON value. An object keeps its members in order.
pub enum JsonValue {
    Null,
    Bool(bool),
    Number(JsonNumber),
    Str(String),
    Array(Vec<JsonValue>),
    Object(Vec<(String, JsonValue)>),
}

/// The mathematical model of a JSON number.
pub enum Num {
    PosInt(u64),
    NegInt(i64),
    Float(Seq<char>),
}

/// The mathematical model of a JSON value.
pub enum Json {
    Null,
    Bool(bool),
    Number(Num),
    Str(Seq<char>),
    Array(Seq<Json>),
    Object(Seq<(Seq<char>, Json)>),
}

impl JsonNumber {
    pub open spec fn model(&self) -> Num {
        match self {
            JsonNumber::PosInt(n) => Num::PosInt(*n),
            JsonNumber::NegInt(n) => Num::NegInt(*n),
            JsonNumber::Float(s) => Num::Float(s@),
        }
    }
}

impl JsonValue {
    pub open spec fn model(&self) -> Json
        decreases self, 0nat,
    {
        match self {
            JsonValue::Null => Json::Null,
            JsonValue::Bool(b) => Json::Bool(*b),
            JsonValue::Number(n) => Json::Number(n.model()),
            JsonValue::Str(s) => Json::Str(s@),
            JsonValue::Array(items) => Json::Array(models(items@)),
            JsonValue::Object(fields) => Json::Object(member_models(fields@)),
        }
    }
}

pub open spec fn models(items: Seq<JsonValue>) -> Seq<Json>
    decreases items, 1nat,
{
    if items.len() == 0 {
        Seq::empty()
    } else {
        seq![items[0].model()] + models(items.subrange(1, items.len() as int))
    }
}

pub open spec fn member_models(fields: Seq<(String, JsonValue)>) -> Seq<(Seq<char>, Json)>
    decreases fields, 1nat,
{
    if fields.len() == 0 {
        Seq::empty()
    } else {
        seq![(fields[0].0@, fields[0].1.model())] + member_models(
            fields.subrange(1, fields.len() as int),
        )
    }
}


// ---------------------------------------------------------------------------
// Reading values
// ---------------------------------------------------------------------------

/// The value of the first member named `key`.
pub open spec fn member(fields: Seq<(Seq<char>, Json)>, key: Seq<char>) -> Option<Json>
    decreases fields.len(),
{
    if fields.len() == 0 {
        None
    } else if fields[0].0 == key {
        Some(fields[0].1)
    } else {
        member(fields.drop_first(), key)
    }
}

/// The member `key` of an object; nothing for any other value.
pub open spec fn json_get(j: Json, key: Seq<char>) -> Option<Json> {
    match j {
        Json::Object(fields) => member(fields, key),
        _ => None,
    }
}

/// The member `key` of a value that may be missing.
pub open spec fn json_get_in(j: Option<Json>, key: Seq<char>) -> Option<Json> {
    match j {
        Some(v) => json_get(v, key),
        None => None,
    }
}

/// The text of a string value.
pub open spec fn json_str(j: Option<Json>) -> Option<Seq<char>> {
    match j {
        Some(Json::Str(s)) => Some(s),
        _ => None,
    }
}

/// A number that is a non-negative integer.
pub open spec fn json_u64(j: Option<Json>) -> Option<u64> {
    match j {
        Some(Json::Number(Num::PosInt(n))) => Some(n),
        _ => None,
    }
}

/// A boolean value.
pub open spec fn json_bool(j: Option<Json>) -> Option<bool> {
    match j {
        Some(Json::Bool(b)) => Some(b),
        _ => None,
    }
}

/// The items of an array value.
pub open spec fn json_array(j: Option<Json>) -> Option<Seq<Json>> {
    match j {
        Some(Json::Array(items)) => Some(items),
        _ => None,
    }
}

pub proof fn lemma_models_index(items: Seq<JsonValue>)
    ensures
        models(items).len() == items.len(),
        forall|k: int| 0 <= k < items.len() ==> #[trigger] models(items)[k] == items[k].model(),
    decreases items.len(),
{
    if items.len() > 0 {
        let rest = items.subrange(1, items.len() as int);
        lemma_models_index(rest);
        assert forall|k: int| 0 <= k < items.len() implies #[trigger] models(items)[k]
            == items[k].model() by {
            if k > 0 {
                assert(models(items)[k] == models(rest)[k - 1]);
                assert(rest[k - 1] == items[k]);
            }
        }
    }
}

pub proof fn lemma_member_models_index(fields: Seq<(String, JsonValue)>)
    ensures
        member_models(fields).len() == fields.len(),
        forall|k: int|
            0 <= k < fields.len() ==> #[trigger] member_models(fields)[k] == (
                fields[k].0@,
                fields[k].1.model(),
            ),
    decreases fields.len(),
{
    if fields.len() > 0 {
        let rest = fields.subrange(1, fields.len() as int);
        lemma_member_models_index(rest);
        assert forall|k: int| 0 <= k < fields.len() implies #[trigger] member_models(fields)[k]
            == (fields[k].0@, fields[k].1.model()) by {
            if k > 0 {
                assert(member_models(fields)[k] == member_models(rest)[k - 1]);
                assert(rest[k - 1] == fields[k]);
            }
        }
    }
}

proof fn lemma_member_found(fields: Seq<(Seq<char>, Json)>, key: Seq<char>, i: int)
    requires
        0 <= i < fields.len(),
        fields[i].0 == key,
        forall|k: int| 0 <= k < i ==> fields[k].0 != key,
    ensures
        member(fields, key) == Some(fields[i].1),
    decreases i,
{
    if i > 0 {
        lemma_member_found(fields.drop_first(), key, i - 1);
    }
}

proof fn lemma_member_absent(fields: Seq<(Seq<char>, Json)>, key: Seq<char>)
    requires
        forall|k: int| 0 <= k < fields.len() ==> fields[k].0 != key,
    ensures
        member(fields, key) is None,
    decreases fields.len(),
{
    if fields.len() > 0 {
        lemma_member_absent(fields.drop_first(), key);
    }
}

impl JsonValue {
    /// The member `key` of an object; `None` for any other value.
    pub fn get(&self, key: &str) -> (r: Option<&JsonValue>)
        ensures
            r is Some == json_get(self.model(), key@) is Some,
            r is Some ==> json_get(self.model(), key@) == Some(r->0.model()),
    {
        match self {
            JsonValue::Object(fields) => {
                let wanted = String::from_str(key);
                let ghost mm = member_models(fields@);
                proof {
                    lemma_member_models_index(fields@);
                }
                let mut i: usize = 0;
                while i < fields.len()
                    invariant
                        i <= fields.len(),
                        mm == member_models(fields@),
                        json_get(self.model(), key@) == member(mm, key@),
                        mm.len() == fields.len(),
                        wanted@ == key@,
                        forall|k: int| 0 <= k < i ==> mm[k].0 != key@,
                        forall|k: int|
                            0 <= k < fields.len() ==> #[trigger] mm[k] == (
                                fields@[k].0@,
                                fields@[k].1.model(),
                            ),
                    decreases fields.len() - i,
                {
                    if fields[i].0 == wanted {
                        proof {
                            lemma_member_found(mm, key@, i as int);
                        }
                        return Some(&fields[i].1);
                    }
                    i = i + 1;
                }
                proof {
                    lemma_member_absent(mm, key@);
                }
                None
            },
            _ => None,
        }
    }

    /// The text of a string value.
    pub fn as_str(&self) -> (r: Option<&String>)
        ensures
            r is Some == json_str(Some(self.model())) is Some,
            r is Some ==> json_str(Some(self.model())) == Some(r->0@),
    {
        match self {
            JsonValue::Str(s) => Some(s),
            _ => None,
        }
    }

    /// A number that is a non-negative integer.
    pub fn as_u64(&self) -> (r: Option<u64>)
        ensures
            r == json_u64(Some(self.model())),
    {
        match self {
            JsonValue::Number(JsonNumber::PosInt(n)) => Some(*n),
            _ => None,
        }
    }

    /// A boolean value.
    pub fn as_bool(&self) -> (r: Option<bool>)
        ensures
            r == json_bool(Some(self.model())),
    {
        match self {
            JsonValue::Bool(b) => Some(*b),
            _ => None,
        }
    }

    /// The items of an array value.
    pub fn as_array(&self) -> (r: Option<&Vec<JsonValue>>)
        ensures
            r is Some == json_array(Some(self.model())) is Some,
            r is Some ==> json_array(Some(self.model())) == Some(models(r->0@)),
    {
        match self {
            JsonValue::Array(items) => Some(items),
            _ => None,
        }
    }
}


// ---------------------------------------------------------------------------
// Building values
// ---------------------------------------------------------------------------

impl JsonNumber {
    /// A copy of this number.
    pub fn duplicate(&self) -> (r: JsonNumber)
        ensures
            r.model() == self.model(),
    {
        match self {
            JsonNumber::PosInt(n) => JsonNumber::PosInt(*n),
            JsonNumber::NegInt(n) => JsonNumber::NegInt(*n),
            JsonNumber::Float(s) => JsonNumber::Float(s.clone()),
        }
    }
}

impl JsonValue {
    /// A copy of this value.
    pub fn duplicate(&self) -> (r: JsonValue)
        ensures
            r.model() == self.model(),
        decreases self,
    {
        match self {
            JsonValue::Null => JsonValue::Null,
            JsonValue::Bool(b) => JsonValue::Bool(*b),
            JsonValue::Number(n) => JsonValue::Number(n.duplicate()),
            JsonValue::Str(s) => JsonValue::Str(s.clone()),
            JsonValue::Array(items) => {
                let mut out: Vec<JsonValue> = Vec::new();
                let mut i: usize = 0;
                while i < items.len()
                    invariant
                        i <= items.len(),
                        out@.len() == i,
                        *self == JsonValue::Array(*items),
                        forall|k: int| 0 <= k < i ==> #[trigger] out@[k].model() == items@[k].model(),
                    decreases items.len() - i,
                {
                    assert(decreases_to!(*self => self->Array_0));
                    assert(decreases_to!(*items => items@));
                    assert(decreases_to!(items@ => items@[i as int]));
                    assert(decreases_to!(self => items@[i as int]));
                    let item = items[i].duplicate();
                    out.push(item);
                    i = i + 1;
                }
                proof {
                    lemma_models_index(out@);
                    lemma_models_index(items@);
                    assert(models(out@) =~= models(items@));
                }
                JsonValue::Array(out)
            },
            JsonValue::Object(fields) => {
                let mut out: Vec<(String, JsonValue)> = Vec::new();
                let mut i: usize = 0;
                while i < fields.len()
                    invariant
                        i <= fields.len(),
                        out@.len() == i,
                        *self == JsonValue::Object(*fields),
                        forall|k: int|
                            0 <= k < i ==> (#[trigger] out@[k]).0@ == fields@[k].0@ && out@[k].1.model()
                                == fields@[k].1.model(),
                    decreases fields.len() - i,
                {
                    assert(decreases_to!(*self => self->Object_0));
                    assert(decreases_to!(*fields => fields@));
                    assert(decreases_to!(fields@ => fields@[i as int]));
                    assert(decreases_to!(fields@[i as int] => fields@[i as int].1));
                    assert(decreases_to!(self => fields@[i as int].1));
                    let value = fields[i].1.duplicate();
                    out.push((fields[i].0.clone(), value));
                    i = i + 1;
                }
                proof {
                    lemma_member_models_index(out@);
                    lemma_member_models_index(fields@);
                    assert(member_models(out@) =~= member_models(fields@));
                }
                JsonValue::Object(out)
            },
        }
    }
}

/// A string value.
pub fn json_string(s: &str) -> (r: JsonValue)
    ensures
        r.model() == Json::Str(s@),
{
    JsonValue::Str(String::from_str(s))
}

/// A non-negative integer value.
pub fn json_uint(n: u64) -> (r: JsonValue)
    ensures
        r.model() == Json::Number(Num::PosInt(n)),
{
    JsonValue::Number(JsonNumber::PosInt(n))
}

/// An object with the given members, in order.
pub fn json_object(fields: Vec<(String, JsonValue)>) -> (r: JsonValue)
    ensures
        r.model() == Json::Object(member_models(fields@)),
{
    JsonValue::Object(fields)
}

/// A member named `key`.
pub fn json_member(key: &str, value: JsonValue) -> (r: (String, JsonValue))
    ensures
        r.0@ == key@,
        r.1 == value,
{
    (String::from_str(key), value)
}

/// The models of two members.
pub proof fn lemma_member_models2(a: (String, JsonValue), b: (String, JsonValue))
    ensures
        member_models(seq![a, b]) == seq![(a.0@, a.1.model()), (b.0@, b.1.model())],
{
    lemma_member_models_index(seq![a, b]);
    assert(member_models(seq![a, b]) =~= seq![(a.0@, a.1.model()), (b.0@, b.1.model())]);
}

/// The models of three members.
pub proof fn lemma_member_models3(a: (String, JsonValue), b: (String, JsonValue), c: (String, JsonValue))
    ensures
        member_models(seq![a, b, c]) == seq![
            (a.0@, a.1.model()),
            (b.0@, b.1.model()),
            (c.0@, c.1.model()),
        ],
{
    lemma_member_models_index(seq![a, b, c]);
    assert(member_models(seq![a, b, c]) =~= seq![
        (a.0@, a.1.model()),
        (b.0@, b.1.model()),
        (c.0@, c.1.model()),
    ]);
}

} // verus!
