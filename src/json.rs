//! The parsed JSON tree that the decoders read.
use vstd::prelude::*;

verus! {

/// The kind of a JSON value, as named in error reports.
#[derive(Debug, Clone, Copy, PartialEq, Eq, Structural)]
pub enum JsonType {
    Null,
    Bool,
    Number,
    String,
    Array,
    Object,
}

/// A parsed JSON value.
///
/// A number keeps its source text: the decoders only need to know that a
/// number stood there. An object keeps its members in the order in which its
/// producer lists them; a lookup takes the first member with a key.
#[derive(Debug)]
pub enum JsonValue {
    Null,
    Bool(bool),
    Number(String),
    Str(String),
    Array(Vec<JsonValue>),
    Object(Vec<(String, JsonValue)>),
}

/// The kind of `v`.
pub open spec fn type_of(v: JsonValue) -> JsonType {
    match v {
        JsonValue::Null => JsonType::Null,
        JsonValue::Bool(_) => JsonType::Bool,
        JsonValue::Number(_) => JsonType::Number,
        JsonValue::Str(_) => JsonType::String,
        JsonValue::Array(_) => JsonType::Array,
        JsonValue::Object(_) => JsonType::Object,
    }
}

/// The value of the first member of `members`, from position `i` on, whose
/// key is `key`.
pub open spec fn member_from(members: Seq<(String, JsonValue)>, key: Seq<char>, i: int) -> Option<
    JsonValue,
>
    decreases members.len() - i,
{
    if i < 0 || i >= members.len() {
        None
    } else if members[i].0@ == key {
        Some(members[i].1)
    } else {
        member_from(members, key, i + 1)
    }
}

/// The value of the first member of `members` whose key is `key`.
pub open spec fn member(members: Seq<(String, JsonValue)>, key: Seq<char>) -> Option<JsonValue> {
    member_from(members, key, 0)
}

impl JsonValue {
    /// The kind of this value.
    pub fn json_type(&self) -> (r: JsonType)
        ensures
            r == type_of(*self),
    {
        match self {
            JsonValue::Null => JsonType::Null,
            JsonValue::Bool(_) => JsonType::Bool,
            JsonValue::Number(_) => JsonType::Number,
            JsonValue::Str(_) => JsonType::String,
            JsonValue::Array(_) => JsonType::Array,
            JsonValue::Object(_) => JsonType::Object,
        }
    }
}

/// Looks up the first member of an object named `key`; keys match exactly.
pub fn find_member<'a>(members: &'a Vec<(String, JsonValue)>, key: &String) -> (r: Option<
    &'a JsonValue,
>)
    ensures
        match r {
            Some(v) => member(members@, key@) == Some(*v),
            None => member(members@, key@) is None,
        },
{
    let mut i: usize = 0;
    while i < members.len()
        invariant
            i <= members.len(),
            member(members@, key@) == member_from(members@, key@, i as int),
        decreases members.len() - i,
    {
        if members[i].0 == *key {
            return Some(&members[i].1);
        }
        i = i + 1;
    }
    None
}

} // verus!
