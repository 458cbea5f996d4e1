//! JSON values as the session logs hold them.

use vstd::prelude::*;

use crate::text::same_text;

verus! {

/// `serde_json::Number`: a JSON number. Nothing inside it is read here.
#[verifier::external_type_specification]
#[verifier::external_body]
pub struct ExNumber(serde_json::Number);

/// A JSON value.
///
/// A number that is a `u64` is an `Unsigned`; every other number is carried as it was parsed.
/// `Json::from_number` tells them apart.
/// An object lists its members in order; of two members with one name, the later one counts.
#[derive(Debug)]
pub enum Json {
    Null,
    Bool(bool),
    Unsigned(u64),
    OtherNumber(serde_json::Number),
    Text(String),
    Array(Vec<Json>),
    Object(Vec<(String, Json)>),
}

/// The last of the members that has the given name.
pub open spec fn last_member(members: Seq<(String, Json)>, name: Seq<char>) -> Option<Json>
    decreases members.len(),
{
    if members.len() == 0 {
        None
    } else if members.last().0@ == name {
        Some(members.last().1)
    } else {
        last_member(members.drop_last(), name)
    }
}

/// The member of an object that has the given name; nothing where the value is no object.
pub open spec fn member(value: Json, name: Seq<char>) -> Option<Json> {
    match value {
        Json::Object(members) => last_member(members@, name),
        _ => None,
    }
}

/// The text of a JSON string; nothing for any other value.
pub open spec fn text_of(value: Json) -> Option<Seq<char>> {
    match value {
        Json::Text(text) => Some(text@),
        _ => None,
    }
}

/// The text of the member with the given name, where it is a JSON string.
pub open spec fn text_member(value: Json, name: Seq<char>) -> Option<Seq<char>> {
    match member(value, name) {
        Some(found) => text_of(found),
        None => None,
    }
}

impl Json {
    /// Looks up the member with the given name.
    pub fn get(&self, name: &str) -> (found: Option<&Json>)
        ensures
            match found {
                Some(value) => member(*self, name@) == Some(*value),
                None => member(*self, name@) is None,
            },
    {
        match self {
            Json::Object(members) => {
                let mut i: usize = members.len();
                assert(members@.take(i as int) =~= members@);
                while i > 0
                    invariant
                        i <= members@.len(),
                        *self == Json::Object(*members),
                        last_member(members@, name@) == last_member(members@.take(i as int), name@),
                    decreases i,
                {
                    let ghost head = members@.take(i as int);
                    assert(head.drop_last() =~= members@.take(i - 1));
                    i = i - 1;
                    if same_text(members[i].0.as_str(), name) {
                        return Some(&members[i].1);
                    }
                }
                None
            },
            _ => None,
        }
    }

    /// The text of a JSON string.
    pub fn as_str(&self) -> (text: Option<&str>)
        ensures
            match text {
                Some(t) => text_of(*self) == Some(t@),
                None => text_of(*self) is None,
            },
    {
        match self {
            Json::Text(text) => Some(text.as_str()),
            _ => None,
        }
    }

    /// The text of the member with the given name, where it is a JSON string.
    pub fn get_str(&self, name: &str) -> (text: Option<&str>)
        ensures
            match text {
                Some(t) => text_member(*self, name@) == Some(t@),
                None => text_member(*self, name@) is None,
            },
    {
        match self.get(name) {
            Some(value) => value.as_str(),
            None => None,
        }
    }
}

} // verus!
