use vstd::prelude::*;
use crate::text::same_text;

verus! {

/// A parsed JSON document, holding what the status logic reads of it.
#[derive(Debug)]
pub enum JsonValue {
    Null,
    Bool(bool),
    /// A number, with its value where it is a non-negative integer that
    /// fits in a `u64` (what `as_u64` gives).
    Number(Option<u64>),
    String(String),
    Array(Vec<JsonValue>),
    /// An object's members, in the order the parser's map iterates them.
    Object(Vec<(String, JsonValue)>),
}

/// The value of the first member named `key` among `members`.
pub open spec fn member(members: Seq<(String, JsonValue)>, key: Seq<char>) -> Option<JsonValue>
    decreases members.len(),
{
    if members.len() == 0 {
        None
    } else if members[0].0@ == key {
        Some(members[0].1)
    } else {
        member(members.drop_first(), key)
    }
}

/// `v[key]` for an object `v`; nothing for any other value.
pub open spec fn json_get(v: JsonValue, key: Seq<char>) -> Option<JsonValue> {
    match v {
        JsonValue::Object(members) => member(members@, key),
        _ => None,
    }
}

impl JsonValue {
    /// The member named `key`, when `self` is an object that has one.
    pub fn get(&self, key: &str) -> (r: Option<&JsonValue>)
        ensures
            match r {
                Some(v) => json_get(*self, key@) == Some(*v),
                None => json_get(*self, key@) is None,
            },
    {
        match self {
            JsonValue::Object(members) => {
                let ghost all = members@;
                let mut i: usize = 0;
                assert(all.skip(0) == all);
                while i < members.len()
                    invariant
                        all == members@,
                        json_get(*self, key@) == member(all, key@),
                        i <= all.len(),
                        member(all, key@) == member(all.skip(i as int), key@),
                    decreases all.len() - i,
                {
                    assert(all.skip(i as int)[0] == all[i as int]);
                    if same_text(members[i].0.as_str(), key) {
                        return Some(&members[i].1);
                    }
                    assert(all.skip(i as int).drop_first() == all.skip(i + 1));
                    i = i + 1;
                }
                None
            },
            _ => None,
        }
    }
}

} // verus!
