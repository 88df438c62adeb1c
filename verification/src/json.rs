//! JSON values as the record format sees them, and their mathematical model.

use vstd::prelude::*;

use crate::order::{keys_distinct, keys_strictly_ascending, lemma_strictly_ascending_distinct};

verus! {

/// A JSON value.
///
/// Objects keep their members in order, as a list of key and value; an object
/// read from JSON text has distinct keys in code-point order (`well_formed`).
/// The functions of this library are defined on every value, and on a
/// well-formed one they see each key once. A number is held as the text that
/// stands for it in JSON.
#[derive(Debug)]
pub enum JsonValue {
    Null,
    Bool(bool),
    Number(String),
    String(String),
    Array(Vec<JsonValue>),
    Object(Vec<(String, JsonValue)>),
}

/// The mathematical model of a JSON value: strings become character sequences.
#[verifier::ext_equal]
pub enum Json {
    Null,
    Bool(bool),
    Number(Seq<char>),
    String(Seq<char>),
    Array(Seq<Json>),
    Object(Seq<(Seq<char>, Json)>),
}

impl JsonValue {
    /// The model of this value.
    pub open spec fn model(&self) -> Json
        decreases self,
    {
        match self {
            JsonValue::Null => Json::Null,
            JsonValue::Bool(b) => Json::Bool(*b),
            JsonValue::Number(n) => Json::Number(n@),
            JsonValue::String(s) => Json::String(s@),
            JsonValue::Array(items) => Json::Array(
                Seq::new(
                    items@.len(),
                    |i: int|
                        if 0 <= i < items@.len() {
                            items@[i].model()
                        } else {
                            Json::Null
                        },
                ),
            ),
            JsonValue::Object(members) => Json::Object(
                Seq::new(
                    members@.len(),
                    |i: int|
                        if 0 <= i < members@.len() {
                            (members@[i].0@, members@[i].1.model())
                        } else {
                            (Seq::empty(), Json::Null)
                        },
                ),
            ),
        }
    }
}

/// The value of the first member of `members` named `key`.
pub open spec fn member_value(members: Seq<(Seq<char>, Json)>, key: Seq<char>) -> Option<Json>
    decreases members.len(),
{
    if members.len() == 0 {
        None
    } else if members[0].0 == key {
        Some(members[0].1)
    } else {
        member_value(members.drop_first(), key)
    }
}

/// The value that `key` names in `v`, when `v` is an object that has it.
pub open spec fn json_get(v: Json, key: Seq<char>) -> Option<Json> {
    match v {
        Json::Object(members) => member_value(members, key),
        _ => None,
    }
}

/// Whether every object in `v` has its keys in strictly ascending code-point
/// order, hence distinct. A value parsed by `serde_json` is well formed: its
/// objects are maps whose keys are distinct and iterated in that order.
pub open spec fn well_formed(v: Json) -> bool
    decreases v, 0nat,
{
    match v {
        Json::Array(items) => items_well_formed(items),
        Json::Object(members) => keys_strictly_ascending(members) && members_well_formed(members),
        _ => true,
    }
}

/// Whether every element of `items` is well formed.
pub open spec fn items_well_formed(items: Seq<Json>) -> bool
    decreases items, 0nat,
{
    items.len() == 0 || (items_well_formed(items.subrange(0, items.len() - 1)) && well_formed(
        items[items.len() - 1],
    ))
}

/// Whether the value of every member of `members` is well formed.
pub open spec fn members_well_formed(members: Seq<(Seq<char>, Json)>) -> bool
    decreases members, 0nat,
{
    members.len() == 0 || (members_well_formed(members.subrange(0, members.len() - 1)) && well_formed(
        members[members.len() - 1].1,
    ))
}

/// `members_well_formed` holds exactly when each member's value is well formed.
pub proof fn lemma_members_well_formed(members: Seq<(Seq<char>, Json)>)
    ensures
        members_well_formed(members) <==> forall|i: int| 0 <= i < members.len() ==> well_formed(#[trigger] members[i].1),
    decreases members.len(),
{
    if members.len() > 0 {
        let rest = members.subrange(0, members.len() - 1);
        lemma_members_well_formed(rest);
        assert forall|i: int| 0 <= i < rest.len() implies #[trigger] rest[i] == members[i] by {}
        let last = members.len() - 1;
        if forall|i: int| 0 <= i < members.len() ==> well_formed(#[trigger] members[i].1) {
            assert forall|i: int| 0 <= i < rest.len() implies well_formed(#[trigger] rest[i].1) by {
                assert(well_formed(members[i].1));
            }
            assert(well_formed(members[last].1));
        }
        if members_well_formed(members) {
            assert forall|i: int| 0 <= i < members.len() implies well_formed(#[trigger] members[i].1) by {
                if i < last {
                    assert(well_formed(rest[i].1));
                }
            }
        }
    }
}

/// With distinct keys, looking up the key of a member finds that member.
pub proof fn lemma_member_value_unique(members: Seq<(Seq<char>, Json)>, i: int)
    requires
        keys_distinct(members),
        0 <= i < members.len(),
    ensures
        member_value(members, members[i].0) == Some(members[i].1),
    decreases members.len(),
{
    if i > 0 {
        let rest = members.drop_first();
        assert(members[0].0 != members[i].0);
        assert(keys_distinct(rest)) by {
            assert forall|a: int, b: int| 0 <= a < b < rest.len() implies #[trigger] rest[a].0 != #[trigger] rest[b].0 by {
                assert(rest[a] == members[a + 1] && rest[b] == members[b + 1]);
            }
        }
        assert(rest[i - 1] == members[i]);
        lemma_member_value_unique(rest, i - 1);
    }
}

/// A lookup finds a member with that key, or there is none.
pub proof fn lemma_member_value_found(members: Seq<(Seq<char>, Json)>, key: Seq<char>)
    ensures
        member_value(members, key) matches Some(v) ==> members.contains((key, v)),
        member_value(members, key) is None ==> forall|i: int| 0 <= i < members.len() ==> (#[trigger] members[i]).0 != key,
    decreases members.len(),
{
    if members.len() > 0 {
        let rest = members.drop_first();
        lemma_member_value_found(rest, key);
        if members[0].0 != key {
            if let Some(v) = member_value(members, key) {
                let t = choose|t: int| 0 <= t < rest.len() && rest[t] == (key, v);
                assert(members[t + 1] == (key, v));
            } else {
                assert forall|i: int| 0 <= i < members.len() implies (#[trigger] members[i]).0 != key by {
                    if i > 0 {
                        assert(members[i] == rest[i - 1]);
                    }
                }
            }
        } else {
            assert(members[0] == (key, members[0].1));
        }
    }
}

/// In a well-formed object, looking up the key of a member finds that member.
pub proof fn lemma_get_in_well_formed_object(members: Seq<(Seq<char>, Json)>, i: int)
    requires
        well_formed(Json::Object(members)),
        0 <= i < members.len(),
    ensures
        json_get(Json::Object(members), members[i].0) == Some(members[i].1),
{
    lemma_strictly_ascending_distinct(members);
    lemma_member_value_unique(members, i);
}

/// The model of an optional borrowed value.
pub open spec fn option_model(r: Option<&JsonValue>) -> Option<Json> {
    match r {
        Some(v) => Some(v.model()),
        None => None,
    }
}

/// Looks up `key` in `value` when it is an object; the first member with that
/// key answers.
pub fn get<'a>(value: &'a JsonValue, key: &str) -> (r: Option<&'a JsonValue>)
    ensures
        option_model(r) == json_get(value.model(), key@),
{
    match value {
        JsonValue::Object(members) => {
            let ghost ms = value.model()->Object_0;
            let wanted = key.to_owned();
            let mut i: usize = 0;
            assert(ms.skip(0) =~= ms);
            while i < members.len()
                invariant
                    i <= members@.len(),
                    ms.len() == members@.len(),
                    forall|j: int| 0 <= j < ms.len() ==> #[trigger] ms[j] == (members@[j].0@, members@[j].1.model()),
                    member_value(ms, key@) == member_value(ms.skip(i as int), key@),
                    wanted@ == key@,
                    value.model() == Json::Object(ms),
                decreases members@.len() - i,
            {
                if members[i].0 == wanted {
                    assert(ms.skip(i as int)[0] == ms[i as int]);
                    assert(members@[i as int].0@ == key@);
                    assert(member_value(ms.skip(i as int), key@) == Some(members@[i as int].1.model()));
                    return Some(&members[i].1);
                }
                assert(ms.skip(i as int).drop_first() =~= ms.skip(i + 1));
                i = i + 1;
            }
            None
        },
        _ => None,
    }
}

/// A copy of `value` with the same model.
#[verifier::loop_isolation(false)]
pub fn copy_value(value: &JsonValue) -> (r: JsonValue)
    ensures
        r.model() == value.model(),
    decreases value,
{
    match value {
        JsonValue::Null => JsonValue::Null,
        JsonValue::Bool(b) => JsonValue::Bool(*b),
        JsonValue::Number(n) => JsonValue::Number(n.clone()),
        JsonValue::String(s) => JsonValue::String(s.clone()),
        JsonValue::Array(items) => {
            let mut out: Vec<JsonValue> = Vec::new();
            let mut i: usize = 0;
            while i < items.len()
                invariant
                    i <= items@.len(),
                    out@.len() == i,
                    forall|j: int| 0 <= j < i ==> #[trigger] out@[j].model() == items@[j].model(),
                decreases items@.len() - i,
            {
                proof {
                    assert(decreases_to!(*value => items@[i as int]));
                }
                let c = copy_value(&items[i]);
                out.push(c);
                i = i + 1;
            }
            let r = JsonValue::Array(out);
            assert(forall|j: int| 0 <= j < items@.len() ==> value.model()->Array_0[j] == items@[j].model());
            assert(forall|j: int| 0 <= j < items@.len() ==> r.model()->Array_0[j] == out@[j].model());
            assert(r.model()->Array_0 =~= value.model()->Array_0);
            r
        },
        JsonValue::Object(members) => {
            let mut out: Vec<(String, JsonValue)> = Vec::new();
            let mut i: usize = 0;
            while i < members.len()
                invariant
                    i <= members@.len(),
                    out@.len() == i,
                    forall|j: int|
                        0 <= j < i ==> (#[trigger] out@[j]).0@ == members@[j].0@ && out@[j].1.model()
                            == members@[j].1.model(),
                decreases members@.len() - i,
            {
                proof {
                    assert(decreases_to!(*value => members@[i as int].1));
                }
                let k = members[i].0.clone();
                let c = copy_value(&members[i].1);
                out.push((k, c));
                assert(out@[i as int].0@ == members@[i as int].0@);
                i = i + 1;
            }
            let r = JsonValue::Object(out);
            assert(forall|j: int|
                0 <= j < members@.len() ==> value.model()->Object_0[j] == (
                    members@[j].0@,
                    members@[j].1.model(),
                ));
            assert(forall|j: int|
                0 <= j < members@.len() ==> r.model()->Object_0[j] == (out@[j].0@, out@[j].1.model()));
            assert(r.model()->Object_0 =~= value.model()->Object_0);
            r
        },
    }
}

} // verus!
