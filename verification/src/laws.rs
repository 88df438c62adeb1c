//! What canonical serialisation promises of every value: when it succeeds,
//! why it refuses, and the order in which it writes members and elements.

use vstd::prelude::*;

use crate::canonical::{
    canonical, canonical_items, canonical_members, enclosed, has_key, joined, member_text, nfc,
    screened, Refusal,
};
use crate::json::Json;
use crate::order::{
    keys_distinct, keys_strictly_ascending, lemma_code_point_lt_is_lexicographic, lemma_sorted_by_key_contains,
    precedes_by_code_points,
    lemma_sorted_by_key_permutes, lemma_sorted_by_key_strict, sorted_by_key,
};

verus! {

/// Whether a null occurs anywhere in `v`.
pub open spec fn has_null(v: Json) -> bool
    decreases v, 0nat,
{
    match v {
        Json::Null => true,
        Json::Array(items) => some_item_has_null(items),
        Json::Object(ms) => some_member_has_null(ms),
        _ => false,
    }
}

/// Whether a null occurs anywhere in some element of `items`.
pub open spec fn some_item_has_null(items: Seq<Json>) -> bool
    decreases items, 0nat,
{
    if items.len() == 0 {
        false
    } else {
        some_item_has_null(items.subrange(0, items.len() - 1)) || has_null(items[items.len() - 1])
    }
}

/// Whether a null occurs anywhere in the value of some member of `ms`.
pub open spec fn some_member_has_null(ms: Seq<(Seq<char>, Json)>) -> bool
    decreases ms, 0nat,
{
    if ms.len() == 0 {
        false
    } else {
        some_member_has_null(ms.subrange(0, ms.len() - 1)) || has_null(ms[ms.len() - 1].1)
    }
}

/// Whether two members of one object `ms` have keys that are equal after NFC
/// normalisation.
pub open spec fn keys_collide(ms: Seq<(Seq<char>, Json)>) -> bool {
    exists|i: int, j: int| 0 <= i < j < ms.len() && #[trigger] nfc(ms[i].0) == #[trigger] nfc(ms[j].0)
}

/// Whether some object anywhere in `v` has two keys that normalise alike.
pub open spec fn has_collision(v: Json) -> bool
    decreases v, 0nat,
{
    match v {
        Json::Array(items) => some_item_has_collision(items),
        Json::Object(ms) => keys_collide(ms) || some_member_has_collision(ms),
        _ => false,
    }
}

/// Whether some element of `items` has a collision somewhere.
pub open spec fn some_item_has_collision(items: Seq<Json>) -> bool
    decreases items, 0nat,
{
    if items.len() == 0 {
        false
    } else {
        some_item_has_collision(items.subrange(0, items.len() - 1)) || has_collision(items[items.len() - 1])
    }
}

/// Whether the value of some member of `ms` has a collision somewhere.
pub open spec fn some_member_has_collision(ms: Seq<(Seq<char>, Json)>) -> bool
    decreases ms, 0nat,
{
    if ms.len() == 0 {
        false
    } else {
        some_member_has_collision(ms.subrange(0, ms.len() - 1)) || has_collision(ms[ms.len() - 1].1)
    }
}

/// Whether two members of `ms` have keys whose normal form is `k`.
pub open spec fn keys_collide_on(ms: Seq<(Seq<char>, Json)>, k: Seq<char>) -> bool {
    exists|i: int, j: int| 0 <= i < j < ms.len() && nfc(#[trigger] ms[i].0) == k && nfc(#[trigger] ms[j].0) == k
}

/// Whether some object anywhere in `v` has two keys whose normal form is `k`.
pub open spec fn has_collision_on(v: Json, k: Seq<char>) -> bool
    decreases v, 0nat,
{
    match v {
        Json::Array(items) => some_item_collides_on(items, k),
        Json::Object(ms) => keys_collide_on(ms, k) || some_member_collides_on(ms, k),
        _ => false,
    }
}

/// Whether some element of `items` has two keys somewhere whose normal form is `k`.
pub open spec fn some_item_collides_on(items: Seq<Json>, k: Seq<char>) -> bool
    decreases items, 0nat,
{
    if items.len() == 0 {
        false
    } else {
        some_item_collides_on(items.subrange(0, items.len() - 1), k) || has_collision_on(items[items.len() - 1], k)
    }
}

/// Whether the value of some member of `ms` has two keys somewhere whose normal form is `k`.
pub open spec fn some_member_collides_on(ms: Seq<(Seq<char>, Json)>, k: Seq<char>) -> bool
    decreases ms, 0nat,
{
    if ms.len() == 0 {
        false
    } else {
        some_member_collides_on(ms.subrange(0, ms.len() - 1), k) || has_collision_on(ms[ms.len() - 1].1, k)
    }
}

proof fn lemma_collides_on_witness(items: Seq<Json>, ms: Seq<(Seq<char>, Json)>, k: Seq<char>, i: int, j: int)
    ensures
        0 <= i < items.len() && has_collision_on(items[i], k) ==> some_item_collides_on(items, k),
        0 <= j < ms.len() && has_collision_on(ms[j].1, k) ==> some_member_collides_on(ms, k),
    decreases items.len() + ms.len(),
{
    if 0 <= i < items.len() && has_collision_on(items[i], k) && i < items.len() - 1 {
        let rest = items.subrange(0, items.len() - 1);
        assert(rest[i] == items[i]);
        lemma_collides_on_witness(rest, Seq::empty(), k, i, -1);
    }
    if 0 <= j < ms.len() && has_collision_on(ms[j].1, k) && j < ms.len() - 1 {
        let rest = ms.subrange(0, ms.len() - 1);
        assert(rest[j] == ms[j]);
        lemma_collides_on_witness(Seq::empty(), rest, k, -1, j);
    }
}

pub proof fn lemma_some_item(items: Seq<Json>)
    ensures
        some_item_has_null(items) <==> exists|i: int| 0 <= i < items.len() && #[trigger] has_null(items[i]),
        some_item_has_collision(items) <==> exists|i: int|
            0 <= i < items.len() && #[trigger] has_collision(items[i]),
    decreases items.len(),
{
    if items.len() > 0 {
        let rest = items.subrange(0, items.len() - 1);
        lemma_some_item(rest);
        assert forall|i: int| 0 <= i < rest.len() implies #[trigger] rest[i] == items[i] by {}
        let last = items.len() - 1;
        if exists|i: int| 0 <= i < items.len() && #[trigger] has_null(items[i]) {
            let i = choose|i: int| 0 <= i < items.len() && #[trigger] has_null(items[i]);
            if i < last {
                assert(has_null(rest[i]));
            }
        }
        if has_null(items[last]) {
            assert(exists|i: int| 0 <= i < items.len() && #[trigger] has_null(items[i]));
        }
        if exists|i: int| 0 <= i < rest.len() && #[trigger] has_null(rest[i]) {
            let i = choose|i: int| 0 <= i < rest.len() && #[trigger] has_null(rest[i]);
            assert(has_null(items[i]));
        }
        if exists|i: int| 0 <= i < items.len() && #[trigger] has_collision(items[i]) {
            let i = choose|i: int| 0 <= i < items.len() && #[trigger] has_collision(items[i]);
            if i < last {
                assert(has_collision(rest[i]));
            }
        }
        if has_collision(items[last]) {
            assert(exists|i: int| 0 <= i < items.len() && #[trigger] has_collision(items[i]));
        }
        if exists|i: int| 0 <= i < rest.len() && #[trigger] has_collision(rest[i]) {
            let i = choose|i: int| 0 <= i < rest.len() && #[trigger] has_collision(rest[i]);
            assert(has_collision(items[i]));
        }
    }
}

pub proof fn lemma_some_member(ms: Seq<(Seq<char>, Json)>)
    ensures
        some_member_has_null(ms) <==> exists|i: int| 0 <= i < ms.len() && #[trigger] has_null(ms[i].1),
        some_member_has_collision(ms) <==> exists|i: int|
            0 <= i < ms.len() && #[trigger] has_collision(ms[i].1),
    decreases ms.len(),
{
    if ms.len() > 0 {
        let rest = ms.subrange(0, ms.len() - 1);
        lemma_some_member(rest);
        assert forall|i: int| 0 <= i < rest.len() implies #[trigger] rest[i] == ms[i] by {}
        let last = ms.len() - 1;
        if exists|i: int| 0 <= i < ms.len() && #[trigger] has_null(ms[i].1) {
            let i = choose|i: int| 0 <= i < ms.len() && #[trigger] has_null(ms[i].1);
            if i < last {
                assert(has_null(rest[i].1));
            }
        }
        if has_null(ms[last].1) {
            assert(exists|i: int| 0 <= i < ms.len() && #[trigger] has_null(ms[i].1));
        }
        if exists|i: int| 0 <= i < rest.len() && #[trigger] has_null(rest[i].1) {
            let i = choose|i: int| 0 <= i < rest.len() && #[trigger] has_null(rest[i].1);
            assert(has_null(ms[i].1));
        }
        if exists|i: int| 0 <= i < ms.len() && #[trigger] has_collision(ms[i].1) {
            let i = choose|i: int| 0 <= i < ms.len() && #[trigger] has_collision(ms[i].1);
            if i < last {
                assert(has_collision(rest[i].1));
            }
        }
        if has_collision(ms[last].1) {
            assert(exists|i: int| 0 <= i < ms.len() && #[trigger] has_collision(ms[i].1));
        }
        if exists|i: int| 0 <= i < rest.len() && #[trigger] has_collision(rest[i].1) {
            let i = choose|i: int| 0 <= i < rest.len() && #[trigger] has_collision(rest[i].1);
            assert(has_collision(ms[i].1));
        }
    }
}

/// Joined parts succeed exactly when every part does; a refusal of the whole
/// is the refusal of some part.
pub proof fn lemma_joined_refusals(parts: Seq<Result<Seq<char>, Refusal>>)
    ensures
        (joined(parts) is Ok) <==> (forall|i: int| 0 <= i < parts.len() ==> #[trigger] parts[i] is Ok),
        joined(parts) is Err ==> exists|i: int|
            0 <= i < parts.len() && #[trigger] parts[i] == joined(parts),
    decreases parts.len(),
{
    if parts.len() > 0 {
        let rest = parts.drop_last();
        let n = parts.len() - 1;
        lemma_joined_refusals(rest);
        assert forall|i: int| 0 <= i < rest.len() implies #[trigger] rest[i] == parts[i] by {}
        if joined(rest) is Err {
            let i = choose|i: int| 0 <= i < rest.len() && #[trigger] rest[i] == joined(rest);
            assert(parts[i] == joined(parts));
            assert(!(parts[i] is Ok));
        } else if parts[n] is Err {
            assert(parts[n] == joined(parts));
        } else {
            assert forall|i: int| 0 <= i < parts.len() implies #[trigger] parts[i] is Ok by {
                if i < n {
                    assert(rest[i] is Ok);
                }
            }
        }
    }
}

/// Element `i` of the serialised elements is the serialisation of element `i`.
pub proof fn lemma_canonical_items_index(items: Seq<Json>)
    ensures
        canonical_items(items).len() == items.len(),
        forall|i: int| 0 <= i < items.len() ==> #[trigger] canonical_items(items)[i] == canonical(items[i]),
    decreases items.len(),
{
    if items.len() > 0 {
        let rest = items.subrange(0, items.len() - 1);
        lemma_canonical_items_index(rest);
        assert forall|i: int| 0 <= i < items.len() implies #[trigger] canonical_items(items)[i] == canonical(items[i]) by {
            if i < items.len() - 1 {
                assert(rest[i] == items[i]);
            }
        }
    }
}

/// Entry `j` of the serialised members is the member that `order[j]` names.
pub proof fn lemma_canonical_members_index(ms: Seq<(Seq<char>, Json)>, order: Seq<(Seq<char>, int)>)
    ensures
        canonical_members(ms, order).len() == order.len(),
        forall|j: int|
            0 <= j < order.len() ==> #[trigger] canonical_members(ms, order)[j] == (if 0 <= order[j].1 < ms.len() {
                member_text(order[j].0, canonical(ms[order[j].1].1))
            } else {
                Err(Refusal::NullValue(None))
            }),
    decreases order.len(),
{
    if order.len() > 0 {
        let rest = order.drop_last();
        lemma_canonical_members_index(ms, rest);
        assert forall|j: int| 0 <= j < order.len() - 1 implies #[trigger] rest[j] == order[j] by {}
    }
}

/// Screening succeeds exactly when no member is null and no two keys normalise
/// alike; it then keeps every member, in order, with its normalised key; a
/// refusal names either a null member or a collision.
pub proof fn lemma_screened(ms: Seq<(Seq<char>, Json)>)
    ensures
        (screened(ms) is Ok) <==> ((forall|i: int| 0 <= i < ms.len() ==> !(#[trigger] ms[i].1 is Null)) && !keys_collide(ms)),
        screened(ms) is Ok ==> screened(ms)->Ok_0 == Seq::new(ms.len(), |i: int| (nfc(ms[i].0), i)),
        screened(ms) matches Err(Refusal::NullValue(_)) ==> exists|i: int| 0 <= i < ms.len() && #[trigger] ms[i].1 is Null,
        screened(ms) matches Err(Refusal::KeyCollision(_)) ==> keys_collide(ms),
        screened(ms) matches Err(Refusal::KeyCollision(k)) ==> keys_collide_on(ms, k),
    decreases ms.len(),
{
    if ms.len() > 0 {
        let rest = ms.drop_last();
        let n = ms.len() - 1;
        lemma_screened(rest);
        assert forall|i: int| 0 <= i < rest.len() implies #[trigger] rest[i] == ms[i] by {}
        if keys_collide(rest) {
            let (i, j) = choose|i: int, j: int| 0 <= i < j < rest.len() && #[trigger] nfc(rest[i].0) == #[trigger] nfc(rest[j].0);
            assert(nfc(ms[i].0) == nfc(ms[j].0));
        }
        match screened(rest) {
            Err(e) => {
                if e is NullValue {
                    let i = choose|i: int| 0 <= i < rest.len() && #[trigger] rest[i].1 is Null;
                    assert(ms[i].1 is Null);
                } else {
                    assert(keys_collide(ms));
                    let k = e->KeyCollision_0;
                    let (i, j) = choose|i: int, j: int| 0 <= i < j < rest.len() && nfc(#[trigger] rest[i].0) == k && nfc(#[trigger] rest[j].0) == k;
                    assert(ms[i] == rest[i] && ms[j] == rest[j]);
                    assert(keys_collide_on(ms, k));
                }
                if forall|i: int| 0 <= i < rest.len() ==> !(#[trigger] rest[i].1 is Null) {
                    assert(keys_collide(rest));
                } else {
                    let i = choose|i: int| 0 <= i < rest.len() && (#[trigger] rest[i].1 is Null);
                    assert(ms[i].1 is Null);
                }
            },
            Ok(acc) => {
                let k = ms.last().0;
                assert(acc == Seq::new(rest.len(), |i: int| (nfc(rest[i].0), i)));
                if ms.last().1 is Null {
                    assert(ms[n].1 is Null);
                } else if has_key(acc, nfc(k)) {
                    let i = choose|i: int| 0 <= i < acc.len() && #[trigger] acc[i].0 == nfc(k);
                    assert(nfc(ms[i].0) == nfc(ms[n].0));
                    assert(keys_collide(ms));
                    assert(keys_collide_on(ms, nfc(k)));
                } else {
                    assert(screened(ms)->Ok_0 =~= Seq::new(ms.len(), |i: int| (nfc(ms[i].0), i)));
                    assert forall|i: int| 0 <= i < ms.len() implies !(#[trigger] ms[i].1 is Null) by {
                        if i < n {
                            assert(rest[i] == ms[i]);
                        }
                    }
                    assert(!keys_collide(ms)) by {
                        if keys_collide(ms) {
                            let (i, j) = choose|i: int, j: int| 0 <= i < j < ms.len() && #[trigger] nfc(ms[i].0) == #[trigger] nfc(ms[j].0);
                            if j < n {
                                assert(nfc(rest[i].0) == nfc(rest[j].0));
                            } else {
                                assert(acc[i].0 == nfc(k));
                            }
                        }
                    }
                }
            },
        }
    }
}

/// Among members whose keys do not collide, a null member is refused under
/// the key of the first null member.
pub proof fn lemma_screened_null_refusal(ms: Seq<(Seq<char>, Json)>)
    requires
        !keys_collide(ms),
        exists|i: int| 0 <= i < ms.len() && (#[trigger] ms[i]).1 is Null,
    ensures
        screened(ms) matches Err(Refusal::NullValue(Some(k))) && exists|i: int|
            0 <= i < ms.len() && #[trigger] ms[i] == (k, Json::Null),
    decreases ms.len(),
{
    let n = ms.len() - 1;
    let rest = ms.drop_last();
    assert forall|i: int| 0 <= i < rest.len() implies #[trigger] rest[i] == ms[i] by {}
    assert(!keys_collide(rest)) by {
        if keys_collide(rest) {
            let (i, j) = choose|i: int, j: int| 0 <= i < j < rest.len() && #[trigger] nfc(rest[i].0) == #[trigger] nfc(rest[j].0);
            assert(nfc(ms[i].0) == nfc(ms[j].0));
        }
    }
    if exists|i: int| 0 <= i < rest.len() && (#[trigger] rest[i]).1 is Null {
        lemma_screened_null_refusal(rest);
        let k = screened(rest)->Err_0->NullValue_0->Some_0;
        let i = choose|i: int| 0 <= i < rest.len() && #[trigger] rest[i] == (k, Json::Null);
        assert(ms[i] == (k, Json::Null));
    } else {
        lemma_screened(rest);
        assert(ms[n].1 is Null) by {
            let i = choose|i: int| 0 <= i < ms.len() && (#[trigger] ms[i]).1 is Null;
            if i < n {
                assert(rest[i] == ms[i]);
            }
        }
        assert(ms[n] == (ms[n].0, Json::Null));
    }
}

/// Every member of an object that passes screening is written: some entry of
/// the serialised members is member `i`'s serialisation under its key.
proof fn lemma_member_written(ms: Seq<(Seq<char>, Json)>, i: int)
    requires
        screened(ms) is Ok,
        0 <= i < ms.len(),
    ensures
        exists|j: int|
            0 <= j < sorted_by_key(screened(ms)->Ok_0).len() && #[trigger] canonical_members(
                ms,
                sorted_by_key(screened(ms)->Ok_0),
            )[j] == member_text(nfc(ms[i].0), canonical(ms[i].1)),
{
    let keyed = screened(ms)->Ok_0;
    let order = sorted_by_key(keyed);
    lemma_screened(ms);
    lemma_canonical_members_index(ms, order);
    assert(keyed[i] == (nfc(ms[i].0), i));
    lemma_sorted_by_key_contains(keyed, keyed[i]);
    assert(keyed.contains(keyed[i]));
    let j = choose|j: int| 0 <= j < order.len() && #[trigger] order[j] == keyed[i];
    assert(canonical_members(ms, order)[j] == member_text(nfc(ms[i].0), canonical(ms[i].1)));
}

/// Serialisation succeeds exactly when `v` holds no null and no object with
/// two keys that are equal after normalisation. A refusal for a null is owed
/// to a null in `v`, and a refusal for a collision to such a pair of keys.
pub proof fn lemma_canonical_refusals(v: Json)
    ensures
        (canonical(v) is Ok) <==> (!has_null(v) && !has_collision(v)),
        canonical(v) matches Err(Refusal::NullValue(_)) ==> has_null(v),
        canonical(v) matches Err(Refusal::KeyCollision(_)) ==> has_collision(v),
    decreases v,
{
    match v {
        Json::Array(items) => {
            let parts = canonical_items(items);
            lemma_some_item(items);
            lemma_canonical_items_index(items);
            lemma_joined_refusals(parts);
            assert forall|i: int| 0 <= i < items.len() implies ((#[trigger] canonical(items[i]) is Ok) <==> (
            !has_null(items[i]) && !has_collision(items[i])))
                && (canonical(items[i]) matches Err(Refusal::NullValue(_)) ==> has_null(items[i]))
                && (canonical(items[i]) matches Err(Refusal::KeyCollision(_)) ==> has_collision(items[i])) by {
                assert(decreases_to!(v => items[i]));
                lemma_canonical_refusals(items[i]);
            }
            if has_null(v) {
                let i = choose|i: int| 0 <= i < items.len() && #[trigger] has_null(items[i]);
                assert(0 <= i < items.len());
                assert(parts[i] == canonical(items[i]));
                assert(!(canonical(items[i]) is Ok));
            }
            if has_collision(v) {
                let i = choose|i: int| 0 <= i < items.len() && #[trigger] has_collision(items[i]);
                assert(parts[i] == canonical(items[i]));
                assert(!(canonical(items[i]) is Ok));
            }
            if joined(parts) is Err {
                let i = choose|i: int| 0 <= i < parts.len() && #[trigger] parts[i] == joined(parts);
                assert(canonical(items[i]) == joined(parts));
            }
        },
        Json::Object(ms) => {
            lemma_screened(ms);
            lemma_some_member(ms);
            assert forall|i: int| 0 <= i < ms.len() implies ((#[trigger] canonical(ms[i].1) is Ok) <==> (
            !has_null(ms[i].1) && !has_collision(ms[i].1)))
                && (canonical(ms[i].1) matches Err(Refusal::NullValue(_)) ==> has_null(ms[i].1))
                && (canonical(ms[i].1) matches Err(Refusal::KeyCollision(_)) ==> has_collision(ms[i].1)) by {
                assert(decreases_to!(v => ms[i].1));
                lemma_canonical_refusals(ms[i].1);
            }
            match screened(ms) {
                Err(e) => {
                    if e is NullValue {
                        let i = choose|i: int| 0 <= i < ms.len() && #[trigger] ms[i].1 is Null;
                        assert(has_null(ms[i].1));
                    }
                },
                Ok(keyed) => {
                    let order = sorted_by_key(keyed);
                    let parts = canonical_members(ms, order);
                    lemma_canonical_members_index(ms, order);
                    lemma_joined_refusals(parts);
                    lemma_sorted_by_key_permutes(keyed);
                    // every position of the object occurs in the order
                    assert forall|j: int| 0 <= j < order.len() implies 0 <= #[trigger] order[j].1 < ms.len() by {
                        lemma_sorted_by_key_contains(keyed, order[j]);
                        assert(order.contains(order[j]));
                    }
                    assert(keyed.len() == ms.len());
                    if has_null(v) {
                        let i = choose|i: int| 0 <= i < ms.len() && #[trigger] has_null(ms[i].1);
                        lemma_member_written(ms, i);
                    }
                    if has_collision(v) {
                        assert(!keys_collide(ms));
                        let i = choose|i: int| 0 <= i < ms.len() && #[trigger] has_collision(ms[i].1);
                        lemma_member_written(ms, i);
                    }
                    if joined(parts) is Err {
                        let j = choose|j: int| 0 <= j < parts.len() && #[trigger] parts[j] == joined(parts);
                        assert(canonical(ms[order[j].1].1) == joined(parts));
                    }
                },
            }
        },
        _ => {},
    }
}

/// A refusal for a collision names the common normal form of two keys of one
/// object somewhere in `v`.
pub proof fn lemma_collision_refusal_names_key(v: Json)
    ensures
        canonical(v) matches Err(Refusal::KeyCollision(k)) ==> has_collision_on(v, k),
    decreases v,
{
    match v {
        Json::Array(items) => {
            let parts = canonical_items(items);
            lemma_canonical_items_index(items);
            lemma_joined_refusals(parts);
            if joined(parts) is Err {
                let i = choose|i: int| 0 <= i < parts.len() && #[trigger] parts[i] == joined(parts);
                assert(canonical(items[i]) == joined(parts));
                assert(decreases_to!(v => items[i]));
                lemma_collision_refusal_names_key(items[i]);
                if let Err(Refusal::KeyCollision(k)) = joined(parts) {
                    lemma_collides_on_witness(items, Seq::empty(), k, i, -1);
                }
            }
        },
        Json::Object(ms) => {
            lemma_screened(ms);
            if let Ok(keyed) = screened(ms) {
                let order = sorted_by_key(keyed);
                let parts = canonical_members(ms, order);
                lemma_canonical_members_index(ms, order);
                lemma_joined_refusals(parts);
                if joined(parts) is Err {
                    let j = choose|j: int| 0 <= j < parts.len() && #[trigger] parts[j] == joined(parts);
                    if 0 <= order[j].1 < ms.len() {
                        let p = order[j].1;
                        assert(canonical(ms[p].1) == joined(parts));
                        assert(decreases_to!(v => ms[p].1));
                        lemma_collision_refusal_names_key(ms[p].1);
                        if let Err(Refusal::KeyCollision(k)) = joined(parts) {
                            lemma_collides_on_witness(Seq::empty(), ms, k, -1, p);
                        }
                    }
                }
            }
        },
        _ => {},
    }
}

/// The elements of an array are written in their own order, each in its
/// canonical form.
pub proof fn lemma_array_order_kept(items: Seq<Json>)
    ensures
        canonical(Json::Array(items)) == enclosed(
            '[',
            joined(Seq::new(items.len(), |i: int| canonical(items[i]))),
            ']',
        ),
{
    lemma_canonical_items_index(items);
    assert(canonical_items(items) =~= Seq::new(items.len(), |i: int| canonical(items[i])));
}

/// The members of an object that serialises are written once each, in
/// strictly ascending code-point order of their normalised keys.
pub proof fn lemma_object_members_in_key_order(ms: Seq<(Seq<char>, Json)>)
    requires
        screened(ms) is Ok,
    ensures
        keys_strictly_ascending(sorted_by_key(screened(ms)->Ok_0)),
        sorted_by_key(screened(ms)->Ok_0).to_multiset() == Seq::new(ms.len(), |i: int| (nfc(ms[i].0), i)).to_multiset(),
{
    let keyed = screened(ms)->Ok_0;
    lemma_screened(ms);
    assert(keys_distinct(keyed)) by {
        assert forall|i: int, j: int| 0 <= i < j < keyed.len() implies #[trigger] keyed[i].0 != #[trigger] keyed[j].0 by {
            if keyed[i].0 == keyed[j].0 {
                assert(nfc(ms[i].0) == nfc(ms[j].0));
            }
        }
    }
    lemma_sorted_by_key_strict(keyed);
    lemma_sorted_by_key_permutes(keyed);
}

/// The members of an object that serialises are written in lexicographic
/// order of the code points of their normalised keys: each key is a proper
/// prefix of every later one or has the smaller code point where they first
/// differ.
pub proof fn lemma_object_keys_in_code_point_order(ms: Seq<(Seq<char>, Json)>)
    requires
        screened(ms) is Ok,
    ensures
        forall|i: int, j: int|
            0 <= i < j < sorted_by_key(screened(ms)->Ok_0).len() ==> precedes_by_code_points(
                #[trigger] sorted_by_key(screened(ms)->Ok_0)[i].0,
                #[trigger] sorted_by_key(screened(ms)->Ok_0)[j].0,
            ),
{
    let order = sorted_by_key(screened(ms)->Ok_0);
    lemma_object_members_in_key_order(ms);
    assert forall|i: int, j: int| 0 <= i < j < order.len() implies precedes_by_code_points(
        #[trigger] order[i].0,
        #[trigger] order[j].0,
    ) by {
        lemma_code_point_lt_is_lexicographic(order[i].0, order[j].0);
    }
}

/// Whether `a` and `b` have the same shape and differ at most in strings and
/// object keys that have the same NFC normal form (canonically equivalent
/// text, such as `e` followed by a combining acute accent and `é`).
pub open spec fn nfc_equivalent(a: Json, b: Json) -> bool
    decreases a, 0nat,
{
    match a {
        Json::Null => b is Null,
        Json::Bool(x) => b == Json::Bool(x),
        Json::Number(x) => b == Json::Number(x),
        Json::String(x) => b is String && nfc(x) == nfc(b->String_0),
        Json::Array(xs) => b is Array && items_equivalent(xs, b->Array_0),
        Json::Object(xs) => b is Object && members_equivalent(xs, b->Object_0),
    }
}

/// Element-wise `nfc_equivalent`.
pub open spec fn items_equivalent(xs: Seq<Json>, ys: Seq<Json>) -> bool
    decreases xs, 0nat,
{
    xs.len() == ys.len() && (xs.len() == 0 || (items_equivalent(
        xs.subrange(0, xs.len() - 1),
        ys.subrange(0, ys.len() - 1),
    ) && nfc_equivalent(xs[xs.len() - 1], ys[ys.len() - 1])))
}

/// Member-wise: keys with the same normal form, `nfc_equivalent` values.
pub open spec fn members_equivalent(xs: Seq<(Seq<char>, Json)>, ys: Seq<(Seq<char>, Json)>) -> bool
    decreases xs, 0nat,
{
    xs.len() == ys.len() && (xs.len() == 0 || (members_equivalent(
        xs.subrange(0, xs.len() - 1),
        ys.subrange(0, ys.len() - 1),
    ) && nfc(xs[xs.len() - 1].0) == nfc(ys[ys.len() - 1].0) && nfc_equivalent(
        xs[xs.len() - 1].1,
        ys[ys.len() - 1].1,
    )))
}

/// Both refuse, or both succeed with the same text.
pub open spec fn same_outcome(r1: Result<Seq<char>, Refusal>, r2: Result<Seq<char>, Refusal>) -> bool {
    (r1 is Ok <==> r2 is Ok) && (r1 is Ok ==> r1 == r2)
}

proof fn lemma_items_equivalent(xs: Seq<Json>, ys: Seq<Json>)
    requires
        items_equivalent(xs, ys),
    ensures
        xs.len() == ys.len(),
        forall|i: int| 0 <= i < xs.len() ==> nfc_equivalent(#[trigger] xs[i], ys[i]),
    decreases xs.len(),
{
    if xs.len() > 0 {
        let n = xs.len() - 1;
        let (rx, ry) = (xs.subrange(0, n), ys.subrange(0, n));
        lemma_items_equivalent(rx, ry);
        assert forall|i: int| 0 <= i < xs.len() implies nfc_equivalent(#[trigger] xs[i], ys[i]) by {
            if i < n {
                assert(rx[i] == xs[i] && ry[i] == ys[i]);
            }
        }
    }
}

proof fn lemma_members_equivalent(xs: Seq<(Seq<char>, Json)>, ys: Seq<(Seq<char>, Json)>)
    requires
        members_equivalent(xs, ys),
    ensures
        xs.len() == ys.len(),
        forall|i: int|
            0 <= i < xs.len() ==> nfc((#[trigger] xs[i]).0) == nfc(ys[i].0) && nfc_equivalent(xs[i].1, ys[i].1),
    decreases xs.len(),
{
    if xs.len() > 0 {
        let n = xs.len() - 1;
        let (rx, ry) = (xs.subrange(0, n), ys.subrange(0, n));
        lemma_members_equivalent(rx, ry);
        assert forall|i: int| 0 <= i < xs.len() implies nfc((#[trigger] xs[i]).0) == nfc(ys[i].0) && nfc_equivalent(
            xs[i].1,
            ys[i].1,
        ) by {
            if i < n {
                assert(rx[i] == xs[i] && ry[i] == ys[i]);
            }
        }
    }
}

proof fn lemma_joined_same_outcome(p1: Seq<Result<Seq<char>, Refusal>>, p2: Seq<Result<Seq<char>, Refusal>>)
    requires
        p1.len() == p2.len(),
        forall|i: int| 0 <= i < p1.len() ==> same_outcome(#[trigger] p1[i], p2[i]),
    ensures
        same_outcome(joined(p1), joined(p2)),
    decreases p1.len(),
{
    if p1.len() > 0 {
        let n = p1.len() - 1;
        let (r1, r2) = (p1.drop_last(), p2.drop_last());
        assert forall|i: int| 0 <= i < r1.len() implies same_outcome(#[trigger] r1[i], r2[i]) by {
            assert(r1[i] == p1[i] && r2[i] == p2[i]);
        }
        lemma_joined_same_outcome(r1, r2);
        assert(same_outcome(p1[n], p2[n]));
    }
}

proof fn lemma_screened_alike(xs: Seq<(Seq<char>, Json)>, ys: Seq<(Seq<char>, Json)>)
    requires
        xs.len() == ys.len(),
        forall|i: int|
            0 <= i < xs.len() ==> nfc((#[trigger] xs[i]).0) == nfc(ys[i].0) && (xs[i].1 is Null <==> ys[i].1 is Null),
    ensures
        (screened(xs) is Ok) <==> (screened(ys) is Ok),
        screened(xs) is Ok ==> screened(xs) == screened(ys),
    decreases xs.len(),
{
    if xs.len() > 0 {
        let n = xs.len() - 1;
        let (rx, ry) = (xs.drop_last(), ys.drop_last());
        assert forall|i: int| 0 <= i < rx.len() implies nfc((#[trigger] rx[i]).0) == nfc(ry[i].0) && (rx[i].1 is Null
            <==> ry[i].1 is Null) by {
            assert(rx[i] == xs[i] && ry[i] == ys[i]);
        }
        lemma_screened_alike(rx, ry);
        assert(nfc(xs[n].0) == nfc(ys[n].0));
        assert(xs[n].1 is Null <==> ys[n].1 is Null);
    }
}

/// Canonically equivalent values serialise alike: replacing strings and object
/// keys by text with the same NFC normal form changes neither whether
/// serialisation succeeds nor, when it does, the text it gives.
pub proof fn lemma_equivalent_values_serialise_alike(a: Json, b: Json)
    requires
        nfc_equivalent(a, b),
    ensures
        same_outcome(canonical(a), canonical(b)),
    decreases a,
{
    match a {
        Json::Array(xs) => {
            let ys = b->Array_0;
            lemma_items_equivalent(xs, ys);
            lemma_canonical_items_index(xs);
            lemma_canonical_items_index(ys);
            assert forall|i: int| 0 <= i < xs.len() implies same_outcome(
                #[trigger] canonical_items(xs)[i],
                canonical_items(ys)[i],
            ) by {
                assert(decreases_to!(a => xs[i]));
                lemma_equivalent_values_serialise_alike(xs[i], ys[i]);
            }
            lemma_joined_same_outcome(canonical_items(xs), canonical_items(ys));
        },
        Json::Object(xs) => {
            let ys = b->Object_0;
            lemma_members_equivalent(xs, ys);
            assert forall|i: int| 0 <= i < xs.len() implies nfc((#[trigger] xs[i]).0) == nfc(ys[i].0) && (xs[i].1 is Null
                <==> ys[i].1 is Null) by {
                assert(nfc_equivalent(xs[i].1, ys[i].1));
            }
            lemma_screened_alike(xs, ys);
            if let Ok(keyed) = screened(xs) {
                let order = sorted_by_key(keyed);
                lemma_canonical_members_index(xs, order);
                lemma_canonical_members_index(ys, order);
                assert forall|j: int| 0 <= j < order.len() implies same_outcome(
                    #[trigger] canonical_members(xs, order)[j],
                    canonical_members(ys, order)[j],
                ) by {
                    let p = order[j].1;
                    if 0 <= p < xs.len() {
                        assert(decreases_to!(a => xs[p].1));
                        assert(nfc_equivalent(xs[p].1, ys[p].1));
                        lemma_equivalent_values_serialise_alike(xs[p].1, ys[p].1);
                    }
                }
                lemma_joined_same_outcome(canonical_members(xs, order), canonical_members(ys, order));
            }
        },
        _ => {},
    }
}

} // verus!
