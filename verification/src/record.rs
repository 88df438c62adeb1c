//! Record commitments: the committed fields of an envelope, their commitment,
//! and checking a commitment that a record claims.

use vstd::prelude::*;

use crate::canonical::{canonical, canonicalise, has_key, members_model, result_view, CanonicalError, Refusal};
use crate::digest::{hex_of, sha256, sha256_hex, sha256_hex_of};
use vstd::utf8::encode_utf8;
use crate::json::{
    copy_value, get, json_get, lemma_member_value_found, lemma_member_value_unique,
    lemma_members_well_formed, member_value, well_formed, Json, JsonValue,
};
use crate::order::{code_point_lt, keys_distinct, lemma_strictly_ascending_distinct};
use crate::laws::{
    has_collision, has_null, lemma_canonical_refusals,
    lemma_some_member,
};
use crate::canonical::{ascii_keys_unchanged, nfc, screened};
use vstd::utf8::is_ascii_chars;

verus! {

/// The fields a commitment covers, in key order.
///
/// `anchor` is not among them: it is a statement about the commitment, which
/// lets one commitment be anchored in more than one place. `terms` is not
/// either: terms are issued and revoked after sealing.
pub open spec fn committed_names() -> Seq<Seq<char>> {
    seq![
        "attestations"@,
        "commitmentAlgorithm"@,
        "extensions"@,
        "formatVersion"@,
        "holder"@,
        "identification"@,
        "jurisdictionBindings"@,
        "parents"@,
        "profile"@,
        "profileData"@,
        "recordId"@,
        "registrations"@,
        "sealedAt"@,
        "subject"@,
        "subjectType"@,
        "supersedes"@,
    ]
}

/// Fields that are committed as an empty array when absent.
pub open spec fn always_present(name: Seq<char>) -> bool {
    name == "attestations"@ || name == "parents"@
}

/// What the committed object holds for `name`: the envelope's value when it is
/// present, a null included (which makes the record invalid); when it is
/// absent, an empty array for an always-present field and nothing otherwise.
pub open spec fn committed_member(envelope: Json, name: Seq<char>) -> Option<(Seq<char>, Json)> {
    match json_get(envelope, name) {
        Some(v) => Some((name, v)),
        None => if always_present(name) {
            Some((name, Json::Array(Seq::empty())))
        } else {
            None
        },
    }
}

/// The committed members for `names`, in that order.
pub open spec fn committed_members(envelope: Json, names: Seq<Seq<char>>) -> Seq<(Seq<char>, Json)>
    decreases names.len(),
{
    if names.len() == 0 {
        Seq::empty()
    } else {
        let rest = committed_members(envelope, names.drop_last());
        match committed_member(envelope, names.last()) {
            Some(m) => rest.push(m),
            None => rest,
        }
    }
}

/// The object of committed fields of an envelope.
pub open spec fn committed(envelope: Json) -> Json {
    Json::Object(committed_members(envelope, committed_names()))
}

/// The commitment of an envelope: the hexadecimal SHA-256 of the canonical
/// serialisation of its committed fields, or why that serialisation is refused.
pub open spec fn commitment(envelope: Json) -> Result<Seq<char>, Refusal> {
    match canonical(committed(envelope)) {
        Ok(s) => Ok(sha256_hex_of(s)),
        Err(e) => Err(e),
    }
}

/// Whether an envelope claims, as the string member `commitment`, exactly the
/// commitment computed from it.
pub open spec fn commitment_holds(envelope: Json) -> bool {
    match json_get(envelope, "commitment"@) {
        Some(Json::String(claimed)) => commitment(envelope) == Ok::<Seq<char>, Refusal>(claimed),
        _ => false,
    }
}

fn committed_field_name(i: usize) -> (r: &'static str)
    requires
        i < 16,
    ensures
        r@ == committed_names()[i as int],
{
    match i {
        0 => "attestations",
        1 => "commitmentAlgorithm",
        2 => "extensions",
        3 => "formatVersion",
        4 => "holder",
        5 => "identification",
        6 => "jurisdictionBindings",
        7 => "parents",
        8 => "profile",
        9 => "profileData",
        10 => "recordId",
        11 => "registrations",
        12 => "sealedAt",
        13 => "subject",
        14 => "subjectType",
        _ => "supersedes",
    }
}

fn is_always_present(name: &str) -> (r: bool)
    ensures
        r == always_present(name@),
{
    let n = name.to_owned();
    n == "attestations".to_owned() || n == "parents".to_owned()
}

/// The fields of `envelope` that its commitment covers, as an object.
///
/// A field that is absent is left out, except `attestations` and `parents`,
/// which are then committed as empty arrays. A field that is present is kept
/// as it is, a null included: a committed field whose value is null makes the
/// record invalid, and serialising the committed fields refuses it. An
/// envelope that is not an object has no fields.
pub fn committed_fields(envelope: &JsonValue) -> (r: JsonValue)
    ensures
        r.model() == committed(envelope.model()),
{
    let ghost env = envelope.model();
    let mut out: Vec<(String, JsonValue)> = Vec::new();
    let mut i: usize = 0;
    assert(committed_names().len() == 16);
    assert(committed_names().take(0) =~= Seq::<Seq<char>>::empty());
    assert(members_model(out@) =~= Seq::<(Seq<char>, Json)>::empty());
    while i < 16
        invariant
            i <= 16,
            env == envelope.model(),
            committed_names().len() == 16,
            members_model(out@) == committed_members(env, committed_names().take(i as int)),
        decreases 16 - i,
    {
        let name = committed_field_name(i);
        let ghost names = committed_names().take(i + 1);
        assert(names.drop_last() =~= committed_names().take(i as int));
        assert(names.last() == name@);
        let ghost before = out@;
        let found = get(envelope, name);
        let keep = match found {
            Some(v) => Some(copy_value(v)),
            None => None,
        };
        match keep {
            Some(v) => {
                out.push((name.to_owned(), v));
            },
            None => {
                if is_always_present(name) {
                    let none: Vec<JsonValue> = Vec::new();
                    let empty = JsonValue::Array(none);
                    assert(empty.model()->Array_0 =~= Seq::<Json>::empty());
                    out.push((name.to_owned(), empty));
                }
            },
        }
        assert(members_model(out@) =~= committed_members(env, names));
        i = i + 1;
    }
    assert(committed_names().take(16) =~= committed_names());
    let r = JsonValue::Object(out);
    assert(r.model()->Object_0 =~= members_model(out@));
    r
}

/// The commitment of `envelope`: SHA-256 over the canonical serialisation of
/// its committed fields, as lowercase hexadecimal, or the reason that
/// serialisation refused the record.
pub fn compute_commitment(envelope: &JsonValue) -> (r: Result<String, CanonicalError>)
    ensures
        result_view(r) == commitment(envelope.model()),
        (r is Ok) <==> (!has_null(committed(envelope.model())) && !has_collision(committed(envelope.model()))),
        (exists|i: int|
            0 <= i < committed_names().len() && json_get(envelope.model(), #[trigger] committed_names()[i]) == Some(
                Json::Null,
            )) ==> (result_view(r) matches Err(Refusal::NullValue(Some(k))) && committed_names().contains(k)
            && json_get(envelope.model(), k) == Some(Json::Null)),
{
    let fields = committed_fields(envelope);
    let c = canonicalise(&fields);
    proof {
        if exists|i: int|
            0 <= i < committed_names().len() && json_get(envelope.model(), #[trigger] committed_names()[i]) == Some(
                Json::Null,
            ) {
            lemma_null_committed_field_named(envelope.model());
        }
    }
    match c {
        Ok(c) => Ok(sha256_hex(c.as_str())),
        Err(e) => Err(e),
    }
}

/// Whether `envelope` holds a string `commitment` equal to the commitment
/// computed from it. A record that is refused does not verify.
///
/// This shows that the record is unaltered since sealing, not that it is true.
pub fn verify_commitment(envelope: &JsonValue) -> (r: bool)
    ensures
        r == commitment_holds(envelope.model()),
{
    match get(envelope, "commitment") {
        Some(found) => match found {
            JsonValue::String(claimed) => match compute_commitment(envelope) {
                Ok(computed) => computed == *claimed,
                Err(_) => false,
            },
            _ => false,
        },
        None => false,
    }
}


/// The committed members for `names` depend only on what is committed for
/// each of those names.
proof fn lemma_committed_members_agree(e1: Json, e2: Json, names: Seq<Seq<char>>)
    requires
        forall|i: int| 0 <= i < names.len() ==> committed_member(e1, #[trigger] names[i]) == committed_member(e2, names[i]),
    ensures
        committed_members(e1, names) == committed_members(e2, names),
    decreases names.len(),
{
    if names.len() > 0 {
        let rest = names.drop_last();
        assert forall|i: int| 0 <= i < rest.len() implies committed_member(e1, #[trigger] rest[i]) == committed_member(e2, rest[i]) by {
            assert(rest[i] == names[i]);
        }
        lemma_committed_members_agree(e1, e2, rest);
        assert(committed_member(e1, names[names.len() - 1]) == committed_member(e2, names[names.len() - 1]));
    }
}

/// A commitment reads nothing of an envelope but its committed fields: two
/// envelopes that agree on every committed field have the same committed
/// object and the same commitment, whatever else they hold (an `anchor`,
/// `terms`, the claimed `commitment`).
pub proof fn lemma_commitment_reads_only_committed_fields(e1: Json, e2: Json)
    requires
        forall|i: int|
            0 <= i < committed_names().len() ==> json_get(e1, #[trigger] committed_names()[i]) == json_get(
                e2,
                committed_names()[i],
            ),
    ensures
        committed(e1) == committed(e2),
        commitment(e1) == commitment(e2),
{
    assert forall|i: int| 0 <= i < committed_names().len() implies committed_member(e1, #[trigger] committed_names()[i])
        == committed_member(e2, committed_names()[i]) by {
        assert(json_get(e1, committed_names()[i]) == json_get(e2, committed_names()[i]));
    }
    lemma_committed_members_agree(e1, e2, committed_names());
}

proof fn lemma_committed_members_shape(envelope: Json, names: Seq<Seq<char>>)
    ensures
        forall|j: int|
            0 <= j < committed_members(envelope, names).len() ==> names.contains(
                (#[trigger] committed_members(envelope, names)[j]).0,
            ),
        forall|i: int|
            0 <= i < names.len() && always_present(#[trigger] names[i]) ==> has_key(
                committed_members(envelope, names),
                names[i],
            ),
        forall|i: int|
            0 <= i < names.len() && (#[trigger] json_get(envelope, names[i])) is Some ==> committed_members(
                envelope,
                names,
            ).contains((names[i], json_get(envelope, names[i])->Some_0)),
    decreases names.len(),
{
    if names.len() > 0 {
        let rest = names.drop_last();
        let ms = committed_members(envelope, names);
        let rs = committed_members(envelope, rest);
        lemma_committed_members_shape(envelope, rest);
        assert forall|j: int| 0 <= j < ms.len() implies names.contains((#[trigger] ms[j]).0) by {
            if j < rs.len() {
                assert(ms[j] == rs[j]);
                let t = choose|t: int| 0 <= t < rest.len() && rest[t] == rs[j].0;
                assert(names[t] == rest[t]);
            } else {
                assert(names[names.len() - 1] == ms[j].0);
            }
        }
        assert forall|i: int| 0 <= i < names.len() && always_present(#[trigger] names[i]) implies has_key(ms, names[i]) by {
            if i < rest.len() {
                assert(rest[i] == names[i]);
                let t = choose|t: int| 0 <= t < rs.len() && #[trigger] rs[t].0 == rest[i];
                assert(ms[t] == rs[t]);
            } else {
                assert(ms[ms.len() - 1].0 == names[i]);
            }
        }
        assert forall|i: int| 0 <= i < names.len() && (#[trigger] json_get(envelope, names[i])) is Some implies ms.contains(
            (names[i], json_get(envelope, names[i])->Some_0),
        ) by {
            if i < rest.len() {
                assert(rest[i] == names[i]);
                assert(json_get(envelope, rest[i]) is Some);
                let t = choose|t: int| 0 <= t < rs.len() && rs[t] == (rest[i], json_get(envelope, rest[i])->Some_0);
                assert(ms[t] == rs[t]);
            } else {
                assert(ms[ms.len() - 1] == (names[i], json_get(envelope, names[i])->Some_0));
            }
        }
    }
}

/// The committed object holds only committed fields, holds every committed
/// field that the envelope has (a null included), and always holds
/// `attestations` and `parents`.
pub proof fn lemma_committed_shape(envelope: Json)
    ensures
        forall|j: int|
            0 <= j < committed(envelope)->Object_0.len() ==> committed_names().contains(
                (#[trigger] committed(envelope)->Object_0[j]).0,
            ),
        forall|i: int|
            0 <= i < committed_names().len() && (#[trigger] json_get(envelope, committed_names()[i])) is Some
                ==> committed(envelope)->Object_0.contains(
                (committed_names()[i], json_get(envelope, committed_names()[i])->Some_0),
            ),
        has_key(committed(envelope)->Object_0, "attestations"@),
        has_key(committed(envelope)->Object_0, "parents"@),
{
    lemma_committed_members_shape(envelope, committed_names());
    assert(always_present(committed_names()[0]));
    assert(always_present(committed_names()[7]));
}

/// A committed field whose value is null makes the record invalid: its
/// commitment is a refusal, and no claimed commitment verifies.
pub proof fn lemma_null_committed_field_refused(envelope: Json, i: int)
    requires
        0 <= i < committed_names().len(),
        json_get(envelope, committed_names()[i]) == Some(Json::Null),
    ensures
        commitment(envelope) is Err,
        !commitment_holds(envelope),
{
    lemma_committed_shape(envelope);
    let ms = committed(envelope)->Object_0;
    let t = choose|t: int| 0 <= t < ms.len() && ms[t] == (committed_names()[i], Json::Null);
    lemma_some_member(ms);
    assert(has_null(ms[t].1));
    assert(has_null(committed(envelope)));
    lemma_canonical_refusals(committed(envelope));
}

/// The committed field names are in strictly ascending code-point order.
pub proof fn lemma_committed_names_ascending()
    ensures
        forall|i: int, j: int|
            0 <= i < j < committed_names().len() ==> code_point_lt(
                #[trigger] committed_names()[i],
                #[trigger] committed_names()[j],
            ),
{
    reveal_strlit("attestations");
    reveal_strlit("commitmentAlgorithm");
    reveal_strlit("extensions");
    reveal_strlit("formatVersion");
    reveal_strlit("holder");
    reveal_strlit("identification");
    reveal_strlit("jurisdictionBindings");
    reveal_strlit("parents");
    reveal_strlit("profile");
    reveal_strlit("profileData");
    reveal_strlit("recordId");
    reveal_strlit("registrations");
    reveal_strlit("sealedAt");
    reveal_strlit("subject");
    reveal_strlit("subjectType");
    reveal_strlit("supersedes");
    reveal_with_fuel(code_point_lt, 9);
}

/// Committed members for names in ascending order come in ascending key
/// order; each is what is committed for its name; and everything committed
/// for a name is among them.
proof fn lemma_committed_members_keys(envelope: Json, names: Seq<Seq<char>>)
    requires
        forall|i: int, j: int| 0 <= i < j < names.len() ==> code_point_lt(#[trigger] names[i], #[trigger] names[j]),
    ensures
        forall|a: int, b: int|
            0 <= a < b < committed_members(envelope, names).len() ==> code_point_lt(
                (#[trigger] committed_members(envelope, names)[a]).0,
                (#[trigger] committed_members(envelope, names)[b]).0,
            ),
        forall|j: int|
            0 <= j < committed_members(envelope, names).len() ==> exists|t: int|
                0 <= t < names.len() && names[t] == (#[trigger] committed_members(envelope, names)[j]).0
                    && committed_member(envelope, names[t]) == Some(committed_members(envelope, names)[j]),
        forall|t: int|
            0 <= t < names.len() && (#[trigger] committed_member(envelope, names[t])) is Some
                ==> committed_members(envelope, names).contains(committed_member(envelope, names[t])->Some_0),
    decreases names.len(),
{
    if names.len() > 0 {
        let rest = names.drop_last();
        let n = names.len() - 1;
        let ms = committed_members(envelope, names);
        let rs = committed_members(envelope, rest);
        assert forall|i: int, j: int| 0 <= i < j < rest.len() implies code_point_lt(#[trigger] rest[i], #[trigger] rest[j]) by {
            assert(rest[i] == names[i] && rest[j] == names[j]);
        }
        lemma_committed_members_keys(envelope, rest);
        assert forall|j: int| 0 <= j < rs.len() implies exists|t: int|
            0 <= t < names.len() && names[t] == (#[trigger] rs[j]).0 && committed_member(envelope, names[t]) == Some(rs[j]) by {
            let t = choose|t: int| 0 <= t < rest.len() && rest[t] == rs[j].0 && committed_member(envelope, rest[t]) == Some(rs[j]);
            assert(names[t] == rest[t]);
        }
        assert forall|a: int, b: int| 0 <= a < b < ms.len() implies code_point_lt((#[trigger] ms[a]).0, (#[trigger] ms[b]).0) by {
            assert(ms[a] == rs[a]);
            if b < rs.len() {
                assert(ms[b] == rs[b]);
            } else {
                let t = choose|t: int| 0 <= t < names.len() && names[t] == rs[a].0 && committed_member(envelope, names[t]) == Some(rs[a]);
                assert(t != n) by {
                    let t2 = choose|t2: int| 0 <= t2 < rest.len() && rest[t2] == rs[a].0 && committed_member(envelope, rest[t2]) == Some(rs[a]);
                    assert(names[t2] == rest[t2]);
                    if t == n {
                        crate::order::lemma_code_point_lt_irreflexive(names[n]);
                    }
                }
                assert(ms[b].0 == names[n]);
            }
        }
        assert forall|j: int| 0 <= j < ms.len() implies exists|t: int|
            0 <= t < names.len() && names[t] == (#[trigger] ms[j]).0 && committed_member(envelope, names[t]) == Some(ms[j]) by {
            if j < rs.len() {
                assert(ms[j] == rs[j]);
            } else {
                assert(names[n] == ms[j].0);
            }
        }
        assert forall|t: int| 0 <= t < names.len() && (#[trigger] committed_member(envelope, names[t])) is Some implies ms.contains(
            committed_member(envelope, names[t])->Some_0,
        ) by {
            if t < n {
                assert(rest[t] == names[t]);
                assert(committed_member(envelope, rest[t]) is Some);
                let k = choose|k: int| 0 <= k < rs.len() && rs[k] == committed_member(envelope, rest[t])->Some_0;
                assert(ms[k] == rs[k]);
            } else {
                assert(ms[ms.len() - 1] == committed_member(envelope, names[t])->Some_0);
            }
        }
    }
}

/// Taking the committed fields twice commits the same fields as taking them
/// once.
pub proof fn lemma_committed_idempotent(envelope: Json)
    ensures
        committed(committed(envelope)) == committed(envelope),
{
    let names = committed_names();
    let c = committed(envelope);
    let cm = c->Object_0;
    lemma_committed_names_ascending();
    lemma_committed_members_keys(envelope, names);
    lemma_strictly_ascending_distinct(cm);
    assert forall|i: int| 0 <= i < names.len() implies committed_member(c, #[trigger] names[i]) == committed_member(
        envelope,
        names[i],
    ) by {
        let f = names[i];
        if let Some(m) = committed_member(envelope, f) {
            let j = choose|j: int| 0 <= j < cm.len() && cm[j] == m;
            lemma_member_value_unique(cm, j);
        } else {
            lemma_member_value_found(cm, f);
            if let Some(v) = member_value(cm, f) {
                let j = choose|j: int| 0 <= j < cm.len() && cm[j] == (f, v);
                let t = choose|t: int| 0 <= t < names.len() && names[t] == cm[j].0 && committed_member(envelope, names[t]) == Some(cm[j]);
            }
        }
    }
    lemma_committed_members_agree(c, envelope, names);
}

/// The committed fields of a well-formed envelope are well formed: keys in
/// strictly ascending code-point order, each value taken from the envelope or
/// an empty array.
pub proof fn lemma_committed_well_formed(envelope: Json)
    requires
        well_formed(envelope),
    ensures
        well_formed(committed(envelope)),
{
    let names = committed_names();
    let cm = committed(envelope)->Object_0;
    lemma_committed_names_ascending();
    lemma_committed_members_keys(envelope, names);
    lemma_members_well_formed(cm);
    assert forall|j: int| 0 <= j < cm.len() implies well_formed(#[trigger] cm[j].1) by {
        let t = choose|t: int| 0 <= t < names.len() && names[t] == cm[j].0 && committed_member(envelope, names[t]) == Some(cm[j]);
        let f = names[t];
        if let Json::Object(ems) = envelope {
            if let Some(v) = member_value(ems, f) {
                lemma_member_value_found(ems, f);
                lemma_members_well_formed(ems);
                let k = choose|k: int| 0 <= k < ems.len() && ems[k] == (f, v);
                assert(well_formed(ems[k].1));
            } else {
                assert(cm[j].1 == Json::Array(Seq::empty()));
            }
        } else {
            assert(cm[j].1 == Json::Array(Seq::empty()));
        }
    }
}

/// Every committed field name is made of ASCII characters alone.
proof fn lemma_committed_names_ascii()
    ensures
        forall|i: int| 0 <= i < committed_names().len() ==> is_ascii_chars(#[trigger] committed_names()[i]),
{
    reveal_strlit("attestations");
    reveal_strlit("commitmentAlgorithm");
    reveal_strlit("extensions");
    reveal_strlit("formatVersion");
    reveal_strlit("holder");
    reveal_strlit("identification");
    reveal_strlit("jurisdictionBindings");
    reveal_strlit("parents");
    reveal_strlit("profile");
    reveal_strlit("profileData");
    reveal_strlit("recordId");
    reveal_strlit("registrations");
    reveal_strlit("sealedAt");
    reveal_strlit("subject");
    reveal_strlit("subjectType");
    reveal_strlit("supersedes");
}

/// Screening members whose keys are distinct, ASCII and their own normal
/// forms: the first `n` members are kept as they are, with their positions,
/// unless one of them is null, in which case the first null is refused under
/// its key.
proof fn lemma_screened_plain_keys(ms: Seq<(Seq<char>, Json)>, n: int)
    requires
        0 <= n <= ms.len(),
        keys_distinct(ms),
        forall|i: int| 0 <= i < ms.len() ==> is_ascii_chars(#[trigger] ms[i].0),
        forall|i: int|
            #![trigger screened(ms.take(i))]
            0 <= i < ms.len() && screened(ms.take(i)) is Ok && !(ms[i].1 is Null) && is_ascii_chars(ms[i].0)
                ==> nfc(ms[i].0) == ms[i].0,
    ensures
        (forall|i: int| 0 <= i < n ==> !((#[trigger] ms[i]).1 is Null)) ==> screened(ms.take(n))
            == Ok::<Seq<(Seq<char>, int)>, Refusal>(Seq::new(n as nat, |i: int| (ms[i].0, i))),
        (exists|i: int| 0 <= i < n && (#[trigger] ms[i]).1 is Null) ==> (screened(ms.take(n)) matches Err(
            Refusal::NullValue(Some(k)),
        ) && exists|i: int| 0 <= i < n && #[trigger] ms[i] == (k, Json::Null)),
    decreases n,
{
    if n == 0 {
        assert(ms.take(0) =~= Seq::<(Seq<char>, Json)>::empty());
        assert(Seq::new(0nat, |i: int| (ms[i].0, i)) =~= Seq::<(Seq<char>, int)>::empty());
    } else {
        let m = n - 1;
        lemma_screened_plain_keys(ms, m);
        assert(ms.take(n).drop_last() =~= ms.take(m));
        assert(ms.take(n).last() == ms[m]);
        if exists|i: int| 0 <= i < m && (#[trigger] ms[i]).1 is Null {
            let k = screened(ms.take(m))->Err_0->NullValue_0->Some_0;
            let i = choose|i: int| 0 <= i < m && #[trigger] ms[i] == (k, Json::Null);
            assert(ms[i] == (k, Json::Null));
        } else {
            let acc = Seq::new(m as nat, |i: int| (ms[i].0, i));
            assert(screened(ms.take(m)) == Ok::<Seq<(Seq<char>, int)>, Refusal>(acc));
            if ms[m].1 is Null {
                assert(ms[m] == (ms[m].0, Json::Null));
            } else {
                assert(is_ascii_chars(ms[m].0));
                assert(screened(ms.take(m)) is Ok);
                assert(nfc(ms[m].0) == ms[m].0);
                assert(!has_key(acc, ms[m].0)) by {
                    if has_key(acc, ms[m].0) {
                        let j = choose|j: int| 0 <= j < acc.len() && #[trigger] acc[j].0 == ms[m].0;
                        assert(ms[j].0 != ms[m].0);
                    }
                }
                assert(acc.push((ms[m].0, m)) =~= Seq::new(n as nat, |i: int| (ms[i].0, i)));
                assert forall|i: int| 0 <= i < n implies !((#[trigger] ms[i]).1 is Null) by {
                    if i < m {
                    }
                }
            }
        }
    }
}

/// The keys of the committed object are distinct and made of ASCII
/// characters alone.
proof fn lemma_committed_keys_plain(envelope: Json)
    ensures
        keys_distinct(committed(envelope)->Object_0),
        forall|j: int|
            0 <= j < committed(envelope)->Object_0.len() ==> is_ascii_chars(
                #[trigger] committed(envelope)->Object_0[j].0,
            ),
{
    let names = committed_names();
    let cm = committed(envelope)->Object_0;
    lemma_committed_names_ascending();
    lemma_committed_names_ascii();
    lemma_committed_members_keys(envelope, names);
    lemma_strictly_ascending_distinct(cm);
    assert forall|j: int| 0 <= j < cm.len() implies is_ascii_chars(#[trigger] cm[j].0) by {
        let t = choose|t: int| 0 <= t < names.len() && names[t] == cm[j].0 && committed_member(envelope, names[t]) == Some(cm[j]);
        assert(is_ascii_chars(names[t]));
    }
}

/// When a committed field of the envelope is null, the serialisation of the
/// committed fields is refused under the key of a committed field whose value
/// is null (the first in key order), given what screening normalised.
#[verifier::spinoff_prover]
proof fn lemma_null_committed_field_named(envelope: Json)
    requires
        exists|i: int|
            0 <= i < committed_names().len() && json_get(envelope, #[trigger] committed_names()[i]) == Some(Json::Null),
        ascii_keys_unchanged(committed(envelope)->Object_0),
    ensures
        canonical(committed(envelope)) matches Err(Refusal::NullValue(Some(k))) && committed_names().contains(k)
            && json_get(envelope, k) == Some(Json::Null),
{
    let names = committed_names();
    let cm = committed(envelope)->Object_0;
    assert(exists|t: int| 0 <= t < cm.len() && (#[trigger] cm[t]).1 is Null) by {
        let i = choose|i: int| 0 <= i < names.len() && json_get(envelope, #[trigger] names[i]) == Some(Json::Null);
        lemma_committed_shape(envelope);
        assert(json_get(envelope, names[i]) is Some);
        let t = choose|t: int| 0 <= t < cm.len() && cm[t] == (names[i], Json::Null);
        assert(cm[t].1 is Null);
    }
    lemma_committed_keys_plain(envelope);
    assert forall|x: int|
        #![trigger screened(cm.take(x))]
        0 <= x < cm.len() && screened(cm.take(x)) is Ok && !(cm[x].1 is Null) && is_ascii_chars(cm[x].0)
            implies nfc(cm[x].0) == cm[x].0 by {
        assert(is_ascii_chars(cm[x].0));
    }
    lemma_screened_plain_keys(cm, cm.len() as int);
    assert(cm.take(cm.len() as int) =~= cm);
    let k = screened(cm)->Err_0->NullValue_0->Some_0;
    assert(committed_names().contains(k) && json_get(envelope, k) == Some(Json::Null)) by {
        let j = choose|j: int| 0 <= j < cm.len() && #[trigger] cm[j] == (k, Json::Null);
        lemma_committed_names_ascending();
        lemma_committed_members_keys(envelope, names);
        let tj = choose|tt: int| 0 <= tt < names.len() && names[tt] == cm[j].0 && committed_member(envelope, names[tt]) == Some(cm[j]);
        assert(names[tj] == k);
        assert(committed_member(envelope, k) == Some((k, Json::Null)));
    }
}


/// The commitment covers these sixteen fields: each one that the envelope
/// holds is committed with the envelope's value; `attestations` and `parents`
/// are committed as empty arrays when absent; and nothing else is committed,
/// `anchor` and `terms` in particular.
pub proof fn lemma_committed_field_list(envelope: Json)
    ensures
        json_get(envelope, "attestations"@) is Some ==> committed(envelope)->Object_0.contains(
            ("attestations"@, json_get(envelope, "attestations"@)->Some_0),
        ),
        json_get(envelope, "commitmentAlgorithm"@) is Some ==> committed(envelope)->Object_0.contains(
            ("commitmentAlgorithm"@, json_get(envelope, "commitmentAlgorithm"@)->Some_0),
        ),
        json_get(envelope, "extensions"@) is Some ==> committed(envelope)->Object_0.contains(
            ("extensions"@, json_get(envelope, "extensions"@)->Some_0),
        ),
        json_get(envelope, "formatVersion"@) is Some ==> committed(envelope)->Object_0.contains(
            ("formatVersion"@, json_get(envelope, "formatVersion"@)->Some_0),
        ),
        json_get(envelope, "holder"@) is Some ==> committed(envelope)->Object_0.contains(
            ("holder"@, json_get(envelope, "holder"@)->Some_0),
        ),
        json_get(envelope, "identification"@) is Some ==> committed(envelope)->Object_0.contains(
            ("identification"@, json_get(envelope, "identification"@)->Some_0),
        ),
        json_get(envelope, "jurisdictionBindings"@) is Some ==> committed(envelope)->Object_0.contains(
            ("jurisdictionBindings"@, json_get(envelope, "jurisdictionBindings"@)->Some_0),
        ),
        json_get(envelope, "parents"@) is Some ==> committed(envelope)->Object_0.contains(
            ("parents"@, json_get(envelope, "parents"@)->Some_0),
        ),
        json_get(envelope, "profile"@) is Some ==> committed(envelope)->Object_0.contains(
            ("profile"@, json_get(envelope, "profile"@)->Some_0),
        ),
        json_get(envelope, "profileData"@) is Some ==> committed(envelope)->Object_0.contains(
            ("profileData"@, json_get(envelope, "profileData"@)->Some_0),
        ),
        json_get(envelope, "recordId"@) is Some ==> committed(envelope)->Object_0.contains(
            ("recordId"@, json_get(envelope, "recordId"@)->Some_0),
        ),
        json_get(envelope, "registrations"@) is Some ==> committed(envelope)->Object_0.contains(
            ("registrations"@, json_get(envelope, "registrations"@)->Some_0),
        ),
        json_get(envelope, "sealedAt"@) is Some ==> committed(envelope)->Object_0.contains(
            ("sealedAt"@, json_get(envelope, "sealedAt"@)->Some_0),
        ),
        json_get(envelope, "subject"@) is Some ==> committed(envelope)->Object_0.contains(
            ("subject"@, json_get(envelope, "subject"@)->Some_0),
        ),
        json_get(envelope, "subjectType"@) is Some ==> committed(envelope)->Object_0.contains(
            ("subjectType"@, json_get(envelope, "subjectType"@)->Some_0),
        ),
        json_get(envelope, "supersedes"@) is Some ==> committed(envelope)->Object_0.contains(
            ("supersedes"@, json_get(envelope, "supersedes"@)->Some_0),
        ),
        json_get(envelope, "attestations"@) is None ==> committed(envelope)->Object_0.contains(
            ("attestations"@, Json::Array(Seq::empty())),
        ),
        json_get(envelope, "parents"@) is None ==> committed(envelope)->Object_0.contains(
            ("parents"@, Json::Array(Seq::empty())),
        ),
        forall|j: int|
            0 <= j < committed(envelope)->Object_0.len() ==> {
                let k = (#[trigger] committed(envelope)->Object_0[j]).0;
                k == "attestations"@ || k == "commitmentAlgorithm"@ || k == "extensions"@ || k == "formatVersion"@ || k == "holder"@ || k == "identification"@ || k == "jurisdictionBindings"@ || k == "parents"@ || k == "profile"@ || k == "profileData"@ || k == "recordId"@ || k == "registrations"@ || k == "sealedAt"@ || k == "subject"@ || k == "subjectType"@ || k == "supersedes"@
            },
        !has_key(committed(envelope)->Object_0, "anchor"@),
        !has_key(committed(envelope)->Object_0, "terms"@),
{
    let cm = committed(envelope)->Object_0;
    lemma_committed_shape(envelope);
    lemma_committed_members_shape(envelope, committed_names());
    lemma_committed_names_ascending();
    lemma_committed_members_keys(envelope, committed_names());
    assert(committed_member(envelope, committed_names()[0]) is Some);
    assert(committed_member(envelope, committed_names()[7]) is Some);
    assert(committed_names()[0] == "attestations"@);
    if json_get(envelope, committed_names()[0]) is Some {}
    assert(committed_names()[1] == "commitmentAlgorithm"@);
    if json_get(envelope, committed_names()[1]) is Some {}
    assert(committed_names()[2] == "extensions"@);
    if json_get(envelope, committed_names()[2]) is Some {}
    assert(committed_names()[3] == "formatVersion"@);
    if json_get(envelope, committed_names()[3]) is Some {}
    assert(committed_names()[4] == "holder"@);
    if json_get(envelope, committed_names()[4]) is Some {}
    assert(committed_names()[5] == "identification"@);
    if json_get(envelope, committed_names()[5]) is Some {}
    assert(committed_names()[6] == "jurisdictionBindings"@);
    if json_get(envelope, committed_names()[6]) is Some {}
    assert(committed_names()[7] == "parents"@);
    if json_get(envelope, committed_names()[7]) is Some {}
    assert(committed_names()[8] == "profile"@);
    if json_get(envelope, committed_names()[8]) is Some {}
    assert(committed_names()[9] == "profileData"@);
    if json_get(envelope, committed_names()[9]) is Some {}
    assert(committed_names()[10] == "recordId"@);
    if json_get(envelope, committed_names()[10]) is Some {}
    assert(committed_names()[11] == "registrations"@);
    if json_get(envelope, committed_names()[11]) is Some {}
    assert(committed_names()[12] == "sealedAt"@);
    if json_get(envelope, committed_names()[12]) is Some {}
    assert(committed_names()[13] == "subject"@);
    if json_get(envelope, committed_names()[13]) is Some {}
    assert(committed_names()[14] == "subjectType"@);
    if json_get(envelope, committed_names()[14]) is Some {}
    assert(committed_names()[15] == "supersedes"@);
    if json_get(envelope, committed_names()[15]) is Some {}
    assert forall|j: int| 0 <= j < cm.len() implies {
        let k = (#[trigger] cm[j]).0;
        k == "attestations"@ || k == "commitmentAlgorithm"@ || k == "extensions"@ || k == "formatVersion"@ || k == "holder"@ || k == "identification"@ || k == "jurisdictionBindings"@ || k == "parents"@ || k == "profile"@ || k == "profileData"@ || k == "recordId"@ || k == "registrations"@ || k == "sealedAt"@ || k == "subject"@ || k == "subjectType"@ || k == "supersedes"@
    } by {
        assert(committed_names().contains(cm[j].0));
    }
    reveal_strlit("anchor");
    reveal_strlit("terms");
    reveal_strlit("attestations");
    reveal_strlit("commitmentAlgorithm");
    reveal_strlit("extensions");
    reveal_strlit("formatVersion");
    reveal_strlit("holder");
    reveal_strlit("identification");
    reveal_strlit("jurisdictionBindings");
    reveal_strlit("parents");
    reveal_strlit("profile");
    reveal_strlit("profileData");
    reveal_strlit("recordId");
    reveal_strlit("registrations");
    reveal_strlit("sealedAt");
    reveal_strlit("subject");
    reveal_strlit("subjectType");
    reveal_strlit("supersedes");
    assert("anchor"@.len() != "attestations"@.len());
    assert("anchor"@.len() != "commitmentAlgorithm"@.len());
    assert("anchor"@.len() != "extensions"@.len());
    assert("anchor"@.len() != "formatVersion"@.len());
    assert("anchor"@[0] != "holder"@[0]);
    assert("anchor"@.len() != "identification"@.len());
    assert("anchor"@.len() != "jurisdictionBindings"@.len());
    assert("anchor"@.len() != "parents"@.len());
    assert("anchor"@.len() != "profile"@.len());
    assert("anchor"@.len() != "profileData"@.len());
    assert("anchor"@.len() != "recordId"@.len());
    assert("anchor"@.len() != "registrations"@.len());
    assert("anchor"@.len() != "sealedAt"@.len());
    assert("anchor"@.len() != "subject"@.len());
    assert("anchor"@.len() != "subjectType"@.len());
    assert("anchor"@.len() != "supersedes"@.len());
    assert("terms"@.len() != "attestations"@.len());
    assert("terms"@.len() != "commitmentAlgorithm"@.len());
    assert("terms"@.len() != "extensions"@.len());
    assert("terms"@.len() != "formatVersion"@.len());
    assert("terms"@.len() != "holder"@.len());
    assert("terms"@.len() != "identification"@.len());
    assert("terms"@.len() != "jurisdictionBindings"@.len());
    assert("terms"@.len() != "parents"@.len());
    assert("terms"@.len() != "profile"@.len());
    assert("terms"@.len() != "profileData"@.len());
    assert("terms"@.len() != "recordId"@.len());
    assert("terms"@.len() != "registrations"@.len());
    assert("terms"@.len() != "sealedAt"@.len());
    assert("terms"@.len() != "subject"@.len());
    assert("terms"@.len() != "subjectType"@.len());
    assert("terms"@.len() != "supersedes"@.len());
    if has_key(cm, "anchor"@) {
        let j = choose|j: int| 0 <= j < cm.len() && #[trigger] cm[j].0 == "anchor"@;
        assert(committed_names().contains(cm[j].0));
    }
    if has_key(cm, "terms"@) {
        let j = choose|j: int| 0 <= j < cm.len() && #[trigger] cm[j].0 == "terms"@;
        assert(committed_names().contains(cm[j].0));
    }
}

/// A record verifies exactly when its `commitment` member is a string equal
/// to the commitment computed from it; whatever else it holds (an `anchor`,
/// `terms`) does not matter.
pub proof fn lemma_verification_exactly(envelope: Json)
    ensures
        commitment_holds(envelope) <==> exists|c: Seq<char>|
            json_get(envelope, "commitment"@) == Some(Json::String(c)) && #[trigger] commitment(envelope) == Ok::<
                Seq<char>,
                Refusal,
            >(c),
{
    if let Some(Json::String(c)) = json_get(envelope, "commitment"@) {
        if commitment(envelope) == Ok::<Seq<char>, Refusal>(c) {
            assert(commitment(envelope) == Ok::<Seq<char>, Refusal>(c));
        }
    }
}

/// Two records that agree on every committed field and on the claimed
/// commitment are both accepted or both refused.
pub proof fn lemma_verification_reads_committed_fields_and_claim(e1: Json, e2: Json)
    requires
        forall|i: int|
            0 <= i < committed_names().len() ==> json_get(e1, #[trigger] committed_names()[i]) == json_get(
                e2,
                committed_names()[i],
            ),
        json_get(e1, "commitment"@) == json_get(e2, "commitment"@),
    ensures
        commitment_holds(e1) == commitment_holds(e2),
{
    lemma_commitment_reads_only_committed_fields(e1, e2);
}

/// The commitment is SHA-256, in lowercase hexadecimal, over the UTF-8 bytes
/// of the canonical serialisation of the committed fields.
pub proof fn lemma_commitment_is_utf8_digest(envelope: Json)
    ensures
        match canonical(committed(envelope)) {
            Ok(text) => commitment(envelope) == Ok::<Seq<char>, Refusal>(hex_of(sha256(encode_utf8(text)))),
            Err(r) => commitment(envelope) == Err::<Seq<char>, Refusal>(r),
        },
{
}

} // verus!
