//! Canonical serialisation of JSON values.
//!
//! Object keys are NFC-normalised and sorted by Unicode code point, string
//! values are NFC-normalised, array order is kept, there is no insignificant
//! whitespace, and a null anywhere or two keys that normalise alike make the
//! value invalid.

use unicode_normalization::UnicodeNormalization;
use vstd::prelude::*;
use vstd::utf8::is_ascii_chars;

use crate::digest::hex_digit;
use crate::json::{Json, JsonValue};
use crate::laws::{has_collision, has_null, lemma_canonical_refusals};
use crate::order::{keyed_view, sort_by_key, sorted_by_key, lemma_sorted_by_key_contains};
use crate::text::push_char;

verus! {

/// Why a value was refused.
///
/// These are refusals, not failures: such a value is invalid and is answered
/// with this, never by stopping the caller.
#[derive(Debug, Clone, PartialEq, Eq)]
pub enum CanonicalError {
    /// A null appeared, at any depth. `key` names the member whose value is
    /// null; a null reached through an array has no key.
    NullInCommittedField { key: Option<String> },
    /// Two keys of one object are identical after NFC normalisation; `key` is
    /// the normalised key.
    KeyCollisionAfterNormalisation { key: String },
}

/// The model of a refusal.
pub enum Refusal {
    /// A null, under the key of the member that holds it, if any.
    NullValue(Option<Seq<char>>),
    /// The normalised key that two members share.
    KeyCollision(Seq<char>),
}

impl View for CanonicalError {
    type V = Refusal;

    open spec fn view(&self) -> Refusal {
        match self {
            CanonicalError::NullInCommittedField { key } => Refusal::NullValue(
                match key {
                    Some(k) => Some(k@),
                    None => None,
                },
            ),
            CanonicalError::KeyCollisionAfterNormalisation { key } => Refusal::KeyCollision(key@),
        }
    }
}

/// A description of a refusal for a person to read.
pub open spec fn refusal_message(r: Refusal) -> Seq<char> {
    match r {
        Refusal::NullValue(Some(k)) => "null cannot be committed (field \""@ + k
            + "\"): omit the field instead (spec 4.4 rule 4)"@,
        Refusal::NullValue(None) => "null cannot be committed at any depth: omit the field instead (spec 4.4 rule 4)"@,
        Refusal::KeyCollision(k) => "two keys are identical after Unicode normalisation (\""@ + k
            + "\"); the record is invalid (spec 4.4 rule 1)"@,
    }
}

impl CanonicalError {
    /// Says what was refused and what to do about it.
    pub fn message(&self) -> (r: String)
        ensures
            r@ == refusal_message(self@),
    {
        match self {
            CanonicalError::NullInCommittedField { key: Some(k) } => {
                let mut m = "null cannot be committed (field \"".to_owned();
                m.append(k.as_str());
                m.append("\"): omit the field instead (spec 4.4 rule 4)");
                m
            },
            CanonicalError::NullInCommittedField { key: None } => {
                "null cannot be committed at any depth: omit the field instead (spec 4.4 rule 4)".to_owned()
            },
            CanonicalError::KeyCollisionAfterNormalisation { key } => {
                let mut m = "two keys are identical after Unicode normalisation (\"".to_owned();
                m.append(key.as_str());
                m.append("\"); the record is invalid (spec 4.4 rule 1)");
                m
            },
        }
    }
}

/// The model of a serialisation result.
pub open spec fn result_view(r: Result<String, CanonicalError>) -> Result<Seq<char>, Refusal> {
    match r {
        Ok(s) => Ok(s@),
        Err(e) => Err(e@),
    }
}

/// The NFC normalisation of `s`, as the `unicode-normalization` crate computes it.
pub uninterp spec fn nfc(s: Seq<char>) -> Seq<char>;

/// How one character stands inside a JSON string literal as `serde_json`
/// writes it: quote and backslash behind a backslash; backspace, form feed,
/// line feed, carriage return and tab as `\b \f \n \r \t`; any other
/// character below U+0020 as `\u00` and two lowercase hexadecimal digits;
/// every other character as itself.
pub open spec fn escaped_char(c: char) -> Seq<char> {
    let n = c as u32;
    if c == '"' {
        seq!['\\', '"']
    } else if c == '\\' {
        seq!['\\', '\\']
    } else if n == 8 {
        seq!['\\', 'b']
    } else if n == 12 {
        seq!['\\', 'f']
    } else if n == 10 {
        seq!['\\', 'n']
    } else if n == 13 {
        seq!['\\', 'r']
    } else if n == 9 {
        seq!['\\', 't']
    } else if n < 32 {
        seq!['\\', 'u', '0', '0', hex_digit(n as int / 16), hex_digit(n as int % 16)]
    } else {
        seq![c]
    }
}

/// The characters of `s`, each escaped.
pub open spec fn escaped(s: Seq<char>) -> Seq<char>
    decreases s.len(),
{
    if s.len() == 0 {
        Seq::empty()
    } else {
        escaped(s.drop_last()) + escaped_char(s.last())
    }
}

/// The JSON string literal for `s`: a quote, the escaped characters, a quote.
pub open spec fn json_quoted(s: Seq<char>) -> Seq<char> {
    seq!['"'] + escaped(s) + seq!['"']
}

/// NFC normalisation.
///
/// Trusted: `UnicodeNormalization::nfc` from `unicode-normalization`,
/// collected into a `String`. The contract claims that the result is the NFC
/// form of exactly the characters given (named `nfc`), and that text made of
/// ASCII characters alone is its own NFC form: the crate never decomposes a
/// 7-bit ASCII character (`decompose` in its `normalize.rs`) and treats every
/// ASCII character as an allowed starter (`quick_check` in its
/// `quick_check.rs`). What the NFC form of other text is is left to the crate.
#[verifier::external_body]
fn nfc_normalise(s: &str) -> (r: String)
    ensures
        r@ == nfc(s@),
        is_ascii_chars(s@) ==> r@ == s@,
{
    s.nfc().collect()
}

/// A string as a JSON string literal.
///
/// Trusted: `serde_json::to_string` on a `str`. Serialising a `str` into
/// memory does not fail (serde_json reports errors only from failing
/// `Serialize` impls and non-string map keys), so the `Err` arm is never
/// taken. The contract claims that the result is `json_quoted` of the
/// characters given: serde_json's escape table (`ESCAPE` and
/// `write_char_escape` in its `ser.rs`) escapes exactly the quote, the
/// backslash and the characters below U+0020, as `escaped_char` says.
#[verifier::external_body]
fn json_quote(s: &str) -> (r: String)
    ensures
        r@ == json_quoted(s@),
{
    serde_json::to_string(s).expect("a string always serialises")
}

/// Comma-separated parts, or the first refusal among them.
pub open spec fn joined(parts: Seq<Result<Seq<char>, Refusal>>) -> Result<Seq<char>, Refusal>
    decreases parts.len(),
{
    if parts.len() == 0 {
        Ok(Seq::empty())
    } else {
        match joined(parts.drop_last()) {
            Err(e) => Err(e),
            Ok(acc) => match parts.last() {
                Err(e) => Err(e),
                Ok(p) => Ok(
                    if parts.len() == 1 {
                        p
                    } else {
                        acc + seq![','] + p
                    },
                ),
            },
        }
    }
}

/// `r` between two bracket characters, unless it is a refusal.
pub open spec fn enclosed(open: char, r: Result<Seq<char>, Refusal>, close: char) -> Result<Seq<char>, Refusal> {
    match r {
        Ok(s) => Ok(seq![open] + s + seq![close]),
        Err(e) => Err(e),
    }
}

/// One object member: the key as a JSON string, a colon, the value.
pub open spec fn member_text(key: Seq<char>, value: Result<Seq<char>, Refusal>) -> Result<Seq<char>, Refusal> {
    match value {
        Ok(s) => Ok(json_quoted(key) + seq![':'] + s),
        Err(e) => Err(e),
    }
}

/// Whether some pair of `s` has the key `k`.
pub open spec fn has_key<T>(s: Seq<(Seq<char>, T)>, k: Seq<char>) -> bool {
    exists|i: int| 0 <= i < s.len() && #[trigger] s[i].0 == k
}

/// The members of an object screened in order: a member whose value is null
/// is refused with its key, each key is normalised, and a normalised key seen
/// before is refused. Each kept member is its normalised key and its position.
pub open spec fn screened(members: Seq<(Seq<char>, Json)>) -> Result<Seq<(Seq<char>, int)>, Refusal>
    decreases members.len(),
{
    if members.len() == 0 {
        Ok(Seq::empty())
    } else {
        match screened(members.drop_last()) {
            Err(e) => Err(e),
            Ok(acc) => {
                let k = members.last().0;
                if members.last().1 is Null {
                    Err(Refusal::NullValue(Some(k)))
                } else if has_key(acc, nfc(k)) {
                    Err(Refusal::KeyCollision(nfc(k)))
                } else {
                    Ok(acc.push((nfc(k), members.len() - 1)))
                }
            },
        }
    }
}

/// The canonical serialisation of `v`, or why it is refused.
pub open spec fn canonical(v: Json) -> Result<Seq<char>, Refusal>
    decreases v, 0nat,
{
    match v {
        Json::Null => Err(Refusal::NullValue(None)),
        Json::Bool(b) => Ok(
            if b {
                "true"@
            } else {
                "false"@
            },
        ),
        Json::Number(n) => Ok(n),
        Json::String(s) => Ok(json_quoted(nfc(s))),
        Json::Array(items) => enclosed('[', joined(canonical_items(items)), ']'),
        Json::Object(members) => match screened(members) {
            Err(e) => Err(e),
            Ok(keyed) => enclosed('{', joined(canonical_members(members, sorted_by_key(keyed))), '}'),
        },
    }
}

/// The serialisation of each array element, in order.
pub open spec fn canonical_items(items: Seq<Json>) -> Seq<Result<Seq<char>, Refusal>>
    decreases items, 0nat,
{
    if items.len() == 0 {
        Seq::empty()
    } else {
        canonical_items(items.subrange(0, items.len() - 1)).push(canonical(items[items.len() - 1]))
    }
}

/// The serialisation of each member named in `order` (normalised key and
/// position among `members`), in that order.
pub open spec fn canonical_members(members: Seq<(Seq<char>, Json)>, order: Seq<(Seq<char>, int)>) -> Seq<Result<Seq<char>, Refusal>>
    decreases members, order.len(),
{
    if order.len() == 0 {
        Seq::empty()
    } else {
        let k = order[order.len() - 1].0;
        let p = order[order.len() - 1].1;
        let piece = if 0 <= p < members.len() {
            member_text(k, canonical(members[p].1))
        } else {
            Err(Refusal::NullValue(None))
        };
        canonical_members(members, order.drop_last()).push(piece)
    }
}

/// The models of an object's members.
pub open spec fn members_model(ms: Seq<(String, JsonValue)>) -> Seq<(Seq<char>, Json)> {
    Seq::new(ms.len(), |i: int| (ms[i].0@, ms[i].1.model()))
}

/// Joining one more part: a refusal already found stays; otherwise the new
/// part is appended after a comma, or refuses.
proof fn lemma_joined_push(parts: Seq<Result<Seq<char>, Refusal>>, x: Result<Seq<char>, Refusal>)
    ensures
        joined(parts.push(x)) == match joined(parts) {
            Err(e) => Err(e),
            Ok(acc) => match x {
                Err(e) => Err(e),
                Ok(p) => Ok(
                    if parts.len() == 0 {
                        p
                    } else {
                        acc + seq![','] + p
                    },
                ),
            },
        },
{
    assert(parts.push(x).drop_last() =~= parts);
}

proof fn lemma_canonical_items_step(items: Seq<Json>, i: int)
    requires
        0 <= i < items.len(),
    ensures
        canonical_items(items.take(i + 1)) == canonical_items(items.take(i)).push(canonical(items[i])),
{
    assert(items.take(i + 1).subrange(0, i) =~= items.take(i));
}

/// Once the elements up to `n` hold a refusal, the whole array is refused the same way.
proof fn lemma_items_refusal_persists(items: Seq<Json>, n: int)
    requires
        0 <= n <= items.len(),
        joined(canonical_items(items.take(n))) is Err,
    ensures
        joined(canonical_items(items)) == joined(canonical_items(items.take(n))),
    decreases items.len() - n,
{
    if n < items.len() {
        lemma_canonical_items_step(items, n);
        lemma_joined_push(canonical_items(items.take(n)), canonical(items[n]));
        lemma_items_refusal_persists(items, n + 1);
    } else {
        assert(items.take(n) =~= items);
    }
}

proof fn lemma_canonical_members_step(members: Seq<(Seq<char>, Json)>, order: Seq<(Seq<char>, int)>, i: int)
    requires
        0 <= i < order.len(),
    ensures
        canonical_members(members, order.take(i + 1)) == canonical_members(members, order.take(i)).push(
            if 0 <= order[i].1 < members.len() {
                member_text(order[i].0, canonical(members[order[i].1].1))
            } else {
                Err(Refusal::NullValue(None))
            },
        ),
{
    assert(order.take(i + 1).drop_last() =~= order.take(i));
}

/// Once the members up to `n` hold a refusal, the whole object is refused the same way.
proof fn lemma_members_refusal_persists(members: Seq<(Seq<char>, Json)>, order: Seq<(Seq<char>, int)>, n: int)
    requires
        0 <= n <= order.len(),
        joined(canonical_members(members, order.take(n))) is Err,
    ensures
        joined(canonical_members(members, order)) == joined(canonical_members(members, order.take(n))),
    decreases order.len() - n,
{
    if n < order.len() {
        lemma_canonical_members_step(members, order, n);
        let piece = if 0 <= order[n].1 < members.len() {
            member_text(order[n].0, canonical(members[order[n].1].1))
        } else {
            Err(Refusal::NullValue(None))
        };
        lemma_joined_push(canonical_members(members, order.take(n)), piece);
        lemma_members_refusal_persists(members, order, n + 1);
    } else {
        assert(order.take(n) =~= order);
    }
}

/// Once a prefix of the members is refused, so is the whole.
proof fn lemma_screened_refusal_persists(ms: Seq<(Seq<char>, Json)>, n: int)
    requires
        0 <= n <= ms.len(),
        screened(ms.take(n)) is Err,
    ensures
        screened(ms) == screened(ms.take(n)),
    decreases ms.len() - n,
{
    if n < ms.len() {
        assert(ms.take(n + 1).drop_last() =~= ms.take(n));
        lemma_screened_refusal_persists(ms, n + 1);
    } else {
        assert(ms.take(n) =~= ms);
    }
}

/// Screening keeps positions within the object.
proof fn lemma_screened_positions(ms: Seq<(Seq<char>, Json)>)
    requires
        screened(ms) is Ok,
    ensures
        forall|j: int| 0 <= j < screened(ms)->Ok_0.len() ==> 0 <= #[trigger] screened(ms)->Ok_0[j].1 < ms.len(),
    decreases ms.len(),
{
    if ms.len() > 0 {
        lemma_screened_positions(ms.drop_last());
    }
}

/// Whether every key of `ms` that screening normalises (the members it
/// reaches that are not null) and that is made of ASCII characters alone is its
/// own NFC form.
pub open spec fn ascii_keys_unchanged(ms: Seq<(Seq<char>, Json)>) -> bool {
    forall|i: int|
        0 <= i < ms.len() && screened(ms.take(i)) is Ok && !(ms[i].1 is Null) && is_ascii_chars(
            #[trigger] ms[i].0,
        ) ==> nfc(ms[i].0) == ms[i].0
}

/// Once screening is refused at a prefix, it is refused at every longer prefix.
proof fn lemma_screened_prefix_refusal(ms: Seq<(Seq<char>, Json)>, n: int, t: int)
    requires
        0 <= n <= t <= ms.len(),
        screened(ms.take(n)) is Err,
    ensures
        screened(ms.take(t)) is Err,
{
    assert(ms.take(t).take(n) =~= ms.take(n));
    lemma_screened_refusal_persists(ms.take(t), n);
}

#[verifier::loop_isolation(false)]
fn screen_members(members: &Vec<(String, JsonValue)>) -> (r: Result<Vec<(String, usize)>, CanonicalError>)
    ensures
        match r {
            Ok(keyed) => screened(members_model(members@)) == Ok::<Seq<(Seq<char>, int)>, Refusal>(keyed_view(keyed@)),
            Err(e) => screened(members_model(members@)) == Err::<Seq<(Seq<char>, int)>, Refusal>(e@),
        },
        ascii_keys_unchanged(members_model(members@)),
{
    let ghost mm = members_model(members@);
    let mut keyed: Vec<(String, usize)> = Vec::new();
    let mut i: usize = 0;
    assert(mm.take(0) =~= Seq::<(Seq<char>, Json)>::empty());
    assert(keyed_view(keyed@) =~= Seq::<(Seq<char>, int)>::empty());
    while i < members.len()
        invariant
            i <= members@.len(),
            mm == members_model(members@),
            screened(mm.take(i as int)) == Ok::<Seq<(Seq<char>, int)>, Refusal>(keyed_view(keyed@)),
            forall|t: int|
                0 <= t < i && screened(mm.take(t)) is Ok && !(mm[t].1 is Null) && is_ascii_chars(
                    #[trigger] mm[t].0,
                ) ==> nfc(mm[t].0) == mm[t].0,
        decreases members@.len() - i,
    {
        let ghost acc = keyed_view(keyed@);
        assert(mm.take(i + 1).drop_last() =~= mm.take(i as int));
        assert(mm.take(i + 1).last() == mm[i as int]);
        if let JsonValue::Null = members[i].1 {
            let e = CanonicalError::NullInCommittedField { key: Some(members[i].0.clone()) };
            proof {
                lemma_screened_refusal_persists(mm, i + 1);
                assert forall|t: int|
                    0 <= t < mm.len() && screened(mm.take(t)) is Ok && !(mm[t].1 is Null) && is_ascii_chars(
                        #[trigger] mm[t].0,
                    ) implies nfc(mm[t].0) == mm[t].0 by {
                    if t > i {
                        lemma_screened_prefix_refusal(mm, i + 1, t);
                    }
                }
            }
            return Err(e);
        }
        let n = nfc_normalise(members[i].0.as_str());
        let mut j: usize = 0;
        while j < keyed.len()
            invariant
                j <= keyed@.len(),
                acc == keyed_view(keyed@),
                forall|t: int| 0 <= t < j ==> acc[t].0 != n@,
            decreases keyed@.len() - j,
        {
            if keyed[j].0 == n {
                proof {
                    assert(acc[j as int].0 == n@);
                    lemma_screened_refusal_persists(mm, i + 1);
                    assert forall|t: int|
                        0 <= t < mm.len() && screened(mm.take(t)) is Ok && !(mm[t].1 is Null) && is_ascii_chars(
                            #[trigger] mm[t].0,
                        ) implies nfc(mm[t].0) == mm[t].0 by {
                        if t > i {
                            lemma_screened_prefix_refusal(mm, i + 1, t);
                        }
                    }
                }
                return Err(CanonicalError::KeyCollisionAfterNormalisation { key: n });
            }
            j = j + 1;
        }
        assert(mm[i as int].0 == members@[i as int].0@);
        keyed.push((n, i));
        assert(keyed_view(keyed@) =~= acc.push((nfc(members@[i as int].0@), i as int)));
        i = i + 1;
    }
    assert(mm.take(i as int) =~= mm);
    Ok(keyed)
}

/// The canonical serialisation of `value`: UTF-8, NFC-normalised strings and
/// keys, object keys sorted by code point, array order kept, no whitespace.
///
/// Refuses a null at any depth and two keys of one object that are equal after
/// normalisation; the refusal names what it found first, in the order in which
/// the serialisation reaches it.
#[verifier::loop_isolation(false)]
pub fn canonicalise(value: &JsonValue) -> (r: Result<String, CanonicalError>)
    ensures
        result_view(r) == canonical(value.model()),
        (r is Ok) <==> (!has_null(value.model()) && !has_collision(value.model())),
        value.model() is Object ==> ascii_keys_unchanged(value.model()->Object_0),
    decreases value,
{
    proof {
        lemma_canonical_refusals(value.model());
    }
    match value {
        JsonValue::Null => Err(CanonicalError::NullInCommittedField { key: None }),
        JsonValue::Bool(b) => {
            if *b {
                Ok("true".to_owned())
            } else {
                Ok("false".to_owned())
            }
        },
        JsonValue::Number(n) => Ok(n.clone()),
        JsonValue::String(s) => {
            let n = nfc_normalise(s.as_str());
            Ok(json_quote(n.as_str()))
        },
        JsonValue::Array(items) => {
            let ghost mi = value.model()->Array_0;
            assert(value.model() == Json::Array(mi));
            assert(mi.len() == items@.len());
            assert(forall|j: int| 0 <= j < mi.len() ==> #[trigger] mi[j] == items@[j].model());
            let mut out = String::new();
            push_char(&mut out, '[');
            let ghost mut acc: Seq<char> = Seq::empty();
            let mut i: usize = 0;
            assert(mi.take(0) =~= Seq::<Json>::empty());
            while i < items.len()
                invariant
                    i <= items@.len(),
                    joined(canonical_items(mi.take(i as int))) == Ok::<Seq<char>, Refusal>(acc),
                    out@ == seq!['['] + acc,
                decreases items@.len() - i,
            {
                proof {
                    lemma_canonical_items_step(mi, i as int);
                    lemma_joined_push(canonical_items(mi.take(i as int)), canonical(mi[i as int]));
                    assert(decreases_to!(*value => items@[i as int]));
                }
                match canonicalise(&items[i]) {
                    Err(e) => {
                        proof {
                            lemma_items_refusal_persists(mi, i + 1);
                        }
                        return Err(e);
                    },
                    Ok(p) => {
                        if i > 0 {
                            push_char(&mut out, ',');
                        }
                        out.append(p.as_str());
                        proof {
                            acc = if i == 0 {
                                p@
                            } else {
                                acc + seq![','] + p@
                            };
                        }
                        assert(out@ =~= seq!['['] + acc);
                    },
                }
                i = i + 1;
            }
            assert(mi.take(i as int) =~= mi);
            push_char(&mut out, ']');
            assert(out@ =~= seq!['['] + acc + seq![']']);
            Ok(out)
        },
        JsonValue::Object(members) => {
            let ghost mm = value.model()->Object_0;
            assert(value.model() == Json::Object(mm));
            assert(mm =~= members_model(members@));
            let keyed = match screen_members(members) {
                Err(e) => return Err(e),
                Ok(k) => k,
            };
            let ghost kv = keyed_view(keyed@);
            let order = sort_by_key(keyed);
            let ghost ko = keyed_view(order@);
            proof {
                lemma_screened_positions(mm);
                assert forall|j: int| 0 <= j < ko.len() implies 0 <= #[trigger] ko[j].1 < mm.len() by {
                    lemma_sorted_by_key_contains(kv, ko[j]);
                    assert(ko.contains(ko[j]));
                }
            }
            let mut out = String::new();
            push_char(&mut out, '{');
            let ghost mut acc: Seq<char> = Seq::empty();
            let mut i: usize = 0;
            assert(ko.take(0) =~= Seq::<(Seq<char>, int)>::empty());
            while i < order.len()
                invariant
                    i <= order@.len(),
                    ko == keyed_view(order@),
                    joined(canonical_members(mm, ko.take(i as int))) == Ok::<Seq<char>, Refusal>(acc),
                    out@ == seq!['{'] + acc,
                decreases order@.len() - i,
            {
                let idx = order[i].1;
                assert(ko[i as int] == (order@[i as int].0@, idx as int));
                assert(0 <= ko[i as int].1 < mm.len());
                assert(mm[idx as int].1 == members@[idx as int].1.model());
                let ghost piece = member_text(order@[i as int].0@, canonical(members@[idx as int].1.model()));
                proof {
                    lemma_canonical_members_step(mm, ko, i as int);
                    lemma_joined_push(canonical_members(mm, ko.take(i as int)), piece);
                    assert(decreases_to!(*value => members@[idx as int].1));
                }
                match canonicalise(&members[idx].1) {
                    Err(e) => {
                        proof {
                            lemma_members_refusal_persists(mm, ko, i + 1);
                        }
                        return Err(e);
                    },
                    Ok(p) => {
                        if i > 0 {
                            push_char(&mut out, ',');
                        }
                        let k = json_quote(order[i].0.as_str());
                        out.append(k.as_str());
                        push_char(&mut out, ':');
                        out.append(p.as_str());
                        proof {
                            let text = json_quoted(order@[i as int].0@) + seq![':'] + p@;
                            acc = if i == 0 {
                                text
                            } else {
                                acc + seq![','] + text
                            };
                        }
                        assert(out@ =~= seq!['{'] + acc);
                    },
                }
                i = i + 1;
            }
            assert(ko.take(i as int) =~= ko);
            push_char(&mut out, '}');
            assert(out@ =~= seq!['{'] + acc + seq!['}']);
            Ok(out)
        },
    }
}

} // verus!
