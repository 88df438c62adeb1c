//! Reading canonical text back: a strict JSON reader that admits no whitespace
//! between tokens, and what it gives for the canonical serialisation of a value.

use vstd::prelude::*;

use crate::canonical::{
    canonical, canonical_items, canonical_members, escaped, escaped_char, joined, json_quoted, member_text,
    nfc, screened, Refusal,
};
use crate::digest::hex_digit;
use crate::json::Json;
use crate::laws::{lemma_canonical_items_index, lemma_canonical_members_index, lemma_screened};
use crate::order::{lemma_sorted_by_key_contains, sorted_by_key};

verus! {

/// The value of a hexadecimal digit, either case.
pub open spec fn hex_value(c: char) -> Option<int> {
    if '0' <= c && c <= '9' {
        Some(c as int - 48)
    } else if 'a' <= c && c <= 'f' {
        Some(c as int - 87)
    } else if 'A' <= c && c <= 'F' {
        Some(c as int - 55)
    } else {
        None
    }
}

/// The character that an escape stands for, read from what follows its
/// backslash, and how many characters the escape takes after the backslash.
/// A `\u` escape takes four hexadecimal digits and may not name a surrogate.
pub open spec fn unescape(s: Seq<char>) -> Option<(char, int)> {
    if s.len() == 0 {
        None
    } else if s[0] == '"' || s[0] == '\\' || s[0] == '/' {
        Some((s[0], 1))
    } else if s[0] == 'b' {
        Some(('\u{8}', 1))
    } else if s[0] == 'f' {
        Some(('\u{c}', 1))
    } else if s[0] == 'n' {
        Some(('\n', 1))
    } else if s[0] == 'r' {
        Some(('\r', 1))
    } else if s[0] == 't' {
        Some(('\t', 1))
    } else if s[0] == 'u' && s.len() >= 5 && hex_value(s[1]) is Some && hex_value(s[2]) is Some
        && hex_value(s[3]) is Some && hex_value(s[4]) is Some {
        let code = hex_value(s[1])->Some_0 * 4096 + hex_value(s[2])->Some_0 * 256
            + hex_value(s[3])->Some_0 * 16 + hex_value(s[4])->Some_0;
        if code < 0xD800 || 0xE000 <= code {
            Some((code as char, 5))
        } else {
            None
        }
    } else {
        None
    }
}

/// The characters of a string literal read from just after its opening quote
/// up to its closing quote, escapes undone, and what follows the closing
/// quote. A control character may not stand unescaped.
pub open spec fn string_body(s: Seq<char>) -> Option<(Seq<char>, Seq<char>)>
    decreases s.len(),
{
    if s.len() == 0 {
        None
    } else if s[0] == '"' {
        Some((Seq::empty(), s.drop_first()))
    } else if s[0] == '\\' {
        match unescape(s.drop_first()) {
            Some((c, n)) => if 1 <= n && n + 1 <= s.len() {
                match string_body(s.skip(n + 1)) {
                    Some((t, rest)) => Some((seq![c] + t, rest)),
                    None => None,
                }
            } else {
                None
            },
            None => None,
        }
    } else if (s[0] as u32) < 32 {
        None
    } else {
        match string_body(s.drop_first()) {
            Some((t, rest)) => Some((seq![s[0]] + t, rest)),
            None => None,
        }
    }
}

proof fn lemma_escaped_append(a: Seq<char>, b: Seq<char>)
    ensures
        escaped(a + b) == escaped(a) + escaped(b),
    decreases b.len(),
{
    if b.len() == 0 {
        assert(a + b =~= a);
        assert(escaped(a) + escaped(b) =~= escaped(a));
    } else {
        assert((a + b).drop_last() =~= a + b.drop_last());
        assert((a + b).last() == b.last());
        lemma_escaped_append(a, b.drop_last());
        assert(escaped(a) + escaped(b) =~= escaped(a) + escaped(b.drop_last()) + escaped_char(b.last()));
    }
}

proof fn lemma_escaped_front(x: Seq<char>)
    requires
        x.len() > 0,
    ensures
        escaped(x) == escaped_char(x[0]) + escaped(x.drop_first()),
{
    let one = seq![x[0]];
    assert(x =~= one + x.drop_first());
    lemma_escaped_append(one, x.drop_first());
    assert(one.drop_last() =~= Seq::<char>::empty());
    assert(escaped(one.drop_last()) =~= Seq::<char>::empty());
    assert(one.last() == x[0]);
    assert(escaped(one) =~= escaped_char(x[0]));
}

proof fn lemma_hex_digit_value(d: int)
    requires
        0 <= d < 16,
    ensures
        hex_value(hex_digit(d)) == Some(d),
{
}

/// A two-character escape reads back as the character it was written for.
proof fn lemma_unescape_short(c: char, u: Seq<char>)
    requires
        escaped_char(c).len() == 2,
        u.len() >= 1,
        u[0] == escaped_char(c)[1],
    ensures
        unescape(u) == Some((c, 1int)),
{
}

/// A `\u00` escape reads back as the control character it was written for.
proof fn lemma_unescape_control(c: char, u: Seq<char>)
    requires
        (c as u32) < 32,
        escaped_char(c).len() == 6,
        u.len() >= 5,
        u == escaped_char(c).drop_first() + u.skip(5),
    ensures
        unescape(u) == Some((c, 5int)),
{
    let n = c as u32 as int;
    lemma_hex_digit_value(n / 16);
    lemma_hex_digit_value(n % 16);
    assert(u[0] == 'u' && u[1] == '0' && u[2] == '0');
    assert(u[3] == hex_digit(n / 16) && u[4] == hex_digit(n % 16));
    assert(hex_value('0') == Some(0int));
    assert((n / 16) * 16 + n % 16 == n);
    assert(n as char == c);
}

/// The body of the literal for `x`, followed by its closing quote, reads back
/// as `x`.
pub proof fn lemma_string_body_reads_back(x: Seq<char>, rest: Seq<char>)
    ensures
        string_body(escaped(x) + seq!['"'] + rest) == Some((x, rest)),
    decreases x.len(),
{
    let s = escaped(x) + seq!['"'] + rest;
    if x.len() == 0 {
        assert(s =~= seq!['"'] + rest);
        assert(s.drop_first() =~= rest);
    } else {
        let c = x[0];
        let t = x.drop_first();
        let e = escaped_char(c);
        lemma_escaped_front(x);
        lemma_string_body_reads_back(t, rest);
        let tail = escaped(t) + seq!['"'] + rest;
        assert(s =~= e + tail);
        let n = c as u32;
        if e.len() == 2 {
            assert(s[0] == '\\');
            lemma_unescape_short(c, s.drop_first());
            assert(s.skip(2) =~= tail);
        } else if e.len() == 6 {
            assert(s[0] == '\\');
            assert(n < 32);
            assert(s.drop_first() =~= e.drop_first() + s.drop_first().skip(5));
            lemma_unescape_control(c, s.drop_first());
            assert(s.skip(6) =~= tail);
        } else {
            assert(e == seq![c]);
            assert(s[0] == c);
            assert(s.drop_first() =~= tail);
        }
        assert(seq![c] + t =~= x);
    }
}

/// Characters that may make up the text of a number.
pub open spec fn is_number_char(c: char) -> bool {
    ('0' <= c && c <= '9') || c == '-' || c == '+' || c == '.' || c == 'e' || c == 'E'
}

/// How many characters at the start of `s` may belong to a number.
pub open spec fn number_len(s: Seq<char>) -> nat
    decreases s.len(),
{
    if s.len() > 0 && is_number_char(s[0]) {
        1 + number_len(s.drop_first())
    } else {
        0
    }
}

/// The value at the start of `s` and what follows it. Tokens are read with no
/// whitespace between them.
pub open spec fn read_value(s: Seq<char>) -> Option<(Json, Seq<char>)>
    decreases s.len(), 0nat,
{
    if s.len() == 0 {
        None
    } else if s[0] == '"' {
        match string_body(s.drop_first()) {
            Some((t, rest)) => Some((Json::String(t), rest)),
            None => None,
        }
    } else if s[0] == '[' {
        if s.len() >= 2 && s[1] == ']' {
            Some((Json::Array(Seq::empty()), s.skip(2)))
        } else {
            match read_items(s.drop_first()) {
                Some((items, rest)) => Some((Json::Array(items), rest)),
                None => None,
            }
        }
    } else if s[0] == '{' {
        if s.len() >= 2 && s[1] == '}' {
            Some((Json::Object(Seq::empty()), s.skip(2)))
        } else {
            match read_members(s.drop_first()) {
                Some((members, rest)) => Some((Json::Object(members), rest)),
                None => None,
            }
        }
    } else if is_number_char(s[0]) {
        Some((Json::Number(s.take(number_len(s) as int)), s.skip(number_len(s) as int)))
    } else if s.len() >= 4 && s.take(4) == "true"@ {
        Some((Json::Bool(true), s.skip(4)))
    } else if s.len() >= 5 && s.take(5) == "false"@ {
        Some((Json::Bool(false), s.skip(5)))
    } else if s.len() >= 4 && s.take(4) == "null"@ {
        Some((Json::Null, s.skip(4)))
    } else {
        None
    }
}

/// The elements of an array read from just after its opening bracket, up to
/// and including its closing bracket, and what follows.
pub open spec fn read_items(s: Seq<char>) -> Option<(Seq<Json>, Seq<char>)>
    decreases s.len(), 1nat,
{
    match read_value(s) {
        Some((v, r)) => if r.len() > 0 && r.len() < s.len() {
            if r[0] == ']' {
                Some((seq![v], r.drop_first()))
            } else if r[0] == ',' {
                match read_items(r.drop_first()) {
                    Some((vs, r2)) => Some((seq![v] + vs, r2)),
                    None => None,
                }
            } else {
                None
            }
        } else {
            None
        },
        None => None,
    }
}

/// The members of an object read from just after its opening brace, up to and
/// including its closing brace, in the order written, and what follows.
pub open spec fn read_members(s: Seq<char>) -> Option<(Seq<(Seq<char>, Json)>, Seq<char>)>
    decreases s.len(), 1nat,
{
    if s.len() > 0 && s[0] == '"' {
        match string_body(s.drop_first()) {
            Some((k, r)) => if r.len() > 0 && r[0] == ':' && r.len() < s.len() {
                match read_value(r.drop_first()) {
                    Some((v, r2)) => if r2.len() > 0 && r2.len() < s.len() {
                        if r2[0] == '}' {
                            Some((seq![(k, v)], r2.drop_first()))
                        } else if r2[0] == ',' {
                            match read_members(r2.drop_first()) {
                                Some((ms, r3)) => Some((seq![(k, v)] + ms, r3)),
                                None => None,
                            }
                        } else {
                            None
                        }
                    } else {
                        None
                    },
                    None => None,
                }
            } else {
                None
            },
            None => None,
        }
    } else {
        None
    }
}

/// The value that `s` holds as a whole, if `s` is one value and nothing more.
pub open spec fn read(s: Seq<char>) -> Option<Json> {
    match read_value(s) {
        Some((v, rest)) => if rest.len() == 0 {
            Some(v)
        } else {
            None
        },
        None => None,
    }
}

/// `v` with every string and object key in NFC and every object's members in
/// ascending order of their normalised keys; array order is kept.
pub open spec fn normalised(v: Json) -> Json
    decreases v, 0nat,
{
    match v {
        Json::String(s) => Json::String(nfc(s)),
        Json::Array(items) => Json::Array(normalised_items(items)),
        Json::Object(ms) => match screened(ms) {
            Ok(keyed) => Json::Object(normalised_members(ms, sorted_by_key(keyed))),
            Err(_) => v,
        },
        _ => v,
    }
}

/// Each element normalised, in order.
pub open spec fn normalised_items(items: Seq<Json>) -> Seq<Json>
    decreases items, 0nat,
{
    if items.len() == 0 {
        Seq::empty()
    } else {
        normalised_items(items.subrange(0, items.len() - 1)).push(normalised(items[items.len() - 1]))
    }
}

/// The member named in `order` (normalised key and position among `members`)
/// under its normalised key with its value normalised, in that order.
pub open spec fn normalised_members(members: Seq<(Seq<char>, Json)>, order: Seq<(Seq<char>, int)>) -> Seq<(Seq<char>, Json)>
    decreases members, order.len(),
{
    if order.len() == 0 {
        Seq::empty()
    } else {
        let k = order[order.len() - 1].0;
        let p = order[order.len() - 1].1;
        let value = if 0 <= p < members.len() {
            normalised(members[p].1)
        } else {
            Json::Null
        };
        normalised_members(members, order.drop_last()).push((k, value))
    }
}

/// Whether the text of every number in `v` is made of digits, signs, points
/// and exponent marks, and is not empty.
pub open spec fn numbers_plain(v: Json) -> bool
    decreases v, 0nat,
{
    match v {
        Json::Number(n) => n.len() > 0 && forall|i: int| 0 <= i < n.len() ==> is_number_char(#[trigger] n[i]),
        Json::Array(items) => items_numbers_plain(items),
        Json::Object(ms) => members_numbers_plain(ms),
        _ => true,
    }
}

/// Whether every element of `items` has plain numbers.
pub open spec fn items_numbers_plain(items: Seq<Json>) -> bool
    decreases items, 0nat,
{
    if items.len() == 0 {
        true
    } else {
        items_numbers_plain(items.subrange(0, items.len() - 1)) && numbers_plain(items[items.len() - 1])
    }
}

/// Whether every member value of `ms` has plain numbers.
pub open spec fn members_numbers_plain(ms: Seq<(Seq<char>, Json)>) -> bool
    decreases ms, 0nat,
{
    if ms.len() == 0 {
        true
    } else {
        members_numbers_plain(ms.subrange(0, ms.len() - 1)) && numbers_plain(ms[ms.len() - 1].1)
    }
}

/// What may follow a value inside canonical text: nothing, a comma, or a
/// closing bracket or brace.
pub open spec fn may_follow_value(rest: Seq<char>) -> bool {
    rest.len() == 0 || rest[0] == ',' || rest[0] == ']' || rest[0] == '}'
}

proof fn lemma_items_numbers_plain_index(items: Seq<Json>)
    requires
        items_numbers_plain(items),
    ensures
        forall|i: int| 0 <= i < items.len() ==> numbers_plain(#[trigger] items[i]),
    decreases items.len(),
{
    if items.len() > 0 {
        let rest = items.subrange(0, items.len() - 1);
        lemma_items_numbers_plain_index(rest);
        assert forall|i: int| 0 <= i < items.len() implies numbers_plain(#[trigger] items[i]) by {
            if i < items.len() - 1 {
                assert(rest[i] == items[i]);
            }
        }
    }
}

proof fn lemma_members_numbers_plain_index(ms: Seq<(Seq<char>, Json)>)
    requires
        members_numbers_plain(ms),
    ensures
        forall|i: int| 0 <= i < ms.len() ==> numbers_plain(#[trigger] ms[i].1),
    decreases ms.len(),
{
    if ms.len() > 0 {
        let rest = ms.subrange(0, ms.len() - 1);
        lemma_members_numbers_plain_index(rest);
        assert forall|i: int| 0 <= i < ms.len() implies numbers_plain(#[trigger] ms[i].1) by {
            if i < ms.len() - 1 {
                assert(rest[i] == ms[i]);
            }
        }
    }
}

proof fn lemma_normalised_items_index(items: Seq<Json>)
    ensures
        normalised_items(items).len() == items.len(),
        forall|i: int| 0 <= i < items.len() ==> #[trigger] normalised_items(items)[i] == normalised(items[i]),
    decreases items.len(),
{
    if items.len() > 0 {
        let rest = items.subrange(0, items.len() - 1);
        lemma_normalised_items_index(rest);
        assert forall|i: int| 0 <= i < items.len() implies #[trigger] normalised_items(items)[i] == normalised(items[i]) by {
            if i < items.len() - 1 {
                assert(rest[i] == items[i]);
            }
        }
    }
}

proof fn lemma_normalised_members_index(ms: Seq<(Seq<char>, Json)>, order: Seq<(Seq<char>, int)>)
    requires
        forall|j: int| 0 <= j < order.len() ==> 0 <= #[trigger] order[j].1 < ms.len(),
    ensures
        normalised_members(ms, order).len() == order.len(),
        forall|j: int|
            0 <= j < order.len() ==> #[trigger] normalised_members(ms, order)[j] == (order[j].0, normalised(ms[order[j].1].1)),
    decreases order.len(),
{
    if order.len() > 0 {
        let rest = order.drop_last();
        assert forall|j: int| 0 <= j < rest.len() implies 0 <= #[trigger] rest[j].1 < ms.len() by {
            assert(rest[j] == order[j]);
        }
        lemma_normalised_members_index(ms, rest);
        assert forall|j: int|
            0 <= j < order.len() implies #[trigger] normalised_members(ms, order)[j] == (order[j].0, normalised(ms[order[j].1].1)) by {
            if j < order.len() - 1 {
                assert(rest[j] == order[j]);
            }
        }
    }
}

/// Comma-joined parts: refused exactly when some part is refused; otherwise
/// the first part, then a comma and the rest joined, if there is more.
proof fn lemma_joined_front(parts: Seq<Result<Seq<char>, Refusal>>)
    ensures
        (joined(parts) is Ok) <==> (forall|i: int| 0 <= i < parts.len() ==> (#[trigger] parts[i]) is Ok),
        joined(parts) is Ok && parts.len() == 1 ==> joined(parts)->Ok_0 == parts[0]->Ok_0,
        joined(parts) is Ok && parts.len() > 1 ==> joined(parts)->Ok_0 == parts[0]->Ok_0 + seq![',']
            + joined(parts.drop_first())->Ok_0,
    decreases parts.len(),
{
    if parts.len() > 0 {
        let init = parts.drop_last();
        lemma_joined_front(init);
        assert forall|i: int| 0 <= i < init.len() implies #[trigger] init[i] == parts[i] by {}
        if joined(parts) is Ok {
            assert forall|i: int| 0 <= i < parts.len() implies (#[trigger] parts[i]) is Ok by {
                if i < init.len() {
                    assert(init[i] is Ok);
                }
            }
        } else {
            if forall|i: int| 0 <= i < parts.len() ==> (#[trigger] parts[i]) is Ok {
                assert(forall|i: int| 0 <= i < init.len() ==> (#[trigger] init[i]) is Ok);
                assert(parts.last() == parts[parts.len() - 1]);
            }
        }
        if joined(parts) is Ok && parts.len() > 1 {
            let tail = parts.drop_first();
            lemma_joined_front(tail);
            assert(tail.drop_last() =~= init.drop_first());
            assert(tail.last() == parts.last());
            if parts.len() == 2 {
                assert(init.len() == 1);
                assert(tail.drop_last().len() == 0);
            } else {
                assert(forall|i: int| 0 <= i < tail.len() ==> (#[trigger] tail[i]) == parts[i + 1]);
                assert(forall|i: int| 0 <= i < tail.len() ==> (#[trigger] tail[i]) is Ok);
                assert(forall|i: int| 0 <= i < tail.drop_last().len() ==> (#[trigger] tail.drop_last()[i]) is Ok);
            }
        }
    }
}

proof fn lemma_number_len(t: Seq<char>, rest: Seq<char>)
    requires
        forall|i: int| 0 <= i < t.len() ==> is_number_char(#[trigger] t[i]),
        rest.len() == 0 || !is_number_char(rest[0]),
    ensures
        number_len(t + rest) == t.len(),
    decreases t.len(),
{
    if t.len() == 0 {
        assert(t + rest =~= rest);
    } else {
        assert((t + rest).drop_first() =~= t.drop_first() + rest);
        assert(forall|i: int| 0 <= i < t.drop_first().len() ==> (#[trigger] t.drop_first()[i]) == t[i + 1]);
        lemma_number_len(t.drop_first(), rest);
    }
}

/// Canonical text is not empty and does not start with a comma or a closing
/// bracket or brace.
proof fn lemma_canonical_opens(v: Json)
    requires
        canonical(v) is Ok,
        numbers_plain(v),
    ensures
        canonical(v)->Ok_0.len() > 0,
        canonical(v)->Ok_0[0] != ',' && canonical(v)->Ok_0[0] != ']' && canonical(v)->Ok_0[0] != '}',
{
    reveal_strlit("true");
    reveal_strlit("false");
    match v {
        Json::Number(n) => {
            assert(is_number_char(n[0]));
        },
        Json::Array(items) => {
            let j = joined(canonical_items(items));
            assert(canonical(v)->Ok_0 == seq!['['] + j->Ok_0 + seq![']']);
        },
        Json::Object(ms) => {
            let order = sorted_by_key(screened(ms)->Ok_0);
            let j = joined(canonical_members(ms, order));
            assert(canonical(v)->Ok_0 == seq!['{'] + j->Ok_0 + seq!['}']);
        },
        _ => {},
    }
}

/// The canonical text of `v`, followed by anything that may follow a value,
/// reads back as `v` normalised, leaving what followed.
#[verifier::spinoff_prover]
#[verifier::rlimit(50)]
proof fn lemma_read_value(v: Json, rest: Seq<char>)
    requires
        canonical(v) is Ok,
        numbers_plain(v),
        may_follow_value(rest),
    ensures
        read_value(canonical(v)->Ok_0 + rest) == Some((normalised(v), rest)),
    decreases v, 1nat, 0int,
{
    let text = canonical(v)->Ok_0;
    let s = text + rest;
    lemma_canonical_opens(v);
    assert(s[0] == text[0]);
    match v {
        Json::Null => {},
        Json::Bool(b) => {
            reveal_strlit("true");
            reveal_strlit("false");
            if b {
                assert(s.take(4) =~= "true"@);
                assert(s.skip(4) =~= rest);
            } else {
                assert(s.take(4) != "true"@) by {
                    assert(s.take(4)[1] == 'a');
                }
                assert(s.take(5) =~= "false"@);
                assert(s.skip(5) =~= rest);
            }
        },
        Json::Number(n) => {
            lemma_number_len(n, rest);
            assert(s.take(n.len() as int) =~= n);
            assert(s.skip(n.len() as int) =~= rest);
        },
        Json::String(t) => {
            assert(text == seq!['"'] + escaped(nfc(t)) + seq!['"']);
            assert(s.drop_first() =~= escaped(nfc(t)) + seq!['"'] + rest);
            lemma_string_body_reads_back(nfc(t), rest);
        },
        Json::Array(items) => {
            let parts = canonical_items(items);
            lemma_joined_front(parts);
            lemma_canonical_items_index(items);
            lemma_normalised_items_index(items);
            let j = joined(parts)->Ok_0;
            assert(text == seq!['['] + j + seq![']']);
            if items.len() == 0 {
                assert(j.len() == 0);
                assert(s.skip(2) =~= rest);
                assert(normalised_items(items) =~= Seq::<Json>::empty());
            } else {
                assert(parts.skip(0) =~= parts);
                lemma_read_items(v, 0, rest);
                assert(s.drop_first() =~= j + seq![']'] + rest);
                assert(parts[0] is Ok);
                lemma_items_numbers_plain_index(items);
                lemma_canonical_opens(items[0]);
                assert(j[0] == parts[0]->Ok_0[0]) by {
                    if parts.len() > 1 {
                        assert(j == parts[0]->Ok_0 + seq![','] + joined(parts.drop_first())->Ok_0);
                    }
                }
                assert(s[1] == j[0]);
                assert(normalised_items(items).skip(0) =~= normalised_items(items));
            }
        },
        Json::Object(ms) => {
            let keyed = screened(ms)->Ok_0;
            let order = sorted_by_key(keyed);
            let parts = canonical_members(ms, order);
            lemma_joined_front(parts);
            let j = joined(parts)->Ok_0;
            assert(text == seq!['{'] + j + seq!['}']);
            if order.len() == 0 {
                assert(j.len() == 0);
                assert(s.skip(2) =~= rest);
                assert(normalised_members(ms, order) =~= Seq::<(Seq<char>, Json)>::empty());
            } else {
                lemma_object_order_in_range(ms);
                lemma_canonical_members_index(ms, order);
                assert(parts.skip(0) =~= parts);
                lemma_read_members(v, 0, rest);
                assert(s.drop_first() =~= j + seq!['}'] + rest);
                assert(parts[0] is Ok);
                assert(j[0] == '"') by {
                    if parts.len() > 1 {
                        assert(j == parts[0]->Ok_0 + seq![','] + joined(parts.drop_first())->Ok_0);
                    }
                }
                assert(s[1] == j[0]);
                assert(normalised_members(ms, order).skip(0) =~= normalised_members(ms, order));
            }
        },
    }
}

/// Every position that the serialisation of an object's members names lies
/// within the object.
proof fn lemma_object_order_in_range(ms: Seq<(Seq<char>, Json)>)
    requires
        screened(ms) is Ok,
    ensures
        forall|j: int|
            0 <= j < sorted_by_key(screened(ms)->Ok_0).len() ==> 0 <= #[trigger] sorted_by_key(screened(ms)->Ok_0)[j].1
                < ms.len(),
{
    let keyed = screened(ms)->Ok_0;
    let order = sorted_by_key(keyed);
    lemma_screened(ms);
    assert forall|j: int| 0 <= j < order.len() implies 0 <= #[trigger] order[j].1 < ms.len() by {
        lemma_sorted_by_key_contains(keyed, order[j]);
        assert(order.contains(order[j]));
        let t = choose|t: int| 0 <= t < keyed.len() && keyed[t] == order[j];
        assert(keyed[t].1 == t);
    }
}

/// The elements of an array from position `j` on, as the serialisation writes
/// them, then its closing bracket, read back as those elements normalised.
#[verifier::spinoff_prover]
#[verifier::rlimit(50)]
proof fn lemma_read_items(v: Json, j: int, rest: Seq<char>)
    requires
        v is Array,
        canonical(v) is Ok,
        numbers_plain(v),
        0 <= j < v->Array_0.len(),
        may_follow_value(rest),
    ensures
        read_items(joined(canonical_items(v->Array_0).skip(j))->Ok_0 + seq![']'] + rest) == Some(
            (normalised_items(v->Array_0).skip(j), rest),
        ),
    decreases v, 0nat, v->Array_0.len() - j,
{
    let items = v->Array_0;
    let all = canonical_items(items);
    let parts = all.skip(j);
    lemma_joined_front(all);
    lemma_joined_front(parts);
    lemma_canonical_items_index(items);
    lemma_normalised_items_index(items);
    lemma_items_numbers_plain_index(items);
    assert(parts[0] == all[j]);
    assert(all[j] is Ok);
    assert(forall|i: int| 0 <= i < parts.len() ==> (#[trigger] parts[i]) == all[i + j]);
    let p = canonical(items[j])->Ok_0;
    let x = items[j];
    assert(decreases_to!(v => items));
    assert(decreases_to!(v => x));
    lemma_canonical_opens(x);
    let nv = normalised(x);
    if j == items.len() - 1 {
        let tail = seq![']'] + rest;
        lemma_read_value(x, tail);
        assert(joined(parts)->Ok_0 == p);
        assert(joined(parts)->Ok_0 + seq![']'] + rest =~= p + tail);
        assert(tail.drop_first() =~= rest);
        assert(normalised_items(items).skip(j) =~= seq![nv]);
    } else {
        let more = parts.drop_first();
        assert(more =~= all.skip(j + 1));
        lemma_read_items(v, j + 1, rest);
        let jm = joined(more)->Ok_0;
        let tail = seq![','] + jm + seq![']'] + rest;
        lemma_read_value(x, tail);
        assert(joined(parts)->Ok_0 + seq![']'] + rest =~= p + tail);
        assert(tail.drop_first() =~= jm + seq![']'] + rest);
        assert(normalised_items(items).skip(j) =~= seq![nv] + normalised_items(items).skip(j + 1));
    }
}

/// One member as the serialisation writes it, then a comma or a closing
/// brace: its key is read back and its value as the value's text reads.
proof fn lemma_read_member_step(k: Seq<char>, c: Seq<char>, tail: Seq<char>, nv: Json)
    requires
        read_value(c + tail) == Some((nv, tail)),
        tail.len() > 0,
        tail[0] == '}' || tail[0] == ',',
    ensures
        read_members(json_quoted(k) + seq![':'] + c + tail) == (if tail[0] == '}' {
            Some((seq![(k, nv)], tail.drop_first()))
        } else {
            match read_members(tail.drop_first()) {
                Some((more, r)) => Some((seq![(k, nv)] + more, r)),
                None => None,
            }
        }),
{
    let s = json_quoted(k) + seq![':'] + c + tail;
    let after = seq![':'] + c + tail;
    assert(s =~= seq!['"'] + escaped(k) + seq!['"'] + after);
    assert(s.drop_first() =~= escaped(k) + seq!['"'] + after);
    lemma_string_body_reads_back(k, after);
    assert(after.drop_first() =~= c + tail);
}

/// The members of an object from position `j` of its serialisation order on,
/// as the serialisation writes them, then its closing brace, read back as
/// those members under their normalised keys with their values normalised.
#[verifier::spinoff_prover]
#[verifier::rlimit(50)]
proof fn lemma_read_members(v: Json, j: int, rest: Seq<char>)
    requires
        v is Object,
        canonical(v) is Ok,
        numbers_plain(v),
        0 <= j < sorted_by_key(screened(v->Object_0)->Ok_0).len(),
        may_follow_value(rest),
    ensures
        read_members(
            joined(canonical_members(v->Object_0, sorted_by_key(screened(v->Object_0)->Ok_0)).skip(j))->Ok_0 + seq!['}']
                + rest,
        ) == Some((normalised_members(v->Object_0, sorted_by_key(screened(v->Object_0)->Ok_0)).skip(j), rest)),
    decreases v, 0nat, sorted_by_key(screened(v->Object_0)->Ok_0).len() - j,
{
    let ms = v->Object_0;
    let order = sorted_by_key(screened(ms)->Ok_0);
    let all = canonical_members(ms, order);
    let parts = all.skip(j);
    lemma_object_order_in_range(ms);
    lemma_joined_front(all);
    lemma_joined_front(parts);
    lemma_canonical_members_index(ms, order);
    lemma_normalised_members_index(ms, order);
    lemma_members_numbers_plain_index(ms);
    assert(parts[0] == all[j]);
    assert(all[j] is Ok);
    assert(forall|i: int| 0 <= i < parts.len() ==> (#[trigger] parts[i]) == all[i + j]);
    let k = order[j].0;
    let pos = order[j].1;
    let x = ms[pos].1;
    assert(all[j] == member_text(k, canonical(x)));
    let c = canonical(x)->Ok_0;
    assert(decreases_to!(v => ms));
    assert(decreases_to!(v => ms[pos]));
    assert(decreases_to!(v => x));
    let nv = normalised(x);
    let tail = if j == order.len() - 1 {
        seq!['}'] + rest
    } else {
        seq![','] + joined(parts.drop_first())->Ok_0 + seq!['}'] + rest
    };
    let s = joined(parts)->Ok_0 + seq!['}'] + rest;
    if j == order.len() - 1 {
        assert(joined(parts)->Ok_0 == json_quoted(k) + seq![':'] + c);
    } else {
        assert(joined(parts)->Ok_0 == json_quoted(k) + seq![':'] + c + seq![','] + joined(parts.drop_first())->Ok_0);
    }
    assert(s =~= json_quoted(k) + seq![':'] + c + tail);
    lemma_read_value(x, tail);
    lemma_read_member_step(k, c, tail, nv);
    if j == order.len() - 1 {
        assert(tail.drop_first() =~= rest);
        assert(normalised_members(ms, order).skip(j) =~= seq![(k, nv)]);
    } else {
        let more = parts.drop_first();
        assert(more =~= all.skip(j + 1));
        lemma_read_members(v, j + 1, rest);
        assert(tail.drop_first() =~= joined(more)->Ok_0 + seq!['}'] + rest);
        assert(normalised_members(ms, order).skip(j) =~= seq![(k, nv)] + normalised_members(ms, order).skip(j + 1));
    }
}

/// The canonical serialisation of a value reads back, by a strict JSON reader
/// that admits no whitespace between tokens, as the value with every string
/// and object key in NFC, every object's members in ascending key order, and
/// array order kept. The text of each number must be plain (digits, signs,
/// points and exponent marks).
pub proof fn lemma_canonical_text_reads_back(v: Json)
    requires
        canonical(v) is Ok,
        numbers_plain(v),
    ensures
        read(canonical(v)->Ok_0) == Some(normalised(v)),
{
    lemma_read_value(v, Seq::empty());
    assert(canonical(v)->Ok_0 + Seq::<char>::empty() =~= canonical(v)->Ok_0);
}

} // verus!
