//! The code-point order on keys, and the stable insertion sort by key that
//! canonical serialisation applies to object members.

use vstd::prelude::*;

use crate::text::chars_of;

verus! {

broadcast use vstd::seq_lib::group_to_multiset_ensures;

/// Lexicographic order of character sequences, comparing Unicode code points.
///
/// This is the order of `String` in Rust (byte order over UTF-8 agrees with
/// code-point order).
pub open spec fn code_point_lt(a: Seq<char>, b: Seq<char>) -> bool
    decreases a.len(),
{
    if a.len() == 0 {
        b.len() > 0
    } else if b.len() == 0 {
        false
    } else if a[0] != b[0] {
        (a[0] as u32) < (b[0] as u32)
    } else {
        code_point_lt(a.drop_first(), b.drop_first())
    }
}

/// No key precedes itself.
pub proof fn lemma_code_point_lt_irreflexive(a: Seq<char>)
    ensures
        !code_point_lt(a, a),
    decreases a.len(),
{
    if a.len() > 0 {
        lemma_code_point_lt_irreflexive(a.drop_first());
    }
}

/// The order is transitive.
pub proof fn lemma_code_point_lt_transitive(a: Seq<char>, b: Seq<char>, c: Seq<char>)
    requires
        code_point_lt(a, b),
        code_point_lt(b, c),
    ensures
        code_point_lt(a, c),
    decreases a.len(),
{
    if a.len() > 0 && b.len() > 0 && c.len() > 0 {
        if a[0] == b[0] && b[0] == c[0] {
            lemma_code_point_lt_transitive(a.drop_first(), b.drop_first(), c.drop_first());
        } else {
            assert((a[0] as u32) != (c[0] as u32) ==> a[0] != c[0]);
            if a[0] == c[0] {
                assert(a[0] as u32 == c[0] as u32);
            }
        }
    }
}

/// Any two distinct keys are ordered one way or the other.
pub proof fn lemma_code_point_lt_total(a: Seq<char>, b: Seq<char>)
    requires
        a != b,
    ensures
        code_point_lt(a, b) || code_point_lt(b, a),
    decreases a.len(),
{
    if a.len() == 0 {
        assert(b.len() > 0) by {
            if b.len() == 0 {
                assert(a =~= b);
            }
        }
    } else if b.len() > 0 {
        if a[0] == b[0] {
            if a.drop_first() == b.drop_first() {
                assert(a =~= seq![a[0]] + a.drop_first());
                assert(b =~= seq![b[0]] + b.drop_first());
            }
            lemma_code_point_lt_total(a.drop_first(), b.drop_first());
        } else {
            vstd::utf8::char_u32_cast(a[0], a[0] as u32);
            vstd::utf8::char_u32_cast(b[0], b[0] as u32);
        }
    }
}

/// `a` comes before `b` in lexicographic order of code points: `a` is a proper
/// prefix of `b`, or at the first position where the two differ the code
/// point of `a` is the smaller.
pub open spec fn precedes_by_code_points(a: Seq<char>, b: Seq<char>) -> bool {
    ||| (a.len() < b.len() && b.take(a.len() as int) == a)
    ||| exists|i: int|
        0 <= i < a.len() && i < b.len() && #[trigger] a.take(i) == b.take(i) && (a[i] as u32) < (b[i] as u32)
}

/// The key order is lexicographic order of code points.
pub proof fn lemma_code_point_lt_is_lexicographic(a: Seq<char>, b: Seq<char>)
    ensures
        code_point_lt(a, b) <==> precedes_by_code_points(a, b),
    decreases a.len(),
{
    if a.len() == 0 {
        assert(b.take(0) =~= a);
    } else if b.len() == 0 {
    } else if a[0] != b[0] {
        assert(a.take(0) =~= b.take(0));
        if b.len() > a.len() && b.take(a.len() as int) == a {
            assert(b.take(a.len() as int)[0] == b[0]);
        }
        if exists|i: int| 0 <= i < a.len() && i < b.len() && #[trigger] a.take(i) == b.take(i) && (a[i] as u32) < (b[i] as u32) {
            let i = choose|i: int| 0 <= i < a.len() && i < b.len() && #[trigger] a.take(i) == b.take(i) && (a[i] as u32) < (b[i] as u32);
            if i > 0 {
                assert(a.take(i)[0] == b.take(i)[0]);
            }
        }
    } else {
        let a1 = a.drop_first();
        let b1 = b.drop_first();
        lemma_code_point_lt_is_lexicographic(a1, b1);
        // The prefix case is the same with or without the shared first character.
        if a.len() < b.len() {
            if b.take(a.len() as int) == a {
                assert(b1.take(a1.len() as int) =~= a1) by {
                    assert forall|k: int| 0 <= k < a1.len() implies #[trigger] b1.take(a1.len() as int)[k] == a1[k] by {
                        assert(b.take(a.len() as int)[k + 1] == a[k + 1]);
                    }
                }
            }
            if b1.take(a1.len() as int) == a1 {
                assert(b.take(a.len() as int) =~= a) by {
                    assert forall|k: int| 0 <= k < a.len() implies #[trigger] b.take(a.len() as int)[k] == a[k] by {
                        if k > 0 {
                            assert(b1.take(a1.len() as int)[k - 1] == a1[k - 1]);
                        }
                    }
                }
            }
        }
        // A first difference at `i` in the tails is one at `i + 1` in the whole.
        if exists|i: int| 0 <= i < a1.len() && i < b1.len() && #[trigger] a1.take(i) == b1.take(i) && (a1[i] as u32) < (b1[i] as u32) {
            let i = choose|i: int| 0 <= i < a1.len() && i < b1.len() && #[trigger] a1.take(i) == b1.take(i) && (a1[i] as u32) < (b1[i] as u32);
            assert(a.take(i + 1) =~= b.take(i + 1)) by {
                assert forall|k: int| 0 <= k < i + 1 implies #[trigger] a.take(i + 1)[k] == b.take(i + 1)[k] by {
                    if k > 0 {
                        assert(a1.take(i)[k - 1] == b1.take(i)[k - 1]);
                    }
                }
            }
            assert(a[i + 1] == a1[i] && b[i + 1] == b1[i]);
        }
        if exists|i: int| 0 <= i < a.len() && i < b.len() && #[trigger] a.take(i) == b.take(i) && (a[i] as u32) < (b[i] as u32) {
            let i = choose|i: int| 0 <= i < a.len() && i < b.len() && #[trigger] a.take(i) == b.take(i) && (a[i] as u32) < (b[i] as u32);
            assert(i > 0);
            assert(a1.take(i - 1) =~= b1.take(i - 1)) by {
                assert forall|k: int| 0 <= k < i - 1 implies #[trigger] a1.take(i - 1)[k] == b1.take(i - 1)[k] by {
                    assert(a.take(i)[k + 1] == b.take(i)[k + 1]);
                }
            }
            assert(a1[i - 1] == a[i] && b1[i - 1] == b[i]);
        }
    }
}

/// Between one-character keys, the key with the smaller code point comes
/// first.
pub proof fn lemma_single_character_keys(x: char, y: char)
    ensures
        code_point_lt(seq![x], seq![y]) <==> (x as u32) < (y as u32),
{
    let a = seq![x];
    let b = seq![y];
    if x == y {
        lemma_code_point_lt_irreflexive(a);
        assert(a =~= b);
    } else {
        assert(a.drop_first().len() == 0);
    }
}

/// Whether `a` precedes `b` in code-point order.
pub fn code_point_less(a: &[char], b: &[char]) -> (r: bool)
    ensures
        r == code_point_lt(a@, b@),
{
    let mut i: usize = 0;
    assert(a@.skip(0) =~= a@ && b@.skip(0) =~= b@);
    while i < a.len() && i < b.len()
        invariant
            i <= a@.len(),
            i <= b@.len(),
            code_point_lt(a@, b@) == code_point_lt(a@.skip(i as int), b@.skip(i as int)),
        decreases a@.len() - i,
    {
        if a[i] != b[i] {
            return (a[i] as u32) < (b[i] as u32);
        }
        assert(a@.skip(i as int).drop_first() =~= a@.skip(i + 1));
        assert(b@.skip(i as int).drop_first() =~= b@.skip(i + 1));
        i = i + 1;
    }
    i < b.len()
}

/// Inserts `x` after every member whose key does not follow `x`'s key.
pub open spec fn insert_by_key<T>(s: Seq<(Seq<char>, T)>, x: (Seq<char>, T)) -> Seq<(Seq<char>, T)>
    decreases s.len(),
{
    if s.len() == 0 {
        seq![x]
    } else if code_point_lt(x.0, s[0].0) {
        seq![x] + s
    } else {
        seq![s[0]] + insert_by_key(s.drop_first(), x)
    }
}

/// Stable insertion sort of members by key.
pub open spec fn sorted_by_key<T>(s: Seq<(Seq<char>, T)>) -> Seq<(Seq<char>, T)>
    decreases s.len(),
{
    if s.len() == 0 {
        Seq::empty()
    } else {
        insert_by_key(sorted_by_key(s.drop_last()), s.last())
    }
}

/// Keys never decrease along `s`.
pub open spec fn keys_ascending<T>(s: Seq<(Seq<char>, T)>) -> bool {
    forall|i: int, j: int| 0 <= i < j < s.len() ==> !code_point_lt(#[trigger] s[j].0, #[trigger] s[i].0)
}

/// Keys strictly increase along `s`.
pub open spec fn keys_strictly_ascending<T>(s: Seq<(Seq<char>, T)>) -> bool {
    forall|i: int, j: int| 0 <= i < j < s.len() ==> code_point_lt(#[trigger] s[i].0, #[trigger] s[j].0)
}

/// No two members of `s` share a key.
pub open spec fn keys_distinct<T>(s: Seq<(Seq<char>, T)>) -> bool {
    forall|i: int, j: int| 0 <= i < j < s.len() ==> #[trigger] s[i].0 != #[trigger] s[j].0
}

/// The first position whose key follows `k`, or the length when there is none.
pub open spec fn insertion_point<T>(s: Seq<(Seq<char>, T)>, k: Seq<char>) -> int
    decreases s.len(),
{
    if s.len() == 0 {
        0
    } else if code_point_lt(k, s[0].0) {
        0
    } else {
        1 + insertion_point(s.drop_first(), k)
    }
}

proof fn lemma_insertion_point<T>(s: Seq<(Seq<char>, T)>, x: (Seq<char>, T))
    ensures
        0 <= insertion_point(s, x.0) <= s.len(),
        insert_by_key(s, x) == s.insert(insertion_point(s, x.0), x),
        forall|j: int| 0 <= j < insertion_point(s, x.0) ==> !code_point_lt(x.0, #[trigger] s[j].0),
        insertion_point(s, x.0) < s.len() ==> code_point_lt(x.0, s[insertion_point(s, x.0)].0),
    decreases s.len(),
{
    if s.len() > 0 && !code_point_lt(x.0, s[0].0) {
        lemma_insertion_point(s.drop_first(), x);
        let p = insertion_point(s.drop_first(), x.0);
        assert(insert_by_key(s, x) =~= s.insert(p + 1, x));
        assert forall|j: int| 0 <= j < p + 1 implies !code_point_lt(x.0, #[trigger] s[j].0) by {
            if j > 0 {
                assert(s[j] == s.drop_first()[j - 1]);
            }
        }
    } else {
        assert(insert_by_key(s, x) =~= s.insert(0, x));
    }
}

/// Sorting by key permutes the members: the multiset of members is unchanged.
pub proof fn lemma_sorted_by_key_permutes<T>(s: Seq<(Seq<char>, T)>)
    ensures
        sorted_by_key(s).to_multiset() == s.to_multiset(),
        sorted_by_key(s).len() == s.len(),
    decreases s.len(),
{
    if s.len() > 0 {
        let rest = sorted_by_key(s.drop_last());
        lemma_sorted_by_key_permutes(s.drop_last());
        lemma_insertion_point(rest, s.last());
        assert(s =~= s.drop_last().push(s.last()));
    }
}

/// A member is in the sorted sequence exactly when it is in `s`.
pub proof fn lemma_sorted_by_key_contains<T>(s: Seq<(Seq<char>, T)>, x: (Seq<char>, T))
    ensures
        sorted_by_key(s).contains(x) <==> s.contains(x),
{
    lemma_sorted_by_key_permutes(s);
    vstd::seq_lib::to_multiset_contains(s, x);
    vstd::seq_lib::to_multiset_contains(sorted_by_key(s), x);
}

proof fn lemma_insert_keeps_ascending<T>(s: Seq<(Seq<char>, T)>, x: (Seq<char>, T))
    requires
        keys_ascending(s),
    ensures
        keys_ascending(insert_by_key(s, x)),
{
    lemma_insertion_point(s, x);
    let p = insertion_point(s, x.0);
    let r = insert_by_key(s, x);
    assert forall|i: int, j: int| 0 <= i < j < r.len() implies !code_point_lt(#[trigger] r[j].0, #[trigger] r[i].0) by {
        if j < p {
            assert(r[i] == s[i] && r[j] == s[j]);
        } else if j == p {
            assert(r[i] == s[i] && r[j] == x);
        } else if i < p {
            assert(r[i] == s[i] && r[j] == s[j - 1]);
        } else if i == p {
            assert(r[i] == x && r[j] == s[j - 1]);
            if j - 1 > p {
                assert(!code_point_lt(s[j - 1].0, s[p].0));
                lemma_lt_not_lt(x.0, s[p].0, s[j - 1].0);
            } else {
                lemma_lt_asym(x.0, s[p].0);
            }
        } else {
            assert(r[i] == s[i - 1] && r[j] == s[j - 1]);
        }
    }
}

proof fn lemma_lt_asym(a: Seq<char>, b: Seq<char>)
    requires
        code_point_lt(a, b),
    ensures
        !code_point_lt(b, a),
{
    if code_point_lt(b, a) {
        lemma_code_point_lt_transitive(a, b, a);
        lemma_code_point_lt_irreflexive(a);
    }
}

/// If `a < b` and `c` does not precede `b`, then `c` does not precede `a`.
proof fn lemma_lt_not_lt(a: Seq<char>, b: Seq<char>, c: Seq<char>)
    requires
        code_point_lt(a, b),
        !code_point_lt(c, b),
    ensures
        !code_point_lt(c, a),
{
    if code_point_lt(c, a) {
        lemma_code_point_lt_transitive(c, a, b);
    }
}

/// The sorted sequence has keys in ascending code-point order.
pub proof fn lemma_sorted_by_key_ascending<T>(s: Seq<(Seq<char>, T)>)
    ensures
        keys_ascending(sorted_by_key(s)),
    decreases s.len(),
{
    if s.len() > 0 {
        lemma_sorted_by_key_ascending(s.drop_last());
        lemma_insert_keeps_ascending(sorted_by_key(s.drop_last()), s.last());
    }
}

/// With distinct keys, the sorted sequence is strictly ascending by key.
pub proof fn lemma_sorted_by_key_strict<T>(s: Seq<(Seq<char>, T)>)
    requires
        keys_distinct(s),
    ensures
        keys_strictly_ascending(sorted_by_key(s)),
{
    let r = sorted_by_key(s);
    lemma_sorted_by_key_ascending(s);
    lemma_sorted_by_key_permutes(s);
    assert forall|i: int, j: int| 0 <= i < j < r.len() implies code_point_lt(#[trigger] r[i].0, #[trigger] r[j].0) by {
        assert(!code_point_lt(r[j].0, r[i].0));
        if r[i].0 == r[j].0 {
            lemma_distinct_keys_in_permutation(s, r, i, j);
        } else {
            lemma_code_point_lt_total(r[i].0, r[j].0);
        }
    }
}

/// Two positions of a permutation of a sequence with distinct keys hold distinct keys.
proof fn lemma_distinct_keys_in_permutation<T>(s: Seq<(Seq<char>, T)>, r: Seq<(Seq<char>, T)>, i: int, j: int)
    requires
        keys_distinct(s),
        r.to_multiset() == s.to_multiset(),
        0 <= i < j < r.len(),
    ensures
        r[i].0 != r[j].0,
{
    if r[i].0 == r[j].0 {
        vstd::seq_lib::to_multiset_contains(r, r[i]);
        vstd::seq_lib::to_multiset_contains(s, r[i]);
        vstd::seq_lib::to_multiset_contains(r, r[j]);
        vstd::seq_lib::to_multiset_contains(s, r[j]);
        assert(r.contains(r[i]));
        assert(r.contains(r[j]));
        let a = choose|a: int| 0 <= a < s.len() && s[a] == r[i];
        let b = choose|b: int| 0 <= b < s.len() && s[b] == r[j];
        if a == b {
            // r[i] == r[j] as whole members; they occur twice in r, so twice in s
            assert(r[i] == r[j]);
            lemma_two_positions_count(r, i, j);
            lemma_count_one_when_distinct(s, a);
        }
    }
}

proof fn lemma_two_positions_count<A>(r: Seq<A>, i: int, j: int)
    requires
        0 <= i < j < r.len(),
        r[i] == r[j],
    ensures
        r.to_multiset().count(r[i]) >= 2,
{
    broadcast use vstd::multiset::group_multiset_axioms;
    let x = r[i];
    let t = r.remove(j);
    vstd::seq_lib::to_multiset_remove(r, j);
    assert(t[i] == x);
    assert(t.contains(x));
    vstd::seq_lib::to_multiset_contains(t, x);
}

proof fn lemma_count_one_when_distinct<T>(s: Seq<(Seq<char>, T)>, a: int)
    requires
        keys_distinct(s),
        0 <= a < s.len(),
    ensures
        s.to_multiset().count(s[a]) == 1,
{
    broadcast use vstd::multiset::group_multiset_axioms;
    let x = s[a];
    let t = s.remove(a);
    vstd::seq_lib::to_multiset_remove(s, a);
    assert(!t.contains(x)) by {
        if t.contains(x) {
            let k = choose|k: int| 0 <= k < t.len() && t[k] == x;
            if k < a {
                assert(t[k] == s[k]);
                assert(s[k].0 == s[a].0);
            } else {
                assert(t[k] == s[k + 1]);
                assert(s[a].0 == s[k + 1].0);
            }
        }
    }
    vstd::seq_lib::to_multiset_contains(t, x);
}

/// Keys in strictly ascending order are distinct.
pub proof fn lemma_strictly_ascending_distinct<T>(s: Seq<(Seq<char>, T)>)
    requires
        keys_strictly_ascending(s),
    ensures
        keys_distinct(s),
{
    assert forall|i: int, j: int| 0 <= i < j < s.len() implies #[trigger] s[i].0 != #[trigger] s[j].0 by {
        if s[i].0 == s[j].0 {
            lemma_code_point_lt_irreflexive(s[i].0);
        }
    }
}

/// Pairs of an owned key and a position, seen as key characters and an integer.
pub open spec fn keyed_view(v: Seq<(String, usize)>) -> Seq<(Seq<char>, int)> {
    Seq::new(v.len(), |i: int| (v[i].0@, v[i].1 as int))
}

fn find_insertion_point(sorted: &Vec<(String, usize)>, key: &Vec<char>) -> (p: usize)
    ensures
        p as int == insertion_point(keyed_view(sorted@), key@),
{
    let mut j: usize = 0;
    assert(keyed_view(sorted@).skip(0) =~= keyed_view(sorted@));
    while j < sorted.len()
        invariant
            j <= sorted@.len(),
            insertion_point(keyed_view(sorted@), key@) == j + insertion_point(keyed_view(sorted@).skip(j as int), key@),
        decreases sorted@.len() - j,
    {
        let other = chars_of(sorted[j].0.as_str());
        if code_point_less(key.as_slice(), other.as_slice()) {
            return j;
        }
        assert(keyed_view(sorted@).skip(j as int).drop_first() =~= keyed_view(sorted@).skip(j + 1));
        j = j + 1;
    }
    j
}

/// Stable sort of `(key, position)` pairs by key in code-point order.
pub fn sort_by_key(items: Vec<(String, usize)>) -> (r: Vec<(String, usize)>)
    ensures
        keyed_view(r@) == sorted_by_key(keyed_view(items@)),
{
    let mut out: Vec<(String, usize)> = Vec::new();
    let mut i: usize = 0;
    while i < items.len()
        invariant
            i <= items@.len(),
            keyed_view(out@) == sorted_by_key(keyed_view(items@).take(i as int)),
        decreases items@.len() - i,
    {
        let key = chars_of(items[i].0.as_str());
        let p = find_insertion_point(&out, &key);
        let ghost before = out@;
        proof {
            lemma_insertion_point(keyed_view(before), keyed_view(items@)[i as int]);
        }
        out.insert(p, (items[i].0.clone(), items[i].1));
        assert(keyed_view(out@) =~= keyed_view(before).insert(p as int, keyed_view(items@)[i as int]));
        assert(keyed_view(items@).take(i + 1).drop_last() =~= keyed_view(items@).take(i as int));
        i = i + 1;
    }
    assert(keyed_view(items@).take(i as int) =~= keyed_view(items@));
    out
}

} // verus!
