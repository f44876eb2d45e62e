//! Stable content fingerprint of a loaded configuration.
//!
//! The fingerprint is a hex SHA-256 over the canonical JSON of a configuration, in
//! which the keys of every object are sorted. It does not depend on the order in
//! which maps are walked. The order of lists is kept on purpose: reordering routes
//! can change which one wins.

use crate::text;
use serde_json::Value;
use sha2::Digest;
use vstd::prelude::*;
use vstd::string::*;

verus! {

// ---------------------------------------------------------------------------
// JSON values
// ---------------------------------------------------------------------------

/// `serde_json::Value`: a JSON value.
#[verifier::external_type_specification]
#[verifier::external_body]
pub struct ExValue(serde_json::Value);

/// The structure of a JSON value: lists and maps down to values that are neither.
pub ghost enum Tree {
    Leaf(serde_json::Value),
    Array(Seq<Tree>),
    Object(Seq<(Seq<char>, Tree)>),
}

/// The structure of a value. The entries of a map stand in the order in which the
/// map is walked.
pub uninterp spec fn tree_of(v: serde_json::Value) -> Tree;

/// The structures of the items of a list.
pub open spec fn trees_of(items: Seq<Value>) -> Seq<Tree> {
    items.map_values(|v: Value| tree_of(v))
}

/// The keys and structures of the entries of a map.
pub open spec fn entries_of(entries: Seq<(String, Value)>) -> Seq<(Seq<char>, Tree)> {
    entries.map_values(|e: (String, Value)| (e.0@, tree_of(e.1)))
}

/// No key stands twice.
pub open spec fn distinct_keys(s: Seq<(Seq<char>, Tree)>) -> bool {
    forall|i: int, j: int|
        0 <= i < j < s.len() ==> (#[trigger] s[i]).0 != (#[trigger] s[j]).0
}

/// No map in the value, at any depth, holds a key twice.
pub open spec fn proper(t: Tree) -> bool
    decreases t,
{
    match t {
        Tree::Leaf(_) => true,
        Tree::Array(x) => forall|i: int| 0 <= i < x.len() ==> proper(#[trigger] x[i]),
        Tree::Object(x) => distinct_keys(x) && (forall|i: int|
            0 <= i < x.len() ==> proper((#[trigger] x[i]).1)),
    }
}

/// Every key stands before the next.
pub open spec fn ascending(s: Seq<(Seq<char>, Tree)>) -> bool {
    forall|i: int, j: int|
        0 <= i < j < s.len() ==> text::text_lt((#[trigger] s[i]).0, (#[trigger] s[j]).0)
}

/// A value, opened one level deep.
enum Shape {
    Leaf(Value),
    Array(Vec<Value>),
    Object(Vec<(String, Value)>),
}

/// Tells the variants of `serde_json::Value` apart: `Value::Array` gives its items,
/// `Value::Object` the entries of its map, in which no key stands twice; any other
/// value is handed back.
#[verifier::external_body]
fn open_value(v: Value) -> (r: Shape)
    ensures
        (match r {
            Shape::Leaf(x) => x == v && tree_of(v) == Tree::Leaf(v),
            Shape::Array(items) => tree_of(v) == Tree::Array(trees_of(items@)),
            Shape::Object(entries) => tree_of(v) == Tree::Object(entries_of(entries@))
                && distinct_keys(entries_of(entries@)),
        }),
{
    match v {
        Value::Array(items) => Shape::Array(items),
        Value::Object(map) => Shape::Object(map.into_iter().collect()),
        other => Shape::Leaf(other),
    }
}

/// `Value::Array`: the list of the given items.
#[verifier::external_body]
fn array_value(items: Vec<Value>) -> (r: Value)
    ensures
        tree_of(r) == Tree::Array(trees_of(items@)),
{
    Value::Array(items)
}

/// `Value::Object` over `Map::from_iter`: the map of the given entries. It is walked
/// in ascending order of keys or in the order of insertion, depending on how
/// `serde_json` is built; for entries that ascend the two are one.
#[verifier::external_body]
fn object_value(entries: Vec<(String, Value)>) -> (r: Value)
    requires
        ascending(entries_of(entries@)),
    ensures
        tree_of(r) == Tree::Object(entries_of(entries@)),
{
    Value::Object(entries.into_iter().collect())
}

// ---------------------------------------------------------------------------
// Canonical form
// ---------------------------------------------------------------------------

/// The first position from `from` on whose key stands behind `key`, or the length.
pub open spec fn key_slot(s: Seq<(Seq<char>, Tree)>, key: Seq<char>, from: int) -> int
    decreases s.len() - from,
{
    if from < 0 || from >= s.len() || text::text_lt(key, s[from].0) {
        from
    } else {
        key_slot(s, key, from + 1)
    }
}

/// The entries by key; equal keys keep their order.
pub open spec fn by_key(s: Seq<(Seq<char>, Tree)>) -> Seq<(Seq<char>, Tree)>
    decreases s.len(),
{
    if s.len() == 0 {
        Seq::empty()
    } else {
        let rest = by_key(s.drop_last());
        rest.insert(key_slot(rest, s.last().0, 0), s.last())
    }
}

/// The value with the keys of every object sorted.
pub open spec fn canonical(t: Tree) -> Tree
    decreases t,
{
    match t {
        Tree::Leaf(v) => Tree::Leaf(v),
        Tree::Array(items) => Tree::Array(canonical_items(items)),
        Tree::Object(entries) => Tree::Object(by_key(canonical_entries(entries))),
    }
}

/// The items in canonical form, in their order.
pub open spec fn canonical_items(items: Seq<Tree>) -> Seq<Tree>
    decreases items,
{
    if items.len() == 0 {
        Seq::empty()
    } else {
        canonical_items(items.drop_last()).push(canonical(items.last()))
    }
}

/// The entries with their values in canonical form, in their order.
pub open spec fn canonical_entries(entries: Seq<(Seq<char>, Tree)>) -> Seq<(Seq<char>, Tree)>
    decreases entries,
{
    if entries.len() == 0 {
        Seq::empty()
    } else {
        canonical_entries(entries.drop_last()).push(
            (entries.last().0, canonical(entries.last().1)),
        )
    }
}

proof fn lemma_canonical_items(items: Seq<Tree>)
    ensures
        canonical_items(items).len() == items.len(),
        forall|i: int|
            0 <= i < items.len() ==> #[trigger] canonical_items(items)[i] == canonical(items[i]),
    decreases items.len(),
{
    if items.len() > 0 {
        lemma_canonical_items(items.drop_last());
    }
}

proof fn lemma_canonical_entries(s: Seq<(Seq<char>, Tree)>)
    ensures
        canonical_entries(s).len() == s.len(),
        forall|i: int|
            0 <= i < s.len() ==> #[trigger] canonical_entries(s)[i] == (s[i].0, canonical(s[i].1)),
    decreases s.len(),
{
    if s.len() > 0 {
        lemma_canonical_entries(s.drop_last());
    }
}

proof fn lemma_key_slot(s: Seq<(Seq<char>, Tree)>, key: Seq<char>, from: int)
    requires
        0 <= from <= s.len(),
    ensures
        from <= key_slot(s, key, from) <= s.len(),
        key_slot(s, key, from) < s.len() ==> text::text_lt(key, s[key_slot(s, key, from)].0),
        forall|j: int|
            from <= j < key_slot(s, key, from) ==> !text::text_lt(key, (#[trigger] s[j]).0),
    decreases s.len() - from,
{
    if from < s.len() && !text::text_lt(key, s[from].0) {
        lemma_key_slot(s, key, from + 1);
    }
}

/// Sorting keeps the entries.
proof fn lemma_by_key_keeps(s: Seq<(Seq<char>, Tree)>)
    ensures
        by_key(s).len() == s.len(),
        forall|e: (Seq<char>, Tree)| #[trigger] by_key(s).contains(e) <==> s.contains(e),
    decreases s.len(),
{
    if s.len() > 0 {
        let init = s.drop_last();
        let rest = by_key(init);
        let e0 = s.last();
        lemma_by_key_keeps(init);
        lemma_key_slot(rest, e0.0, 0);
        let k = key_slot(rest, e0.0, 0);
        let n = rest.insert(k, e0);
        assert forall|e: (Seq<char>, Tree)| #[trigger] n.contains(e) implies s.contains(e) by {
            let i = choose|i: int| 0 <= i < n.len() && n[i] == e;
            if i == k {
                assert(s[s.len() - 1] == e);
            } else {
                let j = if i < k {
                    i
                } else {
                    i - 1
                };
                assert(rest[j] == e);
                assert(rest.contains(e));
                let m = choose|m: int| 0 <= m < init.len() && init[m] == e;
                assert(s[m] == e);
            }
        }
        assert forall|e: (Seq<char>, Tree)| #[trigger] s.contains(e) implies n.contains(e) by {
            let i = choose|i: int| 0 <= i < s.len() && s[i] == e;
            if i == s.len() - 1 {
                assert(n[k] == e);
            } else {
                assert(init[i] == e);
                assert(init.contains(e));
                assert(rest.contains(e));
                let j = choose|j: int| 0 <= j < rest.len() && rest[j] == e;
                if j < k {
                    assert(n[j] == e);
                } else {
                    assert(n[j + 1] == e);
                }
            }
        }
        assert(by_key(s) == n);
    }
}

/// Sorting entries with distinct keys makes them ascend.
proof fn lemma_by_key_ascends(s: Seq<(Seq<char>, Tree)>)
    requires
        distinct_keys(s),
    ensures
        ascending(by_key(s)),
    decreases s.len(),
{
    if s.len() > 0 {
        let init = s.drop_last();
        let rest = by_key(init);
        let e0 = s.last();
        assert(distinct_keys(init)) by {
            assert forall|i: int, j: int| 0 <= i < j < init.len() implies (#[trigger] init[i]).0
                != (#[trigger] init[j]).0 by {
                assert(init[i] == s[i] && init[j] == s[j]);
            }
        }
        lemma_by_key_ascends(init);
        lemma_by_key_keeps(init);
        lemma_key_slot(rest, e0.0, 0);
        let k = key_slot(rest, e0.0, 0);
        let n = rest.insert(k, e0);
        assert forall|j: int| 0 <= j < k implies text::text_lt((#[trigger] rest[j]).0, e0.0) by {
            assert(rest.contains(rest[j]));
            let m = choose|m: int| 0 <= m < init.len() && init[m] == rest[j];
            assert(s[m] == rest[j]);
            assert(s[m].0 != s[s.len() - 1].0);
            text::lemma_text_lt_total(rest[j].0, e0.0);
        }
        assert forall|j: int| k <= j < rest.len() implies text::text_lt(
            e0.0,
            (#[trigger] rest[j]).0,
        ) by {
            if j > k {
                text::lemma_text_lt_transitive(e0.0, rest[k].0, rest[j].0);
            }
        }
        assert forall|i: int, j: int| 0 <= i < j < n.len() implies text::text_lt(
            (#[trigger] n[i]).0,
            (#[trigger] n[j]).0,
        ) by {
            if j < k {
                assert(n[i] == rest[i] && n[j] == rest[j]);
            } else if j == k {
                assert(n[i] == rest[i]);
            } else if i == k {
                assert(n[j] == rest[j - 1]);
            } else if i < k {
                assert(n[i] == rest[i] && n[j] == rest[j - 1]);
            } else {
                assert(n[i] == rest[i - 1] && n[j] == rest[j - 1]);
            }
        }
        assert(by_key(s) == n);
    }
}

fn find_key_slot(s: &Vec<(String, Value)>, key: &str) -> (r: usize)
    ensures
        r == key_slot(entries_of(s@), key@, 0),
        r <= s@.len(),
{
    let ghost all = entries_of(s@);
    proof {
        lemma_key_slot(all, key@, 0);
    }
    let mut i: usize = 0;
    while i < s.len() && !text::is_before(key, s[i].0.as_str())
        invariant
            0 <= i <= s.len(),
            all == entries_of(s@),
            key_slot(all, key@, 0) == key_slot(all, key@, i as int),
        decreases s.len() - i,
    {
        assert(all[i as int].0 == s@[i as int].0@);
        i += 1;
    }
    assert(i < s.len() ==> all[i as int].0 == s@[i as int].0@);
    i
}

/// The value with the keys of every object sorted, at every depth. A JSON value holds
/// no key of a map twice.
pub fn canonicalize(value: Value) -> (r: Value)
    ensures
        tree_of(r) == canonical(tree_of(value)),
        proper(tree_of(value)),
    decreases tree_of(value),
{
    match open_value(value) {
        Shape::Leaf(v) => v,
        Shape::Array(items) => {
            let ghost given = items@;
            let ghost all = trees_of(given);
            let mut out: Vec<Value> = Vec::new();
            for v in it: items
                invariant
                    it.seq() == given,
                    all == trees_of(given),
                    tree_of(value) == Tree::Array(all),
                    trees_of(out@) == canonical_items(all.take(it.index() as int)),
                    forall|j: int| 0 <= j < it.index() ==> proper(#[trigger] all[j]),
            {
                let ghost i = it.index() as int;
                assert(all[i] == tree_of(v));
                assert(decreases_to!(tree_of(value) => tree_of(value)->Array_0));
                assert(decreases_to!(all => all[i]));
                let ghost before = out@;
                let c = canonicalize(v);
                out.push(c);
                assert(all.take(i + 1).drop_last() =~= all.take(i));
                assert(trees_of(out@) =~= trees_of(before).push(tree_of(c)));
            }
            assert(all.take(all.len() as int) =~= all);
            array_value(out)
        },
        Shape::Object(entries) => {
            let ghost given = entries@;
            let ghost all = entries_of(given);
            let mut out: Vec<(String, Value)> = Vec::new();
            for e in it: entries
                invariant
                    it.seq() == given,
                    all == entries_of(given),
                    tree_of(value) == Tree::Object(all),
                    entries_of(out@) == by_key(canonical_entries(all.take(it.index() as int))),
                    forall|j: int| 0 <= j < it.index() ==> proper((#[trigger] all[j]).1),
            {
                let ghost i = it.index() as int;
                assert(all[i] == (e.0@, tree_of(e.1)));
                assert(decreases_to!(tree_of(value) => tree_of(value)->Object_0));
                assert(decreases_to!(all => all[i]));
                assert(decreases_to!(all[i] => all[i].1));
                let (key, v) = e;
                let c = canonicalize(v);
                let at = find_key_slot(&out, key.as_str());
                let ghost before = out@;
                out.insert(at, (key, c));
                proof {
                    assert(all.take(i + 1).drop_last() =~= all.take(i));
                    assert(entries_of(out@) =~= entries_of(before).insert(
                        at as int,
                        (key@, tree_of(c)),
                    ));
                    let ce = canonical_entries(all.take(i + 1));
                    assert(ce.drop_last() =~= canonical_entries(all.take(i)));
                }
            }
            assert(all.take(all.len() as int) =~= all);
            proof {
                lemma_canonical_entries(all);
                assert(distinct_keys(canonical_entries(all)));
                lemma_by_key_ascends(canonical_entries(all));
            }
            object_value(out)
        },
    }
}

// ---------------------------------------------------------------------------
// The hash
// ---------------------------------------------------------------------------

/// The compact JSON encoding of a value with the given structure.
pub uninterp spec fn json_encoding(t: Tree) -> Seq<u8>;

/// `serde_json::to_vec` on a `Value`, which cannot fail: the compact JSON encoding,
/// in which the entries of maps stand in the order in which the maps are walked.
#[verifier::external_body]
fn encode_value(v: &Value) -> (r: Vec<u8>)
    ensures
        r@ == json_encoding(tree_of(*v)),
{
    serde_json::to_vec(v).expect("a JSON value encodes")
}

/// The SHA-256 digest of some bytes.
pub uninterp spec fn sha256_digest(bytes: Seq<u8>) -> Seq<u8>;

/// `Sha256::digest`: the digest, which is 32 bytes long.
#[verifier::external_body]
fn sha256(bytes: &[u8]) -> (r: Vec<u8>)
    ensures
        r@ == sha256_digest(bytes@),
        r@.len() == 32,
{
    sha2::Sha256::digest(bytes).to_vec()
}

/// Two lowercase hex digits for each byte.
pub open spec fn hex_text(bytes: Seq<u8>) -> Seq<char> {
    Seq::new(
        2 * bytes.len(),
        |i: int|
            text::hex_char(
                (if i % 2 == 0 {
                    bytes[i / 2] / 16
                } else {
                    bytes[i / 2] % 16
                }) as nat,
            ),
    )
}

/// `hex::encode`: two lowercase hex digits for each byte.
#[verifier::external_body]
fn hex_encode(bytes: &[u8]) -> (r: String)
    ensures
        r@ == hex_text(bytes@),
{
    hex::encode(bytes)
}

/// The text form of a digest.
pub fn digest_text(digest: &Vec<u8>) -> (r: String)
    ensures
        r@ == hex_text(digest@),
{
    hex_encode(digest.as_slice())
}

/// The content hash of a value: the SHA-256 digest of its canonical JSON, in hex.
pub open spec fn hash_of(t: Tree) -> Seq<char> {
    hex_text(sha256_digest(json_encoding(canonical(t))))
}

/// The hex-encoded SHA-256 content hash of a configuration, given as JSON.
pub fn content_hash(config: Value) -> (r: String)
    ensures
        r@ == hash_of(tree_of(config)),
        r@.len() == 64,
        proper(tree_of(config)),
{
    let value = canonicalize(config);
    let bytes = encode_value(&value);
    digest_text(&sha256(bytes.as_slice()))
}

// ---------------------------------------------------------------------------
// Laws
// ---------------------------------------------------------------------------

/// The two values differ at most in the order of the entries of their maps.
pub open spec fn reordered(a: Tree, b: Tree) -> bool
    decreases a, 0int,
{
    match (a, b) {
        (Tree::Leaf(v), Tree::Leaf(w)) => v == w,
        (Tree::Array(x), Tree::Array(y)) => x.len() == y.len() && (forall|i: int|
            0 <= i < x.len() ==> reordered(#[trigger] x[i], y[i])),
        (Tree::Object(x), Tree::Object(y)) => distinct_keys(x) && distinct_keys(y) && (forall|i: int|
            0 <= i < x.len() ==> is_entry_of(x, i, #[trigger] partner(x, i, y), y)) && (forall|j: int|
            0 <= j < y.len() ==> is_entry_of(x, #[trigger] source(x, y, j), j, y)),
        _ => false,
    }
}

/// Entry `i` of `x` and entry `j` of `y` have the same key and, up to the order of
/// maps, the same value.
pub open spec fn is_entry_of(
    x: Seq<(Seq<char>, Tree)>,
    i: int,
    j: int,
    y: Seq<(Seq<char>, Tree)>,
) -> bool
    decreases x, 1int,
{
    0 <= i < x.len() && 0 <= j < y.len() && x[i].0 == y[j].0 && reordered(x[i].1, y[j].1)
}

/// The entry of `y` with the key of entry `i` of `x`.
pub open spec fn partner(x: Seq<(Seq<char>, Tree)>, i: int, y: Seq<(Seq<char>, Tree)>) -> int {
    choose|j: int| 0 <= j < y.len() && (#[trigger] y[j]).0 == x[i].0
}

/// The entry of `x` with the key of entry `j` of `y`.
pub open spec fn source(x: Seq<(Seq<char>, Tree)>, y: Seq<(Seq<char>, Tree)>, j: int) -> int {
    choose|i: int| 0 <= i < x.len() && (#[trigger] x[i]).0 == y[j].0
}

/// Two sequences of ascending entries with the same entries are the same.
proof fn lemma_ascending_unique(s: Seq<(Seq<char>, Tree)>, t: Seq<(Seq<char>, Tree)>)
    requires
        ascending(s),
        ascending(t),
        forall|e: (Seq<char>, Tree)| s.contains(e) <==> #[trigger] t.contains(e),
    ensures
        s == t,
    decreases s.len(),
{
    if s.len() == 0 {
        if t.len() > 0 {
            assert(t.contains(t[0]));
            assert(s.contains(t[0]));
        }
        assert(s =~= t);
    } else {
        let a = s.last();
        assert(s.contains(a));
        assert(t.contains(a));
        let p = choose|p: int| 0 <= p < t.len() && t[p] == a;
        let b = t.last();
        assert(t.contains(b));
        let q = choose|q: int| 0 <= q < s.len() && s[q] == b;
        if p != t.len() - 1 {
            assert(text::text_lt(t[p].0, t[t.len() - 1].0));
            if q == s.len() - 1 {
                text::lemma_text_lt_irreflexive(a.0);
            } else {
                assert(text::text_lt(s[q].0, s[s.len() - 1].0));
                text::lemma_text_lt_transitive(a.0, b.0, a.0);
                text::lemma_text_lt_irreflexive(a.0);
            }
        }
        assert(a == b);
        let s1 = s.drop_last();
        let t1 = t.drop_last();
        assert forall|e: (Seq<char>, Tree)| s1.contains(e) <==> #[trigger] t1.contains(e) by {
            if s1.contains(e) {
                let i = choose|i: int| 0 <= i < s1.len() && s1[i] == e;
                assert(s[i] == e);
                assert(s.contains(e));
                assert(t.contains(e));
                let j = choose|j: int| 0 <= j < t.len() && t[j] == e;
                assert(text::text_lt(s[i].0, s[s.len() - 1].0));
                if j == t.len() - 1 {
                    text::lemma_text_lt_irreflexive(a.0);
                }
                assert(t1[j] == e);
            }
            if t1.contains(e) {
                let j = choose|j: int| 0 <= j < t1.len() && t1[j] == e;
                assert(t[j] == e);
                assert(t.contains(e));
                assert(s.contains(e));
                let i = choose|i: int| 0 <= i < s.len() && s[i] == e;
                assert(text::text_lt(t[j].0, t[t.len() - 1].0));
                if i == s.len() - 1 {
                    text::lemma_text_lt_irreflexive(a.0);
                }
                assert(s1[i] == e);
            }
        }
        lemma_ascending_unique(s1, t1);
        assert(s =~= s1.push(a));
        assert(t =~= t1.push(b));
    }
}

/// Every entry of `x` has one in `y` with its key and the canonical form of its value.
spec fn covered(x: Seq<(Seq<char>, Tree)>, y: Seq<(Seq<char>, Tree)>) -> bool {
    forall|i: int|
        0 <= i < x.len() ==> canonical_entries(y).contains(
            ((#[trigger] x[i]).0, canonical(x[i].1)),
        )
}

proof fn lemma_covered(x: Seq<(Seq<char>, Tree)>, y: Seq<(Seq<char>, Tree)>, e: (Seq<char>, Tree))
    requires
        covered(x, y),
        canonical_entries(x).contains(e),
    ensures
        canonical_entries(y).contains(e),
{
    let cx = canonical_entries(x);
    lemma_canonical_entries(x);
    let i = choose|i: int| 0 <= i < cx.len() && cx[i] == e;
    assert(e == (x[i].0, canonical(x[i].1)));
}

proof fn lemma_same_entries(x: Seq<(Seq<char>, Tree)>, y: Seq<(Seq<char>, Tree)>)
    requires
        distinct_keys(x),
        distinct_keys(y),
        covered(x, y),
        covered(y, x),
    ensures
        by_key(canonical_entries(x)) == by_key(canonical_entries(y)),
{
    let cx = canonical_entries(x);
    let cy = canonical_entries(y);
    lemma_canonical_entries(x);
    lemma_canonical_entries(y);
    lemma_by_key_keeps(cx);
    lemma_by_key_keeps(cy);
    lemma_by_key_ascends(cx);
    lemma_by_key_ascends(cy);
    assert forall|e: (Seq<char>, Tree)| by_key(cx).contains(e) <==> #[trigger] by_key(cy).contains(
        e,
    ) by {
        assert(by_key(cx).contains(e) <==> cx.contains(e));
        if cx.contains(e) {
            lemma_covered(x, y, e);
        }
        if cy.contains(e) {
            lemma_covered(y, x, e);
        }
    }
    lemma_ascending_unique(by_key(cx), by_key(cy));
}

/// The order of the entries of maps, at any depth, moves neither the canonical form
/// nor the hash.
pub proof fn map_order_is_ignored(a: Tree, b: Tree)
    requires
        reordered(a, b),
    ensures
        canonical(a) == canonical(b),
        hash_of(a) == hash_of(b),
    decreases a,
{
    match (a, b) {
        (Tree::Array(x), Tree::Array(y)) => {
            lemma_canonical_items(x);
            lemma_canonical_items(y);
            assert forall|i: int| 0 <= i < x.len() implies #[trigger] canonical_items(x)[i]
                == canonical_items(y)[i] by {
                map_order_is_ignored(x[i], y[i]);
            }
            assert(canonical_items(x) =~= canonical_items(y));
        },
        (Tree::Object(x), Tree::Object(y)) => {
            lemma_canonical_entries(x);
            lemma_canonical_entries(y);
            assert(covered(x, y)) by {
                assert forall|i: int| 0 <= i < x.len() implies canonical_entries(y).contains(
                    ((#[trigger] x[i]).0, canonical(x[i].1)),
                ) by {
                    let j = partner(x, i, y);
                    assert(is_entry_of(x, i, j, y));
                    map_order_is_ignored(x[i].1, y[j].1);
                    assert(canonical_entries(y)[j] == (x[i].0, canonical(x[i].1)));
                }
            }
            assert(covered(y, x)) by {
                assert forall|j: int| 0 <= j < y.len() implies canonical_entries(x).contains(
                    ((#[trigger] y[j]).0, canonical(y[j].1)),
                ) by {
                    let i = source(x, y, j);
                    assert(is_entry_of(x, i, j, y));
                    map_order_is_ignored(x[i].1, y[j].1);
                    assert(canonical_entries(x)[i] == (y[j].0, canonical(y[j].1)));
                }
            }
            lemma_same_entries(x, y);
        },
        _ => {},
    }
}

/// Nothing but the order of the entries of maps is left out of the canonical form:
/// values that differ in anything else, the order of a list included, have different
/// canonical forms.
pub proof fn canonical_form_is_faithful(a: Tree, b: Tree)
    requires
        proper(a),
        proper(b),
        canonical(a) == canonical(b),
    ensures
        reordered(a, b),
    decreases a,
{
    match (a, b) {
        (Tree::Array(x), Tree::Array(y)) => {
            lemma_canonical_items(x);
            lemma_canonical_items(y);
            assert forall|i: int| 0 <= i < x.len() implies reordered(#[trigger] x[i], y[i]) by {
                assert(canonical_items(x)[i] == canonical_items(y)[i]);
                canonical_form_is_faithful(x[i], y[i]);
            }
        },
        (Tree::Object(x), Tree::Object(y)) => {
            assert forall|i: int| 0 <= i < x.len() implies is_entry_of(
                x,
                i,
                #[trigger] partner(x, i, y),
                y,
            ) by {
                let j = lemma_twin(x, y, i);
                assert(y[j].0 == x[i].0);
                assert(partner(x, i, y) == j);
                canonical_form_is_faithful(x[i].1, y[j].1);
            }
            assert forall|j: int| 0 <= j < y.len() implies is_entry_of(
                x,
                #[trigger] source(x, y, j),
                j,
                y,
            ) by {
                let i = lemma_twin(y, x, j);
                assert(x[i].0 == y[j].0);
                assert(source(x, y, j) == i);
                canonical_form_is_faithful(x[i].1, y[j].1);
            }
        },
        _ => {},
    }
}

/// Where the sorted entries agree, an entry of one map has its twin in the other.
proof fn lemma_twin(x: Seq<(Seq<char>, Tree)>, y: Seq<(Seq<char>, Tree)>, i: int) -> (j: int)
    requires
        by_key(canonical_entries(x)) == by_key(canonical_entries(y)),
        0 <= i < x.len(),
    ensures
        0 <= j < y.len(),
        y[j].0 == x[i].0,
        canonical(y[j].1) == canonical(x[i].1),
{
    let cx = canonical_entries(x);
    let cy = canonical_entries(y);
    lemma_canonical_entries(x);
    lemma_canonical_entries(y);
    lemma_by_key_keeps(cx);
    lemma_by_key_keeps(cy);
    let e = cx[i];
    assert(cx.contains(e));
    assert(by_key(cx).contains(e));
    assert(by_key(cy).contains(e));
    assert(cy.contains(e));
    let j = choose|j: int| 0 <= j < cy.len() && cy[j] == e;
    assert(cy[j] == (y[j].0, canonical(y[j].1)));
    j
}

/// Two texts with one digest.
pub open spec fn collide(a: Seq<u8>, b: Seq<u8>) -> bool {
    a != b && sha256_digest(a) == sha256_digest(b)
}

/// Values that differ in more than the order of the entries of maps have different
/// hashes, unless two canonical values share their JSON text or two texts collide
/// under SHA-256.
pub proof fn hash_tells_values_apart(a: Tree, b: Tree)
    requires
        proper(a),
        proper(b),
        !reordered(a, b),
    ensures
        canonical(a) != canonical(b),
        hash_of(a) == hash_of(b) ==> json_encoding(canonical(a)) == json_encoding(canonical(b))
            || collide(json_encoding(canonical(a)), json_encoding(canonical(b))),
{
    if canonical(a) == canonical(b) {
        canonical_form_is_faithful(a, b);
    }
    if hash_of(a) == hash_of(b) {
        lemma_hex_text_is_injective(
            sha256_digest(json_encoding(canonical(a))),
            sha256_digest(json_encoding(canonical(b))),
        );
    }
}

proof fn lemma_hex_char_is_injective(a: nat, b: nat)
    requires
        a < 16,
        b < 16,
        text::hex_char(a) == text::hex_char(b),
    ensures
        a == b,
{
}

proof fn lemma_hex_pair(bytes: Seq<u8>, i: int)
    requires
        0 <= i < bytes.len(),
    ensures
        hex_text(bytes)[2 * i] == text::hex_char((bytes[i] / 16) as nat),
        hex_text(bytes)[2 * i + 1] == text::hex_char((bytes[i] % 16) as nat),
{
    assert((2 * i) % 2 == 0 && (2 * i) / 2 == i);
    assert((2 * i + 1) % 2 == 1 && (2 * i + 1) / 2 == i);
}

proof fn lemma_hex_text_is_injective(a: Seq<u8>, b: Seq<u8>)
    requires
        hex_text(a) == hex_text(b),
    ensures
        a == b,
{
    assert(hex_text(a).len() == 2 * a.len());
    assert(hex_text(b).len() == 2 * b.len());
    assert forall|i: int| 0 <= i < a.len() implies a[i] == b[i] by {
        lemma_hex_pair(a, i);
        lemma_hex_pair(b, i);
        lemma_hex_char_is_injective((a[i] / 16) as nat, (b[i] / 16) as nat);
        lemma_hex_char_is_injective((a[i] % 16) as nat, (b[i] % 16) as nat);
    }
    assert(a =~= b);
}

/// The order of lists is part of the canonical form.
pub proof fn list_order_is_kept(items: Seq<Tree>)
    ensures
        canonical(Tree::Array(items)) matches Tree::Array(c) && c.len() == items.len() && forall|
            i: int,
        |
            0 <= i < items.len() ==> #[trigger] c[i] == canonical(items[i]),
{
    lemma_canonical_items(items);
}

/// A digest is written in lowercase hex digits, two for each byte.
pub proof fn digest_text_is_hex(digest: Seq<u8>)
    ensures
        hex_text(digest).len() == 2 * digest.len(),
        forall|i: int|
            0 <= i < hex_text(digest).len() ==> ('0' <= #[trigger] hex_text(digest)[i] <= '9'
                || 'a' <= hex_text(digest)[i] <= 'f'),
{
}

/// The value of a lowercase hex digit.
pub open spec fn hex_value(c: char) -> int {
    if '0' <= c <= '9' {
        c as int - 48
    } else {
        c as int - 87
    }
}

/// A digest can be read back from its text: each byte is two digits, the more significant
/// one first.
pub proof fn digest_text_reads_back(digest: Seq<u8>, i: int)
    requires
        0 <= i < digest.len(),
    ensures
        hex_text(digest).len() == 2 * digest.len(),
        16 * hex_value(hex_text(digest)[2 * i]) + hex_value(hex_text(digest)[2 * i + 1])
            == digest[i],
{
    let h = hex_text(digest);
    let b = digest[i];
    assert((2 * i) / 2 == i && (2 * i + 1) / 2 == i);
    assert((2 * i) % 2 == 0 && (2 * i + 1) % 2 == 1);
    assert(h[2 * i] == text::hex_char((b / 16) as nat));
    assert(h[2 * i + 1] == text::hex_char((b % 16) as nat));
}

} // verus!
