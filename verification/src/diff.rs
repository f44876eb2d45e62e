//! Behavioural differences between two configurations.
//!
//! Entities are matched by identifier, so a rename reads as a removal and an
//! addition. Match conditions are compared without regard to their order, filter
//! chains in order.

use crate::config;
use crate::config::{
    AgentConfig, Config, FailureMode, Filter, FilterConfig, MatchCondition, RouteConfig,
    UpstreamConfig, UpstreamTarget,
};
use crate::lint;
use crate::matching;
use crate::routing;
use crate::server;
use crate::server::{ListenerConfig, TlsConfig, TlsVersion};
use crate::shadow;
use crate::strmap;
use crate::strmap::StringMap;
use crate::text;
use vstd::multiset::*;
use vstd::prelude::*;
use vstd::string::*;

verus! {

// ---------------------------------------------------------------------------
// Changes
// ---------------------------------------------------------------------------

/// Whether a change should stop a deployment.
#[derive(Debug, Clone, Copy, PartialEq, Eq, Structural)]
pub enum Severity {
    /// Breaks traffic silently or removes a security control.
    High,
    /// Worth a look.
    Advisory,
}

/// A change as plain values.
#[verifier::ext_equal]
pub ghost struct Change {
    pub severity: Severity,
    pub category: Seq<char>,
    pub entity: Seq<char>,
    pub summary: Seq<char>,
}

/// A behavioural difference.
#[derive(Debug)]
pub struct Delta {
    /// Whether the change should stop a deployment.
    pub severity: Severity,
    /// `route`, `upstream`, `listener`, `agent` or `filter`.
    pub category: &'static str,
    /// Identifier of the entity.
    pub entity: String,
    /// What changed, in words.
    pub summary: String,
}

impl DeepView for Delta {
    type V = Change;

    open spec fn deep_view(&self) -> Change {
        Change {
            severity: self.severity,
            category: self.category@,
            entity: self.entity@,
            summary: self.summary@,
        }
    }
}

/// A change that should stop a deployment.
pub open spec fn high(category: Seq<char>, id: Seq<char>, summary: Seq<char>) -> Change {
    Change { severity: Severity::High, category, entity: id, summary }
}

/// A change worth a look.
pub open spec fn advisory(category: Seq<char>, id: Seq<char>, summary: Seq<char>) -> Change {
    Change { severity: Severity::Advisory, category, entity: id, summary }
}

/// A list with a change at its end if a condition holds.
pub open spec fn add_if(list: Seq<Change>, b: bool, c: Change) -> Seq<Change> {
    if b {
        list.push(c)
    } else {
        list
    }
}

fn note(
    deltas: &mut Vec<Delta>,
    severity: Severity,
    category: &'static str,
    id: &str,
    summary: String,
)
    ensures
        final(deltas).deep_view() == old(deltas).deep_view().push(
            (Change { severity, category: category@, entity: id@, summary: summary@ }),
        ),
{
    let ghost before = deltas.deep_view();
    let ghost c = Change { severity, category: category@, entity: id@, summary: summary@ };
    deltas.push(Delta { severity, category, entity: id.to_owned(), summary });
    assert(deltas.deep_view() =~= before.push(c));
}

fn line3(a: &str, b: &str, c: &str) -> (r: String)
    ensures
        r@ == a@ + b@ + c@,
{
    let mut out = a.to_owned();
    out.append(b);
    out.append(c);
    out
}

fn line5(a: &str, b: &str, c: &str, d: &str, e: &str) -> (r: String)
    ensures
        r@ == a@ + b@ + c@ + d@ + e@,
{
    let mut out = line3(a, b, c);
    out.append(d);
    out.append(e);
    out
}

fn line6(a: &str, b: &str, c: &str, d: &str, e: &str, f: &str) -> (r: String)
    ensures
        r@ == a@ + b@ + c@ + d@ + e@ + f@,
{
    let mut out = line5(a, b, c, d, e);
    out.append(f);
    out
}

// ---------------------------------------------------------------------------
// Comparison
// ---------------------------------------------------------------------------

/// A value with a key that decides whether two values behave alike.
pub trait Comparable: Sized {
    /// The key.
    type Key;

    /// The key of this value.
    spec fn key(&self) -> Self::Key;

    /// The keys are equal.
    fn same_key(&self, other: &Self) -> (r: bool)
        ensures
            r == (self.key() == other.key()),
    ;
}

/// The keys of a list.
pub open spec fn keys_of<T: Comparable>(s: Seq<T>) -> Seq<T::Key> {
    s.map_values(|x: T| x.key())
}

/// The two lists hold values that behave alike, equally often, in any order.
pub open spec fn same_multiset<T: Comparable>(a: Seq<T>, b: Seq<T>) -> bool {
    keys_of(a).to_multiset() == keys_of(b).to_multiset()
}

/// The keys of the values that are left.
closed spec fn left_keys<T: Comparable>(b: Seq<T>, left: Seq<usize>) -> Seq<T::Key> {
    left.map_values(|j: usize| b[j as int].key())
}

/// [`same_multiset`] on vectors.
pub fn alike<T: Comparable>(a: &Vec<T>, b: &Vec<T>) -> (r: bool)
    ensures
        r == same_multiset(a@, b@),
{
    let ghost ka = keys_of(a@);
    let ghost kb = keys_of(b@);
    let mut left: Vec<usize> = Vec::new();
    let mut j: usize = 0;
    while j < b.len()
        invariant
            j <= b@.len(),
            left@.len() == j,
            forall|k: int| 0 <= k < j ==> left@[k] == k,
        decreases b.len() - j,
    {
        left.push(j);
        j = j + 1;
    }
    proof {
        assert(left_keys(b@, left@) =~= kb);
        assert(ka.take(0) =~= Seq::empty());
        broadcast use vstd::seq_lib::group_to_multiset_ensures;

        assert(ka.take(0).to_multiset().add(left_keys(b@, left@).to_multiset()) =~= kb.to_multiset());
    }
    let mut i: usize = 0;
    while i < a.len()
        invariant
            i <= a@.len(),
            ka == keys_of(a@),
            kb == keys_of(b@),
            forall|k: int| 0 <= k < left@.len() ==> (#[trigger] left@[k]) < b@.len(),
            ka.take(i as int).to_multiset().add(left_keys(b@, left@).to_multiset())
                == kb.to_multiset(),
        decreases a.len() - i,
    {
        let mut p: usize = 0;
        while p < left.len() && !a[i].same_key(&b[left[p]])
            invariant
                i < a@.len(),
                p <= left@.len(),
                ka == keys_of(a@),
                forall|k: int| 0 <= k < left@.len() ==> (#[trigger] left@[k]) < b@.len(),
                forall|k: int| 0 <= k < p ==> b@[#[trigger] left@[k] as int].key() != ka[i as int],
            decreases left.len() - p,
        {
            p = p + 1;
        }
        let ghost x = ka[i as int];
        let ghost lk = left_keys(b@, left@);
        if p == left.len() {
            proof {
                assert(!lk.contains(x)) by {
                    if lk.contains(x) {
                        let k = choose|k: int| 0 <= k < lk.len() && lk[k] == x;
                        assert(b@[left@[k] as int].key() == x);
                    }
                }
                lemma_missing(ka, i as int, lk, kb);
            }
            return false;
        }
        let ghost before = left@;
        left.remove(p);
        proof {
            assert(left_keys(b@, left@) =~= lk.remove(p as int));
            lemma_taken(ka, i as int, lk, p as int, kb);
        }
        i = i + 1;
    }
    proof {
        assert(ka.take(i as int) =~= ka);
        lemma_rest(ka, left_keys(b@, left@), kb);
    }
    left.len() == 0
}

proof fn lemma_missing<K>(ka: Seq<K>, i: int, lk: Seq<K>, kb: Seq<K>)
    requires
        0 <= i < ka.len(),
        !lk.contains(ka[i]),
        ka.take(i).to_multiset().add(lk.to_multiset()) == kb.to_multiset(),
    ensures
        ka.to_multiset() != kb.to_multiset(),
{
    broadcast use {vstd::seq_lib::group_to_multiset_ensures, vstd::multiset::group_multiset_axioms};

    let x = ka[i];
    assert(lk.to_multiset().count(x) == 0);
    assert(ka.take(i + 1) =~= ka.take(i).push(x));
    assert(ka =~= ka.take(i + 1) + ka.skip(i + 1));
    vstd::seq_lib::lemma_multiset_commutative(ka.take(i + 1), ka.skip(i + 1));
    assert(ka.to_multiset().count(x) >= ka.take(i).to_multiset().count(x) + 1);
}

proof fn lemma_taken<K>(ka: Seq<K>, i: int, lk: Seq<K>, p: int, kb: Seq<K>)
    requires
        0 <= i < ka.len(),
        0 <= p < lk.len(),
        lk[p] == ka[i],
        ka.take(i).to_multiset().add(lk.to_multiset()) == kb.to_multiset(),
    ensures
        ka.take(i + 1).to_multiset().add(lk.remove(p).to_multiset()) == kb.to_multiset(),
{
    broadcast use {vstd::seq_lib::group_to_multiset_ensures, vstd::multiset::group_multiset_axioms};

    let x = ka[i];
    assert(ka.take(i + 1) =~= ka.take(i).push(x));
    assert(lk.remove(p).to_multiset() =~= lk.to_multiset().remove(lk[p]));
    assert(ka.take(i + 1).to_multiset().add(lk.remove(p).to_multiset()) =~= ka.take(
        i,
    ).to_multiset().add(lk.to_multiset()));
}

proof fn lemma_rest<K>(ka: Seq<K>, lk: Seq<K>, kb: Seq<K>)
    requires
        ka.to_multiset().add(lk.to_multiset()) == kb.to_multiset(),
    ensures
        (lk.len() == 0) == (ka.to_multiset() == kb.to_multiset()),
{
    broadcast use {vstd::seq_lib::group_to_multiset_ensures, vstd::multiset::group_multiset_axioms};

    if lk.len() == 0 {
        assert(ka.to_multiset() =~= kb.to_multiset());
    } else {
        assert(lk.to_multiset().count(lk[0]) > 0) by {
            assert(lk.contains(lk[0]));
        }
        assert(kb.to_multiset().count(lk[0]) > ka.to_multiset().count(lk[0]));
    }
}

/// What a condition asks for, with the methods of a list as a set in upper case.
pub ghost enum MatchKey {
    Path(Seq<char>),
    PathPrefix(Seq<char>),
    PathRegex(Seq<char>),
    Host(Seq<char>),
    Header(Seq<char>, Option<Seq<char>>),
    Method(Set<Seq<char>>),
    QueryParam(Seq<char>, Option<Seq<char>>),
}

/// The methods of a list, in upper case.
pub open spec fn method_set(methods: Seq<String>) -> Set<Seq<char>> {
    matching::upper_methods(methods).to_set()
}

impl Comparable for MatchCondition {
    type Key = MatchKey;

    open spec fn key(&self) -> MatchKey {
        match *self {
            MatchCondition::Path(p) => MatchKey::Path(p@),
            MatchCondition::PathPrefix(p) => MatchKey::PathPrefix(p@),
            MatchCondition::PathRegex(p) => MatchKey::PathRegex(p@),
            MatchCondition::Host(p) => MatchKey::Host(p@),
            MatchCondition::Header { name, value } => MatchKey::Header(name@, value.deep_view()),
            MatchCondition::Method(ms) => MatchKey::Method(method_set(ms@)),
            MatchCondition::QueryParam { name, value } => MatchKey::QueryParam(
                name@,
                value.deep_view(),
            ),
        }
    }

    fn same_key(&self, other: &Self) -> (r: bool) {
        match (self, other) {
            (MatchCondition::Path(a), MatchCondition::Path(b)) => text::same(
                a.as_str(),
                b.as_str(),
            ),
            (MatchCondition::PathPrefix(a), MatchCondition::PathPrefix(b)) => text::same(
                a.as_str(),
                b.as_str(),
            ),
            (MatchCondition::PathRegex(a), MatchCondition::PathRegex(b)) => text::same(
                a.as_str(),
                b.as_str(),
            ),
            (MatchCondition::Host(a), MatchCondition::Host(b)) => text::same(
                a.as_str(),
                b.as_str(),
            ),
            (
                MatchCondition::Header { name: a, value: v },
                MatchCondition::Header { name: b, value: w },
            ) => text::same(a.as_str(), b.as_str()) && text::same_option(v, w),
            (MatchCondition::Method(a), MatchCondition::Method(b)) => same_methods(a, b),
            (
                MatchCondition::QueryParam { name: a, value: v },
                MatchCondition::QueryParam { name: b, value: w },
            ) => text::same(a.as_str(), b.as_str()) && text::same_option(v, w),
            _ => false,
        }
    }
}

/// Every text of `a` is one of `b`.
fn is_covered(a: &Vec<String>, b: &Vec<String>) -> (r: bool)
    ensures
        r == a.deep_view().to_set().subset_of(b.deep_view().to_set()),
{
    let ghost x = a.deep_view();
    let ghost y = b.deep_view();
    let mut i: usize = 0;
    while i < a.len()
        invariant
            i <= a@.len(),
            x == a.deep_view(),
            y == b.deep_view(),
            x.len() == a@.len(),
            forall|j: int| 0 <= j < i ==> y.contains(#[trigger] x[j]),
        decreases a.len() - i,
    {
        if !text::has_text(b, a[i].as_str()) {
            proof {
                assert(x.to_set().contains(x[i as int]));
                assert(!y.to_set().contains(x[i as int]));
            }
            return false;
        }
        i = i + 1;
    }
    true
}

fn same_methods(a: &Vec<String>, b: &Vec<String>) -> (r: bool)
    ensures
        r == (method_set(a@) == method_set(b@)),
{
    let x = routing::upper_all(a);
    let y = routing::upper_all(b);
    let r = is_covered(&x, &y) && is_covered(&y, &x);
    proof {
        if r {
            assert(method_set(a@) =~= method_set(b@));
        }
    }
    r
}

/// What a target is.
pub ghost struct TargetKey {
    pub address: Seq<char>,
    pub weight: u32,
    pub max_requests: Option<u32>,
    pub metadata: Seq<(Seq<char>, Seq<char>)>,
}

impl Comparable for UpstreamTarget {
    type Key = TargetKey;

    open spec fn key(&self) -> TargetKey {
        TargetKey {
            address: self.address@,
            weight: self.weight,
            max_requests: self.max_requests,
            metadata: self.metadata.deep_view(),
        }
    }

    fn same_key(&self, other: &Self) -> (r: bool) {
        text::same(self.address.as_str(), other.address.as_str()) && self.weight == other.weight
            && same_count(self.max_requests, other.max_requests) && same_map(
            &self.metadata,
            &other.metadata,
        )
    }
}

fn same_count(a: Option<u32>, b: Option<u32>) -> (r: bool)
    ensures
        r == (a == b),
{
    match (a, b) {
        (Some(x), Some(y)) => x == y,
        (None, None) => true,
        _ => false,
    }
}

fn same_secs(a: Option<u64>, b: Option<u64>) -> (r: bool)
    ensures
        r == (a == b),
{
    match (a, b) {
        (Some(x), Some(y)) => x == y,
        (None, None) => true,
        _ => false,
    }
}

fn same_mode(a: Option<FailureMode>, b: Option<FailureMode>) -> (r: bool)
    ensures
        r == (a == b),
{
    match (a, b) {
        (Some(x), Some(y)) => x == y,
        (None, None) => true,
        _ => false,
    }
}

fn same_map(a: &StringMap<String>, b: &StringMap<String>) -> (r: bool)
    ensures
        r == (a.deep_view() == b.deep_view()),
{
    let n = a.len();
    if n != b.len() {
        return false;
    }
    let mut i: usize = 0;
    while i < n
        invariant
            i <= n,
            n == a.deep_view().len(),
            n == b.deep_view().len(),
            forall|j: int| 0 <= j < i ==> #[trigger] a.deep_view()[j] == b.deep_view()[j],
        decreases n - i,
    {
        if !text::same(a.key_at(i).as_str(), b.key_at(i).as_str()) || !text::same(
            a.value_at(i).as_str(),
            b.value_at(i).as_str(),
        ) {
            assert(a.deep_view()[i as int] != b.deep_view()[i as int]);
            return false;
        }
        assert(a.deep_view()[i as int] == b.deep_view()[i as int]);
        i = i + 1;
    }
    assert(a.deep_view() =~= b.deep_view());
    true
}

/// Reordering match conditions is no change.
pub proof fn reordered_conditions_are_alike(a: Seq<MatchCondition>, b: Seq<MatchCondition>)
    requires
        a.to_multiset() == b.to_multiset(),
    ensures
        same_multiset(a, b),
    decreases a.len(),
{
    broadcast use {vstd::seq_lib::group_to_multiset_ensures, vstd::multiset::group_multiset_axioms};

    assert(a.len() == b.len()) by {
        vstd::seq_lib::to_multiset_len(a);
        vstd::seq_lib::to_multiset_len(b);
    }
    if a.len() > 0 {
        let x = a.last();
        assert(a.contains(x));
        assert(a.to_multiset().count(x) > 0);
        assert(b.contains(x));
        let j = choose|j: int| 0 <= j < b.len() && b[j] == x;
        assert(a =~= a.drop_last().push(x));
        assert(a.drop_last().to_multiset() =~= a.to_multiset().remove(x));
        assert(b.remove(j).to_multiset() =~= b.to_multiset().remove(x));
        reordered_conditions_are_alike(a.drop_last(), b.remove(j));
        assert(keys_of(a) =~= keys_of(a.drop_last()).push(x.key()));
        assert(keys_of(b.remove(j)) =~= keys_of(b).remove(j));
        assert(keys_of(b)[j] == x.key());
        assert(keys_of(b).remove(j).to_multiset() =~= keys_of(b).to_multiset().remove(x.key()));
        assert(keys_of(b).to_multiset().count(x.key()) > 0) by {
            assert(keys_of(b).contains(x.key()));
        }
        assert(keys_of(a).to_multiset() =~= keys_of(b).to_multiset());
    } else {
        assert(keys_of(a) =~= keys_of(b));
    }
}

/// Reordering or repeating the methods of a condition, or changing their case, is no
/// change.
pub proof fn recased_methods_are_alike(a: Vec<String>, b: Vec<String>)
    requires
        forall|m: Seq<char>|
            matching::upper_methods(a@).contains(m) <==> #[trigger] matching::upper_methods(
                b@,
            ).contains(m),
    ensures
        MatchCondition::Method(a).key() == MatchCondition::Method(b).key(),
{
    assert forall|m: Seq<char>| #[trigger] method_set(a@).contains(m) <==> method_set(
        b@,
    ).contains(m) by {
        assert(matching::upper_methods(a@).contains(m) <==> matching::upper_methods(b@).contains(m));
    }
    assert(method_set(a@) =~= method_set(b@));
}

// ---------------------------------------------------------------------------
// Identifiers
// ---------------------------------------------------------------------------

/// The last position of an identifier; -1 if it does not occur.
pub open spec fn last_of(ids: Seq<Seq<char>>, id: Seq<char>) -> int
    decreases ids.len(),
{
    if ids.len() == 0 {
        -1
    } else if ids.last() == id {
        ids.len() - 1
    } else {
        last_of(ids.drop_last(), id)
    }
}

pub proof fn lemma_last_of(ids: Seq<Seq<char>>, id: Seq<char>)
    ensures
        -1 <= last_of(ids, id) < ids.len(),
        last_of(ids, id) >= 0 ==> ids[last_of(ids, id)] == id,
        forall|j: int| last_of(ids, id) < j < ids.len() ==> #[trigger] ids[j] != id,
    decreases ids.len(),
{
    if ids.len() > 0 && ids.last() != id {
        lemma_last_of(ids.drop_last(), id);
        assert forall|j: int| last_of(ids, id) < j < ids.len() implies #[trigger] ids[j] != id by {
            if j < ids.len() - 1 {
                assert(ids.drop_last()[j] == ids[j]);
            }
        }
    }
}

/// The last position of an identifier, if it occurs.
fn find_last(ids: &Vec<String>, id: &str) -> (r: Option<usize>)
    ensures
        (match r {
            Some(k) => k == last_of(ids.deep_view(), id@) && k < ids@.len(),
            None => last_of(ids.deep_view(), id@) == -1,
        }),
{
    let ghost all = ids.deep_view();
    let mut i: usize = ids.len();
    assert(all.take(i as int) =~= all);
    while i > 0
        invariant
            i <= ids@.len(),
            all == ids.deep_view(),
            all.len() == ids@.len(),
            last_of(all, id@) == last_of(all.take(i as int), id@),
        decreases i,
    {
        assert(all.take(i as int).last() == ids@[i - 1]@);
        assert(all.take(i as int).drop_last() =~= all.take(i - 1));
        if text::same(ids[i - 1].as_str(), id) {
            return Some(i - 1);
        }
        i = i - 1;
    }
    None
}

/// For each of the first `n` identifiers that does not occur among `others`, a
/// change.
pub open spec fn missing(
    before: Seq<Change>,
    ids: Seq<Seq<char>>,
    others: Seq<Seq<char>>,
    severity: Severity,
    category: Seq<char>,
    head: Seq<char>,
    tail: Seq<char>,
    n: int,
) -> Seq<Change>
    decreases n,
{
    if n <= 0 {
        before
    } else {
        let id = ids[n - 1];
        add_if(
            missing(before, ids, others, severity, category, head, tail, n - 1),
            last_of(others, id) < 0,
            Change { severity, category, entity: id, summary: head + id + tail },
        )
    }
}

fn note_missing(
    deltas: &mut Vec<Delta>,
    ids: &Vec<String>,
    others: &Vec<String>,
    severity: Severity,
    category: &'static str,
    head: &str,
    tail: &str,
)
    ensures
        final(deltas).deep_view() == missing(
            old(deltas).deep_view(),
            ids.deep_view(),
            others.deep_view(),
            severity,
            category@,
            head@,
            tail@,
            ids@.len() as int,
        ),
{
    let ghost before = deltas.deep_view();
    let ghost all = ids.deep_view();
    let mut i: usize = 0;
    while i < ids.len()
        invariant
            i <= ids@.len(),
            all == ids.deep_view(),
            all.len() == ids@.len(),
            deltas.deep_view() == missing(
                before,
                all,
                others.deep_view(),
                severity,
                category@,
                head@,
                tail@,
                i as int,
            ),
        decreases ids.len() - i,
    {
        assert(all[i as int] == ids@[i as int]@);
        proof {
            lemma_last_of(others.deep_view(), all[i as int]);
        }
        if find_last(others, ids[i].as_str()).is_none() {
            let summary = line3(head, ids[i].as_str(), tail);
            note(deltas, severity, category, ids[i].as_str(), summary);
        }
        i = i + 1;
    }
}

proof fn lemma_nothing_missing(
    before: Seq<Change>,
    ids: Seq<Seq<char>>,
    severity: Severity,
    category: Seq<char>,
    head: Seq<char>,
    tail: Seq<char>,
    n: int,
)
    requires
        n <= ids.len(),
    ensures
        missing(before, ids, ids, severity, category, head, tail, n) == before,
    decreases n,
{
    if n > 0 {
        lemma_last_of(ids, ids[n - 1]);
        lemma_nothing_missing(before, ids, severity, category, head, tail, n - 1);
    }
}

// ---------------------------------------------------------------------------
// Words
// ---------------------------------------------------------------------------

/// An optional name, quoted.
pub open spec fn option_word(o: Option<Seq<char>>) -> Seq<char> {
    match o {
        Some(s) => "'"@ + s + "'"@,
        None => "(none)"@,
    }
}

fn option_text(o: &Option<String>) -> (r: String)
    ensures
        r@ == option_word(o.deep_view()),
{
    match o {
        Some(s) => line3("'", s.as_str(), "'"),
        None => "(none)".to_owned(),
    }
}

/// An optional number of seconds.
pub open spec fn secs_word(s: Option<u64>) -> Seq<char> {
    match s {
        Some(v) => text::digits(v as nat) + "s"@,
        None => "(listener default)"@,
    }
}

fn secs_text(s: Option<u64>) -> (r: String)
    ensures
        r@ == secs_word(s),
{
    match s {
        Some(v) => {
            let mut out = text::decimal(v);
            out.append("s");
            out
        },
        None => "(listener default)".to_owned(),
    }
}

/// An optional failure mode.
pub open spec fn mode_word(m: Option<FailureMode>) -> Seq<char> {
    match m {
        Some(f) => config::failure_mode_name(f),
        None => "unset"@,
    }
}

fn mode_text(m: Option<FailureMode>) -> (r: &'static str)
    ensures
        r@ == mode_word(m),
{
    match m {
        Some(f) => f.name(),
        None => "unset",
    }
}

// ---------------------------------------------------------------------------
// Routes
// ---------------------------------------------------------------------------

/// Identifiers of routes.
pub open spec fn route_ids(routes: Seq<RouteConfig>) -> Seq<Seq<char>> {
    routes.map_values(|r: RouteConfig| r.id@)
}

fn ids_of_routes(routes: &Vec<RouteConfig>) -> (r: Vec<String>)
    ensures
        r.deep_view() == route_ids(routes@),
{
    let mut out: Vec<String> = Vec::new();
    let mut i: usize = 0;
    while i < routes.len()
        invariant
            i <= routes@.len(),
            out@.len() == i,
            forall|j: int| 0 <= j < i ==> (#[trigger] out@[j])@ == routes@[j].id@,
        decreases routes.len() - i,
    {
        out.push(routes[i].id.clone());
        i = i + 1;
    }
    assert(out.deep_view() =~= route_ids(routes@));
    out
}

/// The filter calls an agent.
pub open spec fn calls_agent(
    filters: Seq<(Seq<char>, FilterConfig)>,
    id: Seq<char>,
) -> bool {
    strmap::get(filters, id) matches Some(f) && f.filter is Agent
}

/// The agent filters among the first `n` of the old chain that the new one does
/// not run.
pub open spec fn dropped_agents(
    old_chain: Seq<Seq<char>>,
    new_chain: Seq<Seq<char>>,
    filters: Seq<(Seq<char>, FilterConfig)>,
    n: int,
) -> Seq<Seq<char>>
    decreases n,
{
    if n <= 0 {
        Seq::empty()
    } else {
        lint::push_if(
            dropped_agents(old_chain, new_chain, filters, n - 1),
            !new_chain.contains(old_chain[n - 1]) && calls_agent(filters, old_chain[n - 1]),
            old_chain[n - 1],
        )
    }
}

/// A filter chain before and after.
pub open spec fn chain_word(o: Seq<Seq<char>>, n: Seq<Seq<char>>) -> Seq<char> {
    "["@ + text::join(o, ", "@) + "] -> ["@ + text::join(n, ", "@) + "]"@
}

/// The change of a filter chain: high if an agent filter is dropped.
pub open spec fn chain_changes(
    before: Seq<Change>,
    id: Seq<char>,
    o: Seq<Seq<char>>,
    n: Seq<Seq<char>>,
    filters: Seq<(Seq<char>, FilterConfig)>,
) -> Seq<Change> {
    let gone = dropped_agents(o, n, filters, o.len() as int);
    if o == n {
        before
    } else if gone.len() == 0 {
        before.push(
            advisory(
                "route"@,
                id,
                "route '"@ + id + "' filter chain changed: "@ + chain_word(o, n),
            ),
        )
    } else {
        before.push(
            high(
                "route"@,
                id,
                "route '"@ + id + "' no longer runs agent filter(s) "@ + text::join(gone, ", "@)
                    + ": "@ + chain_word(o, n),
            ),
        )
    }
}

/// The change of reachability.
pub open spec fn reach_changes(
    before: Seq<Change>,
    id: Seq<char>,
    was_shadowed: bool,
    shadowed_by: Option<Seq<char>>,
) -> Seq<Change> {
    match shadowed_by {
        Some(h) => add_if(
            before,
            !was_shadowed,
            high(
                "route"@,
                id,
                "route '"@ + id + "' became unreachable (now shadowed by '"@ + h + "')"@,
            ),
        ),
        None => add_if(
            before,
            was_shadowed,
            advisory("route"@, id, "route '"@ + id + "' became reachable"@),
        ),
    }
}

/// The identifier of the route that shadows the one at `l`.
pub open spec fn shadower_id(routes: Seq<RouteConfig>, l: int) -> Option<Seq<char>> {
    match shadow::shadower(routes, l) {
        Some(h) => Some(routes[h].id@),
        None => None,
    }
}

/// The changes of a route that both configurations have.
pub open spec fn route_changes(
    before: Seq<Change>,
    old_config: Config,
    new_config: Config,
    oi: int,
    ni: int,
) -> Seq<Change> {
    let o = old_config.routes@[oi];
    let n = new_config.routes@[ni];
    let id = o.id@;
    let a = add_if(
        before,
        o.upstream.deep_view() != n.upstream.deep_view(),
        high(
            "route"@,
            id,
            "route '"@ + id + "' upstream "@ + option_word(o.upstream.deep_view()) + " -> "@
                + option_word(n.upstream.deep_view()),
        ),
    );
    let b = add_if(
        a,
        !same_multiset(o.matches@, n.matches@),
        advisory("route"@, id, "route '"@ + id + "' match conditions changed"@),
    );
    let c = add_if(
        b,
        o.priority != n.priority,
        advisory(
            "route"@,
            id,
            "route '"@ + id + "' priority "@ + text::int_text(o.priority.weight as int) + " -> "@
                + text::int_text(n.priority.weight as int),
        ),
    );
    let d = add_if(
        c,
        o.policies.failure_mode != n.policies.failure_mode,
        high(
            "route"@,
            id,
            "route '"@ + id + "' failure-mode "@ + config::failure_mode_name(
                o.policies.failure_mode,
            ) + " -> "@ + config::failure_mode_name(n.policies.failure_mode),
        ),
    );
    let e = add_if(
        d,
        o.policies.timeout_secs != n.policies.timeout_secs,
        advisory(
            "route"@,
            id,
            "route '"@ + id + "' timeout "@ + secs_word(o.policies.timeout_secs) + " -> "@
                + secs_word(n.policies.timeout_secs),
        ),
    );
    let f = chain_changes(
        e,
        id,
        o.filters.deep_view(),
        n.filters.deep_view(),
        old_config.filters.deep_view(),
    );
    reach_changes(
        f,
        id,
        shadow::shadower(old_config.routes@, oi) is Some,
        shadower_id(new_config.routes@, ni),
    )
}

/// The changes of the first `k` old routes that both configurations have. Of
/// routes that share an identifier the last one counts.
pub open spec fn common_routes(
    before: Seq<Change>,
    old_config: Config,
    new_config: Config,
    k: int,
) -> Seq<Change>
    decreases k,
{
    if k <= 0 {
        before
    } else {
        let rest = common_routes(before, old_config, new_config, k - 1);
        let id = old_config.routes@[k - 1].id@;
        let ni = last_of(route_ids(new_config.routes@), id);
        if last_of(route_ids(old_config.routes@), id) == k - 1 && ni >= 0 {
            route_changes(rest, old_config, new_config, k - 1, ni)
        } else {
            rest
        }
    }
}

/// All changes of routes.
pub open spec fn routes_diff(before: Seq<Change>, o: Config, n: Config) -> Seq<Change> {
    let oids = route_ids(o.routes@);
    let nids = route_ids(n.routes@);
    let a = missing(
        before,
        oids,
        nids,
        Severity::High,
        "route"@,
        "route '"@,
        "' removed"@,
        oids.len() as int,
    );
    let b = missing(
        a,
        nids,
        oids,
        Severity::Advisory,
        "route"@,
        "route '"@,
        "' added"@,
        nids.len() as int,
    );
    common_routes(b, o, n, o.routes@.len() as int)
}

fn diff_chain(
    deltas: &mut Vec<Delta>,
    id: &str,
    o: &Vec<String>,
    n: &Vec<String>,
    filters: &StringMap<FilterConfig>,
)
    ensures
        final(deltas).deep_view() == chain_changes(
            old(deltas).deep_view(),
            id@,
            o.deep_view(),
            n.deep_view(),
            filters.deep_view(),
        ),
{
    if text::same_list(o, n) {
        return;
    }
    let ghost old_chain = o.deep_view();
    let mut gone: Vec<String> = Vec::new();
    let mut i: usize = 0;
    assert(gone.deep_view() =~= Seq::<Seq<char>>::empty());
    while i < o.len()
        invariant
            i <= o@.len(),
            old_chain == o.deep_view(),
            old_chain.len() == o@.len(),
            gone.deep_view() == dropped_agents(
                old_chain,
                n.deep_view(),
                filters.deep_view(),
                i as int,
            ),
        decreases o.len() - i,
    {
        let f = &o[i];
        assert(old_chain[i as int] == f@);
        let agent = match filters.get(f.as_str()) {
            Some(fc) => fc.is_agent(),
            None => false,
        };
        if !text::has_text(n, f.as_str()) && agent {
            let ghost before = gone.deep_view();
            gone.push(f.clone());
            assert(gone.deep_view() =~= before.push(f@));
        }
        i = i + 1;
    }
    let os = text::join_with(o, ", ");
    let ns = text::join_with(n, ", ");
    let chain = line5("[", os.as_str(), "] -> [", ns.as_str(), "]");
    assert(gone.deep_view().len() == gone@.len());
    if gone.len() == 0 {
        let mut summary = line3("route '", id, "' filter chain changed: ");
        summary.append(chain.as_str());
        note(deltas, Severity::Advisory, "route", id, summary);
    } else {
        let names = text::join_with(&gone, ", ");
        let summary = line6(
            "route '",
            id,
            "' no longer runs agent filter(s) ",
            names.as_str(),
            ": ",
            chain.as_str(),
        );
        note(deltas, Severity::High, "route", id, summary);
    }
}

fn diff_reach(
    deltas: &mut Vec<Delta>,
    id: &str,
    was_shadowed: bool,
    shadowed_by: Option<&str>,
)
    ensures
        final(deltas).deep_view() == reach_changes(
            old(deltas).deep_view(),
            id@,
            was_shadowed,
            (match shadowed_by {
                Some(h) => Some(h@),
                None => None,
            }),
        ),
{
    match shadowed_by {
        Some(h) => {
            if !was_shadowed {
                let summary = line5(
                    "route '",
                    id,
                    "' became unreachable (now shadowed by '",
                    h,
                    "')",
                );
                note(deltas, Severity::High, "route", id, summary);
            }
        },
        None => {
            if was_shadowed {
                let summary = line3("route '", id, "' became reachable");
                note(deltas, Severity::Advisory, "route", id, summary);
            }
        },
    }
}

fn diff_route(deltas: &mut Vec<Delta>, old_config: &Config, new_config: &Config, oi: usize, ni: usize)
    requires
        oi < old_config.routes@.len(),
        ni < new_config.routes@.len(),
    ensures
        final(deltas).deep_view() == route_changes(
            old(deltas).deep_view(),
            *old_config,
            *new_config,
            oi as int,
            ni as int,
        ),
{
    let o = &old_config.routes[oi];
    let n = &new_config.routes[ni];
    let id = o.id.as_str();
    if !text::same_option(&o.upstream, &n.upstream) {
        let a = option_text(&o.upstream);
        let b = option_text(&n.upstream);
        let summary = line6("route '", id, "' upstream ", a.as_str(), " -> ", b.as_str());
        note(deltas, Severity::High, "route", id, summary);
    }
    if !alike(&o.matches, &n.matches) {
        let summary = line3("route '", id, "' match conditions changed");
        note(deltas, Severity::Advisory, "route", id, summary);
    }
    if o.priority != n.priority {
        let a = o.priority.text();
        let b = n.priority.text();
        let summary = line6("route '", id, "' priority ", a.as_str(), " -> ", b.as_str());
        note(deltas, Severity::Advisory, "route", id, summary);
    }
    if o.policies.failure_mode != n.policies.failure_mode {
        let summary = line6(
            "route '",
            id,
            "' failure-mode ",
            o.policies.failure_mode.name(),
            " -> ",
            n.policies.failure_mode.name(),
        );
        note(deltas, Severity::High, "route", id, summary);
    }
    if !same_secs(o.policies.timeout_secs, n.policies.timeout_secs) {
        let a = secs_text(o.policies.timeout_secs);
        let b = secs_text(n.policies.timeout_secs);
        let summary = line6("route '", id, "' timeout ", a.as_str(), " -> ", b.as_str());
        note(deltas, Severity::Advisory, "route", id, summary);
    }
    diff_chain(deltas, id, &o.filters, &n.filters, &old_config.filters);
    let was = shadow::shadowing_route(&old_config.routes, oi).is_some();
    match shadow::shadowing_route(&new_config.routes, ni) {
        Some(h) => {
            diff_reach(deltas, id, was, Some(new_config.routes[h].id.as_str()));
        },
        None => {
            diff_reach(deltas, id, was, None);
        },
    }
}

fn diff_routes(old_config: &Config, new_config: &Config, deltas: &mut Vec<Delta>)
    ensures
        final(deltas).deep_view() == routes_diff(old(deltas).deep_view(), *old_config, *new_config),
{
    let oids = ids_of_routes(&old_config.routes);
    let nids = ids_of_routes(&new_config.routes);
    note_missing(deltas, &oids, &nids, Severity::High, "route", "route '", "' removed");
    note_missing(deltas, &nids, &oids, Severity::Advisory, "route", "route '", "' added");
    let ghost before = deltas.deep_view();
    let mut i: usize = 0;
    while i < old_config.routes.len()
        invariant
            i <= old_config.routes@.len(),
            oids.deep_view() == route_ids(old_config.routes@),
            nids.deep_view() == route_ids(new_config.routes@),
            deltas.deep_view() == common_routes(before, *old_config, *new_config, i as int),
        decreases old_config.routes.len() - i,
    {
        let id = old_config.routes[i].id.as_str();
        proof {
            lemma_last_of(route_ids(old_config.routes@), id@);
            lemma_last_of(route_ids(new_config.routes@), id@);
        }
        if let Some(k) = find_last(&oids, id) {
            if k == i {
                if let Some(ni) = find_last(&nids, id) {
                    diff_route(deltas, old_config, new_config, i, ni);
                }
            }
        }
        i = i + 1;
    }
}

// ---------------------------------------------------------------------------
// Upstreams
// ---------------------------------------------------------------------------

/// `added` or `removed`.
pub open spec fn presence_word(now: bool) -> Seq<char> {
    if now {
        "added"@
    } else {
        "removed"@
    }
}

/// The changes of an upstream that both configurations have.
pub open spec fn upstream_changes(
    before: Seq<Change>,
    id: Seq<char>,
    o: UpstreamConfig,
    n: UpstreamConfig,
) -> Seq<Change> {
    let a = add_if(
        before,
        !same_multiset(o.targets@, n.targets@),
        advisory(
            "upstream"@,
            id,
            "upstream '"@ + id + "' target set changed ("@ + text::digits(o.targets@.len())
                + " -> "@ + text::digits(n.targets@.len()) + " target(s))"@,
        ),
    );
    let b = add_if(
        a,
        o.load_balancing != n.load_balancing,
        advisory(
            "upstream"@,
            id,
            "upstream '"@ + id + "' load-balancing "@ + config::balancing_name(o.load_balancing)
                + " -> "@ + config::balancing_name(n.load_balancing),
        ),
    );
    add_if(
        b,
        o.health_check is Some != n.health_check is Some,
        advisory(
            "upstream"@,
            id,
            "upstream '"@ + id + "' health check "@ + presence_word(n.health_check is Some),
        ),
    )
}

/// The changes of the first `k` old upstreams.
pub open spec fn old_upstreams(
    before: Seq<Change>,
    o: Seq<(Seq<char>, UpstreamConfig)>,
    n: Seq<(Seq<char>, UpstreamConfig)>,
    k: int,
) -> Seq<Change>
    decreases k,
{
    if k <= 0 {
        before
    } else {
        let rest = old_upstreams(before, o, n, k - 1);
        let id = o[k - 1].0;
        match strmap::get(n, id) {
            Some(u) => upstream_changes(rest, id, o[k - 1].1, u),
            None => rest.push(high("upstream"@, id, "upstream '"@ + id + "' removed"@)),
        }
    }
}

/// A change for each of the first `k` new entries that is not in the old map.
pub open spec fn new_entries<V>(
    before: Seq<Change>,
    o: Seq<(Seq<char>, V)>,
    n: Seq<(Seq<char>, V)>,
    category: Seq<char>,
    k: int,
) -> Seq<Change>
    decreases k,
{
    if k <= 0 {
        before
    } else {
        let id = n[k - 1].0;
        add_if(
            new_entries(before, o, n, category, k - 1),
            strmap::get(o, id) is None,
            advisory(category, id, category + " '"@ + id + "' added"@),
        )
    }
}

/// All changes of upstreams, in name order.
pub open spec fn upstreams_diff(before: Seq<Change>, o: Config, n: Config) -> Seq<Change> {
    let om = o.upstreams.deep_view();
    let nm = n.upstreams.deep_view();
    new_entries(
        old_upstreams(before, om, nm, om.len() as int),
        om,
        nm,
        "upstream"@,
        nm.len() as int,
    )
}

fn diff_upstream(deltas: &mut Vec<Delta>, id: &str, o: &UpstreamConfig, n: &UpstreamConfig)
    ensures
        final(deltas).deep_view() == upstream_changes(old(deltas).deep_view(), id@, *o, *n),
{
    if !alike(&o.targets, &n.targets) {
        let a = text::decimal(o.targets.len() as u64);
        let b = text::decimal(n.targets.len() as u64);
        let mut summary = line6(
            "upstream '",
            id,
            "' target set changed (",
            a.as_str(),
            " -> ",
            b.as_str(),
        );
        summary.append(" target(s))");
        note(deltas, Severity::Advisory, "upstream", id, summary);
    }
    if o.load_balancing != n.load_balancing {
        let summary = line6(
            "upstream '",
            id,
            "' load-balancing ",
            o.load_balancing.name(),
            " -> ",
            n.load_balancing.name(),
        );
        note(deltas, Severity::Advisory, "upstream", id, summary);
    }
    if o.health_check.is_some() != n.health_check.is_some() {
        let word = if n.health_check.is_some() {
            "added"
        } else {
            "removed"
        };
        let mut summary = line3("upstream '", id, "' health check ");
        summary.append(word);
        note(deltas, Severity::Advisory, "upstream", id, summary);
    }
}

fn note_new<V: DeepView>(
    deltas: &mut Vec<Delta>,
    o: &StringMap<V>,
    n: &StringMap<V>,
    category: &'static str,
)
    ensures
        final(deltas).deep_view() == new_entries(
            old(deltas).deep_view(),
            o.deep_view(),
            n.deep_view(),
            category@,
            n.deep_view().len() as int,
        ),
{
    let ghost before = deltas.deep_view();
    let len = n.len();
    let mut i: usize = 0;
    while i < len
        invariant
            i <= len,
            len == n.deep_view().len(),
            deltas.deep_view() == new_entries(
                before,
                o.deep_view(),
                n.deep_view(),
                category@,
                i as int,
            ),
        decreases len - i,
    {
        let id = n.key_at(i);
        if !o.contains_key(id.as_str()) {
            let mut summary = category.to_owned();
            summary.append(" '");
            summary.append(id.as_str());
            summary.append("' added");
            note(deltas, Severity::Advisory, category, id.as_str(), summary);
        }
        i = i + 1;
    }
}

fn diff_upstreams(old_config: &Config, new_config: &Config, deltas: &mut Vec<Delta>)
    ensures
        final(deltas).deep_view() == upstreams_diff(
            old(deltas).deep_view(),
            *old_config,
            *new_config,
        ),
{
    let ghost before = deltas.deep_view();
    let o = &old_config.upstreams;
    let n = &new_config.upstreams;
    let len = o.len();
    let mut i: usize = 0;
    while i < len
        invariant
            i <= len,
            len == o.deep_view().len(),
            deltas.deep_view() == old_upstreams(before, o.deep_view(), n.deep_view(), i as int),
        decreases len - i,
    {
        let id = o.key_at(i);
        match n.get(id.as_str()) {
            Some(u) => {
                diff_upstream(deltas, id.as_str(), o.value_at(i), u);
            },
            None => {
                let summary = line3("upstream '", id.as_str(), "' removed");
                note(deltas, Severity::High, "upstream", id.as_str(), summary);
            },
        }
        i = i + 1;
    }
    note_new(deltas, o, n, "upstream");
}

// ---------------------------------------------------------------------------
// Listeners
// ---------------------------------------------------------------------------

/// Identifiers of listeners.
pub open spec fn listener_ids(listeners: Seq<ListenerConfig>) -> Seq<Seq<char>> {
    listeners.map_values(|l: ListenerConfig| l.id@)
}

fn ids_of_listeners(listeners: &Vec<ListenerConfig>) -> (r: Vec<String>)
    ensures
        r.deep_view() == listener_ids(listeners@),
{
    let mut out: Vec<String> = Vec::new();
    let mut i: usize = 0;
    while i < listeners.len()
        invariant
            i <= listeners@.len(),
            out@.len() == i,
            forall|j: int| 0 <= j < i ==> (#[trigger] out@[j])@ == listeners@[j].id@,
        decreases listeners.len() - i,
    {
        out.push(listeners[i].id.clone());
        i = i + 1;
    }
    assert(out.deep_view() =~= listener_ids(listeners@));
    out
}

/// A TLS version as a number, for comparison.
pub open spec fn tls_rank(v: TlsVersion) -> int {
    match v {
        TlsVersion::Tls12 => 12,
        TlsVersion::Tls13 => 13,
    }
}

fn rank_of(v: TlsVersion) -> (r: u8)
    ensures
        r == tls_rank(v),
{
    match v {
        TlsVersion::Tls12 => 12,
        TlsVersion::Tls13 => 13,
    }
}

/// The changes of TLS settings.
pub open spec fn tls_changes(
    before: Seq<Change>,
    id: Seq<char>,
    o: TlsConfig,
    n: TlsConfig,
) -> Seq<Change> {
    let versions = server::tls_name(o.min_version) + " -> "@ + server::tls_name(n.min_version);
    let a = add_if(
        before,
        tls_rank(n.min_version) < tls_rank(o.min_version),
        high("listener"@, id, "listener '"@ + id + "' TLS minimum lowered "@ + versions),
    );
    let b = add_if(
        a,
        tls_rank(n.min_version) > tls_rank(o.min_version),
        advisory("listener"@, id, "listener '"@ + id + "' TLS minimum raised "@ + versions),
    );
    let c = add_if(
        b,
        o.client_auth && !n.client_auth,
        high("listener"@, id, "listener '"@ + id + "' client-auth disabled"@),
    );
    add_if(
        c,
        !o.client_auth && n.client_auth,
        advisory("listener"@, id, "listener '"@ + id + "' client-auth enabled"@),
    )
}

/// The changes of a listener that both configurations have.
pub open spec fn listener_changes(
    before: Seq<Change>,
    o: ListenerConfig,
    n: ListenerConfig,
) -> Seq<Change> {
    let id = o.id@;
    let a = match (o.tls, n.tls) {
        (Some(_), None) => before.push(
            high("listener"@, id, "listener '"@ + id + "' TLS removed"@),
        ),
        (None, Some(_)) => before.push(
            advisory("listener"@, id, "listener '"@ + id + "' TLS added"@),
        ),
        (Some(ot), Some(nt)) => tls_changes(before, id, ot, nt),
        (None, None) => before,
    };
    let b = add_if(
        a,
        o.address@ != n.address@,
        advisory(
            "listener"@,
            id,
            "listener '"@ + id + "' address "@ + o.address@ + " -> "@ + n.address@,
        ),
    );
    add_if(
        b,
        o.default_route.deep_view() != n.default_route.deep_view(),
        advisory(
            "listener"@,
            id,
            "listener '"@ + id + "' default-route "@ + option_word(o.default_route.deep_view())
                + " -> "@ + option_word(n.default_route.deep_view()),
        ),
    )
}

/// The changes of the first `k` old listeners that both configurations have.
pub open spec fn common_listeners(
    before: Seq<Change>,
    o: Seq<ListenerConfig>,
    n: Seq<ListenerConfig>,
    k: int,
) -> Seq<Change>
    decreases k,
{
    if k <= 0 {
        before
    } else {
        let rest = common_listeners(before, o, n, k - 1);
        let id = o[k - 1].id@;
        let ni = last_of(listener_ids(n), id);
        if last_of(listener_ids(o), id) == k - 1 && ni >= 0 {
            listener_changes(rest, o[k - 1], n[ni])
        } else {
            rest
        }
    }
}

/// All changes of listeners.
pub open spec fn listeners_diff(before: Seq<Change>, o: Config, n: Config) -> Seq<Change> {
    let oids = listener_ids(o.listeners@);
    let nids = listener_ids(n.listeners@);
    let a = missing(
        before,
        oids,
        nids,
        Severity::High,
        "listener"@,
        "listener '"@,
        "' removed"@,
        oids.len() as int,
    );
    let b = missing(
        a,
        nids,
        oids,
        Severity::Advisory,
        "listener"@,
        "listener '"@,
        "' added"@,
        nids.len() as int,
    );
    common_listeners(b, o.listeners@, n.listeners@, o.listeners@.len() as int)
}

fn diff_tls(deltas: &mut Vec<Delta>, id: &str, o: &TlsConfig, n: &TlsConfig)
    ensures
        final(deltas).deep_view() == tls_changes(old(deltas).deep_view(), id@, *o, *n),
{
    let versions = line3(o.min_version.name(), " -> ", n.min_version.name());
    if rank_of(n.min_version) < rank_of(o.min_version) {
        let mut summary = line3("listener '", id, "' TLS minimum lowered ");
        summary.append(versions.as_str());
        note(deltas, Severity::High, "listener", id, summary);
    } else if rank_of(n.min_version) > rank_of(o.min_version) {
        let mut summary = line3("listener '", id, "' TLS minimum raised ");
        summary.append(versions.as_str());
        note(deltas, Severity::Advisory, "listener", id, summary);
    }
    if o.client_auth && !n.client_auth {
        let summary = line3("listener '", id, "' client-auth disabled");
        note(deltas, Severity::High, "listener", id, summary);
    } else if !o.client_auth && n.client_auth {
        let summary = line3("listener '", id, "' client-auth enabled");
        note(deltas, Severity::Advisory, "listener", id, summary);
    }
}

fn diff_listener(deltas: &mut Vec<Delta>, o: &ListenerConfig, n: &ListenerConfig)
    ensures
        final(deltas).deep_view() == listener_changes(old(deltas).deep_view(), *o, *n),
{
    let id = o.id.as_str();
    match (&o.tls, &n.tls) {
        (Some(_), None) => {
            let summary = line3("listener '", id, "' TLS removed");
            note(deltas, Severity::High, "listener", id, summary);
        },
        (None, Some(_)) => {
            let summary = line3("listener '", id, "' TLS added");
            note(deltas, Severity::Advisory, "listener", id, summary);
        },
        (Some(ot), Some(nt)) => {
            diff_tls(deltas, id, ot, nt);
        },
        (None, None) => {},
    }
    if !text::same(o.address.as_str(), n.address.as_str()) {
        let summary = line6(
            "listener '",
            id,
            "' address ",
            o.address.as_str(),
            " -> ",
            n.address.as_str(),
        );
        note(deltas, Severity::Advisory, "listener", id, summary);
    }
    if !text::same_option(&o.default_route, &n.default_route) {
        let a = option_text(&o.default_route);
        let b = option_text(&n.default_route);
        let summary = line6("listener '", id, "' default-route ", a.as_str(), " -> ", b.as_str());
        note(deltas, Severity::Advisory, "listener", id, summary);
    }
}

fn diff_listeners(old_config: &Config, new_config: &Config, deltas: &mut Vec<Delta>)
    ensures
        final(deltas).deep_view() == listeners_diff(
            old(deltas).deep_view(),
            *old_config,
            *new_config,
        ),
{
    let o = &old_config.listeners;
    let n = &new_config.listeners;
    let oids = ids_of_listeners(o);
    let nids = ids_of_listeners(n);
    note_missing(deltas, &oids, &nids, Severity::High, "listener", "listener '", "' removed");
    note_missing(deltas, &nids, &oids, Severity::Advisory, "listener", "listener '", "' added");
    let ghost before = deltas.deep_view();
    let mut i: usize = 0;
    while i < o.len()
        invariant
            i <= o@.len(),
            oids.deep_view() == listener_ids(o@),
            nids.deep_view() == listener_ids(n@),
            deltas.deep_view() == common_listeners(before, o@, n@, i as int),
        decreases o.len() - i,
    {
        let id = o[i].id.as_str();
        proof {
            lemma_last_of(listener_ids(o@), id@);
            lemma_last_of(listener_ids(n@), id@);
        }
        if let Some(k) = find_last(&oids, id) {
            if k == i {
                if let Some(ni) = find_last(&nids, id) {
                    diff_listener(deltas, &o[i], &n[ni]);
                }
            }
        }
        i = i + 1;
    }
}

// ---------------------------------------------------------------------------
// Agents
// ---------------------------------------------------------------------------

/// Identifiers of agents.
pub open spec fn agent_ids(agents: Seq<AgentConfig>) -> Seq<Seq<char>> {
    agents.map_values(|a: AgentConfig| a.id@)
}

fn ids_of_agents(agents: &Vec<AgentConfig>) -> (r: Vec<String>)
    ensures
        r.deep_view() == agent_ids(agents@),
{
    let mut out: Vec<String> = Vec::new();
    let mut i: usize = 0;
    while i < agents.len()
        invariant
            i <= agents@.len(),
            out@.len() == i,
            forall|j: int| 0 <= j < i ==> (#[trigger] out@[j])@ == agents@[j].id@,
        decreases agents.len() - i,
    {
        out.push(agents[i].id.clone());
        i = i + 1;
    }
    assert(out.deep_view() =~= agent_ids(agents@));
    out
}

/// The changes of an agent that both configurations have.
pub open spec fn agent_changes(before: Seq<Change>, o: AgentConfig, n: AgentConfig) -> Seq<Change> {
    let id = o.id@;
    let a = add_if(
        before,
        o.failure_mode != n.failure_mode,
        high(
            "agent"@,
            id,
            "agent '"@ + id + "' failure-mode "@ + config::failure_mode_name(o.failure_mode)
                + " -> "@ + config::failure_mode_name(n.failure_mode),
        ),
    );
    let b = add_if(
        a,
        o.agent_type@ != n.agent_type@,
        advisory("agent"@, id, "agent '"@ + id + "' type changed"@),
    );
    let c = add_if(
        b,
        o.transport.kind@ != n.transport.kind@ || o.transport.endpoint@ != n.transport.endpoint@,
        advisory("agent"@, id, "agent '"@ + id + "' transport/endpoint changed"@),
    );
    add_if(
        c,
        o.timeout_ms != n.timeout_ms,
        advisory(
            "agent"@,
            id,
            "agent '"@ + id + "' timeout "@ + text::digits(o.timeout_ms as nat) + " -> "@
                + text::digits(n.timeout_ms as nat) + " ms"@,
        ),
    )
}

/// The changes of the first `k` old agents that both configurations have.
pub open spec fn common_agents(
    before: Seq<Change>,
    o: Seq<AgentConfig>,
    n: Seq<AgentConfig>,
    k: int,
) -> Seq<Change>
    decreases k,
{
    if k <= 0 {
        before
    } else {
        let rest = common_agents(before, o, n, k - 1);
        let id = o[k - 1].id@;
        let ni = last_of(agent_ids(n), id);
        if last_of(agent_ids(o), id) == k - 1 && ni >= 0 {
            agent_changes(rest, o[k - 1], n[ni])
        } else {
            rest
        }
    }
}

/// All changes of agents.
pub open spec fn agents_diff(before: Seq<Change>, o: Config, n: Config) -> Seq<Change> {
    let oids = agent_ids(o.agents@);
    let nids = agent_ids(n.agents@);
    let a = missing(
        before,
        oids,
        nids,
        Severity::High,
        "agent"@,
        "agent '"@,
        "' removed (routes referencing it will fail)"@,
        oids.len() as int,
    );
    let b = missing(
        a,
        nids,
        oids,
        Severity::Advisory,
        "agent"@,
        "agent '"@,
        "' added"@,
        nids.len() as int,
    );
    common_agents(b, o.agents@, n.agents@, o.agents@.len() as int)
}

fn diff_agent(deltas: &mut Vec<Delta>, o: &AgentConfig, n: &AgentConfig)
    ensures
        final(deltas).deep_view() == agent_changes(old(deltas).deep_view(), *o, *n),
{
    let id = o.id.as_str();
    if o.failure_mode != n.failure_mode {
        let summary = line6(
            "agent '",
            id,
            "' failure-mode ",
            o.failure_mode.name(),
            " -> ",
            n.failure_mode.name(),
        );
        note(deltas, Severity::High, "agent", id, summary);
    }
    if !text::same(o.agent_type.as_str(), n.agent_type.as_str()) {
        let summary = line3("agent '", id, "' type changed");
        note(deltas, Severity::Advisory, "agent", id, summary);
    }
    if !text::same(o.transport.kind.as_str(), n.transport.kind.as_str()) || !text::same(
        o.transport.endpoint.as_str(),
        n.transport.endpoint.as_str(),
    ) {
        let summary = line3("agent '", id, "' transport/endpoint changed");
        note(deltas, Severity::Advisory, "agent", id, summary);
    }
    if o.timeout_ms != n.timeout_ms {
        let a = text::decimal(o.timeout_ms);
        let b = text::decimal(n.timeout_ms);
        let mut summary = line6("agent '", id, "' timeout ", a.as_str(), " -> ", b.as_str());
        summary.append(" ms");
        note(deltas, Severity::Advisory, "agent", id, summary);
    }
}

fn diff_agents(old_config: &Config, new_config: &Config, deltas: &mut Vec<Delta>)
    ensures
        final(deltas).deep_view() == agents_diff(old(deltas).deep_view(), *old_config, *new_config),
{
    let o = &old_config.agents;
    let n = &new_config.agents;
    let oids = ids_of_agents(o);
    let nids = ids_of_agents(n);
    note_missing(
        deltas,
        &oids,
        &nids,
        Severity::High,
        "agent",
        "agent '",
        "' removed (routes referencing it will fail)",
    );
    note_missing(deltas, &nids, &oids, Severity::Advisory, "agent", "agent '", "' added");
    let ghost before = deltas.deep_view();
    let mut i: usize = 0;
    while i < o.len()
        invariant
            i <= o@.len(),
            oids.deep_view() == agent_ids(o@),
            nids.deep_view() == agent_ids(n@),
            deltas.deep_view() == common_agents(before, o@, n@, i as int),
        decreases o.len() - i,
    {
        let id = o[i].id.as_str();
        proof {
            lemma_last_of(agent_ids(o@), id@);
            lemma_last_of(agent_ids(n@), id@);
        }
        if let Some(k) = find_last(&oids, id) {
            if k == i {
                if let Some(ni) = find_last(&nids, id) {
                    diff_agent(deltas, &o[i], &n[ni]);
                }
            }
        }
        i = i + 1;
    }
}

// ---------------------------------------------------------------------------
// Filters
// ---------------------------------------------------------------------------

/// The changes of a filter that both configurations have.
pub open spec fn filter_changes(
    before: Seq<Change>,
    id: Seq<char>,
    o: FilterConfig,
    n: FilterConfig,
) -> Seq<Change> {
    if config::filter_kind(o) != config::filter_kind(n) {
        before.push(
            high(
                "filter"@,
                id,
                "filter '"@ + id + "' type "@ + config::filter_kind(o) + " -> "@
                    + config::filter_kind(n),
            ),
        )
    } else {
        match (o.filter, n.filter) {
            (Filter::Agent(oa), Filter::Agent(na)) => {
                let a = add_if(
                    before,
                    oa.failure_mode != na.failure_mode,
                    high(
                        "filter"@,
                        id,
                        "filter '"@ + id + "' failure-mode "@ + mode_word(oa.failure_mode)
                            + " -> "@ + mode_word(na.failure_mode),
                    ),
                );
                add_if(
                    a,
                    oa.agent@ != na.agent@,
                    advisory(
                        "filter"@,
                        id,
                        "filter '"@ + id + "' agent reference '"@ + oa.agent@ + "' -> '"@
                            + na.agent@ + "'"@,
                    ),
                )
            },
            _ => before,
        }
    }
}

/// The changes of the first `k` old filters.
pub open spec fn old_filters(
    before: Seq<Change>,
    o: Seq<(Seq<char>, FilterConfig)>,
    n: Seq<(Seq<char>, FilterConfig)>,
    k: int,
) -> Seq<Change>
    decreases k,
{
    if k <= 0 {
        before
    } else {
        let rest = old_filters(before, o, n, k - 1);
        let id = o[k - 1].0;
        match strmap::get(n, id) {
            Some(f) => filter_changes(rest, id, o[k - 1].1, f),
            None => rest.push(advisory("filter"@, id, "filter '"@ + id + "' removed"@)),
        }
    }
}

/// All changes of filters, in identifier order.
pub open spec fn filters_diff(before: Seq<Change>, o: Config, n: Config) -> Seq<Change> {
    let om = o.filters.deep_view();
    let nm = n.filters.deep_view();
    new_entries(
        old_filters(before, om, nm, om.len() as int),
        om,
        nm,
        "filter"@,
        nm.len() as int,
    )
}

fn diff_filter(deltas: &mut Vec<Delta>, id: &str, o: &FilterConfig, n: &FilterConfig)
    ensures
        final(deltas).deep_view() == filter_changes(old(deltas).deep_view(), id@, *o, *n),
{
    if !text::same(o.filter_type(), n.filter_type()) {
        let summary = line6("filter '", id, "' type ", o.filter_type(), " -> ", n.filter_type());
        note(deltas, Severity::High, "filter", id, summary);
        return;
    }
    match (&o.filter, &n.filter) {
        (Filter::Agent(oa), Filter::Agent(na)) => {
            if !same_mode(oa.failure_mode, na.failure_mode) {
                let summary = line6(
                    "filter '",
                    id,
                    "' failure-mode ",
                    mode_text(oa.failure_mode),
                    " -> ",
                    mode_text(na.failure_mode),
                );
                note(deltas, Severity::High, "filter", id, summary);
            }
            if !text::same(oa.agent.as_str(), na.agent.as_str()) {
                let mut summary = line6(
                    "filter '",
                    id,
                    "' agent reference '",
                    oa.agent.as_str(),
                    "' -> '",
                    na.agent.as_str(),
                );
                summary.append("'");
                note(deltas, Severity::Advisory, "filter", id, summary);
            }
        },
        _ => {},
    }
}

fn diff_filters(old_config: &Config, new_config: &Config, deltas: &mut Vec<Delta>)
    ensures
        final(deltas).deep_view() == filters_diff(
            old(deltas).deep_view(),
            *old_config,
            *new_config,
        ),
{
    let ghost before = deltas.deep_view();
    let o = &old_config.filters;
    let n = &new_config.filters;
    let len = o.len();
    let mut i: usize = 0;
    while i < len
        invariant
            i <= len,
            len == o.deep_view().len(),
            deltas.deep_view() == old_filters(before, o.deep_view(), n.deep_view(), i as int),
        decreases len - i,
    {
        let id = o.key_at(i);
        match n.get(id.as_str()) {
            Some(f) => {
                diff_filter(deltas, id.as_str(), o.value_at(i), f);
            },
            None => {
                let summary = line3("filter '", id.as_str(), "' removed");
                note(deltas, Severity::Advisory, "filter", id.as_str(), summary);
            },
        }
        i = i + 1;
    }
    note_new(deltas, o, n, "filter");
}

// ---------------------------------------------------------------------------
// The whole difference
// ---------------------------------------------------------------------------

/// All changes in the order in which they are found.
pub open spec fn changes(o: Config, n: Config) -> Seq<Change> {
    filters_diff(
        agents_diff(
            listeners_diff(upstreams_diff(routes_diff(Seq::empty(), o, n), o, n), o, n),
            o,
            n,
        ),
        o,
        n,
    )
}

/// The changes of one severity, in order.
pub open spec fn of_severity(all: Seq<Change>, s: Severity) -> Seq<Change> {
    all.filter(|c: Change| c.severity == s)
}

/// High changes first; otherwise the order stays.
pub open spec fn high_first(all: Seq<Change>) -> Seq<Change> {
    of_severity(all, Severity::High) + of_severity(all, Severity::Advisory)
}

/// The difference between two configurations.
#[derive(Debug)]
pub struct ConfigDiff {
    /// All changes, those of high severity first.
    pub deltas: Vec<Delta>,
}

impl View for ConfigDiff {
    type V = Seq<Change>;

    open spec fn view(&self) -> Seq<Change> {
        self.deltas.deep_view()
    }
}

/// Some change should stop a deployment.
pub open spec fn any_high(all: Seq<Change>) -> bool {
    exists|i: int| 0 <= i < all.len() && (#[trigger] all[i]).severity == Severity::High
}

/// The number of changes of high severity.
pub open spec fn count_high(all: Seq<Change>) -> nat
    decreases all.len(),
{
    if all.len() == 0 {
        0
    } else {
        count_high(all.drop_last()) + (if all.last().severity == Severity::High {
            1nat
        } else {
            0nat
        })
    }
}

pub proof fn lemma_count_high(all: Seq<Change>)
    ensures
        count_high(all) <= all.len(),
    decreases all.len(),
{
    if all.len() > 0 {
        lemma_count_high(all.drop_last());
    }
}

/// A change as a line of the report.
pub open spec fn change_line(c: Change) -> Seq<char> {
    "  ["@ + (if c.severity == Severity::High {
        "HIGH"@
    } else {
        "adv "@
    }) + "] "@ + c.category + ": "@ + c.summary + "\n"@
}

/// The lines of the first changes.
pub open spec fn change_lines(all: Seq<Change>) -> Seq<char>
    decreases all.len(),
{
    if all.len() == 0 {
        Seq::empty()
    } else {
        change_lines(all.drop_last()) + change_line(all.last())
    }
}

/// The report.
pub open spec fn report(all: Seq<Change>) -> Seq<char> {
    if all.len() == 0 {
        "No behavioral differences.\n"@
    } else {
        text::digits(all.len()) + " behavioral change(s): "@ + text::digits(count_high(all))
            + " high, "@ + text::digits((all.len() - count_high(all)) as nat) + " advisory.\n\n"@
            + change_lines(all)
    }
}

impl ConfigDiff {
    /// True if some change should stop a deployment.
    pub fn has_high_severity(&self) -> (r: bool)
        ensures
            r == any_high(self@),
    {
        let mut i: usize = 0;
        while i < self.deltas.len()
            invariant
                i <= self.deltas@.len(),
                forall|k: int| 0 <= k < i ==> (#[trigger] self@[k]).severity != Severity::High,
            decreases self.deltas.len() - i,
        {
            if self.deltas[i].severity == Severity::High {
                assert(self@[i as int].severity == Severity::High);
                return true;
            }
            i = i + 1;
        }
        false
    }

    /// The report for operators.
    pub fn render_text(&self) -> (r: String)
        ensures
            r@ == report(self@),
    {
        if self.deltas.len() == 0 {
            return "No behavioral differences.\n".to_owned();
        }
        let ghost all = self@;
        let mut high: usize = 0;
        let mut i: usize = 0;
        while i < self.deltas.len()
            invariant
                i <= self.deltas@.len(),
                all == self@,
                all.len() == self.deltas@.len(),
                high == count_high(all.take(i as int)),
                high <= i,
            decreases self.deltas.len() - i,
        {
            assert(all.take(i + 1).drop_last() =~= all.take(i as int));
            assert(all.take(i + 1).last() == self.deltas@[i as int].deep_view());
            if self.deltas[i].severity == Severity::High {
                high = high + 1;
            }
            i = i + 1;
        }
        assert(all.take(i as int) =~= all);
        let n = self.deltas.len();
        let mut out = text::decimal(n as u64);
        out.append(" behavioral change(s): ");
        let h = text::decimal(high as u64);
        out.append(h.as_str());
        out.append(" high, ");
        let a = text::decimal((n - high) as u64);
        out.append(a.as_str());
        out.append(" advisory.\n\n");
        let ghost head = out@;
        let mut j: usize = 0;
        assert(out@ =~= head + change_lines(all.take(0)));
        while j < self.deltas.len()
            invariant
                j <= self.deltas@.len(),
                all == self@,
                all.len() == self.deltas@.len(),
                out@ == head + change_lines(all.take(j as int)),
            decreases self.deltas.len() - j,
        {
            let d = &self.deltas[j];
            let ghost before = out@;
            assert(all.take(j + 1).drop_last() =~= all.take(j as int));
            assert(all.take(j + 1).last() == d.deep_view());
            out.append("  [");
            out.append(
                if d.severity == Severity::High {
                    "HIGH"
                } else {
                    "adv "
                },
            );
            out.append("] ");
            out.append(d.category);
            out.append(": ");
            out.append(d.summary.as_str());
            out.append("\n");
            assert(out@ =~= before + change_line(d.deep_view()));
            assert(out@ =~= head + change_lines(all.take(j + 1)));
            j = j + 1;
        }
        assert(all.take(j as int) =~= all);
        out
    }
}

/// The difference from one configuration to another.
pub fn diff(old_config: &Config, new_config: &Config) -> (r: ConfigDiff)
    ensures
        r@ == high_first(changes(*old_config, *new_config)),
{
    let mut deltas: Vec<Delta> = Vec::new();
    assert(deltas.deep_view() =~= Seq::<Change>::empty());
    diff_routes(old_config, new_config, &mut deltas);
    diff_upstreams(old_config, new_config, &mut deltas);
    diff_listeners(old_config, new_config, &mut deltas);
    diff_agents(old_config, new_config, &mut deltas);
    diff_filters(old_config, new_config, &mut deltas);
    order(deltas)
}

/// High changes first; otherwise the order stays.
fn order(deltas: Vec<Delta>) -> (r: ConfigDiff)
    ensures
        r@ == high_first(deltas.deep_view()),
{
    let ghost all = deltas.deep_view();
    let ghost items = deltas@;
    let mut high: Vec<Delta> = Vec::new();
    let mut rest: Vec<Delta> = Vec::new();
    proof {
        reveal(Seq::filter);
        assert(high.deep_view() =~= of_severity(all.take(0), Severity::High));
        assert(rest.deep_view() =~= of_severity(all.take(0), Severity::Advisory));
    }
    for d in it: deltas
        invariant
            it.seq() == items,
            all.len() == items.len(),
            forall|k: int| 0 <= k < items.len() ==> (#[trigger] items[k]).deep_view() == all[k],
            high.deep_view() == of_severity(all.take(it.index() as int), Severity::High),
            rest.deep_view() == of_severity(all.take(it.index() as int), Severity::Advisory),
    {
        let ghost n = it.index() as int;
        let ghost h = high.deep_view();
        let ghost a = rest.deep_view();
        let ghost c = d.deep_view();
        proof {
            reveal(Seq::filter);
            assert(all.take(n + 1).drop_last() =~= all.take(n));
            assert(items[n].deep_view() == all[n]);
            assert(all.take(n + 1).last() == c);
        }
        if d.severity == Severity::High {
            high.push(d);
            assert(high.deep_view() =~= h.push(c));
        } else {
            rest.push(d);
            assert(rest.deep_view() =~= a.push(c));
        }
    }
    assert(all.take(all.len() as int) =~= all);
    let ghost h = high.deep_view();
    let ghost a = rest.deep_view();
    high.append(&mut rest);
    assert(high.deep_view() =~= h + a);
    ConfigDiff { deltas: high }
}

// ---------------------------------------------------------------------------
// Laws
// ---------------------------------------------------------------------------

/// No advisory change comes before a high one, and ordering neither adds nor
/// drops a change.
pub proof fn high_changes_come_first(all: Seq<Change>)
    ensures
        forall|i: int, j: int|
            0 <= i < j < high_first(all).len() && (#[trigger] high_first(all)[j]).severity
                == Severity::High ==> (#[trigger] high_first(all)[i]).severity == Severity::High,
        high_first(all).to_multiset() == all.to_multiset(),
        any_high(high_first(all)) == any_high(all),
    decreases all.len(),
{
    let h = of_severity(all, Severity::High);
    let a = of_severity(all, Severity::Advisory);
    let p = |c: Change| c.severity == Severity::High;
    let q = |c: Change| c.severity == Severity::Advisory;
    lemma_partition(all);
    let r = high_first(all);
    assert forall|i: int, j: int|
        0 <= i < j < r.len() && (#[trigger] r[j]).severity == Severity::High implies (
    #[trigger] r[i]).severity == Severity::High by {
        if i < h.len() {
            assert(r[i] == h[i]);
        } else {
            assert(r[j] == a[j - h.len()]);
        }
    }
    broadcast use vstd::seq_lib::group_to_multiset_ensures;

    if any_high(all) {
        let i = choose|i: int| 0 <= i < all.len() && (#[trigger] all[i]).severity == Severity::High;
        assert(all.to_multiset().count(all[i]) > 0) by {
            assert(all.contains(all[i]));
        }
        assert(r.contains(all[i]));
        let j = choose|j: int| 0 <= j < r.len() && r[j] == all[i];
        assert(r[j].severity == Severity::High);
    }
    if any_high(r) {
        let i = choose|i: int| 0 <= i < r.len() && (#[trigger] r[i]).severity == Severity::High;
        assert(r.to_multiset().count(r[i]) > 0) by {
            assert(r.contains(r[i]));
        }
        assert(all.contains(r[i]));
        let j = choose|j: int| 0 <= j < all.len() && all[j] == r[i];
        assert(all[j].severity == Severity::High);
    }
}

proof fn lemma_partition(all: Seq<Change>)
    ensures
        (of_severity(all, Severity::High) + of_severity(all, Severity::Advisory)).to_multiset()
            == all.to_multiset(),
        forall|i: int|
            0 <= i < of_severity(all, Severity::High).len() ==> (#[trigger] of_severity(
                all,
                Severity::High,
            )[i]).severity == Severity::High,
        forall|i: int|
            0 <= i < of_severity(all, Severity::Advisory).len() ==> (#[trigger] of_severity(
                all,
                Severity::Advisory,
            )[i]).severity == Severity::Advisory,
    decreases all.len(),
{
    reveal(Seq::filter);
    broadcast use {vstd::seq_lib::group_to_multiset_ensures, vstd::multiset::group_multiset_axioms};

    let h = of_severity(all, Severity::High);
    let a = of_severity(all, Severity::Advisory);
    if all.len() == 0 {
        assert(h + a =~= all);
    } else {
        let init = all.drop_last();
        let c = all.last();
        lemma_partition(init);
        let h0 = of_severity(init, Severity::High);
        let a0 = of_severity(init, Severity::Advisory);
        assert(all =~= init.push(c));
        vstd::seq_lib::lemma_multiset_commutative(h0, a0);
        vstd::seq_lib::lemma_multiset_commutative(h, a);
        if c.severity == Severity::High {
            assert(h =~= h0.push(c) && a =~= a0);
            assert((h + a).to_multiset() =~= (h0 + a0).to_multiset().insert(c));
        } else {
            assert(h =~= h0 && a =~= a0.push(c));
            assert((h + a).to_multiset() =~= (h0 + a0).to_multiset().insert(c));
        }
    }
}

/// The two conditions ask for the same.
spec fn twins(c: MatchCondition, d: MatchCondition) -> bool {
    c.key() == d.key()
}

/// Some condition of `b` asks for the same as `c`.
spec fn has_twin(b: Seq<MatchCondition>, c: MatchCondition) -> bool {
    exists|j: int| 0 <= j < b.len() && twins(c, #[trigger] b[j])
}

/// Every condition of `a` has one in `b` that asks for the same.
#[verifier::opaque]
spec fn mirrored(a: Seq<MatchCondition>, b: Seq<MatchCondition>) -> bool {
    forall|i: int| 0 <= i < a.len() ==> has_twin(b, #[trigger] a[i])
}

proof fn find_twin(a: Seq<MatchCondition>, b: Seq<MatchCondition>, i: int) -> (j: int)
    requires
        mirrored(a, b),
        0 <= i < a.len(),
    ensures
        0 <= j < b.len(),
        twins(a[i], b[j]),
{
    reveal(mirrored);
    assert(has_twin(b, a[i]));
    choose|j: int| 0 <= j < b.len() && twins(a[i], #[trigger] b[j])
}

proof fn lemma_mirrored(a: Seq<MatchCondition>, b: Seq<MatchCondition>)
    requires
        same_multiset(a, b),
    ensures
        mirrored(a, b),
{
    broadcast use vstd::seq_lib::group_to_multiset_ensures;

    reveal(mirrored);
    assert forall|i: int| 0 <= i < a.len() implies has_twin(b, #[trigger] a[i]) by {
        let k = keys_of(a)[i];
        assert(keys_of(a).contains(k));
        assert(keys_of(a).to_multiset().count(k) > 0);
        assert(keys_of(b).contains(k));
        let j = choose|j: int| 0 <= j < keys_of(b).len() && keys_of(b)[j] == k;
        assert(twins(a[i], b[j]));
    }
}

proof fn lemma_twins_imply(l: MatchCondition, m: MatchCondition, h: MatchCondition, g: MatchCondition)
    requires
        twins(l, m),
        twins(h, g),
    ensures
        shadow::implies(l, h) == shadow::implies(m, g),
{
}

proof fn lemma_twin_methods(a: Vec<String>, b: Vec<String>, m: Seq<char>)
    requires
        method_set(a@) == method_set(b@),
    ensures
        matching::upper_methods(a@).contains(m) == matching::upper_methods(b@).contains(m),
{
    assert(method_set(a@).contains(m) == matching::upper_methods(a@).contains(m));
    assert(method_set(b@).contains(m) == matching::upper_methods(b@).contains(m));
}

proof fn lemma_mirrored_conditions(
    hs: Seq<MatchCondition>,
    ls: Seq<MatchCondition>,
    hs2: Seq<MatchCondition>,
    ls2: Seq<MatchCondition>,
)
    requires
        mirrored(hs2, hs),
        mirrored(ls, ls2),
        shadow::conditions_implied(hs, ls),
    ensures
        shadow::conditions_implied(hs2, ls2),
{
    assert forall|i: int| 0 <= i < hs2.len() implies shadow::implied(ls2, #[trigger] hs2[i]) by {
        let g = hs2[i];
        let k = find_twin(hs2, hs, i);
        let h = hs[k];
        assert(shadow::implied(ls, h));
        if exists|j: int| 0 <= j < ls.len() && shadow::implies(#[trigger] ls[j], h) {
            let j = choose|j: int| 0 <= j < ls.len() && shadow::implies(#[trigger] ls[j], h);
            let m = find_twin(ls, ls2, j);
            lemma_twins_imply(ls[j], ls2[m], h, g);
            assert(shadow::implies(ls2[m], g));
        }
    }
}

proof fn lemma_mirrored_has(a: Seq<MatchCondition>, b: Seq<MatchCondition>)
    requires
        mirrored(a, b),
    ensures
        matching::has_host(a) ==> matching::has_host(b),
        shadow::has_method(a) ==> shadow::has_method(b),
{
    if matching::has_host(a) {
        let i = choose|i: int| 0 <= i < a.len() && (#[trigger] a[i]) is Host;
        let j = find_twin(a, b, i);
        assert(b[j] is Host);
    }
    if shadow::has_method(a) {
        let i = choose|i: int| 0 <= i < a.len() && (#[trigger] a[i]) is Method;
        let j = find_twin(a, b, i);
        assert(b[j] is Method);
    }
}

proof fn lemma_mirrored_hosts(
    hs: Seq<MatchCondition>,
    ls: Seq<MatchCondition>,
    hs2: Seq<MatchCondition>,
    ls2: Seq<MatchCondition>,
)
    requires
        mirrored(hs, hs2),
        mirrored(hs2, hs),
        mirrored(ls, ls2),
        mirrored(ls2, ls),
        shadow::hosts_generalize(hs, ls),
    ensures
        shadow::hosts_generalize(hs2, ls2),
{
    if matching::has_host(hs2) {
        lemma_mirrored_has(hs2, hs);
        lemma_mirrored_has(ls, ls2);
        assert forall|j: int| 0 <= j < ls2.len() && #[trigger] ls2[j] is Host implies shadow::host_covered(
            hs2,
            ls2[j],
        ) by {
            let k = find_twin(ls2, ls, j);
            assert(ls[k] is Host);
            assert(shadow::host_covered(hs, ls[k]));
            let i = choose|i: int|
                0 <= i < hs.len() && #[trigger] hs[i] is Host && shadow::host_covers(
                    hs[i]->Host_0@,
                    ls[k]->Host_0@,
                );
            let m = find_twin(hs, hs2, i);
            assert(hs2[m] is Host);
        }
    }
}

proof fn lemma_mirrored_admits(a: Seq<MatchCondition>, b: Seq<MatchCondition>, m: Seq<char>)
    requires
        mirrored(b, a),
        shadow::admits_method(a, m),
    ensures
        shadow::admits_method(b, m),
{
    assert forall|i: int| 0 <= i < b.len() && #[trigger] b[i] is Method implies matching::upper_methods(
        b[i]->Method_0@,
    ).contains(m) by {
        let j = find_twin(b, a, i);
        assert(a[j] is Method);
        lemma_twin_methods(a[j]->Method_0, b[i]->Method_0, m);
    }
}

proof fn lemma_mirrored_methods(
    hs: Seq<MatchCondition>,
    ls: Seq<MatchCondition>,
    hs2: Seq<MatchCondition>,
    ls2: Seq<MatchCondition>,
)
    requires
        mirrored(hs, hs2),
        mirrored(hs2, hs),
        mirrored(ls, ls2),
        mirrored(ls2, ls),
        shadow::methods_generalize(hs, ls),
    ensures
        shadow::methods_generalize(hs2, ls2),
{
    if shadow::has_method(hs2) {
        lemma_mirrored_has(hs2, hs);
        lemma_mirrored_has(ls, ls2);
        assert forall|m: Seq<char>| #[trigger] shadow::admits_method(ls2, m) implies shadow::admits_method(
            hs2,
            m,
        ) by {
            lemma_mirrored_admits(ls2, ls, m);
            lemma_mirrored_admits(hs, hs2, m);
        }
    }
}

/// The route is the other one but for the order of its conditions and the order, the
/// case and the repetition of methods.
pub open spec fn reworded(a: RouteConfig, b: RouteConfig) -> bool {
    same_multiset(a.matches@, b.matches@) && b == (RouteConfig { matches: b.matches, ..a })
}

/// The configuration is the other one but for the wording of routes.
pub open spec fn reworded_config(a: Config, b: Config) -> bool {
    &&& b == (Config { routes: b.routes, ..a })
    &&& a.routes@.len() == b.routes@.len()
    &&& forall|i: int| 0 <= i < a.routes@.len() ==> reworded(#[trigger] a.routes@[i], b.routes@[i])
}

proof fn lemma_reworded_generalizes(
    h: RouteConfig,
    l: RouteConfig,
    h2: RouteConfig,
    l2: RouteConfig,
)
    requires
        reworded(h, h2),
        reworded(l, l2),
    ensures
        shadow::route_generalizes(h, l) == shadow::route_generalizes(h2, l2),
{
    let (hs, ls, hs2, ls2) = (h.matches@, l.matches@, h2.matches@, l2.matches@);
    lemma_mirrored(hs, hs2);
    lemma_mirrored(hs2, hs);
    lemma_mirrored(ls, ls2);
    lemma_mirrored(ls2, ls);
    if shadow::route_generalizes(h, l) {
        lemma_mirrored_conditions(hs, ls, hs2, ls2);
        lemma_mirrored_hosts(hs, ls, hs2, ls2);
        lemma_mirrored_methods(hs, ls, hs2, ls2);
    }
    if shadow::route_generalizes(h2, l2) {
        lemma_mirrored_conditions(hs2, ls2, hs, ls);
        lemma_mirrored_hosts(hs2, ls2, hs, ls);
        lemma_mirrored_methods(hs2, ls2, hs, ls);
    }
}

proof fn lemma_reworded_shadower(a: Config, b: Config, l: int, from: int)
    requires
        reworded_config(a, b),
        0 <= l < a.routes@.len(),
        0 <= from <= a.routes@.len(),
    ensures
        shadow::shadower_from(a.routes@, l, from) == shadow::shadower_from(b.routes@, l, from),
    decreases a.routes@.len() - from,
{
    if from < a.routes@.len() {
        assert(reworded(a.routes@[from], b.routes@[from]));
        assert(reworded(a.routes@[l], b.routes@[l]));
        lemma_reworded_generalizes(
            a.routes@[from],
            a.routes@[l],
            b.routes@[from],
            b.routes@[l],
        );
        lemma_reworded_shadower(a, b, l, from + 1);
    }
}

proof fn lemma_reworded_route(before: Seq<Change>, a: Config, b: Config, i: int)
    requires
        reworded_config(a, b),
        0 <= i < a.routes@.len(),
    ensures
        route_changes(before, a, b, i, i) == before,
{
    assert(reworded(a.routes@[i], b.routes@[i]));
    lemma_reworded_shadower(a, b, i, 0);
}

proof fn lemma_reworded_routes(before: Seq<Change>, a: Config, b: Config, k: int)
    requires
        reworded_config(a, b),
        route_ids(a.routes@) == route_ids(b.routes@),
        k <= a.routes@.len(),
    ensures
        common_routes(before, a, b, k) == before,
    decreases k,
{
    if k > 0 {
        lemma_reworded_routes(before, a, b, k - 1);
        lemma_last_of(route_ids(a.routes@), a.routes@[k - 1].id@);
        lemma_reworded_route(before, a, b, k - 1);
    }
}

proof fn lemma_same_listeners(before: Seq<Change>, l: Seq<ListenerConfig>, k: int)
    requires
        k <= l.len(),
    ensures
        common_listeners(before, l, l, k) == before,
    decreases k,
{
    if k > 0 {
        lemma_same_listeners(before, l, k - 1);
    }
}

proof fn lemma_same_agents(before: Seq<Change>, a: Seq<AgentConfig>, k: int)
    requires
        k <= a.len(),
    ensures
        common_agents(before, a, a, k) == before,
    decreases k,
{
    if k > 0 {
        lemma_same_agents(before, a, k - 1);
    }
}

proof fn lemma_same_upstreams(before: Seq<Change>, m: Seq<(Seq<char>, UpstreamConfig)>, k: int)
    requires
        k <= m.len(),
        strmap::sorted(m),
    ensures
        old_upstreams(before, m, m, k) == before,
    decreases k,
{
    if k > 0 {
        lemma_same_upstreams(before, m, k - 1);
        strmap::lemma_get_at(m, k - 1);
    }
}

proof fn lemma_same_filters(before: Seq<Change>, m: Seq<(Seq<char>, FilterConfig)>, k: int)
    requires
        k <= m.len(),
        strmap::sorted(m),
    ensures
        old_filters(before, m, m, k) == before,
    decreases k,
{
    if k > 0 {
        lemma_same_filters(before, m, k - 1);
        strmap::lemma_get_at(m, k - 1);
    }
}

proof fn lemma_no_new<V>(before: Seq<Change>, m: Seq<(Seq<char>, V)>, category: Seq<char>, k: int)
    requires
        k <= m.len(),
        strmap::sorted(m),
    ensures
        new_entries(before, m, m, category, k) == before,
    decreases k,
{
    if k > 0 {
        lemma_no_new(before, m, category, k - 1);
        strmap::lemma_get_at(m, k - 1);
    }
}

/// Rewording the routes of a configuration, by the order of conditions or by the
/// order, the case or the repetition of methods, is no change.
pub proof fn reworded_config_has_no_changes(c: Config, d: Config)
    requires
        reworded_config(c, d),
        strmap::sorted(c.upstreams.deep_view()),
        strmap::sorted(c.filters.deep_view()),
    ensures
        changes(c, d) == Seq::<Change>::empty(),
        high_first(changes(c, d)) == Seq::<Change>::empty(),
        !any_high(high_first(changes(c, d))),
{
    let none = Seq::<Change>::empty();
    let rids = route_ids(c.routes@);
    assert forall|i: int| 0 <= i < rids.len() implies rids[i] == route_ids(d.routes@)[i] by {
        assert(reworded(c.routes@[i], d.routes@[i]));
    }
    assert(rids =~= route_ids(d.routes@));
    lemma_nothing_missing(
        none,
        rids,
        Severity::High,
        "route"@,
        "route '"@,
        "' removed"@,
        rids.len() as int,
    );
    lemma_nothing_missing(
        none,
        rids,
        Severity::Advisory,
        "route"@,
        "route '"@,
        "' added"@,
        rids.len() as int,
    );
    lemma_reworded_routes(none, c, d, c.routes@.len() as int);
    let um = c.upstreams.deep_view();
    lemma_same_upstreams(none, um, um.len() as int);
    lemma_no_new(none, um, "upstream"@, um.len() as int);
    let lids = listener_ids(c.listeners@);
    lemma_nothing_missing(
        none,
        lids,
        Severity::High,
        "listener"@,
        "listener '"@,
        "' removed"@,
        lids.len() as int,
    );
    lemma_nothing_missing(
        none,
        lids,
        Severity::Advisory,
        "listener"@,
        "listener '"@,
        "' added"@,
        lids.len() as int,
    );
    lemma_same_listeners(none, c.listeners@, c.listeners@.len() as int);
    let aids = agent_ids(c.agents@);
    lemma_nothing_missing(
        none,
        aids,
        Severity::High,
        "agent"@,
        "agent '"@,
        "' removed (routes referencing it will fail)"@,
        aids.len() as int,
    );
    lemma_nothing_missing(
        none,
        aids,
        Severity::Advisory,
        "agent"@,
        "agent '"@,
        "' added"@,
        aids.len() as int,
    );
    lemma_same_agents(none, c.agents@, c.agents@.len() as int);
    let fm = c.filters.deep_view();
    lemma_same_filters(none, fm, fm.len() as int);
    lemma_no_new(none, fm, "filter"@, fm.len() as int);
    reveal(Seq::filter);
    assert(high_first(none) =~= none);
}

/// A configuration does not differ from itself.
pub proof fn same_config_has_no_changes(c: Config)
    requires
        strmap::sorted(c.upstreams.deep_view()),
        strmap::sorted(c.filters.deep_view()),
    ensures
        changes(c, c) == Seq::<Change>::empty(),
        high_first(changes(c, c)) == Seq::<Change>::empty(),
{
    reworded_config_has_no_changes(c, c);
}

/// One more change is high among all if it is, or if one before it is.
proof fn lemma_push_high()
    ensures
        forall|l: Seq<Change>, c: Change|
            any_high(#[trigger] l.push(c)) == (any_high(l) || c.severity == Severity::High),
{
    assert forall|l: Seq<Change>, c: Change|
        any_high(#[trigger] l.push(c)) == (any_high(l) || c.severity == Severity::High) by {
        let r = l.push(c);
        if c.severity == Severity::High {
            assert(r[l.len() as int].severity == Severity::High);
        } else if any_high(l) {
            let i = choose|i: int| 0 <= i < l.len() && (#[trigger] l[i]).severity == Severity::High;
            assert(r[i].severity == Severity::High);
        } else if any_high(r) {
            let i = choose|i: int| 0 <= i < r.len() && (#[trigger] r[i]).severity == Severity::High;
            assert(l[i].severity == Severity::High);
        }
    }
}

proof fn lemma_missing_high(
    before: Seq<Change>,
    ids: Seq<Seq<char>>,
    others: Seq<Seq<char>>,
    severity: Severity,
    category: Seq<char>,
    head: Seq<char>,
    tail: Seq<char>,
    n: int,
)
    requires
        n <= ids.len(),
    ensures
        any_high(missing(before, ids, others, severity, category, head, tail, n)) == (any_high(
            before,
        ) || (severity == Severity::High && exists|i: int|
            0 <= i < n && last_of(others, #[trigger] ids[i]) < 0)),
    decreases n,
{
    lemma_push_high();
    if n > 0 {
        lemma_missing_high(before, ids, others, severity, category, head, tail, n - 1);
    }
}

/// A route that both configurations have breaks: it goes to another upstream, fails
/// in another way, loses an agent filter or is no longer reached.
pub open spec fn route_breaks(o: Config, n: Config, oi: int, ni: int) -> bool {
    let a = o.routes@[oi];
    let b = n.routes@[ni];
    let gone = dropped_agents(
        a.filters.deep_view(),
        b.filters.deep_view(),
        o.filters.deep_view(),
        a.filters@.len() as int,
    );
    a.upstream.deep_view() != b.upstream.deep_view() || a.policies.failure_mode
        != b.policies.failure_mode || (a.filters.deep_view() != b.filters.deep_view() && gone.len()
        > 0) || (shadow::shadower(o.routes@, oi) is None && shadow::shadower(n.routes@, ni) is Some)
}

proof fn lemma_route_high(before: Seq<Change>, o: Config, n: Config, oi: int, ni: int)
    ensures
        any_high(route_changes(before, o, n, oi, ni)) == (any_high(before) || route_breaks(
            o,
            n,
            oi,
            ni,
        )),
{
    lemma_push_high();
}

proof fn lemma_common_routes_high(before: Seq<Change>, o: Config, n: Config, k: int)
    requires
        k <= o.routes@.len(),
    ensures
        any_high(common_routes(before, o, n, k)) == (any_high(before) || exists|i: int|
            0 <= i < k && last_of(route_ids(o.routes@), (#[trigger] o.routes@[i]).id@) == i
                && last_of(route_ids(n.routes@), o.routes@[i].id@) >= 0 && route_breaks(
                o,
                n,
                i,
                last_of(route_ids(n.routes@), o.routes@[i].id@),
            )),
    decreases k,
{
    if k > 0 {
        lemma_common_routes_high(before, o, n, k - 1);
        lemma_route_high(
            common_routes(before, o, n, k - 1),
            o,
            n,
            k - 1,
            last_of(route_ids(n.routes@), o.routes@[k - 1].id@),
        );
    }
}

proof fn lemma_upstreams_high(
    before: Seq<Change>,
    o: Seq<(Seq<char>, UpstreamConfig)>,
    n: Seq<(Seq<char>, UpstreamConfig)>,
    k: int,
)
    requires
        k <= o.len(),
    ensures
        any_high(old_upstreams(before, o, n, k)) == (any_high(before) || exists|i: int|
            0 <= i < k && strmap::get(n, (#[trigger] o[i]).0) is None),
    decreases k,
{
    lemma_push_high();
    if k > 0 {
        lemma_upstreams_high(before, o, n, k - 1);
    }
}

proof fn lemma_new_entries_high<V>(
    before: Seq<Change>,
    o: Seq<(Seq<char>, V)>,
    n: Seq<(Seq<char>, V)>,
    category: Seq<char>,
    k: int,
)
    ensures
        any_high(new_entries(before, o, n, category, k)) == any_high(before),
    decreases k,
{
    lemma_push_high();
    if k > 0 {
        lemma_new_entries_high(before, o, n, category, k - 1);
    }
}

/// A listener gets weaker: it loses TLS, takes an older version, or no longer asks
/// for client certificates.
pub open spec fn listener_weakens(o: ListenerConfig, n: ListenerConfig) -> bool {
    match (o.tls, n.tls) {
        (Some(a), Some(b)) => tls_rank(b.min_version) < tls_rank(a.min_version) || (a.client_auth
            && !b.client_auth),
        (Some(_), None) => true,
        _ => false,
    }
}

proof fn lemma_listeners_high(
    before: Seq<Change>,
    o: Seq<ListenerConfig>,
    n: Seq<ListenerConfig>,
    k: int,
)
    requires
        k <= o.len(),
    ensures
        any_high(common_listeners(before, o, n, k)) == (any_high(before) || exists|i: int|
            0 <= i < k && last_of(listener_ids(o), (#[trigger] o[i]).id@) == i && last_of(
                listener_ids(n),
                o[i].id@,
            ) >= 0 && listener_weakens(o[i], n[last_of(listener_ids(n), o[i].id@)])),
    decreases k,
{
    lemma_push_high();
    if k > 0 {
        lemma_listeners_high(before, o, n, k - 1);
    }
}

proof fn lemma_agents_high(before: Seq<Change>, o: Seq<AgentConfig>, n: Seq<AgentConfig>, k: int)
    requires
        k <= o.len(),
    ensures
        any_high(common_agents(before, o, n, k)) == (any_high(before) || exists|i: int|
            0 <= i < k && last_of(agent_ids(o), (#[trigger] o[i]).id@) == i && last_of(
                agent_ids(n),
                o[i].id@,
            ) >= 0 && o[i].failure_mode != n[last_of(agent_ids(n), o[i].id@)].failure_mode),
    decreases k,
{
    lemma_push_high();
    if k > 0 {
        lemma_agents_high(before, o, n, k - 1);
    }
}

/// A filter breaks: it becomes one of another type, or fails in another way.
pub open spec fn filter_breaks(o: FilterConfig, n: FilterConfig) -> bool {
    config::filter_kind(o) != config::filter_kind(n) || (match (o.filter, n.filter) {
        (Filter::Agent(a), Filter::Agent(b)) => a.failure_mode != b.failure_mode,
        _ => false,
    })
}

proof fn lemma_filters_high(
    before: Seq<Change>,
    o: Seq<(Seq<char>, FilterConfig)>,
    n: Seq<(Seq<char>, FilterConfig)>,
    k: int,
)
    requires
        k <= o.len(),
    ensures
        any_high(old_filters(before, o, n, k)) == (any_high(before) || exists|i: int|
            0 <= i < k && (strmap::get(n, (#[trigger] o[i]).0) matches Some(f) && filter_breaks(
                o[i].1,
                f,
            ))),
    decreases k,
{
    lemma_push_high();
    if k > 0 {
        lemma_filters_high(before, o, n, k - 1);
    }
}

/// What breaks traffic or removes a security control: a route, upstream, listener or
/// agent that is removed, a route or filter that breaks, a listener that weakens, or
/// an agent that fails in another way.
pub open spec fn breaks(o: Config, n: Config) -> bool {
    ||| exists|i: int|
        0 <= i < o.routes@.len() && last_of(
            route_ids(n.routes@),
            (#[trigger] route_ids(o.routes@)[i]),
        ) < 0
    ||| exists|i: int|
        0 <= i < o.routes@.len() && last_of(route_ids(o.routes@), (#[trigger] o.routes@[i]).id@)
            == i && last_of(route_ids(n.routes@), o.routes@[i].id@) >= 0 && route_breaks(
            o,
            n,
            i,
            last_of(route_ids(n.routes@), o.routes@[i].id@),
        )
    ||| exists|i: int|
        0 <= i < o.upstreams.deep_view().len() && strmap::get(
            n.upstreams.deep_view(),
            (#[trigger] o.upstreams.deep_view()[i]).0,
        ) is None
    ||| exists|i: int|
        0 <= i < o.listeners@.len() && last_of(
            listener_ids(n.listeners@),
            (#[trigger] listener_ids(o.listeners@)[i]),
        ) < 0
    ||| exists|i: int|
        0 <= i < o.listeners@.len() && last_of(
            listener_ids(o.listeners@),
            (#[trigger] o.listeners@[i]).id@,
        ) == i && last_of(listener_ids(n.listeners@), o.listeners@[i].id@) >= 0 && listener_weakens(
            o.listeners@[i],
            n.listeners@[last_of(listener_ids(n.listeners@), o.listeners@[i].id@)],
        )
    ||| exists|i: int|
        0 <= i < o.agents@.len() && last_of(
            agent_ids(n.agents@),
            (#[trigger] agent_ids(o.agents@)[i]),
        ) < 0
    ||| exists|i: int|
        0 <= i < o.agents@.len() && last_of(agent_ids(o.agents@), (#[trigger] o.agents@[i]).id@)
            == i && last_of(agent_ids(n.agents@), o.agents@[i].id@) >= 0
            && o.agents@[i].failure_mode != n.agents@[last_of(
            agent_ids(n.agents@),
            o.agents@[i].id@,
        )].failure_mode
    ||| exists|i: int|
        0 <= i < o.filters.deep_view().len() && (strmap::get(
            n.filters.deep_view(),
            (#[trigger] o.filters.deep_view()[i]).0,
        ) matches Some(f) && filter_breaks(o.filters.deep_view()[i].1, f))
}

/// There is a high change exactly when something breaks traffic or removes a
/// security control, so that a deployment can be gated on it.
pub proof fn high_iff_breaking(o: Config, n: Config)
    ensures
        any_high(high_first(changes(o, n))) == breaks(o, n),
{
    let none = Seq::<Change>::empty();
    let oids = route_ids(o.routes@);
    let nids = route_ids(n.routes@);
    lemma_missing_high(
        none,
        oids,
        nids,
        Severity::High,
        "route"@,
        "route '"@,
        "' removed"@,
        oids.len() as int,
    );
    let r1 = missing(
        none,
        oids,
        nids,
        Severity::High,
        "route"@,
        "route '"@,
        "' removed"@,
        oids.len() as int,
    );
    lemma_missing_high(
        r1,
        nids,
        oids,
        Severity::Advisory,
        "route"@,
        "route '"@,
        "' added"@,
        nids.len() as int,
    );
    let r2 = missing(
        r1,
        nids,
        oids,
        Severity::Advisory,
        "route"@,
        "route '"@,
        "' added"@,
        nids.len() as int,
    );
    lemma_common_routes_high(r2, o, n, o.routes@.len() as int);
    let routes = routes_diff(none, o, n);

    let ou = o.upstreams.deep_view();
    let nu = n.upstreams.deep_view();
    lemma_upstreams_high(routes, ou, nu, ou.len() as int);
    lemma_new_entries_high(
        old_upstreams(routes, ou, nu, ou.len() as int),
        ou,
        nu,
        "upstream"@,
        nu.len() as int,
    );
    let upstreams = upstreams_diff(routes, o, n);

    let ol = listener_ids(o.listeners@);
    let nl = listener_ids(n.listeners@);
    lemma_missing_high(
        upstreams,
        ol,
        nl,
        Severity::High,
        "listener"@,
        "listener '"@,
        "' removed"@,
        ol.len() as int,
    );
    let l1 = missing(
        upstreams,
        ol,
        nl,
        Severity::High,
        "listener"@,
        "listener '"@,
        "' removed"@,
        ol.len() as int,
    );
    lemma_missing_high(
        l1,
        nl,
        ol,
        Severity::Advisory,
        "listener"@,
        "listener '"@,
        "' added"@,
        nl.len() as int,
    );
    let l2 = missing(
        l1,
        nl,
        ol,
        Severity::Advisory,
        "listener"@,
        "listener '"@,
        "' added"@,
        nl.len() as int,
    );
    lemma_listeners_high(l2, o.listeners@, n.listeners@, o.listeners@.len() as int);
    let listeners = listeners_diff(upstreams, o, n);

    let oa = agent_ids(o.agents@);
    let na = agent_ids(n.agents@);
    let gone = "' removed (routes referencing it will fail)"@;
    lemma_missing_high(
        listeners,
        oa,
        na,
        Severity::High,
        "agent"@,
        "agent '"@,
        gone,
        oa.len() as int,
    );
    let a1 = missing(
        listeners,
        oa,
        na,
        Severity::High,
        "agent"@,
        "agent '"@,
        gone,
        oa.len() as int,
    );
    lemma_missing_high(
        a1,
        na,
        oa,
        Severity::Advisory,
        "agent"@,
        "agent '"@,
        "' added"@,
        na.len() as int,
    );
    let a2 = missing(
        a1,
        na,
        oa,
        Severity::Advisory,
        "agent"@,
        "agent '"@,
        "' added"@,
        na.len() as int,
    );
    lemma_agents_high(a2, o.agents@, n.agents@, o.agents@.len() as int);
    let agents = agents_diff(listeners, o, n);

    let of = o.filters.deep_view();
    let nf = n.filters.deep_view();
    lemma_filters_high(agents, of, nf, of.len() as int);
    lemma_new_entries_high(
        old_filters(agents, of, nf, of.len() as int),
        of,
        nf,
        "filter"@,
        nf.len() as int,
    );
    high_changes_come_first(changes(o, n));
}

} // verus!
