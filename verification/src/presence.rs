//! What a comparison of two configurations reports as removed and as added.
//!
//! Entities are told apart by identifier. What is removed on the way from one
//! configuration to another is what is added on the way back, so a rename reads as one
//! removal and one addition.

use crate::config::{AgentConfig, Config, Filter, FilterConfig, UpstreamConfig};
use crate::diff;
use crate::diff::{Change, Severity};
use crate::server::ListenerConfig;
use crate::strmap;
use crate::text;
use vstd::prelude::*;
use vstd::string::*;

verus! {

// ---------------------------------------------------------------------------
// Reports
// ---------------------------------------------------------------------------

/// What a configuration is made of.
pub ghost enum Entity {
    Route,
    Upstream,
    Listener,
    Agent,
    Filter,
}

/// The names in a map.
pub open spec fn keys<V>(m: Seq<(Seq<char>, V)>) -> Seq<Seq<char>> {
    m.map_values(|e: (Seq<char>, V)| e.0)
}

/// The identifiers of a kind of entity.
pub open spec fn ids(c: Config, e: Entity) -> Seq<Seq<char>> {
    match e {
        Entity::Route => diff::route_ids(c.routes@),
        Entity::Upstream => keys(c.upstreams.deep_view()),
        Entity::Listener => diff::listener_ids(c.listeners@),
        Entity::Agent => diff::agent_ids(c.agents@),
        Entity::Filter => keys(c.filters.deep_view()),
    }
}

/// No two entities of a kind share an identifier.
pub open spec fn unique_ids(c: Config) -> bool {
    forall|e: Entity| (#[trigger] ids(c, e)).no_duplicates()
}

/// The maps of the configuration are in order.
pub open spec fn ordered(c: Config) -> bool {
    strmap::sorted(c.upstreams.deep_view()) && strmap::sorted(c.filters.deep_view())
}

/// How the removal of an entity is reported.
pub open spec fn removal(e: Entity, id: Seq<char>) -> Change {
    match e {
        Entity::Route => diff::high("route"@, id, "route '"@ + id + "' removed"@),
        Entity::Upstream => diff::high("upstream"@, id, "upstream '"@ + id + "' removed"@),
        Entity::Listener => diff::high("listener"@, id, "listener '"@ + id + "' removed"@),
        Entity::Agent => diff::high(
            "agent"@,
            id,
            "agent '"@ + id + "' removed (routes referencing it will fail)"@,
        ),
        Entity::Filter => diff::advisory("filter"@, id, "filter '"@ + id + "' removed"@),
    }
}

/// How the addition of an entity is reported.
pub open spec fn addition(e: Entity, id: Seq<char>) -> Change {
    match e {
        Entity::Route => diff::advisory("route"@, id, "route '"@ + id + "' added"@),
        Entity::Upstream => diff::advisory("upstream"@, id, "upstream"@ + " '"@ + id + "' added"@),
        Entity::Listener => diff::advisory("listener"@, id, "listener '"@ + id + "' added"@),
        Entity::Agent => diff::advisory("agent"@, id, "agent '"@ + id + "' added"@),
        Entity::Filter => diff::advisory("filter"@, id, "filter"@ + " '"@ + id + "' added"@),
    }
}

/// How often a change is reported.
#[verifier::opaque]
pub open spec fn times(all: Seq<Change>, x: Change) -> nat {
    all.to_multiset().count(x)
}

/// 1 if so, else 0.
pub open spec fn once(b: bool) -> nat {
    if b {
        1
    } else {
        0
    }
}

proof fn lemma_times()
    ensures
        forall|x: Change| #[trigger] times(Seq::empty(), x) == 0,
        forall|l: Seq<Change>, c: Change, x: Change| #[trigger]
            times(l.push(c), x) == times(l, x) + once(c == x),
{
    broadcast use {vstd::seq_lib::group_to_multiset_ensures, vstd::multiset::group_multiset_axioms};

    reveal(times);
    assert forall|l: Seq<Change>, c: Change, x: Change| #[trigger] times(l.push(c), x) == times(l, x)
        + once(c == x) by {
        assert(l.push(c).to_multiset() =~= l.to_multiset().insert(c));
    }
}

// ---------------------------------------------------------------------------
// Other reports
// ---------------------------------------------------------------------------

/// A character of what is said of the entity.
spec fn letter(c: Change, i: int) -> char {
    c.summary[c.category.len() + c.entity.len() + 4 + i]
}

/// The change says `removed` or `added` of the entity.
#[verifier::opaque]
spec fn speaks(c: Change) -> bool {
    letter(c, 0) == 'r' || (letter(c, 0) == 'a' && letter(c, 3) == 'e')
}

proof fn lemma_reports_speak(e: Entity, id: Seq<char>)
    ensures
        speaks(removal(e, id)),
        speaks(addition(e, id)),
{
    reveal(speaks);
    reveal_strlit("route");
    reveal_strlit("route '");
    reveal_strlit("upstream");
    reveal_strlit("upstream '");
    reveal_strlit("listener");
    reveal_strlit("listener '");
    reveal_strlit("agent");
    reveal_strlit("agent '");
    reveal_strlit("filter");
    reveal_strlit("filter '");
    reveal_strlit(" '");
    reveal_strlit("' removed");
    reveal_strlit("' added");
    reveal_strlit("' removed (routes referencing it will fail)");
    let n = id.len() as int;
    let r = removal(e, id);
    let a = addition(e, id);
    match e {
        Entity::Route => {
            assert(r.summary[n + 9] == 'r');
            assert(a.summary[n + 9] == 'a' && a.summary[n + 12] == 'e');
        },
        Entity::Upstream => {
            assert(r.summary[n + 12] == 'r');
            assert(a.summary[n + 12] == 'a' && a.summary[n + 15] == 'e');
        },
        Entity::Listener => {
            assert(r.summary[n + 12] == 'r');
            assert(a.summary[n + 12] == 'a' && a.summary[n + 15] == 'e');
        },
        Entity::Agent => {
            assert(r.summary[n + 9] == 'r');
            assert(a.summary[n + 9] == 'a' && a.summary[n + 12] == 'e');
        },
        Entity::Filter => {
            assert(r.summary[n + 10] == 'r');
            assert(a.summary[n + 10] == 'a' && a.summary[n + 13] == 'e');
        },
    }
}

/// A change is silent if what it says of the entity begins otherwise.
proof fn lemma_silent(c: Change, head: Seq<char>, tail: Seq<char>, rest: Seq<char>)
    requires
        head.len() == c.category.len() + 2,
        tail.len() >= 6,
        c.summary == head + c.entity + tail + rest,
        tail[2] != 'r',
        tail[2] != 'a' || tail[5] != 'e',
    ensures
        !speaks(c),
{
    reveal(speaks);
    let n = head.len() as int + c.entity.len();
    assert(c.summary[n + 2] == tail[2]);
    assert(c.summary[n + 5] == tail[5]);
}

/// What begins otherwise after the entity, with nothing behind it, is silent.
proof fn lemma_tail0(cat: Seq<char>, head: Seq<char>, tail: Seq<char>)
    requires
        head.len() == cat.len() + 2,
        tail.len() >= 6,
        tail[2] != 'r',
        tail[2] != 'a' || tail[5] != 'e',
    ensures
        forall|id: Seq<char>| !speaks(#[trigger] diff::high(cat, id, head + id + tail)),
        forall|id: Seq<char>| !speaks(#[trigger] diff::advisory(cat, id, head + id + tail)),
{
    let none = Seq::<char>::empty();
    assert forall|id: Seq<char>| !speaks(#[trigger] diff::high(cat, id, head + id + tail)) by {
        assert(head + id + tail =~= head + id + tail + none);
        lemma_silent(diff::high(cat, id, head + id + tail), head, tail, none);
    }
    assert forall|id: Seq<char>| !speaks(#[trigger] diff::advisory(cat, id, head + id + tail)) by {
        assert(head + id + tail =~= head + id + tail + none);
        lemma_silent(diff::advisory(cat, id, head + id + tail), head, tail, none);
    }
}

proof fn lemma_tail1(cat: Seq<char>, head: Seq<char>, tail: Seq<char>)
    requires
        head.len() == cat.len() + 2,
        tail.len() >= 6,
        tail[2] != 'r',
        tail[2] != 'a' || tail[5] != 'e',
    ensures
        forall|id: Seq<char>, a: Seq<char>| !speaks(
            #[trigger] diff::high(cat, id, head + id + tail + a),
        ),
        forall|id: Seq<char>, a: Seq<char>| !speaks(
            #[trigger] diff::advisory(cat, id, head + id + tail + a),
        ),
{
    assert forall|id: Seq<char>, a: Seq<char>| !speaks(
        #[trigger] diff::high(cat, id, head + id + tail + a),
    ) by {
        lemma_silent(diff::high(cat, id, head + id + tail + a), head, tail, a);
    }
    assert forall|id: Seq<char>, a: Seq<char>| !speaks(
        #[trigger] diff::advisory(cat, id, head + id + tail + a),
    ) by {
        lemma_silent(diff::advisory(cat, id, head + id + tail + a), head, tail, a);
    }
}

proof fn lemma_tail2(cat: Seq<char>, head: Seq<char>, tail: Seq<char>)
    requires
        head.len() == cat.len() + 2,
        tail.len() >= 6,
        tail[2] != 'r',
        tail[2] != 'a' || tail[5] != 'e',
    ensures
        forall|id: Seq<char>, a: Seq<char>, b: Seq<char>| !speaks(
            #[trigger] diff::high(cat, id, head + id + tail + a + b),
        ),
        forall|id: Seq<char>, a: Seq<char>, b: Seq<char>| !speaks(
            #[trigger] diff::advisory(cat, id, head + id + tail + a + b),
        ),
{
    assert forall|id: Seq<char>, a: Seq<char>, b: Seq<char>| !speaks(
        #[trigger] diff::high(cat, id, head + id + tail + a + b),
    ) by {
        assert(head + id + tail + a + b =~= head + id + tail + (a + b));
        lemma_silent(diff::high(cat, id, head + id + tail + a + b), head, tail, a + b);
    }
    assert forall|id: Seq<char>, a: Seq<char>, b: Seq<char>| !speaks(
        #[trigger] diff::advisory(cat, id, head + id + tail + a + b),
    ) by {
        assert(head + id + tail + a + b =~= head + id + tail + (a + b));
        lemma_silent(diff::advisory(cat, id, head + id + tail + a + b), head, tail, a + b);
    }
}

proof fn lemma_tail3(cat: Seq<char>, head: Seq<char>, tail: Seq<char>)
    requires
        head.len() == cat.len() + 2,
        tail.len() >= 6,
        tail[2] != 'r',
        tail[2] != 'a' || tail[5] != 'e',
    ensures
        forall|id: Seq<char>, a: Seq<char>, b: Seq<char>, c: Seq<char>| !speaks(
            #[trigger] diff::high(cat, id, head + id + tail + a + b + c),
        ),
        forall|id: Seq<char>, a: Seq<char>, b: Seq<char>, c: Seq<char>| !speaks(
            #[trigger] diff::advisory(cat, id, head + id + tail + a + b + c),
        ),
{
    assert forall|id: Seq<char>, a: Seq<char>, b: Seq<char>, c: Seq<char>| !speaks(
        #[trigger] diff::high(cat, id, head + id + tail + a + b + c),
    ) by {
        assert(head + id + tail + a + b + c =~= head + id + tail + (a + b + c));
        lemma_silent(diff::high(cat, id, head + id + tail + a + b + c), head, tail, a + b + c);
    }
    assert forall|id: Seq<char>, a: Seq<char>, b: Seq<char>, c: Seq<char>| !speaks(
        #[trigger] diff::advisory(cat, id, head + id + tail + a + b + c),
    ) by {
        assert(head + id + tail + a + b + c =~= head + id + tail + (a + b + c));
        lemma_silent(diff::advisory(cat, id, head + id + tail + a + b + c), head, tail, a + b + c);
    }
}

proof fn lemma_route_quiet(before: Seq<Change>, o: Config, n: Config, oi: int, ni: int, x: Change)
    requires
        speaks(x),
    ensures
        times(diff::route_changes(before, o, n, oi, ni), x) == times(before, x),
{
    reveal_strlit("route");
    reveal_strlit("route '");
    reveal_strlit("' upstream ");
    reveal_strlit("' match conditions changed");
    reveal_strlit("' priority ");
    reveal_strlit("' failure-mode ");
    reveal_strlit("' timeout ");
    reveal_strlit("' filter chain changed: ");
    reveal_strlit("' no longer runs agent filter(s) ");
    reveal_strlit("' became unreachable (now shadowed by '");
    reveal_strlit("' became reachable");
    lemma_tail3("route"@, "route '"@, "' upstream "@);
    lemma_tail0("route"@, "route '"@, "' match conditions changed"@);
    lemma_tail3("route"@, "route '"@, "' priority "@);
    lemma_tail3("route"@, "route '"@, "' failure-mode "@);
    lemma_tail3("route"@, "route '"@, "' timeout "@);
    lemma_tail1("route"@, "route '"@, "' filter chain changed: "@);
    lemma_tail3("route"@, "route '"@, "' no longer runs agent filter(s) "@);
    lemma_tail2("route"@, "route '"@, "' became unreachable (now shadowed by '"@);
    lemma_tail0("route"@, "route '"@, "' became reachable"@);
    lemma_times();
}

proof fn lemma_upstream_quiet(
    before: Seq<Change>,
    id: Seq<char>,
    o: UpstreamConfig,
    n: UpstreamConfig,
    x: Change,
)
    requires
        speaks(x),
    ensures
        times(diff::upstream_changes(before, id, o, n), x) == times(before, x),
{
    reveal_strlit("upstream");
    reveal_strlit("upstream '");
    reveal_strlit("' target set changed (");
    reveal_strlit("' load-balancing ");
    reveal_strlit("' health check ");
    let a = text::digits(o.targets@.len());
    let b = text::digits(n.targets@.len());
    let target = diff::advisory(
        "upstream"@,
        id,
        "upstream '"@ + id + "' target set changed ("@ + a + " -> "@ + b + " target(s))"@,
    );
    assert(target.summary =~= "upstream '"@ + id + "' target set changed ("@ + (a + " -> "@ + b
        + " target(s))"@));
    lemma_silent(
        target,
        "upstream '"@,
        "' target set changed ("@,
        a + " -> "@ + b + " target(s))"@,
    );
    lemma_tail3("upstream"@, "upstream '"@, "' load-balancing "@);
    lemma_tail1("upstream"@, "upstream '"@, "' health check "@);
    lemma_times();
}

proof fn lemma_listener_quiet(
    before: Seq<Change>,
    o: ListenerConfig,
    n: ListenerConfig,
    x: Change,
)
    requires
        speaks(x),
    ensures
        times(diff::listener_changes(before, o, n), x) == times(before, x),
{
    reveal_strlit("listener");
    reveal_strlit("listener '");
    reveal_strlit("' TLS removed");
    reveal_strlit("' TLS added");
    reveal_strlit("' TLS minimum lowered ");
    reveal_strlit("' TLS minimum raised ");
    reveal_strlit("' client-auth disabled");
    reveal_strlit("' client-auth enabled");
    reveal_strlit("' address ");
    reveal_strlit("' default-route ");
    lemma_tail0("listener"@, "listener '"@, "' TLS removed"@);
    lemma_tail0("listener"@, "listener '"@, "' TLS added"@);
    lemma_tail1("listener"@, "listener '"@, "' TLS minimum lowered "@);
    lemma_tail1("listener"@, "listener '"@, "' TLS minimum raised "@);
    lemma_tail0("listener"@, "listener '"@, "' client-auth disabled"@);
    lemma_tail0("listener"@, "listener '"@, "' client-auth enabled"@);
    lemma_tail3("listener"@, "listener '"@, "' address "@);
    lemma_tail3("listener"@, "listener '"@, "' default-route "@);
    lemma_times();
}

proof fn lemma_agent_quiet(before: Seq<Change>, o: AgentConfig, n: AgentConfig, x: Change)
    requires
        speaks(x),
    ensures
        times(diff::agent_changes(before, o, n), x) == times(before, x),
{
    reveal_strlit("agent");
    reveal_strlit("agent '");
    reveal_strlit("' failure-mode ");
    reveal_strlit("' type changed");
    reveal_strlit("' transport/endpoint changed");
    reveal_strlit("' timeout ");
    let id = o.id@;
    let a = text::digits(o.timeout_ms as nat);
    let b = text::digits(n.timeout_ms as nat);
    let timeout = diff::advisory(
        "agent"@,
        id,
        "agent '"@ + id + "' timeout "@ + a + " -> "@ + b + " ms"@,
    );
    assert(timeout.summary =~= "agent '"@ + id + "' timeout "@ + (a + " -> "@ + b + " ms"@));
    lemma_silent(timeout, "agent '"@, "' timeout "@, a + " -> "@ + b + " ms"@);
    lemma_tail3("agent"@, "agent '"@, "' failure-mode "@);
    lemma_tail0("agent"@, "agent '"@, "' type changed"@);
    lemma_tail0("agent"@, "agent '"@, "' transport/endpoint changed"@);
    lemma_times();
}

proof fn lemma_filter_quiet(
    before: Seq<Change>,
    id: Seq<char>,
    o: FilterConfig,
    n: FilterConfig,
    x: Change,
)
    requires
        speaks(x),
    ensures
        times(diff::filter_changes(before, id, o, n), x) == times(before, x),
{
    reveal_strlit("filter");
    reveal_strlit("filter '");
    reveal_strlit("' type ");
    reveal_strlit("' failure-mode ");
    reveal_strlit("' agent reference '");
    lemma_tail3("filter"@, "filter '"@, "' type "@);
    lemma_tail3("filter"@, "filter '"@, "' failure-mode "@);
    if let (Filter::Agent(oa), Filter::Agent(na)) = (o.filter, n.filter) {
        let (a, b) = (oa.agent@, na.agent@);
        let agent = diff::advisory(
            "filter"@,
            id,
            "filter '"@ + id + "' agent reference '"@ + a + "' -> '"@ + b + "'"@,
        );
        assert(agent.summary =~= "filter '"@ + id + "' agent reference '"@ + (a + "' -> '"@ + b
            + "'"@));
        lemma_silent(agent, "filter '"@, "' agent reference '"@, a + "' -> '"@ + b + "'"@);
    }
    lemma_times();
}

// ---------------------------------------------------------------------------
// Counting
// ---------------------------------------------------------------------------

/// The change is what is said of its entity.
spec fn says(
    x: Change,
    severity: Severity,
    category: Seq<char>,
    head: Seq<char>,
    tail: Seq<char>,
) -> bool {
    x.severity == severity && x.category == category && x.summary == head + x.entity + tail
}

proof fn lemma_missing_times(
    before: Seq<Change>,
    ids: Seq<Seq<char>>,
    others: Seq<Seq<char>>,
    severity: Severity,
    category: Seq<char>,
    head: Seq<char>,
    tail: Seq<char>,
    n: int,
    x: Change,
)
    requires
        0 <= n <= ids.len(),
        ids.no_duplicates(),
    ensures
        times(diff::missing(before, ids, others, severity, category, head, tail, n), x) == times(
            before,
            x,
        ) + once(
            says(x, severity, category, head, tail) && ids.take(n).contains(x.entity)
                && !others.contains(x.entity),
        ),
    decreases n,
{
    if n > 0 {
        let id = ids[n - 1];
        lemma_missing_times(before, ids, others, severity, category, head, tail, n - 1, x);
        lemma_times();
        diff::lemma_last_of(others, id);
        diff::lemma_last_of(others, x.entity);
        lemma_take_contains(ids, n, x.entity);
        let c = Change { severity, category, entity: id, summary: head + id + tail };
        assert((c == x) == (says(x, severity, category, head, tail) && x.entity == id));
        assert(others.contains(id) == (diff::last_of(others, id) >= 0)) by {
            if others.contains(id) {
                let j = choose|j: int| 0 <= j < others.len() && others[j] == id;
                assert(others[j] == id);
            }
        }
    } else {
        assert(ids.take(n) =~= Seq::empty());
    }
}

proof fn lemma_take_contains(ids: Seq<Seq<char>>, n: int, id: Seq<char>)
    requires
        0 < n <= ids.len(),
        ids.no_duplicates(),
    ensures
        ids.take(n).contains(id) == (ids.take(n - 1).contains(id) || ids[n - 1] == id),
        !(ids.take(n - 1).contains(id) && ids[n - 1] == id),
{
    let a = ids.take(n - 1);
    let b = ids.take(n);
    assert(b =~= a.push(ids[n - 1]));
    assert(b[n - 1] == ids[n - 1]);
    if a.contains(id) {
        let j = choose|j: int| 0 <= j < a.len() && a[j] == id;
        assert(b[j] == id && ids[j] == id);
    }
    if b.contains(id) {
        let j = choose|j: int| 0 <= j < b.len() && b[j] == id;
        if j < n - 1 {
            assert(a[j] == id);
        }
    }
}

proof fn lemma_key_of<V>(m: Seq<(Seq<char>, V)>, id: Seq<char>)
    requires
        strmap::sorted(m),
    ensures
        strmap::get(m, id) is None == !keys(m).contains(id),
{
    strmap::lemma_get_none(m, id);
    if keys(m).contains(id) {
        let j = choose|j: int| 0 <= j < keys(m).len() && keys(m)[j] == id;
        assert(m[j].0 == id);
    } else {
        assert forall|i: int| 0 <= i < m.len() implies (#[trigger] m[i]).0 != id by {
            assert(keys(m)[i] == m[i].0);
        }
    }
}

proof fn lemma_old_upstreams_times(
    before: Seq<Change>,
    o: Seq<(Seq<char>, UpstreamConfig)>,
    n: Seq<(Seq<char>, UpstreamConfig)>,
    k: int,
    x: Change,
)
    requires
        0 <= k <= o.len(),
        keys(o).no_duplicates(),
        strmap::sorted(n),
        speaks(x),
    ensures
        times(diff::old_upstreams(before, o, n, k), x) == times(before, x) + once(
            says(x, Severity::High, "upstream"@, "upstream '"@, "' removed"@) && keys(o).take(
                k,
            ).contains(x.entity) && !keys(n).contains(x.entity),
        ),
    decreases k,
{
    if k > 0 {
        let rest = diff::old_upstreams(before, o, n, k - 1);
        let id = o[k - 1].0;
        lemma_old_upstreams_times(before, o, n, k - 1, x);
        lemma_take_contains(keys(o), k, x.entity);
        assert(keys(o)[k - 1] == id);
        lemma_key_of(n, id);
        match strmap::get(n, id) {
            Some(u) => {
                lemma_upstream_quiet(rest, id, o[k - 1].1, u, x);
            },
            None => {
                lemma_times();
                let c = diff::high("upstream"@, id, "upstream '"@ + id + "' removed"@);
                assert((c == x) == (says(
                    x,
                    Severity::High,
                    "upstream"@,
                    "upstream '"@,
                    "' removed"@,
                ) && x.entity == id));
            },
        }
    } else {
        assert(keys(o).take(k) =~= Seq::empty());
    }
}

proof fn lemma_old_filters_times(
    before: Seq<Change>,
    o: Seq<(Seq<char>, FilterConfig)>,
    n: Seq<(Seq<char>, FilterConfig)>,
    k: int,
    x: Change,
)
    requires
        0 <= k <= o.len(),
        keys(o).no_duplicates(),
        strmap::sorted(n),
        speaks(x),
    ensures
        times(diff::old_filters(before, o, n, k), x) == times(before, x) + once(
            says(x, Severity::Advisory, "filter"@, "filter '"@, "' removed"@) && keys(o).take(
                k,
            ).contains(x.entity) && !keys(n).contains(x.entity),
        ),
    decreases k,
{
    if k > 0 {
        let rest = diff::old_filters(before, o, n, k - 1);
        let id = o[k - 1].0;
        lemma_old_filters_times(before, o, n, k - 1, x);
        lemma_take_contains(keys(o), k, x.entity);
        assert(keys(o)[k - 1] == id);
        lemma_key_of(n, id);
        match strmap::get(n, id) {
            Some(f) => {
                lemma_filter_quiet(rest, id, o[k - 1].1, f, x);
            },
            None => {
                lemma_times();
                let c = diff::advisory("filter"@, id, "filter '"@ + id + "' removed"@);
                assert((c == x) == (says(
                    x,
                    Severity::Advisory,
                    "filter"@,
                    "filter '"@,
                    "' removed"@,
                ) && x.entity == id));
            },
        }
    } else {
        assert(keys(o).take(k) =~= Seq::empty());
    }
}

proof fn lemma_new_entries_times<V>(
    before: Seq<Change>,
    o: Seq<(Seq<char>, V)>,
    n: Seq<(Seq<char>, V)>,
    category: Seq<char>,
    k: int,
    x: Change,
)
    requires
        0 <= k <= n.len(),
        keys(n).no_duplicates(),
        strmap::sorted(o),
    ensures
        times(diff::new_entries(before, o, n, category, k), x) == times(before, x) + once(
            says(x, Severity::Advisory, category, category + " '"@, "' added"@) && keys(n).take(
                k,
            ).contains(x.entity) && !keys(o).contains(x.entity),
        ),
    decreases k,
{
    if k > 0 {
        let id = n[k - 1].0;
        lemma_new_entries_times(before, o, n, category, k - 1, x);
        lemma_take_contains(keys(n), k, x.entity);
        assert(keys(n)[k - 1] == id);
        lemma_key_of(o, id);
        lemma_times();
        let c = diff::advisory(category, id, category + " '"@ + id + "' added"@);
        assert((c == x) == (says(x, Severity::Advisory, category, category + " '"@, "' added"@)
            && x.entity == id));
    } else {
        assert(keys(n).take(k) =~= Seq::empty());
    }
}

proof fn lemma_common_routes_quiet(before: Seq<Change>, o: Config, n: Config, k: int, x: Change)
    requires
        speaks(x),
    ensures
        times(diff::common_routes(before, o, n, k), x) == times(before, x),
    decreases k,
{
    if k > 0 {
        let rest = diff::common_routes(before, o, n, k - 1);
        lemma_common_routes_quiet(before, o, n, k - 1, x);
        lemma_route_quiet(
            rest,
            o,
            n,
            k - 1,
            diff::last_of(diff::route_ids(n.routes@), o.routes@[k - 1].id@),
            x,
        );
    }
}

proof fn lemma_common_listeners_quiet(
    before: Seq<Change>,
    o: Seq<ListenerConfig>,
    n: Seq<ListenerConfig>,
    k: int,
    x: Change,
)
    requires
        speaks(x),
    ensures
        times(diff::common_listeners(before, o, n, k), x) == times(before, x),
    decreases k,
{
    if k > 0 {
        lemma_common_listeners_quiet(before, o, n, k - 1, x);
        lemma_listener_quiet(
            diff::common_listeners(before, o, n, k - 1),
            o[k - 1],
            n[diff::last_of(diff::listener_ids(n), o[k - 1].id@)],
            x,
        );
    }
}

proof fn lemma_common_agents_quiet(
    before: Seq<Change>,
    o: Seq<AgentConfig>,
    n: Seq<AgentConfig>,
    k: int,
    x: Change,
)
    requires
        speaks(x),
    ensures
        times(diff::common_agents(before, o, n, k), x) == times(before, x),
    decreases k,
{
    if k > 0 {
        lemma_common_agents_quiet(before, o, n, k - 1, x);
        lemma_agent_quiet(
            diff::common_agents(before, o, n, k - 1),
            o[k - 1],
            n[diff::last_of(diff::agent_ids(n), o[k - 1].id@)],
            x,
        );
    }
}

/// The entity is of the first configuration only.
spec fn lost(a: Config, b: Config, e: Entity, id: Seq<char>) -> bool {
    ids(a, e).contains(id) && !ids(b, e).contains(id)
}

proof fn lemma_routes_times(before: Seq<Change>, o: Config, n: Config, x: Change)
    requires
        unique_ids(o),
        unique_ids(n),
        speaks(x),
    ensures
        times(diff::routes_diff(before, o, n), x) == times(before, x) + once(
            says(x, Severity::High, "route"@, "route '"@, "' removed"@) && lost(
                o,
                n,
                Entity::Route,
                x.entity,
            ),
        ) + once(
            says(x, Severity::Advisory, "route"@, "route '"@, "' added"@) && lost(
                n,
                o,
                Entity::Route,
                x.entity,
            ),
        ),
{
    let p = ids(o, Entity::Route);
    let q = ids(n, Entity::Route);
    let k = p.len() as int;
    let m = q.len() as int;
    assert(p.take(k) =~= p && q.take(m) =~= q);
    lemma_missing_times(before, p, q, Severity::High, "route"@, "route '"@, "' removed"@, k, x);
    let a = diff::missing(before, p, q, Severity::High, "route"@, "route '"@, "' removed"@, k);
    lemma_missing_times(a, q, p, Severity::Advisory, "route"@, "route '"@, "' added"@, m, x);
    let b = diff::missing(a, q, p, Severity::Advisory, "route"@, "route '"@, "' added"@, m);
    lemma_common_routes_quiet(b, o, n, o.routes@.len() as int, x);
}

proof fn lemma_listeners_times(before: Seq<Change>, o: Config, n: Config, x: Change)
    requires
        unique_ids(o),
        unique_ids(n),
        speaks(x),
    ensures
        times(diff::listeners_diff(before, o, n), x) == times(before, x) + once(
            says(x, Severity::High, "listener"@, "listener '"@, "' removed"@) && lost(
                o,
                n,
                Entity::Listener,
                x.entity,
            ),
        ) + once(
            says(x, Severity::Advisory, "listener"@, "listener '"@, "' added"@) && lost(
                n,
                o,
                Entity::Listener,
                x.entity,
            ),
        ),
{
    let p = ids(o, Entity::Listener);
    let q = ids(n, Entity::Listener);
    let k = p.len() as int;
    let m = q.len() as int;
    let head = "listener '"@;
    assert(p.take(k) =~= p && q.take(m) =~= q);
    lemma_missing_times(before, p, q, Severity::High, "listener"@, head, "' removed"@, k, x);
    let a = diff::missing(before, p, q, Severity::High, "listener"@, head, "' removed"@, k);
    lemma_missing_times(a, q, p, Severity::Advisory, "listener"@, head, "' added"@, m, x);
    let b = diff::missing(a, q, p, Severity::Advisory, "listener"@, head, "' added"@, m);
    lemma_common_listeners_quiet(b, o.listeners@, n.listeners@, o.listeners@.len() as int, x);
}

proof fn lemma_agents_times(before: Seq<Change>, o: Config, n: Config, x: Change)
    requires
        unique_ids(o),
        unique_ids(n),
        speaks(x),
    ensures
        times(diff::agents_diff(before, o, n), x) == times(before, x) + once(
            says(
                x,
                Severity::High,
                "agent"@,
                "agent '"@,
                "' removed (routes referencing it will fail)"@,
            ) && lost(o, n, Entity::Agent, x.entity),
        ) + once(
            says(x, Severity::Advisory, "agent"@, "agent '"@, "' added"@) && lost(
                n,
                o,
                Entity::Agent,
                x.entity,
            ),
        ),
{
    let p = ids(o, Entity::Agent);
    let q = ids(n, Entity::Agent);
    let k = p.len() as int;
    let m = q.len() as int;
    let head = "agent '"@;
    let gone = "' removed (routes referencing it will fail)"@;
    assert(p.take(k) =~= p && q.take(m) =~= q);
    lemma_missing_times(before, p, q, Severity::High, "agent"@, head, gone, k, x);
    let a = diff::missing(before, p, q, Severity::High, "agent"@, head, gone, k);
    lemma_missing_times(a, q, p, Severity::Advisory, "agent"@, head, "' added"@, m, x);
    let b = diff::missing(a, q, p, Severity::Advisory, "agent"@, head, "' added"@, m);
    lemma_common_agents_quiet(b, o.agents@, n.agents@, o.agents@.len() as int, x);
}

proof fn lemma_upstreams_times(before: Seq<Change>, o: Config, n: Config, x: Change)
    requires
        unique_ids(o),
        unique_ids(n),
        ordered(o),
        ordered(n),
        speaks(x),
    ensures
        times(diff::upstreams_diff(before, o, n), x) == times(before, x) + once(
            says(x, Severity::High, "upstream"@, "upstream '"@, "' removed"@) && lost(
                o,
                n,
                Entity::Upstream,
                x.entity,
            ),
        ) + once(
            says(x, Severity::Advisory, "upstream"@, "upstream"@ + " '"@, "' added"@) && lost(
                n,
                o,
                Entity::Upstream,
                x.entity,
            ),
        ),
{
    let p = o.upstreams.deep_view();
    let q = n.upstreams.deep_view();
    assert(ids(o, Entity::Upstream) == keys(p) && ids(n, Entity::Upstream) == keys(q));
    assert(keys(p).take(p.len() as int) =~= keys(p) && keys(q).take(q.len() as int) =~= keys(q));
    lemma_old_upstreams_times(before, p, q, p.len() as int, x);
    lemma_new_entries_times(
        diff::old_upstreams(before, p, q, p.len() as int),
        p,
        q,
        "upstream"@,
        q.len() as int,
        x,
    );
}

proof fn lemma_filters_times(before: Seq<Change>, o: Config, n: Config, x: Change)
    requires
        unique_ids(o),
        unique_ids(n),
        ordered(o),
        ordered(n),
        speaks(x),
    ensures
        times(diff::filters_diff(before, o, n), x) == times(before, x) + once(
            says(x, Severity::Advisory, "filter"@, "filter '"@, "' removed"@) && lost(
                o,
                n,
                Entity::Filter,
                x.entity,
            ),
        ) + once(
            says(x, Severity::Advisory, "filter"@, "filter"@ + " '"@, "' added"@) && lost(
                n,
                o,
                Entity::Filter,
                x.entity,
            ),
        ),
{
    let p = o.filters.deep_view();
    let q = n.filters.deep_view();
    assert(ids(o, Entity::Filter) == keys(p) && ids(n, Entity::Filter) == keys(q));
    assert(keys(p).take(p.len() as int) =~= keys(p) && keys(q).take(q.len() as int) =~= keys(q));
    lemma_old_filters_times(before, p, q, p.len() as int, x);
    lemma_new_entries_times(
        diff::old_filters(before, p, q, p.len() as int),
        p,
        q,
        "filter"@,
        q.len() as int,
        x,
    );
}

/// The counts of all reports of one comparison.
spec fn total(o: Config, n: Config, x: Change) -> nat {
    once(
        says(x, Severity::High, "route"@, "route '"@, "' removed"@) && lost(
            o,
            n,
            Entity::Route,
            x.entity,
        ),
    ) + once(
        says(x, Severity::Advisory, "route"@, "route '"@, "' added"@) && lost(
            n,
            o,
            Entity::Route,
            x.entity,
        ),
    ) + once(
        says(x, Severity::High, "upstream"@, "upstream '"@, "' removed"@) && lost(
            o,
            n,
            Entity::Upstream,
            x.entity,
        ),
    ) + once(
        says(x, Severity::Advisory, "upstream"@, "upstream"@ + " '"@, "' added"@) && lost(
            n,
            o,
            Entity::Upstream,
            x.entity,
        ),
    ) + once(
        says(x, Severity::High, "listener"@, "listener '"@, "' removed"@) && lost(
            o,
            n,
            Entity::Listener,
            x.entity,
        ),
    ) + once(
        says(x, Severity::Advisory, "listener"@, "listener '"@, "' added"@) && lost(
            n,
            o,
            Entity::Listener,
            x.entity,
        ),
    ) + once(
        says(
            x,
            Severity::High,
            "agent"@,
            "agent '"@,
            "' removed (routes referencing it will fail)"@,
        ) && lost(o, n, Entity::Agent, x.entity),
    ) + once(
        says(x, Severity::Advisory, "agent"@, "agent '"@, "' added"@) && lost(
            n,
            o,
            Entity::Agent,
            x.entity,
        ),
    ) + once(
        says(x, Severity::Advisory, "filter"@, "filter '"@, "' removed"@) && lost(
            o,
            n,
            Entity::Filter,
            x.entity,
        ),
    ) + once(
        says(x, Severity::Advisory, "filter"@, "filter"@ + " '"@, "' added"@) && lost(
            n,
            o,
            Entity::Filter,
            x.entity,
        ),
    )
}

proof fn lemma_total(o: Config, n: Config, x: Change)
    requires
        unique_ids(o),
        unique_ids(n),
        ordered(o),
        ordered(n),
        speaks(x),
    ensures
        times(diff::high_first(diff::changes(o, n)), x) == total(o, n, x),
{
    let none = Seq::<Change>::empty();
    lemma_times();
    lemma_routes_times(none, o, n, x);
    let r = diff::routes_diff(none, o, n);
    lemma_upstreams_times(r, o, n, x);
    let u = diff::upstreams_diff(r, o, n);
    lemma_listeners_times(u, o, n, x);
    let l = diff::listeners_diff(u, o, n);
    lemma_agents_times(l, o, n, x);
    lemma_filters_times(diff::agents_diff(l, o, n), o, n, x);
    diff::high_changes_come_first(diff::changes(o, n));
    reveal(times);
}

proof fn lemma_categories()
    ensures
        "route"@ != "upstream"@,
        "route"@ != "listener"@,
        "route"@ != "agent"@,
        "route"@ != "filter"@,
        "upstream"@ != "listener"@,
        "upstream"@ != "agent"@,
        "upstream"@ != "filter"@,
        "listener"@ != "agent"@,
        "listener"@ != "filter"@,
        "agent"@ != "filter"@,
{
    reveal_strlit("route");
    reveal_strlit("upstream");
    reveal_strlit("listener");
    reveal_strlit("agent");
    reveal_strlit("filter");
    assert("route"@[0] != "agent"@[0]);
    assert("upstream"@[0] != "listener"@[0]);
}

proof fn lemma_filter_words(id: Seq<char>)
    ensures
        "filter '"@ + id + "' removed"@ != "filter"@ + " '"@ + id + "' added"@,
{
    reveal_strlit("filter '");
    reveal_strlit("filter");
    reveal_strlit(" '");
    reveal_strlit("' removed");
    reveal_strlit("' added");
    let x = "filter '"@ + id + "' removed"@;
    let y = "filter"@ + " '"@ + id + "' added"@;
    assert(x.len() == id.len() + 17);
    assert(y.len() == id.len() + 15);
}

// ---------------------------------------------------------------------------
// The law
// ---------------------------------------------------------------------------

/// The entities that are reported removed on the way from `a` to `b` are those that are
/// reported added on the way back, each once: those of `a` that `b` does not have.
pub proof fn removed_one_way_is_added_the_other(a: Config, b: Config, e: Entity, id: Seq<char>)
    requires
        unique_ids(a),
        unique_ids(b),
        ordered(a),
        ordered(b),
    ensures
        times(diff::high_first(diff::changes(a, b)), removal(e, id)) == once(
            ids(a, e).contains(id) && !ids(b, e).contains(id),
        ),
        times(diff::high_first(diff::changes(b, a)), addition(e, id)) == once(
            ids(a, e).contains(id) && !ids(b, e).contains(id),
        ),
{
    lemma_reports_speak(e, id);
    lemma_total(a, b, removal(e, id));
    lemma_total(b, a, addition(e, id));
    lemma_categories();
    lemma_filter_words(id);
}

} // verus!
