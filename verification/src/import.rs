//! Turning Apache virtual hosts into a configuration in KDL form.

use crate::addr;
use crate::addr::IpAddr;
use crate::apache;
use crate::apache::{Host, ImportError, Note, Pass, ProxyPass, Remark, VirtualHost};
use crate::naming;
use crate::strmap;
use crate::strmap::StringMap;
use crate::text;
use vstd::prelude::*;
use vstd::string::*;
use vstd::utf8::*;

verus! {

/// Inputs larger than this are refused.
pub const MAX_INPUT_BYTES: usize = 4194304;

/// Base priority of generated routes.
pub const BASE_ROUTE_PRIORITY: usize = 50;

// ---------------------------------------------------------------------------
// Certificates
// ---------------------------------------------------------------------------

/// How a block is named in notes.
pub open spec fn block_name(h: Host) -> Seq<char> {
    "<VirtualHost "@ + h.address + ">"@
}

/// What is wrong with the certificate settings of a block.
pub open spec fn cert_error(h: Host) -> Option<Seq<char>> {
    if h.cert is Some && h.key is None {
        Some(
            apache::at_line(h.line, "SSLCertificateFile without SSLCertificateKeyFile"@),
        )
    } else if h.cert is None && h.key is Some {
        Some(
            apache::at_line(h.line, "SSLCertificateKeyFile without SSLCertificateFile"@),
        )
    } else {
        None
    }
}

/// The notes after checking some blocks, and the error that stopped the check.
pub open spec fn certs_checked(hosts: Seq<Host>, notes: Seq<Remark>) -> (
    Seq<Remark>,
    Option<Seq<char>>,
)
    decreases hosts.len(),
{
    if hosts.len() == 0 {
        (notes, None)
    } else {
        let before = certs_checked(hosts.drop_last(), notes);
        let h = hosts.last();
        if before.1 is Some {
            before
        } else if cert_error(h) is Some {
            (before.0, cert_error(h))
        } else if h.ssl_engine && !apache::has_certs(h) {
            (
                before.0.push(
                    apache::remark(
                        h.line,
                        block_name(h),
                        "SSLEngine on but no SSLCertificateFile — TLS not emitted for this vhost"@,
                    ),
                ),
                None,
            )
        } else {
            before
        }
    }
}

fn name_of_block(h: &VirtualHost) -> (r: String)
    ensures
        r@ == block_name(h.deep_view()),
{
    apache::cat3("<VirtualHost ", h.address.as_str(), ">")
}

proof fn lemma_certs_stop(hosts: Seq<Host>, notes: Seq<Remark>, n: int)
    requires
        0 <= n <= hosts.len(),
        certs_checked(hosts.take(n), notes).1 is Some,
    ensures
        certs_checked(hosts, notes) == certs_checked(hosts.take(n), notes),
    decreases hosts.len(),
{
    if n == hosts.len() {
        assert(hosts.take(n) =~= hosts);
    } else {
        assert(hosts.drop_last().take(n) =~= hosts.take(n));
        lemma_certs_stop(hosts.drop_last(), notes, n);
    }
}

fn check_certs(hosts: &Vec<VirtualHost>, notes: &mut Vec<Note>) -> (r: Option<ImportError>)
    ensures
        ({
            let c = certs_checked(hosts.deep_view(), old(notes).deep_view());
            final(notes).deep_view() == c.0 && match r {
                Some(e) => c.1 == Some(e@),
                None => c.1 is None,
            }
        }),
{
    let ghost all = hosts.deep_view();
    let ghost given = notes.deep_view();
    let mut i: usize = 0;
    assert(all.take(0) =~= Seq::<Host>::empty());
    while i < hosts.len()
        invariant
            i <= hosts@.len(),
            all == hosts.deep_view(),
            all.len() == hosts@.len(),
            given == old(notes).deep_view(),
            certs_checked(all.take(i as int), given) == (notes.deep_view(), None::<Seq<char>>),
        decreases hosts.len() - i,
    {
        let h = &hosts[i];
        proof {
            assert(all.take(i + 1).drop_last() =~= all.take(i as int));
            assert(all.take(i + 1).last() == h.deep_view());
            if cert_error(h.deep_view()) is Some {
                lemma_certs_stop(all, given, i + 1);
            }
        }
        if h.cert_file.is_some() && h.key_file.is_none() {
            return Some(
                apache::line_error(
                    h.line,
                    "SSLCertificateFile without SSLCertificateKeyFile",
                ),
            );
        }
        if h.cert_file.is_none() && h.key_file.is_some() {
            return Some(
                apache::line_error(
                    h.line,
                    "SSLCertificateKeyFile without SSLCertificateFile",
                ),
            );
        }
        if h.ssl_engine && !h.has_certs() {
            let name = name_of_block(h);
            apache::push_note(
                notes,
                h.line,
                name.as_str(),
                "SSLEngine on but no SSLCertificateFile — TLS not emitted for this vhost".to_owned(),
            );
        }
        i = i + 1;
    }
    assert(all.take(i as int) =~= all);
    None
}

// ---------------------------------------------------------------------------
// Addresses
// ---------------------------------------------------------------------------

/// A bindable address and its port, with the notes that go with it.
#[verifier::ext_equal]
pub ghost struct Bound {
    pub address: Seq<char>,
    pub port: u16,
    pub notes: Seq<Remark>,
}

/// The host is bound to all addresses.
pub open spec fn binds_all(host: Seq<char>) -> bool {
    host == "*"@ || text::eq_ignore_case(host, "_default_"@)
}

/// The address that a host part binds to; host names bind to all addresses.
pub open spec fn bind_host(host: Seq<char>) -> Seq<char> {
    if !binds_all(host) && addr::parse_ip(host) is Some {
        host
    } else {
        "0.0.0.0"@
    }
}

/// `host:port`, with brackets round a host that holds a colon.
pub open spec fn endpoint(host: Seq<char>, port: u16) -> Seq<char> {
    if host.contains(':') {
        "["@ + host + "]:"@ + text::digits(port as nat)
    } else {
        host + ":"@ + text::digits(port as nat)
    }
}

/// The address of a block; assumptions are noted.
pub open spec fn bound(
    h: Host,
    host: Seq<char>,
    port: Option<u16>,
    default_port: u16,
    notes: Seq<Remark>,
) -> Bound {
    let a = if !binds_all(host) && addr::parse_ip(host) is None {
        notes.push(
            apache::remark(
                h.line,
                block_name(h),
                "address '"@ + host
                    + "' is a hostname; listener bound to 0.0.0.0 — restrict manually if needed"@,
            ),
        )
    } else {
        notes
    };
    match port {
        Some(p) => Bound { address: endpoint(bind_host(host), p), port: p, notes: a },
        None => Bound {
            address: endpoint(bind_host(host), default_port),
            port: default_port,
            notes: a.push(
                apache::remark(
                    h.line,
                    block_name(h),
                    "no port in address; assumed "@ + text::digits(default_port as nat),
                ),
            ),
        },
    }
}

/// The port that a block gets without one: that of HTTPS with certificates.
pub open spec fn default_port(h: Host) -> u16 {
    if apache::has_certs(h) {
        443
    } else {
        80
    }
}

/// The bindable address of a block, or what is wrong with the one it has.
pub open spec fn normalized(h: Host, notes: Seq<Remark>) -> Result<Bound, Seq<char>> {
    let raw = h.address;
    let d = default_port(h);
    if ":*"@.is_suffix_of(raw) {
        Ok(bound(h, raw.take(raw.len() - 2), None, d, notes))
    } else if (raw.len() > 0 && raw[0] == '[') || raw.contains(':') {
        match apache::host_port(raw, d) {
            Err(reason) => Err(apache::at_line(h.line, reason)),
            Ok((host, port)) => Ok(
                bound(
                    h,
                    host,
                    if (":"@ + text::digits(port as nat)).is_suffix_of(raw) {
                        Some(port)
                    } else {
                        None
                    },
                    d,
                    notes,
                ),
            ),
        }
    } else {
        Ok(bound(h, raw, None, d, notes))
    }
}

fn endpoint_text(host: &str, port: u16) -> (r: String)
    ensures
        r@ == endpoint(host@, port),
{
    let n = text::decimal(port as u64);
    if text::contains_char(host, ':') {
        let mut out = apache::cat3("[", host, "]:");
        out.append(n.as_str());
        out
    } else {
        apache::cat3(host, ":", n.as_str())
    }
}

fn finish_address(
    h: &VirtualHost,
    host: &str,
    port: Option<u16>,
    default_port: u16,
    notes: &mut Vec<Note>,
) -> (r: (String, u16))
    ensures
        (Bound { address: r.0@, port: r.1, notes: final(notes).deep_view() }) == bound(
            h.deep_view(),
            host@,
            port,
            default_port,
            old(notes).deep_view(),
        ),
{
    let bind = if text::same(host, "*") || text::same_ignore_case(host, "_default_") {
        "0.0.0.0"
    } else if IpAddr::parse(host).is_some() {
        host
    } else {
        let name = name_of_block(h);
        let detail = apache::cat3(
            "address '",
            host,
            "' is a hostname; listener bound to 0.0.0.0 — restrict manually if needed",
        );
        apache::push_note(notes, h.line, name.as_str(), detail);
        "0.0.0.0"
    };
    let port: u16 = match port {
        Some(p) => p,
        None => {
            let name = name_of_block(h);
            let n = text::decimal(default_port as u64);
            let mut detail = "no port in address; assumed ".to_owned();
            detail.append(n.as_str());
            apache::push_note(notes, h.line, name.as_str(), detail);
            default_port
        },
    };
    (endpoint_text(bind, port), port)
}

/// [`normalized`] on a block.
pub fn normalize_vhost_address(h: &VirtualHost, notes: &mut Vec<Note>) -> (r: Result<
    (String, u16),
    ImportError,
>)
    ensures
        (match normalized(h.deep_view(), old(notes).deep_view()) {
            Ok(b) => r matches Ok(p) && (Bound {
                address: p.0@,
                port: p.1,
                notes: final(notes).deep_view(),
            }) == b,
            Err(m) => r matches Err(e) && e@ == m && final(notes).deep_view() == old(
                notes,
            ).deep_view(),
        }),
{
    let raw = h.address.as_str();
    let d: u16 = if h.has_certs() {
        443
    } else {
        80
    };
    let v = text::chars_of(raw);
    if text::ends_with(raw, ":*") {
        proof {
            reveal_strlit(":*");
        }
        let host = text::string_of_range(v.as_slice(), 0, v.len() - 2);
        assert(host@ =~= raw@.take(raw@.len() - 2));
        return Ok(finish_address(h, host.as_str(), None, d, notes));
    }
    if (v.len() > 0 && v[0] == '[') || text::contains_char(raw, ':') {
        match apache::split_host_port(raw, d) {
            Err(reason) => Err(apache::line_error(h.line, reason.as_str())),
            Ok((host, port)) => {
                let n = text::decimal(port as u64);
                let mut suffix = ":".to_owned();
                suffix.append(n.as_str());
                let written = if text::ends_with(raw, suffix.as_str()) {
                    Some(port)
                } else {
                    None
                };
                Ok(finish_address(h, host.as_str(), written, d, notes))
            },
        }
    } else {
        Ok(finish_address(h, raw, None, d, notes))
    }
}

// ---------------------------------------------------------------------------
// Groups
// ---------------------------------------------------------------------------

/// The blocks that share an address, by index.
#[derive(Debug)]
pub struct Group {
    port: u16,
    members: Vec<usize>,
}

/// A group as plain values.
#[verifier::ext_equal]
pub ghost struct Members {
    pub port: u16,
    pub members: Seq<usize>,
}

impl DeepView for Group {
    type V = Members;

    closed spec fn deep_view(&self) -> Members {
        Members { port: self.port, members: self.members@ }
    }
}

/// One more block with an address.
pub open spec fn group_step(
    groups: Seq<(Seq<char>, Members)>,
    address: Seq<char>,
    port: u16,
    index: usize,
) -> Seq<(Seq<char>, Members)> {
    strmap::insert(
        groups,
        address,
        match strmap::get(groups, address) {
            Some(g) => Members { members: g.members.push(index), ..g },
            None => Members { port, members: seq![index] },
        },
    )
}

/// Groups and notes so far, and the error that stopped the grouping.
pub ghost struct Grouping {
    pub groups: Seq<(Seq<char>, Members)>,
    pub notes: Seq<Remark>,
    pub error: Option<Seq<char>>,
}

/// The first `n` blocks by address.
pub open spec fn grouped(hosts: Seq<Host>, notes: Seq<Remark>, n: int) -> Grouping
    decreases n,
{
    if n <= 0 {
        Grouping { groups: Seq::empty(), notes, error: None }
    } else {
        let before = grouped(hosts, notes, n - 1);
        if before.error is Some {
            before
        } else {
            match normalized(hosts[n - 1], before.notes) {
                Ok(b) => Grouping {
                    groups: group_step(before.groups, b.address, b.port, (n - 1) as usize),
                    notes: b.notes,
                    error: None,
                },
                Err(m) => Grouping { error: Some(m), ..before },
            }
        }
    }
}

/// Every member is the index of a block.
pub open spec fn members_in(groups: Seq<(Seq<char>, Members)>, n: int) -> bool {
    forall|g: int, m: int|
        0 <= g < groups.len() && 0 <= m < groups[g].1.members.len()
            ==> #[trigger] groups[g].1.members[m] < n
}

proof fn lemma_members_step(
    groups: Seq<(Seq<char>, Members)>,
    address: Seq<char>,
    port: u16,
    index: usize,
)
    requires
        members_in(groups, index as int),
    ensures
        members_in(group_step(groups, address, port, index), index + 1),
{
    let after = group_step(groups, address, port, index);
    strmap::lemma_rank(groups, address);
    let i = strmap::rank(groups, address);
    assert forall|g: int, m: int|
        0 <= g < after.len() && 0 <= m < after[g].1.members.len() implies #[trigger] after[g].1.members[m]
        < index + 1 by {
        if i < groups.len() && groups[i].0 == address {
            if g == i {
                if m < groups[i].1.members.len() {
                    assert(groups[i].1.members[m] < index);
                }
            } else {
                assert(after[g] == groups[g]);
                assert(groups[g].1.members[m] < index);
            }
        } else if g < i {
            assert(after[g] == groups[g]);
            assert(groups[g].1.members[m] < index);
        } else if g > i {
            assert(after[g] == groups[g - 1]);
            assert(groups[g - 1].1.members[m] < index);
        }
    }
}

proof fn lemma_grouping_stops(hosts: Seq<Host>, notes: Seq<Remark>, n: int, m: int)
    requires
        0 <= n <= m,
        grouped(hosts, notes, n).error is Some,
    ensures
        grouped(hosts, notes, m) == grouped(hosts, notes, n),
    decreases m,
{
    if n < m {
        lemma_grouping_stops(hosts, notes, n, m - 1);
    }
}

proof fn lemma_put_back<W>(m: Seq<(Seq<char>, W)>, k: Seq<char>, v: W)
    requires
        strmap::sorted(m),
        strmap::get(m, k) is Some,
    ensures
        strmap::insert(m.remove(strmap::rank(m, k)), k, v) == strmap::insert(m, k, v),
{
    let i = strmap::rank(m, k);
    strmap::lemma_rank(m, k);
    let n = m.remove(i);
    assert forall|j: int| 0 <= j < i implies text::text_lt(#[trigger] n[j].0, k) by {
        assert(n[j] == m[j]);
    }
    if i < n.len() {
        assert(n[i] == m[i + 1]);
        assert(text::text_lt(m[i].0, m[i + 1].0));
        if text::text_lt(n[i].0, k) {
            text::lemma_text_lt_transitive(k, n[i].0, k);
            text::lemma_text_lt_irreflexive(k);
        }
        text::lemma_text_lt_irreflexive(k);
    }
    strmap::lemma_rank_unique(n, k, i);
    assert(strmap::insert(n, k, v) =~= strmap::insert(m, k, v));
}

fn add_to_group(groups: &mut StringMap<Group>, address: String, port: u16, index: usize)
    ensures
        final(groups).deep_view() == group_step(
            old(groups).deep_view(),
            address@,
            port,
            index,
        ),
{
    let ghost before = groups.deep_view();
    let n = groups.len();
    match groups.take(address.as_str()) {
        Some(g) => {
            let mut g = g;
            let ghost gv = g.deep_view();
            g.members.push(index);
            assert(g.deep_view() =~= Members { members: gv.members.push(index), ..gv });
            proof {
                lemma_put_back(before, address@, g.deep_view());
            }
            groups.insert(address, g);
        },
        None => {
            let mut members: Vec<usize> = Vec::new();
            members.push(index);
            assert(members@ =~= seq![index]);
            let g = Group { port, members };
            assert(g.deep_view() =~= Members { port, members: seq![index] });
            groups.insert(address, g);
        },
    }
}

fn group_by_address(hosts: &Vec<VirtualHost>, notes: &mut Vec<Note>) -> (r: Result<
    StringMap<Group>,
    ImportError,
>)
    ensures
        ({
            let g = grouped(hosts.deep_view(), old(notes).deep_view(), hosts@.len() as int);
            final(notes).deep_view() == g.notes && match r {
                Ok(m) => g.error is None && m.deep_view() == g.groups && members_in(
                    g.groups,
                    hosts@.len() as int,
                ),
                Err(e) => g.error == Some(e@),
            }
        }),
{
    let ghost all = hosts.deep_view();
    let ghost given = notes.deep_view();
    let mut groups: StringMap<Group> = StringMap::new();
    let mut i: usize = 0;
    while i < hosts.len()
        invariant
            i <= hosts@.len(),
            all == hosts.deep_view(),
            all.len() == hosts@.len(),
            given == old(notes).deep_view(),
            members_in(groups.deep_view(), i as int),
            grouped(all, given, i as int) == (Grouping {
                groups: groups.deep_view(),
                notes: notes.deep_view(),
                error: None,
            }),
        decreases hosts.len() - i,
    {
        let h = &hosts[i];
        assert(all[i as int] == h.deep_view());
        match normalize_vhost_address(h, notes) {
            Ok((address, port)) => {
                proof {
                    lemma_members_step(groups.deep_view(), address@, port, i);
                }
                add_to_group(&mut groups, address, port, i);
            },
            Err(e) => {
                proof {
                    lemma_grouping_stops(all, given, i + 1, hosts@.len() as int);
                }
                return Err(e);
            },
        }
        i = i + 1;
    }
    Ok(groups)
}

// ---------------------------------------------------------------------------
// Listeners
// ---------------------------------------------------------------------------

/// The members of a group that have certificates.
pub open spec fn tls_members(hosts: Seq<Host>, members: Seq<usize>) -> Seq<usize>
    decreases members.len(),
{
    if members.len() == 0 {
        Seq::empty()
    } else {
        let rest = tls_members(hosts, members.drop_last());
        if apache::has_certs(hosts[members.last() as int]) {
            rest.push(members.last())
        } else {
            rest
        }
    }
}

/// The line of the first member from `from` on that has no certificate.
pub open spec fn plain_line(hosts: Seq<Host>, members: Seq<usize>, from: int) -> Option<nat>
    decreases members.len() - from,
{
    if from < 0 || from >= members.len() {
        None
    } else if !apache::has_certs(hosts[members[from] as int]) {
        Some(hosts[members[from] as int].line)
    } else {
        plain_line(hosts, members, from + 1)
    }
}

/// An optional text, or nothing.
pub open spec fn or_empty(o: Option<Seq<char>>) -> Seq<char> {
    match o {
        Some(s) => s,
        None => ""@,
    }
}

/// The names of a block.
pub open spec fn names_of(h: Host) -> Seq<Seq<char>> {
    match h.server_name {
        Some(n) => seq![n] + h.aliases,
        None => h.aliases,
    }
}

/// A name in quotes.
pub open spec fn quoted(s: Seq<char>) -> Seq<char> {
    "\""@ + naming::escaped(s) + "\""@
}

/// Text and notes so far.
#[verifier::ext_equal]
pub ghost struct Draft {
    pub text: Seq<char>,
    pub notes: Seq<Remark>,
}

/// The certificate of one more TLS block on a listener.
pub open spec fn sni_step(d: Draft, first: Host, h: Host) -> Draft {
    if h.cert == first.cert && h.key == first.key {
        d
    } else if names_of(h).len() == 0 {
        Draft {
            notes: d.notes.push(
                apache::remark(
                    h.line,
                    block_name(h),
                    "has its own certificate but no ServerName — SNI certificate NOT emitted"@,
                ),
            ),
            ..d
        }
    } else {
        Draft {
            text: d.text + "            sni {\n                hostnames "@ + text::join(
                names_of(h).map_values(|n: Seq<char>| quoted(n)),
                " "@,
            ) + "\n                cert-file \""@ + naming::escaped(or_empty(h.cert))
                + "\"\n                key-file \""@ + naming::escaped(or_empty(h.key))
                + "\"\n            }\n"@,
            ..d
        }
    }
}

/// The certificates of the TLS blocks up to `n`, after the first.
pub open spec fn sni_blocks(d: Draft, hosts: Seq<Host>, tls: Seq<usize>, n: int) -> Draft
    decreases n,
{
    if n <= 1 {
        d
    } else {
        sni_step(sni_blocks(d, hosts, tls, n - 1), hosts[tls[0] as int], hosts[tls[n - 1] as int])
    }
}

/// Listener text, identifiers in use, and notes.
#[verifier::ext_equal]
pub ghost struct Listening {
    pub text: Seq<char>,
    pub ids: Seq<Seq<char>>,
    pub notes: Seq<Remark>,
}

/// The note where a plain block shares an address with TLS blocks.
pub open spec fn mixed_notes(
    hosts: Seq<Host>,
    address: Seq<char>,
    g: Members,
    notes: Seq<Remark>,
) -> Seq<Remark> {
    match plain_line(hosts, g.members, 0) {
        Some(line) => if tls_members(hosts, g.members).len() > 0 {
            notes.push(
                apache::remark(
                    line,
                    "<VirtualHost on "@ + address + ">"@,
                    "shares an address with TLS vhosts; this vhost is served over HTTPS too"@,
                ),
            )
        } else {
            notes
        },
        None => notes,
    }
}

/// The head of a listener.
pub open spec fn listener_head(id: Seq<char>, address: Seq<char>, tls: bool) -> Seq<char> {
    "    listener \""@ + id + "\" {\n        address \""@ + naming::escaped(address)
        + "\"\n        protocol \""@ + (if tls {
        "https"@
    } else {
        "http"@
    }) + "\"\n"@
}

/// The head of the TLS settings of a listener.
pub open spec fn tls_head(first: Host) -> Seq<char> {
    "        tls {\n            cert-file \""@ + naming::escaped(or_empty(first.cert))
        + "\"\n            key-file \""@ + naming::escaped(or_empty(first.key)) + "\"\n"@
}

/// One more listener.
pub open spec fn listener_step(
    l: Listening,
    hosts: Seq<Host>,
    address: Seq<char>,
    g: Members,
) -> Listening {
    let tls = tls_members(hosts, g.members);
    let notes = mixed_notes(hosts, address, g, l.notes);
    let id = naming::unique("apache-"@ + text::digits(g.port as nat), l.ids);
    let head = l.text + listener_head(id, address, tls.len() > 0);
    if tls.len() > 0 {
        let d = sni_blocks(
            Draft { text: head + tls_head(hosts[tls[0] as int]), notes },
            hosts,
            tls,
            tls.len() as int,
        );
        Listening {
            text: d.text + "        }\n"@ + "    }\n"@,
            ids: l.ids.push(id),
            notes: d.notes,
        }
    } else {
        Listening { text: head + "    }\n"@, ids: l.ids.push(id), notes }
    }
}

/// The listeners of the first `n` groups.
pub open spec fn listeners_of(
    hosts: Seq<Host>,
    groups: Seq<(Seq<char>, Members)>,
    notes: Seq<Remark>,
    n: int,
) -> Listening
    decreases n,
{
    if n <= 0 {
        Listening { text: ""@, ids: Seq::empty(), notes }
    } else {
        listener_step(
            listeners_of(hosts, groups, notes, n - 1),
            hosts,
            groups[n - 1].0,
            groups[n - 1].1,
        )
    }
}

fn list_tls(hosts: &Vec<VirtualHost>, members: &Vec<usize>) -> (r: Vec<usize>)
    requires
        forall|m: int| 0 <= m < members@.len() ==> (#[trigger] members@[m]) < hosts@.len(),
    ensures
        r@ == tls_members(hosts.deep_view(), members@),
        forall|m: int| 0 <= m < r@.len() ==> (#[trigger] r@[m]) < hosts@.len(),
{
    let mut out: Vec<usize> = Vec::new();
    let mut i: usize = 0;
    assert(out@ =~= tls_members(hosts.deep_view(), members@.take(0)));
    while i < members.len()
        invariant
            i <= members@.len(),
            forall|m: int| 0 <= m < members@.len() ==> (#[trigger] members@[m]) < hosts@.len(),
            forall|m: int| 0 <= m < out@.len() ==> (#[trigger] out@[m]) < hosts@.len(),
            out@ == tls_members(hosts.deep_view(), members@.take(i as int)),
        decreases members.len() - i,
    {
        assert(members@.take(i + 1).drop_last() =~= members@.take(i as int));
        assert(members@.take(i + 1).last() == members@[i as int]);
        let k = members[i];
        assert(hosts.deep_view()[k as int] == hosts@[k as int].deep_view());
        if hosts[k].has_certs() {
            out.push(k);
        }
        i = i + 1;
    }
    assert(members@.take(i as int) =~= members@);
    out
}

fn find_plain(hosts: &Vec<VirtualHost>, members: &Vec<usize>) -> (r: Option<usize>)
    requires
        forall|m: int| 0 <= m < members@.len() ==> (#[trigger] members@[m]) < hosts@.len(),
    ensures
        (match r {
            Some(n) => plain_line(hosts.deep_view(), members@, 0) == Some(n as nat),
            None => plain_line(hosts.deep_view(), members@, 0) is None,
        }),
{
    let mut i: usize = 0;
    while i < members.len()
        invariant
            i <= members@.len(),
            forall|m: int| 0 <= m < members@.len() ==> (#[trigger] members@[m]) < hosts@.len(),
            plain_line(hosts.deep_view(), members@, 0) == plain_line(
                hosts.deep_view(),
                members@,
                i as int,
            ),
        decreases members.len() - i,
    {
        let k = members[i];
        assert(hosts.deep_view()[k as int] == hosts@[k as int].deep_view());
        if !hosts[k].has_certs() {
            return Some(hosts[k].line);
        }
        i = i + 1;
    }
    None
}

fn text_or_empty(o: &Option<String>) -> (r: &str)
    ensures
        r@ == or_empty(o.deep_view()),
{
    match o {
        Some(s) => s.as_str(),
        None => "",
    }
}

fn quoted_names(h: &VirtualHost) -> (r: Vec<String>)
    ensures
        r.deep_view() == names_of(h.deep_view()).map_values(|n: Seq<char>| quoted(n)),
        r@.len() == names_of(h.deep_view()).len(),
{
    let ghost names = names_of(h.deep_view());
    let mut out: Vec<String> = Vec::new();
    if let Some(n) = &h.server_name {
        let e = naming::kdl_escape(n.as_str());
        out.push(apache::cat3("\"", e.as_str(), "\""));
    }
    let ghost k = out@.len();
    let mut i: usize = 0;
    while i < h.aliases.len()
        invariant
            i <= h.aliases@.len(),
            out@.len() == k + i,
            names == names_of(h.deep_view()),
            names.len() == k + h.aliases@.len(),
            forall|j: int|
                0 <= j < h.aliases@.len() ==> names[k + j] == (#[trigger] h.aliases@[j])@,
            forall|j: int| 0 <= j < k + i ==> (#[trigger] out@[j])@ == quoted(names[j]),
        decreases h.aliases.len() - i,
    {
        let e = naming::kdl_escape(h.aliases[i].as_str());
        assert(names[k + i] == h.aliases@[i as int]@);
        out.push(apache::cat3("\"", e.as_str(), "\""));
        i = i + 1;
    }
    assert(out.deep_view() =~= names.map_values(|n: Seq<char>| quoted(n)));
    out
}

fn push_sni(out: &mut String, notes: &mut Vec<Note>, first: &VirtualHost, h: &VirtualHost)
    ensures
        (Draft { text: final(out)@, notes: final(notes).deep_view() }) == sni_step(
            (Draft { text: old(out)@, notes: old(notes).deep_view() }),
            first.deep_view(),
            h.deep_view(),
        ),
{
    if text::same_option(&h.cert_file, &first.cert_file) && text::same_option(
        &h.key_file,
        &first.key_file,
    ) {
        return;
    }
    let names = quoted_names(h);
    if names.len() == 0 {
        let name = name_of_block(h);
        apache::push_note(
            notes,
            h.line,
            name.as_str(),
            "has its own certificate but no ServerName — SNI certificate NOT emitted".to_owned(),
        );
        return;
    }
    let list = text::join_with(&names, " ");
    let cert = naming::kdl_escape(text_or_empty(&h.cert_file));
    let key = naming::kdl_escape(text_or_empty(&h.key_file));
    out.append("            sni {\n                hostnames ");
    out.append(list.as_str());
    out.append("\n                cert-file \"");
    out.append(cert.as_str());
    out.append("\"\n                key-file \"");
    out.append(key.as_str());
    out.append("\"\n            }\n");
}

fn push_sni_blocks(
    out: &mut String,
    notes: &mut Vec<Note>,
    hosts: &Vec<VirtualHost>,
    tls: &Vec<usize>,
)
    requires
        tls@.len() > 0,
        forall|m: int| 0 <= m < tls@.len() ==> (#[trigger] tls@[m]) < hosts@.len(),
    ensures
        (Draft { text: final(out)@, notes: final(notes).deep_view() }) == sni_blocks(
            (Draft { text: old(out)@, notes: old(notes).deep_view() }),
            hosts.deep_view(),
            tls@,
            tls@.len() as int,
        ),
{
    let ghost d = Draft { text: out@, notes: notes.deep_view() };
    let first = &hosts[tls[0]];
    let mut i: usize = 1;
    while i < tls.len()
        invariant
            1 <= i <= tls@.len(),
            forall|m: int| 0 <= m < tls@.len() ==> (#[trigger] tls@[m]) < hosts@.len(),
            *first == hosts@[tls@[0] as int],
            (Draft { text: out@, notes: notes.deep_view() }) == sni_blocks(
                d,
                hosts.deep_view(),
                tls@,
                i as int,
            ),
        decreases tls.len() - i,
    {
        let k = tls[i];
        assert(hosts.deep_view()[k as int] == hosts@[k as int].deep_view());
        assert(hosts.deep_view()[tls@[0] as int] == first.deep_view());
        push_sni(out, notes, first, &hosts[k]);
        i = i + 1;
    }
}

fn push_listener(
    out: &mut String,
    ids: &mut Vec<String>,
    notes: &mut Vec<Note>,
    hosts: &Vec<VirtualHost>,
    address: &str,
    group: &Group,
)
    requires
        forall|m: int|
            0 <= m < group.members@.len() ==> (#[trigger] group.members@[m]) < hosts@.len(),
    ensures
        (Listening {
            text: final(out)@,
            ids: final(ids).deep_view(),
            notes: final(notes).deep_view(),
        }) == listener_step(
            (Listening {
                text: old(out)@,
                ids: old(ids).deep_view(),
                notes: old(notes).deep_view(),
            }),
            hosts.deep_view(),
            address@,
            group.deep_view(),
        ),
{
    let ghost hv = hosts.deep_view();
    let tls = list_tls(hosts, &group.members);
    let protocol = if tls.len() > 0 {
        "https"
    } else {
        "http"
    };
    match find_plain(hosts, &group.members) {
        Some(line) => {
            if tls.len() > 0 {
                let name = apache::cat3("<VirtualHost on ", address, ">");
                apache::push_note(
                    notes,
                    line,
                    name.as_str(),
                    "shares an address with TLS vhosts; this vhost is served over HTTPS too".to_owned(),
                );
            }
        },
        None => {},
    }
    let n = text::decimal(group.port as u64);
    let mut base = "apache-".to_owned();
    base.append(n.as_str());
    let id = naming::unique_id(base.as_str(), ids);
    let shown = naming::kdl_escape(address);
    let mut head = "    listener \"".to_owned();
    head.append(id.as_str());
    head.append("\" {\n        address \"");
    head.append(shown.as_str());
    head.append("\"\n        protocol \"");
    head.append(protocol);
    head.append("\"\n");
    out.append(head.as_str());
    if tls.len() > 0 {
        let first = &hosts[tls[0]];
        assert(hv[tls@[0] as int] == first.deep_view());
        let cert = naming::kdl_escape(text_or_empty(&first.cert_file));
        let key = naming::kdl_escape(text_or_empty(&first.key_file));
        let mut block = "        tls {\n            cert-file \"".to_owned();
        block.append(cert.as_str());
        block.append("\"\n            key-file \"");
        block.append(key.as_str());
        block.append("\"\n");
        out.append(block.as_str());
        push_sni_blocks(out, notes, hosts, &tls);
        out.append("        }\n");
    }
    out.append("    }\n");
}

fn emit_listeners(hosts: &Vec<VirtualHost>, groups: &StringMap<Group>, notes: &mut Vec<Note>) -> (r:
    String)
    requires
        members_in(groups.deep_view(), hosts@.len() as int),
    ensures
        ({
            let l = listeners_of(
                hosts.deep_view(),
                groups.deep_view(),
                old(notes).deep_view(),
                groups.deep_view().len() as int,
            );
            r@ == l.text && final(notes).deep_view() == l.notes
        }),
{
    let ghost given = notes.deep_view();
    let mut out = "".to_owned();
    let mut ids: Vec<String> = Vec::new();
    let len = groups.len();
    let mut i: usize = 0;
    assert(ids.deep_view() =~= Seq::<Seq<char>>::empty());
    while i < len
        invariant
            i <= len,
            len == groups.deep_view().len(),
            members_in(groups.deep_view(), hosts@.len() as int),
            (Listening { text: out@, ids: ids.deep_view(), notes: notes.deep_view() })
                == listeners_of(hosts.deep_view(), groups.deep_view(), given, i as int),
        decreases len - i,
    {
        let group = groups.value_at(i);
        assert forall|m: int| 0 <= m < group.members@.len() implies (#[trigger] group.members@[m])
            < hosts@.len() by {
            assert(groups.deep_view()[i as int].1.members[m] < hosts@.len());
        }
        push_listener(&mut out, &mut ids, notes, hosts, groups.key_at(i).as_str(), group);
        i = i + 1;
    }
    out
}

// ---------------------------------------------------------------------------
// Routes and upstreams
// ---------------------------------------------------------------------------

/// An upstream of the generated configuration.
#[derive(Debug)]
struct Upstream {
    host: String,
    port: u16,
    tls: bool,
    name: String,
}

/// An upstream as plain values.
#[verifier::ext_equal]
pub ghost struct Up {
    pub host: Seq<char>,
    pub port: u16,
    pub tls: bool,
    pub name: Seq<char>,
}

impl DeepView for Upstream {
    type V = Up;

    closed spec fn deep_view(&self) -> Up {
        Up { host: self.host@, port: self.port, tls: self.tls, name: self.name@ }
    }
}

/// A route of the generated configuration.
#[derive(Debug)]
struct Route {
    id: String,
    priority: u128,
    host: Option<String>,
    path: String,
    upstream: String,
}

/// A route as plain values.
#[verifier::ext_equal]
pub ghost struct Routed {
    pub id: Seq<char>,
    pub priority: nat,
    pub host: Option<Seq<char>>,
    pub path: Seq<char>,
    pub upstream: Seq<char>,
}

impl DeepView for Route {
    type V = Routed;

    closed spec fn deep_view(&self) -> Routed {
        Routed {
            id: self.id@,
            priority: self.priority as nat,
            host: self.host.deep_view(),
            path: self.path@,
            upstream: self.upstream@,
        }
    }
}

/// Routes, upstreams in target order, upstream names in use, and notes.
#[verifier::ext_equal]
pub ghost struct Plan {
    pub routes: Seq<Routed>,
    pub ups: Seq<Up>,
    pub names: Seq<Seq<char>>,
    pub notes: Seq<Remark>,
}

/// The upstream is the one for a target.
pub open spec fn serves(u: Up, p: Pass) -> bool {
    u.host == p.host && u.port == p.port && u.tls == p.tls
}

/// The target comes before that of an upstream: by host, port, then TLS.
pub open spec fn target_before(p: Pass, u: Up) -> bool {
    text::text_lt(p.host, u.host) || (p.host == u.host && (p.port < u.port || (p.port == u.port
        && !p.tls && u.tls)))
}

/// The first upstream from `from` on for a target, or the length.
pub open spec fn find_up(ups: Seq<Up>, p: Pass, from: int) -> int
    decreases ups.len() - from,
{
    if from < 0 || from >= ups.len() || serves(ups[from], p) {
        from
    } else {
        find_up(ups, p, from + 1)
    }
}

/// Where an upstream for a target belongs: before the first that comes after it.
pub open spec fn up_slot(ups: Seq<Up>, p: Pass, from: int) -> int
    decreases ups.len() - from,
{
    if from < 0 || from >= ups.len() || target_before(p, ups[from]) {
        from
    } else {
        up_slot(ups, p, from + 1)
    }
}

/// The name of a new upstream.
pub open spec fn up_name(p: Pass, names: Seq<Seq<char>>) -> Seq<char> {
    naming::unique(
        naming::sanitized(p.host + "-"@ + text::digits(p.port as nat)),
        names,
    )
}

/// A plan that has an upstream for a target.
pub open spec fn with_up(plan: Plan, p: Pass) -> Plan {
    if find_up(plan.ups, p, 0) < plan.ups.len() {
        plan
    } else {
        let name = up_name(p, plan.names);
        Plan {
            ups: plan.ups.insert(
                up_slot(plan.ups, p, 0),
                Up { host: p.host, port: p.port, tls: p.tls, name },
            ),
            names: plan.names.push(name),
            ..plan
        }
    }
}

/// The priority of a route: longer prefixes come first.
pub open spec fn route_priority(path: Seq<char>) -> nat {
    BASE_ROUTE_PRIORITY as nat + encode_utf8(path).len()
}

/// What the identifier of a route is made of.
pub open spec fn route_base(host: Option<Seq<char>>, path: Seq<char>) -> Seq<char> {
    let h = naming::sanitized(
        match host {
            Some(s) => s,
            None => "any"@,
        },
    );
    if text::trim_end_char(path, '/').len() > 0 {
        h + "-"@ + naming::sanitized(path)
    } else {
        h
    }
}

/// Identifiers of routes.
pub open spec fn ids_of(routes: Seq<Routed>) -> Seq<Seq<char>> {
    routes.map_values(|r: Routed| r.id)
}

/// A route for a host name.
pub open spec fn route_for(
    routes: Seq<Routed>,
    host: Option<Seq<char>>,
    path: Seq<char>,
    upstream: Seq<char>,
) -> Routed {
    Routed {
        id: naming::unique(route_base(host, path), ids_of(routes)),
        priority: route_priority(path),
        host,
        path,
        upstream,
    }
}

/// Routes for the first `n` host names.
pub open spec fn add_routes(
    routes: Seq<Routed>,
    hosts: Seq<Option<Seq<char>>>,
    path: Seq<char>,
    upstream: Seq<char>,
    n: int,
) -> Seq<Routed>
    decreases n,
{
    if n <= 0 {
        routes
    } else {
        let before = add_routes(routes, hosts, path, upstream, n - 1);
        before.push(route_for(before, hosts[n - 1], path, upstream))
    }
}

/// One more `ProxyPass`.
pub open spec fn pass_step(plan: Plan, p: Pass, hosts: Seq<Option<Seq<char>>>) -> Plan {
    let a = with_up(plan, p);
    let upstream = a.ups[find_up(a.ups, p, 0)].name;
    Plan { routes: add_routes(a.routes, hosts, p.path, upstream, hosts.len() as int), ..a }
}

/// The first `n` passes of a block.
pub open spec fn add_passes(
    plan: Plan,
    passes: Seq<Pass>,
    hosts: Seq<Option<Seq<char>>>,
    n: int,
) -> Plan
    decreases n,
{
    if n <= 0 {
        plan
    } else {
        pass_step(add_passes(plan, passes, hosts, n - 1), passes[n - 1], hosts)
    }
}

/// The first aliases, without the server name.
pub open spec fn alias_hosts(aliases: Seq<Seq<char>>, server_name: Option<Seq<char>>) -> Seq<
    Option<Seq<char>>,
>
    decreases aliases.len(),
{
    if aliases.len() == 0 {
        match server_name {
            Some(n) => seq![Some(n)],
            None => Seq::empty(),
        }
    } else {
        let rest = alias_hosts(aliases.drop_last(), server_name);
        if server_name != Some(aliases.last()) {
            rest.push(Some(aliases.last()))
        } else {
            rest
        }
    }
}

/// The host names that the routes of a block match; `None` matches any.
pub open spec fn hosts_of(h: Host) -> Seq<Option<Seq<char>>> {
    let names = alias_hosts(h.aliases, h.server_name);
    if names.len() == 0 {
        seq![None]
    } else {
        names
    }
}

/// One more block.
pub open spec fn block_step(plan: Plan, h: Host) -> Plan {
    if h.passes.len() == 0 {
        Plan {
            notes: plan.notes.push(
                apache::remark(
                    h.line,
                    block_name(h),
                    "no importable ProxyPass — no route emitted (static serving is not imported)"@,
                ),
            ),
            ..plan
        }
    } else {
        let a = if alias_hosts(h.aliases, h.server_name).len() == 0 {
            Plan {
                notes: plan.notes.push(
                    apache::remark(
                        h.line,
                        block_name(h),
                        "no ServerName — routes match every host on the listener"@,
                    ),
                ),
                ..plan
            }
        } else {
            plan
        };
        add_passes(a, h.passes, hosts_of(h), h.passes.len() as int)
    }
}

/// No routes yet.
pub open spec fn empty_plan(notes: Seq<Remark>) -> Plan {
    Plan { routes: Seq::empty(), ups: Seq::empty(), names: Seq::empty(), notes }
}

/// The plan for the first `n` blocks.
pub open spec fn plan_of(hosts: Seq<Host>, notes: Seq<Remark>, n: int) -> Plan
    decreases n,
{
    if n <= 0 {
        empty_plan(notes)
    } else {
        block_step(plan_of(hosts, notes, n - 1), hosts[n - 1])
    }
}

// ---------------------------------------------------------------------------
// Laws of the plan
// ---------------------------------------------------------------------------

/// A longer prefix gets a higher priority.
pub proof fn longer_prefix_wins(a: Seq<char>, b: Seq<char>)
    requires
        encode_utf8(a).len() < encode_utf8(b).len(),
    ensures
        route_priority(a) < route_priority(b),
{
}

/// Every upstream has a name of its own, and every route goes to an upstream.
pub open spec fn plan_sound(plan: Plan) -> bool {
    &&& ids_of(plan.routes).no_duplicates()
    &&& plan.names.no_duplicates()
    &&& forall|i: int| 0 <= i < plan.ups.len() ==> plan.names.contains(#[trigger] plan.ups[i].name)
    &&& forall|i: int, j: int|
        0 <= i < j < plan.ups.len() ==> (#[trigger] plan.ups[i]).name != (
        #[trigger] plan.ups[j]).name
    &&& forall|i: int|
        0 <= i < plan.routes.len() ==> up_exists(plan.ups, (#[trigger] plan.routes[i]).upstream)
}

/// Some upstream has the name.
pub open spec fn up_exists(ups: Seq<Up>, name: Seq<char>) -> bool {
    exists|j: int| 0 <= j < ups.len() && (#[trigger] ups[j]).name == name
}

proof fn lemma_find_up(ups: Seq<Up>, p: Pass, from: int)
    requires
        0 <= from <= ups.len(),
    ensures
        from <= find_up(ups, p, from) <= ups.len(),
        find_up(ups, p, from) < ups.len() ==> serves(ups[find_up(ups, p, from)], p),
        forall|j: int| from <= j < find_up(ups, p, from) ==> !serves(#[trigger] ups[j], p),
    decreases ups.len() - from,
{
    if from < ups.len() && !serves(ups[from], p) {
        lemma_find_up(ups, p, from + 1);
    }
}

proof fn lemma_up_slot(ups: Seq<Up>, p: Pass, from: int)
    requires
        0 <= from <= ups.len(),
    ensures
        from <= up_slot(ups, p, from) <= ups.len(),
    decreases ups.len() - from,
{
    if from < ups.len() && !target_before(p, ups[from]) {
        lemma_up_slot(ups, p, from + 1);
    }
}

proof fn lemma_with_up(plan: Plan, p: Pass)
    requires
        plan_sound(plan),
    ensures
        plan_sound(with_up(plan, p)),
        find_up(with_up(plan, p).ups, p, 0) < with_up(plan, p).ups.len(),
        find_up(with_up(plan, p).ups, p, 0) >= 0,
        serves(with_up(plan, p).ups[find_up(with_up(plan, p).ups, p, 0)], p),
        with_up(plan, p).routes == plan.routes,
{
    let a = with_up(plan, p);
    lemma_find_up(plan.ups, p, 0);
    lemma_find_up(a.ups, p, 0);
    if find_up(plan.ups, p, 0) >= plan.ups.len() {
        let name = up_name(p, plan.names);
        let k = up_slot(plan.ups, p, 0);
        lemma_up_slot(plan.ups, p, 0);
        naming::unique_is_unused(
            naming::sanitized(p.host + "-"@ + text::digits(p.port as nat)),
            plan.names,
        );
        assert(a.ups[k].name == name && serves(a.ups[k], p));
        assert forall|i: int| 0 <= i < a.ups.len() implies a.names.contains(
            #[trigger] a.ups[i].name,
        ) by {
            if i == k {
                assert(a.names[plan.names.len() as int] == name);
            } else {
                let o = if i < k {
                    i
                } else {
                    i - 1
                };
                assert(a.ups[i] == plan.ups[o]);
                assert(plan.names.contains(plan.ups[o].name));
                let m = choose|m: int|
                    0 <= m < plan.names.len() && plan.names[m] == plan.ups[o].name;
                assert(a.names[m] == plan.ups[o].name);
            }
        }
        assert forall|i: int, j: int| 0 <= i < j < a.ups.len() implies (
        #[trigger] a.ups[i]).name != (#[trigger] a.ups[j]).name by {
            let oi = if i < k {
                i
            } else {
                i - 1
            };
            let oj = if j < k {
                j
            } else {
                j - 1
            };
            if i != k {
                assert(a.ups[i] == plan.ups[oi]);
                assert(plan.names.contains(plan.ups[oi].name));
            }
            if j != k {
                assert(a.ups[j] == plan.ups[oj]);
                assert(plan.names.contains(plan.ups[oj].name));
            }
        }
        assert forall|i: int| 0 <= i < a.routes.len() implies up_exists(
            a.ups,
            (#[trigger] a.routes[i]).upstream,
        ) by {
            assert(up_exists(plan.ups, plan.routes[i].upstream));
            let j = choose|j: int|
                0 <= j < plan.ups.len() && (#[trigger] plan.ups[j]).name
                    == plan.routes[i].upstream;
            let n = if j < k {
                j
            } else {
                j + 1
            };
            assert(a.ups[n] == plan.ups[j]);
        }
        if find_up(a.ups, p, 0) >= a.ups.len() {
            assert(!serves(a.ups[k], p));
        }
    }
}

proof fn lemma_add_routes(
    plan: Plan,
    hosts: Seq<Option<Seq<char>>>,
    path: Seq<char>,
    upstream: Seq<char>,
    n: int,
)
    requires
        plan_sound(plan),
        up_exists(plan.ups, upstream),
        n <= hosts.len(),
    ensures
        plan_sound((Plan { routes: add_routes(plan.routes, hosts, path, upstream, n), ..plan })),
    decreases n,
{
    if n > 0 {
        lemma_add_routes(plan, hosts, path, upstream, n - 1);
        let before = add_routes(plan.routes, hosts, path, upstream, n - 1);
        let r = route_for(before, hosts[n - 1], path, upstream);
        let after = before.push(r);
        naming::unique_is_unused(route_base(hosts[n - 1], path), ids_of(before));
        assert(ids_of(after) =~= ids_of(before).push(r.id));
        let p = Plan { routes: after, ..plan };
        assert forall|i: int| 0 <= i < p.routes.len() implies up_exists(
            p.ups,
            (#[trigger] p.routes[i]).upstream,
        ) by {
            if i < before.len() {
                let q = Plan { routes: before, ..plan };
                assert(up_exists(q.ups, q.routes[i].upstream));
            }
        }
    }
}

proof fn lemma_add_passes(
    plan: Plan,
    passes: Seq<Pass>,
    hosts: Seq<Option<Seq<char>>>,
    n: int,
)
    requires
        plan_sound(plan),
        n <= passes.len(),
    ensures
        plan_sound(add_passes(plan, passes, hosts, n)),
    decreases n,
{
    if n > 0 {
        lemma_add_passes(plan, passes, hosts, n - 1);
        let before = add_passes(plan, passes, hosts, n - 1);
        let p = passes[n - 1];
        lemma_with_up(before, p);
        let a = with_up(before, p);
        let k = find_up(a.ups, p, 0);
        assert(up_exists(a.ups, a.ups[k].name));
        lemma_add_routes(a, hosts, p.path, a.ups[k].name, hosts.len() as int);
    }
}

/// In a generated configuration all route identifiers differ, all upstream names
/// differ, and every route goes to an upstream that is there.
pub proof fn generated_plan_is_sound(hosts: Seq<Host>, notes: Seq<Remark>, n: int)
    requires
        n <= hosts.len(),
    ensures
        plan_sound(plan_of(hosts, notes, n)),
    decreases n,
{
    if n > 0 {
        generated_plan_is_sound(hosts, notes, n - 1);
        let before = plan_of(hosts, notes, n - 1);
        let h = hosts[n - 1];
        if h.passes.len() > 0 {
            let a = Plan {
                notes: if alias_hosts(h.aliases, h.server_name).len() == 0 {
                    before.notes.push(
                        apache::remark(
                            h.line,
                            block_name(h),
                            "no ServerName — routes match every host on the listener"@,
                        ),
                    )
                } else {
                    before.notes
                },
                ..before
            };
            assert(plan_sound(a));
            lemma_add_passes(a, h.passes, hosts_of(h), h.passes.len() as int);
        }
    }
}

// ---------------------------------------------------------------------------
// Planning
// ---------------------------------------------------------------------------

fn up_serves(u: &Upstream, p: &ProxyPass) -> (r: bool)
    ensures
        r == serves(u.deep_view(), p.deep_view()),
{
    text::same(u.host.as_str(), p.target.host.as_str()) && u.port == p.target.port && u.tls
        == p.target.tls
}

fn comes_before(p: &ProxyPass, u: &Upstream) -> (r: bool)
    ensures
        r == target_before(p.deep_view(), u.deep_view()),
{
    text::is_before(p.target.host.as_str(), u.host.as_str()) || (text::same(
        p.target.host.as_str(),
        u.host.as_str(),
    ) && (p.target.port < u.port || (p.target.port == u.port && !p.target.tls && u.tls)))
}

/// The plan as plain values.
closed spec fn plan_view(
    routes: Vec<Route>,
    ups: Vec<Upstream>,
    names: Vec<String>,
    notes: Vec<Note>,
) -> Plan {
    Plan {
        routes: routes.deep_view(),
        ups: ups.deep_view(),
        names: names.deep_view(),
        notes: notes.deep_view(),
    }
}

fn ensure_upstream(ups: &mut Vec<Upstream>, names: &mut Vec<String>, p: &ProxyPass) -> (r: String)
    ensures
        forall|plan: Plan|
            plan.ups == old(ups).deep_view() && plan.names == old(names).deep_view() ==> {
                let a = #[trigger] with_up(plan, p.deep_view());
                a.ups == final(ups).deep_view() && a.names == final(names).deep_view()
            },
        ({
            let u = final(ups).deep_view();
            let k = find_up(u, p.deep_view(), 0);
            r@ == u[k].name
        }),
{
    let ghost us = ups.deep_view();
    let ghost pv = p.deep_view();
    let mut i: usize = 0;
    while i < ups.len() && !up_serves(&ups[i], p)
        invariant
            i <= ups@.len(),
            us == ups.deep_view(),
            us.len() == ups@.len(),
            pv == p.deep_view(),
            find_up(us, pv, 0) == find_up(us, pv, i as int),
        decreases ups.len() - i,
    {
        assert(us[i as int] == ups@[i as int].deep_view());
        i = i + 1;
    }
    if i < ups.len() {
        assert(us[i as int] == ups@[i as int].deep_view());
        return ups[i].name.clone();
    }
    let mut k: usize = 0;
    while k < ups.len() && !comes_before(p, &ups[k])
        invariant
            k <= ups@.len(),
            us == ups.deep_view(),
            us.len() == ups@.len(),
            pv == p.deep_view(),
            up_slot(us, pv, 0) == up_slot(us, pv, k as int),
        decreases ups.len() - k,
    {
        assert(us[k as int] == ups@[k as int].deep_view());
        k = k + 1;
    }
    proof {
        if k < ups@.len() {
            assert(us[k as int] == ups@[k as int].deep_view());
        }
    }
    let n = text::decimal(p.target.port as u64);
    let raw = apache::cat3(p.target.host.as_str(), "-", n.as_str());
    let base = naming::sanitize_id(raw.as_str());
    let name = naming::unique_id(base.as_str(), names);
    let u = Upstream {
        host: p.target.host.clone(),
        port: p.target.port,
        tls: p.target.tls,
        name: name.clone(),
    };
    let ghost x = u.deep_view();
    ups.insert(k, u);
    proof {
        assert(ups.deep_view() =~= us.insert(k as int, x));
        lemma_found_after_insert(us, pv, k as int, x);
    }
    name
}

proof fn lemma_found_after_insert(ups: Seq<Up>, p: Pass, k: int, x: Up)
    requires
        0 <= k <= ups.len(),
        find_up(ups, p, 0) >= ups.len(),
        serves(x, p),
    ensures
        find_up(ups.insert(k, x), p, 0) == k,
{
    let a = ups.insert(k, x);
    lemma_find_up(ups, p, 0);
    lemma_find_up(a, p, 0);
    let f = find_up(a, p, 0);
    assert(a[k] == x);
    if f < k {
        assert(a[f] == ups[f]);
    } else if f > k {
        assert(!serves(a[k], p));
    }
}

fn base_of(host: &Option<String>, path: &str) -> (r: String)
    ensures
        r@ == route_base(host.deep_view(), path@),
{
    let h = naming::sanitize_id(
        match host {
            Some(s) => s.as_str(),
            None => "any",
        },
    );
    let t = text::trimmed_end_char(path, '/');
    let tv = text::chars_of(t.as_str());
    if tv.len() > 0 {
        let p = naming::sanitize_id(path);
        apache::cat3(h.as_str(), "-", p.as_str())
    } else {
        h
    }
}

fn priority_of(path: &str) -> (r: u128)
    ensures
        r == route_priority(path@),
{
    BASE_ROUTE_PRIORITY as u128 + path.as_bytes().len() as u128
}

fn plan_routes(
    routes: &mut Vec<Route>,
    ids: &mut Vec<String>,
    hosts: &Vec<Option<String>>,
    path: &str,
    upstream: &str,
)
    requires
        old(ids).deep_view() == ids_of(old(routes).deep_view()),
    ensures
        final(routes).deep_view() == add_routes(
            old(routes).deep_view(),
            hosts.deep_view(),
            path@,
            upstream@,
            hosts@.len() as int,
        ),
        final(ids).deep_view() == ids_of(final(routes).deep_view()),
{
    let ghost rs = routes.deep_view();
    let ghost hs = hosts.deep_view();
    let mut i: usize = 0;
    while i < hosts.len()
        invariant
            i <= hosts@.len(),
            hs == hosts.deep_view(),
            hs.len() == hosts@.len(),
            ids.deep_view() == ids_of(routes.deep_view()),
            routes.deep_view() == add_routes(rs, hs, path@, upstream@, i as int),
        decreases hosts.len() - i,
    {
        let ghost before = routes.deep_view();
        assert(hs[i as int] == hosts@[i as int].deep_view());
        let base = base_of(&hosts[i], path);
        let id = naming::unique_id(base.as_str(), ids);
        let host = match &hosts[i] {
            Some(s) => Some(s.clone()),
            None => None,
        };
        let route = Route {
            id,
            priority: priority_of(path),
            host,
            path: path.to_owned(),
            upstream: upstream.to_owned(),
        };
        let ghost x = route.deep_view();
        routes.push(route);
        assert(routes.deep_view() =~= before.push(x));
        assert(ids_of(before.push(x)) =~= ids_of(before).push(x.id));
        i = i + 1;
    }
}

fn list_hosts(h: &VirtualHost) -> (r: Vec<Option<String>>)
    ensures
        r.deep_view() == alias_hosts(h.deep_view().aliases, h.deep_view().server_name),
        r@.len() == r.deep_view().len(),
{
    let ghost sn = h.deep_view().server_name;
    let ghost all = h.deep_view().aliases;
    let mut out: Vec<Option<String>> = Vec::new();
    if let Some(n) = &h.server_name {
        out.push(Some(n.clone()));
    }
    let mut i: usize = 0;
    assert(out.deep_view() =~= alias_hosts(all.take(0), sn));
    while i < h.aliases.len()
        invariant
            i <= h.aliases@.len(),
            all == h.deep_view().aliases,
            sn == h.deep_view().server_name,
            all.len() == h.aliases@.len(),
            out.deep_view() == alias_hosts(all.take(i as int), sn),
        decreases h.aliases.len() - i,
    {
        assert(all.take(i + 1).drop_last() =~= all.take(i as int));
        assert(all.take(i + 1).last() == h.aliases@[i as int]@);
        let same = match &h.server_name {
            Some(n) => text::same(n.as_str(), h.aliases[i].as_str()),
            None => false,
        };
        if !same {
            let ghost before = out.deep_view();
            let ghost x = h.aliases@[i as int]@;
            out.push(Some(h.aliases[i].clone()));
            assert(out.deep_view() =~= before.push(Some(x)));
        }
        i = i + 1;
    }
    assert(all.take(i as int) =~= all);
    out
}

fn plan_block(
    routes: &mut Vec<Route>,
    ids: &mut Vec<String>,
    ups: &mut Vec<Upstream>,
    names: &mut Vec<String>,
    notes: &mut Vec<Note>,
    h: &VirtualHost,
)
    requires
        old(ids).deep_view() == ids_of(old(routes).deep_view()),
    ensures
        plan_view(*final(routes), *final(ups), *final(names), *final(notes)) == block_step(
            plan_view(*old(routes), *old(ups), *old(names), *old(notes)),
            h.deep_view(),
        ),
        final(ids).deep_view() == ids_of(final(routes).deep_view()),
{
    let ghost hv = h.deep_view();
    let ghost given = plan_view(*routes, *ups, *names, *notes);
    assert(hv.passes.len() == h.proxy_passes@.len());
    if h.proxy_passes.len() == 0 {
        let name = name_of_block(h);
        apache::push_note(
            notes,
            h.line,
            name.as_str(),
            "no importable ProxyPass — no route emitted (static serving is not imported)".to_owned(),
        );
        assert(plan_view(*routes, *ups, *names, *notes) =~= block_step(given, hv));
        return;
    }
    let mut hosts = list_hosts(h);
    if hosts.len() == 0 {
        let name = name_of_block(h);
        apache::push_note(
            notes,
            h.line,
            name.as_str(),
            "no ServerName — routes match every host on the listener".to_owned(),
        );
        hosts.push(None);
        assert(hosts.deep_view() =~= hosts_of(hv));
    }
    let ghost hs = hosts.deep_view();
    let ghost a = plan_view(*routes, *ups, *names, *notes);
    let mut i: usize = 0;
    while i < h.proxy_passes.len()
        invariant
            i <= h.proxy_passes@.len(),
            hs == hosts.deep_view(),
            hs.len() == hosts@.len(),
            hv == h.deep_view(),
            hv.passes.len() == h.proxy_passes@.len(),
            ids.deep_view() == ids_of(routes.deep_view()),
            plan_view(*routes, *ups, *names, *notes) == add_passes(a, hv.passes, hs, i as int),
        decreases h.proxy_passes.len() - i,
    {
        let p = &h.proxy_passes[i];
        let ghost pv = p.deep_view();
        let ghost before = plan_view(*routes, *ups, *names, *notes);
        assert(hv.passes[i as int] == pv);
        let upstream = ensure_upstream(ups, names, p);
        let ghost mid = with_up(before, pv);
        assert(mid.ups == ups.deep_view() && mid.names == names.deep_view());
        plan_routes(routes, ids, &hosts, p.path.as_str(), upstream.as_str());
        assert(plan_view(*routes, *ups, *names, *notes) =~= pass_step(before, pv, hs));
        i = i + 1;
    }
}

// ---------------------------------------------------------------------------
// Text
// ---------------------------------------------------------------------------

/// A route as text.
pub open spec fn route_text(r: Routed) -> Seq<char> {
    "    route \""@ + r.id + "\" {\n        priority "@ + text::digits(r.priority)
        + "\n        matches {\n"@ + (match r.host {
        Some(h) => "            host \""@ + naming::escaped(h) + "\"\n"@,
        None => ""@,
    }) + "            path-prefix \""@ + naming::escaped(r.path)
        + "\"\n        }\n        upstream \""@ + r.upstream + "\"\n    }\n"@
}

/// Routes as text.
pub open spec fn routes_text(routes: Seq<Routed>) -> Seq<char>
    decreases routes.len(),
{
    if routes.len() == 0 {
        ""@
    } else {
        routes_text(routes.drop_last()) + route_text(routes.last())
    }
}

/// An upstream as text.
pub open spec fn upstream_text(u: Up) -> Seq<char> {
    "    upstream \""@ + u.name + "\" {\n        target \""@ + naming::escaped(
        endpoint(u.host, u.port),
    ) + "\" weight=1\n"@ + (if u.tls {
        "        tls {\n            sni \""@ + naming::escaped(u.host) + "\"\n        }\n"@
    } else {
        ""@
    }) + "    }\n"@
}

/// Upstreams as text.
pub open spec fn upstreams_text(ups: Seq<Up>) -> Seq<char>
    decreases ups.len(),
{
    if ups.len() == 0 {
        ""@
    } else {
        upstreams_text(ups.drop_last()) + upstream_text(ups.last())
    }
}

fn text_of_routes(routes: &Vec<Route>) -> (r: String)
    ensures
        r@ == routes_text(routes.deep_view()),
{
    let ghost all = routes.deep_view();
    let mut out = "".to_owned();
    let mut i: usize = 0;
    while i < routes.len()
        invariant
            i <= routes@.len(),
            all == routes.deep_view(),
            all.len() == routes@.len(),
            out@ == routes_text(all.take(i as int)),
        decreases routes.len() - i,
    {
        let r = &routes[i];
        assert(all.take(i + 1).drop_last() =~= all.take(i as int));
        assert(all.take(i + 1).last() == r.deep_view());
        let path = naming::kdl_escape(r.path.as_str());
        let host = match &r.host {
            Some(h) => {
                let e = naming::kdl_escape(h.as_str());
                apache::cat3("            host \"", e.as_str(), "\"\n")
            },
            None => "".to_owned(),
        };
        let mut t = "    route \"".to_owned();
        t.append(r.id.as_str());
        t.append("\" {\n        priority ");
        naming::push_wide(&mut t, r.priority);
        t.append("\n        matches {\n");
        t.append(host.as_str());
        t.append("            path-prefix \"");
        t.append(path.as_str());
        t.append("\"\n        }\n        upstream \"");
        t.append(r.upstream.as_str());
        t.append("\"\n    }\n");
        out.append(t.as_str());
        i = i + 1;
    }
    assert(all.take(i as int) =~= all);
    out
}

fn text_of_upstreams(ups: &Vec<Upstream>) -> (r: String)
    ensures
        r@ == upstreams_text(ups.deep_view()),
{
    let ghost all = ups.deep_view();
    let mut out = "".to_owned();
    let mut i: usize = 0;
    while i < ups.len()
        invariant
            i <= ups@.len(),
            all == ups.deep_view(),
            all.len() == ups@.len(),
            out@ == upstreams_text(all.take(i as int)),
        decreases ups.len() - i,
    {
        let u = &ups[i];
        assert(all.take(i + 1).drop_last() =~= all.take(i as int));
        assert(all.take(i + 1).last() == u.deep_view());
        let target = endpoint_text(u.host.as_str(), u.port);
        let shown = naming::kdl_escape(target.as_str());
        let tls = if u.tls {
            let e = naming::kdl_escape(u.host.as_str());
            apache::cat3("        tls {\n            sni \"", e.as_str(), "\"\n        }\n")
        } else {
            "".to_owned()
        };
        let mut t = "    upstream \"".to_owned();
        t.append(u.name.as_str());
        t.append("\" {\n        target \"");
        t.append(shown.as_str());
        t.append("\" weight=1\n");
        t.append(tls.as_str());
        t.append("    }\n");
        out.append(t.as_str());
        i = i + 1;
    }
    assert(all.take(i as int) =~= all);
    out
}

// ---------------------------------------------------------------------------
// Notes in order
// ---------------------------------------------------------------------------

/// Where a note belongs: before the first of a later line.
pub open spec fn note_slot(notes: Seq<Remark>, n: Remark, from: int) -> int
    decreases notes.len() - from,
{
    if from < 0 || from >= notes.len() || n.line < notes[from].line {
        from
    } else {
        note_slot(notes, n, from + 1)
    }
}

/// The notes by line; notes on one line keep their order.
pub open spec fn by_line(notes: Seq<Remark>) -> Seq<Remark>
    decreases notes.len(),
{
    if notes.len() == 0 {
        Seq::empty()
    } else {
        let s = by_line(notes.drop_last());
        s.insert(note_slot(s, notes.last(), 0), notes.last())
    }
}

proof fn lemma_note_slot(s: Seq<Remark>, n: Remark, from: int)
    requires
        0 <= from <= s.len(),
    ensures
        from <= note_slot(s, n, from) <= s.len(),
        note_slot(s, n, from) < s.len() ==> n.line < s[note_slot(s, n, from)].line,
        forall|j: int| from <= j < note_slot(s, n, from) ==> (#[trigger] s[j]).line <= n.line,
    decreases s.len() - from,
{
    if from < s.len() && n.line >= s[from].line {
        lemma_note_slot(s, n, from + 1);
    }
}

/// The report lists every note once, by line.
pub proof fn report_keeps_notes(notes: Seq<Remark>)
    ensures
        by_line(notes).to_multiset() =~= notes.to_multiset(),
        forall|i: int, j: int|
            0 <= i < j < by_line(notes).len() ==> (#[trigger] by_line(notes)[i]).line <= (
            #[trigger] by_line(notes)[j]).line,
    decreases notes.len(),
{
    broadcast use vstd::seq_lib::group_to_multiset_ensures;

    if notes.len() > 0 {
        let init = notes.drop_last();
        let s = by_line(init);
        let n = notes.last();
        report_keeps_notes(init);
        lemma_note_slot(s, n, 0);
        let k = note_slot(s, n, 0);
        assert(notes =~= init.push(n));
        assert(s.insert(k, n).to_multiset() =~= s.to_multiset().insert(n));
        let t = s.insert(k, n);
        assert forall|i: int, j: int| 0 <= i < j < t.len() implies (#[trigger] t[i]).line <= (
        #[trigger] t[j]).line by {
            if j < k {
                assert(t[i] == s[i] && t[j] == s[j]);
            } else if j == k {
                assert(t[i] == s[i]);
            } else if i < k {
                assert(t[i] == s[i] && t[j] == s[j - 1]);
            } else if i == k {
                assert(t[j] == s[j - 1]);
                if j - 1 > k {
                    assert(s[k].line <= s[j - 1].line);
                }
            } else {
                assert(t[i] == s[i - 1] && t[j] == s[j - 1]);
            }
        }
    }
}

fn sort_notes(notes: &mut Vec<Note>)
    ensures
        final(notes).deep_view() == by_line(old(notes).deep_view()),
{
    let mut given: Vec<Note> = Vec::new();
    let ghost all = notes.deep_view();
    let ghost items = notes@;
    std::mem::swap(&mut given, notes);
    assert(notes.deep_view() =~= by_line(all.take(0)));
    for n in it: given
        invariant
            it.seq() == items,
            all.len() == items.len(),
            forall|k: int| 0 <= k < items.len() ==> (#[trigger] items[k]).deep_view() == all[k],
            notes.deep_view() == by_line(all.take(it.index() as int)),
    {
        let ghost c = it.index() as int;
        let ghost x = n.deep_view();
        let ghost s = notes.deep_view();
        proof {
            assert(all.take(c + 1).drop_last() =~= all.take(c));
            assert(items[c].deep_view() == all[c]);
            assert(all.take(c + 1).last() == x);
        }
        let mut i: usize = 0;
        while i < notes.len() && !(n.line < notes[i].line)
            invariant
                i <= notes@.len(),
                s == notes.deep_view(),
                s.len() == notes@.len(),
                x == n.deep_view(),
                note_slot(s, x, 0) == note_slot(s, x, i as int),
            decreases notes.len() - i,
        {
            assert(s[i as int] == notes@[i as int].deep_view());
            i = i + 1;
        }
        proof {
            if i < notes@.len() {
                assert(s[i as int] == notes@[i as int].deep_view());
            }
        }
        notes.insert(i, n);
        assert(notes.deep_view() =~= s.insert(i as int, x));
    }
    assert(all.take(all.len() as int) =~= all);
}

/// A note as a comment line.
pub open spec fn note_line(n: Remark) -> Seq<char> {
    "//   line "@ + text::digits(n.line) + ": "@ + n.directive + " — "@ + n.detail + "\n"@
}

/// Notes as comment lines.
pub open spec fn note_lines(notes: Seq<Remark>) -> Seq<char>
    decreases notes.len(),
{
    if notes.len() == 0 {
        ""@
    } else {
        note_lines(notes.drop_last()) + note_line(notes.last())
    }
}

fn text_of_notes(notes: &Vec<Note>) -> (r: String)
    ensures
        r@ == note_lines(notes.deep_view()),
{
    let ghost all = notes.deep_view();
    let mut out = "".to_owned();
    let mut i: usize = 0;
    while i < notes.len()
        invariant
            i <= notes@.len(),
            all == notes.deep_view(),
            all.len() == notes@.len(),
            out@ == note_lines(all.take(i as int)),
        decreases notes.len() - i,
    {
        let n = &notes[i];
        assert(all.take(i + 1).drop_last() =~= all.take(i as int));
        assert(all.take(i + 1).last() == n.deep_view());
        let l = text::decimal(n.line as u64);
        let mut t = "//   line ".to_owned();
        t.append(l.as_str());
        t.append(": ");
        t.append(n.directive.as_str());
        t.append(" — ");
        t.append(n.detail.as_str());
        t.append("\n");
        out.append(t.as_str());
        i = i + 1;
    }
    assert(all.take(i as int) =~= all);
    out
}

/// The head of a generated configuration: provenance, scope, and everything that
/// was not imported.
pub open spec fn header(source: Seq<char>, notes: Seq<Remark>) -> Seq<char> {
    "// Zentinel configuration generated by `zentinel import apache`.\n// Source: "@ + source
        + "\n//\n// Imported: <VirtualHost>, ServerName/ServerAlias, ProxyPass,\n// SSLCertificateFile/SSLCertificateKeyFile. Zentinel defaults apply to\n// everything else (timeouts, limits, health checks, observability).\n// Route priority is 50 + path-prefix length so longer prefixes win.\n// Review before production use.\n"@
        + (if notes.len() == 0 {
        ""@
    } else {
        "//\n// NOT IMPORTED (stays on the backend / needs manual attention):\n"@ + note_lines(notes)
    })
}

/// A block of the configuration, after an empty line; nothing if it is empty.
pub open spec fn section(name: Seq<char>, body: Seq<char>, present: bool) -> Seq<char> {
    if present {
        "\n"@ + name + " {\n"@ + body + "}\n"@
    } else {
        ""@
    }
}

/// A generated configuration.
pub open spec fn document(
    source: Seq<char>,
    notes: Seq<Remark>,
    listeners: Seq<char>,
    plan: Plan,
) -> Seq<char> {
    header(source, notes)
        + "\nsystem {\n    worker-threads 0 // 0 = auto-detect CPU count\n    max-connections 10000\n}\n"@
        + section("listeners"@, listeners, true) + section(
        "routes"@,
        routes_text(plan.routes),
        plan.routes.len() > 0,
    ) + section("upstreams"@, upstreams_text(plan.ups), plan.ups.len() > 0)
}

/// Notes and outcome of a generation: the configuration, or why there is none.
pub open spec fn emitted(hosts: Seq<Host>, notes: Seq<Remark>, source: Seq<char>) -> (
    Seq<Remark>,
    Result<Seq<char>, Seq<char>>,
) {
    let c = certs_checked(hosts, notes);
    let g = grouped(hosts, c.0, hosts.len() as int);
    let l = listeners_of(hosts, g.groups, g.notes, g.groups.len() as int);
    let p = plan_of(hosts, l.notes, hosts.len() as int);
    let sorted = by_line(p.notes);
    match c.1 {
        Some(m) => (c.0, Err(m)),
        None => match g.error {
            Some(m) => (g.notes, Err(m)),
            None => (sorted, Ok(document(source, sorted, l.text, p))),
        },
    }
}

fn section_text(name: &str, body: &str, present: bool) -> (r: String)
    ensures
        r@ == section(name@, body@, present),
{
    if present {
        let mut out = "\n".to_owned();
        out.append(name);
        out.append(" {\n");
        out.append(body);
        out.append("}\n");
        out
    } else {
        "".to_owned()
    }
}

fn header_text(source: &str, notes: &Vec<Note>) -> (r: String)
    ensures
        r@ == header(source@, notes.deep_view()),
{
    let list = if notes.len() == 0 {
        "".to_owned()
    } else {
        let lines = text_of_notes(notes);
        let mut t = "//\n// NOT IMPORTED (stays on the backend / needs manual attention):\n".to_owned();
        t.append(lines.as_str());
        t
    };
    let mut out = "// Zentinel configuration generated by `zentinel import apache`.\n// Source: ".to_owned();
    out.append(source);
    out.append(
        "\n//\n// Imported: <VirtualHost>, ServerName/ServerAlias, ProxyPass,\n// SSLCertificateFile/SSLCertificateKeyFile. Zentinel defaults apply to\n// everything else (timeouts, limits, health checks, observability).\n// Route priority is 50 + path-prefix length so longer prefixes win.\n// Review before production use.\n",
    );
    out.append(list.as_str());
    out
}

/// The configuration for some virtual hosts. Assumptions and what is left out
/// are added to the notes, which are then put in line order.
pub fn emit_kdl(hosts: &Vec<VirtualHost>, notes: &mut Vec<Note>, source: &str) -> (r: Result<
    String,
    ImportError,
>)
    ensures
        final(notes).deep_view() == emitted(
            hosts.deep_view(),
            old(notes).deep_view(),
            source@,
        ).0,
        (match r {
            Ok(t) => emitted(hosts.deep_view(), old(notes).deep_view(), source@).1 == Ok::<
                Seq<char>,
                Seq<char>,
            >(t@),
            Err(e) => emitted(hosts.deep_view(), old(notes).deep_view(), source@).1 == Err::<
                Seq<char>,
                Seq<char>,
            >(e@),
        }),
{
    let ghost hv = hosts.deep_view();
    if let Some(e) = check_certs(hosts, notes) {
        return Err(e);
    }
    let groups = match group_by_address(hosts, notes) {
        Ok(g) => g,
        Err(e) => {
            return Err(e);
        },
    };
    let listeners = emit_listeners(hosts, &groups, notes);
    let ghost given = notes.deep_view();
    let mut routes: Vec<Route> = Vec::new();
    let mut ids: Vec<String> = Vec::new();
    let mut ups: Vec<Upstream> = Vec::new();
    let mut names: Vec<String> = Vec::new();
    let mut i: usize = 0;
    assert(ids.deep_view() =~= ids_of(routes.deep_view()));
    assert(plan_view(routes, ups, names, *notes) =~= empty_plan(given));
    while i < hosts.len()
        invariant
            i <= hosts@.len(),
            hv == hosts.deep_view(),
            hv.len() == hosts@.len(),
            ids.deep_view() == ids_of(routes.deep_view()),
            plan_view(routes, ups, names, *notes) == plan_of(hv, given, i as int),
        decreases hosts.len() - i,
    {
        assert(hv[i as int] == hosts@[i as int].deep_view());
        plan_block(&mut routes, &mut ids, &mut ups, &mut names, notes, &hosts[i]);
        i = i + 1;
    }
    sort_notes(notes);
    let head = header_text(source, notes);
    let rt = text_of_routes(&routes);
    let ut = text_of_upstreams(&ups);
    let ls = section_text("listeners", listeners.as_str(), true);
    let rs = section_text("routes", rt.as_str(), routes.len() > 0);
    let us = section_text("upstreams", ut.as_str(), ups.len() > 0);
    let mut out = head;
    out.append(
        "\nsystem {\n    worker-threads 0 // 0 = auto-detect CPU count\n    max-connections 10000\n}\n",
    );
    out.append(ls.as_str());
    out.append(rs.as_str());
    out.append(us.as_str());
    Ok(out)
}

// ---------------------------------------------------------------------------
// The whole import
// ---------------------------------------------------------------------------

/// The error for an input that is too large.
pub open spec fn too_large(source: Seq<char>, bytes: nat) -> Seq<char> {
    source + " is "@ + text::digits(bytes) + " bytes; refusing inputs larger than "@
        + text::digits(MAX_INPUT_BYTES as nat) + " bytes"@
}

/// Notes and outcome of an import: how many virtual hosts there are, and the document.
pub open spec fn imported(content: Seq<char>, source: Seq<char>) -> (
    Seq<Remark>,
    Result<(nat, Seq<char>), Seq<char>>,
) {
    let bytes = encode_utf8(content).len();
    let none = Seq::<Remark>::empty();
    if bytes > MAX_INPUT_BYTES {
        (none, Err(too_large(source, bytes)))
    } else {
        let r = apache::read(content, none);
        match r.1 {
            Err(m) => (r.0, Err(m)),
            Ok(hosts) => if hosts.len() == 0 {
                (
                    r.0,
                    Err(
                        "no <VirtualHost> blocks found in "@ + source + " — nothing to import"@,
                    ),
                )
            } else {
                let e = emitted(hosts, r.0, source);
                (
                    e.0,
                    match e.1 {
                        Ok(t) => Ok((hosts.len(), t)),
                        Err(m) => Err(m),
                    },
                )
            },
        }
    }
}

/// Converts an Apache configuration to a document, beside the number of virtual hosts
/// that it comes from; the notes say everything that was not imported.
pub fn import_apache(content: &str, source: &str) -> (r: (
    Vec<Note>,
    Result<(usize, String), ImportError>,
))
    ensures
        r.0.deep_view() == imported(content@, source@).0,
        (match r.1 {
            Ok((n, t)) => imported(content@, source@).1 == Result::<
                (nat, Seq<char>),
                Seq<char>,
            >::Ok((n as nat, t@)),
            Err(e) => imported(content@, source@).1 == Result::<(nat, Seq<char>), Seq<char>>::Err(
                e@,
            ),
        }),
{
    let mut notes: Vec<Note> = Vec::new();
    assert(notes.deep_view() =~= Seq::<Remark>::empty());
    let bytes = content.as_bytes().len();
    if bytes > MAX_INPUT_BYTES {
        let a = text::decimal(bytes as u64);
        let b = text::decimal(MAX_INPUT_BYTES as u64);
        let mut m = source.to_owned();
        m.append(" is ");
        m.append(a.as_str());
        m.append(" bytes; refusing inputs larger than ");
        m.append(b.as_str());
        m.append(" bytes");
        return (notes, Err(ImportError { message: m }));
    }
    let hosts = match apache::parse_apache(content, &mut notes) {
        Ok(h) => h,
        Err(e) => {
            return (notes, Err(e));
        },
    };
    if hosts.len() == 0 {
        assert(hosts.deep_view().len() == 0);
        let m = apache::cat3(
            "no <VirtualHost> blocks found in ",
            source,
            " — nothing to import",
        );
        return (notes, Err(ImportError { message: m }));
    }
    assert(hosts.deep_view().len() > 0);
    match emit_kdl(&hosts, &mut notes, source) {
        Ok(out) => (notes, Ok((hosts.len(), out))),
        Err(e) => (notes, Err(e)),
    }
}

/// A certificate without its key, or a key without its certificate, is refused.
pub proof fn half_configured_tls_is_refused(
    hosts: Seq<Host>,
    notes: Seq<Remark>,
    source: Seq<char>,
    i: int,
)
    requires
        0 <= i < hosts.len(),
        hosts[i].cert is Some != hosts[i].key is Some,
    ensures
        emitted(hosts, notes, source).1 is Err,
    decreases hosts.len(),
{
    lemma_cert_error(hosts, notes, i);
}

proof fn lemma_cert_error(hosts: Seq<Host>, notes: Seq<Remark>, i: int)
    requires
        0 <= i < hosts.len(),
        cert_error(hosts[i]) is Some,
    ensures
        certs_checked(hosts, notes).1 is Some,
    decreases hosts.len(),
{
    if i < hosts.len() - 1 {
        assert(hosts.drop_last()[i] == hosts[i]);
        lemma_cert_error(hosts.drop_last(), notes, i);
    }
}

proof fn lemma_certs_keep(hosts: Seq<Host>, notes: Seq<Remark>)
    ensures
        notes.is_prefix_of(certs_checked(hosts, notes).0),
    decreases hosts.len(),
{
    if hosts.len() > 0 {
        lemma_certs_keep(hosts.drop_last(), notes);
    }
}

proof fn lemma_grouping_keeps(hosts: Seq<Host>, notes: Seq<Remark>, n: int)
    ensures
        notes.is_prefix_of(grouped(hosts, notes, n).notes),
    decreases n,
{
    if n > 0 {
        lemma_grouping_keeps(hosts, notes, n - 1);
    }
}

proof fn lemma_sni_keeps(d: Draft, hosts: Seq<Host>, tls: Seq<usize>, n: int)
    ensures
        d.notes.is_prefix_of(sni_blocks(d, hosts, tls, n).notes),
    decreases n,
{
    if n > 1 {
        lemma_sni_keeps(d, hosts, tls, n - 1);
    }
}

proof fn lemma_listeners_keep(
    hosts: Seq<Host>,
    groups: Seq<(Seq<char>, Members)>,
    notes: Seq<Remark>,
    n: int,
)
    ensures
        notes.is_prefix_of(listeners_of(hosts, groups, notes, n).notes),
    decreases n,
{
    if n > 0 {
        lemma_listeners_keep(hosts, groups, notes, n - 1);
        let l = listeners_of(hosts, groups, notes, n - 1);
        let address = groups[n - 1].0;
        let g = groups[n - 1].1;
        let tls = tls_members(hosts, g.members);
        let mixed = mixed_notes(hosts, address, g, l.notes);
        let id = naming::unique("apache-"@ + text::digits(g.port as nat), l.ids);
        let head = l.text + listener_head(id, address, tls.len() > 0);
        assert(l.notes.is_prefix_of(mixed));
        lemma_sni_keeps(
            Draft { text: head + tls_head(hosts[tls[0] as int]), notes: mixed },
            hosts,
            tls,
            tls.len() as int,
        );
    }
}

proof fn lemma_passes_keep(plan: Plan, passes: Seq<Pass>, hosts: Seq<Option<Seq<char>>>, n: int)
    ensures
        add_passes(plan, passes, hosts, n).notes == plan.notes,
    decreases n,
{
    if n > 0 {
        lemma_passes_keep(plan, passes, hosts, n - 1);
    }
}

proof fn lemma_plan_keeps(hosts: Seq<Host>, notes: Seq<Remark>, n: int)
    ensures
        notes.is_prefix_of(plan_of(hosts, notes, n).notes),
    decreases n,
{
    if n > 0 {
        lemma_plan_keeps(hosts, notes, n - 1);
        let before = plan_of(hosts, notes, n - 1);
        let h = hosts[n - 1];
        let a = Plan {
            notes: before.notes.push(
                apache::remark(
                    h.line,
                    block_name(h),
                    "no ServerName — routes match every host on the listener"@,
                ),
            ),
            ..before
        };
        lemma_passes_keep(a, h.passes, hosts_of(h), h.passes.len() as int);
        lemma_passes_keep(before, h.passes, hosts_of(h), h.passes.len() as int);
    }
}

/// Every note that was taken while reading stands in the generated report.
pub proof fn every_note_is_reported(
    hosts: Seq<Host>,
    notes: Seq<Remark>,
    source: Seq<char>,
    i: int,
)
    requires
        emitted(hosts, notes, source).1 is Ok,
        0 <= i < notes.len(),
    ensures
        emitted(hosts, notes, source).0.contains(notes[i]),
{
    let c = certs_checked(hosts, notes);
    let g = grouped(hosts, c.0, hosts.len() as int);
    let l = listeners_of(hosts, g.groups, g.notes, g.groups.len() as int);
    let p = plan_of(hosts, l.notes, hosts.len() as int);
    lemma_certs_keep(hosts, notes);
    lemma_grouping_keeps(hosts, c.0, hosts.len() as int);
    lemma_listeners_keep(hosts, g.groups, g.notes, g.groups.len() as int);
    lemma_plan_keeps(hosts, l.notes, hosts.len() as int);
    assert(c.0[i] == notes[i]);
    assert(g.notes[i] == notes[i]);
    assert(l.notes[i] == notes[i]);
    assert(p.notes[i] == notes[i]);
    report_keeps_notes(p.notes);
    broadcast use vstd::seq_lib::group_to_multiset_ensures;

    assert(p.notes.contains(notes[i]));
    assert(p.notes.to_multiset().count(notes[i]) > 0);
    assert(by_line(p.notes).to_multiset().count(notes[i]) > 0);
}

proof fn lemma_lines_hold(notes: Seq<Remark>, i: int)
    requires
        0 <= i < notes.len(),
    ensures
        text::holds(note_lines(notes), note_line(notes[i])),
    decreases notes.len(),
{
    let init = notes.drop_last();
    let last = note_line(notes.last());
    if i == notes.len() - 1 {
        text::lemma_holds_itself(last);
        text::lemma_holds_around(note_lines(init), last, ""@, last);
    } else {
        assert(init[i] == notes[i]);
        lemma_lines_hold(init, i);
        text::lemma_holds_around(""@, note_lines(init), last, note_line(notes[i]));
    }
}

/// Nothing is dropped silently: every note that was taken, while reading or while
/// generating, stands as a comment line in the generated configuration.
pub proof fn notes_stand_in_the_document(
    hosts: Seq<Host>,
    notes: Seq<Remark>,
    source: Seq<char>,
    i: int,
)
    requires
        0 <= i < emitted(hosts, notes, source).0.len(),
    ensures
        emitted(hosts, notes, source).1 matches Ok(t) ==> text::holds(
            t,
            note_line(emitted(hosts, notes, source).0[i]),
        ),
{
    let c = certs_checked(hosts, notes);
    let g = grouped(hosts, c.0, hosts.len() as int);
    if c.1 is None && g.error is None {
        let l = listeners_of(hosts, g.groups, g.notes, g.groups.len() as int);
        let p = plan_of(hosts, l.notes, hosts.len() as int);
        let sorted = by_line(p.notes);
        let line = note_line(sorted[i]);
        lemma_lines_hold(sorted, i);
        let caption = "//\n// NOT IMPORTED (stays on the backend / needs manual attention):\n"@;
        text::lemma_holds_around(caption, note_lines(sorted), ""@, line);
        lemma_header_holds(source, sorted, line);
        lemma_document_holds(source, sorted, l.text, p, line);
    }
}

proof fn lemma_header_holds(source: Seq<char>, notes: Seq<Remark>, line: Seq<char>)
    requires
        notes.len() > 0,
        text::holds(
            "//\n// NOT IMPORTED (stays on the backend / needs manual attention):\n"@ + note_lines(
                notes,
            ),
            line,
        ),
    ensures
        text::holds(header(source, notes), line),
{
    let tail = "//\n// NOT IMPORTED (stays on the backend / needs manual attention):\n"@ + note_lines(
        notes,
    );
    let h = header(source, notes);
    let head = h.take(h.len() - tail.len());
    assert(h =~= head + tail);
    text::lemma_holds_around(head, tail, ""@, line);
}

proof fn lemma_document_holds(
    source: Seq<char>,
    notes: Seq<Remark>,
    listeners: Seq<char>,
    plan: Plan,
    line: Seq<char>,
)
    requires
        text::holds(header(source, notes), line),
    ensures
        text::holds(document(source, notes, listeners, plan), line),
{
    let h = header(source, notes);
    let d = document(source, notes, listeners, plan);
    let tail = d.skip(h.len() as int);
    assert(d =~= h + tail);
    text::lemma_holds_around(""@, h, tail, line);
}

// ---------------------------------------------------------------------------
// Laws on addresses, listeners and routes
// ---------------------------------------------------------------------------

/// The priority of a route is fifty and one for each byte of its prefix.
pub proof fn priority_counts_the_prefix(path: Seq<char>)
    ensures
        route_priority(path) == 50 + encode_utf8(path).len(),
{
}

/// What a block binds: every address for `*`, `_default_` and host names, where a host
/// name is noted, and the address itself otherwise, in brackets if it is IPv6.
pub proof fn blocks_bind_addresses(
    h: Host,
    host: Seq<char>,
    port: Option<u16>,
    default_port: u16,
    notes: Seq<Remark>,
)
    ensures
        ({
            let b = bound(h, host, port, default_port, notes);
            let all = host == seq!['*'] || text::eq_ignore_case(host, "_default_"@);
            let p = match port {
                Some(p) => p,
                None => default_port,
            };
            let named = !all && addr::parse_ip(host) is None;
            &&& b.port == p
            &&& all || named ==> b.address == "0.0.0.0"@ + seq![':'] + text::digits(p as nat)
            &&& !all && !named && !host.contains(':') ==> b.address == host + seq![':']
                + text::digits(p as nat)
            &&& !all && !named && host.contains(':') ==> b.address == seq!['['] + host + seq![
                ']',
                ':',
            ] + text::digits(p as nat)
            &&& b.notes.len() == notes.len() + (if named {
                1int
            } else {
                0int
            }) + (if port is None {
                1int
            } else {
                0int
            })
            &&& notes.is_prefix_of(b.notes)
        }),
{
    reveal_strlit("*");
    reveal_strlit(":");
    reveal_strlit("[");
    reveal_strlit("]:");
    reveal_strlit("0.0.0.0");
    assert("*"@ =~= seq!['*']);
    assert(":"@ =~= seq![':']);
    assert("["@ =~= seq!['[']);
    assert("]:"@ =~= seq![']', ':']);
    assert(!"0.0.0.0"@.contains(':'));
}

/// The port of a block: the written one, and without one 443 where the block has a
/// certificate and its key, 80 otherwise.
pub proof fn blocks_without_a_port(h: Host, host: Seq<char>, p: u16, notes: Seq<Remark>)
    requires
        host.len() > 0,
        host[0] != '[',
        forall|i: int| 0 <= i < host.len() ==> #[trigger] host[i] != ':',
    ensures
        h.address == host ==> normalized(h, notes) == Result::<Bound, Seq<char>>::Ok(
            bound(
                h,
                host,
                None,
                if h.cert is Some && h.key is Some {
                    443
                } else {
                    80
                },
                notes,
            ),
        ),
        h.address == host + seq![':', '*'] ==> normalized(h, notes) == Result::<Bound, Seq<char>>::Ok(
            bound(
                h,
                host,
                None,
                if h.cert is Some && h.key is Some {
                    443
                } else {
                    80
                },
                notes,
            ),
        ),
        h.address == host + (seq![':'] + text::digits(p as nat)) ==> normalized(h, notes) == Result::<
            Bound,
            Seq<char>,
        >::Ok(bound(h, host, Some(p), default_port(h), notes)),
{
    let raw = h.address;
    reveal_strlit(":*");
    reveal_strlit(":");
    assert(":*"@ =~= seq![':', '*']);
    assert(":"@ =~= seq![':']);
    if raw == host {
        assert(!raw.contains(':'));
        if ":*"@.is_suffix_of(raw) {
            assert(raw.subrange(raw.len() - 2, raw.len() as int)[0] == raw[raw.len() - 2]);
        }
    }
    if raw == host + seq![':', '*'] {
        assert(raw.subrange(raw.len() - 2, raw.len() as int) =~= ":*"@);
        assert(":*"@.is_suffix_of(raw));
        assert(raw.take(raw.len() - 2) =~= host);
    }
    if raw == host + (seq![':'] + text::digits(p as nat)) {
        let d = text::digits(p as nat);
        text::lemma_digits(p as nat);
        assert(raw[host.len() as int] == ':');
        assert(raw.contains(':'));
        assert(raw[0] == host[0]);
        if ":*"@.is_suffix_of(raw) {
            assert(raw.subrange(raw.len() - 2, raw.len() as int)[1] == raw[raw.len() - 1]);
            assert(raw[raw.len() - 1] == d[d.len() - 1]);
            assert(text::is_digit(d[d.len() - 1]));
        }
        apache::lemma_host_port(host, Some(d), default_port(h));
        assert((":"@ + d).is_suffix_of(raw)) by {
            assert(raw.subrange(raw.len() - d.len() - 1, raw.len() as int) =~= ":"@ + d);
        }
    }
}

/// Blocks on one address share one listener: a block joins the group of its address, in
/// order, and leaves every other group as it is.
pub proof fn blocks_on_one_address_share_a_listener(
    groups: Seq<(Seq<char>, Members)>,
    address: Seq<char>,
    port: u16,
    index: usize,
    other: Seq<char>,
)
    requires
        strmap::sorted(groups),
    ensures
        strmap::get(group_step(groups, address, port, index), address) == (match strmap::get(
            groups,
            address,
        ) {
            Some(g) => Some(Members { port: g.port, members: g.members.push(index) }),
            None => Some(Members { port, members: seq![index] }),
        }),
        other != address ==> strmap::get(group_step(groups, address, port, index), other)
            == strmap::get(groups, other),
{
    let v = match strmap::get(groups, address) {
        Some(g) => Members { members: g.members.push(index), ..g },
        None => Members { port, members: seq![index] },
    };
    strmap::get_after_insert(groups, address, v, address);
    strmap::get_after_insert(groups, address, v, other);
}

/// A listener speaks HTTPS exactly where a block on it has both a certificate and its
/// key; the first such block gives the certificate of the listener.
pub proof fn certificates_make_https(l: Listening, hosts: Seq<Host>, address: Seq<char>, g: Members)
    ensures
        ({
            let id = naming::unique("apache-"@ + text::digits(g.port as nat), l.ids);
            let t = listener_step(l, hosts, address, g);
            &&& t.ids == l.ids.push(id)
            &&& (forall|i: int|
                0 <= i < g.members.len() ==> !(hosts[(#[trigger] g.members[i]) as int].cert is Some
                    && hosts[g.members[i] as int].key is Some)) ==> t.text == l.text
                + "    listener \""@ + id + "\" {\n        address \""@ + naming::escaped(address)
                + "\"\n        protocol \""@ + "http"@ + "\"\n"@ + "    }\n"@
            &&& forall|i: int|
                0 <= i < g.members.len() && hosts[(#[trigger] g.members[i]) as int].cert is Some
                    && hosts[g.members[i] as int].key is Some && (forall|j: int|
                    0 <= j < i ==> !(hosts[(#[trigger] g.members[j]) as int].cert is Some
                        && hosts[g.members[j] as int].key is Some)) ==> (l.text + "    listener \""@ + id
                    + "\" {\n        address \""@ + naming::escaped(address)
                    + "\"\n        protocol \""@ + "https"@ + "\"\n"@
                    + "        tls {\n            cert-file \""@ + naming::escaped(
                    hosts[g.members[i] as int].cert->0,
                ) + "\"\n            key-file \""@ + naming::escaped(
                    hosts[g.members[i] as int].key->0,
                ) + "\"\n"@).is_prefix_of(t.text)
        }),
{
    let id = naming::unique("apache-"@ + text::digits(g.port as nat), l.ids);
    let t = listener_step(l, hosts, address, g);
    let tls = tls_members(hosts, g.members);
    lemma_tls_members(hosts, g.members);
    let certified = |m: usize| apache::has_certs(hosts[m as int]);
    if forall|i: int|
        0 <= i < g.members.len() ==> !(hosts[(#[trigger] g.members[i]) as int].cert is Some
            && hosts[g.members[i] as int].key is Some) {
        if tls.len() > 0 {
            assert(tls.contains(tls[0]));
            let i = choose|i: int| 0 <= i < g.members.len() && g.members[i] == tls[0];
            assert(apache::has_certs(hosts[g.members[i] as int]));
        }
        assert(t.text =~= l.text + "    listener \""@ + id + "\" {\n        address \""@
            + naming::escaped(address) + "\"\n        protocol \""@ + "http"@ + "\"\n"@
            + "    }\n"@);
    }
    assert forall|i: int|
        0 <= i < g.members.len() && hosts[(#[trigger] g.members[i]) as int].cert is Some
            && hosts[g.members[i] as int].key is Some && (forall|j: int|
            0 <= j < i ==> !(hosts[(#[trigger] g.members[j]) as int].cert is Some
                && hosts[g.members[j] as int].key is Some)) implies (l.text + "    listener \""@ + id
        + "\" {\n        address \""@ + naming::escaped(address) + "\"\n        protocol \""@
        + "https"@ + "\"\n"@ + "        tls {\n            cert-file \""@ + naming::escaped(
        hosts[g.members[i] as int].cert->0,
    ) + "\"\n            key-file \""@ + naming::escaped(hosts[g.members[i] as int].key->0)
        + "\"\n"@).is_prefix_of(t.text) by {
        lemma_first_tls(hosts, g.members, i);
        let front = l.text + listener_head(id, address, true) + tls_head(hosts[tls[0] as int]);
        let notes = mixed_notes(hosts, address, g, l.notes);
        let d = sni_blocks(Draft { text: front, notes }, hosts, tls, tls.len() as int);
        lemma_sni_text_grows(Draft { text: front, notes }, hosts, tls, tls.len() as int);
        let wanted = l.text + "    listener \""@ + id + "\" {\n        address \""@
            + naming::escaped(address) + "\"\n        protocol \""@ + "https"@ + "\"\n"@
            + "        tls {\n            cert-file \""@ + naming::escaped(
            hosts[g.members[i] as int].cert->0,
        ) + "\"\n            key-file \""@ + naming::escaped(hosts[g.members[i] as int].key->0)
            + "\"\n"@;
        assert(front =~= wanted);
        assert(t.text == d.text + "        }\n"@ + "    }\n"@);
        assert(t.text.subrange(0, front.len() as int) =~= d.text.subrange(0, front.len() as int));
    }
}

proof fn lemma_tls_members(hosts: Seq<Host>, members: Seq<usize>)
    ensures
        forall|m: usize| #[trigger]
            tls_members(hosts, members).contains(m) <==> members.contains(m) && hosts[m as int].cert is Some
                && hosts[m as int].key is Some,
    decreases members.len(),
{
    if members.len() > 0 {
        let init = members.drop_last();
        let last = members.last();
        lemma_tls_members(hosts, init);
        let rest = tls_members(hosts, init);
        let all = tls_members(hosts, members);
        assert forall|m: usize| #[trigger] all.contains(m) <==> members.contains(m)
            && hosts[m as int].cert is Some && hosts[m as int].key is Some by {
            if members.contains(m) {
                let i = choose|i: int| 0 <= i < members.len() && members[i] == m;
                if i < init.len() {
                    assert(init[i] == m);
                    assert(init.contains(m));
                }
            }
            if init.contains(m) {
                let i = choose|i: int| 0 <= i < init.len() && init[i] == m;
                assert(members[i] == m);
            }
            if all.contains(m) {
                let i = choose|i: int| 0 <= i < all.len() && all[i] == m;
                if i < rest.len() {
                    assert(rest[i] == m);
                    assert(rest.contains(m));
                } else {
                    assert(members[members.len() - 1] == m);
                }
            }
            if rest.contains(m) {
                let i = choose|i: int| 0 <= i < rest.len() && rest[i] == m;
                assert(all[i] == m);
            }
            if m == last && apache::has_certs(hosts[m as int]) {
                assert(all[rest.len() as int] == m);
            }
        }
    }
}

proof fn lemma_first_tls(hosts: Seq<Host>, members: Seq<usize>, i: int)
    requires
        0 <= i < members.len(),
        hosts[members[i] as int].cert is Some,
        hosts[members[i] as int].key is Some,
        forall|j: int|
            0 <= j < i ==> !(hosts[(#[trigger] members[j]) as int].cert is Some
                && hosts[members[j] as int].key is Some),
    ensures
        tls_members(hosts, members).len() > 0,
        tls_members(hosts, members)[0] == members[i],
    decreases members.len(),
{
    let init = members.drop_last();
    if i < init.len() {
        assert forall|j: int| 0 <= j < i implies !(hosts[(#[trigger] init[j]) as int].cert is Some
            && hosts[init[j] as int].key is Some) by {
            assert(init[j] == members[j]);
        }
        lemma_first_tls(hosts, init, i);
    } else {
        lemma_tls_members(hosts, init);
        let rest = tls_members(hosts, init);
        if rest.len() > 0 {
            assert(rest.contains(rest[0]));
            let j = choose|j: int| 0 <= j < init.len() && init[j] == rest[0];
            assert(members[j] == rest[0]);
        }
    }
}

proof fn lemma_sni_text_grows(d: Draft, hosts: Seq<Host>, tls: Seq<usize>, n: int)
    ensures
        d.text.len() <= sni_blocks(d, hosts, tls, n).text.len(),
        sni_blocks(d, hosts, tls, n).text.subrange(0, d.text.len() as int) == d.text,
    decreases n,
{
    if n > 1 {
        lemma_sni_text_grows(d, hosts, tls, n - 1);
        let before = sni_blocks(d, hosts, tls, n - 1).text;
        let after = sni_blocks(d, hosts, tls, n).text;
        assert(after.subrange(0, d.text.len() as int) =~= before.subrange(0, d.text.len() as int));
    } else {
        assert(d.text.subrange(0, d.text.len() as int) =~= d.text);
    }
}

/// A further block with a certificate of its own gets it under its names; one with the
/// certificate of the first block needs none, and one without a name is noted.
pub proof fn further_certificates_go_by_name(d: Draft, first: Host, h: Host, name: Seq<char>)
    ensures
        h.cert == first.cert && h.key == first.key ==> sni_step(d, first, h) == d,
        (h.cert != first.cert || h.key != first.key) && h.server_name is None && h.aliases.len() == 0
            ==> sni_step(d, first, h).text == d.text && sni_step(d, first, h).notes.len()
            == d.notes.len() + 1,
        (h.cert != first.cert || h.key != first.key) && h.server_name == Some(name) && h.aliases.len()
            == 0 && h.cert is Some && h.key is Some ==> sni_step(d, first, h).notes == d.notes
            && sni_step(d, first, h).text == d.text + "            sni {\n                hostnames "@
            + ("\""@ + naming::escaped(name) + "\""@) + "\n                cert-file \""@
            + naming::escaped(h.cert->0) + "\"\n                key-file \""@ + naming::escaped(
            h.key->0,
        ) + "\"\n            }\n"@,
        h.server_name == Some(name) ==> names_of(h) == seq![name] + h.aliases,
        h.server_name is None ==> names_of(h) == h.aliases,
{
    if h.server_name == Some(name) && h.aliases.len() == 0 {
        let ns = names_of(h);
        assert(ns =~= seq![name]);
        let qs = ns.map_values(|n: Seq<char>| quoted(n));
        assert(qs =~= seq![quoted(name)]);
        assert(text::join(qs, " "@) == quoted(name));
    }
}

/// The names that the routes of a block match: its server name first, then each alias
/// that is another name; any host where it has no name.
pub proof fn routes_match_the_names(h: Host, aliases: Seq<Seq<char>>, alias: Seq<char>, name: Seq<char>)
    ensures
        alias_hosts(Seq::<Seq<char>>::empty(), Some(name)) == seq![Some(name)],
        alias_hosts(Seq::<Seq<char>>::empty(), None) == Seq::<Option<Seq<char>>>::empty(),
        alias != name ==> alias_hosts(aliases.push(alias), Some(name)) == alias_hosts(
            aliases,
            Some(name),
        ).push(Some(alias)),
        alias_hosts(aliases.push(name), Some(name)) == alias_hosts(aliases, Some(name)),
        alias_hosts(aliases.push(alias), None) == alias_hosts(aliases, None).push(Some(alias)),
        h.server_name is None && h.aliases.len() == 0 ==> hosts_of(h) == seq![
            Option::<Seq<char>>::None,
        ],
        h.server_name is Some || h.aliases.len() > 0 ==> hosts_of(h) == alias_hosts(
            h.aliases,
            h.server_name,
        ),
{
    assert(aliases.push(alias).drop_last() =~= aliases);
    assert(aliases.push(name).drop_last() =~= aliases);
    lemma_alias_hosts_nonempty(h.aliases, h.server_name);
}

proof fn lemma_alias_hosts_nonempty(aliases: Seq<Seq<char>>, name: Option<Seq<char>>)
    ensures
        name is Some ==> alias_hosts(aliases, name).len() > 0,
        name is None ==> alias_hosts(aliases, name).len() == aliases.len(),
    decreases aliases.len(),
{
    if aliases.len() > 0 {
        lemma_alias_hosts_nonempty(aliases.drop_last(), name);
    }
}

/// A pass gets one route for each name, in order: with that name, its prefix, the
/// priority of its prefix, and the upstream for its target. That upstream has the
/// target's host, port and TLS; it is a new one only if none had them, and every other
/// upstream stays.
pub proof fn passes_become_routes(plan: Plan, p: Pass, hosts: Seq<Option<Seq<char>>>, i: int)
    requires
        plan_sound(plan),
        0 <= i < hosts.len(),
    ensures
        ({
            let after = pass_step(plan, p, hosts);
            let r = after.routes[plan.routes.len() + i];
            &&& after.routes.len() == plan.routes.len() + hosts.len()
            &&& after.routes.take(plan.routes.len() as int) == plan.routes
            &&& r.host == hosts[i]
            &&& r.path == p.path
            &&& r.priority == 50 + encode_utf8(p.path).len()
            &&& exists|k: int|
                0 <= k < after.ups.len() && (#[trigger] after.ups[k]).name == r.upstream
                    && after.ups[k].host == p.host && after.ups[k].port == p.port && after.ups[k].tls
                    == p.tls
            &&& (exists|k: int|
                0 <= k < plan.ups.len() && (#[trigger] plan.ups[k]).host == p.host
                    && plan.ups[k].port == p.port && plan.ups[k].tls == p.tls) ==> after.ups
                == plan.ups
            &&& !(exists|k: int|
                0 <= k < plan.ups.len() && (#[trigger] plan.ups[k]).host == p.host
                    && plan.ups[k].port == p.port && plan.ups[k].tls == p.tls) ==> after.ups.len()
                == plan.ups.len() + 1
            &&& forall|k: int|
                0 <= k < plan.ups.len() ==> after.ups.contains(#[trigger] plan.ups[k])
            &&& after.notes == plan.notes
        }),
{
    let a = with_up(plan, p);
    lemma_with_up(plan, p);
    lemma_find_up(plan.ups, p, 0);
    lemma_up_slot(plan.ups, p, 0);
    let k = find_up(a.ups, p, 0);
    let up = a.ups[k].name;
    lemma_added_routes(a.routes, hosts, p.path, up, hosts.len() as int);
    let after = pass_step(plan, p, hosts);
    assert(after.ups[k].name == up);
    let f = find_up(plan.ups, p, 0);
    if f < plan.ups.len() {
        assert(plan.ups[f].host == p.host);
        assert forall|j: int| 0 <= j < plan.ups.len() implies after.ups.contains(
            #[trigger] plan.ups[j],
        ) by {
            assert(after.ups[j] == plan.ups[j]);
        }
    } else {
        let s = up_slot(plan.ups, p, 0);
        assert forall|j: int| 0 <= j < plan.ups.len() implies after.ups.contains(
            #[trigger] plan.ups[j],
        ) by {
            if j < s {
                assert(after.ups[j] == plan.ups[j]);
            } else {
                assert(after.ups[j + 1] == plan.ups[j]);
            }
        }
        if exists|j: int|
            0 <= j < plan.ups.len() && (#[trigger] plan.ups[j]).host == p.host && plan.ups[j].port
                == p.port && plan.ups[j].tls == p.tls {
            let j = choose|j: int|
                0 <= j < plan.ups.len() && (#[trigger] plan.ups[j]).host == p.host && plan.ups[j].port
                    == p.port && plan.ups[j].tls == p.tls;
            assert(!serves(plan.ups[j], p));
        }
    }
}

proof fn lemma_added_routes(
    routes: Seq<Routed>,
    hosts: Seq<Option<Seq<char>>>,
    path: Seq<char>,
    upstream: Seq<char>,
    n: int,
)
    requires
        0 <= n <= hosts.len(),
    ensures
        add_routes(routes, hosts, path, upstream, n).len() == routes.len() + n,
        add_routes(routes, hosts, path, upstream, n).take(routes.len() as int) == routes,
        forall|i: int|
            0 <= i < n ==> ({
                let r = #[trigger] add_routes(routes, hosts, path, upstream, n)[routes.len() + i];
                r.host == hosts[i] && r.path == path && r.priority == 50 + encode_utf8(path).len()
                    && r.upstream == upstream
            }),
    decreases n,
{
    let all = add_routes(routes, hosts, path, upstream, n);
    if n > 0 {
        lemma_added_routes(routes, hosts, path, upstream, n - 1);
        let before = add_routes(routes, hosts, path, upstream, n - 1);
        assert(all.take(routes.len() as int) =~= before.take(routes.len() as int));
        assert forall|i: int| 0 <= i < n implies ({
            let r = #[trigger] all[routes.len() + i];
            r.host == hosts[i] && r.path == path && r.priority == 50 + encode_utf8(path).len()
                && r.upstream == upstream
        }) by {
            if i < n - 1 {
                assert(all[routes.len() + i] == before[routes.len() + i]);
            }
        }
    } else {
        assert(all.take(routes.len() as int) =~= routes);
    }
}

/// A block without a pass adds no route and is noted; one with passes adds those of its
/// passes, in order.
pub proof fn blocks_add_their_passes(plan: Plan, h: Host, passes: Seq<Pass>, p: Pass)
    ensures
        h.passes.len() == 0 ==> block_step(plan, h).routes == plan.routes && block_step(plan, h).ups
            == plan.ups && block_step(plan, h).notes.len() == plan.notes.len() + 1,
        h.passes.len() > 0 && (h.server_name is Some || h.aliases.len() > 0) ==> block_step(plan, h)
            == add_passes(plan, h.passes, hosts_of(h), h.passes.len() as int),
        add_passes(plan, passes.push(p), hosts_of(h), passes.len() as int + 1) == pass_step(
            add_passes(plan, passes.push(p), hosts_of(h), passes.len() as int),
            p,
            hosts_of(h),
        ),
        add_passes(plan, passes, hosts_of(h), 0) == plan,
{
    lemma_alias_hosts_nonempty(h.aliases, h.server_name);
    assert(passes.push(p)[passes.len() as int] == p);
}

/// How a route and an upstream are written: with all that they are made of.
pub proof fn generated_text_says_it_all(r: Routed, u: Up, host: Seq<char>)
    ensures
        r.host == Some(host) ==> route_text(r) == "    route \""@ + r.id
            + "\" {\n        priority "@ + text::digits(r.priority) + "\n        matches {\n"@ + (
        "            host \""@ + naming::escaped(host) + "\"\n"@)
            + "            path-prefix \""@ + naming::escaped(r.path)
            + "\"\n        }\n        upstream \""@ + r.upstream + "\"\n    }\n"@,
        r.host is None ==> route_text(r) == "    route \""@ + r.id + "\" {\n        priority "@
            + text::digits(r.priority) + "\n        matches {\n"@ + ""@
            + "            path-prefix \""@ + naming::escaped(r.path)
            + "\"\n        }\n        upstream \""@ + r.upstream + "\"\n    }\n"@,
        u.tls ==> upstream_text(u) == "    upstream \""@ + u.name + "\" {\n        target \""@
            + naming::escaped(endpoint(u.host, u.port)) + "\" weight=1\n"@ + (
        "        tls {\n            sni \""@ + naming::escaped(u.host) + "\"\n        }\n"@)
            + "    }\n"@,
        !u.tls ==> upstream_text(u) == "    upstream \""@ + u.name + "\" {\n        target \""@
            + naming::escaped(endpoint(u.host, u.port)) + "\" weight=1\n"@ + ""@ + "    }\n"@,
        !u.host.contains(':') ==> endpoint(u.host, u.port) == u.host + ":"@ + text::digits(
            u.port as nat,
        ),
        u.host.contains(':') ==> endpoint(u.host, u.port) == "["@ + u.host + "]:"@ + text::digits(
            u.port as nat,
        ),
{
}

/// A generated document holds its listeners, its routes and its upstreams, each in the
/// section of its name.
pub proof fn document_holds_every_section(source: Seq<char>, notes: Seq<Remark>, listeners: Seq<char>, plan: Plan)
    requires
        plan.routes.len() > 0,
        plan.ups.len() > 0,
    ensures
        document(source, notes, listeners, plan) == header(source, notes)
            + "\nsystem {\n    worker-threads 0 // 0 = auto-detect CPU count\n    max-connections 10000\n}\n"@
            + ("\n"@ + "listeners"@ + " {\n"@ + listeners + "}\n"@) + ("\n"@ + "routes"@ + " {\n"@
            + routes_text(plan.routes) + "}\n"@) + ("\n"@ + "upstreams"@ + " {\n"@ + upstreams_text(
            plan.ups,
        ) + "}\n"@),
{
}

/// Routes and upstreams are written one after the other.
pub proof fn texts_follow_each_other(routes: Seq<Routed>, r: Routed, ups: Seq<Up>, u: Up)
    ensures
        routes_text(routes.push(r)) == routes_text(routes) + route_text(r),
        upstreams_text(ups.push(u)) == upstreams_text(ups) + upstream_text(u),
{
    assert(routes.push(r).drop_last() =~= routes);
    assert(ups.push(u).drop_last() =~= ups);
}

/// What is refused: more than four mebibytes, a file without a virtual host, a file that
/// cannot be read, and one half of a certificate. Anything else is imported, unless an
/// address is wrong.
pub proof fn imports_that_are_refused(content: Seq<char>, source: Seq<char>)
    ensures
        encode_utf8(content).len() > 4 * 1024 * 1024 ==> imported(content, source).1 is Err,
        encode_utf8(content).len() <= 4 * 1024 * 1024 ==> (match apache::read(content, Seq::empty()).1 {
            Err(m) => imported(content, source).1 == Result::<(nat, Seq<char>), Seq<char>>::Err(m),
            Ok(hosts) => if hosts.len() == 0 {
                imported(content, source).1 is Err
            } else {
                match emitted(hosts, apache::read(content, Seq::empty()).0, source).1 {
                    Ok(t) => imported(content, source).1 == Result::<(nat, Seq<char>), Seq<char>>::Ok(
                        (hosts.len(), t),
                    ),
                    Err(m) => imported(content, source).1 == Result::<
                        (nat, Seq<char>),
                        Seq<char>,
                    >::Err(m),
                }
            },
        }),
{
}

/// Of two targets one comes before the other unless they are the same, and not both ways.
/// The host decides first, then the port; plain comes before TLS.
pub proof fn targets_are_in_order(p: Pass, q: Pass, u: Up, v: Up)
    requires
        u.host == q.host && u.port == q.port && u.tls == q.tls,
        v.host == p.host && v.port == p.port && v.tls == p.tls,
    ensures
        serves(u, p) ==> !target_before(p, u) && !target_before(q, v),
        !serves(u, p) ==> target_before(p, u) != target_before(q, v),
        p.host == q.host && p.port < q.port ==> target_before(p, u),
        p.host == q.host && p.port == q.port && !p.tls && q.tls ==> target_before(p, u),
        text::text_lt(p.host, q.host) ==> target_before(p, u),
{
    text::lemma_text_lt_total(p.host, q.host);
    text::lemma_text_lt_irreflexive(p.host);
    if text::text_lt(p.host, q.host) && text::text_lt(q.host, p.host) {
        text::lemma_text_lt_transitive(p.host, q.host, p.host);
    }
}

proof fn lemma_plain_line(hosts: Seq<Host>, members: Seq<usize>, from: int)
    requires
        0 <= from <= members.len(),
    ensures
        plain_line(hosts, members, from) is None <==> forall|i: int|
            from <= i < members.len() ==> apache::has_certs(
                hosts[(#[trigger] members[i]) as int],
            ),
        forall|i: int|
            from <= i < members.len() && !apache::has_certs(hosts[(#[trigger] members[i]) as int])
                && (forall|j: int|
                from <= j < i ==> apache::has_certs(hosts[(#[trigger] members[j]) as int]))
                ==> plain_line(hosts, members, from) == Some(hosts[members[i] as int].line),
    decreases members.len() - from,
{
    if from < members.len() {
        lemma_plain_line(hosts, members, from + 1);
        if apache::has_certs(hosts[members[from] as int]) {
            assert forall|i: int|
                from <= i < members.len() && !apache::has_certs(
                    hosts[(#[trigger] members[i]) as int],
                ) && (forall|j: int|
                    from <= j < i ==> apache::has_certs(
                        hosts[(#[trigger] members[j]) as int],
                    )) implies plain_line(hosts, members, from) == Some(
                hosts[members[i] as int].line,
            ) by {
                assert(from + 1 <= i);
            }
        } else {
            assert forall|i: int|
                from <= i < members.len() && !apache::has_certs(
                    hosts[(#[trigger] members[i]) as int],
                ) && (forall|j: int|
                    from <= j < i ==> apache::has_certs(
                        hosts[(#[trigger] members[j]) as int],
                    )) implies plain_line(hosts, members, from) == Some(
                hosts[members[i] as int].line,
            ) by {
                if i > from {
                    assert(apache::has_certs(hosts[members[from] as int]));
                }
            }
        }
    }
}

proof fn lemma_some_tls(hosts: Seq<Host>, members: Seq<usize>)
    ensures
        tls_members(hosts, members).len() > 0 <==> exists|i: int|
            0 <= i < members.len() && apache::has_certs(hosts[(#[trigger] members[i]) as int]),
    decreases members.len(),
{
    if members.len() > 0 {
        let init = members.drop_last();
        lemma_some_tls(hosts, init);
        if tls_members(hosts, init).len() > 0 {
            let i = choose|i: int|
                0 <= i < init.len() && apache::has_certs(hosts[(#[trigger] init[i]) as int]);
            assert(members[i] == init[i]);
        }
        if exists|i: int|
            0 <= i < members.len() && apache::has_certs(hosts[(#[trigger] members[i]) as int]) {
            let i = choose|i: int|
                0 <= i < members.len() && apache::has_certs(hosts[(#[trigger] members[i]) as int]);
            if i < init.len() {
                assert(init[i] == members[i]);
            }
        }
        assert(members[members.len() - 1] == members.last());
    }
}

/// A block without a certificate on an address where another block has one is noted, at
/// the line of the first such block. Where all blocks of an address are alike, none is.
pub proof fn plain_blocks_among_tls_are_noted(
    hosts: Seq<Host>,
    address: Seq<char>,
    g: Members,
    notes: Seq<Remark>,
    p: int,
    t: int,
)
    ensures
        (forall|i: int|
            0 <= i < g.members.len() ==> hosts[(#[trigger] g.members[i]) as int].cert is Some
                && hosts[g.members[i] as int].key is Some) ==> mixed_notes(hosts, address, g, notes)
            == notes,
        (forall|i: int|
            0 <= i < g.members.len() ==> hosts[(#[trigger] g.members[i]) as int].cert is None)
            ==> mixed_notes(hosts, address, g, notes) == notes,
        0 <= p < g.members.len() && hosts[g.members[p] as int].cert is None && (forall|j: int|
            0 <= j < p ==> hosts[(#[trigger] g.members[j]) as int].cert is Some
                && hosts[g.members[j] as int].key is Some) && 0 <= t < g.members.len()
            && hosts[g.members[t] as int].cert is Some && hosts[g.members[t] as int].key is Some
            ==> mixed_notes(hosts, address, g, notes) == notes.push(
            apache::remark(
                hosts[g.members[p] as int].line,
                "<VirtualHost on "@ + address + ">"@,
                "shares an address with TLS vhosts; this vhost is served over HTTPS too"@,
            ),
        ),
{
    lemma_plain_line(hosts, g.members, 0);
    lemma_some_tls(hosts, g.members);
    if forall|i: int|
        0 <= i < g.members.len() ==> hosts[(#[trigger] g.members[i]) as int].cert is Some
            && hosts[g.members[i] as int].key is Some {
        assert forall|i: int| 0 <= i < g.members.len() implies apache::has_certs(
            hosts[(#[trigger] g.members[i]) as int],
        ) by {}
    }
    if forall|i: int|
        0 <= i < g.members.len() ==> hosts[(#[trigger] g.members[i]) as int].cert is None {
        assert forall|i: int| 0 <= i < g.members.len() implies !apache::has_certs(
            hosts[(#[trigger] g.members[i]) as int],
        ) by {}
    }
    if 0 <= p < g.members.len() && hosts[g.members[p] as int].cert is None && (forall|j: int|
        0 <= j < p ==> hosts[(#[trigger] g.members[j]) as int].cert is Some
            && hosts[g.members[j] as int].key is Some) && 0 <= t < g.members.len()
        && hosts[g.members[t] as int].cert is Some && hosts[g.members[t] as int].key is Some {
        assert forall|j: int| 0 <= j < p implies apache::has_certs(
            hosts[(#[trigger] g.members[j]) as int],
        ) by {}
        assert(!apache::has_certs(hosts[g.members[p] as int]));
        assert(apache::has_certs(hosts[g.members[t] as int]));
    }
}

/// A certificate needs its key and a key its certificate: the first block that has only
/// one of them is the error, which says which is missing. TLS that is switched on without
/// either is noted.
pub proof fn certificates_are_checked(hosts: Seq<Host>, h: Host, notes: Seq<Remark>)
    ensures
        certs_checked(Seq::empty(), notes) == (notes, None::<Seq<char>>),
        certs_checked(hosts, notes).1 is Some ==> certs_checked(hosts.push(h), notes)
            == certs_checked(hosts, notes),
        certs_checked(hosts, notes).1 is None ==> {
            let before = certs_checked(hosts, notes).0;
            let after = certs_checked(hosts.push(h), notes);
            &&& h.cert is Some && h.key is None ==> after == (
                before,
                Some(apache::at_line(h.line, "SSLCertificateFile without SSLCertificateKeyFile"@)),
            )
            &&& h.cert is None && h.key is Some ==> after == (
                before,
                Some(apache::at_line(h.line, "SSLCertificateKeyFile without SSLCertificateFile"@)),
            )
            &&& h.cert is Some && h.key is Some ==> after == (before, None::<Seq<char>>)
            &&& h.cert is None && h.key is None && !h.ssl_engine ==> after == (
                before,
                None::<Seq<char>>,
            )
            &&& h.cert is None && h.key is None && h.ssl_engine ==> after.1 is None
                && after.0.len() == before.len() + 1 && after.0.drop_last() == before
        },
{
    assert(hosts.push(h).drop_last() =~= hosts);
    let before = certs_checked(hosts, notes).0;
    let after = certs_checked(hosts.push(h), notes).0;
    if after.len() == before.len() + 1 {
        assert(after.drop_last() =~= before);
    }
}

} // verus!
