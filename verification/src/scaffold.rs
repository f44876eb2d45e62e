//! Scaffold of a minimal agent project.
//!
//! The files of a new project come from templates with placeholders for the name of
//! the agent, its type name and the crate version it builds against. Directories and
//! files are the caller's.

use crate::text;
use vstd::prelude::*;
use vstd::string::*;

verus! {

/// The published crate version that a new agent depends on.
pub const CRATE_VERSION_REQ: &'static str = "0.6";

// ---------------------------------------------------------------------------
// Names
// ---------------------------------------------------------------------------

/// A lowercase ASCII letter.
pub open spec fn is_lower(c: char) -> bool {
    'a' <= c <= 'z'
}

/// A character that a name may hold.
pub open spec fn is_name_char(c: char) -> bool {
    is_lower(c) || text::is_digit(c) || c == '-'
}

/// A legal name: lowercase ASCII letters, digits and single hyphens, starting with a
/// letter and not ending with a hyphen, 1 to 64 characters.
pub open spec fn is_valid_name(name: Seq<char>) -> bool {
    &&& 1 <= name.len() <= 64
    &&& is_lower(name[0])
    &&& name.last() != '-'
    &&& forall|i: int| 0 <= i < name.len() ==> is_name_char(#[trigger] name[i])
    &&& forall|i: int| 0 < i < name.len() ==> !(name[i - 1] == '-' && #[trigger] name[i] == '-')
}

/// Why a project cannot be made.
#[derive(Debug)]
pub struct ScaffoldError {
    /// What is wrong, in words.
    pub message: String,
}

impl View for ScaffoldError {
    type V = Seq<char>;

    open spec fn view(&self) -> Seq<char> {
        self.message@
    }
}

/// The words for an illegal name.
pub open spec fn bad_name_text(name: Seq<char>) -> Seq<char> {
    "invalid agent name '"@ + name
        + "': use lowercase letters, digits and single hyphens, starting with a letter (e.g. 'my-waf')"@
}

fn is_legal(v: &Vec<char>) -> (r: bool)
    ensures
        r == is_valid_name(v@),
{
    let n = v.len();
    if n == 0 || n > 64 {
        return false;
    }
    if !('a' <= v[0] && v[0] <= 'z') || v[n - 1] == '-' {
        return false;
    }
    let mut i: usize = 0;
    while i < n
        invariant
            0 <= i <= n,
            n == v@.len(),
            forall|j: int| 0 <= j < i ==> is_name_char(#[trigger] v@[j]),
            forall|j: int| 0 < j < i ==> !(v@[j - 1] == '-' && #[trigger] v@[j] == '-'),
        decreases n - i,
    {
        let c = v[i];
        if !(('a' <= c && c <= 'z') || ('0' <= c && c <= '9') || c == '-') {
            assert(!is_name_char(v@[i as int]));
            return false;
        }
        if i > 0 && c == '-' && v[i - 1] == '-' {
            assert(v@[i as int] == '-' && v@[i - 1] == '-');
            return false;
        }
        i += 1;
    }
    true
}

/// Accepts a legal crate name and refuses any other.
pub fn validate_name(name: &str) -> (r: Result<(), ScaffoldError>)
    ensures
        (match r {
            Ok(_) => is_valid_name(name@),
            Err(e) => !is_valid_name(name@) && e@ == bad_name_text(name@),
        }),
{
    let v = text::chars_of(name);
    if is_legal(&v) {
        Ok(())
    } else {
        let mut m = "invalid agent name '".to_owned();
        m.append(name);
        m.append(
            "': use lowercase letters, digits and single hyphens, starting with a letter (e.g. 'my-waf')",
        );
        Err(ScaffoldError { message: m })
    }
}

/// A character between the words of a name.
pub open spec fn is_separator(c: char) -> bool {
    c == '-' || c == '_'
}

/// The name without its separators, each word with a capital first letter.
pub open spec fn pascal(name: Seq<char>) -> Seq<char>
    decreases name.len(),
{
    if name.len() == 0 {
        Seq::empty()
    } else {
        let init = name.drop_last();
        let c = name.last();
        if is_separator(c) {
            pascal(init)
        } else if init.len() == 0 || is_separator(init.last()) {
            pascal(init).push(text::ascii_upper(c))
        } else {
            pascal(init).push(c)
        }
    }
}

/// Converts a name to `PascalCase` for a type identifier (`my-waf` to `MyWaf`).
pub fn to_pascal_case(name: &str) -> (r: String)
    ensures
        r@ == pascal(name@),
{
    let v = text::chars_of(name);
    let ghost all = name@;
    let mut out = String::new();
    assert(out@ =~= Seq::empty());
    assert(all.take(0) =~= Seq::empty());
    let mut i: usize = 0;
    while i < v.len()
        invariant
            0 <= i <= v.len(),
            v@ == all,
            out@ == pascal(all.take(i as int)),
        decreases v.len() - i,
    {
        assert(all.take(i + 1).drop_last() =~= all.take(i as int));
        assert(all.take(i + 1).last() == v@[i as int]);
        assert(i > 0 ==> all.take(i as int).last() == v@[i - 1]);
        let c = v[i];
        if c != '-' && c != '_' {
            if i == 0 || v[i - 1] == '-' || v[i - 1] == '_' {
                out.push(text::upper_char(c));
            } else {
                out.push(c);
            }
        }
        i += 1;
    }
    assert(all.take(all.len() as int) =~= all);
    out
}

/// The type name of a legal name is an identifier: a capital letter, then ASCII
/// letters and digits.
pub proof fn pascal_is_an_identifier(name: Seq<char>)
    requires
        is_valid_name(name),
    ensures
        pascal(name).len() > 0,
        'A' <= pascal(name)[0] <= 'Z',
        forall|i: int|
            0 <= i < pascal(name).len() ==> ('a' <= #[trigger] pascal(name)[i] <= 'z' || 'A'
                <= pascal(name)[i] <= 'Z' || '0' <= pascal(name)[i] <= '9'),
{
    lemma_pascal(name);
}

proof fn lemma_pascal(name: Seq<char>)
    requires
        name.len() > 0,
        is_lower(name[0]),
        forall|i: int| 0 <= i < name.len() ==> is_name_char(#[trigger] name[i]),
    ensures
        pascal(name).len() > 0,
        'A' <= pascal(name)[0] <= 'Z',
        forall|i: int|
            0 <= i < pascal(name).len() ==> ('a' <= #[trigger] pascal(name)[i] <= 'z' || 'A'
                <= pascal(name)[i] <= 'Z' || '0' <= pascal(name)[i] <= '9'),
    decreases name.len(),
{
    let init = name.drop_last();
    assert(is_name_char(name[name.len() - 1]));
    if init.len() > 0 {
        assert(init[0] == name[0]);
        assert forall|i: int| 0 <= i < init.len() implies is_name_char(#[trigger] init[i]) by {
            assert(init[i] == name[i]);
        }
        lemma_pascal(init);
    } else {
        assert(pascal(init) =~= Seq::empty());
    }
}

// ---------------------------------------------------------------------------
// Templates
// ---------------------------------------------------------------------------

/// The manifest of a generated crate.
pub const CARGO_TOML: &'static str = r#"[package]
name = "__NAME__"
version = "0.1.0"
edition = "2021"
description = "__NAME__ — a Zentinel external agent"
license = "MIT OR Apache-2.0"

# An empty [workspace] table makes this project self-contained even when it is
# generated inside an existing Cargo workspace.
[workspace]

[[bin]]
name = "__NAME__"
path = "src/main.rs"

[dependencies]
zentinel-agent-protocol = "__VERSION_REQ__"
tokio = { version = "1", features = ["full"] }
async-trait = "0.1"
anyhow = "1"
tracing = "0.1"
tracing-subscriber = { version = "0.3", features = ["env-filter"] }
clap = { version = "4", features = ["derive", "env"] }
"#;

/// The program of a generated agent.
pub const MAIN_RS: &'static str = r#"//! __NAME__ — a Zentinel external agent.
//!
//! The whole policy lives in `on_request_headers`. Edit that one method; the
//! protocol handshake, framing, health checks and draining are handled for you.

use anyhow::{Context, Result};
use async_trait::async_trait;
use clap::Parser;
use std::path::PathBuf;
use tracing::info;

use zentinel_agent_protocol::v2::server::GrpcAgentServerV2;
use zentinel_agent_protocol::v2::uds_server::UdsAgentServerV2;
use zentinel_agent_protocol::v2::{AgentCapabilities, AgentHandlerV2};
use zentinel_agent_protocol::{AgentResponse, EventType, RequestHeadersEvent};

/// Stable identifier the proxy uses for this agent.
const AGENT_ID: &str = "__NAME__";

#[derive(Parser, Debug)]
#[command(author, version, about = "__NAME__ — a Zentinel external agent", long_about = None)]
struct Args {
    /// Unix socket path to listen on (mutually exclusive with --grpc).
    #[arg(short, long, env = "AGENT_SOCKET", conflicts_with = "grpc")]
    socket: Option<PathBuf>,

    /// gRPC address to listen on, e.g. "0.0.0.0:50051" (mutually exclusive with --socket).
    #[arg(short, long, env = "AGENT_GRPC", conflicts_with = "socket")]
    grpc: Option<String>,

    /// Log level (trace, debug, info, warn, error).
    #[arg(short, long, env = "AGENT_LOG_LEVEL", default_value = "info")]
    log_level: String,
}

/// Your agent. Add any state it needs as fields.
struct __PASCAL__Agent;

#[async_trait]
impl AgentHandlerV2 for __PASCAL__Agent {
    fn capabilities(&self) -> AgentCapabilities {
        AgentCapabilities::new(AGENT_ID, "__NAME__", env!("CARGO_PKG_VERSION"))
            .with_event(EventType::RequestHeaders)
    }

    /// Decide what to do with each incoming request. This is the one method to edit.
    async fn on_request_headers(&self, event: RequestHeadersEvent) -> AgentResponse {
        // TODO: inspect the request and return a decision. For example:
        //
        //     if event.headers.contains_key("x-blocked") {
        //         return AgentResponse::block(403, Some("blocked by __NAME__".to_string()));
        //     }
        let _ = event;
        AgentResponse::default_allow()
    }
}

#[tokio::main]
async fn main() -> Result<()> {
    let args = Args::parse();

    let filter = tracing_subscriber::EnvFilter::try_from_default_env()
        .unwrap_or_else(|_| tracing_subscriber::EnvFilter::new(&args.log_level));
    tracing_subscriber::fmt().with_env_filter(filter).init();

    let agent = Box::new(__PASCAL__Agent);

    match (args.socket, args.grpc) {
        (Some(socket), None) => {
            info!(socket = ?socket, "__NAME__ listening on Unix socket");
            UdsAgentServerV2::new(AGENT_ID, socket, agent)
                .run()
                .await
                .context("agent Unix-socket server failed")?;
        }
        (None, Some(grpc_addr)) => {
            let addr = grpc_addr
                .parse()
                .context("invalid --grpc address (expected host:port)")?;
            info!(grpc = %grpc_addr, "__NAME__ listening on gRPC");
            GrpcAgentServerV2::new(AGENT_ID, agent)
                .run(addr)
                .await
                .context("agent gRPC server failed")?;
        }
        _ => anyhow::bail!("specify exactly one of --socket or --grpc"),
    }

    Ok(())
}
"#;

/// The registry manifest of a generated agent.
pub const MANIFEST_TOML: &'static str = r#"# Zentinel Agent Registry Manifest
[agent]
name = "__NAME__"
version = "0.1.0"
description = "__NAME__ — a Zentinel external agent"
license = "MIT OR Apache-2.0"

[protocol]
version = "2"
events = ["request_headers"]

[compatibility]
zentinel-agent-protocol = "__VERSION_REQ__"
"#;

/// The container recipe of a generated agent.
pub const DOCKERFILE: &'static str = r#"# Build stage
FROM rust:1-slim AS build
WORKDIR /src
COPY . .
RUN cargo build --release

# Runtime stage
FROM debian:stable-slim
COPY --from=build /src/target/release/__NAME__ /usr/local/bin/__NAME__
# Serve over gRPC by default; override AGENT_GRPC or pass --socket for a Unix socket.
ENV AGENT_GRPC=0.0.0.0:50051
EXPOSE 50051
ENTRYPOINT ["/usr/local/bin/__NAME__"]
"#;

/// The readme of a generated agent.
pub const README_MD: &'static str = r#"# __NAME__

A minimal [Zentinel](https://github.com/zentinelproxy/zentinel) external agent.
All the policy lives in `on_request_headers` in `src/main.rs` — edit that one
method; the protocol handshake, framing, health and drain are handled for you.

## Build & run

```bash
cargo build --release

# Listen on a Unix socket:
./target/release/__NAME__ --socket /tmp/__NAME__.sock

# ...or on gRPC:
./target/release/__NAME__ --grpc 0.0.0.0:50051
```

## Register with Zentinel

Add the agent to your `zentinel.kdl` and reference it from a route.

Unix socket:

```kdl
agents {
    agent "__NAME__" {
        unix-socket "/tmp/__NAME__.sock"
        events "request_headers"
        timeout-ms 100
        failure-mode "closed"
    }
}
```

gRPC:

```kdl
agents {
    agent "__NAME__" {
        grpc address="http://localhost:50051"
        events "request_headers"
        timeout-ms 100
        failure-mode "closed"
    }
}
```

## Conformance

Verify protocol compliance with the Zentinel conformance suite:
<https://github.com/zentinelproxy/zentinel/tree/main/conformance>.

## Docker

```bash
docker build -t __NAME__ .
docker run -p 50051:50051 __NAME__
```
"#;

/// The text with every occurrence of `pat`, from the left and without overlap,
/// replaced by `by`.
pub open spec fn replaced(s: Seq<char>, pat: Seq<char>, by: Seq<char>) -> Seq<char>
    decreases s.len(),
{
    if s.len() == 0 || pat.len() == 0 {
        s
    } else if pat.len() <= s.len() && s.take(pat.len() as int) == pat {
        by + replaced(s.skip(pat.len() as int), pat, by)
    } else {
        seq![s[0]] + replaced(s.skip(1), pat, by)
    }
}

fn matches_at(v: &Vec<char>, p: &Vec<char>, i: usize) -> (r: bool)
    requires
        i <= v@.len(),
    ensures
        r == text::stands_at(v@, p@, i as int),
{
    if v.len() - i < p.len() {
        return false;
    }
    let mut k: usize = 0;
    while k < p.len()
        invariant
            0 <= k <= p.len(),
            i + p.len() <= v.len() <= usize::MAX,
            forall|j: int| 0 <= j < k ==> v@[i + j] == p@[j],
        decreases p.len() - k,
    {
        if v[i + k] != p[k] {
            assert(v@.subrange(i as int, i + p@.len())[k as int] != p@[k as int]);
            return false;
        }
        k += 1;
    }
    assert(v@.subrange(i as int, i + p@.len()) =~= p@);
    true
}

fn replace_all(s: &str, pat: &str, by: &str) -> (r: String)
    requires
        pat@.len() > 0,
    ensures
        r@ == replaced(s@, pat@, by@),
{
    let v = text::chars_of(s);
    let p = text::chars_of(pat);
    let ghost all = s@;
    let mut out = String::new();
    let mut i: usize = 0;
    assert(all.skip(0) =~= all);
    assert(out@ + replaced(all, pat@, by@) =~= replaced(all, pat@, by@));
    while i < v.len()
        invariant
            0 <= i <= v.len(),
            v@ == all,
            p@ == pat@,
            pat@.len() > 0,
            out@ + replaced(all.skip(i as int), pat@, by@) == replaced(all, pat@, by@),
        decreases v.len() - i,
    {
        let ghost rest = all.skip(i as int);
        let ghost before = out@;
        if matches_at(&v, &p, i) {
            out.append(by);
            proof {
                let n = pat@.len() as int;
                assert(rest.take(n) =~= all.subrange(i as int, i + n));
                assert(rest.skip(n) =~= all.skip(i + n));
                assert(before + (by@ + replaced(all.skip(i + n), pat@, by@)) =~= (before + by@)
                    + replaced(all.skip(i + n), pat@, by@));
            }
            i += p.len();
        } else {
            out.push(v[i]);
            proof {
                let n = pat@.len() as int;
                if n <= rest.len() {
                    assert(rest.take(n) =~= all.subrange(i as int, i + n));
                }
                assert(rest.skip(1) =~= all.skip(i + 1));
                assert(before + (seq![rest[0]] + replaced(all.skip(i + 1), pat@, by@))
                    =~= before.push(v@[i as int]) + replaced(all.skip(i + 1), pat@, by@));
            }
            i += 1;
        }
    }
    assert(all.skip(i as int) =~= Seq::empty());
    assert(out@ + Seq::<char>::empty() =~= out@);
    out
}

/// A template with its placeholders filled in.
pub open spec fn rendered(template: Seq<char>, name: Seq<char>, ident: Seq<char>) -> Seq<char> {
    replaced(
        replaced(replaced(template, "__NAME__"@, name), "__PASCAL__"@, ident),
        "__VERSION_REQ__"@,
        CRATE_VERSION_REQ@,
    )
}

/// Fills in the placeholders of a template.
pub fn render(template: &str, name: &str, pascal: &str) -> (r: String)
    ensures
        r@ == rendered(template@, name@, pascal@),
{
    proof {
        reveal_strlit("__NAME__");
        reveal_strlit("__PASCAL__");
        reveal_strlit("__VERSION_REQ__");
    }
    let named = replace_all(template, "__NAME__", name);
    let typed = replace_all(named.as_str(), "__PASCAL__", pascal);
    replace_all(typed.as_str(), "__VERSION_REQ__", CRATE_VERSION_REQ)
}

/// No `pat` in `s` stands directly behind a character of `mark`.
pub open spec fn set_apart(s: Seq<char>, pat: Seq<char>, mark: Seq<char>) -> bool {
    forall|k: int| 0 < k && #[trigger] text::stands_at(s, pat, k) ==> !mark.contains(s[k - 1])
}

/// `mark` opens and closes with a character that `by` lacks, and `by` fills no gap of
/// `mark`: it is no piece of it, or `pat` stands apart from what `mark` is made of.
pub open spec fn fills_no_gap(s: Seq<char>, pat: Seq<char>, by: Seq<char>, mark: Seq<char>) -> bool {
    &&& mark.len() > 0
    &&& !by.contains(mark[0])
    &&& !by.contains(mark.last())
    &&& by.len() > 0
    &&& text::holds(mark, by) ==> set_apart(s, pat, mark)
}

/// Where a text and the text with `pat` replaced first part, a replacement stands.
proof fn lemma_first_replacement(s: Seq<char>, pat: Seq<char>, by: Seq<char>, m: int) -> (j: int)
    requires
        pat.len() > 0,
        by.len() > 0,
        0 <= m <= replaced(s, pat, by).len(),
    ensures
        0 <= j <= m,
        j <= s.len(),
        s.take(j) == replaced(s, pat, by).take(j),
        j < m ==> text::stands_at(s, pat, j) && text::stands_at(replaced(s, pat, by), by, j),
    decreases s.len(),
{
    let r = replaced(s, pat, by);
    let n = pat.len() as int;
    assert(s.take(0) =~= r.take(0));
    if m == 0 || s.len() == 0 {
        0
    } else if n <= s.len() && s.take(n) == pat {
        assert(s.subrange(0, n) =~= s.take(n));
        assert(r.subrange(0, by.len() as int) =~= by);
        0
    } else {
        let tail = s.skip(1);
        let rest = replaced(tail, pat, by);
        let j = lemma_first_replacement(tail, pat, by, m - 1);
        assert(s.take(j + 1) =~= seq![s[0]] + tail.take(j));
        assert(r.take(j + 1) =~= seq![s[0]] + rest.take(j));
        if j < m - 1 {
            assert(s.subrange(j + 1, j + 1 + n) =~= tail.subrange(j, j + n));
            assert(r.subrange(j + 1, j + 1 + by.len()) =~= rest.subrange(j, j + by.len()));
        }
        j + 1
    }
}

/// A mark that opens the replaced text, though no `pat` opens the text, opened the
/// text before.
proof fn lemma_mark_was_there(s: Seq<char>, pat: Seq<char>, by: Seq<char>, mark: Seq<char>)
    requires
        pat.len() > 0,
        fills_no_gap(s, pat, by, mark),
        !text::stands_at(s, pat, 0),
        text::stands_at(replaced(s, pat, by), mark, 0),
    ensures
        text::stands_at(s, mark, 0),
{
    let r = replaced(s, pat, by);
    let n = mark.len() as int;
    let j = lemma_first_replacement(s, pat, by, n);
    assert(r.subrange(0, n) == mark);
    if j < n {
        assert(j > 0);
        let e = j + by.len();
        assert(r.subrange(j, e) == by);
        if e >= n {
            assert(mark.last() == r[n - 1]);
            assert(r.subrange(j, e)[n - 1 - j] == r[n - 1]);
            assert(by.contains(by[n - 1 - j]));
        } else {
            assert(mark.subrange(j, e) =~= r.subrange(j, e));
            assert(text::stands_at(mark, by, j));
            assert(s.take(j)[j - 1] == r.take(j)[j - 1]);
            assert(mark[j - 1] == s[j - 1]);
        }
    }
    assert(s.subrange(0, n) =~= s.take(n));
    assert(r.subrange(0, n) =~= r.take(n));
}

/// Replacing puts no mark into a text that holds none, nor into one whose marks are
/// what is replaced, as long as what is put in fills no gap of the mark.
pub proof fn replacing_leaves_none(
    s: Seq<char>,
    pat: Seq<char>,
    by: Seq<char>,
    mark: Seq<char>,
    at: int,
)
    requires
        pat.len() > 0,
        fills_no_gap(s, pat, by, mark),
        mark == pat || !text::holds(s, mark),
    ensures
        !text::stands_at(replaced(s, pat, by), mark, at),
    decreases s.len(),
{
    let r = replaced(s, pat, by);
    let n = pat.len() as int;
    let w = mark.len() as int;
    if text::stands_at(r, mark, at) {
        assert(r.subrange(at, at + w)[0] == mark[0]);
        if s.len() > 0 && n <= s.len() && s.take(n) == pat {
            if at < by.len() {
                assert(by[at] == mark[0]);
            } else {
                let rest = replaced(s.skip(n), pat, by);
                let back = at - by.len();
                assert(rest.subrange(back, back + w) =~= r.subrange(at, at + w));
                lemma_skip_keeps(s, pat, by, mark, n);
                replacing_leaves_none(s.skip(n), pat, by, mark, back);
            }
        } else if s.len() > 0 {
            if at > 0 {
                let rest = replaced(s.skip(1), pat, by);
                assert(rest.subrange(at - 1, at - 1 + w) =~= r.subrange(at, at + w));
                lemma_skip_keeps(s, pat, by, mark, 1);
                replacing_leaves_none(s.skip(1), pat, by, mark, at - 1);
            } else {
                assert(!text::stands_at(s, pat, 0)) by {
                    if n <= s.len() {
                        assert(s.subrange(0, n) =~= s.take(n));
                    }
                }
                lemma_mark_was_there(s, pat, by, mark);
            }
        }
    }
}

proof fn lemma_skip_keeps(s: Seq<char>, pat: Seq<char>, by: Seq<char>, mark: Seq<char>, d: int)
    requires
        0 < d <= s.len(),
        fills_no_gap(s, pat, by, mark),
        mark == pat || !text::holds(s, mark),
    ensures
        fills_no_gap(s.skip(d), pat, by, mark),
        mark == pat || !text::holds(s.skip(d), mark),
{
    let t = s.skip(d);
    assert forall|k: int| #[trigger] text::stands_at(t, mark, k) implies text::holds(s, mark) by {
        assert(s.subrange(k + d, k + d + mark.len()) =~= t.subrange(k, k + mark.len()));
        assert(text::stands_at(s, mark, k + d));
    }
    assert forall|k: int|
        0 < k && #[trigger] text::stands_at(t, pat, k) && set_apart(s, pat, mark) implies !mark.contains(
        t[k - 1],
    ) by {
        assert(s.subrange(k + d, k + d + pat.len()) =~= t.subrange(k, k + pat.len()));
        assert(text::stands_at(s, pat, k + d));
    }
}

/// No placeholder is left in a rendered template: none for the name, none for the type
/// name and none for the version. A type name that is a piece of a placeholder, such
/// as `NAME`, could complete one of which the template holds the rest; it must then
/// stand apart from the characters of that placeholder.
pub proof fn placeholders_are_filled(template: Seq<char>, name: Seq<char>, at: int)
    requires
        is_valid_name(name),
        ({
            let named = replaced(template, "__NAME__"@, name);
            &&& text::holds("__NAME__"@, pascal(name)) ==> set_apart(
                named,
                "__PASCAL__"@,
                "__NAME__"@,
            )
            &&& text::holds("__PASCAL__"@, pascal(name)) ==> set_apart(
                named,
                "__PASCAL__"@,
                "__PASCAL__"@,
            )
        }),
    ensures
        !text::stands_at(rendered(template, name, pascal(name)), "__NAME__"@, at),
        !text::stands_at(rendered(template, name, pascal(name)), "__PASCAL__"@, at),
        !text::stands_at(rendered(template, name, pascal(name)), "__VERSION_REQ__"@, at),
{
    reveal_strlit("__NAME__");
    reveal_strlit("__PASCAL__");
    reveal_strlit("__VERSION_REQ__");
    reveal_strlit("0.6");
    let ident = pascal(name);
    let version = CRATE_VERSION_REQ@;
    pascal_is_an_identifier(name);
    let named = replaced(template, "__NAME__"@, name);
    let typed = replaced(named, "__PASCAL__"@, ident);
    assert(!text::holds("__NAME__"@, name)) by {
        assert forall|k: int| !#[trigger] text::stands_at("__NAME__"@, name, k) by {
            assert(is_name_char(name[0]));
            if text::stands_at("__NAME__"@, name, k) {
                assert("__NAME__"@.subrange(k, k + name.len())[0] == name[0]);
            }
        }
    }
    assert(!name.contains('_')) by {
        assert forall|i: int| 0 <= i < name.len() implies #[trigger] name[i] != '_' by {
            assert(is_name_char(name[i]));
        }
    }
    lemma_version_is_no_piece("__NAME__"@);
    lemma_version_is_no_piece("__PASCAL__"@);
    lemma_version_is_no_piece("__VERSION_REQ__"@);
    assert forall|k: int| !#[trigger] text::stands_at(named, "__NAME__"@, k) by {
        replacing_leaves_none(template, "__NAME__"@, name, "__NAME__"@, k);
    }
    assert forall|k: int|
        !#[trigger] text::stands_at(typed, "__NAME__"@, k) && !text::stands_at(
            typed,
            "__PASCAL__"@,
            k,
        ) by {
        replacing_leaves_none(named, "__PASCAL__"@, ident, "__NAME__"@, k);
        replacing_leaves_none(named, "__PASCAL__"@, ident, "__PASCAL__"@, k);
    }
    assert(!text::holds(typed, "__PASCAL__"@)) by {
        assert forall|k: int| !#[trigger] text::stands_at(typed, "__PASCAL__"@, k) by {
            assert(!text::stands_at(typed, "__NAME__"@, k) && !text::stands_at(
                typed,
                "__PASCAL__"@,
                k,
            ));
        }
    }
    replacing_leaves_none(typed, "__VERSION_REQ__"@, version, "__NAME__"@, at);
    replacing_leaves_none(typed, "__VERSION_REQ__"@, version, "__PASCAL__"@, at);
    replacing_leaves_none(typed, "__VERSION_REQ__"@, version, "__VERSION_REQ__"@, at);
}

proof fn lemma_version_is_no_piece(mark: Seq<char>)
    requires
        !mark.contains('0'),
    ensures
        !text::holds(mark, CRATE_VERSION_REQ@),
{
    reveal_strlit("0.6");
    assert forall|k: int| !#[trigger] text::stands_at(mark, CRATE_VERSION_REQ@, k) by {
        if text::stands_at(mark, CRATE_VERSION_REQ@, k) {
            assert(mark.subrange(k, k + 3)[0] == mark[k]);
        }
    }
}

// ---------------------------------------------------------------------------
// Projects
// ---------------------------------------------------------------------------

/// A file of a new project.
#[derive(Debug)]
pub struct ProjectFile {
    /// Path below the directory of the project.
    pub path: String,
    /// What it holds.
    pub contents: String,
}

impl DeepView for ProjectFile {
    type V = (Seq<char>, Seq<char>);

    open spec fn deep_view(&self) -> (Seq<char>, Seq<char>) {
        (self.path@, self.contents@)
    }
}

/// The files of a new project.
pub open spec fn project(name: Seq<char>) -> Seq<(Seq<char>, Seq<char>)> {
    seq![
        ("Cargo.toml"@, rendered(CARGO_TOML@, name, pascal(name))),
        ("src/main.rs"@, rendered(MAIN_RS@, name, pascal(name))),
        ("zentinel-agent.toml"@, rendered(MANIFEST_TOML@, name, pascal(name))),
        ("Dockerfile"@, rendered(DOCKERFILE@, name, pascal(name))),
        ("README.md"@, rendered(README_MD@, name, pascal(name))),
        (".gitignore"@, "/target\n"@),
    ]
}

/// No file of a new project holds a placeholder, unless the type name of the agent is
/// itself a piece of one.
pub proof fn project_holds_no_placeholder(name: Seq<char>, file: int, at: int)
    requires
        is_valid_name(name),
        !text::holds("__NAME__"@, pascal(name)),
        !text::holds("__PASCAL__"@, pascal(name)),
        0 <= file < project(name).len(),
    ensures
        !text::stands_at(project(name)[file].1, "__NAME__"@, at),
        !text::stands_at(project(name)[file].1, "__PASCAL__"@, at),
        !text::stands_at(project(name)[file].1, "__VERSION_REQ__"@, at),
{
    placeholders_are_filled(CARGO_TOML@, name, at);
    placeholders_are_filled(MAIN_RS@, name, at);
    placeholders_are_filled(MANIFEST_TOML@, name, at);
    placeholders_are_filled(DOCKERFILE@, name, at);
    placeholders_are_filled(README_MD@, name, at);
    let ignored = "/target\n"@;
    reveal_strlit("/target\n");
    reveal_strlit("__NAME__");
    reveal_strlit("__PASCAL__");
    reveal_strlit("__VERSION_REQ__");
    if 0 <= at && at + 8 <= ignored.len() {
        assert(ignored.subrange(at, at + 8)[0] == ignored[at]);
    }
}

/// The words for a directory that is in use.
pub open spec fn occupied_text(dir: Seq<char>) -> Seq<char> {
    "target directory '"@ + dir + "' already exists and is not empty; pass --force to overwrite"@
}

fn file(path: &str, contents: String) -> (r: ProjectFile)
    ensures
        r.deep_view() == (path@, contents@),
{
    ProjectFile { path: path.to_owned(), contents }
}

/// The files to write for a new agent into `dir`, or why none may be written: the
/// name is illegal, or the directory holds something and `force` is not set.
pub fn new_agent(name: &str, dir: &str, occupied: bool, force: bool) -> (r: Result<
    Vec<ProjectFile>,
    ScaffoldError,
>)
    ensures
        (match r {
            Ok(files) => is_valid_name(name@) && (!occupied || force) && files.deep_view()
                == project(name@),
            Err(e) => if is_valid_name(name@) {
                occupied && !force && e@ == occupied_text(dir@)
            } else {
                e@ == bad_name_text(name@)
            },
        }),
{
    match validate_name(name) {
        Err(e) => {
            return Err(e);
        },
        Ok(_) => {},
    }
    if occupied && !force {
        let mut m = "target directory '".to_owned();
        m.append(dir);
        m.append("' already exists and is not empty; pass --force to overwrite");
        return Err(ScaffoldError { message: m });
    }
    let ident = to_pascal_case(name);
    let p = ident.as_str();
    let mut files: Vec<ProjectFile> = Vec::new();
    files.push(file("Cargo.toml", render(CARGO_TOML, name, p)));
    files.push(file("src/main.rs", render(MAIN_RS, name, p)));
    files.push(file("zentinel-agent.toml", render(MANIFEST_TOML, name, p)));
    files.push(file("Dockerfile", render(DOCKERFILE, name, p)));
    files.push(file("README.md", render(README_MD, name, p)));
    files.push(file(".gitignore", "/target\n".to_owned()));
    assert(files.deep_view() =~= project(name@));
    Ok(files)
}

/// What to do with a new project in `dir`.
pub open spec fn next_steps_text(name: Seq<char>, dir: Seq<char>) -> Seq<char> {
    "Created agent '"@ + name + "' in "@ + dir + "\n\nNext steps:\n  cd "@ + dir
        + "\n  cargo build --release\n  ./target/release/"@ + name
        + " --grpc 0.0.0.0:50051\n\nEdit `on_request_headers` in src/main.rs — that is where your policy lives.\nRegistration snippet and Docker usage are in the generated README.md.\n"@
}

/// What to do with a new project in `dir`.
pub fn next_steps(name: &str, dir: &str) -> (r: String)
    ensures
        r@ == next_steps_text(name@, dir@),
{
    let mut out = "Created agent '".to_owned();
    out.append(name);
    out.append("' in ");
    out.append(dir);
    out.append("\n\nNext steps:\n  cd ");
    out.append(dir);
    out.append("\n  cargo build --release\n  ./target/release/");
    out.append(name);
    out.append(
        " --grpc 0.0.0.0:50051\n\nEdit `on_request_headers` in src/main.rs — that is where your policy lives.\nRegistration snippet and Docker usage are in the generated README.md.\n",
    );
    out
}

// ---------------------------------------------------------------------------
// Laws
// ---------------------------------------------------------------------------

/// A word of a name: lowercase letters and digits, at least one.
pub open spec fn is_word(w: Seq<char>) -> bool {
    w.len() > 0 && forall|i: int|
        0 <= i < w.len() ==> ('a' <= #[trigger] w[i] <= 'z' || '0' <= w[i] <= '9')
}

/// A name is legal exactly if it is made of words with a hyphen between them, starts with
/// a letter, and is not longer than sixty-four characters.
pub proof fn names_are_words_and_hyphens(a: Seq<char>, w: Seq<char>, b: Seq<char>)
    requires
        is_word(w),
    ensures
        is_valid_name(w) <==> w.len() <= 64 && 'a' <= w[0] <= 'z',
        is_valid_name(a) ==> (is_valid_name(a + seq!['-'] + w) <==> a.len() + 1 + w.len() <= 64),
        !is_valid_name(Seq::empty()),
        !is_valid_name(a + seq!['-']),
        !is_valid_name(a + seq!['-', '-'] + b),
        forall|i: int|
            0 <= i < b.len() && !('a' <= #[trigger] b[i] <= 'z') && !('0' <= b[i] <= '9') && b[i]
                != '-' ==> !is_valid_name(b),
{
    let s = a + seq!['-'] + w;
    if is_valid_name(a) {
        assert(s[0] == a[0]);
        assert(s.last() == w.last());
        assert(w[w.len() - 1] == w.last());
        assert forall|i: int| 0 <= i < s.len() implies is_name_char(#[trigger] s[i]) by {
            if i < a.len() {
                assert(s[i] == a[i]);
            } else if i > a.len() {
                assert(s[i] == w[i - a.len() - 1]);
            }
        }
        assert forall|i: int| 0 < i < s.len() implies !(s[i - 1] == '-' && #[trigger] s[i]
            == '-') by {
            if i < a.len() {
                assert(s[i] == a[i] && s[i - 1] == a[i - 1]);
            } else if i == a.len() {
                assert(s[i - 1] == a.last());
            } else {
                assert(s[i] == w[i - a.len() - 1]);
            }
        }
    }
    if w.len() <= 64 && 'a' <= w[0] <= 'z' {
        assert(w.last() == w[w.len() - 1]);
        assert forall|i: int| 0 < i < w.len() implies !(w[i - 1] == '-' && #[trigger] w[i]
            == '-') by {}
    }
    let e = a + seq!['-'];
    assert(e.last() == '-');
    let d = a + seq!['-', '-'] + b;
    assert(d[a.len() as int] == '-' && d[(a.len() + 1) as int] == '-');
    assert forall|i: int|
        0 <= i < b.len() && !('a' <= #[trigger] b[i] <= 'z') && !('0' <= b[i] <= '9') && b[i]
            != '-' implies !is_valid_name(b) by {
        assert(!is_name_char(b[i]));
    }
}

proof fn lemma_word(a: Seq<char>, w: Seq<char>)
    requires
        a.len() == 0 || is_separator(a.last()),
        w.len() > 0,
        forall|i: int| 0 <= i < w.len() ==> !is_separator(#[trigger] w[i]),
    ensures
        pascal(a + w) == pascal(a) + seq![text::ascii_upper(w[0])] + w.skip(1),
    decreases w.len(),
{
    let s = a + w;
    if w.len() == 1 {
        assert(s.drop_last() =~= a);
        assert(s.last() == w[0]);
        assert(pascal(a).push(text::ascii_upper(w[0])) =~= pascal(a) + seq![
            text::ascii_upper(w[0]),
        ] + w.skip(1));
    } else {
        let v = w.drop_last();
        assert forall|i: int| 0 <= i < v.len() implies !is_separator(#[trigger] v[i]) by {
            assert(v[i] == w[i]);
        }
        lemma_word(a, v);
        assert(s.drop_last() =~= a + v);
        assert(s.last() == w.last());
        assert(w[w.len() - 1] == w.last());
        assert((a + v).last() == v.last());
        assert(v[v.len() - 1] == v.last());
        assert(v.skip(1).push(w.last()) =~= w.skip(1));
        assert(pascal(a + v).push(w.last()) =~= pascal(a) + seq![text::ascii_upper(w[0])]
            + w.skip(1));
    }
}

/// A type name is the words of the name, each with its first letter capital, without what
/// stands between them.
pub proof fn words_are_capitalised(a: Seq<char>, w: Seq<char>)
    requires
        w.len() > 0,
        forall|i: int| 0 <= i < w.len() ==> #[trigger] w[i] != '-' && w[i] != '_',
    ensures
        pascal(Seq::empty()) == Seq::<char>::empty(),
        pascal(w) == seq![text::ascii_upper(w[0])] + w.skip(1),
        pascal(a + seq!['-'] + w) == pascal(a) + seq![text::ascii_upper(w[0])] + w.skip(1),
        pascal(a + seq!['_'] + w) == pascal(a) + seq![text::ascii_upper(w[0])] + w.skip(1),
        pascal(a.push('-')) == pascal(a),
{
    let none = Seq::<char>::empty();
    lemma_word(none, w);
    assert(none + w =~= w);
    assert(pascal(none) + seq![text::ascii_upper(w[0])] + w.skip(1) =~= seq![
        text::ascii_upper(w[0]),
    ] + w.skip(1));
    let x = a + seq!['-'];
    let y = a + seq!['_'];
    assert(x.drop_last() =~= a);
    assert(y.drop_last() =~= a);
    assert(x.last() == '-' && y.last() == '_');
    lemma_word(x, w);
    lemma_word(y, w);
    assert(a.push('-') =~= x);
}

/// What is to be replaced is replaced where it stands, and what stands around it stays.
pub proof fn replacing_keeps_the_rest(s: Seq<char>, pat: Seq<char>, by: Seq<char>)
    requires
        pat.len() > 0,
    ensures
        replaced(pat + s, pat, by) == by + replaced(s, pat, by),
        (forall|i: int| !(#[trigger] text::stands_at(s, pat, i))) ==> replaced(s, pat, by) == s,
    decreases s.len(),
{
    let t = pat + s;
    assert(t.take(pat.len() as int) =~= pat);
    assert(t.skip(pat.len() as int) =~= s);
    if forall|i: int| !(#[trigger] text::stands_at(s, pat, i)) {
        if s.len() > 0 {
            let rest = s.skip(1);
            assert forall|i: int| !(#[trigger] text::stands_at(rest, pat, i)) by {
                if text::stands_at(rest, pat, i) {
                    assert(s.subrange(i + 1, i + 1 + pat.len()) =~= rest.subrange(
                        i,
                        i + pat.len(),
                    ));
                    assert(text::stands_at(s, pat, i + 1));
                }
            }
            replacing_keeps_the_rest(rest, pat, by);
            if pat.len() <= s.len() && s.take(pat.len() as int) == pat {
                assert(s.subrange(0, pat.len() as int) =~= s.take(pat.len() as int));
                assert(text::stands_at(s, pat, 0));
            }
            assert(seq![s[0]] + rest =~= s);
        }
    }
}

/// The files of a project, each under its path, and what may not be overwritten.
pub proof fn project_files(name: Seq<char>)
    ensures
        project(name).len() == 6,
        project(name)[0].0 == "Cargo.toml"@,
        project(name)[1].0 == "src/main.rs"@,
        project(name)[2].0 == "zentinel-agent.toml"@,
        project(name)[3].0 == "Dockerfile"@,
        project(name)[4].0 == "README.md"@,
        project(name)[5] == (".gitignore"@, "/target\n"@),
{
}

} // verus!
