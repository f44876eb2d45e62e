//! Reading Apache httpd configurations.
//!
//! A small, explicit set of directives is understood. Whatever else stands in
//! the input is noted with its line number.

use crate::text;
use vstd::prelude::*;
use vstd::string::*;
use vstd::utf8::*;

verus! {

/// Reported directive text is cut to this many characters.
pub const MAX_REPORT_TEXT: usize = 100;

/// Why an import fails.
#[derive(Debug, PartialEq, Eq)]
pub struct ImportError {
    /// What is wrong, in words.
    pub message: String,
}

impl View for ImportError {
    type V = Seq<char>;

    open spec fn view(&self) -> Seq<char> {
        self.message@
    }
}

fn fail(message: String) -> (r: ImportError)
    ensures
        r@ == message@,
{
    ImportError { message }
}

/// A message with its line number.
pub open spec fn at_line(line: nat, message: Seq<char>) -> Seq<char> {
    "line "@ + text::digits(line) + ": "@ + message
}

/// [`at_line`] as an error.
pub fn line_error(line: usize, message: &str) -> (r: ImportError)
    ensures
        r@ == at_line(line as nat, message@),
{
    let n = text::decimal(line as u64);
    let mut out = "line ".to_owned();
    out.append(n.as_str());
    out.append(": ");
    out.append(message);
    fail(out)
}

// ---------------------------------------------------------------------------
// Notes
// ---------------------------------------------------------------------------

/// Something that was not imported, or an assumption that was made.
#[derive(Debug, PartialEq, Eq)]
pub struct Note {
    /// Line of the input.
    pub line: usize,
    /// The directive.
    pub directive: String,
    /// What became of it.
    pub detail: String,
}

/// A note as plain values.
#[verifier::ext_equal]
pub ghost struct Remark {
    pub line: nat,
    pub directive: Seq<char>,
    pub detail: Seq<char>,
}

impl DeepView for Note {
    type V = Remark;

    open spec fn deep_view(&self) -> Remark {
        Remark { line: self.line as nat, directive: self.directive@, detail: self.detail@ }
    }
}

/// A directive as it is reported: without surrounding space, and cut if it is
/// long.
pub open spec fn reported(directive: Seq<char>) -> Seq<char> {
    let t = text::trim(directive);
    if encode_utf8(t).len() > MAX_REPORT_TEXT {
        t.take(
            if t.len() <= MAX_REPORT_TEXT {
                t.len() as int
            } else {
                MAX_REPORT_TEXT as int
            },
        ).push('…')
    } else {
        t
    }
}

/// A note on a directive.
pub open spec fn remark(line: nat, directive: Seq<char>, detail: Seq<char>) -> Remark {
    Remark { line, directive: reported(directive), detail }
}

impl Note {
    /// A note on a directive.
    pub fn new(line: usize, directive: &str, detail: String) -> (r: Note)
        ensures
            r.deep_view() == remark(line as nat, directive@, detail@),
    {
        let t = text::trimmed(directive);
        let directive = if t.as_str().as_bytes().len() > MAX_REPORT_TEXT {
            let v = text::chars_of(t.as_str());
            let cut: usize = if v.len() <= MAX_REPORT_TEXT {
                v.len()
            } else {
                MAX_REPORT_TEXT
            };
            let mut out = text::string_of_range(v.as_slice(), 0, cut);
            assert(out@ =~= t@.take(cut as int));
            out.push('…');
            out
        } else {
            t
        };
        Note { line, directive, detail }
    }
}

/// Appends a note.
pub fn push_note(notes: &mut Vec<Note>, line: usize, directive: &str, detail: String)
    ensures
        final(notes).deep_view() == old(notes).deep_view().push(
            remark(line as nat, directive@, detail@),
        ),
{
    let ghost before = notes.deep_view();
    let n = Note::new(line, directive, detail);
    let ghost x = n.deep_view();
    notes.push(n);
    assert(notes.deep_view() =~= before.push(x));
}

/// `a`, `b` and `c` one after the other.
pub fn cat3(a: &str, b: &str, c: &str) -> (r: String)
    ensures
        r@ == a@ + b@ + c@,
{
    let mut out = a.to_owned();
    out.append(b);
    out.append(c);
    out
}

// ---------------------------------------------------------------------------
// Lines
// ---------------------------------------------------------------------------

/// A line of the configuration with its continuations.
#[derive(Debug)]
pub struct LogicalLine {
    /// Number of the first physical line.
    pub number: usize,
    /// Text without surrounding space.
    pub text: String,
}

/// A logical line as plain values.
#[verifier::ext_equal]
pub ghost struct Line {
    pub number: nat,
    pub text: Seq<char>,
}

impl DeepView for LogicalLine {
    type V = Line;

    open spec fn deep_view(&self) -> Line {
        Line { number: self.number as nat, text: self.text@ }
    }
}

/// Finished lines, and a line that is continued.
#[verifier::ext_equal]
pub ghost struct LineState {
    pub done: Seq<Line>,
    pub open: Option<Line>,
}

/// A physical line ends in a backslash.
pub open spec fn continued(raw: Seq<char>) -> bool {
    let t = text::trim_end(raw);
    t.len() > 0 && t.last() == '\\'
}

/// What a physical line contributes.
pub open spec fn piece_of(raw: Seq<char>) -> Seq<char> {
    text::trim(text::trim_end_char(text::trim_end(raw), '\\'))
}

/// A line is finished unless it is continued.
pub open spec fn close_line(done: Seq<Line>, l: Line, more: bool) -> LineState {
    if more {
        LineState { done, open: Some(l) }
    } else {
        LineState { done: done.push(l), open: None }
    }
}

/// Joining one more physical line. Blank lines and comments are dropped; a
/// comment is not continued.
pub open spec fn line_step(s: LineState, number: nat, raw: Seq<char>) -> LineState {
    let piece = piece_of(raw);
    match s.open {
        Some(l) => close_line(
            s.done,
            if piece.len() > 0 {
                Line { number: l.number, text: l.text + seq![' '] + piece }
            } else {
                l
            },
            continued(raw),
        ),
        None => if piece.len() == 0 || piece[0] == '#' {
            s
        } else {
            close_line(s.done, Line { number, text: piece }, continued(raw))
        },
    }
}

/// The state after some physical lines.
pub open spec fn joined(raws: Seq<Seq<char>>) -> LineState
    decreases raws.len(),
{
    if raws.len() == 0 {
        LineState { done: Seq::empty(), open: None }
    } else {
        line_step(joined(raws.drop_last()), raws.len(), raws.last())
    }
}

/// The logical lines of a text.
pub open spec fn lines_of(content: Seq<char>) -> Seq<Line> {
    let s = joined(text::split(content, '\n'));
    match s.open {
        Some(l) => s.done.push(l),
        None => s.done,
    }
}

fn push_line(done: &mut Vec<LogicalLine>, l: LogicalLine)
    ensures
        final(done).deep_view() == old(done).deep_view().push(l.deep_view()),
{
    let ghost before = done.deep_view();
    let ghost x = l.deep_view();
    done.push(l);
    assert(done.deep_view() =~= before.push(x));
}

/// The state of the join as plain values.
closed spec fn line_state(done: Vec<LogicalLine>, open: Option<LogicalLine>) -> LineState {
    LineState {
        done: done.deep_view(),
        open: match open {
            Some(l) => Some(l.deep_view()),
            None => None,
        },
    }
}

/// The logical lines of a text.
pub fn logical_lines(content: &str) -> (r: Vec<LogicalLine>)
    ensures
        r.deep_view() == lines_of(content@),
{
    let raws = text::split_on(content, '\n');
    let ghost all = raws.deep_view();
    let mut done: Vec<LogicalLine> = Vec::new();
    let mut open: Option<LogicalLine> = None;
    let mut i: usize = 0;
    assert(done.deep_view() =~= Seq::<Line>::empty());
    while i < raws.len()
        invariant
            i <= raws@.len(),
            all == raws.deep_view(),
            all == text::split(content@, '\n'),
            all.len() == raws@.len(),
            line_state(done, open) == joined(all.take(i as int)),
        decreases raws.len() - i,
    {
        proof {
            assert(all.take(i + 1).drop_last() =~= all.take(i as int));
            assert(all.take(i + 1).last() == raws@[i as int]@);
        }
        let t = text::trimmed_end(raws[i].as_str());
        let tv = text::chars_of(t.as_str());
        let more = tv.len() > 0 && tv[tv.len() - 1] == '\\';
        let stripped = text::trimmed_end_char(t.as_str(), '\\');
        let piece = text::trimmed(stripped.as_str());
        let pv = text::chars_of(piece.as_str());
        let ghost before = line_state(done, open);
        match open {
            Some(l) => {
                let mut line = l;
                if pv.len() > 0 {
                    line.text.push(' ');
                    line.text.append(piece.as_str());
                }
                assert(line.deep_view() =~= (if pv@.len() > 0 {
                    Line {
                        number: before.open->0.number,
                        text: before.open->0.text + seq![' '] + piece@,
                    }
                } else {
                    before.open->0
                }));
                if more {
                    open = Some(line);
                } else {
                    push_line(&mut done, line);
                    open = None;
                }
            },
            None => {
                if pv.len() == 0 || pv[0] == '#' {
                    open = None;
                } else {
                    let line = LogicalLine { number: i + 1, text: piece };
                    if more {
                        open = Some(line);
                    } else {
                        push_line(&mut done, line);
                        open = None;
                    }
                }
            },
        }
        assert(line_state(done, open) == line_step(before, (i + 1) as nat, raws@[i as int]@));
        i = i + 1;
    }
    assert(all.take(i as int) =~= all);
    if let Some(l) = open {
        push_line(&mut done, l);
    }
    done
}

// ---------------------------------------------------------------------------
// Arguments
// ---------------------------------------------------------------------------

/// Arguments so far, the one being read, and whether quotes are open.
#[verifier::ext_equal]
pub ghost struct ArgState {
    pub args: Seq<Seq<char>>,
    pub word: Seq<char>,
    pub quoted: bool,
}

/// Reading one more character.
pub open spec fn arg_step(s: ArgState, c: char) -> ArgState {
    if c == '"' {
        ArgState { quoted: !s.quoted, ..s }
    } else if text::is_space(c) && !s.quoted {
        if s.word.len() > 0 {
            ArgState { args: s.args.push(s.word), word: Seq::empty(), quoted: false }
        } else {
            s
        }
    } else {
        ArgState { word: s.word.push(c), ..s }
    }
}

/// The state after some characters.
pub open spec fn args_read(t: Seq<char>) -> ArgState
    decreases t.len(),
{
    if t.len() == 0 {
        ArgState { args: Seq::empty(), word: Seq::empty(), quoted: false }
    } else {
        arg_step(args_read(t.drop_last()), t.last())
    }
}

/// The arguments of a line: separated by white space, with double quotes
/// honoured and empty arguments dropped.
pub open spec fn args_of(t: Seq<char>) -> Seq<Seq<char>> {
    let s = args_read(t);
    if s.word.len() > 0 {
        s.args.push(s.word)
    } else {
        s.args
    }
}

fn push_text(list: &mut Vec<String>, s: String)
    ensures
        final(list).deep_view() == old(list).deep_view().push(s@),
{
    let ghost before = list.deep_view();
    let ghost x = s@;
    list.push(s);
    assert(list.deep_view() =~= before.push(x));
}

/// [`args_of`] on strings.
pub fn split_args(line: &str) -> (r: Vec<String>)
    ensures
        r.deep_view() == args_of(line@),
        r@.len() == args_of(line@).len(),
{
    let v = text::chars_of(line);
    let mut args: Vec<String> = Vec::new();
    let mut word: Vec<char> = Vec::new();
    let mut quoted = false;
    let mut i: usize = 0;
    assert(args.deep_view() =~= Seq::<Seq<char>>::empty());
    assert(word@ =~= Seq::<char>::empty());
    while i < v.len()
        invariant
            i <= v@.len(),
            v@ == line@,
            (ArgState { args: args.deep_view(), word: word@, quoted }) == args_read(
                v@.take(i as int),
            ),
        decreases v.len() - i,
    {
        assert(v@.take(i + 1).drop_last() =~= v@.take(i as int));
        assert(v@.take(i + 1).last() == v@[i as int]);
        let c = v[i];
        if c == '"' {
            quoted = !quoted;
        } else if text::is_white(c) && !quoted {
            if word.len() > 0 {
                let w = text::string_of(word.as_slice());
                push_text(&mut args, w);
                word = Vec::new();
                assert(word@ =~= Seq::<char>::empty());
            }
        } else {
            word.push(c);
        }
        i = i + 1;
    }
    assert(v@.take(i as int) =~= line@);
    if word.len() > 0 {
        let w = text::string_of(word.as_slice());
        push_text(&mut args, w);
    }
    assert(args@.len() == args.deep_view().len());
    args
}

/// The first position from `from` on where `://` stands, or the length.
pub open spec fn find_scheme(s: Seq<char>, from: int) -> int
    decreases s.len() - from,
{
    if from < 0 || from + 2 >= s.len() {
        s.len() as int
    } else if s[from] == ':' && s[from + 1] == '/' && s[from + 2] == '/' {
        from
    } else {
        find_scheme(s, from + 1)
    }
}

fn scheme_end(v: &Vec<char>) -> (r: usize)
    ensures
        r == find_scheme(v@, 0),
        r <= v@.len(),
        r < v@.len() ==> r + 2 < v@.len(),
{
    let mut i: usize = 0;
    while i < v.len() && v.len() - i > 2
        invariant
            i <= v@.len(),
            find_scheme(v@, 0) == find_scheme(v@, i as int),
        decreases v.len() - i,
    {
        if v[i] == ':' && v[i + 1] == '/' && v[i + 2] == '/' {
            return i;
        }
        i = i + 1;
    }
    v.len()
}

/// A host name without scheme, port and trailing dots.
pub open spec fn server_name_of(raw: Seq<char>) -> Seq<char> {
    let k = find_scheme(raw, 0);
    let rest = if k < raw.len() {
        raw.skip(k + 3)
    } else {
        raw
    };
    text::trim_end_char(rest.take(text::find_char(rest, ':')), '.')
}

/// [`server_name_of`] on strings.
pub fn clean_server_name(raw: &str) -> (r: String)
    ensures
        r@ == server_name_of(raw@),
{
    let v = text::chars_of(raw);
    let k = scheme_end(&v);
    let rest = if k < v.len() {
        let t = text::string_of_range(v.as_slice(), k + 3, v.len());
        assert(t@ =~= raw@.skip(k + 3));
        t
    } else {
        raw.to_owned()
    };
    let w = text::chars_of(rest.as_str());
    let c = text::find_in(w.as_slice(), ':', 0);
    let host = text::string_of_range(w.as_slice(), 0, c);
    assert(host@ =~= rest@.take(c as int));
    text::trimmed_end_char(host.as_str(), '.')
}

// ---------------------------------------------------------------------------
// Hosts
// ---------------------------------------------------------------------------

/// Where a `ProxyPass` goes.
#[derive(Debug, PartialEq, Eq)]
pub struct ProxyTarget {
    /// Over TLS.
    pub tls: bool,
    /// Host.
    pub host: String,
    /// Port.
    pub port: u16,
}

/// A `ProxyPass` that can be imported.
#[derive(Debug, PartialEq, Eq)]
pub struct ProxyPass {
    /// Path prefix.
    pub path: String,
    /// Where it goes.
    pub target: ProxyTarget,
}

/// A `ProxyPass` as plain values.
#[verifier::ext_equal]
pub ghost struct Pass {
    pub path: Seq<char>,
    pub tls: bool,
    pub host: Seq<char>,
    pub port: u16,
}

impl DeepView for ProxyPass {
    type V = Pass;

    open spec fn deep_view(&self) -> Pass {
        Pass {
            path: self.path@,
            tls: self.target.tls,
            host: self.target.host@,
            port: self.target.port,
        }
    }
}

/// A `<VirtualHost>` block.
#[derive(Debug, PartialEq, Eq)]
pub struct VirtualHost {
    /// Line where the block begins.
    pub line: usize,
    /// Address as written.
    pub address: String,
    /// `ServerName`.
    pub server_name: Option<String>,
    /// `ServerAlias`.
    pub aliases: Vec<String>,
    /// `ProxyPass`.
    pub proxy_passes: Vec<ProxyPass>,
    /// `SSLCertificateFile`.
    pub cert_file: Option<String>,
    /// `SSLCertificateKeyFile`.
    pub key_file: Option<String>,
    /// `SSLEngine on`.
    pub ssl_engine: bool,
}

/// A `<VirtualHost>` block as plain values.
#[verifier::ext_equal]
pub ghost struct Host {
    pub line: nat,
    pub address: Seq<char>,
    pub server_name: Option<Seq<char>>,
    pub aliases: Seq<Seq<char>>,
    pub passes: Seq<Pass>,
    pub cert: Option<Seq<char>>,
    pub key: Option<Seq<char>>,
    pub ssl_engine: bool,
}

impl DeepView for VirtualHost {
    type V = Host;

    open spec fn deep_view(&self) -> Host {
        Host {
            line: self.line as nat,
            address: self.address@,
            server_name: self.server_name.deep_view(),
            aliases: self.aliases.deep_view(),
            passes: self.proxy_passes.deep_view(),
            cert: self.cert_file.deep_view(),
            key: self.key_file.deep_view(),
            ssl_engine: self.ssl_engine,
        }
    }
}

/// A block with nothing in it.
pub open spec fn empty_host(line: nat, address: Seq<char>) -> Host {
    Host {
        line,
        address,
        server_name: None,
        aliases: Seq::empty(),
        passes: Seq::empty(),
        cert: None,
        key: None,
        ssl_engine: false,
    }
}

/// The block has a certificate and its key.
pub open spec fn has_certs(h: Host) -> bool {
    h.cert is Some && h.key is Some
}

impl VirtualHost {
    /// A block with nothing in it.
    pub fn new(line: usize, address: String) -> (r: VirtualHost)
        ensures
            r.deep_view() == empty_host(line as nat, address@),
    {
        let r = VirtualHost {
            line,
            address,
            server_name: None,
            aliases: Vec::new(),
            proxy_passes: Vec::new(),
            cert_file: None,
            key_file: None,
            ssl_engine: false,
        };
        assert(r.deep_view() =~= empty_host(line as nat, address@));
        r
    }

    /// True with a certificate and its key.
    pub fn has_certs(&self) -> (r: bool)
        ensures
            r == has_certs(self.deep_view()),
    {
        self.cert_file.is_some() && self.key_file.is_some()
    }
}

// ---------------------------------------------------------------------------
// ProxyPass
// ---------------------------------------------------------------------------

/// The last position of `c`, or -1.
pub open spec fn rfind(s: Seq<char>, c: char) -> int
    decreases s.len(),
{
    if s.len() == 0 {
        -1
    } else if s.last() == c {
        s.len() - 1
    } else {
        rfind(s.drop_last(), c)
    }
}

fn rfind_in(v: &Vec<char>, c: char) -> (r: Option<usize>)
    ensures
        (match r {
            Some(k) => k == rfind(v@, c) && k < v@.len(),
            None => rfind(v@, c) == -1,
        }),
{
    let mut i: usize = v.len();
    assert(v@.take(i as int) =~= v@);
    while i > 0
        invariant
            i <= v@.len(),
            rfind(v@, c) == rfind(v@.take(i as int), c),
        decreases i,
    {
        assert(v@.take(i as int).last() == v@[i - 1]);
        assert(v@.take(i as int).drop_last() =~= v@.take(i - 1));
        if v[i - 1] == c {
            return Some(i - 1);
        }
        i = i - 1;
    }
    None
}

/// A port number that does not parse.
pub open spec fn bad_port(port: Seq<char>, s: Seq<char>) -> Seq<char> {
    "invalid port '"@ + port + "' in address '"@ + s + "'"@
}

/// `host[:port]`, with brackets round an IPv6 address; or what is wrong with it.
pub open spec fn host_port(s: Seq<char>, default_port: u16) -> Result<(Seq<char>, u16), Seq<char>> {
    if s.len() > 0 && s[0] == '[' {
        let rest = s.skip(1);
        let k = text::find_char(rest, ']');
        if k >= rest.len() {
            Err("unclosed '[' in address '"@ + s + "'"@)
        } else {
            let after = rest.skip(k + 1);
            if after.len() > 0 && after[0] == ':' {
                match text::parse_number(after.skip(1), 0xffff) {
                    Some(p) => Ok((rest.take(k), p as u16)),
                    None => Err(bad_port(after.skip(1), s)),
                }
            } else if after.len() == 0 {
                Ok((rest.take(k), default_port))
            } else {
                Err("invalid address '"@ + s + "'"@)
            }
        }
    } else {
        let k = rfind(s, ':');
        if k >= 0 {
            match text::parse_number(s.skip(k + 1), 0xffff) {
                Some(p) => Ok((s.take(k), p as u16)),
                None => Err(bad_port(s.skip(k + 1), s)),
            }
        } else {
            Ok((s, default_port))
        }
    }
}

fn bad_port_text(port: &str, s: &str) -> (r: String)
    ensures
        r@ == bad_port(port@, s@),
{
    let mut out = cat3("invalid port '", port, "' in address '");
    out.append(s);
    out.append("'");
    out
}

/// [`host_port`] on strings.
pub fn split_host_port(s: &str, default_port: u16) -> (r: Result<(String, u16), String>)
    ensures
        (match r {
            Ok(p) => host_port(s@, default_port) == Ok::<(Seq<char>, u16), Seq<char>>((p.0@, p.1)),
            Err(e) => host_port(s@, default_port) == Err::<(Seq<char>, u16), Seq<char>>(e@),
        }),
{
    let v = text::chars_of(s);
    if v.len() > 0 && v[0] == '[' {
        let rest = text::string_of_range(v.as_slice(), 1, v.len());
        assert(rest@ =~= s@.skip(1));
        let w = text::chars_of(rest.as_str());
        let k = text::find_in(w.as_slice(), ']', 0);
        if k >= w.len() {
            return Err(cat3("unclosed '[' in address '", s, "'"));
        }
        let host = text::string_of_range(w.as_slice(), 0, k);
        assert(host@ =~= rest@.take(k as int));
        let ghost after = rest@.skip(k + 1);
        if k + 1 == w.len() {
            assert(after.len() == 0);
            return Ok((host, default_port));
        }
        assert(after[0] == w@[k + 1]);
        if w[k + 1] == ':' {
            let port = text::string_of_range(w.as_slice(), k + 2, w.len());
            assert(port@ =~= after.skip(1));
            match text::parse_unsigned(port.as_str(), 0xffff) {
                Some(p) => Ok((host, p as u16)),
                None => Err(bad_port_text(port.as_str(), s)),
            }
        } else {
            Err(cat3("invalid address '", s, "'"))
        }
    } else {
        match rfind_in(&v, ':') {
            Some(k) => {
                let host = text::string_of_range(v.as_slice(), 0, k);
                let port = text::string_of_range(v.as_slice(), k + 1, v.len());
                assert(host@ =~= s@.take(k as int));
                assert(port@ =~= s@.skip(k + 1));
                match text::parse_unsigned(port.as_str(), 0xffff) {
                    Some(p) => Ok((host, p as u16)),
                    None => Err(bad_port_text(port.as_str(), s)),
                }
            },
            None => Ok((s.to_owned(), default_port)),
        }
    }
}

/// What a `ProxyPass` target says: scheme, host with port, and path.
pub open spec fn target_parts(target: Seq<char>) -> Option<(Seq<char>, Seq<char>, Seq<char>)> {
    let k = find_scheme(target, 0);
    if k < target.len() {
        let rest = target.skip(k + 3);
        let slash = text::find_char(rest, '/');
        Some((target.take(k), rest.take(slash), rest.skip(slash)))
    } else {
        None
    }
}

/// A block and the notes that go with it.
#[verifier::ext_equal]
pub ghost struct Filed {
    pub host: Host,
    pub notes: Seq<Remark>,
}

/// The text of arguments from the third on.
pub open spec fn options_text(args: Seq<Seq<char>>) -> Seq<char> {
    text::join(args.skip(2), " "@)
}

/// Reading a `ProxyPass`. It is an error if an argument is missing; what cannot
/// be imported is noted.
pub open spec fn proxy_pass(
    args: Seq<Seq<char>>,
    line_text: Seq<char>,
    line: nat,
    f: Filed,
) -> Result<Filed, Seq<char>> {
    if args.len() < 2 {
        Err(at_line(line, "ProxyPass requires <path> and <target-url>"@))
    } else if args[1] == "!"@ {
        Ok(
            Filed {
                notes: f.notes.push(
                    remark(
                        line,
                        line_text,
                        "ProxyPass exclusion — replicate manually with a higher-priority route if needed"@,
                    ),
                ),
                ..f
            },
        )
    } else {
        let notes = if args.len() > 2 {
            f.notes.push(
                remark(
                    line,
                    line_text,
                    "ProxyPass options not imported: "@ + options_text(args),
                ),
            )
        } else {
            f.notes
        };
        Ok(proxy_target(args[0], args[1], line_text, line, Filed { notes, ..f }))
    }
}

/// Reading the target of a `ProxyPass`.
pub open spec fn proxy_target(
    path: Seq<char>,
    target: Seq<char>,
    line_text: Seq<char>,
    line: nat,
    f: Filed,
) -> Filed {
    match target_parts(target) {
        None => Filed {
            notes: f.notes.push(
                remark(
                    line,
                    line_text,
                    "target '"@ + target + "' is not an http(s) URL — not imported"@,
                ),
            ),
            ..f
        },
        Some((scheme, authority, target_path)) => {
            let lower = text::ascii_lowercase(scheme);
            if lower != "http"@ && lower != "https"@ {
                Filed {
                    notes: f.notes.push(
                        remark(
                            line,
                            line_text,
                            "scheme '"@ + lower
                                + "://' not supported (only http and https) — not imported"@,
                        ),
                    ),
                    ..f
                }
            } else {
                let tls = lower == "https"@;
                match host_port(
                    authority,
                    if tls {
                        443
                    } else {
                        80
                    },
                ) {
                    Err(reason) => Filed {
                        notes: f.notes.push(
                            remark(line, line_text, reason + " — not imported"@),
                        ),
                        ..f
                    },
                    Ok((host, port)) => if host.len() == 0 {
                        Filed {
                            notes: f.notes.push(
                                remark(
                                    line,
                                    line_text,
                                    "empty host in target URL — not imported"@,
                                ),
                            ),
                            ..f
                        }
                    } else {
                        Filed {
                            host: Host {
                                passes: f.host.passes.push(Pass { path, tls, host, port }),
                                ..f.host
                            },
                            notes: mapping_note(path, target_path, line_text, line, f.notes),
                        }
                    },
                }
            }
        },
    }
}

/// A note where the path would be rewritten: the original path is forwarded.
pub open spec fn mapping_note(
    path: Seq<char>,
    target_path: Seq<char>,
    line_text: Seq<char>,
    line: nat,
    notes: Seq<Remark>,
) -> Seq<Remark> {
    if text::trim_end_char(target_path, '/') != text::trim_end_char(path, '/') {
        notes.push(
            remark(
                line,
                line_text,
                "path mapping '"@ + path + "' → '"@ + (if target_path.len() == 0 {
                    "/"@
                } else {
                    target_path
                }) + "' is not preserved; the upstream receives the original request path"@,
            ),
        )
    } else {
        notes
    }
}

/// The arguments from the third on, joined.
fn join_options(args: &Vec<String>) -> (r: String)
    requires
        args@.len() >= 2,
    ensures
        r@ == options_text(args.deep_view()),
{
    let mut rest: Vec<String> = Vec::new();
    let mut i: usize = 2;
    while i < args.len()
        invariant
            2 <= i <= args@.len(),
            rest@.len() == i - 2,
            forall|j: int| 0 <= j < i - 2 ==> (#[trigger] rest@[j])@ == args@[j + 2]@,
        decreases args.len() - i,
    {
        rest.push(args[i].clone());
        i = i + 1;
    }
    assert(rest.deep_view() =~= args.deep_view().skip(2));
    text::join_with(&rest, " ")
}

fn parse_proxy_target(
    path: &String,
    target: &String,
    line_text: &str,
    line: usize,
    vhost: &mut VirtualHost,
    notes: &mut Vec<Note>,
)
    ensures
        (Filed { host: final(vhost).deep_view(), notes: final(notes).deep_view() })
            == proxy_target(
            path@,
            target@,
            line_text@,
            line as nat,
            (Filed { host: old(vhost).deep_view(), notes: old(notes).deep_view() }),
        ),
{
    let ghost host_before = vhost.deep_view();
    let v = text::chars_of(target.as_str());
    let k = scheme_end(&v);
    if k >= v.len() {
        let detail = cat3("target '", target.as_str(), "' is not an http(s) URL — not imported");
        push_note(notes, line, line_text, detail);
        return;
    }
    let scheme = text::string_of_range(v.as_slice(), 0, k);
    let rest = text::string_of_range(v.as_slice(), k + 3, v.len());
    assert(scheme@ =~= target@.take(k as int));
    assert(rest@ =~= target@.skip(k + 3));
    let w = text::chars_of(rest.as_str());
    let slash = text::find_in(w.as_slice(), '/', 0);
    let authority = text::string_of_range(w.as_slice(), 0, slash);
    let target_path = text::string_of_range(w.as_slice(), slash, w.len());
    assert(authority@ =~= rest@.take(slash as int));
    assert(target_path@ =~= rest@.skip(slash as int));
    let lower = text::lower_ascii(scheme.as_str());
    let tls = text::same(lower.as_str(), "https");
    if !tls && !text::same(lower.as_str(), "http") {
        let detail = cat3(
            "scheme '",
            lower.as_str(),
            "://' not supported (only http and https) — not imported",
        );
        push_note(notes, line, line_text, detail);
        return;
    }
    let default_port: u16 = if tls {
        443
    } else {
        80
    };
    match split_host_port(authority.as_str(), default_port) {
        Err(reason) => {
            let mut detail = reason;
            detail.append(" — not imported");
            push_note(notes, line, line_text, detail);
        },
        Ok((host, port)) => {
            let hv = text::chars_of(host.as_str());
            if hv.len() == 0 {
                push_note(
                    notes,
                    line,
                    line_text,
                    "empty host in target URL — not imported".to_owned(),
                );
                return;
            }
            let a = text::trimmed_end_char(target_path.as_str(), '/');
            let b = text::trimmed_end_char(path.as_str(), '/');
            if !text::same(a.as_str(), b.as_str()) {
                let shown = if w.len() == slash {
                    "/"
                } else {
                    target_path.as_str()
                };
                let mut detail = cat3("path mapping '", path.as_str(), "' → '");
                detail.append(shown);
                detail.append(
                    "' is not preserved; the upstream receives the original request path",
                );
                push_note(notes, line, line_text, detail);
            }
            let ghost p = Pass { path: path@, tls, host: host@, port };
            vhost.proxy_passes.push(
                ProxyPass { path: path.clone(), target: ProxyTarget { tls, host, port } },
            );
            assert(vhost.deep_view().passes =~= host_before.passes.push(p));
            assert(vhost.deep_view() =~= Host {
                passes: host_before.passes.push(p),
                ..host_before
            });
        },
    }
}

/// [`proxy_pass`] on strings.
pub fn parse_proxy_pass(
    args: &Vec<String>,
    line_text: &str,
    line: usize,
    vhost: &mut VirtualHost,
    notes: &mut Vec<Note>,
) -> (r: Result<(), ImportError>)
    ensures
        (match proxy_pass(
            args.deep_view(),
            line_text@,
            line as nat,
            (Filed { host: old(vhost).deep_view(), notes: old(notes).deep_view() }),
        ) {
            Ok(f) => r is Ok && (Filed {
                host: final(vhost).deep_view(),
                notes: final(notes).deep_view(),
            }) == f,
            Err(m) => r matches Err(e) && e@ == m && final(vhost).deep_view() == old(
                vhost,
            ).deep_view() && final(notes).deep_view() == old(notes).deep_view(),
        }),
{
    assert(args.deep_view().len() == args@.len());
    if args.len() < 2 {
        return Err(line_error(line, "ProxyPass requires <path> and <target-url>"));
    }
    let path = &args[0];
    let target = &args[1];
    if text::same(target.as_str(), "!") {
        push_note(
            notes,
            line,
            line_text,
            "ProxyPass exclusion — replicate manually with a higher-priority route if needed".to_owned(),
        );
        return Ok(());
    }
    if args.len() > 2 {
        let options = join_options(args);
        let mut detail = "ProxyPass options not imported: ".to_owned();
        detail.append(options.as_str());
        push_note(notes, line, line_text, detail);
    }
    parse_proxy_target(path, target, line_text, line, vhost, notes);
    Ok(())
}

// ---------------------------------------------------------------------------
// Sections and directives
// ---------------------------------------------------------------------------

/// A section that is skipped: where it begins, its tag, and how deep it nests.
#[verifier::ext_equal]
pub ghost struct Skipped {
    pub line: nat,
    pub tag: Seq<char>,
    pub depth: nat,
}

/// Finished blocks, the open one, the skipped section, and notes.
#[verifier::ext_equal]
pub ghost struct Reading {
    pub hosts: Seq<Host>,
    pub current: Option<Host>,
    pub skip: Option<Skipped>,
    pub notes: Seq<Remark>,
}

/// The line closes a section.
pub open spec fn is_closing(t: Seq<char>) -> bool {
    t.len() >= 2 && t[0] == '<' && t[1] == '/'
}

/// The line opens or closes a section.
pub open spec fn is_tag(t: Seq<char>) -> bool {
    t.len() >= 1 && t[0] == '<'
}

/// A line inside a skipped section.
pub open spec fn skip_step(k: Skipped, t: Seq<char>) -> Option<Skipped> {
    if is_closing(t) {
        if k.depth <= 1 {
            None
        } else {
            Some(Skipped { depth: (k.depth - 1) as nat, ..k })
        }
    } else if is_tag(t) {
        Some(Skipped { depth: k.depth + 1, ..k })
    } else {
        Some(k)
    }
}

/// The tag of a closing line.
pub open spec fn closing_tag(t: Seq<char>) -> Seq<char> {
    text::trim(text::trim_end_char(t.skip(2), '>'))
}

/// The parts of an opening line: tag and arguments.
pub open spec fn opening_parts(t: Seq<char>) -> Seq<Seq<char>> {
    args_of(text::trim_end_char(t.skip(1), '>'))
}

/// The tag is that of a block.
pub open spec fn is_vhost(tag: Seq<char>) -> bool {
    text::eq_ignore_case(tag, "virtualhost"@)
}

/// A closing line outside skipped sections.
pub open spec fn close_step(s: Reading, l: Line) -> Result<Reading, Seq<char>> {
    let tag = closing_tag(l.text);
    if is_vhost(tag) {
        match s.current {
            Some(h) => Ok(Reading { hosts: s.hosts.push(h), current: None, ..s }),
            None => Err(
                at_line(l.number, "</VirtualHost> without matching <VirtualHost>"@),
            ),
        }
    } else {
        Err(at_line(l.number, "unexpected closing tag '</"@ + tag + ">'"@))
    }
}

/// An opening line outside skipped sections.
pub open spec fn open_step(s: Reading, l: Line) -> Result<Reading, Seq<char>> {
    let parts = opening_parts(l.text);
    if parts.len() == 0 {
        Err(at_line(l.number, "malformed section tag '"@ + l.text + "'"@))
    } else if is_vhost(parts[0]) {
        if s.current is Some {
            Err(
                at_line(
                    l.number,
                    "nested <VirtualHost> is not valid Apache configuration"@,
                ),
            )
        } else if parts.len() < 2 {
            Err(at_line(l.number, "<VirtualHost> requires an address"@))
        } else {
            Ok(
                Reading {
                    current: Some(empty_host(l.number, parts[1])),
                    notes: if parts.len() > 2 {
                        s.notes.push(
                            remark(
                                l.number,
                                l.text,
                                "only the first address '"@ + parts[1]
                                    + "' is imported; extra addresses ignored"@,
                            ),
                        )
                    } else {
                        s.notes
                    },
                    ..s
                },
            )
        }
    } else {
        Ok(
            Reading {
                skip: Some(Skipped { line: l.number, tag: parts[0], depth: 1 }),
                notes: s.notes.push(
                    remark(
                        l.number,
                        l.text,
                        "<"@ + parts[0]
                            + "> section skipped entirely, including every directive inside it"@,
                    ),
                ),
                ..s
            },
        )
    }
}

/// Some aliases of a block; wildcards are noted.
pub open spec fn with_aliases(
    f: Filed,
    aliases: Seq<Seq<char>>,
    line_text: Seq<char>,
    line: nat,
) -> Filed
    decreases aliases.len(),
{
    if aliases.len() == 0 {
        f
    } else {
        let g = with_aliases(f, aliases.drop_last(), line_text, line);
        let name = server_name_of(aliases.last());
        Filed {
            host: Host { aliases: g.host.aliases.push(name), ..g.host },
            notes: if name.contains('*') || name.contains('?') {
                g.notes.push(
                    remark(
                        line,
                        line_text,
                        "wildcard alias '"@ + name
                            + "' emitted as-is — verify Zentinel host matching handles it"@,
                    ),
                )
            } else {
                g.notes
            },
        }
    }
}

/// The directives that are imported.
pub open spec fn is_mapped(name: Seq<char>) -> bool {
    text::eq_ignore_case(name, "servername"@) || text::eq_ignore_case(name, "serveralias"@)
        || text::eq_ignore_case(name, "proxypass"@) || text::eq_ignore_case(
        name,
        "sslcertificatefile"@,
    ) || text::eq_ignore_case(name, "sslcertificatekeyfile"@)
}

/// A directive of a block.
pub open spec fn directive_step(
    f: Filed,
    l: Line,
    name: Seq<char>,
    args: Seq<Seq<char>>,
) -> Result<Filed, Seq<char>> {
    if text::eq_ignore_case(name, "servername"@) {
        if args.len() == 0 {
            Err(at_line(l.number, "ServerName requires a hostname"@))
        } else {
            Ok(
                Filed {
                    host: Host { server_name: Some(server_name_of(args[0])), ..f.host },
                    ..f
                },
            )
        }
    } else if text::eq_ignore_case(name, "serveralias"@) {
        if args.len() == 0 {
            Err(at_line(l.number, "ServerAlias requires at least one hostname"@))
        } else {
            Ok(with_aliases(f, args, l.text, l.number))
        }
    } else if text::eq_ignore_case(name, "proxypass"@) {
        proxy_pass(args, l.text, l.number, f)
    } else if text::eq_ignore_case(name, "sslcertificatefile"@) {
        if args.len() == 0 {
            Err(at_line(l.number, "SSLCertificateFile requires a path"@))
        } else {
            Ok(Filed { host: Host { cert: Some(args[0]), ..f.host }, ..f })
        }
    } else if text::eq_ignore_case(name, "sslcertificatekeyfile"@) {
        if args.len() == 0 {
            Err(at_line(l.number, "SSLCertificateKeyFile requires a path"@))
        } else {
            Ok(Filed { host: Host { key: Some(args[0]), ..f.host }, ..f })
        }
    } else if text::eq_ignore_case(name, "sslengine"@) {
        Ok(
            Filed {
                host: Host {
                    ssl_engine: args.len() > 0 && text::eq_ignore_case(args[0], "on"@),
                    ..f.host
                },
                notes: f.notes.push(
                    remark(
                        l.number,
                        l.text,
                        "not imported — TLS follows from the certificate files"@,
                    ),
                ),
            },
        )
    } else {
        Ok(
            Filed {
                notes: f.notes.push(remark(l.number, l.text, "stays on the backend"@)),
                ..f
            },
        )
    }
}

/// A line that is no tag, outside skipped sections.
pub open spec fn plain_step(s: Reading, l: Line) -> Result<Reading, Seq<char>> {
    let args = args_of(l.text);
    if args.len() == 0 {
        Ok(s)
    } else {
        match s.current {
            None => Ok(
                Reading {
                    notes: s.notes.push(
                        remark(l.number, l.text, "outside <VirtualHost> — not imported"@),
                    ),
                    ..s
                },
            ),
            Some(h) => match directive_step(
                Filed { host: h, notes: s.notes },
                l,
                args[0],
                args.skip(1),
            ) {
                Ok(f) => Ok(Reading { current: Some(f.host), notes: f.notes, ..s }),
                Err(m) => Err(m),
            },
        }
    }
}

/// Reading one more logical line.
pub open spec fn read_step(s: Reading, l: Line) -> Result<Reading, Seq<char>> {
    match s.skip {
        Some(k) => Ok(Reading { skip: skip_step(k, l.text), ..s }),
        None => if is_closing(l.text) {
            close_step(s, l)
        } else if is_tag(l.text) {
            open_step(s, l)
        } else {
            plain_step(s, l)
        },
    }
}

/// Nothing read yet.
pub open spec fn start(notes: Seq<Remark>) -> Reading {
    Reading { hosts: Seq::empty(), current: None, skip: None, notes }
}

/// The state after some lines, and the error that stopped the reading there.
pub open spec fn read_lines(lines: Seq<Line>, notes: Seq<Remark>) -> (Reading, Option<Seq<char>>)
    decreases lines.len(),
{
    if lines.len() == 0 {
        (start(notes), None)
    } else {
        let before = read_lines(lines.drop_last(), notes);
        match before.1 {
            Some(m) => before,
            None => match read_step(before.0, lines.last()) {
                Ok(s) => (s, None),
                Err(m) => (before.0, Some(m)),
            },
        }
    }
}

/// What is left open at the end.
pub open spec fn unclosed(s: Reading) -> Option<Seq<char>> {
    match s.current {
        Some(h) => Some("unclosed <VirtualHost> started at line "@ + text::digits(h.line)),
        None => match s.skip {
            Some(k) => Some(
                "unclosed <"@ + k.tag + "> section started at line "@ + text::digits(k.line),
            ),
            None => None,
        },
    }
}

/// The blocks of a configuration, or why it cannot be read.
pub open spec fn read(content: Seq<char>, notes: Seq<Remark>) -> (
    Seq<Remark>,
    Result<Seq<Host>, Seq<char>>,
) {
    let r = read_lines(lines_of(content), notes);
    (
        r.0.notes,
        match r.1 {
            Some(m) => Err(m),
            None => match unclosed(r.0) {
                Some(m) => Err(m),
                None => Ok(r.0.hosts),
            },
        },
    )
}

// ---------------------------------------------------------------------------
// Nothing is dropped
// ---------------------------------------------------------------------------

/// The line is a directive that is not imported, or stands outside of blocks.
pub open spec fn is_unmapped(s: Reading, l: Line) -> bool {
    &&& s.skip is None
    &&& !is_tag(l.text)
    &&& args_of(l.text).len() > 0
    &&& s.current is None || !is_mapped(args_of(l.text)[0])
}

/// The line opens a section that is skipped.
pub open spec fn opens_skipped(s: Reading, l: Line) -> bool {
    &&& s.skip is None
    &&& is_tag(l.text)
    &&& !is_closing(l.text)
    &&& opening_parts(l.text).len() > 0
    &&& !is_vhost(opening_parts(l.text)[0])
}

/// The line is noted.
pub open spec fn is_noted(notes: Seq<Remark>, l: Line) -> bool {
    exists|i: int|
        0 <= i < notes.len() && (#[trigger] notes[i]).line == l.number && notes[i].directive
            == reported(l.text)
}

proof fn lemma_aliases_keep_notes(
    f: Filed,
    aliases: Seq<Seq<char>>,
    line_text: Seq<char>,
    line: nat,
)
    ensures
        f.notes.is_prefix_of(with_aliases(f, aliases, line_text, line).notes),
    decreases aliases.len(),
{
    if aliases.len() > 0 {
        lemma_aliases_keep_notes(f, aliases.drop_last(), line_text, line);
    }
}

/// A line never takes a note away.
pub proof fn notes_only_grow(s: Reading, l: Line)
    ensures
        read_step(s, l) matches Ok(t) ==> s.notes.is_prefix_of(t.notes),
{
    if s.skip is None && !is_tag(l.text) && s.current is Some {
        let f = Filed { host: s.current->0, notes: s.notes };
        let args = args_of(l.text);
        if args.len() > 0 {
            lemma_aliases_keep_notes(f, args.skip(1), l.text, l.number);
        }
    }
}

proof fn lemma_read_grows(lines: Seq<Line>, notes: Seq<Remark>, n: int)
    requires
        0 <= n <= lines.len(),
        read_lines(lines, notes).1 is None,
    ensures
        read_lines(lines.take(n), notes).1 is None,
        read_lines(lines.take(n), notes).0.notes.is_prefix_of(read_lines(lines, notes).0.notes),
    decreases lines.len(),
{
    if n == lines.len() {
        assert(lines.take(n) =~= lines);
    } else {
        let init = lines.drop_last();
        assert(init.take(n) =~= lines.take(n));
        lemma_read_grows(init, notes, n);
        notes_only_grow(read_lines(init, notes).0, lines.last());
    }
}

/// Nothing is silently dropped: of a configuration that is read, every directive
/// that is not understood and every section that is skipped is noted with its
/// line number.
pub proof fn nothing_is_dropped(content: Seq<char>, notes: Seq<Remark>, n: int)
    requires
        read(content, notes).1 is Ok,
        0 <= n < lines_of(content).len(),
        ({
            let s = read_lines(lines_of(content).take(n), notes).0;
            is_unmapped(s, lines_of(content)[n]) || opens_skipped(s, lines_of(content)[n])
        }),
    ensures
        is_noted(read(content, notes).0, lines_of(content)[n]),
{
    let lines = lines_of(content);
    let l = lines[n];
    lemma_read_grows(lines, notes, n);
    lemma_read_grows(lines, notes, n + 1);
    let s = read_lines(lines.take(n), notes).0;
    assert(lines.take(n + 1).drop_last() =~= lines.take(n));
    assert(lines.take(n + 1).last() == l);
    let t = read_lines(lines.take(n + 1), notes).0;
    let i = t.notes.len() - 1;
    assert(t.notes[i].line == l.number && t.notes[i].directive == reported(l.text));
    assert(read(content, notes).0[i] == t.notes[i]);
}

// ---------------------------------------------------------------------------
// Parser
// ---------------------------------------------------------------------------

/// Tag and depth of a section that is skipped.
struct SkippedSection {
    line: usize,
    tag: String,
    depth: usize,
}

impl DeepView for SkippedSection {
    type V = Skipped;

    closed spec fn deep_view(&self) -> Skipped {
        Skipped { line: self.line as nat, tag: self.tag@, depth: self.depth as nat }
    }
}

/// The state of the reading as plain values.
closed spec fn reading(
    hosts: Vec<VirtualHost>,
    current: Option<VirtualHost>,
    skip: Option<SkippedSection>,
    notes: Vec<Note>,
) -> Reading {
    Reading {
        hosts: hosts.deep_view(),
        current: match current {
            Some(h) => Some(h.deep_view()),
            None => None,
        },
        skip: match skip {
            Some(k) => Some(k.deep_view()),
            None => None,
        },
        notes: notes.deep_view(),
    }
}

fn closes(t: &Vec<char>) -> (r: bool)
    ensures
        r == is_closing(t@),
{
    t.len() >= 2 && t[0] == '<' && t[1] == '/'
}

fn skip_line(skip: SkippedSection, t: &Vec<char>) -> (r: Option<SkippedSection>)
    requires
        skip.depth < usize::MAX,
    ensures
        (match r {
            Some(k) => skip_step(skip.deep_view(), t@) == Some(k.deep_view()) && k.depth
                <= skip.depth + 1,
            None => skip_step(skip.deep_view(), t@) is None,
        }),
{
    let mut k = skip;
    if closes(t) {
        if k.depth <= 1 {
            None
        } else {
            k.depth = k.depth - 1;
            Some(k)
        }
    } else if t.len() >= 1 && t[0] == '<' {
        k.depth = k.depth + 1;
        Some(k)
    } else {
        Some(k)
    }
}

fn tag_of_closing(t: &Vec<char>) -> (r: String)
    requires
        is_closing(t@),
    ensures
        r@ == closing_tag(t@),
{
    let rest = text::string_of_range(t.as_slice(), 2, t.len());
    assert(rest@ =~= t@.skip(2));
    let stripped = text::trimmed_end_char(rest.as_str(), '>');
    text::trimmed(stripped.as_str())
}

fn parts_of_opening(t: &Vec<char>) -> (r: Vec<String>)
    requires
        is_tag(t@),
    ensures
        r.deep_view() == opening_parts(t@),
        r@.len() == opening_parts(t@).len(),
{
    let rest = text::string_of_range(t.as_slice(), 1, t.len());
    assert(rest@ =~= t@.skip(1));
    let stripped = text::trimmed_end_char(rest.as_str(), '>');
    split_args(stripped.as_str())
}

fn add_aliases(
    vhost: &mut VirtualHost,
    notes: &mut Vec<Note>,
    args: &Vec<String>,
    line_text: &str,
    line: usize,
)
    ensures
        (Filed { host: final(vhost).deep_view(), notes: final(notes).deep_view() })
            == with_aliases(
            (Filed { host: old(vhost).deep_view(), notes: old(notes).deep_view() }),
            args.deep_view(),
            line_text@,
            line as nat,
        ),
{
    let ghost f = Filed { host: vhost.deep_view(), notes: notes.deep_view() };
    let ghost all = args.deep_view();
    let mut i: usize = 0;
    while i < args.len()
        invariant
            i <= args@.len(),
            all == args.deep_view(),
            all.len() == args@.len(),
            (Filed { host: vhost.deep_view(), notes: notes.deep_view() }) == with_aliases(
                f,
                all.take(i as int),
                line_text@,
                line as nat,
            ),
        decreases args.len() - i,
    {
        proof {
            assert(all.take(i + 1).drop_last() =~= all.take(i as int));
            assert(all.take(i + 1).last() == args@[i as int]@);
        }
        let ghost h = vhost.deep_view();
        let name = clean_server_name(args[i].as_str());
        if text::contains_char(name.as_str(), '*') || text::contains_char(name.as_str(), '?') {
            let detail = cat3(
                "wildcard alias '",
                name.as_str(),
                "' emitted as-is — verify Zentinel host matching handles it",
            );
            push_note(notes, line, line_text, detail);
        }
        let ghost x = name@;
        push_text(&mut vhost.aliases, name);
        assert(vhost.deep_view() =~= Host { aliases: h.aliases.push(x), ..h });
        i = i + 1;
    }
    assert(all.take(i as int) =~= all);
}

/// The arguments after the first.
fn tail(args: &Vec<String>) -> (r: Vec<String>)
    requires
        args@.len() >= 1,
    ensures
        r.deep_view() == args.deep_view().skip(1),
        r@.len() == args@.len() - 1,
{
    let mut rest: Vec<String> = Vec::new();
    let mut i: usize = 1;
    while i < args.len()
        invariant
            1 <= i <= args@.len(),
            rest@.len() == i - 1,
            forall|j: int| 0 <= j < i - 1 ==> (#[trigger] rest@[j])@ == args@[j + 1]@,
        decreases args.len() - i,
    {
        rest.push(args[i].clone());
        i = i + 1;
    }
    assert(rest.deep_view() =~= args.deep_view().skip(1));
    rest
}

fn read_directive(
    vhost: &mut VirtualHost,
    notes: &mut Vec<Note>,
    line: &LogicalLine,
    name: &str,
    args: &Vec<String>,
) -> (r: Result<(), ImportError>)
    ensures
        (match directive_step(
            (Filed { host: old(vhost).deep_view(), notes: old(notes).deep_view() }),
            line.deep_view(),
            name@,
            args.deep_view(),
        ) {
            Ok(f) => r is Ok && (Filed {
                host: final(vhost).deep_view(),
                notes: final(notes).deep_view(),
            }) == f,
            Err(m) => r matches Err(e) && e@ == m && final(notes).deep_view() == old(
                notes,
            ).deep_view(),
        }),
{
    let ghost h = vhost.deep_view();
    let n = line.number;
    assert(args.deep_view().len() == args@.len());
    if text::same_ignore_case(name, "servername") {
        if args.len() == 0 {
            return Err(line_error(n, "ServerName requires a hostname"));
        }
        let value = clean_server_name(args[0].as_str());
        let ghost x = value@;
        vhost.server_name = Some(value);
        assert(vhost.deep_view() =~= Host { server_name: Some(x), ..h });
    } else if text::same_ignore_case(name, "serveralias") {
        if args.len() == 0 {
            return Err(line_error(n, "ServerAlias requires at least one hostname"));
        }
        add_aliases(vhost, notes, args, line.text.as_str(), n);
    } else if text::same_ignore_case(name, "proxypass") {
        return parse_proxy_pass(args, line.text.as_str(), n, vhost, notes);
    } else if text::same_ignore_case(name, "sslcertificatefile") {
        if args.len() == 0 {
            return Err(line_error(n, "SSLCertificateFile requires a path"));
        }
        vhost.cert_file = Some(args[0].clone());
        assert(vhost.deep_view() =~= Host { cert: Some(args.deep_view()[0]), ..h });
    } else if text::same_ignore_case(name, "sslcertificatekeyfile") {
        if args.len() == 0 {
            return Err(line_error(n, "SSLCertificateKeyFile requires a path"));
        }
        vhost.key_file = Some(args[0].clone());
        assert(vhost.deep_view() =~= Host { key: Some(args.deep_view()[0]), ..h });
    } else if text::same_ignore_case(name, "sslengine") {
        let on = args.len() > 0 && text::same_ignore_case(args[0].as_str(), "on");
        vhost.ssl_engine = on;
        assert(vhost.deep_view() =~= Host { ssl_engine: on, ..h });
        push_note(
            notes,
            n,
            line.text.as_str(),
            "not imported — TLS follows from the certificate files".to_owned(),
        );
    } else {
        push_note(notes, n, line.text.as_str(), "stays on the backend".to_owned());
    }
    Ok(())
}

fn read_opening(
    current: Option<VirtualHost>,
    skip: &mut Option<SkippedSection>,
    notes: &mut Vec<Note>,
    line: &LogicalLine,
    t: &Vec<char>,
    Ghost(hosts): Ghost<Vec<VirtualHost>>,
) -> (r: Result<Option<VirtualHost>, ImportError>)
    requires
        t@ == line.text@,
        is_tag(t@),
        *old(skip) is None,
    ensures
        (match open_step(reading(hosts, current, *old(skip), *old(notes)), line.deep_view()) {
            Ok(s) => r matches Ok(c) && reading(hosts, c, *final(skip), *final(notes)) == s && (
            *final(skip) matches Some(k) ==> k.depth == 1),
            Err(m) => r matches Err(e) && e@ == m && final(notes).deep_view() == old(
                notes,
            ).deep_view(),
        }),
{
    let ghost before = reading(hosts, current, *skip, *notes);
    let mut parts = parts_of_opening(t);
    let n = line.number;
    let ghost ps = parts.deep_view();
    if parts.len() == 0 {
        let m = cat3("malformed section tag '", line.text.as_str(), "'");
        return Err(line_error(n, m.as_str()));
    }
    if text::same_ignore_case(parts[0].as_str(), "virtualhost") {
        if current.is_some() {
            return Err(
                line_error(n, "nested <VirtualHost> is not valid Apache configuration"),
            );
        }
        if parts.len() < 2 {
            return Err(line_error(n, "<VirtualHost> requires an address"));
        }
        if parts.len() > 2 {
            let detail = cat3(
                "only the first address '",
                parts[1].as_str(),
                "' is imported; extra addresses ignored",
            );
            push_note(notes, n, line.text.as_str(), detail);
        }
        let address = parts.remove(1);
        assert(address@ == ps[1]);
        let v = VirtualHost::new(n, address);
        let c = Some(v);
        assert(reading(hosts, c, *skip, *notes) =~= open_step(before, line.deep_view())->Ok_0);
        return Ok(c);
    }
    let detail = cat3(
        "<",
        parts[0].as_str(),
        "> section skipped entirely, including every directive inside it",
    );
    push_note(notes, n, line.text.as_str(), detail);
    let tag = parts.remove(0);
    assert(tag@ == ps[0]);
    *skip = Some(SkippedSection { line: n, tag, depth: 1 });
    assert(reading(hosts, current, *skip, *notes) =~= open_step(before, line.deep_view())->Ok_0);
    Ok(current)
}

/// The blocks of a configuration. What is not imported is added to the notes.
pub fn parse_apache(content: &str, notes: &mut Vec<Note>) -> (r: Result<
    Vec<VirtualHost>,
    ImportError,
>)
    ensures
        final(notes).deep_view() == read(content@, old(notes).deep_view()).0,
        (match r {
            Ok(hosts) => read(content@, old(notes).deep_view()).1 == Ok::<Seq<Host>, Seq<char>>(
                hosts.deep_view(),
            ),
            Err(e) => read(content@, old(notes).deep_view()).1 == Err::<Seq<Host>, Seq<char>>(e@),
        }),
{
    let lines = logical_lines(content);
    let ghost all = lines.deep_view();
    let ghost given = notes.deep_view();
    let mut hosts: Vec<VirtualHost> = Vec::new();
    let mut current: Option<VirtualHost> = None;
    let mut skip: Option<SkippedSection> = None;
    let mut i: usize = 0;
    assert(hosts.deep_view() =~= Seq::<Host>::empty());
    while i < lines.len()
        invariant
            i <= lines@.len(),
            all == lines.deep_view(),
            all == lines_of(content@),
            all.len() == lines@.len(),
            given == old(notes).deep_view(),
            skip matches Some(k) ==> k.depth <= i,
            read_lines(all.take(i as int), given) == (
                reading(hosts, current, skip, *notes),
                None::<Seq<char>>,
            ),
        decreases lines.len() - i,
    {
        let line = &lines[i];
        let ghost l = line.deep_view();
        let ghost before = reading(hosts, current, skip, *notes);
        proof {
            assert(all.take(i + 1).drop_last() =~= all.take(i as int));
            assert(all.take(i + 1).last() == l);
            if read_step(before, l) is Err {
                lemma_read_stops(all, given, i + 1);
            }
        }
        let t = text::chars_of(line.text.as_str());
        if let Some(k) = skip {
            skip = skip_line(k, &t);
            assert(reading(hosts, current, skip, *notes) =~= read_step(before, l)->Ok_0);
        } else if closes(&t) {
            skip = None;
            let tag = tag_of_closing(&t);
            if !text::same_ignore_case(tag.as_str(), "virtualhost") {
                let m = cat3("unexpected closing tag '</", tag.as_str(), ">'");
                return Err(line_error(line.number, m.as_str()));
            }
            match current {
                Some(v) => {
                    let ghost hs = hosts.deep_view();
                    let ghost x = v.deep_view();
                    hosts.push(v);
                    assert(hosts.deep_view() =~= hs.push(x));
                    current = None;
                },
                None => {
                    return Err(
                        line_error(
                            line.number,
                            "</VirtualHost> without matching <VirtualHost>",
                        ),
                    );
                },
            }
            assert(reading(hosts, current, skip, *notes) =~= read_step(before, l)->Ok_0);
        } else if t.len() >= 1 && t[0] == '<' {
            skip = None;
            match read_opening(current, &mut skip, notes, line, &t, Ghost(hosts)) {
                Ok(c) => {
                    current = c;
                },
                Err(e) => {
                    return Err(e);
                },
            }
        } else {
            skip = None;
            let args = split_args(line.text.as_str());
            if args.len() > 0 {
                match current {
                    None => {
                        current = None;
                        push_note(
                            notes,
                            line.number,
                            line.text.as_str(),
                            "outside <VirtualHost> — not imported".to_owned(),
                        );
                        assert(reading(hosts, current, skip, *notes) =~= read_step(
                            before,
                            l,
                        )->Ok_0);
                    },
                    Some(v) => {
                        let mut vhost = v;
                        let rest = tail(&args);
                        match read_directive(&mut vhost, notes, line, args[0].as_str(), &rest) {
                            Ok(_) => {},
                            Err(e) => {
                                return Err(e);
                            },
                        }
                        current = Some(vhost);
                        assert(reading(hosts, current, skip, *notes) =~= read_step(
                            before,
                            l,
                        )->Ok_0);
                    },
                }
            }
        }
        i = i + 1;
    }
    assert(all.take(i as int) =~= all);
    if let Some(v) = current {
        let n = text::decimal(v.line as u64);
        let mut m = "unclosed <VirtualHost> started at line ".to_owned();
        m.append(n.as_str());
        return Err(fail(m));
    }
    if let Some(k) = skip {
        let n = text::decimal(k.line as u64);
        let mut m = cat3("unclosed <", k.tag.as_str(), "> section started at line ");
        m.append(n.as_str());
        return Err(fail(m));
    }
    Ok(hosts)
}

proof fn lemma_read_stops(lines: Seq<Line>, notes: Seq<Remark>, n: int)
    requires
        0 <= n <= lines.len(),
        read_lines(lines.take(n), notes).1 is Some,
    ensures
        read_lines(lines, notes) == read_lines(lines.take(n), notes),
    decreases lines.len(),
{
    if n == lines.len() {
        assert(lines.take(n) =~= lines);
    } else {
        assert(lines.drop_last().take(n) =~= lines.take(n));
        lemma_read_stops(lines.drop_last(), notes, n);
    }
}

// ---------------------------------------------------------------------------
// Laws on targets, arguments and directives
// ---------------------------------------------------------------------------

proof fn lemma_scheme_at(s: Seq<char>, from: int, k: int)
    requires
        0 <= from <= k,
        k + 2 < s.len(),
        s[k] == ':' && s[k + 1] == '/' && s[k + 2] == '/',
        forall|j: int| from <= j < k ==> #[trigger] s[j] != ':',
    ensures
        find_scheme(s, from) == k,
    decreases k - from,
{
    if from < k {
        assert(s[from] != ':');
        lemma_scheme_at(s, from + 1, k);
    }
}

proof fn lemma_no_scheme(s: Seq<char>, from: int)
    requires
        0 <= from,
        forall|j: int| 0 <= j < s.len() ==> #[trigger] s[j] != ':',
    ensures
        find_scheme(s, from) == s.len(),
    decreases s.len() - from,
{
    if from + 2 < s.len() {
        assert(s[from] != ':');
        lemma_no_scheme(s, from + 1);
    }
}

proof fn lemma_rfind(s: Seq<char>, c: char)
    ensures
        -1 <= rfind(s, c) < s.len(),
        rfind(s, c) >= 0 ==> s[rfind(s, c)] == c,
        forall|j: int| rfind(s, c) < j < s.len() ==> #[trigger] s[j] != c,
    decreases s.len(),
{
    if s.len() > 0 && s.last() != c {
        lemma_rfind(s.drop_last(), c);
        assert forall|j: int| rfind(s, c) < j < s.len() implies #[trigger] s[j] != c by {
            if j < s.len() - 1 {
                assert(s.drop_last()[j] == s[j]);
            }
        }
    }
}

/// The text of a target: scheme, host, maybe a port, and a path.
pub open spec fn target_text(
    scheme: Seq<char>,
    host: Seq<char>,
    port: Option<Seq<char>>,
    path: Seq<char>,
) -> Seq<char> {
    scheme + seq![':', '/', '/'] + host + (match port {
        Some(p) => seq![':'] + p,
        None => Seq::empty(),
    }) + path
}

/// A `ProxyPass` to `scheme://host[:port][/path]` over `http` or `https` adds one pass
/// with its prefix and that host. It goes over TLS exactly where the scheme is `https`,
/// in any letter case. Its port is the written one, and where none is written 443 over
/// TLS and 80 otherwise.
pub proof fn pass_goes_where_its_target_says(
    prefix: Seq<char>,
    scheme: Seq<char>,
    host: Seq<char>,
    port: Option<Seq<char>>,
    path: Seq<char>,
    l: Line,
    f: Filed,
)
    requires
        text::eq_ignore_case(scheme, "http"@) || text::eq_ignore_case(scheme, "https"@),
        host.len() > 0,
        host[0] != '[',
        forall|i: int| 0 <= i < host.len() ==> #[trigger] host[i] != ':' && host[i] != '/',
        path.len() > 0 ==> path[0] == '/',
        port matches Some(p) ==> text::all_digits(p) && p.len() > 0 && text::digits_value(p) <= 0xffff,
    ensures
        ({
            let g = proxy_target(prefix, target_text(scheme, host, port, path), l.text, l.number, f);
            let https = scheme.len() == 5;
            &&& g.host.passes == f.host.passes.push(
                Pass {
                    path: prefix,
                    tls: https,
                    host,
                    port: match port {
                        Some(p) => text::digits_value(p) as u16,
                        None => if https {
                            443
                        } else {
                            80
                        },
                    },
                },
            )
            &&& g.host == Host { passes: g.host.passes, ..f.host }
            &&& g.notes == mapping_note(prefix, path, l.text, l.number, f.notes)
        }),
{
    let target = target_text(scheme, host, port, path);
    let written = match port {
        Some(p) => seq![':'] + p,
        None => Seq::<char>::empty(),
    };
    let authority = host + written;
    reveal_strlit("http");
    reveal_strlit("https");
    assert("http"@ =~= seq!['h', 't', 't', 'p']);
    assert("https"@ =~= seq!['h', 't', 't', 'p', 's']);
    text::equal_but_for_case(scheme, "http"@);
    text::equal_but_for_case(scheme, "https"@);
    assert(text::ascii_lowercase("http"@) =~= "http"@);
    assert(text::ascii_lowercase("https"@) =~= "https"@);
    let n = scheme.len() as int;
    assert forall|j: int| 0 <= j < n implies #[trigger] target[j] != ':' by {
        assert(target[j] == scheme[j]);
        if text::eq_ignore_case(scheme, "http"@) {
            assert("http"@[j] != ':');
        } else {
            assert("https"@[j] != ':');
        }
    }
    assert(target[n] == ':' && target[n + 1] == '/' && target[n + 2] == '/');
    lemma_scheme_at(target, 0, n);
    let rest = target.skip(n + 3);
    assert(rest =~= authority + path);
    assert(target.take(n) =~= scheme);
    assert forall|j: int| 0 <= j < authority.len() implies #[trigger] authority[j] != '/' by {
        if j < host.len() {
            assert(authority[j] == host[j]);
        } else if j > host.len() {
            let p = port->0;
            assert(authority[j] == p[j - host.len() - 1]);
            assert(text::is_digit(p[j - host.len() - 1]));
        }
    }
    text::lemma_find_from(rest, '/', 0);
    let slash = text::find_char(rest, '/');
    assert(slash == authority.len()) by {
        if slash < authority.len() {
            assert(rest[slash] == authority[slash]);
        }
        if slash > authority.len() {
            assert(rest[authority.len() as int] == path[0]);
        }
    }
    assert(rest.take(slash) =~= authority);
    assert(rest.skip(slash) =~= path);
    lemma_host_port(host, port, if scheme.len() == 5 {
        443
    } else {
        80
    });
}

pub proof fn lemma_host_port(host: Seq<char>, port: Option<Seq<char>>, default_port: u16)
    requires
        host.len() > 0,
        host[0] != '[',
        forall|i: int| 0 <= i < host.len() ==> #[trigger] host[i] != ':',
        port matches Some(p) ==> text::all_digits(p) && p.len() > 0 && text::digits_value(p) <= 0xffff,
    ensures
        port is None ==> host_port(host + Seq::<char>::empty(), default_port) == Result::<
            (Seq<char>, u16),
            Seq<char>,
        >::Ok((host, default_port)),
        port matches Some(p) ==> host_port(host + (seq![':'] + p), default_port) == Result::<
            (Seq<char>, u16),
            Seq<char>,
        >::Ok((host, text::digits_value(p) as u16)),
{
    match port {
        None => {
            let s = host + Seq::<char>::empty();
            assert(s =~= host);
            lemma_rfind(s, ':');
        },
        Some(p) => {
            let s = host + (seq![':'] + p);
            lemma_rfind(s, ':');
            let n = host.len() as int;
            assert(s[0] == host[0]);
            assert(s[n] == ':');
            let k = rfind(s, ':');
            assert(k == n) by {
                if k < n {
                    assert(s[n] != ':');
                } else if k > n {
                    assert(s[k] == p[k - n - 1]);
                    assert(text::is_digit(p[k - n - 1]));
                }
            }
            assert(s.skip(k + 1) =~= p);
            assert(s.take(k) =~= host);
            if p[0] == '+' {
                assert(text::is_digit(p[0]));
            }
        },
    }
}

/// An address in brackets is read without them, with the port behind them or the
/// default one.
pub proof fn bracketed_addresses_lose_their_brackets(inner: Seq<char>, p: Seq<char>, default_port: u16)
    requires
        !inner.contains(']'),
        text::all_digits(p),
        p.len() > 0,
        text::digits_value(p) <= 0xffff,
    ensures
        host_port(seq!['['] + inner + seq![']'], default_port) == Result::<
            (Seq<char>, u16),
            Seq<char>,
        >::Ok((inner, default_port)),
        host_port(seq!['['] + inner + seq![']', ':'] + p, default_port) == Result::<
            (Seq<char>, u16),
            Seq<char>,
        >::Ok((inner, text::digits_value(p) as u16)),
{
    let s = seq!['['] + inner + seq![']'];
    let t = seq!['['] + inner + seq![']', ':'] + p;
    let n = inner.len() as int;
    let a = s.skip(1);
    let b = t.skip(1);
    assert(a =~= inner + seq![']']);
    assert(b =~= inner + seq![']', ':'] + p);
    assert forall|j: int| 0 <= j < n implies a[j] != ']' && b[j] != ']' by {
        assert(inner.contains(inner[j]));
    }
    text::lemma_find_unique(a, ']', 0, n);
    text::lemma_find_unique(b, ']', 0, n);
    assert(a.take(n) =~= inner);
    assert(b.take(n) =~= inner);
    assert(a.skip(n + 1) =~= Seq::empty());
    assert(b.skip(n + 1) =~= seq![':'] + p);
    assert((seq![':'] + p).skip(1) =~= p);
    if p[0] == '+' {
        assert(text::is_digit(p[0]));
    }
}

/// A target over any other scheme, a target without a scheme and an exclusion add no
/// pass: the block stays as it is, and a note says why.
pub proof fn other_targets_are_noted(
    prefix: Seq<char>,
    target: Seq<char>,
    scheme: Seq<char>,
    rest: Seq<char>,
    l: Line,
    f: Filed,
)
    requires
        !target.contains(':') || (target == scheme + seq![':', '/', '/'] + rest && !scheme.contains(':')
            && !text::eq_ignore_case(scheme, "http"@) && !text::eq_ignore_case(scheme, "https"@)),
    ensures
        ({
            let g = proxy_target(prefix, target, l.text, l.number, f);
            g.host == f.host && g.notes.len() == f.notes.len() + 1 && g.notes.drop_last() == f.notes
                && g.notes.last().line == l.number
        }),
        proxy_pass(seq![prefix, "!"@], l.text, l.number, f) matches Ok(g) && g.host == f.host
            && g.notes.len() == f.notes.len() + 1,
{
    let g = proxy_target(prefix, target, l.text, l.number, f);
    reveal_strlit("http");
    reveal_strlit("https");
    assert(text::ascii_lowercase("http"@) =~= "http"@);
    assert(text::ascii_lowercase("https"@) =~= "https"@);
    if !target.contains(':') {
        assert forall|j: int| 0 <= j < target.len() implies #[trigger] target[j] != ':' by {
            assert(target.contains(target[j]));
        }
        lemma_no_scheme(target, 0);
    } else {
        let n = scheme.len() as int;
        assert forall|j: int| 0 <= j < n implies #[trigger] target[j] != ':' by {
            assert(scheme.contains(scheme[j]));
        }
        lemma_scheme_at(target, 0, n);
        assert(target.take(n) =~= scheme);
    }
    assert(g.notes.drop_last() =~= f.notes);
}

/// A pass whose target has another path than its prefix, but for slashes at the end, is
/// noted, since the upstream gets the path of the request unchanged.
pub proof fn changed_paths_are_noted(prefix: Seq<char>, path: Seq<char>, l: Line, notes: Seq<Remark>)
    ensures
        text::trim_end_char(prefix, '/') == text::trim_end_char(path, '/') ==> mapping_note(
            prefix,
            path,
            l.text,
            l.number,
            notes,
        ) == notes,
        text::trim_end_char(prefix, '/') != text::trim_end_char(path, '/') ==> mapping_note(
            prefix,
            path,
            l.text,
            l.number,
            notes,
        ).len() == notes.len() + 1,
{
}

/// Words are separated by white space, and what stands in double quotes is one word
/// with the white space in it.
pub proof fn words_of_a_line(t: Seq<char>, w: Seq<char>, q: Seq<char>)
    requires
        forall|i: int| 0 <= i < t.len() ==> #[trigger] t[i] != '"',
        w.len() > 0,
        forall|i: int| 0 <= i < w.len() ==> #[trigger] w[i] != '"' && !text::is_space(w[i]),
        q.len() > 0,
        forall|i: int| 0 <= i < q.len() ==> #[trigger] q[i] != '"',
    ensures
        args_of(Seq::<char>::empty()) == Seq::<Seq<char>>::empty(),
        args_of(w) == seq![w],
        args_of(t + seq![' '] + w) == args_of(t).push(w),
        args_of(t + seq![' ', '"'] + q + seq!['"']) == args_of(t).push(q),
{
    let none = Seq::<char>::empty();
    lemma_word_read(none, w);
    assert(none + w =~= w);
    assert(args_read(none).args.push(w) =~= seq![w]);
    lemma_unquoted(t);
    let gap = t + seq![' '];
    assert(gap.drop_last() =~= t);
    let before = args_read(gap);
    assert(text::is_space(' '));
    assert(before.args =~= args_of(t) && before.word =~= none && !before.quoted);
    lemma_word_read(gap, w);
    let opened = t + seq![' ', '"'];
    assert(opened.drop_last() =~= gap);
    lemma_quoted_read(opened, q);
    let closed = opened + q + seq!['"'];
    assert(closed.drop_last() =~= opened + q);
}

proof fn lemma_unquoted(t: Seq<char>)
    requires
        forall|i: int| 0 <= i < t.len() ==> #[trigger] t[i] != '"',
    ensures
        !args_read(t).quoted,
    decreases t.len(),
{
    if t.len() > 0 {
        assert forall|i: int| 0 <= i < t.drop_last().len() implies #[trigger] t.drop_last()[i] != '"' by {
            assert(t.drop_last()[i] == t[i]);
        }
        lemma_unquoted(t.drop_last());
        assert(t.last() == t[t.len() - 1]);
    }
}

proof fn lemma_word_read(t: Seq<char>, w: Seq<char>)
    requires
        args_read(t).word.len() == 0,
        !args_read(t).quoted,
        forall|i: int| 0 <= i < w.len() ==> #[trigger] w[i] != '"' && !text::is_space(w[i]),
    ensures
        args_read(t + w).args == args_read(t).args,
        args_read(t + w).word == w,
        !args_read(t + w).quoted,
    decreases w.len(),
{
    if w.len() > 0 {
        let v = w.drop_last();
        assert forall|i: int| 0 <= i < v.len() implies #[trigger] v[i] != '"' && !text::is_space(v[i]) by {
            assert(v[i] == w[i]);
        }
        lemma_word_read(t, v);
        assert((t + w).drop_last() =~= t + v);
        assert((t + w).last() == w[w.len() - 1]);
        assert(v.push(w.last()) =~= w);
    } else {
        assert(t + w =~= t);
        assert(args_read(t).word =~= w);
    }
}

proof fn lemma_quoted_read(t: Seq<char>, w: Seq<char>)
    requires
        args_read(t).word.len() == 0,
        args_read(t).quoted,
        forall|i: int| 0 <= i < w.len() ==> #[trigger] w[i] != '"',
    ensures
        args_read(t + w).args == args_read(t).args,
        args_read(t + w).word == w,
        args_read(t + w).quoted,
    decreases w.len(),
{
    if w.len() > 0 {
        let v = w.drop_last();
        assert forall|i: int| 0 <= i < v.len() implies #[trigger] v[i] != '"' by {
            assert(v[i] == w[i]);
        }
        lemma_quoted_read(t, v);
        assert((t + w).drop_last() =~= t + v);
        assert((t + w).last() == w[w.len() - 1]);
        assert(v.push(w.last()) =~= w);
    } else {
        assert(t + w =~= t);
        assert(args_read(t).word =~= w);
    }
}

/// The name of a server is taken without its scheme, its port and the dots at its end.
pub proof fn server_names_are_bare(name: Seq<char>, port: Seq<char>, scheme: Seq<char>)
    requires
        name.len() > 0,
        name.last() != '.',
        forall|i: int| 0 <= i < name.len() ==> #[trigger] name[i] != ':' && name[i] != '/',
        forall|i: int| 0 <= i < port.len() ==> #[trigger] port[i] != '/' && port[i] != ':',
        forall|i: int| 0 <= i < scheme.len() ==> #[trigger] scheme[i] != ':',
    ensures
        server_name_of(name) == name,
        server_name_of(name + seq![':'] + port) == name,
        server_name_of(name.push('.')) == name,
        server_name_of(scheme + seq![':', '/', '/'] + name) == name,
        server_name_of(scheme + seq![':', '/', '/'] + name + seq![':'] + port) == name,
{
    lemma_no_scheme(name, 0);
    lemma_bare(name, Seq::empty());
    assert(name + Seq::<char>::empty() =~= name);
    let a = name + seq![':'] + port;
    lemma_scheme_later(a);
    lemma_bare(name, seq![':'] + port);
    assert(name + (seq![':'] + port) =~= a);
    let d = name.push('.');
    assert forall|j: int| 0 <= j < d.len() implies #[trigger] d[j] != ':' by {}
    lemma_no_scheme(d, 0);
    text::lemma_find_from(d, ':', 0);
    assert(text::find_char(d, ':') == d.len());
    assert(d.take(d.len() as int) =~= d);
    assert(d.drop_last() =~= name);
    reveal_with_fuel(text::trim_end_char, 2);
    let b = scheme + seq![':', '/', '/'] + name;
    assert forall|j: int| 0 <= j < scheme.len() implies #[trigger] b[j] != ':' by {
        assert(b[j] == scheme[j]);
    }
    lemma_scheme_at(b, 0, scheme.len() as int);
    assert(b.skip(scheme.len() as int + 3) =~= name);
    let e = scheme + seq![':', '/', '/'] + name + seq![':'] + port;
    assert forall|j: int| 0 <= j < scheme.len() implies #[trigger] e[j] != ':' by {
        assert(e[j] == scheme[j]);
    }
    lemma_scheme_at(e, 0, scheme.len() as int);
    assert(e.skip(scheme.len() as int + 3) =~= a);
}

proof fn lemma_bare(name: Seq<char>, rest: Seq<char>)
    requires
        name.len() > 0,
        name.last() != '.',
        forall|i: int| 0 <= i < name.len() ==> #[trigger] name[i] != ':',
        rest.len() > 0 ==> rest[0] == ':',
    ensures
        text::trim_end_char((name + rest).take(text::find_char(name + rest, ':')), '.') == name,
{
    let s = name + rest;
    text::lemma_find_from(s, ':', 0);
    let k = text::find_char(s, ':');
    assert(k == name.len()) by {
        if k < name.len() {
            assert(s[k] == name[k]);
        }
        if k > name.len() {
            assert(s[name.len() as int] == rest[0]);
        }
    }
    assert(s.take(k) =~= name);
}

proof fn lemma_scheme_later(s: Seq<char>)
    requires
        forall|j: int| 0 <= j < s.len() ==> #[trigger] s[j] != '/',
    ensures
        find_scheme(s, 0) == s.len(),
{
    lemma_no_slash(s, 0);
}

proof fn lemma_no_slash(s: Seq<char>, from: int)
    requires
        0 <= from,
        forall|j: int| 0 <= j < s.len() ==> #[trigger] s[j] != '/',
    ensures
        find_scheme(s, from) == s.len(),
    decreases s.len() - from,
{
    if from + 2 < s.len() {
        assert(s[from + 1] != '/');
        lemma_no_slash(s, from + 1);
    }
}

/// What a directive of a block changes: each of the five that are imported sets its own
/// part of the block and leaves the rest, and every other directive leaves the whole
/// block but for the TLS switch, and is noted.
pub proof fn directives_set_their_part(f: Filed, l: Line, name: Seq<char>, args: Seq<Seq<char>>)
    requires
        args.len() > 0,
    ensures
        text::eq_ignore_case(name, "ServerName"@) ==> directive_step(f, l, name, args) == Result::<
            Filed,
            Seq<char>,
        >::Ok(
            Filed { host: Host { server_name: Some(server_name_of(args[0])), ..f.host }, ..f },
        ),
        text::eq_ignore_case(name, "ServerAlias"@) ==> (directive_step(f, l, name, args) matches Ok(g)
            && g.host.aliases == f.host.aliases + Seq::new(
            args.len(),
            |i: int| server_name_of(args[i]),
        ) && g.host == (Host { aliases: g.host.aliases, ..f.host })),
        text::eq_ignore_case(name, "SSLCertificateFile"@) ==> directive_step(f, l, name, args)
            == Result::<Filed, Seq<char>>::Ok(
            Filed { host: Host { cert: Some(args[0]), ..f.host }, ..f },
        ),
        text::eq_ignore_case(name, "SSLCertificateKeyFile"@) ==> directive_step(f, l, name, args)
            == Result::<Filed, Seq<char>>::Ok(
            Filed { host: Host { key: Some(args[0]), ..f.host }, ..f },
        ),
        !text::eq_ignore_case(name, "ServerName"@) && !text::eq_ignore_case(name, "ServerAlias"@)
            && !text::eq_ignore_case(name, "SSLCertificateFile"@) && !text::eq_ignore_case(
            name,
            "SSLCertificateKeyFile"@,
        ) && !text::eq_ignore_case(name, "ProxyPass"@) ==> (directive_step(f, l, name, args) matches Ok(g)
            && g.host == (Host { ssl_engine: g.host.ssl_engine, ..f.host }) && g.notes.len()
            == f.notes.len() + 1 && g.notes.drop_last() == f.notes && g.notes.last().line == l.number
            && (text::eq_ignore_case(name, "SSLEngine"@) ==> (g.host.ssl_engine
            <==> text::eq_ignore_case(args[0], "on"@))) && (!text::eq_ignore_case(
            name,
            "SSLEngine"@,
        ) ==> g.host.ssl_engine == f.host.ssl_engine)),
{
    reveal_strlit("ServerName");
    reveal_strlit("servername");
    reveal_strlit("ServerAlias");
    reveal_strlit("serveralias");
    reveal_strlit("SSLCertificateFile");
    reveal_strlit("sslcertificatefile");
    reveal_strlit("SSLCertificateKeyFile");
    reveal_strlit("sslcertificatekeyfile");
    reveal_strlit("ProxyPass");
    reveal_strlit("proxypass");
    reveal_strlit("SSLEngine");
    reveal_strlit("sslengine");
    assert(text::ascii_lowercase("ServerName"@) =~= text::ascii_lowercase("servername"@));
    assert(text::ascii_lowercase("ServerAlias"@) =~= text::ascii_lowercase("serveralias"@));
    assert(text::ascii_lowercase("SSLCertificateFile"@) =~= text::ascii_lowercase(
        "sslcertificatefile"@,
    ));
    assert(text::ascii_lowercase("SSLCertificateKeyFile"@) =~= text::ascii_lowercase(
        "sslcertificatekeyfile"@,
    ));
    assert(text::ascii_lowercase("ProxyPass"@) =~= text::ascii_lowercase("proxypass"@));
    assert(text::ascii_lowercase("SSLEngine"@) =~= text::ascii_lowercase("sslengine"@));
    let low = text::ascii_lowercase(name);
    assert(low.len() == name.len());
    assert(text::ascii_lowercase("sslengine"@).len() == 9);
    assert(text::ascii_lowercase("servername"@).len() == 10);
    assert(text::ascii_lowercase("serveralias"@).len() == 11);
    assert(text::ascii_lowercase("sslcertificatefile"@).len() == 18);
    assert(text::ascii_lowercase("sslcertificatekeyfile"@).len() == 21);
    assert(text::ascii_lowercase("proxypass"@).len() == 9);
    assert(text::ascii_lowercase("proxypass"@)[0] != text::ascii_lowercase("sslengine"@)[0]);
    lemma_aliases_added(f, args, l.text, l.number);
    if !text::eq_ignore_case(name, "serveralias"@) && !text::eq_ignore_case(name, "proxypass"@) {
        if let Ok(g) = directive_step(f, l, name, args) {
            if g.notes.len() == f.notes.len() + 1 {
                assert(g.notes.drop_last() =~= f.notes);
            }
        }
    }
}

proof fn lemma_aliases_added(f: Filed, aliases: Seq<Seq<char>>, line_text: Seq<char>, line: nat)
    ensures
        ({
            let g = with_aliases(f, aliases, line_text, line);
            g.host.aliases == f.host.aliases + Seq::new(
                aliases.len(),
                |i: int| server_name_of(aliases[i]),
            ) && g.host == Host { aliases: g.host.aliases, ..f.host }
        }),
    decreases aliases.len(),
{
    let g = with_aliases(f, aliases, line_text, line);
    let added = f.host.aliases + Seq::new(aliases.len(), |i: int| server_name_of(aliases[i]));
    if aliases.len() > 0 {
        let init = aliases.drop_last();
        lemma_aliases_added(f, init, line_text, line);
        let before = f.host.aliases + Seq::new(init.len(), |i: int| server_name_of(init[i]));
        assert(before.push(server_name_of(aliases.last())) =~= added);
    } else {
        assert(added =~= f.host.aliases);
    }
}

/// A directive without an argument that needs one is an error, and so is a `ProxyPass`
/// without a target.
pub proof fn directives_need_their_arguments(f: Filed, l: Line, name: Seq<char>, one: Seq<char>)
    ensures
        text::eq_ignore_case(name, "servername"@) || text::eq_ignore_case(name, "serveralias"@)
            || text::eq_ignore_case(name, "sslcertificatefile"@) || text::eq_ignore_case(
            name,
            "sslcertificatekeyfile"@,
        ) || text::eq_ignore_case(name, "proxypass"@) ==> directive_step(
            f,
            l,
            name,
            Seq::<Seq<char>>::empty(),
        ) is Err,
        proxy_pass(seq![one], l.text, l.number, f) is Err,
{
}

/// Sections: a virtual host opens with its line and its first address and ends up in
/// the list when it closes. Any other section is skipped up to the tag that closes it,
/// with every section inside it, and changes nothing.
pub proof fn sections_open_and_close(s: Reading, l: Line, k: Skipped)
    ensures
        s.skip is None && s.current is None && is_tag(l.text) && !is_closing(l.text) && opening_parts(
            l.text,
        ).len() >= 2 && text::eq_ignore_case(opening_parts(l.text)[0], "VirtualHost"@) ==> (read_step(
            s,
            l,
        ) matches Ok(t) && t.current == Some(
            Host {
                line: l.number,
                address: opening_parts(l.text)[1],
                server_name: None,
                aliases: Seq::empty(),
                passes: Seq::empty(),
                cert: None,
                key: None,
                ssl_engine: false,
            },
        ) && t.hosts == s.hosts && t.skip is None && s.notes.is_prefix_of(t.notes)),
        s.skip is None && is_closing(l.text) && text::eq_ignore_case(
            closing_tag(l.text),
            "VirtualHost"@,
        ) ==> (match s.current {
            Some(h) => read_step(s, l) matches Ok(t) && t.hosts == s.hosts.push(h) && t.current is None
                && t.notes == s.notes && t.skip is None,
            None => read_step(s, l) is Err,
        }),
        s.skip == Some(k) ==> (read_step(s, l) matches Ok(t) && t.hosts == s.hosts && t.current
            == s.current && t.notes == s.notes && (match t.skip {
            None => is_closing(l.text) && k.depth <= 1,
            Some(m) => !(is_closing(l.text) && k.depth <= 1) && m.tag == k.tag && m.line == k.line
                && m.depth == (if is_closing(l.text) {
                k.depth as int - 1
            } else if is_tag(l.text) {
                k.depth as int + 1
            } else {
                k.depth as int
            }),
        })),
        s.skip is None && is_tag(l.text) && !is_closing(l.text) && opening_parts(l.text).len() > 0
            && !text::eq_ignore_case(opening_parts(l.text)[0], "VirtualHost"@) ==> (read_step(s, l) matches Ok(
            t,
        ) && t.skip == Some(Skipped { line: l.number, tag: opening_parts(l.text)[0], depth: 1 })
            && t.hosts == s.hosts && t.current == s.current),
        s.skip is None && s.current is Some && is_tag(l.text) && !is_closing(l.text) && opening_parts(
            l.text,
        ).len() >= 1 && text::eq_ignore_case(opening_parts(l.text)[0], "VirtualHost"@) ==> read_step(
            s,
            l,
        ) is Err,
        is_closing(l.text) <==> l.text.len() >= 2 && l.text[0] == '<' && l.text[1] == '/',
        is_tag(l.text) <==> l.text.len() >= 1 && l.text[0] == '<',
{
    reveal_strlit("VirtualHost");
    reveal_strlit("virtualhost");
    assert(text::ascii_lowercase("VirtualHost"@) =~= text::ascii_lowercase("virtualhost"@));
}

/// Outside of blocks a directive changes nothing and is noted; inside, it works on the
/// open block only.
pub proof fn directives_work_on_the_open_block(s: Reading, l: Line)
    requires
        s.skip is None,
        !is_tag(l.text),
        args_of(l.text).len() > 0,
    ensures
        s.current is None ==> (read_step(s, l) matches Ok(t) && t.hosts == s.hosts && t.current is None
            && t.notes.len() == s.notes.len() + 1 && t.notes.last().line == l.number),
        s.current matches Some(h) ==> (match directive_step(
            Filed { host: h, notes: s.notes },
            l,
            args_of(l.text)[0],
            args_of(l.text).skip(1),
        ) {
            Ok(f) => read_step(s, l) matches Ok(t) && t.hosts == s.hosts && t.current == Some(f.host)
                && t.notes == f.notes,
            Err(m) => read_step(s, l) == Result::<Reading, Seq<char>>::Err(m),
        }),
{
}

/// Physical lines: blank lines and comments are nothing, a line without a backslash at
/// its end is one logical line with its own number, and a line with one goes on in the
/// next, with a blank between the two.
pub proof fn lines_are_joined(raws: Seq<Seq<char>>, raw: Seq<char>, t: Seq<char>)
    requires
        text::trim(raw) == t,
        text::trim_end(raw).len() > 0 ==> text::trim_end(raw).last() != '\\',
    ensures
        ({
            let before = joined(raws);
            let after = joined(raws.push(raw));
            &&& before.open is None && (t.len() == 0 || t[0] == '#') ==> after == before
            &&& before.open is None && t.len() > 0 && t[0] != '#' ==> after == (LineState {
                done: before.done.push(Line { number: raws.len() + 1, text: t }),
                open: None,
            })
            &&& before.open matches Some(l) ==> after == (LineState {
                done: before.done.push(
                    Line {
                        number: l.number,
                        text: if t.len() > 0 {
                            l.text + seq![' '] + t
                        } else {
                            l.text
                        },
                    },
                ),
                open: None,
            })
        }),
{
    assert(raws.push(raw).drop_last() =~= raws);
    let e = text::trim_end(raw);
    assert(text::trim_end_char(e, '\\') == e);
    lemma_trim_of_trimmed(raw);
}

proof fn lemma_trim_of_trimmed(raw: Seq<char>)
    ensures
        text::trim(text::trim_end(raw)) == text::trim(raw),
    decreases raw.len(),
{
    if raw.len() > 0 && text::is_space(raw.last()) {
        lemma_trim_of_trimmed(raw.drop_last());
        lemma_trim_without_last(raw);
    }
}

proof fn lemma_trim_without_last(s: Seq<char>)
    requires
        s.len() > 0,
        text::is_space(s.last()),
    ensures
        text::trim(s.drop_last()) == text::trim(s),
    decreases s.len(),
{
    let t = s.drop_last();
    if text::is_space(s[0]) {
        if s.len() > 1 {
            assert(t[0] == s[0]);
            assert(s.skip(1).drop_last() =~= t.skip(1));
            assert(s.skip(1).last() == s.last());
            lemma_trim_without_last(s.skip(1));
        } else {
            assert(s.skip(1) =~= t);
        }
    } else if s.len() > 1 {
        assert(t[0] == s[0]);
    }
}

/// What is open at the end of a file is an error: a virtual host as well as a section
/// that is skipped.
pub proof fn open_sections_are_errors(content: Seq<char>, notes: Seq<Remark>)
    ensures
        read(content, notes).1 is Ok ==> read_lines(lines_of(content), notes).0.current is None
            && read_lines(lines_of(content), notes).0.skip is None && read_lines(
            lines_of(content),
            notes,
        ).1 is None && read(content, notes).1 == Result::<Seq<Host>, Seq<char>>::Ok(
            read_lines(lines_of(content), notes).0.hosts,
        ),
        read(content, notes).1 is Err ==> read_lines(lines_of(content), notes).0.current is Some
            || read_lines(lines_of(content), notes).0.skip is Some || read_lines(
            lines_of(content),
            notes,
        ).1 is Some,
{
}

} // verus!
