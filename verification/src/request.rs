//! Query strings, header maps and cache keys of requests.

use crate::matching::Request;
use crate::naming;
use crate::strmap;
use crate::strmap::StringMap;
use crate::text;
use vstd::prelude::*;
use vstd::string::*;

verus! {

// ---------------------------------------------------------------------------
// Query strings
// ---------------------------------------------------------------------------

/// What `urlencoding::decode` gives for a text; `None` where the decoded bytes
/// are not UTF-8.
pub uninterp spec fn url_decoded(s: Seq<char>) -> Option<Seq<char>>;

/// `urlencoding::decode`: replaces percent escapes. A text without `%` stays as
/// it is.
#[verifier::external_body]
fn url_decode(s: &str) -> (r: Option<String>)
    ensures
        r.deep_view() == url_decoded(s@),
        !s@.contains('%') ==> r.deep_view() == Some(s@),
{
    urlencoding::decode(s).ok().map(|t| t.into_owned())
}

/// A text with its percent escapes replaced; as it is where that fails.
pub open spec fn decoded(s: Seq<char>) -> Seq<char> {
    if !s.contains('%') {
        s
    } else {
        decoded_or_raw(s, url_decoded(s))
    }
}

/// The decoded text, or the raw one where there is none.
pub open spec fn decoded_or_raw(raw: Seq<char>, decoded: Option<Seq<char>>) -> Seq<char> {
    match decoded {
        Some(t) => t,
        None => raw,
    }
}

/// [`decoded_or_raw`] on strings.
pub fn or_raw(raw: &str, decoded: Option<String>) -> (r: String)
    ensures
        r@ == decoded_or_raw(raw@, decoded.deep_view()),
{
    match decoded {
        Some(t) => t,
        None => raw.to_owned(),
    }
}

/// [`decoded`] on strings.
pub fn decode(s: &str) -> (r: String)
    ensures
        r@ == decoded(s@),
{
    or_raw(s, url_decode(s))
}

/// The part of a path after the first `?`.
pub open spec fn query_of(path: Seq<char>) -> Option<Seq<char>> {
    let k = text::find_char(path, '?');
    if k < path.len() {
        Some(path.skip(k + 1))
    } else {
        None
    }
}

/// A `name=value` pair cut at the first `=`; without one the value is empty.
pub open spec fn cut_pair(pair: Seq<char>) -> (Seq<char>, Seq<char>) {
    let k = text::find_char(pair, '=');
    if k < pair.len() {
        (pair.take(k), pair.skip(k + 1))
    } else {
        (pair, Seq::empty())
    }
}

/// The parameters of `&`-separated pairs, decoded; a later pair overrides an
/// earlier one of the same name.
pub open spec fn params_of(pairs: Seq<Seq<char>>) -> Seq<(Seq<char>, Seq<char>)>
    decreases pairs.len(),
{
    if pairs.len() == 0 {
        Seq::empty()
    } else {
        let p = cut_pair(pairs.last());
        strmap::insert(params_of(pairs.drop_last()), decoded(p.0), decoded(p.1))
    }
}

/// The query parameters of a path.
pub open spec fn query_params(path: Seq<char>) -> Seq<(Seq<char>, Seq<char>)> {
    match query_of(path) {
        Some(q) => params_of(text::split(q, '&')),
        None => Seq::empty(),
    }
}

/// [`cut_pair`] on strings.
pub fn split_pair(pair: &str) -> (r: (String, String))
    ensures
        (r.0@, r.1@) == cut_pair(pair@),
{
    let v = text::chars_of(pair);
    let k = text::find_in(v.as_slice(), '=', 0);
    if k < v.len() {
        let name = text::string_of_range(v.as_slice(), 0, k);
        let value = text::string_of_range(v.as_slice(), k + 1, v.len());
        assert(name@ =~= pair@.take(k as int));
        assert(value@ =~= pair@.skip(k + 1));
        (name, value)
    } else {
        let value = String::new();
        assert(value@ =~= Seq::<char>::empty());
        (pair.to_owned(), value)
    }
}

/// The parameters of a query string, without its `?`.
pub fn parse_query_string(query: &str) -> (r: StringMap<String>)
    ensures
        r.deep_view() == params_of(text::split(query@, '&')),
{
    let pairs = text::split_on(query, '&');
    let mut params: StringMap<String> = StringMap::new();
    let mut i: usize = 0;
    let ghost all = pairs.deep_view();
    while i < pairs.len()
        invariant
            i <= pairs@.len(),
            all == pairs.deep_view(),
            all == text::split(query@, '&'),
            params.deep_view() == params_of(all.take(i as int)),
        decreases pairs.len() - i,
    {
        let (name, value) = split_pair(pairs[i].as_str());
        let name = decode(name.as_str());
        let value = decode(value.as_str());
        assert(all.take(i + 1).drop_last() =~= all.take(i as int));
        assert(all.take(i + 1).last() == pairs@[i as int]@);
        params.insert(name, value);
        i = i + 1;
    }
    assert(all.take(i as int) =~= all);
    params
}

/// The query parameters of a path.
pub fn parse_query_params(path: &str) -> (r: StringMap<String>)
    ensures
        r.deep_view() == query_params(path@),
{
    let v = text::chars_of(path);
    let k = text::find_in(v.as_slice(), '?', 0);
    if k < v.len() {
        let query = text::string_of_range(v.as_slice(), k + 1, v.len());
        assert(query@ =~= path@.skip(k + 1));
        parse_query_string(query.as_str())
    } else {
        StringMap::new()
    }
}

// ---------------------------------------------------------------------------
// Headers
// ---------------------------------------------------------------------------

/// The bytes are visible ASCII, spaces or tabs.
pub open spec fn printable(value: Seq<u8>) -> bool {
    forall|i: int| 0 <= i < value.len() ==> (32 <= #[trigger] value[i] < 127 || value[i] == 9)
}

/// ASCII bytes as characters.
pub open spec fn ascii_text(value: Seq<u8>) -> Seq<char> {
    value.map_values(|b: u8| b as char)
}

/// Header fields as a map by lower-case name. Fields whose value is not
/// printable are left out; a later field overrides an earlier one.
pub open spec fn header_map(fields: Seq<(Seq<char>, Seq<u8>)>) -> Seq<(Seq<char>, Seq<char>)>
    decreases fields.len(),
{
    if fields.len() == 0 {
        Seq::empty()
    } else {
        let m = header_map(fields.drop_last());
        let f = fields.last();
        if printable(f.1) {
            strmap::insert(m, text::lowercase(f.0), ascii_text(f.1))
        } else {
            m
        }
    }
}

/// The text of a printable value.
pub fn printable_text(value: &Vec<u8>) -> (r: Option<String>)
    ensures
        (match r {
            Some(t) => printable(value@) && t@ == ascii_text(value@),
            None => !printable(value@),
        }),
{
    let mut out = String::new();
    let mut i: usize = 0;
    assert(out@ =~= ascii_text(value@.take(0)));
    while i < value.len()
        invariant
            i <= value@.len(),
            forall|j: int| 0 <= j < i ==> (32 <= #[trigger] value@[j] < 127 || value@[j] == 9),
            out@ == ascii_text(value@.take(i as int)),
        decreases value.len() - i,
    {
        let b: u8 = value[i];
        if !((32 <= b && b < 127) || b == 9) {
            return None;
        }
        assert(ascii_text(value@.take(i + 1)) =~= ascii_text(value@.take(i as int)).push(b as char));
        out.push(b as char);
        i = i + 1;
    }
    assert(value@.take(i as int) =~= value@);
    Some(out)
}

/// Names and values of header fields, as plain values.
pub open spec fn fields_view(fields: Seq<(String, Vec<u8>)>) -> Seq<(Seq<char>, Seq<u8>)> {
    fields.map_values(|f: (String, Vec<u8>)| (f.0@, f.1@))
}

/// The map of header fields.
pub fn build_headers(fields: &Vec<(String, Vec<u8>)>) -> (r: StringMap<String>)
    ensures
        r.deep_view() == header_map(fields_view(fields@)),
{
    let mut headers: StringMap<String> = StringMap::new();
    let mut i: usize = 0;
    let ghost all = fields_view(fields@);
    while i < fields.len()
        invariant
            i <= fields@.len(),
            all == fields_view(fields@),
            headers.deep_view() == header_map(all.take(i as int)),
        decreases fields.len() - i,
    {
        assert(all.take(i + 1).drop_last() =~= all.take(i as int));
        assert(all.take(i + 1).last() == all[i as int]);
        match printable_text(&fields[i].1) {
            Some(value) => {
                let name = text::lower(fields[i].0.as_str());
                headers.insert(name, value);
            },
            None => {},
        }
        i = i + 1;
    }
    assert(all.take(i as int) =~= all);
    headers
}

// ---------------------------------------------------------------------------
// Cache keys
// ---------------------------------------------------------------------------

/// A text as a field of a key: escaped, with a quote at its end.
pub open spec fn key_field(s: Seq<char>) -> Seq<char> {
    naming::escaped(s) + seq!['"']
}

/// Names and values of a map as fields.
pub open spec fn entry_fields(m: Seq<(Seq<char>, Seq<char>)>) -> Seq<char>
    decreases m.len(),
{
    if m.len() == 0 {
        Seq::empty()
    } else {
        key_field(m[0].0) + (key_field(m[0].1) + entry_fields(m.skip(1)))
    }
}

/// The key under which the decision for a request is cached: everything that a
/// route may read, field by field.
pub open spec fn cache_key(q: Request) -> Seq<char> {
    key_field(q.method) + (key_field(q.host) + (key_field(q.path) + (key_field(
        entry_fields(q.headers),
    ) + key_field(entry_fields(q.query)))))
}

/// A field is read back in one way.
proof fn lemma_field_injective(a: Seq<char>, x: Seq<char>, b: Seq<char>, y: Seq<char>)
    requires
        key_field(a) + x == key_field(b) + y,
    ensures
        a == b,
        x == y,
{
    naming::quoted_text_reads_back(a, x);
    naming::quoted_text_reads_back(b, y);
}

proof fn lemma_entries_injective(m: Seq<(Seq<char>, Seq<char>)>, n: Seq<(Seq<char>, Seq<char>)>)
    requires
        entry_fields(m) == entry_fields(n),
    ensures
        m == n,
    decreases m.len(),
{
    if m.len() == 0 || n.len() == 0 {
        if m.len() > 0 {
            assert(entry_fields(m).len() > 0);
        }
        if n.len() > 0 {
            assert(entry_fields(n).len() > 0);
        }
        assert(m =~= n);
    } else {
        let x = key_field(m[0].1) + entry_fields(m.skip(1));
        let y = key_field(n[0].1) + entry_fields(n.skip(1));
        lemma_field_injective(m[0].0, x, n[0].0, y);
        lemma_field_injective(m[0].1, entry_fields(m.skip(1)), n[0].1, entry_fields(n.skip(1)));
        lemma_entries_injective(m.skip(1), n.skip(1));
        assert(m =~= seq![m[0]] + m.skip(1));
        assert(n =~= seq![n[0]] + n.skip(1));
    }
}

/// Two requests share a key only if they are the same.
pub proof fn cache_key_is_injective(p: Request, q: Request)
    requires
        cache_key(p) == cache_key(q),
    ensures
        p == q,
{
    let (p1, q1) = (key_field(entry_fields(p.query)), key_field(entry_fields(q.query)));
    let (p2, q2) = (
        key_field(entry_fields(p.headers)) + p1,
        key_field(entry_fields(q.headers)) + q1,
    );
    let (p3, q3) = (key_field(p.path) + p2, key_field(q.path) + q2);
    let (p4, q4) = (key_field(p.host) + p3, key_field(q.host) + q3);
    lemma_field_injective(p.method, p4, q.method, q4);
    lemma_field_injective(p.host, p3, q.host, q3);
    lemma_field_injective(p.path, p2, q.path, q2);
    lemma_field_injective(entry_fields(p.headers), p1, entry_fields(q.headers), q1);
    assert(p1 =~= p1 + Seq::<char>::empty());
    assert(q1 =~= q1 + Seq::<char>::empty());
    lemma_field_injective(
        entry_fields(p.query),
        Seq::empty(),
        entry_fields(q.query),
        Seq::empty(),
    );
    lemma_entries_injective(p.headers, q.headers);
    lemma_entries_injective(p.query, q.query);
}

/// [`key_field`], appended to a string.
pub fn push_field(out: &mut String, s: &str)
    ensures
        final(out)@ == old(out)@ + key_field(s@),
{
    let ghost before = out@;
    let e = naming::kdl_escape(s);
    out.append(e.as_str());
    out.push('"');
    assert(out@ =~= before + key_field(s@));
}

/// [`entry_fields`] on maps.
pub fn entries_text(m: &StringMap<String>) -> (r: String)
    ensures
        r@ == entry_fields(m.deep_view()),
{
    let ghost all = m.deep_view();
    let n = m.len();
    let mut out = String::new();
    let mut i: usize = 0;
    assert(all.skip(0) =~= all);
    assert(out@ + entry_fields(all) =~= entry_fields(all));
    while i < n
        invariant
            i <= n,
            n == all.len(),
            all == m.deep_view(),
            out@ + entry_fields(all.skip(i as int)) == entry_fields(all),
        decreases n - i,
    {
        let ghost before = out@;
        let k = m.key_at(i);
        let v = m.value_at(i);
        push_field(&mut out, k.as_str());
        push_field(&mut out, v.as_str());
        proof {
            let rest = all.skip(i as int);
            assert(rest.skip(1) =~= all.skip(i + 1));
            assert(rest[0] == all[i as int]);
            assert(out@ + entry_fields(all.skip(i + 1)) =~= before + entry_fields(rest));
        }
        i = i + 1;
    }
    assert(entry_fields(all.skip(n as int)) =~= Seq::<char>::empty());
    assert(out@ =~= out@ + entry_fields(all.skip(n as int)));
    out
}

// ---------------------------------------------------------------------------
// Laws
// ---------------------------------------------------------------------------

/// The query string is what follows the first `?`; a pair is cut at its first `=`, and
/// without one it has no value.
pub proof fn texts_are_cut_at_the_first(a: Seq<char>, b: Seq<char>)
    ensures
        !a.contains('?') ==> query_of(a) is None && query_of(a + seq!['?'] + b) == Some(b),
        !a.contains('=') ==> cut_pair(a) == (a, Seq::<char>::empty()) && cut_pair(
            a + seq!['='] + b,
        ) == (a, b),
{
    lemma_cut(a, '?', b);
    lemma_cut(a, '=', b);
}

proof fn lemma_cut(a: Seq<char>, c: char, b: Seq<char>)
    ensures
        !a.contains(c) ==> {
            let s = a + seq![c] + b;
            &&& text::find_char(a, c) == a.len()
            &&& text::find_char(s, c) == a.len()
            &&& s.take(a.len() as int) == a
            &&& s.skip((a.len() + 1) as int) == b
        },
{
    if !a.contains(c) {
        let s = a + seq![c] + b;
        text::lemma_find_from(a, c, 0);
        text::lemma_find_from(s, c, 0);
        let k = text::find_char(a, c);
        if k < a.len() {
            assert(a[k] == c);
        }
        assert(s[a.len() as int] == c);
        let m = text::find_char(s, c);
        if m < a.len() {
            assert(s[m] == c);
            assert(a[m] == c);
        }
        assert(s.take(a.len() as int) =~= a);
        assert(s.skip((a.len() + 1) as int) =~= b);
    }
}

/// What is not escaped stays, what can be decoded is decoded, and the rest is kept raw.
pub proof fn escapes_are_decoded(s: Seq<char>, t: Seq<char>)
    ensures
        !s.contains('%') ==> decoded(s) == s,
        s.contains('%') && url_decoded(s) == Some(t) ==> decoded(s) == t,
        s.contains('%') && url_decoded(s) is None ==> decoded(s) == s,
{
}

proof fn lemma_params_sorted(pairs: Seq<Seq<char>>)
    ensures
        strmap::sorted(params_of(pairs)),
    decreases pairs.len(),
{
    if pairs.len() > 0 {
        lemma_params_sorted(pairs.drop_last());
        let p = cut_pair(pairs.last());
        strmap::lemma_insert_sorted(params_of(pairs.drop_last()), decoded(p.0), decoded(p.1));
    }
}

/// A parameter has the decoded value of the last pair whose decoded name it is.
pub proof fn last_pair_sets_the_parameter(
    pairs: Seq<Seq<char>>,
    name: Seq<char>,
    value: Seq<char>,
    q: Seq<char>,
)
    requires
        !name.contains('='),
    ensures
        strmap::get(params_of(Seq::empty()), q) is None,
        strmap::get(params_of(pairs.push(name + seq!['='] + value)), q) == (if q == decoded(
            name,
        ) {
            Some(decoded(value))
        } else {
            strmap::get(params_of(pairs), q)
        }),
        strmap::get(params_of(pairs.push(name)), q) == (if q == decoded(name) {
            Some(Seq::empty())
        } else {
            strmap::get(params_of(pairs), q)
        }),
{
    lemma_params_sorted(pairs);
    texts_are_cut_at_the_first(name, value);
    let none = Seq::<char>::empty();
    assert(!none.contains('%'));
    assert(pairs.push(name + seq!['='] + value).drop_last() =~= pairs);
    assert(pairs.push(name).drop_last() =~= pairs);
    strmap::get_after_insert(params_of(pairs), decoded(name), decoded(value), q);
    strmap::get_after_insert(params_of(pairs), decoded(name), none, q);
    assert(decoded(none) == none);
}

/// The parameters of a path are those of the pairs that `&` separates behind the first
/// `?`.
pub proof fn parameters_stand_behind_the_path(a: Seq<char>, pairs: Seq<Seq<char>>)
    requires
        !a.contains('?'),
        pairs.len() > 0,
        forall|i: int| 0 <= i < pairs.len() ==> !(#[trigger] pairs[i]).contains('&'),
    ensures
        query_params(a) == Seq::<(Seq<char>, Seq<char>)>::empty(),
        query_params(a + seq!['?'] + text::join(pairs, seq!['&'])) == params_of(pairs),
{
    texts_are_cut_at_the_first(a, text::join(pairs, seq!['&']));
    text::lemma_split_join(pairs, '&');
}

proof fn lemma_headers_sorted(fields: Seq<(Seq<char>, Seq<u8>)>)
    ensures
        strmap::sorted(header_map(fields)),
    decreases fields.len(),
{
    if fields.len() > 0 {
        lemma_headers_sorted(fields.drop_last());
        let f = fields.last();
        strmap::lemma_insert_sorted(
            header_map(fields.drop_last()),
            text::lowercase(f.0),
            ascii_text(f.1),
        );
    }
}

/// A header has the value of the last field of its name, in whatever case the name is
/// written, whose bytes are all printable ASCII or tabs. Other fields change nothing.
pub proof fn last_printable_field_sets_the_header(
    fields: Seq<(Seq<char>, Seq<u8>)>,
    name: Seq<char>,
    value: Seq<u8>,
    q: Seq<char>,
)
    ensures
        strmap::get(header_map(Seq::empty()), q) is None,
        (forall|i: int|
            0 <= i < value.len() ==> (0x20 <= #[trigger] value[i] <= 0x7e || value[i] == 0x09))
            ==> strmap::get(header_map(fields.push((name, value))), q) == (if q
            == text::lowercase(name) {
            Some(Seq::new(value.len(), |i: int| value[i] as char))
        } else {
            strmap::get(header_map(fields), q)
        }),
        (exists|i: int|
            0 <= i < value.len() && !(0x20 <= #[trigger] value[i] <= 0x7e || value[i] == 0x09))
            ==> header_map(fields.push((name, value))) == header_map(fields),
{
    lemma_headers_sorted(fields);
    assert(fields.push((name, value)).drop_last() =~= fields);
    assert(ascii_text(value) =~= Seq::new(value.len(), |i: int| value[i] as char));
    strmap::get_after_insert(header_map(fields), text::lowercase(name), ascii_text(value), q);
}

} // verus!
