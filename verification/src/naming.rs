//! Identifiers and quoted strings for generated configurations.

use crate::text;
use vstd::prelude::*;
use vstd::string::*;

verus! {

// ---------------------------------------------------------------------------
// Quoted strings
// ---------------------------------------------------------------------------

/// A character inside a quoted string.
pub open spec fn escaped_char(c: char) -> Seq<char> {
    if c == '"' {
        seq!['\\', '"']
    } else if c == '\\' {
        seq!['\\', '\\']
    } else if c == '\n' {
        seq!['\\', 'n']
    } else {
        seq![c]
    }
}

/// A text inside a quoted string.
pub open spec fn escaped(s: Seq<char>) -> Seq<char>
    decreases s.len(),
{
    if s.len() == 0 {
        Seq::empty()
    } else {
        escaped(s.drop_last()) + escaped_char(s.last())
    }
}

/// [`escaped`] on strings.
pub fn kdl_escape(s: &str) -> (r: String)
    ensures
        r@ == escaped(s@),
{
    let v = text::chars_of(s);
    let mut out = String::new();
    let mut i: usize = 0;
    assert(out@ =~= escaped(v@.take(0)));
    while i < v.len()
        invariant
            i <= v@.len(),
            v@ == s@,
            out@ == escaped(v@.take(i as int)),
        decreases v.len() - i,
    {
        let ghost before = out@;
        let c = v[i];
        if c == '"' {
            out.push('\\');
            out.push('"');
        } else if c == '\\' {
            out.push('\\');
            out.push('\\');
        } else if c == '\n' {
            out.push('\\');
            out.push('n');
        } else {
            out.push(c);
        }
        assert(v@.take(i + 1).drop_last() =~= v@.take(i as int));
        assert(v@.take(i + 1).last() == c);
        assert(out@ =~= before + escaped_char(c));
        i = i + 1;
    }
    assert(v@.take(i as int) =~= s@);
    out
}

/// Reading a quoted string up to its closing quote: what it stands for and what
/// follows; `None` if it does not close on its line.
pub open spec fn unquoted(s: Seq<char>) -> Option<(Seq<char>, Seq<char>)>
    decreases s.len(),
{
    if s.len() == 0 || s[0] == '\n' {
        None
    } else if s[0] == '"' {
        Some((Seq::empty(), s.skip(1)))
    } else if s[0] == '\\' {
        if s.len() < 2 {
            None
        } else {
            let c = if s[1] == 'n' {
                '\n'
            } else {
                s[1]
            };
            match unquoted(s.skip(2)) {
                Some((t, rest)) => Some((seq![c] + t, rest)),
                None => None,
            }
        }
    } else {
        match unquoted(s.skip(1)) {
            Some((t, rest)) => Some((seq![s[0]] + t, rest)),
            None => None,
        }
    }
}

proof fn lemma_escaped_front(s: Seq<char>)
    requires
        s.len() > 0,
    ensures
        escaped(s) == escaped_char(s[0]) + escaped(s.skip(1)),
    decreases s.len(),
{
    if s.len() == 1 {
        assert(s.drop_last() =~= Seq::<char>::empty());
        assert(s.skip(1) =~= Seq::<char>::empty());
        assert(escaped(s) =~= escaped_char(s[0]) + escaped(s.skip(1)));
    } else {
        lemma_escaped_front(s.drop_last());
        assert(s.drop_last().skip(1) =~= s.skip(1).drop_last());
        assert(s.skip(1).last() == s.last());
        assert(escaped(s) =~= escaped_char(s[0]) + escaped(s.skip(1)));
    }
}

/// A quoted text reads back as itself, whatever follows it.
pub proof fn quoted_text_reads_back(s: Seq<char>, rest: Seq<char>)
    ensures
        unquoted(escaped(s) + seq!['"'] + rest) == Some((s, rest)),
    decreases s.len(),
{
    let t = escaped(s) + seq!['"'] + rest;
    if s.len() == 0 {
        assert(t =~= seq!['"'] + rest);
        assert(t.skip(1) =~= rest);
        assert(s =~= Seq::<char>::empty());
    } else {
        lemma_escaped_front(s);
        let u = escaped(s.skip(1)) + seq!['"'] + rest;
        quoted_text_reads_back(s.skip(1), rest);
        assert(s =~= seq![s[0]] + s.skip(1));
        if s[0] == '"' || s[0] == '\\' || s[0] == '\n' {
            assert(t.skip(2) =~= u);
        } else {
            assert(t.skip(1) =~= u);
        }
    }
}

// ---------------------------------------------------------------------------
// Identifiers
// ---------------------------------------------------------------------------

/// An ASCII letter or digit.
pub open spec fn is_alnum(c: char) -> bool {
    'a' <= c <= 'z' || 'A' <= c <= 'Z' || '0' <= c <= '9'
}

/// What was kept, and whether a dash came last.
pub ghost struct Slug {
    pub out: Seq<char>,
    pub dash: bool,
}

/// Reading one more character of a name.
pub open spec fn slug_step(s: Slug, c: char) -> Slug {
    if is_alnum(c) {
        Slug { out: s.out.push(text::ascii_lower(c)), dash: false }
    } else if !s.dash && s.out.len() > 0 {
        Slug { out: s.out.push('-'), dash: true }
    } else {
        s
    }
}

/// The state after some characters.
pub open spec fn slug(s: Seq<char>) -> Slug
    decreases s.len(),
{
    if s.len() == 0 {
        Slug { out: Seq::empty(), dash: false }
    } else {
        slug_step(slug(s.drop_last()), s.last())
    }
}

/// Letters and digits in lower case, with everything between them collapsed to
/// single dashes.
pub open spec fn sanitized(s: Seq<char>) -> Seq<char> {
    let t = text::trim_end_char(slug(s).out, '-');
    if t.len() == 0 {
        "unnamed"@
    } else {
        t
    }
}

/// [`sanitized`] on strings.
pub fn sanitize_id(s: &str) -> (r: String)
    ensures
        r@ == sanitized(s@),
{
    let v = text::chars_of(s);
    let mut out: Vec<char> = Vec::new();
    let mut dash = false;
    let mut i: usize = 0;
    assert(out@ =~= Seq::<char>::empty());
    while i < v.len()
        invariant
            i <= v@.len(),
            v@ == s@,
            (Slug { out: out@, dash }) == slug(v@.take(i as int)),
        decreases v.len() - i,
    {
        assert(v@.take(i + 1).drop_last() =~= v@.take(i as int));
        assert(v@.take(i + 1).last() == v@[i as int]);
        let c = v[i];
        if ('a' <= c && c <= 'z') || ('A' <= c && c <= 'Z') || ('0' <= c && c <= '9') {
            out.push(text::lower_char(c));
            dash = false;
        } else if !dash && out.len() > 0 {
            out.push('-');
            dash = true;
        }
        i = i + 1;
    }
    assert(v@.take(i as int) =~= s@);
    let full = text::string_of(out.as_slice());
    let t = text::trimmed_end_char(full.as_str(), '-');
    let tv = text::chars_of(t.as_str());
    if tv.len() == 0 {
        "unnamed".to_owned()
    } else {
        t
    }
}

/// A lower-case ASCII letter or a digit.
pub open spec fn is_lower_alnum(c: char) -> bool {
    'a' <= c <= 'z' || '0' <= c <= '9'
}

/// Runs of lower-case letters and digits with single dashes between them; a dash may
/// still stand at the end.
pub open spec fn is_slug_start(t: Seq<char>) -> bool {
    &&& forall|i: int| 0 <= i < t.len() ==> is_lower_alnum(#[trigger] t[i]) || t[i] == '-'
    &&& t.len() > 0 ==> t[0] != '-'
    &&& forall|i: int, j: int|
        0 <= i && j == i + 1 && j < t.len() ==> !(#[trigger] t[i] == '-' && #[trigger] t[j] == '-')
}

/// Runs of lower-case letters and digits, at least one, with single dashes between
/// them.
pub open spec fn is_slug(t: Seq<char>) -> bool {
    is_slug_start(t) && t.len() > 0 && t.last() != '-'
}

/// The ASCII letters and digits of a text, in lower case.
pub open spec fn letters(s: Seq<char>) -> Seq<char>
    decreases s.len(),
{
    if s.len() == 0 {
        Seq::empty()
    } else if is_alnum(s.last()) {
        letters(s.drop_last()).push(text::ascii_lower(s.last()))
    } else {
        letters(s.drop_last())
    }
}

/// A text without its dashes.
pub open spec fn dashless(s: Seq<char>) -> Seq<char>
    decreases s.len(),
{
    if s.len() == 0 {
        Seq::empty()
    } else if s.last() != '-' {
        dashless(s.drop_last()).push(s.last())
    } else {
        dashless(s.drop_last())
    }
}

proof fn lemma_slug_start_push(t: Seq<char>, c: char)
    requires
        is_slug_start(t),
        is_lower_alnum(c) || (c == '-' && t.len() > 0 && t.last() != '-'),
    ensures
        is_slug_start(t.push(c)),
{
    let n = t.push(c);
    assert forall|i: int| 0 <= i < n.len() implies is_lower_alnum(#[trigger] n[i]) || n[i] == '-' by {
        if i < t.len() {
            assert(n[i] == t[i]);
        }
    }
    assert forall|i: int, j: int| 0 <= i && j == i + 1 && j < n.len() implies !(#[trigger] n[i]
        == '-' && #[trigger] n[j] == '-') by {
        if j < t.len() {
            assert(n[i] == t[i] && n[j] == t[j]);
        } else {
            assert(n[i] == t.last());
        }
    }
    if t.len() > 0 {
        assert(n[0] == t[0]);
    }
}

proof fn lemma_slug(s: Seq<char>)
    ensures
        is_slug_start(slug(s).out),
        slug(s).dash == (slug(s).out.len() > 0 && slug(s).out.last() == '-'),
        dashless(slug(s).out) == letters(s),
    decreases s.len(),
{
    if s.len() > 0 {
        let before = slug(s.drop_last());
        let c = s.last();
        lemma_slug(s.drop_last());
        if is_alnum(c) {
            let l = text::ascii_lower(c);
            assert(is_lower_alnum(l));
            lemma_slug_start_push(before.out, l);
            assert(before.out.push(l).drop_last() =~= before.out);
        } else if !before.dash && before.out.len() > 0 {
            lemma_slug_start_push(before.out, '-');
            assert(before.out.push('-').drop_last() =~= before.out);
        }
    }
}

proof fn lemma_slug_fixed(t: Seq<char>)
    requires
        is_slug_start(t),
    ensures
        slug(t).out == t,
        slug(t).dash == (t.len() > 0 && t.last() == '-'),
    decreases t.len(),
{
    if t.len() > 0 {
        let p = t.drop_last();
        let c = t.last();
        assert(is_slug_start(p)) by {
            assert forall|i: int| 0 <= i < p.len() implies is_lower_alnum(#[trigger] p[i]) || p[i]
                == '-' by {
                assert(p[i] == t[i]);
            }
            assert forall|i: int, j: int| 0 <= i && j == i + 1 && j < p.len() implies !(
            #[trigger] p[i] == '-' && #[trigger] p[j] == '-') by {
                assert(p[i] == t[i] && p[j] == t[j]);
            }
        }
        lemma_slug_fixed(p);
        assert(t =~= p.push(c));
        assert(is_lower_alnum(t[t.len() - 1]) || t[t.len() - 1] == '-');
        if c == '-' {
            assert(t[0] != '-');
            assert(!(t[t.len() - 2] == '-' && t[t.len() - 1] == '-'));
        }
    } else {
        assert(slug(t).out =~= t);
    }
}

/// An identifier is made of runs of lower-case letters and digits with single dashes
/// between them. Without its dashes it is the letters and digits of the text, or
/// `unnamed` where the text has none. An identifier stays as it is.
pub proof fn sanitized_is_a_slug(s: Seq<char>)
    ensures
        is_slug(sanitized(s)),
        letters(s).len() > 0 ==> dashless(sanitized(s)) == letters(s),
        letters(s).len() == 0 ==> sanitized(s) == "unnamed"@,
        sanitized(sanitized(s)) == sanitized(s),
{
    let out = slug(s).out;
    let t = text::trim_end_char(out, '-');
    lemma_slug(s);
    if out.len() > 0 && out.last() == '-' {
        let p = out.drop_last();
        assert(p.len() > 0 && p.last() != '-') by {
            assert(out[0] != '-');
            assert(!(out[out.len() - 2] == '-' && out[out.len() - 1] == '-'));
        }
        assert(t == p) by {
            reveal_with_fuel(text::trim_end_char, 2);
        }
        assert(is_slug_start(p)) by {
            assert forall|i: int| 0 <= i < p.len() implies is_lower_alnum(#[trigger] p[i]) || p[i]
                == '-' by {
                assert(p[i] == out[i]);
            }
            assert forall|i: int, j: int| 0 <= i && j == i + 1 && j < p.len() implies !(
            #[trigger] p[i] == '-' && #[trigger] p[j] == '-') by {
                assert(p[i] == out[i] && p[j] == out[j]);
            }
        }
    }
    if t.len() == 0 {
        assert(dashless(out) =~= Seq::<char>::empty());
        reveal_strlit("unnamed");
    } else {
        assert(dashless(t) == letters(s));
        assert(dashless(t).len() > 0);
    }
    let r = sanitized(s);
    assert(is_slug(r));
    lemma_slug_fixed(r);
    assert(text::trim_end_char(r, '-') == r);
}

/// The `n`th variant of an identifier.
pub open spec fn variant(base: Seq<char>, n: nat) -> Seq<char> {
    base + "-"@ + text::digits(n)
}

/// The first unused variant from `n` on.
pub open spec fn unused_from(base: Seq<char>, used: Seq<Seq<char>>, n: nat) -> Seq<char>
    decreases used.len() + 2 - n,
{
    if n >= used.len() + 2 || !used.contains(variant(base, n)) {
        variant(base, n)
    } else {
        unused_from(base, used, n + 1)
    }
}

/// The identifier itself, or its first unused variant from `-2` on.
pub open spec fn unique(base: Seq<char>, used: Seq<Seq<char>>) -> Seq<char> {
    if used.contains(base) {
        unused_from(base, used, 2)
    } else {
        base
    }
}

proof fn lemma_variants_differ(base: Seq<char>, a: nat, b: nat)
    requires
        variant(base, a) == variant(base, b),
    ensures
        a == b,
{
    let head = base + "-"@;
    text::lemma_digits(a);
    text::lemma_digits(b);
    assert(text::digits(a) =~= variant(base, a).skip(head.len() as int));
    assert(text::digits(b) =~= variant(base, b).skip(head.len() as int));
}

/// Variants `lo` up to `hi`.
spec fn variants(base: Seq<char>, lo: nat, hi: nat) -> Seq<Seq<char>> {
    Seq::new((hi - lo) as nat, |i: int| variant(base, (lo + i) as nat))
}

proof fn lemma_too_many(base: Seq<char>, used: Seq<Seq<char>>)
    ensures
        exists|n: nat|
            2 <= n && n <= used.len() + 2 && !used.contains(#[trigger] variant(base, n)),
{
    if forall|n: nat| 2 <= n && n <= used.len() + 2 ==> used.contains(#[trigger] variant(base, n)) {
        let vs = variants(base, 2, (used.len() + 3) as nat);
        assert(vs.no_duplicates()) by {
            assert forall|i: int, j: int| 0 <= i < vs.len() && 0 <= j < vs.len() && i != j implies vs[i]
                != vs[j] by {
                if vs[i] == vs[j] {
                    lemma_variants_differ(base, (2 + i) as nat, (2 + j) as nat);
                }
            }
        }
        vs.unique_seq_to_set();
        assert(vs.to_set().subset_of(used.to_set())) by {
            assert forall|x: Seq<char>| vs.to_set().contains(x) implies used.to_set().contains(
                x,
            ) by {
                let i = choose|i: int| 0 <= i < vs.len() && vs[i] == x;
                assert(used.contains(variant(base, (2 + i) as nat)));
            }
        }
        vstd::seq_lib::seq_to_set_is_finite(used);
        vstd::set_lib::lemma_len_subset(vs.to_set(), used.to_set());
        used.lemma_cardinality_of_set();
        assert(false);
    }
}

proof fn lemma_unused_from(base: Seq<char>, used: Seq<Seq<char>>, n: nat)
    requires
        2 <= n <= used.len() + 2,
        forall|k: nat| 2 <= k < n ==> used.contains(#[trigger] variant(base, k)),
    ensures
        !used.contains(unused_from(base, used, n)),
    decreases used.len() + 2 - n,
{
    if n >= used.len() + 2 {
        lemma_too_many(base, used);
    } else if used.contains(variant(base, n)) {
        lemma_unused_from(base, used, n + 1);
    }
}

/// A unique identifier is not in use yet.
pub proof fn unique_is_unused(base: Seq<char>, used: Seq<Seq<char>>)
    ensures
        !used.contains(unique(base, used)),
{
    if used.contains(base) {
        lemma_unused_from(base, used, 2);
    }
}

/// Appends the decimal form of `n`.
pub fn push_wide(out: &mut String, n: u128)
    ensures
        final(out)@ == old(out)@ + text::digits(n as nat),
    decreases n,
{
    if n >= 10 {
        push_wide(out, n / 10);
    }
    let ghost before = out@;
    let d: u8 = (n % 10) as u8;
    out.push((48 + d) as char);
    assert(out@ =~= old(out)@ + text::digits(n as nat));
}

fn numbered(base: &str, n: u128) -> (r: String)
    ensures
        r@ == variant(base@, n as nat),
{
    let mut out = base.to_owned();
    out.append("-");
    push_wide(&mut out, n);
    out
}

/// The identifier itself, or its first unused variant; it is then in use.
pub fn unique_id(base: &str, used: &mut Vec<String>) -> (r: String)
    ensures
        r@ == unique(base@, old(used).deep_view()),
        final(used).deep_view() == old(used).deep_view().push(r@),
{
    let ghost u = used.deep_view();
    let mut id = base.to_owned();
    if text::has_text(used, base) {
        let mut n: u128 = 2;
        id = numbered(base, n);
        let limit: u128 = used.len() as u128 + 2;
        while n < limit && text::has_text(used, id.as_str())
            invariant
                2 <= n <= limit,
                limit == used@.len() + 2,
                u == used.deep_view(),
                u.len() == used@.len(),
                id@ == variant(base@, n as nat),
                unused_from(base@, u, 2) == unused_from(base@, u, n as nat),
            decreases limit - n,
        {
            n = n + 1;
            id = numbered(base, n);
        }
    }
    let ghost x = id@;
    used.push(id.clone());
    assert(used.deep_view() =~= u.push(x));
    id
}

/// A free identifier is taken as it is; for one in use the first free one of `-2`,
/// `-3` and so on behind it.
pub proof fn first_free_variant_is_taken(base: Seq<char>, used: Seq<Seq<char>>)
    ensures
        !used.contains(base) ==> unique(base, used) == base,
        used.contains(base) && !used.contains(base + seq!['-', '2']) ==> unique(base, used) == base
            + seq!['-', '2'],
        used.contains(base) && used.contains(base + seq!['-', '2']) && !used.contains(
            base + seq!['-', '3'],
        ) && used.len() >= 2 ==> unique(base, used) == base + seq!['-', '3'],
{
    reveal_strlit("-");
    assert("-"@ =~= seq!['-']);
    assert(text::digits(2) =~= seq!['2']);
    assert(text::digits(3) =~= seq!['3']);
    assert(variant(base, 2) =~= base + seq!['-', '2']);
    assert(variant(base, 3) =~= base + seq!['-', '3']);
    reveal_with_fuel(unused_from, 2);
}

proof fn lemma_slug_append(s: Seq<char>, b: Seq<char>)
    requires
        b.len() > 0,
        is_alnum(b[0]),
    ensures
        slug(s + b).out == slug(s).out + slug(b).out,
        slug(s + b).dash == slug(b).dash,
        slug(b).out.len() > 0,
    decreases b.len(),
{
    let w = s + b;
    let c = b.last();
    assert(w.last() == c);
    assert(w.drop_last() =~= s + b.drop_last());
    if b.len() == 1 {
        assert(b.drop_last() =~= Seq::<char>::empty());
        assert(s + b.drop_last() =~= s);
        assert(slug(Seq::<char>::empty()).out =~= Seq::<char>::empty());
        assert(slug(b) == slug_step(slug(b.drop_last()), c));
        assert(c == b[0]);
        assert(slug(b).out =~= seq![text::ascii_lower(c)]);
        assert(slug(w).out =~= slug(s).out + slug(b).out);
    } else {
        lemma_slug_append(s, b.drop_last());
        assert(slug(w).out =~= slug(s).out + slug(b).out);
    }
}

/// Where letters or digits are parted by anything else, their identifiers are parted by
/// one dash; letters lose their case.
pub proof fn parted_words_get_a_dash(a: Seq<char>, x: char, b: Seq<char>)
    requires
        a.len() > 0,
        b.len() > 0,
        is_alnum(a.last()),
        is_alnum(b[0]),
        is_alnum(b.last()),
        !('a' <= x <= 'z') && !('A' <= x <= 'Z') && !('0' <= x <= '9'),
    ensures
        sanitized(a + seq![x] + b) == sanitized(a) + seq!['-'] + sanitized(b),
        sanitized(a.push(x)) == sanitized(a),
{
    lemma_slug(a);
    lemma_slug(b);
    let ax = a.push(x);
    assert(ax.drop_last() =~= a);
    assert(a + seq![x] =~= ax);
    let sa = slug(a);
    assert(!sa.dash && sa.out.len() > 0 && sa.out.last() != '-') by {
        assert(sa == slug_step(slug(a.drop_last()), a.last()));
    }
    assert(slug(ax).out == sa.out.push('-'));
    lemma_slug_append(ax, b);
    let sb = slug(b);
    assert(!sb.dash && sb.out.len() > 0 && sb.out.last() != '-') by {
        assert(sb == slug_step(slug(b.drop_last()), b.last()));
    }
    let w = slug(ax + b).out;
    assert(w.last() == sb.out.last());
    assert(text::trim_end_char(w, '-') == w);
    assert(text::trim_end_char(sb.out, '-') == sb.out);
    assert(text::trim_end_char(sa.out, '-') == sa.out);
    assert(w =~= sa.out + seq!['-'] + sb.out);
    assert(text::trim_end_char(sa.out.push('-'), '-') == sa.out) by {
        assert(sa.out.push('-').drop_last() =~= sa.out);
    }
}

} // verus!
