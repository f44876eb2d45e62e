//! Text primitives shared by the rest of the crate.
//!
//! Strings are modelled as sequences of characters. Everything that the
//! grammars and the renderers of this crate need from a string is defined here
//! on that model, together with an executable counterpart.

use vstd::prelude::*;
use vstd::string::*;
use vstd::utf8::*;

verus! {

// ---------------------------------------------------------------------------
// Building and taking strings apart
// ---------------------------------------------------------------------------

/// `String::push` appends one character.
pub assume_specification[ String::push ](s: &mut String, c: char)
    ensures
        final(s)@ == old(s)@.push(c),
;

/// The characters of a string, as a vector.
pub fn chars_of(s: &str) -> (v: Vec<char>)
    ensures
        v@ == s@,
{
    let mut v: Vec<char> = Vec::new();
    for c in it: s.chars()
        invariant
            it.seq() == s@,
            v@ == s@.take(it.index()),
    {
        v.push(c);
        assert(s@.take(it.index() + 1) =~= s@.take(it.index()).push(c));
    }
    assert(s@.take(s@.len() as int) =~= s@);
    v
}

/// The string made of the given characters.
pub fn string_of(v: &[char]) -> (s: String)
    ensures
        s@ == v@,
{
    let mut s = String::new();
    let mut i: usize = 0;
    while i < v.len()
        invariant
            i <= v.len(),
            s@ == v@.take(i as int),
        decreases v.len() - i,
    {
        s.push(v[i]);
        assert(v@.take(i + 1) =~= v@.take(i as int).push(v@[i as int]));
        i = i + 1;
    }
    assert(v@.take(v@.len() as int) =~= v@);
    s
}

/// The string made of `v[lo..hi]`.
pub fn string_of_range(v: &[char], lo: usize, hi: usize) -> (s: String)
    requires
        lo <= hi <= v@.len(),
    ensures
        s@ == v@.subrange(lo as int, hi as int),
{
    let mut s = String::new();
    let mut i: usize = lo;
    while i < hi
        invariant
            lo <= i <= hi <= v@.len(),
            s@ == v@.subrange(lo as int, i as int),
        decreases hi - i,
    {
        s.push(v[i]);
        assert(v@.subrange(lo as int, i + 1) =~= v@.subrange(lo as int, i as int).push(
            v@[i as int],
        ));
        i = i + 1;
    }
    s
}

/// Two strings hold the same characters.
pub fn same(a: &str, b: &str) -> (r: bool)
    ensures
        r == (a@ == b@),
{
    let x = a.as_bytes();
    let y = b.as_bytes();
    proof {
        encode_utf8_decode_utf8(a@);
        encode_utf8_decode_utf8(b@);
    }
    if x.len() != y.len() {
        return false;
    }
    let mut i: usize = 0;
    while i < x.len()
        invariant
            i <= x.len(),
            x.len() == y.len(),
            x@ == encode_utf8(a@),
            y@ == encode_utf8(b@),
            forall|j: int| 0 <= j < i ==> x@[j] == y@[j],
        decreases x.len() - i,
    {
        if x[i] != y[i] {
            return false;
        }
        i = i + 1;
    }
    assert(x@ =~= y@);
    true
}

// ---------------------------------------------------------------------------
// Searching
// ---------------------------------------------------------------------------

/// The first position at or after `from` that holds `c`, or the length.
pub open spec fn find_from(s: Seq<char>, c: char, from: int) -> int
    decreases s.len() - from,
{
    if from < 0 || from >= s.len() {
        s.len() as int
    } else if s[from] == c {
        from
    } else {
        find_from(s, c, from + 1)
    }
}

/// The first position that holds `c`, or the length.
pub open spec fn find_char(s: Seq<char>, c: char) -> int {
    find_from(s, c, 0)
}

pub proof fn lemma_find_from(s: Seq<char>, c: char, from: int)
    requires
        0 <= from <= s.len(),
    ensures
        from <= find_from(s, c, from) <= s.len(),
        find_from(s, c, from) < s.len() ==> s[find_from(s, c, from)] == c,
        forall|j: int| from <= j < find_from(s, c, from) ==> s[j] != c,
    decreases s.len() - from,
{
    if from < s.len() && s[from] != c {
        lemma_find_from(s, c, from + 1);
    }
}

/// [`find_from`] on a vector.
pub fn find_in(v: &[char], c: char, from: usize) -> (r: usize)
    requires
        from <= v@.len(),
    ensures
        r == find_from(v@, c, from as int),
        from <= r <= v@.len(),
        r < v@.len() ==> v@[r as int] == c,
        forall|j: int| from <= j < r ==> v@[j] != c,
{
    let mut i: usize = from;
    while i < v.len()
        invariant_except_break
            find_from(v@, c, i as int) == find_from(v@, c, from as int),
        invariant
            from <= i <= v@.len(),
            forall|j: int| from <= j < i ==> v@[j] != c,
        ensures
            i == find_from(v@, c, from as int),
            i < v@.len() ==> v@[i as int] == c,
        decreases v.len() - i,
    {
        if v[i] == c {
            break;
        }
        i = i + 1;
    }
    i
}

/// The string holds `c` somewhere.
pub fn contains_char(s: &str, c: char) -> (r: bool)
    ensures
        r == s@.contains(c),
{
    let v = chars_of(s);
    let k = find_in(v.as_slice(), c, 0);
    if k < v.len() {
        assert(s@[k as int] == c);
        true
    } else {
        false
    }
}

/// `s` begins with `p`.
pub fn starts_with(s: &str, p: &str) -> (r: bool)
    ensures
        r == p@.is_prefix_of(s@),
{
    let a = chars_of(s);
    let b = chars_of(p);
    if b.len() > a.len() {
        return false;
    }
    let mut i: usize = 0;
    while i < b.len()
        invariant
            i <= b.len() <= a.len(),
            a@ == s@,
            b@ == p@,
            forall|j: int| 0 <= j < i ==> a@[j] == b@[j],
        decreases b.len() - i,
    {
        if a[i] != b[i] {
            assert(a@.subrange(0, b@.len() as int)[i as int] == a@[i as int]);
            return false;
        }
        i = i + 1;
    }
    assert(a@.subrange(0, b@.len() as int) =~= b@);
    true
}

/// `s` ends with `p`.
pub fn ends_with(s: &str, p: &str) -> (r: bool)
    ensures
        r == p@.is_suffix_of(s@),
{
    let a = chars_of(s);
    let b = chars_of(p);
    if b.len() > a.len() {
        return false;
    }
    let off: usize = a.len() - b.len();
    let mut i: usize = 0;
    while i < b.len()
        invariant
            i <= b.len() <= a.len(),
            off == a.len() - b.len(),
            a@ == s@,
            b@ == p@,
            forall|j: int| 0 <= j < i ==> a@[off + j] == b@[j],
        decreases b.len() - i,
    {
        if a[off + i] != b[i] {
            assert(a@.subrange(off as int, a@.len() as int)[i as int] == a@[off + i]);
            return false;
        }
        i = i + 1;
    }
    assert(a@.subrange(off as int, a@.len() as int) =~= b@);
    true
}

// ---------------------------------------------------------------------------
// Splitting and joining
// ---------------------------------------------------------------------------

/// The pieces of `s[from..]` between occurrences of `c`.
pub open spec fn split_from(s: Seq<char>, c: char, from: int) -> Seq<Seq<char>>
    decreases s.len() - from,
{
    if from < 0 || from > s.len() {
        Seq::empty()
    } else {
        let k = find_from(s, c, from);
        if k < from || k >= s.len() {
            seq![s.subrange(from, s.len() as int)]
        } else {
            seq![s.subrange(from, k)] + split_from(s, c, k + 1)
        }
    }
}

/// The pieces of `s` between occurrences of `c`: always at least one.
pub open spec fn split(s: Seq<char>, c: char) -> Seq<Seq<char>> {
    split_from(s, c, 0)
}

/// Between any two pieces stands a separator.
pub proof fn lemma_split_length(s: Seq<char>, c: char, from: int)
    requires
        0 <= from <= s.len(),
    ensures
        split_from(s, c, from).len() >= 1,
        split_from(s, c, from)[0].len() + split_from(s, c, from).len() - 1 <= s.len() - from,
    decreases s.len() - from,
{
    lemma_find_from(s, c, from);
    let k = find_from(s, c, from);
    if k < s.len() {
        lemma_split_length(s, c, k + 1);
    }
}

/// A character takes at least one byte.
pub proof fn lemma_bytes_at_least_chars(s: Seq<char>)
    ensures
        encode_utf8(s).len() >= s.len(),
    decreases s.len(),
{
    if s.len() > 0 {
        lemma_bytes_at_least_chars(s.drop_first());
        assert(encode_scalar(s[0] as u32).len() >= 1);
    }
}

/// [`split`] on strings.
pub fn split_on(s: &str, c: char) -> (r: Vec<String>)
    ensures
        r.deep_view() == split(s@, c),
        r@.len() >= 1,
{
    let v = chars_of(s);
    let mut out: Vec<String> = Vec::new();
    let mut start: usize = 0;
    loop
        invariant_except_break
            start <= v@.len(),
            v@ == s@,
            out.deep_view() + split_from(s@, c, start as int) == split(s@, c),
        ensures
            out.deep_view() == split(s@, c),
            out@.len() >= 1,
        decreases v@.len() - start,
    {
        let k = find_in(v.as_slice(), c, start);
        let ghost before = out.deep_view();
        if k >= v.len() {
            let piece = string_of_range(v.as_slice(), start, v.len());
            out.push(piece);
            assert(out.deep_view() =~= before + split_from(s@, c, start as int));
            break;
        }
        let piece = string_of_range(v.as_slice(), start, k);
        out.push(piece);
        proof {
            assert(out.deep_view() =~= before.push(s@.subrange(start as int, k as int)));
            assert(before + split_from(s@, c, start as int) =~= out.deep_view() + split_from(
                s@,
                c,
                k + 1,
            ));
        }
        start = k + 1;
    }
    out
}

/// The pieces put together with `sep` between each two.
pub open spec fn join(parts: Seq<Seq<char>>, sep: Seq<char>) -> Seq<char>
    decreases parts.len(),
{
    if parts.len() == 0 {
        Seq::empty()
    } else if parts.len() == 1 {
        parts[0]
    } else {
        join(parts.drop_last(), sep) + sep + parts.last()
    }
}

/// [`join`] on strings.
pub fn join_with(parts: &Vec<String>, sep: &str) -> (r: String)
    ensures
        r@ == join(parts.deep_view(), sep@),
{
    let mut out = String::new();
    let mut i: usize = 0;
    let ghost all = parts.deep_view();
    while i < parts.len()
        invariant
            i <= parts.len(),
            all == parts.deep_view(),
            out@ == join(all.take(i as int), sep@),
        decreases parts.len() - i,
    {
        proof {
            assert(all.take(i + 1).drop_last() =~= all.take(i as int));
            assert(all.take(i + 1).last() == parts@[i as int]@);
        }
        if i > 0 {
            out.append(sep);
        }
        out.append(parts[i].as_str());
        proof {
            if i == 0 {
                assert(out@ =~= parts@[0]@);
            }
        }
        i = i + 1;
    }
    assert(all.take(all.len() as int) =~= all);
    out
}

/// The first occurrence is determined by what it is.
pub proof fn lemma_find_unique(s: Seq<char>, c: char, from: int, k: int)
    requires
        0 <= from <= k <= s.len(),
        k < s.len() ==> s[k] == c,
        forall|j: int| from <= j < k ==> s[j] != c,
    ensures
        find_from(s, c, from) == k,
{
    lemma_find_from(s, c, from);
    let f = find_from(s, c, from);
    if f < k {
        assert(s[f] != c);
    } else if k < f {
        assert(s[k] != c);
    }
}

/// One more piece behind a separator is one more piece of the split.
pub proof fn lemma_split_append(a: Seq<char>, b: Seq<char>, c: char, from: int)
    requires
        0 <= from <= a.len(),
        !b.contains(c),
    ensures
        split_from(a + seq![c] + b, c, from) == split_from(a, c, from).push(b),
    decreases a.len() - from,
{
    let w = a + seq![c] + b;
    let k = find_from(a, c, from);
    lemma_find_from(a, c, from);
    assert(forall|j: int| 0 <= j < a.len() ==> w[j] == a[j]);
    lemma_find_unique(w, c, from, k);
    if k < a.len() {
        lemma_split_append(a, b, c, k + 1);
        assert(w.subrange(from, k) =~= a.subrange(from, k));
        assert(split_from(w, c, from) =~= split_from(a, c, from).push(b));
    } else {
        assert forall|j: int| a.len() + 1 <= j < w.len() implies w[j] != c by {
            assert(w[j] == b[j - a.len() - 1]);
        }
        lemma_find_unique(w, c, k + 1, w.len() as int);
        assert(w.subrange(from, k) =~= a.subrange(from, a.len() as int));
        assert(w.subrange(k + 1, w.len() as int) =~= b);
        assert(split_from(w, c, k + 1) =~= seq![b]);
        assert(split_from(w, c, from) =~= seq![a.subrange(from, a.len() as int)] + seq![b]);
        assert(split_from(w, c, from) =~= split_from(a, c, from).push(b));
    }
}

/// Splitting undoes joining when no piece holds the separator.
pub proof fn lemma_split_join(parts: Seq<Seq<char>>, c: char)
    requires
        parts.len() >= 1,
        forall|i: int| 0 <= i < parts.len() ==> !(#[trigger] parts[i]).contains(c),
    ensures
        split(join(parts, seq![c]), c) == parts,
    decreases parts.len(),
{
    if parts.len() == 1 {
        let s = parts[0];
        assert forall|j: int| 0 <= j < s.len() implies s[j] != c by {
            assert(s.contains(s[j]));
        }
        lemma_find_unique(s, c, 0, s.len() as int);
        assert(s.subrange(0, s.len() as int) =~= s);
        assert(split(s, c) =~= parts);
    } else {
        let init = parts.drop_last();
        assert forall|i: int| 0 <= i < init.len() implies !(#[trigger] init[i]).contains(c) by {
            assert(init[i] == parts[i]);
        }
        lemma_split_join(init, c);
        let a = join(init, seq![c]);
        assert(parts.last() == parts[parts.len() - 1]);
        lemma_split_append(a, parts.last(), c, 0);
        assert(split(join(parts, seq![c]), c) =~= init.push(parts.last()));
        assert(init.push(parts.last()) =~= parts);
    }
}

// ---------------------------------------------------------------------------
// White space
// ---------------------------------------------------------------------------

/// The characters with the Unicode property `White_Space`.
pub open spec fn is_space(c: char) -> bool {
    ||| '\u{9}' <= c <= '\u{d}'
    ||| c == ' '
    ||| c == '\u{85}'
    ||| c == '\u{a0}'
    ||| c == '\u{1680}'
    ||| '\u{2000}' <= c <= '\u{200a}'
    ||| c == '\u{2028}'
    ||| c == '\u{2029}'
    ||| c == '\u{202f}'
    ||| c == '\u{205f}'
    ||| c == '\u{3000}'
}

/// [`is_space`].
pub fn is_white(c: char) -> (r: bool)
    ensures
        r == is_space(c),
{
    ('\u{9}' <= c && c <= '\u{d}') || c == ' ' || c == '\u{85}' || c == '\u{a0}' || c == '\u{1680}'
        || ('\u{2000}' <= c && c <= '\u{200a}') || c == '\u{2028}' || c == '\u{2029}' || c
        == '\u{202f}' || c == '\u{205f}' || c == '\u{3000}'
}

/// Without leading white space.
pub open spec fn trim_start(s: Seq<char>) -> Seq<char>
    decreases s.len(),
{
    if s.len() > 0 && is_space(s[0]) {
        trim_start(s.skip(1))
    } else {
        s
    }
}

/// Without trailing white space.
pub open spec fn trim_end(s: Seq<char>) -> Seq<char>
    decreases s.len(),
{
    if s.len() > 0 && is_space(s.last()) {
        trim_end(s.drop_last())
    } else {
        s
    }
}

/// Without leading and trailing white space.
pub open spec fn trim(s: Seq<char>) -> Seq<char> {
    trim_end(trim_start(s))
}

/// Without trailing `c`.
pub open spec fn trim_end_char(s: Seq<char>, c: char) -> Seq<char>
    decreases s.len(),
{
    if s.len() > 0 && s.last() == c {
        trim_end_char(s.drop_last(), c)
    } else {
        s
    }
}

/// [`trim_end`] on strings.
pub fn trimmed_end(s: &str) -> (r: String)
    ensures
        r@ == trim_end(s@),
{
    let v = chars_of(s);
    let mut hi: usize = v.len();
    assert(v@.take(hi as int) =~= s@);
    while hi > 0 && is_white(v[hi - 1])
        invariant
            hi <= v@.len(),
            trim_end(v@.take(hi as int)) == trim_end(s@),
        decreases hi,
    {
        assert(v@.take(hi as int).drop_last() =~= v@.take(hi - 1));
        hi = hi - 1;
    }
    assert(v@.take(hi as int) =~= v@.subrange(0, hi as int));
    string_of_range(v.as_slice(), 0, hi)
}

/// [`trim`] on strings.
pub fn trimmed(s: &str) -> (r: String)
    ensures
        r@ == trim(s@),
{
    let v = chars_of(s);
    let mut lo: usize = 0;
    assert(v@.skip(0) =~= s@);
    while lo < v.len() && is_white(v[lo])
        invariant
            lo <= v@.len(),
            trim_start(v@.skip(lo as int)) == trim_start(s@),
        decreases v@.len() - lo,
    {
        assert(v@.skip(lo as int).skip(1) =~= v@.skip(lo + 1));
        lo = lo + 1;
    }
    let rest = string_of_range(v.as_slice(), lo, v.len());
    assert(v@.skip(lo as int) =~= v@.subrange(lo as int, v@.len() as int));
    trimmed_end(rest.as_str())
}

/// [`trim_end_char`] on strings.
pub fn trimmed_end_char(s: &str, c: char) -> (r: String)
    ensures
        r@ == trim_end_char(s@, c),
{
    let v = chars_of(s);
    let mut hi: usize = v.len();
    assert(v@.take(hi as int) =~= s@);
    while hi > 0 && v[hi - 1] == c
        invariant
            hi <= v@.len(),
            trim_end_char(v@.take(hi as int), c) == trim_end_char(s@, c),
        decreases hi,
    {
        assert(v@.take(hi as int).drop_last() =~= v@.take(hi - 1));
        hi = hi - 1;
    }
    assert(v@.take(hi as int) =~= v@.subrange(0, hi as int));
    string_of_range(v.as_slice(), 0, hi)
}

// ---------------------------------------------------------------------------
// Letter case
// ---------------------------------------------------------------------------

/// The lower-case form of an ASCII letter; other characters are kept.
pub open spec fn ascii_lower(c: char) -> char {
    if 'A' <= c <= 'Z' {
        (c as u32 + 32) as char
    } else {
        c
    }
}

/// The upper-case form of an ASCII letter; other characters are kept.
pub open spec fn ascii_upper(c: char) -> char {
    if 'a' <= c <= 'z' {
        (c as u32 - 32) as char
    } else {
        c
    }
}

/// [`ascii_lower`] on each character.
pub open spec fn ascii_lowercase(s: Seq<char>) -> Seq<char> {
    s.map_values(|c: char| ascii_lower(c))
}

/// [`ascii_upper`] on each character.
pub open spec fn ascii_uppercase(s: Seq<char>) -> Seq<char> {
    s.map_values(|c: char| ascii_upper(c))
}

/// The two texts differ in the case of ASCII letters at most.
pub open spec fn eq_ignore_case(a: Seq<char>, b: Seq<char>) -> bool {
    ascii_lowercase(a) == ascii_lowercase(b)
}

/// [`ascii_lower`].
pub fn lower_char(c: char) -> (r: char)
    ensures
        r == ascii_lower(c),
{
    if 'A' <= c && c <= 'Z' {
        ((c as u8) + 32) as char
    } else {
        c
    }
}

/// [`ascii_upper`].
pub fn upper_char(c: char) -> (r: char)
    ensures
        r == ascii_upper(c),
{
    if 'a' <= c && c <= 'z' {
        ((c as u8) - 32) as char
    } else {
        c
    }
}

/// [`ascii_lowercase`] on strings.
pub fn lower_ascii(s: &str) -> (r: String)
    ensures
        r@ == ascii_lowercase(s@),
{
    let v = chars_of(s);
    let mut out = String::new();
    let mut i: usize = 0;
    while i < v.len()
        invariant
            i <= v@.len(),
            v@ == s@,
            out@ == ascii_lowercase(s@.take(i as int)),
        decreases v@.len() - i,
    {
        out.push(lower_char(v[i]));
        assert(out@ =~= ascii_lowercase(s@.take(i + 1)));
        i = i + 1;
    }
    assert(s@.take(s@.len() as int) =~= s@);
    out
}

/// [`eq_ignore_case`] on strings.
pub fn same_ignore_case(a: &str, b: &str) -> (r: bool)
    ensures
        r == eq_ignore_case(a@, b@),
{
    let x = lower_ascii(a);
    let y = lower_ascii(b);
    same(x.as_str(), y.as_str())
}

/// What [`str::to_lowercase`] gives for a text.
pub uninterp spec fn unicode_lowercase(s: Seq<char>) -> Seq<char>;

/// What [`str::to_uppercase`] gives for a text.
pub uninterp spec fn unicode_uppercase(s: Seq<char>) -> Seq<char>;

/// `str::to_lowercase`: the Unicode lower-case form, which is a function of the
/// text. On ASCII text it lowers each letter and keeps everything else.
#[verifier::external_body]
fn to_lowercase(s: &str) -> (r: String)
    ensures
        r@ == unicode_lowercase(s@),
        is_ascii_chars(s@) ==> r@ == ascii_lowercase(s@),
{
    s.to_lowercase()
}

/// `str::to_uppercase`: the Unicode upper-case form, which is a function of the
/// text. On ASCII text it raises each letter and keeps everything else.
#[verifier::external_body]
fn to_uppercase(s: &str) -> (r: String)
    ensures
        r@ == unicode_uppercase(s@),
        is_ascii_chars(s@) ==> r@ == ascii_uppercase(s@),
{
    s.to_uppercase()
}

/// The lower-case form of a text.
pub open spec fn lowercase(s: Seq<char>) -> Seq<char> {
    if is_ascii_chars(s) {
        ascii_lowercase(s)
    } else {
        unicode_lowercase(s)
    }
}

/// The upper-case form of a text.
pub open spec fn uppercase(s: Seq<char>) -> Seq<char> {
    if is_ascii_chars(s) {
        ascii_uppercase(s)
    } else {
        unicode_uppercase(s)
    }
}

/// [`lowercase`] on strings.
pub fn lower(s: &str) -> (r: String)
    ensures
        r@ == lowercase(s@),
{
    to_lowercase(s)
}

/// [`uppercase`] on strings.
pub fn upper(s: &str) -> (r: String)
    ensures
        r@ == uppercase(s@),
{
    to_uppercase(s)
}

// ---------------------------------------------------------------------------
// Numbers
// ---------------------------------------------------------------------------

/// The decimal digit for `d`.
pub open spec fn digit_char(d: nat) -> char {
    (48 + d) as char
}

/// A decimal digit.
pub open spec fn is_digit(c: char) -> bool {
    '0' <= c <= '9'
}

/// The decimal form of a number.
pub open spec fn digits(n: nat) -> Seq<char>
    decreases n,
{
    if n < 10 {
        seq![digit_char(n)]
    } else {
        digits(n / 10).push(digit_char(n % 10))
    }
}

/// The decimal form of an integer.
pub open spec fn int_text(i: int) -> Seq<char> {
    if i < 0 {
        seq!['-'] + digits((-i) as nat)
    } else {
        digits(i as nat)
    }
}

/// The number that a run of decimal digits stands for.
pub open spec fn digits_value(s: Seq<char>) -> nat
    decreases s.len(),
{
    if s.len() == 0 {
        0
    } else {
        digits_value(s.drop_last()) * 10 + (s.last() as nat - 48) as nat
    }
}

/// Every character is a decimal digit.
pub open spec fn all_digits(s: Seq<char>) -> bool {
    forall|i: int| 0 <= i < s.len() ==> is_digit(#[trigger] s[i])
}

/// An unsigned decimal number no larger than `max`, with an optional plus sign.
pub open spec fn parse_number(s: Seq<char>, max: nat) -> Option<nat> {
    let d = if s.len() > 0 && s[0] == '+' {
        s.skip(1)
    } else {
        s
    };
    if d.len() > 0 && all_digits(d) && digits_value(d) <= max {
        Some(digits_value(d))
    } else {
        None
    }
}

pub proof fn lemma_digits(n: nat)
    ensures
        digits(n).len() >= 1,
        all_digits(digits(n)),
        digits_value(digits(n)) == n,
    decreases n,
{
    if n >= 10 {
        lemma_digits(n / 10);
        assert(digits(n).drop_last() =~= digits(n / 10));
    } else {
        assert(digits(n).drop_last() =~= Seq::<char>::empty());
        assert(digits_value(Seq::<char>::empty()) == 0);
    }
}

/// Reading the decimal form of a number gives the number back.
pub proof fn decimal_round_trip(n: nat, max: nat)
    requires
        n <= max,
    ensures
        parse_number(digits(n), max) == Some(n),
{
    lemma_digits(n);
    assert(is_digit(digits(n)[0]));
}

/// Appends the decimal form of `n`.
pub fn push_decimal(out: &mut String, n: u64)
    ensures
        final(out)@ == old(out)@ + digits(n as nat),
    decreases n,
{
    if n >= 10 {
        push_decimal(out, n / 10);
    }
    let ghost before = out@;
    let d: u8 = (n % 10) as u8;
    out.push((48 + d) as char);
    proof {
        assert(out@ =~= before.push(digit_char((n % 10) as nat)));
        assert(out@ =~= old(out)@ + digits(n as nat));
    }
}

/// The decimal form of `n`.
pub fn decimal(n: u64) -> (r: String)
    ensures
        r@ == digits(n as nat),
{
    let mut out = String::new();
    push_decimal(&mut out, n);
    assert(out@ =~= digits(n as nat));
    out
}

/// The decimal form of a signed number.
pub fn decimal_signed(n: i64) -> (r: String)
    ensures
        r@ == int_text(n as int),
{
    let mut out = String::new();
    if n < 0 {
        out.push('-');
        let m: u64 = (-(n as i128)) as u64;
        push_decimal(&mut out, m);
        assert(out@ =~= seq!['-'] + digits((-(n as int)) as nat));
    } else {
        push_decimal(&mut out, n as u64);
        assert(out@ =~= digits(n as nat));
    }
    out
}

pub proof fn lemma_digits_value_grows(s: Seq<char>, i: int)
    requires
        0 <= i <= s.len(),
        all_digits(s),
    ensures
        digits_value(s.take(i)) <= digits_value(s),
    decreases s.len() - i,
{
    if i < s.len() {
        lemma_digits_value_grows(s, i + 1);
        assert(s.take(i + 1).drop_last() =~= s.take(i));
        assert(is_digit(s[i]));
    } else {
        assert(s.take(i) =~= s);
    }
}

/// [`parse_number`] on strings.
pub fn parse_unsigned(s: &str, max: u64) -> (r: Option<u64>)
    requires
        max <= 0xffff_ffff,
    ensures
        (match r {
            Some(n) => parse_number(s@, max as nat) == Some(n as nat),
            None => parse_number(s@, max as nat) is None,
        }),
{
    let v = chars_of(s);
    let start: usize = if v.len() > 0 && v[0] == '+' {
        1
    } else {
        0
    };
    let ghost d = v@.skip(start as int);
    assert(v@.skip(0) =~= v@);
    if start >= v.len() {
        return None;
    }
    let mut i: usize = start;
    let mut n: u64 = 0;
    while i < v.len()
        invariant
            start <= i <= v@.len(),
            start < v@.len(),
            d == v@.skip(start as int),
            v@ == s@,
            max <= 0xffff_ffff,
            n <= max,
            d == (if s@.len() > 0 && s@[0] == '+' {
                s@.skip(1)
            } else {
                s@
            }),
            forall|j: int| 0 <= j < i - start ==> is_digit(#[trigger] d[j]),
            n == digits_value(d.take(i - start)),
        decreases v@.len() - i,
    {
        let c = v[i];
        let ghost k = i - start;
        proof {
            assert(d[k] == c);
            assert(d.take(k + 1).drop_last() =~= d.take(k));
            assert(d.take(k + 1).last() == c);
        }
        if !('0' <= c && c <= '9') {
            assert(!all_digits(d));
            return None;
        }
        n = n * 10 + (c as u64 - 48);
        if n > max {
            proof {
                if all_digits(d) {
                    lemma_digits_value_grows(d, k + 1);
                }
            }
            return None;
        }
        i = i + 1;
    }
    proof {
        assert(d.take(i - start) =~= d);
    }
    Some(n)
}

/// The lower-case hexadecimal digit for `d`.
pub open spec fn hex_char(d: nat) -> char {
    if d < 10 {
        (48 + d) as char
    } else {
        (87 + d) as char
    }
}

/// The lower-case hexadecimal form of a number.
pub open spec fn hex_digits(n: nat) -> Seq<char>
    decreases n,
{
    if n < 16 {
        seq![hex_char(n)]
    } else {
        hex_digits(n / 16).push(hex_char(n % 16))
    }
}

/// [`hex_char`].
pub fn hex_digit(d: u8) -> (r: char)
    requires
        d < 16,
    ensures
        r == hex_char(d as nat),
{
    if d < 10 {
        (48 + d) as char
    } else {
        (87 + d) as char
    }
}

/// Appends the lower-case hexadecimal form of `n`.
pub fn push_hex(out: &mut String, n: u16)
    ensures
        final(out)@ == old(out)@ + hex_digits(n as nat),
    decreases n,
{
    if n >= 16 {
        push_hex(out, n / 16);
    }
    let ghost before = out@;
    out.push(hex_digit((n % 16) as u8));
    proof {
        assert(out@ =~= before.push(hex_char((n % 16) as nat)));
        assert(out@ =~= old(out)@ + hex_digits(n as nat));
    }
}

// ---------------------------------------------------------------------------
// UTF-8
// ---------------------------------------------------------------------------

/// The message of the error that `String::from_utf8` gives for ill-formed bytes.
pub uninterp spec fn utf8_error_text(bytes: Seq<u8>) -> Seq<char>;

/// `String::from_utf8`: the text that the bytes encode if they are well-formed
/// UTF-8, else an error whose message is a function of the bytes.
#[verifier::external_body]
pub(crate) fn string_from_utf8(bytes: Vec<u8>) -> (r: Result<String, String>)
    ensures
        (match r {
            Ok(s) => valid_utf8(bytes@) && s@ == decode_utf8(bytes@),
            Err(e) => !valid_utf8(bytes@) && e@ == utf8_error_text(bytes@),
        }),
{
    String::from_utf8(bytes).map_err(|e| e.to_string())
}

// ---------------------------------------------------------------------------
// Order
// ---------------------------------------------------------------------------

/// `a` comes before `b` in the order of strings: by code point, a proper prefix
/// first.
pub open spec fn text_lt(a: Seq<char>, b: Seq<char>) -> bool
    decreases a.len(),
{
    if b.len() == 0 {
        false
    } else if a.len() == 0 {
        true
    } else if a[0] != b[0] {
        a[0] < b[0]
    } else {
        text_lt(a.skip(1), b.skip(1))
    }
}

pub proof fn lemma_text_lt_irreflexive(a: Seq<char>)
    ensures
        !text_lt(a, a),
    decreases a.len(),
{
    if a.len() > 0 {
        lemma_text_lt_irreflexive(a.skip(1));
    }
}

pub proof fn lemma_text_lt_transitive(a: Seq<char>, b: Seq<char>, c: Seq<char>)
    requires
        text_lt(a, b),
        text_lt(b, c),
    ensures
        text_lt(a, c),
    decreases a.len(),
{
    if a.len() > 0 && a[0] == b[0] && b[0] == c[0] {
        lemma_text_lt_transitive(a.skip(1), b.skip(1), c.skip(1));
    }
}

pub proof fn lemma_text_lt_total(a: Seq<char>, b: Seq<char>)
    ensures
        text_lt(a, b) || a == b || text_lt(b, a),
    decreases a.len(),
{
    if a.len() > 0 && b.len() > 0 && a[0] == b[0] {
        lemma_text_lt_total(a.skip(1), b.skip(1));
        if a.skip(1) == b.skip(1) {
            assert(a =~= seq![a[0]] + a.skip(1));
            assert(b =~= seq![b[0]] + b.skip(1));
        }
    } else if a.len() == 0 && b.len() == 0 {
        assert(a =~= b);
    }
}

/// [`text_lt`] on strings.
pub fn is_before(a: &str, b: &str) -> (r: bool)
    ensures
        r == text_lt(a@, b@),
{
    let x = chars_of(a);
    let y = chars_of(b);
    let mut i: usize = 0;
    assert(x@.skip(0) =~= a@);
    assert(y@.skip(0) =~= b@);
    while i < x.len() && i < y.len()
        invariant
            i <= x@.len(),
            i <= y@.len(),
            text_lt(a@, b@) == text_lt(x@.skip(i as int), y@.skip(i as int)),
        decreases x@.len() - i,
    {
        assert(x@.skip(i as int)[0] == x@[i as int]);
        assert(y@.skip(i as int)[0] == y@[i as int]);
        if x[i] != y[i] {
            return x[i] < y[i];
        }
        assert(x@.skip(i as int).skip(1) =~= x@.skip(i + 1));
        assert(y@.skip(i as int).skip(1) =~= y@.skip(i + 1));
        i = i + 1;
    }
    i < y.len()
}

/// The two lists hold the same texts in the same order.
pub fn same_list(a: &Vec<String>, b: &Vec<String>) -> (r: bool)
    ensures
        r == (a.deep_view() == b.deep_view()),
{
    if a.len() != b.len() {
        assert(a.deep_view().len() != b.deep_view().len());
        return false;
    }
    let mut i: usize = 0;
    while i < a.len()
        invariant
            a@.len() == b@.len(),
            i <= a@.len(),
            forall|j: int| 0 <= j < i ==> (#[trigger] a@[j])@ == b@[j]@,
        decreases a.len() - i,
    {
        if !same(a[i].as_str(), b[i].as_str()) {
            assert(a.deep_view()[i as int] != b.deep_view()[i as int]);
            return false;
        }
        i = i + 1;
    }
    assert(a.deep_view() =~= b.deep_view());
    true
}

/// The two optional texts are the same.
pub fn same_option(a: &Option<String>, b: &Option<String>) -> (r: bool)
    ensures
        r == (a.deep_view() == b.deep_view()),
{
    match a {
        Some(x) => match b {
            Some(y) => same(x.as_str(), y.as_str()),
            None => false,
        },
        None => b.is_none(),
    }
}

/// The text is one of the list.
pub fn has_text(list: &Vec<String>, s: &str) -> (r: bool)
    ensures
        r == list.deep_view().contains(s@),
{
    let mut i: usize = 0;
    while i < list.len()
        invariant
            i <= list@.len(),
            forall|j: int| 0 <= j < i ==> #[trigger] list.deep_view()[j] != s@,
        decreases list.len() - i,
    {
        if same(list[i].as_str(), s) {
            assert(list.deep_view()[i as int] == s@);
            return true;
        }
        i = i + 1;
    }
    false
}

// ---------------------------------------------------------------------------
// Parts of a text
// ---------------------------------------------------------------------------

/// `part` stands at position `i` of `s`.
pub open spec fn stands_at(s: Seq<char>, part: Seq<char>, i: int) -> bool {
    0 <= i && i + part.len() <= s.len() && s.subrange(i, i + part.len()) == part
}

/// `part` stands somewhere in `s`.
pub open spec fn holds(s: Seq<char>, part: Seq<char>) -> bool {
    exists|i: int| #[trigger] stands_at(s, part, i)
}

/// A text stands in itself.
pub proof fn lemma_holds_itself(s: Seq<char>)
    ensures
        holds(s, s),
{
    assert(s.subrange(0, s.len() as int) =~= s);
    assert(stands_at(s, s, 0));
}

/// What stands in a text stands in any text that it is a piece of.
pub proof fn lemma_holds_around(a: Seq<char>, s: Seq<char>, b: Seq<char>, part: Seq<char>)
    requires
        holds(s, part),
    ensures
        holds(a + s, part),
        holds(s + b, part),
{
    let i = choose|i: int| #[trigger] stands_at(s, part, i);
    assert((a + s).subrange(a.len() + i, a.len() + i + part.len()) =~= s.subrange(
        i,
        i + part.len(),
    ));
    assert(stands_at(a + s, part, a.len() + i));
    assert((s + b).subrange(i, i + part.len()) =~= s.subrange(i, i + part.len()));
    assert(stands_at(s + b, part, i));
}

// ---------------------------------------------------------------------------
// Text for developers
// ---------------------------------------------------------------------------

/// What the `Debug` form of a text is.
pub uninterp spec fn debug_quoted(s: Seq<char>) -> Seq<char>;

/// `format!` with `{:?}` on a `str`: the text in double quotes, with quotes,
/// backslashes and unprintable characters escaped. Which characters are escaped,
/// and how, is left to the name.
#[verifier::external_body]
pub(crate) fn quote_debug(s: &str) -> (r: String)
    ensures
        r@ == debug_quoted(s@),
{
    format!("{:?}", s)
}

// ---------------------------------------------------------------------------
// Laws on trimming and letter case
// ---------------------------------------------------------------------------

/// Trimming one character off the end takes away exactly the run of it at the end.
pub proof fn trimmed_end_is_the_last_run(s: Seq<char>, c: char)
    ensures
        trim_end_char(s, c).len() <= s.len(),
        s.take(trim_end_char(s, c).len() as int) == trim_end_char(s, c),
        trim_end_char(s, c).len() > 0 ==> trim_end_char(s, c).last() != c,
        forall|i: int| trim_end_char(s, c).len() <= i < s.len() ==> #[trigger] s[i] == c,
    decreases s.len(),
{
    if s.len() > 0 && s.last() == c {
        let t = s.drop_last();
        trimmed_end_is_the_last_run(t, c);
        let n = trim_end_char(s, c).len() as int;
        assert(s.take(n) =~= t.take(n));
        assert forall|i: int| n <= i < s.len() implies #[trigger] s[i] == c by {
            if i < t.len() {
                assert(t[i] == s[i]);
            }
        }
    } else {
        assert(s.take(s.len() as int) =~= s);
    }
}

/// Trimming takes white space off both ends and nothing from between.
pub proof fn trimmed_keeps_what_is_between(a: Seq<char>, s: Seq<char>, b: Seq<char>)
    requires
        forall|i: int| 0 <= i < a.len() ==> is_space(#[trigger] a[i]),
        forall|i: int| 0 <= i < b.len() ==> is_space(#[trigger] b[i]),
        s.len() > 0 ==> !is_space(s[0]) && !is_space(s.last()),
    ensures
        trim(a + s + b) == s,
        s.len() > 0 ==> trim_end(a + s + b) == a + s,
{
    if s.len() > 0 {
        lemma_trim_end_run(a + s, b);
        lemma_trim_start_run(a, s + b);
        assert(a + s + b =~= a + (s + b));
        lemma_trim_end_run(s, b);
    } else {
        assert(a + s + b =~= (a + b) + Seq::<char>::empty());
        lemma_trim_start_run(a + b, Seq::empty());
    }
}

proof fn lemma_trim_start_run(a: Seq<char>, s: Seq<char>)
    requires
        forall|i: int| 0 <= i < a.len() ==> is_space(#[trigger] a[i]),
        s.len() > 0 ==> !is_space(s[0]),
    ensures
        trim_start(a + s) == s,
    decreases a.len(),
{
    if a.len() > 0 {
        assert((a + s)[0] == a[0]);
        assert((a + s).skip(1) =~= a.skip(1) + s);
        assert forall|i: int| 0 <= i < a.skip(1).len() implies is_space(#[trigger] a.skip(1)[i]) by {
            assert(a.skip(1)[i] == a[i + 1]);
        }
        lemma_trim_start_run(a.skip(1), s);
    } else {
        assert(a + s =~= s);
    }
}

proof fn lemma_trim_end_run(s: Seq<char>, b: Seq<char>)
    requires
        forall|i: int| 0 <= i < b.len() ==> is_space(#[trigger] b[i]),
        s.len() > 0 ==> !is_space(s.last()),
    ensures
        trim_end(s + b) == s,
    decreases b.len(),
{
    if b.len() > 0 {
        assert((s + b).last() == b.last());
        assert(b.last() == b[b.len() - 1]);
        assert((s + b).drop_last() =~= s + b.drop_last());
        assert forall|i: int| 0 <= i < b.drop_last().len() implies is_space(
            #[trigger] b.drop_last()[i],
        ) by {
            assert(b.drop_last()[i] == b[i]);
        }
        lemma_trim_end_run(s, b.drop_last());
    } else {
        assert(s + b =~= s);
    }
}

/// White space: the blank, the tab and the ends of lines, and no letter, digit or sign
/// of ASCII.
pub proof fn ascii_white_space(c: char)
    requires
        c as u32 <= 0x7f,
    ensures
        is_space(c) <==> c == ' ' || c == '\t' || c == '\n' || c == '\r' || c == '\u{b}' || c
            == '\u{c}',
{
}

/// Two texts are equal but for the case of ASCII letters exactly where they are as long
/// and at each place hold the same character, or the capital and the small form of one
/// letter.
pub proof fn equal_but_for_case(a: Seq<char>, b: Seq<char>)
    ensures
        eq_ignore_case(a, b) <==> a.len() == b.len() && forall|i: int|
            0 <= i < a.len() ==> (#[trigger] a[i] == b[i] || ('A' <= a[i] <= 'Z' && b[i] as u32
                == a[i] as u32 + 32) || ('A' <= b[i] <= 'Z' && a[i] as u32 == b[i] as u32 + 32)),
        forall|c: char| 'a' <= c <= 'z' ==> (#[trigger] ascii_upper(c)) as u32 == c as u32 - 32,
        forall|c: char| !('a' <= c <= 'z') ==> #[trigger] ascii_upper(c) == c,
        forall|c: char| 'A' <= c <= 'Z' ==> (#[trigger] ascii_lower(c)) as u32 == c as u32 + 32,
        forall|c: char| !('A' <= c <= 'Z') ==> #[trigger] ascii_lower(c) == c,
{
    let x = ascii_lowercase(a);
    let y = ascii_lowercase(b);
    if x == y {
        assert(x.len() == a.len() && y.len() == b.len());
        assert forall|i: int| 0 <= i < a.len() implies (#[trigger] a[i] == b[i] || ('A' <= a[i] <= 'Z'
            && b[i] as u32 == a[i] as u32 + 32) || ('A' <= b[i] <= 'Z' && a[i] as u32 == b[i] as u32
            + 32)) by {
            assert(x[i] == ascii_lower(a[i]) && y[i] == ascii_lower(b[i]));
        }
    }
    if a.len() == b.len() && forall|i: int|
        0 <= i < a.len() ==> (#[trigger] a[i] == b[i] || ('A' <= a[i] <= 'Z' && b[i] as u32 == a[i] as u32
            + 32) || ('A' <= b[i] <= 'Z' && a[i] as u32 == b[i] as u32 + 32)) {
        assert forall|i: int| 0 <= i < x.len() implies x[i] == y[i] by {
            assert(a[i] == a[i]);
            assert(x[i] == ascii_lower(a[i]) && y[i] == ascii_lower(b[i]));
        }
        assert(x =~= y);
    }
}

/// Numbers are read digit by digit, the first counting most: one more digit multiplies
/// by ten and adds it. A plus sign may stand in front, a minus sign not, and a number
/// beyond the limit is none.
pub proof fn numbers_are_read_in_tens(s: Seq<char>, c: char, max: nat)
    ensures
        digits_value(s.push(c)) == digits_value(s) * 10 + (c as nat - 48) as nat,
        parse_number(Seq::<char>::empty(), max) is None,
        parse_number(s, max) matches Some(n) ==> n <= max,
        s.len() > 0 && s[0] == '-' ==> parse_number(s, max) is None,
        s.len() > 0 && (forall|i: int| 0 <= i < s.len() ==> '0' <= #[trigger] s[i] <= '9')
            && digits_value(s) <= max ==> parse_number(s, max) == Some(digits_value(s)) && parse_number(
            seq!['+'] + s,
            max,
        ) == Some(digits_value(s)),
        s.len() > 0 && (exists|i: int| 1 <= i < s.len() && !('0' <= #[trigger] s[i] <= '9'))
            ==> parse_number(s, max) is None,
{
    assert(s.push(c).drop_last() =~= s);
    assert((seq!['+'] + s).skip(1) =~= s);
    if exists|i: int| 1 <= i < s.len() && !('0' <= #[trigger] s[i] <= '9') {
        let i = choose|i: int| 1 <= i < s.len() && !('0' <= #[trigger] s[i] <= '9');
        assert(s.skip(1)[i - 1] == s[i]);
        assert(!is_digit(s[i]));
        assert(!is_digit(s.skip(1)[i - 1]));
    }
}

/// Joining puts the separator between each two pieces and nowhere else.
pub proof fn joining_separates(parts: Seq<Seq<char>>, last: Seq<char>, sep: Seq<char>)
    ensures
        join(Seq::<Seq<char>>::empty(), sep) == Seq::<char>::empty(),
        parts.len() == 0 ==> join(parts.push(last), sep) == last,
        parts.len() > 0 ==> join(parts.push(last), sep) == join(parts, sep) + sep + last,
{
    assert(parts.push(last).drop_last() =~= parts);
}

/// Texts are ordered by their first difference; a text comes before what continues it.
pub proof fn first_difference_decides(p: Seq<char>, x: char, a: Seq<char>, y: char, b: Seq<char>)
    ensures
        text_lt(p + seq![x] + a, p + seq![y] + b) <==> x < y || (x == y && text_lt(a, b)),
        text_lt(p, p + seq![x] + a),
        !text_lt(p + seq![x] + a, p),
    decreases p.len(),
{
    let s = p + seq![x] + a;
    let t = p + seq![y] + b;
    if p.len() == 0 {
        assert(s[0] == x && t[0] == y);
        assert(s.skip(1) =~= a);
        assert(t.skip(1) =~= b);
    } else {
        first_difference_decides(p.skip(1), x, a, y, b);
        assert(s[0] == p[0] && t[0] == p[0]);
        assert(s.skip(1) =~= p.skip(1) + seq![x] + a);
        assert(t.skip(1) =~= p.skip(1) + seq![y] + b);
    }
}

/// Hexadecimal numbers are written without leading zeros, most significant digit first.
pub proof fn hexadecimal_is_written_in_sixteens(n: nat)
    ensures
        n < 10 ==> hex_digits(n) == seq![(48 + n) as char],
        10 <= n < 16 ==> hex_digits(n) == seq![(87 + n) as char],
        n >= 16 ==> hex_digits(n) == hex_digits(n / 16) + hex_digits(n % 16),
{
    if n >= 16 {
        assert(hex_digits(n) =~= hex_digits(n / 16) + hex_digits(n % 16));
    }
}

} // verus!
