//! Parsed KDL documents as plain values.

use crate::text;
use vstd::prelude::*;
use vstd::string::*;

verus! {

/// A value of a node.
#[derive(Debug, PartialEq, Eq)]
pub enum KdlValue {
    /// A string.
    Text(String),
    /// An integer.
    Integer(i128),
    /// A boolean.
    Bool(bool),
    /// Null, or a number that is no integer.
    Other,
}

/// A node: its name, its values in order, and its children.
#[derive(Debug)]
pub struct KdlNode {
    /// Name.
    pub name: String,
    /// Arguments and properties.
    pub entries: Vec<KdlValue>,
    /// Children.
    pub children: Vec<KdlNode>,
}

/// A configuration that cannot be used.
#[derive(Debug, PartialEq, Eq)]
pub struct ConfigError {
    /// What is wrong, in words.
    pub message: String,
}

impl View for ConfigError {
    type V = Seq<char>;

    open spec fn view(&self) -> Seq<char> {
        self.message@
    }
}

/// The first node from `from` on with a name, or the length.
pub open spec fn find_node(nodes: Seq<KdlNode>, name: Seq<char>, from: int) -> int
    decreases nodes.len() - from,
{
    if from < 0 || from >= nodes.len() || nodes[from].name@ == name {
        from
    } else {
        find_node(nodes, name, from + 1)
    }
}

/// The first child with a name.
pub open spec fn child_of(n: KdlNode, name: Seq<char>) -> Option<KdlNode> {
    let k = find_node(n.children@, name, 0);
    if k < n.children@.len() {
        Some(n.children@[k])
    } else {
        None
    }
}

/// The text that a node carries first.
pub open spec fn first_text(n: KdlNode) -> Option<Seq<char>> {
    if n.entries@.len() > 0 {
        match n.entries@[0] {
            KdlValue::Text(s) => Some(s@),
            _ => None,
        }
    } else {
        None
    }
}

/// The text of a child.
pub open spec fn text_entry(n: KdlNode, name: Seq<char>) -> Option<Seq<char>> {
    match child_of(n, name) {
        Some(c) => first_text(c),
        None => None,
    }
}

/// The integer of a child.
pub open spec fn int_entry(n: KdlNode, name: Seq<char>) -> Option<i128> {
    match child_of(n, name) {
        Some(c) => if c.entries@.len() > 0 {
            match c.entries@[0] {
                KdlValue::Integer(i) => Some(i),
                _ => None,
            }
        } else {
            None
        },
        None => None,
    }
}

/// The boolean of a child.
pub open spec fn bool_entry(n: KdlNode, name: Seq<char>) -> Option<bool> {
    match child_of(n, name) {
        Some(c) => if c.entries@.len() > 0 {
            match c.entries@[0] {
                KdlValue::Bool(b) => Some(b),
                _ => None,
            }
        } else {
            None
        },
        None => None,
    }
}

/// A child's boolean, or a default.
pub open spec fn bool_or(n: KdlNode, name: Seq<char>, default: bool) -> bool {
    match bool_entry(n, name) {
        Some(b) => b,
        None => default,
    }
}

/// The low bits of a child's integer as a number below `modulus`, or a default.
pub open spec fn low_bits_or(n: KdlNode, name: Seq<char>, modulus: int, default: int) -> int {
    match int_entry(n, name) {
        Some(i) => i as int % modulus,
        None => default,
    }
}

/// The texts among some values.
pub open spec fn texts_of(entries: Seq<KdlValue>) -> Seq<Seq<char>>
    decreases entries.len(),
{
    if entries.len() == 0 {
        Seq::empty()
    } else {
        let rest = texts_of(entries.drop_last());
        match entries.last() {
            KdlValue::Text(s) => rest.push(s@),
            _ => rest,
        }
    }
}

/// The texts of all nodes with a name.
pub open spec fn texts_named(nodes: Seq<KdlNode>, name: Seq<char>) -> Seq<Seq<char>>
    decreases nodes.len(),
{
    if nodes.len() == 0 {
        Seq::empty()
    } else {
        let rest = texts_named(nodes.drop_last(), name);
        if nodes.last().name@ == name {
            rest + texts_of(nodes.last().entries@)
        } else {
            rest
        }
    }
}

/// The first texts of all nodes with a name, where there is one.
pub open spec fn first_texts_named(nodes: Seq<KdlNode>, name: Seq<char>) -> Seq<Seq<char>>
    decreases nodes.len(),
{
    if nodes.len() == 0 {
        Seq::empty()
    } else {
        let rest = first_texts_named(nodes.drop_last(), name);
        match first_text(nodes.last()) {
            Some(t) => if nodes.last().name@ == name {
                rest.push(t)
            } else {
                rest
            },
            None => rest,
        }
    }
}

impl KdlNode {
    /// The first child with a name.
    pub fn child(&self, name: &str) -> (r: Option<&KdlNode>)
        ensures
            (match r {
                Some(c) => child_of(*self, name@) == Some(*c),
                None => child_of(*self, name@) is None,
            }),
    {
        let mut i: usize = 0;
        while i < self.children.len()
            invariant
                i <= self.children@.len(),
                find_node(self.children@, name@, 0) == find_node(self.children@, name@, i as int),
            decreases self.children.len() - i,
        {
            if text::same(self.children[i].name.as_str(), name) {
                return Some(&self.children[i]);
            }
            i = i + 1;
        }
        None
    }

    /// The text that the node carries first.
    pub fn first_arg_string(&self) -> (r: Option<String>)
        ensures
            r.deep_view() == first_text(*self),
    {
        if self.entries.len() > 0 {
            match &self.entries[0] {
                KdlValue::Text(s) => Some(s.clone()),
                _ => None,
            }
        } else {
            None
        }
    }

    /// The text of a child.
    pub fn string_entry(&self, name: &str) -> (r: Option<String>)
        ensures
            r.deep_view() == text_entry(*self, name@),
    {
        match self.child(name) {
            Some(c) => c.first_arg_string(),
            None => None,
        }
    }

    /// The integer of a child.
    pub fn int_entry(&self, name: &str) -> (r: Option<i128>)
        ensures
            r == int_entry(*self, name@),
    {
        match self.child(name) {
            Some(c) => {
                if c.entries.len() > 0 {
                    match &c.entries[0] {
                        KdlValue::Integer(i) => Some(*i),
                        _ => None,
                    }
                } else {
                    None
                }
            },
            None => None,
        }
    }

    /// The boolean of a child.
    pub fn bool_entry(&self, name: &str) -> (r: Option<bool>)
        ensures
            r == bool_entry(*self, name@),
    {
        match self.child(name) {
            Some(c) => {
                if c.entries.len() > 0 {
                    match &c.entries[0] {
                        KdlValue::Bool(b) => Some(*b),
                        _ => None,
                    }
                } else {
                    None
                }
            },
            None => None,
        }
    }

    /// A child's boolean, or a default.
    pub fn bool_or(&self, name: &str, default: bool) -> (r: bool)
        ensures
            r == bool_or(*self, name@, default),
    {
        match self.bool_entry(name) {
            Some(b) => b,
            None => default,
        }
    }

    /// The low 64 bits of a child's integer, or a default.
    pub fn u64_or(&self, name: &str, default: u64) -> (r: u64)
        ensures
            r == low_bits_or(*self, name@, 0x1_0000_0000_0000_0000, default as int),
    {
        match self.int_entry(name) {
            Some(i) => low_64(i),
            None => default,
        }
    }

    /// The low 32 bits of a child's integer, or a default.
    pub fn u32_or(&self, name: &str, default: u32) -> (r: u32)
        ensures
            r == low_bits_or(*self, name@, 0x1_0000_0000, default as int),
    {
        match self.int_entry(name) {
            Some(i) => low_32(i),
            None => default,
        }
    }

    /// A child's integer cut to the size of an address, or a default.
    pub fn usize_or(&self, name: &str, default: usize) -> (r: usize)
        ensures
            r == low_bits_or(*self, name@, usize::MAX + 1, default as int),
    {
        match self.int_entry(name) {
            Some(i) => low_usize(i),
            None => default,
        }
    }

    /// The texts of all children with a name.
    pub fn strings_named(&self, name: &str) -> (r: Vec<String>)
        ensures
            r.deep_view() == texts_named(self.children@, name@),
            r@.len() == texts_named(self.children@, name@).len(),
    {
        let mut out: Vec<String> = Vec::new();
        let ghost all = self.children@;
        let mut i: usize = 0;
        assert(out.deep_view() =~= texts_named(all.take(0), name@));
        while i < self.children.len()
            invariant
                i <= self.children@.len(),
                all == self.children@,
                out.deep_view() == texts_named(all.take(i as int), name@),
            decreases self.children.len() - i,
        {
            let c = &self.children[i];
            assert(all.take(i + 1).drop_last() =~= all.take(i as int));
            assert(all.take(i + 1).last() == *c);
            if text::same(c.name.as_str(), name) {
                push_texts(&mut out, &c.entries);
            }
            i = i + 1;
        }
        assert(all.take(i as int) =~= all);
        assert(out@.len() == out.deep_view().len());
        out
    }

    /// The first texts of all children with a name, where there is one.
    pub fn first_strings_named(&self, name: &str) -> (r: Vec<String>)
        ensures
            r.deep_view() == first_texts_named(self.children@, name@),
    {
        let mut out: Vec<String> = Vec::new();
        let ghost all = self.children@;
        let mut i: usize = 0;
        assert(out.deep_view() =~= first_texts_named(all.take(0), name@));
        while i < self.children.len()
            invariant
                i <= self.children@.len(),
                all == self.children@,
                out.deep_view() == first_texts_named(all.take(i as int), name@),
            decreases self.children.len() - i,
        {
            let c = &self.children[i];
            assert(all.take(i + 1).drop_last() =~= all.take(i as int));
            assert(all.take(i + 1).last() == *c);
            if text::same(c.name.as_str(), name) {
                match c.first_arg_string() {
                    Some(t) => {
                        let ghost before = out.deep_view();
                        let ghost x = t@;
                        out.push(t);
                        assert(out.deep_view() =~= before.push(x));
                    },
                    None => {},
                }
            }
            i = i + 1;
        }
        assert(all.take(i as int) =~= all);
        out
    }
}

fn push_texts(out: &mut Vec<String>, entries: &Vec<KdlValue>)
    ensures
        final(out).deep_view() == old(out).deep_view() + texts_of(entries@),
{
    let ghost head = out.deep_view();
    let mut i: usize = 0;
    assert(out.deep_view() =~= head + texts_of(entries@.take(0)));
    while i < entries.len()
        invariant
            i <= entries@.len(),
            out.deep_view() == head + texts_of(entries@.take(i as int)),
        decreases entries.len() - i,
    {
        assert(entries@.take(i + 1).drop_last() =~= entries@.take(i as int));
        assert(entries@.take(i + 1).last() == entries@[i as int]);
        match &entries[i] {
            KdlValue::Text(s) => {
                let ghost before = out.deep_view();
                out.push(s.clone());
                assert(out.deep_view() =~= before.push(s@));
                assert(out.deep_view() =~= head + texts_of(entries@.take(i + 1)));
            },
            _ => {},
        }
        i = i + 1;
    }
    assert(entries@.take(i as int) =~= entries@);
}

fn low_64(i: i128) -> (r: u64)
    ensures
        r as int == i as int % 0x1_0000_0000_0000_0000,
{
    let r = i as u64;
    assert(r == (i as u128) as u64 && (i as u128) as u64 == (i as u128)
        % 0x1_0000_0000_0000_0000u128) by (bit_vector)
        requires
            r == i as u64,
    ;
    proof {
        lemma_unsigned(i);
        let u = i as u128;
        if i < 0 {
            assert((i + 0x1_0000_0000_0000_0000_0000_0000_0000_0000) % 0x1_0000_0000_0000_0000 == i
                % 0x1_0000_0000_0000_0000);
        }
    }
    r
}

fn low_32(i: i128) -> (r: u32)
    ensures
        r as int == i as int % 0x1_0000_0000,
{
    let n = low_64(i);
    (n % 0x1_0000_0000) as u32
}

fn low_usize(i: i128) -> (r: usize)
    ensures
        r as int == i as int % (usize::MAX + 1),
{
    if usize::BITS == 64 {
        let n = low_64(i);
        proof {
            lemma_same_modulus(i as int, usize::MAX + 1, 0x1_0000_0000_0000_0000);
        }
        n as usize
    } else {
        let n = low_32(i);
        proof {
            lemma_same_modulus(i as int, usize::MAX + 1, 0x1_0000_0000);
        }
        n as usize
    }
}

proof fn lemma_same_modulus(x: int, a: int, b: int)
    requires
        a == b,
    ensures
        x % a == x % b,
{
}

proof fn lemma_unsigned(i: i128)
    ensures
        (i as u128) as int == (if i < 0 {
            i + 0x1_0000_0000_0000_0000_0000_0000_0000_0000
        } else {
            i as int
        }),
{
    assert((i as u128) == (if i < 0 {
        i + 0x1_0000_0000_0000_0000_0000_0000_0000_0000
    } else {
        i + 0
    })) by (bit_vector);
}

// ---------------------------------------------------------------------------
// Laws
// ---------------------------------------------------------------------------

/// The first child with the name carries the value first.
pub open spec fn carries(n: KdlNode, name: Seq<char>, v: KdlValue) -> bool {
    exists|k: int|
        0 <= k < n.children@.len() && (#[trigger] n.children@[k]).name@ == name
            && n.children@[k].entries@.len() > 0 && n.children@[k].entries@[0] == v && forall|
            j: int,
        |
            0 <= j < k ==> (#[trigger] n.children@[j]).name@ != name
}

/// No child has the name.
pub open spec fn lacks(n: KdlNode, name: Seq<char>) -> bool {
    forall|k: int| 0 <= k < n.children@.len() ==> (#[trigger] n.children@[k]).name@ != name
}

proof fn lemma_find_node(nodes: Seq<KdlNode>, name: Seq<char>, from: int)
    requires
        0 <= from <= nodes.len(),
    ensures
        from <= find_node(nodes, name, from) <= nodes.len(),
        find_node(nodes, name, from) < nodes.len() ==> nodes[find_node(nodes, name, from)].name@
            == name,
        forall|j: int| from <= j < find_node(nodes, name, from) ==> (#[trigger] nodes[j]).name@
            != name,
    decreases nodes.len() - from,
{
    if from < nodes.len() && nodes[from].name@ != name {
        lemma_find_node(nodes, name, from + 1);
    }
}

/// A child is the first of its name, and there is none exactly if none has the name.
pub proof fn first_child_of_a_name_counts(n: KdlNode, name: Seq<char>, k: int)
    ensures
        child_of(n, name) is None <==> lacks(n, name),
        0 <= k < n.children@.len() && n.children@[k].name@ == name && (forall|j: int|
            0 <= j < k ==> (#[trigger] n.children@[j]).name@ != name) ==> child_of(n, name) == Some(
            n.children@[k],
        ),
{
    lemma_find_node(n.children@, name, 0);
    let f = find_node(n.children@, name, 0);
    if f < n.children@.len() {
        assert(n.children@[f].name@ == name);
    }
    if 0 <= k < n.children@.len() && n.children@[k].name@ == name && (forall|j: int|
        0 <= j < k ==> (#[trigger] n.children@[j]).name@ != name) {
        if f < k {
            assert(n.children@[f].name@ != name);
        }
        if k < f {
            assert(n.children@[k].name@ != name);
        }
    }
}

/// A setting is what the first child of its name carries first, if that is of its type;
/// without such a child there is no setting. A default stands in for what is missing, and a
/// number that fits is read as it is.
pub proof fn settings_are_read_from_children(n: KdlNode, name: Seq<char>, v: KdlValue)
    ensures
        carries(n, name, v) ==> {
            &&& v matches KdlValue::Text(s) ==> text_entry(n, name) == Some(s@)
            &&& !(v is Text) ==> text_entry(n, name) is None
            &&& v matches KdlValue::Integer(i) ==> int_entry(n, name) == Some(i)
            &&& !(v is Integer) ==> int_entry(n, name) is None
            &&& v matches KdlValue::Bool(b) ==> bool_entry(n, name) == Some(b)
            &&& !(v is Bool) ==> bool_entry(n, name) is None
        },
        lacks(n, name) ==> text_entry(n, name) is None && int_entry(n, name) is None && bool_entry(
            n,
            name,
        ) is None,
        forall|d: bool| bool_entry(n, name) is None ==> #[trigger] bool_or(n, name, d) == d,
        forall|d: bool|
            bool_entry(n, name) matches Some(b) ==> #[trigger] bool_or(n, name, d) == b,
        forall|m: int, d: int| int_entry(n, name) is None ==> #[trigger] low_bits_or(n, name, m, d)
            == d,
        forall|m: int, d: int|
            int_entry(n, name) matches Some(i) ==> 0 <= i < m ==> #[trigger] low_bits_or(
                n,
                name,
                m,
                d,
            ) == i,
{
    if carries(n, name, v) {
        let k = choose|k: int|
            0 <= k < n.children@.len() && (#[trigger] n.children@[k]).name@ == name
                && n.children@[k].entries@.len() > 0 && n.children@[k].entries@[0] == v && forall|
                j: int,
            |
                0 <= j < k ==> (#[trigger] n.children@[j]).name@ != name;
        first_child_of_a_name_counts(n, name, k);
    }
    first_child_of_a_name_counts(n, name, 0);
    assert forall|m: int, d: int|
        int_entry(n, name) matches Some(i) ==> 0 <= i < m ==> #[trigger] low_bits_or(
            n,
            name,
            m,
            d,
        ) == i by {
        if let Some(i) = int_entry(n, name) {
            if 0 <= i < m {
                let x = i as int;
                assert(x % m == x) by (nonlinear_arith)
                    requires
                        0 <= x < m,
                ;
            }
        }
    }
}

/// The texts of a list of values are its strings, in order; the texts of a name are those
/// of all nodes with the name, in order.
pub proof fn texts_are_collected(
    entries: Seq<KdlValue>,
    v: KdlValue,
    list: Seq<KdlNode>,
    n: KdlNode,
    name: Seq<char>,
)
    ensures
        texts_of(Seq::empty()) == Seq::<Seq<char>>::empty(),
        v matches KdlValue::Text(s) ==> texts_of(entries.push(v)) == texts_of(entries).push(s@),
        !(v is Text) ==> texts_of(entries.push(v)) == texts_of(entries),
        texts_named(Seq::empty(), name) == Seq::<Seq<char>>::empty(),
        n.name@ == name ==> texts_named(list.push(n), name) == texts_named(list, name) + texts_of(
            n.entries@,
        ),
        n.name@ != name ==> texts_named(list.push(n), name) == texts_named(list, name),
        first_texts_named(Seq::empty(), name) == Seq::<Seq<char>>::empty(),
        n.name@ == name && n.entries@.len() > 0 ==> (n.entries@[0] matches KdlValue::Text(s)
            ==> first_texts_named(list.push(n), name) == first_texts_named(list, name).push(s@)),
        n.name@ != name || n.entries@.len() == 0 || !(n.entries@[0] is Text) ==> first_texts_named(
            list.push(n),
            name,
        ) == first_texts_named(list, name),
{
    assert(entries.push(v).drop_last() =~= entries);
    assert(list.push(n).drop_last() =~= list);
}

} // verus!
