//! Building blocks of the o5m binary encoding: zero-delimited strings, the
//! base-128 length coding for unsigned numbers, and the recent-string table
//! that lets a repeated pair be written as a back-reference.

use vstd::prelude::*;

use crate::elements::{Element, ElementType};
use vstd::multiset::Multiset;
use vstd::string::StringSliceAdditionalSpecFns;

verus! {

/// `n` in base-128 groups, low group first, high bit of a byte flagging a
/// following group; zero encodes as no bytes at all.
pub open spec fn varint_of(n: nat) -> Seq<u8>
    decreases n,
{
    if n == 0 {
        Seq::empty()
    } else if n / 128 == 0 {
        seq![(n % 128) as u8]
    } else {
        seq![((n % 128) + 128) as u8] + varint_of(n / 128)
    }
}

/// Appends the base-128 coding of `value` to `out`.
fn push_varint(out: &mut Vec<u8>, value: u64)
    ensures
        final(out)@ == old(out)@ + varint_of(value as nat),
{
    proof {
        assert(old(out)@ + varint_of(0) =~= old(out)@);
    }
    let mut m: u64 = value;
    while m != 0
        invariant
            old(out)@ + varint_of(value as nat) == out@ + varint_of(m as nat),
        decreases m,
    {
        let low: u64 = m % 128;
        let next: u64 = m / 128;
        let b: u8 = if next != 0 {
            (low + 128) as u8
        } else {
            low as u8
        };
        proof {
            assert(varint_of(m as nat) =~= seq![b] + varint_of(next as nat));
            assert(out@ + varint_of(m as nat) =~= out@.push(b) + varint_of(next as nat));
        }
        out.push(b);
        m = next;
    }
    proof {
        assert(out@ + varint_of(0) =~= out@);
    }
}

/// A single string in o5m form: the bytes between two zero bytes.
pub fn convert_string(input: &str) -> (r: Vec<u8>)
    ensures
        r@ == seq![0u8] + input.spec_bytes() + seq![0u8],
{
    let mut output: Vec<u8> = Vec::new();
    output.push(0x00);
    output.extend_from_slice(input.as_bytes());
    output.push(0x00);
    proof {
        assert(output@ =~= seq![0u8] + input.spec_bytes() + seq![0u8]);
    }
    output
}

/// A tag in o5m form: key and value, each closed by a zero byte, after a
/// leading zero byte.
pub fn convert_tag(key: &str, value: &str) -> (r: Vec<u8>)
    ensures
        r@ == seq![0u8] + key.spec_bytes() + seq![0u8] + value.spec_bytes() + seq![0u8],
{
    let mut output: Vec<u8> = Vec::new();
    output.push(0x00);
    output.extend_from_slice(key.as_bytes());
    output.push(0x00);
    output.extend_from_slice(value.as_bytes());
    output.push(0x00);
    proof {
        assert(output@ =~= seq![0u8] + key.spec_bytes() + seq![0u8] + value.spec_bytes() + seq![
            0u8,
        ]);
    }
    output
}

/// A non-negative identifier in base-128 form.  A negative value has no
/// such form and is refused by precondition, deliberately: the encoding's
/// domain here is the unsigned range, as the gathering that feeds it checks.
pub fn convert_i64_as_unsigned(input: i64) -> (r: Vec<u8>)
    requires
        input >= 0,
    ensures
        r@ == varint_of(input as nat),
{
    let mut output: Vec<u8> = Vec::new();
    push_varint(&mut output, input as u64);
    proof {
        assert(Seq::<u8>::empty() + varint_of(input as nat) =~= varint_of(input as nat));
    }
    output
}

/// A user in o5m form: a zero byte, the base-128 user id, a zero byte, the
/// name's bytes, and a closing zero byte.  A negative id has no base-128
/// form and is refused by precondition, deliberately.
pub fn convert_user(uid: i32, username: String) -> (r: Vec<u8>)
    requires
        0 <= uid,
    ensures
        r@ == seq![0u8] + varint_of(uid as nat) + seq![0u8] + vstd::utf8::encode_utf8(username@) + seq![0u8],
{
    let mut output: Vec<u8> = Vec::new();
    output.push(0x00);
    push_varint(&mut output, uid as u64);
    output.push(0x00);
    output.extend_from_slice(username.as_str().as_bytes());
    output.push(0x00);
    proof {
        assert(output@ =~= seq![0u8] + varint_of(uid as nat) + seq![0u8] + vstd::utf8::encode_utf8(username@)
            + seq![0u8]);
    }
    output
}

/// A table index in base-128 form.
pub fn convert_index(index: usize) -> (r: Vec<u8>)
    ensures
        r@ == varint_of(index as nat),
{
    let mut output: Vec<u8> = Vec::new();
    push_varint(&mut output, index as u64);
    proof {
        assert(Seq::<u8>::empty() + varint_of(index as nat) =~= varint_of(index as nat));
    }
    output
}

/// One encoded key/value pair held by the string table.
#[derive(Debug, Clone)]
pub struct StringPair(pub Vec<u8>);

/// The table of recently written strings; a repeat within its window is
/// written as a one-based back-reference instead of its bytes.
#[derive(Debug)]
pub struct StringTable {
    cached_tags: Vec<StringPair>,
}

/// How many entries the table holds at most.
pub open spec fn table_window() -> int {
    15000
}

/// The first index of `b` in `tbl`, or -1.
pub open spec fn spec_position(tbl: Seq<Seq<u8>>, b: Seq<u8>) -> int
    decreases tbl.len(),
{
    if tbl.len() == 0 {
        -1
    } else if tbl[0] == b {
        0
    } else {
        let r = spec_position(tbl.drop_first(), b);
        if r < 0 {
            -1
        } else {
            r + 1
        }
    }
}

/// Whether `a` and `b` hold the same bytes.
fn bytes_eq(a: &Vec<u8>, b: &Vec<u8>) -> (r: bool)
    ensures
        r == (a@ == b@),
{
    if a.len() != b.len() {
        return false;
    }
    let mut i: usize = 0;
    while i < a.len()
        invariant
            i <= a@.len(),
            a@.len() == b@.len(),
            forall|j: int| 0 <= j < i ==> a@[j] == b@[j],
        decreases a@.len() - i,
    {
        if a[i] != b[i] {
            return false;
        }
        i = i + 1;
    }
    proof {
        assert(a@ =~= b@);
    }
    true
}

impl StringTable {
    /// The table's entries, most recent first.
    pub closed spec fn view_entries(&self) -> Seq<Seq<u8>> {
        self.cached_tags@.map_values(|p: StringPair| p.0@)
    }

    /// An empty table.
    pub fn new() -> (t: StringTable)
        ensures
            t.view_entries() == Seq::<Seq<u8>>::empty(),
    {
        let t = StringTable { cached_tags: Vec::new() };
        proof {
            assert(t.view_entries() =~= Seq::<Seq<u8>>::empty());
        }
        t
    }

    /// Writes `bytes` through the table: a known entry leaves as its
    /// one-based index in base-128 form and the table stands unmoved; a new
    /// entry leaves as its own bytes and joins the table's front, the window
    /// trimmed to its size.
    pub fn hit_cache(&mut self, bytes: Vec<u8>) -> (r: Vec<u8>)
        ensures
            ({
                let pos = spec_position(old(self).view_entries(), bytes@);
                if pos >= 0 {
                    r@ == varint_of((pos + 1) as nat) && final(self).view_entries() == old(
                        self,
                    ).view_entries()
                } else {
                    r@ == bytes@ && final(self).view_entries() == (seq![bytes@] + old(
                        self,
                    ).view_entries()).take(
                        if old(self).view_entries().len() + 1 <= table_window() {
                            old(self).view_entries().len() + 1int
                        } else {
                            table_window()
                        },
                    )
                }
            }),
    {
        let ghost tbl = self.view_entries();
        let mut i: usize = 0;
        proof {
            assert(tbl.skip(0) =~= tbl);
        }
        while i < self.cached_tags.len()
            invariant
                i <= self.cached_tags@.len(),
                tbl == self.view_entries(),
                tbl.len() == self.cached_tags@.len(),
                spec_position(tbl, bytes@) == if spec_position(tbl.skip(i as int), bytes@) < 0 {
                    -1int
                } else {
                    i + spec_position(tbl.skip(i as int), bytes@)
                },
            decreases self.cached_tags@.len() - i,
        {
            proof {
                assert(tbl.skip(i as int)[0] == tbl[i as int]);
                assert(tbl.skip(i as int).drop_first() =~= tbl.skip(i + 1));
            }
            if bytes_eq(&self.cached_tags[i].0, &bytes) {
                proof {
                    assert(spec_position(tbl.skip(i as int), bytes@) == 0);
                    assert(spec_position(tbl, bytes@) == i as int);
                }
                return convert_index(i + 1);
            }
            i = i + 1;
        }
        proof {
            assert(tbl.skip(tbl.len() as int).len() == 0);
            assert(spec_position(tbl.skip(tbl.len() as int), bytes@) == -1);
            assert(spec_position(tbl, bytes@) < 0);
        }
        let r = clone_bytes(&bytes);
        self.cached_tags.insert(0, StringPair(bytes));
        self.cached_tags.truncate(15000);
        proof {
            if tbl.len() + 1int <= 15000 {
                assert(self.view_entries() =~= (seq![r@] + tbl).take(tbl.len() + 1int));
            } else {
                assert(self.view_entries() =~= (seq![r@] + tbl).take(15000));
            }
        }
        r
    }
}

/// A fresh vector holding the bytes of `b`.
fn clone_bytes(b: &Vec<u8>) -> (r: Vec<u8>)
    ensures
        r@ == b@,
{
    let mut out: Vec<u8> = Vec::new();
    let mut i: usize = 0;
    while i < b.len()
        invariant
            i <= b@.len(),
            out@ == b@.take(i as int),
        decreases b@.len() - i,
    {
        out.push(b[i]);
        proof {
            assert(b@.take(i + 1) =~= b@.take(i as int).push(b@[i as int]));
        }
        i = i + 1;
    }
    proof {
        assert(b@.take(b@.len() as int) =~= b@);
    }
    out
}

/// The o5m type code of an element's shape.
pub open spec fn spec_o5m_code(ty: ElementType) -> u8 {
    match ty {
        ElementType::Node { .. } => 0x10,
        ElementType::Way { .. } => 0x11,
        ElementType::Relation { .. } => 0x12,
    }
}

/// The opening of an element's o5m record: its type code, its identifier in
/// base-128 form, and a zero byte closing the (empty) version information.
pub fn convert_element(element: &Element) -> (r: Vec<u8>)
    requires
        element.id >= 0,
    ensures
        r@ == seq![spec_o5m_code(element.element_type)] + varint_of(element.id as nat) + seq![0u8],
{
    let mut output: Vec<u8> = Vec::new();
    match &element.element_type {
        ElementType::Node { .. } => output.push(0x10),
        ElementType::Way { .. } => output.push(0x11),
        ElementType::Relation { .. } => output.push(0x12),
    }
    push_varint(&mut output, element.id as u64);
    output.push(0x00);
    proof {
        assert(output@ =~= seq![spec_o5m_code(element.element_type)] + varint_of(element.id as nat)
            + seq![0u8]);
    }
    output
}

} // verus!

verus! {

/// Identifiers never descend through `es`.
pub open spec fn sorted_by_id(es: Seq<Element>) -> bool {
    forall|i: int, j: int| 0 <= i < j < es.len() ==> (#[trigger] es[i]).id <= (#[trigger] es[j]).id
}

/// The elements of `es` whose shape is `k`, in their order.
pub open spec fn of_kind_elems(es: Seq<Element>, k: crate::elements::SimpleElementType) -> Seq<
    Element,
>
    decreases es.len(),
{
    if es.len() == 0 {
        Seq::empty()
    } else {
        (if crate::writers::xml::spec_kind(es[0]@.element_type) == k {
            seq![es[0]]
        } else {
            Seq::<Element>::empty()
        }) + of_kind_elems(es.drop_first(), k)
    }
}

/// The per-kind selection grows at the back as the prefix grows.
proof fn lemma_of_kind_elems_take_step(
    es: Seq<Element>,
    k: crate::elements::SimpleElementType,
    i: int,
)
    requires
        0 <= i < es.len(),
    ensures
        of_kind_elems(es.take(i + 1), k) == of_kind_elems(es.take(i), k) + (if
        crate::writers::xml::spec_kind(es[i]@.element_type) == k {
            seq![es[i]]
        } else {
            Seq::<Element>::empty()
        }),
    decreases i,
{
    if i == 0 {
        assert(es.take(1)[0] == es[0]);
        assert(es.take(1).drop_first().len() == 0);
        assert(es.take(0).len() == 0);
        assert(of_kind_elems(es.take(1).drop_first(), k) =~= Seq::<Element>::empty());
        assert(of_kind_elems(es.take(0), k) =~= Seq::<Element>::empty());
        assert(of_kind_elems(es.take(1), k) =~= of_kind_elems(es.take(0), k) + (if
        crate::writers::xml::spec_kind(es[0]@.element_type) == k {
            seq![es[0]]
        } else {
            Seq::<Element>::empty()
        }));
    } else {
        lemma_of_kind_elems_take_step(es.drop_first(), k, i - 1);
        assert(es.take(i + 1)[0] == es[0]);
        assert(es.take(i)[0] == es[0]);
        assert(es.take(i + 1).drop_first() =~= es.drop_first().take(i));
        assert(es.take(i).drop_first() =~= es.drop_first().take(i - 1));
        assert(es.drop_first()[i - 1] == es[i]);
        assert(of_kind_elems(es.take(i + 1), k) =~= of_kind_elems(es.take(i), k) + (if
        crate::writers::xml::spec_kind(es[i]@.element_type) == k {
            seq![es[i]]
        } else {
            Seq::<Element>::empty()
        }));
    }
}

/// Inserts `e` where identifiers keep ascending.
#[verifier::loop_isolation(false)]
fn insert_by_id(out: &mut Vec<Element>, e: Element)
    requires
        sorted_by_id(old(out)@),
    ensures
        sorted_by_id(final(out)@),
        final(out)@.to_multiset() == old(out)@.to_multiset().insert(e),
{
    let mut k: usize = 0;
    while k < out.len() && out[k].id <= e.id
        invariant
            k <= out@.len(),
            forall|j: int| 0 <= j < k ==> (#[trigger] out@[j]).id <= e.id,
        decreases out@.len() - k,
    {
        k = k + 1;
    }
    let ghost before = out@;
    out.insert(k, e);
    proof {
        vstd::seq_lib::to_multiset_insert(before, k as int, e);
        assert(out@ =~= before.take(k as int) + seq![e] + before.skip(k as int));
        assert forall|a: int, b: int|
            0 <= a < b < out@.len() implies (#[trigger] out@[a]).id <= (#[trigger] out@[b]).id by {
            if a < k {
                assert(out@[a] == before[a]);
            }
            if b < k {
                assert(out@[b] == before[b]);
            }
            if a > k {
                assert(out@[a] == before[a - 1]);
            }
            if b > k {
                assert(out@[b] == before[b - 1]);
                if (k as int) < before.len() {
                    assert(before[k as int].id > e.id);
                }
            }
        }
    }
}

/// The elements of `v`, ascending by identifier: the same gathering, put in
/// order.
#[verifier::loop_isolation(false)]
fn sort_by_id_vec(v: Vec<Element>) -> (r: Vec<Element>)
    ensures
        sorted_by_id(r@),
        r@.to_multiset() == v@.to_multiset(),
{
    broadcast use vstd::seq_lib::group_to_multiset_ensures;
    broadcast use vstd::multiset::group_multiset_axioms;

    let mut out: Vec<Element> = Vec::new();
    let mut rest = v;
    proof {
        assert(out@.to_multiset() =~= Multiset::<Element>::empty());
        assert(out@.to_multiset().add(rest@.to_multiset()) =~= v@.to_multiset());
    }
    loop
        invariant
            sorted_by_id(out@),
            out@.to_multiset().add(rest@.to_multiset()) == v@.to_multiset(),
        decreases rest@.len(),
    {
        let ghost out0 = out@;
        let ghost rest0 = rest@;
        let e = match rest.pop() {
            Option::Some(e) => e,
            Option::None => {
                proof {
                    assert(rest@.to_multiset() =~= Multiset::<Element>::empty());
                    assert(out@.to_multiset().add(rest@.to_multiset()) =~= out@.to_multiset());
                }
                return out;
            },
        };
        proof {
            assert(rest@ =~= rest0.remove(rest0.len() - 1));
            vstd::seq_lib::to_multiset_remove(rest0, rest0.len() - 1);
            assert(rest0.to_multiset().contains(e));
        }
        insert_by_id(&mut out, e);
        proof {
            assert(out@.to_multiset().add(rest@.to_multiset()) =~= v@.to_multiset());
        }
    }
}

/// Elements held back until the stream ends, grouped as the o5m encoding
/// writes them: nodes, then ways, then relations.
#[derive(Debug)]
pub struct WaitingElements {
    nodes: Vec<Element>,
    ways: Vec<Element>,
    relations: Vec<Element>,
}

impl WaitingElements {
    /// The nodes held back, in their order.
    pub closed spec fn view_nodes(&self) -> Seq<Element> {
        self.nodes@
    }

    /// The ways held back, in their order.
    pub closed spec fn view_ways(&self) -> Seq<Element> {
        self.ways@
    }

    /// The relations held back, in their order.
    pub closed spec fn view_relations(&self) -> Seq<Element> {
        self.relations@
    }

    /// Holds nothing yet.
    pub fn new() -> (r: WaitingElements)
        ensures
            r.view_nodes() == Seq::<Element>::empty(),
            r.view_ways() == Seq::<Element>::empty(),
            r.view_relations() == Seq::<Element>::empty(),
    {
        WaitingElements { nodes: Vec::new(), ways: Vec::new(), relations: Vec::new() }
    }

    /// Gathers a stream into its three kinds, each kind's order kept.
    #[verifier::loop_isolation(false)]
    pub fn from(elements: Vec<Element>) -> (r: WaitingElements)
        ensures
            r.view_nodes() == of_kind_elems(elements@, crate::elements::SimpleElementType::Node),
            r.view_ways() == of_kind_elems(elements@, crate::elements::SimpleElementType::Way),
            r.view_relations() == of_kind_elems(
                elements@,
                crate::elements::SimpleElementType::Relation,
            ),
    {
        let ghost es = elements@;
        let mut new_instance = WaitingElements::new();
        let mut rest = elements;
        let mut i: usize = 0;
        let n = rest.len();
        proof {
            assert(of_kind_elems(es.take(0), crate::elements::SimpleElementType::Node) =~= Seq::<
                Element,
            >::empty());
            assert(of_kind_elems(es.take(0), crate::elements::SimpleElementType::Way) =~= Seq::<
                Element,
            >::empty());
            assert(of_kind_elems(es.take(0), crate::elements::SimpleElementType::Relation)
                =~= Seq::<Element>::empty());
        }
        while i < n
            invariant
                i + rest@.len() == n == es.len(),
                forall|j: int| 0 <= j < rest@.len() ==> (#[trigger] rest@[j]) == es[i + j],
                new_instance.nodes@ == of_kind_elems(
                    es.take(i as int),
                    crate::elements::SimpleElementType::Node,
                ),
                new_instance.ways@ == of_kind_elems(
                    es.take(i as int),
                    crate::elements::SimpleElementType::Way,
                ),
                new_instance.relations@ == of_kind_elems(
                    es.take(i as int),
                    crate::elements::SimpleElementType::Relation,
                ),
            decreases n - i,
        {
            proof {
                lemma_of_kind_elems_take_step(es, crate::elements::SimpleElementType::Node, i as int);
                lemma_of_kind_elems_take_step(es, crate::elements::SimpleElementType::Way, i as int);
                lemma_of_kind_elems_take_step(
                    es,
                    crate::elements::SimpleElementType::Relation,
                    i as int,
                );
            }
            let element = rest.remove(0);
            proof {
                assert(element == es[i as int]);
            }
            match &element.element_type {
                ElementType::Node { .. } => {
                    new_instance.nodes.push(element);
                    proof {
                        assert(new_instance.nodes@ =~= of_kind_elems(
                            es.take(i + 1),
                            crate::elements::SimpleElementType::Node,
                        ));
                    }
                },
                ElementType::Way { .. } => {
                    new_instance.ways.push(element);
                    proof {
                        assert(new_instance.ways@ =~= of_kind_elems(
                            es.take(i + 1),
                            crate::elements::SimpleElementType::Way,
                        ));
                    }
                },
                ElementType::Relation { .. } => {
                    new_instance.relations.push(element);
                    proof {
                        assert(new_instance.relations@ =~= of_kind_elems(
                            es.take(i + 1),
                            crate::elements::SimpleElementType::Relation,
                        ));
                    }
                },
            }
            i = i + 1;
        }
        proof {
            assert(es.take(es.len() as int) =~= es);
        }
        new_instance
    }

    /// Puts each kind in ascending identifier order, keeping each kind's
    /// gathering.
    pub fn sort(&mut self)
        ensures
            sorted_by_id(final(self).view_nodes()),
            sorted_by_id(final(self).view_ways()),
            sorted_by_id(final(self).view_relations()),
            final(self).view_nodes().to_multiset() == old(self).view_nodes().to_multiset(),
            final(self).view_ways().to_multiset() == old(self).view_ways().to_multiset(),
            final(self).view_relations().to_multiset() == old(self).view_relations().to_multiset(),
    {
        let mut nodes: Vec<Element> = Vec::new();
        core::mem::swap(&mut self.nodes, &mut nodes);
        self.nodes = sort_by_id_vec(nodes);
        let mut ways: Vec<Element> = Vec::new();
        core::mem::swap(&mut self.ways, &mut ways);
        self.ways = sort_by_id_vec(ways);
        let mut relations: Vec<Element> = Vec::new();
        core::mem::swap(&mut self.relations, &mut relations);
        self.relations = sort_by_id_vec(relations);
    }

    /// The held elements in writing order: nodes, then ways, then relations.
    pub fn into_elements(self) -> (r: Vec<Element>)
        ensures
            r@ == self.view_nodes() + self.view_ways() + self.view_relations(),
    {
        let WaitingElements { mut nodes, mut ways, mut relations } = self;
        nodes.append(&mut ways);
        nodes.append(&mut relations);
        nodes
    }
}

} // verus!
