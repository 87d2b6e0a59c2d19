//! The OPL text encoding: one line per element, fields led by one-letter
//! markers, with a `%`-hexadecimal-`%` escape for characters outside OPL's
//! safe set.

use vstd::prelude::*;

use crate::elements::{Element, ElementType, ElementTypeView, ElementView, MemberView,
    SimpleElementType};
use crate::text::{
    chars_to_string, push_coord, push_dec_i64, push_hex_u32, spec_coord_of, spec_dec_of_int,
    spec_hex_of, str_to_chars,
};

verus! {

/// Whether OPL writes `input` escaped.  The safe set follows the Osmium OPL
/// implementation.
pub open spec fn spec_should_escape(c: char) -> bool {
    !(('\u{0021}' <= c <= '\u{0024}') || ('\u{0026}' <= c <= '\u{002b}') || ('\u{002d}' <= c
        <= '\u{003c}') || ('\u{003e}' <= c <= '\u{003f}') || ('\u{0041}' <= c <= '\u{007e}') || (
    '\u{00a1}' <= c <= '\u{00ac}') || ('\u{00ae}' <= c <= '\u{05ff}'))
}

/// One escaped character: its code point in lower-case hexadecimal between
/// two `%` signs.
pub open spec fn spec_escape_char(c: char) -> Seq<char> {
    seq!['%'] + spec_hex_of(c as nat) + seq!['%']
}

/// A whole string in OPL form: safe characters as they are, the rest
/// escaped.
pub open spec fn spec_escape(s: Seq<char>) -> Seq<char>
    decreases s.len(),
{
    if s.len() == 0 {
        Seq::empty()
    } else {
        (if spec_should_escape(s[0]) {
            spec_escape_char(s[0])
        } else {
            seq![s[0]]
        }) + spec_escape(s.drop_first())
    }
}

/// Whether OPL writes `input` escaped, as `spec_should_escape` has it.
pub fn should_escape_char(input: char) -> (r: bool)
    ensures
        r == spec_should_escape(input),
{
    !(('\u{0021}' <= input && input <= '\u{0024}') || ('\u{0026}' <= input && input <= '\u{002b}')
        || ('\u{002d}' <= input && input <= '\u{003c}') || ('\u{003e}' <= input && input
        <= '\u{003f}') || ('\u{0041}' <= input && input <= '\u{007e}') || ('\u{00a1}' <= input
        && input <= '\u{00ac}') || ('\u{00ae}' <= input && input <= '\u{05ff}'))
}

/// Appends `input`'s escape — `%`, its code point in hexadecimal, `%` — to
/// `base`.
pub fn push_escaped_char(base: &mut String, input: char)
    ensures
        final(base)@ == old(base)@ + spec_escape_char(input),
{
    let mut cs: Vec<char> = Vec::new();
    cs.push('%');
    proof {
        assert(cs@ =~= seq!['%']);
    }
    push_hex_u32(&mut cs, input as u32);
    cs.push('%');
    let piece = chars_to_string(&cs);
    append_str(base, &piece);
    proof {
        assert(old(base)@ + (seq!['%'] + spec_hex_of(input as nat)).push('%') =~= old(base)@
            + spec_escape_char(input));
    }
}

/// Appends `input` to `base`, escaping each unsafe character.
pub fn push_escaped_string(base: &mut String, input: &str)
    ensures
        final(base)@ == old(base)@ + spec_escape(input@),
{
    let cs = str_to_chars(input);
    let mut i: usize = 0;
    proof {
        assert(cs@.skip(0) =~= cs@);
    }
    while i < cs.len()
        invariant
            i <= cs@.len(),
            cs@ == input@,
            old(base)@ + spec_escape(input@) == base@ + spec_escape(cs@.skip(i as int)),
        decreases cs@.len() - i,
    {
        let ghost rest = cs@.skip(i as int);
        proof {
            assert(rest[0] == cs@[i as int]);
            assert(rest.drop_first() =~= cs@.skip(i + 1));
        }
        let c = cs[i];
        if should_escape_char(c) {
            push_escaped_char(base, c);
            proof {
                assert(base@ + spec_escape(cs@.skip(i + 1)) =~= old(base)@ + spec_escape(input@));
            }
        } else {
            push_char(base, c);
            proof {
                assert(base@ + spec_escape(cs@.skip(i + 1)) =~= old(base)@ + spec_escape(input@));
            }
        }
        i = i + 1;
    }
    proof {
        assert(spec_escape(cs@.skip(cs@.len() as int)) =~= Seq::<char>::empty());
        assert(base@ + Seq::<char>::empty() =~= base@);
    }
}

/// Appends one character to `base`.
pub fn push_char(base: &mut String, c: char)
    ensures
        final(base)@ == old(base)@ + seq![c],
{
    let mut cs: Vec<char> = Vec::new();
    cs.push(c);
    let piece = chars_to_string(&cs);
    append_str(base, &piece);
    proof {
        assert(old(base)@ + cs@ =~= old(base)@ + seq![c]);
    }
}

/// Appends a borrowed string to `base`.
pub fn append_str(base: &mut String, piece: &String)
    ensures
        final(base)@ == old(base)@ + piece@,
{
    vstd::string::StringExecFns::append(base, piece.as_str());
}

/// Appends a literal to `base`.
pub fn append_lit(base: &mut String, piece: &str)
    ensures
        final(base)@ == old(base)@ + piece@,
{
    vstd::string::StringExecFns::append(base, piece);
}

/// The line-leading character of an element's shape.
pub open spec fn spec_opl_type_char(e: ElementView) -> char {
    match e.element_type {
        ElementTypeView::Node { .. } => 'n',
        ElementTypeView::Way { .. } => 'w',
        ElementTypeView::Relation { .. } => 'r',
    }
}

/// The version and visibility fields a line carries.
pub open spec fn spec_opl_prov_a(e: ElementView) -> Seq<char> {
    (match e.version {
        Option::Some(v) => " v"@ + spec_dec_of_int(v),
        Option::None => Seq::<char>::empty(),
    }) + (match e.visible {
        Option::Some(true) => " dV"@,
        Option::Some(false) => " dD"@,
        Option::None => Seq::<char>::empty(),
    }) + (match e.changeset {
        Option::Some(c) => " c"@ + spec_dec_of_int(c),
        Option::None => Seq::<char>::empty(),
    })
}

/// The timestamp and author fields a line carries; the author's name is
/// escaped, the timestamp written as it stands.
pub open spec fn spec_opl_prov_b(e: ElementView) -> Seq<char> {
    (match e.timestamp {
        Option::Some(t) => " t"@ + t,
        Option::None => Seq::<char>::empty(),
    }) + (match e.uid {
        Option::Some(u) => " i"@ + spec_dec_of_int(u),
        Option::None => Seq::<char>::empty(),
    }) + (match e.user {
        Option::Some(u) => " u"@ + spec_escape(u),
        Option::None => Seq::<char>::empty(),
    })
}

/// Tag pairs as `key=value`, both sides escaped, joined by commas.
pub open spec fn spec_opl_tags(ts: Seq<(Seq<char>, Seq<char>)>, leading: bool) -> Seq<char>
    decreases ts.len(),
{
    if ts.len() == 0 {
        Seq::empty()
    } else {
        (if leading {
            seq![',']
        } else {
            Seq::<char>::empty()
        }) + spec_escape(ts[0].0) + seq!['='] + spec_escape(ts[0].1) + spec_opl_tags(
            ts.drop_first(),
            true,
        )
    }
}

/// Way node references as `n` and the identifier, joined by commas.
pub open spec fn spec_opl_nodes(ids: Seq<int>, leading: bool) -> Seq<char>
    decreases ids.len(),
{
    if ids.len() == 0 {
        Seq::empty()
    } else {
        (if leading {
            seq![',']
        } else {
            Seq::<char>::empty()
        }) + seq!['n'] + spec_dec_of_int(ids[0]) + spec_opl_nodes(ids.drop_first(), true)
    }
}

/// One member: its type's character, its reference, `@`, and its escaped
/// role — nothing after the `@` when the role is absent.
pub open spec fn spec_opl_member(m: MemberView) -> Seq<char> {
    (match m.t {
        Option::Some(SimpleElementType::Node) => seq!['n'],
        Option::Some(SimpleElementType::Way) => seq!['w'],
        Option::Some(SimpleElementType::Relation) => seq!['r'],
        Option::None => Seq::<char>::empty(),
    }) + spec_dec_of_int(m.id) + seq!['@'] + (match m.role {
        Option::Some(r) => spec_escape(r),
        Option::None => Seq::<char>::empty(),
    })
}

/// Members joined by commas.
pub open spec fn spec_opl_members(ms: Seq<MemberView>, leading: bool) -> Seq<char>
    decreases ms.len(),
{
    if ms.len() == 0 {
        Seq::empty()
    } else {
        (if leading {
            seq![',']
        } else {
            Seq::<char>::empty()
        }) + spec_opl_member(ms[0]) + spec_opl_members(ms.drop_first(), true)
    }
}

/// The shape-specific tail of a line: a node's position, a way's node
/// references, or a relation's members.
pub open spec fn spec_opl_shape(e: ElementView) -> Seq<char> {
    match e.element_type {
        ElementTypeView::Node { lat, lon } => " x"@ + spec_coord_of(lon) + " y"@ + spec_coord_of(
            lat,
        ),
        ElementTypeView::Way { nodes } => " N"@ + spec_opl_nodes(nodes, false),
        ElementTypeView::Relation { members } => " M"@ + spec_opl_members(members, false),
    }
}

/// One element's OPL line: its shape's character and identifier, the
/// provenance fields, the tag list after ` T`, the shape's tail, and a line
/// break.
pub open spec fn spec_opl_line(e: ElementView) -> Seq<char> {
    seq![spec_opl_type_char(e)] + spec_dec_of_int(e.id) + spec_opl_prov_a(e) + spec_opl_prov_b(e)
        + " T"@ + spec_opl_tags(e.tags, false) + spec_opl_shape(e) + seq!['\n']
}

/// Whether a line can be written: coordinates clear of the one
/// unrepresentable value, and every member carrying its type.
pub open spec fn spec_opl_ok(e: ElementView) -> bool {
    match e.element_type {
        ElementTypeView::Node { lat, lon } => lat > i64::MIN && lon > i64::MIN,
        ElementTypeView::Way { .. } => true,
        ElementTypeView::Relation { members } => forall|j: int|
            0 <= j < members.len() ==> (#[trigger] members[j]).t is Some,
    }
}

/// Appends `n` in decimal to `base`.
fn append_dec(base: &mut String, n: i64)
    ensures
        final(base)@ == old(base)@ + spec_dec_of_int(n as int),
{
    let mut cs: Vec<char> = Vec::new();
    push_dec_i64(&mut cs, n);
    let piece = chars_to_string(&cs);
    append_str(base, &piece);
}

/// Appends the version, visibility and changeset fields of `element`.
#[verifier::rlimit(100)]
fn append_opl_prov_a(base: &mut String, element: &Element)
    ensures
        final(base)@ == old(base)@ + spec_opl_prov_a(element@),
{
    match &element.version {
        Option::Some(v) => {
            append_lit(base, " v");
            append_dec(base, *v as i64);
        },
        Option::None => {},
    }
    match &element.visible {
        Option::Some(true) => append_lit(base, " dV"),
        Option::Some(false) => append_lit(base, " dD"),
        Option::None => {},
    }
    match &element.changeset {
        Option::Some(c) => {
            append_lit(base, " c");
            append_dec(base, *c);
        },
        Option::None => {},
    }
    proof {
        assert(base@ =~= old(base)@ + spec_opl_prov_a(element@));
    }
}

/// Appends the timestamp and author fields of `element`.
#[verifier::rlimit(100)]
fn append_opl_prov_b(base: &mut String, element: &Element)
    ensures
        final(base)@ == old(base)@ + spec_opl_prov_b(element@),
{
    match &element.timestamp {
        Option::Some(t) => {
            append_lit(base, " t");
            append_str(base, t);
        },
        Option::None => {},
    }
    match &element.uid {
        Option::Some(u) => {
            append_lit(base, " i");
            append_dec(base, *u as i64);
        },
        Option::None => {},
    }
    match &element.user {
        Option::Some(u) => {
            append_lit(base, " u");
            push_escaped_string(base, u.as_str());
        },
        Option::None => {},
    }
    proof {
        assert(base@ =~= old(base)@ + spec_opl_prov_b(element@));
    }
}

/// Appends the tag list of `element`, pairs joined by commas.
#[verifier::loop_isolation(false)]
fn append_opl_tags(base: &mut String, element: &Element)
    ensures
        final(base)@ == old(base)@ + spec_opl_tags(element@.tags, false),
{
    let ghost ts = element@.tags;
    let mut i: usize = 0;
    proof {
        assert(ts.skip(0) =~= ts);
        assert(base@ + spec_opl_tags(ts, false) =~= old(base)@ + spec_opl_tags(ts, false));
    }
    while i < element.tags.len()
        invariant
            i <= ts.len(),
            ts == element.tags@,
            old(base)@ + spec_opl_tags(ts, false) == base@ + spec_opl_tags(
                ts.skip(i as int),
                i > 0,
            ),
        decreases ts.len() - i,
    {
        let ghost rest = ts.skip(i as int);
        let ghost base0 = base@;
        proof {
            assert(rest[0] == ts[i as int]);
            assert(rest.drop_first() =~= ts.skip(i + 1));
        }
        if i > 0 {
            push_char(base, ',');
        }
        push_escaped_string(base, element.tags.key_at(i).as_str());
        push_char(base, '=');
        push_escaped_string(base, element.tags.value_at(i).as_str());
        proof {
            if i > 0 {
                assert(base@ =~= base0 + (seq![','] + spec_escape(rest[0].0) + seq!['=']
                    + spec_escape(rest[0].1)));
            } else {
                assert(base@ =~= base0 + (Seq::<char>::empty() + spec_escape(rest[0].0)
                    + seq!['='] + spec_escape(rest[0].1)));
            }
            assert(base0 + spec_opl_tags(rest, i > 0) =~= base@ + spec_opl_tags(
                ts.skip(i + 1),
                true,
            ));
        }
        i = i + 1;
    }
    proof {
        assert(spec_opl_tags(ts.skip(ts.len() as int), ts.len() > 0) =~= Seq::<char>::empty());
        assert(spec_opl_tags(ts.skip(ts.len() as int), false) =~= Seq::<char>::empty());
        assert(base@ + Seq::<char>::empty() =~= base@);
    }
}

/// Appends the shape-specific tail of `element`'s line.
#[verifier::loop_isolation(false)]
#[verifier::rlimit(100)]
fn append_opl_shape(base: &mut String, element: &Element)
    requires
        spec_opl_ok(element@),
    ensures
        final(base)@ == old(base)@ + spec_opl_shape(element@),
{
    let ghost e = element@;
    match &element.element_type {
        ElementType::Node { lat, lon } => {
            append_lit(base, " x");
            let mut cs: Vec<char> = Vec::new();
            push_coord(&mut cs, *lon);
            let piece = chars_to_string(&cs);
            append_str(base, &piece);
            append_lit(base, " y");
            let mut cs2: Vec<char> = Vec::new();
            push_coord(&mut cs2, *lat);
            let piece2 = chars_to_string(&cs2);
            append_str(base, &piece2);
            proof {
                assert(base@ =~= old(base)@ + spec_opl_shape(e));
            }
        },
        ElementType::Way { nodes } => {
            append_lit(base, " N");
            let ghost ids = e.element_type->Way_nodes;
            let ghost opened = base@;
            let mut i: usize = 0;
            proof {
                assert(ids.skip(0) =~= ids);
                assert(ids.len() == nodes@.len());
            }
            while i < nodes.len()
                invariant
                    i <= nodes@.len(),
                    ids.len() == nodes@.len(),
                    forall|j: int| 0 <= j < nodes@.len() ==> ids[j] == nodes@[j] as int,
                    opened + spec_opl_nodes(ids, false) == base@ + spec_opl_nodes(
                        ids.skip(i as int),
                        i > 0,
                    ),
                decreases nodes@.len() - i,
            {
                let ghost rest = ids.skip(i as int);
                let ghost base0 = base@;
                proof {
                    assert(rest[0] == ids[i as int]);
                    assert(rest.drop_first() =~= ids.skip(i + 1));
                }
                if i > 0 {
                    push_char(base, ',');
                }
                push_char(base, 'n');
                append_dec(base, nodes[i]);
                proof {
                    if i > 0 {
                        assert(base@ =~= base0 + (seq![','] + seq!['n'] + spec_dec_of_int(
                            rest[0],
                        )));
                    } else {
                        assert(base@ =~= base0 + (Seq::<char>::empty() + seq!['n']
                            + spec_dec_of_int(rest[0])));
                    }
                    assert(base0 + spec_opl_nodes(rest, i > 0) =~= base@ + spec_opl_nodes(
                        ids.skip(i + 1),
                        true,
                    ));
                }
                i = i + 1;
            }
            proof {
                assert(spec_opl_nodes(ids.skip(ids.len() as int), ids.len() > 0) =~= Seq::<
                    char,
                >::empty());
                assert(spec_opl_nodes(ids.skip(ids.len() as int), false) =~= Seq::<char>::empty());
                assert(base@ =~= old(base)@ + spec_opl_shape(e));
            }
        },
        ElementType::Relation { members } => {
            append_lit(base, " M");
            let ghost ms = e.element_type->Relation_members;
            let ghost opened = base@;
            let mut i: usize = 0;
            proof {
                assert(ms.skip(0) =~= ms);
                assert(ms.len() == members@.len());
            }
            while i < members.len()
                invariant
                    i <= members@.len(),
                    ms.len() == members@.len(),
                    forall|j: int| 0 <= j < members@.len() ==> ms[j] == (#[trigger] members@[j])@,
                    forall|j: int| 0 <= j < ms.len() ==> (#[trigger] ms[j]).t is Some,
                    opened + spec_opl_members(ms, false) == base@ + spec_opl_members(
                        ms.skip(i as int),
                        i > 0,
                    ),
                decreases members@.len() - i,
            {
                let ghost rest = ms.skip(i as int);
                let ghost base0 = base@;
                proof {
                    assert(rest[0] == ms[i as int]);
                    assert(rest.drop_first() =~= ms.skip(i + 1));
                }
                if i > 0 {
                    push_char(base, ',');
                }
                let ghost commad = base@;
                let m = &members[i];
                match &m.t {
                    Option::Some(SimpleElementType::Node) => push_char(base, 'n'),
                    Option::Some(SimpleElementType::Way) => push_char(base, 'w'),
                    Option::Some(SimpleElementType::Relation) => push_char(base, 'r'),
                    Option::None => {},
                }
                append_dec(base, m.id);
                push_char(base, '@');
                match &m.role {
                    Option::Some(role) => push_escaped_string(base, role.as_str()),
                    Option::None => {},
                }
                proof {
                    assert(base@ =~= commad + spec_opl_member(rest[0]));
                    if i > 0 {
                        assert(base@ =~= base0 + (seq![','] + spec_opl_member(rest[0])));
                    } else {
                        assert(base@ =~= base0 + (Seq::<char>::empty() + spec_opl_member(
                            rest[0],
                        )));
                    }
                    assert(base0 + spec_opl_members(rest, i > 0) =~= base@ + spec_opl_members(
                        ms.skip(i + 1),
                        true,
                    ));
                }
                i = i + 1;
            }
            proof {
                assert(spec_opl_members(ms.skip(ms.len() as int), ms.len() > 0) =~= Seq::<
                    char,
                >::empty());
                assert(spec_opl_members(ms.skip(ms.len() as int), false) =~= Seq::<char>::empty());
                assert(base@ =~= old(base)@ + spec_opl_shape(e));
            }
        },
    }
}

/// Appends one element's OPL line to `base`, as `spec_opl_line` gives it.
pub fn append_opl_element(base: &mut String, element: &Element)
    requires
        spec_opl_ok(element@),
    ensures
        final(base)@ == old(base)@ + spec_opl_line(element@),
{
    let ghost e = element@;
    match &element.element_type {
        ElementType::Node { .. } => push_char(base, 'n'),
        ElementType::Way { .. } => push_char(base, 'w'),
        ElementType::Relation { .. } => push_char(base, 'r'),
    }
    append_dec(base, element.id);
    let ghost s1 = base@;
    proof {
        assert(s1 =~= old(base)@ + (seq![spec_opl_type_char(e)] + spec_dec_of_int(e.id)));
    }
    append_opl_prov_a(base, element);
    append_opl_prov_b(base, element);
    append_lit(base, " T");
    append_opl_tags(base, element);
    append_opl_shape(base, element);
    push_char(base, '\n');
    proof {
        assert(base@ =~= old(base)@ + spec_opl_line(e));
    }
}

/// Lines of a chunk of elements, one after the other.
pub open spec fn spec_opl_chunk(es: Seq<ElementView>) -> Seq<char>
    decreases es.len(),
{
    if es.len() == 0 {
        Seq::empty()
    } else {
        spec_opl_line(es[0]) + spec_opl_chunk(es.drop_first())
    }
}

/// Serializes a chunk of elements, one OPL line each, as `spec_opl_chunk`
/// gives it.
#[verifier::loop_isolation(false)]
pub fn serialize_chunk(chunk: &Vec<Element>) -> (r: String)
    requires
        forall|j: int| 0 <= j < chunk@.len() ==> spec_opl_ok((#[trigger] chunk@[j])@),
    ensures
        r@ == spec_opl_chunk(chunk@.map_values(|e: Element| e@)),
{
    let ghost es = chunk@.map_values(|e: Element| e@);
    let mut output = String::new();
    let mut i: usize = 0;
    proof {
        assert(es.skip(0) =~= es);
        assert(output@ + spec_opl_chunk(es) =~= spec_opl_chunk(es));
    }
    while i < chunk.len()
        invariant
            i <= chunk@.len(),
            es == chunk@.map_values(|e: Element| e@),
            es.len() == chunk@.len(),
            spec_opl_chunk(es) == output@ + spec_opl_chunk(es.skip(i as int)),
        decreases chunk@.len() - i,
    {
        let ghost rest = es.skip(i as int);
        let ghost base0 = output@;
        proof {
            assert(rest[0] == es[i as int]);
            assert(rest.drop_first() =~= es.skip(i + 1));
        }
        append_opl_element(&mut output, &chunk[i]);
        proof {
            assert(base0 + spec_opl_chunk(rest) =~= output@ + spec_opl_chunk(es.skip(i + 1)));
        }
        i = i + 1;
    }
    proof {
        assert(spec_opl_chunk(es.skip(es.len() as int)) =~= Seq::<char>::empty());
        assert(output@ + Seq::<char>::empty() =~= output@);
    }
    output
}

} // verus!
