//! The JSON encoding of elements and document metadata, in the Overpass
//! style: a header object carrying the document fields, then one object per
//! element.

use vstd::prelude::*;

use crate::elements::{Element, ElementView, ElementTypeView, MemberView, Metadata,
    SimpleElementType};
use crate::text::{
    push_coord, push_dec_i64, spec_coord_of, spec_dec_of_int, spec_hex_char, str_to_chars,
};
use crate::writers::opl::{append_lit, append_str, push_char};
use crate::text::chars_to_string;

verus! {

/// One character under JSON string escaping: the two-character escapes for
/// the quote, the backslash and the named controls, `\u00..` for the other
/// controls, and the character itself otherwise.
pub open spec fn spec_json_escape_char(c: char) -> Seq<char> {
    if c == '"' {
        seq!['\\', '"']
    } else if c == '\\' {
        seq!['\\', '\\']
    } else if c == '\u{08}' {
        seq!['\\', 'b']
    } else if c == '\u{0c}' {
        seq!['\\', 'f']
    } else if c == '\n' {
        seq!['\\', 'n']
    } else if c == '\r' {
        seq!['\\', 'r']
    } else if c == '\t' {
        seq!['\\', 't']
    } else if (c as u32) < 0x20 {
        seq!['\\', 'u', '0', '0', spec_hex_char((c as u32) / 16), spec_hex_char((c as u32) % 16)]
    } else {
        seq![c]
    }
}

/// A string's characters under JSON escaping.
pub open spec fn spec_json_escape(s: Seq<char>) -> Seq<char>
    decreases s.len(),
{
    if s.len() == 0 {
        Seq::empty()
    } else {
        spec_json_escape_char(s[0]) + spec_json_escape(s.drop_first())
    }
}

/// A JSON string literal: the escaped characters between quotes.
pub open spec fn spec_json_str(s: Seq<char>) -> Seq<char> {
    seq!['"'] + spec_json_escape(s) + seq!['"']
}

/// Appends the JSON string literal of `s` to `base`.
pub fn append_json_str(base: &mut String, s: &str)
    ensures
        final(base)@ == old(base)@ + spec_json_str(s@),
{
    push_char(base, '"');
    let cs = str_to_chars(s);
    let mut i: usize = 0;
    proof {
        assert(cs@.skip(0) =~= cs@);
        assert(base@ + spec_json_escape(cs@) =~= old(base)@ + seq!['"'] + spec_json_escape(s@));
    }
    while i < cs.len()
        invariant
            i <= cs@.len(),
            cs@ == s@,
            base@ + spec_json_escape(cs@.skip(i as int)) == old(base)@ + seq!['"']
                + spec_json_escape(s@),
        decreases cs@.len() - i,
    {
        let ghost rest = cs@.skip(i as int);
        let ghost base0 = base@;
        proof {
            assert(rest[0] == cs@[i as int]);
            assert(rest.drop_first() =~= cs@.skip(i + 1));
        }
        let c = cs[i];
        if c == '"' {
            push_char(base, '\\');
            push_char(base, '"');
        } else if c == '\\' {
            push_char(base, '\\');
            push_char(base, '\\');
        } else if c == '\u{08}' {
            push_char(base, '\\');
            push_char(base, 'b');
        } else if c == '\u{0c}' {
            push_char(base, '\\');
            push_char(base, 'f');
        } else if c == '\n' {
            push_char(base, '\\');
            push_char(base, 'n');
        } else if c == '\r' {
            push_char(base, '\\');
            push_char(base, 'r');
        } else if c == '\t' {
            push_char(base, '\\');
            push_char(base, 't');
        } else if (c as u32) < 0x20 {
            let hi: u8 = ((c as u32) / 16) as u8;
            let lo: u8 = ((c as u32) % 16) as u8;
            let mut esc: Vec<char> = Vec::new();
            esc.push('\\');
            esc.push('u');
            esc.push('0');
            esc.push('0');
            // 48 is the code of '0'; 97 is the code of 'a'.
            esc.push(if hi < 10 { (48u8 + hi) as char } else { (97u8 + (hi - 10)) as char });
            esc.push(if lo < 10 { (48u8 + lo) as char } else { (97u8 + (lo - 10)) as char });
            let piece = chars_to_string(&esc);
            append_str(base, &piece);
            proof {
                assert(esc@ =~= spec_json_escape_char(c));
            }
        } else {
            push_char(base, c);
        }
        proof {
            assert(base@ =~= base0 + spec_json_escape_char(c));
            assert(base0 + spec_json_escape(rest) =~= base@ + spec_json_escape(cs@.skip(i + 1)));
        }
        i = i + 1;
    }
    proof {
        assert(spec_json_escape(cs@.skip(cs@.len() as int)) =~= Seq::<char>::empty());
        assert(base@ + Seq::<char>::empty() =~= base@);
    }
    push_char(base, '"');
    proof {
        assert(old(base)@ + seq!['"'] + spec_json_escape(s@) + seq!['"'] =~= old(base)@
            + spec_json_str(s@));
    }
}

/// An optional header field: its label, its value as a JSON string, and a
/// trailing comma — or nothing.
pub open spec fn spec_header_field(label: Seq<char>, v: Option<Seq<char>>) -> Seq<char> {
    match v {
        Option::Some(s) => label + spec_json_str(s) + seq![','],
        Option::None => Seq::empty(),
    }
}

/// The document header: an object opening with the optional copyright,
/// license and generator fields, the format version, and the opening of the
/// element list.
pub open spec fn spec_header_of(m: Metadata) -> Seq<char> {
    seq!['{'] + spec_header_field("\"copyright\":"@, m.copyright.deep_view())
        + spec_header_field("\"license\":"@, m.license.deep_view()) + spec_header_field(
        "\"generator\":"@,
        m.generator.deep_view(),
    ) + "\"version\":\"0.6\",\"elements\":["@
}

/// Writes the document header, as `spec_header_of` gives it.
pub fn create_header(metadata: Metadata) -> (r: String)
    ensures
        r@ == spec_header_of(metadata),
{
    let mut header = String::new();
    push_char(&mut header, '{');
    match &metadata.copyright {
        Option::Some(c) => {
            append_lit(&mut header, "\"copyright\":");
            append_json_str(&mut header, c.as_str());
            push_char(&mut header, ',');
        },
        Option::None => {},
    }
    match &metadata.license {
        Option::Some(l) => {
            append_lit(&mut header, "\"license\":");
            append_json_str(&mut header, l.as_str());
            push_char(&mut header, ',');
        },
        Option::None => {},
    }
    match &metadata.generator {
        Option::Some(g) => {
            append_lit(&mut header, "\"generator\":");
            append_json_str(&mut header, g.as_str());
            push_char(&mut header, ',');
        },
        Option::None => {},
    }
    append_lit(&mut header, "\"version\":\"0.6\",\"elements\":[");
    proof {
        assert(header@ =~= spec_header_of(metadata));
    }
    header
}

/// Way node references joined by commas; `leading` says whether a comma
/// comes first.
pub open spec fn spec_join_ids(ids: Seq<int>, leading: bool) -> Seq<char>
    decreases ids.len(),
{
    if ids.len() == 0 {
        Seq::empty()
    } else {
        (if leading {
            seq![',']
        } else {
            Seq::<char>::empty()
        }) + spec_dec_of_int(ids[0]) + spec_join_ids(ids.drop_first(), true)
    }
}

/// One member as JSON: its reference, its optional type, and its role (an
/// absent role writes as the empty string).
pub open spec fn spec_json_member(m: MemberView) -> Seq<char> {
    seq!['{'] + "\"ref\":"@ + spec_dec_of_int(m.id) + (match m.t {
        Option::Some(SimpleElementType::Node) => ",\"type\":\"node\""@,
        Option::Some(SimpleElementType::Way) => ",\"type\":\"way\""@,
        Option::Some(SimpleElementType::Relation) => ",\"type\":\"relation\""@,
        Option::None => Seq::<char>::empty(),
    }) + ",\"role\":"@ + (match m.role {
        Option::Some(r) => spec_json_str(r),
        Option::None => "\"\""@,
    }) + seq!['}']
}

/// Members joined by commas.
pub open spec fn spec_join_members(ms: Seq<MemberView>, leading: bool) -> Seq<char>
    decreases ms.len(),
{
    if ms.len() == 0 {
        Seq::empty()
    } else {
        (if leading {
            seq![',']
        } else {
            Seq::<char>::empty()
        }) + spec_json_member(ms[0]) + spec_join_members(ms.drop_first(), true)
    }
}

/// Tag pairs joined by commas, each as `"key":"value"`.
pub open spec fn spec_join_tags(ts: Seq<(Seq<char>, Seq<char>)>, leading: bool) -> Seq<char>
    decreases ts.len(),
{
    if ts.len() == 0 {
        Seq::empty()
    } else {
        (if leading {
            seq![',']
        } else {
            Seq::<char>::empty()
        }) + spec_json_str(ts[0].0) + seq![':'] + spec_json_str(ts[0].1) + spec_join_tags(
            ts.drop_first(),
            true,
        )
    }
}

/// Whether an element's numbers stay clear of the one unrepresentable
/// value, so that each can be negated while formatting.
pub open spec fn spec_coords_ok(e: ElementView) -> bool {
    match e.element_type {
        ElementTypeView::Node { lat, lon } => lat > i64::MIN && lon > i64::MIN,
        _ => true,
    }
}

/// The type-specific opening of an element's object.
pub open spec fn spec_json_type_part(e: ElementView) -> Seq<char> {
    match e.element_type {
        ElementTypeView::Node { lat, lon } => "\"node\""@ + ",\"lat\":"@ + spec_coord_of(lat)
            + ",\"lon\":"@ + spec_coord_of(lon),
        ElementTypeView::Way { nodes } => "\"way\",\"nodes\":["@ + spec_join_ids(nodes, false)
            + seq![']'],
        ElementTypeView::Relation { members } => "\"relation\",\"members\":["@ + spec_join_members(
            members,
            false,
        ) + seq![']'],
    }
}

/// The changeset and timestamp fields an element writes.
pub open spec fn spec_json_prov_a(e: ElementView) -> Seq<char> {
    (match e.changeset {
        Option::Some(c) => ",\"changeset\":"@ + spec_dec_of_int(c),
        Option::None => Seq::<char>::empty(),
    }) + (match e.timestamp {
        Option::Some(t) => ",\"timestamp\":"@ + spec_json_str(t),
        Option::None => Seq::<char>::empty(),
    })
}

/// The author and visibility fields an element writes; `visible` appears
/// only when explicitly false.
pub open spec fn spec_json_prov_b(e: ElementView) -> Seq<char> {
    (match e.uid {
        Option::Some(u) => ",\"uid\":"@ + spec_dec_of_int(u),
        Option::None => Seq::<char>::empty(),
    }) + (match e.user {
        Option::Some(u) => ",\"user\":"@ + spec_json_str(u),
        Option::None => Seq::<char>::empty(),
    }) + (if e.visible == Option::Some(false) {
        ",\"visible\":false"@
    } else {
        Seq::<char>::empty()
    })
}

/// The provenance fields an element writes: each present one in order, and
/// `visible` only when explicitly false.
pub open spec fn spec_json_provenance(e: ElementView) -> Seq<char> {
    spec_json_prov_a(e) + spec_json_prov_b(e)
}

/// The tags object an element writes, when it has tags at all.
pub open spec fn spec_json_tags_part(ts: Seq<(Seq<char>, Seq<char>)>) -> Seq<char> {
    if ts.len() == 0 {
        Seq::<char>::empty()
    } else {
        ",\"tags\":{"@ + spec_join_tags(ts, false) + seq!['}']
    }
}

/// One element as a JSON object: its type with the type-specific fields,
/// its identifier, each present provenance field, `visible` only when
/// explicitly false, and its tags when it has any.
pub open spec fn spec_json_element(e: ElementView) -> Seq<char> {
    "{\"type\":"@ + spec_json_type_part(e) + ",\"id\":"@ + spec_dec_of_int(e.id)
        + spec_json_provenance(e) + spec_json_tags_part(e.tags) + seq!['}']
}

/// Appends one element's JSON object to `base`, as `spec_json_element`
/// gives it.
#[verifier::loop_isolation(false)]
pub fn append_serialized_element(base: &mut String, element: &Element)
    requires
        spec_coords_ok(element@),
    ensures
        final(base)@ == old(base)@ + spec_json_element(element@),
{
    let ghost e = element@;
    append_lit(base, "{\"type\":");
    append_type_part(base, element);
    let ghost s1 = base@;
    proof {
        assert(s1 =~= old(base)@ + ("{\"type\":"@ + spec_json_type_part(e)));
    }
    append_lit(base, ",\"id\":");
    let mut idcs: Vec<char> = Vec::new();
    push_dec_i64(&mut idcs, element.id);
    let idpiece = chars_to_string(&idcs);
    append_str(base, &idpiece);
    let ghost s2 = base@;
    proof {
        assert(s2 =~= s1 + (",\"id\":"@ + spec_dec_of_int(e.id)));
    }
    append_provenance(base, element);
    append_tags_part(base, element);
    push_char(base, '}');
    proof {
        assert(base@ =~= old(base)@ + spec_json_element(e));
    }
}

/// Appends the type-specific opening of `element`'s object.
#[verifier::loop_isolation(false)]
#[verifier::rlimit(100)]
fn append_type_part(base: &mut String, element: &Element)
    requires
        spec_coords_ok(element@),
    ensures
        final(base)@ == old(base)@ + spec_json_type_part(element@),
{
    let ghost e = element@;
    match &element.element_type {
        crate::elements::ElementType::Node { lat, lon } => {
            append_lit(base, "\"node\"");
            append_lit(base, ",\"lat\":");
            let mut cs: Vec<char> = Vec::new();
            push_coord(&mut cs, *lat);
            let piece = chars_to_string(&cs);
            append_str(base, &piece);
            append_lit(base, ",\"lon\":");
            let mut cs2: Vec<char> = Vec::new();
            push_coord(&mut cs2, *lon);
            let piece2 = chars_to_string(&cs2);
            append_str(base, &piece2);
            proof {
                assert(cs@ =~= spec_coord_of(*lat as int));
                assert(cs2@ =~= spec_coord_of(*lon as int));
                assert(base@ =~= old(base)@ + spec_json_type_part(e));
            }
        },
        crate::elements::ElementType::Way { nodes } => {
            append_lit(base, "\"way\",\"nodes\":[");
            let ghost ids = e.element_type->Way_nodes;
            let ghost opened = base@;
            let mut i: usize = 0;
            proof {
                assert(ids.skip(0) =~= ids);
                assert(ids.len() == nodes@.len());
            }
            while i < nodes.len()
                invariant
                    i <= nodes@.len(),
                    ids.len() == nodes@.len(),
                    forall|j: int| 0 <= j < nodes@.len() ==> ids[j] == nodes@[j] as int,
                    opened + spec_join_ids(ids, false) == base@ + spec_join_ids(
                        ids.skip(i as int),
                        i > 0,
                    ),
                decreases nodes@.len() - i,
            {
                let ghost rest = ids.skip(i as int);
                let ghost base0 = base@;
                proof {
                    assert(rest[0] == ids[i as int]);
                    assert(rest.drop_first() =~= ids.skip(i + 1));
                }
                if i > 0 {
                    push_char(base, ',');
                }
                let mut cs: Vec<char> = Vec::new();
                push_dec_i64(&mut cs, nodes[i]);
                let piece = chars_to_string(&cs);
                append_str(base, &piece);
                proof {
                    if i > 0 {
                        assert(base@ =~= base0 + (seq![','] + spec_dec_of_int(rest[0])));
                    } else {
                        assert(base@ =~= base0 + (Seq::<char>::empty() + spec_dec_of_int(
                            rest[0],
                        )));
                    }
                    assert(base0 + spec_join_ids(rest, i > 0) =~= base@ + spec_join_ids(
                        ids.skip(i + 1),
                        true,
                    ));
                }
                i = i + 1;
            }
            proof {
                assert(spec_join_ids(ids.skip(ids.len() as int), ids.len() > 0) =~= Seq::<
                    char,
                >::empty());
                assert(spec_join_ids(ids.skip(ids.len() as int), false) =~= Seq::<char>::empty());
                assert(base@ =~= opened + spec_join_ids(ids, false));
            }
            push_char(base, ']');
            proof {
                assert(base@ =~= old(base)@ + spec_json_type_part(e));
            }
        },
        crate::elements::ElementType::Relation { members } => {
            append_lit(base, "\"relation\",\"members\":[");
            let ghost ms = e.element_type->Relation_members;
            let ghost opened = base@;
            let mut i: usize = 0;
            proof {
                assert(ms.skip(0) =~= ms);
                assert(ms.len() == members@.len());
            }
            while i < members.len()
                invariant
                    i <= members@.len(),
                    ms.len() == members@.len(),
                    forall|j: int| 0 <= j < members@.len() ==> ms[j] == (#[trigger] members@[j])@,
                    opened + spec_join_members(ms, false) == base@ + spec_join_members(
                        ms.skip(i as int),
                        i > 0,
                    ),
                decreases members@.len() - i,
            {
                let ghost rest = ms.skip(i as int);
                let ghost base0 = base@;
                proof {
                    assert(rest[0] == ms[i as int]);
                    assert(rest.drop_first() =~= ms.skip(i + 1));
                }
                if i > 0 {
                    push_char(base, ',');
                }
                let ghost commad = base@;
                append_member(base, &members[i]);
                proof {
                    assert(base@ =~= commad + spec_json_member(rest[0]));
                    if i > 0 {
                        assert(base@ =~= base0 + (seq![','] + spec_json_member(rest[0])));
                    } else {
                        assert(base@ =~= base0 + (Seq::<char>::empty() + spec_json_member(
                            rest[0],
                        )));
                    }
                    assert(base0 + spec_join_members(rest, i > 0) =~= base@ + spec_join_members(
                        ms.skip(i + 1),
                        true,
                    ));
                }
                i = i + 1;
            }
            proof {
                assert(spec_join_members(ms.skip(ms.len() as int), ms.len() > 0) =~= Seq::<
                    char,
                >::empty());
                assert(spec_join_members(ms.skip(ms.len() as int), false) =~= Seq::<char>::empty());
                assert(base@ =~= opened + spec_join_members(ms, false));
            }
            push_char(base, ']');
            proof {
                assert(base@ =~= old(base)@ + spec_json_type_part(e));
            }
        },
    }
}

/// Appends the provenance fields of `element`.
fn append_provenance(base: &mut String, element: &Element)
    ensures
        final(base)@ == old(base)@ + spec_json_provenance(element@),
{
    append_prov_a(base, element);
    append_prov_b(base, element);
    proof {
        assert(base@ =~= old(base)@ + spec_json_provenance(element@));
    }
}

/// Appends the changeset and timestamp fields of `element`.
#[verifier::rlimit(100)]
fn append_prov_a(base: &mut String, element: &Element)
    ensures
        final(base)@ == old(base)@ + spec_json_prov_a(element@),
{
    let ghost e = element@;
    match &element.changeset {
        Option::Some(c) => {
            append_lit(base, ",\"changeset\":");
            let mut cs: Vec<char> = Vec::new();
            push_dec_i64(&mut cs, *c);
            let piece = chars_to_string(&cs);
            append_str(base, &piece);
        },
        Option::None => {},
    }
    match &element.timestamp {
        Option::Some(t) => {
            append_lit(base, ",\"timestamp\":");
            append_json_str(base, t.as_str());
        },
        Option::None => {},
    }
    proof {
        assert(base@ =~= old(base)@ + spec_json_prov_a(e));
    }
}

/// Appends the author and visibility fields of `element`.
#[verifier::rlimit(100)]
fn append_prov_b(base: &mut String, element: &Element)
    ensures
        final(base)@ == old(base)@ + spec_json_prov_b(element@),
{
    let ghost e = element@;
    match &element.uid {
        Option::Some(u) => {
            append_lit(base, ",\"uid\":");
            let mut cs: Vec<char> = Vec::new();
            push_dec_i64(&mut cs, *u as i64);
            let piece = chars_to_string(&cs);
            append_str(base, &piece);
        },
        Option::None => {},
    }
    let ghost s1 = base@;
    match &element.user {
        Option::Some(u) => {
            append_lit(base, ",\"user\":");
            append_json_str(base, u.as_str());
        },
        Option::None => {},
    }
    let visible_false = match &element.visible {
        Option::Some(v) => !*v,
        Option::None => false,
    };
    if visible_false {
        append_lit(base, ",\"visible\":false");
    }
    proof {
        assert(base@ =~= old(base)@ + spec_json_prov_b(e));
    }
}

/// Appends the tags object of `element`, when it has tags at all.
#[verifier::loop_isolation(false)]
fn append_tags_part(base: &mut String, element: &Element)
    ensures
        final(base)@ == old(base)@ + spec_json_tags_part(element@.tags),
{
    let ghost e = element@;
    if element.tags.len() > 0 {
        append_lit(base, ",\"tags\":{");
        let ghost ts = e.tags;
        let ghost opened = base@;
        let mut i: usize = 0;
        proof {
            assert(ts.skip(0) =~= ts);
        }
        while i < element.tags.len()
            invariant
                i <= e.tags.len(),
                ts == e.tags,
                e.tags == element.tags@,
                opened + spec_join_tags(ts, false) == base@ + spec_join_tags(
                    ts.skip(i as int),
                    i > 0,
                ),
            decreases e.tags.len() - i,
        {
            let ghost rest = ts.skip(i as int);
            let ghost base0 = base@;
            proof {
                assert(rest[0] == ts[i as int]);
                assert(rest.drop_first() =~= ts.skip(i + 1));
            }
            if i > 0 {
                push_char(base, ',');
            }
            append_json_str(base, element.tags.key_at(i).as_str());
            push_char(base, ':');
            append_json_str(base, element.tags.value_at(i).as_str());
            proof {
                if i > 0 {
                    assert(base@ =~= base0 + (seq![','] + spec_json_str(rest[0].0) + seq![':']
                        + spec_json_str(rest[0].1)));
                } else {
                    assert(base@ =~= base0 + (Seq::<char>::empty() + spec_json_str(rest[0].0)
                        + seq![':'] + spec_json_str(rest[0].1)));
                }
                assert(base0 + spec_join_tags(rest, i > 0) =~= base@ + spec_join_tags(
                    ts.skip(i + 1),
                    true,
                ));
            }
            i = i + 1;
        }
        proof {
            assert(spec_join_tags(ts.skip(ts.len() as int), ts.len() > 0) =~= Seq::<char>::empty());
            assert(spec_join_tags(ts.skip(ts.len() as int), false) =~= Seq::<char>::empty());
            assert(base@ =~= opened + spec_join_tags(ts, false));
        }
        push_char(base, '}');
        proof {
            assert(base@ =~= old(base)@ + spec_json_tags_part(e.tags));
        }
    } else {
        proof {
            assert(base@ =~= old(base)@ + spec_json_tags_part(e.tags));
        }
    }
}

/// Appends one member's JSON object to `base`.
fn append_member(base: &mut String, m: &crate::elements::Member)
    ensures
        final(base)@ == old(base)@ + spec_json_member(m@),
{
    push_char(base, '{');
    append_lit(base, "\"ref\":");
    let mut cs: Vec<char> = Vec::new();
    push_dec_i64(&mut cs, m.id);
    let piece = chars_to_string(&cs);
    append_str(base, &piece);
    match &m.t {
        Option::Some(SimpleElementType::Node) => append_lit(base, ",\"type\":\"node\""),
        Option::Some(SimpleElementType::Way) => append_lit(base, ",\"type\":\"way\""),
        Option::Some(SimpleElementType::Relation) => append_lit(base, ",\"type\":\"relation\""),
        Option::None => {},
    }
    append_lit(base, ",\"role\":");
    match &m.role {
        Option::Some(r) => append_json_str(base, r.as_str()),
        Option::None => append_lit(base, "\"\""),
    }
    push_char(base, '}');
    proof {
        assert(base@ =~= old(base)@ + spec_json_member(m@));
    }
}

/// A chunk of elements joined by commas.
pub open spec fn spec_join_elements(es: Seq<ElementView>, leading: bool) -> Seq<char>
    decreases es.len(),
{
    if es.len() == 0 {
        Seq::empty()
    } else {
        (if leading {
            seq![',']
        } else {
            Seq::<char>::empty()
        }) + spec_json_element(es[0]) + spec_join_elements(es.drop_first(), true)
    }
}

/// Serializes a chunk of elements, joined by commas, as
/// `spec_join_elements` gives it.
#[verifier::loop_isolation(false)]
pub fn serialize_chunk(chunk: &Vec<Element>) -> (r: String)
    requires
        forall|j: int| 0 <= j < chunk@.len() ==> spec_coords_ok((#[trigger] chunk@[j])@),
    ensures
        r@ == spec_join_elements(chunk@.map_values(|e: Element| e@), false),
{
    let ghost es = chunk@.map_values(|e: Element| e@);
    let mut output = String::new();
    let mut i: usize = 0;
    proof {
        assert(es.skip(0) =~= es);
        assert(output@ + spec_join_elements(es, false) =~= spec_join_elements(es, false));
    }
    while i < chunk.len()
        invariant
            i <= chunk@.len(),
            es == chunk@.map_values(|e: Element| e@),
            es.len() == chunk@.len(),
            spec_join_elements(es, false) == output@ + spec_join_elements(
                es.skip(i as int),
                i > 0,
            ),
        decreases chunk@.len() - i,
    {
        let ghost rest = es.skip(i as int);
        let ghost base0 = output@;
        proof {
            assert(rest[0] == es[i as int]);
            assert(rest.drop_first() =~= es.skip(i + 1));
        }
        if i > 0 {
            push_char(&mut output, ',');
        }
        append_serialized_element(&mut output, &chunk[i]);
        proof {
            if i > 0 {
                assert(output@ =~= base0 + (seq![','] + spec_json_element(rest[0])));
            } else {
                assert(output@ =~= base0 + (Seq::<char>::empty() + spec_json_element(rest[0])));
            }
            assert(base0 + spec_join_elements(rest, i > 0) =~= output@ + spec_join_elements(
                es.skip(i + 1),
                true,
            ));
        }
        i = i + 1;
    }
    proof {
        assert(spec_join_elements(es.skip(es.len() as int), es.len() > 0) =~= Seq::<char>::empty());
        assert(spec_join_elements(es.skip(es.len() as int), false) =~= Seq::<char>::empty());
        assert(output@ =~= spec_join_elements(es, false));
    }
    output
}

} // verus!
