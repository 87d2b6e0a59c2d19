//! The shapes that the XML encoding writes: per-kind records carrying the
//! shared attribute block, and the conversions from the element model into
//! them.  Turning these records into XML text is the serializer's work
//! outside the library.

use vstd::prelude::*;

use crate::elements::{Element, ElementType, ElementView, ElementTypeView, Member, Tags};

verus! {

/// One tag as the XML encoding carries it.
#[derive(Debug, Clone)]
pub struct XmlTags {
    pub k: String,
    pub v: String,
}

/// The attribute block shared by every element kind.  An element without an
/// explicit visibility writes as visible.
#[derive(Debug, Clone)]
pub struct XmlElementMeta {
    pub id: i64,
    pub user: Option<String>,
    pub uid: Option<i32>,
    pub visible: bool,
    pub version: Option<i32>,
    pub changeset: Option<i64>,
    pub timestamp: Option<String>,
}

/// A node record: its position and the shared block.
#[derive(Debug, Clone)]
pub struct XmlNode {
    pub lat: i64,
    pub lon: i64,
    pub meta: XmlElementMeta,
    pub tags: Vec<XmlTags>,
}

/// One node reference of a way.
#[derive(Debug, Clone)]
pub struct XmlWayNode {
    pub nd_ref: i64,
}

/// A way record: its node references and the shared block.
#[derive(Debug, Clone)]
pub struct XmlWay {
    pub meta: XmlElementMeta,
    pub nd: Vec<XmlWayNode>,
    pub tags: Vec<XmlTags>,
}

/// A relation record: its members and the shared block.
#[derive(Debug, Clone)]
pub struct XmlRelation {
    pub meta: XmlElementMeta,
    pub member: Vec<Member>,
    pub tags: Vec<XmlTags>,
}

/// The document-level attributes the XML encoding writes.
#[derive(Debug, Clone)]
pub struct XmlMetadata {
    pub version: Option<String>,
    pub generator: Option<String>,
    pub copyright: Option<String>,
    pub license: Option<String>,
}

/// The pairs a tag list carries.
pub open spec fn xml_tags_view(ts: Seq<XmlTags>) -> Seq<(Seq<char>, Seq<char>)> {
    ts.map_values(|t: XmlTags| (t.k@, t.v@))
}

/// Rewrites a tag mapping into the XML encoding's tag list, pair for pair.
pub fn _convert_tags(element_tags: &Tags) -> (r: Vec<XmlTags>)
    ensures
        xml_tags_view(r@) == element_tags@,
{
    let mut out: Vec<XmlTags> = Vec::new();
    let mut i: usize = 0;
    while i < element_tags.len()
        invariant
            i <= element_tags@.len(),
            out@.len() == i,
            forall|j: int| 0 <= j < i ==> ((#[trigger] out@[j]).k@, out@[j].v@)
                == element_tags@[j],
        decreases element_tags@.len() - i,
    {
        out.push(XmlTags { k: element_tags.key_at(i).clone(), v: element_tags.value_at(i).clone() });
        i = i + 1;
    }
    proof {
        assert(xml_tags_view(out@) =~= element_tags@);
    }
    out
}

/// Rewrites a way's node identifiers into node-reference records, one for
/// one.
pub fn _convert_nodes(way_nodes: &Vec<i64>) -> (r: Vec<XmlWayNode>)
    ensures
        r@.map_values(|n: XmlWayNode| n.nd_ref) == way_nodes@,
{
    let mut out: Vec<XmlWayNode> = Vec::new();
    let mut i: usize = 0;
    while i < way_nodes.len()
        invariant
            i <= way_nodes@.len(),
            out@.len() == i,
            forall|j: int| 0 <= j < i ==> (#[trigger] out@[j]).nd_ref == way_nodes@[j],
        decreases way_nodes@.len() - i,
    {
        out.push(XmlWayNode { nd_ref: way_nodes[i] });
        i = i + 1;
    }
    proof {
        assert(out@.map_values(|n: XmlWayNode| n.nd_ref) =~= way_nodes@);
    }
    out
}

/// The attribute block an element writes: its identifier and provenance,
/// with an absent visibility defaulting to visible.
pub open spec fn spec_meta_of(e: ElementView) -> (int, Option<Seq<char>>, Option<int>, bool, Option<
    int,
>, Option<int>, Option<Seq<char>>) {
    (
        e.id,
        e.user,
        e.uid,
        match e.visible {
            Option::Some(v) => v,
            Option::None => true,
        },
        e.version,
        e.changeset,
        e.timestamp,
    )
}

/// The block a meta record carries.
pub open spec fn spec_meta_view(m: XmlElementMeta) -> (int, Option<Seq<char>>, Option<int>, bool, Option<
    int,
>, Option<int>, Option<Seq<char>>) {
    (
        m.id as int,
        m.user.deep_view(),
        match m.uid {
            Option::Some(u) => Option::Some(u as int),
            Option::None => Option::None,
        },
        m.visible,
        match m.version {
            Option::Some(v) => Option::Some(v as int),
            Option::None => Option::None,
        },
        match m.changeset {
            Option::Some(c) => Option::Some(c as int),
            Option::None => Option::None,
        },
        m.timestamp.deep_view(),
    )
}

/// Builds the attribute block of `element`.
fn convert_meta(element: &Element) -> (r: XmlElementMeta)
    ensures
        spec_meta_view(r) == spec_meta_of(element@),
{
    XmlElementMeta {
        id: element.id,
        user: element.user.clone(),
        uid: element.uid,
        visible: match element.visible {
            Option::Some(v) => v,
            Option::None => true,
        },
        version: element.version,
        changeset: element.changeset,
        timestamp: element.timestamp.clone(),
    }
}

/// The simple type an element's shape falls under.
pub open spec fn spec_kind(ty: ElementTypeView) -> crate::elements::SimpleElementType {
    match ty {
        ElementTypeView::Node { .. } => crate::elements::SimpleElementType::Node,
        ElementTypeView::Way { .. } => crate::elements::SimpleElementType::Way,
        ElementTypeView::Relation { .. } => crate::elements::SimpleElementType::Relation,
    }
}

/// The views of the elements of `es` whose shape is `k`, in their order.
pub open spec fn spec_of_kind(es: Seq<Element>, k: crate::elements::SimpleElementType) -> Seq<
    ElementView,
>
    decreases es.len(),
{
    if es.len() == 0 {
        Seq::empty()
    } else {
        (if spec_kind(es[0]@.element_type) == k {
            seq![es[0]@]
        } else {
            Seq::<ElementView>::empty()
        }) + spec_of_kind(es.drop_first(), k)
    }
}

/// The per-kind projection grows at the back as the prefix grows.
proof fn lemma_of_kind_take_step(es: Seq<Element>, k: crate::elements::SimpleElementType, i: int)
    requires
        0 <= i < es.len(),
    ensures
        spec_of_kind(es.take(i + 1), k) == spec_of_kind(es.take(i), k) + (if spec_kind(
            es[i]@.element_type,
        ) == k {
            seq![es[i]@]
        } else {
            Seq::<ElementView>::empty()
        }),
    decreases i,
{
    if i == 0 {
        assert(es.take(1)[0] == es[0]);
        assert(es.take(1).drop_first().len() == 0);
        assert(es.take(0).len() == 0);
        assert(spec_of_kind(es.take(1).drop_first(), k) =~= Seq::<ElementView>::empty());
        assert(spec_of_kind(es.take(0), k) =~= Seq::<ElementView>::empty());
        assert(spec_of_kind(es.take(1), k) =~= spec_of_kind(es.take(0), k) + (if spec_kind(
            es[0]@.element_type,
        ) == k {
            seq![es[0]@]
        } else {
            Seq::<ElementView>::empty()
        }));
    } else {
        lemma_of_kind_take_step(es.drop_first(), k, i - 1);
        assert(es.take(i + 1)[0] == es[0]);
        assert(es.take(i)[0] == es[0]);
        assert(es.take(i + 1).drop_first() =~= es.drop_first().take(i));
        assert(es.take(i).drop_first() =~= es.drop_first().take(i - 1));
        assert(es.drop_first()[i - 1] == es[i]);
        assert(spec_of_kind(es.take(i + 1), k) =~= spec_of_kind(es.take(i), k) + (if spec_kind(
            es[i]@.element_type,
        ) == k {
            seq![es[i]@]
        } else {
            Seq::<ElementView>::empty()
        }));
    }
}

/// Splits a stream of elements into the XML encoding's three per-kind lists.
/// Each list is exactly the in-order projection of the stream onto its kind:
/// record `j` carries — verbatim — the attribute block, tags and shape of
/// the `j`th element of that kind.
#[verifier::loop_isolation(false)]
pub fn _split_and_convert_elements(received_elements: &Vec<Element>) -> (r: (
    Vec<XmlNode>,
    Vec<XmlWay>,
    Vec<XmlRelation>,
))
    ensures
        r.0@.len() == spec_of_kind(
            received_elements@,
            crate::elements::SimpleElementType::Node,
        ).len(),
        forall|j: int| 0 <= j < r.0@.len() ==> xml_node_matches(
            #[trigger] r.0@[j],
            spec_of_kind(received_elements@, crate::elements::SimpleElementType::Node)[j],
        ),
        r.1@.len() == spec_of_kind(
            received_elements@,
            crate::elements::SimpleElementType::Way,
        ).len(),
        forall|j: int| 0 <= j < r.1@.len() ==> xml_way_matches(
            #[trigger] r.1@[j],
            spec_of_kind(received_elements@, crate::elements::SimpleElementType::Way)[j],
        ),
        r.2@.len() == spec_of_kind(
            received_elements@,
            crate::elements::SimpleElementType::Relation,
        ).len(),
        forall|j: int| 0 <= j < r.2@.len() ==> xml_relation_matches(
            #[trigger] r.2@[j],
            spec_of_kind(received_elements@, crate::elements::SimpleElementType::Relation)[j],
        ),
{
    let ghost es = received_elements@;
    let mut nodes: Vec<XmlNode> = Vec::new();
    let mut ways: Vec<XmlWay> = Vec::new();
    let mut relations: Vec<XmlRelation> = Vec::new();
    let mut i: usize = 0;
    proof {
        assert(es.take(0).len() == 0);
    }
    while i < received_elements.len()
        invariant
            i <= es.len(),
            nodes@.len() == spec_of_kind(
                es.take(i as int),
                crate::elements::SimpleElementType::Node,
            ).len(),
            forall|j: int| 0 <= j < nodes@.len() ==> xml_node_matches(
                #[trigger] nodes@[j],
                spec_of_kind(es.take(i as int), crate::elements::SimpleElementType::Node)[j],
            ),
            ways@.len() == spec_of_kind(
                es.take(i as int),
                crate::elements::SimpleElementType::Way,
            ).len(),
            forall|j: int| 0 <= j < ways@.len() ==> xml_way_matches(
                #[trigger] ways@[j],
                spec_of_kind(es.take(i as int), crate::elements::SimpleElementType::Way)[j],
            ),
            relations@.len() == spec_of_kind(
                es.take(i as int),
                crate::elements::SimpleElementType::Relation,
            ).len(),
            forall|j: int| 0 <= j < relations@.len() ==> xml_relation_matches(
                #[trigger] relations@[j],
                spec_of_kind(es.take(i as int), crate::elements::SimpleElementType::Relation)[j],
            ),
        decreases es.len() - i,
    {
        proof {
            lemma_of_kind_take_step(es, crate::elements::SimpleElementType::Node, i as int);
            lemma_of_kind_take_step(es, crate::elements::SimpleElementType::Way, i as int);
            lemma_of_kind_take_step(es, crate::elements::SimpleElementType::Relation, i as int);
        }
        let e = &received_elements[i];
        let meta = convert_meta(e);
        let tags = _convert_tags(&e.tags);
        match &e.element_type {
            ElementType::Node { lat, lon } => {
                nodes.push(XmlNode { lat: *lat, lon: *lon, meta, tags });
                proof {
                    assert(xml_node_matches(nodes@[nodes@.len() - 1], es[i as int]@));
                }
            },
            ElementType::Way { nodes: way_nodes } => {
                let nd = _convert_nodes(way_nodes);
                proof {
                    assert(nd@.map_values(|n: XmlWayNode| n.nd_ref as int) =~= way_nodes@
                        .map_values(|n: i64| n as int));
                }
                ways.push(XmlWay { meta, nd, tags });
                proof {
                    assert(xml_way_matches(ways@[ways@.len() - 1], es[i as int]@));
                }
            },
            ElementType::Relation { members } => {
                let member = clone_members(members);
                relations.push(XmlRelation { meta, member, tags });
                proof {
                    assert(xml_relation_matches(relations@[relations@.len() - 1], es[i as int]@));
                }
            },
        }
        i = i + 1;
    }
    proof {
        assert(es.take(es.len() as int) =~= es);
    }
    (nodes, ways, relations)
}

/// Whether a node record carries exactly the fields of element `e`.
pub open spec fn xml_node_matches(n: XmlNode, e: ElementView) -> bool {
    &&& e.element_type matches ElementTypeView::Node { lat, lon } && n.lat as int == lat
        && n.lon as int == lon
    &&& spec_meta_view(n.meta) == spec_meta_of(e)
    &&& xml_tags_view(n.tags@) == e.tags
}

/// Whether a way record carries exactly the fields of element `e`.
pub open spec fn xml_way_matches(w: XmlWay, e: ElementView) -> bool {
    &&& e.element_type matches ElementTypeView::Way { nodes } && w.nd@.map_values(
        |n: XmlWayNode| n.nd_ref as int,
    ) == nodes
    &&& spec_meta_view(w.meta) == spec_meta_of(e)
    &&& xml_tags_view(w.tags@) == e.tags
}

/// Whether a relation record carries exactly the fields of element `e`.
pub open spec fn xml_relation_matches(r: XmlRelation, e: ElementView) -> bool {
    &&& e.element_type matches ElementTypeView::Relation { members } && r.member@.map_values(
        |m: Member| m@,
    ) == members
    &&& spec_meta_view(r.meta) == spec_meta_of(e)
    &&& xml_tags_view(r.tags@) == e.tags
}

/// A fresh vector holding the members of `ms`.
fn clone_members(ms: &Vec<Member>) -> (r: Vec<Member>)
    ensures
        r@.map_values(|m: Member| m@) == ms@.map_values(|m: Member| m@),
{
    let mut out: Vec<Member> = Vec::new();
    let mut i: usize = 0;
    while i < ms.len()
        invariant
            i <= ms@.len(),
            out@.len() == i,
            forall|j: int| 0 <= j < i ==> (#[trigger] out@[j])@ == ms@[j]@,
        decreases ms@.len() - i,
    {
        let m = &ms[i];
        out.push(Member { t: m.t, id: m.id, role: m.role.clone() });
        proof {
            assert(out@[out@.len() - 1]@ == ms@[i as int]@);
        }
        i = i + 1;
    }
    proof {
        assert(out@.map_values(|m: Member| m@) =~= ms@.map_values(|m: Member| m@));
    }
    out
}

} // verus!
