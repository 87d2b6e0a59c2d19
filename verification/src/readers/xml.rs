//! The shapes that the XML decoding reads, and their conversion into the
//! element model.  Turning XML text into these records is the decoder's work
//! outside the library.

use vstd::prelude::*;

use crate::elements::{tags_set, Element, ElementType, Member, Tags};

verus! {

/// One tag as the XML encoding carries it.
#[derive(Debug, Clone)]
pub struct XmlTags {
    pub k: String,
    pub v: String,
}

/// The attribute block shared by every element kind.
#[derive(Debug, Clone)]
pub struct XmlElementMeta {
    pub id: i64,
    pub user: Option<String>,
    pub uid: Option<i32>,
    pub visible: bool,
    pub version: Option<i32>,
    pub changeset: Option<i64>,
    pub timestamp: Option<String>,
}

/// A decoded node record; its position is held in ten-millionths of a
/// degree.
#[derive(Debug, Clone)]
pub struct XmlNode {
    pub lat: i64,
    pub lon: i64,
    pub meta: XmlElementMeta,
    pub tags: Vec<XmlTags>,
}

/// One node reference of a way.
#[derive(Debug, Clone)]
pub struct XmlWayNode {
    pub nd_ref: i64,
}

/// A decoded way record.
#[derive(Debug, Clone)]
pub struct XmlWay {
    pub meta: XmlElementMeta,
    pub nd: Vec<XmlWayNode>,
    pub tags: Vec<XmlTags>,
}

/// A decoded relation record.
#[derive(Debug, Clone)]
pub struct XmlRelation {
    pub meta: XmlElementMeta,
    pub member: Vec<Member>,
    pub tags: Vec<XmlTags>,
}

/// One decoded record of any kind.
#[derive(Debug)]
pub enum XmlElement {
    Node(XmlNode),
    Way(XmlWay),
    Relation(XmlRelation),
}

/// Holds an XML document's text until it is read.
#[derive(Debug, Clone)]
pub struct XmlReader {
    pub src: String,
}

/// The mapping a tag list folds into, each pair inserted in order: a later
/// pair for a key replaces an earlier one.
pub open spec fn spec_tags_from(
    acc: Seq<(Seq<char>, Seq<char>)>,
    ts: Seq<(Seq<char>, Seq<char>)>,
) -> Seq<(Seq<char>, Seq<char>)>
    decreases ts.len(),
{
    if ts.len() == 0 {
        acc
    } else {
        spec_tags_from(tags_set(acc, ts[0].0, ts[0].1), ts.drop_first())
    }
}

/// The pairs a tag list carries.
pub open spec fn xml_tags_view(ts: Seq<XmlTags>) -> Seq<(Seq<char>, Seq<char>)> {
    ts.map_values(|t: XmlTags| (t.k@, t.v@))
}

/// Folds a decoded tag list into a tag mapping, inserting each pair in
/// order.
pub fn convert_tags(xml_tags: Vec<XmlTags>) -> (r: Tags)
    ensures
        r@ == spec_tags_from(Seq::<(Seq<char>, Seq<char>)>::empty(), xml_tags_view(xml_tags@)),
        r.wf(),
{
    let ghost whole = xml_tags_view(xml_tags@);
    let mut out = Tags::new();
    let mut i: usize = 0;
    proof {
        assert(whole.skip(0) =~= whole);
    }
    while i < xml_tags.len()
        invariant
            i <= xml_tags@.len(),
            whole == xml_tags_view(xml_tags@),
            whole.len() == xml_tags@.len(),
            out.wf(),
            spec_tags_from(Seq::<(Seq<char>, Seq<char>)>::empty(), whole) == spec_tags_from(
                out@,
                whole.skip(i as int),
            ),
        decreases xml_tags@.len() - i,
    {
        proof {
            assert(whole.skip(i as int)[0] == whole[i as int]);
            assert(whole.skip(i as int).drop_first() =~= whole.skip(i + 1));
            assert(whole[i as int] == (xml_tags@[i as int].k@, xml_tags@[i as int].v@));
        }
        let t = &xml_tags[i];
        out.insert(t.k.clone(), t.v.clone());
        i = i + 1;
    }
    proof {
        assert(whole.skip(whole.len() as int).len() == 0);
    }
    out
}

/// Whether the rebuilt element `e` carries exactly the attribute block `m`:
/// identifier and provenance verbatim, the visibility made explicit.
pub open spec fn meta_matches(m: XmlElementMeta, e: crate::elements::ElementView) -> bool {
    &&& e.id == m.id as int
    &&& e.user == m.user.deep_view()
    &&& e.uid == (match m.uid {
        Option::Some(u) => Option::Some(u as int),
        Option::None => Option::<int>::None,
    })
    &&& e.visible == Option::Some(m.visible)
    &&& e.version == (match m.version {
        Option::Some(v) => Option::Some(v as int),
        Option::None => Option::<int>::None,
    })
    &&& e.changeset == (match m.changeset {
        Option::Some(c) => Option::Some(c as int),
        Option::None => Option::<int>::None,
    })
    &&& e.timestamp == m.timestamp.deep_view()
}

/// Rebuilds an element from a decoded record: every field carries over, the
/// tag list folds into the tag mapping, and the record kind fixes the
/// element's shape.
pub fn convert_element(xml_element: XmlElement) -> (r: Element)
    ensures
        r.wf(),
        match xml_element {
            XmlElement::Node(n) => {
                &&& meta_matches(n.meta, r@)
                &&& (r@.element_type matches crate::elements::ElementTypeView::Node { lat, lon }
                    && lat == n.lat as int && lon == n.lon as int)
                &&& r@.tags == spec_tags_from(
                    Seq::<(Seq<char>, Seq<char>)>::empty(),
                    xml_tags_view(n.tags@),
                )
            },
            XmlElement::Way(w) => {
                &&& meta_matches(w.meta, r@)
                &&& (r@.element_type matches crate::elements::ElementTypeView::Way { nodes }
                    && nodes == w.nd@.map_values(|n: XmlWayNode| n.nd_ref as int))
                &&& r@.tags == spec_tags_from(
                    Seq::<(Seq<char>, Seq<char>)>::empty(),
                    xml_tags_view(w.tags@),
                )
            },
            XmlElement::Relation(rel) => {
                &&& meta_matches(rel.meta, r@)
                &&& (r@.element_type matches crate::elements::ElementTypeView::Relation { members }
                    && members == rel.member@.map_values(|m: Member| m@))
                &&& r@.tags == spec_tags_from(
                    Seq::<(Seq<char>, Seq<char>)>::empty(),
                    xml_tags_view(rel.tags@),
                )
            },
        },
{
    match xml_element {
        XmlElement::Node(node) => {
            let tags = convert_tags(node.tags);
            Element {
                changeset: node.meta.changeset,
                user: node.meta.user,
                version: node.meta.version,
                uid: node.meta.uid,
                id: node.meta.id,
                timestamp: node.meta.timestamp,
                visible: Option::Some(node.meta.visible),
                tags,
                element_type: ElementType::Node { lat: node.lat, lon: node.lon },
            }
        },
        XmlElement::Way(way) => {
            let tags = convert_tags(way.tags);
            let mut nodes: Vec<i64> = Vec::new();
            let mut i: usize = 0;
            while i < way.nd.len()
                invariant
                    i <= way.nd@.len(),
                    nodes@.len() == i,
                    forall|j: int| 0 <= j < i ==> (#[trigger] nodes@[j]) == way.nd@[j].nd_ref,
                decreases way.nd@.len() - i,
            {
                nodes.push(way.nd[i].nd_ref);
                i = i + 1;
            }
            proof {
                assert(nodes@.map_values(|n: i64| n as int) =~= way.nd@.map_values(
                    |n: XmlWayNode| n.nd_ref as int,
                ));
            }
            Element {
                changeset: way.meta.changeset,
                user: way.meta.user,
                version: way.meta.version,
                uid: way.meta.uid,
                id: way.meta.id,
                timestamp: way.meta.timestamp,
                visible: Option::Some(way.meta.visible),
                tags,
                element_type: ElementType::Way { nodes },
            }
        },
        XmlElement::Relation(rel) => {
            let tags = convert_tags(rel.tags);
            Element {
                changeset: rel.meta.changeset,
                user: rel.meta.user,
                version: rel.meta.version,
                uid: rel.meta.uid,
                id: rel.meta.id,
                timestamp: rel.meta.timestamp,
                visible: Option::Some(rel.meta.visible),
                tags,
                element_type: ElementType::Relation { members: rel.member },
            }
        },
    }
}

} // verus!
