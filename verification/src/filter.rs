//! Filters and transforms OpenStreetMap elements.
//!
//! Two interchangeable backends share one contract — accept, transform or
//! drop an element: the statement-tree language of [`osmfilter`] and the
//! expression backend of [`cel`].  The [`logic`] and [`parse`] modules hold
//! the earlier generation of the statement language, kept alive for its
//! callers.

use vstd::prelude::*;

pub mod cel;
pub mod lex;
pub mod logic;
pub mod osmfilter;
pub mod parse;

use crate::elements::{same_but_tags, Element, Tags};
use crate::filter::osmfilter::{spec_eval_program, spec_parse_filter};
use crate::SkywayError;

verus! {

/// One allowed key with the values it admits.
#[derive(Debug)]
pub struct TagFilter {
    pub key: String,
    pub values: Vec<String>,
}

/// A table of tag filters: an element passes when any of its tags matches
/// any filter.
#[derive(Debug)]
pub struct FilterTable {
    pub filters: Vec<TagFilter>,
}

/// Whether some pair of `tags` has a filter in `filters` with its key, whose
/// value list holds its value.
pub open spec fn spec_allows(
    filters: Seq<(Seq<char>, Seq<Seq<char>>)>,
    tags: Seq<(Seq<char>, Seq<char>)>,
) -> bool {
    exists|i: int, j: int|
        0 <= i < tags.len() && 0 <= j < filters.len() && (#[trigger] filters[j]).0 == (
        #[trigger] tags[i]).0 && filters[j].1.contains(tags[i].1)
}

impl View for TagFilter {
    type V = (Seq<char>, Seq<Seq<char>>);

    open spec fn view(&self) -> (Seq<char>, Seq<Seq<char>>) {
        (self.key@, self.values.deep_view())
    }
}

impl FilterTable {
    /// The table's filters as key/value-list pairs.
    pub open spec fn view_filters(&self) -> Seq<(Seq<char>, Seq<Seq<char>>)> {
        self.filters@.map_values(|f: TagFilter| f@)
    }

    /// Whether any tag of `tags` is allowed by this table.
    pub fn allows(&self, tags: &Tags) -> (r: bool)
        ensures
            r == spec_allows(self.view_filters(), tags@),
    {
        let mut i: usize = 0;
        while i < tags.len()
            invariant
                i <= tags@.len(),
                forall|a: int, b: int|
                    0 <= a < i && 0 <= b < self.view_filters().len() ==> !((
                    #[trigger] self.view_filters()[b]).0 == (#[trigger] tags@[a]).0
                        && self.view_filters()[b].1.contains(tags@[a].1)),
            decreases tags@.len() - i,
        {
            let key = tags.key_at(i);
            let value = tags.value_at(i);
            let mut j: usize = 0;
            while j < self.filters.len()
                invariant
                    i < tags@.len(),
                    j <= self.filters@.len(),
                    self.view_filters().len() == self.filters@.len(),
                    key@ == tags@[i as int].0,
                    value@ == tags@[i as int].1,
                    forall|b: int|
                        0 <= b < j ==> !((#[trigger] self.view_filters()[b]).0 == tags@[i as int].0
                            && self.view_filters()[b].1.contains(tags@[i as int].1)),
                decreases self.filters@.len() - j,
            {
                proof {
                    assert(self.view_filters()[j as int] == self.filters@[j as int]@);
                }
                if self.filters[j].key == *key {
                    if crate::elements::vec_contains_string(&self.filters[j].values, value) {
                        proof {
                            assert(self.view_filters()[j as int].0 == tags@[i as int].0
                                && self.view_filters()[j as int].1.contains(tags@[i as int].1));
                        }
                        return true;
                    }
                }
                j = j + 1;
            }
            i = i + 1;
        }
        false
    }
}

/// One filter backend, ready to judge elements: a parsed statement tree or
/// a compiled expression.  The statement grammar is tried first; a text it
/// refuses falls through to the expression engine.
pub enum ElementFilter {
    Osm(osmfilter::OsmFilter),
    Cel(cel::CelFilter),
}

impl ElementFilter {
    /// Judges one element, transforming its tags when the backend says so:
    /// `Ok(true)` keeps the element, `Ok(false)` drops it, and an error is a
    /// fatal flaw in an expression filter.  A statement-tree backend decides
    /// exactly as `spec_eval_program` has it and never fails.
    pub fn evaluate(&self, element: &mut Element) -> (r: Result<bool, SkywayError>)
        ensures
            same_but_tags(old(element)@, final(element)@),
            old(element).wf() ==> final(element).wf(),
            match self {
                ElementFilter::Osm(f) => match spec_eval_program(
                    f@,
                    old(element)@.element_type,
                    old(element)@.tags,
                ) {
                    Option::Some(t) => r == Result::<bool, SkywayError>::Ok(true)
                        && final(element)@.tags == t,
                    Option::None => r == Result::<bool, SkywayError>::Ok(false),
                },
                ElementFilter::Cel(_) => *final(element) == *old(element),
            },
    {
        match self {
            ElementFilter::Osm(f) => Result::Ok(f.evaluate(element)),
            ElementFilter::Cel(f) => f.evaluate(element),
        }
    }
}

/// Builds a filter from its source text: the statement grammar when the
/// text parses in it — so a parsed program's meaning is pinned — otherwise
/// the expression engine exactly when it accepts the text; nothing when
/// both refuse it.
pub fn create_filter(filter_contents: &str) -> (r: Option<ElementFilter>)
    ensures
        match spec_parse_filter(filter_contents@) {
            Option::Some(ss) => match r {
                Option::Some(f) => f matches ElementFilter::Osm(p) && p@ == ss,
                Option::None => false,
            },
            Option::None => match r {
                Option::Some(f) => (f matches ElementFilter::Cel(_)) && cel::cel_accepts(
                    filter_contents@,
                ),
                Option::None => !cel::cel_accepts(filter_contents@),
            },
        },
{
    match osmfilter::parse_filter(filter_contents) {
        Option::Some(f) => Option::Some(ElementFilter::Osm(f)),
        Option::None => {
            match cel::compile_cel_filter(filter_contents) {
                Option::Some(f) => Option::Some(ElementFilter::Cel(f)),
                Option::None => Option::None,
            }
        },
    }
}

} // verus!
