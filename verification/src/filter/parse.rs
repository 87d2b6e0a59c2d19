//! Parsing and whole-stream evaluation for the earlier filter generation.
//!
//! The textual grammar is shared with [`crate::filter::osmfilter`]; this
//! generation accepts its subset — no keep statement, and one key per
//! delete — and rejects the rest.

use vstd::prelude::*;

use crate::elements;
use crate::elements::{same_but_tags, tags_distinct, ElementView};
use crate::filter::logic;
use crate::filter::osmfilter;
use crate::filter::osmfilter::{spec_eval_program, spec_parse_filter, StatementV};

verus! {

/// Whether a shared-form statement falls inside this generation's grammar.
pub open spec fn spec_old_ok(s: StatementV) -> bool
    decreases s,
{
    match s {
        StatementV::Keep { .. } => false,
        StatementV::Delete { keys } => keys.len() == 1,
        StatementV::Block { statements, .. } => spec_old_ok_seq(statements),
        _ => true,
    }
}

/// Whether every statement of a sequence falls inside this generation's
/// grammar.
pub open spec fn spec_old_ok_seq(ss: Seq<StatementV>) -> bool
    decreases ss,
{
    if ss.len() == 0 {
        true
    } else {
        spec_old_ok(ss[0]) && spec_old_ok_seq(ss.drop_first())
    }
}

/// Rewrites a shared-form statement into this generation's form, failing
/// exactly outside its grammar.
#[verifier::loop_isolation(false)]
fn from_osmfilter_statement(statement: &osmfilter::Statement) -> (r: Option<logic::Statement>)
    ensures
        match r {
            Option::Some(out) => spec_old_ok(statement@) && logic::stmt_view_old(out)
                == statement@,
            Option::None => !spec_old_ok(statement@),
        },
    decreases *statement,
{
    match statement {
        osmfilter::Statement::CommitStatement => Option::Some(logic::Statement::CommitStatement),
        osmfilter::Statement::DropStatement => Option::Some(logic::Statement::DropStatement),
        osmfilter::Statement::DeleteStatement { keys } => {
            if keys.len() == 1 {
                let key = keys[0].clone();
                proof {
                    assert(keys.deep_view() =~= seq![key@]);
                }
                Option::Some(logic::Statement::DeleteStatement { key })
            } else {
                Option::None
            }
        },
        osmfilter::Statement::KeepStatement { .. } => Option::None,
        osmfilter::Statement::SetStatement { key, value } => Option::Some(
            logic::Statement::SetStatement { key: key.clone(), value: value.clone() },
        ),
        osmfilter::Statement::RenameStatement { old_key, new_key } => Option::Some(
            logic::Statement::RenameStatement {
                old_key: old_key.clone(),
                new_key: new_key.clone(),
            },
        ),
        osmfilter::Statement::SelectionBlock { selector, statements } => {
            let sel = match selector {
                osmfilter::SelectorStatement::Type { node, way, relation } => {
                    logic::SelectorStatement::Type {
                        node: *node,
                        way: *way,
                        relation: *relation,
                    }
                },
                osmfilter::SelectorStatement::Has { key } => logic::SelectorStatement::Has {
                    key: key.clone(),
                },
                osmfilter::SelectorStatement::Equals { key, value } => {
                    logic::SelectorStatement::Equals { key: key.clone(), value: value.clone() }
                },
            };
            let ghost in_views = osmfilter::stmts_view(statements@);
            proof {
                osmfilter::lemma_stmts_view(statements@);
            }
            let mut body: Vec<logic::Statement> = Vec::new();
            let mut i: usize = 0;
            while i < statements.len()
                invariant
                    i <= statements@.len(),
                    in_views.len() == statements@.len(),
                    body@.len() == i,
                    forall|j: int| 0 <= j < i ==> logic::stmt_view_old(#[trigger] body@[j])
                        == in_views[j] && spec_old_ok(in_views[j]),
                decreases statements@.len() - i,
            {
                match from_osmfilter_statement(&statements[i]) {
                    Option::Some(out) => {
                        body.push(out);
                    },
                    Option::None => {
                        proof {
                            lemma_old_ok_seq_index(in_views, i as int);
                        }
                        return Option::None;
                    },
                }
                i = i + 1;
            }
            proof {
                logic::lemma_stmts_view_old(body@);
                assert(logic::stmts_view_old(body@) =~= in_views);
                lemma_old_ok_seq_all(in_views);
            }
            Option::Some(logic::Statement::SelectionBlock { selector: sel, statements: body })
        },
    }
}

/// A sequence with one statement outside the old grammar is itself outside
/// it.
proof fn lemma_old_ok_seq_index(ss: Seq<StatementV>, i: int)
    requires
        0 <= i < ss.len(),
        !spec_old_ok(ss[i]),
    ensures
        !spec_old_ok_seq(ss),
    decreases ss.len(),
{
    if ss.len() > 0 && i > 0 {
        assert(ss.drop_first()[i - 1] == ss[i]);
        lemma_old_ok_seq_index(ss.drop_first(), i - 1);
    }
}

/// A sequence whose statements each lie in the old grammar lies in it whole.
proof fn lemma_old_ok_seq_all(ss: Seq<StatementV>)
    requires
        forall|j: int| 0 <= j < ss.len() ==> spec_old_ok(#[trigger] ss[j]),
    ensures
        spec_old_ok_seq(ss),
    decreases ss.len(),
{
    if ss.len() > 0 {
        assert(forall|j: int| 0 <= j < ss.drop_first().len() ==> ss.drop_first()[j] == ss[j + 1]);
        lemma_old_ok_seq_all(ss.drop_first());
    }
}

/// Parses a filter text into this generation's program: the shared grammar,
/// restricted to this generation's statements.
pub fn parse_filter(filter_content: &str) -> (r: Option<logic::Filter>)
    ensures
        match (r, spec_parse_filter(filter_content@)) {
            (Option::Some(f), Option::Some(ss)) => f@ == ss && spec_old_ok_seq(ss),
            (Option::None, Option::Some(ss)) => !spec_old_ok_seq(ss),
            (Option::None, Option::None) => true,
            _ => false,
        },
{
    let parsed = match osmfilter::parse_filter(filter_content) {
        Option::Some(f) => f,
        Option::None => {
            return Option::None;
        },
    };
    let ghost in_views = osmfilter::stmts_view(parsed.statements@);
    proof {
        osmfilter::lemma_stmts_view(parsed.statements@);
    }
    let mut body: Vec<logic::Statement> = Vec::new();
    let mut rest = parsed.statements;
    let mut i: usize = 0;
    let n = rest.len();
    #[verifier::loop_isolation(false)]
    while i < n
        invariant
            i + rest@.len() == n == in_views.len(),
            body@.len() == i,
            forall|j: int| 0 <= j < rest@.len() ==> osmfilter::stmt_view(#[trigger] rest@[j])
                == in_views[i + j],
            forall|j: int| 0 <= j < i ==> logic::stmt_view_old(#[trigger] body@[j]) == in_views[j]
                && spec_old_ok(in_views[j]),
        decreases n - i,
    {
        let st = rest.remove(0);
        proof {
            assert(osmfilter::stmt_view(st) == in_views[i as int]);
        }
        match from_osmfilter_statement(&st) {
            Option::Some(out) => {
                body.push(out);
            },
            Option::None => {
                proof {
                    lemma_old_ok_seq_index(in_views, i as int);
                }
                return Option::None;
            },
        }
        i = i + 1;
    }
    proof {
        logic::lemma_stmts_view_old(body@);
        assert(logic::stmts_view_old(body@) =~= in_views);
        lemma_old_ok_seq_all(in_views);
    }
    Option::Some(logic::Filter { statements: body })
}

/// The element a union carries, if it still carries one.
pub fn _element_to_option(element: logic::Element) -> (r: Option<elements::Element>)
    ensures
        match element {
            logic::Element::Modifiable(e) => r == Option::Some(e),
            logic::Element::Committed(e) => r == Option::Some(e),
            logic::Element::Dropped => r is None,
        },
{
    match element {
        logic::Element::Modifiable(e) => Option::Some(e),
        logic::Element::Committed(e) => Option::Some(e),
        logic::Element::Dropped => Option::None,
    }
}

/// Runs a program against one element: the kept element with its final tag
/// mapping, as `spec_eval_program` gives it, or nothing.
#[verifier::loop_isolation(false)]
pub fn evaluate_filter(filter: &logic::Filter, element: elements::Element) -> (r: Option<
    elements::Element,
>)
    ensures
        match spec_eval_program(filter@, element@.element_type, element@.tags) {
            Option::Some(t) => match r {
                Option::Some(out) => same_but_tags(element@, out@) && out@.tags == t && (
                element.wf() ==> out.wf()),
                Option::None => false,
            },
            Option::None => r is None,
        },
{
    let ghost ty = element@.element_type;
    let ghost tags0 = element@.tags;
    let ghost view0 = element@;
    let ghost wf0 = element.wf();
    proof {
        logic::lemma_stmts_view_old(filter.statements@);
        assert(filter@.skip(0) =~= filter@);
    }
    let mut current = logic::Element::Modifiable(element);
    let mut i: usize = 0;
    while i < filter.statements.len()
        invariant
            i <= filter.statements@.len(),
            current is Modifiable,
            match current {
                logic::Element::Modifiable(e) => same_but_tags(view0, e@) && (tags_distinct(
                    view0.tags,
                ) ==> e.wf()) && osmfilter::spec_eval_statements(filter@, ty, tags0)
                    == osmfilter::spec_eval_statements(filter@.skip(i as int), ty, e@.tags),
                _ => false,
            },
        decreases filter.statements@.len() - i,
    {
        let ghost rest = filter@.skip(i as int);
        proof {
            assert(rest[0] == filter@[i as int]);
            assert(rest.drop_first() =~= filter@.skip(i + 1));
        }
        current = logic::evaluate_statement(&filter.statements[i], current);
        match &current {
            logic::Element::Modifiable(_) => {},
            _ => {
                return _element_to_option(current);
            },
        }
        i = i + 1;
    }
    proof {
        assert(filter@.skip(filter.statements@.len() as int).len() == 0);
    }
    _element_to_option(current)
}

/// The elements a program keeps out of a stream, each with its final tag
/// mapping, in order.
pub open spec fn spec_kept(ss: Seq<StatementV>, elems: Seq<ElementView>) -> Seq<ElementView>
    decreases elems.len(),
{
    if elems.len() == 0 {
        Seq::empty()
    } else {
        let rest = spec_kept(ss, elems.drop_first());
        match spec_eval_program(ss, elems[0].element_type, elems[0].tags) {
            Option::Some(t) => seq![ElementView { tags: t, ..elems[0] }] + rest,
            Option::None => rest,
        }
    }
}

/// Parses `filter_contents` and runs the program over every element of
/// `elements`, keeping and transforming as the program says, in order.
/// `None` exactly when the text does not parse in this generation's grammar.
#[verifier::loop_isolation(false)]
pub fn filter_elements(filter_contents: &str, elements: Vec<elements::Element>) -> (r: Option<
    Vec<elements::Element>,
>)
    ensures
        match (r, spec_parse_filter(filter_contents@)) {
            (Option::Some(out), Option::Some(ss)) => spec_old_ok_seq(ss) && out@.map_values(
                |e: elements::Element| e@,
            ) == spec_kept(ss, elements@.map_values(|e: elements::Element| e@)),
            (Option::None, Option::Some(ss)) => !spec_old_ok_seq(ss),
            (Option::None, Option::None) => true,
            _ => false,
        },
{
    let filter = match parse_filter(filter_contents) {
        Option::Some(f) => f,
        Option::None => {
            return Option::None;
        },
    };
    let ghost views = elements@.map_values(|e: elements::Element| e@);
    let mut out: Vec<elements::Element> = Vec::new();
    let mut rest = elements;
    let mut i: usize = 0;
    let n = rest.len();
    proof {
        assert(out@.map_values(|e: elements::Element| e@) =~= Seq::<ElementView>::empty());
        assert(views.skip(0) =~= views);
        assert(Seq::<ElementView>::empty() + spec_kept(filter@, views) =~= spec_kept(
            filter@,
            views,
        ));
    }
    while i < n
        invariant
            i + rest@.len() == n == views.len(),
            forall|j: int| 0 <= j < rest@.len() ==> (#[trigger] rest@[j])@ == views[i + j],
            spec_kept(filter@, views) == out@.map_values(|e: elements::Element| e@) + spec_kept(
                filter@,
                views.skip(i as int),
            ),
        decreases n - i,
    {
        let ghost out0 = out@.map_values(|e: elements::Element| e@);
        let ghost restv = views.skip(i as int);
        proof {
            assert(restv[0] == views[i as int]);
            assert(restv.drop_first() =~= views.skip(i + 1));
        }
        let e = rest.remove(0);
        proof {
            assert(e@ == views[i as int]);
        }
        match evaluate_filter(&filter, e) {
            Option::Some(kept) => {
                out.push(kept);
                proof {
                    assert(out@.map_values(|e: elements::Element| e@) =~= out0.push(kept@));
                    assert(kept@ == (ElementView { tags: kept@.tags, ..views[i as int] }));
                    assert(out0.push(kept@) + spec_kept(filter@, views.skip(i + 1)) =~= out0 + (
                    seq![kept@] + spec_kept(filter@, views.skip(i + 1))));
                }
            },
            Option::None => {},
        }
        i = i + 1;
    }
    proof {
        assert(views.skip(views.len() as int).len() == 0);
        assert(spec_kept(filter@, views.skip(views.len() as int)) =~= Seq::<ElementView>::empty());
        assert(out@.map_values(|e: elements::Element| e@) + Seq::<ElementView>::empty() =~= out@
            .map_values(|e: elements::Element| e@));
    }
    Option::Some(out)
}

/// A program holding one `commit` keeps every element of a stream unchanged:
/// filtering with it returns the stream as it came.
pub proof fn lemma_commit_filter_is_identity(elems: Seq<ElementView>)
    ensures
        spec_kept(seq![StatementV::Commit], elems) == elems,
    decreases elems.len(),
{
    if elems.len() == 0 {
        assert(spec_kept(seq![StatementV::Commit], elems) =~= elems);
    } else {
        lemma_commit_filter_is_identity(elems.drop_first());
        osmfilter::lemma_commit_only_program(elems[0].element_type, elems[0].tags);
        assert(ElementView { tags: elems[0].tags, ..elems[0] } == elems[0]);
        assert(seq![elems[0]] + elems.drop_first() =~= elems);
    }
}

} // verus!
