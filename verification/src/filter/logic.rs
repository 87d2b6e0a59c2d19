//! The earlier generation of the statement-tree filter: statements carry a
//! single delete key and no keep statement, and evaluation threads an
//! element-holding union instead of a separate state word.  The statements
//! share their meaning — and their evaluator — with [`crate::filter::osmfilter`].

use vstd::prelude::*;

use crate::elements;
use crate::elements::same_but_tags;
use crate::filter::osmfilter;
use crate::filter::osmfilter::{
    spec_eval_statement, stmt_view, stmts_view, EvalStep, SelectorV, StatementV,
};

verus! {

/// An element passing through evaluation: still mutable, accepted, or gone.
#[derive(Debug)]
pub enum Element {
    Modifiable(elements::Element),
    Committed(elements::Element),
    Dropped,
}

/// A key paired with the value it must equal.
#[derive(Debug)]
pub struct Equals {
    pub key: String,
    pub value: String,
}

/// The kinds of tag modification a statement can make.
#[derive(Debug)]
pub enum Modifier {
    SetValue,
    Rename,
    Delete,
}

/// A read-only predicate over an element, guarding a selection block.
#[derive(Debug)]
pub enum SelectorStatement {
    Type { node: bool, way: bool, relation: bool },
    Has { key: String },
    Equals { key: String, value: String },
}

/// The mathematical value of a selector.
pub open spec fn sel_view_old(s: SelectorStatement) -> SelectorV {
    match s {
        SelectorStatement::Type { node, way, relation } => SelectorV::Type { node, way, relation },
        SelectorStatement::Has { key } => SelectorV::Has { key: key@ },
        SelectorStatement::Equals { key, value } => SelectorV::Equals {
            key: key@,
            value: value@,
        },
    }
}

impl View for SelectorStatement {
    type V = SelectorV;

    open spec fn view(&self) -> SelectorV {
        sel_view_old(*self)
    }
}

/// One statement of this generation's filter programs.
#[derive(Debug)]
pub enum Statement {
    CommitStatement,
    DropStatement,
    DeleteStatement { key: String },
    SetStatement { key: String, value: String },
    RenameStatement { old_key: String, new_key: String },
    SelectionBlock { selector: SelectorStatement, statements: Vec<Statement> },
}

/// The mathematical value of one statement; a single-key delete means the
/// same as a one-key delete list.
pub open spec fn stmt_view_old(s: Statement) -> StatementV
    decreases s,
{
    match s {
        Statement::CommitStatement => StatementV::Commit,
        Statement::DropStatement => StatementV::Drop,
        Statement::DeleteStatement { key } => StatementV::Delete { keys: seq![key@] },
        Statement::SetStatement { key, value } => StatementV::SetTag { key: key@, value: value@ },
        Statement::RenameStatement { old_key, new_key } => StatementV::Rename {
            old_key: old_key@,
            new_key: new_key@,
        },
        Statement::SelectionBlock { selector, statements } => StatementV::Block {
            selector: sel_view_old(selector),
            statements: stmts_view_old(statements@),
        },
    }
}

/// The mathematical value of a statement sequence.
pub open spec fn stmts_view_old(ss: Seq<Statement>) -> Seq<StatementV>
    decreases ss,
{
    if ss.len() == 0 {
        Seq::empty()
    } else {
        seq![stmt_view_old(ss[0])] + stmts_view_old(ss.drop_first())
    }
}

impl View for Statement {
    type V = StatementV;

    open spec fn view(&self) -> StatementV {
        stmt_view_old(*self)
    }
}

/// `stmts_view_old` maps `stmt_view_old` over the sequence, index by index.
pub proof fn lemma_stmts_view_old(ss: Seq<Statement>)
    ensures
        stmts_view_old(ss).len() == ss.len(),
        forall|i: int| 0 <= i < ss.len() ==> stmts_view_old(ss)[i] == stmt_view_old(ss[i]),
    decreases ss,
{
    if ss.len() > 0 {
        lemma_stmts_view_old(ss.drop_first());
        assert forall|i: int| 0 <= i < ss.len() implies stmts_view_old(ss)[i] == stmt_view_old(
            ss[i],
        ) by {
            if i > 0 {
                assert(ss.drop_first()[i - 1] == ss[i]);
                assert(stmts_view_old(ss)[i] == stmts_view_old(ss.drop_first())[i - 1]);
            }
        }
    }
}

/// Whether `selector` matches `element`, reading it only.
pub fn test_selector(selector: &SelectorStatement, element: &elements::Element) -> (r: bool)
    ensures
        r == osmfilter::spec_selector_matches(selector@, element@.element_type, element@.tags),
{
    match selector {
        SelectorStatement::Type { node, way, relation } => match &element.element_type {
            elements::ElementType::Node { .. } => *node,
            elements::ElementType::Way { .. } => *way,
            elements::ElementType::Relation { .. } => *relation,
        },
        SelectorStatement::Has { key } => element.tags.contains_key(key),
        SelectorStatement::Equals { key, value } => match element.tags.get(key) {
            Option::Some(v) => *v == *value,
            Option::None => false,
        },
    }
}

/// Rewrites a statement of this generation into the shared form, keeping its
/// mathematical value.
#[verifier::loop_isolation(false)]
pub fn to_osmfilter_statement(statement: &Statement) -> (r: osmfilter::Statement)
    ensures
        r@ == statement@,
    decreases *statement,
{
    match statement {
        Statement::CommitStatement => osmfilter::Statement::CommitStatement,
        Statement::DropStatement => osmfilter::Statement::DropStatement,
        Statement::DeleteStatement { key } => {
            let mut keys: Vec<String> = Vec::new();
            keys.push(key.clone());
            proof {
                assert(keys.deep_view() =~= seq![key@]);
            }
            osmfilter::Statement::DeleteStatement { keys }
        },
        Statement::SetStatement { key, value } => osmfilter::Statement::SetStatement {
            key: key.clone(),
            value: value.clone(),
        },
        Statement::RenameStatement { old_key, new_key } => osmfilter::Statement::RenameStatement {
            old_key: old_key.clone(),
            new_key: new_key.clone(),
        },
        Statement::SelectionBlock { selector, statements } => {
            let sel = match selector {
                SelectorStatement::Type { node, way, relation } => {
                    osmfilter::SelectorStatement::Type {
                        node: *node,
                        way: *way,
                        relation: *relation,
                    }
                },
                SelectorStatement::Has { key } => osmfilter::SelectorStatement::Has {
                    key: key.clone(),
                },
                SelectorStatement::Equals { key, value } => osmfilter::SelectorStatement::Equals {
                    key: key.clone(),
                    value: value.clone(),
                },
            };
            let mut body: Vec<osmfilter::Statement> = Vec::new();
            let mut i: usize = 0;
            while i < statements.len()
                invariant
                    i <= statements@.len(),
                    body@.len() == i,
                    forall|j: int| 0 <= j < i ==> stmt_view(body@[j]) == stmt_view_old(
                        statements@[j],
                    ),
                decreases statements@.len() - i,
            {
                let converted = to_osmfilter_statement(&statements[i]);
                body.push(converted);
                i = i + 1;
            }
            proof {
                osmfilter::lemma_stmts_view(body@);
                lemma_stmts_view_old(statements@);
                assert(stmts_view(body@) =~= stmts_view_old(statements@));
            }
            osmfilter::Statement::SelectionBlock { selector: sel, statements: body }
        },
    }
}

/// Runs one statement against the element a union carries.
///
/// A mutable element takes the statement's effect — accepted, rejected or
/// changed in its tags only, as `spec_eval_statement` gives it; a committed
/// or absent element passes through untouched.
pub fn evaluate_statement(statement: &Statement, element: Element) -> (r: Element)
    ensures
        match element {
            Element::Modifiable(e) => match spec_eval_statement(
                statement@,
                e@.element_type,
                e@.tags,
            ) {
                EvalStep::Proceed(t) => match r {
                    Element::Modifiable(out) => same_but_tags(e@, out@) && out@.tags == t && (
                    e.wf() ==> out.wf()),
                    _ => false,
                },
                EvalStep::Accept(t) => match r {
                    Element::Committed(out) => same_but_tags(e@, out@) && out@.tags == t && (
                    e.wf() ==> out.wf()),
                    _ => false,
                },
                EvalStep::Reject => r is Dropped,
            },
            Element::Committed(e) => r == Element::Committed(e),
            Element::Dropped => r is Dropped,
        },
{
    match element {
        Element::Modifiable(mut e) => {
            let converted = to_osmfilter_statement(statement);
            match osmfilter::evaluate_statement(&converted, &mut e) {
                osmfilter::StatementResult::Continue => Element::Modifiable(e),
                osmfilter::StatementResult::Commit => Element::Committed(e),
                osmfilter::StatementResult::Drop => Element::Dropped,
            }
        },
        e => e,
    }
}

/// A parsed filter program of this generation.
#[derive(Debug)]
pub struct Filter {
    pub statements: Vec<Statement>,
}

impl View for Filter {
    type V = Seq<StatementV>;

    open spec fn view(&self) -> Seq<StatementV> {
        stmts_view_old(self.statements@)
    }
}

} // verus!
