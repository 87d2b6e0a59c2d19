//! The statement-tree filter backend: a small statement language evaluated
//! against one element at a time, able to mutate the element's tags, accept
//! it, or drop it.
//!
//! Evaluation is a three-state machine.  Each statement either proceeds to
//! the next statement (possibly after changing the tag mapping), accepts the
//! element at once, or rejects it at once.  A selection block whose selector
//! matches runs its nested statements; an accept or reject reached inside a
//! block ends the whole program, not just the block.  A program that runs
//! out of statements keeps the element.

use vstd::prelude::*;

use crate::elements::{
    same_but_tags, tags_contains, tags_delete, tags_distinct, tags_get, tags_keep, tags_remove,
    tags_rename, tags_set, Element, ElementTypeView,
};

verus! {

/// A read-only predicate over an element, guarding a selection block.
#[derive(Debug)]
pub enum SelectorStatement {
    Type { node: bool, way: bool, relation: bool },
    Has { key: String },
    Equals { key: String, value: String },
}

/// The mathematical value of a selector.
pub enum SelectorV {
    Type { node: bool, way: bool, relation: bool },
    Has { key: Seq<char> },
    Equals { key: Seq<char>, value: Seq<char> },
}

impl View for SelectorStatement {
    type V = SelectorV;

    open spec fn view(&self) -> SelectorV {
        match self {
            SelectorStatement::Type { node, way, relation } => SelectorV::Type {
                node: *node,
                way: *way,
                relation: *relation,
            },
            SelectorStatement::Has { key } => SelectorV::Has { key: key@ },
            SelectorStatement::Equals { key, value } => SelectorV::Equals {
                key: key@,
                value: value@,
            },
        }
    }
}

/// One statement of a filter program.
#[derive(Debug)]
pub enum Statement {
    CommitStatement,
    DropStatement,
    DeleteStatement { keys: Vec<String> },
    KeepStatement { keys: Vec<String> },
    SetStatement { key: String, value: String },
    RenameStatement { old_key: String, new_key: String },
    SelectionBlock { selector: SelectorStatement, statements: Vec<Statement> },
}

/// The mathematical value of a statement.
pub enum StatementV {
    Commit,
    Drop,
    Delete { keys: Seq<Seq<char>> },
    Keep { keys: Seq<Seq<char>> },
    SetTag { key: Seq<char>, value: Seq<char> },
    Rename { old_key: Seq<char>, new_key: Seq<char> },
    Block { selector: SelectorV, statements: Seq<StatementV> },
}

/// The mathematical value of one statement.
pub open spec fn stmt_view(s: Statement) -> StatementV
    decreases s,
{
    match s {
        Statement::CommitStatement => StatementV::Commit,
        Statement::DropStatement => StatementV::Drop,
        Statement::DeleteStatement { keys } => StatementV::Delete { keys: keys.deep_view() },
        Statement::KeepStatement { keys } => StatementV::Keep { keys: keys.deep_view() },
        Statement::SetStatement { key, value } => StatementV::SetTag { key: key@, value: value@ },
        Statement::RenameStatement { old_key, new_key } => StatementV::Rename {
            old_key: old_key@,
            new_key: new_key@,
        },
        Statement::SelectionBlock { selector, statements } => StatementV::Block {
            selector: selector@,
            statements: stmts_view(statements@),
        },
    }
}

/// The mathematical value of a statement sequence.
pub open spec fn stmts_view(ss: Seq<Statement>) -> Seq<StatementV>
    decreases ss,
{
    if ss.len() == 0 {
        Seq::empty()
    } else {
        seq![stmt_view(ss[0])] + stmts_view(ss.drop_first())
    }
}

impl View for Statement {
    type V = StatementV;

    open spec fn view(&self) -> StatementV {
        stmt_view(*self)
    }
}

/// `stmts_view` maps `stmt_view` over the sequence, index by index.
pub proof fn lemma_stmts_view(ss: Seq<Statement>)
    ensures
        stmts_view(ss).len() == ss.len(),
        forall|i: int| 0 <= i < ss.len() ==> stmts_view(ss)[i] == stmt_view(ss[i]),
    decreases ss,
{
    if ss.len() > 0 {
        lemma_stmts_view(ss.drop_first());
        assert forall|i: int| 0 <= i < ss.len() implies stmts_view(ss)[i] == stmt_view(
            ss[i],
        ) by {
            if i > 0 {
                assert(ss.drop_first()[i - 1] == ss[i]);
                assert(stmts_view(ss)[i] == stmts_view(ss.drop_first())[i - 1]);
            }
        }
    }
}

/// Whether `sel` matches an element of type `ty` carrying `tags`.
pub open spec fn spec_selector_matches(
    sel: SelectorV,
    ty: ElementTypeView,
    tags: Seq<(Seq<char>, Seq<char>)>,
) -> bool {
    match sel {
        SelectorV::Type { node, way, relation } => match ty {
            ElementTypeView::Node { .. } => node,
            ElementTypeView::Way { .. } => way,
            ElementTypeView::Relation { .. } => relation,
        },
        SelectorV::Has { key } => tags_contains(tags, key),
        SelectorV::Equals { key, value } => tags_get(tags, key) == Option::Some(value),
    }
}

/// What one evaluation step leaves behind: the program proceeds with the
/// mapping, halts accepting with the mapping, or halts rejecting.
pub enum EvalStep {
    Proceed(Seq<(Seq<char>, Seq<char>)>),
    Accept(Seq<(Seq<char>, Seq<char>)>),
    Reject,
}

/// The effect of one statement on an element of type `ty` carrying `tags`.
pub open spec fn spec_eval_statement(
    s: StatementV,
    ty: ElementTypeView,
    tags: Seq<(Seq<char>, Seq<char>)>,
) -> EvalStep
    decreases s,
{
    match s {
        StatementV::Commit => EvalStep::Accept(tags),
        StatementV::Drop => EvalStep::Reject,
        StatementV::Delete { keys } => EvalStep::Proceed(tags_delete(tags, keys)),
        StatementV::Keep { keys } => EvalStep::Proceed(tags_keep(tags, keys)),
        StatementV::SetTag { key, value } => EvalStep::Proceed(tags_set(tags, key, value)),
        StatementV::Rename { old_key, new_key } => EvalStep::Proceed(
            tags_rename(tags, old_key, new_key),
        ),
        StatementV::Block { selector, statements } => if spec_selector_matches(
            selector,
            ty,
            tags,
        ) {
            spec_eval_statements(statements, ty, tags)
        } else {
            EvalStep::Proceed(tags)
        },
    }
}

/// The effect of a statement sequence, statement by statement; an accept or
/// reject anywhere ends the whole sequence at once.
pub open spec fn spec_eval_statements(
    ss: Seq<StatementV>,
    ty: ElementTypeView,
    tags: Seq<(Seq<char>, Seq<char>)>,
) -> EvalStep
    decreases ss,
{
    if ss.len() == 0 {
        EvalStep::Proceed(tags)
    } else {
        match spec_eval_statement(ss[0], ty, tags) {
            EvalStep::Proceed(t) => spec_eval_statements(ss.drop_first(), ty, t),
            r => r,
        }
    }
}

/// What a whole program leaves of an element: its final tag mapping when the
/// element is kept (by explicit accept or by running out of statements), or
/// nothing when it is dropped.
pub open spec fn spec_eval_program(
    ss: Seq<StatementV>,
    ty: ElementTypeView,
    tags: Seq<(Seq<char>, Seq<char>)>,
) -> Option<Seq<(Seq<char>, Seq<char>)>> {
    match spec_eval_statements(ss, ty, tags) {
        EvalStep::Proceed(t) => Option::Some(t),
        EvalStep::Accept(t) => Option::Some(t),
        EvalStep::Reject => Option::None,
    }
}

/// Whether `selector` matches `element`, reading it only.
pub fn test_selector(selector: &SelectorStatement, element: &Element) -> (r: bool)
    ensures
        r == spec_selector_matches(selector@, element@.element_type, element@.tags),
{
    match selector {
        SelectorStatement::Type { node, way, relation } => match &element.element_type {
            crate::elements::ElementType::Node { .. } => *node,
            crate::elements::ElementType::Way { .. } => *way,
            crate::elements::ElementType::Relation { .. } => *relation,
        },
        SelectorStatement::Has { key } => element.tags.contains_key(key),
        SelectorStatement::Equals { key, value } => match element.tags.get(key) {
            Option::Some(v) => *v == *value,
            Option::None => false,
        },
    }
}

/// Runs one statement against `element`, mutating its tags in place.
///
/// The returned state and the new tag mapping are exactly what
/// `spec_eval_statement` gives for the statement; every field but the tags
/// is left untouched.
#[verifier::loop_isolation(false)]
pub fn evaluate_statement(statement: &Statement, element: &mut Element) -> (r: StatementResult)
    ensures
        same_but_tags(old(element)@, final(element)@),
        old(element).wf() ==> final(element).wf(),
        match spec_eval_statement(statement@, old(element)@.element_type, old(element)@.tags) {
            EvalStep::Proceed(t) => r is Continue && final(element)@.tags == t,
            EvalStep::Accept(t) => r is Commit && final(element)@.tags == t,
            EvalStep::Reject => r is Drop,
        },
    decreases *statement,
{
    match statement {
        Statement::CommitStatement => StatementResult::Commit,
        Statement::DropStatement => StatementResult::Drop,
        Statement::DeleteStatement { keys } => {
            element.tags.remove_keys(keys);
            StatementResult::Continue
        },
        Statement::KeepStatement { keys } => {
            element.tags.retain_keys(keys);
            StatementResult::Continue
        },
        Statement::SetStatement { key, value } => {
            element.tags.insert(key.clone(), value.clone());
            StatementResult::Continue
        },
        Statement::RenameStatement { old_key, new_key } => {
            match element.tags.remove(old_key) {
                Option::Some(v) => {
                    element.tags.insert(new_key.clone(), v);
                },
                Option::None => {
                    proof {
                        crate::elements::lemma_tags_remove_absent(old(element)@.tags, old_key@);
                    }
                },
            }
            StatementResult::Continue
        },
        Statement::SelectionBlock { selector, statements } => {
            if test_selector(selector, element) {
                let ghost ty = element@.element_type;
                let ghost tags0 = element@.tags;
                let ghost view0 = element@;
                proof {
                    lemma_stmts_view(statements@);
                    assert(stmts_view(statements@).skip(0) =~= stmts_view(statements@));
                }
                let mut i: usize = 0;
                while i < statements.len()
                    invariant
                        i <= statements@.len(),
                        same_but_tags(view0, element@),
                        tags_distinct(view0.tags) ==> element.wf(),
                        spec_eval_statements(stmts_view(statements@), ty, tags0)
                            == spec_eval_statements(
                            stmts_view(statements@).skip(i as int),
                            ty,
                            element@.tags,
                        ),
                    decreases statements@.len() - i,
                {
                    let ghost rest = stmts_view(statements@).skip(i as int);
                    proof {
                        assert(rest[0] == stmts_view(statements@)[i as int]);
                        assert(rest.drop_first() =~= stmts_view(statements@).skip(i + 1));
                    }
                    let r = evaluate_statement(&statements[i], element);
                    match r {
                        StatementResult::Continue => {},
                        _ => {
                            return r;
                        },
                    }
                    i = i + 1;
                }
                proof {
                    assert(stmts_view(statements@).skip(statements@.len() as int).len() == 0);
                }
                StatementResult::Continue
            } else {
                StatementResult::Continue
            }
        },
    }
}

/// The three states of statement evaluation: go on with the next statement,
/// accept the element now, or drop it now.
#[derive(Debug, Clone, Copy, PartialEq, Eq, Structural)]
pub enum StatementResult {
    Continue,
    Commit,
    Drop,
}

/// A parsed filter program: an ordered sequence of statements.
#[derive(Debug)]
pub struct OsmFilter {
    pub statements: Vec<Statement>,
}

impl View for OsmFilter {
    type V = Seq<StatementV>;

    open spec fn view(&self) -> Seq<StatementV> {
        stmts_view(self.statements@)
    }
}

impl OsmFilter {
    /// Runs the program against `element`: `true` keeps the (possibly
    /// transformed) element, `false` drops it.  An exhausted program keeps
    /// the element.
    #[verifier::loop_isolation(false)]
    pub fn evaluate(&self, element: &mut Element) -> (r: bool)
        ensures
            same_but_tags(old(element)@, final(element)@),
            old(element).wf() ==> final(element).wf(),
            match spec_eval_program(self@, old(element)@.element_type, old(element)@.tags) {
                Option::Some(t) => r && final(element)@.tags == t,
                Option::None => !r,
            },
    {
        let ghost ty = element@.element_type;
        let ghost tags0 = element@.tags;
        let ghost view0 = element@;
        proof {
            lemma_stmts_view(self.statements@);
            assert(self@.skip(0) =~= self@);
        }
        let mut i: usize = 0;
        while i < self.statements.len()
            invariant
                i <= self.statements@.len(),
                same_but_tags(view0, element@),
                tags_distinct(view0.tags) ==> element.wf(),
                spec_eval_statements(self@, ty, tags0) == spec_eval_statements(
                    self@.skip(i as int),
                    ty,
                    element@.tags,
                ),
            decreases self.statements@.len() - i,
        {
            let ghost rest = self@.skip(i as int);
            proof {
                assert(rest[0] == self@[i as int]);
                assert(rest.drop_first() =~= self@.skip(i + 1));
            }
            match evaluate_statement(&self.statements[i], element) {
                StatementResult::Continue => {},
                StatementResult::Commit => {
                    return true;
                },
                StatementResult::Drop => {
                    return false;
                },
            }
            i = i + 1;
        }
        proof {
            assert(self@.skip(self.statements@.len() as int).len() == 0);
        }
        true
    }
}

/// A program holding one `commit` keeps every element and leaves its tag
/// mapping exactly as it came in.
pub proof fn lemma_commit_only_program(ty: ElementTypeView, tags: Seq<(Seq<char>, Seq<char>)>)
    ensures
        spec_eval_program(seq![StatementV::Commit], ty, tags) == Option::Some(tags),
{
    let prog = seq![StatementV::Commit];
    assert(prog.len() == 1);
    assert(prog[0] == StatementV::Commit);
    assert(spec_eval_statement(prog[0], ty, tags) == EvalStep::Accept(tags));
    assert(spec_eval_statements(prog, ty, tags) == EvalStep::Accept(tags));
    assert(spec_eval_program(prog, ty, tags) == Option::Some(tags));
}

/// A program holding one `drop` returns nothing, for every element.
pub proof fn lemma_drop_only_program(ty: ElementTypeView, tags: Seq<(Seq<char>, Seq<char>)>)
    ensures
        spec_eval_program(seq![StatementV::Drop], ty, tags) is None,
{
    let prog = seq![StatementV::Drop];
    assert(prog.len() == 1);
    assert(prog[0] == StatementV::Drop);
    assert(spec_eval_statement(prog[0], ty, tags) == EvalStep::Reject);
    assert(spec_eval_statements(prog, ty, tags) == EvalStep::Reject);
}

/// Setting `k` twice in one program leaves the last written value: after
/// `set(k, v1)` then `set(k, v2)`, the element is kept and `k` maps to `v2`.
pub proof fn lemma_set_twice_last_wins(
    ty: ElementTypeView,
    tags: Seq<(Seq<char>, Seq<char>)>,
    k: Seq<char>,
    v1: Seq<char>,
    v2: Seq<char>,
)
    ensures
        ({
            let out = spec_eval_program(
                seq![
                    StatementV::SetTag { key: k, value: v1 },
                    StatementV::SetTag { key: k, value: v2 },
                ],
                ty,
                tags,
            );
            out is Some && tags_get(out->0, k) == Option::Some(v2)
        }),
{
    let prog = seq![
        StatementV::SetTag { key: k, value: v1 },
        StatementV::SetTag { key: k, value: v2 },
    ];
    let t1 = tags_set(tags, k, v1);
    let t2 = tags_set(t1, k, v2);
    assert(prog.len() == 2);
    assert(prog[0] == StatementV::SetTag { key: k, value: v1 });
    assert(spec_eval_statement(prog[0], ty, tags) == EvalStep::Proceed(t1));
    let rest = prog.drop_first();
    assert(rest =~= seq![StatementV::SetTag { key: k, value: v2 }]);
    assert(rest[0] == StatementV::SetTag { key: k, value: v2 });
    assert(spec_eval_statement(rest[0], ty, t1) == EvalStep::Proceed(t2));
    assert(rest.drop_first().len() == 0);
    assert(spec_eval_statements(rest.drop_first(), ty, t2) == EvalStep::Proceed(t2));
    assert(spec_eval_statements(rest, ty, t1) == EvalStep::Proceed(t2));
    assert(spec_eval_statements(prog, ty, tags) == EvalStep::Proceed(t2));
    assert(spec_eval_program(prog, ty, tags) == Option::Some(t2));
    crate::elements::lemma_tags_set_get(t1, k, v2, k);
}

/// A selection block whose selector does not match leaves the element
/// exactly as it entered, and evaluation continues past the block.
pub proof fn lemma_block_no_match(
    sel: SelectorV,
    body: Seq<StatementV>,
    ty: ElementTypeView,
    tags: Seq<(Seq<char>, Seq<char>)>,
)
    requires
        !spec_selector_matches(sel, ty, tags),
    ensures
        spec_eval_statement(StatementV::Block { selector: sel, statements: body }, ty, tags)
            == EvalStep::Proceed(tags),
{
}

/// A matching selection block whose nested statements reach `drop` makes the
/// whole program return nothing, whatever statements follow the block.
pub proof fn lemma_block_drop_ends_program(
    sel: SelectorV,
    body: Seq<StatementV>,
    rest: Seq<StatementV>,
    ty: ElementTypeView,
    tags: Seq<(Seq<char>, Seq<char>)>,
)
    requires
        spec_selector_matches(sel, ty, tags),
        spec_eval_statements(body, ty, tags) == EvalStep::Reject,
    ensures
        spec_eval_program(
            seq![StatementV::Block { selector: sel, statements: body }] + rest,
            ty,
            tags,
        ) is None,
{
    let prog = seq![StatementV::Block { selector: sel, statements: body }] + rest;
    assert(prog.len() >= 1);
    assert(prog[0] == StatementV::Block { selector: sel, statements: body });
    assert(spec_eval_statement(prog[0], ty, tags) == EvalStep::Reject);
    assert(spec_eval_statements(prog, ty, tags) == EvalStep::Reject);
}

/// Renaming is a no-op when the old key is absent; when present, the old key
/// leaves and the new key holds the prior value of the old one.
pub proof fn lemma_rename_semantics(
    tags: Seq<(Seq<char>, Seq<char>)>,
    old_key: Seq<char>,
    new_key: Seq<char>,
)
    requires
        old_key != new_key,
    ensures
        tags_get(tags, old_key) is None ==> tags_rename(tags, old_key, new_key) == tags,
        tags_get(tags, old_key) is Some ==> ({
            let out = tags_rename(tags, old_key, new_key);
            &&& tags_get(out, new_key) == tags_get(tags, old_key)
            &&& !tags_contains(out, old_key)
        }),
{
    if tags_get(tags, old_key) is Some {
        let v = tags_get(tags, old_key)->0;
        let removed = tags_remove(tags, old_key);
        crate::elements::lemma_tags_set_get(removed, new_key, v, new_key);
        crate::elements::lemma_tags_set_get(removed, new_key, v, old_key);
        crate::elements::lemma_tags_remove_get(tags, old_key, old_key);
        crate::elements::lemma_tags_remove_get(removed, new_key, old_key);
        crate::elements::lemma_tags_get_contains(tags_set(removed, new_key, v), old_key);
    }
}

} // verus!

// The parser: a leading version declaration, then whitespace-separated
// statements; nesting is a selector clause followed by a braced statement
// list.  Parsing is total-or-nothing: any flaw in the text yields `None`.

use crate::filter::lex::{
    spec_tokenize, tokenize, toks_view, Token, TokenV,
};
use crate::text::{str_eq, str_to_chars};

verus! {

/// The text a value token carries: a bare word or a quoted literal.
pub open spec fn spec_value_of(t: TokenV) -> Option<Seq<char>> {
    match t {
        TokenV::Word(w) => Option::Some(w),
        TokenV::Quoted(w) => Option::Some(w),
        _ => Option::None,
    }
}

/// A comma-separated list of bare keys, closed by `)`; the opening `(` has
/// been consumed.  Yields the keys and the position past the `)`.
pub open spec fn parse_keys_at(ts: Seq<TokenV>, i: int) -> Option<(Seq<Seq<char>>, int)>
    decreases ts.len() - i,
{
    if i < 0 || i >= ts.len() {
        Option::None
    } else {
        match ts[i] {
            TokenV::Word(w) => if i + 1 >= ts.len() {
                Option::None
            } else if ts[i + 1] is RParen {
                Option::Some((seq![w], i + 2))
            } else if ts[i + 1] is Comma {
                match parse_keys_at(ts, i + 2) {
                    Option::Some((rest, j)) => Option::Some((seq![w] + rest, j)),
                    Option::None => Option::None,
                }
            } else {
                Option::None
            },
            _ => Option::None,
        }
    }
}

/// A comma-separated, non-empty list of type names, closed by `)`; flags for
/// node, way and relation accumulate.
pub open spec fn parse_types_at(ts: Seq<TokenV>, i: int) -> Option<((bool, bool, bool), int)>
    decreases ts.len() - i,
{
    if i < 0 || i >= ts.len() {
        Option::None
    } else {
        match ts[i] {
            TokenV::Word(w) => if w != "node"@ && w != "way"@ && w != "relation"@ {
                Option::None
            } else {
                let f = (w == "node"@, w == "way"@, w == "relation"@);
                if i + 1 >= ts.len() {
                    Option::None
                } else if ts[i + 1] is RParen {
                    Option::Some((f, i + 2))
                } else if ts[i + 1] is Comma {
                    match parse_types_at(ts, i + 2) {
                        Option::Some(((n, wy, rl), j)) => Option::Some(
                            ((f.0 || n, f.1 || wy, f.2 || rl), j),
                        ),
                        Option::None => Option::None,
                    }
                } else {
                    Option::None
                }
            },
            _ => Option::None,
        }
    }
}

/// A selector clause: `has(key)`, `equals(key, value)` or `type(names)`.
pub open spec fn parse_selector_at(ts: Seq<TokenV>, i: int) -> Option<(SelectorV, int)> {
    if i < 0 || i >= ts.len() {
        Option::None
    } else {
        match ts[i] {
            TokenV::Word(w) => if w == "has"@ {
                if i + 3 < ts.len() && ts[i + 1] is LParen && ts[i + 2] is Word && ts[i
                    + 3] is RParen {
                    Option::Some((SelectorV::Has { key: ts[i + 2]->Word_0 }, i + 4))
                } else {
                    Option::None
                }
            } else if w == "equals"@ {
                if i + 5 < ts.len() && ts[i + 1] is LParen && ts[i + 2] is Word && ts[i
                    + 3] is Comma && spec_value_of(ts[i + 4]) is Some && ts[i + 5] is RParen {
                    Option::Some(
                        (
                            SelectorV::Equals {
                                key: ts[i + 2]->Word_0,
                                value: spec_value_of(ts[i + 4])->0,
                            },
                            i + 6,
                        ),
                    )
                } else {
                    Option::None
                }
            } else if w == "type"@ {
                if i + 1 < ts.len() && ts[i + 1] is LParen {
                    match parse_types_at(ts, i + 2) {
                        Option::Some(((n, wy, rl), j)) => Option::Some(
                            (SelectorV::Type { node: n, way: wy, relation: rl }, j),
                        ),
                        Option::None => Option::None,
                    }
                } else {
                    Option::None
                }
            } else {
                Option::None
            },
            _ => Option::None,
        }
    }
}

/// One statement: a keyword statement or a selector-led block.
pub open spec fn parse_stmt_at(ts: Seq<TokenV>, i: int) -> Option<(StatementV, int)>
    decreases ts.len() - i, 0int,
{
    if i < 0 || i >= ts.len() {
        Option::None
    } else {
        match ts[i] {
            TokenV::Word(w) => if w == "commit"@ {
                Option::Some((StatementV::Commit, i + 1))
            } else if w == "drop"@ {
                Option::Some((StatementV::Drop, i + 1))
            } else if w == "delete"@ || w == "keep"@ {
                if i + 1 < ts.len() && ts[i + 1] is LParen {
                    match parse_keys_at(ts, i + 2) {
                        Option::Some((keys, j)) => if w == "delete"@ {
                            Option::Some((StatementV::Delete { keys }, j))
                        } else {
                            Option::Some((StatementV::Keep { keys }, j))
                        },
                        Option::None => Option::None,
                    }
                } else {
                    Option::None
                }
            } else if w == "set"@ || w == "rename"@ {
                if i + 5 < ts.len() && ts[i + 1] is LParen && ts[i + 2] is Word && ts[i
                    + 3] is Comma && spec_value_of(ts[i + 4]) is Some && ts[i + 5] is RParen {
                    let k = ts[i + 2]->Word_0;
                    let v = spec_value_of(ts[i + 4])->0;
                    if w == "set"@ {
                        Option::Some((StatementV::SetTag { key: k, value: v }, i + 6))
                    } else {
                        Option::Some((StatementV::Rename { old_key: k, new_key: v }, i + 6))
                    }
                } else {
                    Option::None
                }
            } else {
                match parse_selector_at(ts, i) {
                    Option::Some((sel, j)) => if 0 <= j < ts.len() && ts[j] is LBrace {
                        let b = if j + 1 > i && j + 1 <= ts.len() {
                            j + 1
                        } else {
                            i + 1
                        };
                        match parse_stmts_at(ts, b) {
                            Option::Some((ss, k)) => if 0 <= k < ts.len() && ts[k] is RBrace {
                                Option::Some(
                                    (StatementV::Block { selector: sel, statements: ss }, k + 1),
                                )
                            } else {
                                Option::None
                            },
                            Option::None => Option::None,
                        }
                    } else {
                        Option::None
                    },
                    Option::None => Option::None,
                }
            },
            _ => Option::None,
        }
    }
}

/// A statement list, ending at the text's end or just before a `}`.
pub open spec fn parse_stmts_at(ts: Seq<TokenV>, i: int) -> Option<(Seq<StatementV>, int)>
    decreases ts.len() - i, 1int,
{
    if i < 0 || i > ts.len() {
        Option::None
    } else if i == ts.len() {
        Option::Some((Seq::empty(), i))
    } else if ts[i] is RBrace {
        Option::Some((Seq::empty(), i))
    } else {
        match parse_stmt_at(ts, i) {
            Option::Some((st, j)) => {
                let j2 = if j > i && j <= ts.len() {
                    j
                } else {
                    i + 1
                };
                match parse_stmts_at(ts, j2) {
                    Option::Some((rest, k)) => Option::Some((seq![st] + rest, k)),
                    Option::None => Option::None,
                }
            },
            Option::None => Option::None,
        }
    }
}

/// A whole filter text: tokens, a `version` declaration with its version
/// word, then statements covering every remaining token.
pub open spec fn spec_parse_filter(cs: Seq<char>) -> Option<Seq<StatementV>> {
    match spec_tokenize(cs) {
        Option::Some(toks) => if toks.len() >= 2 && toks[0] == TokenV::Word("version"@) && toks[1]
            is Word {
            match parse_stmts_at(toks, 2) {
                Option::Some((ss, j)) => if j == toks.len() {
                    Option::Some(ss)
                } else {
                    Option::None
                },
                Option::None => Option::None,
            }
        } else {
            Option::None
        },
        Option::None => Option::None,
    }
}

/// The version word a filter text declares: the second token, when the text
/// tokenizes and opens with the word `version` followed by a word.
pub open spec fn spec_declared_version(cs: Seq<char>) -> Option<Seq<char>> {
    match spec_tokenize(cs) {
        Option::Some(toks) => if toks.len() >= 2 && toks[0] == TokenV::Word("version"@) && toks[1]
            is Word {
            Option::Some(toks[1]->Word_0)
        } else {
            Option::None
        },
        Option::None => Option::None,
    }
}

/// The version a filter text declares, exactly as `spec_declared_version`
/// gives it, so that a caller can report a mismatch with its own version —
/// a warning, never a parse failure.
pub fn declared_version(filter_content: &str) -> (r: Option<String>)
    ensures
        match r {
            Option::Some(v) => spec_declared_version(filter_content@) == Option::Some(v@),
            Option::None => spec_declared_version(filter_content@) is None,
        },
{
    let cs = str_to_chars(filter_content);
    let toks = match tokenize(&cs) {
        Option::Some(t) => t,
        Option::None => {
            return Option::None;
        },
    };
    proof {
        assert(toks_view(toks@).len() == toks@.len());
        assert(forall|k: int| 0 <= k < toks@.len() ==> toks_view(toks@)[k] == toks@[k]@);
    }
    if toks.len() < 2 {
        return Option::None;
    }
    let version_ok = match &toks[0] {
        Token::Word(w) => str_eq(w, "version"),
        _ => false,
    };
    if !version_ok {
        return Option::None;
    }
    match &toks[1] {
        Token::Word(w) => Option::Some(w.clone()),
        _ => Option::None,
    }
}

/// Reads a key list, as `parse_keys_at` gives it.
fn parse_keys_exec(ts: &Vec<Token>, i: usize) -> (r: Option<(Vec<String>, usize)>)
    requires
        i <= ts@.len(),
    ensures
        match r {
            Option::Some((keys, j)) => parse_keys_at(toks_view(ts@), i as int) == Option::Some(
                (keys.deep_view(), j as int),
            ) && i < j <= ts@.len(),
            Option::None => parse_keys_at(toks_view(ts@), i as int) is None,
        },
    decreases ts@.len() - i,
{
    proof {
        assert(toks_view(ts@).len() == ts@.len());
    }
    if i >= ts.len() {
        return Option::None;
    }
    proof {
        assert(toks_view(ts@)[i as int] == ts@[i as int]@);
        assert(i + 1 < ts@.len() ==> toks_view(ts@)[i + 1] == ts@[i + 1]@);
    }
    match &ts[i] {
        Token::Word(w) => {
            if i + 1 >= ts.len() {
                return Option::None;
            }
            match &ts[i + 1] {
                Token::RParen => {
                    let mut keys: Vec<String> = Vec::new();
                    keys.push(w.clone());
                    proof {
                        assert(keys.deep_view() =~= seq![w@]);
                    }
                    Option::Some((keys, i + 2))
                },
                Token::Comma => {
                    match parse_keys_exec(ts, i + 2) {
                        Option::Some((rest, j)) => {
                            let mut keys = rest;
                            let ghost rest_view = keys.deep_view();
                            keys.insert(0, w.clone());
                            proof {
                                assert(keys.deep_view() =~= seq![w@] + rest_view);
                            }
                            Option::Some((keys, j))
                        },
                        Option::None => Option::None,
                    }
                },
                _ => Option::None,
            }
        },
        _ => Option::None,
    }
}

/// Reads a type-name list, as `parse_types_at` gives it.
fn parse_types_exec(ts: &Vec<Token>, i: usize) -> (r: Option<((bool, bool, bool), usize)>)
    requires
        i <= ts@.len(),
    ensures
        match r {
            Option::Some((f, j)) => parse_types_at(toks_view(ts@), i as int) == Option::Some(
                (f, j as int),
            ) && i < j <= ts@.len(),
            Option::None => parse_types_at(toks_view(ts@), i as int) is None,
        },
    decreases ts@.len() - i,
{
    proof {
        assert(toks_view(ts@).len() == ts@.len());
    }
    if i >= ts.len() {
        return Option::None;
    }
    proof {
        assert(toks_view(ts@)[i as int] == ts@[i as int]@);
        assert(i + 1 < ts@.len() ==> toks_view(ts@)[i + 1] == ts@[i + 1]@);
    }
    match &ts[i] {
        Token::Word(w) => {
            let is_node = str_eq(w, "node");
            let is_way = str_eq(w, "way");
            let is_relation = str_eq(w, "relation");
            if !is_node && !is_way && !is_relation {
                return Option::None;
            }
            if i + 1 >= ts.len() {
                return Option::None;
            }
            match &ts[i + 1] {
                Token::RParen => Option::Some(((is_node, is_way, is_relation), i + 2)),
                Token::Comma => {
                    match parse_types_exec(ts, i + 2) {
                        Option::Some(((n, wy, rl), j)) => Option::Some(
                            ((is_node || n, is_way || wy, is_relation || rl), j),
                        ),
                        Option::None => Option::None,
                    }
                },
                _ => Option::None,
            }
        },
        _ => Option::None,
    }
}

/// Reads a selector clause, as `parse_selector_at` gives it.
fn parse_selector_exec(ts: &Vec<Token>, i: usize) -> (r: Option<(SelectorStatement, usize)>)
    requires
        i <= ts@.len(),
    ensures
        match r {
            Option::Some((sel, j)) => parse_selector_at(toks_view(ts@), i as int) == Option::Some(
                (sel@, j as int),
            ) && i < j <= ts@.len(),
            Option::None => parse_selector_at(toks_view(ts@), i as int) is None,
        },
{
    proof {
        assert(toks_view(ts@).len() == ts@.len());
        assert(forall|k: int| 0 <= k < ts@.len() ==> toks_view(ts@)[k] == ts@[k]@);
    }
    if i >= ts.len() {
        return Option::None;
    }
    let remaining = ts.len() - i;
    match &ts[i] {
        Token::Word(w) => {
            if str_eq(w, "has") {
                if remaining > 3 {
                    let open_ok = matches!(&ts[i + 1], Token::LParen);
                    let close_ok = matches!(&ts[i + 3], Token::RParen);
                    if open_ok && close_ok {
                        match &ts[i + 2] {
                            Token::Word(k) => Option::Some(
                                (SelectorStatement::Has { key: k.clone() }, i + 4),
                            ),
                            _ => Option::None,
                        }
                    } else {
                        Option::None
                    }
                } else {
                    Option::None
                }
            } else if str_eq(w, "equals") {
                if remaining > 5 {
                    let shape_ok = matches!(&ts[i + 1], Token::LParen) && matches!(
                        &ts[i + 3],
                        Token::Comma,
                    ) && matches!(&ts[i + 5], Token::RParen);
                    if shape_ok {
                        let k = match &ts[i + 2] {
                            Token::Word(k) => k,
                            _ => {
                                return Option::None;
                            },
                        };
                        let v = match &ts[i + 4] {
                            Token::Word(v) => v,
                            Token::Quoted(v) => v,
                            _ => {
                                return Option::None;
                            },
                        };
                        Option::Some(
                            (
                                SelectorStatement::Equals { key: k.clone(), value: v.clone() },
                                i + 6,
                            ),
                        )
                    } else {
                        Option::None
                    }
                } else {
                    Option::None
                }
            } else if str_eq(w, "type") {
                if remaining > 1 && matches!(&ts[i + 1], Token::LParen) {
                    match parse_types_exec(ts, i + 2) {
                        Option::Some(((n, wy, rl), j)) => Option::Some(
                            (SelectorStatement::Type { node: n, way: wy, relation: rl }, j),
                        ),
                        Option::None => Option::None,
                    }
                } else {
                    Option::None
                }
            } else {
                Option::None
            }
        },
        _ => Option::None,
    }
}

/// Reads one statement, as `parse_stmt_at` gives it.
fn parse_stmt_exec(ts: &Vec<Token>, i: usize) -> (r: Option<(Statement, usize)>)
    requires
        i <= ts@.len(),
    ensures
        match r {
            Option::Some((st, j)) => parse_stmt_at(toks_view(ts@), i as int) == Option::Some(
                (st@, j as int),
            ) && i < j <= ts@.len(),
            Option::None => parse_stmt_at(toks_view(ts@), i as int) is None,
        },
    decreases ts@.len() - i, 0int,
{
    proof {
        assert(toks_view(ts@).len() == ts@.len());
        assert(forall|k: int| 0 <= k < ts@.len() ==> toks_view(ts@)[k] == ts@[k]@);
    }
    if i >= ts.len() {
        return Option::None;
    }
    let remaining = ts.len() - i;
    match &ts[i] {
        Token::Word(w) => {
            if str_eq(w, "commit") {
                Option::Some((Statement::CommitStatement, i + 1))
            } else if str_eq(w, "drop") {
                Option::Some((Statement::DropStatement, i + 1))
            } else if str_eq(w, "delete") || str_eq(w, "keep") {
                if remaining > 1 && matches!(&ts[i + 1], Token::LParen) {
                    match parse_keys_exec(ts, i + 2) {
                        Option::Some((keys, j)) => {
                            if str_eq(w, "delete") {
                                Option::Some((Statement::DeleteStatement { keys }, j))
                            } else {
                                Option::Some((Statement::KeepStatement { keys }, j))
                            }
                        },
                        Option::None => Option::None,
                    }
                } else {
                    Option::None
                }
            } else if str_eq(w, "set") || str_eq(w, "rename") {
                if remaining > 5 {
                    let shape_ok = matches!(&ts[i + 1], Token::LParen) && matches!(
                        &ts[i + 3],
                        Token::Comma,
                    ) && matches!(&ts[i + 5], Token::RParen);
                    if shape_ok {
                        let k = match &ts[i + 2] {
                            Token::Word(k) => k,
                            _ => {
                                return Option::None;
                            },
                        };
                        let v = match &ts[i + 4] {
                            Token::Word(v) => v,
                            Token::Quoted(v) => v,
                            _ => {
                                return Option::None;
                            },
                        };
                        if str_eq(w, "set") {
                            Option::Some(
                                (
                                    Statement::SetStatement { key: k.clone(), value: v.clone() },
                                    i + 6,
                                ),
                            )
                        } else {
                            Option::Some(
                                (
                                    Statement::RenameStatement {
                                        old_key: k.clone(),
                                        new_key: v.clone(),
                                    },
                                    i + 6,
                                ),
                            )
                        }
                    } else {
                        Option::None
                    }
                } else {
                    Option::None
                }
            } else {
                match parse_selector_exec(ts, i) {
                    Option::Some((sel, j)) => {
                        if j < ts.len() && matches!(&ts[j], Token::LBrace) {
                            match parse_stmts_exec(ts, j + 1) {
                                Option::Some((body, k)) => {
                                    if k < ts.len() && matches!(&ts[k], Token::RBrace) {
                                        Option::Some(
                                            (
                                                Statement::SelectionBlock {
                                                    selector: sel,
                                                    statements: body,
                                                },
                                                k + 1,
                                            ),
                                        )
                                    } else {
                                        Option::None
                                    }
                                },
                                Option::None => Option::None,
                            }
                        } else {
                            Option::None
                        }
                    },
                    Option::None => Option::None,
                }
            }
        },
        _ => Option::None,
    }
}

/// Reads a statement list, as `parse_stmts_at` gives it.
fn parse_stmts_exec(ts: &Vec<Token>, i: usize) -> (r: Option<(Vec<Statement>, usize)>)
    requires
        i <= ts@.len(),
    ensures
        match r {
            Option::Some((ss, j)) => parse_stmts_at(toks_view(ts@), i as int) == Option::Some(
                (stmts_view(ss@), j as int),
            ) && i <= j <= ts@.len(),
            Option::None => parse_stmts_at(toks_view(ts@), i as int) is None,
        },
    decreases ts@.len() - i, 1int,
{
    proof {
        assert(toks_view(ts@).len() == ts@.len());
        assert(forall|k: int| 0 <= k < ts@.len() ==> toks_view(ts@)[k] == ts@[k]@);
    }
    if i >= ts.len() {
        proof {
            assert(stmts_view(Seq::<Statement>::empty()) =~= Seq::<StatementV>::empty());
        }
        return Option::Some((Vec::new(), i));
    }
    if matches!(&ts[i], Token::RBrace) {
        proof {
            assert(stmts_view(Seq::<Statement>::empty()) =~= Seq::<StatementV>::empty());
        }
        return Option::Some((Vec::new(), i));
    }
    match parse_stmt_exec(ts, i) {
        Option::Some((st, j)) => {
            match parse_stmts_exec(ts, j) {
                Option::Some((rest, k)) => {
                    let ghost st_v = st@;
                    let ghost rest_view = stmts_view(rest@);
                    let mut ss = rest;
                    ss.insert(0, st);
                    proof {
                        assert(ss@ =~= seq![ss@[0]] + rest@);
                        assert(ss@[0]@ == st_v);
                        assert(ss@.drop_first() =~= rest@);
                        assert(stmts_view(ss@) =~= seq![st_v] + rest_view);
                    }
                    Option::Some((ss, k))
                },
                Option::None => Option::None,
            }
        },
        Option::None => Option::None,
    }
}

/// Parses a filter text into a program, totally or not at all, exactly as
/// `spec_parse_filter` gives it.
///
/// The text opens with a version declaration — the word `version` and a
/// version word — and continues with the program's statements.
pub fn parse_filter(filter_content: &str) -> (r: Option<OsmFilter>)
    ensures
        match r {
            Option::Some(f) => spec_parse_filter(filter_content@) == Option::Some(f@),
            Option::None => spec_parse_filter(filter_content@) is None,
        },
{
    let cs = str_to_chars(filter_content);
    let toks = match tokenize(&cs) {
        Option::Some(t) => t,
        Option::None => {
            return Option::None;
        },
    };
    proof {
        assert(toks_view(toks@).len() == toks@.len());
        assert(forall|k: int| 0 <= k < toks@.len() ==> toks_view(toks@)[k] == toks@[k]@);
    }
    if toks.len() < 2 {
        return Option::None;
    }
    let version_ok = match &toks[0] {
        Token::Word(w) => str_eq(w, "version"),
        _ => false,
    };
    let version_word = matches!(&toks[1], Token::Word(_));
    if !version_ok || !version_word {
        return Option::None;
    }
    match parse_stmts_exec(&toks, 2) {
        Option::Some((ss, j)) => {
            if j == toks.len() {
                Option::Some(OsmFilter { statements: ss })
            } else {
                Option::None
            }
        },
        Option::None => Option::None,
    }
}

} // verus!
