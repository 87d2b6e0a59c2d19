//! The expression filter backend: a compiled boolean expression evaluated
//! against a fixed projection of an element's fields.
//!
//! The expression engine is an outside collaborator.  Compiling, binding the
//! projection and executing all happen behind trusted wrappers; everything
//! that decides on the outcome is verified here.

use vstd::prelude::*;

use crate::elements::{Element, ElementType, Tags};

verus! {

/// A compiled expression of the outside engine.
#[verifier::external_type_specification]
#[verifier::external_body]
pub struct ExProgram(cel_interpreter::Program);

/// An evaluation context of the outside engine.
#[verifier::external_type_specification]
#[verifier::external_body]
pub struct ExContext<'a>(cel_interpreter::Context<'a>);

/// What executing a compiled expression left behind: a boolean, a value of
/// some other type, or an evaluation failure.
#[derive(Debug)]
pub enum CelOutcome {
    Value(bool),
    NotBoolean,
    ExecutionError,
}

/// What `cel_interpreter::Program::compile` accepts: a function of the
/// source text alone.
pub uninterp spec fn cel_accepts(s: Seq<char>) -> bool;

/// Relies on `cel_interpreter::Program::compile`: a source text either
/// compiles to a program or is refused, depending on the text alone.
///
/// The engine's compiler admits some expressions whose evaluation can reach
/// the evaluator's unfinished arms, which abort instead of returning a
/// failure: message construction, and a comprehension — the engine's form
/// for `map`, `filter`, `all`, `exists` — over a value that is neither a
/// list nor a map.  This wrapper therefore screens what it hands out: a
/// compiled program whose rendered form names a comprehension, a struct or
/// an unspecified node is refused.  The screen is conservative — a program
/// naming one of those only inside a string constant is refused with the
/// rest — and every refusal is the no-match signal, so such a text becomes a
/// configuration error instead of an abort mid-run.  `cel_accepts` thus
/// names what this screening compile accepts, still a function of the
/// source text alone.
#[verifier::external_body]
fn compile_program(source: &str) -> (r: Option<cel_interpreter::Program>)
    ensures
        r is Some <==> cel_accepts(source@),
{
    match cel_interpreter::Program::compile(source) {
        Result::Ok(p) => {
            let rendering = format!("{:?}", p);
            if rendering.contains("Comprehension") || rendering.contains("Struct")
                || rendering.contains("Unspecified") {
                Option::None
            } else {
                Option::Some(p)
            }
        },
        Result::Err(_) => Option::None,
    }
}

/// Relies on `cel_interpreter::Context::default`: a fresh root context with
/// the engine's standard functions.
#[verifier::external_body]
fn new_context() -> (r: cel_interpreter::Context<'static>) {
    cel_interpreter::Context::default()
}

/// Relies on `cel_interpreter::Context::add_variable`: binds `name` to the
/// given tag pairs as a map.
#[verifier::external_body]
fn ctx_add_tags(
    ctx: &mut cel_interpreter::Context<'_>,
    name: &str,
    tags: &Vec<(String, String)>,
) -> (r: bool) {
    let m: std::collections::HashMap<String, String> = tags.iter().cloned().collect();
    ctx.add_variable(name, m).is_ok()
}

/// Relies on `cel_interpreter::Context::add_variable`: binds `name` to an
/// optional integer.
#[verifier::external_body]
fn ctx_add_opt_int(ctx: &mut cel_interpreter::Context<'_>, name: &str, value: Option<i64>) -> (r:
    bool) {
    ctx.add_variable(name, value).is_ok()
}

/// Relies on `cel_interpreter::Context::add_variable`: binds `name` to an
/// integer.
#[verifier::external_body]
fn ctx_add_int(ctx: &mut cel_interpreter::Context<'_>, name: &str, value: i64) -> (r: bool) {
    ctx.add_variable(name, value).is_ok()
}

/// Relies on `cel_interpreter::Context::add_variable`: binds `name` to an
/// optional text.
#[verifier::external_body]
fn ctx_add_opt_str(ctx: &mut cel_interpreter::Context<'_>, name: &str, value: &Option<String>) -> (
    r: bool) {
    ctx.add_variable(name, value.clone()).is_ok()
}

/// Relies on `cel_interpreter::Context::add_variable`: binds `name` to an
/// optional boolean.
#[verifier::external_body]
fn ctx_add_opt_bool(ctx: &mut cel_interpreter::Context<'_>, name: &str, value: Option<bool>) -> (r:
    bool) {
    ctx.add_variable(name, value).is_ok()
}

/// Relies on `cel_interpreter::Context::add_variable`: binds `name` to a
/// text.
#[verifier::external_body]
fn ctx_add_str(ctx: &mut cel_interpreter::Context<'_>, name: &str, value: &str) -> (r: bool) {
    ctx.add_variable(name, value).is_ok()
}

/// Relies on `cel_interpreter::Program::execute`: sorts its result into a
/// boolean value, a value of another type, or an evaluation failure.
///
/// The evaluator's unfinished arms — message construction, comprehensions
/// over a value that is neither a list nor a map — abort instead of
/// returning a failure; `compile_program` screens those nodes out of every
/// program this library builds, and nothing else constructs one.
#[verifier::external_body]
fn execute_program(p: &cel_interpreter::Program, ctx: &cel_interpreter::Context<'_>) -> (r:
    CelOutcome) {
    match p.execute(ctx) {
        Result::Ok(cel_interpreter::Value::Bool(b)) => CelOutcome::Value(b),
        Result::Ok(_) => CelOutcome::NotBoolean,
        Result::Err(_) => CelOutcome::ExecutionError,
    }
}

/// What each execution outcome decides: a boolean keeps or drops the
/// element as it says; an evaluation failure rejects the element and the
/// run recovers; a value of another type is a fatal flaw in the filter.
pub fn convert_filter_output(outcome: &CelOutcome) -> (r: Result<bool, crate::SkywayError>)
    ensures
        match outcome {
            CelOutcome::Value(b) => r == Result::<bool, crate::SkywayError>::Ok(*b),
            CelOutcome::ExecutionError => r == Result::<bool, crate::SkywayError>::Ok(false),
            CelOutcome::NotBoolean => r is Err,
        },
{
    match outcome {
        CelOutcome::Value(b) => Result::Ok(*b),
        CelOutcome::ExecutionError => Result::Ok(false),
        CelOutcome::NotBoolean => Result::Err(
            crate::SkywayError::IoError(not_boolean_message()),
        ),
    }
}

/// The diagnostic for an expression that did not produce a boolean.
fn not_boolean_message() -> (r: String) {
    <String as vstd::string::StringExecFns>::from_str("filter expression did not produce a boolean")
}

/// A compiled expression filter.
pub struct CelFilter(cel_interpreter::Program);

/// The derived type name an element projects: the name of its shape.
pub fn type_name_of(element: &Element) -> (r: &'static str)
    ensures
        match element.element_type {
            ElementType::Node { .. } => r@ == "node"@,
            ElementType::Way { .. } => r@ == "way"@,
            ElementType::Relation { .. } => r@ == "relation"@,
        },
{
    match &element.element_type {
        ElementType::Node { .. } => "node",
        ElementType::Way { .. } => "way",
        ElementType::Relation { .. } => "relation",
    }
}

/// The tag pairs of `tags`, as plain strings.
fn tag_pairs(tags: &Tags) -> (r: Vec<(String, String)>)
    ensures
        r@.map_values(|p: (String, String)| (p.0@, p.1@)) == tags@,
{
    let mut out: Vec<(String, String)> = Vec::new();
    let mut i: usize = 0;
    while i < tags.len()
        invariant
            i <= tags@.len(),
            out@.len() == i,
            forall|j: int| 0 <= j < i ==> ((#[trigger] out@[j]).0@, out@[j].1@) == tags@[j],
        decreases tags@.len() - i,
    {
        out.push((tags.key_at(i).clone(), tags.value_at(i).clone()));
        i = i + 1;
    }
    proof {
        assert(out@.map_values(|p: (String, String)| (p.0@, p.1@)) =~= tags@);
    }
    out
}

impl CelFilter {
    /// Runs the expression against `element`'s field projection, reading the
    /// element only, and reports what the engine answered: a boolean, a
    /// value of another type, or an evaluation failure on this record.
    pub fn evaluate_outcome(&self, element: &mut Element) -> (r: CelOutcome)
        ensures
            *final(element) == *old(element),
    {
        let mut ctx = new_context();
        let pairs = tag_pairs(&element.tags);
        let _ = ctx_add_tags(&mut ctx, "tags", &pairs);
        let _ = ctx_add_opt_int(&mut ctx, "changeset", element.changeset);
        let _ = ctx_add_opt_str(&mut ctx, "user", &element.user);
        let _ = ctx_add_opt_int(
            &mut ctx,
            "uid",
            match element.uid {
                Option::Some(u) => Option::Some(u as i64),
                Option::None => Option::None,
            },
        );
        let _ = ctx_add_int(&mut ctx, "id", element.id);
        let _ = ctx_add_opt_str(&mut ctx, "timestamp", &element.timestamp);
        let _ = ctx_add_opt_bool(&mut ctx, "visible", element.visible);
        let _ = ctx_add_str(&mut ctx, "type", type_name_of(element));
        execute_program(&self.0, &ctx)
    }

    /// Evaluates the expression against `element`'s field projection.  The
    /// element is never changed; whatever the engine answers, the verdict
    /// follows `convert_filter_output`: a boolean decides, a failed
    /// evaluation rejects the element, and a non-boolean value is a fatal
    /// flaw in the filter.
    pub fn evaluate(&self, element: &mut Element) -> (r: Result<bool, crate::SkywayError>)
        ensures
            *final(element) == *old(element),
    {
        let outcome = self.evaluate_outcome(element);
        convert_filter_output(&outcome)
    }
}

/// Compiles an expression filter when the screening compile accepts the
/// source, and nothing — the no-match signal — when it refuses it, the
/// expressions the engine cannot execute included.
pub fn compile_cel_filter(filter_content: &str) -> (r: Option<CelFilter>)
    ensures
        r is Some <==> cel_accepts(filter_content@),
{
    match compile_program(filter_content) {
        Option::Some(p) => Option::Some(CelFilter(p)),
        Option::None => Option::None,
    }
}

} // verus!
