use skyway::elements::{Element, ElementType, Member, SimpleElementType, Tags};
use skyway::filter::cel::{compile_cel_filter, convert_filter_output, CelOutcome};
use skyway::filter::logic;
use skyway::filter::osmfilter::{parse_filter, SelectorStatement, Statement, StatementResult};
use skyway::filter::parse::{_element_to_option, evaluate_filter, filter_elements};
use skyway::filter::{create_filter, ElementFilter, FilterTable, TagFilter};

fn tags_of(pairs: &[(&str, &str)]) -> Tags {
    let mut tags = Tags::new();
    for (k, v) in pairs {
        tags.insert(String::from(*k), String::from(*v));
    }
    tags
}

fn node(id: i64, pairs: &[(&str, &str)]) -> Element {
    Element {
        changeset: None,
        user: None,
        version: None,
        uid: None,
        id,
        timestamp: None,
        visible: None,
        tags: tags_of(pairs),
        element_type: ElementType::Node { lat: 525_200_000, lon: 134_050_000 },
    }
}

fn way(id: i64, nodes: Vec<i64>, pairs: &[(&str, &str)]) -> Element {
    Element {
        changeset: None,
        user: None,
        version: None,
        uid: None,
        id,
        timestamp: None,
        visible: None,
        tags: tags_of(pairs),
        element_type: ElementType::Way { nodes },
    }
}

fn get<'a>(e: &'a Element, k: &str) -> Option<&'a String> {
    e.tags.get(&String::from(k))
}

#[test]
fn commit_only_program_keeps_element_unchanged() {
    let f = parse_filter("version 1 commit").expect("program parses");
    let mut e = node(7, &[("highway", "residential")]);
    assert!(f.evaluate(&mut e));
    assert_eq!(e.id, 7);
    assert_eq!(e.tags.len(), 1);
    assert_eq!(get(&e, "highway").unwrap(), "residential");
}

#[test]
fn drop_only_program_returns_nothing() {
    let f = parse_filter("version 1 drop").expect("program parses");
    let mut e = node(7, &[("highway", "residential")]);
    assert!(!f.evaluate(&mut e));
}

#[test]
fn set_twice_keeps_the_last_value() {
    let f = parse_filter("version 1 set(k, v1) set(k, v2)").expect("program parses");
    let mut e = node(1, &[("k", "v0")]);
    assert!(f.evaluate(&mut e));
    assert_eq!(get(&e, "k").unwrap(), "v2");
    assert_eq!(e.tags.len(), 1);
}

#[test]
fn rename_moves_the_value_and_spares_absent_keys() {
    let f = parse_filter("version 1 rename(old, new)").expect("program parses");

    let mut present = node(1, &[("old", "value"), ("other", "kept")]);
    assert!(f.evaluate(&mut present));
    assert!(get(&present, "old").is_none());
    assert_eq!(get(&present, "new").unwrap(), "value");
    assert_eq!(get(&present, "other").unwrap(), "kept");

    let mut absent = node(2, &[("other", "kept")]);
    assert!(f.evaluate(&mut absent));
    assert!(get(&absent, "old").is_none());
    assert!(get(&absent, "new").is_none());
    assert_eq!(get(&absent, "other").unwrap(), "kept");
    assert_eq!(absent.tags.len(), 1);
}

#[test]
fn keep_retains_exactly_the_listed_keys() {
    let f = parse_filter("version 1 keep(a, b)").expect("program parses");
    let mut e = node(1, &[("a", "1"), ("b", "2"), ("c", "3")]);
    assert!(f.evaluate(&mut e));
    assert_eq!(e.tags.len(), 2);
    assert_eq!(get(&e, "a").unwrap(), "1");
    assert_eq!(get(&e, "b").unwrap(), "2");
    assert!(get(&e, "c").is_none());
}

#[test]
fn delete_removes_each_listed_key() {
    let f = parse_filter("version 1 delete(a, c)").expect("program parses");
    let mut e = node(1, &[("a", "1"), ("b", "2"), ("c", "3")]);
    assert!(f.evaluate(&mut e));
    assert_eq!(e.tags.len(), 1);
    assert_eq!(get(&e, "b").unwrap(), "2");
}

#[test]
fn unmatched_block_leaves_element_and_continues() {
    let f = parse_filter("version 1 equals(k, other){ drop } set(seen, yes)")
        .expect("program parses");
    let mut e = node(1, &[("k", "value")]);
    assert!(f.evaluate(&mut e));
    assert_eq!(get(&e, "k").unwrap(), "value");
    assert_eq!(get(&e, "seen").unwrap(), "yes");
}

#[test]
fn drop_inside_matched_block_ends_the_whole_program() {
    let f = parse_filter("version 1 has(k){ drop } set(seen, yes)").expect("program parses");
    let mut e = node(1, &[("k", "value")]);
    assert!(!f.evaluate(&mut e));
    // The statement after the block never ran before the drop.
    assert!(get(&e, "seen").is_none());
}

#[test]
fn point_falls_through_type_block_and_gains_surface() {
    let f = parse_filter("version 1 type(way){ } has(highway){ set(surface, paved) }")
        .expect("program parses");
    let mut e = node(1, &[("highway", "residential")]);
    assert!(f.evaluate(&mut e));
    assert_eq!(get(&e, "highway").unwrap(), "residential");
    assert_eq!(get(&e, "surface").unwrap(), "paved");
}

#[test]
fn quoted_values_parse() {
    let f = parse_filter("version 1 set(name, \"Main Street\")").expect("program parses");
    let mut e = node(1, &[]);
    assert!(f.evaluate(&mut e));
    assert_eq!(get(&e, "name").unwrap(), "Main Street");
}

#[test]
fn malformed_programs_are_refused_whole() {
    assert!(parse_filter("version 1 set(k v)").is_none());
    assert!(parse_filter("commit").is_none());
    assert!(parse_filter("version 1 has(k){ drop").is_none());
    assert!(parse_filter("version 1 explode(now)").is_none());
    assert!(parse_filter("version 1 set(k, \"unterminated)").is_none());
}

#[test]
fn type_selector_matches_each_shape() {
    let f = parse_filter("version 1 type(node, relation){ drop }").expect("program parses");
    let mut n = node(1, &[]);
    assert!(!f.evaluate(&mut n));
    let mut w = way(2, vec![1, 2], &[]);
    assert!(f.evaluate(&mut w));
    let mut r = Element {
        changeset: None,
        user: None,
        version: None,
        uid: None,
        id: 3,
        timestamp: None,
        visible: None,
        tags: Tags::new(),
        element_type: ElementType::Relation {
            members: vec![Member { t: Some(SimpleElementType::Node), id: 1, role: None }],
        },
    };
    assert!(!f.evaluate(&mut r));
}

#[test]
fn statement_evaluator_reports_its_three_states() {
    let mut e = node(1, &[("k", "v")]);
    let r = skyway::filter::osmfilter::evaluate_statement(&Statement::CommitStatement, &mut e);
    assert!(matches!(r, StatementResult::Commit));
    let r = skyway::filter::osmfilter::evaluate_statement(&Statement::DropStatement, &mut e);
    assert!(matches!(r, StatementResult::Drop));
    let r = skyway::filter::osmfilter::evaluate_statement(
        &Statement::SetStatement { key: String::from("a"), value: String::from("b") },
        &mut e,
    );
    assert!(matches!(r, StatementResult::Continue));
    assert_eq!(get(&e, "a").unwrap(), "b");
}

#[test]
fn test_selector_reads_only() {
    let e = node(1, &[("k", "v")]);
    assert!(skyway::filter::osmfilter::test_selector(
        &SelectorStatement::Has { key: String::from("k") },
        &e,
    ));
    assert!(!skyway::filter::osmfilter::test_selector(
        &SelectorStatement::Equals { key: String::from("k"), value: String::from("w") },
        &e,
    ));
    assert!(skyway::filter::osmfilter::test_selector(
        &SelectorStatement::Type { node: true, way: false, relation: false },
        &e,
    ));
}

#[test]
fn legacy_filter_elements_with_commit_only_is_identity() {
    let input = vec![node(1, &[("a", "1")]), node(2, &[("b", "2")])];
    let out = filter_elements("version 1 commit", input).expect("program parses");
    assert_eq!(out.len(), 2);
    assert_eq!(out[0].id, 1);
    assert_eq!(out[0].tags.get(&String::from("a")).unwrap(), "1");
    assert_eq!(out[1].id, 2);
}

#[test]
fn legacy_filter_elements_drops_and_transforms() {
    let input = vec![
        node(1, &[("kind", "keep")]),
        node(2, &[("kind", "drop")]),
        node(3, &[]),
    ];
    let out = filter_elements(
        "version 1 equals(kind, drop){ drop } set(seen, yes)",
        input,
    )
    .expect("program parses");
    assert_eq!(out.len(), 2);
    assert_eq!(out[0].id, 1);
    assert_eq!(out[0].tags.get(&String::from("seen")).unwrap(), "yes");
    assert_eq!(out[1].id, 3);
}

#[test]
fn legacy_grammar_refuses_keep_and_wide_deletes() {
    assert!(filter_elements("version 1 keep(a)", Vec::new()).is_none());
    assert!(filter_elements("version 1 delete(a, b)", Vec::new()).is_none());
    assert!(filter_elements("version 1 delete(a)", Vec::new()).is_some());
}

#[test]
fn legacy_evaluate_filter_and_union() {
    let filter = match skyway::filter::parse::parse_filter("version 1 drop") {
        Some(f) => f,
        None => panic!("program parses"),
    };
    assert!(evaluate_filter(&filter, node(1, &[])).is_none());

    let kept = _element_to_option(logic::Element::Committed(node(4, &[])));
    assert_eq!(kept.unwrap().id, 4);
    assert!(_element_to_option(logic::Element::Dropped).is_none());
}

#[test]
fn create_filter_prefers_the_statement_grammar() {
    let f = create_filter("version 1 commit").expect("statement text builds a filter");
    assert!(matches!(f, ElementFilter::Osm(_)));

    let f = create_filter("tags.highway == \"residential\"")
        .expect("expression text builds a filter");
    assert!(matches!(f, ElementFilter::Cel(_)));
}

#[test]
fn expression_filter_judges_the_projection() {
    let f = create_filter("tags.highway == \"residential\"").expect("expression compiles");
    let mut yes = node(1, &[("highway", "residential")]);
    assert_eq!(f.evaluate(&mut yes).unwrap(), true);
    assert_eq!(yes.tags.len(), 1);

    // A record without the tag fails to evaluate; the record is rejected
    // and the run recovers.
    let mut no = node(2, &[("highway", "primary")]);
    assert_eq!(f.evaluate(&mut no).unwrap(), false);

    let by_id = create_filter("id == 1").expect("expression compiles");
    let mut one = node(1, &[]);
    assert_eq!(by_id.evaluate(&mut one).unwrap(), true);
    let mut two = node(2, &[]);
    assert_eq!(by_id.evaluate(&mut two).unwrap(), false);
}

#[test]
fn expression_filter_reports_non_boolean_results() {
    let f = create_filter("id + 1").expect("expression compiles");
    let mut e = node(1, &[]);
    assert!(f.evaluate(&mut e).is_err());
}

#[test]
fn filter_table_allows_matching_tags() {
    let table = FilterTable {
        filters: vec![TagFilter {
            key: String::from("highway"),
            values: vec![String::from("residential"), String::from("primary")],
        }],
    };
    let yes = tags_of(&[("name", "x"), ("highway", "primary")]);
    assert!(table.allows(&yes));
    let no = tags_of(&[("highway", "footpath")]);
    assert!(!table.allows(&no));
    assert!(!table.allows(&Tags::new()));
}

#[test]
fn expression_outcomes_are_observable() {
    let f = compile_cel_filter("tags.highway == \"residential\"").expect("expression compiles");
    let mut yes = node(1, &[("highway", "residential")]);
    assert!(matches!(f.evaluate_outcome(&mut yes), CelOutcome::Value(true)));
    // A record without the tag fails to evaluate; the outcome says so, and
    // the verdict recovers by rejecting the record.
    let mut no = node(2, &[]);
    let outcome = f.evaluate_outcome(&mut no);
    assert!(matches!(outcome, CelOutcome::ExecutionError));
    assert_eq!(convert_filter_output(&outcome).unwrap(), false);
}

#[test]
fn expressions_the_engine_cannot_run_are_refused() {
    // A comprehension's safety depends on a runtime type; the screening
    // compile refuses it whole.
    assert!(compile_cel_filter("tags.all(k, k != \"x\")").is_none());
    assert!(compile_cel_filter("[1, 2].map(x, x)").is_none());
    // Message construction is an unfinished arm of the engine's evaluator.
    assert!(compile_cel_filter("Point{x: 1}.x == 1").is_none());
    // Both backends refuse such a text: construction fails as configuration.
    assert!(create_filter("id.exists(x, x)").is_none());
    // Ordinary expressions still pass.
    assert!(compile_cel_filter("id == 1 && \"highway\" in tags").is_some());
}
