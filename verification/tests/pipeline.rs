use dml::json::from_json;
use dml::json::to_json;
use dml::json::JsonValue;
use dml::model::Document;
use dml::model::Item;
use dml::model::Value;
use dml::parse_document;
use dml::parser::DMLParser;
use dml::resolver::resolve;
use dml::resolver::resolve_strict;
use dml::resolver::Processer;
use dml::resolver::ResolveError;
use dml::token::tokenize;
use dml::DmlError;

fn pipeline(text: &str) -> Document {
    parse_document(text).expect("pipeline failed")
}

fn parse_raw(text: &str) -> Document {
    DMLParser::parse(&tokenize(text).expect("tokenize failed")).expect("parse failed")
}

fn key(s: &str) -> String {
    s.to_string()
}

const SAMPLE: &str = "x: 5\ny: x\nItem Stone:\n  en: \"Stone\"\n  hardness: 3\n  colors:\n    main: \"grey\"\nGroup BasicMaterials:\n  &Stone: 1\n  weight: y\n";

#[test]
fn pipeline_is_deterministic() {
    let a = pipeline(SAMPLE);
    let b = pipeline(SAMPLE);
    assert_eq!(a, b);
}

#[test]
fn resolution_is_idempotent() {
    let once = pipeline(SAMPLE);
    let twice = resolve(&once).expect("second resolution failed");
    assert_eq!(twice, once);
}

#[test]
fn json_round_trip_reproduces_the_document() {
    let doc = pipeline(SAMPLE);
    let json = to_json(&doc);
    let back = from_json(&json).expect("importer refused the serializer's output");
    assert_eq!(back, doc);
}

#[test]
fn importer_rejects_a_foreign_shape() {
    assert_eq!(from_json(&JsonValue::Int(3)), None);
    let wrong = JsonValue::Object(vec![
        (key("variable_map"), JsonValue::Object(vec![])),
        (key("items"), JsonValue::Object(vec![])),
        (key("groups"), JsonValue::Object(vec![])),
    ]);
    assert_eq!(from_json(&wrong), None);
}

#[test]
fn four_and_five_spaces_nest_alike() {
    // Four leading spaces are two indentation units; the fifth space is
    // silently dropped, so both spellings nest `key` at depth 2.
    let four = parse_raw("Item I:\n  b:\n    key: 1\n");
    let five = parse_raw("Item I:\n  b:\n     key: 1\n");
    assert_eq!(four, five);
    let item = four.items.get(&key("I")).expect("item I missing");
    let block = item.blocks.get(&key("b")).expect("block b missing");
    assert_eq!(block.pairs.get(&key("key")), Some(&Value::Int(1)));
}

#[test]
fn forward_reference_resolves() {
    // `y: x` stands before `x: 5`, and the group names an item declared
    // after it: both resolve all the same.
    let doc = pipeline("y: x\nGroup G:\n  &A: 1\nItem A:\n  foo: 1\nx: 5\n");
    assert_eq!(doc.variables.get(&key("y")), Some(&Value::Int(5)));
    assert_eq!(doc.variables.get(&key("x")), Some(&Value::Int(5)));
    let g = doc.groups.get(&key("G")).expect("group G missing");
    assert_eq!(g.reference.get(&key("A")), Some(&Value::Int(1)));
}

#[test]
fn minimal_item() {
    let doc = pipeline("Item Stone:\n  en: \"Stone\"\n");
    let mut expected = Document::new();
    let mut stone = Item::new(key("Stone"));
    stone.pairs.insert(key("en"), Value::Str(key("Stone")));
    expected.items.insert(key("Stone"), stone);
    assert_eq!(doc, expected);
}

#[test]
fn group_with_weights() {
    let doc = pipeline("Group BasicMaterials:\n  &Stone: 1\n  &Firestone: 1\n");
    let g = doc.groups.get(&key("BasicMaterials")).expect("group missing");
    assert_eq!(g.reference.len(), 2);
    assert_eq!(g.reference.get(&key("Stone")), Some(&Value::Int(1)));
    assert_eq!(g.reference.get(&key("Firestone")), Some(&Value::Int(1)));
}

#[test]
fn malformed_header_is_a_syntax_error() {
    let err = DMLParser::parse(&tokenize("Item :\n").unwrap()).unwrap_err();
    assert_eq!(err.line, 1);
    assert_eq!(err.expected, "Identifier");
    assert_eq!(err.found, "Colon");
}

#[test]
fn malformed_pair_cites_its_line() {
    let err = DMLParser::parse(&tokenize("Item A:\n  en \"x\"\n").unwrap()).unwrap_err();
    assert_eq!(err.line, 2);
    assert_eq!(err.expected, "Colon");
    assert_eq!(err.found, "QuotedString");
}

#[test]
fn over_indentation_is_a_syntax_error() {
    let err = DMLParser::parse(&tokenize("Item A:\n    en: 1\n").unwrap()).unwrap_err();
    assert_eq!(err.line, 2);
    assert_eq!(err.expected, "indentation");
}

#[test]
fn reference_outside_a_group_is_refused() {
    let err = DMLParser::parse(&tokenize("Item A:\n  &B: 1\n").unwrap()).unwrap_err();
    assert_eq!(err.line, 2);
    assert_eq!(err.expected, "Identifier");
    assert_eq!(err.found, "Reference");
}

#[test]
fn variable_at_end_of_input_needs_no_newline() {
    let doc = pipeline("x: 7");
    assert_eq!(doc.variables.get(&key("x")), Some(&Value::Int(7)));
}

#[test]
fn blank_lines_do_not_end_a_body() {
    let doc = pipeline("Item A:\n  en: 1\n\n  de: 2\n");
    let a = doc.items.get(&key("A")).expect("item A missing");
    assert_eq!(a.pairs.get(&key("en")), Some(&Value::Int(1)));
    assert_eq!(a.pairs.get(&key("de")), Some(&Value::Int(2)));
}

#[test]
fn import_lines_are_recognized_and_ignored() {
    let doc = pipeline("from Base import Stone\nx: 1\n");
    assert_eq!(doc.variables.get(&key("x")), Some(&Value::Int(1)));
    assert_eq!(doc.items.len(), 0);
}

#[test]
fn redeclaration_overwrites() {
    let doc = pipeline("x: 1\nx: 2\n");
    assert_eq!(doc.variables.len(), 1);
    assert_eq!(doc.variables.get(&key("x")), Some(&Value::Int(2)));
}

#[test]
fn values_keep_their_kinds() {
    let doc = pipeline("a: 1\nb: 2.5\nc: \"s\"\n");
    assert_eq!(doc.variables.get(&key("a")), Some(&Value::Int(1)));
    assert_eq!(doc.variables.get(&key("b")), Some(&Value::Float(key("2.5"))));
    assert_eq!(doc.variables.get(&key("c")), Some(&Value::Str(key("s"))));
}

#[test]
fn unresolved_variable_reports_name_and_context() {
    let err = parse_document("Item A:\n  en: missing\n").unwrap_err();
    assert_eq!(
        err,
        DmlError::Resolve(ResolveError::UnresolvedReference {
            name: key("missing"),
            context: key("A"),
        })
    );
}

#[test]
fn variable_chain_of_two_pending_names_is_unresolved() {
    let err = parse_document("z: y\ny: x\nx: 5\n").unwrap_err();
    assert_eq!(
        err,
        DmlError::Resolve(ResolveError::UnresolvedReference {
            name: key("y"),
            context: key("z"),
        })
    );
}

#[test]
fn variable_in_nested_block_resolves() {
    let doc = pipeline("v: 9\nItem A:\n  b:\n    w: v\n");
    let a = doc.items.get(&key("A")).expect("item A missing");
    let b = a.blocks.get(&key("b")).expect("block b missing");
    assert_eq!(b.pairs.get(&key("w")), Some(&Value::Int(9)));
}

#[test]
fn strict_mode_rejects_dangling_references() {
    let raw = parse_raw("Group G:\n  &Ghost: 1\n");
    let err = resolve_strict(&raw).unwrap_err();
    assert_eq!(
        err,
        ResolveError::DanglingReference { group: key("G"), identifier: key("Ghost") }
    );
}

#[test]
fn strict_mode_accepts_declared_references() {
    let raw = parse_raw("Group G:\n  &A: 1\nItem A:\n  en: 1\n");
    let doc = resolve_strict(&raw).expect("strict resolution failed");
    assert!(doc.groups.get(&key("G")).is_some());
}

#[test]
fn permissive_mode_keeps_dangling_weights() {
    let doc = pipeline("Group G:\n  &Ghost: 2\n");
    let g = doc.groups.get(&key("G")).expect("group missing");
    assert_eq!(g.reference.get(&key("Ghost")), Some(&Value::Int(2)));
}

#[test]
fn processer_builds_and_checks() {
    let raw = parse_raw("n: 3\nGroup G:\n  &A: n\nItem A:\n  en: 1\n");
    let mut p = Processer::new();
    p.process_dml(&raw).expect("processing failed");
    assert_eq!(p.variable_map.get(&key("n")), Some(&Value::Int(3)));
    let g = p.group_map.get(&key("G")).expect("group missing");
    assert_eq!(g.reference.get(&key("A")), Some(&Value::Int(3)));
    assert_eq!(p.check_references(), Ok(()));
}

#[test]
fn add_variable_binds_by_name() {
    let mut p = Processer::new();
    p.add_variable(key("x"), Value::Int(1));
    p.add_variable(key("x"), Value::Int(2));
    assert_eq!(p.variable_map.len(), 1);
    assert_eq!(p.variable_map.get(&key("x")), Some(&Value::Int(2)));
}

#[test]
fn group_body_may_mix_pairs_blocks_and_references() {
    let doc = pipeline("Group G:\n  kind: \"set\"\n  meta:\n    note: 1\n  &A: 4\n");
    let g = doc.groups.get(&key("G")).expect("group missing");
    assert_eq!(g.pairs.get(&key("kind")), Some(&Value::Str(key("set"))));
    assert_eq!(g.reference.get(&key("A")), Some(&Value::Int(4)));
    let meta = g.blocks.get(&key("meta")).expect("block missing");
    assert_eq!(meta.pairs.get(&key("note")), Some(&Value::Int(1)));
}

#[test]
fn serialized_shape_has_the_three_sections() {
    let doc = pipeline("x: 1\n");
    match to_json(&doc) {
        JsonValue::Object(es) => {
            assert_eq!(es.len(), 3);
            assert_eq!(es[0].0, "variables");
            assert_eq!(es[1].0, "items");
            assert_eq!(es[2].0, "groups");
            match &es[0].1 {
                JsonValue::Object(vs) => {
                    assert_eq!(vs.len(), 1);
                    assert_eq!(vs[0].0, "x");
                    assert_eq!(vs[0].1, JsonValue::Int(1));
                },
                other => panic!("variables section is not an object: {:?}", other),
            }
        },
        other => panic!("document did not serialize to an object: {:?}", other),
    }
}

#[test]
fn pipeline_reports_lexical_errors() {
    let err = parse_document("x: 170141183460469231731687303715884105728\n").unwrap_err();
    match err {
        DmlError::Lex(le) => assert_eq!(le.line, 1),
        other => panic!("expected a lexical error, got {:?}", other),
    }
}

#[test]
fn nested_blocks_survive_the_json_round_trip() {
    let doc = pipeline("Item A:\n  b:\n    c:\n      deep: \"v\"\n");
    let back = from_json(&to_json(&doc)).expect("importer refused the serializer's output");
    assert_eq!(back, doc);
}

#[test]
fn float_weights_pass_through_verbatim() {
    let doc = pipeline("Group G:\n  &A: -1.25\n");
    let g = doc.groups.get(&key("G")).expect("group missing");
    assert_eq!(g.reference.get(&key("A")), Some(&Value::Float(key("-1.25"))));
}
