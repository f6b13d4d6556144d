use graphdb::graph::Graph;
use graphdb::ids::{Id, Record};
use graphdb::names::{Direction, Ident, Operator, Strand, Table};
use graphdb::object::Object;
use graphdb::query::{Field, Fields, Step};
use graphdb::select::{flatten, window, Iterable, Iterator, Select};
use graphdb::value::{Edge, Expression, Idiom, Part, Value};

fn text(s: &str) -> Value {
    Value::String(Strand(s.to_string()))
}

fn field(name: &str) -> Value {
    Value::Idiom(Idiom(vec![Part::Field(Ident(name.to_string()))]))
}

fn rec(table: &str, id: &str) -> Record {
    Record::new(table.to_string(), Id::String(id.to_string()))
}

fn step(dir: Direction, to: &str, filter: Option<Value>) -> Step {
    Step::new(dir, Strand(to.to_string()), filter)
}

fn node(g: &mut Graph, table: &str, id: &str, fields: Vec<(&str, Value)>) -> usize {
    if g.table_position(table).is_none() {
        g.define(table.to_string()).unwrap();
    }
    let fields = fields.into_iter().map(|(k, v)| (k.to_string(), v)).collect();
    g.create(table, Id::String(id.to_string()), fields).unwrap();
    g.retrieve_record(&rec(table, id)).unwrap()
}

/// a --e_1--> b --e_2--> c, with the given fields on b and c.
fn chain(b_fields: Vec<(&str, Value)>, c_fields: Vec<(&str, Value)>, c_id: &str) -> (Graph, usize) {
    let mut g = Graph::new();
    let a = node(&mut g, "a", "1", vec![]);
    let b = node(&mut g, "b", "2", b_fields);
    let c = node(&mut g, "c", c_id, c_fields);
    g.relate(b, "e_1".to_string(), vec![], a).unwrap();
    g.relate(c, "e_2".to_string(), vec![], b).unwrap();
    (g, a)
}

fn four_steps(b_filter: Option<Value>, middle: &str) -> Vec<Step> {
    vec![
        step(Direction::In, "e_1", None),
        step(Direction::In, middle, b_filter),
        step(Direction::In, "e_2", None),
        step(Direction::In, "c", None),
    ]
}

fn ids() -> Fields {
    Fields(vec![Field::new(field("id"))])
}

#[test]
fn walk_walk_test() {
    let (g, a) = chain(vec![], vec![], "2");
    let res = g.walk(a, &four_steps(None, "b"), &Fields(vec![Field::WildCard])).unwrap();
    assert_eq!(res.len(), 1);
    assert_eq!(res[0].get("id"), Value::Record(rec("c", "2")));
}

#[test]
fn walk_one_hop() {
    let mut g = Graph::new();
    let a = node(&mut g, "a", "1", vec![]);
    let b = node(&mut g, "b", "2", vec![]);
    g.relate(b, "e_1".to_string(), vec![], a).unwrap();
    let path = vec![step(Direction::In, "e_1", None), step(Direction::In, "b", None)];
    let res = g.walk(a, &path, &Fields(vec![Field::WildCard])).unwrap();
    assert_eq!(res.len(), 1);
    assert_eq!(res[0].get("id"), Value::Record(rec("b", "2")));
}

#[test]
fn walk_two_test() {
    let (g, a) = chain(vec![], vec![], "3");
    let res = g.walk(a, &four_steps(None, "b"), &ids()).unwrap();
    assert_eq!(res.len(), 1);
    assert_eq!(res[0].get("id"), Value::Record(rec("c", "3")));
}

#[test]
fn walk_empty_test() {
    let (g, a) = chain(vec![], vec![], "3");
    let res = g.walk(a, &four_steps(None, "z"), &Fields(vec![Field::WildCard])).unwrap();
    assert!(res.is_empty());
}

#[test]
fn walk_field_test() {
    let (g, a) = chain(vec![], vec![("car", text("1"))], "3");
    let res = g.walk(a, &four_steps(None, "b"), &Fields(vec![Field::new(field("car"))])).unwrap();
    assert_eq!(res.len(), 1);
    assert_eq!(res[0].get("car"), text("1"));
}

fn val2_is_two() -> Value {
    Value::Expression(Box::new(Expression::Binary { left: field("val2"), op: Operator::Eq, right: Value::Number(2) }))
}

#[test]
fn walk_filter_passes() {
    let (g, a) = chain(vec![("val2", Value::Number(2))], vec![], "2");
    let res = g.walk(a, &four_steps(Some(val2_is_two()), "b"), &ids()).unwrap();
    assert_eq!(res.len(), 1);
    assert_eq!(res[0].get("id"), Value::Record(rec("c", "2")));
}

#[test]
fn walk_filter_prunes() {
    let (g, a) = chain(vec![("val2", Value::Number(3))], vec![], "2");
    let res = g.walk(a, &four_steps(Some(val2_is_two()), "b"), &ids()).unwrap();
    assert!(res.is_empty());
}

#[test]
fn walk_does_not_go_back() {
    let (g, a) = chain(vec![], vec![], "2");
    let res = g.walk(a, &vec![step(Direction::Both, "e_1", None), step(Direction::Both, "a", None)], &ids()).unwrap();
    assert!(res.is_empty());
    let back = vec![step(Direction::Out, "e_1", None)];
    assert!(g.walk(a, &back, &ids()).unwrap().is_empty());
}

#[test]
fn walk_propagates_errors() {
    let (g, a) = chain(vec![("val2", text("x"))], vec![], "2");
    let bad = Value::Expression(Box::new(Expression::Binary { left: field("val2"), op: Operator::Lt, right: Value::Number(2) }));
    let res = g.walk(a, &four_steps(Some(bad), "b"), &ids());
    assert_eq!(res, Err(graphdb::error::Error::Evaluation(graphdb::error::EvalError::InvalidComparison)));
}

fn table_of_three() -> Graph {
    let mut g = Graph::new();
    g.define("a".to_string()).unwrap();
    for i in 0..3 {
        g.create("a", Id::Number(i), vec![("count".to_string(), Value::Number(i)), ("b".to_string(), Value::Null)]).unwrap();
    }
    g
}

fn select_counts(start: Option<usize>, limit: Option<usize>) -> Select {
    Select {
        fields: Fields(vec![Field::new(field("count"))]),
        what: vec![Value::Table(Table("a".to_string()))],
        conditions: None,
        limit,
        start,
    }
}

#[test]
fn select_wildcard_table() {
    let g = table_of_three();
    let stm = Select {
        fields: Fields(vec![Field::WildCard]),
        what: vec![Value::Table(Table("a".to_string()))],
        conditions: None,
        limit: None,
        start: None,
    };
    assert_eq!(stm.compute(&g).unwrap().len(), 3);
}

#[test]
fn select_start_and_limit() {
    let g = table_of_three();
    let res = select_counts(Some(1), Some(1)).compute(&g).unwrap();
    assert_eq!(res, vec![Value::Object(vec![("count".to_string(), Value::Number(1))])]);
    let rest = select_counts(Some(1), None).compute(&g).unwrap();
    assert_eq!(rest.len(), 2);
    let none = select_counts(Some(5), None).compute(&g).unwrap();
    assert!(none.is_empty());
    let limited = select_counts(None, Some(1)).compute(&g).unwrap();
    assert_eq!(limited, vec![Value::Object(vec![("count".to_string(), Value::Number(0))])]);
}

#[test]
fn select_filter_keeps_null_positions() {
    let g = table_of_three();
    let stm = Select {
        fields: Fields(vec![Field::new(field("count"))]),
        what: vec![Value::Table(Table("a".to_string()))],
        conditions: Some(Value::Expression(Box::new(Expression::Binary { left: field("count"), op: Operator::Gt, right: Value::Number(0) }))),
        limit: None,
        start: None,
    };
    let res = stm.compute(&g).unwrap();
    assert_eq!(res.len(), 3);
    assert_eq!(res[0], Value::Nothing);
}

#[test]
fn select_records_and_lists() {
    let g = table_of_three();
    let r = Value::Record(Record::new("a".to_string(), Id::Number(2)));
    let missing = Value::Record(Record::new("a".to_string(), Id::Number(9)));
    let stm = Select {
        fields: Fields(vec![Field::new(field("count"))]),
        what: vec![Value::Array(vec![r, missing]), Value::Table(Table("zz".to_string()))],
        conditions: None,
        limit: None,
        start: None,
    };
    let res = stm.compute(&g).unwrap();
    assert_eq!(res, vec![Value::Object(vec![("count".to_string(), Value::Number(2))])]);
}

#[test]
fn select_edge_pattern() {
    let mut g = Graph::new();
    let a = node(&mut g, "a", "1", vec![]);
    let b = node(&mut g, "b", "2", vec![]);
    let e = g.relate(b, "e_1".to_string(), vec![], a).unwrap();
    let pattern = Edge { dir: Direction::In, from: rec("a", "1"), to: Table("e_1".to_string()) };
    let stm = Select {
        fields: Fields(vec![Field::WildCard]),
        what: vec![Value::Edge(Box::new(pattern))],
        conditions: None,
        limit: None,
        start: None,
    };
    let res = stm.compute(&g).unwrap();
    assert_eq!(res, vec![Value::Object(vec![("id".to_string(), Value::Record(e))])]);
}

#[test]
fn select_literal_value() {
    let g = Graph::new();
    let lit = Value::Object(vec![("k".to_string(), Value::Number(4))]);
    let stm = Select {
        fields: Fields(vec![Field::new_alias(field("k"), "v".to_string())]),
        what: vec![lit],
        conditions: None,
        limit: None,
        start: None,
    };
    assert_eq!(stm.compute(&g).unwrap(), vec![Value::Object(vec![("v".to_string(), Value::Number(4))])]);
}

#[test]
fn iterator_steps() {
    let g = table_of_three();
    let mut it = Iterator::new();
    it.ingest_table(&Table("a".to_string()), &g).unwrap();
    it.ingest_record(&Record::new("a".to_string(), Id::Number(0)), &g).unwrap();
    assert_eq!(it.entries.len(), 2);
    assert!(matches!(&it.entries[0], Iterable::Table(hs) if hs.len() == 3));
    let out = it.process(&g, &select_counts(None, None)).unwrap();
    assert_eq!(out.len(), 4);
}

#[test]
fn flatten_and_window() {
    let values = vec![Value::Array(vec![Value::Number(1), Value::Array(vec![Value::Number(2)])]), Value::Number(3)];
    let flat = flatten(&values);
    assert_eq!(flat, vec![Value::Number(1), Value::Array(vec![Value::Number(2)]), Value::Number(3)]);
    assert_eq!(window(&flat, Some(1), Some(1)), vec![Value::Array(vec![Value::Number(2)])]);
    assert_eq!(window(&flat, Some(3), Some(1)), Vec::<Value>::new());
    assert_eq!(window(&flat, None, Some(10)).len(), 3);
}

#[test]
fn table_snapshot_keeps_creation_order() {
    let mut g = table_of_three();
    let hs = g.retrieve_table("a").unwrap();
    assert_eq!(hs, vec![0, 1, 2]);
    g.delete(1).unwrap();
    assert_eq!(g.retrieve_table("a").unwrap(), vec![0, 2]);
    let _ = Object::new();
}

#[test]
fn fetch_follows_a_record_path() {
    let (g, _a) = chain(vec![("tags", Value::Array(vec![text("x"), text("y")]))], vec![], "2");
    let steps = vec![step(Direction::In, "e_1", None), step(Direction::In, "b", None)];
    let whole = g.fetch(&rec("a", "1"), &steps, &Ident("tags".to_string()), &vec![]).unwrap();
    assert_eq!(whole, Value::Array(vec![Value::Array(vec![text("x"), text("y")])]));
    let first = g.fetch(&rec("a", "1"), &steps, &Ident("tags".to_string()), &vec![Part::Index(1)]).unwrap();
    assert_eq!(first, Value::Array(vec![text("y")]));
    let missing = g.fetch(&rec("a", "404"), &steps, &Ident("tags".to_string()), &vec![]).unwrap();
    assert_eq!(missing, Value::Nothing);
    let ids = g.fetch(&rec("a", "1"), &four_steps(None, "b"), &Ident("id".to_string()), &vec![]).unwrap();
    assert_eq!(ids, Value::Array(vec![Value::Record(rec("c", "2"))]));
}

#[test]
fn select_literal_wildcard_and_unaliased_expression() {
    let g = Graph::new();
    let sum = Value::Expression(Box::new(Expression::Binary { left: Value::Number(1), op: Operator::Add, right: Value::Number(2) }));
    let stm = Select {
        fields: Fields(vec![Field::WildCard, Field::new(sum)]),
        what: vec![Value::Number(5)],
        conditions: None,
        limit: None,
        start: None,
    };
    let res = stm.compute(&g).unwrap();
    assert_eq!(res, vec![Value::Object(vec![("5".to_string(), Value::Number(5)), ("1 + 2".to_string(), Value::Number(3))])]);
}

#[test]
fn unaliased_expression_is_named_by_its_text() {
    let mut g = Graph::new();
    let a = node(&mut g, "a", "1", vec![("n", Value::Number(4))]);
    let double = Value::Expression(Box::new(Expression::Binary { left: field("n"), op: Operator::Mult, right: Value::Number(2) }));
    let got = g.get(a, &Fields(vec![Field::new(double)]), &None).unwrap().unwrap();
    assert_eq!(got.len(), 1);
    assert_eq!(got.get("n * 2"), Value::Number(8));
}

#[test]
fn processing_consumes_the_iterables() {
    let g = table_of_three();
    let mut it = Iterator::new();
    it.ingest_table(&Table("a".to_string()), &g).unwrap();
    let stm = select_counts(Some(2), Some(5));
    let out = it.process(&g, &stm).unwrap();
    assert_eq!(out.len(), 1);
    assert!(it.entries.is_empty());
    assert_eq!(it.start, Some(2));
    assert_eq!(it.limit, Some(5));
}

#[test]
fn first_failing_iterable_gives_the_error() {
    let mut g = Graph::new();
    node(&mut g, "a", "1", vec![("s", text("x"))]);
    node(&mut g, "a", "2", vec![("s", Value::Number(1))]);
    let bad = Value::Expression(Box::new(Expression::Binary { left: field("s"), op: Operator::Sub, right: Value::Number(1) }));
    let stm = Select {
        fields: Fields(vec![Field::new(bad)]),
        what: vec![Value::Record(rec("a", "2")), Value::Record(rec("a", "1")), Value::Bool(true)],
        conditions: None,
        limit: None,
        start: None,
    };
    assert_eq!(stm.compute(&g), Err(graphdb::error::Error::Evaluation(graphdb::error::EvalError::TrySub)));
}
