use graphdb::entity::{Entity, Kind};
use graphdb::error::Error;
use graphdb::graph::Graph;
use graphdb::ids::{Id, Record};
use graphdb::names::{Ident, Operator, Strand};
use graphdb::object::Object;
use graphdb::query::{Field, Fields};
use graphdb::value::{Expression, Idiom, Part, Value};

fn text(s: &str) -> Value {
    Value::String(Strand(s.to_string()))
}

fn field(name: &str) -> Value {
    Value::Idiom(Idiom(vec![Part::Field(Ident(name.to_string()))]))
}

fn rec(table: &str, id: Id) -> Record {
    Record::new(table.to_string(), id)
}

fn pairs(list: Vec<(&str, Value)>) -> Vec<(String, Value)> {
    list.into_iter().map(|(k, v)| (k.to_string(), v)).collect()
}

/// Whether the object holds exactly these fields.
fn holds_exactly(o: &Object, expected: Vec<(&str, Value)>) -> bool {
    o.len() == expected.len() && expected.iter().all(|(k, v)| o.get(k) == *v)
}

/// A graph with table `t` and one node per entry, each made with the fields.
fn graph_with_nodes(nodes: Vec<(&str, Id, Vec<(&str, Value)>)>) -> (Graph, Vec<usize>) {
    let mut g = Graph::new();
    let mut handles = Vec::new();
    for (table, id, fields) in nodes {
        if g.table_position(table).is_none() {
            g.define(table.to_string()).unwrap();
        }
        g.create(table, id.clone(), pairs(fields)).unwrap();
        handles.push(g.retrieve_record(&rec(table, id)).unwrap());
    }
    (g, handles)
}

fn edges_of(g: &Graph, h: usize) -> Vec<Record> {
    g.entities[h].as_ref().unwrap().edges.iter().map(|(r, _)| r.clone()).collect()
}

fn wildcard() -> Fields {
    Fields(vec![Field::WildCard])
}

#[test]
fn test_graph_table_pass() {
    let mut g = Graph::new();
    g.define("a".to_string()).unwrap();
    assert!(g.retrieve_table("a").is_some());
}

#[test]
fn test_graph_table_fail() {
    let mut g = Graph::new();
    g.define("a".to_string()).unwrap();
    let table = g.retrieve_table("b").unwrap_or_default();
    assert_eq!(table.len(), 0);
}

#[test]
fn test_graph_table() {
    let mut g = Graph::new();
    g.define("a".to_string()).unwrap();
    assert!(g.table_position("a").is_some());
    assert!(g.table_position("b").is_none());
}

#[test]
fn define_twice_fails() {
    let mut g = Graph::new();
    g.define("a".to_string()).unwrap();
    assert_eq!(g.define("a".to_string()), Err(Error::DefineError("a".to_string())));
}

#[test]
fn create_twice_fails_and_keeps_first() {
    let mut g = Graph::new();
    g.define("t".to_string()).unwrap();
    let first = g.create("t", Id::Number(1), pairs(vec![("x", Value::Number(1))])).unwrap();
    assert!(holds_exactly(&first, vec![("x", Value::Number(1)), ("id", Value::Record(rec("t", Id::Number(1))))]));
    let second = g.create("t", Id::Number(1), pairs(vec![("x", Value::Number(2))]));
    assert_eq!(second, Err(Error::CreateError { table: "t".to_string(), id: Id::Number(1) }));
    let h = g.retrieve_record(&rec("t", Id::Number(1))).unwrap();
    let got = g.get(h, &wildcard(), &None).unwrap().unwrap();
    assert!(holds_exactly(&got, vec![("x", Value::Number(1)), ("id", Value::Record(rec("t", Id::Number(1))))]));
}

#[test]
fn create_in_missing_table_fails() {
    let mut g = Graph::new();
    assert_eq!(g.create("nope", Id::Number(1), vec![]), Err(Error::InvalidTable("nope".to_string())));
}

#[test]
fn deleted_id_stays_reserved() {
    let (mut g, hs) = graph_with_nodes(vec![("t", Id::Number(1), vec![])]);
    g.delete(hs[0]).unwrap();
    assert_eq!(g.retrieve_record(&rec("t", Id::Number(1))), None);
    assert!(matches!(g.create("t", Id::Number(1), vec![]), Err(Error::CreateError { .. })));
    assert_eq!(g.delete(hs[0]), Err(Error::EntityGone));
}

#[test]
fn relate_is_symmetric() {
    let (mut g, hs) = graph_with_nodes(vec![("a", Id::Number(1), vec![]), ("b", Id::Number(2), vec![])]);
    let e = g.relate(hs[1], "e".to_string(), pairs(vec![("w", Value::Number(5))]), hs[0]).unwrap();
    assert_eq!(e.table, "e");
    assert!(matches!(e.id, Id::Uuid(_)));
    let eh = g.retrieve_record(&e).unwrap();
    let edge: &Entity = g.entities[eh].as_ref().unwrap();
    assert_eq!(edge.kind, Kind::Edge);
    assert_eq!(edges_of(&g, hs[0]), vec![e.clone()]);
    assert_eq!(edges_of(&g, hs[1]), vec![e.clone()]);
    let ends = edges_of(&g, eh);
    assert_eq!(ends, vec![rec("a", Id::Number(1)), rec("b", Id::Number(2))]);
    let fields = g.get(eh, &wildcard(), &None).unwrap().unwrap();
    assert!(holds_exactly(&fields, vec![
        ("w", Value::Number(5)),
        ("in", Value::Record(rec("a", Id::Number(1)))),
        ("out", Value::Record(rec("b", Id::Number(2)))),
        ("id", Value::Record(e.clone())),
    ]));
}

#[test]
fn relate_rejects_edges_and_gone_entities() {
    let (mut g, hs) = graph_with_nodes(vec![("a", Id::Number(1), vec![]), ("b", Id::Number(2), vec![])]);
    let e = g.relate(hs[1], "e".to_string(), vec![], hs[0]).unwrap();
    let eh = g.retrieve_record(&e).unwrap();
    assert_eq!(g.relate(eh, "f".to_string(), vec![], hs[0]), Err(Error::NotANode));
    assert_eq!(g.relate(99, "f".to_string(), vec![], hs[0]), Err(Error::EntityGone));
    let key = match e.id { Id::Uuid(u) => u, _ => panic!("edge id is not a uuid") };
    assert_eq!(g.relate_with_key(hs[1], "e".to_string(), vec![], hs[0], key), Err(Error::EdgeIdTaken));
}

#[test]
fn delete_delete_test() {
    let (mut g, hs) = graph_with_nodes(vec![("a", Id::String("1".to_string()), vec![]), ("b", Id::String("2".to_string()), vec![])]);
    let (a, b) = (hs[0], hs[1]);
    g.relate(a, "e_1".to_string(), vec![], b).unwrap();
    g.delete(b).unwrap();
    assert!(edges_of(&g, a).is_empty());
}

#[test]
fn delete_delete_two_test() {
    let (mut g, hs) = graph_with_nodes(vec![
        ("a", Id::String("1".to_string()), vec![]),
        ("b", Id::String("2".to_string()), vec![]),
        ("c", Id::String("2".to_string()), vec![]),
    ]);
    let (a, b, c) = (hs[0], hs[1], hs[2]);
    g.relate(a, "e_1".to_string(), vec![], b).unwrap();
    let e2 = g.relate(a, "e_2".to_string(), vec![], c).unwrap();
    g.delete(b).unwrap();
    let res = edges_of(&g, a);
    assert_eq!("e_2", res.first().unwrap().table);
    assert_eq!(res, vec![e2.clone()]);
    assert_eq!(edges_of(&g, c), vec![e2.clone()]);
    assert!(g.retrieve_record(&e2).is_some());
}

#[test]
fn delete_edge_removes_one_entry_per_end() {
    let (mut g, hs) = graph_with_nodes(vec![("a", Id::Number(1), vec![]), ("b", Id::Number(2), vec![]), ("c", Id::Number(3), vec![])]);
    let (a, b, c) = (hs[0], hs[1], hs[2]);
    let e1 = g.relate(b, "e".to_string(), vec![], a).unwrap();
    let e2 = g.relate(c, "e".to_string(), vec![], a).unwrap();
    let e1h = g.retrieve_record(&e1).unwrap();
    g.delete(e1h).unwrap();
    assert_eq!(edges_of(&g, a), vec![e2.clone()]);
    assert!(edges_of(&g, b).is_empty());
    assert_eq!(edges_of(&g, c), vec![e2]);
    assert!(g.retrieve_record(&rec("a", Id::Number(1))).is_some());
}

#[test]
fn self_loop_edge() {
    let (mut g, hs) = graph_with_nodes(vec![("a", Id::Number(1), vec![])]);
    let e = g.relate(hs[0], "loop".to_string(), vec![], hs[0]).unwrap();
    assert_eq!(edges_of(&g, hs[0]), vec![e.clone()]);
    g.delete(hs[0]).unwrap();
    assert!(g.retrieve_record(&e).is_none());
}

#[test]
fn get_wildcard_alias_test() {
    let (g, hs) = graph_with_nodes(vec![("a", Id::Number(1), vec![("b", Value::Number(2)), ("c", text("c"))])]);
    let fields = Fields(vec![Field::WildCard, Field::Single { expr: field("c"), alias: Some("alias".to_string()) }]);
    let got = g.get(hs[0], &fields, &None).unwrap().unwrap();
    assert!(holds_exactly(&got, vec![
        ("b", Value::Number(2)),
        ("c", text("c")),
        ("alias", text("c")),
        ("id", Value::Record(rec("a", Id::Number(1)))),
    ]));
}

#[test]
fn get_wildcard_test() {
    let (g, hs) = graph_with_nodes(vec![("a", Id::Number(1), vec![("b", Value::Number(2)), ("c", text("c"))])]);
    let got = g.get(hs[0], &wildcard(), &None).unwrap().unwrap();
    assert!(holds_exactly(&got, vec![("b", Value::Number(2)), ("c", text("c")), ("id", Value::Record(rec("a", Id::Number(1))))]));
}

#[test]
fn get_wildcard_filter_test() {
    let (g, hs) = graph_with_nodes(vec![("a", Id::Number(1), vec![("b", Value::Number(2)), ("c", text("c"))])]);
    let filter = Value::Expression(Box::new(Expression::Binary { left: field("c"), op: Operator::Eq, right: text("c") }));
    let got = g.get(hs[0], &wildcard(), &Some(filter)).unwrap().unwrap();
    assert!(holds_exactly(&got, vec![("b", Value::Number(2)), ("c", text("c")), ("id", Value::Record(rec("a", Id::Number(1))))]));
}

#[test]
fn get_wildcard_filter_false_test() {
    let (g, hs) = graph_with_nodes(vec![("a", Id::Number(1), vec![("b", Value::Number(2)), ("c", text("c"))])]);
    let filter = Value::Expression(Box::new(Expression::Binary { left: field("b"), op: Operator::Eq, right: text("c") }));
    assert_eq!(g.get(hs[0], &wildcard(), &Some(filter)), Ok(None));
}

#[test]
fn get_field_test() {
    let (g, hs) = graph_with_nodes(vec![("a", Id::Number(1), vec![("b", Value::Number(2)), ("c", text("c"))])]);
    let fields = Fields(vec![Field::new(field("c")), Field::new(field("id"))]);
    let got = g.get(hs[0], &fields, &None).unwrap().unwrap();
    assert!(holds_exactly(&got, vec![("c", text("c")), ("id", Value::Record(rec("a", Id::Number(1))))]));
}

#[test]
fn get_field_alias_test() {
    let (g, hs) = graph_with_nodes(vec![("a", Id::Number(1), vec![("b", Value::Number(2)), ("c", text("c"))])]);
    let fields = Fields(vec![Field::new_alias(field("c"), "alias".to_string()), Field::new(field("id"))]);
    let got = g.get(hs[0], &fields, &None).unwrap().unwrap();
    assert!(holds_exactly(&got, vec![("alias", text("c")), ("id", Value::Record(rec("a", Id::Number(1))))]));
}

#[test]
fn get_projection_of_car() {
    let (g, hs) = graph_with_nodes(vec![("a", Id::Number(1), vec![("car", text("new")), ("speed", Value::Number(2))])]);
    let all = g.get(hs[0], &wildcard(), &None).unwrap().unwrap();
    assert!(holds_exactly(&all, vec![("car", text("new")), ("speed", Value::Number(2)), ("id", Value::Record(rec("a", Id::Number(1))))]));
    let s = g.get(hs[0], &Fields(vec![Field::new_alias(field("speed"), "s".to_string())]), &None).unwrap().unwrap();
    assert!(holds_exactly(&s, vec![("s", Value::Number(2))]));
    let no = Value::Expression(Box::new(Expression::Binary { left: field("speed"), op: Operator::Eq, right: Value::Number(3) }));
    assert_eq!(g.get(hs[0], &wildcard(), &Some(no)), Ok(None));
}

#[test]
fn get_reports_evaluation_errors() {
    let (g, hs) = graph_with_nodes(vec![("a", Id::Number(1), vec![("s", text("x"))])]);
    let bad = Value::Expression(Box::new(Expression::Binary { left: field("s"), op: Operator::Sub, right: Value::Number(1) }));
    assert_eq!(g.get(hs[0], &Fields(vec![Field::new(bad)]), &None), Err(Error::Evaluation(graphdb::error::EvalError::TrySub)));
    assert_eq!(g.get(42, &wildcard(), &None), Err(Error::EntityGone));
}

#[test]
fn dotted_path_name() {
    let (g, hs) = graph_with_nodes(vec![("a", Id::Number(1), vec![("car", Value::Object(vec![("speed".to_string(), Value::Number(9))]))])]);
    let path = Value::Idiom(Idiom(vec![Part::Field(Ident("car".to_string())), Part::Field(Ident("speed".to_string()))]));
    let got = g.get(hs[0], &Fields(vec![Field::new(path)]), &None).unwrap().unwrap();
    assert!(holds_exactly(&got, vec![("car.speed", Value::Number(9))]));
}

#[test]
fn remove_remove_field_test() {
    let (mut g, hs) = graph_with_nodes(vec![("a", Id::String("1".to_string()), vec![("car", text("new")), ("speed", Value::Number(2))])]);
    g.remove_field(hs[0], "car").unwrap();
    let result = g.get(hs[0], &wildcard(), &None).unwrap().unwrap();
    assert!(holds_exactly(&result, vec![("speed", Value::Number(2)), ("id", Value::Record(rec("a", Id::String("1".to_string()))))]));
}

#[test]
fn remove_missing_field_is_no_op() {
    let (mut g, hs) = graph_with_nodes(vec![("a", Id::Number(1), vec![("car", text("new")), ("speed", Value::Number(2))])]);
    let before = g.get(hs[0], &wildcard(), &None).unwrap().unwrap();
    let after = g.remove_field(hs[0], "nonexistent").unwrap();
    assert_eq!(before, after);
}

#[test]
fn update_update_test() {
    let (mut g, hs) = graph_with_nodes(vec![("a", Id::String("1".to_string()), vec![])]);
    g.update(hs[0], pairs(vec![("car", text("new")), ("speed", Value::Number(2))])).unwrap();
    let result = g.get(hs[0], &wildcard(), &None).unwrap().unwrap();
    assert!(holds_exactly(&result, vec![
        ("car", text("new")),
        ("speed", Value::Number(2)),
        ("id", Value::Record(rec("a", Id::String("1".to_string())))),
    ]));
    let again = g.update(hs[0], pairs(vec![("speed", Value::Number(3))])).unwrap();
    assert_eq!(again.get("speed"), Value::Number(3));
    assert_eq!(again.len(), 3);
}

#[test]
fn new_node_binds_id_last() {
    let n = Entity::new_node(rec("a", Id::Number(1)), pairs(vec![("id", Value::Null), ("x", Value::Number(1))]));
    assert_eq!(n.fields.get("id"), Value::Record(rec("a", Id::Number(1))));
    assert!(n.edges.is_empty());
}
