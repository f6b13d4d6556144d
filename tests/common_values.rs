use graphdb::error::{Error, EvalError};
use graphdb::eval::find_entry;
use graphdb::ids::{Id, Record, Uuid};
use graphdb::names::{Direction, Ident, Operator, Strand};
use graphdb::object::Object;
use graphdb::value::{Expression, Idiom, Part, Value};

fn text(s: &str) -> Value {
    Value::String(Strand(s.to_string()))
}

fn field(name: &str) -> Value {
    Value::Idiom(Idiom(vec![Part::Field(Ident(name.to_string()))]))
}

fn binary(left: Value, op: Operator, right: Value) -> Value {
    Value::Expression(Box::new(Expression::Binary { left, op, right }))
}

fn fields_of(pairs: Vec<(&str, Value)>) -> Object {
    let mut o = Object::new();
    for (k, v) in pairs {
        o.insert(k.to_string(), v);
    }
    o
}

#[test]
fn strand_and_ident_basics() {
    let s = Strand::new("abc".to_string());
    assert_eq!(s.as_str(), "abc");
    assert_eq!(s.as_string(), "abc".to_string());
    assert!(!s.is_empty());
    assert!(Strand::new(String::new()).is_empty());
    let i = Ident::new("name".to_string());
    assert_eq!(i.to_string(), "name".to_string());
}

#[test]
fn direction_predicates() {
    assert!(Direction::In.is_in());
    assert!(!Direction::In.is_out());
    assert!(Direction::Out.is_out());
    assert!(Direction::Both.is_both());
    assert_eq!(Direction::default(), Direction::Both);
}

#[test]
fn uuid_versions() {
    let v4 = Uuid::new_v4();
    assert_eq!((v4.0 >> 76) & 0xf, 4);
    let v7 = Uuid::new_v7();
    assert_eq!((v7.0 >> 76) & 0xf, 7);
    let n = Uuid::new();
    assert_eq!((n.0 >> 76) & 0xf, 7);
    assert_ne!(Uuid::new_v4(), Uuid::new_v4());
}

#[test]
fn record_equality() {
    let a = Record::new("a".to_string(), Id::Number(1));
    let b = Record::new("a".to_string(), Id::Number(1));
    let c = Record::new("a".to_string(), Id::String("1".to_string()));
    assert!(a.same(&b));
    assert!(!a.same(&c));
    let g = Record::generate("t".to_string());
    assert_eq!(g.table, "t");
    assert!(matches!(g.id, Id::Uuid(_)));
}

#[test]
fn truthiness() {
    assert!(!Value::Nothing.is_truthy());
    assert!(!Value::Null.is_truthy());
    assert!(Value::Bool(true).is_truthy());
    assert!(!Value::Bool(false).is_truthy());
    assert!(Value::Number(0).is_truthy());
    assert!(!text("").is_truthy());
    assert!(text("x").is_truthy());
    assert!(!Value::Array(vec![]).is_truthy());
    assert!(Value::Array(vec![Value::Null]).is_truthy());
    assert!(!Value::Object(vec![]).is_truthy());
}

#[test]
fn arithmetic_results() {
    assert_eq!(Value::Number(2).try_add(Value::Number(3)), Ok(Value::Number(5)));
    assert_eq!(text("ab").try_add(text("cd")), Ok(text("abcd")));
    assert_eq!(Value::Number(7).try_sub(Value::Number(10)), Ok(Value::Number(-3)));
    assert_eq!(Value::Number(6).try_mul(Value::Number(-7)), Ok(Value::Number(-42)));
    assert_eq!(Value::Number(-7).try_div(Value::Number(2)), Ok(Value::Number(-3)));
    assert_eq!(Value::Number(7).try_div(Value::Number(-2)), Ok(Value::Number(-3)));
    assert_eq!(Value::Number(5).try_neg(), Ok(Value::Number(-5)));
    assert_eq!(Value::Number(0).try_not(), Ok(Value::Bool(false)));
}

#[test]
fn arithmetic_errors() {
    assert_eq!(Value::Bool(true).try_add(Value::Number(1)), Err(EvalError::TryAdd));
    assert_eq!(text("a").try_sub(text("b")), Err(EvalError::TrySub));
    assert_eq!(Value::Null.try_mul(Value::Number(1)), Err(EvalError::TryMul));
    assert_eq!(Value::Null.try_div(Value::Number(1)), Err(EvalError::TryDiv));
    assert_eq!(Value::Number(1).try_div(Value::Number(0)), Err(EvalError::DivisionByZero));
    assert_eq!(Value::Number(i64::MAX).try_add(Value::Number(1)), Err(EvalError::Overflow));
    assert_eq!(Value::Number(i64::MIN).try_div(Value::Number(-1)), Err(EvalError::Overflow));
    assert_eq!(Value::Number(i64::MIN).try_neg(), Err(EvalError::InvalidNegative));
    assert_eq!(text("a").try_neg(), Err(EvalError::InvalidNegative));
}

#[test]
fn evaluation_against_fields() {
    let ctx = fields_of(vec![("a", Value::Number(2)), ("s", text("x"))]);
    assert_eq!(field("a").evaluate(&ctx), Ok(Value::Number(2)));
    assert_eq!(field("missing").evaluate(&ctx), Ok(Value::Nothing));
    let sum = binary(field("a"), Operator::Add, Value::Number(3));
    assert_eq!(sum.evaluate(&ctx), Ok(Value::Number(5)));
    assert_eq!(binary(field("a"), Operator::Eq, Value::Number(2)).evaluate(&ctx), Ok(Value::Bool(true)));
    assert_eq!(binary(field("a"), Operator::NtEq, Value::Number(2)).evaluate(&ctx), Ok(Value::Bool(false)));
    assert_eq!(binary(field("a"), Operator::Lt, Value::Number(3)).evaluate(&ctx), Ok(Value::Bool(true)));
    assert_eq!(binary(field("a"), Operator::GtEq, Value::Number(3)).evaluate(&ctx), Ok(Value::Bool(false)));
    assert_eq!(binary(field("s"), Operator::Lt, Value::Number(3)).evaluate(&ctx), Err(EvalError::InvalidComparison));
    assert_eq!(binary(field("a"), Operator::Not, Value::Number(3)).evaluate(&ctx), Err(EvalError::InvalidOperator(Operator::Not)));
    assert_eq!(binary(Value::Bool(false), Operator::Or, field("s")).evaluate(&ctx), Ok(Value::Bool(true)));
    assert_eq!(binary(Value::Bool(true), Operator::And, Value::Null).evaluate(&ctx), Ok(Value::Bool(false)));
    let bad = Value::Idiom(Idiom(vec![Part::Index(0)]));
    assert_eq!(bad.evaluate(&ctx), Err(EvalError::InvalidIdiom));
}

#[test]
fn retrieval_into_lists_and_objects() {
    let list = Value::Array(vec![
        Value::Object(vec![("x".to_string(), Value::Number(1))]),
        Value::Number(9),
        Value::Object(vec![("x".to_string(), Value::Number(3))]),
    ]);
    assert_eq!(
        list.retrieve(&Part::Field(Ident("x".to_string()))),
        Ok(Value::Array(vec![Value::Number(1), Value::Nothing, Value::Number(3)]))
    );
    assert_eq!(list.retrieve(&Part::Index(1)), Ok(Value::Number(9)));
    assert_eq!(list.retrieve(&Part::Index(5)), Ok(Value::Nothing));
    assert_eq!(list.retrieve(&Part::Index(-1)), Ok(Value::Nothing));
    assert_eq!(list.retrieve(&Part::Last), Ok(Value::Object(vec![("x".to_string(), Value::Number(3))])));
    let obj = Value::Object(vec![("x".to_string(), Value::Number(1))]);
    assert_eq!(obj.retrieve(&Part::Field(Ident("x".to_string()))), Ok(Value::Number(1)));
    assert_eq!(obj.retrieve(&Part::Index(0)), Err(EvalError::FieldNotFound));
    assert_eq!(Value::Number(1).retrieve(&Part::All), Ok(Value::Nothing));
    let entries = vec![("k".to_string(), Value::Number(1)), ("k".to_string(), Value::Number(2))];
    assert_eq!(find_entry(&entries, &"k".to_string()), Value::Number(2));
}

#[test]
fn nested_paths() {
    let ctx = fields_of(vec![(
        "car",
        Value::Object(vec![("parts".to_string(), Value::Array(vec![Value::Number(4), Value::Number(5)]))]),
    )]);
    let path = Value::Idiom(Idiom(vec![
        Part::Field(Ident("car".to_string())),
        Part::Field(Ident("parts".to_string())),
        Part::First,
    ]));
    assert_eq!(path.evaluate(&ctx), Ok(Value::Number(4)));
}

#[test]
fn value_equality_and_copy() {
    let v = Value::Array(vec![text("a"), Value::Object(vec![("k".to_string(), Value::Null)])]);
    let w = v.duplicate();
    assert!(v.equal(&w));
    assert_eq!(v, w);
    assert!(!v.equal(&Value::Array(vec![text("a")])));
}

#[test]
fn object_insert_and_remove() {
    let mut o = fields_of(vec![("a", Value::Number(1)), ("b", Value::Number(2))]);
    o.insert("a".to_string(), Value::Number(3));
    assert_eq!(o.len(), 2);
    assert_eq!(o.get("a"), Value::Number(3));
    o.remove("zzz");
    assert_eq!(o.len(), 2);
    o.remove("a");
    assert_eq!(o.get("a"), Value::Nothing);
    assert_eq!(o.len(), 1);
    let _ = Error::EntityGone;
}

#[test]
fn ordering_of_strings_and_booleans() {
    let ctx = Object::new();
    assert_eq!(binary(text("ab"), Operator::Lt, text("b")).evaluate(&ctx), Ok(Value::Bool(true)));
    assert_eq!(binary(text("b"), Operator::Lt, text("ab")).evaluate(&ctx), Ok(Value::Bool(false)));
    assert_eq!(binary(text("b"), Operator::LtEq, text("b")).evaluate(&ctx), Ok(Value::Bool(true)));
    assert_eq!(binary(text("ab"), Operator::Gt, text("a")).evaluate(&ctx), Ok(Value::Bool(true)));
    assert_eq!(binary(text("z"), Operator::Lt, text("\u{e9}")).evaluate(&ctx), Ok(Value::Bool(true)));
    assert_eq!(binary(Value::Bool(false), Operator::Lt, Value::Bool(true)).evaluate(&ctx), Ok(Value::Bool(true)));
    assert_eq!(binary(Value::Bool(true), Operator::GtEq, Value::Bool(true)).evaluate(&ctx), Ok(Value::Bool(true)));
    assert_eq!(binary(Value::Null, Operator::Lt, Value::Null).evaluate(&ctx), Err(EvalError::InvalidComparison));
}

#[test]
fn lists_and_objects_evaluate_their_items() {
    let ctx = fields_of(vec![("a", Value::Number(2))]);
    let list = Value::Array(vec![binary(field("a"), Operator::Add, Value::Number(1)), text("x")]);
    assert_eq!(list.evaluate(&ctx), Ok(Value::Array(vec![Value::Number(3), text("x")])));
    let obj = Value::Object(vec![("k".to_string(), binary(field("a"), Operator::Mult, Value::Number(5)))]);
    assert_eq!(obj.evaluate(&ctx), Ok(Value::Object(vec![("k".to_string(), Value::Number(10))])));
    let bad = Value::Array(vec![Value::Number(1), binary(text("s"), Operator::Div, Value::Number(1))]);
    assert_eq!(bad.evaluate(&ctx), Err(EvalError::TryDiv));
}

#[test]
fn text_of_values() {
    assert_eq!(Value::Nothing.to_text(), "NONE");
    assert_eq!(Value::Null.to_text(), "NULL");
    assert_eq!(Value::Number(-120).to_text(), "-120");
    assert_eq!(Value::Number(i64::MIN).to_text(), "-9223372036854775808");
    assert_eq!(Value::Number(7).to_text(), "7");
    assert_eq!(Value::Bool(false).to_text(), "false");
    assert_eq!(text("hi").to_text(), "hi");
    let r = Value::Record(Record::new("a".to_string(), Id::Number(1)));
    assert_eq!(r.to_text(), "a:1");
    assert_eq!(Value::Array(vec![Value::Number(1), text("x")]).to_text(), "[1,x]");
    assert_eq!(Value::Object(vec![("k".to_string(), Value::Number(1)), ("l".to_string(), Value::Null)]).to_text(), "{k: 1, l: NULL}");
    assert_eq!(binary(field("a"), Operator::GtEq, Value::Number(2)).to_text(), "a >= 2");
    let path = Value::Idiom(Idiom(vec![Part::Field(Ident("a".to_string())), Part::Index(3), Part::Field(Ident("b".to_string())), Part::Last]));
    assert_eq!(path.to_text(), "a[3].b[$]");
    let u = Value::Uuid(Uuid(0xa1a2a3a4b1b2c1c2d1d2d3d4d5d6d7d8));
    assert_eq!(u.to_text(), "ua1a2a3a4-b1b2-c1c2-d1d2-d3d4d5d6d7d8");
    let neg = Value::Expression(Box::new(Expression::Unary { op: Operator::Neg, expr: field("x") }));
    assert_eq!(neg.to_text(), "-x");
}
