//! The value model of the query language and its mathematical view.
use vstd::prelude::*;
use crate::ids::{Record, RecordView, Uuid};
use crate::names::{Direction, Ident, Operator, Strand, Table};

verus! {

/// One step of a path into a value.
#[derive(Debug, Clone, PartialEq, Eq, Hash)]
pub enum Part {
    All,
    First,
    Last,
    Field(Ident),
    Index(i64),
}

/// The mathematical value of a [`Part`].
pub enum PartView {
    All,
    First,
    Last,
    Field(Seq<char>),
    Index(int),
}

impl Part {
    pub open spec fn view(&self) -> PartView {
        match self {
            Part::All => PartView::All,
            Part::First => PartView::First,
            Part::Last => PartView::Last,
            Part::Field(f) => PartView::Field(f@),
            Part::Index(i) => PartView::Index(*i as int),
        }
    }

    pub fn is_field(&self) -> (r: bool)
        ensures
            r == (self is Field),
    {
        matches!(self, Part::Field(_))
    }

    pub fn is_index(&self) -> (r: bool)
        ensures
            r == (self is Index),
    {
        matches!(self, Part::Index(_))
    }

    pub fn same(&self, other: &Part) -> (r: bool)
        ensures
            r == (self@ == other@),
    {
        match (self, other) {
            (Part::All, Part::All) => true,
            (Part::First, Part::First) => true,
            (Part::Last, Part::Last) => true,
            (Part::Field(a), Part::Field(b)) => a.0 == b.0,
            (Part::Index(a), Part::Index(b)) => *a == *b,
            _ => false,
        }
    }

    pub fn duplicate(&self) -> (r: Part)
        ensures
            r@ == self@,
    {
        match self {
            Part::All => Part::All,
            Part::First => Part::First,
            Part::Last => Part::Last,
            Part::Field(f) => Part::Field(Ident(f.0.clone())),
            Part::Index(i) => Part::Index(*i),
        }
    }
}

pub open spec fn part_views(s: Seq<Part>) -> Seq<PartView> {
    Seq::new(s.len(), |i: int| s[i]@)
}

/// A path into a value: a field name followed by further parts.
#[derive(Debug, Clone, PartialEq, Eq, Hash)]
pub struct Idiom(pub Vec<Part>);

impl Idiom {
    pub open spec fn view(&self) -> Seq<PartView> {
        part_views(self.0@)
    }

    pub fn same(&self, other: &Idiom) -> (r: bool)
        ensures
            r == (self@ == other@),
    {
        if self.0.len() != other.0.len() {
            assert(self@.len() != other@.len());
            return false;
        }
        let mut i: usize = 0;
        while i < self.0.len()
            invariant
                i <= self.0.len(),
                self.0.len() == other.0.len(),
                forall|j: int| 0 <= j < i ==> self.0@[j]@ == other.0@[j]@,
            decreases self.0.len() - i,
        {
            if !self.0[i].same(&other.0[i]) {
                assert(self@[i as int] != other@[i as int]);
                return false;
            }
            i = i + 1;
        }
        assert(self@ =~= other@);
        true
    }

    pub fn duplicate(&self) -> (r: Idiom)
        ensures
            r@ == self@,
    {
        let mut out: Vec<Part> = Vec::new();
        let mut i: usize = 0;
        while i < self.0.len()
            invariant
                i <= self.0.len(),
                out@.len() == i,
                forall|j: int| 0 <= j < i ==> out@[j]@ == self.0@[j]@,
            decreases self.0.len() - i,
        {
            out.push(self.0[i].duplicate());
            i = i + 1;
        }
        let r = Idiom(out);
        assert(r@ =~= self@);
        r
    }
}

/// An expression over values.
#[derive(Debug, PartialEq, Eq, Hash)]
pub enum Expression {
    Unary { op: Operator, expr: Value },
    Binary { left: Value, op: Operator, right: Value },
}

/// A pattern that names the edges leaving a record towards a table.
#[derive(Debug, Clone, PartialEq, Eq, Hash)]
pub struct Edge {
    pub dir: Direction,
    pub from: Record,
    pub to: Table,
}

/// A value of the query language.
#[derive(Debug, PartialEq, Eq, Hash)]
pub enum Value {
    Nothing,
    Null,
    Record(Record),
    Uuid(Uuid),
    Number(i64),
    String(Strand),
    Bool(bool),
    Array(Vec<Value>),
    Object(Vec<(String, Value)>),
    Idiom(Idiom),
    Expression(Box<Expression>),
    Edge(Box<Edge>),
    Table(Table),
}

/// The mathematical value of a [`Value`].
pub enum Model {
    Nothing,
    Null,
    Record(RecordView),
    Uuid(u128),
    Number(int),
    String(Seq<char>),
    Bool(bool),
    Array(Seq<Model>),
    Object(Seq<(Seq<char>, Model)>),
    Idiom(Seq<PartView>),
    Unary(Operator, Box<Model>),
    Binary(Box<Model>, Operator, Box<Model>),
    Edge(Direction, RecordView, Seq<char>),
    Table(Seq<char>),
}

pub open spec fn models(s: Seq<Value>) -> Seq<Model>
    decreases s,
{
    if s.len() == 0 {
        Seq::empty()
    } else {
        models(s.drop_last()).push(value_model(s.last()))
    }
}

pub open spec fn entry_models(s: Seq<(String, Value)>) -> Seq<(Seq<char>, Model)>
    decreases s,
{
    if s.len() == 0 {
        Seq::empty()
    } else {
        entry_models(s.drop_last()).push((s.last().0@, value_model(s.last().1)))
    }
}

pub open spec fn value_model(v: Value) -> Model
    decreases v,
{
    match v {
        Value::Nothing => Model::Nothing,
        Value::Null => Model::Null,
        Value::Record(r) => Model::Record(r@),
        Value::Uuid(u) => Model::Uuid(u.0),
        Value::Number(n) => Model::Number(n as int),
        Value::String(s) => Model::String(s@),
        Value::Bool(b) => Model::Bool(b),
        Value::Array(a) => Model::Array(models(a@)),
        Value::Object(o) => Model::Object(entry_models(o@)),
        Value::Idiom(i) => Model::Idiom(i@),
        Value::Expression(e) => match *e {
            Expression::Unary { op, expr } => Model::Unary(op, Box::new(value_model(expr))),
            Expression::Binary { left, op, right } => Model::Binary(
                Box::new(value_model(left)),
                op,
                Box::new(value_model(right)),
            ),
        },
        Value::Edge(e) => Model::Edge(e.dir, e.from@, e.to@),
        Value::Table(t) => Model::Table(t@),
    }
}

pub proof fn lemma_models(s: Seq<Value>)
    ensures
        models(s).len() == s.len(),
        forall|i: int| 0 <= i < s.len() ==> #[trigger] models(s)[i] == value_model(s[i]),
    decreases s.len(),
{
    if s.len() > 0 {
        lemma_models(s.drop_last());
    }
}

pub proof fn lemma_entry_models(s: Seq<(String, Value)>)
    ensures
        entry_models(s).len() == s.len(),
        forall|i: int|
            0 <= i < s.len() ==> #[trigger] entry_models(s)[i] == (s[i].0@, value_model(s[i].1)),
    decreases s.len(),
{
    if s.len() > 0 {
        lemma_entry_models(s.drop_last());
    }
}

/// Whether a value counts as true where a condition is asked for.
pub open spec fn truthy(m: Model) -> bool {
    match m {
        Model::Bool(b) => b,
        Model::Record(_) => true,
        Model::Uuid(_) => true,
        Model::Number(_) => true,
        Model::Object(o) => o.len() > 0,
        Model::String(s) => s.len() > 0,
        Model::Array(a) => a.len() > 0,
        _ => false,
    }
}

impl Value {
    pub open spec fn view(&self) -> Model {
        value_model(*self)
    }

    pub fn is_none(&self) -> (r: bool)
        ensures
            r == (self is Nothing),
    {
        matches!(self, Value::Nothing)
    }

    pub fn is_null(&self) -> (r: bool)
        ensures
            r == (self is Null),
    {
        matches!(self, Value::Null)
    }

    pub fn is_record(&self) -> (r: bool)
        ensures
            r == (self is Record),
    {
        matches!(self, Value::Record(_))
    }

    pub fn is_number(&self) -> (r: bool)
        ensures
            r == (self is Number),
    {
        matches!(self, Value::Number(_))
    }

    pub fn is_string(&self) -> (r: bool)
        ensures
            r == (self is String),
    {
        matches!(self, Value::String(_))
    }

    pub fn is_array(&self) -> (r: bool)
        ensures
            r == (self is Array),
    {
        matches!(self, Value::Array(_))
    }

    pub fn is_object(&self) -> (r: bool)
        ensures
            r == (self is Object),
    {
        matches!(self, Value::Object(_))
    }

    pub fn is_truthy(&self) -> (r: bool)
        ensures
            r == truthy(self@),
    {
        proof {
            match self {
                Value::Array(a) => lemma_models(a@),
                Value::Object(o) => lemma_entry_models(o@),
                _ => {},
            }
        }
        match self {
            Value::Bool(v) => *v,
            Value::Record(_) => true,
            Value::Uuid(_) => true,
            Value::Number(_) => true,
            Value::Object(v) => v.len() > 0,
            Value::String(v) => !v.is_empty(),
            Value::Array(v) => v.len() > 0,
            _ => false,
        }
    }

    /// Whether two values are equal.
    pub fn equal(&self, other: &Value) -> (r: bool)
        ensures
            r == (self@ == other@),
        decreases self,
    {
        match (self, other) {
            (Value::Nothing, Value::Nothing) => true,
            (Value::Null, Value::Null) => true,
            (Value::Record(a), Value::Record(b)) => a.same(b),
            (Value::Uuid(a), Value::Uuid(b)) => a.0 == b.0,
            (Value::Number(a), Value::Number(b)) => *a == *b,
            (Value::String(a), Value::String(b)) => a.0 == b.0,
            (Value::Bool(a), Value::Bool(b)) => *a == *b,
            (Value::Array(a), Value::Array(b)) => {
                proof {
                    lemma_models(a@);
                    lemma_models(b@);
                }
                if a.len() != b.len() {
                    assert(models(a@).len() != models(b@).len());
                    return false;
                }
                let mut i: usize = 0;
                while i < a.len()
                    invariant
                        *self == Value::Array(*a),
                        *other == Value::Array(*b),
                        i <= a.len(),
                        a.len() == b.len(),
                        forall|j: int| 0 <= j < i ==> a@[j]@ == b@[j]@,
                    decreases a.len() - i,
                {
                    proof {
                        vstd::std_specs::vec::axiom_vec_index_decreases(*a, i as int);
                        assert(decreases_to!(*self => self->Array_0));
                        assert(decreases_to!(*a => a[i as int]));
                    }
                    if !a[i].equal(&b[i]) {
                        proof {
                            lemma_models(a@);
                            lemma_models(b@);
                            assert(models(a@)[i as int] != models(b@)[i as int]);
                        }
                        return false;
                    }
                    i = i + 1;
                }
                proof {
                    assert(models(a@) =~= models(b@));
                }
                true
            },
            (Value::Object(a), Value::Object(b)) => {
                proof {
                    lemma_entry_models(a@);
                    lemma_entry_models(b@);
                }
                if a.len() != b.len() {
                    assert(entry_models(a@).len() != entry_models(b@).len());
                    return false;
                }
                let mut i: usize = 0;
                while i < a.len()
                    invariant
                        *self == Value::Object(*a),
                        *other == Value::Object(*b),
                        i <= a.len(),
                        a.len() == b.len(),
                        forall|j: int| 0 <= j < i ==> a@[j].0@ == b@[j].0@ && a@[j].1@ == b@[j].1@,
                    decreases a.len() - i,
                {
                    proof {
                        vstd::std_specs::vec::axiom_vec_index_decreases(*a, i as int);
                        assert(decreases_to!(*self => self->Object_0));
                        assert(decreases_to!(*a => a[i as int]));
                        assert(decreases_to!(a[i as int] => a[i as int].1));
                    }
                    if a[i].0 != b[i].0 || !a[i].1.equal(&b[i].1) {
                        proof {
                            lemma_entry_models(a@);
                            lemma_entry_models(b@);
                            assert(entry_models(a@)[i as int] != entry_models(b@)[i as int]);
                        }
                        return false;
                    }
                    i = i + 1;
                }
                proof {
                    assert(entry_models(a@) =~= entry_models(b@));
                }
                true
            },
            (Value::Idiom(a), Value::Idiom(b)) => a.same(b),
            (Value::Expression(a), Value::Expression(b)) => match (&**a, &**b) {
                (
                    Expression::Unary { op: o1, expr: e1 },
                    Expression::Unary { op: o2, expr: e2 },
                ) => *o1 == *o2 && e1.equal(e2),
                (
                    Expression::Binary { left: l1, op: o1, right: r1 },
                    Expression::Binary { left: l2, op: o2, right: r2 },
                ) => *o1 == *o2 && l1.equal(l2) && r1.equal(r2),
                _ => false,
            },
            (Value::Edge(a), Value::Edge(b)) => a.dir == b.dir && a.from.same(&b.from) && a.to.0
                == b.to.0,
            (Value::Table(a), Value::Table(b)) => a.0 == b.0,
            _ => false,
        }
    }

    /// A copy of the value.
    pub fn duplicate(&self) -> (r: Value)
        ensures
            r@ == self@,
        decreases self,
    {
        match self {
            Value::Nothing => Value::Nothing,
            Value::Null => Value::Null,
            Value::Record(r) => Value::Record(r.duplicate()),
            Value::Uuid(u) => Value::Uuid(*u),
            Value::Number(n) => Value::Number(*n),
            Value::String(s) => Value::String(s.duplicate()),
            Value::Bool(b) => Value::Bool(*b),
            Value::Array(a) => {
                let mut out: Vec<Value> = Vec::new();
                let mut i: usize = 0;
                while i < a.len()
                    invariant
                        *self == Value::Array(*a),
                        i <= a.len(),
                        out@.len() == i,
                        forall|j: int| 0 <= j < i ==> #[trigger] out@[j]@ == a@[j]@,
                    decreases a.len() - i,
                {
                    proof {
                        vstd::std_specs::vec::axiom_vec_index_decreases(*a, i as int);
                        assert(decreases_to!(*self => self->Array_0));
                        assert(decreases_to!(*a => a[i as int]));
                    }
                    out.push(a[i].duplicate());
                    i = i + 1;
                }
                proof {
                    lemma_models(a@);
                    lemma_models(out@);
                    assert forall|j: int| 0 <= j < out@.len() implies models(out@)[j] == models(a@)[j] by {
                        assert(out@[j]@ == a@[j]@);
                    }
                    assert(models(out@) =~= models(a@));
                }
                Value::Array(out)
            },
            Value::Object(o) => {
                let mut out: Vec<(String, Value)> = Vec::new();
                let mut i: usize = 0;
                while i < o.len()
                    invariant
                        *self == Value::Object(*o),
                        i <= o.len(),
                        out@.len() == i,
                        forall|j: int|
                            0 <= j < i ==> (#[trigger] out@[j]).0@ == o@[j].0@ && out@[j].1@
                                == o@[j].1@,
                    decreases o.len() - i,
                {
                    proof {
                        vstd::std_specs::vec::axiom_vec_index_decreases(*o, i as int);
                        assert(decreases_to!(*self => self->Object_0));
                        assert(decreases_to!(*o => o[i as int]));
                        assert(decreases_to!(o[i as int] => o[i as int].1));

                    }
                    let v = o[i].1.duplicate();
                    out.push((o[i].0.clone(), v));
                    i = i + 1;
                }
                proof {
                    lemma_entry_models(o@);
                    lemma_entry_models(out@);
                    assert(entry_models(out@) =~= entry_models(o@));
                }
                Value::Object(out)
            },
            Value::Idiom(i) => Value::Idiom(i.duplicate()),
            Value::Expression(e) => match &**e {
                Expression::Unary { op, expr } => Value::Expression(
                    Box::new(Expression::Unary { op: *op, expr: expr.duplicate() }),
                ),
                Expression::Binary { left, op, right } => Value::Expression(
                    Box::new(
                        Expression::Binary {
                            left: left.duplicate(),
                            op: *op,
                            right: right.duplicate(),
                        },
                    ),
                ),
            },
            Value::Edge(e) => Value::Edge(
                Box::new(Edge { dir: e.dir, from: e.from.duplicate(), to: e.to.duplicate() }),
            ),
            Value::Table(t) => Value::Table(t.duplicate()),
        }
    }
}

} // verus!
