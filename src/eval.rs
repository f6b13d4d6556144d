//! Evaluation of values and expressions against the fields of an entity.
use vstd::prelude::*;
use crate::error::EvalError;
use crate::names::{Operator, Strand};
use crate::object::{Object, lookup};
use crate::value::{
    Expression, Model, Part, PartView, Value, entry_models, lemma_entry_models, lemma_models,
    models,
};

verus! {

pub open spec fn fits_i64(n: int) -> bool {
    i64::MIN <= n <= i64::MAX
}

/// Integer division rounding towards zero.
pub open spec fn trunc_div(a: int, b: int) -> int {
    let q = (if a < 0 { -a } else { a }) / (if b < 0 { -b } else { b });
    if (a < 0) != (b < 0) {
        -q
    } else {
        q
    }
}

pub open spec fn neg_of(v: Model) -> Result<Model, EvalError> {
    match v {
        Model::Number(n) => if fits_i64(-n) {
            Ok(Model::Number(-n))
        } else {
            Err(EvalError::InvalidNegative)
        },
        _ => Err(EvalError::InvalidNegative),
    }
}

pub open spec fn add_of(l: Model, r: Model) -> Result<Model, EvalError> {
    match (l, r) {
        (Model::Number(a), Model::Number(b)) => if fits_i64(a + b) {
            Ok(Model::Number(a + b))
        } else {
            Err(EvalError::Overflow)
        },
        (Model::String(a), Model::String(b)) => Ok(Model::String(a + b)),
        _ => Err(EvalError::TryAdd),
    }
}

pub open spec fn sub_of(l: Model, r: Model) -> Result<Model, EvalError> {
    match (l, r) {
        (Model::Number(a), Model::Number(b)) => if fits_i64(a - b) {
            Ok(Model::Number(a - b))
        } else {
            Err(EvalError::Overflow)
        },
        _ => Err(EvalError::TrySub),
    }
}

pub open spec fn mul_of(l: Model, r: Model) -> Result<Model, EvalError> {
    match (l, r) {
        (Model::Number(a), Model::Number(b)) => if fits_i64(a * b) {
            Ok(Model::Number(a * b))
        } else {
            Err(EvalError::Overflow)
        },
        _ => Err(EvalError::TryMul),
    }
}

pub open spec fn div_of(l: Model, r: Model) -> Result<Model, EvalError> {
    match (l, r) {
        (Model::Number(a), Model::Number(b)) => if b == 0 {
            Err(EvalError::DivisionByZero)
        } else if fits_i64(trunc_div(a, b)) {
            Ok(Model::Number(trunc_div(a, b)))
        } else {
            Err(EvalError::Overflow)
        },
        _ => Err(EvalError::TryDiv),
    }
}

/// Lexicographic order of byte sequences.
pub open spec fn bytes_lt(x: Seq<u8>, y: Seq<u8>) -> bool
    decreases x.len(),
{
    if x.len() == 0 {
        y.len() > 0
    } else if y.len() == 0 {
        false
    } else if x[0] != y[0] {
        x[0] < y[0]
    } else {
        bytes_lt(x.drop_first(), y.drop_first())
    }
}

/// The order of strings: lexicographic by their UTF-8 bytes.
pub open spec fn text_lt(a: Seq<char>, b: Seq<char>) -> bool {
    bytes_lt(vstd::utf8::encode_utf8(a), vstd::utf8::encode_utf8(b))
}

/// Whether `l` comes before `r`: numbers by value, strings lexicographically,
/// `false` before `true`; other operands are not ordered.
pub open spec fn less_of(l: Model, r: Model) -> Option<bool> {
    match (l, r) {
        (Model::Number(a), Model::Number(b)) => Some(a < b),
        (Model::String(a), Model::String(b)) => Some(text_lt(a, b)),
        (Model::Bool(a), Model::Bool(b)) => Some(!a && b),
        _ => None,
    }
}

pub open spec fn order_of(op: Operator, l: Model, r: Model) -> Result<Model, EvalError> {
    match (less_of(l, r), less_of(r, l)) {
        (Some(lt), Some(gt)) => Ok(
            Model::Bool(
                match op {
                    Operator::Lt => lt,
                    Operator::Gt => gt,
                    Operator::LtEq => lt || l == r,
                    _ => gt || l == r,
                },
            ),
        ),
        _ => Err(EvalError::InvalidComparison),
    }
}

/// Whether the first text comes before the second, byte by byte.
pub fn text_less(a: &str, b: &str) -> (r: bool)
    ensures
        r == text_lt(a@, b@),
{
    let x = a.as_bytes();
    let y = b.as_bytes();
    let ghost xs = x@;
    let ghost ys = y@;
    let mut i: usize = 0;
    assert(xs.skip(0) =~= xs);
    assert(ys.skip(0) =~= ys);
    while i < x.len() && i < y.len()
        invariant
            xs == x@,
            ys == y@,
            xs == vstd::utf8::encode_utf8(a@),
            ys == vstd::utf8::encode_utf8(b@),
            i <= x@.len(),
            i <= y@.len(),
            bytes_lt(xs, ys) == bytes_lt(xs.skip(i as int), ys.skip(i as int)),
        decreases x.len() - i,
    {
        assert(xs.skip(i as int)[0] == x@[i as int]);
        assert(ys.skip(i as int)[0] == y@[i as int]);
        if x[i] != y[i] {
            return x[i] < y[i];
        }
        assert(xs.skip(i as int).drop_first() =~= xs.skip(i + 1));
        assert(ys.skip(i as int).drop_first() =~= ys.skip(i + 1));
        i = i + 1;
    }
    i < y.len()
}

/// Whether `l` comes before `r`, when the two are ordered.
pub fn less(l: &Value, r: &Value) -> (res: Option<bool>)
    ensures
        res == less_of(l@, r@),
{
    match (l, r) {
        (Value::Number(a), Value::Number(b)) => Some(*a < *b),
        (Value::String(a), Value::String(b)) => Some(text_less(a.0.as_str(), b.0.as_str())),
        (Value::Bool(a), Value::Bool(b)) => Some(!*a && *b),
        _ => None,
    }
}

pub open spec fn unary_of(op: Operator, v: Model) -> Result<Model, EvalError> {
    match op {
        Operator::Neg => neg_of(v),
        Operator::Not => Ok(Model::Bool(!crate::value::truthy(v))),
        _ => Err(EvalError::InvalidOperator(op)),
    }
}

pub open spec fn binary_of(op: Operator, l: Model, r: Model) -> Result<Model, EvalError> {
    match op {
        Operator::Or => Ok(Model::Bool(crate::value::truthy(l) || crate::value::truthy(r))),
        Operator::And => Ok(Model::Bool(crate::value::truthy(l) && crate::value::truthy(r))),
        Operator::Eq => Ok(Model::Bool(l == r)),
        Operator::NtEq => Ok(Model::Bool(l != r)),
        Operator::Lt | Operator::Gt | Operator::LtEq | Operator::GtEq => order_of(op, l, r),
        Operator::Add => add_of(l, r),
        Operator::Sub => sub_of(l, r),
        Operator::Mult => mul_of(l, r),
        Operator::Div => div_of(l, r),
        _ => Err(EvalError::InvalidOperator(op)),
    }
}

/// The field of a value that is an object, or nothing.
pub open spec fn field_in(m: Model, f: Seq<char>) -> Model {
    match m {
        Model::Object(o) => lookup(o, f),
        _ => Model::Nothing,
    }
}

/// One step of a path into a value.
pub open spec fn retrieve_of(v: Model, p: PartView) -> Result<Model, EvalError> {
    match v {
        Model::Array(items) => match p {
            PartView::All => Ok(v),
            PartView::Field(f) => Ok(
                Model::Array(Seq::new(items.len(), |i: int| field_in(items[i], f))),
            ),
            PartView::Index(i) => Ok(
                if 0 <= i < items.len() {
                    items[i]
                } else {
                    Model::Nothing
                },
            ),
            PartView::First => Ok(
                if items.len() > 0 {
                    items[0]
                } else {
                    Model::Nothing
                },
            ),
            PartView::Last => Ok(
                if items.len() > 0 {
                    items[items.len() - 1]
                } else {
                    Model::Nothing
                },
            ),
        },
        Model::Object(o) => match p {
            PartView::All => Ok(v),
            PartView::Field(f) => Ok(lookup(o, f)),
            _ => Err(EvalError::FieldNotFound),
        },
        _ => Ok(Model::Nothing),
    }
}

/// The value reached from `v` by the steps of a path, in order.
pub open spec fn follow_of(v: Model, parts: Seq<PartView>) -> Result<Model, EvalError>
    decreases parts.len(),
{
    if parts.len() == 0 {
        Ok(v)
    } else {
        match retrieve_of(v, parts[0]) {
            Ok(w) => follow_of(w, parts.drop_first()),
            Err(e) => Err(e),
        }
    }
}

/// The value that a path names in a field map: its first step names a field.
pub open spec fn resolve_of(parts: Seq<PartView>, ctx: Seq<(Seq<char>, Model)>) -> Result<
    Model,
    EvalError,
> {
    if parts.len() == 0 {
        Ok(Model::Nothing)
    } else {
        match parts[0] {
            PartView::Field(f) => follow_of(lookup(ctx, f), parts.drop_first()),
            _ => Err(EvalError::InvalidIdiom),
        }
    }
}

/// The value of an expression, its paths read in the field map `ctx`.
pub open spec fn eval_of(m: Model, ctx: Seq<(Seq<char>, Model)>) -> Result<Model, EvalError>
    decreases m,
{
    match m {
        Model::Idiom(parts) => resolve_of(parts, ctx),
        Model::Unary(op, e) => match eval_of(*e, ctx) {
            Ok(v) => unary_of(op, v),
            Err(x) => Err(x),
        },
        Model::Binary(l, op, r) => match eval_of(*l, ctx) {
            Ok(lv) => match eval_of(*r, ctx) {
                Ok(rv) => binary_of(op, lv, rv),
                Err(x) => Err(x),
            },
            Err(x) => Err(x),
        },
        Model::Array(items) => match eval_items(items, ctx) {
            Ok(vs) => Ok(Model::Array(vs)),
            Err(x) => Err(x),
        },
        Model::Object(entries) => match eval_entries(entries, ctx) {
            Ok(es) => Ok(Model::Object(es)),
            Err(x) => Err(x),
        },
        _ => Ok(m),
    }
}

/// The values of the items of a list, in order, or the first error.
pub open spec fn eval_items(items: Seq<Model>, ctx: Seq<(Seq<char>, Model)>) -> Result<Seq<Model>, EvalError>
    decreases items,
{
    if items.len() == 0 {
        Ok(Seq::empty())
    } else {
        match eval_items(items.drop_last(), ctx) {
            Ok(vs) => match eval_of(items.last(), ctx) {
                Ok(v) => Ok(vs.push(v)),
                Err(x) => Err(x),
            },
            Err(x) => Err(x),
        }
    }
}

/// The entries of an object with their values evaluated, in order, or the
/// first error.
pub open spec fn eval_entries(entries: Seq<(Seq<char>, Model)>, ctx: Seq<(Seq<char>, Model)>) -> Result<
    Seq<(Seq<char>, Model)>,
    EvalError,
>
    decreases entries,
{
    if entries.len() == 0 {
        Ok(Seq::empty())
    } else {
        match eval_entries(entries.drop_last(), ctx) {
            Ok(es) => match eval_of(entries.last().1, ctx) {
                Ok(v) => Ok(es.push((entries.last().0, v))),
                Err(x) => Err(x),
            },
            Err(x) => Err(x),
        }
    }
}

pub proof fn lemma_items_error(items: Seq<Model>, ctx: Seq<(Seq<char>, Model)>, k: int)
    requires
        0 <= k <= items.len(),
        eval_items(items.take(k), ctx) is Err,
    ensures
        eval_items(items, ctx) == eval_items(items.take(k), ctx),
    decreases items.len() - k,
{
    if k < items.len() {
        assert(items.take(k + 1).drop_last() =~= items.take(k));
        lemma_items_error(items, ctx, k + 1);
    } else {
        assert(items.take(k) =~= items);
    }
}

pub proof fn lemma_entries_error(entries: Seq<(Seq<char>, Model)>, ctx: Seq<(Seq<char>, Model)>, k: int)
    requires
        0 <= k <= entries.len(),
        eval_entries(entries.take(k), ctx) is Err,
    ensures
        eval_entries(entries, ctx) == eval_entries(entries.take(k), ctx),
    decreases entries.len() - k,
{
    if k < entries.len() {
        assert(entries.take(k + 1).drop_last() =~= entries.take(k));
        lemma_entries_error(entries, ctx, k + 1);
    } else {
        assert(entries.take(k) =~= entries);
    }
}

/// Whether an exec result carries the spec result.
pub open spec fn same_result(r: Result<Value, EvalError>, s: Result<Model, EvalError>) -> bool {
    match r {
        Ok(v) => s == Ok::<Model, EvalError>(v@),
        Err(e) => s == Err::<Model, EvalError>(e),
    }
}

/// Relies on format!: writing two strings with `{}{}` gives their characters
/// one after the other.
#[verifier::external_body]
pub(crate) fn joined(a: &str, b: &str) -> (r: String)
    ensures
        r@ == a@ + b@,
{
    format!("{}{}", a, b)
}

/// The value bound to a name in a list of entries (the last such entry), or
/// nothing.
pub fn find_entry(entries: &Vec<(String, Value)>, key: &String) -> (r: Value)
    ensures
        r@ == lookup(entry_models(entries@), key@),
{
    let ghost s = entry_models(entries@);
    proof {
        lemma_entry_models(entries@);
    }
    let mut i: usize = entries.len();
    assert(s.subrange(0, i as int) =~= s);
    while i > 0
        invariant
            i <= entries.len(),
            s == entry_models(entries@),
            s.len() == entries.len(),
            forall|j: int| 0 <= j < s.len() ==> #[trigger] s[j] == (entries@[j].0@, entries@[j].1@),
            lookup(s, key@) == lookup(s.subrange(0, i as int), key@),
        decreases i,
    {
        let ghost t = s.subrange(0, i as int);
        assert(t.drop_last() =~= s.subrange(0, i - 1));
        assert(t.last() == s[i - 1]);
        if entries[i - 1].0 == *key {
            let v = entries[i - 1].1.duplicate();
            assert(s[i - 1] == (entries@[i - 1].0@, entries@[i - 1].1@));
            assert(t.len() > 0 && t.last().0 == key@);
            assert(lookup(t, key@) == t.last().1);
            return v;
        }
        i = i - 1;
    }
    assert(s.subrange(0, 0) =~= Seq::<(Seq<char>, Model)>::empty());
    Value::Nothing
}

impl Value {
    /// One step of a path into the value.
    pub fn retrieve(&self, part: &Part) -> (r: Result<Value, EvalError>)
        ensures
            same_result(r, retrieve_of(self@, part@)),
    {
        match self {
            Value::Array(items) => {
                proof {
                    lemma_models(items@);
                }
                match part {
                    Part::All => Ok(self.duplicate()),
                    Part::Field(f) => {
                        let mut out: Vec<Value> = Vec::new();
                        let mut i: usize = 0;
                        while i < items.len()
                            invariant
                                i <= items.len(),
                                out@.len() == i,
                                forall|j: int|
                                    0 <= j < i ==> #[trigger] out@[j]@ == field_in(
                                        items@[j]@,
                                        f@,
                                    ),
                            decreases items.len() - i,
                        {
                            let v = match &items[i] {
                                Value::Object(o) => find_entry(o, &f.0),
                                _ => Value::Nothing,
                            };
                            out.push(v);
                            i = i + 1;
                        }
                        proof {
                            lemma_models(out@);
                            lemma_models(items@);
                            assert forall|j: int| 0 <= j < out@.len() implies models(out@)[j]
                                == field_in(models(items@)[j], f@) by {
                                assert(out@[j]@ == field_in(items@[j]@, f@));
                            }
                            assert(models(out@) =~= Seq::new(
                                models(items@).len(),
                                |i: int| field_in(models(items@)[i], f@),
                            ));
                        }
                        Ok(Value::Array(out))
                    },
                    Part::Index(i) => {
                        if 0 <= *i && (*i as u64) < (items.len() as u64) {
                            Ok(items[*i as usize].duplicate())
                        } else {
                            Ok(Value::Nothing)
                        }
                    },
                    Part::First => {
                        if items.len() > 0 {
                            Ok(items[0].duplicate())
                        } else {
                            Ok(Value::Nothing)
                        }
                    },
                    Part::Last => {
                        if items.len() > 0 {
                            Ok(items[items.len() - 1].duplicate())
                        } else {
                            Ok(Value::Nothing)
                        }
                    },
                }
            },
            Value::Object(o) => match part {
                Part::All => Ok(self.duplicate()),
                Part::Field(f) => Ok(find_entry(o, &f.0)),
                _ => Err(EvalError::FieldNotFound),
            },
            _ => Ok(Value::Nothing),
        }
    }

    /// The value reached by the steps of a path from `start` on.
    pub fn follow(self, parts: &Vec<Part>, start: usize) -> (r: Result<Value, EvalError>)
        requires
            start <= parts.len(),
        ensures
            same_result(r, follow_of(self@, crate::value::part_views(parts@).skip(start as int))),
    {
        let ghost all = crate::value::part_views(parts@);
        let mut cur = self;
        let mut i: usize = start;
        while i < parts.len()
            invariant
                start <= i <= parts.len(),
                all == crate::value::part_views(parts@),
                follow_of(cur@, all.skip(i as int)) == follow_of(self@, all.skip(start as int)),
            decreases parts.len() - i,
        {
            assert(all.skip(i as int)[0] == parts@[i as int]@);
            assert(all.skip(i as int).drop_first() =~= all.skip(i + 1));
            match cur.retrieve(&parts[i]) {
                Ok(w) => {
                    cur = w;
                },
                Err(e) => {
                    return Err(e);
                },
            }
            i = i + 1;
        }
        assert(all.skip(i as int).len() == 0);
        Ok(cur)
    }

    /// The value of this value as an expression, its paths read in the
    /// field map `ctx`.
    pub fn evaluate(&self, ctx: &Object) -> (r: Result<Value, EvalError>)
        ensures
            same_result(r, eval_of(self@, ctx@)),
        decreases self,
    {
        match self {
            Value::Idiom(idiom) => {
                let parts = &idiom.0;
                if parts.len() == 0 {
                    return Ok(Value::Nothing);
                }
                match &parts[0] {
                    Part::Field(f) => {
                        let first = find_entry(&ctx.0, &f.0);
                        assert(idiom@.drop_first() =~= idiom@.skip(1));
                        first.follow(parts, 1)
                    },
                    _ => Err(EvalError::InvalidIdiom),
                }
            },
            Value::Expression(e) => match &**e {
                Expression::Unary { op, expr } => {
                    let v = expr.evaluate(ctx)?;
                    match op {
                        Operator::Neg => v.try_neg(),
                        Operator::Not => v.try_not(),
                        _ => Err(EvalError::InvalidOperator(*op)),
                    }
                },
                Expression::Binary { left, op, right } => {
                    let l = left.evaluate(ctx)?;
                    let r = right.evaluate(ctx)?;
                    match op {
                        Operator::Or => Ok(Value::Bool(l.is_truthy() || r.is_truthy())),
                        Operator::And => Ok(Value::Bool(l.is_truthy() && r.is_truthy())),
                        Operator::Eq => Ok(Value::Bool(l.equal(&r))),
                        Operator::NtEq => Ok(Value::Bool(!l.equal(&r))),
                        Operator::Lt | Operator::Gt | Operator::LtEq | Operator::GtEq => {
                            match (less(&l, &r), less(&r, &l)) {
                                (Some(lt), Some(gt)) => Ok(
                                    Value::Bool(
                                        match op {
                                            Operator::Lt => lt,
                                            Operator::Gt => gt,
                                            Operator::LtEq => lt || l.equal(&r),
                                            _ => gt || l.equal(&r),
                                        },
                                    ),
                                ),
                                _ => Err(EvalError::InvalidComparison),
                            }
                        },
                        Operator::Add => l.try_add(r),
                        Operator::Sub => l.try_sub(r),
                        Operator::Mult => l.try_mul(r),
                        Operator::Div => l.try_div(r),
                        _ => Err(EvalError::InvalidOperator(*op)),
                    }
                },
            },
            Value::Array(items) => {
                let ghost ms = models(items@);
                proof {
                    lemma_models(items@);
                }
                let mut out: Vec<Value> = Vec::new();
                let mut k: usize = 0;
                assert(ms.take(0) =~= Seq::<Model>::empty());
                assert(models(out@) =~= Seq::<Model>::empty());
                while k < items.len()
                    invariant
                        *self == Value::Array(*items),
                        k <= items.len(),
                        ms == models(items@),
                        ms.len() == items@.len(),
                        forall|j: int| 0 <= j < ms.len() ==> #[trigger] ms[j] == items@[j]@,
                        out@.len() == k,
                        eval_items(ms.take(k as int), ctx@) == Ok::<Seq<Model>, EvalError>(models(out@)),
                    decreases items.len() - k,
                {
                    proof {
                        vstd::std_specs::vec::axiom_vec_index_decreases(*items, k as int);
                        assert(decreases_to!(*self => self->Array_0));
                        assert(decreases_to!(*items => items[k as int]));
                        assert(ms.take(k + 1).drop_last() =~= ms.take(k as int));
                        assert(ms.take(k + 1).last() == items@[k as int]@);
                    }
                    match items[k].evaluate(ctx) {
                        Ok(v) => {
                            let ghost before = out@;
                            out.push(v);
                            proof {
                                assert(out@.drop_last() =~= before);
                                assert(models(out@) == models(before).push(out@[k as int]@));
                            }
                        },
                        Err(x) => {
                            proof {
                                lemma_items_error(ms, ctx@, k + 1);
                            }
                            return Err(x);
                        },
                    }
                    k = k + 1;
                }
                assert(ms.take(ms.len() as int) =~= ms);
                Ok(Value::Array(out))
            },
            Value::Object(entries) => {
                let ghost es = entry_models(entries@);
                proof {
                    lemma_entry_models(entries@);
                }
                let mut out: Vec<(String, Value)> = Vec::new();
                let mut k: usize = 0;
                assert(es.take(0) =~= Seq::<(Seq<char>, Model)>::empty());
                assert(entry_models(out@) =~= Seq::<(Seq<char>, Model)>::empty());
                while k < entries.len()
                    invariant
                        *self == Value::Object(*entries),
                        k <= entries.len(),
                        es == entry_models(entries@),
                        es.len() == entries@.len(),
                        forall|j: int| 0 <= j < es.len() ==> #[trigger] es[j] == (entries@[j].0@, entries@[j].1@),
                        out@.len() == k,
                        eval_entries(es.take(k as int), ctx@) == Ok::<Seq<(Seq<char>, Model)>, EvalError>(entry_models(out@)),
                    decreases entries.len() - k,
                {
                    proof {
                        vstd::std_specs::vec::axiom_vec_index_decreases(*entries, k as int);
                        assert(decreases_to!(*self => self->Object_0));
                        assert(decreases_to!(*entries => entries[k as int]));
                        assert(decreases_to!(entries[k as int] => entries[k as int].1));
                        assert(es.take(k + 1).drop_last() =~= es.take(k as int));
                        assert(es.take(k + 1).last() == (entries@[k as int].0@, entries@[k as int].1@));
                    }
                    match entries[k].1.evaluate(ctx) {
                        Ok(v) => {
                            let ghost before = out@;
                            out.push((entries[k].0.clone(), v));
                            proof {
                                assert(out@.drop_last() =~= before);
                                assert(entry_models(out@) == entry_models(before).push((out@[k as int].0@, out@[k as int].1@)));
                            }
                        },
                        Err(x) => {
                            proof {
                                lemma_entries_error(es, ctx@, k + 1);
                            }
                            return Err(x);
                        },
                    }
                    k = k + 1;
                }
                assert(es.take(es.len() as int) =~= es);
                Ok(Value::Object(out))
            },
            _ => Ok(self.duplicate()),
        }
    }

    /// Negation of a number.
    pub fn try_neg(self) -> (r: Result<Value, EvalError>)
        ensures
            same_result(r, neg_of(self@)),
    {
        match self {
            Value::Number(n) => if n == i64::MIN {
                Err(EvalError::InvalidNegative)
            } else {
                Ok(Value::Number(-n))
            },
            _ => Err(EvalError::InvalidNegative),
        }
    }

    /// Logical negation of the value's truth.
    pub fn try_not(self) -> (r: Result<Value, EvalError>)
        ensures
            same_result(r, unary_of(Operator::Not, self@)),
    {
        Ok(Value::Bool(!self.is_truthy()))
    }

    pub fn try_add(self, right: Value) -> (r: Result<Value, EvalError>)
        ensures
            same_result(r, add_of(self@, right@)),
    {
        match (self, right) {
            (Value::Number(a), Value::Number(b)) => match a.checked_add(b) {
                Some(c) => Ok(Value::Number(c)),
                None => Err(EvalError::Overflow),
            },
            (Value::String(a), Value::String(b)) => Ok(
                Value::String(Strand(joined(a.0.as_str(), b.0.as_str()))),
            ),
            _ => Err(EvalError::TryAdd),
        }
    }

    pub fn try_sub(self, right: Value) -> (r: Result<Value, EvalError>)
        ensures
            same_result(r, sub_of(self@, right@)),
    {
        match (self, right) {
            (Value::Number(a), Value::Number(b)) => match a.checked_sub(b) {
                Some(c) => Ok(Value::Number(c)),
                None => Err(EvalError::Overflow),
            },
            _ => Err(EvalError::TrySub),
        }
    }

    pub fn try_mul(self, right: Value) -> (r: Result<Value, EvalError>)
        ensures
            same_result(r, mul_of(self@, right@)),
    {
        match (self, right) {
            (Value::Number(a), Value::Number(b)) => match a.checked_mul(b) {
                Some(c) => Ok(Value::Number(c)),
                None => Err(EvalError::Overflow),
            },
            _ => Err(EvalError::TryMul),
        }
    }

    pub fn try_div(self, right: Value) -> (r: Result<Value, EvalError>)
        ensures
            same_result(r, div_of(self@, right@)),
    {
        match (self, right) {
            (Value::Number(a), Value::Number(b)) => {
                if b == 0 {
                    return Err(EvalError::DivisionByZero);
                }
                match a.checked_div(b) {
                    Some(c) => Ok(Value::Number(c)),
                    None => Err(EvalError::Overflow),
                }
            },
            _ => Err(EvalError::TryDiv),
        }
    }
}

} // verus!
