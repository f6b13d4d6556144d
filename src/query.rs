//! Projections, filters and path steps of queries.
use vstd::prelude::*;
use crate::error::EvalError;
use crate::eval::eval_of;
use crate::names::{Direction, Strand};
use crate::object::{Object, as_map, lookup, lemma_lookup_push, has_key};
use crate::value::{Model, Value, lemma_entry_models};

verus! {

/// One requested field of a projection.
#[derive(Debug, PartialEq, Eq, Hash)]
pub enum Field {
    /// Every field of the entity.
    WildCard,
    /// The value of an expression, under the alias when there is one.
    Single { expr: Value, alias: Option<String> },
}

/// The mathematical value of a [`Field`].
pub enum FieldView {
    WildCard,
    Single(Model, Option<Seq<char>>),
}

impl Field {
    pub open spec fn view(&self) -> FieldView {
        match self {
            Field::WildCard => FieldView::WildCard,
            Field::Single { expr, alias } => FieldView::Single(
                expr@,
                match alias {
                    Some(a) => Some(a@),
                    None => None,
                },
            ),
        }
    }

    pub fn new(expr: Value) -> (r: Field)
        ensures
            r@ == FieldView::Single(expr@, None),
    {
        Field::Single { expr, alias: None }
    }

    pub fn new_alias(expr: Value, alias: String) -> (r: Field)
        ensures
            r@ == FieldView::Single(expr@, Some(alias@)),
    {
        Field::Single { expr, alias: Some(alias) }
    }

    pub fn duplicate(&self) -> (r: Field)
        ensures
            r@ == self@,
    {
        match self {
            Field::WildCard => Field::WildCard,
            Field::Single { expr, alias } => Field::Single {
                expr: expr.duplicate(),
                alias: match alias {
                    Some(a) => Some(a.clone()),
                    None => None,
                },
            },
        }
    }
}

/// The fields that a query asks for.
#[derive(Debug, PartialEq, Eq, Hash)]
pub struct Fields(pub Vec<Field>);

impl Fields {
    pub open spec fn view(&self) -> Seq<FieldView> {
        Seq::new(self.0@.len(), |i: int| self.0@[i]@)
    }

    pub fn duplicate(&self) -> (r: Fields)
        ensures
            r@ == self@,
    {
        let mut out: Vec<Field> = Vec::new();
        let mut i: usize = 0;
        while i < self.0.len()
            invariant
                i <= self.0.len(),
                out@.len() == i,
                forall|j: int| 0 <= j < i ==> #[trigger] out@[j]@ == self.0@[j]@,
            decreases self.0.len() - i,
        {
            out.push(self.0[i].duplicate());
            i = i + 1;
        }
        let r = Fields(out);
        assert(r@ =~= self@);
        r
    }
}

/// The name under which a field is projected: its alias, else the text of
/// its expression.
pub open spec fn field_key(expr: Model, alias: Option<Seq<char>>) -> Seq<char> {
    match alias {
        Some(a) => a,
        None => crate::text::text_of(expr),
    }
}

/// The map that a projection of the fields `ctx` gives, or the first error
/// met while evaluating its expressions.
pub open spec fn project_of(fields: Seq<FieldView>, ctx: Seq<(Seq<char>, Model)>) -> Result<
    Map<Seq<char>, Model>,
    EvalError,
>
    decreases fields.len(),
{
    if fields.len() == 0 {
        Ok(Map::empty())
    } else {
        match project_of(fields.drop_last(), ctx) {
            Ok(m) => match fields.last() {
                FieldView::WildCard => Ok(m.union_prefer_right(as_map(ctx))),
                FieldView::Single(e, a) => match eval_of(e, ctx) {
                    Ok(v) => Ok(m.insert(field_key(e, a), v)),
                    Err(x) => Err(x),
                },
            },
            Err(x) => Err(x),
        }
    }
}

/// An error met in a prefix of the fields is the error of the whole projection.
pub proof fn lemma_project_error(fields: Seq<FieldView>, ctx: Seq<(Seq<char>, Model)>, k: int)
    requires
        0 <= k <= fields.len(),
        project_of(fields.take(k), ctx) is Err,
    ensures
        project_of(fields, ctx) == project_of(fields.take(k), ctx),
    decreases fields.len() - k,
{
    if k < fields.len() {
        assert(fields.take(k + 1).drop_last() =~= fields.take(k));
        lemma_project_error(fields, ctx, k + 1);
    } else {
        assert(fields.take(k) =~= fields);
    }
}

/// Whether a filter lets an entity with the fields `ctx` through: no filter,
/// or one that evaluates to a true value. An evaluation error is returned.
pub open spec fn admits(filter: Option<Model>, ctx: Seq<(Seq<char>, Model)>) -> Result<bool, EvalError> {
    match filter {
        None => Ok(true),
        Some(f) => match eval_of(f, ctx) {
            Ok(v) => Ok(crate::value::truthy(v)),
            Err(x) => Err(x),
        },
    }
}

pub open spec fn filter_view(filter: &Option<Value>) -> Option<Model> {
    match filter {
        Some(f) => Some(f@),
        None => None,
    }
}

/// Evaluates a filter against a field map.
pub fn check_filter(filter: &Option<Value>, ctx: &Object) -> (r: Result<bool, EvalError>)
    ensures
        r == admits(filter_view(filter), ctx@),
{
    match filter {
        None => Ok(true),
        Some(f) => {
            let v = f.evaluate(ctx)?;
            Ok(v.is_truthy())
        },
    }
}

/// Projects the fields `ctx` of an entity as the fields ask.
pub fn project(fields: &Fields, ctx: &Object) -> (r: Result<Object, EvalError>)
    requires
        ctx.wf(),
    ensures
        match r {
            Ok(o) => o.wf() && project_of(fields@, ctx@) == Ok::<Map<Seq<char>, Model>, EvalError>(
                o.fields(),
            ),
            Err(e) => project_of(fields@, ctx@) == Err::<Map<Seq<char>, Model>, EvalError>(e),
        },
{
    let mut out = Object::new();
    let mut i: usize = 0;
    proof {
        lemma_entry_models(ctx.0@);
    }
    while i < fields.0.len()
        invariant
            ctx.wf(),
            out.wf(),
            i <= fields.0.len(),
            ctx@.len() == ctx.0@.len(),
            forall|j: int| 0 <= j < ctx@.len() ==> #[trigger] ctx@[j] == (ctx.0@[j].0@, ctx.0@[j].1@),
            project_of(fields@.take(i as int), ctx@) == Ok::<Map<Seq<char>, Model>, EvalError>(
                out.fields(),
            ),
        decreases fields.0.len() - i,
    {
        let ghost before = out.fields();
        assert(fields@.take(i + 1).drop_last() =~= fields@.take(i as int));
        assert(fields@.take(i + 1).last() == fields.0@[i as int]@);
        match &fields.0[i] {
            Field::WildCard => {
                let mut j: usize = 0;
                while j < ctx.0.len()
                    invariant
                        ctx.wf(),
                        out.wf(),
                        j <= ctx.0.len(),
                        ctx@.len() == ctx.0@.len(),
                        forall|k: int| 0 <= k < ctx@.len() ==> #[trigger] ctx@[k] == (ctx.0@[k].0@, ctx.0@[k].1@),
                        out.fields() == before.union_prefer_right(as_map(ctx@.take(j as int))),
                    decreases ctx.0.len() - j,
                {
                    let ghost t = ctx@.take(j as int);
                    assert(ctx@.take(j + 1) =~= t.push(ctx@[j as int]));
                    proof {
                        assert forall|kk: Seq<char>| #[trigger] has_key(t.push(ctx@[j as int]), kk) == (kk == ctx@[j as int].0 || has_key(t, kk)) && lookup(t.push(ctx@[j as int]), kk) == (if kk == ctx@[j as int].0 { ctx@[j as int].1 } else { lookup(t, kk) }) by {
                            lemma_lookup_push(t, ctx@[j as int], kk);
                        }
                        assert(as_map(t.push(ctx@[j as int])) =~= as_map(t).insert(ctx@[j as int].0, ctx@[j as int].1));
                    }
                    out.insert(ctx.0[j].0.clone(), ctx.0[j].1.duplicate());
                    assert(out.fields() =~= before.union_prefer_right(as_map(ctx@.take(j + 1))));
                    j = j + 1;
                }
                assert(ctx@.take(ctx@.len() as int) =~= ctx@);
            },
            Field::Single { expr, alias } => {
                let v = match expr.evaluate(ctx) {
                    Ok(v) => v,
                    Err(e) => {
                        proof {
                            lemma_project_error(fields@, ctx@, i + 1);
                        }
                        return Err(e);
                    },
                };
                let key = match alias {
                    Some(a) => a.clone(),
                    None => expr.to_text(),
                };
                out.insert(key, v);
            },
        }
        i = i + 1;
    }
    assert(fields@.take(fields@.len() as int) =~= fields@);
    Ok(out)
}

/// One hop of a walk: a direction, the table of the entities to reach, and a
/// filter that the hop must pass.
#[derive(Debug, PartialEq, Eq, Hash)]
pub struct Step {
    pub dir: Direction,
    pub to: Strand,
    pub filter: Option<Value>,
}

impl Step {
    pub fn new(dir: Direction, to: Strand, filter: Option<Value>) -> (r: Step)
        ensures
            r.dir == dir,
            r.to@ == to@,
            filter_view(&r.filter) == filter_view(&filter),
    {
        Step { dir, to, filter }
    }
}

} // verus!
