//! Select queries: their targets are ingested as iterables, each iterable is
//! processed into values, and the values are flattened and windowed.
use vstd::prelude::*;
use crate::entity::{bind_all, insert_all};
use crate::error::{Error, EvalError};
use crate::graph::Graph;
use crate::ids::{Record, RecordView};
use crate::names::Direction;
use crate::names::Strand;
use crate::object::{Object, as_map, unique_keys};
use crate::query::{Field, FieldView, Fields, Step, admits, filter_view, project, project_of};
use crate::value::{Edge, Idiom, Model, Part, Value, entry_models, lemma_entry_models, lemma_models, models};
use crate::walk::{maps_of, step_views, walk_of};

verus! {

/// The values of a sequence with the items of each list among them spliced
/// in its place (one level).
pub open spec fn flatten_of(s: Seq<Model>) -> Seq<Model>
    decreases s.len(),
{
    if s.len() == 0 {
        Seq::empty()
    } else {
        flatten_of(s.drop_last()) + match s.last() {
            Model::Array(items) => items,
            m => seq![m],
        }
    }
}

/// The values left after skipping `start` of them, then keeping at most
/// `limit`.
pub open spec fn window_of(s: Seq<Model>, start: Option<usize>, limit: Option<usize>) -> Seq<Model> {
    let t = match start {
        Some(i) => if i <= s.len() {
            s.skip(i as int)
        } else {
            Seq::empty()
        },
        None => s,
    };
    match limit {
        Some(n) => if n <= t.len() {
            t.take(n as int)
        } else {
            t
        },
        None => t,
    }
}

/// Whether `v` holds an object whose fields are the map `m`.
pub open spec fn object_with(v: Model, m: Map<Seq<char>, Model>) -> bool {
    match v {
        Model::Object(entries) => unique_keys(entries) && as_map(entries) == m,
        _ => false,
    }
}

/// Whether `r` is what a get on the entity at `h` gives in a select: nothing
/// when the entity is gone or the filter rejects it, else an object of the
/// projection; or the evaluation error.
pub open spec fn got(g: Graph, h: int, fields: Seq<FieldView>, filter: Option<Model>, r: Result<Value, Error>) -> bool {
    if !g.live(h) {
        r is Ok && r->Ok_0 is Nothing
    } else {
        match admits(filter, g.ent(h).fields@) {
            Err(x) => r == Err::<Value, Error>(Error::Evaluation(x)),
            Ok(false) => r is Ok && r->Ok_0 is Nothing,
            Ok(true) => match project_of(fields, g.ent(h).fields@) {
                Err(x) => r == Err::<Value, Error>(Error::Evaluation(x)),
                Ok(m) => r is Ok && object_with(r->Ok_0@, m),
            },
        }
    }
}

pub open spec fn get_fails(g: Graph, h: int, fields: Seq<FieldView>, filter: Option<Model>) -> bool {
    g.live(h) && match admits(filter, g.ent(h).fields@) {
        Err(_) => true,
        Ok(false) => false,
        Ok(true) => project_of(fields, g.ent(h).fields@) is Err,
    }
}

/// The fields that a literal value offers to a projection: those of the
/// object it is, bound one after the other, or none.
pub open spec fn literal_map(v: Model) -> Map<Seq<char>, Model> {
    match v {
        Model::Object(entries) => insert_all(Map::empty(), entries),
        _ => Map::empty(),
    }
}

/// The field list asking for the `id` field.
pub open spec fn id_fields() -> Seq<FieldView> {
    seq![FieldView::Single(Model::Idiom(seq![crate::value::PartView::Field(seq!['i', 'd'])]), None)]
}

/// A unit of a select's targets.
#[derive(Debug)]
pub enum Iterable {
    /// A literal value.
    Value(Value),
    /// An edge pattern, expanded by a one-step walk.
    Edge(Edge),
    /// One entity, by handle.
    Record(usize),
    /// The entities of a table, by handle.
    Table(Vec<usize>),
}

/// Whether `r` is what processing a table's snapshot `hs` gives: the list
/// of the gets of its entities, in order, or the error of the first get
/// that fails.
pub open spec fn table_processed(g: Graph, hs: Seq<usize>, fields: Seq<FieldView>, filter: Option<Model>, r: Result<Value, Error>) -> bool {
    &&& (forall|i: int| 0 <= i < hs.len() ==> !get_fails(g, #[trigger] hs[i] as int, fields, filter)) ==> r is Ok
    &&& match r {
        Ok(v) => match v {
            Value::Array(items) => items@.len() == hs.len() && forall|i: int|
                0 <= i < hs.len() ==> #[trigger] got(g, hs[i] as int, fields, filter, Ok(items@[i])),
            _ => false,
        },
        Err(e) => exists|i: int|
            0 <= i < hs.len() && #[trigger] got(g, hs[i] as int, fields, filter, Err(e)) && forall|j: int|
                0 <= j < i ==> !get_fails(g, #[trigger] hs[j] as int, fields, filter),
    }
}

/// The mathematical value of an [`Iterable`].
pub enum IterableView {
    Value(Model),
    Edge(Direction, RecordView, Seq<char>),
    Record(usize),
    Table(Seq<usize>),
}

impl Iterable {
    pub open spec fn view(&self) -> IterableView {
        match self {
            Iterable::Value(v) => IterableView::Value(v@),
            Iterable::Edge(e) => IterableView::Edge(e.dir, e.from@, e.to@),
            Iterable::Record(h) => IterableView::Record(*h),
            Iterable::Table(hs) => IterableView::Table(hs@),
        }
    }
}

pub open spec fn iterable_views(s: Seq<Iterable>) -> Seq<IterableView> {
    Seq::new(s.len(), |i: int| s[i]@)
}

/// Whether `r` is what processing the iterable gives.
pub open spec fn processed(g: Graph, it: IterableView, fields: Seq<FieldView>, filter: Option<Model>, r: Result<Value, Error>) -> bool {
    match it {
        IterableView::Record(h) => got(g, h as int, fields, filter, r),
        IterableView::Table(hs) => table_processed(g, hs, fields, filter, r),
        IterableView::Edge(dir, from, to) => {
            if !g.id_taken(from) {
                r is Ok && r->Ok_0 is Nothing
            } else {
                let h = choose|h: int| g.live(h) && #[trigger] g.ent(h).id@ == from;
                let path = seq![crate::walk::StepView { dir: dir, to: to, filter: None }];
                let w = walk_of(g, h, path, 0, from, id_fields());
                match r {
                    Ok(v) => match (v@, w) {
                        (Model::Array(items), Ok(ms)) => items.len() == ms.len() && forall|i: int|
                            0 <= i < ms.len() ==> #[trigger] object_with(items[i], ms[i]),
                        _ => false,
                    },
                    Err(Error::Evaluation(x)) => w == Err::<Seq<Map<Seq<char>, Model>>, EvalError>(x),
                    Err(_) => false,
                }
            }
        },
        IterableView::Value(v) => exists|ctx: Object| {
            &&& #[trigger] ctx.wf()
            &&& ctx.fields() == literal_map(v)
            &&& match (r, literal_project_of(fields, v, ctx@)) {
                (Ok(o), Ok(m)) => object_with(o@, m),
                (Err(Error::Evaluation(x)), Err(y)) => x == y,
                _ => false,
            }
        },
    }
}

/// The handle of the live entity with the record (one exists, and in a well
/// formed graph only one).
pub open spec fn handle_of_record(g: Graph, r: RecordView) -> int {
    choose|h: int| g.live(h) && #[trigger] g.ent(h).id@ == r
}

/// The position of the table of the name (in a well formed graph the only
/// one).
pub open spec fn position_of_table(g: Graph, name: Seq<char>) -> int {
    choose|t: int| 0 <= t < g.tables@.len() && #[trigger] g.tables@[t].name@ == name
}

/// The handles of the rows of the table at `t`, in order.
pub open spec fn row_handles_of(g: Graph, t: int) -> Seq<usize> {
    Seq::new(g.tables@[t].rows@.len(), |i: int| g.tables@[t].rows@[i].1)
}

/// What a target of a select adds to its iterables: a record of a live
/// entity adds that entity; a defined table adds a snapshot of its live
/// entities; an edge pattern adds itself; a list adds what its items add, in
/// order; any other value adds itself as a literal. A record of no live
/// entity and a name of no table add nothing.
pub open spec fn ingest_of(g: Graph, m: Model) -> Seq<IterableView>
    decreases m,
{
    match m {
        Model::Record(r) => if g.id_taken(r) {
            seq![IterableView::Record(handle_of_record(g, r) as usize)]
        } else {
            Seq::empty()
        },
        Model::Table(name) => if g.table_named(name) {
            seq![IterableView::Table(crate::graph::live_only(g, row_handles_of(g, position_of_table(g, name))))]
        } else {
            Seq::empty()
        },
        Model::Edge(dir, from, to) => seq![IterableView::Edge(dir, from, to)],
        Model::Array(items) => ingest_all(g, items),
        _ => seq![IterableView::Value(m)],
    }
}

pub open spec fn ingest_all(g: Graph, items: Seq<Model>) -> Seq<IterableView>
    decreases items,
{
    if items.len() == 0 {
        Seq::empty()
    } else {
        ingest_all(g, items.drop_last()) + ingest_of(g, items.last())
    }
}

/// The iterables of a select's targets, each evaluated first (with no fields
/// to read), or the first evaluation error.
pub open spec fn targets_of(g: Graph, what: Seq<Model>) -> Result<Seq<IterableView>, EvalError>
    decreases what.len(),
{
    if what.len() == 0 {
        Ok(Seq::empty())
    } else {
        match targets_of(g, what.drop_last()) {
            Err(x) => Err(x),
            Ok(its) => match crate::eval::eval_of(what.last(), Seq::empty()) {
                Err(x) => Err(x),
                Ok(v) => Ok(its + ingest_of(g, v)),
            },
        }
    }
}

pub proof fn lemma_targets_error(g: Graph, what: Seq<Model>, k: int)
    requires
        0 <= k <= what.len(),
        targets_of(g, what.take(k)) is Err,
    ensures
        targets_of(g, what) == targets_of(g, what.take(k)),
    decreases what.len() - k,
{
    if k < what.len() {
        assert(what.take(k + 1).drop_last() =~= what.take(k));
        lemma_targets_error(g, what, k + 1);
    } else {
        assert(what.take(k) =~= what);
    }
}

/// A select statement: the fields to project, the targets, a filter, and the
/// window of results.
#[derive(Debug)]
pub struct Select {
    pub fields: Fields,
    pub what: Vec<Value>,
    pub conditions: Option<Value>,
    pub limit: Option<usize>,
    pub start: Option<usize>,
}

/// Copies of values.
fn copy_values(s: &Vec<Value>) -> (r: Vec<Value>)
    ensures
        models(r@) == models(s@),
{
    let mut out: Vec<Value> = Vec::new();
    let mut i: usize = 0;
    while i < s.len()
        invariant
            i <= s.len(),
            out@.len() == i,
            forall|j: int| 0 <= j < i ==> #[trigger] out@[j]@ == s@[j]@,
        decreases s.len() - i,
    {
        out.push(s[i].duplicate());
        i = i + 1;
    }
    proof {
        lemma_models(out@);
        lemma_models(s@);
        assert forall|j: int| 0 <= j < out@.len() implies models(out@)[j] == models(s@)[j] by {
            assert(out@[j]@ == s@[j]@);
        }
        assert(models(out@) =~= models(s@));
    }
    out
}

/// The values with the items of each list among them spliced in its place.
pub fn flatten(values: &Vec<Value>) -> (r: Vec<Value>)
    ensures
        models(r@) == flatten_of(models(values@)),
{
    let mut out: Vec<Value> = Vec::new();
    let mut i: usize = 0;
    proof {
        lemma_models(values@);
    }
    while i < values.len()
        invariant
            i <= values.len(),
            models(values@).len() == values@.len(),
            forall|j: int| 0 <= j < values@.len() ==> #[trigger] models(values@)[j] == values@[j]@,
            models(out@) == flatten_of(models(values@).take(i as int)),
        decreases values.len() - i,
    {
        let ghost ms = models(values@);
        assert(ms.take(i + 1).drop_last() =~= ms.take(i as int));
        assert(ms.take(i + 1).last() == values@[i as int]@);
        let ghost before = out@;
        match &values[i] {
            Value::Array(items) => {
                let mut j: usize = 0;
                proof {
                    lemma_models(items@);
                    lemma_models(before);
                }
                while j < items.len()
                    invariant
                        j <= items.len(),
                        out@.len() == before.len() + j,
                        forall|k: int| 0 <= k < before.len() ==> #[trigger] out@[k] == before[k],
                        forall|k: int| 0 <= k < j ==> #[trigger] out@[before.len() + k]@ == items@[k]@,
                    decreases items.len() - j,
                {
                    out.push(items[j].duplicate());
                    j = j + 1;
                }
                proof {
                    lemma_models(out@);
                    lemma_models(items@);
                    lemma_models(before);
                    assert forall|k: int| 0 <= k < out@.len() implies models(out@)[k] == (models(before) + models(items@))[k] by {
                        if k < before.len() {
                            assert(out@[k] == before[k]);
                        } else {
                            assert(out@[before.len() + (k - before.len())]@ == items@[k - before.len()]@);
                        }
                    }
                    assert(models(out@) =~= models(before) + models(items@));
                }
            },
            v => {
                out.push(v.duplicate());
                proof {
                    lemma_models(out@);
                    lemma_models(before);
                    assert(models(out@) =~= models(before) + seq![v@]);
                }
            },
        }
        i = i + 1;
    }
    assert(models(values@).take(values@.len() as int) =~= models(values@));
    out
}

/// The values left after skipping `start` of them, then keeping at most
/// `limit`.
pub fn window(values: &Vec<Value>, start: Option<usize>, limit: Option<usize>) -> (r: Vec<Value>)
    ensures
        models(r@) == window_of(models(values@), start, limit),
{
    proof {
        lemma_models(values@);
    }
    let from: usize = match start {
        Some(i) => if i <= values.len() {
            i
        } else {
            values.len()
        },
        None => 0,
    };
    let rest = values.len() - from;
    let count: usize = match limit {
        Some(n) => if n <= rest {
            n
        } else {
            rest
        },
        None => rest,
    };
    let mut out: Vec<Value> = Vec::new();
    let mut i: usize = 0;
    while i < count
        invariant
            i <= count,
            from + count <= values.len(),
            out@.len() == i,
            forall|j: int| 0 <= j < i ==> #[trigger] out@[j]@ == values@[from + j]@,
        decreases count - i,
    {
        out.push(values[from + i].duplicate());
        i = i + 1;
    }
    proof {
        lemma_models(out@);
        lemma_models(values@);
        assert forall|j: int| 0 <= j < out@.len() implies models(out@)[j] == models(values@)[from + j] by {
            assert(out@[j]@ == values@[from + j]@);
        }
        assert(models(out@) =~= window_of(models(values@), start, limit));
    }
    out
}

/// What a get on the entity at `h` gives in a select.
fn get_value(g: &Graph, h: usize, fields: &Fields, filter: &Option<Value>) -> (r: Result<Value, Error>)
    requires
        g.wf(),
    ensures
        got(*g, h as int, fields@, filter_view(filter), r),
{
    if h >= g.entities.len() {
        return Ok(Value::Nothing);
    }
    match &g.entities[h] {
        Some(e) => {
            assert(g.live(h as int));
            match e.get(fields, filter) {
                Ok(Some(o)) => Ok(Value::Object(o.0)),
                Ok(None) => Ok(Value::Nothing),
                Err(x) => Err(Error::Evaluation(x)),
            }
        },
        None => Ok(Value::Nothing),
    }
}

/// The field list asking for the `id` field.
pub fn id_field_list() -> (r: Fields)
    ensures
        r@ == id_fields(),
{
    proof {
        reveal_strlit("id");
    }
    let mut parts: Vec<Part> = Vec::new();
    let key = "id".to_owned();
    assert(key@ == seq!['i', 'd']);
    parts.push(Part::Field(crate::names::Ident(key)));
    let idiom = Idiom(parts);
    assert(idiom@ =~= seq![crate::value::PartView::Field(seq!['i', 'd'])]);
    let f = Field::Single { expr: Value::Idiom(idiom), alias: None };
    let mut list: Vec<Field> = Vec::new();
    list.push(f);
    let r = Fields(list);
    assert(r@ =~= id_fields());
    r
}

impl Iterable {
    /// The value that the iterable gives: for a record, the get of the
    /// entity; for a table, the list of the gets of its entities; for an
    /// edge pattern, the list of the `id` projections that a one-step walk
    /// from its origin reaches; for a literal, the projection of its fields.
    pub fn process(&self, g: &Graph, stm: &Select) -> (r: Result<Value, Error>)
        requires
            g.wf(),
        ensures
            processed(*g, self@, stm.fields@, filter_view(&stm.conditions), r),
    {
        match self {
            Iterable::Record(h) => get_value(g, *h, &stm.fields, &stm.conditions),
            Iterable::Table(hs) => {
                let mut items: Vec<Value> = Vec::new();
                let mut i: usize = 0;
                while i < hs.len()
                    invariant
                        g.wf(),
                        *self == Iterable::Table(*hs),
                        i <= hs.len(),
                        items@.len() == i,
                        forall|j: int| 0 <= j < i ==> #[trigger] got(*g, hs@[j] as int, stm.fields@, filter_view(&stm.conditions), Ok(items@[j])),
                        forall|j: int| 0 <= j < i ==> !get_fails(*g, hs@[j] as int, stm.fields@, filter_view(&stm.conditions)),
                    decreases hs.len() - i,
                {
                    match get_value(g, hs[i], &stm.fields, &stm.conditions) {
                        Ok(v) => {
                            items.push(v);
                        },
                        Err(e) => {
                            assert(got(*g, hs@[i as int] as int, stm.fields@, filter_view(&stm.conditions), Err(e)));
                            assert(get_fails(*g, hs@[i as int] as int, stm.fields@, filter_view(&stm.conditions)));
                            assert(!(forall|j: int| 0 <= j < hs@.len() ==> !get_fails(*g, hs@[j] as int, stm.fields@, filter_view(&stm.conditions))));
                            assert(exists|j: int| 0 <= j < hs@.len() && #[trigger] got(*g, hs@[j] as int, stm.fields@, filter_view(&stm.conditions), Err(e)));
                            assert((forall|j: int| 0 <= j < hs@.len() ==> !get_fails(*g, hs@[j] as int, stm.fields@, filter_view(&stm.conditions))) ==> false);
                            assert(table_processed(*g, hs@, stm.fields@, filter_view(&stm.conditions), Err(e)));
                            return Err(e);
                        },
                    }
                    i = i + 1;
                }
                Ok(Value::Array(items))
            },
            Iterable::Edge(e) => {
                match g.retrieve_record(&e.from) {
                    None => Ok(Value::Nothing),
                    Some(h) => {
                        let path = vec![Step { dir: e.dir, to: Strand(e.to.0.clone()), filter: None }];
                        let fields = id_field_list();
                        proof {
                            let c = choose|c: int| g.live(c) && #[trigger] g.ent(c).id@ == e.from@;
                            assert(g.live(h as int) && g.live(c));
                            assert(c == h);
                            assert(step_views(path@) =~= seq![crate::walk::StepView { dir: e.dir, to: e.to@, filter: None }]);
                        }
                        match g.walk(h, &path, &fields) {
                            Ok(objs) => {
                                let mut items: Vec<Value> = Vec::new();
                                let mut i: usize = 0;
                                while i < objs.len()
                                    invariant
                                        i <= objs.len(),
                                        items@.len() == i,
                                        forall|j: int| 0 <= j < objs@.len() ==> #[trigger] objs@[j].wf(),
                                        forall|j: int| 0 <= j < i ==> #[trigger] items@[j]@ == Model::Object(objs@[j]@),
                                    decreases objs.len() - i,
                                {
                                    items.push(Value::Object(objs[i].duplicate().0));
                                    i = i + 1;
                                }
                                proof {
                                    lemma_models(items@);
                                    assert forall|j: int| 0 <= j < items@.len() implies #[trigger] object_with(models(items@)[j], maps_of(objs@)[j]) by {
                                        assert(items@[j]@ == Model::Object(objs@[j]@));
                                        assert(objs@[j].wf());
                                    }
                                }
                                Ok(Value::Array(items))
                            },
                            Err(x) => Err(x),
                        }
                    },
                }
            },
            Iterable::Value(v) => {
                let ctx = literal_fields(v);
                match project_literal(&stm.fields, v, &ctx) {
                    Ok(o) => Ok(Value::Object(o.0)),
                    Err(x) => Err(Error::Evaluation(x)),
                }
            },
        }
    }
}

/// Whether `outs` are the values that the iterables `its` give, in order.
pub open spec fn processed_all(
    g: Graph,
    its: Seq<IterableView>,
    outs: Seq<Value>,
    fields: Seq<FieldView>,
    filter: Option<Model>,
) -> bool {
    &&& outs.len() == its.len()
    &&& forall|j: int| 0 <= j < its.len() ==> #[trigger] processed(g, its[j], fields, filter, Ok(outs[j]))
}

/// The outcome of processing the iterables `its` in order, then flattening
/// and windowing: the window of the flattened values of the results, each
/// what its iterable gives; or the error of the first iterable that fails,
/// all before it having given values.
pub open spec fn iterated(
    g: Graph,
    its: Seq<IterableView>,
    fields: Seq<FieldView>,
    filter: Option<Model>,
    start: Option<usize>,
    limit: Option<usize>,
    r: Result<Vec<Value>, Error>,
) -> bool {
    match r {
        Ok(v) => exists|outs: Seq<Value>| {
            &&& outs.len() == its.len()
            &&& forall|i: int| 0 <= i < its.len() ==> #[trigger] processed(g, its[i], fields, filter, Ok(outs[i]))
            &&& #[trigger] models(v@) == window_of(flatten_of(models(outs)), start, limit)
        },
        Err(e) => exists|i: int, outs: Seq<Value>| {
            &&& 0 <= i < its.len()
            &&& #[trigger] processed_all(g, its.take(i), outs, fields, filter)
            &&& processed(g, its[i], fields, filter, Err(e))
        },
    }
}

/// The targets of a select, ingested as iterables, and its window.
#[derive(Debug)]
pub struct Iterator {
    pub limit: Option<usize>,
    pub start: Option<usize>,
    pub entries: Vec<Iterable>,
}

impl Iterator {
    pub fn new() -> (r: Iterator)
        ensures
            r.entries@.len() == 0,
            r.limit is None,
            r.start is None,
    {
        Iterator { limit: None, start: None, entries: Vec::new() }
    }

    pub fn ingest(&mut self, value: Iterable)
        ensures
            final(self).entries@ == old(self).entries@.push(value),
            iterable_views(final(self).entries@) == iterable_views(old(self).entries@).push(value@),
            final(self).limit == old(self).limit,
            final(self).start == old(self).start,
    {
        self.entries.push(value);
        assert(iterable_views(self.entries@) =~= iterable_views(old(self).entries@).push(value@));
    }

    /// Ingests the live entity of the record; a record of no live entity
    /// adds nothing.
    pub fn ingest_record(&mut self, id: &Record, g: &Graph) -> (r: Result<(), Error>)
        requires
            g.wf(),
        ensures
            r is Ok,
            final(self).limit == old(self).limit,
            final(self).start == old(self).start,
            iterable_views(final(self).entries@) == iterable_views(old(self).entries@) + ingest_of(*g, Model::Record(id@)),
    {
        match g.retrieve_record(id) {
            Some(h) => {
                proof {
                    let c = handle_of_record(*g, id@);
                    assert(g.live(c) && g.ent(c).id@ == id@);
                    assert(g.live(h as int));
                    assert(c == h);
                }
                self.ingest(Iterable::Record(h));
                assert(iterable_views(self.entries@) =~= iterable_views(old(self).entries@) + ingest_of(*g, Model::Record(id@)));
            },
            None => {
                assert(iterable_views(self.entries@) =~= iterable_views(old(self).entries@) + ingest_of(*g, Model::Record(id@)));
            },
        }
        Ok(())
    }

    /// Ingests a snapshot of the live entities of the named table; a name of
    /// no table adds nothing.
    pub fn ingest_table(&mut self, table: &crate::names::Table, g: &Graph) -> (r: Result<(), Error>)
        requires
            g.wf(),
        ensures
            r is Ok,
            final(self).limit == old(self).limit,
            final(self).start == old(self).start,
            iterable_views(final(self).entries@) == iterable_views(old(self).entries@) + ingest_of(*g, Model::Table(table@)),
    {
        match g.retrieve_table(table.0.as_str()) {
            Some(hs) => {
                proof {
                    let c = position_of_table(*g, table@);
                    let t = choose|t: int| 0 <= t < g.tables@.len() && #[trigger] g.tables@[t].name@ == table@
                        && hs@ == crate::graph::live_only(*g, Seq::new(g.tables@[t].rows@.len(), |i: int| g.tables@[t].rows@[i].1));
                    assert(0 <= c < g.tables@.len() && g.tables@[c].name@ == table@);
                    assert(c == t);
                    assert(hs@ == crate::graph::live_only(*g, row_handles_of(*g, c)));
                }
                self.ingest(Iterable::Table(hs));
                assert(iterable_views(self.entries@) =~= iterable_views(old(self).entries@) + ingest_of(*g, Model::Table(table@)));
            },
            None => {
                assert(iterable_views(self.entries@) =~= iterable_views(old(self).entries@) + ingest_of(*g, Model::Table(table@)));
            },
        }
        Ok(())
    }

    pub fn ingest_edge(&mut self, edge: Edge) -> (r: Result<(), Error>)
        ensures
            r is Ok,
            iterable_views(final(self).entries@) == iterable_views(old(self).entries@).push(IterableView::Edge(edge.dir, edge.from@, edge.to@)),
            final(self).limit == old(self).limit,
            final(self).start == old(self).start,
    {
        self.ingest(Iterable::Edge(edge));
        Ok(())
    }

    pub fn set_limit(&mut self, stm: &Select) -> (r: Result<(), Error>)
        ensures
            r is Ok,
            final(self).limit == stm.limit,
            final(self).start == old(self).start,
            final(self).entries == old(self).entries,
    {
        self.limit = stm.limit;
        Ok(())
    }

    pub fn set_start(&mut self, stm: &Select) -> (r: Result<(), Error>)
        ensures
            r is Ok,
            final(self).start == stm.start,
            final(self).limit == old(self).limit,
            final(self).entries == old(self).entries,
    {
        self.start = stm.start;
        Ok(())
    }

    /// Processes every iterable in order (the first error ends the select),
    /// flattens the values one level, then skips `start` of them and keeps
    /// at most `limit`. The iterables are consumed.
    pub fn process(&mut self, g: &Graph, stm: &Select) -> (r: Result<Vec<Value>, Error>)
        requires
            g.wf(),
        ensures
            final(self).entries@.len() == 0,
            final(self).start == stm.start,
            final(self).limit == stm.limit,
            iterated(*g, iterable_views(old(self).entries@), stm.fields@, filter_view(&stm.conditions), stm.start, stm.limit, r),
    {
        self.set_start(stm)?;
        self.set_limit(stm)?;
        let mut entries: Vec<Iterable> = Vec::new();
        std::mem::swap(&mut entries, &mut self.entries);
        let mut values: Vec<Value> = Vec::new();
        let mut i: usize = 0;
        while i < entries.len()
            invariant
                g.wf(),
                entries == old(self).entries,
                self.entries@.len() == 0,
                self.start == stm.start,
                self.limit == stm.limit,
                i <= entries.len(),
                values@.len() == i,
                forall|j: int| 0 <= j < i ==> #[trigger] processed(*g, entries@[j]@, stm.fields@, filter_view(&stm.conditions), Ok(values@[j])),
            decreases entries.len() - i,
        {
            match entries[i].process(g, stm) {
                Ok(v) => {
                    values.push(v);
                },
                Err(e) => {
                    proof {
                        let its = iterable_views(entries@);
                        assert(its[i as int] == entries@[i as int]@);
                        assert forall|j: int| 0 <= j < i implies #[trigger] processed(*g, its[j], stm.fields@, filter_view(&stm.conditions), Ok(values@[j])) by {
                            assert(its[j] == entries@[j]@);
                        }
                        assert(processed(*g, its[i as int], stm.fields@, filter_view(&stm.conditions), Err(e)));
                        assert(processed_all(*g, its.take(i as int), values@, stm.fields@, filter_view(&stm.conditions)));
                    }
                    return Err(e);
                },
            }
            i = i + 1;
        }
        let flat = flatten(&values);
        let r = window(&flat, stm.start, stm.limit);
        assert(models(r@) == window_of(flatten_of(models(values@)), stm.start, stm.limit));
        assert forall|j: int| 0 <= j < entries@.len() implies #[trigger] processed(*g, iterable_views(entries@)[j], stm.fields@, filter_view(&stm.conditions), Ok(values@[j])) by {
            assert(iterable_views(entries@)[j] == entries@[j]@);
        }
        assert(iterable_views(entries@).len() == values@.len());
        Ok(r)
    }
}

impl Select {
    /// Evaluates each target and ingests it (a record, a table, an edge
    /// pattern, the items of a list by the same rules, or a literal), then
    /// processes the iterables.
    pub fn compute(&self, g: &Graph) -> (r: Result<Vec<Value>, Error>)
        requires
            g.wf(),
        ensures
            match targets_of(*g, models(self.what@)) {
                Err(x) => r == Err::<Vec<Value>, Error>(Error::Evaluation(x)),
                Ok(its) => iterated(*g, its, self.fields@, filter_view(&self.conditions), self.start, self.limit, r),
            },
    {
        let mut iter = Iterator::new();
        let ctx = Object::new();
        assert(ctx@ =~= Seq::<(Seq<char>, Model)>::empty());
        assert(iterable_views(iter.entries@) =~= Seq::<IterableView>::empty());
        let ghost ws = models(self.what@);
        proof {
            lemma_models(self.what@);
        }
        let mut i: usize = 0;
        while i < self.what.len()
            invariant
                g.wf(),
                ctx.wf(),
                ctx@ == Seq::<(Seq<char>, Model)>::empty(),
                ws == models(self.what@),
                ws.len() == self.what@.len(),
                forall|j: int| 0 <= j < ws.len() ==> #[trigger] ws[j] == self.what@[j]@,
                i <= self.what.len(),
                targets_of(*g, ws.take(i as int)) == Ok::<Seq<IterableView>, EvalError>(iterable_views(iter.entries@)),
            decreases self.what.len() - i,
        {
            assert(ws.take(i + 1).drop_last() =~= ws.take(i as int));
            assert(ws.take(i + 1).last() == self.what@[i as int]@);
            let val = match self.what[i].evaluate(&ctx) {
                Ok(v) => v,
                Err(x) => {
                    proof {
                        lemma_targets_error(*g, ws, i + 1);
                    }
                    return Err(Error::Evaluation(x));
                },
            };
            ingest_value(&mut iter, &val, g);
            i = i + 1;
        }
        assert(ws.take(ws.len() as int) =~= ws);
        iter.process(g, self)
    }
}

/// Ingests a target of a select: a record, a table, an edge pattern, the
/// items of a list by the same rules, or a literal.
pub fn ingest_value(iter: &mut Iterator, val: &Value, g: &Graph)
    requires
        g.wf(),
    ensures
        iterable_views(final(iter).entries@) == iterable_views(old(iter).entries@) + ingest_of(*g, val@),
        final(iter).limit == old(iter).limit,
        final(iter).start == old(iter).start,
    decreases val,
{
    match val {
        Value::Record(id) => {
            let _ = iter.ingest_record(id, g);
        },
        Value::Table(table) => {
            let _ = iter.ingest_table(table, g);
        },
        Value::Edge(edge) => {
            let copy = Edge { dir: edge.dir, from: edge.from.duplicate(), to: edge.to.duplicate() };
            let _ = iter.ingest_edge(copy);
            assert(iterable_views(iter.entries@) =~= iterable_views(old(iter).entries@) + ingest_of(*g, val@));
        },
        Value::Array(items) => {
            let ghost base = iterable_views(iter.entries@);
            let ghost ms = models(items@);
            proof {
                lemma_models(items@);
            }
            let mut k: usize = 0;
            assert(ms.take(0) =~= Seq::<Model>::empty());
            assert(base + ingest_all(*g, ms.take(0)) =~= base);
            while k < items.len()
                invariant
                    g.wf(),
                    *val == Value::Array(*items),
                    k <= items.len(),
                    ms == models(items@),
                    ms.len() == items@.len(),
                    forall|j: int| 0 <= j < ms.len() ==> #[trigger] ms[j] == items@[j]@,
                    iterable_views(iter.entries@) == base + ingest_all(*g, ms.take(k as int)),
                    iter.limit == old(iter).limit,
                    iter.start == old(iter).start,
                decreases items.len() - k,
            {
                proof {
                    vstd::std_specs::vec::axiom_vec_index_decreases(*items, k as int);
                    assert(decreases_to!(*val => val->Array_0));
                    assert(decreases_to!(*items => items[k as int]));
                    assert(ms.take(k + 1).drop_last() =~= ms.take(k as int));
                    assert(ms.take(k + 1).last() == items@[k as int]@);
                }
                ingest_value(iter, &items[k], g);
                assert(base + ingest_all(*g, ms.take(k + 1)) =~= base + ingest_all(*g, ms.take(k as int)) + ingest_of(*g, items@[k as int]@));
                k = k + 1;
            }
            assert(ms.take(ms.len() as int) =~= ms);
        },
        other => {
            iter.ingest(Iterable::Value(other.duplicate()));
            assert(iterable_views(iter.entries@) =~= iterable_views(old(iter).entries@) + ingest_of(*g, val@));
        },
    }
}

/// The map that projecting a literal value gives: a wildcard puts the value
/// under its own text; a field evaluates its expression, its paths read in
/// the literal's fields `ctx`, under its alias or the expression's text. Or
/// the first evaluation error.
pub open spec fn literal_project_of(fields: Seq<FieldView>, v: Model, ctx: Seq<(Seq<char>, Model)>) -> Result<
    Map<Seq<char>, Model>,
    EvalError,
>
    decreases fields.len(),
{
    if fields.len() == 0 {
        Ok(Map::empty())
    } else {
        match literal_project_of(fields.drop_last(), v, ctx) {
            Ok(m) => match fields.last() {
                FieldView::WildCard => Ok(m.insert(crate::text::text_of(v), v)),
                FieldView::Single(e, a) => match crate::eval::eval_of(e, ctx) {
                    Ok(x) => Ok(m.insert(crate::query::field_key(e, a), x)),
                    Err(x) => Err(x),
                },
            },
            Err(x) => Err(x),
        }
    }
}

pub proof fn lemma_literal_error(fields: Seq<FieldView>, v: Model, ctx: Seq<(Seq<char>, Model)>, k: int)
    requires
        0 <= k <= fields.len(),
        literal_project_of(fields.take(k), v, ctx) is Err,
    ensures
        literal_project_of(fields, v, ctx) == literal_project_of(fields.take(k), v, ctx),
    decreases fields.len() - k,
{
    if k < fields.len() {
        assert(fields.take(k + 1).drop_last() =~= fields.take(k));
        lemma_literal_error(fields, v, ctx, k + 1);
    } else {
        assert(fields.take(k) =~= fields);
    }
}

/// Projects a literal value as the fields ask.
pub fn project_literal(fields: &Fields, v: &Value, ctx: &Object) -> (r: Result<Object, EvalError>)
    ensures
        match r {
            Ok(o) => o.wf() && literal_project_of(fields@, v@, ctx@) == Ok::<Map<Seq<char>, Model>, EvalError>(
                o.fields(),
            ),
            Err(e) => literal_project_of(fields@, v@, ctx@) == Err::<Map<Seq<char>, Model>, EvalError>(e),
        },
{
    let mut out = Object::new();
    let mut i: usize = 0;
    while i < fields.0.len()
        invariant
            out.wf(),
            i <= fields.0.len(),
            literal_project_of(fields@.take(i as int), v@, ctx@) == Ok::<Map<Seq<char>, Model>, EvalError>(
                out.fields(),
            ),
        decreases fields.0.len() - i,
    {
        assert(fields@.take(i + 1).drop_last() =~= fields@.take(i as int));
        assert(fields@.take(i + 1).last() == fields.0@[i as int]@);
        match &fields.0[i] {
            Field::WildCard => {
                out.insert(v.to_text(), v.duplicate());
            },
            Field::Single { expr, alias } => {
                let x = match expr.evaluate(ctx) {
                    Ok(x) => x,
                    Err(e) => {
                        proof {
                            lemma_literal_error(fields@, v@, ctx@, i + 1);
                        }
                        return Err(e);
                    },
                };
                let key = match alias {
                    Some(a) => a.clone(),
                    None => expr.to_text(),
                };
                out.insert(key, x);
            },
        }
        i = i + 1;
    }
    assert(fields@.take(fields@.len() as int) =~= fields@);
    Ok(out)
}

/// The fields that a literal value offers to a projection.
pub fn literal_fields(v: &Value) -> (r: Object)
    ensures
        r.wf(),
        r.fields() == literal_map(v@),
{
    let mut o = Object::new();
    match v {
        Value::Object(entries) => {
            let mut copy: Vec<(String, Value)> = Vec::new();
            let mut i: usize = 0;
            while i < entries.len()
                invariant
                    i <= entries.len(),
                    copy@.len() == i,
                    forall|j: int| 0 <= j < i ==> (#[trigger] copy@[j]).0@ == entries@[j].0@ && copy@[j].1@ == entries@[j].1@,
                decreases entries.len() - i,
            {
                copy.push((entries[i].0.clone(), entries[i].1.duplicate()));
                i = i + 1;
            }
            proof {
                lemma_entry_models(copy@);
                lemma_entry_models(entries@);
                assert(entry_models(copy@) =~= entry_models(entries@));
            }
            bind_all(&mut o, copy);
        },
        _ => {},
    }
    o
}

} // verus!
