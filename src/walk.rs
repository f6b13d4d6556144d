//! Walks: multi-hop traversals along the adjacency of the graph.
use vstd::prelude::*;
use crate::entity::{Path, dir_matches, handle_of};
use crate::error::{Error, EvalError};
use crate::graph::Graph;
use crate::ids::{Record, RecordView};
use crate::names::Direction;
use crate::object::Object;
use crate::query::{FieldView, Fields, Step, admits, check_filter, filter_view, project, project_of};
use crate::value::Model;

verus! {

/// The mathematical value of a [`Step`].
pub struct StepView {
    pub dir: Direction,
    pub to: Seq<char>,
    pub filter: Option<Model>,
}

impl Step {
    pub open spec fn view(&self) -> StepView {
        StepView { dir: self.dir, to: self.to@, filter: filter_view(&self.filter) }
    }
}

pub open spec fn step_views(path: Seq<Step>) -> Seq<StepView> {
    Seq::new(path.len(), |i: int| path[i]@)
}

pub open spec fn maps_of(v: Seq<Object>) -> Seq<Map<Seq<char>, Model>> {
    Seq::new(v.len(), |i: int| v[i].fields())
}

/// The results of a walk standing at `at` with `idx` steps taken, having
/// arrived from the record `origin`: past the last step, the projection of
/// the entity's fields; else what the hops along its adjacency give.
pub open spec fn walk_of(
    g: Graph,
    at: int,
    path: Seq<StepView>,
    idx: int,
    origin: RecordView,
    fields: Seq<FieldView>,
) -> Result<Seq<Map<Seq<char>, Model>>, EvalError>
    decreases path.len() - idx + 1, 0int,
{
    if idx < 0 || idx >= path.len() {
        match project_of(fields, g.ent(at).fields@) {
            Ok(m) => Ok(seq![m]),
            Err(x) => Err(x),
        }
    } else {
        hop_of(g, at, g.ent(at).adjacency(), path, idx, origin, fields)
    }
}

/// Whether the neighbour held as (rec, p) by the entity at `at` is taken by
/// the step: it is of the step's table, it is not where the walk came from,
/// its side agrees with the step's direction, and it is live.
pub open spec fn hop_taken(g: Graph, at: int, rec: RecordView, p: Path, step: StepView, origin: RecordView) -> bool {
    &&& rec.table == step.to
    &&& rec != origin
    &&& dir_matches(p, step.dir, g.ent(at).kind)
    &&& g.live(handle_of(p) as int)
}

/// The results of the hops from the entity at `at` through the adjacency
/// entries `s`, in order: each neighbour that the step takes and whose
/// fields pass the step's filter is walked on from.
pub open spec fn hop_of(
    g: Graph,
    at: int,
    s: Seq<(RecordView, Path)>,
    path: Seq<StepView>,
    idx: int,
    origin: RecordView,
    fields: Seq<FieldView>,
) -> Result<Seq<Map<Seq<char>, Model>>, EvalError>
    decreases path.len() - idx, s.len(),
{
    if s.len() == 0 || idx < 0 || idx >= path.len() {
        Ok(Seq::empty())
    } else {
        match hop_of(g, at, s.drop_last(), path, idx, origin, fields) {
            Err(x) => Err(x),
            Ok(acc) => {
                let rec = s.last().0;
                let p = s.last().1;
                let n = handle_of(p) as int;
                if hop_taken(g, at, rec, p, path[idx], origin) {
                    match admits(path[idx].filter, g.ent(n).fields@) {
                        Err(x) => Err(x),
                        Ok(false) => Ok(acc),
                        Ok(true) => match walk_of(g, n, path, idx + 1, g.ent(at).id@, fields) {
                            Err(x) => Err(x),
                            Ok(rs) => Ok(acc + rs),
                        },
                    }
                } else {
                    Ok(acc)
                }
            },
        }
    }
}

pub proof fn lemma_hop_error(
    g: Graph,
    at: int,
    s: Seq<(RecordView, Path)>,
    k: int,
    path: Seq<StepView>,
    idx: int,
    origin: RecordView,
    fields: Seq<FieldView>,
)
    requires
        0 <= k <= s.len(),
        hop_of(g, at, s.take(k), path, idx, origin, fields) is Err,
    ensures
        hop_of(g, at, s, path, idx, origin, fields) == hop_of(g, at, s.take(k), path, idx, origin, fields),
    decreases s.len() - k,
{
    if k < s.len() {
        assert(s.take(k + 1).drop_last() =~= s.take(k));
        lemma_hop_error(g, at, s, k + 1, path, idx, origin, fields);
    } else {
        assert(s.take(k) =~= s);
    }
}

/// Whether an exec walk result carries the spec result.
pub open spec fn walk_matches(r: Result<Vec<Object>, Error>, s: Result<Seq<Map<Seq<char>, Model>>, EvalError>) -> bool {
    match r {
        Ok(v) => s == Ok::<Seq<Map<Seq<char>, Model>>, EvalError>(maps_of(v@)) && forall|i: int| 0 <= i < v@.len() ==> #[trigger] v@[i].wf(),
        Err(Error::Evaluation(x)) => s == Err::<Seq<Map<Seq<char>, Model>>, EvalError>(x),
        Err(_) => false,
    }
}

/// The field list asking for one field by name.
pub open spec fn single_field(name: Seq<char>) -> Seq<FieldView> {
    seq![FieldView::Single(Model::Idiom(seq![crate::value::PartView::Field(name)]), None)]
}

/// The value held under `name` in a projection, or nothing.
pub open spec fn value_at(m: Map<Seq<char>, Model>, name: Seq<char>) -> Model {
    if m.contains_key(name) {
        m[name]
    } else {
        Model::Nothing
    }
}

/// The values reached by following `rest` from the `name` field of each
/// projection, in order, or the first error.
pub open spec fn follow_all(ms: Seq<Map<Seq<char>, Model>>, name: Seq<char>, rest: Seq<crate::value::PartView>) -> Result<Seq<Model>, EvalError>
    decreases ms.len(),
{
    if ms.len() == 0 {
        Ok(Seq::empty())
    } else {
        match follow_all(ms.drop_last(), name, rest) {
            Err(x) => Err(x),
            Ok(vs) => match crate::eval::follow_of(value_at(ms.last(), name), rest) {
                Err(x) => Err(x),
                Ok(v) => Ok(vs.push(v)),
            },
        }
    }
}

pub proof fn lemma_follow_all_error(ms: Seq<Map<Seq<char>, Model>>, name: Seq<char>, rest: Seq<crate::value::PartView>, k: int)
    requires
        0 <= k <= ms.len(),
        follow_all(ms.take(k), name, rest) is Err,
    ensures
        follow_all(ms, name, rest) == follow_all(ms.take(k), name, rest),
    decreases ms.len() - k,
{
    if k < ms.len() {
        assert(ms.take(k + 1).drop_last() =~= ms.take(k));
        lemma_follow_all_error(ms, name, rest, k + 1);
    } else {
        assert(ms.take(k) =~= ms);
    }
}

/// What a path rooted at a record gives: nothing when no live entity has the
/// record; else, for each entity that walking the steps from it ends at, the
/// value reached by following `rest` from its field `name`.
pub open spec fn fetch_of(
    g: Graph,
    start: RecordView,
    steps: Seq<StepView>,
    name: Seq<char>,
    rest: Seq<crate::value::PartView>,
) -> Result<Model, EvalError> {
    if !g.id_taken(start) {
        Ok(Model::Nothing)
    } else {
        let h = choose|h: int| g.live(h) && #[trigger] g.ent(h).id@ == start;
        match walk_of(g, h, steps, 0, start, single_field(name)) {
            Err(x) => Err(x),
            Ok(ms) => match follow_all(ms, name, rest) {
                Err(x) => Err(x),
                Ok(vs) => Ok(Model::Array(vs)),
            },
        }
    }
}

impl Graph {
    /// Follows a path rooted at a record: walks the steps from its entity,
    /// reads the named field of each entity reached, and follows the
    /// remaining parts from there.
    pub fn fetch(&self, start: &Record, steps: &Vec<Step>, name: &crate::names::Ident, rest: &Vec<crate::value::Part>) -> (r: Result<crate::value::Value, Error>)
        requires
            self.wf(),
        ensures
            match (r, fetch_of(*self, start@, step_views(steps@), name@, crate::value::part_views(rest@))) {
                (Ok(v), Ok(m)) => v@ == m,
                (Err(Error::Evaluation(x)), Err(y)) => x == y,
                _ => false,
            },
    {
        let h = match self.retrieve_record(start) {
            Some(h) => h,
            None => {
                return Ok(crate::value::Value::Nothing);
            },
        };
        proof {
            let c = choose|c: int| self.live(c) && #[trigger] self.ent(c).id@ == start@;
            assert(self.live(h as int) && self.live(c));
            assert(c == h);
        }
        let mut parts: Vec<crate::value::Part> = Vec::new();
        parts.push(crate::value::Part::Field(crate::names::Ident(name.0.clone())));
        let idiom = crate::value::Idiom(parts);
        assert(idiom@ =~= seq![crate::value::PartView::Field(name@)]);
        let mut list: Vec<crate::query::Field> = Vec::new();
        list.push(crate::query::Field::Single { expr: crate::value::Value::Idiom(idiom), alias: None });
        let fields = Fields(list);
        assert(fields@ =~= single_field(name@));
        let objs = match self.walk(h, steps, &fields) {
            Ok(objs) => objs,
            Err(e) => {
                return Err(e);
            },
        };
        let ghost ms = maps_of(objs@);
        let ghost rv = crate::value::part_views(rest@);
        let mut out: Vec<crate::value::Value> = Vec::new();
        let mut i: usize = 0;
        assert(ms.take(0) =~= Seq::<Map<Seq<char>, Model>>::empty());
        assert(crate::value::models(out@) =~= Seq::<Model>::empty());
        assert(fetch_of(*self, start@, step_views(steps@), name@, rv) == match follow_all(ms, name@, rv) {
            Err(x) => Err(x),
            Ok(vs) => Ok(Model::Array(vs)),
        });
        while i < objs.len()
            invariant
                fetch_of(*self, start@, step_views(steps@), name@, rv) == match follow_all(ms, name@, rv) {
                    Err(x) => Err(x),
                    Ok(vs) => Ok(Model::Array(vs)),
                },
                ms == maps_of(objs@),
                rv == crate::value::part_views(rest@),
                forall|j: int| 0 <= j < objs@.len() ==> #[trigger] objs@[j].wf(),
                i <= objs.len(),
                out@.len() == i,
                follow_all(ms.take(i as int), name@, rv) == Ok::<Seq<Model>, EvalError>(crate::value::models(out@)),
            decreases objs.len() - i,
        {
            assert(ms.take(i + 1).drop_last() =~= ms.take(i as int));
            assert(ms.take(i + 1).last() == objs@[i as int].fields());
            let v = objs[i].get(name.0.as_str());
            proof {
                assert(objs@[i as int].wf());
                crate::object::lemma_lookup_map(objs@[i as int]@, name@);
                if !crate::object::has_key(objs@[i as int]@, name@) {
                    crate::object::lemma_lookup_absent(objs@[i as int]@, name@);
                }
                assert(v@ == value_at(objs@[i as int].fields(), name@));
                assert(rv.skip(0) =~= rv);
            }
            match v.follow(rest, 0) {
                Ok(w) => {
                    let ghost before = out@;
                    out.push(w);
                    proof {
                        assert(out@.drop_last() =~= before);
                    }
                },
                Err(x) => {
                    proof {
                        lemma_follow_all_error(ms, name@, rv, i + 1);
                    }
                    return Err(Error::Evaluation(x));
                },
            }
            i = i + 1;
        }
        assert(ms.take(ms.len() as int) =~= ms);
        Ok(crate::value::Value::Array(out))
    }

    /// Walks the path from the live entity at `at`, which was reached from
    /// the record `origin`, with `idx` steps taken; returns the projections
    /// of the entities that the walk ends at.
    pub fn walk_from(&self, at: usize, path: &Vec<Step>, idx: usize, origin: &Record, fields: &Fields) -> (r: Result<Vec<Object>, Error>)
        requires
            self.wf(),
            self.live(at as int),
        ensures
            walk_matches(r, walk_of(*self, at as int, step_views(path@), idx as int, origin@, fields@)),
        decreases path.len() - idx + 1, 0int,
    {
        let ent = match &self.entities[at] {
            Some(e) => e,
            None => {
                return Ok(Vec::new());
            },
        };
        assert(self.ent(at as int).wf());
        if idx >= path.len() {
            return match project(fields, &ent.fields) {
                Ok(o) => {
                    let mut out: Vec<Object> = Vec::new();
                    out.push(o);
                    assert(maps_of(out@) =~= seq![out@[0].fields()]);
                    Ok(out)
                },
                Err(x) => Err(Error::Evaluation(x)),
            };
        }
        let ghost adj = ent.adjacency();
        let ghost sp = step_views(path@);
        let step = &path[idx];
        let mut acc: Vec<Object> = Vec::new();
        let mut j: usize = 0;
        assert(adj.take(0).len() == 0);
        assert(maps_of(acc@) =~= Seq::<Map<Seq<char>, Model>>::empty());
        while j < ent.edges.len()
            invariant
                self.wf(),
                self.live(at as int),
                *ent == self.ent(at as int),
                adj == ent.adjacency(),
                sp == step_views(path@),
                idx < path.len(),
                *step == path@[idx as int],
                j <= ent.edges.len(),
                hop_of(*self, at as int, adj.take(j as int), sp, idx as int, origin@, fields@)
                    == Ok::<Seq<Map<Seq<char>, Model>>, EvalError>(maps_of(acc@)),
                forall|i: int| 0 <= i < acc@.len() ==> #[trigger] acc@[i].wf(),
            decreases ent.edges.len() - j,
        {
            assert(adj.take(j + 1).drop_last() =~= adj.take(j as int));
            assert(adj.take(j + 1).last() == adj[j as int]);
            let rec = &ent.edges[j].0;
            let p = ent.edges[j].1;
            let n = p.edge();
            let taken = rec.in_table(&step.to) && !rec.same(origin) && p.valid_path(step.dir, ent.kind).is_some()
                && n < self.entities.len() && match &self.entities[n] {
                Some(_) => true,
                None => false,
            };
            if taken {
                let nent = match &self.entities[n] {
                    Some(x) => x,
                    None => {
                        return Ok(acc);
                    },
                };
                assert(self.live(n as int));
                assert(self.ent(n as int).wf());
                let pass = match check_filter(&step.filter, &nent.fields) {
                    Ok(b) => b,
                    Err(x) => {
                        proof {
                            lemma_hop_error(*self, at as int, adj, j + 1, sp, idx as int, origin@, fields@);
                        }
                        return Err(Error::Evaluation(x));
                    },
                };
                if pass {
                    match self.walk_from(n, path, idx + 1, &ent.id, fields) {
                        Ok(mut rs) => {
                            let ghost before = acc@;
                            acc.append(&mut rs);
                            assert(maps_of(acc@) =~= maps_of(before) + walk_of(*self, n as int, sp, idx + 1, ent.id@, fields@).unwrap());
                        },
                        Err(x) => {
                            proof {
                                lemma_hop_error(*self, at as int, adj, j + 1, sp, idx as int, origin@, fields@);
                            }
                            return Err(x);
                        },
                    }
                }
            }
            j = j + 1;
        }
        assert(adj.take(adj.len() as int) =~= adj);
        Ok(acc)
    }

    /// Walks the path from the live entity at `at`, whose record is the
    /// walk's origin; returns the projections of the entities it ends at.
    pub fn walk(&self, at: usize, path: &Vec<Step>, fields: &Fields) -> (r: Result<Vec<Object>, Error>)
        requires
            self.wf(),
        ensures
            !self.live(at as int) ==> r == Err::<Vec<Object>, Error>(Error::EntityGone),
            self.live(at as int) ==> walk_matches(r, walk_of(*self, at as int, step_views(path@), 0, self.ent(at as int).id@, fields@)),
    {
        if at >= self.entities.len() {
            return Err(Error::EntityGone);
        }
        match &self.entities[at] {
            Some(e) => {
                assert(self.live(at as int));
                self.walk_from(at, path, 0, &e.id, fields)
            },
            None => Err(Error::EntityGone),
        }
    }
}

} // verus!
