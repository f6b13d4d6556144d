//! Entities: the nodes and edges of the graph, with their fields and adjacency.
use vstd::prelude::*;
use crate::assoc::{assoc_map, keys_unique, holds_key, lemma_assoc_dom, lemma_assoc_push, lemma_assoc_update, lemma_assoc_remove};
use crate::error::EvalError;
use crate::ids::{Id, IdView, Record, RecordView, Uuid};
use crate::names::Direction;
use crate::object::{Object, has_key};
use crate::query::{Fields, admits, check_filter, filter_view, project, project_of};
use crate::value::{Model, Value, entry_models, lemma_entry_models};

verus! {

/// Whether an entity is a node or an edge.
#[derive(Debug, Clone, Copy, PartialEq, Eq, Structural, Hash)]
pub enum Kind {
    Node,
    Edge,
}

/// A reference to a neighbouring entity by its handle, tagged with the side
/// of the edge: `In` for the origin side, `Out` for the destination side.
#[derive(Debug, Clone, Copy, PartialEq, Eq, Structural, Hash)]
pub enum Path {
    In(usize),
    Out(usize),
}

/// Whether a neighbour reached through `path` from an entity of kind `kind`
/// may be taken by a hop in direction `dir`.
pub open spec fn dir_matches(path: Path, dir: Direction, kind: Kind) -> bool {
    match dir {
        Direction::Both => true,
        Direction::In => (kind == Kind::Edge && path is Out) || (kind == Kind::Node && path is In),
        Direction::Out => (kind == Kind::Edge && path is In) || (kind == Kind::Node && path is Out),
    }
}

pub open spec fn handle_of(path: Path) -> usize {
    match path {
        Path::In(h) => h,
        Path::Out(h) => h,
    }
}

impl Path {
    /// The handle of the neighbour.
    pub fn edge(&self) -> (r: usize)
        ensures
            r == handle_of(*self),
    {
        match self {
            Path::In(h) => *h,
            Path::Out(h) => *h,
        }
    }

    pub fn is_in(&self) -> (r: bool)
        ensures
            r == (self is In),
    {
        matches!(self, Path::In(_))
    }

    pub fn is_out(&self) -> (r: bool)
        ensures
            r == (self is Out),
    {
        matches!(self, Path::Out(_))
    }

    /// The neighbour's handle, when a hop in direction `dir` from an entity
    /// of kind `kind` may take it.
    pub fn valid_path(&self, dir: Direction, kind: Kind) -> (r: Option<usize>)
        ensures
            r == (if dir_matches(*self, dir, kind) {
                Some(handle_of(*self))
            } else {
                None
            }),
    {
        let ok = match dir {
            Direction::Both => true,
            Direction::In => (kind == Kind::Edge && self.is_out()) || (kind == Kind::Node && self.is_in()),
            Direction::Out => (kind == Kind::Edge && self.is_in()) || (kind == Kind::Node && self.is_out()),
        };
        if ok {
            Some(self.edge())
        } else {
            None
        }
    }
}

/// The map that a list of name/value pairs gives when bound one after the
/// other into `m`.
pub open spec fn insert_all(m: Map<Seq<char>, Model>, s: Seq<(Seq<char>, Model)>) -> Map<Seq<char>, Model>
    decreases s.len(),
{
    if s.len() == 0 {
        m
    } else {
        insert_all(m, s.drop_last()).insert(s.last().0, s.last().1)
    }
}

pub open spec fn id_key() -> Seq<char> {
    seq!['i', 'd']
}

/// A node or an edge of the graph.
#[derive(Debug)]
pub struct Entity {
    pub kind: Kind,
    pub id: Record,
    pub fields: Object,
    pub edges: Vec<(Record, Path)>,
}

impl Entity {
    pub open spec fn adjacency(&self) -> Seq<(RecordView, Path)> {
        Seq::new(self.edges@.len(), |i: int| (self.edges@[i].0@, self.edges@[i].1))
    }

    /// The neighbours of the entity, by their records.
    pub open spec fn links(&self) -> Map<RecordView, Path> {
        assoc_map(self.adjacency())
    }

    pub open spec fn field_map(&self) -> Map<Seq<char>, Model> {
        self.fields.fields()
    }

    pub open spec fn wf(&self) -> bool {
        self.fields.wf() && keys_unique(self.adjacency())
    }

    pub fn is_node(&self) -> (r: bool)
        ensures
            r == (self.kind == Kind::Node),
    {
        self.kind == Kind::Node
    }

    pub fn is_edge(&self) -> (r: bool)
        ensures
            r == (self.kind == Kind::Edge),
    {
        self.kind == Kind::Edge
    }

    /// A new node: its fields bound one after the other, then `id` bound to
    /// its record; no neighbours.
    pub fn new_node(id: Record, fields: Vec<(String, Value)>) -> (r: Entity)
        ensures
            r.wf(),
            r.kind == Kind::Node,
            r.id@ == id@,
            r.field_map() == insert_all(Map::empty(), entry_models(fields@)).insert(
                id_key(),
                Model::Record(id@),
            ),
            r.links() == Map::<RecordView, Path>::empty(),
            r.adjacency().len() == 0,
    {
        let mut object = Object::new();
        bind_all(&mut object, fields);
        proof {
            reveal_strlit("id");
        }
        let key = "id".to_owned();
        assert(key@ == id_key());
        let rec = id.duplicate();
        object.insert(key, Value::Record(rec));
        let r = Entity { kind: Kind::Node, id, fields: object, edges: Vec::new() };
        assert(r.adjacency() =~= Seq::<(RecordView, Path)>::empty());
        r
    }
}

impl Entity {
    /// Where the record is held in the adjacency, if it is.
    pub fn link_position(&self, id: &Record) -> (r: Option<usize>)
        ensures
            match r {
                Some(i) => i < self.adjacency().len() && self.adjacency()[i as int].0 == id@,
                None => !holds_key(self.adjacency(), id@),
            },
    {
        let mut i: usize = 0;
        while i < self.edges.len()
            invariant
                i <= self.edges.len(),
                forall|j: int| 0 <= j < i ==> self.adjacency()[j].0 != id@,
            decreases self.edges.len() - i,
        {
            if self.edges[i].0.same(id) {
                return Some(i);
            }
            i = i + 1;
        }
        None
    }

    /// Records a neighbour, replacing what was held for its record.
    pub fn bind(&mut self, id: Record, path: Path)
        requires
            old(self).wf(),
        ensures
            final(self).wf(),
            final(self).links() == old(self).links().insert(id@, path),
            final(self).kind == old(self).kind,
            final(self).id == old(self).id,
            final(self).fields == old(self).fields,
    {
        let ghost before = self.adjacency();
        let ghost key = id@;
        match self.link_position(&id) {
            Some(i) => {
                self.edges.set(i, (id, path));
                proof {
                    assert(self.adjacency() =~= before.update(i as int, (before[i as int].0, path)));
                    lemma_assoc_update(before, i as int, path);
                }
            },
            None => {
                self.edges.push((id, path));
                proof {
                    assert(self.adjacency() =~= before.push((key, path)));
                    lemma_assoc_push(before, key, path);
                }
            },
        }
    }

    /// Forgets the neighbour held for the record, if there is one.
    pub fn unbind(&mut self, id: &Record)
        requires
            old(self).wf(),
        ensures
            final(self).wf(),
            final(self).links() == old(self).links().remove(id@),
            final(self).kind == old(self).kind,
            final(self).id == old(self).id,
            final(self).fields == old(self).fields,
    {
        let ghost before = self.adjacency();
        match self.link_position(id) {
            Some(i) => {
                self.edges.remove(i);
                proof {
                    assert(self.adjacency() =~= before.remove(i as int));
                    lemma_assoc_remove(before, i as int);
                }
            },
            None => {
                proof {
                    lemma_assoc_dom(before, id@);
                    assert(self.links() =~= self.links().remove(id@));
                }
            },
        }
    }

    /// Binds each name to its value (replacing or adding) and returns the
    /// resulting fields.
    pub fn update(&mut self, fields: Vec<(String, Value)>) -> (r: Object)
        requires
            old(self).wf(),
        ensures
            final(self).wf(),
            final(self).field_map() == insert_all(old(self).field_map(), entry_models(fields@)),
            r@ == final(self).fields@,
            final(self).kind == old(self).kind,
            final(self).id == old(self).id,
            final(self).edges == old(self).edges,
    {
        bind_all(&mut self.fields, fields);
        self.fields.duplicate()
    }

    /// Removes the field, if it is there, and returns the resulting fields.
    pub fn remove_field(&mut self, name: &str) -> (r: Object)
        requires
            old(self).wf(),
        ensures
            final(self).wf(),
            final(self).field_map() == old(self).field_map().remove(name@),
            !has_key(old(self).fields@, name@) ==> final(self).fields == old(self).fields,
            r@ == final(self).fields@,
            final(self).kind == old(self).kind,
            final(self).id == old(self).id,
            final(self).edges == old(self).edges,
    {
        self.fields.remove(name);
        self.fields.duplicate()
    }

    /// The projection of the entity's fields, or `None` when the filter
    /// rejects the entity.
    pub fn get(&self, fields: &Fields, filter: &Option<Value>) -> (r: Result<Option<Object>, EvalError>)
        requires
            self.wf(),
        ensures
            get_matches(r, fields@, filter_view(filter), self.fields@),
    {
        let pass = check_filter(filter, &self.fields)?;
        if !pass {
            return Ok(None);
        }
        match project(fields, &self.fields) {
            Ok(o) => Ok(Some(o)),
            Err(e) => Err(e),
        }
    }
}

impl Entity {
    /// A new edge from the origin node to the destination node, under the
    /// record (edge table, key). Its fields are the given ones, then `in`
    /// bound to the origin's record, `out` to the destination's and `id` to
    /// its own; it holds
    /// the origin as `In` and the destination as `Out`.
    pub fn new_edge(
        edge: String,
        key: Uuid,
        dest_id: Record,
        org_id: Record,
        destination: usize,
        origin: usize,
        fields: Vec<(String, Value)>,
    ) -> (r: Entity)
        ensures
            r.wf(),
            r.kind == Kind::Edge,
            r.id@ == (RecordView { table: edge@, id: IdView::Uuid(key.0) }),
            r.field_map() == insert_all(Map::empty(), entry_models(fields@)).insert(
                in_key(),
                Model::Record(org_id@),
            ).insert(out_key(), Model::Record(dest_id@)).insert(id_key(), Model::Record(r.id@)),
            r.links() == Map::<RecordView, Path>::empty().insert(org_id@, Path::In(origin)).insert(
                dest_id@,
                Path::Out(destination),
            ),
    {
        let mut object = Object::new();
        bind_all(&mut object, fields);
        proof {
            reveal_strlit("in");
            reveal_strlit("out");
        }
        proof {
            reveal_strlit("id");
        }
        let k_in = "in".to_owned();
        let k_out = "out".to_owned();
        let k_id = "id".to_owned();
        assert(k_in@ == in_key() && k_out@ == out_key() && k_id@ == id_key());
        object.insert(k_in, Value::Record(org_id.duplicate()));
        object.insert(k_out, Value::Record(dest_id.duplicate()));
        let id = Record::new(edge, Id::Uuid(key));
        object.insert(k_id, Value::Record(id.duplicate()));
        let mut r = Entity { kind: Kind::Edge, id, fields: object, edges: Vec::new() };
        assert(r.adjacency() =~= Seq::<(RecordView, Path)>::empty());
        assert(r.links() =~= Map::<RecordView, Path>::empty());
        r.bind(org_id, Path::In(origin));
        r.bind(dest_id, Path::Out(destination));
        r
    }
}

pub open spec fn in_key() -> Seq<char> {
    seq!['i', 'n']
}

pub open spec fn out_key() -> Seq<char> {
    seq!['o', 'u', 't']
}

/// Whether `r` is what a get with these fields and filter owes on an entity
/// with the fields `ctx`: the filter's error; `None` when the filter rejects;
/// else the projection, or its error.
pub open spec fn get_matches(
    r: Result<Option<Object>, EvalError>,
    fields: Seq<crate::query::FieldView>,
    filter: Option<Model>,
    ctx: Seq<(Seq<char>, Model)>,
) -> bool {
    match admits(filter, ctx) {
        Err(x) => r == Err::<Option<Object>, EvalError>(x),
        Ok(false) => r == Ok::<Option<Object>, EvalError>(None),
        Ok(true) => match project_of(fields, ctx) {
            Err(x) => r == Err::<Option<Object>, EvalError>(x),
            Ok(m) => match r {
                Ok(Some(o)) => o.wf() && o.fields() == m,
                _ => false,
            },
        },
    }
}

/// Binds each name to its value, one after the other.
pub fn bind_all(object: &mut Object, fields: Vec<(String, Value)>)
    requires
        old(object).wf(),
    ensures
        final(object).wf(),
        final(object).fields() == insert_all(old(object).fields(), entry_models(fields@)),
{
    let ghost start = object.fields();
    let ghost all = entry_models(fields@);
    proof {
        lemma_entry_models(fields@);
    }
    let mut i: usize = 0;
    while i < fields.len()
        invariant
            object.wf(),
            i <= fields.len(),
            all == entry_models(fields@),
            all.len() == fields@.len(),
            forall|j: int| 0 <= j < all.len() ==> #[trigger] all[j] == (fields@[j].0@, fields@[j].1@),
            object.fields() == insert_all(start, all.take(i as int)),
        decreases fields.len() - i,
    {
        assert(all.take(i + 1).drop_last() =~= all.take(i as int));
        let key = fields[i].0.clone();
        let value = fields[i].1.duplicate();
        object.insert(key, value);
        i = i + 1;
    }
    assert(all.take(all.len() as int) =~= all);
}

} // verus!
