//! The graph: an arena of entities addressed by handle, and the tables that
//! route record ids to handles.
use vstd::prelude::*;
use crate::assoc::{keys_unique, holds_key, lemma_assoc_dom, lemma_assoc_at};
use crate::entity::{Entity, Kind, Path, handle_of, id_key, in_key, out_key, insert_all};
use crate::error::Error;
use crate::ids::{Id, IdView, Record, RecordView, Uuid};
use crate::object::Object;
use crate::value::{Model, Value, entry_models};
use rayon::iter::{IndexedParallelIterator, IntoParallelRefIterator, ParallelIterator};

verus! {

/// The entities of one table, by id, in the order of their creation. An id
/// stays reserved after its entity is deleted.
#[derive(Debug)]
pub struct Table {
    pub name: String,
    pub rows: Vec<(Id, usize)>,
}

impl Table {
    pub open spec fn keys(&self) -> Seq<(IdView, usize)> {
        Seq::new(self.rows@.len(), |i: int| (self.rows@[i].0@, self.rows@[i].1))
    }

    pub fn new(name: String) -> (r: Table)
        ensures
            r.name@ == name@,
            r.keys().len() == 0,
    {
        let r = Table { name, rows: Vec::new() };
        assert(r.keys() =~= Seq::<(IdView, usize)>::empty());
        r
    }

    /// The handle held for the id, if any.
    pub fn find(&self, id: &Id) -> (r: Option<usize>)
        ensures
            match r {
                Some(h) => exists|i: int| 0 <= i < self.keys().len() && self.keys()[i] == (id@, h),
                None => !holds_key(self.keys(), id@),
            },
    {
        let mut i: usize = 0;
        while i < self.rows.len()
            invariant
                i <= self.rows.len(),
                forall|j: int| 0 <= j < i ==> self.keys()[j].0 != id@,
            decreases self.rows.len() - i,
        {
            if self.rows[i].0.same(id) {
                assert(self.keys()[i as int] == (id@, self.rows@[i as int].1));
                return Some(self.rows[i].1);
            }
            i = i + 1;
        }
        None
    }

    pub fn contains(&self, id: &Id) -> (r: bool)
        ensures
            r == holds_key(self.keys(), id@),
    {
        match self.find(id) {
            Some(h) => {
                proof {
                    let i = choose|i: int| 0 <= i < self.keys().len() && self.keys()[i] == (id@, h);
                    assert(self.keys()[i].0 == id@);
                }
                true
            },
            None => false,
        }
    }

    /// Records the handle of a new entity under its id.
    pub fn insert(&mut self, id: Id, handle: usize)
        ensures
            final(self).keys() == old(self).keys().push((id@, handle)),
            final(self).name == old(self).name,
    {
        self.rows.push((id, handle));
        assert(self.keys() =~= old(self).keys().push((id@, handle)));
    }
}

/// The graph database: tables by name, and every entity in an arena slot
/// addressed by its handle. A deleted entity leaves its slot empty.
#[derive(Debug)]
pub struct Graph {
    pub tables: Vec<Table>,
    pub entities: Vec<Option<Entity>>,
}

/// What creating a node of record (table, id) with the fields did: it fails
/// if no such table is defined (nothing changes), or if the id was ever used
/// in the table or a live entity has the record (nothing changes); else a
/// live node with that record, the fields and `id` is in the next slot, and
/// the table routes the id to it.
pub open spec fn created(
    g: Graph,
    f: Graph,
    table: Seq<char>,
    id: IdView,
    fields: Seq<(Seq<char>, Model)>,
    r: Result<Object, Error>,
) -> bool {
    let rec = RecordView { table: table, id: id };
    &&& !g.table_named(table) ==> match r {
        Err(Error::InvalidTable(n)) => n@ == table,
        _ => false,
    }
    &&& forall|t: int|
        0 <= t < g.tables@.len() && #[trigger] g.tables@[t].name@ == table ==> {
            let taken = holds_key(g.tables@[t].keys(), id) || g.id_taken(rec);
            &&& taken ==> match r {
                Err(Error::CreateError { table: tn, id: i }) => tn@ == table && i@ == id,
                _ => false,
            }
            &&& !taken ==> match r {
                Ok(o) => {
                    let h = g.entities@.len() as int;
                    &&& f.entities@.len() == h + 1
                    &&& f.live(h)
                    &&& f.ent(h).kind == Kind::Node
                    &&& f.ent(h).id@ == rec
                    &&& f.ent(h).field_map() == insert_all(Map::empty(), fields).insert(
                        id_key(),
                        Model::Record(rec),
                    )
                    &&& f.ent(h).links() == Map::<RecordView, Path>::empty()
                    &&& o@ == f.ent(h).fields@
                    &&& f.tables@[t].keys() == g.tables@[t].keys().push((id, h as usize))
                    &&& f.tables@[t].name == g.tables@[t].name
                },
                _ => false,
            }
        }
    &&& r is Err ==> f.entities == g.entities && f.tables == g.tables
    &&& forall|h: int| 0 <= h < g.entities@.len() ==> f.entities@[h] == g.entities@[h]
    &&& f.tables@.len() == g.tables@.len()
    &&& forall|t: int|
        0 <= t < g.tables@.len() && g.tables@[t].name@ != table ==> f.tables@[t] == g.tables@[t]
}

/// What relating the origin to the destination did: on success, a new live
/// edge of the edge table in the next slot, holding the origin as `In` and the
/// destination as `Out`; the origin and the destination hold the edge's
/// record (as `In` and `Out`); every other slot is unchanged. On failure,
/// nothing changed, and the failure says why.
pub open spec fn related(
    g: Graph,
    f: Graph,
    r: Result<Record, Error>,
    dest: int,
    edge: Seq<char>,
    fields: Seq<(Seq<char>, Model)>,
    origin: int,
) -> bool {
    match r {
        Ok(rec) => {
            let e = g.entities@.len() as int;
            &&& f.ent(e).field_map() == insert_all(Map::empty(), fields).insert(
                in_key(),
                Model::Record(g.ent(origin).id@),
            ).insert(out_key(), Model::Record(g.ent(dest).id@)).insert(id_key(), Model::Record(rec@))
            &&& g.live(dest) && g.live(origin)
            &&& g.ent(dest).kind == Kind::Node && g.ent(origin).kind == Kind::Node
            &&& rec@.table == edge && rec@.id is Uuid
            &&& !g.id_taken(rec@)
            &&& f.entities@.len() == e + 1
            &&& f.tables == g.tables
            &&& f.live(e)
            &&& f.ent(e).kind == Kind::Edge
            &&& f.ent(e).id@ == rec@
            &&& f.ent(e).links() == Map::<RecordView, Path>::empty().insert(
                g.ent(origin).id@,
                Path::In(origin as usize),
            ).insert(g.ent(dest).id@, Path::Out(dest as usize))
            &&& origin != dest ==> f.ent(origin).links() == g.ent(origin).links().insert(
                rec@,
                Path::In(e as usize),
            )
            &&& origin != dest ==> f.ent(dest).links() == g.ent(dest).links().insert(
                rec@,
                Path::Out(e as usize),
            )
            &&& origin == dest ==> f.ent(dest).links() == g.ent(dest).links().insert(
                rec@,
                Path::Out(e as usize),
            )
            &&& f.live(origin) && f.live(dest)
            &&& f.ent(origin).id == g.ent(origin).id && f.ent(origin).fields == g.ent(origin).fields
            &&& f.ent(dest).id == g.ent(dest).id && f.ent(dest).fields == g.ent(dest).fields
            &&& forall|x: int|
                0 <= x < e && x != origin && x != dest ==> #[trigger] f.entities@[x]
                    == g.entities@[x]
        },
        Err(err) => {
            &&& f == g
            &&& match err {
                Error::EntityGone => !g.live(dest) || !g.live(origin),
                Error::NotANode => g.live(dest) && g.live(origin) && (g.ent(dest).kind
                    != Kind::Node || g.ent(origin).kind != Kind::Node),
                Error::EdgeIdTaken => g.live(dest) && g.live(origin) && g.ent(dest).kind
                    == Kind::Node && g.ent(origin).kind == Kind::Node,
                _ => false,
            }
        },
    }
}

pub open spec fn listed(s: Seq<usize>, i: int, x: int) -> bool {
    exists|j: int| 0 <= j < i && #[trigger] s[j] == x
}

/// What deleting the edge at `e` did: its slot is empty; every other
/// entity is as it was but for forgetting the edge's record.
pub open spec fn edge_deleted(g: Graph, f: Graph, e: int) -> bool {
    &&& f.entities@.len() == g.entities@.len()
    &&& f.tables == g.tables
    &&& !f.live(e)
    &&& forall|x: int| x != e ==> #[trigger] f.live(x) == g.live(x)
    &&& forall|x: int|
        #[trigger] g.live(x) && x != e ==> {
            &&& f.ent(x).kind == g.ent(x).kind
            &&& f.ent(x).id == g.ent(x).id
            &&& f.ent(x).fields == g.ent(x).fields
            &&& f.ent(x).links() == g.ent(x).links().remove(g.ent(e).id@)
        }
}

/// Relies on rayon's `par_iter`, `map` and `collect_into_vec`: the vector
/// receives the mapped items of an indexed parallel iterator in the order of
/// the slice.
#[verifier::external_body]
fn row_handles(rows: &Vec<(Id, usize)>) -> (r: Vec<usize>)
    ensures
        r@ == Seq::new(rows@.len(), |i: int| rows@[i].1),
{
    let mut out: Vec<usize> = Vec::new();
    rows.par_iter().map(|row| row.1).collect_into_vec(&mut out);
    out
}

/// The handles of `hs` that name live entities, in order.
pub open spec fn live_only(g: Graph, hs: Seq<usize>) -> Seq<usize>
    decreases hs.len(),
{
    if hs.len() == 0 {
        Seq::empty()
    } else if g.live(hs.last() as int) {
        live_only(g, hs.drop_last()).push(hs.last())
    } else {
        live_only(g, hs.drop_last())
    }
}

/// The records of the first `i` entries of an adjacency list.
pub open spec fn key_prefix(adj: Seq<(RecordView, Path)>, i: int) -> Set<RecordView> {
    Set::new(|k: RecordView| exists|j: int| 0 <= j < i && #[trigger] adj[j].0 == k)
}

/// The handles of an adjacency list name live edges with the records under
/// which they are held.
pub open spec fn held_edges(g: Graph, adj: Seq<(RecordView, Path)>, nbrs: Seq<usize>) -> bool {
    forall|j: int|
        0 <= j < adj.len() ==> #[trigger] g.live(nbrs[j] as int) && g.ent(nbrs[j] as int).id@
            == adj[j].0 && g.ent(nbrs[j] as int).kind == Kind::Edge
}

/// Whether the entity at `x` is held as a neighbour by the entity at `h`.
pub open spec fn is_neighbour(g: Graph, h: int, x: int) -> bool {
    exists|k: RecordView| #[trigger] g.ent(h).links().contains_key(k) && handle_of(g.ent(h).links()[k]) == x
}

/// What deleting the node at `h` did: its slot is empty, and so are the
/// slots of the edges it held; every other entity is as it was but for
/// forgetting the records of those edges.
pub open spec fn node_deleted(g: Graph, f: Graph, h: int) -> bool {
    &&& f.entities@.len() == g.entities@.len()
    &&& f.tables == g.tables
    &&& !f.live(h)
    &&& forall|x: int| #[trigger] is_neighbour(g, h, x) ==> !f.live(x)
    &&& forall|x: int| x != h && !is_neighbour(g, h, x) ==> #[trigger] f.live(x) == g.live(x)
    &&& forall|x: int|
        #[trigger] g.live(x) && x != h && !is_neighbour(g, h, x) ==> {
            &&& f.ent(x).kind == g.ent(x).kind
            &&& f.ent(x).id == g.ent(x).id
            &&& f.ent(x).fields == g.ent(x).fields
            &&& f.ent(x).links() == g.ent(x).links().remove_keys(g.ent(h).links().dom())
        }
}

/// The result of a get with evaluation errors told apart from the others.
pub open spec fn lift_eval(r: Result<Option<Object>, Error>) -> Result<Option<Object>, crate::error::EvalError> {
    match r {
        Ok(v) => Ok(v),
        Err(Error::Evaluation(x)) => Err(x),
        Err(_) => Err(crate::error::EvalError::InvalidIdiom),
    }
}

/// Only the fields of the entity at `h` changed; it stays well formed.
pub open spec fn fields_changed(g: Graph, f: Graph, h: int) -> bool {
    &&& f.entities@.len() == g.entities@.len()
    &&& f.tables == g.tables
    &&& forall|x: int| 0 <= x < g.entities@.len() && x != h ==> #[trigger] f.entities@[x] == g.entities@[x]
    &&& f.live(h)
    &&& f.ent(h).wf()
    &&& f.ent(h).kind == g.ent(h).kind
    &&& f.ent(h).id == g.ent(h).id
    &&& f.ent(h).edges == g.ent(h).edges
}

pub proof fn lemma_fields_changed_wf(g: Graph, f: Graph, h: int)
    requires
        g.wf(),
        g.live(h),
        fields_changed(g, f, h),
    ensures
        f.wf(),
{
    assert forall|x: int| #[trigger] f.live(x) == g.live(x) by {
        if x != h && 0 <= x < g.entities@.len() {
            assert(f.entities@[x] == g.entities@[x]);
        }
    }
    assert forall|x: int| #[trigger] f.live(x) implies f.ent(x).kind == g.ent(x).kind && f.ent(x).id == g.ent(x).id && f.ent(x).links() == g.ent(x).links() && f.ent(x).wf() by {
        if x != h {
            assert(f.entities@[x] == g.entities@[x]);
        } else {
            assert(f.ent(x).adjacency() =~= g.ent(x).adjacency());
        }
    }
}

impl Graph {
    pub open spec fn live(&self, h: int) -> bool {
        0 <= h < self.entities@.len() && self.entities@[h] is Some
    }

    pub open spec fn ent(&self, h: int) -> Entity {
        self.entities@[h]->0
    }

    pub open spec fn id_taken(&self, r: RecordView) -> bool {
        exists|h: int| self.live(h) && #[trigger] self.ent(h).id@ == r
    }

    pub open spec fn table_named(&self, name: Seq<char>) -> bool {
        exists|t: int| 0 <= t < self.tables@.len() && #[trigger] self.tables@[t].name@ == name
    }

    /// Each table holds each id once; table names are distinct. Every live
    /// entity is well formed; live entities have distinct records;
    /// every neighbour held is live, holds the record it is held under, is of
    /// the other kind, and holds this entity back under its record.
    pub open spec fn wf(&self) -> bool {
        &&& forall|h: int| #[trigger] self.live(h) ==> self.ent(h).wf()
        &&& forall|t: int| 0 <= t < self.tables@.len() ==> keys_unique(#[trigger] self.tables@[t].keys())
        &&& forall|t1: int, t2: int|
            0 <= t1 < t2 < self.tables@.len() ==> #[trigger] self.tables@[t1].name@
                != #[trigger] self.tables@[t2].name@
        &&& forall|h1: int, h2: int|
            #[trigger] self.live(h1) && #[trigger] self.live(h2) && h1 != h2 ==> self.ent(h1).id@
                != self.ent(h2).id@
        &&& forall|h: int, k: RecordView|
            #[trigger] self.live(h) && #[trigger] self.ent(h).links().contains_key(k) ==> {
                let t = handle_of(self.ent(h).links()[k]) as int;
                &&& self.live(t)
                &&& self.ent(t).id@ == k
                &&& self.ent(t).kind != self.ent(h).kind
                &&& self.ent(t).links().contains_key(self.ent(h).id@)
                &&& handle_of(self.ent(t).links()[self.ent(h).id@]) == h
            }
    }

    pub fn new() -> (r: Graph)
        ensures
            r.wf(),
            r.tables@.len() == 0,
            r.entities@.len() == 0,
    {
        Graph { tables: Vec::new(), entities: Vec::new() }
    }

    /// The position of the table of this name, if it is defined.
    pub fn table_position(&self, name: &str) -> (r: Option<usize>)
        ensures
            match r {
                Some(t) => t < self.tables@.len() && self.tables@[t as int].name@ == name@,
                None => !self.table_named(name@),
            },
    {
        let wanted = name.to_owned();
        let mut i: usize = 0;
        while i < self.tables.len()
            invariant
                wanted@ == name@,
                i <= self.tables.len(),
                forall|j: int| 0 <= j < i ==> self.tables@[j].name@ != name@,
            decreases self.tables.len() - i,
        {
            if self.tables[i].name == wanted {
                return Some(i);
            }
            i = i + 1;
        }
        None
    }

    /// Defines an empty table; fails if a table of this name exists.
    pub fn define(&mut self, name: String) -> (r: Result<(), Error>)
        requires
            old(self).wf(),
        ensures
            final(self).wf(),
            match r {
                Ok(()) => !old(self).table_named(name@) && final(self).tables@.len()
                    == old(self).tables@.len() + 1 && final(self).tables@.last().name@ == name@
                    && final(self).tables@.last().keys().len() == 0,
                Err(Error::DefineError(n)) => old(self).table_named(name@) && n@ == name@
                    && final(self).tables == old(self).tables,
                Err(_) => false,
            },
            final(self).entities == old(self).entities,
            forall|t: int| 0 <= t < old(self).tables@.len() ==> final(self).tables@[t] == old(self).tables@[t],
    {
        match self.table_position(name.as_str()) {
            Some(_) => Err(Error::DefineError(name)),
            None => {
                let ghost before = *self;
                self.tables.push(Table::new(name));
                proof {
                    assert forall|x: int| #[trigger] self.live(x) == before.live(x) by {}
                    assert forall|t1: int, t2: int| 0 <= t1 < t2 < self.tables@.len() implies #[trigger] self.tables@[t1].name@ != #[trigger] self.tables@[t2].name@ by {
                        if t2 == before.tables@.len() {
                            assert(before.tables@[t1].name@ != self.tables@[t2].name@);
                        } else {
                            assert(self.tables@[t1] == before.tables@[t1]);
                            assert(self.tables@[t2] == before.tables@[t2]);
                        }
                    }
                }
                Ok(())
            },
        }
    }

    /// Relates the origin node to the destination node by a new edge of the
    /// edge table whose id is a fresh random UUID; returns the edge's record.
    /// It succeeds on two live nodes unless the drawn UUID is already the id
    /// of a live entity of the edge table.
    pub fn relate(&mut self, dest: usize, edge: String, fields: Vec<(String, Value)>, origin: usize) -> (r: Result<Record, Error>)
        requires
            old(self).wf(),
        ensures
            final(self).wf(),
            related(*old(self), *final(self), r, dest as int, edge@, entry_models(fields@), origin as int),
            (old(self).live(dest as int) && old(self).live(origin as int) && old(self).ent(dest as int).kind
                == Kind::Node && old(self).ent(origin as int).kind == Kind::Node && forall|h: int|
                #[trigger] old(self).live(h) ==> !(old(self).ent(h).id@.table == edge@ && old(
                self,
            ).ent(h).id@.id is Uuid)) ==> r is Ok,
            r == Err::<Record, Error>(Error::EdgeIdTaken) ==> exists|u: u128|
                old(self).id_taken(RecordView { table: edge@, id: IdView::Uuid(u) }),
    {
        let key = Uuid::new_v4();
        let ghost g = *self;
        let r = self.relate_with_key(dest, edge, fields, origin, key);
        proof {
            if r == Err::<Record, Error>(Error::EdgeIdTaken) {
                assert(g.id_taken(RecordView { table: edge@, id: IdView::Uuid(key.0) }));
            }
        }
        r
    }

    /// Relates the origin node to the destination node by a new edge of
    /// record (edge table, key), stored in the next slot; the edge holds both
    /// nodes, and each node holds the edge (the origin as `In`, the
    /// destination as `Out`). Fails if either handle is not a live node, or
    /// if the record is taken.
    pub fn relate_with_key(
        &mut self,
        dest: usize,
        edge: String,
        fields: Vec<(String, Value)>,
        origin: usize,
        key: Uuid,
    ) -> (r: Result<Record, Error>)
        requires
            old(self).wf(),
        ensures
            final(self).wf(),
            related(*old(self), *final(self), r, dest as int, edge@, entry_models(fields@), origin as int),
            (old(self).live(dest as int) && old(self).live(origin as int) && old(self).ent(dest as int).kind == Kind::Node
                && old(self).ent(origin as int).kind == Kind::Node && !old(self).id_taken(
                RecordView { table: edge@, id: IdView::Uuid(key.0) },
            )) ==> r is Ok && r->Ok_0@ == (RecordView { table: edge@, id: IdView::Uuid(key.0) }),
            r == Err::<Record, Error>(Error::EdgeIdTaken) ==> old(self).id_taken(
                RecordView { table: edge@, id: IdView::Uuid(key.0) },
            ),
            (old(self).live(dest as int) && old(self).live(origin as int) && old(self).ent(dest as int).kind == Kind::Node
                && old(self).ent(origin as int).kind == Kind::Node && old(self).id_taken(
                RecordView { table: edge@, id: IdView::Uuid(key.0) },
            )) ==> r == Err::<Record, Error>(Error::EdgeIdTaken),
    {
        if dest >= self.entities.len() || origin >= self.entities.len() {
            return Err(Error::EntityGone);
        }
        let (dest_id, dest_node) = match &self.entities[dest] {
            Some(e) => (e.id.duplicate(), e.is_node()),
            None => {
                return Err(Error::EntityGone);
            },
        };
        let (org_id, org_node) = match &self.entities[origin] {
            Some(e) => (e.id.duplicate(), e.is_node()),
            None => {
                return Err(Error::EntityGone);
            },
        };
        assert(self.live(dest as int));
        assert(self.live(origin as int));
        if !dest_node || !org_node {
            return Err(Error::NotANode);
        }
        let rec = Record::new(edge.clone(), Id::Uuid(key));
        if self.record_taken(&rec) {
            return Err(Error::EdgeIdTaken);
        }
        let e = self.entities.len();
        let ghost dest_id_v = dest_id@;
        let ghost org_id_v = org_id@;
        let entity = Entity::new_edge(edge, key, dest_id, org_id, dest, origin, fields);
        let ghost before = *self;
        let ghost new_ent = entity;
        self.entities.push(Some(entity));
        let ghost pushed = *self;
        assert(pushed.ent(e as int) == new_ent);
        assert(before.live(origin as int) && before.ent(origin as int).wf());
        assert(self.ent(origin as int) == before.ent(origin as int));
        self.bind_at(origin, rec.duplicate(), Path::In(e));
        let ghost mid = *self;
        assert(before.live(dest as int) && before.ent(dest as int).wf());
        assert(dest != origin ==> self.ent(dest as int) == before.ent(dest as int));
        self.bind_at(dest, rec.duplicate(), Path::Out(e));
        proof {
            let o = origin as int;
            let d = dest as int;
            let ei = e as int;
            let recv = rec@;
            assert forall|x: int| #[trigger] self.live(x) implies x == ei || before.live(x) by {}
            assert forall|x: int| before.live(x) && x != o && x != d implies #[trigger] self.live(x) && self.ent(x) == before.ent(x) by {
                assert(mid.entities@[x] == pushed.entities@[x]);
            }
            assert(self.ent(ei) == pushed.ent(ei));
            assert(self.ent(ei).links() == new_ent.links());
            assert(dest_id_v == before.ent(d).id@ && org_id_v == before.ent(o).id@);
            assert(before.ent(d).links().insert(recv, Path::In(e)).insert(recv, Path::Out(e)) =~= before.ent(d).links().insert(recv, Path::Out(e)));
            assert forall|x: int| x == o || x == d implies #[trigger] self.live(x) && self.ent(x).id == before.ent(x).id && self.ent(x).kind == before.ent(x).kind
                && self.ent(x).links() == (if o == d { before.ent(x).links().insert(recv, Path::In(e)).insert(recv, Path::Out(e)) } else if x == o { before.ent(x).links().insert(recv, Path::In(e)) } else { before.ent(x).links().insert(recv, Path::Out(e)) }) by {}
            assert forall|x: int| #[trigger] self.live(x) implies self.ent(x).wf() by {
                if x != ei && x != o && x != d {
                    assert(before.live(x));
                }
            }
            assert forall|h1: int, h2: int| #[trigger] self.live(h1) && #[trigger] self.live(h2) && h1 != h2 implies self.ent(h1).id@ != self.ent(h2).id@ by {
                if h1 == ei {
                    assert(before.live(h2));
                    assert(self.ent(h2).id@ == before.ent(h2).id@);
                } else if h2 == ei {
                    assert(before.live(h1));
                    assert(self.ent(h1).id@ == before.ent(h1).id@);
                } else {
                    assert(before.live(h1) && before.live(h2));
                }
            }
            assert forall|h: int, k: RecordView| #[trigger] self.live(h) && #[trigger] self.ent(h).links().contains_key(k) implies ({
                let t = handle_of(self.ent(h).links()[k]) as int;
                &&& self.live(t)
                &&& self.ent(t).id@ == k
                &&& self.ent(t).kind != self.ent(h).kind
                &&& self.ent(t).links().contains_key(self.ent(h).id@)
                &&& handle_of(self.ent(t).links()[self.ent(h).id@]) == h
            }) by {
                if h == ei {
                    assert(k == before.ent(o).id@ || k == before.ent(d).id@);
                } else {
                    assert(before.live(h));
                    if k == recv {
                        assert(h == o || h == d);
                    } else {
                        assert(before.ent(h).links().contains_key(k));
                        let t = handle_of(before.ent(h).links()[k]) as int;
                        assert(before.live(t));
                        assert(before.ent(h).id@ != recv);
                    }
                }
            }
        }
        Ok(rec)
    }

    /// Adds a node of record (table, id) with the fields, plus `id` bound to
    /// its record, and returns its fields. Fails if no such table is defined,
    /// or if the id was ever used in the table or a live entity has that
    /// record.
    pub fn create(&mut self, table: &str, id: Id, fields: Vec<(String, Value)>) -> (r: Result<
        Object,
        Error,
    >)
        requires
            old(self).wf(),
        ensures
            final(self).wf(),
            created(*old(self), *final(self), table@, id@, entry_models(fields@), r),
    {
        let t = match self.table_position(table) {
            Some(t) => t,
            None => {
                return Err(Error::InvalidTable(table.to_owned()));
            },
        };
        let rec = Record::new(table.to_owned(), id.duplicate());
        if self.tables[t].contains(&id) || self.record_taken(&rec) {
            return Err(Error::CreateError { table: table.to_owned(), id });
        }
        let node = Entity::new_node(rec, fields);
        let out = node.fields.duplicate();
        let h = self.entities.len();
        let ghost before = *self;
        self.entities.push(Some(node));
        proof {
            assert forall|x: int| #[trigger] self.live(x) && x != h implies before.live(x) && self.ent(x) == before.ent(x) by {}
        }
        self.tables[t].insert(id, h);
        proof {
            assert forall|x: int| #[trigger] self.live(x) && x != h implies before.live(x) && self.ent(x) == before.ent(x) by {}
            assert(self.live(h as int));
            assert forall|t1: int, t2: int| 0 <= t1 < t2 < self.tables@.len() implies #[trigger] self.tables@[t1].name@ != #[trigger] self.tables@[t2].name@ by {
                assert(self.tables@[t1].name == before.tables@[t1].name);
                assert(self.tables@[t2].name == before.tables@[t2].name);
            }
            assert forall|t2: int| 0 <= t2 < before.tables@.len() && #[trigger] before.tables@[t2].name@ == table@ implies t2 == t by {
                if t2 != t {
                    assert(before.tables@[t as int].name@ == table@);
                }
            }
        }
        Ok(out)
    }

    /// Records a neighbour in the entity at `h`.
    fn bind_at(&mut self, h: usize, id: Record, path: Path)
        requires
            old(self).live(h as int),
            old(self).ent(h as int).wf(),
        ensures
            final(self).entities@.len() == old(self).entities@.len(),
            final(self).tables == old(self).tables,
            forall|x: int| 0 <= x < old(self).entities@.len() && x != h ==> final(self).entities@[x] == old(self).entities@[x],
            final(self).live(h as int),
            final(self).ent(h as int).wf(),
            final(self).ent(h as int).links() == old(self).ent(h as int).links().insert(id@, path),
            final(self).ent(h as int).kind == old(self).ent(h as int).kind,
            final(self).ent(h as int).id == old(self).ent(h as int).id,
            final(self).ent(h as int).fields == old(self).ent(h as int).fields,
    {
        let mut slot = self.entities[h].take();
        match &mut slot {
            Some(e) => e.bind(id, path),
            None => {},
        }
        self.entities.set(h, slot);
    }

    /// Forgets the neighbour held for the record in the entity at `h`.
    fn unbind_at(&mut self, h: usize, id: &Record)
        requires
            old(self).live(h as int),
            old(self).ent(h as int).wf(),
        ensures
            final(self).entities@.len() == old(self).entities@.len(),
            final(self).tables == old(self).tables,
            forall|x: int| 0 <= x < old(self).entities@.len() && x != h ==> final(self).entities@[x] == old(self).entities@[x],
            final(self).live(h as int),
            final(self).ent(h as int).wf(),
            final(self).ent(h as int).links() == old(self).ent(h as int).links().remove(id@),
            final(self).ent(h as int).kind == old(self).ent(h as int).kind,
            final(self).ent(h as int).id == old(self).ent(h as int).id,
            final(self).ent(h as int).fields == old(self).ent(h as int).fields,
    {
        let mut slot = self.entities[h].take();
        match &mut slot {
            Some(e) => e.unbind(id),
            None => {},
        }
        self.entities.set(h, slot);
    }

    /// Deletes the live edge at `e`: every entity forgets the edge's record,
    /// and the edge's slot is emptied.
    fn delete_edge_at(&mut self, e: usize)
        requires
            old(self).wf(),
            old(self).live(e as int),
            old(self).ent(e as int).kind == Kind::Edge,
        ensures
            final(self).wf(),
            edge_deleted(*old(self), *final(self), e as int),
    {
        let ghost g = *self;
        let ghost eid = self.ent(e as int).id@;
        let mut nbrs: Vec<usize> = Vec::new();
        let rec = match &self.entities[e] {
            Some(ent) => {
                let mut i: usize = 0;
                while i < ent.edges.len()
                    invariant
                        i <= ent.edges.len(),
                        nbrs@.len() == i,
                        forall|j: int| 0 <= j < i ==> nbrs@[j] == handle_of(ent.adjacency()[j].1),
                    decreases ent.edges.len() - i,
                {
                    nbrs.push(ent.edges[i].1.edge());
                    i = i + 1;
                }
                ent.id.duplicate()
            },
            None => {
                return;
            },
        };
        let mut i: usize = 0;
        while i < nbrs.len()
            invariant
                g.wf(),
                g.live(e as int),
                eid == g.ent(e as int).id@,
                rec@ == eid,
                nbrs@.len() == g.ent(e as int).adjacency().len(),
                forall|j: int| 0 <= j < nbrs@.len() ==> nbrs@[j] == handle_of(g.ent(e as int).adjacency()[j].1),
                i <= nbrs.len(),
                self.entities@.len() == g.entities@.len(),
                self.tables == g.tables,
                self.entities@[e as int] == g.entities@[e as int],
                forall|x: int| #[trigger] self.live(x) == g.live(x),
                forall|x: int| #[trigger] g.live(x) && x != e ==> {
                    &&& self.ent(x).wf()
                    &&& self.ent(x).kind == g.ent(x).kind
                    &&& self.ent(x).id == g.ent(x).id
                    &&& self.ent(x).fields == g.ent(x).fields
                    &&& self.ent(x).links() == (if listed(nbrs@, i as int, x) {
                        g.ent(x).links().remove(eid)
                    } else {
                        g.ent(x).links()
                    })
                },
            decreases nbrs.len() - i,
        {
            let n = nbrs[i];
            let ghost cur = *self;
            let ghost mut took = false;
            if n < self.entities.len() && n != e {
                let alive = match &self.entities[n] {
                    Some(_) => true,
                    None => false,
                };
                if alive {
                    assert(self.live(n as int));
                    assert(g.live(n as int));
                    self.unbind_at(n, &rec);
                    proof {
                        took = true;
                        assert(g.ent(n as int).links().remove(eid).remove(eid) =~= g.ent(n as int).links().remove(eid));
                    }
                }
            }
            proof {
                assert forall|x: int| #[trigger] g.live(x) && x != e implies listed(nbrs@, i + 1, x) == (listed(nbrs@, i as int, x) || x == n) by {
                    if listed(nbrs@, i as int, x) {
                        let j = choose|j: int| 0 <= j < i && nbrs@[j] == x;
                        assert(0 <= j < i + 1 && nbrs@[j] == x);
                    }
                    if x == n {
                        assert(nbrs@[i as int] == x);
                    }
                }
                assert forall|x: int| #[trigger] self.live(x) == g.live(x) by {
                    assert(cur.live(x) == g.live(x));
                    if x != n {
                        if 0 <= x < self.entities@.len() {
                            assert(self.entities@[x] == cur.entities@[x]);
                        }
                    } else if took {
                        assert(self.live(x));
                    }
                }
                assert(!took ==> *self == cur);
                assert forall|x: int| #[trigger] g.live(x) && x != e implies {
                    &&& self.ent(x).wf()
                    &&& self.ent(x).kind == g.ent(x).kind
                    &&& self.ent(x).id == g.ent(x).id
                    &&& self.ent(x).fields == g.ent(x).fields
                    &&& self.ent(x).links() == (if listed(nbrs@, i + 1, x) {
                        g.ent(x).links().remove(eid)
                    } else {
                        g.ent(x).links()
                    })
                } by {
                    if x == n {
                        assert(cur.live(x));
                        assert(took);
                        assert(g.ent(x).links().remove(eid).remove(eid) =~= g.ent(x).links().remove(eid));
                    } else {
                        if took {
                            assert(self.entities@[x] == cur.entities@[x]);
                        }
                    }
                }
            }
            i = i + 1;
        }
        let ghost before_clear = *self;
        self.entities.set(e, None);
        proof {
            assert forall|x: int| #[trigger] g.live(x) && x != e implies self.live(x) && self.ent(x) == before_clear.ent(x) by {
                assert(before_clear.live(x));
            }
            // every entity that holds the edge is one of its neighbours
            assert forall|x: int| #[trigger] g.live(x) && x != e && g.ent(x).links().contains_key(eid) implies listed(nbrs@, nbrs@.len() as int, x) by {
                let t = handle_of(g.ent(x).links()[eid]) as int;
                assert(g.live(t) && g.ent(t).id@ == eid);
                assert(t == e);
                let xid = g.ent(x).id@;
                assert(g.ent(e as int).links().contains_key(xid));
                lemma_assoc_dom(g.ent(e as int).adjacency(), xid);
                let j = choose|j: int| 0 <= j < g.ent(e as int).adjacency().len() && g.ent(e as int).adjacency()[j].0 == xid;
                lemma_assoc_at(g.ent(e as int).adjacency(), j);
                assert(nbrs@[j] == x);
            }
            assert forall|x: int| #[trigger] g.live(x) && x != e implies self.ent(x).links() == g.ent(x).links().remove(eid) by {
                if !listed(nbrs@, nbrs@.len() as int, x) {
                    assert(!g.ent(x).links().contains_key(eid));
                    assert(g.ent(x).links().remove(eid) =~= g.ent(x).links());
                }
            }
            assert forall|x: int| #[trigger] self.live(x) implies x != e && g.live(x) by {
                if x != e {
                    assert(before_clear.live(x));
                }
            }
            assert forall|h: int, k: RecordView| #[trigger] self.live(h) && #[trigger] self.ent(h).links().contains_key(k) implies ({
                let t = handle_of(self.ent(h).links()[k]) as int;
                &&& self.live(t)
                &&& self.ent(t).id@ == k
                &&& self.ent(t).kind != self.ent(h).kind
                &&& self.ent(t).links().contains_key(self.ent(h).id@)
                &&& handle_of(self.ent(t).links()[self.ent(h).id@]) == h
            }) by {
                assert(g.live(h) && h != e);
                assert(g.ent(h).links().contains_key(k) && k != eid);
                let t = handle_of(g.ent(h).links()[k]) as int;
                assert(g.live(t));
                assert(t != e);
                assert(g.ent(h).id@ != eid);
            }
        }
    }

    /// Deletes the entity at `h`. Deleting an edge makes both its endpoints
    /// forget it. Deleting a node first deletes every edge it holds, then
    /// the node. Fails if `h` is not a live entity.
    pub fn delete(&mut self, h: usize) -> (r: Result<(), Error>)
        requires
            old(self).wf(),
        ensures
            final(self).wf(),
            !old(self).live(h as int) ==> r == Err::<(), Error>(Error::EntityGone) && *final(self) == *old(self),
            old(self).live(h as int) ==> r == Ok::<(), Error>(()) && (if old(self).ent(h as int).kind == Kind::Edge {
                edge_deleted(*old(self), *final(self), h as int)
            } else {
                node_deleted(*old(self), *final(self), h as int)
            }),
    {
        if h >= self.entities.len() {
            return Err(Error::EntityGone);
        }
        let is_edge = match &self.entities[h] {
            Some(ent) => ent.is_edge(),
            None => {
                return Err(Error::EntityGone);
            },
        };
        if is_edge {
            self.delete_edge_at(h);
            return Ok(());
        }
        let ghost g = *self;
        let ghost adj = self.ent(h as int).adjacency();
        let mut nbrs: Vec<usize> = Vec::new();
        match &self.entities[h] {
            Some(ent) => {
                let mut i: usize = 0;
                while i < ent.edges.len()
                    invariant
                        i <= ent.edges.len(),
                        nbrs@.len() == i,
                        forall|j: int| 0 <= j < i ==> nbrs@[j] == handle_of(ent.adjacency()[j].1),
                    decreases ent.edges.len() - i,
                {
                    nbrs.push(ent.edges[i].1.edge());
                    i = i + 1;
                }
                assert(ent.adjacency() == adj);
            },
            None => {},
        }
        proof {
            assert(g.live(h as int));
            assert(g.ent(h as int).wf());
            assert forall|j: int| 0 <= j < adj.len() implies #[trigger] g.live(nbrs@[j] as int) && g.ent(nbrs@[j] as int).id@ == adj[j].0 && g.ent(nbrs@[j] as int).kind == Kind::Edge by {
                lemma_assoc_at(adj, j);
                let k = adj[j].0;
                assert(g.ent(h as int).links().contains_key(k));
                assert(handle_of(g.ent(h as int).links()[k]) == nbrs@[j]);
                assert(g.ent(h as int).kind == Kind::Node);
            }
            assert(nbrs@.len() == adj.len());
            assert(forall|j: int| 0 <= j < adj.len() ==> g.live(nbrs@[j] as int));
            assert(forall|j: int| 0 <= j < adj.len() ==> g.ent(nbrs@[j] as int).id@ == adj[j].0);
            assert(forall|j: int| 0 <= j < adj.len() ==> g.ent(nbrs@[j] as int).kind == Kind::Edge);
            assert(held_edges(g, adj, nbrs@));
        }
        let mut i: usize = 0;
        while i < nbrs.len()
            invariant
                g.wf(),
                g.live(h as int),
                g.ent(h as int).kind == Kind::Node,
                adj == g.ent(h as int).adjacency(),
                nbrs@.len() == adj.len(),
                forall|j: int| 0 <= j < nbrs@.len() ==> nbrs@[j] == handle_of(adj[j].1),
                held_edges(g, adj, nbrs@),
                i <= nbrs.len(),
                self.wf(),
                self.entities@.len() == g.entities@.len(),
                self.tables == g.tables,
                forall|j: int| 0 <= j < i ==> !(#[trigger] self.live(nbrs@[j] as int)),
                forall|x: int| !listed(nbrs@, i as int, x) ==> #[trigger] self.live(x) == g.live(x),
                forall|x: int| #[trigger] g.live(x) && !listed(nbrs@, i as int, x) ==> {
                    &&& self.ent(x).kind == g.ent(x).kind
                    &&& self.ent(x).id == g.ent(x).id
                    &&& self.ent(x).fields == g.ent(x).fields
                    &&& self.ent(x).links() == g.ent(x).links().remove_keys(key_prefix(adj, i as int))
                },
            decreases nbrs.len() - i,
        {
            let x = nbrs[i];
            proof {
                assert(!listed(nbrs@, i as int, x as int)) by {
                    if listed(nbrs@, i as int, x as int) {
                        let j = choose|j: int| 0 <= j < i && nbrs@[j] == x as int;
                        assert(g.live(nbrs@[j] as int));
                        assert(g.live(nbrs@[i as int] as int));
                        assert(g.ent(nbrs@[j] as int).id@ == adj[j].0);
                        assert(g.ent(nbrs@[i as int] as int).id@ == adj[i as int].0);
                        assert(keys_unique(adj));
                    }
                }
                assert(g.live(x as int));
                assert(self.live(x as int));
            }
            let ghost cur = *self;
            self.delete_edge_at(x);
            proof {
                let k = adj[i as int].0;
                assert(cur.ent(x as int).id@ == k);
                assert forall|y: int| !listed(nbrs@, i + 1, y) implies #[trigger] self.live(y) == g.live(y) by {
                    if listed(nbrs@, i as int, y) {
                        let j = choose|j: int| 0 <= j < i && nbrs@[j] == y;
                        assert(0 <= j < i + 1 && nbrs@[j] == y);
                    }
                    assert(cur.live(y) == g.live(y));
                }
                assert forall|j: int| 0 <= j < i + 1 implies !(#[trigger] self.live(nbrs@[j] as int)) by {
                    if j < i {
                        assert(!cur.live(nbrs@[j] as int));
                    }
                }
                assert forall|y: int| #[trigger] g.live(y) && !listed(nbrs@, i + 1, y) implies {
                    &&& self.ent(y).kind == g.ent(y).kind
                    &&& self.ent(y).id == g.ent(y).id
                    &&& self.ent(y).fields == g.ent(y).fields
                    &&& self.ent(y).links() == g.ent(y).links().remove_keys(key_prefix(adj, i + 1))
                } by {
                    if listed(nbrs@, i as int, y) {
                        let j = choose|j: int| 0 <= j < i && nbrs@[j] == y;
                        assert(0 <= j < i + 1 && nbrs@[j] == y);
                    }
                    if y == x {
                        assert(nbrs@[i as int] == y);
                    }
                    assert(cur.live(y));
                    assert(key_prefix(adj, i + 1) =~= key_prefix(adj, i as int).insert(k));
                    assert(g.ent(y).links().remove_keys(key_prefix(adj, i as int)).remove(k) =~= g.ent(y).links().remove_keys(key_prefix(adj, i + 1)));
                }
            }
            i = i + 1;
        }
        let ghost before_clear = *self;
        self.entities.set(h, None);
        proof {
            let hid = g.ent(h as int).id@;
            assert(key_prefix(adj, adj.len() as int) =~= g.ent(h as int).links().dom()) by {
                assert forall|k: RecordView| key_prefix(adj, adj.len() as int).contains(k) == g.ent(h as int).links().contains_key(k) by {
                    lemma_assoc_dom(adj, k);
                }
            }
            assert forall|y: int| #[trigger] listed(nbrs@, nbrs@.len() as int, y) == is_neighbour(g, h as int, y) by {
                if listed(nbrs@, nbrs@.len() as int, y) {
                    let j = choose|j: int| 0 <= j < nbrs@.len() && nbrs@[j] == y;
                    lemma_assoc_at(adj, j);
                    assert(g.ent(h as int).links().contains_key(adj[j].0));
                }
                if is_neighbour(g, h as int, y) {
                    let k = choose|k: RecordView| g.ent(h as int).links().contains_key(k) && handle_of(g.ent(h as int).links()[k]) == y;
                    lemma_assoc_dom(adj, k);
                    let j = choose|j: int| 0 <= j < adj.len() && adj[j].0 == k;
                    lemma_assoc_at(adj, j);
                    assert(nbrs@[j] == y);
                }
            }
            assert(!listed(nbrs@, nbrs@.len() as int, h as int)) by {
                if listed(nbrs@, nbrs@.len() as int, h as int) {
                    let j = choose|j: int| 0 <= j < nbrs@.len() && nbrs@[j] == h as int;
                    assert(g.ent(nbrs@[j] as int).kind == Kind::Edge);
                }
            }
            assert forall|y: int| #[trigger] self.live(y) implies y != h && g.live(y) && !listed(nbrs@, nbrs@.len() as int, y) by {
                if y != h {
                    assert(before_clear.live(y));
                    if listed(nbrs@, nbrs@.len() as int, y) {
                        let j = choose|j: int| 0 <= j < nbrs@.len() && nbrs@[j] == y;
                        assert(!before_clear.live(nbrs@[j] as int));
                    }
                }
            }
            assert forall|y: int| #[trigger] self.live(y) implies self.ent(y) == before_clear.ent(y) by {}
            assert forall|y: int| #[trigger] self.live(y) implies !self.ent(y).links().contains_key(hid) by {
                if g.ent(y).links().contains_key(hid) {
                    let t = handle_of(g.ent(y).links()[hid]) as int;
                    assert(g.live(t) && g.ent(t).id@ == hid);
                    assert(t == h);
                    let yid = g.ent(y).id@;
                    assert(g.ent(h as int).links().contains_key(yid));
                    assert(handle_of(g.ent(h as int).links()[yid]) == y);
                    assert(is_neighbour(g, h as int, y));
                }
            }
            assert forall|h1: int, k: RecordView| #[trigger] self.live(h1) && #[trigger] self.ent(h1).links().contains_key(k) implies ({
                let t = handle_of(self.ent(h1).links()[k]) as int;
                &&& self.live(t)
                &&& self.ent(t).id@ == k
                &&& self.ent(t).kind != self.ent(h1).kind
                &&& self.ent(t).links().contains_key(self.ent(h1).id@)
                &&& handle_of(self.ent(t).links()[self.ent(h1).id@]) == h1
            }) by {
                assert(before_clear.live(h1));
                assert(before_clear.ent(h1).links().contains_key(k));
                let t = handle_of(before_clear.ent(h1).links()[k]) as int;
                assert(before_clear.live(t));
                if t == h {
                    assert(before_clear.ent(t).id@ == k);
                    assert(before_clear.ent(t).id == g.ent(h as int).id);
                }
            }
            assert forall|h1: int| #[trigger] self.live(h1) implies self.ent(h1).wf() by {
                assert(before_clear.live(h1));
            }
            assert forall|h1: int, h2: int| #[trigger] self.live(h1) && #[trigger] self.live(h2) && h1 != h2 implies self.ent(h1).id@ != self.ent(h2).id@ by {
                assert(before_clear.live(h1) && before_clear.live(h2));
            }
            assert forall|y: int| y != h && !is_neighbour(g, h as int, y) implies #[trigger] self.live(y) == g.live(y) by {
                assert(!listed(nbrs@, nbrs@.len() as int, y));
                assert(before_clear.live(y) == g.live(y));
            }
            assert forall|y: int| #[trigger] is_neighbour(g, h as int, y) implies !self.live(y) by {
                assert(listed(nbrs@, nbrs@.len() as int, y));
                let j = choose|j: int| 0 <= j < nbrs@.len() && nbrs@[j] == y;
                assert(!before_clear.live(nbrs@[j] as int));
            }
        }
        Ok(())
    }

    /// Binds each name to its value in the fields of the entity at `h`, and
    /// returns its fields. Fails if `h` is not a live entity.
    pub fn update(&mut self, h: usize, fields: Vec<(String, Value)>) -> (r: Result<Object, Error>)
        requires
            old(self).wf(),
        ensures
            final(self).wf(),
            !old(self).live(h as int) ==> r == Err::<Object, Error>(Error::EntityGone) && *final(self) == *old(self),
            old(self).live(h as int) ==> match r {
                Ok(o) => fields_changed(*old(self), *final(self), h as int) && final(self).ent(h as int).field_map()
                    == insert_all(old(self).ent(h as int).field_map(), entry_models(fields@))
                    && o@ == final(self).ent(h as int).fields@,
                Err(_) => false,
            },
    {
        if h >= self.entities.len() {
            return Err(Error::EntityGone);
        }
        match &self.entities[h] {
            Some(_) => {},
            None => {
                return Err(Error::EntityGone);
            },
        }
        let ghost g = *self;
        assert(g.live(h as int));
        let mut slot = self.entities[h].take();
        let r = match &mut slot {
            Some(e) => Ok(e.update(fields)),
            None => Err(Error::EntityGone),
        };
        self.entities.set(h, slot);
        proof {
            lemma_fields_changed_wf(g, *self, h as int);
        }
        r
    }

    /// Removes the field from the entity at `h`, if it is there, and returns
    /// its fields. Fails if `h` is not a live entity.
    pub fn remove_field(&mut self, h: usize, name: &str) -> (r: Result<Object, Error>)
        requires
            old(self).wf(),
        ensures
            final(self).wf(),
            !old(self).live(h as int) ==> r == Err::<Object, Error>(Error::EntityGone) && *final(self) == *old(self),
            old(self).live(h as int) ==> match r {
                Ok(o) => fields_changed(*old(self), *final(self), h as int) && final(self).ent(h as int).field_map()
                    == old(self).ent(h as int).field_map().remove(name@)
                    && (!crate::object::has_key(old(self).ent(h as int).fields@, name@) ==> final(self).ent(h as int).fields == old(self).ent(h as int).fields)
                    && o@ == final(self).ent(h as int).fields@,
                Err(_) => false,
            },
    {
        if h >= self.entities.len() {
            return Err(Error::EntityGone);
        }
        match &self.entities[h] {
            Some(_) => {},
            None => {
                return Err(Error::EntityGone);
            },
        }
        let ghost g = *self;
        assert(g.live(h as int));
        let mut slot = self.entities[h].take();
        let r = match &mut slot {
            Some(e) => Ok(e.remove_field(name)),
            None => Err(Error::EntityGone),
        };
        self.entities.set(h, slot);
        proof {
            lemma_fields_changed_wf(g, *self, h as int);
        }
        r
    }

    /// The projection of the fields of the entity at `h`; `None` when the
    /// filter rejects it. Fails if `h` is not a live entity, or with the
    /// error of an expression.
    pub fn get(&self, h: usize, fields: &crate::query::Fields, filter: &Option<Value>) -> (r: Result<Option<Object>, Error>)
        requires
            self.wf(),
        ensures
            !self.live(h as int) ==> r == Err::<Option<Object>, Error>(Error::EntityGone),
            self.live(h as int) ==> crate::entity::get_matches(lift_eval(r), fields@, crate::query::filter_view(filter), self.ent(h as int).fields@),
    {
        if h >= self.entities.len() {
            return Err(Error::EntityGone);
        }
        match &self.entities[h] {
            Some(e) => match {
                assert(self.live(h as int));
                e.get(fields, filter)
            } {
                Ok(v) => Ok(v),
                Err(x) => Err(Error::Evaluation(x)),
            },
            None => Err(Error::EntityGone),
        }
    }

    /// Whether a live entity has this record.
    pub fn record_taken(&self, rec: &Record) -> (r: bool)
        ensures
            r == self.id_taken(rec@),
    {
        let mut h: usize = 0;
        while h < self.entities.len()
            invariant
                h <= self.entities.len(),
                forall|j: int| 0 <= j < h && self.live(j) ==> self.ent(j).id@ != rec@,
            decreases self.entities.len() - h,
        {
            match &self.entities[h] {
                Some(e) => {
                    if e.id.same(rec) {
                        assert(self.live(h as int) && self.ent(h as int).id@ == rec@);
                        return true;
                    }
                },
                None => {},
            }
            h = h + 1;
        }
        false
    }

    /// A snapshot of the live entities of the named table, in the order of
    /// their creation; `None` if no table has that name. The ids of deleted
    /// entities stay in the table's rows (they are never given out again),
    /// but a snapshot lists only the entities that are still live, so it can
    /// be shorter than the rows.
    pub fn retrieve_table(&self, name: &str) -> (r: Option<Vec<usize>>)
        ensures
            match r {
                Some(hs) => exists|t: int| 0 <= t < self.tables@.len() && #[trigger] self.tables@[t].name@ == name@
                    && hs@ == live_only(*self, Seq::new(self.tables@[t].rows@.len(), |i: int| self.tables@[t].rows@[i].1)),
                None => !self.table_named(name@),
            },
    {
        let t = match self.table_position(name) {
            Some(t) => t,
            None => {
                return None;
            },
        };
        let all = row_handles(&self.tables[t].rows);
        let mut out: Vec<usize> = Vec::new();
        let mut i: usize = 0;
        while i < all.len()
            invariant
                i <= all.len(),
                out@ == live_only(*self, all@.take(i as int)),
            decreases all.len() - i,
        {
            assert(all@.take(i + 1).drop_last() =~= all@.take(i as int));
            let h = all[i];
            if h < self.entities.len() {
                match &self.entities[h] {
                    Some(_) => {
                        out.push(h);
                    },
                    None => {},
                }
            }
            i = i + 1;
        }
        assert(all@.take(all@.len() as int) =~= all@);
        assert(self.tables@[t as int].name@ == name@);
        Some(out)
    }

    /// The handle of the live entity with this record, if there is one. Edges
    /// are found too, though no table lists them.
    pub fn retrieve_record(&self, rec: &Record) -> (r: Option<usize>)
        ensures
            match r {
                Some(h) => self.live(h as int) && self.ent(h as int).id@ == rec@,
                None => !self.id_taken(rec@),
            },
    {
        let mut h: usize = 0;
        while h < self.entities.len()
            invariant
                h <= self.entities.len(),
                forall|j: int| 0 <= j < h && self.live(j) ==> self.ent(j).id@ != rec@,
            decreases self.entities.len() - h,
        {
            match &self.entities[h] {
                Some(e) => {
                    if e.id.same(rec) {
                        return Some(h);
                    }
                },
                None => {},
            }
            h = h + 1;
        }
        None
    }
}

} // verus!
