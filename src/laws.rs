//! Laws of the graph operations, proved from their contracts.
use vstd::prelude::*;
use crate::assoc::holds_key;
use crate::entity::{Kind, Path, handle_of, id_key, in_key, out_key};
use crate::error::Error;
use crate::graph::{Graph, created, edge_deleted, is_neighbour, node_deleted, related};
use crate::ids::{IdView, Record, RecordView};
use crate::object::Object;
use crate::error::EvalError;
use crate::query::{FieldView, admits};
use crate::value::Model;
use crate::walk::{StepView, hop_of, hop_taken, walk_of};

verus! {

/// Relating two distinct nodes leaves both holding the new edge (the origin
/// as `In`, the destination as `Out`), and the edge holding both of them
/// with the same tags, with `in` and `out` fields naming the origin and the
/// destination.
pub proof fn relate_symmetry(
    g: Graph,
    f: Graph,
    r: Result<Record, Error>,
    dest: int,
    edge: Seq<char>,
    fields: Seq<(Seq<char>, Model)>,
    origin: int,
)
    requires
        g.wf(),
        related(g, f, r, dest, edge, fields, origin),
        r is Ok,
        origin != dest,
    ensures
        ({
            let e = g.entities@.len() as int;
            let rec = r->Ok_0@;
            &&& f.ent(origin).links().contains_key(rec)
            &&& f.ent(origin).links()[rec] == Path::In(e as usize)
            &&& f.ent(dest).links().contains_key(rec)
            &&& f.ent(dest).links()[rec] == Path::Out(e as usize)
            &&& f.ent(e).links().contains_key(g.ent(origin).id@)
            &&& f.ent(e).links()[g.ent(origin).id@] == Path::In(origin as usize)
            &&& f.ent(e).links().contains_key(g.ent(dest).id@)
            &&& f.ent(e).links()[g.ent(dest).id@] == Path::Out(dest as usize)
            &&& f.ent(e).field_map()[in_key()] == Model::Record(g.ent(origin).id@)
            &&& f.ent(e).field_map()[out_key()] == Model::Record(g.ent(dest).id@)
        }),
{
    assert(in_key() != id_key() && out_key() != id_key() && in_key() != out_key()) by {
        assert(in_key()[1] != id_key()[1]);
        assert(out_key().len() != id_key().len());
        assert(out_key().len() != in_key().len());
    }
    let e = g.entities@.len() as int;
    assert(g.ent(origin).id@ != g.ent(dest).id@);
}

/// Deleting node B, where A holds exactly e1 and e2, e1 links exactly A and
/// B, e2 links exactly A and C, and C holds exactly e2, leaves A holding
/// only e2 and does not touch C or e2.
pub proof fn cascading_delete_node(g: Graph, f: Graph, a: int, b: int, c: int, e1: int, e2: int)
    requires
        g.wf(),
        g.live(a) && g.live(b) && g.live(c) && g.live(e1) && g.live(e2),
        a != b && b != c && a != c && e1 != e2,
        g.ent(a).kind == Kind::Node && g.ent(b).kind == Kind::Node && g.ent(c).kind == Kind::Node,
        g.ent(a).links().dom() == set![g.ent(e1).id@, g.ent(e2).id@],
        g.ent(c).links().dom() == set![g.ent(e2).id@],
        g.ent(e1).links().dom() == set![g.ent(a).id@, g.ent(b).id@],
        g.ent(e2).links().dom() == set![g.ent(a).id@, g.ent(c).id@],
        node_deleted(g, f, b),
    ensures
        !f.live(b),
        !f.live(e1),
        f.live(a) && f.ent(a).links().dom() == set![g.ent(e2).id@],
        f.live(c) && f.ent(c).links() == g.ent(c).links() && f.ent(c).fields == g.ent(c).fields,
        f.live(e2) && f.ent(e2).links() == g.ent(e2).links() && f.ent(e2).fields == g.ent(e2).fields,
{
    let bid = g.ent(b).id@;
    let id1 = g.ent(e1).id@;
    let id2 = g.ent(e2).id@;
    // b holds e1
    assert(g.ent(e1).links().contains_key(bid));
    let t1 = handle_of(g.ent(e1).links()[bid]) as int;
    assert(t1 == b);
    assert(g.ent(b).links().contains_key(id1));
    assert(handle_of(g.ent(b).links()[id1]) == e1);
    assert(is_neighbour(g, b, e1));
    // b does not hold e2
    assert(!g.ent(b).links().contains_key(id2)) by {
        if g.ent(b).links().contains_key(id2) {
            let t = handle_of(g.ent(b).links()[id2]) as int;
            assert(g.ent(t).id@ == id2);
            assert(t == e2);
            assert(g.ent(e2).links().contains_key(bid));
            assert(bid == g.ent(a).id@ || bid == g.ent(c).id@);
        }
    }
    // the neighbours of b are edges, and e2 is not one of them
    assert forall|x: int| x == a || x == c || x == e2 implies !is_neighbour(g, b, x) by {
        if is_neighbour(g, b, x) {
            let k = choose|k: RecordView| #[trigger] g.ent(b).links().contains_key(k) && handle_of(g.ent(b).links()[k]) == x;
            assert(g.live(x) && g.ent(x).id@ == k && g.ent(x).kind != g.ent(b).kind);
        }
    }
    assert(f.live(a) == g.live(a));
    assert(f.live(c) == g.live(c));
    assert(f.live(e2) == g.live(e2));
    assert(f.ent(a).links().dom() =~= set![id2]) by {
        assert(f.ent(a).links() == g.ent(a).links().remove_keys(g.ent(b).links().dom()));
    }
    assert(f.ent(c).links() =~= g.ent(c).links()) by {
        assert(f.ent(c).links() == g.ent(c).links().remove_keys(g.ent(b).links().dom()));
        assert(!g.ent(b).links().dom().contains(id2));
    }
    assert(f.ent(e2).links() =~= g.ent(e2).links()) by {
        assert(f.ent(e2).links() == g.ent(e2).links().remove_keys(g.ent(b).links().dom()));
        assert forall|k: RecordView| g.ent(e2).links().contains_key(k) implies !g.ent(b).links().contains_key(k) by {
            if g.ent(b).links().contains_key(k) {
                let t = handle_of(g.ent(b).links()[k]) as int;
                assert(g.ent(t).id@ == k);
                assert(g.ent(t).kind != g.ent(b).kind);
                let t2 = handle_of(g.ent(e2).links()[k]) as int;
                assert(g.ent(t2).id@ == k);
                assert(t == t2);
                assert(g.ent(t2).kind != g.ent(e2).kind);
                assert(g.ent(e2).kind != g.ent(b).kind);
            }
        }
    }
}

/// Deleting an edge that links exactly the entities at `a` and `b` removes
/// exactly one adjacency entry, the edge's, from each of them, and leaves
/// every other entity's adjacency untouched.
pub proof fn delete_edge_endpoints(g: Graph, f: Graph, e: int, a: int, b: int)
    requires
        g.wf(),
        g.live(e) && g.live(a) && g.live(b),
        g.ent(e).links().dom() == set![g.ent(a).id@, g.ent(b).id@],
        edge_deleted(g, f, e),
    ensures
        g.ent(a).links().contains_key(g.ent(e).id@),
        g.ent(b).links().contains_key(g.ent(e).id@),
        f.ent(a).links() == g.ent(a).links().remove(g.ent(e).id@),
        f.ent(b).links() == g.ent(b).links().remove(g.ent(e).id@),
        forall|x: int| #[trigger] g.live(x) && x != e && x != a && x != b ==> f.live(x) && f.ent(x).links() == g.ent(x).links(),
{
    let eid = g.ent(e).id@;
    assert(a != e) by {
        assert(g.ent(e).links().contains_key(g.ent(a).id@));
        let t = handle_of(g.ent(e).links()[g.ent(a).id@]) as int;
        assert(g.ent(t).id@ == g.ent(a).id@);
        assert(t == a);
    }
    assert(b != e) by {
        assert(g.ent(e).links().contains_key(g.ent(b).id@));
        let t = handle_of(g.ent(e).links()[g.ent(b).id@]) as int;
        assert(g.ent(t).id@ == g.ent(b).id@);
        assert(t == b);
    }
    assert(g.ent(e).links().contains_key(g.ent(a).id@));
    assert(g.ent(e).links().contains_key(g.ent(b).id@));
    assert forall|x: int| #[trigger] g.live(x) && x != e && x != a && x != b implies f.live(x) && f.ent(x).links() == g.ent(x).links() by {
        if g.ent(x).links().contains_key(eid) {
            let t = handle_of(g.ent(x).links()[eid]) as int;
            assert(g.ent(t).id@ == eid);
            assert(t == e);
            assert(g.ent(e).links().contains_key(g.ent(x).id@));
            let tx = handle_of(g.ent(e).links()[g.ent(x).id@]) as int;
            assert(g.ent(tx).id@ == g.ent(x).id@);
            assert(tx == x);
        }
        assert(g.ent(x).links().remove(eid) =~= g.ent(x).links());
    }
}

/// Creating the same id in a table twice fails the second time with an
/// error naming the table and the id, and leaves the first node as it was.
pub proof fn create_uniqueness(
    g0: Graph,
    g1: Graph,
    g2: Graph,
    table: Seq<char>,
    id: IdView,
    fields1: Seq<(Seq<char>, Model)>,
    fields2: Seq<(Seq<char>, Model)>,
    r1: Result<Object, Error>,
    r2: Result<Object, Error>,
)
    requires
        g0.wf(),
        created(g0, g1, table, id, fields1, r1),
        r1 is Ok,
        created(g1, g2, table, id, fields2, r2),
    ensures
        match r2 {
            Err(Error::CreateError { table: tn, id: i }) => tn@ == table && i@ == id,
            _ => false,
        },
        g2.entities == g1.entities,
        g1.live(g0.entities@.len() as int),
        g2.ent(g0.entities@.len() as int) == g1.ent(g0.entities@.len() as int),
{
    assert(g0.table_named(table)) by {
        if !g0.table_named(table) {
            assert(r1 is Err);
        }
    }
    let t = choose|t: int| 0 <= t < g0.tables@.len() && #[trigger] g0.tables@[t].name@ == table;
    let h = g0.entities@.len() as int;
    if holds_key(g0.tables@[t].keys(), id) || g0.id_taken(RecordView { table: table, id: id }) {
        assert(r1 is Err);
    }
    assert(g1.tables@[t].keys() == g0.tables@[t].keys().push((id, h as usize)));
    assert(g1.tables@[t].keys()[g0.tables@[t].keys().len() as int].0 == id);
    assert(holds_key(g1.tables@[t].keys(), id));
    assert(g1.tables@[t].name@ == table);
}


/// In a walk, a neighbour that a step takes is gated by the step's filter on
/// the neighbour's own fields: when the filter evaluates to a false value
/// the branch through it is pruned, adding nothing and raising no error;
/// when it holds, the branch adds what the walk on from the neighbour gives.
pub proof fn walk_filter_gate(
    g: Graph,
    at: int,
    s: Seq<(RecordView, Path)>,
    e: (RecordView, Path),
    path: Seq<StepView>,
    idx: int,
    origin: RecordView,
    fields: Seq<FieldView>,
)
    requires
        0 <= idx < path.len(),
        hop_of(g, at, s, path, idx, origin, fields) is Ok,
        hop_taken(g, at, e.0, e.1, path[idx], origin),
    ensures
        ({
            let n = handle_of(e.1) as int;
            let before = hop_of(g, at, s, path, idx, origin, fields);
            let after = hop_of(g, at, s.push(e), path, idx, origin, fields);
            let rest = walk_of(g, n, path, idx + 1, g.ent(at).id@, fields);
            &&& admits(path[idx].filter, g.ent(n).fields@) == Ok::<bool, EvalError>(false) ==> after == before
            &&& (admits(path[idx].filter, g.ent(n).fields@) == Ok::<bool, EvalError>(true) && rest is Ok)
                ==> after == Ok::<Seq<Map<Seq<char>, Model>>, EvalError>(before->Ok_0 + rest->Ok_0)
        }),
{
    assert(s.push(e).drop_last() =~= s);
    assert(s.push(e).last() == e);
}

} // verus!
