//! Field maps: names bound to values, each name held once.
use vstd::prelude::*;
use crate::value::{Model, Value, entry_models, lemma_entry_models};

verus! {

/// The value bound to a name in a list of entries: the last entry with that
/// name, or nothing.
pub open spec fn lookup(s: Seq<(Seq<char>, Model)>, k: Seq<char>) -> Model
    decreases s.len(),
{
    if s.len() == 0 {
        Model::Nothing
    } else if s.last().0 == k {
        s.last().1
    } else {
        lookup(s.drop_last(), k)
    }
}

pub open spec fn has_key(s: Seq<(Seq<char>, Model)>, k: Seq<char>) -> bool {
    exists|i: int| 0 <= i < s.len() && #[trigger] s[i].0 == k
}

pub open spec fn unique_keys(s: Seq<(Seq<char>, Model)>) -> bool {
    forall|i: int, j: int| 0 <= i < j < s.len() ==> #[trigger] s[i].0 != #[trigger] s[j].0
}

/// The map that a list of entries stands for.
pub open spec fn as_map(s: Seq<(Seq<char>, Model)>) -> Map<Seq<char>, Model> {
    Map::new(|k: Seq<char>| has_key(s, k), |k: Seq<char>| lookup(s, k))
}

pub proof fn lemma_lookup_push(s: Seq<(Seq<char>, Model)>, e: (Seq<char>, Model), k: Seq<char>)
    ensures
        lookup(s.push(e), k) == (if k == e.0 { e.1 } else { lookup(s, k) }),
        has_key(s.push(e), k) == (k == e.0 || has_key(s, k)),
{
    assert(s.push(e).drop_last() =~= s);
    if has_key(s, k) {
        let i = choose|i: int| 0 <= i < s.len() && s[i].0 == k;
        assert(s.push(e)[i].0 == k);
    }
    if k == e.0 {
        assert(s.push(e)[s.len() as int].0 == k);
    }
    if has_key(s.push(e), k) {
        let i = choose|i: int| 0 <= i < s.push(e).len() && s.push(e)[i].0 == k;
        if i < s.len() {
            assert(s[i].0 == k);
        }
    }
}

pub proof fn lemma_lookup_at(s: Seq<(Seq<char>, Model)>, i: int)
    requires
        unique_keys(s),
        0 <= i < s.len(),
    ensures
        lookup(s, s[i].0) == s[i].1,
    decreases s.len(),
{
    if i < s.len() - 1 {
        assert(s.last().0 != s[i].0);
        assert(s.drop_last()[i] == s[i]);
        lemma_lookup_at(s.drop_last(), i);
    }
}

pub proof fn lemma_lookup_absent(s: Seq<(Seq<char>, Model)>, k: Seq<char>)
    requires
        !has_key(s, k),
    ensures
        lookup(s, k) == Model::Nothing,
    decreases s.len(),
{
    if s.len() > 0 {
        assert(s[s.len() - 1].0 != k);
        assert forall|i: int| 0 <= i < s.drop_last().len() implies s.drop_last()[i].0 != k by {
            assert(s[i].0 != k);
        }
        lemma_lookup_absent(s.drop_last(), k);
    }
}

/// Under unique keys a list of entries is read as the map it stands for.
pub proof fn lemma_lookup_map(s: Seq<(Seq<char>, Model)>, k: Seq<char>)
    requires
        unique_keys(s),
    ensures
        has_key(s, k) ==> lookup(s, k) == s[choose|i: int| 0 <= i < s.len() && s[i].0 == k].1,
        !has_key(s, k) ==> lookup(s, k) == Model::Nothing,
{
    if has_key(s, k) {
        let i = choose|i: int| 0 <= i < s.len() && s[i].0 == k;
        lemma_lookup_at(s, i);
    } else {
        lemma_lookup_absent(s, k);
    }
}

pub proof fn lemma_update(s: Seq<(Seq<char>, Model)>, i: int, v: Model)
    requires
        unique_keys(s),
        0 <= i < s.len(),
    ensures
        unique_keys(s.update(i, (s[i].0, v))),
        as_map(s.update(i, (s[i].0, v))) == as_map(s).insert(s[i].0, v),
{
    let t = s.update(i, (s[i].0, v));
    assert forall|a: int, b: int| 0 <= a < b < t.len() implies #[trigger] t[a].0 != #[trigger] t[b].0 by {
        assert(t[a].0 == s[a].0 && t[b].0 == s[b].0);
    }
    assert forall|k: Seq<char>| has_key(t, k) == (k == s[i].0 || has_key(s, k)) by {
        if has_key(s, k) {
            let j = choose|j: int| 0 <= j < s.len() && s[j].0 == k;
            assert(t[j].0 == k);
        }
        if k == s[i].0 {
            assert(t[i].0 == k);
        }
        if has_key(t, k) {
            let j = choose|j: int| 0 <= j < t.len() && t[j].0 == k;
            assert(s[j].0 == k);
        }
    }
    assert forall|k: Seq<char>| has_key(t, k) implies lookup(t, k) == (if k == s[i].0 { v } else { lookup(s, k) }) by {
        let j = choose|j: int| 0 <= j < t.len() && t[j].0 == k;
        lemma_lookup_at(t, j);
        if j != i {
            assert(s[j].0 == k);
            lemma_lookup_at(s, j);
        }
    }
    assert(as_map(t) =~= as_map(s).insert(s[i].0, v));
}

pub proof fn lemma_remove(s: Seq<(Seq<char>, Model)>, i: int)
    requires
        unique_keys(s),
        0 <= i < s.len(),
    ensures
        unique_keys(s.remove(i)),
        as_map(s.remove(i)) == as_map(s).remove(s[i].0),
{
    let t = s.remove(i);
    assert forall|a: int, b: int| 0 <= a < b < t.len() implies #[trigger] t[a].0 != #[trigger] t[b].0 by {
        let sa = if a < i { a } else { a + 1 };
        let sb = if b < i { b } else { b + 1 };
        assert(t[a] == s[sa] && t[b] == s[sb]);
    }
    assert forall|k: Seq<char>| has_key(t, k) == (k != s[i].0 && has_key(s, k)) by {
        if has_key(t, k) {
            let j = choose|j: int| 0 <= j < t.len() && t[j].0 == k;
            let sj = if j < i { j } else { j + 1 };
            assert(s[sj].0 == k);
        }
        if k != s[i].0 && has_key(s, k) {
            let j = choose|j: int| 0 <= j < s.len() && s[j].0 == k;
            let tj = if j < i { j } else { j - 1 };
            assert(t[tj].0 == k);
        }
    }
    assert forall|k: Seq<char>| has_key(t, k) implies lookup(t, k) == lookup(s, k) by {
        let j = choose|j: int| 0 <= j < t.len() && t[j].0 == k;
        let sj = if j < i { j } else { j + 1 };
        lemma_lookup_at(t, j);
        lemma_lookup_at(s, sj);
    }
    assert(as_map(t) =~= as_map(s).remove(s[i].0));
}

/// A field map: names bound to values, each name held once, kept in the order
/// in which the names were first bound.
#[derive(Debug, PartialEq, Eq, Hash)]
pub struct Object(pub Vec<(String, Value)>);

impl Object {
    pub open spec fn view(&self) -> Seq<(Seq<char>, Model)> {
        entry_models(self.0@)
    }

    pub open spec fn wf(&self) -> bool {
        unique_keys(self@)
    }

    /// The map of names to values that the object holds.
    pub open spec fn fields(&self) -> Map<Seq<char>, Model> {
        as_map(self@)
    }

    pub fn new() -> (r: Object)
        ensures
            r.wf(),
            r@.len() == 0,
            r.fields() == Map::<Seq<char>, Model>::empty(),
    {
        let r = Object(Vec::new());
        assert(r.fields() =~= Map::<Seq<char>, Model>::empty());
        r
    }

    pub fn len(&self) -> (r: usize)
        ensures
            r == self@.len(),
    {
        proof {
            lemma_entry_models(self.0@);
        }
        self.0.len()
    }

    pub fn is_empty(&self) -> (r: bool)
        ensures
            r == (self@.len() == 0),
    {
        proof {
            lemma_entry_models(self.0@);
        }
        self.0.len() == 0
    }

    /// Where the name is bound, if it is.
    pub fn position(&self, key: &str) -> (r: Option<usize>)
        ensures
            match r {
                Some(i) => i < self@.len() && self@[i as int].0 == key@,
                None => !has_key(self@, key@),
            },
    {
        proof {
            lemma_entry_models(self.0@);
        }
        let wanted = key.to_owned();
        let mut i: usize = 0;
        while i < self.0.len()
            invariant
                wanted@ == key@,
                i <= self.0.len(),
                self@.len() == self.0.len(),
                forall|j: int| 0 <= j < self@.len() ==> #[trigger] self@[j] == (self.0@[j].0@, self.0@[j].1@),
                forall|j: int| 0 <= j < i ==> self@[j].0 != key@,
            decreases self.0.len() - i,
        {
            if self.0[i].0 == wanted {
                return Some(i);
            }
            i = i + 1;
        }
        None
    }

    /// The value bound to the name, or nothing.
    pub fn get(&self, key: &str) -> (r: Value)
        requires
            self.wf(),
        ensures
            r@ == lookup(self@, key@),
    {
        match self.position(key) {
            Some(i) => {
                proof {
                    lemma_entry_models(self.0@);
                    lemma_lookup_at(self@, i as int);
                }
                self.0[i].1.duplicate()
            },
            None => {
                proof {
                    lemma_lookup_absent(self@, key@);
                }
                Value::Nothing
            },
        }
    }

    /// Binds the name to the value, replacing what it was bound to.
    pub fn insert(&mut self, key: String, value: Value)
        requires
            old(self).wf(),
        ensures
            final(self).wf(),
            final(self).fields() == old(self).fields().insert(key@, value@),
    {
        let ghost k = key@;
        let ghost v = value@;
        proof {
            lemma_entry_models(self.0@);
        }
        match self.position(key.as_str()) {
            Some(i) => {
                let ghost before = self@;
                self.0.set(i, (key, value));
                proof {
                    lemma_entry_models(self.0@);
                    assert(self@ =~= before.update(i as int, (before[i as int].0, v)));
                    lemma_update(before, i as int, v);
                }
            },
            None => {
                let ghost before = self@;
                self.0.push((key, value));
                proof {
                    lemma_entry_models(self.0@);
                    assert(self@ =~= before.push((k, v)));
                    assert forall|a: int, b: int| 0 <= a < b < self@.len() implies #[trigger] self@[a].0 != #[trigger] self@[b].0 by {
                        if b == before.len() {
                            assert(before[a].0 != k);
                        }
                    }
                    assert forall|kk: Seq<char>| #[trigger] has_key(self@, kk) == (kk == k || has_key(before, kk)) && lookup(self@, kk) == (if kk == k { v } else { lookup(before, kk) }) by {
                        lemma_lookup_push(before, (k, v), kk);
                    }
                    assert(self.fields() =~= as_map(before).insert(k, v));
                }
            },
        }
    }

    /// Removes the binding of the name, if there is one.
    pub fn remove(&mut self, key: &str)
        requires
            old(self).wf(),
        ensures
            final(self).wf(),
            final(self).fields() == old(self).fields().remove(key@),
            !has_key(old(self)@, key@) ==> *final(self) == *old(self),
    {
        proof {
            lemma_entry_models(self.0@);
        }
        match self.position(key) {
            Some(i) => {
                let ghost before = self@;
                self.0.remove(i);
                proof {
                    lemma_entry_models(self.0@);
                    assert(self@ =~= before.remove(i as int));
                    lemma_remove(before, i as int);
                }
            },
            None => {
                proof {
                    assert(as_map(self@) =~= as_map(self@).remove(key@));
                }
            },
        }
    }

    /// A copy of the object.
    pub fn duplicate(&self) -> (r: Object)
        ensures
            r@ == self@,
    {
        let mut out: Vec<(String, Value)> = Vec::new();
        let mut i: usize = 0;
        while i < self.0.len()
            invariant
                i <= self.0.len(),
                out@.len() == i,
                forall|j: int|
                    0 <= j < i ==> (#[trigger] out@[j]).0@ == self.0@[j].0@ && out@[j].1@
                        == self.0@[j].1@,
            decreases self.0.len() - i,
        {
            out.push((self.0[i].0.clone(), self.0[i].1.duplicate()));
            i = i + 1;
        }
        proof {
            lemma_entry_models(self.0@);
            lemma_entry_models(out@);
            assert(entry_models(out@) =~= entry_models(self.0@));
        }
        Object(out)
    }
}

} // verus!
