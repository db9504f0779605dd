//! The server's bookkeeping of users: who is connected under which name, the
//! messages passed between a connection's threads, and the commands that a
//! chat line can hold.
use vstd::prelude::*;

verus! {

/// A user on the server: the name and the handles of the user's connections.
pub struct UserIdentifier<C> {
    pub username: String,
    pub connections: Vec<C>,
}

impl<C> UserIdentifier<C> {
    /// A user called `name`, with no connections yet.
    pub fn new(name: &str) -> (u: Self)
        ensures
            u.username@ == name@,
            u.connections@.len() == 0,
    {
        UserIdentifier { username: name.to_owned(), connections: Vec::new() }
    }

    /// The same user under the name `new_name`, with the same connections.
    pub fn rename(self, new_name: &str) -> (u: Self)
        ensures
            u.username@ == new_name@,
            u.connections@ == self.connections@,
    {
        UserIdentifier { username: new_name.to_owned(), connections: self.connections }
    }
}

/// A change that a connection's receiving thread asks its sending thread to make.
pub enum PassFunction {
    /// Rename the connection's user.
    Rename(String),
}

/// What a connection's receiving thread passes to its sending thread.
pub enum Pass {
    Function(PassFunction),
    NOOP,
    CloseConnection,
}

/// A map from user names to values, where each name occurs at most once.
pub struct UserMap<V> {
    entries: Vec<(String, V)>,
}

/// The entries of a user map as plain values.
pub open spec fn entries_view<V>(entries: Seq<(String, V)>) -> Seq<(Seq<char>, V)> {
    Seq::new(entries.len(), |i: int| (entries[i].0@, entries[i].1))
}

/// No name occurs twice.
pub open spec fn distinct_names<V>(es: Seq<(Seq<char>, V)>) -> bool {
    forall|i: int, j: int| 0 <= i < es.len() && 0 <= j < es.len() && i != j ==> es[i].0 != es[j].0
}

/// The map that the entries `es` stand for.
pub open spec fn map_of<V>(es: Seq<(Seq<char>, V)>) -> Map<Seq<char>, V> {
    Map::new(
        |k: Seq<char>| exists|i: int| 0 <= i < es.len() && es[i].0 == k,
        |k: Seq<char>| es[choose|i: int| 0 <= i < es.len() && es[i].0 == k].1,
    )
}

/// Where the names are distinct, the entry at `i` is what the map holds for its name.
pub proof fn lemma_map_of_entry<V>(es: Seq<(Seq<char>, V)>, i: int)
    requires
        distinct_names(es),
        0 <= i < es.len(),
    ensures
        map_of(es).contains_key(es[i].0),
        map_of(es)[es[i].0] == es[i].1,
{
    let k = es[i].0;
    assert(exists|j: int| 0 <= j < es.len() && es[j].0 == k);
    let j = choose|j: int| 0 <= j < es.len() && es[j].0 == k;
    assert(j == i);
}

impl<V> View for UserMap<V> {
    type V = Map<Seq<char>, V>;

    closed spec fn view(&self) -> Map<Seq<char>, V> {
        map_of(entries_view(self.entries@))
    }
}

impl<V> UserMap<V> {
    /// No name occurs twice.
    #[verifier::type_invariant]
    spec fn names_distinct(&self) -> bool {
        distinct_names(entries_view(self.entries@))
    }

    /// An empty map.
    pub fn new() -> (m: Self)
        ensures
            m@ == Map::<Seq<char>, V>::empty(),
    {
        let m = UserMap { entries: Vec::new() };
        assert(m@ =~= Map::<Seq<char>, V>::empty());
        m
    }

    /// Where `name` occurs.
    fn find(&self, name: &String) -> (r: Option<usize>)
        ensures
            r matches Some(i) ==> i < self.entries@.len() && self.entries@[i as int].0@ == name@,
            r is None ==> !self@.contains_key(name@),
    {
        let mut i: usize = 0;
        while i < self.entries.len()
            invariant
                i <= self.entries@.len(),
                forall|j: int| 0 <= j < i ==> self.entries@[j].0@ != name@,
            decreases self.entries@.len() - i,
        {
            if self.entries[i].0 == *name {
                return Some(i);
            }
            i = i + 1;
        }
        proof {
            let es = entries_view(self.entries@);
            if self@.contains_key(name@) {
                let j = choose|j: int| 0 <= j < es.len() && es[j].0 == name@;
                assert(self.entries@[j].0@ == name@);
            }
        }
        None
    }

    /// Whether a value is stored under `name`.
    pub fn contains_key(&self, name: &String) -> (b: bool)
        ensures
            b == self@.contains_key(name@),
    {
        proof {
            use_type_invariant(self);
        }
        match self.find(name) {
            Some(i) => {
                proof {
                    lemma_map_of_entry(entries_view(self.entries@), i as int);
                }
                true
            },
            None => false,
        }
    }

    /// Stores `value` under `name`, and gives back what was stored there before.
    pub fn insert(&mut self, name: String, value: V) -> (r: Option<V>)
        ensures
            final(self)@ == old(self)@.insert(name@, value),
            old(self)@.contains_key(name@) ==> r == Some(old(self)@[name@]),
            !old(self)@.contains_key(name@) ==> r is None,
    {
        proof {
            use_type_invariant(&*self);
        }
        let ghost old_es = entries_view(self.entries@);
        let ghost k = name@;
        match self.find(&name) {
            Some(i) => {
                proof {
                    lemma_map_of_entry(old_es, i as int);
                }
                let mut entries: Vec<(String, V)> = Vec::new();
                std::mem::swap(&mut entries, &mut self.entries);
                let (_, previous) = entries.remove(i);
                entries.insert(i, (name, value));
                let ghost es = entries_view(entries@);
                assert(es =~= old_es.update(i as int, (k, value)));
                assert(distinct_names(es));
                self.entries = entries;
                assert(self@ =~= old(self)@.insert(k, value)) by {
                    assert forall|key: Seq<char>| #[trigger] self@.contains_key(key) <==> old(
                        self,
                    )@.insert(k, value).contains_key(key) by {
                        if self@.contains_key(key) {
                            let j = choose|j: int| 0 <= j < es.len() && es[j].0 == key;
                            if j != i {
                                assert(old_es[j].0 == key);
                            }
                        }
                        if old(self)@.contains_key(key) {
                            let j = choose|j: int| 0 <= j < old_es.len() && old_es[j].0 == key;
                            if j != i {
                                assert(es[j].0 == key);
                            } else {
                                assert(es[i as int].0 == key);
                            }
                        }
                        if key == k {
                            assert(es[i as int].0 == key);
                        }
                    }
                    assert forall|key: Seq<char>| #[trigger] self@.contains_key(key) implies self@[key]
                        == old(self)@.insert(k, value)[key] by {
                        let j = choose|j: int| 0 <= j < es.len() && es[j].0 == key;
                        lemma_map_of_entry(es, j);
                        if j != i {
                            lemma_map_of_entry(old_es, j);
                        }
                    }
                }
                Some(previous)
            },
            None => {
                let mut entries: Vec<(String, V)> = Vec::new();
                std::mem::swap(&mut entries, &mut self.entries);
                entries.push((name, value));
                let ghost es = entries_view(entries@);
                assert(es =~= old_es.push((k, value)));
                assert forall|a: int, b: int|
                    0 <= a < es.len() && 0 <= b < es.len() && a != b implies es[a].0 != es[b].0 by {
                    if a == old_es.len() as int {
                        assert(!map_of(old_es).contains_key(k));
                        assert(old_es[b].0 == es[b].0);
                    } else if b == old_es.len() as int {
                        assert(!map_of(old_es).contains_key(k));
                        assert(old_es[a].0 == es[a].0);
                    }
                }
                self.entries = entries;
                assert(self@ =~= old(self)@.insert(k, value)) by {
                    assert forall|key: Seq<char>| #[trigger] self@.contains_key(key) <==> old(
                        self,
                    )@.insert(k, value).contains_key(key) by {
                        if self@.contains_key(key) {
                            let j = choose|j: int| 0 <= j < es.len() && es[j].0 == key;
                            if j < old_es.len() {
                                assert(old_es[j].0 == key);
                            }
                        }
                        if old(self)@.contains_key(key) {
                            let j = choose|j: int| 0 <= j < old_es.len() && old_es[j].0 == key;
                            assert(es[j].0 == key);
                        }
                        if key == k {
                            assert(es[old_es.len() as int].0 == key);
                        }
                    }
                    assert forall|key: Seq<char>| #[trigger] self@.contains_key(key) implies self@[key]
                        == old(self)@.insert(k, value)[key] by {
                        let j = choose|j: int| 0 <= j < es.len() && es[j].0 == key;
                        lemma_map_of_entry(es, j);
                        if j < old_es.len() {
                            lemma_map_of_entry(old_es, j);
                        }
                    }
                }
                None
            },
        }
    }

    /// Takes away what is stored under `name`, and gives it back.
    pub fn remove(&mut self, name: &String) -> (r: Option<V>)
        ensures
            final(self)@ == old(self)@.remove(name@),
            old(self)@.contains_key(name@) ==> r == Some(old(self)@[name@]),
            !old(self)@.contains_key(name@) ==> r is None,
    {
        proof {
            use_type_invariant(&*self);
        }
        let ghost old_es = entries_view(self.entries@);
        let ghost k = name@;
        match self.find(name) {
            Some(i) => {
                proof {
                    lemma_map_of_entry(old_es, i as int);
                }
                let mut entries: Vec<(String, V)> = Vec::new();
                std::mem::swap(&mut entries, &mut self.entries);
                let (_, previous) = entries.remove(i);
                let ghost es = entries_view(entries@);
                assert(es =~= old_es.remove(i as int));
                assert forall|a: int, b: int|
                    0 <= a < es.len() && 0 <= b < es.len() && a != b implies es[a].0 != es[b].0 by {
                    let oa = if a < i { a } else { a + 1 };
                    let ob = if b < i { b } else { b + 1 };
                    assert(es[a] == old_es[oa]);
                    assert(es[b] == old_es[ob]);
                }
                self.entries = entries;
                assert(self@ =~= old(self)@.remove(k)) by {
                    assert forall|key: Seq<char>| #[trigger] self@.contains_key(key) <==> old(
                        self,
                    )@.remove(k).contains_key(key) by {
                        if self@.contains_key(key) {
                            let j = choose|j: int| 0 <= j < es.len() && es[j].0 == key;
                            let oj = if j < i { j } else { j + 1 };
                            assert(old_es[oj].0 == key);
                        }
                        if old(self)@.contains_key(key) && key != k {
                            let j = choose|j: int| 0 <= j < old_es.len() && old_es[j].0 == key;
                            assert(j != i);
                            let nj = if j < i { j } else { j - 1 };
                            assert(es[nj].0 == key);
                        }
                    }
                    assert forall|key: Seq<char>| #[trigger] self@.contains_key(key) implies self@[key]
                        == old(self)@.remove(k)[key] by {
                        let j = choose|j: int| 0 <= j < es.len() && es[j].0 == key;
                        let oj = if j < i { j } else { j + 1 };
                        lemma_map_of_entry(es, j);
                        lemma_map_of_entry(old_es, oj);
                    }
                }
                Some(previous)
            },
            None => {
                assert(self@ =~= old(self)@.remove(k));
                None
            },
        }
    }
}

} // verus!
