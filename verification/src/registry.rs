use vstd::prelude::*;

verus! {

/// The set of units a reactor currently supervises: a map from service id to
/// that unit's live entry. Ids are unique among registered units; an id can
/// be taken again only after its previous holder has been removed.
pub struct Registry<E> {
    entries: Vec<(u64, E)>,
}

/// The mathematical content of an entry list: the map it spells out, later
/// entries winning (the registry keeps ids distinct, so no entry shadows
/// another).
pub open spec fn map_of_entries<E>(s: Seq<(u64, E)>) -> Map<u64, E>
    decreases s.len(),
{
    if s.len() == 0 {
        Map::empty()
    } else {
        map_of_entries(s.drop_last()).insert(s.last().0, s.last().1)
    }
}

/// No two positions of the entry list carry the same id.
pub open spec fn distinct_ids<E>(s: Seq<(u64, E)>) -> bool {
    forall|i: int, j: int|
        #![trigger s[i], s[j]]
        0 <= i < j < s.len() ==> s[i].0 != s[j].0
}

proof fn lemma_map_of_index<E>(s: Seq<(u64, E)>, i: int)
    requires
        distinct_ids(s),
        0 <= i < s.len(),
    ensures
        map_of_entries(s).contains_key(s[i].0),
        map_of_entries(s)[s[i].0] == s[i].1,
    decreases s.len(),
{
    if i == s.len() - 1 {
    } else {
        assert(distinct_ids(s.drop_last()));
        lemma_map_of_index(s.drop_last(), i);
        assert(s.drop_last()[i] == s[i]);
        assert(s[i].0 != s.last().0);
    }
}

proof fn lemma_map_of_contains<E>(s: Seq<(u64, E)>, k: u64)
    ensures
        map_of_entries(s).contains_key(k) <==> exists|i: int| 0 <= i < s.len() && s[i].0 == k,
    decreases s.len(),
{
    if s.len() == 0 {
    } else {
        lemma_map_of_contains(s.drop_last(), k);
        if s.last().0 == k {
            assert(s[s.len() - 1].0 == k);
        } else {
            if map_of_entries(s).contains_key(k) {
                let i = choose|i: int| 0 <= i < s.drop_last().len() && s.drop_last()[i].0 == k;
                assert(s[i].0 == k);
            }
            if exists|i: int| 0 <= i < s.len() && s[i].0 == k {
                let i = choose|i: int| 0 <= i < s.len() && s[i].0 == k;
                assert(i < s.len() - 1);
                assert(s.drop_last()[i].0 == k);
            }
        }
    }
}

proof fn lemma_map_of_push<E>(s: Seq<(u64, E)>, id: u64, e: E)
    requires
        distinct_ids(s),
        forall|i: int| #![trigger s[i]] 0 <= i < s.len() ==> s[i].0 != id,
    ensures
        distinct_ids(s.push((id, e))),
        map_of_entries(s.push((id, e))) == map_of_entries(s).insert(id, e),
{
    let t = s.push((id, e));
    assert(t.drop_last() =~= s);
    assert(t.last() == (id, e));
    assert forall|i: int, j: int| 0 <= i < j < t.len() implies #[trigger] t[i].0 != #[trigger] t[j].0 by {
        if j < t.len() - 1 {
            assert(t[i] == s[i] && t[j] == s[j]);
        } else {
            assert(t[i] == s[i] && t[j] == (id, e));
        }
    }
}

proof fn lemma_map_of_remove_at<E>(s: Seq<(u64, E)>, i: int)
    requires
        distinct_ids(s),
        0 <= i < s.len(),
    ensures
        distinct_ids(s.remove(i)),
        map_of_entries(s.remove(i)) == map_of_entries(s).remove(s[i].0),
    decreases s.len(),
{
    let r = s.remove(i);
    let k = s[i].0;
    assert forall|m: int, n: int| 0 <= m < n < r.len() implies #[trigger] r[m].0 != #[trigger] r[n].0 by {
        let m2: int = if m < i {
            m
        } else {
            m + 1
        };
        let n2: int = if n < i {
            n
        } else {
            n + 1
        };
        assert(r[m] == s[m2] && r[n] == s[n2]);
    }
    if i == s.len() - 1 {
        assert(r =~= s.drop_last());
        assert(map_of_entries(s) == map_of_entries(s.drop_last()).insert(s.last().0, s.last().1));
        lemma_map_of_contains(s.drop_last(), k);
        assert forall|j: int| 0 <= j < s.drop_last().len() implies #[trigger] s.drop_last()[j].0
            != k by {
            assert(s[j] == s.drop_last()[j]);
        }
        assert(!map_of_entries(s.drop_last()).contains_key(k));
        assert(map_of_entries(r) =~= map_of_entries(s).remove(k));
    } else {
        assert(distinct_ids(s.drop_last()));
        lemma_map_of_remove_at(s.drop_last(), i);
        assert(r.drop_last() =~= s.drop_last().remove(i));
        assert(r.last() == s.last());
        assert(map_of_entries(r) == map_of_entries(s.drop_last().remove(i)).insert(
            s.last().0,
            s.last().1,
        ));
        assert(s.drop_last()[i] == s[i]);
        assert(s.last().0 != k);
        assert(map_of_entries(s.drop_last()).remove(k).insert(s.last().0, s.last().1)
            =~= map_of_entries(s.drop_last()).insert(s.last().0, s.last().1).remove(k));
    }
}

proof fn lemma_map_of_len<E>(s: Seq<(u64, E)>)
    requires
        distinct_ids(s),
    ensures
        map_of_entries(s).dom().finite(),
        map_of_entries(s).dom().len() == s.len(),
    decreases s.len(),
{
    if s.len() == 0 {
        assert(map_of_entries(s).dom() =~= Set::<u64>::empty());
    } else {
        assert(distinct_ids(s.drop_last()));
        lemma_map_of_len(s.drop_last());
        lemma_map_of_contains(s.drop_last(), s.last().0);
        assert forall|j: int| 0 <= j < s.drop_last().len() implies #[trigger] s.drop_last()[j].0
            != s.last().0 by {
            assert(s[j] == s.drop_last()[j]);
        }
        assert(!map_of_entries(s.drop_last()).contains_key(s.last().0));
        assert(map_of_entries(s).dom() =~= map_of_entries(s.drop_last()).dom().insert(
            s.last().0,
        ));
    }
}

impl<E> Registry<E> {
    /// The registered ids, oldest registration first.
    pub closed spec fn ids(&self) -> Seq<u64> {
        self.entries@.map_values(|p: (u64, E)| p.0)
    }

    /// The registry as the map it denotes.
    pub closed spec fn as_map(&self) -> Map<u64, E> {
        map_of_entries(self.entries@)
    }

    /// Well-formed: no id is registered twice.
    pub closed spec fn wf(&self) -> bool {
        distinct_ids(self.entries@)
    }

    /// Law (id exclusivity): in a well-formed registry no two entries share
    /// an id — each registered id denotes exactly one live unit.
    pub proof fn lemma_ids_exclusive(&self)
        requires
            self.wf(),
        ensures
            forall|i: int, j: int|
                #![trigger self.ids()[i], self.ids()[j]]
                0 <= i < j < self.ids().len() ==> self.ids()[i] != self.ids()[j],
    {
        assert forall|i: int, j: int|
            0 <= i < j < self.ids().len() implies #[trigger] self.ids()[i] != #[trigger] self.ids()[j] by {
            assert(self.ids()[i] == self.entries@[i].0);
            assert(self.ids()[j] == self.entries@[j].0);
        }
    }

    /// An empty registry.
    pub fn new() -> (r: Registry<E>)
        ensures
            r.wf(),
            r.as_map() == Map::<u64, E>::empty(),
            r.ids() == Seq::<u64>::empty(),
    {
        let r = Registry { entries: Vec::new() };
        proof {
            assert(r.ids() =~= Seq::<u64>::empty());
        }
        r
    }

    /// How many units are registered.
    pub fn len(&self) -> (n: usize)
        requires
            self.wf(),
        ensures
            n == self.ids().len(),
            n == self.as_map().dom().len(),
            self.as_map().dom().finite(),
            n == 0 <==> self.as_map() == Map::<u64, E>::empty(),
    {
        proof {
            lemma_map_of_len(self.entries@);
            if self.entries@.len() > 0 {
                lemma_map_of_index(self.entries@, 0);
                assert(self.as_map() != Map::<u64, E>::empty()) by {
                    assert(self.as_map().contains_key(self.entries@[0].0));
                }
            } else {
                assert(self.as_map() =~= Map::<u64, E>::empty());
            }
        }
        self.entries.len()
    }

    /// The position of an id in the entry list, if it is registered.
    fn index_of(&self, id: u64) -> (r: Option<usize>)
        requires
            self.wf(),
        ensures
            r matches Some(i) ==> i < self.entries@.len() && self.entries@[i as int].0 == id,
            r is None ==> !self.as_map().contains_key(id),
            r is Some <==> self.as_map().contains_key(id),
    {
        proof {
            lemma_map_of_contains(self.entries@, id);
        }
        let mut i: usize = 0;
        while i < self.entries.len()
            invariant
                i <= self.entries@.len(),
                forall|j: int| #![trigger self.entries@[j]] 0 <= j < i ==> self.entries@[j].0 != id,
            decreases self.entries@.len() - i,
        {
            if self.entries[i].0 == id {
                proof {
                    lemma_map_of_contains(self.entries@, id);
                    assert(exists|j: int|
                        0 <= j < self.entries@.len() && self.entries@[j].0 == id) by {
                        assert(self.entries@[i as int].0 == id);
                    }
                }
                return Some(i);
            }
            i = i + 1;
        }
        None
    }

    /// Whether an id is currently registered.
    pub fn contains(&self, id: u64) -> (r: bool)
        requires
            self.wf(),
        ensures
            r == self.as_map().contains_key(id),
    {
        self.index_of(id).is_some()
    }

    /// A shared borrow of the entry registered under an id.
    pub fn get(&self, id: u64) -> (r: Option<&E>)
        requires
            self.wf(),
        ensures
            r is Some <==> self.as_map().contains_key(id),
            r matches Some(e) ==> self.as_map()[id] == *e,
    {
        match self.index_of(id) {
            Some(i) => {
                proof {
                    lemma_map_of_index(self.entries@, i as int);
                }
                Some(&self.entries[i].1)
            },
            None => None,
        }
    }

    /// Register an entry under an id. A still-registered id is overwritten —
    /// registering a live id is a caller bug the registry does not excuse,
    /// but it stays a map.
    pub fn insert(&mut self, id: u64, e: E)
        requires
            old(self).wf(),
        ensures
            final(self).wf(),
            final(self).as_map() == old(self).as_map().insert(id, e),
    {
        let mut displaced = self.remove(id);
        proof {
            lemma_map_of_contains(self.entries@, id);
            assert forall|i: int| 0 <= i < self.entries@.len() implies #[trigger] self.entries@[i].0
                != id by {
                if self.entries@[i].0 == id {
                    lemma_map_of_index(self.entries@, i);
                }
            }
            lemma_map_of_push(self.entries@, id, e);
        }
        self.entries.push((id, e));
        proof {
            if old(self).as_map().contains_key(id) {
                assert(final(self).as_map() =~= old(self).as_map().insert(id, e));
            } else {
                assert(old(self).as_map().remove(id) =~= old(self).as_map());
            }
        }
    }

    /// Remove and return the entry registered under an id, if any; every
    /// other entry stays.
    pub fn remove(&mut self, id: u64) -> (r: Option<E>)
        requires
            old(self).wf(),
        ensures
            final(self).wf(),
            r is Some <==> old(self).as_map().contains_key(id),
            r matches Some(e) ==> old(self).as_map()[id] == e,
            final(self).as_map() == old(self).as_map().remove(id),
    {
        match self.index_of(id) {
            Some(i) => {
                proof {
                    lemma_map_of_index(self.entries@, i as int);
                    lemma_map_of_remove_at(self.entries@, i as int);
                }
                let p = self.entries.remove(i);
                Some(p.1)
            },
            None => {
                proof {
                    assert(final(self).as_map() =~= old(self).as_map().remove(id));
                }
                None
            },
        }
    }

    /// The id of the longest-registered unit, if any is registered.
    pub fn first_id(&self) -> (r: Option<u64>)
        requires
            self.wf(),
        ensures
            r is Some <==> self.ids().len() > 0,
            r is Some <==> self.as_map() != Map::<u64, E>::empty(),
            r matches Some(k) ==> self.as_map().contains_key(k),
    {
        if self.entries.len() > 0 {
            proof {
                lemma_map_of_index(self.entries@, 0);
            }
            Some(self.entries[0].0)
        } else {
            proof {
                assert(self.as_map() =~= Map::<u64, E>::empty());
            }
            None
        }
    }
}

} // verus!
