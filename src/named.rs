use fnv::FnvHashMap;
use vstd::prelude::*;

verus! {

/// A map from names to slot ids, hashed with FNV.
#[verifier::external_body]
pub struct NameMap {
    map: FnvHashMap<String, u32>,
}

/// The entries of a name map.
pub uninterp spec fn names_of(m: NameMap) -> Map<Seq<char>, u32>;

/// The index with no entries.
pub open spec fn empty_index() -> Map<Seq<char>, u32> {
    Map::empty()
}

/// Relies on `FnvHashMap::default`: a new map is empty.
#[verifier::external_body]
fn name_map_new() -> (r: NameMap)
    ensures
        names_of(r) == empty_index(),
{
    NameMap { map: FnvHashMap::default() }
}

/// Relies on `HashMap::insert`: the entry for `k` becomes `v`; keys compare by content.
#[verifier::external_body]
fn name_map_insert(m: &mut NameMap, k: String, v: u32)
    ensures
        names_of(*final(m)) == names_of(*old(m)).insert(k@, v),
{
    m.map.insert(k, v);
}

/// Relies on `HashMap::remove`: the entry for `k`, if any, goes.
#[verifier::external_body]
fn name_map_remove(m: &mut NameMap, k: &String)
    ensures
        names_of(*final(m)) == names_of(*old(m)).remove(k@),
{
    m.map.remove(k);
}

/// Relies on `HashMap::get`: the id stored for `k`, if any.
#[verifier::external_body]
fn name_map_get(m: &NameMap, k: &str) -> (r: Option<u32>)
    ensures
        names_of(*m).contains_key(k@) ==> r == Some(names_of(*m)[k@]),
        !names_of(*m).contains_key(k@) ==> r is None,
{
    m.map.get(k).copied()
}

/// A component that gives a name to an entity.
pub struct Named {
    /// The name of the entity this component is attached to.
    pub name: String,
}

impl Named {
    /// Constructs a new `Named` from a string.
    pub fn new(name: String) -> (r: Self)
        ensures
            r.name@ == name@,
    {
        Named { name }
    }
}

/// The index from names to the slot ids holding them, kept up to date by
/// hooks that a storage calls on each change. Beside the index it records,
/// per id, the name last stored there, so that a changed name can be taken
/// out of the index.
pub struct NameCache {
    map: NameMap,
    keys: Vec<Option<String>>,
}

impl NameCache {
    /// The name-to-id entries.
    pub closed spec fn index(&self) -> Map<Seq<char>, u32> {
        names_of(self.map)
    }

    /// The name last stored under `id`, if the cache knows one.
    pub closed spec fn key_of(&self, id: u32) -> Option<Seq<char>> {
        if (id as int) < self.keys@.len() {
            match self.keys@[id as int] {
                Some(k) => Some(k@),
                None => None,
            }
        } else {
            None
        }
    }

    /// Every index entry leads to an id whose recorded name is that entry's name.
    pub closed spec fn wf(&self) -> bool {
        forall|k: Seq<char>|
            #[trigger] self.index().contains_key(k) ==> self.key_of(self.index()[k]) == Some(k)
    }

    /// The name that storing a value named `k` under `id` makes stale: the
    /// name recorded for `id`, when it differs from `k` and still leads to `id`.
    pub open spec fn stale_key(&self, id: u32, k: Seq<char>) -> Option<Seq<char>> {
        match self.key_of(id) {
            Some(o) => if o != k && self.index().contains_key(o) && self.index()[o] == id {
                Some(o)
            } else {
                None
            },
            None => None,
        }
    }

    pub fn new() -> (r: Self)
        ensures
            r.wf(),
            r.index() == empty_index(),
            forall|id: u32| r.key_of(id) is None,
    {
        NameCache { map: name_map_new(), keys: Vec::new() }
    }

    /// Called when a value is read; the index needs nothing then.
    pub fn on_get(&self, _id: u32, _val: &Named) {
    }

    /// Called after `val` was stored under `id`: its name now leads to `id`,
    /// and the name that `id` held before, if it differs and still led to
    /// `id`, leaves the index.
    pub fn on_update(&mut self, id: u32, val: &Named)
        requires
            old(self).wf(),
        ensures
            final(self).wf(),
            final(self).index() == (match old(self).stale_key(id, val.name@) {
                Some(o) => old(self).index().remove(o),
                None => old(self).index(),
            }).insert(val.name@, id),
            final(self).key_of(id) == Some(val.name@),
            forall|other: u32| other != id ==> final(self).key_of(other) == old(self).key_of(other),
    {
        while self.keys.len() <= id as usize
            invariant
                self.wf(),
                self.index() == old(self).index(),
                forall|i: u32| self.key_of(i) == old(self).key_of(i),
            decreases id as int + 1 - self.keys@.len(),
        {
            let ghost before = *self;
            self.keys.push(None);
            assert forall|i: u32| self.key_of(i) == before.key_of(i) by {}
        }
        let stale = match &self.keys[id as usize] {
            Some(o) => if *o == val.name {
                false
            } else {
                match name_map_get(&self.map, o.as_str()) {
                    Some(found) => found == id,
                    None => false,
                }
            },
            None => false,
        };
        if stale {
            match &self.keys[id as usize] {
                Some(o) => name_map_remove(&mut self.map, o),
                None => {},
            }
        }
        name_map_insert(&mut self.map, val.name.clone(), id);
        self.keys.set(id as usize, Some(val.name.clone()));
        proof {
            assert forall|k: Seq<char>| #[trigger] self.index().contains_key(k) implies self.key_of(self.index()[k]) == Some(k) by {
                if k != val.name@ {
                    assert(old(self).index().contains_key(k));
                    let j = old(self).index()[k];
                    assert(old(self).key_of(j) == Some(k));
                    if j == id {
                        assert(old(self).stale_key(id, val.name@) == Some(k));
                    }
                    assert(self.index()[k] == j);
                    assert(self.key_of(j) == old(self).key_of(j));
                }
            }
        }
    }

    /// Called when `val` was taken out of `id`: its name no longer leads
    /// there. The value is handed back unchanged.
    pub fn on_remove(&mut self, id: u32, val: Named) -> (r: Named)
        requires
            old(self).wf(),
        ensures
            final(self).wf(),
            r == val,
            old(self).index().contains_key(val.name@) && old(self).index()[val.name@] == id
                ==> final(self).index() == old(self).index().remove(val.name@),
            !(old(self).index().contains_key(val.name@) && old(self).index()[val.name@] == id)
                ==> final(self).index() == old(self).index(),
            forall|other: u32| other != id ==> final(self).key_of(other) == old(self).key_of(other),
    {
        match name_map_get(&self.map, val.name.as_str()) {
            Some(found) => {
                if found == id {
                    name_map_remove(&mut self.map, &val.name);
                }
            },
            None => {},
        }
        if (id as usize) < self.keys.len() {
            let same = match &self.keys[id as usize] {
                Some(o) => *o == val.name,
                None => false,
            };
            if same {
                self.keys.set(id as usize, None);
            }
        }
        proof {
            assert forall|k: Seq<char>| #[trigger] self.index().contains_key(k) implies self.key_of(self.index()[k]) == Some(k) by {
                assert(old(self).index().contains_key(k));
                let j = old(self).index()[k];
                assert(old(self).key_of(j) == Some(k));
                assert(self.index()[k] == j);
                if j == id && k == val.name@ {
                    assert(!self.index().contains_key(k));
                }
            }
        }
        val
    }

    /// The id that `name` leads to, if any.
    pub fn lookup(&self, name: &str) -> (r: Option<u32>)
        ensures
            self.index().contains_key(name@) ==> r == Some(self.index()[name@]),
            !self.index().contains_key(name@) ==> r is None,
    {
        name_map_get(&self.map, name)
    }
}

/// Slots of named values, with a name index kept in step with them: a name
/// is in the index exactly when some slot holds it, and it leads to such a slot.
pub struct NamedStorage {
    slots: Vec<Option<Named>>,
    cache: NameCache,
}

impl NamedStorage {
    /// The name stored under each occupied slot id.
    pub closed spec fn contents(&self) -> Map<u32, Seq<char>> {
        Map::new(
            |i: u32| (i as int) < self.slots@.len() && self.slots@[i as int] is Some,
            |i: u32| self.slots@[i as int].unwrap().name@,
        )
    }

    /// The name index.
    pub closed spec fn index(&self) -> Map<Seq<char>, u32> {
        self.cache.index()
    }

    /// Whether slot `i` holds the name `k`.
    pub open spec fn holds(&self, i: u32, k: Seq<char>) -> bool {
        self.contents().contains_key(i) && self.contents()[i] == k
    }

    /// Every index entry leads to a slot holding its name.
    pub open spec fn sound(&self) -> bool {
        forall|k: Seq<char>| #[trigger] self.index().contains_key(k) ==> self.holds(self.index()[k], k)
    }

    /// A name that some slot holds is in the index.
    pub open spec fn complete_for(&self, k: Seq<char>) -> bool {
        (exists|i: u32| #[trigger] self.holds(i, k)) ==> self.index().contains_key(k)
    }

    /// Slot ids fit in `u32`, and the cache keeps its own invariant.
    pub closed spec fn bounded(&self) -> bool {
        self.slots@.len() <= 0x1_0000_0000 && self.cache.wf()
    }

    pub open spec fn wf(&self) -> bool {
        &&& self.bounded()
        &&& self.sound()
        &&& forall|k: Seq<char>| #[trigger] self.complete_for(k)
    }

    pub fn new() -> (r: Self)
        ensures
            r.wf(),
            r.contents() == Map::<u32, Seq<char>>::empty(),
    {
        let r = NamedStorage { slots: Vec::new(), cache: NameCache::new() };
        assert(r.contents() =~= Map::<u32, Seq<char>>::empty());
        r
    }

    /// If `k` is missing from the index, points it at a slot holding it, if any.
    fn repoint(&mut self, k: &String)
        requires
            old(self).bounded(),
            old(self).sound(),
            forall|k2: Seq<char>| k2 != k@ ==> #[trigger] old(self).complete_for(k2),
        ensures
            final(self).wf(),
            final(self).contents() == old(self).contents(),
    {
        if name_map_get(&self.cache.map, k.as_str()).is_some() {
            assert forall|k2: Seq<char>| #[trigger] self.complete_for(k2) by {
                if k2 != k@ {
                    assert(old(self).complete_for(k2));
                }
            }
            return;
        }
        let mut j: usize = 0;
        while j < self.slots.len()
            invariant
                self == old(self),
                j <= self.slots@.len(),
                self.slots@.len() <= 0x1_0000_0000,
                self.cache.wf(),
                old(self).sound(),
                forall|k2: Seq<char>| k2 != k@ ==> #[trigger] old(self).complete_for(k2),
                !self.index().contains_key(k@),
                forall|i: u32| (i as int) < j ==> !#[trigger] self.holds(i, k@),
            decreases self.slots@.len() - j,
        {
            let found = match &self.slots[j] {
                Some(v) => v.name == *k,
                None => false,
            };
            if found {
                proof {
                    assert(old(self).holds(j as u32, k@));
                    match old(self).cache.key_of(j as u32) {
                        Some(o) => {
                            if o != k@ && old(self).index().contains_key(o) && old(self).index()[o] == j as u32 {
                                assert(old(self).holds(j as u32, o));
                            }
                        },
                        None => {},
                    }
                }
                match &self.slots[j] {
                    Some(v) => self.cache.on_update(j as u32, v),
                    None => {},
                }
                proof {
                    assert(self.contents() == old(self).contents());
                    assert(old(self).holds(j as u32, k@));
                    assert forall|k2: Seq<char>| #[trigger] self.index().contains_key(k2) implies self.holds(self.index()[k2], k2) by {
                        if k2 != k@ {
                            assert(old(self).index().contains_key(k2));
                        }
                    }
                    assert forall|k2: Seq<char>| #[trigger] self.complete_for(k2) by {
                        if k2 != k@ {
                            assert(old(self).complete_for(k2));
                            if exists|i: u32| #[trigger] self.holds(i, k2) {
                                let i = choose|i: u32| #[trigger] self.holds(i, k2);
                                assert(old(self).holds(i, k2));
                            }
                        }
                    }
                }
                return;
            }
            j = j + 1;
        }
        assert forall|k2: Seq<char>| #[trigger] self.complete_for(k2) by {
            if k2 != k@ {
                assert(old(self).complete_for(k2));
            } else {
                assert forall|i: u32| !#[trigger] self.holds(i, k@) by {
                    if (i as int) < j {
                    }
                }
            }
        }
    }
    /// Removes the value under `id`, keeping the index in step.
    pub fn remove(&mut self, id: u32) -> (r: Option<Named>)
        requires
            old(self).wf(),
        ensures
            final(self).wf(),
            final(self).contents() == old(self).contents().remove(id),
            r is Some <==> old(self).contents().contains_key(id),
            r is Some ==> r.unwrap().name@ == old(self).contents()[id],
    {
        if id as usize >= self.slots.len() {
            assert(self.contents() =~= old(self).contents().remove(id));
            return None;
        }
        let mut prev: Option<Named> = None;
        self.slots.set_and_swap(id as usize, &mut prev);
        assert(self.contents() =~= old(self).contents().remove(id));
        match prev {
            None => {
                assert forall|k: Seq<char>| #[trigger] self.index().contains_key(k) implies self.holds(self.index()[k], k) by {
                    assert(old(self).holds(old(self).index()[k], k));
                }
                assert forall|k: Seq<char>| #[trigger] self.complete_for(k) by {
                    assert(old(self).complete_for(k));
                    if exists|i: u32| #[trigger] self.holds(i, k) {
                        let i = choose|i: u32| #[trigger] self.holds(i, k);
                        assert(old(self).holds(i, k));
                    }
                }
                None
            },
            Some(v) => {
                let ghost mid = *self;
                let v = self.cache.on_remove(id, v);
                proof {
                    assert(old(self).holds(id, v.name@));
                    assert forall|k: Seq<char>| #[trigger] self.index().contains_key(k) implies self.holds(self.index()[k], k) by {
                        assert(old(self).index().contains_key(k));
                        assert(old(self).holds(old(self).index()[k], k));
                    }
                    assert forall|k: Seq<char>| k != v.name@ implies #[trigger] self.complete_for(k) by {
                        assert(old(self).complete_for(k));
                        if exists|i: u32| #[trigger] self.holds(i, k) {
                            let i = choose|i: u32| #[trigger] self.holds(i, k);
                            assert(old(self).holds(i, k));
                        }
                    }
                }
                self.repoint(&v.name);
                Some(v)
            },
        }
    }

    /// Stores `value` under `id`, keeping the index in step, and returns the
    /// value it replaces.
    pub fn insert(&mut self, id: u32, value: Named) -> (r: Option<Named>)
        requires
            old(self).wf(),
        ensures
            final(self).wf(),
            final(self).contents() == old(self).contents().insert(id, value.name@),
            r is Some <==> old(self).contents().contains_key(id),
            r is Some ==> r.unwrap().name@ == old(self).contents()[id],
    {
        while self.slots.len() <= id as usize
            invariant
                self.wf(),
                self.contents() == old(self).contents(),
                self.index() == old(self).index(),
            decreases id as int + 1 - self.slots@.len(),
        {
            let ghost before = *self;
            self.slots.push(None);
            assert(self.contents() =~= before.contents());
            assert forall|k: Seq<char>| #[trigger] self.complete_for(k) by {
                assert(before.complete_for(k));
                if exists|i: u32| #[trigger] self.holds(i, k) {
                    let i = choose|i: u32| #[trigger] self.holds(i, k);
                    assert(before.holds(i, k));
                }
            }
        }
        let ghost grown = *self;
        let mut prev: Option<Named> = Some(value);
        self.slots.set_and_swap(id as usize, &mut prev);
        assert(self.contents() =~= old(self).contents().insert(id, value.name@));
        let prev = match prev {
            Some(v) => {
                proof {
                    assert(grown.holds(id, v.name@));
                }
                Some(self.cache.on_remove(id, v))
            },
            None => None,
        };
        let ghost removed = *self;
        proof {
            assert forall|k: Seq<char>| #[trigger] self.index().contains_key(k) implies self.index()[k] != id && self.holds(self.index()[k], k) by {
                assert(grown.index().contains_key(k));
                assert(grown.holds(grown.index()[k], k));
            }
        }
        match &self.slots[id as usize] {
            Some(v) => self.cache.on_update(id, v),
            None => {},
        }
        proof {
            assert forall|k: Seq<char>| #[trigger] self.index().contains_key(k) implies self.holds(self.index()[k], k) by {
                if k != value.name@ {
                    assert(removed.index().contains_key(k));
                }
            }
            assert forall|k: Seq<char>| (prev is None || k != prev.unwrap().name@) implies #[trigger] self.complete_for(k) by {
                if k != value.name@ {
                    assert(grown.complete_for(k));
                    if exists|i: u32| #[trigger] self.holds(i, k) {
                        let i = choose|i: u32| #[trigger] self.holds(i, k);
                        assert(grown.holds(i, k));
                        assert(grown.index().contains_key(k));
                        assert(removed.index().contains_key(k));
                    }
                }
            }
        }
        match &prev {
            Some(v) => self.repoint(&v.name),
            None => {},
        }
        prev
    }

    /// The name stored under `id`, if any.
    pub fn get(&self, id: u32) -> (r: Option<&Named>)
        ensures
            r is Some <==> self.contents().contains_key(id),
            r is Some ==> r.unwrap().name@ == self.contents()[id],
    {
        if (id as usize) < self.slots.len() {
            match &self.slots[id as usize] {
                Some(v) => {
                    self.cache.on_get(id, v);
                    Some(v)
                },
                None => None,
            }
        } else {
            None
        }
    }

    /// The slot id that `name` leads to: a slot holding `name`, or `None`
    /// when no slot holds it.
    pub fn lookup(&self, name: &str) -> (r: Option<u32>)
        requires
            self.wf(),
        ensures
            r is Some ==> self.holds(r.unwrap(), name@),
            r is None <==> !(exists|i: u32| #[trigger] self.holds(i, name@)),
    {
        let r = self.cache.lookup(name);
        proof {
            assert(self.complete_for(name@));
            if r is Some {
                assert(self.index().contains_key(name@));
                assert(self.holds(r.unwrap(), name@));
            }
        }
        r
    }
}

/// Lookup of an entity by its name.
pub trait FindNamed {
    /// Whether the lookup tables are in a consistent state.
    spec fn find_ready(&self) -> bool;

    /// Whether entity `id` holds the name `name`.
    spec fn names(&self, id: u32, name: Seq<char>) -> bool;

    /// Whether no entity holds the name `name`.
    spec fn names_none(&self, name: Seq<char>) -> bool;

    /// The entity holding `name`, if any.
    fn find(&self, name: &str) -> (r: Option<u32>)
        requires
            self.find_ready(),
        ensures
            r is Some ==> self.names(r.unwrap(), name@),
            r is None <==> self.names_none(name@),
    ;
}

impl FindNamed for NamedStorage {
    open spec fn find_ready(&self) -> bool {
        self.wf()
    }

    open spec fn names(&self, id: u32, name: Seq<char>) -> bool {
        self.holds(id, name)
    }

    open spec fn names_none(&self, name: Seq<char>) -> bool {
        !(exists|i: u32| #[trigger] self.holds(i, name))
    }

    fn find(&self, name: &str) -> Option<u32> {
        self.lookup(name)
    }
}

/// An easy way to give a name to the entity being built.
pub trait WithNamed: Sized {
    /// Adds a name to the entity being built.
    fn named(self, name: String) -> Self;
}

/// In every well-formed named storage, hence after any sequence of inserts,
/// updates and removes, a name is in the index exactly when some slot holds
/// it, and the index leads to a slot holding it.
pub proof fn lemma_index_matches_contents(s: NamedStorage, k: Seq<char>)
    requires
        s.wf(),
    ensures
        s.index().contains_key(k) <==> exists|i: u32| #[trigger] s.holds(i, k),
        s.index().contains_key(k) ==> s.holds(s.index()[k], k),
{
    assert(s.complete_for(k));
    if s.index().contains_key(k) {
        assert(s.holds(s.index()[k], k));
    }
}

} // verus!
