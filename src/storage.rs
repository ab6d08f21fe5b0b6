use std::marker::PhantomData;
use std::sync::Arc;

use crossbeam::queue::SegQueue;
use hibitset::BitSet;
use vstd::prelude::*;

use crate::handle::{share, Handle, MAX_ID};

verus! {

#[verifier::external_type_specification]
#[verifier::external_body]
pub struct ExBitSet(BitSet);

#[verifier::external_type_specification]
#[verifier::external_body]
#[verifier::reject_recursive_types(T)]
pub struct ExSegQueue<T>(SegQueue<T>);

/// The ids held by a presence bitset.
pub uninterp spec fn bits_of(b: BitSet) -> Set<u32>;

/// The ids held by a queue of ids, front first.
pub uninterp spec fn queued_ids(q: SegQueue<u32>) -> Seq<u32>;

/// Relies on `BitSet::new`: a new set is empty.
#[verifier::external_body]
fn bits_new() -> (r: BitSet)
    ensures
        bits_of(r) == Set::<u32>::empty(),
{
    BitSet::new()
}

/// Relies on `BitSet::add`: inserts `id` and tells whether it was there; it
/// panics only above `2^20` on the smallest targets.
#[verifier::external_body]
fn bits_add(b: &mut BitSet, id: u32) -> (r: bool)
    requires
        id < MAX_ID,
    ensures
        r == bits_of(*old(b)).contains(id),
        bits_of(*final(b)) == bits_of(*old(b)).insert(id),
{
    b.add(id)
}

/// Relies on `BitSet::remove`: takes `id` out and tells whether it was there.
#[verifier::external_body]
fn bits_remove(b: &mut BitSet, id: u32) -> (r: bool)
    ensures
        r == bits_of(*old(b)).contains(id),
        bits_of(*final(b)) == bits_of(*old(b)).remove(id),
{
    b.remove(id)
}

/// Relies on `BitSet::contains`.
#[verifier::external_body]
fn bits_contains(b: &BitSet, id: u32) -> (r: bool)
    ensures
        r == bits_of(*b).contains(id),
{
    b.contains(id)
}

/// Relies on `SegQueue`'s `Default`, which makes an empty queue.
#[verifier::external_body]
fn ids_new() -> (r: SegQueue<u32>)
    ensures
        queued_ids(r) == Seq::<u32>::empty(),
{
    SegQueue::default()
}

/// Relies on `SegQueue::push_mut`: `id` goes to the back.
#[verifier::external_body]
fn ids_push(q: &mut SegQueue<u32>, id: u32)
    ensures
        queued_ids(*final(q)) == queued_ids(*old(q)).push(id),
{
    q.push_mut(id)
}

/// Relies on `SegQueue::pop_mut`: the front leaves the queue, and `None`
/// comes only from an empty queue.
#[verifier::external_body]
fn ids_pop(q: &mut SegQueue<u32>) -> (r: Option<u32>)
    ensures
        queued_ids(*old(q)).len() == 0 ==> r is None && queued_ids(*final(q)) == queued_ids(*old(q)),
        queued_ids(*old(q)).len() > 0 ==> r == Some(queued_ids(*old(q))[0])
            && queued_ids(*final(q)) == queued_ids(*old(q)).drop_first(),
{
    q.pop_mut()
}

/// Relies on `SegQueue::new`, for a queue shared through an `Arc` with the producers.
#[verifier::external_body]
fn pending_new<T>() -> (r: Arc<SegQueue<T>>) {
    Arc::new(SegQueue::new())
}

/// Relies on `SegQueue::len` on a queue that producers fill concurrently:
/// nothing is known of the count.
#[verifier::external_body]
fn pending_len<T>(q: &Arc<SegQueue<T>>) -> (r: usize) {
    q.len()
}

/// Relies on `SegQueue::pop` on a queue that producers fill concurrently:
/// nothing is known of what comes out.
#[verifier::external_body]
fn pending_pop<T>(q: &Arc<SegQueue<T>>) -> (r: Option<T>) {
    q.pop()
}

/// Issues strictly increasing ids, never reaching `MAX_ID`.
pub struct HandleAllocator {
    next: u32,
}

impl HandleAllocator {
    /// The id that the next call of `next_id` hands out.
    pub closed spec fn peek(&self) -> u32 {
        self.next
    }

    pub closed spec fn wf(&self) -> bool {
        self.next <= MAX_ID
    }

    pub fn new() -> (r: Self)
        ensures
            r.wf(),
            r.peek() == 0,
    {
        HandleAllocator { next: 0 }
    }

    /// A new id, or `None` once the id space is exhausted.
    pub fn next_id(&mut self) -> (r: Option<u32>)
        requires
            old(self).wf(),
        ensures
            final(self).wf(),
            old(self).peek() < MAX_ID ==> r == Some(old(self).peek()) && final(self).peek()
                == old(self).peek() + 1,
            old(self).peek() >= MAX_ID ==> r is None && final(self).peek() == old(self).peek(),
    {
        if self.next < MAX_ID {
            let id = self.next;
            self.next = self.next + 1;
            Some(id)
        } else {
            None
        }
    }
}

/// The kind of asset a storage holds, and the data it is made from.
pub trait Asset: Sized {
    type Data;
}

/// Finished data for one handle, waiting to be turned into an asset.
pub struct Processed<A: Asset> {
    pub data: Result<A::Data, String>,
    pub format: String,
    pub handle: Handle<A>,
    pub name: String,
}

/// An asset that could not be made, with the name and format it was loaded under.
pub struct AssetError {
    pub name: String,
    pub format: String,
    pub message: String,
}

/// What a slot holds.
pub enum SlotState<A> {
    Free,
    Reserved,
    Occupied(A),
}

/// One slot: free, handed out but not yet filled, or filled. A slot that is
/// not free keeps the storage's own copy of its handle.
enum Slot<A> {
    Free,
    Reserved(Handle<A>),
    Occupied(Handle<A>, A),
}

impl<A> Slot<A> {
    spec fn state(&self) -> SlotState<A> {
        match self {
            Slot::Free => SlotState::Free,
            Slot::Reserved(_) => SlotState::Reserved,
            Slot::Occupied(_, a) => SlotState::Occupied(*a),
        }
    }

    spec fn names(&self, id: int) -> bool {
        match self {
            Slot::Free => true,
            Slot::Reserved(h) => h@ == id,
            Slot::Occupied(h, _) => h@ == id,
        }
    }
}

/// The ids that reclamation frees among the first `n` slots, in increasing
/// order: those in use whose handle was observed unused.
pub open spec fn released<A>(states: Seq<SlotState<A>>, unused: Seq<bool>, n: int) -> Seq<u32>
    decreases n,
{
    if n <= 0 {
        Seq::empty()
    } else {
        let earlier = released(states, unused, n - 1);
        if unused[n - 1] && !(states[n - 1] is Free) {
            earlier.push((n - 1) as u32)
        } else {
            earlier
        }
    }
}

/// What a slot holds after reclamation.
pub open spec fn after_reclaim<A>(state: SlotState<A>, unused: bool) -> SlotState<A> {
    if unused && !(state is Free) {
        SlotState::Free
    } else {
        state
    }
}

/// `new` is `old` after handing out `id`: a slot that was not in use is
/// reserved, and no other slot changes whether it is in use.
pub open spec fn allocated<A: Asset>(old: AssetStorage<A>, new: AssetStorage<A>, id: u32) -> bool {
    &&& !old.in_use(id)
    &&& id < new.states().len()
    &&& new.states()[id as int] is Reserved
    &&& forall|x: u32| x != id ==> (new.in_use(x) == old.in_use(x))
}

/// `new` is `old` after reclaiming the slots flagged in `unused`: those in
/// use are freed and their ids queued for reuse.
pub open spec fn reclaimed<A: Asset>(old: AssetStorage<A>, new: AssetStorage<A>, unused: Seq<bool>) -> bool {
    &&& new.states().len() == old.states().len()
    &&& new.free_ids() == old.free_ids() + released(old.states(), unused, old.states().len() as int)
    &&& forall|i: int|
        0 <= i < old.states().len() ==> #[trigger] new.states()[i] == after_reclaim(
            old.states()[i],
            unused[i],
        )
}

proof fn lemma_released_contains<A>(states: Seq<SlotState<A>>, unused: Seq<bool>, n: int, id: u32)
    requires
        0 <= id < n,
        unused[id as int],
        !(states[id as int] is Free),
    ensures
        released(states, unused, n).contains(id),
    decreases n,
{
    if id as int == n - 1 {
        assert(released(states, unused, n).last() == id);
    } else {
        lemma_released_contains(states, unused, n - 1, id);
        let earlier = released(states, unused, n - 1);
        let k = choose|k: int| 0 <= k < earlier.len() && earlier[k] == id;
        assert(released(states, unused, n)[k] == id);
    }
}

/// Once only the storage's own copy of a handle is left and reclamation
/// runs, the handle's slot is free and its id is queued for reuse.
pub proof fn lemma_reclaim_frees<A: Asset>(
    s0: AssetStorage<A>,
    s1: AssetStorage<A>,
    unused: Seq<bool>,
    id: u32,
)
    requires
        s0.in_use(id),
        unused.len() == s0.states().len(),
        unused[id as int],
        reclaimed(s0, s1, unused),
    ensures
        !s1.in_use(id),
        s1.value_at(id) is None,
        s1.free_ids().contains(id),
{
    assert(s1.states()[id as int] == after_reclaim(s0.states()[id as int], unused[id as int]));
    lemma_released_contains(s0.states(), unused, s0.states().len() as int, id);
    let rel = released(s0.states(), unused, s0.states().len() as int);
    let k = choose|k: int| 0 <= k < rel.len() && rel[k] == id;
    assert(s1.free_ids()[s0.free_ids().len() + k] == id);
}

/// In a consistent storage, an id of a slot is in use exactly when it is
/// not queued for reuse, and the queue of freed ids holds each id at most
/// once, each naming a slot that is not in use.
pub proof fn lemma_free_ids_not_in_use<A: Asset>(s: AssetStorage<A>)
    requires
        s.wf(),
    ensures
        s.free_ids().no_duplicates(),
        forall|k: int|
            0 <= k < s.free_ids().len() ==> #[trigger] s.free_ids()[k] < s.states().len()
                && !s.in_use(s.free_ids()[k]),
        forall|id: u32| id < s.states().len() ==> (#[trigger] s.in_use(id) <==> !s.free_ids().contains(id)),
{
    assert forall|k: int| 0 <= k < s.free_ids().len() implies #[trigger] s.free_ids()[k] < s.states().len()
        && !s.in_use(s.free_ids()[k]) by {
        let id = s.free_ids()[k];
        assert(s.free_ids().contains(id));
        assert(s.slots@[id as int] is Free);
    }
    assert forall|id: u32| id < s.states().len() implies (#[trigger] s.in_use(id) <==> !s.free_ids().contains(id)) by {
        assert(s.slots@[id as int] is Free <==> s.free_ids().contains(id as u32));
    }
}

/// The id that an allocation hands out differs from the id of every handle
/// in use before it, and those stay in use.
pub proof fn lemma_allocation_avoids_live_ids<A: Asset>(
    s0: AssetStorage<A>,
    s1: AssetStorage<A>,
    id: u32,
    other: u32,
)
    requires
        allocated(s0, s1, id),
        s0.in_use(other),
    ensures
        other != id,
        s1.in_use(other),
{
}

/// Reclamation from an empty queue of freed ids leaves exactly the released
/// ids queued, in increasing order, so the next allocations reuse them first.
pub proof fn lemma_reclaim_queues_released<A: Asset>(
    s0: AssetStorage<A>,
    s1: AssetStorage<A>,
    unused: Seq<bool>,
)
    requires
        s0.free_ids().len() == 0,
        reclaimed(s0, s1, unused),
    ensures
        s1.free_ids() == released(s0.states(), unused, s0.states().len() as int),
{
    assert(s0.free_ids() + released(s0.states(), unused, s0.states().len() as int)
        =~= released(s0.states(), unused, s0.states().len() as int));
}

/// While a handle's id is in use, the storage never hands out that id again:
/// two allocations in a row give different ids.
pub proof fn lemma_allocations_distinct<A: Asset>(
    s0: AssetStorage<A>,
    s1: AssetStorage<A>,
    s2: AssetStorage<A>,
    a: u32,
    b: u32,
)
    requires
        allocated(s0, s1, a),
        allocated(s1, s2, b),
    ensures
        a != b,
        s2.in_use(a),
        s2.in_use(b),
{
}

/// A slot freed by reclamation holds no asset, and when its id is handed out
/// again the new handle does not see the old asset.
pub proof fn lemma_no_revival<A: Asset>(
    s0: AssetStorage<A>,
    s1: AssetStorage<A>,
    s2: AssetStorage<A>,
    unused: Seq<bool>,
    id: u32,
)
    requires
        s0.in_use(id),
        unused.len() == s0.states().len(),
        unused[id as int],
        reclaimed(s0, s1, unused),
        allocated(s1, s2, id),
    ensures
        !s1.in_use(id),
        s1.value_at(id) is None,
        s2.value_at(id) is None,
{
    assert(s1.states()[id as int] == after_reclaim(s0.states()[id as int], unused[id as int]));
}

/// `new` and `r` are what integrating `item` into `old` with the converter
/// `f` gives: the asset goes into the item's slot, or an error naming the
/// item comes back and the slots stay as they were.
pub open spec fn integrated<A: Asset, F: Fn(A::Data) -> Result<A, String>>(
    old: AssetStorage<A>,
    new: AssetStorage<A>,
    item: Processed<A>,
    f: F,
    r: Option<AssetError>,
) -> bool {
    &&& new.free_ids() == old.free_ids()
    &&& forall|id: u32| new.in_use(id) == old.in_use(id)
    &&& r is Some ==> new.states() == old.states()
    &&& r is Some ==> r.unwrap().name == item.name && r.unwrap().format == item.format
    &&& !old.in_use(item.handle@) ==> r is Some
    &&& old.in_use(item.handle@) ==> match item.data {
        Err(e) => r == Some(AssetError { name: item.name, format: item.format, message: e }),
        Ok(d) => exists|c: Result<A, String>|
            #[trigger] f.ensures((d,), c) && match c {
                Ok(a) => r is None && new.states() == old.states().update(
                    item.handle@ as int,
                    SlotState::Occupied(a),
                ),
                Err(e) => r == Some(AssetError { name: item.name, format: item.format, message: e }),
            },
    }
}

/// Whether `f` turns every piece of data into an asset.
pub open spec fn always_converts<A: Asset, F: Fn(A::Data) -> Result<A, String>>(f: F) -> bool {
    forall|d: A::Data, c: Result<A, String>| #[trigger] f.ensures((d,), c) ==> c is Ok
}

/// `chain` runs through the states that integrating `items` one after the
/// other gives, with `results` what each step returned.
pub open spec fn integrated_all<A: Asset, F: Fn(A::Data) -> Result<A, String>>(
    chain: Seq<AssetStorage<A>>,
    items: Seq<Processed<A>>,
    results: Seq<Option<AssetError>>,
    f: F,
) -> bool {
    &&& chain.len() == items.len() + 1
    &&& results.len() == items.len()
    &&& forall|i: int|
        0 <= i < items.len() ==> #[trigger] integrated(chain[i], chain[i + 1], items[i], f, results[i])
}

/// The errors among `results`, in order.
pub open spec fn reported(results: Seq<Option<AssetError>>) -> Seq<AssetError>
    decreases results.len(),
{
    if results.len() == 0 {
        Seq::empty()
    } else {
        let earlier = reported(results.drop_last());
        match results.last() {
            Some(e) => earlier.push(e),
            None => earlier,
        }
    }
}

/// Integrating an item whose data `d` the converter turns into `a` stores
/// `a` under the item's handle, with no error.
pub proof fn lemma_round_trip<A: Asset, F: Fn(A::Data) -> Result<A, String>>(
    s0: AssetStorage<A>,
    s1: AssetStorage<A>,
    item: Processed<A>,
    f: F,
    d: A::Data,
    a: A,
    r: Option<AssetError>,
)
    requires
        s0.in_use(item.handle@),
        item.data == Ok::<A::Data, String>(d),
        forall|c: Result<A, String>| #[trigger] f.ensures((d,), c) ==> c == Ok::<A, String>(a),
        integrated(s0, s1, item, f, r),
    ensures
        r is None,
        s1.value_at(item.handle@) == Some(a),
{
    let c = choose|c: Result<A, String>| #[trigger] f.ensures((d,), c) && match c {
        Ok(x) => r is None && s1.states() == s0.states().update(
            item.handle@ as int,
            SlotState::Occupied(x),
        ),
        Err(e) => r == Some(AssetError { name: item.name, format: item.format, message: e }),
    };
    assert(c == Ok::<A, String>(a));
}

/// An item whose data failed and an item whose data converts, integrated in
/// either order: exactly one error comes back, and exactly the slot of the
/// converting item is filled.
pub proof fn lemma_failure_isolation<A: Asset, F: Fn(A::Data) -> Result<A, String>>(
    s0: AssetStorage<A>,
    s1: AssetStorage<A>,
    s2: AssetStorage<A>,
    bad: Processed<A>,
    good: Processed<A>,
    f: F,
    bad_first: bool,
    r1: Option<AssetError>,
    r2: Option<AssetError>,
)
    requires
        s0.in_use(bad.handle@),
        s0.in_use(good.handle@),
        bad.handle@ != good.handle@,
        bad.data is Err,
        good.data is Ok,
        always_converts(f),
        bad_first ==> integrated(s0, s1, bad, f, r1) && integrated(s1, s2, good, f, r2),
        !bad_first ==> integrated(s0, s1, good, f, r1) && integrated(s1, s2, bad, f, r2),
    ensures
        r1 is Some != r2 is Some,
        exists|a: A| s2.states() == s0.states().update(good.handle@ as int, SlotState::Occupied(a)),
{
    let d = good.data->Ok_0;
    if bad_first {
        let c = choose|c: Result<A, String>| #[trigger] f.ensures((d,), c) && match c {
            Ok(a) => r2 is None && s2.states() == s1.states().update(
                good.handle@ as int,
                SlotState::Occupied(a),
            ),
            Err(e) => r2 == Some(AssetError { name: good.name, format: good.format, message: e }),
        };
        assert(c is Ok);
    } else {
        let c = choose|c: Result<A, String>| #[trigger] f.ensures((d,), c) && match c {
            Ok(a) => r1 is None && s1.states() == s0.states().update(
                good.handle@ as int,
                SlotState::Occupied(a),
            ),
            Err(e) => r1 == Some(AssetError { name: good.name, format: good.format, message: e }),
        };
        assert(c is Ok);
        assert(s1.in_use(bad.handle@));
    }
}

/// An asset storage, storing the actual assets and allocating
/// handles to them.
#[verifier::reject_recursive_types(A)]
pub struct AssetStorage<A: Asset> {
    slots: Vec<Slot<A>>,
    bitset: BitSet,
    handle_alloc: HandleAllocator,
    processed: Arc<SegQueue<Processed<A>>>,
    unused_handles: SegQueue<u32>,
}

impl<A: Asset> AssetStorage<A> {
    /// What each slot holds, by id.
    pub closed spec fn states(&self) -> Seq<SlotState<A>> {
        self.slots@.map_values(|s: Slot<A>| s.state())
    }

    /// The ids of freed slots, in the order in which they are handed out again.
    pub closed spec fn free_ids(&self) -> Seq<u32> {
        queued_ids(self.unused_handles)
    }

    /// Whether `id` names a slot that was handed out and not freed since.
    pub open spec fn in_use(&self, id: u32) -> bool {
        id < self.states().len() && !(self.states()[id as int] is Free)
    }

    /// The asset stored under `id`, if any.
    pub open spec fn value_at(&self, id: u32) -> Option<A> {
        if id < self.states().len() {
            match self.states()[id as int] {
                SlotState::Occupied(a) => Some(a),
                _ => None,
            }
        } else {
            None
        }
    }

    pub closed spec fn wf(&self) -> bool {
        &&& self.handle_alloc.wf()
        &&& self.slots@.len() == self.handle_alloc.peek()
        &&& forall|i: int| 0 <= i < self.slots@.len() ==> #[trigger] self.slots@[i].names(i)
        &&& forall|id: u32| #[trigger] bits_of(self.bitset).contains(id) <==> (id
            < self.slots@.len() && self.slots@[id as int] is Occupied)
        &&& self.free_ids().no_duplicates()
        &&& forall|k: int| 0 <= k < self.free_ids().len() ==> #[trigger] self.free_ids()[k]
            < self.slots@.len()
        &&& forall|i: int|
            0 <= i < self.slots@.len() ==> (#[trigger] self.slots@[i] is Free
                <==> self.free_ids().contains(i as u32))
    }

    /// Creates a new asset storage.
    pub fn new() -> (r: Self)
        ensures
            r.wf(),
            r.states().len() == 0,
            r.free_ids().len() == 0,
    {
        let r = AssetStorage {
            slots: Vec::new(),
            bitset: bits_new(),
            handle_alloc: HandleAllocator::new(),
            processed: pending_new(),
            unused_handles: ids_new(),
        };
        assert(r.states() =~= Seq::<SlotState<A>>::empty());
        r
    }
    /// Allocate a new handle: a freed id if there is one, else a new id.
    /// `None` once the id space is exhausted. The id was not in use before.
    pub fn allocate(&mut self) -> (r: Option<Handle<A>>)
        requires
            old(self).wf(),
        ensures
            final(self).wf(),
            old(self).free_ids().len() > 0 ==> r is Some && r.unwrap()@ == old(self).free_ids()[0]
                && final(self).free_ids() == old(self).free_ids().drop_first()
                && final(self).states() == old(self).states().update(
                r.unwrap()@ as int,
                SlotState::Reserved,
            ),
            old(self).free_ids().len() == 0 && old(self).states().len() < MAX_ID ==> r is Some
                && r.unwrap()@ == old(self).states().len() && final(self).free_ids()
                == old(self).free_ids() && final(self).states() == old(self).states().push(
                SlotState::Reserved,
            ),
            old(self).free_ids().len() == 0 && old(self).states().len() >= MAX_ID ==> r is None
                && final(self).free_ids() == old(self).free_ids() && final(self).states()
                == old(self).states(),
            r is Some ==> allocated(*old(self), *final(self), r.unwrap()@),
    {
        match ids_pop(&mut self.unused_handles) {
            Some(id) => {
                proof {
                    assert(old(self).free_ids().contains(id));
                }
                let h = Handle::fresh(id);
                let kept = h.clone();
                self.slots.set(id as usize, Slot::Reserved(kept));
                proof {
                    assert(self.states() =~= old(self).states().update(id as int, SlotState::Reserved));
                    assert forall|i: int|
                        0 <= i < self.slots@.len() implies (#[trigger] self.slots@[i] is Free
                            <==> self.free_ids().contains(i as u32)) by {
                        if i == id as int {
                            assert(!self.free_ids().contains(id)) by {
                                if self.free_ids().contains(id) {
                                    let k = choose|k: int| 0 <= k < self.free_ids().len() && self.free_ids()[k] == id;
                                    assert(old(self).free_ids()[k + 1] == old(self).free_ids()[0]);
                                }
                            }
                        } else {
                            if old(self).free_ids().contains(i as u32) {
                                let k = choose|k: int| 0 <= k < old(self).free_ids().len() && old(self).free_ids()[k] == i as u32;
                                assert(self.free_ids()[k - 1] == i as u32);
                            }
                            if self.free_ids().contains(i as u32) {
                                let k = choose|k: int| 0 <= k < self.free_ids().len() && self.free_ids()[k] == i as u32;
                                assert(old(self).free_ids()[k + 1] == i as u32);
                            }
                        }
                    }
                    assert forall|k: int| 0 <= k < self.free_ids().len() implies #[trigger] self.free_ids()[k]
                        < self.slots@.len() by {
                        assert(self.free_ids()[k] == old(self).free_ids()[k + 1]);
                    }
                }
                Some(h)
            },
            None => {
                match self.handle_alloc.next_id() {
                    Some(id) => {
                        let h = Handle::fresh(id);
                        let kept = h.clone();
                        self.slots.push(Slot::Reserved(kept));
                        proof {
                            assert(self.states() =~= old(self).states().push(SlotState::Reserved));
                            assert forall|i: int|
                                0 <= i < self.slots@.len() implies (#[trigger] self.slots@[i] is Free
                                    <==> self.free_ids().contains(i as u32)) by {
                                if i == id as int {
                                    assert(self.free_ids().len() == 0);
                                }
                            }
                        }
                        Some(h)
                    },
                    None => None,
                }
            },
        }
    }

    /// Get an asset from a given asset handle; `None` where its slot holds no asset.
    pub fn get(&self, handle: &Handle<A>) -> (r: Option<&A>)
        requires
            self.wf(),
        ensures
            r is Some <==> self.value_at(handle@) is Some,
            r is Some ==> self.value_at(handle@) == Some(*r.unwrap()),
    {
        let id = handle.id();
        if bits_contains(&self.bitset, id) {
            match &self.slots[id as usize] {
                Slot::Occupied(_, a) => Some(a),
                _ => None,
            }
        } else {
            None
        }
    }

    /// Get an asset mutably from a given asset handle; `None` where its slot holds no asset.
    pub fn get_mut(&mut self, handle: &Handle<A>) -> (r: Option<&mut A>)
        requires
            old(self).wf(),
        ensures
            r is Some <==> old(self).value_at(handle@) is Some,
            r is Some ==> old(self).value_at(handle@) == Some(*r.unwrap()),
    {
        let id = handle.id();
        if bits_contains(&self.bitset, id) {
            match &mut self.slots[id as usize] {
                Slot::Occupied(_, a) => Some(a),
                _ => None,
            }
        } else {
            None
        }
    }

    /// Turns one finished item into an asset and stores it under the item's
    /// handle. An item whose handle is not in use here, whose data failed, or
    /// whose conversion failed is reported back and leaves the storage as it was.
    pub fn integrate<F>(&mut self, item: Processed<A>, f: &F) -> (r: Option<AssetError>) where
        F: Fn(A::Data) -> Result<A, String>,
        requires
            old(self).wf(),
            forall|d: A::Data| f.requires((d,)),
        ensures
            final(self).wf(),
            integrated(*old(self), *final(self), item, *f, r),
    {
        let ghost item_name = item.name;
        let ghost item_format = item.format;
        let Processed { data, format, handle, name } = item;
        let id = handle.id();
        let slot_in_use = id < self.handle_alloc.next && match &self.slots[id as usize] {
            Slot::Free => false,
            _ => true,
        };
        if !slot_in_use {
            return Some(AssetError { name, format, message: "handle is not in use in this storage".to_string() });
        }
        let converted = match data {
            Err(e) => { return Some(AssetError { name, format, message: e }); },
            Ok(d) => {
                let c = f(d);
                proof {
                    assert(f.ensures((d,), c));
                }
                c
            },
        };
        match converted {
            Err(e) => Some(AssetError { name, format, message: e }),
            Ok(a) => {
                let mut previous = Slot::Free;
                self.slots.set_and_swap(id as usize, &mut previous);
                proof {
                    assert(old(self).slots@[id as int].names(id as int));
                }
                let kept = match previous {
                    Slot::Reserved(h) => h,
                    Slot::Occupied(h, _) => h,
                    Slot::Free => handle,
                };
                self.slots.set(id as usize, Slot::Occupied(kept, a));
                bits_add(&mut self.bitset, id);
                proof {
                    assert(self.states() =~= old(self).states().update(id as int, SlotState::Occupied(a)));
                    assert(self.slots@[id as int].names(id as int));
                }
                None
            },
        }
    }
    /// Per slot, whether the slot is in use and only the storage's own copy
    /// of its handle remains.
    pub fn unused_slots(&self) -> (r: Vec<bool>)
        requires
            self.wf(),
        ensures
            r@.len() == self.states().len(),
            forall|i: int| 0 <= i < r@.len() && #[trigger] r@[i] ==> !(self.states()[i] is Free),
    {
        let mut r: Vec<bool> = Vec::new();
        let mut i: usize = 0;
        while i < self.slots.len()
            invariant
                i <= self.slots@.len(),
                r@.len() == i,
                forall|j: int| 0 <= j < i && #[trigger] r@[j] ==> !(self.slots@[j] is Free),
            decreases self.slots@.len() - i,
        {
            let unused = match &self.slots[i] {
                Slot::Free => false,
                Slot::Reserved(h) => h.is_unused(),
                Slot::Occupied(h, _) => h.is_unused(),
            };
            r.push(unused);
            i = i + 1;
        }
        r
    }

    /// Frees every slot in use whose flag in `unused` is set: its asset is
    /// dropped, its presence bit cleared and its id queued for reuse.
    pub fn reclaim(&mut self, unused: &Vec<bool>)
        requires
            old(self).wf(),
            unused@.len() == old(self).states().len(),
        ensures
            final(self).wf(),
            reclaimed(*old(self), *final(self), unused@),
    {
        let n = self.slots.len();
        let mut i: usize = 0;
        while i < n
            invariant
                self.wf(),
                n == old(self).slots@.len(),
                n == self.slots@.len(),
                unused@.len() == n,
                i <= n,
                forall|j: int|
                    0 <= j < i ==> #[trigger] self.states()[j] == after_reclaim(
                        old(self).states()[j],
                        unused@[j],
                    ),
                forall|j: int| i <= j < n ==> #[trigger] self.slots@[j] == old(self).slots@[j],
                self.free_ids() == old(self).free_ids() + released(
                    old(self).states(),
                    unused@,
                    i as int,
                ),
            decreases n - i,
        {
            let in_use = match &self.slots[i] {
                Slot::Free => false,
                _ => true,
            };
            proof {
                assert(self.states()[i as int] == old(self).states()[i as int]);
            }
            if unused[i] && in_use {
                let ghost before = *self;
                proof {
                    assert(!self.free_ids().contains(i as u32));
                }
                self.slots.set(i, Slot::Free);
                bits_remove(&mut self.bitset, i as u32);
                ids_push(&mut self.unused_handles, i as u32);
                proof {
                    assert(self.free_ids() =~= old(self).free_ids() + released(
                        old(self).states(),
                        unused@,
                        i + 1,
                    ));
                    assert forall|j: int|
                        0 <= j < self.slots@.len() implies (#[trigger] self.slots@[j] is Free
                            <==> self.free_ids().contains(j as u32)) by {
                        if j != i {
                            assert(before.slots@[j] == self.slots@[j]);
                            if self.free_ids().contains(j as u32) {
                                let k = choose|k: int| 0 <= k < self.free_ids().len() && self.free_ids()[k] == j as u32;
                                if k < before.free_ids().len() {
                                    assert(before.free_ids()[k] == j as u32);
                                }
                            }
                            if before.free_ids().contains(j as u32) {
                                let k = choose|k: int| 0 <= k < before.free_ids().len() && before.free_ids()[k] == j as u32;
                                assert(self.free_ids()[k] == j as u32);
                            }
                        } else {
                            assert(self.free_ids()[before.free_ids().len() as int] == i as u32);
                        }
                    }
                    assert forall|k: int| 0 <= k < self.free_ids().len() implies #[trigger] self.free_ids()[k]
                        < self.slots@.len() by {
                        if k < before.free_ids().len() {
                            assert(self.free_ids()[k] == before.free_ids()[k]);
                        }
                    }
                    assert forall|a: int, b: int| 0 <= a < b < self.free_ids().len() implies self.free_ids()[a] != self.free_ids()[b] by {
                        if b == before.free_ids().len() {
                            assert(before.free_ids().contains(before.free_ids()[a]));
                        } else {
                            assert(before.free_ids()[a] != before.free_ids()[b]);
                        }
                    }
                    assert forall|j: int| 0 <= j < i + 1 implies #[trigger] self.states()[j] == after_reclaim(
                        old(self).states()[j],
                        unused@[j],
                    ) by {
                        if j < i {
                            assert(self.states()[j] == before.states()[j]);
                        }
                    }
                    assert forall|j: int| 0 <= j < self.slots@.len() implies #[trigger] self.slots@[j].names(j) by {
                        if j != i {
                            assert(before.slots@[j] == self.slots@[j]);
                        }
                    }
                }
            } else {
                proof {
                    assert(self.free_ids() =~= old(self).free_ids() + released(
                        old(self).states(),
                        unused@,
                        i + 1,
                    ));
                }
            }
            i = i + 1;
        }
        proof {
            assert(self.slots@.len() == n);
        }
    }
    /// The queue through which producers hand finished data to this storage.
    pub fn pending(&self) -> Arc<SegQueue<Processed<A>>> {
        share(&self.processed)
    }

    /// Process finished asset data and maintain the storage: every item in
    /// the pending queue is integrated, the errors are returned in the order
    /// of the items, and then every slot whose handle is held by the storage
    /// alone is freed.
    pub fn process<F>(&mut self, f: F) -> (r: Vec<AssetError>) where
        F: Fn(A::Data) -> Result<A, String>,
        requires
            old(self).wf(),
            forall|d: A::Data| f.requires((d,)),
        ensures
            final(self).wf(),
            final(self).states().len() == old(self).states().len(),
            forall|id: u32| final(self).in_use(id) ==> old(self).in_use(id),
            exists|chain: Seq<AssetStorage<A>>, items: Seq<Processed<A>>, results: Seq<Option<AssetError>>, unused: Seq<bool>|
                #[trigger] integrated_all(chain, items, results, f) && chain[0] == *old(self)
                    && #[trigger] reclaimed(chain.last(), *final(self), unused) && r@ == reported(results),
    {
        let mut errors: Vec<AssetError> = Vec::new();
        let ghost chain: Seq<AssetStorage<A>> = seq![*self];
        let ghost items: Seq<Processed<A>> = Seq::empty();
        let ghost results: Seq<Option<AssetError>> = Seq::empty();
        // Items pushed while the queue is being drained wait for the next call.
        let count = pending_len(&self.processed);
        let mut done: usize = 0;
        while done < count
            invariant
                self.wf(),
                self.states().len() == old(self).states().len(),
                forall|id: u32| self.in_use(id) ==> old(self).in_use(id),
                forall|d: A::Data| f.requires((d,)),
                integrated_all(chain, items, results, f),
                chain[0] == *old(self),
                chain.last() == *self,
                errors@ == reported(results),
            decreases count - done,
        {
            match pending_pop(&self.processed) {
                Some(item) => {
                    let ghost before = *self;
                    let ghost it = item;
                    let res = self.integrate(item, &f);
                    proof {
                        let ghost old_chain = chain;
                        let ghost old_items = items;
                        let ghost old_results = results;
                        chain = chain.push(*self);
                        items = items.push(it);
                        results = results.push(res);
                        assert forall|i: int| 0 <= i < items.len() implies #[trigger] integrated(
                            chain[i],
                            chain[i + 1],
                            items[i],
                            f,
                            results[i],
                        ) by {
                            if i < old_items.len() {
                                assert(chain[i] == old_chain[i]);
                                assert(chain[i + 1] == old_chain[i + 1]);
                                assert(integrated(old_chain[i], old_chain[i + 1], old_items[i], f, old_results[i]));
                            }
                        }
                        assert(results.drop_last() == old_results);
                        assert forall|id: u32| self.in_use(id) implies before.in_use(id) by {}
                    }
                    match res {
                        Some(e) => errors.push(e),
                        None => {},
                    }
                },
                None => break,
            }
            done = done + 1;
        }
        let unused = self.unused_slots();
        let ghost before = *self;
        self.reclaim(&unused);
        proof {
            assert forall|id: u32| self.in_use(id) implies before.in_use(id) by {
                assert(self.states()[id as int] == after_reclaim(before.states()[id as int], unused@[id as int]));
            }
            assert(integrated_all(chain, items, results, f) && chain[0] == *old(self)
                && reclaimed(chain.last(), *self, unused@) && errors@ == reported(results));
        }
        errors
    }
}

/// The default asset processing system, which converts data to assets and
/// maintains the asset storage for `A`.
pub struct Processor<A> {
    marker: PhantomData<A>,
}

impl<A> Processor<A> {
    /// Creates a new asset processor for assets of type `A`.
    pub fn new() -> Self {
        Processor { marker: PhantomData }
    }
}

impl<A: Asset> Processor<A> {
    /// One maintenance pass over `storage`, turning data into assets with `f`.
    pub fn run<F>(&mut self, storage: &mut AssetStorage<A>, f: F) -> (r: Vec<AssetError>) where
        F: Fn(A::Data) -> Result<A, String>,
        requires
            old(storage).wf(),
            forall|d: A::Data| f.requires((d,)),
        ensures
            final(storage).wf(),
            final(storage).states().len() == old(storage).states().len(),
            forall|id: u32| final(storage).in_use(id) ==> old(storage).in_use(id),
            exists|chain: Seq<AssetStorage<A>>, items: Seq<Processed<A>>, results: Seq<Option<AssetError>>, unused: Seq<bool>|
                #[trigger] integrated_all(chain, items, results, f) && chain[0] == *old(storage)
                    && #[trigger] reclaimed(chain.last(), *final(storage), unused) && r@ == reported(results),
    {
        storage.process(f)
    }
}

} // verus!
