//! What a thread did to what it shares with others, and the proof that it did it.
//!
//! A log can be added to only by giving back a lock that was taken. What is noted is
//! what the lock guarded, and what was put in its place. A lock is taken with a log in
//! hand, and only where the thread of that log holds none: no thread ever holds two.

use vstd::prelude::*;
use vstd::rwlock::{ReadHandle, RwLock, RwLockPredicate, WriteHandle};

use crate::history::{Chain, Step};

verus! {

/// What is shared of one node.
pub struct Node {
    /// Its neighbours on each level.
    pub lists: Vec<Vec<u32>>,
    /// What it chose on each level that it has joined.
    pub chose: Vec<Vec<u32>>,
    /// The nodes that it has linked back to on each level.
    pub linked: Vec<Vec<u32>>,
    /// Whether it has joined the levels from `low` down to `lev`, each from what was
    /// found on the one above.
    pub on: bool,
    pub low: usize,
    pub lev: usize,
    /// What was found on level `lev`, where that is not the last.
    pub next: Vec<u32>,
    /// How each list came to be.
    pub hist: Ghost<Seq<Seq<Step>>>,
    /// The searches by which it has joined those levels.
    pub chain: Ghost<Chain>,
}

/// What is shared of some nodes.
pub type Nodes = Vec<Node>;

/// The lists of one node.
pub open spec fn lists_of(node: Node) -> Seq<Seq<u32>> {
    Seq::new(node.lists@.len(), |lev: int| node.lists@[lev]@)
}

/// Something that a thread did.
pub enum Deed {
    /// It read the entry and the level that the entry reaches.
    Enter { top: (u32, u8) },
    /// It read a list.
    Read { id: u32, lev: nat, list: Seq<u32> },
    /// It read all lists of a node at once.
    Copy { id: u32, lists: Seq<Seq<u32>> },
    /// It put `list` in place of `cur`.
    Put { id: u32, lev: nat, cur: Seq<u32>, list: Seq<u32> },
    /// It put the entry `top` in place of `seen`.
    Raise { seen: (u32, u8), top: (u32, u8) },
}

/// The list on level `lev` of the node in place `slot`, empty where the node does not
/// reach that level.
pub open spec fn list_at(nodes: Seq<Node>, slot: int, lev: int) -> Seq<u32> {
    if lev < nodes[slot].lists@.len() {
        nodes[slot].lists@[lev]@
    } else {
        Seq::empty()
    }
}

/// `after` is `before` with one list replaced.
pub open spec fn placed(
    before: Seq<Node>,
    after: Seq<Node>,
    slot: int,
    lev: int,
    list: Seq<u32>,
) -> bool {
    &&& after.len() == before.len()
    &&& after[slot].lists@.len() == before[slot].lists@.len()
    &&& after[slot].lists@[lev]@ == list
    &&& forall|k: int| 0 <= k < after.len() && k != slot ==> #[trigger] after[k] == before[k]
    &&& forall|l: int|
        0 <= l < after[slot].lists@.len() && l != lev ==> #[trigger] after[slot].lists@[l]
            == before[slot].lists@[l]
}

/// A lock that was taken to change what it guards.
pub struct Hold<'a, V, P: RwLockPredicate<V>> {
    handle: WriteHandle<'a, V, P>,
    was: Ghost<V>,
}

impl<'a, V, P: RwLockPredicate<V>> Hold<'a, V, P> {
    /// What the lock guarded when it was taken.
    pub closed spec fn was(&self) -> V {
        self.was@
    }

    /// The lock.
    pub closed spec fn lock(&self) -> RwLock<V, P> {
        self.handle.rwlock()
    }
}

/// Take a lock, and what it guards, where the thread holds no lock.
pub(crate) fn take<'a, V, P: RwLockPredicate<V>>(lock: &'a RwLock<V, P>, log: &mut Log) -> (r: (
    V,
    Hold<'a, V, P>,
))
    requires
        !old(log).holds(),
    ensures
        lock.inv(r.0),
        r.1.was() == r.0,
        r.1.lock() == *lock,
        final(log)@ == old(log)@,
        final(log).holds(),
{
    let (v, handle) = lock.acquire_write();
    let was = Ghost(v);
    log.busy = Ghost(true);
    (v, Hold { handle, was })
}

/// Take a lock to read what it guards, where the thread holds no lock.
pub(crate) fn look<'a, V, P: RwLockPredicate<V>>(lock: &'a RwLock<V, P>, log: &mut Log) -> (r:
    ReadHandle<'a, V, P>)
    requires
        !old(log).holds(),
    ensures
        lock.inv(r.view()),
        r.rwlock() == *lock,
        final(log)@ == old(log)@,
        final(log).holds(),
{
    log.busy = Ghost(true);
    lock.acquire_read()
}

/// What a thread has done so far.
pub struct Log {
    deeds: Ghost<Seq<Deed>>,
    busy: Ghost<bool>,
}

impl View for Log {
    type V = Seq<Deed>;

    closed spec fn view(&self) -> Seq<Deed> {
        self.deeds@
    }
}

impl Log {
    /// Whether the thread holds a lock.
    pub closed spec fn holds(&self) -> bool {
        self.busy@
    }

    /// The log of a thread that has done nothing.
    pub(crate) fn new() -> (r: Self)
        ensures
            r@ == Seq::<Deed>::empty(),
            !r.holds(),
    {
        Log { deeds: Ghost(Seq::empty()), busy: Ghost(false) }
    }

    /// Note a deed, now that the lock is given back.
    fn note(&mut self, Ghost(d): Ghost<Deed>)
        ensures
            final(self)@ == old(self)@.push(d),
            !final(self).holds(),
    {
        let ghost earlier = self.deeds@;
        self.deeds = Ghost(earlier.push(d));
        self.busy = Ghost(false);
    }

    /// Give back the lock under which the list on level `lev` of node `id`, in place
    /// `slot`, was read.
    pub(crate) fn seen<'a, P: RwLockPredicate<Nodes>>(
        &mut self,
        handle: ReadHandle<'a, Nodes, P>,
        id: u32,
        slot: usize,
        lev: usize,
    )
        requires
            old(self).holds(),
        ensures
            !final(self).holds(),
            final(self)@ == old(self)@.push(
                Deed::Read {
                    id,
                    lev: lev as nat,
                    list: list_at(handle.view()@, slot as int, lev as int),
                },
            ),
    {
        let ghost list = list_at(handle.view()@, slot as int, lev as int);
        handle.release_read();
        self.note(Ghost(Deed::Read { id, lev: lev as nat, list }));
    }

    /// Give back a lock and what it is to guard from now on: what it did, but for the
    /// list on level `lev` of node `id`, in place `slot`.
    pub(crate) fn put<'a, P: RwLockPredicate<Nodes>>(
        &mut self,
        hold: Hold<'a, Nodes, P>,
        nodes: Nodes,
        id: u32,
        slot: usize,
        lev: usize,
    )
        requires
            old(self).holds(),
            hold.lock().inv(nodes),
            slot < nodes@.len(),
            lev < nodes@[slot as int].lists@.len(),
            placed(
                hold.was()@,
                nodes@,
                slot as int,
                lev as int,
                nodes@[slot as int].lists@[lev as int]@,
            ),
        ensures
            !final(self).holds(),
            final(self)@ == old(self)@.push(
                Deed::Put {
                    id,
                    lev: lev as nat,
                    cur: list_at(hold.was()@, slot as int, lev as int),
                    list: list_at(nodes@, slot as int, lev as int),
                },
            ),
    {
        let ghost cur = list_at(hold.was()@, slot as int, lev as int);
        let ghost list = list_at(nodes@, slot as int, lev as int);
        hold.handle.release_write(nodes);
        self.note(Ghost(Deed::Put { id, lev: lev as nat, cur, list }));
    }

    /// Give back the lock under which all lists of node `id`, in place `slot`, were read.
    pub(crate) fn copied<'a, P: RwLockPredicate<Nodes>>(
        &mut self,
        handle: ReadHandle<'a, Nodes, P>,
        id: u32,
        slot: usize,
    )
        requires
            old(self).holds(),
        ensures
            !final(self).holds(),
            final(self)@ == old(self)@.push(
                Deed::Copy { id, lists: lists_of(handle.view()@[slot as int]) },
            ),
    {
        let ghost lists = lists_of(handle.view()@[slot as int]);
        handle.release_read();
        self.note(Ghost(Deed::Copy { id, lists }));
    }

    /// Give back the lock under which the entry was read.
    pub(crate) fn entered<'a, P: RwLockPredicate<(u32, u8)>>(
        &mut self,
        handle: ReadHandle<'a, (u32, u8), P>,
    )
        requires
            old(self).holds(),
        ensures
            !final(self).holds(),
            final(self)@ == old(self)@.push(Deed::Enter { top: handle.view() }),
    {
        let ghost top = handle.view();
        handle.release_read();
        self.note(Ghost(Deed::Enter { top }));
    }

    /// Give back the lock of the entry, and the entry from now on.
    pub(crate) fn raised<'a, P: RwLockPredicate<(u32, u8)>>(
        &mut self,
        hold: Hold<'a, (u32, u8), P>,
        top: (u32, u8),
    )
        requires
            old(self).holds(),
            hold.lock().inv(top),
        ensures
            !final(self).holds(),
            final(self)@ == old(self)@.push(Deed::Raise { seen: hold.was(), top }),
    {
        let ghost seen = hold.was();
        hold.handle.release_write(top);
        self.note(Ghost(Deed::Raise { seen, top }));
    }
}

/// `log` has one deed more than `earlier`.
pub open spec fn adds_one(earlier: Seq<Deed>, log: Seq<Deed>) -> bool {
    log.len() == earlier.len() + 1 && log.drop_last() == earlier
}

} // verus!
