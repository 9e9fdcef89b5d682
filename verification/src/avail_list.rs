//! Availability list
//!
//! The pool knows each worker by its identity, a plain number that stays the
//! same for as long as the worker lives. The availability list tracks two
//! things about the workers it knows: which of them exist at all (the
//! identity index) and which of those may be handed a connection right now,
//! and in which order (the recency order). The front of the order is the top
//! of the stack.
//!
//! A worker in the order is always in the index; a worker in the index need
//! not be in the order.

use std::collections::BTreeMap;
use std::collections::VecDeque;
use std::sync::Arc;
use vstd::prelude::*;

verus! {

/// What came of putting a known worker back into the order.
#[derive(Clone, Copy, Debug, PartialEq, Eq, Structural)]
pub enum InsertExistingResult {
    /// The worker was put into the order.
    Inserted,
    /// The index does not know the worker.
    NoMatch,
    /// The worker was in the order already; nothing changed.
    AlreadyInList,
}

/// The mathematical model of an availability list.
pub struct Availability<T> {
    /// The identities of the available workers, most recent first.
    pub order: Seq<usize>,
    /// The handle of every known worker, by identity.
    pub index: Map<usize, Arc<T>>,
}

impl<T> Availability<T> {
    /// The list that knows no worker.
    pub open spec fn empty() -> Self {
        Availability { order: Seq::empty(), index: Map::empty() }
    }

    /// Every worker in the order is in the index, and stands in the order
    /// once.
    pub open spec fn valid(self) -> bool {
        &&& self.order.no_duplicates()
        &&& forall|i: int|
            0 <= i < self.order.len() ==> self.index.contains_key(#[trigger] self.order[i])
        &&& self.index.dom().finite()
    }

    /// Whether the index knows `key`.
    pub open spec fn tracks(self, key: usize) -> bool {
        self.index.contains_key(key)
    }

    /// Whether `key` stands in the order.
    pub open spec fn lists(self, key: usize) -> bool {
        self.order.contains(key)
    }

    /// The list with `key` at the front of the order.
    pub open spec fn with_front(self, key: usize) -> Self {
        Availability { order: seq![key] + self.order, index: self.index }
    }

    /// The list with `key` at the back of the order.
    pub open spec fn with_back(self, key: usize) -> Self {
        Availability { order: self.order.push(key), index: self.index }
    }

    /// The list with `shared` in the index under `key`.
    pub open spec fn with_entry(self, key: usize, shared: Arc<T>) -> Self {
        Availability { order: self.order, index: self.index.insert(key, shared) }
    }

    /// What putting `key` back into the order comes to.
    pub open spec fn admission(self, key: usize) -> InsertExistingResult {
        if !self.tracks(key) {
            InsertExistingResult::NoMatch
        } else if self.lists(key) {
            InsertExistingResult::AlreadyInList
        } else {
            InsertExistingResult::Inserted
        }
    }

    /// The list with the order's element at `position` taken out of the
    /// order; the index stays.
    pub open spec fn without_position(self, position: int) -> Self {
        Availability { order: self.order.remove(position), index: self.index }
    }

    /// The list with `key` taken out of the order, if it stands there; the
    /// index stays.
    pub open spec fn without_listing(self, key: usize) -> Self {
        if self.lists(key) {
            self.without_position(self.order.index_of(key))
        } else {
            self
        }
    }

    /// The list with `key` taken out of the order and out of the index.
    pub open spec fn without(self, key: usize) -> Self {
        Availability { order: self.without_listing(key).order, index: self.index.remove(key) }
    }

    /// The list with an empty order; the index stays.
    pub open spec fn without_order(self) -> Self {
        Availability { order: Seq::empty(), index: self.index }
    }

    /// The handle of worker `key`, if the index knows the worker.
    pub open spec fn handle(self, key: usize) -> Option<Arc<T>> {
        if self.tracks(key) {
            Some(self.index[key])
        } else {
            None
        }
    }

    /// The list after a new worker `key` was to be tracked and put at the
    /// front of the order: a worker that the index knows already stays as
    /// it is.
    pub open spec fn push_front_new(self, key: usize, shared: Arc<T>) -> Self {
        if self.tracks(key) {
            self
        } else {
            self.with_entry(key, shared).with_front(key)
        }
    }

    /// The list after a new worker `key` was to be tracked and put at the
    /// back of the order: a worker that the index knows already stays as
    /// it is.
    pub open spec fn push_back_new(self, key: usize, shared: Arc<T>) -> Self {
        if self.tracks(key) {
            self
        } else {
            self.with_entry(key, shared).with_back(key)
        }
    }

    /// The list after worker `key` was to be put back at the front of the
    /// order: it is, if the index knows it and the order does not hold it.
    pub open spec fn push_front_existing(self, key: usize) -> Self {
        if self.admission(key) == InsertExistingResult::Inserted {
            self.with_front(key)
        } else {
            self
        }
    }

    /// The list after worker `key` was to be put back at the back of the
    /// order: it is, if the index knows it and the order does not hold it.
    pub open spec fn push_back_existing(self, key: usize) -> Self {
        if self.admission(key) == InsertExistingResult::Inserted {
            self.with_back(key)
        } else {
            self
        }
    }
}

/// One worker as the list holds it: the shared handle, and whether the
/// worker stands in the order.
pub struct Entry<T> {
    shared: Arc<T>,
    in_list: bool,
}

impl<T> Entry<T> {
    /// The handle that the entry holds.
    pub closed spec fn shared(&self) -> Arc<T> {
        self.shared
    }

    /// Whether the entry is marked as standing in the order.
    pub closed spec fn linked(&self) -> bool {
        self.in_list
    }

    /// A fresh entry for `shared`, in no order yet.
    pub fn new_box(shared: Arc<T>) -> (r: Box<Self>)
        ensures
            r.shared() == shared,
            !r.linked(),
    {
        Box::new(Self { shared, in_list: false })
    }
}

/// Something that names a worker: a handle, or whatever else a caller holds
/// in a handle's place.
pub trait ArcIntoPtr<T> {
    /// The identity of the worker that `this` names. A name is to give the
    /// same identity for as long as its worker lives, and no two workers
    /// that live at the same time are to share one.
    fn into_ptr(this: &Self) -> usize;
}

/// Calls `Arc::as_ptr` and gives the address that comes back as a number.
/// Nothing is claimed of the number.
#[verifier::external_body]
fn address<T>(shared: &Arc<T>) -> usize {
    Arc::as_ptr(shared) as usize
}

/// A handle names its worker by the address of the record that it shares.
impl<T> ArcIntoPtr<T> for Arc<T> {
    fn into_ptr(this: &Self) -> usize {
        address(this)
    }
}

/// Recency order and identity index for worker availability tracking.
///
/// - "front" is considered the "top" of the stack
/// - any worker in the order is also in the index, but a worker may be in
///   the index without being in the order
pub struct AvailabilityList<T> {
    list: VecDeque<usize>,
    tree: BTreeMap<usize, Entry<T>>,
}

impl<T> View for AvailabilityList<T> {
    type V = Availability<T>;

    closed spec fn view(&self) -> Availability<T> {
        Availability {
            order: self.list@,
            index: Map::new(|key: usize| self.tree@.contains_key(key), |key: usize| self.tree@[key].shared),
        }
    }
}

/// What [`AvailabilityList::cursor_at`] found.
pub enum CursorAtKeyResult<'a, T> {
    /// The worker stands in the order; the cursor points at it.
    InList(VeryLimitedCursor<'a, T>),
    /// The index knows the worker, the order does not hold it.
    NotInList,
    /// The index does not know the worker.
    NoMatch,
}

/// A position in the order of an availability list, or the null position
/// past its two ends.
///
/// Every `position` that is not below the length of the order stands for the
/// null position.
pub struct VeryLimitedCursor<'a, T> {
    /// The list that the cursor walks.
    pub list: &'a mut AvailabilityList<T>,
    /// The position in the order, counted from the front.
    pub position: usize,
}

impl<T> AvailabilityList<T> {
    /// The invariant of the representation: the model is valid, and each
    /// entry is marked as linked exactly if it stands in the order.
    pub closed spec fn wf(&self) -> bool {
        &&& self@.valid()
        &&& forall|key: usize| #[trigger]
            self.tree@.contains_key(key) ==> (self.tree@[key].in_list <==> self.list@.contains(key))
    }

    /// A well-formed list has a valid model: whatever stands in the order is
    /// in the index.
    pub proof fn lemma_wf_valid(&self)
        requires
            self.wf(),
        ensures
            self@.valid(),
            forall|key: usize| self@.lists(key) ==> self@.tracks(key),
    {
        assert forall|key: usize| self@.lists(key) implies self@.tracks(key) by {
            let i = choose|i: int| 0 <= i < self@.order.len() && self@.order[i] == key;
            assert(self@.index.contains_key(self@.order[i]));
        }
    }

    /// The list that knows no worker.
    pub fn new() -> (r: Self)
        ensures
            r.wf(),
            r@ == Availability::<T>::empty(),
    {
        let r = Self { list: VecDeque::new(), tree: BTreeMap::new() };
        assert(r@.index =~= Map::<usize, Arc<T>>::empty());
        r
    }

    /// Whether the index knows worker `key`.
    pub fn contains(&self, key: usize) -> (r: bool)
        requires
            self.wf(),
        ensures
            r == self@.tracks(key),
    {
        self.tree.contains_key(&key)
    }

    /// The handle of worker `key`; `None` if the index does not know the
    /// worker.
    pub fn get(&self, key: usize) -> (r: Option<&Arc<T>>)
        requires
            self.wf(),
        ensures
            match r {
                Some(shared) => self@.tracks(key) && *shared
                    == self@.index[key],
                None => !self@.tracks(key),
            },
    {
        match self.tree.get(&key) {
            Some(entry) => Some(&entry.shared),
            None => None,
        }
    }

    /// The number of workers that the index knows.
    pub fn len(&self) -> (r: usize)
        requires
            self.wf(),
        ensures
            r == self@.index.len(),
    {
        proof {
            assert(self@.index.dom() =~= self.tree@.dom());
        }
        self.tree.len()
    }

    /// Whether the index knows no worker; the order is then empty too.
    pub fn is_empty(&self) -> (r: bool)
        requires
            self.wf(),
        ensures
            r == (self@.index.len() == 0),
            r ==> self@ == Availability::<T>::empty(),
    {
        proof {
            assert(self@.index.dom() =~= self.tree@.dom());
            if self.tree@.dom().len() == 0 {
                assert(self@.index =~= Map::<usize, Arc<T>>::empty());
                if self@.order.len() > 0 {
                    assert(self@.index.contains_key(self@.order[0]));
                }
                assert(self@.order =~= Seq::<usize>::empty());
            }
        }
        self.tree.len() == 0
    }

    /// The number of workers in the order.
    pub fn available(&self) -> (r: usize)
        ensures
            r == self@.order.len(),
    {
        self.list.len()
    }

    /// Tracks a worker that the index does not know yet, and puts it at the
    /// front of the order.
    pub fn insert_front(&mut self, key: usize, shared: Arc<T>)
        requires
            old(self).wf(),
            !old(self)@.tracks(key),
        ensures
            final(self).wf(),
            final(self)@ == old(self)@.with_entry(key, shared).with_front(key),
    {
        let mut entry = *Entry::new_box(shared);
        entry.in_list = true;
        self.tree.insert(key, entry);
        self.list.push_front(key);
        proof {
            lemma_front_contains(old(self).list@, key);
            lemma_untracked_unlisted(old(self)@, key);
            assert(self@.index =~= old(self)@.index.insert(key, shared));
            assert(self@.index.dom() =~= old(self)@.index.dom().insert(key));
        }
    }

    /// Tracks a worker that the index does not know yet, and puts it at the
    /// back of the order.
    pub fn insert_back(&mut self, key: usize, shared: Arc<T>)
        requires
            old(self).wf(),
            !old(self)@.tracks(key),
        ensures
            final(self).wf(),
            final(self)@ == old(self)@.with_entry(key, shared).with_back(key),
    {
        let mut entry = *Entry::new_box(shared);
        entry.in_list = true;
        self.tree.insert(key, entry);
        self.list.push_back(key);
        proof {
            lemma_back_contains(old(self).list@, key);
            lemma_untracked_unlisted(old(self)@, key);
            assert(self@.index =~= old(self)@.index.insert(key, shared));
            assert(self@.index.dom() =~= old(self)@.index.dom().insert(key));
        }
    }

    /// Puts a worker that the index knows back at the front of the order.
    /// A worker that stands in the order already stays where it is.
    pub fn admit_front(&mut self, key: usize) -> (r: InsertExistingResult)
        requires
            old(self).wf(),
        ensures
            final(self).wf(),
            r == old(self)@.admission(key),
            final(self)@ == old(self)@.push_front_existing(key),
    {
        let linked = match self.tree.get(&key) {
            None => {
                return InsertExistingResult::NoMatch;
            },
            Some(entry) => entry.in_list,
        };
        if linked {
            InsertExistingResult::AlreadyInList
        } else {
            self.set_linked(key, true);
            self.list.push_front(key);
            proof {
                lemma_front_contains(old(self).list@, key);
                assert(self@.index =~= old(self)@.index);
                assert(self@.index.dom() =~= old(self)@.index.dom());
            }
            InsertExistingResult::Inserted
        }
    }

    /// Puts a worker that the index knows back at the back of the order.
    /// A worker that stands in the order already stays where it is.
    pub fn admit_back(&mut self, key: usize) -> (r: InsertExistingResult)
        requires
            old(self).wf(),
        ensures
            final(self).wf(),
            r == old(self)@.admission(key),
            final(self)@ == old(self)@.push_back_existing(key),
    {
        let linked = match self.tree.get(&key) {
            None => {
                return InsertExistingResult::NoMatch;
            },
            Some(entry) => entry.in_list,
        };
        if linked {
            InsertExistingResult::AlreadyInList
        } else {
            self.set_linked(key, true);
            self.list.push_back(key);
            proof {
                lemma_back_contains(old(self).list@, key);
                assert(self@.index =~= old(self)@.index);
                assert(self@.index.dom() =~= old(self)@.index.dom());
            }
            InsertExistingResult::Inserted
        }
    }

    /// Takes the worker at the front of the order out of the order and out
    /// of the index, and returns its handle; `None` if the order is empty.
    pub fn pop_front_full(&mut self) -> (r: Option<Arc<T>>)
        requires
            old(self).wf(),
        ensures
            final(self).wf(),
            match r {
                Some(shared) => {
                    &&& old(self)@.order.len() > 0
                    &&& shared == old(self)@.index[old(self)@.order.first()]
                    &&& final(self)@ == old(self)@.without(old(self)@.order.first())
                    &&& final(self)@.order == old(self)@.order.drop_first()
                    &&& !final(self)@.tracks(old(self)@.order.first())
                    &&& !final(self)@.lists(old(self)@.order.first())
                },
                None => old(self)@.order.len() == 0 && final(self)@ == old(self)@,
            },
    {
        let r = self.remove_entry_by_position(0);
        proof {
            if old(self)@.order.len() > 0 {
                assert(old(self)@.order.remove(0) =~= old(self)@.order.drop_first());
                lemma_removed_valid(old(self)@, old(self)@.order.first());
            }
        }
        r
    }

    /// Takes the worker at the back of the order out of the order and out
    /// of the index, and returns its handle; `None` if the order is empty.
    pub fn pop_back_full(&mut self) -> (r: Option<Arc<T>>)
        requires
            old(self).wf(),
        ensures
            final(self).wf(),
            match r {
                Some(shared) => {
                    &&& old(self)@.order.len() > 0
                    &&& shared == old(self)@.index[old(self)@.order.last()]
                    &&& final(self)@ == old(self)@.without(old(self)@.order.last())
                    &&& final(self)@.order == old(self)@.order.drop_last()
                    &&& !final(self)@.tracks(old(self)@.order.last())
                    &&& !final(self)@.lists(old(self)@.order.last())
                },
                None => old(self)@.order.len() == 0 && final(self)@ == old(self)@,
            },
    {
        let length = self.list.len();
        if length == 0 {
            None
        } else {
            let r = self.remove_entry_by_position(length - 1);
            proof {
                assert(old(self)@.order.remove(length - 1) =~= old(self)@.order.drop_last());
                lemma_removed_valid(old(self)@, old(self)@.order.last());
            }
            r
        }
    }

    /// Takes worker `key` out of the index, and out of the order if it
    /// stands there, and returns its handle; `None` if the index does not
    /// know the worker.
    pub fn remove(&mut self, key: usize) -> (r: Option<Arc<T>>)
        requires
            old(self).wf(),
        ensures
            final(self).wf(),
            r == old(self)@.handle(key),
            final(self)@ == old(self)@.without(key),
            match r {
                Some(shared) => {
                    &&& old(self)@.tracks(key)
                    &&& shared == old(self)@.index[key]
                    &&& final(self)@ == old(self)@.without(key)
                    &&& !final(self)@.tracks(key)
                    &&& !final(self)@.lists(key)
                },
                None => !old(self)@.tracks(key) && final(self)@ == old(self)@,
            },
    {
        proof {
            lemma_removed_valid(old(self)@, key);
            if !old(self)@.tracks(key) {
                lemma_untracked_unlisted(old(self)@, key);
                assert(old(self)@.without(key).index =~= old(self)@.index);
            }
        }
        self.remove_entry_by_key(key)
    }

    /// Takes every worker out of the order. The index keeps them all.
    pub fn unlist_all(&mut self)
        requires
            old(self).wf(),
        ensures
            final(self).wf(),
            final(self)@ == old(self)@.without_order(),
    {
        while self.list.len() > 0
            invariant
                self.wf(),
                self@.index == old(self)@.index,
            decreases self.list@.len(),
        {
            self.unlink_position(0);
        }
        assert(self@.order =~= Seq::<usize>::empty());
    }

    /// Tracks the worker behind `shared`, under the identity that the
    /// handle gives, and puts it at the front of the order. A worker that
    /// the index knows under that identity stays as it is.
    pub fn push_front_new(&mut self, shared: Arc<T>)
        requires
            old(self).wf(),
        ensures
            final(self).wf(),
            exists|key: usize| final(self)@ == #[trigger] old(self)@.push_front_new(key, shared),
    {
        let key = ArcIntoPtr::<T>::into_ptr(&shared);
        if !self.contains(key) {
            self.insert_front(key, shared);
        }
        assert(self@ == old(self)@.push_front_new(key, shared));
    }

    /// Tracks the worker behind `shared`, under the identity that the
    /// handle gives, and puts it at the back of the order. A worker that
    /// the index knows under that identity stays as it is.
    pub fn push_back_new(&mut self, shared: Arc<T>)
        requires
            old(self).wf(),
        ensures
            final(self).wf(),
            exists|key: usize| final(self)@ == #[trigger] old(self)@.push_back_new(key, shared),
    {
        let key = ArcIntoPtr::<T>::into_ptr(&shared);
        if !self.contains(key) {
            self.insert_back(key, shared);
        }
        assert(self@ == old(self)@.push_back_new(key, shared));
    }

    /// Puts the worker that `what` names back at the front of the order:
    /// [`AvailabilityList::admit_front`] for the identity that `what`
    /// gives.
    pub fn push_front_existing(&mut self, what: &impl ArcIntoPtr<T>) -> (r: InsertExistingResult)
        requires
            old(self).wf(),
        ensures
            final(self).wf(),
            exists|key: usize|
                r == old(self)@.admission(key) && final(self)@
                    == #[trigger] old(self)@.push_front_existing(key),
    {
        let key = ArcIntoPtr::<T>::into_ptr(what);
        let r = self.admit_front(key);
        assert(self@ == old(self)@.push_front_existing(key));
        r
    }

    /// Puts the worker that `what` names back at the back of the order:
    /// [`AvailabilityList::admit_back`] for the identity that `what`
    /// gives.
    pub fn push_back_existing(&mut self, what: &impl ArcIntoPtr<T>) -> (r: InsertExistingResult)
        requires
            old(self).wf(),
        ensures
            final(self).wf(),
            exists|key: usize|
                r == old(self)@.admission(key) && final(self)@
                    == #[trigger] old(self)@.push_back_existing(key),
    {
        let key = ArcIntoPtr::<T>::into_ptr(what);
        let r = self.admit_back(key);
        assert(self@ == old(self)@.push_back_existing(key));
        r
    }

    /// Takes the worker that `what` names out of the index and out of the
    /// order: [`AvailabilityList::remove`] for the identity that `what`
    /// gives.
    pub fn remove_by_key(&mut self, what: &impl ArcIntoPtr<T>) -> (r: Option<Arc<T>>)
        requires
            old(self).wf(),
        ensures
            final(self).wf(),
            exists|key: usize|
                r == old(self)@.handle(key) && final(self)@ == #[trigger] old(self)@.without(key),
    {
        let key = ArcIntoPtr::<T>::into_ptr(what);
        let r = self.remove(key);
        assert(self@ == old(self)@.without(key));
        r
    }

    /// A cursor at the worker that `what` names:
    /// [`AvailabilityList::cursor_at`] for the identity that `what` gives.
    pub fn cursor_at_key(&mut self, what: &impl ArcIntoPtr<T>) -> (r: CursorAtKeyResult<'_, T>)
        requires
            old(self).wf(),
        ensures
            exists|key: usize|
                {
                    &&& #[trigger] old(self)@.admission(key) == (match r {
                        CursorAtKeyResult::InList(_) => InsertExistingResult::AlreadyInList,
                        CursorAtKeyResult::NotInList => InsertExistingResult::Inserted,
                        CursorAtKeyResult::NoMatch => InsertExistingResult::NoMatch,
                    })
                    &&& match r {
                        CursorAtKeyResult::InList(cursor) => {
                            &&& cursor.position == old(self)@.order.index_of(key)
                            &&& *cursor.list == *old(self)
                            &&& *final(cursor.list) == *final(self)
                        },
                        _ => *final(self) == *old(self),
                    }
                },
    {
        let key = ArcIntoPtr::<T>::into_ptr(what);
        let r = self.cursor_at(key);
        assert(old(self)@.admission(key) == (match r {
            CursorAtKeyResult::InList(_) => InsertExistingResult::AlreadyInList,
            CursorAtKeyResult::NotInList => InsertExistingResult::Inserted,
            CursorAtKeyResult::NoMatch => InsertExistingResult::NoMatch,
        }));
        r
    }

    /// A cursor at the front of the order: the null position if the order
    /// is empty.
    pub fn cursor_front(&mut self) -> (cursor: VeryLimitedCursor<'_, T>)
        ensures
            cursor.position == 0,
            *cursor.list == *old(self),
            *final(cursor.list) == *final(self),
    {
        VeryLimitedCursor { list: self, position: 0 }
    }

    /// A cursor at the back of the order: the null position if the order is
    /// empty.
    pub fn cursor_back(&mut self) -> (cursor: VeryLimitedCursor<'_, T>)
        ensures
            cursor.position == (if old(self)@.order.len() == 0 {
                0
            } else {
                old(self)@.order.len() - 1
            }),
            *cursor.list == *old(self),
            *final(cursor.list) == *final(self),
    {
        let length = self.list.len();
        let position = if length == 0 {
            0
        } else {
            length - 1
        };
        VeryLimitedCursor { list: self, position }
    }

    /// A cursor at worker `key`, if that worker stands in the order.
    pub fn cursor_at(&mut self, key: usize) -> (r: CursorAtKeyResult<'_, T>)
        requires
            old(self).wf(),
        ensures
            match r {
                CursorAtKeyResult::InList(cursor) => {
                    &&& old(self)@.lists(key)
                    &&& cursor.position == old(self)@.order.index_of(key)
                    &&& *cursor.list == *old(self)
                    &&& *final(cursor.list) == *final(self)
                },
                CursorAtKeyResult::NotInList => {
                    &&& old(self)@.tracks(key)
                    &&& !old(self)@.lists(key)
                    &&& *final(self) == *old(self)
                },
                CursorAtKeyResult::NoMatch => {
                    &&& !old(self)@.tracks(key)
                    &&& *final(self) == *old(self)
                },
            },
    {
        let linked = match self.tree.get(&key) {
            None => {
                return CursorAtKeyResult::NoMatch;
            },
            Some(entry) => entry.in_list,
        };
        assert(linked <==> old(self)@.lists(key));
        if !linked {
            CursorAtKeyResult::NotInList
        } else {
            match position_in(&self.list, key) {
                Some(position) => {
                    proof {
                        lemma_remove_contains(self.list@, position as int);
                    }
                    CursorAtKeyResult::InList(VeryLimitedCursor { list: self, position })
                },
                None => CursorAtKeyResult::NotInList,
            }
        }
    }

    /// Takes the worker at `position` of the order out of the order; the
    /// index keeps it. Returns whether the order had such a position.
    fn unlink_position(&mut self, position: usize) -> (r: bool)
        requires
            old(self).wf(),
        ensures
            final(self).wf(),
            r == (position < old(self)@.order.len()),
            final(self)@ == (if r {
                old(self)@.without_position(position as int)
            } else {
                old(self)@
            }),
    {
        match self.list.remove(position) {
            None => false,
            Some(key) => {
                proof {
                    lemma_remove_contains(old(self).list@, position as int);
                    assert(old(self).tree@.contains_key(old(self)@.order[position as int]));
                }
                self.set_linked(key, false);
                proof {
                    assert(self@.index =~= old(self)@.index);
                    assert(self@.index.dom() =~= old(self)@.index.dom());
                }
                true
            },
        }
    }

    /// Sets the mark of an entry that the index holds.
    fn set_linked(&mut self, key: usize, in_list: bool)
        requires
            old(self).tree@.contains_key(key),
        ensures
            final(self).list == old(self).list,
            final(self).tree@ == old(self).tree@.insert(
                key,
                Entry { shared: old(self).tree@[key].shared, in_list },
            ),
    {
        if let Some(entry) = self.tree.remove(&key) {
            self.tree.insert(key, Entry { shared: entry.shared, in_list });
        }
        assert(self.tree@ =~= old(self).tree@.insert(
            key,
            Entry { shared: old(self).tree@[key].shared, in_list },
        ));
    }

    /// Takes the worker at `position` of the order out of the order and out
    /// of the index; `None` if the order has no such position.
    fn remove_entry_by_position(&mut self, position: usize) -> (r: Option<Arc<T>>)
        requires
            old(self).wf(),
        ensures
            final(self).wf(),
            match r {
                Some(shared) => {
                    &&& position < old(self)@.order.len()
                    &&& shared == old(self)@.index[old(self)@.order[position as int]]
                    &&& final(self)@ == old(self)@.without(old(self)@.order[position as int])
                    &&& final(self)@.order == old(self)@.order.remove(position as int)
                },
                None => position >= old(self)@.order.len() && final(self)@ == old(self)@,
            },
    {
        match self.list.remove(position) {
            None => None,
            Some(key) => {
                proof {
                    lemma_remove_contains(old(self).list@, position as int);
                    assert(old(self).tree@.contains_key(old(self)@.order[position as int]));
                }
                match self.tree.remove(&key) {
                    Some(entry) => {
                        proof {
                            assert(old(self)@.order[position as int] == key);
                            assert(old(self)@.lists(key));
                            assert(self@.index =~= old(self)@.index.remove(key));
                            assert(self@.index.dom() =~= old(self)@.index.dom().remove(key));
                            assert(self@.order =~= old(self)@.without(key).order);
                        }
                        Some(entry.shared)
                    },
                    None => None,
                }
            },
        }
    }

    /// Takes the worker `key` out of the index, and out of the order if it
    /// stands there; `None` if the index does not know it.
    fn remove_entry_by_key(&mut self, key: usize) -> (r: Option<Arc<T>>)
        requires
            old(self).wf(),
        ensures
            final(self).wf(),
            match r {
                Some(shared) => {
                    &&& old(self)@.tracks(key)
                    &&& shared == old(self)@.index[key]
                    &&& final(self)@ == old(self)@.without(key)
                },
                None => !old(self)@.tracks(key) && final(self)@ == old(self)@,
            },
    {
        match self.tree.remove(&key) {
            None => {
                proof {
                    assert(self.tree@ =~= old(self).tree@);
                }
                None
            },
            Some(entry) => {
                assert(entry.in_list <==> old(self)@.lists(key));
                if entry.in_list {
                    if let Some(position) = position_in(&self.list, key) {
                        proof {
                            lemma_remove_contains(old(self).list@, position as int);
                        }
                        self.list.remove(position);
                    }
                }
                proof {
                    assert(self@.index =~= old(self)@.index.remove(key));
                    assert(self@.index.dom() =~= old(self)@.index.dom().remove(key));
                    assert(self@.order =~= old(self)@.without(key).order);
                }
                Some(entry.shared)
            },
        }
    }
}

/// The position of `key` in `list`, if it stands there.
fn position_in(list: &VecDeque<usize>, key: usize) -> (r: Option<usize>)
    ensures
        match r {
            Some(position) => position < list@.len() && list@[position as int] == key,
            None => !list@.contains(key),
        },
{
    let mut position: usize = 0;
    while position < list.len()
        invariant
            position <= list@.len(),
            forall|i: int| 0 <= i < position ==> list@[i] != key,
        decreases list@.len() - position,
    {
        if list[position] == key {
            return Some(position);
        }
        position = position + 1;
    }
    None
}

/// In an order without duplicates, taking out one position takes out that
/// position's key and no other, and the key is found at that position.
proof fn lemma_remove_contains(order: Seq<usize>, position: int)
    requires
        order.no_duplicates(),
        0 <= position < order.len(),
    ensures
        order.remove(position).no_duplicates(),
        order.index_of(order[position]) == position,
        forall|other: usize|
            (#[trigger] order.remove(position).contains(other)) <==> (other != order[position]
                && order.contains(other)),
{
    let shorter = order.remove(position);
    assert forall|i: int, j: int| 0 <= i < shorter.len() && 0 <= j < shorter.len() && i != j implies shorter[i] != shorter[j] by {
        let a = if i < position { i } else { i + 1 };
        let b = if j < position { j } else { j + 1 };
        assert(shorter[i] == order[a]);
        assert(shorter[j] == order[b]);
    }
    assert forall|other: usize| #[trigger] shorter.contains(other) implies (other != order[position]
        && order.contains(other)) by {
        let i = choose|i: int| 0 <= i < shorter.len() && shorter[i] == other;
        let a = if i < position { i } else { i + 1 };
        assert(shorter[i] == order[a]);
    }
    assert forall|other: usize| other != order[position] && order.contains(other) implies #[trigger] shorter.contains(other) by {
        let a = choose|a: int| 0 <= a < order.len() && order[a] == other;
        let i = if a < position { a } else { a - 1 };
        assert(shorter[i] == other);
    }
}

impl<'a, T> VeryLimitedCursor<'a, T> {
    /// Whether the cursor is at the null position.
    pub open spec fn null(&self) -> bool {
        self.position >= self.list@.order.len()
    }

    /// The identity of the worker under the cursor, where the cursor is not
    /// at the null position.
    pub open spec fn current(&self) -> usize {
        self.list@.order[self.position as int]
    }

    /// Whether the cursor is at the null position.
    pub fn is_null(&self) -> (r: bool)
        ensures
            r == self.null(),
    {
        self.position >= self.list.list.len()
    }

    /// The identity of the worker under the cursor; `None` at the null
    /// position.
    pub fn key(&self) -> (r: Option<usize>)
        ensures
            r == (if self.null() {
                None
            } else {
                Some(self.current())
            }),
    {
        if self.position < self.list.list.len() {
            Some(self.list.list[self.position])
        } else {
            None
        }
    }

    /// The handle of the worker under the cursor; `None` at the null
    /// position.
    pub fn get(&mut self) -> (r: Option<&Arc<T>>)
        requires
            old(self).list.wf(),
        ensures
            match r {
                Some(shared) => !old(self).null() && *shared == old(self).list@.index[old(
                    self,
                ).current()],
                None => old(self).null(),
            },
            final(self).position == old(self).position,
            *final(self).list == *old(self).list,
            *final(final(self).list) == *final(old(self).list),
    {
        if self.position < self.list.list.len() {
            let key = self.list.list[self.position];
            assert(self.list@.index.contains_key(self.list@.order[self.position as int]));
            match self.list.tree.get(&key) {
                Some(entry) => Some(&entry.shared),
                None => None,
            }
        } else {
            None
        }
    }

    /// Moves the cursor one position towards the back: from the last
    /// position to the null position, from the null position to the front.
    pub fn move_next(&mut self)
        ensures
            final(self).position == (if old(self).null() {
                0
            } else {
                old(self).position + 1
            }),
            *final(self).list == *old(self).list,
            *final(final(self).list) == *final(old(self).list),
    {
        if self.position >= self.list.list.len() {
            self.position = 0;
        } else {
            self.position = self.position + 1;
        }
    }

    /// Moves the cursor one position towards the front: from the front to
    /// the null position, from the null position to the last position.
    pub fn move_prev(&mut self)
        ensures
            final(self).position == (if old(self).position == 0 || old(self).list@.order.len() == 0 {
                old(self).list@.order.len() as int
            } else if old(self).null() {
                old(self).list@.order.len() - 1
            } else {
                old(self).position - 1
            }),
            *final(self).list == *old(self).list,
            *final(final(self).list) == *final(old(self).list),
    {
        let length = self.list.list.len();
        if self.position == 0 || length == 0 {
            self.position = length;
        } else if self.position >= length {
            self.position = length - 1;
        } else {
            self.position = self.position - 1;
        }
    }

    /// Removes the current element completely, then moves the cursor to the
    /// next element.
    pub fn remove_full(&mut self) -> (r: Option<Arc<T>>)
        requires
            old(self).list.wf(),
        ensures
            final(self).list.wf(),
            final(self).position == old(self).position,
            *final(final(self).list) == *final(old(self).list),
            match r {
                Some(shared) => {
                    &&& !old(self).null()
                    &&& shared == old(self).list@.index[old(self).current()]
                    &&& final(self).list@ == old(self).list@.without(old(self).current())
                    &&& final(self).list@.order == old(self).list@.order.remove(
                        old(self).position as int,
                    )
                    &&& !final(self).list@.tracks(old(self).current())
                    &&& !final(self).list@.lists(old(self).current())
                },
                None => old(self).null() && final(self).list@ == old(self).list@,
            },
    {
        proof {
            self.list.lemma_wf_valid();
            if !self.null() {
                lemma_removed_valid(self.list@, self.current());
            }
        }
        self.list.remove_entry_by_position(self.position)
    }

    /// Removes the current element from the order, then moves the cursor to
    /// the next element. The index keeps the worker.
    ///
    /// Returns true if removed, false if the cursor is at the null position.
    pub fn remove_list(&mut self) -> (r: bool)
        requires
            old(self).list.wf(),
        ensures
            final(self).list.wf(),
            final(self).position == old(self).position,
            *final(final(self).list) == *final(old(self).list),
            r == !old(self).null(),
            final(self).list@ == (if r {
                old(self).list@.without_position(old(self).position as int)
            } else {
                old(self).list@
            }),
    {
        self.list.unlink_position(self.position)
    }
}

/// One operation on an availability list, as the model takes it.
pub enum Operation<T> {
    /// Track a new worker and put it at the front of the order.
    PushFrontNew { key: usize, shared: Arc<T> },
    /// Track a new worker and put it at the back of the order.
    PushBackNew { key: usize, shared: Arc<T> },
    /// Put a known worker back at the front of the order.
    PushFrontExisting { key: usize },
    /// Put a known worker back at the back of the order.
    PushBackExisting { key: usize },
    /// Take the worker at the front of the order out of order and index.
    PopFrontFull,
    /// Take the worker at the back of the order out of order and index.
    PopBackFull,
    /// Take a worker out of order and index.
    RemoveByKey { key: usize },
    /// Through a cursor, take the worker at a position of the order out of
    /// order and index.
    RemoveFull { position: int },
    /// Through a cursor, take the worker at a position of the order out of
    /// the order only.
    RemoveList { position: int },
}

impl<T> Availability<T> {
    /// The list after `operation`. An operation that is not allowed, or
    /// that finds nothing to work on, leaves the list as it is.
    pub open spec fn apply(self, operation: Operation<T>) -> Self {
        match operation {
            Operation::PushFrontNew { key, shared } => self.push_front_new(key, shared),
            Operation::PushBackNew { key, shared } => self.push_back_new(key, shared),
            Operation::PushFrontExisting { key } => self.push_front_existing(key),
            Operation::PushBackExisting { key } => self.push_back_existing(key),
            Operation::PopFrontFull => if self.order.len() > 0 {
                self.without(self.order.first())
            } else {
                self
            },
            Operation::PopBackFull => if self.order.len() > 0 {
                self.without(self.order.last())
            } else {
                self
            },
            Operation::RemoveByKey { key } => self.without(key),
            Operation::RemoveFull { position } => if 0 <= position < self.order.len() {
                self.without(self.order[position])
            } else {
                self
            },
            Operation::RemoveList { position } => if 0 <= position < self.order.len() {
                self.without_position(position)
            } else {
                self
            },
        }
    }

    /// The list after a run of operations.
    pub open spec fn run(self, operations: Seq<Operation<T>>) -> Self
        decreases operations.len(),
    {
        if operations.len() == 0 {
            self
        } else {
            self.run(operations.drop_last()).apply(operations.last())
        }
    }
}

/// Whatever is done to an availability list, every worker that stands in
/// its order afterwards is in its index.
pub proof fn lemma_order_implies_index<T>(list: Availability<T>, operations: Seq<Operation<T>>)
    requires
        list.valid(),
    ensures
        list.run(operations).valid(),
        forall|key: usize| list.run(operations).lists(key) ==> list.run(operations).tracks(key),
    decreases operations.len(),
{
    if operations.len() > 0 {
        let before = list.run(operations.drop_last());
        lemma_order_implies_index(list, operations.drop_last());
        match operations.last() {
            Operation::PushFrontNew { key, shared } => {
                if !before.tracks(key) {
                    lemma_new_entry_valid(before, key, shared);
                }
            },
            Operation::PushBackNew { key, shared } => {
                if !before.tracks(key) {
                    lemma_new_entry_valid(before, key, shared);
                }
            },
            Operation::PushFrontExisting { key } => {
                if before.admission(key) == InsertExistingResult::Inserted {
                    lemma_admitted_valid(before, key);
                }
            },
            Operation::PushBackExisting { key } => {
                if before.admission(key) == InsertExistingResult::Inserted {
                    lemma_admitted_valid(before, key);
                }
            },
            Operation::PopFrontFull => {
                if before.order.len() > 0 {
                    lemma_removed_valid(before, before.order.first());
                }
            },
            Operation::PopBackFull => {
                if before.order.len() > 0 {
                    lemma_removed_valid(before, before.order.last());
                }
            },
            Operation::RemoveByKey { key } => {
                lemma_removed_valid(before, key);
            },
            Operation::RemoveFull { position } => {
                if 0 <= position < before.order.len() {
                    lemma_removed_valid(before, before.order[position]);
                }
            },
            Operation::RemoveList { position } => {
                if 0 <= position < before.order.len() {
                    lemma_unlisted_valid(before, position);
                }
            },
        }
    }
    let after = list.run(operations);
    assert forall|key: usize| after.lists(key) implies after.tracks(key) by {
        lemma_listed_tracked(after, key);
    }
}

/// Tracking a worker that the index does not know, at the front or at the
/// back of the order, keeps the list valid; the worker then stands in the
/// order, so that putting it there again changes nothing.
pub proof fn lemma_new_entry_valid<T>(list: Availability<T>, key: usize, shared: Arc<T>)
    requires
        list.valid(),
        !list.tracks(key),
    ensures
        list.with_entry(key, shared).with_front(key).valid(),
        list.with_entry(key, shared).with_back(key).valid(),
        list.with_entry(key, shared).with_front(key).admission(key)
            == InsertExistingResult::AlreadyInList,
        list.with_entry(key, shared).with_back(key).admission(key)
            == InsertExistingResult::AlreadyInList,
{
    lemma_untracked_unlisted(list, key);
    lemma_front_contains(list.order, key);
    lemma_back_contains(list.order, key);
    let front = list.with_entry(key, shared).with_front(key);
    let back = list.with_entry(key, shared).with_back(key);
    assert(front.index.dom() =~= list.index.dom().insert(key));
    assert forall|i: int| 0 <= i < front.order.len() implies front.index.contains_key(
        #[trigger] front.order[i],
    ) by {
        if i > 0 {
            assert(front.order[i] == list.order[i - 1]);
        }
    }
    assert forall|i: int| 0 <= i < back.order.len() implies back.index.contains_key(
        #[trigger] back.order[i],
    ) by {
        if i < list.order.len() {
            assert(back.order[i] == list.order[i]);
        }
    }
}

/// Putting a worker that the index knows, and that the order does not
/// hold, at the front or at the back of the order keeps the list valid.
pub proof fn lemma_admitted_valid<T>(list: Availability<T>, key: usize)
    requires
        list.valid(),
        list.admission(key) == InsertExistingResult::Inserted,
    ensures
        list.with_front(key).valid(),
        list.with_back(key).valid(),
        list.with_front(key).lists(key),
        list.with_back(key).lists(key),
{
    lemma_front_contains(list.order, key);
    lemma_back_contains(list.order, key);
    let front = list.with_front(key);
    let back = list.with_back(key);
    assert forall|i: int| 0 <= i < front.order.len() implies front.index.contains_key(
        #[trigger] front.order[i],
    ) by {
        if i > 0 {
            assert(front.order[i] == list.order[i - 1]);
        }
    }
    assert forall|i: int| 0 <= i < back.order.len() implies back.index.contains_key(
        #[trigger] back.order[i],
    ) by {
        if i < list.order.len() {
            assert(back.order[i] == list.order[i]);
        }
    }
}

/// Taking one position out of the order keeps the list valid and the index
/// as it was. The worker that stood there is gone from the order, and from
/// the order only; every other worker stands as before.
pub proof fn lemma_unlisted_valid<T>(list: Availability<T>, position: int)
    requires
        list.valid(),
        0 <= position < list.order.len(),
    ensures
        list.without_position(position).valid(),
        list.without_position(position) == list.without_listing(list.order[position]),
        list.without_position(position).tracks(list.order[position]),
        !list.without_position(position).lists(list.order[position]),
        forall|other: usize|
            other != list.order[position] ==> (#[trigger] list.without_position(position).lists(
                other,
            ) <==> list.lists(other)),
{
    lemma_remove_contains(list.order, position);
    let shorter = list.without_position(position);
    assert forall|i: int| 0 <= i < shorter.order.len() implies shorter.index.contains_key(
        #[trigger] shorter.order[i],
    ) by {
        let a = if i < position {
            i
        } else {
            i + 1
        };
        assert(shorter.order[i] == list.order[a]);
    }
    assert(list.lists(list.order[position]));
}

/// Taking a worker out of the list altogether keeps the list valid. The
/// worker is then in neither the order nor the index, so that taking it out
/// once more finds nothing and changes nothing. Every other worker stays
/// where it was.
pub proof fn lemma_removed_valid<T>(list: Availability<T>, key: usize)
    requires
        list.valid(),
    ensures
        list.without(key).valid(),
        !list.without(key).tracks(key),
        !list.without(key).lists(key),
        list.without(key).without(key) == list.without(key),
        forall|other: usize|
            other != key ==> (#[trigger] list.without(key).tracks(other) <==> list.tracks(other)),
        forall|other: usize|
            other != key ==> (#[trigger] list.without(key).lists(other) <==> list.lists(other)),
        forall|other: usize|
            other != key && list.tracks(other) ==> #[trigger] list.without(key).index[other]
                == list.index[other],
{
    let shorter = list.without(key);
    if list.lists(key) {
        let position = list.order.index_of(key);
        lemma_unlisted_valid(list, position);
        assert forall|i: int| 0 <= i < shorter.order.len() implies shorter.index.contains_key(
            #[trigger] shorter.order[i],
        ) by {
            assert(list.without_position(position).lists(shorter.order[i]));
            assert(list.lists(shorter.order[i]));
            lemma_listed_tracked(list, shorter.order[i]);
        }
    } else {
        assert forall|i: int| 0 <= i < shorter.order.len() implies shorter.index.contains_key(
            #[trigger] shorter.order[i],
        ) by {
            assert(list.lists(shorter.order[i]));
        }
    }
    assert forall|other: usize| other != key implies (#[trigger] shorter.lists(other)
        <==> list.lists(other)) by {
        if list.lists(key) {
            let unlisted = list.without_position(list.order.index_of(key));
            assert(shorter.order == unlisted.order);
            assert(unlisted.lists(other) <==> list.lists(other));
        }
    }
    assert(shorter.index.dom() =~= list.index.dom().remove(key));
    assert(shorter.without(key).index =~= shorter.index);
}

/// A worker that was taken out of the order, and of the order only, goes
/// back in: it is at the front of the order again, the index holds the very
/// entry that it held before, and the worker stands in the order once.
pub proof fn lemma_partial_removal_round_trip<T>(list: Availability<T>, key: usize)
    requires
        list.valid(),
        list.lists(key),
    ensures
        list.without_listing(key).valid(),
        list.without_listing(key).admission(key) == InsertExistingResult::Inserted,
        list.without_listing(key).with_front(key).valid(),
        list.without_listing(key).with_front(key).order.first() == key,
        list.without_listing(key).with_front(key).index == list.index,
        list.without_listing(key).with_front(key).order.len() == list.order.len(),
        list.order.first() == key ==> list.without_listing(key).with_front(key) == list,
{
    let position = list.order.index_of(key);
    lemma_unlisted_valid(list, position);
    lemma_listed_tracked(list, key);
    lemma_admitted_valid(list.without_listing(key), key);
    if list.order.first() == key {
        assert(list.order[0] == key);
        assert(position == 0) by {
            if position != 0 {
                assert(list.order[position] == list.order[0]);
            }
        }
        assert(list.without_listing(key).with_front(key).order =~= list.order);
    }
}

/// A worker that stands in the order is in the index.
pub proof fn lemma_listed_tracked<T>(list: Availability<T>, key: usize)
    requires
        list.valid(),
        list.lists(key),
    ensures
        list.tracks(key),
{
    let i = choose|i: int| 0 <= i < list.order.len() && list.order[i] == key;
    assert(list.index.contains_key(list.order[i]));
}

/// A key that the index does not know does not stand in the order.
pub proof fn lemma_untracked_unlisted<T>(list: Availability<T>, key: usize)
    requires
        list.valid(),
        !list.tracks(key),
    ensures
        !list.lists(key),
{
    if list.lists(key) {
        let i = choose|i: int| 0 <= i < list.order.len() && list.order[i] == key;
        assert(list.index.contains_key(list.order[i]));
    }
}

proof fn lemma_front_contains(order: Seq<usize>, key: usize)
    ensures
        forall|other: usize|
            (#[trigger] (seq![key] + order).contains(other)) <==> (other == key || order.contains(
                other,
            )),
        order.no_duplicates() && !order.contains(key) ==> (seq![key] + order).no_duplicates(),
{
    let longer = seq![key] + order;
    assert(longer[0] == key);
    assert forall|other: usize| order.contains(other) implies #[trigger] longer.contains(other) by {
        let i = choose|i: int| 0 <= i < order.len() && order[i] == other;
        assert(longer[i + 1] == other);
    }
    assert forall|other: usize| #[trigger] longer.contains(other) implies (other == key
        || order.contains(other)) by {
        let i = choose|i: int| 0 <= i < longer.len() && longer[i] == other;
        if i > 0 {
            assert(order[i - 1] == other);
        }
    }
    if order.no_duplicates() && !order.contains(key) {
        assert forall|i: int, j: int| 0 <= i < longer.len() && 0 <= j < longer.len() && i != j implies longer[i] != longer[j] by {
            if i > 0 {
                assert(longer[i] == order[i - 1]);
            }
            if j > 0 {
                assert(longer[j] == order[j - 1]);
            }
        }
    }
}

proof fn lemma_back_contains(order: Seq<usize>, key: usize)
    ensures
        forall|other: usize|
            (#[trigger] order.push(key).contains(other)) <==> (other == key || order.contains(other)),
        order.no_duplicates() && !order.contains(key) ==> order.push(key).no_duplicates(),
{
    let longer = order.push(key);
    assert(longer[order.len() as int] == key);
    assert forall|other: usize| order.contains(other) implies #[trigger] longer.contains(other) by {
        let i = choose|i: int| 0 <= i < order.len() && order[i] == other;
        assert(longer[i] == other);
    }
    assert forall|other: usize| #[trigger] longer.contains(other) implies (other == key
        || order.contains(other)) by {
        let i = choose|i: int| 0 <= i < longer.len() && longer[i] == other;
        if i < order.len() {
            assert(order[i] == other);
        }
    }
}

} // verus!
