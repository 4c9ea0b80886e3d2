//! Cursors: views of a `LinkedMap` that stand at one node. A `Cursor` reads
//! and moves; a `CursorMut` also inserts, removes, reorders and saves.
use vstd::prelude::*;

use crate::map::{key_position, LinkedMap};

verus! {

/// The entry at `pos` of `s`, if `pos` names one.
pub open spec fn entry_at<V>(s: Seq<(u64, V)>, pos: Option<int>) -> Option<(u64, V)> {
    match pos {
        Some(i) => Some(s[i]),
        None => None,
    }
}

/// The key and value that a returned pair of references points to.
pub open spec fn pair_of<V>(r: Option<(&u64, &V)>) -> Option<(u64, V)> {
    match r {
        Some(p) => Some((*p.0, *p.1)),
        None => None,
    }
}

/// The keys and values that a sequence of reference pairs points to.
pub open spec fn pairs_of<V>(r: Seq<(&u64, &V)>) -> Seq<(u64, V)> {
    r.map_values(|p: (&u64, &V)| (*p.0, *p.1))
}

/// The position after `pos` in a list of `len` entries, if there is one.
pub open spec fn step_forward(pos: Option<int>, len: int) -> Option<int> {
    match pos {
        Some(i) => if i + 1 < len {
            Some(i + 1)
        } else {
            None
        },
        None => None,
    }
}

/// The position before `pos`, if there is one.
pub open spec fn step_backward(pos: Option<int>) -> Option<int> {
    match pos {
        Some(i) => if i > 0 {
            Some(i - 1)
        } else {
            None
        },
        None => None,
    }
}

/// The first position after `pos`; zero when there is no position.
pub open spec fn after_position(pos: Option<int>) -> int {
    match pos {
        Some(p) => p + 1,
        None => 0,
    }
}

/// The number of positions before `pos`; zero when there is no position.
pub open spec fn before_position(pos: Option<int>) -> int {
    match pos {
        Some(p) => p,
        None => 0,
    }
}

/// The position of the head of a list of `len` entries.
pub open spec fn front_position(len: int) -> Option<int> {
    if len == 0 {
        None
    } else {
        Some(0)
    }
}

/// The position of the tail of a list of `len` entries.
pub open spec fn back_position(len: int) -> Option<int> {
    if len == 0 {
        None
    } else {
        Some(len - 1)
    }
}

/// `s` with its entry at `p` moved to the front.
pub open spec fn moved_to_front<V>(s: Seq<(u64, V)>, p: int) -> Seq<(u64, V)> {
    seq![s[p]] + s.remove(p)
}

/// `s` with its entry at `p` moved to the back.
pub open spec fn moved_to_back<V>(s: Seq<(u64, V)>, p: int) -> Seq<(u64, V)> {
    s.remove(p).push(s[p])
}

/// The saved key once the node holding `gone` is removed.
pub open spec fn saved_after_removal(saved: Option<u64>, gone: u64) -> Option<u64> {
    if saved == Some(gone) {
        None
    } else {
        saved
    }
}

/// Read-only traversal of a `LinkedMap`.
pub struct Cursor<'a, V> {
    parent: &'a LinkedMap<V>,
    /// Locator of the current node; absent only when the map is empty.
    current: Option<usize>,
}

impl<'a, V> Clone for Cursor<'a, V> {
    fn clone(&self) -> (r: Self)
        ensures
            r == *self,
    {
        Cursor { parent: self.parent, current: self.current }
    }
}

impl<'a, V> Cursor<'a, V> {
    /// The map the cursor walks.
    pub closed spec fn owner(&self) -> LinkedMap<V> {
        *self.parent
    }

    /// The list position of the current node, absent iff the map is empty.
    pub closed spec fn position(&self) -> Option<int> {
        match self.current {
            Some(l) => Some(self.parent.locator_position(l)),
            None => None,
        }
    }

    /// The map is well formed and the cursor stands on one of its nodes,
    /// unless it is empty.
    pub closed spec fn wf(&self) -> bool {
        &&& self.parent.wf()
        &&& (self.current is None <==> self.parent@.len() == 0)
        &&& (self.current matches Some(l) ==> self.parent.is_locator(l))
    }

    /// A well-formed cursor stands within its map.
    pub proof fn lemma_wf(&self)
        requires
            self.wf(),
        ensures
            self.owner().wf(),
            self.position() is None <==> self.owner()@.len() == 0,
            self.position() matches Some(i) ==> 0 <= i < self.owner()@.len(),
    {
        self.parent.lemma_locators();
    }

    /// A cursor over `parent` standing at `position`.
    fn new(parent: &'a LinkedMap<V>, position: Option<usize>) -> (r: Self)
        requires
            parent.wf(),
            position is None <==> parent@.len() == 0,
            position matches Some(l) ==> parent.is_locator(l),
        ensures
            r.wf(),
            r.owner() == *parent,
            r.current == position,
    {
        Cursor { parent, current: position }
    }

    /// Moves to the head of the list.
    pub fn to_front(&mut self)
        requires
            old(self).wf(),
        ensures
            final(self).wf(),
            final(self).owner() == old(self).owner(),
            final(self).position() == front_position(old(self).owner()@.len() as int),
    {
        self.current = self.parent.head_locator();
    }

    /// Moves to the tail of the list.
    pub fn to_back(&mut self)
        requires
            old(self).wf(),
        ensures
            final(self).wf(),
            final(self).owner() == old(self).owner(),
            final(self).position() == back_position(old(self).owner()@.len() as int),
    {
        self.current = self.parent.tail_locator();
    }

    /// The key of the current node; absent only when the map is empty.
    pub fn key(&self) -> (r: Option<&'a u64>)
        requires
            self.wf(),
        ensures
            match self.position() {
                Some(i) => r matches Some(k) && *k == self.owner()@[i].0,
                None => r is None,
            },
    {
        match self.current {
            Some(l) => Some(self.parent.entry(l).0),
            None => None,
        }
    }

    /// The value of the current node; absent only when the map is empty.
    pub fn value(&self) -> (r: Option<&'a V>)
        requires
            self.wf(),
        ensures
            match self.position() {
                Some(i) => r matches Some(v) && *v == self.owner()@[i].1,
                None => r is None,
            },
    {
        match self.current {
            Some(l) => Some(self.parent.entry(l).1),
            None => None,
        }
    }

    /// The key and value of the current node; absent only when the map is empty.
    pub fn key_value(&self) -> (r: Option<(&'a u64, &'a V)>)
        requires
            self.wf(),
        ensures
            pair_of(r) == entry_at(self.owner()@, self.position()),
    {
        match self.current {
            Some(l) => Some(self.parent.entry(l)),
            None => None,
        }
    }

    /// Number of entries in the map.
    pub fn len(&self) -> (r: usize)
        requires
            self.wf(),
        ensures
            r == self.owner()@.len(),
    {
        self.parent.len()
    }

    /// Whether the map is empty.
    pub fn is_empty(&self) -> (r: bool)
        requires
            self.wf(),
        ensures
            r == (self.owner()@.len() == 0),
    {
        self.parent.is_empty()
    }

    /// How many entries the map holds without reallocating.
    pub fn capacity(&self) -> (r: usize)
        requires
            self.wf(),
        ensures
            r >= self.owner()@.len(),
    {
        self.parent.capacity()
    }

    /// Advances to the next node and returns its entry; at the tail, stays
    /// and returns nothing.
    pub fn next(&mut self) -> (r: Option<(&'a u64, &'a V)>)
        requires
            old(self).wf(),
        ensures
            final(self).wf(),
            final(self).owner() == old(self).owner(),
            match step_forward(old(self).position(), old(self).owner()@.len() as int) {
                Some(j) => final(self).position() == Some(j) && pair_of(r) == Some(old(self).owner()@[j]),
                None => final(self).position() == old(self).position() && r is None,
            },
    {
        proof {
            self.parent.lemma_locators();
        }
        match self.current {
            Some(l) => match self.parent.next_locator(l) {
                Some(m) => {
                    self.current = Some(m);
                    Some(self.parent.entry(m))
                },
                None => None,
            },
            None => None,
        }
    }

    /// Steps back to the previous node and returns its entry; at the head,
    /// stays and returns nothing.
    pub fn previous(&mut self) -> (r: Option<(&'a u64, &'a V)>)
        requires
            old(self).wf(),
        ensures
            final(self).wf(),
            final(self).owner() == old(self).owner(),
            match step_backward(old(self).position()) {
                Some(j) => final(self).position() == Some(j) && pair_of(r) == Some(old(self).owner()@[j]),
                None => final(self).position() == old(self).position() && r is None,
            },
    {
        proof {
            self.parent.lemma_locators();
        }
        match self.current {
            Some(l) => match self.parent.previous_locator(l) {
                Some(m) => {
                    self.current = Some(m);
                    Some(self.parent.entry(m))
                },
                None => None,
            },
            None => None,
        }
    }

    /// Moves to the node holding `key` and returns its entry; if there is
    /// none, stays and returns nothing.
    pub fn to_key(&mut self, key: &u64) -> (r: Option<(&'a u64, &'a V)>)
        requires
            old(self).wf(),
        ensures
            final(self).wf(),
            final(self).owner() == old(self).owner(),
            match key_position(old(self).owner()@, *key) {
                Some(j) => final(self).position() == Some(j) && pair_of(r) == Some(old(self).owner()@[j]),
                None => final(self).position() == old(self).position() && r is None,
            },
    {
        match self.parent.locate(*key) {
            Some(l) => {
                self.current = Some(l);
                Some(self.parent.entry(l))
            },
            None => None,
        }
    }

    /// The entry after the current one, without moving.
    pub fn peek_next(&self) -> (r: Option<(&'a u64, &'a V)>)
        requires
            self.wf(),
        ensures
            pair_of(r) == entry_at(self.owner()@, step_forward(self.position(), self.owner()@.len() as int)),
    {
        proof {
            self.parent.lemma_locators();
        }
        match self.current {
            Some(l) => match self.parent.next_locator(l) {
                Some(m) => Some(self.parent.entry(m)),
                None => None,
            },
            None => None,
        }
    }

    /// The entry before the current one, without moving.
    pub fn peek_previous(&self) -> (r: Option<(&'a u64, &'a V)>)
        requires
            self.wf(),
        ensures
            pair_of(r) == entry_at(self.owner()@, step_backward(self.position())),
    {
        proof {
            self.parent.lemma_locators();
        }
        match self.current {
            Some(l) => match self.parent.previous_locator(l) {
                Some(m) => Some(self.parent.entry(m)),
                None => None,
            },
            None => None,
        }
    }

    /// Moves to the saved node and returns its entry; if none is saved,
    /// stays and returns nothing.
    pub fn resume(&mut self) -> (r: Option<(&'a u64, &'a V)>)
        requires
            old(self).wf(),
        ensures
            final(self).wf(),
            final(self).owner() == old(self).owner(),
            match old(self).owner().saved_key() {
                Some(k) => key_position(old(self).owner()@, k) matches Some(j) && final(self).position() == Some(j)
                    && pair_of(r) == Some(old(self).owner()@[j]),
                None => final(self).position() == old(self).position() && r is None,
            },
    {
        match self.parent.saved_locator() {
            Some(l) => {
                self.current = Some(l);
                Some(self.parent.entry(l))
            },
            None => None,
        }
    }

    /// The entries after the current one, in list order, taken by repeated
    /// calls of `next`.
    pub fn iter(self) -> (r: Vec<(&'a u64, &'a V)>)
        requires
            self.wf(),
        ensures
            pairs_of(r@) == (match self.position() {
                Some(i) => self.owner()@.subrange(i + 1, self.owner()@.len() as int),
                None => Seq::empty(),
            }),
    {
        let ghost s = self.owner()@;
        let ghost start: int = match self.position() {
            Some(i) => i + 1,
            None => 0,
        };
        proof {
            self.lemma_wf();
        }
        let mut cursor = self;
        let mut out: Vec<(&'a u64, &'a V)> = Vec::new();
        loop
            invariant
                cursor.wf(),
                cursor.owner()@ == s,
                0 <= start <= s.len(),
                start + out@.len() <= s.len(),
                cursor.position() is None ==> s.len() == 0 && start == 0,
                cursor.position() matches Some(i) ==> i + 1 == start + out@.len(),
                pairs_of(out@) == s.subrange(start, start + out@.len()),
            ensures
                start + out@.len() == s.len(),
            decreases s.len() - start - out@.len(),
        {
            proof {
                cursor.lemma_wf();
            }
            match cursor.next() {
                Some(p) => {
                    out.push(p);
                    proof {
                        assert(pairs_of(out@) =~= s.subrange(start, start + out@.len()));
                    }
                },
                None => {
                    break;
                },
            }
        }
        proof {
            assert(s.subrange(start, s.len() as int) =~= s.subrange(start, start + out@.len()));
            if self.position() is None {
                assert(pairs_of(out@) =~= Seq::<(u64, V)>::empty());
            }
        }
        out
    }

    /// The entries before the current one, nearest first, taken by repeated
    /// calls of `previous`.
    pub fn iter_rev(self) -> (r: Vec<(&'a u64, &'a V)>)
        requires
            self.wf(),
        ensures
            pairs_of(r@) == (match self.position() {
                Some(i) => self.owner()@.subrange(0, i).reverse(),
                None => Seq::empty(),
            }),
    {
        let ghost s = self.owner()@;
        let ghost end: int = match self.position() {
            Some(i) => i,
            None => 0,
        };
        proof {
            self.lemma_wf();
        }
        let mut cursor = self;
        let mut out: Vec<(&'a u64, &'a V)> = Vec::new();
        loop
            invariant
                cursor.wf(),
                cursor.owner()@ == s,
                0 <= end <= s.len(),
                out@.len() <= end,
                cursor.position() is None ==> s.len() == 0 && end == 0,
                cursor.position() matches Some(i) ==> i == end - out@.len(),
                forall|k: int| 0 <= k < out@.len() ==> #[trigger] pairs_of(out@)[k] == s[end - 1 - k],
            ensures
                out@.len() == end,
            decreases end - out@.len(),
        {
            proof {
                cursor.lemma_wf();
            }
            match cursor.previous() {
                Some(p) => {
                    let ghost before = out@;
                    out.push(p);
                    proof {
                        assert forall|k: int| 0 <= k < out@.len() implies #[trigger] pairs_of(out@)[k] == s[end - 1 - k] by {
                            if k < before.len() {
                                assert(pairs_of(out@)[k] == pairs_of(before)[k]);
                            }
                        }
                    }
                },
                None => {
                    break;
                },
            }
        }
        proof {
            assert(pairs_of(out@) =~= s.subrange(0, end).reverse());
        }
        out
    }
}

/// Traversal of a `LinkedMap` that may also change it.
pub struct CursorMut<'a, V> {
    parent: &'a mut LinkedMap<V>,
    /// Locator of the current node; absent only when the map is empty.
    current: Option<usize>,
}

impl<'a, V> CursorMut<'a, V> {
    /// The map as the cursor currently sees it.
    pub closed spec fn owner(&self) -> LinkedMap<V> {
        *self.parent
    }

    /// The borrow of the map the cursor holds; the map's value once the
    /// cursor is gone is `*final(self.parent_ref())`.
    pub closed spec fn parent_ref(&self) -> &'a mut LinkedMap<V> {
        self.parent
    }

    /// The list position of the current node, absent iff the map is empty.
    pub closed spec fn position(&self) -> Option<int> {
        match self.current {
            Some(l) => Some(self.parent.locator_position(l)),
            None => None,
        }
    }

    /// The map is well formed and the cursor stands on one of its nodes,
    /// unless it is empty.
    pub closed spec fn wf(&self) -> bool {
        &&& self.parent.wf()
        &&& (self.current is None <==> self.parent@.len() == 0)
        &&& (self.current matches Some(l) ==> self.parent.is_locator(l))
    }

    /// A well-formed cursor stands within its map.
    pub proof fn lemma_wf(&self)
        requires
            self.wf(),
        ensures
            self.owner().wf(),
            self.position() is None <==> self.owner()@.len() == 0,
            self.position() matches Some(i) ==> 0 <= i < self.owner()@.len(),
    {
        self.parent.lemma_locators();
    }

    /// Once the cursor is no longer used, the map holds what the cursor saw last.
    pub proof fn lemma_release(&self)
        requires
            has_resolved(*self),
        ensures
            *final(self.parent_ref()) == self.owner(),
    {
    }

    /// A cursor over `parent` standing at `position`.
    fn new(parent: &'a mut LinkedMap<V>, position: Option<usize>) -> (r: Self)
        requires
            old(parent).wf(),
            position is None <==> old(parent)@.len() == 0,
            position matches Some(l) ==> old(parent).is_locator(l),
        ensures
            r.wf(),
            r.owner() == *old(parent),
            r.current == position,
            *final(parent) == *final(r.parent_ref()),
    {
        CursorMut { parent, current: position }
    }

    /// Moves to the head of the list.
    pub fn to_front(&mut self)
        requires
            old(self).wf(),
        ensures
            final(self).wf(),
            final(self).owner() == old(self).owner(),
            *final(final(self).parent_ref()) == *final(old(self).parent_ref()),
            final(self).position() == front_position(old(self).owner()@.len() as int),
    {
        self.current = self.parent.head_locator();
    }

    /// Moves to the tail of the list.
    pub fn to_back(&mut self)
        requires
            old(self).wf(),
        ensures
            final(self).wf(),
            final(self).owner() == old(self).owner(),
            *final(final(self).parent_ref()) == *final(old(self).parent_ref()),
            final(self).position() == back_position(old(self).owner()@.len() as int),
    {
        self.current = self.parent.tail_locator();
    }

    /// The key of the current node; absent only when the map is empty.
    pub fn key(&self) -> (r: Option<&u64>)
        requires
            self.wf(),
        ensures
            match self.position() {
                Some(i) => r matches Some(k) && *k == self.owner()@[i].0,
                None => r is None,
            },
    {
        match self.current {
            Some(l) => Some(self.parent.entry(l).0),
            None => None,
        }
    }

    /// The value of the current node, to be changed in place; absent only
    /// when the map is empty.
    pub fn value(&mut self) -> (r: Option<&mut V>)
        requires
            old(self).wf(),
        ensures
            final(self).wf(),
            final(self).position() == old(self).position(),
            *final(final(self).parent_ref()) == *final(old(self).parent_ref()),
            final(self).owner().saved_key() == old(self).owner().saved_key(),
            match r {
                Some(v) => old(self).position() matches Some(i) && *v == old(self).owner()@[i].1
                    && final(self).owner()@ == old(self).owner()@.update(i, (old(self).owner()@[i].0, *final(v))),
                None => old(self).position() is None && final(self).owner() == old(self).owner(),
            },
    {
        proof {
            self.parent.lemma_locators();
        }
        match self.current {
            Some(l) => Some(self.parent.value_at(l)),
            None => None,
        }
    }

    /// The key and value of the current node; absent only when the map is empty.
    pub fn key_value(&self) -> (r: Option<(&u64, &V)>)
        requires
            self.wf(),
        ensures
            pair_of(r) == entry_at(self.owner()@, self.position()),
    {
        match self.current {
            Some(l) => Some(self.parent.entry(l)),
            None => None,
        }
    }

    /// Number of entries in the map.
    pub fn len(&self) -> (r: usize)
        requires
            self.wf(),
        ensures
            r == self.owner()@.len(),
    {
        self.parent.len()
    }

    /// Whether the map is empty.
    pub fn is_empty(&self) -> (r: bool)
        requires
            self.wf(),
        ensures
            r == (self.owner()@.len() == 0),
    {
        self.parent.is_empty()
    }

    /// How many entries the map holds without reallocating.
    pub fn capacity(&self) -> (r: usize)
        requires
            self.wf(),
        ensures
            r >= self.owner()@.len(),
    {
        self.parent.capacity()
    }

    /// Advances to the next node and returns its entry; at the tail, stays
    /// and returns nothing.
    pub fn next(&mut self) -> (r: Option<(&u64, &V)>)
        requires
            old(self).wf(),
        ensures
            final(self).wf(),
            final(self).owner() == old(self).owner(),
            *final(final(self).parent_ref()) == *final(old(self).parent_ref()),
            match step_forward(old(self).position(), old(self).owner()@.len() as int) {
                Some(j) => final(self).position() == Some(j) && pair_of(r) == Some(old(self).owner()@[j]),
                None => final(self).position() == old(self).position() && r is None,
            },
    {
        proof {
            self.parent.lemma_locators();
        }
        match self.current {
            Some(l) => match self.parent.next_locator(l) {
                Some(m) => {
                    self.current = Some(m);
                    Some(self.parent.entry(m))
                },
                None => None,
            },
            None => None,
        }
    }

    /// Steps back to the previous node and returns its entry; at the head,
    /// stays and returns nothing.
    pub fn previous(&mut self) -> (r: Option<(&u64, &V)>)
        requires
            old(self).wf(),
        ensures
            final(self).wf(),
            final(self).owner() == old(self).owner(),
            *final(final(self).parent_ref()) == *final(old(self).parent_ref()),
            match step_backward(old(self).position()) {
                Some(j) => final(self).position() == Some(j) && pair_of(r) == Some(old(self).owner()@[j]),
                None => final(self).position() == old(self).position() && r is None,
            },
    {
        proof {
            self.parent.lemma_locators();
        }
        match self.current {
            Some(l) => match self.parent.previous_locator(l) {
                Some(m) => {
                    self.current = Some(m);
                    Some(self.parent.entry(m))
                },
                None => None,
            },
            None => None,
        }
    }

    /// Moves to the node holding `key` and returns its entry; if there is
    /// none, stays and returns nothing.
    pub fn to_key(&mut self, key: &u64) -> (r: Option<(&u64, &V)>)
        requires
            old(self).wf(),
        ensures
            final(self).wf(),
            final(self).owner() == old(self).owner(),
            *final(final(self).parent_ref()) == *final(old(self).parent_ref()),
            match key_position(old(self).owner()@, *key) {
                Some(j) => final(self).position() == Some(j) && pair_of(r) == Some(old(self).owner()@[j]),
                None => final(self).position() == old(self).position() && r is None,
            },
    {
        match self.parent.locate(*key) {
            Some(l) => {
                self.current = Some(l);
                Some(self.parent.entry(l))
            },
            None => None,
        }
    }

    /// The entry after the current one, without moving.
    pub fn peek_next(&self) -> (r: Option<(&u64, &V)>)
        requires
            self.wf(),
        ensures
            pair_of(r) == entry_at(self.owner()@, step_forward(self.position(), self.owner()@.len() as int)),
    {
        proof {
            self.parent.lemma_locators();
        }
        match self.current {
            Some(l) => match self.parent.next_locator(l) {
                Some(m) => Some(self.parent.entry(m)),
                None => None,
            },
            None => None,
        }
    }

    /// The entry before the current one, without moving.
    pub fn peek_previous(&self) -> (r: Option<(&u64, &V)>)
        requires
            self.wf(),
        ensures
            pair_of(r) == entry_at(self.owner()@, step_backward(self.position())),
    {
        proof {
            self.parent.lemma_locators();
        }
        match self.current {
            Some(l) => match self.parent.previous_locator(l) {
                Some(m) => Some(self.parent.entry(m)),
                None => None,
            },
            None => None,
        }
    }

    /// Moves to the saved node and returns its entry; if none is saved,
    /// stays and returns nothing.
    pub fn resume(&mut self) -> (r: Option<(&u64, &V)>)
        requires
            old(self).wf(),
        ensures
            final(self).wf(),
            final(self).owner() == old(self).owner(),
            *final(final(self).parent_ref()) == *final(old(self).parent_ref()),
            match old(self).owner().saved_key() {
                Some(k) => key_position(old(self).owner()@, k) matches Some(j) && final(self).position() == Some(j)
                    && pair_of(r) == Some(old(self).owner()@[j]),
                None => final(self).position() == old(self).position() && r is None,
            },
    {
        match self.parent.saved_locator() {
            Some(l) => {
                self.current = Some(l);
                Some(self.parent.entry(l))
            },
            None => None,
        }
    }

    /// Number of nodes after the current one, counted along the links.
    fn count_after(&self) -> (r: usize)
        requires
            self.wf(),
        ensures
            self.position() matches Some(p) ==> r == self.owner()@.len() - 1 - p,
            self.position() is None ==> r == 0,
    {
        proof {
            self.parent.lemma_locators();
        }
        let mut count: usize = 0;
        let mut cur = self.current;
        loop
            invariant
                self.wf(),
                self.position() is None ==> cur is None && count == 0,
                self.position() matches Some(p) ==> (cur matches Some(m) && self.parent.is_locator(m)
                    && self.parent.locator_position(m) == p + count && p + count < self.owner()@.len()),
                self.owner()@.len() <= usize::MAX,
            ensures
                self.position() matches Some(p) ==> count == self.owner()@.len() - 1 - p,
                self.position() is None ==> count == 0,
            decreases self.owner()@.len() - count,
        {
            proof {
                self.parent.lemma_locators();
            }
            match cur {
                Some(l) => match self.parent.next_locator(l) {
                    Some(m) => {
                        count = count + 1;
                        cur = Some(m);
                    },
                    None => {
                        break;
                    },
                },
                None => {
                    break;
                },
            }
        }
        count
    }

    /// The entries after the current one, in list order, the values to be
    /// changed in place.
    pub fn iter(self) -> (r: Vec<(&'a u64, &'a mut V)>)
        requires
            self.wf(),
        ensures
            r@.len() == self.owner()@.len() - after_position(self.position()),
            forall|j: int|
                0 <= j < r@.len() ==> *r@[j].0 == self.owner()@[after_position(self.position()) + j].0
                    && *r@[j].1 == self.owner()@[after_position(self.position()) + j].1,
            final(self.parent_ref()).wf(),
            final(self.parent_ref()).saved_key() == self.owner().saved_key(),
            final(self.parent_ref())@ =~= Seq::new(
                self.owner()@.len(),
                |i: int|
                    if i < after_position(self.position()) {
                        self.owner()@[i]
                    } else {
                        (self.owner()@[i].0, *final(r@[i - after_position(self.position())].1))
                    },
            ),
    {
        proof {
            self.lemma_wf();
        }
        let count = self.count_after();
        let parent = self.parent;
        let mut all = parent.iter_mut();
        let ghost entries = all@;
        let ghost n = entries.len();
        let mut backwards: Vec<(&'a u64, &'a mut V)> = Vec::new();
        let mut i: usize = 0;
        while i < count
            invariant
                count <= n,
                i <= count,
                all@.len() == n - i,
                forall|j: int| 0 <= j < n - i ==> #[trigger] all@[j] == entries[j],
                backwards@.len() == i,
                forall|j: int| 0 <= j < i ==> #[trigger] backwards@[j] == entries[n - 1 - j],
            decreases count - i,
        {
            backwards.push(all.pop().unwrap());
            i = i + 1;
        }
        let mut out: Vec<(&'a u64, &'a mut V)> = Vec::new();
        while backwards.len() > 0
            invariant
                count <= n,
                out@.len() + backwards@.len() == count,
                forall|j: int| 0 <= j < backwards@.len() ==> #[trigger] backwards@[j] == entries[n - 1 - j],
                forall|j: int| 0 <= j < out@.len() ==> #[trigger] out@[j] == entries[n - count + j],
            decreases backwards@.len(),
        {
            out.push(backwards.pop().unwrap());
        }
        proof {
            assert(has_resolved(all));
            assert forall|j: int| 0 <= j < n - count implies *final(#[trigger] entries[j].1) == *entries[j].1 by {
                assert(all@[j] == entries[j]);
                assert(has_resolved(all@[j]));
            }
        }
        out
    }

    /// Number of nodes before the current one, counted along the links.
    fn count_before(&self) -> (r: usize)
        requires
            self.wf(),
        ensures
            self.position() matches Some(p) ==> r == p,
            self.position() is None ==> r == 0,
    {
        proof {
            self.parent.lemma_locators();
        }
        let mut count: usize = 0;
        let mut cur = self.current;
        loop
            invariant
                self.wf(),
                self.position() is None ==> cur is None && count == 0,
                self.position() matches Some(p) ==> (cur matches Some(m) && self.parent.is_locator(m)
                    && self.parent.locator_position(m) == p - count && count <= p),
                self.owner()@.len() <= usize::MAX,
            ensures
                self.position() matches Some(p) ==> count == p,
                self.position() is None ==> count == 0,
            decreases self.owner()@.len() - count,
        {
            proof {
                self.parent.lemma_locators();
            }
            match cur {
                Some(l) => match self.parent.previous_locator(l) {
                    Some(m) => {
                        count = count + 1;
                        cur = Some(m);
                    },
                    None => {
                        break;
                    },
                },
                None => {
                    break;
                },
            }
        }
        count
    }

    /// The entries before the current one, nearest first, the values to be
    /// changed in place.
    pub fn iter_rev(self) -> (r: Vec<(&'a u64, &'a mut V)>)
        requires
            self.wf(),
        ensures
            r@.len() == before_position(self.position()),
            forall|j: int|
                0 <= j < r@.len() ==> *r@[j].0 == self.owner()@[r@.len() - 1 - j].0 && *r@[j].1
                    == self.owner()@[r@.len() - 1 - j].1,
            final(self.parent_ref()).wf(),
            final(self.parent_ref()).saved_key() == self.owner().saved_key(),
            final(self.parent_ref())@ =~= Seq::new(
                self.owner()@.len(),
                |i: int|
                    if i < before_position(self.position()) {
                        (self.owner()@[i].0, *final(r@[before_position(self.position()) - 1 - i].1))
                    } else {
                        self.owner()@[i]
                    },
            ),
    {
        proof {
            self.lemma_wf();
        }
        let count = self.count_before();
        let parent = self.parent;
        let mut all = parent.iter_mut();
        let ghost entries = all@;
        let ghost n = entries.len();
        let mut i: usize = all.len();
        while i > count
            invariant
                count <= i <= n,
                all@.len() == i,
                forall|j: int| 0 <= j < i ==> #[trigger] all@[j] == entries[j],
                forall|j: int| i <= j < n ==> *final(#[trigger] entries[j].1) == *entries[j].1,
            decreases i,
        {
            let dropped = all.pop().unwrap();
            proof {
                assert(dropped == entries[i - 1]);
                assert(has_resolved(dropped));
            }
            i = i - 1;
        }
        let mut out: Vec<(&'a u64, &'a mut V)> = Vec::new();
        while all.len() > 0
            invariant
                count <= n,
                out@.len() + all@.len() == count,
                forall|j: int| 0 <= j < all@.len() ==> #[trigger] all@[j] == entries[j],
                forall|j: int| 0 <= j < out@.len() ==> #[trigger] out@[j] == entries[count - 1 - j],
                forall|j: int| count <= j < n ==> *final(#[trigger] entries[j].1) == *entries[j].1,
            decreases all@.len(),
        {
            out.push(all.pop().unwrap());
        }
        out
    }

    /// Makes `key`, `val` the only node of the empty map and stands on it.
    fn set_only_node(&mut self, key: u64, val: V)
        requires
            old(self).wf(),
            old(self).owner()@.len() == 0,
        ensures
            final(self).wf(),
            *final(final(self).parent_ref()) == *final(old(self).parent_ref()),
            final(self).owner()@ == seq![(key, val)],
            final(self).position() == Some(0int),
            final(self).owner().saved_key() == old(self).owner().saved_key(),
    {
        let l = self.parent.push_back_new(key, val);
        self.current = Some(l);
    }

    /// Inserts `key`, `val` before the current node. A key already in the
    /// map, here or elsewhere, only gets the new value and keeps its place.
    /// In an empty map the new node becomes the current one.
    pub fn insert_before(&mut self, key: u64, val: V)
        requires
            old(self).wf(),
        ensures
            final(self).wf(),
            *final(final(self).parent_ref()) == *final(old(self).parent_ref()),
            final(self).owner().saved_key() == old(self).owner().saved_key(),
            match old(self).position() {
                None => final(self).owner()@ == seq![(key, val)] && final(self).position() == Some(0int),
                Some(p) => match key_position(old(self).owner()@, key) {
                    Some(j) => final(self).owner()@ == old(self).owner()@.update(j, (key, val))
                        && final(self).position() == Some(p),
                    None => final(self).owner()@ == old(self).owner()@.insert(p, (key, val))
                        && final(self).position() == Some(p + 1),
                },
            },
    {
        proof {
            self.parent.lemma_locators();
        }
        match self.current {
            Some(c) => match self.parent.locate(key) {
                Some(l) => {
                    self.parent.replace_value_at(l, val);
                },
                None => {
                    self.parent.insert_before_at(c, key, val);
                },
            },
            None => self.set_only_node(key, val),
        }
    }

    /// Inserts `key`, `val` after the current node. A key already in the
    /// map, here or elsewhere, only gets the new value and keeps its place.
    /// In an empty map the new node becomes the current one.
    pub fn insert_after(&mut self, key: u64, val: V)
        requires
            old(self).wf(),
        ensures
            final(self).wf(),
            *final(final(self).parent_ref()) == *final(old(self).parent_ref()),
            final(self).owner().saved_key() == old(self).owner().saved_key(),
            match old(self).position() {
                None => final(self).owner()@ == seq![(key, val)] && final(self).position() == Some(0int),
                Some(p) => match key_position(old(self).owner()@, key) {
                    Some(j) => final(self).owner()@ == old(self).owner()@.update(j, (key, val))
                        && final(self).position() == Some(p),
                    None => final(self).owner()@ == old(self).owner()@.insert(p + 1, (key, val))
                        && final(self).position() == Some(p),
                },
            },
    {
        proof {
            self.parent.lemma_locators();
        }
        match self.current {
            Some(c) => match self.parent.locate(key) {
                Some(l) => {
                    self.parent.replace_value_at(l, val);
                },
                None => {
                    self.parent.insert_after_at(c, key, val);
                },
            },
            None => self.set_only_node(key, val),
        }
    }

    /// Removes the current node and returns its key and value; absent only
    /// when the map is empty. The cursor moves to the previous node, or to
    /// the next one if there is none before. A saved position at the removed
    /// node is cleared.
    pub fn remove(&mut self) -> (r: Option<(u64, V)>)
        requires
            old(self).wf(),
        ensures
            final(self).wf(),
            *final(final(self).parent_ref()) == *final(old(self).parent_ref()),
            match old(self).position() {
                None => r is None && final(self).owner() == old(self).owner() && final(self).position() is None,
                Some(p) => r == Some(old(self).owner()@[p])
                    && final(self).owner()@ == old(self).owner()@.remove(p)
                    && final(self).position() == (if old(self).owner()@.len() == 1 {
                        None
                    } else if p > 0 {
                        Some(p - 1)
                    } else {
                        Some(0int)
                    })
                    && final(self).owner().saved_key() == saved_after_removal(
                    old(self).owner().saved_key(),
                    old(self).owner()@[p].0,
                ),
            },
    {
        proof {
            self.parent.lemma_locators();
        }
        match self.current {
            Some(c) => {
                let (key, val, navigate_to) = self.parent.remove_at(c);
                self.current = navigate_to;
                Some((key, val))
            },
            None => None,
        }
    }

    /// Remembers the current node, for `resume` to come back to; in an empty
    /// map, forgets the saved node. Only removing the node clears it again.
    pub fn save(&mut self)
        requires
            old(self).wf(),
        ensures
            final(self).wf(),
            *final(final(self).parent_ref()) == *final(old(self).parent_ref()),
            final(self).owner()@ == old(self).owner()@,
            final(self).position() == old(self).position(),
            final(self).owner().saved_key() == (match old(self).position() {
                Some(i) => Some(old(self).owner()@[i].0),
                None => None,
            }),
    {
        self.parent.set_saved(self.current);
    }

    /// Forgets the saved node.
    pub fn clear_saved(&mut self)
        requires
            old(self).wf(),
        ensures
            final(self).wf(),
            *final(final(self).parent_ref()) == *final(old(self).parent_ref()),
            final(self).owner()@ == old(self).owner()@,
            final(self).position() == old(self).position(),
            final(self).owner().saved_key() is None,
    {
        self.parent.set_saved(None);
    }

    /// Moves the current node to the front of the list; the cursor stays on it.
    pub fn move_to_front(&mut self)
        requires
            old(self).wf(),
        ensures
            final(self).wf(),
            *final(final(self).parent_ref()) == *final(old(self).parent_ref()),
            final(self).owner().saved_key() == old(self).owner().saved_key(),
            match old(self).position() {
                Some(p) => final(self).owner()@ == moved_to_front(old(self).owner()@, p)
                    && final(self).position() == Some(0int),
                None => final(self).owner() == old(self).owner() && final(self).position() is None,
            },
    {
        if let Some(c) = self.current {
            self.parent.move_front_at(c);
        }
    }

    /// Moves the current node to the back of the list; the cursor stays on it.
    pub fn move_to_back(&mut self)
        requires
            old(self).wf(),
        ensures
            final(self).wf(),
            *final(final(self).parent_ref()) == *final(old(self).parent_ref()),
            final(self).owner().saved_key() == old(self).owner().saved_key(),
            match old(self).position() {
                Some(p) => final(self).owner()@ == moved_to_back(old(self).owner()@, p)
                    && final(self).position() == Some(old(self).owner()@.len() - 1),
                None => final(self).owner() == old(self).owner() && final(self).position() is None,
            },
    {
        proof {
            self.parent.lemma_locators();
        }
        if let Some(c) = self.current {
            self.parent.move_back_at(c);
        }
    }
}

impl<V> LinkedMap<V> {
    /// A cursor at the head of the list.
    pub fn cursor(&self) -> (r: Cursor<'_, V>)
        requires
            self.wf(),
        ensures
            r.wf(),
            r.owner() == *self,
            r.position() == front_position(self@.len() as int),
    {
        Cursor::new(self, self.head_locator())
    }

    /// A cursor at the node holding `k`, or nothing if there is none.
    pub fn cursor_at(&self, k: &u64) -> (r: Option<Cursor<'_, V>>)
        requires
            self.wf(),
        ensures
            match key_position(self@, *k) {
                Some(i) => r matches Some(c) && c.wf() && c.owner() == *self && c.position() == Some(i),
                None => r is None,
            },
    {
        match self.locate(*k) {
            Some(l) => Some(Cursor::new(self, Some(l))),
            None => None,
        }
    }

    /// A cursor at the saved node, or nothing if none is saved.
    pub fn resume(&self) -> (r: Option<Cursor<'_, V>>)
        requires
            self.wf(),
        ensures
            match self.saved_key() {
                Some(k) => r matches Some(c) && c.wf() && c.owner() == *self && key_position(self@, k) == c.position()
                    && c.position() is Some,
                None => r is None,
            },
    {
        match self.saved_locator() {
            Some(l) => Some(Cursor::new(self, Some(l))),
            None => None,
        }
    }

    /// All entries, head to tail.
    pub fn iter(&self) -> (r: Vec<(&u64, &V)>)
        requires
            self.wf(),
        ensures
            pairs_of(r@) == self@,
    {
        let mut out: Vec<(&u64, &V)> = Vec::new();
        let mut cur = self.head_locator();
        loop
            invariant
                self.wf(),
                out@.len() <= self@.len(),
                cur is None ==> out@.len() == self@.len(),
                cur matches Some(l) ==> self.is_locator(l) && self.locator_position(l) == out@.len(),
                pairs_of(out@) == self@.subrange(0, out@.len() as int),
            ensures
                out@.len() == self@.len(),
            decreases self@.len() - out@.len(),
        {
            proof {
                self.lemma_locators();
            }
            match cur {
                Some(l) => {
                    out.push(self.entry(l));
                    cur = self.next_locator(l);
                    proof {
                        assert(pairs_of(out@) =~= self@.subrange(0, out@.len() as int));
                    }
                },
                None => {
                    break;
                },
            }
        }
        proof {
            assert(self@.subrange(0, self@.len() as int) =~= self@);
        }
        out
    }

    /// All entries, tail to head.
    pub fn iter_rev(&self) -> (r: Vec<(&u64, &V)>)
        requires
            self.wf(),
        ensures
            pairs_of(r@) == self@.reverse(),
    {
        let ghost s = self@;
        let mut out: Vec<(&u64, &V)> = Vec::new();
        let mut cur = self.tail_locator();
        loop
            invariant
                self.wf(),
                s == self@,
                out@.len() <= s.len(),
                cur is None ==> out@.len() == s.len(),
                cur matches Some(l) ==> self.is_locator(l) && self.locator_position(l) == s.len() - 1 - out@.len(),
                forall|k: int| 0 <= k < out@.len() ==> #[trigger] pairs_of(out@)[k] == s[s.len() - 1 - k],
            ensures
                out@.len() == s.len(),
            decreases s.len() - out@.len(),
        {
            proof {
                self.lemma_locators();
            }
            match cur {
                Some(l) => {
                    let ghost before = out@;
                    out.push(self.entry(l));
                    cur = self.previous_locator(l);
                    proof {
                        assert forall|k: int| 0 <= k < out@.len() implies #[trigger] pairs_of(out@)[k] == s[s.len() - 1 - k] by {
                            if k < before.len() {
                                assert(pairs_of(out@)[k] == pairs_of(before)[k]);
                            }
                        }
                    }
                },
                None => {
                    break;
                },
            }
        }
        proof {
            assert(pairs_of(out@) =~= s.reverse());
        }
        out
    }

    /// A mutable cursor at the head of the list.
    pub fn cursor_mut(&mut self) -> (r: CursorMut<'_, V>)
        requires
            old(self).wf(),
        ensures
            r.wf(),
            r.owner() == *old(self),
            r.position() == front_position(old(self)@.len() as int),
            *final(self) == *final(r.parent_ref()),
    {
        let head = self.head_locator();
        CursorMut::new(self, head)
    }

    /// A mutable cursor at the node holding `k`, or nothing if there is none.
    pub fn cursor_at_mut(&mut self, k: &u64) -> (r: Option<CursorMut<'_, V>>)
        requires
            old(self).wf(),
        ensures
            match key_position(old(self)@, *k) {
                Some(i) => r matches Some(c) && c.wf() && c.owner() == *old(self) && c.position() == Some(i)
                    && *final(self) == *final(c.parent_ref()),
                None => r is None && *final(self) == *old(self),
            },
    {
        match self.locate(*k) {
            Some(l) => Some(CursorMut::new(self, Some(l))),
            None => None,
        }
    }

    /// A mutable cursor at the saved node, or nothing if none is saved.
    pub fn resume_mut(&mut self) -> (r: Option<CursorMut<'_, V>>)
        requires
            old(self).wf(),
        ensures
            match old(self).saved_key() {
                Some(k) => r matches Some(c) && c.wf() && c.owner() == *old(self) && key_position(old(self)@, k)
                    == c.position() && c.position() is Some && *final(self) == *final(c.parent_ref()),
                None => r is None && *final(self) == *old(self),
            },
    {
        match self.saved_locator() {
            Some(l) => Some(CursorMut::new(self, Some(l))),
            None => None,
        }
    }
}

} // verus!
