//! The container: a list of nodes plus a hash index from key to node, kept in
//! one-to-one correspondence, and one optional saved node.
use vstd::prelude::*;

use crate::index::{index_entries, KeyIndex};
use crate::list::{relabel, LinkedList};

verus! {

/// The keys of `s`, in order.
pub open spec fn keys_of<V>(s: Seq<(u64, V)>) -> Seq<u64> {
    s.map_values(|e: (u64, V)| e.0)
}

/// No key occurs twice in `s`.
pub open spec fn distinct_keys<V>(s: Seq<(u64, V)>) -> bool {
    forall|i: int, j: int| 0 <= i < s.len() && 0 <= j < s.len() && i != j ==> #[trigger] s[i].0 != #[trigger] s[j].0
}

/// Where `k` stands in `s`, if it occurs.
pub open spec fn key_position<V>(s: Seq<(u64, V)>, k: u64) -> Option<int> {
    if exists|i: int| 0 <= i < s.len() && #[trigger] s[i].0 == k {
        Some(choose|i: int| 0 <= i < s.len() && #[trigger] s[i].0 == k)
    } else {
        None
    }
}

/// `s` after `prepend(k, v)`: `k` stands first, holding `v`.
pub open spec fn prepended<V>(s: Seq<(u64, V)>, k: u64, v: V) -> Seq<(u64, V)> {
    match key_position(s, k) {
        Some(i) => seq![(k, v)] + s.remove(i),
        None => seq![(k, v)] + s,
    }
}

/// `s` after `append(k, v)`: `k` stands last, holding `v`.
pub open spec fn appended<V>(s: Seq<(u64, V)>, k: u64, v: V) -> Seq<(u64, V)> {
    match key_position(s, k) {
        Some(i) => s.remove(i).push((k, v)),
        None => s.push((k, v)),
    }
}

/// `s` after appending each of `pairs` in turn.
pub open spec fn appended_all<V>(s: Seq<(u64, V)>, pairs: Seq<(u64, V)>) -> Seq<(u64, V)>
    decreases pairs.len(),
{
    if pairs.len() == 0 {
        s
    } else {
        appended(appended_all(s, pairs.drop_last()), pairs.last().0, pairs.last().1)
    }
}

/// The value stored under `k` in `s`, if any.
pub open spec fn value_of<V>(s: Seq<(u64, V)>, k: u64) -> Option<V> {
    match key_position(s, k) {
        Some(i) => Some(s[i].1),
        None => None,
    }
}

/// Key-value store whose entries also form a list that can be reordered and
/// walked with cursors, with room to remember one node for later.
pub struct LinkedMap<V> {
    /// Stores node order.
    pub(crate) list: LinkedList<V>,
    /// Maps each key to the slot of its node.
    pub(crate) index: KeyIndex,
    /// A node remembered for resuming a cursor there.
    pub(crate) saved: Option<usize>,
}

impl<V> LinkedMap<V> {
    /// The entries in list order, head first.
    pub closed spec fn view(&self) -> Seq<(u64, V)> {
        self.list.view()
    }

    /// The keys that the hash index holds.
    pub closed spec fn index_keys(&self) -> Set<u64> {
        index_entries(self.index).dom()
    }

    /// The key of the saved node, if one is saved.
    pub closed spec fn saved_key(&self) -> Option<u64> {
        match self.saved {
            Some(s) => Some(self.list.slot_node(s).key),
            None => None,
        }
    }

    /// Whether `l` locates a node of this map.
    pub closed spec fn is_locator(&self, l: usize) -> bool {
        (l as int) < self.list.view().len()
    }

    /// The list position of the node that `l` locates.
    pub closed spec fn locator_position(&self, l: usize) -> int {
        self.list.place(l)
    }

    /// The list is well formed, the index maps exactly the keys of its nodes
    /// to their slots, and the saved slot holds a node.
    pub closed spec fn wf(&self) -> bool {
        let n = self.list.view().len();
        let ix = index_entries(self.index);
        &&& self.list.wf()
        &&& forall|s: usize|
            (s as int) < n ==> ix.contains_key(#[trigger] self.list.slot_node(s).key) && ix[self.list.slot_node(
                s,
            ).key] == s
        &&& forall|k: u64|
            #[trigger] ix.contains_key(k) ==> (ix[k] as int) < n && self.list.slot_node(ix[k]).key == k
        &&& match self.saved {
            Some(s) => (s as int) < n,
            None => true,
        }
    }

    /// Locators and positions are inverse to each other, and keys are distinct.
    pub(crate) proof fn lemma_locators(&self)
        requires
            self.wf(),
        ensures
            distinct_keys(self@),
            self@.len() <= usize::MAX,
            forall|l: usize|
                #[trigger] self.is_locator(l) ==> 0 <= self.locator_position(l) < self@.len() && self@[self.locator_position(l)]
                    == (self.list.slot_node(l).key, self.list.slot_node(l).val),
            forall|l: usize, m: usize|
                #![trigger self.locator_position(l), self.locator_position(m)]
                self.is_locator(l) && self.is_locator(m) && self.locator_position(l) == self.locator_position(m)
                    ==> l == m,
    {
        self.list.lemma_wf();
        let s = self@;
        let order = self.list.order();
        assert forall|i: int, j: int| 0 <= i < s.len() && 0 <= j < s.len() && i != j implies #[trigger] s[i].0
            != #[trigger] s[j].0 by {
            let a = order[i];
            let b = order[j];
            assert(self.list.place(a) == i);
            assert(self.list.place(b) == j);
            assert(index_entries(self.index)[self.list.slot_node(a).key] == a);
            assert(index_entries(self.index)[self.list.slot_node(b).key] == b);
        }
        assert forall|l: usize| #[trigger] self.is_locator(l) implies 0 <= self.locator_position(l) < self@.len()
            && self@[self.locator_position(l)] == (self.list.slot_node(l).key, self.list.slot_node(l).val) by {
            assert(0 <= self.list.place(l) < self@.len());
        }
        assert forall|l: usize, m: usize|
            #![trigger self.locator_position(l), self.locator_position(m)]
            self.is_locator(l) && self.is_locator(m) && self.locator_position(l) == self.locator_position(m)
                implies l == m by {
            assert(self.list.place(l) < s.len());
            assert(order[self.list.place(l)] == l);
            assert(order[self.list.place(m)] == m);
        }
    }

    /// With distinct keys, the entry at `i` is where its key stands.
    pub proof fn lemma_key_position(s: Seq<(u64, V)>, i: int)
        requires
            distinct_keys(s),
            0 <= i < s.len(),
        ensures
            key_position(s, s[i].0) == Some(i),
    {
    }

    /// The hash index holds exactly the keys met when walking the list.
    pub proof fn lemma_index_matches_list(&self)
        requires
            self.wf(),
        ensures
            self.index_keys() == keys_of(self@).to_set(),
            keys_of(self@).no_duplicates(),
            self.index_keys().len() == self@.len(),
    {
        self.lemma_locators();
        self.list.lemma_wf();
        let ks = keys_of(self@);
        let ix = index_entries(self.index);
        assert forall|k: u64| #[trigger] ix.dom().contains(k) implies ks.to_set().contains(k) by {
            let s = ix[k];
            let i = self.list.place(s);
            assert(self.is_locator(s));
            assert(ks[i] == k);
        }
        assert forall|k: u64| ks.to_set().contains(k) implies #[trigger] ix.dom().contains(k) by {
            let i = ks.index_of(k);
            let s = self.list.order()[i];
            assert(self.list.slot_node(s).key == k);
        }
        assert(self.index_keys() =~= ks.to_set());
        ks.unique_seq_to_set();
    }

    /// The saved key, if any, is the key of an entry.
    pub proof fn lemma_saved_in_map(&self)
        requires
            self.wf(),
        ensures
            self.saved_key() matches Some(k) ==> exists|i: int| 0 <= i < self@.len() && #[trigger] self@[i].0 == k,
    {
        self.lemma_locators();
        if let Some(s) = self.saved {
            assert(self.is_locator(s));
            assert(self@[self.locator_position(s)].0 == self.list.slot_node(s).key);
        }
    }

    /// An empty map.
    pub fn new() -> (r: LinkedMap<V>)
        ensures
            r.wf(),
            r@ == Seq::<(u64, V)>::empty(),
            r.saved_key() is None,
    {
        LinkedMap { list: LinkedList::new(), index: KeyIndex::new(), saved: None }
    }

    /// Number of entries.
    pub fn len(&self) -> (r: usize)
        requires
            self.wf(),
        ensures
            r == self@.len(),
    {
        proof {
            self.lemma_index_matches_list();
        }
        self.index.len()
    }

    /// Whether the map holds no entries.
    pub fn is_empty(&self) -> (r: bool)
        requires
            self.wf(),
        ensures
            r == (self@.len() == 0),
    {
        self.len() == 0
    }

    /// How many entries the hash index holds without reallocating.
    pub fn capacity(&self) -> (r: usize)
        requires
            self.wf(),
        ensures
            r >= self@.len(),
    {
        proof {
            self.lemma_index_matches_list();
        }
        self.index.capacity()
    }

    /// Inserts `k`, `v` at the front. A key already present gets the new
    /// value, moves to the front, and its old value is returned.
    pub fn prepend(&mut self, k: u64, v: V) -> (r: Option<V>)
        requires
            old(self).wf(),
        ensures
            final(self).wf(),
            final(self).saved_key() == old(self).saved_key(),
            final(self)@ == prepended(old(self)@, k, v),
            r == value_of(old(self)@, k),
    {
        match self.locate(k) {
            Some(l) => {
                let ghost pre = *self;
                let ghost i = self.locator_position(l);
                let previous = self.replace_value_at(l, v);
                self.move_front_at(l);
                proof {
                    assert(pre@[i].0 == k);
                    assert(self@ =~= seq![(k, v)] + pre@.remove(i));
                }
                Some(previous)
            },
            None => {
                self.push_front_new(k, v);
                None
            },
        }
    }

    /// Inserts `k`, `v` at the back. A key already present gets the new
    /// value, moves to the back, and its old value is returned.
    pub fn append(&mut self, k: u64, v: V) -> (r: Option<V>)
        requires
            old(self).wf(),
        ensures
            final(self).wf(),
            final(self).saved_key() == old(self).saved_key(),
            final(self)@ == appended(old(self)@, k, v),
            r == value_of(old(self)@, k),
    {
        match self.locate(k) {
            Some(l) => {
                let ghost pre = *self;
                let ghost i = self.locator_position(l);
                let previous = self.replace_value_at(l, v);
                self.move_back_at(l);
                proof {
                    assert(pre@[i].0 == k);
                    assert(self@ =~= pre@.remove(i).push((k, v)));
                }
                Some(previous)
            },
            None => {
                self.push_back_new(k, v);
                None
            },
        }
    }

    /// A map built by appending `pairs` in order; a repeated key keeps its
    /// last value and its last place.
    pub fn from_pairs(pairs: Vec<(u64, V)>) -> (r: LinkedMap<V>)
        ensures
            r.wf(),
            r@ == appended_all(Seq::empty(), pairs@),
            r.saved_key() is None,
    {
        let mut map = LinkedMap::new();
        let ghost all = pairs@;
        for p in it: pairs
            invariant
                it.seq() == all,
                map.wf(),
                map@ == appended_all(Seq::empty(), all.take(it.index() as int)),
                map.saved_key() is None,
        {
            let ghost done = all.take(it.index() as int);
            let (k, v) = p;
            map.append(k, v);
            proof {
                let next = all.take(it.index() as int + 1);
                assert(next.drop_last() =~= done);
                assert(next.last() == (k, v));
            }
        }
        proof {
            assert(all.take(all.len() as int) =~= all);
        }
        map
    }

    /// All entries, head to tail, the values to be changed in place.
    pub fn iter_mut(&mut self) -> (r: Vec<(&u64, &mut V)>)
        requires
            old(self).wf(),
        ensures
            r@.len() == old(self)@.len(),
            forall|j: int| 0 <= j < r@.len() ==> *r@[j].0 == old(self)@[j].0 && *r@[j].1 == old(self)@[j].1,
            final(self).wf(),
            final(self).saved_key() == old(self).saved_key(),
            final(self)@ =~= Seq::new(old(self)@.len(), |j: int| (old(self)@[j].0, *final(r@[j].1))),
    {
        self.list.entries_mut()
    }

    /// All entries, tail to head, the values to be changed in place.
    pub fn iter_rev_mut(&mut self) -> (r: Vec<(&u64, &mut V)>)
        requires
            old(self).wf(),
        ensures
            r@.len() == old(self)@.len(),
            forall|j: int|
                0 <= j < r@.len() ==> *r@[j].0 == old(self)@[r@.len() - 1 - j].0 && *r@[j].1 == old(self)@[r@.len()
                    - 1 - j].1,
            final(self).wf(),
            final(self).saved_key() == old(self).saved_key(),
            final(self)@ =~= Seq::new(
                old(self)@.len(),
                |j: int| (old(self)@[j].0, *final(r@[old(self)@.len() - 1 - j].1)),
            ),
    {
        let mut forward = self.iter_mut();
        let ghost all = forward@;
        let n = forward.len();
        let mut out: Vec<(&u64, &mut V)> = Vec::new();
        while forward.len() > 0
            invariant
                n == all.len(),
                out@.len() + forward@.len() == n,
                forward@ == all.subrange(0, forward@.len() as int),
                forall|j: int| 0 <= j < out@.len() ==> #[trigger] out@[j] == all[n - 1 - j],
            decreases forward@.len(),
        {
            let e = forward.pop().unwrap();
            out.push(e);
        }
        out
    }

    /// Forgets the saved node.
    pub fn clear_saved(&mut self)
        requires
            old(self).wf(),
        ensures
            final(self).wf(),
            final(self)@ == old(self)@,
            final(self).saved_key() is None,
    {
        self.set_saved(None);
    }

    // The traversal engine shared by both kinds of cursor: operations on
    // locators, specified by the positions they locate.

    /// The locator of the first node.
    pub(crate) fn head_locator(&self) -> (r: Option<usize>)
        requires
            self.wf(),
        ensures
            r is None <==> self@.len() == 0,
            r matches Some(l) ==> self.is_locator(l) && self.locator_position(l) == 0,
    {
        proof {
            self.list.lemma_wf();
        }
        self.list.head()
    }

    /// The locator of the last node.
    pub(crate) fn tail_locator(&self) -> (r: Option<usize>)
        requires
            self.wf(),
        ensures
            r is None <==> self@.len() == 0,
            r matches Some(l) ==> self.is_locator(l) && self.locator_position(l) == self@.len() - 1,
    {
        proof {
            self.list.lemma_wf();
        }
        self.list.tail()
    }

    /// The locator of the node after the one `l` locates.
    pub(crate) fn next_locator(&self, l: usize) -> (r: Option<usize>)
        requires
            self.wf(),
            self.is_locator(l),
        ensures
            r is None <==> self.locator_position(l) + 1 == self@.len(),
            r matches Some(m) ==> self.is_locator(m) && self.locator_position(m) == self.locator_position(l) + 1,
    {
        proof {
            self.list.lemma_wf();
            let i = self.list.place(l);
            assert(self.list.order()[i] == l);
            if i + 1 < self@.len() {
                assert(self.list.order()[i + 1] < self@.len());
            }
        }
        self.list.node(l).next()
    }

    /// The locator of the node before the one `l` locates.
    pub(crate) fn previous_locator(&self, l: usize) -> (r: Option<usize>)
        requires
            self.wf(),
            self.is_locator(l),
        ensures
            r is None <==> self.locator_position(l) == 0,
            r matches Some(m) ==> self.is_locator(m) && self.locator_position(m) == self.locator_position(l) - 1,
    {
        proof {
            self.list.lemma_wf();
            let i = self.list.place(l);
            assert(self.list.order()[i] == l);
            if i > 0 {
                assert(self.list.order()[i - 1] < self@.len());
            }
        }
        self.list.node(l).previous()
    }

    /// The key and value of the node that `l` locates.
    pub(crate) fn entry(&self, l: usize) -> (r: (&u64, &V))
        requires
            self.wf(),
            self.is_locator(l),
        ensures
            *r.0 == self@[self.locator_position(l)].0,
            *r.1 == self@[self.locator_position(l)].1,
    {
        proof {
            self.lemma_locators();
        }
        let node = self.list.node(l);
        (&node.key, &node.val)
    }

    /// The locator of the node holding `k`, looked up in the hash index.
    pub(crate) fn locate(&self, k: u64) -> (r: Option<usize>)
        requires
            self.wf(),
        ensures
            r is None <==> key_position(self@, k) is None,
            r matches Some(l) ==> self.is_locator(l) && key_position(self@, k) == Some(self.locator_position(l)),
    {
        proof {
            self.lemma_locators();
            self.list.lemma_wf();
            if let Some(i) = key_position(self@, k) {
                let s = self.list.order()[i];
                assert(self.list.slot_node(s).key == k);
            }
        }
        let r = self.index.get(k);
        proof {
            if let Some(l) = r {
                assert(self.is_locator(l));
                Self::lemma_key_position(self@, self.locator_position(l));
            }
        }
        r
    }

    /// The saved locator.
    pub(crate) fn saved_locator(&self) -> (r: Option<usize>)
        requires
            self.wf(),
        ensures
            r is None <==> self.saved_key() is None,
            r matches Some(l) ==> self.is_locator(l) && self.saved_key() == Some(self@[self.locator_position(l)].0)
                && key_position(self@, self@[self.locator_position(l)].0) == Some(self.locator_position(l)),
    {
        proof {
            self.lemma_locators();
            if let Some(l) = self.saved {
                assert(self.is_locator(l));
                Self::lemma_key_position(self@, self.locator_position(l));
            }
        }
        self.saved
    }

    /// Saves `l`, or clears the saved locator.
    pub(crate) fn set_saved(&mut self, l: Option<usize>)
        requires
            old(self).wf(),
            l matches Some(m) ==> old(self).is_locator(m),
        ensures
            final(self).wf(),
            final(self)@ == old(self)@,
            forall|m: usize| #[trigger] final(self).is_locator(m) == old(self).is_locator(m),
            forall|m: usize| #[trigger] final(self).locator_position(m) == old(self).locator_position(m),
            final(self).saved_key() == (match l {
                Some(m) => Some(old(self)@[old(self).locator_position(m)].0),
                None => None,
            }),
    {
        proof {
            self.lemma_locators();
        }
        self.saved = l;
    }

    /// A change of the list that keeps every node in its slot with its key.
    proof fn lemma_same_slots(pre: LinkedMap<V>, post: LinkedMap<V>)
        requires
            pre.wf(),
            post.list.wf(),
            post.list.view().len() == pre.list.view().len(),
            forall|s: usize|
                (s as int) < pre@.len() ==> #[trigger] post.list.slot_node(s).key == pre.list.slot_node(s).key,
            post.index == pre.index,
            post.saved == pre.saved,
        ensures
            post.wf(),
            post.saved_key() == pre.saved_key(),
    {
    }

    /// A change of the list that adds a node with the new key `k` in the
    /// next free slot, and of the index that records it.
    proof fn lemma_added(pre: LinkedMap<V>, post: LinkedMap<V>, k: u64)
        requires
            pre.wf(),
            post.list.wf(),
            key_position(pre@, k) is None,
            post.list.view().len() == pre.list.view().len() + 1,
            post.list.slot_node(pre@.len() as usize).key == k,
            forall|s: usize|
                (s as int) < pre@.len() ==> #[trigger] post.list.slot_node(s).key == pre.list.slot_node(s).key,
            index_entries(post.index) == index_entries(pre.index).insert(k, pre@.len() as usize),
            post.saved == pre.saved,
        ensures
            post.wf(),
            post.saved_key() == pre.saved_key(),
    {
        pre.lemma_locators();
        let n = pre@.len();
        let ix = index_entries(post.index);
        assert forall|s: usize| (s as int) < n + 1 implies ix.contains_key(#[trigger] post.list.slot_node(s).key)
            && ix[post.list.slot_node(s).key] == s by {
            if (s as int) < n {
                assert(pre.is_locator(s));
                assert(pre@[pre.locator_position(s)].0 != k);
            }
        }
    }

    /// A change of the list that removes the node in slot `l` and moves the
    /// node of the last slot into it, and of the index and saved locator that
    /// follow it.
    proof fn lemma_removed(pre: LinkedMap<V>, post: LinkedMap<V>, l: usize, last: usize)
        requires
            pre.wf(),
            post.list.wf(),
            pre.is_locator(l),
            last + 1 == pre@.len(),
            post@.len() == last,
            forall|s: usize|
                (s as int) < last ==> #[trigger] post.list.slot_node(s).key == pre.list.slot_node(
                    relabel(s, l, last),
                ).key,
            l == last ==> index_entries(post.index) == index_entries(pre.index).remove(pre.list.slot_node(l).key),
            l != last ==> index_entries(post.index) == index_entries(pre.index).remove(
                pre.list.slot_node(l).key,
            ).insert(pre.list.slot_node(last).key, l),
            post.saved == (match pre.saved {
                Some(s) => if s == l {
                    None
                } else {
                    Some(relabel(s, last, l))
                },
                None => None,
            }),
        ensures
            post.wf(),
            post.saved_key() == (if pre.saved_key() == Some(pre.list.slot_node(l).key) {
                None
            } else {
                pre.saved_key()
            }),
    {
        let ixp = index_entries(pre.index);
        let ix = index_entries(post.index);
        let gone = pre.list.slot_node(l).key;
        assert(ixp[gone] == l);
        assert(ixp[pre.list.slot_node(last).key] == last);
        assert forall|s: usize| (s as int) < last implies ix.contains_key(#[trigger] post.list.slot_node(s).key)
            && ix[post.list.slot_node(s).key] == s by {
            let src = relabel(s, l, last);
            assert(ixp[pre.list.slot_node(src).key] == src);
        }
        assert forall|k: u64| #[trigger] ix.contains_key(k) implies (ix[k] as int) < last && post.list.slot_node(
            ix[k],
        ).key == k by {
            if l != last && k == pre.list.slot_node(last).key {
                assert(ix[k] == l);
            } else {
                if l == last {
                    assert(ix == ixp.remove(gone));
                } else {
                    assert(ix == ixp.remove(gone).insert(pre.list.slot_node(last).key, l));
                }
                assert(k != gone);
                assert(ixp.contains_key(k));
                let t = ixp[k];
                assert(pre.list.slot_node(t).key == k);
                assert(ix[k] == t);
                assert(relabel(t, l, last) == t);
            }
        }
        if let Some(s) = pre.saved {
            assert(ixp[pre.list.slot_node(s).key] == s);
        }
    }

    /// Adds `k`, `v` at the back; `k` must be new.
    pub(crate) fn push_back_new(&mut self, k: u64, v: V) -> (l: usize)
        requires
            old(self).wf(),
            key_position(old(self)@, k) is None,
        ensures
            final(self).wf(),
            final(self)@ == old(self)@.push((k, v)),
            final(self).is_locator(l),
            final(self).locator_position(l) == old(self)@.len(),
            forall|m: usize|
                old(self).is_locator(m) ==> #[trigger] final(self).is_locator(m) && final(self).locator_position(m)
                    == old(self).locator_position(m),
            final(self).saved_key() == old(self).saved_key(),
    {
        let ghost pre = *self;
        proof {
            self.list.lemma_wf();
        }
        let l = self.list.append(k, v);
        self.index.insert(k, l);
        proof {
            self.list.lemma_wf();
            Self::lemma_added(pre, *self, k);
            assert forall|m: usize| pre.is_locator(m) implies #[trigger] self.is_locator(m)
                && self.locator_position(m) == pre.locator_position(m) by {
                let i = pre.list.place(m);
                assert(self.list.order()[i] == m);
            }
        }
        l
    }

    /// Adds `k`, `v` at the front; `k` must be new.
    pub(crate) fn push_front_new(&mut self, k: u64, v: V) -> (l: usize)
        requires
            old(self).wf(),
            key_position(old(self)@, k) is None,
        ensures
            final(self).wf(),
            final(self)@ == seq![(k, v)] + old(self)@,
            final(self).is_locator(l),
            final(self).locator_position(l) == 0,
            final(self).saved_key() == old(self).saved_key(),
    {
        let ghost pre = *self;
        let l = self.list.prepend(k, v);
        self.index.insert(k, l);
        proof {
            Self::lemma_added(pre, *self, k);
        }
        l
    }

    /// Adds `k`, `v` just before the node `c` locates; `k` must be new.
    pub(crate) fn insert_before_at(&mut self, c: usize, k: u64, v: V)
        requires
            old(self).wf(),
            old(self).is_locator(c),
            key_position(old(self)@, k) is None,
        ensures
            final(self).wf(),
            final(self)@ == old(self)@.insert(old(self).locator_position(c), (k, v)),
            final(self).is_locator(c),
            final(self).locator_position(c) == old(self).locator_position(c) + 1,
            final(self).saved_key() == old(self).saved_key(),
    {
        let ghost pre = *self;
        proof {
            self.list.lemma_wf();
        }
        let l = self.list.insert_before(crate::list::Node::new(k, v), c);
        self.index.insert(k, l);
        proof {
            self.list.lemma_wf();
            Self::lemma_added(pre, *self, k);
            let i = pre.list.place(c);
            assert(self.list.order()[i + 1] == c);
        }
    }

    /// Adds `k`, `v` just after the node `c` locates; `k` must be new.
    pub(crate) fn insert_after_at(&mut self, c: usize, k: u64, v: V)
        requires
            old(self).wf(),
            old(self).is_locator(c),
            key_position(old(self)@, k) is None,
        ensures
            final(self).wf(),
            final(self)@ == old(self)@.insert(old(self).locator_position(c) + 1, (k, v)),
            final(self).is_locator(c),
            final(self).locator_position(c) == old(self).locator_position(c),
            final(self).saved_key() == old(self).saved_key(),
    {
        let ghost pre = *self;
        proof {
            self.list.lemma_wf();
        }
        let l = self.list.insert_after(crate::list::Node::new(k, v), c);
        self.index.insert(k, l);
        proof {
            self.list.lemma_wf();
            Self::lemma_added(pre, *self, k);
            let i = pre.list.place(c);
            assert(self.list.order()[i] == c);
        }
    }

    /// Puts `v` in the node `l` locates and returns the value it held.
    pub(crate) fn replace_value_at(&mut self, l: usize, v: V) -> (r: V)
        requires
            old(self).wf(),
            old(self).is_locator(l),
        ensures
            final(self).wf(),
            r == old(self)@[old(self).locator_position(l)].1,
            final(self)@ == old(self)@.update(
                old(self).locator_position(l),
                (old(self)@[old(self).locator_position(l)].0, v),
            ),
            forall|m: usize| #[trigger] final(self).is_locator(m) == old(self).is_locator(m),
            forall|m: usize| #[trigger] final(self).locator_position(m) == old(self).locator_position(m),
            final(self).saved_key() == old(self).saved_key(),
    {
        let ghost pre = *self;
        proof {
            self.lemma_locators();
        }
        let mut v = v;
        let slot_val = self.list.value_mut(l);
        std::mem::swap(slot_val, &mut v);
        proof {
            Self::lemma_same_slots(pre, *self);
        }
        v
    }

    /// The value of the node `l` locates, to be changed in place.
    pub(crate) fn value_at(&mut self, l: usize) -> (r: &mut V)
        requires
            old(self).wf(),
            old(self).is_locator(l),
        ensures
            *r == old(self)@[old(self).locator_position(l)].1,
            final(self).wf(),
            final(self)@ == old(self)@.update(
                old(self).locator_position(l),
                (old(self)@[old(self).locator_position(l)].0, *final(r)),
            ),
            forall|m: usize| #[trigger] final(self).is_locator(m) == old(self).is_locator(m),
            forall|m: usize| #[trigger] final(self).locator_position(m) == old(self).locator_position(m),
            final(self).saved_key() == old(self).saved_key(),
    {
        proof {
            self.lemma_locators();
        }
        self.list.value_mut(l)
    }

    /// Moves the node `l` locates to the front.
    pub(crate) fn move_front_at(&mut self, l: usize)
        requires
            old(self).wf(),
            old(self).is_locator(l),
        ensures
            final(self).wf(),
            final(self)@ == seq![old(self)@[old(self).locator_position(l)]] + old(self)@.remove(
                old(self).locator_position(l),
            ),
            final(self).is_locator(l),
            final(self).locator_position(l) == 0,
            final(self).saved_key() == old(self).saved_key(),
    {
        let ghost pre = *self;
        proof {
            self.list.lemma_wf();
        }
        self.list.move_to_front(l);
        proof {
            self.list.lemma_wf();
            Self::lemma_same_slots(pre, *self);
        }
    }

    /// Moves the node `l` locates to the back.
    pub(crate) fn move_back_at(&mut self, l: usize)
        requires
            old(self).wf(),
            old(self).is_locator(l),
        ensures
            final(self).wf(),
            final(self)@ == old(self)@.remove(old(self).locator_position(l)).push(
                old(self)@[old(self).locator_position(l)],
            ),
            final(self).is_locator(l),
            final(self).locator_position(l) == final(self)@.len() - 1,
            final(self).saved_key() == old(self).saved_key(),
    {
        let ghost pre = *self;
        proof {
            self.list.lemma_wf();
        }
        self.list.move_to_back(l);
        proof {
            self.list.lemma_wf();
            Self::lemma_same_slots(pre, *self);
            assert(self.list.order()[self@.len() - 1] == l);
        }
    }

    /// Removes the node `l` locates and returns its key, its value and the
    /// locator of its previous neighbour, or of its next one at the front.
    pub(crate) fn remove_at(&mut self, l: usize) -> (r: (u64, V, Option<usize>))
        requires
            old(self).wf(),
            old(self).is_locator(l),
        ensures
            final(self).wf(),
            (r.0, r.1) == old(self)@[old(self).locator_position(l)],
            final(self)@ == old(self)@.remove(old(self).locator_position(l)),
            r.2 is None <==> old(self)@.len() == 1,
            r.2 matches Some(m) ==> final(self).is_locator(m) && final(self).locator_position(m) == (if old(
                self,
            ).locator_position(l) > 0 {
                old(self).locator_position(l) - 1
            } else {
                0
            }),
            final(self).saved_key() == (if old(self).saved_key() == Some(
                old(self)@[old(self).locator_position(l)].0,
            ) {
                None
            } else {
                old(self).saved_key()
            }),
    {
        let ghost pre = *self;
        let ghost p = self.list.place(l);
        proof {
            self.lemma_locators();
            self.list.lemma_wf();
            assert(self.list.order()[p] == l);
        }
        let n = self.list.len();
        let last = n - 1;
        let nav0 = match self.list.node(l).previous() {
            Some(a) => Some(a),
            None => self.list.node(l).next(),
        };
        let node = self.list.remove(l);
        self.index.remove(node.key);
        if l != last {
            let moved_key = self.list.node(l).key;
            self.index.insert(moved_key, l);
        }
        let nav = match nav0 {
            Some(a) => if a == last {
                Some(l)
            } else {
                Some(a)
            },
            None => None,
        };
        self.saved = match self.saved {
            Some(s) => if s == l {
                None
            } else if s == last {
                Some(l)
            } else {
                Some(s)
            },
            None => None,
        };
        proof {
            self.list.lemma_wf();
            Self::lemma_removed(pre, *self, l, last);
            let order1 = pre.list.order().remove(p);
            if let Some(a) = nav0 {
                let i = if p > 0 { p - 1 } else { 0 };
                assert(order1[i] == a);
                assert(self.list.order()[i] == relabel(a, last, l));
            }
        }
        (node.key, node.val, nav)
    }
}

impl<V> Default for LinkedMap<V> {
    fn default() -> (r: Self)
        ensures
            r.wf(),
            r@ == Seq::<(u64, V)>::empty(),
            r.saved_key() is None,
    {
        LinkedMap::new()
    }
}

} // verus!
