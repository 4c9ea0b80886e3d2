//! The doubly linked list of nodes. Nodes live in an arena (a `Vec`) and refer
//! to their neighbours by slot number; a slot is the locator of a node. The
//! list knows nothing of key uniqueness.
use vstd::prelude::*;

verus! {

/// One entry of the list: a key, its value and the slots of its neighbours.
pub struct Node<V> {
    pub previous: Option<usize>,
    pub next: Option<usize>,
    pub key: u64,
    pub val: V,
}

impl<V> Node<V> {
    /// A node linked to nothing.
    pub fn new(key: u64, val: V) -> (r: Node<V>)
        ensures
            r.key == key,
            r.val == val,
            r.previous is None,
            r.next is None,
    {
        Node { previous: None, next: None, key, val }
    }

    /// The slot of the previous node, if any.
    pub fn previous(&self) -> (r: Option<usize>)
        ensures
            r == self.previous,
    {
        self.previous
    }

    /// The slot of the next node, if any.
    pub fn next(&self) -> (r: Option<usize>)
        ensures
            r == self.next,
    {
        self.next
    }
}

/// Doubly linked list over an arena of nodes.
pub struct LinkedList<V> {
    nodes: Vec<Node<V>>,
    head: Option<usize>,
    tail: Option<usize>,
    /// The occupied slots, head first.
    order: Ghost<Seq<usize>>,
    /// For each slot, its position in `order`.
    place: Ghost<Seq<int>>,
}

/// The backward link that the node at position `i` of `order` must carry.
pub open spec fn expected_previous(order: Seq<usize>, i: int) -> Option<usize> {
    if i == 0 {
        None
    } else {
        Some(order[i - 1])
    }
}

/// The forward link that the node at position `i` of `order` must carry.
pub open spec fn expected_next(order: Seq<usize>, i: int) -> Option<usize> {
    if i + 1 == order.len() {
        None
    } else {
        Some(order[i + 1])
    }
}

/// `t` with `from` renamed to `to`.
pub open spec fn relabel(t: usize, from: usize, to: usize) -> usize {
    if t == from {
        to
    } else {
        t
    }
}

impl<V> LinkedList<V> {
    /// The slots in list order, head first.
    pub closed spec fn order(&self) -> Seq<usize> {
        self.order@
    }

    /// The position in the list of the node in `slot`.
    pub closed spec fn place(&self, slot: usize) -> int {
        self.place@[slot as int]
    }

    /// The node stored in `slot`.
    pub closed spec fn slot_node(&self, slot: usize) -> Node<V> {
        self.nodes@[slot as int]
    }

    /// The key-value pairs in list order, head first.
    pub closed spec fn view(&self) -> Seq<(u64, V)> {
        Seq::new(
            self.order@.len(),
            |i: int| (self.nodes@[self.order@[i] as int].key, self.nodes@[self.order@[i] as int].val),
        )
    }

    /// Slots `0 .. n` are occupied, `order` lists each once, `place` inverts it,
    /// `head`/`tail` name its ends and every node links to its neighbours in it.
    pub closed spec fn wf(&self) -> bool {
        let n = self.nodes@.len();
        &&& self.order@.len() == n
        &&& self.place@.len() == n
        &&& forall|i: int|
            0 <= i < n ==> (#[trigger] self.order@[i] as int) < n && self.place@[self.order@[i] as int] == i
        &&& forall|s: int|
            0 <= s < n ==> 0 <= #[trigger] self.place@[s] < n && self.order@[self.place@[s]] == s
        &&& self.head == (if n == 0 { None } else { Some(self.order@[0]) })
        &&& self.tail == (if n == 0 { None } else { Some(self.order@[n - 1]) })
        &&& forall|i: int|
            0 <= i < n ==> (#[trigger] self.nodes@[self.order@[i] as int]).previous == expected_previous(
                self.order@,
                i,
            ) && self.nodes@[self.order@[i] as int].next == expected_next(self.order@, i)
    }

    /// What a well-formed list tells about its slots and positions.
    pub proof fn lemma_wf(&self)
        requires
            self.wf(),
        ensures
            self.order().len() == self.view().len(),
            self.view().len() <= usize::MAX,
            forall|i: int|
                0 <= i < self.view().len() ==> (#[trigger] self.order()[i] as int) < self.view().len()
                    && self.place(self.order()[i]) == i && self.view()[i] == (
                    self.slot_node(self.order()[i]).key,
                    self.slot_node(self.order()[i]).val,
                ),
            forall|s: usize|
                (s as int) < self.view().len() ==> 0 <= #[trigger] self.place(s) < self.view().len()
                    && self.order()[self.place(s)] == s,
            forall|i: int|
                0 <= i < self.view().len() ==> (#[trigger] self.slot_node(self.order()[i])).previous
                    == expected_previous(self.order(), i) && self.slot_node(self.order()[i]).next
                    == expected_next(self.order(), i),
    {
        assert(self.nodes@.len() == self.nodes.len());
        assert forall|s: usize| (s as int) < self.view().len() implies 0 <= #[trigger] self.place(s)
            < self.view().len() && self.order()[self.place(s)] == s by {
            assert(0 <= self.place@[s as int]);
        }
    }

    /// An empty list.
    pub fn new() -> (r: LinkedList<V>)
        ensures
            r.wf(),
            r.view() == Seq::<(u64, V)>::empty(),
    {
        LinkedList {
            nodes: Vec::new(),
            head: None,
            tail: None,
            order: Ghost(Seq::empty()),
            place: Ghost(Seq::empty()),
        }
    }

    /// Number of nodes.
    pub fn len(&self) -> (r: usize)
        requires
            self.wf(),
        ensures
            r == self.view().len(),
    {
        self.nodes.len()
    }

    /// The slot of the first node, absent iff the list is empty.
    pub fn head(&self) -> (r: Option<usize>)
        requires
            self.wf(),
        ensures
            r == (if self.view().len() == 0 { None } else { Some(self.order()[0]) }),
    {
        self.head
    }

    /// The slot of the last node, absent iff the list is empty.
    pub fn tail(&self) -> (r: Option<usize>)
        requires
            self.wf(),
        ensures
            r == (if self.view().len() == 0 {
                None
            } else {
                Some(self.order()[self.view().len() - 1])
            }),
    {
        self.tail
    }

    /// The node in `slot`.
    pub fn node(&self, slot: usize) -> (r: &Node<V>)
        requires
            self.wf(),
            (slot as int) < self.view().len(),
        ensures
            *r == self.slot_node(slot),
    {
        &self.nodes[slot]
    }

    /// Rewrites the backward link of the node in `slot`.
    fn set_previous(&mut self, slot: usize, link: Option<usize>)
        requires
            (slot as int) < old(self).nodes@.len(),
        ensures
            final(self).nodes@.len() == old(self).nodes@.len(),
            final(self).nodes@[slot as int].previous == link,
            final(self).nodes@[slot as int].next == old(self).nodes@[slot as int].next,
            final(self).nodes@[slot as int].key == old(self).nodes@[slot as int].key,
            final(self).nodes@[slot as int].val == old(self).nodes@[slot as int].val,
            forall|t: int| 0 <= t < old(self).nodes@.len() && t != slot ==> final(self).nodes@[t] == old(self).nodes@[t],
            final(self).head == old(self).head,
            final(self).tail == old(self).tail,
            final(self).order == old(self).order,
            final(self).place == old(self).place,
    {
        self.nodes[slot].previous = link;
    }

    /// Rewrites the forward link of the node in `slot`.
    fn set_next(&mut self, slot: usize, link: Option<usize>)
        requires
            (slot as int) < old(self).nodes@.len(),
        ensures
            final(self).nodes@.len() == old(self).nodes@.len(),
            final(self).nodes@[slot as int].next == link,
            final(self).nodes@[slot as int].previous == old(self).nodes@[slot as int].previous,
            final(self).nodes@[slot as int].key == old(self).nodes@[slot as int].key,
            final(self).nodes@[slot as int].val == old(self).nodes@[slot as int].val,
            forall|t: int| 0 <= t < old(self).nodes@.len() && t != slot ==> final(self).nodes@[t] == old(self).nodes@[t],
            final(self).head == old(self).head,
            final(self).tail == old(self).tail,
            final(self).order == old(self).order,
            final(self).place == old(self).place,
    {
        self.nodes[slot].next = link;
    }

    /// Links `k`, `v` in a new node at the end of the list and returns its slot.
    pub fn append(&mut self, k: u64, v: V) -> (r: usize)
        requires
            old(self).wf(),
        ensures
            final(self).wf(),
            final(self).view() == old(self).view().push((k, v)),
            final(self).order() == old(self).order().push(r),
            r == old(self).view().len(),
            final(self).slot_node(r).key == k,
            final(self).slot_node(r).val == v,
            forall|s: usize| (s as int) < old(self).view().len() ==> #[trigger] final(self).slot_node(s).key == old(self).slot_node(s).key
                && final(self).slot_node(s).val == old(self).slot_node(s).val,
    {
        let n = self.nodes.len();
        let mut node = Node::new(k, v);
        node.previous = self.tail;
        match self.tail {
            Some(t) => self.set_next(t, Some(n)),
            None => {
                self.head = Some(n);
            },
        }
        self.nodes.push(node);
        self.tail = Some(n);
        self.order = Ghost(self.order@.push(n));
        self.place = Ghost(self.place@.push(n as int));
        proof {
            let old_order = old(self).order@;
            assert forall|i: int| 0 <= i < n + 1 implies (#[trigger] self.nodes@[self.order@[i] as int]).previous == expected_previous(
                self.order@,
                i,
            ) && self.nodes@[self.order@[i] as int].next == expected_next(self.order@, i) by {
                if i < n {
                    assert(old(self).nodes@[old_order[i] as int].previous == expected_previous(old_order, i));
                    assert(old(self).nodes@[old_order[i] as int].next == expected_next(old_order, i));
                }
            }
            assert(self.view() =~= old(self).view().push((k, v)));
        }
        n
    }

    /// Links `k`, `v` in a new node at the front of the list and returns its slot.
    pub fn prepend(&mut self, k: u64, v: V) -> (r: usize)
        requires
            old(self).wf(),
        ensures
            final(self).wf(),
            final(self).view() == seq![(k, v)] + old(self).view(),
            final(self).order() == seq![r] + old(self).order(),
            r == old(self).view().len(),
            final(self).place(r) == 0,
            final(self).slot_node(r).key == k,
            final(self).slot_node(r).val == v,
            forall|s: usize| (s as int) < old(self).view().len() ==> #[trigger] final(self).slot_node(s).key == old(self).slot_node(s).key
                && final(self).slot_node(s).val == old(self).slot_node(s).val,
    {
        let n = self.nodes.len();
        let mut node = Node::new(k, v);
        node.next = self.head;
        match self.head {
            Some(h) => self.set_previous(h, Some(n)),
            None => {
                self.tail = Some(n);
            },
        }
        self.nodes.push(node);
        self.head = Some(n);
        self.order = Ghost(seq![n] + self.order@);
        self.place = Ghost(Seq::new(n as nat + 1, |s: int| if s == n { 0 } else { self.place@[s] + 1 }));
        proof {
            let old_order = old(self).order@;
            assert forall|i: int| 0 <= i < n + 1 implies (#[trigger] self.order@[i] as int) < n + 1 && self.place@[self.order@[i] as int] == i by {
                if i > 0 {
                    assert(self.order@[i] == old_order[i - 1]);
                }
            }
            assert forall|s: int| 0 <= s < n + 1 implies 0 <= #[trigger] self.place@[s] < n + 1 && self.order@[self.place@[s]] == s by {
                if s < n {
                    assert(0 <= old(self).place@[s]);
                }
            }
            assert forall|i: int| 0 <= i < n + 1 implies (#[trigger] self.nodes@[self.order@[i] as int]).previous == expected_previous(
                self.order@,
                i,
            ) && self.nodes@[self.order@[i] as int].next == expected_next(self.order@, i) by {
                if i > 0 {
                    assert(self.order@[i] == old_order[i - 1]);
                    assert(old(self).nodes@[old_order[i - 1] as int].previous == expected_previous(old_order, i - 1));
                    assert(old(self).nodes@[old_order[i - 1] as int].next == expected_next(old_order, i - 1));
                }
            }
            assert(self.view() =~= seq![(k, v)] + old(self).view());
        }
        n
    }

    /// Links `node` in just before the node in `before` and returns its slot.
    pub fn insert_before(&mut self, node: Node<V>, before: usize) -> (r: usize)
        requires
            old(self).wf(),
            (before as int) < old(self).view().len(),
        ensures
            final(self).wf(),
            r == old(self).view().len(),
            final(self).slot_node(r).key == node.key,
            final(self).slot_node(r).val == node.val,
            final(self).order() == old(self).order().insert(old(self).place(before), r),
            final(self).view() == old(self).view().insert(old(self).place(before), (node.key, node.val)),
            forall|s: usize| (s as int) < old(self).view().len() ==> #[trigger] final(self).slot_node(s).key == old(self).slot_node(s).key
                && final(self).slot_node(s).val == old(self).slot_node(s).val,
    {
        let ghost p = self.place@[before as int];
        let n = self.nodes.len();
        let prev = self.nodes[before].previous;
        let mut node = node;
        node.previous = prev;
        node.next = Some(before);
        proof {
            assert(self.order@[p] == before);
        }
        self.set_previous(before, Some(n));
        match prev {
            Some(q) => {
                proof {
                    assert(q == self.order@[p - 1]);
                    assert(self.place@[q as int] == p - 1);
                }
                self.set_next(q, Some(n));
            },
            None => {
                self.head = Some(n);
            },
        }
        self.nodes.push(node);
        self.order = Ghost(self.order@.insert(p, n));
        self.place = Ghost(
            Seq::new(
                n as nat + 1,
                |s: int|
                    if s == n {
                        p
                    } else if self.place@[s] >= p {
                        self.place@[s] + 1
                    } else {
                        self.place@[s]
                    },
            ),
        );
        proof {
            let old_order = old(self).order@;
            let old_nodes = old(self).nodes@;
            assert forall|i: int| 0 <= i < n + 1 implies (#[trigger] self.order@[i] as int) < n + 1 && self.place@[self.order@[i] as int] == i by {
                if i < p {
                    assert(self.order@[i] == old_order[i]);
                } else if i > p {
                    assert(self.order@[i] == old_order[i - 1]);
                }
            }
            assert forall|s: int| 0 <= s < n + 1 implies 0 <= #[trigger] self.place@[s] < n + 1 && self.order@[self.place@[s]] == s by {
                if s < n {
                    assert(0 <= old(self).place@[s]);
                }
            }
            assert forall|i: int| 0 <= i < n + 1 implies (#[trigger] self.nodes@[self.order@[i] as int]).previous == expected_previous(
                self.order@,
                i,
            ) && self.nodes@[self.order@[i] as int].next == expected_next(self.order@, i) by {
                if i < p {
                    assert(old_nodes[old_order[i] as int].previous == expected_previous(old_order, i));
                    assert(old_nodes[old_order[i] as int].next == expected_next(old_order, i));
                } else if i > p {
                    assert(old_nodes[old_order[i - 1] as int].previous == expected_previous(old_order, i - 1));
                    assert(old_nodes[old_order[i - 1] as int].next == expected_next(old_order, i - 1));
                }
            }
            assert(self.view() =~= old(self).view().insert(p, (node.key, node.val)));
        }
        n
    }

    /// Links `node` in just after the node in `after` and returns its slot.
    pub fn insert_after(&mut self, node: Node<V>, after: usize) -> (r: usize)
        requires
            old(self).wf(),
            (after as int) < old(self).view().len(),
        ensures
            final(self).wf(),
            r == old(self).view().len(),
            final(self).slot_node(r).key == node.key,
            final(self).slot_node(r).val == node.val,
            final(self).order() == old(self).order().insert(old(self).place(after) + 1, r),
            final(self).view() == old(self).view().insert(old(self).place(after) + 1, (node.key, node.val)),
            forall|s: usize| (s as int) < old(self).view().len() ==> #[trigger] final(self).slot_node(s).key == old(self).slot_node(s).key
                && final(self).slot_node(s).val == old(self).slot_node(s).val,
    {
        let ghost p = self.place@[after as int] + 1;
        let n = self.nodes.len();
        let nxt = self.nodes[after].next;
        let mut node = node;
        node.previous = Some(after);
        node.next = nxt;
        proof {
            assert(self.order@[p - 1] == after);
        }
        self.set_next(after, Some(n));
        match nxt {
            Some(q) => {
                proof {
                    assert(q == self.order@[p]);
                    assert(self.place@[q as int] == p);
                }
                self.set_previous(q, Some(n));
            },
            None => {
                self.tail = Some(n);
            },
        }
        self.nodes.push(node);
        self.order = Ghost(self.order@.insert(p, n));
        self.place = Ghost(
            Seq::new(
                n as nat + 1,
                |s: int|
                    if s == n {
                        p
                    } else if self.place@[s] >= p {
                        self.place@[s] + 1
                    } else {
                        self.place@[s]
                    },
            ),
        );
        proof {
            let old_order = old(self).order@;
            let old_nodes = old(self).nodes@;
            assert forall|i: int| 0 <= i < n + 1 implies (#[trigger] self.order@[i] as int) < n + 1 && self.place@[self.order@[i] as int] == i by {
                if i < p {
                    assert(self.order@[i] == old_order[i]);
                } else if i > p {
                    assert(self.order@[i] == old_order[i - 1]);
                }
            }
            assert forall|s: int| 0 <= s < n + 1 implies 0 <= #[trigger] self.place@[s] < n + 1 && self.order@[self.place@[s]] == s by {
                if s < n {
                    assert(0 <= old(self).place@[s]);
                }
            }
            assert forall|i: int| 0 <= i < n + 1 implies (#[trigger] self.nodes@[self.order@[i] as int]).previous == expected_previous(
                self.order@,
                i,
            ) && self.nodes@[self.order@[i] as int].next == expected_next(self.order@, i) by {
                if i < p {
                    assert(old_nodes[old_order[i] as int].previous == expected_previous(old_order, i));
                    assert(old_nodes[old_order[i] as int].next == expected_next(old_order, i));
                } else if i > p {
                    assert(old_nodes[old_order[i - 1] as int].previous == expected_previous(old_order, i - 1));
                    assert(old_nodes[old_order[i - 1] as int].next == expected_next(old_order, i - 1));
                }
            }
            assert(self.view() =~= old(self).view().insert(p, (node.key, node.val)));
        }
        n
    }
    /// Moves the node in `slot` to the front; nothing changes if it is there.
    #[verifier::rlimit(40)]
    pub fn move_to_front(&mut self, slot: usize)
        requires
            old(self).wf(),
            (slot as int) < old(self).view().len(),
        ensures
            final(self).wf(),
            final(self).order() == seq![slot] + old(self).order().remove(old(self).place(slot)),
            final(self).view() == seq![old(self).view()[old(self).place(slot)]] + old(self).view().remove(
                old(self).place(slot),
            ),
            forall|s: usize| (s as int) < old(self).view().len() ==> #[trigger] final(self).slot_node(s).key == old(self).slot_node(s).key
                && final(self).slot_node(s).val == old(self).slot_node(s).val,
    {
        let ghost p = self.place@[slot as int];
        let ghost n = self.nodes@.len();
        proof {
            assert(self.order@[p] == slot);
        }
        if self.head == Some(slot) {
            proof {
                assert(p == 0);
                assert(self.order@ =~= seq![slot] + self.order@.remove(p));
                assert(self.view() =~= seq![self.view()[p]] + self.view().remove(p));
            }
            return;
        }
        let a = self.nodes[slot].previous.unwrap();
        let nxt = self.nodes[slot].next;
        let h = self.head.unwrap();
        proof {
            assert(p > 0);
            assert(a == self.order@[p - 1]);
            assert(self.place@[a as int] == p - 1);
            assert(h == self.order@[0]);
            assert(self.place@[h as int] == 0);
        }
        self.set_next(a, nxt);
        match nxt {
            Some(b) => {
                proof {
                    assert(b == self.order@[p + 1]);
                    assert(self.place@[b as int] == p + 1);
                }
                self.set_previous(b, Some(a));
            },
            None => {
                self.tail = Some(a);
            },
        }
        self.set_previous(h, Some(slot));
        self.set_previous(slot, None);
        self.set_next(slot, Some(h));
        self.head = Some(slot);
        self.order = Ghost(seq![slot] + self.order@.remove(p));
        self.place = Ghost(
            Seq::new(
                n,
                |s: int|
                    if s == slot {
                        0
                    } else if self.place@[s] < p {
                        self.place@[s] + 1
                    } else {
                        self.place@[s]
                    },
            ),
        );
        proof {
            let old_order = old(self).order@;
            let old_nodes = old(self).nodes@;
            assert forall|i: int| 0 <= i < n implies (#[trigger] self.order@[i] as int) < n && self.place@[self.order@[i] as int] == i by {
                if 0 < i <= p {
                    assert(self.order@[i] == old_order[i - 1]);
                } else if i > p {
                    assert(self.order@[i] == old_order[i]);
                }
            }
            assert forall|s: int| 0 <= s < n implies 0 <= #[trigger] self.place@[s] < n && self.order@[self.place@[s]] == s by {
                assert(0 <= old(self).place@[s]);
            }
            assert forall|i: int| 0 <= i < n implies (#[trigger] self.nodes@[self.order@[i] as int]).previous == expected_previous(
                self.order@,
                i,
            ) && self.nodes@[self.order@[i] as int].next == expected_next(self.order@, i) by {
                if 0 < i <= p {
                    assert(old_nodes[old_order[i - 1] as int].previous == expected_previous(old_order, i - 1));
                    assert(old_nodes[old_order[i - 1] as int].next == expected_next(old_order, i - 1));
                } else if i > p {
                    assert(old_nodes[old_order[i] as int].previous == expected_previous(old_order, i));
                    assert(old_nodes[old_order[i] as int].next == expected_next(old_order, i));
                }
            }
            assert(self.view() =~= seq![old(self).view()[p]] + old(self).view().remove(p));
        }
    }

    /// Moves the node in `slot` to the back; nothing changes if it is there.
    #[verifier::rlimit(40)]
    pub fn move_to_back(&mut self, slot: usize)
        requires
            old(self).wf(),
            (slot as int) < old(self).view().len(),
        ensures
            final(self).wf(),
            final(self).order() == old(self).order().remove(old(self).place(slot)).push(slot),
            final(self).view() == old(self).view().remove(old(self).place(slot)).push(
                old(self).view()[old(self).place(slot)],
            ),
            forall|s: usize| (s as int) < old(self).view().len() ==> #[trigger] final(self).slot_node(s).key == old(self).slot_node(s).key
                && final(self).slot_node(s).val == old(self).slot_node(s).val,
    {
        let ghost p = self.place@[slot as int];
        let ghost n = self.nodes@.len();
        proof {
            assert(self.order@[p] == slot);
        }
        if self.tail == Some(slot) {
            proof {
                assert(p == n - 1);
                assert(self.order@ =~= self.order@.remove(p).push(slot));
                assert(self.view() =~= self.view().remove(p).push(self.view()[p]));
            }
            return;
        }
        let b = self.nodes[slot].next.unwrap();
        let prv = self.nodes[slot].previous;
        let t = self.tail.unwrap();
        proof {
            assert(p < n - 1);
            assert(b == self.order@[p + 1]);
            assert(self.place@[b as int] == p + 1);
            assert(t == self.order@[n - 1]);
            assert(self.place@[t as int] == n - 1);
        }
        self.set_previous(b, prv);
        match prv {
            Some(a) => {
                proof {
                    assert(a == self.order@[p - 1]);
                    assert(self.place@[a as int] == p - 1);
                }
                self.set_next(a, Some(b));
            },
            None => {
                self.head = Some(b);
            },
        }
        self.set_next(t, Some(slot));
        self.set_next(slot, None);
        self.set_previous(slot, Some(t));
        self.tail = Some(slot);
        self.order = Ghost(self.order@.remove(p).push(slot));
        self.place = Ghost(
            Seq::new(
                n,
                |s: int|
                    if s == slot {
                        n - 1
                    } else if self.place@[s] > p {
                        self.place@[s] - 1
                    } else {
                        self.place@[s]
                    },
            ),
        );
        proof {
            let old_order = old(self).order@;
            let old_nodes = old(self).nodes@;
            assert forall|i: int| 0 <= i < n implies (#[trigger] self.order@[i] as int) < n && self.place@[self.order@[i] as int] == i by {
                if i < p {
                    assert(self.order@[i] == old_order[i]);
                } else if p <= i < n - 1 {
                    assert(self.order@[i] == old_order[i + 1]);
                }
            }
            assert forall|s: int| 0 <= s < n implies 0 <= #[trigger] self.place@[s] < n && self.order@[self.place@[s]] == s by {
                assert(0 <= old(self).place@[s]);
            }
            assert forall|i: int| 0 <= i < n implies (#[trigger] self.nodes@[self.order@[i] as int]).previous == expected_previous(
                self.order@,
                i,
            ) && self.nodes@[self.order@[i] as int].next == expected_next(self.order@, i) by {
                if i < p {
                    assert(old_nodes[old_order[i] as int].previous == expected_previous(old_order, i));
                    assert(old_nodes[old_order[i] as int].next == expected_next(old_order, i));
                } else if p <= i < n - 1 {
                    assert(old_nodes[old_order[i + 1] as int].previous == expected_previous(old_order, i + 1));
                    assert(old_nodes[old_order[i + 1] as int].next == expected_next(old_order, i + 1));
                }
            }
            assert(self.view() =~= old(self).view().remove(p).push(old(self).view()[p]));
        }
    }

    /// The value of the node in `slot`, to be changed in place.
    pub fn value_mut(&mut self, slot: usize) -> (r: &mut V)
        requires
            old(self).wf(),
            (slot as int) < old(self).view().len(),
        ensures
            *r == old(self).slot_node(slot).val,
            final(self).wf(),
            final(self).order() == old(self).order(),
            forall|s: usize| #[trigger] final(self).place(s) == old(self).place(s),
            final(self).view() =~= old(self).view().update(
                old(self).place(slot),
                (old(self).slot_node(slot).key, *final(r)),
            ),
            final(self).slot_node(slot).key == old(self).slot_node(slot).key,
            final(self).slot_node(slot).val == *final(r),
            forall|s: usize|
                (s as int) < old(self).view().len() && s != slot ==> #[trigger] final(self).slot_node(s)
                    == old(self).slot_node(s),
    {
        proof {
            self.lemma_wf();
        }
        self.val_mut_raw(slot)
    }

    fn val_mut_raw(&mut self, slot: usize) -> (r: &mut V)
        requires
            (slot as int) < old(self).nodes@.len(),
        ensures
            *r == old(self).nodes@[slot as int].val,
            final(self).nodes@ == old(self).nodes@.update(
                slot as int,
                Node { val: *final(r), ..old(self).nodes@[slot as int] },
            ),
            final(self).head == old(self).head,
            final(self).tail == old(self).tail,
            final(self).order == old(self).order,
            final(self).place == old(self).place,
    {
        &mut self.nodes[slot].val
    }
    /// Every node named in `order` links to its neighbours there.
    spec fn chain(nodes: Seq<Node<V>>, order: Seq<usize>) -> bool {
        forall|i: int|
            0 <= i < order.len() ==> (#[trigger] nodes[order[i] as int]).previous == expected_previous(order, i)
                && nodes[order[i] as int].next == expected_next(order, i)
    }

    spec fn ends(&self, order: Seq<usize>) -> bool {
        &&& self.head == (if order.len() == 0 { None } else { Some(order[0]) })
        &&& self.tail == (if order.len() == 0 { None } else { Some(order[order.len() - 1]) })
    }

    /// Bypasses the node in `slot`: its neighbours link to each other. The
    /// ghost order and positions are left for the caller to update.
    fn unlink(&mut self, slot: usize)
        requires
            old(self).wf(),
            (slot as int) < old(self).nodes@.len(),
        ensures
            final(self).nodes@.len() == old(self).nodes@.len(),
            final(self).order == old(self).order,
            final(self).place == old(self).place,
            forall|t: int|
                0 <= t < old(self).nodes@.len() ==> (#[trigger] final(self).nodes@[t]).key == old(self).nodes@[t].key
                    && final(self).nodes@[t].val == old(self).nodes@[t].val,
            Self::chain(final(self).nodes@, old(self).order@.remove(old(self).place@[slot as int])),
            final(self).ends(old(self).order@.remove(old(self).place@[slot as int])),
    {
        let ghost p = self.place@[slot as int];
        let ghost n = self.nodes@.len();
        let prv = self.nodes[slot].previous;
        let nxt = self.nodes[slot].next;
        proof {
            assert(self.order@[p] == slot);
        }
        match prv {
            Some(a) => {
                proof {
                    assert(a == self.order@[p - 1]);
                    assert(self.place@[a as int] == p - 1);
                }
                self.set_next(a, nxt);
            },
            None => {
                self.head = nxt;
            },
        }
        match nxt {
            Some(b) => {
                proof {
                    assert(b == self.order@[p + 1]);
                    assert(self.place@[b as int] == p + 1);
                }
                self.set_previous(b, prv);
            },
            None => {
                self.tail = prv;
            },
        }
        proof {
            let order1 = self.order@.remove(p);
            let old_order = old(self).order@;
            let old_nodes = old(self).nodes@;
            assert forall|i: int| 0 <= i < n - 1 implies #[trigger] self.nodes@[order1[i] as int].previous
                == expected_previous(order1, i) && self.nodes@[order1[i] as int].next == expected_next(order1, i) by {
                if i < p {
                    assert(order1[i] == old_order[i]);
                    assert(old_nodes[old_order[i] as int].previous == expected_previous(old_order, i));
                    assert(old_nodes[old_order[i] as int].next == expected_next(old_order, i));
                } else {
                    assert(order1[i] == old_order[i + 1]);
                    assert(old_nodes[old_order[i + 1] as int].previous == expected_previous(old_order, i + 1));
                    assert(old_nodes[old_order[i + 1] as int].next == expected_next(old_order, i + 1));
                }
            }
        }
    }

    /// Takes the unlinked node out of `slot` and moves the node of the last
    /// slot into it, repointing that node's neighbours.
    fn fill_slot(&mut self, slot: usize, Ghost(order1): Ghost<Seq<usize>>, Ghost(q1): Ghost<int>) -> (r: Node<V>)
        requires
            (slot as int) < old(self).nodes@.len(),
            order1.len() + 1 == old(self).nodes@.len(),
            Self::chain(old(self).nodes@, order1),
            old(self).ends(order1),
            forall|i: int| 0 <= i < order1.len() ==> (#[trigger] order1[i] as int) < old(self).nodes@.len() && order1[i] != slot,
            slot + 1 != old(self).nodes@.len() ==> 0 <= q1 < order1.len() && order1[q1] + 1 == old(self).nodes@.len(),
            forall|i: int| 0 <= i < order1.len() && #[trigger] order1[i] + 1 == old(self).nodes@.len() ==> i == q1,
        ensures
            r == old(self).nodes@[slot as int],
            final(self).nodes@.len() == order1.len(),
            final(self).order == old(self).order,
            final(self).place == old(self).place,
            forall|t: int|
                0 <= t < order1.len() ==> (#[trigger] final(self).nodes@[t]).key == old(self).nodes@[relabel(t as usize, slot, order1.len() as usize) as int].key
                    && final(self).nodes@[t].val == old(self).nodes@[relabel(t as usize, slot, order1.len() as usize) as int].val,
            Self::chain(final(self).nodes@, order1.map_values(|t: usize| relabel(t, order1.len() as usize, slot))),
            final(self).ends(order1.map_values(|t: usize| relabel(t, order1.len() as usize, slot))),
    {
        let ghost nodes1 = self.nodes@;
        let last = self.nodes.len() - 1;
        let ghost order2 = order1.map_values(|t: usize| relabel(t, last, slot));
        let removed = self.nodes.swap_remove(slot);
        if slot != last {
            proof {
                assert(self.nodes@[slot as int] == nodes1[last as int]);
                assert(nodes1[order1[q1] as int].previous == expected_previous(order1, q1));
                assert(nodes1[order1[q1] as int].next == expected_next(order1, q1));
            }
            let mp = self.nodes[slot].previous;
            let mn = self.nodes[slot].next;
            match mp {
                Some(a) => {
                    self.set_next(a, Some(slot));
                },
                None => {
                    self.head = Some(slot);
                },
            }
            match mn {
                Some(b) => {
                    self.set_previous(b, Some(slot));
                },
                None => {
                    self.tail = Some(slot);
                },
            }
        }
        proof {
            let m = order1.len() as int;
            assert forall|i: int| 0 <= i < m implies #[trigger] self.nodes@[order2[i] as int].previous
                == expected_previous(order2, i) && self.nodes@[order2[i] as int].next == expected_next(order2, i) by {
                assert(nodes1[order1[i] as int].previous == expected_previous(order1, i));
                assert(nodes1[order1[i] as int].next == expected_next(order1, i));
                if i > 0 {
                    assert(nodes1[order1[i - 1] as int].next == expected_next(order1, i - 1));
                }
                if i + 1 < m {
                    assert(nodes1[order1[i + 1] as int].previous == expected_previous(order1, i + 1));
                }
            }
        }
        removed
    }

    /// Keys and values of all nodes in slot order, the values to be changed
    /// in place.
    fn slot_entries_mut(&mut self) -> (r: Vec<(&u64, &mut V)>)
        ensures
            r@.len() == old(self).nodes@.len(),
            forall|j: int| 0 <= j < r@.len() ==> *r@[j].0 == old(self).nodes@[j].key && *r@[j].1 == old(self).nodes@[j].val,
            final(self).nodes@.len() == old(self).nodes@.len(),
            forall|j: int| 0 <= j < r@.len() ==> #[trigger] final(self).nodes@[j] == (Node { val: *final(r@[j].1), ..old(self).nodes@[j] }),
            final(self).head == old(self).head,
            final(self).tail == old(self).tail,
            final(self).order == old(self).order,
            final(self).place == old(self).place,
    {
        let ghost start = self.nodes@;
        let all: &mut [Node<V>] = self.nodes.as_mut_slice();
        let ghost all_final = final(all)@;
        let mut rest: &mut [Node<V>] = all;
        let mut out: Vec<(&u64, &mut V)> = Vec::new();
        while rest.len() > 0
            invariant
                out@.len() + rest@.len() == start.len(),
                rest@ == start.subrange(out@.len() as int, start.len() as int),
                forall|j: int| 0 <= j < out@.len() ==> *out@[j].0 == start[j].key && *out@[j].1 == start[j].val,
                all_final == Seq::new(
                    out@.len() as nat,
                    |j: int| (Node { val: *final(out@[j].1), ..start[j] }),
                ) + final(rest)@,
            decreases rest@.len(),
        {
            let (first, tail) = rest.split_at_mut(1);
            let node = &mut first[0];
            out.push((&node.key, &mut node.val));
            rest = tail;
        }
        out
    }

    /// The slots in list order, read by walking the links from the head.
    fn slot_order(&self) -> (r: Vec<usize>)
        requires
            self.wf(),
        ensures
            r@ == self.order@,
    {
        let ghost n = self.nodes@.len();
        let mut out: Vec<usize> = Vec::new();
        let mut cur = self.head;
        loop
            invariant
                self.wf(),
                n == self.nodes@.len(),
                out@.len() <= n,
                out@ == self.order@.subrange(0, out@.len() as int),
                cur == (if out@.len() < n { Some(self.order@[out@.len() as int]) } else { None::<usize> }),
            ensures
                out@.len() == n,
            decreases n - out@.len(),
        {
            match cur {
                Some(s) => {
                    proof {
                        assert(self.nodes@[self.order@[out@.len() as int] as int].next == expected_next(
                            self.order@,
                            out@.len() as int,
                        ));
                    }
                    out.push(s);
                    cur = self.nodes[s].next;
                    proof {
                        assert(out@ =~= self.order@.subrange(0, out@.len() as int));
                    }
                },
                None => {
                    break;
                },
            }
        }
        proof {
            assert(out@ =~= self.order@);
        }
        out
    }

    /// Keys and values of all nodes in list order, the values to be changed
    /// in place.
    pub fn entries_mut(&mut self) -> (r: Vec<(&u64, &mut V)>)
        requires
            old(self).wf(),
        ensures
            r@.len() == old(self).view().len(),
            forall|j: int| 0 <= j < r@.len() ==> *r@[j].0 == old(self).view()[j].0 && *r@[j].1 == old(self).view()[j].1,
            final(self).wf(),
            final(self).order() == old(self).order(),
            forall|s: usize| #[trigger] final(self).place(s) == old(self).place(s),
            forall|s: usize|
                (s as int) < old(self).view().len() ==> #[trigger] final(self).slot_node(s).key == old(self).slot_node(s).key,
            final(self).view() =~= Seq::new(
                old(self).view().len(),
                |j: int| (old(self).view()[j].0, *final(r@[j].1)),
            ),
    {
        proof {
            self.lemma_wf();
        }
        let order = self.slot_order();
        let by_slot = self.slot_entries_mut();
        let ghost entries = by_slot@;
        let n = by_slot.len();
        let mut slots: Vec<Option<(&u64, &mut V)>> = Vec::new();
        for e in it: by_slot
            invariant
                it.seq() == entries,
                slots@.len() == it.index(),
                forall|j: int| 0 <= j < slots@.len() ==> #[trigger] slots@[j] == Some(entries[j]),
        {
            slots.push(Some(e));
        }
        let mut out: Vec<(&u64, &mut V)> = Vec::new();
        let mut i: usize = 0;
        while i < n
            invariant
                i <= n,
                n == entries.len(),
                n == order@.len(),
                slots@.len() == n,
                out@.len() == i,
                forall|j: int| 0 <= j < i ==> #[trigger] out@[j] == entries[order@[j] as int],
                forall|t: int|
                    0 <= t < n && old(self).place@[t] >= i ==> #[trigger] slots@[t] == Some(entries[t]),
                order@ == old(self).order@,
                old(self).wf(),
                old(self).nodes@.len() == n,
            decreases n - i,
        {
            let s = order[i];
            proof {
                assert(old(self).place@[s as int] == i);
            }
            let mut e: Option<(&u64, &mut V)> = None;
            std::mem::swap(&mut slots[s], &mut e);
            out.push(e.unwrap());
            i = i + 1;
        }
        out
    }

    /// Unlinks the node in `slot` and hands it back linked to nothing, so it
    /// carries no slot number that could outlive it. To keep the arena dense
    /// the node of the last slot moves into `slot`; the slots of all other
    /// nodes stay as they were.
    #[verifier::rlimit(80)]
    pub fn remove(&mut self, slot: usize) -> (r: Node<V>)
        requires
            old(self).wf(),
            (slot as int) < old(self).view().len(),
        ensures
            final(self).wf(),
            r.key == old(self).slot_node(slot).key,
            r.val == old(self).slot_node(slot).val,
            r.previous is None,
            r.next is None,
            final(self).view() == old(self).view().remove(old(self).place(slot)),
            final(self).order() == old(self).order().remove(old(self).place(slot)).map_values(
                |t: usize| relabel(t, (old(self).view().len() - 1) as usize, slot),
            ),
            forall|s: usize|
                (s as int) < final(self).view().len() ==> #[trigger] final(self).slot_node(s).key
                    == old(self).slot_node(relabel(s, slot, (old(self).view().len() - 1) as usize)).key
                    && final(self).slot_node(s).val == old(self).slot_node(
                    relabel(s, slot, (old(self).view().len() - 1) as usize),
                ).val,
    {
        let ghost p = self.place@[slot as int];
        let ghost old_order = self.order@;
        let ghost old_place = self.place@;
        let n = self.nodes.len();
        let last = n - 1;
        let ghost order1 = old_order.remove(p);
        let ghost q1: int = if old_place[last as int] > p {
            old_place[last as int] - 1
        } else {
            old_place[last as int]
        };
        proof {
            assert(old_order[p] == slot);
            assert forall|i: int| 0 <= i < n - 1 implies order1[i] == old_order[if i < p { i } else { i + 1 }] by {}
            assert forall|i: int| 0 <= i < n - 1 implies (#[trigger] order1[i] as int) < n && order1[i] != slot by {
                let j = if i < p { i } else { i + 1 };
                assert(old_place[old_order[j] as int] == j);
            }
            if slot != last {
                assert(old_order[old_place[last as int]] == last);
                assert(old_place[last as int] != p);
                assert(order1[q1] == last);
            }
            assert forall|i: int| 0 <= i < n - 1 && #[trigger] order1[i] + 1 == n implies i == q1 by {
                let j = if i < p { i } else { i + 1 };
                assert(old_place[old_order[j] as int] == j);
            }
        }
        self.unlink(slot);
        let mut removed = self.fill_slot(slot, Ghost(order1), Ghost(q1));
        removed.previous = None;
        removed.next = None;
        self.order = Ghost(order1.map_values(|t: usize| relabel(t, last, slot)));
        self.place = Ghost(
            Seq::new(
                last as nat,
                |s: int|
                    {
                        let src = if s == slot { last as int } else { s };
                        if old_place[src] > p {
                            old_place[src] - 1
                        } else {
                            old_place[src]
                        }
                    },
            ),
        );
        proof {
            let m = last as int;
            assert forall|i: int| 0 <= i < m implies (#[trigger] self.order@[i] as int) < m && self.place@[self.order@[i] as int] == i by {
                let j = if i < p { i } else { i + 1 };
                assert(old_place[old_order[j] as int] == j);
                if order1[i] == last {
                    assert(i == q1);
                }
            }
            assert forall|s: int| 0 <= s < m implies 0 <= #[trigger] self.place@[s] < m && self.order@[self.place@[s]] == s by {
                let src = if s == slot { last as int } else { s };
                assert(0 <= old_place[src] < n);
                assert(old_order[old_place[src]] == src);
                assert(old_place[src] != p);
                let k = self.place@[s];
                assert(order1[k] == src);
            }
            assert forall|i: int| 0 <= i < m implies (#[trigger] self.nodes@[self.order@[i] as int]).previous == expected_previous(
                self.order@,
                i,
            ) && self.nodes@[self.order@[i] as int].next == expected_next(self.order@, i) by {}
            assert(self.view() =~= old(self).view().remove(p)) by {
                assert forall|i: int| 0 <= i < m implies #[trigger] self.view()[i] == old(self).view().remove(p)[i] by {
                    let j = if i < p { i } else { i + 1 };
                    assert(old(self).view()[j] == (old(self).nodes@[old_order[j] as int].key, old(self).nodes@[old_order[j] as int].val));
                    if order1[i] == last {
                        assert(i == q1);
                    }
                }
            }
        }
        removed
    }
}

impl<V> Default for LinkedList<V> {
    fn default() -> (r: Self)
        ensures
            r.wf(),
            r.view() == Seq::<(u64, V)>::empty(),
    {
        LinkedList::new()
    }
}

} // verus!
