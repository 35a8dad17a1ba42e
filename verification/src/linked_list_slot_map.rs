use crate::SlotMap;
use crate::SlotMapHandle;
use vstd::prelude::*;

verus! {

/// One element of the linked-list layer: a value plus optional handles to
/// the previous and next nodes inside the same arena. The links are pure
/// back-references validated by generation — the arena remains sole owner
/// of every node.
pub struct Node<T> {
    value: T,
    next: Option<SlotMapHandle<Node<T>>>,
    previous: Option<SlotMapHandle<Node<T>>>,
}

impl<T> Node<T> {
    /// The stored value.
    pub closed spec fn val(&self) -> T {
        self.value
    }

    /// The stored link to the following node, if any.
    pub closed spec fn next_link(&self) -> Option<SlotMapHandle<Node<T>>> {
        self.next
    }

    /// The stored link to the preceding node, if any.
    pub closed spec fn prev_link(&self) -> Option<SlotMapHandle<Node<T>>> {
        self.previous
    }
}

/// A handle to a node of a [`LinkedListSlotMap`]: a thin wrapper around the
/// underlying arena handle.
pub struct LinkedListSlotMapHandle<T>(pub(crate) SlotMapHandle<Node<T>>);

impl<T> LinkedListSlotMapHandle<T> {
    /// The wrapped arena handle.
    pub closed spec fn spec_inner(&self) -> SlotMapHandle<Node<T>> {
        self.0
    }

    /// The underlying arena handle for the node.
    pub fn inner_handle(&self) -> (r: SlotMapHandle<Node<T>>)
        ensures
            r == self.spec_inner(),
    {
        self.0
    }
}

impl<T> Clone for LinkedListSlotMapHandle<T> {
    fn clone(&self) -> (r: Self)
        ensures
            r == *self,
    {
        LinkedListSlotMapHandle(self.0)
    }
}

impl<T> Copy for LinkedListSlotMapHandle<T> {}

/// Whether one of the first `k` handles of the chain refers to arena slot
/// `idx`.
pub open spec fn chain_hits_slot<T>(
    chain: Seq<SlotMapHandle<Node<T>>>,
    k: int,
    idx: int,
) -> bool {
    exists|j: int| 0 <= j < k && (#[trigger] chain[j]).idx() as int == idx
}

/// Borrows the value inside a node, leaving its links untouched.
fn node_value_mut<'x, T>(node: &'x mut Node<T>) -> (r: &'x mut T)
    ensures
        *r == old(node).val(),
        (*final(node)).val() == *final(r),
        (*final(node)).next_link() == old(node).next_link(),
        (*final(node)).prev_link() == old(node).prev_link(),
{
    &mut node.value
}

impl<T> PartialEq for LinkedListSlotMapHandle<T> {
    /// Like the underlying arena handles: equality by indirection index
    /// alone.
    fn eq(&self, other: &Self) -> (r: bool) {
        self.0 == other.0
    }
}

impl<T> vstd::std_specs::cmp::PartialEqSpecImpl for LinkedListSlotMapHandle<T> {
    open spec fn obeys_eq_spec() -> bool {
        true
    }

    open spec fn eq_spec(&self, other: &Self) -> bool {
        self.spec_inner().idx() == other.spec_inner().idx()
    }
}

impl<T> Eq for LinkedListSlotMapHandle<T> {}

/// A structure that can accommodate several independent doubly-linked lists
/// stored within one arena. There is no separate head or tail pointer: any
/// handle into a list reaches the whole list by walking links.
///
/// The ghost rank map orders the nodes of every list: ranks strictly
/// increase along `next` links. It witnesses that no chain of links ever
/// forms a cycle, which is what makes walking a list to its end a
/// terminating operation.
pub struct LinkedListSlotMap<T> {
    slot_map: SlotMap<Node<T>>,
    rank: Ghost<Map<int, nat>>,
    rank_limit: Ghost<nat>,
}

impl<T> LinkedListSlotMap<T> {
    /// The underlying arena of nodes.
    pub closed spec fn arena(&self) -> SlotMap<Node<T>> {
        self.slot_map
    }

    /// The ghost rank of the node in arena slot `i`.
    pub closed spec fn rank_of(&self, i: int) -> nat {
        self.rank@[i]
    }

    /// A strict upper bound on every live node's rank.
    pub closed spec fn rank_limit(&self) -> nat {
        self.rank_limit@
    }

    /// The handle wraps a valid arena handle: its node exists.
    pub open spec fn node_valid(&self, h: LinkedListSlotMapHandle<T>) -> bool {
        self.arena().handle_valid(h.spec_inner())
    }

    /// The arena handle is valid: its node exists.
    pub open spec fn inner_valid(&self, h: SlotMapHandle<Node<T>>) -> bool {
        self.arena().handle_valid(h)
    }

    /// The node a valid arena handle resolves to.
    pub open spec fn node_of(&self, h: SlotMapHandle<Node<T>>) -> Node<T>
        recommends
            self.inner_valid(h),
    {
        self.arena().value_of(h)
    }

    /// The value stored in the node.
    pub open spec fn value_at(&self, h: SlotMapHandle<Node<T>>) -> T
        recommends
            self.inner_valid(h),
    {
        self.node_of(h).val()
    }

    /// The node's stored link to its successor.
    pub open spec fn next_of(&self, h: SlotMapHandle<Node<T>>) -> Option<SlotMapHandle<Node<T>>>
        recommends
            self.inner_valid(h),
    {
        self.node_of(h).next_link()
    }

    /// The node's stored link to its predecessor.
    pub open spec fn prev_of(&self, h: SlotMapHandle<Node<T>>) -> Option<SlotMapHandle<Node<T>>>
        recommends
            self.inner_valid(h),
    {
        self.node_of(h).prev_link()
    }

    /// The (currently valid) handle of arena slot `i`.
    pub open spec fn handle_of_slot(&self, i: int) -> SlotMapHandle<Node<T>> {
        SlotMapHandle::handle_for(i as usize, self.arena().slot_gen(i))
    }

    /// Link consistency at the live node in slot `i`: each stored neighbor
    /// link points at a valid node whose back-link returns here, and ranks
    /// strictly increase along `next` (decrease along `previous`).
    pub open spec fn slot_links_ok(&self, i: int) -> bool {
        let h = self.handle_of_slot(i);
        &&& match self.next_of(h) {
            Some(n) => {
                &&& self.inner_valid(n)
                &&& self.prev_of(n) == Some(h)
                &&& self.rank_of(n.idx() as int) > self.rank_of(i)
            },
            None => true,
        }
        &&& match self.prev_of(h) {
            Some(p) => {
                &&& self.inner_valid(p)
                &&& self.next_of(p) == Some(h)
                &&& self.rank_of(p.idx() as int) < self.rank_of(i)
            },
            None => true,
        }
    }

    /// The list invariant: the arena is well-formed, every live node's
    /// links are mutually consistent with its neighbors', and every live
    /// node's rank is below the rank limit.
    pub open spec fn inv(&self) -> bool {
        &&& self.arena().inv()
        &&& forall|i: int|
            0 <= i < self.arena().num_slots() && self.arena().live(i) ==> #[trigger] self
                .slot_links_ok(i)
        &&& forall|i: int|
            0 <= i < self.arena().num_slots() && self.arena().live(i) ==> #[trigger] self.rank_of(
                i,
            ) < self.rank_limit()
    }

    /// The machine limit on insertion, inherited from the arena: reusing a
    /// pooled slot increments its generation, which must not overflow.
    pub open spec fn can_insert(&self) -> bool {
        self.arena().can_allocate()
    }

    /// An empty structure.
    pub fn new() -> (r: Self)
        ensures
            r.inv(),
            r.arena()@.len() == 0,
            r.arena().num_slots() == 0,
    {
        Self {
            slot_map: SlotMap::new(),
            rank: Ghost(Map::new(|i: int| true, |i: int| 0nat)),
            rank_limit: Ghost(1nat),
        }
    }

    /// Looks the node up: present with its value exactly when the handle is
    /// valid.
    pub fn get(&self, handle: LinkedListSlotMapHandle<T>) -> (r: Option<&T>)
        requires
            self.arena().inv(),
        ensures
            self.node_valid(handle) ==> r.is_some() && *r.unwrap() == self.value_at(
                handle.spec_inner(),
            ),
            !self.node_valid(handle) ==> r.is_none(),
    {
        match self.slot_map.get(handle.inner_handle()) {
            Some(node) => Some(&node.value),
            None => None,
        }
    }

    /// The handle of the node preceding this one: absent when the handle is
    /// stale or the node is the head of its list.
    pub fn get_previous_handle(&self, handle: LinkedListSlotMapHandle<T>) -> (r: Option<
        LinkedListSlotMapHandle<T>,
    >)
        requires
            self.arena().inv(),
        ensures
            !self.node_valid(handle) ==> r.is_none(),
            self.node_valid(handle) ==> match (r, self.prev_of(handle.spec_inner())) {
                (None, None) => true,
                (Some(rh), Some(p)) => rh.spec_inner() == p,
                _ => false,
            },
    {
        match self.slot_map.get(handle.inner_handle()) {
            Some(node) => match node.previous {
                Some(p) => Some(LinkedListSlotMapHandle(p)),
                None => None,
            },
            None => None,
        }
    }

    /// The handle of the node following this one: absent when the handle is
    /// stale or the node is the tail of its list.
    pub fn get_next_handle(&self, handle: LinkedListSlotMapHandle<T>) -> (r: Option<
        LinkedListSlotMapHandle<T>,
    >)
        requires
            self.arena().inv(),
        ensures
            !self.node_valid(handle) ==> r.is_none(),
            self.node_valid(handle) ==> match (r, self.next_of(handle.spec_inner())) {
                (None, None) => true,
                (Some(rh), Some(n)) => rh.spec_inner() == n,
                _ => false,
            },
    {
        match self.slot_map.get(handle.inner_handle()) {
            Some(node) => match node.next {
                Some(n) => Some(LinkedListSlotMapHandle(n)),
                None => None,
            },
            None => None,
        }
    }

    /// Splices a new node carrying `value` into the structure. With no
    /// `previous`, the node starts a standalone one-node list. With
    /// `previous`, the node is inserted immediately after it: the new
    /// node's links are `previous` and `previous`'s old successor, and both
    /// neighbors are re-pointed at the new node before the call returns —
    /// no partially-linked state is ever observable.
    #[verifier::rlimit(50)]
    pub fn insert(&mut self, previous: Option<LinkedListSlotMapHandle<T>>, value: T) -> (r:
        LinkedListSlotMapHandle<T>)
        requires
            old(self).inv(),
            old(self).can_insert(),
            match previous {
                Some(p) => old(self).node_valid(p),
                None => true,
            },
        ensures
            final(self).inv(),
            final(self).node_valid(r),
            final(self).value_at(r.spec_inner()) == value,
            !old(self).inner_valid(r.spec_inner()),
            r.spec_inner() == SlotMapHandle::<Node<T>>::handle_for(
                old(self).arena().next_handle_index(),
                old(self).arena().next_handle_generation(),
            ),
            r.spec_inner().idx() == old(self).arena().next_handle_index(),
            r.spec_inner().gen() == old(self).arena().next_handle_generation(),
            final(self).arena()@.len() == old(self).arena()@.len() + 1,
            old(self).arena().free_slots().len() > 0 ==> final(self).arena().free_slots() == old(self).arena().free_slots().drop_last(),
            old(self).arena().free_slots().len() == 0 ==> final(self).arena().free_slots() == old(self).arena().free_slots(),
            forall|i: int|
                #![trigger final(self).arena().slot_gen(i)]
                0 <= i < old(self).arena().num_slots() && i != r.spec_inner().idx() ==> final(self).arena().slot_gen(i) == old(self).arena().slot_gen(i),
            match previous {
                None => final(self).prev_of(r.spec_inner()).is_none() && final(self).next_of(
                    r.spec_inner(),
                ).is_none(),
                Some(p) => {
                    &&& final(self).prev_of(r.spec_inner()) == Some(p.spec_inner())
                    &&& final(self).next_of(r.spec_inner()) == old(self).next_of(p.spec_inner())
                    &&& final(self).node_valid(p)
                    &&& final(self).next_of(p.spec_inner()) == Some(r.spec_inner())
                    &&& final(self).prev_of(p.spec_inner()) == old(self).prev_of(p.spec_inner())
                    &&& final(self).value_at(p.spec_inner()) == old(self).value_at(p.spec_inner())
                    &&& match old(self).next_of(p.spec_inner()) {
                        Some(nx) => {
                            &&& final(self).inner_valid(nx)
                            &&& final(self).prev_of(nx) == Some(r.spec_inner())
                            &&& final(self).next_of(nx) == old(self).next_of(nx)
                            &&& final(self).value_at(nx) == old(self).value_at(nx)
                        },
                        None => true,
                    }
                },
            },
            forall|h2: SlotMapHandle<Node<T>>|
                old(self).inner_valid(h2) ==> #[trigger] final(self).inner_valid(h2) && final(self).value_at(h2) == old(self).value_at(h2),
            forall|h2: SlotMapHandle<Node<T>>|
                #![trigger final(self).node_of(h2)]
                old(self).inner_valid(h2) && (match previous {
                    Some(p) => h2.idx() != p.spec_inner().idx() && (match old(self).next_of(
                        p.spec_inner(),
                    ) {
                        Some(nx) => h2.idx() != nx.idx(),
                        None => true,
                    }),
                    None => true,
                }) ==> final(self).node_of(h2) == old(self).node_of(h2),
            forall|h2: SlotMapHandle<Node<T>>|
                #[trigger] final(self).inner_valid(h2) ==> old(self).inner_valid(h2) || h2
                    == r.spec_inner(),
    {
        let ghost s0 = *self;
        let next_opt: Option<SlotMapHandle<Node<T>>> = match previous {
            Some(p) => {
                match self.slot_map.get(p.inner_handle()) {
                    Some(node) => node.next,
                    None => unreached(),
                }
            },
            None => None,
        };
        let previous_inner: Option<SlotMapHandle<Node<T>>> = match previous {
            Some(p) => Some(p.inner_handle()),
            None => None,
        };
        let new_handle = self.slot_map.push(
            Node { value, next: next_opt, previous: previous_inner },
        );
        let ghost s1 = self.slot_map;
        if let Some(p) = previous {
            match self.slot_map.get_mut(p.inner_handle()) {
                Some(node) => {
                    node.next = Some(new_handle);
                },
                None => {
                    unreached::<()>();
                },
            }
        }
        let ghost s2 = self.slot_map;
        proof {
            if let Some(nx) = next_opt {
                let p = previous.unwrap();
                let pi = p.spec_inner().idx() as int;
                assert(s0.slot_links_ok(pi));
                SlotMapHandle::lemma_handle_parts(p.spec_inner());
                assert(p.spec_inner() == s0.handle_of_slot(pi));
                assert(s0.inner_valid(nx));
                assert(s2.handle_valid(nx));
            }
        }
        if let Some(nx) = next_opt {
            match self.slot_map.get_mut(nx) {
                Some(node) => {
                    node.previous = Some(new_handle);
                },
                None => {
                    unreached::<()>();
                },
            }
        }
        proof {
            let ni = new_handle.idx() as int;
            let t: nat = match next_opt {
                Some(nx) => s0.rank@[nx.idx() as int],
                None => s0.rank_limit@,
            };
            self.rank@ = Map::new(
                |i: int| true,
                |i: int|
                    if i == ni {
                        t
                    } else if s0.rank@[i] >= t {
                        (s0.rank@[i] + 1) as nat
                    } else {
                        s0.rank@[i]
                    },
            );
            self.rank_limit@ = s0.rank_limit@ + 1;
            let cur = *self;
            let s3 = self.slot_map;
            let a0 = s0.slot_map;

            // previously valid handles survive all three steps with their
            // values intact, and nothing else is valid except the new node
            assert forall|h2: SlotMapHandle<Node<T>>| a0.handle_valid(h2) implies #[trigger] s3
                .handle_valid(h2) && s3.value_of(h2).val() == a0.value_of(h2).val() by {
                assert(s1.handle_valid(h2));
                assert(s2.handle_valid(h2));
                if let Some(p) = previous {
                    if h2.idx() == p.spec_inner().idx() {
                        assert(h2 == p.spec_inner()) by {
                            SlotMapHandle::lemma_handle_parts(h2);
                            SlotMapHandle::lemma_handle_parts(p.spec_inner());
                        }
                    }
                }
                if let Some(nx) = next_opt {
                    if h2.idx() == nx.idx() {
                        assert(h2 == nx) by {
                            SlotMapHandle::lemma_handle_parts(h2);
                            SlotMapHandle::lemma_handle_parts(nx);
                        }
                    }
                }
            }
            assert forall|h2: SlotMapHandle<Node<T>>|
                a0.handle_valid(h2) && (match previous {
                    Some(p) => h2.idx() != p.spec_inner().idx() && (match s0.next_of(
                        p.spec_inner(),
                    ) {
                        Some(nx) => h2.idx() != nx.idx(),
                        None => true,
                    }),
                    None => true,
                }) implies #[trigger] s3.value_of(h2) == a0.value_of(h2) by {
                assert(s1.handle_valid(h2));
                assert(s2.handle_valid(h2));
                assert(s1.value_of(h2) == a0.value_of(h2));
            }
            assert forall|h2: SlotMapHandle<Node<T>>| #[trigger] s3.handle_valid(h2) implies a0
                .handle_valid(h2) || h2 == new_handle by {
                assert(s1.handle_valid(h2));
            }

            // the invariant of the patched structure
            assert(cur.arena() == s3);
            assert forall|i: int|
                0 <= i < s3.num_slots() && s3.live(i) implies #[trigger] cur.rank_of(i)
                    < cur.rank_limit() by {
                let h2 = SlotMapHandle::<Node<T>>::handle_for(i as usize, s3.slot_gen(i));
                assert(s3.handle_valid(h2));
                if h2 == new_handle {
                } else {
                    assert(a0.handle_valid(h2));
                    assert(s0.rank_of(i) < s0.rank_limit());
                }
            }
            assert forall|i: int|
                0 <= i < s3.num_slots() && s3.live(i) implies #[trigger] cur.slot_links_ok(i) by {
                let h2 = cur.handle_of_slot(i);
                assert(s3.handle_valid(h2));
                if h2 == new_handle {
                    match previous {
                        None => {
                            assert(cur.next_of(h2).is_none());
                            assert(cur.prev_of(h2).is_none());
                        },
                        Some(p) => {
                            let pi = p.spec_inner().idx() as int;
                            assert(a0.handle_valid(p.spec_inner()));
                            assert(s0.slot_links_ok(pi));
                            assert(p.spec_inner() == s0.handle_of_slot(pi)) by {
                                SlotMapHandle::lemma_handle_parts(p.spec_inner());
                            }
                            assert(cur.next_of(p.spec_inner()) == Some(new_handle));
                            assert(cur.rank_of(pi) < cur.rank_of(ni)) by {
                                match next_opt {
                                    Some(nx) => {
                                        assert(s0.rank_of(pi) < s0.rank_of(nx.idx() as int));
                                    },
                                    None => {
                                        assert(s0.rank_of(pi) < s0.rank_limit());
                                    },
                                }
                            }
                            match next_opt {
                                Some(nx) => {
                                    assert(cur.prev_of(nx) == Some(new_handle));
                                    assert(s0.rank_of(nx.idx() as int) == t);
                                    assert(cur.rank_of(nx.idx() as int) == t + 1);
                                },
                                None => {},
                            }
                        },
                    }
                } else {
                    assert(a0.handle_valid(h2));
                    assert(h2 == s0.handle_of_slot(i)) by {
                        SlotMapHandle::lemma_handle_parts(h2);
                    }
                    assert(s0.slot_links_ok(i));
                    let pi_opt: Option<int> = match previous {
                        Some(p) => Some(p.spec_inner().idx() as int),
                        None => None,
                    };
                    if pi_opt == Some(i) {
                        // the spliced-after node: next is now the new node
                        let p = previous.unwrap();
                        assert(cur.next_of(h2) == Some(new_handle));
                        assert(cur.rank_of(ni) > cur.rank_of(i));
                        assert(cur.prev_of(new_handle) == Some(p.spec_inner()));
                        assert(p.spec_inner() == h2) by {
                            SlotMapHandle::lemma_handle_parts(p.spec_inner());
                        }
                        match s0.prev_of(h2) {
                            Some(q) => {
                                let qi = q.idx() as int;
                                assert(a0.handle_valid(q));
                                assert(s0.slot_links_ok(qi));
                                assert(q == s0.handle_of_slot(qi)) by {
                                    SlotMapHandle::lemma_handle_parts(q);
                                }
                                assert(qi != i);
                                assert(qi != ni);
                                match next_opt {
                                    Some(nx) => {
                                        assert(s0.rank_of(qi) < s0.rank_of(i));
                                        assert(s0.rank_of(i) < s0.rank_of(nx.idx() as int));
                                        assert(qi != nx.idx() as int);
                                    },
                                    None => {},
                                }
                                assert(s3.value_of(q) == a0.value_of(q));
                                assert(cur.next_of(q) == Some(h2));
                                assert(cur.prev_of(h2) == Some(q));
                                assert(cur.rank_of(qi) < cur.rank_of(i));
                            },
                            None => {
                                assert(cur.prev_of(h2) == s0.prev_of(h2));
                            },
                        }
                    } else {
                        let xi_opt: Option<int> = match next_opt {
                            Some(nx) => Some(nx.idx() as int),
                            None => None,
                        };
                        if xi_opt == Some(i) {
                            // the old successor: previous is now the new node
                            let nx = next_opt.unwrap();
                            let p = previous.unwrap();
                            assert(nx == h2) by {
                                SlotMapHandle::lemma_handle_parts(nx);
                            }
                            assert(cur.prev_of(h2) == Some(new_handle));
                            assert(cur.next_of(new_handle) == Some(nx));
                            assert(cur.rank_of(ni) == t);
                            assert(cur.rank_of(i) == t + 1);
                            match s0.next_of(h2) {
                                Some(m) => {
                                    let mi = m.idx() as int;
                                    assert(a0.handle_valid(m));
                                    assert(s0.slot_links_ok(mi));
                                    assert(m == s0.handle_of_slot(mi)) by {
                                        SlotMapHandle::lemma_handle_parts(m);
                                    }
                                    assert(s0.rank_of(mi) > s0.rank_of(i));
                                    assert(mi != i);
                                    assert(mi != ni);
                                    assert(mi != p.spec_inner().idx() as int) by {
                                        assert(s0.slot_links_ok(p.spec_inner().idx() as int));
                                        assert(s0.rank_of(p.spec_inner().idx() as int) < s0
                                            .rank_of(i));
                                    }
                                    assert(s3.value_of(m) == a0.value_of(m));
                                    assert(cur.prev_of(m) == Some(h2));
                                    assert(cur.rank_of(mi) > cur.rank_of(i));
                                },
                                None => {
                                    assert(cur.next_of(h2) == s0.next_of(h2));
                                },
                            }
                        } else {
                            // a node away from the splice point: untouched
                            assert(s3.value_of(h2) == a0.value_of(h2));
                            match s0.next_of(h2) {
                                Some(n) => {
                                    let nni = n.idx() as int;
                                    assert(a0.handle_valid(n));
                                    assert(s0.slot_links_ok(nni));
                                    assert(n == s0.handle_of_slot(nni)) by {
                                        SlotMapHandle::lemma_handle_parts(n);
                                    }
                                    assert(nni != ni);
                                    if pi_opt == Some(nni) {
                                        // n is the spliced-after node; only its
                                        // next changed, its previous still
                                        // returns here
                                        assert(s0.prev_of(n) == Some(h2));
                                        assert(cur.prev_of(n) == Some(h2));
                                    } else {
                                        if xi_opt == Some(nni) {
                                            // impossible: only the spliced-after
                                            // node linked forward to the old
                                            // successor
                                            let p = previous.unwrap();
                                            let pp = p.spec_inner();
                                            assert(s0.slot_links_ok(pp.idx() as int));
                                            assert(pp == s0.handle_of_slot(pp.idx() as int)) by {
                                                SlotMapHandle::lemma_handle_parts(pp);
                                            }
                                            assert(s0.prev_of(n) == Some(pp));
                                            assert(s0.prev_of(n) == Some(h2));
                                            assert(pp.idx() as int == i);
                                            assert(false);
                                        } else {
                                            assert(s3.value_of(n) == a0.value_of(n));
                                        }
                                    }
                                    assert(cur.rank_of(nni) > cur.rank_of(i));
                                },
                                None => {},
                            }
                            match s0.prev_of(h2) {
                                Some(q) => {
                                    let qi = q.idx() as int;
                                    assert(a0.handle_valid(q));
                                    assert(s0.slot_links_ok(qi));
                                    assert(q == s0.handle_of_slot(qi)) by {
                                        SlotMapHandle::lemma_handle_parts(q);
                                    }
                                    assert(qi != ni);
                                    if pi_opt == Some(qi) {
                                        // impossible: the spliced-after node
                                        // linked forward to the old successor,
                                        // not here
                                        assert(s0.next_of(q) == Some(h2));
                                        match next_opt {
                                            Some(nx) => {
                                                assert(nx.idx() as int == i);
                                                assert(false);
                                            },
                                            None => {
                                                assert(false);
                                            },
                                        }
                                    } else {
                                        if xi_opt == Some(qi) {
                                            // only its previous changed; its
                                            // next still returns here
                                            assert(s0.next_of(q) == Some(h2));
                                            assert(cur.next_of(q) == Some(h2));
                                        } else {
                                            assert(s3.value_of(q) == a0.value_of(q));
                                        }
                                    }
                                    assert(cur.rank_of(qi) < cur.rank_of(i));
                                },
                                None => {},
                            }
                        }
                    }
                }
            }
        }
        LinkedListSlotMapHandle(new_handle)
    }

    /// Removes the node, splicing the gap: its neighbors are linked to each
    /// other, the node's slot is vacated in the arena, and the removed value
    /// is returned together with the former neighbors' handles so traversal
    /// can continue without re-deriving position.
    #[verifier::rlimit(50)]
    pub fn remove(&mut self, node: LinkedListSlotMapHandle<T>) -> (r: (
        T,
        Option<LinkedListSlotMapHandle<T>>,
        Option<LinkedListSlotMapHandle<T>>,
    ))
        requires
            old(self).inv(),
            old(self).node_valid(node),
            node.spec_inner().gen() < usize::MAX,
        ensures
            final(self).inv(),
            r.0 == old(self).value_at(node.spec_inner()),
            match (r.1, old(self).prev_of(node.spec_inner())) {
                (None, None) => true,
                (Some(rh), Some(p)) => rh.spec_inner() == p,
                _ => false,
            },
            match (r.2, old(self).next_of(node.spec_inner())) {
                (None, None) => true,
                (Some(rh), Some(n)) => rh.spec_inner() == n,
                _ => false,
            },
            !final(self).inner_valid(node.spec_inner()),
            final(self).arena()@.len() + 1 == old(self).arena()@.len(),
            final(self).arena().free_slots() == old(self).arena().free_slots().push(
                node.spec_inner().idx(),
            ),
            final(self).arena().slot_gen(node.spec_inner().idx() as int) == node.spec_inner().gen()
                + 1,
            forall|i: int|
                #![trigger final(self).arena().slot_gen(i)]
                0 <= i < old(self).arena().num_slots() && i != node.spec_inner().idx() ==> final(self).arena().slot_gen(i) == old(self).arena().slot_gen(i),
            match old(self).prev_of(node.spec_inner()) {
                Some(p) => {
                    &&& final(self).inner_valid(p)
                    &&& final(self).next_of(p) == old(self).next_of(node.spec_inner())
                    &&& final(self).prev_of(p) == old(self).prev_of(p)
                    &&& final(self).value_at(p) == old(self).value_at(p)
                },
                None => true,
            },
            match old(self).next_of(node.spec_inner()) {
                Some(n) => {
                    &&& final(self).inner_valid(n)
                    &&& final(self).prev_of(n) == old(self).prev_of(node.spec_inner())
                    &&& final(self).next_of(n) == old(self).next_of(n)
                    &&& final(self).value_at(n) == old(self).value_at(n)
                },
                None => true,
            },
            forall|h2: SlotMapHandle<Node<T>>|
                old(self).inner_valid(h2) && h2.idx() != node.spec_inner().idx()
                    ==> #[trigger] final(self).inner_valid(h2) && final(self).value_at(h2) == old(self).value_at(h2),
            forall|h2: SlotMapHandle<Node<T>>|
                #![trigger final(self).node_of(h2)]
                old(self).inner_valid(h2) && h2.idx() != node.spec_inner().idx() && (match old(self).prev_of(node.spec_inner()) {
                    Some(p) => h2.idx() != p.idx(),
                    None => true,
                }) && (match old(self).next_of(node.spec_inner()) {
                    Some(n) => h2.idx() != n.idx(),
                    None => true,
                }) ==> final(self).node_of(h2) == old(self).node_of(h2),
            forall|h2: SlotMapHandle<Node<T>>|
                #[trigger] final(self).inner_valid(h2) ==> old(self).inner_valid(h2) && h2.idx()
                    != node.spec_inner().idx(),
    {
        let ghost s0 = *self;
        let inner = node.inner_handle();
        let ghost di = inner.idx() as int;
        let removed = match self.slot_map.remove(inner) {
            Some(n) => n,
            None => unreached(),
        };
        let ghost s1 = self.slot_map;
        proof {
            assert(s0.slot_links_ok(di));
            SlotMapHandle::lemma_handle_parts(inner);
            assert(inner == s0.handle_of_slot(di));
            if let Some(p) = removed.previous {
                assert(s0.inner_valid(p));
                assert(s0.rank_of(p.idx() as int) < s0.rank_of(di));
                assert(s1.handle_valid(p));
            }
            if let Some(n) = removed.next {
                assert(s0.inner_valid(n));
                assert(s0.rank_of(n.idx() as int) > s0.rank_of(di));
                assert(s1.handle_valid(n));
            }
        }
        if let Some(p) = removed.previous {
            match self.slot_map.get_mut(p) {
                Some(previous_node) => {
                    previous_node.next = removed.next;
                },
                None => {
                    unreached::<()>();
                },
            }
        }
        let ghost s2 = self.slot_map;
        if let Some(n) = removed.next {
            match self.slot_map.get_mut(n) {
                Some(next_node) => {
                    next_node.previous = removed.previous;
                },
                None => {
                    unreached::<()>();
                },
            }
        }
        proof {
            let cur = *self;
            let s3 = self.slot_map;
            let a0 = s0.slot_map;
            assert(cur.arena() == s3);
            assert forall|h2: SlotMapHandle<Node<T>>|
                a0.handle_valid(h2) && h2.idx() != inner.idx() implies #[trigger] s3.handle_valid(
                h2,
            ) && s3.value_of(h2).val() == a0.value_of(h2).val() by {
                assert(s1.handle_valid(h2));
                assert(s2.handle_valid(h2));
                if let Some(p) = removed.previous {
                    if h2.idx() == p.idx() {
                        assert(h2 == p) by {
                            SlotMapHandle::lemma_handle_parts(h2);
                            SlotMapHandle::lemma_handle_parts(p);
                        }
                    }
                }
                if let Some(n) = removed.next {
                    if h2.idx() == n.idx() {
                        assert(h2 == n) by {
                            SlotMapHandle::lemma_handle_parts(h2);
                            SlotMapHandle::lemma_handle_parts(n);
                        }
                    }
                }
            }
            assert forall|h2: SlotMapHandle<Node<T>>|
                a0.handle_valid(h2) && h2.idx() != inner.idx() && (match removed.previous {
                    Some(p) => h2.idx() != p.idx(),
                    None => true,
                }) && (match removed.next {
                    Some(n) => h2.idx() != n.idx(),
                    None => true,
                }) implies #[trigger] s3.value_of(h2) == a0.value_of(h2) by {
                assert(s1.handle_valid(h2));
                assert(s2.handle_valid(h2));
                assert(s1.value_of(h2) == a0.value_of(h2));
            }
            assert forall|h2: SlotMapHandle<Node<T>>| #[trigger] s3.handle_valid(h2) implies a0
                .handle_valid(h2) && h2.idx() != inner.idx() by {
                assert(s1.handle_valid(h2));
            }
            assert forall|i: int|
                0 <= i < s3.num_slots() && s3.live(i) implies #[trigger] cur.rank_of(i)
                    < cur.rank_limit() by {
                let h2 = SlotMapHandle::<Node<T>>::handle_for(i as usize, s3.slot_gen(i));
                assert(s3.handle_valid(h2));
                assert(a0.handle_valid(h2));
                assert(s0.rank_of(i) < s0.rank_limit());
            }
            assert forall|i: int|
                0 <= i < s3.num_slots() && s3.live(i) implies #[trigger] cur.slot_links_ok(i) by {
                let h2 = cur.handle_of_slot(i);
                assert(s3.handle_valid(h2));
                assert(a0.handle_valid(h2));
                assert(i != di);
                assert(h2 == s0.handle_of_slot(i)) by {
                    SlotMapHandle::lemma_handle_parts(h2);
                }
                assert(s0.slot_links_ok(i));
                let pi_opt: Option<int> = match removed.previous {
                    Some(p) => Some(p.idx() as int),
                    None => None,
                };
                let xi_opt: Option<int> = match removed.next {
                    Some(n) => Some(n.idx() as int),
                    None => None,
                };
                if pi_opt == Some(i) {
                    // the predecessor: its next now skips the removed node
                    let p = removed.previous.unwrap();
                    assert(p == h2) by {
                        SlotMapHandle::lemma_handle_parts(p);
                    }
                    match removed.next {
                        Some(n) => {
                            let xi = n.idx() as int;
                            assert(s0.slot_links_ok(xi));
                            assert(n == s0.handle_of_slot(xi)) by {
                                SlotMapHandle::lemma_handle_parts(n);
                            }
                            assert(cur.next_of(h2) == Some(n));
                            assert(cur.prev_of(n) == Some(p));
                            assert(cur.rank_of(xi) > cur.rank_of(i));
                        },
                        None => {
                            assert(cur.next_of(h2).is_none());
                        },
                    }
                    match s0.prev_of(h2) {
                        Some(q) => {
                            let qi = q.idx() as int;
                            assert(s0.slot_links_ok(qi));
                            assert(q == s0.handle_of_slot(qi)) by {
                                SlotMapHandle::lemma_handle_parts(q);
                            }
                            assert(qi != di);
                            assert(qi != i);
                            assert(xi_opt != Some(qi));
                            assert(s3.value_of(q) == a0.value_of(q));
                            assert(cur.next_of(q) == Some(h2));
                            assert(cur.rank_of(qi) < cur.rank_of(i));
                        },
                        None => {},
                    }
                } else if xi_opt == Some(i) {
                    // the successor: its previous now skips the removed node
                    let n = removed.next.unwrap();
                    assert(n == h2) by {
                        SlotMapHandle::lemma_handle_parts(n);
                    }
                    match removed.previous {
                        Some(p) => {
                            let pi = p.idx() as int;
                            assert(s0.slot_links_ok(pi));
                            assert(p == s0.handle_of_slot(pi)) by {
                                SlotMapHandle::lemma_handle_parts(p);
                            }
                            assert(cur.prev_of(h2) == Some(p));
                            assert(cur.next_of(p) == Some(n));
                            assert(cur.rank_of(pi) < cur.rank_of(i));
                        },
                        None => {
                            assert(cur.prev_of(h2).is_none());
                        },
                    }
                    match s0.next_of(h2) {
                        Some(m) => {
                            let mi = m.idx() as int;
                            assert(s0.slot_links_ok(mi));
                            assert(m == s0.handle_of_slot(mi)) by {
                                SlotMapHandle::lemma_handle_parts(m);
                            }
                            assert(mi != di);
                            assert(mi != i);
                            assert(pi_opt != Some(mi));
                            assert(s3.value_of(m) == a0.value_of(m));
                            assert(cur.prev_of(m) == Some(h2));
                            assert(cur.rank_of(mi) > cur.rank_of(i));
                        },
                        None => {},
                    }
                } else {
                    // a node away from the unlinked pair: untouched
                    assert(s3.value_of(h2) == a0.value_of(h2));
                    match s0.next_of(h2) {
                        Some(nn) => {
                            let nni = nn.idx() as int;
                            assert(s0.slot_links_ok(nni));
                            assert(nn == s0.handle_of_slot(nni)) by {
                                SlotMapHandle::lemma_handle_parts(nn);
                            }
                            assert(nni != di) by {
                                if nni == di {
                                    assert(s0.prev_of(nn) == Some(h2));
                                }
                            }
                            assert(nni != i);
                            if pi_opt == Some(nni) {
                                assert(s0.prev_of(nn) == Some(h2));
                                assert(cur.prev_of(nn) == Some(h2));
                            } else if xi_opt == Some(nni) {
                                assert(s0.prev_of(nn) == Some(h2));
                                assert(s0.prev_of(nn) == Some(s0.handle_of_slot(di)));
                                assert(false);
                            } else {
                                assert(s3.value_of(nn) == a0.value_of(nn));
                            }
                            assert(cur.rank_of(nni) > cur.rank_of(i));
                        },
                        None => {},
                    }
                    match s0.prev_of(h2) {
                        Some(q) => {
                            let qi = q.idx() as int;
                            assert(s0.slot_links_ok(qi));
                            assert(q == s0.handle_of_slot(qi)) by {
                                SlotMapHandle::lemma_handle_parts(q);
                            }
                            assert(qi != di) by {
                                if qi == di {
                                    assert(s0.next_of(q) == Some(h2));
                                }
                            }
                            assert(qi != i);
                            if xi_opt == Some(qi) {
                                assert(s0.next_of(q) == Some(h2));
                                assert(cur.next_of(q) == Some(h2));
                            } else if pi_opt == Some(qi) {
                                assert(s0.next_of(q) == Some(h2));
                                assert(s0.next_of(q) == Some(s0.handle_of_slot(di)));
                                assert(false);
                            } else {
                                assert(s3.value_of(q) == a0.value_of(q));
                            }
                            assert(cur.rank_of(qi) < cur.rank_of(i));
                        },
                        None => {},
                    }
                }
            }
        }
        (
            removed.value,
            match removed.previous {
                Some(p) => Some(LinkedListSlotMapHandle(p)),
                None => None,
            },
            match removed.next {
                Some(n) => Some(LinkedListSlotMapHandle(n)),
                None => None,
            },
        )
    }

    /// The handles of the chain from `h` to the tail of its list, following
    /// `next` links: `h` first.
    pub open spec fn forward_handles(&self, h: SlotMapHandle<Node<T>>) -> Seq<
        SlotMapHandle<Node<T>>,
    >
        decreases self.rank_limit() - self.rank_of(h.idx() as int),
        when self.inv() && self.inner_valid(h)
        via Self::forward_handles_decreases
    {
        match self.next_of(h) {
            None => seq![h],
            Some(n) => seq![h] + self.forward_handles(n),
        }
    }

    #[via_fn]
    proof fn forward_handles_decreases(&self, h: SlotMapHandle<Node<T>>) {
        assert(self.arena().handle_valid(h));
        assert(self.slot_links_ok(h.idx() as int));
        assert(h == self.handle_of_slot(h.idx() as int)) by {
            SlotMapHandle::lemma_handle_parts(h);
        }
    }

    /// The handles of the chain from `h` to the head of its list, following
    /// `previous` links: `h` first.
    pub open spec fn backward_handles(&self, h: SlotMapHandle<Node<T>>) -> Seq<
        SlotMapHandle<Node<T>>,
    >
        decreases self.rank_of(h.idx() as int),
        when self.inv() && self.inner_valid(h)
        via Self::backward_handles_decreases
    {
        match self.prev_of(h) {
            None => seq![h],
            Some(p) => seq![h] + self.backward_handles(p),
        }
    }

    #[via_fn]
    proof fn backward_handles_decreases(&self, h: SlotMapHandle<Node<T>>) {
        assert(self.arena().handle_valid(h));
        assert(self.slot_links_ok(h.idx() as int));
        assert(h == self.handle_of_slot(h.idx() as int)) by {
            SlotMapHandle::lemma_handle_parts(h);
        }
    }

    /// The values of the chain from `h` towards the tail, in visit order.
    pub open spec fn forward_values(&self, h: SlotMapHandle<Node<T>>) -> Seq<T> {
        self.forward_handles(h).map_values(|x: SlotMapHandle<Node<T>>| self.value_at(x))
    }

    /// The values of the chain from `h` towards the head, in visit order.
    pub open spec fn backward_values(&self, h: SlotMapHandle<Node<T>>) -> Seq<T> {
        self.backward_handles(h).map_values(|x: SlotMapHandle<Node<T>>| self.value_at(x))
    }

    /// The structure of a backward chain: it starts at `h`, follows
    /// `previous` links through valid nodes whose ranks strictly decrease
    /// (so no slot repeats), ends at a node with no predecessor, and each
    /// step is mirrored by the neighbor's `next` link.
    pub proof fn lemma_backward_chain(&self, h: SlotMapHandle<Node<T>>)
        requires
            self.inv(),
            self.inner_valid(h),
        ensures
            ({
                let chain = self.backward_handles(h);
                &&& chain.len() >= 1
                &&& chain[0] == h
                &&& forall|k: int| 0 <= k < chain.len() ==> self.inner_valid(#[trigger] chain[k])
                &&& forall|k: int|
                    0 <= k < chain.len() - 1 ==> self.prev_of(#[trigger] chain[k]) == Some(
                        chain[k + 1],
                    )
                &&& self.prev_of(chain[chain.len() - 1]).is_none()
                &&& forall|k: int|
                    1 <= k < chain.len() ==> self.next_of(#[trigger] chain[k]) == Some(
                        chain[k - 1],
                    )
                &&& forall|j: int, k: int|
                    0 <= j < k < chain.len() ==> self.rank_of(
                        (#[trigger] chain[k]).idx() as int,
                    ) < self.rank_of((#[trigger] chain[j]).idx() as int)
                &&& forall|j: int, k: int|
                    0 <= j < k < chain.len() ==> (#[trigger] chain[j]).idx() != (
                    #[trigger] chain[k]).idx()
            }),
        decreases self.rank_of(h.idx() as int),
    {
        assert(self.slot_links_ok(h.idx() as int));
        assert(h == self.handle_of_slot(h.idx() as int)) by {
            SlotMapHandle::lemma_handle_parts(h);
        }
        let chain = self.backward_handles(h);
        match self.prev_of(h) {
            None => {},
            Some(p) => {
                self.lemma_backward_chain(p);
                let rest = self.backward_handles(p);
                assert(chain == seq![h] + rest);
                assert(chain[0] == h);
                assert forall|k: int| 0 <= k < chain.len() - 1 implies self.prev_of(
                    #[trigger] chain[k],
                ) == Some(chain[k + 1]) by {
                    if k > 0 {
                        assert(chain[k] == rest[k - 1]);
                        assert(chain[k + 1] == rest[k]);
                    }
                }
                assert forall|k: int| 1 <= k < chain.len() implies self.next_of(
                    #[trigger] chain[k],
                ) == Some(chain[k - 1]) by {
                    if k > 1 {
                        assert(chain[k] == rest[k - 1]);
                        assert(chain[k - 1] == rest[k - 2]);
                    } else {
                        assert(chain[1] == rest[0]);
                        assert(rest[0] == p);
                        assert(self.next_of(p) == Some(h));
                    }
                }
                assert forall|j: int, k: int| 0 <= j < k < chain.len() implies self.rank_of(
                    (#[trigger] chain[k]).idx() as int,
                ) < self.rank_of((#[trigger] chain[j]).idx() as int) by {
                    if j > 0 {
                        assert(chain[j] == rest[j - 1]);
                        assert(chain[k] == rest[k - 1]);
                    } else {
                        assert(chain[k] == rest[k - 1]);
                        if k > 1 {
                            assert(self.rank_of(rest[k - 1].idx() as int) < self.rank_of(
                                rest[0].idx() as int,
                            ));
                        }
                        assert(self.rank_of(p.idx() as int) < self.rank_of(h.idx() as int));
                    }
                }
            },
        }
    }

    /// A change that touches no node's links — and neither the set of live
    /// nodes, their generations, nor the ghost ranks — preserves the list
    /// invariant.
    proof fn lemma_link_preserving_change_keeps_inv(prev: Self, cur: Self)
        requires
            prev.arena().inv(),
            cur.arena().inv(),
            cur.rank@ == prev.rank@,
            cur.rank_limit@ == prev.rank_limit@,
            cur.arena().num_slots() == prev.arena().num_slots(),
            forall|h2: SlotMapHandle<Node<T>>|
                #[trigger] cur.inner_valid(h2) == prev.inner_valid(h2),
            forall|i: int|
                #![trigger cur.arena().slot_gen(i)]
                0 <= i < prev.arena().num_slots() ==> cur.arena().slot_gen(i)
                    == prev.arena().slot_gen(i),
            forall|h2: SlotMapHandle<Node<T>>|
                #![trigger cur.node_of(h2)]
                prev.inner_valid(h2) ==> cur.node_of(h2).next_link() == prev.node_of(
                    h2,
                ).next_link() && cur.node_of(h2).prev_link() == prev.node_of(h2).prev_link(),
        ensures
            prev.inv() ==> cur.inv(),
    {
        if prev.inv() {
            assert forall|i: int|
                0 <= i < cur.arena().num_slots() && cur.arena().live(i) implies #[trigger] cur
                .slot_links_ok(i) by {
                let h2 = cur.handle_of_slot(i);
                assert(cur.arena().handle_valid(h2));
                assert(cur.inner_valid(h2));
                assert(prev.inner_valid(h2));
                assert(prev.slot_links_ok(i));
                assert(h2 == prev.handle_of_slot(i)) by {
                    SlotMapHandle::lemma_handle_parts(h2);
                }
                assert(cur.node_of(h2).next_link() == prev.node_of(h2).next_link());
                assert(cur.node_of(h2).prev_link() == prev.node_of(h2).prev_link());
                match prev.next_of(h2) {
                    Some(n) => {
                        assert(cur.node_of(n).prev_link() == prev.node_of(n).prev_link());
                    },
                    None => {},
                }
                match prev.prev_of(h2) {
                    Some(p) => {
                        assert(cur.node_of(p).next_link() == prev.node_of(p).next_link());
                    },
                    None => {},
                }
            }
            assert forall|i: int|
                0 <= i < cur.arena().num_slots() && cur.arena().live(i) implies #[trigger] cur
                .rank_of(i) < cur.rank_limit() by {
                let h2 = cur.handle_of_slot(i);
                assert(cur.arena().handle_valid(h2));
                assert(cur.inner_valid(h2));
                assert(prev.inner_valid(h2));
                assert(prev.rank_of(i) < prev.rank_limit());
            }
        }
    }

    /// Mutable lookup of a node's value: present exactly when the handle is
    /// valid. Only the value behind the returned reference changes: every
    /// node keeps its place and its links, so the list invariant survives
    /// any mutation through the reference.
    pub fn get_mut(&mut self, handle: LinkedListSlotMapHandle<T>) -> (r: Option<&mut T>)
        requires
            old(self).arena().inv(),
        ensures
            old(self).node_valid(handle) ==> r.is_some() && *r.unwrap() == old(self).value_at(
                handle.spec_inner(),
            ) && final(self).value_at(handle.spec_inner()) == *final(r.unwrap()),
            !old(self).node_valid(handle) ==> r.is_none() && *final(self) == *old(self),
            final(self).arena().inv(),
            final(self).arena()@.len() == old(self).arena()@.len(),
            forall|h2: SlotMapHandle<Node<T>>|
                #[trigger] final(self).inner_valid(h2) == old(self).inner_valid(h2),
            forall|h2: SlotMapHandle<Node<T>>|
                #![trigger final(self).next_of(h2)]
                #![trigger final(self).prev_of(h2)]
                old(self).inner_valid(h2) ==> final(self).next_of(h2) == old(self).next_of(h2)
                    && final(self).prev_of(h2) == old(self).prev_of(h2),
            forall|h2: SlotMapHandle<Node<T>>|
                old(self).inner_valid(h2) && h2.idx() != handle.spec_inner().idx()
                    ==> #[trigger] final(self).value_at(h2) == old(self).value_at(h2),
            old(self).inv() ==> final(self).inv(),
    {
        let ghost s0 = *self;
        match self.slot_map.get_mut(handle.inner_handle()) {
            Some(node) => {
                let r = node_value_mut(node);
                proof {
                    let cur = *after_borrow(self);
                    assert(s0.node_valid(handle));
                    assert(cur.node_of(handle.spec_inner()).val() == *final(r));
                    assert forall|h2: SlotMapHandle<Node<T>>|
                        s0.inner_valid(h2) && h2.idx() != handle.spec_inner().idx() implies {
                        &&& (#[trigger] (*after_borrow(self)).value_at(h2)) == s0.value_at(h2)
                        &&& (*after_borrow(self)).node_of(h2) == s0.node_of(h2)
                    } by {
                        s0.slot_map.lemma_live_positions_distinct(
                            h2.idx() as int,
                            handle.spec_inner().idx() as int,
                        );
                    }
                    assert forall|h2: SlotMapHandle<Node<T>>| s0.inner_valid(h2) implies {
                        &&& (#[trigger] (*after_borrow(self)).node_of(h2)).next_link() == s0
                            .node_of(h2).next_link()
                        &&& (*after_borrow(self)).node_of(h2).prev_link() == s0.node_of(
                            h2,
                        ).prev_link()
                    } by {
                        if h2.idx() != handle.spec_inner().idx() {
                            s0.slot_map.lemma_live_positions_distinct(
                                h2.idx() as int,
                                handle.spec_inner().idx() as int,
                            );
                        }
                    }
                    Self::lemma_link_preserving_change_keeps_inv(s0, *after_borrow(self));
                }
                Some(r)
            },
            None => None,
        }
    }

    /// A forward iterator over the list containing `start_node`, beginning
    /// there and following `next` links.
    pub fn iter<'a>(&'a self, start_node: LinkedListSlotMapHandle<T>) -> (r:
        LinkedListSlotMapIterator<'a, T>)
        ensures
            r.list() == self,
            r.current() == Some(start_node.spec_inner()),
    {
        LinkedListSlotMapIterator {
            linked_list_slot_map: self,
            current_node: Some(start_node.inner_handle()),
        }
    }

    /// A backward iterator over the list containing `start_node`, beginning
    /// there and following `previous` links.
    pub fn reverse_iter<'a>(&'a self, start_node: LinkedListSlotMapHandle<T>) -> (r:
        RevLinkedListSlotMapIterator<'a, T>)
        ensures
            r.list() == self,
            r.current() == Some(start_node.spec_inner()),
    {
        RevLinkedListSlotMapIterator {
            linked_list_slot_map: self,
            current_node: Some(start_node.inner_handle()),
        }
    }

    /// Draining an entire list — every handle of the backward chain from a
    /// node with no successor — restores the invariant: each remaining
    /// node's neighbors lie outside the drained chain, so their links are
    /// untouched and still mutually consistent.
    #[verifier::rlimit(100)]
    proof fn lemma_drain_restores_inv(
        s0: Self,
        cur: Self,
        start: SlotMapHandle<Node<T>>,
        chain: Seq<SlotMapHandle<Node<T>>>,
    )
        requires
            s0.inv(),
            s0.inner_valid(start),
            s0.next_of(start).is_none(),
            chain == s0.backward_handles(start),
            cur.arena().inv(),
            cur.rank@ == s0.rank@,
            cur.rank_limit@ == s0.rank_limit@,
            cur.arena().num_slots() == s0.arena().num_slots(),
            forall|j: int| 0 <= j < chain.len() ==> !cur.inner_valid(#[trigger] chain[j]),
            forall|h2: SlotMapHandle<Node<T>>|
                #![trigger cur.inner_valid(h2)]
                #![trigger cur.node_of(h2)]
                s0.inner_valid(h2) && !chain_hits_slot(chain, chain.len() as int, h2.idx() as int)
                    ==> cur.inner_valid(h2) && cur.node_of(h2) == s0.node_of(h2),
            forall|h2: SlotMapHandle<Node<T>>|
                #[trigger] cur.inner_valid(h2) ==> s0.inner_valid(h2),
            forall|i: int|
                #![trigger cur.arena().slot_gen(i)]
                0 <= i < s0.arena().num_slots() && !chain_hits_slot(chain, chain.len() as int, i)
                    ==> cur.arena().slot_gen(i) == s0.arena().slot_gen(i),
        ensures
            cur.inv(),
    {
        s0.lemma_backward_chain(start);
        assert forall|i: int|
            #![trigger cur.slot_links_ok(i)]
            #![trigger cur.rank_of(i)]
            0 <= i < cur.arena().num_slots() && cur.arena().live(i) implies {
            &&& cur.slot_links_ok(i)
            &&& cur.rank_of(i) < cur.rank_limit()
        } by {
            let h2 = cur.handle_of_slot(i);
            assert(cur.arena().handle_valid(h2));
            assert(cur.inner_valid(h2));
            assert(s0.inner_valid(h2));
            assert(!chain_hits_slot(chain, chain.len() as int, h2.idx() as int)) by {
                if chain_hits_slot(chain, chain.len() as int, h2.idx() as int) {
                    let j = choose|j: int|
                        0 <= j < chain.len() && (#[trigger] chain[j]).idx() as int
                            == h2.idx() as int;
                    assert(!cur.inner_valid(chain[j]));
                    assert(chain[j] == h2) by {
                        SlotMapHandle::lemma_handle_parts(chain[j]);
                        SlotMapHandle::lemma_handle_parts(h2);
                    }
                }
            }
            assert(cur.node_of(h2) == s0.node_of(h2));
            assert(s0.rank_of(i) < s0.rank_limit());
            assert(h2 == s0.handle_of_slot(i)) by {
                SlotMapHandle::lemma_handle_parts(h2);
            }
            assert(s0.slot_links_ok(i));
            match s0.next_of(h2) {
                Some(n) => {
                    assert(!chain_hits_slot(chain, chain.len() as int, n.idx() as int)) by {
                        if chain_hits_slot(chain, chain.len() as int, n.idx() as int) {
                            let j = choose|j: int|
                                0 <= j < chain.len() && (#[trigger] chain[j]).idx() as int
                                    == n.idx() as int;
                            assert(chain[j] == n) by {
                                SlotMapHandle::lemma_handle_parts(chain[j]);
                                SlotMapHandle::lemma_handle_parts(n);
                            }
                            assert(s0.prev_of(n) == Some(h2));
                            if j < chain.len() - 1 {
                                assert(s0.prev_of(chain[j]) == Some(chain[j + 1]));
                                assert(h2 == chain[j + 1]);
                                assert(!cur.inner_valid(chain[j + 1]));
                            } else {
                                assert(s0.prev_of(chain[chain.len() - 1]).is_none());
                            }
                        }
                    }
                    assert(cur.inner_valid(n));
                    assert(cur.node_of(n) == s0.node_of(n));
                },
                None => {},
            }
            match s0.prev_of(h2) {
                Some(q) => {
                    assert(!chain_hits_slot(chain, chain.len() as int, q.idx() as int)) by {
                        if chain_hits_slot(chain, chain.len() as int, q.idx() as int) {
                            let j = choose|j: int|
                                0 <= j < chain.len() && (#[trigger] chain[j]).idx() as int
                                    == q.idx() as int;
                            assert(chain[j] == q) by {
                                SlotMapHandle::lemma_handle_parts(chain[j]);
                                SlotMapHandle::lemma_handle_parts(q);
                            }
                            assert(s0.next_of(q) == Some(h2));
                            if j >= 1 {
                                assert(s0.prev_of(chain[j - 1]) == Some(chain[j]));
                                assert(s0.next_of(chain[j]) == Some(chain[j - 1]));
                                assert(h2 == chain[j - 1]);
                                assert(!cur.inner_valid(chain[j - 1]));
                            } else {
                                assert(chain[0] == start);
                                assert(s0.next_of(start).is_none());
                            }
                        }
                    }
                    assert(cur.inner_valid(q));
                    assert(cur.node_of(q) == s0.node_of(q));
                },
                None => {},
            }
        }
    }

    /// One drain step: removing the chain's `k`-th node from an arena that
    /// still held every node from position `k` onward keeps the bookkeeping
    /// relations that the drain maintains, now for the first `k + 1` chain
    /// positions.
    #[verifier::rlimit(100)]
    proof fn lemma_drain_step(
        s0: Self,
        pre: Self,
        cur: Self,
        chain: Seq<SlotMapHandle<Node<T>>>,
        k: int,
        h: SlotMapHandle<Node<T>>,
    )
        requires
            0 <= k < chain.len(),
            h == chain[k],
            forall|j: int, l: int|
                0 <= j < l < chain.len() ==> (#[trigger] chain[j]).idx() != (
                #[trigger] chain[l]).idx(),
            forall|j: int| 0 <= j < k ==> !pre.inner_valid(#[trigger] chain[j]),
            forall|h2: SlotMapHandle<Node<T>>|
                #![trigger pre.inner_valid(h2)]
                #![trigger pre.node_of(h2)]
                s0.inner_valid(h2) && !chain_hits_slot(chain, k, h2.idx() as int)
                    ==> pre.inner_valid(h2) && pre.node_of(h2) == s0.node_of(h2),
            forall|h2: SlotMapHandle<Node<T>>|
                #[trigger] pre.inner_valid(h2) ==> s0.inner_valid(h2),
            forall|i: int|
                #![trigger pre.arena().slot_gen(i)]
                0 <= i < s0.arena().num_slots() && !chain_hits_slot(chain, k, i)
                    ==> pre.arena().slot_gen(i) == s0.arena().slot_gen(i),
            pre.arena().num_slots() == s0.arena().num_slots(),
            cur.arena().num_slots() == pre.arena().num_slots(),
            !cur.inner_valid(h),
            forall|h2: SlotMapHandle<Node<T>>|
                #[trigger] cur.arena().handle_valid(h2) ==> pre.arena().handle_valid(h2)
                    && h2.idx() != h.idx(),
            forall|h2: SlotMapHandle<Node<T>>|
                pre.arena().handle_valid(h2) && h2.idx() != h.idx() ==> #[trigger] cur
                    .arena().handle_valid(h2) && cur.arena().value_of(h2) == pre.arena().value_of(
                    h2,
                ),
            forall|i: int|
                #![trigger cur.arena().slot_gen(i)]
                0 <= i < pre.arena().num_slots() && i != h.idx() ==> cur.arena().slot_gen(i)
                    == pre.arena().slot_gen(i),
        ensures
            forall|j: int| 0 <= j < k + 1 ==> !cur.inner_valid(#[trigger] chain[j]),
            forall|h2: SlotMapHandle<Node<T>>|
                #![trigger cur.inner_valid(h2)]
                #![trigger cur.node_of(h2)]
                s0.inner_valid(h2) && !chain_hits_slot(chain, k + 1, h2.idx() as int)
                    ==> cur.inner_valid(h2) && cur.node_of(h2) == s0.node_of(h2),
            forall|h2: SlotMapHandle<Node<T>>|
                #[trigger] cur.inner_valid(h2) ==> s0.inner_valid(h2),
            forall|i: int|
                #![trigger cur.arena().slot_gen(i)]
                0 <= i < s0.arena().num_slots() && !chain_hits_slot(chain, k + 1, i)
                    ==> cur.arena().slot_gen(i) == s0.arena().slot_gen(i),
    {
        assert forall|j: int| 0 <= j < k + 1 implies !cur.inner_valid(#[trigger] chain[j]) by {
            if j < k {
                assert(!pre.inner_valid(chain[j]));
                if cur.inner_valid(chain[j]) {
                    assert(cur.arena().handle_valid(chain[j]));
                    assert(pre.arena().handle_valid(chain[j]));
                }
            }
        }
        assert forall|h2: SlotMapHandle<Node<T>>|
            #![trigger cur.inner_valid(h2)]
            #![trigger cur.node_of(h2)]
            s0.inner_valid(h2) && !chain_hits_slot(chain, k + 1, h2.idx() as int) implies {
            &&& cur.inner_valid(h2)
            &&& cur.node_of(h2) == s0.node_of(h2)
        } by {
            assert(!chain_hits_slot(chain, k, h2.idx() as int)) by {
                if chain_hits_slot(chain, k, h2.idx() as int) {
                    let j = choose|j: int|
                        0 <= j < k && (#[trigger] chain[j]).idx() as int == h2.idx() as int;
                    assert(chain_hits_slot(chain, k + 1, h2.idx() as int));
                }
            }
            assert(h2.idx() as int != chain[k].idx() as int);
            assert(pre.inner_valid(h2));
            assert(pre.node_of(h2) == s0.node_of(h2));
            assert(pre.arena().handle_valid(h2));
            assert(cur.arena().handle_valid(h2));
            assert(cur.arena().value_of(h2) == pre.arena().value_of(h2));
        }
        assert forall|h2: SlotMapHandle<Node<T>>| #[trigger] cur.inner_valid(h2) implies s0
            .inner_valid(h2) by {
            assert(cur.arena().handle_valid(h2));
            assert(pre.arena().handle_valid(h2));
            assert(pre.inner_valid(h2));
        }
        assert forall|i: int|
            0 <= i < s0.arena().num_slots() && !chain_hits_slot(chain, k + 1, i)
            implies #[trigger] cur.arena().slot_gen(i) == s0.arena().slot_gen(i) by {
            assert(!chain_hits_slot(chain, k, i)) by {
                if chain_hits_slot(chain, k, i) {
                    let j = choose|j: int|
                        0 <= j < k && (#[trigger] chain[j]).idx() as int == i;
                    assert(chain_hits_slot(chain, k + 1, i));
                }
            }
            assert(i != chain[k].idx() as int);
            assert(pre.arena().slot_gen(i) == s0.arena().slot_gen(i));
        }
    }

    /// The inductive core of the round-trip law: walking forward from any
    /// node and then backward from the chain's tail retraces the forward
    /// chain in reverse and continues through the node's own predecessors.
    proof fn lemma_forward_backward_aux(&self, h: SlotMapHandle<Node<T>>)
        requires
            self.inv(),
            self.inner_valid(h),
        ensures
            self.forward_handles(h).len() >= 1,
            self.forward_handles(h)[0] == h,
            self.inner_valid(self.forward_handles(h).last()),
            self.backward_handles(self.forward_handles(h).last()) == self.forward_handles(
                h,
            ).reverse() + (match self.prev_of(h) {
                None => Seq::<SlotMapHandle<Node<T>>>::empty(),
                Some(p) => self.backward_handles(p),
            }),
        decreases self.rank_limit() - self.rank_of(h.idx() as int),
    {
        assert(self.slot_links_ok(h.idx() as int));
        assert(h == self.handle_of_slot(h.idx() as int)) by {
            SlotMapHandle::lemma_handle_parts(h);
        }
        let fwd = self.forward_handles(h);
        let prev_part = match self.prev_of(h) {
            None => Seq::<SlotMapHandle<Node<T>>>::empty(),
            Some(p) => self.backward_handles(p),
        };
        match self.next_of(h) {
            None => {
                assert(fwd == seq![h]);
                assert(fwd.last() == h);
                assert(self.backward_handles(h) == seq![h] + prev_part) by {
                    match self.prev_of(h) {
                        None => {
                            assert(seq![h] + prev_part =~= seq![h]);
                        },
                        Some(p) => {},
                    }
                }
                assert(fwd.reverse() + prev_part =~= seq![h] + prev_part);
            },
            Some(n) => {
                self.lemma_forward_backward_aux(n);
                let fwd_n = self.forward_handles(n);
                assert(fwd == seq![h] + fwd_n);
                assert(fwd.last() == fwd_n.last());
                assert(self.prev_of(n) == Some(h));
                assert(self.backward_handles(fwd_n.last()) == fwd_n.reverse()
                    + self.backward_handles(h));
                assert(self.backward_handles(h) == seq![h] + prev_part) by {
                    match self.prev_of(h) {
                        None => {
                            assert(seq![h] + prev_part =~= seq![h]);
                        },
                        Some(p) => {},
                    }
                }
                assert(fwd.reverse() =~= fwd_n.reverse() + seq![h]);
                assert(fwd_n.reverse() + (seq![h] + prev_part) =~= (fwd_n.reverse() + seq![h])
                    + prev_part);
            },
        }
    }

    /// Round trip: for any chain, walking forward from its head and then
    /// backward from its tail visits exactly the same nodes in reversed
    /// order, and yields exactly the reversed value sequence.
    pub proof fn lemma_forward_backward_reverse(&self, head: SlotMapHandle<Node<T>>)
        requires
            self.inv(),
            self.inner_valid(head),
            self.prev_of(head).is_none(),
        ensures
            self.backward_handles(self.forward_handles(head).last()) == self.forward_handles(
                head,
            ).reverse(),
            self.backward_values(self.forward_handles(head).last()) == self.forward_values(
                head,
            ).reverse(),
    {
        self.lemma_forward_backward_aux(head);
        let fwd = self.forward_handles(head);
        let tail = fwd.last();
        assert(self.backward_handles(tail) =~= fwd.reverse());
        assert(self.backward_values(tail) =~= self.forward_values(head).reverse()) by {
            assert(self.backward_handles(tail) == fwd.reverse());
            assert forall|i: int|
                0 <= i < fwd.len() implies #[trigger] self.backward_values(tail)[i] == self
                .forward_values(head).reverse()[i] by {
                assert(self.backward_values(tail)[i] == self.value_at(
                    self.backward_handles(tail)[i],
                ));
                assert(self.backward_handles(tail)[i] == fwd[fwd.len() - 1 - i]);
                assert(self.forward_values(head).reverse()[i] == self.forward_values(head)[fwd.len()
                    - 1 - i]);
                assert(self.forward_values(head)[fwd.len() - 1 - i] == self.value_at(
                    fwd[fwd.len() - 1 - i],
                ));
            }
        }
    }

    /// Drains a list destructively from `start_node` towards its head:
    /// every visited node is removed from the arena and its value collected,
    /// in visit order. Already-visited neighbors are being discarded, so no
    /// re-linking is performed; when the drain starts at the tail of its
    /// list (no successor), the whole list is consumed and the invariant is
    /// fully restored.
    #[verifier::rlimit(100)]
    pub fn reverse_remove_iter(&mut self, start_node: LinkedListSlotMapHandle<T>) -> (r: Vec<T>)
        requires
            old(self).inv(),
            old(self).node_valid(start_node),
            forall|k: int|
                0 <= k < old(self).backward_handles(start_node.spec_inner()).len() ==> (
                #[trigger] old(self).backward_handles(start_node.spec_inner())[k]).gen()
                    < usize::MAX,
        ensures
            final(self).arena().inv(),
            r@ == old(self).backward_values(start_node.spec_inner()),
            forall|k: int|
                0 <= k < old(self).backward_handles(start_node.spec_inner()).len() ==> !final(self).inner_valid(#[trigger] old(self).backward_handles(start_node.spec_inner())[k]),
            forall|h2: SlotMapHandle<Node<T>>|
                #![trigger final(self).inner_valid(h2)]
                #![trigger final(self).node_of(h2)]
                old(self).inner_valid(h2) && !chain_hits_slot(
                    old(self).backward_handles(start_node.spec_inner()),
                    old(self).backward_handles(start_node.spec_inner()).len() as int,
                    h2.idx() as int,
                ) ==> final(self).inner_valid(h2) && final(self).node_of(h2) == old(self).node_of(
                    h2,
                ),
            forall|h2: SlotMapHandle<Node<T>>|
                #[trigger] final(self).inner_valid(h2) ==> old(self).inner_valid(h2),
            final(self).arena()@.len() + old(self).backward_handles(
                start_node.spec_inner(),
            ).len() == old(self).arena()@.len(),
            old(self).next_of(start_node.spec_inner()).is_none() ==> final(self).inv(),
    {
        let ghost s0 = *self;
        let ghost chain = s0.backward_handles(start_node.spec_inner());
        proof {
            s0.lemma_backward_chain(start_node.spec_inner());
        }
        let mut out: Vec<T> = Vec::new();
        let mut current: Option<SlotMapHandle<Node<T>>> = Some(start_node.inner_handle());
        while current.is_some()
            invariant
                s0.inv(),
                s0.inner_valid(start_node.spec_inner()),
                chain == s0.backward_handles(start_node.spec_inner()),
                forall|j: int|
                    0 <= j < chain.len() ==> (#[trigger] chain[j]).gen() < usize::MAX,
                self.rank@ == s0.rank@,
                self.rank_limit@ == s0.rank_limit@,
                self.arena().inv(),
                self.arena().num_slots() == s0.arena().num_slots(),
                self.arena()@.len() + out@.len() == s0.arena()@.len(),
                out@.len() <= chain.len(),
                current == (if (out@.len() as int) < chain.len() {
                    Some(chain[out@.len() as int])
                } else {
                    None::<SlotMapHandle<Node<T>>>
                }),
                forall|j: int|
                    0 <= j < out@.len() ==> out@[j] == s0.value_at(#[trigger] chain[j]),
                forall|j: int| 0 <= j < out@.len() ==> !self.inner_valid(#[trigger] chain[j]),
                forall|h2: SlotMapHandle<Node<T>>|
                    #![trigger self.inner_valid(h2)]
                    #![trigger self.node_of(h2)]
                    s0.inner_valid(h2) && !chain_hits_slot(
                        chain,
                        out@.len() as int,
                        h2.idx() as int,
                    ) ==> self.inner_valid(h2) && self.node_of(h2) == s0.node_of(h2),
                forall|h2: SlotMapHandle<Node<T>>|
                    #[trigger] self.inner_valid(h2) ==> s0.inner_valid(h2),
                forall|i: int|
                    #![trigger self.arena().slot_gen(i)]
                    0 <= i < s0.arena().num_slots() && !chain_hits_slot(
                        chain,
                        out@.len() as int,
                        i,
                    ) ==> self.arena().slot_gen(i) == s0.arena().slot_gen(i),
            decreases chain.len() - out@.len(),
        {
            let ghost k = out@.len() as int;
            let ghost pre = *self;
            let h = current.unwrap();
            proof {
                s0.lemma_backward_chain(start_node.spec_inner());
                assert(h == chain[k]);
                assert(s0.inner_valid(h));
                assert(!chain_hits_slot(chain, k, h.idx() as int)) by {
                    if chain_hits_slot(chain, k, h.idx() as int) {
                        let j = choose|j: int|
                            0 <= j < k && (#[trigger] chain[j]).idx() as int == h.idx() as int;
                        assert(chain[j].idx() != chain[k].idx());
                    }
                }
                assert(self.inner_valid(h));
                assert(self.node_of(h) == s0.node_of(h));
                assert(h.gen() < usize::MAX);
            }
            let removed = match self.slot_map.remove(h) {
                Some(n) => n,
                None => unreached(),
            };
            out.push(removed.value);
            current = removed.previous;
            proof {
                assert(removed == s0.node_of(chain[k]));
                assert(removed.prev_link() == s0.prev_of(chain[k]));
                if k < chain.len() - 1 {
                    assert(s0.prev_of(chain[k]) == Some(chain[k + 1]));
                } else {
                    assert(s0.prev_of(chain[chain.len() - 1]).is_none());
                }
                Self::lemma_drain_step(s0, pre, *self, chain, k, h);
            }
        }
        proof {
            assert(out@.len() == chain.len());
            assert(out@ =~= s0.backward_values(start_node.spec_inner()));
            if s0.next_of(start_node.spec_inner()).is_none() {
                Self::lemma_drain_restores_inv(s0, *self, start_node.spec_inner(), chain);
            }
        }
        out
    }
}

/// Walks a list towards its tail, yielding each value paired with its
/// handle. Non-destructive and restartable: calling `iter` again with the
/// same start yields the same sequence.
pub struct LinkedListSlotMapIterator<'a, T> {
    linked_list_slot_map: &'a LinkedListSlotMap<T>,
    current_node: Option<SlotMapHandle<Node<T>>>,
}

/// Walks a list towards its head, yielding each value paired with its
/// handle. Non-destructive and restartable.
pub struct RevLinkedListSlotMapIterator<'a, T> {
    linked_list_slot_map: &'a LinkedListSlotMap<T>,
    current_node: Option<SlotMapHandle<Node<T>>>,
}

} // verus!


verus! {

impl<'a, T> LinkedListSlotMapIterator<'a, T> {
    /// The list being walked.
    pub closed spec fn list(&self) -> &'a LinkedListSlotMap<T> {
        self.linked_list_slot_map
    }

    /// The handle the next call to `next` will visit, if any.
    pub closed spec fn current(&self) -> Option<SlotMapHandle<Node<T>>> {
        self.current_node
    }

    /// Yields the current node's value and handle and steps to its
    /// successor; absent once the chain is exhausted (or if the current
    /// handle has been invalidated since the iterator was created).
    pub fn next(&mut self) -> (r: Option<(&'a T, LinkedListSlotMapHandle<T>)>)
        requires
            old(self).list().arena().inv(),
        ensures
            final(self).list() == old(self).list(),
            match old(self).current() {
                None => r.is_none() && final(self).current().is_none(),
                Some(h) => {
                    if old(self).list().inner_valid(h) {
                        &&& r.is_some()
                        &&& *r.unwrap().0 == old(self).list().value_at(h)
                        &&& r.unwrap().1.spec_inner() == h
                        &&& final(self).current() == old(self).list().next_of(h)
                    } else {
                        r.is_none() && final(self).current().is_none()
                    }
                },
            },
    {
        match self.current_node {
            Some(h) => {
                match self.linked_list_slot_map.slot_map.get(h) {
                    Some(node) => {
                        self.current_node = node.next;
                        Some((&node.value, LinkedListSlotMapHandle(h)))
                    },
                    None => {
                        self.current_node = None;
                        None
                    },
                }
            },
            None => None,
        }
    }
}

impl<'a, T> RevLinkedListSlotMapIterator<'a, T> {
    /// The list being walked.
    pub closed spec fn list(&self) -> &'a LinkedListSlotMap<T> {
        self.linked_list_slot_map
    }

    /// The handle the next call to `next` will visit, if any.
    pub closed spec fn current(&self) -> Option<SlotMapHandle<Node<T>>> {
        self.current_node
    }

    /// Yields the current node's value and handle and steps to its
    /// predecessor; absent once the chain is exhausted (or if the current
    /// handle has been invalidated since the iterator was created).
    pub fn next(&mut self) -> (r: Option<(&'a T, LinkedListSlotMapHandle<T>)>)
        requires
            old(self).list().arena().inv(),
        ensures
            final(self).list() == old(self).list(),
            match old(self).current() {
                None => r.is_none() && final(self).current().is_none(),
                Some(h) => {
                    if old(self).list().inner_valid(h) {
                        &&& r.is_some()
                        &&& *r.unwrap().0 == old(self).list().value_at(h)
                        &&& r.unwrap().1.spec_inner() == h
                        &&& final(self).current() == old(self).list().prev_of(h)
                    } else {
                        r.is_none() && final(self).current().is_none()
                    }
                },
            },
    {
        match self.current_node {
            Some(h) => {
                match self.linked_list_slot_map.slot_map.get(h) {
                    Some(node) => {
                        self.current_node = node.previous;
                        Some((&node.value, LinkedListSlotMapHandle(h)))
                    },
                    None => {
                        self.current_node = None;
                        None
                    },
                }
            },
            None => None,
        }
    }
}

} // verus!

verus! {

/// Drains a list step by step, towards the head: each call to `next`
/// removes the current node from the arena and yields its value. Single
/// use: once exhausted, every visited node is gone. The iterator holds
/// only the position; the structure is passed to each step.
pub struct RevRemoveLinkedListSlotMapIterator<T> {
    current_node: Option<SlotMapHandle<Node<T>>>,
}

impl<T> RevRemoveLinkedListSlotMapIterator<T> {
    /// The handle the next step will remove, if any.
    pub closed spec fn current(&self) -> Option<SlotMapHandle<Node<T>>> {
        self.current_node
    }

    /// A draining iterator that starts at `start_node` and follows
    /// `previous` links.
    pub fn new(start_node: LinkedListSlotMapHandle<T>) -> (r: Self)
        ensures
            r.current() == Some(start_node.spec_inner()),
    {
        RevRemoveLinkedListSlotMapIterator { current_node: Some(start_node.inner_handle()) }
    }

    /// Removes the current node from the structure, yields its value, and
    /// steps to its predecessor. Visited neighbors are being discarded, so
    /// no re-linking is performed. Absent once exhausted, or if the current
    /// handle has been invalidated since the previous step.
    pub fn next(&mut self, list: &mut LinkedListSlotMap<T>) -> (r: Option<T>)
        requires
            old(list).arena().inv(),
            match old(self).current() {
                Some(h) => old(list).inner_valid(h) ==> h.gen() < usize::MAX,
                None => true,
            },
        ensures
            final(list).arena().inv(),
            match old(self).current() {
                None => r.is_none() && *final(list) == *old(list) && final(self).current().is_none(),
                Some(h) => {
                    if old(list).inner_valid(h) {
                        &&& r == Some(old(list).value_at(h))
                        &&& !final(list).inner_valid(h)
                        &&& final(self).current() == old(list).prev_of(h)
                        &&& final(list).arena()@.len() + 1 == old(list).arena()@.len()
                        &&& forall|h2: SlotMapHandle<Node<T>>|
                            old(list).inner_valid(h2) && h2.idx() != h.idx() ==> #[trigger] final(list).inner_valid(h2) && final(list).node_of(h2) == old(list).node_of(h2)
                        &&& forall|h2: SlotMapHandle<Node<T>>|
                            #[trigger] final(list).inner_valid(h2) ==> old(list).inner_valid(h2)
                                && h2.idx() != h.idx()
                    } else {
                        r.is_none() && *final(list) == *old(list) && final(self).current().is_none()
                    }
                },
            },
    {
        match self.current_node {
            Some(h) => {
                match list.slot_map.remove(h) {
                    Some(node) => {
                        self.current_node = node.previous;
                        Some(node.value)
                    },
                    None => {
                        self.current_node = None;
                        None
                    },
                }
            },
            None => None,
        }
    }
}

} // verus!
