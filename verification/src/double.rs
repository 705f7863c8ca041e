//! The node-role state machine and the rewiring algorithms of the list.
//!
//! Nodes live in an arena (`Vec<Option<DNode<T>>>`) and refer to one
//! another by slot index.  A slot index held in the forward direction is
//! the owning link; a backward index is only a back-reference and must
//! always name the node that forward-links to this one.  A ghost sequence
//! records the slot of every chained node from head to tail; the
//! container's invariant ties that sequence, the arena, the free list and
//! the cached length together.

use vstd::prelude::*;

verus! {

/// One link of the chain, tagged with its structural role.
///
/// A `First` node has no backward link (its predecessor is the container
/// itself), a `Last` node has no forward link, and a `Body` node has both.
enum DNode<T> {
    First { value: T, next: usize },
    Body { value: T, next: usize, prev: usize },
    Last { value: T, prev: usize },
}

impl<T> DNode<T> {
    /// The payload carried by the node, whatever its role.
    spec fn spec_value(self) -> T {
        match self {
            DNode::First { value, .. } => value,
            DNode::Body { value, .. } => value,
            DNode::Last { value, .. } => value,
        }
    }

    /// The forward neighbour, absent only for the last boundary.
    spec fn spec_next(self) -> Option<usize> {
        match self {
            DNode::First { next, .. } => Some(next),
            DNode::Body { next, .. } => Some(next),
            DNode::Last { .. } => None,
        }
    }

    /// The backward neighbour, absent only for the first boundary.
    spec fn spec_prev(self) -> Option<usize> {
        match self {
            DNode::First { .. } => None,
            DNode::Body { prev, .. } => Some(prev),
            DNode::Last { prev, .. } => Some(prev),
        }
    }

    fn next(&self) -> (r: Option<usize>)
        ensures
            r == self.spec_next(),
    {
        match self {
            DNode::First { next, .. } => Some(*next),
            DNode::Body { next, .. } => Some(*next),
            DNode::Last { .. } => None,
        }
    }

    fn prev(&self) -> (r: Option<usize>)
        ensures
            r == self.spec_prev(),
    {
        match self {
            DNode::First { .. } => None,
            DNode::Body { prev, .. } => Some(*prev),
            DNode::Last { prev, .. } => Some(*prev),
        }
    }

    /// The interior form of the node: the payload and the already-present
    /// link are kept, the previously absent link is filled with `other`.
    /// An interior node is returned unchanged.
    spec fn spec_as_body(self, other: usize) -> Self {
        match self {
            DNode::First { value, next } => DNode::Body { value, next, prev: other },
            DNode::Body { value, next, prev } => DNode::Body { value, next, prev },
            DNode::Last { value, prev } => DNode::Body { value, next: other, prev },
        }
    }

    /// Retag a boundary node as interior because a new neighbour now sits
    /// on its formerly open side at slot `other`.
    fn as_body(self, other: usize) -> (r: Self)
        ensures
            r == self.spec_as_body(other),
    {
        match self {
            DNode::First { value, next } => DNode::Body { value, next, prev: other },
            DNode::Body { value, next, prev } => DNode::Body { value, next, prev },
            DNode::Last { value, prev } => DNode::Body { value, next: other, prev },
        }
    }

    /// The first-boundary form of an interior node: the backward link is
    /// dropped.  Boundary nodes are returned unchanged.
    spec fn spec_as_first(self) -> Self {
        match self {
            DNode::First { value, next } => DNode::First { value, next },
            DNode::Body { value, next, prev: _ } => DNode::First { value, next },
            DNode::Last { value, prev } => DNode::Last { value, prev },
        }
    }

    /// Retag an interior node as the new first boundary.
    fn as_first(self) -> (r: Self)
        ensures
            r == self.spec_as_first(),
    {
        match self {
            DNode::First { value, next } => DNode::First { value, next },
            DNode::Body { value, next, prev: _ } => DNode::First { value, next },
            DNode::Last { value, prev } => DNode::Last { value, prev },
        }
    }

    /// The last-boundary form of an interior node: the forward link is
    /// dropped.  Boundary nodes are returned unchanged.
    spec fn spec_as_last(self) -> Self {
        match self {
            DNode::First { value, next } => DNode::First { value, next },
            DNode::Body { value, next: _, prev } => DNode::Last { value, prev },
            DNode::Last { value, prev } => DNode::Last { value, prev },
        }
    }

    /// Retag an interior node as the new last boundary.
    fn as_last(self) -> (r: Self)
        ensures
            r == self.spec_as_last(),
    {
        match self {
            DNode::First { value, next } => DNode::First { value, next },
            DNode::Body { value, next: _, prev } => DNode::Last { value, prev },
            DNode::Last { value, prev } => DNode::Last { value, prev },
        }
    }

    /// The node with its forward link replaced by `n`; a last boundary,
    /// which has no forward link, is returned unchanged.
    spec fn spec_with_next(self, n: usize) -> Self {
        match self {
            DNode::First { value, next: _ } => DNode::First { value, next: n },
            DNode::Body { value, next: _, prev } => DNode::Body { value, next: n, prev },
            DNode::Last { value, prev } => DNode::Last { value, prev },
        }
    }

    /// Rewrite the forward link in place.
    fn set_next(&mut self, n: usize)
        ensures
            *final(self) == old(self).spec_with_next(n),
    {
        match self {
            DNode::First { next, .. } => *next = n,
            DNode::Body { next, .. } => *next = n,
            DNode::Last { .. } => (),
        }
    }

    /// The node with its backward link replaced by `p`; a first boundary,
    /// which has no backward link, is returned unchanged.
    spec fn spec_with_prev(self, p: usize) -> Self {
        match self {
            DNode::First { value, next } => DNode::First { value, next },
            DNode::Body { value, next, prev: _ } => DNode::Body { value, next, prev: p },
            DNode::Last { value, prev: _ } => DNode::Last { value, prev: p },
        }
    }

    /// Rewrite the backward link in place.
    fn set_prev(&mut self, p: usize)
        ensures
            *final(self) == old(self).spec_with_prev(p),
    {
        match self {
            DNode::First { .. } => (),
            DNode::Body { prev, .. } => *prev = p,
            DNode::Last { prev, .. } => *prev = p,
        }
    }

    /// Take the payload out of the node, discarding the links.
    fn into_value(self) -> (v: T)
        ensures
            v == self.spec_value(),
    {
        match self {
            DNode::First { value, .. } => value,
            DNode::Body { value, .. } => value,
            DNode::Last { value, .. } => value,
        }
    }
}

/// The shape of the whole container: no node for zero elements, the value
/// held inline for one element, and a head/tail pair of arena slots once
/// two or more elements form a real chain.
enum DLPtr<T> {
    Empty,
    Unit { value: T },
    Multi { head: usize, tail: usize },
}

/// A doubly linked list whose nodes live in an arena of slots.
///
/// The cached `length` is authoritative: the invariant makes it equal the
/// number of values reachable by following forward links from the head.
pub struct DLList<T> {
    length: usize,
    ptr: DLPtr<T>,
    arena: Vec<Option<DNode<T>>>,
    free: Vec<usize>,
    order: Ghost<Seq<usize>>,
}

/// The node stored in an occupied slot.
spec fn slot_node<T>(s: Option<DNode<T>>) -> DNode<T>
    recommends
        s is Some,
{
    s->0
}

/// Every index on the free list names a distinct vacant slot of the arena.
spec fn free_ok<T>(arena: Seq<Option<DNode<T>>>, free: Seq<usize>) -> bool {
    &&& forall|j: int|
        0 <= j < free.len() ==> (#[trigger] free[j]) < arena.len() && arena[free[j] as int] is None
    &&& forall|j: int, k: int| 0 <= j < k < free.len() ==> free[j] != free[k]
}

/// No arena slot appears twice in the chain.
spec fn distinct_indices(ord: Seq<usize>) -> bool {
    forall|i: int, j: int| 0 <= i < j < ord.len() ==> ord[i] != ord[j]
}

/// The node at position `i` of the chain has the role its position calls
/// for, and its two links agree with its neighbours' positions.
spec fn chain_node_ok<T>(arena: Seq<Option<DNode<T>>>, ord: Seq<usize>, i: int) -> bool {
    let idx = ord[i];
    let n = slot_node(arena[idx as int]);
    &&& idx < arena.len()
    &&& arena[idx as int] is Some
    &&& n.spec_next() == (if i == ord.len() - 1 {
        None::<usize>
    } else {
        Some(ord[i + 1])
    })
    &&& n.spec_prev() == (if i == 0 {
        None::<usize>
    } else {
        Some(ord[i - 1])
    })
    &&& (i == 0 ==> n is First)
    &&& (i == ord.len() - 1 ==> n is Last)
    &&& (0 < i < ord.len() - 1 ==> n is Body)
}

/// The whole chain is well linked.
spec fn chain_ok<T>(arena: Seq<Option<DNode<T>>>, ord: Seq<usize>) -> bool {
    forall|i: int| 0 <= i < ord.len() ==> #[trigger] chain_node_ok(arena, ord, i)
}

impl<T> DLList<T> {
    /// Internal consistency of the container: the cached length matches
    /// the shape, the chain is well linked, every reclaimed slot sits on
    /// the free list exactly once, and every arena slot is accounted for
    /// either by the chain or by the free list.
    pub closed spec fn wf(&self) -> bool {
        let arena = self.arena@;
        let ord = self.order@;
        &&& free_ok(arena, self.free@)
        &&& distinct_indices(ord)
        &&& arena.len() == ord.len() + self.free@.len()
        &&& match self.ptr {
            DLPtr::Empty => self.length == 0 && ord.len() == 0,
            DLPtr::Unit { .. } => self.length == 1 && ord.len() == 0,
            DLPtr::Multi { head, tail } => {
                &&& self.length == ord.len()
                &&& 2 <= ord.len()
                &&& head == ord[0]
                &&& tail == ord[ord.len() - 1]
                &&& chain_ok(arena, ord)
            },
        }
    }
}

impl<T> View for DLList<T> {
    type V = Seq<T>;

    /// The values held by the container, head first.
    closed spec fn view(&self) -> Seq<T> {
        match self.ptr {
            DLPtr::Empty => Seq::empty(),
            DLPtr::Unit { value } => seq![value],
            DLPtr::Multi { .. } => {
                let arena = self.arena@;
                self.order@.map_values(|idx: usize| slot_node(arena[idx as int]).spec_value())
            },
        }
    }
}

/// Put `node` into a vacant slot, preferring a reclaimed one, and return
/// its index.  The slot chosen was vacant before, so no chained node is
/// disturbed.
fn alloc_slot<T>(arena: &mut Vec<Option<DNode<T>>>, free: &mut Vec<usize>, node: DNode<T>) -> (idx:
    usize)
    requires
        free_ok(old(arena)@, old(free)@),
    ensures
        free_ok(final(arena)@, final(free)@),
        idx < final(arena)@.len(),
        final(arena)@[idx as int] == Some(node),
        old(free)@.len() > 0 ==> idx == old(free)@.last() && final(free)@ == old(free)@.drop_last()
            && final(arena)@ == old(arena)@.update(idx as int, Some(node)) && old(arena)@[idx as int]
            is None,
        old(free)@.len() == 0 ==> idx == old(arena)@.len() && final(free)@ == old(free)@
            && final(arena)@ == old(arena)@.push(Some(node)),
{
    match free.pop() {
        Some(idx) => {
            arena[idx] = Some(node);
            idx
        },
        None => {
            let idx = arena.len();
            arena.push(Some(node));
            idx
        },
    }
}

/// Empty the slot at `idx`, put its index on the free list, and hand the
/// node back.
fn free_slot<T>(arena: &mut Vec<Option<DNode<T>>>, free: &mut Vec<usize>, idx: usize) -> (node:
    DNode<T>)
    requires
        free_ok(old(arena)@, old(free)@),
        idx < old(arena)@.len(),
        old(arena)@[idx as int] is Some,
    ensures
        free_ok(final(arena)@, final(free)@),
        Some(node) == old(arena)@[idx as int],
        final(arena)@ == old(arena)@.update(idx as int, None),
        final(free)@ == old(free)@.push(idx),
{
    let slot = &mut arena[idx];
    let node_opt = slot.take();
    free.push(idx);
    node_opt.unwrap()
}

/// Retag the node in slot `idx` as interior, its open side now linking to
/// `other`.
fn slot_as_body<T>(arena: &mut Vec<Option<DNode<T>>>, idx: usize, other: usize)
    requires
        idx < old(arena)@.len(),
        old(arena)@[idx as int] is Some,
    ensures
        final(arena)@ == old(arena)@.update(
            idx as int,
            Some(slot_node(old(arena)@[idx as int]).spec_as_body(other)),
        ),
{
    let slot = &mut arena[idx];
    let node = slot.take().unwrap();
    *slot = Some(node.as_body(other));
}

/// Retag the node in slot `idx` as the new first boundary.
fn slot_as_first<T>(arena: &mut Vec<Option<DNode<T>>>, idx: usize)
    requires
        idx < old(arena)@.len(),
        old(arena)@[idx as int] is Some,
    ensures
        final(arena)@ == old(arena)@.update(
            idx as int,
            Some(slot_node(old(arena)@[idx as int]).spec_as_first()),
        ),
{
    let slot = &mut arena[idx];
    let node = slot.take().unwrap();
    *slot = Some(node.as_first());
}

/// Retag the node in slot `idx` as the new last boundary.
fn slot_as_last<T>(arena: &mut Vec<Option<DNode<T>>>, idx: usize)
    requires
        idx < old(arena)@.len(),
        old(arena)@[idx as int] is Some,
    ensures
        final(arena)@ == old(arena)@.update(
            idx as int,
            Some(slot_node(old(arena)@[idx as int]).spec_as_last()),
        ),
{
    let slot = &mut arena[idx];
    let node = slot.take().unwrap();
    *slot = Some(node.as_last());
}

/// Rewrite the forward link of the node in slot `idx`.
fn slot_set_next<T>(arena: &mut Vec<Option<DNode<T>>>, idx: usize, n: usize)
    requires
        idx < old(arena)@.len(),
        old(arena)@[idx as int] is Some,
    ensures
        final(arena)@ == old(arena)@.update(
            idx as int,
            Some(slot_node(old(arena)@[idx as int]).spec_with_next(n)),
        ),
{
    let slot = &mut arena[idx];
    match slot {
        Some(node) => node.set_next(n),
        None => (),
    }
}

/// Rewrite the backward link of the node in slot `idx`.
fn slot_set_prev<T>(arena: &mut Vec<Option<DNode<T>>>, idx: usize, p: usize)
    requires
        idx < old(arena)@.len(),
        old(arena)@[idx as int] is Some,
    ensures
        final(arena)@ == old(arena)@.update(
            idx as int,
            Some(slot_node(old(arena)@[idx as int]).spec_with_prev(p)),
        ),
{
    let slot = &mut arena[idx];
    match slot {
        Some(node) => node.set_prev(p),
        None => (),
    }
}

impl<T> DLList<T> {
    /// Construct an empty container.
    pub fn new() -> (r: Self)
        ensures
            r.wf(),
            r@ == Seq::<T>::empty(),
    {
        Self {
            length: 0,
            ptr: DLPtr::Empty,
            arena: Vec::new(),
            free: Vec::new(),
            order: Ghost(Seq::empty()),
        }
    }

    /// Insert `item` at the front in constant time.
    pub fn prepend(&mut self, item: T)
        requires
            old(self).wf(),
            old(self)@.len() < usize::MAX,
        ensures
            final(self).wf(),
            final(self)@ == seq![item] + old(self)@,
    {
        self.length = self.length + 1;
        let mut p = DLPtr::Empty;
        core::mem::swap(&mut p, &mut self.ptr);
        match p {
            DLPtr::Empty => {
                self.ptr = DLPtr::Unit { value: item };
                proof {
                    assert(self@ =~= seq![item] + old(self)@);
                }
            },
            DLPtr::Unit { value } => {
                let tail_idx = alloc_slot(
                    &mut self.arena,
                    &mut self.free,
                    DNode::Last { value, prev: 0 },
                );
                let head_idx = alloc_slot(
                    &mut self.arena,
                    &mut self.free,
                    DNode::First { value: item, next: tail_idx },
                );
                proof {
                    assert(head_idx != tail_idx);
                }
                slot_set_prev(&mut self.arena, tail_idx, head_idx);
                self.ptr = DLPtr::Multi { head: head_idx, tail: tail_idx };
                let ghost new_ord: Seq<usize> = seq![head_idx, tail_idx];
                self.order = Ghost(new_ord);
                proof {
                    let arena = self.arena@;
                    let ord = self.order@;
                    assert forall|i: int| 0 <= i < ord.len() implies #[trigger] chain_node_ok(
                        arena,
                        ord,
                        i,
                    ) by {
                        if i == 0 {
                            assert(arena[head_idx as int] == Some(
                                DNode::First { value: item, next: tail_idx },
                            ));
                        } else {
                            assert(arena[tail_idx as int] == Some(
                                DNode::Last { value, prev: head_idx },
                            ));
                        }
                    }
                    assert(self@ =~= seq![item] + old(self)@);
                }
            },
            DLPtr::Multi { head, tail } => {
                let ghost a0 = self.arena@;
                let ghost ord0 = self.order@;
                proof {
                    assert(chain_node_ok(a0, ord0, 0));
                }
                let new_head = alloc_slot(
                    &mut self.arena,
                    &mut self.free,
                    DNode::First { value: item, next: head },
                );
                proof {
                    assert forall|i: int| 0 <= i < ord0.len() implies ord0[i] != new_head by {
                        assert(chain_node_ok(a0, ord0, i));
                    }
                }
                slot_as_body(&mut self.arena, head, new_head);
                self.ptr = DLPtr::Multi { head: new_head, tail };
                let ghost new_ord: Seq<usize> = seq![new_head] + ord0;
                self.order = Ghost(new_ord);
                proof {
                    let arena = self.arena@;
                    let ord = self.order@;
                    assert forall|i: int| 0 <= i < ord.len() implies #[trigger] chain_node_ok(
                        arena,
                        ord,
                        i,
                    ) by {
                        if i == 0 {
                            assert(arena[new_head as int] == Some(
                                DNode::First { value: item, next: head },
                            ));
                        } else {
                            assert(chain_node_ok(a0, ord0, i - 1));
                            if i == 1 {
                                assert(arena[ord[1] as int] == Some(
                                    slot_node(a0[head as int]).spec_as_body(new_head),
                                ));
                            }
                        }
                    }
                    assert forall|i: int| 0 <= i < self@.len() implies self@[i] == (seq![item] + old(
                        self,
                    )@)[i] by {
                        if i > 0 {
                            assert(chain_node_ok(a0, ord0, i - 1));
                        }
                    }
                    assert(self@ =~= seq![item] + old(self)@);
                }
            },
        }
    }

    /// Insert `item` at the back in constant time.
    pub fn append(&mut self, item: T)
        requires
            old(self).wf(),
            old(self)@.len() < usize::MAX,
        ensures
            final(self).wf(),
            final(self)@ == old(self)@.push(item),
    {
        self.length = self.length + 1;
        let mut p = DLPtr::Empty;
        core::mem::swap(&mut p, &mut self.ptr);
        match p {
            DLPtr::Empty => {
                self.ptr = DLPtr::Unit { value: item };
                proof {
                    assert(self@ =~= old(self)@.push(item));
                }
            },
            DLPtr::Unit { value } => {
                let head_idx = alloc_slot(
                    &mut self.arena,
                    &mut self.free,
                    DNode::First { value, next: 0 },
                );
                let tail_idx = alloc_slot(
                    &mut self.arena,
                    &mut self.free,
                    DNode::Last { value: item, prev: head_idx },
                );
                proof {
                    assert(head_idx != tail_idx);
                }
                slot_set_next(&mut self.arena, head_idx, tail_idx);
                self.ptr = DLPtr::Multi { head: head_idx, tail: tail_idx };
                let ghost new_ord: Seq<usize> = seq![head_idx, tail_idx];
                self.order = Ghost(new_ord);
                proof {
                    let arena = self.arena@;
                    let ord = self.order@;
                    assert forall|i: int| 0 <= i < ord.len() implies #[trigger] chain_node_ok(
                        arena,
                        ord,
                        i,
                    ) by {
                        if i == 0 {
                            assert(arena[head_idx as int] == Some(
                                DNode::First { value, next: tail_idx },
                            ));
                        } else {
                            assert(arena[tail_idx as int] == Some(
                                DNode::Last { value: item, prev: head_idx },
                            ));
                        }
                    }
                    assert(self@ =~= old(self)@.push(item));
                }
            },
            DLPtr::Multi { head, tail } => {
                let ghost a0 = self.arena@;
                let ghost ord0 = self.order@;
                let ghost last0 = ord0.len() - 1;
                proof {
                    assert(chain_node_ok(a0, ord0, last0));
                }
                let new_tail = alloc_slot(
                    &mut self.arena,
                    &mut self.free,
                    DNode::Last { value: item, prev: tail },
                );
                proof {
                    assert forall|i: int| 0 <= i < ord0.len() implies ord0[i] != new_tail by {
                        assert(chain_node_ok(a0, ord0, i));
                    }
                }
                slot_as_body(&mut self.arena, tail, new_tail);
                self.ptr = DLPtr::Multi { head, tail: new_tail };
                self.order = Ghost(ord0.push(new_tail));
                proof {
                    let arena = self.arena@;
                    let ord = self.order@;
                    assert forall|i: int| 0 <= i < ord.len() implies #[trigger] chain_node_ok(
                        arena,
                        ord,
                        i,
                    ) by {
                        if i == ord.len() - 1 {
                            assert(arena[new_tail as int] == Some(
                                DNode::Last { value: item, prev: tail },
                            ));
                        } else {
                            assert(chain_node_ok(a0, ord0, i));
                            if i == ord.len() - 2 {
                                assert(arena[ord[i] as int] == Some(
                                    slot_node(a0[tail as int]).spec_as_body(new_tail),
                                ));
                            }
                        }
                    }
                    assert forall|i: int| 0 <= i < self@.len() implies self@[i] == old(
                        self,
                    )@.push(item)[i] by {
                        if i < self@.len() - 1 {
                            assert(chain_node_ok(a0, ord0, i));
                        }
                    }
                    assert(self@ =~= old(self)@.push(item));
                }
            },
        }
    }

    /// The cached element count, equal to the number of values reachable
    /// by positional traversal.
    pub fn len(&self) -> (n: usize)
        requires
            self.wf(),
        ensures
            n == self@.len(),
    {
        self.length
    }

    /// Walk the forward links from the head exactly `i` times and return
    /// the arena slot of the node occupying position `i`.
    fn locate(&self, i: usize) -> (idx: usize)
        requires
            self.wf(),
            self.ptr is Multi,
            i < self.order@.len(),
        ensures
            idx == self.order@[i as int],
    {
        let mut curr: usize = match &self.ptr {
            DLPtr::Multi { head, .. } => *head,
            _ => unreached(),
        };
        let mut j: usize = 0;
        while j < i
            invariant
                self.wf(),
                self.ptr is Multi,
                i < self.order@.len(),
                j <= i,
                curr == self.order@[j as int],
            decreases i - j,
        {
            proof {
                assert(chain_node_ok(self.arena@, self.order@, j as int));
            }
            let n_opt = match &self.arena[curr] {
                Some(node) => node.next(),
                None => unreached(),
            };
            curr = n_opt.unwrap();
            j = j + 1;
        }
        proof {
            assert(chain_node_ok(self.arena@, self.order@, i as int));
        }
        curr
    }

    /// Positional insert: `idx` counts from zero, `0` makes `item` the new
    /// head and `len` the new tail.  An index strictly greater than the
    /// current length leaves the container untouched — a silent no-op that
    /// callers cannot tell from a successful insert, kept as the
    /// documented baseline behaviour.
    #[verifier::rlimit(100)]
    pub fn insert_at(&mut self, item: T, idx: usize)
        requires
            old(self).wf(),
            old(self)@.len() < usize::MAX,
        ensures
            final(self).wf(),
            idx <= old(self)@.len() ==> final(self)@ == old(self)@.insert(idx as int, item),
            idx > old(self)@.len() ==> final(self)@ == old(self)@,
    {
        if idx > self.length {
            return ;
        }
        if idx == 0 {
            self.prepend(item);
            proof {
                assert(old(self)@.insert(0, item) =~= seq![item] + old(self)@);
            }
            return ;
        }
        if idx == self.length {
            self.append(item);
            proof {
                assert(old(self)@.insert(idx as int, item) =~= old(self)@.push(item));
            }
            return ;
        }
        // 0 < idx < length, so at least two elements are chained.
        let ghost a0 = self.arena@;
        let ghost ord0 = self.order@;
        proof {
            assert(chain_node_ok(a0, ord0, idx as int));
            assert(chain_node_ok(a0, ord0, idx - 1));
        }
        let curr = self.locate(idx);
        let prev_opt = match &self.arena[curr] {
            Some(node) => node.prev(),
            None => unreached(),
        };
        let prev_idx = prev_opt.unwrap();
        let new_idx = alloc_slot(
            &mut self.arena,
            &mut self.free,
            DNode::Body { value: item, next: curr, prev: prev_idx },
        );
        proof {
            assert forall|i: int| 0 <= i < ord0.len() implies ord0[i] != new_idx by {
                assert(chain_node_ok(a0, ord0, i));
            }
        }
        slot_set_prev(&mut self.arena, curr, new_idx);
        slot_set_next(&mut self.arena, prev_idx, new_idx);
        let ghost new_ord = ord0.insert(idx as int, new_idx);
        self.order = Ghost(new_ord);
        self.length = self.length + 1;
        proof {
            ord0.insert_ensures(idx as int, new_idx);
            old(self)@.insert_ensures(idx as int, item);
            let arena = self.arena@;
            let ord = self.order@;
            assert forall|i: int, j: int| 0 <= i < j < ord.len() implies ord[i] != ord[j] by {
                assert(ord[i] == (if i < idx { ord0[i] } else if i == idx { new_idx } else { ord0[i - 1] }));
                assert(ord[j] == (if j < idx { ord0[j] } else if j == idx { new_idx } else { ord0[j - 1] }));
            }
            assert forall|i: int| 0 <= i < ord.len() implies #[trigger] chain_node_ok(
                arena,
                ord,
                i,
            ) by {
                if i < idx - 1 {
                    assert(chain_node_ok(a0, ord0, i));
                } else if i == idx - 1 {
                    assert(chain_node_ok(a0, ord0, i));
                    assert(arena[ord[i] as int] == Some(
                        slot_node(a0[ord0[i] as int]).spec_with_next(new_idx),
                    ));
                } else if i == idx {
                    assert(arena[new_idx as int] == Some(
                        DNode::Body { value: item, next: curr, prev: prev_idx },
                    ));
                } else if i == idx + 1 {
                    assert(chain_node_ok(a0, ord0, i - 1));
                    assert(arena[ord[i] as int] == Some(
                        slot_node(a0[ord0[i - 1] as int]).spec_with_prev(new_idx),
                    ));
                } else {
                    assert(chain_node_ok(a0, ord0, i - 1));
                }
            }
            assert forall|i: int| 0 <= i < self@.len() implies self@[i] == old(self)@.insert(
                idx as int,
                item,
            )[i] by {
                if i < idx {
                    assert(chain_node_ok(a0, ord0, i));
                } else if i > idx {
                    assert(chain_node_ok(a0, ord0, i - 1));
                }
            }
            assert(self@ =~= old(self)@.insert(idx as int, item));
        }
    }

    /// Positional remove: take out and return the value at `idx`,
    /// shifting later elements forward by one.  An index at or past the
    /// current length returns absence and changes nothing.
    #[verifier::rlimit(100)]
    pub fn remove_at(&mut self, idx: usize) -> (r: Option<T>)
        requires
            old(self).wf(),
        ensures
            final(self).wf(),
            idx < old(self)@.len() ==> r == Some(old(self)@[idx as int]) && final(self)@ == old(
                self,
            )@.remove(idx as int),
            idx >= old(self)@.len() ==> r is None && final(self)@ == old(self)@,
    {
        if idx >= self.length {
            return None;
        }
        if self.length == 1 {
            let mut p = DLPtr::Empty;
            core::mem::swap(&mut p, &mut self.ptr);
            match p {
                DLPtr::Unit { value } => {
                    self.length = 0;
                    proof {
                        assert(self@ =~= old(self)@.remove(0));
                    }
                    Some(value)
                },
                _ => unreached(),
            }
        } else {
            let (head, tail) = match &self.ptr {
                DLPtr::Multi { head, tail } => (*head, *tail),
                _ => unreached(),
            };
            let ghost a0 = self.arena@;
            let ghost ord0 = self.order@;
            if self.length == 2 {
                proof {
                    assert(chain_node_ok(a0, ord0, 0));
                    assert(chain_node_ok(a0, ord0, 1));
                }
                let first_node = free_slot(&mut self.arena, &mut self.free, head);
                let last_node = free_slot(&mut self.arena, &mut self.free, tail);
                let v0 = first_node.into_value();
                let v1 = last_node.into_value();
                self.length = 1;
                let ghost new_ord: Seq<usize> = Seq::empty();
                self.order = Ghost(new_ord);
                if idx == 0 {
                    self.ptr = DLPtr::Unit { value: v1 };
                    proof {
                        assert(self@ =~= old(self)@.remove(0));
                    }
                    Some(v0)
                } else {
                    self.ptr = DLPtr::Unit { value: v0 };
                    proof {
                        assert(self@ =~= old(self)@.remove(1));
                    }
                    Some(v1)
                }
            } else {
                // At least three nodes are chained: the chain survives.
                proof {
                    assert(chain_node_ok(a0, ord0, idx as int));
                }
                let curr = self.locate(idx);
                let node = free_slot(&mut self.arena, &mut self.free, curr);
                match node {
                    DNode::First { value, next } => {
                        proof {
                            assert(idx == 0);
                            assert(chain_node_ok(a0, ord0, 1));
                        }
                        slot_as_first(&mut self.arena, next);
                        self.ptr = DLPtr::Multi { head: next, tail };
                        let ghost new_ord = ord0.drop_first();
                        self.order = Ghost(new_ord);
                        self.length = self.length - 1;
                        proof {
                            let arena = self.arena@;
                            let ord = self.order@;
                            assert forall|i: int| 0 <= i < ord.len() implies #[trigger] chain_node_ok(
                                arena,
                                ord,
                                i,
                            ) by {
                                assert(chain_node_ok(a0, ord0, i + 1));
                                if i == 0 {
                                    assert(arena[ord[0] as int] == Some(
                                        slot_node(a0[ord0[1] as int]).spec_as_first(),
                                    ));
                                }
                            }
                            assert forall|i: int| 0 <= i < self@.len() implies self@[i] == old(
                                self,
                            )@.remove(0)[i] by {
                                assert(chain_node_ok(a0, ord0, i + 1));
                            }
                            assert(self@ =~= old(self)@.remove(0));
                        }
                        Some(value)
                    },
                    DNode::Body { value, next, prev } => {
                        proof {
                            assert(0 < idx < ord0.len() - 1);
                            assert(chain_node_ok(a0, ord0, idx - 1));
                            assert(chain_node_ok(a0, ord0, idx + 1));
                        }
                        slot_set_next(&mut self.arena, prev, next);
                        slot_set_prev(&mut self.arena, next, prev);
                        let ghost new_ord = ord0.remove(idx as int);
                        self.order = Ghost(new_ord);
                        self.length = self.length - 1;
                        proof {
                            ord0.remove_ensures(idx as int);
                            old(self)@.remove_ensures(idx as int);
                            let arena = self.arena@;
                            let ord = self.order@;
                            assert forall|i: int, j: int| 0 <= i < j < ord.len() implies ord[i]
                                != ord[j] by {
                                assert(ord[i] == (if i < idx {
                                    ord0[i]
                                } else {
                                    ord0[i + 1]
                                }));
                                assert(ord[j] == (if j < idx {
                                    ord0[j]
                                } else {
                                    ord0[j + 1]
                                }));
                            }
                            assert forall|i: int| 0 <= i < ord.len() implies #[trigger] chain_node_ok(
                                arena,
                                ord,
                                i,
                            ) by {
                                if i < idx - 1 {
                                    assert(chain_node_ok(a0, ord0, i));
                                } else if i == idx - 1 {
                                    assert(chain_node_ok(a0, ord0, i));
                                    assert(arena[ord[i] as int] == Some(
                                        slot_node(a0[ord0[i] as int]).spec_with_next(next),
                                    ));
                                } else if i == idx {
                                    assert(chain_node_ok(a0, ord0, i + 1));
                                    assert(arena[ord[i] as int] == Some(
                                        slot_node(a0[ord0[i + 1] as int]).spec_with_prev(prev),
                                    ));
                                } else {
                                    assert(chain_node_ok(a0, ord0, i + 1));
                                }
                            }
                            assert forall|i: int| 0 <= i < self@.len() implies self@[i] == old(
                                self,
                            )@.remove(idx as int)[i] by {
                                if i < idx {
                                    assert(chain_node_ok(a0, ord0, i));
                                } else {
                                    assert(chain_node_ok(a0, ord0, i + 1));
                                }
                            }
                            assert(self@ =~= old(self)@.remove(idx as int));
                        }
                        Some(value)
                    },
                    DNode::Last { value, prev } => {
                        proof {
                            assert(idx == ord0.len() - 1);
                            assert(chain_node_ok(a0, ord0, idx - 1));
                        }
                        slot_as_last(&mut self.arena, prev);
                        self.ptr = DLPtr::Multi { head, tail: prev };
                        let ghost new_ord = ord0.drop_last();
                        self.order = Ghost(new_ord);
                        self.length = self.length - 1;
                        proof {
                            let arena = self.arena@;
                            let ord = self.order@;
                            assert forall|i: int| 0 <= i < ord.len() implies #[trigger] chain_node_ok(
                                arena,
                                ord,
                                i,
                            ) by {
                                assert(chain_node_ok(a0, ord0, i));
                                if i == ord.len() - 1 {
                                    assert(arena[ord[i] as int] == Some(
                                        slot_node(a0[ord0[i] as int]).spec_as_last(),
                                    ));
                                }
                            }
                            assert forall|i: int| 0 <= i < self@.len() implies self@[i] == old(
                                self,
                            )@.remove(idx as int)[i] by {
                                assert(chain_node_ok(a0, ord0, i));
                            }
                            assert(self@ =~= old(self)@.remove(idx as int));
                        }
                        Some(value)
                    },
                }
            }
        }
    }

    /// Teardown: drain the container by removing the head element until
    /// nothing is left, so that every remaining node is reclaimed exactly
    /// once.  Run this before releasing the container.
    pub fn clear(&mut self)
        requires
            old(self).wf(),
        ensures
            final(self).wf(),
            final(self)@ == Seq::<T>::empty(),
    {
        while self.length > 0
            invariant
                self.wf(),
            decreases self@.len(),
        {
            proof {
                assert(self.length == self@.len());
            }
            let _ = self.remove_at(0);
        }
        proof {
            assert(self@ =~= Seq::<T>::empty());
        }
    }

    /// Look up the value at position `idx`, absent when `idx` is out of
    /// bounds.
    pub fn get(&self, idx: usize) -> (r: Option<&T>)
        requires
            self.wf(),
        ensures
            idx < self@.len() ==> r is Some && *r.unwrap() == self@[idx as int],
            idx >= self@.len() ==> r is None,
    {
        if idx >= self.length {
            return None;
        }
        match &self.ptr {
            DLPtr::Empty => unreached(),
            DLPtr::Unit { value } => Some(value),
            DLPtr::Multi { .. } => {
                let curr = self.locate(idx);
                proof {
                    assert(chain_node_ok(self.arena@, self.order@, idx as int));
                }
                match &self.arena[curr] {
                    Some(DNode::First { value, .. }) => Some(value),
                    Some(DNode::Body { value, .. }) => Some(value),
                    Some(DNode::Last { value, .. }) => Some(value),
                    None => unreached(),
                }
            },
        }
    }
}

/// A positional insert at a valid index places the value exactly there,
/// keeps every value before it in place, shifts every value from that
/// index on back by one, and grows the length by exactly one.  Together
/// with the contract of [`DLList::insert_at`] this pins down where each
/// value sits after an in-range insert.
pub proof fn lemma_insert_places_value<T>(s: Seq<T>, v: T, i: int)
    requires
        0 <= i <= s.len(),
    ensures
        s.insert(i, v).len() == s.len() + 1,
        s.insert(i, v)[i] == v,
        forall|j: int| 0 <= j < i ==> s.insert(i, v)[j] == s[j],
        forall|j: int| i <= j < s.len() ==> s.insert(i, v)[j + 1] == s[j],
{
    s.insert_ensures(i, v);
}

/// Removing at the front is first-in-first-out: the head value leaves
/// first and every remaining value moves up one place, keeping its order.
/// Together with the contract of [`DLList::remove_at`] this shows that
/// draining at index zero returns the values in the order they stand.
pub proof fn lemma_front_removal_keeps_order<T>(s: Seq<T>)
    requires
        s.len() > 0,
    ensures
        s.remove(0) == s.drop_first(),
        s.remove(0).len() == s.len() - 1,
        forall|j: int| 0 <= j < s.len() - 1 ==> s.remove(0)[j] == s[j + 1],
{
    s.remove_ensures(0);
    assert(s.remove(0) =~= s.drop_first());
}

/// A container whose length has returned to zero is indistinguishable
/// from a freshly constructed one: every operation's contract depends on
/// the abstract sequence alone, and both containers abstract to the empty
/// sequence, so no residual state can show through the interface.
pub proof fn lemma_emptied_matches_fresh<T>(drained: DLList<T>, fresh: DLList<T>)
    requires
        drained.wf(),
        drained@.len() == 0,
        fresh.wf(),
        fresh@.len() == 0,
    ensures
        drained@ == fresh@,
{
    assert(drained@ =~= fresh@);
}

} // verus!
