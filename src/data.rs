use vstd::prelude::*;
use crate::action::SpatialAction;
use crate::position::GraphPosition;

verus! {

/// A node of the A* graph.
#[derive(Debug, Copy, Clone)]
pub struct Node<P> {
    /// Accumulated cost from the start to this node.
    pub g_cost: u64,
    /// Heuristic estimate of the cost from this node to the goal.
    pub h_cost: u64,
    /// The node's position and the move that reached it.
    pub action: SpatialAction<P>,
    /// Index of the parent node in the visited store; `None` for the root.
    pub parent: Option<usize>,
    /// Slot of this node in the open set; `None` when the node is closed.
    pub heap_idx: Option<usize>,
    /// Handle of this node: its index in the visited store.
    pub id: usize,
}

/// Total estimated cost of a node, the open set's sort key.
pub open spec fn f_of<P>(n: Node<P>) -> int {
    n.g_cost + n.h_cost
}

/// A node with its open-set slot cleared.
pub open spec fn without_slot<P>(n: Node<P>) -> Node<P> {
    Node { heap_idx: None, ..n }
}

impl<P: Copy> Node<P> {
    /// The f-cost: g-cost plus h-cost.
    pub fn f_cost(&self) -> (r: u128)
        ensures
            r == f_of(*self),
    {
        self.g_cost as u128 + self.h_cost as u128
    }

    /// Whether this node occupies a slot of the open set.
    pub fn is_open(&self) -> (r: bool)
        ensures
            r == self.heap_idx is Some,
    {
        self.heap_idx.is_some()
    }
}

impl<P: GraphPosition> Node<P> {
    /// The root node at `start`: no parent, zero accumulated cost, the
    /// distance to `end` as its estimate, and the first handle.
    pub fn start_node(start: P, end: &P) -> (r: Self)
        ensures
            r.g_cost == 0,
            r.h_cost == start.spec_distance(*end),
            r.action == (SpatialAction { pos: start, edge: None }),
            r.parent is None,
            r.heap_idx is None,
            r.id == 0,
    {
        Node {
            g_cost: 0,
            h_cost: start.distance_to(end),
            action: SpatialAction::new_root(start),
            parent: None,
            heap_idx: None,
            id: 0,
        }
    }
}

/// A node on a found path: where it is, and which move reached it.
#[derive(Debug, Copy, Clone, PartialEq, Eq)]
pub struct PathNode<P> {
    pub action: SpatialAction<P>,
}

impl<P: Copy> PathNode<P> {
    pub fn new(action: SpatialAction<P>) -> (r: Self)
        ensures
            r.action == action,
    {
        PathNode { action }
    }
}

/// Multipliers for hazards in the pathing entity's way.
#[derive(Debug, Copy, Clone, PartialEq, Eq, Structural)]
pub struct HazardMultiplier {
    /// Unknown; could be any kind of object.
    pub unknown: u32,
    /// Non-solid obstacle that the entity can pass through.
    pub non_solid: u32,
    /// Solid obstacle that the entity cannot pass through.
    pub solid: u32,
    /// Dangerous obstacle that should be avoided.
    pub dangerous: u32,
}

impl HazardMultiplier {
    /// The default multipliers.
    pub fn new() -> (r: HazardMultiplier)
        ensures
            r.unknown == 10,
            r.non_solid == 21,
            r.solid == 10,
            r.dangerous == 50,
    {
        HazardMultiplier { unknown: 10, non_solid: 21, solid: 10, dangerous: 50 }
    }
}

/// Faults of the open set and of a search. Each one means that a caller broke
/// an invariant; none is a routine search outcome.
#[derive(Debug, Copy, Clone, PartialEq, Eq, Structural)]
pub enum PathingError {
    /// `pop` on an empty open set.
    EmptySet,
    /// Decrease-key on a node that has no open-set slot.
    ClosedNode,
    /// A node's slot does not hold that node.
    StaleSlot,
    /// Decrease-key with a cost higher than the stored one.
    CostIncreased,
    /// Insertion of a node whose handle is already in the open set.
    AlreadyOpen,
}

/// `n` is a least-cost node of `before`, and `after` is `before` without it.
pub open spec fn pops_min<P>(before: Map<usize, Node<P>>, n: Node<P>, after: Map<usize, Node<P>>) -> bool {
    &&& before.contains_key(n.id)
    &&& n == before[n.id]
    &&& after == before.remove(n.id)
    &&& forall|id: usize| #[trigger] before.contains_key(id) ==> f_of(n) <= f_of(before[id])
}

/// Popping twice yields f-costs in non-decreasing order.
pub proof fn lemma_pops_non_decreasing<P>(
    v0: Map<usize, Node<P>>,
    n1: Node<P>,
    v1: Map<usize, Node<P>>,
    n2: Node<P>,
    v2: Map<usize, Node<P>>,
)
    requires
        pops_min(v0, n1, v1),
        pops_min(v1, n2, v2),
    ensures
        f_of(n1) <= f_of(n2),
{
    assert(v0.contains_key(n2.id));
}

pub open spec fn parent_slot(i: int) -> int {
    (i - 1) / 2
}

/// `s` with the nodes at slots `a` and `b` exchanged, each recording its new
/// slot.
pub open spec fn swap_slots<P>(s: Seq<Node<P>>, a: int, b: int) -> Seq<Node<P>> {
    s.update(a, Node { heap_idx: Some(a as usize), ..s[b] }).update(
        b,
        Node { heap_idx: Some(b as usize), ..s[a] },
    )
}

/// `s` after the node at slot `i` moves up its parent path while its parent
/// costs strictly more.
pub open spec fn sifted_up<P>(s: Seq<Node<P>>, i: int) -> Seq<Node<P>>
    decreases i,
{
    if 0 < i < s.len() && f_of(s[i]) < f_of(s[parent_slot(i)]) {
        sifted_up(swap_slots(s, i, parent_slot(i)), parent_slot(i))
    } else {
        s
    }
}

/// The cheaper child of slot `i` (the left one on a tie).
pub open spec fn smaller_child<P>(s: Seq<Node<P>>, i: int) -> int {
    if 2 * i + 2 < s.len() && f_of(s[2 * i + 2]) < f_of(s[2 * i + 1]) {
        2 * i + 2
    } else {
        2 * i + 1
    }
}

/// `s` after the node at slot `i` moves down, each time towards its cheaper
/// child, while that child costs strictly less.
pub open spec fn sifted_down<P>(s: Seq<Node<P>>, i: int) -> Seq<Node<P>>
    decreases s.len() - i,
{
    if 0 <= i && 2 * i + 1 < s.len() && f_of(s[smaller_child(s, i)]) < f_of(s[i]) {
        sifted_down(swap_slots(s, i, smaller_child(s, i)), smaller_child(s, i))
    } else {
        s
    }
}

/// An open set backed by an implicit binary min-heap over f-costs. Each node
/// records its own slot, and a table maps each node handle to its slot, so
/// that a decrease-key finds its node without a scan.
pub struct BinaryHeapOpenSet<P> {
    data: Vec<Node<P>>,
    slots: Vec<Option<usize>>,
}

impl<P: Copy> BinaryHeapOpenSet<P> {
    /// The nodes in heap order.
    pub closed spec fn nodes(&self) -> Seq<Node<P>> {
        self.data@
    }

    pub closed spec fn slot_table(&self) -> Seq<Option<usize>> {
        self.slots@
    }

    /// Every stored node knows its slot, and the slot table agrees with it in
    /// both directions.
    pub closed spec fn linked(&self) -> bool {
        &&& forall|q: int|
            0 <= q < self.nodes().len() ==> {
                &&& (#[trigger] self.nodes()[q]).heap_idx is Some
                &&& self.nodes()[q].heap_idx.unwrap() == q
                &&& self.nodes()[q].id < self.slot_table().len()
                &&& self.slot_table()[self.nodes()[q].id as int] is Some
                &&& self.slot_table()[self.nodes()[q].id as int].unwrap() == q
            }
        &&& forall|i: int|
            0 <= i < self.slot_table().len() && (#[trigger] self.slot_table()[i]) is Some ==> {
                &&& self.slot_table()[i].unwrap() < self.nodes().len()
                &&& self.nodes()[self.slot_table()[i].unwrap() as int].id == i
            }
    }

    /// Every parent costs no more than its children.
    pub closed spec fn ordered(&self) -> bool {
        forall|q: int|
            0 < q < self.nodes().len() ==> f_of(self.nodes()[parent_slot(q)]) <= f_of(
                #[trigger] self.nodes()[q],
            )
    }

    pub closed spec fn wf(&self) -> bool {
        self.linked() && self.ordered()
    }

    /// Whether the node with handle `id` is open.
    pub open spec fn has(&self, id: usize) -> bool {
        id < self.slot_table().len() && self.slot_table()[id as int] is Some
    }

    /// The open nodes by handle, slots cleared.
    pub open spec fn view(&self) -> Map<usize, Node<P>> {
        Map::new(
            |id: usize| self.has(id),
            |id: usize| without_slot(self.nodes()[self.slot_table()[id as int].unwrap() as int]),
        )
    }

    pub fn new() -> (r: Self)
        ensures
            r.wf(),
            r.nodes().len() == 0,
            r.view() == Map::<usize, Node<P>>::empty(),
    {
        let r = BinaryHeapOpenSet { data: Vec::new(), slots: Vec::new() };
        assert(r.view() =~= Map::<usize, Node<P>>::empty());
        r
    }

    proof fn lemma_root_is_min(&self, q: int)
        requires
            self.ordered(),
            0 <= q < self.nodes().len(),
        ensures
            f_of(self.nodes()[0]) <= f_of(self.nodes()[q]),
        decreases q,
    {
        if q > 0 {
            self.lemma_root_is_min(parent_slot(q));
        }
    }

    /// Exchanges the nodes at slots `a` and `b`, keeping every link.
    #[verifier::rlimit(60)]
    fn swap_idx(&mut self, a: usize, b: usize)
        requires
            old(self).linked(),
            a < old(self).nodes().len(),
            b < old(self).nodes().len(),
        ensures
            final(self).linked(),
            final(self).view() == old(self).view(),
            final(self).nodes().len() == old(self).nodes().len(),
            final(self).slot_table().len() == old(self).slot_table().len(),
            final(self).nodes() == swap_slots(old(self).nodes(), a as int, b as int),
    {
        let na = self.data[a];
        let nb = self.data[b];
        self.data.set(a, Node { heap_idx: Some(a), ..nb });
        self.data.set(b, Node { heap_idx: Some(b), ..na });
        self.slots.set(nb.id, Some(a));
        self.slots.set(na.id, Some(b));
        assert(na == old(self).nodes()[a as int]);
        assert(nb == old(self).nodes()[b as int]);
        assert(old(self).slot_table()[na.id as int] == Some(a));
        assert(old(self).slot_table()[nb.id as int] == Some(b));
        assert(a != b ==> na.id != nb.id);
        assert forall|q: int| 0 <= q < self.nodes().len() implies {
            &&& (#[trigger] self.nodes()[q]).heap_idx is Some
            &&& self.nodes()[q].heap_idx.unwrap() == q
            &&& self.nodes()[q].id < self.slot_table().len()
            &&& self.slot_table()[self.nodes()[q].id as int] is Some
            &&& self.slot_table()[self.nodes()[q].id as int].unwrap() == q
        } by {
            if q != a && q != b {
                assert(old(self).nodes()[q] == self.nodes()[q]);
                assert(old(self).nodes()[a as int].heap_idx == Some(a));
                assert(old(self).nodes()[b as int].heap_idx == Some(b));
                assert(old(self).nodes()[q].id != na.id);
                assert(old(self).nodes()[q].id != nb.id);
            }
        }
        assert forall|i: int|
            0 <= i < self.slot_table().len() && (#[trigger] self.slot_table()[i]) is Some implies {
            &&& self.slot_table()[i].unwrap() < self.nodes().len()
            &&& self.nodes()[self.slot_table()[i].unwrap() as int].id == i
        } by {
            if i != na.id && i != nb.id {
                assert(self.slot_table()[i] == old(self).slot_table()[i]);
                let q = old(self).slot_table()[i].unwrap() as int;
                assert(old(self).nodes()[q].id == i);
            }
        }
        assert(self.view() =~= old(self).view());
    }

    /// The slot of the node with handle `id`, if it is open.
    pub open spec fn slot_of(&self, id: usize) -> Option<usize> {
        if id < self.slot_table().len() {
            self.slot_table()[id as int]
        } else {
            None
        }
    }

    /// Moves the node at `i0` towards the root until its parent is no
    /// more costly. Everything else must already be in heap order.
    #[verifier::rlimit(60)]
    fn sift_up_from(&mut self, i0: usize)
        requires
            old(self).linked(),
            i0 < old(self).nodes().len(),
            forall|q: int|
                0 < q < old(self).nodes().len() && q != i0 ==> f_of(
                    old(self).nodes()[parent_slot(q)],
                ) <= f_of(#[trigger] old(self).nodes()[q]),
            i0 > 0 ==> forall|c: int|
                0 < c < old(self).nodes().len() && parent_slot(c) == i0 ==> f_of(
                    old(self).nodes()[parent_slot(i0 as int)],
                ) <= f_of(#[trigger] old(self).nodes()[c]),
        ensures
            final(self).wf(),
            final(self).view() == old(self).view(),
            final(self).nodes().len() == old(self).nodes().len(),
            final(self).slot_table().len() == old(self).slot_table().len(),
            final(self).nodes() == sifted_up(old(self).nodes(), i0 as int),
    {
        let mut i = i0;
        while i > 0 && self.data[i].f_cost() < self.data[(i - 1) / 2].f_cost()
            invariant
                self.linked(),
                i < self.nodes().len(),
                self.view() == old(self).view(),
                self.nodes().len() == old(self).nodes().len(),
                self.slot_table().len() == old(self).slot_table().len(),
                sifted_up(self.nodes(), i as int) == sifted_up(old(self).nodes(), i0 as int),
                forall|q: int|
                    0 < q < self.nodes().len() && q != i ==> f_of(self.nodes()[parent_slot(q)])
                        <= f_of(#[trigger] self.nodes()[q]),
                i > 0 ==> forall|c: int|
                    0 < c < self.nodes().len() && parent_slot(c) == i ==> f_of(
                        self.nodes()[parent_slot(i as int)],
                    ) <= f_of(#[trigger] self.nodes()[c]),
            decreases i,
        {
            let p = (i - 1) / 2;
            proof {
                let gp = parent_slot(p as int);
                if p > 0 {
                    assert(f_of(self.nodes()[gp]) <= f_of(self.nodes()[p as int]));
                }
            }
            self.swap_idx(i, p);
            i = p;
        }
    }

    /// Moves the node at `i0` away from the root until no child is cheaper.
    /// Everything else must already be in heap order.
    #[verifier::rlimit(60)]
    fn sift_down_from(&mut self, i0: usize)
        requires
            old(self).linked(),
            i0 < old(self).nodes().len(),
            forall|q: int|
                0 < q < old(self).nodes().len() && parent_slot(q) != i0 ==> f_of(
                    old(self).nodes()[parent_slot(q)],
                ) <= f_of(#[trigger] old(self).nodes()[q]),
            i0 > 0 ==> forall|c: int|
                0 < c < old(self).nodes().len() && parent_slot(c) == i0 ==> f_of(
                    old(self).nodes()[parent_slot(i0 as int)],
                ) <= f_of(#[trigger] old(self).nodes()[c]),
        ensures
            final(self).wf(),
            final(self).view() == old(self).view(),
            final(self).nodes().len() == old(self).nodes().len(),
            final(self).slot_table().len() == old(self).slot_table().len(),
            final(self).nodes() == sifted_down(old(self).nodes(), i0 as int),
    {
        let size = self.data.len();
        let mut i = i0;
        let mut done = false;
        while !done
            invariant
                self.linked(),
                size == self.nodes().len(),
                i < size,
                self.view() == old(self).view(),
                self.slot_table().len() == old(self).slot_table().len(),
                !done ==> sifted_down(self.nodes(), i as int) == sifted_down(old(self).nodes(), i0 as int),
                done ==> self.nodes() == sifted_down(old(self).nodes(), i0 as int),
                forall|q: int|
                    0 < q < size && (parent_slot(q) != i || done) ==> f_of(
                        self.nodes()[parent_slot(q)],
                    ) <= f_of(#[trigger] self.nodes()[q]),
                i > 0 ==> forall|c: int|
                    0 < c < size && parent_slot(c) == i ==> f_of(
                        self.nodes()[parent_slot(i as int)],
                    ) <= f_of(#[trigger] self.nodes()[c]),
            decreases size - i, if done { 0int } else { 1int },
        {
            if i >= size / 2 {
                done = true;
            } else {
                let left = 2 * i + 1;
                let mut child = left;
                if left + 1 < size && self.data[left + 1].f_cost() < self.data[left].f_cost() {
                    child = left + 1;
                }
                assert(parent_slot(left as int) == i);
                assert(parent_slot(left + 1) == i);
                assert(child == smaller_child(self.nodes(), i as int));
                if self.data[child].f_cost() < self.data[i].f_cost() {
                    self.swap_idx(i, child);
                    i = child;
                } else {
                    done = true;
                }
            }
        }
    }

    /// Extends the slot table with empty entries so that it covers `id`.
    #[verifier::rlimit(60)]
    fn grow_slots(&mut self, id: usize)
        requires
            old(self).wf(),
            id < usize::MAX,
        ensures
            final(self).wf(),
            final(self).nodes() == old(self).nodes(),
            final(self).view() == old(self).view(),
            id < final(self).slot_table().len(),
            !old(self).has(id) ==> final(self).slot_table()[id as int] is None,
    {
        while self.slots.len() <= id
            invariant
                self.linked(),
                self.wf(),
                self.nodes() == old(self).nodes(),
                self.view() == old(self).view(),
                old(self).slot_table().len() <= self.slot_table().len(),
                self.slot_table().len() > id + 1 ==> self.slot_table().len() == old(self).slot_table().len(),
                forall|i: int|
                    old(self).slot_table().len() <= i < self.slot_table().len()
                        ==> #[trigger] self.slot_table()[i] is None,
                self.slot_table().subrange(0, old(self).slot_table().len() as int)
                    == old(self).slot_table(),
                !old(self).has(id) ==> (id < self.slot_table().len() ==> self.slot_table()[id as int] is None),
            decreases id + 1 - self.slot_table().len(),
        {
            let ghost before = self.slot_table();
            self.slots.push(None);
            assert(self.slot_table().subrange(0, before.len() as int) == before);
            assert(self.view() =~= old(self).view());
        }
    }

    /// Stores `node` in a new last slot.
    #[verifier::rlimit(60)]
    fn append(&mut self, node: Node<P>)
        requires
            old(self).wf(),
            old(self).nodes().len() < usize::MAX,
            node.id < old(self).slot_table().len(),
            old(self).slot_table()[node.id as int] is None,
        ensures
            final(self).linked(),
            final(self).nodes() == old(self).nodes().push(
                Node { heap_idx: Some(old(self).nodes().len() as usize), ..node },
            ),
            final(self).view() == old(self).view().insert(node.id, without_slot(node)),
            final(self).slot_table().len() == old(self).slot_table().len(),
            forall|q: int|
                0 < q < final(self).nodes().len() && q != old(self).nodes().len() ==> f_of(
                    final(self).nodes()[parent_slot(q)],
                ) <= f_of(#[trigger] final(self).nodes()[q]),
    {
        assert(self.slot_table()[node.id as int] is None);
        let s = self.data.len();
        let ghost v0 = self.view();
        self.data.push(Node { heap_idx: Some(s), ..node });
        self.slots.set(node.id, Some(s));
        assert forall|i: int|
            0 <= i < self.slot_table().len() && (#[trigger] self.slot_table()[i]) is Some implies {
            &&& self.slot_table()[i].unwrap() < self.nodes().len()
            &&& self.nodes()[self.slot_table()[i].unwrap() as int].id == i
        } by {
            if i != node.id {
                let q = self.slot_table()[i].unwrap() as int;
                assert(q < s);
            }
        }
        assert(self.view() =~= v0.insert(node.id, without_slot(node)));
        let ghost d = self.nodes();
        assert forall|q: int|
            0 < q < self.nodes().len() && q != s implies f_of(self.nodes()[parent_slot(q)])
            <= f_of(#[trigger] self.nodes()[q]) by {
            assert(d[q] == old(self).nodes()[q]);
            assert(d[parent_slot(q)] == old(self).nodes()[parent_slot(q)]);
        }
    }

    /// Adds `node` to the open set at the end of the heap, then sifts it up.
    /// Fails when a node with the same handle is already open.
    #[verifier::rlimit(60)]
    pub fn insert(&mut self, node: Node<P>) -> (r: Result<(), PathingError>)
        requires
            old(self).wf(),
            old(self).nodes().len() < usize::MAX,
            node.id < usize::MAX,
        ensures
            final(self).wf(),
            r is Err <==> old(self).view().contains_key(node.id),
            r is Err ==> r == Err::<(), PathingError>(PathingError::AlreadyOpen) && *final(self)
                == *old(self),
            r is Ok ==> final(self).view() == old(self).view().insert(node.id, without_slot(node)),
            r is Ok ==> final(self).nodes().len() == old(self).nodes().len() + 1,
            r is Ok ==> final(self).nodes() == sifted_up(
                old(self).nodes().push(Node { heap_idx: Some(old(self).nodes().len() as usize), ..node }),
                old(self).nodes().len() as int,
            ),
    {
        if node.id < self.slots.len() && self.slots[node.id].is_some() {
            return Err(PathingError::AlreadyOpen);
        }
        self.grow_slots(node.id);
        let s = self.data.len();
        self.append(node);
        self.sift_up_from(s);
        Ok(())
    }

    /// Decrease-key: stores `node`, whose slot and handle must match an open
    /// node and whose f-cost must not exceed the stored one, then sifts it up.
    #[verifier::rlimit(60)]
    pub fn sift_up(&mut self, node: &Node<P>) -> (r: Result<(), PathingError>)
        requires
            old(self).wf(),
        ensures
            final(self).wf(),
            r is Ok <==> node.heap_idx is Some && old(self).slot_of(node.id) == node.heap_idx
                && f_of(*node) <= f_of(old(self).view()[node.id]),
            r == Err::<(), PathingError>(PathingError::ClosedNode) <==> node.heap_idx is None,
            r == Err::<(), PathingError>(PathingError::StaleSlot) <==> node.heap_idx is Some
                && old(self).slot_of(node.id) != node.heap_idx,
            r == Err::<(), PathingError>(PathingError::CostIncreased) <==> node.heap_idx is Some
                && old(self).slot_of(node.id) == node.heap_idx && f_of(*node) > f_of(
                old(self).view()[node.id],
            ),
            r is Err ==> *final(self) == *old(self),
            r is Ok ==> final(self).view() == old(self).view().insert(node.id, without_slot(*node)),
            final(self).nodes().len() == old(self).nodes().len(),
            r is Ok ==> final(self).nodes() == sifted_up(
                old(self).nodes().update(node.heap_idx.unwrap() as int, *node),
                node.heap_idx.unwrap() as int,
            ),
            r is Ok && *node == old(self).nodes()[node.heap_idx.unwrap() as int] ==> final(self).nodes()
                == old(self).nodes(),
    {
        let s = match node.heap_idx {
            None => {
                return Err(PathingError::ClosedNode);
            },
            Some(s) => s,
        };
        if s >= self.data.len() || self.data[s].id != node.id {
            proof {
                if node.id < self.slot_table().len() && self.slot_table()[node.id as int] is Some {
                    let q = self.slot_table()[node.id as int].unwrap() as int;
                    assert(self.nodes()[q].id == node.id);
                }
            }
            return Err(PathingError::StaleSlot);
        }
        assert(self.nodes()[s as int].heap_idx.unwrap() == s);
        assert(self.slot_of(node.id) == Some(s));
        if node.f_cost() > self.data[s].f_cost() {
            return Err(PathingError::CostIncreased);
        }
        let ghost v0 = self.view();
        let ghost d0 = self.nodes();
        self.data.set(s, Node { heap_idx: Some(s), ..*node });
        assert(self.nodes() == d0.update(s as int, *node));
        assert(self.view() =~= v0.insert(node.id, without_slot(*node)));
        proof {
            if *node == d0[s as int] {
                assert(self.nodes() =~= d0);
                if s > 0 {
                    assert(f_of(d0[parent_slot(s as int)]) <= f_of(d0[s as int]));
                }
                assert(sifted_up(d0, s as int) == d0);
            }
        }
        assert forall|q: int|
            0 < q < self.nodes().len() && q != s implies f_of(self.nodes()[parent_slot(q)])
            <= f_of(#[trigger] self.nodes()[q]) by {
            assert(f_of(d0[parent_slot(q)]) <= f_of(d0[q]));
        }
        if s > 0 {
            assert forall|c: int|
                0 < c < self.nodes().len() && parent_slot(c) == s implies f_of(
                    self.nodes()[parent_slot(s as int)],
                ) <= f_of(#[trigger] self.nodes()[c]) by {
                assert(f_of(d0[parent_slot(s as int)]) <= f_of(d0[s as int]));
                assert(f_of(d0[s as int]) <= f_of(d0[c]));
            }
        }
        self.sift_up_from(s);
        Ok(())
    }

    /// Whether the open set holds no node.
    pub fn is_empty(&self) -> (r: bool)
        requires
            self.wf(),
        ensures
            r == (self.view() == Map::<usize, Node<P>>::empty()),
            r == (self.nodes().len() == 0),
    {
        proof { self.lemma_empty_iff(); }
        self.data.len() == 0
    }

    /// Removes the root node, moving the last node into its slot. Heap
    /// order then holds everywhere but below the root.
    #[verifier::rlimit(60)]
    fn take_root(&mut self) -> (r: Node<P>)
        requires
            old(self).wf(),
            old(self).nodes().len() > 0,
        ensures
            final(self).linked(),
            r == without_slot(old(self).nodes()[0]),
            final(self).nodes() == swap_slots(old(self).nodes(), 0, old(self).nodes().len() - 1).drop_last(),
            final(self).view() == old(self).view().remove(r.id),
            final(self).nodes().len() == old(self).nodes().len() - 1,
            forall|q: int|
                0 < q < final(self).nodes().len() && parent_slot(q) != 0 ==> f_of(
                    final(self).nodes()[parent_slot(q)],
                ) <= f_of(#[trigger] final(self).nodes()[q]),
    {
        let last = self.data.len() - 1;
        let ghost v0 = self.view();
        let ghost d0 = self.nodes();
        self.swap_idx(0, last);
        let ghost d1 = self.nodes();
        let top = self.data.pop().unwrap();
        self.slots.set(top.id, None);
        let lowest = Node { heap_idx: None, ..top };
        assert(lowest == without_slot(d0[0]));
        assert forall|i: int|
            0 <= i < self.slot_table().len() && (#[trigger] self.slot_table()[i]) is Some implies {
            &&& self.slot_table()[i].unwrap() < self.nodes().len()
            &&& self.nodes()[self.slot_table()[i].unwrap() as int].id == i
        } by {
            let q = self.slot_table()[i].unwrap() as int;
            assert(d1[q].id == i);
            assert(d1[last as int].id == top.id);
        }
        assert(self.linked());
        assert(self.view() =~= v0.remove(lowest.id));
        assert forall|q: int|
            0 < q < self.nodes().len() && parent_slot(q) != 0 implies f_of(
                self.nodes()[parent_slot(q)],
            ) <= f_of(#[trigger] self.nodes()[q]) by {
            assert(self.nodes()[q] == d1[q]);
            assert(f_of(d0[parent_slot(q)]) <= f_of(d0[q]));
        }
        lowest
    }

    /// Removes and returns a node of least f-cost, its slot cleared, and
    /// restores heap order by sifting the last node down from the root.
    #[verifier::rlimit(60)]
    pub fn pop(&mut self) -> (r: Result<Node<P>, PathingError>)
        requires
            old(self).wf(),
        ensures
            final(self).wf(),
            r is Err <==> old(self).view() == Map::<usize, Node<P>>::empty(),
            r is Err ==> r == Err::<Node<P>, PathingError>(PathingError::EmptySet) && *final(self)
                == *old(self),
            r matches Ok(n) ==> pops_min(old(self).view(), n, final(self).view()),
            r matches Ok(n) ==> n == without_slot(old(self).nodes()[0]),
            r is Ok ==> final(self).nodes().len() == old(self).nodes().len() - 1,
            r is Ok ==> final(self).nodes() == sifted_down(
                swap_slots(old(self).nodes(), 0, old(self).nodes().len() - 1).drop_last(),
                0,
            ),
    {
        proof { self.lemma_empty_iff(); }
        if self.data.len() == 0 {
            return Err(PathingError::EmptySet);
        }
        let ghost v0 = self.view();
        let ghost d0 = self.nodes();
        proof {
            assert forall|id: usize| #[trigger] v0.contains_key(id) implies f_of(d0[0]) <= f_of(
                v0[id],
            ) by {
                self.lemma_root_is_min(self.slot_table()[id as int].unwrap() as int);
            }
        }
        let lowest = self.take_root();
        if self.data.len() > 1 {
            self.sift_down_from(0);
        }
        Ok(lowest)
    }

    proof fn lemma_empty_iff(&self)
        requires
            self.linked(),
        ensures
            (self.nodes().len() == 0) == (self.view() == Map::<usize, Node<P>>::empty()),
    {
        if self.nodes().len() == 0 {
            assert(self.view() =~= Map::<usize, Node<P>>::empty());
        } else {
            assert(self.view().contains_key(self.nodes()[0].id));
        }
    }

    /// Empties the open set.
    pub fn clear(&mut self)
        ensures
            final(self).wf(),
            final(self).view() == Map::<usize, Node<P>>::empty(),
            final(self).nodes().len() == 0,
    {
        self.data.clear();
        self.slots.clear();
        assert(self.view() =~= Map::<usize, Node<P>>::empty());
    }

    /// The node at slot `idx`, or `None` past the end.
    pub fn get(&self, idx: usize) -> (r: Option<&Node<P>>)
        ensures
            idx < self.nodes().len() ==> r == Some(&self.nodes()[idx as int]),
            idx >= self.nodes().len() ==> r is None,
    {
        if idx < self.data.len() {
            Some(&self.data[idx])
        } else {
            None
        }
    }

    /// The f-costs in slot order.
    pub fn cost_order(&self) -> (r: Vec<u128>)
        ensures
            r@.len() == self.nodes().len(),
            forall|i: int| 0 <= i < r@.len() ==> #[trigger] r@[i] == f_of(self.nodes()[i]),
    {
        let mut out: Vec<u128> = Vec::new();
        let mut i: usize = 0;
        while i < self.data.len()
            invariant
                i <= self.nodes().len(),
                out@.len() == i,
                forall|k: int| 0 <= k < i ==> #[trigger] out@[k] == f_of(self.nodes()[k]),
            decreases self.nodes().len() - i,
        {
            out.push(self.data[i].f_cost());
            i = i + 1;
        }
        out
    }

    /// Number of open nodes.
    pub fn len(&self) -> (r: usize)
        ensures
            r == self.nodes().len(),
    {
        self.data.len()
    }

    /// The slot of the open node with handle `id`, if it is open.
    pub fn slot(&self, id: usize) -> (r: Option<usize>)
        requires
            self.wf(),
        ensures
            r == self.slot_of(id),
            r is Some <==> self.view().contains_key(id),
    {
        if id < self.slots.len() {
            self.slots[id]
        } else {
            None
        }
    }

    /// In a well-formed open set the f-costs in slot order form a min-heap:
    /// no parent costs more than a child, and the root is a least cost.
    pub proof fn lemma_cost_order_is_heap(&self, costs: Seq<u128>)
        requires
            self.wf(),
            costs.len() == self.nodes().len(),
            forall|i: int| 0 <= i < costs.len() ==> #[trigger] costs[i] == f_of(self.nodes()[i]),
        ensures
            forall|i: int| 0 < i < costs.len() ==> costs[(i - 1) / 2] <= #[trigger] costs[i],
            forall|i: int| 0 <= i < costs.len() ==> costs[0] <= #[trigger] costs[i],
    {
        assert forall|i: int| 0 < i < costs.len() implies costs[(i - 1) / 2] <= #[trigger] costs[i] by {
            assert(f_of(self.nodes()[parent_slot(i)]) <= f_of(self.nodes()[i]));
        }
        assert forall|i: int| 0 <= i < costs.len() implies costs[0] <= #[trigger] costs[i] by {
            self.lemma_root_is_min(i);
        }
    }

    /// Every open node is found through its handle, at the slot it records.
    pub proof fn lemma_reachable_by_handle(&self, id: usize)
        requires
            self.wf(),
            self.view().contains_key(id),
        ensures
            self.slot_of(id) is Some,
            self.slot_of(id).unwrap() < self.nodes().len(),
            self.nodes()[self.slot_of(id).unwrap() as int].heap_idx == self.slot_of(id),
            without_slot(self.nodes()[self.slot_of(id).unwrap() as int]) == self.view()[id],
    {
        let q = self.slot_of(id).unwrap() as int;
        assert(self.nodes()[q].heap_idx.unwrap() == q);
    }
}

} // verus!
