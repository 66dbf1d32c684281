use vstd::prelude::*;
use dashmap::DashMap;
use crate::action::{MoveAction, SpatialAction};
use crate::config::Configuration;
use crate::data::{BinaryHeapOpenSet, Node, PathNode, PathingError, f_of, pops_min};
use crate::math::lemma_digits_unique;
use crate::position::{GraphPosition, pack_bound};
use crate::visited::{stored_entries, store_clear, store_get, store_insert, store_new};
use crate::world::Space;
use std::time::Instant;

verus! {

/// Least drop in accumulated cost, in hundredths of a unit, for a cheaper
/// route to replace a known one; smaller drops are noise.
pub const MINIMUM_IMPROVEMENT: u64 = 1;

/// Largest moveset that node identities can tell apart.
pub const MAX_MOVES: usize = 0xFFFF_FFFE;

/// The edge of an identity as a number: zero for the start, one more than
/// the move's index otherwise.
pub open spec fn edge_slot(e: Option<usize>) -> nat {
    match e {
        Some(i) => (i + 1) as nat,
        None => 0,
    }
}

/// The visited-store key of a node identity: the packed position, and above
/// it the edge.
pub open spec fn identity_key<P: GraphPosition>(a: SpatialAction<P>) -> nat {
    a.pos.spec_pack() + edge_slot(a.edge) * pack_bound()
}

fn key_of<P: GraphPosition>(a: &SpatialAction<P>) -> (r: u128)
    requires
        a.edge is Some ==> a.edge.unwrap() < MAX_MOVES,
    ensures
        r == identity_key(*a),
{
    let lo = a.pos.pack();
    let slot: u128 = match a.edge {
        Some(i) => i as u128 + 1,
        None => 0,
    };
    assert(lo + slot * pack_bound() < 0x1_0000_0000_0000_0000_0000_0000_0000_0000) by (nonlinear_arith)
        requires
            lo < pack_bound(),
            slot < 0xFFFF_FFFF,
            pack_bound() == 0x1_0000_0000_0000_0000_0000_0000nat,
    ;
    lo + slot * 0x1_0000_0000_0000_0000_0000_0000u128
}

proof fn lemma_identity_key_injective<P: GraphPosition>(a: SpatialAction<P>, b: SpatialAction<P>)
    requires
        identity_key(a) == identity_key(b),
    ensures
        a == b,
{
    let pa = a.pos.spec_pack();
    let pb = b.pos.spec_pack();
    assert(pa < pack_bound() && pb < pack_bound()) by {
        a.pos.lemma_pack_bound();
        b.pos.lemma_pack_bound();
    }
    lemma_digits_unique(pa, edge_slot(a.edge), pb, edge_slot(b.edge), pack_bound());
    P::lemma_pack_injective(a.pos, b.pos);
}

/// The step from `prev` to `next` follows a move of `moves`.
pub open spec fn valid_step<P: GraphPosition>(
    moves: Seq<MoveAction<P>>,
    prev: SpatialAction<P>,
    next: SpatialAction<P>,
) -> bool {
    &&& next.edge is Some
    &&& next.edge.unwrap() < moves.len()
    &&& next.pos == prev.pos.spec_offset(moves[next.edge.unwrap() as int].offset)
}

/// What entering `a` costs: its move's cost and the cost of occupying its
/// position. Entering the start costs nothing.
pub open spec fn step_cost<P: GraphPosition, S: Space<P>>(
    moves: Seq<MoveAction<P>>,
    space: S,
    a: SpatialAction<P>,
) -> nat {
    match a.edge {
        Some(e) => moves[e as int].cost as nat + space.spec_cost(a.pos),
        None => 0,
    }
}

/// Total cost of a path: the costs of entering each node after the first.
pub open spec fn route_cost<P: GraphPosition, S: Space<P>>(
    moves: Seq<MoveAction<P>>,
    space: S,
    path: Seq<PathNode<P>>,
) -> nat
    decreases path.len(),
{
    if path.len() <= 1 {
        0
    } else {
        route_cost(moves, space, path.drop_last()) + step_cost(moves, space, path.last().action)
    }
}

/// `path` runs from the start identity at `start` to a node at `end`, each
/// step following a move of `moves`.
pub open spec fn is_route<P: GraphPosition>(
    moves: Seq<MoveAction<P>>,
    path: Seq<PathNode<P>>,
    start: P,
    end: P,
) -> bool {
    &&& path.len() > 0
    &&& path[0].action == SpatialAction { pos: start, edge: None }
    &&& path.last().action.pos == end
    &&& forall|k: int|
        0 <= k < path.len() - 1 ==> valid_step(moves, path[k].action, #[trigger] path[k + 1].action)
}

/// `chain` lists handles of `visited` along parent links from a root (no
/// parent) to `goal`, and `path` holds the identities of those nodes.
pub open spec fn chain_fits<P>(visited: Seq<Node<P>>, goal: int, path: Seq<PathNode<P>>, chain: Seq<int>) -> bool {
    &&& chain.len() == path.len()
    &&& chain.len() > 0
    &&& chain.last() == goal
    &&& forall|j: int|
        0 <= j < chain.len() ==> 0 <= #[trigger] chain[j] < visited.len() && path[j].action
            == visited[chain[j]].action
    &&& visited[chain[0]].parent is None
    &&& forall|j: int| 0 < j < chain.len() ==> visited[#[trigger] chain[j]].parent == Some(chain[j - 1] as usize)
}

/// `path` is the parent chain of node `goal` in `visited`, root first and
/// `goal` last.
pub open spec fn is_parent_chain<P>(visited: Seq<Node<P>>, goal: int, path: Seq<PathNode<P>>) -> bool {
    exists|chain: Seq<int>| #[trigger] chain_fits(visited, goal, path, chain)
}

/// A* path search state over positions `P` in a space `S`.
pub struct PathCalculator<P, S> {
    /// The frontier: known nodes not yet expanded.
    open_set: BinaryHeapOpenSet<P>,
    /// Node identity keys to indices into `nodes`.
    closed_set: DashMap<u128, usize>,
    /// Every node seen in this search, open or closed, by handle.
    nodes: Vec<Node<P>>,
    /// The moves the pathing entity may take.
    moves: Vec<MoveAction<P>>,
    /// The space the search samples costs from.
    space: S,
    config: Configuration,
    /// When each node's cost was last set, in relaxation order.
    stamps: Ghost<Seq<nat>>,
    /// The next stamp.
    clock: Ghost<nat>,
    /// Start of the current search.
    origin: Ghost<P>,
    /// Goal of the current search.
    target: Ghost<P>,
}

/// What one step of a search did.
pub enum SearchStep<P> {
    /// The open set was empty: the goal cannot be reached.
    Exhausted,
    /// The popped node is at the goal; the path leads from the start to it.
    Found(Node<P>, Vec<PathNode<P>>),
    /// The popped node was expanded along every move.
    Expanded(Node<P>),
    /// A store ran full while the popped node was expanded.
    Full(Node<P>),
}

/// Whether a search that has run `elapsed_millis` has used up a budget of
/// `timeout_millis`.
pub fn over_budget(elapsed_millis: u128, timeout_millis: u64) -> (r: bool)
    ensures
        r == (elapsed_millis > timeout_millis),
{
    elapsed_millis > timeout_millis as u128
}

/// The identity that move `a` reaches from `pos`.
pub open spec fn neighbor<P: GraphPosition>(moves: Seq<MoveAction<P>>, pos: P, a: int) -> SpatialAction<P> {
    SpatialAction { pos: pos.spec_offset(moves[a].offset), edge: Some(a as usize) }
}

/// `n` is among the least-cost nodes of `open`.
pub open spec fn least_of<P>(open: Map<usize, Node<P>>, n: Node<P>) -> bool {
    &&& open.contains_key(n.id)
    &&& n == open[n.id]
    &&& forall|id: usize| #[trigger] open.contains_key(id) ==> f_of(n) <= f_of(open[id])
}

/// Every neighbor of `n` is in `visited` at a cost no more than the route
/// through `n` plus the minimum improvement.
pub open spec fn relaxed_through<P: GraphPosition, S: Space<P>>(
    moves: Seq<MoveAction<P>>,
    space: S,
    visited: Seq<Node<P>>,
    n: Node<P>,
) -> bool {
    forall|a: int|
        0 <= a < moves.len() ==> exists|j: int|
            0 <= j < visited.len() && (#[trigger] visited[j]).action == neighbor(
                moves,
                n.action.pos,
                a,
            ) && visited[j].g_cost <= n.g_cost + (#[trigger] moves[a]).cost + space.spec_cost(
                neighbor(moves, n.action.pos, a).pos,
            ) + MINIMUM_IMPROVEMENT}

impl<P: GraphPosition, S: Space<P>> PathCalculator<P, S> {
    pub closed spec fn moves(&self) -> Seq<MoveAction<P>> {
        self.moves@
    }

    pub closed spec fn space(&self) -> S {
        self.space
    }

    pub closed spec fn config(&self) -> Configuration {
        self.config
    }

    /// Start of the current search.
    pub closed spec fn origin(&self) -> P {
        self.origin@
    }

    /// Goal of the current search.
    pub closed spec fn target(&self) -> P {
        self.target@
    }

    /// A search from `origin()` to `target()` is under way, in a consistent
    /// state.
    pub closed spec fn searching(&self) -> bool {
        self.inv(self.origin@, self.target@)
    }

    /// Every closed node of finite cost has been expanded at its current
    /// cost, and none is at the goal.
    pub closed spec fn closed_expanded(&self) -> bool {
        forall|i: int|
            0 <= i < self.nodes@.len() && self.g(i) < self.config.cost_inf
                && !self.open_set.view().contains_key(i as usize) ==> {
                &&& relaxed_through(self.moves@, self.space, self.nodes@, #[trigger] self.nodes@[i])
                &&& self.nodes@[i].action.pos != self.target@
            }
    }

    /// Number of slots the open set fills.
    pub closed spec fn open_size(&self) -> nat {
        self.open_set.nodes().len()
    }

    /// The open nodes, by handle.
    pub closed spec fn open_nodes(&self) -> Map<usize, Node<P>> {
        self.open_set.view()
    }

    /// The visited store's keys and the handles they lead to.
    pub closed spec fn stored(&self) -> Map<u128, usize> {
        stored_entries(self.closed_set)
    }

    /// The nodes of the visited store, by handle.
    pub closed spec fn visited(&self) -> Seq<Node<P>> {
        self.nodes@
    }

    spec fn g(&self, i: int) -> int {
        self.nodes@[i].g_cost as int
    }

    spec fn entering(&self, i: int) -> nat {
        step_cost(self.moves@, self.space, self.nodes@[i].action)
    }

    /// Node `i` took the route through node `cur` of cost `cg`: its cost is
    /// that route's, lower than `prior` by more than the minimum improvement,
    /// its parent is `cur`, its estimate is the distance to `end`, and it is
    /// open.
    spec fn took_route(&self, i: int, cur: usize, cg: int, end: P, prior: int) -> bool {
        &&& self.g(i) + MINIMUM_IMPROVEMENT < prior
        &&& self.g(i) == cg + self.entering(i)
        &&& self.nodes@[i].parent == Some(cur)
        &&& self.nodes@[i].h_cost == self.nodes@[i].action.pos.spec_distance(end)
        &&& self.open_set.view().contains_key(i as usize)
    }

    /// The cost of node `j` in this state, or the infinite cost if there is
    /// no such node yet.
    spec fn prior(&self, j: int) -> int {
        if j < self.nodes@.len() {
            self.g(j)
        } else {
            self.config.cost_inf as int
        }
    }

    /// The cost of the route through `c` along move `a`.
    spec fn move_cost(&self, c: Node<P>, a: int) -> int {
        c.g_cost + self.moves@[a].cost + self.space.spec_cost(neighbor(self.moves@, c.action.pos, a).pos)
    }

    /// The parent link of node `i` is sound: a cheaper or earlier-set parent
    /// at the far end of a move, whose cost plus the step is within `i`'s.
    spec fn link_ok(&self, i: int, p: int) -> bool {
        &&& self.g(p) + self.entering(i) <= self.g(i)
        &&& (self.g(p) < self.g(i) || self.stamps@[p] < self.stamps@[i])
    }

    /// The configuration and moveset a calculator may be built from.
    pub open spec fn valid_setup(moves: Seq<MoveAction<P>>, config: Configuration) -> bool {
        config.cost_inf > 0 && moves.len() <= MAX_MOVES
    }

    spec fn nodes_ok(&self, start: P, end: P) -> bool {
        let n = self.nodes@;
        let cost_inf = self.config.cost_inf as int;
        &&& n.len() == self.stamps@.len()
        &&& n.len() <= usize::MAX
        &&& n.len() > 0
        &&& n[0].action == (SpatialAction { pos: start, edge: None })
        &&& forall|i: int|
            0 <= i < n.len() ==> {
                &&& (#[trigger] n[i]).id == i
                &&& self.g(i) <= cost_inf
                &&& n[i].heap_idx is None
                &&& self.stamps@[i] < self.clock@
                &&& (n[i].parent is None <==> n[i].action.edge is None)
                &&& n[i].action.edge is None ==> n[i].action.pos == start && self.g(i) == 0
                &&& n[i].parent is Some ==> {
                    &&& n[i].parent.unwrap() < n.len()
                    &&& n[n[i].parent.unwrap() as int].action.pos != end
                    &&& valid_step(self.moves@, n[n[i].parent.unwrap() as int].action, n[i].action)
                }
                &&& self.g(i) < cost_inf ==> n[i].h_cost == n[i].action.pos.spec_distance(end)
                &&& self.g(i) < cost_inf && n[i].parent is Some ==> self.link_ok(
                    i,
                    n[i].parent.unwrap() as int,
                )
            }
    }

    spec fn store_ok(&self) -> bool {
        let n = self.nodes@;
        let m = stored_entries(self.closed_set);
        &&& forall|i: int|
            0 <= i < n.len() ==> {
                &&& m.contains_key(identity_key(#[trigger] n[i].action) as u128)
                &&& identity_key(n[i].action) < 0x1_0000_0000_0000_0000_0000_0000_0000_0000
                &&& m[identity_key(n[i].action) as u128] == i
            }
        &&& forall|k: u128|
            #[trigger] m.contains_key(k) ==> {
                &&& m[k] < n.len()
                &&& identity_key(n[m[k] as int].action) == k
            }
    }

    spec fn open_ok(&self) -> bool {
        let v = self.open_set.view();
        &&& self.open_set.wf()
        &&& forall|id: usize|
            #[trigger] v.contains_key(id) ==> {
                &&& id < self.nodes@.len()
                &&& v[id] == self.nodes@[id as int]
                &&& self.g(id as int) < self.config.cost_inf
            }
    }

    /// From `before` to `self` nodes were only added, no identity changed, no
    /// cost rose, no node left the open set, and every node whose finite
    /// cost is new is open.
    spec fn evolves(&self, before: &Self) -> bool {
        &&& self.nodes@.len() >= before.nodes@.len()
        &&& forall|i: int|
            0 <= i < before.nodes@.len() ==> (#[trigger] self.nodes@[i]).action
                == before.nodes@[i].action && self.nodes@[i].g_cost <= before.nodes@[i].g_cost
        &&& forall|id: usize|
            #[trigger] before.open_set.view().contains_key(id) ==> self.open_set.view().contains_key(id)
        &&& forall|i: int|
            0 <= i < self.nodes@.len() && self.g(i) < self.config.cost_inf && (i
                >= before.nodes@.len() || self.g(i) != before.g(i)) ==> self.open_set.view().contains_key(
                i as usize,
            )
    }

    /// The search state is consistent for a search from `start` to `end`.
    pub closed spec fn inv(&self, start: P, end: P) -> bool {
        &&& Self::valid_setup(self.moves@, self.config)
        &&& self.nodes_ok(start, end)
        &&& self.store_ok()
        &&& self.open_ok()
    }

    /// The calculator holds no search state.
    pub closed spec fn is_clear(&self) -> bool {
        &&& self.open_set.wf()
        &&& self.open_set.view() == Map::<usize, Node<P>>::empty()
        &&& self.open_set.nodes().len() == 0
        &&& stored_entries(self.closed_set) == Map::<u128, usize>::empty()
        &&& self.nodes@.len() == 0
        &&& self.stamps@.len() == 0
    }

    /// A calculator for `moves` over `space`, with no search state.
    pub fn new(moves: Vec<MoveAction<P>>, config: Configuration, space: S) -> (r: Self)
        ensures
            r.moves() == moves@,
            r.config() == config,
            r.space() == space,
            r.is_clear(),
            r.open_nodes() == Map::<usize, Node<P>>::empty(),
            r.stored() == Map::<u128, usize>::empty(),
            r.visited().len() == 0,
    {
        PathCalculator {
            open_set: BinaryHeapOpenSet::new(),
            closed_set: store_new(),
            nodes: Vec::new(),
            moves,
            space,
            config,
            stamps: Ghost(Seq::empty()),
            clock: Ghost(0),
            origin: Ghost(arbitrary()),
            target: Ghost(arbitrary()),
        }
    }

    /// Drops all search state, keeping the moveset, space and configuration.
    pub fn reset(&mut self)
        ensures
            final(self).moves() == old(self).moves(),
            final(self).config() == old(self).config(),
            final(self).space() == old(self).space(),
            final(self).is_clear(),
            final(self).open_nodes() == Map::<usize, Node<P>>::empty(),
            final(self).stored() == Map::<u128, usize>::empty(),
            final(self).visited().len() == 0,
    {
        self.open_set.clear();
        store_clear(&mut self.closed_set);
        self.nodes.clear();
        self.stamps = Ghost(Seq::empty());
    }

    /// The handle of the node with identity `sa`. An identity not seen
    /// before first gets a closed node of infinite cost, no estimate, and
    /// `parent` as its parent. `None` when the visited store is full.
    #[verifier::rlimit(60)]
    fn get_node_at(
        &mut self,
        sa: &SpatialAction<P>,
        parent: usize,
        Ghost(start): Ghost<P>,
        Ghost(end): Ghost<P>,
    ) -> (r: Option<usize>)
        requires
            old(self).nodes@[parent as int].action.pos != end,
            old(self).inv(start, end),
            parent < old(self).nodes@.len(),
            valid_step(old(self).moves@, old(self).nodes@[parent as int].action, *sa),
        ensures
            final(self).origin == old(self).origin,
            final(self).target == old(self).target,
            final(self).inv(start, end),
            final(self).moves@ == old(self).moves@,
            final(self).space == old(self).space,
            final(self).config == old(self).config,
            final(self).open_set == old(self).open_set,
            final(self).nodes@.len() >= old(self).nodes@.len(),
            forall|i: int|
                0 <= i < old(self).nodes@.len() ==> #[trigger] final(self).nodes@[i]
                    == old(self).nodes@[i] && final(self).stamps@[i] == old(self).stamps@[i],
            r matches Some(idx) ==> idx < final(self).nodes@.len() && final(self).nodes@[idx as int].action
                == *sa,
            forall|i: int|
                old(self).nodes@.len() <= i < final(self).nodes@.len() ==> #[trigger] final(self).g(i)
                    == final(self).config.cost_inf,
            r is None ==> old(self).nodes@.len() == usize::MAX && final(self).nodes@ == old(self).nodes@,
            forall|i: int|
                0 <= i < old(self).nodes@.len() && (#[trigger] old(self).nodes@[i]).action == *sa
                    ==> r == Some(i as usize) && final(self).nodes@ == old(self).nodes@
                    && final(self).closed_set == old(self).closed_set,
            r is Some && r->Some_0 >= old(self).nodes@.len() ==> r->Some_0 == old(self).nodes@.len()
                && final(self).nodes@ == old(self).nodes@.push(
                Node {
                    g_cost: old(self).config.cost_inf,
                    h_cost: 0,
                    action: *sa,
                    parent: Some(parent),
                    heap_idx: None,
                    id: r->Some_0,
                },
            ),
    {
        let key = key_of(sa);
        match store_get(&self.closed_set, key) {
            Some(idx) => {
                proof {
                    lemma_identity_key_injective(self.nodes@[idx as int].action, *sa);
                    assert forall|i: int|
                        0 <= i < self.nodes@.len() && (#[trigger] self.nodes@[i]).action == *sa
                            implies i == idx by {
                        assert(stored_entries(self.closed_set)[identity_key(self.nodes@[i].action) as u128] == i);
                    }
                }
                Some(idx)
            },
            None => {
                proof {
                    assert forall|i: int|
                        0 <= i < self.nodes@.len() implies (#[trigger] self.nodes@[i]).action != *sa by {
                        assert(stored_entries(self.closed_set).contains_key(identity_key(self.nodes@[i].action) as u128));
                    }
                }
                let id = self.nodes.len();
                if id == usize::MAX {
                    return None;
                }
                let fresh = Node {
                    g_cost: self.config.cost_inf,
                    h_cost: 0,
                    action: *sa,
                    parent: Some(parent),
                    heap_idx: None,
                    id,
                };
                let ghost old_entries = stored_entries(self.closed_set);
                self.nodes.push(fresh);
                store_insert(&mut self.closed_set, key, id);
                proof {
                    self.stamps@ = self.stamps@.push(self.clock@);
                    self.clock@ = self.clock@ + 1;
                    let m = stored_entries(self.closed_set);
                    assert forall|i: int| 0 <= i < self.nodes@.len() implies {
                        &&& m.contains_key(identity_key(#[trigger] self.nodes@[i].action) as u128)
                        &&& identity_key(self.nodes@[i].action) < 0x1_0000_0000_0000_0000_0000_0000_0000_0000
                        &&& m[identity_key(self.nodes@[i].action) as u128] == i
                    } by {
                        if i < id {
                            assert(old_entries.contains_key(identity_key(old(self).nodes@[i].action) as u128));
                        }
                    }
                    assert forall|k: u128| #[trigger] m.contains_key(k) implies {
                        &&& m[k] < self.nodes@.len()
                        &&& identity_key(self.nodes@[m[k] as int].action) == k
                    } by {
                        if k != key {
                            assert(old_entries.contains_key(k));
                        }
                    }
                    assert(self.nodes_ok(start, end));
                }
                Some(id)
            },
        }
    }

    /// Resolves the neighbor of node `cur` along move `a` and, where the
    /// route through `cur` is cheaper by more than the minimum improvement,
    /// gives the neighbor that cost, `cur` as its parent and the distance to
    /// `end` as its estimate, and opens it or lowers its key. Returns the
    /// neighbor's handle; `None` when the visited store is full.
    #[verifier::rlimit(100)]
    fn relax_along(&mut self, cur: usize, c: Node<P>, a: usize, end: &P, Ghost(start): Ghost<P>) -> (r: Option<usize>)
        requires
            c.action.pos != *end,
            old(self).inv(start, *end),
            cur < old(self).nodes@.len(),
            old(self).nodes@[cur as int] == c,
            c.g_cost < old(self).config.cost_inf,
            !old(self).open_set.view().contains_key(cur),
            a < old(self).moves@.len(),
            old(self).open_set.nodes().len() < usize::MAX,
        ensures
            final(self).origin == old(self).origin,
            final(self).target == old(self).target,
            final(self).inv(start, *end),
            final(self).moves@ == old(self).moves@,
            final(self).space == old(self).space,
            final(self).config == old(self).config,
            final(self).evolves(old(self)),
            cur < final(self).nodes@.len(),
            final(self).nodes@[cur as int] == c,
            !final(self).open_set.view().contains_key(cur),
            forall|id: usize| #[trigger]
                old(self).open_set.view().contains_key(id) ==> final(self).open_set.view().contains_key(id),
            r is None ==> final(self).nodes@.len() == usize::MAX && final(self).nodes@ == old(self).nodes@,
            r is Some ==> {
                let idx = r->Some_0 as int;
                &&& idx < final(self).nodes@.len()
                &&& final(self).nodes@[idx].action == neighbor(final(self).moves@, c.action.pos, a as int)
                &&& final(self).nodes@.len() <= old(self).nodes@.len() + 1
                &&& idx < old(self).nodes@.len() ==> final(self).nodes@.len() == old(self).nodes@.len()
                &&& idx >= old(self).nodes@.len() ==> idx == old(self).nodes@.len()
                    && final(self).nodes@[idx].parent == Some(cur)
                &&& forall|i: int|
                    0 <= i < old(self).nodes@.len() && i != idx ==> #[trigger] final(self).nodes@[i]
                        == old(self).nodes@[i]
                &&& (old(self).prior(idx) > final(self).move_cost(c, a as int) + MINIMUM_IMPROVEMENT
                    ==> final(self).took_route(idx, cur, c.g_cost as int, *end, old(self).prior(idx)))
                &&& (old(self).prior(idx) <= final(self).move_cost(c, a as int) + MINIMUM_IMPROVEMENT
                    ==> final(self).g(idx) == old(self).prior(idx) && (idx < old(self).nodes@.len()
                    ==> final(self).nodes@[idx] == old(self).nodes@[idx]) && (idx
                    >= old(self).nodes@.len() ==> final(self).nodes@[idx].h_cost == 0))
            },
    {
        let action = self.moves[a];
        let nb_pos = c.action.pos.offset_by(action.offset);
        let hazard = self.space.material_cost(nb_pos);
        let tentative = c.g_cost.saturating_add(action.cost).saturating_add(hazard);
        let sa = SpatialAction::new(nb_pos, a);
        let idx = match self.get_node_at(&sa, cur, Ghost(start), Ghost(*end)) {
            Some(i) => i,
            None => {
                return None;
            },
        };
        let nb = self.nodes[idx];
        if nb.g_cost > tentative && nb.g_cost - tentative > MINIMUM_IMPROVEMENT {
            assert(idx != cur);
            let h = nb_pos.distance_to(end);
            let better = Node { g_cost: tentative, h_cost: h, parent: Some(cur), ..nb };
            let ghost before = *self;
            self.nodes.set(idx, better);
            proof {
                self.stamps@ = self.stamps@.update(idx as int, self.clock@);
                self.clock@ = self.clock@ + 1;
                assert forall|j: int| 0 <= j < self.nodes@.len() && self.g(j) < self.config.cost_inf
                    && (#[trigger] self.nodes@[j]).parent is Some implies self.link_ok(
                    j,
                    self.nodes@[j].parent.unwrap() as int,
                ) by {
                    let p = self.nodes@[j].parent.unwrap() as int;
                    if j != idx {
                        assert(before.nodes@[j] == self.nodes@[j]);
                        assert(before.link_ok(j, p));
                    }
                }
                assert(self.nodes_ok(start, *end));
                assert(self.store_ok());
            }
            match self.open_set.slot(idx) {
                Some(slot) => {
                    let res = self.open_set.sift_up(&Node { heap_idx: Some(slot), ..better });
                    assert(res is Ok);
                },
                None => {
                    let res = self.open_set.insert(better);
                    assert(res is Ok);
                },
            }
            assert(self.open_set.view() =~= before.open_set.view().insert(idx, better));
            assert(self.open_ok());
        }
        Some(idx)
    }

    /// Expands node `cur`: resolves its neighbor along each move and, where
    /// the route through `cur` is cheaper by more than the minimum
    /// improvement, gives the neighbor that cost and `cur` as its parent and
    /// opens it or lowers its key. `false` when a store is full.
    #[verifier::rlimit(100)]
    fn update_positions(&mut self, cur: usize, end: &P, Ghost(start): Ghost<P>) -> (r: bool)
        requires
            old(self).nodes@[cur as int].action.pos != *end,
            old(self).inv(start, *end),
            cur < old(self).nodes@.len(),
            old(self).g(cur as int) < old(self).config.cost_inf,
            !old(self).open_set.view().contains_key(cur),
        ensures
            final(self).origin == old(self).origin,
            final(self).target == old(self).target,
            final(self).inv(start, *end),
            final(self).moves@ == old(self).moves@,
            final(self).space == old(self).space,
            final(self).config == old(self).config,
            cur < final(self).nodes@.len(),
            final(self).nodes@[cur as int] == old(self).nodes@[cur as int],
            !final(self).open_set.view().contains_key(cur),
            final(self).evolves(old(self)),
            !r ==> final(self).open_set.nodes().len() == usize::MAX || final(self).nodes@.len()
                == usize::MAX,
            forall|i: int|
                0 <= i < old(self).nodes@.len() ==> #[trigger] final(self).nodes@[i] == old(self).nodes@[i]
                    || (final(self).nodes@[i].action == old(self).nodes@[i].action
                    && final(self).nodes@[i].id == old(self).nodes@[i].id && final(self).took_route(
                    i,
                    cur,
                    old(self).g(cur as int),
                    *end,
                    old(self).g(i),
                )),
            forall|i: int|
                old(self).nodes@.len() <= i < final(self).nodes@.len()
                    ==> (#[trigger] final(self).nodes@[i]).parent == Some(cur) && ((final(self).g(i) == final(self).config.cost_inf
                    && final(self).nodes@[i].h_cost == 0) || final(self).took_route(
                    i,
                    cur,
                    old(self).g(cur as int),
                    *end,
                    final(self).config.cost_inf as int,
                )),
            r ==> forall|a: int|
                0 <= a < final(self).moves@.len() ==> exists|j: int|
                    0 <= j < final(self).nodes@.len() && (#[trigger] final(self).nodes@[j]).action
                        == neighbor(final(self).moves@, old(self).nodes@[cur as int].action.pos, a) && (
                    old(self).prior(j) > #[trigger] final(self).move_cost(old(self).nodes@[cur as int], a)
                        + MINIMUM_IMPROVEMENT ==> final(self).took_route(
                        j,
                        cur,
                        old(self).g(cur as int),
                        *end,
                        old(self).prior(j),
                    )) && (old(self).prior(j) <= final(self).move_cost(old(self).nodes@[cur as int], a)
                        + MINIMUM_IMPROVEMENT ==> final(self).g(j) == old(self).prior(j)),
            r ==> relaxed_through(
                final(self).moves@,
                final(self).space,
                final(self).nodes@,
                final(self).nodes@[cur as int],
            ),
    {
        let c = self.nodes[cur];
        let mut a: usize = 0;
        let ghost mut wit: Seq<int> = Seq::empty();
        while a < self.moves.len()
            invariant
                self.inv(start, *end),
                !self.open_set.view().contains_key(cur),
                a <= self.moves@.len(),
                wit.len() == a,
                forall|b: int|
                    0 <= b < a ==> {
                        &&& 0 <= #[trigger] wit[b] < self.nodes@.len()
                        &&& self.nodes@[wit[b]].action == neighbor(self.moves@, c.action.pos, b)
                        &&& self.nodes@[wit[b]].g_cost <= c.g_cost + self.moves@[b].cost
                            + self.space.spec_cost(neighbor(self.moves@, c.action.pos, b).pos)
                            + MINIMUM_IMPROVEMENT
                    },
                self.moves@ == old(self).moves@,
                self.space == old(self).space,
                self.config == old(self).config,
                cur < self.nodes@.len(),
                self.nodes@[cur as int] == c,
                c == old(self).nodes@[cur as int],
                c.action.pos != *end,
                self.origin == old(self).origin,
                self.target == old(self).target,
                self.evolves(old(self)),
                c.g_cost < self.config.cost_inf,
                forall|i: int|
                    0 <= i < self.nodes@.len() && self.nodes@[i].action.edge is Some
                        && self.nodes@[i].action.edge.unwrap() >= a ==> i < old(self).nodes@.len()
                        && #[trigger] self.nodes@[i] == old(self).nodes@[i],
                forall|i: int|
                    0 <= i < old(self).nodes@.len() ==> #[trigger] self.nodes@[i] == old(self).nodes@[i]
                        || (self.nodes@[i].action == old(self).nodes@[i].action
                        && self.nodes@[i].id == old(self).nodes@[i].id && self.took_route(
                        i,
                        cur,
                        c.g_cost as int,
                        *end,
                        old(self).g(i),
                    )),
                forall|i: int|
                    old(self).nodes@.len() <= i < self.nodes@.len()
                        ==> (#[trigger] self.nodes@[i]).parent == Some(cur) && ((self.g(i)
                        == self.config.cost_inf && self.nodes@[i].h_cost == 0) || self.took_route(
                        i,
                        cur,
                        c.g_cost as int,
                        *end,
                        self.config.cost_inf as int,
                    )),
                forall|b: int|
                    0 <= b < a ==> {
                        &&& (old(self).prior(#[trigger] wit[b]) > self.move_cost(c, b) + MINIMUM_IMPROVEMENT
                            ==> self.took_route(wit[b], cur, c.g_cost as int, *end, old(self).prior(wit[b])))
                        &&& (old(self).prior(wit[b]) <= self.move_cost(c, b) + MINIMUM_IMPROVEMENT
                            ==> self.g(wit[b]) == old(self).prior(wit[b]))
                    },
            decreases self.moves@.len() - a,
        {
            if self.open_set.len() == usize::MAX {
                return false;
            }
            let ghost pre = *self;
            let idx = match self.relax_along(cur, c, a, end, Ghost(start)) {
                Some(i) => i,
                None => {
                    return false;
                },
            };
            proof {
                let ghost ai = a as int;
                assert(pre.move_cost(c, ai) == self.move_cost(c, ai));
                // the neighbor's cost before this move is its cost before the expansion
                if idx < pre.nodes@.len() {
                    assert(pre.nodes@[idx as int].action.edge == Some(a));
                    assert(pre.nodes@[idx as int] == old(self).nodes@[idx as int]);
                }
                assert(pre.prior(idx as int) == old(self).prior(idx as int));
                assert forall|i: int|
                    0 <= i < self.nodes@.len() && self.nodes@[i].action.edge is Some
                        && self.nodes@[i].action.edge.unwrap() >= a + 1 implies i < old(
                    self,
                ).nodes@.len() && #[trigger] self.nodes@[i] == old(self).nodes@[i] by {
                    if i != idx {
                        assert(self.nodes@[i] == pre.nodes@[i]);
                    }
                }
                assert forall|i: int| 0 <= i < old(self).nodes@.len() implies #[trigger] self.nodes@[i]
                    == old(self).nodes@[i] || (self.nodes@[i].action == old(self).nodes@[i].action
                    && self.nodes@[i].id == old(self).nodes@[i].id && self.took_route(
                    i,
                    cur,
                    c.g_cost as int,
                    *end,
                    old(self).g(i),
                )) by {
                    if i != idx {
                        assert(self.nodes@[i] == pre.nodes@[i]);
                    }
                }
                assert forall|i: int| old(self).nodes@.len() <= i < self.nodes@.len() implies (
                #[trigger] self.nodes@[i]).parent == Some(cur) && ((self.g(i) == self.config.cost_inf
                    && self.nodes@[i].h_cost == 0) || self.took_route(
                    i,
                    cur,
                    c.g_cost as int,
                    *end,
                    self.config.cost_inf as int,
                )) by {
                    if i != idx {
                        assert(self.nodes@[i] == pre.nodes@[i]);
                    }
                }
                assert forall|b: int| 0 <= b < a implies {
                    &&& 0 <= #[trigger] wit[b] < self.nodes@.len()
                    &&& self.nodes@[wit[b]].action == neighbor(self.moves@, c.action.pos, b)
                    &&& self.nodes@[wit[b]].g_cost <= c.g_cost + self.moves@[b].cost
                        + self.space.spec_cost(neighbor(self.moves@, c.action.pos, b).pos)
                        + MINIMUM_IMPROVEMENT
                    &&& (old(self).prior(wit[b]) > self.move_cost(c, b) + MINIMUM_IMPROVEMENT
                        ==> self.took_route(wit[b], cur, c.g_cost as int, *end, old(self).prior(wit[b])))
                    &&& (old(self).prior(wit[b]) <= self.move_cost(c, b) + MINIMUM_IMPROVEMENT
                        ==> self.g(wit[b]) == old(self).prior(wit[b]))
                } by {
                    assert(pre.nodes@[wit[b]].action.edge == Some(b as usize));
                    assert(wit[b] != idx);
                    assert(self.nodes@[wit[b]] == pre.nodes@[wit[b]]);
                    assert(pre.move_cost(c, b) == self.move_cost(c, b));
                }
                wit = wit.push(idx as int);
            }
            a = a + 1;
        }
        proof {
            let n = self.nodes@[cur as int];
            assert forall|b: int| 0 <= b < self.moves@.len() implies exists|j: int|
                0 <= j < self.nodes@.len() && (#[trigger] self.nodes@[j]).action == neighbor(
                    self.moves@,
                    n.action.pos,
                    b,
                ) && self.nodes@[j].g_cost <= n.g_cost + (#[trigger] self.moves@[b]).cost
                    + self.space.spec_cost(neighbor(self.moves@, n.action.pos, b).pos)
                    + MINIMUM_IMPROVEMENT by {
                assert(self.nodes@[wit[b]].action == neighbor(self.moves@, n.action.pos, b));
            }
        }
        true
    }

    /// The path from the root to node `goal`, by following parent links.
    #[verifier::rlimit(100)]
    fn retrace(&self, goal: usize, Ghost(start): Ghost<P>, Ghost(end): Ghost<P>) -> (r: Vec<
        PathNode<P>,
    >)
        requires
            self.inv(start, end),
            goal < self.nodes@.len(),
            self.g(goal as int) < self.config.cost_inf,
            self.nodes@[goal as int].action.pos == end,
        ensures
            is_route(self.moves@, r@, start, end),
            r@.last().action == self.nodes@[goal as int].action,
            route_cost(self.moves@, self.space, r@) <= self.g(goal as int),
            is_parent_chain(self.nodes@, goal as int, r@),
            forall|k: int| 0 <= k < r@.len() - 1 ==> (#[trigger] r@[k]).action.pos != end,
    {
        let mut chain: Vec<usize> = Vec::new();
        chain.push(goal);
        let mut cur = goal;
        while self.nodes[cur].parent.is_some()
            invariant
                self.inv(start, end),
                chain@.len() >= 1,
                chain@[0] == goal,
                chain@.last() == cur,
                cur < self.nodes@.len(),
                forall|k: int| 0 <= k < chain@.len() ==> #[trigger] chain@[k] < self.nodes@.len(),
                forall|k: int|
                    0 <= k < chain@.len() ==> self.g(#[trigger] chain@[k] as int)
                        < self.config.cost_inf,
                forall|k: int|
                    0 <= k < chain@.len() - 1 ==> self.nodes@[#[trigger] chain@[k] as int].parent
                        == Some(chain@[k + 1]),
            decreases self.g(cur as int), self.stamps@[cur as int],
        {
            let q = self.nodes[cur].parent.unwrap();
            assert(self.link_ok(cur as int, q as int));
            chain.push(q);
            cur = q;
        }
        let ghost m = chain@.len() as int;
        let ghost acts = Seq::new(m as nat, |j: int| self.nodes@[chain@[j] as int].action);
        let ghost gs = Seq::new(m as nat, |j: int| self.g(chain@[j] as int));
        let ghost moves = self.moves@;
        let ghost space = self.space;
        proof {
            assert forall|j: int| 0 <= j < m - 1 implies {
                &&& valid_step(moves, acts[j + 1], #[trigger] acts[j])
                &&& gs[j + 1] + step_cost(moves, space, acts[j]) <= gs[j]
            } by {
                let child = chain@[j] as int;
                assert(self.nodes@[child].parent == Some(chain@[j + 1]));
                assert(self.link_ok(child, chain@[j + 1] as int));
            }
            assert(acts[m - 1].edge is None);
            assert(acts[m - 1] == SpatialAction { pos: start, edge: None });
            assert(acts[0].pos == end);
            assert forall|j: int| 0 < j < m implies (#[trigger] acts[j]).pos != end by {
                assert(self.nodes@[chain@[j - 1] as int].parent == Some(chain@[j]));
            }
        }
        let ghost rchain = Seq::new(m as nat, |j: int| chain@[m - 1 - j] as int);
        proof {
            assert forall|j: int| 0 < j < m implies self.nodes@[#[trigger] rchain[j]].parent == Some(
                rchain[j - 1] as usize,
            ) by {
                assert(self.nodes@[chain@[m - 1 - j] as int].parent == Some(chain@[m - 1 - j + 1]));
            }
        }
        let mut path: Vec<PathNode<P>> = Vec::new();
        let mut k = chain.len();
        while k > 0
            invariant
                m == chain@.len(),
                m >= 1,
                k <= m,
                acts.len() == m,
                gs.len() == m,
                moves == self.moves@,
                space == self.space,
                forall|j: int| 0 <= j < m ==> #[trigger] chain@[j] < self.nodes@.len(),
                forall|j: int| 0 <= j < m ==> #[trigger] acts[j] == self.nodes@[chain@[j] as int].action,
                forall|j: int| 0 <= j < m ==> gs[j] >= 0,
                forall|j: int| 0 <= j < m - 1 ==> {
                    &&& valid_step(moves, acts[j + 1], #[trigger] acts[j])
                    &&& gs[j + 1] + step_cost(moves, space, acts[j]) <= gs[j]
                },
                acts[m - 1] == (SpatialAction { pos: start, edge: None }),
                forall|j: int| 0 < j < m ==> (#[trigger] acts[j]).pos != end,
                rchain.len() == m,
                forall|j: int| 0 <= j < m ==> #[trigger] rchain[j] == chain@[m - 1 - j] as int,
                self.nodes@[rchain[0]].parent is None,
                forall|j: int| 0 < j < m ==> self.nodes@[#[trigger] rchain[j]].parent == Some(
                    rchain[j - 1] as usize,
                ),
                path@.len() == m - k,
                forall|j: int| 0 <= j < path@.len() ==> (#[trigger] path@[j]).action == acts[m - 1 - j],
                path@.len() > 0 ==> route_cost(moves, space, path@) <= gs[k as int],
            decreases k,
        {
            k = k - 1;
            let ghost before = path@;
            let node = PathNode::new(self.nodes[chain[k]].action);
            path.push(node);
            proof {
                if before.len() > 0 {
                    assert(path@.drop_last() == before);
                    assert(path@[before.len() as int].action == acts[k as int]);
                } else {
                    assert(route_cost(moves, space, path@) == 0);
                }
            }
        }
        proof {
            assert forall|j: int| 0 <= j < path@.len() - 1 implies valid_step(
                moves,
                path@[j].action,
                #[trigger] path@[j + 1].action,
            ) by {
                assert(path@[j].action == acts[m - 1 - j]);
                assert(path@[j + 1].action == acts[m - 1 - (j + 1)]);
                assert(m - 1 - j == (m - 1 - (j + 1)) + 1);
            }
            assert(path@.last().action == acts[0]);
            assert forall|j: int| 0 <= j < m implies 0 <= #[trigger] rchain[j] < self.nodes@.len()
                && path@[j].action == self.nodes@[rchain[j]].action by {
                assert(path@[j].action == acts[m - 1 - j]);
            }
            assert(chain_fits(self.nodes@, goal as int, path@, rchain));
            assert forall|k: int| 0 <= k < path@.len() - 1 implies (#[trigger] path@[k]).action.pos != end by {
                assert(path@[k].action == acts[m - 1 - k]);
            }
        }
        path
    }

    /// Starts a search from `start` to `end`: drops all search state, then
    /// stores the root node and opens it.
    #[verifier::rlimit(60)]
    pub fn begin(&mut self, start: P, end: P)
        requires
            Self::valid_setup(old(self).moves(), old(self).config()),
        ensures
            final(self).searching(),
            final(self).origin() == start,
            final(self).target() == end,
            final(self).moves() == old(self).moves(),
            final(self).config() == old(self).config(),
            final(self).space() == old(self).space(),
            final(self).visited() == seq![
                Node {
                    g_cost: 0,
                    h_cost: start.spec_distance(end) as u64,
                    action: SpatialAction { pos: start, edge: None },
                    parent: None,
                    heap_idx: None,
                    id: 0,
                },
            ],
            final(self).open_nodes() == map![0usize => final(self).visited()[0]],
            final(self).closed_expanded(),
    {
        self.reset();
        self.origin = Ghost(start);
        self.target = Ghost(end);
        let root = Node::start_node(start, &end);
        let key = key_of(&root.action);
        self.nodes.push(root);
        store_insert(&mut self.closed_set, key, 0);
        proof {
            self.stamps@ = seq![self.clock@];
            self.clock@ = self.clock@ + 1;
        }
        let res = self.open_set.insert(root);
        assert(res is Ok);
        assert(self.open_set.view() =~= map![0usize => root]);
        proof {
            let ghost mm = stored_entries(self.closed_set);
            assert(mm =~= map![key => 0usize]);
        }
        assert(self.nodes@ =~= seq![root]);
        assert(self.inv(start, end));
    }

    /// One step of the search: pops a least-cost open node; returns the path
    /// to it if it is at the goal, and otherwise expands it.
    #[verifier::rlimit(60)]
    pub fn step(&mut self, end: &P) -> (r: SearchStep<P>)
        requires
            old(self).searching(),
            *end == old(self).target(),
        ensures
            final(self).searching(),
            final(self).origin() == old(self).origin(),
            final(self).target() == old(self).target(),
            final(self).moves() == old(self).moves(),
            final(self).config() == old(self).config(),
            final(self).space() == old(self).space(),
            r is Exhausted <==> old(self).open_nodes() == Map::<usize, Node<P>>::empty(),
            r is Exhausted ==> final(self).open_nodes() == old(self).open_nodes()
                && final(self).visited() == old(self).visited(),
            r matches SearchStep::Found(n, path) ==> {
                &&& pops_min(old(self).open_nodes(), n, final(self).open_nodes())
                &&& n.action.pos == *end
                &&& is_route(final(self).moves(), path@, final(self).origin(), *end)
                &&& path@.last().action == n.action
                &&& is_parent_chain(final(self).visited(), n.id as int, path@)
                &&& forall|k: int| 0 <= k < path@.len() - 1 ==> (#[trigger] path@[k]).action.pos != *end
                &&& route_cost(final(self).moves(), final(self).space(), path@) <= n.g_cost
                &&& n.g_cost < final(self).config().cost_inf
            },
            r matches SearchStep::Expanded(n) ==> {
                &&& least_of(old(self).open_nodes(), n)
                &&& n.action.pos != *end
                &&& !final(self).open_nodes().contains_key(n.id)
                &&& n.id < final(self).visited().len()
                &&& final(self).visited()[n.id as int] == n
                &&& relaxed_through(final(self).moves(), final(self).space(), final(self).visited(), n)
            },
            r matches SearchStep::Full(n) ==> least_of(old(self).open_nodes(), n) && n.action.pos
                != *end,
            r is Full ==> final(self).open_size() == usize::MAX || final(self).visited().len()
                == usize::MAX,
            old(self).closed_expanded() && (r is Expanded || r is Exhausted) ==> final(self).closed_expanded(),
            old(self).closed_expanded() && r is Exhausted ==> forall|route: Seq<PathNode<P>>|
                #[trigger] is_route(final(self).moves(), route, final(self).origin(), *end)
                    ==> route_cost(final(self).moves(), final(self).space(), route) + route.len()
                    * MINIMUM_IMPROVEMENT >= final(self).config().cost_inf,
    {
        let ghost start = self.origin@;
        let ghost v0 = self.open_set.view();
        if self.open_set.is_empty() {
            proof {
                if old(self).closed_expanded() {
                    assert forall|route: Seq<PathNode<P>>|
                        #[trigger] is_route(self.moves(), route, self.origin(), *end) implies route_cost(
                        self.moves(),
                        self.space(),
                        route,
                    ) + route.len() * MINIMUM_IMPROVEMENT >= self.config().cost_inf by {
                        if route_cost(self.moves(), self.space(), route) + route.len()
                            * MINIMUM_IMPROVEMENT < self.config().cost_inf {
                            self.lemma_open_while_route_exists(route);
                        }
                    }
                }
            }
            return SearchStep::Exhausted;
        }
        let c = match self.open_set.pop() {
            Ok(n) => n,
            Err(_) => {
                return SearchStep::Exhausted;
            },
        };
        assert(self.open_ok());
        if c.action.pos.same_as(end) {
            let path = self.retrace(c.id, Ghost(start), Ghost(*end));
            return SearchStep::Found(c, path);
        }
        assert(c == self.nodes@[c.id as int]);
        assert(least_of(v0, c));
        let ghost popped = *self;
        if self.update_positions(c.id, end, Ghost(start)) {
            proof {
                if old(self).closed_expanded() {
                    assert forall|i: int|
                        0 <= i < self.nodes@.len() && self.g(i) < self.config.cost_inf
                            && !self.open_set.view().contains_key(i as usize) implies {
                        &&& relaxed_through(self.moves@, self.space, self.nodes@, #[trigger] self.nodes@[i])
                        &&& self.nodes@[i].action.pos != self.target@
                    } by {
                        if i != c.id {
                            assert(i < popped.nodes@.len());
                            assert(self.g(i) == popped.g(i));
                            assert(!popped.open_set.view().contains_key(i as usize));
                            assert(!v0.contains_key(i as usize));
                            assert(old(self).nodes@[i] == popped.nodes@[i]);
                            lemma_relaxed_through_persists(
                                self.moves@,
                                self.space,
                                old(self).nodes@,
                                self.nodes@,
                                old(self).nodes@[i],
                                self.nodes@[i],
                            );
                        }
                    }
                }
            }
            SearchStep::Expanded(c)
        } else {
            SearchStep::Full(c)
        }
    }

    /// The cheapest path from `start` to `end` found within the time budget:
    /// the nodes from the start to the goal, both included, or an empty path
    /// when the goal cannot be reached, the budget runs out, or a store is
    /// full. The first node is always expanded, so a search whose start is
    /// its goal finds the one-node path.
    #[verifier::rlimit(60)]
    pub fn calculate(&mut self, start: P, end: P) -> (r: Result<Vec<PathNode<P>>, PathingError>)
        requires
            Self::valid_setup(old(self).moves(), old(self).config()),
        ensures
            final(self).moves() == old(self).moves(),
            final(self).config() == old(self).config(),
            final(self).space() == old(self).space(),
            final(self).searching(),
            final(self).origin() == start,
            final(self).target() == end,
            r is Ok,
            r matches Ok(path) ==> forall|k: int| 0 <= k < path@.len() - 1 ==> (#[trigger] path@[k]).action.pos != end,
            r matches Ok(path) ==> path@.len() == 0 || (is_route(final(self).moves(), path@, start, end)
                && route_cost(final(self).moves(), final(self).space(), path@) < final(self).config().cost_inf),
            start == end ==> r->Ok_0@ == seq![PathNode { action: SpatialAction { pos: start, edge: None } }],
            forall|route: Seq<PathNode<P>>|
                #[trigger] is_route(final(self).moves(), route, start, end) && consistent(
                    final(self).moves(),
                    final(self).space(),
                    end,
                ) && route_cost(final(self).moves(), final(self).space(), route) + route.len()
                    * MINIMUM_IMPROVEMENT < final(self).config().cost_inf && r->Ok_0@.len() > 0
                    ==> route_cost(final(self).moves(), final(self).space(), r->Ok_0@) <= route_cost(
                    final(self).moves(),
                    final(self).space(),
                    route,
                ) + (route.len() - 1) * MINIMUM_IMPROVEMENT,
    {
        self.begin(start, end);
        let ghost root = self.nodes@[0];
        let start_time = Instant::now();
        let mut budget: u64 = u64::MAX;
        let mut first = true;
        while budget > 0
            invariant
                self.searching(),
                self.origin() == start,
                self.target() == end,
                self.moves@ == old(self).moves@,
                self.space == old(self).space,
                self.config == old(self).config,
                first ==> self.open_nodes() == map![0usize => root],
                first ==> root.action == (SpatialAction { pos: start, edge: None }),
                first ==> budget == u64::MAX,
                !first ==> start != end,
                self.closed_expanded(),
            decreases budget,
        {
            budget = budget - 1;
            let ghost v0 = self.open_nodes();
            let ghost before = *self;
            match self.step(&end) {
                SearchStep::Found(n, path) => {
                    proof {
                        assert forall|route: Seq<PathNode<P>>|
                            #[trigger] is_route(self.moves(), route, start, end) && consistent(
                                self.moves(),
                                self.space(),
                                end,
                            ) && route_cost(self.moves(), self.space(), route) + route.len()
                                * MINIMUM_IMPROVEMENT < self.config().cost_inf implies route_cost(
                            self.moves(),
                            self.space(),
                            path@,
                        ) <= route_cost(self.moves(), self.space(), route) + (route.len() - 1)
                            * MINIMUM_IMPROVEMENT by {
                            assert(least_of(before.open_nodes(), n));
                            before.lemma_goal_cost_near_optimal(n, route);
                        }
                        if first {
                            assert(v0.contains_key(n.id));
                            assert(n == root);
                            if path@.len() > 1 {
                                let j = path@.len() - 2;
                                assert(valid_step(self.moves@, path@[j].action, path@[j + 1].action));
                            }
                            assert(path@ =~= seq![PathNode { action: SpatialAction { pos: start, edge: None } }]);
                        }
                    }
                    return Ok(path);
                },
                SearchStep::Expanded(n) => {
                    proof {
                        if first {
                            assert(v0.contains_key(n.id));
                            assert(n == root);
                        }
                    }
                },
                SearchStep::Exhausted => {
                    assert(first ==> v0.contains_key(0));
                    return Ok(Vec::new());
                },
                SearchStep::Full(n) => {
                    proof {
                        if first {
                            assert(v0.contains_key(n.id));
                            assert(n == root);
                        }
                    }
                    return Ok(Vec::new());
                },
            }
            first = false;
            if over_budget(start_time.elapsed().as_millis(), self.config.timeout_millis) {
                return Ok(Vec::new());
            }
        }
        Ok(Vec::new())
    }

    /// Number of slots the open set fills.
    pub fn open_len(&self) -> (r: usize)
        ensures
            r == self.open_size(),
    {
        self.open_set.len()
    }

    /// Number of nodes in the visited store.
    pub fn visited_count(&self) -> (r: usize)
        ensures
            r == self.visited().len(),
    {
        self.nodes.len()
    }

    /// The visited node with handle `handle`, if there is one.
    pub fn visited_node(&self, handle: usize) -> (r: Option<Node<P>>)
        ensures
            handle < self.visited().len() ==> r == Some(self.visited()[handle as int]),
            handle >= self.visited().len() ==> r is None,
    {
        if handle < self.nodes.len() {
            Some(self.nodes[handle])
        } else {
            None
        }
    }

    /// Following a route from a node held within the route's cost so far
    /// (plus the minimum improvement per move) leads to an open node held
    /// the same way.
    #[verifier::rlimit(60)]
    proof fn lemma_open_on_route(&self, route: Seq<PathNode<P>>, k: int, j: int) -> (r: (int, int))
        requires
            self.closed_expanded(),
            is_route(self.moves@, route, self.origin@, self.target@),
            route_cost(self.moves@, self.space, route) + route.len() * MINIMUM_IMPROVEMENT
                < self.config.cost_inf,
            0 <= k < route.len(),
            0 <= j < self.nodes@.len(),
            self.nodes@[j].action == route[k].action,
            self.g(j) <= prefix_cost(self.moves@, self.space, route, k) + k * MINIMUM_IMPROVEMENT,
        ensures
            k <= r.0 < route.len(),
            0 <= r.1 < self.nodes@.len(),
            self.nodes@[r.1].action == route[r.0].action,
            self.open_set.view().contains_key(r.1 as usize),
            self.g(r.1) <= prefix_cost(self.moves@, self.space, route, r.0) + r.0
                * MINIMUM_IMPROVEMENT,
        decreases route.len() - k,
    {
        let moves = self.moves@;
        let space = self.space;
        if self.open_set.view().contains_key(j as usize) {
            (k, j)
        } else {
            lemma_prefix_within_route(moves, space, route, k);
            assert(k * MINIMUM_IMPROVEMENT <= route.len() * MINIMUM_IMPROVEMENT) by (nonlinear_arith)
                requires
                    k < route.len(),
            ;
            assert(self.g(j) < self.config.cost_inf);
            assert(relaxed_through(moves, space, self.nodes@, self.nodes@[j]));
            assert(k < route.len() - 1);
            assert(valid_step(moves, route[k].action, route[k + 1].action));
            let a = route[k + 1].action.edge.unwrap() as int;
            assert(route[k + 1].action == neighbor(moves, self.nodes@[j].action.pos, a));
            let j2 = choose|j2: int|
                0 <= j2 < self.nodes@.len() && (#[trigger] self.nodes@[j2]).action == neighbor(
                    moves,
                    self.nodes@[j].action.pos,
                    a,
                ) && self.nodes@[j2].g_cost <= self.nodes@[j].g_cost + moves[a].cost
                    + space.spec_cost(neighbor(moves, self.nodes@[j].action.pos, a).pos)
                    + MINIMUM_IMPROVEMENT;
            lemma_prefix_step(moves, space, route, k);
            assert((k + 1) * MINIMUM_IMPROVEMENT == k * MINIMUM_IMPROVEMENT + MINIMUM_IMPROVEMENT);
            self.lemma_open_on_route(route, k + 1, j2)
        }
    }

    /// When a least-cost open node is at the goal, its cost is within that
    /// of any route from the start to the goal, plus the minimum improvement
    /// per move of that route, provided the distance estimate is consistent
    /// and the route stays below the infinite cost.
    #[verifier::rlimit(60)]
    pub proof fn lemma_goal_cost_near_optimal(&self, n: Node<P>, route: Seq<PathNode<P>>)
        requires
            self.searching(),
            self.closed_expanded(),
            least_of(self.open_nodes(), n),
            n.action.pos == self.target(),
            is_route(self.moves(), route, self.origin(), self.target()),
            consistent(self.moves(), self.space(), self.target()),
            route_cost(self.moves(), self.space(), route) + route.len() * MINIMUM_IMPROVEMENT
                < self.config().cost_inf,
        ensures
            n.g_cost <= route_cost(self.moves(), self.space(), route) + (route.len() - 1)
                * MINIMUM_IMPROVEMENT,
    {
        let moves = self.moves@;
        let space = self.space;
        let end = self.target@;
        assert(route.take(1).len() == 1);
        assert(prefix_cost(moves, space, route, 0) == 0);
        let (i, j) = self.lemma_open_on_route(route, 0, 0);
        let v = self.open_set.view();
        assert(v.contains_key(j as usize));
        assert(v[j as usize] == self.nodes@[j]);
        assert(f_of(n) <= f_of(self.nodes@[j]));
        assert(n == self.nodes@[n.id as int]);
        assert(n.h_cost == 0);
        assert(self.nodes@[j].h_cost == route[i].action.pos.spec_distance(end));
        lemma_estimate_within_rest(moves, space, route, self.origin@, end, i);
        assert(i * MINIMUM_IMPROVEMENT <= (route.len() - 1) * MINIMUM_IMPROVEMENT) by (nonlinear_arith)
            requires
                i <= route.len() - 1,
        ;
    }

    /// While a route from the start to the goal stays below the infinite
    /// cost (with the minimum improvement per move added), the open set is
    /// not empty: a search ends exhausted only when no such route exists.
    pub proof fn lemma_open_while_route_exists(&self, route: Seq<PathNode<P>>)
        requires
            self.searching(),
            self.closed_expanded(),
            is_route(self.moves(), route, self.origin(), self.target()),
            route_cost(self.moves(), self.space(), route) + route.len() * MINIMUM_IMPROVEMENT
                < self.config().cost_inf,
        ensures
            self.open_nodes() != Map::<usize, Node<P>>::empty(),
    {
        assert(route.take(1).len() == 1);
        assert(prefix_cost(self.moves@, self.space, route, 0) == 0);
        let (i, j) = self.lemma_open_on_route(route, 0, 0);
        assert(self.open_nodes().contains_key(j as usize));
    }

    /// Distinct nodes of the visited store have distinct identities: a
    /// position reached by two different moves is held as two nodes, each
    /// with its own cost.
    pub proof fn lemma_visited_identities_distinct(&self, start: P, end: P, i: int, j: int)
        requires
            self.inv(start, end),
            0 <= i < self.visited().len(),
            0 <= j < self.visited().len(),
            i != j,
        ensures
            self.visited()[i].action != self.visited()[j].action,
    {
        let m = stored_entries(self.closed_set);
        assert(m[identity_key(self.nodes@[i].action) as u128] == i);
        assert(m[identity_key(self.nodes@[j].action) as u128] == j);
    }

    /// After a reset, a calculator holds exactly the state of a new one
    /// built from the same moveset, configuration and space.
    pub proof fn lemma_reset_matches_fresh(reused: &Self, fresh: &Self)
        requires
            reused.is_clear(),
            fresh.is_clear(),
            reused.moves() == fresh.moves(),
            reused.config() == fresh.config(),
            reused.space() == fresh.space(),
        ensures
            reused.open_nodes() == fresh.open_nodes(),
            reused.stored() == fresh.stored(),
            reused.visited() == fresh.visited(),
    {
        assert(reused.visited() =~= fresh.visited());
    }
}

/// Cost of the first `k + 1` nodes of `route`.
pub open spec fn prefix_cost<P: GraphPosition, S: Space<P>>(
    moves: Seq<MoveAction<P>>,
    space: S,
    route: Seq<PathNode<P>>,
    k: int,
) -> nat {
    route_cost(moves, space, route.take(k + 1))
}

/// The distance estimate to `end` is consistent: it is zero at `end`, and
/// across any move it falls by no more than what entering the neighbor costs.
pub open spec fn consistent<P: GraphPosition, S: Space<P>>(
    moves: Seq<MoveAction<P>>,
    space: S,
    end: P,
) -> bool {
    &&& end.spec_distance(end) == 0
    &&& forall|x: P, a: int|
        #![trigger x.spec_distance(end), moves[a]]
        0 <= a < moves.len() ==> x.spec_distance(end) <= moves[a].cost + space.spec_cost(
            x.spec_offset(moves[a].offset),
        ) + x.spec_offset(moves[a].offset).spec_distance(end)
}

proof fn lemma_prefix_step<P: GraphPosition, S: Space<P>>(
    moves: Seq<MoveAction<P>>,
    space: S,
    route: Seq<PathNode<P>>,
    k: int,
)
    requires
        0 <= k,
        k + 1 < route.len(),
    ensures
        prefix_cost(moves, space, route, k + 1) == prefix_cost(moves, space, route, k) + step_cost(
            moves,
            space,
            route[k + 1].action,
        ),
{
    assert(route.take(k + 2).drop_last() =~= route.take(k + 1));
    assert(route.take(k + 2).last() == route[k + 1]);
}

/// The cost of a route's prefix is within the cost of the route.
proof fn lemma_prefix_within_route<P: GraphPosition, S: Space<P>>(
    moves: Seq<MoveAction<P>>,
    space: S,
    route: Seq<PathNode<P>>,
    k: int,
)
    requires
        0 <= k < route.len(),
    ensures
        prefix_cost(moves, space, route, k) <= route_cost(moves, space, route),
    decreases route.len() - k,
{
    if k == route.len() - 1 {
        assert(route.take(k + 1) =~= route);
    } else {
        lemma_prefix_within_route(moves, space, route, k + 1);
        lemma_prefix_step(moves, space, route, k);
    }
}

/// Along a route, the estimate at a node plus the cost so far is within the
/// whole route's cost.
proof fn lemma_estimate_within_rest<P: GraphPosition, S: Space<P>>(
    moves: Seq<MoveAction<P>>,
    space: S,
    route: Seq<PathNode<P>>,
    start: P,
    end: P,
    i: int,
)
    requires
        is_route(moves, route, start, end),
        consistent(moves, space, end),
        0 <= i < route.len(),
    ensures
        route[i].action.pos.spec_distance(end) + prefix_cost(moves, space, route, i) <= route_cost(
            moves,
            space,
            route,
        ),
    decreases route.len() - i,
{
    if i == route.len() - 1 {
        assert(route.take(i + 1) =~= route);
    } else {
        lemma_estimate_within_rest(moves, space, route, start, end, i + 1);
        assert(valid_step(moves, route[i].action, route[i + 1].action));
        let a = route[i + 1].action.edge.unwrap() as int;
        let x = route[i].action.pos;
        assert(x.spec_distance(end) <= moves[a].cost + space.spec_cost(x.spec_offset(moves[a].offset))
            + x.spec_offset(moves[a].offset).spec_distance(end));
        lemma_prefix_step(moves, space, route, i);
    }
}

/// Relaxation stays true while nodes are only added and costs only fall.
proof fn lemma_relaxed_through_persists<P: GraphPosition, S: Space<P>>(
    moves: Seq<MoveAction<P>>,
    space: S,
    v0: Seq<Node<P>>,
    v1: Seq<Node<P>>,
    n0: Node<P>,
    n1: Node<P>,
)
    requires
        relaxed_through(moves, space, v0, n0),
        v1.len() >= v0.len(),
        forall|i: int|
            0 <= i < v0.len() ==> (#[trigger] v1[i]).action == v0[i].action && v1[i].g_cost
                <= v0[i].g_cost,
        n1.action == n0.action,
        n1.g_cost == n0.g_cost,
    ensures
        relaxed_through(moves, space, v1, n1),
{
    assert forall|a: int| 0 <= a < moves.len() implies exists|j: int|
        0 <= j < v1.len() && (#[trigger] v1[j]).action == neighbor(moves, n1.action.pos, a)
            && v1[j].g_cost <= n1.g_cost + (#[trigger] moves[a]).cost + space.spec_cost(
            neighbor(moves, n1.action.pos, a).pos,
        ) + MINIMUM_IMPROVEMENT by {
        let j = choose|j: int|
            0 <= j < v0.len() && (#[trigger] v0[j]).action == neighbor(moves, n0.action.pos, a)
                && v0[j].g_cost <= n0.g_cost + moves[a].cost + space.spec_cost(
                neighbor(moves, n0.action.pos, a).pos,
            ) + MINIMUM_IMPROVEMENT;
        assert(v1[j].action == v0[j].action);
    }
}

/// A key depends on the edge as much as on the position: the same position
/// reached by different moves gives different keys.
pub proof fn lemma_edge_distinguishes_key<P: GraphPosition>(a: SpatialAction<P>, b: SpatialAction<P>)
    requires
        a.pos == b.pos,
        a.edge != b.edge,
    ensures
        identity_key(a) != identity_key(b),
{
    if identity_key(a) == identity_key(b) {
        lemma_identity_key_injective(a, b);
    }
}

/// On a route whose cost stays below the infinite cost, no position after
/// the start is impassable: a goal that only impassable positions lead to
/// has no such route.
pub proof fn lemma_route_avoids_impassable<P: GraphPosition, S: Space<P>>(
    moves: Seq<MoveAction<P>>,
    space: S,
    path: Seq<PathNode<P>>,
    start: P,
    end: P,
    cost_inf: u64,
)
    requires
        is_route(moves, path, start, end),
        route_cost(moves, space, path) < cost_inf,
    ensures
        forall|k: int| 1 <= k < path.len() ==> space.spec_cost(#[trigger] path[k].action.pos) < cost_inf,
{
    assert forall|k: int| 1 <= k < path.len() implies space.spec_cost(#[trigger] path[k].action.pos) < cost_inf by {
        lemma_step_within_route(moves, space, path, k);
        let j = k - 1;
        assert(valid_step(moves, path[j].action, path[j + 1].action));
        assert(j + 1 == k);
    }
}

proof fn lemma_step_within_route<P: GraphPosition, S: Space<P>>(
    moves: Seq<MoveAction<P>>,
    space: S,
    path: Seq<PathNode<P>>,
    k: int,
)
    requires
        1 <= k < path.len(),
    ensures
        step_cost(moves, space, path[k].action) <= route_cost(moves, space, path),
    decreases path.len(),
{
    if k < path.len() - 1 {
        lemma_step_within_route(moves, space, path.drop_last(), k);
        assert(path.drop_last()[k] == path[k]);
    }
}

} // verus!
