//! The graph store: decision nodes in an arena, terminals by value, and
//! the parent set of every node kept in step with every edge.

use vstd::prelude::*;

verus! {

/// The largest number of decision nodes a diagram holds, so that export
/// indices (two reserved for the terminals) fit in a `u32`.
pub const MAX_NODES: usize = 4294967293;

/// An edge: a decision node of the arena, by its slot, or a terminal value.
#[derive(Clone, Copy, Debug, PartialEq, Eq, Structural)]
pub enum Link {
    Node(usize),
    Leaf(bool),
}

/// The source of a back-reference: a decision node, by its slot, or the
/// diagram itself for a published root.
#[derive(Clone, Copy, Debug, PartialEq, Eq, Structural)]
pub enum Parent {
    Root,
    Node(usize),
}

/// Which outgoing edge of a decision node: `Left` is low (0), `Right` is high (1).
#[derive(Clone, Copy, Debug, PartialEq, Eq, Structural)]
pub enum BinaryIndex {
    Left,
    Right,
}

/// A decision node: its variable, its low and high edges, and the sources of
/// the edges that target it.
pub struct DecisionNode<T> {
    pub variable: T,
    pub links: (Link, Link),
    pub parents: Vec<Parent>,
}

/// The graph store: every decision node, the parent sets of the two
/// terminals, and the published roots.
pub struct BinaryDecisionDiagram<T> {
    nodes: Vec<DecisionNode<T>>,
    leaf_parents: (Vec<Parent>, Vec<Parent>),
    roots: Vec<Link>,
}

/// The edge on `side` of a pair of low and high edges.
pub open spec fn side_of(links: (Link, Link), side: BinaryIndex) -> Link {
    match side {
        BinaryIndex::Left => links.0,
        BinaryIndex::Right => links.1,
    }
}

/// The side opposite `side`.
pub open spec fn other_side(side: BinaryIndex) -> BinaryIndex {
    match side {
        BinaryIndex::Left => BinaryIndex::Right,
        BinaryIndex::Right => BinaryIndex::Left,
    }
}

impl<T> BinaryDecisionDiagram<T> {
    /// The number of decision nodes.
    pub closed spec fn node_count(&self) -> nat {
        self.nodes@.len()
    }

    /// The variable of decision node `i`.
    pub closed spec fn variable(&self, i: int) -> T {
        self.nodes@[i].variable
    }

    /// The low and high edges of decision node `i`.
    pub closed spec fn links(&self, i: int) -> (Link, Link) {
        self.nodes@[i].links
    }

    /// The published roots, in order of publication.
    pub closed spec fn root_seq(&self) -> Seq<Link> {
        self.roots@
    }

    /// The edge of node `i` on the given side.
    pub open spec fn child(&self, i: int, side: BinaryIndex) -> Link {
        side_of(self.links(i), side)
    }

    /// `l` is a terminal or a decision node of this diagram.
    pub open spec fn link_valid(&self, l: Link) -> bool {
        match l {
            Link::Node(i) => i < self.node_count(),
            Link::Leaf(_) => true,
        }
    }

    /// `p` is the source of an edge that targets `t`.
    pub open spec fn is_source(&self, p: Parent, t: Link) -> bool {
        match p {
            Parent::Root => self.root_seq().contains(t),
            Parent::Node(i) => i < self.node_count() && (self.links(i as int).0 == t
                || self.links(i as int).1 == t),
        }
    }

    /// The stored back-references of `t`, in storage order.
    pub closed spec fn parent_seq(&self, t: Link) -> Seq<Parent> {
        match t {
            Link::Node(i) => self.nodes@[i as int].parents@,
            Link::Leaf(false) => self.leaf_parents.0@,
            Link::Leaf(true) => self.leaf_parents.1@,
        }
    }

    /// The parent set of `t`.
    pub open spec fn parents(&self, t: Link) -> Set<Parent> {
        self.parent_seq(t).to_set()
    }

    /// Every node's edges stay in the arena and point to earlier slots, so
    /// the graph is acyclic.
    pub open spec fn edges_ok(&self) -> bool {
        &&& self.node_count() <= MAX_NODES
        &&& forall|i: int|
            0 <= i < self.node_count() ==> {
                &&& (#[trigger] self.links(i)).0 matches Link::Node(j) ==> j < i
                &&& self.links(i).1 matches Link::Node(j) ==> j < i
            }
        &&& forall|k: int|
            0 <= k < self.root_seq().len() ==> self.link_valid(#[trigger] self.root_seq()[k])
    }

    /// The stored back-references of each target are, without repetition,
    /// exactly the sources of the edges that target it.
    pub open spec fn parents_ok(&self) -> bool {
        forall|t: Link|
            #![trigger self.parent_seq(t)]
            self.link_valid(t) ==> {
                &&& self.parent_seq(t).no_duplicates()
                &&& forall|p: Parent|
                    #![trigger self.parent_seq(t).contains(p)]
                    self.parent_seq(t).contains(p) <==> self.is_source(p, t)
            }
    }

    /// The diagram is acyclic and its parent sets match its edges.
    pub open spec fn wf(&self) -> bool {
        self.edges_ok() && self.parents_ok()
    }

    /// Node variables, edges and roots are the same in both diagrams.
    pub open spec fn same_shape(&self, other: &Self) -> bool {
        &&& self.node_count() == other.node_count()
        &&& self.root_seq() == other.root_seq()
        &&& forall|i: int| 0 <= i < self.node_count() ==> #[trigger] self.variable(i) == other.variable(i)
        &&& forall|i: int| 0 <= i < self.node_count() ==> #[trigger] self.links(i) == other.links(i)
    }

    /// An empty diagram: no decision nodes, no roots.
    pub fn new() -> (r: Self)
        ensures
            r.wf(),
            r.node_count() == 0,
            r.root_seq() == Seq::<Link>::empty(),
    {
        BinaryDecisionDiagram { nodes: Vec::new(), leaf_parents: (Vec::new(), Vec::new()), roots: Vec::new() }
    }

    /// The number of decision nodes.
    pub fn node_len(&self) -> (r: usize)
        ensures
            r == self.node_count(),
    {
        self.nodes.len()
    }

    /// The low and high edges of decision node `i`.
    pub fn node_links(&self, i: usize) -> (r: (Link, Link))
        requires
            i < self.node_count(),
        ensures
            r == self.links(i as int),
    {
        self.nodes[i].links
    }

    /// The variable of decision node `i`.
    pub fn node_variable(&self, i: usize) -> (r: &T)
        requires
            i < self.node_count(),
        ensures
            *r == self.variable(i as int),
    {
        &self.nodes[i].variable
    }

    /// The parent set stored on decision node `i`.
    pub fn node_parents(&self, i: usize) -> (r: &Vec<Parent>)
        requires
            i < self.node_count(),
        ensures
            r@ == self.parent_seq(Link::Node(i)),
    {
        &self.nodes[i].parents
    }

    /// The parent set the diagram keeps for the terminal `value`.
    pub fn leaf_parents(&self, value: bool) -> (r: &Vec<Parent>)
        ensures
            r@ == self.parent_seq(Link::Leaf(value)),
    {
        if value {
            &self.leaf_parents.1
        } else {
            &self.leaf_parents.0
        }
    }

    /// The published roots.
    pub fn get_roots(&self) -> (r: &Vec<Link>)
        ensures
            r@ == self.root_seq(),
    {
        &self.roots
    }

    /// Adds `p` to the stored back-references of `t`.
    fn push_parent(&mut self, t: Link, p: Parent)
        requires
            old(self).link_valid(t),
        ensures
            final(self).same_shape(old(self)),
            final(self).parent_seq(t) == old(self).parent_seq(t).push(p),
            forall|u: Link|
                u != t && old(self).link_valid(u) ==> #[trigger] final(self).parent_seq(u)
                    == old(self).parent_seq(u),
    {
        match t {
            Link::Node(i) => {
                self.nodes[i].parents.push(p);
            },
            Link::Leaf(false) => {
                self.leaf_parents.0.push(p);
            },
            Link::Leaf(true) => {
                self.leaf_parents.1.push(p);
            },
        }
    }

    /// Removes `p` from the stored back-references of `t`.
    fn remove_parent(&mut self, t: Link, p: Parent)
        requires
            old(self).link_valid(t),
            old(self).parent_seq(t).no_duplicates(),
            old(self).parent_seq(t).contains(p),
        ensures
            final(self).same_shape(old(self)),
            final(self).parent_seq(t).no_duplicates(),
            forall|q: Parent|
                #[trigger] final(self).parent_seq(t).contains(q) <==> (q != p && old(
                    self,
                ).parent_seq(t).contains(q)),
            forall|u: Link|
                u != t && old(self).link_valid(u) ==> #[trigger] final(self).parent_seq(u)
                    == old(self).parent_seq(u),
    {
        let k = match t {
            Link::Node(i) => position(&self.nodes[i].parents, p),
            Link::Leaf(false) => position(&self.leaf_parents.0, p),
            Link::Leaf(true) => position(&self.leaf_parents.1, p),
        };
        let ghost before = self.parent_seq(t);
        match t {
            Link::Node(i) => {
                self.nodes[i].parents.remove(k);
            },
            Link::Leaf(false) => {
                self.leaf_parents.0.remove(k);
            },
            Link::Leaf(true) => {
                self.leaf_parents.1.remove(k);
            },
        }
        proof {
            let after = self.parent_seq(t);
            assert(after == before.remove(k as int));
            assert forall|q: Parent| #[trigger] after.contains(q) <==> (q != p && before.contains(q)) by {
                if after.contains(q) {
                    let j = choose|j: int| 0 <= j < after.len() && after[j] == q;
                    if j < k {
                        assert(before[j] == q);
                    } else {
                        assert(before[j + 1] == q);
                    }
                }
                if q != p && before.contains(q) {
                    let j = choose|j: int| 0 <= j < before.len() && before[j] == q;
                    if j < k {
                        assert(after[j] == q);
                    } else {
                        assert(after[j - 1] == q);
                    }
                }
            }
        }
    }

    /// Adds a decision node with the given variable and edges; returns its edge.
    pub fn add_node(&mut self, variable: T, low: Link, high: Link) -> (r: Link)
        requires
            old(self).wf(),
            old(self).link_valid(low),
            old(self).link_valid(high),
            old(self).node_count() < MAX_NODES,
        ensures
            final(self).wf(),
            r == Link::Node(old(self).node_count() as usize),
            final(self).node_count() == old(self).node_count() + 1,
            final(self).variable(old(self).node_count() as int) == variable,
            final(self).links(old(self).node_count() as int) == (low, high),
            final(self).root_seq() == old(self).root_seq(),
            forall|i: int|
                0 <= i < old(self).node_count() ==> #[trigger] final(self).variable(i)
                    == old(self).variable(i),
            forall|i: int|
                0 <= i < old(self).node_count() ==> #[trigger] final(self).links(i) == old(
                    self,
                ).links(i),
    {
        let n = self.nodes.len();
        let ghost s0 = *self;
        self.nodes.push(DecisionNode { variable, links: (low, high), parents: Vec::new() });
        let ghost s1 = *self;
        assert(s1.parent_seq(Link::Node(n)) =~= Seq::<Parent>::empty());
        self.push_parent(low, Parent::Node(n));
        let ghost s2 = *self;
        if high != low {
            self.push_parent(high, Parent::Node(n));
        }
        proof {
            assert forall|t: Link| #![trigger self.parent_seq(t)] self.link_valid(t) implies {
                &&& self.parent_seq(t).no_duplicates()
                &&& forall|p: Parent|
                    #![trigger self.parent_seq(t).contains(p)]
                    self.parent_seq(t).contains(p) <==> self.is_source(p, t)
            } by {
                if t != Link::Node(n) {
                    assert(s0.link_valid(t));
                    assert(s1.parent_seq(t) == s0.parent_seq(t));
                    assert(!s0.parent_seq(t).contains(Parent::Node(n)));
                    if t == low || t == high {
                        assert(self.parent_seq(t) == s0.parent_seq(t).push(Parent::Node(n)));
                    } else {
                        assert(self.parent_seq(t) == s0.parent_seq(t));
                    }
                }
                assert forall|p: Parent| #[trigger] self.parent_seq(t).contains(p) <==> self.is_source(p, t) by {
                    if t != Link::Node(n) {
                        assert(s0.parent_seq(t).contains(p) <==> s0.is_source(p, t));
                        let ps = self.parent_seq(t);
                        let ps0 = s0.parent_seq(t);
                        if t == low || t == high {
                            assert(ps[ps0.len() as int] == Parent::Node(n));
                            if ps.contains(p) && p != Parent::Node(n) {
                                let j = choose|j: int| 0 <= j < ps.len() && ps[j] == p;
                                assert(ps0[j] == p);
                            }
                            if ps0.contains(p) {
                                let j = choose|j: int| 0 <= j < ps0.len() && ps0[j] == p;
                                assert(ps[j] == p);
                            }
                        }
                        assert(self.links(n as int) == (low, high));
                        if let Parent::Node(i) = p {
                            if i < n {
                                assert(s0.links(i as int) == self.links(i as int));
                            }
                        }
                    } else {
                        if let Parent::Node(i) = p {
                            if i < n {
                                assert(s0.links(i as int) == self.links(i as int));
                            }
                        }
                        if p == Parent::Root {
                            assert(!s0.root_seq().contains(t));
                        }
                        assert(self.links(n as int) == (low, high));
                    }
                }
            }
            assert forall|i: int| 0 <= i < self.node_count() implies {
                &&& (#[trigger] self.links(i)).0 matches Link::Node(j) ==> j < i
                &&& self.links(i).1 matches Link::Node(j) ==> j < i
            } by {
                if i < n {
                    assert(s0.links(i) == self.links(i));
                } else {
                    assert(self.links(i) == (low, high));
                }
            }
            assert forall|k: int| 0 <= k < self.root_seq().len() implies self.link_valid(#[trigger] self.root_seq()[k]) by {
                assert(s0.link_valid(s0.root_seq()[k]));
            }
        }
        Link::Node(n)
    }


    /// Points the `side` edge of decision node `node` at `target`: the
    /// back-reference leaves the old target's parent set, unless the node's
    /// other edge still targets it, and joins the new target's.
    pub fn retarget(&mut self, node: usize, side: BinaryIndex, target: Link)
        requires
            old(self).wf(),
            node < old(self).node_count(),
            old(self).link_valid(target),
            target matches Link::Node(j) ==> j < node,
        ensures
            final(self).wf(),
            final(self).node_count() == old(self).node_count(),
            final(self).root_seq() == old(self).root_seq(),
            final(self).links(node as int) == (match side {
                BinaryIndex::Left => (target, old(self).links(node as int).1),
                BinaryIndex::Right => (old(self).links(node as int).0, target),
            }),
            forall|i: int|
                0 <= i < old(self).node_count() ==> #[trigger] final(self).variable(i)
                    == old(self).variable(i),
            forall|i: int|
                0 <= i < old(self).node_count() && i != node ==> #[trigger] final(self).links(i)
                    == old(self).links(i),
            final(self).parents(target).contains(Parent::Node(node)),
            old(self).child(node as int, side) != target ==> (final(self).parents(
                old(self).child(node as int, side),
            ).contains(Parent::Node(node)) <==> old(self).child(node as int, other_side(side))
                == old(self).child(node as int, side)),
    {
        let (lo, hi) = self.nodes[node].links;
        let (prev, other) = match side {
            BinaryIndex::Left => (lo, hi),
            BinaryIndex::Right => (hi, lo),
        };
        if prev == target {
            return ;
        }
        let ghost s0 = *self;
        match side {
            BinaryIndex::Left => {
                self.nodes[node].links.0 = target;
            },
            BinaryIndex::Right => {
                self.nodes[node].links.1 = target;
            },
        }
        let ghost s1 = *self;
        assert(s1.same_shape(&s1));
        assert(forall|u: Link| s0.link_valid(u) ==> #[trigger] s1.parent_seq(u) == s0.parent_seq(u));
        assert(s0.is_source(Parent::Node(node), prev));
        if other != prev {
            self.remove_parent(prev, Parent::Node(node));
        }
        let ghost s2 = *self;
        assert(s0.is_source(Parent::Node(node), target) <==> other == target);
        if other != target {
            self.push_parent(target, Parent::Node(node));
        }
        proof {
            assert(self.links(node as int) == (if side == BinaryIndex::Left { (target, other) } else { (other, target) }));
            assert forall|i: int| 0 <= i < self.node_count() && i != node implies #[trigger] self.links(i) == s0.links(i) by {
                assert(s1.links(i) == s0.links(i));
            }
            assert forall|t: Link| #![trigger self.parent_seq(t)] self.link_valid(t) implies {
                &&& self.parent_seq(t).no_duplicates()
                &&& forall|p: Parent|
                    #![trigger self.parent_seq(t).contains(p)]
                    self.parent_seq(t).contains(p) <==> self.is_source(p, t)
            } by {
                let ps = self.parent_seq(t);
                let ps0 = s0.parent_seq(t);
                assert(ps0.no_duplicates());
                assert forall|p: Parent| ps0.contains(p) <==> s0.is_source(p, t) by {
                    assert(ps0.contains(p) <==> s0.is_source(p, t));
                }
                if t == target && other != target {
                    assert(ps == ps0.push(Parent::Node(node)));
                    assert(ps[ps0.len() as int] == Parent::Node(node));
                    assert(!ps0.contains(Parent::Node(node)));
                    assert forall|p: Parent| ps.contains(p) <==> (ps0.contains(p) || p == Parent::Node(node)) by {
                        if ps.contains(p) && p != Parent::Node(node) {
                            let j = choose|j: int| 0 <= j < ps.len() && ps[j] == p;
                            assert(ps0[j] == p);
                        }
                        if ps0.contains(p) {
                            let j = choose|j: int| 0 <= j < ps0.len() && ps0[j] == p;
                            assert(ps[j] == p);
                        }
                    }
                } else if t == prev && other != prev {
                    assert(ps == s2.parent_seq(t));
                    assert forall|p: Parent| ps.contains(p) <==> (ps0.contains(p) && p != Parent::Node(node)) by {
                        assert(s2.parent_seq(t).contains(p) <==> (p != Parent::Node(node) && s1.parent_seq(t).contains(p)));
                    }
                } else {
                    assert(ps == ps0);
                }
                assert forall|p: Parent| #[trigger] ps.contains(p) <==> self.is_source(p, t) by {
                    if let Parent::Node(i) = p {
                        if i < self.node_count() && i != node {
                            assert(self.links(i as int) == s0.links(i as int));
                        }
                    }
                }
            }
            assert forall|k: int| 0 <= k < self.root_seq().len() implies self.link_valid(
                #[trigger] self.root_seq()[k],
            ) by {
                assert(s0.link_valid(s0.root_seq()[k]));
            }
            assert forall|i: int| 0 <= i < self.node_count() implies {
                &&& (#[trigger] self.links(i)).0 matches Link::Node(j) ==> j < i
                &&& self.links(i).1 matches Link::Node(j) ==> j < i
            } by {
                if i != node {
                    assert(s0.links(i) == self.links(i));
                }
            }
        }
    }

    /// Publishes `l` as a root of the diagram; the diagram joins its parent set.
    pub fn add_root(&mut self, l: Link)
        requires
            old(self).wf(),
            old(self).link_valid(l),
        ensures
            final(self).wf(),
            final(self).root_seq() == (if old(self).root_seq().contains(l) {
                old(self).root_seq()
            } else {
                old(self).root_seq().push(l)
            }),
            final(self).node_count() == old(self).node_count(),
            forall|i: int|
                0 <= i < old(self).node_count() ==> #[trigger] final(self).variable(i)
                    == old(self).variable(i),
            forall|i: int|
                0 <= i < old(self).node_count() ==> #[trigger] final(self).links(i) == old(
                    self,
                ).links(i),
    {
        let mut k: usize = 0;
        while k < self.roots.len()
            invariant
                *self == *old(self),
                old(self).wf(),
                old(self).link_valid(l),
                forall|j: int| 0 <= j < k ==> self.root_seq()[j] != l,
            decreases self.roots.len() - k,
        {
            if self.roots[k] == l {
                return ;
            }
            k += 1;
        }
        let ghost s0 = *self;
        assert(!s0.parent_seq(l).contains(Parent::Root));
        self.roots.push(l);
        let ghost s1 = *self;
        assert(forall|u: Link| s0.link_valid(u) ==> #[trigger] s1.parent_seq(u) == s0.parent_seq(u));
        self.push_parent(l, Parent::Root);
        proof {
            assert forall|i: int| 0 <= i < self.node_count() implies #[trigger] self.links(i) == s0.links(i) by {
                assert(s1.links(i) == s0.links(i));
            }
            assert forall|t: Link| #![trigger self.parent_seq(t)] self.link_valid(t) implies {
                &&& self.parent_seq(t).no_duplicates()
                &&& forall|p: Parent|
                    #![trigger self.parent_seq(t).contains(p)]
                    self.parent_seq(t).contains(p) <==> self.is_source(p, t)
            } by {
                let ps = self.parent_seq(t);
                let ps0 = s0.parent_seq(t);
                assert forall|p: Parent| ps0.contains(p) <==> s0.is_source(p, t) by {
                    assert(ps0.contains(p) <==> s0.is_source(p, t));
                }
                assert(self.root_seq().contains(t) <==> (s0.root_seq().contains(t) || t == l)) by {
                    if self.root_seq().contains(t) && t != l {
                        let j = choose|j: int| 0 <= j < self.root_seq().len() && self.root_seq()[j] == t;
                        assert(s0.root_seq()[j] == t);
                    }
                    if s0.root_seq().contains(t) {
                        let j = choose|j: int| 0 <= j < s0.root_seq().len() && s0.root_seq()[j] == t;
                        assert(self.root_seq()[j] == t);
                    }
                    assert(self.root_seq()[s0.root_seq().len() as int] == l);
                }
                if t == l {
                    assert(ps == ps0.push(Parent::Root));
                    assert(ps[ps0.len() as int] == Parent::Root);
                    assert forall|p: Parent| ps.contains(p) <==> (ps0.contains(p) || p == Parent::Root) by {
                        if ps.contains(p) && p != Parent::Root {
                            let j = choose|j: int| 0 <= j < ps.len() && ps[j] == p;
                            assert(ps0[j] == p);
                        }
                        if ps0.contains(p) {
                            let j = choose|j: int| 0 <= j < ps0.len() && ps0[j] == p;
                            assert(ps[j] == p);
                        }
                    }
                } else {
                    assert(ps == ps0);
                }
                assert forall|p: Parent| #[trigger] ps.contains(p) <==> self.is_source(p, t) by {
                    if let Parent::Node(i) = p {
                        if i < self.node_count() {
                            assert(self.links(i as int) == s0.links(i as int));
                        }
                    }
                }
            }
            assert forall|i: int| 0 <= i < self.node_count() implies {
                &&& (#[trigger] self.links(i)).0 matches Link::Node(j) ==> j < i
                &&& self.links(i).1 matches Link::Node(j) ==> j < i
            } by {
                assert(s0.links(i) == self.links(i));
            }
            assert forall|k: int| 0 <= k < self.root_seq().len() implies self.link_valid(#[trigger] self.root_seq()[k]) by {
                if k < s0.root_seq().len() {
                    assert(s0.link_valid(s0.root_seq()[k]));
                }
            }
        }
    }
}

/// The position of `p` in `v`.
fn position(v: &Vec<Parent>, p: Parent) -> (k: usize)
    requires
        v@.contains(p),
    ensures
        k < v@.len(),
        v@[k as int] == p,
{
    let mut k: usize = 0;
    while k < v.len()
        invariant
            v@.contains(p),
            forall|j: int| 0 <= j < k ==> v@[j] != p,
        decreases v.len() - k,
    {
        if v[k] == p {
            return k;
        }
        k += 1;
    }
    proof {
        let j = choose|j: int| 0 <= j < v@.len() && v@[j] == p;
        assert(v@[j] != p);
    }
    0
}

/// Every edge's source is in its target's parent set: a decision node in
/// the parent set of both its children, the diagram in that of each root.
pub proof fn lemma_parent_consistency<T>(d: &BinaryDecisionDiagram<T>, i: usize, side: BinaryIndex)
    requires
        d.wf(),
        i < d.node_count(),
    ensures
        d.parents(d.child(i as int, side)).contains(Parent::Node(i)),
        forall|k: int|
            0 <= k < d.root_seq().len() ==> d.parents(#[trigger] d.root_seq()[k]).contains(Parent::Root),
{
    let t = d.child(i as int, side);
    assert(d.parent_seq(t).contains(Parent::Node(i)));
    assert forall|k: int| 0 <= k < d.root_seq().len() implies d.parents(
        #[trigger] d.root_seq()[k],
    ).contains(Parent::Root) by {
        let r = d.root_seq()[k];
        assert(d.link_valid(r));
        assert(d.root_seq().contains(r));
        assert(d.parent_seq(r).contains(Parent::Root));
    }
}

} // verus!
