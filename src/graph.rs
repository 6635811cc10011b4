//! One layer of the proximity graph: an undirected adjacency over node ids,
//! with an optional entry node.
use vstd::prelude::*;

verus! {

/// What a layer holds: its entry node, its node ids in increasing order, and
/// the neighbor list of each node.
pub struct LayerModel {
    pub entry: Option<u32>,
    pub nodes: Seq<u32>,
    pub adj: Map<u32, Seq<u32>>,
}

impl LayerModel {
    /// The node list enumerates the adjacency's keys in increasing order.
    pub open spec fn consistent(self) -> bool {
        &&& forall|i: int, j: int|
            0 <= i < j < self.nodes.len() ==> #[trigger] self.nodes[i] < #[trigger] self.nodes[j]
        &&& forall|k: u32| #[trigger] self.adj.contains_key(k) <==> self.nodes.contains(k)
    }
}

/// `m` with the directed link `a -> b` recorded: `a` is created when it is
/// missing, and `b` is appended to its list unless already there.
pub open spec fn link(m: Map<u32, Seq<u32>>, a: u32, b: u32) -> Map<u32, Seq<u32>> {
    if m.contains_key(a) {
        if m[a].contains(b) {
            m
        } else {
            m.insert(a, m[a].push(b))
        }
    } else {
        m.insert(a, seq![b])
    }
}

/// `m` with the undirected edge between `a` and `b` recorded on both ends.
pub open spec fn link_both(m: Map<u32, Seq<u32>>, a: u32, b: u32) -> Map<u32, Seq<u32>> {
    link(link(m, a, b), b, a)
}

/// Every edge is recorded on both of its ends.
pub open spec fn symmetric(m: Map<u32, Seq<u32>>) -> bool {
    forall|a: u32, b: u32|
        m.contains_key(a) && #[trigger] m[a].contains(b) ==> m.contains_key(b) && m[b].contains(a)
}

/// No node is its own neighbor.
pub open spec fn irreflexive(m: Map<u32, Seq<u32>>) -> bool {
    forall|a: u32| #[trigger] m.contains_key(a) ==> !m[a].contains(a)
}

/// No neighbor list repeats an id.
pub open spec fn duplicate_free(m: Map<u32, Seq<u32>>) -> bool {
    forall|a: u32| #[trigger] m.contains_key(a) ==> m[a].no_duplicates()
}

/// An adjacency that is symmetric, irreflexive and free of duplicates.
pub open spec fn well_linked(m: Map<u32, Seq<u32>>) -> bool {
    symmetric(m) && irreflexive(m) && duplicate_free(m)
}

/// Adding an isolated node keeps an adjacency well linked.
pub proof fn lemma_add_isolated(m: Map<u32, Seq<u32>>, a: u32)
    requires
        well_linked(m),
        !m.contains_key(a),
    ensures
        well_linked(m.insert(a, Seq::empty())),
{
    let m2 = m.insert(a, Seq::empty());
    assert forall|x: u32, y: u32| m2.contains_key(x) && #[trigger] m2[x].contains(y) implies m2.contains_key(y)
        && m2[y].contains(x) by {
        assert(x != a);
        assert(m[x].contains(y));
        if y == a {
            assert(m.contains_key(y));
        }
    }
    assert forall|x: u32| #[trigger] m2.contains_key(x) implies m2[x].no_duplicates() by {
        if x != a {
            assert(m.contains_key(x));
        }
    }
}

proof fn lemma_push_contains(s: Seq<u32>, b: u32, y: u32)
    ensures
        s.push(b).contains(y) <==> (s.contains(y) || y == b),
{
    if s.push(b).contains(y) {
        let i = choose|i: int| 0 <= i < s.push(b).len() && s.push(b)[i] == y;
        if i < s.len() {
            assert(s[i] == y);
        }
    }
    if s.contains(y) {
        let i = choose|i: int| 0 <= i < s.len() && s[i] == y;
        assert(s.push(b)[i] == y);
    }
    assert(s.push(b)[s.len() as int] == b);
}

proof fn lemma_link_lists(m: Map<u32, Seq<u32>>, a: u32, b: u32)
    ensures
        link(m, a, b).contains_key(a),
        forall|x: u32| #[trigger] link(m, a, b).contains_key(x) <==> (m.contains_key(x) || x == a),
        forall|x: u32, y: u32|
            x != a && m.contains_key(x) ==> (#[trigger] link(m, a, b)[x].contains(y) <==> m[x].contains(y)),
        forall|y: u32|
            #[trigger] link(m, a, b)[a].contains(y) <==> (y == b || (m.contains_key(a) && m[a].contains(y))),
        m.contains_key(a) && m[a].no_duplicates() ==> link(m, a, b)[a].no_duplicates(),
        link(m, a, b)[a].no_duplicates() || (m.contains_key(a) && !m[a].no_duplicates()),
{
    if m.contains_key(a) && !m[a].contains(b) {
        assert forall|y: u32| #[trigger] link(m, a, b)[a].contains(y) <==> (y == b || m[a].contains(y)) by {
            lemma_push_contains(m[a], b, y);
        }
    }
    if !m.contains_key(a) {
        assert forall|y: u32| #[trigger] link(m, a, b)[a].contains(y) <==> y == b by {
            if y == b {
                assert(seq![b][0] == b);
            }
        }
    }
}

/// Recording an edge between two distinct nodes keeps an adjacency well linked.
pub proof fn lemma_link_both(m: Map<u32, Seq<u32>>, a: u32, b: u32)
    requires
        well_linked(m),
        a != b,
    ensures
        well_linked(link_both(m, a, b)),
        forall|x: u32|
            #[trigger] link_both(m, a, b).contains_key(x) <==> (m.contains_key(x) || x == a || x == b),
        link_both(m, a, b)[a].contains(b),
        link_both(m, a, b)[b].contains(a),
{
    let m1 = link(m, a, b);
    let m2 = link(m1, b, a);
    lemma_link_lists(m, a, b);
    lemma_link_lists(m1, b, a);
    assert forall|x: u32, y: u32| m2.contains_key(x) && #[trigger] m2[x].contains(y) implies m2.contains_key(y)
        && m2[y].contains(x) by {
        if x == b {
            if y != a {
                assert(m.contains_key(b) && m[b].contains(y));
                assert(m[y].contains(b));
            }
        } else if x == a {
            if y != b {
                assert(m[a].contains(y));
                assert(m[y].contains(a));
            }
        } else {
            assert(m[x].contains(y));
            assert(m.contains_key(y) && m[y].contains(x));
        }
    }
    assert forall|x: u32| #[trigger] m2.contains_key(x) implies !m2[x].contains(x) by {
        if x != a && x != b {
            assert(m.contains_key(x));
        }
    }
    assert forall|x: u32| #[trigger] m2.contains_key(x) implies m2[x].no_duplicates() by {
        if x != a && x != b {
            assert(m.contains_key(x));
        } else if x == a {
            if m.contains_key(a) {
                assert(m[a].no_duplicates());
            }
        } else {
            if m.contains_key(b) {
                assert(m[b].no_duplicates());
            }
            if m1.contains_key(b) && b != a {
                assert(m1[b] == m[b] || !m.contains_key(b));
            }
        }
    }
}

/// One layer of the proximity graph. Node ids are kept in increasing order,
/// each with its list of neighbors.
pub struct GraphLayer {
    entry: Option<u32>,
    nodes: Vec<u32>,
    neighbors: Vec<Vec<u32>>,
    adj: Ghost<Map<u32, Seq<u32>>>,
}

impl View for GraphLayer {
    type V = LayerModel;

    closed spec fn view(&self) -> LayerModel {
        LayerModel { entry: self.entry, nodes: self.nodes@, adj: self.adj@ }
    }
}

fn holds(v: &Vec<u32>, x: u32) -> (r: bool)
    ensures
        r == v@.contains(x),
{
    let mut i: usize = 0;
    while i < v.len()
        invariant
            i <= v.len(),
            forall|j: int| 0 <= j < i ==> v@[j] != x,
        decreases v.len() - i,
    {
        if v[i] == x {
            return true;
        }
        i = i + 1;
    }
    false
}

impl GraphLayer {
    /// The stored lists agree with the model.
    pub closed spec fn wf(&self) -> bool {
        &&& forall|i: int, j: int|
            0 <= i < j < self.nodes.len() ==> #[trigger] self.nodes@[i] < #[trigger] self.nodes@[j]
        &&& forall|k: u32| #[trigger] self.adj@.contains_key(k) <==> self.nodes@.contains(k)
        &&& self.nodes.len() == self.neighbors.len()
        &&& forall|i: int|
            0 <= i < self.nodes.len() ==> #[trigger] self.adj@[self.nodes@[i]] == self.neighbors@[i]@
    }

    /// An empty layer with the given entry node.
    pub fn new(entry: Option<u32>) -> (r: GraphLayer)
        ensures
            r.wf(),
            r@.consistent(),
            r@ == (LayerModel { entry, nodes: Seq::empty(), adj: Map::empty() }),
    {
        GraphLayer { entry, nodes: Vec::new(), neighbors: Vec::new(), adj: Ghost(Map::empty()) }
    }

    /// Records the entry node.
    pub fn set_entry_node(&mut self, entry: u32)
        requires
            old(self).wf(),
        ensures
            final(self).wf(),
            final(self)@.consistent(),
            final(self)@ == (LayerModel { entry: Some(entry), ..old(self)@ }),
    {
        self.entry = Some(entry);
    }

    /// The entry node.
    pub fn entry(&self) -> (r: Option<u32>)
        ensures
            r == self@.entry,
    {
        self.entry
    }

    /// The node ids, in increasing order.
    pub fn node_ids(&self) -> (r: &Vec<u32>)
        ensures
            r@ == self@.nodes,
    {
        &self.nodes
    }

    /// Index of the first stored id that is not below `id`.
    fn locate(&self, id: u32) -> (r: usize)
        requires
            self.wf(),
        ensures
            r <= self.nodes.len(),
            forall|i: int| 0 <= i < r ==> self.nodes@[i] < id,
            forall|i: int| r <= i < self.nodes.len() ==> self.nodes@[i] >= id,
    {
        let mut lo: usize = 0;
        let mut hi: usize = self.nodes.len();
        while lo < hi
            invariant
                self.wf(),
                lo <= hi <= self.nodes.len(),
                forall|i: int| 0 <= i < lo ==> self.nodes@[i] < id,
                forall|i: int| hi <= i < self.nodes.len() ==> self.nodes@[i] >= id,
            decreases hi - lo,
        {
            let mid = lo + (hi - lo) / 2;
            if self.nodes[mid] < id {
                assert forall|i: int| 0 <= i <= mid implies self.nodes@[i] < id by {
                    if i < mid {
                        assert(self.nodes@[i] < self.nodes@[mid as int]);
                    }
                }
                lo = mid + 1;
            } else {
                assert forall|i: int| mid <= i < self.nodes.len() implies self.nodes@[i] >= id by {
                    if i > mid {
                        assert(self.nodes@[mid as int] < self.nodes@[i]);
                    }
                }
                hi = mid;
            }
        }
        lo
    }

    /// Whether `id` is a node of this layer.
    pub fn contains(&self, id: u32) -> (r: bool)
        requires
            self.wf(),
        ensures
            r == self@.adj.contains_key(id),
    {
        let pos = self.locate(id);
        proof {
            if self.nodes@.contains(id) {
                let i = choose|i: int| 0 <= i < self.nodes.len() && self.nodes@[i] == id;
                assert(i >= pos);
                if i > pos {
                    assert(self.nodes@[pos as int] < self.nodes@[i]);
                }
            }
        }
        pos < self.nodes.len() && self.nodes[pos] == id
    }

    /// The neighbors of node `id`.
    pub fn neighbors(&self, id: u32) -> (r: &Vec<u32>)
        requires
            self.wf(),
            self@.adj.contains_key(id),
        ensures
            r@ == self@.adj[id],
    {
        let pos = self.locate(id);
        proof {
            assert(self.nodes@.contains(id));
            let i = choose|i: int| 0 <= i < self.nodes.len() && self.nodes@[i] == id;
            assert(i >= pos);
            if i > pos {
                assert(self.nodes@[pos as int] < self.nodes@[i]);
            }
        }
        &self.neighbors[pos]
    }

    /// Places a new node with the given neighbor list at position `pos`.
    fn insert_at(&mut self, pos: usize, id: u32, list: Vec<u32>)
        requires
            old(self).wf(),
            pos <= old(self).nodes.len(),
            forall|i: int| 0 <= i < pos ==> old(self).nodes@[i] < id,
            forall|i: int| pos <= i < old(self).nodes.len() ==> old(self).nodes@[i] > id,
        ensures
            final(self).wf(),
            final(self)@.entry == old(self)@.entry,
            final(self)@.adj == old(self)@.adj.insert(id, list@),
            final(self)@.nodes == old(self)@.nodes.insert(pos as int, id),
    {
        let ghost old_nodes = self.nodes@;
        let ghost old_lists = self.neighbors@;
        let ghost old_adj = self.adj@;
        proof {
            assert(!old_nodes.contains(id));
        }
        self.nodes.insert(pos, id);
        self.neighbors.insert(pos, list);
        self.adj = Ghost(old_adj.insert(id, list@));
        assert forall|i: int, j: int|
            0 <= i < j < self.nodes.len() implies #[trigger] self.nodes@[i] < #[trigger] self.nodes@[j] by {
            if j < pos {
                assert(self.nodes@[i] == old_nodes[i] && self.nodes@[j] == old_nodes[j]);
            } else if j == pos {
                assert(self.nodes@[i] == old_nodes[i]);
            } else if i < pos {
                assert(self.nodes@[i] == old_nodes[i] && self.nodes@[j] == old_nodes[j - 1]);
            } else if i == pos {
                assert(self.nodes@[j] == old_nodes[j - 1]);
            } else {
                assert(self.nodes@[i] == old_nodes[i - 1] && self.nodes@[j] == old_nodes[j - 1]);
            }
        }
        assert forall|k: u32| #[trigger] self.adj@.contains_key(k) <==> self.nodes@.contains(k) by {
            if old_nodes.contains(k) {
                let i = choose|i: int| 0 <= i < old_nodes.len() && old_nodes[i] == k;
                if i < pos {
                    assert(self.nodes@[i] == k);
                } else {
                    assert(self.nodes@[i + 1] == k);
                }
            }
            if self.nodes@.contains(k) {
                let i = choose|i: int| 0 <= i < self.nodes.len() && self.nodes@[i] == k;
                if i < pos {
                    assert(old_nodes[i] == k);
                } else if i > pos {
                    assert(old_nodes[i - 1] == k);
                }
            }
            assert(self.nodes@[pos as int] == id);
        }
        assert forall|i: int| 0 <= i < self.nodes.len() implies #[trigger] self.adj@[self.nodes@[i]]
            == self.neighbors@[i]@ by {
            if i < pos {
                assert(self.nodes@[i] == old_nodes[i] && self.neighbors@[i] == old_lists[i]);
            } else if i > pos {
                assert(self.nodes@[i] == old_nodes[i - 1] && self.neighbors@[i] == old_lists[i - 1]);
            }
        }
    }

    /// Makes sure that `id` is a node of this layer; a new node has no neighbors.
    pub fn add_node(&mut self, id: u32)
        requires
            old(self).wf(),
        ensures
            final(self).wf(),
            final(self)@.consistent(),
            final(self)@.entry == old(self)@.entry,
            final(self)@.adj == if old(self)@.adj.contains_key(id) {
                old(self)@.adj
            } else {
                old(self)@.adj.insert(id, Seq::empty())
            },
            old(self)@.adj.contains_key(id) ==> final(self)@.nodes == old(self)@.nodes,
            (forall|i: int| 0 <= i < old(self)@.nodes.len() ==> old(self)@.nodes[i] < id)
                ==> final(self)@.nodes == old(self)@.nodes.push(id),
    {
        let pos = self.locate(id);
        if pos < self.nodes.len() && self.nodes[pos] == id {
            return;
        }
        proof {
            assert forall|i: int| pos <= i < self.nodes.len() implies self.nodes@[i] > id by {
                if i > pos {
                    assert(self.nodes@[pos as int] < self.nodes@[i]);
                }
            }
            assert(!self.nodes@.contains(id));
        }
        let ghost old_nodes = self.nodes@;
        self.insert_at(pos, id, Vec::new());
        proof {
            if forall|i: int| 0 <= i < old_nodes.len() ==> old_nodes[i] < id {
                assert(pos == old_nodes.len());
                assert(old_nodes.insert(pos as int, id) =~= old_nodes.push(id));
            }
        }
    }

    /// Records the directed link `a -> b`.
    fn add_half(&mut self, a: u32, b: u32)
        requires
            old(self).wf(),
        ensures
            final(self).wf(),
            final(self)@.entry == old(self)@.entry,
            final(self)@.adj == link(old(self)@.adj, a, b),
            old(self)@.adj.contains_key(a) ==> final(self)@.nodes == old(self)@.nodes,
    {
        let pos = self.locate(a);
        if pos < self.nodes.len() && self.nodes[pos] == a {
            let present = holds(&self.neighbors[pos], b);
            if !present {
                let ghost old_adj = self.adj@;
                let ghost old_lists = self.neighbors@;
                self.neighbors[pos].push(b);
                self.adj = Ghost(old_adj.insert(a, old_adj[a].push(b)));
                assert forall|i: int| 0 <= i < self.nodes.len() implies #[trigger] self.adj@[self.nodes@[i]]
                    == self.neighbors@[i]@ by {
                    if i != pos {
                        assert(self.nodes@[i] != a) by {
                            if i < pos {
                                assert(self.nodes@[i] < self.nodes@[pos as int]);
                            } else {
                                assert(self.nodes@[pos as int] < self.nodes@[i]);
                            }
                        }
                        assert(self.neighbors@[i] == old_lists[i]);
                    }
                }
                assert forall|k: u32| #[trigger] self.adj@.contains_key(k) <==> self.nodes@.contains(k) by {
                    assert(self.nodes@[pos as int] == a);
                }
            }
        } else {
            proof {
                assert forall|i: int| pos <= i < self.nodes.len() implies self.nodes@[i] > a by {
                    if i > pos {
                        assert(self.nodes@[pos as int] < self.nodes@[i]);
                    }
                }
                assert(!self.nodes@.contains(a));
            }
            let list = vec![b];
            proof {
                assert(list@ =~= seq![b]);
            }
            self.insert_at(pos, a, list);
        }
    }

    /// Records an undirected edge between `a` and `b`, creating missing
    /// endpoints; an edge already present is not repeated.
    pub fn add_neighbor(&mut self, a: u32, b: u32)
        requires
            old(self).wf(),
        ensures
            final(self).wf(),
            final(self)@.consistent(),
            final(self)@.entry == old(self)@.entry,
            final(self)@.adj == link_both(old(self)@.adj, a, b),
            old(self)@.adj.contains_key(a) && old(self)@.adj.contains_key(b) ==> final(self)@.nodes
                == old(self)@.nodes,
    {
        self.add_half(a, b);
        self.add_half(b, a);
    }
}

} // verus!
