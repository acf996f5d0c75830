//! The graph container: vertices, directed edge records, and the queries
//! built on them (adjacency, degrees, connected components).

use vstd::prelude::*;

verus! {

/// Mathematical image of a [`Node`]: both strings as character sequences.
pub ghost struct NodeView {
    pub id: Seq<char>,
    pub name: Seq<char>,
}

/// Mathematical image of a [`Link`].
pub ghost struct LinkView {
    pub source: Seq<char>,
    pub target: Seq<char>,
    pub label: Seq<char>,
    pub weight: u64,
}

/// A graph vertex: a unique identifier and a display name.
#[derive(Debug, Clone, PartialEq, Eq)]
pub struct Node {
    pub id: String,
    pub name: String,
}

impl View for Node {
    type V = NodeView;

    open spec fn view(&self) -> NodeView {
        NodeView { id: self.id@, name: self.name@ }
    }
}

impl Node {
    pub fn new(id: String, name: String) -> (n: Self)
        ensures
            n.id == id,
            n.name == name,
    {
        Node { id, name }
    }
}

/// A directed edge record. The weight is an integer cost; it is consulted
/// only when the graph is in weighted mode.
#[derive(Debug, Clone)]
pub struct Link {
    pub source: String,
    pub target: String,
    pub label: String,
    pub weight: u64,
}

impl View for Link {
    type V = LinkView;

    open spec fn view(&self) -> LinkView {
        LinkView {
            source: self.source@,
            target: self.target@,
            label: self.label@,
            weight: self.weight,
        }
    }
}

/// The two ways an insertion can be rejected. Queries never fail: an unknown
/// id is an ordinary absent result.
#[derive(Debug, Clone, Copy, PartialEq, Eq, Structural)]
pub enum GraphError {
    DuplicateNode,
    DuplicateLink,
}

impl GraphError {
    /// A short description of the rejection, for reporting to callers.
    pub fn message(&self) -> (s: String)
        ensures
            *self == GraphError::DuplicateNode ==> s@ == "node id is already present"@,
            *self == GraphError::DuplicateLink ==> s@ == "link key is already present"@,
    {
        match self {
            GraphError::DuplicateNode => "node id is already present".to_owned(),
            GraphError::DuplicateLink => "link key is already present".to_owned(),
        }
    }
}

/// A deep copy of a node with a proved contract; the derived `Clone` is
/// opaque to the verifier.
pub(crate) fn copy_node(n: &Node) -> (c: Node)
    ensures
        c == *n,
{
    Node { id: n.id.clone(), name: n.name.clone() }
}

/// A deep copy of a link with a proved contract.
fn copy_link(l: &Link) -> (c: Link)
    ensures
        c == *l,
{
    Link {
        source: l.source.clone(),
        target: l.target.clone(),
        label: l.label.clone(),
        weight: l.weight,
    }
}

/// The number of true entries in a boolean sequence.
pub open spec fn count_true(s: Seq<bool>) -> int
    decreases s.len(),
{
    if s.len() == 0 {
        0
    } else {
        count_true(s.drop_last()) + if s.last() {
            1int
        } else {
            0int
        }
    }
}

pub(crate) proof fn lemma_count_true_bounds(s: Seq<bool>)
    ensures
        0 <= count_true(s) <= s.len(),
    decreases s.len(),
{
    if s.len() > 0 {
        lemma_count_true_bounds(s.drop_last());
    }
}

pub(crate) proof fn lemma_count_true_update(s: Seq<bool>, i: int, v: bool)
    requires
        0 <= i < s.len(),
    ensures
        count_true(s.update(i, v)) == count_true(s) - (if s[i] {
            1int
        } else {
            0int
        }) + (if v {
            1int
        } else {
            0int
        }),
    decreases s.len(),
{
    let t = s.update(i, v);
    if i == s.len() - 1 {
        assert(t.drop_last() =~= s.drop_last());
    } else {
        assert(t.drop_last() =~= s.drop_last().update(i, v));
        lemma_count_true_update(s.drop_last(), i, v);
        assert(t.last() == s.last());
    }
}

pub(crate) proof fn lemma_count_true_pos(s: Seq<bool>, i: int)
    requires
        0 <= i < s.len(),
        s[i],
    ensures
        count_true(s) >= 1,
    decreases s.len(),
{
    if i == s.len() - 1 {
        lemma_count_true_bounds(s.drop_last());
    } else {
        assert(s.drop_last()[i] == s[i]);
        lemma_count_true_pos(s.drop_last(), i);
    }
}

/// Does a sequence of node views contain this id?
pub open spec fn seq_has_node_id(s: Seq<NodeView>, id: Seq<char>) -> bool {
    exists|i: int| 0 <= i < s.len() && (#[trigger] s[i]).id == id
}

/// A node sequence extended with a placeholder (empty name) for `id`,
/// unless a node with that id is already there.
pub open spec fn with_placeholder(s: Seq<NodeView>, id: Seq<char>) -> Seq<NodeView> {
    if seq_has_node_id(s, id) {
        s
    } else {
        s.push(NodeView { id, name: Seq::empty() })
    }
}

/// The graph: an ordered node collection, an id-to-position map kept as an
/// association list in insertion order, the stored links, and the two view
/// flags. Links are always stored once, directed; undirected semantics are
/// applied at query time.
#[derive(Debug)]
pub struct Graph {
    pub nodes: Vec<Node>,
    pub nodes_map: Vec<(String, usize)>,
    pub links: Vec<Link>,
    pub directed: bool,
    pub weighted: bool,
}

impl Graph {
    /// The node collection as a sequence of views.
    pub open spec fn nodes_view(self) -> Seq<NodeView> {
        self.nodes@.map_values(|n: Node| n@)
    }

    /// The stored links as a sequence of views.
    pub open spec fn links_view(self) -> Seq<LinkView> {
        self.links@.map_values(|l: Link| l@)
    }

    /// Is a node with this id present?
    pub open spec fn has_node(self, id: Seq<char>) -> bool {
        seq_has_node_id(self.nodes_view(), id)
    }

    /// The storage position of the node with this id (meaningful when the
    /// graph is well formed and the id is present).
    pub open spec fn node_index(self, id: Seq<char>) -> int {
        choose|i: int| 0 <= i < self.nodes_view().len() && (#[trigger] self.nodes_view()[i]).id == id
    }

    /// Is a link with this ordered `(source, target)` key stored?
    pub open spec fn has_link(self, source: Seq<char>, target: Seq<char>) -> bool {
        exists|k: int|
            0 <= k < self.links_view().len() && (#[trigger] self.links_view()[k]).source == source
                && self.links_view()[k].target == target
    }

    /// The storage position of the link with this key (meaningful when the
    /// graph is well formed and the key is present).
    pub open spec fn link_index(self, source: Seq<char>, target: Seq<char>) -> int {
        choose|k: int|
            0 <= k < self.links_view().len() && (#[trigger] self.links_view()[k]).source == source
                && self.links_view()[k].target == target
    }

    /// Are the ids at positions `a` and `b` connected: by a stored link from
    /// `a` to `b`, or, when `directed` is false, by one in either direction?
    pub open spec fn connects(self, a: Seq<char>, b: Seq<char>, directed: bool) -> bool {
        self.has_link(a, b) || (!directed && self.has_link(b, a))
    }

    /// The adjacency relation over storage positions.
    pub open spec fn edge(self, i: int, j: int, directed: bool) -> bool {
        self.connects(self.nodes_view()[i].id, self.nodes_view()[j].id, directed)
    }

    /// Well-formedness: the id map mirrors the node collection, node ids are
    /// unique, link keys are unique, and every link's endpoints are nodes.
    pub open spec fn wf(self) -> bool {
        &&& self.nodes_map@.len() == self.nodes@.len()
        &&& forall|i: int|
            0 <= i < self.nodes@.len() ==> (#[trigger] self.nodes_map@[i]).0@
                == self.nodes_view()[i].id && self.nodes_map@[i].1 == i
        &&& forall|i: int, j: int|
            #![trigger self.nodes_view()[i], self.nodes_view()[j]]
            0 <= i < j < self.nodes_view().len() ==> self.nodes_view()[i].id
                != self.nodes_view()[j].id
        &&& forall|k: int, l: int|
            #![trigger self.links_view()[k], self.links_view()[l]]
            0 <= k < l < self.links_view().len() ==> !(self.links_view()[k].source
                == self.links_view()[l].source && self.links_view()[k].target
                == self.links_view()[l].target)
        &&& forall|k: int|
            0 <= k < self.links_view().len() ==> self.has_node(
                (#[trigger] self.links_view()[k]).source,
            ) && self.has_node(self.links_view()[k].target)
    }

    /// A fresh graph: no nodes, no links, directed and unweighted.
    pub fn new() -> (g: Self)
        ensures
            g.nodes@.len() == 0,
            g.nodes_map@.len() == 0,
            g.links@.len() == 0,
            g.directed,
            !g.weighted,
            g.wf(),
    {
        Graph {
            nodes_map: Vec::new(),
            links: Vec::new(),
            nodes: Vec::new(),
            directed: true,
            weighted: false,
        }
    }

    /// Insert a node. Fails with [`GraphError::DuplicateNode`], leaving the
    /// graph unchanged, when a node with the same id is already present;
    /// otherwise appends the node and records its position.
    pub fn add_node(&mut self, n: &Node) -> (r: Result<bool, GraphError>)
        requires
            old(self).wf(),
        ensures
            final(self).wf(),
            final(self).directed == old(self).directed,
            final(self).weighted == old(self).weighted,
            final(self).links@ == old(self).links@,
            old(self).has_node(n.id@) ==> r == Err::<bool, GraphError>(GraphError::DuplicateNode)
                && *final(self) == *old(self),
            !old(self).has_node(n.id@) ==> r == Ok::<bool, GraphError>(true) && final(self).nodes@
                == old(self).nodes@.push(*n) && final(self).nodes_view() == old(
                self,
            ).nodes_view().push(n@),
    {
        if self.find_node_index(&n.id).is_some() {
            return Err(GraphError::DuplicateNode);
        }
        let idx = self.nodes.len();
        self.nodes_map.push((n.id.clone(), idx));
        self.nodes.push(copy_node(n));
        proof {
            assert(self.nodes_view() =~= old(self).nodes_view().push(n@));
            assert forall|k: int| 0 <= k < self.links_view().len() implies self.has_node(
                (#[trigger] self.links_view()[k]).source,
            ) && self.has_node(self.links_view()[k].target) by {
                assert(self.links_view() == old(self).links_view());
                assert(old(self).has_node(old(self).links_view()[k].source));
                assert(old(self).has_node(old(self).links_view()[k].target));
                let a = choose|i: int|
                    0 <= i < old(self).nodes_view().len() && (#[trigger] old(
                        self,
                    ).nodes_view()[i]).id == old(self).links_view()[k].source;
                assert(self.nodes_view()[a].id == self.links_view()[k].source);
                let b = choose|i: int|
                    0 <= i < old(self).nodes_view().len() && (#[trigger] old(
                        self,
                    ).nodes_view()[i]).id == old(self).links_view()[k].target;
                assert(self.nodes_view()[b].id == self.links_view()[k].target);
            }
        }
        Ok(true)
    }

    /// Insert a link. Absent endpoints are first auto-inserted as placeholder
    /// nodes with an empty name. Fails with [`GraphError::DuplicateLink`],
    /// leaving the graph unchanged, when a link with the same ordered
    /// `(source, target)` key is already stored; the reverse key is a
    /// different link.
    pub fn add_link(&mut self, l: &Link) -> (r: Result<bool, GraphError>)
        requires
            old(self).wf(),
        ensures
            final(self).wf(),
            final(self).directed == old(self).directed,
            final(self).weighted == old(self).weighted,
            old(self).has_link(l.source@, l.target@) ==> r == Err::<bool, GraphError>(
                GraphError::DuplicateLink,
            ) && *final(self) == *old(self),
            !old(self).has_link(l.source@, l.target@) ==> r == Ok::<bool, GraphError>(true)
                && final(self).links@ == old(self).links@.push(*l) && final(self).nodes_view()
                == with_placeholder(with_placeholder(old(self).nodes_view(), l.source@), l.target@),
    {
        if self.find_node_index(&l.source).is_none() {
            let ph = Node { id: l.source.clone(), name: String::new() };
            let _ = self.add_node(&ph);
            proof {
                assert(ph@ == NodeView { id: l.source@, name: Seq::<char>::empty() });
            }
        }
        proof {
            assert(self.nodes_view() == with_placeholder(old(self).nodes_view(), l.source@));
            if !seq_has_node_id(old(self).nodes_view(), l.source@) {
                assert(self.nodes_view()[old(self).nodes_view().len() as int].id == l.source@);
            }
            assert(self.has_node(l.source@));
        }
        let ghost mid = *self;
        if self.find_node_index(&l.target).is_none() {
            let ph = Node { id: l.target.clone(), name: String::new() };
            let _ = self.add_node(&ph);
            proof {
                assert(ph@ == NodeView { id: l.target@, name: Seq::<char>::empty() });
            }
        }
        proof {
            assert(self.nodes_view() == with_placeholder(mid.nodes_view(), l.target@));
            if !seq_has_node_id(mid.nodes_view(), l.target@) {
                assert(self.nodes_view()[mid.nodes_view().len() as int].id == l.target@);
            }
            assert(self.has_node(l.target@));
            if mid.has_node(l.source@) {
                let a = choose|i: int|
                    0 <= i < mid.nodes_view().len() && (#[trigger] mid.nodes_view()[i]).id
                        == l.source@;
                assert(self.nodes_view()[a].id == l.source@);
            }
            assert(self.has_node(l.source@));
            assert(self.links@ == old(self).links@);
        }
        match self.find_link_index(&l.source, &l.target) {
            Some(k) => {
                proof {
                    assert(self.links_view()[k as int].source == l.source@);
                    assert(self.links_view()[k as int].target == l.target@);
                    assert(self.has_link(l.source@, l.target@));
                    assert(old(self).links_view()[k as int] == self.links_view()[k as int]);
                    assert(old(self).has_link(l.source@, l.target@));
                    assert(*self == *old(self));
                }
                return Err(GraphError::DuplicateLink);
            },
            None => {},
        }
        let ghost pre = *self;
        self.links.push(copy_link(l));
        proof {
            assert(self.links_view() =~= pre.links_view().push(l@));
            assert(self.nodes_view() == pre.nodes_view());
            assert forall|k: int| 0 <= k < self.links_view().len() implies self.has_node(
                (#[trigger] self.links_view()[k]).source,
            ) && self.has_node(self.links_view()[k].target) by {
                if k < pre.links_view().len() {
                    assert(pre.has_node(pre.links_view()[k].source));
                    assert(pre.has_node(pre.links_view()[k].target));
                } else {
                    assert(self.links_view()[k] == l@);
                }
            }
        }
        Ok(true)
    }

    /// The storage position of the node with this id, if any.
    pub(crate) fn find_node_index(&self, id: &String) -> (r: Option<usize>)
        requires
            self.wf(),
        ensures
            r is Some <==> self.has_node(id@),
            match r {
                Some(i) => i < self.nodes@.len() && self.nodes_view()[i as int].id == id@ && i
                    as int == self.node_index(id@),
                None => !self.has_node(id@),
            },
    {
        let n = self.nodes.len();
        let mut i: usize = 0;
        while i < n
            invariant
                self.wf(),
                n == self.nodes@.len(),
                i <= n,
                forall|j: int| 0 <= j < i ==> (#[trigger] self.nodes_view()[j]).id != id@,
            decreases n - i,
        {
            if self.nodes[i].id == *id {
                proof {
                    assert(self.nodes_view()[i as int].id == id@);
                    let w = self.node_index(id@);
                    assert(0 <= w < self.nodes_view().len() && self.nodes_view()[w].id == id@);
                    assert(w == i as int);
                }
                return Some(i);
            }
            i += 1;
        }
        None
    }

    /// The storage position of the link with this ordered key, if any.
    pub(crate) fn find_link_index(&self, source: &String, target: &String) -> (r: Option<usize>)
        requires
            self.wf(),
        ensures
            r is Some <==> self.has_link(source@, target@),
            match r {
                Some(k) => k < self.links@.len() && self.links_view()[k as int].source == source@
                    && self.links_view()[k as int].target == target@ && k as int
                    == self.link_index(source@, target@),
                None => !self.has_link(source@, target@),
            },
    {
        let m = self.links.len();
        let mut k: usize = 0;
        while k < m
            invariant
                self.wf(),
                m == self.links@.len(),
                k <= m,
                forall|j: int|
                    0 <= j < k ==> !((#[trigger] self.links_view()[j]).source == source@
                        && self.links_view()[j].target == target@),
            decreases m - k,
        {
            if self.links[k].source == *source && self.links[k].target == *target {
                proof {
                    assert(self.links_view()[k as int].source == source@);
                    assert(self.links_view()[k as int].target == target@);
                    assert(self.has_link(source@, target@));
                    let w = self.link_index(source@, target@);
                    assert(0 <= w < self.links_view().len() && self.links_view()[w].source
                        == source@ && self.links_view()[w].target == target@);
                    assert(w == k as int);
                }
                return Some(k);
            }
            k += 1;
        }
        None
    }
}

// Read-only queries. None of them changes the graph; the ones whose receiver
// is `&mut self` say so in their contract. Directedness is handed to the
// adjacency helpers as an explicit argument, so no query ever has to flip and
// restore the `directed` flag.
impl Graph {
    /// The neighbours of position `i` among positions `0 <= j < bound`, in
    /// storage order, under the graph's current directedness.
    pub open spec fn connected_row(self, i: int, bound: int) -> Seq<NodeView>
        decreases bound,
    {
        if bound <= 0 {
            Seq::empty()
        } else if self.edge(i, bound - 1, self.directed) {
            self.connected_row(i, bound - 1).push(self.nodes_view()[bound - 1])
        } else {
            self.connected_row(i, bound - 1)
        }
    }

    /// How many of the first `k` nodes have a stored link toward `id`.
    pub open spec fn in_degree_upto(self, id: Seq<char>, k: int) -> int
        decreases k,
    {
        if k <= 0 {
            0
        } else {
            self.in_degree_upto(id, k - 1) + if self.has_link(self.nodes_view()[k - 1].id, id) {
                1int
            } else {
                0int
            }
        }
    }

    /// How many of the first `k` nodes the node `id` has a stored link toward.
    pub open spec fn out_degree_upto(self, id: Seq<char>, k: int) -> int
        decreases k,
    {
        if k <= 0 {
            0
        } else {
            self.out_degree_upto(id, k - 1) + if self.has_link(id, self.nodes_view()[k - 1].id) {
                1int
            } else {
                0int
            }
        }
    }

    /// The number of stored links into `id`; 0 when the id is unknown.
    /// Stored links only: undirected mode does not add mirrored edges here.
    pub open spec fn in_degree(self, id: Seq<char>) -> int {
        if self.has_node(id) {
            self.in_degree_upto(id, self.nodes@.len() as int)
        } else {
            0
        }
    }

    /// The number of stored links out of `id`; 0 when the id is unknown.
    pub open spec fn out_degree(self, id: Seq<char>) -> int {
        if self.has_node(id) {
            self.out_degree_upto(id, self.nodes@.len() as int)
        } else {
            0
        }
    }

    /// Is there an edge from position `i` to position `j`?
    pub(crate) fn edge_exec(&self, i: usize, j: usize, directed: bool) -> (b: bool)
        requires
            self.wf(),
            i < self.nodes@.len(),
            j < self.nodes@.len(),
        ensures
            b == self.edge(i as int, j as int, directed),
    {
        if self.find_link_index(&self.nodes[i].id, &self.nodes[j].id).is_some() {
            true
        } else if !directed {
            self.find_link_index(&self.nodes[j].id, &self.nodes[i].id).is_some()
        } else {
            false
        }
    }

    /// The traversal cost of the edge from position `i` to position `j`: the
    /// weight stored on the link, taken from the mirrored link when only the
    /// reverse key is stored and the graph is undirected.
    pub(crate) fn link_weight(&self, i: usize, j: usize) -> (w: u64)
        requires
            self.wf(),
            i < self.nodes@.len(),
            j < self.nodes@.len(),
            self.edge(i as int, j as int, self.directed),
        ensures
            self.has_link(self.nodes_view()[i as int].id, self.nodes_view()[j as int].id) ==> w
                == self.links_view()[self.link_index(
                self.nodes_view()[i as int].id,
                self.nodes_view()[j as int].id,
            )].weight,
            !self.has_link(self.nodes_view()[i as int].id, self.nodes_view()[j as int].id) ==> w
                == self.links_view()[self.link_index(
                self.nodes_view()[j as int].id,
                self.nodes_view()[i as int].id,
            )].weight,
    {
        match self.find_link_index(&self.nodes[i].id, &self.nodes[j].id) {
            Some(k) => self.links[k].weight,
            None => match self.find_link_index(&self.nodes[j].id, &self.nodes[i].id) {
                Some(k) => self.links[k].weight,
                None => {
                    proof {
                        assert(false);
                    }
                    1
                },
            },
        }
    }

    /// The boolean adjacency matrix, indexed by storage position, recomputed
    /// from the stored links; when the graph is undirected each stored link
    /// sets the mirrored entry too.
    pub fn to_matrix(&self) -> (m: Vec<Vec<bool>>)
        requires
            self.wf(),
        ensures
            m@.len() == self.nodes@.len(),
            forall|i: int| 0 <= i < m@.len() ==> (#[trigger] m@[i])@.len() == self.nodes@.len(),
            forall|i: int, j: int|
                #![trigger m@[i]@[j]]
                0 <= i < m@.len() && 0 <= j < m@.len() ==> m@[i]@[j] == self.edge(
                    i,
                    j,
                    self.directed,
                ),
    {
        let n = self.nodes.len();
        let mut m: Vec<Vec<bool>> = Vec::new();
        let mut i: usize = 0;
        while i < n
            invariant
                self.wf(),
                n == self.nodes@.len(),
                i <= n,
                m@.len() == i,
                forall|a: int| 0 <= a < i ==> (#[trigger] m@[a])@.len() == n,
                forall|a: int, b: int|
                    #![trigger m@[a]@[b]]
                    0 <= a < i && 0 <= b < n ==> m@[a]@[b] == self.edge(a, b, self.directed),
            decreases n - i,
        {
            let mut row: Vec<bool> = Vec::new();
            let mut j: usize = 0;
            while j < n
                invariant
                    self.wf(),
                    n == self.nodes@.len(),
                    i < n,
                    j <= n,
                    row@.len() == j,
                    forall|b: int| 0 <= b < j ==> row@[b] == self.edge(i as int, b, self.directed),
                decreases n - j,
            {
                row.push(self.edge_exec(i, j, self.directed));
                j += 1;
            }
            m.push(row);
            i += 1;
        }
        m
    }

    /// The node with this id, if present; a query, never an error.
    pub fn get_node(&self, id: &str) -> (r: Option<Node>)
        requires
            self.wf(),
        ensures
            r is Some <==> self.has_node(id@),
            r matches Some(nd) ==> nd@ == self.nodes_view()[self.node_index(id@)],
    {
        let key = id.to_owned();
        match self.find_node_index(&key) {
            Some(i) => Some(copy_node(&self.nodes[i])),
            None => None,
        }
    }

    /// The link stored under the ordered `(source, target)` key, if any.
    pub fn get_link(&self, source: &str, target: &str) -> (r: Option<Link>)
        requires
            self.wf(),
        ensures
            r is Some <==> self.has_link(source@, target@),
            r matches Some(lk) ==> lk@ == self.links_view()[self.link_index(source@, target@)],
    {
        let src = source.to_owned();
        let tgt = target.to_owned();
        match self.find_link_index(&src, &tgt) {
            Some(k) => Some(copy_link(&self.links[k])),
            None => None,
        }
    }

    /// Count the stored links into the node named by `key`.
    fn in_degree_scan(&self, key: &String) -> (d: usize)
        requires
            self.wf(),
        ensures
            d as int == self.in_degree(key@),
            d as int <= self.nodes@.len(),
    {
        if self.find_node_index(key).is_none() {
            return 0;
        }
        let n = self.nodes.len();
        let mut d: usize = 0;
        let mut i: usize = 0;
        while i < n
            invariant
                self.wf(),
                n == self.nodes@.len(),
                i <= n,
                d as int == self.in_degree_upto(key@, i as int),
                d <= i,
            decreases n - i,
        {
            if self.find_link_index(&self.nodes[i].id, key).is_some() {
                d += 1;
            }
            i += 1;
        }
        d
    }

    /// Count the stored links out of the node named by `key`.
    fn out_degree_scan(&self, key: &String) -> (d: usize)
        requires
            self.wf(),
        ensures
            d as int == self.out_degree(key@),
            d as int <= self.nodes@.len(),
    {
        if self.find_node_index(key).is_none() {
            return 0;
        }
        let n = self.nodes.len();
        let mut d: usize = 0;
        let mut i: usize = 0;
        while i < n
            invariant
                self.wf(),
                n == self.nodes@.len(),
                i <= n,
                d as int == self.out_degree_upto(key@, i as int),
                d <= i,
            decreases n - i,
        {
            if self.find_link_index(key, &self.nodes[i].id).is_some() {
                d += 1;
            }
            i += 1;
        }
        d
    }

    /// The number of stored links into `node_id`: the count a directed view
    /// of the graph would give, whatever the `directed` flag says. Unknown
    /// ids count 0. The graph is left exactly as it was.
    pub fn indegree(&mut self, node_id: &str) -> (d: usize)
        requires
            old(self).wf(),
        ensures
            *final(self) == *old(self),
            d as int == old(self).in_degree(node_id@),
            d as int <= old(self).nodes@.len(),
    {
        let key = node_id.to_owned();
        self.in_degree_scan(&key)
    }

    /// The number of stored links out of `node_id`, on a directed view of
    /// the graph; 0 for unknown ids. The graph is left exactly as it was.
    pub fn outdegree(&mut self, node_id: &str) -> (d: usize)
        requires
            old(self).wf(),
        ensures
            *final(self) == *old(self),
            d as int == old(self).out_degree(node_id@),
            d as int <= old(self).nodes@.len(),
    {
        let key = node_id.to_owned();
        self.out_degree_scan(&key)
    }

    /// The degree centrality of a node: its indegree plus its outdegree,
    /// both on a directed view of the graph.
    pub fn degree_centrality(&mut self, node_id: &str) -> (d: usize)
        requires
            old(self).wf(),
            2 * old(self).nodes@.len() <= usize::MAX,
        ensures
            *final(self) == *old(self),
            d as int == old(self).in_degree(node_id@) + old(self).out_degree(node_id@),
    {
        let key = node_id.to_owned();
        let ind = self.in_degree_scan(&key);
        let outd = self.out_degree_scan(&key);
        ind + outd
    }

}

/// An adjacency matrix computed while the graph is undirected is symmetric.
/// (The converse direction does not hold: a directed graph whose links happen
/// to come in mirrored pairs, or one with no links at all, also yields a
/// symmetric matrix.)
pub proof fn lemma_undirected_matrix_symmetric(g: Graph, m: Seq<Seq<bool>>, i: int, j: int)
    requires
        !g.directed,
        m.len() == g.nodes@.len(),
        forall|a: int, b: int|
            #![trigger m[a][b]]
            0 <= a < m.len() && 0 <= b < m.len() ==> m[a][b] == g.edge(a, b, g.directed),
        0 <= i < m.len(),
        0 <= j < m.len(),
    ensures
        m[i][j] == m[j][i],
{
    assert(m[i][j] == g.edge(i, j, g.directed));
    assert(m[j][i] == g.edge(j, i, g.directed));
}

/// A walk over storage positions: at least one node, every position in
/// range, and every step an edge under the given directedness.
pub open spec fn walk_in(g: Graph, p: Seq<int>, directed: bool) -> bool {
    &&& p.len() >= 1
    &&& forall|x: int| 0 <= x < p.len() ==> 0 <= #[trigger] p[x] < g.nodes@.len()
    &&& forall|x: int| 0 <= x < p.len() - 1 ==> g.edge(#[trigger] p[x], p[x + 1], directed)
}

/// A walk under the given directedness leads from position `i` to `j`.
pub open spec fn reachable(g: Graph, i: int, j: int, directed: bool) -> bool {
    exists|p: Seq<int>| #[trigger] walk_in(g, p, directed) && p.first() == i && p.last() == j
}

pub(crate) proof fn lemma_reachable_refl(g: Graph, i: int, directed: bool)
    requires
        0 <= i < g.nodes@.len(),
    ensures
        reachable(g, i, i, directed),
{
    let p = seq![i];
    assert(p[0] == i);
    assert(walk_in(g, p, directed));
}

pub(crate) proof fn lemma_reachable_step(g: Graph, i: int, u: int, j: int, directed: bool)
    requires
        reachable(g, i, u, directed),
        0 <= j < g.nodes@.len(),
        g.edge(u, j, directed),
    ensures
        reachable(g, i, j, directed),
{
    let p = choose|p: Seq<int>| #[trigger] walk_in(g, p, directed) && p.first() == i && p.last() == u;
    let q = p.push(j);
    assert forall|x: int| 0 <= x < q.len() implies 0 <= #[trigger] q[x] < g.nodes@.len() by {
        if x < p.len() {
            assert(q[x] == p[x]);
        }
    }
    assert forall|x: int| 0 <= x < q.len() - 1 implies g.edge(#[trigger] q[x], q[x + 1], directed) by {
        if x < p.len() - 1 {
            assert(q[x] == p[x] && q[x + 1] == p[x + 1]);
        } else {
            assert(q[x] == p[p.len() - 1] && q[x + 1] == j);
        }
    }
    assert(walk_in(g, q, directed));
    assert(q.first() == i && q.last() == j);
}

pub(crate) proof fn lemma_reachable_sym(g: Graph, i: int, j: int)
    requires
        reachable(g, i, j, false),
    ensures
        reachable(g, j, i, false),
{
    let p = choose|p: Seq<int>| #[trigger] walk_in(g, p, false) && p.first() == i && p.last() == j;
    let len = p.len() as int;
    let q = Seq::new(p.len(), |x: int| p[len - 1 - x]);
    assert forall|x: int| 0 <= x < q.len() implies 0 <= #[trigger] q[x] < g.nodes@.len() by {
        assert(q[x] == p[len - 1 - x]);
    }
    assert forall|x: int| 0 <= x < q.len() - 1 implies g.edge(#[trigger] q[x], q[x + 1], false) by {
        assert(q[x] == p[len - 1 - x] && q[x + 1] == p[len - 2 - x]);
        assert(g.edge(p[len - 2 - x], p[len - 1 - x], false));
    }
    assert(walk_in(g, q, false));
    assert(q.first() == j && q.last() == i);
}

pub(crate) proof fn lemma_reachable_trans(g: Graph, i: int, j: int, k: int, directed: bool)
    requires
        reachable(g, i, j, directed),
        reachable(g, j, k, directed),
    ensures
        reachable(g, i, k, directed),
{
    let p = choose|p: Seq<int>| #[trigger] walk_in(g, p, directed) && p.first() == i && p.last() == j;
    let q = choose|q: Seq<int>| #[trigger] walk_in(g, q, directed) && q.first() == j && q.last() == k;
    let r = p + q.subrange(1, q.len() as int);
    let plen = p.len() as int;
    assert forall|x: int| 0 <= x < r.len() implies 0 <= #[trigger] r[x] < g.nodes@.len() by {
        if x < plen {
            assert(r[x] == p[x]);
        } else {
            assert(r[x] == q[x - plen + 1]);
        }
    }
    assert forall|x: int| 0 <= x < r.len() - 1 implies g.edge(#[trigger] r[x], r[x + 1], directed) by {
        if x < plen - 1 {
            assert(r[x] == p[x] && r[x + 1] == p[x + 1]);
        } else if x == plen - 1 {
            assert(r[x] == p[plen - 1] && r[x + 1] == q[1]);
            assert(g.edge(q[0], q[1], directed));
        } else {
            assert(r[x] == q[x - plen + 1] && r[x + 1] == q[x - plen + 2]);
            assert(g.edge(q[x - plen + 1], q[x - plen + 2], directed));
        }
    }
    assert(walk_in(g, r, directed));
    if q.len() == 1 {
        assert(r =~= p);
        assert(r.last() == j && j == k);
    } else {
        assert(r.last() == q[q.len() - 1]);
    }
    assert(r.first() == i && r.last() == k);
}

/// What `connected_components` guarantees of its result: components are
/// nonempty, every entry is a node of `g`, every node of `g` appears, no
/// node id appears in two places, any two members of one component are
/// joined by an undirected walk, no stored link joins two different
/// components, and each component is headed by its seed: the member that
/// comes first in storage order.
pub open spec fn components_partition(g: Graph, comps: Seq<Vec<Node>>) -> bool {
    &&& forall|k: int| 0 <= k < comps.len() ==> (#[trigger] comps[k])@.len() > 0
    &&& forall|k: int, p: int|
        #![trigger comps[k]@[p]]
        0 <= k < comps.len() && 0 <= p < comps[k]@.len() ==> exists|i: int|
            0 <= i < g.nodes@.len() && comps[k]@[p]@ == g.nodes_view()[i]
    &&& forall|i: int|
        #![trigger g.nodes_view()[i]]
        0 <= i < g.nodes@.len() ==> exists|k: int, p: int|
            0 <= k < comps.len() && 0 <= p < comps[k]@.len() && (#[trigger] comps[k]@[p])@
                == g.nodes_view()[i]
    &&& forall|k1: int, p1: int, k2: int, p2: int|
        #![trigger comps[k1]@[p1], comps[k2]@[p2]]
        0 <= k1 < comps.len() && 0 <= p1 < comps[k1]@.len() && 0 <= k2 < comps.len() && 0 <= p2
            < comps[k2]@.len() && (k1 != k2 || p1 != p2) ==> comps[k1]@[p1]@.id
            != comps[k2]@[p2]@.id
    &&& forall|k: int, p1: int, p2: int|
        #![trigger comps[k]@[p1], comps[k]@[p2]]
        0 <= k < comps.len() && 0 <= p1 < comps[k]@.len() && 0 <= p2 < comps[k]@.len()
            ==> reachable(
            g,
            g.node_index(comps[k]@[p1]@.id),
            g.node_index(comps[k]@[p2]@.id),
            false,
        )
    &&& forall|k1: int, p1: int, k2: int, p2: int|
        #![trigger comps[k1]@[p1], comps[k2]@[p2]]
        0 <= k1 < comps.len() && 0 <= p1 < comps[k1]@.len() && 0 <= k2 < comps.len() && 0 <= p2
            < comps[k2]@.len() && k1 != k2 ==> !g.connects(
            comps[k1]@[p1]@.id,
            comps[k2]@[p2]@.id,
            false,
        )
    &&& forall|k: int, p: int|
        #![trigger comps[k]@[p]]
        0 <= k < comps.len() && 0 <= p < comps[k]@.len() ==> g.node_index(comps[k]@[0]@.id)
            <= g.node_index(comps[k]@[p]@.id)
}

/// Has node position `i` already been placed in some finished component?
pub(crate) open spec fn placed(gidx: Seq<Seq<int>>, i: int) -> bool {
    exists|k: int, q: int|
        0 <= k < gidx.len() && 0 <= q < gidx[k].len() && (#[trigger] gidx[k][q]) == i
}

/// Is node position `i` in the frontier queue?
pub(crate) open spec fn queued(queue: Seq<usize>, i: int) -> bool {
    exists|p: int| 0 <= p < queue.len() && (#[trigger] queue[p]) == i
}

/// Does the integer sequence contain `v`?
pub(crate) open spec fn in_iseq(s: Seq<int>, v: int) -> bool {
    exists|q: int| 0 <= q < s.len() && (#[trigger] s[q]) == v
}

/// A finished component is closed under undirected adjacency: every
/// neighbour of a member is itself a member.
pub(crate) open spec fn comp_closed(g: Graph, comp: Seq<int>) -> bool {
    forall|q: int, j: int|
        0 <= q < comp.len() && 0 <= j < g.nodes@.len() && #[trigger] g.edge(comp[q], j, false)
            ==> in_iseq(comp, j)
}

/// Every undirected neighbour of position `u` is marked visited.
pub(crate) open spec fn nbrs_visited(g: Graph, u: int, visited: Seq<bool>) -> bool {
    forall|j: int| 0 <= j < g.nodes@.len() && #[trigger] g.edge(u, j, false) ==> visited[j]
}

pub(crate) proof fn lemma_nbrs_visited_grow(g: Graph, u: int, v1: Seq<bool>, v2: Seq<bool>)
    requires
        nbrs_visited(g, u, v1),
        v1.len() == g.nodes@.len(),
        v2.len() == v1.len(),
        forall|i: int| 0 <= i < v1.len() ==> (v1[i] ==> #[trigger] v2[i]),
    ensures
        nbrs_visited(g, u, v2),
{
    assert forall|j: int| 0 <= j < g.nodes@.len() && #[trigger] g.edge(u, j, false) implies v2[j] by {
        assert(v1[j]);
    }
}

impl Graph {
    /// Frontier expansion over the undirected adjacency relation. Returns the
    /// components as discovered, each seeded by its first unvisited node in
    /// storage order.
    #[verifier::loop_isolation(false)]
    #[verifier::rlimit(60)]
    fn components_scan(&self) -> (comps: Vec<Vec<Node>>)
        requires
            self.wf(),
        ensures
            self.nodes@.len() == 0 ==> comps@.len() == 0,
            self.nodes@.len() > 0 ==> comps@.len() > 0,
            self.nodes@.len() > 0 ==> comps@[0]@[0]@ == self.nodes_view()[0],
            components_partition(*self, comps@),
    {
        let n = self.nodes.len();
        let mut comps: Vec<Vec<Node>> = Vec::new();
        let ghost mut gidx: Seq<Seq<int>> = Seq::empty();
        let mut visited: Vec<bool> = Vec::new();
        let mut t: usize = 0;
        while t < n
            invariant
                visited@.len() == t,
                t <= n,
                forall|i: int| 0 <= i < t ==> !visited@[i],
            decreases n - t,
        {
            visited.push(false);
            t += 1;
        }
        let mut s: usize = 0;
        while s < n
            invariant
                s <= n,
                visited@.len() == n,
                gidx.len() == comps@.len(),
                forall|i: int| 0 <= i < s ==> visited@[i],
                s == 0 ==> comps@.len() == 0,
                comps@.len() == 0 ==> forall|i: int| 0 <= i < n ==> !visited@[i],
                forall|k: int|
                    0 <= k < gidx.len() ==> (#[trigger] gidx[k]).len() == comps@[k]@.len()
                        && gidx[k].len() > 0,
                forall|k: int, p: int|
                    #![trigger gidx[k][p]]
                    0 <= k < gidx.len() && 0 <= p < gidx[k].len() ==> 0 <= gidx[k][p] < n
                        && comps@[k]@[p]@ == self.nodes_view()[gidx[k][p]],
                forall|k1: int, p1: int, k2: int, p2: int|
                    #![trigger gidx[k1][p1], gidx[k2][p2]]
                    0 <= k1 < gidx.len() && 0 <= p1 < gidx[k1].len() && 0 <= k2 < gidx.len() && 0
                        <= p2 < gidx[k2].len() && (k1 != k2 || p1 != p2) ==> gidx[k1][p1]
                        != gidx[k2][p2],
                forall|i: int| 0 <= i < n ==> (visited@[i] <==> placed(gidx, i)),
                forall|k: int| 0 <= k < gidx.len() ==> comp_closed(*self, #[trigger] gidx[k]),
                forall|k: int, q1: int, q2: int|
                    #![trigger gidx[k][q1], gidx[k][q2]]
                    0 <= k < gidx.len() && 0 <= q1 < gidx[k].len() && 0 <= q2 < gidx[k].len()
                        ==> reachable(*self, gidx[k][q1], gidx[k][q2], false),
                s > 0 && n > 0 ==> gidx.len() > 0 && gidx[0][0] == 0,
                forall|k: int, q: int|
                    #![trigger gidx[k][q]]
                    0 <= k < gidx.len() && 0 <= q < gidx[k].len() ==> gidx[k][0] <= gidx[k][q],
            decreases n - s,
        {
            if !visited[s] {
                let ghost visited0 = visited@;
                let mut queue: Vec<usize> = Vec::new();
                visited[s] = true;
                queue.push(s);
                proof {
                    lemma_count_true_bounds(visited0);
                    lemma_count_true_update(visited0, s as int, true);
                    lemma_count_true_bounds(visited@);
                    assert(queue@.len() == 1 && queue@[0] == s);
                    assert(queued(queue@, s as int));
                    lemma_reachable_refl(*self, s as int, false);
                    assert forall|i: int| 0 <= i < n implies (visited@[i] <==> placed(gidx, i)
                        || queued(queue@, i)) by {
                        if i != s as int {
                            assert(visited@[i] == visited0[i]);
                            if queued(queue@, i) {
                                let p = choose|p: int|
                                    0 <= p < queue@.len() && (#[trigger] queue@[p]) == i;
                                assert(queue@[p] == i);
                            }
                        }
                    }
                }
                let mut c: usize = 0;
                while c < queue.len()
                    invariant
                        visited@.len() == n,
                        c <= queue@.len(),
                        queue@.len() >= 1,
                        visited@[s as int],
                        forall|i: int| 0 <= i < s ==> visited@[i],
                        forall|p: int|
                            0 <= p < queue@.len() ==> 0 <= #[trigger] queue@[p] < n
                                && visited@[queue@[p] as int],
                        forall|p1: int, p2: int|
                            #![trigger queue@[p1], queue@[p2]]
                            0 <= p1 < p2 < queue@.len() ==> queue@[p1] != queue@[p2],
                        forall|p: int|
                            0 <= p < queue@.len() ==> !placed(gidx, #[trigger] queue@[p] as int),
                        forall|i: int|
                            0 <= i < n ==> (visited@[i] <==> placed(gidx, i) || queued(queue@, i)),
                        queue@.len() <= count_true(visited@),
                        count_true(visited@) <= n,
                        queue@[0] == s,
                        forall|p: int| 0 <= p < queue@.len() ==> (#[trigger] queue@[p]) >= s,
                        forall|p: int|
                            0 <= p < queue@.len() ==> reachable(
                                *self,
                                s as int,
                                #[trigger] queue@[p] as int,
                                false,
                            ),
                        forall|x: int|
                            0 <= x < c ==> nbrs_visited(*self, #[trigger] queue@[x] as int, visited@),
                    decreases n - c,
                {
                    let u = queue[c];
                    let mut j: usize = 0;
                    while j < n
                        invariant
                            visited@.len() == n,
                            c < queue@.len(),
                            u == queue@[c as int],
                            u < n,
                            j <= n,
                            visited@[s as int],
                            forall|i: int| 0 <= i < s ==> visited@[i],
                            forall|p: int|
                                0 <= p < queue@.len() ==> 0 <= #[trigger] queue@[p] < n
                                    && visited@[queue@[p] as int],
                            forall|p1: int, p2: int|
                                #![trigger queue@[p1], queue@[p2]]
                                0 <= p1 < p2 < queue@.len() ==> queue@[p1] != queue@[p2],
                            forall|p: int|
                                0 <= p < queue@.len() ==> !placed(
                                    gidx,
                                    #[trigger] queue@[p] as int,
                                ),
                            forall|i: int|
                                0 <= i < n ==> (visited@[i] <==> placed(gidx, i) || queued(
                                    queue@,
                                    i,
                                )),
                            queue@.len() <= count_true(visited@),
                            count_true(visited@) <= n,
                            queue@[0] == s,
                            forall|p: int| 0 <= p < queue@.len() ==> (#[trigger] queue@[p]) >= s,
                            forall|p: int|
                                0 <= p < queue@.len() ==> reachable(
                                    *self,
                                    s as int,
                                    #[trigger] queue@[p] as int,
                                    false,
                                ),
                            forall|x: int|
                                0 <= x < c ==> nbrs_visited(
                                    *self,
                                    #[trigger] queue@[x] as int,
                                    visited@,
                                ),
                            forall|jj: int|
                                0 <= jj < j && #[trigger] self.edge(u as int, jj, false)
                                    ==> visited@[jj],
                        decreases n - j,
                    {
                        if !visited[j] && self.edge_exec(u, j, false) {
                            let ghost visited1 = visited@;
                            let ghost queue1 = queue@;
                            proof {
                                lemma_count_true_update(visited@, j as int, true);
                            }
                            visited[j] = true;
                            queue.push(j);
                            proof {
                                lemma_count_true_bounds(visited@);
                                assert(queue@[queue@.len() - 1] == j);
                                assert(queued(queue@, j as int));
                                assert(!placed(gidx, j as int));
                                assert(reachable(*self, s as int, u as int, false));
                                lemma_reachable_step(*self, s as int, u as int, j as int, false);
                                assert forall|p: int| 0 <= p < queue@.len() implies reachable(
                                    *self,
                                    s as int,
                                    #[trigger] queue@[p] as int,
                                    false,
                                ) by {
                                    if p < queue@.len() - 1 {
                                        assert(queue@[p] == queue1[p]);
                                    }
                                }
                                assert forall|x: int| 0 <= x < c implies nbrs_visited(
                                    *self,
                                    #[trigger] queue@[x] as int,
                                    visited@,
                                ) by {
                                    assert(queue@[x] == queue1[x]);
                                    lemma_nbrs_visited_grow(
                                        *self,
                                        queue1[x] as int,
                                        visited1,
                                        visited@,
                                    );
                                }
                                assert forall|p: int|
                                    0 <= p < queue@.len() implies !placed(
                                    gidx,
                                    #[trigger] queue@[p] as int,
                                ) by {
                                    if p < queue@.len() - 1 {
                                        assert(queue@[p] == queue1[p]);
                                    }
                                }
                                assert forall|i: int| 0 <= i < n implies (visited@[i] <==> placed(
                                    gidx,
                                    i,
                                ) || queued(queue@, i)) by {
                                    if i != j as int {
                                        assert(visited@[i] == visited1[i]);
                                        if queued(queue1, i) {
                                            let p = choose|p: int|
                                                0 <= p < queue1.len() && (#[trigger] queue1[p])
                                                    == i;
                                            assert(queue@[p] == i);
                                            assert(queued(queue@, i));
                                        }
                                        if queued(queue@, i) {
                                            let p = choose|p: int|
                                                0 <= p < queue@.len() && (#[trigger] queue@[p])
                                                    == i;
                                            assert(p < queue1.len());
                                            assert(queued(queue1, i));
                                        }
                                    }
                                }
                            }
                        }
                        j += 1;
                    }
                    proof {
                        assert(nbrs_visited(*self, u as int, visited@));
                        assert forall|x: int| 0 <= x < c + 1 implies nbrs_visited(
                            *self,
                            #[trigger] queue@[x] as int,
                            visited@,
                        ) by {
                            if x == c as int {
                                assert(queue@[x] == u);
                            }
                        }
                    }
                    c += 1;
                }
                let mut comp: Vec<Node> = Vec::new();
                let mut p: usize = 0;
                while p < queue.len()
                    invariant
                        p <= queue@.len(),
                        comp@.len() == p,
                        forall|q: int|
                            0 <= q < p ==> (#[trigger] comp@[q])@ == self.nodes_view()[queue@[q] as int],
                    decreases queue@.len() - p,
                {
                    let node_pos = queue[p];
                    comp.push(copy_node(&self.nodes[node_pos]));
                    p += 1;
                }
                let ghost gidx0 = gidx;
                comps.push(comp);
                proof {
                    gidx = gidx.push(queue@.map_values(|x: usize| x as int));
                    assert(gidx[gidx.len() - 1].len() == queue@.len());
                    assert forall|k: int, p: int|
                        #![trigger gidx[k][p]]
                        0 <= k < gidx.len() && 0 <= p < gidx[k].len() implies 0 <= gidx[k][p] < n
                        && comps@[k]@[p]@ == self.nodes_view()[gidx[k][p]] by {
                        if k < gidx.len() - 1 {
                            assert(gidx[k][p] == gidx0[k][p]);
                        } else {
                            assert(gidx[k][p] == queue@[p] as int);
                        }
                    }
                    assert forall|k1: int, p1: int, k2: int, p2: int|
                        #![trigger gidx[k1][p1], gidx[k2][p2]]
                        0 <= k1 < gidx.len() && 0 <= p1 < gidx[k1].len() && 0 <= k2 < gidx.len()
                            && 0 <= p2 < gidx[k2].len() && (k1 != k2 || p1 != p2) implies
                        gidx[k1][p1] != gidx[k2][p2] by {
                        let last = gidx.len() - 1;
                        if k1 < last && k2 < last {
                            assert(gidx0[k1][p1] != gidx0[k2][p2]);
                        } else if k1 == last && k2 == last {
                            assert(gidx[k1][p1] == queue@[p1] as int);
                            assert(gidx[k2][p2] == queue@[p2] as int);
                        } else if k1 == last {
                            assert(gidx[k1][p1] == queue@[p1] as int);
                            assert(!placed(gidx0, queue@[p1] as int));
                            assert(gidx[k2][p2] == gidx0[k2][p2]);
                            if gidx0[k2][p2] == queue@[p1] as int {
                                assert(placed(gidx0, queue@[p1] as int));
                            }
                        } else {
                            assert(gidx[k2][p2] == queue@[p2] as int);
                            assert(!placed(gidx0, queue@[p2] as int));
                            assert(gidx[k1][p1] == gidx0[k1][p1]);
                            if gidx0[k1][p1] == queue@[p2] as int {
                                assert(placed(gidx0, queue@[p2] as int));
                            }
                        }
                    }
                    assert forall|i: int| 0 <= i < n implies (visited@[i] <==> placed(gidx, i)) by {
                        if visited@[i] {
                            if placed(gidx0, i) {
                                let (k, q) = choose|k: int, q: int|
                                    0 <= k < gidx0.len() && 0 <= q < gidx0[k].len() && (
                                    #[trigger] gidx0[k][q]) == i;
                                assert(gidx[k][q] == i);
                                assert(placed(gidx, i));
                            } else {
                                assert(queued(queue@, i));
                                let q = choose|q: int|
                                    0 <= q < queue@.len() && (#[trigger] queue@[q]) == i;
                                assert(gidx[gidx.len() - 1][q] == i);
                                assert(placed(gidx, i));
                            }
                        }
                        if placed(gidx, i) {
                            let (k, q) = choose|k: int, q: int|
                                0 <= k < gidx.len() && 0 <= q < gidx[k].len() && (
                                #[trigger] gidx[k][q]) == i;
                            if k < gidx.len() - 1 {
                                assert(gidx0[k][q] == i);
                                assert(placed(gidx0, i));
                            } else {
                                assert(queue@[q] == i);
                                assert(queued(queue@, i));
                            }
                        }
                    }
                    let last = gidx.len() - 1;
                    assert forall|q: int, j2: int|
                        0 <= q < gidx[last].len() && 0 <= j2 < n && #[trigger] self.edge(
                            gidx[last][q],
                            j2,
                            false,
                        ) implies in_iseq(gidx[last], j2) by {
                        assert(gidx[last][q] == queue@[q] as int);
                        assert(nbrs_visited(*self, queue@[q] as int, visited@));
                        assert(self.edge(queue@[q] as int, j2, false));
                        assert(visited@[j2]);
                        if placed(gidx0, j2) {
                            let (k2, q2) = choose|k2: int, q2: int|
                                0 <= k2 < gidx0.len() && 0 <= q2 < gidx0[k2].len() && (
                                #[trigger] gidx0[k2][q2]) == j2;
                            assert(comp_closed(*self, gidx0[k2]));
                            assert(self.edge(j2, queue@[q] as int, false));
                            assert(in_iseq(gidx0[k2], queue@[q] as int));
                            let q3 = choose|q3: int|
                                0 <= q3 < gidx0[k2].len() && (#[trigger] gidx0[k2][q3]) == queue@[q] as int;
                            assert(placed(gidx0, queue@[q] as int));
                            assert(false);
                        } else {
                            assert(queued(queue@, j2));
                            let pj = choose|pj: int|
                                0 <= pj < queue@.len() && (#[trigger] queue@[pj]) == j2;
                            assert(gidx[last][pj] == j2);
                            assert(in_iseq(gidx[last], j2));
                        }
                    }
                    assert(comp_closed(*self, gidx[last]));
                    assert forall|k: int| 0 <= k < gidx.len() implies comp_closed(
                        *self,
                        #[trigger] gidx[k],
                    ) by {
                        if k < last {
                            assert(gidx[k] == gidx0[k]);
                        }
                    }
                    assert forall|k: int, q1: int, q2: int|
                        #![trigger gidx[k][q1], gidx[k][q2]]
                        0 <= k < gidx.len() && 0 <= q1 < gidx[k].len() && 0 <= q2
                            < gidx[k].len() implies reachable(*self, gidx[k][q1], gidx[k][q2], false) by {
                        if k < last {
                            assert(gidx[k] == gidx0[k]);
                        } else {
                            assert(gidx[last][q1] == queue@[q1] as int);
                            assert(gidx[last][q2] == queue@[q2] as int);
                            assert(reachable(*self, s as int, queue@[q1] as int, false));
                            assert(reachable(*self, s as int, queue@[q2] as int, false));
                            lemma_reachable_sym(*self, s as int, queue@[q1] as int);
                            lemma_reachable_trans(
                                *self,
                                queue@[q1] as int,
                                s as int,
                                queue@[q2] as int,
                                false,
                            );
                        }
                    }
                    if gidx0.len() == 0 {
                        assert(s == 0);
                        assert(gidx[0][0] == queue@[0] as int);
                        assert(gidx[0][0] == 0);
                    } else {
                        assert(gidx[0] == gidx0[0]);
                    }
                    assert forall|k: int, q: int|
                        #![trigger gidx[k][q]]
                        0 <= k < gidx.len() && 0 <= q < gidx[k].len() implies gidx[k][0]
                        <= gidx[k][q] by {
                        if k < last {
                            assert(gidx[k] == gidx0[k]);
                        } else {
                            assert(gidx[last][q] == queue@[q] as int);
                            assert(gidx[last][0] == queue@[0] as int);
                            assert(queue@[q] >= s);
                        }
                    }
                }
            }
            s += 1;
        }
        proof {
            if self.nodes@.len() > 0 {
                assert(visited@[0]);
                assert(placed(gidx, 0));
                let (k, q) = choose|k: int, q: int|
                    0 <= k < gidx.len() && 0 <= q < gidx[k].len() && (#[trigger] gidx[k][q]) == 0;
                assert(comps@.len() > 0);
            }
            assert forall|k: int| 0 <= k < comps@.len() implies (#[trigger] comps@[k])@.len()
                > 0 by {
                assert(gidx[k].len() > 0);
            }
            assert forall|k1: int, p1: int, k2: int, p2: int|
                #![trigger comps@[k1]@[p1], comps@[k2]@[p2]]
                0 <= k1 < comps@.len() && 0 <= p1 < comps@[k1]@.len() && 0 <= k2 < comps@.len() && 0
                    <= p2 < comps@[k2]@.len() && (k1 != k2 || p1 != p2) implies comps@[k1]@[p1]@.id
                != comps@[k2]@[p2]@.id by {
                let i1 = gidx[k1][p1];
                let i2 = gidx[k2][p2];
                assert(comps@[k1]@[p1]@ == self.nodes_view()[i1]);
                assert(comps@[k2]@[p2]@ == self.nodes_view()[i2]);
                assert(i1 != i2);
                assert(self.nodes_view()[i1].id != self.nodes_view()[i2].id);
            }
            assert forall|i: int| #![trigger self.nodes_view()[i]]
                0 <= i < self.nodes@.len() implies exists|k: int, p: int|
                0 <= k < comps@.len() && 0 <= p < comps@[k]@.len() && (#[trigger] comps@[k]@[p])@
                    == self.nodes_view()[i] by {
                assert(visited@[i]);
                assert(placed(gidx, i));
                let (k, q) = choose|k: int, q: int|
                    0 <= k < gidx.len() && 0 <= q < gidx[k].len() && (#[trigger] gidx[k][q]) == i;
                assert(comps@[k]@[q]@ == self.nodes_view()[i]);
            }
            assert forall|k: int, p: int|
                #![trigger comps@[k]@[p]]
                0 <= k < comps@.len() && 0 <= p < comps@[k]@.len() implies exists|i: int|
                0 <= i < self.nodes@.len() && comps@[k]@[p]@ == self.nodes_view()[i] by {
                let i = gidx[k][p];
                assert(comps@[k]@[p]@ == self.nodes_view()[i]);
            }
            assert forall|k: int, p1: int, p2: int|
                #![trigger comps@[k]@[p1], comps@[k]@[p2]]
                0 <= k < comps@.len() && 0 <= p1 < comps@[k]@.len() && 0 <= p2
                    < comps@[k]@.len() implies reachable(
                *self,
                self.node_index(comps@[k]@[p1]@.id),
                self.node_index(comps@[k]@[p2]@.id),
                false,
            ) by {
                let i1 = gidx[k][p1];
                let i2 = gidx[k][p2];
                assert(comps@[k]@[p1]@ == self.nodes_view()[i1]);
                assert(comps@[k]@[p2]@ == self.nodes_view()[i2]);
                let w1 = self.node_index(comps@[k]@[p1]@.id);
                assert(0 <= w1 < self.nodes_view().len() && self.nodes_view()[w1].id
                    == comps@[k]@[p1]@.id);
                assert(w1 == i1);
                let w2 = self.node_index(comps@[k]@[p2]@.id);
                assert(0 <= w2 < self.nodes_view().len() && self.nodes_view()[w2].id
                    == comps@[k]@[p2]@.id);
                assert(w2 == i2);
                assert(reachable(*self, i1, i2, false));
            }
            assert forall|k1: int, p1: int, k2: int, p2: int|
                #![trigger comps@[k1]@[p1], comps@[k2]@[p2]]
                0 <= k1 < comps@.len() && 0 <= p1 < comps@[k1]@.len() && 0 <= k2 < comps@.len() && 0
                    <= p2 < comps@[k2]@.len() && k1 != k2 implies !self.connects(
                comps@[k1]@[p1]@.id,
                comps@[k2]@[p2]@.id,
                false,
            ) by {
                let i1 = gidx[k1][p1];
                let i2 = gidx[k2][p2];
                assert(comps@[k1]@[p1]@ == self.nodes_view()[i1]);
                assert(comps@[k2]@[p2]@ == self.nodes_view()[i2]);
                if self.connects(comps@[k1]@[p1]@.id, comps@[k2]@[p2]@.id, false) {
                    assert(self.edge(i1, i2, false));
                    assert(comp_closed(*self, gidx[k1]));
                    assert(in_iseq(gidx[k1], i2));
                    let q3 = choose|q3: int|
                        0 <= q3 < gidx[k1].len() && (#[trigger] gidx[k1][q3]) == i2;
                    assert(gidx[k1][q3] == gidx[k2][p2]);
                    assert(false);
                }
            }
            assert forall|k: int, p: int|
                #![trigger comps@[k]@[p]]
                0 <= k < comps@.len() && 0 <= p < comps@[k]@.len() implies self.node_index(
                comps@[k]@[0]@.id,
            ) <= self.node_index(comps@[k]@[p]@.id) by {
                let i0 = gidx[k][0];
                let ip = gidx[k][p];
                assert(comps@[k]@[0]@ == self.nodes_view()[i0]);
                assert(comps@[k]@[p]@ == self.nodes_view()[ip]);
                let w0 = self.node_index(comps@[k]@[0]@.id);
                assert(0 <= w0 < self.nodes_view().len() && self.nodes_view()[w0].id
                    == comps@[k]@[0]@.id);
                assert(w0 == i0);
                let wp = self.node_index(comps@[k]@[p]@.id);
                assert(0 <= wp < self.nodes_view().len() && self.nodes_view()[wp].id
                    == comps@[k]@[p]@.id);
                assert(wp == ip);
            }
            if self.nodes@.len() > 0 {
                assert(gidx[0][0] == 0);
                assert(comps@[0]@[0]@ == self.nodes_view()[0]);
            }
        }
        comps
    }

    /// The connected components, computed on an undirected view of the links
    /// whatever the `directed` flag says; the flag and the rest of the graph
    /// are left exactly as they were. Every node lands in exactly one
    /// component; an empty graph has none.
    pub fn connected_components(&mut self) -> (comps: Vec<Vec<Node>>)
        requires
            old(self).wf(),
        ensures
            *final(self) == *old(self),
            old(self).nodes@.len() == 0 ==> comps@.len() == 0,
            old(self).nodes@.len() > 0 ==> comps@.len() > 0,
            old(self).nodes@.len() > 0 ==> comps@[0]@[0]@ == old(self).nodes_view()[0],
            components_partition(*old(self), comps@),
    {
        let comps = self.components_scan();
        proof {
            assert(*self == *old(self));
        }
        comps
    }

    /// The nodes directly connected from `source_id` (or, when the graph is
    /// undirected, in either direction), in storage order; empty when the id
    /// is unknown.
    pub fn direct_connected(&self, source_id: &str) -> (r: Vec<Node>)
        requires
            self.wf(),
        ensures
            !self.has_node(source_id@) ==> r@.len() == 0,
            self.has_node(source_id@) ==> r@.map_values(|nd: Node| nd@) == self.connected_row(
                self.node_index(source_id@),
                self.nodes@.len() as int,
            ),
    {
        let key = source_id.to_owned();
        let idx = match self.find_node_index(&key) {
            Some(i) => i,
            None => {
                return Vec::new();
            },
        };
        let n = self.nodes.len();
        let mut r: Vec<Node> = Vec::new();
        let mut j: usize = 0;
        while j < n
            invariant
                self.wf(),
                n == self.nodes@.len(),
                j <= n,
                idx < n,
                idx as int == self.node_index(source_id@),
                r@.map_values(|nd: Node| nd@) == self.connected_row(idx as int, j as int),
            decreases n - j,
        {
            let ghost prev = r@.map_values(|nd: Node| nd@);
            if self.edge_exec(idx, j, self.directed) {
                r.push(copy_node(&self.nodes[j]));
                proof {
                    assert(r@.map_values(|nd: Node| nd@) =~= prev.push(
                        self.nodes_view()[j as int],
                    ));
                }
            }
            j += 1;
        }
        r
    }
}

} // verus!
