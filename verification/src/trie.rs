//! A trie over byte strings.

use vstd::prelude::*;

verus! {

/// The children of a node, by the byte that leads to each.
struct Node {
    edges: Vec<(u8, usize)>,
}

/// A prefix tree. Its nodes are numbered; each stands for the byte string that leads to it from
/// the root.
pub struct Trie {
    nodes: Vec<Node>,
    paths: Ghost<Seq<Seq<u8>>>,
}

impl Trie {
    /// The number of nodes.
    pub closed spec fn size(self) -> int {
        self.nodes@.len() as int
    }

    /// The byte string that a node stands for.
    pub closed spec fn path(self, node: int) -> Seq<u8> {
        self.paths@[node]
    }

    /// Whether a node has the edge to a child.
    spec fn has_edge(self, node: int, edge: int, byte: u8, child: int) -> bool {
        &&& 0 <= node < self.nodes@.len()
        &&& 0 <= edge < self.nodes@[node].edges@.len()
        &&& self.nodes@[node].edges@[edge].0 == byte
        &&& self.nodes@[node].edges@[edge].1 == child
    }

    /// Every edge extends its node's byte string by its byte, every node but the root has an
    /// edge that leads to it, and no two nodes stand for the same byte string.
    pub closed spec fn well_formed(self) -> bool {
        &&& self.nodes@.len() >= 1
        &&& self.paths@.len() == self.nodes@.len()
        &&& self.paths@[0] == Seq::<u8>::empty()
        &&& forall|i: int, j: int|
            0 <= i < j < self.paths@.len() ==> #[trigger] self.paths@[i] != #[trigger] self.paths@[j]
        &&& forall|i: int, e: int, b: u8, j: int| #[trigger]
            self.has_edge(i, e, b, j) ==> 0 <= j < self.paths@.len() && self.paths@[j]
                == self.paths@[i].push(b)
        &&& forall|j: int|
            1 <= j < self.paths@.len() ==> (#[trigger] self.paths@[j]).len() > 0 && exists|
                i: int,
                e: int,
            |
                self.paths@[i] == self.paths@[j].drop_last() && #[trigger] self.has_edge(
                    i,
                    e,
                    self.paths@[j].last(),
                    j,
                )
    }

    /// The trie with the root alone.
    pub fn new() -> (trie: Self)
        ensures
            trie.well_formed(),
            trie.size() == 1,
            trie.path(0) == Seq::<u8>::empty(),
    {
        let mut nodes: Vec<Node> = Vec::new();
        nodes.push(Node { edges: Vec::new() });
        let ghost root = seq![Seq::<u8>::empty()];
        Trie { nodes, paths: Ghost(root) }
    }

    /// No two nodes stand for the same byte string.
    pub proof fn lemma_paths_distinct(self, a: int, b: int)
        requires
            self.well_formed(),
            0 <= a < self.size(),
            0 <= b < self.size(),
            self.path(a) == self.path(b),
        ensures
            a == b,
    {
        if a < b {
            assert(self.paths@[a] != self.paths@[b]);
        } else if b < a {
            assert(self.paths@[b] != self.paths@[a]);
        }
    }

    /// The number of nodes.
    pub fn node_count(&self) -> (count: usize)
        ensures
            count == self.size(),
    {
        self.nodes.len()
    }

    /// The child of a node that a byte leads to.
    fn child(&self, node: usize, byte: u8) -> (child: Option<usize>)
        requires
            self.well_formed(),
            node < self.size(),
        ensures
            match child {
                Some(c) => c < self.size() && self.path(c as int) == self.path(node as int).push(
                    byte,
                ),
                None => forall|j: int|
                    0 <= j < self.size() ==> #[trigger] self.path(j) != self.path(node as int).push(
                        byte,
                    ),
            },
    {
        let mut e: usize = 0;
        while e < self.nodes[node].edges.len()
            invariant
                self.well_formed(),
                node < self.nodes@.len(),
                e <= self.nodes@[node as int].edges@.len(),
                forall|k: int|
                    0 <= k < e ==> (#[trigger] self.nodes@[node as int].edges@[k]).0 != byte,
            decreases self.nodes@[node as int].edges@.len() - e,
        {
            let (label, child) = self.nodes[node].edges[e];
            if label == byte {
                assert(self.has_edge(node as int, e as int, byte, child as int));
                return Some(child);
            }
            e += 1;
        }
        proof {
            let wanted = self.path(node as int).push(byte);
            assert forall|j: int| 0 <= j < self.size() implies #[trigger] self.path(j) != wanted by {
                if self.path(j) == wanted {
                    assert(self.paths@[j].len() > 0);
                    let (i, k) = choose|i: int, k: int|
                        self.paths@[i] == self.paths@[j].drop_last() && #[trigger] self.has_edge(
                            i,
                            k,
                            self.paths@[j].last(),
                            j,
                        );
                    assert(wanted.drop_last() =~= self.path(node as int));
                    self.lemma_paths_distinct(i, node as int);
                    assert(self.nodes@[node as int].edges@[k].0 == byte);
                }
            }
        }
        None
    }

    /// Adds a child to a node.
    fn extend(&mut self, node: usize, byte: u8) -> (child: usize)
        requires
            old(self).well_formed(),
            node < old(self).size(),
            forall|j: int|
                0 <= j < old(self).size() ==> #[trigger] old(self).path(j) != old(self).path(
                    node as int,
                ).push(byte),
        ensures
            final(self).well_formed(),
            child == old(self).size(),
            final(self).size() == old(self).size() + 1,
            forall|j: int|
                0 <= j < old(self).size() ==> #[trigger] final(self).path(j) == old(self).path(j),
            final(self).path(child as int) == old(self).path(node as int).push(byte),
    {
        let child: usize = self.nodes.len();
        let ghost before = *self;
        let ghost added = self.paths@[node as int].push(byte);
        self.nodes.push(Node { edges: Vec::new() });
        let mut parent = Node { edges: Vec::new() };
        std::mem::swap(&mut parent.edges, &mut self.nodes[node].edges);
        parent.edges.push((byte, child));
        std::mem::swap(&mut parent.edges, &mut self.nodes[node].edges);
        self.paths = Ghost(self.paths@.push(added));
        proof {
            assert(self.nodes@[node as int].edges@ == before.nodes@[node as int].edges@.push(
                (byte, child),
            ));
            assert forall|i: int, j: int| 0 <= i < j < self.paths@.len() implies #[trigger]
            self.paths@[i] != #[trigger] self.paths@[j] by {
                if j == child {
                    assert(before.path(i) != added);
                } else {
                    assert(before.paths@[i] != before.paths@[j]);
                }
            }
            assert forall|i: int, e: int, b: u8, j: int| #[trigger]
                self.has_edge(i, e, b, j) implies 0 <= j < self.paths@.len() && self.paths@[j]
                == self.paths@[i].push(b) by {
                if i == node && e == before.nodes@[node as int].edges@.len() {
                } else {
                    assert(before.has_edge(i, e, b, j));
                }
            }
            assert forall|j: int| 1 <= j < self.paths@.len() implies (
            #[trigger] self.paths@[j]).len() > 0 && exists|i: int, e: int|
                self.paths@[i] == self.paths@[j].drop_last() && #[trigger] self.has_edge(
                    i,
                    e,
                    self.paths@[j].last(),
                    j,
                ) by {
                if j == child {
                    assert(self.paths@[j] == added);
                    assert(added.drop_last() =~= self.paths@[node as int]);
                    assert(self.paths@[j].last() == byte);
                    assert(self.has_edge(
                        node as int,
                        before.nodes@[node as int].edges@.len() as int,
                        self.paths@[j].last(),
                        j,
                    ));
                } else {
                    assert(before.paths@[j].len() > 0);
                    let (i, e) = choose|i: int, e: int|
                        before.paths@[i] == before.paths@[j].drop_last()
                            && #[trigger] before.has_edge(i, e, before.paths@[j].last(), j);
                    assert(self.paths@[j] == before.paths@[j]);
                    assert(self.paths@[i] == before.paths@[i]);
                    assert(self.has_edge(i, e, self.paths@[j].last(), j));
                }
            }
        }
        child
    }

    /// The node of a byte string.
    pub fn find(&self, key: &[u8]) -> (node: Option<usize>)
        requires
            self.well_formed(),
        ensures
            match node {
                Some(n) => n < self.size() && self.path(n as int) == key@,
                None => forall|j: int| 0 <= j < self.size() ==> #[trigger] self.path(j) != key@,
            },
    {
        let mut node: usize = 0;
        let mut k: usize = 0;
        assert(key@.take(0) =~= Seq::<u8>::empty());
        while k < key.len()
            invariant
                self.well_formed(),
                k <= key@.len(),
                node < self.size(),
                self.path(node as int) == key@.take(k as int),
            decreases key@.len() - k,
        {
            assert(key@.take(k + 1) =~= key@.take(k as int).push(key@[k as int]));
            match self.child(node, key[k]) {
                Some(next) => {
                    node = next;
                },
                None => {
                    proof {
                        assert forall|j: int| 0 <= j < self.size() implies #[trigger] self.path(j)
                            != key@ by {
                            if self.path(j) == key@ {
                                assert(key@.take(key@.len() as int) =~= key@);
                                self.lemma_prefixes(j, key@, key@.len() as int, k + 1);
                            }
                        }
                    }
                    return None;
                },
            }
            k += 1;
        }
        assert(key@.take(k as int) =~= key@);
        Some(node)
    }

    /// The prefixes of a byte string that a node stands for have nodes too.
    proof fn lemma_prefixes(self, node: int, key: Seq<u8>, n: int, k: int)
        requires
            self.well_formed(),
            0 <= node < self.size(),
            0 <= k <= n <= key.len(),
            self.path(node) == key.take(n),
        ensures
            exists|j: int| 0 <= j < self.size() && #[trigger] self.path(j) == key.take(k),
        decreases n - k,
    {
        if k == n {
            assert(self.path(node) == key.take(k));
        } else {
            assert(self.paths@[node].len() > 0);
            assert(node >= 1);
            let (i, e) = choose|i: int, e: int|
                self.paths@[i] == self.paths@[node].drop_last() && #[trigger] self.has_edge(
                    i,
                    e,
                    self.paths@[node].last(),
                    node,
                );
            assert(key.take(n).drop_last() =~= key.take(n - 1));
            self.lemma_prefixes(i, key, n - 1, k);
        }
    }

    /// The node of a byte string, which is added where it is missing.
    pub fn reach(&mut self, key: &[u8]) -> (node: usize)
        requires
            old(self).well_formed(),
        ensures
            final(self).well_formed(),
            node < final(self).size(),
            final(self).path(node as int) == key@,
            final(self).size() >= old(self).size(),
            forall|j: int|
                0 <= j < old(self).size() ==> #[trigger] final(self).path(j) == old(self).path(j),
    {
        let mut node: usize = 0;
        let mut k: usize = 0;
        assert(key@.take(0) =~= Seq::<u8>::empty());
        while k < key.len()
            invariant
                self.well_formed(),
                self.size() >= old(self).size(),
                forall|j: int|
                    0 <= j < old(self).size() ==> #[trigger] self.path(j) == old(self).path(j),
                k <= key@.len(),
                node < self.size(),
                self.path(node as int) == key@.take(k as int),
            decreases key@.len() - k,
        {
            assert(key@.take(k + 1) =~= key@.take(k as int).push(key@[k as int]));
            node = match self.child(node, key[k]) {
                Some(next) => next,
                None => self.extend(node, key[k]),
            };
            k += 1;
        }
        assert(key@.take(k as int) =~= key@);
        node
    }
}

} // verus!
