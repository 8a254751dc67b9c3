use vstd::prelude::*;

verus! {

/// One node of the trie: its edges, each a character and the index of the node it leads to,
/// and the value stored for the key that spells the path to it.
struct Node<V> {
    children: Vec<(char, usize)>,
    value: Option<V>,
}

/// A prefix tree from keys (sequences of characters) to values. The nodes live in one vector;
/// node 0 is the root.
pub struct Trie<V> {
    nodes: Vec<Node<V>>,
    /// The key spelled by the edges from the root to each node.
    paths: Ghost<Seq<Seq<char>>>,
    /// The node each non-root node hangs from.
    parents: Ghost<Seq<int>>,
}

/// The node has an edge labelled `c` to node `m`.
spec fn has_child<V>(node: Node<V>, c: char, m: int) -> bool {
    exists|j: int| 0 <= j < node.children@.len() && #[trigger] node.children@[j] == (c, m as usize)
}

impl<V> Trie<V> {
    pub closed spec fn wf(&self) -> bool {
        let len = self.nodes@.len();
        let paths = self.paths@;
        let parents = self.parents@;
        &&& len >= 1
        &&& paths.len() == len
        &&& parents.len() == len
        &&& paths[0] == Seq::<char>::empty()
        &&& forall|n: int, m: int|
            0 <= n < len && 0 <= m < len && #[trigger] paths[n] == #[trigger] paths[m] ==> n == m
        &&& forall|n: int, j: int|
            0 <= n < len && 0 <= j < self.nodes@[n].children@.len() ==> {
                let e = #[trigger] self.nodes@[n].children@[j];
                &&& e.1 < len
                &&& paths[e.1 as int] == paths[n].push(e.0)
            }
        &&& forall|m: int|
            1 <= m < len ==> {
                &&& 0 <= #[trigger] parents[m] < len
                &&& paths[m].len() > 0
                &&& paths[parents[m]] == paths[m].drop_last()
                &&& has_child(self.nodes@[parents[m]], paths[m].last(), m)
            }
        &&& forall|m: int, k: int|
            0 <= m < len && 0 <= k <= paths[m].len() ==> exists|n: int|
                0 <= n < len && paths[n] == #[trigger] paths[m].take(k)
    }

    /// Number of nodes, the root included.
    pub closed spec fn spec_node_count(&self) -> nat {
        self.nodes@.len()
    }

    /// The key spelled by the edges from the root to node `n`.
    pub closed spec fn path_of(&self, n: int) -> Seq<char> {
        self.paths@[n]
    }

    /// Some node spells `p` and holds a value.
    spec fn stores(&self, p: Seq<char>) -> bool {
        exists|n: int| 0 <= n < self.nodes@.len() && self.paths@[n] == p && self.nodes@[n].value is Some
    }

    /// The node that spells `p`.
    spec fn node_of(&self, p: Seq<char>) -> int {
        choose|n: int| 0 <= n < self.nodes@.len() && self.paths@[n] == p
    }
}

impl<V> View for Trie<V> {
    type V = Map<Seq<char>, V>;

    /// Each key that has a value, with that value.
    closed spec fn view(&self) -> Map<Seq<char>, V> {
        Map::new(|p: Seq<char>| self.stores(p), |p: Seq<char>| self.nodes@[self.node_of(p)].value->Some_0)
    }
}

impl<V> Trie<V> {
    pub fn new() -> (r: Self)
        ensures
            r.wf(),
            r@ == Map::<Seq<char>, V>::empty(),
    {
        let mut nodes: Vec<Node<V>> = Vec::new();
        nodes.push(Node { children: Vec::new(), value: None });
        let ghost paths = seq![Seq::<char>::empty()];
        let ghost parents = seq![0int];
        let r = Trie { nodes, paths: Ghost(paths), parents: Ghost(parents) };
        proof {
            assert forall|m: int, k: int|
                0 <= m < 1 && 0 <= k <= r.paths@[m].len() implies exists|n: int|
                0 <= n < 1 && r.paths@[n] == #[trigger] r.paths@[m].take(k) by {
                assert(r.paths@[0].take(k) =~= r.paths@[0]);
            }
            assert(r@ =~= Map::<Seq<char>, V>::empty());
        }
        r
    }

    /// The node reached from node `n` by the edge labelled `c`, if there is one.
    fn find_child(&self, n: usize, c: char) -> (r: Option<usize>)
        requires
            self.wf(),
            n < self.nodes@.len(),
        ensures
            r is Some ==> r->Some_0 < self.nodes@.len() && self.paths@[r->Some_0 as int]
                == self.paths@[n as int].push(c),
            r is None ==> forall|m: int|
                0 <= m < self.nodes@.len() ==> self.paths@[m] != self.paths@[n as int].push(c),
    {
        let children = &self.nodes[n].children;
        let mut j: usize = 0;
        while j < children.len()
            invariant
                self.wf(),
                n < self.nodes@.len(),
                children == &self.nodes@[n as int].children,
                j <= children@.len(),
                forall|i: int| 0 <= i < j ==> (#[trigger] children@[i]).0 != c,
            decreases children@.len() - j,
        {
            let (d, m) = children[j];
            if d == c {
                assert(children@[j as int] == (d, m));
                return Some(m);
            }
            j = j + 1;
        }
        proof {
            let ghost here = self.paths@[n as int];
            assert forall|m: int| 0 <= m < self.nodes@.len() implies self.paths@[m] != here.push(c) by {
                if self.paths@[m] == self.paths@[n as int].push(c) {
                    assert(self.paths@[m].drop_last() =~= self.paths@[n as int]);
                    if m == 0 {
                        assert(self.paths@[0].len() == 0);
                    }
                    let p = self.parents@[m];
                    assert(self.paths@[p] == self.paths@[n as int]);
                    assert(p == n);
                    assert(self.paths@[m].last() == c);
                    let i = choose|i: int|
                        0 <= i < children@.len() && #[trigger] children@[i] == (c, m as usize);
                    assert(children@[i].0 == c);
                }
            }
        }
        None
    }

    /// The node that spells `p` is the only one that does.
    proof fn lemma_node_of(&self, p: Seq<char>, n: int)
        requires
            self.wf(),
            0 <= n < self.nodes@.len(),
            self.paths@[n] == p,
        ensures
            self.node_of(p) == n,
            self@.contains_key(p) <==> self.nodes@[n].value is Some,
            self@.contains_key(p) ==> self@[p] == self.nodes@[n].value->Some_0,
    {
        let m = self.node_of(p);
        assert(self.paths@[m] == self.paths@[n]);
    }

    /// The value stored for `key`, or `None` when there is none.
    pub fn get(&self, key: &[char]) -> (r: Option<&V>)
        requires
            self.wf(),
        ensures
            self@.contains_key(key@) ==> r == Some(&self@[key@]),
            !self@.contains_key(key@) ==> r is None,
    {
        let mut node: usize = 0;
        let mut i: usize = 0;
        proof {
            assert(key@.take(0) =~= Seq::<char>::empty());
        }
        while i < key.len()
            invariant
                self.wf(),
                node < self.nodes@.len(),
                i <= key@.len(),
                self.paths@[node as int] == key@.take(i as int),
            decreases key@.len() - i,
        {
            match self.find_child(node, key[i]) {
                Some(m) => {
                    proof {
                        assert(key@.take(i as int).push(key@[i as int]) =~= key@.take(i + 1));
                    }
                    node = m;
                },
                None => {
                    proof {
                        assert(key@.take(i as int).push(key@[i as int]) =~= key@.take(i + 1));
                        if self.stores(key@) {
                            let m = choose|m: int|
                                0 <= m < self.nodes@.len() && self.paths@[m] == key@ && self.nodes@[m].value is Some;
                            assert(self.paths@[m].take(i + 1) == key@.take(i + 1));
                            let n2 = choose|n2: int|
                                0 <= n2 < self.nodes@.len() && self.paths@[n2] == #[trigger] self.paths@[m].take(i + 1);
                            assert(self.paths@[n2] == self.paths@[node as int].push(key@[i as int]));
                        }
                        assert(!self@.contains_key(key@));
                    }
                    return None;
                },
            }
            i = i + 1;
        }
        proof {
            assert(key@.take(key@.len() as int) =~= key@);
            self.lemma_node_of(key@, node as int);
        }
        self.nodes[node].value.as_ref()
    }

    /// Number of nodes, the root (node 0) included.
    pub fn node_count(&self) -> (r: usize)
        requires
            self.wf(),
        ensures
            r == self.spec_node_count(),
            r >= 1,
            self.path_of(0) == Seq::<char>::empty(),
    {
        self.nodes.len()
    }

    /// The edges out of node `node`: each a character and the node it leads to, whose key is
    /// this node's key followed by that character.
    pub fn edges(&self, node: usize) -> (r: &[(char, usize)])
        requires
            self.wf(),
            node < self.spec_node_count(),
        ensures
            forall|j: int|
                0 <= j < r@.len() ==> (#[trigger] r@[j]).1 < self.spec_node_count() && self.path_of(
                    r@[j].1 as int,
                ) == self.path_of(node as int).push(r@[j].0),
            forall|m: int|
                0 <= m < self.spec_node_count() && self.path_of(m).len() > 0 && self.path_of(m).drop_last()
                    == self.path_of(node as int) ==> exists|j: int|
                    0 <= j < r@.len() && #[trigger] r@[j] == (self.path_of(m).last(), m as usize),
    {
        proof {
            assert forall|m: int|
                0 <= m < self.spec_node_count() && self.path_of(m).len() > 0 && self.path_of(m).drop_last()
                    == self.path_of(node as int) implies exists|j: int|
                    0 <= j < self.nodes@[node as int].children@.len()
                        && #[trigger] self.nodes@[node as int].children@[j] == (self.path_of(m).last(), m as usize) by {
                if m == 0 {
                    assert(self.paths@[0].len() == 0);
                }
                let p = self.parents@[m];
                assert(self.paths@[p] == self.paths@[node as int]);
                assert(has_child(self.nodes@[p], self.paths@[m].last(), m));
            }
        }
        self.nodes[node].children.as_slice()
    }

    /// The value stored for the key of node `node`, or `None` when there is none.
    pub fn node_value(&self, node: usize) -> (r: Option<&V>)
        requires
            self.wf(),
            node < self.spec_node_count(),
        ensures
            self@.contains_key(self.path_of(node as int)) ==> r == Some(&self@[self.path_of(node as int)]),
            !self@.contains_key(self.path_of(node as int)) ==> r is None,
    {
        proof {
            self.lemma_node_of(self.paths@[node as int], node as int);
        }
        self.nodes[node].value.as_ref()
    }

    /// Hangs a new node without a value from node `node` by an edge labelled `c`, where no
    /// node spells that path yet. The stored keys and values do not change.
    fn add_child(&mut self, node: usize, c: char) -> (r: usize)
        requires
            old(self).wf(),
            node < old(self).nodes@.len(),
            forall|m: int|
                0 <= m < old(self).nodes@.len() ==> old(self).paths@[m] != old(self).paths@[node as int].push(c),
        ensures
            final(self).wf(),
            final(self)@ == old(self)@,
            r < final(self).nodes@.len(),
            final(self).paths@[r as int] == old(self).paths@[node as int].push(c),
    {
        let ghost prev = *self;
        let ghost here = self.paths@[node as int];
        let id = self.nodes.len();
        self.nodes.push(Node { children: Vec::new(), value: None });
        let ghost fresh = self.nodes@[id as int];
        self.paths = Ghost(self.paths@.push(here.push(c)));
        self.parents = Ghost(self.parents@.push(node as int));
        self.nodes[node].children.push((c, id));
        proof {
            let len = self.nodes@.len();
            assert(forall|n: int| 0 <= n < len && n != node ==> #[trigger] self.nodes@[n] == (if n < id {
                prev.nodes@[n]
            } else {
                fresh
            }));
            assert(fresh.children@.len() == 0 && fresh.value is None);
            assert(self.nodes@[node as int].children@ == prev.nodes@[node as int].children@.push((c, id)));
            assert(self.nodes@[node as int].value == prev.nodes@[node as int].value);
            assert forall|n: int, j: int|
                0 <= n < len && 0 <= j < self.nodes@[n].children@.len() implies {
                let e = #[trigger] self.nodes@[n].children@[j];
                &&& e.1 < len
                &&& self.paths@[e.1 as int] == self.paths@[n].push(e.0)
            } by {
                if n == node && j == prev.nodes@[node as int].children@.len() {
                } else {
                    assert(self.nodes@[n].children@[j] == prev.nodes@[n].children@[j]);
                }
            }
            assert forall|m: int| 1 <= m < len implies {
                &&& 0 <= #[trigger] self.parents@[m] < len
                &&& self.paths@[m].len() > 0
                &&& self.paths@[self.parents@[m]] == self.paths@[m].drop_last()
                &&& has_child(self.nodes@[self.parents@[m]], self.paths@[m].last(), m)
            } by {
                if m == id {
                    assert(here.push(c).drop_last() =~= here);
                    let j = prev.nodes@[node as int].children@.len() as int;
                    assert(self.nodes@[node as int].children@[j] == (c, m as usize));
                } else {
                    let p = prev.parents@[m];
                    let j = choose|j: int|
                        0 <= j < prev.nodes@[p].children@.len() && #[trigger] prev.nodes@[p].children@[j]
                            == (prev.paths@[m].last(), m as usize);
                    assert(self.nodes@[p].children@[j] == prev.nodes@[p].children@[j]);
                }
            }
            assert forall|m: int, k: int| 0 <= m < len && 0 <= k <= self.paths@[m].len() implies exists|n: int|
                0 <= n < len && self.paths@[n] == #[trigger] self.paths@[m].take(k) by {
                if m == id {
                    if k == here.len() + 1 {
                        assert(self.paths@[m].take(k) =~= self.paths@[m]);
                    } else {
                        assert(self.paths@[m].take(k) =~= here.take(k));
                        let n = choose|n: int| 0 <= n < id && prev.paths@[n] == #[trigger] prev.paths@[node as int].take(k);
                        assert(self.paths@[n] == self.paths@[m].take(k));
                    }
                } else {
                    let n = choose|n: int| 0 <= n < id && prev.paths@[n] == #[trigger] prev.paths@[m].take(k);
                    assert(self.paths@[n] == self.paths@[m].take(k));
                }
            }
            assert(self.wf());
            assert forall|p: Seq<char>| #[trigger] self@.contains_key(p) == prev@.contains_key(p) && (
            self@.contains_key(p) ==> self@[p] == prev@[p]) by {
                if prev.stores(p) {
                    let m = choose|m: int|
                        0 <= m < prev.nodes@.len() && prev.paths@[m] == p && prev.nodes@[m].value is Some;
                    prev.lemma_node_of(p, m);
                    self.lemma_node_of(p, m);
                }
                if self.stores(p) {
                    let m = choose|m: int|
                        0 <= m < len && self.paths@[m] == p && self.nodes@[m].value is Some;
                    assert(m < id);
                    assert(prev.nodes@[m].value is Some);
                }
            }
            assert(self@ =~= prev@);
        }
        id
    }

    /// Stores `value` for `key`, replacing the value stored for it before, if any.
    pub fn insert(&mut self, key: &[char], value: V)
        requires
            old(self).wf(),
        ensures
            final(self).wf(),
            final(self)@ == old(self)@.insert(key@, value),
    {
        let mut node: usize = 0;
        let mut i: usize = 0;
        proof {
            assert(key@.take(0) =~= Seq::<char>::empty());
        }
        while i < key.len()
            invariant
                self.wf(),
                self@ == old(self)@,
                node < self.nodes@.len(),
                i <= key@.len(),
                self.paths@[node as int] == key@.take(i as int),
            decreases key@.len() - i,
        {
            proof {
                assert(key@.take(i as int).push(key@[i as int]) =~= key@.take(i + 1));
            }
            node = match self.find_child(node, key[i]) {
                Some(m) => m,
                None => self.add_child(node, key[i]),
            };
            i = i + 1;
        }
        proof {
            assert(key@.take(key@.len() as int) =~= key@);
        }
        let ghost prev = *self;
        self.nodes[node].value = Some(value);
        proof {
            let len = self.nodes@.len();
            assert(forall|n: int| 0 <= n < len && n != node ==> #[trigger] self.nodes@[n] == prev.nodes@[n]);
            assert(self.nodes@[node as int].children == prev.nodes@[node as int].children);
            assert forall|m: int| 1 <= m < len implies has_child(
                self.nodes@[self.parents@[m]],
                self.paths@[m].last(),
                m,
            ) by {
                let p = prev.parents@[m];
                assert(has_child(prev.nodes@[p], prev.paths@[m].last(), m));
                assert(self.nodes@[p].children == prev.nodes@[p].children);
            }
            assert(self.wf());
            assert forall|p: Seq<char>| #[trigger] self@.contains_key(p) == prev@.insert(key@, value).contains_key(p)
                && (self@.contains_key(p) ==> self@[p] == prev@.insert(key@, value)[p]) by {
                if p == key@ {
                    self.lemma_node_of(p, node as int);
                } else {
                    if prev.stores(p) {
                        let m = choose|m: int|
                            0 <= m < len && prev.paths@[m] == p && prev.nodes@[m].value is Some;
                        prev.lemma_node_of(p, m);
                        self.lemma_node_of(p, m);
                    }
                    if self.stores(p) {
                        let m = choose|m: int|
                            0 <= m < len && self.paths@[m] == p && self.nodes@[m].value is Some;
                        assert(m != node);
                        assert(prev.nodes@[m].value is Some);
                    }
                }
            }
            assert(self@ =~= prev@.insert(key@, value));
        }
    }
}

impl<V> Default for Trie<V> {
    fn default() -> (r: Self)
        ensures
            r.wf(),
            r@ == Map::<Seq<char>, V>::empty(),
    {
        Self::new()
    }
}

} // verus!
