use vstd::prelude::*;

verus! {

/// The sequence is in nondecreasing order.
pub open spec fn sorted(s: Seq<u64>) -> bool {
    forall|i: int, j: int| 0 <= i <= j < s.len() ==> s[i] <= s[j]
}

/// `r` is the largest key of `s` at most `v`, or `None` when every key exceeds `v`.
pub open spec fn is_floor(s: Seq<u64>, v: u64, r: Option<&u64>) -> bool {
    match r {
        None => forall|i: int| 0 <= i < s.len() ==> s[i] > v,
        Some(m) => {
            &&& s.contains(*m)
            &&& *m <= v
            &&& forall|i: int| 0 <= i < s.len() && s[i] <= v ==> s[i] <= *m
        },
    }
}

/// `r` is the smallest key of `s` at least `v`, or `None` when every key is below `v`.
pub open spec fn is_ceil(s: Seq<u64>, v: u64, r: Option<&u64>) -> bool {
    match r {
        None => forall|i: int| 0 <= i < s.len() ==> s[i] < v,
        Some(m) => {
            &&& s.contains(*m)
            &&& *m >= v
            &&& forall|i: int| 0 <= i < s.len() && s[i] >= v ==> s[i] >= *m
        },
    }
}

/// Unbalanced binary search tree of keys; equal keys are kept, each to the right of the others.
/// Only an empty tree has a root without a value.
#[derive(Debug)]
pub struct BinarySearchTree {
    value: Option<u64>,
    left: Option<Box<BinarySearchTree>>,
    right: Option<Box<BinarySearchTree>>,
}

impl BinarySearchTree {
    /// Keys of the tree in order: the left subtree, the root, the right subtree.
    pub closed spec fn in_order(&self) -> Seq<u64>
        decreases self,
    {
        match self.value {
            None => Seq::empty(),
            Some(k) => {
                let l = match self.left {
                    None => Seq::empty(),
                    Some(node) => node.in_order(),
                };
                let r = match self.right {
                    None => Seq::empty(),
                    Some(node) => node.in_order(),
                };
                l + seq![k] + r
            },
        }
    }

    /// Every key of the left subtree is below the root's, every key of the right subtree is at
    /// least the root's, and both subtrees are non-empty search trees.
    pub closed spec fn wf(&self) -> bool
        decreases self,
    {
        match self.value {
            None => self.left is None && self.right is None,
            Some(k) => {
                &&& match self.left {
                    None => true,
                    Some(node) => {
                        &&& node.wf()
                        &&& node.value is Some
                        &&& forall|i: int| 0 <= i < node.in_order().len() ==> #[trigger] node.in_order()[i] < k
                    },
                }
                &&& match self.right {
                    None => true,
                    Some(node) => {
                        &&& node.wf()
                        &&& node.value is Some
                        &&& forall|i: int| 0 <= i < node.in_order().len() ==> #[trigger] node.in_order()[i] >= k
                    },
                }
            },
        }
    }
}

impl View for BinarySearchTree {
    type V = Seq<u64>;

    /// The keys in ascending order, repeated keys included.
    closed spec fn view(&self) -> Seq<u64> {
        self.in_order()
    }
}

impl BinarySearchTree {
    /// The keys of a well-formed tree come out sorted.
    proof fn lemma_sorted(&self)
        requires
            self.wf(),
        ensures
            sorted(self@),
            self.value is None <==> self@.len() == 0,
        decreases self,
    {
        if let Some(k) = self.value {
            let l = match self.left {
                None => Seq::empty(),
                Some(node) => node.in_order(),
            };
            let r = match self.right {
                None => Seq::empty(),
                Some(node) => node.in_order(),
            };
            if let Some(node) = self.left {
                node.lemma_sorted();
            }
            if let Some(node) = self.right {
                node.lemma_sorted();
            }
            let s = l + seq![k] + r;
            assert(s == self@);
            assert forall|i: int, j: int| 0 <= i <= j < s.len() implies s[i] <= s[j] by {
                if j < l.len() {
                } else if i < l.len() && j == l.len() {
                } else if i < l.len() {
                    assert(s[j] == r[j - l.len() - 1]);
                } else if i == l.len() && j > i {
                    assert(s[j] == r[j - l.len() - 1]);
                }
            }
        }
    }

    pub fn new() -> (r: Self)
        ensures
            r.wf(),
            r@ == Seq::<u64>::empty(),
    {
        BinarySearchTree { value: None, left: None, right: None }
    }

    fn leaf(value: u64) -> (r: Box<Self>)
        ensures
            r.wf(),
            r.value == Some(value),
            r@ == seq![value],
    {
        let r = Box::new(BinarySearchTree { value: Some(value), left: None, right: None });
        assert(r@ =~= seq![value]);
        r
    }

    /// Keys of the left subtree.
    spec fn left_seq(&self) -> Seq<u64> {
        match self.left {
            None => Seq::empty(),
            Some(node) => node@,
        }
    }

    /// Keys of the right subtree.
    spec fn right_seq(&self) -> Seq<u64> {
        match self.right {
            None => Seq::empty(),
            Some(node) => node@,
        }
    }

    proof fn lemma_split(&self)
        requires
            self.wf(),
            self.value is Some,
        ensures
            self@ == self.left_seq() + seq![self.value->Some_0] + self.right_seq(),
            forall|i: int| 0 <= i < self.left_seq().len() ==> #[trigger] self.left_seq()[i] < self.value->Some_0,
            forall|i: int| 0 <= i < self.right_seq().len() ==> #[trigger] self.right_seq()[i] >= self.value->Some_0,
    {
    }

    /// Whether `value` is one of the keys.
    pub fn search(&self, value: &u64) -> (r: bool)
        requires
            self.wf(),
        ensures
            r == self@.contains(*value),
        decreases self,
    {
        match self.value {
            None => false,
            Some(key) => {
                proof {
                    self.lemma_split();
                }
                let ghost l = self.left_seq();
                let ghost rs = self.right_seq();
                if key == *value {
                    assert(self@[l.len() as int] == key);
                    true
                } else if key > *value {
                    let r = match &self.left {
                        None => false,
                        Some(node) => node.search(value),
                    };
                    proof {
                        if r {
                            let i = choose|i: int| 0 <= i < l.len() && l[i] == *value;
                            assert(self@[i] == *value);
                        }
                        if self@.contains(*value) {
                            let i = choose|i: int| 0 <= i < self@.len() && self@[i] == *value;
                            if i > l.len() {
                                assert(rs[i - l.len() - 1] == *value);
                            }
                            assert(l[i] == *value);
                        }
                    }
                    r
                } else {
                    let r = match &self.right {
                        None => false,
                        Some(node) => node.search(value),
                    };
                    proof {
                        if r {
                            let i = choose|i: int| 0 <= i < rs.len() && rs[i] == *value;
                            assert(self@[i + l.len() + 1] == *value);
                        }
                        if self@.contains(*value) {
                            let i = choose|i: int| 0 <= i < self@.len() && self@[i] == *value;
                            if i < l.len() {
                                assert(l[i] == *value);
                            }
                            assert(rs[i - l.len() - 1] == *value);
                        }
                    }
                    r
                }
            },
        }
    }

    /// Adds `value`, keeping the keys in order; an equal key already present stays before it.
    pub fn insert(&mut self, value: u64)
        requires
            old(self).wf(),
        ensures
            final(self).wf(),
            exists|p: int| 0 <= p <= old(self)@.len() && final(self)@ == old(self)@.insert(p, value),
        decreases *old(self),
    {
        match self.value {
            None => {
                self.value = Some(value);
                assert(self@ =~= old(self)@.insert(0, value));
            },
            Some(key) => {
                proof {
                    self.lemma_split();
                }
                let ghost l = self.left_seq();
                let ghost rs = self.right_seq();
                if key > value {
                    match self.left {
                        Some(ref mut node) => {
                            node.insert(value);
                        },
                        None => {
                            self.left = Some(Self::leaf(value));
                        },
                    }
                    proof {
                        if old(self).left is None {
                            assert(self.left_seq() =~= l.insert(0, value));
                        }
                        assert(exists|p: int| 0 <= p <= l.len() && self.left_seq() == l.insert(p, value));
                        let p = choose|p: int| 0 <= p <= l.len() && self.left_seq() == l.insert(p, value);
                        assert(self@ =~= old(self)@.insert(p, value));
                    }
                } else {
                    match self.right {
                        Some(ref mut node) => {
                            node.insert(value);
                        },
                        None => {
                            self.right = Some(Self::leaf(value));
                        },
                    }
                    proof {
                        if old(self).right is None {
                            assert(self.right_seq() =~= rs.insert(0, value));
                        }
                        assert(exists|p: int| 0 <= p <= rs.len() && self.right_seq() == rs.insert(p, value));
                        let p = choose|p: int| 0 <= p <= rs.len() && self.right_seq() == rs.insert(p, value);
                        assert(self@ =~= old(self)@.insert(l.len() + 1 + p, value));
                    }
                }
            },
        }
    }

    /// The smallest key, or `None` when empty.
    pub fn minimum(&self) -> (r: Option<&u64>)
        requires
            self.wf(),
        ensures
            self@.len() == 0 ==> r is None,
            self@.len() > 0 ==> r == Some(&self@[0]),
        decreases self,
    {
        proof {
            self.lemma_sorted();
            if self.value is Some {
                self.lemma_split();
            }
        }
        match &self.left {
            Some(node) => {
                proof {
                    node.lemma_sorted();
                }
                node.minimum()
            },
            None => self.value.as_ref(),
        }
    }

    /// The largest key, or `None` when empty.
    pub fn maximum(&self) -> (r: Option<&u64>)
        requires
            self.wf(),
        ensures
            self@.len() == 0 ==> r is None,
            self@.len() > 0 ==> r == Some(&self@.last()),
        decreases self,
    {
        proof {
            self.lemma_sorted();
            if self.value is Some {
                self.lemma_split();
            }
        }
        match &self.right {
            Some(node) => {
                proof {
                    node.lemma_sorted();
                }
                node.maximum()
            },
            None => self.value.as_ref(),
        }
    }

    /// The largest key at most `value`, or `None` when there is none.
    pub fn floor(&self, value: &u64) -> (r: Option<&u64>)
        requires
            self.wf(),
        ensures
            is_floor(self@, *value, r),
        decreases self,
    {
        match &self.value {
            None => None,
            Some(key) => {
                proof {
                    self.lemma_split();
                }
                let ghost l = self.left_seq();
                let ghost rs = self.right_seq();
                let ghost s = self@;
                let ghost k = l.len() as int;
                assert(s[k] == *key);
                assert forall|i: int| 0 <= i < l.len() implies s[i] == l[i] by {}
                assert forall|i: int| 0 <= i < rs.len() implies s[k + 1 + i] == rs[i] by {}
                if *key == *value {
                    Some(key)
                } else if *key < *value {
                    let f = match &self.right {
                        None => None,
                        Some(node) => node.floor(value),
                    };
                    match f {
                        Some(m) => {
                            proof {
                                let j = choose|j: int| 0 <= j < rs.len() && rs[j] == *m;
                                assert(s[k + 1 + j] == *m);
                                assert forall|i: int| 0 <= i < s.len() && s[i] <= *value implies s[i] <= *m by {
                                    if i > k {
                                        assert(rs[i - k - 1] == s[i]);
                                    }
                                }
                            }
                            Some(m)
                        },
                        None => {
                            proof {
                                assert forall|i: int| 0 <= i < s.len() && s[i] <= *value implies s[i] <= *key by {
                                    if i > k {
                                        assert(rs[i - k - 1] == s[i]);
                                    }
                                }
                            }
                            Some(key)
                        },
                    }
                } else {
                    let f = match &self.left {
                        None => None,
                        Some(node) => node.floor(value),
                    };
                    proof {
                        match f {
                            Some(m) => {
                                let j = choose|j: int| 0 <= j < l.len() && l[j] == *m;
                                assert(s[j] == *m);
                                assert forall|i: int| 0 <= i < s.len() && s[i] <= *value implies s[i] <= *m by {
                                    if i > k {
                                        assert(rs[i - k - 1] == s[i]);
                                    }
                                }
                            },
                            None => {
                                assert forall|i: int| 0 <= i < s.len() implies s[i] > *value by {
                                    if i > k {
                                        assert(rs[i - k - 1] == s[i]);
                                    }
                                }
                            },
                        }
                    }
                    f
                }
            },
        }
    }

    /// The smallest key at least `value`, or `None` when there is none.
    pub fn ceil(&self, value: &u64) -> (r: Option<&u64>)
        requires
            self.wf(),
        ensures
            is_ceil(self@, *value, r),
        decreases self,
    {
        match &self.value {
            None => None,
            Some(key) => {
                proof {
                    self.lemma_split();
                }
                let ghost l = self.left_seq();
                let ghost rs = self.right_seq();
                let ghost s = self@;
                let ghost k = l.len() as int;
                assert(s[k] == *key);
                assert forall|i: int| 0 <= i < l.len() implies s[i] == l[i] by {}
                assert forall|i: int| 0 <= i < rs.len() implies s[k + 1 + i] == rs[i] by {}
                if *key == *value {
                    proof {
                        assert forall|i: int| 0 <= i < s.len() && s[i] >= *value implies s[i] >= *key by {
                            if i > k {
                                assert(rs[i - k - 1] == s[i]);
                            }
                        }
                    }
                    Some(key)
                } else if *key < *value {
                    let f = match &self.right {
                        None => None,
                        Some(node) => node.ceil(value),
                    };
                    proof {
                        match f {
                            Some(m) => {
                                let j = choose|j: int| 0 <= j < rs.len() && rs[j] == *m;
                                assert(s[k + 1 + j] == *m);
                                assert forall|i: int| 0 <= i < s.len() && s[i] >= *value implies s[i] >= *m by {
                                    if i > k {
                                        assert(rs[i - k - 1] == s[i]);
                                    }
                                }
                            },
                            None => {
                                assert forall|i: int| 0 <= i < s.len() implies s[i] < *value by {
                                    if i > k {
                                        assert(rs[i - k - 1] == s[i]);
                                    }
                                }
                            },
                        }
                    }
                    f
                } else {
                    let f = match &self.left {
                        None => None,
                        Some(node) => node.ceil(value),
                    };
                    match f {
                        Some(m) => {
                            proof {
                                let j = choose|j: int| 0 <= j < l.len() && l[j] == *m;
                                assert(s[j] == *m);
                                assert forall|i: int| 0 <= i < s.len() && s[i] >= *value implies s[i] >= *m by {
                                    if i > k {
                                        assert(rs[i - k - 1] == s[i]);
                                    }
                                }
                            }
                            Some(m)
                        },
                        None => {
                            proof {
                                assert forall|i: int| 0 <= i < s.len() && s[i] >= *value implies s[i] >= *key by {
                                    if i > k {
                                        assert(rs[i - k - 1] == s[i]);
                                    }
                                }
                            }
                            Some(key)
                        },
                    }
                }
            },
        }
    }

    /// Number of keys, repeated keys included.
    pub fn len(&self) -> (r: usize)
        requires
            self.wf(),
            self@.len() <= usize::MAX,
        ensures
            r == self@.len(),
        decreases self,
    {
        match self.value {
            None => 0,
            Some(_) => {
                proof {
                    self.lemma_split();
                }
                let l = match &self.left {
                    None => 0,
                    Some(node) => node.len(),
                };
                let r = match &self.right {
                    None => 0,
                    Some(node) => node.len(),
                };
                l + 1 + r
            },
        }
    }

    /// Appends the keys in ascending order to `vs`.
    fn values(&self, vs: &mut Vec<u64>)
        requires
            self.wf(),
        ensures
            final(vs)@ == old(vs)@ + self@,
        decreases self,
    {
        if let Some(key) = self.value {
            proof {
                self.lemma_split();
            }
            if let Some(node) = &self.left {
                node.values(vs);
            }
            vs.push(key);
            if let Some(node) = &self.right {
                node.values(vs);
            }
            assert(vs@ =~= old(vs)@ + self@);
        } else {
            assert(vs@ =~= old(vs)@ + self@);
        }
    }

    /// The keys in ascending order, repeated keys included.
    pub fn iter(&self) -> (r: Vec<u64>)
        requires
            self.wf(),
        ensures
            r@ == self@,
            sorted(r@),
    {
        let mut vs: Vec<u64> = Vec::new();
        self.values(&mut vs);
        proof {
            self.lemma_sorted();
            assert(vs@ =~= self@);
        }
        vs
    }

    /// A tree holding the keys of `values`, inserted in order.
    pub fn from(values: Vec<u64>) -> (r: Self)
        ensures
            r.wf(),
            sorted(r@),
            r@.to_multiset() == values@.to_multiset(),
    {
        let mut tree = Self::new();
        let mut i: usize = 0;
        proof {
            assert(values@.take(0) =~= Seq::<u64>::empty());
            assert(tree@.to_multiset() =~= Seq::<u64>::empty().to_multiset());
        }
        while i < values.len()
            invariant
                tree.wf(),
                i <= values@.len(),
                tree@.to_multiset() == values@.take(i as int).to_multiset(),
            decreases values@.len() - i,
        {
            let ghost before = tree@;
            tree.insert(values[i]);
            proof {
                let p = choose|p: int| 0 <= p <= before.len() && tree@ == before.insert(p, values@[i as int]);
                vstd::seq_lib::to_multiset_insert(before, p, values@[i as int]);
                vstd::seq_lib::to_multiset_build(values@.take(i as int), values@[i as int]);
                assert(values@.take(i as int).push(values@[i as int]) =~= values@.take(i + 1));
            }
            i = i + 1;
        }
        proof {
            tree.lemma_sorted();
            assert(values@.take(values@.len() as int) =~= values@);
        }
        tree
    }
}

impl Default for BinarySearchTree {
    fn default() -> (r: Self)
        ensures
            r.wf(),
            r@ == Seq::<u64>::empty(),
    {
        Self::new()
    }
}

} // verus!
