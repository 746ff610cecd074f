use vstd::prelude::*;

verus! {

/// An adjacency-list graph whose nodes are identified by distinct strings.
///
/// Every identifier that was ever mentioned gets an index. A node is a *key*
/// when it has an adjacency entry of its own; a node that was only mentioned
/// as somebody's neighbour is not a key and has no neighbours. Neighbour
/// lists are multisets: a repeated edge is stored once per occurrence.
pub struct Graph {
    names: Vec<String>,
    keyed: Vec<bool>,
    adj: Vec<Vec<usize>>,
}

impl Graph {
    /// Number of identifiers known to the graph (keys and mere neighbours).
    pub closed spec fn size(&self) -> nat {
        self.names@.len()
    }

    /// The identifier of node `i`.
    pub closed spec fn name(&self, i: int) -> Seq<char> {
        self.names@[i]@
    }

    /// Whether node `i` has an adjacency entry of its own.
    pub closed spec fn is_key(&self, i: int) -> bool {
        self.keyed@[i]
    }

    /// The neighbour list of node `i`, as node indices.
    pub closed spec fn nbrs(&self, i: int) -> Seq<usize> {
        self.adj@[i]@
    }

    /// The three parallel vectors have one entry per node.
    pub closed spec fn shape_ok(&self) -> bool {
        &&& self.keyed@.len() == self.names@.len()
        &&& self.adj@.len() == self.names@.len()
    }

    /// Well-formedness: every node index fits in a `usize`, identifiers are
    /// distinct, every neighbour index is a node, and a node that is not a
    /// key has no neighbours.
    pub open spec fn wf(&self) -> bool {
        &&& self.shape_ok()
        &&& self.size() <= usize::MAX as nat + 1
        &&& forall|i: int, j: int|
            0 <= i < self.size() && 0 <= j < self.size() && i != j ==> self.name(i) != self.name(j)
        &&& forall|i: int, k: int|
            0 <= i < self.size() && 0 <= k < self.nbrs(i).len() ==> (#[trigger] self.nbrs(i)[k] as int)
                < self.size()
        &&& forall|i: int| 0 <= i < self.size() && !self.is_key(i) ==> #[trigger] self.nbrs(i).len() == 0
    }

    /// The node named `k`, if there is one.
    pub open spec fn index_of(&self, k: Seq<char>) -> Option<int> {
        if exists|i: int| 0 <= i < self.size() && self.name(i) == k {
            Some(choose|i: int| 0 <= i < self.size() && self.name(i) == k)
        } else {
            None
        }
    }

    /// Number of keys among the first `n` nodes.
    pub open spec fn keys_below(&self, n: int) -> nat
        decreases n,
    {
        if n <= 0 {
            0
        } else {
            self.keys_below(n - 1) + if self.is_key(n - 1) { 1nat } else { 0nat }
        }
    }

    /// Number of keys: the node count of the graph.
    pub open spec fn key_count(&self) -> nat {
        self.keys_below(self.size() as int)
    }

    /// An empty graph.
    pub fn new() -> (g: Graph)
        ensures
            g.wf(),
            g.size() == 0,
    {
        Graph { names: Vec::new(), keyed: Vec::new(), adj: Vec::new() }
    }

    /// Number of identifiers known to the graph.
    pub fn node_total(&self) -> (r: usize)
        requires
            self.wf(),
        ensures
            r == self.size(),
    {
        self.names.len()
    }

    /// Whether node `i` is a key.
    pub fn is_key_at(&self, i: usize) -> (r: bool)
        requires
            self.wf(),
            i < self.size(),
        ensures
            r == self.is_key(i as int),
    {
        self.keyed[i]
    }

    /// The neighbour list of node `i`.
    pub fn neighbors(&self, i: usize) -> (r: &Vec<usize>)
        requires
            self.wf(),
            i < self.size(),
        ensures
            r@ == self.nbrs(i as int),
    {
        &self.adj[i]
    }

    /// The identifier of node `i`.
    pub fn name_at(&self, i: usize) -> (r: &String)
        requires
            self.wf(),
            i < self.size(),
        ensures
            r@ == self.name(i as int),
    {
        &self.names[i]
    }

    /// Looks up the node named `k`.
    pub fn find(&self, k: &String) -> (r: Option<usize>)
        requires
            self.wf(),
        ensures
            r == match self.index_of(k@) {
                Some(i) => Some(i as usize),
                None => None::<usize>,
            },
            r is Some ==> (r->0 as int) < self.size() && self.name(r->0 as int) == k@,
    {
        let mut i: usize = 0;
        while i < self.names.len()
            invariant
                self.wf(),
                i <= self.size(),
                forall|j: int| 0 <= j < i ==> self.name(j) != k@,
            decreases self.size() - i,
        {
            if self.names[i] == *k {
                assert(self.name(i as int) == k@);
                let ghost c = choose|j: int| 0 <= j < self.size() && self.name(j) == k@;
                assert(c == i as int);
                return Some(i);
            }
            i = i + 1;
        }
        None
    }

    /// Returns the index of the node named `k`, adding it as a non-key node
    /// with no neighbours when it is not known yet.
    fn intern(&mut self, k: &String) -> (r: usize)
        requires
            old(self).wf(),
        ensures
            final(self).wf(),
            (r as int) < final(self).size(),
            final(self).name(r as int) == k@,
            final(self).index_of(k@) == Some(r as int),
            Self::extends(*old(self), *final(self)),
            Self::grows(*old(self), *final(self)),
            old(self).index_of(k@) is Some ==> final(self).size() == old(self).size(),
            old(self).index_of(k@) is None ==> final(self).size() == old(self).size() + 1,
    {
        proof {
            Self::lemma_extends_grows(*old(self), *old(self));
        }
        match self.find(k) {
            Some(i) => {
                proof {
                    let j = choose|j: int| 0 <= j < self.size() && self.name(j) == k@;
                    assert(0 <= j < self.size());
                    assert(self.name(i as int) == k@);
                    assert(i as int == j);
                }
                i
            },
            None => {
                let n = self.names.len();
                self.names.push(k.clone());
                self.keyed.push(false);
                self.adj.push(Vec::new());
                assert(self.name(n as int) == k@);
                assert forall|i: int, j: int|
                    0 <= i < self.size() && 0 <= j < self.size() && i != j implies self.name(i)
                    != self.name(j) by {
                    if i < n && j < n {
                        assert(old(self).name(i) != old(self).name(j));
                    } else if i < n {
                        assert(!(0 <= i < old(self).size() && old(self).name(i) == k@));
                    } else if j < n {
                        assert(!(0 <= j < old(self).size() && old(self).name(j) == k@));
                    }
                }
                assert forall|i: int, kk: int|
                    0 <= i < self.size() && 0 <= kk < self.nbrs(i).len() implies (
                    #[trigger] self.nbrs(i)[kk] as int) < self.size() by {
                    if i < n {
                        assert(self.nbrs(i) == old(self).nbrs(i));
                    }
                }
                assert forall|i: int| 0 <= i < self.size() && !self.is_key(i) implies #[trigger] self.nbrs(
                    i,
                ).len() == 0 by {
                    if i < n {
                        assert(self.nbrs(i) == old(self).nbrs(i));
                        assert(self.is_key(i) == old(self).is_key(i));
                    }
                }
                let ghost c = choose|j: int| 0 <= j < self.size() && self.name(j) == k@;
                assert(c == n as int);
                proof {
                    Self::lemma_extends_grows(*old(self), *self);
                }
                n
            },
        }
    }

    /// `g2` keeps every node of `g1`, with its name, key status and
    /// neighbours, and any node it adds is a non-key node.
    pub open spec fn extends(g1: Graph, g2: Graph) -> bool {
        &&& g1.size() <= g2.size()
        &&& forall|i: int| 0 <= i < g1.size() ==> #[trigger] g2.name(i) == g1.name(i)
        &&& forall|i: int| 0 <= i < g1.size() ==> #[trigger] g2.is_key(i) == g1.is_key(i)
        &&& forall|i: int| 0 <= i < g1.size() ==> #[trigger] g2.nbrs(i) == g1.nbrs(i)
        &&& forall|i: int| g1.size() <= i < g2.size() ==> !#[trigger] g2.is_key(i)
    }

    /// Sets the neighbour list of the node named `key` to `neighbors`,
    /// making it a key. Identifiers not known yet are added as non-key nodes;
    /// the lists of other nodes are not touched.
    pub fn insert(&mut self, key: String, neighbors: Vec<String>)
        requires
            old(self).wf(),
        ensures
            final(self).wf(),
            final(self).index_of(key@) is Some,
            ({
                let k = final(self).index_of(key@)->0;
                &&& final(self).is_key(k)
                &&& final(self).nbrs(k).len() == neighbors@.len()
                &&& forall|j: int|
                    0 <= j < neighbors@.len() ==> #[trigger] final(self).name(final(self).nbrs(k)[j] as int) == neighbors@[j]@
                &&& forall|i: int|
                    0 <= i < old(self).size() && i != k ==> #[trigger] final(self).name(i)
                        == old(self).name(i) && final(self).is_key(i) == old(self).is_key(i)
                        && final(self).nbrs(i) == old(self).nbrs(i)
                &&& forall|i: int|
                    old(self).size() <= i < final(self).size() && i != k ==> !#[trigger] final(self).is_key(i)
            }),
    {
        let k = self.intern(&key);
        let ghost g0 = *self;
        let mut list: Vec<usize> = Vec::new();
        let mut j: usize = 0;
        while j < neighbors.len()
            invariant
                self.wf(),
                Self::extends(g0, *self),
                (k as int) < g0.size(),
                g0.name(k as int) == key@,
                j <= neighbors@.len(),
                list@.len() == j,
                forall|t: int| 0 <= t < j ==> (#[trigger] list@[t] as int) < self.size(),
                forall|t: int| 0 <= t < j ==> #[trigger] self.name(list@[t] as int) == neighbors@[t]@,
            decreases neighbors@.len() - j,
        {
            let x = self.intern(&neighbors[j]);
            list.push(x);
            j = j + 1;
        }
        let ghost g1 = *self;
        self.adj.set(k, list);
        self.keyed.set(k, true);
        assert forall|i: int, kk: int|
            0 <= i < self.size() && 0 <= kk < self.nbrs(i).len() implies (
            #[trigger] self.nbrs(i)[kk] as int) < self.size() by {
            if i != k {
                assert(self.nbrs(i) == g1.nbrs(i));
            }
        }
        assert forall|i: int, jj: int|
            0 <= i < self.size() && 0 <= jj < self.size() && i != jj implies self.name(i) != self.name(
                jj,
            ) by {
            assert(self.name(i) == g1.name(i));
            assert(self.name(jj) == g1.name(jj));
        }
        assert forall|i: int| 0 <= i < self.size() && !self.is_key(i) implies #[trigger] self.nbrs(
            i,
        ).len() == 0 by {
            if i != k {
                assert(self.nbrs(i) == g1.nbrs(i));
                assert(self.is_key(i) == g1.is_key(i));
            }
        }
        assert forall|i: int|
            0 <= i < old(self).size() && i != k implies #[trigger] self.name(i) == old(self).name(i)
                && self.is_key(i) == old(self).is_key(i) && self.nbrs(i) == old(self).nbrs(i) by {
            assert(g1.name(i) == g0.name(i) && g0.name(i) == old(self).name(i));
            assert(g1.is_key(i) == g0.is_key(i) && g0.is_key(i) == old(self).is_key(i));
            assert(g1.nbrs(i) == g0.nbrs(i) && g0.nbrs(i) == old(self).nbrs(i));
        }
        assert forall|i: int| old(self).size() <= i < self.size() && i != k implies !#[trigger] self.is_key(i) by {
            if i < g0.size() {
                assert(!g0.is_key(i));
                assert(g1.is_key(i) == g0.is_key(i));
            } else {
                assert(!g1.is_key(i));
            }
        }
        assert(self.nbrs(k as int) == list@);
        assert forall|t: int| 0 <= t < neighbors@.len() implies #[trigger] self.name(
            self.nbrs(k as int)[t] as int,
        ) == neighbors@[t]@ by {
            assert(g1.name(list@[t] as int) == neighbors@[t]@);
        }
        assert(g1.name(k as int) == g0.name(k as int));
        assert(self.name(k as int) == key@);
        let ghost c = choose|i: int| 0 <= i < self.size() && self.name(i) == key@;
        assert(c == k as int);
        assert(self.index_of(key@) == Some(k as int));
        assert(self.is_key(k as int));
        assert(self.nbrs(k as int).len() == neighbors@.len());
        let ghost kk = self.index_of(key@)->0;
        assert(kk == k as int);
        assert forall|j: int| 0 <= j < neighbors@.len() implies #[trigger] self.name(self.nbrs(kk)[j] as int)
            == neighbors@[j]@ by {}
        assert forall|i: int|
            0 <= i < old(self).size() && i != kk implies #[trigger] self.name(i) == old(self).name(i) && self.is_key(i)
                == old(self).is_key(i) && self.nbrs(i) == old(self).nbrs(i) by {}
        assert forall|i: int| old(self).size() <= i < self.size() && i != kk implies !#[trigger] self.is_key(i) by {}
    }

    /// Makes node `a` a key (it may already be one).
    fn make_key(&mut self, a: usize)
        requires
            old(self).wf(),
            (a as int) < old(self).size(),
        ensures
            final(self).wf(),
            final(self).size() == old(self).size(),
            final(self).is_key(a as int),
            forall|i: int| 0 <= i < old(self).size() ==> #[trigger] final(self).name(i) == old(self).name(i),
            forall|i: int| 0 <= i < old(self).size() ==> #[trigger] final(self).nbrs(i) == old(self).nbrs(i),
            forall|i: int| 0 <= i < old(self).size() && i != a ==> #[trigger] final(self).is_key(i) == old(self).is_key(i),
            Self::grows(*old(self), *final(self)),
    {
        self.keyed.set(a, true);
        assert forall|i: int, k: int|
            0 <= i < self.size() && 0 <= k < self.nbrs(i).len() implies (#[trigger] self.nbrs(i)[k] as int)
                < self.size() by {
            assert(self.nbrs(i) == old(self).nbrs(i));
        }
        assert forall|i: int| 0 <= i < self.size() && !self.is_key(i) implies #[trigger] self.nbrs(i).len() == 0 by {
            assert(self.nbrs(i) == old(self).nbrs(i));
            assert(self.is_key(i) == old(self).is_key(i));
        }
        assert forall|i: int, j: int|
            0 <= i < self.size() && 0 <= j < self.size() && i != j implies self.name(i) != self.name(j) by {
            assert(self.name(i) == old(self).name(i));
            assert(self.name(j) == old(self).name(j));
        }
        assert forall|i: int| 0 <= i < old(self).size() implies old(self).nbrs(i).is_prefix_of(
            #[trigger] self.nbrs(i),
        ) by {
            assert(self.nbrs(i) == old(self).nbrs(i));
            assert(old(self).nbrs(i) =~= self.nbrs(i).subrange(0, old(self).nbrs(i).len() as int));
        }
    }

    /// Appends `b` to the neighbour list of key `a`.
    fn push_neighbor(&mut self, a: usize, b: usize)
        requires
            old(self).wf(),
            (a as int) < old(self).size(),
            (b as int) < old(self).size(),
            old(self).is_key(a as int),
        ensures
            final(self).wf(),
            final(self).size() == old(self).size(),
            final(self).nbrs(a as int) == old(self).nbrs(a as int).push(b),
            forall|i: int| 0 <= i < old(self).size() ==> #[trigger] final(self).name(i) == old(self).name(i),
            forall|i: int| 0 <= i < old(self).size() ==> #[trigger] final(self).is_key(i) == old(self).is_key(i),
            forall|i: int| 0 <= i < old(self).size() && i != a ==> #[trigger] final(self).nbrs(i) == old(self).nbrs(i),
            Self::grows(*old(self), *final(self)),
    {
        let mut list: Vec<usize> = Vec::new();
        self.adj.set_and_swap(a, &mut list);
        list.push(b);
        self.adj.set(a, list);
        assert forall|i: int, k: int|
            0 <= i < self.size() && 0 <= k < self.nbrs(i).len() implies (#[trigger] self.nbrs(i)[k] as int)
                < self.size() by {
            if i != a {
                assert(self.nbrs(i) == old(self).nbrs(i));
            } else if k < old(self).nbrs(i).len() {
                assert(self.nbrs(i)[k] == old(self).nbrs(i)[k]);
            }
        }
        assert forall|i: int| 0 <= i < self.size() && !self.is_key(i) implies #[trigger] self.nbrs(i).len() == 0 by {
            if i != a {
                assert(self.nbrs(i) == old(self).nbrs(i));
            }
        }
        assert forall|i: int, j: int|
            0 <= i < self.size() && 0 <= j < self.size() && i != j implies self.name(i) != self.name(j) by {
            assert(self.name(i) == old(self).name(i));
            assert(self.name(j) == old(self).name(j));
        }
        assert forall|i: int| 0 <= i < old(self).size() implies old(self).nbrs(i).is_prefix_of(
            #[trigger] self.nbrs(i),
        ) by {
            if i != a {
                assert(self.nbrs(i) == old(self).nbrs(i));
            }
            assert(old(self).nbrs(i) =~= self.nbrs(i).subrange(0, old(self).nbrs(i).len() as int));
        }
    }

    /// The neighbour list of node `i`, as identifiers.
    pub open spec fn nbr_names(&self, i: int) -> Seq<Seq<char>> {
        Seq::new(self.nbrs(i).len(), |k: int| self.name(self.nbrs(i)[k] as int))
    }

    /// Records one input row: the entity `id` and the identifiers it lists
    /// as connections. `id` becomes a key; so does every non-empty
    /// identifier in `friends`, and each such connection is stored once in
    /// each direction per occurrence (repeated edges are kept). Empty
    /// identifiers are skipped. Exactly: every list grows by
    /// `row_appends(id, friends, friends.len(), its name)`, the keys are the old
    /// keys and the row's names, and every node added is one of the row's names.
    pub fn add_row(&mut self, id: &String, friends: &Vec<String>)
        requires
            old(self).wf(),
        ensures
            final(self).wf(),
            Self::grows(*old(self), *final(self)),
            forall|x: Seq<char>|
                row_names(id@, friends@, friends@.len() as int, x) ==> (#[trigger] final(self).index_of(x)) is Some,
            forall|i: int|
                0 <= i < final(self).size() ==> #[trigger] final(self).nbr_names(i) == (if i < old(self).size() {
                    old(self).nbr_names(i)
                } else {
                    Seq::empty()
                }) + row_appends(id@, friends@, friends@.len() as int, final(self).name(i)),
            forall|i: int|
                0 <= i < final(self).size() ==> (#[trigger] final(self).is_key(i) <==> (i < old(self).size()
                    && old(self).is_key(i)) || row_names(id@, friends@, friends@.len() as int, final(self).name(i))),
            forall|i: int|
                old(self).size() <= i < final(self).size() ==> row_names(
                    id@,
                    friends@,
                    friends@.len() as int,
                    #[trigger] final(self).name(i),
                ),
    {
        let a = self.intern(id);
        let ghost gi = *self;
        self.make_key(a);
        proof {
            Self::lemma_grows_trans(*old(self), gi, *self);
            assert(gi.name(a as int) == id@);
            assert(self.name(a as int) == id@);
            let c = choose|i: int| 0 <= i < self.size() && self.name(i) == id@;
            assert(c == a as int);
            assert forall|i: int| 0 <= i < self.size() implies #[trigger] self.nbr_names(i) == (if i < old(self).size() {
                old(self).nbr_names(i)
            } else {
                Seq::empty()
            }) + row_appends(id@, friends@, 0, self.name(i)) by {
                assert(self.nbrs(i) == gi.nbrs(i));
                if i < old(self).size() {
                    Self::lemma_nbr_names_same(*old(self), *self, i);
                }
                assert(self.nbr_names(i) =~= (if i < old(self).size() {
                    old(self).nbr_names(i)
                } else {
                    Seq::empty()
                }) + row_appends(id@, friends@, 0, self.name(i)));
            }
            assert forall|i: int| 0 <= i < self.size() implies (#[trigger] self.is_key(i) <==> (i < old(self).size()
                && old(self).is_key(i)) || row_names(id@, friends@, 0, self.name(i))) by {
                if i != a {
                    assert(self.is_key(i) == gi.is_key(i));
                }
            }
            assert forall|i: int| old(self).size() <= i < self.size() implies row_names(
                id@,
                friends@,
                0,
                #[trigger] self.name(i),
            ) by {
                assert(i == a);
            }
        }
        let mut j: usize = 0;
        while j < friends.len()
            invariant
                self.wf(),
                Self::grows(*old(self), *self),
                (a as int) < self.size(),
                self.name(a as int) == id@,
                self.index_of(id@) == Some(a as int),
                j <= friends@.len(),
                forall|x: Seq<char>|
                    row_names(id@, friends@, j as int, x) ==> (#[trigger] self.index_of(x)) is Some,
                forall|i: int|
                    0 <= i < self.size() ==> #[trigger] self.nbr_names(i) == (if i < old(self).size() {
                        old(self).nbr_names(i)
                    } else {
                        Seq::empty()
                    }) + row_appends(id@, friends@, j as int, self.name(i)),
                forall|i: int|
                    0 <= i < self.size() ==> (#[trigger] self.is_key(i) <==> (i < old(self).size()
                        && old(self).is_key(i)) || row_names(id@, friends@, j as int, self.name(i))),
                forall|i: int|
                    old(self).size() <= i < self.size() ==> row_names(
                        id@,
                        friends@,
                        j as int,
                        #[trigger] self.name(i),
                    ),
            decreases friends@.len() - j,
        {
            let ghost g1 = *self;
            let ghost fj = friends@[j as int]@;
            if !friends[j].as_str().is_empty() {
                let b = self.intern(&friends[j]);
                let ghost ga = *self;
                self.make_key(b);
                let ghost gb = *self;
                self.push_neighbor(b, a);
                let ghost gc = *self;
                self.push_neighbor(a, b);
                proof {
                    Self::lemma_grows_trans(g1, ga, gb);
                    Self::lemma_grows_trans(g1, gb, gc);
                    Self::lemma_grows_trans(g1, gc, *self);
                    Self::lemma_grows_trans(*old(self), g1, *self);
                    Self::lemma_grows_keeps(g1, *self, id@, a as int, 0);
                    Self::lemma_grows_keeps(ga, *self, fj, b as int, 0);
                    assert(self.name(b as int) == fj);
                    assert(self.name(a as int) == id@);
                    // the step adds one node at most, and only when `fj` was unknown
                    assert forall|x: Seq<char>|
                        row_names(id@, friends@, j + 1, x) implies (#[trigger] self.index_of(x)) is Some by {
                        if x != fj && row_names(id@, friends@, j as int, x) {
                            Self::lemma_grows_keeps(g1, *self, x, a as int, 0);
                        } else if x != fj {
                            let t = choose|t: int| 0 <= t < j + 1 && friends@[t]@.len() > 0 && #[trigger] friends@[t]@ == x;
                            assert(t < j);
                        }
                    }
                    assert forall|i: int| 0 <= i < self.size() implies #[trigger] self.nbr_names(i) == (if i < old(self).size() {
                        old(self).nbr_names(i)
                    } else {
                        Seq::empty()
                    }) + row_appends(id@, friends@, j + 1, self.name(i)) by {
                        let base = if i < old(self).size() {
                            old(self).nbr_names(i)
                        } else {
                            Seq::<Seq<char>>::empty()
                        };
                        let x = self.name(i);
                        if i < g1.size() {
                            assert(g1.name(i) == x);
                            assert(g1.nbr_names(i) == base + row_appends(id@, friends@, j as int, x));
                            Self::lemma_nbr_names_same(g1, ga, i);
                            Self::lemma_nbr_names_same(g1, gb, i);
                        } else {
                            assert(ga.size() == g1.size() + 1);
                            assert(i == b);
                            assert(g1.index_of(fj) is None);
                            if row_names(id@, friends@, j as int, x) {
                                assert(g1.index_of(x) is Some);
                            }
                            lemma_row_appends_absent(id@, friends@, j as int, x);
                            assert(i >= old(self).size());
                            assert(gb.nbrs(i) == ga.nbrs(i));
                            assert(gb.nbr_names(i) =~= Seq::empty());
                        }
                        assert(gb.nbr_names(i) == base + row_appends(id@, friends@, j as int, x));
                        let p1 = if x == fj { row_appends(id@, friends@, j as int, x).push(id@) } else { row_appends(id@, friends@, j as int, x) };
                        if i == b {
                            Self::lemma_nbr_names_push(gb, gc, i, a);
                        } else {
                            Self::lemma_nbr_names_same(gb, gc, i);
                            assert(x != fj);
                        }
                        assert(gc.nbr_names(i) =~= base + p1);
                        if i == a {
                            Self::lemma_nbr_names_push(gc, *self, i, b);
                        } else {
                            Self::lemma_nbr_names_same(gc, *self, i);
                            assert(x != id@);
                        }
                        assert(self.nbr_names(i) =~= base + row_appends(id@, friends@, j + 1, x));
                    }
                    assert forall|i: int| 0 <= i < self.size() implies (#[trigger] self.is_key(i) <==> (i < old(self).size()
                        && old(self).is_key(i)) || row_names(id@, friends@, j + 1, self.name(i))) by {
                        let x = self.name(i);
                        if i < g1.size() {
                            assert(g1.name(i) == x);
                            assert(g1.is_key(i) <==> (i < old(self).size() && old(self).is_key(i))
                                || row_names(id@, friends@, j as int, x));
                            assert(ga.is_key(i) == g1.is_key(i));
                        }
                        if i != b {
                            assert(gb.is_key(i) == ga.is_key(i));
                            assert(x != fj);
                        }
                        assert(self.is_key(i) == gb.is_key(i));
                        if row_names(id@, friends@, j + 1, x) && x != fj && x != id@ {
                            let t = choose|t: int| 0 <= t < j + 1 && friends@[t]@.len() > 0 && #[trigger] friends@[t]@ == x;
                            assert(row_names(id@, friends@, j as int, x));
                        }
                        if i >= g1.size() {
                            assert(i == b);
                        }
                    }
                    assert forall|i: int| old(self).size() <= i < self.size() implies row_names(
                        id@,
                        friends@,
                        j + 1,
                        #[trigger] self.name(i),
                    ) by {
                        let x = self.name(i);
                        if i < g1.size() {
                            assert(g1.name(i) == x);
                            assert(row_names(id@, friends@, j as int, x));
                            if x != id@ {
                                let t = choose|t: int| 0 <= t < j && friends@[t]@.len() > 0 && #[trigger] friends@[t]@ == x;
                            }
                        } else {
                            assert(i == b);
                            assert(friends@[j as int]@ == x);
                        }
                    }
                }
            } else {
                proof {
                    assert forall|x: Seq<char>| row_names(id@, friends@, j + 1, x) implies (#[trigger] self.index_of(x)) is Some by {
                        if x != id@ {
                            let t = choose|t: int| 0 <= t < j + 1 && friends@[t]@.len() > 0 && #[trigger] friends@[t]@ == x;
                            assert(t < j);
                        }
                    }
                    assert forall|x: Seq<char>| row_names(id@, friends@, j + 1, x) == row_names(id@, friends@, j as int, x) by {
                        if row_names(id@, friends@, j + 1, x) && x != id@ {
                            let t = choose|t: int| 0 <= t < j + 1 && friends@[t]@.len() > 0 && #[trigger] friends@[t]@ == x;
                            assert(t < j);
                        }
                    }
                    assert forall|x: Seq<char>| row_appends(id@, friends@, j + 1, x) == row_appends(id@, friends@, j as int, x) by {}
                }
            }
            j = j + 1;
        }
    }

    proof fn lemma_nbr_names_same(g1: Graph, g2: Graph, i: int)
        requires
            g1.wf(),
            0 <= i < g1.size(),
            g2.nbrs(i) == g1.nbrs(i),
            Self::grows(g1, g2),
        ensures
            g2.nbr_names(i) == g1.nbr_names(i),
    {
        assert forall|k: int| 0 <= k < g1.nbrs(i).len() implies g2.name(g1.nbrs(i)[k] as int) == g1.name(g1.nbrs(i)[k] as int) by {
            assert((g1.nbrs(i)[k] as int) < g1.size());
        }
        assert(g2.nbr_names(i) =~= g1.nbr_names(i));
    }

    proof fn lemma_nbr_names_push(g1: Graph, g2: Graph, i: int, y: usize)
        requires
            g1.wf(),
            0 <= i < g1.size(),
            (y as int) < g1.size(),
            g2.nbrs(i) == g1.nbrs(i).push(y),
            Self::grows(g1, g2),
        ensures
            g2.nbr_names(i) == g1.nbr_names(i).push(g1.name(y as int)),
    {
        assert forall|k: int| 0 <= k < g1.nbrs(i).len() implies g2.name(g1.nbrs(i)[k] as int) == g1.name(g1.nbrs(i)[k] as int) by {
            assert((g1.nbrs(i)[k] as int) < g1.size());
        }
        assert(g2.name(y as int) == g1.name(y as int));
        assert(g2.nbr_names(i) =~= g1.nbr_names(i).push(g1.name(y as int)));
    }

    proof fn lemma_extends_grows(g1: Graph, g2: Graph)
        requires
            Self::extends(g1, g2) || g1 == g2,
        ensures
            Self::grows(g1, g2),
    {
        assert forall|i: int| 0 <= i < g1.size() implies g1.nbrs(i).is_prefix_of(#[trigger] g2.nbrs(i)) by {
            assert(g1.nbrs(i) =~= g2.nbrs(i).subrange(0, g1.nbrs(i).len() as int));
        }
    }

    proof fn lemma_grows_trans(g1: Graph, g2: Graph, g3: Graph)
        requires
            Self::grows(g1, g2),
            Self::grows(g2, g3),
        ensures
            Self::grows(g1, g3),
    {
        assert forall|i: int| 0 <= i < g1.size() implies g1.nbrs(i).is_prefix_of(#[trigger] g3.nbrs(i)) by {
            assert(g1.nbrs(i).is_prefix_of(g2.nbrs(i)));
            assert(g2.nbrs(i).is_prefix_of(g3.nbrs(i)));
            assert(g1.nbrs(i) =~= g3.nbrs(i).subrange(0, g1.nbrs(i).len() as int)) by {
                assert forall|t: int| 0 <= t < g1.nbrs(i).len() implies g1.nbrs(i)[t] == g3.nbrs(i)[t] by {
                    assert(g1.nbrs(i)[t] == g2.nbrs(i).subrange(0, g1.nbrs(i).len() as int)[t]);
                    assert(g2.nbrs(i)[t] == g3.nbrs(i).subrange(0, g2.nbrs(i).len() as int)[t]);
                }
            }
        }
    }

    /// Growth keeps lookups by name, key status and recorded edges.
    proof fn lemma_grows_keeps(g1: Graph, g2: Graph, k: Seq<char>, x: int, y: usize)
        requires
            g1.wf(),
            g2.wf(),
            Self::grows(g1, g2),
            0 <= x < g1.size(),
        ensures
            g1.index_of(k) is Some ==> g2.index_of(k) == g1.index_of(k),
            g1.is_key(x) ==> g2.is_key(x),
            g1.nbrs(x).contains(y) ==> g2.nbrs(x).contains(y),
    {
        if g1.index_of(k) is Some {
            let i = g1.index_of(k)->0;
            assert(g2.name(i) == k);
            let c = choose|j: int| 0 <= j < g2.size() && g2.name(j) == k;
            assert(c == i);
        }
        if g1.nbrs(x).contains(y) {
            let t = choose|t: int| 0 <= t < g1.nbrs(x).len() && g1.nbrs(x)[t] == y;
            assert(g1.nbrs(x).is_prefix_of(g2.nbrs(x)));
            assert(g2.nbrs(x).subrange(0, g1.nbrs(x).len() as int)[t] == g2.nbrs(x)[t]);
            assert(g2.nbrs(x)[t] == y);
        }
    }

    /// `g2` keeps every node of `g1` under the same name, with its key status
    /// kept or gained and its neighbour list kept as a prefix.
    pub open spec fn grows(g1: Graph, g2: Graph) -> bool {
        &&& g1.size() <= g2.size()
        &&& forall|i: int| 0 <= i < g1.size() ==> #[trigger] g2.name(i) == g1.name(i)
        &&& forall|i: int| 0 <= i < g1.size() && g1.is_key(i) ==> #[trigger] g2.is_key(i)
        &&& forall|i: int| 0 <= i < g1.size() ==> g1.nbrs(i).is_prefix_of(#[trigger] g2.nbrs(i))
    }

    /// Number of keys, the node count of the graph.
    pub fn len(&self) -> (r: usize)
        requires
            self.wf(),
        ensures
            r == self.key_count(),
    {
        let mut c: usize = 0;
        let mut i: usize = 0;
        while i < self.keyed.len()
            invariant
                self.wf(),
                i <= self.size(),
                c == self.keys_below(i as int),
                c <= i,
            decreases self.size() - i,
        {
            if self.keyed[i] {
                c = c + 1;
            }
            i = i + 1;
        }
        c
    }
}

/// The identifiers that the first `n` connections of row `id` bring in:
/// `id` itself and every non-empty connection among them.
pub open spec fn row_names(id: Seq<char>, friends: Seq<String>, n: int, x: Seq<char>) -> bool {
    x == id || exists|t: int| 0 <= t < n && friends[t]@.len() > 0 && #[trigger] friends[t]@ == x
}

/// What the first `n` connections of row `id` append, in order, to the list
/// of the node named `x`: for each non-empty connection `b`, `id` when `x`
/// is `b`, then `b` when `x` is `id`.
pub open spec fn row_appends(id: Seq<char>, friends: Seq<String>, n: int, x: Seq<char>) -> Seq<Seq<char>>
    decreases n,
{
    if n <= 0 {
        Seq::empty()
    } else {
        let prev = row_appends(id, friends, n - 1, x);
        let b = friends[n - 1]@;
        if b.len() == 0 {
            prev
        } else {
            let p1 = if x == b {
                prev.push(id)
            } else {
                prev
            };
            if x == id {
                p1.push(b)
            } else {
                p1
            }
        }
    }
}

proof fn lemma_row_appends_absent(id: Seq<char>, friends: Seq<String>, n: int, x: Seq<char>)
    requires
        !row_names(id, friends, n, x),
    ensures
        row_appends(id, friends, n, x) == Seq::<Seq<char>>::empty(),
    decreases n,
{
    if n > 0 {
        assert(!row_names(id, friends, n - 1, x));
        lemma_row_appends_absent(id, friends, n - 1, x);
    }
}

/// `d` assigns each node of `g` its hop distance from `s`, or `None` when the
/// node cannot be reached: `s` is at distance 0, every other reached node is
/// one hop past some reached neighbour, and no edge out of a reached node
/// skips a level. Together these pin `d` down to the shortest hop counts.
pub open spec fn is_hop_distance(g: Graph, s: int, d: Seq<Option<usize>>) -> bool {
    &&& d.len() == g.size()
    &&& d[s] == Some(0usize)
    &&& forall|v: int|
        0 <= v < g.size() && #[trigger] d[v] is Some && v != s ==> d[v]->0 > 0 && exists|u: int|
            0 <= u < g.size() && d[u] is Some && d[u]->0 + 1 == d[v]->0 && g.nbrs(u).contains(
                v as usize,
            )
    &&& forall|u: int, k: int|
        0 <= u < g.size() && d[u] is Some && 0 <= k < g.nbrs(u).len() ==> d[#[trigger] g.nbrs(
            u,
        )[k] as int] is Some && d[g.nbrs(u)[k] as int]->0 <= d[u]->0 + 1
}

/// Number of `None` entries among the first `n` of `d`.
pub open spec fn unassigned(d: Seq<Option<usize>>, n: int) -> nat
    decreases n,
{
    if n <= 0 {
        0
    } else {
        unassigned(d, n - 1) + if d[n - 1] is None {
            1nat
        } else {
            0nat
        }
    }
}

proof fn lemma_unassigned_update(d: Seq<Option<usize>>, i: int, x: Option<usize>, n: int)
    requires
        0 <= i < d.len(),
        0 <= n <= d.len(),
        d[i] is None,
        x is Some,
    ensures
        unassigned(d.update(i, x), n) + (if i < n {
            1nat
        } else {
            0nat
        }) == unassigned(d, n),
    decreases n,
{
    if n > 0 {
        lemma_unassigned_update(d, i, x, n - 1);
    }
}

proof fn lemma_unassigned_all(d: Seq<Option<usize>>, n: int)
    requires
        0 <= n <= d.len(),
        forall|t: int| 0 <= t < d.len() ==> d[t] is None,
    ensures
        unassigned(d, n) == n,
    decreases n,
{
    if n > 0 {
        lemma_unassigned_all(d, n - 1);
    }
}

proof fn lemma_hop_bound(g: Graph, s: int, d1: Seq<Option<usize>>, d2: Seq<Option<usize>>, k: nat)
    requires
        g.wf(),
        0 <= s < g.size(),
        is_hop_distance(g, s, d1),
        is_hop_distance(g, s, d2),
    ensures
        forall|v: int|
            0 <= v < g.size() && #[trigger] d2[v] is Some && d2[v]->0 == k ==> d1[v] is Some && d1[v]->0 <= k,
    decreases k,
{
    assert forall|v: int|
        0 <= v < g.size() && #[trigger] d2[v] is Some && d2[v]->0 == k implies d1[v] is Some && d1[v]->0 <= k by {
        if v != s {
            let u = choose|u: int|
                0 <= u < g.size() && d2[u] is Some && d2[u]->0 + 1 == d2[v]->0 && g.nbrs(u).contains(v as usize);
            lemma_hop_bound(g, s, d1, d2, (k - 1) as nat);
            assert(d2[u] is Some);
            let kk = choose|kk: int| 0 <= kk < g.nbrs(u).len() && g.nbrs(u)[kk] == v as usize;
            assert(g.nbrs(u)[kk] as int == v);
        }
    }
}

/// Hop distances are unique: two searches from the same node agree on every
/// node, so the result does not depend on the order in which neighbours are
/// visited.
pub proof fn lemma_hop_distance_unique(g: Graph, s: int, d1: Seq<Option<usize>>, d2: Seq<Option<usize>>)
    requires
        g.wf(),
        0 <= s < g.size(),
        is_hop_distance(g, s, d1),
        is_hop_distance(g, s, d2),
    ensures
        d1 == d2,
{
    assert forall|v: int| 0 <= v < d1.len() implies d1[v] == d2[v] by {
        if d2[v] is Some {
            lemma_hop_bound(g, s, d1, d2, d2[v]->0 as nat);
        }
        if d1[v] is Some {
            lemma_hop_bound(g, s, d2, d1, d1[v]->0 as nat);
        }
    }
    assert(d1 =~= d2);
}

/// The hop distances from node `s`.
pub open spec fn hop_distance(g: Graph, s: int) -> Seq<Option<usize>> {
    choose|d: Seq<Option<usize>>| is_hop_distance(g, s, d)
}

/// Breadth-first search from node `s`: the hop distance of every node, or
/// `None` where `s` cannot reach it.
#[verifier::rlimit(50)]
pub fn bfs_from(g: &Graph, s: usize) -> (d: Vec<Option<usize>>)
    requires
        g.wf(),
        (s as int) < g.size(),
    ensures
        is_hop_distance(*g, s as int, d@),
        d@ == hop_distance(*g, s as int),
{
    let n = g.node_total();
    let mut dist: Vec<Option<usize>> = Vec::new();
    let mut i: usize = 0;
    while i < n
        invariant
            i <= n,
            dist@.len() == i,
            forall|t: int| 0 <= t < i ==> dist@[t] is None,
        decreases n - i,
    {
        dist.push(None);
        i = i + 1;
    }
    proof {
        lemma_unassigned_all(dist@, n as int);
        lemma_unassigned_update(dist@, s as int, Some(0usize), n as int);
    }
    dist.set(s, Some(0));
    let mut q: Vec<usize> = Vec::new();
    q.push(s);
    // where each reached node sits in the queue, and the node it was reached from
    let ghost mut pos: Seq<int> = Seq::new(n as nat, |v: int| 0int);
    let ghost mut par: Seq<int> = Seq::new(n as nat, |v: int| 0int);
    let mut h: usize = 0;
    assert(q@[0] == s);
    while h < q.len()
        invariant
            g.wf(),
            n == g.size(),
            (s as int) < n,
            dist@.len() == n,
            pos.len() == n,
            par.len() == n,
            dist@[s as int] == Some(0usize),
            q@.len() >= 1,
            h <= q@.len(),
            q@.len() + unassigned(dist@, n as int) == n,
            forall|t: int|
                0 <= t < q@.len() ==> (#[trigger] q@[t] as int) < n && dist@[q@[t] as int] is Some
                    && dist@[q@[t] as int]->0 <= t,
            forall|v: int|
                0 <= v < n && dist@[v] is Some ==> 0 <= #[trigger] pos[v] < q@.len() && q@[pos[v]] == v,
            forall|t1: int, t2: int|
                0 <= t1 <= t2 < q@.len() ==> dist@[#[trigger] q@[t1] as int]->0 <= dist@[#[trigger] q@[t2] as int]->0,
            h < q@.len() ==> forall|t: int|
                0 <= t < q@.len() ==> dist@[#[trigger] q@[t] as int]->0 <= dist@[q@[h as int] as int]->0 + 1,
            forall|t: int, k: int|
                0 <= t < h && 0 <= k < g.nbrs(q@[t] as int).len() ==> dist@[#[trigger] g.nbrs(q@[t] as int)[k] as int] is Some
                    && dist@[g.nbrs(q@[t] as int)[k] as int]->0 <= dist@[q@[t] as int]->0 + 1,
            forall|v: int|
                0 <= v < n && dist@[v] is Some && v != s ==> dist@[v]->0 > 0 && 0 <= #[trigger] par[v] < n
                    && dist@[par[v]] is Some && dist@[par[v]]->0 + 1 == dist@[v]->0
                    && g.nbrs(par[v]).contains(v as usize),
        decreases n - h,
    {
        let u = q[h];
        let du: usize = match dist[u] {
            Some(x) => x,
            None => 0,
        };
        let nb = g.neighbors(u);
        let ghost q0 = q@;
        let mut k: usize = 0;
        while k < nb.len()
            invariant
                g.wf(),
                n == g.size(),
                (s as int) < n,
                (u as int) < n,
                nb@ == g.nbrs(u as int),
                h < q0.len(),
                q0[h as int] == u,
                dist@.len() == n,
                pos.len() == n,
                par.len() == n,
                dist@[s as int] == Some(0usize),
                dist@[u as int] == Some(du),
                du <= h,
                q@.len() >= q0.len(),
                forall|t: int| 0 <= t < q0.len() ==> #[trigger] q@[t] == q0[t],
                q@.len() + unassigned(dist@, n as int) == n,
                forall|t: int|
                    0 <= t < q@.len() ==> (#[trigger] q@[t] as int) < n && dist@[q@[t] as int] is Some
                        && dist@[q@[t] as int]->0 <= t,
                forall|v: int|
                    0 <= v < n && dist@[v] is Some ==> 0 <= #[trigger] pos[v] < q@.len() && q@[pos[v]] == v,
                forall|t1: int, t2: int|
                    0 <= t1 <= t2 < q@.len() ==> dist@[#[trigger] q@[t1] as int]->0 <= dist@[#[trigger] q@[t2] as int]->0,
                forall|t: int| 0 <= t < q@.len() ==> dist@[#[trigger] q@[t] as int]->0 <= du + 1,
                forall|t: int, kk: int|
                    0 <= t < h && 0 <= kk < g.nbrs(q@[t] as int).len() ==> dist@[#[trigger] g.nbrs(q@[t] as int)[kk] as int] is Some
                        && dist@[g.nbrs(q@[t] as int)[kk] as int]->0 <= dist@[q@[t] as int]->0 + 1,
                forall|kk: int|
                    0 <= kk < k ==> dist@[#[trigger] nb@[kk] as int] is Some && dist@[nb@[kk] as int]->0 <= du + 1,
                forall|v: int|
                    0 <= v < n && dist@[v] is Some && v != s ==> dist@[v]->0 > 0 && 0 <= #[trigger] par[v] < n
                        && dist@[par[v]] is Some && dist@[par[v]]->0 + 1 == dist@[v]->0
                        && g.nbrs(par[v]).contains(v as usize),
                k <= nb@.len(),
            decreases nb@.len() - k,
        {
            let v = nb[k];
            assert(g.nbrs(u as int)[k as int] == v);
            match dist[v] {
                Some(_) => {
                    assert(dist@[q@[pos[v as int]] as int] == dist@[v as int]);
                },
                None => {
                    let ghost dprev = dist@;
                    let ghost qprev = q@;
                    proof {
                        lemma_unassigned_update(dist@, v as int, Some((du + 1) as usize), n as int);
                    }
                    dist.set(v, Some(du + 1));
                    q.push(v);
                    proof {
                        pos = pos.update(v as int, qprev.len() as int);
                        par = par.update(v as int, u as int);
                    }
                    assert(q@[qprev.len() as int] == v);
                    assert(g.nbrs(u as int).contains(v));
                    assert forall|t: int| 0 <= t < q@.len() implies (#[trigger] q@[t] as int) < n
                        && dist@[q@[t] as int] is Some && dist@[q@[t] as int]->0 <= t by {
                        if t < qprev.len() {
                            assert(q@[t] == qprev[t]);
                        }
                    }
                    assert forall|t1: int, t2: int|
                        0 <= t1 <= t2 < q@.len() implies dist@[#[trigger] q@[t1] as int]->0 <= dist@[#[trigger] q@[t2] as int]->0 by {
                        if t2 < qprev.len() {
                            assert(q@[t1] == qprev[t1]);
                            assert(q@[t2] == qprev[t2]);
                        } else if t1 < qprev.len() {
                            assert(q@[t1] == qprev[t1]);
                        }
                    }
                    assert forall|v2: int|
                        0 <= v2 < n && dist@[v2] is Some implies 0 <= #[trigger] pos[v2] < q@.len() && q@[pos[v2]] == v2 by {
                        if v2 != v as int {
                            assert(dprev[v2] is Some);
                        }
                    }
                },
            }
            k = k + 1;
        }
        assert forall|t: int, kk: int|
            0 <= t < h + 1 && 0 <= kk < g.nbrs(q@[t] as int).len() implies dist@[#[trigger] g.nbrs(q@[t] as int)[kk] as int] is Some
                && dist@[g.nbrs(q@[t] as int)[kk] as int]->0 <= dist@[q@[t] as int]->0 + 1 by {
            if t == h {
                assert(q@[t] == q0[t]);
                assert(g.nbrs(q@[t] as int)[kk] == nb@[kk]);
            }
        }
        h = h + 1;
        if h < q.len() {
            assert forall|t: int| 0 <= t < q@.len() implies dist@[#[trigger] q@[t] as int]->0 <= dist@[q@[h as int] as int]->0 + 1 by {
                assert(dist@[q@[(h - 1) as int] as int]->0 <= dist@[q@[h as int] as int]->0);
                assert(q@[(h - 1) as int] == q0[(h - 1) as int]);
            }
        }
    }
    assert forall|uu: int, kk: int|
        0 <= uu < g.size() && dist@[uu] is Some && 0 <= kk < g.nbrs(uu).len() implies dist@[#[trigger] g.nbrs(uu)[kk] as int] is Some
            && dist@[g.nbrs(uu)[kk] as int]->0 <= dist@[uu]->0 + 1 by {
        let t = pos[uu];
        assert(q@[t] == uu);
        assert(g.nbrs(q@[t] as int)[kk] == g.nbrs(uu)[kk]);
    }
    assert forall|v: int|
        0 <= v < g.size() && #[trigger] dist@[v] is Some && v != s implies dist@[v]->0 > 0 && exists|w: int|
            0 <= w < g.size() && dist@[w] is Some && dist@[w]->0 + 1 == dist@[v]->0 && g.nbrs(w).contains(
                v as usize,
            ) by {
        let w = par[v];
    }
    proof {
        assert(is_hop_distance(*g, s as int, dist@));
        lemma_hop_distance_unique(*g, s as int, dist@, hop_distance(*g, s as int));
    }
    dist
}

/// Hop distances from one start node, looked up by node identifier.
pub struct DistanceMap {
    names: Vec<String>,
    dist: Vec<Option<usize>>,
}

impl DistanceMap {
    /// The identifiers covered, one per entry.
    pub closed spec fn names_view(&self) -> Seq<Seq<char>> {
        Seq::new(self.names@.len(), |i: int| self.names@[i]@)
    }

    /// The distance held for each entry.
    pub closed spec fn dists(&self) -> Seq<Option<usize>> {
        self.dist@
    }

    /// One distance per identifier, and identifiers are distinct.
    pub open spec fn wf(&self) -> bool {
        &&& self.dists().len() == self.names_view().len()
        &&& forall|i: int, j: int|
            0 <= i < self.names_view().len() && 0 <= j < self.names_view().len() && i != j
                ==> self.names_view()[i] != self.names_view()[j]
    }

    /// The distance recorded for identifier `k`; `None` when `k` was not
    /// reached or is unknown.
    pub open spec fn lookup(&self, k: Seq<char>) -> Option<usize> {
        if exists|i: int| 0 <= i < self.names_view().len() && self.names_view()[i] == k {
            self.dists()[choose|i: int| 0 <= i < self.names_view().len() && self.names_view()[i] == k]
        } else {
            None
        }
    }

    /// The distance of the node named `k`, if it was reached.
    pub fn get(&self, k: &str) -> (r: Option<usize>)
        requires
            self.wf(),
        ensures
            r == self.lookup(k@),
    {
        let key = k.to_owned();
        let mut i: usize = 0;
        while i < self.names.len()
            invariant
                self.wf(),
                key@ == k@,
                i <= self.names@.len(),
                forall|j: int| 0 <= j < i ==> self.names_view()[j] != k@,
            decreases self.names@.len() - i,
        {
            if self.names[i] == key {
                assert(self.names_view()[i as int] == k@);
                let ghost c = choose|j: int| 0 <= j < self.names_view().len() && self.names_view()[j] == k@;
                assert(c == i as int);
                return self.dist[i];
            }
            i = i + 1;
        }
        None
    }
}

/// Breadth-first search from the node named `start`. When `start` is not a
/// node of `graph`, the result maps `start` alone to 0.
pub fn bfs(graph: &Graph, start: &str) -> (r: DistanceMap)
    requires
        graph.wf(),
    ensures
        r.wf(),
        r.lookup(start@) == Some(0usize),
        match graph.index_of(start@) {
            Some(s) => {
                &&& is_hop_distance(*graph, s, r.dists())
                &&& forall|k: Seq<char>| #[trigger] r.lookup(k) == match graph.index_of(k) {
                    Some(i) => r.dists()[i],
                    None => None,
                }
            },
            None => forall|k: Seq<char>| #[trigger] r.lookup(k) == if k == start@ {
                Some(0usize)
            } else {
                None
            },
        },
{
    let key = start.to_owned();
    match graph.find(&key) {
        Some(s) => {
            let dist = bfs_from(graph, s);
            let mut names: Vec<String> = Vec::new();
            let n = graph.node_total();
            let mut i: usize = 0;
            while i < n
                invariant
                    graph.wf(),
                    n == graph.size(),
                    i <= n,
                    names@.len() == i,
                    forall|j: int| 0 <= j < i ==> #[trigger] names@[j]@ == graph.name(j),
                decreases n - i,
            {
                names.push(graph.name_at(i).clone());
                i = i + 1;
            }
            let r = DistanceMap { names, dist };
            assert forall|j: int| 0 <= j < n implies r.names_view()[j] == graph.name(j) by {}
            assert forall|k: Seq<char>| #[trigger] r.lookup(k) == match graph.index_of(k) {
                Some(i) => r.dists()[i],
                None => None,
            } by {
                if exists|i: int| 0 <= i < graph.size() && graph.name(i) == k {
                    let i = choose|i: int| 0 <= i < graph.size() && graph.name(i) == k;
                    assert(r.names_view()[i] == k);
                } else {
                    assert forall|i: int| 0 <= i < r.names_view().len() implies r.names_view()[i] != k by {
                        assert(r.names_view()[i] == graph.name(i));
                    }
                }
            }
            r
        },
        None => {
            let mut names: Vec<String> = Vec::new();
            names.push(key);
            let mut dist: Vec<Option<usize>> = Vec::new();
            dist.push(Some(0));
            let r = DistanceMap { names, dist };
            assert(r.names_view()[0] == start@);
            r
        },
    }
}

} // verus!
