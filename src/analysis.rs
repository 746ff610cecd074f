use std::collections::HashMap;
use vstd::prelude::*;
use vstd::std_specs::hash::group_hash_axioms;
use crate::graph::{bfs_from, hop_distance, Graph};

verus! {

broadcast use group_hash_axioms;

/// Number of keys among the first `n` nodes of `g` whose measure `f` is `x`.
pub open spec fn count_with(g: Graph, f: spec_fn(int) -> nat, x: nat, n: int) -> nat
    decreases n,
{
    if n <= 0 {
        0
    } else {
        count_with(g, f, x, n - 1) + if g.is_key(n - 1) && f(n - 1) == x {
            1nat
        } else {
            0nat
        }
    }
}

/// Sum of `count_with(g, f, x, n)` over the values `x < bound`.
pub open spec fn sum_counts(g: Graph, f: spec_fn(int) -> nat, bound: nat, n: int) -> nat
    decreases bound,
{
    if bound == 0 {
        0
    } else {
        sum_counts(g, f, (bound - 1) as nat, n) + count_with(g, f, (bound - 1) as nat, n)
    }
}

/// The number of neighbours of node `i`, counting repeated edges.
pub open spec fn degree(g: Graph) -> spec_fn(int) -> nat {
    |i: int| g.nbrs(i).len()
}

/// `m` is the histogram of measure `f` over all keys of `g`: exactly the
/// values that some key has are present, each with the number of keys having it.
pub open spec fn is_histogram(m: Map<usize, usize>, g: Graph, f: spec_fn(int) -> nat) -> bool {
    forall|x: usize|
        (#[trigger] m.contains_key(x) <==> count_with(g, f, x as nat, g.size() as int) > 0) && (
        m.contains_key(x) ==> m[x] == count_with(g, f, x as nat, g.size() as int))
}

proof fn lemma_count_bound(g: Graph, f: spec_fn(int) -> nat, x: nat, n: int)
    requires
        n >= 0,
    ensures
        count_with(g, f, x, n) <= n,
    decreases n,
{
    if n > 0 {
        lemma_count_bound(g, f, x, n - 1);
    }
}

proof fn lemma_sum_step(g: Graph, f: spec_fn(int) -> nat, bound: nat, n: int)
    requires
        n >= 0,
    ensures
        sum_counts(g, f, bound, n + 1) == sum_counts(g, f, bound, n) + if g.is_key(n) && f(n) < bound {
            1nat
        } else {
            0nat
        },
    decreases bound,
{
    if bound > 0 {
        lemma_sum_step(g, f, (bound - 1) as nat, n);
    }
}

/// Summed over every value below a bound that no key reaches, the histogram
/// counts of any measure add up to the number of keys.
pub proof fn lemma_counts_sum_to_keys(g: Graph, f: spec_fn(int) -> nat, bound: nat, n: int)
    requires
        0 <= n,
        forall|i: int| 0 <= i < n && g.is_key(i) ==> f(i) < bound,
    ensures
        sum_counts(g, f, bound, n) == g.keys_below(n),
    decreases n,
{
    if n > 0 {
        lemma_counts_sum_to_keys(g, f, bound, n - 1);
        lemma_sum_step(g, f, bound, n - 1);
    } else {
        lemma_sum_zero(g, f, bound);
    }
}

proof fn lemma_sum_zero(g: Graph, f: spec_fn(int) -> nat, bound: nat)
    ensures
        sum_counts(g, f, bound, 0) == 0,
    decreases bound,
{
    if bound > 0 {
        lemma_sum_zero(g, f, (bound - 1) as nat);
    }
}

/// One more than the largest measure of a key among the first `n` nodes
/// (0 when there is no key): every key's measure lies below it.
pub open spec fn measure_bound(g: Graph, f: spec_fn(int) -> nat, n: int) -> nat
    decreases n,
{
    if n <= 0 {
        0
    } else {
        let prev = measure_bound(g, f, n - 1);
        if g.is_key(n - 1) && f(n - 1) + 1 > prev {
            f(n - 1) + 1
        } else {
            prev
        }
    }
}

proof fn lemma_measure_bound(g: Graph, f: spec_fn(int) -> nat, n: int)
    requires
        0 <= n,
    ensures
        forall|i: int| 0 <= i < n && g.is_key(i) ==> f(i) < measure_bound(g, f, n),
    decreases n,
{
    if n > 0 {
        lemma_measure_bound(g, f, n - 1);
    }
}

/// For any measure, the histogram counts summed over every value a key
/// can have add up to the number of keys: each key lands in one bucket.
pub proof fn lemma_histogram_total(g: Graph, f: spec_fn(int) -> nat)
    ensures
        sum_counts(g, f, measure_bound(g, f, g.size() as int), g.size() as int) == g.key_count(),
{
    lemma_measure_bound(g, f, g.size() as int);
    lemma_counts_sum_to_keys(g, f, measure_bound(g, f, g.size() as int), g.size() as int);
}

/// The counts of `degree_distribution`, summed over all degrees up to the
/// largest one, equal the number of nodes of the graph.
pub proof fn degree_counts_sum_to_node_count(g: Graph)
    requires
        g.wf(),
    ensures
        sum_counts(g, degree(g), measure_bound(g, degree(g), g.size() as int), g.size() as int) == g.key_count(),
{
    lemma_histogram_total(g, degree(g));
}

/// The counts of `degree_distribution_at_distance_2`, summed over all
/// distance-2 degrees up to the largest one, equal the number of nodes.
pub proof fn distance_2_counts_sum_to_node_count(g: Graph)
    requires
        g.wf(),
    ensures
        sum_counts(g, second_degree(g), measure_bound(g, second_degree(g), g.size() as int), g.size() as int)
            == g.key_count(),
{
    lemma_histogram_total(g, second_degree(g));
}

/// A histogram is determined by the graph and the measure: two runs of
/// either degree distribution on the same graph give equal maps.
pub proof fn lemma_histogram_unique(m1: Map<usize, usize>, m2: Map<usize, usize>, g: Graph, f: spec_fn(int) -> nat)
    requires
        is_histogram(m1, g, f),
        is_histogram(m2, g, f),
    ensures
        m1 == m2,
{
    assert forall|x: usize| #[trigger] m1.contains_key(x) == m2.contains_key(x) by {}
    assert forall|x: usize| m1.contains_key(x) implies #[trigger] m1[x] == m2[x] by {}
    assert(m1 =~= m2);
}

/// Adds one to the count held for `x`, starting from 1 when there is none.
fn bump(m: &mut HashMap<usize, usize>, x: usize)
    requires
        old(m)@.contains_key(x) ==> old(m)@[x] < usize::MAX,
    ensures
        final(m)@ == old(m)@.insert(
            x,
            if old(m)@.contains_key(x) {
                (old(m)@[x] + 1) as usize
            } else {
                1usize
            },
        ),
{
    match m.insert(x, 1) {
        Some(c) => {
            m.insert(x, c + 1);
        },
        None => {},
    }
}

/// Records in `m` one more key, node `i`, whose measure is `x`.
proof fn lemma_histogram_step(
    m1: Map<usize, usize>,
    m2: Map<usize, usize>,
    g: Graph,
    f: spec_fn(int) -> nat,
    i: int,
)
    requires
        0 <= i,
        forall|x: usize|
            (#[trigger] m1.contains_key(x) <==> count_with(g, f, x as nat, i) > 0) && (m1.contains_key(x)
                ==> m1[x] == count_with(g, f, x as nat, i)),
        g.is_key(i) && m1.contains_key(f(i) as usize) ==> m1[f(i) as usize] < usize::MAX,
        g.is_key(i) ==> f(i) <= usize::MAX && m2 == m1.insert(
            f(i) as usize,
            if m1.contains_key(f(i) as usize) {
                (m1[f(i) as usize] + 1) as usize
            } else {
                1usize
            },
        ),
        !g.is_key(i) ==> m2 == m1,
    ensures
        forall|x: usize|
            (#[trigger] m2.contains_key(x) <==> count_with(g, f, x as nat, i + 1) > 0) && (m2.contains_key(x)
                ==> m2[x] == count_with(g, f, x as nat, i + 1)),
{
    assert forall|x: usize|
        (#[trigger] m2.contains_key(x) <==> count_with(g, f, x as nat, i + 1) > 0) && (m2.contains_key(x)
            ==> m2[x] == count_with(g, f, x as nat, i + 1)) by {
        assert(count_with(g, f, x as nat, i + 1) == count_with(g, f, x as nat, i) + if g.is_key(i) && f(i)
            == x as nat {
            1nat
        } else {
            0nat
        });
        if g.is_key(i) {
            if x as nat == f(i) {
                assert(x == f(i) as usize);
            } else {
                assert(x != f(i) as usize);
            }
        }
    }
}

/// How many keys have each degree.
pub fn degree_distribution(graph: &Graph) -> (r: HashMap<usize, usize>)
    requires
        graph.wf(),
    ensures
        is_histogram(r@, *graph, degree(*graph)),
{
    let mut m: HashMap<usize, usize> = HashMap::new();
    let n = graph.node_total();
    let mut i: usize = 0;
    while i < n
        invariant
            graph.wf(),
            n == graph.size(),
            i <= n,
            forall|x: usize|
                (#[trigger] m@.contains_key(x) <==> count_with(*graph, degree(*graph), x as nat, i as int) > 0)
                    && (m@.contains_key(x) ==> m@[x] == count_with(*graph, degree(*graph), x as nat, i as int)),
        decreases n - i,
    {
        let ghost m1 = m@;
        if graph.is_key_at(i) {
            let d = graph.neighbors(i).len();
            proof {
                if m@.contains_key(d) {
                    lemma_count_bound(*graph, degree(*graph), d as nat, i as int);
                }
            }
            bump(&mut m, d);
        }
        proof {
            lemma_histogram_step(m1, m@, *graph, degree(*graph), i as int);
        }
        i = i + 1;
    }
    m
}

/// The nodes exactly two hops from `i`: neighbours of a neighbour of `i`,
/// other than `i` itself and its direct neighbours. Each counts once, however
/// many intermediate neighbours lead to it.
pub open spec fn second_hop(g: Graph, i: int) -> Set<int> {
    Set::new(
        |w: int|
            0 <= w < g.size() && w != i && !g.nbrs(i).contains(w as usize) && exists|k: int, kk: int|
                0 <= k < g.nbrs(i).len() && 0 <= kk < g.nbrs(g.nbrs(i)[k] as int).len() && #[trigger] g.nbrs(
                    g.nbrs(i)[k] as int,
                )[kk] == w as usize,
    )
}

/// The number of nodes exactly two hops from node `i`.
pub open spec fn second_degree(g: Graph) -> spec_fn(int) -> nat {
    |i: int| second_hop(g, i).len()
}

/// Counts the nodes exactly two hops from node `i`.
pub fn second_hop_count(graph: &Graph, i: usize) -> (r: usize)
    requires
        graph.wf(),
        (i as int) < graph.size(),
    ensures
        r == second_hop(*graph, i as int).len(),
        second_hop(*graph, i as int).finite(),
{
    let n = graph.node_total();
    let nb = graph.neighbors(i);
    let mut direct: Vec<bool> = Vec::new();
    let mut found: Vec<bool> = Vec::new();
    let mut t: usize = 0;
    while t < n
        invariant
            t <= n,
            direct@.len() == t,
            found@.len() == t,
            forall|w: int| 0 <= w < t ==> !direct@[w] && !found@[w],
        decreases n - t,
    {
        direct.push(false);
        found.push(false);
        t = t + 1;
    }
    let mut k: usize = 0;
    while k < nb.len()
        invariant
            graph.wf(),
            n == graph.size(),
            (i as int) < n,
            nb@ == graph.nbrs(i as int),
            k <= nb@.len(),
            direct@.len() == n,
            forall|w: int| 0 <= w < n ==> (direct@[w] <==> exists|kk: int| 0 <= kk < k && #[trigger] nb@[kk] == w as usize),
        decreases nb@.len() - k,
    {
        let v = nb[k];
        assert((v as int) < n);
        direct.set(v, true);
        assert forall|w: int| 0 <= w < n implies (direct@[w] <==> exists|kk: int| 0 <= kk < k + 1 && #[trigger] nb@[kk] == w as usize) by {
            if w == v as int {
                assert(nb@[k as int] == w as usize);
            } else if direct@[w] {
                let kk = choose|kk: int| 0 <= kk < k && #[trigger] nb@[kk] == w as usize;
            }
        }
        k = k + 1;
    }
    assert forall|w: int| 0 <= w < n implies (direct@[w] <==> nb@.contains(w as usize)) by {
        if nb@.contains(w as usize) {
            let kk = choose|kk: int| 0 <= kk < nb@.len() && nb@[kk] == w as usize;
        }
    }
    let ghost target = second_hop(*graph, i as int);
    let ghost mut seen: Set<int> = Set::empty();
    let mut count: usize = 0;
    let mut k: usize = 0;
    while k < nb.len()
        invariant
            graph.wf(),
            n == graph.size(),
            (i as int) < n,
            nb@ == graph.nbrs(i as int),
            target == second_hop(*graph, i as int),
            k <= nb@.len(),
            direct@.len() == n,
            found@.len() == n,
            forall|w: int| 0 <= w < n ==> (direct@[w] <==> nb@.contains(w as usize)),
            seen.finite(),
            count == seen.len(),
            count <= n,
            forall|w: int| #[trigger] seen.contains(w) <==> 0 <= w < n && found@[w],
            forall|w: int| #[trigger] seen.contains(w) ==> target.contains(w),
            forall|k2: int, kk: int|
                0 <= k2 < k && 0 <= kk < graph.nbrs(nb@[k2] as int).len() && graph.nbrs(nb@[k2] as int)[kk] != i
                    && !direct@[graph.nbrs(nb@[k2] as int)[kk] as int] ==> seen.contains(
                    #[trigger] graph.nbrs(nb@[k2] as int)[kk] as int,
                ),
        decreases nb@.len() - k,
    {
        let m = nb[k];
        let nb2 = graph.neighbors(m);
        let mut j: usize = 0;
        while j < nb2.len()
            invariant
                graph.wf(),
                n == graph.size(),
                (i as int) < n,
                nb@ == graph.nbrs(i as int),
                target == second_hop(*graph, i as int),
                k < nb@.len(),
                m == nb@[k as int],
                nb2@ == graph.nbrs(m as int),
                j <= nb2@.len(),
                direct@.len() == n,
                found@.len() == n,
                forall|w: int| 0 <= w < n ==> (direct@[w] <==> nb@.contains(w as usize)),
                seen.finite(),
                count == seen.len(),
                count <= n,
                forall|w: int| #[trigger] seen.contains(w) <==> 0 <= w < n && found@[w],
                forall|w: int| #[trigger] seen.contains(w) ==> target.contains(w),
                forall|k2: int, kk: int|
                    0 <= k2 < k && 0 <= kk < graph.nbrs(nb@[k2] as int).len() && graph.nbrs(nb@[k2] as int)[kk] != i
                        && !direct@[graph.nbrs(nb@[k2] as int)[kk] as int] ==> seen.contains(
                        #[trigger] graph.nbrs(nb@[k2] as int)[kk] as int,
                    ),
                forall|kk: int|
                    0 <= kk < j && nb2@[kk] != i && !direct@[nb2@[kk] as int] ==> seen.contains(
                        #[trigger] nb2@[kk] as int,
                    ),
            decreases nb2@.len() - j,
        {
            let w = nb2[j];
            assert((m as int) < n);
            assert((w as int) < n);
            if w != i && !direct[w] && !found[w] {
                assert(graph.nbrs(nb@[k as int] as int)[j as int] == w);
                assert(target.contains(w as int));
                assert(!seen.contains(w as int));
                proof {
                    seen = seen.insert(w as int);
                    vstd::set_lib::lemma_int_range(0, n as int);
                    assert(seen.subset_of(vstd::set_lib::set_int_range(0, n as int)));
                    vstd::set_lib::lemma_len_subset(seen, vstd::set_lib::set_int_range(0, n as int));
                }
                found.set(w, true);
                count = count + 1;
            }
            j = j + 1;
        }
        k = k + 1;
    }
    assert forall|w: int| target.contains(w) implies seen.contains(w) by {
        let (k2, kk) = choose|k2: int, kk: int|
            0 <= k2 < nb@.len() && 0 <= kk < graph.nbrs(nb@[k2] as int).len() && #[trigger] graph.nbrs(
                nb@[k2] as int,
            )[kk] == w as usize;
        assert(graph.nbrs(nb@[k2] as int)[kk] as int == w);
    }
    assert(seen =~= target);
    count
}

/// How many keys have each distance-2 degree: the number of distinct nodes
/// exactly two hops away.
pub fn degree_distribution_at_distance_2(graph: &Graph) -> (r: HashMap<usize, usize>)
    requires
        graph.wf(),
    ensures
        is_histogram(r@, *graph, second_degree(*graph)),
{
    let mut m: HashMap<usize, usize> = HashMap::new();
    let n = graph.node_total();
    let mut i: usize = 0;
    while i < n
        invariant
            graph.wf(),
            n == graph.size(),
            i <= n,
            forall|x: usize|
                (#[trigger] m@.contains_key(x) <==> count_with(*graph, second_degree(*graph), x as nat, i as int) > 0)
                    && (m@.contains_key(x) ==> m@[x] == count_with(*graph, second_degree(*graph), x as nat, i as int)),
        decreases n - i,
    {
        let ghost m1 = m@;
        if graph.is_key_at(i) {
            let d = second_hop_count(graph, i);
            proof {
                if m@.contains_key(d) {
                    lemma_count_bound(*graph, second_degree(*graph), d as nat, i as int);
                }
            }
            bump(&mut m, d);
        }
        proof {
            lemma_histogram_step(m1, m@, *graph, second_degree(*graph), i as int);
        }
        i = i + 1;
    }
    m
}

/// Sum of measure `f` over the keys among the first `n` nodes of `g`.
pub open spec fn sum_with(g: Graph, f: spec_fn(int) -> nat, n: int) -> nat
    decreases n,
{
    if n <= 0 {
        0
    } else {
        sum_with(g, f, n - 1) + if g.is_key(n - 1) {
            f(n - 1)
        } else {
            0nat
        }
    }
}

/// The numerators of the average degrees: the sum of the degrees of all
/// keys, and the sum of their distance-2 degrees. Both sums use the same
/// distance-2 sets as `degree_distribution_at_distance_2`, so direct
/// neighbours are left out of the second one too. Dividing each by the node
/// count gives the averages.
pub fn degree_totals(graph: &Graph) -> (r: (u128, u128))
    requires
        graph.wf(),
    ensures
        r.0 == sum_with(*graph, degree(*graph), graph.size() as int),
        r.1 == sum_with(*graph, second_degree(*graph), graph.size() as int),
{
    let n = graph.node_total();
    let mut t1: u128 = 0;
    let mut t2: u128 = 0;
    let mut i: usize = 0;
    while i < n
        invariant
            graph.wf(),
            n == graph.size(),
            i <= n,
            t1 == sum_with(*graph, degree(*graph), i as int),
            t2 == sum_with(*graph, second_degree(*graph), i as int),
            t1 <= i * (usize::MAX as int),
            t2 <= i * (usize::MAX as int),
        decreases n - i,
    {
        if graph.is_key_at(i) {
            let d1 = graph.neighbors(i).len();
            let d2 = second_hop_count(graph, i);
            proof {
                let ii = i as int;
                let mx = usize::MAX as int;
                assert((ii + 1) * mx == ii * mx + mx) by (nonlinear_arith);
                assert((ii + 1) * mx <= mx * mx + mx) by (nonlinear_arith)
                    requires ii < mx, mx > 0;
                assert(mx * mx <= 0xffff_ffff_ffff_ffff * 0xffff_ffff_ffff_ffffint) by (nonlinear_arith)
                    requires 0 <= mx <= 0xffff_ffff_ffff_ffff;
            }
            t1 = t1 + d1 as u128;
            t2 = t2 + d2 as u128;
        } else {
            proof {
                let ii = i as int;
                let mx = usize::MAX as int;
                assert(ii * mx <= (ii + 1) * mx) by (nonlinear_arith)
                    requires mx > 0;
            }
        }
        i = i + 1;
    }
    (t1, t2)
}

/// The strictly positive distances among the first `n` entries of `d`, in
/// node order.
pub open spec fn positive(d: Seq<Option<usize>>, n: int) -> Seq<usize>
    decreases n,
{
    if n <= 0 {
        Seq::empty()
    } else {
        positive(d, n - 1) + if d[n - 1] is Some && d[n - 1]->0 > 0 {
            seq![d[n - 1]->0]
        } else {
            Seq::empty()
        }
    }
}

/// The positive hop distances from each key among the first `n` nodes, one
/// run per start node: every reachable ordered pair of distinct nodes once.
pub open spec fn lengths_below(g: Graph, n: int) -> Seq<usize>
    decreases n,
{
    if n <= 0 {
        Seq::empty()
    } else {
        lengths_below(g, n - 1) + if g.is_key(n - 1) {
            positive(hop_distance(g, n - 1), g.size() as int)
        } else {
            Seq::empty()
        }
    }
}

/// The distance sample of the path-length statistics: every positive hop
/// distance found by a search from each key of the graph.
pub fn path_lengths(graph: &Graph) -> (r: Vec<usize>)
    requires
        graph.wf(),
    ensures
        r@ == lengths_below(*graph, graph.size() as int),
{
    let n = graph.node_total();
    let mut out: Vec<usize> = Vec::new();
    let mut i: usize = 0;
    while i < n
        invariant
            graph.wf(),
            n == graph.size(),
            i <= n,
            out@ == lengths_below(*graph, i as int),
        decreases n - i,
    {
        if graph.is_key_at(i) {
            let d = bfs_from(graph, i);
            let mut v: usize = 0;
            let ghost base = out@;
            while v < n
                invariant
                    n == graph.size(),
                    d@.len() == n,
                    v <= n,
                    out@ == base + positive(d@, v as int),
                decreases n - v,
            {
                match d[v] {
                    Some(x) => {
                        if x > 0 {
                            out.push(x);
                        }
                    },
                    None => {},
                }
                assert(out@ =~= base + positive(d@, v + 1));
                v = v + 1;
            }
        }
        assert(out@ =~= lengths_below(*graph, i + 1));
        i = i + 1;
    }
    out
}

/// The largest and the smallest value of `s`; both 0 when `s` is empty.
pub fn length_extremes(s: &Vec<usize>) -> (r: (usize, usize))
    ensures
        s@.len() == 0 ==> r == (0usize, 0usize),
        s@.len() > 0 ==> s@.contains(r.0) && s@.contains(r.1) && forall|j: int|
            0 <= j < s@.len() ==> r.1 <= #[trigger] s@[j] <= r.0,
{
    if s.len() == 0 {
        return (0, 0);
    }
    let mut hi: usize = s[0];
    let mut lo: usize = s[0];
    let mut j: usize = 1;
    assert(s@[0] == hi);
    while j < s.len()
        invariant
            1 <= j <= s@.len(),
            s@.contains(hi),
            s@.contains(lo),
            forall|t: int| 0 <= t < j ==> lo <= #[trigger] s@[t] <= hi,
        decreases s@.len() - j,
    {
        let x = s[j];
        if x > hi {
            hi = x;
        }
        if x < lo {
            lo = x;
        }
        assert(s@[j as int] == x);
        j = j + 1;
    }
    (hi, lo)
}

/// Sum of the first `n` values of `s`.
pub open spec fn seq_sum(s: Seq<usize>, n: int) -> nat
    decreases n,
{
    if n <= 0 {
        0
    } else {
        seq_sum(s, n - 1) + s[n - 1] as nat
    }
}

/// The sum of a sample of path lengths, the numerator of their mean.
pub fn length_sum(s: &Vec<usize>) -> (r: u128)
    ensures
        r == seq_sum(s@, s@.len() as int),
{
    let mut total: u128 = 0;
    let mut j: usize = 0;
    while j < s.len()
        invariant
            j <= s@.len(),
            total == seq_sum(s@, j as int),
            total <= j * (usize::MAX as int),
        decreases s@.len() - j,
    {
        proof {
            let jj = j as int;
            let mx = usize::MAX as int;
            assert((jj + 1) * mx == jj * mx + mx) by (nonlinear_arith);
            assert((jj + 1) * mx <= mx * mx + mx) by (nonlinear_arith)
                requires jj < mx, mx > 0;
            assert(mx * mx <= 0xffff_ffff_ffff_ffff * 0xffff_ffff_ffff_ffffint) by (nonlinear_arith)
                requires 0 <= mx <= 0xffff_ffff_ffff_ffff;
        }
        total = total + s[j] as u128;
        j = j + 1;
    }
    total
}

/// Twice the median of a sorted, non-empty sample: the middle value doubled
/// when the length is odd, the sum of the two middle values when it is even.
pub fn median_doubled(s: &Vec<usize>) -> (r: u128)
    requires
        s@.len() > 0,
        ascending(s@),
    ensures
        s@.len() % 2 == 1 ==> r == 2 * s@[(s@.len() / 2) as int],
        s@.len() % 2 == 0 ==> r == s@[(s@.len() / 2) as int - 1] + s@[(s@.len() / 2) as int],
{
    let n = s.len();
    if n % 2 == 1 {
        2 * (s[n / 2] as u128)
    } else {
        s[n / 2 - 1] as u128 + s[n / 2] as u128
    }
}

/// `s` is in ascending order.
pub open spec fn ascending(s: Seq<usize>) -> bool {
    forall|a: int, b: int| 0 <= a <= b < s.len() ==> s[a] <= s[b]
}

/// Relies on std's `slice::sort_unstable`: it reorders the values into
/// ascending order, keeping each value as often as it occurred.
#[verifier::external_body]
fn sort_ascending(v: &mut Vec<usize>)
    ensures
        final(v)@.len() == old(v)@.len(),
        final(v)@.to_multiset() == old(v)@.to_multiset(),
        ascending(final(v)@),
{
    v.sort_unstable();
}

/// The distance sample of `path_lengths` in ascending order, ready for
/// `median_doubled`.
pub fn sorted_path_lengths(graph: &Graph) -> (r: Vec<usize>)
    requires
        graph.wf(),
    ensures
        r@.len() == lengths_below(*graph, graph.size() as int).len(),
        r@.to_multiset() == lengths_below(*graph, graph.size() as int).to_multiset(),
        ascending(r@),
{
    let mut v = path_lengths(graph);
    sort_ascending(&mut v);
    v
}

} // verus!
