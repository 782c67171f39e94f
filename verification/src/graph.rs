//! Dependency graphs over numbered nodes, and their topological order.
//!
//! A graph of `n` nodes is described by its requirement lists: for each node
//! the nodes that it depends on, in the order of declaration and as often as
//! they were declared. The executable graph keeps what Kahn's algorithm
//! reads: for each node the list of its dependents, and the number of its
//! requirements.

use vstd::prelude::*;

verus! {

/// How often `x` occurs in `s`.
pub open spec fn count(s: Seq<usize>, x: usize) -> nat
    decreases s.len(),
{
    if s.len() == 0 {
        0
    } else {
        count(s.drop_last(), x) + if s.last() == x {
            1nat
        } else {
            0nat
        }
    }
}

/// How many entries of `s` are nodes that are not done.
pub open spec fn pending(s: Seq<usize>, done: Seq<bool>) -> nat
    decreases s.len(),
{
    if s.len() == 0 {
        0
    } else {
        pending(s.drop_last(), done) + if done[s.last() as int] {
            0nat
        } else {
            1nat
        }
    }
}

/// Whether every requirement names a node of the graph.
pub open spec fn closed(reqs: Seq<Seq<usize>>) -> bool {
    forall|c: int, k: int|
        0 <= c < reqs.len() && 0 <= k < reqs[c].len() ==> #[trigger] reqs[c][k] < reqs.len()
}

/// Whether node `c` lists node `d` among its requirements.
pub open spec fn requires_directly(reqs: Seq<Seq<usize>>, c: usize, d: usize) -> bool {
    c < reqs.len() && reqs[c as int].contains(d)
}

/// Whether `path` leads from a node back to itself, each node of it
/// requiring the next.
pub open spec fn is_cycle(reqs: Seq<Seq<usize>>, path: Seq<usize>) -> bool {
    &&& path.len() >= 2
    &&& path.first() == path.last()
    &&& forall|t: int|
        0 <= t < path.len() - 1 ==> requires_directly(reqs, #[trigger] path[t], path[t + 1])
}

/// Whether some node requires itself, directly or through others.
pub open spec fn has_cycle(reqs: Seq<Seq<usize>>) -> bool {
    exists|path: Seq<usize>| is_cycle(reqs, path)
}

/// Whether `d` stands in `order` before index `p`.
pub open spec fn occurs_before(order: Seq<usize>, d: usize, p: int) -> bool {
    exists|q: int| 0 <= q < p && order[q] == d
}

/// Whether every node of `order` has all its requirements before it.
pub open spec fn requirements_first(reqs: Seq<Seq<usize>>, order: Seq<usize>) -> bool {
    forall|p: int, k: int|
        0 <= p < order.len() && 0 <= k < reqs[order[p] as int].len() ==> occurs_before(
            order,
            #[trigger] reqs[order[p] as int][k],
            p,
        )
}

/// Whether `order` holds each of the `n` nodes once.
pub open spec fn is_permutation(order: Seq<usize>, n: nat) -> bool {
    &&& order.len() == n
    &&& order.no_duplicates()
    &&& forall|p: int| 0 <= p < order.len() ==> #[trigger] order[p] < n
}

/// Whether `order` is a topological order of the graph: it holds each node
/// once, and each node after all the nodes that it requires.
pub open spec fn is_topological_order(reqs: Seq<Seq<usize>>, order: Seq<usize>) -> bool {
    &&& is_permutation(order, reqs.len())
    &&& requirements_first(reqs, order)
}

/// Adding an entry adds one to its count and nothing to the others.
pub proof fn lemma_count_push(s: Seq<usize>, v: usize, x: usize)
    ensures
        count(s.push(v), x) == count(s, x) + if v == x {
            1nat
        } else {
            0nat
        },
{
    assert(s.push(v).drop_last() =~= s);
}

/// A prefix holds an entry no more often than the whole.
pub proof fn lemma_count_take(s: Seq<usize>, j: int, x: usize)
    requires
        0 <= j <= s.len(),
    ensures
        count(s.take(j), x) <= count(s, x),
    decreases s.len() - j,
{
    if j < s.len() {
        lemma_count_take(s, j + 1, x);
        assert(s.take(j + 1).drop_last() =~= s.take(j));
    } else {
        assert(s.take(j) =~= s);
    }
}

/// While no node is done, every entry is pending.
pub proof fn lemma_pending_none_done(s: Seq<usize>, done: Seq<bool>)
    requires
        forall|k: int| 0 <= k < s.len() ==> 0 <= #[trigger] s[k] < done.len() && !done[s[k] as int],
    ensures
        pending(s, done) == s.len(),
    decreases s.len(),
{
    if s.len() > 0 {
        lemma_pending_none_done(s.drop_last(), done);
    }
}

/// Once `u` is done, as many entries fewer are pending as `u` occurs.
pub proof fn lemma_pending_mark(s: Seq<usize>, done: Seq<bool>, u: usize)
    requires
        u < done.len(),
        !done[u as int],
        forall|k: int| 0 <= k < s.len() ==> #[trigger] s[k] < done.len(),
    ensures
        pending(s, done) == pending(s, done.update(u as int, true)) + count(s, u),
    decreases s.len(),
{
    if s.len() > 0 {
        lemma_pending_mark(s.drop_last(), done, u);
    }
}

/// Nothing is pending if and only if every entry is done.
pub proof fn lemma_pending_zero(s: Seq<usize>, done: Seq<bool>)
    ensures
        pending(s, done) == 0 <==> forall|k: int| 0 <= k < s.len() ==> done[#[trigger] s[k] as int],
    decreases s.len(),
{
    if s.len() > 0 {
        lemma_pending_zero(s.drop_last(), done);
        if pending(s, done) == 0 {
            assert forall|k: int| 0 <= k < s.len() implies done[#[trigger] s[k] as int] by {
                if k < s.len() - 1 {
                    assert(s.drop_last()[k] == s[k]);
                }
            }
        }
        if forall|k: int| 0 <= k < s.len() ==> done[#[trigger] s[k] as int] {
            assert forall|k: int| 0 <= k < s.drop_last().len() implies done[#[trigger] s.drop_last()[k] as int] by {
                assert(s.drop_last()[k] == s[k]);
            }
            assert(done[s[s.len() - 1] as int]);
        }
    }
}

/// A sequence of distinct nodes below `n` has at most `n` entries.
pub proof fn lemma_pigeonhole(s: Seq<usize>, n: nat)
    requires
        s.no_duplicates(),
        forall|i: int| 0 <= i < s.len() ==> #[trigger] s[i] < n,
    ensures
        s.len() <= n,
    decreases n,
{
    if n == 0 {
        if s.len() > 0 {
            assert(s[0] < n);
        }
    } else if exists|i: int| 0 <= i < s.len() && s[i] == n - 1 {
        let i = choose|i: int| 0 <= i < s.len() && s[i] == n - 1;
        let rest = s.remove(i);
        assert forall|a: int| 0 <= a < rest.len() implies #[trigger] rest[a] < n - 1 by {
            if a < i {
                assert(rest[a] == s[a]);
            } else {
                assert(rest[a] == s[a + 1]);
            }
        }
        assert forall|a: int, b: int| 0 <= a < rest.len() && 0 <= b < rest.len() && a != b implies rest[a] != rest[b] by {
            let a2 = if a < i { a } else { a + 1 };
            let b2 = if b < i { b } else { b + 1 };
            assert(rest[a] == s[a2]);
            assert(rest[b] == s[b2]);
        }
        lemma_pigeonhole(rest, (n - 1) as nat);
    } else {
        assert forall|a: int| 0 <= a < s.len() implies #[trigger] s[a] < n - 1 by {
            assert(s[a] < n);
        }
        lemma_pigeonhole(s, (n - 1) as nat);
    }
}

/// A sequence that holds each of `n` nodes once holds every one of them.
pub proof fn lemma_permutation_covers(order: Seq<usize>, n: nat, v: usize)
    requires
        is_permutation(order, n),
        v < n,
    ensures
        order.contains(v),
{
    if !order.contains(v) {
        let longer = order.push(v);
        assert forall|a: int, b: int| 0 <= a < longer.len() && 0 <= b < longer.len() && a != b implies longer[a] != longer[b] by {
            if a < order.len() {
                assert(order[a] == longer[a]);
            }
            if b < order.len() {
                assert(order[b] == longer[b]);
            }
        }
        lemma_pigeonhole(longer, n);
    }
}

/// A graph that has a topological order has no cycle.
pub proof fn lemma_order_excludes_cycle(reqs: Seq<Seq<usize>>, order: Seq<usize>)
    requires
        is_topological_order(reqs, order),
    ensures
        !has_cycle(reqs),
{
    if has_cycle(reqs) {
        let path = choose|path: Seq<usize>| is_cycle(reqs, path);
        lemma_path_descends(reqs, order, path, path.len() - 1);
    }
}

/// Along a path on which each node requires the next, the place in a
/// topological order falls: the node at index `t > 0` stands before the
/// first node of the path.
proof fn lemma_path_descends(reqs: Seq<Seq<usize>>, order: Seq<usize>, path: Seq<usize>, t: int)
    requires
        is_topological_order(reqs, order),
        1 <= t < path.len(),
        forall|i: int| 0 <= i < path.len() - 1 ==> requires_directly(reqs, #[trigger] path[i], path[i + 1]),
    ensures
        path[t] < reqs.len(),
        order.index_of(path[t]) < order.index_of(path[0]),
        order.contains(path[t]),
        order.contains(path[0]),
    decreases t,
{
    let n = reqs.len();
    let c = path[t - 1];
    let d = path[t];
    assert(requires_directly(reqs, path[t - 1], path[t - 1 + 1]));
    lemma_permutation_covers(order, n, c);
    let p = order.index_of(c);
    assert(order[p] == c);
    let k = choose|k: int| 0 <= k < reqs[c as int].len() && reqs[c as int][k] == d;
    assert(occurs_before(order, reqs[order[p] as int][k], p));
    let q = choose|q: int| 0 <= q < p && order[q] == d;
    assert(order.contains(d));
    assert(order[order.index_of(d)] == d);
    assert(order.index_of(d) == q);
    assert(requires_directly(reqs, path[0], path[0int + 1]));
    lemma_permutation_covers(order, n, path[0]);
    if t > 1 {
        lemma_path_descends(reqs, order, path, t - 1);
    }
}


/// The sequences that the vectors of `v` hold, in order.
pub open spec fn lists(v: Seq<Vec<usize>>) -> Seq<Seq<usize>> {
    v.map_values(|l: Vec<usize>| l@)
}

/// Whether the lists of dependents say what the requirement lists say: node
/// `d` has `c` among its dependents as often as `c` has `d` among its
/// requirements.
spec fn mirrored(reqs: Seq<Seq<usize>>, dependents: Seq<Seq<usize>>) -> bool {
    &&& dependents.len() == reqs.len()
    &&& closed(reqs)
    &&& closed(dependents)
    &&& forall|d: usize, c: usize|
        d < reqs.len() && c < reqs.len() ==> #[trigger] count(dependents[d as int], c) == count(
            reqs[c as int],
            d,
        )
}

/// A dependency graph: for each node the nodes that depend on it, and the
/// number of nodes it depends on itself.
pub struct DependencyGraph {
    dependents: Vec<Vec<usize>>,
    in_degree: Vec<usize>,
    requirements: Ghost<Seq<Seq<usize>>>,
}

impl View for DependencyGraph {
    type V = Seq<Seq<usize>>;

    /// The requirement lists of the graph.
    closed spec fn view(&self) -> Seq<Seq<usize>> {
        self.requirements@
    }
}

impl DependencyGraph {
    #[verifier::type_invariant]
    spec fn well_formed(self) -> bool {
        &&& mirrored(self.requirements@, lists(self.dependents@))
        &&& self.in_degree@.len() == self.requirements@.len()
        &&& forall|c: int|
            0 <= c < self.in_degree@.len() ==> #[trigger] self.in_degree@[c]
                == self.requirements@[c].len()
    }

    /// A graph of `n` nodes none of which requires another.
    pub fn new(n: usize) -> (g: DependencyGraph)
        ensures
            g@ == Seq::new(n as nat, |c: int| Seq::<usize>::empty()),
    {
        let mut dependents: Vec<Vec<usize>> = Vec::new();
        let mut in_degree: Vec<usize> = Vec::new();
        let mut i: usize = 0;
        while i < n
            invariant
                i <= n,
                dependents@.len() == i,
                in_degree@.len() == i,
                forall|c: int| 0 <= c < i ==> (#[trigger] dependents@[c])@.len() == 0,
                forall|c: int| 0 <= c < i ==> #[trigger] in_degree@[c] == 0,
            decreases n - i,
        {
            dependents.push(Vec::new());
            in_degree.push(0);
            i += 1;
        }
        let ghost reqs = Seq::new(n as nat, |c: int| Seq::<usize>::empty());
        proof {
            assert forall|d: usize, c: usize| d < reqs.len() && c < reqs.len() implies #[trigger] count(
                lists(dependents@)[d as int],
                c,
            ) == count(reqs[c as int], d) by {
                assert(lists(dependents@)[d as int] == dependents@[d as int]@);
            }
            assert forall|c: int, k: int|
                0 <= c < lists(dependents@).len() && 0 <= k < lists(
                    dependents@,
                )[c].len() implies #[trigger] lists(dependents@)[c][k] < lists(
                dependents@,
            ).len() by {
                assert(lists(dependents@)[c] == dependents@[c]@);
            }
        }
        DependencyGraph { dependents, in_degree, requirements: Ghost(reqs) }
    }

    /// The graph with one more requirement: node `c` now also requires
    /// node `d`.
    pub fn with_edge(self, d: usize, c: usize) -> (g: DependencyGraph)
        requires
            d < self@.len(),
            c < self@.len(),
            self@[c as int].len() < usize::MAX,
        ensures
            g@ == self@.update(c as int, self@[c as int].push(d)),
    {
        proof {
            use_type_invariant(&self);
        }
        let ghost reqs = self.requirements@;
        let ghost before = lists(self.dependents@);
        let mut dependents = self.dependents;
        let mut in_degree = self.in_degree;
        assert(before[d as int] == dependents@[d as int]@);
        dependents[d].push(c);
        let degree: usize = in_degree[c];
        in_degree.set(c, degree + 1);
        let ghost after = lists(dependents@);
        let ghost reqs2 = reqs.update(c as int, reqs[c as int].push(d));
        proof {
            assert(after =~= before.update(d as int, before[d as int].push(c)));
            assert forall|x: int, k: int|
                0 <= x < reqs2.len() && 0 <= k < reqs2[x].len() implies #[trigger] reqs2[x][k]
                < reqs2.len() by {
                if x == c && k == reqs[c as int].len() {
                } else {
                    assert(reqs2[x][k] == reqs[x][k]);
                }
            }
            assert forall|x: int, k: int|
                0 <= x < after.len() && 0 <= k < after[x].len() implies #[trigger] after[x][k]
                < after.len() by {
                if x == d && k == before[d as int].len() {
                } else {
                    assert(after[x][k] == before[x][k]);
                }
            }
            assert forall|x: usize, y: usize| x < reqs2.len() && y < reqs2.len() implies #[trigger] count(
                after[x as int],
                y,
            ) == count(reqs2[y as int], x) by {
                assert(count(before[x as int], y) == count(reqs[y as int], x));
                lemma_count_push(before[d as int], c, y);
                lemma_count_push(reqs[c as int], d, x);
            }
        }
        DependencyGraph { dependents, in_degree, requirements: Ghost(reqs2) }
    }

    /// The number of nodes.
    pub fn node_count(&self) -> (n: usize)
        ensures
            n == self@.len(),
    {
        proof {
            use_type_invariant(self);
        }
        self.in_degree.len()
    }

    /// The number of requirements of `node`, each counted as often as it
    /// was added.
    pub fn in_degree(&self, node: usize) -> (degree: Option<usize>)
        ensures
            match degree {
                Some(d) => node < self@.len() && d == self@[node as int].len(),
                None => node >= self@.len(),
            },
    {
        proof {
            use_type_invariant(self);
        }
        if node < self.in_degree.len() {
            Some(self.in_degree[node])
        } else {
            None
        }
    }

    /// The nodes that require `node`, each as often as it requires it.
    pub fn dependents(&self, node: usize) -> (found: Option<&Vec<usize>>)
        ensures
            match found {
                Some(list) => {
                    &&& node < self@.len()
                    &&& forall|c: usize|
                        c < self@.len() ==> #[trigger] count(list@, c) == count(
                            self@[c as int],
                            node,
                        )
                    &&& forall|k: int| 0 <= k < list@.len() ==> #[trigger] list@[k] < self@.len()
                },
                None => node >= self@.len(),
            },
    {
        proof {
            use_type_invariant(self);
        }
        if node < self.dependents.len() {
            let list = &self.dependents[node];
            assert(lists(self.dependents@)[node as int] == list@);
            Some(list)
        } else {
            None
        }
    }
}


/// What holds of Kahn's algorithm between two steps. `order` holds the
/// nodes that were found ready, `head` of which are done; a node is ready
/// once its counter has come down to zero.
spec fn sorting(
    reqs: Seq<Seq<usize>>,
    in_degree: Seq<usize>,
    order: Seq<usize>,
    head: int,
    done: Seq<bool>,
) -> bool {
    &&& in_degree.len() == reqs.len()
    &&& done.len() == reqs.len()
    &&& 0 <= head <= order.len()
    &&& order.no_duplicates()
    &&& forall|p: int| 0 <= p < order.len() ==> #[trigger] order[p] < reqs.len()
    &&& forall|v: usize|
        v < reqs.len() ==> (done[v as int] <==> #[trigger] occurs_before(order, v, head))
    &&& forall|v: usize|
        v < reqs.len() ==> (in_degree[v as int] == 0 <==> #[trigger] order.contains(v))
    &&& requirements_first(reqs, order)
}

/// Whether each counter, together with what `credited` holds of its node,
/// is the number of the node's requirements that are not done.
spec fn counted(
    reqs: Seq<Seq<usize>>,
    in_degree: Seq<usize>,
    done: Seq<bool>,
    credited: Seq<usize>,
) -> bool {
    forall|v: usize|
        v < reqs.len() ==> in_degree[v as int] + #[trigger] count(credited, v) == pending(
            reqs[v as int],
            done,
        )
}

/// Before the first step: the nodes without requirements are ready, in
/// rising order, and none is done.
proof fn lemma_sorting_begins(reqs: Seq<Seq<usize>>, in_degree: Seq<usize>, order: Seq<usize>)
    requires
        closed(reqs),
        in_degree.len() == reqs.len(),
        forall|c: int| 0 <= c < reqs.len() ==> #[trigger] in_degree[c] == reqs[c].len(),
        forall|p: int| 0 <= p < order.len() ==> #[trigger] order[p] < reqs.len(),
        forall|p: int, q: int| 0 <= p < q < order.len() ==> order[p] < order[q],
        forall|v: usize|
            v < reqs.len() ==> (in_degree[v as int] == 0 <==> #[trigger] order.contains(v)),
    ensures
        sorting(reqs, in_degree, order, 0, Seq::new(reqs.len(), |v: int| false)),
        counted(reqs, in_degree, Seq::new(reqs.len(), |v: int| false), Seq::empty()),
{
    let done = Seq::new(reqs.len(), |v: int| false);
    assert forall|v: usize| v < reqs.len() implies in_degree[v as int] + #[trigger] count(
        Seq::<usize>::empty(),
        v,
    ) == pending(reqs[v as int], done) by {
        assert forall|k: int| 0 <= k < reqs[v as int].len() implies 0
            <= #[trigger] reqs[v as int][k] < done.len() && !done[reqs[v as int][k] as int] by {
            assert(reqs[v as int][k] < reqs.len());
        }
        lemma_pending_none_done(reqs[v as int], done);
    }
    assert forall|p: int, k: int|
        0 <= p < order.len() && 0 <= k < reqs[order[p] as int].len() implies occurs_before(
        order,
        #[trigger] reqs[order[p] as int][k],
        p,
    ) by {
        assert(order.contains(order[p]));
    }
}

/// One step within a row: the counter of the dependent `row[j]` of the node
/// `order[head]` is at least one; taking one off it, and making the
/// dependent ready if nothing is left, keeps the state.
proof fn lemma_sorting_step(
    reqs: Seq<Seq<usize>>,
    dependents: Seq<Seq<usize>>,
    in_degree: Seq<usize>,
    order: Seq<usize>,
    head: int,
    done: Seq<bool>,
    j: int,
)
    requires
        mirrored(reqs, dependents),
        sorting(reqs, in_degree, order, head, done),
        head < order.len(),
        0 <= j < dependents[order[head] as int].len(),
        counted(reqs, in_degree, done, dependents[order[head] as int].take(j)),
    ensures
        dependents[order[head] as int][j] < reqs.len(),
        in_degree[dependents[order[head] as int][j] as int] >= 1,
        ({
            let v = dependents[order[head] as int][j];
            let lowered = in_degree.update(v as int, (in_degree[v as int] - 1) as usize);
            let grown = if lowered[v as int] == 0 {
                order.push(v)
            } else {
                order
            };
            &&& sorting(reqs, lowered, grown, head, done)
            &&& counted(reqs, lowered, done, dependents[order[head] as int].take(j + 1))
        }),
{
    let n = reqs.len();
    let u = order[head];
    let row = dependents[u as int];
    let v = row[j];
    assert(u < n);
    assert(v < n);
    assert(!done[u as int]) by {
        if occurs_before(order, u, head) {
            let q = choose|q: int| 0 <= q < head && order[q] == u;
            assert(order[q] == order[head]);
        }
    }
    let marked = done.update(u as int, true);
    assert(row.take(j + 1).drop_last() =~= row.take(j));
    lemma_count_take(row, j + 1, v);
    assert(count(row, v) == count(reqs[v as int], u));
    assert forall|k: int| 0 <= k < reqs[v as int].len() implies #[trigger] reqs[v as int][k]
        < done.len() by {}
    lemma_pending_mark(reqs[v as int], done, u);
    assert(in_degree[v as int] + count(row.take(j), v) == pending(reqs[v as int], done));
    assert(in_degree[v as int] >= 1);
    assert(!order.contains(v));
    let lowered = in_degree.update(v as int, (in_degree[v as int] - 1) as usize);
    let grown = if lowered[v as int] == 0 {
        order.push(v)
    } else {
        order
    };
    assert forall|w: usize| w < n implies lowered[w as int] + #[trigger] count(
        row.take(j + 1),
        w,
    ) == pending(reqs[w as int], done) by {
        assert(in_degree[w as int] + count(row.take(j), w) == pending(reqs[w as int], done));
    }
    assert forall|p: int| 0 <= p < order.len() implies grown[p] == order[p] by {}
    assert forall|w: usize| w < n implies (done[w as int] <==> #[trigger] occurs_before(
        grown,
        w,
        head,
    )) by {
        if occurs_before(order, w, head) {
            let q = choose|q: int| 0 <= q < head && order[q] == w;
            assert(grown[q] == w);
        }
        if occurs_before(grown, w, head) {
            let q = choose|q: int| 0 <= q < head && grown[q] == w;
            assert(order[q] == w);
        }
    }
    assert forall|w: usize| w < n implies (lowered[w as int] == 0 <==> #[trigger] grown.contains(
        w,
    )) by {
        if order.contains(w) {
            let q = choose|q: int| 0 <= q < order.len() && order[q] == w;
            assert(grown[q] == w);
        }
        if grown.contains(w) && w != v {
            let q = choose|q: int| 0 <= q < grown.len() && grown[q] == w;
            assert(order[q] == w);
        }
        if w == v && lowered[v as int] == 0 {
            assert(grown[order.len() as int] == v);
        }
    }
    assert forall|p: int, k: int|
        0 <= p < grown.len() && 0 <= k < reqs[grown[p] as int].len() implies occurs_before(
        grown,
        #[trigger] reqs[grown[p] as int][k],
        p,
    ) by {
        let d = reqs[grown[p] as int][k];
        if p < order.len() {
            assert(occurs_before(order, reqs[order[p] as int][k], p));
            let q = choose|q: int| 0 <= q < p && order[q] == d;
            assert(grown[q] == d);
        } else {
            assert(grown[p] == v);
            assert(pending(reqs[v as int], marked) == 0);
            lemma_pending_zero(reqs[v as int], marked);
            assert(marked[reqs[v as int][k] as int]);
            if d == u {
                assert(grown[head] == d);
            } else {
                assert(d < n);
                assert(done[d as int]);
                assert(occurs_before(order, d, head));
                let q = choose|q: int| 0 <= q < head && order[q] == d;
                assert(grown[q] == d);
            }
        }
    }
}

/// The end of a row: once all dependents of the node `order[head]` have
/// been seen, the node is done.
proof fn lemma_sorting_row_ends(
    reqs: Seq<Seq<usize>>,
    dependents: Seq<Seq<usize>>,
    in_degree: Seq<usize>,
    order: Seq<usize>,
    head: int,
    done: Seq<bool>,
)
    requires
        mirrored(reqs, dependents),
        sorting(reqs, in_degree, order, head, done),
        head < order.len(),
        counted(reqs, in_degree, done, dependents[order[head] as int]),
    ensures
        sorting(reqs, in_degree, order, head + 1, done.update(order[head] as int, true)),
        counted(reqs, in_degree, done.update(order[head] as int, true), Seq::empty()),
{
    let n = reqs.len();
    let u = order[head];
    let row = dependents[u as int];
    let marked = done.update(u as int, true);
    assert(u < n);
    assert(!done[u as int]) by {
        if occurs_before(order, u, head) {
            let q = choose|q: int| 0 <= q < head && order[q] == u;
            assert(order[q] == order[head]);
        }
    }
    assert forall|v: usize| v < n implies in_degree[v as int] + #[trigger] count(
        Seq::<usize>::empty(),
        v,
    ) == pending(reqs[v as int], marked) by {
        assert(in_degree[v as int] + count(row, v) == pending(reqs[v as int], done));
        assert(count(row, v) == count(reqs[v as int], u));
        assert forall|k: int| 0 <= k < reqs[v as int].len() implies #[trigger] reqs[v as int][k]
            < done.len() by {}
        lemma_pending_mark(reqs[v as int], done, u);
    }
    assert forall|v: usize| v < n implies (marked[v as int] <==> #[trigger] occurs_before(
        order,
        v,
        head + 1,
    )) by {
        if v == u {
            assert(order[head] == v);
        } else {
            if occurs_before(order, v, head) {
                let q = choose|q: int| 0 <= q < head && order[q] == v;
                assert(0 <= q < head + 1 && order[q] == v);
            }
            if occurs_before(order, v, head + 1) {
                let q = choose|q: int| 0 <= q < head + 1 && order[q] == v;
                assert(q < head);
            }
        }
    }
}

/// A requirement of `v` that is not done, where there is one.
spec fn open_requirement(reqs: Seq<Seq<usize>>, done: Seq<bool>, v: usize) -> usize {
    choose|d: usize| d < reqs.len() && !done[d as int] && reqs[v as int].contains(d)
}

/// The node that is reached from `start` after `steps` steps, each from a
/// node to a requirement of it that is not done.
spec fn walk(reqs: Seq<Seq<usize>>, done: Seq<bool>, start: usize, steps: nat) -> usize
    decreases steps,
{
    if steps == 0 {
        start
    } else {
        open_requirement(reqs, done, walk(reqs, done, start, (steps - 1) as nat))
    }
}

/// Where every counter of a node that is not done is positive, the walk
/// never leaves the nodes that are not done.
proof fn lemma_walk(
    reqs: Seq<Seq<usize>>,
    in_degree: Seq<usize>,
    done: Seq<bool>,
    start: usize,
    steps: nat,
)
    requires
        closed(reqs),
        done.len() == reqs.len(),
        counted(reqs, in_degree, done, Seq::empty()),
        forall|v: usize| v < reqs.len() && !done[v as int] ==> #[trigger] in_degree[v as int] != 0,
        start < reqs.len(),
        !done[start as int],
    ensures
        walk(reqs, done, start, steps) < reqs.len(),
        !done[walk(reqs, done, start, steps) as int],
        steps > 0 ==> requires_directly(
            reqs,
            walk(reqs, done, start, (steps - 1) as nat),
            walk(reqs, done, start, steps),
        ),
    decreases steps,
{
    if steps > 0 {
        lemma_walk(reqs, in_degree, done, start, (steps - 1) as nat);
        let v = walk(reqs, done, start, (steps - 1) as nat);
        assert(in_degree[v as int] != 0);
        assert(in_degree[v as int] + count(Seq::<usize>::empty(), v) == pending(
            reqs[v as int],
            done,
        ));
        lemma_pending_zero(reqs[v as int], done);
        let k = choose|k: int| 0 <= k < reqs[v as int].len() && !done[reqs[v as int][k] as int];
        let d = reqs[v as int][k];
        assert(d < reqs.len());
        assert(reqs[v as int].contains(d));
    }
}

/// Where the algorithm ends with fewer nodes than the graph has, the graph
/// has a cycle.
proof fn lemma_sorting_stuck(
    reqs: Seq<Seq<usize>>,
    in_degree: Seq<usize>,
    order: Seq<usize>,
    done: Seq<bool>,
)
    requires
        closed(reqs),
        sorting(reqs, in_degree, order, order.len() as int, done),
        counted(reqs, in_degree, done, Seq::empty()),
        order.len() < reqs.len() <= usize::MAX,
    ensures
        has_cycle(reqs),
{
    let n = reqs.len();
    // Some node is not in the order.
    if forall|v: usize| v < n ==> order.contains(v) {
        let places = Seq::new(n, |v: int| order.index_of(v as usize) as usize);
        assert forall|a: int| 0 <= a < places.len() implies #[trigger] places[a]
            < order.len() by {
            assert(order.contains(a as usize));
        }
        assert forall|a: int, b: int|
            0 <= a < places.len() && 0 <= b < places.len() && a != b implies places[a]
            != places[b] by {
            assert(order.contains(a as usize));
            assert(order.contains(b as usize));
            assert(order[order.index_of(a as usize)] == a as usize);
            assert(order[order.index_of(b as usize)] == b as usize);
        }
        lemma_pigeonhole(places, order.len());
    }
    let start = choose|v: usize| v < n && !order.contains(v);
    assert forall|v: usize| v < n && !done[v as int] implies #[trigger] in_degree[v as int]
        != 0 by {
        if order.contains(v) {
            let q = choose|q: int| 0 <= q < order.len() && order[q] == v;
            assert(occurs_before(order, v, order.len() as int));
        }
    }
    assert(!done[start as int]) by {
        if occurs_before(order, start, order.len() as int) {
            let q = choose|q: int| 0 <= q < order.len() && order[q] == start;
            assert(order.contains(start));
        }
    }
    // A walk of more steps than there are nodes meets a node twice.
    let visited = Seq::new(n + 1, |i: int| walk(reqs, done, start, i as nat));
    assert forall|i: int| 0 <= i < visited.len() implies #[trigger] visited[i] < n by {
        lemma_walk(reqs, in_degree, done, start, i as nat);
    }
    if visited.no_duplicates() {
        lemma_pigeonhole(visited, n);
    }
    let (a, b) = choose|a: int, b: int|
        0 <= a < visited.len() && 0 <= b < visited.len() && a != b && visited[a] == visited[b];
    let (lo, hi) = if a < b {
        (a, b)
    } else {
        (b, a)
    };
    let path = visited.subrange(lo, hi + 1);
    assert forall|t: int| 0 <= t < path.len() - 1 implies requires_directly(
        reqs,
        #[trigger] path[t],
        path[t + 1],
    ) by {
        lemma_walk(reqs, in_degree, done, start, (lo + t + 1) as nat);
    }
    assert(is_cycle(reqs, path));
}

impl DependencyGraph {
    /// A topological order of the graph, found by Kahn's algorithm: the
    /// nodes without requirements are ready at once, in rising order; the
    /// ready nodes are taken first come, first served; and a node becomes
    /// ready when the last node that it requires has been taken. There is
    /// no such order if and only if the graph has a cycle.
    pub fn resolve(&self) -> (found: Option<Vec<usize>>)
        ensures
            match found {
                Some(order) => is_topological_order(self@, order@),
                None => has_cycle(self@),
            },
            found is Some <==> !has_cycle(self@),
    {
        proof {
            use_type_invariant(self);
        }
        let ghost reqs = self.requirements@;
        let ghost dependents = lists(self.dependents@);
        let n: usize = self.in_degree.len();
        let mut in_degree: Vec<usize> = Vec::new();
        let mut order: Vec<usize> = Vec::new();
        let mut v: usize = 0;
        while v < n
            invariant
                v <= n,
                n == reqs.len(),
                self.in_degree@.len() == n,
                in_degree@ == self.in_degree@.take(v as int),
                forall|p: int| 0 <= p < order@.len() ==> #[trigger] order@[p] < v,
                forall|p: int, q: int| 0 <= p < q < order@.len() ==> order@[p] < order@[q],
                forall|w: usize|
                    w < v ==> (self.in_degree@[w as int] == 0 <==> #[trigger] order@.contains(w)),
            decreases n - v,
        {
            let degree: usize = self.in_degree[v];
            in_degree.push(degree);
            if degree == 0 {
                let ghost before = order@;
                order.push(v);
                assert forall|w: usize| w < v + 1 implies (self.in_degree@[w as int] == 0
                    <==> #[trigger] order@.contains(w)) by {
                    if before.contains(w) {
                        let q = choose|q: int| 0 <= q < before.len() && before[q] == w;
                        assert(order@[q] == w);
                    }
                    if order@.contains(w) && w != v {
                        let q = choose|q: int| 0 <= q < order@.len() && order@[q] == w;
                        assert(before[q] == w);
                    }
                    if w == v {
                        assert(order@[before.len() as int] == v);
                    }
                }
            } else {
                assert forall|w: usize| w < v + 1 implies (self.in_degree@[w as int] == 0
                    <==> #[trigger] order@.contains(w)) by {
                    if order@.contains(w) {
                        let q = choose|q: int| 0 <= q < order@.len() && order@[q] == w;
                        assert(order@[q] < v);
                    }
                }
            }
            v += 1;
            assert(self.in_degree@.take(v as int) =~= self.in_degree@.take(v - 1).push(degree));
        }
        assert(in_degree@ =~= self.in_degree@);
        let ghost mut done: Seq<bool> = Seq::new(reqs.len(), |v: int| false);
        proof {
            lemma_sorting_begins(reqs, in_degree@, order@);
        }
        let mut head: usize = 0;
        while head < order.len()
            invariant
                n == reqs.len(),
                reqs == self.requirements@,
                dependents == lists(self.dependents@),
                mirrored(reqs, dependents),
                sorting(reqs, in_degree@, order@, head as int, done),
                counted(reqs, in_degree@, done, Seq::empty()),
            decreases n - head,
        {
            proof {
                lemma_pigeonhole(order@, n as nat);
            }
            let u: usize = order[head];
            let row = &self.dependents[u];
            assert(row@ == dependents[u as int]);
            assert(row@.take(0) =~= Seq::<usize>::empty());
            let mut j: usize = 0;
            while j < row.len()
                invariant
                    n == reqs.len(),
                    mirrored(reqs, dependents),
                    sorting(reqs, in_degree@, order@, head as int, done),
                    head < order@.len(),
                    u == order@[head as int],
                    row@ == dependents[u as int],
                    j <= row@.len(),
                    counted(reqs, in_degree@, done, row@.take(j as int)),
                decreases row@.len() - j,
            {
                proof {
                    lemma_sorting_step(reqs, dependents, in_degree@, order@, head as int, done, j as int);
                }
                let w: usize = row[j];
                let left: usize = in_degree[w] - 1;
                in_degree.set(w, left);
                if left == 0 {
                    order.push(w);
                }
                j += 1;
            }
            proof {
                assert(row@.take(j as int) =~= row@);
                lemma_sorting_row_ends(reqs, dependents, in_degree@, order@, head as int, done);
                done = done.update(u as int, true);
            }
            head += 1;
        }
        if order.len() == n {
            proof {
                lemma_order_excludes_cycle(reqs, order@);
            }
            Some(order)
        } else {
            proof {
                lemma_pigeonhole(order@, n as nat);
                lemma_sorting_stuck(reqs, in_degree@, order@, done);
            }
            None
        }
    }
}

} // verus!
