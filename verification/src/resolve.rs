//! Execution order: the dependencies between the cells of a set, what it
//! means for them to be circular, and the order in which the cells can run.
//!
//! A dependency on a name that no cell has is passed over: it is no edge of
//! the graph, and does not keep the cell that declares it from running.

use vstd::prelude::*;
use crate::cell::{Cell, CellModel, models, has_id, distinct_ids, position};
use crate::graph::{
    DependencyGraph, requires_directly, is_cycle, is_permutation, is_topological_order,
    occurs_before, lemma_permutation_covers,
};

verus! {

/// Whether the cell named `c` declares a dependency on the cell named `d`,
/// both being cells of `cells`.
pub open spec fn depends_on(cells: Seq<CellModel>, c: Seq<char>, d: Seq<char>) -> bool {
    &&& has_id(cells, d)
    &&& exists|i: int|
        0 <= i < cells.len() && #[trigger] cells[i].id == c && cells[i].dependencies.contains(d)
}

/// Whether `path` leads from a cell back to itself, each cell of it
/// depending on the next. A cell that depends on itself gives such a path
/// of two entries.
pub open spec fn is_dependency_cycle(cells: Seq<CellModel>, path: Seq<Seq<char>>) -> bool {
    &&& path.len() >= 2
    &&& path.first() == path.last()
    &&& forall|t: int|
        0 <= t < path.len() - 1 ==> depends_on(cells, #[trigger] path[t], path[t + 1])
}

/// Whether some cell depends on itself, directly or through others.
pub open spec fn has_dependency_cycle(cells: Seq<CellModel>) -> bool {
    exists|path: Seq<Seq<char>>| is_dependency_cycle(cells, path)
}

/// Whether `order` is an order in which the cells can run: it holds the
/// name of each cell once and no other name, and each cell stands after
/// every cell that it depends on.
pub open spec fn is_execution_order(cells: Seq<CellModel>, order: Seq<Seq<char>>) -> bool {
    &&& order.len() == cells.len()
    &&& order.no_duplicates()
    &&& forall|p: int| 0 <= p < order.len() ==> has_id(cells, #[trigger] order[p])
    &&& forall|id: Seq<char>| has_id(cells, id) ==> order.contains(id)
    &&& forall|p: int, q: int|
        0 <= p < order.len() && 0 <= q < order.len() && depends_on(
            cells,
            #[trigger] order[q],
            #[trigger] order[p],
        ) ==> p < q
}

/// The index of the cell named `id`.
pub open spec fn index_of_id(cells: Seq<CellModel>, id: Seq<char>) -> usize {
    choose|i: usize| i < cells.len() && cells[i as int].id == id
}

/// The cells that a cell with the dependencies `deps` requires, by their
/// indices: one entry for each dependency that names a cell, in the order
/// of declaration.
pub open spec fn requirements(cells: Seq<CellModel>, deps: Seq<Seq<char>>) -> Seq<usize>
    decreases deps.len(),
{
    if deps.len() == 0 {
        Seq::empty()
    } else if has_id(cells, deps.last()) {
        requirements(cells, deps.drop_last()).push(index_of_id(cells, deps.last()))
    } else {
        requirements(cells, deps.drop_last())
    }
}

/// The dependency graph of `cells`: its nodes are the cells by their
/// indices, and each cell requires the cells that its dependencies name.
pub open spec fn requirement_lists(cells: Seq<CellModel>) -> Seq<Seq<usize>> {
    Seq::new(cells.len(), |c: int| requirements(cells, cells[c].dependencies))
}

/// The graph while it is built: the cells before `c` have their
/// requirements, cell `c` has those of its first `k` dependencies, and the
/// cells behind it have none yet.
spec fn requirement_lists_until(cells: Seq<CellModel>, c: int, k: int) -> Seq<
    Seq<usize>,
> {
    Seq::new(
        cells.len(),
        |x: int|
            if x < c {
                requirements(cells, cells[x].dependencies)
            } else if x == c {
                requirements(cells, cells[x].dependencies.take(k))
            } else {
                Seq::empty()
            },
    )
}

/// The name of a cell is found at the cell's own index.
pub proof fn lemma_index_of_id(cells: Seq<CellModel>, i: int)
    requires
        distinct_ids(cells),
        0 <= i < cells.len() <= usize::MAX,
    ensures
        index_of_id(cells, cells[i].id) == i,
        has_id(cells, cells[i].id),
{
    let u = i as usize;
    assert(u < cells.len() && cells[u as int].id == cells[i].id);
    let j = index_of_id(cells, cells[i].id);
    if j < i {
        assert(cells[j as int].id != cells[i].id);
    }
    if i < j {
        assert(cells[i].id != cells[j as int].id);
    }
}

/// The requirements are the indices of the cells that the dependencies
/// name, and there are no more of them than dependencies.
pub proof fn lemma_requirements(cells: Seq<CellModel>, deps: Seq<Seq<char>>)
    requires
        distinct_ids(cells),
        cells.len() <= usize::MAX,
    ensures
        requirements(cells, deps).len() <= deps.len(),
        forall|d: usize|
            #[trigger] requirements(cells, deps).contains(d) <==> d < cells.len()
                && deps.contains(cells[d as int].id),
    decreases deps.len(),
{
    let reqs = requirements(cells, deps);
    if deps.len() == 0 {
        assert forall|d: usize| #[trigger] reqs.contains(d) <==> d < cells.len() && deps.contains(
            cells[d as int].id,
        ) by {}
    } else {
        let front = deps.drop_last();
        let rest = requirements(cells, front);
        lemma_requirements(cells, front);
        assert forall|d: usize| #[trigger] reqs.contains(d) <==> d < cells.len() && deps.contains(
            cells[d as int].id,
        ) by {
            if has_id(cells, deps.last()) {
                let i = choose|i: int| 0 <= i < cells.len() && cells[i].id == deps.last();
                lemma_index_of_id(cells, i);
            }
            if reqs.contains(d) {
                let k = choose|k: int| 0 <= k < reqs.len() && reqs[k] == d;
                if k < rest.len() {
                    assert(rest[k] == d);
                    assert(rest.contains(d));
                    let m = choose|m: int| 0 <= m < front.len() && front[m] == cells[d as int].id;
                    assert(deps[m] == cells[d as int].id);
                } else {
                    assert(deps[deps.len() - 1] == cells[d as int].id);
                }
            }
            if d < cells.len() && deps.contains(cells[d as int].id) {
                let m = choose|m: int| 0 <= m < deps.len() && deps[m] == cells[d as int].id;
                if m < front.len() {
                    assert(front[m] == cells[d as int].id);
                    assert(rest.contains(d));
                    let k = choose|k: int| 0 <= k < rest.len() && rest[k] == d;
                    assert(reqs[k] == d);
                } else {
                    lemma_index_of_id(cells, d as int);
                    assert(reqs[reqs.len() - 1] == d);
                }
            }
        }
    }
}

/// One cell requires another in the graph exactly if it depends on it.
pub proof fn lemma_requires_directly(cells: Seq<CellModel>, c: usize, d: usize)
    requires
        distinct_ids(cells),
        cells.len() <= usize::MAX,
        c < cells.len(),
    ensures
        requires_directly(requirement_lists(cells), c, d) <==> d < cells.len() && depends_on(
            cells,
            cells[c as int].id,
            cells[d as int].id,
        ),
{
    lemma_requirements(cells, cells[c as int].dependencies);
    if d < cells.len() {
        lemma_index_of_id(cells, d as int);
        if depends_on(cells, cells[c as int].id, cells[d as int].id) {
            let i = choose|i: int|
                0 <= i < cells.len() && #[trigger] cells[i].id == cells[c as int].id
                    && cells[i].dependencies.contains(cells[d as int].id);
            if i < c {
                assert(cells[i].id != cells[c as int].id);
            }
            if c < i {
                assert(cells[c as int].id != cells[i].id);
            }
        }
    }
}

/// The names of the cells at the indices `order`.
pub open spec fn names_at(cells: Seq<CellModel>, order: Seq<usize>) -> Seq<Seq<char>> {
    order.map_values(|v: usize| cells[v as int].id)
}

/// A topological order of the graph of a set of cells, read as names, is an
/// execution order of the cells.
pub proof fn lemma_order_of_names(cells: Seq<CellModel>, order: Seq<usize>)
    requires
        distinct_ids(cells),
        cells.len() <= usize::MAX,
        is_topological_order(requirement_lists(cells), order),
    ensures
        is_execution_order(cells, names_at(cells, order)),
{
    let reqs = requirement_lists(cells);
    let names = names_at(cells, order);
    assert forall|p: int, q: int|
        0 <= p < names.len() && 0 <= q < names.len() && p != q implies names[p] != names[q] by {
        let a = order[p] as int;
        let b = order[q] as int;
        assert(a != b);
        if a < b {
            assert(cells[a].id != cells[b].id);
        } else {
            assert(cells[b].id != cells[a].id);
        }
    }
    assert forall|p: int| 0 <= p < names.len() implies has_id(cells, #[trigger] names[p]) by {
        lemma_index_of_id(cells, order[p] as int);
    }
    assert forall|id: Seq<char>| has_id(cells, id) implies names.contains(id) by {
        let i = choose|i: int| 0 <= i < cells.len() && cells[i].id == id;
        lemma_permutation_covers(order, reqs.len(), i as usize);
        let p = choose|p: int| 0 <= p < order.len() && order[p] == i as usize;
        assert(names[p] == id);
    }
    assert forall|p: int, q: int|
        0 <= p < names.len() && 0 <= q < names.len() && depends_on(
            cells,
            #[trigger] names[q],
            #[trigger] names[p],
        ) implies p < q by {
        lemma_requires_directly(cells, order[q], order[p]);
        let list = reqs[order[q] as int];
        let k = choose|k: int| 0 <= k < list.len() && list[k] == order[p];
        assert(occurs_before(order, reqs[order[q] as int][k], q));
        let m = choose|m: int| 0 <= m < q && order[m] == order[p];
        assert(m == p);
    }
}

/// A cycle of the graph of a set of cells, read as names, is a circular
/// dependency of the cells.
pub proof fn lemma_cycle_of_names(cells: Seq<CellModel>, path: Seq<usize>)
    requires
        distinct_ids(cells),
        cells.len() <= usize::MAX,
        is_cycle(requirement_lists(cells), path),
    ensures
        is_dependency_cycle(cells, names_at(cells, path)),
{
    let names = names_at(cells, path);
    assert forall|t: int| 0 <= t < names.len() - 1 implies depends_on(
        cells,
        #[trigger] names[t],
        names[t + 1],
    ) by {
        assert(requires_directly(requirement_lists(cells), path[t], path[t + 1]));
        lemma_requires_directly(cells, path[t], path[t + 1]);
    }
}

/// Cells that can be put in an execution order have no circular
/// dependency: no cell of them depends on itself, and no chain of
/// dependencies leads from a cell back to it.
pub proof fn lemma_execution_order_excludes_cycle(cells: Seq<CellModel>, order: Seq<Seq<char>>)
    requires
        is_execution_order(cells, order),
    ensures
        !has_dependency_cycle(cells),
{
    if has_dependency_cycle(cells) {
        let path = choose|path: Seq<Seq<char>>| is_dependency_cycle(cells, path);
        lemma_names_descend(cells, order, path, path.len() - 1);
    }
}

/// Along a chain of dependencies the place in an execution order falls:
/// the cell at index `t > 0` of the chain stands before the first.
proof fn lemma_names_descend(
    cells: Seq<CellModel>,
    order: Seq<Seq<char>>,
    path: Seq<Seq<char>>,
    t: int,
)
    requires
        is_execution_order(cells, order),
        1 <= t < path.len(),
        forall|i: int| 0 <= i < path.len() - 1 ==> depends_on(cells, #[trigger] path[i], path[i + 1]),
    ensures
        order.contains(path[t]),
        order.contains(path[0]),
        order.index_of(path[t]) < order.index_of(path[0]),
    decreases t,
{
    let c = path[t - 1];
    let d = path[t];
    assert(depends_on(cells, path[t - 1], path[t - 1 + 1]));
    let i = choose|i: int|
        0 <= i < cells.len() && #[trigger] cells[i].id == c && cells[i].dependencies.contains(d);
    assert(has_id(cells, c));
    assert(order.contains(c));
    assert(order.contains(d));
    let p = order.index_of(d);
    let q = order.index_of(c);
    assert(order[p] == d && order[q] == c);
    assert(p < q);
    if t > 1 {
        lemma_names_descend(cells, order, path, t - 1);
    }
}

/// A name that no cell has is the name of no dependency between cells, and
/// stands in no execution order.
pub proof fn lemma_missing_name(cells: Seq<CellModel>, order: Seq<Seq<char>>, name: Seq<char>)
    requires
        !has_id(cells, name),
    ensures
        forall|c: Seq<char>| !depends_on(cells, c, name),
        is_execution_order(cells, order) ==> !order.contains(name),
{
    if is_execution_order(cells, order) && order.contains(name) {
        let p = choose|p: int| 0 <= p < order.len() && order[p] == name;
        assert(has_id(cells, order[p]));
    }
}

/// A cell that depends on itself is a circular dependency.
pub proof fn lemma_self_dependency_is_cycle(cells: Seq<CellModel>, id: Seq<char>)
    requires
        depends_on(cells, id, id),
    ensures
        has_dependency_cycle(cells),
{
    let path = seq![id, id];
    assert(is_dependency_cycle(cells, path));
}

/// No cells, no circular dependency; and the only execution order of no
/// cells is the empty one.
pub proof fn lemma_no_cells(order: Seq<Seq<char>>)
    ensures
        !has_dependency_cycle(Seq::<CellModel>::empty()),
        is_execution_order(Seq::<CellModel>::empty(), order) <==> order.len() == 0,
{
    let cells = Seq::<CellModel>::empty();
    if has_dependency_cycle(cells) {
        let path = choose|path: Seq<Seq<char>>| is_dependency_cycle(cells, path);
        assert(depends_on(cells, path[0], path[0int + 1]));
    }
}

/// The dependency graph of `cells`.
pub fn dependency_graph(cells: &Vec<Cell>) -> (g: DependencyGraph)
    requires
        distinct_ids(models(cells@)),
    ensures
        g@ == requirement_lists(models(cells@)),
{
    let ghost ms = models(cells@);
    let n: usize = cells.len();
    let mut g = DependencyGraph::new(n);
    assert(g@ =~= requirement_lists_until(ms, 0, 0)) by {
        assert(ms[0].dependencies.take(0) =~= Seq::<Seq<char>>::empty());
    }
    let mut c: usize = 0;
    while c < n
        invariant
            c <= n,
            n == cells@.len(),
            ms == models(cells@),
            distinct_ids(ms),
            g@ == requirement_lists_until(ms, c as int, 0),
        decreases n - c,
    {
        let deps = &cells[c].dependencies;
        let ghost names = ms[c as int].dependencies;
        assert(names == deps.deep_view());
        let mut k: usize = 0;
        while k < deps.len()
            invariant
                c < n,
                n == cells@.len(),
                ms == models(cells@),
                distinct_ids(ms),
                names == ms[c as int].dependencies,
                names == deps.deep_view(),
                k <= deps@.len(),
                g@ == requirement_lists_until(ms, c as int, k as int),
            decreases deps@.len() - k,
        {
            let ghost before = g@;
            proof {
                lemma_requirements(ms, names.take(k as int));
                assert(names.take(k + 1).drop_last() =~= names.take(k as int));
                assert(names.take(k + 1).last() == deps@[k as int]@);
            }
            match position(cells, &deps[k]) {
                Some(d) => {
                    proof {
                        assert(ms[d as int].id == deps@[k as int]@);
                        lemma_index_of_id(ms, d as int);
                    }
                    g = g.with_edge(d, c);
                },
                None => {},
            }
            k += 1;
            assert(g@ =~= requirement_lists_until(ms, c as int, k as int));
        }
        c += 1;
        assert(g@ =~= requirement_lists_until(ms, c as int, 0)) by {
            assert(names.take(k as int) =~= names);
            if c < n {
                assert(ms[c as int].dependencies.take(0) =~= Seq::<Seq<char>>::empty());
            }
        }
    }
    assert(g@ =~= requirement_lists(ms));
    g
}

/// The names of the cells in an order in which they can run, or none if the
/// cells depend on each other in a circle.
pub fn execution_order(cells: &Vec<Cell>) -> (found: Option<Vec<String>>)
    requires
        distinct_ids(models(cells@)),
    ensures
        match found {
            Some(order) => is_execution_order(models(cells@), order.deep_view()),
            None => has_dependency_cycle(models(cells@)),
        },
        found is Some <==> !has_dependency_cycle(models(cells@)),
{
    let ghost ms = models(cells@);
    let g = dependency_graph(cells);
    assert(ms.len() == cells.len());
    match g.resolve() {
        None => {
            proof {
                let path = choose|path: Seq<usize>| is_cycle(requirement_lists(ms), path);
                lemma_cycle_of_names(ms, path);
            }
            None
        },
        Some(nodes) => {
            let mut order: Vec<String> = Vec::new();
            let mut p: usize = 0;
            assert(order.deep_view() =~= names_at(ms, nodes@.take(0)));
            while p < nodes.len()
                invariant
                    p <= nodes@.len(),
                    ms == models(cells@),
                    is_permutation(nodes@, ms.len()),
                    order.deep_view() == names_at(ms, nodes@.take(p as int)),
                decreases nodes@.len() - p,
            {
                let ghost before = order.deep_view();
                let name = cells[nodes[p]].id.clone();
                assert(name@ == ms[nodes@[p as int] as int].id);
                order.push(name);
                p += 1;
                assert(order.deep_view() =~= before.push(name@));
                assert(nodes@.take(p as int) =~= nodes@.take(p - 1).push(nodes@[p - 1]));
                assert(order.deep_view() =~= names_at(ms, nodes@.take(p as int)));
            }
            proof {
                assert(nodes@.take(p as int) =~= nodes@);
                lemma_order_of_names(ms, nodes@);
                lemma_execution_order_excludes_cycle(ms, order.deep_view());
            }
            Some(order)
        },
    }
}


/// The dependencies among `deps` that name no cell, each with the name
/// `id` of the cell that declares them, in the order of declaration.
pub open spec fn missing_among(cells: Seq<CellModel>, id: Seq<char>, deps: Seq<Seq<char>>) -> Seq<
    (Seq<char>, Seq<char>),
>
    decreases deps.len(),
{
    if deps.len() == 0 {
        Seq::empty()
    } else if has_id(cells, deps.last()) {
        missing_among(cells, id, deps.drop_last())
    } else {
        missing_among(cells, id, deps.drop_last()).push((id, deps.last()))
    }
}

/// The dependencies of the first `upto` cells that name no cell.
pub open spec fn missing_until(cells: Seq<CellModel>, upto: int) -> Seq<(Seq<char>, Seq<char>)>
    decreases upto,
{
    if upto <= 0 {
        Seq::empty()
    } else {
        missing_until(cells, upto - 1) + missing_among(
            cells,
            cells[upto - 1].id,
            cells[upto - 1].dependencies,
        )
    }
}

/// The dependencies that name no cell: for each of them the name of the
/// cell that declares it and the name that it declares, cell by cell.
pub open spec fn missing(cells: Seq<CellModel>) -> Seq<(Seq<char>, Seq<char>)> {
    missing_until(cells, cells.len() as int)
}

/// No dependency that is missing is the name of a cell, and each is
/// declared by the cell it is listed with.
pub proof fn lemma_missing_among(cells: Seq<CellModel>, id: Seq<char>, deps: Seq<Seq<char>>)
    ensures
        forall|k: int|
            0 <= k < missing_among(cells, id, deps).len() ==> {
                let pair = #[trigger] missing_among(cells, id, deps)[k];
                pair.0 == id && deps.contains(pair.1) && !has_id(cells, pair.1)
            },
        forall|m: int|
            0 <= m < deps.len() && !has_id(cells, deps[m]) ==> missing_among(
                cells,
                id,
                deps,
            ).contains((id, #[trigger] deps[m])),
    decreases deps.len(),
{
    let all = missing_among(cells, id, deps);
    if deps.len() > 0 {
        let front = deps.drop_last();
        let rest = missing_among(cells, id, front);
        lemma_missing_among(cells, id, front);
        assert forall|k: int| 0 <= k < all.len() implies {
            let pair = #[trigger] all[k];
            pair.0 == id && deps.contains(pair.1) && !has_id(cells, pair.1)
        } by {
            if k < rest.len() {
                let pair = rest[k];
                assert(all[k] == pair);
                let m = choose|m: int| 0 <= m < front.len() && front[m] == pair.1;
                assert(deps[m] == pair.1);
            } else {
                assert(deps[deps.len() - 1] == all[k].1);
            }
        }
        assert forall|m: int| 0 <= m < deps.len() && !has_id(cells, deps[m]) implies all.contains(
            (id, #[trigger] deps[m]),
        ) by {
            if m < front.len() {
                assert(front[m] == deps[m]);
                let k = choose|k: int| 0 <= k < rest.len() && rest[k] == (id, deps[m]);
                assert(all[k] == (id, deps[m]));
            } else {
                assert(all[all.len() - 1] == (id, deps[m]));
            }
        }
    }
}

/// The dependencies that name no cell.
pub fn missing_dependencies(cells: &Vec<Cell>) -> (out: Vec<(String, String)>)
    ensures
        out.deep_view() == missing(models(cells@)),
{
    let ghost ms = models(cells@);
    let mut out: Vec<(String, String)> = Vec::new();
    let mut c: usize = 0;
    assert(out.deep_view() =~= missing_until(ms, 0));
    while c < cells.len()
        invariant
            c <= cells@.len(),
            ms == models(cells@),
            out.deep_view() == missing_until(ms, c as int),
        decreases cells@.len() - c,
    {
        let cell = &cells[c];
        let ghost names = ms[c as int].dependencies;
        let ghost done = out.deep_view();
        assert(names == cell.dependencies.deep_view());
        let mut k: usize = 0;
        assert(out.deep_view() =~= done + missing_among(ms, cell.id@, names.take(0)));
        while k < cell.dependencies.len()
            invariant
                k <= cell.dependencies@.len(),
                ms == models(cells@),
                names == cell.dependencies.deep_view(),
                out.deep_view() == done + missing_among(ms, cell.id@, names.take(k as int)),
            decreases cell.dependencies@.len() - k,
        {
            let ghost before = out.deep_view();
            let dep = &cell.dependencies[k];
            match position(cells, dep) {
                Some(d) => {
                    assert(ms[d as int].id == dep@);
                },
                None => {
                    out.push((cell.id.clone(), dep.clone()));
                    assert(out.deep_view() =~= before.push((cell.id@, dep@)));
                },
            }
            k += 1;
            assert(names.take(k as int).drop_last() =~= names.take(k - 1));
            assert(names.take(k as int).last() == dep@);
            assert(out.deep_view() =~= done + missing_among(ms, cell.id@, names.take(k as int)));
        }
        assert(names.take(k as int) =~= names);
        c += 1;
    }
    out
}

} // verus!
