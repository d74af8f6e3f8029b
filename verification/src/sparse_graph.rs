use vstd::prelude::*;
use vstd::set_lib::*;

verus! {

/// Does edge `e` join `a` and `b` (in either order)?
pub open spec fn edge_joins(e: [usize; 2], a: usize, b: usize) -> bool {
    (e[0] == a && e[1] == b) || (e[0] == b && e[1] == a)
}

/// Is there an edge between `a` and `b`?
pub open spec fn adjacent(edges: Seq<[usize; 2]>, a: usize, b: usize) -> bool {
    exists|k: int| 0 <= k < edges.len() && #[trigger] edge_joins(edges[k], a, b)
}

/// The neighbors of `i`, one entry per edge at `i`, in the order of the edges.
pub open spec fn neighbors_of(edges: Seq<[usize; 2]>, i: usize) -> Seq<usize>
    decreases edges.len(),
{
    if edges.len() == 0 {
        seq![]
    } else {
        let e = edges.last();
        let rest = neighbors_of(edges.drop_last(), i);
        if e[0] == i {
            rest.push(e[1])
        } else if e[1] == i {
            rest.push(e[0])
        } else {
            rest
        }
    }
}

/// The `k`-th step of `p` follows an edge.
pub open spec fn step_ok(edges: Seq<[usize; 2]>, p: Seq<usize>, k: int) -> bool {
    adjacent(edges, p[k], p[k + 1])
}

/// `p` is a nonempty path along edges that visits no vertex twice.
pub open spec fn is_simple_path(edges: Seq<[usize; 2]>, p: Seq<usize>) -> bool {
    &&& p.len() >= 1
    &&& p.no_duplicates()
    &&& forall|k: int| 0 <= k < p.len() - 1 ==> #[trigger] step_ok(edges, p, k)
}

/// `q` starts with `p`.
pub open spec fn extends(q: Seq<usize>, p: Seq<usize>) -> bool {
    p.len() <= q.len() && q.take(p.len() as int) == p
}

/// `p` is a cycle through `start`: a simple path from `start` of at least three vertices whose
/// last vertex is adjacent to `start`.
pub open spec fn is_cycle_from(edges: Seq<[usize; 2]>, p: Seq<usize>, start: usize) -> bool {
    &&& is_simple_path(edges, p)
    &&& p[0] == start
    &&& p.len() >= 3
    &&& adjacent(edges, p.last(), start)
}

/// `v` can be reached from `start` along a simple path.
pub open spec fn reaches(edges: Seq<[usize; 2]>, start: usize, v: usize) -> bool {
    exists|q: Seq<usize>| #[trigger] is_simple_path(edges, q) && q[0] == start && q.last() == v
}

/// Some call of `cond` on a vector with contents `s` returned true.
pub open spec fn accepts<F: Fn(&Vec<usize>) -> bool>(cond: F, s: Seq<usize>) -> bool {
    exists|v: &Vec<usize>| v@ == s && #[trigger] call_ensures(cond, (v,), true)
}

/// Some call of `cond` on a vector with contents `s` returned false.
pub open spec fn rejects<F: Fn(&Vec<usize>) -> bool>(cond: F, s: Seq<usize>) -> bool {
    exists|v: &Vec<usize>| v@ == s && #[trigger] call_ensures(cond, (v,), false)
}

/// `cond` can be called on every vector, and its answer depends on the vector's contents only.
pub open spec fn is_pure_condition<F: Fn(&Vec<usize>) -> bool>(cond: F) -> bool {
    &&& forall|v: &Vec<usize>| #[trigger] call_requires(cond, (v,))
    &&& forall|v: &Vec<usize>, w: &Vec<usize>, r: bool, s: bool|
        v@ == w@ && #[trigger] call_ensures(cond, (v,), r) && #[trigger] call_ensures(cond, (w,), s)
            ==> r == s
}

/// The paths that `cond` accepts.
pub open spec fn accepted_by<F: Fn(&Vec<usize>) -> bool>(cond: F) -> spec_fn(Seq<usize>) -> bool {
    |s: Seq<usize>| accepts(cond, s)
}

/// Adding a value not in a sequence without repeats keeps it without repeats.
pub proof fn lemma_push_distinct(s: Seq<usize>, x: usize)
    requires
        s.no_duplicates(),
        !s.contains(x),
    ensures
        s.push(x).no_duplicates(),
{
    assert forall|i: int, j: int| 0 <= i < j < s.len() + 1 implies s.push(x)[i] != s.push(x)[j] by {
        if j == s.len() {
            assert(s.contains(s[i]));
        }
    }
}

/// The exhaustive search for a longest path, in the order of `longest_path_from_start`'s
/// depth-first search:
/// from the path `visited`, its last vertex's neighbors are tried in the order of the edges,
/// starting with the `k`-th; for each neighbor not on the path, the best path through it is
/// searched, and it replaces `best` when it is strictly longer and `acc` accepts it.
pub open spec fn search_from(
    edges: Seq<[usize; 2]>,
    acc: spec_fn(Seq<usize>) -> bool,
    visited: Seq<usize>,
    k: int,
    best: Seq<usize>,
) -> Seq<usize>
    decreases usize::MAX + 1 - visited.len(), neighbors_of(edges, visited.last()).len() - k
    when visited.no_duplicates() && visited.len() >= 1 && 0 <= k
{
    let nbrs = neighbors_of(edges, visited.last());
    if k >= nbrs.len() {
        best
    } else if visited.contains(nbrs[k]) {
        search_from(edges, acc, visited, k + 1, best)
    } else {
        let next = visited.push(nbrs[k]);
        proof {
            lemma_push_distinct(visited, nbrs[k]);
            lemma_distinct_len_bound(next);
        }
        let x = search_from(edges, acc, next, 0, next);
        search_from(edges, acc, visited, k + 1, if x.len() > best.len() && acc(x) { x } else { best })
    }
}

/// The paths that end at a neighbor of `start`: those that can be closed into a cycle.
pub open spec fn cycle_accepts(edges: Seq<[usize; 2]>, start: usize) -> spec_fn(Seq<usize>) -> bool {
    |s: Seq<usize>| s.len() > 0 && neighbors_of(edges, start).contains(s.last())
}

/// The cycle that the search finds from `start`: the longest path from `start` that ends at a
/// neighbor of `start`, found first in the order of the search, or just `start` when that path
/// has at most two vertices.
pub open spec fn cycle_found(edges: Seq<[usize; 2]>, start: usize) -> Seq<usize> {
    let r = search_from(edges, cycle_accepts(edges, start), seq![start], 0, seq![start]);
    if r.len() <= 2 {
        seq![start]
    } else {
        r
    }
}

/// The cycle kept by `longest_cycle` after the vertices below `i`: it starts with the cycle
/// from 0, and the cycle from a vertex of degree above one replaces it when strictly longer.
pub open spec fn cycle_record(edges: Seq<[usize; 2]>, i: nat) -> Seq<usize>
    decreases i,
{
    if i == 0 {
        cycle_found(edges, 0)
    } else {
        let r = cycle_record(edges, (i - 1) as nat);
        let v = (i - 1) as usize;
        if neighbors_of(edges, v).len() > 1 && cycle_found(edges, v).len() > r.len() {
            cycle_found(edges, v)
        } else {
            r
        }
    }
}

/// The depth-first search of `dfs`, in its visiting order: from the path `visited`, its last
/// vertex's neighbors are tried in the order of the edges, starting with the `k`-th; a neighbor
/// not on the path is checked first and then searched from, and the first vertex found is the
/// answer.
pub open spec fn dfs_from(edges: Seq<[usize; 2]>, pred: spec_fn(usize) -> bool, visited: Seq<usize>, k: int) -> Option<usize>
    decreases usize::MAX + 1 - visited.len(), neighbors_of(edges, visited.last()).len() - k
    when visited.no_duplicates() && visited.len() >= 1 && 0 <= k
{
    let nbrs = neighbors_of(edges, visited.last());
    if k >= nbrs.len() {
        None
    } else if visited.contains(nbrs[k]) {
        dfs_from(edges, pred, visited, k + 1)
    } else {
        let next = visited.push(nbrs[k]);
        proof {
            lemma_push_distinct(visited, nbrs[k]);
            lemma_distinct_len_bound(next);
        }
        let r = if pred(nbrs[k]) {
            Some(nbrs[k])
        } else {
            dfs_from(edges, pred, next, 0)
        };
        if r is Some {
            r
        } else {
            dfs_from(edges, pred, visited, k + 1)
        }
    }
}

/// The depth-first search from `current`, avoiding the vertices of `visited`.
pub open spec fn dfs_search(edges: Seq<[usize; 2]>, pred: spec_fn(usize) -> bool, visited: Seq<usize>, current: usize) -> Option<usize> {
    if pred(current) {
        Some(current)
    } else {
        dfs_from(edges, pred, visited.push(current), 0)
    }
}

/// The vertices on which `p` can answer true.
pub open spec fn answers_true<P: Fn(&usize) -> bool>(p: P) -> spec_fn(usize) -> bool {
    |u: usize| call_ensures(p, (&u,), true)
}

/// `p` gives one answer for each vertex.
pub open spec fn is_deterministic<P: Fn(&usize) -> bool>(p: P) -> bool {
    forall|v: &usize, r: bool, s: bool| #[trigger] call_ensures(p, (v,), r) && #[trigger] call_ensures(p, (v,), s) ==> r == s
}

/// A sequence of distinct `usize` values has at most `usize::MAX + 1` elements.
pub proof fn lemma_distinct_len_bound(s: Seq<usize>)
    requires
        s.no_duplicates(),
    ensures
        s.len() <= usize::MAX + 1,
{
    s.unique_seq_to_set();
    <usize as FiniteRange>::range_properties(0usize, usize::MAX);
    let full = Set::<usize>::range(0usize, usize::MAX).insert(usize::MAX);
    assert(s.to_set().subset_of(full));
    lemma_len_subset(s.to_set(), full);
}

proof fn lemma_push_contains(s: Seq<usize>, x: usize, b: usize)
    ensures
        s.push(x).contains(b) <==> (s.contains(b) || x == b),
{
    if s.contains(b) {
        let j = choose|j: int| 0 <= j < s.len() && s[j] == b;
        assert(s.push(x)[j] == b);
    }
    if x == b {
        assert(s.push(x)[s.len() as int] == b);
    }
    if s.push(x).contains(b) {
        let j = choose|j: int| 0 <= j < s.len() + 1 && s.push(x)[j] == b;
        if j < s.len() {
            assert(s[j] == b);
        }
    }
}

/// `b` is a neighbor of `a` exactly when an edge joins them.
proof fn lemma_neighbors_adjacent(edges: Seq<[usize; 2]>, a: usize, b: usize)
    ensures
        neighbors_of(edges, a).contains(b) <==> adjacent(edges, a, b),
    decreases edges.len(),
{
    if edges.len() > 0 {
        let init = edges.drop_last();
        lemma_neighbors_adjacent(init, a, b);
        let e = edges.last();
        let rest = neighbors_of(init, a);
        assert(adjacent(edges, a, b) <==> (adjacent(init, a, b) || edge_joins(e, a, b))) by {
            if adjacent(edges, a, b) {
                let k = choose|k: int| 0 <= k < edges.len() && #[trigger] edge_joins(edges[k], a, b);
                if k < edges.len() - 1 {
                    assert(edge_joins(init[k], a, b));
                }
            }
            if adjacent(init, a, b) {
                let k = choose|k: int| 0 <= k < init.len() && #[trigger] edge_joins(init[k], a, b);
                assert(edge_joins(edges[k], a, b));
            }
            if edge_joins(e, a, b) {
                assert(edge_joins(edges[edges.len() - 1], a, b));
            }
        }
        if e[0] == a {
            lemma_push_contains(rest, e[1], b);
        } else if e[1] == a {
            lemma_push_contains(rest, e[0], b);
        }
    } else {
        assert(!adjacent(edges, a, b));
    }
}

/// Sparse graph data structure. Size in memory is O(n) where n is the number of edges
/// Undirected, at most single edge between points, self-loops allowed
/// Vertices are labelled 0, 1, ... nr_verts - 1.
#[derive(Default)]
pub struct SparseGraph {
    nr_verts: usize,
    edges: Vec<[usize; 2]>,  // order of the edges does not matter
}

impl SparseGraph {
    /// The number of vertices.
    pub closed spec fn spec_nr_verts(&self) -> usize {
        self.nr_verts
    }

    /// The edges, in the order they are stored.
    pub closed spec fn spec_edges(&self) -> Seq<[usize; 2]> {
        self.edges@
    }

    pub fn new(nr_verts: usize, edges: Vec<[usize; 2]>) -> (g: Self)
        ensures
            g.spec_nr_verts() == nr_verts,
            g.spec_edges() == edges@,
    {
        SparseGraph { nr_verts, edges }
    }

    /// O(1)
    pub fn get_nr_verts(&self) -> (n: usize)
        ensures
            n == self.spec_nr_verts(),
    {
        self.nr_verts
    }

    /// O(1)
    pub fn get_edges(&self) -> (e: &Vec<[usize; 2]>)
        ensures
            e@ == self.spec_edges(),
    {
        &self.edges
    }

    /// O(1)
    pub fn get_edges_mut(&mut self) -> (e: &mut Vec<[usize; 2]>)
        ensures
            e@ == old(self).spec_edges(),
            final(self).spec_edges() == final(e)@,
            final(self).spec_nr_verts() == old(self).spec_nr_verts(),
    {
        &mut self.edges
    }

    /// O(n) where n is the number of edges
    /// Note that i is its own neighbor if we have a self loop at i
    pub fn get_neighbors(&self, i: &usize) -> (neighbors: Vec<usize>)
        ensures
            neighbors@ == neighbors_of(self.spec_edges(), *i),
    {
        let mut running_neighbors = vec![];
        let mut k: usize = 0;
        while k < self.edges.len()
            invariant
                k <= self.edges@.len(),
                running_neighbors@ == neighbors_of(self.edges@.take(k as int), *i),
            decreases self.edges@.len() - k,
        {
            let edge = self.edges[k];
            assert(self.edges@.take(k + 1).drop_last() =~= self.edges@.take(k as int));
            if edge[0] == *i || edge[1] == *i {
                let a = edge[0];
                let b = edge[1];
                if a == *i {
                    running_neighbors.push(b)
                } else {
                    running_neighbors.push(a)
                }
            }
            k = k + 1;
        }
        assert(self.edges@.take(k as int) =~= self.edges@);
        running_neighbors
    }

    /// O(n) where n is the number of edges
    pub fn get_degree(&self, i: &usize) -> (d: usize)
        ensures
            d == neighbors_of(self.spec_edges(), *i).len(),
    {
        self.get_neighbors(i).len()
    }
}

impl SparseGraph {
    /// One level of the exhaustive search of `longest_path_from_start`: the longest path that
    /// extends `visited` followed by `current` and is accepted by `path_condition` (or that path
    /// itself when no longer one is accepted), with its length.
    #[verifier::loop_isolation(false)]
    fn longest_path_recur<F: Fn(&Vec<usize>) -> bool>(
        &self,
        current: usize,
        prefix: Vec<usize>,
        path_condition: &F,
        Ghost(acc): Ghost<spec_fn(Seq<usize>) -> bool>,
    ) -> (res: (Vec<usize>, usize))
        requires
            is_pure_condition(*path_condition),
            forall|v: &Vec<usize>, r: bool| #[trigger] call_ensures(*path_condition, (v,), r) ==> r == acc(v@),
            is_simple_path(self.spec_edges(), prefix@.push(current)),
        ensures
            res.1 == res.0@.len(),
            is_simple_path(self.spec_edges(), res.0@),
            extends(res.0@, prefix@.push(current)),
            res.0@ == prefix@.push(current) || accepts(*path_condition, res.0@),
            forall|q: Seq<usize>|
                #![trigger rejects(*path_condition, q)]
                is_simple_path(self.spec_edges(), q) && extends(q, prefix@.push(current)) && q.len()
                    > prefix@.len() + 1 && !rejects(*path_condition, q) ==> q.len() <= res.1,
            res.0@ == search_from(self.spec_edges(), acc, prefix@.push(current), 0, prefix@.push(current)),
        decreases usize::MAX + 1 - prefix@.len(),
    {
        let ghost edges = self.spec_edges();
        let ghost entry = prefix@;
        let mut visited = prefix;
        visited.push(current);
        let ghost p = visited@;
        proof {
            lemma_distinct_len_bound(p);
            assert(p.take(p.len() as int) =~= p);
        }
        let mut running_max = visited.len();
        let mut best_path = visited.clone();
        assert(best_path@ =~= p);
        let neighbors = self.get_neighbors(&current);
        let mut idx: usize = 0;
        while idx < neighbors.len()
            invariant
                is_pure_condition(*path_condition),
                edges == self.spec_edges(),
                visited@ == p,
                p == entry.push(current),
                is_simple_path(edges, p),
                p.len() <= usize::MAX + 1,
                p.last() == current,
                neighbors@ == neighbors_of(edges, current),
                idx <= neighbors@.len(),
                running_max == best_path@.len(),
                is_simple_path(edges, best_path@),
                extends(best_path@, p),
                best_path@ == p || accepts(*path_condition, best_path@),
                forall|q: Seq<usize>|
                    #![trigger rejects(*path_condition, q)]
                    is_simple_path(edges, q) && extends(q, p) && q.len() > p.len()
                        && neighbors@.take(idx as int).contains(q[p.len() as int])
                        && !rejects(*path_condition, q) ==> q.len() <= running_max,
                forall|v: &Vec<usize>, r: bool| #[trigger] call_ensures(*path_condition, (v,), r) ==> r == acc(v@),
                search_from(edges, acc, p, idx as int, best_path@) == search_from(edges, acc, p, 0, p),
            decreases neighbors@.len() - idx,
        {
            let neigh = neighbors[idx];
            let ghost old_max = running_max;
            let ghost old_best = best_path@;
            assert(neighbors@[idx as int] == neigh);
            if !vec_contains(&visited, neigh) {
                proof {
                    lemma_neighbors_adjacent(edges, current, neigh);
                    assert(neighbors@.contains(neigh)) by {
                        assert(neighbors@[idx as int] == neigh);
                    }
                    lemma_extend_simple_path(edges, p, neigh);
                }
                let visited_copy = visited.clone();
                assert(visited_copy@ =~= p);
                assert(usize::MAX + 1 - visited_copy@.len() < usize::MAX + 1 - entry.len());
                assert(usize::MAX + 1 - visited_copy@.len() >= 0);
                let (x, y) = self.longest_path_recur(neigh, visited_copy, path_condition, Ghost(acc));
                proof {
                    assert(!p.contains(neigh));
                }
                if y > running_max {
                    let ok = path_condition(&x);
                    proof {
                        lemma_pure_answer(*path_condition, &x, ok);
                        assert(acc(x@) == ok);
                    }
                    if ok {
                        running_max = y;
                        best_path = x;
                        proof {
                            assert(p.push(neigh).take(p.len() as int) =~= p);
                            lemma_extends_trans(best_path@, p.push(neigh), p);
                        }
                    }
                }
                proof {
                    let pn = p.push(neigh);
                    assert forall|q: Seq<usize>|
                        #![trigger rejects(*path_condition, q)]
                        is_simple_path(edges, q) && extends(q, p) && q.len() > p.len()
                            && neighbors@.take(idx + 1).contains(q[p.len() as int])
                            && !rejects(*path_condition, q) implies q.len() <= running_max by {
                        if neighbors@.take(idx as int).contains(q[p.len() as int]) {
                        } else {
                            lemma_take_push_contains(neighbors@, idx as int, q[p.len() as int]);
                            assert(q[p.len() as int] == neigh);
                            lemma_extends_push(q, p, neigh);
                            if q.len() > pn.len() {
                                assert(q.len() <= y);
                            } else {
                                assert(q =~= pn);
                            }
                        }
                    }
                }
            } else {
                proof {
                    assert forall|q: Seq<usize>|
                        #![trigger rejects(*path_condition, q)]
                        is_simple_path(edges, q) && extends(q, p) && q.len() > p.len()
                            && neighbors@.take(idx + 1).contains(q[p.len() as int])
                            && !rejects(*path_condition, q) implies q.len() <= running_max by {
                        if neighbors@.take(idx as int).contains(q[p.len() as int]) {
                        } else {
                            lemma_take_push_contains(neighbors@, idx as int, q[p.len() as int]);
                            assert(q[p.len() as int] == neigh);
                            let j = choose|j: int| 0 <= j < p.len() && p[j] == neigh;
                            assert(q[j] == p[j]);
                        }
                    }
                }
            }
            idx = idx + 1;
        }
        proof {
            assert forall|q: Seq<usize>|
                #![trigger rejects(*path_condition, q)]
                is_simple_path(edges, q) && extends(q, p) && q.len() > p.len() && !rejects(
                    *path_condition,
                    q,
                ) implies q.len() <= running_max by {
                lemma_next_is_neighbor(edges, q, p);
                assert(neighbors@.take(idx as int) =~= neighbors@);
            }
        }
        (best_path, running_max)
    }
}

impl SparseGraph {
    /// `longest_path_from_start`, with `acc` telling what `path_condition` answers.
    fn longest_path_from<F: Fn(&Vec<usize>) -> bool>(
        &self,
        start: &usize,
        path_condition: &F,
        Ghost(acc): Ghost<spec_fn(Seq<usize>) -> bool>,
    ) -> (res: Option<(Vec<usize>, usize)>)
        requires
            is_pure_condition(*path_condition),
            forall|v: &Vec<usize>, r: bool| #[trigger] call_ensures(*path_condition, (v,), r) ==> r == acc(v@),
        ensures
            res is Some,
            res matches Some((path, len)) ==> {
                &&& len == path@.len()
                &&& is_simple_path(self.spec_edges(), path@)
                &&& path@[0] == *start
                &&& path@ == seq![*start] || accepts(*path_condition, path@)
                &&& forall|q: Seq<usize>|
                    #![trigger rejects(*path_condition, q)]
                    is_simple_path(self.spec_edges(), q) && q[0] == *start && q.len() >= 2
                        && !rejects(*path_condition, q) ==> q.len() <= len
                &&& path@ == search_from(self.spec_edges(), acc, seq![*start], 0, seq![*start])
            },
    {
        let visited: Vec<usize> = Vec::new();
        proof {
            assert(visited@.push(*start) =~= seq![*start]);
        }
        let (path, len) = self.longest_path_recur(*start, visited, path_condition, Ghost(acc));
        proof {
            assert(path@.take(1) =~= seq![*start]);
            assert(path@[0] == path@.take(1)[0]);
            assert forall|q: Seq<usize>|
                #![trigger rejects(*path_condition, q)]
                is_simple_path(self.spec_edges(), q) && q[0] == *start && q.len() >= 2
                    && !rejects(*path_condition, q) implies q.len() <= len by {
                assert(q.take(1) =~= seq![*start]);
                assert(extends(q, visited@.push(*start)));
            }
        }
        Some((path, len))
    }

    /// Exhaustively search for the path satisfying path_condition which is as long as possible
    /// (if any exists)
    /// Variant of depth-first search: the neighbors are tried in the order of the edges, and a
    /// path replaces the best one found so far only when it is strictly longer.
    pub fn longest_path_from_start<F: Fn(&Vec<usize>) -> bool>(
        &self,
        start: &usize,
        path_condition: &F,
    ) -> (res: Option<(Vec<usize>, usize)>)
        requires
            is_pure_condition(*path_condition),
        ensures
            res is Some,
            res matches Some((path, len)) ==> {
                &&& len == path@.len()
                &&& is_simple_path(self.spec_edges(), path@)
                &&& path@[0] == *start
                &&& path@ == seq![*start] || accepts(*path_condition, path@)
                &&& forall|q: Seq<usize>|
                    #![trigger rejects(*path_condition, q)]
                    is_simple_path(self.spec_edges(), q) && q[0] == *start && q.len() >= 2
                        && !rejects(*path_condition, q) ==> q.len() <= len
                &&& path@ == search_from(
                    self.spec_edges(),
                    accepted_by(*path_condition),
                    seq![*start],
                    0,
                    seq![*start],
                )
            },
    {
        proof {
            assert forall|v: &Vec<usize>, r: bool| #[trigger] call_ensures(*path_condition, (v,), r) implies r
                == accepted_by(*path_condition)(v@) by {
                lemma_pure_answer(*path_condition, v, r);
            }
        }
        self.longest_path_from(start, path_condition, Ghost(accepted_by(*path_condition)))
    }

    /// The longest cycle through `start`, or just `start` when there is none.
    pub fn longest_cycle_starting_at(&self, start: &usize) -> (cycle: Vec<usize>)
        ensures
            cycle@.len() >= 1,
            cycle@[0] == *start,
            cycle@ == seq![*start] || is_cycle_from(self.spec_edges(), cycle@, *start),
            forall|c: Seq<usize>|
                #[trigger] is_cycle_from(self.spec_edges(), c, *start) ==> c.len() <= cycle@.len(),
            cycle@ == cycle_found(self.spec_edges(), *start),
    {
        let ghost edges = self.spec_edges();
        let neighs_of_start: Vec<usize> = self.get_neighbors(start);

        let cond = |p: &Vec<usize>| -> (r: bool)
            ensures
                r == (p@.len() > 0 && neighs_of_start@.contains(p@.last())),
            {
                if p.len() > 0 {
                    vec_contains(&neighs_of_start, p[p.len() - 1])
                } else {
                    false
                }
            };
        proof {
            assert forall|v: &Vec<usize>, w: &Vec<usize>, r: bool, s: bool|
                v@ == w@ && #[trigger] call_ensures(cond, (v,), r) && #[trigger] call_ensures(
                    cond,
                    (w,),
                    s,
                ) implies r == s by {}
            assert forall|v: &Vec<usize>| #[trigger] call_requires(cond, (v,)) by {}
        }
        let res = self.longest_path_from(start, &cond, Ghost(cycle_accepts(edges, *start)));

        // edge case handling, loops of length 2 require a double edge, or no edges at the start
        let result = match res {
            Some((path, len)) => {
                if len <= 2 {
                    vec![*start]
                } else {
                    proof {
                        let w = choose|w: &Vec<usize>| w@ == path@ && #[trigger] call_ensures(cond, (w,), true);
                        assert(call_ensures(cond, (w,), true));
                        lemma_neighbors_adjacent(edges, *start, path@.last());
                        lemma_adjacent_symmetric(edges, *start, path@.last());
                    }
                    path
                }
            },
            None => vec![*start],
        };
        proof {
            assert forall|c: Seq<usize>| #[trigger] is_cycle_from(edges, c, *start) implies c.len()
                <= result@.len() by {
                lemma_adjacent_symmetric(edges, c.last(), *start);
                lemma_neighbors_adjacent(edges, *start, c.last());
                if rejects(cond, c) {
                    let v = choose|v: &Vec<usize>| v@ == c && #[trigger] call_ensures(cond, (v,), false);
                    assert(call_ensures(cond, (v,), false));
                }
            }
        }
        result
    }

    /// Find a maximal length cycle in the graph
    pub fn longest_cycle(&self) -> (cycle: Vec<usize>)
        ensures
            cycle@.len() >= 1,
            cycle@ == seq![0usize] || is_cycle_from(self.spec_edges(), cycle@, cycle@[0]),
            cycle@[0] == 0 || cycle@[0] < self.spec_nr_verts(),
            forall|c: Seq<usize>|
                #[trigger] is_cycle_from(self.spec_edges(), c, c[0]) && (c[0] == 0 || c[0]
                    < self.spec_nr_verts()) ==> c.len() <= cycle@.len(),
            cycle@ == cycle_record(self.spec_edges(), self.spec_nr_verts() as nat),
    {
        let ghost edges = self.spec_edges();
        let mut record_cycle = self.longest_cycle_starting_at(&0);
        let mut record_length = record_cycle.len();

        // loop over all vertices to visit
        let mut i: usize = 0;
        while i < self.nr_verts
            invariant
                edges == self.spec_edges(),
                i <= self.spec_nr_verts(),
                record_length == record_cycle@.len(),
                record_cycle@.len() >= 1,
                record_cycle@ == seq![0usize] || is_cycle_from(edges, record_cycle@, record_cycle@[0]),
                record_cycle@[0] == 0 || record_cycle@[0] < self.spec_nr_verts(),
                forall|c: Seq<usize>|
                    #[trigger] is_cycle_from(edges, c, c[0]) && (c[0] == 0 || c[0] < i) ==> c.len()
                        <= record_cycle@.len(),
                record_cycle@ == cycle_record(edges, i as nat),
            decreases self.spec_nr_verts() - i,
        {
            // degree-1 vertices can never be part of a strictly longer cycle than the trivial one
            if self.get_degree(&i) > 1 {
                let path = self.longest_cycle_starting_at(&i);
                if path.len() > record_length {
                    record_length = path.len();
                    record_cycle = path;
                }
            } else {
                proof {
                    assert forall|c: Seq<usize>| #[trigger] is_cycle_from(edges, c, c[0]) && c[0] == i
                        implies false by {
                        lemma_cycle_degree(edges, c);
                    }
                }
            }
            i = i + 1;
        }
        record_cycle
    }
}

/// No vertex of `q` is in `visited`.
pub open spec fn avoids(q: Seq<usize>, visited: Seq<usize>) -> bool {
    forall|j: int| 0 <= j < q.len() ==> !visited.contains(#[trigger] q[j])
}

impl SparseGraph {
    /// One level of `dfs`: the first vertex, in visiting order, that satisfies `p` and is reached
    /// from `current` without passing through `visited`.
    #[verifier::loop_isolation(false)]
    fn dfs_recur<P: Fn(&usize) -> bool>(
        &self,
        current: usize,
        visited: Vec<usize>,
        p: &P,
        Ghost(pred): Ghost<spec_fn(usize) -> bool>,
    ) -> (res: Option<usize>)
        requires
            forall|v: &usize| #[trigger] call_requires(*p, (v,)),
            visited@.push(current).no_duplicates(),
        ensures
            (forall|v: &usize, r: bool| #[trigger] call_ensures(*p, (v,), r) ==> r == pred(*v)) ==> res
                == dfs_search(self.spec_edges(), pred, visited@, current),
            res matches Some(v) ==> call_ensures(*p, (&v,), true) && exists|q: Seq<usize>|
                #[trigger] is_simple_path(self.spec_edges(), q) && q[0] == current && q.last() == v
                    && avoids(q, visited@),
            res is None ==> forall|q: Seq<usize>|
                #[trigger] is_simple_path(self.spec_edges(), q) && q[0] == current && avoids(
                    q,
                    visited@,
                ) ==> call_ensures(*p, (&q.last(),), false),
        decreases usize::MAX + 1 - visited@.len(),
    {
        let ghost edges = self.spec_edges();
        let ghost entry = visited@;
        proof {
            lemma_no_dup_push_fresh(entry, current);
        }
        if p(&current) {
            proof {
                let q = seq![current];
                assert(avoids(q, visited@));
                assert(is_simple_path(edges, q));
                assert(q.last() == current);
            }
            return Some(current);
        }
        let mut visited = visited;
        visited.push(current);
        let ghost w = visited@;
        proof {
            lemma_distinct_len_bound(w);
        }
        let neighbors = self.get_neighbors(&current);
        let mut idx: usize = 0;
        while idx < neighbors.len()
            invariant
                visited@ == w,
                w == entry.push(current),
                idx <= neighbors@.len(),
                neighbors@ == neighbors_of(edges, current),
                forall|q: Seq<usize>|
                    #[trigger] is_simple_path(edges, q) && q[0] == current && avoids(q, entry)
                        && q.len() >= 2 && neighbors@.take(idx as int).contains(q[1])
                        ==> call_ensures(*p, (&q.last(),), false),
                (forall|v: &usize, r: bool| #[trigger] call_ensures(*p, (v,), r) ==> r == pred(*v)) ==> (
                !pred(current) && dfs_from(edges, pred, w, idx as int) == dfs_from(edges, pred, w, 0)),
            decreases neighbors@.len() - idx,
        {
            let neigh = neighbors[idx];
            if !vec_contains(&visited, neigh) {
                let visited_copy = visited.clone();
                assert(visited_copy@ =~= w);
                proof {
                    lemma_push_no_dup(w, neigh);
                }
                let found = self.dfs_recur(neigh, visited_copy, p, Ghost(pred));
                proof {
                    assert(neighbors@[idx as int] == neigh);
                    assert(!w.contains(neigh));
                }
                match found {
                    Some(x) => {
                        proof {
                            let q1 = choose|q1: Seq<usize>|
                                #[trigger] is_simple_path(edges, q1) && q1[0] == neigh && q1.last()
                                    == x && avoids(q1, w);
                            let q = seq![current] + q1;
                            lemma_neighbors_adjacent(edges, current, neigh);
                            assert(neighbors@[idx as int] == neigh);
                            lemma_prepend_simple_path(edges, current, q1, entry);
                            assert(q.last() == x);
                        }
                        return Some(x);
                    },
                    None => {},
                }
                proof {
                    assert forall|q: Seq<usize>|
                        #[trigger] is_simple_path(edges, q) && q[0] == current && avoids(q, entry)
                            && q.len() >= 2 && neighbors@.take(idx + 1).contains(q[1]) implies call_ensures(
                        *p,
                        (&q.last(),),
                        false,
                    ) by {
                        if !neighbors@.take(idx as int).contains(q[1]) {
                            lemma_take_push_contains(neighbors@, idx as int, q[1]);
                            lemma_drop_first_simple_path(edges, q, entry);
                            assert(q.drop_first().last() == q.last());
                        }
                    }
                }
            } else {
                proof {
                    assert forall|q: Seq<usize>|
                        #[trigger] is_simple_path(edges, q) && q[0] == current && avoids(q, entry)
                            && q.len() >= 2 && neighbors@.take(idx + 1).contains(q[1]) implies call_ensures(
                        *p,
                        (&q.last(),),
                        false,
                    ) by {
                        if !neighbors@.take(idx as int).contains(q[1]) {
                            lemma_take_push_contains(neighbors@, idx as int, q[1]);
                            lemma_push_contains(entry, current, q[1]);
                            if entry.contains(q[1]) {
                                assert(!entry.contains(q[1]));
                            }
                            assert(q[0] != q[1]);
                        }
                    }
                }
            }
            idx = idx + 1;
        }
        proof {
            assert forall|q: Seq<usize>|
                #[trigger] is_simple_path(edges, q) && q[0] == current && avoids(q, entry) implies call_ensures(
                *p,
                (&q.last(),),
                false,
            ) by {
                if q.len() >= 2 {
                    assert(q.take(1) =~= seq![current]);
                    lemma_next_is_neighbor(edges, q, seq![current]);
                    assert(neighbors@.take(idx as int) =~= neighbors@);
                } else {
                    assert(q.last() == current);
                }
            }
        }
        None
    }

    /// Depth-first search, return the first (in visiting order) that satisfies the input predicate p
    /// Search starts at the start vector and goes only through its connected component
    pub fn dfs<P: Fn(&usize) -> bool>(&self, start: &usize, p: P) -> (res: Option<usize>)
        requires
            forall|v: &usize| #[trigger] call_requires(p, (v,)),
        ensures
            res matches Some(v) ==> call_ensures(p, (&v,), true) && reaches(
                self.spec_edges(),
                *start,
                v,
            ),
            res is None ==> forall|v: usize|
                reaches(self.spec_edges(), *start, v) ==> #[trigger] call_ensures(p, (&v,), false),
            is_deterministic(p) ==> res == dfs_search(self.spec_edges(), answers_true(p), seq![], *start),
    {
        let visited: Vec<usize> = Vec::new();
        proof {
            assert(visited@.push(*start) =~= seq![*start]);
        }
        let res = self.dfs_recur(*start, visited, &p, Ghost(answers_true(p)));
        proof {
            if is_deterministic(p) {
                assert forall|v: &usize, r: bool| #[trigger] call_ensures(p, (v,), r) implies r == answers_true(p)(*v) by {
                    if !r {
                        if call_ensures(p, (v,), true) {
                            assert(call_ensures(p, (v,), true) && call_ensures(p, (v,), false));
                        }
                    }
                }
                assert(visited@ =~= Seq::<usize>::empty());
            }
            if res is None {
                assert forall|v: usize| reaches(self.spec_edges(), *start, v) implies #[trigger] call_ensures(
                    p,
                    (&v,),
                    false,
                ) by {
                    let q = choose|q: Seq<usize>|
                        #[trigger] is_simple_path(self.spec_edges(), q) && q[0] == *start && q.last() == v;
                    assert(avoids(q, visited@));
                }
            }
        }
        res
    }
}

proof fn lemma_no_dup_push_fresh(w: Seq<usize>, v: usize)
    requires
        w.push(v).no_duplicates(),
    ensures
        !w.contains(v),
        w.no_duplicates(),
{
    if w.contains(v) {
        let t = choose|t: int| 0 <= t < w.len() && w[t] == v;
        assert(w.push(v)[t] == w.push(v)[w.len() as int]);
    }
    assert forall|i: int, j: int| 0 <= i < j < w.len() implies w[i] != w[j] by {
        assert(w.push(v)[i] != w.push(v)[j]);
    }
}

proof fn lemma_push_no_dup(w: Seq<usize>, v: usize)
    requires
        w.no_duplicates(),
        !w.contains(v),
    ensures
        w.push(v).no_duplicates(),
{
    assert forall|i: int, j: int| 0 <= i < j < w.push(v).len() implies w.push(v)[i] != w.push(
        v,
    )[j] by {
        if j == w.len() {
            assert(w.contains(w[i]));
        }
    }
}

/// Putting a vertex adjacent to the first one in front of a simple path that avoids it and
/// the vertices `visited` gives a simple path that avoids `visited`.
proof fn lemma_prepend_simple_path(
    edges: Seq<[usize; 2]>,
    v: usize,
    q: Seq<usize>,
    visited: Seq<usize>,
)
    requires
        is_simple_path(edges, q),
        avoids(q, visited.push(v)),
        !visited.contains(v),
        adjacent(edges, v, q[0]),
    ensures
        is_simple_path(edges, seq![v] + q),
        avoids(seq![v] + q, visited),
        (seq![v] + q)[0] == v,
        (seq![v] + q).last() == q.last(),
{
    let r = seq![v] + q;
    assert forall|k: int| 0 <= k < r.len() - 1 implies #[trigger] step_ok(edges, r, k) by {
        if k > 0 {
            assert(step_ok(edges, q, k - 1));
        }
    }
    assert forall|i: int, j: int| 0 <= i < j < r.len() implies r[i] != r[j] by {
        if i == 0 {
            assert(!visited.push(v).contains(q[j - 1]));
            assert(visited.push(v)[visited.len() as int] == v);
        }
    }
    assert forall|j: int| 0 <= j < r.len() implies !visited.contains(#[trigger] r[j]) by {
        if j > 0 {
            assert(!visited.push(v).contains(q[j - 1]));
            if visited.contains(q[j - 1]) {
                let t = choose|t: int| 0 <= t < visited.len() && visited[t] == q[j - 1];
                assert(visited.push(v)[t] == q[j - 1]);
            }
        }
    }
}

/// Dropping the first vertex of a simple path that avoids `visited` gives a simple path from
/// the second vertex that avoids `visited` and the first vertex.
proof fn lemma_drop_first_simple_path(edges: Seq<[usize; 2]>, q: Seq<usize>, visited: Seq<usize>)
    requires
        is_simple_path(edges, q),
        q.len() >= 2,
        avoids(q, visited),
    ensures
        is_simple_path(edges, q.drop_first()),
        avoids(q.drop_first(), visited.push(q[0])),
{
    let r = q.drop_first();
    assert forall|k: int| 0 <= k < r.len() - 1 implies #[trigger] step_ok(edges, r, k) by {
        assert(step_ok(edges, q, k + 1));
    }
    assert forall|j: int| 0 <= j < r.len() implies !visited.push(q[0]).contains(#[trigger] r[j]) by {
        lemma_push_contains(visited, q[0], r[j]);
        assert(q[j + 1] != q[0]);
    }
}

/// Edges join their ends either way round.
proof fn lemma_adjacent_symmetric(edges: Seq<[usize; 2]>, a: usize, b: usize)
    ensures
        adjacent(edges, a, b) == adjacent(edges, b, a),
{
    if adjacent(edges, a, b) {
        let k = choose|k: int| 0 <= k < edges.len() && #[trigger] edge_joins(edges[k], a, b);
        assert(edge_joins(edges[k], b, a));
    }
    if adjacent(edges, b, a) {
        let k = choose|k: int| 0 <= k < edges.len() && #[trigger] edge_joins(edges[k], b, a);
        assert(edge_joins(edges[k], a, b));
    }
}

/// A vertex on a cycle has at least two neighbor entries: the next and the last vertex.
proof fn lemma_cycle_degree(edges: Seq<[usize; 2]>, c: Seq<usize>)
    requires
        is_cycle_from(edges, c, c[0]),
    ensures
        neighbors_of(edges, c[0]).len() >= 2,
{
    let n = neighbors_of(edges, c[0]);
    assert(step_ok(edges, c, 0));
    lemma_neighbors_adjacent(edges, c[0], c[1]);
    lemma_adjacent_symmetric(edges, c.last(), c[0]);
    lemma_neighbors_adjacent(edges, c[0], c.last());
    assert(c[1] != c[c.len() - 1]);
    if n.len() < 2 {
        let j1 = choose|j: int| 0 <= j < n.len() && n[j] == c[1];
        let j2 = choose|j: int| 0 <= j < n.len() && n[j] == c.last();
        assert(j1 == 0 && j2 == 0);
    }
}

/// Does `v` hold `x`?
pub(crate) fn vec_contains(v: &Vec<usize>, x: usize) -> (r: bool)
    ensures
        r == v@.contains(x),
{
    let mut k: usize = 0;
    while k < v.len()
        invariant
            k <= v@.len(),
            forall|j: int| 0 <= j < k ==> v@[j] != x,
        decreases v@.len() - k,
    {
        if v[k] == x {
            return true;
        }
        k = k + 1;
    }
    false
}

/// What a pure condition answers on a vector is whether it accepts the vector's contents.
proof fn lemma_pure_answer<F: Fn(&Vec<usize>) -> bool>(cond: F, v: &Vec<usize>, r: bool)
    requires
        is_pure_condition(cond),
        call_ensures(cond, (v,), r),
    ensures
        r == accepts(cond, v@),
        r != rejects(cond, v@),
{
    if accepts(cond, v@) {
        let w = choose|w: &Vec<usize>| w@ == v@ && #[trigger] call_ensures(cond, (w,), true);
        assert(call_ensures(cond, (w,), true));
    }
    if rejects(cond, v@) {
        let w = choose|w: &Vec<usize>| w@ == v@ && #[trigger] call_ensures(cond, (w,), false);
        assert(call_ensures(cond, (w,), false));
    }
}

/// Under a pure condition no contents are both accepted and rejected.
proof fn lemma_pure_consistent<F: Fn(&Vec<usize>) -> bool>(cond: F, s: Seq<usize>)
    requires
        is_pure_condition(cond),
        accepts(cond, s),
    ensures
        !rejects(cond, s),
{
    let w = choose|w: &Vec<usize>| w@ == s && #[trigger] call_ensures(cond, (w,), true);
    if rejects(cond, s) {
        let v = choose|v: &Vec<usize>| v@ == s && #[trigger] call_ensures(cond, (v,), false);
        assert(call_ensures(cond, (w,), true) && call_ensures(cond, (v,), false));
    }
}

/// Appending a vertex adjacent to the last one and not yet visited keeps a path simple.
proof fn lemma_extend_simple_path(edges: Seq<[usize; 2]>, p: Seq<usize>, v: usize)
    requires
        is_simple_path(edges, p),
        !p.contains(v),
        adjacent(edges, p.last(), v),
    ensures
        is_simple_path(edges, p.push(v)),
{
    let q = p.push(v);
    assert forall|k: int| 0 <= k < q.len() - 1 implies #[trigger] step_ok(edges, q, k) by {
        if k < p.len() - 1 {
            assert(step_ok(edges, p, k));
        }
    }
    assert forall|i: int, j: int| 0 <= i < j < q.len() implies q[i] != q[j] by {
        if j == p.len() {
            assert(p.contains(p[i]) || true);
            if q[i] == v {
                assert(p.contains(v));
            }
        }
    }
}

proof fn lemma_extends_trans(a: Seq<usize>, b: Seq<usize>, c: Seq<usize>)
    requires
        extends(a, b),
        extends(b, c),
    ensures
        extends(a, c),
{
    assert(a.take(c.len() as int) =~= b.take(c.len() as int));
}

/// A path that extends `p` and has `v` next extends `p` followed by `v`.
proof fn lemma_extends_push(q: Seq<usize>, p: Seq<usize>, v: usize)
    requires
        extends(q, p),
        q.len() > p.len(),
        q[p.len() as int] == v,
    ensures
        extends(q, p.push(v)),
{
    assert(q.take(p.len() as int + 1) =~= p.push(v)) by {
        assert forall|j: int| 0 <= j < p.len() implies q.take(p.len() as int + 1)[j] == p[j] by {
            assert(q.take(p.len() as int)[j] == q[j]);
        }
    }
}

proof fn lemma_take_push_contains(s: Seq<usize>, i: int, x: usize)
    requires
        0 <= i < s.len(),
        s.take(i + 1).contains(x),
    ensures
        s.take(i).contains(x) || s[i] == x,
{
    assert(s.take(i + 1) =~= s.take(i).push(s[i]));
    lemma_push_contains(s.take(i), s[i], x);
}

/// The vertex that follows `p` on a simple path extending `p` is a neighbor of `p`'s last vertex.
proof fn lemma_next_is_neighbor(edges: Seq<[usize; 2]>, q: Seq<usize>, p: Seq<usize>)
    requires
        is_simple_path(edges, q),
        extends(q, p),
        p.len() >= 1,
        q.len() > p.len(),
    ensures
        neighbors_of(edges, p.last()).contains(q[p.len() as int]),
{
    assert(step_ok(edges, q, p.len() - 1));
    assert(q[p.len() - 1] == q.take(p.len() as int)[p.len() - 1]);
    lemma_neighbors_adjacent(edges, p.last(), q[p.len() as int]);
}

} // verus!
