//! An unweighted, undirected graph over vertices `0 .. n`, stored as
//! adjacency lists, with breadth-first traversal.
//!
//! The traversal contract pins the visit order exactly, as the worklist
//! recursion `bfs_from`, and states its consequences outright: the order
//! starts at the requested vertex, never repeats a vertex, every later vertex
//! is a neighbour of an earlier one, and every neighbour of a visited vertex
//! is visited — precisely the vertices reachable from the start, first-in
//! first-out.

use vstd::prelude::*;

use vstd::pervasive::VecAdditionalExecFns;

verus! {

/// An adjacency-list graph on vertices `0 .. vertex_count()`.
pub struct Graph {
    adj: Vec<Vec<usize>>,
}

impl Graph {
    /// How many vertices the graph has.
    pub closed spec fn vertex_count(self) -> nat {
        self.adj@.len()
    }

    /// The neighbour list of vertex `u`.
    pub closed spec fn adj_of(self, u: int) -> Seq<usize> {
        self.adj@[u]@
    }

    /// Every recorded neighbour is a valid vertex.
    pub open spec fn well_formed(self) -> bool {
        forall|u: int, k: int|
            0 <= u < self.vertex_count() && 0 <= k < self.adj_of(u).len() ==> #[trigger] self.adj_of(
                u,
            )[k] < self.vertex_count()
    }

    /// The arguments on which the traversal recursion is defined: distinct
    /// visited vertices, and only valid vertex numbers on either list.
    pub open spec fn bfs_state_ok(self, queue: Seq<usize>, visited: Seq<usize>) -> bool {
        &&& self.well_formed()
        &&& visited.no_duplicates()
        &&& forall|i: int| 0 <= i < visited.len() ==> #[trigger] visited[i] < self.vertex_count()
        &&& forall|i: int| 0 <= i < queue.len() ==> #[trigger] queue[i] < self.vertex_count()
    }

    /// The breadth-first worklist recursion, one step per queue entry: the
    /// front of the queue is dropped when already visited, and otherwise is
    /// appended to the visit order with its neighbour list joining the back of
    /// the queue — exactly the first-in-first-out traversal
    /// `bfs_with_return` performs.
    pub open spec fn bfs_from(self, queue: Seq<usize>, visited: Seq<usize>) -> Seq<usize>
        decreases self.vertex_count() - visited.len(), queue.len(),
            when self.bfs_state_ok(queue, visited)
    {
        if queue.len() == 0 {
            visited
        } else if visited.contains(queue[0]) {
            self.bfs_from(queue.drop_first(), visited)
        } else {
            proof {
                assert(visited.push(queue[0]).no_duplicates());
                lemma_nodup_bounded_len(visited.push(queue[0]), self.vertex_count());
            }
            self.bfs_from(
                queue.drop_first() + self.adj_of(queue[0] as int),
                visited.push(queue[0]),
            )
        }
    }

    /// The complete breadth-first visit order from `start`.
    pub open spec fn bfs_spec(self, start: usize) -> Seq<usize> {
        self.bfs_from(seq![start], Seq::empty())
    }

    /// A graph with `n` vertices and no edges.
    pub fn new(n: usize) -> (g: Self)
        ensures
            g.vertex_count() == n,
            forall|u: int| 0 <= u < n ==> #[trigger] g.adj_of(u) == Seq::<usize>::empty(),
            g.well_formed(),
    {
        let mut adj: Vec<Vec<usize>> = Vec::new();
        let mut i: usize = 0;
        while i < n
            invariant
                i <= n,
                adj@.len() == i,
                forall|u: int| 0 <= u < i ==> #[trigger] adj@[u]@ == Seq::<usize>::empty(),
            decreases n - i,
        {
            adj.push(Vec::new());
            i = i + 1;
        }
        Graph { adj }
    }

    /// Record the undirected edge `src -- dest`: `dest` is appended to `src`'s
    /// neighbour list and `src` to `dest`'s (twice to the same list for a
    /// self-loop).
    pub fn add_edge(&mut self, src: usize, dest: usize)
        requires
            src < old(self).vertex_count(),
            dest < old(self).vertex_count(),
        ensures
            final(self).vertex_count() == old(self).vertex_count(),
            src != dest ==> final(self).adj_of(src as int) == old(self).adj_of(src as int).push(
                dest,
            ),
            src != dest ==> final(self).adj_of(dest as int) == old(self).adj_of(dest as int).push(
                src,
            ),
            src == dest ==> final(self).adj_of(src as int) == old(self).adj_of(src as int).push(
                dest,
            ).push(src),
            forall|u: int|
                0 <= u < old(self).vertex_count() && u != src && u != dest
                    ==> #[trigger] final(self).adj_of(u) == old(self).adj_of(u),
            old(self).well_formed() ==> final(self).well_formed(),
    {
        let mut row: Vec<usize> = Vec::new();
        self.adj.set_and_swap(src, &mut row);
        row.push(dest);
        self.adj.set_and_swap(src, &mut row);
        let mut row2: Vec<usize> = Vec::new();
        self.adj.set_and_swap(dest, &mut row2);
        row2.push(src);
        self.adj.set_and_swap(dest, &mut row2);
        proof {
            if old(self).well_formed() {
                assert forall|u: int, k: int|
                    0 <= u < self.vertex_count() && 0 <= k < self.adj_of(u).len() implies #[trigger] self.adj_of(
                    u,
                )[k] < self.vertex_count() by {
                    if u != src as int && u != dest as int {
                        assert(self.adj_of(u) == old(self).adj_of(u));
                        assert(old(self).adj_of(u)[k] < old(self).vertex_count());
                    } else if k < old(self).adj_of(u).len() {
                        assert(self.adj_of(u)[k] == old(self).adj_of(u)[k]);
                        assert(old(self).adj_of(u)[k] < old(self).vertex_count());
                    }
                }
            }
        }
    }

    /// Breadth-first traversal from `start`: the order of first visits,
    /// pinned exactly by the worklist recursion `bfs_spec`.
    ///
    /// The result starts with `start`, repeats no vertex, holds only valid
    /// vertices, each later entry is a neighbour of an earlier one, and every
    /// neighbour of an entry is itself an entry: the entries are exactly the
    /// vertices reachable from `start`, in first-in-first-out order.
    pub fn bfs_with_return(&self, start: usize) -> (order: Vec<usize>)
        requires
            self.well_formed(),
            start < self.vertex_count(),
        ensures
            order@ == self.bfs_spec(start),
            order@.len() >= 1,
            order@[0] == start,
            order@.no_duplicates(),
            forall|k: int| 0 <= k < order@.len() ==> #[trigger] order@[k] < self.vertex_count(),
            forall|k: int|
                1 <= k < order@.len() ==> exists|m: int|
                    0 <= m < k && self.adj_of(order@[m] as int).contains(#[trigger] order@[k]),
            forall|k: int, j: int|
                0 <= k < order@.len() && 0 <= j < self.adj_of(order@[k] as int).len()
                    ==> order@.contains(#[trigger] self.adj_of(order@[k] as int)[j]),
    {
        let ghost n = self.vertex_count();
        let mut order: Vec<usize> = Vec::new();
        let mut queue: std::collections::VecDeque<usize> = std::collections::VecDeque::new();
        queue.push_back(start);
        proof {
            assert(queue@ =~= seq![start]);
        }
        while queue.len() > 0
            invariant
                self.bfs_from(queue@, order@) == self.bfs_spec(start),
                self.well_formed(),
                start < n,
                n == self.vertex_count(),
                order@.no_duplicates(),
                forall|k: int| 0 <= k < order@.len() ==> #[trigger] order@[k] < n,
                forall|k: int| 0 <= k < queue@.len() ==> #[trigger] queue@[k] < n,
                order@.len() == 0 ==> queue@ == seq![start],
                order@.len() >= 1 ==> order@[0] == start,
                forall|k: int|
                    1 <= k < order@.len() ==> exists|m: int|
                        0 <= m < k && self.adj_of(order@[m] as int).contains(#[trigger] order@[k]),
                forall|k: int|
                    0 <= k < queue@.len() ==> #[trigger] queue@[k] == start || exists|m: int|
                        0 <= m < order@.len() && self.adj_of(order@[m] as int).contains(
                            queue@[k],
                        ),
                forall|k: int, j: int|
                    0 <= k < order@.len() && 0 <= j < self.adj_of(order@[k] as int).len()
                        ==> order@.contains(#[trigger] self.adj_of(order@[k] as int)[j])
                        || queue@.contains(self.adj_of(order@[k] as int)[j]),
            decreases n - order@.len(), queue@.len(),
        {
            let ghost queue0 = queue@;
            let node = queue.pop_front().unwrap();
            if !vec_contains(&order, node) {
                let ghost order0 = order@;
                order.push(node);
                proof {
                    lemma_nodup_bounded_len(order@, n);
                    assert(queue0[0] == node);
                    assert(node == start || exists|m: int|
                        0 <= m < order0.len() && self.adj_of(order0[m] as int).contains(node));
                    assert forall|k: int| 1 <= k < order@.len() implies exists|m: int|
                        0 <= m < k && self.adj_of(order@[m] as int).contains(
                        #[trigger] order@[k],
                    ) by {
                        if k == order0.len() {
                            if node == start {
                                assert(order0[0] == start);
                                assert(order0.contains(start));
                                assert(false);
                            } else {
                                let m = choose|m: int|
                                    0 <= m < order0.len() && self.adj_of(
                                        order0[m] as int,
                                    ).contains(node);
                                assert(order@[m] == order0[m]);
                                assert(self.adj_of(order@[m] as int).contains(order@[k]));
                            }
                        } else {
                            assert(order0[k] == order@[k]);
                            let m = choose|m: int|
                                0 <= m < k && self.adj_of(order0[m] as int).contains(order0[k]);
                            assert(order@[m] == order0[m]);
                            assert(self.adj_of(order@[m] as int).contains(order@[k]));
                        }
                    }
                    assert forall|k: int|
                        0 <= k < queue@.len() implies #[trigger] queue@[k] == start || exists|m: int|
                        0 <= m < order@.len() && self.adj_of(order@[m] as int).contains(
                            queue@[k],
                        ) by {
                        assert(queue@[k] == queue0[k + 1]);
                        if queue0[k + 1] != start {
                            let m = choose|m: int|
                                0 <= m < order0.len() && self.adj_of(order0[m] as int).contains(
                                    queue0[k + 1],
                                );
                            assert(order@[m] == order0[m]);
                            assert(self.adj_of(order@[m] as int).contains(queue@[k]));
                        }
                    }
                    assert(order@.contains(node)) by {
                        assert(order@.last() == node);
                    }
                    assert(queue@ =~= queue0.drop_first() + self.adj_of(node as int).subrange(
                        0,
                        0,
                    ));
                    assert forall|k: int, jj: int|
                        0 <= k < order@.len() && 0 <= jj < self.adj_of(order@[k] as int).len()
                            && !(k == order@.len() - 1) implies order@.contains(
                        #[trigger] self.adj_of(order@[k] as int)[jj],
                    ) || queue@.contains(self.adj_of(order@[k] as int)[jj]) by {
                        assert(order@[k] == order0[k]);
                        let x = self.adj_of(order0[k] as int)[jj];
                        assert(order0.contains(x) || queue0.contains(x));
                        if order0.contains(x) {
                            let w = choose|w: int| 0 <= w < order0.len() && order0[w] == x;
                            assert(order@[w] == x);
                        } else {
                            let w = choose|w: int| 0 <= w < queue0.len() && queue0[w] == x;
                            if w == 0 {
                                assert(x == node);
                            } else {
                                assert(queue@[w - 1] == queue0[w]);
                            }
                        }
                    }
                }
                let row = &self.adj[node];
                let mut j: usize = 0;
                while j < row.len()
                    invariant
                        self.well_formed(),
                        n == self.vertex_count(),
                        row@ == self.adj_of(node as int),
                        (node as int) < n,
                        j <= row@.len(),
                        order@.no_duplicates(),
                        order@.len() >= 1,
                        order@[0] == start,
                        order@.last() == node,
                        queue@ == queue0.drop_first() + self.adj_of(node as int).subrange(
                            0,
                            j as int,
                        ),
                        forall|k: int| 0 <= k < order@.len() ==> #[trigger] order@[k] < n,
                        forall|k: int| 0 <= k < queue@.len() ==> #[trigger] queue@[k] < n,
                        forall|k: int|
                            1 <= k < order@.len() ==> exists|m: int|
                                0 <= m < k && self.adj_of(order@[m] as int).contains(
                                    #[trigger] order@[k],
                                ),
                        forall|k: int|
                            0 <= k < queue@.len() ==> #[trigger] queue@[k] == start || exists|m: int|
                                0 <= m < order@.len() && self.adj_of(
                                    order@[m] as int,
                                ).contains(queue@[k]),
                        forall|k: int, jj: int|
                            0 <= k < order@.len() && 0 <= jj < self.adj_of(order@[k] as int).len()
                                && !(k == order@.len() - 1 && jj >= j) ==> order@.contains(
                                #[trigger] self.adj_of(order@[k] as int)[jj],
                            ) || queue@.contains(self.adj_of(order@[k] as int)[jj]),
                    decreases row@.len() - j,
                {
                    let ghost q0 = queue@;
                    queue.push_back(row[j]);
                    proof {
                        assert(queue@ == q0.push(row@[j as int]));
                        assert(queue@.contains(row@[j as int])) by {
                            assert(queue@[q0.len() as int] == row@[j as int]);
                        }
                        assert(queue@ =~= queue0.drop_first() + self.adj_of(
                            node as int,
                        ).subrange(0, j + 1));
                        assert forall|k: int|
                            0 <= k < queue@.len() implies queue@[k] == start || exists|m: int|
                            0 <= m < order@.len() && self.adj_of(
                                #[trigger] order@[m] as int,
                            ).contains(queue@[k]) by {
                            if k == q0.len() {
                                let m = order@.len() - 1;
                                assert(self.adj_of(order@[m] as int).contains(queue@[k]));
                            }
                        }
                        assert forall|k: int, jj: int|
                            0 <= k < order@.len() && 0 <= jj < self.adj_of(order@[k] as int).len()
                                && !(k == order@.len() - 1 && jj >= j + 1) implies order@.contains(
                            #[trigger] self.adj_of(order@[k] as int)[jj],
                        ) || queue@.contains(self.adj_of(order@[k] as int)[jj]) by {
                            if !(k == order@.len() - 1 && jj == j as int) {
                                assert(order@.contains(self.adj_of(order@[k] as int)[jj])
                                    || q0.contains(self.adj_of(order@[k] as int)[jj]));
                                if q0.contains(self.adj_of(order@[k] as int)[jj]) {
                                    let w = choose|w: int|
                                        0 <= w < q0.len() && q0[w] == self.adj_of(
                                            order@[k] as int,
                                        )[jj];
                                    assert(queue@[w] == q0[w]);
                                }
                            }
                        }
                    }
                    j = j + 1;
                }
                proof {
                    assert forall|k: int, jj: int|
                        0 <= k < order@.len() && 0 <= jj < self.adj_of(order@[k] as int).len()
                            implies order@.contains(
                        #[trigger] self.adj_of(order@[k] as int)[jj],
                    ) || queue@.contains(self.adj_of(order@[k] as int)[jj]) by {
                        assert(!(k == order@.len() - 1 && jj >= row@.len()));
                    }
                    assert(self.adj_of(node as int).subrange(
                        0,
                        self.adj_of(node as int).len() as int,
                    ) =~= self.adj_of(node as int));
                    assert(self.bfs_state_ok(queue0, order0));
                    assert(self.bfs_from(queue0, order0) == self.bfs_from(
                        queue0.drop_first() + self.adj_of(node as int),
                        order0.push(node),
                    ));
                    assert(order@ == order0.push(node));
                    assert(self.bfs_from(queue@, order@) == self.bfs_spec(start));
                }
            } else {
                proof {
                    assert(queue0 == queue@.insert(0, node));
                    assert forall|k: int, jj: int|
                        0 <= k < order@.len() && 0 <= jj < self.adj_of(order@[k] as int).len()
                            implies order@.contains(
                        #[trigger] self.adj_of(order@[k] as int)[jj],
                    ) || queue@.contains(self.adj_of(order@[k] as int)[jj]) by {
                        let x = self.adj_of(order@[k] as int)[jj];
                        if !order@.contains(x) {
                            assert(queue0.contains(x));
                            let w = choose|w: int| 0 <= w < queue0.len() && queue0[w] == x;
                            if w == 0 {
                                assert(x == node);
                                assert(order@.contains(node));
                                assert(false);
                            } else {
                                assert(queue@[w - 1] == queue0[w]);
                            }
                        }
                    }
                    assert(order@.len() >= 1) by {
                        assert(order@.contains(node));
                    }
                    assert(self.bfs_state_ok(queue0, order@));
                    assert(queue@ =~= queue0.drop_first());
                    assert(self.bfs_from(queue0, order@) == self.bfs_from(
                        queue0.drop_first(),
                        order@,
                    ));
                }
            }
        }
        proof {
            assert(self.bfs_state_ok(queue@, order@));
            assert(self.bfs_from(queue@, order@) == order@);
            assert(order@.len() >= 1) by {
                if order@.len() == 0 {
                    assert(seq![start].len() == 1);
                }
            }
        }
        order
    }
}

/// Does the vector hold `x`?
fn vec_contains(v: &Vec<usize>, x: usize) -> (r: bool)
    ensures
        r == v@.contains(x),
{
    let mut i: usize = 0;
    while i < v.len()
        invariant
            i <= v@.len(),
            forall|k: int| 0 <= k < i ==> v@[k] != x,
        decreases v@.len() - i,
    {
        if v[i] == x {
            proof {
                assert(v@[i as int] == x);
            }
            return true;
        }
        i = i + 1;
    }
    false
}

/// A sequence of distinct vertex numbers below `n` has at most `n` entries.
pub proof fn lemma_nodup_bounded_len(s: Seq<usize>, n: nat)
    requires
        s.no_duplicates(),
        forall|k: int| 0 <= k < s.len() ==> #[trigger] s[k] < n,
    ensures
        s.len() <= n,
{
    let t = s.map_values(|u: usize| u as int);
    assert(t.no_duplicates()) by {
        assert forall|i: int, j: int|
            0 <= i < t.len() && 0 <= j < t.len() && i != j implies t[i] != t[j] by {
            assert(s[i] != s[j]);
        }
    }
    t.unique_seq_to_set();
    assert(t.to_set().subset_of(vstd::set_lib::set_int_range(0, n as int))) by {
        assert forall|x: int| t.to_set().contains(x) implies vstd::set_lib::set_int_range(
            0,
            n as int,
        ).contains(x) by {
            assert(t.contains(x));
            let k = choose|k: int| 0 <= k < t.len() && t[k] == x;
            assert(s[k] < n);
        }
    }
    vstd::set_lib::lemma_int_range(0, n as int);
    vstd::set_lib::lemma_len_subset(t.to_set(), vstd::set_lib::set_int_range(0, n as int));
}

} // verus!
