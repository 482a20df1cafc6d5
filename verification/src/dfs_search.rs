//! Depth-first path search with explicit backtracking over a borrowed
//! adjacency list.

use crate::reachability::count_true;
use crate::reachability::is_path;
use crate::reachability::lemma_closed_unreachable;
use crate::reachability::lemma_count_true_le_len;
use crate::reachability::lemma_count_true_set;
use crate::reachability::lemma_count_true_strict_mono;
use crate::reachability::reachable;
use vstd::prelude::*;

verus! {

/// The adjacency list a vector of neighbor vectors stands for.
pub open spec fn views_of(g: Seq<Vec<usize>>) -> Seq<Seq<usize>> {
    g.map_values(|l: Vec<usize>| l@)
}

/// Depth-first path search over a borrowed adjacency list. The searcher
/// never mutates the list; all working state lives inside a single `search`
/// call.
pub struct DfsSearch<'a> {
    graph: &'a Vec<Vec<usize>>,
}

impl<'a> DfsSearch<'a> {
    /// The adjacency list, as a sequence of neighbor sequences.
    pub closed spec fn adj(&self) -> Seq<Seq<usize>> {
        views_of(self.graph@)
    }

    /// Creates a searcher over the given adjacency list.
    pub fn new(graph: &'a Vec<Vec<usize>>) -> (s: DfsSearch<'a>)
        ensures
            s.adj() == views_of(graph@),
    {
        DfsSearch { graph }
    }

    /// Searches depth-first for a path from `start` to `target`.
    ///
    /// Returns `Some(path)` exactly when `start` is in range and `target` is
    /// reachable from it; the path then begins at `start`, ends at `target`,
    /// and follows edges of the list. An out-of-range `start`, an
    /// out-of-range `target` and an unreachable `target` all yield `None`.
    pub fn search(&self, start: usize, target: usize) -> (r: Option<Vec<usize>>)
        ensures
            r matches Some(p) ==> is_path(self.adj(), p@) && p@.first() == start && p@.last()
                == target,
            r is Some <==> start < self.adj().len() && reachable(self.adj(), start, target),
    {
        let n = self.graph.len();
        let mut visited: Vec<bool> = Vec::with_capacity(n);
        let mut i: usize = 0;
        while i < n
            invariant
                i <= n,
                visited@.len() == i,
                forall|k: int| 0 <= k < i ==> !visited@[k],
            decreases n - i,
        {
            visited.push(false);
            i = i + 1;
        }
        let mut path: Vec<usize> = Vec::new();
        let r = self.dfs(start, target, &mut visited, &mut path);
        proof {
            if r is Some {
                let p = r.unwrap();
                assert(p@[0] == start);
                assert(p@.first() == start);
                assert(reachable(self.adj(), start, target));
            } else {
                if start < self.adj().len() {
                    assert(visited@[start as int]);
                    lemma_closed_unreachable(self.adj(), visited@, start, target);
                }
            }
        }
        r
    }

    /// Recursive core of the search: visits `current`, extends `path` with
    /// it, and explores its unvisited neighbors in adjacency order, undoing
    /// the extension when every neighbor fails.
    #[verifier::loop_isolation(false)]
    fn dfs(
        &self,
        current: usize,
        target: usize,
        visited: &mut Vec<bool>,
        path: &mut Vec<usize>,
    ) -> (r: Option<Vec<usize>>)
        requires
            old(visited)@.len() == self.adj().len(),
            current < self.adj().len() ==> !old(visited)@[current as int],
            forall|v: int| 0 <= v < old(visited)@.len() && old(visited)@[v] ==> v != target,
            forall|i: int|
                0 <= i < old(path)@.len() ==> (#[trigger] old(path)@[i]) < self.adj().len()
                    && old(visited)@[old(path)@[i] as int],
            forall|i: int|
                0 <= i < old(path)@.len() - 1 ==> self.adj()[
                    #[trigger] old(path)@[i] as int
                ].contains(old(path)@[i + 1]),
            old(path)@.len() > 0 && current < self.adj().len() ==> self.adj()[
                old(path)@.last() as int
            ].contains(current),
            forall|v: int, j: int|
                0 <= v < self.adj().len() && old(visited)@[v] && !old(path)@.contains(v as usize)
                    && 0 <= j < self.adj()[v].len() && self.adj()[v][j] < self.adj().len()
                    ==> old(visited)@[#[trigger] self.adj()[v][j] as int],
        ensures
            final(visited)@.len() == old(visited)@.len(),
            forall|v: int|
                0 <= v < old(visited)@.len() && old(visited)@[v] ==> final(visited)@[v],
            r is None ==> {
                &&& final(path)@ == old(path)@
                &&& (current < self.adj().len() ==> final(visited)@[current as int])
                &&& forall|v: int|
                    0 <= v < final(visited)@.len() && final(visited)@[v] ==> v != target
                &&& forall|v: int, j: int|
                    0 <= v < self.adj().len() && final(visited)@[v] && !old(path)@.contains(
                        v as usize,
                    ) && 0 <= j < self.adj()[v].len() && self.adj()[v][j] < self.adj().len()
                        ==> final(visited)@[#[trigger] self.adj()[v][j] as int]
            },
            r matches Some(p) ==> {
                &&& p@.len() > old(path)@.len()
                &&& p@.subrange(0, old(path)@.len() as int) == old(path)@
                &&& p@[old(path)@.len() as int] == current
                &&& is_path(self.adj(), p@)
                &&& p@.last() == target
            },
        decreases self.adj().len() - count_true(visited@),
    {
        let n = self.graph.len();
        if current >= n {
            return None;
        }
        let ghost vis0 = visited@;
        let ghost path0 = path@;
        visited[current] = true;
        path.push(current);
        proof {
            lemma_count_true_set(vis0, current as int);
            lemma_count_true_le_len(visited@);
            assert(path@[path0.len() as int] == current);
        }
        if current == target {
            let result = copy_indices(path);
            proof {
                assert(result@.subrange(0, path0.len() as int) =~= path0);
                assert(forall|i: int|
                    0 <= i < result@.len() ==> (#[trigger] result@[i]) < self.adj().len());
                assert(forall|i: int|
                    0 <= i < result@.len() - 1 ==> self.adj()[
                        #[trigger] result@[i] as int
                    ].contains(result@[i + 1]));
            }
            return Some(result);
        }
        let neighbors = &self.graph[current];
        proof {
            assert(path@[path0.len() as int] == current);
            assert(path@.contains(current));
            assert forall|v: int, jj: int|
                0 <= v < self.adj().len() && visited@[v] && !path@.contains(v as usize) && 0 <= jj
                    < self.adj()[v].len() && self.adj()[v][jj] < self.adj().len() implies visited@[
                #[trigger] self.adj()[v][jj] as int
            ] by {
                assert(v != current as int);
                assert(vis0[v]);
                if path0.contains(v as usize) {
                    let idx = choose|idx: int| 0 <= idx < path0.len() && path0[idx] == v as usize;
                    assert(path@[idx] == v as usize);
                    assert(path@.contains(v as usize));
                }
                assert(vis0[self.adj()[v][jj] as int]);
            }
        }
        let mut j: usize = 0;
        while j < neighbors.len()
            invariant
                j <= neighbors@.len(),
                neighbors@ == self.graph@[current as int]@,
                visited@.len() == n,
                visited@[current as int],
                path@ == path0.push(current),
                forall|v: int| 0 <= v < vis0.len() && vis0[v] ==> visited@[v],
                forall|v: int| 0 <= v < visited@.len() && visited@[v] ==> v != target,
                forall|jj: int|
                    0 <= jj < j && self.adj()[current as int][jj] < n ==> visited@[
                        #[trigger] self.adj()[current as int][jj] as int
                    ],
                forall|v: int, jj: int|
                    0 <= v < self.adj().len() && visited@[v] && !path@.contains(v as usize) && 0
                        <= jj < self.adj()[v].len() && self.adj()[v][jj] < self.adj().len()
                        ==> visited@[#[trigger] self.adj()[v][jj] as int],
            decreases neighbors@.len() - j,
        {
            let next = neighbors[j];
            proof {
                assert(self.adj()[current as int][j as int] == next);
                assert(self.adj()[current as int].contains(next));
            }
            if !(next < n && visited[next]) {
                proof {
                    lemma_count_true_strict_mono(vis0, visited@, current as int);
                    lemma_count_true_le_len(visited@);
                }
                match self.dfs(next, target, visited, path) {
                    Some(result) => {
                        proof {
                            assert(result@.subrange(0, path0.len() as int) =~= path0);
                        }
                        return Some(result);
                    },
                    None => {},
                }
            }
            j = j + 1;
        }
        path.pop();
        proof {
            assert(path@ =~= path0);
            assert(!path0.contains(current));
            assert forall|v: int, jj: int|
                0 <= v < self.adj().len() && visited@[v] && !path0.contains(v as usize) && 0 <= jj
                    < self.adj()[v].len() && self.adj()[v][jj] < self.adj().len() implies visited@[
                #[trigger] self.adj()[v][jj] as int
            ] by {
                if v == current as int {
                    assert(visited@[self.adj()[current as int][jj] as int]);
                } else {
                    assert(!path0.push(current).contains(v as usize));
                }
            }
        }
        None
    }
}

/// Searches `arr` for `target` by a depth-first preorder walk of the
/// implicit binary tree over its indices: the same routine as the one in
/// the `dfs` module, kept here as well for callers of this module.
pub fn depth_first_search(arr: &[i32], target: i32) -> (r: Option<usize>)
    ensures
        match r {
            Some(i) => crate::dfs::tree_find(arr@, target, 0) == Some(i as int),
            None => crate::dfs::tree_find(arr@, target, 0) is None,
        },
        r is Some <==> exists|i: int| 0 <= i < arr@.len() && arr@[i] == target,
{
    crate::dfs::depth_first_search(arr, target)
}

/// Copies a list of indices element by element.
fn copy_indices(path: &Vec<usize>) -> (r: Vec<usize>)
    ensures
        r@ == path@,
{
    let mut r: Vec<usize> = Vec::with_capacity(path.len());
    let mut k: usize = 0;
    while k < path.len()
        invariant
            k <= path@.len(),
            r@ == path@.subrange(0, k as int),
        decreases path@.len() - k,
    {
        r.push(path[k]);
        proof {
            assert(r@ =~= path@.subrange(0, k as int + 1));
        }
        k = k + 1;
    }
    proof {
        assert(r@ =~= path@);
    }
    r
}

} // verus!
