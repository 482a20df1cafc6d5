//! Walks and reachability over an adjacency list, shared by the graph
//! container and the path search.

use vstd::prelude::*;

verus! {

/// `p` is a nonempty walk through `adj`: every node is in range and every
/// consecutive pair is an edge.
pub open spec fn is_path(adj: Seq<Seq<usize>>, p: Seq<usize>) -> bool {
    &&& p.len() >= 1
    &&& forall|i: int| 0 <= i < p.len() ==> (#[trigger] p[i]) < adj.len()
    &&& forall|i: int| 0 <= i < p.len() - 1 ==> adj[#[trigger] p[i] as int].contains(p[i + 1])
}

/// Some directed walk of zero or more edges leads from `s` to `t`.
pub open spec fn reachable(adj: Seq<Seq<usize>>, s: usize, t: usize) -> bool {
    exists|p: Seq<usize>| is_path(adj, p) && p.first() == s && p.last() == t
}

/// Number of `true` entries in a membership mask.
pub open spec fn count_true(s: Seq<bool>) -> int
    decreases s.len(),
{
    if s.len() == 0 {
        0
    } else {
        count_true(s.drop_last()) + if s.last() {
            1int
        } else {
            0int
        }
    }
}

pub proof fn lemma_count_true_le_len(s: Seq<bool>)
    ensures
        0 <= count_true(s) <= s.len(),
    decreases s.len(),
{
    if s.len() > 0 {
        lemma_count_true_le_len(s.drop_last());
    }
}

pub proof fn lemma_count_true_set(s: Seq<bool>, i: int)
    requires
        0 <= i < s.len(),
        !s[i],
    ensures
        count_true(s.update(i, true)) == count_true(s) + 1,
    decreases s.len(),
{
    if i == s.len() - 1 {
        assert(s.update(i, true).drop_last() =~= s.drop_last());
    } else {
        lemma_count_true_set(s.drop_last(), i);
        assert(s.update(i, true).drop_last() =~= s.drop_last().update(i, true));
        assert(s.update(i, true).last() == s.last());
    }
}

/// A pointwise larger mask has at least as many `true` entries.
pub proof fn lemma_count_true_mono(a: Seq<bool>, b: Seq<bool>)
    requires
        a.len() == b.len(),
        forall|v: int| 0 <= v < a.len() && a[v] ==> b[v],
    ensures
        count_true(a) <= count_true(b),
    decreases a.len(),
{
    if a.len() > 0 {
        lemma_count_true_mono(a.drop_last(), b.drop_last());
        assert(a.last() ==> b.last());
    }
}

/// A pointwise larger mask that is `true` at an index where the smaller one
/// is `false` has strictly more `true` entries.
pub proof fn lemma_count_true_strict_mono(a: Seq<bool>, b: Seq<bool>, i: int)
    requires
        a.len() == b.len(),
        forall|v: int| 0 <= v < a.len() && a[v] ==> b[v],
        0 <= i < a.len(),
        !a[i],
        b[i],
    ensures
        count_true(a) < count_true(b),
{
    lemma_count_true_set(a, i);
    lemma_count_true_mono(a.update(i, true), b);
}

/// Every in-range node reaches itself by the single-node walk; no self-loop
/// edge is needed.
pub proof fn lemma_reachable_self(adj: Seq<Seq<usize>>, x: usize)
    requires
        x < adj.len(),
    ensures
        reachable(adj, x, x),
{
    let p = seq![x];
    assert(is_path(adj, p));
    assert(p.first() == x && p.last() == x);
}

/// Reachability extends along an edge.
pub proof fn lemma_reachable_step(adj: Seq<Seq<usize>>, s: usize, u: usize, w: usize)
    requires
        reachable(adj, s, u),
        w < adj.len(),
        adj[u as int].contains(w),
    ensures
        reachable(adj, s, w),
{
    let p = choose|p: Seq<usize>| is_path(adj, p) && p.first() == s && p.last() == u;
    let q = p.push(w);
    assert forall|i: int| 0 <= i < q.len() - 1 implies adj[#[trigger] q[i] as int].contains(
        q[i + 1],
    ) by {
        if i < p.len() - 1 {
            assert(q[i] == p[i] && q[i + 1] == p[i + 1]);
        } else {
            assert(q[i] == p.last() && q[i + 1] == w);
        }
    }
    assert(is_path(adj, q));
    assert(q.first() == s && q.last() == w);
}

/// Every node on a walk that starts inside a set of nodes closed under
/// in-range edges stays inside that set. The set is given as a membership
/// mask over the nodes.
proof fn lemma_path_stays_in_closed(adj: Seq<Seq<usize>>, mask: Seq<bool>, p: Seq<usize>, i: int)
    requires
        mask.len() == adj.len(),
        is_path(adj, p),
        mask[p.first() as int],
        forall|v: int, j: int|
            0 <= v < adj.len() && mask[v] && 0 <= j < adj[v].len() && adj[v][j] < adj.len()
                ==> mask[#[trigger] adj[v][j] as int],
        0 <= i < p.len(),
    ensures
        mask[p[i] as int],
    decreases i,
{
    if i > 0 {
        lemma_path_stays_in_closed(adj, mask, p, i - 1);
        let u = p[i - 1];
        assert(adj[u as int].contains(p[i]));
        let j = choose|j: int| 0 <= j < adj[u as int].len() && adj[u as int][j] == p[i];
        assert(mask[adj[u as int][j] as int]);
    }
}

/// If a set of nodes contains `s`, is closed under edges to in-range nodes,
/// and does not contain `t`, then `t` is not reachable from `s`.
pub proof fn lemma_closed_unreachable(adj: Seq<Seq<usize>>, mask: Seq<bool>, s: usize, t: usize)
    requires
        mask.len() == adj.len(),
        s < adj.len(),
        mask[s as int],
        !(t < adj.len() && mask[t as int]),
        forall|v: int, j: int|
            0 <= v < adj.len() && mask[v] && 0 <= j < adj[v].len() && adj[v][j] < adj.len()
                ==> mask[#[trigger] adj[v][j] as int],
    ensures
        !reachable(adj, s, t),
{
    if reachable(adj, s, t) {
        let p = choose|p: Seq<usize>| is_path(adj, p) && p.first() == s && p.last() == t;
        lemma_path_stays_in_closed(adj, mask, p, p.len() - 1);
        assert(p[p.len() - 1] == t);
    }
}

} // verus!
