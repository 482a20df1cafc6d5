//! Depth-first search for a value in an array walked as an implicit binary
//! tree: the children of index `c` are `2c + 1` and `2c + 2`, and every
//! index is reached from the root `0`.

use vstd::prelude::*;

verus! {

/// Indices left at or after `c` in an array of length `len`; child indices
/// strictly grow, so this drives the termination of the tree walk.
pub open spec fn tree_measure(len: nat, c: nat) -> nat {
    if c < len {
        (len - c) as nat
    } else {
        0
    }
}

/// The index at which a preorder walk of the implicit binary tree rooted at
/// `current` first finds `target`, if it finds it at all.
pub open spec fn tree_find(arr: Seq<i32>, target: i32, current: nat) -> Option<int>
    decreases tree_measure(arr.len(), current),
{
    if current >= arr.len() {
        None
    } else if arr[current as int] == target {
        Some(current as int)
    } else {
        match tree_find(arr, target, 2 * current + 1) {
            Some(i) => Some(i),
            None => tree_find(arr, target, 2 * current + 2),
        }
    }
}

/// How far below `c` index `j` can lie; drives the termination of
/// `in_subtree`.
pub open spec fn depth_measure(c: nat, j: nat) -> nat {
    if j >= c {
        (j - c) as nat
    } else {
        0
    }
}

/// Index `j` lies in the subtree rooted at `c` of the implicit binary tree.
pub open spec fn in_subtree(c: nat, j: nat) -> bool
    decreases depth_measure(c, j),
{
    if j < c {
        false
    } else if j == c {
        true
    } else {
        in_subtree(2 * c + 1, j) || in_subtree(2 * c + 2, j)
    }
}

/// Subtree membership extends to both children.
proof fn lemma_subtree_child(c: nat, b: nat)
    requires
        in_subtree(c, b),
    ensures
        in_subtree(c, 2 * b + 1),
        in_subtree(c, 2 * b + 2),
    decreases depth_measure(c, b),
{
    if b == c {
        assert(in_subtree(2 * c + 1, 2 * c + 1));
        assert(in_subtree(2 * c + 2, 2 * c + 2));
    } else {
        if in_subtree(2 * c + 1, b) {
            lemma_subtree_child(2 * c + 1, b);
        } else {
            lemma_subtree_child(2 * c + 2, b);
        }
    }
}

/// Every index lies in the subtree rooted at `0`: index `j > 0` is a child
/// of `(j - 1) / 2`.
proof fn lemma_root_reaches_all(j: nat)
    ensures
        in_subtree(0, j),
    decreases j,
{
    if j > 0 {
        let p = ((j - 1) / 2) as nat;
        lemma_root_reaches_all(p);
        assert(j == 2 * p + 1 || j == 2 * p + 2);
        lemma_subtree_child(0, p);
    }
}

/// A found index is in range and holds the target.
proof fn lemma_tree_find_sound(arr: Seq<i32>, target: i32, c: nat)
    requires
        tree_find(arr, target, c) is Some,
    ensures
        0 <= tree_find(arr, target, c).unwrap() < arr.len(),
        arr[tree_find(arr, target, c).unwrap()] == target,
    decreases tree_measure(arr.len(), c),
{
    if c < arr.len() && arr[c as int] != target {
        if tree_find(arr, target, 2 * c + 1) is Some {
            lemma_tree_find_sound(arr, target, 2 * c + 1);
        } else {
            lemma_tree_find_sound(arr, target, 2 * c + 2);
        }
    }
}

/// A failed walk from `c` rules the target out everywhere in `c`'s subtree.
proof fn lemma_tree_find_none(arr: Seq<i32>, target: i32, c: nat, j: nat)
    requires
        tree_find(arr, target, c) is None,
        in_subtree(c, j),
        j < arr.len(),
    ensures
        arr[j as int] != target,
    decreases depth_measure(c, j),
{
    if j == c {
    } else {
        if in_subtree(2 * c + 1, j) {
            lemma_tree_find_none(arr, target, 2 * c + 1, j);
        } else {
            lemma_tree_find_none(arr, target, 2 * c + 2, j);
        }
    }
}

/// The walk from the root finds the target exactly when the array holds it
/// somewhere.
pub proof fn lemma_tree_find_complete(arr: Seq<i32>, target: i32)
    ensures
        tree_find(arr, target, 0) is Some <==> exists|i: int| 0 <= i < arr.len() && arr[i]
            == target,
{
    if tree_find(arr, target, 0) is Some {
        lemma_tree_find_sound(arr, target, 0);
        let w = tree_find(arr, target, 0).unwrap();
        assert(0 <= w < arr.len() && arr[w] == target);
    } else {
        if exists|i: int| 0 <= i < arr.len() && arr[i] == target {
            let i = choose|i: int| 0 <= i < arr.len() && arr[i] == target;
            lemma_root_reaches_all(i as nat);
            lemma_tree_find_none(arr, target, 0, i as nat);
        }
    }
}

/// Searches `arr` for `target` by a depth-first preorder walk of the
/// implicit binary tree over its indices, returning the index found.
pub fn depth_first_search(arr: &[i32], target: i32) -> (r: Option<usize>)
    ensures
        match r {
            Some(i) => tree_find(arr@, target, 0) == Some(i as int),
            None => tree_find(arr@, target, 0) is None,
        },
        r is Some <==> exists|i: int| 0 <= i < arr@.len() && arr@[i] == target,
{
    proof {
        lemma_tree_find_complete(arr@, target);
    }
    if arr.is_empty() {
        return None;
    }
    dfs_recursive(arr, target, 0)
}

/// Walks the subtree rooted at `current`. A child index at or past the end
/// of the array has an empty subtree, so it is not descended into; indices
/// strictly grow along a branch, so no index is ever revisited.
fn dfs_recursive(arr: &[i32], target: i32, current: usize) -> (r: Option<usize>)
    requires
        current < arr@.len(),
    ensures
        match r {
            Some(i) => tree_find(arr@, target, current as nat) == Some(i as int),
            None => tree_find(arr@, target, current as nat) is None,
        },
    decreases arr@.len() - current,
{
    if arr[current] == target {
        return Some(current);
    }
    if current < arr.len() / 2 {
        let left = 2 * current + 1;
        assert(left < arr@.len());
        if let Some(found) = dfs_recursive(arr, target, left) {
            return Some(found);
        }
    } else {
        assert(tree_find(arr@, target, 2 * (current as nat) + 1) is None);
    }
    if arr.len() >= 1 && current < (arr.len() - 1) / 2 {
        let right = 2 * current + 2;
        assert(right < arr@.len());
        dfs_recursive(arr, target, right)
    } else {
        assert(tree_find(arr@, target, 2 * (current as nat) + 2) is None);
        None
    }
}

} // verus!
