//! Which quadtree cells the renderer outlines: the depths of the leaves, and
//! the cells drawn for a range of depths, in drawing order.
//!
//! A quadtree is given by two sequences over its nodes: `leaf[i]` tells
//! whether node `i` is a leaf, and `children[i]` is the first of the four
//! consecutive children of a branch node `i`. Node 0 is the root.

use vstd::prelude::*;

verus! {

/// The nodes form a quadtree rooted at node 0: there is a root, and the four
/// children of every branch come after it in the sequence.
pub open spec fn tree_wf(children: Seq<usize>, leaf: Seq<bool>) -> bool {
    &&& children.len() > 0
    &&& leaf.len() == children.len()
    &&& forall|i: int|
        0 <= i < children.len() && !leaf[i] ==> i < #[trigger] children[i] && children[i] + 3
            < children.len()
}

/// The smallest and the largest depth of the leaves below `node`, which
/// lies at `depth`.
pub open spec fn leaf_range(children: Seq<usize>, leaf: Seq<bool>, node: int, depth: nat) -> (
    nat,
    nat,
)
    decreases children.len() - node,
{
    if !(0 <= node < children.len()) || leaf[node] || !(node < children[node] && children[node]
        + 3 < children.len()) {
        (depth, depth)
    } else {
        let c = children[node] as int;
        let r0 = leaf_range(children, leaf, c, depth + 1);
        let r1 = leaf_range(children, leaf, c + 1, depth + 1);
        let r2 = leaf_range(children, leaf, c + 2, depth + 1);
        let r3 = leaf_range(children, leaf, c + 3, depth + 1);
        (min4(r0.0, r1.0, r2.0, r3.0), max4(r0.1, r1.1, r2.1, r3.1))
    }
}

/// The smallest of four numbers.
pub open spec fn min4(a: nat, b: nat, c: nat, d: nat) -> nat {
    let ab = if a <= b {
        a
    } else {
        b
    };
    let cd = if c <= d {
        c
    } else {
        d
    };
    if ab <= cd {
        ab
    } else {
        cd
    }
}

/// The largest of four numbers.
pub open spec fn max4(a: nat, b: nat, c: nat, d: nat) -> nat {
    let ab = if a >= b {
        a
    } else {
        b
    };
    let cd = if c >= d {
        c
    } else {
        d
    };
    if ab >= cd {
        ab
    } else {
        cd
    }
}

/// The cells below `node` (at `depth`) that are drawn for the depth range
/// `min..=max`, with their depths, in drawing order: a branch above `max`
/// is opened, its last child first; any other cell is drawn when it lies at
/// `min` or deeper.
pub open spec fn drawn(
    children: Seq<usize>,
    leaf: Seq<bool>,
    node: int,
    depth: nat,
    min: nat,
    max: nat,
) -> Seq<(usize, usize)>
    decreases children.len() - node,
{
    if !(0 <= node < children.len()) {
        Seq::empty()
    } else if !leaf[node] && depth < max && node < children[node] && children[node] + 3
        < children.len() {
        let c = children[node] as int;
        drawn(children, leaf, c + 3, depth + 1, min, max) + drawn(
            children,
            leaf,
            c + 2,
            depth + 1,
            min,
            max,
        ) + drawn(children, leaf, c + 1, depth + 1, min, max) + drawn(
            children,
            leaf,
            c,
            depth + 1,
            min,
            max,
        )
    } else if depth >= min {
        seq![(node as usize, depth as usize)]
    } else {
        Seq::empty()
    }
}

/// Whether the nodes form a quadtree rooted at node 0, with the children of
/// every branch after it.
pub fn is_tree(children: &Vec<usize>, leaf: &Vec<bool>) -> (r: bool)
    ensures
        r == tree_wf(children@, leaf@),
{
    let n = children.len();
    if n == 0 || leaf.len() != n {
        return false;
    }
    let mut i: usize = 0;
    while i < n
        invariant
            i <= n,
            n == children@.len(),
            leaf@.len() == n,
            forall|j: int|
                0 <= j < i && !leaf@[j] ==> j < #[trigger] children@[j] && children@[j] + 3 < n,
        decreases n - i,
    {
        if !leaf[i] {
            let c = children[i];
            if c <= i || c >= n || n - c <= 3 {
                return false;
            }
        }
        i = i + 1;
    }
    true
}

/// The depth of a node is below its index: every step down goes to a later
/// node.
proof fn lemma_leaf_range_bounds(children: Seq<usize>, leaf: Seq<bool>, node: int, depth: nat)
    requires
        tree_wf(children, leaf),
        0 <= node < children.len(),
    ensures
        depth <= leaf_range(children, leaf, node, depth).0 <= leaf_range(
            children,
            leaf,
            node,
            depth,
        ).1 <= depth + children.len() - 1 - node,
    decreases children.len() - node,
{
    if !leaf[node] {
        let c = children[node] as int;
        lemma_leaf_range_bounds(children, leaf, c, depth + 1);
        lemma_leaf_range_bounds(children, leaf, c + 1, depth + 1);
        lemma_leaf_range_bounds(children, leaf, c + 2, depth + 1);
        lemma_leaf_range_bounds(children, leaf, c + 3, depth + 1);
    }
}

/// The smallest and the largest depth of the leaves below `node`, which lies
/// at `depth` (the root lies at depth 0).
fn leaf_range_below(children: &Vec<usize>, leaf: &Vec<bool>, node: usize, depth: usize) -> (r: (
    usize,
    usize,
))
    requires
        tree_wf(children@, leaf@),
        node < children@.len(),
        depth <= node,
    ensures
        r.0 == leaf_range(children@, leaf@, node as int, depth as nat).0,
        r.1 == leaf_range(children@, leaf@, node as int, depth as nat).1,
    decreases children@.len() - node,
{
    proof {
        lemma_leaf_range_bounds(children@, leaf@, node as int, depth as nat);
    }
    if leaf[node] {
        (depth, depth)
    } else {
        let c = children[node];
        let n = children.len();
        assert(node < c && c + 3 < n) by {
            assert(node < children@[node as int] && children@[node as int] + 3 < children@.len());
        }
        let r0 = leaf_range_below(children, leaf, c, depth + 1);
        let r1 = leaf_range_below(children, leaf, c + 1, depth + 1);
        let r2 = leaf_range_below(children, leaf, c + 2, depth + 1);
        let r3 = leaf_range_below(children, leaf, c + 3, depth + 1);
        let lo01 = if r0.0 <= r1.0 {
            r0.0
        } else {
            r1.0
        };
        let lo23 = if r2.0 <= r3.0 {
            r2.0
        } else {
            r3.0
        };
        let hi01 = if r0.1 >= r1.1 {
            r0.1
        } else {
            r1.1
        };
        let hi23 = if r2.1 >= r3.1 {
            r2.1
        } else {
            r3.1
        };
        (
            if lo01 <= lo23 {
                lo01
            } else {
                lo23
            },
            if hi01 >= hi23 {
                hi01
            } else {
                hi23
            },
        )
    }
}

/// Node `target` lies at depth `td` below `node`, which lies at `depth`:
/// it is `node` itself at that depth, or lies below one of the four children
/// of a branch `node`, one level deeper.
pub open spec fn reaches(
    children: Seq<usize>,
    leaf: Seq<bool>,
    node: int,
    depth: nat,
    target: int,
    td: nat,
) -> bool
    decreases children.len() - node,
{
    if !(0 <= node < children.len()) {
        false
    } else {
        ||| (node == target && depth == td)
        ||| (!leaf[node] && node < children[node] && children[node] + 3 < children.len() && {
            let c = children[node] as int;
            ||| reaches(children, leaf, c, depth + 1, target, td)
            ||| reaches(children, leaf, c + 1, depth + 1, target, td)
            ||| reaches(children, leaf, c + 2, depth + 1, target, td)
            ||| reaches(children, leaf, c + 3, depth + 1, target, td)
        })
    }
}

/// The leaf depth range below a node spans exactly its leaves: its first
/// component is the depth of some leaf below the node and no leaf below it
/// is shallower; its second is the depth of some leaf below the node and no
/// leaf below it is deeper.
pub proof fn lemma_leaf_range_extremes(children: Seq<usize>, leaf: Seq<bool>, node: int, depth: nat)
    requires
        tree_wf(children, leaf),
        0 <= node < children.len(),
    ensures
        ({
            let r = leaf_range(children, leaf, node, depth);
            &&& exists|t: int| 0 <= t < leaf.len() && leaf[t] && #[trigger] reaches(children, leaf, node, depth, t, r.0)
            &&& exists|t: int| 0 <= t < leaf.len() && leaf[t] && #[trigger] reaches(children, leaf, node, depth, t, r.1)
            &&& forall|t: int, d: nat|
                0 <= t < leaf.len() && leaf[t] && #[trigger] reaches(children, leaf, node, depth, t, d) ==> r.0 <= d <= r.1
        }),
    decreases children.len() - node,
{
    let r = leaf_range(children, leaf, node, depth);
    if leaf[node] {
        assert(reaches(children, leaf, node, depth, node, depth));
        assert forall|t: int, d: nat|
            0 <= t < leaf.len() && leaf[t] && #[trigger] reaches(children, leaf, node, depth, t, d) implies r.0 <= d <= r.1 by {}
    } else {
        let c = children[node] as int;
        assert(node < c && c + 3 < children.len());
        lemma_leaf_range_extremes(children, leaf, c, depth + 1);
        lemma_leaf_range_extremes(children, leaf, c + 1, depth + 1);
        lemma_leaf_range_extremes(children, leaf, c + 2, depth + 1);
        lemma_leaf_range_extremes(children, leaf, c + 3, depth + 1);
        let r0 = leaf_range(children, leaf, c, depth + 1);
        let r1 = leaf_range(children, leaf, c + 1, depth + 1);
        let r2 = leaf_range(children, leaf, c + 2, depth + 1);
        let r3 = leaf_range(children, leaf, c + 3, depth + 1);
        assert forall|t: int, d: nat|
            0 <= t < leaf.len() && leaf[t] && #[trigger] reaches(children, leaf, node, depth, t, d) implies r.0 <= d <= r.1 by {
            if reaches(children, leaf, c, depth + 1, t, d) {
            } else if reaches(children, leaf, c + 1, depth + 1, t, d) {
            } else if reaches(children, leaf, c + 2, depth + 1, t, d) {
            } else if reaches(children, leaf, c + 3, depth + 1, t, d) {
            } else {
                assert(t == node);
            }
        }
        if r.0 == r0.0 {
            let t = choose|t: int| 0 <= t < leaf.len() && leaf[t] && #[trigger] reaches(children, leaf, c, depth + 1, t, r0.0);
            assert(reaches(children, leaf, node, depth, t, r.0));
        } else if r.0 == r1.0 {
            let t = choose|t: int| 0 <= t < leaf.len() && leaf[t] && #[trigger] reaches(children, leaf, c + 1, depth + 1, t, r1.0);
            assert(reaches(children, leaf, node, depth, t, r.0));
        } else if r.0 == r2.0 {
            let t = choose|t: int| 0 <= t < leaf.len() && leaf[t] && #[trigger] reaches(children, leaf, c + 2, depth + 1, t, r2.0);
            assert(reaches(children, leaf, node, depth, t, r.0));
        } else {
            let t = choose|t: int| 0 <= t < leaf.len() && leaf[t] && #[trigger] reaches(children, leaf, c + 3, depth + 1, t, r3.0);
            assert(reaches(children, leaf, node, depth, t, r.0));
        }
        if r.1 == r0.1 {
            let t = choose|t: int| 0 <= t < leaf.len() && leaf[t] && #[trigger] reaches(children, leaf, c, depth + 1, t, r0.1);
            assert(reaches(children, leaf, node, depth, t, r.1));
        } else if r.1 == r1.1 {
            let t = choose|t: int| 0 <= t < leaf.len() && leaf[t] && #[trigger] reaches(children, leaf, c + 1, depth + 1, t, r1.1);
            assert(reaches(children, leaf, node, depth, t, r.1));
        } else if r.1 == r2.1 {
            let t = choose|t: int| 0 <= t < leaf.len() && leaf[t] && #[trigger] reaches(children, leaf, c + 2, depth + 1, t, r2.1);
            assert(reaches(children, leaf, node, depth, t, r.1));
        } else {
            let t = choose|t: int| 0 <= t < leaf.len() && leaf[t] && #[trigger] reaches(children, leaf, c + 3, depth + 1, t, r3.1);
            assert(reaches(children, leaf, node, depth, t, r.1));
        }
    }
}

/// The smallest and the largest depth of the leaves of the quadtree, the
/// root lying at depth 0.
pub fn leaf_depth_range(children: &Vec<usize>, leaf: &Vec<bool>) -> (r: (usize, usize))
    requires
        tree_wf(children@, leaf@),
    ensures
        r.0 == leaf_range(children@, leaf@, 0, 0).0,
        r.1 == leaf_range(children@, leaf@, 0, 0).1,
        r.0 <= r.1,
        exists|t: int| 0 <= t < leaf@.len() && leaf@[t] && #[trigger] reaches(children@, leaf@, 0, 0, t, r.0 as nat),
        exists|t: int| 0 <= t < leaf@.len() && leaf@[t] && #[trigger] reaches(children@, leaf@, 0, 0, t, r.1 as nat),
        forall|t: int, d: nat|
            0 <= t < leaf@.len() && leaf@[t] && #[trigger] reaches(children@, leaf@, 0, 0, t, d) ==> r.0 <= d <= r.1,
{
    proof {
        lemma_leaf_range_bounds(children@, leaf@, 0, 0);
        lemma_leaf_range_extremes(children@, leaf@, 0, 0);
    }
    leaf_range_below(children, leaf, 0, 0)
}

/// Appends to `out` the cells below `node` drawn for the depths `min..=max`.
fn push_drawn(
    children: &Vec<usize>,
    leaf: &Vec<bool>,
    node: usize,
    depth: usize,
    min: usize,
    max: usize,
    out: &mut Vec<(usize, usize)>,
)
    requires
        tree_wf(children@, leaf@),
        node < children@.len(),
        depth <= node,
    ensures
        final(out)@ == old(out)@ + drawn(
            children@,
            leaf@,
            node as int,
            depth as nat,
            min as nat,
            max as nat,
        ),
    decreases children@.len() - node,
{
    if !leaf[node] && depth < max {
        let c = children[node];
        let n = children.len();
        assert(node < c && c + 3 < n) by {
            assert(node < children@[node as int] && children@[node as int] + 3 < children@.len());
        }
        let ghost d = depth as nat;
        let ghost before = out@;
        push_drawn(children, leaf, c + 3, depth + 1, min, max, out);
        push_drawn(children, leaf, c + 2, depth + 1, min, max, out);
        push_drawn(children, leaf, c + 1, depth + 1, min, max, out);
        push_drawn(children, leaf, c, depth + 1, min, max, out);
        proof {
            let s3 = drawn(children@, leaf@, c + 3, d + 1, min as nat, max as nat);
            let s2 = drawn(children@, leaf@, c + 2, d + 1, min as nat, max as nat);
            let s1 = drawn(children@, leaf@, c + 1, d + 1, min as nat, max as nat);
            let s0 = drawn(children@, leaf@, c as int, d + 1, min as nat, max as nat);
            assert(out@ =~= before + (s3 + s2 + s1 + s0));
        }
    } else if depth >= min {
        out.push((node, depth));
    }
}

/// The cells drawn for the depth range `min..=max`, with their depths, in
/// drawing order: starting at the root, a branch above `max` is opened (its
/// last child first), and any other cell is drawn when it lies at `min` or
/// deeper.
pub fn cells_to_draw(children: &Vec<usize>, leaf: &Vec<bool>, min: usize, max: usize) -> (out: Vec<
    (usize, usize),
>)
    requires
        tree_wf(children@, leaf@),
    ensures
        out@ == drawn(children@, leaf@, 0, 0, min as nat, max as nat),
{
    let mut out: Vec<(usize, usize)> = Vec::new();
    push_drawn(children, leaf, 0, 0, min, max, &mut out);
    proof {
        assert(out@ =~= drawn(children@, leaf@, 0, 0, min as nat, max as nat));
    }
    out
}

/// The cells drawn lie within the chosen depth range: every cell drawn below
/// a node no deeper than `max` lies at a depth in `min..=max`, and is a leaf
/// or lies exactly at `max`.
pub proof fn lemma_drawn_in_range(
    children: Seq<usize>,
    leaf: Seq<bool>,
    node: int,
    depth: nat,
    min: nat,
    max: nat,
)
    requires
        tree_wf(children, leaf),
        children.len() <= usize::MAX,
        depth <= max <= usize::MAX,
    ensures
        forall|k: int|
            0 <= k < drawn(children, leaf, node, depth, min, max).len() ==> {
                let cell = #[trigger] drawn(children, leaf, node, depth, min, max)[k];
                &&& min <= cell.1 <= max
                &&& 0 <= cell.0 < children.len()
                &&& (leaf[cell.0 as int] || cell.1 == max)
            },
    decreases children.len() - node,
{
    let out = drawn(children, leaf, node, depth, min, max);
    if 0 <= node < children.len() && !leaf[node] && depth < max {
        let c = children[node] as int;
        lemma_drawn_in_range(children, leaf, c + 3, depth + 1, min, max);
        lemma_drawn_in_range(children, leaf, c + 2, depth + 1, min, max);
        lemma_drawn_in_range(children, leaf, c + 1, depth + 1, min, max);
        lemma_drawn_in_range(children, leaf, c, depth + 1, min, max);
        let s3 = drawn(children, leaf, c + 3, depth + 1, min, max);
        let s2 = drawn(children, leaf, c + 2, depth + 1, min, max);
        let s1 = drawn(children, leaf, c + 1, depth + 1, min, max);
        let s0 = drawn(children, leaf, c, depth + 1, min, max);
        assert(out == s3 + s2 + s1 + s0);
        assert forall|k: int| 0 <= k < out.len() implies {
            let cell = #[trigger] out[k];
            &&& min <= cell.1 <= max
            &&& 0 <= cell.0 < children.len()
            &&& (leaf[cell.0 as int] || cell.1 == max)
        } by {
            if k < s3.len() {
                assert(out[k] == s3[k]);
            } else if k < s3.len() + s2.len() {
                assert(out[k] == s2[k - s3.len()]);
            } else if k < s3.len() + s2.len() + s1.len() {
                assert(out[k] == s1[k - s3.len() - s2.len()]);
            } else {
                assert(out[k] == s0[k - s3.len() - s2.len() - s1.len()]);
            }
        }
    } else if 0 <= node < children.len() {
        assert(!leaf[node] ==> node < children[node] && children[node] + 3 < children.len());
    }
}

} // verus!
