//! Fusion of bodies that have been touching for long: which bodies merge
//! into which new body, and which bodies stay as they are.

use vstd::prelude::*;

use crate::components::{involved, joined, lemma_involved_push};
use crate::union_find::UnionFind;

verus! {

/// Body `i` is an end of one of `pairs`.
pub open spec fn mentioned(pairs: Seq<(usize, usize)>, i: int) -> bool {
    involved(pairs, i)
}

/// Body `i` is the first of its fused group.
pub open spec fn is_group_start(pairs: Seq<(usize, usize)>, i: int) -> bool {
    mentioned(pairs, i) && forall|j: int| 0 <= j < i ==> !#[trigger] joined(pairs, j, i)
}

/// The first bodies of the fused groups among bodies `0..n`, in increasing order.
pub open spec fn group_starts(pairs: Seq<(usize, usize)>, n: int) -> Seq<usize>
    decreases n,
{
    if n <= 0 {
        Seq::empty()
    } else if is_group_start(pairs, n - 1) {
        group_starts(pairs, n - 1).push((n - 1) as usize)
    } else {
        group_starts(pairs, n - 1)
    }
}

/// The bodies among `0..n` fused with `s`, in increasing order.
pub open spec fn group_members(pairs: Seq<(usize, usize)>, n: int, s: int) -> Seq<usize>
    decreases n,
{
    if n <= 0 {
        Seq::empty()
    } else if mentioned(pairs, n - 1) && joined(pairs, s, n - 1) {
        group_members(pairs, n - 1, s).push((n - 1) as usize)
    } else {
        group_members(pairs, n - 1, s)
    }
}

/// The bodies among `0..n` that fuse with nothing, in increasing order.
pub open spec fn unfused(pairs: Seq<(usize, usize)>, n: int) -> Seq<usize>
    decreases n,
{
    if n <= 0 {
        Seq::empty()
    } else if mentioned(pairs, n - 1) {
        unfused(pairs, n - 1)
    } else {
        unfused(pairs, n - 1).push((n - 1) as usize)
    }
}

/// How many bodies among `0..n` fuse with something.
pub open spec fn mentioned_count(pairs: Seq<(usize, usize)>, n: int) -> nat
    decreases n,
{
    if n <= 0 {
        0
    } else {
        mentioned_count(pairs, n - 1) + if mentioned(pairs, n - 1) {
            1nat
        } else {
            0nat
        }
    }
}

/// The smallest of the ids of the bodies `members`.
pub open spec fn min_id(ids: Seq<u64>, members: Seq<usize>) -> u64
    decreases members.len(),
{
    if members.len() <= 1 {
        ids[members[0] as int]
    } else {
        let m = min_id(ids, members.drop_last());
        let x = ids[members.last() as int];
        if x < m {
            x
        } else {
            m
        }
    }
}

/// Bodies joined with another body take part in some pair.
pub proof fn lemma_joined_mentioned(pairs: Seq<(usize, usize)>, x: int, y: int)
    requires
        joined(pairs, x, y),
        x != y,
    ensures
        mentioned(pairs, x),
        mentioned(pairs, y),
    decreases pairs.len(),
{
    let rest = pairs.drop_last();
    let a = pairs.last().0 as int;
    let b = pairs.last().1 as int;
    let last = pairs.len() - 1;
    assert(pairs[last].0 == a && pairs[last].1 == b);
    assert forall|z: int| mentioned(rest, z) implies mentioned(pairs, z) by {
        let k = choose|k: int| 0 <= k < rest.len() && (#[trigger] rest[k].0 == z || rest[k].1 == z);
        assert(pairs[k] == rest[k]);
    }
    assert(mentioned(pairs, a) && mentioned(pairs, b));
    if joined(rest, x, y) {
        lemma_joined_mentioned(rest, x, y);
    } else if joined(rest, x, a) && joined(rest, y, b) {
        if x != a {
            lemma_joined_mentioned(rest, x, a);
        }
        if y != b {
            lemma_joined_mentioned(rest, y, b);
        }
    } else {
        if x != b {
            lemma_joined_mentioned(rest, x, b);
        }
        if y != a {
            lemma_joined_mentioned(rest, y, a);
        }
    }
}

/// What fusing does to the bodies.
#[derive(Debug)]
pub struct FusionPlan {
    /// The bodies that merge into each new body, first body first.
    pub groups: Vec<Vec<usize>>,
    /// The id each new body takes: the smallest id of its group.
    pub group_ids: Vec<u64>,
    /// The bodies that stay as they are, in order.
    pub kept: Vec<usize>,
}

/// Plans the fusion of the touching pairs `pairs` (body indices into `ids`):
/// bodies joined by a chain of pairs merge into one new body that takes the
/// smallest of their ids; the other bodies stay. Groups are listed in the
/// order of their first body. Nothing fuses (`None`) when there are no pairs
/// or no bodies, or when the pairs name fewer than two bodies.
pub fn plan_fusion(ids: &Vec<u64>, pairs: &Vec<(usize, usize)>) -> (r: Option<FusionPlan>)
    requires
        forall|k: int| 0 <= k < pairs@.len() ==> #[trigger] pairs@[k].0 < ids@.len() && pairs@[k].1
            < ids@.len(),
    ensures
        r is None <==> (pairs@.len() == 0 || ids@.len() == 0 || mentioned_count(
            pairs@,
            ids@.len() as int,
        ) <= 1),
        r matches Some(plan) ==> {
            let starts = group_starts(pairs@, ids@.len() as int);
            &&& plan.groups@.len() == starts.len()
            &&& plan.group_ids@.len() == starts.len()
            &&& forall|g: int|
                0 <= g < starts.len() ==> #[trigger] plan.groups@[g]@ == group_members(
                    pairs@,
                    ids@.len() as int,
                    starts[g] as int,
                )
            &&& forall|g: int|
                0 <= g < starts.len() ==> #[trigger] plan.group_ids@[g] == min_id(
                    ids@,
                    plan.groups@[g]@,
                )
            &&& plan.kept@ == unfused(pairs@, ids@.len() as int)
        },
{
    let n = ids.len();
    if pairs.len() == 0 || n == 0 {
        return None;
    }
    let mut marks: Vec<bool> = vec![false; n];
    let mut k: usize = 0;
    while k < pairs.len()
        invariant
            k <= pairs.len(),
            n == ids@.len(),
            marks@.len() == n,
            forall|q: int| 0 <= q < pairs@.len() ==> #[trigger] pairs@[q].0 < n && pairs@[q].1 < n,
            forall|i: int| 0 <= i < n ==> #[trigger] marks@[i] == mentioned(pairs@.take(k as int), i),
        decreases pairs.len() - k,
    {
        let (a, b) = pairs[k];
        proof {
            let pre = pairs@.take(k as int);
            let post = pairs@.take(k + 1);
            assert(post =~= pre.push((a, b)));
            assert forall|x: int| 0 <= x < n implies mentioned(post, x) == (mentioned(pre, x)
                || a == x || b == x) by {
                lemma_involved_push(pre, (a, b), x);
            }
        }
        marks.set(a, true);
        marks.set(b, true);
        k = k + 1;
    }
    proof {
        assert(pairs@.take(pairs.len() as int) =~= pairs@);
    }
    let mut count: usize = 0;
    let mut i: usize = 0;
    while i < n
        invariant
            i <= n,
            n == ids@.len(),
            marks@.len() == n,
            forall|x: int| 0 <= x < n ==> #[trigger] marks@[x] == mentioned(pairs@, x),
            count == mentioned_count(pairs@, i as int),
            count <= i,
        decreases n - i,
    {
        if marks[i] {
            count = count + 1;
        }
        i = i + 1;
    }
    if count <= 1 {
        return None;
    }
    let mut uf = UnionFind::new(n);
    let mut k: usize = 0;
    while k < pairs.len()
        invariant
            k <= pairs.len(),
            n == ids@.len(),
            uf.wf(),
            uf.size() == n,
            forall|q: int| 0 <= q < pairs@.len() ==> #[trigger] pairs@[q].0 < n && pairs@[q].1 < n,
            forall|x: int, y: int|
                0 <= x < n && 0 <= y < n ==> (#[trigger] uf.same(x, y) <==> joined(
                    pairs@.take(k as int),
                    x,
                    y,
                )),
        decreases pairs.len() - k,
    {
        let (a, b) = pairs[k];
        let ghost prev = pairs@.take(k as int);
        let ghost cur = pairs@.take(k + 1);
        proof {
            assert(cur.drop_last() =~= prev);
            assert(cur.last() == (a, b));
        }
        let ghost before = uf;
        uf.union(a, b);
        proof {
            assert forall|x: int, y: int| 0 <= x < n && 0 <= y < n implies (#[trigger] uf.same(x, y)
                <==> joined(cur, x, y)) by {
                assert(before.same(x, a as int) <==> joined(prev, x, a as int));
                assert(before.same(y, b as int) <==> joined(prev, y, b as int));
                assert(before.same(x, b as int) <==> joined(prev, x, b as int));
                assert(before.same(y, a as int) <==> joined(prev, y, a as int));
                assert(before.same(x, y) <==> joined(prev, x, y));
            }
        }
        k = k + 1;
    }
    proof {
        assert(pairs@.take(pairs.len() as int) =~= pairs@);
    }
    proof {
        assert forall|j: int| 0 <= j < n implies 0 <= #[trigger] uf.root(j) < n by {
            uf.lemma_root_in_range(j);
        }
    }
    let mut root_to_group: Vec<usize> = vec![usize::MAX; n];
    let mut groups: Vec<Vec<usize>> = Vec::new();
    let mut group_ids: Vec<u64> = Vec::new();
    let mut kept: Vec<usize> = Vec::new();
    let ghost p = pairs@;
    let mut i: usize = 0;
    while i < n
        invariant
            i <= n,
            n == ids@.len(),
            p == pairs@,
            uf.wf(),
            uf.size() == n,
            marks@.len() == n,
            forall|x: int| 0 <= x < n ==> #[trigger] marks@[x] == mentioned(p, x),
            forall|x: int, y: int|
                0 <= x < n && 0 <= y < n ==> (#[trigger] uf.same(x, y) <==> joined(p, x, y)),
            root_to_group@.len() == n,
            groups@.len() == group_starts(p, i as int).len(),
            groups@.len() <= i,
            group_ids@.len() == groups@.len(),
            kept@ == unfused(p, i as int),
            forall|g: int|
                0 <= g < groups@.len() ==> #[trigger] groups@[g]@ == group_members(
                    p,
                    i as int,
                    group_starts(p, i as int)[g] as int,
                ),
            forall|g: int|
                0 <= g < groups@.len() ==> #[trigger] group_ids@[g] == min_id(ids@, groups@[g]@),
            forall|g: int| 0 <= g < groups@.len() ==> #[trigger] groups@[g]@.len() > 0,
            forall|g: int|
                0 <= g < groups@.len() ==> #[trigger] group_starts(p, i as int)[g] < i,
            forall|g: int| 0 <= g < groups@.len() ==> mentioned(p, #[trigger] group_starts(p, i as int)[g] as int),
            forall|r: int|
                0 <= r < n ==> (#[trigger] root_to_group@[r] == usize::MAX <==> forall|j: int|
                    0 <= j < i && mentioned(p, j) ==> uf.root(j) != r),
            forall|r: int|
                0 <= r < n && root_to_group@[r] != usize::MAX ==> #[trigger] root_to_group@[r]
                    < groups@.len() && uf.root(group_starts(p, i as int)[root_to_group@[r] as int] as int) == r,
            forall|g: int|
                0 <= g < groups@.len() ==> #[trigger] root_to_group@[uf.root(
                    group_starts(p, i as int)[g] as int,
                )] == g,
            forall|j: int| 0 <= j < n ==> 0 <= #[trigger] uf.root(j) < n,
        decreases n - i,
    {
        let ghost starts = group_starts(p, i as int);
        let ghost before = uf;
        if marks[i] {
            let root = uf.find(i);
            proof {
                assert forall|j: int| 0 <= j < n implies #[trigger] uf.root(j) == before.root(j) by {}
                assert forall|x: int, y: int| 0 <= x < n && 0 <= y < n implies (#[trigger] uf.same(
                    x,
                    y,
                ) <==> joined(p, x, y)) by {
                    assert(before.same(x, y) <==> joined(p, x, y));
                }
            }
            let g = root_to_group[root];
            if g == usize::MAX {
                proof {
                    assert forall|j: int| 0 <= j < i implies !#[trigger] joined(p, j, i as int) by {
                        if joined(p, j, i as int) {
                            lemma_joined_mentioned(p, j, i as int);
                            assert(before.root(j) != root as int);
                            assert(uf.same(j, i as int));
                        }
                    }
                    assert(is_group_start(p, i as int));
                    assert(group_starts(p, i + 1) == starts.push(i));
                }
                let new_g = groups.len();
                let ghost old_rtg = root_to_group@;
                root_to_group.set(root, new_g);
                let mut members: Vec<usize> = Vec::new();
                members.push(i);
                groups.push(members);
                group_ids.push(ids[i]);
                proof {
                    let starts1 = group_starts(p, i + 1);
                    assert forall|h: int| 0 <= h < groups@.len() implies #[trigger] groups@[h]@
                        == group_members(p, i + 1, starts1[h] as int) by {
                        if h < new_g {
                            let s = starts[h] as int;
                            assert(starts1[h] == starts[h]);
                            assert(!joined(p, s, i as int));
                        } else {
                            assert(starts1[h] == i);
                            assert(group_members(p, i as int, i as int) =~= Seq::<usize>::empty())
                                by {
                                lemma_members_before_start(p, i as int, i as int);
                            }
                            assert(joined(p, i as int, i as int)) by {
                                assert(uf.same(i as int, i as int));
                            }
                            assert(groups@[h]@ =~= seq![i]);
                        }
                    }
                    assert forall|h: int| 0 <= h < groups@.len() implies #[trigger] group_ids@[h]
                        == min_id(ids@, groups@[h]@) by {
                        if h == new_g {
                            assert(groups@[h]@ =~= seq![i]);
                        }
                    }
                    assert forall|r: int| 0 <= r < n implies (#[trigger] root_to_group@[r]
                        == usize::MAX <==> forall|j: int|
                        0 <= j < i + 1 && mentioned(p, j) ==> uf.root(j) != r) by {
                        if r == root {
                            assert(uf.root(i as int) == root);
                            assert(mentioned(p, i as int));
                            assert(root_to_group@[r] == new_g);
                            assert(new_g != usize::MAX);
                        } else {
                            assert(root_to_group@[r] == old_rtg[r]);
                            if old_rtg[r] == usize::MAX {
                                assert forall|j: int| 0 <= j < i + 1 && mentioned(p, j) implies uf.root(
                                    j,
                                ) != r by {
                                    if j < i {
                                        assert(before.root(j) != r);
                                    } else {
                                        assert(uf.root(i as int) == root);
                                    }
                                }
                            } else {
                                assert(!(forall|j: int|
                                    0 <= j < i && mentioned(p, j) ==> before.root(j) != r));
                                let j = choose|j: int|
                                    0 <= j < i && mentioned(p, j) && before.root(j) == r;
                                assert(uf.root(j) == r);
                            }
                        }
                    }
                    assert forall|r: int| 0 <= r < n && root_to_group@[r] != usize::MAX implies #[trigger] root_to_group@[r]
                        < groups@.len() && uf.root(starts1[root_to_group@[r] as int] as int) == r by {
                        if r != root {
                            assert(starts1[root_to_group@[r] as int] == starts[root_to_group@[r] as int]);
                        }
                    }
                }
            } else {
                let ghost s = starts[g as int] as int;
                proof {
                    assert(uf.root(s) == root);
                    assert(uf.same(s, i as int));
                    assert(joined(p, s, i as int));
                    assert(!is_group_start(p, i as int)) by {
                        assert(s < i);
                        assert(joined(p, s, i as int));
                    }
                    assert(group_starts(p, i + 1) == starts);
                }
                let ghost old_members = groups@[g as int]@;
                groups[g].push(i);
                let old_min = group_ids[g];
                let id = ids[i];
                if id < old_min {
                    group_ids.set(g, id);
                }
                proof {
                    assert forall|h: int| 0 <= h < groups@.len() implies #[trigger] groups@[h]@
                        == group_members(p, i + 1, starts[h] as int) by {
                        if h != g {
                            let t = starts[h] as int;
                            assert(root_to_group@[uf.root(t)] == h);
                            assert(uf.root(t) != root);
                            assert(!uf.same(t, i as int));
                            assert(!joined(p, t, i as int));
                        }
                    }
                    assert forall|h: int| 0 <= h < groups@.len() implies #[trigger] group_ids@[h]
                        == min_id(ids@, groups@[h]@) by {
                        if h == g {
                            assert(groups@[h]@.drop_last() =~= old_members);
                        }
                    }
                    assert forall|r: int| 0 <= r < n implies (#[trigger] root_to_group@[r]
                        == usize::MAX <==> forall|j: int|
                        0 <= j < i + 1 && mentioned(p, j) ==> uf.root(j) != r) by {
                        if root_to_group@[r] != usize::MAX && r != root {
                            assert(!(forall|j: int| 0 <= j < i && mentioned(p, j) ==> before.root(j) != r));
                            let j = choose|j: int| 0 <= j < i && mentioned(p, j) && before.root(j) == r;
                            assert(uf.root(j) == r);
                        }
                    }
                }
            }
        } else {
            kept.push(i);
            proof {
                assert(group_starts(p, i + 1) == starts);
                assert forall|h: int| 0 <= h < groups@.len() implies #[trigger] groups@[h]@
                    == group_members(p, i + 1, starts[h] as int) by {}
            }
        }
        i = i + 1;
    }
    Some(FusionPlan { groups, group_ids, kept })
}

/// No body before a group's start belongs to its group.
proof fn lemma_members_before_start(p: Seq<(usize, usize)>, n: int, s: int)
    requires
        is_group_start(p, s),
        n <= s,
    ensures
        group_members(p, n, s) == Seq::<usize>::empty(),
    decreases n,
{
    if n > 0 {
        lemma_members_before_start(p, n - 1, s);
        if joined(p, s, n - 1) {
            crate::components::lemma_joined_symmetric(p, s, n - 1);
            assert(joined(p, n - 1, s));
        }
    }
}

/// Index `i` lies in `unfused(pairs, n)` exactly when it is below `n` and
/// takes part in no pair.
proof fn lemma_unfused_contains(pairs: Seq<(usize, usize)>, n: int, i: int)
    requires
        0 <= i <= usize::MAX,
        n <= usize::MAX,
    ensures
        unfused(pairs, n).contains(i as usize) <==> (i < n && !mentioned(pairs, i)),
    decreases n,
{
    if n > 0 {
        lemma_unfused_contains(pairs, n - 1, i);
        let rest = unfused(pairs, n - 1);
        if !mentioned(pairs, n - 1) {
            let all = rest.push((n - 1) as usize);
            assert(all[rest.len() as int] == (n - 1) as usize);
            if all.contains(i as usize) {
                let q = choose|q: int| 0 <= q < all.len() && all[q] == i as usize;
                if q < rest.len() {
                    assert(rest[q] == all[q]);
                }
            }
            if rest.contains(i as usize) {
                let q = choose|q: int| 0 <= q < rest.len() && rest[q] == i as usize;
                assert(all[q] == rest[q]);
            }
        }
    }
}

/// Index `i` lies in `group_members(pairs, n, s)` exactly when it is below
/// `n`, takes part in a pair, and is joined with `s`.
proof fn lemma_group_members_contains(pairs: Seq<(usize, usize)>, n: int, s: int, i: int)
    requires
        0 <= i <= usize::MAX,
        n <= usize::MAX,
    ensures
        group_members(pairs, n, s).contains(i as usize) <==> (i < n && mentioned(pairs, i)
            && joined(pairs, s, i)),
    decreases n,
{
    if n > 0 {
        lemma_group_members_contains(pairs, n - 1, s, i);
        let rest = group_members(pairs, n - 1, s);
        if mentioned(pairs, n - 1) && joined(pairs, s, n - 1) {
            let all = rest.push((n - 1) as usize);
            assert(all[rest.len() as int] == (n - 1) as usize);
            if all.contains(i as usize) {
                let q = choose|q: int| 0 <= q < all.len() && all[q] == i as usize;
                if q < rest.len() {
                    assert(rest[q] == all[q]);
                }
            }
            if rest.contains(i as usize) {
                let q = choose|q: int| 0 <= q < rest.len() && rest[q] == i as usize;
                assert(all[q] == rest[q]);
            }
        }
    }
}

/// The group starts below `n` are the starts below `n`, in strictly
/// increasing order.
proof fn lemma_group_starts_facts(pairs: Seq<(usize, usize)>, n: int)
    requires
        n <= usize::MAX,
    ensures
        forall|g: int|
            0 <= g < group_starts(pairs, n).len() ==> #[trigger] group_starts(pairs, n)[g] < n
                && is_group_start(pairs, group_starts(pairs, n)[g] as int),
        forall|g: int, h: int|
            0 <= g < h < group_starts(pairs, n).len() ==> #[trigger] group_starts(pairs, n)[g]
                < #[trigger] group_starts(pairs, n)[h],
        forall|s: int|
            0 <= s < n && is_group_start(pairs, s) ==> #[trigger] group_starts(pairs, n).contains(
                s as usize,
            ),
    decreases n,
{
    if n > 0 {
        lemma_group_starts_facts(pairs, n - 1);
        let rest = group_starts(pairs, n - 1);
        let all = group_starts(pairs, n);
        if is_group_start(pairs, n - 1) {
            assert(all == rest.push((n - 1) as usize));
            assert(all[rest.len() as int] == (n - 1) as usize);
            assert forall|g: int| 0 <= g < all.len() implies #[trigger] all[g] < n
                && is_group_start(pairs, all[g] as int) by {
                if g < rest.len() {
                    assert(all[g] == rest[g]);
                }
            }
            assert forall|g: int, h: int| 0 <= g < h < all.len() implies #[trigger] all[g]
                < #[trigger] all[h] by {
                assert(all[g] == rest[g]);
                if h < rest.len() {
                    assert(all[h] == rest[h]);
                }
            }
            assert forall|s: int| 0 <= s < n && is_group_start(pairs, s) implies #[trigger] all.contains(
                s as usize,
            ) by {
                if s < n - 1 {
                    assert(rest.contains(s as usize));
                    let q = choose|q: int| 0 <= q < rest.len() && rest[q] == s as usize;
                    assert(all[q] == rest[q]);
                }
            }
        }
    }
}

/// A body that takes part in a pair is joined with the start of its group,
/// which comes no later than the body itself.
proof fn lemma_has_start(pairs: Seq<(usize, usize)>, i: int)
    requires
        0 <= i,
        mentioned(pairs, i),
    ensures
        exists|s: int| 0 <= s <= i && is_group_start(pairs, s) && #[trigger] joined(pairs, s, i),
    decreases i,
{
    if is_group_start(pairs, i) {
        crate::components::lemma_joined_reflexive(pairs, i);
        assert(joined(pairs, i, i));
    } else {
        let j = choose|j: int| 0 <= j < i && #[trigger] joined(pairs, j, i);
        lemma_joined_mentioned(pairs, j, i);
        lemma_has_start(pairs, j);
        let s = choose|s: int| 0 <= s <= j && is_group_start(pairs, s) && #[trigger] joined(pairs, s, j);
        crate::components::lemma_joined_transitive(pairs, s, j, i);
        assert(joined(pairs, s, i));
    }
}

/// Two group starts joined with one body are the same start.
proof fn lemma_one_start(pairs: Seq<(usize, usize)>, s: int, t: int, i: int)
    requires
        0 <= s,
        0 <= t,
        is_group_start(pairs, s),
        is_group_start(pairs, t),
        joined(pairs, s, i),
        joined(pairs, t, i),
    ensures
        s == t,
{
    crate::components::lemma_joined_symmetric(pairs, t, i);
    crate::components::lemma_joined_transitive(pairs, s, i, t);
    crate::components::lemma_joined_symmetric(pairs, s, t);
    if s < t {
        assert(joined(pairs, s, t));
    } else if t < s {
        assert(joined(pairs, t, s));
    }
}

/// Every body below `n` either takes part in a pair or not.
proof fn lemma_mentioned_count(pairs: Seq<(usize, usize)>, n: int)
    requires
        0 <= n <= usize::MAX,
    ensures
        mentioned_count(pairs, n) + unfused(pairs, n).len() == n,
    decreases n,
{
    if n > 0 {
        lemma_mentioned_count(pairs, n - 1);
    }
}

/// Fusion keeps every body exactly once: of the bodies `0..n`, each one that
/// takes part in a touching pair belongs to exactly one fused group and is
/// not kept, each other one is kept and belongs to no group, and the bodies
/// that fuse and the bodies kept add up to `n`.
pub proof fn lemma_fusion_partition(pairs: Seq<(usize, usize)>, n: int, i: int)
    requires
        0 <= i < n,
        n <= usize::MAX,
    ensures
        ({
            let starts = group_starts(pairs, n);
            &&& unfused(pairs, n).contains(i as usize) <==> !mentioned(pairs, i)
            &&& mentioned(pairs, i) ==> exists|g: int|
                0 <= g < starts.len() && #[trigger] group_members(pairs, n, starts[g] as int).contains(
                    i as usize,
                )
            &&& forall|g: int, h: int|
                0 <= g < starts.len() && 0 <= h < starts.len() && #[trigger] group_members(
                    pairs,
                    n,
                    starts[g] as int,
                ).contains(i as usize) && #[trigger] group_members(
                    pairs,
                    n,
                    starts[h] as int,
                ).contains(i as usize) ==> g == h
            &&& !mentioned(pairs, i) ==> forall|g: int|
                0 <= g < starts.len() ==> !#[trigger] group_members(
                    pairs,
                    n,
                    starts[g] as int,
                ).contains(i as usize)
        }),
        mentioned_count(pairs, n) + unfused(pairs, n).len() == n,
{
    let starts = group_starts(pairs, n);
    lemma_unfused_contains(pairs, n, i);
    lemma_group_starts_facts(pairs, n);
    lemma_mentioned_count(pairs, n);
    if mentioned(pairs, i) {
        lemma_has_start(pairs, i);
        let s = choose|s: int| 0 <= s <= i && is_group_start(pairs, s) && #[trigger] joined(pairs, s, i);
        assert(starts.contains(s as usize));
        let g = choose|g: int| 0 <= g < starts.len() && starts[g] == s as usize;
        lemma_group_members_contains(pairs, n, s, i);
        assert(group_members(pairs, n, starts[g] as int).contains(i as usize));
    }
    assert forall|g: int, h: int|
        0 <= g < starts.len() && 0 <= h < starts.len() && #[trigger] group_members(
            pairs,
            n,
            starts[g] as int,
        ).contains(i as usize) && #[trigger] group_members(
            pairs,
            n,
            starts[h] as int,
        ).contains(i as usize) implies g == h by {
        lemma_group_members_contains(pairs, n, starts[g] as int, i);
        lemma_group_members_contains(pairs, n, starts[h] as int, i);
        lemma_one_start(pairs, starts[g] as int, starts[h] as int, i);
        if g < h {
            assert(starts[g] < starts[h]);
        } else if h < g {
            assert(starts[h] < starts[g]);
        }
    }
    assert forall|g: int| !mentioned(pairs, i) && 0 <= g < starts.len() implies !#[trigger] group_members(
        pairs,
        n,
        starts[g] as int,
    ).contains(i as usize) by {
        lemma_group_members_contains(pairs, n, starts[g] as int, i);
    }
}

/// The id a fused body takes is the id of one of its bodies, and no body of
/// the group has a smaller one.
pub proof fn lemma_min_id(ids: Seq<u64>, members: Seq<usize>)
    requires
        members.len() > 0,
    ensures
        exists|k: int| 0 <= k < members.len() && min_id(ids, members) == ids[#[trigger] members[k] as int],
        forall|k: int| 0 <= k < members.len() ==> min_id(ids, members) <= ids[#[trigger] members[k] as int],
    decreases members.len(),
{
    if members.len() == 1 {
        assert(min_id(ids, members) == ids[members[0] as int]);
    } else {
        let rest = members.drop_last();
        lemma_min_id(ids, rest);
        let last = members.len() - 1;
        assert(members[last] == members.last());
        assert forall|k: int| 0 <= k < rest.len() implies #[trigger] rest[k] == members[k] by {}
        let k0 = choose|k: int| 0 <= k < rest.len() && min_id(ids, rest) == ids[#[trigger] rest[k] as int];
        if ids[members.last() as int] < min_id(ids, rest) {
            assert(min_id(ids, members) == ids[members[last] as int]);
        } else {
            assert(min_id(ids, members) == ids[members[k0] as int]);
        }
        assert forall|k: int| 0 <= k < members.len() implies min_id(ids, members) <= ids[#[trigger] members[k] as int] by {
            if k < rest.len() {
                assert(min_id(ids, rest) <= ids[rest[k] as int]);
            }
        }
    }
}

} // verus!
