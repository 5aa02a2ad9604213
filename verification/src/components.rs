//! Clumps of bonded bodies: which bodies a chain of bonds joins, numbered in
//! order of their first body, and the members of the clumps that may collide.

use vstd::prelude::*;

use crate::ids::{bond_end, index_by_id, index_entry, max_id};
use crate::union_find::UnionFind;

verus! {

/// The bonds `keys` (pairs of ids) as pairs of body indices, in order,
/// leaving out every bond with an end that no body carries.
pub open spec fn bond_links(ids: Seq<u64>, keys: Seq<(u64, u64)>) -> Seq<(usize, usize)>
    decreases keys.len(),
{
    if keys.len() == 0 {
        Seq::empty()
    } else {
        let rest = bond_links(ids, keys.drop_last());
        match bond_end(ids, keys.last()) {
            Some(e) => rest.push(e),
            None => rest,
        }
    }
}

/// `x` and `y` are joined by a chain of `links`: the smallest equivalence
/// relation holding every link, built one link at a time.
pub open spec fn joined(links: Seq<(usize, usize)>, x: int, y: int) -> bool
    decreases links.len(),
{
    if links.len() == 0 {
        x == y
    } else {
        let rest = links.drop_last();
        let a = links.last().0 as int;
        let b = links.last().1 as int;
        ||| joined(rest, x, y)
        ||| joined(rest, x, a) && joined(rest, y, b)
        ||| joined(rest, x, b) && joined(rest, y, a)
    }
}

/// Being joined does not depend on the order of the two bodies.
pub proof fn lemma_joined_symmetric(links: Seq<(usize, usize)>, x: int, y: int)
    requires
        joined(links, x, y),
    ensures
        joined(links, y, x),
    decreases links.len(),
{
    if links.len() > 0 {
        let rest = links.drop_last();
        if joined(rest, x, y) {
            lemma_joined_symmetric(rest, x, y);
        }
    }
}

/// Every body is joined with itself.
pub proof fn lemma_joined_reflexive(links: Seq<(usize, usize)>, x: int)
    ensures
        joined(links, x, x),
    decreases links.len(),
{
    if links.len() > 0 {
        lemma_joined_reflexive(links.drop_last(), x);
    }
}

/// Being joined chains: bodies joined with a common body are joined.
pub proof fn lemma_joined_transitive(links: Seq<(usize, usize)>, x: int, y: int, z: int)
    requires
        joined(links, x, y),
        joined(links, y, z),
    ensures
        joined(links, x, z),
    decreases links.len(),
{
    if links.len() > 0 {
        let r = links.drop_last();
        let a = links.last().0 as int;
        let b = links.last().1 as int;
        if joined(r, x, y) && joined(r, y, z) {
            lemma_joined_transitive(r, x, y, z);
        } else if joined(r, x, y) && joined(r, y, a) && joined(r, z, b) {
            lemma_joined_transitive(r, x, y, a);
        } else if joined(r, x, y) && joined(r, y, b) && joined(r, z, a) {
            lemma_joined_transitive(r, x, y, b);
        } else if joined(r, x, a) && joined(r, y, b) && joined(r, y, z) {
            lemma_joined_symmetric(r, y, z);
            lemma_joined_transitive(r, z, y, b);
        } else if joined(r, x, a) && joined(r, y, b) && joined(r, y, a) && joined(r, z, b) {
            lemma_joined_symmetric(r, y, a);
            lemma_joined_transitive(r, x, a, y);
            lemma_joined_symmetric(r, z, b);
            lemma_joined_transitive(r, y, b, z);
            lemma_joined_transitive(r, x, y, z);
        } else if joined(r, x, a) && joined(r, y, b) && joined(r, y, b) && joined(r, z, a) {
            lemma_joined_symmetric(r, z, a);
            lemma_joined_transitive(r, x, a, z);
        } else if joined(r, x, b) && joined(r, y, a) && joined(r, y, z) {
            lemma_joined_symmetric(r, y, z);
            lemma_joined_transitive(r, z, y, a);
        } else if joined(r, x, b) && joined(r, y, a) && joined(r, y, a) && joined(r, z, b) {
            lemma_joined_symmetric(r, z, b);
            lemma_joined_transitive(r, x, b, z);
        } else {
            // x ~ b, y ~ a, y ~ b, z ~ a
            lemma_joined_symmetric(r, y, b);
            lemma_joined_transitive(r, x, b, y);
            lemma_joined_symmetric(r, z, a);
            lemma_joined_transitive(r, y, a, z);
            lemma_joined_transitive(r, x, y, z);
        }
    }
}

/// The two ends of every link are joined.
pub proof fn lemma_link_ends_joined(links: Seq<(usize, usize)>, k: int)
    requires
        0 <= k < links.len(),
    ensures
        joined(links, links[k].0 as int, links[k].1 as int),
    decreases links.len(),
{
    let r = links.drop_last();
    let x = links[k].0 as int;
    let y = links[k].1 as int;
    if k == links.len() - 1 {
        lemma_joined_reflexive(r, x);
        lemma_joined_reflexive(r, y);
    } else {
        assert(r[k] == links[k]);
        lemma_link_ends_joined(r, k);
    }
}

/// `i` is the first body of its clump.
pub open spec fn is_first(links: Seq<(usize, usize)>, i: int) -> bool {
    forall|j: int| 0 <= j < i ==> !#[trigger] joined(links, j, i)
}

/// How many clumps start before body `i`.
pub open spec fn firsts_before(links: Seq<(usize, usize)>, i: int) -> nat
    decreases i,
{
    if i <= 0 {
        0
    } else {
        firsts_before(links, i - 1) + if is_first(links, i - 1) {
            1nat
        } else {
            0nat
        }
    }
}

/// Every link joins bodies in `0..n`.
pub open spec fn links_in_range(links: Seq<(usize, usize)>, n: nat) -> bool {
    forall|k: int| 0 <= k < links.len() ==> #[trigger] links[k].0 < n && links[k].1 < n
}

/// The links of the bonds join bodies that exist.
proof fn lemma_bond_links_in_range(ids: Seq<u64>, keys: Seq<(u64, u64)>)
    ensures
        links_in_range(bond_links(ids, keys), ids.len()),
    decreases keys.len(),
{
    if keys.len() > 0 {
        lemma_bond_links_in_range(ids, keys.drop_last());
        let (a, b) = keys.last();
        crate::ids::lemma_last_index_of(ids, a as usize as int);
        crate::ids::lemma_last_index_of(ids, b as usize as int);
        let rest = bond_links(ids, keys.drop_last());
        let all = bond_links(ids, keys);
        assert forall|k: int| 0 <= k < all.len() implies #[trigger] all[k].0 < ids.len() && all[k].1
            < ids.len() by {
            if k < rest.len() {
                assert(all[k] == rest[k]);
            }
        }
    }
}

/// Clump labels of the `ids.len()` bodies under the bonds `keys`: two bodies
/// share a label exactly when a chain of bonds joins them, and labels are
/// numbered from 0 in the order of each clump's first body. Also returns the
/// number of clumps.
pub fn component_labels(ids: &Vec<u64>, keys: &Vec<(u64, u64)>) -> (r: (Vec<usize>, usize))
    requires
        max_id(ids@) < usize::MAX,
    ensures
        ({
            let links = bond_links(ids@, keys@);
            let (labels, count) = r;
            &&& labels@.len() == ids@.len()
            &&& count == firsts_before(links, ids@.len() as int)
            &&& forall|i: int| 0 <= i < ids@.len() ==> #[trigger] labels@[i] < count
            &&& forall|i: int, j: int|
                0 <= i < ids@.len() && 0 <= j < ids@.len() ==> (#[trigger] labels@[i]
                    == #[trigger] labels@[j] <==> joined(links, i, j))
            &&& forall|i: int|
                0 <= i < ids@.len() && is_first(links, i) ==> #[trigger] labels@[i]
                    == firsts_before(links, i)
        }),
{
    let n = ids.len();
    let table = index_by_id(ids);
    let ghost links = bond_links(ids@, keys@);
    let mut uf = UnionFind::new(n);
    proof {
        lemma_bond_links_in_range(ids@, keys@);
        crate::ids::lemma_max_id(ids@);
    }
    let mut k: usize = 0;
    while k < keys.len()
        invariant
            k <= keys.len(),
            n == ids@.len(),
            uf.wf(),
            uf.size() == n,
            table@.len() == max_id(ids@) + 1,
            forall|id: int| 0 <= id < table@.len() ==> #[trigger] table@[id] == index_entry(ids@, id),
            forall|x: int, y: int|
                0 <= x < n && 0 <= y < n ==> (#[trigger] uf.same(x, y) <==> joined(
                    bond_links(ids@, keys@.take(k as int)),
                    x,
                    y,
                )),
        decreases keys.len() - k,
    {
        let ghost prev = bond_links(ids@, keys@.take(k as int));
        proof {
            assert(keys@.take(k + 1).drop_last() =~= keys@.take(k as int));
            assert(keys@.take(k + 1).last() == keys@[k as int]);
            lemma_bond_links_in_range(ids@, keys@.take(k + 1));
        }
        let (a, b) = keys[k];
        #[verifier::truncate]
        let ai = a as usize;
        #[verifier::truncate]
        let bi = b as usize;
        if ai < table.len() && bi < table.len() {
            let i = table[ai];
            let j = table[bi];
            if i != usize::MAX && j != usize::MAX {
                let ghost cur = bond_links(ids@, keys@.take(k + 1));
                proof {
                    assert(cur == prev.push((i, j)));
                    assert(cur.last() == (i, j));
                    assert(cur.drop_last() =~= prev);
                    assert(i < n && j < n) by {
                        assert(cur[cur.len() - 1] == (i, j));
                        assert(cur[cur.len() - 1].0 == i);
                        assert(cur[cur.len() - 1].1 == j);
                    }
                }
                let ghost before = uf;
                uf.union(i, j);
                proof {
                    assert forall|x: int, y: int| 0 <= x < n && 0 <= y < n implies (
                    #[trigger] uf.same(x, y) <==> joined(cur, x, y)) by {
                        assert(before.same(x, i as int) <==> joined(prev, x, i as int));
                        assert(before.same(y, j as int) <==> joined(prev, y, j as int));
                        assert(before.same(x, j as int) <==> joined(prev, x, j as int));
                        assert(before.same(y, i as int) <==> joined(prev, y, i as int));
                        assert(before.same(x, y) <==> joined(prev, x, y));
                    }
                }
            }
        }
        k = k + 1;
    }
    proof {
        assert(keys@.take(keys.len() as int) =~= keys@);
    }
    let mut root_to_comp: Vec<usize> = vec![usize::MAX; n];
    let mut labels: Vec<usize> = Vec::with_capacity(n);
    let mut count: usize = 0;
    let mut i: usize = 0;
    while i < n
        invariant
            i <= n,
            n == ids@.len(),
            uf.wf(),
            uf.size() == n,
            links == bond_links(ids@, keys@),
            forall|x: int, y: int|
                0 <= x < n && 0 <= y < n ==> (#[trigger] uf.same(x, y) <==> joined(links, x, y)),
            root_to_comp@.len() == n,
            labels@.len() == i,
            count == firsts_before(links, i as int),
            count <= i,
            forall|r: int|
                0 <= r < n ==> (#[trigger] root_to_comp@[r] == usize::MAX <==> forall|j: int|
                    0 <= j < i ==> uf.root(j) != r),
            forall|r: int| 0 <= r < n && root_to_comp@[r] != usize::MAX ==> #[trigger] root_to_comp@[r] < count,
            forall|r1: int, r2: int|
                0 <= r1 < n && 0 <= r2 < n && r1 != r2 && root_to_comp@[r1] != usize::MAX
                    ==> #[trigger] root_to_comp@[r1] != #[trigger] root_to_comp@[r2],
            forall|j: int| 0 <= j < i ==> 0 <= #[trigger] uf.root(j) < n,
            forall|j: int| 0 <= j < i ==> #[trigger] labels@[j] == root_to_comp@[uf.root(j)],
            forall|j: int|
                0 <= j < i && is_first(links, j) ==> #[trigger] labels@[j] == firsts_before(links, j),
        decreases n - i,
    {
        let ghost before = uf;
        let root = uf.find(i);
        proof {
            assert forall|j: int| 0 <= j < n implies #[trigger] uf.root(j) == before.root(j) by {}
            assert(uf.root(i as int) == root);
            assert forall|x: int, y: int| 0 <= x < n && 0 <= y < n implies (#[trigger] uf.same(x, y)
                <==> joined(links, x, y)) by {
                assert(uf.root(x) == before.root(x));
                assert(uf.root(y) == before.root(y));
                assert(before.same(x, y) <==> joined(links, x, y));
            }
        }
        let mut comp = root_to_comp[root];
        let ghost first = is_first(links, i as int);
        proof {
            assert(0 <= root < n);
            if comp == usize::MAX {
                assert forall|j: int| 0 <= j < i implies !#[trigger] joined(links, j, i as int) by {
                    assert(before.root(j) != root as int);
                    assert(!before.same(j, i as int));
                }
                assert(first);
            } else {
                assert(!(forall|j: int| 0 <= j < i ==> before.root(j) != root as int));
                let j = choose|j: int| 0 <= j < i && before.root(j) == root as int;
                assert(before.same(j, i as int));
                assert(joined(links, j, i as int));
                assert(!first);
            }
        }
        let ghost old_rtc = root_to_comp@;
        if comp == usize::MAX {
            comp = count;
            root_to_comp.set(root, comp);
            count = count + 1;
        }
        labels.push(comp);
        proof {
            assert(firsts_before(links, i + 1) == firsts_before(links, i as int) + if first {
                1nat
            } else {
                0nat
            });
            assert forall|r: int| 0 <= r < n implies (#[trigger] root_to_comp@[r] == usize::MAX
                <==> forall|j: int| 0 <= j < i + 1 ==> uf.root(j) != r) by {
                if r != root {
                    assert(root_to_comp@[r] == old_rtc[r]);
                    if old_rtc[r] != usize::MAX {
                        assert(!(forall|j: int| 0 <= j < i ==> before.root(j) != r));
                        let j = choose|j: int| 0 <= j < i && before.root(j) == r;
                        assert(uf.root(j) == r);
                    }
                }
            }
        }
        i = i + 1;
    }
    proof {
        assert forall|x: int, y: int| 0 <= x < n && 0 <= y < n implies (#[trigger] labels@[x]
            == #[trigger] labels@[y] <==> joined(links, x, y)) by {
            assert(uf.same(x, y) <==> joined(links, x, y));
            if uf.root(x) != uf.root(y) {
                assert(root_to_comp@[uf.root(x)] != usize::MAX);
            }
        }
        assert forall|x: int| 0 <= x < n implies #[trigger] labels@[x] < count by {
            assert(root_to_comp@[uf.root(x)] != usize::MAX);
        }
    }
    (labels, count)
}

/// Clump `c` takes part in one of the colliding clump pairs.
pub open spec fn involved(comp_pairs: Seq<(usize, usize)>, c: int) -> bool {
    exists|k: int|
        0 <= k < comp_pairs.len() && (#[trigger] comp_pairs[k].0 == c || comp_pairs[k].1 == c)
}

/// A pair at the end takes part exactly when one of its clumps is `c`.
pub proof fn lemma_involved_push(s: Seq<(usize, usize)>, x: (usize, usize), c: int)
    ensures
        involved(s.push(x), c) == (involved(s, c) || x.0 == c || x.1 == c),
{
    let t = s.push(x);
    if involved(s, c) {
        let k = choose|k: int| 0 <= k < s.len() && (#[trigger] s[k].0 == c || s[k].1 == c);
        assert(t[k] == s[k]);
        assert(0 <= k < t.len() && (t[k].0 == c || t[k].1 == c));
    }
    if x.0 == c || x.1 == c {
        let k = s.len() as int;
        assert(t[k] == x);
        assert(0 <= k < t.len() && (t[k].0 == c || t[k].1 == c));
    }
    if involved(t, c) {
        let k = choose|k: int| 0 <= k < t.len() && (#[trigger] t[k].0 == c || t[k].1 == c);
        if k < s.len() {
            assert(t[k] == s[k]);
            assert(0 <= k < s.len() && (s[k].0 == c || s[k].1 == c));
        } else {
            assert(t[k] == x);
        }
    }
}

/// The bodies labelled `c`, in increasing order.
pub open spec fn members_of(labels: Seq<usize>, c: int) -> Seq<usize>
    decreases labels.len(),
{
    if labels.len() == 0 {
        Seq::empty()
    } else {
        let rest = members_of(labels.drop_last(), c);
        if labels.last() == c {
            rest.push((labels.len() - 1) as usize)
        } else {
            rest
        }
    }
}

/// The bodies labelled `c` are exactly the indices whose label is `c`, each
/// listed once, in strictly increasing order.
pub proof fn lemma_members_of(labels: Seq<usize>, c: int)
    requires
        labels.len() <= usize::MAX,
    ensures
        forall|i: int|
            0 <= i < labels.len() ==> (members_of(labels, c).contains(i as usize) <==> #[trigger] labels[i]
                == c),
        forall|k: int|
            0 <= k < members_of(labels, c).len() ==> #[trigger] members_of(labels, c)[k] < labels.len()
                && labels[members_of(labels, c)[k] as int] == c,
        forall|k: int, q: int|
            0 <= k < q < members_of(labels, c).len() ==> #[trigger] members_of(labels, c)[k]
                < #[trigger] members_of(labels, c)[q],
    decreases labels.len(),
{
    if labels.len() > 0 {
        let rest = labels.drop_last();
        lemma_members_of(rest, c);
        let mr = members_of(rest, c);
        let m = members_of(labels, c);
        let last = labels.len() - 1;
        assert(labels[last] == labels.last());
        assert forall|i: int| 0 <= i < rest.len() implies #[trigger] rest[i] == labels[i] by {}
        if labels.last() == c {
            assert(m == mr.push(last as usize));
            assert(m[mr.len() as int] == last as usize);
        } else {
            assert(m == mr);
        }
        assert forall|k: int| 0 <= k < m.len() implies #[trigger] m[k] < labels.len() && labels[m[k] as int] == c by {
            if k < mr.len() {
                assert(m[k] == mr[k]);
                assert(rest[mr[k] as int] == c);
            }
        }
        assert forall|k: int, q: int| 0 <= k < q < m.len() implies #[trigger] m[k] < #[trigger] m[q] by {
            assert(m[k] == mr[k]);
            if q < mr.len() {
                assert(m[q] == mr[q]);
            } else {
                assert(mr[k] < rest.len());
            }
        }
        assert forall|i: int| 0 <= i < labels.len() implies (m.contains(i as usize) <==> #[trigger] labels[i]
            == c) by {
            if m.contains(i as usize) {
                let k = choose|k: int| 0 <= k < m.len() && m[k] == i as usize;
                assert(labels[m[k] as int] == c);
            }
            if labels[i] == c {
                if i < last {
                    assert(rest[i] == c);
                    assert(mr.contains(i as usize));
                    let k = choose|k: int| 0 <= k < mr.len() && mr[k] == i as usize;
                    assert(m[k] == mr[k]);
                } else {
                    assert(m[mr.len() as int] == i as usize);
                }
            }
        }
    }
}

/// For each of the `count` clumps, its bodies in increasing order when the
/// clump takes part in one of the colliding clump pairs `comp_pairs`, and no
/// bodies otherwise.
pub fn component_members(
    labels: &Vec<usize>,
    count: usize,
    comp_pairs: &Vec<(usize, usize)>,
) -> (members: Vec<Vec<usize>>)
    requires
        forall|i: int| 0 <= i < labels@.len() ==> #[trigger] labels@[i] < count,
        forall|k: int| 0 <= k < comp_pairs@.len() ==> #[trigger] comp_pairs@[k].0 < count
            && comp_pairs@[k].1 < count,
    ensures
        members@.len() == count,
        forall|c: int|
            0 <= c < count ==> #[trigger] members@[c]@ == if involved(comp_pairs@, c) {
                members_of(labels@, c)
            } else {
                Seq::empty()
            },
        forall|c: int, i: int|
            0 <= c < count && involved(comp_pairs@, c) && 0 <= i < labels@.len() ==> (
            #[trigger] members@[c]@.contains(i as usize) <==> #[trigger] labels@[i] == c),
        forall|c: int, k: int, q: int|
            0 <= c < count && 0 <= k < q < members@[c]@.len() ==> #[trigger] members@[c]@[k]
                < #[trigger] members@[c]@[q],
{
    let mut flags: Vec<bool> = vec![false; count];
    let mut k: usize = 0;
    while k < comp_pairs.len()
        invariant
            k <= comp_pairs.len(),
            flags@.len() == count,
            forall|q: int| 0 <= q < comp_pairs@.len() ==> #[trigger] comp_pairs@[q].0 < count
                && comp_pairs@[q].1 < count,
            forall|c: int|
                0 <= c < count ==> #[trigger] flags@[c] == involved(comp_pairs@.take(k as int), c),
        decreases comp_pairs.len() - k,
    {
        let (a, b) = comp_pairs[k];
        proof {
            assert(comp_pairs@.take(k + 1) =~= comp_pairs@.take(k as int).push((a, b)));
            assert forall|c: int| #[trigger] involved(comp_pairs@.take(k + 1), c) == (involved(
                comp_pairs@.take(k as int),
                c,
            ) || a == c || b == c) by {
                lemma_involved_push(comp_pairs@.take(k as int), (a, b), c);
            }
        }
        flags.set(a, true);
        flags.set(b, true);
        k = k + 1;
    }
    proof {
        assert(comp_pairs@.take(comp_pairs.len() as int) =~= comp_pairs@);
    }
    let mut members: Vec<Vec<usize>> = Vec::with_capacity(count);
    let mut c: usize = 0;
    while c < count
        invariant
            c <= count,
            members@.len() == c,
            forall|d: int| 0 <= d < c ==> #[trigger] members@[d]@ == Seq::<usize>::empty(),
        decreases count - c,
    {
        members.push(Vec::new());
        c = c + 1;
    }
    let mut i: usize = 0;
    while i < labels.len()
        invariant
            i <= labels.len(),
            members@.len() == count,
            flags@.len() == count,
            forall|q: int| 0 <= q < labels@.len() ==> #[trigger] labels@[q] < count,
            forall|d: int| 0 <= d < count ==> (#[trigger] flags@[d] <==> involved(comp_pairs@, d)),
            forall|d: int|
                0 <= d < count ==> #[trigger] members@[d]@ == if flags@[d] {
                    members_of(labels@.take(i as int), d)
                } else {
                    Seq::empty()
                },
        decreases labels.len() - i,
    {
        let comp = labels[i];
        proof {
            assert(labels@.take(i + 1).drop_last() =~= labels@.take(i as int));
            assert(labels@.take(i + 1).last() == comp);
        }
        if flags[comp] {
            members[comp].push(i);
        }
        proof {
            assert forall|d: int| 0 <= d < count implies #[trigger] members@[d]@ == if flags@[d] {
                members_of(labels@.take(i + 1), d)
            } else {
                Seq::empty()
            } by {}
        }
        i = i + 1;
    }
    proof {
        assert(labels@.take(labels.len() as int) =~= labels@);
        assert forall|c: int| 0 <= c < count implies #[trigger] members@[c]@ == if involved(comp_pairs@, c) {
            members_of(labels@, c)
        } else {
            Seq::empty()
        } by {}
        assert forall|c: int, i: int|
            0 <= c < count && involved(comp_pairs@, c) && 0 <= i < labels@.len() implies (
            #[trigger] members@[c]@.contains(i as usize) <==> #[trigger] labels@[i] == c) by {
            lemma_members_of(labels@, c);
        }
        assert forall|c: int, k: int, q: int|
            0 <= c < count && 0 <= k < q < members@[c]@.len() implies #[trigger] members@[c]@[k]
                < #[trigger] members@[c]@[q] by {
            lemma_members_of(labels@, c);
        }
    }
    members
}

} // verus!
