//! Disjoint sets over `0..n` with path compression and union by rank.
//!
//! The forest is ordered by a ghost level that strictly increases from child
//! to parent; it bounds every walk to a root.

use vstd::prelude::*;

verus! {

/// The parent links form a forest over `0..parent.len()` whose levels strictly
/// increase from each non-root node to its parent and stay below `bound`.
pub open spec fn forest_wf(parent: Seq<usize>, level: Seq<nat>, bound: nat) -> bool {
    &&& level.len() == parent.len()
    &&& forall|x: int| 0 <= x < parent.len() ==> #[trigger] parent[x] < parent.len()
    &&& forall|x: int| 0 <= x < parent.len() ==> #[trigger] level[x] < bound
    &&& forall|x: int|
        0 <= x < parent.len() && #[trigger] parent[x] != x ==> level[x] < level[parent[x] as int]
}

/// The root reached from `x` by following parent links.
pub open spec fn root_of(parent: Seq<usize>, level: Seq<nat>, bound: nat, x: int) -> int
    decreases bound - level[x],
{
    if !(0 <= x < parent.len()) || parent[x] == x {
        x
    } else {
        let p = parent[x] as int;
        if 0 <= p < parent.len() && p < level.len() && level[x] < level[p] && level[p] <= bound {
            root_of(parent, level, bound, p)
        } else {
            x
        }
    }
}

/// In a well-formed forest the root of `x` is a root in range, at or above
/// the level of `x`, and non-roots share the root of their parent.
pub proof fn lemma_root_facts(parent: Seq<usize>, level: Seq<nat>, bound: nat, x: int)
    requires
        forest_wf(parent, level, bound),
        0 <= x < parent.len(),
    ensures
        0 <= root_of(parent, level, bound, x) < parent.len(),
        parent[root_of(parent, level, bound, x)] == root_of(parent, level, bound, x),
        level[root_of(parent, level, bound, x)] >= level[x],
        root_of(parent, level, bound, x) != x ==> level[root_of(parent, level, bound, x)]
            > level[x],
        parent[x] != x ==> root_of(parent, level, bound, x) == root_of(
            parent,
            level,
            bound,
            parent[x] as int,
        ),
        root_of(parent, level, bound, root_of(parent, level, bound, x)) == root_of(
            parent,
            level,
            bound,
            x,
        ),
    decreases bound - level[x],
{
    if parent[x] != x {
        let p = parent[x] as int;
        assert(level[p] < bound);
        lemma_root_facts(parent, level, bound, p);
    }
}

/// Pointing `x` straight at its root changes no node's root.
proof fn lemma_compress(parent: Seq<usize>, level: Seq<nat>, bound: nat, x: int, y: int)
    requires
        forest_wf(parent, level, bound),
        0 <= x < parent.len(),
        0 <= y < parent.len(),
    ensures
        forest_wf(
            parent.update(x, root_of(parent, level, bound, x) as usize),
            level,
            bound,
        ),
        root_of(parent.update(x, root_of(parent, level, bound, x) as usize), level, bound, y)
            == root_of(parent, level, bound, y),
    decreases bound - level[y],
{
    let r = root_of(parent, level, bound, x);
    lemma_root_facts(parent, level, bound, x);
    let p2 = parent.update(x, r as usize);
    assert forall|z: int| 0 <= z < p2.len() && #[trigger] p2[z] != z implies level[z]
        < level[p2[z] as int] by {
        if z == x {
        } else {
            assert(p2[z] == parent[z]);
        }
    }
    assert(forest_wf(p2, level, bound));
    if y == x {
        if r != x {
            lemma_root_facts(p2, level, bound, x);
            lemma_root_facts(p2, level, bound, r);
            assert(p2[r] == r);
        } else {
            assert(p2 =~= parent);
        }
    } else if parent[y] == y {
        assert(p2[y] == y);
    } else {
        let p = parent[y] as int;
        lemma_root_facts(parent, level, bound, y);
        lemma_root_facts(p2, level, bound, y);
        assert(p2[y] == parent[y]);
        assert(level[p] < bound);
        lemma_compress(parent, level, bound, x, p);
    }
}

/// Hanging root `b` under root `a` (with `a` raised above `b`) sends every
/// node of `b`'s tree to `a` and leaves every other root alone.
proof fn lemma_link(
    parent: Seq<usize>,
    level: Seq<nat>,
    bound: nat,
    a: int,
    b: int,
    level2: Seq<nat>,
    bound2: nat,
    y: int,
)
    requires
        forest_wf(parent, level, bound),
        0 <= a < parent.len(),
        0 <= b < parent.len(),
        a != b,
        parent[a] == a,
        parent[b] == b,
        level2 == level.update(a, if level[a] > level[b] { level[a] } else { level[b] + 1 }),
        bound2 == if bound > level2[a] { bound } else { level2[a] + 1 },
        0 <= y < parent.len(),
    ensures
        forest_wf(parent.update(b, a as usize), level2, bound2),
        root_of(parent.update(b, a as usize), level2, bound2, y) == if root_of(
            parent,
            level,
            bound,
            y,
        ) == b {
            a
        } else {
            root_of(parent, level, bound, y)
        },
    decreases bound - level[y],
{
    let p2 = parent.update(b, a as usize);
    assert forall|z: int| 0 <= z < p2.len() implies #[trigger] level2[z] < bound2 by {}
    assert forall|z: int| 0 <= z < p2.len() && #[trigger] p2[z] != z implies level2[z]
        < level2[p2[z] as int] by {
        if z == b {
        } else {
            assert(p2[z] == parent[z]);
            assert(level[z] < level[parent[z] as int]);
        }
    }
    assert(forest_wf(p2, level2, bound2));
    lemma_root_facts(parent, level, bound, y);
    if parent[y] == y {
        if y == b {
            lemma_root_facts(p2, level2, bound2, b);
            assert(p2[a] == a);
        } else {
            assert(p2[y] == y);
        }
    } else {
        let p = parent[y] as int;
        assert(y != b);
        assert(p2[y] == parent[y]);
        lemma_root_facts(p2, level2, bound2, y);
        assert(level[p] < bound);
        lemma_link(parent, level, bound, a, b, level2, bound2, p);
    }
}

/// After merging the sets of `a` and `b`, `x` and `y` are together exactly
/// when they were already, or one was with `a` and the other with `b`.
pub open spec fn merged(uf: UnionFind, a: int, b: int, x: int, y: int) -> bool {
    ||| uf.same(x, y)
    ||| uf.same(x, a) && uf.same(y, b)
    ||| uf.same(x, b) && uf.same(y, a)
}

/// Disjoint sets over `0..n`.
pub struct UnionFind {
    parent: Vec<usize>,
    rank: Vec<u8>,
    level: Ghost<Seq<nat>>,
    bound: Ghost<nat>,
}

impl UnionFind {
    /// Number of elements.
    pub closed spec fn size(self) -> nat {
        self.parent@.len()
    }

    /// The representative of the set holding `x`.
    pub closed spec fn root(self, x: int) -> int {
        root_of(self.parent@, self.level@, self.bound@, x)
    }

    /// `x` and `y` are in the same set.
    pub open spec fn same(self, x: int, y: int) -> bool {
        self.root(x) == self.root(y)
    }

    /// The parent links form a forest and every element has a rank.
    pub closed spec fn wf(self) -> bool {
        &&& forest_wf(self.parent@, self.level@, self.bound@)
        &&& self.rank@.len() == self.parent@.len()
    }

    /// The representative of an element is an element, and represents itself.
    pub proof fn lemma_root_in_range(&self, x: int)
        requires
            self.wf(),
            0 <= x < self.size(),
        ensures
            0 <= self.root(x) < self.size(),
            self.root(self.root(x)) == self.root(x),
    {
        lemma_root_facts(self.parent@, self.level@, self.bound@, x);
    }

    /// `n` singleton sets.
    pub fn new(n: usize) -> (uf: UnionFind)
        ensures
            uf.wf(),
            uf.size() == n,
            forall|x: int| 0 <= x < n ==> #[trigger] uf.root(x) == x,
    {
        let mut parent: Vec<usize> = Vec::with_capacity(n);
        let mut rank: Vec<u8> = Vec::with_capacity(n);
        let mut i: usize = 0;
        while i < n
            invariant
                i <= n,
                parent@.len() == i,
                rank@.len() == i,
                forall|x: int| 0 <= x < i ==> #[trigger] parent@[x] == x,
            decreases n - i,
        {
            parent.push(i);
            rank.push(0);
            i = i + 1;
        }
        let ghost level = Seq::new(n as nat, |x: int| 0nat);
        let uf = UnionFind { parent, rank, level: Ghost(level), bound: Ghost(1) };
        assert forall|x: int| 0 <= x < n implies #[trigger] uf.root(x) == x by {
            assert(uf.parent@[x] == x);
        }
        uf
    }

    /// The representative of the set holding `x`; every node on the way is
    /// pointed straight at it.
    pub fn find(&mut self, x: usize) -> (r: usize)
        requires
            old(self).wf(),
            x < old(self).size(),
        ensures
            final(self).wf(),
            final(self).size() == old(self).size(),
            r < old(self).size(),
            r == old(self).root(x as int),
            final(self).root(r as int) == r,
            forall|y: int|
                0 <= y < old(self).size() ==> #[trigger] final(self).root(y) == old(self).root(y),
    {
        proof {
            lemma_root_facts(self.parent@, self.level@, self.bound@, x as int);
        }
        self.find_rec(x)
    }

    fn find_rec(&mut self, x: usize) -> (r: usize)
        requires
            old(self).wf(),
            x < old(self).size(),
        ensures
            final(self).wf(),
            final(self).size() == old(self).size(),
            final(self).level@ == old(self).level@,
            final(self).bound@ == old(self).bound@,
            r < old(self).size(),
            r == old(self).root(x as int),
            forall|y: int|
                0 <= y < old(self).size() ==> #[trigger] final(self).root(y) == old(self).root(y),
        decreases old(self).bound@ - old(self).level@[x as int],
    {
        let parent = self.parent[x];
        proof {
            lemma_root_facts(self.parent@, self.level@, self.bound@, x as int);
        }
        if parent == x {
            return x;
        }
        proof {
            assert(self.level@[parent as int] < self.bound@);
        }
        let root = self.find_rec(parent);
        let ghost mid = *self;
        proof {
            lemma_root_facts(self.parent@, self.level@, self.bound@, x as int);
            assert(self.root(x as int) == root);
        }
        self.parent.set(x, root);
        proof {
            assert(self.parent@ == mid.parent@.update(x as int, root));
            assert forall|y: int| 0 <= y < self.parent@.len() implies #[trigger] self.root(y)
                == mid.root(y) by {
                lemma_compress(mid.parent@, mid.level@, mid.bound@, x as int, y);
            }
            lemma_compress(mid.parent@, mid.level@, mid.bound@, x as int, x as int);
        }
        root
    }

    /// Merges the sets holding `a` and `b`.
    pub fn union(&mut self, a: usize, b: usize)
        requires
            old(self).wf(),
            a < old(self).size(),
            b < old(self).size(),
        ensures
            final(self).wf(),
            final(self).size() == old(self).size(),
            final(self).same(a as int, b as int),
            forall|x: int, y: int|
                0 <= x < old(self).size() && 0 <= y < old(self).size() ==> (
                #[trigger] final(self).same(x, y) <==> merged(*old(self), a as int, b as int, x, y)),
    {
        let ghost a0 = a as int;
        let ghost b0 = b as int;
        let mut a = self.find(a);
        let mut b = self.find(b);
        let ghost mid = *self;
        proof {
            assert(self.root(a as int) == a as int);
            assert(self.root(b as int) == b as int);
            lemma_root_facts(self.parent@, self.level@, self.bound@, a as int);
            lemma_root_facts(self.parent@, self.level@, self.bound@, b as int);
        }
        if a == b {
            return;
        }
        let ra = self.rank[a];
        let rb = self.rank[b];
        if ra < rb {
            std::mem::swap(&mut a, &mut b);
        }
        let ghost old_level = self.level@;
        let ghost old_bound = self.bound@;
        let ghost new_top: nat = if old_level[a as int] > old_level[b as int] {
            old_level[a as int]
        } else {
            old_level[b as int] + 1
        };
        let ghost level2 = old_level.update(a as int, new_top);
        let ghost bound2: nat = if old_bound > new_top {
            old_bound
        } else {
            new_top + 1
        };
        proof {
            assert forall|y: int| 0 <= y < self.parent@.len() implies #[trigger] root_of(
                self.parent@.update(b as int, a),
                level2,
                bound2,
                y,
            ) == if mid.root(y) == b {
                a as int
            } else {
                mid.root(y)
            } by {
                lemma_link(
                    self.parent@,
                    old_level,
                    old_bound,
                    a as int,
                    b as int,
                    level2,
                    bound2,
                    y,
                );
            }
            lemma_link(
                self.parent@,
                old_level,
                old_bound,
                a as int,
                b as int,
                level2,
                bound2,
                a as int,
            );
        }
        self.level = Ghost(level2);
        self.bound = Ghost(bound2);
        self.parent.set(b, a);
        if ra == rb {
            self.rank.set(a, ra.saturating_add(1));
        }
        proof {
            assert forall|y: int| 0 <= y < self.parent@.len() implies 0 <= #[trigger] mid.root(y)
                < self.parent@.len() by {
                lemma_root_facts(mid.parent@, mid.level@, mid.bound@, y);
            }
        }
    }
}

} // verus!
