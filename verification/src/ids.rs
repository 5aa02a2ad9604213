//! Body ids: the largest id, lookup from id to body index, and the
//! order-independent key of a pair of ids.

use vstd::prelude::*;

verus! {

/// The largest id in `ids`, 0 when there is none.
pub open spec fn max_id(ids: Seq<u64>) -> nat
    decreases ids.len(),
{
    if ids.len() == 0 {
        0
    } else {
        let m = max_id(ids.drop_last());
        if ids.last() > m {
            ids.last() as nat
        } else {
            m
        }
    }
}

/// The position of the last entry of `ids` equal to `id`, or -1 when none is.
pub open spec fn last_index_of(ids: Seq<u64>, id: int) -> int
    decreases ids.len(),
{
    if ids.len() == 0 {
        -1
    } else if ids.last() == id {
        ids.len() - 1
    } else {
        last_index_of(ids.drop_last(), id)
    }
}

/// The entry for `id` of the table built by `index_by_id`.
pub open spec fn index_entry(ids: Seq<u64>, id: int) -> usize {
    if last_index_of(ids, id) >= 0 {
        last_index_of(ids, id) as usize
    } else {
        usize::MAX
    }
}

/// No id is above the maximum, and the maximum is one of the ids.
pub proof fn lemma_max_id(ids: Seq<u64>)
    ensures
        forall|i: int| 0 <= i < ids.len() ==> #[trigger] ids[i] <= max_id(ids),
        ids.len() > 0 ==> exists|i: int| 0 <= i < ids.len() && ids[i] == max_id(ids),
        max_id(ids) <= u64::MAX,
    decreases ids.len(),
{
    if ids.len() > 0 {
        lemma_max_id(ids.drop_last());
        assert forall|i: int| 0 <= i < ids.len() implies #[trigger] ids[i] <= max_id(ids) by {
            if i < ids.len() - 1 {
                assert(ids[i] == ids.drop_last()[i]);
            }
        }
        if ids.last() > max_id(ids.drop_last()) {
            assert(ids[ids.len() - 1] == max_id(ids));
        } else if ids.len() > 1 {
            let j = choose|j: int| 0 <= j < ids.len() - 1 && ids.drop_last()[j] == max_id(ids.drop_last());
            assert(ids[j] == max_id(ids));
        } else {
            assert(ids[0] == max_id(ids));
        }
    }
}

/// The entry found is an index holding `id`, and no later index holds it.
pub proof fn lemma_last_index_of(ids: Seq<u64>, id: int)
    ensures
        -1 <= last_index_of(ids, id) < ids.len(),
        last_index_of(ids, id) >= 0 ==> ids[last_index_of(ids, id)] == id,
        forall|i: int| last_index_of(ids, id) < i < ids.len() ==> ids[i] != id,
    decreases ids.len(),
{
    if ids.len() > 0 && ids.last() != id {
        lemma_last_index_of(ids.drop_last(), id);
        assert forall|i: int| last_index_of(ids, id) < i < ids.len() implies ids[i] != id by {
            if i < ids.len() - 1 {
                assert(ids[i] == ids.drop_last()[i]);
            }
        }
    }
}

/// The largest id in `ids`, 0 when there is none.
pub fn max_body_id(ids: &Vec<u64>) -> (m: u64)
    ensures
        m == max_id(ids@),
{
    let mut m: u64 = 0;
    let mut i: usize = 0;
    while i < ids.len()
        invariant
            i <= ids.len(),
            m == max_id(ids@.subrange(0, i as int)),
        decreases ids.len() - i,
    {
        proof {
            assert(ids@.subrange(0, i + 1).drop_last() =~= ids@.subrange(0, i as int));
        }
        if ids[i] > m {
            m = ids[i];
        }
        i = i + 1;
    }
    proof {
        assert(ids@.subrange(0, ids.len() as int) =~= ids@);
    }
    m
}

/// A table from id to the index of the last body carrying it, `usize::MAX`
/// for ids that no body carries; it covers every id up to the largest.
pub fn index_by_id(ids: &Vec<u64>) -> (table: Vec<usize>)
    requires
        max_id(ids@) < usize::MAX,
    ensures
        table@.len() == max_id(ids@) + 1,
        forall|id: int| 0 <= id < table@.len() ==> #[trigger] table@[id] == index_entry(ids@, id),
{
    let max = max_body_id(ids);
    let mut table: Vec<usize> = vec![usize::MAX; (max as usize).saturating_add(1)];
    let mut i: usize = 0;
    proof {
        lemma_max_id(ids@);
    }
    while i < ids.len()
        invariant
            i <= ids.len(),
            max == max_id(ids@),
            max < usize::MAX,
            table@.len() == max + 1,
            forall|k: int| 0 <= k < ids.len() ==> #[trigger] ids@[k] <= max,
            forall|id: int|
                0 <= id < table@.len() ==> #[trigger] table@[id] == index_entry(
                    ids@.subrange(0, i as int),
                    id,
                ),
        decreases ids.len() - i,
    {
        let id = ids[i] as usize;
        table.set(id, i);
        proof {
            let pre = ids@.subrange(0, i as int);
            let post = ids@.subrange(0, i + 1);
            assert(post.drop_last() =~= pre);
            assert forall|x: int| 0 <= x < table@.len() implies #[trigger] table@[x] == index_entry(
                post,
                x,
            ) by {
                if x != id as int {
                    assert(last_index_of(post, x) == last_index_of(pre, x));
                }
            }
        }
        i = i + 1;
    }
    proof {
        assert(ids@.subrange(0, ids.len() as int) =~= ids@);
    }
    table
}

/// The key of the unordered pair `{a, b}`: the smaller id in the high half,
/// the larger in the low half.
pub open spec fn pair_key(a: u64, b: u64) -> u128 {
    if a < b {
        (a as nat * 0x1_0000_0000_0000_0000 + b as nat) as u128
    } else {
        (b as nat * 0x1_0000_0000_0000_0000 + a as nat) as u128
    }
}

/// The key of the unordered pair `{a, b}`.
pub fn key_of(a: u64, b: u64) -> (k: u128)
    ensures
        k == pair_key(a, b),
{
    if a < b {
        a as u128 * 0x1_0000_0000_0000_0000 + b as u128
    } else {
        b as u128 * 0x1_0000_0000_0000_0000 + a as u128
    }
}

/// Two pairs share a key exactly when they hold the same two ids.
pub proof fn lemma_pair_key_injective(a: u64, b: u64, c: u64, d: u64)
    ensures
        pair_key(a, b) == pair_key(c, d) <==> ((a == c && b == d) || (a == d && b == c)),
        pair_key(a, b) == pair_key(b, a),
{
    let lo1: int = if a < b { a as int } else { b as int };
    let hi1: int = if a < b { b as int } else { a as int };
    let lo2: int = if c < d { c as int } else { d as int };
    let hi2: int = if c < d { d as int } else { c as int };
    assert(lo1 * 0x1_0000_0000_0000_0000 + hi1 <= u128::MAX) by (nonlinear_arith)
        requires
            0 <= lo1 <= u64::MAX,
            0 <= hi1 <= u64::MAX,
    ;
    assert(lo2 * 0x1_0000_0000_0000_0000 + hi2 <= u128::MAX) by (nonlinear_arith)
        requires
            0 <= lo2 <= u64::MAX,
            0 <= hi2 <= u64::MAX,
    ;
    if lo1 * 0x1_0000_0000_0000_0000 + hi1 == lo2 * 0x1_0000_0000_0000_0000 + hi2 {
        assert(lo1 == lo2 && hi1 == hi2) by (nonlinear_arith)
            requires
                lo1 * 0x1_0000_0000_0000_0000 + hi1 == lo2 * 0x1_0000_0000_0000_0000 + hi2,
                0 <= hi1 < 0x1_0000_0000_0000_0000,
                0 <= hi2 < 0x1_0000_0000_0000_0000,
                0 <= lo1,
                0 <= lo2,
        ;
    }
}

/// The position of the first entry of `ids` equal to `id`, or -1 when none is.
pub open spec fn first_index_of(ids: Seq<u64>, id: u64) -> int
    decreases ids.len(),
{
    if ids.len() == 0 {
        -1
    } else if first_index_of(ids.drop_last(), id) >= 0 {
        first_index_of(ids.drop_last(), id)
    } else if ids.last() == id {
        ids.len() - 1
    } else {
        -1
    }
}

/// The first match is a body carrying `id` with no earlier body carrying it,
/// and there is no match exactly when no body carries `id`.
pub proof fn lemma_first_index_of(ids: Seq<u64>, id: u64)
    ensures
        -1 <= first_index_of(ids, id) < ids.len(),
        first_index_of(ids, id) == -1 <==> forall|i: int| 0 <= i < ids.len() ==> #[trigger] ids[i] != id,
        first_index_of(ids, id) >= 0 ==> ids[first_index_of(ids, id)] == id,
        forall|j: int| 0 <= j < first_index_of(ids, id) ==> #[trigger] ids[j] != id,
    decreases ids.len(),
{
    if ids.len() > 0 {
        let rest = ids.drop_last();
        lemma_first_index_of(rest, id);
        assert forall|i: int| 0 <= i < rest.len() implies #[trigger] rest[i] == ids[i] by {}
        if first_index_of(rest, id) == -1 && ids.last() != id {
            assert forall|i: int| 0 <= i < ids.len() implies #[trigger] ids[i] != id by {
                if i < rest.len() {
                    assert(rest[i] != id);
                }
            }
        }
        if first_index_of(rest, id) >= 0 {
            assert forall|j: int| 0 <= j < first_index_of(ids, id) implies #[trigger] ids[j] != id by {
                assert(rest[j] != id);
            }
        }
        if first_index_of(rest, id) == -1 && ids.last() == id {
            assert forall|j: int| 0 <= j < ids.len() - 1 implies #[trigger] ids[j] != id by {
                assert(rest[j] != id);
            }
        }
    }
}

/// The index of the first body carrying `id`, if any: `None` exactly when
/// no body carries `id`, otherwise an index carrying `id` before which no
/// body carries it.
pub fn find_by_id(ids: &Vec<u64>, id: u64) -> (r: Option<usize>)
    ensures
        r == if first_index_of(ids@, id) >= 0 {
            Some(first_index_of(ids@, id) as usize)
        } else {
            None::<usize>
        },
        r is None <==> forall|i: int| 0 <= i < ids@.len() ==> #[trigger] ids@[i] != id,
        r matches Some(i) ==> i < ids@.len() && ids@[i as int] == id && forall|j: int|
            0 <= j < i ==> #[trigger] ids@[j] != id,
{
    proof {
        lemma_first_index_of(ids@, id);
    }
    let mut i: usize = 0;
    while i < ids.len()
        invariant
            i <= ids.len(),
            first_index_of(ids@.take(i as int), id) == -1,
        decreases ids.len() - i,
    {
        proof {
            assert(ids@.take(i + 1).drop_last() =~= ids@.take(i as int));
        }
        if ids[i] == id {
            proof {
                lemma_first_index_prefix(ids@, i + 1, id);
                lemma_first_index_of(ids@, id);
            }
            return Some(i);
        }
        i = i + 1;
    }
    proof {
        assert(ids@.take(ids.len() as int) =~= ids@);
    }
    None
}

/// A match found in a prefix is the first match in the whole sequence.
proof fn lemma_first_index_prefix(ids: Seq<u64>, n: int, id: u64)
    requires
        0 <= n <= ids.len(),
        first_index_of(ids.take(n), id) >= 0,
    ensures
        first_index_of(ids, id) == first_index_of(ids.take(n), id),
    decreases ids.len() - n,
{
    if n < ids.len() {
        assert(ids.take(n + 1).drop_last() =~= ids.take(n));
        lemma_first_index_prefix(ids, n + 1, id);
    } else {
        assert(ids.take(n) =~= ids);
    }
}

/// For each bond `(a, b)`, the indices of the last bodies carrying `a` and
/// `b`, or `None` when either id is past the largest or carried by no body.
pub fn bond_ends(ids: &Vec<u64>, keys: &Vec<(u64, u64)>) -> (ends: Vec<Option<(usize, usize)>>)
    requires
        max_id(ids@) < usize::MAX,
    ensures
        ends@.len() == keys@.len(),
        forall|k: int|
            0 <= k < keys@.len() ==> #[trigger] ends@[k] == bond_end(ids@, keys@[k]),
{
    let table = index_by_id(ids);
    let mut ends: Vec<Option<(usize, usize)>> = Vec::with_capacity(keys.len());
    let mut k: usize = 0;
    while k < keys.len()
        invariant
            k <= keys.len(),
            table@.len() == max_id(ids@) + 1,
            forall|id: int| 0 <= id < table@.len() ==> #[trigger] table@[id] == index_entry(ids@, id),
            ends@.len() == k,
            forall|q: int| 0 <= q < k ==> #[trigger] ends@[q] == bond_end(ids@, keys@[q]),
        decreases keys.len() - k,
    {
        let (a, b) = keys[k];
        #[verifier::truncate]
        let ai = a as usize;
        #[verifier::truncate]
        let bi = b as usize;
        let mut end: Option<(usize, usize)> = None;
        if ai < table.len() && bi < table.len() {
            let i = table[ai];
            let j = table[bi];
            if i != usize::MAX && j != usize::MAX {
                end = Some((i, j));
            }
        }
        ends.push(end);
        k = k + 1;
    }
    ends
}

/// The body indices of the two ends of bond `(a, b)` (ids taken as `usize`),
/// or `None` when either is missing.
pub open spec fn bond_end(ids: Seq<u64>, key: (u64, u64)) -> Option<(usize, usize)> {
    let ai = key.0 as usize;
    let bi = key.1 as usize;
    if ai <= max_id(ids) && bi <= max_id(ids) && index_entry(ids, ai as int) != usize::MAX
        && index_entry(ids, bi as int) != usize::MAX {
        Some((index_entry(ids, ai as int), index_entry(ids, bi as int)))
    } else {
        None
    }
}

} // verus!
