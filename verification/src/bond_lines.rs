//! The line segments drawn for bonds: the positions of the two bodies of
//! each bond, looked up by id.

use std::collections::HashMap;
use vstd::prelude::*;

use crate::ids::{last_index_of, lemma_last_index_of, lemma_max_id, max_body_id, max_id};

verus! {

broadcast use vstd::std_specs::hash::group_hash_axioms;

/// Ids are looked up through a table indexed by id (rather than a map) when
/// the largest id is at most four times the number of bodies.
pub open spec fn uses_id_table(ids: Seq<u64>) -> bool {
    max_id(ids) <= if ids.len() * 4 > usize::MAX {
        usize::MAX as int
    } else {
        (ids.len() * 4) as int
    }
}

/// Length of the id table: one past the largest id, within `usize`.
pub open spec fn table_len(ids: Seq<u64>) -> int {
    if max_id(ids) < usize::MAX {
        (max_id(ids) + 1) as int
    } else {
        usize::MAX as int
    }
}

/// The position of the last body carrying `id`, if one does.
pub open spec fn position_of<P>(ids: Seq<u64>, pos: Seq<P>, id: int) -> Option<P> {
    if last_index_of(ids, id) >= 0 {
        Some(pos[last_index_of(ids, id)])
    } else {
        None
    }
}

/// The segment of bond `(a, b)`. With the id table, ids are taken as `usize`;
/// an id within the table that no body carries is drawn at `zero`, and an id
/// past the table drops the bond. With the map a bond is dropped when either
/// id has no body.
pub open spec fn segment<P>(ids: Seq<u64>, pos: Seq<P>, zero: P, bond: (u64, u64)) -> Option<(P, P)> {
    let (a, b) = bond;
    if uses_id_table(ids) {
        if (a as usize) < table_len(ids) && (b as usize) < table_len(ids) {
            Some(
                (
                    match position_of(ids, pos, (a as usize) as int) {
                        Some(p) => p,
                        None => zero,
                    },
                    match position_of(ids, pos, (b as usize) as int) {
                        Some(p) => p,
                        None => zero,
                    },
                ),
            )
        } else {
            None
        }
    } else {
        match (position_of(ids, pos, a as int), position_of(ids, pos, b as int)) {
            (Some(p), Some(q)) => Some((p, q)),
            _ => None,
        }
    }
}

/// The segments of all `bonds` that have one, in order.
pub open spec fn segments<P>(ids: Seq<u64>, pos: Seq<P>, zero: P, bonds: Seq<(u64, u64)>) -> Seq<
    (P, P),
>
    decreases bonds.len(),
{
    if bonds.len() == 0 {
        Seq::empty()
    } else {
        let rest = segments(ids, pos, zero, bonds.drop_last());
        match segment(ids, pos, zero, bonds.last()) {
            Some(s) => rest.push(s),
            None => rest,
        }
    }
}

/// The segments of a prefix of the bonds begin the segments of all of them.
pub proof fn lemma_segments_prefix<P>(
    ids: Seq<u64>,
    pos: Seq<P>,
    zero: P,
    bonds: Seq<(u64, u64)>,
    k: int,
)
    requires
        0 <= k <= bonds.len(),
    ensures
        segments(ids, pos, zero, bonds.take(k)).len() <= segments(ids, pos, zero, bonds).len(),
        segments(ids, pos, zero, bonds.take(k)) == segments(ids, pos, zero, bonds).take(
            segments(ids, pos, zero, bonds.take(k)).len() as int,
        ),
    decreases bonds.len() - k,
{
    if k == bonds.len() {
        assert(bonds.take(k) =~= bonds);
        assert(segments(ids, pos, zero, bonds).take(segments(ids, pos, zero, bonds).len() as int)
            =~= segments(ids, pos, zero, bonds));
    } else {
        lemma_segments_prefix(ids, pos, zero, bonds, k + 1);
        assert(bonds.take(k + 1).drop_last() =~= bonds.take(k));
        let short = segments(ids, pos, zero, bonds.take(k));
        let longer = segments(ids, pos, zero, bonds.take(k + 1));
        let all = segments(ids, pos, zero, bonds);
        assert(short =~= longer.take(short.len() as int));
        assert(short =~= all.take(short.len() as int));
    }
}

/// `p` is where the end of a bond at id `id` is drawn: the position of a body
/// carrying `id`, or `zero` when no body carries it.
pub open spec fn drawn_at<P>(ids: Seq<u64>, pos: Seq<P>, zero: P, id: int, p: P) -> bool {
    ||| exists|i: int| 0 <= i < ids.len() && #[trigger] ids[i] == id && p == pos[i]
    ||| (forall|i: int| 0 <= i < ids.len() ==> #[trigger] ids[i] != id) && p == zero
}

/// The position looked up for `id` is that of a body carrying it, and there
/// is none exactly when no body carries `id`.
proof fn lemma_position_of<P>(ids: Seq<u64>, pos: Seq<P>, zero: P, id: int)
    requires
        pos.len() == ids.len(),
    ensures
        position_of(ids, pos, id) is None <==> forall|i: int| 0 <= i < ids.len() ==> #[trigger] ids[i] != id,
        drawn_at(
            ids,
            pos,
            zero,
            id,
            match position_of(ids, pos, id) {
                Some(p) => p,
                None => zero,
            },
        ),
{
    lemma_last_index_of(ids, id);
    let l = last_index_of(ids, id);
    if l >= 0 {
        assert(ids[l] == id);
    } else {
        assert forall|i: int| 0 <= i < ids.len() implies #[trigger] ids[i] != id by {}
    }
}

/// Every bond line joins where the bodies of one bond are drawn: each
/// segment comes from some bond `(a, b)`, its first end drawn at `a` and its
/// second at `b`, each at the position of a body carrying that id (or at
/// `zero` when no body carries it).
pub proof fn lemma_segment_ends<P>(ids: Seq<u64>, pos: Seq<P>, zero: P, bonds: Seq<(u64, u64)>)
    requires
        pos.len() == ids.len(),
        forall|q: int| 0 <= q < bonds.len() ==> #[trigger] bonds[q].0 <= usize::MAX && bonds[q].1 <= usize::MAX,
    ensures
        forall|k: int|
            0 <= k < segments(ids, pos, zero, bonds).len() ==> exists|q: int|
                0 <= q < bonds.len() && drawn_at(
                    ids,
                    pos,
                    zero,
                    bonds[q].0 as int,
                    (#[trigger] segments(ids, pos, zero, bonds)[k]).0,
                ) && drawn_at(ids, pos, zero, bonds[q].1 as int, segments(ids, pos, zero, bonds)[k].1),
    decreases bonds.len(),
{
    if bonds.len() > 0 {
        let rest = bonds.drop_last();
        assert forall|q: int| 0 <= q < rest.len() implies #[trigger] rest[q].0 <= usize::MAX && rest[q].1 <= usize::MAX by {
            assert(rest[q] == bonds[q]);
        }
        lemma_segment_ends(ids, pos, zero, rest);
        let sr = segments(ids, pos, zero, rest);
        let sa = segments(ids, pos, zero, bonds);
        let last = bonds.len() - 1;
        let (a, b) = bonds.last();
        assert(bonds[last] == (a, b));
        assert(a <= usize::MAX && b <= usize::MAX);
        assert((a as usize) as int == a as int);
        assert((b as usize) as int == b as int);
        lemma_position_of(ids, pos, zero, a as int);
        lemma_position_of(ids, pos, zero, b as int);
        assert forall|k: int| 0 <= k < sa.len() implies exists|q: int|
            0 <= q < bonds.len() && drawn_at(ids, pos, zero, bonds[q].0 as int, (#[trigger] sa[k]).0)
                && drawn_at(ids, pos, zero, bonds[q].1 as int, sa[k].1) by {
            if k < sr.len() {
                assert(sa[k] == sr[k]);
                let q = choose|q: int|
                    0 <= q < rest.len() && drawn_at(ids, pos, zero, rest[q].0 as int, (#[trigger] sr[k]).0)
                        && drawn_at(ids, pos, zero, rest[q].1 as int, sr[k].1);
                assert(rest[q] == bonds[q]);
            } else {
                assert(sa[k] == segment(ids, pos, zero, (a, b)).unwrap());
                assert(drawn_at(ids, pos, zero, bonds[last].0 as int, sa[k].0));
                assert(drawn_at(ids, pos, zero, bonds[last].1 as int, sa[k].1));
            }
        }
    }
}

/// Up to `max_lines` bond segments: the segments of `bonds` (pairs of ids, in
/// the order given) between the positions `pos[i]` of the bodies `ids[i]`.
/// Nothing is drawn when there are no bonds, no bodies, or no lines allowed.
/// Each line joins the positions of bodies carrying the two ids of one bond
/// (or `zero` for an id that no body carries).
pub fn bond_lines<P: Copy>(ids: &Vec<u64>, pos: &Vec<P>, bonds: &Vec<(u64, u64)>, zero: P, max_lines: usize) -> (out: Vec<(P, P)>)
    requires
        pos@.len() == ids@.len(),
        max_id(ids@) <= usize::MAX,
    ensures
        out@ == if max_lines == 0 || bonds@.len() == 0 || ids@.len() == 0 {
            Seq::empty()
        } else {
            let all = segments(ids@, pos@, zero, bonds@);
            all.take(if all.len() < max_lines {
                all.len() as int
            } else {
                max_lines as int
            })
        },
        (forall|q: int| 0 <= q < bonds@.len() ==> #[trigger] bonds@[q].0 <= usize::MAX && bonds@[q].1
            <= usize::MAX) ==> forall|k: int|
            0 <= k < out@.len() ==> exists|q: int|
                0 <= q < bonds@.len() && drawn_at(ids@, pos@, zero, bonds@[q].0 as int, (#[trigger] out@[k]).0)
                    && drawn_at(ids@, pos@, zero, bonds@[q].1 as int, out@[k].1),
{
    proof {
        if forall|q: int| 0 <= q < bonds@.len() ==> #[trigger] bonds@[q].0 <= usize::MAX && bonds@[q].1
            <= usize::MAX {
            lemma_segment_ends(ids@, pos@, zero, bonds@);
        }
    }
    let out = collect_bond_lines(ids, pos, bonds, zero, max_lines);
    proof {
        if forall|q: int| 0 <= q < bonds@.len() ==> #[trigger] bonds@[q].0 <= usize::MAX && bonds@[q].1
            <= usize::MAX {
            let all = segments(ids@, pos@, zero, bonds@);
            assert forall|k: int| 0 <= k < out@.len() implies exists|q: int|
                0 <= q < bonds@.len() && drawn_at(ids@, pos@, zero, bonds@[q].0 as int, (#[trigger] out@[k]).0)
                    && drawn_at(ids@, pos@, zero, bonds@[q].1 as int, out@[k].1) by {
                assert(out@[k] == all[k]);
            }
        }
    }
    out
}

/// The first `max_lines` segments of `bonds`, or none when there are no
/// bonds, no bodies, or no lines allowed.
fn collect_bond_lines<P: Copy>(ids: &Vec<u64>, pos: &Vec<P>, bonds: &Vec<(u64, u64)>, zero: P, max_lines: usize) -> (out: Vec<(P, P)>)
    requires
        pos@.len() == ids@.len(),
        max_id(ids@) <= usize::MAX,
    ensures
        out@ == if max_lines == 0 || bonds@.len() == 0 || ids@.len() == 0 {
            Seq::empty()
        } else {
            let all = segments(ids@, pos@, zero, bonds@);
            all.take(if all.len() < max_lines {
                all.len() as int
            } else {
                max_lines as int
            })
        },
{
    if max_lines == 0 || bonds.len() == 0 || ids.len() == 0 {
        return Vec::new();
    }
    let max = max_body_id(ids) as usize;
    let n = ids.len();
    let four_n: usize = if n > usize::MAX / 4 {
        usize::MAX
    } else {
        n * 4
    };
    let use_table = max <= four_n;
    proof {
        lemma_max_id(ids@);
        assert(use_table == uses_id_table(ids@));
    }
    let ghost all = segments(ids@, pos@, zero, bonds@);
    let mut out: Vec<(P, P)> = Vec::new();
    if use_table {
        let len = max.saturating_add(1);
        let mut table: Vec<P> = Vec::new();
        let mut filled: Vec<bool> = Vec::new();
        while table.len() < len
            invariant
                table@.len() == filled@.len(),
                table@.len() <= len,
                forall|x: int| 0 <= x < table@.len() ==> !#[trigger] filled@[x] && table@[x] == zero,
            decreases len - table@.len(),
        {
            table.push(zero);
            filled.push(false);
        }
        let mut i: usize = 0;
        while i < ids.len()
            invariant
                i <= ids.len(),
                pos@.len() == ids@.len(),
                forall|x: int| 0 <= x < ids@.len() ==> #[trigger] ids@[x] <= usize::MAX,
                table@.len() == len,
                filled@.len() == len,
                forall|x: int|
                    0 <= x < len ==> (#[trigger] filled@[x] == (last_index_of(ids@.take(i as int), x)
                        >= 0)),
                forall|x: int|
                    0 <= x < len && filled@[x] ==> #[trigger] table@[x] == pos@[last_index_of(
                        ids@.take(i as int),
                        x,
                    )],
                forall|x: int| 0 <= x < len && !filled@[x] ==> #[trigger] table@[x] == zero,
            decreases ids.len() - i,
        {
            let idx = ids[i] as usize;
            proof {
                assert(ids@.take(i + 1).drop_last() =~= ids@.take(i as int));
                assert(ids@.take(i + 1).last() == ids@[i as int]);
            }
            if idx < table.len() {
                table.set(idx, pos[i]);
                filled.set(idx, true);
            }
            proof {
                assert forall|x: int| 0 <= x < len && x != idx implies last_index_of(
                    ids@.take(i + 1),
                    x,
                ) == last_index_of(ids@.take(i as int), x) by {}
                assert forall|x: int| 0 <= x < len && filled@[x] implies #[trigger] table@[x]
                    == pos@[last_index_of(ids@.take(i + 1), x)] by {
                    if x == idx {
                        assert(last_index_of(ids@.take(i + 1), x) == i);
                        assert(pos@[i as int] == table@[x]);
                    }
                }
            }
            i = i + 1;
        }
        proof {
            assert(ids@.take(ids.len() as int) =~= ids@);
            assert forall|x: int| 0 <= x < len implies #[trigger] table@[x] == match position_of(
                ids@,
                pos@,
                x,
            ) {
                Some(p) => p,
                None => zero,
            } by {}
        }
        let mut k: usize = 0;
        while k < bonds.len()
            invariant
                k <= bonds.len(),
                table@.len() == len,
                len == table_len(ids@),
                uses_id_table(ids@),
                all == segments(ids@, pos@, zero, bonds@),
                forall|x: int|
                    0 <= x < len ==> #[trigger] table@[x] == match position_of(ids@, pos@, x) {
                        Some(p) => p,
                        None => zero,
                    },
                out@ == segments(ids@, pos@, zero, bonds@.take(k as int)),
                out@.len() < max_lines,
                ids@.len() > 0,
                pos@.len() == ids@.len(),
            decreases bonds.len() - k,
        {
            let (a, b) = bonds[k];
            proof {
                assert(bonds@.take(k + 1).drop_last() =~= bonds@.take(k as int));
                assert(bonds@.take(k + 1).last() == bonds@[k as int]);
            }
            #[verifier::truncate]
            let ai = a as usize;
            #[verifier::truncate]
            let bi = b as usize;
            if ai < table.len() && bi < table.len() {
                out.push((table[ai], table[bi]));
            }
            k = k + 1;
            if out.len() >= max_lines {
                proof {
                    lemma_segments_prefix(ids@, pos@, zero, bonds@, k as int);
                    assert(out@.len() == max_lines);
                }
                return out;
            }
        }
    } else {
        let mut map: HashMap<u64, P> = HashMap::new();
        let mut i: usize = 0;
        while i < ids.len()
            invariant
                i <= ids.len(),
                pos@.len() == ids@.len(),
                forall|x: u64|
                    #[trigger] map@.dom().contains(x) == (last_index_of(ids@.take(i as int), x as int)
                        >= 0),
                forall|x: u64|
                    map@.dom().contains(x) ==> #[trigger] map@[x] == pos@[last_index_of(
                        ids@.take(i as int),
                        x as int,
                    )],
            decreases ids.len() - i,
        {
            proof {
                assert(ids@.take(i + 1).drop_last() =~= ids@.take(i as int));
                assert(ids@.take(i + 1).last() == ids@[i as int]);
            }
            map.insert(ids[i], pos[i]);
            i = i + 1;
        }
        proof {
            assert(ids@.take(ids.len() as int) =~= ids@);
        }
        let mut k: usize = 0;
        while k < bonds.len()
            invariant
                k <= bonds.len(),
                !uses_id_table(ids@),
                all == segments(ids@, pos@, zero, bonds@),
                forall|x: u64|
                    #[trigger] map@.dom().contains(x) == (last_index_of(ids@, x as int) >= 0),
                forall|x: u64|
                    map@.dom().contains(x) ==> #[trigger] map@[x] == pos@[last_index_of(
                        ids@,
                        x as int,
                    )],
                out@ == segments(ids@, pos@, zero, bonds@.take(k as int)),
                out@.len() < max_lines,
                ids@.len() > 0,
                pos@.len() == ids@.len(),
            decreases bonds.len() - k,
        {
            let (a, b) = bonds[k];
            proof {
                assert(bonds@.take(k + 1).drop_last() =~= bonds@.take(k as int));
                assert(bonds@.take(k + 1).last() == bonds@[k as int]);
            }
            match (map.get(&a), map.get(&b)) {
                (Some(p1), Some(p2)) => {
                    out.push((*p1, *p2));
                },
                _ => {},
            }
            k = k + 1;
            if out.len() >= max_lines {
                proof {
                    lemma_segments_prefix(ids@, pos@, zero, bonds@, k as int);
                    assert(out@.len() == max_lines);
                }
                return out;
            }
        }
    }
    proof {
        assert(bonds@.take(bonds.len() as int) =~= bonds@);
    }
    out
}

} // verus!
