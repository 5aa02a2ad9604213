//! Contact bookkeeping of a collision step: how long each pair of bodies has
//! been touching, which touching pairs fuse, which become bonds, and which are
//! left for the collision response.

use std::collections::{HashMap, HashSet};
use vstd::prelude::*;
use vstd::std_specs::iter::IteratorSpec;

use crate::ids::{key_of, lemma_max_id, max_body_id, max_id, pair_key};

verus! {

broadcast use vstd::std_specs::hash::group_hash_axioms;

/// The settings a collision step reads.
#[derive(Clone, Copy, Debug)]
pub struct CollideSettings {
    /// Touching pairs may turn into bonds.
    pub bonds_enabled: bool,
    /// Frames of continuous contact before a pair becomes a bond candidate.
    pub bond_steps: u32,
    /// Most bonds a body may take part in.
    pub max_bonds_per_body: u8,
    /// Bond projection passes per step.
    pub bond_iters: u32,
    /// Touching pairs may fuse into one body.
    pub fuse_enabled: bool,
    /// Frames of continuous contact before a pair fuses.
    pub fuse_steps: u32,
}

impl CollideSettings {
    /// Settings from the raw values the user edits: frame counts are at least
    /// one and taken as `u32`, bonds per body and passes are capped at 16.
    pub fn from_raw(
        bonds_enabled: bool,
        bond_after_frames: u64,
        max_bonds_per_body: u64,
        bond_iters: u64,
        fuse_enabled: bool,
        fuse_after_frames: u64,
    ) -> (s: CollideSettings)
        ensures
            s.bonds_enabled == bonds_enabled,
            s.bond_steps == (if bond_after_frames == 0 {
                1
            } else {
                bond_after_frames
            }) % 0x1_0000_0000,
            s.max_bonds_per_body == if max_bonds_per_body > 16 {
                16
            } else {
                max_bonds_per_body
            },
            s.bond_iters == if bond_iters > 16 {
                16
            } else {
                bond_iters
            },
            s.fuse_enabled == fuse_enabled,
            s.fuse_steps == (if fuse_after_frames == 0 {
                1
            } else {
                fuse_after_frames
            }) % 0x1_0000_0000,
    {
        let bond_steps: u32 = (bond_after_frames.max(1) % 0x1_0000_0000) as u32;
        let max_bonds: u8 = if max_bonds_per_body > 16 {
            16
        } else {
            max_bonds_per_body as u8
        };
        let iters: u32 = if bond_iters > 16 {
            16
        } else {
            bond_iters as u32
        };
        let fuse_steps: u32 = (fuse_after_frames.max(1) % 0x1_0000_0000) as u32;
        CollideSettings {
            bonds_enabled,
            bond_steps,
            max_bonds_per_body: max_bonds,
            bond_iters: iters,
            fuse_enabled,
            fuse_steps,
        }
    }
}

/// Collisions are found between bonded clumps rather than between single
/// bodies once bonding is on and there are at least 512 bonds.
pub fn uses_component_mode(s: CollideSettings, bond_count: usize) -> (r: bool)
    ensures
        r == (s.bonds_enabled && bond_count >= 512),
{
    s.bonds_enabled && bond_count >= 512
}

/// How long a pair of bodies has been touching.
#[derive(Clone, Copy, Debug, PartialEq, Eq, Structural)]
pub struct Contact {
    /// The last frame in which the pair touched.
    pub last_frame: usize,
    /// Consecutive frames of contact up to `last_frame`.
    pub streak: u32,
}

/// The record of a pair that has none.
pub open spec fn no_contact() -> Contact {
    Contact { last_frame: 0, streak: 0 }
}

/// The record kept for `key`, or `no_contact()`.
pub open spec fn stored(m: Map<u128, Contact>, key: u128) -> Contact {
    if m.dom().contains(key) {
        m[key]
    } else {
        no_contact()
    }
}

/// The streak after touching again in `frame`: one more when the pair touched
/// in the previous frame (saturating), otherwise a fresh streak of one.
pub open spec fn next_streak(c: Contact, frame: usize) -> u32 {
    if c.last_frame + 1 == frame {
        if c.streak < u32::MAX {
            (c.streak + 1) as u32
        } else {
            c.streak
        }
    } else {
        1
    }
}

/// Contacts are counted per body only when fusion or bonding needs them.
pub open spec fn tracks_contacts(s: CollideSettings) -> bool {
    s.fuse_enabled || (s.bonds_enabled && s.max_bonds_per_body > 0)
}

/// Contacts counted per body and frame: twice the bond cap, within `2..=8`.
pub open spec fn contact_limit(s: CollideSettings) -> u8 {
    let twice: int = s.max_bonds_per_body * 2;
    if twice < 2 {
        2
    } else if twice > 8 {
        8
    } else {
        twice as u8
    }
}

/// State while the frame's touching pairs are counted: the contact records,
/// contacts counted per body id, the keys and pairs that fuse, and the bond
/// candidates.
pub type Tracking = (Map<u128, Contact>, Seq<u8>, Set<u128>, Seq<(usize, usize)>, Seq<(usize, usize)>);

/// The tracking state before any pair of the frame.
pub open spec fn tracking_start(
    contacts: Map<u128, Contact>,
    ids: Seq<u64>,
    s: CollideSettings,
) -> Tracking {
    (
        contacts,
        if tracks_contacts(s) {
            Seq::new(max_id(ids) + 1, |i: int| 0u8)
        } else {
            Seq::empty()
        },
        Set::empty(),
        Seq::empty(),
        Seq::empty(),
    )
}

/// One touching pair `(i, j)` of body indices. When both bodies already
/// counted their share of contacts this frame the pair is not counted;
/// otherwise its streak advances and it may fuse or become a bond candidate.
pub open spec fn track_step(
    st: Tracking,
    ids: Seq<u64>,
    frame: usize,
    s: CollideSettings,
    p: (usize, usize),
) -> Tracking {
    let (contacts, budget, fuse_keys, fuse_pairs, candidates) = st;
    let a = ids[p.0 as int];
    let b = ids[p.1 as int];
    let key = pair_key(a, b);
    let counted = tracks_contacts(s) && (a as int) < budget.len() && (b as int) < budget.len();
    if counted && (budget[a as int] >= contact_limit(s) || budget[b as int] >= contact_limit(s)) {
        st
    } else {
        let budget1 = if counted {
            let once = budget.update(a as int, (budget[a as int] + 1) as u8);
            once.update(b as int, (once[b as int] + 1) as u8)
        } else {
            budget
        };
        let streak = next_streak(stored(contacts, key), frame);
        let fuses = s.fuse_enabled && streak >= s.fuse_steps;
        let bonds = s.bonds_enabled && streak >= s.bond_steps;
        (
            contacts.insert(key, Contact { last_frame: frame, streak }),
            budget1,
            if fuses {
                fuse_keys.insert(key)
            } else {
                fuse_keys
            },
            if fuses {
                fuse_pairs.push(p)
            } else {
                fuse_pairs
            },
            if bonds {
                candidates.push(p)
            } else {
                candidates
            },
        )
    }
}

/// The tracking state after the pairs `pairs`, in order.
pub open spec fn track(
    start: Tracking,
    ids: Seq<u64>,
    frame: usize,
    s: CollideSettings,
    pairs: Seq<(usize, usize)>,
) -> Tracking
    decreases pairs.len(),
{
    if pairs.len() == 0 {
        start
    } else {
        track_step(track(start, ids, frame, s, pairs.drop_last()), ids, frame, s, pairs.last())
    }
}

/// Contact records are dropped every 30th frame unless the pair touched in
/// this frame or the one before.
pub open spec fn pruned(m: Map<u128, Contact>, frame: usize) -> Map<u128, Contact> {
    if frame % 30 == 0 {
        m.restrict(Set::new(|k: u128| m.dom().contains(k) && frame - m[k].last_frame <= 1))
    } else {
        m
    }
}

/// Every pair refers to bodies in `ids`.
pub open spec fn pairs_in_range(pairs: Seq<(usize, usize)>, n: nat) -> bool {
    forall|k: int| 0 <= k < pairs.len() ==> #[trigger] pairs[k].0 < n && pairs[k].1 < n
}

/// Fusing pairs and bond candidates are among the tracked pairs.
pub proof fn lemma_track_in_range(
    start: Tracking,
    ids: Seq<u64>,
    frame: usize,
    s: CollideSettings,
    pairs: Seq<(usize, usize)>,
)
    requires
        pairs_in_range(pairs, ids.len()),
        pairs_in_range(start.3, ids.len()),
        pairs_in_range(start.4, ids.len()),
    ensures
        pairs_in_range(track(start, ids, frame, s, pairs).3, ids.len()),
        pairs_in_range(track(start, ids, frame, s, pairs).4, ids.len()),
    decreases pairs.len(),
{
    if pairs.len() > 0 {
        assert(pairs_in_range(pairs.drop_last(), ids.len())) by {
            assert forall|k: int| 0 <= k < pairs.drop_last().len() implies #[trigger] pairs.drop_last()[k].0
                < ids.len() && pairs.drop_last()[k].1 < ids.len() by {
                assert(pairs.drop_last()[k] == pairs[k]);
            }
        }
        lemma_track_in_range(start, ids, frame, s, pairs.drop_last());
        let prev = track(start, ids, frame, s, pairs.drop_last());
        let p = pairs.last();
        assert(p == pairs[pairs.len() - 1]);
        let t = track(start, ids, frame, s, pairs);
        assert forall|k: int| 0 <= k < t.3.len() implies #[trigger] t.3[k].0 < ids.len() && t.3[k].1
            < ids.len() by {
            if k < prev.3.len() {
                assert(prev.3[k] == t.3[k]);
            }
        }
        assert forall|k: int| 0 <= k < t.4.len() implies #[trigger] t.4[k].0 < ids.len() && t.4[k].1
            < ids.len() by {
            if k < prev.4.len() {
                assert(prev.4[k] == t.4[k]);
            }
        }
    }
}

/// Every record's frame can still be followed by another.
pub open spec fn frames_below_max(m: Map<u128, Contact>) -> bool {
    forall|k: u128| m.dom().contains(k) ==> #[trigger] m[k].last_frame < usize::MAX
}


/// How many times `id` appears in `keys`, counting both ends of each pair.
pub open spec fn occurrences(keys: Seq<(u64, u64)>, id: u64) -> nat
    decreases keys.len(),
{
    if keys.len() == 0 {
        0
    } else {
        occurrences(keys.drop_last(), id) + (if keys.last().0 == id {
            1nat
        } else {
            0nat
        }) + (if keys.last().1 == id {
            1nat
        } else {
            0nat
        })
    }
}

/// The pair `{a, b}` as a tuple, smaller id first.
pub open spec fn ordered(a: u64, b: u64) -> (u64, u64) {
    if a < b {
        (a, b)
    } else {
        (b, a)
    }
}

/// State while bond candidates are considered: bonds per body id, the chosen
/// candidates, and the id pairs they bond.
pub type Selection = (spec_fn(u64) -> nat, Seq<(usize, usize)>, Set<(u64, u64)>);

/// Before any candidate: the bonds each body already has.
pub open spec fn selection_start(keys: Seq<(u64, u64)>) -> Selection {
    (|x: u64| occurrences(keys, x), Seq::empty(), Set::empty())
}

/// One candidate `(i, j)`: it becomes a bond unless both are one body, the
/// pair is already bonded, or either body has `max` bonds.
pub open spec fn select_step(
    st: Selection,
    ids: Seq<u64>,
    keys: Seq<(u64, u64)>,
    max: u8,
    p: (usize, usize),
) -> Selection {
    let (count, chosen, chosen_keys) = st;
    let a = ids[p.0 as int];
    let b = ids[p.1 as int];
    let k = ordered(a, b);
    if a == b || keys.contains(k) || chosen_keys.contains(k) || count(a) >= max || count(b)
        >= max {
        st
    } else {
        (
            |x: u64|
                if x == a || x == b {
                    count(x) + 1
                } else {
                    count(x)
                },
            chosen.push(p),
            chosen_keys.insert(k),
        )
    }
}

/// The selection after the candidates `cands`, in order.
pub open spec fn select(
    ids: Seq<u64>,
    keys: Seq<(u64, u64)>,
    max: u8,
    cands: Seq<(usize, usize)>,
) -> Selection
    decreases cands.len(),
{
    if cands.len() == 0 {
        selection_start(keys)
    } else {
        select_step(select(ids, keys, max, cands.drop_last()), ids, keys, max, cands.last())
    }
}

/// The pairs left for the collision response: those that neither fuse nor
/// are bonded (counting only what is enabled).
pub open spec fn unresolved(
    pairs: Seq<(usize, usize)>,
    ids: Seq<u64>,
    s: CollideSettings,
    fuse_keys: Set<u128>,
    bonded: Set<(u64, u64)>,
) -> Seq<(usize, usize)>
    decreases pairs.len(),
{
    if pairs.len() == 0 {
        Seq::empty()
    } else {
        let rest = unresolved(pairs.drop_last(), ids, s, fuse_keys, bonded);
        let p = pairs.last();
        let a = ids[p.0 as int];
        let b = ids[p.1 as int];
        if (s.fuse_enabled && fuse_keys.contains(pair_key(a, b))) || (s.bonds_enabled
            && bonded.contains(ordered(a, b))) {
            rest
        } else {
            rest.push(p)
        }
    }
}

/// The bond candidates of a step are considered at all.
pub open spec fn bonds_considered(s: CollideSettings, cands: Seq<(usize, usize)>) -> bool {
    s.bonds_enabled && s.max_bonds_per_body > 0 && cands.len() > 0
}

/// The code of an ordered tuple of ids: first in the high half.
pub open spec fn tuple_code(t: (u64, u64)) -> u128 {
    (t.0 as nat * 0x1_0000_0000_0000_0000 + t.1 as nat) as u128
}

/// Distinct tuples have distinct codes, and the code of the ordered pair is
/// its key.
pub proof fn lemma_tuple_code(t: (u64, u64), u: (u64, u64), a: u64, b: u64)
    ensures
        tuple_code(t) == tuple_code(u) <==> t == u,
        tuple_code(ordered(a, b)) == pair_key(a, b),
{
    let x: int = t.0 as int;
    let y: int = t.1 as int;
    let z: int = u.0 as int;
    let w: int = u.1 as int;
    assert(x * 0x1_0000_0000_0000_0000 + y <= u128::MAX) by (nonlinear_arith)
        requires
            0 <= x <= u64::MAX,
            0 <= y <= u64::MAX,
    ;
    assert(z * 0x1_0000_0000_0000_0000 + w <= u128::MAX) by (nonlinear_arith)
        requires
            0 <= z <= u64::MAX,
            0 <= w <= u64::MAX,
    ;
    if x * 0x1_0000_0000_0000_0000 + y == z * 0x1_0000_0000_0000_0000 + w {
        assert(x == z && y == w) by (nonlinear_arith)
            requires
                x * 0x1_0000_0000_0000_0000 + y == z * 0x1_0000_0000_0000_0000 + w,
                0 <= y < 0x1_0000_0000_0000_0000,
                0 <= w < 0x1_0000_0000_0000_0000,
                0 <= x,
                0 <= z,
        ;
    }
}

/// The keys of `keys` as codes.
fn key_codes(keys: &Vec<(u64, u64)>) -> (set: HashSet<u128>)
    ensures
        forall|t: (u64, u64)| set@.contains(#[trigger] tuple_code(t)) <==> keys@.contains(t),
{
    let mut set: HashSet<u128> = HashSet::new();
    let mut i: usize = 0;
    while i < keys.len()
        invariant
            i <= keys.len(),
            forall|t: (u64, u64)|
                set@.contains(#[trigger] tuple_code(t)) <==> keys@.take(i as int).contains(t),
        decreases keys.len() - i,
    {
        let (x, y) = keys[i];
        let code: u128 = x as u128 * 0x1_0000_0000_0000_0000 + y as u128;
        set.insert(code);
        proof {
            assert(code == tuple_code((x, y)));
            let before = keys@.take(i as int);
            let after = keys@.take(i + 1);
            assert(after =~= before.push((x, y)));
            assert forall|t: (u64, u64)| set@.contains(#[trigger] tuple_code(t)) <==> after.contains(
                t,
            ) by {
                lemma_tuple_code(t, (x, y), 0, 0);
                if after.contains(t) {
                    let q = choose|q: int| 0 <= q < after.len() && #[trigger] after[q] == t;
                    if q < i {
                        assert(before[q] == t);
                    }
                }
                if before.contains(t) {
                    let q = choose|q: int| 0 <= q < before.len() && #[trigger] before[q] == t;
                    assert(after[q] == t);
                }
                if t == (x, y) {
                    assert(after[i as int] == t);
                }
            }
        }
        i = i + 1;
    }
    proof {
        assert(keys@.take(keys.len() as int) =~= keys@);
    }
    set
}

/// Bonds per body id, counted over `keys`.
fn bond_counts(keys: &Vec<(u64, u64)>) -> (m: HashMap<u64, u8>)
    requires
        forall|x: u64| occurrences(keys@, x) <= 255,
    ensures
        forall|x: u64|
            #[trigger] occurrences(keys@, x) == if m@.dom().contains(x) {
                m@[x] as nat
            } else {
                0
            },
{
    let mut m: HashMap<u64, u8> = HashMap::new();
    let mut i: usize = 0;
    while i < keys.len()
        invariant
            i <= keys.len(),
            forall|x: u64| occurrences(keys@, x) <= 255,
            forall|x: u64|
                #[trigger] occurrences(keys@.take(i as int), x) == if m@.dom().contains(x) {
                    m@[x] as nat
                } else {
                    0
                },
        decreases keys.len() - i,
    {
        let (x, y) = keys[i];
        let ghost before = keys@.take(i as int);
        let ghost after = keys@.take(i + 1);
        proof {
            assert(after.drop_last() =~= before);
            assert(after.last() == (x, y));
            assert(occurrences(after, x) == occurrences(before, x) + 1 + (if y == x {
                1nat
            } else {
                0nat
            }));
            assert(occurrences(after, y) == occurrences(before, y) + 1 + (if y == x {
                1nat
            } else {
                0nat
            }));
            lemma_occurrences_prefix(keys@, i + 1, x);
            lemma_occurrences_prefix(keys@, i + 1, y);
        }
        let cx: u8 = match m.get(&x) {
            Some(c) => *c,
            None => 0,
        };
        m.insert(x, cx + 1);
        let cy: u8 = match m.get(&y) {
            Some(c) => *c,
            None => 0,
        };
        m.insert(y, cy + 1);
        proof {
            assert forall|z: u64| #[trigger] occurrences(keys@.take(i + 1), z) == if m@.dom().contains(
                z,
            ) {
                m@[z] as nat
            } else {
                0
            } by {
                assert(after.drop_last() =~= before);
                assert(occurrences(after, z) == occurrences(before, z) + (if x == z {
                    1nat
                } else {
                    0nat
                }) + (if y == z {
                    1nat
                } else {
                    0nat
                }));
            }
        }
        i = i + 1;
    }
    proof {
        assert(keys@.take(keys.len() as int) =~= keys@);
    }
    m
}

/// Occurrences in a prefix never exceed those in the whole sequence.
proof fn lemma_occurrences_prefix(keys: Seq<(u64, u64)>, n: int, x: u64)
    requires
        0 <= n <= keys.len(),
    ensures
        occurrences(keys.take(n), x) <= occurrences(keys, x),
    decreases keys.len() - n,
{
    if n < keys.len() {
        lemma_occurrences_prefix(keys, n + 1, x);
        assert(keys.take(n + 1).drop_last() =~= keys.take(n));
    } else {
        assert(keys.take(n) =~= keys);
    }
}

/// The bond count of `x` held in `m` (0 when absent).
pub open spec fn count_in(m: Map<u64, u8>, x: u64) -> nat {
    if m.dom().contains(x) {
        m[x] as nat
    } else {
        0
    }
}

/// The chosen candidates of `select`; `bonded` holds the codes of the bonded
/// tuples and gains those of the new bonds.
fn select_bonds(
    ids: &Vec<u64>,
    keys: &Vec<(u64, u64)>,
    max: u8,
    cands: &Vec<(usize, usize)>,
    bonded: &mut HashSet<u128>,
) -> (chosen: Vec<(usize, usize)>)
    requires
        pairs_in_range(cands@, ids@.len()),
        forall|x: u64| occurrences(keys@, x) <= 255,
        forall|t: (u64, u64)| old(bonded)@.contains(#[trigger] tuple_code(t)) <==> keys@.contains(t),
    ensures
        chosen@ == select(ids@, keys@, max, cands@).1,
        forall|t: (u64, u64)|
            final(bonded)@.contains(#[trigger] tuple_code(t)) <==> (keys@.contains(t) || select(
                ids@,
                keys@,
                max,
                cands@,
            ).2.contains(t)),
{
    let mut count = bond_counts(keys);
    let mut chosen: Vec<(usize, usize)> = Vec::new();
    let mut k: usize = 0;
    while k < cands.len()
        invariant
            k <= cands.len(),
            pairs_in_range(cands@, ids@.len()),
            ({
                let sel = select(ids@, keys@, max, cands@.take(k as int));
                &&& chosen@ == sel.1
                &&& forall|t: (u64, u64)|
                    bonded@.contains(#[trigger] tuple_code(t)) <==> (keys@.contains(t)
                        || sel.2.contains(t))
                &&& forall|x: u64| #[trigger] count_in(count@, x) == sel.0(x)
            }),
            forall|x: u64| #[trigger] count_in(count@, x) <= 255,
        decreases cands.len() - k,
    {
        let ghost prev = select(ids@, keys@, max, cands@.take(k as int));
        proof {
            assert(cands@.take(k + 1).drop_last() =~= cands@.take(k as int));
            assert(cands@.take(k + 1).last() == cands@[k as int]);
            if k == 0 {
                assert(cands@.take(0) =~= Seq::<(usize, usize)>::empty());
                assert forall|x: u64| #[trigger] count_in(count@, x) <= 255 by {}
            }
        }
        let (i, j) = cands[k];
        let a = ids[i];
        let b = ids[j];
        if a != b {
            let code = key_of(a, b);
            proof {
                lemma_tuple_code(ordered(a, b), ordered(a, b), a, b);
            }
            if !bonded.contains(&code) {
                let ca: u8 = match count.get(&a) {
                    Some(c) => *c,
                    None => 0,
                };
                let cb: u8 = match count.get(&b) {
                    Some(c) => *c,
                    None => 0,
                };
                proof {
                    assert(count_in(count@, a) == ca);
                    assert(count_in(count@, b) == cb);
                }
                if ca < max && cb < max {
                    let ghost count0 = count@;
                    bonded.insert(code);
                    chosen.push((i, j));
                    count.insert(a, ca + 1);
                    count.insert(b, cb + 1);
                    proof {
                        let sel = select(ids@, keys@, max, cands@.take(k + 1));
                        assert forall|t: (u64, u64)| bonded@.contains(#[trigger] tuple_code(t)) <==> (
                        keys@.contains(t) || sel.2.contains(t)) by {
                            lemma_tuple_code(t, ordered(a, b), a, b);
                        }
                        assert(sel == select_step(prev, ids@, keys@, max, (i, j)));
                        assert forall|x: u64| #[trigger] count_in(count@, x) == sel.0(x) by {
                            assert(count_in(count0, x) == prev.0(x));
                            assert(count_in(count@, x) == if x == a || x == b {
                                prev.0(x) + 1
                            } else {
                                prev.0(x)
                            });
                        }
                        assert forall|x: u64| #[trigger] count_in(count@, x) <= 255 by {}
                    }
                }
            }
        }
        k = k + 1;
    }
    proof {
        assert(cands@.take(cands.len() as int) =~= cands@);
    }
    chosen
}

/// The pairs of `unresolved`, where `fuse_keys` and `bonded` hold codes.
fn unresolved_pairs(
    ids: &Vec<u64>,
    pairs: &Vec<(usize, usize)>,
    s: CollideSettings,
    fuse_keys: &HashSet<u128>,
    bonded: &HashSet<u128>,
    Ghost(bonded_tuples): Ghost<Set<(u64, u64)>>,
) -> (r: Vec<(usize, usize)>)
    requires
        pairs_in_range(pairs@, ids@.len()),
        forall|t: (u64, u64)| bonded@.contains(#[trigger] tuple_code(t)) <==> bonded_tuples.contains(t),
    ensures
        r@ == unresolved(pairs@, ids@, s, fuse_keys@, bonded_tuples),
{
    let mut r: Vec<(usize, usize)> = Vec::new();
    let mut k: usize = 0;
    while k < pairs.len()
        invariant
            k <= pairs.len(),
            pairs_in_range(pairs@, ids@.len()),
            forall|t: (u64, u64)|
                bonded@.contains(#[trigger] tuple_code(t)) <==> bonded_tuples.contains(t),
            r@ == unresolved(pairs@.take(k as int), ids@, s, fuse_keys@, bonded_tuples),
        decreases pairs.len() - k,
    {
        proof {
            assert(pairs@.take(k + 1).drop_last() =~= pairs@.take(k as int));
            assert(pairs@.take(k + 1).last() == pairs@[k as int]);
        }
        let (i, j) = pairs[k];
        let a = ids[i];
        let b = ids[j];
        let key = key_of(a, b);
        proof {
            lemma_tuple_code(ordered(a, b), ordered(a, b), a, b);
        }
        let fused = s.fuse_enabled && fuse_keys.contains(&key);
        let bonded_pair = s.bonds_enabled && bonded.contains(&key);
        proof {
            assert(bonded@.contains(tuple_code(ordered(a, b))) == bonded_tuples.contains(
                ordered(a, b),
            ));
            assert(fused == (s.fuse_enabled && fuse_keys@.contains(pair_key(a, b))));
            assert(bonded_pair == (s.bonds_enabled && bonded_tuples.contains(ordered(a, b))));
        }
        if !fused && !bonded_pair {
            r.push((i, j));
        }
        k = k + 1;
    }
    proof {
        assert(pairs@.take(pairs.len() as int) =~= pairs@);
    }
    r
}

/// What a collision step does with this frame's touching pairs.
#[derive(Debug)]
pub struct ContactPlan {
    /// Pairs of body indices that fuse into one body.
    pub fuse_pairs: Vec<(usize, usize)>,
    /// Pairs of body indices that become bonds, in the order chosen.
    pub new_bonds: Vec<(usize, usize)>,
    /// Pairs of body indices left for the collision response, in order.
    pub resolve: Vec<(usize, usize)>,
    /// The fused pairs are to be merged.
    pub fuse: bool,
    /// The bonds are to be projected.
    pub solve_bonds: bool,
}

/// The contact records kept between collision steps.
pub struct ContactTracker {
    contacts: HashMap<u128, Contact>,
}

impl View for ContactTracker {
    type V = Map<u128, Contact>;

    /// Record of each pair, by `pair_key`.
    closed spec fn view(&self) -> Map<u128, Contact> {
        self.contacts@
    }
}

impl ContactTracker {
    /// Every record's frame can still be followed by another.
    #[verifier::type_invariant]
    spec fn inv(self) -> bool {
        frames_below_max(self.contacts@)
    }

    /// No records.
    pub fn new() -> (t: ContactTracker)
        ensures
            t@ == Map::<u128, Contact>::empty(),
    {
        ContactTracker { contacts: HashMap::new() }
    }

    /// Number of pairs with a record.
    pub fn len(&self) -> (n: usize)
        ensures
            n == self@.len(),
    {
        self.contacts.len()
    }

    /// The record of the pair `{a, b}`, if any.
    pub fn get(&self, a: u64, b: u64) -> (c: Option<Contact>)
        ensures
            c == if self@.dom().contains(pair_key(a, b)) {
                Some(self@[pair_key(a, b)])
            } else {
                None::<Contact>
            },
    {
        match self.contacts.get(&key_of(a, b)) {
            Some(c) => Some(*c),
            None => None,
        }
    }

    /// Drops the record of the pair `{a, b}`.
    pub fn forget(&mut self, a: u64, b: u64)
        ensures
            final(self)@ == old(self)@.remove(pair_key(a, b)),
    {
        proof {
            use_type_invariant(&*self);
        }
        let key = key_of(a, b);
        let mut contacts: HashMap<u128, Contact> = HashMap::new();
        std::mem::swap(&mut contacts, &mut self.contacts);
        contacts.remove(&key);
        self.contacts = contacts;
    }

    /// Drops, every 30th frame, the records of pairs that did not touch in
    /// this frame or the one before.
    fn prune(&mut self, frame: usize)
        ensures
            final(self)@ == pruned(old(self)@, frame),
    {
        proof {
            use_type_invariant(&*self);
        }
        if frame % 30 == 0 {
            let mut contacts: HashMap<u128, Contact> = HashMap::new();
            std::mem::swap(&mut contacts, &mut self.contacts);
            let mut keys: Vec<u128> = Vec::new();
            let ghost all = IteratorSpec::remaining(&contacts.keys()).unref();
            for k in it: contacts.keys()
                invariant
                    keys@ == it.seq().take(it.index() as int).map_values(|r: &u128| *r),
                    all == it.seq().map_values(|r: &u128| *r),
            {
                keys.push(*k);
                assert(it.seq().take(it.index() as int + 1).map_values(|r: &u128| *r) =~= keys@);
            }
            proof {
                assert(keys@ =~= all);
            }
            let ghost m0 = contacts@;
            let mut t: usize = 0;
            while t < keys.len()
                invariant
                    t <= keys.len(),
                    keys@.to_set() == m0.dom(),
                    keys@.no_duplicates(),
                    m0 == old(self)@,
                    contacts@ == m0.restrict(
                        Set::new(
                            |k: u128|
                                m0.dom().contains(k) && (!keys@.take(t as int).contains(k) || frame
                                    - m0[k].last_frame <= 1),
                        ),
                    ),
                decreases keys.len() - t,
            {
                let key = keys[t];
                let ghost before = keys@.take(t as int);
                proof {
                    assert(keys@.to_set().contains(key));
                    assert(!before.contains(key)) by {
                        if before.contains(key) {
                            let q = choose|q: int| 0 <= q < before.len() && #[trigger] before[q]
                                == key;
                            assert(keys@[q] == keys@[t as int]);
                        }
                    }
                }
                let stale = match contacts.get(&key) {
                    Some(c) => frame.saturating_sub(c.last_frame) > 1,
                    None => false,
                };
                if stale {
                    contacts.remove(&key);
                }
                proof {
                    let after = keys@.take(t + 1);
                    assert(after =~= before.push(key));
                    assert(contacts@ =~= m0.restrict(
                        Set::new(
                            |k: u128|
                                m0.dom().contains(k) && (!after.contains(k) || frame
                                    - m0[k].last_frame <= 1),
                        ),
                    )) by {
                        assert forall|k: u128| after.contains(k) <==> (before.contains(k) || k
                            == key) by {
                            if after.contains(k) {
                                let q = choose|q: int| 0 <= q < after.len() && #[trigger] after[q]
                                    == k;
                                if q < t {
                                    assert(before[q] == k);
                                }
                            }
                            if before.contains(k) {
                                let q = choose|q: int| 0 <= q < before.len() && #[trigger] before[q]
                                    == k;
                                assert(after[q] == k);
                            }
                            if k == key {
                                assert(after[t as int] == k);
                            }
                        }
                    }
                }
                t = t + 1;
            }
            proof {
                assert(keys@.take(keys.len() as int) =~= keys@);
                assert forall|k: u128| keys@.contains(k) <==> m0.dom().contains(k) by {
                    assert(keys@.to_set().contains(k) <==> keys@.contains(k));
                }
                assert(contacts@ =~= pruned(m0, frame));
            }
            self.contacts = contacts;
        }
    }

    /// Plans a collision step from this frame's touching pairs `pairs` (body
    /// indices into `ids`, in the order found) and the keys of the existing
    /// bonds: contact streaks advance (at most `contact_limit` contacts per
    /// body are counted when fusion or bonding is on), long streaks fuse or
    /// turn into bonds (at most `max_bonds_per_body` per body), stale records
    /// are dropped every 30th frame, and the pairs that neither fuse nor are
    /// bonded are left for the collision response.
    pub fn plan(
        &mut self,
        ids: &Vec<u64>,
        pairs: &Vec<(usize, usize)>,
        frame: usize,
        s: CollideSettings,
        bond_keys: &Vec<(u64, u64)>,
    ) -> (p: ContactPlan)
        requires
            pairs_in_range(pairs@, ids@.len()),
            tracks_contacts(s) ==> max_id(ids@) < usize::MAX,
            frame < usize::MAX,
            bonds_considered(
                s,
                track(tracking_start(old(self)@, ids@, s), ids@, frame, s, pairs@).4,
            ) ==> forall|x: u64| occurrences(bond_keys@, x) <= 255,
        ensures
            ({
                let t = track(tracking_start(old(self)@, ids@, s), ids@, frame, s, pairs@);
                let sel = if bonds_considered(s, t.4) {
                    select(ids@, bond_keys@, s.max_bonds_per_body, t.4)
                } else {
                    selection_start(bond_keys@)
                };
                &&& final(self)@ == pruned(t.0, frame)
                &&& p.fuse_pairs@ == t.3
                &&& p.new_bonds@ == sel.1
                &&& p.resolve@ == unresolved(pairs@, ids@, s, t.2, bond_keys@.to_set() + sel.2)
                &&& p.fuse == (s.fuse_enabled && t.3.len() > 0)
                &&& p.solve_bonds == (s.bonds_enabled && s.bond_iters > 0 && (bond_keys@.len() > 0
                    || sel.1.len() > 0))
            }),
            forall|x: u64|
                occurrences(bond_keys@, x) + #[trigger] pair_occurrences(ids@, p.new_bonds@, x)
                    <= if occurrences(bond_keys@, x) > s.max_bonds_per_body {
                    occurrences(bond_keys@, x)
                } else {
                    s.max_bonds_per_body as nat
                },
    {
        proof {
            use_type_invariant(&*self);
        }
        let (fuse_keys, fuse_pairs, candidates) = self.track_pairs(ids, pairs, frame, s);
        let ghost t = track(tracking_start(old(self)@, ids@, s), ids@, frame, s, pairs@);
        proof {
            lemma_track_in_range(tracking_start(old(self)@, ids@, s), ids@, frame, s, pairs@);
        }
        self.prune(frame);
        let mut bonded = key_codes(bond_keys);
        let consider = s.bonds_enabled && s.max_bonds_per_body > 0 && !candidates.is_empty();
        let new_bonds = if consider {
            select_bonds(ids, bond_keys, s.max_bonds_per_body, &candidates, &mut bonded)
        } else {
            Vec::new()
        };
        let ghost sel = if bonds_considered(s, t.4) {
            select(ids@, bond_keys@, s.max_bonds_per_body, t.4)
        } else {
            selection_start(bond_keys@)
        };
        proof {
            assert forall|x: (u64, u64)| #[trigger] bonded@.contains(tuple_code(x)) <==> (
            bond_keys@.to_set() + sel.2).contains(x) by {}
        }
        let resolve = unresolved_pairs(
            ids,
            pairs,
            s,
            &fuse_keys,
            &bonded,
            Ghost(bond_keys@.to_set() + sel.2),
        );
        let fuse = s.fuse_enabled && !fuse_pairs.is_empty();
        let solve_bonds = s.bonds_enabled && s.bond_iters > 0 && (!bond_keys.is_empty()
            || !new_bonds.is_empty());
        proof {
            if bonds_considered(s, t.4) {
                lemma_chosen_within_cap(ids@, bond_keys@, s.max_bonds_per_body, t.4);
            }
        }
        ContactPlan { fuse_pairs, new_bonds, resolve, fuse, solve_bonds }
    }

    /// Counts this frame's touching pairs: returns the tracking state after
    /// all of them (the records are updated in place).
    fn track_pairs(
        &mut self,
        ids: &Vec<u64>,
        pairs: &Vec<(usize, usize)>,
        frame: usize,
        s: CollideSettings,
    ) -> (r: (HashSet<u128>, Vec<(usize, usize)>, Vec<(usize, usize)>))
        requires
            pairs_in_range(pairs@, ids@.len()),
            tracks_contacts(s) ==> max_id(ids@) < usize::MAX,
            frame < usize::MAX,
        ensures
            ({
                let t = track(tracking_start(old(self)@, ids@, s), ids@, frame, s, pairs@);
                &&& final(self)@ == t.0
                &&& r.0@ == t.2
                &&& r.1@ == t.3
                &&& r.2@ == t.4
            }),
    {
        proof {
            use_type_invariant(&*self);
        }
        let mut contacts: HashMap<u128, Contact> = HashMap::new();
        std::mem::swap(&mut contacts, &mut self.contacts);
        let track_on = s.fuse_enabled || (s.bonds_enabled && s.max_bonds_per_body > 0);
        let mut budget: Vec<u8> = if track_on {
            let max = max_body_id(ids) as usize;
            vec![0u8; max.saturating_add(1)]
        } else {
            Vec::new()
        };
        let twice: u16 = s.max_bonds_per_body as u16 * 2;
        let limit: u8 = if twice < 2 {
            2
        } else if twice > 8 {
            8
        } else {
            twice as u8
        };
        let mut fuse_keys: HashSet<u128> = HashSet::new();
        let mut fuse_pairs: Vec<(usize, usize)> = Vec::new();
        let mut candidates: Vec<(usize, usize)> = Vec::new();
        let ghost start = tracking_start(old(self)@, ids@, s);
        proof {
            lemma_max_id(ids@);
            assert(budget@ =~= start.1);
        }
        let mut k: usize = 0;
        while k < pairs.len()
            invariant
                k <= pairs.len(),
                pairs_in_range(pairs@, ids@.len()),
                frame < usize::MAX,
                track_on == tracks_contacts(s),
                limit == contact_limit(s),
                track_on ==> max_id(ids@) < usize::MAX,
                forall|x: int| 0 <= x < ids@.len() ==> #[trigger] ids@[x] <= max_id(ids@),
                start == tracking_start(old(self)@, ids@, s),
                frames_below_max(contacts@),
                forall|x: int| 0 <= x < budget@.len() ==> #[trigger] budget@[x] <= limit + 1,
                ({
                    let t = track(start, ids@, frame, s, pairs@.take(k as int));
                    &&& contacts@ == t.0
                    &&& budget@ == t.1
                    &&& fuse_keys@ == t.2
                    &&& fuse_pairs@ == t.3
                    &&& candidates@ == t.4
                }),
            decreases pairs.len() - k,
        {
            proof {
                assert(pairs@.take(k + 1).drop_last() =~= pairs@.take(k as int));
                assert(pairs@.take(k + 1).last() == pairs@[k as int]);
            }
            let (i, j) = pairs[k];
            let a = ids[i];
            let b = ids[j];
            let key = key_of(a, b);
            let mut skip = false;
            if track_on {
                let ai = a as usize;
                let bi = b as usize;
                if ai < budget.len() && bi < budget.len() {
                    if budget[ai] >= limit || budget[bi] >= limit {
                        skip = true;
                    } else {
                        let na = budget[ai] + 1;
                        budget.set(ai, na);
                        let nb = budget[bi] + 1;
                        budget.set(bi, nb);
                    }
                }
            }
            if !skip {
                let c = match contacts.get(&key) {
                    Some(c) => *c,
                    None => Contact { last_frame: 0, streak: 0 },
                };
                let streak = if c.last_frame + 1 == frame {
                    c.streak.saturating_add(1)
                } else {
                    1
                };
                contacts.insert(key, Contact { last_frame: frame, streak });
                if s.fuse_enabled && streak >= s.fuse_steps {
                    fuse_keys.insert(key);
                    fuse_pairs.push((i, j));
                }
                if s.bonds_enabled && streak >= s.bond_steps {
                    candidates.push((i, j));
                }
            }
            k = k + 1;
        }
        proof {
            assert(pairs@.take(pairs.len() as int) =~= pairs@);
        }
        self.contacts = contacts;
        (fuse_keys, fuse_pairs, candidates)
    }
}

/// A touching pair goes to the collision response: it neither fuses nor is
/// bonded (counting only what is enabled).
pub open spec fn responds(
    ids: Seq<u64>,
    s: CollideSettings,
    fuse_keys: Set<u128>,
    bonded: Set<(u64, u64)>,
    p: (usize, usize),
) -> bool {
    let a = ids[p.0 as int];
    let b = ids[p.1 as int];
    !((s.fuse_enabled && fuse_keys.contains(pair_key(a, b))) || (s.bonds_enabled
        && bonded.contains(ordered(a, b))))
}

/// The pairs left for the collision response are exactly the touching pairs,
/// in the order found, that neither fuse nor are bonded: each of them is a
/// touching pair that responds, and each touching pair that responds is
/// among them.
pub proof fn lemma_unresolved_filter(
    pairs: Seq<(usize, usize)>,
    ids: Seq<u64>,
    s: CollideSettings,
    fuse_keys: Set<u128>,
    bonded: Set<(u64, u64)>,
)
    ensures
        unresolved(pairs, ids, s, fuse_keys, bonded) == pairs.filter(
            |p: (usize, usize)| responds(ids, s, fuse_keys, bonded, p),
        ),
        forall|k: int|
            0 <= k < unresolved(pairs, ids, s, fuse_keys, bonded).len() ==> pairs.contains(
                #[trigger] unresolved(pairs, ids, s, fuse_keys, bonded)[k],
            ) && responds(ids, s, fuse_keys, bonded, unresolved(pairs, ids, s, fuse_keys, bonded)[k]),
        forall|k: int|
            0 <= k < pairs.len() && responds(ids, s, fuse_keys, bonded, #[trigger] pairs[k])
                ==> unresolved(pairs, ids, s, fuse_keys, bonded).contains(pairs[k]),
    decreases pairs.len(),
{
    let pred = |p: (usize, usize)| responds(ids, s, fuse_keys, bonded, p);
    reveal(Seq::filter);
    if pairs.len() > 0 {
        lemma_unresolved_filter(pairs.drop_last(), ids, s, fuse_keys, bonded);
    }
    let u = unresolved(pairs, ids, s, fuse_keys, bonded);
    assert(u == pairs.filter(pred));
    assert forall|k: int| 0 <= k < u.len() implies pairs.contains(#[trigger] u[k]) && responds(
        ids,
        s,
        fuse_keys,
        bonded,
        u[k],
    ) by {
        pairs.lemma_filter_pred(pred, k);
        assert(u.contains(u[k]));
        pairs.lemma_filter_contains_rev(pred, u[k]);
    }
    assert forall|k: int| 0 <= k < pairs.len() && responds(ids, s, fuse_keys, bonded, #[trigger] pairs[k])
        implies u.contains(pairs[k]) by {
        pairs.lemma_filter_contains(pred, k);
    }
}

/// Bond selection respects the cap: a body never gains bonds beyond
/// `max`, and its bonds never drop below those it had.
pub proof fn lemma_bond_cap(ids: Seq<u64>, keys: Seq<(u64, u64)>, max: u8, cands: Seq<(usize, usize)>)
    ensures
        forall|x: u64|
            occurrences(keys, x) <= #[trigger] select(ids, keys, max, cands).0(x) <= if occurrences(
                keys,
                x,
            ) > max {
                occurrences(keys, x)
            } else {
                max as nat
            },
    decreases cands.len(),
{
    if cands.len() > 0 {
        lemma_bond_cap(ids, keys, max, cands.drop_last());
        let prev = select(ids, keys, max, cands.drop_last());
        assert forall|x: u64| occurrences(keys, x) <= #[trigger] select(ids, keys, max, cands).0(x)
            <= if occurrences(keys, x) > max {
            occurrences(keys, x)
        } else {
            max as nat
        } by {
            assert(occurrences(keys, x) <= prev.0(x));
        }
    }
}

/// How many times `id` is carried at an end of the body pairs `chosen`,
/// counting both ends of each pair.
pub open spec fn pair_occurrences(ids: Seq<u64>, chosen: Seq<(usize, usize)>, id: u64) -> nat
    decreases chosen.len(),
{
    if chosen.len() == 0 {
        0
    } else {
        pair_occurrences(ids, chosen.drop_last(), id) + (if ids[chosen.last().0 as int] == id {
            1nat
        } else {
            0nat
        }) + (if ids[chosen.last().1 as int] == id {
            1nat
        } else {
            0nat
        })
    }
}

/// The selection's count for a body is its existing bonds plus the ends it
/// carries among the chosen pairs.
proof fn lemma_select_count(ids: Seq<u64>, keys: Seq<(u64, u64)>, max: u8, cands: Seq<(usize, usize)>)
    ensures
        forall|x: u64|
            #[trigger] select(ids, keys, max, cands).0(x) == occurrences(keys, x) + pair_occurrences(
                ids,
                select(ids, keys, max, cands).1,
                x,
            ),
    decreases cands.len(),
{
    if cands.len() > 0 {
        lemma_select_count(ids, keys, max, cands.drop_last());
        let prev = select(ids, keys, max, cands.drop_last());
        let sel = select(ids, keys, max, cands);
        if sel.1.len() != prev.1.len() {
            let p = cands.last();
            assert(sel.1 == prev.1.push(p));
            assert(sel.1.drop_last() =~= prev.1);
            assert forall|x: u64| #[trigger] sel.0(x) == occurrences(keys, x) + pair_occurrences(ids, sel.1, x) by {
                assert(prev.0(x) == occurrences(keys, x) + pair_occurrences(ids, prev.1, x));
            }
        } else {
            assert forall|x: u64| #[trigger] sel.0(x) == occurrences(keys, x) + pair_occurrences(ids, sel.1, x) by {
                assert(prev.0(x) == occurrences(keys, x) + pair_occurrences(ids, prev.1, x));
            }
        }
    }
}

/// The new bonds respect the cap: for every id, its existing bonds plus the
/// ends it carries among the chosen new bonds are at most `max`, or, when it
/// already had more than `max` bonds, it gains none.
pub proof fn lemma_chosen_within_cap(
    ids: Seq<u64>,
    keys: Seq<(u64, u64)>,
    max: u8,
    cands: Seq<(usize, usize)>,
)
    ensures
        forall|x: u64|
            occurrences(keys, x) + #[trigger] pair_occurrences(ids, select(ids, keys, max, cands).1, x)
                <= if occurrences(keys, x) > max {
                occurrences(keys, x)
            } else {
                max as nat
            },
{
    lemma_select_count(ids, keys, max, cands);
    lemma_bond_cap(ids, keys, max, cands);
    assert forall|x: u64|
        occurrences(keys, x) + #[trigger] pair_occurrences(ids, select(ids, keys, max, cands).1, x)
            <= if occurrences(keys, x) > max {
            occurrences(keys, x)
        } else {
            max as nat
        } by {
        assert(select(ids, keys, max, cands).0(x) == occurrences(keys, x) + pair_occurrences(
            ids,
            select(ids, keys, max, cands).1,
            x,
        ));
    }
}

/// The bonds chosen are new: no chosen pair is a body with itself, none is
/// already bonded, no two chosen pairs bond the same two ids, and the tuples
/// recorded are exactly those of the chosen pairs.
pub proof fn lemma_new_bonds_fresh(
    ids: Seq<u64>,
    keys: Seq<(u64, u64)>,
    max: u8,
    cands: Seq<(usize, usize)>,
)
    ensures
        ({
            let sel = select(ids, keys, max, cands);
            let tuple = |p: (usize, usize)| ordered(ids[p.0 as int], ids[p.1 as int]);
            &&& forall|k: int|
                0 <= k < sel.1.len() ==> ids[#[trigger] sel.1[k].0 as int] != ids[sel.1[k].1 as int]
                    && !keys.contains(tuple(sel.1[k])) && sel.2.contains(tuple(sel.1[k]))
            &&& forall|k: int, q: int|
                0 <= k < q < sel.1.len() ==> tuple(#[trigger] sel.1[k]) != tuple(#[trigger] sel.1[q])
            &&& forall|t: (u64, u64)|
                #[trigger] sel.2.contains(t) ==> exists|k: int|
                    0 <= k < sel.1.len() && tuple(#[trigger] sel.1[k]) == t
        }),
    decreases cands.len(),
{
    let tuple = |p: (usize, usize)| ordered(ids[p.0 as int], ids[p.1 as int]);
    if cands.len() > 0 {
        lemma_new_bonds_fresh(ids, keys, max, cands.drop_last());
        let prev = select(ids, keys, max, cands.drop_last());
        let sel = select(ids, keys, max, cands);
        if sel.1.len() != prev.1.len() {
            let p = cands.last();
            assert(sel.1 == prev.1.push(p));
            assert(sel.2 == prev.2.insert(tuple(p)));
            assert forall|k: int| 0 <= k < sel.1.len() implies ids[#[trigger] sel.1[k].0 as int]
                != ids[sel.1[k].1 as int] && !keys.contains(tuple(sel.1[k])) && sel.2.contains(
                tuple(sel.1[k]),
            ) by {
                if k < prev.1.len() {
                    assert(sel.1[k] == prev.1[k]);
                }
            }
            assert forall|k: int, q: int| 0 <= k < q < sel.1.len() implies tuple(#[trigger] sel.1[k])
                != tuple(#[trigger] sel.1[q]) by {
                assert(sel.1[k] == prev.1[k]);
                if q < prev.1.len() {
                    assert(sel.1[q] == prev.1[q]);
                } else {
                    assert(prev.2.contains(tuple(prev.1[k])));
                }
            }
            assert forall|t: (u64, u64)| #[trigger] sel.2.contains(t) implies exists|k: int|
                0 <= k < sel.1.len() && tuple(#[trigger] sel.1[k]) == t by {
                if t == tuple(p) {
                    assert(sel.1[prev.1.len() as int] == p);
                } else {
                    let k = choose|k: int| 0 <= k < prev.1.len() && tuple(#[trigger] prev.1[k]) == t;
                    assert(sel.1[k] == prev.1[k]);
                }
            }
        }
    }
}

/// With distinct ids at the two ends of every touching pair, no body counts
/// more than `contact_limit` contacts in a frame.
pub proof fn lemma_contact_budget(
    contacts: Map<u128, Contact>,
    ids: Seq<u64>,
    frame: usize,
    s: CollideSettings,
    pairs: Seq<(usize, usize)>,
)
    requires
        forall|k: int| 0 <= k < pairs.len() ==> ids[#[trigger] pairs[k].0 as int] != ids[pairs[k].1 as int],
    ensures
        ({
            let t = track(tracking_start(contacts, ids, s), ids, frame, s, pairs);
            &&& t.1.len() == tracking_start(contacts, ids, s).1.len()
            &&& forall|x: int| 0 <= x < t.1.len() ==> #[trigger] t.1[x] <= contact_limit(s)
        }),
    decreases pairs.len(),
{
    if pairs.len() > 0 {
        let rest = pairs.drop_last();
        assert forall|k: int| 0 <= k < rest.len() implies ids[#[trigger] rest[k].0 as int] != ids[rest[k].1 as int] by {
            assert(rest[k] == pairs[k]);
        }
        lemma_contact_budget(contacts, ids, frame, s, rest);
        assert(pairs.last() == pairs[pairs.len() - 1]);
    }
}

/// Contact records only move forward: records of earlier pairs stay, and each
/// record is either the one held before or was written in this frame with a
/// streak of at least one.
pub proof fn lemma_track_records(
    contacts: Map<u128, Contact>,
    ids: Seq<u64>,
    frame: usize,
    s: CollideSettings,
    pairs: Seq<(usize, usize)>,
)
    ensures
        ({
            let t = track(tracking_start(contacts, ids, s), ids, frame, s, pairs);
            &&& forall|key: u128| contacts.dom().contains(key) ==> #[trigger] t.0.dom().contains(key)
            &&& forall|key: u128|
                #[trigger] t.0.dom().contains(key) ==> (contacts.dom().contains(key) && t.0[key]
                    == contacts[key]) || (t.0[key].last_frame == frame && t.0[key].streak >= 1)
        }),
    decreases pairs.len(),
{
    if pairs.len() > 0 {
        lemma_track_records(contacts, ids, frame, s, pairs.drop_last());
        let prev = track(tracking_start(contacts, ids, s), ids, frame, s, pairs.drop_last());
        let t = track(tracking_start(contacts, ids, s), ids, frame, s, pairs);
        let p = pairs.last();
        let key = pair_key(ids[p.0 as int], ids[p.1 as int]);
        assert(next_streak(stored(prev.0, key), frame) >= 1);
        assert forall|k: u128| contacts.dom().contains(k) implies #[trigger] t.0.dom().contains(k) by {
            assert(prev.0.dom().contains(k));
        }
        assert forall|k: u128| #[trigger] t.0.dom().contains(k) implies (contacts.dom().contains(k)
            && t.0[k] == contacts[k]) || (t.0[k].last_frame == frame && t.0[k].streak >= 1) by {
            if t.0 != prev.0 && k != key {
                assert(prev.0.dom().contains(k));
                assert(t.0[k] == prev.0[k]);
            }
        }
    }
}

} // verus!
