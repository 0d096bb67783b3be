use vstd::prelude::*;
use vstd::seq_lib::*;
use vstd::set_lib::*;
use crate::passes::{DescV, PassDescriptor, has_id, contains_id};

verus! {

/// Pass `i` must run after pass `j` in a cycle when `i` declares any
/// dependency on `j`'s state; a pass never waits on itself.
pub open spec fn must_follow(descs: Seq<DescV>, i: int, j: int) -> bool {
    i != j && (has_id(descs[i].parent_deps, descs[j].id) || has_id(descs[i].child_deps, descs[j].id)
        || has_id(descs[i].node_deps, descs[j].id))
}

/// A valid execution order: every pass once, and a pass only after
/// everything it depends on.
pub open spec fn schedule_ok(descs: Seq<DescV>, order: Seq<usize>) -> bool {
    &&& order.len() == descs.len()
    &&& (forall|k: int| 0 <= k < order.len() ==> order[k] < descs.len())
    &&& order.no_duplicates()
    &&& (forall|x: usize| x < descs.len() ==> order.contains(x))
    &&& (forall|p: int, q: int|
        0 <= p < order.len() && 0 <= q < order.len() && must_follow(
            descs,
            order[p] as int,
            order[q] as int,
        ) ==> q < p)
}

/// Whether the `k`-th member of `s` waits on some member of `s`.
pub open spec fn waits_within(descs: Seq<DescV>, s: Seq<usize>, k: int) -> bool {
    exists|m: int| 0 <= m < s.len() && #[trigger] must_follow(descs, s[k] as int, s[m] as int)
}

/// A witness that the declared dependencies are cyclic: a nonempty set of
/// passes each of which waits on another member of the set.
pub open spec fn stuck_set(descs: Seq<DescV>, s: Seq<usize>) -> bool {
    &&& s.len() > 0
    &&& (forall|k: int| 0 <= k < s.len() ==> s[k] < descs.len())
    &&& s.no_duplicates()
    &&& (forall|k: int| 0 <= k < s.len() ==> waits_within(descs, s, k))
}

/// No order can place every member of a stuck set: its earliest member
/// would still wait on another member.  So a stuck witness rules out
/// every valid schedule.
pub proof fn lemma_stuck_set_has_no_schedule(descs: Seq<DescV>, s: Seq<usize>, order: Seq<usize>)
    requires
        stuck_set(descs, s),
    ensures
        !schedule_ok(descs, order),
{
    if !schedule_ok(descs, order) {
        return;
    }
    // Pick the member of `s` that comes earliest in `order`.
    let ghost pos = |x: usize| choose|p: int| 0 <= p < order.len() && order[p] == x;
    let ghost positions = Seq::new(s.len(), |k: int| pos(s[k]));
    assert forall|k: int| 0 <= k < s.len() implies {
        &&& 0 <= positions[k] < order.len()
        &&& order[positions[k]] == s[k]
    } by {
        assert(order.contains(s[k]));
    }
    // Find the index into `s` whose position is minimal.
    let ghost k0 = min_position_index(positions);
    lemma_min_position_index(positions);
    assert(0 <= k0 < s.len());
    assert(forall|k: int| 0 <= k < s.len() ==> positions[k0] <= positions[k]);
    assert(waits_within(descs, s, k0));
    let m = choose|m: int| 0 <= m < s.len() && #[trigger] must_follow(descs, s[k0] as int, s[m] as int);
    // In a valid order, s[m] stands before s[k0], contradicting minimality.
    assert(order[positions[k0]] == s[k0]);
    assert(order[positions[m]] == s[m]);
    assert(must_follow(descs, order[positions[k0]] as int, order[positions[m]] as int));
    assert(positions[m] < positions[k0]);
    assert(positions[k0] <= positions[m]);
    assert(false);
}

/// The index of a minimal entry of a nonempty sequence of ints.
spec fn min_position_index(positions: Seq<int>) -> int
    decreases positions.len(),
{
    if positions.len() <= 1 {
        0
    } else {
        let rest = min_position_index(positions.drop_last());
        if positions.last() < positions[rest] {
            positions.len() - 1
        } else {
            rest
        }
    }
}

proof fn lemma_min_position_index(positions: Seq<int>)
    requires
        positions.len() > 0,
    ensures
        0 <= min_position_index(positions) < positions.len(),
        forall|k: int| #![trigger positions[k]]
            0 <= k < positions.len() ==> positions[min_position_index(positions)] <= positions[k],
    decreases positions.len(),
{
    if positions.len() > 1 {
        lemma_min_position_index(positions.drop_last());
        assert(forall|k: int|
            0 <= k < positions.len() - 1 ==> positions.drop_last()[k] == positions[k]);
    }
}

/// A sequence of `n` distinct indices below `n` holds every index below `n`.
pub proof fn lemma_distinct_indices_cover(s: Seq<usize>, n: int)
    requires
        s.no_duplicates(),
        s.len() == n,
        forall|k: int| 0 <= k < s.len() ==> s[k] < n,
    ensures
        forall|x: usize| x < n ==> s.contains(x),
{
    let si = Seq::new(s.len(), |k: int| s[k] as int);
    assert(si.no_duplicates()) by {
        assert forall|i: int, j: int| 0 <= i < j < si.len() implies si[i] != si[j] by {
            assert(s[i] != s[j]);
        }
    }
    si.unique_seq_to_set();
    seq_to_set_is_finite(si);
    lemma_int_range(0, n);
    assert(si.to_set().subset_of(set_int_range(0, n))) by {
        assert forall|e: int| si.to_set().contains(e) implies set_int_range(0, n).contains(e) by {
            let k = choose|k: int| 0 <= k < si.len() && si[k] == e;
            assert(s[k] < n);
        }
    }
    assert forall|x: usize| x < n implies s.contains(x) by {
        if !s.contains(x) {
            assert(!si.to_set().contains(x as int)) by {
                if si.to_set().contains(x as int) {
                    let k = choose|k: int| 0 <= k < si.len() && si[k] == x as int;
                    assert(s[k] == x);
                }
            }
            si.to_set().lemma_subset_not_in_lt(set_int_range(0, n), x as int);
        }
    }
}

fn must_follow_exec(descs: &Vec<PassDescriptor>, i: usize, j: usize) -> (r: bool)
    requires
        i < descs@.len(),
        j < descs@.len(),
    ensures
        r == must_follow(descs@.map_values(|d: PassDescriptor| d@), i as int, j as int),
{
    if i == j {
        return false;
    }
    let id = descs[j].id;
    contains_id(&descs[i].parent_dependencies, id) || contains_id(&descs[i].child_dependencies, id)
        || contains_id(&descs[i].node_dependencies, id)
}

/// Whether every pass that `i` waits on is already placed.
spec fn spec_ready(descs: Seq<DescV>, flag: Seq<bool>, i: int) -> bool {
    forall|j: int| 0 <= j < descs.len() && must_follow(descs, i, j) ==> flag[j]
}

fn ready_exec(descs: &Vec<PassDescriptor>, flag: &Vec<bool>, i: usize) -> (r: bool)
    requires
        i < descs@.len(),
        flag@.len() == descs@.len(),
    ensures
        r == spec_ready(descs@.map_values(|d: PassDescriptor| d@), flag@, i as int),
{
    let ghost dv = descs@.map_values(|d: PassDescriptor| d@);
    let mut j: usize = 0;
    while j < descs.len()
        invariant
            0 <= j <= descs@.len(),
            i < descs@.len(),
            flag@.len() == descs@.len(),
            dv == descs@.map_values(|d: PassDescriptor| d@),
            forall|k: int| 0 <= k < j && must_follow(dv, i as int, k) ==> flag@[k],
        decreases descs@.len() - j,
    {
        if must_follow_exec(descs, i, j) && !flag[j] {
            return false;
        }
        j += 1;
    }
    true
}

/// Order the passes so that each runs only after every pass it depends on.
/// Returns the order, or, when the declared dependencies are cyclic, the
/// set of passes that can never be placed.
pub(crate) fn build_schedule(descs: &Vec<PassDescriptor>) -> (r: Result<Vec<usize>, Vec<usize>>)
    ensures
        match r {
            Ok(order) => schedule_ok(descs@.map_values(|d: PassDescriptor| d@), order@),
            Err(stuck) => stuck_set(descs@.map_values(|d: PassDescriptor| d@), stuck@),
        },
{
    let ghost dv = descs@.map_values(|d: PassDescriptor| d@);
    let n = descs.len();
    let mut placed: Vec<usize> = Vec::new();
    let mut flag: Vec<bool> = Vec::new();
    let mut i0: usize = 0;
    while i0 < n
        invariant
            flag@.len() == i0,
            i0 <= n,
            forall|k: int| 0 <= k < i0 ==> !flag@[k],
        decreases n - i0,
    {
        flag.push(false);
        i0 += 1;
    }
    while placed.len() < n
        invariant
            n == dv.len(),
            dv == descs@.map_values(|d: PassDescriptor| d@),
            flag@.len() == n,
            placed@.len() <= n,
            placed@.no_duplicates(),
            forall|k: int| 0 <= k < placed@.len() ==> placed@[k] < n,
            forall|x: usize| x < n ==> (flag@[x as int] == placed@.contains(x)),
            forall|p: int, j: int|
                0 <= p < placed@.len() && 0 <= j < n && must_follow(
                    dv,
                    placed@[p] as int,
                    j,
                ) ==> exists|q: int| 0 <= q < p && placed@[q] == j as usize,
        decreases n - placed@.len(),
    {
        let mut found: usize = n;
        let mut i: usize = 0;
        while i < n && found == n
            invariant
                n == dv.len(),
                dv == descs@.map_values(|d: PassDescriptor| d@),
                flag@.len() == n,
                i <= n,
                found == n || (found < n && !flag@[found as int] && spec_ready(dv, flag@, found as int)),
                found == n ==> forall|k: int| 0 <= k < i && !flag@[k] ==> !spec_ready(dv, flag@, k),
            decreases n - i + (if found == n { 1int } else { 0int }),
        {
            if !flag[i] && ready_exec(descs, &flag, i) {
                found = i;
            } else {
                i += 1;
            }
        }
        if found == n {
            // No pass is ready: every unplaced pass waits on an unplaced pass.
            let mut stuck: Vec<usize> = Vec::new();
            let mut x: usize = 0;
            while x < n
                invariant
                    n == dv.len(),
                    dv == descs@.map_values(|d: PassDescriptor| d@),
                    flag@.len() == n,
                    placed@.len() < n,
                    placed@.no_duplicates(),
                    forall|y: usize| y < n ==> (flag@[y as int] == placed@.contains(y)),
                    forall|k: int| 0 <= k < n && !flag@[k] ==> !spec_ready(dv, flag@, k),
                    x <= n,
                    forall|i2: int, j2: int| 0 <= i2 < j2 < stuck@.len() ==> stuck@[i2] < stuck@[j2],
                    forall|k: int| 0 <= k < stuck@.len() ==> stuck@[k] < x,
                    forall|y: usize| y < x ==> (stuck@.contains(y) == !flag@[y as int]),
                decreases n - x,
            {
                if !flag[x] {
                    let ghost old_s = stuck@;
                    stuck.push(x);
                    proof {
                        assert(stuck@[stuck@.len() - 1] == x);
                        assert forall|y: usize| y < x + 1 implies (stuck@.contains(y)
                            == !flag@[y as int]) by {
                            if y == x {
                                assert(stuck@.contains(x));
                            } else {
                                if old_s.contains(y) {
                                    let k = choose|k: int| 0 <= k < old_s.len() && old_s[k] == y;
                                    assert(stuck@[k] == y);
                                }
                                if stuck@.contains(y) {
                                    let k = choose|k: int| 0 <= k < stuck@.len() && stuck@[k] == y;
                                    assert(k < old_s.len());
                                    assert(old_s.contains(y));
                                }
                            }
                        }
                    }
                } else {
                    proof {
                        assert forall|y: usize| y < x + 1 implies (stuck@.contains(y)
                            == !flag@[y as int]) by {
                            if y == x && stuck@.contains(y) {
                                let k = choose|k: int| 0 <= k < stuck@.len() && stuck@[k] == y;
                                assert(stuck@[k] < x);
                            }
                        }
                    }
                }
                x += 1;
            }
            proof {
                assert(stuck@.no_duplicates()) by {
                    assert forall|i2: int, j2: int|
                        0 <= i2 < j2 < stuck@.len() implies stuck@[i2] != stuck@[j2] by {
                        assert(stuck@[i2] < stuck@[j2]);
                    }
                }
                // The set is nonempty: fewer than `n` passes are placed, so
                // some index is unplaced.
                assert(stuck@.len() > 0) by {
                    if forall|y: usize| y < n ==> #[trigger] flag@[y as int] {
                        assert forall|y: usize| y < n implies placed@.contains(y) by {
                            assert(flag@[y as int]);
                        }
                        lemma_covering_seq_len(placed@, n as int);
                    } else {
                        let y = choose|y: usize| y < n && !flag@[y as int];
                        assert(stuck@.contains(y));
                    }
                }
                assert forall|k: int| 0 <= k < stuck@.len() implies waits_within(dv, stuck@, k) by {
                    let y = stuck@[k];
                    assert(!flag@[y as int]);
                    assert(!spec_ready(dv, flag@, y as int));
                    let j = choose|j: int|
                        0 <= j < dv.len() && must_follow(dv, y as int, j) && !flag@[j];
                    assert(stuck@.contains(j as usize));
                    let m = choose|m: int| 0 <= m < stuck@.len() && stuck@[m] == j as usize;
                    assert(must_follow(dv, stuck@[k] as int, stuck@[m] as int));
                }
                assert(stuck_set(dv, stuck@));
            }
            return Err(stuck);
        }
        // `found` is ready: place it.
        let ghost old_placed = placed@;
        let ghost old_flag = flag@;
        placed.push(found);
        flag[found] = true;
        proof {
            assert(placed@[placed@.len() - 1] == found);
            assert(!old_placed.contains(found));
            assert(placed@.no_duplicates()) by {
                assert forall|i2: int, j2: int|
                    0 <= i2 < j2 < placed@.len() implies placed@[i2] != placed@[j2] by {
                    if j2 == placed@.len() - 1 {
                        assert(old_placed[i2] == placed@[i2]);
                        assert(old_placed.contains(placed@[i2]));
                    }
                }
            }
            assert forall|x: usize| x < n implies (flag@[x as int] == placed@.contains(x)) by {
                if x == found {
                    assert(placed@.contains(found));
                } else {
                    if old_placed.contains(x) {
                        let k = choose|k: int| 0 <= k < old_placed.len() && old_placed[k] == x;
                        assert(placed@[k] == x);
                    }
                    if placed@.contains(x) {
                        let k = choose|k: int| 0 <= k < placed@.len() && placed@[k] == x;
                        assert(k < old_placed.len());
                        assert(old_placed.contains(x));
                    }
                }
            }
            assert forall|p: int, j: int|
                0 <= p < placed@.len() && 0 <= j < n && must_follow(
                    dv,
                    placed@[p] as int,
                    j,
                ) implies exists|q: int| 0 <= q < p && placed@[q] == j as usize by {
                if p == placed@.len() - 1 {
                    // `found` was ready, so `j` was already placed.
                    assert(placed@[p] == found);
                    assert(spec_ready(dv, old_flag, found as int));
                    assert(old_flag[j]) by {
                        assert(must_follow(dv, found as int, j));
                    }
                    assert(old_placed.contains(j as usize));
                    let q = choose|q: int| 0 <= q < old_placed.len() && old_placed[q] == j as usize;
                    assert(placed@[q] == j as usize);
                } else {
                    assert(exists|q: int| 0 <= q < p && old_placed[q] == j as usize);
                    let q = choose|q: int| 0 <= q < p && old_placed[q] == j as usize;
                    assert(placed@[q] == j as usize);
                }
            }
        }
    }
    proof {
        lemma_distinct_indices_cover(placed@, n as int);
        assert forall|p: int, q: int|
            0 <= p < placed@.len() && 0 <= q < placed@.len() && must_follow(
                dv,
                placed@[p] as int,
                placed@[q] as int,
            ) implies q < p by {
            let j = placed@[q] as int;
            assert(exists|q2: int| 0 <= q2 < p && placed@[q2] == j as usize);
            let q2 = choose|q2: int| 0 <= q2 < p && placed@[q2] == j as usize;
            if q2 != q {
                assert(placed@[q2] != placed@[q]);
            }
        }
        assert(schedule_ok(dv, placed@));
    }
    Ok(placed)
}

/// A duplicate-free sequence that holds every index below `n` holds at
/// least `n` entries.
proof fn lemma_covering_seq_len(placed: Seq<usize>, n: int)
    requires
        placed.no_duplicates(),
        forall|y: usize| y < n ==> placed.contains(y),
        0 <= n <= usize::MAX,
    ensures
        placed.len() >= n,
{
    if n == 0 {
        return;
    }
    let si = Seq::new(placed.len(), |k: int| placed[k] as int);
    assert(si.no_duplicates()) by {
        assert forall|i: int, j: int| 0 <= i < j < si.len() implies si[i] != si[j] by {
            assert(placed[i] != placed[j]);
        }
    }
    si.unique_seq_to_set();
    seq_to_set_is_finite(si);
    lemma_int_range(0, n);
    assert(set_int_range(0, n).subset_of(si.to_set())) by {
        assert forall|e: int| set_int_range(0, n).contains(e) implies si.to_set().contains(e) by {
            assert((e as usize) as int == e);
            assert((e as usize) < n);
            assert(placed.contains(e as usize));
            let k = choose|k: int| 0 <= k < placed.len() && placed[k] == e as usize;
            assert(si[k] == e);
        }
    }
    lemma_len_subset(set_int_range(0, n), si.to_set());
}

} // verus!
