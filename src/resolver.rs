//! Configuration order: a topological sort over "must configure before" edges.
use vstd::prelude::*;

verus! {

/// Unit `u` declared that it needs unit `v` still present, so `u` is configured before `v`.
pub open spec fn must_precede(deps: Seq<Vec<usize>>, u: int, v: int) -> bool {
    0 <= u < deps.len() && deps[u]@.contains(v as usize)
}

/// Every declared edge names one of the `deps.len()` units.
pub open spec fn graph_wf(deps: Seq<Vec<usize>>) -> bool {
    forall|u: int, j: int|
        0 <= u < deps.len() && 0 <= j < deps[u]@.len() ==> #[trigger] deps[u]@[j] < deps.len()
}

/// `order` names every unit below `n` exactly once, and nothing else.
pub open spec fn lists_each_once(order: Seq<usize>, n: nat) -> bool {
    &&& order.no_duplicates()
    &&& forall|i: int| 0 <= i < order.len() ==> #[trigger] order[i] < n
    &&& forall|u: usize| u < n ==> #[trigger] order.contains(u)
}

/// No unit in `order` comes before a unit that must precede it.
pub open spec fn respects_edges(deps: Seq<Vec<usize>>, order: Seq<usize>) -> bool {
    forall|i: int, j: int|
        0 <= i < order.len() && 0 <= j < order.len() && #[trigger] must_precede(
            deps,
            order[i] as int,
            order[j] as int,
        ) ==> i < j
}

/// A valid configuration order for the graph `deps`.
pub open spec fn is_config_order(deps: Seq<Vec<usize>>, order: Seq<usize>) -> bool {
    lists_each_once(order, deps.len()) && respects_edges(deps, order)
}

/// A non-empty set of units each of which waits on another unit of the set:
/// the witness of a dependency cycle.
pub open spec fn is_stuck_set(deps: Seq<Vec<usize>>, stuck: Seq<usize>) -> bool {
    &&& stuck.len() > 0
    &&& forall|i: int| 0 <= i < stuck.len() ==> #[trigger] stuck[i] < deps.len()
    &&& forall|i: int| 0 <= i < stuck.len() ==> waits_within(deps, stuck, #[trigger] stuck[i])
}

/// Some unit not marked in `placed` must precede unit `v`.
pub open spec fn waits_on_unplaced(deps: Seq<Vec<usize>>, placed: Seq<bool>, v: usize) -> bool {
    exists|w: int| 0 <= w < deps.len() && !placed[w] && #[trigger] must_precede(deps, w, v as int)
}

/// Some member of `group` must precede unit `v`.
pub open spec fn waits_within(deps: Seq<Vec<usize>>, group: Seq<usize>, v: usize) -> bool {
    exists|j: int| 0 <= j < group.len() && #[trigger] must_precede(deps, group[j] as int, v as int)
}

/// A closed walk along the edges: `cycle[k]` must precede `cycle[k + 1]`, and the last the first.
pub open spec fn is_cycle(deps: Seq<Vec<usize>>, cycle: Seq<usize>) -> bool {
    &&& cycle.len() > 0
    &&& forall|k: int|
        0 <= k < cycle.len() - 1 ==> #[trigger] must_precede(
            deps,
            cycle[k] as int,
            cycle[k + 1] as int,
        )
    &&& must_precede(deps, cycle.last() as int, cycle[0] as int)
}

/// A sequence of distinct values below `n` has at most `n` elements.
pub proof fn lemma_distinct_below(s: Seq<usize>, n: nat)
    requires
        s.no_duplicates(),
        forall|i: int| 0 <= i < s.len() ==> #[trigger] s[i] < n,
    ensures
        s.len() <= n,
    decreases n,
{
    if n == 0 {
        if s.len() > 0 {
            assert(s[0] < n);
        }
    } else {
        let top = (n - 1) as usize;
        if s.contains(top) {
            let k = choose|k: int| 0 <= k < s.len() && s[k] == top;
            let t = s.remove(k);
            assert forall|i: int| 0 <= i < t.len() implies #[trigger] t[i] < n - 1 by {
                if i < k {
                    assert(t[i] == s[i]);
                } else {
                    assert(t[i] == s[i + 1]);
                }
            }
            assert forall|i: int, j: int| 0 <= i < t.len() && 0 <= j < t.len() && i != j implies t[i]
                != t[j] by {
                let si = if i < k { i } else { i + 1 };
                let sj = if j < k { j } else { j + 1 };
                assert(t[i] == s[si]);
                assert(t[j] == s[sj]);
            }
            lemma_distinct_below(t, (n - 1) as nat);
        } else {
            assert forall|i: int| 0 <= i < s.len() implies #[trigger] s[i] < n - 1 by {
                assert(s[i] != top);
            }
            lemma_distinct_below(s, (n - 1) as nat);
        }
    }
}

/// Where unit `u` stands in `order`.
pub open spec fn position_in(order: Seq<usize>, u: usize) -> int {
    choose|p: int| 0 <= p < order.len() && order[p] == u
}

/// Among the first `i` members of `stuck`, one that `order` places earliest.
proof fn earliest_member(deps: Seq<Vec<usize>>, stuck: Seq<usize>, order: Seq<usize>, i: int) -> (best: int)
    requires
        is_config_order(deps, order),
        is_stuck_set(deps, stuck),
        1 <= i <= stuck.len(),
    ensures
        0 <= best < i,
        forall|k: int| 0 <= k < i ==> position_in(order, stuck[best]) <= #[trigger] position_in(order, stuck[k]),
    decreases i,
{
    if i == 1 {
        0
    } else {
        let b = earliest_member(deps, stuck, order, i - 1);
        if position_in(order, stuck[i - 1]) < position_in(order, stuck[b]) {
            i - 1
        } else {
            b
        }
    }
}

/// A stuck set rules out every configuration order.
pub proof fn lemma_stuck_has_no_order(deps: Seq<Vec<usize>>, stuck: Seq<usize>, order: Seq<usize>)
    requires
        is_stuck_set(deps, stuck),
    ensures
        !is_config_order(deps, order),
{
    if is_config_order(deps, order) {
        // the member of the stuck set placed earliest has a predecessor placed earlier still
        let best = earliest_member(deps, stuck, order, stuck.len() as int);
        assert(waits_within(deps, stuck, stuck[best]));
        let j = choose|j: int|
            0 <= j < stuck.len() && #[trigger] must_precede(deps, stuck[j] as int, stuck[best] as int);
        assert(order.contains(stuck[j]));
        assert(order.contains(stuck[best]));
        let pj = position_in(order, stuck[j]);
        let pb = position_in(order, stuck[best]);
        assert(must_precede(deps, order[pj] as int, order[pb] as int));
        assert(pb <= position_in(order, stuck[j]));
    }
}

/// Along a configuration order, every unit of a walk comes after the walk's first unit.
proof fn lemma_walk_moves_forward(deps: Seq<Vec<usize>>, cycle: Seq<usize>, order: Seq<usize>, k: int, p: Seq<int>)
    requires
        is_config_order(deps, order),
        is_cycle(deps, cycle),
        1 <= k < cycle.len(),
        p.len() == cycle.len(),
        forall|m: int| 0 <= m < cycle.len() ==> 0 <= #[trigger] p[m] < order.len() && order[p[m]] == cycle[m],
    ensures
        p[0] < p[k],
    decreases k,
{
    let km = k - 1;
    assert(must_precede(deps, cycle[km] as int, cycle[km + 1] as int));
    assert(must_precede(deps, order[p[k - 1]] as int, order[p[k]] as int));
    if k > 1 {
        lemma_walk_moves_forward(deps, cycle, order, k - 1, p);
    }
}

/// A graph with a cycle has no configuration order.
pub proof fn lemma_cycle_has_no_order(deps: Seq<Vec<usize>>, cycle: Seq<usize>, order: Seq<usize>)
    requires
        is_cycle(deps, cycle),
    ensures
        !is_config_order(deps, order),
{
    if is_config_order(deps, order) {
        assert forall|m: int| 0 <= m < cycle.len() implies #[trigger] cycle[m] < deps.len() by {
            if m < cycle.len() - 1 {
                assert(must_precede(deps, cycle[m] as int, cycle[m + 1] as int));
            } else {
                assert(must_precede(deps, cycle.last() as int, cycle[0] as int));
            }
        }
        let p = Seq::new(cycle.len(), |m: int| choose|q: int| 0 <= q < order.len() && order[q] == cycle[m]);
        assert forall|m: int| 0 <= m < cycle.len() implies 0 <= #[trigger] p[m] < order.len() && order[p[m]] == cycle[m] by {
            assert(order.contains(cycle[m]));
        }
        let last = cycle.len() - 1;
        assert(must_precede(deps, order[p[last]] as int, order[p[0]] as int));
        if last >= 1 {
            lemma_walk_moves_forward(deps, cycle, order, last, p);
        }
    }
}

/// Whether unit `w` declared that it needs unit `v`.
pub(crate) fn declares(deps: &Vec<Vec<usize>>, w: usize, v: usize) -> (r: bool)
    requires
        w < deps.len(),
    ensures
        r == must_precede(deps@, w as int, v as int),
{
    let needs = &deps[w];
    let mut j: usize = 0;
    while j < needs.len()
        invariant
            w < deps.len(),
            needs == deps@[w as int],
            j <= needs.len(),
            forall|k: int| 0 <= k < j ==> needs@[k] != v,
        decreases needs.len() - j,
    {
        if needs[j] == v {
            assert(deps@[w as int]@[j as int] == v);
            return true;
        }
        j = j + 1;
    }
    false
}

/// Whether some unit not yet placed must precede `v`.
fn is_blocked(deps: &Vec<Vec<usize>>, placed: &Vec<bool>, v: usize) -> (r: bool)
    requires
        placed.len() == deps.len(),
    ensures
        r == exists|w: int| 0 <= w < deps.len() && !placed@[w] && #[trigger] must_precede(deps@, w, v as int),
{
    let mut w: usize = 0;
    while w < deps.len()
        invariant
            placed.len() == deps.len(),
            w <= deps.len(),
            forall|x: int| 0 <= x < w ==> placed@[x] || !#[trigger] must_precede(deps@, x, v as int),
        decreases deps.len() - w,
    {
        if !placed[w] && declares(deps, w, v) {
            return true;
        }
        w = w + 1;
    }
    false
}

/// Orders the units `0..deps.len()`, where `deps[u]` lists the units that `u` must be
/// configured before. Each pass takes every unit that no unplaced unit must precede;
/// a pass that finds none reports the units left over, which wait on one another.
pub fn resolve(deps: &Vec<Vec<usize>>) -> (r: Result<Vec<usize>, Vec<usize>>)
    requires
        graph_wf(deps@),
    ensures
        match r {
            Ok(order) => is_config_order(deps@, order@),
            Err(stuck) => is_stuck_set(deps@, stuck@),
        },
        r is Err ==> forall|o: Seq<usize>| !#[trigger] is_config_order(deps@, o),
        forall|c: Seq<usize>| #[trigger] is_cycle(deps@, c) ==> r is Err,
{
    let n = deps.len();
    let mut placed: Vec<bool> = Vec::new();
    let mut i: usize = 0;
    while i < n
        invariant
            i <= n,
            placed.len() == i,
            forall|k: int| 0 <= k < i ==> !placed@[k],
        decreases n - i,
    {
        placed.push(false);
        i = i + 1;
    }
    let mut order: Vec<usize> = Vec::new();
    loop
        invariant
            n == deps.len(),
            graph_wf(deps@),
            placed.len() == n,
            order@.no_duplicates(),
            forall|k: int| 0 <= k < order.len() ==> #[trigger] order@[k] < n,
            forall|u: int| 0 <= u < n ==> (placed@[u] <==> order@.contains(u as usize)),
            respects_edges(deps@, order@),
            forall|k: int, w: int|
                0 <= k < order.len() && #[trigger] must_precede(deps@, w, order@[k] as int) ==> 0 <= w < n && placed@[w],
        decreases n - order.len(),
    {
        proof {
            lemma_distinct_below(order@, n as nat);
        }
        // one pass over the units still unplaced
        let ghost before = placed@;
        let ghost start_len = order.len();
        let mut ready: Vec<usize> = Vec::new();
        let mut left: Vec<usize> = Vec::new();
        let mut v: usize = 0;
        while v < n
            invariant
                n == deps.len(),
                placed.len() == n,
                placed@ == before,
                v <= n,
                forall|k: int| 0 <= k < ready.len() ==> #[trigger] ready@[k] < v,
                forall|k: int, m: int| 0 <= k < m < ready.len() ==> ready@[k] < ready@[m],
                forall|k: int| 0 <= k < ready.len() ==> !before[#[trigger] ready@[k] as int],
                forall|k: int, w: int|
                    0 <= k < ready.len() && 0 <= w < n && #[trigger] must_precede(deps@, w, ready@[k] as int) ==> before[w],
                forall|k: int| 0 <= k < left.len() ==> #[trigger] left@[k] < v && !before[left@[k] as int],
                forall|u: int| 0 <= u < v && !before[u] ==> left@.contains(u as usize),
                ready.len() == 0 ==> forall|k: int| 0 <= k < left.len() ==> waits_on_unplaced(deps@, before, #[trigger] left@[k]),
            decreases n - v,
        {
            if !placed[v] {
                if !is_blocked(deps, &placed, v) {
                    ready.push(v);
                } else {
                    proof {
                        let w = choose|w: int| 0 <= w < deps.len() && !placed@[w] && #[trigger] must_precede(deps@, w, v as int);
                        assert(waits_on_unplaced(deps@, before, v));
                    }
                }
                let ghost old_left = left@;
                left.push(v);
                proof {
                    assert forall|u: int| 0 <= u < v + 1 && !before[u] implies left@.contains(u as usize) by {
                        if u == v {
                            assert(left@[left.len() - 1] == v);
                        } else {
                            assert(old_left.contains(u as usize));
                            let q = choose|q: int| 0 <= q < old_left.len() && old_left[q] == u as usize;
                            assert(left@[q] == u as usize);
                        }
                    }
                }
            }
            v = v + 1;
        }
        if left.len() == 0 {
            proof {
                assert forall|u: usize| u < n implies #[trigger] order@.contains(u) by {
                    if !before[u as int] {
                        assert(left@.contains(u));
                    }
                }
                assert forall|c: Seq<usize>| #[trigger] is_cycle(deps@, c) implies false by {
                    lemma_cycle_has_no_order(deps@, c, order@);
                }
            }
            return Ok(order);
        }
        if ready.len() == 0 {
            proof {
                assert forall|k: int| 0 <= k < left.len() implies waits_within(deps@, left@, #[trigger] left@[k]) by {
                    assert(waits_on_unplaced(deps@, before, left@[k]));
                    let w = choose|w: int| 0 <= w < deps.len() && !before[w] && #[trigger] must_precede(deps@, w, left@[k] as int);
                    assert(left@.contains(w as usize));
                    let q = choose|q: int| 0 <= q < left.len() && left@[q] == w as usize;
                    assert(must_precede(deps@, left@[q] as int, left@[k] as int));
                }
                assert forall|o: Seq<usize>| !#[trigger] is_config_order(deps@, o) by {
                    lemma_stuck_has_no_order(deps@, left@, o);
                }
            }
            return Err(left);
        }
        // place the whole pass
        let mut k: usize = 0;
        while k < ready.len()
            invariant
                n == deps.len(),
                graph_wf(deps@),
                placed.len() == n,
                0 < ready.len(),
                k <= ready.len(),
                order.len() == start_len + k,
                before.len() == n,
                forall|a: int| 0 <= a < ready.len() ==> #[trigger] ready@[a] < n,
                forall|a: int, m: int| 0 <= a < m < ready.len() ==> ready@[a] < ready@[m],
                forall|a: int| k <= a < ready.len() ==> !placed@[#[trigger] ready@[a] as int],
                forall|a: int, w: int|
                    0 <= a < ready.len() && 0 <= w < n && #[trigger] must_precede(deps@, w, ready@[a] as int) ==> before[w],
                forall|u: int| 0 <= u < n && before[u] ==> placed@[u],
                order@.no_duplicates(),
                forall|a: int| 0 <= a < order.len() ==> #[trigger] order@[a] < n,
                forall|u: int| 0 <= u < n ==> (placed@[u] <==> order@.contains(u as usize)),
                respects_edges(deps@, order@),
                forall|a: int, w: int|
                    0 <= a < order.len() && #[trigger] must_precede(deps@, w, order@[a] as int) ==> 0 <= w < n && placed@[w],
            decreases ready.len() - k,
        {
            let x = ready[k];
            let ghost prev = order@;
            proof {
                assert(!prev.contains(x)) by {
                    assert(!placed@[x as int]);
                }
                assert forall|w: int| #[trigger] must_precede(deps@, w, x as int) implies 0 <= w < n && placed@[w] by {
                    let j = choose|j: int| 0 <= j < deps@[w]@.len() && deps@[w]@[j] == x;
                    assert(must_precede(deps@, w, ready@[k as int] as int));
                }
            }
            placed.set(x, true);
            order.push(x);
            proof {
                assert forall|a: int, b: int|
                    0 <= a < order.len() && 0 <= b < order.len() && #[trigger] must_precede(
                        deps@,
                        order@[a] as int,
                        order@[b] as int,
                    ) implies a < b by {
                    if a == prev.len() && b < prev.len() {
                        assert(must_precede(deps@, x as int, prev[b] as int));
                        assert(placed@[x as int]);
                    } else if a < prev.len() && b < prev.len() {
                        assert(must_precede(deps@, prev[a] as int, prev[b] as int));
                    } else if a == prev.len() && b == prev.len() {
                        assert(must_precede(deps@, x as int, x as int));
                    }
                }
                assert forall|u: int| 0 <= u < n implies (placed@[u] <==> order@.contains(u as usize)) by {
                    if u == x as int {
                        assert(order@[prev.len() as int] == x);
                    } else if order@.contains(u as usize) {
                        let q = choose|q: int| 0 <= q < order.len() && order@[q] == u as usize;
                        assert(q < prev.len());
                        assert(prev[q] == u as usize);
                    } else if prev.contains(u as usize) {
                        let q = choose|q: int| 0 <= q < prev.len() && prev[q] == u as usize;
                        assert(order@[q] == u as usize);
                    }
                }
                assert forall|a: int, w: int|
                    0 <= a < order.len() && #[trigger] must_precede(deps@, w, order@[a] as int) implies 0 <= w < n && placed@[w] by {
                    if a < prev.len() {
                        assert(must_precede(deps@, w, prev[a] as int));
                    }
                }
            }
            k = k + 1;
        }
        proof {
            lemma_distinct_below(order@, n as nat);
        }
    }
}

} // verus!
