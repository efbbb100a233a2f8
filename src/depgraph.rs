//! Ordering triggers so that each runs after the triggers it depends on.
use crate::trigger::Trigger;
use vstd::prelude::*;

verus! {

/// Why triggers could not be ordered.
#[derive(Debug, PartialEq, Eq)]
pub enum GraphError {
    /// A trigger depends on a name that no trigger has.
    UnknownDependency(String),
    /// The dependencies form a cycle.
    CyclicDependency,
}

/// No two triggers share a name.
pub open spec fn unique_trigger_names(ts: Seq<Trigger>) -> bool {
    forall|i: int, j: int|
        0 <= i < ts.len() && 0 <= j < ts.len() && i != j ==> ts[i].name@ != ts[j].name@
}

/// Some trigger is named `name`.
pub open spec fn has_trigger(ts: Seq<Trigger>, name: Seq<char>) -> bool {
    exists|j: int| 0 <= j < ts.len() && ts[j].name@ == name
}

/// Every dependency names a trigger.
pub open spec fn deps_known(ts: Seq<Trigger>) -> bool {
    forall|i: int, k: int|
        0 <= i < ts.len() && 0 <= k < ts[i].deps@.len() ==> has_trigger(ts, #[trigger] ts[i].deps@[k]@)
}

/// Trigger `a` depends on trigger `b`.
pub open spec fn depends_on(ts: Seq<Trigger>, a: int, b: int) -> bool {
    exists|k: int| 0 <= k < ts[a].deps@.len() && ts[a].deps@[k]@ == ts[b].name@
}

/// `order` holds the index `i`.
pub open spec fn lists(order: Seq<usize>, i: int) -> bool {
    exists|p: int| 0 <= p < order.len() && order[p] as int == i
}

/// `order` lists each trigger index once, and each trigger after those it
/// depends on.
pub open spec fn is_dependency_order(ts: Seq<Trigger>, order: Seq<usize>) -> bool {
    &&& order.len() == ts.len()
    &&& order.no_duplicates()
    &&& forall|p: int| 0 <= p < order.len() ==> order[p] < ts.len()
    &&& forall|i: int| 0 <= i < ts.len() ==> #[trigger] lists(order, i)
    &&& forall|p: int, q: int|
        0 <= p < order.len() && 0 <= q < order.len() && depends_on(ts, order[q] as int, order[p] as int)
            ==> p < q
}

spec fn count_unplaced(s: Seq<bool>) -> nat
    decreases s.len(),
{
    if s.len() == 0 {
        0
    } else {
        count_unplaced(s.drop_last()) + if s.last() {
            0nat
        } else {
            1nat
        }
    }
}

proof fn lemma_count_place(s: Seq<bool>, i: int)
    requires
        0 <= i < s.len(),
        !s[i],
    ensures
        count_unplaced(s.update(i, true)) + 1 == count_unplaced(s),
    decreases s.len(),
{
    let t = s.update(i, true);
    if i < s.len() - 1 {
        assert(t.drop_last() =~= s.drop_last().update(i, true));
        lemma_count_place(s.drop_last(), i);
    } else {
        assert(t.drop_last() =~= s.drop_last());
    }
}

proof fn lemma_count_all_placed(s: Seq<bool>)
    requires
        forall|i: int| 0 <= i < s.len() ==> s[i],
    ensures
        count_unplaced(s) == 0,
    decreases s.len(),
{
    if s.len() > 0 {
        lemma_count_all_placed(s.drop_last());
    }
}

/// Where the placement got stuck: every unplaced trigger has an unplaced
/// dependency. Then no dependency order places all triggers.
proof fn lemma_stuck_has_no_order(ts: Seq<Trigger>, placed: Seq<bool>, order: Seq<usize>, u: int)
    requires
        placed.len() == ts.len(),
        0 <= u < ts.len(),
        !placed[u],
        forall|i: int|
            0 <= i < ts.len() && !placed[i] ==> exists|j: int|
                0 <= j < ts.len() && !placed[j] && depends_on(ts, i, j),
    ensures
        !is_dependency_order(ts, order),
{
    if is_dependency_order(ts, order) {
        lemma_order_placed(ts, placed, order, order.len() as int);
        assert(lists(order, u));
        let p = choose|p: int| 0 <= p < order.len() && order[p] as int == u;
        assert(placed[order[p] as int]);
    }
}

proof fn lemma_order_placed(ts: Seq<Trigger>, placed: Seq<bool>, order: Seq<usize>, n: int)
    requires
        placed.len() == ts.len(),
        is_dependency_order(ts, order),
        0 <= n <= order.len(),
        forall|i: int|
            0 <= i < ts.len() && !placed[i] ==> exists|j: int|
                0 <= j < ts.len() && !placed[j] && depends_on(ts, i, j),
    ensures
        forall|p: int| 0 <= p < n ==> placed[#[trigger] order[p] as int],
    decreases n,
{
    if n > 0 {
        lemma_order_placed(ts, placed, order, n - 1);
        let i = order[n - 1] as int;
        if !placed[i] {
            let j = choose|j: int| 0 <= j < ts.len() && !placed[j] && depends_on(ts, i, j);
            assert(lists(order, j));
            let q = choose|q: int| 0 <= q < order.len() && order[q] as int == j;
            assert(depends_on(ts, order[n - 1] as int, order[q] as int));
            assert(q < n - 1);
            assert(placed[order[q] as int]);
        }
    }
}

/// What a scan for the next trigger to place found.
enum Scan {
    /// This unplaced trigger has all its dependencies placed.
    Ready(usize),
    /// Some trigger is unplaced, and each unplaced one waits for another.
    Stuck,
    /// Every trigger is placed.
    Done,
}

/// Finds the first unplaced trigger whose dependencies are all placed.
fn find_ready(placed: &Vec<bool>, d: &Vec<Vec<usize>>) -> (r: Scan)
    requires
        placed@.len() == d@.len(),
        forall|a: int, k: int|
            0 <= a < d@.len() && 0 <= k < d@[a]@.len() ==> #[trigger] d@[a]@[k] < d@.len(),
    ensures
        match r {
            Scan::Ready(i) => i < d@.len() && !placed@[i as int] && (forall|k: int|
                0 <= k < d@[i as int]@.len() ==> placed@[#[trigger] d@[i as int]@[k] as int]) && forall|a: int|
                0 <= a < i && !placed@[a] ==> exists|k: int|
                    0 <= k < d@[a]@.len() && !placed@[#[trigger] d@[a]@[k] as int],
            Scan::Stuck => (exists|a: int| 0 <= a < d@.len() && !placed@[a]) && forall|a: int|
                0 <= a < d@.len() && !placed@[a] ==> exists|k: int|
                    0 <= k < d@[a]@.len() && !placed@[#[trigger] d@[a]@[k] as int],
            Scan::Done => forall|a: int| 0 <= a < d@.len() ==> placed@[a],
        },
{
    let n = d.len();
    let mut i: usize = 0;
    let mut any_unplaced = false;
    while i < n
        invariant
            n == d@.len(),
            placed@.len() == n,
            forall|a: int, k: int|
                0 <= a < d@.len() && 0 <= k < d@[a]@.len() ==> #[trigger] d@[a]@[k] < d@.len(),
            i <= n,
            forall|a: int|
                0 <= a < i && !placed@[a] ==> exists|k: int|
                    0 <= k < d@[a]@.len() && !placed@[#[trigger] d@[a]@[k] as int],
            any_unplaced <==> exists|a: int| 0 <= a < i && !placed@[a],
        decreases n - i,
    {
        if !placed[i] {
            any_unplaced = true;
            let row = &d[i];
            let mut k: usize = 0;
            let mut all = true;
            while k < row.len() && all
                invariant
                    i < n,
                    *row == d@[i as int],
                    forall|b: int| 0 <= b < row@.len() ==> #[trigger] row@[b] < n,
                    placed@.len() == n,
                    k <= row@.len(),
                    all ==> forall|b: int| 0 <= b < k ==> placed@[#[trigger] row@[b] as int],
                    !all ==> k < row@.len() && !placed@[row@[k as int] as int],
                decreases row@.len() - k, if all { 1int } else { 0int },
            {
                if placed[row[k]] {
                    k = k + 1;
                } else {
                    all = false;
                }
            }
            if all {
                return Scan::Ready(i);
            }
            proof {
                assert(!placed@[d@[i as int]@[k as int] as int]);
            }
        }
        proof {
            assert forall|a: int| 0 <= a < i + 1 && !placed@[a] implies exists|k: int|
                0 <= k < d@[a]@.len() && !placed@[#[trigger] d@[a]@[k] as int] by {}
            if !placed@[i as int] {
                assert(exists|a: int| 0 <= a < i + 1 && !placed@[a]);
            } else {
                if exists|a: int| 0 <= a < i + 1 && !placed@[a] {
                    let a = choose|a: int| 0 <= a < i + 1 && !placed@[a];
                    assert(a < i);
                }
            }
        }
        i = i + 1;
    }
    if any_unplaced {
        Scan::Stuck
    } else {
        Scan::Done
    }
}

/// The index of each trigger's dependencies, or the first unknown name.
fn resolve_deps(ts: &Vec<Trigger>) -> (r: Result<Vec<Vec<usize>>, GraphError>)
    requires
        unique_trigger_names(ts@),
    ensures
        match r {
            Ok(d) => {
                &&& deps_known(ts@)
                &&& d@.len() == ts@.len()
                &&& forall|i: int|
                    0 <= i < ts@.len() ==> (#[trigger] d@[i])@.len() == ts@[i].deps@.len()
                &&& forall|i: int, k: int|
                    0 <= i < ts@.len() && 0 <= k < ts@[i].deps@.len() ==> #[trigger] d@[i]@[k] < ts@.len()
                        && ts@[d@[i]@[k] as int].name@ == ts@[i].deps@[k]@
            },
            Err(GraphError::UnknownDependency(name)) => {
                &&& !deps_known(ts@)
                &&& !has_trigger(ts@, name@)
                &&& exists|i: int, k: int|
                    0 <= i < ts@.len() && 0 <= k < ts@[i].deps@.len() && ts@[i].deps@[k]@ == name@
            },
            Err(GraphError::CyclicDependency) => false,
        },
{
    let mut d: Vec<Vec<usize>> = Vec::new();
    let mut i: usize = 0;
    while i < ts.len()
        invariant
            i <= ts@.len(),
            d@.len() == i,
            forall|a: int| 0 <= a < i ==> (#[trigger] d@[a])@.len() == ts@[a].deps@.len(),
            forall|a: int, k: int|
                0 <= a < i && 0 <= k < ts@[a].deps@.len() ==> #[trigger] d@[a]@[k] < ts@.len()
                    && ts@[d@[a]@[k] as int].name@ == ts@[a].deps@[k]@,
        decreases ts@.len() - i,
    {
        let deps = &ts[i].deps;
        let mut row: Vec<usize> = Vec::new();
        let mut k: usize = 0;
        while k < deps.len()
            invariant
                i < ts@.len(),
                *deps == ts@[i as int].deps,
                k <= deps@.len(),
                row@.len() == k,
                forall|b: int|
                    0 <= b < k ==> #[trigger] row@[b] < ts@.len() && ts@[row@[b] as int].name@
                        == deps@[b]@,
            decreases deps@.len() - k,
        {
            let mut j: usize = 0;
            let mut found = false;
            while j < ts.len() && !found
                invariant
                    i < ts@.len(),
                    *deps == ts@[i as int].deps,
                    k < deps@.len(),
                    j <= ts@.len(),
                    found ==> j < ts@.len() && ts@[j as int].name@ == deps@[k as int]@,
                    !found ==> forall|c: int| 0 <= c < j ==> ts@[c].name@ != deps@[k as int]@,
                decreases ts@.len() - j, if found { 0int } else { 1int },
            {
                if ts[j].name == deps[k] {
                    found = true;
                } else {
                    j = j + 1;
                }
            }
            if !found {
                proof {
                    assert(!deps_known(ts@)) by {
                        assert(ts@[i as int].deps@[k as int] == deps@[k as int]);
                    }
                }
                return Err(GraphError::UnknownDependency(deps[k].clone()));
            }
            let ghost r0 = row@;
            row.push(j);
            proof {
                assert forall|b: int| 0 <= b < k + 1 implies #[trigger] row@[b] < ts@.len() && ts@[row@[b] as int].name@
                        == deps@[b]@ by {
                    if b < k {
                        assert(row@[b] == r0[b]);
                    } else {
                        assert(b == k);
                        assert(row@[b] == j);
                        assert(j < ts@.len());
                        assert(ts@[j as int].name@ == deps@[k as int]@);
                    }
                }
            }
            k = k + 1;
        }
        let ghost d0 = d@;
        d.push(row);
        proof {
            assert forall|a: int, b: int|
                0 <= a < i + 1 && 0 <= b < ts@[a].deps@.len() implies #[trigger] d@[a]@[b] < ts@.len()
                    && ts@[d@[a]@[b] as int].name@ == ts@[a].deps@[b]@ by {
                if a < i {
                    assert(d@[a] == d0[a]);
                } else {
                    assert(d@[a] == row);
                    assert(ts@[a].deps@[b] == deps@[b]);
                }
            }
        }
        i = i + 1;
    }
    proof {
        assert forall|a: int, k: int|
            0 <= a < ts@.len() && 0 <= k < ts@[a].deps@.len() implies has_trigger(
            ts@,
            #[trigger] ts@[a].deps@[k]@,
        ) by {
            assert(ts@[d@[a]@[k] as int].name@ == ts@[a].deps@[k]@);
        }
    }
    Ok(d)
}

/// Trigger `i` is not in `prefix`, and every trigger it depends on is.
pub open spec fn ready_after(ts: Seq<Trigger>, prefix: Seq<usize>, i: int) -> bool {
    &&& !lists(prefix, i)
    &&& forall|j: int| 0 <= j < ts.len() && #[trigger] depends_on(ts, i, j) ==> lists(prefix, j)
}

/// Each trigger of `order` is, of the triggers ready after those before it,
/// the first in input order.
pub open spec fn first_ready_each_step(ts: Seq<Trigger>, order: Seq<usize>) -> bool {
    forall|p: int|
        0 <= p < order.len() ==> ready_after(ts, order.take(p), #[trigger] order[p] as int) && forall|i: int|
            0 <= i < order[p] ==> !ready_after(ts, order.take(p), i)
}

proof fn lemma_first_ready_step(ts: Seq<Trigger>, d: Seq<Vec<usize>>, placed: Seq<bool>, order: Seq<usize>, i: usize)
    requires
        unique_trigger_names(ts),
        resolved(ts, d),
        placement(ts, placed, order),
        first_ready_each_step(ts, order),
        i < ts.len(),
        !placed[i as int],
        forall|j: int| 0 <= j < ts.len() && depends_on(ts, i as int, j) ==> placed[j],
        forall|a: int|
            0 <= a < i && !placed[a] ==> exists|k: int|
                0 <= k < d[a]@.len() && !placed[#[trigger] d[a]@[k] as int],
    ensures
        first_ready_each_step(ts, order.push(i)),
{
    reveal(placement);
    reveal(resolved);
    let o1 = order.push(i);
    assert(o1.take(order.len() as int) =~= order);
    assert forall|p: int| 0 <= p < o1.len() implies ready_after(ts, o1.take(p), #[trigger] o1[p] as int) && forall|a: int|
        0 <= a < o1[p] ==> !ready_after(ts, o1.take(p), a) by {
        if p < order.len() {
            assert(o1.take(p) =~= order.take(p));
            assert(o1[p] == order[p]);
        } else {
            assert(o1[p] == i);
            assert forall|j: int| 0 <= j < ts.len() && #[trigger] depends_on(ts, i as int, j) implies lists(order, j) by {
                assert(placed[j]);
            }
            assert forall|a: int| 0 <= a < i implies !ready_after(ts, order, a) by {
                if !placed[a] {
                    let k = choose|k: int| 0 <= k < d[a]@.len() && !placed[#[trigger] d[a]@[k] as int];
                    let j = d[a]@[k] as int;
                    assert(ts[j].name@ == ts[a].deps@[k]@);
                    assert(depends_on(ts, a, j));
                    assert(!lists(order, j));
                } else {
                    assert(lists(order, a));
                }
            }
        }
    }
}

/// What holds while triggers are placed one by one: `placed` marks the
/// triggers listed in `order`, once each, and each listed trigger comes
/// after the triggers it depends on.
#[verifier::opaque]
spec fn placement(ts: Seq<Trigger>, placed: Seq<bool>, order: Seq<usize>) -> bool {
    &&& placed.len() == ts.len()
    &&& order.len() + count_unplaced(placed) == ts.len()
    &&& order.no_duplicates()
    &&& forall|p: int| 0 <= p < order.len() ==> order[p] < ts.len()
    &&& forall|i: int| 0 <= i < ts.len() ==> (placed[i] <==> #[trigger] lists(order, i))
    &&& forall|q: int, j: int|
        0 <= q < order.len() && 0 <= j < ts.len() && #[trigger] depends_on(ts, order[q] as int, j)
            ==> exists|p: int| 0 <= p < q && order[p] as int == j
}

proof fn lemma_place(ts: Seq<Trigger>, placed: Seq<bool>, order: Seq<usize>, i: usize)
    requires
        placement(ts, placed, order),
        i < ts.len(),
        !placed[i as int],
        forall|j: int| 0 <= j < ts.len() && depends_on(ts, i as int, j) ==> placed[j],
    ensures
        placement(ts, placed.update(i as int, true), order.push(i)),
{
    reveal(placement);
    let p1 = placed.update(i as int, true);
    let o1 = order.push(i);
    lemma_count_place(placed, i as int);
    assert(!lists(order, i as int));
    assert forall|a: int| 0 <= a < ts.len() implies (p1[a] <==> #[trigger] lists(o1, a)) by {
        if a == i {
            assert(o1[order.len() as int] as int == a);
        } else {
            if lists(order, a) {
                let p = choose|p: int| 0 <= p < order.len() && order[p] as int == a;
                assert(o1[p] as int == a);
            }
            if lists(o1, a) {
                let p = choose|p: int| 0 <= p < o1.len() && o1[p] as int == a;
                assert(p < order.len());
                assert(order[p] as int == a);
            }
        }
    }
    assert forall|q: int, j: int|
        0 <= q < o1.len() && 0 <= j < ts.len() && #[trigger] depends_on(ts, o1[q] as int, j)
            implies exists|p: int| 0 <= p < q && o1[p] as int == j by {
        if q < order.len() {
            assert(o1[q] == order[q]);
            let p = choose|p: int| 0 <= p < q && order[p] as int == j;
            assert(o1[p] as int == j);
        } else {
            assert(placed[j]);
            assert(lists(order, j));
            let p = choose|p: int| 0 <= p < order.len() && order[p] as int == j;
            assert(o1[p] as int == j);
        }
    }
    assert(o1.no_duplicates()) by {
        assert forall|a: int, b: int| 0 <= a < b < o1.len() implies o1[a] != o1[b] by {
            if b == order.len() {
                if o1[a] == o1[b] {
                    assert(order[a] as int == i as int);
                }
            }
        }
    }
}

proof fn lemma_all_placed(ts: Seq<Trigger>, placed: Seq<bool>, order: Seq<usize>)
    requires
        placement(ts, placed, order),
        forall|a: int| 0 <= a < ts.len() ==> placed[a],
    ensures
        is_dependency_order(ts, order),
{
    reveal(placement);
    lemma_count_all_placed(placed);
    assert forall|i: int| 0 <= i < ts.len() implies #[trigger] lists(order, i) by {
        assert(placed[i]);
    }
    assert forall|p: int, q: int|
        0 <= p < order.len() && 0 <= q < order.len() && depends_on(
            ts,
            order[q] as int,
            order[p] as int,
        ) implies p < q by {
        let j = order[p] as int;
        assert(depends_on(ts, order[q] as int, j));
        let p2 = choose|p2: int| 0 <= p2 < q && order[p2] as int == j;
        assert(order.no_duplicates());
        assert(order[p2] == order[p]);
    }
}

/// `d` holds, for each trigger, the indices of the triggers it depends on.
#[verifier::opaque]
spec fn resolved(ts: Seq<Trigger>, d: Seq<Vec<usize>>) -> bool {
    &&& d.len() == ts.len()
    &&& forall|i: int| 0 <= i < ts.len() ==> (#[trigger] d[i])@.len() == ts[i].deps@.len()
    &&& forall|i: int, k: int|
        0 <= i < ts.len() && 0 <= k < ts[i].deps@.len() ==> #[trigger] d[i]@[k] < ts.len()
            && ts[d[i]@[k] as int].name@ == ts[i].deps@[k]@
}

proof fn lemma_resolved_in_range(ts: Seq<Trigger>, d: Seq<Vec<usize>>)
    requires
        resolved(ts, d),
    ensures
        d.len() == ts.len(),
        forall|a: int, k: int| 0 <= a < d.len() && 0 <= k < d[a]@.len() ==> #[trigger] d[a]@[k] < d.len(),
{
    reveal(resolved);
}

proof fn lemma_stuck_waits(ts: Seq<Trigger>, d: Seq<Vec<usize>>, placed: Seq<bool>)
    requires
        resolved(ts, d),
        placed.len() == ts.len(),
        forall|a: int|
            0 <= a < d.len() && !placed[a] ==> exists|k: int|
                0 <= k < d[a]@.len() && !placed[#[trigger] d[a]@[k] as int],
    ensures
        forall|a: int|
            0 <= a < ts.len() && !placed[a] ==> exists|j: int|
                0 <= j < ts.len() && !placed[j] && depends_on(ts, a, j),
{
    reveal(resolved);
    let n = ts.len();
    assert forall|a: int| 0 <= a < n && !placed[a] implies exists|j: int|
        0 <= j < n && !placed[j] && depends_on(ts, a, j) by {
        let k = choose|k: int| 0 <= k < d[a]@.len() && !placed[#[trigger] d[a]@[k] as int];
        let j = d[a]@[k] as int;
        assert(ts[j].name@ == ts[a].deps@[k]@);
        assert(depends_on(ts, a, j));
    }
}

proof fn lemma_stuck(ts: Seq<Trigger>, d: Seq<Vec<usize>>, placed: Seq<bool>)
    requires
        resolved(ts, d),
        placed.len() == ts.len(),
        exists|a: int| 0 <= a < d.len() && !placed[a],
        forall|a: int|
            0 <= a < d.len() && !placed[a] ==> exists|k: int|
                0 <= k < d[a]@.len() && !placed[#[trigger] d[a]@[k] as int],
    ensures
        forall|o: Seq<usize>| !is_dependency_order(ts, o),
{
    lemma_stuck_waits(ts, d, placed);
    lemma_resolved_in_range(ts, d);
    let u = choose|a: int| 0 <= a < d.len() && !placed[a];
    assert forall|o: Seq<usize>| !is_dependency_order(ts, o) by {
        lemma_stuck_has_no_order(ts, placed, o, u);
    }
}

proof fn lemma_ready(ts: Seq<Trigger>, d: Seq<Vec<usize>>, placed: Seq<bool>, i: usize)
    requires
        unique_trigger_names(ts),
        resolved(ts, d),
        placed.len() == ts.len(),
        i < ts.len(),
        forall|k: int| 0 <= k < d[i as int]@.len() ==> placed[#[trigger] d[i as int]@[k] as int],
    ensures
        forall|j: int| 0 <= j < ts.len() && depends_on(ts, i as int, j) ==> placed[j],
{
    reveal(resolved);
    assert forall|j: int| 0 <= j < ts.len() && depends_on(ts, i as int, j) implies placed[j] by {
        let k = choose|k: int|
            0 <= k < ts[i as int].deps@.len() && ts[i as int].deps@[k]@ == ts[j].name@;
        let j2 = d[i as int]@[k] as int;
        assert(ts[j2].name@ == ts[j].name@);
    }
}

/// Orders `triggers` so that each comes after the triggers it depends on;
/// at each step, the first trigger in input order whose dependencies are
/// all placed comes next. The result lists indices into `triggers`. It fails on a dependency that
/// names no trigger, and on dependencies that no order can satisfy.
pub fn dependency_order(triggers: &Vec<Trigger>) -> (r: Result<Vec<usize>, GraphError>)
    requires
        unique_trigger_names(triggers@),
    ensures
        match r {
            Ok(order) => is_dependency_order(triggers@, order@) && first_ready_each_step(triggers@, order@),
            Err(GraphError::UnknownDependency(name)) => {
                &&& !has_trigger(triggers@, name@)
                &&& exists|i: int, k: int|
                    0 <= i < triggers@.len() && 0 <= k < triggers@[i].deps@.len()
                        && triggers@[i].deps@[k]@ == name@
            },
            Err(GraphError::CyclicDependency) => {
                &&& deps_known(triggers@)
                &&& forall|order: Seq<usize>| !is_dependency_order(triggers@, order)
            },
        },
        r is Ok <==> deps_known(triggers@) && exists|order: Seq<usize>|
            is_dependency_order(triggers@, order),
{
    let ghost ts = triggers@;
    let d = match resolve_deps(triggers) {
        Ok(d) => d,
        Err(e) => {
            return Err(e);
        },
    };
    proof {
        reveal(resolved);
        assert(resolved(ts, d@));
        lemma_resolved_in_range(ts, d@);
    }
    let n = triggers.len();
    let mut placed: Vec<bool> = Vec::new();
    while placed.len() < n
        invariant
            placed@.len() <= n,
            forall|i: int| 0 <= i < placed@.len() ==> !placed@[i],
            count_unplaced(placed@) == placed@.len(),
        decreases n - placed@.len(),
    {
        let ghost p0 = placed@;
        placed.push(false);
        proof {
            assert(placed@.drop_last() =~= p0);
        }
    }
    let mut order: Vec<usize> = Vec::new();
    proof {
        reveal(placement);
        assert forall|i: int| 0 <= i < n implies (placed@[i] <==> #[trigger] lists(order@, i)) by {}
    }
    loop
        invariant
            ts == triggers@,
            n == ts.len(),
            unique_trigger_names(ts),
            deps_known(ts),
            resolved(ts, d@),
            d@.len() == n,
            forall|a: int, k: int| 0 <= a < d@.len() && 0 <= k < d@[a]@.len() ==> #[trigger] d@[a]@[k] < d@.len(),
            placed@.len() == n,
            placement(ts, placed@, order@),
            first_ready_each_step(ts, order@),
        decreases count_unplaced(placed@),
    {
        let i = match find_ready(&placed, &d) {
            Scan::Ready(i) => i,
            Scan::Stuck => {
                proof {
                    lemma_stuck(ts, d@, placed@);
                }
                return Err(GraphError::CyclicDependency);
            },
            Scan::Done => {
                proof {
                    lemma_all_placed(ts, placed@, order@);
                }
                return Ok(order);
            },
        };
        proof {
            lemma_ready(ts, d@, placed@, i);
            lemma_first_ready_step(ts, d@, placed@, order@, i);
            lemma_place(ts, placed@, order@, i);
            lemma_count_place(placed@, i as int);
        }
        order.push(i);
        placed.set(i, true);
    }
}

/// Two triggers that depend on each other admit no dependency order, so
/// `dependency_order` fails on them with `CyclicDependency` (or, before
/// that, on a dependency that names no trigger).
pub proof fn lemma_mutual_dependency_rejected(ts: Seq<Trigger>, a: int, b: int)
    requires
        0 <= a < ts.len(),
        0 <= b < ts.len(),
        depends_on(ts, a, b),
        depends_on(ts, b, a),
    ensures
        forall|order: Seq<usize>| !is_dependency_order(ts, order),
{
    assert forall|order: Seq<usize>| !is_dependency_order(ts, order) by {
        if is_dependency_order(ts, order) {
            assert(lists(order, a) && lists(order, b));
            let pa = choose|p: int| 0 <= p < order.len() && order[p] as int == a;
            let pb = choose|p: int| 0 <= p < order.len() && order[p] as int == b;
            assert(depends_on(ts, order[pa] as int, order[pb] as int));
            assert(depends_on(ts, order[pb] as int, order[pa] as int));
        }
    }
}

} // verus!
