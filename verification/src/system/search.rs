//! The search for the shortest order of visiting the systems.

use vstd::prelude::*;

use itertools::Itertools;
use itertools::Permutations;
use std::vec::IntoIter;

use crate::route::names_distinct;
use crate::system::holder::{
    factorial, index_pair, index_pairs, lemma_pairs_from, lemma_pairs_from_complete, SystemHolder,
};
use crate::system::shortest::{
    lemma_min_length, lemma_register_all, lemma_routes_of_length, lemma_routes_of_length_distinct,
    register_all, CurrentShortest, RouteNames,
};
use crate::system::system::SystemView;

verus! {

/// `p` lists each of the distinct `items` once, in some order.
pub open spec fn is_arrangement(p: Seq<usize>, items: Seq<usize>) -> bool {
    &&& p.len() == items.len()
    &&& p.no_duplicates()
    &&& forall|i: int| 0 <= i < p.len() ==> items.contains(#[trigger] p[i])
}

/// The iterator type of `Itertools::permutations` over a vector of positions.
#[verifier::external_type_specification]
#[verifier::external_body]
#[verifier::reject_recursive_types(I)]
pub struct ExPermutations<I: Iterator>(itertools::Permutations<I>);

/// The orders that a permutations iterator has still to yield, in order.
pub uninterp spec fn pending_orders(orders: Permutations<IntoIter<usize>>) -> Seq<Seq<usize>>;

/// Calls `Itertools::permutations` on `items` with `k` equal to their number.
/// itertools documents that the iterator yields all `k`-permutations of the
/// input, one per tuple of positions (its `size_hint` counts `n!` of them for
/// `k = n`); with distinct items the contract claims that the orders it has
/// to yield are every order of them, each once, `n!` in all. Their order is
/// left unsaid.
#[verifier::external_body]
fn arrangements(items: Vec<usize>) -> (r: Permutations<IntoIter<usize>>)
    requires
        items@.no_duplicates(),
    ensures
        lists_all_orders(pending_orders(r), items@),
        pending_orders(r).len() == factorial(items@.len()),
{
    let k = items.len();
    items.into_iter().permutations(k)
}

/// Calls `Iterator::next` on a permutations iterator: it yields the first of
/// the orders it has still to yield and drops it from them, and once none is
/// left it yields `None` and stays as it is (the type is a fused iterator).
#[verifier::external_body]
fn next_arrangement(orders: &mut Permutations<IntoIter<usize>>) -> (r: Option<Vec<usize>>)
    ensures
        pending_orders(*old(orders)).len() > 0 ==> (r matches Some(v) && v@ == pending_orders(
            *old(orders),
        )[0] && pending_orders(*final(orders)) == pending_orders(*old(orders)).drop_first()),
        pending_orders(*old(orders)).len() == 0 ==> r is None && pending_orders(*final(orders))
            == pending_orders(*old(orders)),
{
    orders.next()
}

/// Whether the system at `i` is one of the stops between start and end.
pub open spec fn keeps(i: int, start: int, end: Option<int>) -> bool {
    i != start && (end matches Some(e) ==> i != e)
}

/// The positions below `k`, in order, of the systems other than the start
/// and the end: the stops whose order is searched.
pub open spec fn middle(k: nat, start: int, end: Option<int>) -> Seq<usize>
    decreases k,
{
    if k == 0 {
        Seq::empty()
    } else {
        let m = middle((k - 1) as nat, start, end);
        if keeps(k - 1, start, end) {
            m.push((k - 1) as usize)
        } else {
            m
        }
    }
}

/// The stops are distinct positions below `k`, and they are exactly the
/// positions that are neither start nor end.
pub proof fn lemma_middle(k: nat, start: int, end: Option<int>)
    requires
        k <= usize::MAX + 1,
    ensures
        middle(k, start, end).no_duplicates(),
        forall|i: int| 0 <= i < middle(k, start, end).len() ==> #[trigger] middle(k, start, end)[i] < k,
        forall|x: usize| #[trigger] middle(k, start, end).contains(x) <==> (x < k && keeps(x as int, start, end)),
    decreases k,
{
    if k > 0 {
        lemma_middle((k - 1) as nat, start, end);
        let m = middle((k - 1) as nat, start, end);
        if keeps(k - 1, start, end) {
            let x0 = (k - 1) as usize;
            let mk = m.push(x0);
            assert(!m.contains(x0)) by {
                if m.contains(x0) {
                    let i = m.index_of(x0);
                    assert(m[i] < k - 1);
                }
            }
            assert forall|x: usize| #[trigger] mk.contains(x) implies (x < k && keeps(x as int, start, end)) by {
                let i = mk.index_of(x);
                if i < m.len() {
                    assert(m[i] == x);
                    assert(m.contains(x));
                }
            }
            assert forall|x: usize| x < k && keeps(x as int, start, end) implies #[trigger] mk.contains(x) by {
                if x == x0 {
                    assert(mk[m.len() as int] == x);
                } else {
                    assert(m.contains(x));
                    let i = m.index_of(x);
                    assert(mk[i] == x);
                }
            }
            assert forall|i: int, j: int| 0 <= i < j < mk.len() implies mk[i] != mk[j] by {
                if j == m.len() {
                    assert(m[i] < k - 1);
                } else {
                    assert(m[i] != m[j]);
                }
            }
        } else {
            assert forall|x: usize| #[trigger] m.contains(x) <==> (x < k && keeps(x as int, start, end)) by {
                if m.contains(x) {
                    let i = m.index_of(x);
                    assert(m[i] < k - 1);
                }
            }
        }
    }
}

/// The distance recorded from the system at `a` to the system at `b`.
pub open spec fn dist(h: Seq<SystemView>, a: int, b: int) -> u64 {
    h[a].1[h[b].0]
}

/// Whether a distance is recorded from the system at `a` to the system at `b`.
pub open spec fn known(h: Seq<SystemView>, a: int, b: int) -> bool {
    h[a].1.contains_key(h[b].0)
}

/// The sum of the distances between consecutive stops of `p`.
pub open spec fn path_length(h: Seq<SystemView>, p: Seq<usize>) -> nat
    decreases p.len(),
{
    if p.len() < 2 {
        0
    } else {
        path_length(h, p.drop_last()) + dist(h, p[p.len() - 2] as int, p.last() as int) as nat
    }
}

/// The length of the route from `start` through the stops `p`, then to
/// `end` if there is one.
pub open spec fn route_length(h: Seq<SystemView>, start: int, end: Option<int>, p: Seq<usize>) -> nat {
    dist(h, start, p[0] as int) as nat + (match end {
        Some(e) => dist(h, p.last() as int, e) as nat,
        None => 0nat,
    }) + path_length(h, p)
}

/// The names of the stops `p`.
pub open spec fn route_names(h: Seq<SystemView>, p: Seq<usize>) -> RouteNames {
    p.map_values(|i: usize| h[i as int].0)
}

/// Every distance that some order of the stops `m` needs is recorded.
pub open spec fn distances_known(h: Seq<SystemView>, start: int, end: Option<int>, m: Seq<usize>) -> bool {
    &&& forall|x: usize| #[trigger] m.contains(x) ==> known(h, start, x as int)
    &&& end matches Some(e) ==> forall|x: usize| #[trigger] m.contains(x) ==> known(h, x as int, e)
    &&& forall|x: usize, y: usize|
        #[trigger] m.contains(x) && #[trigger] m.contains(y) && x != y ==> known(h, x as int, y as int)
}

/// Distances recorded both ways for every pair that
/// `SystemHolder::all_inter_systems_iter` lists are all that a search needs,
/// whatever its start and end.
pub proof fn lemma_measured_pairs_suffice(h: Seq<SystemView>, start: int, end: Option<int>)
    requires
        h.len() <= usize::MAX,
        0 <= start < h.len(),
        end matches Some(e) ==> 0 <= e < h.len(),
        forall|k: int|
            0 <= k < index_pairs(h.len()).len() ==> {
                let p = #[trigger] index_pairs(h.len())[k];
                known(h, p[0] as int, p[1] as int) && known(h, p[1] as int, p[0] as int)
            },
    ensures
        distances_known(h, start, end, middle(h.len(), start, end)),
{
    let n = h.len();
    let m = middle(n, start, end);
    lemma_middle(n, start, end);
    lemma_pairs_from(0, n);
    lemma_pairs_from_complete(0, n);
    assert forall|a: usize, b: usize| a < n && b < n && a != b implies known(h, a as int, b as int) by {
        let (i, j) = if a < b {
            (a, b)
        } else {
            (b, a)
        };
        assert(index_pairs(n).contains(index_pair(i, j)));
        let k = index_pairs(n).index_of(index_pair(i, j));
        let p = index_pairs(n)[k];
        assert(p[0] == i && p[1] == j);
    }
    assert forall|x: usize| #[trigger] m.contains(x) implies known(h, start, x as int) by {
        assert((start as usize) < n && start as usize != x);
    }
    if let Some(e) = end {
        assert forall|x: usize| #[trigger] m.contains(x) implies known(h, x as int, e) by {
            assert((e as usize) < n && x != e as usize);
        }
    }
}

/// Every order of the stops `m` gives a length that fits in a `u64`.
pub open spec fn lengths_fit(h: Seq<SystemView>, start: int, end: Option<int>, m: Seq<usize>) -> bool {
    forall|p: Seq<usize>| is_arrangement(p, m) ==> #[trigger] route_length(h, start, end, p) <= u64::MAX
}

/// A search from `start` to `end` over the holder `h` can run: both are
/// systems of `h`, at least one other system remains to order, the orders
/// can be counted in a `usize`, and every distance it needs is recorded.
pub open spec fn search_ready(h: Seq<SystemView>, start: int, end: Option<int>) -> bool {
    let m = middle(h.len(), start, end);
    &&& 0 <= start < h.len()
    &&& end matches Some(e) ==> 0 <= e < h.len()
    &&& m.len() > 0
    &&& factorial(m.len()) <= usize::MAX
    &&& distances_known(h, start, end, m)
}

/// A search can run, and no order's length overflows a `u64`.
pub open spec fn search_fits(h: Seq<SystemView>, start: int, end: Option<int>) -> bool {
    &&& search_ready(h, start, end)
    &&& lengths_fit(h, start, end, middle(h.len(), start, end))
}

/// `state` holds the shortest length over all orders of the stops, and, once
/// each, the names of exactly the orders of that length.
pub open spec fn is_shortest_record(
    h: Seq<SystemView>,
    start: int,
    end: Option<int>,
    state: (u64, Seq<RouteNames>),
) -> bool {
    let m = middle(h.len(), start, end);
    &&& forall|p: Seq<usize>| is_arrangement(p, m) ==> state.0 <= #[trigger] route_length(h, start, end, p)
    &&& exists|p: Seq<usize>| is_arrangement(p, m) && #[trigger] route_length(h, start, end, p) == state.0
    &&& forall|r: RouteNames|
        #[trigger] state.1.contains(r) <==> exists|p: Seq<usize>|
            is_arrangement(p, m) && route_length(h, start, end, p) == state.0 && #[trigger] route_names(
                h,
                p,
            ) == r
    &&& state.1.no_duplicates()
}

/// The stops of a search are exactly the positions of the holder other than
/// the start and the end, wherever the start and the end stand.
pub proof fn lemma_stops_exactly(n: nat, start: int, end: Option<int>)
    requires
        n <= usize::MAX + 1,
    ensures
        forall|x: usize|
            #[trigger] middle(n, start, end).contains(x) <==> (x < n && x as int != start && end
                != Some(x as int)),
{
    lemma_middle(n, start, end);
}

/// An order of distinct items holds every one of them.
pub proof fn lemma_arrangement_covers(p: Seq<usize>, m: Seq<usize>)
    requires
        is_arrangement(p, m),
        m.no_duplicates(),
    ensures
        forall|x: usize| #[trigger] m.contains(x) ==> p.contains(x),
{
    broadcast use vstd::seq_lib::seq_to_set_is_finite;

    p.unique_seq_to_set();
    m.unique_seq_to_set();
    assert(p.to_set().subset_of(m.to_set())) by {
        assert forall|x: usize| #[trigger] p.to_set().contains(x) implies m.to_set().contains(x) by {
            let i = p.index_of(x);
            assert(m.contains(p[i]));
        }
    }
    vstd::set_lib::lemma_subset_equality(p.to_set(), m.to_set());
    assert forall|x: usize| #[trigger] m.contains(x) implies p.contains(x) by {
        assert(m.to_set().contains(x));
        assert(p.to_set().contains(x));
    }
}

/// Every shortest route visits each system of the holder once, except the
/// start and the end, and visits nothing else: a route names system `i`
/// exactly when `i` is neither the start nor the end.
pub proof fn lemma_shortest_routes_visit_the_others(
    h: Seq<SystemView>,
    start: int,
    end: Option<int>,
    state: (u64, Seq<RouteNames>),
    r: RouteNames,
)
    requires
        names_distinct(h),
        h.len() <= usize::MAX,
        is_shortest_record(h, start, end, state),
        state.1.contains(r),
    ensures
        r.no_duplicates(),
        forall|i: int|
            0 <= i < h.len() ==> (#[trigger] r.contains(h[i].0) <==> (i != start && end != Some(i))),
{
    let m = middle(h.len(), start, end);
    lemma_middle(h.len(), start, end);
    let p = choose|p: Seq<usize>|
        is_arrangement(p, m) && route_length(h, start, end, p) == state.0 && #[trigger] route_names(
            h,
            p,
        ) == r;
    lemma_arrangement_covers(p, m);
    assert forall|k: int| 0 <= k < p.len() implies #[trigger] p[k] < h.len() by {
        assert(m.contains(p[k]));
    }
    assert forall|a: int, b: int| 0 <= a < b < r.len() implies r[a] != r[b] by {
        assert(r[a] == h[p[a] as int].0 && r[b] == h[p[b] as int].0);
        assert(p[a] != p[b]);
        if p[a] < p[b] {
            assert(h[p[a] as int].0 != h[p[b] as int].0);
        } else {
            assert(h[p[b] as int].0 != h[p[a] as int].0);
        }
    }
    assert forall|i: int| 0 <= i < h.len() implies (#[trigger] r.contains(h[i].0) <==> (i != start
        && end != Some(i))) by {
        if r.contains(h[i].0) {
            let k = r.index_of(h[i].0);
            assert(r[k] == h[p[k] as int].0);
            if p[k] as int != i {
                if (p[k] as int) < i {
                    assert(h[p[k] as int].0 != h[i].0);
                } else {
                    assert(h[i].0 != h[p[k] as int].0);
                }
            }
            assert(m.contains(p[k]));
        }
        if i != start && end != Some(i) {
            assert(m.contains(i as usize));
            assert(p.contains(i as usize));
            let k = p.index_of(i as usize);
            assert(r[k] == h[i].0);
        }
    }
}

/// A route's length adds up its legs: a route of one stop costs the leg
/// from the start plus the leg to the end (if any), and one more stop adds
/// the leg from the former last stop to it, each leg at its own recorded
/// distance.
pub proof fn lemma_route_length_legs(
    h: Seq<SystemView>,
    start: int,
    end: Option<int>,
    p: Seq<usize>,
    x: usize,
)
    ensures
        route_length(h, start, end, seq![x]) == dist(h, start, x as int) + match end {
            Some(e) => dist(h, x as int, e) as nat,
            None => 0nat,
        },
        path_length(h, seq![x]) == 0,
        p.len() >= 1 ==> path_length(h, p.push(x)) == path_length(h, p) + dist(
            h,
            p.last() as int,
            x as int,
        ),
        p.len() >= 1 ==> route_length(h, start, end, p.push(x)) == route_length(h, start, None, p)
            + dist(h, p.last() as int, x as int) + match end {
            Some(e) => dist(h, x as int, e) as nat,
            None => 0nat,
        },
{
    if p.len() >= 1 {
        let q = p.push(x);
        assert(q.drop_last() =~= p);
        assert(q[q.len() - 2] == p.last());
        assert(q[0] == p[0]);
    }
}

/// The entries offered for `candidates`: each order's names and length.
pub open spec fn candidate_entries(
    h: Seq<SystemView>,
    start: int,
    end: Option<int>,
    candidates: Seq<Seq<usize>>,
) -> Seq<(RouteNames, u64)> {
    candidates.map_values(|c: Seq<usize>| (route_names(h, c), route_length(h, start, end, c) as u64))
}

/// `candidates` lists every order of the stops `m` exactly once.
pub open spec fn lists_all_orders(candidates: Seq<Seq<usize>>, m: Seq<usize>) -> bool {
    &&& forall|k: int| 0 <= k < candidates.len() ==> is_arrangement(#[trigger] candidates[k], m)
    &&& forall|k1: int, k2: int|
        0 <= k1 < k2 < candidates.len() ==> #[trigger] candidates[k1] != #[trigger] candidates[k2]
    &&& forall|p: Seq<usize>| is_arrangement(p, m) ==> #[trigger] candidates.contains(p)
}

proof fn lemma_names_determine_route(h: Seq<SystemView>, p: Seq<usize>, q: Seq<usize>)
    requires
        names_distinct(h),
        forall|i: int| 0 <= i < p.len() ==> #[trigger] p[i] < h.len(),
        forall|i: int| 0 <= i < q.len() ==> #[trigger] q[i] < h.len(),
        route_names(h, p) == route_names(h, q),
    ensures
        p == q,
{
    assert(p.len() == route_names(h, p).len());
    assert forall|i: int| 0 <= i < p.len() implies p[i] == q[i] by {
        assert(route_names(h, p)[i] == route_names(h, q)[i]);
        assert(h[p[i] as int].0 == h[q[i] as int].0);
        if p[i] < q[i] {
            assert(h[p[i] as int].0 != h[q[i] as int].0);
        } else if q[i] < p[i] {
            assert(h[q[i] as int].0 != h[p[i] as int].0);
        }
    }
    assert(p =~= q);
}

/// Once every order of the stops has been offered, the record is the
/// shortest one.
proof fn lemma_all_offered(h: Seq<SystemView>, start: int, end: Option<int>, candidates: Seq<Seq<usize>>)
    requires
        names_distinct(h),
        search_fits(h, start, end),
        h.len() <= usize::MAX,
        lists_all_orders(candidates, middle(h.len(), start, end)),
    ensures
        is_shortest_record(
            h,
            start,
            end,
            register_all(candidate_entries(h, start, end, candidates)),
        ),
{
    let m = middle(h.len(), start, end);
    let entries = candidate_entries(h, start, end, candidates);
    lemma_middle(h.len(), start, end);
    lemma_register_all(entries);
    lemma_min_length(entries);
    let min = register_all(entries).0;
    assert(is_arrangement(m, m));
    assert(candidates.contains(m));
    assert(entries.len() > 0);
    // every candidate's length fits, so the entry's length is the route length
    assert forall|k: int| 0 <= k < entries.len() implies #[trigger] entries[k].1 == route_length(
        h,
        start,
        end,
        candidates[k],
    ) by {
        assert(is_arrangement(candidates[k], m));
    }
    assert forall|p: Seq<usize>| is_arrangement(p, m) implies min <= #[trigger] route_length(
        h,
        start,
        end,
        p,
    ) by {
        assert(candidates.contains(p));
        let k = candidates.index_of(p);
        assert(0 <= k < candidates.len() && candidates[k] == p);
        assert(entries[k] == (route_names(h, p), route_length(h, start, end, p) as u64));
        assert(entries[k].1 == route_length(h, start, end, p));
    }
    let i = choose|i: int| 0 <= i < entries.len() && #[trigger] entries[i].1 == min;
    assert(is_arrangement(candidates[i], m) && route_length(h, start, end, candidates[i]) == min);
    assert forall|r: RouteNames| #[trigger] register_all(entries).1.contains(r) <==> exists|p: Seq<usize>|
        is_arrangement(p, m) && route_length(h, start, end, p) == min && #[trigger] route_names(h, p)
            == r by {
        lemma_routes_of_length(entries, min, r);
        if register_all(entries).1.contains(r) {
            let k = choose|k: int| 0 <= k < entries.len() && #[trigger] entries[k] == (r, min);
            assert(is_arrangement(candidates[k], m));
            assert(route_names(h, candidates[k]) == r);
        }
        if exists|p: Seq<usize>|
            is_arrangement(p, m) && route_length(h, start, end, p) == min && #[trigger] route_names(
                h,
                p,
            ) == r {
            let p = choose|p: Seq<usize>|
                is_arrangement(p, m) && route_length(h, start, end, p) == min && #[trigger] route_names(
                    h,
                    p,
                ) == r;
            assert(candidates.contains(p));
            let k = candidates.index_of(p);
            assert(0 <= k < candidates.len() && candidates[k] == p);
            assert(entries[k] == (route_names(h, p), route_length(h, start, end, p) as u64));
            assert(entries[k] == (r, min));
        }
    }
    assert forall|i: int, j: int| 0 <= i < j < entries.len() implies #[trigger] entries[i].0
        != #[trigger] entries[j].0 by {
        assert(is_arrangement(candidates[i], m));
        assert(is_arrangement(candidates[j], m));
        assert forall|x: int| 0 <= x < candidates[i].len() implies #[trigger] candidates[i][x]
            < h.len() by {
            assert(m.contains(candidates[i][x]));
        }
        assert forall|x: int| 0 <= x < candidates[j].len() implies #[trigger] candidates[j][x]
            < h.len() by {
            assert(m.contains(candidates[j][x]));
        }
        if entries[i].0 == entries[j].0 {
            lemma_names_determine_route(h, candidates[i], candidates[j]);
        }
    }
    lemma_routes_of_length_distinct(entries, min);
}

/// What one step of a search did.
#[derive(Debug, Clone, Copy, PartialEq, Eq, Structural)]
pub enum SearchEvent {
    /// It offered the order at this position, a multiple of the feedback
    /// step: the moment to report progress.
    Progress(u128),
    /// It offered an order at a position that is no such multiple.
    Offered,
    /// The length of the order at this position does not fit in a `u64`;
    /// the search stops there.
    Overflow(u128),
    /// No order was left: every order has been offered, the moment for the
    /// last progress report.
    Finished,
}

/// A search for the shortest order of visiting every system but the start
/// and the end, that offers one order per step, so that a caller can report
/// progress between steps.
pub struct ShortestPathSearch {
    holder: SystemHolder,
    start: usize,
    end: Option<usize>,
    orders: Permutations<IntoIter<usize>>,
    all_orders: Ghost<Seq<Seq<usize>>>,
    next: usize,
    finished: bool,
    overflowed: bool,
    shortest: CurrentShortest,
}

impl ShortestPathSearch {
    /// The systems searched over.
    pub closed spec fn holder_view(&self) -> Seq<SystemView> {
        self.holder@
    }

    /// The position of the start system.
    pub closed spec fn start_index(&self) -> int {
        self.start as int
    }

    /// The position of the end system, if there is one.
    pub closed spec fn end_index(&self) -> Option<int> {
        match self.end {
            Some(e) => Some(e as int),
            None => None,
        }
    }

    /// How many orders have been offered.
    pub closed spec fn processed(&self) -> nat {
        self.next as nat
    }

    /// How many orders there are.
    pub closed spec fn order_count(&self) -> nat {
        self.all_orders@.len()
    }

    /// The order at position `i` of the search.
    pub closed spec fn order_at(&self, i: int) -> Seq<usize> {
        self.all_orders@[i]
    }

    /// The length of the order at position `i`.
    pub open spec fn length_at(&self, i: int) -> nat {
        route_length(self.holder_view(), self.start_index(), self.end_index(), self.order_at(i))
    }

    /// Whether a step has found no order left.
    pub closed spec fn finished(&self) -> bool {
        self.finished
    }

    /// Whether a step has found an order whose length overflows.
    pub closed spec fn overflowed(&self) -> bool {
        self.overflowed
    }

    /// The record of the orders offered so far.
    pub closed spec fn record(&self) -> (u64, Seq<RouteNames>) {
        self.shortest.state()
    }

    /// The search is set up and its record matches the orders offered so far.
    pub closed spec fn wf(&self) -> bool {
        let h = self.holder@;
        let all = self.all_orders@;
        let skipped: int = if self.overflowed {
            1
        } else {
            0
        };
        &&& names_distinct(h)
        &&& search_ready(h, self.start_index(), self.end_index())
        &&& h.len() <= usize::MAX
        &&& lists_all_orders(all, middle(h.len(), self.start_index(), self.end_index()))
        &&& all.len() == factorial(middle(h.len(), self.start_index(), self.end_index()).len())
        &&& self.next + skipped <= all.len()
        &&& pending_orders(self.orders) == all.subrange(self.next + skipped, all.len() as int)
        &&& self.finished ==> self.next == all.len() && !self.overflowed
        &&& self.overflowed ==> route_length(h, self.start_index(), self.end_index(), all[self.next as int]) > u64::MAX
        &&& forall|k: int| 0 <= k < self.next ==> #[trigger] route_length(h, self.start_index(), self.end_index(), all[k]) <= u64::MAX
        &&& self.shortest.state() == register_all(
            candidate_entries(h, self.start_index(), self.end_index(), all.subrange(0, self.next as int)),
        )
    }

    /// Starts a search over the systems of `holder` from the system at
    /// `start` to the one at `end`, if any.
    pub fn new(holder: SystemHolder, start: usize, end: Option<usize>) -> (s: ShortestPathSearch)
        requires
            names_distinct(holder@),
            search_ready(
                holder@,
                start as int,
                match end {
                    Some(e) => Some(e as int),
                    None => None,
                },
            ),
        ensures
            s.wf(),
            s.holder_view() == holder@,
            s.start_index() == start,
            s.end_index() == match end {
                Some(e) => Some(e as int),
                None => None,
            },
            s.processed() == 0,
            s.processed() <= s.order_count(),
            !s.finished(),
            !s.overflowed(),
    {
        let ghost e = match end {
            Some(e) => Some(e as int),
            None => None::<int>,
        };
        let n = holder.len();
        let mut stops: Vec<usize> = Vec::new();
        let mut i: usize = 0;
        while i < n
            invariant
                i <= n,
                stops@ == middle(i as nat, start as int, e),
                e == match end {
                    Some(e) => Some(e as int),
                    None => None::<int>,
                },
            decreases n - i,
        {
            let keep = match end {
                Some(x) => i != start && i != x,
                None => i != start,
            };
            if keep {
                stops.push(i);
            }
            i = i + 1;
        }
        proof {
            lemma_middle(n as nat, start as int, e);
        }
        let orders = arrangements(stops);
        let ghost all = pending_orders(orders);
        let s = ShortestPathSearch {
            holder,
            start,
            end,
            orders,
            all_orders: Ghost(all),
            next: 0,
            finished: false,
            overflowed: false,
            shortest: CurrentShortest::new(),
        };
        proof {
            assert(candidate_entries(s.holder@, start as int, e, all.subrange(0, 0)) =~= Seq::<
                (RouteNames, u64),
            >::empty());
            assert(all.subrange(0, all.len() as int) =~= all);
        }
        s
    }

    /// Whether a step has found no order left.
    pub fn is_finished(&self) -> (r: bool)
        ensures
            r == self.finished(),
    {
        self.finished
    }

    /// Offers the next order, if any is left, and says what it did: the
    /// position of the order when it is a multiple of `feedback_step`, the
    /// moment to report progress; the position of an order whose length
    /// overflows; or that no order was left.
    pub fn step(&mut self, feedback_step: usize) -> (event: SearchEvent)
        requires
            old(self).wf(),
            feedback_step > 0,
        ensures
            final(self).wf(),
            final(self).holder_view() == old(self).holder_view(),
            final(self).start_index() == old(self).start_index(),
            final(self).end_index() == old(self).end_index(),
            final(self).order_count() == old(self).order_count(),
            forall|i: int| #[trigger] final(self).order_at(i) == old(self).order_at(i),
            final(self).processed() <= final(self).order_count(),
            old(self).overflowed() ==> {
                &&& final(self).processed() == old(self).processed()
                &&& final(self).overflowed()
                &&& final(self).record() == old(self).record()
                &&& event == SearchEvent::Overflow(old(self).processed() as u128)
            },
            !old(self).overflowed() && old(self).processed() < old(self).order_count() ==> {
                if old(self).length_at(old(self).processed() as int) <= u64::MAX {
                    &&& final(self).processed() == old(self).processed() + 1
                    &&& !final(self).finished()
                    &&& !final(self).overflowed()
                    &&& event == if old(self).processed() % (feedback_step as nat) == 0 {
                        SearchEvent::Progress(old(self).processed() as u128)
                    } else {
                        SearchEvent::Offered
                    }
                } else {
                    &&& final(self).processed() == old(self).processed()
                    &&& final(self).overflowed()
                    &&& final(self).record() == old(self).record()
                    &&& event == SearchEvent::Overflow(old(self).processed() as u128)
                }
            },
            !old(self).overflowed() && old(self).processed() == old(self).order_count() ==> {
                &&& final(self).processed() == old(self).processed()
                &&& final(self).finished()
                &&& !final(self).overflowed()
                &&& final(self).record() == old(self).record()
            },
            (event == SearchEvent::Finished) == (!old(self).overflowed() && old(self).processed()
                == old(self).order_count()),
            event == SearchEvent::Finished ==> final(self).processed() == final(self).order_count(),
            lengths_fit(
                old(self).holder_view(),
                old(self).start_index(),
                old(self).end_index(),
                middle(old(self).holder_view().len(), old(self).start_index(), old(self).end_index()),
            ) && !old(self).overflowed() ==> !final(self).overflowed(),
    {
        let ghost h = self.holder@;
        let ghost e = self.end_index();
        let ghost all = self.all_orders@;
        let ghost m = middle(h.len(), self.start as int, e);
        let idx = self.next;
        if self.overflowed {
            return SearchEvent::Overflow(idx as u128);
        }
        let ghost pending = pending_orders(self.orders);
        let candidate = next_arrangement(&mut self.orders);
        match candidate {
            None => {
                self.finished = true;
                SearchEvent::Finished
            },
            Some(order) => {
                proof {
                    lemma_middle(h.len(), self.start as int, e);
                    assert(pending[0] == all[idx as int]);
                    assert(is_arrangement(all[idx as int], m));
                    assert(pending_orders(self.orders) =~= all.subrange(idx + 1, all.len() as int));
                }
                match self.holder.route_length_of(self.start, self.end, &order) {
                    None => {
                        self.overflowed = true;
                        proof {
                            assert(pending_orders(self.orders) =~= all.subrange(
                                idx + 1,
                                all.len() as int,
                            ));
                        }
                        SearchEvent::Overflow(idx as u128)
                    },
                    Some(length) => {
                        let names = self.holder.names_of(&order);
                        self.shortest.register(&names, length);
                        self.next = idx + 1;
                        proof {
                            let before = candidate_entries(h, self.start as int, e, all.subrange(0, idx as int));
                            let after = candidate_entries(h, self.start as int, e, all.subrange(0, idx + 1));
                            assert(after.drop_last() =~= before);
                            assert(after.last() == (route_names(h, all[idx as int]), length));
                        }
                        if idx % feedback_step == 0 {
                            SearchEvent::Progress(idx as u128)
                        } else {
                            SearchEvent::Offered
                        }
                    },
                }
            },
        }
    }

    /// The record of the orders offered so far; once the search has
    /// finished, the shortest one.
    pub fn into_shortest(self) -> (r: CurrentShortest)
        requires
            self.wf(),
        ensures
            r.state() == self.record(),
            self.finished() ==> is_shortest_record(
                self.holder_view(),
                self.start_index(),
                self.end_index(),
                r.state(),
            ),
    {
        proof {
            if self.finished {
                let all = self.all_orders@;
                let h = self.holder@;
                let m = middle(h.len(), self.start_index(), self.end_index());
                assert(all.subrange(0, self.next as int) =~= all);
                assert forall|p: Seq<usize>| is_arrangement(p, m) implies #[trigger] route_length(
                    h,
                    self.start_index(),
                    self.end_index(),
                    p,
                ) <= u64::MAX by {
                    assert(all.contains(p));
                    let k = all.index_of(p);
                    assert(route_length(h, self.start_index(), self.end_index(), all[k]) <= u64::MAX);
                }
                lemma_all_offered(h, self.start_index(), self.end_index(), all);
            }
        }
        self.shortest
    }
}

} // verus!
