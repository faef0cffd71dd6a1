//! The record of the shortest routes offered so far.

use vstd::prelude::*;

use crate::text::views;

verus! {

/// A route as the names of the systems it visits, in order.
pub type RouteNames = Seq<Seq<char>>;

/// The record after a route of `length` is offered to `state` (the shortest
/// length seen so far and the routes of that length): a shorter route
/// replaces them all, a route of the same length joins them, a longer one is
/// dropped.
pub open spec fn registered(state: (u64, Seq<RouteNames>), route: RouteNames, length: u64) -> (
    u64,
    Seq<RouteNames>,
) {
    if length < state.0 {
        (length, seq![route])
    } else if length == state.0 {
        (state.0, state.1.push(route))
    } else {
        state
    }
}

/// The record after offering each of `entries` in turn to an empty record.
pub open spec fn register_all(entries: Seq<(RouteNames, u64)>) -> (u64, Seq<RouteNames>)
    decreases entries.len(),
{
    if entries.len() == 0 {
        (u64::MAX, Seq::empty())
    } else {
        registered(register_all(entries.drop_last()), entries.last().0, entries.last().1)
    }
}

/// The smallest length among `entries`, and `u64::MAX` if there are none.
pub open spec fn min_length(entries: Seq<(RouteNames, u64)>) -> u64
    decreases entries.len(),
{
    if entries.len() == 0 {
        u64::MAX
    } else {
        let m = min_length(entries.drop_last());
        if entries.last().1 < m {
            entries.last().1
        } else {
            m
        }
    }
}

/// The routes of `entries` whose length is `length`, in their order.
pub open spec fn routes_of_length(entries: Seq<(RouteNames, u64)>, length: u64) -> Seq<RouteNames>
    decreases entries.len(),
{
    if entries.len() == 0 {
        Seq::empty()
    } else {
        let r = routes_of_length(entries.drop_last(), length);
        if entries.last().1 == length {
            r.push(entries.last().0)
        } else {
            r
        }
    }
}

/// No entry is shorter than `min_length`, and unless there are no entries
/// one of them has that length.
pub proof fn lemma_min_length(entries: Seq<(RouteNames, u64)>)
    ensures
        forall|i: int| 0 <= i < entries.len() ==> min_length(entries) <= #[trigger] entries[i].1,
        entries.len() > 0 ==> exists|i: int|
            0 <= i < entries.len() && #[trigger] entries[i].1 == min_length(entries),
    decreases entries.len(),
{
    if entries.len() > 0 {
        let init = entries.drop_last();
        lemma_min_length(init);
        assert forall|i: int| 0 <= i < entries.len() implies min_length(entries)
            <= #[trigger] entries[i].1 by {
            if i < init.len() {
                assert(entries[i] == init[i]);
            }
        }
        if entries.last().1 < min_length(init) || init.len() == 0 {
            assert(entries[entries.len() - 1].1 == min_length(entries));
        } else {
            let i = choose|i: int| 0 <= i < init.len() && #[trigger] init[i].1 == min_length(init);
            assert(entries[i] == init[i]);
        }
    }
}

/// A route is among `routes_of_length(entries, length)` exactly when some
/// entry has that route and that length.
pub proof fn lemma_routes_of_length(entries: Seq<(RouteNames, u64)>, length: u64, route: RouteNames)
    ensures
        routes_of_length(entries, length).contains(route) <==> exists|i: int|
            0 <= i < entries.len() && #[trigger] entries[i] == (route, length),
    decreases entries.len(),
{
    if entries.len() > 0 {
        let init = entries.drop_last();
        let r = routes_of_length(init, length);
        lemma_routes_of_length(init, length, route);
        let last = entries.last();
        if exists|i: int| 0 <= i < init.len() && #[trigger] init[i] == (route, length) {
            let i = choose|i: int| 0 <= i < init.len() && #[trigger] init[i] == (route, length);
            assert(entries[i] == init[i]);
            if last.1 == length {
                assert(r.push(last.0)[r.index_of(route)] == route);
            }
        } else {
            assert forall|i: int| 0 <= i < init.len() implies #[trigger] entries[i] != (route, length) by {
                assert(entries[i] == init[i]);
            }
            if last == (route, length) {
                assert(r.push(last.0)[r.len() as int] == route);
            } else if last.1 == length {
                if r.push(last.0).contains(route) {
                    let k = r.push(last.0).index_of(route);
                    assert(k < r.len());
                    assert(r[k] == route);
                }
            }
        }
    }
}

/// When no two entries share a route, neither do the routes of one length.
pub proof fn lemma_routes_of_length_distinct(entries: Seq<(RouteNames, u64)>, length: u64)
    requires
        forall|i: int, j: int|
            0 <= i < j < entries.len() ==> #[trigger] entries[i].0 != #[trigger] entries[j].0,
    ensures
        routes_of_length(entries, length).no_duplicates(),
    decreases entries.len(),
{
    if entries.len() > 0 {
        let init = entries.drop_last();
        assert forall|i: int, j: int| 0 <= i < j < init.len() implies #[trigger] init[i].0
            != #[trigger] init[j].0 by {
            assert(init[i] == entries[i] && init[j] == entries[j]);
        }
        lemma_routes_of_length_distinct(init, length);
        if entries.last().1 == length {
            let last = entries.last().0;
            if routes_of_length(init, length).contains(last) {
                lemma_routes_of_length(init, length, last);
                let i = choose|i: int| 0 <= i < init.len() && #[trigger] init[i] == (last, length);
                assert(entries[i].0 == entries[entries.len() - 1].0);
            }
        }
    }
}

/// Offering routes one after another keeps exactly the shortest ones: the
/// record then holds the smallest length offered (`u64::MAX` when none was
/// smaller) and, in the order they were offered, every route of that length;
/// every longer route is dropped.
pub proof fn lemma_register_all(entries: Seq<(RouteNames, u64)>)
    ensures
        register_all(entries) == (min_length(entries), routes_of_length(entries, min_length(entries))),
        forall|i: int| 0 <= i < entries.len() ==> register_all(entries).0 <= #[trigger] entries[i].1,
        register_all(entries).0 == u64::MAX || exists|i: int|
            0 <= i < entries.len() && #[trigger] entries[i].1 == register_all(entries).0,
        forall|r: RouteNames|
            #[trigger] register_all(entries).1.contains(r) <==> exists|i: int|
                0 <= i < entries.len() && #[trigger] entries[i] == (r, register_all(entries).0),
    decreases entries.len(),
{
    lemma_register_all_summary(entries);
    lemma_min_length(entries);
    assert forall|r: RouteNames| #[trigger] register_all(entries).1.contains(r) <==> exists|i: int|
        0 <= i < entries.len() && #[trigger] entries[i] == (r, register_all(entries).0) by {
        lemma_routes_of_length(entries, min_length(entries), r);
    }
}

proof fn lemma_register_all_summary(entries: Seq<(RouteNames, u64)>)
    ensures
        register_all(entries) == (min_length(entries), routes_of_length(entries, min_length(entries))),
    decreases entries.len(),
{
    if entries.len() > 0 {
        let init = entries.drop_last();
        lemma_register_all_summary(init);
        let (route, length) = entries.last();
        let m = min_length(init);
        if length < m {
            lemma_min_length(init);
            lemma_routes_none_below(init, length);
            assert(routes_of_length(entries, length) =~= seq![route]);
        }
    }
}

proof fn lemma_routes_none_below(entries: Seq<(RouteNames, u64)>, length: u64)
    requires
        forall|i: int| 0 <= i < entries.len() ==> length < #[trigger] entries[i].1,
    ensures
        routes_of_length(entries, length) == Seq::<RouteNames>::empty(),
    decreases entries.len(),
{
    if entries.len() > 0 {
        let init = entries.drop_last();
        assert forall|i: int| 0 <= i < init.len() implies length < #[trigger] init[i].1 by {
            assert(init[i] == entries[i]);
        }
        lemma_routes_none_below(init, length);
    }
}

/// The routes of the smallest length registered so far.
#[derive(Debug)]
pub struct CurrentShortest {
    routes: Vec<Vec<String>>,
    length: u64,
}

/// The views of a list of routes.
pub open spec fn route_views(routes: Seq<Vec<String>>) -> Seq<RouteNames> {
    routes.map_values(|r: Vec<String>| views(r@))
}

fn copy_route(route: &Vec<String>) -> (c: Vec<String>)
    ensures
        views(c@) == views(route@),
{
    let n = route.len();
    let mut c: Vec<String> = Vec::new();
    let mut i: usize = 0;
    while i < n
        invariant
            n == route@.len(),
            i <= n,
            c@.len() == i,
            forall|j: int| 0 <= j < i ==> #[trigger] c@[j]@ == route@[j]@,
        decreases n - i,
    {
        c.push(route[i].clone());
        i = i + 1;
    }
    assert(views(c@) =~= views(route@));
    c
}

impl CurrentShortest {
    /// The smallest length registered so far.
    pub closed spec fn length(&self) -> u64 {
        self.length
    }

    /// The routes registered with that length, in order.
    pub closed spec fn routes(&self) -> Seq<RouteNames> {
        route_views(self.routes@)
    }

    /// The record as a pair of length and routes.
    pub open spec fn state(&self) -> (u64, Seq<RouteNames>) {
        (self.length(), self.routes())
    }

    /// An empty record: no routes, and length `u64::MAX`.
    pub fn new() -> (s: CurrentShortest)
        ensures
            s.state() == register_all(Seq::empty()),
            s.length() == u64::MAX,
            s.routes() == Seq::<RouteNames>::empty(),
    {
        let s = CurrentShortest { routes: Vec::new(), length: u64::MAX };
        assert(s.routes() =~= Seq::<RouteNames>::empty());
        s
    }

    /// The length and a copy of the routes.
    pub fn inner(&self) -> (r: (u64, Vec<Vec<String>>))
        ensures
            r.0 == self.length(),
            route_views(r.1@) == self.routes(),
    {
        let n = self.routes.len();
        let mut out: Vec<Vec<String>> = Vec::new();
        let mut i: usize = 0;
        while i < n
            invariant
                n == self.routes@.len(),
                i <= n,
                out@.len() == i,
                forall|j: int| 0 <= j < i ==> views(#[trigger] out@[j]@) == views(self.routes@[j]@),
            decreases n - i,
        {
            out.push(copy_route(&self.routes[i]));
            i = i + 1;
        }
        assert(route_views(out@) =~= route_views(self.routes@));
        (self.length, out)
    }

    /// Offers a route of `length`: a shorter one replaces the record, one of
    /// the same length joins it, a longer one is dropped.
    pub fn register(&mut self, route: &Vec<String>, length: u64)
        ensures
            final(self).state() == registered(old(self).state(), views(route@), length),
            forall|entries: Seq<(RouteNames, u64)>|
                old(self).state() == register_all(entries) ==> final(self).state() == register_all(
                    #[trigger] entries.push((views(route@), length)),
                ),
    {
        proof {
            assert forall|entries: Seq<(RouteNames, u64)>|
                old(self).state() == register_all(entries) implies registered(
                old(self).state(),
                views(route@),
                length,
            ) == register_all(#[trigger] entries.push((views(route@), length))) by {
                assert(entries.push((views(route@), length)).drop_last() =~= entries);
            }
        }
        if length < self.length {
            self.routes.clear();
            self.routes.push(copy_route(route));
            self.length = length;
            assert(self.routes() =~= seq![views(route@)]);
        } else if length == self.length {
            let ghost before = self.routes@;
            self.routes.push(copy_route(route));
            assert(self.routes() =~= route_views(before).push(views(route@)));
        }
    }
}

} // verus!
