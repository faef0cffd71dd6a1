//! All systems of a search, each once by name, and the operations over them.

use vstd::prelude::*;

use factorial::Factorial;
use itertools::Itertools;

use crate::route::{has_name, names_distinct, system_views, Route};
use crate::system::pair::SystemPair;
use crate::system::search::{
    dist, is_shortest_record, known, path_length, route_length, route_names, search_fits,
    search_ready, SearchEvent, ShortestPathSearch,
};
use crate::system::shortest::CurrentShortest;
use crate::system::system::{System, SystemError, SystemView};
use crate::text::{str_eq, views};

verus! {

/// The position of the system named `name`; meaningful when one is there.
pub open spec fn index_named(h: Seq<SystemView>, name: Seq<char>) -> int {
    choose|i: int| 0 <= i < h.len() && (#[trigger] h[i]).0 == name
}

/// `h` with `s` in place of the system of the same name, or with `s` added
/// at the end when there is none.
pub open spec fn with_system(h: Seq<SystemView>, s: SystemView) -> Seq<SystemView> {
    if has_name(h, s.0) {
        h.update(index_named(h, s.0), s)
    } else {
        h.push(s)
    }
}

/// Putting a system in keeps every name once, and the system can then be
/// found by its name, as it was put in.
pub proof fn lemma_register_then_get(h: Seq<SystemView>, s: SystemView)
    requires
        names_distinct(h),
    ensures
        names_distinct(with_system(h, s)),
        has_name(with_system(h, s), s.0),
        with_system(h, s)[index_named(with_system(h, s), s.0)] == s,
{
    let h2 = with_system(h, s);
    if has_name(h, s.0) {
        let i = index_named(h, s.0);
        assert forall|a: int, b: int| 0 <= a < b < h2.len() implies (#[trigger] h2[a]).0
            != (#[trigger] h2[b]).0 by {
            assert(h[a].0 != h[b].0);
        }
        assert(h2[i] == s);
    } else {
        assert forall|a: int, b: int| 0 <= a < b < h2.len() implies (#[trigger] h2[a]).0
            != (#[trigger] h2[b]).0 by {
            if b == h.len() {
                assert(h2[a] == h[a]);
                if h[a].0 == s.0 {
                    assert(has_name(h, s.0));
                }
            }
        }
        assert(h2[h.len() as int] == s);
    }
    let k = index_named(h2, s.0);
    assert(h2[k].0 == s.0);
    if has_name(h, s.0) {
        let i = index_named(h, s.0);
        if k != i {
            assert(h2[i].0 == h2[k].0);
        }
    } else {
        if k != h.len() {
            assert(h2[h.len() as int].0 == h2[k].0);
        }
    }
}

/// `h` after each of `systems` is put in with `with_system`, in order.
pub open spec fn with_systems(h: Seq<SystemView>, systems: Seq<SystemView>) -> Seq<SystemView>
    decreases systems.len(),
{
    if systems.len() == 0 {
        h
    } else {
        with_system(with_systems(h, systems.drop_last()), systems.last())
    }
}

/// Putting a system in keeps every other name and its system as it was, and
/// adds no name but that of the system put in.
pub proof fn lemma_register_keeps_others(h: Seq<SystemView>, s: SystemView, name: Seq<char>)
    requires
        names_distinct(h),
    ensures
        has_name(with_system(h, s), name) <==> (has_name(h, name) || name == s.0),
        has_name(h, name) && name != s.0 ==> with_system(h, s)[index_named(with_system(h, s), name)]
            == h[index_named(h, name)],
{
    lemma_register_then_get(h, s);
    let h2 = with_system(h, s);
    if has_name(h2, name) {
        let k = choose|k: int| 0 <= k < h2.len() && (#[trigger] h2[k]).0 == name;
        if has_name(h, s.0) {
            if k != index_named(h, s.0) {
                assert(h2[k] == h[k]);
            }
        } else if k < h.len() {
            assert(h2[k] == h[k]);
        }
    }
    if has_name(h, name) && name != s.0 {
        let i = index_named(h, name);
        assert(h2[i] == h[i]);
        let k = index_named(h2, name);
        if k != i {
            assert(h2[k].0 == h2[i].0);
        }
    }
}

/// After putting in each of `systems` in order, every name held before and
/// every name among `systems` is held, and no other; each name stays once; a
/// system whose name is not among `systems` is as it was; and, where
/// `systems` name each system once, each of them is held as it was put in.
pub proof fn lemma_register_all(h: Seq<SystemView>, systems: Seq<SystemView>)
    requires
        names_distinct(h),
    ensures
        names_distinct(with_systems(h, systems)),
        forall|name: Seq<char>|
            #[trigger] has_name(with_systems(h, systems), name) <==> (has_name(h, name) || has_name(
                systems,
                name,
            )),
        forall|name: Seq<char>|
            has_name(h, name) && !has_name(systems, name) ==> #[trigger] with_systems(h, systems)[index_named(
                with_systems(h, systems),
                name,
            )] == h[index_named(h, name)],
        names_distinct(systems) ==> forall|k: int|
            0 <= k < systems.len() ==> with_systems(h, systems)[index_named(
                with_systems(h, systems),
                (#[trigger] systems[k]).0,
            )] == systems[k],
    decreases systems.len(),
{
    if systems.len() > 0 {
        let init = systems.drop_last();
        let last = systems.last();
        lemma_register_all(h, init);
        let w0 = with_systems(h, init);
        let w = with_systems(h, systems);
        assert(w == with_system(w0, last));
        lemma_register_then_get(w0, last);
        assert forall|name: Seq<char>| has_name(systems, name) <==> (has_name(init, name) || name
            == last.0) by {
            if has_name(systems, name) {
                let k = choose|k: int| 0 <= k < systems.len() && (#[trigger] systems[k]).0 == name;
                if k < init.len() {
                    assert(init[k] == systems[k]);
                } else {
                    assert(systems[k] == last);
                }
            }
            if has_name(init, name) {
                let k = choose|k: int| 0 <= k < init.len() && (#[trigger] init[k]).0 == name;
                assert(init[k] == systems[k]);
            }
            if name == last.0 {
                assert(systems[systems.len() - 1] == last);
            }
        }
        assert forall|name: Seq<char>| #[trigger] has_name(w, name) <==> (has_name(h, name) || has_name(
            systems,
            name,
        )) by {
            lemma_register_keeps_others(w0, last, name);
        }
        assert forall|name: Seq<char>| has_name(h, name) && !has_name(systems, name) implies #[trigger] w[index_named(
            w,
            name,
        )] == h[index_named(h, name)] by {
            lemma_register_keeps_others(w0, last, name);
        }
        if names_distinct(systems) {
            assert(names_distinct(init));
            assert forall|k: int| 0 <= k < systems.len() implies w[index_named(
                w,
                (#[trigger] systems[k]).0,
            )] == systems[k] by {
                if k < init.len() {
                    assert(systems[k] == init[k]);
                    assert(systems[k].0 != systems[systems.len() - 1].0);
                    assert(has_name(init, init[k].0));
                    lemma_register_keeps_others(w0, last, init[k].0);
                }
            }
        }
    }
}

/// `h` with the distance from its system `i` to the system named `to` set to `d`.
pub open spec fn with_distance(h: Seq<SystemView>, i: int, to: Seq<char>, d: u64) -> Seq<SystemView> {
    h.update(i, (h[i].0, h[i].1.insert(to, d)))
}

/// The pairs `[i, j]` with `start <= i < j < n`, ordered by `i`, then by `j`.
pub open spec fn pairs_from(start: nat, n: nat) -> Seq<Seq<usize>>
    decreases n - start,
{
    if start >= n {
        Seq::empty()
    } else {
        Seq::new((n - start - 1) as nat, |k: int| seq![start as usize, (start + 1 + k) as usize])
            + pairs_from(start + 1, n)
    }
}

/// The 2-element combinations of the indices below `n`, in lexicographic order.
pub open spec fn index_pairs(n: nat) -> Seq<Seq<usize>> {
    pairs_from(0, n)
}

/// Each listed pair is two increasing positions below `n`.
pub proof fn lemma_pairs_from(start: nat, n: nat)
    requires
        n <= usize::MAX + 1,
    ensures
        forall|k: int|
            0 <= k < pairs_from(start, n).len() ==> {
                let p = #[trigger] pairs_from(start, n)[k];
                &&& p.len() == 2
                &&& start <= p[0] < p[1] < n
            },
    decreases n - start,
{
    if start < n {
        lemma_pairs_from(start + 1, n);
        let row = Seq::new(
            (n - start - 1) as nat,
            |k: int| seq![start as usize, (start + 1 + k) as usize],
        );
        assert forall|k: int| 0 <= k < pairs_from(start, n).len() implies {
            let p = #[trigger] pairs_from(start, n)[k];
            &&& p.len() == 2
            &&& start <= p[0] < p[1] < n
        } by {
            if k >= row.len() {
                assert(pairs_from(start, n)[k] == pairs_from(start + 1, n)[k - row.len()]);
            }
        }
    }
}

/// There are `k * (k - 1) / 2` pairs of `k` positions.
pub proof fn lemma_pairs_from_len(start: nat, n: nat)
    ensures
        pairs_from(start, n).len() == if start < n {
            ((n - start) * (n - start - 1) / 2) as nat
        } else {
            0
        },
    decreases n - start,
{
    if start < n {
        lemma_pairs_from_len(start + 1, n);
        let row = Seq::new(
            (n - start - 1) as nat,
            |k: int| seq![start as usize, (start + 1 + k) as usize],
        );
        assert(pairs_from(start, n) == row + pairs_from(start + 1, n));
        let k = (n - start) as int;
        assert(row.len() == k - 1);
        assert(pairs_from(start + 1, n).len() == (k - 1) * (k - 2) / 2) by {
            if k == 1 {
                assert((k - 1) * (k - 2) / 2 == 0) by (nonlinear_arith)
                    requires
                        k == 1,
                ;
            }
        }
        assert((k - 1) + (k - 1) * (k - 2) / 2 == k * (k - 1) / 2) by (nonlinear_arith)
            requires
                k >= 1,
        ;
    }
}

/// The pair `[i, j]`.
pub open spec fn index_pair(i: usize, j: usize) -> Seq<usize> {
    seq![i, j]
}

/// Every pair `[i, j]` with `start <= i < j < n` is listed, and none twice.
pub proof fn lemma_pairs_from_complete(start: nat, n: nat)
    requires
        n <= usize::MAX + 1,
    ensures
        pairs_from(start, n).no_duplicates(),
        forall|i: usize, j: usize|
            start <= i < j < n ==> #[trigger] pairs_from(start, n).contains(index_pair(i, j)),
    decreases n - start,
{
    lemma_pairs_from(start, n);
    if start < n {
        lemma_pairs_from_complete(start + 1, n);
        lemma_pairs_from(start + 1, n);
        let row = Seq::new(
            (n - start - 1) as nat,
            |k: int| seq![start as usize, (start + 1 + k) as usize],
        );
        let tail = pairs_from(start + 1, n);
        let all = pairs_from(start, n);
        assert(all == row + tail);
        assert forall|i: usize, j: usize| start <= i < j < n implies #[trigger] all.contains(index_pair(i, j)) by {
            if i == start {
                let k = j - start - 1;
                assert(row[k] =~= index_pair(i, j));
                assert(all[k] == row[k]);
            } else {
                assert(tail.contains(index_pair(i, j)));
                let k = tail.index_of(index_pair(i, j));
                assert(all[row.len() + k] == tail[k]);
            }
        }
        assert forall|a: int, b: int| 0 <= a < b < all.len() implies all[a] != all[b] by {
            if b < row.len() {
                assert(all[a][1] != all[b][1]);
            } else if a < row.len() {
                assert(all[b] == tail[b - row.len()]);
                assert(all[a][0] != all[b][0]);
            } else {
                assert(all[a] == tail[a - row.len()]);
                assert(all[b] == tail[b - row.len()]);
            }
        }
    }
}

/// Calls `Itertools::combinations(0..n, 2)` and collects the combinations.
/// itertools documents that combinations come in the order of the input, as
/// in its example `(1..5).combinations(3)`; the contract states that order:
/// `[i, j]` for every `i < j < n`, ordered by `i`, then by `j`.
#[verifier::external_body]
fn index_combinations(n: usize) -> (r: Vec<Vec<usize>>)
    requires
        n * (n - 1) / 2 <= usize::MAX,
    ensures
        r@.len() == index_pairs(n as nat).len(),
        forall|k: int| 0 <= k < r@.len() ==> (#[trigger] r@[k])@ == index_pairs(n as nat)[k],
{
    (0..n).combinations(2).collect()
}

/// `n!`.
pub open spec fn factorial(n: nat) -> nat
    decreases n,
{
    if n == 0 {
        1
    } else {
        n * factorial((n - 1) as nat)
    }
}

/// Calls `Factorial::checked_factorial` of the factorial crate on `n`. The
/// crate documents that it returns `n!` when that does not overflow the type;
/// for `n < 129` its source answers from tables, returning `None` on overflow.
#[verifier::external_body]
fn checked_factorial(n: u128) -> (r: Option<u128>)
    requires
        n < 129,
    ensures
        factorial(n as nat) <= u128::MAX ==> r == Some(factorial(n as nat) as u128),
        factorial(n as nat) > u128::MAX ==> r is None,
{
    n.checked_factorial()
}

#[verifier::spinoff_prover]
proof fn lemma_factorial_35()
    ensures
        factorial(35) == 10333147966386144929666651337523200000000nat,
{
    assert(factorial(0) == 1);
    assert(factorial(1) == 1nat);
    assert(factorial(2) == 2nat);
    assert(factorial(3) == 6nat);
    assert(factorial(4) == 24nat);
    assert(factorial(5) == 120nat);
    assert(factorial(6) == 720nat);
    assert(factorial(7) == 5040nat);
    assert(factorial(8) == 40320nat);
    assert(factorial(9) == 362880nat);
    assert(factorial(10) == 3628800nat);
    assert(factorial(11) == 39916800nat);
    assert(factorial(12) == 479001600nat);
    assert(factorial(13) == 6227020800nat);
    assert(factorial(14) == 87178291200nat);
    assert(factorial(15) == 1307674368000nat);
    assert(factorial(16) == 20922789888000nat);
    assert(factorial(17) == 355687428096000nat);
    assert(factorial(18) == 6402373705728000nat);
    assert(factorial(19) == 121645100408832000nat);
    assert(factorial(20) == 2432902008176640000nat);
    assert(factorial(21) == 51090942171709440000nat);
    assert(factorial(22) == 1124000727777607680000nat);
    assert(factorial(23) == 25852016738884976640000nat);
    assert(factorial(24) == 620448401733239439360000nat);
    assert(factorial(25) == 15511210043330985984000000nat);
    assert(factorial(26) == 403291461126605635584000000nat);
    assert(factorial(27) == 10888869450418352160768000000nat);
    assert(factorial(28) == 304888344611713860501504000000nat);
    assert(factorial(29) == 8841761993739701954543616000000nat);
    assert(factorial(30) == 265252859812191058636308480000000nat);
    assert(factorial(31) == 8222838654177922817725562880000000nat);
    assert(factorial(32) == 263130836933693530167218012160000000nat);
    assert(factorial(33) == 8683317618811886495518194401280000000nat);
    assert(factorial(34) == 295232799039604140847618609643520000000nat);
    assert(factorial(35) == 10333147966386144929666651337523200000000nat);
}

proof fn lemma_factorial_grows(n: nat)
    requires
        n >= 35,
    ensures
        factorial(n) > u128::MAX,
    decreases n,
{
    if n == 35 {
        lemma_factorial_35();
    } else {
        lemma_factorial_grows((n - 1) as nat);
        assert(factorial(n) == n * factorial((n - 1) as nat));
        assert(n * factorial((n - 1) as nat) >= factorial((n - 1) as nat)) by (nonlinear_arith)
            requires
                n >= 1,
        ;
    }
}

fn find_name(inner: &Vec<System>, name: &str) -> (r: Option<usize>)
    requires
        names_distinct(system_views(inner@)),
    ensures
        r matches Some(i) ==> i < inner@.len() && system_views(inner@)[i as int].0 == name@
            && i == index_named(system_views(inner@), name@),
        r is None ==> !has_name(system_views(inner@), name@),
{
    let ghost h = system_views(inner@);
    let n = inner.len();
    let mut i: usize = 0;
    while i < n
        invariant
            n == inner@.len(),
            h == system_views(inner@),
            names_distinct(h),
            i <= n,
            forall|j: int| 0 <= j < i ==> (#[trigger] h[j]).0 != name@,
        decreases n - i,
    {
        if str_eq(inner[i].name().as_str(), name) {
            assert(h[i as int].0 == name@);
            let ghost k = index_named(h, name@);
            assert(k == i) by {
                if k != i {
                    assert(h[k].0 == name@);
                }
            }
            return Some(i);
        }
        i = i + 1;
    }
    None
}

/// The position of the end system, if one is given.
pub open spec fn end_index(h: Seq<SystemView>, end: Option<&System>) -> Option<int> {
    match end {
        Some(e) => Some(index_named(h, e@.0)),
        None => None,
    }
}

proof fn lemma_path_length_prefix(h: Seq<SystemView>, p: Seq<usize>, n: int)
    requires
        n == p.len(),
    ensures
        forall|k: int| 1 <= k <= n ==> #[trigger] path_length(h, p.subrange(0, k)) <= path_length(h, p),
    decreases p.len(),
{
    if p.len() > 0 {
        let init = p.drop_last();
        lemma_path_length_prefix(h, init, n - 1);
        assert forall|k: int| 1 <= k <= n implies #[trigger] path_length(h, p.subrange(0, k))
            <= path_length(h, p) by {
            if k < n {
                assert(init.subrange(0, k) =~= p.subrange(0, k));
                assert(path_length(h, init.subrange(0, k)) <= path_length(h, init));
            } else {
                assert(p.subrange(0, k) =~= p);
            }
        }
    }
}

/// The systems whose distances are known, each once by name.
#[derive(Debug)]
pub struct SystemHolder {
    inner: Vec<System>,
}

impl View for SystemHolder {
    type V = Seq<SystemView>;

    closed spec fn view(&self) -> Seq<SystemView> {
        system_views(self.inner@)
    }
}

impl Clone for SystemHolder {
    fn clone(&self) -> (c: Self)
        ensures
            c@ == self@,
    {
        proof {
            use_type_invariant(self);
        }
        let n = self.inner.len();
        let mut inner: Vec<System> = Vec::new();
        let mut i: usize = 0;
        while i < n
            invariant
                n == self.inner@.len(),
                i <= n,
                inner@.len() == i,
                forall|k: int| 0 <= k < i ==> (#[trigger] inner@[k])@ == self.inner@[k]@,
            decreases n - i,
        {
            inner.push(self.inner[i].clone());
            i = i + 1;
        }
        assert(system_views(inner@) =~= system_views(self.inner@));
        SystemHolder { inner }
    }
}

impl SystemHolder {
    #[verifier::type_invariant]
    spec fn inv(self) -> bool {
        names_distinct(system_views(self.inner@))
    }

    /// A holder without systems.
    pub fn new() -> (h: SystemHolder)
        ensures
            h@ == Seq::<SystemView>::empty(),
            names_distinct(h@),
    {
        let h = SystemHolder { inner: Vec::new() };
        assert(h@ =~= Seq::<SystemView>::empty());
        h
    }

    /// The number of systems.
    pub fn len(&self) -> (n: usize)
        ensures
            n == self@.len(),
    {
        self.inner.len()
    }

    /// The position of the system named `name`, if there is one.
    pub fn find(&self, name: &str) -> (r: Option<usize>)
        ensures
            r matches Some(i) ==> i < self@.len() && self@[i as int].0 == name@ && i == index_named(
                self@,
                name@,
            ),
            r is None ==> !has_name(self@, name@),
    {
        proof {
            use_type_invariant(self);
        }
        find_name(&self.inner, name)
    }

    /// The system named `name`.
    pub fn get(&self, name: &str) -> (s: &System)
        requires
            has_name(self@, name@),
        ensures
            s@ == self@[index_named(self@, name@)],
            s@.0 == name@,
    {
        let i = self.find(name).unwrap();
        &self.inner[i]
    }

    /// Every pair of distinct systems, in the order of the holder.
    pub fn all_inter_systems_iter(&self) -> (pairs: Vec<SystemPair>)
        requires
            self@.len() * (self@.len() - 1) / 2 <= usize::MAX,
        ensures
            pairs@.len() == index_pairs(self@.len()).len(),
            forall|k: int|
                0 <= k < pairs@.len() ==> (#[trigger] pairs@[k])@ == (
                    self@[index_pairs(self@.len())[k][0] as int].0,
                    self@[index_pairs(self@.len())[k][1] as int].0,
                ),
    {
        let n = self.inner.len();
        let combos = index_combinations(n);
        proof {
            lemma_pairs_from(0, n as nat);
        }
        let m = combos.len();
        let mut pairs: Vec<SystemPair> = Vec::new();
        let mut k: usize = 0;
        while k < m
            invariant
                m == combos@.len(),
                n == self.inner@.len(),
                self@ == system_views(self.inner@),
                m == index_pairs(n as nat).len(),
                forall|k: int| 0 <= k < m ==> (#[trigger] combos@[k])@ == index_pairs(n as nat)[k],
                forall|k: int|
                    0 <= k < index_pairs(n as nat).len() ==> {
                        let p = #[trigger] index_pairs(n as nat)[k];
                        &&& p.len() == 2
                        &&& 0 <= p[0] < p[1] < n
                    },
                k <= m,
                pairs@.len() == k,
                forall|j: int|
                    0 <= j < k ==> (#[trigger] pairs@[j])@ == (
                        self@[index_pairs(n as nat)[j][0] as int].0,
                        self@[index_pairs(n as nat)[j][1] as int].0,
                    ),
            decreases m - k,
        {
            let ghost p = index_pairs(n as nat)[k as int];
            assert(combos@[k as int]@ == p);
            let a = combos[k][0];
            let b = combos[k][1];
            pairs.push(SystemPair::from_ref(&self.inner[a], &self.inner[b]));
            k = k + 1;
        }
        pairs
    }

    /// Puts in a copy of `system`, in place of the system of the same name if
    /// there is one.
    pub fn register_system(&mut self, system: &System)
        ensures
            final(self)@ == with_system(old(self)@, system@),
            names_distinct(final(self)@),
    {
        proof {
            use_type_invariant(&*self);
        }
        let ghost before = self@;
        let mut inner: Vec<System> = Vec::new();
        std::mem::swap(&mut inner, &mut self.inner);
        assert(system_views(inner@) == before);
        match find_name(&inner, system.name().as_str()) {
            Some(i) => {
                inner.set(i, system.clone());
                assert(system_views(inner@) =~= before.update(i as int, system@));
                assert forall|a: int, b: int|
                    0 <= a < b < inner@.len() implies (#[trigger] system_views(inner@)[a]).0
                    != (#[trigger] system_views(inner@)[b]).0 by {
                    assert(before[a].0 != before[b].0);
                }
            },
            None => {
                inner.push(system.clone());
                assert(system_views(inner@) =~= before.push(system@));
            },
        }
        self.inner = inner;
    }

    /// Puts in every system of `route`, in the route's order.
    pub fn register_route(&mut self, route: &Route)
        ensures
            final(self)@ == with_systems(old(self)@, route@),
            names_distinct(final(self)@),
            forall|name: Seq<char>|
                #[trigger] has_name(final(self)@, name) <==> (has_name(old(self)@, name) || has_name(
                    route@,
                    name,
                )),
            forall|k: int|
                0 <= k < route@.len() ==> final(self)@[index_named(final(self)@, (#[trigger] route@[k]).0)]
                    == route@[k],
    {
        proof {
            use_type_invariant(&*self);
        }
        let systems = route.systems();
        let n = systems.len();
        let mut i: usize = 0;
        assert(route@.subrange(0, 0) =~= Seq::<SystemView>::empty());
        while i < n
            invariant
                n == systems@.len(),
                system_views(systems@) == route@,
                i <= n,
                self@ == with_systems(old(self)@, route@.subrange(0, i as int)),
            decreases n - i,
        {
            assert(route@.subrange(0, i + 1).drop_last() =~= route@.subrange(0, i as int));
            self.register_system(&systems[i]);
            i = i + 1;
        }
        assert(route@.subrange(0, n as int) =~= route@);
        proof {
            use_type_invariant(&*self);
            lemma_register_all(old(self)@, route@);
        }
    }

    /// Records `distance` from the system named `from` to the system named
    /// `to`, unless one is recorded already; then nothing changes and the
    /// error says so.
    pub fn set_distance_from(&mut self, from: &str, to: &str, distance: u64) -> (r: Result<
        (),
        SystemError,
    >)
        requires
            has_name(old(self)@, from@),
        ensures
            names_distinct(final(self)@),
            ({
                let h = old(self)@;
                let i = index_named(h, from@);
                if h[i].1.contains_key(to@) {
                    r == Err::<(), SystemError>(SystemError::DistanceAlreadySet) && final(self)@ == h
                } else {
                    r is Ok && final(self)@ == with_distance(h, i, to@, distance)
                }
            }),
    {
        proof {
            use_type_invariant(&*self);
        }
        let ghost before = self@;
        let mut inner: Vec<System> = Vec::new();
        std::mem::swap(&mut inner, &mut self.inner);
        let i = find_name(&inner, from).unwrap();
        let r = inner[i].set_distance_to_name(to, distance);
        proof {
            if r is Ok {
                assert(system_views(inner@) =~= with_distance(before, i as int, to@, distance));
            } else {
                assert(system_views(inner@) =~= before);
            }
            assert forall|a: int, b: int|
                0 <= a < b < inner@.len() implies (#[trigger] system_views(inner@)[a]).0
                != (#[trigger] system_views(inner@)[b]).0 by {
                assert(before[a].0 != before[b].0);
            }
        }
        self.inner = inner;
        r
    }


    /// The distance recorded from the system at `a` to the system at `b`.
    fn distance(&self, a: usize, b: usize) -> (d: u64)
        requires
            a < self@.len(),
            b < self@.len(),
            known(self@, a as int, b as int),
        ensures
            d == dist(self@, a as int, b as int),
    {
        self.inner[a].distance_to_name(self.inner[b].name().as_str()).unwrap()
    }

    /// The length of the route from the system at `start` through the stops
    /// `route`, then to the system at `end` if there is one.
    pub(crate) fn route_length_of(&self, start: usize, end: Option<usize>, route: &Vec<usize>) -> (l:
        Option<u64>)
        requires
            start < self@.len(),
            end matches Some(e) ==> e < self@.len(),
            route@.len() > 0,
            forall|i: int| 0 <= i < route@.len() ==> #[trigger] route@[i] < self@.len(),
            known(self@, start as int, route@[0] as int),
            end matches Some(e) ==> known(self@, route@.last() as int, e as int),
            forall|i: int|
                0 <= i < route@.len() - 1 ==> known(self@, #[trigger] route@[i] as int, route@[i + 1] as int),
        ensures
            ({
                let total = route_length(
                    self@,
                    start as int,
                    match end {
                        Some(e) => Some(e as int),
                        None => None,
                    },
                    route@,
                );
                if total <= u64::MAX {
                    l == Some(total as u64)
                } else {
                    l is None
                }
            }),
    {
        let ghost h = self@;
        let ghost p = route@;
        let ghost e = match end {
            Some(e) => Some(e as int),
            None => None::<int>,
        };
        let ghost total = route_length(h, start as int, e, p);
        let n = route.len();
        proof {
            lemma_path_length_prefix(h, p, n as int);
        }
        let mut length = self.distance(start, route[0]);
        match end {
            Some(x) => {
                match length.checked_add(self.distance(route[n - 1], x)) {
                    Some(v) => {
                        length = v;
                    },
                    None => {
                        return None;
                    },
                }
            },
            None => {},
        }
        let ghost base = length as nat;
        let mut i: usize = 1;
        assert(path_length(h, p.subrange(0, 1)) == 0);
        while i < n
            invariant
                h == self@,
                p == route@,
                n == p.len(),
                1 <= i <= n,
                total == base + path_length(h, p),
                total == route_length(
                    self@,
                    start as int,
                    match end {
                        Some(e) => Some(e as int),
                        None => None,
                    },
                    route@,
                ),
                forall|k: int| 0 <= k < p.len() ==> #[trigger] p[k] < h.len(),
                forall|k: int| 0 <= k < p.len() - 1 ==> known(h, #[trigger] p[k] as int, p[k + 1] as int),
                forall|k: int| 1 <= k <= n ==> #[trigger] path_length(h, p.subrange(0, k)) <= path_length(h, p),
                length == base + path_length(h, p.subrange(0, i as int)),
            decreases n - i,
        {
            let ghost q = p.subrange(0, i + 1);
            assert(q.drop_last() =~= p.subrange(0, i as int));
            assert(path_length(h, q) == path_length(h, p.subrange(0, i as int)) + dist(h, p[i - 1] as int, p[i as int] as int));
            let d = self.distance(route[i - 1], route[i]);
            assert(path_length(h, q) <= path_length(h, p));
            assert(length + d == base + path_length(h, q));
            match length.checked_add(d) {
                Some(v) => {
                    length = v;
                },
                None => {
                    assert(total > u64::MAX);
                    return None;
                },
            }
            i = i + 1;
        }
        assert(p.subrange(0, n as int) =~= p);
        Some(length)
    }

    /// The names of the systems at the positions `route`.
    pub(crate) fn names_of(&self, route: &Vec<usize>) -> (names: Vec<String>)
        requires
            forall|i: int| 0 <= i < route@.len() ==> #[trigger] route@[i] < self@.len(),
        ensures
            views(names@) == route_names(self@, route@),
    {
        let n = route.len();
        let mut names: Vec<String> = Vec::new();
        let mut i: usize = 0;
        while i < n
            invariant
                n == route@.len(),
                forall|k: int| 0 <= k < route@.len() ==> #[trigger] route@[k] < self@.len(),
                i <= n,
                names@.len() == i,
                forall|k: int| 0 <= k < i ==> (#[trigger] names@[k])@ == self@[route@[k] as int].0,
            decreases n - i,
        {
            names.push(self.inner[route[i]].name().clone());
            i = i + 1;
        }
        assert(views(names@) =~= route_names(self@, route@));
        names
    }

    /// A search for the shortest order of visiting every system of the holder
    /// once, starting from `start` and, if given, ending at `end`; it offers
    /// one order per step.
    pub fn shortest_path_search(&self, start: &System, end: Option<&System>) -> (s: ShortestPathSearch)
        requires
            has_name(self@, start@.0),
            end matches Some(e) ==> has_name(self@, e@.0),
            search_ready(self@, index_named(self@, start@.0), end_index(self@, end)),
        ensures
            s.wf(),
            s.holder_view() == self@,
            s.start_index() == index_named(self@, start@.0),
            s.end_index() == end_index(self@, end),
            s.processed() == 0,
            !s.finished(),
            !s.overflowed(),
    {
        proof {
            use_type_invariant(self);
        }
        let s = self.find(start.name().as_str()).unwrap();
        let e = match end {
            Some(x) => Some(self.find(x.name().as_str()).unwrap()),
            None => None,
        };
        ShortestPathSearch::new(self.clone(), s, e)
    }

    /// The shortest routes that start at `start`, visit every other system of
    /// the holder once, and end at `end` if it is given: their length, and
    /// the names of their stops, each route once.
    pub fn build_shortest_path(&self, start: &System, end: Option<&System>) -> (r: CurrentShortest)
        requires
            has_name(self@, start@.0),
            end matches Some(e) ==> has_name(self@, e@.0),
            search_fits(self@, index_named(self@, start@.0), end_index(self@, end)),
        ensures
            is_shortest_record(self@, index_named(self@, start@.0), end_index(self@, end), r.state()),
    {
        let mut search = self.shortest_path_search(start, end);
        loop
            invariant
                search.wf(),
                search.holder_view() == self@,
                search.start_index() == index_named(self@, start@.0),
                search.end_index() == end_index(self@, end),
                search.processed() <= search.order_count(),
                !search.overflowed(),
                search_fits(self@, index_named(self@, start@.0), end_index(self@, end)),
            ensures
                search.wf(),
                search.holder_view() == self@,
                search.start_index() == index_named(self@, start@.0),
                search.end_index() == end_index(self@, end),
                search.finished(),
            decreases search.order_count() - search.processed(),
        {
            if search.step(1) == SearchEvent::Finished {
                break;
            }
        }
        search.into_shortest()
    }

    /// The number of orderings of all systems but one, `(n - 1)!`, if it fits
    /// in a `u128`.
    pub fn permutation_size_hint(&self) -> (r: Option<u128>)
        requires
            self@.len() >= 1,
        ensures
            ({
                let f = factorial((self@.len() - 1) as nat);
                if f <= u128::MAX {
                    r == Some(f as u128)
                } else {
                    r is None
                }
            }),
    {
        let n = (self.inner.len() - 1) as u128;
        if n > 34 {
            proof {
                lemma_factorial_grows(n as nat);
            }
            None
        } else {
            checked_factorial(n)
        }
    }
}

} // verus!
