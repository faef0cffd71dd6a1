//! A star system and the distances recorded from it.

use vstd::prelude::*;

use crate::text::{str_eq, to_uppercase, uppercase};

verus! {

/// Why a distance could not be recorded.
#[derive(Debug, PartialEq, Eq, Structural)]
pub enum SystemError {
    /// A distance to that system is recorded already.
    DistanceAlreadySet,
}

impl SystemError {
    /// The text of the error.
    pub fn message(&self) -> (s: String)
        ensures
            s@ == "distance already set"@,
    {
        String::from_str("distance already set")
    }
}

/// The distances that a table of entries records, keyed by system name.
pub open spec fn table_map(t: Seq<(String, u64)>) -> Map<Seq<char>, u64>
    decreases t.len(),
{
    if t.len() == 0 {
        Map::empty()
    } else {
        table_map(t.drop_last()).insert(t.last().0@, t.last().1)
    }
}

/// No two entries of the table name the same system.
pub open spec fn keys_distinct(t: Seq<(String, u64)>) -> bool {
    forall|i: int, j: int| 0 <= i < j < t.len() ==> #[trigger] t[i].0@ != #[trigger] t[j].0@
}

proof fn lemma_table_has(t: Seq<(String, u64)>, i: int)
    requires
        keys_distinct(t),
        0 <= i < t.len(),
    ensures
        table_map(t).dom().contains(t[i].0@),
        table_map(t)[t[i].0@] == t[i].1,
    decreases t.len(),
{
    if i < t.len() - 1 {
        lemma_table_has(t.drop_last(), i);
        assert(t[i].0@ != t[t.len() - 1].0@);
    }
}

proof fn lemma_table_lacks(t: Seq<(String, u64)>, k: Seq<char>)
    requires
        forall|i: int| 0 <= i < t.len() ==> (#[trigger] t[i]).0@ != k,
    ensures
        !table_map(t).dom().contains(k),
    decreases t.len(),
{
    if t.len() > 0 {
        assert forall|i: int| 0 <= i < t.drop_last().len() implies (#[trigger] t.drop_last()[i]).0@
            != k by {
            assert(t.drop_last()[i] == t[i]);
        }
        lemma_table_lacks(t.drop_last(), k);
    }
}

/// A system as its name and the distances recorded from it, keyed by the
/// name of the other system.
pub type SystemView = (Seq<char>, Map<Seq<char>, u64>);

/// A named star system and the distances, in jumps, to the systems it has
/// been measured against.
#[derive(Debug)]
pub struct System {
    name: String,
    distance_table: Vec<(String, u64)>,
}

impl System {
    #[verifier::type_invariant]
    spec fn inv(self) -> bool {
        keys_distinct(self.distance_table@)
    }

    /// The name of the system.
    pub closed spec fn name_view(&self) -> Seq<char> {
        self.name@
    }

    /// The recorded distances, keyed by the name of the other system.
    pub closed spec fn distances(&self) -> Map<Seq<char>, u64> {
        table_map(self.distance_table@)
    }

    /// A system named by the uppercase form of `name`, with no distances.
    pub fn new(name: &str) -> (s: System)
        ensures
            s.name_view() == uppercase(name@),
            s.distances() == Map::<Seq<char>, u64>::empty(),
    {
        System { name: to_uppercase(name), distance_table: Vec::new() }
    }

    /// The name of the system.
    pub fn name(&self) -> (n: &String)
        ensures
            n@ == self.name_view(),
    {
        &self.name
    }

    /// The distance recorded to the system named `other`, if any.
    pub fn distance_to_name(&self, other: &str) -> (d: Option<u64>)
        ensures
            d == self.distances().get(other@),
    {
        proof {
            use_type_invariant(self);
        }
        let n = self.distance_table.len();
        let mut i: usize = 0;
        while i < n
            invariant
                n == self.distance_table@.len(),
                i <= n,
                keys_distinct(self.distance_table@),
                forall|j: int| 0 <= j < i ==> (#[trigger] self.distance_table@[j]).0@ != other@,
            decreases n - i,
        {
            if str_eq(self.distance_table[i].0.as_str(), other) {
                proof {
                    lemma_table_has(self.distance_table@, i as int);
                }
                return Some(self.distance_table[i].1);
            }
            i = i + 1;
        }
        proof {
            lemma_table_lacks(self.distance_table@, other@);
        }
        None
    }

    /// The distance recorded to `other`, if any.
    pub fn get_distance_to(&self, other: &System) -> (d: Option<u64>)
        ensures
            d == self.distances().get(other.name_view()),
    {
        self.distance_to_name(other.name.as_str())
    }

    /// Records `distance` to the system named `other`, unless a distance to
    /// it is recorded already; then nothing changes and the error says so.
    pub fn set_distance_to_name(&mut self, other: &str, distance: u64) -> (r: Result<
        (),
        SystemError,
    >)
        ensures
            final(self).name_view() == old(self).name_view(),
            old(self).distances().contains_key(other@) ==> r == Err::<(), SystemError>(
                SystemError::DistanceAlreadySet,
            ) && final(self).distances() == old(self).distances(),
            !old(self).distances().contains_key(other@) ==> r is Ok && final(self).distances()
                == old(self).distances().insert(other@, distance),
            final(self).distances() == with_first_distance(old(self).distances(), other@, distance),
    {
        proof {
            use_type_invariant(&*self);
        }
        match self.distance_to_name(other) {
            None => {
                let ghost before = self.distance_table@;
                let key = String::from_str(other);
                let mut table: Vec<(String, u64)> = Vec::new();
                std::mem::swap(&mut table, &mut self.distance_table);
                table.push((key, distance));
                proof {
                    assert(table@.drop_last() =~= before);
                    assert forall|i: int, j: int|
                        0 <= i < j < table@.len() implies #[trigger] table@[i].0@
                        != #[trigger] table@[j].0@ by {
                        if j == before.len() {
                            if before[i].0@ == other@ {
                                lemma_table_has(before, i);
                            }
                        }
                    }
                }
                self.distance_table = table;
                Ok(())
            },
            Some(_) => Err(SystemError::DistanceAlreadySet),
        }
    }

    /// Records `distance` to `other`, unless a distance to it is recorded
    /// already; then nothing changes and the error says so.
    pub fn set_distance_to(&mut self, other: &System, distance: u64) -> (r: Result<
        (),
        SystemError,
    >)
        ensures
            final(self).name_view() == old(self).name_view(),
            old(self).distances().contains_key(other.name_view()) ==> r == Err::<(), SystemError>(
                SystemError::DistanceAlreadySet,
            ) && final(self).distances() == old(self).distances(),
            !old(self).distances().contains_key(other.name_view()) ==> r is Ok
                && final(self).distances() == old(self).distances().insert(
                other.name_view(),
                distance,
            ),
            final(self).distances() == with_first_distance(
                old(self).distances(),
                other.name_view(),
                distance,
            ),
    {
        self.set_distance_to_name(other.name.as_str(), distance)
    }
}

/// The distances after a distance `d` to `to` is offered: recorded unless
/// one to `to` is there already.
pub open spec fn with_first_distance(m: Map<Seq<char>, u64>, to: Seq<char>, d: u64) -> Map<Seq<char>, u64> {
    if m.contains_key(to) {
        m
    } else {
        m.insert(to, d)
    }
}

/// The distances after each of `calls` (a name and a distance) is offered in
/// turn to `m`.
pub open spec fn distances_after(m: Map<Seq<char>, u64>, calls: Seq<(Seq<char>, u64)>) -> Map<Seq<char>, u64>
    decreases calls.len(),
{
    if calls.len() == 0 {
        m
    } else {
        with_first_distance(distances_after(m, calls.drop_last()), calls.last().0, calls.last().1)
    }
}

/// The distance of the first of `calls` that names `to`, if any.
pub open spec fn first_distance(calls: Seq<(Seq<char>, u64)>, to: Seq<char>) -> Option<u64>
    decreases calls.len(),
{
    if calls.len() == 0 {
        None
    } else {
        match first_distance(calls.drop_last(), to) {
            Some(d) => Some(d),
            None => if calls.last().0 == to {
                Some(calls.last().1)
            } else {
                None
            },
        }
    }
}

/// The first recorded distance stays: after distances are offered in turn
/// to a system, the distance read for a name is the one the first offer for
/// that name gave (the only offer for it that succeeded), or none.
pub proof fn lemma_first_distance_stays(m: Map<Seq<char>, u64>, calls: Seq<(Seq<char>, u64)>, to: Seq<char>)
    ensures
        distances_after(m, calls).get(to) == if m.contains_key(to) {
            m.get(to)
        } else {
            first_distance(calls, to)
        },
    decreases calls.len(),
{
    if calls.len() > 0 {
        lemma_first_distance_stays(m, calls.drop_last(), to);
    }
}

/// A distance recorded to a system that had none can be read back, and from
/// then on another one to that system is refused.
pub proof fn lemma_distance_read_after_write(before: SystemView, to: Seq<char>, distance: u64)
    requires
        !before.1.contains_key(to),
    ensures
        before.1.insert(to, distance).get(to) == Some(distance),
        before.1.insert(to, distance).contains_key(to),
{
}

impl View for System {
    type V = SystemView;

    open spec fn view(&self) -> SystemView {
        (self.name_view(), self.distances())
    }
}

impl Clone for System {
    fn clone(&self) -> (c: Self)
        ensures
            c@ == self@,
    {
        proof {
            use_type_invariant(self);
        }
        let n = self.distance_table.len();
        let mut table: Vec<(String, u64)> = Vec::new();
        let mut i: usize = 0;
        while i < n
            invariant
                n == self.distance_table@.len(),
                i <= n,
                table@.len() == i,
                forall|j: int| 0 <= j < i ==> #[trigger] table@[j] == self.distance_table@[j],
            decreases n - i,
        {
            let entry = (self.distance_table[i].0.clone(), self.distance_table[i].1);
            table.push(entry);
            i = i + 1;
        }
        assert(table@ =~= self.distance_table@);
        System { name: self.name.clone(), distance_table: table }
    }
}

impl PartialEq for System {
    fn eq(&self, other: &Self) -> (r: bool) {
        str_eq(self.name.as_str(), other.name.as_str())
    }
}

impl vstd::std_specs::cmp::PartialEqSpecImpl for System {
    open spec fn obeys_eq_spec() -> bool {
        true
    }

    open spec fn eq_spec(&self, other: &System) -> bool {
        self.name_view() == other.name_view()
    }
}

impl Eq for System {

}

impl std::str::FromStr for System {
    type Err = SystemError;

    fn from_str(s: &str) -> (r: Result<Self, Self::Err>)
        ensures
            r matches Ok(system) && system.name_view() == uppercase(s@) && system.distances()
                == Map::<Seq<char>, u64>::empty(),
    {
        Ok(System::new(s))
    }
}

} // verus!
