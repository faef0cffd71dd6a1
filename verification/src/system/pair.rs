//! Two systems whose distance is measured together.

use vstd::prelude::*;

use crate::route::{has_name, names_distinct};
use crate::system::holder::{index_named, with_distance, SystemHolder};
use crate::system::system::{System, SystemError, SystemView};
use crate::text::concat;

verus! {

/// Two systems, by name, whose distance is to be measured.
#[derive(Debug)]
pub struct SystemPair {
    system1: String,
    system2: String,
}

impl View for SystemPair {
    type V = (Seq<char>, Seq<char>);

    closed spec fn view(&self) -> (Seq<char>, Seq<char>) {
        (self.system1@, self.system2@)
    }
}

/// The text of a pair: `( left <-> right )`.
pub open spec fn pair_text(p: (Seq<char>, Seq<char>)) -> Seq<char> {
    "( "@ + p.0 + " <-> "@ + p.1 + " )"@
}

/// Measuring a pair of two different systems, neither of which has a
/// distance to the other, records the same distance both ways and changes
/// no other system.
pub proof fn lemma_pair_distance_symmetric(h: Seq<SystemView>, a: Seq<char>, b: Seq<char>, distance: u64)
    requires
        names_distinct(h),
        has_name(h, a),
        has_name(h, b),
        a != b,
        !h[index_named(h, a)].1.contains_key(b),
        !h[index_named(h, b)].1.contains_key(a),
    ensures
        ({
            let i = index_named(h, a);
            let j = index_named(h, b);
            let h1 = with_distance(h, i, b, distance);
            let h2 = with_distance(h1, j, a, distance);
            &&& !h1[j].1.contains_key(a)
            &&& h2[i].1.get(b) == Some(distance)
            &&& h2[j].1.get(a) == Some(distance)
            &&& h2.len() == h.len()
            &&& forall|k: int| 0 <= k < h.len() && k != i && k != j ==> #[trigger] h2[k] == h[k]
        }),
{
    let i = index_named(h, a);
    let j = index_named(h, b);
    assert(h[i].0 == a && h[j].0 == b);
    assert(i != j);
}

/// What measuring `pair` at `distance` does to the systems `h`: the
/// distance from the left system to the right one is recorded unless one is
/// there, which stops it with an error; then the distance back, likewise.
pub open spec fn pair_distance_outcome(h: Seq<SystemView>, pair: (Seq<char>, Seq<char>), distance: u64) -> (
    Result<(), SystemError>,
    Seq<SystemView>,
) {
    let i = index_named(h, pair.0);
    let j = index_named(h, pair.1);
    let h1 = with_distance(h, i, pair.1, distance);
    if h[i].1.contains_key(pair.1) {
        (Err(SystemError::DistanceAlreadySet), h)
    } else if h1[j].1.contains_key(pair.0) {
        (Err(SystemError::DistanceAlreadySet), h1)
    } else {
        (Ok(()), with_distance(h1, j, pair.0, distance))
    }
}

/// The first distance recorded for a pair stays: once the left system has a
/// distance to the right one, measuring the pair again is refused and
/// changes nothing; in particular after a successful measurement.
pub proof fn lemma_pair_distance_kept(h: Seq<SystemView>, pair: (Seq<char>, Seq<char>), first: u64, again: u64)
    requires
        names_distinct(h),
        has_name(h, pair.0),
        has_name(h, pair.1),
    ensures
        h[index_named(h, pair.0)].1.contains_key(pair.1) ==> pair_distance_outcome(h, pair, again) == (
            Err::<(), SystemError>(SystemError::DistanceAlreadySet),
            h,
        ),
        ({
            let (r, h2) = pair_distance_outcome(h, pair, first);
            r is Ok ==> {
                &&& pair_distance_outcome(h2, pair, again) == (
                    Err::<(), SystemError>(SystemError::DistanceAlreadySet),
                    h2,
                )
                &&& h2[index_named(h2, pair.0)].1.get(pair.1) == Some(first)
            }
        }),
{
    let i = index_named(h, pair.0);
    let j = index_named(h, pair.1);
    let (r, h2) = pair_distance_outcome(h, pair, first);
    if r is Ok {
        let h1 = with_distance(h, i, pair.1, first);
        assert(h2.len() == h.len());
        assert(h2[i].0 == h[i].0 && h2[j].0 == h[j].0);
        assert forall|a: int, b: int| 0 <= a < b < h2.len() implies (#[trigger] h2[a]).0
            != (#[trigger] h2[b]).0 by {
            assert(h2[a].0 == h[a].0 && h2[b].0 == h[b].0);
        }
        assert(has_name(h2, pair.0));
        assert(index_named(h2, pair.0) == i) by {
            let k = index_named(h2, pair.0);
            if k != i {
                assert(h2[k].0 == h2[i].0);
            }
        }
        if i == j {
            assert(h1[j].1.contains_key(pair.0));
        }
        assert(h2[i] == h1[i]);
        assert(h2[i].1.contains_key(pair.1));
    }
}

impl SystemPair {
    /// The pair of `system1` and `system2`.
    pub fn from_ref(system1: &System, system2: &System) -> (p: SystemPair)
        ensures
            p@ == (system1@.0, system2@.0),
    {
        SystemPair { system1: system1.name().clone(), system2: system2.name().clone() }
    }

    fn _from_owned(system1: System, system2: System) -> (p: SystemPair)
        ensures
            p@ == (system1@.0, system2@.0),
    {
        SystemPair { system1: system1.name().clone(), system2: system2.name().clone() }
    }

    /// The pair of the two systems of `systems`.
    pub fn from_vec(systems: Vec<System>) -> (p: SystemPair)
        requires
            systems@.len() == 2,
        ensures
            p@ == (systems@[0]@.0, systems@[1]@.0),
    {
        SystemPair { system1: systems[0].name().clone(), system2: systems[1].name().clone() }
    }

    /// The name of the first system.
    pub fn left(&self) -> (n: String)
        ensures
            n@ == self@.0,
    {
        self.system1.clone()
    }

    /// The name of the second system.
    pub fn right(&self) -> (n: String)
        ensures
            n@ == self@.1,
    {
        self.system2.clone()
    }

    /// Records `distance` both ways between the two systems in `holder`:
    /// first from the left system to the right one, then back. The first
    /// direction that has a distance already stops it with an error; a
    /// direction recorded before that stays recorded.
    pub fn set_distance(&self, holder: &mut SystemHolder, distance: u64) -> (r: Result<
        (),
        SystemError,
    >)
        requires
            has_name(old(holder)@, self@.0),
            has_name(old(holder)@, self@.1),
        ensures
            ({
                let h0 = old(holder)@;
                let i = index_named(h0, self@.0);
                let j = index_named(h0, self@.1);
                let h1 = with_distance(h0, i, self@.1, distance);
                if h0[i].1.contains_key(self@.1) {
                    r == Err::<(), SystemError>(SystemError::DistanceAlreadySet) && final(holder)@
                        == h0
                } else if h1[j].1.contains_key(self@.0) {
                    r == Err::<(), SystemError>(SystemError::DistanceAlreadySet) && final(holder)@
                        == h1
                } else {
                    r is Ok && final(holder)@ == with_distance(h1, j, self@.0, distance)
                }
            }),
            (r, final(holder)@) == pair_distance_outcome(old(holder)@, self@, distance),
    {
        let ghost h0 = holder@;
        let first = holder.set_distance_from(self.system1.as_str(), self.system2.as_str(), distance);
        if let Err(e) = first {
            return Err(e);
        }
        let ghost h1 = holder@;
        proof {
            let i = index_named(h0, self@.0);
            let j = index_named(h0, self@.1);
            assert(h1[j].0 == h0[j].0);
            assert(has_name(h1, self@.1));
            assert(index_named(h1, self@.1) == j) by {
                let k = index_named(h1, self@.1);
                if k != j {
                    assert(h1[k].0 == h1[j].0);
                }
            }
        }
        let second = holder.set_distance_from(self.system2.as_str(), self.system1.as_str(), distance);
        match second {
            Ok(_) => Ok(()),
            Err(e) => Err(e),
        }
    }

    /// The text of the pair: `( left <-> right )`.
    pub fn to_string(&self) -> (s: String)
        ensures
            s@ == pair_text(self@),
    {
        let a = concat("( ", self.system1.as_str());
        let b = concat(a.as_str(), " <-> ");
        let c = concat(b.as_str(), self.system2.as_str());
        concat(c.as_str(), " )")
    }
}

} // verus!
