//! Routes (sets of systems to visit) and route-search options.

use vstd::prelude::*;

use crate::config;
use crate::system::system::{System, SystemView};
use crate::text::{concat, split, split_on, str_eq, uppercase, views};
use crate::trace;

verus! {

/// Why a route description could not be read.
#[derive(Debug, PartialEq, Eq)]
pub enum RouteError {
    /// The given text names no route option.
    InvalidRouteOption(String),
}

/// The message of an unknown route option `given`.
pub open spec fn invalid_route_option_message(given: Seq<char>) -> Seq<char> {
    "given string '"@ + given + "' cannot parsed into 'RouteOption'"@
}

impl RouteError {
    /// The text of the error, as an error line.
    pub fn message(&self) -> (s: String)
        ensures
            self matches RouteError::InvalidRouteOption(given) ==> s@ == trace::base::labelled(
                trace::base::error_label(),
                160,
                invalid_route_option_message(given@),
            ),
    {
        match self {
            RouteError::InvalidRouteOption(given) => {
                let a = concat("given string '", given.as_str());
                let b = concat(a.as_str(), "' cannot parsed into 'RouteOption'");
                trace::string::error(b.as_str())
            },
        }
    }
}

/// Whether a system named `name` is among `systems`.
pub open spec fn has_name(systems: Seq<SystemView>, name: Seq<char>) -> bool {
    exists|i: int| 0 <= i < systems.len() && (#[trigger] systems[i]).0 == name
}

/// No two of `systems` share a name.
pub open spec fn names_distinct(systems: Seq<SystemView>) -> bool {
    forall|i: int, j: int| 0 <= i < j < systems.len() ==> (#[trigger] systems[i]).0 != (#[trigger] systems[j]).0
}

/// `systems` with every system whose name came earlier left out, as inserting
/// them one by one into a set keyed by name leaves them.
pub open spec fn first_by_name(systems: Seq<SystemView>) -> Seq<SystemView>
    decreases systems.len(),
{
    if systems.len() == 0 {
        systems
    } else {
        let kept = first_by_name(systems.drop_last());
        if has_name(kept, systems.last().0) {
            kept
        } else {
            kept.push(systems.last())
        }
    }
}

/// Keeping the first system of each name leaves every name once: the names
/// are distinct, and they are exactly the names of `systems`.
pub proof fn lemma_first_by_name(systems: Seq<SystemView>)
    ensures
        names_distinct(first_by_name(systems)),
        forall|name: Seq<char>| #[trigger] has_name(first_by_name(systems), name) <==> has_name(systems, name),
    decreases systems.len(),
{
    if systems.len() > 0 {
        let init = systems.drop_last();
        lemma_first_by_name(init);
        let kept = first_by_name(init);
        let last = systems.last();
        let f = first_by_name(systems);
        assert forall|name: Seq<char>| #[trigger] has_name(f, name) <==> has_name(systems, name) by {
            if has_name(f, name) {
                let i = choose|i: int| 0 <= i < f.len() && (#[trigger] f[i]).0 == name;
                if i < kept.len() {
                    assert(f[i] == kept[i]);
                    assert(has_name(kept, name));
                    let j = choose|j: int| 0 <= j < init.len() && (#[trigger] init[j]).0 == name;
                    assert(systems[j] == init[j]);
                } else {
                    assert(f[i] == last);
                    assert(systems[systems.len() - 1] == last);
                }
            }
            if has_name(systems, name) {
                let i = choose|i: int| 0 <= i < systems.len() && (#[trigger] systems[i]).0 == name;
                if i < init.len() {
                    assert(init[i] == systems[i]);
                    assert(has_name(init, name));
                    assert(has_name(kept, name));
                    let j = choose|j: int| 0 <= j < kept.len() && (#[trigger] kept[j]).0 == name;
                    assert(f[j] == kept[j]);
                } else if !has_name(kept, last.0) {
                    assert(f[kept.len() as int] == last);
                }
            }
        }
        if !has_name(kept, last.0) {
            let pushed = kept.push(last);
            assert forall|i: int, j: int| 0 <= i < j < pushed.len() implies (#[trigger] pushed[i]).0
                != (#[trigger] pushed[j]).0 by {
                if j == kept.len() {
                    assert(pushed[i] == kept[i]);
                    if kept[i].0 == last.0 {
                        assert(has_name(kept, last.0));
                    }
                } else {
                    assert(pushed[i] == kept[i] && pushed[j] == kept[j]);
                }
            }
        }
    }
}

/// The systems that a route description names: its pieces between
/// separators, each in uppercase, each once, with no distances.
pub open spec fn route_systems(description: Seq<char>) -> Seq<SystemView> {
    first_by_name(
        split_on(description, config::ROUTE_SPLIT_CHAR).map_values(
            |piece: Seq<char>| (uppercase(piece), Map::<Seq<char>, u64>::empty()),
        ),
    )
}

proof fn lemma_first_by_name_from(systems: Seq<SystemView>)
    ensures
        forall|i: int|
            0 <= i < first_by_name(systems).len() ==> systems.contains(#[trigger] first_by_name(systems)[i]),
    decreases systems.len(),
{
    if systems.len() > 0 {
        let init = systems.drop_last();
        lemma_first_by_name_from(init);
        let kept = first_by_name(init);
        let f = first_by_name(systems);
        assert forall|i: int| 0 <= i < f.len() implies systems.contains(#[trigger] f[i]) by {
            if i < kept.len() {
                assert(f[i] == kept[i]);
                let j = init.index_of(kept[i]);
                assert(systems[j] == init[j]);
            } else {
                assert(f[i] == systems.last());
                assert(systems[systems.len() - 1] == systems.last());
            }
        }
    }
}

/// A route holds one system for each name among the pieces of its
/// description between `,` separators, uppercased, each name once, and no
/// other; no system of a new route has distances.
pub proof fn lemma_route_systems_are_pieces(description: Seq<char>)
    ensures
        names_distinct(route_systems(description)),
        forall|name: Seq<char>|
            #[trigger] has_name(route_systems(description), name) <==> exists|i: int|
                0 <= i < split_on(description, ',').len() && uppercase(
                    #[trigger] split_on(description, ',')[i],
                ) == name,
        forall|i: int|
            0 <= i < route_systems(description).len() ==> (#[trigger] route_systems(description)[i]).1
                == Map::<Seq<char>, u64>::empty(),
{
    let pieces = split_on(description, ',');
    let mapped = pieces.map_values(
        |piece: Seq<char>| (uppercase(piece), Map::<Seq<char>, u64>::empty()),
    );
    assert(config::ROUTE_SPLIT_CHAR == ',');
    assert(route_systems(description) == first_by_name(mapped));
    lemma_first_by_name(mapped);
    lemma_first_by_name_from(mapped);
    assert forall|name: Seq<char>| #[trigger] has_name(route_systems(description), name) <==> exists|i: int|
        0 <= i < pieces.len() && uppercase(#[trigger] pieces[i]) == name by {
        if has_name(mapped, name) {
            let i = choose|i: int| 0 <= i < mapped.len() && (#[trigger] mapped[i]).0 == name;
            assert(uppercase(pieces[i]) == name);
        }
        if exists|i: int| 0 <= i < pieces.len() && uppercase(#[trigger] pieces[i]) == name {
            let i = choose|i: int| 0 <= i < pieces.len() && uppercase(#[trigger] pieces[i]) == name;
            assert(mapped[i].0 == name);
        }
    }
    assert forall|i: int| 0 <= i < route_systems(description).len() implies (
    #[trigger] route_systems(description)[i]).1 == Map::<Seq<char>, u64>::empty() by {
        let x = route_systems(description)[i];
        assert(mapped.contains(x));
        let j = mapped.index_of(x);
        assert(mapped[j].1 == Map::<Seq<char>, u64>::empty());
    }
}

/// The views of a list of systems.
pub open spec fn system_views(systems: Seq<System>) -> Seq<SystemView> {
    systems.map_values(|s: System| s@)
}

/// A set of systems to visit, each named once.
#[derive(Debug)]
pub struct Route {
    inner: Vec<System>,
}

impl View for Route {
    type V = Seq<SystemView>;

    closed spec fn view(&self) -> Seq<SystemView> {
        system_views(self.inner@)
    }
}

impl Route {
    #[verifier::type_invariant]
    spec fn inv(self) -> bool {
        names_distinct(system_views(self.inner@))
    }

    /// The route of the systems named in `str_route`, separated by
    /// `config::ROUTE_SPLIT_CHAR`.
    pub fn new(str_route: &str) -> (route: Route)
        ensures
            route@ == route_systems(str_route@),
    {
        let pieces = split(str_route, config::ROUTE_SPLIT_CHAR);
        let n = pieces.len();
        let mut systems: Vec<System> = Vec::new();
        let mut i: usize = 0;
        while i < n
            invariant
                n == pieces@.len(),
                i <= n,
                systems@.len() == i,
                forall|j: int|
                    0 <= j < i ==> (#[trigger] systems@[j])@ == (
                        uppercase(pieces@[j]@),
                        Map::<Seq<char>, u64>::empty(),
                    ),
            decreases n - i,
        {
            systems.push(System::new(pieces[i].as_str()));
            i = i + 1;
        }
        let ghost target = split_on(str_route@, config::ROUTE_SPLIT_CHAR).map_values(
            |piece: Seq<char>| (uppercase(piece), Map::<Seq<char>, u64>::empty()),
        );
        assert(system_views(systems@) =~= target) by {
            assert(views(pieces@) == split_on(str_route@, config::ROUTE_SPLIT_CHAR));
            assert forall|j: int| 0 <= j < n implies #[trigger] system_views(systems@)[j]
                == target[j] by {
                assert(views(pieces@)[j] == pieces@[j]@);
            }
        }
        Route::from_systems(systems)
    }

    /// The route of `systems`, each name kept at its first occurrence.
    pub fn from_systems(systems: Vec<System>) -> (route: Route)
        ensures
            route@ == first_by_name(system_views(systems@)),
    {
        let n = systems.len();
        let mut inner: Vec<System> = Vec::new();
        let mut i: usize = 0;
        assert(system_views(systems@).subrange(0, 0) =~= Seq::<SystemView>::empty());
        while i < n
            invariant
                n == systems@.len(),
                i <= n,
                system_views(inner@) == first_by_name(system_views(systems@).subrange(0, i as int)),
                names_distinct(system_views(inner@)),
            decreases n - i,
        {
            let ghost prefix = system_views(systems@).subrange(0, i + 1);
            assert(prefix.drop_last() =~= system_views(systems@).subrange(0, i as int));
            let mut found = false;
            let mut j: usize = 0;
            while j < inner.len()
                invariant
                    n == systems@.len(),
                    i < n,
                    j <= inner@.len(),
                    !found ==> forall|k: int|
                        0 <= k < j ==> (#[trigger] system_views(inner@)[k]).0 != systems@[i as int]@.0,
                    found ==> has_name(system_views(inner@), systems@[i as int]@.0),
                decreases inner@.len() - j,
            {
                if !found && str_eq(inner[j].name().as_str(), systems[i].name().as_str()) {
                    found = true;
                    assert(system_views(inner@)[j as int].0 == systems@[i as int]@.0);
                }
                j = j + 1;
            }
            if !found {
                let ghost before = system_views(inner@);
                inner.push(systems[i].clone());
                assert(system_views(inner@) =~= before.push(systems@[i as int]@));
            }
            i = i + 1;
        }
        assert(system_views(systems@).subrange(0, n as int) =~= system_views(systems@));
        Route { inner }
    }

    /// The systems of the route.
    pub fn systems(&self) -> (s: &Vec<System>)
        ensures
            system_views(s@) == self@,
            names_distinct(self@),
    {
        proof {
            use_type_invariant(self);
        }
        &self.inner
    }
}

impl std::str::FromStr for Route {
    type Err = RouteError;

    fn from_str(s: &str) -> (r: Result<Self, Self::Err>)
        ensures
            r matches Ok(route) && route@ == route_systems(s@),
    {
        Ok(Route::new(s))
    }
}

/// How routes between two systems are searched.
#[derive(Debug, Clone, Copy, PartialEq, Eq, Structural)]
pub enum RouteOption {
    /// The fewest jumps.
    Fastest,
    /// Through high-security space only.
    Highsec,
    /// Through low- and null-security space.
    LowNull,
}

/// The route option that a text names, if any.
pub open spec fn route_option_named(s: Seq<char>) -> Option<RouteOption> {
    if s == "fastest"@ {
        Some(RouteOption::Fastest)
    } else if s == "highsec"@ {
        Some(RouteOption::Highsec)
    } else if s == "low-null"@ {
        Some(RouteOption::LowNull)
    } else {
        None
    }
}

impl RouteOption {
    /// The route option named by `fastest`, `highsec` or `low-null`.
    pub fn new(str_route_option: &str) -> (r: Result<RouteOption, RouteError>)
        ensures
            route_option_named(str_route_option@) matches Some(o) ==> r == Ok::<
                RouteOption,
                RouteError,
            >(o),
            route_option_named(str_route_option@) is None ==> (r matches Err(
                RouteError::InvalidRouteOption(given),
            ) && given@ == str_route_option@),
    {
        if str_eq(str_route_option, "fastest") {
            Ok(RouteOption::Fastest)
        } else if str_eq(str_route_option, "highsec") {
            Ok(RouteOption::Highsec)
        } else if str_eq(str_route_option, "low-null") {
            Ok(RouteOption::LowNull)
        } else {
            Err(RouteError::InvalidRouteOption(String::from_str(str_route_option)))
        }
    }

    /// The route-search path segment of the option.
    pub open spec fn url_part(self) -> Seq<char> {
        match self {
            RouteOption::Fastest => "1:"@,
            RouteOption::Highsec => "2:"@,
            RouteOption::LowNull => "3:"@,
        }
    }

    /// The route-search path segment of the option: `1:`, `2:` or `3:`.
    pub fn as_url(&self) -> (s: &'static str)
        ensures
            s@ == self.url_part(),
    {
        match self {
            RouteOption::Fastest => "1:",
            RouteOption::Highsec => "2:",
            RouteOption::LowNull => "3:",
        }
    }

    /// The display name of the option.
    pub open spec fn label_text(self) -> Seq<char> {
        match self {
            RouteOption::Fastest => "Fastest Route"@,
            RouteOption::Highsec => "Highsec Route"@,
            RouteOption::LowNull => "Lowsec and Nullsec Route"@,
        }
    }

    /// The display name of the option.
    pub fn label(&self) -> (s: String)
        ensures
            s@ == self.label_text(),
    {
        match self {
            RouteOption::Fastest => String::from_str("Fastest Route"),
            RouteOption::Highsec => String::from_str("Highsec Route"),
            RouteOption::LowNull => String::from_str("Lowsec and Nullsec Route"),
        }
    }
}

impl Default for RouteOption {
    fn default() -> (o: Self)
        ensures
            o == RouteOption::Fastest,
    {
        RouteOption::Fastest
    }
}

} // verus!
