use route_optimizer::route::{Route, RouteError, RouteOption};
use route_optimizer::system::holder::SystemHolder;
use route_optimizer::system::pair::SystemPair;
use route_optimizer::system::search::SearchEvent;
use route_optimizer::system::shortest::CurrentShortest;
use route_optimizer::system::system::{System, SystemError};
use route_optimizer::trace::string;

fn names(v: &[System]) -> Vec<String> {
    v.iter().map(|s| s.name().clone()).collect()
}

#[test]
fn system_names_are_uppercase() {
    assert_eq!(System::new("jita").name(), "JITA");
    assert_eq!(System::new("Old Man Star").name(), "OLD MAN STAR");
    assert_eq!("amarr".parse::<System>().unwrap().name(), "AMARR");
}

#[test]
fn distance_is_set_once() {
    let mut jita = System::new("jita");
    let amarr = System::new("amarr");
    assert_eq!(jita.get_distance_to(&amarr), None);
    assert_eq!(jita.set_distance_to(&amarr, 9), Ok(()));
    assert_eq!(jita.get_distance_to(&amarr), Some(9));
    assert_eq!(jita.set_distance_to(&amarr, 4), Err(SystemError::DistanceAlreadySet));
    assert_eq!(jita.get_distance_to(&amarr), Some(9));
    assert_eq!(amarr.get_distance_to(&jita), None);
    assert_eq!(SystemError::DistanceAlreadySet.message(), "distance already set");
}

#[test]
fn systems_are_equal_by_name() {
    let mut a = System::new("jita");
    let b = System::new("JITA");
    a.set_distance_to(&System::new("x"), 1).unwrap();
    assert!(a == b);
    assert!(a != System::new("amarr"));
    let c = a.clone();
    assert_eq!(c.get_distance_to(&System::new("x")), Some(1));
}

#[test]
fn route_keeps_each_system_once() {
    let route = Route::new("jita,amarr,JITA,dodixie");
    assert_eq!(names(route.systems()), vec!["JITA", "AMARR", "DODIXIE"]);
    let parsed: Route = "a,a".parse().unwrap();
    assert_eq!(names(parsed.systems()), vec!["A"]);
    assert_eq!(names(Route::new("").systems()), vec![""]);
}

#[test]
fn route_options_parse_three_names() {
    assert_eq!(RouteOption::new("fastest"), Ok(RouteOption::Fastest));
    assert_eq!(RouteOption::new("highsec"), Ok(RouteOption::Highsec));
    assert_eq!(RouteOption::new("low-null"), Ok(RouteOption::LowNull));
    let err = RouteOption::new("Fastest").unwrap_err();
    assert_eq!(err, RouteError::InvalidRouteOption("Fastest".to_string()));
    assert_eq!(
        err.message(),
        string::error("given string 'Fastest' cannot parsed into 'RouteOption'")
    );
    assert_eq!(RouteOption::default(), RouteOption::Fastest);
}

#[test]
fn route_options_have_url_parts_and_labels() {
    assert_eq!(RouteOption::Fastest.as_url(), "1:");
    assert_eq!(RouteOption::Highsec.as_url(), "2:");
    assert_eq!(RouteOption::LowNull.as_url(), "3:");
    assert_eq!(RouteOption::Fastest.label(), "Fastest Route");
    assert_eq!(RouteOption::Highsec.label(), "Highsec Route");
    assert_eq!(RouteOption::LowNull.label(), "Lowsec and Nullsec Route");
}

#[test]
fn pair_names_and_text() {
    let p = SystemPair::from_vec(vec![System::new("a"), System::new("b")]);
    assert_eq!(p.left(), "A");
    assert_eq!(p.right(), "B");
    assert_eq!(p.to_string(), "( A <-> B )");
}

#[test]
fn holder_registers_and_replaces_by_name() {
    let mut h = SystemHolder::new();
    h.register_route(&Route::new("a,b"));
    assert_eq!(h.len(), 2);
    let mut a = System::new("a");
    a.set_distance_to(&System::new("b"), 3).unwrap();
    h.register_system(&a);
    assert_eq!(h.len(), 2);
    assert_eq!(h.find("A"), Some(0));
    assert_eq!(h.find("C"), None);
    assert_eq!(h.get("A").get_distance_to(&System::new("b")), Some(3));
    h.register_system(&System::new("c"));
    assert_eq!(h.find("C"), Some(2));
}

#[test]
fn pair_distance_is_symmetric() {
    let mut h = SystemHolder::new();
    h.register_route(&Route::new("a,b"));
    let p = SystemPair::from_ref(&System::new("a"), &System::new("b"));
    assert_eq!(p.set_distance(&mut h, 5), Ok(()));
    assert_eq!(h.get("A").get_distance_to(&System::new("b")), Some(5));
    assert_eq!(h.get("B").get_distance_to(&System::new("a")), Some(5));
    assert_eq!(p.set_distance(&mut h, 6), Err(SystemError::DistanceAlreadySet));
    assert_eq!(h.get("A").get_distance_to(&System::new("b")), Some(5));
}

#[test]
fn every_pair_once_in_order() {
    let mut h = SystemHolder::new();
    h.register_route(&Route::new("a,b,c,d"));
    let pairs: Vec<String> = h.all_inter_systems_iter().iter().map(|p| p.to_string()).collect();
    assert_eq!(
        pairs,
        vec![
            "( A <-> B )",
            "( A <-> C )",
            "( A <-> D )",
            "( B <-> C )",
            "( B <-> D )",
            "( C <-> D )"
        ]
    );
    let mut one = SystemHolder::new();
    one.register_system(&System::new("x"));
    assert!(one.all_inter_systems_iter().is_empty());
}

#[test]
fn permutation_size_hint_is_factorial_of_others() {
    let mut h = SystemHolder::new();
    h.register_system(&System::new("a"));
    assert_eq!(h.permutation_size_hint(), Some(1));
    h.register_route(&Route::new("b,c,d,e"));
    assert_eq!(h.permutation_size_hint(), Some(24));
    let mut big = SystemHolder::new();
    for i in 0..35 {
        big.register_system(&System::new(&format!("s{i}")));
    }
    assert_eq!(
        big.permutation_size_hint(),
        Some(295232799039604140847618609643520000000)
    );
    big.register_system(&System::new("one more"));
    assert_eq!(big.permutation_size_hint(), None);
}

fn measured(route: &str, distances: &[(&str, &str, u64)]) -> SystemHolder {
    let mut h = SystemHolder::new();
    h.register_route(&Route::new(route));
    for (a, b, d) in distances {
        SystemPair::from_ref(&System::new(a), &System::new(b)).set_distance(&mut h, *d).unwrap();
    }
    h
}

#[test]
fn shortest_path_with_end() {
    let h = measured(
        "a,b,c,d",
        &[("a", "b", 1), ("a", "c", 5), ("a", "d", 3), ("b", "c", 2), ("b", "d", 10), ("c", "d", 1)],
    );
    let r = h.build_shortest_path(&System::new("a"), Some(&System::new("d")));
    let (length, routes) = r.inner();
    assert_eq!(length, 4);
    assert_eq!(routes, vec![vec!["B".to_string(), "C".to_string()]]);
}

#[test]
fn shortest_path_keeps_ties() {
    let h = measured("a,b,c", &[("a", "b", 1), ("a", "c", 1), ("b", "c", 2)]);
    let r = h.build_shortest_path(&System::new("a"), None);
    let (length, mut routes) = r.inner();
    assert_eq!(length, 3);
    routes.sort();
    assert_eq!(routes, vec![vec!["B", "C"], vec!["C", "B"]]);
}

#[test]
fn shortest_path_back_to_start() {
    let h = measured("a,b,c", &[("a", "b", 1), ("a", "c", 4), ("b", "c", 2)]);
    let r = h.build_shortest_path(&System::new("a"), Some(&System::new("a")));
    let (length, mut routes) = r.inner();
    assert_eq!(length, 7);
    routes.sort();
    assert_eq!(routes, vec![vec!["B", "C"], vec!["C", "B"]]);
}

#[test]
fn search_reports_progress_every_step() {
    let h = measured(
        "a,b,c,d",
        &[("a", "b", 1), ("a", "c", 1), ("a", "d", 1), ("b", "c", 1), ("b", "d", 1), ("c", "d", 1)],
    );
    let mut search = h.shortest_path_search(&System::new("a"), None);
    let mut events = Vec::new();
    while !search.is_finished() {
        events.push(search.step(2));
    }
    assert_eq!(
        events,
        vec![
            SearchEvent::Progress(0),
            SearchEvent::Offered,
            SearchEvent::Progress(2),
            SearchEvent::Offered,
            SearchEvent::Progress(4),
            SearchEvent::Offered,
            SearchEvent::Finished
        ]
    );
    assert_eq!(search.step(2), SearchEvent::Finished);
    let (length, routes) = search.into_shortest().inner();
    assert_eq!(length, 3);
    assert_eq!(routes.len(), 6);
}

#[test]
fn current_shortest_keeps_the_shortest() {
    let mut c = CurrentShortest::new();
    assert_eq!(c.inner(), (u64::MAX, vec![]));
    let r1 = vec!["A".to_string()];
    let r2 = vec!["B".to_string()];
    let r3 = vec!["C".to_string()];
    c.register(&r1, 10);
    c.register(&r2, 10);
    assert_eq!(c.inner(), (10, vec![r1.clone(), r2.clone()]));
    c.register(&r3, 12);
    assert_eq!(c.inner(), (10, vec![r1.clone(), r2.clone()]));
    c.register(&r3, 4);
    assert_eq!(c.inner(), (4, vec![r3.clone()]));
    let mut m = CurrentShortest::new();
    m.register(&r1, u64::MAX);
    assert_eq!(m.inner(), (u64::MAX, vec![r1]));
}

#[test]
fn overflowing_order_stops_the_search() {
    let h = measured("a,b,c", &[("a", "b", u64::MAX), ("a", "c", 1), ("b", "c", 1)]);
    let mut search = h.shortest_path_search(&System::new("a"), None);
    let mut events = Vec::new();
    loop {
        let e = search.step(1);
        events.push(e);
        if let SearchEvent::Overflow(_) = e {
            break;
        }
        assert_ne!(e, SearchEvent::Finished);
    }
    let last = *events.last().unwrap();
    assert_eq!(search.step(1), last);
    assert!(!search.is_finished());
}

#[test]
fn first_distance_stays() {
    let mut s = System::new("jita");
    let o = System::new("amarr");
    assert_eq!(s.set_distance_to(&o, 3), Ok(()));
    assert_eq!(s.set_distance_to(&System::new("AMARR"), 8), Err(SystemError::DistanceAlreadySet));
    assert_eq!(s.set_distance_to(&System::new("dodixie"), 5), Ok(()));
    assert_eq!(s.get_distance_to(&o), Some(3));
    assert_eq!(s.get_distance_to(&System::new("dodixie")), Some(5));
    assert_eq!(s.get_distance_to(&System::new("rens")), None);
}
