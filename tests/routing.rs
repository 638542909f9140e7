use ibre::graph::{Connector, Router, Segment};
use ibre::route::Route;
use ibre::search::{find_steps, id_after, route_parts, Anchor, RoutePart, RoutingError, Step};

fn segment(id: &str, connectors: &[&str]) -> Segment<()> {
    Segment::new(id.to_string(), (), connectors.iter().map(|c| c.to_string()).collect())
}

fn connector(id: &str) -> Connector<()> {
    Connector::new(id.to_string(), ())
}

fn part(segment: usize, start: Anchor, stop: Anchor) -> RoutePart {
    RoutePart { segment, start, stop }
}

#[test]
fn genereal() {
    let router: Router<(), ()> = Router::new();
    assert_eq!(router.segments_len(), 0);
    assert_eq!(router.connectors_len(), 0);
}

#[test]
fn push_keeps_order() {
    let mut router: Router<(), ()> = Router::new();
    router.push_connector(connector("a"));
    router.push_connector(connector("b"));
    router.push_segment(segment("1", &["a"]));
    assert_eq!(router.connectors_len(), 2);
    assert_eq!(router.segments_len(), 1);
    assert_eq!(router.connectors()[1].get_id(), "b");
    assert_eq!(router.segments()[0].get_id(), "1");
}

#[test]
fn missing_segments() {
    let router: Router<(), ()> = Router::new();
    let r = router.plan_route(0, 0, &vec![], &vec![0, 0], 1);
    assert_eq!(r, Err(RoutingError::MissingSegments));
}

// Segment "1" from (1,0) to (9,0) without connectors; query (0,0) -> (10,0).
#[test]
fn route_away_from_the_only_segment() {
    let mut router: Router<(), ()> = Router::new();
    router.push_segment(segment("1", &[]));
    let r = router.plan_route(0, 0, &vec![8000], &vec![8000, 0], 1).unwrap();
    assert_eq!(r, vec![part(0, Anchor::Start, Anchor::Stop)]);
}

// Segments "1" (1,0)-(4,0) and "2" (5,0)-(8,0), no connectors.
#[test]
fn route_in_disjoint_network() {
    let mut router: Router<(), ()> = Router::new();
    router.push_segment(segment("1", &[]));
    router.push_segment(segment("2", &[]));
    let r = router.plan_route(0, 1, &vec![3000, 3000], &vec![7000, 0], 1);
    assert_eq!(r, Err(RoutingError::CouldNotFindRoute));
}

// Connectors a (3,0) and b (6,0), both on "1" (1,0)-(4,0) and "2" (5,0)-(8,0).
#[test]
fn route_hops_through_shared_connector() {
    let mut router: Router<(), ()> = Router::new();
    router.push_connector(connector("a"));
    router.push_connector(connector("b"));
    router.push_segment(segment("1", &["a", "b"]));
    router.push_segment(segment("2", &["a", "b"]));
    // distances to the stop's foot at (8,0): a 5, b 2, start (1,0) 7
    let r = router.plan_route(0, 1, &vec![3000, 3000], &vec![5000, 2000, 7000, 0], 1).unwrap();
    assert_eq!(r, vec![part(0, Anchor::Start, Anchor::Node(1)), part(1, Anchor::Node(1), Anchor::Stop)]);
}

// Connector a (0,0) on "1" (0,0)-(10,0); query (3,0) -> (6,0).
#[test]
fn route_on_single_segment() {
    let mut router: Router<(), ()> = Router::new();
    router.push_connector(connector("a"));
    router.push_segment(segment("1", &["a"]));
    let r = router.plan_route(0, 0, &vec![10000], &vec![6000, 3000, 0], 1).unwrap();
    assert_eq!(r, vec![part(0, Anchor::Start, Anchor::Stop)]);
}

// Four connectors and four segments; the route runs "1", "3", "2", "4".
#[test]
fn route_over_several_hops() {
    let mut router: Router<(), ()> = Router::new();
    for id in ["a", "b", "c", "d"] {
        router.push_connector(connector(id));
    }
    router.push_segment(segment("1", &["a"]));
    router.push_segment(segment("2", &["b", "c"]));
    router.push_segment(segment("3", &["a", "b"]));
    router.push_segment(segment("4", &["c", "d"]));
    let cost = vec![4000, 2000, 8000, 2000];
    let heuristic = vec![4500, 1581, 707, 707, 4500, 0];
    let r = router.plan_route(0, 3, &cost, &heuristic, 1).unwrap();
    assert_eq!(
        r,
        vec![
            part(0, Anchor::Start, Anchor::Node(0)),
            part(2, Anchor::Node(0), Anchor::Node(1)),
            part(1, Anchor::Node(1), Anchor::Node(2)),
            part(3, Anchor::Node(2), Anchor::Stop),
        ]
    );
}

#[test]
fn same_route_twice() {
    let mut router: Router<(), ()> = Router::new();
    router.push_connector(connector("a"));
    router.push_connector(connector("b"));
    router.push_segment(segment("1", &["a", "b"]));
    router.push_segment(segment("2", &["a", "b"]));
    let cost = vec![3000, 3000];
    let heuristic = vec![5000, 2000, 7000, 0];
    assert_eq!(router.plan_route(0, 1, &cost, &heuristic, 1), router.plan_route(0, 1, &cost, &heuristic, 1));
}

#[test]
fn neighbours_skip_unknown_ids_and_use_last_duplicate() {
    let mut router: Router<(), ()> = Router::new();
    router.push_connector(connector("a"));
    router.push_connector(connector("a"));
    router.push_connector(connector("b"));
    router.push_segment(segment("1", &["a", "x", "b"]));
    let a = router.neighbours(0, 0);
    assert_eq!(a.len(), 5);
    assert!(a[0].is_empty());
    assert_eq!(a[1], vec![(2, 0), (3, 0), (4, 0)]);
    assert_eq!(a[2], vec![(1, 0), (3, 0), (4, 0)]);
    assert_eq!(a[3], vec![(1, 0), (2, 0), (4, 0)]);
    assert_eq!(a[4], vec![(1, 0), (2, 0), (3, 0)]);
}

#[test]
fn neighbours_follow_host_segment_ids() {
    let mut router: Router<(), ()> = Router::new();
    router.push_segment(segment("1", &[]));
    router.push_segment(segment("1", &[]));
    router.push_segment(segment("2", &[]));
    let a = router.neighbours(0, 2);
    assert_eq!(a.len(), 2);
    assert!(a[0].is_empty());
    assert!(a[1].is_empty());
    let b = router.neighbours(1, 1);
    assert_eq!(b[0], vec![(1, 0), (1, 1)]);
    assert_eq!(b[1], vec![(0, 0), (0, 1)]);
}

#[test]
fn search_prefers_cheaper_way() {
    // 0 -> 1 directly costs 10, over 2 costs 3 + 3
    let a = vec![vec![(1, 0), (2, 1)], vec![(0, 0), (2, 2)], vec![(0, 1), (1, 2)]];
    let names: Vec<String> = ["s", "t", "m"].iter().map(|x| x.to_string()).collect();
    let steps = find_steps(&a, &vec![10, 3, 3], &vec![0, 0, 0], &names, 0, 1, 1).unwrap();
    assert_eq!(
        steps,
        vec![Step { segment: 1, from: 0, to: 2 }, Step { segment: 2, from: 2, to: 1 }]
    );
}

#[test]
fn route_parts_anchor_ends_at_feet() {
    let steps = vec![Step { segment: 4, from: 7, to: 8 }];
    assert_eq!(route_parts(&steps), vec![part(4, Anchor::Start, Anchor::Stop)]);
    let steps = vec![Step { segment: 1, from: 5, to: 0 }, Step { segment: 2, from: 0, to: 6 }];
    assert_eq!(
        route_parts(&steps),
        vec![part(1, Anchor::Start, Anchor::Node(0)), part(2, Anchor::Node(0), Anchor::Stop)]
    );
}

#[test]
fn ids_sort_bytewise() {
    assert!(id_after("b", "a"));
    assert!(!id_after("a", "b"));
    assert!(id_after("ab", "a"));
    assert!(!id_after("a", "a"));
    assert!(!id_after("", "a"));
    assert!(id_after("#stop", "#start"));
}

#[test]
fn route_keeps_query_points() {
    let route: Route<(i32, i32), u8> = Route::between((0, 0), (10, 0), vec![1, 2]);
    assert_eq!(route.get_stops(), &vec![(0, 0), (10, 0)]);
    assert_eq!(route.get_segments(), &vec![1u8, 2u8]);
    let same = Route::new(vec![(0, 0), (10, 0)], vec![1u8, 2u8]);
    assert_eq!(same.get_stops(), route.get_stops());
}

#[test]
fn coarse_priorities_tie_break_on_id() {
    // start -> a costs 10, start -> b costs 11, each then 5 to the stop "z"
    let a = vec![vec![(1, 0), (2, 1)], vec![(0, 0), (3, 2)], vec![(0, 1), (3, 3)], vec![(1, 2), (2, 3)]];
    let names: Vec<String> = ["#start", "a", "b", "z"].iter().map(|x| x.to_string()).collect();
    let cost = vec![10, 11, 5, 5];
    let h = vec![0, 0, 0, 0];
    let fine = find_steps(&a, &cost, &h, &names, 0, 3, 1).unwrap();
    assert_eq!(fine, vec![Step { segment: 0, from: 0, to: 1 }, Step { segment: 2, from: 1, to: 3 }]);
    // in units of 100 every priority rounds to 0: the id sorting last goes first
    let coarse = find_steps(&a, &cost, &h, &names, 0, 3, 100).unwrap();
    assert_eq!(coarse, vec![Step { segment: 1, from: 0, to: 2 }, Step { segment: 3, from: 2, to: 3 }]);
}
