use roadnet::connections::highway_connections;
use roadnet::models::{Highway, HighwayNode};
use roadnet::query::{
    find_root, next_action, prefilter, resolve_query, within_box_exec, QueryError, QueryParams,
    SessionAction, SessionEvent,
};
use roadnet::resolve::{connected_level, is_adjacent, resolve, resolve_levels, ResolveState};
use roadnet::store::{build_store, BuildError, RawWay};

fn node(id: i64, x: i64, y: i64) -> HighwayNode {
    HighwayNode { id, tags: Vec::new(), x, y }
}

fn road(id: i64, nodes: Vec<HighwayNode>) -> Highway {
    Highway { id, tags: Vec::new(), nodes }
}

fn ids(roads: &[Highway]) -> Vec<i64> {
    roads.iter().map(|h| h.id).collect()
}

/// Three roads in a chain: A and B share node 5, B and C share node 9,
/// A and C share nothing. One level reaches B; one more level reaches C.
#[test]
fn chain_of_three_roads() {
    let frontier = vec![road(1, vec![node(4, 0, 0), node(5, 10, 0)])];
    let pool = vec![
        road(2, vec![node(5, 10, 0), node(9, 20, 0)]),
        road(3, vec![node(9, 20, 0), node(12, 30, 0)]),
    ];

    let shallow = resolve(&frontier, &pool, 0);
    assert_eq!(ids(&shallow), vec![2]);

    let deep = resolve(&frontier, &pool, 1);
    assert_eq!(ids(&deep), vec![2, 3]);

    // the same run, level by level
    let levels = resolve_levels(&frontier, &pool, 1);
    assert_eq!(levels.len(), 2);
    assert_eq!(ids(&levels[0]), vec![2]);
    assert_eq!(ids(&levels[1]), vec![3]);
}

/// A root with no adjacent road in the pool: the result is empty at every
/// depth, and no error is raised.
#[test]
fn isolated_root() {
    let frontier = vec![road(1, vec![node(4, 0, 0), node(5, 10, 0)])];
    let pool = vec![
        road(2, vec![node(20, 10, 0), node(21, 20, 0)]),
        road(3, vec![node(21, 20, 0), node(22, 30, 0)]),
    ];
    for depth in [0u64, 1, 5] {
        let out = resolve(&frontier, &pool, depth);
        assert!(out.is_empty());
    }
}

/// A road shares every node with itself but is never its own neighbor.
#[test]
fn no_self_adjacency() {
    let a = road(1, vec![node(4, 0, 0), node(5, 10, 0)]);
    let a2 = road(1, vec![node(4, 0, 0), node(5, 10, 0)]);
    assert!(!is_adjacent(&a, &a2));

    // a pool copy of the frontier road is not selected through itself
    let frontier = vec![road(1, vec![node(4, 0, 0), node(5, 10, 0)])];
    let pool = vec![road(1, vec![node(4, 0, 0), node(5, 10, 0)])];
    let level = connected_level(&frontier, &pool);
    assert!(level.is_empty());
}

/// Repeated resolution over the same inputs returns the same identities.
#[test]
fn resolution_is_deterministic() {
    let frontier = vec![road(1, vec![node(4, 0, 0), node(5, 10, 0)])];
    let pool = vec![
        road(2, vec![node(5, 10, 0), node(9, 20, 0)]),
        road(3, vec![node(9, 20, 0), node(12, 30, 0)]),
        road(4, vec![node(12, 30, 0), node(5, 10, 0)]),
    ];
    let first = resolve(&frontier, &pool, 7);
    let second = resolve(&frontier, &pool, 7);
    assert_eq!(ids(&first), ids(&second));
}

/// A deeper search only ever adds roads to what a shallower one found.
#[test]
fn deeper_search_contains_shallower() {
    let frontier = vec![road(1, vec![node(4, 0, 0), node(5, 10, 0)])];
    let pool = vec![
        road(2, vec![node(5, 10, 0), node(9, 20, 0)]),
        road(3, vec![node(9, 20, 0), node(12, 30, 0)]),
        road(4, vec![node(12, 30, 0), node(15, 40, 0)]),
    ];
    let mut previous: Vec<i64> = Vec::new();
    for depth in [0u64, 1, 2, 3] {
        let now = ids(&resolve(&frontier, &pool, depth));
        for id in &previous {
            assert!(now.contains(id));
        }
        previous = now;
    }
}

/// On a cyclic network no road identity is ever reported twice.
#[test]
fn cycle_reports_each_road_once() {
    let frontier = vec![road(1, vec![node(4, 0, 0), node(5, 10, 0)])];
    // a triangle around the root, plus the root's twin in the pool
    let pool = vec![
        road(2, vec![node(5, 10, 0), node(9, 20, 0)]),
        road(3, vec![node(9, 20, 0), node(4, 0, 0)]),
        road(4, vec![node(4, 0, 0), node(5, 10, 0)]),
    ];
    let out = ids(&resolve(&frontier, &pool, 10));
    let mut seen = out.clone();
    seen.sort();
    seen.dedup();
    assert_eq!(seen.len(), out.len());
}

/// The prefilter keeps exactly the roads whose first node lies strictly
/// inside the box, and drops the root itself.
#[test]
fn prefilter_keeps_box_and_drops_root() {
    let root = road(1, vec![node(4, 0, 0)]);
    let roads = vec![
        road(1, vec![node(4, 0, 0)]),
        road(2, vec![node(5, 500, -500)]),
        road(3, vec![node(6, 1000, 0)]),
        road(4, vec![node(7, 0, 999)]),
        road(5, vec![node(8, -2000, 0)]),
        road(6, Vec::new()),
    ];
    let pool = prefilter(&roads, &root, 1000).unwrap();
    assert_eq!(ids(&pool), vec![2, 4]);
}

/// With radius zero nothing lies strictly inside the box, not even a road
/// whose first node coincides with the root's.
#[test]
fn prefilter_radius_zero_is_empty() {
    let root = road(1, vec![node(4, 0, 0)]);
    let roads = vec![
        road(1, vec![node(4, 0, 0)]),
        road(2, vec![node(5, 0, 0)]),
        road(3, vec![node(6, 1, 0)]),
    ];
    let pool = prefilter(&roads, &root, 0).unwrap();
    assert!(pool.is_empty());
}

/// A root road without nodes cannot center a bounding box.
#[test]
fn prefilter_rejects_degenerate_root() {
    let root = road(1, Vec::new());
    let roads = vec![road(2, vec![node(5, 0, 0)])];
    match prefilter(&roads, &root, 1000) {
        Err(e) => assert_eq!(e, QueryError::DegenerateRoot),
        Ok(_) => panic!("a root without nodes must be rejected"),
    }
}

/// Root lookup by identity returns the first match and an explicit error
/// when nothing matches.
#[test]
fn find_root_by_id() {
    let roads = vec![
        road(10, vec![node(1, 0, 0)]),
        road(20, vec![node(2, 50, 50)]),
    ];
    let by_id = QueryParams { road_id: Some(20), x: 0, y: 0, depth: None, radius: None };
    assert_eq!(find_root(&roads, &by_id, 5), Ok(1));

    let missing = QueryParams { road_id: Some(99), x: 0, y: 0, depth: None, radius: None };
    assert_eq!(find_root(&roads, &missing, 5), Err(QueryError::RootNotFound));
}

/// Root lookup by point returns the first road owning a node within the
/// tolerance box of the point.
#[test]
fn find_root_by_point() {
    let roads = vec![
        road(10, vec![node(1, 0, 0)]),
        road(20, vec![node(2, 50, 50), node(3, 52, 48)]),
    ];
    let near = QueryParams { road_id: None, x: 51, y: 49, depth: None, radius: None };
    assert_eq!(find_root(&roads, &near, 5), Ok(1));

    let far = QueryParams { road_id: None, x: 500, y: 500, depth: None, radius: None };
    assert_eq!(find_root(&roads, &far, 5), Err(QueryError::RootNotFound));
}

/// The depth and radius fall back to their documented defaults.
#[test]
fn query_defaults() {
    let bare = QueryParams { road_id: None, x: 0, y: 0, depth: None, radius: None };
    assert_eq!(bare.effective_depth(), 15);
    assert_eq!(bare.effective_radius(), 10000);

    let set = QueryParams { road_id: None, x: 0, y: 0, depth: Some(3), radius: Some(250) };
    assert_eq!(set.effective_depth(), 3);
    assert_eq!(set.effective_radius(), 250);
}

/// Store construction resolves every way's node references, in order.
#[test]
fn build_store_resolves_nodes() {
    let nodes = vec![node(1, 0, 0), node(2, 10, 0), node(3, 20, 0)];
    let ways = vec![
        RawWay { id: 100, tags: vec![("highway".to_string(), "residential".to_string())], node_ids: vec![1, 2] },
        RawWay { id: 200, tags: Vec::new(), node_ids: vec![2, 3] },
    ];
    let store = build_store(&ways, &nodes).unwrap();
    assert_eq!(store.len(), 2);
    assert_eq!(store[0].id, 100);
    assert_eq!(store[0].tags[0].0, "highway");
    assert_eq!(store[0].tags[0].1, "residential");
    let first_ids: Vec<i64> = store[0].nodes.iter().map(|n| n.id).collect();
    assert_eq!(first_ids, vec![1, 2]);
    assert_eq!(store[1].nodes[1].x, 20);
}

/// A way referencing an absent node identity fails construction fatally.
#[test]
fn build_store_missing_node_fails() {
    let nodes = vec![node(1, 0, 0)];
    let ways = vec![RawWay { id: 100, tags: Vec::new(), node_ids: vec![1, 7] }];
    match build_store(&ways, &nodes) {
        Err(e) => assert_eq!(e, BuildError::MissingNode { way: 100, node: 7 }),
        Ok(_) => panic!("a missing node reference must be fatal"),
    }
}

/// A later node record with the same identity wins over an earlier one.
#[test]
fn build_store_later_node_wins() {
    let nodes = vec![node(1, 0, 0), node(1, 99, 99)];
    let ways = vec![RawWay { id: 100, tags: Vec::new(), node_ids: vec![1] }];
    let store = build_store(&ways, &nodes).unwrap();
    assert_eq!(store[0].nodes[0].x, 99);
}

/// The endpoint-adjacency map lists, for every road, the other roads
/// whose endpoints touch its own, and never the road itself.
#[test]
fn endpoint_connections_map() {
    let roads = vec![
        road(1, vec![node(4, 0, 0), node(5, 10, 0)]),
        road(2, vec![node(5, 10, 0), node(9, 20, 0)]),
        road(3, vec![node(7, 50, 0), node(9, 20, 0)]),
        road(4, vec![node(11, 70, 0), node(5, 10, 0), node(12, 90, 0)]),
    ];
    let m = highway_connections(&roads);
    assert_eq!(m[&1], vec![2]);
    assert_eq!(m[&2], vec![1, 3]);
    assert_eq!(m[&3], vec![2]);
    // road 4 touches node 5 only mid-path, not at an endpoint
    assert_eq!(m[&4], Vec::<i64>::new());
}

/// The batch query returns the root first, then everything reachable
/// within the box, and fails explicitly when nothing matches or the
/// matched root is degenerate.
#[test]
fn batch_query_end_to_end() {
    let roads = vec![
        road(1, vec![node(4, 0, 0), node(5, 10, 0)]),
        road(2, vec![node(5, 10, 0), node(9, 20, 0)]),
        road(3, vec![node(9, 20, 0), node(12, 30, 0)]),
        road(4, vec![node(20, 90000, 90000)]),
        road(5, Vec::new()),
    ];
    let q = QueryParams { road_id: Some(1), x: 0, y: 0, depth: Some(5), radius: Some(1000) };
    let result = resolve_query(&roads, &q, 5).unwrap();
    // the root comes first; road 4 is outside the box, road 5 has no node
    assert_eq!(ids(&result), vec![1, 2, 3]);

    let missing = QueryParams { road_id: Some(77), x: 0, y: 0, depth: None, radius: None };
    match resolve_query(&roads, &missing, 5) {
        Err(e) => assert_eq!(e, QueryError::RootNotFound),
        Ok(_) => panic!("an unknown identity must be an explicit error"),
    }

    let degenerate = QueryParams { road_id: Some(5), x: 0, y: 0, depth: None, radius: None };
    match resolve_query(&roads, &degenerate, 5) {
        Err(e) => assert_eq!(e, QueryError::DegenerateRoot),
        Ok(_) => panic!("a root without nodes must be an explicit error"),
    }
}

/// The streaming expansion delivers exactly the batch levels, in order,
/// and then nothing more.
#[test]
fn streaming_matches_batch() {
    let frontier = vec![road(1, vec![node(4, 0, 0), node(5, 10, 0)])];
    let pool = vec![
        road(2, vec![node(5, 10, 0), node(9, 20, 0)]),
        road(3, vec![node(9, 20, 0), node(12, 30, 0)]),
        road(4, vec![node(12, 30, 0), node(15, 40, 0)]),
    ];
    let levels = resolve_levels(&frontier, &pool, 2);
    let mut state = ResolveState::start(&frontier, &pool, 2);
    let mut streamed: Vec<Vec<i64>> = Vec::new();
    while let Some(level) = state.step() {
        streamed.push(ids(&level));
    }
    let batch: Vec<Vec<i64>> = levels.iter().map(|l| ids(l)).collect();
    assert_eq!(streamed, batch);
    assert!(state.step().is_none());
}

/// The box test is exact even at the ends of the coordinate range.
#[test]
fn box_test_at_extreme_coordinates() {
    // the difference between the extremes does not fit an i64, yet the
    // comparison stays correct
    assert!(!within_box_exec(i64::MAX, 0, i64::MIN, 0, i64::MAX));
    assert!(within_box_exec(i64::MAX, i64::MIN, i64::MAX, i64::MIN, 1));
    assert!(!within_box_exec(5, 0, 3, 0, 2));
    assert!(within_box_exec(5, 0, 4, 0, 2));
}

/// A node hands out its projected coordinate.
#[test]
fn node_coordinate() {
    let n = node(7, -3, 12);
    let c = n.coord();
    assert_eq!(c.x, -3);
    assert_eq!(c.y, 12);
}

/// The session step runs queries, ignores noise, and stops on close.
#[test]
fn session_step() {
    let q = QueryParams { road_id: Some(7), x: 0, y: 0, depth: None, radius: None };
    match next_action(SessionEvent::Query(q)) {
        SessionAction::Run(p) => assert_eq!(p.road_id, Some(7)),
        _ => panic!("a query must be run"),
    }
    assert!(matches!(next_action(SessionEvent::Malformed), SessionAction::Ignore));
    assert!(matches!(next_action(SessionEvent::Other), SessionAction::Ignore));
    assert!(matches!(next_action(SessionEvent::CloseRequested), SessionAction::Stop));
}
