use vstd::prelude::*;

use crate::models::{lemma_deep_view_index, Highway, RoadView};
use crate::resolve::{lemma_filter_take_step, resolve, resolve_levels_spec};

verus! {

/// Default number of breadth-first expansion levels after the first.
pub const DEFAULT_DEPTH: u64 = 15;

/// Default half-width of the bounding box around the root road's first
/// node, in coordinate units (meters under the default projection).
pub const DEFAULT_RADIUS: i64 = 10000;

/// Why a query could not be answered.
#[derive(Clone, Copy, PartialEq, Eq, Structural, Debug)]
pub enum QueryError {
    /// No road matched the requested identity or lay near the requested
    /// point: lookup failure is signaled, never silently swallowed.
    RootNotFound,
    /// The root road references no node, so it has no first coordinate to
    /// center a bounding box on.
    DegenerateRoot,
}

/// A resolved query request: a root road either by identity or by a
/// projected point, an optional expansion depth and an optional bounding
/// radius (both fall back to the defaults above).
pub struct QueryParams {
    pub road_id: Option<i64>,
    pub x: i64,
    pub y: i64,
    pub depth: Option<u64>,
    pub radius: Option<i64>,
}

/// The expansion depth a request asks for: the requested one, or the
/// default.
pub open spec fn spec_depth(params: QueryParams) -> u64 {
    if params.depth is Some {
        params.depth->0
    } else {
        DEFAULT_DEPTH
    }
}

/// The bounding radius a request asks for: the requested one, or the
/// default.
pub open spec fn spec_radius(params: QueryParams) -> i64 {
    if params.radius is Some {
        params.radius->0
    } else {
        DEFAULT_RADIUS
    }
}

impl QueryParams {
    /// The expansion depth to use: the requested one, or the default.
    pub fn effective_depth(&self) -> (d: u64)
        ensures
            d == spec_depth(*self),
    {
        match self.depth {
            Some(d) => d,
            None => DEFAULT_DEPTH,
        }
    }

    /// The bounding radius to use: the requested one, or the default.
    pub fn effective_radius(&self) -> (r: i64)
        ensures
            r == spec_radius(*self),
    {
        match self.radius {
            Some(r) => r,
            None => DEFAULT_RADIUS,
        }
    }
}

/// Point `(ax, ay)` lies strictly inside the axis-aligned box of
/// half-width `radius` centered on `(bx, by)`: independent thresholds on
/// each axis, not a Euclidean circle test.
pub open spec fn within_box(ax: i64, ay: i64, bx: i64, by: i64, radius: i64) -> bool {
    &&& -(radius as int) < ax - bx < radius as int
    &&& -(radius as int) < ay - by < radius as int
}

/// Decides `within_box`; the differences are computed in a wider type, so
/// no input is excluded.
pub fn within_box_exec(ax: i64, ay: i64, bx: i64, by: i64, radius: i64) -> (r: bool)
    ensures
        r == within_box(ax, ay, bx, by, radius),
{
    let dx: i128 = ax as i128 - bx as i128;
    let dy: i128 = ay as i128 - by as i128;
    let rad: i128 = radius as i128;
    -rad < dx && dx < rad && -rad < dy && dy < rad
}

/// Some node of `h` lies within the box of half-width `tol` centered on
/// `(x, y)`.
pub open spec fn road_near(h: RoadView, x: i64, y: i64, tol: i64) -> bool {
    exists|j: int| 0 <= j < h.nodes.len() && within_box(h.nodes[j].x, h.nodes[j].y, x, y, tol)
}

/// Whether some node of `h` lies within the box of half-width `tol`
/// centered on `(x, y)`.
pub fn road_near_exec(h: &Highway, x: i64, y: i64, tol: i64) -> (r: bool)
    ensures
        r == road_near(h@, x, y, tol),
{
    let mut j: usize = 0;
    while j < h.nodes.len()
        invariant
            j <= h.nodes.len(),
            forall|p: int| 0 <= p < j ==> !within_box(h@.nodes[p].x, h@.nodes[p].y, x, y, tol),
        decreases h.nodes.len() - j,
    {
        if within_box_exec(h.nodes[j].x, h.nodes[j].y, x, y, tol) {
            assert(within_box(h@.nodes[j as int].x, h@.nodes[j as int].y, x, y, tol));
            return true;
        }
        j = j + 1;
    }
    false
}

/// Road `h` answers the request's root selector: it carries the requested
/// identity when one is given, otherwise it owns a node within `tol` of
/// the requested point.
pub open spec fn matches_selector(h: RoadView, params: QueryParams, tol: i64) -> bool {
    match params.road_id {
        Some(id) => h.id == id,
        None => road_near(h, params.x, params.y, tol),
    }
}

/// `i` is the index of the first road of `roads` answering the selector.
pub open spec fn is_first_match(
    roads: Seq<RoadView>,
    params: QueryParams,
    tol: i64,
    i: int,
) -> bool {
    &&& 0 <= i < roads.len()
    &&& matches_selector(roads[i], params, tol)
    &&& forall|p: int| 0 <= p < i ==> !matches_selector(#[trigger] roads[p], params, tol)
}

/// The index of the root road for a query: the first road answering the
/// selector, by identity or by proximity. Lookup failure is an explicit
/// error, never a silent empty success.
pub fn find_root(roads: &Vec<Highway>, params: &QueryParams, tol: i64) -> (r: Result<
    usize,
    QueryError,
>)
    ensures
        match r {
            Ok(i) => is_first_match(roads.deep_view(), *params, tol, i as int),
            Err(e) => e == QueryError::RootNotFound && forall|p: int|
                0 <= p < roads@.len() ==> !matches_selector(
                    #[trigger] roads.deep_view()[p],
                    *params,
                    tol,
                ),
        },
{
    match params.road_id {
        Some(id) => {
            let mut i: usize = 0;
            while i < roads.len()
                invariant
                    i <= roads.len(),
                    params.road_id == Some(id),
                    forall|p: int|
                        0 <= p < i ==> !matches_selector(
                            #[trigger] roads.deep_view()[p],
                            *params,
                            tol,
                        ),
                decreases roads.len() - i,
            {
                if roads[i].id == id {
                    assert(roads.deep_view()[i as int].id == id);
                    return Ok(i);
                }
                i = i + 1;
            }
            Err(QueryError::RootNotFound)
        },
        None => {
            let mut i: usize = 0;
            while i < roads.len()
                invariant
                    i <= roads.len(),
                    params.road_id is None,
                    forall|p: int|
                        0 <= p < i ==> !matches_selector(
                            #[trigger] roads.deep_view()[p],
                            *params,
                            tol,
                        ),
                decreases roads.len() - i,
            {
                if road_near_exec(&roads[i], params.x, params.y, tol) {
                    return Ok(i);
                }
                i = i + 1;
            }
            Err(QueryError::RootNotFound)
        },
    }
}

/// A candidate for the pool: a road distinct from the root (by identity)
/// whose first node lies within the box of half-width `radius` centered
/// on the root's first node. A road without nodes has no first node and
/// never qualifies; long roads whose far end re-enters the box are
/// missed on purpose — the first node is a deliberately cheap proxy.
pub open spec fn candidate(h: RoadView, root: RoadView, radius: i64) -> bool {
    &&& h.nodes.len() > 0
    &&& h.id != root.id
    &&& within_box(h.nodes[0].x, h.nodes[0].y, root.nodes[0].x, root.nodes[0].y, radius)
}

/// The candidate pool for a root road: the roads within the bounding box,
/// in store order, the root itself excluded.
pub open spec fn prefilter_spec(roads: Seq<RoadView>, root: RoadView, radius: i64) -> Seq<
    RoadView,
> {
    roads.filter(|h: RoadView| candidate(h, root, radius))
}

/// Narrows the road collection to the candidate pool around `root` before
/// the breadth-first search runs. A root without nodes cannot center a
/// bounding box and is rejected.
pub fn prefilter(roads: &Vec<Highway>, root: &Highway, radius: i64) -> (r: Result<
    Vec<Highway>,
    QueryError,
>)
    ensures
        root@.nodes.len() == 0 <==> r is Err,
        r is Err ==> r->Err_0 == QueryError::DegenerateRoot,
        r is Ok ==> r->Ok_0.deep_view() == prefilter_spec(roads.deep_view(), root@, radius),
{
    if root.nodes.len() == 0 {
        return Err(QueryError::DegenerateRoot);
    }
    let rx = root.nodes[0].x;
    let ry = root.nodes[0].y;
    assert(rx == root@.nodes[0].x && ry == root@.nodes[0].y);
    let ghost pred = |h: RoadView| candidate(h, root@, radius);
    let mut out: Vec<Highway> = Vec::new();
    let mut i: usize = 0;
    while i < roads.len()
        invariant
            i <= roads.len(),
            root@.nodes.len() > 0,
            rx == root@.nodes[0].x,
            ry == root@.nodes[0].y,
            pred == (|h: RoadView| candidate(h, root@, radius)),
            out.deep_view() == roads.deep_view().take(i as int).filter(pred),
        decreases roads.len() - i,
    {
        proof {
            lemma_filter_take_step(roads.deep_view(), pred, i as int);
        }
        let h = &roads[i];
        if h.nodes.len() > 0 && h.id != root.id && within_box_exec(
            h.nodes[0].x,
            h.nodes[0].y,
            rx,
            ry,
            radius,
        ) {
            assert(pred(roads.deep_view()[i as int]));
            out.push(h.clone_road());
            assert(out.deep_view() =~= roads.deep_view().take(i + 1).filter(pred));
        } else {
            assert(!pred(roads.deep_view()[i as int]));
        }
        i = i + 1;
    }
    assert(roads.deep_view().take(roads.len() as int) =~= roads.deep_view());
    Ok(out)
}

/// Answers one query in the batch mode: looks up the root road, narrows
/// the candidate pool to the bounding box around it, expands breadth
/// first to the requested depth, and returns the root followed by every
/// reachable road, shallowest level first. The query fails exactly when
/// no road answers the selector, or the first road that does has no
/// nodes to center a bounding box on.
pub fn resolve_query(roads: &Vec<Highway>, params: &QueryParams, tol: i64) -> (r: Result<
    Vec<Highway>,
    QueryError,
>)
    ensures
        ({
            let rv = roads.deep_view();
            match r {
                Ok(v) => exists|i: int|
                    {
                        &&& #[trigger] is_first_match(rv, *params, tol, i)
                        &&& rv[i].nodes.len() > 0
                        &&& v.deep_view() == seq![rv[i]] + resolve_levels_spec(
                            seq![rv[i]],
                            prefilter_spec(rv, rv[i], spec_radius(*params)),
                            spec_depth(*params) as nat,
                        ).flatten()
                    },
                Err(e) => {
                    ||| (e == QueryError::RootNotFound && forall|p: int|
                        0 <= p < rv.len() ==> !matches_selector(#[trigger] rv[p], *params, tol))
                    ||| (e == QueryError::DegenerateRoot && exists|i: int|
                        #[trigger] is_first_match(rv, *params, tol, i) && rv[i].nodes.len() == 0)
                },
            }
        }),
{
    let root_index = match find_root(roads, params, tol) {
        Ok(i) => i,
        Err(e) => {
            return Err(e);
        },
    };
    let root = roads[root_index].clone_road();
    proof {
        lemma_deep_view_index(roads);
        assert(root@ == roads.deep_view()[root_index as int]);
    }
    let pool = match prefilter(roads, &root, params.effective_radius()) {
        Ok(pool) => pool,
        Err(e) => {
            return Err(e);
        },
    };
    let frontier: Vec<Highway> = vec![root.clone_road()];
    proof {
        lemma_deep_view_index(&frontier);
        assert(frontier.deep_view() =~= seq![root@]);
    }
    let mut reached = resolve(&frontier, &pool, params.effective_depth());
    let mut out: Vec<Highway> = Vec::new();
    out.push(root);
    let ghost reached_dv = reached.deep_view();
    proof {
        lemma_deep_view_index(&reached);
        lemma_deep_view_index(&out);
    }
    out.append(&mut reached);
    proof {
        lemma_deep_view_index(&out);
        assert(out.deep_view() =~= seq![roads.deep_view()[root_index as int]] + reached_dv);
        assert(is_first_match(roads.deep_view(), *params, tol, root_index as int));
    }
    Ok(out)
}

/// One transport message, as the engine sees it.
pub enum SessionEvent {
    /// A well-formed query request.
    Query(QueryParams),
    /// A message that did not parse as a request.
    Malformed,
    /// The client asked to close the session.
    CloseRequested,
    /// Any other transport frame.
    Other,
}

/// What the session loop must do with a message.
pub enum SessionAction {
    /// Resolve and deliver this query.
    Run(QueryParams),
    /// Log and ignore the message; the session continues.
    Ignore,
    /// Terminate the session.
    Stop,
}

/// The session step: a well-formed query is run; a close request stops
/// the session; anything else — malformed or unrecognized — is ignored
/// and the session continues.
pub fn next_action(event: SessionEvent) -> (a: SessionAction)
    ensures
        match event {
            SessionEvent::Query(q) => a matches SessionAction::Run(p) && p == q,
            SessionEvent::Malformed => a is Ignore,
            SessionEvent::CloseRequested => a is Stop,
            SessionEvent::Other => a is Ignore,
        },
{
    match event {
        SessionEvent::Query(q) => SessionAction::Run(q),
        SessionEvent::Malformed => SessionAction::Ignore,
        SessionEvent::CloseRequested => SessionAction::Stop,
        SessionEvent::Other => SessionAction::Ignore,
    }
}

} // verus!
