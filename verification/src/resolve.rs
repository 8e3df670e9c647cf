use vstd::prelude::*;
use vstd::seq_lib::lemma_flatten_concat;

use crate::models::{clone_roads, lemma_deep_view_index, Highway, RoadView};

use rayon::iter::IntoParallelRefIterator;
use rayon::iter::ParallelIterator;

verus! {

/// Two roads share a node when some node of `a` and some node of `b`
/// carry the same node identity. Sharing is decided by node identity,
/// never by coordinate equality.
pub open spec fn shares_node(a: RoadView, b: RoadView) -> bool {
    exists|i: int, j: int|
        0 <= i < a.nodes.len() && 0 <= j < b.nodes.len() && a.nodes[i].id == b.nodes[j].id
}

/// Road `a` is adjacent to road `b` when they are distinct roads (by road
/// identity) sharing at least one node. A road is never adjacent to itself.
pub open spec fn adjacent(a: RoadView, b: RoadView) -> bool {
    a.id != b.id && shares_node(a, b)
}

/// `r` is adjacent to at least one road of `frontier`.
pub open spec fn adjacent_to_any(frontier: Seq<RoadView>, r: RoadView) -> bool {
    exists|k: int| 0 <= k < frontier.len() && adjacent(frontier[k], r)
}

/// One breadth-first level: the roads of `pool` adjacent to some road of
/// `frontier`, kept in `pool` order.
pub open spec fn level_spec(frontier: Seq<RoadView>, pool: Seq<RoadView>) -> Seq<RoadView> {
    pool.filter(|r: RoadView| adjacent_to_any(frontier, r))
}

/// Some road of `roads` carries the identity `id`.
pub open spec fn contains_id(roads: Seq<RoadView>, id: i64) -> bool {
    exists|k: int| 0 <= k < roads.len() && roads[k].id == id
}

/// The candidate pool after one level: every road whose identity was just
/// discovered is removed, so a road can be discovered at most once.
pub open spec fn remaining_spec(pool: Seq<RoadView>, level: Seq<RoadView>) -> Seq<RoadView> {
    pool.filter(|r: RoadView| !contains_id(level, r.id))
}

/// The full depth-limited breadth-first expansion, one entry per level,
/// shallowest level first. Level 0 is computed against `frontier`; each
/// later level is computed against the previous level, over the pool
/// shrunk by everything discovered so far. `depth` is the number of
/// levels computed after the first one.
pub open spec fn resolve_levels_spec(
    frontier: Seq<RoadView>,
    pool: Seq<RoadView>,
    depth: nat,
) -> Seq<Seq<RoadView>>
    decreases depth,
{
    let level = level_spec(frontier, pool);
    if depth == 0 {
        seq![level]
    } else {
        seq![level] + resolve_levels_spec(
            level,
            remaining_spec(pool, level),
            (depth - 1) as nat,
        )
    }
}

/// Whether roads `a` and `b` share a node, by node identity.
pub fn shares_node_exec(a: &Highway, b: &Highway) -> (r: bool)
    ensures
        r == shares_node(a@, b@),
{
    let mut i: usize = 0;
    while i < a.nodes.len()
        invariant
            i <= a.nodes.len(),
            forall|p: int, q: int|
                0 <= p < i && 0 <= q < b@.nodes.len() ==> a@.nodes[p].id != b@.nodes[q].id,
        decreases a.nodes.len() - i,
    {
        let mut j: usize = 0;
        while j < b.nodes.len()
            invariant
                i < a.nodes.len(),
                j <= b.nodes.len(),
                forall|q: int| 0 <= q < j ==> a@.nodes[i as int].id != b@.nodes[q].id,
            decreases b.nodes.len() - j,
        {
            if a.nodes[i].id == b.nodes[j].id {
                assert(a@.nodes[i as int].id == b@.nodes[j as int].id);
                return true;
            }
            j = j + 1;
        }
        i = i + 1;
    }
    false
}

/// Whether road `b` is adjacent to road `a`: distinct identities and a
/// shared node.
pub fn is_adjacent(a: &Highway, b: &Highway) -> (r: bool)
    ensures
        r == adjacent(a@, b@),
{
    a.id != b.id && shares_node_exec(a, b)
}

/// Whether road `h` is adjacent to at least one road of `frontier`.
pub fn touches_frontier(frontier: &Vec<Highway>, h: &Highway) -> (r: bool)
    ensures
        r == adjacent_to_any(frontier.deep_view(), h@),
{
    let mut k: usize = 0;
    while k < frontier.len()
        invariant
            k <= frontier.len(),
            forall|p: int| 0 <= p < k ==> !adjacent(frontier.deep_view()[p], h@),
        decreases frontier.len() - k,
    {
        if is_adjacent(&frontier[k], h) {
            assert(adjacent(frontier.deep_view()[k as int], h@));
            return true;
        }
        k = k + 1;
    }
    false
}

/// Relies on rayon's `par_iter().filter(..).map(..).collect::<Vec<_>>()`:
/// `filter` keeps exactly the items on which the predicate returned true,
/// and collecting into a `Vec` keeps the input order, because rayon
/// reduces the split-off parts left before right. The predicate and the
/// mapping closure only call verified functions of this crate.
#[verifier::external_body]
fn par_filter_adjacent(frontier: &Vec<Highway>, pool: &Vec<Highway>) -> (r: Vec<Highway>)
    ensures
        r.deep_view() == level_spec(frontier.deep_view(), pool.deep_view()),
{
    pool.par_iter().filter(|h| touches_frontier(frontier, h)).map(|h| h.clone_road()).collect()
}

/// One breadth-first level, scanned in parallel over the candidate pool:
/// the roads of `pool`, in pool order, adjacent to at least one road of
/// `frontier`. A road whose identity appears in `frontier` is never
/// selected through its own identity, since a road is not adjacent to
/// itself.
pub fn connected_level(frontier: &Vec<Highway>, pool: &Vec<Highway>) -> (r: Vec<Highway>)
    ensures
        r.deep_view() == level_spec(frontier.deep_view(), pool.deep_view()),
{
    par_filter_adjacent(frontier, pool)
}

/// Extending a filtered prefix by one element keeps the element exactly
/// when the predicate holds of it.
pub proof fn lemma_filter_take_step<A>(s: Seq<A>, pred: spec_fn(A) -> bool, i: int)
    requires
        0 <= i < s.len(),
    ensures
        s.take(i + 1).filter(pred) == if pred(s[i]) {
            s.take(i).filter(pred).push(s[i])
        } else {
            s.take(i).filter(pred)
        },
{
    assert(s.take(i + 1).drop_last() =~= s.take(i));
    assert(s.take(i + 1).last() == s[i]);
    reveal(Seq::filter);
}

/// Whether some road of `roads` carries the identity `id`.
pub fn contains_id_exec(roads: &Vec<Highway>, id: i64) -> (r: bool)
    ensures
        r == contains_id(roads.deep_view(), id),
{
    let mut k: usize = 0;
    while k < roads.len()
        invariant
            k <= roads.len(),
            forall|p: int| 0 <= p < k ==> roads.deep_view()[p].id != id,
        decreases roads.len() - k,
    {
        if roads[k].id == id {
            assert(roads.deep_view()[k as int].id == id);
            return true;
        }
        k = k + 1;
    }
    false
}

/// The candidate pool shrunk by one discovered level: every road of `pool`
/// whose identity appears in `level` is dropped; the rest keep their order.
pub fn remove_ids(pool: &Vec<Highway>, level: &Vec<Highway>) -> (r: Vec<Highway>)
    ensures
        r.deep_view() == remaining_spec(pool.deep_view(), level.deep_view()),
{
    let ghost pred = |h: RoadView| !contains_id(level.deep_view(), h.id);
    let mut out: Vec<Highway> = Vec::new();
    let mut i: usize = 0;
    while i < pool.len()
        invariant
            i <= pool.len(),
            pred == (|h: RoadView| !contains_id(level.deep_view(), h.id)),
            out.deep_view() == pool.deep_view().take(i as int).filter(pred),
        decreases pool.len() - i,
    {
        proof {
            lemma_filter_take_step(pool.deep_view(), pred, i as int);
        }
        if !contains_id_exec(level, pool[i].id) {
            assert(pred(pool.deep_view()[i as int]));
            out.push(pool[i].clone_road());
            assert(out.deep_view() =~= pool.deep_view().take(i + 1).filter(pred));
        } else {
            assert(!pred(pool.deep_view()[i as int]));
        }
        i = i + 1;
    }
    assert(pool.deep_view().take(pool.len() as int) =~= pool.deep_view());
    out
}

/// The depth-limited breadth-first expansion, one inner vector per level,
/// shallowest level first: the result is exactly `resolve_levels_spec`
/// over the views of the arguments. The candidate pool shrinks strictly
/// between levels by everything just discovered, so a road identity is
/// discovered at most once; the recursion of `resolve_levels_spec` is
/// run here as an explicit loop, bounded by `max_depth`.
pub fn resolve_levels(frontier: &Vec<Highway>, pool: &Vec<Highway>, max_depth: u64) -> (r: Vec<
    Vec<Highway>,
>)
    ensures
        r.deep_view() == resolve_levels_spec(
            frontier.deep_view(),
            pool.deep_view(),
            max_depth as nat,
        ),
{
    let ghost full = resolve_levels_spec(frontier.deep_view(), pool.deep_view(), max_depth as nat);
    let mut out: Vec<Vec<Highway>> = Vec::new();
    let mut cur_frontier: Vec<Highway> = clone_roads(frontier);
    let mut cur_pool: Vec<Highway> = clone_roads(pool);
    let mut depth_left: u64 = max_depth;
    loop
        invariant_except_break
            full == out.deep_view() + resolve_levels_spec(
                cur_frontier.deep_view(),
                cur_pool.deep_view(),
                depth_left as nat,
            ),
        ensures
            out.deep_view() == full,
        decreases depth_left,
    {
        let ghost pre = out.deep_view();
        let ghost rest = resolve_levels_spec(
            cur_frontier.deep_view(),
            cur_pool.deep_view(),
            depth_left as nat,
        );
        let level = connected_level(&cur_frontier, &cur_pool);
        if depth_left == 0 {
            out.push(level);
            proof {
                assert(rest =~= seq![level.deep_view()]);
                assert(out.deep_view() =~= pre + rest);
            }
            break;
        }
        let next_frontier = clone_roads(&level);
        let next_pool = remove_ids(&cur_pool, &level);
        out.push(level);
        proof {
            assert(rest == seq![next_frontier.deep_view()] + resolve_levels_spec(
                next_frontier.deep_view(),
                next_pool.deep_view(),
                (depth_left - 1) as nat,
            ));
            assert(out.deep_view() =~= pre + seq![next_frontier.deep_view()]);
            assert((pre + seq![next_frontier.deep_view()]) + resolve_levels_spec(
                next_frontier.deep_view(),
                next_pool.deep_view(),
                (depth_left - 1) as nat,
            ) =~= pre + rest);
        }
        cur_frontier = next_frontier;
        cur_pool = next_pool;
        depth_left = depth_left - 1;
    }
    out
}

/// The batch form of the expansion: all levels of `resolve_levels`,
/// concatenated shallowest level first into one sequence of roads.
pub fn resolve(frontier: &Vec<Highway>, pool: &Vec<Highway>, max_depth: u64) -> (r: Vec<Highway>)
    ensures
        r.deep_view() == resolve_levels_spec(
            frontier.deep_view(),
            pool.deep_view(),
            max_depth as nat,
        ).flatten(),
{
    let levels = resolve_levels(frontier, pool, max_depth);
    let ghost lv = levels.deep_view();
    let mut out: Vec<Highway> = Vec::new();
    let mut i: usize = 0;
    while i < levels.len()
        invariant
            i <= levels.len(),
            lv == levels.deep_view(),
            out.deep_view() == lv.take(i as int).flatten(),
        decreases levels.len() - i,
    {
        let mut j: usize = 0;
        while j < levels[i].len()
            invariant
                i < levels.len(),
                j <= lv[i as int].len(),
                lv == levels.deep_view(),
                out.deep_view() == lv.take(i as int).flatten() + lv[i as int].take(j as int),
            decreases lv[i as int].len() - j,
        {
            let level_ref = &levels[i];
            let cloned = level_ref[j].clone_road();
            proof {
                lemma_deep_view_index(&out);
                lemma_deep_view_index(&levels);
                lemma_deep_view_index(level_ref);
            }
            let ghost pre_dv = out.deep_view();
            out.push(cloned);
            proof {
                lemma_deep_view_index(&out);
                assert(out.deep_view() =~= pre_dv.push(cloned@));
                assert(cloned@ == lv[i as int][j as int]);
                assert(lv[i as int].take(j + 1) =~= lv[i as int].take(j as int).push(
                    lv[i as int][j as int],
                ));
                assert((lv.take(i as int).flatten() + lv[i as int].take(j as int)).push(cloned@)
                    =~= lv.take(i as int).flatten() + lv[i as int].take(j + 1));
            }
            assert(out.deep_view() =~= lv.take(i as int).flatten() + lv[i as int].take(j + 1));
            j = j + 1;
        }
        proof {
            lv.take(i as int).lemma_flatten_push(lv[i as int]);
            assert(lv.take(i as int).push(lv[i as int]) =~= lv.take(i + 1));
            assert(lv[i as int].take(lv[i as int].len() as int) =~= lv[i as int]);
            assert(out.deep_view() =~= lv.take(i + 1).flatten());
        }
        i = i + 1;
    }
    assert(lv.take(levels.len() as int) =~= lv);
    out
}

/// The state of a level-by-level resolution, for a consumer that delivers
/// each level as soon as it is computed. Between two steps the caller may
/// suspend, deliver the level, or abandon the search; the expansion
/// itself advances only inside `step`.
pub struct ResolveState {
    pub frontier: Vec<Highway>,
    pub pool: Vec<Highway>,
    pub depth_left: u64,
    pub done: bool,
}

impl ResolveState {
    /// Begins a resolution over `frontier` and `pool`, with `max_depth`
    /// further levels after the first.
    pub fn start(frontier: &Vec<Highway>, pool: &Vec<Highway>, max_depth: u64) -> (s: ResolveState)
        ensures
            s.frontier.deep_view() == frontier.deep_view(),
            s.pool.deep_view() == pool.deep_view(),
            s.depth_left == max_depth,
            !s.done,
    {
        ResolveState {
            frontier: clone_roads(frontier),
            pool: clone_roads(pool),
            depth_left: max_depth,
            done: false,
        }
    }

    /// Computes the next level, if any: exactly the roads of the pool
    /// adjacent to the current frontier, which then becomes the next
    /// frontier over the pool shrunk by what was discovered. After the
    /// last level (depth exhausted), the state is done and nothing more
    /// is emitted.
    pub fn step(&mut self) -> (r: Option<Vec<Highway>>)
        ensures
            old(self).done ==> r is None && final(self).done,
            !old(self).done ==> {
                let level = level_spec(
                    old(self).frontier.deep_view(),
                    old(self).pool.deep_view(),
                );
                &&& r matches Some(v) && v.deep_view() == level
                &&& old(self).depth_left == 0 ==> final(self).done
                &&& old(self).depth_left > 0 ==> {
                    &&& !final(self).done
                    &&& final(self).frontier.deep_view() == level
                    &&& final(self).pool.deep_view() == remaining_spec(
                        old(self).pool.deep_view(),
                        level,
                    )
                    &&& final(self).depth_left == old(self).depth_left - 1
                }
            },
    {
        if self.done {
            return None;
        }
        let level = connected_level(&self.frontier, &self.pool);
        if self.depth_left == 0 {
            self.done = true;
        } else {
            self.pool = remove_ids(&self.pool, &level);
            self.frontier = clone_roads(&level);
            self.depth_left = self.depth_left - 1;
        }
        Some(level)
    }
}

/// A road is never adjacent to itself, although it trivially shares every
/// one of its nodes with itself: adjacency requires distinct road
/// identities.
pub proof fn lemma_no_self_adjacency(r: RoadView)
    ensures
        !adjacent(r, r),
{
}

/// With depth 0 the expansion is exactly one level — the roads of the
/// pool adjacent to the frontier — and nothing more.
pub proof fn lemma_depth_zero(frontier: Seq<RoadView>, pool: Seq<RoadView>)
    ensures
        resolve_levels_spec(frontier, pool, 0) == seq![level_spec(frontier, pool)],
{
}

/// The expansion is a function of the frontier, the pool and the depth
/// alone: any two results over the same arguments are the same, so
/// repeated resolution over one store returns the same road identities.
pub proof fn lemma_resolve_deterministic(
    frontier: Seq<RoadView>,
    pool: Seq<RoadView>,
    depth: nat,
    r1: Seq<Seq<RoadView>>,
    r2: Seq<Seq<RoadView>>,
)
    requires
        r1 == resolve_levels_spec(frontier, pool, depth),
        r2 == resolve_levels_spec(frontier, pool, depth),
    ensures
        r1 == r2,
{
}

/// The expansion always produces one level per depth step, plus the
/// initial level.
pub proof fn lemma_levels_len(frontier: Seq<RoadView>, pool: Seq<RoadView>, depth: nat)
    ensures
        resolve_levels_spec(frontier, pool, depth).len() == depth + 1,
    decreases depth,
{
    if depth > 0 {
        let level = level_spec(frontier, pool);
        lemma_levels_len(level, remaining_spec(pool, level), (depth - 1) as nat);
    }
}

/// A shallower expansion is a prefix of any deeper one over the same
/// frontier and pool.
pub proof fn lemma_depth_prefix(
    frontier: Seq<RoadView>,
    pool: Seq<RoadView>,
    d1: nat,
    d2: nat,
)
    requires
        d1 <= d2,
    ensures
        resolve_levels_spec(frontier, pool, d1) == resolve_levels_spec(frontier, pool, d2).take(
            d1 as int + 1,
        ),
    decreases d1,
{
    let level = level_spec(frontier, pool);
    let rest = remaining_spec(pool, level);
    lemma_levels_len(frontier, pool, d1);
    lemma_levels_len(frontier, pool, d2);
    if d1 == 0 {
        if d2 == 0 {
            assert(resolve_levels_spec(frontier, pool, d2).take(1) =~= resolve_levels_spec(
                frontier,
                pool,
                d1,
            ));
        } else {
            assert(resolve_levels_spec(frontier, pool, d2).take(1) =~= seq![level]);
        }
    } else {
        lemma_depth_prefix(level, rest, (d1 - 1) as nat, (d2 - 1) as nat);
        assert(resolve_levels_spec(frontier, pool, d2).take(d1 as int + 1) =~= seq![level]
            + resolve_levels_spec(level, rest, (d2 - 1) as nat).take(d1 as int));
        assert(resolve_levels_spec(frontier, pool, d1) =~= seq![level] + resolve_levels_spec(
            level,
            rest,
            (d1 - 1) as nat,
        ));
    }
}

/// Depth monotonicity: every road reached within depth `d1` is also
/// reached within any depth `d2` at least as large, over the same
/// frontier and pool.
pub proof fn lemma_depth_monotonic(
    frontier: Seq<RoadView>,
    pool: Seq<RoadView>,
    d1: nat,
    d2: nat,
    road: RoadView,
)
    requires
        d1 <= d2,
        resolve_levels_spec(frontier, pool, d1).flatten().contains(road),
    ensures
        resolve_levels_spec(frontier, pool, d2).flatten().contains(road),
{
    let shallow = resolve_levels_spec(frontier, pool, d1);
    let deep = resolve_levels_spec(frontier, pool, d2);
    lemma_depth_prefix(frontier, pool, d1, d2);
    lemma_levels_len(frontier, pool, d2);
    assert(deep =~= deep.take(d1 as int + 1) + deep.skip(d1 as int + 1));
    lemma_flatten_concat(deep.take(d1 as int + 1), deep.skip(d1 as int + 1));
    let k = choose|k: int| 0 <= k < shallow.flatten().len() && shallow.flatten()[k] == road;
    assert(deep.flatten()[k] == road);
}

/// Every road of the sequence carries a different identity.
pub open spec fn distinct_ids(roads: Seq<RoadView>) -> bool {
    forall|p: int, q: int| 0 <= p < q < roads.len() ==> roads[p].id != roads[q].id
}

/// Filtering keeps road identities pairwise distinct.
proof fn lemma_filter_distinct_ids(s: Seq<RoadView>, pred: spec_fn(RoadView) -> bool)
    requires
        distinct_ids(s),
    ensures
        distinct_ids(s.filter(pred)),
    decreases s.len(),
{
    reveal(Seq::filter);
    if s.len() > 0 {
        let rest = s.drop_last();
        assert(forall|p: int| 0 <= p < rest.len() ==> rest[p] == s[p]);
        lemma_filter_distinct_ids(rest, pred);
        if pred(s.last()) {
            let kept = rest.filter(pred);
            assert forall|k: int| 0 <= k < kept.len() implies kept[k].id != s.last().id by {
                assert(kept.contains(kept[k]));
                rest.lemma_filter_contains_rev(pred, kept[k]);
                let idx = choose|idx: int| 0 <= idx < rest.len() && rest[idx] == kept[k];
                assert(s[idx].id != s[s.len() - 1].id);
            }
        }
    }
}

/// Everything the expansion delivers was a member of the candidate pool.
proof fn lemma_resolve_ids_from_pool(frontier: Seq<RoadView>, pool: Seq<RoadView>, depth: nat)
    ensures
        forall|x: RoadView|
            #[trigger] resolve_levels_spec(frontier, pool, depth).flatten().contains(x)
                ==> pool.contains(x),
    decreases depth,
{
    let level = level_spec(frontier, pool);
    let rem = remaining_spec(pool, level);
    let full = resolve_levels_spec(frontier, pool, depth);
    assert forall|x: RoadView| #[trigger] full.flatten().contains(x) implies pool.contains(x) by {
        if depth == 0 {
            seq![level].lemma_flatten_one_element();
            assert(level.contains(x));
            pool.lemma_filter_contains_rev(|r: RoadView| adjacent_to_any(frontier, r), x);
        } else {
            let rest = resolve_levels_spec(level, rem, (depth - 1) as nat);
            lemma_flatten_concat(seq![level], rest);
            assert(seq![level] + rest == full);
            seq![level].lemma_flatten_one_element();
            assert(full.flatten() == level + rest.flatten());
            let k = choose|k: int| 0 <= k < full.flatten().len() && full.flatten()[k] == x;
            if k < level.len() {
                assert(level.contains(x));
                pool.lemma_filter_contains_rev(|r: RoadView| adjacent_to_any(frontier, r), x);
            } else {
                assert(rest.flatten()[k - level.len()] == x);
                assert(rest.flatten().contains(x));
                lemma_resolve_ids_from_pool(level, rem, (depth - 1) as nat);
                assert(rem.contains(x));
                pool.lemma_filter_contains_rev(
                    |r: RoadView| !contains_id(level, r.id),
                    x,
                );
            }
        }
    }
}

/// No road identity appears twice across the concatenated multi-level
/// result: a road is discovered at exactly one level, provided the
/// candidate pool itself carries pairwise distinct road identities.
pub proof fn lemma_no_duplicate_ids(frontier: Seq<RoadView>, pool: Seq<RoadView>, depth: nat)
    requires
        distinct_ids(pool),
    ensures
        distinct_ids(resolve_levels_spec(frontier, pool, depth).flatten()),
    decreases depth,
{
    let level = level_spec(frontier, pool);
    let rem = remaining_spec(pool, level);
    let full = resolve_levels_spec(frontier, pool, depth);
    lemma_filter_distinct_ids(pool, |r: RoadView| adjacent_to_any(frontier, r));
    if depth == 0 {
        seq![level].lemma_flatten_one_element();
        assert(full.flatten() == level);
    } else {
        lemma_filter_distinct_ids(pool, |r: RoadView| !contains_id(level, r.id));
        lemma_no_duplicate_ids(level, rem, (depth - 1) as nat);
        let rest = resolve_levels_spec(level, rem, (depth - 1) as nat);
        lemma_flatten_concat(seq![level], rest);
        assert(seq![level] + rest == full);
        seq![level].lemma_flatten_one_element();
        assert(full.flatten() == level + rest.flatten());
        lemma_resolve_ids_from_pool(level, rem, (depth - 1) as nat);
        let flat = full.flatten();
        assert forall|p: int, q: int| 0 <= p < q < flat.len() implies flat[p].id != flat[q].id by {
            if q < level.len() {
                // both indices fall in the first level, which is distinct
            } else if p >= level.len() {
                assert(rest.flatten()[p - level.len()].id != rest.flatten()[q - level.len()].id);
            } else {
                let y = rest.flatten()[q - level.len()];
                assert(rest.flatten().contains(y));
                assert(rem.contains(y));
                let idx = choose|idx: int| 0 <= idx < rem.len() && rem[idx] == y;
                pool.lemma_filter_pred(|r: RoadView| !contains_id(level, r.id), idx);
                assert(!contains_id(level, y.id));
                assert(flat[p] == level[p]);
            }
        }
    }
}

} // verus!
