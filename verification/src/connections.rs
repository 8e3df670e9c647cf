use vstd::prelude::*;

use std::collections::HashMap;

use crate::models::{Highway, RoadView};
use crate::resolve::{contains_id, distinct_ids, lemma_filter_take_step};

verus! {

broadcast use vstd::std_specs::hash::group_hash_axioms;

/// Roads `a` and `b` touch at their endpoints: the first or last node of
/// one carries the same node identity as the first or last node of the
/// other. Two roads without nodes vacuously touch; a road without nodes
/// never touches a road that has any.
pub open spec fn endpoint_touching(a: RoadView, b: RoadView) -> bool {
    if a.nodes.len() == 0 && b.nodes.len() == 0 {
        true
    } else if a.nodes.len() == 0 || b.nodes.len() == 0 {
        false
    } else {
        ||| a.nodes[0].id == b.nodes[0].id
        ||| a.nodes[0].id == b.nodes.last().id
        ||| a.nodes.last().id == b.nodes[0].id
        ||| a.nodes.last().id == b.nodes.last().id
    }
}

/// Endpoint adjacency: endpoint touching between distinct roads. A road
/// touches its own endpoints trivially, so self-matches never count.
pub open spec fn endpoint_adjacent(a: RoadView, b: RoadView) -> bool {
    a.id != b.id && endpoint_touching(a, b)
}

/// The identities of the roads endpoint-adjacent to `h`, in store order.
pub open spec fn connections_of(roads: Seq<RoadView>, h: RoadView) -> Seq<i64> {
    roads.filter(|o: RoadView| endpoint_adjacent(o, h)).map_values(|o: RoadView| o.id)
}

/// Whether roads `a` and `b` are endpoint-adjacent.
pub fn endpoint_adjacent_exec(a: &Highway, b: &Highway) -> (r: bool)
    ensures
        r == endpoint_adjacent(a@, b@),
{
    if a.id == b.id {
        return false;
    }
    if a.nodes.len() == 0 && b.nodes.len() == 0 {
        return true;
    }
    if a.nodes.len() == 0 || b.nodes.len() == 0 {
        return false;
    }
    let af = a.nodes[0].id;
    let al = a.nodes[a.nodes.len() - 1].id;
    let bf = b.nodes[0].id;
    let bl = b.nodes[b.nodes.len() - 1].id;
    af == bf || af == bl || al == bf || al == bl
}

/// The identities of the roads of `roads` endpoint-adjacent to `h`, in
/// store order.
fn connections_of_exec(roads: &Vec<Highway>, h: &Highway) -> (r: Vec<i64>)
    ensures
        r@ == connections_of(roads.deep_view(), h@),
{
    let ghost pred = |o: RoadView| endpoint_adjacent(o, h@);
    let ghost to_id = |o: RoadView| o.id;
    let mut out: Vec<i64> = Vec::new();
    let mut j: usize = 0;
    while j < roads.len()
        invariant
            j <= roads.len(),
            pred == (|o: RoadView| endpoint_adjacent(o, h@)),
            to_id == (|o: RoadView| o.id),
            out@ == roads.deep_view().take(j as int).filter(pred).map_values(to_id),
        decreases roads.len() - j,
    {
        proof {
            lemma_filter_take_step(roads.deep_view(), pred, j as int);
        }
        if endpoint_adjacent_exec(&roads[j], h) {
            assert(pred(roads.deep_view()[j as int]));
            out.push(roads[j].id);
            assert(out@ =~= roads.deep_view().take(j + 1).filter(pred).map_values(to_id));
        } else {
            assert(!pred(roads.deep_view()[j as int]));
        }
        j = j + 1;
    }
    assert(roads.deep_view().take(roads.len() as int) =~= roads.deep_view());
    out
}

/// The precomputed endpoint-adjacency map: for every road of the store,
/// the identities of the roads whose first or last node touches the
/// road's own first or last node. This is the fixed depth-one variant of
/// the adjacency relation; the resolver computes the full relation lazily
/// instead.
pub fn highway_connections(all_highways: &Vec<Highway>) -> (m: HashMap<i64, Vec<i64>>)
    requires
        distinct_ids(all_highways.deep_view()),
    ensures
        forall|k: int|
            0 <= k < all_highways.deep_view().len() ==> {
                let h = #[trigger] all_highways.deep_view()[k];
                m@.contains_key(h.id) && m@[h.id]@ == connections_of(all_highways.deep_view(), h)
            },
        forall|id: i64| #[trigger] m@.contains_key(id) ==> contains_id(all_highways.deep_view(), id),
{
    let mut m: HashMap<i64, Vec<i64>> = HashMap::new();
    let mut k: usize = 0;
    while k < all_highways.len()
        invariant
            k <= all_highways.len(),
            distinct_ids(all_highways.deep_view()),
            forall|p: int|
                0 <= p < k ==> {
                    let h = #[trigger] all_highways.deep_view()[p];
                    m@.contains_key(h.id) && m@[h.id]@ == connections_of(
                        all_highways.deep_view(),
                        h,
                    )
                },
            forall|id: i64| #[trigger] m@.contains_key(id) ==> contains_id(
                all_highways.deep_view(),
                id,
            ),
        decreases all_highways.len() - k,
    {
        let h = &all_highways[k];
        let ids = connections_of_exec(all_highways, h);
        m.insert(h.id, ids);
        proof {
            assert(all_highways.deep_view()[k as int].id == h.id);
            assert(contains_id(all_highways.deep_view(), h.id));
            assert forall|p: int| 0 <= p < k + 1 implies {
                let hp = #[trigger] all_highways.deep_view()[p];
                m@.contains_key(hp.id) && m@[hp.id]@ == connections_of(
                    all_highways.deep_view(),
                    hp,
                )
            } by {
                let hp = all_highways.deep_view()[p];
                if p < k {
                    assert(hp.id != all_highways.deep_view()[k as int].id);
                }
            }
        }
        k = k + 1;
    }
    m
}

} // verus!
