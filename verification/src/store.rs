use vstd::prelude::*;

use std::collections::HashMap;

use crate::models::{clone_tags, Highway, HighwayNode, NodeView, RoadView};

verus! {

broadcast use vstd::std_specs::hash::group_hash_axioms;

/// Mathematical model of a raw way record: identity, tags, and the
/// identities of its nodes, in path order.
pub struct WayView {
    pub id: i64,
    pub tags: Seq<(Seq<char>, Seq<char>)>,
    pub node_ids: Seq<i64>,
}

/// A raw way record, as the ingestion feed delivers it: the road's
/// identity and tags, and the ordered identities of the nodes it
/// references. The nodes themselves are delivered separately.
pub struct RawWay {
    pub id: i64,
    pub tags: Vec<(String, String)>,
    pub node_ids: Vec<i64>,
}

impl View for RawWay {
    type V = WayView;

    open spec fn view(&self) -> WayView {
        WayView { id: self.id, tags: self.tags.deep_view(), node_ids: self.node_ids@ }
    }
}

impl DeepView for RawWay {
    type V = WayView;

    open spec fn deep_view(&self) -> WayView {
        self.view()
    }
}

/// Why construction of the road network store failed.
#[derive(Clone, Copy, PartialEq, Eq, Structural, Debug)]
pub enum BuildError {
    /// A way references a node identity that the node set does not
    /// contain: a road cannot exist without its nodes resolvable, so
    /// construction fails instead of building a partial graph.
    MissingNode { way: i64, node: i64 },
}

/// The node lookup built from a node sequence: later records win, as when
/// inserting one by one into a map.
pub open spec fn node_map_spec(nodes: Seq<NodeView>) -> Map<i64, NodeView>
    decreases nodes.len(),
{
    if nodes.len() == 0 {
        Map::empty()
    } else {
        node_map_spec(nodes.drop_last()).insert(nodes.last().id, nodes.last())
    }
}

/// Every node identity that any way references is present in the map.
pub open spec fn ways_resolved(ways: Seq<WayView>, m: Map<i64, NodeView>) -> bool {
    forall|k: int, j: int|
        0 <= k < ways.len() && 0 <= j < ways[k].node_ids.len() ==> m.dom().contains(
            #[trigger] ways[k].node_ids[j],
        )
}

/// The road a way becomes once each referenced node identity is replaced
/// by the node itself.
pub open spec fn road_of_way(way: WayView, m: Map<i64, NodeView>) -> RoadView {
    RoadView {
        id: way.id,
        tags: way.tags,
        nodes: Seq::new(way.node_ids.len(), |j: int| m[way.node_ids[j]]),
    }
}

proof fn lemma_node_map_take_step(nodes: Seq<NodeView>, i: int)
    requires
        0 <= i < nodes.len(),
    ensures
        node_map_spec(nodes.take(i + 1)) == node_map_spec(nodes.take(i)).insert(
            nodes[i].id,
            nodes[i],
        ),
{
    assert(nodes.take(i + 1).drop_last() =~= nodes.take(i));
    assert(nodes.take(i + 1).last() == nodes[i]);
}

/// The exec node lookup mirrors the model map: same domain, and each
/// entry's view is the model's entry.
spec fn map_models(m: Map<i64, HighwayNode>, s: Map<i64, NodeView>) -> bool {
    &&& m.dom() == s.dom()
    &&& forall|id: i64| s.dom().contains(id) ==> (#[trigger] m[id])@ == s[id]
}

/// Builds the road network store from the raw ingestion records: every
/// way becomes a road whose node sequence is the ways' node identities
/// resolved through the node set (a later node record with the same
/// identity wins). If any way references a node identity that is absent,
/// construction fails with that way and node — no partial store is ever
/// returned.
pub fn build_store(ways: &Vec<RawWay>, nodes: &Vec<HighwayNode>) -> (r: Result<
    Vec<Highway>,
    BuildError,
>)
    ensures
        ({
            let m = node_map_spec(nodes.deep_view());
            match r {
                Ok(store) => {
                    &&& ways_resolved(ways.deep_view(), m)
                    &&& store.deep_view().len() == ways.deep_view().len()
                    &&& forall|k: int|
                        0 <= k < ways.deep_view().len() ==> store.deep_view()[k] == road_of_way(
                            #[trigger] ways.deep_view()[k],
                            m,
                        )
                },
                Err(e) => {
                    &&& !ways_resolved(ways.deep_view(), m)
                    &&& e matches BuildError::MissingNode { way, node } && exists|k: int, j: int|
                        0 <= k < ways.deep_view().len() && 0 <= j
                            < ways.deep_view()[k].node_ids.len() && ways.deep_view()[k].id == way
                            && #[trigger] ways.deep_view()[k].node_ids[j] == node
                            && !m.dom().contains(node)
                },
            }
        }),
{
    let ghost spec_m = node_map_spec(nodes.deep_view());
    let mut map: HashMap<i64, HighwayNode> = HashMap::new();
    let mut i: usize = 0;
    proof {
        assert(nodes.deep_view().take(0) =~= Seq::<NodeView>::empty());
    }
    while i < nodes.len()
        invariant
            i <= nodes.len(),
            map_models(map@, node_map_spec(nodes.deep_view().take(i as int))),
        decreases nodes.len() - i,
    {
        let n = nodes[i].clone_node();
        proof {
            lemma_node_map_take_step(nodes.deep_view(), i as int);
        }
        let ghost pre = map@;
        map.insert(n.id, n);
        proof {
            assert(map@.dom() =~= node_map_spec(nodes.deep_view().take(i + 1)).dom());
        }
        i = i + 1;
    }
    proof {
        assert(nodes.deep_view().take(nodes.len() as int) =~= nodes.deep_view());
        assert(map_models(map@, spec_m));
    }
    let mut store: Vec<Highway> = Vec::new();
    let mut k: usize = 0;
    while k < ways.len()
        invariant
            k <= ways.len(),
            map_models(map@, spec_m),
            spec_m == node_map_spec(nodes.deep_view()),
            store.len() == k,
            forall|p: int, j: int|
                0 <= p < k && 0 <= j < ways.deep_view()[p].node_ids.len() ==> spec_m.dom().contains(
                    #[trigger] ways.deep_view()[p].node_ids[j],
                ),
            forall|p: int|
                0 <= p < k ==> store.deep_view()[p] == road_of_way(
                    #[trigger] ways.deep_view()[p],
                    spec_m,
                ),
        decreases ways.len() - k,
    {
        let way = &ways[k];
        let mut road_nodes: Vec<HighwayNode> = Vec::new();
        let mut j: usize = 0;
        while j < way.node_ids.len()
            invariant
                j <= way.node_ids.len(),
                map_models(map@, spec_m),
                spec_m == node_map_spec(nodes.deep_view()),
                way@ == ways.deep_view()[k as int],
                k < ways.deep_view().len(),
                road_nodes.len() == j,
                forall|q: int|
                    0 <= q < j ==> spec_m.dom().contains(#[trigger] way@.node_ids[q])
                        && road_nodes.deep_view()[q] == spec_m[way@.node_ids[q]],
            decreases way.node_ids.len() - j,
        {
            let id = way.node_ids[j];
            match map.get(&id) {
                Some(n) => {
                    road_nodes.push(n.clone_node());
                },
                None => {
                    proof {
                        assert(!spec_m.dom().contains(id));
                        assert(ways.deep_view()[k as int].node_ids[j as int] == id);
                        assert(!ways_resolved(ways.deep_view(), spec_m));
                    }
                    return Err(BuildError::MissingNode { way: way.id, node: id });
                },
            }
            j = j + 1;
        }
        let road = Highway { id: way.id, tags: clone_tags(&way.tags), nodes: road_nodes };
        proof {
            assert(road@.nodes =~= road_of_way(ways.deep_view()[k as int], spec_m).nodes);
            assert(road@ == road_of_way(ways.deep_view()[k as int], spec_m));
        }
        store.push(road);
        k = k + 1;
    }
    Ok(store)
}

} // verus!
