use vstd::prelude::*;

verus! {

/// A planar projected coordinate. The unit is fixed by whoever projects
/// geographic coordinates into the plane (the defaults elsewhere in this
/// crate assume meters); the engine only ever compares coordinates.
#[derive(Clone, Copy, PartialEq, Eq, Structural, Debug)]
pub struct Coord {
    pub x: i64,
    pub y: i64,
}

/// Mathematical model of a node: identity, tags, projected coordinate.
pub struct NodeView {
    pub id: i64,
    pub tags: Seq<(Seq<char>, Seq<char>)>,
    pub x: i64,
    pub y: i64,
}

/// A point entity of the road network: a stable identity, key/value tags,
/// and a projected planar coordinate.
pub struct HighwayNode {
    pub id: i64,
    pub tags: Vec<(String, String)>,
    pub x: i64,
    pub y: i64,
}

impl View for HighwayNode {
    type V = NodeView;

    open spec fn view(&self) -> NodeView {
        NodeView { id: self.id, tags: self.tags.deep_view(), x: self.x, y: self.y }
    }
}

impl DeepView for HighwayNode {
    type V = NodeView;

    open spec fn deep_view(&self) -> NodeView {
        self.view()
    }
}

/// Mathematical model of a road: identity, tags, ordered node sequence.
pub struct RoadView {
    pub id: i64,
    pub tags: Seq<(Seq<char>, Seq<char>)>,
    pub nodes: Seq<NodeView>,
}

/// A road (a "way" of the source data): a stable identity, key/value tags,
/// and an ordered sequence of nodes. The node order defines the road's
/// physical path; the first and last entries are its endpoints.
pub struct Highway {
    pub id: i64,
    pub tags: Vec<(String, String)>,
    pub nodes: Vec<HighwayNode>,
}

impl View for Highway {
    type V = RoadView;

    open spec fn view(&self) -> RoadView {
        RoadView { id: self.id, tags: self.tags.deep_view(), nodes: self.nodes.deep_view() }
    }
}

impl DeepView for Highway {
    type V = RoadView;

    open spec fn deep_view(&self) -> RoadView {
        self.view()
    }
}

impl HighwayNode {
    /// The node's projected planar coordinate.
    pub fn coord(&self) -> (c: Coord)
        ensures
            c.x == self.x,
            c.y == self.y,
    {
        Coord { x: self.x, y: self.y }
    }
}

/// Copies a tag list; the copy has the same key/value pairs in the same order.
pub fn clone_tags(tags: &Vec<(String, String)>) -> (r: Vec<(String, String)>)
    ensures
        r.deep_view() == tags.deep_view(),
{
    let mut out: Vec<(String, String)> = Vec::new();
    let mut i: usize = 0;
    while i < tags.len()
        invariant
            i <= tags.len(),
            out.len() == i,
            forall|j: int| 0 <= j < i ==> out.deep_view()[j] == tags.deep_view()[j],
        decreases tags.len() - i,
    {
        let key = tags[i].0.clone();
        let value = tags[i].1.clone();
        out.push((key, value));
        i = i + 1;
    }
    assert(out.deep_view() =~= tags.deep_view());
    out
}

impl HighwayNode {
    /// Copies a node; the copy has the same identity, tags and coordinate.
    pub fn clone_node(&self) -> (r: HighwayNode)
        ensures
            r@ == self@,
    {
        HighwayNode { id: self.id, tags: clone_tags(&self.tags), x: self.x, y: self.y }
    }
}

impl Highway {
    /// Copies a road; the copy has the same identity, tags and node sequence.
    pub fn clone_road(&self) -> (r: Highway)
        ensures
            r@ == self@,
    {
        let mut nodes: Vec<HighwayNode> = Vec::new();
        let mut i: usize = 0;
        while i < self.nodes.len()
            invariant
                i <= self.nodes.len(),
                nodes.len() == i,
                forall|j: int| 0 <= j < i ==> nodes@[j]@ == self.nodes@[j]@,
            decreases self.nodes.len() - i,
        {
            let cloned = self.nodes[i].clone_node();
            nodes.push(cloned);
            i = i + 1;
        }
        assert(nodes.deep_view() =~= self.nodes.deep_view());
        Highway { id: self.id, tags: clone_tags(&self.tags), nodes }
    }
}

/// The deep view of a vector is its elements' views, index by index.
pub proof fn lemma_deep_view_index<T: DeepView>(v: &Vec<T>)
    ensures
        v.deep_view().len() == v@.len(),
        forall|k: int| 0 <= k < v@.len() ==> v.deep_view()[k] == v@[k].deep_view(),
{
}

/// Copies a sequence of roads, preserving order and contents.
pub fn clone_roads(roads: &Vec<Highway>) -> (r: Vec<Highway>)
    ensures
        r.deep_view() == roads.deep_view(),
{
    let mut out: Vec<Highway> = Vec::new();
    let mut i: usize = 0;
    while i < roads.len()
        invariant
            i <= roads.len(),
            out.len() == i,
            forall|j: int| 0 <= j < i ==> out.deep_view()[j] == roads.deep_view()[j],
        decreases roads.len() - i,
    {
        out.push(roads[i].clone_road());
        i = i + 1;
    }
    assert(out.deep_view() =~= roads.deep_view());
    out
}

} // verus!
