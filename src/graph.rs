use vstd::prelude::*;
use std::collections::HashMap;

verus! {

/// One release: its version text, the release image if one is published, and
/// free-form metadata that resolution does not read.
#[derive(Debug, Clone)]
pub struct Node {
    pub version: String,
    pub payload: Option<String>,
    pub metadata: Option<HashMap<String, String>>,
}

/// A disclosed risk that gates a conditional edge.
#[derive(Debug, Clone, PartialEq, Eq)]
pub struct Risk {
    pub url: String,
    pub name: String,
    pub message: String,
}

/// A conditional upgrade, keyed by version text.
#[derive(Debug, Clone, PartialEq, Eq)]
pub struct Edge {
    pub from: String,
    pub to: String,
}

/// A group of conditional edges that share the same risks.
#[derive(Debug, Clone)]
pub struct ConditionalEdge {
    pub edges: Vec<Edge>,
    pub risks: Vec<Risk>,
}

/// One image to mirror: a version and its release image.
#[derive(Debug, Clone, PartialEq, Eq)]
pub struct UpgradeResult {
    pub version: String,
    pub image: String,
}

/// The update graph: nodes, unconditional edges as `(from, to)` node indices,
/// and the groups of conditional edges.
#[derive(Debug, Clone)]
pub struct Graph {
    pub nodes: Vec<Node>,
    pub edges: Vec<(u32, u32)>,
    pub conditional_edges: Vec<ConditionalEdge>,
}

/// The version texts of the nodes, in order.
pub open spec fn node_versions(nodes: Seq<Node>) -> Seq<String>
    decreases nodes.len(),
{
    if nodes.len() == 0 {
        Seq::empty()
    } else {
        node_versions(nodes.drop_last()).push(nodes.last().version)
    }
}

/// The index of the first node whose version text is `v`.
pub open spec fn find_node(nodes: Seq<Node>, v: Seq<char>) -> Option<int>
    decreases nodes.len(),
{
    if nodes.len() == 0 {
        None
    } else {
        match find_node(nodes.drop_last(), v) {
            Some(i) => Some(i),
            None => if nodes.last().version@ == v {
                Some(nodes.len() - 1)
            } else {
                None
            },
        }
    }
}

/// An unconditional edge runs from node `a` to node `b`.
pub open spec fn has_edge(edges: Seq<(u32, u32)>, a: int, b: int) -> bool {
    exists|k: int| 0 <= k < edges.len() && edges[k].0 as int == a && #[trigger] edges[k].1 as int == b
}

/// The versions of the nodes that an unconditional edge leads to from node `p`,
/// in edge order; `None` where such an edge names no node.
pub open spec fn targets(nodes: Seq<Node>, edges: Seq<(u32, u32)>, p: int) -> Option<Seq<String>>
    decreases edges.len(),
{
    if edges.len() == 0 {
        Some(Seq::empty())
    } else {
        match targets(nodes, edges.drop_last(), p) {
            None => None,
            Some(ts) => {
                let e = edges.last();
                if e.0 as int != p {
                    Some(ts)
                } else if e.1 as int >= nodes.len() {
                    None
                } else {
                    Some(ts.push(nodes[e.1 as int].version))
                }
            },
        }
    }
}

/// The targets of the edges of one group that start at `from`.
pub open spec fn group_targets(es: Seq<Edge>, from: Seq<char>) -> Seq<String>
    decreases es.len(),
{
    if es.len() == 0 {
        Seq::empty()
    } else {
        let rest = group_targets(es.drop_last(), from);
        if es.last().from@ == from {
            rest.push(es.last().to)
        } else {
            rest
        }
    }
}

/// The targets of all conditional edges that start at `from`, group by group.
pub open spec fn cond_targets(cs: Seq<ConditionalEdge>, from: Seq<char>) -> Seq<String>
    decreases cs.len(),
{
    if cs.len() == 0 {
        Seq::empty()
    } else {
        cond_targets(cs.drop_last(), from) + group_targets(cs.last().edges@, from)
    }
}

/// The risks of one group, once for each of its edges that runs `from -> to`.
pub open spec fn group_risks(es: Seq<Edge>, risks: Seq<Risk>, from: Seq<char>, to: Seq<char>) -> Seq<Risk>
    decreases es.len(),
{
    if es.len() == 0 {
        Seq::empty()
    } else {
        let rest = group_risks(es.drop_last(), risks, from, to);
        if es.last().from@ == from && es.last().to@ == to {
            rest + risks
        } else {
            rest
        }
    }
}

/// The risks of every conditional edge that runs `from -> to`.
pub open spec fn disclosed_risks(cs: Seq<ConditionalEdge>, from: Seq<char>, to: Seq<char>) -> Seq<Risk>
    decreases cs.len(),
{
    if cs.len() == 0 {
        Seq::empty()
    } else {
        disclosed_risks(cs.drop_last(), from, to) + group_risks(cs.last().edges@, cs.last().risks@, from, to)
    }
}

impl Risk {
    /// A copy of the risk.
    pub fn duplicate(&self) -> (r: Risk)
        ensures
            r == *self,
    {
        Risk { url: self.url.clone(), name: self.name.clone(), message: self.message.clone() }
    }
}

impl Graph {
    /// An empty graph.
    pub fn new() -> (g: Graph)
        ensures
            g.nodes@.len() == 0,
            g.edges@.len() == 0,
            g.conditional_edges@.len() == 0,
    {
        Graph { nodes: Vec::new(), edges: Vec::new(), conditional_edges: Vec::new() }
    }

    /// The version texts of all nodes, in order.
    pub fn versions(&self) -> (r: Vec<String>)
        ensures
            r@ == node_versions(self.nodes@),
    {
        let mut r: Vec<String> = Vec::new();
        let mut i: usize = 0;
        while i < self.nodes.len()
            invariant
                i <= self.nodes.len(),
                r@ == node_versions(self.nodes@.take(i as int)),
            decreases self.nodes.len() - i,
        {
            assert(self.nodes@.take(i + 1).drop_last() =~= self.nodes@.take(i as int));
            r.push(self.nodes[i].version.clone());
            i += 1;
        }
        assert(self.nodes@.take(i as int) =~= self.nodes@);
        r
    }

    /// The index of the first node whose version is `version`.
    pub fn find_node_index(&self, version: &String) -> (r: Option<usize>)
        ensures
            match r {
                Some(i) => find_node(self.nodes@, version@) == Some(i as int),
                None => find_node(self.nodes@, version@) is None,
            },
    {
        let mut i: usize = 0;
        while i < self.nodes.len()
            invariant
                i <= self.nodes.len(),
                find_node(self.nodes@.take(i as int), version@) is None,
            decreases self.nodes.len() - i,
        {
            assert(self.nodes@.take(i + 1).drop_last() =~= self.nodes@.take(i as int));
            if self.nodes[i].version == *version {
                proof { lemma_find_prefix(self.nodes@, i as int + 1, version@); }
                return Some(i);
            }
            i += 1;
        }
        assert(self.nodes@.take(i as int) =~= self.nodes@);
        None
    }

    /// Whether an unconditional edge runs from node `from` to node `to`.
    pub fn has_direct_edge(&self, from: usize, to: usize) -> (r: bool)
        ensures
            r == has_edge(self.edges@, from as int, to as int),
    {
        let mut k: usize = 0;
        while k < self.edges.len()
            invariant
                k <= self.edges.len(),
                forall|j: int| 0 <= j < k ==> !(self.edges@[j].0 as int == from as int && self.edges@[j].1 as int == to as int),
            decreases self.edges.len() - k,
        {
            let e = self.edges[k];
            if e.0 as usize == from && e.1 as usize == to {
                return true;
            }
            k += 1;
        }
        false
    }

    /// The versions that one unconditional edge leads to from node `p`; `None`
    /// where such an edge names no node.
    pub fn unconditional_targets(&self, p: usize) -> (r: Option<Vec<String>>)
        ensures
            match r {
                Some(v) => targets(self.nodes@, self.edges@, p as int) == Some(v@),
                None => targets(self.nodes@, self.edges@, p as int) is None,
            },
    {
        let mut r: Vec<String> = Vec::new();
        let mut k: usize = 0;
        while k < self.edges.len()
            invariant
                k <= self.edges.len(),
                targets(self.nodes@, self.edges@.take(k as int), p as int) == Some(r@),
            decreases self.edges.len() - k,
        {
            assert(self.edges@.take(k + 1).drop_last() =~= self.edges@.take(k as int));
            let e = self.edges[k];
            if e.0 as usize == p {
                if e.1 as usize >= self.nodes.len() {
                    proof { lemma_targets_none(self.nodes@, self.edges@, k as int + 1, p as int); }
                    return None;
                }
                r.push(self.nodes[e.1 as usize].version.clone());
            }
            k += 1;
        }
        assert(self.edges@.take(k as int) =~= self.edges@);
        Some(r)
    }

    /// The targets of every conditional edge that starts at `from`, group by group.
    pub fn conditional_targets(&self, from: &String) -> (r: Vec<String>)
        ensures
            r@ == cond_targets(self.conditional_edges@, from@),
    {
        let mut r: Vec<String> = Vec::new();
        let mut i: usize = 0;
        while i < self.conditional_edges.len()
            invariant
                i <= self.conditional_edges.len(),
                r@ == cond_targets(self.conditional_edges@.take(i as int), from@),
            decreases self.conditional_edges.len() - i,
        {
            assert(self.conditional_edges@.take(i + 1).drop_last() =~= self.conditional_edges@.take(i as int));
            let es = &self.conditional_edges[i].edges;
            let ghost before = r@;
            let mut k: usize = 0;
            while k < es.len()
                invariant
                    k <= es.len(),
                    r@ == before + group_targets(es@.take(k as int), from@),
                decreases es.len() - k,
            {
                assert(es@.take(k + 1).drop_last() =~= es@.take(k as int));
                if es[k].from == *from {
                    r.push(es[k].to.clone());
                }
                k += 1;
            }
            assert(es@.take(k as int) =~= es@);
            i += 1;
        }
        assert(self.conditional_edges@.take(i as int) =~= self.conditional_edges@);
        r
    }

    /// The risks of every conditional edge that runs `from -> to`.
    pub fn risks_between(&self, from: &String, to: &String) -> (r: Vec<Risk>)
        ensures
            r@ == disclosed_risks(self.conditional_edges@, from@, to@),
    {
        let mut r: Vec<Risk> = Vec::new();
        let mut i: usize = 0;
        while i < self.conditional_edges.len()
            invariant
                i <= self.conditional_edges.len(),
                r@ == disclosed_risks(self.conditional_edges@.take(i as int), from@, to@),
            decreases self.conditional_edges.len() - i,
        {
            assert(self.conditional_edges@.take(i + 1).drop_last() =~= self.conditional_edges@.take(i as int));
            let group = &self.conditional_edges[i];
            let ghost before = r@;
            let mut k: usize = 0;
            while k < group.edges.len()
                invariant
                    k <= group.edges.len(),
                    r@ == before + group_risks(group.edges@.take(k as int), group.risks@, from@, to@),
                decreases group.edges.len() - k,
            {
                assert(group.edges@.take(k + 1).drop_last() =~= group.edges@.take(k as int));
                if group.edges[k].from == *from && group.edges[k].to == *to {
                    let ghost mid = r@;
                    let mut j: usize = 0;
                    while j < group.risks.len()
                        invariant
                            j <= group.risks.len(),
                            r@ == mid + group.risks@.take(j as int),
                        decreases group.risks.len() - j,
                    {
                        r.push(group.risks[j].duplicate());
                        assert(group.risks@.take(j + 1) =~= group.risks@.take(j as int).push(group.risks@[j as int]));
                        j += 1;
                    }
                    assert(group.risks@.take(j as int) =~= group.risks@);
                }
                k += 1;
            }
            assert(group.edges@.take(k as int) =~= group.edges@);
            i += 1;
        }
        assert(self.conditional_edges@.take(i as int) =~= self.conditional_edges@);
        r
    }
}

/// Where the first `n` nodes hold no match but node `n - 1` matches, that node is found.
pub proof fn lemma_find_prefix(nodes: Seq<Node>, n: int, v: Seq<char>)
    requires
        1 <= n <= nodes.len(),
        find_node(nodes.take(n - 1), v) is None,
        nodes[n - 1].version@ == v,
    ensures
        find_node(nodes, v) == Some(n - 1),
    decreases nodes.len() - n,
{
    assert(nodes.take(n).drop_last() =~= nodes.take(n - 1));
    if n < nodes.len() {
        assert(nodes.take(n + 1).drop_last() =~= nodes.take(n));
        lemma_find_found_extends(nodes, n + 1, v, n - 1);
    } else {
        assert(nodes.take(n) =~= nodes);
    }
}

/// A match found in a prefix stays the match of every longer prefix.
pub proof fn lemma_find_found_extends(nodes: Seq<Node>, n: int, v: Seq<char>, i: int)
    requires
        1 <= n <= nodes.len(),
        find_node(nodes.take(n - 1), v) == Some(i),
    ensures
        find_node(nodes, v) == Some(i),
    decreases nodes.len() - n,
{
    assert(nodes.take(n).drop_last() =~= nodes.take(n - 1));
    if n < nodes.len() {
        lemma_find_found_extends(nodes, n + 1, v, i);
    } else {
        assert(nodes.take(n) =~= nodes);
    }
}

/// A bad edge in a prefix makes the targets of every longer prefix undefined.
pub proof fn lemma_targets_none(nodes: Seq<Node>, edges: Seq<(u32, u32)>, n: int, p: int)
    requires
        1 <= n <= edges.len(),
        targets(nodes, edges.take(n), p) is None,
    ensures
        targets(nodes, edges, p) is None,
    decreases edges.len() - n,
{
    if n < edges.len() {
        assert(edges.take(n + 1).drop_last() =~= edges.take(n));
        lemma_targets_none(nodes, edges, n + 1, p);
    } else {
        assert(edges.take(n) =~= edges);
    }
}

} // verus!
