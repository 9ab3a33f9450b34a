use vstd::prelude::*;
use crate::graph::{ConditionalEdge, Edge, Graph, Node, Risk, cond_targets, disclosed_risks, find_node,
    group_risks, has_edge};
use crate::order::{lemma_sort_members, sort_by_version};
use crate::resolve::{
    PathModel, ResolveError, emitted, has_version, lemma_emitted_source, lemma_node_versions, pivot_spec, prune,
    resolve_spec, unique_versions,
};
use crate::version::{all_valid, max_version, semver_valid};

verus! {

/// Resolution is a function of the graph and the two version texts: two
/// resolutions of the same inputs agree.
pub proof fn law_deterministic(
    g: Graph,
    from: Seq<char>,
    to: Seq<char>,
    r1: Result<Option<PathModel>, ResolveError>,
    r2: Result<Option<PathModel>, ResolveError>,
)
    requires
        r1 == resolve_spec(g, from, to),
        r2 == resolve_spec(g, from, to),
    ensures
        r1 == r2,
{
}

/// Where no conditional edge starts at the starting version, there is no path.
pub proof fn law_no_path(g: Graph, from: Seq<char>, to: Seq<char>)
    requires
        cond_targets(g.conditional_edges@, from).len() == 0,
    ensures
        resolve_spec(g, from, to) == Ok::<Option<PathModel>, ResolveError>(None),
{
}

/// Every version that pruning keeps has a node, and that node has no
/// unconditional edge to node `h`.
proof fn lemma_prune_kept(nodes: Seq<Node>, edges: Seq<(u32, u32)>, vs: Seq<String>, h: int, kept: Seq<String>)
    requires
        prune(nodes, edges, vs, h) == Some(kept),
    ensures
        forall|j: int| 0 <= j < kept.len() ==> (#[trigger] find_node(nodes, kept[j]@)) is Some
            && !has_edge(edges, find_node(nodes, kept[j]@)->Some_0, h),
    decreases vs.len(),
{
    if vs.len() > 0 {
        let prev = prune(nodes, edges, vs.drop_last(), h)->Some_0;
        lemma_prune_kept(nodes, edges, vs.drop_last(), h, prev);
        assert forall|j: int| 0 <= j < kept.len() implies (#[trigger] find_node(nodes, kept[j]@)) is Some
            && !has_edge(edges, find_node(nodes, kept[j]@)->Some_0, h) by {
            if j < prev.len() {
                assert(kept[j] == prev[j]);
            }
        }
    }
}

/// No image of a resolved path is of a version whose node has an unconditional
/// edge straight to the newest version of the graph.
pub proof fn law_redundant_versions_pruned(g: Graph, from: Seq<char>, to: Seq<char>, m: PathModel, k: int)
    requires
        resolve_spec(g, from, to) == Ok::<Option<PathModel>, ResolveError>(Some(m)),
        0 <= k < m.images.len(),
    ensures
        find_node(g.nodes@, m.images[k].version@) is Some,
        find_node(g.nodes@, m.head@) is Some,
        !has_edge(
            g.edges@,
            find_node(g.nodes@, m.images[k].version@)->Some_0,
            find_node(g.nodes@, m.head@)->Some_0,
        ),
{
    let cands = cond_targets(g.conditional_edges@, from);
    let last = max_version(cands);
    let p = pivot_spec(g.nodes@, last@, to)->Some_0;
    let h = find_node(g.nodes@, m.head@)->Some_0;
    let ts = crate::graph::targets(g.nodes@, g.edges@, p)->Some_0;
    let kept = prune(g.nodes@, g.edges@, ts.push(last), h)->Some_0;
    let e = emitted(g.nodes@, kept);
    assert(m.images == sort_by_version(e));
    lemma_sort_members(e);
    assert(m.images.contains(m.images[k]));
    assert(e.contains(m.images[k]));
    let a = choose|a: int| 0 <= a < e.len() && e[a] == m.images[k];
    lemma_emitted_source(g.nodes@, kept);
    let j = choose|j: int| 0 <= j < g.nodes@.len() && g.nodes@[j].version == (#[trigger] e[a]).version
        && g.nodes@[j].payload == Some(e[a].image) && has_version(kept, g.nodes@[j].version@);
    let q = choose|q: int| 0 <= q < kept.len() && (#[trigger] kept[q])@ == g.nodes@[j].version@;
    lemma_prune_kept(g.nodes@, g.edges@, ts.push(last), h, kept);
    assert(find_node(g.nodes@, kept[q]@) is Some);
}

/// Each image of a resolved path is the payload of a node of that version; so,
/// where versions are unique, a node without a payload contributes no image.
pub proof fn law_payload_absence_skipped(g: Graph, from: Seq<char>, to: Seq<char>, m: PathModel, k: int)
    requires
        resolve_spec(g, from, to) == Ok::<Option<PathModel>, ResolveError>(Some(m)),
        0 <= k < m.images.len(),
    ensures
        exists|j: int| 0 <= j < g.nodes@.len() && g.nodes@[j].version == m.images[k].version
            && (#[trigger] g.nodes@[j]).payload == Some(m.images[k].image),
        unique_versions(g.nodes@) ==> forall|i: int| 0 <= i < g.nodes@.len() && (#[trigger] g.nodes@[i]).payload is None
            ==> g.nodes@[i].version@ != m.images[k].version@,
{
    let cands = cond_targets(g.conditional_edges@, from);
    let last = max_version(cands);
    let p = pivot_spec(g.nodes@, last@, to)->Some_0;
    let h = find_node(g.nodes@, m.head@)->Some_0;
    let ts = crate::graph::targets(g.nodes@, g.edges@, p)->Some_0;
    let kept = prune(g.nodes@, g.edges@, ts.push(last), h)->Some_0;
    let e = emitted(g.nodes@, kept);
    lemma_sort_members(e);
    assert(m.images.contains(m.images[k]));
    assert(e.contains(m.images[k]));
    let a = choose|a: int| 0 <= a < e.len() && e[a] == m.images[k];
    lemma_emitted_source(g.nodes@, kept);
    let j = choose|j: int| 0 <= j < g.nodes@.len() && g.nodes@[j].version == (#[trigger] e[a]).version
        && g.nodes@[j].payload == Some(e[a].image) && has_version(kept, g.nodes@[j].version@);
    assert(g.nodes@[j].payload == Some(m.images[k].image));
    if unique_versions(g.nodes@) {
        assert forall|i: int| 0 <= i < g.nodes@.len() && (#[trigger] g.nodes@[i]).payload is None
            implies g.nodes@[i].version@ != m.images[k].version@ by {
            if i != j {
                assert(g.nodes@[i].version@ != g.nodes@[j].version@);
            }
        }
    }
}

/// A risk of a group holding an edge in its list is disclosed for that edge.
proof fn lemma_group_risk(es: Seq<Edge>, risks: Seq<Risk>, from: Seq<char>, to: Seq<char>, e: int, k: int)
    requires
        0 <= e < es.len(),
        es[e].from@ == from,
        es[e].to@ == to,
        0 <= k < risks.len(),
    ensures
        group_risks(es, risks, from, to).contains(risks[k]),
    decreases es.len(),
{
    let rest = group_risks(es.drop_last(), risks, from, to);
    if e < es.len() - 1 {
        assert(es.drop_last()[e] == es[e]);
        lemma_group_risk(es.drop_last(), risks, from, to, e, k);
        let i = choose|i: int| 0 <= i < rest.len() && rest[i] == risks[k];
        if es.last().from@ == from && es.last().to@ == to {
            assert((rest + risks)[i] == risks[k]);
        }
    } else {
        assert((rest + risks)[rest.len() + k] == risks[k]);
    }
}

/// A risk disclosed in one group is disclosed among all groups.
proof fn lemma_disclosed(cs: Seq<ConditionalEdge>, from: Seq<char>, to: Seq<char>, c: int, r: Risk)
    requires
        0 <= c < cs.len(),
        group_risks(cs[c].edges@, cs[c].risks@, from, to).contains(r),
    ensures
        disclosed_risks(cs, from, to).contains(r),
    decreases cs.len(),
{
    let rest = disclosed_risks(cs.drop_last(), from, to);
    let here = group_risks(cs.last().edges@, cs.last().risks@, from, to);
    if c < cs.len() - 1 {
        assert(cs.drop_last()[c] == cs[c]);
        lemma_disclosed(cs.drop_last(), from, to, c, r);
        let i = choose|i: int| 0 <= i < rest.len() && rest[i] == r;
        assert((rest + here)[i] == r);
    } else {
        let i = choose|i: int| 0 <= i < here.len() && here[i] == r;
        assert((rest + here)[rest.len() + i] == r);
    }
}

/// Every risk of a conditional edge from the starting version to the chosen
/// stepping stone is among the risks that the resolution discloses.
pub proof fn law_risks_surfaced(g: Graph, from: Seq<char>, to: Seq<char>, m: PathModel, c: int, e: int, k: int)
    requires
        resolve_spec(g, from, to) == Ok::<Option<PathModel>, ResolveError>(Some(m)),
        0 <= c < g.conditional_edges@.len(),
        0 <= e < g.conditional_edges@[c].edges@.len(),
        g.conditional_edges@[c].edges@[e].from@ == from,
        g.conditional_edges@[c].edges@[e].to@ == m.stepping_stone@,
        0 <= k < g.conditional_edges@[c].risks@.len(),
    ensures
        m.risks.contains(g.conditional_edges@[c].risks@[k]),
{
    let cs = g.conditional_edges@;
    lemma_group_risk(cs[c].edges@, cs[c].risks@, from, m.stepping_stone@, e, k);
    lemma_disclosed(cs, from, m.stepping_stone@, c, cs[c].risks@[k]);
}

/// Once the starting version has valid conditional targets and the stepping
/// stone or the target is a node, a node whose version is not valid version
/// text fails the resolution with `InvalidVersion`.
pub proof fn law_malformed_version(g: Graph, from: Seq<char>, to: Seq<char>, i: int)
    requires
        all_valid(cond_targets(g.conditional_edges@, from)),
        cond_targets(g.conditional_edges@, from).len() > 0,
        pivot_spec(g.nodes@, max_version(cond_targets(g.conditional_edges@, from))@, to) is Some,
        0 <= i < g.nodes@.len(),
        !semver_valid(g.nodes@[i].version@),
    ensures
        resolve_spec(g, from, to) == Err::<Option<PathModel>, ResolveError>(ResolveError::InvalidVersion),
{
    lemma_node_versions(g.nodes@);
    assert(crate::graph::node_versions(g.nodes@)[i] == g.nodes@[i].version);
}

} // verus!
