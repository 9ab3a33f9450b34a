use vstd::prelude::*;
use crate::graph::{
    Graph, Node, Risk, UpgradeResult, cond_targets, disclosed_risks, find_node, has_edge, node_versions,
    targets,
};
use crate::order::{distinct_versions, sort_by_version, sort_records, version_sorted};
use crate::version::{all_valid, check_all_valid, highest_version, max_version, semver_valid};

verus! {

/// Why a resolution could not be completed.
#[derive(Debug, Clone, Copy, PartialEq, Eq, Structural)]
pub enum ResolveError {
    /// A version text does not parse as a semantic version.
    InvalidVersion,
    /// A node that the resolution needs is not in the graph.
    NodeNotFound,
    /// The graph has no nodes.
    EmptyGraph,
}

/// The outcome of a resolution.
#[derive(Debug)]
pub enum Resolution {
    /// No conditional edge starts at the starting version.
    NoPath,
    /// A path: the stepping stone chosen, the newest version of the graph, the
    /// images to mirror in version order, and the risks of the edge taken.
    Path { stepping_stone: String, head: String, images: Vec<UpgradeResult>, risks: Vec<Risk> },
}

/// What a resolved path holds, in mathematical terms.
pub struct PathModel {
    pub stepping_stone: String,
    pub head: String,
    pub images: Seq<UpgradeResult>,
    pub risks: Seq<Risk>,
}

impl Resolution {
    /// The resolved path, or `None` where there is none.
    pub open spec fn model(&self) -> Option<PathModel> {
        match self {
            Resolution::NoPath => None,
            Resolution::Path { stepping_stone, head, images, risks } => Some(
                PathModel { stepping_stone: *stepping_stone, head: *head, images: images@, risks: risks@ },
            ),
        }
    }

    /// The images of the path as a plain list; where there is no path, a single
    /// record with an empty version and an empty image.
    pub fn records(self) -> (r: Vec<UpgradeResult>)
        ensures
            match self {
                Resolution::NoPath => r@.len() == 1 && r@[0].version@ == Seq::<char>::empty()
                    && r@[0].image@ == Seq::<char>::empty(),
                Resolution::Path { images, .. } => r@ == images@,
            },
    {
        match self {
            Resolution::NoPath => vec![UpgradeResult { version: String::new(), image: String::new() }],
            Resolution::Path { images, .. } => images,
        }
    }
}

/// Some entry of `s` has the text `v`.
pub open spec fn has_version(s: Seq<String>, v: Seq<char>) -> bool {
    exists|j: int| 0 <= j < s.len() && (#[trigger] s[j])@ == v
}

/// No two entries of `s` have the same text.
pub open spec fn no_duplicates(s: Seq<String>) -> bool {
    forall|i: int, j: int| 0 <= i < s.len() && 0 <= j < s.len() && i != j ==> (#[trigger] s[i])@ != (#[trigger] s[j])@
}

/// Some node has the version `v`.
pub open spec fn is_node_version(nodes: Seq<Node>, v: String) -> bool {
    exists|j: int| 0 <= j < nodes.len() && (#[trigger] nodes[j]).version == v
}

/// No two nodes have the same version text.
pub open spec fn unique_versions(nodes: Seq<Node>) -> bool {
    forall|i: int, j: int| 0 <= i < nodes.len() && 0 <= j < nodes.len() && i != j
        ==> (#[trigger] nodes[i]).version@ != (#[trigger] nodes[j]).version@
}

/// The entries of `vs` whose node has no unconditional edge to node `h`, in
/// order; `None` where an entry is not the version of any node.
pub open spec fn prune(nodes: Seq<Node>, edges: Seq<(u32, u32)>, vs: Seq<String>, h: int) -> Option<Seq<String>>
    decreases vs.len(),
{
    if vs.len() == 0 {
        Some(Seq::empty())
    } else {
        match prune(nodes, edges, vs.drop_last(), h) {
            None => None,
            Some(kept) => match find_node(nodes, vs.last()@) {
                None => None,
                Some(i) => if has_edge(edges, i, h) {
                    Some(kept)
                } else {
                    Some(kept.push(vs.last()))
                },
            },
        }
    }
}

/// One record for each node, in node order, whose version is among `kept` and
/// which has a payload.
pub open spec fn emitted(nodes: Seq<Node>, kept: Seq<String>) -> Seq<UpgradeResult>
    decreases nodes.len(),
{
    if nodes.len() == 0 {
        Seq::empty()
    } else {
        let rest = emitted(nodes.drop_last(), kept);
        let n = nodes.last();
        if has_version(kept, n.version@) && n.payload is Some {
            rest.push(UpgradeResult { version: n.version, image: n.payload->Some_0 })
        } else {
            rest
        }
    }
}

/// The newest version of the graph, or why there is none.
pub open spec fn head_spec(nodes: Seq<Node>) -> Result<String, ResolveError> {
    if nodes.len() == 0 {
        Err(ResolveError::EmptyGraph)
    } else if !all_valid(node_versions(nodes)) {
        Err(ResolveError::InvalidVersion)
    } else {
        Ok(max_version(node_versions(nodes)))
    }
}

/// The node that the path turns on: that of the stepping stone, else that of
/// the target.
pub open spec fn pivot_spec(nodes: Seq<Node>, last: Seq<char>, to: Seq<char>) -> Option<int> {
    match find_node(nodes, last) {
        Some(i) => Some(i),
        None => find_node(nodes, to),
    }
}

/// What follows the choice of stepping stone `last`, its pivot node `p` and
/// the newest version `head`: the unsorted images of the versions that survive
/// pruning, and the risks of the edge `from -> last`.
pub open spec fn through_spec(g: Graph, from: Seq<char>, last: String, p: int, head: String) -> Result<
    (Seq<UpgradeResult>, Seq<Risk>),
    ResolveError,
> {
    match find_node(g.nodes@, head@) {
        None => Err(ResolveError::NodeNotFound),
        Some(h) => match targets(g.nodes@, g.edges@, p) {
            None => Err(ResolveError::NodeNotFound),
            Some(ts) => match prune(g.nodes@, g.edges@, ts.push(last), h) {
                None => Err(ResolveError::NodeNotFound),
                Some(kept) => Ok((emitted(g.nodes@, kept), disclosed_risks(g.conditional_edges@, from, last@))),
            },
        },
    }
}

/// The resolution of a path from `from` towards `to`.
pub open spec fn resolve_spec(g: Graph, from: Seq<char>, to: Seq<char>) -> Result<Option<PathModel>, ResolveError> {
    let cands = cond_targets(g.conditional_edges@, from);
    if !all_valid(cands) {
        Err(ResolveError::InvalidVersion)
    } else if cands.len() == 0 {
        Ok(None)
    } else {
        let last = max_version(cands);
        match pivot_spec(g.nodes@, last@, to) {
            None => Err(ResolveError::NodeNotFound),
            Some(p) => match head_spec(g.nodes@) {
                Err(e) => Err(e),
                Ok(head) => match through_spec(g, from, last, p, head) {
                    Err(e) => Err(e),
                    Ok(found) => Ok(
                        Some(
                            PathModel {
                                stepping_stone: last,
                                head: head,
                                images: sort_by_version(found.0),
                                risks: found.1,
                            },
                        ),
                    ),
                },
            },
        }
    }
}

/// Whether some entry of `v` has the text of `s`.
pub fn contains_version(v: &Vec<String>, s: &String) -> (r: bool)
    ensures
        r == has_version(v@, s@),
{
    let mut i: usize = 0;
    while i < v.len()
        invariant
            i <= v.len(),
            forall|j: int| 0 <= j < i ==> (#[trigger] v@[j])@ != s@,
        decreases v.len() - i,
    {
        if v[i] == *s {
            return true;
        }
        i += 1;
    }
    false
}

/// The entries of `v` without repeats.
pub fn dedup_versions(v: &Vec<String>) -> (r: Vec<String>)
    ensures
        no_duplicates(r@),
        forall|s: Seq<char>| has_version(r@, s) <==> has_version(v@, s),
{
    let mut r: Vec<String> = Vec::new();
    let mut i: usize = 0;
    while i < v.len()
        invariant
            i <= v.len(),
            no_duplicates(r@),
            forall|s: Seq<char>| #![trigger has_version(r@, s)] #![trigger has_version(v@.take(i as int), s)]
                has_version(r@, s) <==> has_version(v@.take(i as int), s),
        decreases v.len() - i,
    {
        let ghost before = r@;
        let found = contains_version(&r, &v[i]);
        if !found {
            r.push(v[i].clone());
            assert(r@ == before.push(v@[i as int]));
        }
        assert(forall|j: int| 0 <= j < before.len() ==> r@[j] == before[j]);
        assert(found ==> has_version(before, v@[i as int]@));
        assert forall|s: Seq<char>| has_version(r@, s) <==> has_version(v@.take(i + 1), s) by {
            if has_version(r@, s) {
                let j = choose|j: int| 0 <= j < r@.len() && (#[trigger] r@[j])@ == s;
                if j < before.len() {
                    assert(before[j] == r@[j]);
                    assert(has_version(before, s));
                    let k = choose|k: int| 0 <= k < i && (#[trigger] v@.take(i as int)[k])@ == s;
                    assert(v@.take(i + 1)[k] == v@[k]);
                } else {
                    assert(v@.take(i + 1)[i as int] == v@[i as int]);
                }
            }
            if has_version(v@.take(i + 1), s) {
                let k = choose|k: int| 0 <= k < i + 1 && (#[trigger] v@.take(i + 1)[k])@ == s;
                if k < i {
                    assert(v@.take(i as int)[k] == v@[k]);
                    assert(has_version(v@.take(i as int), s));
                    let j = choose|j: int| 0 <= j < before.len() && (#[trigger] before[j])@ == s;
                    assert(r@[j] == before[j]);
                } else if has_version(before, s) {
                    let j = choose|j: int| 0 <= j < before.len() && (#[trigger] before[j])@ == s;
                    assert(r@[j] == before[j]);
                } else {
                    assert(!found);
                    assert(r@[before.len() as int] == v@[i as int]);
                }
            }
        }
        i += 1;
    }
    assert(v@.take(i as int) =~= v@);
    r
}

/// Each emitted record comes from a node with that version and that payload,
/// whose version is among `kept`.
pub proof fn lemma_emitted_source(nodes: Seq<Node>, kept: Seq<String>)
    ensures
        forall|a: int| 0 <= a < emitted(nodes, kept).len() ==> exists|j: int| 0 <= j < nodes.len()
            && nodes[j].version == (#[trigger] emitted(nodes, kept)[a]).version
            && nodes[j].payload == Some(emitted(nodes, kept)[a].image)
            && has_version(kept, nodes[j].version@),
    decreases nodes.len(),
{
    if nodes.len() > 0 {
        let t = nodes.drop_last();
        lemma_emitted_source(t, kept);
        let e = emitted(nodes, kept);
        assert forall|a: int| 0 <= a < e.len() implies exists|j: int| 0 <= j < nodes.len()
            && nodes[j].version == (#[trigger] e[a]).version
            && nodes[j].payload == Some(e[a].image)
            && has_version(kept, nodes[j].version@) by {
            if a < emitted(t, kept).len() {
                assert(e[a] == emitted(t, kept)[a]);
                let j = choose|j: int| 0 <= j < t.len() && t[j].version == (#[trigger] emitted(t, kept)[a]).version
                    && t[j].payload == Some(emitted(t, kept)[a].image) && has_version(kept, t[j].version@);
                assert(nodes[j] == t[j]);
            } else {
                assert(nodes[nodes.len() - 1] == nodes.last());
            }
        }
    }
}

/// Nodes with distinct versions emit records with distinct versions.
pub proof fn lemma_emitted_distinct(nodes: Seq<Node>, kept: Seq<String>)
    requires
        unique_versions(nodes),
    ensures
        distinct_versions(emitted(nodes, kept)),
    decreases nodes.len(),
{
    if nodes.len() > 0 {
        let t = nodes.drop_last();
        assert(unique_versions(t)) by {
            assert forall|i: int, j: int| 0 <= i < t.len() && 0 <= j < t.len() && i != j
                implies (#[trigger] t[i]).version@ != (#[trigger] t[j]).version@ by {
                assert(t[i] == nodes[i] && t[j] == nodes[j]);
            }
        }
        lemma_emitted_distinct(t, kept);
        lemma_emitted_source(t, kept);
        let e = emitted(nodes, kept);
        let et = emitted(t, kept);
        if e.len() > et.len() {
            assert forall|a: int, b: int| 0 <= a < e.len() && 0 <= b < e.len() && a != b
                implies #[trigger] e[a].version@ != #[trigger] e[b].version@ by {
                if a < et.len() && b < et.len() {
                    assert(e[a] == et[a] && e[b] == et[b]);
                } else {
                    let c = if a < et.len() { a } else { b };
                    assert(e[c] == et[c]);
                    let j = choose|j: int| 0 <= j < t.len() && t[j].version == (#[trigger] et[c]).version
                        && t[j].payload == Some(et[c].image) && has_version(kept, t[j].version@);
                    assert(nodes[j] == t[j]);
                    assert(nodes[j].version@ != nodes[nodes.len() - 1].version@);
                }
            }
        }
    }
}

/// Emission reads `kept` only through which texts it holds.
pub proof fn lemma_emitted_members(nodes: Seq<Node>, a: Seq<String>, b: Seq<String>)
    requires
        forall|s: Seq<char>| has_version(a, s) <==> has_version(b, s),
    ensures
        emitted(nodes, a) == emitted(nodes, b),
    decreases nodes.len(),
{
    if nodes.len() > 0 {
        lemma_emitted_members(nodes.drop_last(), a, b);
        assert(has_version(a, nodes.last().version@) == has_version(b, nodes.last().version@));
    }
}

impl Graph {
    /// The newest version among the nodes.
    pub fn head_version(&self) -> (r: Result<String, ResolveError>)
        ensures
            r == head_spec(self.nodes@),
    {
        if self.nodes.len() == 0 {
            return Err(ResolveError::EmptyGraph);
        }
        let versions = self.versions();
        if !check_all_valid(&versions) {
            return Err(ResolveError::InvalidVersion);
        }
        Ok(highest_version(&versions))
    }

    /// The entries of `vs` whose node has no unconditional edge to node `h`;
    /// `None` where an entry is not the version of any node.
    pub fn prune_to_head(&self, vs: &Vec<String>, h: usize) -> (r: Option<Vec<String>>)
        ensures
            match r {
                Some(k) => prune(self.nodes@, self.edges@, vs@, h as int) == Some(k@),
                None => prune(self.nodes@, self.edges@, vs@, h as int) is None,
            },
    {
        let mut kept: Vec<String> = Vec::new();
        let mut i: usize = 0;
        while i < vs.len()
            invariant
                i <= vs.len(),
                prune(self.nodes@, self.edges@, vs@.take(i as int), h as int) == Some(kept@),
            decreases vs.len() - i,
        {
            assert(vs@.take(i + 1).drop_last() =~= vs@.take(i as int));
            match self.find_node_index(&vs[i]) {
                None => {
                    proof { lemma_prune_none(self.nodes@, self.edges@, vs@, i as int + 1, h as int); }
                    return None;
                },
                Some(k) => {
                    if !self.has_direct_edge(k, h) {
                        kept.push(vs[i].clone());
                    }
                },
            }
            i += 1;
        }
        assert(vs@.take(i as int) =~= vs@);
        Some(kept)
    }

    /// One record for each node, in node order, whose version is among `kept`
    /// and which has a payload.
    pub fn images_for(&self, kept: &Vec<String>) -> (r: Vec<UpgradeResult>)
        ensures
            r@ == emitted(self.nodes@, kept@),
    {
        let mut r: Vec<UpgradeResult> = Vec::new();
        let mut i: usize = 0;
        while i < self.nodes.len()
            invariant
                i <= self.nodes.len(),
                r@ == emitted(self.nodes@.take(i as int), kept@),
            decreases self.nodes.len() - i,
        {
            assert(self.nodes@.take(i + 1).drop_last() =~= self.nodes@.take(i as int));
            let node = &self.nodes[i];
            if contains_version(kept, &node.version) {
                match &node.payload {
                    Some(image) => {
                        r.push(UpgradeResult { version: node.version.clone(), image: image.clone() });
                    },
                    None => {},
                }
            }
            i += 1;
        }
        assert(self.nodes@.take(i as int) =~= self.nodes@);
        r
    }
}

/// A failed lookup in a prefix fails the pruning of every longer prefix.
pub proof fn lemma_prune_none(nodes: Seq<Node>, edges: Seq<(u32, u32)>, vs: Seq<String>, n: int, h: int)
    requires
        1 <= n <= vs.len(),
        prune(nodes, edges, vs.take(n), h) is None,
    ensures
        prune(nodes, edges, vs, h) is None,
    decreases vs.len() - n,
{
    if n < vs.len() {
        assert(vs.take(n + 1).drop_last() =~= vs.take(n));
        lemma_prune_none(nodes, edges, vs, n + 1, h);
    } else {
        assert(vs.take(n) =~= vs);
    }
}

impl Graph {
    /// Resolves the images needed to upgrade from `from_version` towards
    /// `to_version`: the furthest conditional target of `from_version` is the
    /// stepping stone; its node (else the target's) supplies the unconditional
    /// targets; every version whose node leads straight to the newest version is
    /// dropped; the rest are looked up for images and ordered by version.
    pub fn get_upgrade_path(&self, from_version: &String, to_version: &String) -> (r: Result<Resolution, ResolveError>)
        ensures
            match r {
                Ok(res) => resolve_spec(*self, from_version@, to_version@) == Ok::<Option<PathModel>, ResolveError>(res.model()),
                Err(e) => resolve_spec(*self, from_version@, to_version@) == Err::<Option<PathModel>, ResolveError>(e),
            },
            r matches Ok(Resolution::Path { images, .. }) ==> version_sorted(images@),
            unique_versions(self.nodes@) ==> (r matches Ok(Resolution::Path { images, .. }) ==> distinct_versions(images@)),
    {
        let cands = self.conditional_targets(from_version);
        if !check_all_valid(&cands) {
            return Err(ResolveError::InvalidVersion);
        }
        if cands.len() == 0 {
            return Ok(Resolution::NoPath);
        }
        let last = highest_version(&cands);
        let pivot = match self.find_node_index(&last) {
            Some(i) => i,
            None => match self.find_node_index(to_version) {
                Some(i) => i,
                None => {
                    return Err(ResolveError::NodeNotFound);
                },
            },
        };
        let head = match self.head_version() {
            Ok(v) => v,
            Err(e) => {
                return Err(e);
            },
        };
        let (found, risks) = match self.images_through(from_version, &last, pivot, &head) {
            Ok(f) => f,
            Err(e) => {
                return Err(e);
            },
        };
        proof {
            lemma_node_versions(self.nodes@);
            assert forall|a: int| 0 <= a < found@.len() implies semver_valid(#[trigger] found@[a].version@) by {
                assert(is_node_version(self.nodes@, found@[a].version));
                let j = choose|j: int| 0 <= j < self.nodes@.len() && (#[trigger] self.nodes@[j]).version == found@[a].version;
                assert(node_versions(self.nodes@)[j] == self.nodes@[j].version);
            }
        }
        let images = sort_records(found);
        Ok(Resolution::Path { stepping_stone: last, head, images, risks })
    }

    /// Given the stepping stone `last`, its pivot node `pivot` and the newest
    /// version `head`: the images, in node order, of the unconditional targets
    /// of the pivot and of `last` that have no unconditional edge to `head`'s
    /// node, and the risks of the conditional edges `from_version -> last`.
    pub fn images_through(&self, from_version: &String, last: &String, pivot: usize, head: &String) -> (r: Result<
        (Vec<UpgradeResult>, Vec<Risk>),
        ResolveError,
    >)
        ensures
            match r {
                Ok((images, risks)) => through_spec(*self, from_version@, *last, pivot as int, *head) == Ok::<
                    (Seq<UpgradeResult>, Seq<Risk>),
                    ResolveError,
                >((images@, risks@)),
                Err(e) => through_spec(*self, from_version@, *last, pivot as int, *head) == Err::<
                    (Seq<UpgradeResult>, Seq<Risk>),
                    ResolveError,
                >(e),
            },
            r matches Ok((images, _)) ==> forall|a: int| 0 <= a < images@.len() ==> #[trigger] is_node_version(self.nodes@, images@[a].version),
            unique_versions(self.nodes@) ==> (r matches Ok((images, _)) ==> distinct_versions(images@)),
    {
        let head_index = match self.find_node_index(head) {
            Some(i) => i,
            None => {
                return Err(ResolveError::NodeNotFound);
            },
        };
        let mut provisional = match self.unconditional_targets(pivot) {
            Some(v) => v,
            None => {
                return Err(ResolveError::NodeNotFound);
            },
        };
        provisional.push(last.clone());
        let risks = self.risks_between(from_version, last);
        let kept = match self.prune_to_head(&provisional, head_index) {
            Some(k) => k,
            None => {
                return Err(ResolveError::NodeNotFound);
            },
        };
        let unique = dedup_versions(&kept);
        let found = self.images_for(&unique);
        proof {
            lemma_emitted_members(self.nodes@, unique@, kept@);
            lemma_emitted_source(self.nodes@, kept@);
            if unique_versions(self.nodes@) {
                lemma_emitted_distinct(self.nodes@, kept@);
            }
            assert forall|a: int| 0 <= a < found@.len() implies #[trigger] is_node_version(self.nodes@, found@[a].version) by {
                let j = choose|j: int| 0 <= j < self.nodes@.len() && self.nodes@[j].version == (#[trigger] found@[a]).version
                    && self.nodes@[j].payload == Some(found@[a].image) && has_version(kept@, self.nodes@[j].version@);
                assert(self.nodes@[j].version == found@[a].version);
            }
        }
        Ok((found, risks))
    }
}

/// The version list of the nodes lines up with the nodes.
pub proof fn lemma_node_versions(nodes: Seq<Node>)
    ensures
        node_versions(nodes).len() == nodes.len(),
        forall|j: int| 0 <= j < nodes.len() ==> #[trigger] node_versions(nodes)[j] == nodes[j].version,
    decreases nodes.len(),
{
    if nodes.len() > 0 {
        lemma_node_versions(nodes.drop_last());
        assert forall|j: int| 0 <= j < nodes.len() implies #[trigger] node_versions(nodes)[j] == nodes[j].version by {
            if j < nodes.len() - 1 {
                assert(node_versions(nodes.drop_last())[j] == nodes.drop_last()[j].version);
            }
        }
    }
}

} // verus!
