use vstd::prelude::*;
use crate::record::NameData;
use crate::groups::group_key;
use crate::groups::group_keys;
use crate::groups::group_size;
use crate::groups::in_group;
use crate::groups::lemma_group_keys_no_dup;
use crate::groups::lemma_group_keys_size;
use crate::groups::lemma_group_size_bounds;
use crate::groups::lemma_pair_sum_append;
use crate::groups::ordered_pair_sum;
use crate::groups::same_group;

verus! {

/// A directed link between two node indices, meaning that the two
/// records share gender and ethnicity.
#[derive(Debug, Clone, Copy, PartialEq, Eq, Structural)]
pub struct Edge {
    pub source: usize,
    pub target: usize,
}

/// An append-only node list and edge list. Node indices are assigned
/// in insertion order and never change.
#[derive(Debug)]
pub struct Graph {
    pub nodes: Vec<NameData>,
    pub edges: Vec<Edge>,
}

impl Graph {
    /// Every edge references node indices that exist.
    pub open spec fn wf(&self) -> bool {
        forall|k: int|
            0 <= k < self.edges@.len() ==> (#[trigger] self.edges@[k]).source < self.nodes@.len()
                && self.edges@[k].target < self.nodes@.len()
    }

    pub fn new() -> (g: Graph)
        ensures
            g.nodes@ =~= Seq::<NameData>::empty(),
            g.edges@ =~= Seq::<Edge>::empty(),
            g.wf(),
            built_by_protocol(g),
    {
        let g = Graph { nodes: Vec::new(), edges: Vec::new() };
        proof {
            assert(g.edges@ =~= protocol_edges(g.nodes@));
        }
        g
    }

    /// Appends a node and returns its index, the prior node count.
    /// Always succeeds.
    pub fn add_node(&mut self, node: NameData) -> (idx: usize)
        ensures
            final(self).nodes@ == old(self).nodes@.push(node),
            final(self).edges@ == old(self).edges@,
            idx == old(self).nodes@.len(),
            old(self).wf() ==> final(self).wf(),
    {
        let idx = self.nodes.len();
        self.nodes.push(node);
        proof {
            assert(old(self).wf() ==> self.wf()) by {
                if old(self).wf() {
                    assert(forall|k: int|
                        0 <= k < self.edges@.len() ==> (#[trigger] self.edges@[k]).source
                            < self.nodes@.len() && self.edges@[k].target < self.nodes@.len());
                }
            }
        }
        idx
    }

    /// Appends a directed edge. The operation itself performs no bounds
    /// validation: passing valid indices is the caller's charge, and a
    /// graph stays well formed only when they are in range.
    pub fn add_edge(&mut self, source: usize, target: usize)
        ensures
            final(self).edges@ == old(self).edges@.push(Edge { source, target }),
            final(self).nodes@ == old(self).nodes@,
            old(self).wf() && source < old(self).nodes@.len() && target < old(self).nodes@.len()
                ==> final(self).wf(),
    {
        self.edges.push(Edge { source, target });
        proof {
            if old(self).wf() && source < old(self).nodes@.len() && target
                < old(self).nodes@.len() {
                assert forall|k: int| 0 <= k < self.edges@.len() implies (
                #[trigger] self.edges@[k]).source < self.nodes@.len() && self.edges@[k].target
                    < self.nodes@.len() by {
                    if k < old(self).edges@.len() {
                        assert(old(self).edges@[k].source < old(self).nodes@.len());
                    }
                }
                assert(self.wf());
            }
        }
    }

    pub fn node_count(&self) -> (n: usize)
        ensures
            n == self.nodes@.len(),
    {
        self.nodes.len()
    }

    pub fn edge_count(&self) -> (n: usize)
        ensures
            n == self.edges@.len(),
    {
        self.edges.len()
    }

    /// Bounds-checked node lookup.
    pub fn get_node(&self, index: usize) -> (r: Option<&NameData>)
        ensures
            match r {
                Some(nd) => index < self.nodes@.len() && *nd == self.nodes@[index as int],
                None => index >= self.nodes@.len(),
            },
    {
        if index < self.nodes.len() {
            Some(&self.nodes[index])
        } else {
            None
        }
    }

    /// Decides well-formedness at run time, so that an unverified
    /// caller can guard a traversal.
    pub fn is_well_formed(&self) -> (r: bool)
        ensures
            r == self.wf(),
    {
        let n = self.nodes.len();
        let m = self.edges.len();
        let mut k: usize = 0;
        while k < m
            invariant
                k <= m,
                m == self.edges@.len(),
                n == self.nodes@.len(),
                forall|j: int|
                    0 <= j < k ==> (#[trigger] self.edges@[j]).source < n && self.edges@[j].target
                        < n,
            decreases m - k,
        {
            if self.edges[k].source >= n || self.edges[k].target >= n {
                return false;
            }
            k += 1;
        }
        true
    }
}

/// The edges that the linking protocol appends when `rec` arrives and
/// the prior nodes are `prior`: one edge from each prior group mate of
/// `rec` to the new index `tgt`, in index order.
pub open spec fn link_edges(prior: Seq<NameData>, rec: NameData, tgt: usize) -> Seq<Edge>
    decreases prior.len(),
{
    if prior.len() == 0 {
        Seq::empty()
    } else {
        link_edges(prior.drop_last(), rec, tgt) + if same_group(prior.last(), rec) {
            seq![Edge { source: (prior.len() - 1) as usize, target: tgt }]
        } else {
            Seq::empty()
        }
    }
}

pub proof fn lemma_link_edges_props(prior: Seq<NameData>, rec: NameData, tgt: usize)
    requires
        prior.len() <= usize::MAX,
    ensures
        link_edges(prior, rec, tgt).len() == group_size(prior, group_key(rec)),
        forall|k: int|
            0 <= k < link_edges(prior, rec, tgt).len() ==> (#[trigger] link_edges(
                prior,
                rec,
                tgt,
            )[k]).source < prior.len() && link_edges(prior, rec, tgt)[k].target == tgt
                && same_group(prior[link_edges(prior, rec, tgt)[k].source as int], rec),
    decreases prior.len(),
{
    if prior.len() > 0 {
        let d = prior.drop_last();
        lemma_link_edges_props(d, rec, tgt);
        assert(same_group(prior.last(), rec) <==> in_group(prior.last(), group_key(rec)));
        assert(forall|i: int| 0 <= i < d.len() ==> d[i] == #[trigger] prior[i]);
        let l = link_edges(prior, rec, tgt);
        let ld = link_edges(d, rec, tgt);
        assert forall|k: int|
            0 <= k < l.len() implies (#[trigger] l[k]).source < prior.len() && l[k].target == tgt
            && same_group(prior[l[k].source as int], rec) by {
            if k < ld.len() {
                assert(l[k] == ld[k]);
                assert(same_group(d[ld[k].source as int], rec));
            } else {
                assert(same_group(prior.last(), rec));
                assert(l[k] == Edge { source: (prior.len() - 1) as usize, target: tgt });
                assert((prior.len() - 1) as usize == prior.len() - 1);
            }
        }
    }
}

/// The full edge sequence of a graph grown from nothing by the linking
/// protocol alone.
pub open spec fn protocol_edges(nodes: Seq<NameData>) -> Seq<Edge>
    decreases nodes.len(),
{
    if nodes.len() == 0 {
        Seq::empty()
    } else {
        protocol_edges(nodes.drop_last()) + link_edges(
            nodes.drop_last(),
            nodes.last(),
            (nodes.len() - 1) as usize,
        )
    }
}

/// The graph's edges are exactly what the linking protocol produces
/// for its nodes.
pub open spec fn built_by_protocol(g: Graph) -> bool {
    g.edges@ == protocol_edges(g.nodes@)
}

/// Twice the number of protocol edges equals the sum over groups of
/// g*(g-1): each arriving record gains one incoming edge from every
/// strictly prior member of its group.
pub proof fn lemma_protocol_edge_total(nodes: Seq<NameData>)
    requires
        nodes.len() <= usize::MAX,
    ensures
        2 * protocol_edges(nodes).len() == ordered_pair_sum(nodes, group_keys(nodes)),
    decreases nodes.len(),
{
    if nodes.len() > 0 {
        let d = nodes.drop_last();
        let r = nodes.last();
        let kk = group_key(r);
        lemma_protocol_edge_total(d);
        lemma_link_edges_props(d, r, (nodes.len() - 1) as usize);
        lemma_group_keys_no_dup(d);
        lemma_group_keys_size(d, kk);
        lemma_group_size_bounds(d, kk);
        lemma_pair_sum_append(d, r, group_keys(d));
        assert(d.push(r) =~= nodes);
        let c = group_size(d, kk);
        if group_keys(d).contains(kk) {
            assert(group_keys(nodes) == group_keys(d));
            assert(ordered_pair_sum(nodes, group_keys(d)) == ordered_pair_sum(d, group_keys(d)) + 2
                * c);
        } else {
            assert(group_keys(nodes) == group_keys(d).push(kk));
            assert(c == 0);
            assert(ordered_pair_sum(nodes, group_keys(d)) == ordered_pair_sum(d, group_keys(d)));
            assert(ordered_pair_sum(nodes, group_keys(d).push(kk)) == ordered_pair_sum(
                nodes,
                group_keys(d),
            ) + group_size(nodes, kk) * (group_size(nodes, kk) - 1)) by {
                assert(group_keys(d).push(kk).drop_last() =~= group_keys(d));
            }
            assert(group_size(nodes, kk) == 1) by {
                assert(in_group(r, kk));
            }
        }
    }
}

/// The edge-count law: in a graph grown by the linking protocol, twice
/// the edge count is the sum over (gender, ethnicity) groups of
/// g*(g-1), where g is the group's size.
pub proof fn lemma_protocol_edge_count(g: Graph)
    requires
        built_by_protocol(g),
    ensures
        2 * g.edges@.len() == ordered_pair_sum(g.nodes@, group_keys(g.nodes@)),
{
    assert(g.nodes@.len() <= usize::MAX) by {
        assert(g.nodes@.len() == vstd::std_specs::vec::spec_vec_len(&g.nodes));
    }
    lemma_protocol_edge_total(g.nodes@);
}

/// Every edge of a protocol-built edge sequence joins two records of
/// one (gender, ethnicity) group.
pub proof fn lemma_protocol_edges_same_group(nodes: Seq<NameData>)
    requires
        nodes.len() <= usize::MAX,
    ensures
        forall|k: int|
            0 <= k < protocol_edges(nodes).len() ==> (#[trigger] protocol_edges(nodes)[k]).source
                < nodes.len() && protocol_edges(nodes)[k].target < nodes.len() && same_group(
                nodes[protocol_edges(nodes)[k].source as int],
                nodes[protocol_edges(nodes)[k].target as int],
            ),
    decreases nodes.len(),
{
    if nodes.len() > 0 {
        let d = nodes.drop_last();
        let r = nodes.last();
        let tgt = (nodes.len() - 1) as usize;
        lemma_protocol_edges_same_group(d);
        lemma_link_edges_props(d, r, tgt);
        assert(forall|i: int| 0 <= i < d.len() ==> d[i] == #[trigger] nodes[i]);
        assert(nodes[tgt as int] == r);
        let l = protocol_edges(nodes);
        let ld = protocol_edges(d);
        let le = link_edges(d, r, tgt);
        assert forall|k: int|
            0 <= k < l.len() implies (#[trigger] l[k]).source < nodes.len() && l[k].target
            < nodes.len() && same_group(nodes[l[k].source as int], nodes[l[k].target as int]) by {
            if k < ld.len() {
                assert(l[k] == ld[k]);
                assert((ld[k]).source < d.len());
            } else {
                assert(l[k] == le[k - ld.len()]);
                assert((le[k - ld.len()]).source < d.len());
            }
        }
    }
}

/// Reachability in a protocol-built graph never leaves the start
/// node's group: every record on a walk shares its gender and
/// ethnicity. A node of a different group is therefore never visited
/// by a traversal that starts inside the group.
pub proof fn lemma_reaches_same_group(g: Graph, pre: Seq<bool>, a: int, b: int)
    requires
        built_by_protocol(g),
        0 <= a < g.nodes@.len(),
        reaches(g.edges@, pre, a, b),
    ensures
        same_group(g.nodes@[a], g.nodes@[b]),
{
    let p = choose|p: Seq<int>| is_path(g.edges@, pre, p) && p[0] == a && p.last() == b;
    lemma_path_same_group(g, pre, p);
}

/// What a traversal of a protocol-built graph marks stays inside the
/// start node's group: on a visited map that began all false and now
/// holds exactly the nodes reachable from the start, every marked node
/// shares the start's gender and ethnicity. A record of another group,
/// with no walk of matching-group edges leading to it, is never
/// visited.
pub proof fn lemma_dfs_stays_in_group(
    g: Graph,
    before: Seq<bool>,
    after: Seq<bool>,
    start: int,
    i: int,
)
    requires
        built_by_protocol(g),
        0 <= start < g.nodes@.len(),
        before.len() == g.nodes@.len(),
        forall|q: int| 0 <= q < before.len() ==> !(#[trigger] before[q]),
        after.len() == before.len(),
        forall|q: int|
            0 <= q < after.len() ==> ((#[trigger] after[q]) <==> (before[q] || reaches(
                g.edges@,
                before,
                start,
                q,
            ))),
        0 <= i < after.len(),
        after[i],
    ensures
        same_group(g.nodes@[start], g.nodes@[i]),
{
    assert(reaches(g.edges@, before, start, i));
    lemma_reaches_same_group(g, before, start, i);
}

proof fn lemma_path_same_group(g: Graph, pre: Seq<bool>, p: Seq<int>)
    requires
        built_by_protocol(g),
        is_path(g.edges@, pre, p),
        0 <= p[0] < g.nodes@.len(),
    ensures
        same_group(g.nodes@[p[0]], g.nodes@[p.last()]),
        0 <= p.last() < g.nodes@.len(),
    decreases p.len(),
{
    assert(g.nodes@.len() <= usize::MAX) by {
        assert(g.nodes@.len() == vstd::std_specs::vec::spec_vec_len(&g.nodes));
    }
    lemma_protocol_edges_same_group(g.nodes@);
    if p.len() == 1 {
    } else {
        let q = p.drop_last();
        assert(forall|i: int| 0 <= i < q.len() ==> q[i] == p[i]);
        assert(is_path(g.edges@, pre, q));
        lemma_path_same_group(g, pre, q);
        let x = p[p.len() - 2];
        let y = p.last();
        assert(has_edge(g.edges@, x, y));
        let k = choose|k: int|
            0 <= k < g.edges@.len() && (#[trigger] g.edges@[k]).source == x && g.edges@[k].target
                == y;
        assert(same_group(g.nodes@[x], g.nodes@[y]));
    }
}

impl Graph {
    /// The insertion-with-linking protocol for one record: appends the
    /// record as a node, then adds a directed edge to it from every
    /// strictly prior node of its group, in index order. Returns the
    /// new node's index.
    pub fn insert_linked(&mut self, rec: NameData) -> (idx: usize)
        ensures
            idx == old(self).nodes@.len(),
            final(self).nodes@ == old(self).nodes@.push(rec),
            final(self).edges@ == old(self).edges@ + link_edges(old(self).nodes@, rec, idx),
            final(self).edges@.len() == old(self).edges@.len() + group_size(
                old(self).nodes@,
                group_key(rec),
            ),
            old(self).wf() ==> final(self).wf(),
            built_by_protocol(*old(self)) ==> built_by_protocol(*final(self)),
    {
        let ghost grec = rec;
        let idx = self.add_node(rec);
        proof {
            assert(self.edges@ =~= old(self).edges@ + link_edges(
                old(self).nodes@.take(0),
                grec,
                idx,
            ));
        }
        let mut i: usize = 0;
        while i < idx
            invariant
                i <= idx,
                idx < self.nodes@.len(),
                self.nodes@ == old(self).nodes@.push(grec),
                idx == old(self).nodes@.len(),
                self.edges@ == old(self).edges@ + link_edges(
                    old(self).nodes@.take(i as int),
                    grec,
                    idx,
                ),
                old(self).wf() ==> self.wf(),
            decreases idx - i,
        {
            let ghost rec_now = grec;
            let ghost prior = old(self).nodes@;
            let same = self.nodes[i].gender == self.nodes[idx].gender && self.nodes[i].ethnicity
                == self.nodes[idx].ethnicity;
            proof {
                assert(prior.take(i + 1).drop_last() =~= prior.take(i as int));
                assert(prior.take(i + 1).last() == prior[i as int]);
                assert(prior[i as int] == self.nodes@[i as int]);
                assert(same == same_group(prior[i as int], rec_now));
            }
            if same {
                self.add_edge(i, idx);
                proof {
                    assert(self.edges@ =~= old(self).edges@ + link_edges(
                        prior.take(i + 1),
                        rec_now,
                        idx,
                    ));
                }
            } else {
                proof {
                    assert(self.edges@ =~= old(self).edges@ + link_edges(
                        prior.take(i + 1),
                        rec_now,
                        idx,
                    ));
                }
            }
            i += 1;
        }
        proof {
            assert(old(self).nodes@.take(idx as int) =~= old(self).nodes@);
            lemma_link_edges_props(old(self).nodes@, grec, idx);
            if built_by_protocol(*old(self)) {
                assert(self.nodes@.drop_last() =~= old(self).nodes@);
                assert(self.nodes@.last() == grec);
                assert(protocol_edges(self.nodes@) == protocol_edges(old(self).nodes@)
                    + link_edges(old(self).nodes@, grec, idx));
                assert(self.edges@ == protocol_edges(self.nodes@));
            }
        }
        idx
    }
}

/// Whether some edge goes from `a` to `b`.
pub open spec fn has_edge(edges: Seq<Edge>, a: int, b: int) -> bool {
    exists|k: int|
        0 <= k < edges.len() && (#[trigger] edges[k]).source == a && edges[k].target == b
}

/// A walk along directed edges whose nodes, after the first, are in
/// range and unvisited in `pre`.
pub open spec fn is_path(edges: Seq<Edge>, pre: Seq<bool>, p: Seq<int>) -> bool {
    &&& p.len() >= 1
    &&& forall|i: int|
        1 <= i < p.len() ==> has_edge(edges, p[i - 1], #[trigger] p[i]) && 0 <= p[i] < pre.len()
            && !pre[p[i]]
}

/// Whether `dst` can be reached from `start` along directed edges
/// passing only through nodes unvisited in `pre`.
pub open spec fn reaches(edges: Seq<Edge>, pre: Seq<bool>, start: int, dst: int) -> bool {
    exists|p: Seq<int>| is_path(edges, pre, p) && p[0] == start && p.last() == dst
}

/// How many entries of a visited map are still false.
pub open spec fn count_unvisited(s: Seq<bool>) -> nat
    decreases s.len(),
{
    if s.len() == 0 {
        0
    } else {
        count_unvisited(s.drop_last()) + if s.last() {
            0nat
        } else {
            1nat
        }
    }
}

pub proof fn lemma_count_unvisited_le(a: Seq<bool>, b: Seq<bool>)
    requires
        a.len() == b.len(),
        forall|i: int| 0 <= i < a.len() ==> ((#[trigger] a[i]) ==> b[i]),
    ensures
        count_unvisited(b) <= count_unvisited(a),
    decreases a.len(),
{
    if a.len() > 0 {
        assert(forall|i: int|
            0 <= i < a.len() - 1 ==> a.drop_last()[i] == a[i] && b.drop_last()[i] == b[i]);
        lemma_count_unvisited_le(a.drop_last(), b.drop_last());
    }
}

pub proof fn lemma_count_unvisited_update(s: Seq<bool>, k: int)
    requires
        0 <= k < s.len(),
        !s[k],
    ensures
        count_unvisited(s.update(k, true)) == count_unvisited(s) - 1,
    decreases s.len(),
{
    let t = s.update(k, true);
    if k == s.len() - 1 {
        assert(t.drop_last() =~= s.drop_last());
        assert(t.last());
        assert(!s.last());
    } else {
        assert(t.drop_last() =~= s.drop_last().update(k, true));
        assert(t.last() == s.last());
        lemma_count_unvisited_update(s.drop_last(), k);
    }
}

/// Every node reaches itself, by the one-node walk.
pub proof fn lemma_reaches_self(edges: Seq<Edge>, pre: Seq<bool>, a: int)
    ensures
        reaches(edges, pre, a, a),
{
    let p = seq![a];
    assert(is_path(edges, pre, p) && p[0] == a && p.last() == a);
}

/// A reachable node's unvisited out-neighbour is reachable too.
pub proof fn lemma_reaches_step(edges: Seq<Edge>, pre: Seq<bool>, a: int, b: int, c: int)
    requires
        reaches(edges, pre, a, b),
        has_edge(edges, b, c),
        0 <= c < pre.len(),
        !pre[c],
    ensures
        reaches(edges, pre, a, c),
{
    let p = choose|p: Seq<int>| is_path(edges, pre, p) && p[0] == a && p.last() == b;
    let q = p.push(c);
    assert forall|i: int|
        1 <= i < q.len() implies has_edge(edges, q[i - 1], #[trigger] q[i]) && 0 <= q[i]
        < pre.len() && !pre[q[i]] by {
        if i < p.len() {
            assert(q[i - 1] == p[i - 1] && q[i] == p[i]);
        } else {
            assert(q[i - 1] == p.last() && q[i] == c);
        }
    }
    assert(is_path(edges, pre, q) && q[0] == a && q.last() == c);
}

/// A walk avoiding the larger visited map, grafted onto reachability
/// under the smaller one, yields reachability under the smaller one.
pub proof fn lemma_path_transfer(
    edges: Seq<Edge>,
    pre: Seq<bool>,
    pre2: Seq<bool>,
    a: int,
    p: Seq<int>,
)
    requires
        pre.len() == pre2.len(),
        forall|i: int| 0 <= i < pre.len() ==> ((#[trigger] pre[i]) ==> pre2[i]),
        is_path(edges, pre2, p),
        reaches(edges, pre, a, p[0]),
    ensures
        reaches(edges, pre, a, p.last()),
    decreases p.len(),
{
    if p.len() == 1 {
        assert(p.last() == p[0]);
    } else {
        let q = p.drop_last();
        assert(forall|i: int| 0 <= i < q.len() ==> q[i] == p[i]);
        assert(is_path(edges, pre2, q));
        lemma_path_transfer(edges, pre, pre2, a, q);
        let x = p[p.len() - 2];
        let y = p.last();
        assert(has_edge(edges, x, y) && 0 <= y < pre2.len() && !pre2[y]);
        assert(q.last() == x);
        assert(!pre[y]);
        lemma_reaches_step(edges, pre, a, x, y);
    }
}

/// Reachability composes across a growth of the visited map.
pub proof fn lemma_reaches_trans(
    edges: Seq<Edge>,
    pre: Seq<bool>,
    pre2: Seq<bool>,
    a: int,
    b: int,
    c: int,
)
    requires
        pre.len() == pre2.len(),
        forall|i: int| 0 <= i < pre.len() ==> ((#[trigger] pre[i]) ==> pre2[i]),
        reaches(edges, pre, a, b),
        reaches(edges, pre2, b, c),
    ensures
        reaches(edges, pre, a, c),
{
    let p = choose|p: Seq<int>| is_path(edges, pre2, p) && p[0] == b && p.last() == c;
    lemma_path_transfer(edges, pre, pre2, a, p);
}

/// A visited map that contains the start of a walk and is closed under
/// edges out of its freshly visited nodes contains the walk's end.
pub proof fn lemma_closed_reaches(edges: Seq<Edge>, pre: Seq<bool>, v: Seq<bool>, p: Seq<int>)
    requires
        pre.len() == v.len(),
        forall|k: int|
            0 <= k < edges.len() ==> ((#[trigger] edges[k]).source < v.len() && edges[k].target
                < v.len()),
        is_path(edges, pre, p),
        0 <= p[0] < v.len(),
        v[p[0]],
        !pre[p[0]],
        forall|x: int, k: int|
            #![trigger v[x], edges[k]]
            0 <= x < v.len() && v[x] && !pre[x] && 0 <= k < edges.len() && edges[k].source == x
                ==> v[edges[k].target as int],
    ensures
        v[p.last()],
    decreases p.len(),
{
    if p.len() > 1 {
        let q = p.drop_last();
        assert(forall|i: int| 0 <= i < q.len() ==> q[i] == p[i]);
        assert(is_path(edges, pre, q));
        lemma_closed_reaches(edges, pre, v, q);
        let x = p[p.len() - 2];
        let y = p.last();
        assert(has_edge(edges, x, y));
        let k = choose|k: int|
            0 <= k < edges.len() && (#[trigger] edges[k]).source == x && edges[k].target == y;
        assert(!pre[x]) by {
            if p.len() - 2 >= 1 {
                assert(!pre[p[p.len() - 2]]);
            }
        }
        assert(v[edges[k].target as int]);
    }
}

impl Graph {
    /// Depth-first traversal from `node`: marks it visited, then
    /// follows, in edge-insertion order, each edge leaving it whose
    /// target is unvisited, and recurses there. Afterwards a node is
    /// marked exactly when it was already marked or is reachable from
    /// `node` through previously unmarked nodes.
    #[verifier::loop_isolation(false)]
    pub fn dfs(&self, node: usize, visited: &mut Vec<bool>)
        requires
            self.wf(),
            old(visited)@.len() == self.nodes@.len(),
            node < self.nodes@.len(),
            !old(visited)@[node as int],
        ensures
            final(visited)@.len() == old(visited)@.len(),
            forall|i: int|
                0 <= i < final(visited)@.len() ==> ((#[trigger] final(visited)@[i]) <==> (old(
                    visited,
                )@[i] || reaches(self.edges@, old(visited)@, node as int, i))),
        decreases count_unvisited(old(visited)@),
    {
        let ghost v0 = visited@;
        visited.set(node, true);
        proof {
            lemma_count_unvisited_update(v0, node as int);
            lemma_reaches_self(self.edges@, v0, node as int);
        }
        let m = self.edges.len();
        let mut j: usize = 0;
        while j < m
            invariant
                j <= m,
                visited@.len() == v0.len(),
                visited@[node as int],
                count_unvisited(visited@) < count_unvisited(v0),
                forall|i: int| 0 <= i < v0.len() ==> ((#[trigger] v0[i]) ==> visited@[i]),
                forall|i: int|
                    0 <= i < v0.len() ==> ((#[trigger] visited@[i]) ==> v0[i] || reaches(
                        self.edges@,
                        v0,
                        node as int,
                        i,
                    )),
                forall|jj: int|
                    0 <= jj < j && (#[trigger] self.edges@[jj]).source == node
                        ==> visited@[self.edges@[jj].target as int],
                forall|x: int, k: int|
                    #![trigger visited@[x], self.edges@[k]]
                    0 <= x < v0.len() && visited@[x] && !v0[x] && x != node as int && 0 <= k
                        < self.edges@.len() && self.edges@[k].source == x
                        ==> visited@[self.edges@[k].target as int],
            decreases m - j,
        {
            let e_src = self.edges[j].source;
            let e_tgt = self.edges[j].target;
            if e_src == node && !visited[e_tgt] {
                let ghost vb = visited@;
                self.dfs(e_tgt, visited);
                proof {
                    assert(has_edge(self.edges@, node as int, e_tgt as int)) by {
                        assert((self.edges@[j as int]).source == node && self.edges@[
                        j as int].target == e_tgt);
                    }
                    lemma_reaches_self(self.edges@, v0, node as int);
                    lemma_reaches_step(self.edges@, v0, node as int, node as int, e_tgt as int);
                    lemma_reaches_self(self.edges@, vb, e_tgt as int);
                    assert(visited@[e_tgt as int]);
                    assert forall|i: int| 0 <= i < v0.len() implies ((#[trigger] v0[i])
                        ==> visited@[i]) by {
                        if v0[i] {
                            assert(vb[i]);
                            assert(visited@[i]);
                        }
                    }
                    assert forall|i: int| 0 <= i < v0.len() implies ((#[trigger] visited@[i])
                        ==> v0[i] || reaches(self.edges@, v0, node as int, i)) by {
                        if visited@[i] && !v0[i] {
                            if vb[i] {
                                assert(reaches(self.edges@, v0, node as int, i));
                            } else {
                                assert(reaches(self.edges@, vb, e_tgt as int, i));
                                lemma_reaches_trans(
                                    self.edges@,
                                    v0,
                                    vb,
                                    node as int,
                                    e_tgt as int,
                                    i,
                                );
                            }
                        }
                    }
                    assert forall|x: int, k: int|
                        #![trigger visited@[x], self.edges@[k]]
                        0 <= x < v0.len() && visited@[x] && !v0[x] && x != node as int && 0 <= k
                            < self.edges@.len() && self.edges@[k].source
                            == x implies visited@[self.edges@[k].target as int] by {
                        let y = self.edges@[k].target as int;
                        if vb[x] {
                            assert(vb[y]);
                            assert(visited@[y]);
                        } else {
                            assert(reaches(self.edges@, vb, e_tgt as int, x));
                            if !vb[y] {
                                assert(has_edge(self.edges@, x, y)) by {
                                    assert((self.edges@[k]).source == x && self.edges@[k].target
                                        == y);
                                }
                                lemma_reaches_step(self.edges@, vb, e_tgt as int, x, y);
                                assert(reaches(self.edges@, vb, e_tgt as int, y));
                            }
                            assert(visited@[y]);
                        }
                    }
                    assert forall|i: int| 0 <= i < vb.len() implies ((#[trigger] vb[i])
                        ==> visited@[i]) by {}
                    lemma_count_unvisited_le(vb, visited@);
                }
            }
            j += 1;
        }
        proof {
            assert forall|x: int, k: int|
                #![trigger visited@[x], self.edges@[k]]
                0 <= x < visited@.len() && visited@[x] && !v0[x] && 0 <= k < self.edges@.len()
                    && self.edges@[k].source == x implies visited@[self.edges@[
            k].target as int] by {
                if x == node as int {
                    assert(visited@[self.edges@[k].target as int]);
                }
            }
            assert forall|i: int|
                0 <= i < visited@.len() && reaches(
                    self.edges@,
                    v0,
                    node as int,
                    i,
                ) implies visited@[i] by {
                let p = choose|p: Seq<int>|
                    is_path(self.edges@, v0, p) && p[0] == node as int && p.last() == i;
                lemma_closed_reaches(self.edges@, v0, visited@, p);
            }
        }
    }
}

} // verus!
