//! The layout tree: a taffy engine together with the library's own record of
//! its nodes, through which every handle is checked before the engine sees
//! it. The record keeps the child links acyclic, which the engine's layout
//! pass needs in order to end.
use vstd::prelude::*;
use crate::engine::{
    engine_children, engine_parents, engine_style, stored_layout, after_pass, children_known,
    parents_match, relinked, is_path, reaches, has_cycle, engine_new, engine_new_leaf,
    engine_set_children, engine_compute_layout, engine_layout, engine_failure,
};
use crate::failure::Failure;
use crate::graph::{lists, bounded, edge, walk, reached, is_start, closed_at, reach_from};
use taffy::geometry::Size;
use taffy::layout::{AvailableSpace, Layout};
use taffy::node::Taffy;
use taffy::style::Style;

verus! {

/// An opaque node handle. Its 64 bits are exactly those of the engine's key
/// for the node (slot index and generation), so that a handle and a key
/// convert into each other without loss or check; whether a handle names a
/// node is checked by the tree it is handed to.
#[derive(Clone, Copy, Debug, PartialEq, Eq, Structural, Hash)]
pub struct NodeHandle {
    bits: u64,
}

impl View for NodeHandle {
    type V = u64;

    closed spec fn view(&self) -> u64 {
        self.bits
    }
}

impl NodeHandle {
    pub fn from_bits(bits: u64) -> (r: NodeHandle)
        ensures
            r@ == bits,
    {
        NodeHandle { bits }
    }

    pub fn bits(&self) -> (r: u64)
        ensures
            r == self@,
    {
        self.bits
    }
}

/// The engine keys of a list of handles.
pub open spec fn keys_of(hs: Seq<NodeHandle>) -> Seq<u64> {
    hs.map_values(|h: NodeHandle| h@)
}

/// The record `ids`/`k` (positions, and the children of each position) is
/// the graph `g` under the naming `ids`.
pub open spec fn mirrors(g: Map<u64, Seq<u64>>, ids: Seq<u64>, k: Seq<Seq<usize>>) -> bool {
    &&& ids.no_duplicates()
    &&& k.len() == ids.len()
    &&& bounded(k)
    &&& forall|x: u64| g.contains_key(x) <==> ids.contains(x)
    &&& forall|i: int| 0 <= i < ids.len() ==> #[trigger] g[ids[i]] == k[i].map_values(|j: usize| ids[j as int])
}

/// Every child has a lower rank than its parent.
pub open spec fn ranked(k: Seq<Seq<usize>>, rank: Seq<nat>) -> bool {
    &&& rank.len() == k.len()
    &&& forall|i: int, t: int| 0 <= i < k.len() && 0 <= t < k[i].len() ==> rank[#[trigger] k[i][t] as int] < rank[i]
}

/// The position of key `x` in `ids`.
pub open spec fn pos(ids: Seq<u64>, x: u64) -> int {
    choose|i: int| 0 <= i < ids.len() && ids[i] == x
}

proof fn lemma_pos(ids: Seq<u64>, x: u64)
    requires
        ids.no_duplicates(),
        ids.contains(x),
    ensures
        0 <= pos(ids, x) < ids.len(),
        ids[pos(ids, x)] == x,
        forall|i: int| 0 <= i < ids.len() && ids[i] == x ==> i == pos(ids, x),
{
}

/// A link of `g` between two keys is a link of `k` between their positions.
proof fn lemma_link(g: Map<u64, Seq<u64>>, ids: Seq<u64>, k: Seq<Seq<usize>>, a: u64, b: u64)
    requires
        mirrors(g, ids, k),
        g.contains_key(a),
        g[a].contains(b),
    ensures
        ids.contains(b),
        edge(k, pos(ids, a), pos(ids, b)),
{
    lemma_pos(ids, a);
    let i = pos(ids, a);
    assert(g[ids[i]] == k[i].map_values(|j: usize| ids[j as int]));
    let t = choose|t: int| 0 <= t < g[a].len() && g[a][t] == b;
    let j = k[i][t] as int;
    assert(ids[j] == b);
    assert(ids.contains(b));
    lemma_pos(ids, b);
    assert(k[i][t] as int == pos(ids, b));
}

/// Every path of `g` from a node of `g`, renamed to positions, is a walk of `k`.
proof fn lemma_path_walk(g: Map<u64, Seq<u64>>, ids: Seq<u64>, k: Seq<Seq<usize>>, p: Seq<u64>)
    requires
        mirrors(g, ids, k),
        is_path(g, p),
        g.contains_key(p[0]),
    ensures
        walk(k, p.map_values(|x: u64| pos(ids, x))),
        forall|t: int| 0 <= t < p.len() ==> ids.contains(#[trigger] p[t]),
{
    let w = p.map_values(|x: u64| pos(ids, x));
    assert forall|t: int| 0 <= t < p.len() implies ids.contains(#[trigger] p[t]) by {
        if t > 0 {
            assert(g.contains_key(p[t - 1]) && g[p[t - 1]].contains(p[t - 1 + 1]));
            lemma_link(g, ids, k, p[t - 1], p[t]);
        }
    }
    assert forall|t: int| 0 <= t < w.len() - 1 implies edge(k, #[trigger] w[t], w[t + 1]) by {
        assert(g.contains_key(p[t]) && g[p[t]].contains(p[t + 1]));
        lemma_link(g, ids, k, p[t], p[t + 1]);
    }
}

/// Every walk of `k`, renamed to keys, is a path of `g`.
proof fn lemma_walk_path(g: Map<u64, Seq<u64>>, ids: Seq<u64>, k: Seq<Seq<usize>>, w: Seq<int>)
    requires
        mirrors(g, ids, k),
        walk(k, w),
    ensures
        is_path(g, w.map_values(|i: int| ids[i])),
{
    let p = w.map_values(|i: int| ids[i]);
    assert forall|t: int| 0 <= t < p.len() - 1 implies g.contains_key(#[trigger] p[t]) && g[p[t]].contains(
        p[t + 1],
    ) by {
        assert(edge(k, w[t], w[t + 1]));
        let i = w[t];
        let s = choose|s: int| 0 <= s < k[i].len() && #[trigger] k[i][s] as int == w[t + 1];
        assert(g[ids[i]] == k[i].map_values(|j: usize| ids[j as int]));
        assert(ids.contains(ids[i]));
        assert(g[ids[i]][s] == ids[w[t + 1]]);
    }
}

/// Along a walk of a ranked graph the rank falls at every step.
proof fn lemma_walk_rank(k: Seq<Seq<usize>>, rank: Seq<nat>, w: Seq<int>, m: int)
    requires
        ranked(k, rank),
        bounded(k),
        walk(k, w),
        0 <= w[0] < k.len(),
        0 <= m < w.len(),
    ensures
        0 <= w[m] < k.len(),
        rank[w[m]] + m <= rank[w[0]],
    decreases m,
{
    if m > 0 {
        lemma_walk_rank(k, rank, w, m - 1);
        assert(edge(k, w[m - 1], w[m - 1 + 1]));
        let i = w[m - 1];
        let s = choose|s: int| 0 <= s < k[i].len() && #[trigger] k[i][s] as int == w[m];
        assert(k[i][s] < k.len());
        assert(rank[k[i][s] as int] < rank[i]);
    }
}

/// A graph whose record is ranked has no cycle.
proof fn lemma_acyclic(g: Map<u64, Seq<u64>>, ids: Seq<u64>, k: Seq<Seq<usize>>, rank: Seq<nat>)
    requires
        mirrors(g, ids, k),
        ranked(k, rank),
    ensures
        !has_cycle(g),
{
    if has_cycle(g) {
        let p = choose|p: Seq<u64>| #[trigger] is_path(g, p) && p.len() >= 2 && p[0] == p.last();
        assert(g.contains_key(p[0]));
        lemma_path_walk(g, ids, k, p);
        let w = p.map_values(|x: u64| pos(ids, x));
        lemma_pos(ids, p[0]);
        lemma_walk_rank(k, rank, w, w.len() - 1);
    }
}

/// A bound above every rank.
proof fn lemma_rank_bound(rank: Seq<nat>) -> (b: nat)
    ensures
        forall|i: int| 0 <= i < rank.len() ==> rank[i] < b,
    decreases rank.len(),
{
    if rank.len() == 0 {
        0
    } else {
        let b0 = lemma_rank_bound(rank.drop_last());
        let b = if b0 > rank.last() { b0 } else { rank.last() + 1 };
        assert forall|i: int| 0 <= i < rank.len() implies rank[i] < b by {
            if i < rank.len() - 1 {
                assert(rank[i] == rank.drop_last()[i]);
            }
        }
        b
    }
}

/// Whether each of `ks` is a node of `g`.
pub open spec fn all_known(g: Map<u64, Seq<u64>>, ks: Seq<u64>) -> bool {
    forall|i: int| 0 <= i < ks.len() ==> g.contains_key(#[trigger] ks[i])
}

/// Whether `ks[i]` is the first of `ks` that is not a node of `g`.
pub open spec fn first_unknown(g: Map<u64, Seq<u64>>, ks: Seq<u64>, i: int) -> bool {
    &&& 0 <= i < ks.len()
    &&& !g.contains_key(ks[i])
    &&& forall|j: int| 0 <= j < i ==> g.contains_key(#[trigger] ks[j])
}

/// Whether making `ks` the children of `node` would close a cycle: one of
/// them is `node` or an ancestor of it.
pub open spec fn closes_cycle(g: Map<u64, Seq<u64>>, node: u64, ks: Seq<u64>) -> bool {
    exists|i: int| 0 <= i < ks.len() && #[trigger] reaches(g, ks[i], node)
}

/// After the children of `p` become `cs`, the ranks of the nodes that `cs`
/// do not reach are raised above every rank, which ranks the new graph.
proof fn lemma_rerank(k: Seq<Seq<usize>>, rank: Seq<nat>, seen: Seq<bool>, p: int, cs: Seq<usize>) -> (rank2: Seq<nat>)
    requires
        ranked(k, rank),
        bounded(k),
        seen.len() == k.len(),
        0 <= p < k.len(),
        !seen[p],
        forall|t: int| 0 <= t < cs.len() ==> #[trigger] cs[t] < k.len() && seen[cs[t] as int],
        forall|u: int| 0 <= u < k.len() && seen[u] ==> closed_at(k, seen, u),
    ensures
        ranked(k.update(p, cs), rank2),
{
    let b = lemma_rank_bound(rank);
    let rank2 = Seq::new(k.len(), |v: int| if seen[v] { rank[v] } else { rank[v] + b });
    let k2 = k.update(p, cs);
    assert forall|i: int, t: int| 0 <= i < k2.len() && 0 <= t < k2[i].len() implies rank2[#[trigger] k2[i][t] as int] < rank2[i] by {
        if i == p {
            assert(k2[i][t] == cs[t]);
        } else {
            assert(k2[i] == k[i]);
            let j = k[i][t] as int;
            assert(j < k.len());
            assert(rank[j] < rank[i]);
            if seen[i] {
                assert(closed_at(k, seen, i));
                assert(seen[k[i][t] as int]);
            }
        }
    }
    rank2
}

/// The record after the children of position `p` become `cs` is the graph
/// after the children of `ids[p]` become their keys `bs`.
proof fn lemma_mirror_update(
    g: Map<u64, Seq<u64>>,
    ids: Seq<u64>,
    k: Seq<Seq<usize>>,
    p: int,
    cs: Seq<usize>,
    bs: Seq<u64>,
)
    requires
        mirrors(g, ids, k),
        0 <= p < ids.len(),
        cs.len() == bs.len(),
        forall|t: int| 0 <= t < cs.len() ==> #[trigger] cs[t] < ids.len() && ids[cs[t] as int] == bs[t],
    ensures
        mirrors(g.insert(ids[p], bs), ids, k.update(p, cs)),
{
    let g2 = g.insert(ids[p], bs);
    let k2 = k.update(p, cs);
    assert(ids.contains(ids[p]));
    assert forall|x: u64| g2.contains_key(x) <==> ids.contains(x) by {}
    assert forall|i: int| 0 <= i < ids.len() implies #[trigger] g2[ids[i]] == k2[i].map_values(|j: usize| ids[j as int]) by {
        if i == p {
            assert(k2[i].map_values(|j: usize| ids[j as int]) =~= bs);
        } else {
            assert(ids[i] != ids[p]);
        }
    }
    assert forall|i: int, t: int| 0 <= i < k2.len() && 0 <= t < k2[i].len() implies #[trigger] k2[i][t] < k2.len() by {
        if i == p {
            assert(k2[i][t] == cs[t]);
        }
    }
}

/// The space offered to a layout pass along one axis.
#[derive(Clone, Copy, Debug, PartialEq, Eq, Structural)]
pub enum Space {
    /// Exactly this many pixels.
    Definite(u32),
    /// No constraint: the node takes its max-content size.
    MaxContent,
}

/// The space that a pixel constraint offers: a negative constraint means
/// none, any other exactly that many pixels.
pub fn available_space(pixels: i32) -> (r: Space)
    ensures
        pixels >= 0 ==> r == Space::Definite(pixels as u32),
        pixels < 0 ==> r == Space::MaxContent,
{
    if pixels >= 0 {
        Space::Definite(pixels as u32)
    } else {
        Space::MaxContent
    }
}

/// The nodes that a walk reaches from position `p` are the positions of the
/// descendants of `ids[p]`, and those are all nodes of `g`.
proof fn lemma_reach_keys(g: Map<u64, Seq<u64>>, ids: Seq<u64>, k: Seq<Seq<usize>>, p: usize, seen: Seq<bool>)
    requires
        mirrors(g, ids, k),
        p < ids.len(),
        seen.len() == ids.len(),
        forall|v: int| 0 <= v < ids.len() ==> (seen[v] <==> reached(k, seq![p], v)),
    ensures
        forall|i: int| 0 <= i < ids.len() ==> (seen[i] <==> reaches(g, ids[p as int], #[trigger] ids[i])),
        forall|x: u64| reaches(g, ids[p as int], x) ==> ids.contains(x),
{
    assert(ids.contains(ids[p as int]));
    assert forall|x: u64| reaches(g, ids[p as int], x) implies ids.contains(x) && seen[pos(ids, x)] by {
        let path = choose|path: Seq<u64>| #[trigger] is_path(g, path) && path[0] == ids[p as int] && path.last() == x;
        lemma_path_walk(g, ids, k, path);
        assert(ids.contains(path[path.len() - 1]));
        let w = path.map_values(|y: u64| pos(ids, y));
        lemma_pos(ids, ids[p as int]);
        assert(seq![p][0] as int == w[0]);
        assert(is_start(seq![p], w[0]));
        lemma_pos(ids, x);
        assert(reached(k, seq![p], pos(ids, x)));
    }
    assert forall|i: int| 0 <= i < ids.len() implies (seen[i] <==> reaches(g, ids[p as int], #[trigger] ids[i])) by {
        if seen[i] {
            let w = choose|w: Seq<int>| #[trigger] walk(k, w) && is_start(seq![p], w[0]) && w.last() == i;
            lemma_walk_path(g, ids, k, w);
            let path = w.map_values(|v: int| ids[v]);
            assert(seq![p][0] as int == w[0]);
            assert(path[0] == ids[p as int]);
            assert(is_path(g, path) && path[0] == ids[p as int] && path.last() == ids[i]);
        }
        if reaches(g, ids[p as int], ids[i]) {
            assert(ids.contains(ids[i]));
            lemma_pos(ids, ids[i]);
        }
    }
}

/// A graph that a record mirrors lists only its own nodes as children.
proof fn lemma_children_known(g: Map<u64, Seq<u64>>, ids: Seq<u64>, k: Seq<Seq<usize>>)
    requires
        mirrors(g, ids, k),
    ensures
        children_known(g),
{
    assert forall|x: u64, i: int| g.contains_key(x) && 0 <= i < g[x].len() implies g.contains_key(
        #[trigger] g[x][i],
    ) by {
        assert(ids.contains(x));
        let j = choose|j: int| 0 <= j < ids.len() && ids[j] == x;
        assert(g[ids[j]] == k[j].map_values(|m: usize| ids[m as int]));
        assert(i < k[j].len());
        assert(k[j][i] < k.len());
        assert(ids.contains(ids[k[j][i] as int]));
    }
}

/// A tree of layout nodes, owned by one engine.
pub struct LayoutTree {
    engine: Taffy,
    ids: Vec<u64>,
    kids: Vec<Vec<usize>>,
    laid_out: Vec<bool>,
    rank: Ghost<Seq<nat>>,
}

impl View for LayoutTree {
    type V = Map<u64, Seq<u64>>;

    /// Each node of the tree, by its key, with its ordered children.
    closed spec fn view(&self) -> Map<u64, Seq<u64>> {
        engine_children(self.engine)
    }
}

impl LayoutTree {
    /// The tree is consistent with its engine and has no cycle.
    pub closed spec fn wf(&self) -> bool {
        &&& mirrors(engine_children(self.engine), self.ids@, lists(self.kids@))
        &&& self.laid_out@.len() == self.ids@.len()
        &&& ranked(lists(self.kids@), self.rank@)
        &&& parents_match(engine_children(self.engine), engine_parents(self.engine))
    }

    /// The engine that holds the nodes' styles and stored layouts.
    pub closed spec fn engine(&self) -> Taffy {
        self.engine
    }

    /// Every child of a node of the tree is itself a node of the tree.
    pub proof fn lemma_children_are_nodes(&self)
        requires
            self.wf(),
        ensures
            children_known(self@),
    {
        lemma_children_known(engine_children(self.engine), self.ids@, lists(self.kids@));
    }

    /// The nodes that some layout pass has reached.
    pub closed spec fn laid_out_nodes(&self) -> Set<u64> {
        Set::new(|x: u64| exists|i: int| 0 <= i < self.ids@.len() && self.ids@[i] == x && self.laid_out@[i])
    }

    /// An empty tree.
    pub fn new() -> (r: LayoutTree)
        ensures
            r.wf(),
            r@.dom() == Set::<u64>::empty(),
            r.laid_out_nodes() == Set::<u64>::empty(),
    {
        let r = LayoutTree {
            engine: engine_new(),
            ids: Vec::new(),
            kids: Vec::new(),
            laid_out: Vec::new(),
            rank: Ghost(Seq::empty()),
        };
        assert(r.laid_out_nodes() =~= Set::<u64>::empty());
        assert(engine_children(r.engine) =~= Map::<u64, Seq<u64>>::empty());
        assert(engine_parents(r.engine) =~= Map::<u64, u64>::empty());
        r
    }

    /// The number of nodes in the tree.
    pub fn node_count(&self) -> (r: usize)
        requires
            self.wf(),
        ensures
            r == self@.dom().len(),
    {
        proof {
            self.ids@.unique_seq_to_set();
            assert(self@.dom() =~= self.ids@.to_set());
        }
        self.ids.len()
    }

    /// The position of the node with key `x`, if the tree holds it.
    fn position(&self, x: u64) -> (r: Option<usize>)
        requires
            self.wf(),
        ensures
            r is None <==> !self@.contains_key(x),
            r is Some ==> r->Some_0 < self.ids@.len() && self.ids@[r->Some_0 as int] == x && r->Some_0
                == pos(self.ids@, x),
    {
        let mut i: usize = 0;
        while i < self.ids.len()
            invariant
                self.wf(),
                i <= self.ids@.len(),
                forall|j: int| 0 <= j < i ==> self.ids@[j] != x,
            decreases self.ids@.len() - i,
        {
            if self.ids[i] == x {
                proof {
                    lemma_pos(self.ids@, x);
                }
                return Some(i);
            }
            i += 1;
        }
        assert(!self.ids@.contains(x));
        None
    }

    /// Adds a leaf with the given style and no children; no other node
    /// changes. Without a style, fails and changes nothing.
    pub fn new_leaf(&mut self, style: Option<Style>) -> (r: Result<NodeHandle, Failure>)
        requires
            old(self).wf(),
        ensures
            final(self).wf(),
            final(self).laid_out_nodes() == old(self).laid_out_nodes(),
            style is None ==> r == Err::<NodeHandle, Failure>(Failure::MissingReference),
            r is Err ==> *final(self) == *old(self),
            style is Some ==> r is Ok && !old(self)@.contains_key(r->Ok_0@) && final(self)@ == old(
                self,
            )@.insert(r->Ok_0@, Seq::<u64>::empty()),
            style is Some ==> engine_style(final(self).engine(), r->Ok_0@) == style->Some_0,
            r is Ok ==> forall|k: u64|
                k != r->Ok_0@ ==> engine_style(final(self).engine(), k) == engine_style(old(self).engine(), k)
                    && stored_layout(final(self).engine(), k) == stored_layout(old(self).engine(), k),
    {
        let style = match style {
            Some(s) => s,
            None => return Err(Failure::MissingReference),
        };
        let ghost g0 = engine_children(self.engine);
        let ghost ids0 = self.ids@;
        let ghost k0 = lists(self.kids@);
        let ghost lo0 = self.laid_out_nodes();
        let ghost ps0 = engine_parents(self.engine);
        let id = match engine_new_leaf(&mut self.engine, style) {
            Ok(id) => id,
            Err(e) => return Err(engine_failure(e)),
        };
        self.ids.push(id);
        self.kids.push(Vec::new());
        self.laid_out.push(false);
        self.rank = Ghost(self.rank@.push(0));
        proof {
            let g = engine_children(self.engine);
            let ids = self.ids@;
            let k = lists(self.kids@);
            assert forall|x: u64| #[trigger] ps0.contains_key(x) implies g.contains_key(ps0[x]) && g[ps0[x]].contains(x) by {
                assert(g0.contains_key(ps0[x]));
            }
            assert(k =~= k0.push(Seq::<usize>::empty()));
            assert(ids =~= ids0.push(id));
            assert forall|x: u64| g.contains_key(x) <==> ids.contains(x) by {
                if x == id {
                    assert(ids[ids0.len() as int] == id);
                } else if ids0.contains(x) {
                    let j = choose|j: int| 0 <= j < ids0.len() && ids0[j] == x;
                    assert(ids[j] == x);
                } else if ids.contains(x) {
                    let j = choose|j: int| 0 <= j < ids.len() && ids[j] == x;
                    assert(j < ids0.len());
                    assert(ids0[j] == x);
                }
            }
            assert forall|i: int| 0 <= i < ids.len() implies #[trigger] g[ids[i]] == k[i].map_values(
                |j: usize| ids[j as int],
            ) by {
                if i < ids0.len() {
                    assert(ids0.contains(ids0[i]));
                    assert(g[ids[i]] == g0[ids0[i]]);
                    assert(k[i].map_values(|j: usize| ids[j as int]) =~= k0[i].map_values(
                        |j: usize| ids0[j as int],
                    ));
                } else {
                    assert(k[i].map_values(|j: usize| ids[j as int]) =~= Seq::<u64>::empty());
                }
            }
            assert(ids.no_duplicates()) by {
                assert forall|a: int, b: int| 0 <= a < ids.len() && 0 <= b < ids.len() && a != b implies ids[a]
                    != ids[b] by {
                    if a < ids0.len() && b < ids0.len() {
                    } else if a < ids0.len() {
                        assert(ids0.contains(ids0[a]));
                    } else {
                        assert(ids0.contains(ids0[b]));
                    }
                }
            }
            assert(self.laid_out_nodes() =~= lo0) by {
                assert forall|x: u64| self.laid_out_nodes().contains(x) implies lo0.contains(x) by {
                    let i = choose|i: int|
                        0 <= i < self.ids@.len() && self.ids@[i] == x && self.laid_out@[i];
                    assert(i < ids0.len());
                }
                assert forall|x: u64| lo0.contains(x) implies self.laid_out_nodes().contains(x) by {
                    let i = choose|i: int| 0 <= i < ids0.len() && ids0[i] == x && old(self).laid_out@[i];
                    assert(self.ids@[i] == x && self.laid_out@[i]);
                }
            }
        }
        Ok(NodeHandle { bits: id })
    }

    /// Replaces the children of `node` with `children`, in order; styles and
    /// stored layouts stay. Fails and changes nothing when the list is
    /// absent, when the bits of `node` or of a child name no node of this
    /// tree, or when a child is `node` or an ancestor of it. Handles carry no
    /// tree of their own: a handle of another tree whose bits name a node
    /// here stands for that node. A node may be the child of several parents.
    pub fn set_children(&mut self, node: NodeHandle, children: Option<&Vec<NodeHandle>>) -> (r: Result<(), Failure>)
        requires
            old(self).wf(),
        ensures
            final(self).wf(),
            final(self).laid_out_nodes() == old(self).laid_out_nodes(),
            r is Ok ==> final(self)@ == old(self)@.insert(node@, keys_of(children->Some_0@)),
            r is Ok ==> forall|k: u64|
                engine_style(final(self).engine(), k) == engine_style(old(self).engine(), k) && stored_layout(
                    final(self).engine(),
                    k,
                ) == stored_layout(old(self).engine(), k),
            r is Err ==> *final(self) == *old(self),
            children is None ==> r == Err::<(), Failure>(Failure::MissingReference),
            children is Some && !old(self)@.contains_key(node@) ==> r == Err::<(), Failure>(
                Failure::InvalidParentNode(node@),
            ),
            children is Some && old(self)@.contains_key(node@) && !all_known(
                old(self)@,
                keys_of(children->Some_0@),
            ) ==> exists|i: int|
                first_unknown(old(self)@, keys_of(children->Some_0@), i) && r == Err::<(), Failure>(
                    Failure::InvalidChildNode(keys_of(children->Some_0@)[i]),
                ),
            children is Some && old(self)@.contains_key(node@) && all_known(old(self)@, keys_of(children->Some_0@))
                && closes_cycle(old(self)@, node@, keys_of(children->Some_0@)) ==> r == Err::<(), Failure>(
                Failure::CyclicChildren(node@),
            ),
            children is Some && old(self)@.contains_key(node@) && all_known(old(self)@, keys_of(children->Some_0@))
                && !closes_cycle(old(self)@, node@, keys_of(children->Some_0@)) ==> r is Ok,
    {
        let list = match children {
            Some(c) => c,
            None => return Err(Failure::MissingReference),
        };
        let ghost g = self@;
        let ghost ids = self.ids@;
        let ghost k = lists(self.kids@);
        let ghost ks = keys_of(list@);
        let p = match self.position(node.bits) {
            Some(p) => p,
            None => return Err(Failure::InvalidParentNode(node.bits)),
        };
        let mut bits: Vec<u64> = Vec::new();
        let mut cs: Vec<usize> = Vec::new();
        let mut i: usize = 0;
        while i < list.len()
            invariant
                children == Some(list),
                g.contains_key(node@),
                self.wf(),
                self@ == g,
                self.ids@ == ids,
                ks == keys_of(list@),
                i <= list@.len(),
                bits@.len() == i,
                cs@.len() == i,
                forall|t: int|
                    0 <= t < i ==> #[trigger] cs@[t] < ids.len() && ids[cs@[t] as int] == bits@[t] && bits@[t]
                        == ks[t] && cs@[t] == pos(ids, ks[t]),
                forall|t: int| 0 <= t < i ==> g.contains_key(#[trigger] ks[t]),
            decreases list@.len() - i,
        {
            let b = list[i].bits;
            assert(ks[i as int] == b);
            match self.position(b) {
                Some(q) => {
                    bits.push(b);
                    cs.push(q);
                },
                None => {
                    assert(first_unknown(g, ks, i as int));
                    return Err(Failure::InvalidChildNode(b));
                },
            }
            i += 1;
        }
        assert(bits@ =~= ks) by {
            assert forall|t: int| 0 <= t < bits@.len() implies bits@[t] == ks[t] by {
                assert(cs@[t] < ids.len());
            }
        }
        assert(all_known(g, ks));
        let seen = reach_from(&self.kids, &cs);
        if seen[p] {
            proof {
                let w = choose|w: Seq<int>| #[trigger] walk(k, w) && is_start(cs@, w[0]) && w.last() == p as int;
                lemma_walk_path(g, ids, k, w);
                let path = w.map_values(|v: int| ids[v]);
                let j = choose|j: int| 0 <= j < cs@.len() && #[trigger] cs@[j] as int == w[0];
                assert(path[0] == ks[j]);
                assert(path.last() == node@);
                assert(reaches(g, ks[j], node@));
            }
            return Err(Failure::CyclicChildren(node.bits));
        }
        proof {
            if closes_cycle(g, node@, ks) {
                let j = choose|j: int| 0 <= j < ks.len() && #[trigger] reaches(g, ks[j], node@);
                let path = choose|path: Seq<u64>| #[trigger] is_path(g, path) && path[0] == ks[j] && path.last() == node@;
                lemma_path_walk(g, ids, k, path);
                let w = path.map_values(|x: u64| pos(ids, x));
                assert(cs@[j] as int == w[0]);
                assert(is_start(cs@, w[0]));
                lemma_pos(ids, node@);
                assert(w.last() == p as int);
                assert(reached(k, cs@, p as int));
                assert(false);
            }
        }
        let ghost rank2 = {
            assert forall|t: int| 0 <= t < cs@.len() implies #[trigger] cs@[t] < k.len() && seen@[cs@[t] as int] by {
                assert(walk(k, seq![cs@[t] as int]));
                assert(is_start(cs@, cs@[t] as int));
            }
            lemma_rerank(k, self.rank@, seen@, p as int, cs@)
        };
        let ghost ps = engine_parents(self.engine);
        proof {
            lemma_mirror_update(g, ids, k, p as int, cs@, bits@);
            lemma_acyclic(g.insert(ids[p as int], bits@), ids, k.update(p as int, cs@), rank2);
            lemma_children_known(g, ids, k);
        }
        match engine_set_children(&mut self.engine, node.bits, &bits) {
            Ok(()) => {},
            Err(e) => return Err(engine_failure(e)),
        }
        proof {
            let g2 = engine_children(self.engine);
            let ps2 = engine_parents(self.engine);
            assert(ps2 == relinked(ps, node@, g[node@], bits@));
            assert forall|x: u64| #[trigger] ps2.contains_key(x) implies g2.contains_key(ps2[x]) && g2[ps2[x]].contains(x) by {
                if !bits@.contains(x) {
                    assert(ps.contains_key(x) && !g[node@].contains(x));
                    assert(g.contains_key(ps[x]) && g[ps[x]].contains(x));
                    assert(ps[x] != node@);
                }
            }
        }
        let ghost cs_view = cs@;
        self.kids.set(p, cs);
        self.rank = Ghost(rank2);
        assert(lists(self.kids@) =~= k.update(p as int, cs_view));
        Ok(())
    }

    /// Lays out `node` and all its descendants in `space`: the engine makes
    /// one layout pass, which replaces their stored layouts and leaves those
    /// of other nodes, the styles and the child links as they were.
    pub fn compute_layout(&mut self, node: NodeHandle, space: Size<AvailableSpace>) -> (r: Result<(), Failure>)
        requires
            old(self).wf(),
        ensures
            final(self).wf(),
            final(self)@ == old(self)@,
            !old(self)@.contains_key(node@) ==> r == Err::<(), Failure>(Failure::InvalidInputNode(node@)),
            r is Err ==> *final(self) == *old(self),
            old(self)@.contains_key(node@) ==> final(self).engine() == after_pass(old(self).engine(), node@, space),
            forall|k: u64| engine_style(final(self).engine(), k) == engine_style(old(self).engine(), k),
            forall|k: u64|
                !reaches(old(self)@, node@, k) ==> stored_layout(final(self).engine(), k) == stored_layout(
                    old(self).engine(),
                    k,
                ),
            old(self)@.contains_key(node@) ==> r is Ok && final(self).laid_out_nodes() == old(
                self,
            ).laid_out_nodes().union(Set::new(|x: u64| reaches(old(self)@, node@, x))),
    {
        let p = match self.position(node.bits) {
            Some(p) => p,
            None => return Err(Failure::InvalidInputNode(node.bits)),
        };
        let ghost g = self@;
        let ghost ids = self.ids@;
        let ghost k = lists(self.kids@);
        let ghost lo0 = self.laid_out@;
        proof {
            lemma_acyclic(g, ids, k, self.rank@);
            lemma_children_known(g, ids, k);
        }
        match engine_compute_layout(&mut self.engine, node.bits, space) {
            Ok(()) => {},
            Err(e) => return Err(engine_failure(e)),
        }
        let ghost laid = self.engine;
        let mut starts: Vec<usize> = Vec::new();
        starts.push(p);
        assert(starts@ =~= seq![p]);
        let seen = reach_from(&self.kids, &starts);
        proof {
            lemma_reach_keys(g, ids, k, p, seen@);
        }
        let n = self.laid_out.len();
        let mut i: usize = 0;
        while i < n
            invariant
                n == ids.len(),
                seen@.len() == n,
                self.wf(),
                self@ == g,
                self.engine == laid,
                self.ids@ == ids,
                lists(self.kids@) == k,
                i <= n,
                forall|j: int| 0 <= j < n ==> #[trigger] self.laid_out@[j] == (lo0[j] || (j < i && seen@[j])),
            decreases n - i,
        {
            if seen[i] {
                self.laid_out.set(i, true);
            }
            i += 1;
        }
        proof {
            let reach = Set::new(|x: u64| reaches(g, node@, x));
            let lo_old = old(self).laid_out_nodes();
            assert(node@ == ids[p as int]);
            assert(self.laid_out_nodes() =~= lo_old.union(reach)) by {
                assert forall|x: u64| self.laid_out_nodes().contains(x) implies lo_old.union(reach).contains(x) by {
                    let j = choose|j: int| 0 <= j < ids.len() && ids[j] == x && self.laid_out@[j];
                    if lo0[j] {
                        assert(lo_old.contains(x));
                    } else {
                        assert(seen@[j]);
                    }
                }
                assert forall|x: u64| lo_old.union(reach).contains(x) implies self.laid_out_nodes().contains(x) by {
                    if lo_old.contains(x) {
                        let j = choose|j: int| 0 <= j < ids.len() && ids[j] == x && lo0[j];
                        assert(self.laid_out@[j]);
                    } else {
                        assert(reaches(g, node@, x));
                        lemma_pos(ids, x);
                        let j = pos(ids, x);
                        assert(seen@[j]);
                        assert(self.laid_out@[j]);
                    }
                }
            }
        }
        Ok(())
    }

    /// The layout that the engine has stored for `node`, which the last pass
    /// to reach it wrote.
    pub fn get_layout(&self, node: NodeHandle) -> (r: Result<Layout, Failure>)
        requires
            self.wf(),
        ensures
            !self@.contains_key(node@) ==> r == Err::<Layout, Failure>(Failure::InvalidInputNode(node@)),
            self@.contains_key(node@) && !self.laid_out_nodes().contains(node@) ==> r == Err::<Layout, Failure>(
                Failure::NotLaidOut(node@),
            ),
            self@.contains_key(node@) && self.laid_out_nodes().contains(node@) ==> r is Ok && r->Ok_0
                == stored_layout(self.engine(), node@),
    {
        let p = match self.position(node.bits) {
            Some(p) => p,
            None => return Err(Failure::InvalidInputNode(node.bits)),
        };
        if !self.laid_out[p] {
            proof {
                if self.laid_out_nodes().contains(node@) {
                    let j = choose|j: int|
                        0 <= j < self.ids@.len() && self.ids@[j] == node@ && self.laid_out@[j];
                    lemma_pos(self.ids@, node@);
                }
            }
            return Err(Failure::NotLaidOut(node.bits));
        }
        assert(self.laid_out_nodes().contains(node@));
        match engine_layout(&self.engine, node.bits) {
            Ok(layout) => Ok(layout),
            Err(e) => Err(engine_failure(e)),
        }
    }
}

} // verus!
