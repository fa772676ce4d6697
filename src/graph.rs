//! Graphs held as the children list of each node, nodes being positions
//! `0..n`, and the set of nodes reachable from given starting nodes.
use vstd::prelude::*;

verus! {

/// The children lists of `rows`, as sequences.
pub open spec fn lists(rows: Seq<Vec<usize>>) -> Seq<Seq<usize>> {
    rows.map_values(|r: Vec<usize>| r@)
}

/// Every child is a node of `g`.
pub open spec fn bounded(g: Seq<Seq<usize>>) -> bool {
    forall|i: int, t: int| 0 <= i < g.len() && 0 <= t < g[i].len() ==> #[trigger] g[i][t] < g.len()
}

pub open spec fn edge(g: Seq<Seq<usize>>, i: int, j: int) -> bool {
    &&& 0 <= i < g.len()
    &&& exists|t: int| 0 <= t < g[i].len() && #[trigger] g[i][t] as int == j
}

/// Whether `x` is one of `starts`.
pub open spec fn is_start(starts: Seq<usize>, x: int) -> bool {
    exists|j: int| 0 <= j < starts.len() && #[trigger] starts[j] as int == x
}

/// Whether `p` is a walk along the child links of `g`, of one node or more.
pub open spec fn walk(g: Seq<Seq<usize>>, p: Seq<int>) -> bool {
    &&& p.len() >= 1
    &&& forall|t: int| 0 <= t < p.len() - 1 ==> edge(g, #[trigger] p[t], p[t + 1])
}

/// Whether some walk of `g` goes from one of `starts` to `v`.
pub open spec fn reached(g: Seq<Seq<usize>>, starts: Seq<usize>, v: int) -> bool {
    exists|p: Seq<int>| #[trigger] walk(g, p) && is_start(starts, p[0]) && p.last() == v
}

/// All children of `v` are marked in `seen`.
pub open spec fn closed_at(g: Seq<Seq<usize>>, seen: Seq<bool>, v: int) -> bool {
    forall|t: int| 0 <= t < g[v].len() ==> #[trigger] seen[g[v][t] as int]
}

pub open spec fn unseen(s: Seq<bool>) -> nat
    decreases s.len(),
{
    if s.len() == 0 {
        0
    } else {
        unseen(s.drop_last()) + if s.last() {
            0nat
        } else {
            1nat
        }
    }
}

proof fn lemma_unseen_mark(s: Seq<bool>, i: int)
    requires
        0 <= i < s.len(),
        !s[i],
    ensures
        unseen(s.update(i, true)) + 1 == unseen(s),
    decreases s.len(),
{
    if i == s.len() - 1 {
        assert(s.update(i, true).drop_last() =~= s.drop_last());
    } else {
        assert(s.update(i, true).drop_last() =~= s.drop_last().update(i, true));
        lemma_unseen_mark(s.drop_last(), i);
    }
}

proof fn lemma_closed_walk(g: Seq<Seq<usize>>, seen: Seq<bool>, p: Seq<int>)
    requires
        walk(g, p),
        seen.len() == g.len(),
        bounded(g),
        0 <= p[0] < g.len(),
        seen[p[0]],
        forall|u: int| 0 <= u < g.len() && seen[u] ==> closed_at(g, seen, u),
    ensures
        0 <= p.last() < g.len(),
        seen[p.last()],
    decreases p.len(),
{
    if p.len() > 1 {
        let q = p.drop_last();
        assert forall|t: int| 0 <= t < q.len() - 1 implies edge(g, #[trigger] q[t], q[t + 1]) by {
            assert(edge(g, p[t], p[t + 1]));
        }
        lemma_closed_walk(g, seen, q);
        let u = p[p.len() - 2];
        assert(q.last() == u);
        assert(closed_at(g, seen, u));
        assert(edge(g, p[p.len() - 2], p[p.len() - 1]));
        let t = choose|t: int| 0 <= t < g[u].len() && #[trigger] g[u][t] as int == p.last();
        assert(seen[g[u][t] as int]);
    }
}

/// Each marked node carries a walk to it from one of `starts`.
pub open spec fn witnessed(g: Seq<Seq<usize>>, starts: Seq<usize>, seen: Seq<bool>, wit: Map<int, Seq<int>>) -> bool {
    forall|v: int|
        0 <= v < seen.len() && #[trigger] seen[v] ==> {
            &&& wit.contains_key(v)
            &&& walk(g, wit[v])
            &&& is_start(starts, wit[v][0])
            &&& wit[v].last() == v
        }
}

/// Each node on the stack is a marked node.
pub open spec fn stacked(stack: Seq<usize>, seen: Seq<bool>) -> bool {
    forall|t: int| 0 <= t < stack.len() ==> #[trigger] stack[t] < seen.len() && seen[stack[t] as int]
}

/// Each marked node but `skip` that is off the stack has all its children marked.
pub open spec fn closed_off(g: Seq<Seq<usize>>, seen: Seq<bool>, stack: Seq<usize>, skip: int) -> bool {
    forall|v: int|
        0 <= v < seen.len() && v != skip && #[trigger] seen[v] && !stack.contains(v as usize)
            ==> closed_at(g, seen, v)
}

proof fn lemma_mark(
    g: Seq<Seq<usize>>,
    starts: Seq<usize>,
    seen: Seq<bool>,
    stack: Seq<usize>,
    wit: Map<int, Seq<int>>,
    skip: int,
    c: usize,
    w: Seq<int>,
)
    requires
        c < seen.len(),
        seen.len() == g.len(),
        bounded(g),
        witnessed(g, starts, seen, wit),
        stacked(stack, seen),
        closed_off(g, seen, stack, skip),
        walk(g, w),
        is_start(starts, w[0]),
        w.last() == c,
    ensures
        witnessed(g, starts, seen.update(c as int, true), wit.insert(c as int, w)),
        stacked(stack.push(c), seen.update(c as int, true)),
        closed_off(g, seen.update(c as int, true), stack.push(c), skip),
{
    let s2 = seen.update(c as int, true);
    let st2 = stack.push(c);
    assert forall|t: int| 0 <= t < st2.len() implies #[trigger] st2[t] < s2.len() && s2[st2[t] as int] by {
        if t < stack.len() {
            assert(st2[t] == stack[t]);
            assert(stack[t] < seen.len() && seen[stack[t] as int]);
        } else {
            assert(st2[t] == c as usize);
        }
    }
    assert forall|v: int|
        0 <= v < s2.len() && v != skip && #[trigger] s2[v] && !st2.contains(v as usize) implies closed_at(
        g,
        s2,
        v,
    ) by {
        assert(st2[st2.len() - 1] == c as usize);
        assert(v != c);
        if stack.contains(v as usize) {
            let t = choose|t: int| 0 <= t < stack.len() && stack[t] == v as usize;
            assert(st2[t] == v as usize);
        }
        assert(closed_at(g, seen, v));
        assert forall|t: int| 0 <= t < g[v].len() implies #[trigger] s2[g[v][t] as int] by {
            assert(seen[g[v][t] as int]);
        }
    }
}

proof fn lemma_search_done(g: Seq<Seq<usize>>, starts: Seq<usize>, seen: Seq<bool>, wit: Map<int, Seq<int>>)
    requires
        bounded(g),
        seen.len() == g.len(),
        witnessed(g, starts, seen, wit),
        closed_off(g, seen, Seq::<usize>::empty(), -1),
        forall|t: int| 0 <= t < starts.len() ==> #[trigger] starts[t] < g.len() && seen[starts[t] as int],
    ensures
        forall|v: int| 0 <= v < g.len() ==> (seen[v] <==> reached(g, starts, v)),
        forall|u: int| 0 <= u < g.len() && seen[u] ==> closed_at(g, seen, u),
{
    assert forall|u: int| 0 <= u < g.len() && seen[u] implies closed_at(g, seen, u) by {
        assert(!Seq::<usize>::empty().contains(u as usize));
    }
    assert forall|v: int| 0 <= v < g.len() implies (seen[v] <==> reached(g, starts, v)) by {
        if seen[v] {
            assert(walk(g, wit[v]));
        }
        if reached(g, starts, v) {
            let p = choose|p: Seq<int>| #[trigger] walk(g, p) && is_start(starts, p[0]) && p.last() == v;
            let j = choose|j: int| 0 <= j < starts.len() && #[trigger] starts[j] as int == p[0];
            assert(starts[j] < g.len() && seen[starts[j] as int]);
            lemma_closed_walk(g, seen, p);
        }
    }
}

/// Marks the unmarked children of `u` and pushes them on the stack.
fn visit_children(
    g: &Vec<Vec<usize>>,
    starts: &Vec<usize>,
    u: usize,
    seen: &mut Vec<bool>,
    stack: &mut Vec<usize>,
    Ghost(wit): Ghost<Map<int, Seq<int>>>,
) -> (w2: Ghost<Map<int, Seq<int>>>)
    requires
        bounded(lists(g@)),
        old(seen)@.len() == g@.len(),
        u < g@.len(),
        old(seen)@[u as int],
        witnessed(lists(g@), starts@, old(seen)@, wit),
        stacked(old(stack)@, old(seen)@),
        closed_off(lists(g@), old(seen)@, old(stack)@, u as int),
        forall|i: int| 0 <= i < starts@.len() ==> #[trigger] starts@[i] < g@.len(),
        forall|t: int| 0 <= t < starts@.len() ==> old(seen)@[#[trigger] starts@[t] as int],
    ensures
        final(seen)@.len() == g@.len(),
        witnessed(lists(g@), starts@, final(seen)@, w2@),
        stacked(final(stack)@, final(seen)@),
        closed_off(lists(g@), final(seen)@, final(stack)@, -1),
        forall|t: int| 0 <= t < starts@.len() ==> final(seen)@[#[trigger] starts@[t] as int],
        2 * unseen(final(seen)@) + final(stack)@.len() < 2 * unseen(old(seen)@) + old(stack)@.len() + 1,
{
    let ghost k = lists(g@);
    let ghost m0 = 2 * unseen(seen@) + stack@.len();
    let ghost mut wit = wit;
    let n = g.len();
    let row = &g[u];
    assert(row@ == k[u as int]);
    let mut t: usize = 0;
    while t < row.len()
        invariant
            n == g@.len(),
            k == lists(g@),
            bounded(k),
            seen@.len() == n,
            u < n,
            seen@[u as int],
            row@ == k[u as int],
            t <= row@.len(),
            2 * unseen(seen@) + stack@.len() <= m0,
            witnessed(k, starts@, seen@, wit),
            stacked(stack@, seen@),
            closed_off(k, seen@, stack@, u as int),
            forall|q: int| 0 <= q < t ==> seen@[#[trigger] row@[q] as int],
            forall|i: int| 0 <= i < starts@.len() ==> #[trigger] starts@[i] < g@.len(),
            forall|q: int| 0 <= q < starts@.len() ==> seen@[#[trigger] starts@[q] as int],
        decreases row@.len() - t,
    {
        let c = row[t];
        assert(k[u as int][t as int] == c);
        if !seen[c] {
            proof {
                lemma_unseen_mark(seen@, c as int);
                let w = wit[u as int].push(c as int);
                assert(k[u as int][t as int] as int == c as int);
                assert(edge(k, u as int, c as int));
                assert forall|q: int| 0 <= q < w.len() - 1 implies edge(k, #[trigger] w[q], w[q + 1]) by {
                    if q < w.len() - 2 {
                        assert(w[q] == wit[u as int][q]);
                        assert(w[q + 1] == wit[u as int][q + 1]);
                    }
                }
                lemma_mark(k, starts@, seen@, stack@, wit, u as int, c, w);
                wit = wit.insert(c as int, w);
            }
            seen.set(c, true);
            stack.push(c);
        }
        t += 1;
    }
    assert(closed_at(k, seen@, u as int));
    Ghost(wit)
}

/// Marks each node that a walk of `g` reaches from one of `starts`.
#[verifier::rlimit(30)]
pub fn reach_from(g: &Vec<Vec<usize>>, starts: &Vec<usize>) -> (seen: Vec<bool>)
    requires
        bounded(lists(g@)),
        forall|i: int| 0 <= i < starts@.len() ==> #[trigger] starts@[i] < g@.len(),
    ensures
        seen@.len() == g@.len(),
        forall|v: int| 0 <= v < g@.len() ==> (seen@[v] <==> reached(lists(g@), starts@, v)),
        forall|u: int| 0 <= u < g@.len() && seen@[u] ==> closed_at(lists(g@), seen@, u),
{
    let ghost k = lists(g@);
    let n = g.len();
    let mut seen: Vec<bool> = Vec::new();
    let mut i: usize = 0;
    while i < n
        invariant
            i <= n,
            seen@.len() == i,
            forall|j: int| 0 <= j < i ==> !seen@[j],
        decreases n - i,
    {
        seen.push(false);
        i += 1;
    }
    let ghost mut wit: Map<int, Seq<int>> = Map::empty();
    let mut stack: Vec<usize> = Vec::new();
    let mut s: usize = 0;
    while s < starts.len()
        invariant
            n == g@.len(),
            k == lists(g@),
            bounded(k),
            forall|i: int| 0 <= i < starts@.len() ==> #[trigger] starts@[i] < g@.len(),
            seen@.len() == n,
            s <= starts@.len(),
            witnessed(k, starts@, seen@, wit),
            stacked(stack@, seen@),
            closed_off(k, seen@, stack@, -1),
            forall|t: int| 0 <= t < s ==> seen@[#[trigger] starts@[t] as int],
        decreases starts@.len() - s,
    {
        let c = starts[s];
        if !seen[c] {
            proof {
                assert(starts@[s as int] as int == c as int);
                assert(is_start(starts@, c as int));
                assert(walk(k, seq![c as int]));
                lemma_mark(k, starts@, seen@, stack@, wit, -1, c, seq![c as int]);
                wit = wit.insert(c as int, seq![c as int]);
            }
            seen.set(c, true);
            stack.push(c);
        }
        s += 1;
    }
    while stack.len() > 0
        invariant
            n == g@.len(),
            k == lists(g@),
            bounded(k),
            seen@.len() == n,
            witnessed(k, starts@, seen@, wit),
            stacked(stack@, seen@),
            closed_off(k, seen@, stack@, -1),
            forall|i: int| 0 <= i < starts@.len() ==> #[trigger] starts@[i] < g@.len(),
            forall|t: int| 0 <= t < starts@.len() ==> seen@[#[trigger] starts@[t] as int],
        decreases 2 * unseen(seen@) + stack@.len(),
    {
        let ghost before = stack@;
        let u = stack[stack.len() - 1];
        let _ = stack.pop();
        proof {
            assert(before =~= stack@.push(u));
            assert forall|t: int| 0 <= t < stack@.len() implies #[trigger] stack@[t] < seen@.len()
                && seen@[stack@[t] as int] by {
                assert(stack@[t] == before[t]);
            }
            assert forall|v: int|
                0 <= v < seen@.len() && v != u && #[trigger] seen@[v] && !stack@.contains(v as usize)
                    implies closed_at(k, seen@, v) by {
                if before.contains(v as usize) {
                    let t = choose|t: int| 0 <= t < before.len() && before[t] == v as usize;
                    assert(stack@[t] == v as usize);
                }
            }
        }
        let Ghost(w2) = visit_children(g, starts, u, &mut seen, &mut stack, Ghost(wit));
        proof {
            wit = w2;
        }
    }
    proof {
        lemma_search_done(k, starts@, seen@, wit);
    }
    seen
}

} // verus!
