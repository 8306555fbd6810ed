//! Whether a graph is one piece.
//!
//! A graph is a list of adjacency lists. It is connected when every node can
//! be reached from every node along its edges. That is decided by two
//! searches from the first node: one along the edges, which finds the nodes
//! that the first node reaches, and one against them, which finds the nodes
//! that reach the first node.

use vstd::prelude::*;

verus! {

/// The adjacency lists as sequences.
pub open spec fn lists(graph: Seq<Vec<usize>>) -> Seq<Seq<usize>> {
    Seq::new(graph.len(), |node: int| graph[node]@)
}

/// Every edge leads to a node of the graph.
pub open spec fn edges_valid(graph: Seq<Seq<usize>>) -> bool {
    forall|node: int, k: int|
        0 <= node < graph.len() && 0 <= k < graph[node].len() ==> (#[trigger] graph[node][k])
            < graph.len()
}

/// There is an edge from `from` to `to`.
pub open spec fn edge(graph: Seq<Seq<usize>>, from: int, to: int) -> bool {
    &&& 0 <= from < graph.len()
    &&& 0 <= to < graph.len()
    &&& exists|k: int| 0 <= k < graph[from].len() && #[trigger] graph[from][k] == to
}

/// The nodes are visited one after the other along edges of the graph.
pub open spec fn is_walk(graph: Seq<Seq<usize>>, walk: Seq<int>) -> bool {
    &&& walk.len() > 0
    &&& 0 <= walk[0] < graph.len()
    &&& forall|i: int| 0 <= i < walk.len() - 1 ==> edge(graph, #[trigger] walk[i], walk[i + 1])
}

/// A walk leads from `from` to `to`.
pub open spec fn reaches(graph: Seq<Seq<usize>>, from: int, to: int) -> bool {
    exists|walk: Seq<int>| #[trigger] is_walk(graph, walk) && walk[0] == from && walk.last() == to
}

/// The set holds, with each of its nodes, the nodes that its edges lead to.
pub open spec fn closed(graph: Seq<Seq<usize>>, nodes: Set<int>) -> bool {
    forall|node: int, k: int|
        0 <= node < graph.len() && nodes.contains(node) && 0 <= k < graph[node].len()
            ==> nodes.contains(#[trigger] graph[node][k] as int)
}

/// Every node reaches every node: a closed set that holds a node holds them
/// all.
pub open spec fn connected(graph: Seq<Seq<usize>>) -> bool {
    forall|nodes: Set<int>, from: int, to: int|
        #[trigger] closed(graph, nodes) && 0 <= from < graph.len() && #[trigger] nodes.contains(from)
            && 0 <= to < graph.len() ==> #[trigger] nodes.contains(to)
}

/// `reversed` has the edges of `graph`, each turned round.
pub open spec fn turned(graph: Seq<Seq<usize>>, reversed: Seq<Seq<usize>>) -> bool {
    &&& reversed.len() == graph.len()
    &&& forall|from: int, to: int| #[trigger] edge(reversed, to, from) <==> edge(graph, from, to)
}

/// A node reaches itself.
pub proof fn lemma_reaches_itself(graph: Seq<Seq<usize>>, node: int)
    requires
        0 <= node < graph.len(),
    ensures
        reaches(graph, node, node),
{
    let walk = seq![node];
    assert(is_walk(graph, walk));
}

/// A walk goes on along an edge.
pub proof fn lemma_reaches_next(graph: Seq<Seq<usize>>, from: int, to: int, next: int)
    requires
        reaches(graph, from, to),
        edge(graph, to, next),
    ensures
        reaches(graph, from, next),
{
    let walk = choose|walk: Seq<int>|
        #[trigger] is_walk(graph, walk) && walk[0] == from && walk.last() == to;
    let longer = walk.push(next);
    assert(is_walk(graph, longer));
}

/// A walk turned round goes on against an edge.
pub proof fn lemma_reaches_from_before(graph: Seq<Seq<usize>>, before: int, from: int, to: int)
    requires
        edge(graph, before, from),
        reaches(graph, from, to),
    ensures
        reaches(graph, before, to),
{
    let walk = choose|walk: Seq<int>|
        #[trigger] is_walk(graph, walk) && walk[0] == from && walk.last() == to;
    let longer = seq![before] + walk;
    assert(is_walk(graph, longer));
}

/// A closed set that holds the first node of a walk holds the last.
pub proof fn lemma_walk_stays_inside(graph: Seq<Seq<usize>>, walk: Seq<int>, nodes: Set<int>)
    requires
        is_walk(graph, walk),
        closed(graph, nodes),
        nodes.contains(walk[0]),
    ensures
        nodes.contains(walk.last()),
    decreases walk.len(),
{
    if walk.len() > 1 {
        let shorter = walk.drop_last();
        lemma_walk_stays_inside(graph, shorter, nodes);
    }
}

/// A walk in the graph turned round is a walk of the graph in the other
/// direction.
pub proof fn lemma_reaches_turned(
    graph: Seq<Seq<usize>>,
    reversed: Seq<Seq<usize>>,
    walk: Seq<int>,
)
    requires
        turned(graph, reversed),
        is_walk(reversed, walk),
    ensures
        reaches(graph, walk.last(), walk[0]),
    decreases walk.len(),
{
    if walk.len() == 1 {
        lemma_reaches_itself(graph, walk[0]);
    } else {
        let shorter = walk.drop_last();
        lemma_reaches_turned(graph, reversed, shorter);
        let at = walk.len() - 2;
        lemma_reaches_from_before(graph, walk.last(), shorter.last(), walk[0]);
    }
}

/// How many of the marks are set.
pub open spec fn count_marked(marks: Seq<bool>) -> nat
    decreases marks.len(),
{
    if marks.len() == 0 {
        0
    } else {
        count_marked(marks.drop_last()) + if marks.last() {
            1nat
        } else {
            0nat
        }
    }
}

pub proof fn lemma_count_marked_bound(marks: Seq<bool>)
    ensures
        count_marked(marks) <= marks.len(),
    decreases marks.len(),
{
    if marks.len() > 0 {
        lemma_count_marked_bound(marks.drop_last());
    }
}

/// Setting a mark that was not set raises the count by one.
pub proof fn lemma_count_marked_set(marks: Seq<bool>, at: int)
    requires
        0 <= at < marks.len(),
        !marks[at],
    ensures
        count_marked(marks.update(at, true)) == count_marked(marks) + 1,
    decreases marks.len(),
{
    let after = marks.update(at, true);
    if at == marks.len() - 1 {
        assert(after.drop_last() == marks.drop_last());
    } else {
        assert(after.drop_last() == marks.drop_last().update(at, true));
        lemma_count_marked_set(marks.drop_last(), at);
    }
}

/// Marks the nodes that `root` reaches. The marked nodes are closed: every
/// edge from a marked node leads to a marked node.
pub fn reachable_from(graph: &Vec<Vec<usize>>, root: usize) -> (marks: Vec<bool>)
    requires
        edges_valid(lists(graph@)),
        root < graph@.len(),
    ensures
        marks@.len() == graph@.len(),
        marks@[root as int],
        forall|node: int|
            0 <= node < marks@.len() && #[trigger] marks@[node] ==> reaches(
                lists(graph@),
                root as int,
                node,
            ),
        forall|node: int, k: int|
            0 <= node < marks@.len() && marks@[node] && 0 <= k < lists(graph@)[node].len()
                ==> marks@[(#[trigger] lists(graph@)[node][k]) as int],
{
    let count = graph.len();
    let ghost edges = lists(graph@);
    let mut marks: Vec<bool> = Vec::new();
    let mut node: usize = 0;
    while node < count
        invariant
            node <= count,
            marks@.len() == node,
            forall|at: int| 0 <= at < node ==> !(#[trigger] marks@[at]),
            count_marked(marks@) == 0,
        decreases count - node,
    {
        let ghost before = marks@;
        marks.push(false);
        assert(marks@.drop_last() == before);
        node = node + 1;
    }
    let mut pending: Vec<usize> = Vec::new();
    proof {
        lemma_reaches_itself(edges, root as int);
    }
    marks[root] = true;
    pending.push(root);
    assert(pending@[0] == root);
    while pending.len() > 0
        invariant
            count == graph@.len(),
            edges == lists(graph@),
            edges_valid(edges),
            root < count,
            marks@.len() == count,
            marks@[root as int],
            forall|at: int|
                0 <= at < count && #[trigger] marks@[at] ==> reaches(edges, root as int, at),
            forall|i: int|
                0 <= i < pending@.len() ==> (#[trigger] pending@[i]) < count
                    && marks@[pending@[i] as int],
            forall|at: int, k: int|
                0 <= at < count && marks@[at] && 0 <= k < edges[at].len() ==> pending@.contains(
                    at as usize,
                ) || marks@[(#[trigger] edges[at][k]) as int],
        decreases count - count_marked(marks@), pending@.len(),
    {
        let ghost waiting = pending@;
        let current = pending.pop().unwrap();
        let ghost rest = pending@;
        let ghost marked = marks@;
        proof {
            assert forall|at: int, j: int|
                0 <= at < count && marks@[at] && 0 <= j < edges[at].len() implies at == current
                || pending@.contains(at as usize) || marks@[(#[trigger] edges[at][j]) as int] by {
                if waiting.contains(at as usize) && at != current {
                    let i = choose|i: int| 0 <= i < waiting.len() && waiting[i] == at as usize;
                    assert(rest[i] == at as usize);
                }
            }
        }
        let mut k: usize = 0;
        while k < graph[current].len()
            invariant
                count == graph@.len(),
                edges == lists(graph@),
                edges_valid(edges),
                root < count,
                current < count,
                marks@.len() == count,
                marks@[root as int],
                marks@[current as int],
                k <= edges[current as int].len(),
                count_marked(marks@) >= count_marked(marked),
                count_marked(marks@) > count_marked(marked) || pending@ == rest,
                forall|at: int|
                    0 <= at < count && #[trigger] marks@[at] ==> reaches(edges, root as int, at),
                forall|i: int|
                    0 <= i < pending@.len() ==> (#[trigger] pending@[i]) < count
                        && marks@[pending@[i] as int],
                forall|j: int| 0 <= j < k ==> marks@[(#[trigger] edges[current as int][j]) as int],
                forall|at: int, j: int|
                    0 <= at < count && marks@[at] && 0 <= j < edges[at].len() ==> at == current
                        || pending@.contains(at as usize) || marks@[(#[trigger] edges[at][j]) as int],
            decreases edges[current as int].len() - k,
        {
            let next = graph[current][k];
            if !marks[next] {
                proof {
                    lemma_count_marked_set(marks@, next as int);
                    lemma_reaches_next(edges, root as int, current as int, next as int);
                }
                let ghost listed = pending@;
                marks[next] = true;
                pending.push(next);
                proof {
                    assert(pending@[listed.len() as int] == next);
                    assert forall|at: int, j: int|
                        0 <= at < count && marks@[at] && 0 <= j < edges[at].len() implies at
                        == current || pending@.contains(at as usize) || marks@[(
                    #[trigger] edges[at][j]) as int] by {
                        if at != next && listed.contains(at as usize) {
                            let i = choose|i: int|
                                0 <= i < listed.len() && listed[i] == at as usize;
                            assert(pending@[i] == at as usize);
                        }
                    }
                }
            }
            k = k + 1;
        }
        proof {
            lemma_count_marked_bound(marks@);
        }
    }
    marks
}

/// One of the first `upto` edges of `from` leads to `to`.
pub open spec fn edge_among(graph: Seq<Seq<usize>>, from: int, to: int, upto: int) -> bool {
    exists|k: int| 0 <= k < upto && k < graph[from].len() && #[trigger] graph[from][k] == to
}

/// The graph with every edge turned round.
pub fn turn_round(graph: &Vec<Vec<usize>>) -> (reversed: Vec<Vec<usize>>)
    requires
        edges_valid(lists(graph@)),
    ensures
        turned(lists(graph@), lists(reversed@)),
        edges_valid(lists(reversed@)),
{
    let count = graph.len();
    let ghost edges = lists(graph@);
    let mut reversed: Vec<Vec<usize>> = Vec::new();
    let mut node: usize = 0;
    while node < count
        invariant
            node <= count,
            reversed@.len() == node,
            forall|at: int| 0 <= at < node ==> (#[trigger] reversed@[at])@.len() == 0,
        decreases count - node,
    {
        reversed.push(Vec::new());
        node = node + 1;
    }
    let mut from: usize = 0;
    while from < count
        invariant
            count == graph@.len(),
            edges == lists(graph@),
            edges_valid(edges),
            from <= count,
            reversed@.len() == count,
            forall|to: int, i: int|
                0 <= to < count && 0 <= i < reversed@[to]@.len() ==> (#[trigger] reversed@[to]@[i])
                    < from,
            forall|to: int, i: int|
                0 <= to < count && 0 <= i < reversed@[to]@.len() ==> edge(
                    edges,
                    (#[trigger] reversed@[to]@[i]) as int,
                    to,
                ),
            forall|a: int, b: int|
                0 <= a < from && 0 <= b < count && #[trigger] edge(edges, a, b) ==> exists|i: int|
                    0 <= i < reversed@[b]@.len() && #[trigger] reversed@[b]@[i] == a,
        decreases count - from,
    {
        let mut k: usize = 0;
        while k < graph[from].len()
            invariant
                count == graph@.len(),
                edges == lists(graph@),
                edges_valid(edges),
                from < count,
                k <= edges[from as int].len(),
                reversed@.len() == count,
                forall|to: int, i: int|
                    0 <= to < count && 0 <= i < reversed@[to]@.len() ==> (
                    #[trigger] reversed@[to]@[i]) <= from,
                forall|to: int, i: int|
                    0 <= to < count && 0 <= i < reversed@[to]@.len() ==> edge(
                        edges,
                        (#[trigger] reversed@[to]@[i]) as int,
                        to,
                    ),
                forall|a: int, b: int|
                    0 <= a < from && 0 <= b < count && #[trigger] edge(edges, a, b) ==> exists|
                        i: int,
                    | 0 <= i < reversed@[b]@.len() && #[trigger] reversed@[b]@[i] == a,
                forall|b: int|
                    0 <= b < count && #[trigger] edge_among(edges, from as int, b, k as int)
                        ==> exists|i: int|
                        0 <= i < reversed@[b]@.len() && #[trigger] reversed@[b]@[i] == from,
            decreases edges[from as int].len() - k,
        {
            let to = graph[from][k];
            assert(edges[from as int][k as int] == to);
            let ghost before = reversed@;
            reversed[to].push(from);
            proof {
                let listed = before[to as int]@;
                assert(reversed@[to as int]@ == listed.push(from));
                assert(reversed@[to as int]@[listed.len() as int] == from);
                assert(edge(edges, from as int, to as int));
                assert forall|b: int, i: int|
                    0 <= b < count && 0 <= i < reversed@[b]@.len() implies (
                #[trigger] reversed@[b]@[i]) <= from && edge(edges, reversed@[b]@[i] as int, b) by {
                    if b != to {
                        assert(reversed@[b] == before[b]);
                    } else if i < listed.len() {
                        assert(reversed@[b]@[i] == before[b]@[i]);
                    }
                }
                assert forall|a: int, b: int|
                    0 <= a < from && 0 <= b < count && #[trigger] edge(
                        edges,
                        a,
                        b,
                    ) implies exists|i: int|
                    0 <= i < reversed@[b]@.len() && #[trigger] reversed@[b]@[i] == a by {
                    let i = choose|i: int| 0 <= i < before[b]@.len() && #[trigger] before[b]@[i] == a;
                    if b != to {
                        assert(reversed@[b] == before[b]);
                    }
                    assert(reversed@[b]@[i] == a);
                }
                assert forall|b: int|
                    0 <= b < count && #[trigger] edge_among(
                        edges,
                        from as int,
                        b,
                        k + 1,
                    ) implies exists|i: int|
                    0 <= i < reversed@[b]@.len() && #[trigger] reversed@[b]@[i] == from by {
                    let j = choose|j: int|
                        0 <= j < k + 1 && j < edges[from as int].len() && #[trigger] edges[from as int][j]
                            == b;
                    if j < k {
                        assert(edge_among(edges, from as int, b, k as int));
                        let i = choose|i: int|
                            0 <= i < before[b]@.len() && #[trigger] before[b]@[i] == from;
                        if b != to {
                            assert(reversed@[b] == before[b]);
                        }
                        assert(reversed@[b]@[i] == from);
                    } else {
                        assert(b == to);
                    }
                }
            }
            k = k + 1;
        }
        proof {
            assert forall|a: int, b: int|
                0 <= a < from + 1 && 0 <= b < count && #[trigger] edge(edges, a, b) implies exists|
                i: int,
            | 0 <= i < reversed@[b]@.len() && #[trigger] reversed@[b]@[i] == a by {
                if a == from {
                    let j = choose|j: int|
                        0 <= j < edges[a].len() && #[trigger] edges[a][j] == b;
                    assert(edge_among(edges, from as int, b, k as int));
                }
            }
            assert forall|to: int, i: int|
                0 <= to < count && 0 <= i < reversed@[to]@.len() implies (
            #[trigger] reversed@[to]@[i]) < from + 1 by {
            }
        }
        from = from + 1;
    }
    proof {
        let turned_edges = lists(reversed@);
        assert forall|a: int, b: int| #[trigger] edge(turned_edges, b, a) <==> edge(
            edges,
            a,
            b,
        ) by {
            if edge(turned_edges, b, a) {
                let i = choose|i: int|
                    0 <= i < turned_edges[b].len() && #[trigger] turned_edges[b][i] == a;
                assert(reversed@[b]@[i] == a);
                assert(edge(edges, reversed@[b]@[i] as int, b));
            }
            if edge(edges, a, b) {
                let i = choose|i: int|
                    0 <= i < reversed@[b]@.len() && #[trigger] reversed@[b]@[i] == a;
                assert(turned_edges[b][i] == a);
            }
        }
        assert forall|at: int, i: int|
            0 <= at < turned_edges.len() && 0 <= i < turned_edges[at].len() implies (
        #[trigger] turned_edges[at][i]) < turned_edges.len() by {
            assert(reversed@[at]@[i] < count);
        }
    }
    reversed
}

/// Whether every mark is set.
pub fn all_marked(marks: &Vec<bool>) -> (r: bool)
    ensures
        r == forall|at: int| 0 <= at < marks@.len() ==> #[trigger] marks@[at],
{
    let mut at: usize = 0;
    while at < marks.len()
        invariant
            at <= marks@.len(),
            forall|i: int| 0 <= i < at ==> #[trigger] marks@[i],
        decreases marks@.len() - at,
    {
        if !marks[at] {
            return false;
        }
        at = at + 1;
    }
    true
}

/// Decides [`connected`] by a search from the first node along the edges
/// and one against them.
pub fn is_connected(graph: &Vec<Vec<usize>>) -> (r: bool)
    requires
        edges_valid(lists(graph@)),
    ensures
        r == connected(lists(graph@)),
{
    let ghost edges = lists(graph@);
    if graph.len() == 0 {
        return true;
    }
    let forward = reachable_from(graph, 0);
    if !all_marked(&forward) {
        proof {
            let reached = Set::new(|node: int| 0 <= node < edges.len() && forward@[node]);
            let missed = choose|at: int| 0 <= at < forward@.len() && !forward@[at];
            assert(closed(edges, reached)) by {
                assert forall|node: int, k: int|
                    0 <= node < edges.len() && reached.contains(node) && 0 <= k
                        < edges[node].len() implies reached.contains(
                    #[trigger] edges[node][k] as int,
                ) by {
                    assert(forward@[edges[node][k] as int]);
                }
            }
            assert(reached.contains(0));
            assert(!reached.contains(missed));
        }
        return false;
    }
    let reversed = turn_round(graph);
    let ghost turned_edges = lists(reversed@);
    let backward = reachable_from(&reversed, 0);
    if !all_marked(&backward) {
        proof {
            let cut_off = Set::new(|node: int| 0 <= node < edges.len() && !backward@[node]);
            let missed = choose|at: int| 0 <= at < backward@.len() && !backward@[at];
            assert(closed(edges, cut_off)) by {
                assert forall|node: int, k: int|
                    0 <= node < edges.len() && cut_off.contains(node) && 0 <= k
                        < edges[node].len() implies cut_off.contains(
                    #[trigger] edges[node][k] as int,
                ) by {
                    let next = edges[node][k] as int;
                    assert(edge(edges, node, next));
                    assert(edge(turned_edges, next, node));
                    if backward@[next] {
                        let i = choose|i: int|
                            0 <= i < turned_edges[next].len() && #[trigger] turned_edges[next][i]
                                == node;
                        assert(backward@[turned_edges[next][i] as int]);
                    }
                }
            }
            assert(cut_off.contains(missed));
            assert(!cut_off.contains(0));
        }
        return false;
    }
    proof {
        assert forall|nodes: Set<int>, from: int, to: int|
            #[trigger] closed(edges, nodes) && 0 <= from < edges.len() && #[trigger] nodes.contains(
                from,
            ) && 0 <= to < edges.len() implies #[trigger] nodes.contains(to) by {
            assert(backward@[from]);
            let back = choose|walk: Seq<int>|
                #[trigger] is_walk(turned_edges, walk) && walk[0] == 0 && walk.last() == from;
            lemma_reaches_turned(edges, turned_edges, back);
            let home = choose|walk: Seq<int>|
                #[trigger] is_walk(edges, walk) && walk[0] == from && walk.last() == 0;
            lemma_walk_stays_inside(edges, home, nodes);
            assert(forward@[to]);
            let out = choose|walk: Seq<int>|
                #[trigger] is_walk(edges, walk) && walk[0] == 0 && walk.last() == to;
            lemma_walk_stays_inside(edges, out, nodes);
        }
    }
    true
}

} // verus!
