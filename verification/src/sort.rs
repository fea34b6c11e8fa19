use vstd::arithmetic::div_mod::{lemma_mod_self_0, lemma_small_mod};
use vstd::prelude::*;
use vstd::seq_lib::*;

verus! {

/// The one way a graph can fail to linearize.
#[derive(Clone, Copy, PartialEq, Eq, Structural, Debug)]
pub enum BuildError {
    CycleDetected,
}

/// What the sorter needs of a graph: a node count, and for each node the
/// nodes its outgoing edges reach, in the order the edges were added.
pub trait Sortable {
    /// How many nodes the graph has.
    spec fn node_count(&self) -> nat;

    /// The successors of node `i`, in edge order.
    spec fn successors_of(&self, i: int) -> Seq<usize>;

    fn num_nodes(&self) -> (n: usize)
        ensures
            n as nat == self.node_count(),
    ;

    fn next_nodes(&self, index: usize) -> (r: Vec<usize>)
        requires
            (index as nat) < self.node_count(),
        ensures
            r@ == self.successors_of(index as int),
    ;
}

/// Every edge of the graph lands on a real node.
pub open spec fn edges_in_range<S: Sortable>(g: &S) -> bool {
    forall|i: int, k: int|
        0 <= i < g.node_count() && 0 <= k < g.successors_of(i).len()
            ==> ((#[trigger] g.successors_of(i)[k]) as nat) < g.node_count()
}

/// There is an edge from `u` to `v`.
pub open spec fn has_edge<S: Sortable>(g: &S, u: usize, v: usize) -> bool {
    g.successors_of(u as int).contains(v)
}

/// `c` walks a directed cycle of the graph: every step follows an edge,
/// the last node steps back to the first, and every node is a real one.
pub open spec fn is_cycle<S: Sortable>(g: &S, c: Seq<usize>) -> bool {
    &&& c.len() > 0
    &&& forall|k: int| 0 <= k < c.len() ==> (#[trigger] c[k] as nat) < g.node_count()
    &&& forall|k: int| 0 <= k < c.len() ==> has_edge(g, #[trigger] c[k], c[(k + 1) % (c.len() as int)])
}

/// The graph holds some directed cycle.
pub open spec fn has_cycle<S: Sortable>(g: &S) -> bool {
    exists|c: Seq<usize>| is_cycle(g, c)
}

/// Index order of `o` never contradicts an edge: whenever an edge runs
/// from `o[i]` to `o[j]`, node `o[i]` stands earlier.
pub open spec fn respects_edges<S: Sortable>(g: &S, o: Seq<usize>) -> bool {
    forall|i: int, j: int|
        0 <= i < o.len() && 0 <= j < o.len() && has_edge(g, #[trigger] o[i], #[trigger] o[j])
            ==> i < j
}

/// `o` lists every node of the graph exactly once.
pub open spec fn lists_nodes_once<S: Sortable>(g: &S, o: Seq<usize>) -> bool {
    &&& o.len() == g.node_count()
    &&& forall|j: int| 0 <= j < o.len() ==> (#[trigger] o[j] as nat) < g.node_count()
    &&& forall|i: int, j: int| 0 <= i < o.len() && 0 <= j < o.len() && i != j ==> o[i] != o[j]
    &&& forall|x: usize| (x as nat) < g.node_count() ==> #[trigger] o.contains(x)
}

/// An order that respects every edge leaves no room for a cycle.
pub proof fn lemma_order_excludes_cycle<S: Sortable>(g: &S, o: Seq<usize>, c: Seq<usize>)
    requires
        respects_edges(g, o),
        lists_nodes_once(g, o),
    ensures
        !is_cycle(g, c),
{
    if is_cycle(g, c) {
        let pos = |x: usize| choose|i: int| 0 <= i < o.len() && o[i] == x;
        lemma_cycle_positions_grow(g, o, c, c.len() as int - 1);
        lemma_mod_self_0(c.len() as int);
        // The edge from the cycle's last node back to its first forces the
        // last node's position below the first's, against the chain just
        // built, so no such cycle can exist.
        let last = c.len() as int - 1;
        lemma_cycle_positions_grow(g, o, c, 0);
        assert(has_edge(g, c[last], c[(last + 1) % (c.len() as int)]));
        assert((last + 1) % (c.len() as int) == 0);
        assert(o[pos(c[last])] == c[last] && o[pos(c[0])] == c[0]);
        assert(has_edge(g, o[pos(c[last])], o[pos(c[0])]));
        assert(pos(c[last]) < pos(c[0]));
        assert(false);
    }
}

/// Along a cycle's edges, positions in an edge-respecting order only grow.
proof fn lemma_cycle_positions_grow<S: Sortable>(g: &S, o: Seq<usize>, c: Seq<usize>, k: int)
    requires
        respects_edges(g, o),
        lists_nodes_once(g, o),
        is_cycle(g, c),
        0 <= k < c.len(),
    ensures
        ({
            let pos = |x: usize| choose|i: int| 0 <= i < o.len() && o[i] == x;
            pos(c[0]) <= pos(c[k]) && 0 <= pos(c[k]) < o.len() && o[pos(c[k])] == c[k]
        }),
    decreases k,
{
    let pos = |x: usize| choose|i: int| 0 <= i < o.len() && o[i] == x;
    assert(o.contains(c[k]));
    assert(0 <= pos(c[k]) < o.len() && o[pos(c[k])] == c[k]);
    if k > 0 {
        lemma_cycle_positions_grow(g, o, c, k - 1);
        assert(has_edge(g, c[k - 1], c[k])) by {
            assert(has_edge(g, c[k - 1], c[((k - 1) + 1) % (c.len() as int)]));
            lemma_small_mod(k as nat, c.len());
        }
        assert(pos(c[k - 1]) < pos(c[k]));
    }
}

/// The marking a depth-first walk leaves on a node.
#[derive(Clone, Copy, PartialEq, Eq, Structural, Debug)]
pub enum Mark {
    /// Not reached yet.
    Unvisited,
    /// On the walk's current path.
    Active,
    /// Fully explored and placed in the post-order.
    Done,
}

/// How many nodes a marking still leaves unvisited.
pub open spec fn count_unvisited(m: Seq<Mark>) -> nat
    decreases m.len(),
{
    if m.len() == 0 {
        0
    } else {
        count_unvisited(m.drop_last()) + if m.last() is Unvisited {
            1nat
        } else {
            0nat
        }
    }
}

proof fn lemma_count_update(m: Seq<Mark>, i: int, v: Mark)
    requires
        0 <= i < m.len(),
        m[i] is Unvisited,
        !(v is Unvisited),
    ensures
        count_unvisited(m.update(i, v)) < count_unvisited(m),
    decreases m.len(),
{
    if i == m.len() - 1 {
        assert(m.update(i, v).drop_last() =~= m.drop_last());
        lemma_count_no_new_unvisited(m.drop_last(), m.drop_last());
    } else {
        assert(m.update(i, v).drop_last() =~= m.drop_last().update(i, v));
        lemma_count_update(m.drop_last(), i, v);
    }
}

proof fn lemma_count_no_new_unvisited(m1: Seq<Mark>, m2: Seq<Mark>)
    requires
        m1.len() == m2.len(),
        forall|i: int| 0 <= i < m2.len() && (#[trigger] m2[i]) is Unvisited ==> m1[i] is Unvisited,
    ensures
        count_unvisited(m2) <= count_unvisited(m1),
    decreases m1.len(),
{
    if m1.len() > 0 {
        lemma_count_no_new_unvisited(m1.drop_last(), m2.drop_last());
    }
}

/// A depth-first walk that linearizes a graph: it emits a post-order of
/// every node, rejecting any directed cycle it runs into.
pub struct TopologicalSort {
    ordering: Vec<usize>,
    marks: Vec<Mark>,
}

/// At least one node is unvisited where one is seen to be.
proof fn lemma_count_positive(m: Seq<Mark>, i: int)
    requires
        0 <= i < m.len(),
        m[i] is Unvisited,
    ensures
        count_unvisited(m) >= 1,
    decreases m.len(),
{
    if i < m.len() - 1 {
        lemma_count_positive(m.drop_last(), i);
    }
}

/// One ghost step of the deterministic walk: visiting node `i` marks it,
/// walks its successors in the order their edges were added, and then
/// emits it. `fuel` only bounds the recursion; any fuel covering the
/// unvisited nodes reproduces the walk exactly (`lemma_spec_visit_fuel`).
pub open spec fn spec_visit_from<S: Sortable>(
    g: &S,
    marks: Seq<Mark>,
    ordering: Seq<usize>,
    i: int,
    fuel: nat,
) -> (Seq<Mark>, Seq<usize>)
    decreases fuel, 1int, 0int,
{
    if fuel == 0 || !(0 <= i < marks.len()) {
        (marks, ordering)
    } else {
        let m1 = marks.update(i, Mark::Active);
        let st = spec_visit_succs(g, m1, ordering, i, 0, fuel);
        (st.0.update(i, Mark::Done), st.1.push(i as usize))
    }
}

/// The ghost walk over node `i`'s successors from position `k` on, in
/// edge order, descending into each unvisited one.
pub open spec fn spec_visit_succs<S: Sortable>(
    g: &S,
    marks: Seq<Mark>,
    ordering: Seq<usize>,
    i: int,
    k: int,
    fuel: nat,
) -> (Seq<Mark>, Seq<usize>)
    decreases fuel, 0int, g.successors_of(i).len() - k,
{
    if !(0 <= k < g.successors_of(i).len()) {
        (marks, ordering)
    } else {
        let v = g.successors_of(i)[k] as int;
        let st = if fuel > 0 && 0 <= v < marks.len() && marks[v] is Unvisited {
            spec_visit_from(g, marks, ordering, v, (fuel - 1) as nat)
        } else {
            (marks, ordering)
        };
        spec_visit_succs(g, st.0, st.1, i, k + 1, fuel)
    }
}

/// Every node unvisited: the walk's starting marks.
pub open spec fn all_unvisited(n: nat) -> Seq<Mark> {
    Seq::new(n, |i: int| Mark::Unvisited)
}

/// The walk's state after its outer loop has seeded nodes `0 .. k`.
pub open spec fn spec_sort_seeds<S: Sortable>(g: &S, k: int) -> (Seq<Mark>, Seq<usize>)
    decreases k,
{
    if k <= 0 {
        (all_unvisited(g.node_count()), Seq::empty())
    } else {
        let st = spec_sort_seeds(g, k - 1);
        if 0 <= k - 1 < st.0.len() && st.0[k - 1] is Unvisited {
            spec_visit_from(g, st.0, st.1, k - 1, count_unvisited(st.0))
        } else {
            st
        }
    }
}

/// The one order the sorter produces for a graph: the depth-first
/// post-order seeded from node 0 upward, successors walked in the order
/// their edges were added, reversed so that producers come first.
pub open spec fn spec_sort_order<S: Sortable>(g: &S) -> Seq<usize> {
    spec_sort_seeds(g, g.node_count() as int).1.reverse()
}

/// The ghost walk ignores its fuel once the fuel covers every node it
/// could still reach: two sufficient fuels agree exactly; the walk keeps
/// the node count, changes only unvisited marks, and settles at least
/// the node it starts from.
proof fn lemma_spec_visit_fuel<S: Sortable>(
    g: &S,
    marks: Seq<Mark>,
    ordering: Seq<usize>,
    i: int,
    f1: nat,
    f2: nat,
)
    requires
        0 <= i < marks.len(),
        marks[i] is Unvisited,
        f1 >= count_unvisited(marks),
        f2 >= count_unvisited(marks),
    ensures
        spec_visit_from(g, marks, ordering, i, f1) == spec_visit_from(g, marks, ordering, i, f2),
        spec_visit_from(g, marks, ordering, i, f1).0.len() == marks.len(),
        count_unvisited(spec_visit_from(g, marks, ordering, i, f1).0) < count_unvisited(marks),
        forall|x: int|
            0 <= x < marks.len() && (#[trigger] spec_visit_from(g, marks, ordering, i, f1).0[x])
                != marks[x] ==> marks[x] is Unvisited,
    decreases f1, 1int, 0int,
{
    lemma_count_positive(marks, i);
    let m1 = marks.update(i, Mark::Active);
    lemma_count_update(marks, i, Mark::Active);
    lemma_spec_visit_succs_fuel(g, m1, ordering, i, 0, f1, f2);
    let st = spec_visit_succs(g, m1, ordering, i, 0, f1);
    // the walk never re-marks the node it is standing on
    assert(st.0[i] == m1[i]);
    let done = st.0.update(i, Mark::Done);
    lemma_count_no_new_unvisited(st.0, done);
    lemma_count_no_new_unvisited(done, st.0);
    assert forall|x: int|
        0 <= x < marks.len() && (#[trigger] spec_visit_from(g, marks, ordering, i, f1).0[x])
            != marks[x] implies marks[x] is Unvisited by {
        if x != i && done[x] != marks[x] {
            assert(st.0[x] != m1[x] || m1[x] != marks[x]);
            if st.0[x] != m1[x] {
                assert(m1[x] is Unvisited);
            }
        }
    }
}

/// Fuel irrelevance for the successor walk, under one extra unit of fuel
/// for the node being expanded.
proof fn lemma_spec_visit_succs_fuel<S: Sortable>(
    g: &S,
    marks: Seq<Mark>,
    ordering: Seq<usize>,
    i: int,
    k: int,
    f1: nat,
    f2: nat,
)
    requires
        f1 >= count_unvisited(marks) + 1,
        f2 >= count_unvisited(marks) + 1,
    ensures
        spec_visit_succs(g, marks, ordering, i, k, f1) == spec_visit_succs(
            g,
            marks,
            ordering,
            i,
            k,
            f2,
        ),
        spec_visit_succs(g, marks, ordering, i, k, f1).0.len() == marks.len(),
        count_unvisited(spec_visit_succs(g, marks, ordering, i, k, f1).0) <= count_unvisited(
            marks,
        ),
        forall|x: int|
            0 <= x < marks.len() && (#[trigger] spec_visit_succs(g, marks, ordering, i, k, f1).0[x])
                != marks[x] ==> marks[x] is Unvisited,
    decreases f1, 0int, g.successors_of(i).len() - k,
{
    if 0 <= k < g.successors_of(i).len() {
        let v = g.successors_of(i)[k] as int;
        if 0 <= v < marks.len() && marks[v] is Unvisited {
            lemma_spec_visit_fuel(g, marks, ordering, v, (f1 - 1) as nat, (f2 - 1) as nat);
            let st = spec_visit_from(g, marks, ordering, v, (f1 - 1) as nat);
            lemma_spec_visit_succs_fuel(g, st.0, st.1, i, k + 1, f1, f2);
            assert forall|x: int|
                0 <= x < marks.len() && (#[trigger] spec_visit_succs(
                    g,
                    marks,
                    ordering,
                    i,
                    k,
                    f1,
                ).0[x]) != marks[x] implies marks[x] is Unvisited by {
                if st.0[x] != marks[x] {
                } else {
                    assert(spec_visit_succs(g, st.0, st.1, i, k + 1, f1).0[x] != st.0[x]);
                    assert(st.0[x] is Unvisited);
                }
            }
        } else {
            lemma_spec_visit_succs_fuel(g, marks, ordering, i, k + 1, f1, f2);
        }
    }
}

/// Marking an unvisited node `Active` leaves the walk state sound, and
/// standing it at the end of the walk's path keeps the path sound.
proof fn lemma_mark_active<S: Sortable>(
    g: &S,
    m0: Seq<Mark>,
    o0: Seq<usize>,
    path: Seq<usize>,
    index: usize,
)
    requires
        sorter_inv(g, m0, o0),
        path_inv(g, m0, path),
        (index as nat) < g.node_count(),
        m0[index as int] is Unvisited,
        path.len() > 0 ==> has_edge(g, path.last(), index),
    ensures
        sorter_inv(g, m0.update(index as int, Mark::Active), o0),
        path_inv(g, m0.update(index as int, Mark::Active), path.push(index)),
{
    let m1 = m0.update(index as int, Mark::Active);
    let path2 = path.push(index);
    assert forall|j: int| 0 <= j < o0.len() implies m1[#[trigger] o0[j] as int] is Done by {
        assert(m0[o0[j] as int] is Done);
    }
    assert forall|x: int|
        0 <= x < m1.len() && (#[trigger] m1[x]) is Done implies o0.contains(x as usize) by {
        assert(m0[x] is Done);
    }
    assert forall|x: int|
        0 <= x < m1.len() && (#[trigger] m1[x]) is Active implies path2.contains(x as usize) by {
        if x == index as int {
            assert(path2[path2.len() - 1] == index);
        } else {
            assert(m0[x] is Active);
            assert(path.contains(x as usize));
            let i = choose|i: int| 0 <= i < path.len() && path[i] == x as usize;
            assert(path2[i] == x as usize);
        }
    }
    assert forall|k: int| 0 <= k < path2.len() implies m1[#[trigger] path2[k] as int] is Active by {
        if k < path2.len() - 1 {
            assert(path[k] == path2[k]);
            assert(m0[path2[k] as int] is Active);
        } else {
            assert(path2[k] == index);
        }
    }
    assert forall|k: int|
        0 <= k < path2.len() - 1 implies has_edge(g, #[trigger] path2[k], path2[k + 1]) by {
        if k < path.len() - 1 {
            assert(path2[k] == path[k] && path2[k + 1] == path[k + 1]);
        } else {
            assert(path2[k] == path.last() && path2[k + 1] == index);
        }
    }
}

/// An edge from the end of the walk's path back onto the path closes a
/// directed cycle.
#[verifier::rlimit(60)]
#[verifier::spinoff_prover]
proof fn lemma_back_edge_cycle<S: Sortable>(g: &S, marks: Seq<Mark>, path2: Seq<usize>, v: usize)
    requires
        path_inv(g, marks, path2),
        path2.len() > 0,
        (v as int) < marks.len(),
        marks[v as int] is Active,
        has_edge(g, path2.last(), v),
    ensures
        has_cycle(g),
{
    assert(path2.contains(v));
    let pv = choose|p: int| 0 <= p < path2.len() && path2[p] == v;
    let c = path2.subrange(pv, path2.len() as int);
    assert(c.len() > 0);
    assert(c.last() == path2.last());
    assert forall|k: int|
        0 <= k < c.len() implies has_edge(g, #[trigger] c[k], c[(k + 1) % (c.len() as int)]) by {
        if k < c.len() - 1 {
            assert(c[k] == path2[pv + k]);
            assert(c[k + 1] == path2[pv + k + 1]);
            lemma_small_mod((k + 1) as nat, c.len());
        } else {
            lemma_mod_self_0(c.len() as int);
            assert(c[k] == path2.last() && c[0] == v);
        }
    }
    assert(is_cycle(g, c));
}

/// Emitting a node whose successors are all emitted keeps the walk state
/// sound.
proof fn lemma_emit<S: Sortable>(g: &S, m_loop: Seq<Mark>, o_loop: Seq<usize>, index: usize)
    requires
        edges_in_range(g),
        sorter_inv(g, m_loop, o_loop),
        (index as nat) < g.node_count(),
        m_loop[index as int] is Active,
        forall|k: int|
            0 <= k < g.successors_of(index as int).len() ==> m_loop[#[trigger] g.successors_of(
                index as int,
            )[k] as int] is Done,
    ensures
        sorter_inv(
            g,
            m_loop.update(index as int, Mark::Done),
            o_loop.push(index),
        ),
{
    let o2 = o_loop.push(index);
    let m2 = m_loop.update(index as int, Mark::Done);
    assert forall|x: int|
        0 <= x < m2.len() && (#[trigger] m2[x]) is Done implies o2.contains(x as usize) by {
        if x == index as int {
            assert(o2[o2.len() - 1] == index);
        } else {
            assert(m_loop[x] is Done);
            assert(o_loop.contains(x as usize));
            let i = choose|i: int| 0 <= i < o_loop.len() && o_loop[i] == x as usize;
            assert(o2[i] == x as usize);
        }
    }
    assert forall|j: int| 0 <= j < o2.len() implies m2[#[trigger] o2[j] as int] is Done by {
        if j < o2.len() - 1 {
            assert(o2[j] == o_loop[j]);
            assert(m_loop[o_loop[j] as int] is Done);
        }
    }
    assert forall|i: int, j: int|
        0 <= i < o2.len() && 0 <= j < o2.len() && i != j implies o2[i] != o2[j] by {
        if i < o2.len() - 1 && j < o2.len() - 1 {
            assert(o2[i] == o_loop[i] && o2[j] == o_loop[j]);
        } else if j == o2.len() - 1 && i < j {
            assert(o2[i] == o_loop[i]);
            assert(m_loop[o_loop[i] as int] is Done);
        } else if i == o2.len() - 1 && j < i {
            assert(o2[j] == o_loop[j]);
            assert(m_loop[o_loop[j] as int] is Done);
        }
    }
    assert forall|j: int, v: usize|
        0 <= j < o2.len() && #[trigger] has_edge(g, o2[j], v) implies emitted_before(
        o2,
        j,
        v,
    ) by {
        if j < o2.len() - 1 {
            assert(o2[j] == o_loop[j]);
            assert(emitted_before(o_loop, j, v));
            let i2 = choose|i2: int| 0 <= i2 < j && o_loop[i2] == v;
            assert(o2[i2] == v);
        } else {
            assert(o2[j] == index);
            let k = choose|k: int|
                0 <= k < g.successors_of(index as int).len() && g.successors_of(index as int)[k]
                    == v;
            assert(m_loop[g.successors_of(index as int)[k] as int] is Done);
            assert((v as nat) < g.node_count());
            assert(o_loop.contains(v));
            let i2 = choose|i2: int| 0 <= i2 < o_loop.len() && o_loop[i2] == v;
            assert(o2[i2] == v);
        }
    }
    assert(m2.len() == g.node_count());
    assert forall|j: int| 0 <= j < o2.len() implies (#[trigger] o2[j] as nat) < g.node_count() by {
        if j < o2.len() - 1 {
            assert(o2[j] == o_loop[j]);
        } else {
            assert(o2[j] == index);
        }
    }
    assert(sorter_inv_order_only(g, o2));
}

/// The walk's running state is sound for graph `g`: the emitted nodes are
/// exactly the `Done` ones, none repeats, and every successor of an
/// emitted node stands earlier in the emission.
spec fn sorter_inv<S: Sortable>(g: &S, marks: Seq<Mark>, ordering: Seq<usize>) -> bool {
    &&& marks.len() == g.node_count()
    &&& forall|j: int| 0 <= j < ordering.len() ==> (#[trigger] ordering[j] as nat) < g.node_count()
    &&& forall|j: int| 0 <= j < ordering.len() ==> marks[#[trigger] ordering[j] as int] is Done
    &&& forall|x: int|
        0 <= x < marks.len() && (#[trigger] marks[x]) is Done ==> ordering.contains(x as usize)
    &&& forall|i: int, j: int|
        0 <= i < ordering.len() && 0 <= j < ordering.len() && i != j ==> ordering[i] != ordering[j]
    &&& sorter_inv_order_only(g, ordering)
}

/// The ghost path a walk is standing on: consecutive nodes joined by
/// edges, every node on it marked `Active`, and nothing else `Active`.
spec fn path_inv<S: Sortable>(g: &S, marks: Seq<Mark>, path: Seq<usize>) -> bool {
    &&& forall|k: int| 0 <= k < path.len() ==> (#[trigger] path[k] as nat) < g.node_count()
    &&& forall|k: int| 0 <= k < path.len() - 1 ==> has_edge(g, #[trigger] path[k], path[k + 1])
    &&& forall|x: int|
        0 <= x < marks.len() && (#[trigger] marks[x]) is Active ==> path.contains(x as usize)
    &&& forall|k: int| 0 <= k < path.len() ==> marks[#[trigger] path[k] as int] is Active
}

impl TopologicalSort {
    /// Walk from `index`, an unvisited node, emitting every node reachable
    /// from it that is not yet emitted, in post-order; report a cycle if
    /// the walk reaches a node of its own current path.
    #[verifier::rlimit(100)]
    #[verifier::loop_isolation(false)]
    fn visit<S: Sortable>(
        &mut self,
        g: &S,
        index: usize,
        path: Ghost<Seq<usize>>,
        fuel: Ghost<nat>,
    ) -> (r: Result<(), BuildError>)
        requires
            edges_in_range(g),
            sorter_inv(g, old(self).marks@, old(self).ordering@),
            (index as nat) < g.node_count(),
            old(self).marks@[index as int] is Unvisited,
            path_inv(g, old(self).marks@, path@),
            path@.len() > 0 ==> has_edge(g, path@.last(), index),
            count_unvisited(old(self).marks@) <= fuel@,
        ensures
            r is Ok ==> sorter_inv(g, final(self).marks@, final(self).ordering@),
            r is Ok ==> final(self).marks@.len() == old(self).marks@.len(),
            r is Ok ==> final(self).marks@[index as int] is Done,
            r is Ok ==> forall|x: int|
                0 <= x < old(self).marks@.len() ==> ((#[trigger] final(self).marks@[x]) is Active
                    <==> old(self).marks@[x] is Active),
            r is Ok ==> forall|x: int|
                0 <= x < old(self).marks@.len() && (#[trigger] old(self).marks@[x]) is Done
                    ==> final(self).marks@[x] is Done,
            r is Ok ==> forall|x: int|
                0 <= x < old(self).marks@.len() && (#[trigger] final(self).marks@[x]) is Unvisited
                    ==> old(self).marks@[x] is Unvisited,
            r is Ok ==> old(self).ordering@.is_prefix_of(final(self).ordering@),
            r is Ok ==> count_unvisited(final(self).marks@) < count_unvisited(old(self).marks@),
            r is Ok ==> (final(self).marks@, final(self).ordering@) == spec_visit_from(
                g,
                old(self).marks@,
                old(self).ordering@,
                index as int,
                count_unvisited(old(self).marks@),
            ),
            r is Err ==> has_cycle(g),
        decreases fuel@,
    {
        let ghost m0 = self.marks@;
        let ghost o0 = self.ordering@;
        let ghost cap = count_unvisited(m0);
        self.marks.set(index, Mark::Active);
        let ghost m1 = self.marks@;
        proof {
            lemma_count_update(m0, index as int, Mark::Active);
            lemma_count_positive(m0, index as int);
        }
        let ghost path2 = path@.push(index);
        let nexts = g.next_nodes(index);
        proof {
            lemma_mark_active(g, m0, o0, path@, index);
            assert forall|k: int| 0 <= k < nexts@.len() implies (#[trigger] nexts@[k] as nat)
                < g.node_count() by {
                assert(g.successors_of(index as int)[k] == nexts@[k]);
            }
        }
        let mut i: usize = 0;
        while i < nexts.len()
            invariant
                sorter_inv(g, self.marks@, self.ordering@),
                i <= nexts.len(),
                self.marks@.len() == m0.len(),
                path_inv(g, self.marks@, path2),
                self.marks@[index as int] is Active,
                spec_visit_succs(g, self.marks@, self.ordering@, index as int, i as int, cap)
                    == spec_visit_succs(g, m1, o0, index as int, 0, cap),
                forall|x: int|
                    0 <= x < m0.len() ==> ((#[trigger] self.marks@[x]) is Active <==> (m0[x]
                        is Active || x == index as int)),
                forall|x: int|
                    0 <= x < m0.len() && (#[trigger] m0[x]) is Done ==> self.marks@[x] is Done,
                forall|x: int|
                    0 <= x < m0.len() && (#[trigger] self.marks@[x]) is Unvisited ==> m0[x]
                        is Unvisited,
                o0.is_prefix_of(self.ordering@),
                count_unvisited(self.marks@) < count_unvisited(m0),
                forall|k: int| 0 <= k < i ==> self.marks@[#[trigger] nexts@[k] as int] is Done,
            decreases nexts.len() - i,
        {
            let v = nexts[i];
            let ghost cur_m = self.marks@;
            let ghost cur_o = self.ordering@;
            proof {
                assert(g.successors_of(index as int)[i as int] == v);
            }
            if self.marks[v] == Mark::Done {
                // already emitted: the ghost walk skips it too
                proof {
                    assert(spec_visit_succs(g, cur_m, cur_o, index as int, i as int, cap)
                        == spec_visit_succs(g, cur_m, cur_o, index as int, i + 1, cap));
                }
            } else if self.marks[v] == Mark::Active {
                proof {
                    // `v` lies on the walk's own path: the edge from
                    // `index` back onto it closes a cycle.
                    assert(path2.last() == index);
                    assert(has_edge(g, index, v)) by {
                        assert(g.successors_of(index as int)[i as int] == v);
                    }
                    lemma_back_edge_cycle(g, self.marks@, path2, v);
                }
                return Err(BuildError::CycleDetected);
            } else {
                let ghost m_before = self.marks@;
                let r = self.visit(g, v, Ghost(path2), Ghost(count_unvisited(m_before)));
                if r.is_err() {
                    return Err(BuildError::CycleDetected);
                }
                proof {
                    lemma_count_no_new_unvisited(m_before, self.marks@);
                    // the step the ghost walk takes here agrees with the
                    // recursive call: its fuel is also sufficient
                    lemma_spec_visit_fuel(
                        g,
                        cur_m,
                        cur_o,
                        v as int,
                        (cap - 1) as nat,
                        count_unvisited(cur_m),
                    );
                    assert(spec_visit_succs(g, cur_m, cur_o, index as int, i as int, cap)
                        == spec_visit_succs(
                        g,
                        self.marks@,
                        self.ordering@,
                        index as int,
                        i + 1,
                        cap,
                    ));
                }
            }
            i = i + 1;
        }
        let ghost m_loop = self.marks@;
        let ghost o_loop = self.ordering@;
        self.marks.set(index, Mark::Done);
        self.ordering.push(index);
        proof {
            lemma_count_no_new_unvisited(m_loop, self.marks@);
            assert forall|k: int|
                0 <= k < g.successors_of(index as int).len() implies m_loop[
                #[trigger] g.successors_of(index as int)[k] as int] is Done by {
                assert(nexts@[k] == g.successors_of(index as int)[k]);
            }
            lemma_emit(g, m_loop, o_loop, index);
            // the loop walked the successors exactly as the ghost walk
            // does, so emitting the node lands on the ghost walk's result
            assert(spec_visit_succs(g, m_loop, o_loop, index as int, nexts@.len() as int, cap)
                == (m_loop, o_loop));
            assert((self.marks@, self.ordering@) == spec_visit_from(
                g,
                m0,
                o0,
                index as int,
                cap,
            ));
        }
        Ok(())
    }

    /// Linearize the graph: a depth-first post-order over every node,
    /// reversed, so that each producer stands before everything its edges
    /// reach. Succeeds exactly when the graph has no directed cycle, and
    /// the order that comes out is the one deterministic function of the
    /// node count and the adjacency lists: seeds in node order, adjacents
    /// in the order their edges were added.
    pub fn sort<S: Sortable>(sortable: &S) -> (r: Result<Vec<usize>, BuildError>)
        requires
            edges_in_range(sortable),
        ensures
            r matches Ok(o) ==> lists_nodes_once(sortable, o@) && respects_edges(sortable, o@),
            r matches Ok(o) ==> o@ == spec_sort_order(sortable),
            (r is Ok) <==> !has_cycle(sortable),
    {
        let n = sortable.num_nodes();
        let mut sorter = TopologicalSort {
            ordering: Vec::new(),
            marks: Vec::new(),
        };
        let mut k: usize = 0;
        while k < n
            invariant
                sorter.marks@.len() == k,
                k <= n,
                sorter.ordering@.len() == 0,
                forall|x: int| 0 <= x < k ==> (#[trigger] sorter.marks@[x]) is Unvisited,
            decreases n - k,
        {
            sorter.marks.push(Mark::Unvisited);
            k = k + 1;
        }
        proof {
            assert(sorter.ordering@ =~= Seq::<usize>::empty());
            assert(sorter.marks@ =~= all_unvisited(sortable.node_count()));
            assert forall|x: int|
                0 <= x < sorter.marks@.len() && (#[trigger] sorter.marks@[x]) is Done implies sorter.ordering@.contains(
                x as usize,
            ) by {
                assert(sorter.marks@[x] is Unvisited);
            }
        }
        let mut seed: usize = 0;
        while seed < n
            invariant
                edges_in_range(sortable),
                n as nat == sortable.node_count(),
                seed <= n,
                sorter.marks@.len() == n,
                sorter_inv(sortable, sorter.marks@, sorter.ordering@),
                (sorter.marks@, sorter.ordering@) == spec_sort_seeds(sortable, seed as int),
                forall|x: int| 0 <= x < sorter.marks@.len() ==> !((#[trigger] sorter.marks@[x])
                    is Active),
                forall|x: int| 0 <= x < seed ==> (#[trigger] sorter.marks@[x]) is Done,
            decreases n - seed,
        {
            let ghost st = (sorter.marks@, sorter.ordering@);
            if sorter.marks[seed] == Mark::Unvisited {
                let r = sorter.visit(
                    sortable,
                    seed,
                    Ghost(Seq::empty()),
                    Ghost(count_unvisited(sorter.marks@)),
                );
                if r.is_err() {
                    return Err(BuildError::CycleDetected);
                }
                proof {
                    assert((sorter.marks@, sorter.ordering@) == spec_visit_from(
                        sortable,
                        st.0,
                        st.1,
                        seed as int,
                        count_unvisited(st.0),
                    ));
                }
            }
            seed = seed + 1;
        }
        // every node is emitted exactly once, successors first
        proof {
            lemma_done_marks_fill_order(sortable, sorter.marks@, sorter.ordering@);
        }
        let post = sorter.ordering;
        let mut o: Vec<usize> = Vec::new();
        let mut j: usize = post.len();
        while j > 0
            invariant
                j <= post.len(),
                o@.len() == post.len() - j,
                forall|i: int| 0 <= i < o@.len() ==> o@[i] == post@[post@.len() - 1 - i],
            decreases j,
        {
            j = j - 1;
            o.push(post[j]);
        }
        proof {
            assert(o@ =~= post@.reverse());
            assert(post@ == spec_sort_seeds(sortable, sortable.node_count() as int).1);
            lemma_reversed_post_order(sortable, post@, o@);
            if has_cycle(sortable) {
                let c = choose|c: Seq<usize>| is_cycle(sortable, c);
                lemma_order_excludes_cycle(sortable, o@, c);
            }
        }
        Ok(o)
    }

    /// The same linearization, consumers first: exactly the reverse of
    /// what `sort` yields on the same graph.
    pub fn reverse_sort<S: Sortable>(sortable: &S) -> (r: Result<Vec<usize>, BuildError>)
        requires
            edges_in_range(sortable),
        ensures
            r matches Ok(o) ==> lists_nodes_once(sortable, o@) && respects_edges(
                sortable,
                o@.reverse(),
            ),
            r matches Ok(o) ==> o@ == spec_sort_order(sortable).reverse(),
            (r is Ok) <==> !has_cycle(sortable),
    {
        let sorted = TopologicalSort::sort(sortable);
        match sorted {
            Ok(order) => {
                let mut o: Vec<usize> = Vec::new();
                let mut j: usize = order.len();
                while j > 0
                    invariant
                        j <= order.len(),
                        o@.len() == order.len() - j,
                        forall|i: int| 0 <= i < o@.len() ==> o@[i] == order@[order@.len() - 1 - i],
                    decreases j,
                {
                    j = j - 1;
                    o.push(order[j]);
                }
                proof {
                    assert(o@ =~= order@.reverse());
                    assert(o@.reverse() =~= order@);
                    assert forall|x: usize|
                        (x as nat) < sortable.node_count() implies #[trigger] o@.contains(x) by {
                        assert(order@.contains(x));
                        let i = choose|i: int| 0 <= i < order@.len() && order@[i] == x;
                        assert(o@[order@.len() - 1 - i] == x);
                    }
                    assert(lists_nodes_once(sortable, o@));
                }
                Ok(o)
            },
            Err(e) => Err(e),
        }
    }
}

/// When every node is `Done`, the emission lists every node exactly once.
proof fn lemma_done_marks_fill_order<S: Sortable>(g: &S, marks: Seq<Mark>, ordering: Seq<usize>)
    requires
        sorter_inv(g, marks, ordering),
        g.node_count() <= usize::MAX,
        forall|x: int| 0 <= x < marks.len() ==> (#[trigger] marks[x]) is Done,
    ensures
        lists_nodes_once(g, ordering),
{
    assert forall|x: usize| (x as nat) < g.node_count() implies #[trigger] ordering.contains(x) by {
        assert(marks[x as int] is Done);
    }
    // distinct entries drawn from the nodes, all nodes present: the
    // emission has exactly one entry per node
    lemma_distinct_bounded_len(ordering, g.node_count());
    lemma_covering_len(ordering, g.node_count());
}

/// A duplicate-free list of numbers below `n` has at most `n` entries.
proof fn lemma_distinct_bounded_len(o: Seq<usize>, n: nat)
    requires
        forall|j: int| 0 <= j < o.len() ==> (#[trigger] o[j] as nat) < n,
        forall|i: int, j: int| 0 <= i < o.len() && 0 <= j < o.len() && i != j ==> o[i] != o[j],
    ensures
        o.len() <= n,
    decreases n,
{
    if o.len() > 0 {
        let last = o.last();
        let rest = o.drop_last();
        // swap the value `n - 1` out of the remainder if it occurs
        let n1 = (n - 1) as nat;
        let renamed = rest.map(|i: int, x: usize| if x as nat == n1 { last } else { x });
        if last as nat == n1 {
            assert forall|j: int| 0 <= j < renamed.len() implies (#[trigger] renamed[j] as nat)
                < n1 by {
                assert(rest[j] != last);
            }
        } else {
            assert forall|j: int| 0 <= j < renamed.len() implies (#[trigger] renamed[j] as nat)
                < n1 by {
                if rest[j] as nat == n1 {
                } else {
                    assert(renamed[j] == rest[j]);
                    assert(rest[j] != last);
                }
            }
        }
        assert forall|i: int, j: int|
            0 <= i < renamed.len() && 0 <= j < renamed.len() && i != j implies renamed[i]
            != renamed[j] by {
            assert(rest[i] != rest[j]);
            assert(rest[i] != last && rest[j] != last);
        }
        lemma_distinct_bounded_len(renamed, n1);
    }
}

/// A list containing all of `0 .. n` has at least `n` entries.
proof fn lemma_covering_len(o: Seq<usize>, n: nat)
    requires
        n <= usize::MAX,
        forall|x: usize| (x as nat) < n ==> #[trigger] o.contains(x),
    ensures
        o.len() >= n,
    decreases n,
{
    if n > 0 {
        let n1 = (n - 1) as usize;
        assert(o.contains(n1));
        let p = choose|i: int| 0 <= i < o.len() && o[i] == n1;
        let trimmed = o.remove(p);
        assert forall|x: usize| (x as nat) < n - 1 implies #[trigger] trimmed.contains(x) by {
            assert(o.contains(x));
            let q = choose|i: int| 0 <= i < o.len() && o[i] == x;
            if q < p {
                assert(trimmed[q] == x);
            } else {
                assert(o[q] == x && o[p] == n1 && x != n1);
                assert(trimmed[q - 1] == x);
            }
        }
        lemma_covering_len(trimmed, (n - 1) as nat);
    }
}

/// Reversing a post-order turns "successors stand earlier" into an order
/// that respects every edge.
proof fn lemma_reversed_post_order<S: Sortable>(g: &S, post: Seq<usize>, o: Seq<usize>)
    requires
        sorter_inv_order_only(g, post),
        lists_nodes_once(g, post),
        o =~= post.reverse(),
    ensures
        lists_nodes_once(g, o),
        respects_edges(g, o),
{
    assert(o.len() == post.len());
    assert forall|x: usize| (x as nat) < g.node_count() implies #[trigger] o.contains(x) by {
        assert(post.contains(x));
        let i = choose|i: int| 0 <= i < post.len() && post[i] == x;
        assert(o[post.len() - 1 - i] == x);
    }
    assert forall|i: int, j: int|
        0 <= i < o.len() && 0 <= j < o.len() && has_edge(g, #[trigger] o[i], #[trigger] o[j])
        implies i < j by {
        let pi = o.len() - 1 - i;
        let pj = o.len() - 1 - j;
        assert(post[pi] == o[i] && post[pj] == o[j]);
        assert(has_edge(g, post[pi], o[j]));
        assert(emitted_before(post, pi, o[j]));
        let e = choose|e: int| 0 <= e < pi && post[e] == o[j];
        assert(post[e] == post[pj]);
        assert(e == pj);
    }
}

/// Just the emission-order clause of the walk invariant.
/// Some entry before position `j` of `ordering` already carries `v`.
spec fn emitted_before(ordering: Seq<usize>, j: int, v: usize) -> bool {
    exists|i: int| 0 <= i < j && ordering[i] == v
}

/// Every edge out of an emitted node lands on a node emitted earlier.
spec fn sorter_inv_order_only<S: Sortable>(g: &S, ordering: Seq<usize>) -> bool {
    forall|j: int, v: usize|
        0 <= j < ordering.len() && #[trigger] has_edge(g, ordering[j], v) ==> emitted_before(
            ordering,
            j,
            v,
        )
}

/// A plain directed graph over numbered nodes, for building and sorting
/// edge sets directly.
pub struct DirectedGraph {
    adjacency: Vec<Vec<usize>>,
}

impl DirectedGraph {
    /// Every recorded edge lands on a real node.
    pub open spec fn wf(&self) -> bool {
        edges_in_range(self)
    }

    /// A graph of `num_nodes` nodes and no edges.
    pub fn with_size(num_nodes: usize) -> (r: DirectedGraph)
        ensures
            r.wf(),
            r.node_count() == num_nodes,
            forall|i: int| 0 <= i < num_nodes ==> #[trigger] r.successors_of(i) == Seq::<
                usize,
            >::empty(),
    {
        let mut adjacency: Vec<Vec<usize>> = Vec::new();
        let mut k: usize = 0;
        while k < num_nodes
            invariant
                k <= num_nodes,
                adjacency@.len() == k,
                forall|i: int| 0 <= i < k ==> (#[trigger] adjacency@[i])@ == Seq::<usize>::empty(),
            decreases num_nodes - k,
        {
            adjacency.push(Vec::new());
            k = k + 1;
        }
        DirectedGraph { adjacency }
    }

    /// Add the edge `root -> next`.
    pub fn connect(&mut self, root: usize, next: usize)
        requires
            old(self).wf(),
            (root as nat) < old(self).node_count(),
            (next as nat) < old(self).node_count(),
        ensures
            final(self).wf(),
            final(self).node_count() == old(self).node_count(),
            final(self).successors_of(root as int) == old(self).successors_of(root as int).push(
                next,
            ),
            forall|i: int|
                0 <= i < old(self).node_count() && i != root as int
                    ==> #[trigger] final(self).successors_of(i) == old(self).successors_of(i),
    {
        let slot = &mut self.adjacency[root];
        slot.push(next);
        proof {
            assert forall|i: int, k: int|
                0 <= i < self.node_count() && 0 <= k < self.successors_of(
                    i,
                ).len() implies ((#[trigger] self.successors_of(i)[k]) as nat)
                < self.node_count() by {
                if i == root as int {
                    if k < self.successors_of(i).len() - 1 {
                        assert(self.successors_of(i)[k] == old(self).successors_of(i)[k]);
                    } else {
                        assert(self.successors_of(i)[k] == next);
                    }
                } else {
                    assert(self.successors_of(i) == old(self).successors_of(i));
                }
            }
        }
    }
}

impl Sortable for DirectedGraph {
    closed spec fn node_count(&self) -> nat {
        self.adjacency@.len()
    }

    closed spec fn successors_of(&self, i: int) -> Seq<usize> {
        if 0 <= i < self.adjacency@.len() {
            self.adjacency@[i]@
        } else {
            Seq::empty()
        }
    }

    fn num_nodes(&self) -> (n: usize) {
        self.adjacency.len()
    }

    fn next_nodes(&self, index: usize) -> (r: Vec<usize>) {
        let slot = &self.adjacency[index];
        let mut r: Vec<usize> = Vec::new();
        let mut k: usize = 0;
        while k < slot.len()
            invariant
                k <= slot@.len(),
                r@ == slot@.subrange(0, k as int),
            decreases slot.len() - k,
        {
            r.push(slot[k]);
            k = k + 1;
        }
        proof {
            assert(r@ =~= slot@);
        }
        r
    }
}

} // verus!
