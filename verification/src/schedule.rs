//! The scheduler: dependency collection over the operand edges, topological
//! sorting with cycle detection, and the realization pass that drives a
//! backend.

use crate::backend::Backend;
use crate::engine::Engine;
use crate::handle::{BufferHandle, LazyBufferHandle};
use crate::node::{is_sched_child, node_wf, CreationType, LazyBuffer, LazyOp};
use vstd::prelude::*;

verus! {

/// A walk along scheduling edges: every entry a registered node, every
/// consecutive pair an operand edge.
pub open spec fn is_path(nodes: Seq<LazyBuffer>, p: Seq<int>) -> bool {
    &&& forall|k: int| 0 <= k < p.len() ==> 0 <= #[trigger] p[k] < nodes.len()
    &&& forall|k: int|
        0 <= k < p.len() - 1 ==> is_sched_child(nodes[#[trigger] p[k]].operation, p[k + 1])
}

/// `x` is reachable from `root` along scheduling edges (in zero or more
/// steps).
pub open spec fn reaches(nodes: Seq<LazyBuffer>, root: int, x: int) -> bool {
    exists|p: Seq<int>|
        #![trigger is_path(nodes, p)]
        is_path(nodes, p) && p.len() > 0 && p[0] == root && p.last() == x
}

/// A closed dependency set: membership follows every operand edge.
pub open spec fn deps_closed(nodes: Seq<LazyBuffer>, deps: Seq<bool>) -> bool {
    forall|i: int, c: int|
        0 <= i < nodes.len() && deps[i] && #[trigger] is_sched_child(nodes[i].operation, c) && 0
            <= c < nodes.len() ==> deps[c]
}

/// A non-empty closed walk along scheduling edges.
pub open spec fn is_cycle(nodes: Seq<LazyBuffer>, c: Seq<int>) -> bool {
    &&& c.len() > 0
    &&& forall|k: int| 0 <= k < c.len() ==> 0 <= #[trigger] c[k] < nodes.len()
    &&& forall|k: int|
        0 <= k < c.len() - 1 ==> is_sched_child(nodes[#[trigger] c[k]].operation, c[k + 1])
    &&& is_sched_child(nodes[c.last()].operation, c[0])
}

/// The dependency set contains a cycle.
pub open spec fn has_cycle_in(nodes: Seq<LazyBuffer>, deps: Seq<bool>) -> bool {
    exists|c: Seq<int>|
        #![trigger is_cycle(nodes, c)]
        is_cycle(nodes, c) && forall|k: int| 0 <= k < c.len() ==> deps[#[trigger] c[k]]
}

/// The order lists each node after all its operands.
pub open spec fn order_respects(nodes: Seq<LazyBuffer>, order: Seq<usize>) -> bool {
    forall|k: int, c: int|
        0 <= k < order.len() && #[trigger] is_sched_child(nodes[order[k] as int].operation, c)
            ==> exists|m: int| 0 <= m < k && #[trigger] order[m] == c
}

/// The order lists no node twice.
pub open spec fn order_no_dups(order: Seq<usize>) -> bool {
    forall|j: int, k: int| 0 <= j < k < order.len() ==> order[j] != order[k]
}

/// The sequence contains the identity.
pub open spec fn seq_contains(order: Seq<usize>, i: int) -> bool {
    exists|m: int| 0 <= m < order.len() && #[trigger] order[m] == i
}

/// The order lists exactly the dependency set.
pub open spec fn order_covers(order: Seq<usize>, deps: Seq<bool>) -> bool {
    &&& forall|k: int| 0 <= k < order.len() ==> 0 <= #[trigger] order[k] < deps.len() && deps[order[k] as int]
    &&& forall|i: int| 0 <= i < deps.len() && deps[i] ==> seq_contains(order, i)
}

/// A valid topological order of a dependency set.
pub open spec fn valid_order(nodes: Seq<LazyBuffer>, order: Seq<usize>, deps: Seq<bool>) -> bool {
    &&& order_respects(nodes, order)
    &&& order_no_dups(order)
    &&& order_covers(order, deps)
}

/// The trivial path: every registered node reaches itself.
pub proof fn lemma_reaches_self(nodes: Seq<LazyBuffer>, root: int)
    requires
        0 <= root < nodes.len(),
    ensures
        reaches(nodes, root, root),
{
    let p: Seq<int> = seq![root];
    assert(is_path(nodes, p));
    assert(p.last() == root);
}

/// Reachability extends along one operand edge.
pub proof fn lemma_reaches_child(nodes: Seq<LazyBuffer>, root: int, x: int, c: int)
    requires
        reaches(nodes, root, x),
        0 <= x < nodes.len(),
        0 <= c < nodes.len(),
        is_sched_child(nodes[x].operation, c),
    ensures
        reaches(nodes, root, c),
{
    let p = choose|p: Seq<int>|
        #![trigger is_path(nodes, p)]
        is_path(nodes, p) && p.len() > 0 && p[0] == root && p.last() == x;
    let q = p.push(c);
    assert forall|k: int| 0 <= k < q.len() - 1 implies is_sched_child(
        nodes[#[trigger] q[k]].operation,
        q[k + 1],
    ) by {
        if k < p.len() - 1 {
            assert(is_sched_child(nodes[p[k]].operation, p[k + 1]));
        } else {
            assert(q[k] == p.last());
        }
    }
    assert(is_path(nodes, q));
    assert(q[0] == root && q.last() == c && q.len() > 0);
}

/// Every prefix entry of a path starting inside a closed set stays inside it.
proof fn lemma_path_in_closed(nodes: Seq<LazyBuffer>, deps: Seq<bool>, p: Seq<int>, k: int)
    requires
        deps.len() == nodes.len(),
        deps_closed(nodes, deps),
        is_path(nodes, p),
        p.len() > 0,
        deps[p[0]],
        0 <= k < p.len(),
    ensures
        deps[p[k]],
    decreases k,
{
    if k > 0 {
        lemma_path_in_closed(nodes, deps, p, k - 1);
        assert(is_sched_child(nodes[p[k - 1]].operation, p[k]));
    }
}

/// A closed set containing the root contains everything the root reaches.
pub proof fn lemma_reach_in_closed(nodes: Seq<LazyBuffer>, deps: Seq<bool>, root: int, x: int)
    requires
        deps.len() == nodes.len(),
        deps_closed(nodes, deps),
        0 <= root < nodes.len(),
        deps[root],
        reaches(nodes, root, x),
    ensures
        0 <= x < nodes.len(),
        deps[x],
{
    let p = choose|p: Seq<int>|
        #![trigger is_path(nodes, p)]
        is_path(nodes, p) && p.len() > 0 && p[0] == root && p.last() == x;
    lemma_path_in_closed(nodes, deps, p, p.len() - 1);
}

/// Number of `false` entries of a mark vector: the termination measure of the
/// graph walks.
pub open spec fn false_count(s: Seq<bool>) -> nat
    decreases s.len(),
{
    if s.len() == 0 {
        0
    } else {
        false_count(s.drop_last()) + if s.last() {
            0nat
        } else {
            1nat
        }
    }
}

/// Marking one unmarked entry lowers the measure by exactly one.
pub proof fn lemma_false_count_update(s: Seq<bool>, i: int)
    requires
        0 <= i < s.len(),
        !s[i],
    ensures
        false_count(s.update(i, true)) + 1 == false_count(s),
    decreases s.len(),
{
    let t = s.update(i, true);
    if i == s.len() - 1 {
        assert(t.drop_last() =~= s.drop_last());
    } else {
        assert(t.drop_last() =~= s.drop_last().update(i, true));
        lemma_false_count_update(s.drop_last(), i);
    }
}

/// More marks can only lower the measure.
pub proof fn lemma_false_count_mono(s1: Seq<bool>, s2: Seq<bool>)
    requires
        s1.len() == s2.len(),
        forall|i: int| 0 <= i < s1.len() && s1[i] ==> s2[i],
    ensures
        false_count(s2) <= false_count(s1),
    decreases s1.len(),
{
    if s1.len() > 0 {
        assert forall|i: int| 0 <= i < s1.len() - 1 && s1.drop_last()[i] implies s2.drop_last()[i] by {
            assert(s1[i]);
        }
        lemma_false_count_mono(s1.drop_last(), s2.drop_last());
    }
}

/// A fresh vector of one repeated flag.
pub fn bool_vec(n: usize, v: bool) -> (r: Vec<bool>)
    ensures
        r@.len() == n,
        forall|i: int| 0 <= i < n ==> r@[i] == v,
{
    let mut r: Vec<bool> = Vec::new();
    let mut i: usize = 0;
    while i < n
        invariant
            i <= n,
            r@.len() == i,
            forall|k: int| 0 <= k < i ==> r@[k] == v,
        decreases n - i,
    {
        r.push(v);
        i = i + 1;
    }
    r
}

/// The scheduling children of an operation, as up to two identities.
fn sched_children_of(op: &LazyOp) -> (r: (Option<usize>, Option<usize>))
    ensures
        forall|c: int|
            #[trigger] is_sched_child(*op, c) <==> ((r.0 matches Some(x) && c == x) || (
            r.1 matches Some(y) && c == y)),
{
    match op {
        LazyOp::Creation(_) => (None, None),
        LazyOp::Clear(_) => (None, None),
        LazyOp::Add(a, b) => (Some(a.0), Some(b.0)),
        LazyOp::Subtract(a, b) => (Some(a.0), Some(b.0)),
        LazyOp::Multiply(a, b) => (Some(a.0), Some(b.0)),
        LazyOp::Divide(a, b) => (Some(a.0), Some(b.0)),
        LazyOp::Memset(_, b) => (Some(b.0), None),
    }
}

/// Membership in a sequence survives appending.
proof fn lemma_contains_extend(s1: Seq<usize>, s2: Seq<usize>, i: int)
    requires
        seq_contains(s1, i),
        s1.len() <= s2.len(),
        forall|k: int| 0 <= k < s1.len() ==> s2[k] == s1[k],
    ensures
        seq_contains(s2, i),
{
    let m = choose|m: int| 0 <= m < s1.len() && #[trigger] s1[m] == i;
    assert(s2[m] == i);
}

/// Collect the transitive dependency set of a root: exactly the nodes the
/// root reaches along operand edges, the root included.
fn collect_dependencies(engine: &Engine, root: usize) -> (deps: Vec<bool>)
    requires
        engine.wf(),
        root < engine.nodes@.len(),
    ensures
        deps@.len() == engine.nodes@.len(),
        deps_closed(engine.nodes@, deps@),
        deps@[root as int],
        forall|i: int|
            0 <= i < deps@.len() ==> (#[trigger] deps@[i] <==> reaches(
                engine.nodes@,
                root as int,
                i,
            )),
{
    let nodes_len = engine.nodes.len();
    let mut visited = bool_vec(nodes_len, false);
    let mut discovered: Vec<usize> = Vec::new();
    let mut head: usize = 0;
    visited.set(root, true);
    discovered.push(root);
    proof {
        lemma_reaches_self(engine.nodes@, root as int);
        assert(seq_contains(discovered@, root as int)) by {
            assert(discovered@[0] == root);
        }
    }
    while head < discovered.len()
        invariant
            engine.wf(),
            root < engine.nodes@.len(),
            visited@.len() == engine.nodes@.len(),
            visited@[root as int],
            head <= discovered@.len(),
            forall|k: int|
                0 <= k < discovered@.len() ==> #[trigger] discovered@[k] < engine.nodes@.len()
                    && visited@[discovered@[k] as int],
            forall|i: int|
                0 <= i < visited@.len() && #[trigger] visited@[i] ==> seq_contains(discovered@, i),
            forall|i: int|
                0 <= i < visited@.len() && #[trigger] visited@[i] ==> reaches(
                    engine.nodes@,
                    root as int,
                    i,
                ),
            forall|k: int, c: int|
                0 <= k < head && #[trigger] is_sched_child(
                    engine.nodes@[discovered@[k] as int].operation,
                    c,
                ) && 0 <= c < engine.nodes@.len() ==> visited@[c],
        decreases 2 * false_count(visited@) + discovered@.len() - head,
    {
        let ghost pre_visited = visited@;
        let ghost pre_discovered = discovered@;
        let w = discovered[head];
        proof {
            assert(node_wf(engine.nodes@, engine.tensors@.len(), w as int));
        }
        let (c1, c2) = sched_children_of(&engine.nodes[w].operation);
        if let Some(c) = c1 {
            proof {
                assert(is_sched_child(engine.nodes@[w as int].operation, c as int));
                assert(c < engine.nodes@.len());
                lemma_reaches_child(engine.nodes@, root as int, w as int, c as int);
            }
            if !visited[c] {
                proof {
                    lemma_false_count_update(visited@, c as int);
                }
                visited.set(c, true);
                discovered.push(c);
                proof {
                    assert(discovered@.last() == c);
                    assert(seq_contains(discovered@, c as int));
                }
            }
        }
        let ghost mid_visited = visited@;
        let ghost mid_discovered = discovered@;
        if let Some(c) = c2 {
            proof {
                assert(is_sched_child(engine.nodes@[w as int].operation, c as int));
                assert(c < engine.nodes@.len());
                lemma_reaches_child(engine.nodes@, root as int, w as int, c as int);
            }
            if !visited[c] {
                proof {
                    lemma_false_count_update(visited@, c as int);
                }
                visited.set(c, true);
                discovered.push(c);
                proof {
                    assert(discovered@.last() == c);
                }
            }
        }
        proof {
            assert forall|c: int|
                #[trigger] is_sched_child(engine.nodes@[w as int].operation, c) && 0 <= c
                    < engine.nodes@.len() implies visited@[c] by {}
            assert forall|i: int|
                0 <= i < visited@.len() && pre_visited[i] implies #[trigger] visited@[i] by {}
            assert forall|i: int|
                0 <= i < visited@.len() && #[trigger] visited@[i] implies seq_contains(
                discovered@,
                i,
            ) by {
                if pre_visited[i] {
                    lemma_contains_extend(pre_discovered, discovered@, i);
                } else if mid_visited[i] {
                    lemma_contains_extend(mid_discovered, discovered@, i);
                } else {
                    assert(discovered@.last() == i);
                }
            }
        }
        head = head + 1;
    }
    proof {
        assert forall|i: int, c: int|
            0 <= i < engine.nodes@.len() && visited@[i] && #[trigger] is_sched_child(
                engine.nodes@[i].operation,
                c,
            ) && 0 <= c < engine.nodes@.len() implies visited@[c] by {
            let k = choose|k: int| 0 <= k < discovered@.len() && #[trigger] discovered@[k] == i;
            assert(is_sched_child(engine.nodes@[discovered@[k] as int].operation, c));
        }
        assert forall|i: int|
            0 <= i < visited@.len() && reaches(engine.nodes@, root as int, i)
            implies visited@[i] by {
            lemma_reach_in_closed(engine.nodes@, visited@, root as int, i);
        }
    }
    visited
}

/// The sequence of identities contains the identity.
pub open spec fn seq_contains_int(s: Seq<int>, i: int) -> bool {
    exists|m: int| 0 <= m < s.len() && #[trigger] s[m] == i
}

/// Membership in an identity sequence survives appending.
proof fn lemma_contains_int_extend(s1: Seq<int>, s2: Seq<int>, i: int)
    requires
        seq_contains_int(s1, i),
        s1.len() <= s2.len(),
        forall|k: int| 0 <= k < s1.len() ==> s2[k] == s1[k],
    ensures
        seq_contains_int(s2, i),
{
    let m = choose|m: int| 0 <= m < s1.len() && #[trigger] s1[m] == i;
    assert(s2[m] == i);
}

/// Pointwise disjunction of two mark vectors.
pub open spec fn or_marks(t: Seq<bool>, p: Seq<bool>) -> Seq<bool> {
    Seq::new(t.len(), |i: int| t[i] || p[i])
}

/// Invariant of the depth-first visit: the emitted order lists distinct
/// dependency-set members, operands first, exactly the permanently marked
/// nodes, and no node is both temporarily and permanently marked.
pub open spec fn visit_inv(
    nodes: Seq<LazyBuffer>,
    deps: Seq<bool>,
    temp: Seq<bool>,
    perm: Seq<bool>,
    order: Seq<usize>,
) -> bool {
    &&& temp.len() == nodes.len()
    &&& perm.len() == nodes.len()
    &&& deps.len() == nodes.len()
    &&& forall|k: int|
        0 <= k < order.len() ==> 0 <= #[trigger] order[k] < nodes.len() && deps[order[k] as int]
            && perm[order[k] as int]
    &&& forall|i: int| 0 <= i < perm.len() && #[trigger] perm[i] ==> seq_contains(order, i)
    &&& order_no_dups(order)
    &&& order_respects(nodes, order)
    &&& forall|i: int| 0 <= i < perm.len() ==> !(#[trigger] perm[i] && temp[i])
}

/// Invariant of the ghost visit stack: its members are exactly the
/// temporarily marked nodes, all in the dependency set, and consecutive
/// members are joined by operand edges.
pub open spec fn stack_inv(
    nodes: Seq<LazyBuffer>,
    deps: Seq<bool>,
    temp: Seq<bool>,
    stack: Seq<int>,
) -> bool {
    &&& forall|k: int|
        0 <= k < stack.len() ==> 0 <= #[trigger] stack[k] < nodes.len() && deps[stack[k]]
            && temp[stack[k]]
    &&& forall|i: int| 0 <= i < temp.len() && #[trigger] temp[i] ==> seq_contains_int(stack, i)
    &&& forall|k: int|
        0 <= k < stack.len() - 1 ==> is_sched_child(nodes[#[trigger] stack[k]].operation, stack[k
            + 1])
}

/// One node's position in an order that contains it.
pub open spec fn pos_in(order: Seq<usize>, x: int) -> int {
    choose|m: int| 0 <= m < order.len() && order[m] == x
}

proof fn lemma_pos_valid(order: Seq<usize>, x: int)
    requires
        seq_contains(order, x),
    ensures
        0 <= pos_in(order, x) < order.len(),
        order[pos_in(order, x)] == x,
{
    assert(exists|m: int| 0 <= m < order.len() && order[m] == x) by {
        let m = choose|m: int| 0 <= m < order.len() && #[trigger] order[m] == x;
        assert(order[m] == x);
    }
}

/// In an order that respects operand edges and has no duplicates, a child
/// stands strictly before its parent.
proof fn lemma_edge_pos(nodes: Seq<LazyBuffer>, order: Seq<usize>, p: int, c: int)
    requires
        order_respects(nodes, order),
        order_no_dups(order),
        seq_contains(order, p),
        seq_contains(order, c),
        0 <= p < nodes.len(),
        is_sched_child(nodes[p].operation, c),
    ensures
        pos_in(order, c) < pos_in(order, p),
{
    lemma_pos_valid(order, p);
    lemma_pos_valid(order, c);
    let kp = pos_in(order, p);
    assert(is_sched_child(nodes[order[kp] as int].operation, c));
    let m = choose|m: int| 0 <= m < kp && #[trigger] order[m] == c;
    let kc = pos_in(order, c);
    if m != kc {
        assert(order[m] == order[kc]);
    }
}

/// Positions decrease along a cycle that lies inside a respected,
/// duplicate-free order.
proof fn lemma_cycle_desc(
    nodes: Seq<LazyBuffer>,
    deps: Seq<bool>,
    cyc: Seq<int>,
    order: Seq<usize>,
    k: int,
)
    requires
        deps.len() == nodes.len(),
        is_cycle(nodes, cyc),
        forall|m: int| 0 <= m < cyc.len() ==> deps[#[trigger] cyc[m]],
        valid_order(nodes, order, deps),
        0 <= k < cyc.len(),
    ensures
        pos_in(order, cyc[k]) + k <= pos_in(order, cyc[0]),
    decreases k,
{
    assert(seq_contains(order, cyc[k]));
    if k > 0 {
        lemma_cycle_desc(nodes, deps, cyc, order, k - 1);
        assert(is_sched_child(nodes[cyc[k - 1]].operation, cyc[k]));
        assert(seq_contains(order, cyc[k - 1]));
        lemma_edge_pos(nodes, order, cyc[k - 1], cyc[k]);
    }
}

/// Law: a dependency set that admits a valid topological order holds no
/// cycle.  Together with the sort's contract this says the cycle check is
/// honest: it fails exactly on the graphs that no schedule could serve.
pub proof fn lemma_order_excludes_cycle(nodes: Seq<LazyBuffer>, deps: Seq<bool>, order: Seq<usize>)
    requires
        deps.len() == nodes.len(),
        valid_order(nodes, order, deps),
    ensures
        !has_cycle_in(nodes, deps),
{
    if has_cycle_in(nodes, deps) {
        let cyc = choose|c: Seq<int>|
            #![trigger is_cycle(nodes, c)]
            is_cycle(nodes, c) && forall|k: int| 0 <= k < c.len() ==> deps[#[trigger] c[k]];
        let last = cyc.len() - 1;
        lemma_cycle_desc(nodes, deps, cyc, order, last);
        assert(seq_contains(order, cyc[last]));
        assert(seq_contains(order, cyc[0]));
        assert(is_sched_child(nodes[cyc[last]].operation, cyc[0]));
        lemma_edge_pos(nodes, order, cyc[last], cyc[0]);
    }
}

/// Depth-first visit of one unmarked node: marks it temporarily, finishes all
/// its operands, then appends it to the order.  Returns false exactly when a
/// temporarily marked node is met again, which exhibits a cycle.
fn topo_visit(
    engine: &Engine,
    in_deps: &Vec<bool>,
    temp: &mut Vec<bool>,
    perm: &mut Vec<bool>,
    order: &mut Vec<usize>,
    n: usize,
    stack: Ghost<Seq<int>>,
) -> (ok: bool)
    requires
        engine.wf(),
        in_deps@.len() == engine.nodes@.len(),
        deps_closed(engine.nodes@, in_deps@),
        n < engine.nodes@.len(),
        in_deps@[n as int],
        !old(temp)@[n as int],
        !old(perm)@[n as int],
        visit_inv(engine.nodes@, in_deps@, old(temp)@, old(perm)@, old(order)@),
        stack_inv(engine.nodes@, in_deps@, old(temp)@, stack@),
        stack@.len() > 0 ==> is_sched_child(
            engine.nodes@[stack@.last()].operation,
            n as int,
        ),
    ensures
        final (temp)@.len() == old(temp)@.len(),
        final (perm)@.len() == old(perm)@.len(),
        ok ==> {
            &&& final (temp)@ == old(temp)@
            &&& (forall|i: int|
                0 <= i < old(perm)@.len() && old(perm)@[i] ==> final (perm)@[i])
            &&& final (perm)@[n as int]
            &&& final (order)@.len() >= old(order)@.len()
            &&& (forall|k: int|
                0 <= k < old(order)@.len() ==> final (order)@[k] == old(order)@[k])
            &&& visit_inv(
                engine.nodes@,
                in_deps@,
                final (temp)@,
                final (perm)@,
                final (order)@,
            )
        },
        !ok ==> has_cycle_in(engine.nodes@, in_deps@),
    decreases false_count(or_marks(old(temp)@, old(perm)@)),
{
    proof {
        assert(node_wf(engine.nodes@, engine.tensors@.len(), n as int));
        assert(!or_marks(old(temp)@, old(perm)@)[n as int]);
        lemma_false_count_update(or_marks(old(temp)@, old(perm)@), n as int);
    }
    temp.set(n, true);
    let ghost stack2 = stack@.push(n as int);
    proof {
        assert(or_marks(temp@, perm@) =~= or_marks(old(temp)@, old(perm)@).update(
            n as int,
            true,
        ));
        assert(stack_inv(engine.nodes@, in_deps@, temp@, stack2)) by {
            assert(stack2.last() == n as int);
            assert forall|i: int|
                0 <= i < temp@.len() && #[trigger] temp@[i] implies seq_contains_int(
                stack2,
                i,
            ) by {
                if i != n as int {
                    lemma_contains_int_extend(stack@, stack2, i);
                }
            }
        }
    }
    let (c1, c2) = sched_children_of(&engine.nodes[n].operation);
    if let Some(c) = c1 {
        proof {
            assert(is_sched_child(engine.nodes@[n as int].operation, c as int));
            assert(c < engine.nodes@.len());
            assert(in_deps@[c as int]);
        }
        if temp[c] {
            proof {
                report_cycle(engine.nodes@, in_deps@, temp@, stack2, n as int, c as int);
            }
            return false;
        }
        if !perm[c] {
            let ok = topo_visit(engine, in_deps, temp, perm, order, c, Ghost(stack2));
            if !ok {
                return false;
            }
        }
    }
    if let Some(c) = c2 {
        proof {
            assert(is_sched_child(engine.nodes@[n as int].operation, c as int));
            assert(c < engine.nodes@.len());
            assert(in_deps@[c as int]);
        }
        if temp[c] {
            proof {
                report_cycle(engine.nodes@, in_deps@, temp@, stack2, n as int, c as int);
            }
            return false;
        }
        if !perm[c] {
            proof {
                lemma_false_count_mono(or_marks(old(temp)@, old(perm)@).update(n as int, true),
                    or_marks(temp@, perm@));
            }
            let ok = topo_visit(engine, in_deps, temp, perm, order, c, Ghost(stack2));
            if !ok {
                return false;
            }
        }
    }
    let ghost pre_order = order@;
    let ghost pre_perm = perm@;
    temp.set(n, false);
    perm.set(n, true);
    order.push(n);
    proof {
        assert(temp@ =~= old(temp)@);
        assert forall|k: int|
            0 <= k < pre_order.len() implies order@[k] == pre_order[k] by {}
        assert forall|i: int|
            0 <= i < perm@.len() && #[trigger] perm@[i] implies seq_contains(order@, i) by {
            if i == n as int {
                assert(order@.last() == n);
            } else {
                lemma_contains_extend(pre_order, order@, i);
            }
        }
        assert(order_no_dups(order@)) by {
            assert forall|j: int, k: int|
                0 <= j < k < order@.len() implies order@[j] != order@[k] by {
                if k == order@.len() - 1 {
                    assert(!pre_perm[n as int]);
                    assert(pre_perm[pre_order[j] as int]);
                }
            }
        }
        assert(order_respects(engine.nodes@, order@)) by {
            assert forall|k: int, c: int|
                0 <= k < order@.len() && #[trigger] is_sched_child(
                    engine.nodes@[order@[k] as int].operation,
                    c,
                ) implies exists|m: int| 0 <= m < k && #[trigger] order@[m] == c by {
                if k < pre_order.len() {
                    assert(is_sched_child(engine.nodes@[pre_order[k] as int].operation, c));
                    let m = choose|m: int| 0 <= m < k && #[trigger] pre_order[m] == c;
                    assert(order@[m] == c);
                } else {
                    assert(order@[k] == n);
                    assert(0 <= c < engine.nodes@.len());
                    assert(pre_perm[c]);
                    assert(seq_contains(pre_order, c));
                    let m = choose|m: int| 0 <= m < pre_order.len() && #[trigger] pre_order[m]
                        == c;
                    assert(order@[m] == c);
                }
            }
        }
    }
    true
}

/// Exhibit the cycle that a temporarily marked child closes: the suffix of
/// the visit stack from that child, whose last entry is the current node.
proof fn report_cycle(
    nodes: Seq<LazyBuffer>,
    deps: Seq<bool>,
    temp: Seq<bool>,
    stack2: Seq<int>,
    n: int,
    c: int,
)
    requires
        deps.len() == nodes.len(),
        temp.len() == nodes.len(),
        stack_inv(nodes, deps, temp, stack2),
        stack2.len() > 0,
        stack2.last() == n,
        0 <= c < nodes.len(),
        temp[c],
        is_sched_child(nodes[n].operation, c),
    ensures
        has_cycle_in(nodes, deps),
{
    let i0 = choose|m: int| 0 <= m < stack2.len() && #[trigger] stack2[m] == c;
    let cyc = stack2.subrange(i0, stack2.len() as int);
    assert(cyc.len() > 0);
    assert(cyc[0] == c);
    assert(cyc.last() == n);
    assert forall|k: int| 0 <= k < cyc.len() implies 0 <= #[trigger] cyc[k] < nodes.len()
        && deps[cyc[k]] by {
        assert(cyc[k] == stack2[i0 + k]);
    }
    assert forall|k: int| 0 <= k < cyc.len() - 1 implies is_sched_child(
        nodes[#[trigger] cyc[k]].operation,
        cyc[k + 1],
    ) by {
        assert(cyc[k] == stack2[i0 + k]);
        assert(cyc[k + 1] == stack2[i0 + k + 1]);
        assert(is_sched_child(nodes[stack2[i0 + k]].operation, stack2[i0 + k + 1]));
    }
    assert(is_cycle(nodes, cyc));
    assert(forall|k: int| 0 <= k < cyc.len() ==> deps[#[trigger] cyc[k]]);
}

/// Topologically sort a closed dependency set: `Some(order)` is a valid
/// schedule (each node after all its operands, every member exactly once);
/// `None` reports a cycle, which — by `lemma_order_excludes_cycle` — is exactly
/// when no such schedule exists.
fn topological_sort(engine: &Engine, in_deps: &Vec<bool>) -> (r: Option<Vec<usize>>)
    requires
        engine.wf(),
        in_deps@.len() == engine.nodes@.len(),
        deps_closed(engine.nodes@, in_deps@),
    ensures
        match r {
            Some(order) => valid_order(engine.nodes@, order@, in_deps@),
            None => has_cycle_in(engine.nodes@, in_deps@),
        },
{
    let nodes_len = engine.nodes.len();
    let mut temp = bool_vec(nodes_len, false);
    let mut perm = bool_vec(nodes_len, false);
    let mut order: Vec<usize> = Vec::new();
    let mut i: usize = 0;
    while i < nodes_len
        invariant
            engine.wf(),
            in_deps@.len() == engine.nodes@.len(),
            deps_closed(engine.nodes@, in_deps@),
            nodes_len == engine.nodes@.len(),
            i <= nodes_len,
            visit_inv(engine.nodes@, in_deps@, temp@, perm@, order@),
            forall|x: int| 0 <= x < temp@.len() ==> !temp@[x],
            forall|x: int| 0 <= x < i && in_deps@[x] ==> perm@[x],
        decreases nodes_len - i,
    {
        if in_deps[i] && !perm[i] {
            let ok = topo_visit(
                engine,
                in_deps,
                &mut temp,
                &mut perm,
                &mut order,
                i,
                Ghost(Seq::empty()),
            );
            if !ok {
                return None;
            }
        }
        i = i + 1;
    }
    proof {
        assert forall|x: int| 0 <= x < in_deps@.len() && in_deps@[x] implies seq_contains(
            order@,
            x,
        ) by {
            assert(perm@[x]);
        }
    }
    Some(order)
}

/// Realization failed.
#[derive(Debug, Copy, Clone, PartialEq, Eq, Structural)]
pub enum RealizeError {
    /// The dependency graph contains a cycle; no schedule can serve it.
    Cycle,
}

/// What realization guarantees for one dependency node, relating the
/// backend's contents before (`pre`) and after (`post`) the pass, with
/// operations read from the registry as it stood before the pass:
/// an already-realized node is left alone; a creation uploads its data (a
/// random placeholder and a clear upload zeros; an already-created node keeps
/// its buffer, or receives zeros if the backend never held one); a binary
/// node holds the element-wise image of its operands' final contents; a
/// memset node holds its source's final contents.
pub open spec fn node_result_ok<B: Backend>(
    nodes: Seq<LazyBuffer>,
    pre: Map<int, Seq<u32>>,
    post: Map<int, Seq<u32>>,
    n: int,
) -> bool {
    let nd = nodes[n];
    if nd.device_buffer is Some {
        post[n] == pre[n]
    } else {
        match nd.operation {
            LazyOp::Creation(CreationType::RawData(d)) => post[n] == d@,
            LazyOp::Creation(CreationType::Random) => post[n] == crate::backend::zero_words(
                nd.size as nat,
            ),
            LazyOp::Creation(CreationType::Created) => if pre.dom().contains(n) {
                post[n] == pre[n]
            } else {
                post[n] == crate::backend::zero_words(nd.size as nat)
            },
            LazyOp::Clear(_) => post[n] == crate::backend::zero_words(nd.size as nat),
            LazyOp::Add(a, b) => post[n] == crate::backend::bin_image::<B>(
                crate::backend::BinOp::Add,
                post,
                a.0 as int,
                b.0 as int,
                nd.size as nat,
            ),
            LazyOp::Subtract(a, b) => post[n] == crate::backend::bin_image::<B>(
                crate::backend::BinOp::Subtract,
                post,
                a.0 as int,
                b.0 as int,
                nd.size as nat,
            ),
            LazyOp::Multiply(a, b) => post[n] == crate::backend::bin_image::<B>(
                crate::backend::BinOp::Multiply,
                post,
                a.0 as int,
                b.0 as int,
                nd.size as nat,
            ),
            LazyOp::Divide(a, b) => post[n] == crate::backend::bin_image::<B>(
                crate::backend::BinOp::Divide,
                post,
                a.0 as int,
                b.0 as int,
                nd.size as nat,
            ),
            LazyOp::Memset(_, b) => post[n] == post[b.0 as int],
        }
    }
}

/// A node's realization result is stable under a later write to a buffer that
/// is neither the node's own nor one of the buffers its result refers to.
proof fn lemma_result_ok_stable<B: Backend>(
    nodes: Seq<LazyBuffer>,
    pre: Map<int, Seq<u32>>,
    m1: Map<int, Seq<u32>>,
    m2: Map<int, Seq<u32>>,
    n: int,
    w: int,
)
    requires
        0 <= n < nodes.len(),
        node_result_ok::<B>(nodes, pre, m1, n),
        forall|id: int| id != w && m1.dom().contains(id) ==> m2.dom().contains(id) && m2[id]
            == m1[id],
        m1.dom().contains(n),
        w != n,
        match nodes[n].operation {
            LazyOp::Add(a, b) => w != a.0 && w != b.0 && m1.dom().contains(a.0 as int)
                && m1.dom().contains(b.0 as int),
            LazyOp::Subtract(a, b) => w != a.0 && w != b.0 && m1.dom().contains(a.0 as int)
                && m1.dom().contains(b.0 as int),
            LazyOp::Multiply(a, b) => w != a.0 && w != b.0 && m1.dom().contains(a.0 as int)
                && m1.dom().contains(b.0 as int),
            LazyOp::Divide(a, b) => w != a.0 && w != b.0 && m1.dom().contains(a.0 as int)
                && m1.dom().contains(b.0 as int),
            LazyOp::Memset(_, b) => w != b.0 && m1.dom().contains(b.0 as int),
            _ => true,
        },
    ensures
        node_result_ok::<B>(nodes, pre, m2, n),
{
    if nodes[n].device_buffer is None {
        match nodes[n].operation {
            LazyOp::Add(a, b) => {
                assert(crate::backend::bin_image::<B>(
                    crate::backend::BinOp::Add,
                    m2,
                    a.0 as int,
                    b.0 as int,
                    nodes[n].size as nat,
                ) =~= crate::backend::bin_image::<B>(
                    crate::backend::BinOp::Add,
                    m1,
                    a.0 as int,
                    b.0 as int,
                    nodes[n].size as nat,
                ));
            },
            LazyOp::Subtract(a, b) => {
                assert(crate::backend::bin_image::<B>(
                    crate::backend::BinOp::Subtract,
                    m2,
                    a.0 as int,
                    b.0 as int,
                    nodes[n].size as nat,
                ) =~= crate::backend::bin_image::<B>(
                    crate::backend::BinOp::Subtract,
                    m1,
                    a.0 as int,
                    b.0 as int,
                    nodes[n].size as nat,
                ));
            },
            LazyOp::Multiply(a, b) => {
                assert(crate::backend::bin_image::<B>(
                    crate::backend::BinOp::Multiply,
                    m2,
                    a.0 as int,
                    b.0 as int,
                    nodes[n].size as nat,
                ) =~= crate::backend::bin_image::<B>(
                    crate::backend::BinOp::Multiply,
                    m1,
                    a.0 as int,
                    b.0 as int,
                    nodes[n].size as nat,
                ));
            },
            LazyOp::Divide(a, b) => {
                assert(crate::backend::bin_image::<B>(
                    crate::backend::BinOp::Divide,
                    m2,
                    a.0 as int,
                    b.0 as int,
                    nodes[n].size as nat,
                ) =~= crate::backend::bin_image::<B>(
                    crate::backend::BinOp::Divide,
                    m1,
                    a.0 as int,
                    b.0 as int,
                    nodes[n].size as nat,
                ));
            },
            _ => {},
        }
    }
}

/// Realize a closed dependency set on a backend: sort it, allocate every
/// member's device buffer (idempotently, zero-filled when fresh), then
/// execute the not-yet-realized members' operations in topological order.
/// The registry is read, never written; `realize` commits the results.
///
/// On success, every dependency node's buffer satisfies `node_result_ok`, and
/// buffers other than the freshly executed ones are untouched.  On a cyclic
/// graph, the backend is untouched and the cycle is reported.
fn realize_impl<B: Backend>(engine: &Engine, backend: &mut B, in_deps: &Vec<bool>) -> (r: Result<
    (),
    RealizeError,
>)
    requires
        engine.wf(),
        engine.backend_fits(old(backend).contents()),
        in_deps@.len() == engine.nodes@.len(),
        deps_closed(engine.nodes@, in_deps@),
    ensures
        engine.backend_fits(final (backend).contents()),
        match r {
            Ok(()) => {
                &&& !has_cycle_in(engine.nodes@, in_deps@)
                &&& (forall|n: int|
                    0 <= n < engine.nodes@.len() && in_deps@[n] ==> final (backend).contents().dom().contains(n) && #[trigger] node_result_ok::<B>(
                    engine.nodes@,
                    old(backend).contents(),
                    final (backend).contents(),
                    n,
                ))
                &&& (forall|id: int|
                    !(0 <= id < engine.nodes@.len() && in_deps@[id]
                        && engine.nodes@[id].device_buffer is None) ==> ((#[trigger] final (backend).contents().dom().contains(id) <==> old(backend).contents().dom().contains(id))
                    && (old(backend).contents().dom().contains(id) ==> final (backend).contents()[id] == old(backend).contents()[id])))
            },
            Err(e) => {
                &&& has_cycle_in(engine.nodes@, in_deps@)
                &&& final (backend).contents() == old(backend).contents()
            },
        },
{
    let nodes_len = engine.nodes.len();
    let sorted = topological_sort(engine, in_deps);
    let order = match sorted {
        None => {
            return Err(RealizeError::Cycle);
        },
        Some(o) => o,
    };
    let ghost m0 = backend.contents();
    let mut k: usize = 0;
    while k < order.len()
        invariant
            engine.wf(),
            engine.backend_fits(backend.contents()),
            in_deps@.len() == engine.nodes@.len(),
            nodes_len == engine.nodes@.len(),
            valid_order(engine.nodes@, order@, in_deps@),
            k <= order@.len(),
            engine.backend_fits(m0),
            forall|id: int|
                #[trigger] m0.dom().contains(id) ==> backend.contents().dom().contains(id)
                    && backend.contents()[id] == m0[id],
            forall|id: int|
                #[trigger] backend.contents().dom().contains(id) && !m0.dom().contains(id) ==> 0
                    <= id < engine.nodes@.len() && in_deps@[id]
                    && engine.nodes@[id].device_buffer is None && backend.contents()[id]
                    == crate::backend::zero_words(engine.nodes@[id].size as nat),
            forall|j: int|
                0 <= j < k ==> backend.contents().dom().contains(#[trigger] order@[j] as int),
        decreases order@.len() - k,
    {
        let idx = order[k];
        proof {
            assert(node_wf(engine.nodes@, engine.tensors@.len(), idx as int));
            assert(in_deps@[idx as int]);
        }
        let ghost m_before = backend.contents();
        let size = engine.nodes[idx].size;
        let allocated = backend.allocate_buffer(LazyBufferHandle(idx), size);
        let _ = allocated;
        proof {
            let m2 = backend.contents();
            assert forall|i: int|
                0 <= i < engine.nodes@.len() && #[trigger] m2.dom().contains(i)
                implies m2[i].len() == engine.nodes@[i].size by {
                if i != idx as int {
                    assert(m_before.dom().contains(i));
                }
            }
            assert(engine.backend_fits(m2));
        }
        k = k + 1;
    }
    let ghost m_alloc = backend.contents();
    let mut k2: usize = 0;
    while k2 < order.len()
        invariant
            engine.wf(),
            engine.backend_fits(backend.contents()),
            in_deps@.len() == engine.nodes@.len(),
            nodes_len == engine.nodes@.len(),
            valid_order(engine.nodes@, order@, in_deps@),
            k2 <= order@.len(),
            engine.backend_fits(m0),
            forall|id: int|
                #[trigger] m0.dom().contains(id) ==> m_alloc.dom().contains(id) && m_alloc[id]
                    == m0[id],
            forall|id: int|
                #[trigger] m_alloc.dom().contains(id) && !m0.dom().contains(id) ==> 0 <= id
                    < engine.nodes@.len() && in_deps@[id]
                    && engine.nodes@[id].device_buffer is None && m_alloc[id]
                    == crate::backend::zero_words(engine.nodes@[id].size as nat),
            forall|j: int|
                0 <= j < order@.len() ==> m_alloc.dom().contains(#[trigger] order@[j] as int),
            forall|id: int|
                #[trigger] backend.contents().dom().contains(id) <==> m_alloc.dom().contains(id),
            forall|id: int|
                m_alloc.dom().contains(id) && !(0 <= id < engine.nodes@.len() && in_deps@[id]
                    && engine.nodes@[id].device_buffer is None && seq_contains(
                    order@.take(k2 as int),
                    id,
                )) ==> #[trigger] backend.contents()[id] == m_alloc[id],
            forall|j: int|
                0 <= j < k2 ==> node_result_ok::<B>(
                    engine.nodes@,
                    m0,
                    backend.contents(),
                    #[trigger] order@[j] as int,
                ),
        decreases order@.len() - k2,
    {
        let ghost m_pre = backend.contents();
        let idx = order[k2];
        proof {
            assert(node_wf(engine.nodes@, engine.tensors@.len(), idx as int));
            assert(in_deps@[idx as int]);
            assert(m_alloc.dom().contains(idx as int));
            assert(!seq_contains(order@.take(k2 as int), idx as int)) by {
                if seq_contains(order@.take(k2 as int), idx as int) {
                    let m = choose|m: int|
                        0 <= m < order@.take(k2 as int).len() && #[trigger] order@.take(
                            k2 as int,
                        )[m] == idx as int;
                    assert(order@[m] == order@[k2 as int]);
                }
            }
        }
        let size = engine.nodes[idx].size;
        let res_h = BufferHandle { id: LazyBufferHandle(idx), size };
        let skip = engine.nodes[idx].device_buffer.is_some();
        if !skip {
            match &engine.nodes[idx].operation {
                LazyOp::Creation(CreationType::RawData(d)) => {
                    backend.to_device(d, &res_h);
                },
                LazyOp::Creation(CreationType::Random) => {
                    let z = make_words(0u32, size);
                    proof {
                        assert(z@ =~= crate::backend::zero_words(size as nat));
                    }
                    backend.to_device(&z, &res_h);
                },
                LazyOp::Creation(CreationType::Created) => {},
                LazyOp::Clear(_) => {
                    let z = make_words(0u32, size);
                    proof {
                        assert(z@ =~= crate::backend::zero_words(size as nat));
                    }
                    backend.to_device(&z, &res_h);
                },
                LazyOp::Add(a, b) => {
                    let ah = BufferHandle { id: *a, size };
                    let bh = BufferHandle { id: *b, size };
                    proof {
                        lemma_operand_ready(engine, in_deps@, order@, k2 as int, m_alloc, backend.contents());
                    }
                    backend.add(&ah, &bh, &res_h, size);
                },
                LazyOp::Subtract(a, b) => {
                    let ah = BufferHandle { id: *a, size };
                    let bh = BufferHandle { id: *b, size };
                    proof {
                        lemma_operand_ready(engine, in_deps@, order@, k2 as int, m_alloc, backend.contents());
                    }
                    backend.subtract(&ah, &bh, &res_h, size);
                },
                LazyOp::Multiply(a, b) => {
                    let ah = BufferHandle { id: *a, size };
                    let bh = BufferHandle { id: *b, size };
                    proof {
                        lemma_operand_ready(engine, in_deps@, order@, k2 as int, m_alloc, backend.contents());
                    }
                    backend.multiply(&ah, &bh, &res_h, size);
                },
                LazyOp::Divide(a, b) => {
                    let ah = BufferHandle { id: *a, size };
                    let bh = BufferHandle { id: *b, size };
                    proof {
                        lemma_operand_ready(engine, in_deps@, order@, k2 as int, m_alloc, backend.contents());
                    }
                    backend.divide(&ah, &bh, &res_h, size);
                },
                LazyOp::Memset(_, b) => {
                    let bh = BufferHandle { id: *b, size };
                    proof {
                        lemma_operand_ready(engine, in_deps@, order@, k2 as int, m_alloc, backend.contents());
                    }
                    backend.memset(&res_h, &bh, size);
                },
            }
        }
        proof {
            let nodes = engine.nodes@;
            let n = idx as int;
            let m_now = backend.contents();
            assert forall|id: int|
                id != n && m_pre.dom().contains(id) implies m_now.dom().contains(id)
                && #[trigger] m_now[id] == m_pre[id] by {}
            assert(node_result_ok::<B>(nodes, m0, m_now, n)) by {
                if !skip {
                    match nodes[n].operation {
                        LazyOp::Add(a, b) => {
                            assert(m_now[n] =~= crate::backend::bin_image::<B>(
                                crate::backend::BinOp::Add,
                                m_now,
                                a.0 as int,
                                b.0 as int,
                                nodes[n].size as nat,
                            ));
                        },
                        LazyOp::Subtract(a, b) => {
                            assert(m_now[n] =~= crate::backend::bin_image::<B>(
                                crate::backend::BinOp::Subtract,
                                m_now,
                                a.0 as int,
                                b.0 as int,
                                nodes[n].size as nat,
                            ));
                        },
                        LazyOp::Multiply(a, b) => {
                            assert(m_now[n] =~= crate::backend::bin_image::<B>(
                                crate::backend::BinOp::Multiply,
                                m_now,
                                a.0 as int,
                                b.0 as int,
                                nodes[n].size as nat,
                            ));
                        },
                        LazyOp::Divide(a, b) => {
                            assert(m_now[n] =~= crate::backend::bin_image::<B>(
                                crate::backend::BinOp::Divide,
                                m_now,
                                a.0 as int,
                                b.0 as int,
                                nodes[n].size as nat,
                            ));
                        },
                        _ => {},
                    }
                }
            }
            assert forall|j: int|
                0 <= j < k2 implies node_result_ok::<B>(
                nodes,
                m0,
                m_now,
                #[trigger] order@[j] as int,
            ) by {
                let nj = order@[j] as int;
                assert(node_wf(nodes, engine.tensors@.len(), nj));
                assert(node_result_ok::<B>(nodes, m0, m_pre, nj));
                assert(nj != n) by {
                    if order@[j] == order@[k2 as int] {
                        assert(false);
                    }
                }
                match nodes[nj].operation {
                    LazyOp::Add(a, b) => {
                        lemma_operand_in_order(engine, order@, j, a.0 as int);
                        lemma_operand_distinct(order@, j, k2 as int, a.0 as int);
                        lemma_operand_in_order(engine, order@, j, b.0 as int);
                        lemma_operand_distinct(order@, j, k2 as int, b.0 as int);
                        lemma_operand_alloc(order@, j, m_alloc, m_pre, a.0 as int);
                        lemma_operand_alloc(order@, j, m_alloc, m_pre, b.0 as int);
                    },
                    LazyOp::Subtract(a, b) => {
                        lemma_operand_in_order(engine, order@, j, a.0 as int);
                        lemma_operand_distinct(order@, j, k2 as int, a.0 as int);
                        lemma_operand_in_order(engine, order@, j, b.0 as int);
                        lemma_operand_distinct(order@, j, k2 as int, b.0 as int);
                        lemma_operand_alloc(order@, j, m_alloc, m_pre, a.0 as int);
                        lemma_operand_alloc(order@, j, m_alloc, m_pre, b.0 as int);
                    },
                    LazyOp::Multiply(a, b) => {
                        lemma_operand_in_order(engine, order@, j, a.0 as int);
                        lemma_operand_distinct(order@, j, k2 as int, a.0 as int);
                        lemma_operand_in_order(engine, order@, j, b.0 as int);
                        lemma_operand_distinct(order@, j, k2 as int, b.0 as int);
                        lemma_operand_alloc(order@, j, m_alloc, m_pre, a.0 as int);
                        lemma_operand_alloc(order@, j, m_alloc, m_pre, b.0 as int);
                    },
                    LazyOp::Divide(a, b) => {
                        lemma_operand_in_order(engine, order@, j, a.0 as int);
                        lemma_operand_distinct(order@, j, k2 as int, a.0 as int);
                        lemma_operand_in_order(engine, order@, j, b.0 as int);
                        lemma_operand_distinct(order@, j, k2 as int, b.0 as int);
                        lemma_operand_alloc(order@, j, m_alloc, m_pre, a.0 as int);
                        lemma_operand_alloc(order@, j, m_alloc, m_pre, b.0 as int);
                    },
                    LazyOp::Memset(_, b) => {
                        lemma_operand_in_order(engine, order@, j, b.0 as int);
                        lemma_operand_distinct(order@, j, k2 as int, b.0 as int);
                        lemma_operand_alloc(order@, j, m_alloc, m_pre, b.0 as int);
                    },
                    _ => {},
                }
                lemma_result_ok_stable::<B>(nodes, m0, m_pre, m_now, nj, n);
            }
            assert forall|id: int|
                m_alloc.dom().contains(id) && !(0 <= id < nodes.len() && in_deps@[id]
                    && nodes[id].device_buffer is None && seq_contains(
                    order@.take(k2 as int + 1),
                    id,
                )) implies #[trigger] m_now[id] == m_alloc[id] by {
                assert(order@.take(k2 as int + 1) =~= order@.take(k2 as int).push(
                    order@[k2 as int],
                ));
                if id != n {
                    if seq_contains(order@.take(k2 as int), id) {
                        let m = choose|m: int|
                            0 <= m < order@.take(k2 as int).len() && #[trigger] order@.take(
                                k2 as int,
                            )[m] == id;
                        assert(order@.take(k2 as int + 1)[m] == id);
                        assert(seq_contains(order@.take(k2 as int + 1), id));
                    }
                    assert(m_pre[id] == m_alloc[id]);
                } else {
                    assert(order@.take(k2 as int + 1)[k2 as int] == n);
                    assert(seq_contains(order@.take(k2 as int + 1), id));
                    assert(nodes[n].device_buffer is Some);
                    assert(m_pre[n] == m_alloc[n]);
                }
            }
            assert(engine.backend_fits(m_now)) by {
                assert forall|i: int|
                    0 <= i < engine.nodes@.len() && #[trigger] m_now.dom().contains(i)
                    implies m_now[i].len() == engine.nodes@[i].size by {
                    assert(m_pre.dom().contains(i));
                    if i == n && !skip {
                        assert(node_wf(nodes, engine.tensors@.len(), n));
                    } else {
                        assert(m_now[i] == m_pre[i]);
                    }
                }
            }
        }
        k2 = k2 + 1;
    }
    proof {
        lemma_order_excludes_cycle(engine.nodes@, in_deps@, order@);
        let m_now = backend.contents();
        assert forall|n: int|
            0 <= n < engine.nodes@.len() && in_deps@[n] implies m_now.dom().contains(n)
            && #[trigger] node_result_ok::<B>(engine.nodes@, m0, m_now, n) by {
            assert(seq_contains(order@, n));
            let j = choose|j: int| 0 <= j < order@.len() && #[trigger] order@[j] == n;
            assert(node_result_ok::<B>(engine.nodes@, m0, m_now, order@[j] as int));
        }
        assert forall|id: int|
            !(0 <= id < engine.nodes@.len() && in_deps@[id]
                && engine.nodes@[id].device_buffer is None) implies ((#[trigger] m_now
            .dom().contains(id) <==> m0.dom().contains(id)) && (m0.dom().contains(id)
            ==> m_now[id] == m0[id])) by {}
    }
    Ok(())
}

/// In the execution loop, every operand of the node being executed is
/// present with the node's element count, and carries its realized value.
proof fn lemma_operand_ready(
    engine: &Engine,
    deps: Seq<bool>,
    order: Seq<usize>,
    k: int,
    m_alloc: Map<int, Seq<u32>>,
    m_now: Map<int, Seq<u32>>,
)
    requires
        engine.wf(),
        deps.len() == engine.nodes@.len(),
        valid_order(engine.nodes@, order, deps),
        0 <= k < order.len(),
        forall|j: int| 0 <= j < order.len() ==> m_alloc.dom().contains(#[trigger] order[j] as int),
        forall|id: int| #[trigger] m_now.dom().contains(id) <==> m_alloc.dom().contains(id),
        engine.backend_fits(m_now),
    ensures
        match engine.nodes@[order[k] as int].operation {
            LazyOp::Add(a, b) => operand_pair_ready(engine.nodes@, order, k, m_now, a, b),
            LazyOp::Subtract(a, b) => operand_pair_ready(engine.nodes@, order, k, m_now, a, b),
            LazyOp::Multiply(a, b) => operand_pair_ready(engine.nodes@, order, k, m_now, a, b),
            LazyOp::Divide(a, b) => operand_pair_ready(engine.nodes@, order, k, m_now, a, b),
            LazyOp::Memset(_, b) => operand_single_ready(engine.nodes@, order, k, m_now, b),
            _ => true,
        },
{
    let n = order[k] as int;
    assert(node_wf(engine.nodes@, engine.tensors@.len(), n));
    match engine.nodes@[n].operation {
        LazyOp::Add(a, b) => {
            lemma_one_operand_ready(engine, order, k, m_alloc, m_now, a.0 as int);
            lemma_one_operand_ready(engine, order, k, m_alloc, m_now, b.0 as int);
        },
        LazyOp::Subtract(a, b) => {
            lemma_one_operand_ready(engine, order, k, m_alloc, m_now, a.0 as int);
            lemma_one_operand_ready(engine, order, k, m_alloc, m_now, b.0 as int);
        },
        LazyOp::Multiply(a, b) => {
            lemma_one_operand_ready(engine, order, k, m_alloc, m_now, a.0 as int);
            lemma_one_operand_ready(engine, order, k, m_alloc, m_now, b.0 as int);
        },
        LazyOp::Divide(a, b) => {
            lemma_one_operand_ready(engine, order, k, m_alloc, m_now, a.0 as int);
            lemma_one_operand_ready(engine, order, k, m_alloc, m_now, b.0 as int);
        },
        LazyOp::Memset(_, b) => {
            lemma_one_operand_ready(engine, order, k, m_alloc, m_now, b.0 as int);
        },
        _ => {},
    }
}

/// One operand of the node at position `k` is allocated, carries the node's
/// element count, and differs from the node itself.
proof fn lemma_one_operand_ready(
    engine: &Engine,
    order: Seq<usize>,
    k: int,
    m_alloc: Map<int, Seq<u32>>,
    m_now: Map<int, Seq<u32>>,
    c: int,
)
    requires
        engine.wf(),
        order_respects(engine.nodes@, order),
        order_no_dups(order),
        0 <= k < order.len(),
        order[k] < engine.nodes@.len(),
        is_sched_child(engine.nodes@[order[k] as int].operation, c),
        forall|j: int| 0 <= j < order.len() ==> m_alloc.dom().contains(#[trigger] order[j] as int),
        forall|id: int| #[trigger] m_now.dom().contains(id) <==> m_alloc.dom().contains(id),
        engine.backend_fits(m_now),
    ensures
        m_now.dom().contains(c),
        0 <= c < engine.nodes@.len(),
        m_now[c].len() == engine.nodes@[c].size,
        c != order[k] as int,
{
    assert(node_wf(engine.nodes@, engine.tensors@.len(), order[k] as int));
    lemma_operand_in_order(engine, order, k, c);
    let m = choose|m: int| 0 <= m < k && #[trigger] order[m] == c;
    assert(m_alloc.dom().contains(order[m] as int));
    assert(m_now.dom().contains(c));
}

/// An operand of a node in a respected order appears at an earlier position.
proof fn lemma_operand_in_order(engine: &Engine, order: Seq<usize>, k: int, c: int)
    requires
        engine.wf(),
        order_respects(engine.nodes@, order),
        order_no_dups(order),
        0 <= k < order.len(),
        is_sched_child(engine.nodes@[order[k] as int].operation, c),
    ensures
        exists|m: int| 0 <= m < k && #[trigger] order[m] == c,
        c != order[k] as int,
{
    let m = choose|m: int| 0 <= m < k && #[trigger] order[m] == c;
    assert(order[m] == c);
    if c == order[k] as int {
        assert(order[m] == order[k]);
    }
}

/// An identity placed before one position in a duplicate-free order differs
/// from the entry at any later position.
proof fn lemma_operand_distinct(order: Seq<usize>, j: int, k2: int, c: int)
    requires
        order_no_dups(order),
        0 <= j < k2 < order.len(),
        exists|m: int| 0 <= m < j && #[trigger] order[m] == c,
    ensures
        c != order[k2] as int,
{
    let m = choose|m: int| 0 <= m < j && #[trigger] order[m] == c;
    if c == order[k2] as int {
        assert(order[m] == order[k2]);
    }
}

/// An identity placed in the order was allocated in the allocation phase.
proof fn lemma_operand_alloc(
    order: Seq<usize>,
    j: int,
    m_alloc: Map<int, Seq<u32>>,
    m_pre: Map<int, Seq<u32>>,
    c: int,
)
    requires
        0 <= j < order.len(),
        exists|m: int| 0 <= m < j && #[trigger] order[m] == c,
        forall|jj: int| 0 <= jj < order.len() ==> m_alloc.dom().contains(#[trigger] order[jj] as int),
        forall|id: int| #[trigger] m_pre.dom().contains(id) <==> m_alloc.dom().contains(id),
    ensures
        m_pre.dom().contains(c),
{
    let m = choose|m: int| 0 <= m < j && #[trigger] order[m] == c;
    assert(m_alloc.dom().contains(order[m] as int));
}

/// Both operands of a binary node are present with the node's element count.
pub open spec fn operand_pair_ready(
    nodes: Seq<LazyBuffer>,
    order: Seq<usize>,
    k: int,
    m: Map<int, Seq<u32>>,
    a: LazyBufferHandle,
    b: LazyBufferHandle,
) -> bool {
    &&& m.dom().contains(a.0 as int)
    &&& m.dom().contains(b.0 as int)
    &&& m[a.0 as int].len() == nodes[order[k] as int].size
    &&& m[b.0 as int].len() == nodes[order[k] as int].size
    &&& a.0 != order[k]
    &&& b.0 != order[k]
}

/// A memset source is present with the node's element count.
pub open spec fn operand_single_ready(
    nodes: Seq<LazyBuffer>,
    order: Seq<usize>,
    k: int,
    m: Map<int, Seq<u32>>,
    b: LazyBufferHandle,
) -> bool {
    &&& m.dom().contains(b.0 as int)
    &&& m[b.0 as int].len() == nodes[order[k] as int].size
    &&& b.0 != order[k]
}

/// The dependency graph rooted at a node contains a cycle.
pub open spec fn has_cycle_from(nodes: Seq<LazyBuffer>, root: int) -> bool {
    exists|c: Seq<int>|
        #![trigger is_cycle(nodes, c)]
        is_cycle(nodes, c) && (forall|k: int|
            0 <= k < c.len() ==> reaches(nodes, root, #[trigger] c[k]))
}

/// A cycle inside the root's reach set is exactly a cycle of reachable nodes.
proof fn lemma_cycle_from_iff(nodes: Seq<LazyBuffer>, deps: Seq<bool>, root: int)
    requires
        deps.len() == nodes.len(),
        forall|i: int| 0 <= i < deps.len() ==> (#[trigger] deps[i] <==> reaches(nodes, root, i)),
    ensures
        has_cycle_in(nodes, deps) <==> has_cycle_from(nodes, root),
{
    if has_cycle_in(nodes, deps) {
        let c = choose|c: Seq<int>|
            #![trigger is_cycle(nodes, c)]
            is_cycle(nodes, c) && forall|k: int| 0 <= k < c.len() ==> deps[#[trigger] c[k]];
        assert forall|k: int| 0 <= k < c.len() implies reaches(nodes, root, #[trigger] c[k]) by {
            assert(deps[c[k]]);
        }
        assert(has_cycle_from(nodes, root));
    }
    if has_cycle_from(nodes, root) {
        let c = choose|c: Seq<int>|
            #![trigger is_cycle(nodes, c)]
            is_cycle(nodes, c) && (forall|k: int|
                0 <= k < c.len() ==> reaches(nodes, root, #[trigger] c[k]));
        assert forall|k: int| 0 <= k < c.len() implies deps[#[trigger] c[k]] by {
            assert(reaches(nodes, root, c[k]));
        }
        assert(has_cycle_in(nodes, deps));
    }
}

/// A creation node reaches only itself, so its dependency graph can hold no
/// cycle.
pub proof fn lemma_creation_no_cycle(nodes: Seq<LazyBuffer>, root: int)
    requires
        0 <= root < nodes.len(),
        nodes[root].operation is Creation,
    ensures
        forall|x: int| #[trigger] reaches(nodes, root, x) ==> x == root,
        !has_cycle_from(nodes, root),
{
    assert forall|x: int| #[trigger] reaches(nodes, root, x) implies x == root by {
        let p = choose|p: Seq<int>|
            #![trigger is_path(nodes, p)]
            is_path(nodes, p) && p.len() > 0 && p[0] == root && p.last() == x;
        if p.len() > 1 {
            assert(is_sched_child(nodes[p[0]].operation, p[1]));
        }
    }
    if has_cycle_from(nodes, root) {
        let c = choose|c: Seq<int>|
            #![trigger is_cycle(nodes, c)]
            is_cycle(nodes, c) && (forall|k: int|
                0 <= k < c.len() ==> reaches(nodes, root, #[trigger] c[k]));
        assert(reaches(nodes, root, c.last()));
        assert(reaches(nodes, root, c[0]));
        assert(is_sched_child(nodes[c.last()].operation, c[0]));
    }
}

/// Committing an already-realized node changes nothing: its device handle is
/// the one commitment would record, and a realized node never carries inline
/// creation data.
pub proof fn lemma_committed_identity(nodes: Seq<LazyBuffer>, tensor_count: nat, i: int)
    requires
        0 <= i < nodes.len(),
        node_wf(nodes, tensor_count, i),
        nodes[i].device_buffer is Some,
    ensures
        committed_node(nodes[i], i) == nodes[i],
{
}

/// What committing a realized node does to it: the device handle is recorded
/// under the node's own identity, and inline creation operations are
/// rewritten to the created marker so their host data can be dropped.
pub open spec fn committed_node(nd: LazyBuffer, i: int) -> LazyBuffer {
    LazyBuffer {
        device_buffer: Some(
            BufferHandle { id: LazyBufferHandle(i as usize), size: nd.size },
        ),
        operation: match nd.operation {
            LazyOp::Creation(CreationType::RawData(_)) => LazyOp::Creation(CreationType::Created),
            LazyOp::Creation(CreationType::Random) => LazyOp::Creation(CreationType::Created),
            op => op,
        },
        ..nd
    }
}

/// The engine invariant survives committing any set of nodes: commitment
/// keeps every identity, owner, size and operand, and rewrites only inline
/// creation operations, which nothing in the invariant relies on.
proof fn lemma_commit_preserves_wf(e1: Engine, e2: Engine, deps: Seq<bool>)
    requires
        e1.wf(),
        deps.len() == e1.nodes@.len(),
        e2.nodes@.len() == e1.nodes@.len(),
        forall|j: int|
            0 <= j < e1.nodes@.len() ==> e2.nodes@[j] == (if deps[j] {
                committed_node(e1.nodes@[j], j)
            } else {
                e1.nodes@[j]
            }),
        e2.tensors@ == e1.tensors@,
        e2.scratch_data_cache@ == e1.scratch_data_cache@,
        e2.scratch_op_cache@ == e1.scratch_op_cache@,
        e2.tensor_children@ == e1.tensor_children@,
        e2.tensor_op_cache@ == e1.tensor_op_cache@,
    ensures
        e2.wf(),
{
    assert forall|x: int|
        0 <= x < e2.nodes@.len() implies #[trigger] e2.nodes@[x].size == e1.nodes@[x].size
            && e2.nodes@[x].kind == e1.nodes@[x].kind by {}
    assert forall|x: int|
        0 <= x < e2.nodes@.len() implies #[trigger] node_wf(e2.nodes@, e2.tensors@.len(), x) by {
        assert(node_wf(e1.nodes@, e1.tensors@.len(), x));
    }
    assert forall|t: int|
        0 <= t < e2.tensors@.len() implies #[trigger] crate::engine::tensor_wf(
        e2.nodes@,
        e2.tensors@,
        t,
    ) by {
        assert(crate::engine::tensor_wf(e1.nodes@, e1.tensors@, t));
    }
    assert forall|j: int|
        0 <= j < e2.scratch_data_cache@.len() implies #[trigger] crate::engine::scratch_data_entry_wf(
        e2.nodes@,
        e2.scratch_data_cache@[j],
    ) by {
        assert(crate::engine::scratch_data_entry_wf(e1.nodes@, e1.scratch_data_cache@[j]));
    }
    assert forall|j: int|
        0 <= j < e2.scratch_op_cache@.len() implies #[trigger] crate::engine::scratch_op_entry_wf(
        e2.nodes@,
        e2.scratch_op_cache@[j],
    ) by {
        assert(crate::engine::scratch_op_entry_wf(e1.nodes@, e1.scratch_op_cache@[j]));
        let h = e1.scratch_op_cache@[j].handle.0 as int;
        assert(crate::node::spec_op_key(e2.nodes@[h].operation) == crate::node::spec_op_key(
            e1.nodes@[h].operation,
        ));
    }
    assert forall|j: int|
        0 <= j < e2.tensor_children@.len() implies #[trigger] crate::engine::child_entry_wf(
        e2.nodes@,
        e2.tensor_children@[j],
    ) by {
        assert(crate::engine::child_entry_wf(e1.nodes@, e1.tensor_children@[j]));
    }
    assert forall|j: int, k: int|
        0 <= j < k < e2.tensor_children@.len() && #[trigger] e2.tensor_children@[j].owner
            == #[trigger] e2.tensor_children@[k].owner implies !crate::node::same_binary_op(
        e2.nodes@[e2.tensor_children@[j].handle.0 as int].operation,
        e2.nodes@[e2.tensor_children@[k].handle.0 as int].operation,
    ) by {
        assert(crate::engine::child_entry_wf(e1.nodes@, e1.tensor_children@[j]));
        assert(crate::engine::child_entry_wf(e1.nodes@, e1.tensor_children@[k]));
        let hj = e1.tensor_children@[j].handle.0 as int;
        let hk = e1.tensor_children@[k].handle.0 as int;
        assert(e2.nodes@[hj].operation == e1.nodes@[hj].operation);
        assert(e2.nodes@[hk].operation == e1.nodes@[hk].operation);
    }
    assert forall|j: int|
        0 <= j < e2.tensor_op_cache@.len() implies #[trigger] crate::engine::tensor_op_entry_wf(
        e2.nodes@,
        e2.tensors@,
        e2.tensor_op_cache@[j],
    ) by {
        assert(crate::engine::tensor_op_entry_wf(e1.nodes@, e1.tensors@, e1.tensor_op_cache@[j]));
        let b = e1.tensors@[e1.tensor_op_cache@[j].tensor.0 as int].buffer.0 as int;
        assert(crate::engine::tensor_wf(e1.nodes@, e1.tensors@, e1.tensor_op_cache@[j].tensor.0 as int));
        assert(crate::node::spec_tensor_key(e2.nodes@[b].operation)
            == crate::node::spec_tensor_key(e1.nodes@[b].operation));
    }
}

/// A fresh vector of one repeated word.
pub fn make_words(value: u32, count: usize) -> (r: Vec<u32>)
    ensures
        r@.len() == count,
        forall|i: int| 0 <= i < count ==> r@[i] == value,
{
    let mut r: Vec<u32> = Vec::new();
    let mut i: usize = 0;
    while i < count
        invariant
            i <= count,
            r@.len() == i,
            forall|k: int| 0 <= k < i ==> r@[k] == value,
        decreases count - i,
    {
        r.push(value);
        i = i + 1;
    }
    r
}

impl LazyBufferHandle {
    /// Realize this node on a backend: collect its transitive dependencies,
    /// schedule them topologically, allocate and execute them, and commit the
    /// device handles back into the registry (rewriting inline creations to
    /// the created marker so their host data can be dropped).
    ///
    /// Nodes that already carry a device buffer are not re-executed, so
    /// realizing an already-realized graph issues no operation, uploads
    /// nothing, and changes neither the backend nor the registry.  A cyclic
    /// graph — constructible only by memsetting two accumulators into each
    /// other — is reported as an error, with nothing changed.
    pub fn realize<B: Backend>(&self, engine: &mut Engine, backend: &mut B) -> (r: Result<
        (),
        RealizeError,
    >)
        requires
            old(engine).wf(),
            self.0 < old(engine).nodes@.len(),
            old(engine).backend_fits(old(backend).contents()),
        ensures
            final (engine).wf(),
            final (engine).backend_fits(final (backend).contents()),
            final (engine).tensors@ == old(engine).tensors@,
            final (engine).caches_unchanged(*old(engine)),
            final (engine).nodes@.len() == old(engine).nodes@.len(),
            match r {
                Err(_) => {
                    &&& has_cycle_from(old(engine).nodes@, self.0 as int)
                    &&& final (engine).nodes@ == old(engine).nodes@
                    &&& final (backend).contents() == old(backend).contents()
                },
                Ok(()) => {
                    &&& !has_cycle_from(old(engine).nodes@, self.0 as int)
                    &&& (forall|n: int|
                        0 <= n < old(engine).nodes@.len() ==> final (engine).nodes@[n] == (
                        if reaches(old(engine).nodes@, self.0 as int, n) {
                            committed_node(old(engine).nodes@[n], n)
                        } else {
                            old(engine).nodes@[n]
                        }))
                    &&& (forall|n: int|
                        0 <= n < old(engine).nodes@.len() && #[trigger] reaches(
                            old(engine).nodes@,
                            self.0 as int,
                            n,
                        ) ==> final (backend).contents().dom().contains(n) && node_result_ok::<B>(
                            old(engine).nodes@,
                            old(backend).contents(),
                            final (backend).contents(),
                            n,
                        ))
                    &&& (forall|id: int|
                        !(0 <= id < old(engine).nodes@.len() && reaches(
                            old(engine).nodes@,
                            self.0 as int,
                            id,
                        ) && old(engine).nodes@[id].device_buffer is None) ==> ((#[trigger] final (backend).contents().dom().contains(id) <==> old(
                            backend,
                        ).contents().dom().contains(id)) && (old(backend).contents().dom().contains(
                            id,
                        ) ==> final (backend).contents()[id] == old(backend).contents()[id])))
                    &&& ((forall|n: int|
                        0 <= n < old(engine).nodes@.len() && #[trigger] reaches(
                            old(engine).nodes@,
                            self.0 as int,
                            n,
                        ) ==> old(engine).nodes@[n].device_buffer is Some) ==> (final (backend).contents() == old(backend).contents() && final (engine).nodes@ == old(
                        engine,
                    ).nodes@))
                },
            },
    {
        let deps = collect_dependencies(engine, self.0);
        let result = realize_impl(engine, backend, &deps);
        proof {
            lemma_cycle_from_iff(engine.nodes@, deps@, self.0 as int);
        }
        match result {
            Err(e) => Err(e),
            Ok(()) => {
                let ghost m0 = old(backend).contents();
                let ghost mr = backend.contents();
                let nodes_len = engine.nodes.len();
                let mut i: usize = 0;
                while i < nodes_len
                    invariant
                        old(engine).wf(),
                        nodes_len == old(engine).nodes@.len(),
                        deps@.len() == nodes_len,
                        i <= nodes_len,
                        engine.nodes@.len() == nodes_len,
                        engine.tensors@ == old(engine).tensors@,
                        engine.caches_unchanged(*old(engine)),
                        forall|j: int|
                            0 <= j < i ==> engine.nodes@[j] == (if deps@[j] {
                                committed_node(old(engine).nodes@[j], j)
                            } else {
                                old(engine).nodes@[j]
                            }),
                        forall|j: int|
                            i <= j < nodes_len ==> engine.nodes@[j] == old(engine).nodes@[j],
                    decreases nodes_len - i,
                {
                    if deps[i] {
                        proof {
                            assert(node_wf(old(engine).nodes@, old(engine).tensors@.len(), i as int));
                        }
                        let size = engine.nodes[i].size;
                        let node_ref = &mut engine.nodes[i];
                        node_ref.device_buffer = Some(
                            BufferHandle { id: LazyBufferHandle(i), size },
                        );
                        let rewrite = matches!(
                            node_ref.operation,
                            LazyOp::Creation(CreationType::RawData(_)),
                        ) || matches!(node_ref.operation, LazyOp::Creation(CreationType::Random));
                        if rewrite {
                            node_ref.operation = LazyOp::Creation(CreationType::Created);
                        }
                        proof {
                            assert(engine.nodes@[i as int] == committed_node(
                                old(engine).nodes@[i as int],
                                i as int,
                            ));
                        }
                    }
                    i = i + 1;
                }
                proof {
                    assert forall|n: int|
                        0 <= n < old(engine).nodes@.len() && #[trigger] reaches(
                            old(engine).nodes@,
                            self.0 as int,
                            n,
                        ) implies mr.dom().contains(n) by {
                        assert(deps@[n]);
                        assert(node_result_ok::<B>(old(engine).nodes@, m0, mr, n));
                    }
                    lemma_commit_preserves_wf(*old(engine), *engine, deps@);
                    assert forall|x: int|
                        0 <= x < engine.nodes@.len() && #[trigger] mr.dom().contains(x)
                        implies mr[x].len() == engine.nodes@[x].size by {
                        assert(old(engine).backend_fits(mr));
                    }
                    assert forall|x: int|
                        0 <= x < engine.nodes@.len()
                            && (#[trigger] engine.nodes@[x].device_buffer) is Some
                        implies mr.dom().contains(x) by {
                        if deps@[x as int] {
                            assert(node_result_ok::<B>(old(engine).nodes@, m0, mr, x));
                        } else {
                            assert(engine.nodes@[x] == old(engine).nodes@[x]);
                            assert(old(engine).backend_fits(mr));
                        }
                    }
                    assert(engine.backend_fits(mr));
                    if forall|n: int|
                        0 <= n < old(engine).nodes@.len() && #[trigger] reaches(
                            old(engine).nodes@,
                            self.0 as int,
                            n,
                        ) ==> old(engine).nodes@[n].device_buffer is Some {
                        assert(mr =~= m0) by {
                            assert forall|id: int|
                                !(0 <= id < old(engine).nodes@.len() && deps@[id] && old(
                                    engine,
                                ).nodes@[id].device_buffer is None) implies ((#[trigger] mr
                                .dom().contains(id) <==> m0.dom().contains(id)) && (m0
                                .dom().contains(id) ==> mr[id] == m0[id])) by {}
                            assert forall|id: int|
                                0 <= id < old(engine).nodes@.len() && deps@[id]
                                implies old(engine).nodes@[id].device_buffer is Some by {
                                assert(reaches(old(engine).nodes@, self.0 as int, id));
                            }
                        }
                        assert(engine.nodes@ =~= old(engine).nodes@) by {
                            assert forall|n: int|
                                0 <= n < engine.nodes@.len() implies engine.nodes@[n] == old(
                                engine,
                            ).nodes@[n] by {
                                if deps@[n] {
                                    assert(node_wf(
                                        old(engine).nodes@,
                                        old(engine).tensors@.len(),
                                        n,
                                    ));
                                    assert(old(engine).nodes@[n].device_buffer is Some);
                                }
                            }
                        }
                    }
                }
                Ok(())
            },
        }
    }
}

} // verus!
