//! What every export satisfies: the invariant of the walk, and the laws it
//! yields on the statements of a finished export.

use vstd::prelude::*;
use crate::diagram::{BinaryDecisionDiagram, BinaryIndex, Link};
use crate::export::{
    Statement, WalkState, initial_state, visited_count, resolve, emit, walk, export_spec, state_ok,
    labels_in_range, lemma_count_bound, lemma_count_update, lemma_count_empty, lemma_resolve_ok,
};

verus! {

/// The index an edge has in a ledger: fixed for terminals, recorded for
/// decision nodes.
pub open spec fn index_in(record: Seq<Option<u32>>, l: Link) -> Option<u32> {
    match l {
        Link::Leaf(b) => Some(if b { 1u32 } else { 0u32 }),
        Link::Node(j) => record[j as int],
    }
}

/// Some decision node recorded at `from` has, on `side`, a child recorded at `to`.
pub open spec fn edge_ok<T>(
    d: &BinaryDecisionDiagram<T>,
    record: Seq<Option<u32>>,
    from: u32,
    to: u32,
    side: BinaryIndex,
) -> bool {
    exists|n: int|
        0 <= n < d.node_count() && #[trigger] record[n] == Some(from) && index_in(
            record,
            d.child(n, side),
        ) == Some(to)
}

/// What holds of every state an export passes through.
pub open spec fn walk_inv<T>(d: &BinaryDecisionDiagram<T>, s: WalkState) -> bool {
    &&& state_ok(d, s)
    &&& forall|n: int|
        0 <= n < d.node_count() ==> (#[trigger] s.record[n] matches Some(k) ==> 2 <= k < s.next
            && s.out.contains(Statement::Label { index: k, node: n as usize }))
    &&& forall|k: int|
        0 <= k < s.out.len() ==> (#[trigger] s.out[k] matches Statement::Label { index, node } ==> node
            < d.node_count() && s.record[node as int] == Some(index))
    &&& forall|j: int, k: int|
        0 <= j < k < s.out.len() && #[trigger] s.out[j] is Label && #[trigger] s.out[k] is Label
            ==> s.out[j]->node != s.out[k]->node
    &&& forall|k: int|
        0 <= k < s.out.len() ==> (#[trigger] s.out[k] matches Statement::Edge { from, to, side }
            ==> from < s.next && edge_ok(d, s.record, from, to, side))
}

/// `b` continues `a`: recorded indices stay, statements are only appended.
pub open spec fn extends(a: WalkState, b: WalkState) -> bool {
    &&& b.record.len() == a.record.len()
    &&& forall|n: int| 0 <= n < a.record.len() && a.record[n] is Some ==> #[trigger] b.record[n] == a.record[n]
    &&& a.next <= b.next
    &&& a.out.len() <= b.out.len()
    &&& b.out.subrange(0, a.out.len() as int) == a.out
}

proof fn lemma_extends_inv<T>(d: &BinaryDecisionDiagram<T>, a: WalkState, b: WalkState)
    requires
        d.wf(),
        walk_inv(d, a),
        extends(a, b),
        state_ok(d, b),
    ensures
        forall|k: int|
            0 <= k < a.out.len() ==> (#[trigger] a.out[k] matches Statement::Edge { from, to, side }
                ==> from < b.next && edge_ok(d, b.record, from, to, side)),
        forall|n: int, k: u32|
            0 <= n < d.node_count() && a.record[n] == Some(k) ==> #[trigger] b.out.contains(
                Statement::Label { index: k, node: n as usize },
            ),
{
    assert forall|k: int|
        0 <= k < a.out.len() implies (#[trigger] a.out[k] matches Statement::Edge { from, to, side }
            ==> from < b.next && edge_ok(d, b.record, from, to, side)) by {
        if let Statement::Edge { from, to, side } = a.out[k] {
            let n = choose|n: int|
                0 <= n < d.node_count() && #[trigger] a.record[n] == Some(from) && index_in(
                    a.record,
                    d.child(n, side),
                ) == Some(to);
            assert(b.record[n] == Some(from));
            if let Link::Node(m) = d.child(n, side) {
                assert(b.record[m as int] == a.record[m as int]);
            }
        }
    }
    assert forall|n: int, k: u32|
        0 <= n < d.node_count() && a.record[n] == Some(k) implies #[trigger] b.out.contains(
            Statement::Label { index: k, node: n as usize },
        ) by {
        assert(a.out.contains(Statement::Label { index: k, node: n as usize }));
        let j = choose|j: int| 0 <= j < a.out.len() && a.out[j] == Statement::Label { index: k, node: n as usize };
        assert(b.out.subrange(0, a.out.len() as int)[j] == b.out[j]);
    }
}

proof fn lemma_resolve_inv<T>(d: &BinaryDecisionDiagram<T>, l: Link, s: WalkState)
    requires
        d.wf(),
        d.link_valid(l),
        walk_inv(d, s),
    ensures
        walk_inv(d, resolve(l, s).0),
        extends(s, resolve(l, s).0),
        index_in(resolve(l, s).0.record, l) == Some(resolve(l, s).1),
        resolve(l, s).2 <==> (l is Node && s.record[l->Node_0 as int] is None),
        resolve(l, s).2 ==> resolve(l, s).1 == s.next && resolve(l, s).0.out.len() == s.out.len() + 1
            && visited_count(resolve(l, s).0.record) == visited_count(s.record) + 1,
        !resolve(l, s).2 ==> resolve(l, s).0 == s,
{
    lemma_resolve_ok(d, l, s);
    assert(s.out.subrange(0, s.out.len() as int) =~= s.out);
    let (s2, v, fresh) = resolve(l, s);
    if fresh {
        let i = l->Node_0;
        lemma_count_update(s.record, i as int, s.next);
        assert(s2.out.subrange(0, s.out.len() as int) =~= s.out);
        lemma_extends_inv(d, s, s2);
        let lab = Statement::Label { index: s.next, node: i };
        assert(s2.out[s.out.len() as int] == lab);
        assert forall|n: int|
            0 <= n < d.node_count() implies (#[trigger] s2.record[n] matches Some(k) ==> 2 <= k < s2.next
                && s2.out.contains(Statement::Label { index: k, node: n as usize })) by {
            if n == i {
                assert(s2.out.contains(lab));
            } else if let Some(k) = s.record[n] {
                assert(s.out.contains(Statement::Label { index: k, node: n as usize }));
            }
        }
        assert forall|k: int|
            0 <= k < s2.out.len() implies (#[trigger] s2.out[k] matches Statement::Label { index, node } ==> node
                < d.node_count() && s2.record[node as int] == Some(index)) by {
            if k < s.out.len() {
                assert(s2.out[k] == s.out[k]);
            }
        }
        assert forall|j: int, k: int|
            0 <= j < k < s2.out.len() && #[trigger] s2.out[j] is Label && #[trigger] s2.out[k] is Label
                implies s2.out[j]->node != s2.out[k]->node by {
            assert(s2.out[j] == s.out[j]);
            if k < s.out.len() {
                assert(s2.out[k] == s.out[k]);
            }
        }
        assert forall|k: int|
            0 <= k < s2.out.len() implies (#[trigger] s2.out[k] matches Statement::Edge { from, to, side }
                ==> from < s2.next && edge_ok(d, s2.record, from, to, side)) by {
            if k < s.out.len() {
                assert(s2.out[k] == s.out[k]);
            }
        }
    }
}

proof fn lemma_extends_trans(a: WalkState, b: WalkState, c: WalkState)
    requires
        extends(a, b),
        extends(b, c),
    ensures
        extends(a, c),
{
    assert(c.out.subrange(0, a.out.len() as int) =~= c.out.subrange(0, b.out.len() as int).subrange(
        0,
        a.out.len() as int,
    ));
}

/// The children of every node visited between `a` and `b` have an index in `b`.
pub open spec fn closed<T>(d: &BinaryDecisionDiagram<T>, a: WalkState, b: WalkState) -> bool {
    forall|n: int|
        0 <= n < d.node_count() && #[trigger] b.record[n] is Some && a.record[n] is None ==> index_in(
            b.record,
            d.links(n).0,
        ) is Some && index_in(b.record, d.links(n).1) is Some
}

proof fn lemma_push_edges<T>(
    d: &BinaryDecisionDiagram<T>,
    s3: WalkState,
    i: usize,
    p: u32,
    l: u32,
    h: u32,
)
    requires
        d.wf(),
        i < d.node_count(),
        walk_inv(d, s3),
        s3.record[i as int] == Some(p),
        index_in(s3.record, d.links(i as int).0) == Some(l),
        index_in(s3.record, d.links(i as int).1) == Some(h),
    ensures
        ({
            let s4 = WalkState {
                out: s3.out.push(Statement::Edge { from: p, to: l, side: BinaryIndex::Left }).push(
                    Statement::Edge { from: p, to: h, side: BinaryIndex::Right },
                ),
                ..s3
            };
            walk_inv(d, s4) && extends(s3, s4)
        }),
{
    let s4 = WalkState {
        out: s3.out.push(Statement::Edge { from: p, to: l, side: BinaryIndex::Left }).push(
            Statement::Edge { from: p, to: h, side: BinaryIndex::Right },
        ),
        ..s3
    };
    let m = s3.out.len() as int;
    assert(s4.out.subrange(0, m) =~= s3.out);
    lemma_extends_inv(d, s3, s4);
    assert(edge_ok(d, s4.record, p, l, BinaryIndex::Left)) by {
        assert(s4.record[i as int] == Some(p));
    }
    assert(edge_ok(d, s4.record, p, h, BinaryIndex::Right)) by {
        assert(s4.record[i as int] == Some(p));
    }
    assert forall|k: int|
        0 <= k < s4.out.len() implies (#[trigger] s4.out[k] matches Statement::Label { index, node } ==> node
            < d.node_count() && s4.record[node as int] == Some(index)) by {
        if k < m {
            assert(s4.out[k] == s3.out[k]);
        }
    }
    assert forall|j: int, k: int|
        0 <= j < k < s4.out.len() && #[trigger] s4.out[j] is Label && #[trigger] s4.out[k] is Label
            implies s4.out[j]->node != s4.out[k]->node by {
        assert(s4.out[j] == s3.out[j]);
        assert(s4.out[k] == s3.out[k]);
    }
    assert forall|k: int|
        0 <= k < s4.out.len() implies (#[trigger] s4.out[k] matches Statement::Edge { from, to, side }
            ==> from < s4.next && edge_ok(d, s4.record, from, to, side)) by {
        if k < m {
            assert(s4.out[k] == s3.out[k]);
        }
    }
}

/// The walk after a node's edges are emitted, into one of its children.
pub open spec fn descend<T>(d: &BinaryDecisionDiagram<T>, i: usize, child: Link, fresh: bool, s: WalkState) -> WalkState {
    match child {
        Link::Node(j) => if fresh && j < i {
            emit(d, j, s)
        } else {
            s
        },
        Link::Leaf(_) => s,
    }
}

proof fn lemma_descend<T>(d: &BinaryDecisionDiagram<T>, i: usize, child: Link, fresh: bool, s: WalkState)
    requires
        d.wf(),
        i < d.node_count(),
        child == d.links(i as int).0 || child == d.links(i as int).1,
        walk_inv(d, s),
        fresh ==> s.record[child->Node_0 as int] is Some && child is Node,
    ensures
        walk_inv(d, descend(d, i, child, fresh, s)),
        extends(s, descend(d, i, child, fresh, s)),
        closed(d, s, descend(d, i, child, fresh, s)),
        fresh ==> index_in(descend(d, i, child, fresh, s).record, d.links(child->Node_0 as int).0) is Some
            && index_in(descend(d, i, child, fresh, s).record, d.links(child->Node_0 as int).1) is Some,
        descend(d, i, child, fresh, s).out.len() == s.out.len() + 3 * (visited_count(
            descend(d, i, child, fresh, s).record,
        ) - visited_count(s.record)) + if fresh {
            2int
        } else {
            0int
        },
    decreases i, 0int,
{
    assert(s.out.subrange(0, s.out.len() as int) =~= s.out);
    if let Link::Node(j) = child {
        assert(j < i);
        if fresh {
            lemma_emit_inv(d, j, s);
        }
    }
}

#[verifier::rlimit(40)]
#[verifier::spinoff_prover]
proof fn lemma_emit_inv<T>(d: &BinaryDecisionDiagram<T>, i: usize, s: WalkState)
    requires
        d.wf(),
        i < d.node_count(),
        walk_inv(d, s),
    ensures
        walk_inv(d, emit(d, i, s)),
        extends(s, emit(d, i, s)),
        closed(d, s, emit(d, i, s)),
        emit(d, i, s).record[i as int] is Some,
        index_in(emit(d, i, s).record, d.links(i as int).0) is Some,
        index_in(emit(d, i, s).record, d.links(i as int).1) is Some,
        emit(d, i, s).out.len() == s.out.len() + 3 * (visited_count(emit(d, i, s).record)
            - visited_count(s.record)) + if s.record[i as int] is Some {
            2int
        } else {
            0int
        },
    decreases i, 1int,
{
    let (s1, p, _) = resolve(Link::Node(i), s);
    lemma_resolve_inv(d, Link::Node(i), s);
    let (lo, hi) = d.links(i as int);
    let (s2, l, lf) = resolve(lo, s1);
    lemma_resolve_inv(d, lo, s1);
    let (s3, h, hf) = resolve(hi, s2);
    lemma_resolve_inv(d, hi, s2);
    lemma_extends_trans(s, s1, s2);
    lemma_extends_trans(s, s2, s3);
    assert(s3.record[i as int] == Some(p));
    assert(index_in(s3.record, lo) == Some(l)) by {
        if let Link::Node(m) = lo {
            assert(s3.record[m as int] == s2.record[m as int]);
        }
    }
    lemma_push_edges(d, s3, i, p, l, h);
    let s4 = WalkState {
        out: s3.out.push(Statement::Edge { from: p, to: l, side: BinaryIndex::Left }).push(
            Statement::Edge { from: p, to: h, side: BinaryIndex::Right },
        ),
        ..s3
    };
    lemma_extends_trans(s, s3, s4);
    if lf {
        assert(s4.record[lo->Node_0 as int] is Some);
    }
    if hf {
        assert(s4.record[hi->Node_0 as int] is Some);
    }
    let s5 = descend(d, i, lo, lf, s4);
    lemma_descend(d, i, lo, lf, s4);
    if hf {
        assert(s5.record[hi->Node_0 as int] is Some);
    }
    let s6 = descend(d, i, hi, hf, s5);
    lemma_descend(d, i, hi, hf, s5);
    assert(s6 == emit(d, i, s));
    lemma_extends_trans(s, s4, s5);
    lemma_extends_trans(s, s5, s6);
    lemma_extends_trans(s4, s5, s6);
    assert forall|n: int|
        0 <= n < d.node_count() && #[trigger] s6.record[n] is Some && s.record[n] is None implies index_in(
            s6.record,
            d.links(n).0,
        ) is Some && index_in(s6.record, d.links(n).1) is Some by {
        let (x, y) = d.links(n);
        if s4.record[n] is Some {
            if n == i {
                if let Link::Node(m) = x {
                    assert(s6.record[m as int] == s4.record[m as int]);
                }
                if let Link::Node(m) = y {
                    assert(s6.record[m as int] == s4.record[m as int]);
                }
            } else if lf && n == lo->Node_0 {
                if let Link::Node(m) = x {
                    assert(s6.record[m as int] == s5.record[m as int]);
                }
                if let Link::Node(m) = y {
                    assert(s6.record[m as int] == s5.record[m as int]);
                }
            } else {
                assert(hf && n == hi->Node_0);
            }
        } else if s5.record[n] is Some {
            if let Link::Node(m) = x {
                assert(s6.record[m as int] == s5.record[m as int]);
            }
            if let Link::Node(m) = y {
                assert(s6.record[m as int] == s5.record[m as int]);
            }
        }
    }
    if let Link::Node(m) = lo {
        assert(s6.record[m as int] == s5.record[m as int]);
    }
    if let Link::Node(m) = hi {
        assert(s6.record[m as int] == s5.record[m as int]);
    }
}

/// No two visited decision nodes share an index.
pub open spec fn injective(record: Seq<Option<u32>>) -> bool {
    forall|a: int, b: int|
        0 <= a < record.len() && 0 <= b < record.len() && a != b && #[trigger] record[a] is Some
            && #[trigger] record[b] is Some ==> record[a] != record[b]
}

/// No two edge statements of one side leave the same index.
pub open spec fn edges_unique(out: Seq<Statement>) -> bool {
    forall|j: int, k: int|
        0 <= j < k < out.len() && #[trigger] out[j] is Edge && #[trigger] out[k] is Edge && out[j]->side
            == out[k]->side ==> out[j]->from != out[k]->from
}

/// No edge statement leaves index `p`.
pub open spec fn no_edge_from(out: Seq<Statement>, p: u32) -> bool {
    forall|k: int| 0 <= k < out.len() && #[trigger] out[k] is Edge ==> out[k]->from != p
}

/// The index node `i` has, or will get when it is first met.
pub open spec fn start_index(s: WalkState, i: usize) -> u32 {
    match s.record[i as int] {
        Some(k) => k,
        None => s.next,
    }
}

/// Node `n` is visited and both its edges are among the statements.
pub open spec fn has_edges<T>(d: &BinaryDecisionDiagram<T>, s: WalkState, n: int) -> bool {
    &&& s.record[n] is Some
    &&& index_in(s.record, d.links(n).0) is Some
    &&& index_in(s.record, d.links(n).1) is Some
    &&& s.out.contains(
        Statement::Edge {
            from: s.record[n]->Some_0,
            to: index_in(s.record, d.links(n).0)->Some_0,
            side: BinaryIndex::Left,
        },
    )
    &&& s.out.contains(
        Statement::Edge {
            from: s.record[n]->Some_0,
            to: index_in(s.record, d.links(n).1)->Some_0,
            side: BinaryIndex::Right,
        },
    )
}

proof fn lemma_has_edges_persist<T>(d: &BinaryDecisionDiagram<T>, a: WalkState, b: WalkState, n: int)
    requires
        d.wf(),
        0 <= n < d.node_count(),
        state_ok(d, a),
        extends(a, b),
        has_edges(d, a, n),
    ensures
        has_edges(d, b, n),
{
    let (x, y) = d.links(n);
    assert(b.record[n] == a.record[n]);
    if let Link::Node(m) = x {
        assert(b.record[m as int] == a.record[m as int]);
    }
    if let Link::Node(m) = y {
        assert(b.record[m as int] == a.record[m as int]);
    }
    let e0 = Statement::Edge {
        from: a.record[n]->Some_0,
        to: index_in(a.record, x)->Some_0,
        side: BinaryIndex::Left,
    };
    let e1 = Statement::Edge {
        from: a.record[n]->Some_0,
        to: index_in(a.record, y)->Some_0,
        side: BinaryIndex::Right,
    };
    let j0 = choose|j: int| 0 <= j < a.out.len() && a.out[j] == e0;
    let j1 = choose|j: int| 0 <= j < a.out.len() && a.out[j] == e1;
    assert(b.out.subrange(0, a.out.len() as int)[j0] == b.out[j0]);
    assert(b.out.subrange(0, a.out.len() as int)[j1] == b.out[j1]);
}

proof fn lemma_resolve_edges<T>(d: &BinaryDecisionDiagram<T>, l: Link, s: WalkState)
    requires
        d.wf(),
        d.link_valid(l),
        walk_inv(d, s),
        injective(s.record),
    ensures
        injective(resolve(l, s).0.record),
        resolve(l, s).0.out == s.out || resolve(l, s).0.out == s.out.push(
            Statement::Label { index: s.next, node: l->Node_0 },
        ),
{
    let s2 = resolve(l, s).0;
    if resolve(l, s).2 {
        let i = l->Node_0 as int;
        assert forall|a: int, b: int|
            0 <= a < s2.record.len() && 0 <= b < s2.record.len() && a != b && #[trigger] s2.record[a] is Some
                && #[trigger] s2.record[b] is Some implies s2.record[a] != s2.record[b] by {
            if a != i && b != i {
                assert(s.record[a] == s2.record[a] && s.record[b] == s2.record[b]);
            } else if a == i {
                assert(s.record[b] is Some);
            } else {
                assert(s.record[a] is Some);
            }
        }
    }
}

/// The walk's edge statements stay unique through a descent into a child.
proof fn lemma_descend_edges<T>(d: &BinaryDecisionDiagram<T>, i: usize, child: Link, fresh: bool, s: WalkState)
    requires
        d.wf(),
        i < d.node_count(),
        child == d.links(i as int).0 || child == d.links(i as int).1,
        walk_inv(d, s),
        injective(s.record),
        edges_unique(s.out),
        fresh ==> child is Node && s.record[child->Node_0 as int] is Some && no_edge_from(
            s.out,
            s.record[child->Node_0 as int]->Some_0,
        ),
    ensures
        injective(descend(d, i, child, fresh, s).record),
        edges_unique(descend(d, i, child, fresh, s).out),
        forall|k: int|
            s.out.len() <= k < descend(d, i, child, fresh, s).out.len() && #[trigger] descend(
                d,
                i,
                child,
                fresh,
                s,
            ).out[k] is Edge ==> descend(d, i, child, fresh, s).out[k]->from >= s.next || (fresh
                && descend(d, i, child, fresh, s).out[k]->from == s.record[child->Node_0 as int]->Some_0),
        fresh ==> has_edges(d, descend(d, i, child, fresh, s), child->Node_0 as int),
        forall|n: int|
            0 <= n < d.node_count() && #[trigger] descend(d, i, child, fresh, s).record[n] is Some
                && s.record[n] is None ==> has_edges(d, descend(d, i, child, fresh, s), n),
    decreases i, 0int,
{
    if let Link::Node(j) = child {
        assert(j < i);
        if fresh {
            lemma_emit_edges(d, j, s);
        }
    }
}

/// The walk state once node `i` and its children are resolved and its two
/// edges emitted, with the freshness of the low and the high child.
pub open spec fn head<T>(d: &BinaryDecisionDiagram<T>, i: usize, s: WalkState) -> (WalkState, bool, bool) {
    let (s1, p, _) = resolve(Link::Node(i), s);
    let (lo, hi) = d.links(i as int);
    let (s2, l, lf) = resolve(lo, s1);
    let (s3, h, hf) = resolve(hi, s2);
    (
        WalkState {
            out: s3.out.push(Statement::Edge { from: p, to: l, side: BinaryIndex::Left }).push(
                Statement::Edge { from: p, to: h, side: BinaryIndex::Right },
            ),
            ..s3
        },
        lf,
        hf,
    )
}

proof fn lemma_emit_unfold<T>(d: &BinaryDecisionDiagram<T>, i: usize, s: WalkState)
    requires
        d.wf(),
        i < d.node_count(),
    ensures
        emit(d, i, s) == descend(
            d,
            i,
            d.links(i as int).1,
            head(d, i, s).2,
            descend(d, i, d.links(i as int).0, head(d, i, s).1, head(d, i, s).0),
        ),
{
}

#[verifier::rlimit(60)]
#[verifier::spinoff_prover]
proof fn lemma_head_edges<T>(d: &BinaryDecisionDiagram<T>, i: usize, s: WalkState)
    requires
        d.wf(),
        i < d.node_count(),
        walk_inv(d, s),
        injective(s.record),
        edges_unique(s.out),
        no_edge_from(s.out, start_index(s, i)),
    ensures
        ({
            let (s4, lf, hf) = head(d, i, s);
            let (lo, hi) = d.links(i as int);
            let p = start_index(s, i);
            &&& walk_inv(d, s4)
            &&& extends(s, s4)
            &&& injective(s4.record)
            &&& edges_unique(s4.out)
            &&& has_edges(d, s4, i as int)
            &&& s4.record[i as int] == Some(p)
            &&& forall|k: int|
                0 <= k < s4.out.len() && #[trigger] s4.out[k] is Edge ==> s4.out[k]->from < s.next
                    || s4.out[k]->from == p
            &&& forall|k: int|
                s.out.len() <= k < s4.out.len() && #[trigger] s4.out[k] is Edge ==> s4.out[k]->from == p
            &&& lf ==> lo is Node && s4.record[lo->Node_0 as int] is Some && s4.record[lo->Node_0 as int]->Some_0
                >= s.next && s4.record[lo->Node_0 as int]->Some_0 != p && no_edge_from(
                s4.out,
                s4.record[lo->Node_0 as int]->Some_0,
            )
            &&& hf ==> hi is Node && s4.record[hi->Node_0 as int] is Some && s4.record[hi->Node_0 as int]->Some_0
                >= s.next && s4.record[hi->Node_0 as int]->Some_0 < s4.next && no_edge_from(
                s4.out,
                s4.record[hi->Node_0 as int]->Some_0,
            ) && (lf ==> s4.record[hi->Node_0 as int]->Some_0 != s4.record[lo->Node_0 as int]->Some_0)
            &&& forall|n: int|
                0 <= n < d.node_count() && #[trigger] s4.record[n] is Some && s.record[n] is None ==> n == i
                    || (lf && n == lo->Node_0) || (hf && n == hi->Node_0)
        }),
{
    let (s1, p, _) = resolve(Link::Node(i), s);
    lemma_resolve_inv(d, Link::Node(i), s);
    lemma_resolve_edges(d, Link::Node(i), s);
    let (lo, hi) = d.links(i as int);
    let (s2, l, lf) = resolve(lo, s1);
    lemma_resolve_inv(d, lo, s1);
    lemma_resolve_edges(d, lo, s1);
    let (s3, h, hf) = resolve(hi, s2);
    lemma_resolve_inv(d, hi, s2);
    lemma_resolve_edges(d, hi, s2);
    lemma_extends_trans(s, s1, s2);
    lemma_extends_trans(s, s2, s3);
    assert(p == start_index(s, i));
    assert(s3.record[i as int] == Some(p));
    assert(index_in(s3.record, lo) == Some(l)) by {
        if let Link::Node(m) = lo {
            assert(s3.record[m as int] == s2.record[m as int]);
        }
    }
    assert(p < s1.next);
    assert forall|k: int| 0 <= k < s3.out.len() && #[trigger] s3.out[k] is Edge implies k < s.out.len()
        && s3.out[k] == s.out[k] by {}
    lemma_push_edges(d, s3, i, p, l, h);
    let e0 = Statement::Edge { from: p, to: l, side: BinaryIndex::Left };
    let e1 = Statement::Edge { from: p, to: h, side: BinaryIndex::Right };
    let s4 = head(d, i, s).0;
    assert(s4 == WalkState { out: s3.out.push(e0).push(e1), ..s3 });
    let m3 = s3.out.len() as int;
    assert(s4.out[m3] == e0 && s4.out[m3 + 1] == e1);
    assert forall|k: int| 0 <= k < m3 implies #[trigger] s4.out[k] == s3.out[k] by {}
    lemma_extends_trans(s, s3, s4);
    assert(edges_unique(s4.out)) by {
        assert forall|j: int, k: int|
            0 <= j < k < s4.out.len() && #[trigger] s4.out[j] is Edge && #[trigger] s4.out[k] is Edge
                && s4.out[j]->side == s4.out[k]->side implies s4.out[j]->from != s4.out[k]->from by {
            if k < m3 {
                assert(s3.out[j] == s.out[j] && s3.out[k] == s.out[k]);
            } else if j < m3 {
                assert(s3.out[j] == s.out[j]);
            }
        }
    }
    assert(has_edges(d, s4, i as int)) by {
        assert(s4.out.contains(e0));
        assert(s4.out.contains(e1));
    }
    assert forall|k: int| 0 <= k < s4.out.len() && #[trigger] s4.out[k] is Edge implies s4.out[k]->from
        < s.next || s4.out[k]->from == p by {
        if k < m3 {
            assert(s3.out[k] == s.out[k]);
            assert(s.out[k]->from < s.next);
        }
    }
    assert forall|k: int| s.out.len() <= k < s4.out.len() && #[trigger] s4.out[k] is Edge implies s4.out[k]->from
        == p by {
        if k < m3 {
            assert(s3.out[k] == s.out[k]);
        }
    }
    if lf {
        assert(s4.record[lo->Node_0 as int]->Some_0 == s1.next);
    }
    if hf {
        assert(s4.record[hi->Node_0 as int]->Some_0 == s2.next);
    }
}

#[verifier::rlimit(60)]
#[verifier::spinoff_prover]
proof fn lemma_emit_edges<T>(d: &BinaryDecisionDiagram<T>, i: usize, s: WalkState)
    requires
        d.wf(),
        i < d.node_count(),
        walk_inv(d, s),
        injective(s.record),
        edges_unique(s.out),
        no_edge_from(s.out, start_index(s, i)),
    ensures
        injective(emit(d, i, s).record),
        edges_unique(emit(d, i, s).out),
        forall|k: int|
            s.out.len() <= k < emit(d, i, s).out.len() && #[trigger] emit(d, i, s).out[k] is Edge
                ==> emit(d, i, s).out[k]->from >= s.next || emit(d, i, s).out[k]->from == start_index(
                s,
                i,
            ),
        has_edges(d, emit(d, i, s), i as int),
        forall|n: int|
            0 <= n < d.node_count() && #[trigger] emit(d, i, s).record[n] is Some && s.record[n] is None
                ==> has_edges(d, emit(d, i, s), n),
    decreases i, 1int,
{
    let (s4, lf, hf) = head(d, i, s);
    let (lo, hi) = d.links(i as int);
    let p = start_index(s, i);
    lemma_head_edges(d, i, s);
    let s5 = descend(d, i, lo, lf, s4);
    lemma_descend(d, i, lo, lf, s4);
    lemma_descend_edges(d, i, lo, lf, s4);
    if hf {
        let q = s4.record[hi->Node_0 as int]->Some_0;
        assert(s5.record[hi->Node_0 as int] == s4.record[hi->Node_0 as int]);
        assert(no_edge_from(s5.out, q)) by {
            assert forall|k: int| 0 <= k < s5.out.len() && #[trigger] s5.out[k] is Edge implies s5.out[k]->from != q by {
                if k < s4.out.len() {
                    assert(s5.out.subrange(0, s4.out.len() as int)[k] == s5.out[k]);
                    assert(s4.out[k] == s5.out[k]);
                }
            }
        }
    }
    let s6 = descend(d, i, hi, hf, s5);
    lemma_descend(d, i, hi, hf, s5);
    lemma_descend_edges(d, i, hi, hf, s5);
    lemma_emit_unfold(d, i, s);
    assert(s6 == emit(d, i, s));
    lemma_extends_trans(s, s4, s5);
    lemma_extends_trans(s4, s5, s6);
    assert forall|k: int|
        s.out.len() <= k < s6.out.len() && #[trigger] s6.out[k] is Edge implies s6.out[k]->from >= s.next
            || s6.out[k]->from == p by {
        if k < s4.out.len() {
            assert(s6.out.subrange(0, s4.out.len() as int)[k] == s6.out[k]);
            assert(s4.out[k] == s6.out[k]);
        } else if k < s5.out.len() {
            assert(s6.out.subrange(0, s5.out.len() as int)[k] == s6.out[k]);
            assert(s5.out[k] == s6.out[k]);
        }
    }
    lemma_has_edges_persist(d, s4, s6, i as int);
    assert forall|n: int|
        0 <= n < d.node_count() && #[trigger] s6.record[n] is Some && s.record[n] is None implies has_edges(
            d,
            s6,
            n,
        ) by {
        if s4.record[n] is Some {
            if n == i {
            } else if lf && n == lo->Node_0 {
                lemma_has_edges_persist(d, s5, s6, n);
            } else {
                assert(hf && n == hi->Node_0);
            }
        } else if s5.record[n] is Some {
            lemma_has_edges_persist(d, s5, s6, n);
        }
    }
}

pub(crate) proof fn lemma_export_inv<T>(d: &BinaryDecisionDiagram<T>, l: Link)
    requires
        d.wf(),
        d.link_valid(l),
    ensures
        walk_inv(d, walk(d, l, initial_state(d.node_count()))),
        closed(d, initial_state(d.node_count()), walk(d, l, initial_state(d.node_count()))),
        l matches Link::Node(r) ==> walk(d, l, initial_state(d.node_count())).record[r as int] is Some,
        export_spec(d, l).len() == 3 * visited_count(walk(d, l, initial_state(d.node_count())).record),
        labels_in_range(d, export_spec(d, l)),
{
    let s0 = initial_state(d.node_count());
    lemma_count_empty(d.node_count());
    assert(walk_inv(d, s0));
    if let Link::Node(r) = l {
        lemma_emit_inv(d, r, s0);
    }
    let s = walk(d, l, s0);
    assert forall|k: int| 0 <= k < s.out.len() implies (#[trigger] s.out[k] matches Statement::Label {
        node,
        ..
    } ==> node < d.node_count()) by {}
}

/// A decision node labelled somewhere in a sequence of statements.
pub open spec fn labelled(sts: Seq<Statement>, n: usize) -> bool {
    exists|k: int| 0 <= k < sts.len() && #[trigger] sts[k] is Label && sts[k]->node == n
}

/// Every shared node is described once: no decision node is labelled twice,
/// the root is labelled, and every labelled node's decision-node children
/// are labelled, so every node reachable from the root is labelled exactly
/// once however many edges reach it.
pub proof fn lemma_single_visit<T>(d: &BinaryDecisionDiagram<T>, l: Link)
    requires
        d.wf(),
        d.link_valid(l),
    ensures
        forall|j: int, k: int|
            0 <= j < k < export_spec(d, l).len() && #[trigger] export_spec(d, l)[j] is Label
                && #[trigger] export_spec(d, l)[k] is Label ==> export_spec(d, l)[j]->node
                != export_spec(d, l)[k]->node,
        l matches Link::Node(r) ==> labelled(export_spec(d, l), r),
        forall|n: usize, side: BinaryIndex|
            labelled(export_spec(d, l), n) && #[trigger] d.child(n as int, side) is Node ==> labelled(
                export_spec(d, l),
                d.child(n as int, side)->Node_0,
            ),
{
    lemma_export_inv(d, l);
    let s0 = initial_state(d.node_count());
    let s = walk(d, l, s0);
    let out = s.out;
    if let Link::Node(r) = l {
        let k = s.record[r as int]->Some_0;
        assert(out.contains(Statement::Label { index: k, node: r }));
        let j = choose|j: int| 0 <= j < out.len() && out[j] == Statement::Label { index: k, node: r };
        assert(out[j] is Label);
    }
    assert forall|n: usize, side: BinaryIndex|
        labelled(out, n) && #[trigger] d.child(n as int, side) is Node implies labelled(
            out,
            d.child(n as int, side)->Node_0,
        ) by {
        let k = choose|k: int| 0 <= k < out.len() && #[trigger] out[k] is Label && out[k]->node == n;
        assert(s.record[n as int] is Some);
        assert(s0.record[n as int] is None);
        let m = d.child(n as int, side)->Node_0;
        assert(s.record[m as int] is Some);
        let km = s.record[m as int]->Some_0;
        assert(out.contains(Statement::Label { index: km, node: m }));
        let j = choose|j: int| 0 <= j < out.len() && out[j] == Statement::Label { index: km, node: m };
        assert(out[j] is Label);
    }
}

proof fn lemma_export_edges<T>(d: &BinaryDecisionDiagram<T>, l: Link)
    requires
        d.wf(),
        d.link_valid(l),
    ensures
        injective(walk(d, l, initial_state(d.node_count())).record),
        edges_unique(walk(d, l, initial_state(d.node_count())).out),
        forall|n: int|
            0 <= n < d.node_count() && #[trigger] walk(d, l, initial_state(d.node_count())).record[n] is Some
                ==> has_edges(d, walk(d, l, initial_state(d.node_count())), n),
{
    let s0 = initial_state(d.node_count());
    lemma_count_empty(d.node_count());
    assert(walk_inv(d, s0));
    assert(injective(s0.record));
    assert(edges_unique(s0.out));
    if let Link::Node(r) = l {
        assert(no_edge_from(s0.out, start_index(s0, r)));
        lemma_emit_edges(d, r, s0);
    }
}

/// Each described node has exactly one pair of outgoing edges: labels carry
/// distinct indices, a "0" edge and a "1" edge leave the index of every
/// label, and no two edges of one side leave the same index.
pub proof fn lemma_one_edge_pair<T>(d: &BinaryDecisionDiagram<T>, l: Link)
    requires
        d.wf(),
        d.link_valid(l),
    ensures
        forall|j: int, k: int|
            0 <= j < k < export_spec(d, l).len() && #[trigger] export_spec(d, l)[j] is Label
                && #[trigger] export_spec(d, l)[k] is Label ==> export_spec(d, l)[j]->index
                != export_spec(d, l)[k]->index,
        edges_unique(export_spec(d, l)),
        forall|k: int|
            0 <= k < export_spec(d, l).len() && #[trigger] export_spec(d, l)[k] is Label ==> (exists|
                to: u32,
            |
                #[trigger] export_spec(d, l).contains(
                    Statement::Edge { from: export_spec(d, l)[k]->index, to, side: BinaryIndex::Left },
                )) && (exists|to: u32|
                #[trigger] export_spec(d, l).contains(
                    Statement::Edge { from: export_spec(d, l)[k]->index, to, side: BinaryIndex::Right },
                )),
{
    lemma_export_inv(d, l);
    lemma_export_edges(d, l);
    let s = walk(d, l, initial_state(d.node_count()));
    let out = s.out;
    assert forall|j: int, k: int|
        0 <= j < k < out.len() && #[trigger] out[j] is Label && #[trigger] out[k] is Label implies out[j]->index
            != out[k]->index by {
        assert(s.record[out[j]->node as int] == Some(out[j]->index));
        assert(s.record[out[k]->node as int] == Some(out[k]->index));
    }
    assert forall|k: int| 0 <= k < out.len() && #[trigger] out[k] is Label implies (exists|to: u32|
        #[trigger] out.contains(Statement::Edge { from: out[k]->index, to, side: BinaryIndex::Left }))
        && (exists|to: u32|
        #[trigger] out.contains(Statement::Edge { from: out[k]->index, to, side: BinaryIndex::Right })) by {
        let n = out[k]->node as int;
        assert(s.record[n] == Some(out[k]->index));
        assert(has_edges(d, s, n));
        let (x, y) = d.links(n);
        assert(out.contains(
            Statement::Edge { from: out[k]->index, to: index_in(s.record, x)->Some_0, side: BinaryIndex::Left },
        ));
        assert(out.contains(
            Statement::Edge { from: out[k]->index, to: index_in(s.record, y)->Some_0, side: BinaryIndex::Right },
        ));
    }
}

/// The walk's output grows with the distinct decision nodes visited, not
/// with the paths to them: three statements per visited node, so at most
/// three per decision node of the diagram, and none under a terminal.
pub proof fn lemma_export_size<T>(d: &BinaryDecisionDiagram<T>, l: Link)
    requires
        d.wf(),
        d.link_valid(l),
    ensures
        export_spec(d, l).len() == 3 * visited_count(walk(d, l, initial_state(d.node_count())).record),
        visited_count(walk(d, l, initial_state(d.node_count())).record) <= d.node_count(),
        export_spec(d, l).len() <= 3 * d.node_count(),
        l is Leaf ==> export_spec(d, l).len() == 0,
{
    lemma_export_inv(d, l);
    lemma_count_bound(walk(d, l, initial_state(d.node_count())).record);
}

/// The terminals are labelled once, in the fixed opening at indices 0
/// (false) and 1 (true): no label statement of the walk uses either index.
pub proof fn lemma_terminal_labels<T>(d: &BinaryDecisionDiagram<T>, l: Link)
    requires
        d.wf(),
        d.link_valid(l),
    ensures
        forall|k: int|
            0 <= k < export_spec(d, l).len() ==> (#[trigger] export_spec(d, l)[k] matches Statement::Label {
                index,
                ..
            } ==> index >= 2),
{
    lemma_export_inv(d, l);
    let s = walk(d, l, initial_state(d.node_count()));
    assert forall|k: int|
        0 <= k < s.out.len() implies (#[trigger] s.out[k] matches Statement::Label { index, .. } ==> index
            >= 2) by {
        if let Statement::Label { index, node } = s.out[k] {
            assert(s.record[node as int] == Some(index));
        }
    }
}

/// Every "0" edge leads from a node's index to its low child's index, and
/// every "1" edge to its high child's: a terminal child by its fixed index,
/// a decision child by the index it is labelled with.
pub proof fn lemma_edge_sides<T>(d: &BinaryDecisionDiagram<T>, l: Link)
    requires
        d.wf(),
        d.link_valid(l),
    ensures
        forall|k: int|
            0 <= k < export_spec(d, l).len() ==> (#[trigger] export_spec(d, l)[k] matches Statement::Edge {
                from,
                to,
                side,
            } ==> exists|n: usize|
                n < d.node_count() && #[trigger] export_spec(d, l).contains(
                    Statement::Label { index: from, node: n },
                ) && match d.child(n as int, side) {
                    Link::Leaf(b) => to == if b {
                        1u32
                    } else {
                        0u32
                    },
                    Link::Node(m) => export_spec(d, l).contains(Statement::Label { index: to, node: m }),
                }),
{
    lemma_export_inv(d, l);
    let s = walk(d, l, initial_state(d.node_count()));
    let out = s.out;
    assert forall|k: int|
        0 <= k < out.len() implies (#[trigger] out[k] matches Statement::Edge { from, to, side }
            ==> exists|n: usize|
            n < d.node_count() && #[trigger] out.contains(Statement::Label { index: from, node: n })
                && match d.child(n as int, side) {
                Link::Leaf(b) => to == if b {
                    1u32
                } else {
                    0u32
                },
                Link::Node(m) => out.contains(Statement::Label { index: to, node: m }),
            }) by {
        if let Statement::Edge { from, to, side } = out[k] {
            let n = choose|n: int|
                0 <= n < d.node_count() && #[trigger] s.record[n] == Some(from) && index_in(
                    s.record,
                    d.child(n, side),
                ) == Some(to);
            assert(out.contains(Statement::Label { index: from, node: n as usize }));
            if let Link::Node(m) = d.child(n, side) {
                assert(s.record[m as int] == Some(to));
            }
        }
    }
}

} // verus!
