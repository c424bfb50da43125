//! The exporter: a walk that describes a rooted sub-graph as statements,
//! each shared node once, and the text those statements make.

use vstd::prelude::*;
use crate::diagram::{BinaryDecisionDiagram, BinaryIndex, Link};
use crate::node_handler::NodeHandler;
use vstd::string::StringExecFns;
use crate::walk_laws::lemma_export_inv;

verus! {

/// One statement of the exported description: a node's label, or one of its
/// two outgoing edges (`Left` is labelled "0", `Right` "1").
#[derive(Clone, Copy, Debug, PartialEq, Eq, Structural)]
pub enum Statement {
    Label { index: u32, node: usize },
    Edge { from: u32, to: u32, side: BinaryIndex },
}

/// The state of an export: the visit ledger (the index given to each
/// visited decision node), the next fresh index, and the statements so far.
pub struct WalkState {
    pub record: Seq<Option<u32>>,
    pub next: u32,
    pub out: Seq<Statement>,
}

/// The state an export starts from, for a diagram of `n` decision nodes.
pub open spec fn initial_state(n: nat) -> WalkState {
    WalkState { record: Seq::new(n, |i: int| None::<u32>), next: 2, out: Seq::empty() }
}

/// The number of visited decision nodes in a ledger.
pub open spec fn visited_count(record: Seq<Option<u32>>) -> nat
    decreases record.len(),
{
    if record.len() == 0 {
        0
    } else {
        visited_count(record.drop_last()) + if record.last() is Some {
            1nat
        } else {
            0nat
        }
    }
}

/// Resolving an edge: a terminal has its fixed index (0 for false, 1 for
/// true); a visited node has its recorded index; an unvisited node gets the
/// next index and its label statement. The flag tells a fresh assignment.
pub open spec fn resolve(l: Link, s: WalkState) -> (WalkState, u32, bool) {
    match l {
        Link::Leaf(b) => (s, if b { 1u32 } else { 0u32 }, false),
        Link::Node(i) => match s.record[i as int] {
            Some(k) => (s, k, false),
            None => (
                WalkState {
                    record: s.record.update(i as int, Some(s.next)),
                    next: (s.next + 1) as u32,
                    out: s.out.push(Statement::Label { index: s.next, node: i }),
                },
                s.next,
                true,
            ),
        },
    }
}

/// Describing decision node `i`: resolve it, then its low and its high
/// child, emit its "0" and "1" edges, then describe each child that was
/// freshly assigned, low first.
pub open spec fn emit<T>(d: &BinaryDecisionDiagram<T>, i: usize, s: WalkState) -> WalkState
    decreases i,
{
    if i >= d.node_count() {
        s
    } else {
        let (s1, p, _) = resolve(Link::Node(i), s);
        let (lo, hi) = d.links(i as int);
        let (s2, l, lf) = resolve(lo, s1);
        let (s3, h, hf) = resolve(hi, s2);
        let s4 = WalkState {
            out: s3.out.push(Statement::Edge { from: p, to: l, side: BinaryIndex::Left }).push(
                Statement::Edge { from: p, to: h, side: BinaryIndex::Right },
            ),
            ..s3
        };
        let s5 = match lo {
            Link::Node(j) => if lf && j < i {
                emit(d, j, s4)
            } else {
                s4
            },
            Link::Leaf(_) => s4,
        };
        match hi {
            Link::Node(j) => if hf && j < i {
                emit(d, j, s5)
            } else {
                s5
            },
            Link::Leaf(_) => s5,
        }
    }
}

/// Describing the sub-graph under an edge: nothing for a terminal.
pub open spec fn walk<T>(d: &BinaryDecisionDiagram<T>, l: Link, s: WalkState) -> WalkState {
    match l {
        Link::Node(i) => emit(d, i, s),
        Link::Leaf(_) => s,
    }
}

/// The statements that exporting the sub-graph under `l` produces.
pub open spec fn export_spec<T>(d: &BinaryDecisionDiagram<T>, l: Link) -> Seq<Statement> {
    walk(d, l, initial_state(d.node_count())).out
}

/// The ledger fits the diagram and the next index counts the visited nodes.
pub open spec fn state_ok<T>(d: &BinaryDecisionDiagram<T>, s: WalkState) -> bool {
    &&& s.record.len() == d.node_count()
    &&& s.next == 2 + visited_count(s.record)
}

/// The walk state held in an export's three variables.
pub open spec fn state_of(out: Seq<Statement>, index: u32, record: Seq<Option<u32>>) -> WalkState {
    WalkState { record, next: index, out }
}

pub(crate) proof fn lemma_count_bound(record: Seq<Option<u32>>)
    ensures
        visited_count(record) <= record.len(),
    decreases record.len(),
{
    if record.len() > 0 {
        lemma_count_bound(record.drop_last());
    }
}

pub(crate) proof fn lemma_count_update(record: Seq<Option<u32>>, i: int, v: u32)
    requires
        0 <= i < record.len(),
        record[i] is None,
    ensures
        visited_count(record.update(i, Some(v))) == visited_count(record) + 1,
        visited_count(record) < record.len(),
    decreases record.len(),
{
    let r2 = record.update(i, Some(v));
    if i == record.len() - 1 {
        assert(r2.drop_last() =~= record.drop_last());
        lemma_count_bound(record.drop_last());
    } else {
        assert(r2.drop_last() =~= record.drop_last().update(i, Some(v)));
        lemma_count_update(record.drop_last(), i, v);
    }
}

pub(crate) proof fn lemma_count_empty(n: nat)
    ensures
        visited_count(Seq::new(n, |i: int| None::<u32>)) == 0,
    decreases n,
{
    if n > 0 {
        assert(Seq::new(n, |i: int| None::<u32>).drop_last() =~= Seq::new(
            (n - 1) as nat,
            |i: int| None::<u32>,
        ));
        lemma_count_empty((n - 1) as nat);
    }
}

pub(crate) proof fn lemma_resolve_ok<T>(d: &BinaryDecisionDiagram<T>, l: Link, s: WalkState)
    requires
        d.wf(),
        d.link_valid(l),
        state_ok(d, s),
    ensures
        state_ok(d, resolve(l, s).0),
{
    if let Link::Node(i) = l {
        if s.record[i as int] is None {
            lemma_count_update(s.record, i as int, s.next);
        }
    }
}

impl NodeHandler {
    /// Resolves the index of the edge under `node_handler`, emitting the
    /// label of a decision node met for the first time; the flag is true
    /// iff the index was assigned by this call.
    fn get_index<T>(
        node_handler: &NodeHandler,
        diagram: &BinaryDecisionDiagram<T>,
        out: &mut Vec<Statement>,
        index: &mut u32,
        visit_record: &mut Vec<Option<u32>>,
    ) -> (r: (u32, bool))
        requires
            diagram.wf(),
            diagram.link_valid(node_handler.0),
            state_ok(diagram, state_of(old(out)@, *old(index), old(visit_record)@)),
        ensures
            (state_of(final(out)@, *final(index), final(visit_record)@), r.0, r.1) == resolve(
                node_handler.0,
                state_of(old(out)@, *old(index), old(visit_record)@),
            ),
            state_ok(diagram, state_of(final(out)@, *final(index), final(visit_record)@)),
    {
        proof {
            lemma_resolve_ok(diagram, node_handler.0, state_of(out@, *index, visit_record@));
        }
        match node_handler.0 {
            Link::Node(node) => {
                match visit_record[node] {
                    Some(k) => (k, false),
                    None => {
                        proof {
                            lemma_count_update(visit_record@, node as int, *index);
                        }
                        let node_index = *index;
                        out.push(Statement::Label { index: node_index, node });
                        visit_record.set(node, Some(node_index));
                        *index = node_index + 1;
                        (node_index, true)
                    },
                }
            },
            Link::Leaf(value) => (
                if value {
                    1
                } else {
                    0
                },
                false,
            ),
        }
    }

    /// Describes the sub-graph under this cursor, continuing the walk whose
    /// state is `out`, `index` and `visit_record`.
    fn fmt_reclusive<T>(
        &self,
        diagram: &BinaryDecisionDiagram<T>,
        out: &mut Vec<Statement>,
        index: &mut u32,
        visit_record: &mut Vec<Option<u32>>,
    )
        requires
            diagram.wf(),
            diagram.link_valid(self.0),
            state_ok(diagram, state_of(old(out)@, *old(index), old(visit_record)@)),
        ensures
            state_of(final(out)@, *final(index), final(visit_record)@) == walk(
                diagram,
                self.0,
                state_of(old(out)@, *old(index), old(visit_record)@),
            ),
            state_ok(diagram, state_of(final(out)@, *final(index), final(visit_record)@)),
        decreases
            match self.0 {
                Link::Node(i) => i as int + 1,
                Link::Leaf(_) => 0,
            },
    {
        match self.0 {
            Link::Node(i) => {
                let (parent_index, _) = Self::get_index(self, diagram, out, index, visit_record);
                let left = self.get_child(diagram, BinaryIndex::Left).unwrap();
                let right = self.get_child(diagram, BinaryIndex::Right).unwrap();
                let (left_index, left_recursive_flag) = Self::get_index(
                    &left,
                    diagram,
                    out,
                    index,
                    visit_record,
                );
                let (right_index, right_recursive_flag) = Self::get_index(
                    &right,
                    diagram,
                    out,
                    index,
                    visit_record,
                );
                out.push(Statement::Edge { from: parent_index, to: left_index, side: BinaryIndex::Left });
                out.push(
                    Statement::Edge { from: parent_index, to: right_index, side: BinaryIndex::Right },
                );
                if left_recursive_flag {
                    left.fmt_reclusive(diagram, out, index, visit_record);
                }
                if right_recursive_flag {
                    right.fmt_reclusive(diagram, out, index, visit_record);
                }
            },
            Link::Leaf(_) => {},
        }
    }

    /// The statements describing the sub-graph under this cursor, after the
    /// two fixed terminal labels: every decision node met is labelled once,
    /// with indices from 2 in order of discovery.
    pub fn export<T>(&self, diagram: &BinaryDecisionDiagram<T>) -> (r: Vec<Statement>)
        requires
            diagram.wf(),
            diagram.link_valid(self.0),
        ensures
            r@ == export_spec(diagram, self.0),
    {
        let n = diagram.node_len();
        let mut visit_record: Vec<Option<u32>> = Vec::new();
        let mut k: usize = 0;
        while k < n
            invariant
                k <= n,
                n == diagram.node_count(),
                visit_record@ =~= Seq::new(k as nat, |i: int| None::<u32>),
            decreases n - k,
        {
            visit_record.push(None);
            k += 1;
        }
        let mut out: Vec<Statement> = Vec::new();
        let mut index: u32 = 2;
        proof {
            lemma_count_empty(n as nat);
            assert(state_of(out@, index, visit_record@) == initial_state(diagram.node_count()));
        }
        self.fmt_reclusive(diagram, &mut out, &mut index, &mut visit_record);
        out
    }

    /// The text describing the sub-graph under this cursor, each decision
    /// node labelled with its variable.
    pub fn to_dot(&self, diagram: &BinaryDecisionDiagram<String>) -> (r: String)
        requires
            diagram.wf(),
            diagram.link_valid(self.0),
        ensures
            r@ == dot_text(diagram, export_spec(diagram, self.0)),
    {
        let sts = self.export(diagram);
        proof {
            lemma_export_inv(diagram, self.0);
        }
        render(diagram, &sts)
    }
}

/// The character of a decimal digit.
pub open spec fn digit_char(d: nat) -> char {
    if d == 0 {
        '0'
    } else if d == 1 {
        '1'
    } else if d == 2 {
        '2'
    } else if d == 3 {
        '3'
    } else if d == 4 {
        '4'
    } else if d == 5 {
        '5'
    } else if d == 6 {
        '6'
    } else if d == 7 {
        '7'
    } else if d == 8 {
        '8'
    } else {
        '9'
    }
}

/// The decimal digits of `n`, without sign or leading zeros.
pub open spec fn decimal(n: nat) -> Seq<char>
    decreases n,
{
    if n < 10 {
        seq![digit_char(n)]
    } else {
        decimal(n / 10).push(digit_char(n % 10))
    }
}

/// Relies on `u32`'s `to_string`, through its `Display`: the decimal digits.
#[verifier::external_body]
fn decimal_text(n: u32) -> (r: String)
    ensures
        r@ == decimal(n as nat),
{
    n.to_string()
}

/// The text line of one statement, the label of a node being its variable.
pub open spec fn line_text(d: &BinaryDecisionDiagram<String>, st: Statement) -> Seq<char> {
    match st {
        Statement::Label { index, node } => decimal(index as nat) + " [label=\""@ + d.variable(
            node as int,
        )@ + "\"]\n"@,
        Statement::Edge { from, to, side } => decimal(from as nat) + " -> "@ + decimal(to as nat)
            + match side {
            BinaryIndex::Left => " [label=\"0\"]\n"@,
            BinaryIndex::Right => " [label=\"1\"]\n"@,
        },
    }
}

/// The text lines of a sequence of statements, in order.
pub open spec fn lines_text(d: &BinaryDecisionDiagram<String>, sts: Seq<Statement>) -> Seq<char>
    decreases sts.len(),
{
    if sts.len() == 0 {
        Seq::empty()
    } else {
        lines_text(d, sts.drop_last()) + line_text(d, sts.last())
    }
}

/// The opening of every description: the graph header and the two
/// terminal labels, false at 0 and true at 1.
pub open spec fn header_text() -> Seq<char> {
    "digraph{\n"@ + "0 [label=\"false\"]\n"@ + "1 [label=\"true\"]\n"@
}

/// The whole description of a sequence of statements.
pub open spec fn dot_text(d: &BinaryDecisionDiagram<String>, sts: Seq<Statement>) -> Seq<char> {
    header_text() + lines_text(d, sts) + "}\n"@
}

/// Every label statement names a decision node of the diagram.
pub open spec fn labels_in_range<T>(d: &BinaryDecisionDiagram<T>, sts: Seq<Statement>) -> bool {
    forall|k: int|
        0 <= k < sts.len() ==> (#[trigger] sts[k] matches Statement::Label { node, .. } ==> node
            < d.node_count())
}

/// Appends the text line of one statement.
fn push_line(d: &BinaryDecisionDiagram<String>, st: Statement, text: &mut String)
    requires
        st matches Statement::Label { node, .. } ==> node < d.node_count(),
    ensures
        final(text)@ == old(text)@ + line_text(d, st),
{
    match st {
        Statement::Label { index, node } => {
            let idx = decimal_text(index);
            text.append(idx.as_str());
            text.append(" [label=\"");
            text.append(d.node_variable(node).as_str());
            text.append("\"]\n");
        },
        Statement::Edge { from, to, side } => {
            let f = decimal_text(from);
            let t = decimal_text(to);
            text.append(f.as_str());
            text.append(" -> ");
            text.append(t.as_str());
            match side {
                BinaryIndex::Left => text.append(" [label=\"0\"]\n"),
                BinaryIndex::Right => text.append(" [label=\"1\"]\n"),
            }
        },
    }
    proof {
        assert(final(text)@ =~= old(text)@ + line_text(d, st));
    }
}

/// The text of a description made of the given statements.
pub fn render(d: &BinaryDecisionDiagram<String>, sts: &Vec<Statement>) -> (r: String)
    requires
        labels_in_range(d, sts@),
    ensures
        r@ == dot_text(d, sts@),
{
    let mut text = String::from_str("digraph{\n");
    text.append("0 [label=\"false\"]\n");
    text.append("1 [label=\"true\"]\n");
    let mut k: usize = 0;
    while k < sts.len()
        invariant
            k <= sts@.len(),
            labels_in_range(d, sts@),
            text@ == header_text() + lines_text(d, sts@.subrange(0, k as int)),
        decreases sts@.len() - k,
    {
        let ghost before = text@;
        push_line(d, sts[k], &mut text);
        proof {
            let sub = sts@.subrange(0, k + 1);
            assert(sub.drop_last() =~= sts@.subrange(0, k as int));
            assert(sub.last() == sts@[k as int]);
            assert(text@ =~= header_text() + lines_text(d, sub));
        }
        k += 1;
    }
    text.append("}\n");
    proof {
        assert(sts@.subrange(0, sts@.len() as int) =~= sts@);
        assert(text@ =~= dot_text(d, sts@));
    }
    text
}

} // verus!
