//! The operation tree and its mathematical model.

use vstd::prelude::*;

verus! {

/// One operation of a parsed program.
#[derive(Debug, PartialEq)]
pub enum Op {
    /// Add the count to the current cell, wrapping.
    Inc(usize),
    /// Subtract the count from the current cell, wrapping.
    Dec(usize),
    /// Move the data pointer forward by the count.
    Next(usize),
    /// Move the data pointer backward by the count.
    Prev(usize),
    /// Read one byte into the current cell.
    Read,
    /// Write the current cell as one byte.
    Print,
    /// Repeat the body while the current cell is not zero.
    Loop(Vec<Op>),
}

/// The model of an [`Op`]: the same tree over mathematical sequences and
/// unbounded counts.
pub enum Node {
    Inc(nat),
    Dec(nat),
    Next(nat),
    Prev(nat),
    Read,
    Print,
    Loop(Seq<Node>),
}

/// The model of one operation.
pub open spec fn node_of(op: Op) -> Node
    decreases op,
{
    match op {
        Op::Inc(n) => Node::Inc(n as nat),
        Op::Dec(n) => Node::Dec(n as nat),
        Op::Next(n) => Node::Next(n as nat),
        Op::Prev(n) => Node::Prev(n as nat),
        Op::Read => Node::Read,
        Op::Print => Node::Print,
        Op::Loop(body) => Node::Loop(nodes_of(body@)),
    }
}

/// The model of a sequence of operations, element by element. (The sequence
/// is built from the indices below its length alone; the test on the index
/// is there for the termination measure.)
pub open spec fn nodes_of(ops: Seq<Op>) -> Seq<Node>
    decreases ops,
{
    Seq::new(
        ops.len(),
        |i: int|
            if 0 <= i < ops.len() {
                node_of(ops[i])
            } else {
                arbitrary()
            },
    )
}

/// Appending one operation appends its model.
pub proof fn lemma_nodes_of_push(ops: Seq<Op>, op: Op)
    ensures
        nodes_of(ops.push(op)) == nodes_of(ops).push(node_of(op)),
{
    assert(nodes_of(ops.push(op)) =~= nodes_of(ops).push(node_of(op)));
}

} // verus!
