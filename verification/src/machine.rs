//! The tape machine: its mathematical model and the interpreter that is
//! proved to follow it.

use crate::ops::Node;
use vstd::prelude::*;

verus! {

/// The number of cells on the tape.
pub const TAPE_LEN: usize = 30000;

/// The number of loop rounds that one run may take, over all its loops. A
/// run that would take more ends with [`RuntimeError::RoundLimit`]; at a
/// thousand million rounds a second that is after some 580 years.
pub const ROUND_LIMIT: u64 = 18446744073709551615;

/// Why a run stopped early.
#[derive(Debug, PartialEq, Eq)]
pub enum RuntimeError {
    /// A forward move would leave the tape.
    PointerOverflow,
    /// A backward move would leave the tape.
    PointerUnderflow,
    /// A byte could not be written and flushed; the text is the stream's.
    Flush(String),
    /// The run used up its [`ROUND_LIMIT`] loop rounds.
    RoundLimit,
}

impl RuntimeError {
    /// The text of the error.
    pub open spec fn message_spec(self) -> Seq<char> {
        match self {
            RuntimeError::PointerOverflow => "Data pointer overflow"@,
            RuntimeError::PointerUnderflow => "Data pointer underflow"@,
            RuntimeError::Flush(text) => text@,
            RuntimeError::RoundLimit => "Loop round limit reached"@,
        }
    }

    /// A sentence for the person who ran the program.
    pub fn message(&self) -> (text: String)
        ensures
            text@ == self.message_spec(),
    {
        match self {
            RuntimeError::PointerOverflow => "Data pointer overflow".to_owned(),
            RuntimeError::PointerUnderflow => "Data pointer underflow".to_owned(),
            RuntimeError::Flush(text) => text.clone(),
            RuntimeError::RoundLimit => "Loop round limit reached".to_owned(),
        }
    }
}

/// What a stream answered to one request.
pub enum Signal {
    /// The answer to a read: a byte, or `None` at end of input or on failure.
    Byte(Option<u8>),
    /// The answer to a write and flush: done, or the failure's text.
    Flush(Result<(), String>),
}

/// The state of a run.
pub struct Machine {
    /// The tape.
    pub cells: Seq<i8>,
    /// The index of the current cell.
    pub ptr: nat,
    /// The loop rounds that the run may still take.
    pub rounds: nat,
    /// The answers that the streams are still to give, in order.
    pub feed: Seq<Signal>,
    /// The bytes handed to the output stream so far.
    pub sent: Seq<u8>,
}

/// The cell value that the integer `x` wraps to: the one value in
/// `-128..=127` that differs from `x` by a multiple of 256.
pub open spec fn wrap(x: int) -> i8 {
    (((x + 128) % 256) - 128) as i8
}

/// The cell value stored for an input byte: a carriage return becomes a line
/// feed, any other byte is read as a signed value.
pub open spec fn stored(byte: u8) -> i8 {
    if byte == 13 {
        10
    } else if byte >= 128 {
        (byte - 256) as i8
    } else {
        byte as i8
    }
}

/// The byte written for a cell value: the value read as unsigned.
pub open spec fn byte_of(cell: i8) -> u8 {
    if cell < 0 {
        (cell + 256) as u8
    } else {
        cell as u8
    }
}

impl Machine {
    /// The current cell.
    pub open spec fn cell(self) -> i8 {
        self.cells[self.ptr as int]
    }

    /// The machine with the current cell set to `value`.
    pub open spec fn put(self, value: i8) -> Machine {
        Machine { cells: self.cells.update(self.ptr as int, value), ..self }
    }

    /// The answer that the next request gets, if the feed holds one.
    pub open spec fn answer(self) -> Option<Signal> {
        if self.feed.len() > 0 {
            Some(self.feed[0])
        } else {
            None
        }
    }

    /// The machine after one answer was taken from the feed.
    pub open spec fn answered(self) -> Machine {
        if self.feed.len() > 0 {
            Machine { feed: self.feed.skip(1), ..self }
        } else {
            self
        }
    }
}

/// One operation other than a loop, applied to `m`. (A loop is left to
/// [`run_loop`]; here it changes nothing.)
pub open spec fn step(m: Machine, node: Node) -> (Machine, Result<(), RuntimeError>) {
    match node {
        Node::Inc(n) => (m.put(wrap(m.cell() + n)), Ok(())),
        Node::Dec(n) => (m.put(wrap(m.cell() - n)), Ok(())),
        Node::Next(n) => if m.ptr + n >= m.cells.len() {
            (m, Err(RuntimeError::PointerOverflow))
        } else {
            (Machine { ptr: m.ptr + n, ..m }, Ok(()))
        },
        Node::Prev(n) => if n > m.ptr {
            (m, Err(RuntimeError::PointerUnderflow))
        } else {
            (Machine { ptr: (m.ptr - n) as nat, ..m }, Ok(()))
        },
        Node::Read => match m.answer() {
            Some(Signal::Byte(Some(byte))) => (m.answered().put(stored(byte)), Ok(())),
            _ => (m.answered(), Ok(())),
        },
        Node::Print => {
            let after = Machine { sent: m.sent.push(byte_of(m.cell())), ..m.answered() };
            match m.answer() {
                Some(Signal::Flush(Err(text))) => (after, Err(RuntimeError::Flush(text))),
                _ => (after, Ok(())),
            }
        },
        Node::Loop(_) => (m, Ok(())),
    }
}

/// One operation applied to `m`.
pub open spec fn run_node(m: Machine, node: Node) -> (Machine, Result<(), RuntimeError>)
    decreases m.rounds, 1nat, 0nat,
{
    match node {
        Node::Loop(body) => run_loop(m, body),
        _ => step(m, node),
    }
}

/// A loop over `body` entered with `m`: the current cell is tested before
/// every round, the first too; each round takes one of the rounds left and
/// runs the whole body; an error in the body ends the loop.
///
/// No round leaves more rounds than it found ([`lemma_run_keeps_shape`]): the
/// test on the rounds after a round is there for the termination measure
/// alone.
pub open spec fn run_loop(m: Machine, body: Seq<Node>) -> (Machine, Result<(), RuntimeError>)
    decreases m.rounds, 0nat, 0nat,
{
    if m.cell() == 0 {
        (m, Ok(()))
    } else if m.rounds == 0 {
        (m, Err(RuntimeError::RoundLimit))
    } else {
        let (after, r) = run_from(Machine { rounds: (m.rounds - 1) as nat, ..m }, body, 0);
        if r is Err || after.rounds >= m.rounds {
            (after, r)
        } else {
            run_loop(after, body)
        }
    }
}

/// The operations of `nodes` from index `i` on, applied to `m` in order up to
/// the first error.
///
/// No operation leaves more rounds than it found
/// ([`lemma_loop_keeps_shape`]): the test on the rounds after an operation is
/// there for the termination measure alone.
pub open spec fn run_from(m: Machine, nodes: Seq<Node>, i: int) -> (
    Machine,
    Result<(), RuntimeError>,
)
    decreases m.rounds, 2nat, (if i < nodes.len() { nodes.len() - i } else { 0 }),
{
    if i < 0 || i >= nodes.len() {
        (m, Ok(()))
    } else {
        let (after, r) = run_node(m, nodes[i]);
        if r is Err || after.rounds > m.rounds {
            (after, r)
        } else {
            run_from(after, nodes, i + 1)
        }
    }
}

/// Whether the pointer of `m` is on its tape.
pub open spec fn on_tape(m: Machine) -> bool {
    m.ptr < m.cells.len()
}

/// Running operations keeps the tape's length and keeps the pointer on the
/// tape, whether the run ends in an error or not, and never leaves more
/// rounds than it found.
pub proof fn lemma_run_keeps_shape(m: Machine, nodes: Seq<Node>, i: int)
    requires
        on_tape(m),
    ensures
        on_tape(run_from(m, nodes, i).0),
        run_from(m, nodes, i).0.cells.len() == m.cells.len(),
        run_from(m, nodes, i).0.rounds <= m.rounds,
    decreases m.rounds, 2nat, (if i < nodes.len() { nodes.len() - i } else { 0 }),
{
    if 0 <= i < nodes.len() {
        match nodes[i] {
            Node::Loop(body) => {
                lemma_loop_keeps_shape(m, body);
            },
            _ => {},
        }
        let (after, r) = run_node(m, nodes[i]);
        if !(r is Err) {
            lemma_run_keeps_shape(after, nodes, i + 1);
        }
    }
}

/// A loop keeps the tape's length and keeps the pointer on the tape, and
/// never leaves more rounds than it found.
pub proof fn lemma_loop_keeps_shape(m: Machine, body: Seq<Node>)
    requires
        on_tape(m),
    ensures
        on_tape(run_loop(m, body).0),
        run_loop(m, body).0.cells.len() == m.cells.len(),
        run_loop(m, body).0.rounds <= m.rounds,
    decreases m.rounds, 0nat, 0nat,
{
    if m.cell() != 0 && m.rounds != 0 {
        let entered = Machine { rounds: (m.rounds - 1) as nat, ..m };
        lemma_run_keeps_shape(entered, body, 0);
        let (after, r) = run_from(entered, body, 0);
        if !(r is Err) {
            lemma_loop_keeps_shape(after, body);
        }
    }
}

/// `node` applied `k` times in a row, whatever each application returned.
pub open spec fn repeated(m: Machine, node: Node, k: nat) -> Machine
    decreases k,
{
    if k == 0 {
        m
    } else {
        run_node(repeated(m, node, (k - 1) as nat), node).0
    }
}

/// Wrapping is cyclic: 256 more or less is the same cell value, and a cell
/// value wraps to itself.
pub proof fn lemma_wrap_cycle(x: int, cell: i8)
    ensures
        wrap(x + 256) == wrap(x),
        wrap(x - 256) == wrap(x),
        wrap(cell as int) == cell,
        wrap(wrap(x) + 1) == wrap(x + 1),
        wrap(wrap(x) - 1) == wrap(x - 1),
{
}

/// `k` single increments add `k` to the current cell, wrapping, and change
/// nothing else.
pub proof fn lemma_increments_add(m: Machine, k: nat)
    requires
        m.ptr < m.cells.len(),
    ensures
        repeated(m, Node::Inc(1), k) == m.put(wrap(m.cell() + k)),
    decreases k,
{
    if k == 0 {
        assert(m.cells.update(m.ptr as int, m.cell()) =~= m.cells);
    } else {
        lemma_increments_add(m, (k - 1) as nat);
        let prev = m.put(wrap(m.cell() + k - 1));
        lemma_wrap_cycle(m.cell() + k - 1, 0);
        assert(prev.cells.update(m.ptr as int, wrap(m.cell() + k)) =~= m.cells.update(
            m.ptr as int,
            wrap(m.cell() + k),
        ));
    }
}

/// 256 single increments bring every cell value back to where it was.
pub proof fn lemma_increment_cycle(m: Machine)
    requires
        m.ptr < m.cells.len(),
    ensures
        repeated(m, Node::Inc(1), 256) == m,
{
    lemma_increments_add(m, 256);
    lemma_wrap_cycle(m.cell() as int, m.cell());
    assert(m.cells.update(m.ptr as int, m.cell()) =~= m.cells);
}

/// A forward move that would put the pointer at or past the end of the tape
/// fails with `PointerOverflow`, a backward move past the first cell with
/// `PointerUnderflow`; either leaves the machine as it was. Any other move
/// succeeds.
pub proof fn lemma_pointer_bounds(m: Machine, n: nat)
    ensures
        m.ptr + n >= m.cells.len() ==> run_from(m, seq![Node::Next(n)], 0) == (
            m,
            Err::<(), RuntimeError>(RuntimeError::PointerOverflow),
        ),
        m.ptr + n < m.cells.len() ==> run_from(m, seq![Node::Next(n)], 0) == (
            Machine { ptr: m.ptr + n, ..m },
            Ok::<(), RuntimeError>(()),
        ),
        n > m.ptr ==> run_from(m, seq![Node::Prev(n)], 0) == (
            m,
            Err::<(), RuntimeError>(RuntimeError::PointerUnderflow),
        ),
        n <= m.ptr ==> run_from(m, seq![Node::Prev(n)], 0) == (
            Machine { ptr: (m.ptr - n) as nat, ..m },
            Ok::<(), RuntimeError>(()),
        ),
{
    reveal_with_fuel(run_from, 3);
}

/// A loop entered on a zero cell runs no round: the machine is as it was,
/// its rounds too.
pub proof fn lemma_loop_on_zero(m: Machine, body: Seq<Node>)
    requires
        m.cell() == 0,
    ensures
        run_loop(m, body) == (m, Ok::<(), RuntimeError>(())),
        run_node(m, Node::Loop(body)) == (m, Ok::<(), RuntimeError>(())),
{
}

/// A loop whose body takes one from the current cell runs exactly as many
/// rounds as the cell's value read as unsigned, and leaves the cell zero.
pub proof fn lemma_countdown(m: Machine)
    requires
        m.ptr < m.cells.len(),
        m.rounds >= byte_of(m.cell()),
    ensures
        run_loop(m, seq![Node::Dec(1)]) == (
            Machine { rounds: (m.rounds - byte_of(m.cell())) as nat, ..m.put(0) },
            Ok::<(), RuntimeError>(()),
        ),
    decreases byte_of(m.cell()),
{
    let body = seq![Node::Dec(1)];
    if m.cell() == 0 {
        assert(m.cells.update(m.ptr as int, 0i8) =~= m.cells);
    } else {
        let entered = Machine { rounds: (m.rounds - 1) as nat, ..m };
        let after = entered.put(wrap(m.cell() - 1));
        reveal_with_fuel(run_from, 3);
        assert(run_from(entered, body, 0) == (after, Ok::<(), RuntimeError>(())));
        assert(byte_of(after.cell()) == byte_of(m.cell()) - 1);
        lemma_countdown(after);
        assert(after.cells.update(m.ptr as int, 0i8) =~= m.cells.update(m.ptr as int, 0i8));
    }
}

/// Whether one round of `body` from `m` succeeds, takes one from the current
/// cell and comes back to it, at no cost in rounds.
pub open spec fn takes_one(body: Seq<Node>, m: Machine) -> bool {
    let (after, r) = run_from(m, body, 0);
    &&& r is Ok
    &&& after.ptr == m.ptr
    &&& after.cells.len() == m.cells.len()
    &&& after.cell() == wrap(m.cell() - 1)
    &&& after.rounds == m.rounds
}

/// A loop whose body takes one from the current cell on every round runs
/// exactly as many rounds as the cell's value read as unsigned: three when
/// entered on 3, none when entered on 0. It ends on a zero cell.
pub proof fn lemma_loop_counts_down(m: Machine, body: Seq<Node>)
    requires
        m.rounds >= byte_of(m.cell()),
        forall|x: Machine|
            x.ptr == m.ptr && x.cells.len() == m.cells.len() ==> #[trigger] takes_one(body, x),
    ensures
        run_loop(m, body).1 is Ok,
        run_loop(m, body).0.cell() == 0,
        run_loop(m, body).0.ptr == m.ptr,
        run_loop(m, body).0.rounds == m.rounds - byte_of(m.cell()),
    decreases byte_of(m.cell()),
{
    if m.cell() != 0 {
        let entered = Machine { rounds: (m.rounds - 1) as nat, ..m };
        assert(takes_one(body, entered));
        let after = run_from(entered, body, 0).0;
        assert(byte_of(after.cell()) == byte_of(m.cell()) - 1);
        lemma_loop_counts_down(after, body);
    }
}

/// Whether no operation in `nodes`, at any depth, reads or writes.
pub open spec fn quiet(nodes: Seq<Node>) -> bool
    decreases nodes,
{
    forall|i: int| 0 <= i < nodes.len() ==> quiet_node(#[trigger] nodes[i])
}

/// Whether `node` neither reads nor writes, nor holds an operation that does.
pub open spec fn quiet_node(node: Node) -> bool
    decreases node,
{
    match node {
        Node::Read => false,
        Node::Print => false,
        Node::Loop(body) => quiet(body),
        _ => true,
    }
}

/// A quiet program does not look at the feed: with another feed it runs to
/// the same machine, that feed in place of its own, and to the same result.
pub proof fn lemma_quiet_from(m: Machine, nodes: Seq<Node>, i: int, feed: Seq<Signal>)
    requires
        quiet(nodes),
    ensures
        run_from(Machine { feed, ..m }, nodes, i) == (
            Machine { feed, ..run_from(m, nodes, i).0 },
            run_from(m, nodes, i).1,
        ),
        run_from(m, nodes, i).0.feed == m.feed,
        run_from(m, nodes, i).0.sent == m.sent,
    decreases m.rounds, 2nat, (if i < nodes.len() { nodes.len() - i } else { 0 }),
{
    if 0 <= i < nodes.len() {
        let other = Machine { feed, ..m };
        assert(quiet_node(nodes[i]));
        match nodes[i] {
            Node::Loop(body) => {
                lemma_quiet_loop(m, body, feed);
            },
            _ => {},
        }
        let (after, r) = run_node(m, nodes[i]);
        assert(run_node(other, nodes[i]) == (Machine { feed, ..after }, r));
        if !(r is Err || after.rounds > m.rounds) {
            lemma_quiet_from(after, nodes, i + 1, feed);
        }
    }
}

/// A loop over a quiet body does not look at the feed.
pub proof fn lemma_quiet_loop(m: Machine, body: Seq<Node>, feed: Seq<Signal>)
    requires
        quiet(body),
    ensures
        run_loop(Machine { feed, ..m }, body) == (
            Machine { feed, ..run_loop(m, body).0 },
            run_loop(m, body).1,
        ),
        run_loop(m, body).0.feed == m.feed,
        run_loop(m, body).0.sent == m.sent,
    decreases m.rounds, 0nat, 0nat,
{
    if m.cell() != 0 && m.rounds != 0 {
        let entered = Machine { rounds: (m.rounds - 1) as nat, ..m };
        lemma_quiet_from(entered, body, 0, feed);
        let (after, r) = run_from(entered, body, 0);
        assert(Machine { rounds: (m.rounds - 1) as nat, ..Machine { feed, ..m } } == Machine {
            feed,
            ..entered
        });
        if !(r is Err || after.rounds >= m.rounds) {
            lemma_quiet_loop(after, body, feed);
        }
    }
}

} // verus!
