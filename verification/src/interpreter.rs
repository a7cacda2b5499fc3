//! The interpreter: a tape of 30000 cells, a data pointer, and the walk over
//! an operation tree.

use crate::console::{StandardInput, StandardOutput};
use crate::machine::{
    byte_of, lemma_quiet_from, quiet, run_from, run_loop, run_node, stored, wrap, Machine,
    RuntimeError, Signal, ROUND_LIMIT, TAPE_LEN,
};
use crate::ops::{node_of, nodes_of, Node, Op};
use crate::streams::{ByteSink, ByteSource};
use vstd::prelude::*;

verus! {

/// A tape machine with its memory and data pointer.
pub struct Interpreter {
    memory: [i8; 30000],
    data_ptr: usize,
}

impl Interpreter {
    /// The tape.
    pub closed spec fn cells(&self) -> Seq<i8> {
        self.memory@
    }

    /// The index of the current cell.
    pub closed spec fn ptr(&self) -> nat {
        self.data_ptr as nat
    }

    /// The data pointer is on the tape.
    pub open spec fn wf(&self) -> bool {
        &&& self.cells().len() == TAPE_LEN
        &&& self.ptr() < TAPE_LEN
    }

    /// The state of a run that stands at this tape and pointer.
    pub open spec fn machine(&self, rounds: nat, feed: Seq<Signal>, sent: Seq<u8>) -> Machine {
        Machine { cells: self.cells(), ptr: self.ptr(), rounds, feed, sent }
    }

    /// Whether a run of `program` from `self`, with `rounds` loop rounds to
    /// spend and the streams answering `feed`, takes every answer and ends at
    /// `end` with `r`.
    pub open spec fn runs_to(
        &self,
        program: Seq<Node>,
        rounds: nat,
        feed: Seq<Signal>,
        end: Interpreter,
        r: Result<(), RuntimeError>,
    ) -> bool {
        let (m, res) = run_from(self.machine(rounds, feed, Seq::empty()), program, 0);
        &&& m.cells == end.cells()
        &&& m.ptr == end.ptr()
        &&& m.feed.len() == 0
        &&& res == r
    }

    /// A machine with every cell zero and the pointer on the first cell.
    pub fn new() -> (r: Self)
        ensures
            r.wf(),
            r.ptr() == 0,
            r.cells() == Seq::new(TAPE_LEN as nat, |i: int| 0i8),
    {
        let r = Interpreter { memory: [0;30000], data_ptr: 0 };
        assert(r.cells() =~= Seq::new(TAPE_LEN as nat, |i: int| 0i8));
        r
    }

    /// The tape, cell by cell.
    pub fn get_memory(&self) -> (cells: &[i8])
        ensures
            cells@ == self.cells(),
    {
        &self.memory
    }

    /// Sets the cell at `addr`.
    pub fn set_memory(&mut self, addr: usize, value: i8)
        requires
            addr < TAPE_LEN,
        ensures
            final(self).cells() == old(self).cells().update(addr as int, value),
            final(self).ptr() == old(self).ptr(),
            old(self).wf() ==> final(self).wf(),
    {
        self.memory[addr] = value;
    }

    /// The index of the current cell.
    pub fn get_data_ptr(&self) -> (ptr: usize)
        ensures
            ptr == self.ptr(),
    {
        self.data_ptr
    }

    /// Puts the data pointer on the cell at `ptr`.
    pub fn set_data_ptr(&mut self, ptr: usize)
        requires
            ptr < TAPE_LEN,
        ensures
            final(self).wf(),
            final(self).ptr() == ptr,
            final(self).cells() == old(self).cells(),
    {
        self.data_ptr = ptr;
    }

    /// Adds `count` to the current cell, wrapping round the 8-bit range.
    pub fn increment(&mut self, count: usize)
        requires
            old(self).wf(),
        ensures
            final(self).wf(),
            final(self).ptr() == old(self).ptr(),
            final(self).cells() == old(self).cells().update(
                old(self).ptr() as int,
                wrap(old(self).cells()[old(self).ptr() as int] + count),
            ),
    {
        let cell: i32 = self.memory[self.data_ptr] as i32;
        let sum: i32 = cell + (count % 256) as i32;
        let wrapped: i32 = if sum > 127 {
            sum - 256
        } else {
            sum
        };
        self.memory[self.data_ptr] = wrapped as i8;
    }

    /// Subtracts `count` from the current cell, wrapping round the 8-bit range.
    pub fn decrement(&mut self, count: usize)
        requires
            old(self).wf(),
        ensures
            final(self).wf(),
            final(self).ptr() == old(self).ptr(),
            final(self).cells() == old(self).cells().update(
                old(self).ptr() as int,
                wrap(old(self).cells()[old(self).ptr() as int] - count),
            ),
    {
        let cell: i32 = self.memory[self.data_ptr] as i32;
        let diff: i32 = cell - (count % 256) as i32;
        let wrapped: i32 = if diff < -128 {
            diff + 256
        } else {
            diff
        };
        self.memory[self.data_ptr] = wrapped as i8;
    }

    /// Moves the data pointer `count` cells forward, unless that would leave
    /// the tape: then nothing changes and the error is `PointerOverflow`.
    pub fn move_forward(&mut self, count: usize) -> (r: Result<(), RuntimeError>)
        requires
            old(self).wf(),
        ensures
            final(self).wf(),
            final(self).cells() == old(self).cells(),
            old(self).ptr() + count >= TAPE_LEN ==> r == Err::<(), RuntimeError>(
                RuntimeError::PointerOverflow,
            ) && final(self).ptr() == old(self).ptr(),
            old(self).ptr() + count < TAPE_LEN ==> r == Ok::<(), RuntimeError>(())
                && final(self).ptr() == old(self).ptr() + count,
    {
        if count >= TAPE_LEN - self.data_ptr {
            return Err(RuntimeError::PointerOverflow);
        }
        self.data_ptr = self.data_ptr + count;
        Ok(())
    }

    /// Moves the data pointer `count` cells backward, unless that would leave
    /// the tape: then nothing changes and the error is `PointerUnderflow`.
    pub fn move_backward(&mut self, count: usize) -> (r: Result<(), RuntimeError>)
        requires
            old(self).wf(),
        ensures
            final(self).wf(),
            final(self).cells() == old(self).cells(),
            count > old(self).ptr() ==> r == Err::<(), RuntimeError>(
                RuntimeError::PointerUnderflow,
            ) && final(self).ptr() == old(self).ptr(),
            count <= old(self).ptr() ==> r == Ok::<(), RuntimeError>(()) && final(self).ptr()
                == old(self).ptr() - count,
    {
        if count > self.data_ptr {
            return Err(RuntimeError::PointerUnderflow);
        }
        self.data_ptr = self.data_ptr - count;
        Ok(())
    }

    /// Stores what a read gave: a byte goes into the current cell, a carriage
    /// return as a line feed; with `None` nothing changes.
    pub fn store_input(&mut self, byte: Option<u8>)
        requires
            old(self).wf(),
        ensures
            final(self).wf(),
            final(self).ptr() == old(self).ptr(),
            final(self).cells() == match byte {
                Some(b) => old(self).cells().update(old(self).ptr() as int, stored(b)),
                None => old(self).cells(),
            },
    {
        if let Some(b) = byte {
            let value: i8 = if b == 13 {
                10
            } else if b >= 128 {
                (b as i32 - 256) as i8
            } else {
                b as i8
            };
            self.memory[self.data_ptr] = value;
        }
    }

    /// The current cell as the byte that a write sends.
    pub fn output_byte(&self) -> (byte: u8)
        requires
            self.wf(),
        ensures
            byte == byte_of(self.cells()[self.ptr() as int]),
    {
        let cell = self.memory[self.data_ptr];
        if cell < 0 {
            (cell as i32 + 256) as u8
        } else {
            cell as u8
        }
    }

    /// Walks `program` once, in order, up to the first error, with `budget`
    /// loop rounds to spend. Returns the outcome, the rounds left, the answers
    /// that the streams gave and the bytes handed to the output stream.
    fn execute<I: ByteSource, O: ByteSink>(
        &mut self,
        program: &[Op],
        input: &mut I,
        output: &mut O,
        budget: u64,
        Ghost(sent): Ghost<Seq<u8>>,
    ) -> (out: (
        Result<(), RuntimeError>,
        u64,
        Ghost<Seq<Signal>>,
        Ghost<Seq<u8>>,
    ))
        requires
            old(self).wf(),
        ensures
            final(self).wf(),
            out.1 <= budget,
            forall|rest: Seq<Signal>| #[trigger]
                run_from(old(self).machine(budget as nat, out.2@ + rest, sent), nodes_of(program@), 0)
                    == (final(self).machine(out.1 as nat, rest, out.3@), out.0),
        decreases budget,
    {
        let ghost start = *self;
        let ghost nodes = nodes_of(program@);
        let ghost mut taken: Seq<Signal> = Seq::empty();
        let ghost mut written: Seq<u8> = sent;
        let mut left: u64 = budget;
        let mut i: usize = 0;
        assert forall|rest: Seq<Signal>| taken + rest == rest by {
            assert(taken + rest =~= rest);
        }
        while i < program.len()
            invariant
                i <= program.len(),
                self.wf(),
                left <= budget,
                start == *old(self),
                nodes == nodes_of(program@),
                forall|rest: Seq<Signal>| #[trigger]
                    run_from(start.machine(budget as nat, taken + rest, sent), nodes, 0)
                        == run_from(self.machine(left as nat, rest, written), nodes, i as int),
            decreases program.len() - i,
        {
            let ghost before = *self;
            let ghost taken0 = taken;
            let ghost written0 = written;
            let ghost left0 = left;
            let ghost mut here: Seq<Signal> = Seq::empty();
            let mut res: Result<(), RuntimeError> = Ok(());
            assert(nodes[i as int] == node_of(program@[i as int]));
            match &program[i] {
                Op::Inc(count) => {
                    self.increment(*count);
                },
                Op::Dec(count) => {
                    self.decrement(*count);
                },
                Op::Next(count) => {
                    res = self.move_forward(*count);
                },
                Op::Prev(count) => {
                    res = self.move_backward(*count);
                },
                Op::Read => {
                    let byte = input.read_one_byte();
                    self.store_input(byte);
                    proof {
                        here = seq![Signal::Byte(byte)];
                    }
                },
                Op::Print => {
                    let byte = self.output_byte();
                    let flushed = output.write_one_byte(byte);
                    proof {
                        here = seq![Signal::Flush(flushed)];
                        written = written0.push(byte);
                    }
                    match flushed {
                        Ok(()) => {},
                        Err(text) => {
                            res = Err(RuntimeError::Flush(text));
                        },
                    }
                },
                Op::Loop(body) => {
                    let ghost inner = nodes_of(body@);
                    assert(nodes[i as int] == Node::Loop(inner));
                    assert forall|rest: Seq<Signal>| here + rest == rest by {
                        assert(here + rest =~= rest);
                    }
                    while res.is_ok() && self.memory[self.data_ptr] != 0
                        invariant
                            self.wf(),
                            left <= left0 <= budget,
                            inner == nodes_of(body@),
                            forall|rest: Seq<Signal>| #[trigger]
                                run_loop(before.machine(left0 as nat, here + rest, written0), inner)
                                    == (if res is Ok {
                                    run_loop(self.machine(left as nat, rest, written), inner)
                                } else {
                                    (self.machine(left as nat, rest, written), res)
                                }),
                        decreases left, (if res is Ok { 1nat } else { 0nat }),
                    {
                        if left == 0 {
                            res = Err(RuntimeError::RoundLimit);
                        } else {
                            let ghost entry = *self;
                            let ghost here1 = here;
                            let ghost left1 = left;
                            let ghost written1 = written;
                            let (r, l, Ghost(t), Ghost(w)) = self.execute(
                                body.as_slice(),
                                input,
                                output,
                                left - 1,
                                Ghost(written),
                            );
                            res = r;
                            left = l;
                            proof {
                                here = here1 + t;
                                written = w;
                            }
                            assert forall|rest: Seq<Signal>| #[trigger]
                                run_loop(before.machine(left0 as nat, here + rest, written0), inner)
                                    == (if res is Ok {
                                    run_loop(self.machine(left as nat, rest, written), inner)
                                } else {
                                    (self.machine(left as nat, rest, written), res)
                                }) by {
                                assert(here + rest =~= here1 + (t + rest));
                                assert(run_loop(
                                    before.machine(left0 as nat, here1 + (t + rest), written0),
                                    inner,
                                ) == run_loop(entry.machine(left1 as nat, t + rest, written1), inner));
                                assert(run_from(
                                    entry.machine((left1 - 1) as nat, t + rest, written1),
                                    inner,
                                    0,
                                ) == (self.machine(left as nat, rest, written), res));
                            }
                        }
                    }
                    assert(res is Ok ==> res->Ok_0 == ());
                    assert forall|rest: Seq<Signal>| #[trigger]
                        run_node(before.machine(left0 as nat, here + rest, written0), nodes[i as int])
                            == (self.machine(left as nat, rest, written), res) by {
                        assert(run_loop(before.machine(left0 as nat, here + rest, written0), inner)
                            == (self.machine(left as nat, rest, written), res));
                    }
                },
            }
            proof {
                taken = taken0 + here;
            }
            assert forall|rest: Seq<Signal>| #[trigger]
                run_from(start.machine(budget as nat, taken + rest, sent), nodes, 0) == (
                if res is Err {
                    (self.machine(left as nat, rest, written), res)
                } else {
                    run_from(self.machine(left as nat, rest, written), nodes, i + 1)
                }) by {
                assert(taken + rest =~= taken0 + (here + rest));
                if here.len() == 0 {
                    assert(here + rest =~= rest);
                } else if here.len() == 1 {
                    assert((here + rest)[0] == here[0]);
                    assert((here + rest).skip(1) =~= rest);
                }
                assert(run_from(start.machine(budget as nat, taken0 + (here + rest), sent), nodes, 0)
                    == run_from(
                    before.machine(left0 as nat, here + rest, written0),
                    nodes,
                    i as int,
                ));
                assert(run_node(
                    before.machine(left0 as nat, here + rest, written0),
                    nodes[i as int],
                ) == (self.machine(left as nat, rest, written), res));
            }
            if res.is_err() {
                return (res, left, Ghost(taken), Ghost(written));
            }
            i += 1;
        }
        (Ok(()), left, Ghost(taken), Ghost(written))
    }

    /// Runs `program` on this machine with at most `rounds` loop rounds,
    /// reading from `input` and writing to `output`.
    ///
    /// The tape and pointer end where the model of a run puts them, for the
    /// answers that the streams gave; the result is the model's. A run that
    /// comes to a loop round with none left ends there with `RoundLimit`.
    pub fn run_within<I: ByteSource, O: ByteSink>(
        &mut self,
        program: &[Op],
        input: &mut I,
        output: &mut O,
        rounds: u64,
    ) -> (r: Result<(), RuntimeError>)
        requires
            old(self).wf(),
        ensures
            final(self).wf(),
            exists|feed: Seq<Signal>| #[trigger]
                old(self).runs_to(nodes_of(program@), rounds as nat, feed, *final(self), r),
    {
        let ghost start = *self;
        let (r, left, Ghost(taken), Ghost(written)) = self.execute(
            program,
            input,
            output,
            rounds,
            Ghost(Seq::empty()),
        );
        proof {
            let none: Seq<Signal> = Seq::empty();
            assert(taken + none =~= taken);
            assert(run_from(
                start.machine(rounds as nat, taken + none, Seq::empty()),
                nodes_of(program@),
                0,
            ) == (self.machine(left as nat, none, written), r));
            assert(start.runs_to(nodes_of(program@), rounds as nat, taken, *self, r));
        }
        r
    }

    /// Runs `program` on this machine, reading from `input` and writing to
    /// `output`, with [`ROUND_LIMIT`] loop rounds.
    ///
    /// The tape and pointer end where the model of a run puts them, for the
    /// answers that the streams gave; the result is the model's.
    pub fn run_with<I: ByteSource, O: ByteSink>(
        &mut self,
        program: &[Op],
        input: &mut I,
        output: &mut O,
    ) -> (r: Result<(), RuntimeError>)
        requires
            old(self).wf(),
        ensures
            final(self).wf(),
            exists|feed: Seq<Signal>| #[trigger]
                old(self).runs_to(nodes_of(program@), ROUND_LIMIT as nat, feed, *final(self), r),
    {
        self.run_within(program, input, output, ROUND_LIMIT)
    }

    /// Runs `program` on this machine, reading from standard input and
    /// writing to standard output, with [`ROUND_LIMIT`] loop rounds.
    ///
    /// The tape and pointer end where the model of a run puts them, for the
    /// answers that the streams gave; the result is the model's.
    pub fn run(&mut self, program: &[Op]) -> (r: Result<(), RuntimeError>)
        requires
            old(self).wf(),
        ensures
            final(self).wf(),
            exists|feed: Seq<Signal>| #[trigger]
                old(self).runs_to(nodes_of(program@), ROUND_LIMIT as nat, feed, *final(self), r),
    {
        let mut input = StandardInput;
        let mut output = StandardOutput;
        self.run_with(program, &mut input, &mut output)
    }
}

/// A run of a quiet program takes no answer from the streams, so its outcome
/// is the one outcome of the model with an empty feed.
pub proof fn lemma_quiet_run(
    start: Interpreter,
    program: Seq<Node>,
    rounds: nat,
    feed: Seq<Signal>,
    end: Interpreter,
    r: Result<(), RuntimeError>,
)
    requires
        quiet(program),
        start.runs_to(program, rounds, feed, end, r),
    ensures
        feed == Seq::<Signal>::empty(),
        start.runs_to(program, rounds, Seq::empty(), end, r),
{
    lemma_quiet_from(start.machine(rounds, feed, Seq::empty()), program, 0, feed);
    assert(feed =~= Seq::<Signal>::empty());
}

} // verus!
