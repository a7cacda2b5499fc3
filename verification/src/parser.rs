//! From source bytes to an operation tree.
//!
//! The grammar is stated as the spec function [`parsed`]; [`parse`] is proved
//! to compute it.

use crate::ops::{lemma_nodes_of_push, node_of, nodes_of, Node, Op};
use vstd::prelude::*;
use vstd::slice::slice_subrange;

verus! {

/// `+`
pub const PLUS: u8 = 43;

/// `-`
pub const MINUS: u8 = 45;

/// `>`
pub const RIGHT: u8 = 62;

/// `<`
pub const LEFT: u8 = 60;

/// `,`
pub const COMMA: u8 = 44;

/// `.`
pub const DOT: u8 = 46;

/// `[`
pub const OPEN: u8 = 91;

/// `]`
pub const CLOSE: u8 = 93;

/// Why a source text is not a program.
#[derive(Debug, Clone, Copy, PartialEq, Eq)]
pub enum ParseError {
    /// A `[` with no matching `]` before the end of the text.
    UnmatchedOpenBracket,
    /// A `]` outside every open bracket.
    UnmatchedCloseBracket,
}

impl ParseError {
    /// The text of the error.
    pub open spec fn message_spec(self) -> Seq<char> {
        match self {
            ParseError::UnmatchedOpenBracket => "Unmatched opening bracket"@,
            ParseError::UnmatchedCloseBracket => "Unexpected closing bracket"@,
        }
    }

    /// A sentence for the person who wrote the program.
    pub fn message(&self) -> (text: &'static str)
        ensures
            text@ == self.message_spec(),
    {
        match self {
            ParseError::UnmatchedOpenBracket => "Unmatched opening bracket",
            ParseError::UnmatchedCloseBracket => "Unexpected closing bracket",
        }
    }
}

/// Whether `c` is one of the four commands that fold into a count.
pub open spec fn is_fold(c: u8) -> bool {
    c == PLUS || c == MINUS || c == RIGHT || c == LEFT
}

/// The operation that a run of `k` copies of the fold command `c` becomes.
pub open spec fn folded(c: u8, k: nat) -> Node {
    if c == PLUS {
        Node::Inc(k)
    } else if c == MINUS {
        Node::Dec(k)
    } else if c == RIGHT {
        Node::Next(k)
    } else {
        Node::Prev(k)
    }
}

/// The number of consecutive bytes equal to `c` in `s` from index `i` on.
pub open spec fn run_len(s: Seq<u8>, i: int, c: u8) -> nat
    decreases s.len() - i,
{
    if 0 <= i < s.len() && s[i] == c {
        1 + run_len(s, i + 1, c)
    } else {
        0
    }
}

/// Scanning `s` from index `j` with `balance` brackets open, the index of the
/// `]` that closes the last of them; `s.len()` where there is none.
pub open spec fn closing(s: Seq<u8>, j: int, balance: nat) -> int
    decreases s.len() - j,
{
    if j < 0 || j >= s.len() {
        s.len() as int
    } else if s[j] == OPEN {
        closing(s, j + 1, balance + 1)
    } else if s[j] == CLOSE {
        if balance <= 1 {
            j
        } else {
            closing(s, j + 1, (balance - 1) as nat)
        }
    } else {
        closing(s, j + 1, balance)
    }
}

/// `first` in front of what the rest of the text parses to.
pub open spec fn cons(first: Node, rest: Result<Seq<Node>, ParseError>) -> Result<
    Seq<Node>,
    ParseError,
> {
    match rest {
        Ok(nodes) => Ok(seq![first] + nodes),
        Err(e) => Err(e),
    }
}

/// What `s` parses to from index `i` on.
pub open spec fn parse_from(s: Seq<u8>, i: int) -> Result<Seq<Node>, ParseError>
    decreases s.len(), (if i < s.len() { s.len() - i } else { 0 }),
{
    if i < 0 || i >= s.len() {
        Ok(Seq::empty())
    } else if is_fold(s[i]) {
        let k = 1 + run_len(s, i + 1, s[i]);
        cons(folded(s[i], k), parse_from(s, i + k))
    } else if s[i] == COMMA {
        cons(Node::Read, parse_from(s, i + 1))
    } else if s[i] == DOT {
        cons(Node::Print, parse_from(s, i + 1))
    } else if s[i] == OPEN {
        let j = closing(s, i + 1, 1);
        if i < j < s.len() {
            match parse_from(s.subrange(i + 1, j), 0) {
                Ok(body) => cons(Node::Loop(body), parse_from(s, j + 1)),
                Err(e) => Err(e),
            }
        } else {
            Err(ParseError::UnmatchedOpenBracket)
        }
    } else if s[i] == CLOSE {
        Err(ParseError::UnmatchedCloseBracket)
    } else {
        parse_from(s, i + 1)
    }
}

/// What the whole text `s` parses to: the operations in source order, or the
/// first bracket error met from the left.
pub open spec fn parsed(s: Seq<u8>) -> Result<Seq<Node>, ParseError> {
    parse_from(s, 0)
}

/// `done` in front of what the rest of the text parses to.
pub open spec fn join(done: Seq<Node>, rest: Result<Seq<Node>, ParseError>) -> Result<
    Seq<Node>,
    ParseError,
> {
    match rest {
        Ok(nodes) => Ok(done + nodes),
        Err(e) => Err(e),
    }
}

/// The model of what [`parse`] returns.
pub open spec fn model_of(r: Result<Vec<Op>, ParseError>) -> Result<Seq<Node>, ParseError> {
    match r {
        Ok(ops) => Ok(nodes_of(ops@)),
        Err(e) => Err(e),
    }
}

proof fn lemma_join_cons(done: Seq<Node>, first: Node, rest: Result<Seq<Node>, ParseError>)
    ensures
        join(done, cons(first, rest)) == join(done.push(first), rest),
{
    match rest {
        Ok(nodes) => {
            assert(done + (seq![first] + nodes) =~= done.push(first) + nodes);
        },
        Err(_) => {},
    }
}

/// A run of exactly `k` copies of `c` from index `i` has length `k`.
proof fn lemma_run_len(s: Seq<u8>, i: int, c: u8, k: nat)
    requires
        0 <= i,
        i + k <= s.len(),
        forall|j: int| i <= j < i + k ==> s[j] == c,
        i + k == s.len() || s[i + k] != c,
    ensures
        run_len(s, i, c) == k,
    decreases k,
{
    if k > 0 {
        lemma_run_len(s, i + 1, c, (k - 1) as nat);
    }
}

/// Folding: where `k >= 1` copies of one fold command stand at index `i` and
/// the byte after them, if any, is another, the text parses from `i` to one
/// operation with count `k`, followed by what it parses to from `i + k`.
pub proof fn lemma_fold(s: Seq<u8>, i: int, k: nat)
    requires
        0 <= i,
        k >= 1,
        i + k <= s.len(),
        is_fold(s[i]),
        forall|j: int| i <= j < i + k ==> s[j] == s[i],
        i + k == s.len() || s[i + k] != s[i],
    ensures
        parse_from(s, i) == cons(folded(s[i], k), parse_from(s, i + k)),
{
    lemma_run_len(s, i + 1, s[i], (k - 1) as nat);
}

/// Parses source text into its operation tree.
///
/// Bytes that are no command are skipped. A maximal run of one of `+ - > <`
/// becomes one operation with the run's length; a bracket pair becomes a loop
/// over what stands between them.
pub fn parse(code: &[u8]) -> (r: Result<Vec<Op>, ParseError>)
    ensures
        model_of(r) == parsed(code@),
    decreases code@.len(),
{
    let n = code.len();
    let mut program: Vec<Op> = Vec::new();
    let mut i: usize = 0;
    assert(nodes_of(program@) =~= Seq::empty());
    assert(join(Seq::empty(), parse_from(code@, 0)) == parse_from(code@, 0)) by {
        match parse_from(code@, 0) {
            Ok(nodes) => {
                assert(Seq::<Node>::empty() + nodes =~= nodes);
            },
            Err(_) => {},
        }
    }
    while i < n
        invariant
            i <= n,
            n == code@.len(),
            parsed(code@) == join(nodes_of(program@), parse_from(code@, i as int)),
        decreases n - i,
    {
        let c = code[i];
        if c == PLUS || c == MINUS || c == RIGHT || c == LEFT {
            let start = i;
            while i < n && code[i] == c
                invariant
                    start <= i <= n,
                    n == code@.len(),
                    run_len(code@, start as int, c) == (i - start) + run_len(code@, i as int, c),
                decreases n - i,
            {
                i += 1;
            }
            let count = i - start;
            let op = if c == PLUS {
                Op::Inc(count)
            } else if c == MINUS {
                Op::Dec(count)
            } else if c == RIGHT {
                Op::Next(count)
            } else {
                Op::Prev(count)
            };
            proof {
                assert(run_len(code@, start as int, c) == count);
                assert(node_of(op) == folded(c, count as nat));
                lemma_nodes_of_push(program@, op);
                lemma_join_cons(nodes_of(program@), node_of(op), parse_from(code@, i as int));
            }
            program.push(op);
        } else if c == COMMA {
            proof {
                lemma_nodes_of_push(program@, Op::Read);
                lemma_join_cons(nodes_of(program@), Node::Read, parse_from(code@, i + 1));
            }
            program.push(Op::Read);
            i += 1;
        } else if c == DOT {
            proof {
                lemma_nodes_of_push(program@, Op::Print);
                lemma_join_cons(nodes_of(program@), Node::Print, parse_from(code@, i + 1));
            }
            program.push(Op::Print);
            i += 1;
        } else if c == OPEN {
            let start = i + 1;
            let mut j = start;
            let mut balance: usize = 1;
            let mut found = false;
            while j < n && !found
                invariant
                    1 <= start <= j <= n,
                    n == code@.len(),
                    1 <= balance <= j - start + 1,
                    !found ==> closing(code@, start as int, 1) == closing(
                        code@,
                        j as int,
                        balance as nat,
                    ),
                    found ==> j < n && closing(code@, start as int, 1) == j,
                decreases n - j + (if found { 0int } else { 1int }),
            {
                let b = code[j];
                if b == OPEN {
                    balance += 1;
                    j += 1;
                } else if b == CLOSE {
                    if balance == 1 {
                        found = true;
                    } else {
                        balance -= 1;
                        j += 1;
                    }
                } else {
                    j += 1;
                }
            }
            if !found {
                return Err(ParseError::UnmatchedOpenBracket);
            }
            let body = match parse(slice_subrange(code, start, j)) {
                Ok(body) => body,
                Err(e) => {
                    return Err(e);
                },
            };
            let op = Op::Loop(body);
            proof {
                assert(node_of(op) == Node::Loop(nodes_of(body@)));
                lemma_nodes_of_push(program@, op);
                lemma_join_cons(nodes_of(program@), node_of(op), parse_from(code@, j + 1));
            }
            program.push(op);
            i = j + 1;
        } else if c == CLOSE {
            return Err(ParseError::UnmatchedCloseBracket);
        } else {
            i += 1;
        }
    }
    proof {
        assert(nodes_of(program@) + Seq::<Node>::empty() =~= nodes_of(program@));
    }
    Ok(program)
}

} // verus!
