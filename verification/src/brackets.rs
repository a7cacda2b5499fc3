//! Bracket balance, and what it means for parsing.

use crate::parser::{closing, is_fold, parse_from, parsed, run_len, ParseError, CLOSE, OPEN};
use vstd::prelude::*;

verus! {

/// What one byte adds to the bracket depth.
pub open spec fn weight(b: u8) -> int {
    if b == OPEN {
        1
    } else if b == CLOSE {
        -1
    } else {
        0
    }
}

/// The opening brackets minus the closing brackets among the first `n` bytes
/// of `s`.
pub open spec fn depth(s: Seq<u8>, n: int) -> int
    decreases n,
{
    if n <= 0 {
        0
    } else {
        depth(s, n - 1) + weight(s[n - 1])
    }
}

/// From index `i` on, the depth never falls below what it is at `i`: no `]`
/// stands there without a `[` at or after `i` before it.
pub open spec fn no_stray_close(s: Seq<u8>, i: int) -> bool {
    forall|n: int| i <= n <= s.len() ==> #[trigger] depth(s, n) >= depth(s, i)
}

/// Every `]` closes a `[` before it, and every `[` is closed.
pub open spec fn balanced(s: Seq<u8>) -> bool {
    no_stray_close(s, 0) && depth(s, s.len() as int) == 0
}

proof fn lemma_closing(s: Seq<u8>, j: int, b: nat)
    requires
        0 <= j <= s.len(),
        b >= 1,
    ensures
        j <= closing(s, j, b) <= s.len(),
        forall|n: int| j <= n <= closing(s, j, b) ==> #[trigger] depth(s, n) - depth(s, j) + b >= 1,
        closing(s, j, b) < s.len() ==> s[closing(s, j, b)] == CLOSE && depth(s, closing(s, j, b))
            - depth(s, j) + b == 1,
    decreases s.len() - j,
{
    if j < s.len() {
        assert(depth(s, j + 1) == depth(s, j) + weight(s[j]));
        if s[j] == OPEN {
            lemma_closing(s, j + 1, b + 1);
        } else if s[j] == CLOSE {
            if b > 1 {
                lemma_closing(s, j + 1, (b - 1) as nat);
            }
        } else {
            lemma_closing(s, j + 1, b);
        }
    }
}

proof fn lemma_depth_of_subrange(s: Seq<u8>, a: int, b: int, m: int)
    requires
        0 <= a <= b <= s.len(),
        0 <= m <= b - a,
    ensures
        depth(s.subrange(a, b), m) == depth(s, a + m) - depth(s, a),
    decreases m,
{
    if m > 0 {
        lemma_depth_of_subrange(s, a, b, m - 1);
        assert(s.subrange(a, b)[m - 1] == s[a + m - 1]);
    }
}

proof fn lemma_depth_over_run(s: Seq<u8>, i: int, c: u8)
    requires
        0 <= i <= s.len(),
        c != OPEN,
        c != CLOSE,
    ensures
        i + run_len(s, i, c) <= s.len(),
        forall|n: int| i <= n <= i + run_len(s, i, c) ==> #[trigger] depth(s, n) == depth(s, i),
    decreases s.len() - i,
{
    if i < s.len() && s[i] == c {
        assert(depth(s, i + 1) == depth(s, i) + weight(s[i]));
        lemma_depth_over_run(s, i + 1, c);
    }
}

proof fn lemma_same_level(s: Seq<u8>, i: int, t: int)
    requires
        0 <= i <= t <= s.len(),
        forall|n: int| i <= n <= t ==> #[trigger] depth(s, n) >= depth(s, i),
        depth(s, t) == depth(s, i),
    ensures
        no_stray_close(s, i) == no_stray_close(s, t),
{
    if no_stray_close(s, t) {
        assert forall|n: int| i <= n <= s.len() implies #[trigger] depth(s, n) >= depth(s, i) by {
            if n > t {
                assert(depth(s, n) >= depth(s, t));
            }
        }
    }
}

proof fn lemma_brackets_from(s: Seq<u8>, i: int)
    requires
        0 <= i <= s.len(),
    ensures
        no_stray_close(s, i) && depth(s, s.len() as int) == depth(s, i) ==> parse_from(s, i) is Ok,
        !no_stray_close(s, i) ==> parse_from(s, i) == Err::<Seq<crate::ops::Node>, ParseError>(
            ParseError::UnmatchedCloseBracket,
        ),
        no_stray_close(s, i) && depth(s, s.len() as int) > depth(s, i) ==> parse_from(s, i) == Err::<
            Seq<crate::ops::Node>,
            ParseError,
        >(ParseError::UnmatchedOpenBracket),
    decreases s.len(), s.len() - i,
{
    if i >= s.len() {
        assert(no_stray_close(s, i));
    } else if is_fold(s[i]) {
        let k = 1 + run_len(s, i + 1, s[i]);
        lemma_depth_over_run(s, i, s[i]);
        assert(run_len(s, i, s[i]) == k);
        lemma_same_level(s, i, i + k);
        lemma_brackets_from(s, i + k);
    } else if s[i] == OPEN {
        let j = closing(s, i + 1, 1);
        assert(depth(s, i + 1) == depth(s, i) + 1);
        lemma_closing(s, i + 1, 1);
        if j < s.len() {
            let body = s.subrange(i + 1, j);
            assert forall|m: int| 0 <= m <= body.len() implies #[trigger] depth(body, m) >= depth(
                body,
                0,
            ) by {
                lemma_depth_of_subrange(s, i + 1, j, m);
                assert(depth(s, i + 1 + m) - depth(s, i + 1) + 1 >= 1);
            }
            lemma_depth_of_subrange(s, i + 1, j, j - i - 1);
            lemma_brackets_from(body, 0);
            assert(parse_from(body, 0) is Ok);
            assert(depth(s, j + 1) == depth(s, j) + weight(s[j]));
            assert forall|n: int| i <= n <= j + 1 implies #[trigger] depth(s, n) >= depth(s, i) by {
                if i + 1 <= n <= j {
                    assert(depth(s, n) - depth(s, i + 1) + 1 >= 1);
                }
            }
            lemma_same_level(s, i, j + 1);
            lemma_brackets_from(s, j + 1);
        } else {
            assert forall|n: int| i <= n <= s.len() implies #[trigger] depth(s, n) >= depth(s, i) by {
                if i + 1 <= n {
                    assert(depth(s, n) - depth(s, i + 1) + 1 >= 1);
                }
            }
            assert(depth(s, s.len() as int) - depth(s, i + 1) + 1 >= 1);
        }
    } else if s[i] == CLOSE {
        assert(depth(s, i + 1) == depth(s, i) - 1);
    } else {
        assert(depth(s, i + 1) == depth(s, i) + weight(s[i]));
        assert forall|n: int| i <= n <= i + 1 implies #[trigger] depth(s, n) >= depth(s, i) by {}
        lemma_same_level(s, i, i + 1);
        lemma_brackets_from(s, i + 1);
    }
}

/// Balanced text always parses.
pub proof fn lemma_balanced_parses(s: Seq<u8>)
    requires
        balanced(s),
    ensures
        parsed(s) is Ok,
{
    lemma_brackets_from(s, 0);
}

/// Text with a `]` that closes nothing fails with `UnmatchedCloseBracket`.
pub proof fn lemma_stray_close_fails(s: Seq<u8>)
    requires
        !no_stray_close(s, 0),
    ensures
        parsed(s) == Err::<Seq<crate::ops::Node>, ParseError>(ParseError::UnmatchedCloseBracket),
{
    lemma_brackets_from(s, 0);
}

/// Text in which every `]` closes a `[`, but some `[` is never closed, fails
/// with `UnmatchedOpenBracket`.
pub proof fn lemma_unclosed_fails(s: Seq<u8>)
    requires
        no_stray_close(s, 0),
        depth(s, s.len() as int) > 0,
    ensures
        parsed(s) == Err::<Seq<crate::ops::Node>, ParseError>(ParseError::UnmatchedOpenBracket),
{
    lemma_brackets_from(s, 0);
}

} // verus!
