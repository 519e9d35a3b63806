//! The properties that hold across the scanner's operations, stated and
//! proved against the step relations of [`crate::scanner`].

use vstd::prelude::*;

use crate::scan::int_literal;
use crate::scan::int_literal_value;
use crate::scan::is_digit_char;
use crate::scan::is_space_char;
use crate::scan::lemma_match_start_bounds;
use crate::scan::lemma_match_start_skip;
use crate::scan::lemma_run_end_bounds;
use crate::scan::lemma_run_end_extend;
use crate::scan::lemma_space_char_disjoint;
use crate::scan::match_start;
use crate::scan::nonspace;
use crate::scan::run_end;
use crate::scan::trim_start_seq;
use crate::scanner::line_step;
use crate::scanner::newline;
use crate::scanner::number_consumed;
use crate::scanner::number_found;
use crate::scanner::number_pred;
use crate::scanner::number_token;
use crate::scanner::number_step;
use crate::scanner::token_step;
use crate::scanner::word_step;
use crate::scanner::Scanner;

verus! {

broadcast use Scanner::lemma_wf;

/// Monotonicity: a token extraction never moves the cursor backwards, nor
/// past the end of the input. Since every operation is such a step (or a
/// number step, or a line step, below), the offset is non-decreasing over
/// any sequence of operations and never exceeds the input's length.
pub proof fn lemma_token_monotonic<'a>(
    pre: Scanner<'a>,
    post: Scanner<'a>,
    r: Option<&'a str>,
    p: spec_fn(char, int) -> bool,
)
    requires
        pre.wf(),
        token_step(pre, post, r, p),
    ensures
        pre.offset() <= post.offset() <= pre.text().len(),
{
    let rem = pre.remaining_chars();
    lemma_match_start_bounds(rem, p, 0);
    lemma_run_end_bounds(rem, p, match_start(rem, p, 0));
}

/// Monotonicity for `next_number`, including the rolled-back failure.
pub proof fn lemma_number_monotonic<'a>(pre: Scanner<'a>, post: Scanner<'a>, r: Option<i64>)
    requires
        pre.wf(),
        number_step(pre, post, r),
    ensures
        pre.offset() <= post.offset() <= pre.text().len(),
{
    let rem = pre.remaining_chars();
    lemma_match_start_bounds(rem, number_pred(), 0);
    lemma_run_end_bounds(rem, number_pred(), match_start(
        rem,
        number_pred(),
        0,
    ));
}

/// Monotonicity for `next_line`.
pub proof fn lemma_line_monotonic<'a>(pre: Scanner<'a>, post: Scanner<'a>, r: Option<&'a str>)
    requires
        pre.wf(),
        line_step(pre, post, r),
    ensures
        pre.offset() <= post.offset() <= pre.text().len(),
{
    let rem = pre.remaining_chars();
    lemma_match_start_bounds(rem, newline(), 0);
}

/// Consumption invariant: after any operation, concatenating the consumed
/// prefix of the old remainder with the new remainder reproduces the old
/// remainder exactly.
pub proof fn lemma_consumed_prefix<'a>(pre: Scanner<'a>, post: Scanner<'a>)
    requires
        pre.wf(),
        post.wf(),
        pre.text() == post.text(),
        pre.offset() <= post.offset(),
    ensures
        pre.remaining_chars() == pre.remaining_chars().subrange(
            0,
            post.offset() - pre.offset(),
        ) + post.remaining_chars(),
{
    assert(pre.remaining_chars() =~= pre.remaining_chars().subrange(
        0,
        post.offset() - pre.offset(),
    ) + post.remaining_chars());
}

/// Idempotent failure: a failed token extraction leaves the scanner
/// unchanged, so repeating it under the same predicate fails again, still
/// without side effects. This covers `next_word`.
pub proof fn lemma_token_failure_idempotent<'a>(
    s0: Scanner<'a>,
    s1: Scanner<'a>,
    s2: Scanner<'a>,
    r1: Option<&'a str>,
    r2: Option<&'a str>,
    p: spec_fn(char, int) -> bool,
)
    requires
        token_step(s0, s1, r1, p),
        token_step(s1, s2, r2, p),
        r1 is None,
    ensures
        s1 == s0,
        r2 is None,
        s2 == s0,
{
}

/// Idempotent failure for `next_number`, including the case where a token
/// was scanned but rolled back because it does not parse.
pub proof fn lemma_number_failure_idempotent<'a>(
    s0: Scanner<'a>,
    s1: Scanner<'a>,
    s2: Scanner<'a>,
    r1: Option<i64>,
    r2: Option<i64>,
)
    requires
        number_step(s0, s1, r1),
        number_step(s1, s2, r2),
        r1 is None,
    ensures
        s1 == s0,
        r2 is None,
        s2 == s0,
{
}

/// Leading separator skipping for `next_word`: whitespace at the head of
/// the remainder never matches, so however long the whitespace prefix `k`
/// is, the scan starts at the first non-whitespace character, returns the
/// run of non-whitespace characters standing there, and consumes the
/// skipped whitespace together with the word.
pub proof fn lemma_word_skips_leading_spaces<'a>(
    pre: Scanner<'a>,
    post: Scanner<'a>,
    r: Option<&'a str>,
    k: int,
)
    requires
        pre.wf(),
        word_step(pre, post, r),
        0 <= k <= pre.remaining_chars().len(),
        forall|j: int| 0 <= j < k ==> is_space_char(#[trigger] pre.remaining_chars()[j]),
        k < pre.remaining_chars().len() ==> !is_space_char(pre.remaining_chars()[k]),
    ensures
        r is Some <==> k < pre.remaining_chars().len(),
        r matches Some(t) ==> {
            let rem = pre.remaining_chars();
            let e = run_end(rem, nonspace(), k);
            &&& t@ == rem.subrange(k, e)
            &&& post.offset() == pre.offset() + e
        },
{
    let rem = pre.remaining_chars();
    let ns = nonspace();
    assert(forall|j: int| 0 <= j < k ==> !ns(#[trigger] rem[j], j));
    lemma_match_start_skip(rem, ns, 0, k);
    if k < rem.len() {
        assert(ns(rem[k], k));
        assert(match_start(rem, ns, k) == k);
        let e = run_end(rem, ns, k);
        assert(run_end(rem, ns, k) == run_end(rem, ns, k + 1));
        lemma_run_end_bounds(rem, ns, k + 1);
        let pre_tok = rem.subrange(0, e);
        assert(forall|j: int| 0 <= j < k ==> !ns(#[trigger] pre_tok[j], j));
        lemma_match_start_skip(pre_tok, ns, 0, k);
        assert(ns(pre_tok[k], k));
        assert(match_start(pre_tok, ns, k) == k);
        assert(trim_start_seq(pre_tok) =~= rem.subrange(k, e));
    } else {
        assert(match_start(rem, ns, k) == rem.len());
    }
}

/// Leading separator skipping for `next_number`: whitespace before a
/// well-formed signed decimal literal is skipped, the literal's value is
/// returned, and the cursor consumes the whitespace together with the
/// literal — however long the whitespace prefix `k` is. `m` marks the end
/// of the literal within the remainder, and the character after it, if
/// any, must not be a digit (otherwise it would belong to the literal).
pub proof fn lemma_number_skips_leading_spaces<'a>(
    pre: Scanner<'a>,
    post: Scanner<'a>,
    r: Option<i64>,
    k: int,
    m: int,
)
    requires
        pre.wf(),
        number_step(pre, post, r),
        0 <= k < m <= pre.remaining_chars().len(),
        forall|j: int| 0 <= j < k ==> is_space_char(#[trigger] pre.remaining_chars()[j]),
        int_literal(pre.remaining_chars().subrange(k, m)),
        i64::MIN <= int_literal_value(pre.remaining_chars().subrange(k, m)) <= i64::MAX,
        m == pre.remaining_chars().len() || !is_digit_char(pre.remaining_chars()[m]),
    ensures
        r matches Some(v) && v == int_literal_value(pre.remaining_chars().subrange(k, m)),
        post.offset() == pre.offset() + m,
{
    let rem = pre.remaining_chars();
    let np = number_pred();
    let lit = rem.subrange(k, m);
    let signed = lit[0] == '-' || lit[0] == '+';
    assert(rem[k] == lit[0]);

    // the whitespace prefix never matches the number predicate
    assert(forall|j: int| 0 <= j < k ==> !np(#[trigger] rem[j], j)) by {
        assert forall|j: int| 0 <= j < k implies !np(rem[j], j) by {
            lemma_space_char_disjoint(rem[j]);
        }
    }
    lemma_match_start_skip(rem, np, 0, k);

    // where the matching run starts
    let s = if np(lit[0], k) {
        k
    } else {
        k + 1
    };
    if signed {
        assert(lit.len() >= 2);
        assert(lit.subrange(1, lit.len() as int)[0] == lit[1]);
        assert(is_digit_char(lit[1]));
        assert(rem[k + 1] == lit[1]);
    } else {
        assert(is_digit_char(lit[0]));
    }
    if np(lit[0], k) {
        assert(match_start(rem, np, k) == k);
    } else {
        // a sign that does not stand first, or a plus: skipped, the first
        // digit matches
        assert(match_start(rem, np, k) == match_start(rem, np, k + 1));
        assert(np(rem[k + 1], k + 1));
        assert(match_start(rem, np, k + 1) == k + 1);
    }
    assert(match_start(rem, np, 0) == s);
    assert(s < m);

    // the run of matching characters ends exactly at the literal's end
    assert(forall|j: int| s <= j < m ==> #[trigger] np(rem[j], j)) by {
        assert forall|j: int| s <= j < m implies np(rem[j], j) by {
            if j > k {
                assert(lit.subrange(1, lit.len() as int)[j - k - 1] == lit[j - k]);
            }
            assert(rem[j] == lit[j - k]);
        }
    }
    lemma_run_end_extend(rem, np, s, m);
    if m < rem.len() {
        assert(!np(rem[m], m));
        assert(run_end(rem, np, m) == m);
    } else {
        assert(run_end(rem, np, m) == m);
    }
    assert(number_consumed(rem) == m);

    // the scanned prefix trims to exactly the literal
    let pre_tok = rem.subrange(0, m);
    let ns = nonspace();
    assert(forall|j: int| 0 <= j < k ==> !ns(#[trigger] pre_tok[j], j));
    lemma_match_start_skip(pre_tok, ns, 0, k);
    assert(pre_tok[k] == lit[0]);
    lemma_space_char_disjoint(lit[0]);
    assert(ns(pre_tok[k], k));
    assert(match_start(pre_tok, ns, k) == k);
    assert(number_token(rem) == trim_start_seq(pre_tok));
    assert(trim_start_seq(pre_tok) =~= lit);
    assert(number_found(rem));
}

} // verus!
