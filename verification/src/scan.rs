//! Sequence-level description of scanning: character classes, the
//! first-matching-run search that token extraction performs, whitespace
//! trimming, and parsing of signed decimal literals.

use vstd::prelude::*;

verus! {

/// The Unicode `White_Space` characters, the set that `trim` and the
/// word separator recognise.
pub open spec fn is_space_char(c: char) -> bool {
    let u = c as u32;
    ||| u == 0x20
    ||| (0x09 <= u && u <= 0x0D)
    ||| u == 0x85
    ||| u == 0xA0
    ||| u == 0x1680
    ||| (0x2000 <= u && u <= 0x200A)
    ||| u == 0x2028
    ||| u == 0x2029
    ||| u == 0x202F
    ||| u == 0x205F
    ||| u == 0x3000
}

/// Runtime test for [`is_space_char`].
pub fn is_space(c: char) -> (b: bool)
    ensures
        b == is_space_char(c),
{
    let u = c as u32;
    u == 0x20 || (0x09 <= u && u <= 0x0D) || u == 0x85 || u == 0xA0 || u == 0x1680 || (0x2000 <= u
        && u <= 0x200A) || u == 0x2028 || u == 0x2029 || u == 0x202F || u == 0x205F || u == 0x3000
}

/// An ASCII decimal digit.
pub open spec fn is_digit_char(c: char) -> bool {
    0x30 <= (c as u32) && (c as u32) <= 0x39
}

/// Runtime test for [`is_digit_char`].
pub fn is_digit(c: char) -> (b: bool)
    ensures
        b == is_digit_char(c),
{
    let u = c as u32;
    0x30 <= u && u <= 0x39
}

/// The numeric value of an ASCII decimal digit.
pub open spec fn digit_val(c: char) -> int {
    (c as u32) - 0x30
}

/// The first index at or after `from` whose character satisfies `p`
/// (which also sees the index), or `r.len()` if there is none.
pub open spec fn match_start(r: Seq<char>, p: spec_fn(char, int) -> bool, from: int) -> int
    decreases r.len() - from,
{
    if from < 0 || from >= r.len() {
        r.len() as int
    } else if p(r[from], from) {
        from
    } else {
        match_start(r, p, from + 1)
    }
}

/// The end of the run of characters satisfying `p` that starts at `from`:
/// the first index at or after `from` whose character fails `p`, or
/// `r.len()` if the run reaches the end.
pub open spec fn run_end(r: Seq<char>, p: spec_fn(char, int) -> bool, from: int) -> int
    decreases r.len() - from,
{
    if from < 0 || from >= r.len() {
        r.len() as int
    } else if !p(r[from], from) {
        from
    } else {
        run_end(r, p, from + 1)
    }
}

pub proof fn lemma_match_start_bounds(r: Seq<char>, p: spec_fn(char, int) -> bool, from: int)
    requires
        0 <= from <= r.len(),
    ensures
        from <= match_start(r, p, from) <= r.len(),
    decreases r.len() - from,
{
    if from < r.len() && !p(r[from], from) {
        lemma_match_start_bounds(r, p, from + 1);
    }
}

pub proof fn lemma_run_end_bounds(r: Seq<char>, p: spec_fn(char, int) -> bool, from: int)
    requires
        0 <= from <= r.len(),
    ensures
        from <= run_end(r, p, from) <= r.len(),
    decreases r.len() - from,
{
    if from < r.len() && p(r[from], from) {
        lemma_run_end_bounds(r, p, from + 1);
    }
}

/// If nothing in `[from, to)` matches, the search may start at `to` instead.
pub proof fn lemma_match_start_skip(
    r: Seq<char>,
    p: spec_fn(char, int) -> bool,
    from: int,
    to: int,
)
    requires
        0 <= from <= to <= r.len(),
        forall|j: int| from <= j < to ==> !p(r[j], j),
    ensures
        match_start(r, p, from) == match_start(r, p, to),
    decreases to - from,
{
    if from < to {
        lemma_match_start_skip(r, p, from + 1, to);
    }
}

/// If everything in `[from, to)` matches, the run that starts at `from`
/// ends where the run starting at `to` ends.
pub proof fn lemma_run_end_extend(r: Seq<char>, p: spec_fn(char, int) -> bool, from: int, to: int)
    requires
        0 <= from <= to <= r.len(),
        forall|j: int| from <= j < to ==> p(r[j], j),
    ensures
        run_end(r, p, from) == run_end(r, p, to),
    decreases to - from,
{
    if from < to {
        lemma_run_end_extend(r, p, from + 1, to);
    }
}

/// The predicate that accepts every non-whitespace character.
pub open spec fn nonspace() -> spec_fn(char, int) -> bool {
    |c: char, i: int| !is_space_char(c)
}

/// The length of the maximal whitespace prefix of `s`.
pub open spec fn trim_start_len(s: Seq<char>) -> int {
    match_start(s, nonspace(), 0)
}

/// `s` without its maximal whitespace prefix.
pub open spec fn trim_start_seq(s: Seq<char>) -> Seq<char> {
    s.subrange(trim_start_len(s), s.len() as int)
}

/// The length of `s` once its maximal whitespace suffix is removed.
pub open spec fn trim_end_len(s: Seq<char>) -> int
    decreases s.len(),
{
    if s.len() == 0 {
        0
    } else if is_space_char(s.last()) {
        trim_end_len(s.drop_last())
    } else {
        s.len() as int
    }
}

/// `s` without its maximal whitespace suffix.
pub open spec fn trim_end_seq(s: Seq<char>) -> Seq<char> {
    s.subrange(0, trim_end_len(s))
}

/// Whitespace is disjoint from the characters a number token opens with.
pub proof fn lemma_space_char_disjoint(c: char)
    ensures
        is_space_char(c) ==> !is_digit_char(c) && c != '-' && c != '+',
{
}

/// Every character of `s` is an ASCII decimal digit.
pub open spec fn all_digits(s: Seq<char>) -> bool {
    forall|i: int| 0 <= i < s.len() ==> is_digit_char(s[i])
}

/// A well-formed signed decimal literal: an optional single leading `-` or
/// `+`, then at least one digit, and nothing else. This is the shape that
/// parsing a signed integer accepts.
pub open spec fn int_literal(s: Seq<char>) -> bool {
    if s.len() == 0 {
        false
    } else if s[0] == '-' || s[0] == '+' {
        s.len() >= 2 && all_digits(s.subrange(1, s.len() as int))
    } else {
        all_digits(s)
    }
}

/// The value of a run of decimal digits, most significant first.
pub open spec fn digits_value(s: Seq<char>) -> int
    decreases s.len(),
{
    if s.len() == 0 {
        0
    } else {
        10 * digits_value(s.drop_last()) + digit_val(s.last())
    }
}

/// The value of a well-formed signed decimal literal.
pub open spec fn int_literal_value(s: Seq<char>) -> int {
    if s.len() > 0 && s[0] == '-' {
        -digits_value(s.subrange(1, s.len() as int))
    } else if s.len() > 0 && s[0] == '+' {
        digits_value(s.subrange(1, s.len() as int))
    } else {
        digits_value(s)
    }
}

/// The value of a digit run is never negative.
pub proof fn lemma_digits_value_nonneg(s: Seq<char>)
    requires
        all_digits(s),
    ensures
        digits_value(s) >= 0,
    decreases s.len(),
{
    if s.len() > 0 {
        assert(all_digits(s.drop_last()));
        lemma_digits_value_nonneg(s.drop_last());
    }
}

/// Extending a digit run to the right never shrinks its value.
pub proof fn lemma_digits_value_prefix(s: Seq<char>, i: int)
    requires
        all_digits(s),
        0 <= i <= s.len(),
    ensures
        digits_value(s.subrange(0, i)) <= digits_value(s),
    decreases s.len() - i,
{
    if i < s.len() {
        let t = s.subrange(0, i + 1);
        assert(t.drop_last() =~= s.subrange(0, i));
        assert(all_digits(t));
        lemma_digits_value_nonneg(t.drop_last());
        lemma_digits_value_prefix(s, i + 1);
        assert(s.subrange(0, s.len() as int) =~= s);
    } else {
        assert(s.subrange(0, i) =~= s);
    }
}

/// Parses a whole string as a signed 64-bit decimal integer.
///
/// Succeeds exactly on well-formed literals (see [`int_literal`]) whose
/// value fits in an `i64`, and then returns that value.
pub fn parse_i64(s: &str) -> (r: Option<i64>)
    ensures
        r is Some <==> int_literal(s@) && i64::MIN <= int_literal_value(s@) <= i64::MAX,
        r matches Some(v) ==> v == int_literal_value(s@),
{
    let n = s.unicode_len();
    if n == 0 {
        return None;
    }
    let first = s.get_char(0);
    let neg = first == '-';
    let signed = neg || first == '+';
    let start: usize = if signed {
        1
    } else {
        0
    };
    if signed && n == 1 {
        return None;
    }
    let ghost digits = s@.subrange(start as int, n as int);

    // accumulate the negated value, so that i64::MIN is reachable
    let mut acc: i64 = 0;
    let mut i: usize = start;
    while i < n
        invariant
            start <= i <= n,
            1 <= n == s@.len(),
            start == 0 || start == 1,
            neg <==> s@[0] == '-',
            signed <==> (s@[0] == '-' || s@[0] == '+'),
            (start == 1) <==> signed,
            signed ==> n >= 2,
            digits == s@.subrange(start as int, n as int),
            forall|j: int| start <= j < i ==> is_digit_char(s@[j]),
            acc == -digits_value(s@.subrange(start as int, i as int)),
            i64::MIN <= acc <= 0,
        decreases n - i,
    {
        let c = s.get_char(i);
        if !is_digit(c) {
            proof {
                assert(!int_literal(s@)) by {
                    if int_literal(s@) {
                        if signed {
                            assert(s@.subrange(1, n as int)[i - 1] == s@[i as int]);
                        }
                        assert(is_digit_char(s@[i as int]));
                    }
                };
            }
            return None;
        }
        let d: i64 = ((c as u32) - 0x30) as i64;
        let ghost prefix = s@.subrange(start as int, i as int);
        let ghost extended = s@.subrange(start as int, i + 1);
        proof {
            assert(extended.drop_last() =~= prefix);
            assert(extended.last() == s@[i as int]);
            assert(digits_value(extended) == 10 * digits_value(prefix) + digit_val(s@[i as int]));
        }
        let acc10 = match acc.checked_mul(10) {
            Some(v) => v,
            None => {
                proof {
                    lemma_out_of_range(s@, start as int, i + 1);
                }
                return None;
            },
        };
        let next = match acc10.checked_sub(d) {
            Some(v) => v,
            None => {
                proof {
                    lemma_out_of_range(s@, start as int, i + 1);
                }
                return None;
            },
        };
        acc = next;
        i += 1;
    }
    proof {
        assert(s@.subrange(start as int, i as int) =~= digits);
        if signed {
            assert(s@.subrange(1, n as int) =~= digits);
        } else {
            assert(digits =~= s@);
        }
        assert(int_literal(s@));
    }
    if neg {
        proof {
            assert(int_literal_value(s@) == acc);
        }
        Some(acc)
    } else if acc == i64::MIN {
        // the magnitude is one more than i64::MAX
        proof {
            assert(int_literal_value(s@) == -(acc as int));
        }
        None
    } else {
        proof {
            assert(int_literal_value(s@) == -(acc as int));
        }
        Some(-acc)
    }
}

/// When a digit prefix already weighs more than `i64` can hold, the whole
/// literal's value lies outside `i64`'s range whenever it is well formed.
proof fn lemma_out_of_range(s: Seq<char>, start: int, upto: int)
    requires
        s.len() > 0,
        (start == 1) <==> (s[0] == '-' || s[0] == '+'),
        start == 0 || start == 1,
        start <= upto <= s.len(),
        forall|j: int| start <= j < upto ==> is_digit_char(s[j]),
        digits_value(s.subrange(start, upto)) > i64::MAX + 1,
    ensures
        int_literal(s) ==> !(i64::MIN <= int_literal_value(s) <= i64::MAX),
{
    if int_literal(s) {
        let digits = s.subrange(start, s.len() as int);
        if start == 1 {
            assert(digits =~= s.subrange(1, s.len() as int));
        } else {
            assert(digits =~= s);
        }
        assert(all_digits(digits));
        assert(digits.subrange(0, upto - start) =~= s.subrange(start, upto));
        lemma_digits_value_prefix(digits, upto - start);
        assert(digits_value(digits) > i64::MAX + 1);
        if s[0] == '-' {
            assert(int_literal_value(s) == -digits_value(digits));
        } else {
            assert(int_literal_value(s) == digits_value(digits));
        }
    }
}

} // verus!
