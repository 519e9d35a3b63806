//! The cursor-based tokenizer itself.

use vstd::prelude::*;

use crate::scan::int_literal;
use crate::scan::int_literal_value;
use crate::scan::is_digit_char;
use crate::scan::is_space;
use crate::scan::is_space_char;
use crate::scan::match_start;
use crate::scan::nonspace;
use crate::scan::run_end;
use crate::scan::trim_end_len;
use crate::scan::trim_end_seq;
use crate::scan::trim_start_seq;

verus! {

/// Decides which characters belong to the token being built.
///
/// `accepts` is the mathematical predicate; `matches_at` is its runtime
/// form. The predicate sees each candidate character together with its
/// zero-based position inside the yet-unconsumed remainder, so that a
/// predicate can special-case the very first character (as the number
/// predicate does for a leading sign).
pub trait TokenPredicate {
    /// Whether character `c`, at position `i` within the unconsumed
    /// remainder, belongs to the token.
    spec fn accepts(&self, c: char, i: int) -> bool;

    /// Runtime test agreeing with [`TokenPredicate::accepts`].
    fn matches_at(&self, c: char, i: usize) -> (b: bool)
        ensures
            b == self.accepts(c, i as int),
    ;
}

/// The spec-level predicate function of a predicate value.
pub open spec fn pred_fn<P: TokenPredicate>(p: &P) -> spec_fn(char, int) -> bool {
    |c: char, i: int| p.accepts(c, i)
}

/// Accepts every non-whitespace character: the shape of a word.
pub struct WordPredicate;

impl TokenPredicate for WordPredicate {
    open spec fn accepts(&self, c: char, i: int) -> bool {
        !is_space_char(c)
    }

    fn matches_at(&self, c: char, _i: usize) -> (b: bool) {
        !crate::scan::is_space(c)
    }
}

/// Everything one `next_word` call guarantees: a word is a token under the
/// predicate that accepts every non-whitespace character.
pub open spec fn word_step<'a>(pre: Scanner<'a>, post: Scanner<'a>, r: Option<&'a str>) -> bool {
    token_step(pre, post, r, nonspace())
}

/// Accepts ASCII decimal digits anywhere, and `-` as the very first
/// character of the unconsumed remainder: the shape of a number token.
pub struct NumberPredicate;

impl TokenPredicate for NumberPredicate {
    open spec fn accepts(&self, c: char, i: int) -> bool {
        is_digit_char(c) || (c == '-' && i == 0)
    }

    fn matches_at(&self, c: char, i: usize) -> (b: bool) {
        crate::scan::is_digit(c) || (c == '-' && i == 0)
    }
}

/// The number predicate as a spec function.
pub open spec fn number_pred() -> spec_fn(char, int) -> bool {
    |c: char, i: int| is_digit_char(c) || (c == '-' && i == 0)
}

/// The raw token that a number scan extracts from the remainder `rem`.
///
/// Because only leading whitespace is trimmed from the scanned prefix, the
/// token can contain characters the predicate rejected (for instance a
/// sign that did not stand first); such a token fails to parse and the
/// whole operation is rolled back.
pub open spec fn number_token(rem: Seq<char>) -> Seq<char> {
    let s = match_start(rem, number_pred(), 0);
    let e = run_end(rem, number_pred(), s);
    trim_start_seq(rem.subrange(0, e))
}

/// How far a successful number scan advances the cursor.
pub open spec fn number_consumed(rem: Seq<char>) -> int {
    let s = match_start(rem, number_pred(), 0);
    run_end(rem, number_pred(), s)
}

/// Whether `next_number` succeeds on the remainder `rem`: some character
/// matches the number predicate, and the extracted token is a well-formed
/// signed decimal literal whose value fits in an `i64`.
pub open spec fn number_found(rem: Seq<char>) -> bool {
    &&& match_start(rem, number_pred(), 0) < rem.len()
    &&& int_literal(number_token(rem))
    &&& i64::MIN <= int_literal_value(number_token(rem)) <= i64::MAX
}

/// Everything one `next_number` call guarantees: the scan of
/// [`number_token`] followed by the parse, with the cursor restored if the
/// token does not parse.
pub open spec fn number_step<'a>(pre: Scanner<'a>, post: Scanner<'a>, r: Option<i64>) -> bool {
    let rem = pre.remaining_chars();
    &&& post.wf()
    &&& post.same_source(pre)
    &&& post.text() == pre.text()
    &&& (r is Some <==> number_found(rem))
    &&& (r is None ==> post == pre)
    &&& (r matches Some(v) ==> {
        &&& v == int_literal_value(number_token(rem))
        &&& post.offset() == pre.offset() + number_consumed(rem)
    })
}

/// The predicate that accepts exactly the newline character.
pub open spec fn newline() -> spec_fn(char, int) -> bool {
    |c: char, i: int| c == '\n'
}

/// Everything one `next_line` call guarantees. Writing `rem` for the
/// unconsumed remainder before the call and `nl` for the position of the
/// first newline in it (or `rem.len()` if there is none):
/// - a line is returned exactly when `rem` is nonempty;
/// - on failure the scanner is left untouched;
/// - on success the returned line is `rem[..nl]` with its trailing
///   whitespace trimmed, while the cursor consumes the newline too: it
///   advances by `nl + 1`, or to the end of input when no newline exists.
pub open spec fn line_step<'a>(pre: Scanner<'a>, post: Scanner<'a>, r: Option<&'a str>) -> bool {
    let rem = pre.remaining_chars();
    let nl = match_start(rem, newline(), 0);
    &&& post.wf()
    &&& post.same_source(pre)
    &&& post.text() == pre.text()
    &&& (r is Some <==> rem.len() > 0)
    &&& (r is None ==> post == pre)
    &&& (r matches Some(t) ==> {
        &&& t@ == trim_end_seq(rem.subrange(0, nl))
        &&& post.offset() == pre.offset() + (if nl < rem.len() {
            nl + 1
        } else {
            nl
        })
    })
}

/// A `Scanner` is a simple utility for parsing strings, allowing access to
/// words, numbers, and lines from an input string.
///
/// The `Scanner` borrows its input for its whole lifetime and maintains a
/// single cursor, the offset of the first unconsumed character. Every
/// operation either advances the offset past what it returned or, when no
/// token was found, leaves the state exactly as it was.
pub struct Scanner<'a> {
    input: &'a str,
    position: usize,
    length: usize,
}

/// Everything one `next_token` call guarantees, as a relation between the
/// state before (`pre`), the state after (`post`), the returned token `r`,
/// and the predicate `p`.
///
/// Writing `rem` for the unconsumed remainder before the call, `s` for the
/// position of the first accepted character and `e` for the end of the run
/// of accepted characters starting there:
/// - a token is returned exactly when some character of `rem` is accepted;
/// - on failure the scanner is left untouched;
/// - on success the cursor advances by `e` — every scanned character,
///   including the skipped leading ones, is consumed — and the token is
///   `rem[..e]` with its leading whitespace (and nothing else) removed.
pub open spec fn token_step<'a>(
    pre: Scanner<'a>,
    post: Scanner<'a>,
    r: Option<&'a str>,
    p: spec_fn(char, int) -> bool,
) -> bool {
    let rem = pre.remaining_chars();
    let s = match_start(rem, p, 0);
    let e = run_end(rem, p, s);
    &&& post.wf()
    &&& post.same_source(pre)
    &&& post.text() == pre.text()
    &&& (r is Some <==> s < rem.len())
    &&& (r is None ==> post == pre)
    &&& (r matches Some(t) ==> {
        &&& post.offset() == pre.offset() + e
        &&& t@ == trim_start_seq(rem.subrange(0, e))
    })
}

impl<'a> Scanner<'a> {
    /// The input as a sequence of characters.
    pub closed spec fn text(self) -> Seq<char> {
        self.input@
    }

    /// The cursor: the number of characters already consumed.
    pub closed spec fn offset(self) -> int {
        self.position as int
    }

    /// The cursor lies within the input, and the cached character count is
    /// the input's true length.
    pub closed spec fn wf(self) -> bool {
        self.length == self.input@.len() && self.position <= self.length
    }

    /// A well-formed scanner's cursor lies within its input.
    pub broadcast proof fn lemma_wf(self)
        ensures
            #[trigger] self.wf() ==> 0 <= self.offset() <= self.text().len(),
    {
    }

    /// The unconsumed suffix of the input.
    pub open spec fn remaining_chars(self) -> Seq<char> {
        self.text().subrange(self.offset(), self.text().len() as int)
    }

    /// The two scanners are bound to the very same input object.
    pub closed spec fn same_source(self, other: Scanner<'a>) -> bool {
        self.input == other.input && self.length == other.length
    }

    /// Scanners over the same input object read the same text.
    pub broadcast proof fn lemma_same_source(self, other: Scanner<'a>)
        ensures
            #[trigger] self.same_source(other) ==> self.text() == other.text(),
    {
    }

    /// Creates a new `Scanner` for the given input string, with the cursor
    /// at its start.
    pub fn new(input: &'a str) -> (r: Scanner<'a>)
        ensures
            r.wf(),
            r.text() == input@,
            r.offset() == 0,
    {
        let length = input.unicode_len();
        Scanner { input, position: 0, length }
    }

    /// Scans for the next token in the input string based on a provided
    /// predicate.
    ///
    /// A token is a contiguous run of characters accepted by `predicate`.
    /// Characters before the first accepted one are scanned over as
    /// separators; once a character is accepted, the run extends until the
    /// first rejected character or the end of input. On success the cursor
    /// advances past everything scanned and the token is returned with its
    /// leading whitespace trimmed; if no character is accepted the scanner
    /// is left unchanged and `None` is returned. [`token_step`] states this
    /// precisely.
    pub fn next_token<P: TokenPredicate>(&mut self, predicate: &P) -> (r: Option<&'a str>)
        requires
            old(self).wf(),
        ensures
            token_step(*old(self), *final(self), r, pred_fn(predicate)),
    {
        let ghost rem = self.remaining_chars();
        let ghost p = pred_fn(predicate);
        let rem_len: usize = self.length - self.position;

        // find the first character the predicate accepts
        let mut i: usize = 0;
        let mut found: bool = false;
        while !found && i < rem_len
            invariant
                *self == *old(self),
                self.wf(),
                rem == self.remaining_chars(),
                p == pred_fn(predicate),
                rem_len == rem.len(),
                rem_len == self.length - self.position,
                i <= rem_len,
                match_start(rem, p, 0) == match_start(rem, p, i as int),
                found ==> i < rem_len && p(rem[i as int], i as int),
            decreases rem_len - i, (if found { 0int } else { 1int }),
        {
            let c = self.input.get_char(self.position + i);
            proof {
                assert(rem[i as int] == c);
            }
            if predicate.matches_at(c, i) {
                found = true;
            } else {
                proof {
                    assert(match_start(rem, p, i as int) == match_start(rem, p, i + 1));
                }
                i += 1;
            }
        }
        if !found {
            proof {
                assert(match_start(rem, p, rem_len as int) == rem.len() as int);
            }
            return None;
        }
        let start = i;

        // extend the run of accepted characters
        let mut e: usize = start + 1;
        let mut ended: bool = false;
        proof {
            assert(match_start(rem, p, start as int) == start);
            assert(run_end(rem, p, start as int) == run_end(rem, p, start + 1));
        }
        while !ended && e < rem_len
            invariant
                *self == *old(self),
                self.wf(),
                rem == self.remaining_chars(),
                p == pred_fn(predicate),
                rem_len == rem.len(),
                rem_len == self.length - self.position,
                start < e <= rem_len,
                run_end(rem, p, start as int) == run_end(rem, p, e as int),
                ended ==> e < rem_len && !p(rem[e as int], e as int),
            decreases rem_len - e, (if ended { 0int } else { 1int }),
        {
            let c = self.input.get_char(self.position + e);
            proof {
                assert(rem[e as int] == c);
            }
            if predicate.matches_at(c, e) {
                proof {
                    assert(run_end(rem, p, e as int) == run_end(rem, p, e + 1));
                }
                e += 1;
            } else {
                ended = true;
            }
        }
        proof {
            assert(run_end(rem, p, e as int) == e as int);
            assert(run_end(rem, p, start as int) == e as int);
        }

        // trim the leading whitespace off what was scanned
        let ghost pre_tok = rem.subrange(0, e as int);
        let mut w: usize = 0;
        while w < e && is_space(self.input.get_char(self.position + w))
            invariant
                *self == *old(self),
                self.wf(),
                rem == self.remaining_chars(),
                rem_len == rem.len(),
                rem_len == self.length - self.position,
                e <= rem_len,
                pre_tok == rem.subrange(0, e as int),
                w <= e,
                match_start(pre_tok, nonspace(), 0) == match_start(pre_tok, nonspace(), w as int),
            decreases e - w,
        {
            proof {
                assert(pre_tok[w as int] == rem[w as int]);
                assert(match_start(pre_tok, nonspace(), w as int) == match_start(
                    pre_tok,
                    nonspace(),
                    w + 1,
                ));
            }
            w += 1;
        }
        proof {
            assert(w < e ==> pre_tok[w as int] == rem[w as int]);
            assert(match_start(pre_tok, nonspace(), w as int) == w as int);
        }

        let inp: &'a str = self.input;
        let token = inp.substring_char(self.position + w, self.position + e);
        self.position = self.position + e;
        proof {
            assert(token@ =~= trim_start_seq(pre_tok));
        }
        Some(token)
    }

    /// Scans for the next number in the input string.
    ///
    /// Extracts the next token under the number predicate — ASCII digits,
    /// with `-` accepted only as the very first unconsumed character — and
    /// parses it as a signed 64-bit decimal integer. On a successful parse
    /// the cursor stays past the token; if the token does not parse (for
    /// instance a lone `-`), the cursor is restored to its position before
    /// the call and `None` is returned. [`number_step`] states this
    /// precisely.
    pub fn next_number(&mut self) -> (r: Option<i64>)
        requires
            old(self).wf(),
        ensures
            number_step(*old(self), *final(self), r),
    {
        let ghost saved = *old(self);
        let position = self.position;
        let token_opt = self.next_token(&NumberPredicate);
        proof {
            assert(pred_fn(&NumberPredicate) =~= number_pred());
        }
        match token_opt {
            None => None,
            Some(token) => {
                match crate::scan::parse_i64(token) {
                    Some(v) => Some(v),
                    None => {
                        self.position = position;
                        proof {
                            assert(*self == saved);
                        }
                        None
                    },
                }
            },
        }
    }

    /// Scans for the next word in the input string.
    ///
    /// A word is a contiguous run of non-whitespace characters. Leading
    /// whitespace is skipped and consumed; on success the cursor advances
    /// past the word, and on failure (only whitespace, or nothing, remains)
    /// the scanner is unchanged. [`word_step`] states this precisely.
    pub fn next_word(&mut self) -> (r: Option<&'a str>)
        requires
            old(self).wf(),
        ensures
            word_step(*old(self), *final(self), r),
    {
        let r = self.next_token(&WordPredicate);
        proof {
            assert(pred_fn(&WordPredicate) =~= nonspace());
        }
        r
    }

    /// Scans for the next line from the input string.
    ///
    /// A line is everything strictly before the next newline, or the whole
    /// remainder if no newline exists. The returned line has its trailing
    /// whitespace trimmed, but the trim does not change what is consumed:
    /// the cursor advances past the newline itself, or to the end of
    /// input. When nothing remains, `None` is returned and the scanner is
    /// unchanged. [`line_step`] states this precisely.
    pub fn next_line(&mut self) -> (r: Option<&'a str>)
        requires
            old(self).wf(),
        ensures
            line_step(*old(self), *final(self), r),
    {
        let ghost rem = self.remaining_chars();
        let rem_len: usize = self.length - self.position;
        if rem_len == 0 {
            return None;
        }
        // find the first newline
        let mut nl: usize = 0;
        let mut found: bool = false;
        while !found && nl < rem_len
            invariant
                *self == *old(self),
                self.wf(),
                rem == self.remaining_chars(),
                rem_len == rem.len(),
                rem_len == self.length - self.position,
                nl <= rem_len,
                match_start(rem, newline(), 0) == match_start(rem, newline(), nl as int),
                found ==> nl < rem_len && rem[nl as int] == '\n',
            decreases rem_len - nl, (if found { 0int } else { 1int }),
        {
            let c = self.input.get_char(self.position + nl);
            proof {
                assert(rem[nl as int] == c);
            }
            if c == '\n' {
                found = true;
            } else {
                proof {
                    assert(match_start(rem, newline(), nl as int) == match_start(
                        rem,
                        newline(),
                        nl + 1,
                    ));
                }
                nl += 1;
            }
        }
        proof {
            assert(match_start(rem, newline(), nl as int) == nl as int);
        }
        let ghost line_part = rem.subrange(0, nl as int);

        // trim the trailing whitespace off the returned line only
        let mut end = nl;
        proof {
            assert(line_part.subrange(0, end as int) =~= line_part);
        }
        while end > 0 && is_space(self.input.get_char(self.position + end - 1))
            invariant
                *self == *old(self),
                self.wf(),
                rem == self.remaining_chars(),
                rem_len == rem.len(),
                rem_len == self.length - self.position,
                nl <= rem_len,
                end <= nl,
                line_part == rem.subrange(0, nl as int),
                trim_end_len(line_part) == trim_end_len(line_part.subrange(0, end as int)),
            decreases end,
        {
            proof {
                let shorter = line_part.subrange(0, end as int);
                assert(shorter.last() == rem[end - 1]);
                assert(shorter.drop_last() =~= line_part.subrange(0, end - 1));
            }
            end -= 1;
        }
        proof {
            let shorter = line_part.subrange(0, end as int);
            if end > 0 {
                assert(shorter.last() == rem[end - 1]);
            }
            assert(trim_end_len(shorter) == end as int);
        }
        let inp: &'a str = self.input;
        let line = inp.substring_char(self.position, self.position + end);
        let consumed = if found {
            nl + 1
        } else {
            nl
        };
        self.position = self.position + consumed;
        proof {
            assert(line@ =~= trim_end_seq(line_part));
        }
        Some(line)
    }

    /// Returns the remaining unscanned input as a string slice.
    pub fn get_remaining(&self) -> (r: &'a str)
        requires
            self.wf(),
        ensures
            r@ == self.remaining_chars(),
    {
        let inp: &'a str = self.input;
        inp.substring_char(self.position, self.length)
    }
}

} // verus!
