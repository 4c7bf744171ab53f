//! A cursor over the characters of a source text, for the parsers.

use crate::error::{error_at, ParseError, ParseErrorKind};
use crate::text::{chars_of, is_white_space};
use vstd::prelude::*;

verus! {

/// The characters of a source text and the place of the next one to read.
#[derive(Debug)]
pub struct SourceHelper {
    pub pos: usize,
    pub input: Vec<char>,
}

/// The number of characters from `pos` on that all satisfy `keep`.
pub open spec fn run_length(input: Seq<char>, pos: int, keep: spec_fn(char) -> bool) -> int
    decreases input.len() - pos,
{
    if 0 <= pos < input.len() && keep(input[pos]) {
        1 + run_length(input, pos + 1, keep)
    } else {
        0
    }
}

/// A run ends within the text, holds only characters that satisfy `keep`,
/// and is followed by the end of the text or by a character that does not.
pub proof fn lemma_run_length(input: Seq<char>, pos: int, keep: spec_fn(char) -> bool)
    requires
        0 <= pos <= input.len(),
    ensures
        0 <= run_length(input, pos, keep) <= input.len() - pos,
        forall|i: int| pos <= i < pos + run_length(input, pos, keep) ==> keep(#[trigger] input[i]),
        pos + run_length(input, pos, keep) < input.len() ==> !keep(
            input[pos + run_length(input, pos, keep)],
        ),
    decreases input.len() - pos,
{
    if pos < input.len() && keep(input[pos]) {
        lemma_run_length(input, pos + 1, keep);
    }
}

/// A stretch of characters that all satisfy `keep`, and that the end of the
/// text or a character that does not satisfy it follows, is the run.
pub proof fn lemma_run_is(input: Seq<char>, pos: int, end: int, keep: spec_fn(char) -> bool)
    requires
        0 <= pos <= end <= input.len(),
        forall|i: int| pos <= i < end ==> keep(#[trigger] input[i]),
        end < input.len() ==> !keep(input[end]),
    ensures
        end == pos + run_length(input, pos, keep),
    decreases end - pos,
{
    if pos < end {
        lemma_run_is(input, pos + 1, end, keep);
    }
}

/// A stretch of characters that all satisfy `keep` lies within the run.
pub proof fn lemma_run_covers(input: Seq<char>, pos: int, end: int, keep: spec_fn(char) -> bool)
    requires
        0 <= pos <= end <= input.len(),
        forall|i: int| pos <= i < end ==> keep(#[trigger] input[i]),
    ensures
        end <= pos + run_length(input, pos, keep),
    decreases end - pos,
{
    if pos < end {
        assert(keep(input[pos]));
        lemma_run_covers(input, pos + 1, end, keep);
    } else {
        lemma_run_length(input, pos, keep);
    }
}

/// The place of the first character from `pos` on that is not white space.
pub open spec fn skip_white_space(input: Seq<char>, pos: int) -> int {
    pos + run_length(input, pos, |c: char| is_white_space(c))
}

/// The place after the character `c`, which must stand at `pos`.
pub open spec fn expect_char(input: Seq<char>, pos: int, c: char) -> Result<int, ParseError> {
    if !(0 <= pos < input.len()) {
        Err(error_at(pos, ParseErrorKind::UnexpectedEnd))
    } else if input[pos] != c {
        Err(error_at(pos, ParseErrorKind::UnexpectedCharacter))
    } else {
        Ok(pos + 1)
    }
}

/// The place after the character `c`, which must stand at the place that
/// `pos` gives; the error that `pos` gives, where it gives one.
pub open spec fn then_char(input: Seq<char>, pos: Result<int, ParseError>, c: char) -> Result<
    int,
    ParseError,
> {
    match pos {
        Ok(p) => expect_char(input, p, c),
        Err(e) => Err(e),
    }
}

/// `input` has the characters of `prefix` from `pos` on.
pub open spec fn has_prefix_at(input: Seq<char>, pos: int, prefix: Seq<char>) -> bool {
    &&& 0 <= pos
    &&& pos + prefix.len() <= input.len()
    &&& input.subrange(pos, pos + prefix.len()) == prefix
}

impl SourceHelper {
    /// The cursor lies within the text or at its end.
    pub open spec fn wf(&self) -> bool {
        self.pos <= self.input.len()
    }

    /// A cursor at the start of `source`.
    pub fn new(source: &str) -> (r: SourceHelper)
        ensures
            r.pos == 0,
            r.input@ == source@,
            r.wf(),
    {
        SourceHelper { pos: 0, input: chars_of(source) }
    }

    /// The next character. There is none at the end of the text.
    pub fn next_char(&self) -> (c: char)
        requires
            self.pos < self.input.len(),
        ensures
            c == self.input[self.pos as int],
    {
        self.input[self.pos]
    }

    /// Tells whether the text goes on with the characters of `s`.
    pub fn starts_with(&self, s: &str) -> (r: bool)
        ensures
            r == has_prefix_at(self.input@, self.pos as int, s@),
    {
        let wanted = chars_of(s);
        if self.pos > self.input.len() || wanted.len() > self.input.len() - self.pos {
            return false;
        }
        let mut i: usize = 0;
        while i < wanted.len()
            invariant
                i <= wanted.len(),
                wanted@ == s@,
                self.pos + wanted.len() <= self.input.len(),
                forall|j: int| 0 <= j < i ==> self.input[self.pos + j] == #[trigger] wanted[j],
            decreases wanted.len() - i,
        {
            if self.input[self.pos + i] != wanted[i] {
                proof {
                    let part = self.input@.subrange(self.pos as int, self.pos + s@.len());
                    assert(part[i as int] == self.input[self.pos + i]);
                }
                return false;
            }
            i = i + 1;
        }
        assert(self.input@.subrange(self.pos as int, self.pos + s@.len()) =~= s@);
        true
    }

    /// Tells whether the cursor is at the end of the text.
    pub fn eof(&self) -> (r: bool)
        ensures
            r == (self.pos >= self.input.len()),
    {
        self.pos >= self.input.len()
    }

    /// Reads the next character and moves past it.
    pub fn consume_char(&mut self) -> (c: char)
        requires
            old(self).pos < old(self).input.len(),
        ensures
            c == old(self).input[old(self).pos as int],
            final(self).pos == old(self).pos + 1,
            final(self).input == old(self).input,
    {
        let c = self.input[self.pos];
        self.pos = self.pos + 1;
        c
    }

    /// Reads characters as long as `test` accepts them, and returns them.
    /// The cursor stops at the first character that `test` refuses, or at
    /// the end of the text.
    pub fn consume_while<F>(&mut self, test: F) -> (r: String) where F: Fn(char) -> bool
        requires
            old(self).wf(),
            forall|c: char| #[trigger] test.requires((c,)),
        ensures
            final(self).input == old(self).input,
            old(self).pos <= final(self).pos <= old(self).input.len(),
            r@ == old(self).input@.subrange(old(self).pos as int, final(self).pos as int),
            forall|i: int|
                old(self).pos <= i < final(self).pos ==> test.ensures(
                    (#[trigger] old(self).input[i],),
                    true,
                ),
            final(self).pos < old(self).input.len() ==> test.ensures(
                (old(self).input[final(self).pos as int],),
                false,
            ),
    {
        let mut result = String::new();
        let ghost start = self.pos;
        loop
            invariant
                self.input == old(self).input,
                start == old(self).pos,
                start <= self.pos <= self.input.len(),
                result@ == self.input@.subrange(start as int, self.pos as int),
                forall|c: char| #[trigger] test.requires((c,)),
                forall|i: int|
                    start <= i < self.pos ==> test.ensures((#[trigger] self.input[i],), true),
            ensures
                self.input == old(self).input,
                start <= self.pos <= self.input.len(),
                result@ == self.input@.subrange(start as int, self.pos as int),
                forall|i: int|
                    start <= i < self.pos ==> test.ensures((#[trigger] self.input[i],), true),
                self.pos < self.input.len() ==> test.ensures((self.input[self.pos as int],), false),
            decreases self.input.len() - self.pos,
        {
            if self.eof() {
                break ;
            }
            let accepted = test(self.next_char());
            if !accepted {
                break ;
            }
            let c = self.consume_char();
            result.push(c);
            assert(result@ =~= self.input@.subrange(start as int, self.pos as int));
        }
        result
    }

    /// Moves past any white space.
    pub fn consume_whitespace(&mut self)
        requires
            old(self).wf(),
        ensures
            final(self).input == old(self).input,
            final(self).wf(),
            final(self).pos == skip_white_space(old(self).input@, old(self).pos as int),
    {
        let ghost start = self.pos;
        let ghost keep = |c: char| is_white_space(c);
        while !self.eof() && self.next_char().is_whitespace()
            invariant
                self.input == old(self).input,
                start == old(self).pos,
                start <= self.pos <= self.input.len(),
                keep == (|c: char| is_white_space(c)),
                run_length(self.input@, start as int, keep) == (self.pos - start) + run_length(
                    self.input@,
                    self.pos as int,
                    keep,
                ),
            decreases self.input.len() - self.pos,
        {
            self.consume_char();
        }
    }

    /// Reads the character `c`, which must come next.
    pub fn expect(&mut self, c: char) -> (r: Result<(), ParseError>)
        requires
            old(self).wf(),
        ensures
            final(self).input == old(self).input,
            final(self).wf(),
            match r {
                Ok(_) => expect_char(old(self).input@, old(self).pos as int, c) == Ok::<
                    int,
                    ParseError,
                >(final(self).pos as int),
                Err(e) => expect_char(old(self).input@, old(self).pos as int, c) == Err::<
                    int,
                    ParseError,
                >(e),
            },
    {
        if self.eof() {
            Err(ParseError { position: self.pos, kind: ParseErrorKind::UnexpectedEnd })
        } else if self.next_char() != c {
            Err(ParseError { position: self.pos, kind: ParseErrorKind::UnexpectedCharacter })
        } else {
            self.pos = self.pos + 1;
            Ok(())
        }
    }
}

} // verus!
