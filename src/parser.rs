//! A cursor over text: the scanning primitive shared by both parsers.
use vstd::prelude::*;

verus! {

/// Unicode `White_Space`, the property behind `char::is_whitespace`.
pub open spec fn is_space(c: char) -> bool {
    ||| c == ' '
    ||| ('\t' <= c && c <= '\r')
    ||| c == '\u{85}'
    ||| c == '\u{a0}'
    ||| c == '\u{1680}'
    ||| ('\u{2000}' <= c && c <= '\u{200a}')
    ||| c == '\u{2028}'
    ||| c == '\u{2029}'
    ||| c == '\u{202f}'
    ||| c == '\u{205f}'
    ||| c == '\u{3000}'
}

pub open spec fn is_digit(c: char) -> bool {
    '0' <= c && c <= '9'
}

/// Whether every character of `s` in `[from, to)` satisfies `p`.
pub open spec fn all_in(s: Seq<char>, from: int, to: int, p: spec_fn(char) -> bool) -> bool {
    forall|i: int| from <= i < to ==> #[trigger] p(s[i])
}

/// Whether `[from, to)` is the longest run of `s` starting at `from` whose
/// characters satisfy `p`.
pub open spec fn longest_run(s: Seq<char>, from: int, to: int, p: spec_fn(char) -> bool) -> bool {
    &&& 0 <= from <= to <= s.len()
    &&& all_in(s, from, to, p)
    &&& (to == s.len() || !p(s[to]))
}

/// Value of a run of decimal digits.
pub open spec fn decimal(s: Seq<char>) -> nat
    decreases s.len(),
{
    if s.len() == 0 {
        0
    } else {
        decimal(s.drop_last()) * 10 + ((s.last() as u32) - ('0' as u32)) as nat
    }
}

/// Number of line feeds in `s`.
pub open spec fn line_count(s: Seq<char>) -> nat
    decreases s.len(),
{
    if s.len() == 0 {
        0
    } else {
        line_count(s.drop_last()) + if s.last() == '\n' { 1nat } else { 0nat }
    }
}

/// Number of characters after the last line feed of `s` (all of them if none).
pub open spec fn column_of(s: Seq<char>) -> nat
    decreases s.len(),
{
    if s.len() == 0 {
        0
    } else if s.last() == '\n' {
        0
    } else {
        column_of(s.drop_last()) + 1
    }
}

/// Bytes that UTF-8 takes for `c`.
pub open spec fn utf8_width(c: char) -> nat {
    if (c as u32) < 0x80 {
        1
    } else if (c as u32) < 0x800 {
        2
    } else if (c as u32) < 0x10000 {
        3
    } else {
        4
    }
}

/// Bytes that UTF-8 takes for all of `s`.
pub open spec fn utf8_size(s: Seq<char>) -> nat
    decreases s.len(),
{
    if s.len() == 0 {
        0
    } else {
        utf8_size(s.drop_last()) + utf8_width(s.last())
    }
}

/// End of the run of characters satisfying `p` that starts at `from`.
pub open spec fn run_end(s: Seq<char>, from: int, p: spec_fn(char) -> bool) -> int
    decreases s.len() - from,
{
    if 0 <= from < s.len() && p(s[from]) {
        run_end(s, from + 1, p)
    } else {
        from
    }
}

pub proof fn lemma_run_end_bounds(s: Seq<char>, from: int, p: spec_fn(char) -> bool)
    requires
        0 <= from <= s.len(),
    ensures
        from <= run_end(s, from, p) <= s.len(),
    decreases s.len() - from,
{
    if from < s.len() && p(s[from]) {
        lemma_run_end_bounds(s, from + 1, p);
    }
}

pub proof fn lemma_run_end(s: Seq<char>, from: int, to: int, p: spec_fn(char) -> bool)
    requires
        longest_run(s, from, to, p),
    ensures
        run_end(s, from, p) == to,
    decreases to - from,
{
    if from < to {
        lemma_run_end(s, from + 1, to, p);
    }
}

/// End of the run of whitespace that starts at `p`.
pub open spec fn space_end(s: Seq<char>, p: int) -> int {
    run_end(s, p, |c: char| is_space(c))
}

/// Whether `lit` stands in `s` at `at`.
pub open spec fn starts_at(s: Seq<char>, at: int, lit: Seq<char>) -> bool {
    0 <= at && at + lit.len() <= s.len() && s.subrange(at, at + lit.len()) == lit
}

/// A syntax error: where it was found, and the character there (`None` at
/// the end of the input).
#[derive(Debug, PartialEq, Eq, Clone, Copy)]
pub struct ParseError {
    pub pos: LinePos,
    pub found: Option<char>,
}

/// A place in the input, for diagnostics: byte offset, line and column (both from 0).
#[derive(Debug, PartialEq, Eq, Clone, Copy)]
pub struct LinePos {
    pub pos: usize,
    pub line: usize,
    pub column: usize,
}

/// Relies on std's `String::push`: appends one character.
#[verifier::external_body]
pub(crate) fn push_char(s: &mut String, c: char)
    ensures
        final(s)@ == old(s)@.push(c),
{
    s.push(c);
}

/// Relies on num's `Num::from_str_radix` for `u8` in base 10, which is std's
/// `u8::from_str_radix`: a nonempty run of decimal digits gives its value when
/// it fits, anything else an error.
#[verifier::external_body]
fn parse_u8(s: &str) -> (r: Option<u8>)
    requires
        all_in(s@, 0, s@.len() as int, |c: char| is_digit(c)),
    ensures
        r == (if s@.len() > 0 && decimal(s@) <= 255 {
            Some(decimal(s@) as u8)
        } else {
            None::<u8>
        }),
{
    <u8 as num::Num>::from_str_radix(s, 10).ok()
}

/// Relies on num's `Num::from_str_radix` for `u32` in base 10, which is std's
/// `u32::from_str_radix`: a nonempty run of decimal digits gives its value when
/// it fits, anything else an error.
#[verifier::external_body]
pub(crate) fn parse_u32(s: &str) -> (r: Option<u32>)
    requires
        all_in(s@, 0, s@.len() as int, |c: char| is_digit(c)),
    ensures
        r == (if s@.len() > 0 && decimal(s@) <= u32::MAX {
            Some(decimal(s@) as u32)
        } else {
            None::<u32>
        }),
{
    <u32 as num::Num>::from_str_radix(s, 10).ok()
}

/// Whether `c` is whitespace, as `char::is_whitespace` says.
pub fn is_whitespace(c: char) -> (r: bool)
    ensures
        r == is_space(c),
{
    c == ' ' || ('\t' <= c && c <= '\r') || c == '\u{85}' || c == '\u{a0}' || c == '\u{1680}'
        || ('\u{2000}' <= c && c <= '\u{200a}') || c == '\u{2028}' || c == '\u{2029}'
        || c == '\u{202f}' || c == '\u{205f}' || c == '\u{3000}'
}

/// Whether `c` is one of `0` to `9`.
pub fn is_ascii_digit(c: char) -> (r: bool)
    ensures
        r == is_digit(c),
{
    '0' <= c && c <= '9'
}

/// A cursor over a text: the whole input and the index of the next character.
pub struct Parser {
    pos: usize,
    input: Vec<char>,
}

impl Parser {
    /// The whole input.
    pub closed spec fn text(&self) -> Seq<char> {
        self.input@
    }

    /// Index of the next character in `text()`.
    pub closed spec fn at(&self) -> int {
        self.pos as int
    }

    /// The cursor stands within the text.
    pub closed spec fn wf(&self) -> bool {
        self.pos <= self.input.len()
    }

    /// The cursor stands within the text.
    pub proof fn lemma_bounds(&self)
        requires
            self.wf(),
        ensures
            0 <= self.at() <= self.text().len(),
    {
    }

    /// `starts_with` in terms of the whole text.
    pub proof fn lemma_starts(&self, lit: Seq<char>)
        requires
            self.wf(),
        ensures
            (lit.len() <= self.rest().len() && self.rest().take(lit.len() as int) == lit) == starts_at(
                self.text(),
                self.at(),
                lit,
            ),
    {
        if lit.len() <= self.rest().len() {
            assert(self.rest().take(lit.len() as int) =~= self.text().subrange(self.at(), self.at() + lit.len()));
        }
    }

    /// What is left to read.
    pub open spec fn rest(&self) -> Seq<char> {
        self.text().skip(self.at())
    }

    pub open spec fn at_end(&self) -> bool {
        self.at() >= self.text().len()
    }

    /// `self` reads the same text as `o`, at a place no earlier.
    pub open spec fn advanced_from(&self, o: &Parser) -> bool {
        &&& self.wf()
        &&& self.text() == o.text()
        &&& o.at() <= self.at()
    }

    /// A cursor at the start of `input`.
    pub fn new(input: String) -> (r: Parser)
        ensures
            r.wf(),
            r.text() == input@,
            r.at() == 0,
    {
        let mut chars: Vec<char> = Vec::new();
        for c in it: input.as_str().chars()
            invariant
                chars@ == it.seq().take(it.index() as int),
                it.seq() == input@,
        {
            chars.push(c);
        }
        Parser { pos: 0, input: chars }
    }

    /// The place of the cursor: its byte offset (saturated at `usize::MAX`),
    /// and the line and column it stands on, counted from 0.
    pub fn pos(&self) -> (r: LinePos)
        requires
            self.wf(),
        ensures
            r.pos as int == if utf8_size(self.text().take(self.at())) <= usize::MAX {
                utf8_size(self.text().take(self.at())) as int
            } else {
                usize::MAX as int
            },
            r.line == line_count(self.text().take(self.at())),
            r.column == column_of(self.text().take(self.at())),
    {
        let mut bytes: usize = 0;
        let mut line: usize = 0;
        let mut column: usize = 0;
        let mut i: usize = 0;
        while i < self.pos
            invariant
                self.wf(),
                i <= self.pos,
                line <= i,
                column <= i,
                bytes as int == if utf8_size(self.input@.take(i as int)) <= usize::MAX {
                    utf8_size(self.input@.take(i as int)) as int
                } else {
                    usize::MAX as int
                },
                line == line_count(self.input@.take(i as int)),
                column == column_of(self.input@.take(i as int)),
            decreases self.pos - i,
        {
            let c = self.input[i];
            proof {
                assert(self.input@.take(i + 1).drop_last() =~= self.input@.take(i as int));
            }
            let w: usize = if (c as u32) < 0x80 {
                1
            } else if (c as u32) < 0x800 {
                2
            } else if (c as u32) < 0x10000 {
                3
            } else {
                4
            };
            if bytes > usize::MAX - w {
                bytes = usize::MAX;
            } else {
                bytes = bytes + w;
            }
            if c == '\n' {
                line = line + 1;
                column = 0;
            } else {
                column = column + 1;
            }
            i = i + 1;
        }
        LinePos { pos: bytes, line, column }
    }

    /// An error at the cursor.
    pub fn error(&self) -> (r: ParseError)
        requires
            self.wf(),
        ensures
            r.found == if self.at_end() { None } else { Some(self.text()[self.at()]) },
            r.pos.line == line_count(self.text().take(self.at())),
            r.pos.column == column_of(self.text().take(self.at())),
    {
        let pos = self.pos();
        let found = if self.eof() { None } else { Some(self.next_char()) };
        ParseError { pos, found }
    }

    /// The next character, which must exist.
    pub fn next_char(&self) -> (r: char)
        requires
            self.wf(),
            !self.at_end(),
        ensures
            r == self.text()[self.at()],
    {
        self.input[self.pos]
    }

    /// Whether the input left to read starts with `s`.
    pub fn starts_with(&self, s: &str) -> (r: bool)
        requires
            self.wf(),
        ensures
            r == (s@.len() <= self.rest().len() && self.rest().take(s@.len() as int) == s@),
    {
        let n = s.unicode_len();
        if n > self.input.len() - self.pos {
            return false;
        }
        let mut i: usize = 0;
        while i < n
            invariant
                self.wf(),
                n == s@.len(),
                n <= self.input.len() - self.pos,
                i <= n,
                forall|j: int| 0 <= j < i ==> self.input@[self.pos + j] == s@[j],
            decreases n - i,
        {
            if self.input[self.pos + i] != s.get_char(i) {
                proof {
                    assert(self.rest().take(n as int)[i as int] != s@[i as int]);
                }
                return false;
            }
            i = i + 1;
        }
        proof {
            assert(self.rest().take(n as int) =~= s@);
        }
        true
    }

    /// Whether all the input has been read.
    pub fn eof(&self) -> (r: bool)
        ensures
            r == self.at_end(),
    {
        self.pos >= self.input.len()
    }

    /// Reads one character.
    pub fn consume_char(&mut self) -> (r: char)
        requires
            old(self).wf(),
            !old(self).at_end(),
        ensures
            final(self).wf(),
            final(self).text() == old(self).text(),
            final(self).at() == old(self).at() + 1,
            r == old(self).text()[old(self).at()],
    {
        let c = self.input[self.pos];
        self.pos = self.pos + 1;
        c
    }

    /// Reads characters as long as `test` holds of them, and returns them.
    pub fn consume_while<F: Fn(char) -> bool>(&mut self, test: F) -> (r: String)
        requires
            old(self).wf(),
            forall|c: char| test.requires((c,)),
        ensures
            final(self).advanced_from(old(self)),
            r@ == old(self).text().subrange(old(self).at(), final(self).at()),
            forall|i: int|
                old(self).at() <= i < final(self).at() ==> test.ensures((old(self).text()[i],), true),
            final(self).at_end() || test.ensures((final(self).text()[final(self).at()],), false),
    {
        let ghost start = self.pos as int;
        let mut result = String::new();
        while self.pos < self.input.len() && test(self.input[self.pos])
            invariant
                self.wf(),
                self.input@ == old(self).input@,
                start == old(self).pos,
                start <= self.pos,
                forall|c: char| test.requires((c,)),
                result@ == self.input@.subrange(start, self.pos as int),
                forall|i: int| start <= i < self.pos ==> test.ensures((self.input@[i],), true),
            decreases self.input.len() - self.pos,
        {
            let c = self.input[self.pos];
            push_char(&mut result, c);
            self.pos = self.pos + 1;
            proof {
                assert(result@ =~= self.input@.subrange(start, self.pos as int));
            }
        }
        result
    }

    /// Skips the longest run of whitespace ahead.
    pub fn consume_whitespace(&mut self)
        requires
            old(self).wf(),
        ensures
            final(self).advanced_from(old(self)),
            longest_run(old(self).text(), old(self).at(), final(self).at(), |c: char| is_space(c)),
            final(self).at() == run_end(old(self).text(), old(self).at(), |c: char| is_space(c)),
    {
        self.consume_while(is_whitespace);
        proof {
            lemma_run_end(self.text(), old(self).at(), self.at(), |c: char| is_space(c));
        }
    }

    /// Reads the literal `val`, which the input must start with.
    pub fn consume_string(&mut self, val: &str)
        requires
            old(self).wf(),
            val@.len() <= old(self).rest().len(),
            old(self).rest().take(val@.len() as int) == val@,
        ensures
            final(self).wf(),
            final(self).text() == old(self).text(),
            final(self).at() == old(self).at() + val@.len(),
    {
        let n = val.unicode_len();
        self.pos = self.pos + n;
    }

    /// Reads the run of decimal digits ahead and returns it.
    pub(crate) fn consume_digits(&mut self) -> (r: String)
        requires
            old(self).wf(),
        ensures
            final(self).advanced_from(old(self)),
            longest_run(old(self).text(), old(self).at(), final(self).at(), |c: char| is_digit(c)),
            r@ == old(self).text().subrange(old(self).at(), final(self).at()),
    {
        self.consume_while(is_ascii_digit)
    }

    /// Reads the run of decimal digits ahead as a `u32`: `None` where the run
    /// is empty or its value does not fit.
    pub fn consume_number(&mut self) -> (r: Option<u32>)
        requires
            old(self).wf(),
        ensures
            final(self).advanced_from(old(self)),
            longest_run(old(self).text(), old(self).at(), final(self).at(), |c: char| is_digit(c)),
            r == (if final(self).at() > old(self).at() && decimal(
                old(self).text().subrange(old(self).at(), final(self).at()),
            ) <= u32::MAX {
                Some(decimal(old(self).text().subrange(old(self).at(), final(self).at())) as u32)
            } else {
                None::<u32>
            }),
    {
        let digits = self.consume_digits();
        parse_u32(digits.as_str())
    }

    /// Reads the run of decimal digits ahead as a `u8`: `None` where the run
    /// is empty or its value does not fit.
    pub fn consume_byte(&mut self) -> (r: Option<u8>)
        requires
            old(self).wf(),
        ensures
            final(self).advanced_from(old(self)),
            longest_run(old(self).text(), old(self).at(), final(self).at(), |c: char| is_digit(c)),
            r == (if final(self).at() > old(self).at() && decimal(
                old(self).text().subrange(old(self).at(), final(self).at()),
            ) <= 255 {
                Some(decimal(old(self).text().subrange(old(self).at(), final(self).at())) as u8)
            } else {
                None::<u8>
            }),
    {
        let digits = self.consume_digits();
        parse_u8(digits.as_str())
    }
}

} // verus!
