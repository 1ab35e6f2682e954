//! Reading source text byte by byte, keeping track of line and column.
use crate::lexical::{after_first, column_after, count_newlines, first_byte};
use vstd::prelude::*;

verus! {

/// `std::io::Error`, carried by `ScannerError` and never looked into.
#[verifier::external_type_specification]
#[verifier::external_body]
pub struct ExIoError(std::io::Error);

/// What can go wrong while the source text is read.
#[derive(Debug)]
pub enum ScannerError {
    Io(std::io::Error),
}

impl From<std::io::Error> for ScannerError {
    fn from(error: std::io::Error) -> (converted: Self) {
        Self::Io(error)
    }
}

impl vstd::std_specs::convert::FromSpecImpl<std::io::Error> for ScannerError {
    open spec fn obeys_from_spec() -> bool {
        true
    }

    open spec fn from_spec(error: std::io::Error) -> Self {
        ScannerError::Io(error)
    }
}

/// A source of bytes for the lexer, with one byte of look-ahead.
///
/// A scanner reads text that it already holds, so reading never fails.
pub trait TScanner: Sized {
    /// The bytes not consumed yet.
    spec fn remaining(&self) -> Seq<u8>;

    /// The line of the next byte, counted from 1.
    spec fn current_line(&self) -> int;

    /// The column of the next byte, counted from 1.
    spec fn current_column(&self) -> int;

    /// The scanner's own invariant.
    spec fn wf(&self) -> bool;

    /// The next byte, left unconsumed.
    fn peek_next(&self) -> (next: Option<u8>)
        requires
            self.wf(),
        ensures
            next == first_byte(self.remaining()),
    ;

    /// Consumes and returns the next byte; a line break moves to column 1 of
    /// the next line, any other byte one column on.
    fn get_next(&mut self) -> (next: Result<Option<u8>, ScannerError>)
        requires
            old(self).wf(),
        ensures
            final(self).wf(),
            next matches Ok(b) && b == first_byte(old(self).remaining()),
            final(self).remaining() == after_first(old(self).remaining()),
            first_byte(old(self).remaining()) == Some('\n' as u8) ==> {
                &&& final(self).current_line() == old(self).current_line() + 1
                &&& final(self).current_column() == 1
            },
            first_byte(old(self).remaining()) matches Some(b) && b != '\n' as u8 ==> {
                &&& final(self).current_line() == old(self).current_line()
                &&& final(self).current_column() == old(self).current_column() + 1
            },
            first_byte(old(self).remaining()) is None ==> {
                &&& final(self).current_line() == old(self).current_line()
                &&& final(self).current_column() == old(self).current_column()
            },
    ;

    fn get_line(&self) -> (line: usize)
        requires
            self.wf(),
        ensures
            line == self.current_line(),
    ;

    fn get_column(&self) -> (column: usize)
        requires
            self.wf(),
        ensures
            column == self.current_column(),
    ;
}

/// A scanner over source text held in memory.
pub struct Scanner {
    input: Vec<u8>,
    position: usize,
    line: usize,
    column: usize,
}

impl Scanner {
    /// The whole source text.
    pub closed spec fn input(&self) -> Seq<u8> {
        self.input@
    }

    /// The bytes consumed so far.
    pub closed spec fn consumed(&self) -> Seq<u8> {
        self.input@.take(self.position as int)
    }

    /// A scanner at the start of `input`, on line 1, column 1.
    pub fn new(input: Vec<u8>) -> (scanner: Self)
        requires
            input.len() < usize::MAX,
        ensures
            scanner.wf(),
            scanner.input() == input@,
            scanner.consumed() == Seq::<u8>::empty(),
            scanner.remaining() == input@,
            scanner.current_line() == 1,
            scanner.current_column() == 1,
    {
        let scanner = Self { input, position: 0, line: 1, column: 1 };
        assert(scanner.consumed() =~= Seq::<u8>::empty());
        assert(scanner.input@.skip(0) =~= scanner.input@);
        scanner
    }
}

impl TScanner for Scanner {
    closed spec fn remaining(&self) -> Seq<u8> {
        self.input@.skip(self.position as int)
    }

    closed spec fn current_line(&self) -> int {
        self.line as int
    }

    closed spec fn current_column(&self) -> int {
        self.column as int
    }

    closed spec fn wf(&self) -> bool {
        &&& self.position <= self.input.len()
        &&& self.input.len() < usize::MAX
        &&& self.line == 1 + count_newlines(self.consumed())
        &&& self.column == column_after(self.consumed())
    }

    fn peek_next(&self) -> (next: Option<u8>) {
        if self.position < self.input.len() {
            Some(self.input[self.position])
        } else {
            None
        }
    }

    /// Consumes the next byte; the source text stays the same.
    fn get_next(&mut self) -> (next: Result<Option<u8>, ScannerError>)
        ensures
            final(self).input() == old(self).input(),
    {
        let value = self.peek_next();
        if let Some(byte) = value {
            let ghost before = self.consumed();
            proof {
                lemma_line_column_bounds(before);
            }
            self.position += 1;
            assert(self.consumed().drop_last() =~= before);
            if byte == '\n' as u8 {
                self.line += 1;
                self.column = 1;
            } else {
                self.column += 1;
            }
            assert(self.input@.skip(self.position as int) =~= old(self).input@.skip(
                old(self).position as int,
            ).drop_first());
        }
        Ok(value)
    }

    fn get_line(&self) -> (line: usize) {
        self.line
    }

    fn get_column(&self) -> (column: usize) {
        self.column
    }
}

proof fn lemma_line_column_bounds(s: Seq<u8>)
    ensures
        count_newlines(s) <= s.len(),
        column_after(s) <= s.len() + 1,
    decreases s.len(),
{
    if s.len() > 0 {
        lemma_line_column_bounds(s.drop_last());
    }
}

/// Where a scanner stands: the bytes consumed followed by those remaining
/// make up the source text; the line is one more than the number of line
/// breaks consumed; the column is one more than the number of bytes consumed
/// since the last line break.
pub proof fn scanner_position_law(scanner: &Scanner)
    requires
        scanner.wf(),
    ensures
        scanner.consumed() + scanner.remaining() == scanner.input(),
        scanner.current_line() == 1 + count_newlines(scanner.consumed()),
        scanner.current_column() == column_after(scanner.consumed()),
{
    assert(scanner.consumed() + scanner.remaining() =~= scanner.input());
}

/// Reading gives back the source text byte by byte: a scanner that has read
/// one more byte of the same text has consumed what the other had consumed,
/// followed by that byte.
pub proof fn reading_law(before: &Scanner, after: &Scanner)
    requires
        before.wf(),
        after.wf(),
        after.input() == before.input(),
        after.remaining() == after_first(before.remaining()),
    ensures
        first_byte(before.remaining()) matches Some(b) ==> after.consumed() == before.consumed().push(
            b,
        ),
        first_byte(before.remaining()) is None ==> after.consumed() == before.consumed(),
{
    assert(before.consumed() + before.remaining() =~= before.input());
    assert(after.consumed() + after.remaining() =~= after.input());
    if before.remaining().len() > 0 {
        assert(after.consumed() =~= before.consumed().push(before.remaining()[0]));
    } else {
        assert(after.consumed() =~= before.consumed());
    }
}

} // verus!
