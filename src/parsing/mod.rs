//! A character-level parser with line and column tracking, the UTF-8 reader
//! that feeds it, and the board file format.
pub mod chars_reader;
pub mod sudoku;

use vstd::prelude::*;
use vstd::string::{StrSliceExecFns, StringExecFns};
use self::chars_reader::{CharReader, CharReaderError, decoded, read_spec};

verus! {

/// Why reading stopped.
#[derive(Debug, Clone)]
pub enum ParseError {
    NotUtf8,
    IoError(String),
    UnexpectedEof,
    UnexpectedChar(char),
    ExpectedEof,
}

/// What is left to read: the characters, whether a byte sequence that is not
/// UTF-8 follows them, and the position reached (0-based line and column).
pub struct Cursor {
    pub rest: Seq<char>,
    pub fault: bool,
    pub line: nat,
    pub column: nat,
}

/// The cursor after one character is read.
pub open spec fn advance(s: Cursor) -> Cursor {
    let c = s.rest[0];
    Cursor {
        rest: s.rest.drop_first(),
        fault: s.fault,
        line: if c == '\n' { s.line + 1 } else { s.line },
        column: if c == '\n' { 0 } else { s.column + 1 },
    }
}

/// The cursor after `k` characters are read.
pub open spec fn advance_n(s: Cursor, k: nat) -> Cursor
    decreases k,
{
    if k == 0 {
        s
    } else {
        advance(advance_n(s, (k - 1) as nat))
    }
}

/// Reading `k` characters drops them from what is left.
pub proof fn lemma_advance_n(s: Cursor, k: nat)
    requires
        k <= s.rest.len(),
    ensures
        advance_n(s, k).rest == s.rest.skip(k as int),
        advance_n(s, k).fault == s.fault,
    decreases k,
{
    if k > 0 {
        lemma_advance_n(s, (k - 1) as nat);
        assert(advance_n(s, k).rest =~= s.rest.skip(k as int));
    } else {
        assert(s.rest.skip(0) =~= s.rest);
    }
}

/// Reading `a` then `b` characters reads `a + b` of them.
pub proof fn lemma_advance_add(s: Cursor, a: nat, b: nat)
    ensures
        advance_n(advance_n(s, a), b) == advance_n(s, a + b),
    decreases b,
{
    if b > 0 {
        lemma_advance_add(s, a, (b - 1) as nat);
        assert(advance_n(s, a + b) == advance(advance_n(s, (a + b - 1) as nat)));
    }
}

/// The cursor once the trailing fault has been reported.
pub open spec fn fault_taken(s: Cursor) -> Cursor {
    Cursor { fault: false, ..s }
}

/// Space within a line: white space other than a line break.
pub open spec fn inline_space(c: char) -> bool {
    whitespace(c) && c != '\n' && c != '\r'
}

/// The Unicode White_Space characters.
pub open spec fn whitespace(c: char) -> bool {
    let u = c as u32;
    ||| 0x09 <= u <= 0x0D
    ||| u == 0x20
    ||| u == 0x85
    ||| u == 0xA0
    ||| u == 0x1680
    ||| 0x2000 <= u <= 0x200A
    ||| u == 0x2028
    ||| u == 0x2029
    ||| u == 0x202F
    ||| u == 0x205F
    ||| u == 0x3000
}

/// Relies on std's `char::is_whitespace`: whether `c` is Unicode white space.
#[verifier::external_body]
fn is_whitespace(c: char) -> (r: bool)
    ensures
        r == whitespace(c),
{
    c.is_whitespace()
}

/// Relies on std's `String::push`: appends one character.
#[verifier::external_body]
fn push_char(s: &mut String, c: char)
    ensures
        final(s)@ == old(s)@.push(c),
{
    s.push(c)
}

/// One of `0`..`9`.
pub open spec fn is_ascii_digit(c: char) -> bool {
    '0' <= c <= '9'
}

/// Space within a line.
pub fn is_inline_space(c: char) -> (b: bool)
    ensures
        b == inline_space(c),
{
    is_whitespace(c) && c != '\n' && c != '\r'
}

/// A decimal digit.
pub fn is_digit(c: &char) -> (b: bool)
    ensures
        b == is_ascii_digit(*c),
{
    '0' <= *c && *c <= '9'
}

/// The character of the decimal digit `d`.
pub open spec fn digit_char(d: nat) -> char {
    (d + 48) as char
}

/// The decimal digits of `n`.
pub open spec fn decimal(n: nat) -> Seq<char>
    decreases n,
{
    if n < 10 {
        seq![digit_char(n)]
    } else {
        decimal(n / 10).push(digit_char(n % 10))
    }
}

/// The length of the run of decimal digits that starts `s`.
pub open spec fn digit_run(s: Seq<char>) -> nat
    decreases s.len(),
{
    if s.len() == 0 || !is_ascii_digit(s[0]) {
        0
    } else {
        1 + digit_run(s.drop_first())
    }
}

proof fn lemma_digit_run(s: Seq<char>, k: nat)
    requires
        k <= s.len(),
        forall|q: int| 0 <= q < k ==> is_ascii_digit(#[trigger] s[q]),
        k < s.len() ==> !is_ascii_digit(s[k as int]),
    ensures
        digit_run(s) == k,
    decreases k,
{
    if k > 0 {
        assert forall|q: int| 0 <= q < k - 1 implies is_ascii_digit(#[trigger] s.drop_first()[q]) by {
            assert(s.drop_first()[q] == s[q + 1]);
        }
        if k < s.len() {
            assert(s.drop_first()[k - 1] == s[k as int]);
        }
        lemma_digit_run(s.drop_first(), (k - 1) as nat);
    }
}

/// The value of a string of decimal digits.
pub open spec fn decimal_value(s: Seq<char>) -> nat
    decreases s.len(),
{
    if s.len() == 0 {
        0
    } else {
        decimal_value(s.drop_last()) * 10 + (s.last() as nat - 48) as nat
    }
}

/// `n` in decimal.
pub fn decimal_string(n: usize) -> (r: String)
    ensures
        r@ == decimal(n as nat),
    decreases n,
{
    let d = (n % 10) as u8;
    let c = (d + 48) as char;
    if n < 10 {
        let mut s = String::new();
        push_char(&mut s, c);
        proof {
            assert(s@ =~= decimal(n as nat));
        }
        s
    } else {
        let mut s = decimal_string(n / 10);
        push_char(&mut s, c);
        s
    }
}

/// A parser over a sequence of characters.
pub struct Parser {
    input: Vec<char>,
    pos: usize,
    fault: bool,
    line: usize,
    column: usize,
}

impl View for Parser {
    type V = Cursor;

    closed spec fn view(&self) -> Cursor {
        Cursor {
            rest: self.input@.subrange(self.pos as int, self.input@.len() as int),
            fault: self.fault,
            line: self.line as nat,
            column: self.column as nat,
        }
    }
}

impl Parser {
    /// The position lies within the input; line and column do not pass it.
    pub closed spec fn wf(&self) -> bool {
        &&& self.pos <= self.input@.len()
        &&& self.line <= self.pos
        &&& self.column <= self.pos
    }

    /// A parser at line 0, column 0 of `from`.
    pub fn new(from: Vec<char>) -> (r: Parser)
        ensures
            r.wf(),
            r@ == (Cursor { rest: from@, fault: false, line: 0, column: 0 }),
    {
        let p = Parser { input: from, pos: 0, fault: false, line: 0, column: 0 };
        proof {
            assert(p@.rest =~= p.input@);
        }
        p
    }

    /// A parser over what `reader` decodes: its characters up to the first
    /// byte sequence that is not UTF-8, which is then reported once.
    pub fn from_reader(reader: CharReader) -> (r: Parser)
        requires
            reader.wf(),
        ensures
            r.wf(),
            r@.rest == decoded(reader.rest()).0,
            r@.fault == decoded(reader.rest()).1,
            r@.line == 0,
            r@.column == 0,
    {
        let ghost all = decoded(reader.rest());
        let mut source = reader;
        let mut input: Vec<char> = Vec::new();
        loop
            invariant
                source.wf(),
                all == decoded(reader.rest()),
                input@ + decoded(source.rest()).0 == all.0,
                decoded(source.rest()).1 == all.1,
            decreases source.remaining(),
        {
            let ghost before = source.rest();
            match source.next() {
                Some(Ok(c)) => {
                    proof {
                        assert(read_spec(before).0 == Ok::<char, CharReaderError>(c));
                        assert(decoded(before).0 == seq![c] + decoded(source.rest()).0);
                        assert(input@.push(c) + decoded(source.rest()).0 =~= input@ + decoded(before).0);
                    }
                    input.push(c);
                },
                Some(Err(CharReaderError::NotUtf8)) => {
                    let p = Parser { input, pos: 0, fault: true, line: 0, column: 0 };
                    proof {
                        assert(decoded(before).0 == Seq::<char>::empty());
                        assert(input@ =~= all.0);
                        assert(p@.rest =~= input@);
                    }
                    return p;
                },
                None => {
                    let p = Parser { input, pos: 0, fault: false, line: 0, column: 0 };
                    proof {
                        assert(decoded(before).0 =~= Seq::<char>::empty());
                        assert(input@ =~= all.0);
                        assert(p@.rest =~= input@);
                    }
                    return p;
                },
            }
        }
    }

    /// `message`, followed by the position reached.
    pub fn err(&self, message: String) -> (r: String)
        ensures
            r@ == message@ + "\nAt "@ + decimal(self@.line) + ":"@ + decimal(self@.column) + "."@,
    {
        let mut r = message;
        r.append("\nAt ");
        r.append(decimal_string(self.line).as_str());
        r.append(":");
        r.append(decimal_string(self.column).as_str());
        r.append(".");
        r
    }

    /// The line reached, from 0.
    pub fn line(&self) -> (r: usize)
        ensures
            r == self@.line,
    {
        self.line
    }

    /// The column reached, from 0.
    pub fn column(&self) -> (r: usize)
        ensures
            r == self@.column,
    {
        self.column
    }

    /// A message for each kind of error; those about the input's content say
    /// where it stopped.
    pub fn default_err_msg(&self, err: ParseError) -> (r: String)
        ensures
            err is NotUtf8 ==> r@ == "Found non-UTF-8 character."@ + "\nAt "@ + decimal(self@.line) + ":"@ + decimal(self@.column) + "."@,
            err matches ParseError::IoError(e) ==> r@ == "Failed to read input, with error "@ + e@ + "."@,
            err is UnexpectedEof ==> r@ == "Unexpected end of file."@,
            err matches ParseError::UnexpectedChar(c) ==> r@ == "Found unexpected character '"@.push(c) + "'"@ + "\nAt "@ + decimal(self@.line) + ":"@ + decimal(self@.column) + "."@,
            err is ExpectedEof ==> r@ == "Found trailing content, when expecting end of file."@,
    {
        match err {
            ParseError::NotUtf8 => self.err(String::from_str("Found non-UTF-8 character.")),
            ParseError::IoError(e) => {
                let mut m = String::from_str("Failed to read input, with error ");
                m.append(e.as_str());
                m.append(".");
                m
            },
            ParseError::UnexpectedEof => String::from_str("Unexpected end of file."),
            ParseError::UnexpectedChar(c) => {
                let mut m = String::from_str("Found unexpected character '");
                push_char(&mut m, c);
                m.append("'");
                self.err(m)
            },
            ParseError::ExpectedEof => String::from_str("Found trailing content, when expecting end of file."),
        }
    }

    /// The next character, without reading it. A trailing fault is reported
    /// (once) as `NotUtf8`.
    fn peek(&mut self) -> (r: Result<Option<char>, ParseError>)
        requires
            old(self).wf(),
        ensures
            final(self).wf(),
            old(self)@.rest.len() > 0 ==> r == Ok::<Option<char>, ParseError>(Some(old(self)@.rest[0])) && final(self)@ == old(self)@,
            old(self)@.rest.len() == 0 && old(self)@.fault ==> r == Err::<Option<char>, ParseError>(ParseError::NotUtf8) && final(self)@ == fault_taken(old(self)@),
            old(self)@.rest.len() == 0 && !old(self)@.fault ==> r == Ok::<Option<char>, ParseError>(None) && final(self)@ == old(self)@,
    {
        if self.pos < self.input.len() {
            Ok(Some(self.input[self.pos]))
        } else if self.fault {
            self.fault = false;
            Err(ParseError::NotUtf8)
        } else {
            Ok(None)
        }
    }

    /// Reads one character, keeping track of lines and columns.
    pub fn next(&mut self) -> (r: Result<char, ParseError>)
        requires
            old(self).wf(),
        ensures
            final(self).wf(),
            old(self)@.rest.len() > 0 ==> r == Ok::<char, ParseError>(old(self)@.rest[0]) && final(self)@ == advance(old(self)@),
            old(self)@.rest.len() == 0 && old(self)@.fault ==> r == Err::<char, ParseError>(ParseError::NotUtf8) && final(self)@ == fault_taken(old(self)@),
            old(self)@.rest.len() == 0 && !old(self)@.fault ==> r == Err::<char, ParseError>(ParseError::UnexpectedEof) && final(self)@ == old(self)@,
    {
        if self.pos < self.input.len() {
            let c = self.input[self.pos];
            let ghost before = self@;
            self.pos = self.pos + 1;
            if c == '\n' {
                self.line = self.line + 1;
                self.column = 0;
            } else {
                self.column = self.column + 1;
            }
            proof {
                assert(self@.rest =~= before.rest.drop_first());
            }
            Ok(c)
        } else if self.fault {
            self.fault = false;
            Err(ParseError::NotUtf8)
        } else {
            Err(ParseError::UnexpectedEof)
        }
    }

    /// Reads one character, which must be `to_match`; on a mismatch the
    /// error names the character that was expected.
    pub fn expect(&mut self, to_match: char) -> (r: Result<(), ParseError>)
        requires
            old(self).wf(),
        ensures
            final(self).wf(),
            old(self)@.rest.len() > 0 ==> final(self)@ == advance(old(self)@) && (r is Ok <==> old(self)@.rest[0] == to_match),
            old(self)@.rest.len() > 0 && old(self)@.rest[0] != to_match ==> r == Err::<(), ParseError>(ParseError::UnexpectedChar(to_match)),
            old(self)@.rest.len() == 0 && old(self)@.fault ==> r == Err::<(), ParseError>(ParseError::NotUtf8) && final(self)@ == fault_taken(old(self)@),
            old(self)@.rest.len() == 0 && !old(self)@.fault ==> r == Err::<(), ParseError>(ParseError::UnexpectedEof) && final(self)@ == old(self)@,
    {
        let next = self.next()?;
        if next != to_match {
            Err(ParseError::UnexpectedChar(to_match))
        } else {
            Ok(())
        }
    }

    /// Reads the characters of `to_match`, one by one, stopping at the first
    /// that differs.
    pub fn expect_str(&mut self, to_match: &str) -> (r: Result<(), ParseError>)
        requires
            old(self).wf(),
        ensures
            final(self).wf(),
            r is Ok <==> old(self)@.rest.len() >= to_match@.len() && old(self)@.rest.take(to_match@.len() as int) == to_match@,
            r is Ok ==> final(self)@ == advance_n(old(self)@, to_match@.len()),
    {
        let n = to_match.unicode_len();
        let ghost start = self@;
        let mut i: usize = 0;
        while i < n
            invariant
                self.wf(),
                start == old(self)@,
                n == to_match@.len(),
                i <= n,
                start.rest.len() >= i,
                start.rest.take(i as int) == to_match@.take(i as int),
                self@ == advance_n(start, i as nat),
                self@.rest == start.rest.skip(i as int),
            decreases n - i,
        {
            let c = to_match.get_char(i);
            let ghost before = self@;
            match self.expect(c) {
                Ok(()) => {},
                Err(e) => {
                    proof {
                        if start.rest.len() >= n && start.rest.take(n as int) == to_match@ {
                            assert(start.rest.take(n as int)[i as int] == start.rest[i as int]);
                            assert(before.rest[0] == start.rest[i as int]);
                        }
                    }
                    return Err(e);
                },
            }
            proof {
                assert(self@.rest =~= start.rest.skip(i + 1));
                assert(start.rest.take(i + 1) =~= to_match@.take(i + 1)) by {
                    assert(start.rest.take(i + 1) =~= start.rest.take(i as int).push(start.rest[i as int]));
                    assert(to_match@.take(i + 1) =~= to_match@.take(i as int).push(to_match@[i as int]));
                }
            }
            i += 1;
        }
        proof {
            assert(to_match@.take(n as int) =~= to_match@);
        }
        Ok(())
    }

    /// Succeeds at the end of the input.
    pub fn expect_eof(&mut self) -> (r: Result<(), ParseError>)
        requires
            old(self).wf(),
        ensures
            final(self).wf(),
            r is Ok <==> old(self)@.rest.len() == 0 && !old(self)@.fault,
            r is Err ==> r == Err::<(), ParseError>(ParseError::ExpectedEof),
            old(self)@.rest.len() == 0 && old(self)@.fault ==> final(self)@ == fault_taken(old(self)@),
            !(old(self)@.rest.len() == 0 && old(self)@.fault) ==> final(self)@ == old(self)@,
    {
        match self.peek() {
            Ok(None) => Ok(()),
            _ => Err(ParseError::ExpectedEof),
        }
    }

    /// Reads one character, which `predicate` must accept.
    pub fn expect_predicate<K>(&mut self, predicate: K) -> (r: Result<char, ParseError>)
        where
            K: Fn(char) -> bool,
        requires
            old(self).wf(),
            forall|c: char| predicate.requires((c,)),
        ensures
            final(self).wf(),
            old(self)@.rest.len() > 0 ==> final(self)@ == advance(old(self)@),
            r matches Ok(c) ==> old(self)@.rest.len() > 0 && c == old(self)@.rest[0] && predicate.ensures((c,), true),
            old(self)@.rest.len() > 0 && r is Err ==> r == Err::<char, ParseError>(ParseError::UnexpectedChar(old(self)@.rest[0])) && predicate.ensures((old(self)@.rest[0],), false),
            old(self)@.rest.len() == 0 && old(self)@.fault ==> r == Err::<char, ParseError>(ParseError::NotUtf8) && final(self)@ == fault_taken(old(self)@),
            old(self)@.rest.len() == 0 && !old(self)@.fault ==> r == Err::<char, ParseError>(ParseError::UnexpectedEof) && final(self)@ == old(self)@,
    {
        let next = self.next()?;
        if !predicate(next) {
            Err(ParseError::UnexpectedChar(next))
        } else {
            Ok(next)
        }
    }

    /// If the next character is `to_match`, reads it.
    pub fn try_match(&mut self, to_match: char) -> (r: Result<bool, ParseError>)
        requires
            old(self).wf(),
        ensures
            final(self).wf(),
            old(self)@.rest.len() > 0 && old(self)@.rest[0] == to_match ==> r == Ok::<bool, ParseError>(true) && final(self)@ == advance(old(self)@),
            old(self)@.rest.len() > 0 && old(self)@.rest[0] != to_match ==> r == Ok::<bool, ParseError>(false) && final(self)@ == old(self)@,
            old(self)@.rest.len() == 0 && old(self)@.fault ==> r == Err::<bool, ParseError>(ParseError::NotUtf8) && final(self)@ == fault_taken(old(self)@),
            old(self)@.rest.len() == 0 && !old(self)@.fault ==> r == Ok::<bool, ParseError>(false) && final(self)@ == old(self)@,
    {
        match self.peek()? {
            Some(c) => {
                if c == to_match {
                    let _ = self.next();
                    Ok(true)
                } else {
                    Ok(false)
                }
            },
            None => Ok(false),
        }
    }

    /// Reads the characters of `to_match` while they come; `true` when all of
    /// them came. What matched stays read.
    pub fn try_match_str(&mut self, to_match: &str) -> (r: Result<bool, ParseError>)
        requires
            old(self).wf(),
        ensures
            final(self).wf(),
            old(self)@.rest.len() >= to_match@.len() && old(self)@.rest.take(to_match@.len() as int) == to_match@
                ==> r == Ok::<bool, ParseError>(true) && final(self)@ == advance_n(old(self)@, to_match@.len()),
            r == Ok::<bool, ParseError>(true) ==> old(self)@.rest.len() >= to_match@.len() && old(self)@.rest.take(to_match@.len() as int) == to_match@,
            r == Ok::<bool, ParseError>(false) ==> exists|k: nat| {
                &&& k < to_match@.len()
                &&& k <= old(self)@.rest.len()
                &&& old(self)@.rest.take(k as int) == to_match@.take(k as int)
                &&& (k < old(self)@.rest.len() ==> old(self)@.rest[k as int] != to_match@[k as int])
                &&& (k == old(self)@.rest.len() ==> !old(self)@.fault)
                &&& final(self)@ == advance_n(old(self)@, k)
            },
            r is Err ==> {
                &&& r == Err::<bool, ParseError>(ParseError::NotUtf8)
                &&& old(self)@.fault
                &&& old(self)@.rest.len() < to_match@.len()
                &&& old(self)@.rest == to_match@.take(old(self)@.rest.len() as int)
                &&& final(self)@ == fault_taken(advance_n(old(self)@, old(self)@.rest.len()))
            },
    {
        let n = to_match.unicode_len();
        let ghost start = self@;
        let mut i: usize = 0;
        while i < n
            invariant
                self.wf(),
                start == old(self)@,
                n == to_match@.len(),
                i <= n,
                start.rest.len() >= i,
                start.rest.take(i as int) == to_match@.take(i as int),
                self@ == advance_n(start, i as nat),
                self@.rest == start.rest.skip(i as int),
                self@.fault == start.fault,
            decreases n - i,
        {
            let c = to_match.get_char(i);
            let ghost before = self@;
            let matched = match self.try_match(c) {
                Ok(m) => m,
                Err(e) => {
                    proof {
                        assert(start.rest.len() == i);
                        assert(start.rest =~= start.rest.take(i as int));
                    }
                    return Err(e);
                },
            };
            if !matched {
                proof {
                    if start.rest.len() >= n && start.rest.take(n as int) == to_match@ {
                        assert(start.rest.take(n as int)[i as int] == start.rest[i as int]);
                        assert(before.rest[0] == start.rest[i as int]);
                    }
                    if i < start.rest.len() {
                        assert(before.rest[0] == start.rest[i as int]);
                    }
                    let k = i as nat;
                    assert(k < to_match@.len() && k <= start.rest.len() && start.rest.take(k as int) == to_match@.take(k as int)
                        && (k < start.rest.len() ==> start.rest[k as int] != to_match@[k as int])
                        && (k == start.rest.len() ==> !start.fault) && self@ == advance_n(start, k));
                }
                return Ok(false);
            }
            proof {
                assert(self@.rest =~= start.rest.skip(i + 1));
                assert(start.rest.take(i + 1) =~= to_match@.take(i + 1)) by {
                    assert(start.rest.take(i + 1) =~= start.rest.take(i as int).push(start.rest[i as int]));
                    assert(to_match@.take(i + 1) =~= to_match@.take(i as int).push(to_match@[i as int]));
                }
            }
            i += 1;
        }
        proof {
            assert(to_match@.take(n as int) =~= to_match@);
        }
        Ok(true)
    }

    /// Whether the input has ended.
    pub fn try_match_eof(&mut self) -> (r: Result<bool, ParseError>)
        requires
            old(self).wf(),
        ensures
            final(self).wf(),
            old(self)@.rest.len() > 0 ==> r == Ok::<bool, ParseError>(false) && final(self)@ == old(self)@,
            old(self)@.rest.len() == 0 && old(self)@.fault ==> r == Err::<bool, ParseError>(ParseError::NotUtf8) && final(self)@ == fault_taken(old(self)@),
            old(self)@.rest.len() == 0 && !old(self)@.fault ==> r == Ok::<bool, ParseError>(true) && final(self)@ == old(self)@,
    {
        match self.peek() {
            Ok(None) => Ok(true),
            Ok(_) => Ok(false),
            Err(e) => Err(e),
        }
    }

    /// If `predicate` accepts the next character, reads it.
    pub fn try_match_predicate<K>(&mut self, predicate: K) -> (r: Result<Option<char>, ParseError>)
        where
            K: Fn(char) -> bool,
        requires
            old(self).wf(),
            forall|c: char| predicate.requires((c,)),
        ensures
            final(self).wf(),
            r matches Ok(Some(c)) ==> old(self)@.rest.len() > 0 && c == old(self)@.rest[0] && predicate.ensures((c,), true) && final(self)@ == advance(old(self)@),
            r == Ok::<Option<char>, ParseError>(None) ==> final(self)@ == old(self)@ && (old(self)@.rest.len() == 0 || predicate.ensures((old(self)@.rest[0],), false)),
            r is Err ==> r == Err::<Option<char>, ParseError>(ParseError::NotUtf8) && old(self)@.rest.len() == 0 && old(self)@.fault && final(self)@ == fault_taken(old(self)@),
            old(self)@.rest.len() == 0 ==> (r is Err <==> old(self)@.fault),
            old(self)@.rest.len() == 0 && !old(self)@.fault ==> r == Ok::<Option<char>, ParseError>(None),
    {
        match self.peek()? {
            Some(c) => {
                if predicate(c) {
                    let _ = self.next();
                    Ok(Some(c))
                } else {
                    Ok(None)
                }
            },
            None => Ok(None),
        }
    }

    /// Reads the space (white space other than line breaks) that comes next;
    /// whether there was any.
    pub fn eat_space(&mut self) -> (r: Result<bool, ParseError>)
        requires
            old(self).wf(),
        ensures
            final(self).wf(),
            exists|k: nat| {
                &&& k <= old(self)@.rest.len()
                &&& forall|q: int| 0 <= q < k ==> #[trigger] inline_space(old(self)@.rest[q])
                &&& r is Ok ==> {
                    &&& final(self)@ == advance_n(old(self)@, k)
                    &&& (k == old(self)@.rest.len() ==> !old(self)@.fault)
                    &&& (k < old(self)@.rest.len() ==> !inline_space(old(self)@.rest[k as int]))
                    &&& r == Ok::<bool, ParseError>(k > 0)
                }
                &&& r is Err ==> k == old(self)@.rest.len() && old(self)@.fault && r == Err::<bool, ParseError>(ParseError::NotUtf8)
            },
    {
        let ghost start = self@;
        let mut ate_any = false;
        let ghost mut k: nat = 0;
        loop
            invariant
                self.wf(),
                start == old(self)@,
                k <= start.rest.len(),
                self@ == advance_n(start, k),
                self@.rest == start.rest.skip(k as int),
                !self@.fault ==> !start.fault || k == start.rest.len(),
                self@.fault == start.fault,
                forall|q: int| 0 <= q < k ==> #[trigger] inline_space(start.rest[q]),
                ate_any == (k > 0),
            decreases start.rest.len() - k,
        {
            let ghost before = self@;
            let step = self.try_match_predicate(is_inline_space);
            match step {
                Ok(Some(_)) => {
                    ate_any = true;
                    proof {
                        assert(before.rest[0] == start.rest[k as int]);
                        assert(self@.rest =~= start.rest.skip(k as int + 1));
                        k = k + 1;
                    }
                },
                Ok(None) => {
                    proof {
                        assert(k < start.rest.len() ==> before.rest[0] == start.rest[k as int]);
                        assert(k == start.rest.len() ==> !start.fault);
                    }
                    return Ok(ate_any);
                },
                Err(e) => {
                    proof {
                        assert(k == start.rest.len());
                    }
                    return Err(e);
                },
            }
        }
    }

    /// Reads the characters that `predicate` accepts, as long as they come.
    pub fn collect_predicate<K>(&mut self, predicate: K) -> (r: Result<String, ParseError>)
        where
            K: Fn(&char) -> bool,
        requires
            old(self).wf(),
            forall|c: char| predicate.requires((&c,)),
        ensures
            final(self).wf(),
            r matches Ok(s) ==> {
                &&& s@.len() <= old(self)@.rest.len()
                &&& s@ == old(self)@.rest.take(s@.len() as int)
                &&& final(self)@ == advance_n(old(self)@, s@.len())
                &&& forall|q: int| 0 <= q < s@.len() ==> predicate.ensures((&#[trigger] s@[q],), true)
                &&& s@.len() < old(self)@.rest.len() ==> predicate.ensures((&old(self)@.rest[s@.len() as int],), false)
                &&& s@.len() == old(self)@.rest.len() ==> !old(self)@.fault
            },
            r is Err ==> r == Err::<String, ParseError>(ParseError::NotUtf8) && old(self)@.fault,
            r is Err ==> forall|q: int| 0 <= q < old(self)@.rest.len() ==> predicate.ensures((&#[trigger] old(self)@.rest[q],), true),
    {
        let ghost start = self@;
        let mut path = String::new();
        loop
            invariant
                self.wf(),
                start == old(self)@,
                forall|c: char| predicate.requires((&c,)),
                path@.len() <= start.rest.len(),
                path@ == start.rest.take(path@.len() as int),
                self@ == advance_n(start, path@.len()),
                self@.rest == start.rest.skip(path@.len() as int),
                self@.fault == start.fault,
                forall|q: int| 0 <= q < path@.len() ==> predicate.ensures((&#[trigger] path@[q],), true),
            decreases start.rest.len() - path@.len(),
        {
            let ghost before = self@;
            let peeked = match self.peek() {
                Ok(p) => p,
                Err(e) => {
                    proof {
                        assert(path@.len() == start.rest.len());
                        assert forall|q: int| 0 <= q < start.rest.len() implies predicate.ensures((&#[trigger] start.rest[q],), true) by {
                            assert(path@[q] == start.rest[q]);
                        }
                    }
                    return Err(e);
                },
            };
            match peeked {
                Some(c) => {
                    if !predicate(&c) {
                        proof {
                            assert(before.rest[0] == start.rest[path@.len() as int]);
                        }
                        return Ok(path);
                    }
                    let _ = self.next();
                    push_char(&mut path, c);
                    proof {
                        assert(c == start.rest[path@.len() - 1]);
                        assert(path@ =~= start.rest.take(path@.len() as int));
                        assert(self@.rest =~= start.rest.skip(path@.len() as int));
                    }
                },
                None => {
                    return Ok(path);
                },
            }
        }
    }

    /// Skips the characters that `predicate` accepts, as long as they come.
    pub fn discard_predicate<K>(&mut self, predicate: K) -> (r: Result<(), ParseError>)
        where
            K: Fn(&char) -> bool,
        requires
            old(self).wf(),
            forall|c: char| predicate.requires((&c,)),
        ensures
            final(self).wf(),
            r is Ok ==> exists|k: nat| {
                &&& k <= old(self)@.rest.len()
                &&& final(self)@ == advance_n(old(self)@, k)
                &&& forall|q: int| 0 <= q < k ==> predicate.ensures((&#[trigger] old(self)@.rest[q],), true)
                &&& k < old(self)@.rest.len() ==> predicate.ensures((&old(self)@.rest[k as int],), false)
                &&& k == old(self)@.rest.len() ==> !old(self)@.fault
            },
            r is Err ==> r == Err::<(), ParseError>(ParseError::NotUtf8) && old(self)@.fault,
    {
        let ghost start = self@;
        let ghost mut k: nat = 0;
        loop
            invariant
                self.wf(),
                start == old(self)@,
                forall|c: char| predicate.requires((&c,)),
                k <= start.rest.len(),
                self@ == advance_n(start, k),
                self@.rest == start.rest.skip(k as int),
                self@.fault == start.fault,
                forall|q: int| 0 <= q < k ==> predicate.ensures((&#[trigger] start.rest[q],), true),
            decreases start.rest.len() - k,
        {
            let ghost before = self@;
            match self.peek()? {
                Some(c) => {
                    if !predicate(&c) {
                        proof {
                            assert(before.rest[0] == start.rest[k as int]);
                        }
                        return Ok(());
                    }
                    let _ = self.next();
                    proof {
                        assert(before.rest[0] == start.rest[k as int]);
                        assert(self@.rest =~= start.rest.skip(k as int + 1));
                        k = k + 1;
                    }
                },
                None => {
                    return Ok(());
                },
            }
        }
    }

    /// Reads a decimal integer: at least one digit, and a value that fits.
    pub fn expect_integer(&mut self) -> (r: Result<usize, ParseError>)
        requires
            old(self).wf(),
        ensures
            final(self).wf(),
            r matches Ok(v) ==> exists|k: nat| {
                &&& 0 < k <= old(self)@.rest.len()
                &&& forall|q: int| 0 <= q < k ==> is_ascii_digit(#[trigger] old(self)@.rest[q])
                &&& k < old(self)@.rest.len() ==> !is_ascii_digit(old(self)@.rest[k as int])
                &&& v == decimal_value(old(self)@.rest.take(k as int))
                &&& final(self)@ == advance_n(old(self)@, k)
            },
            ({
                let k = digit_run(old(self)@.rest);
                (k < old(self)@.rest.len() || !old(self)@.fault) && 0 < k && decimal_value(old(self)@.rest.take(k as int))
                    <= usize::MAX ==> r == Ok::<usize, ParseError>(decimal_value(old(self)@.rest.take(k as int)) as usize)
                    && final(self)@ == advance_n(old(self)@, k)
            }),
            digit_run(old(self)@.rest) == 0 && (old(self)@.rest.len() > 0 || !old(self)@.fault) ==> r
                == Err::<usize, ParseError>(ParseError::UnexpectedEof) && final(self)@ == old(self)@,
    {
        let ghost start = self@;
        let digits = match self.collect_predicate(is_digit) {
            Ok(d) => d,
            Err(e) => {
                proof {
                    assert forall|q: int| 0 <= q < start.rest.len() implies is_ascii_digit(#[trigger] start.rest[q]) by {
                        assert(is_digit.ensures((&start.rest[q],), true));
                    }
                    lemma_digit_run(start.rest, start.rest.len());
                }
                return Err(e);
            },
        };
        proof {
            assert forall|q: int| 0 <= q < digits@.len() implies is_ascii_digit(#[trigger] digits@[q]) by {
                assert(is_digit.ensures((&digits@[q],), true));
            }
            assert forall|q: int| 0 <= q < digits@.len() implies is_ascii_digit(#[trigger] start.rest[q]) by {
                assert(start.rest.take(digits@.len() as int)[q] == start.rest[q]);
                assert(is_digit.ensures((&digits@[q],), true));
            }
            if digits@.len() < start.rest.len() {
                assert(is_digit.ensures((&start.rest[digits@.len() as int],), false));
            }
            lemma_digit_run(start.rest, digits@.len());
            assert(start.rest.take(digits@.len() as int) == digits@);
            assert(advance_n(start, 0) == start);
        }
        match parse_decimal(&digits) {
            Some(v) => {
                proof {
                    let k = digits@.len();
                    assert(start.rest.take(k as int) == digits@);
                }
                Ok(v)
            },
            None => Err(ParseError::UnexpectedEof),
        }
    }
}

/// The value of a non-empty string of decimal digits, if it fits.
pub fn parse_decimal(s: &String) -> (r: Option<usize>)
    requires
        forall|q: int| 0 <= q < s@.len() ==> is_ascii_digit(#[trigger] s@[q]),
    ensures
        r matches Some(v) ==> s@.len() > 0 && v == decimal_value(s@),
        s@.len() > 0 && decimal_value(s@) <= usize::MAX ==> r is Some,
{
    let n = s.as_str().unicode_len();
    if n == 0 {
        return None;
    }
    let mut acc: usize = 0;
    let mut i: usize = 0;
    while i < n
        invariant
            n == s@.len(),
            i <= n,
            forall|q: int| 0 <= q < s@.len() ==> is_ascii_digit(#[trigger] s@[q]),
            acc == decimal_value(s@.take(i as int)),
        decreases n - i,
    {
        let c = s.as_str().get_char(i);
        let d = (c as u32 - 48) as usize;
        proof {
            assert(s@.take(i + 1).drop_last() =~= s@.take(i as int));
            lemma_decimal_value_prefix(s@, i as int, n as int);
        }
        match acc.checked_mul(10) {
            Some(t) => match t.checked_add(d) {
                Some(u) => {
                    acc = u;
                },
                None => {
                    return None;
                },
            },
            None => {
                return None;
            },
        }
        i += 1;
    }
    proof {
        assert(s@.take(n as int) =~= s@);
    }
    Some(acc)
}

/// A prefix of a digit string is worth at most the whole string.
proof fn lemma_decimal_value_prefix(s: Seq<char>, i: int, n: int)
    requires
        0 <= i < n,
        n == s.len(),
        forall|q: int| 0 <= q < s.len() ==> is_ascii_digit(#[trigger] s[q]),
    ensures
        decimal_value(s.take(i + 1)) <= decimal_value(s),
    decreases n - i,
{
    if i + 1 < n {
        lemma_decimal_value_prefix(s, i + 1, n);
        assert(s.take(i + 2).drop_last() =~= s.take(i + 1));
    } else {
        assert(s.take(i + 1) =~= s);
    }
}

/// Turns an end of input into `None`; other errors stay.
pub fn eof_ok<T>(r: Result<T, ParseError>) -> (o: Result<Option<T>, ParseError>)
    ensures
        r matches Ok(v) ==> o == Ok::<Option<T>, ParseError>(Some(v)),
        r matches Err(ParseError::UnexpectedEof) ==> o == Ok::<Option<T>, ParseError>(None),
        r matches Err(e) ==> (!(e is UnexpectedEof) ==> o == Err::<Option<T>, ParseError>(e)),
{
    match r {
        Ok(value) => Ok(Some(value)),
        Err(ParseError::UnexpectedEof) => Ok(None),
        Err(err) => Err(err),
    }
}

/// Replaces an error by its default message at the parser's position.
pub fn with_default_err_msgs<T>(r: Result<T, ParseError>, parser: &Parser) -> (o: Result<T, String>)
    ensures
        r matches Ok(v) ==> o == Ok::<T, String>(v),
        r is Err <==> o is Err,
{
    match r {
        Ok(v) => Ok(v),
        Err(e) => Err(parser.default_err_msg(e)),
    }
}

} // verus!
