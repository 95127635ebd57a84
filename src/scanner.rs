use vstd::prelude::*;

use crate::text::{decimal, push_decimal, push_text, string_of};

verus! {

/// A place in the input: `row` counts lines from 1, `col` counts the characters read on the
/// current line. Two positions are equal when both coordinates are.
#[derive(Clone, Copy, Debug, PartialEq, Eq, Structural)]
pub struct Position {
    pub row: u32,
    pub col: u32,
}

#[derive(Debug)]
pub enum Error {
    ScanError(String),
    Eof,
}

/// A lexical unit. Each variant but `Eof` and `Whitespace` records where it was read.
#[derive(Debug, Clone, PartialEq, Eq)]
pub enum Token {
    Eof,
    /// A run of spaces, tabs and carriage returns, as read.
    Whitespace(String),
    /// A run of newlines, as read.
    Newline(Position, String),
    /// A run of letters, digits and `_` that is not all upper-case letters.
    Identifier(Position, String),
    /// A run of upper-case letters.
    UcLetter(Position, String),
    OpenParen(Position),
    CloseParen(Position),
    OpenSquare(Position),
    CloseSquare(Position),
    Semicolon(Position),
    /// A run of digits: its value and the digits as read.
    Integer(Position, u64, String),
    /// The character after a backslash (none at the end of the input).
    Escaped(Position, String),
    /// One other printable ASCII character.
    Ascii(Position, String),
    /// One character outside printable ASCII, passed through as it is.
    Bytes(Position, String),
}

/// A token as plain values.
pub enum TokenModel {
    Eof,
    Whitespace(Seq<char>),
    Newline(Position, Seq<char>),
    Identifier(Position, Seq<char>),
    UcLetter(Position, Seq<char>),
    OpenParen(Position),
    CloseParen(Position),
    OpenSquare(Position),
    CloseSquare(Position),
    Semicolon(Position),
    Integer(Position, u64, Seq<char>),
    Escaped(Position, Seq<char>),
    Ascii(Position, Seq<char>),
    Bytes(Position, Seq<char>),
}

impl View for Token {
    type V = TokenModel;

    open spec fn view(&self) -> TokenModel {
        match self {
            Token::Eof => TokenModel::Eof,
            Token::Whitespace(s) => TokenModel::Whitespace(s@),
            Token::Newline(p, s) => TokenModel::Newline(*p, s@),
            Token::Identifier(p, s) => TokenModel::Identifier(*p, s@),
            Token::UcLetter(p, s) => TokenModel::UcLetter(*p, s@),
            Token::OpenParen(p) => TokenModel::OpenParen(*p),
            Token::CloseParen(p) => TokenModel::CloseParen(*p),
            Token::OpenSquare(p) => TokenModel::OpenSquare(*p),
            Token::CloseSquare(p) => TokenModel::CloseSquare(*p),
            Token::Semicolon(p) => TokenModel::Semicolon(*p),
            Token::Integer(p, n, s) => TokenModel::Integer(*p, *n, s@),
            Token::Escaped(p, s) => TokenModel::Escaped(*p, s@),
            Token::Ascii(p, s) => TokenModel::Ascii(*p, s@),
            Token::Bytes(p, s) => TokenModel::Bytes(*p, s@),
        }
    }
}

/// `(row:col)`
pub open spec fn position_text(p: Position) -> Seq<char> {
    seq!['('] + decimal(p.row as nat) + seq![':'] + decimal(p.col as nat) + seq![')']
}

impl Position {
    /// The position as `(row:col)`.
    pub fn to_text(&self) -> (r: String)
        ensures
            r@ == position_text(*self),
    {
        let mut out: Vec<char> = Vec::new();
        out.push('(');
        push_decimal(&mut out, self.row as u64);
        out.push(':');
        push_decimal(&mut out, self.col as u64);
        out.push(')');
        assert(out@ =~= position_text(*self));
        string_of(&out)
    }
}

impl TokenModel {
    pub open spec fn position(self) -> Position {
        match self {
            TokenModel::Eof => Position { row: 0, col: 0 },
            TokenModel::Whitespace(_) => Position { row: 0, col: 0 },
            TokenModel::Newline(p, _) => p,
            TokenModel::Identifier(p, _) => p,
            TokenModel::UcLetter(p, _) => p,
            TokenModel::OpenParen(p) => p,
            TokenModel::CloseParen(p) => p,
            TokenModel::OpenSquare(p) => p,
            TokenModel::CloseSquare(p) => p,
            TokenModel::Semicolon(p) => p,
            TokenModel::Integer(p, _, _) => p,
            TokenModel::Escaped(p, _) => p,
            TokenModel::Ascii(p, _) => p,
            TokenModel::Bytes(p, _) => p,
        }
    }

    /// The characters that the token was read from.
    pub open spec fn text(self) -> Seq<char> {
        match self {
            TokenModel::Eof => Seq::empty(),
            TokenModel::Whitespace(s) => s,
            TokenModel::Newline(_, s) => s,
            TokenModel::Identifier(_, s) => s,
            TokenModel::UcLetter(_, s) => s,
            TokenModel::OpenParen(_) => seq!['('],
            TokenModel::CloseParen(_) => seq![')'],
            TokenModel::OpenSquare(_) => seq!['['],
            TokenModel::CloseSquare(_) => seq![']'],
            TokenModel::Semicolon(_) => seq![';'],
            TokenModel::Integer(_, _, s) => s,
            TokenModel::Escaped(_, s) => seq!['\\'] + s,
            TokenModel::Ascii(_, s) => s,
            TokenModel::Bytes(_, s) => s,
        }
    }
}

impl Token {
    pub fn position(&self) -> (r: Position)
        ensures
            r == self@.position(),
    {
        match self {
            Token::Eof => Position { row: 0, col: 0 },
            Token::Whitespace(_) => Position { row: 0, col: 0 },
            Token::Newline(p, _) => *p,
            Token::Identifier(p, _) => *p,
            Token::UcLetter(p, _) => *p,
            Token::OpenParen(p) => *p,
            Token::CloseParen(p) => *p,
            Token::OpenSquare(p) => *p,
            Token::CloseSquare(p) => *p,
            Token::Semicolon(p) => *p,
            Token::Integer(p, _, _) => *p,
            Token::Escaped(p, _) => *p,
            Token::Ascii(p, _) => *p,
            Token::Bytes(p, _) => *p,
        }
    }

    /// Appends the text of the token to `out`.
    pub fn write_to(&self, out: &mut Vec<char>)
        ensures
            final(out)@ == old(out)@ + self@.text(),
    {
        match self {
            Token::Eof => {},
            Token::Whitespace(s) => push_text(out, s.as_str()),
            Token::Newline(_, s) => push_text(out, s.as_str()),
            Token::Identifier(_, s) => push_text(out, s.as_str()),
            Token::UcLetter(_, s) => push_text(out, s.as_str()),
            Token::OpenParen(_) => out.push('('),
            Token::CloseParen(_) => out.push(')'),
            Token::OpenSquare(_) => out.push('['),
            Token::CloseSquare(_) => out.push(']'),
            Token::Semicolon(_) => out.push(';'),
            Token::Integer(_, _, s) => push_text(out, s.as_str()),
            Token::Escaped(_, s) => {
                out.push('\\');
                push_text(out, s.as_str());
                assert(final(out)@ =~= old(out)@ + self@.text());
            },
            Token::Ascii(_, s) => push_text(out, s.as_str()),
            Token::Bytes(_, s) => push_text(out, s.as_str()),
        }
    }

    /// A copy of the token.
    pub fn cloned(&self) -> (r: Token)
        ensures
            r@ == self@,
    {
        match self {
            Token::Eof => Token::Eof,
            Token::Whitespace(s) => Token::Whitespace(s.clone()),
            Token::Newline(p, s) => Token::Newline(*p, s.clone()),
            Token::Identifier(p, s) => Token::Identifier(*p, s.clone()),
            Token::UcLetter(p, s) => Token::UcLetter(*p, s.clone()),
            Token::OpenParen(p) => Token::OpenParen(*p),
            Token::CloseParen(p) => Token::CloseParen(*p),
            Token::OpenSquare(p) => Token::OpenSquare(*p),
            Token::CloseSquare(p) => Token::CloseSquare(*p),
            Token::Semicolon(p) => Token::Semicolon(*p),
            Token::Integer(p, n, s) => Token::Integer(*p, *n, s.clone()),
            Token::Escaped(p, s) => Token::Escaped(*p, s.clone()),
            Token::Ascii(p, s) => Token::Ascii(*p, s.clone()),
            Token::Bytes(p, s) => Token::Bytes(*p, s.clone()),
        }
    }

    /// The text of the token.
    pub fn to_text(&self) -> (r: String)
        ensures
            r@ == self@.text(),
    {
        let mut out: Vec<char> = Vec::new();
        self.write_to(&mut out);
        string_of(&out)
    }
}

/// The character at `i`, or NUL past either end.
pub open spec fn char_at(s: Seq<char>, i: int) -> char {
    if 0 <= i < s.len() {
        s[i]
    } else {
        '\0'
    }
}

/// The row after reading the first `k` characters: one more than the newlines among them.
pub open spec fn row_at(s: Seq<char>, k: int) -> int
    decreases k,
{
    if k <= 0 {
        1
    } else {
        row_at(s, k - 1) + if s[k - 1] == '\n' {
            1int
        } else {
            0int
        }
    }
}

/// The column after reading the first `k` characters: how many follow the last newline.
pub open spec fn col_at(s: Seq<char>, k: int) -> int
    decreases k,
{
    if k <= 0 {
        0
    } else if s[k - 1] == '\n' {
        0
    } else {
        col_at(s, k - 1) + 1
    }
}

pub open spec fn pos_at(s: Seq<char>, k: int) -> Position {
    Position { row: row_at(s, k) as u32, col: col_at(s, k) as u32 }
}

pub open spec fn blank(c: char) -> bool {
    c == ' ' || c == '\t' || c == '\r'
}

pub open spec fn digit(c: char) -> bool {
    '0' <= c <= '9'
}

pub open spec fn ident_start(c: char) -> bool {
    ('a' <= c <= 'z') || ('A' <= c <= 'Z') || c == '_'
}

pub open spec fn ident_char(c: char) -> bool {
    digit(c) || ident_start(c)
}

pub open spec fn all_upper(w: Seq<char>) -> bool {
    forall|k: int| 0 <= k < w.len() ==> 'A' <= #[trigger] w[k] <= 'Z'
}

/// The kinds of character that the scanner reads in maximal runs.
pub enum CharClass {
    Blank,
    Newline,
    Digit,
    Ident,
}

pub open spec fn in_class(c: char, class: CharClass) -> bool {
    match class {
        CharClass::Blank => blank(c),
        CharClass::Newline => c == '\n',
        CharClass::Digit => digit(c),
        CharClass::Ident => ident_char(c),
    }
}

/// Where the run of `class` characters that starts at `i` ends.
pub open spec fn run_end(s: Seq<char>, i: int, class: CharClass) -> int
    decreases s.len() - i,
{
    if 0 <= i < s.len() && in_class(s[i], class) {
        run_end(s, i + 1, class)
    } else {
        i
    }
}

pub open spec fn digit_value(c: char) -> nat {
    ((c as u32) - ('0' as u32)) as nat
}

/// The number that a string of decimal digits denotes.
pub open spec fn digits_value(d: Seq<char>) -> nat
    decreases d.len(),
{
    if d.len() == 0 {
        0
    } else {
        digits_value(d.drop_last()) * 10 + digit_value(d.last())
    }
}

pub open spec fn overflow_message() -> Seq<char> {
    "number too large to fit in target type"@
}

pub open spec fn scan_error_text(p: Position, msg: Seq<char>) -> Seq<char> {
    "scan_error at "@ + position_text(p) + ": "@ + msg
}

/// One step of the scanner at `i`: the token read there and where the next one starts, or,
/// for a number too large for `u64`, the place where its digits end. At the end of the input,
/// or at a NUL, the token is `Eof` and nothing is read.
pub open spec fn scan_step(s: Seq<char>, i: int) -> Result<(TokenModel, int), int> {
    let c = char_at(s, i);
    if c == '\0' {
        Ok((TokenModel::Eof, i))
    } else if blank(c) {
        let j = run_end(s, i, CharClass::Blank);
        Ok((TokenModel::Whitespace(s.subrange(i, j)), j))
    } else if c == '\n' {
        let j = run_end(s, i, CharClass::Newline);
        Ok((TokenModel::Newline(pos_at(s, j), s.subrange(i, j)), j))
    } else if c == '\\' {
        if i + 2 <= s.len() {
            Ok((TokenModel::Escaped(pos_at(s, i + 2), seq![s[i + 1]]), i + 2))
        } else {
            Ok((TokenModel::Escaped(pos_at(s, i + 1), Seq::empty()), i + 1))
        }
    } else if c == '(' {
        Ok((TokenModel::OpenParen(pos_at(s, i)), i + 1))
    } else if c == ')' {
        Ok((TokenModel::CloseParen(pos_at(s, i)), i + 1))
    } else if c == '[' {
        Ok((TokenModel::OpenSquare(pos_at(s, i)), i + 1))
    } else if c == ']' {
        Ok((TokenModel::CloseSquare(pos_at(s, i)), i + 1))
    } else if digit(c) {
        let j = run_end(s, i, CharClass::Digit);
        let v = digits_value(s.subrange(i, j));
        if v <= u64::MAX {
            Ok((TokenModel::Integer(pos_at(s, j), v as u64, s.subrange(i, j)), j))
        } else {
            Err(j)
        }
    } else if ident_start(c) {
        let j = run_end(s, i, CharClass::Ident);
        let w = s.subrange(i, j);
        if all_upper(w) {
            Ok((TokenModel::UcLetter(pos_at(s, j), w), j))
        } else {
            Ok((TokenModel::Identifier(pos_at(s, j), w), j))
        }
    } else if c == ';' {
        Ok((TokenModel::Semicolon(pos_at(s, i)), i + 1))
    } else if ' ' <= c <= '~' {
        Ok((TokenModel::Ascii(pos_at(s, i + 1), seq![c]), i + 1))
    } else {
        Ok((TokenModel::Bytes(pos_at(s, i + 1), seq![c]), i + 1))
    }
}

/// The tokens of `s` from `i` on, up to the end of the input (or a NUL), or the error that
/// the first number too large for `u64` gives.
pub open spec fn scan_from(s: Seq<char>, i: int) -> Result<Seq<TokenModel>, Seq<char>>
    decreases s.len() - i,
    via scan_from_decreases
{
    match scan_step(s, i) {
        Err(j) => Err(scan_error_text(pos_at(s, j), overflow_message())),
        Ok((t, j)) => if t is Eof {
            Ok(Seq::empty())
        } else {
            match scan_from(s, j) {
                Ok(ts) => Ok(seq![t] + ts),
                Err(e) => Err(e),
            }
        },
    }
}

#[via_fn]
proof fn scan_from_decreases(s: Seq<char>, i: int) {
    lemma_step_advances(s, i);
}

pub proof fn lemma_run_end(s: Seq<char>, i: int, class: CharClass)
    requires
        0 <= i <= s.len(),
    ensures
        i <= run_end(s, i, class) <= s.len(),
        i < s.len() && in_class(s[i], class) ==> i < run_end(s, i, class),
        forall|k: int| i <= k < run_end(s, i, class) ==> in_class(#[trigger] s[k], class),
        run_end(s, i, class) < s.len() ==> !in_class(s[run_end(s, i, class)], class),
    decreases s.len() - i,
{
    if i < s.len() && in_class(s[i], class) {
        lemma_run_end(s, i + 1, class);
    }
}

/// A step that reads a token other than `Eof` moves forward and stays within the input.
pub proof fn lemma_step_advances(s: Seq<char>, i: int)
    ensures
        scan_step(s, i) matches Ok((t, j)) ==> (t is Eof ==> j == i) && (t !is Eof ==> i < j
            <= s.len()),
        scan_step(s, i) matches Err(j) ==> i < j <= s.len(),
{
    if 0 <= i < s.len() {
        lemma_run_end(s, i, CharClass::Blank);
        lemma_run_end(s, i, CharClass::Newline);
        lemma_run_end(s, i, CharClass::Digit);
        lemma_run_end(s, i, CharClass::Ident);
    }
}

pub proof fn lemma_pos_bounds(s: Seq<char>, k: int)
    requires
        0 <= k <= s.len(),
    ensures
        1 <= row_at(s, k) <= k + 1,
        0 <= col_at(s, k) <= k,
    decreases k,
{
    if k > 0 {
        lemma_pos_bounds(s, k - 1);
    }
}

pub fn is_digit(c: char) -> (r: bool)
    ensures
        r == digit(c),
{
    c >= '0' && c <= '9'
}

pub fn is_identifier_start(c: char) -> (r: bool)
    ensures
        r == ident_start(c),
{
    (c >= 'a' && c <= 'z') || (c >= 'A' && c <= 'Z') || c == '_'
}

pub fn is_identifier(c: char) -> (r: bool)
    ensures
        r == ident_char(c),
{
    is_digit(c) || is_identifier_start(c)
}

/// Reads characters into tokens, tracking the position of its cursor.
pub struct Scanner {
    input: Vec<char>,
    cur: usize,
    pos: Position,
}

impl Scanner {
    /// The characters being scanned.
    pub closed spec fn chars(&self) -> Seq<char> {
        self.input@
    }

    /// How many characters have been read.
    pub closed spec fn cursor(&self) -> int {
        self.cur as int
    }

    /// The cursor lies within the input, the input is short enough for its rows and columns
    /// to fit in `u32`, and the position is that of the cursor.
    pub closed spec fn wf(&self) -> bool {
        &&& self.cur <= self.input.len()
        &&& self.input.len() < u32::MAX
        &&& self.pos == pos_at(self.input@, self.cur as int)
    }

    pub closed spec fn position(&self) -> Position {
        self.pos
    }

    /// The position of a well-formed scanner is that of its cursor.
    pub proof fn lemma_position(&self)
        requires
            self.wf(),
        ensures
            self.position() == pos_at(self.chars(), self.cursor()),
    {
    }

    pub fn new(data: &str) -> (r: Scanner)
        requires
            data@.len() < u32::MAX,
        ensures
            r.wf(),
            r.chars() == data@,
            r.cursor() == 0,
            r.position() == (Position { row: 1, col: 0 }),
    {
        Scanner { input: crate::text::chars_of(data), cur: 0, pos: Position { row: 1, col: 0 } }
    }

    /// The character `n` places after the cursor, or NUL past the end.
    pub fn peek(&mut self, n: usize) -> (r: char)
        requires
            old(self).wf(),
        ensures
            *final(self) == *old(self),
            r == char_at(old(self).chars(), old(self).cursor() + n),
    {
        if n < self.input.len() && self.cur < self.input.len() - n {
            self.input[self.cur + n]
        } else {
            '\0'
        }
    }

    /// Reads the character at the cursor (NUL past the end) and moves past it.
    pub fn read(&mut self) -> (r: char)
        requires
            old(self).wf(),
        ensures
            final(self).wf(),
            final(self).chars() == old(self).chars(),
            r == char_at(old(self).chars(), old(self).cursor()),
            final(self).cursor() == if old(self).cursor() < old(self).chars().len() {
                old(self).cursor() + 1
            } else {
                old(self).cursor()
            },
            old(self).position() == pos_at(old(self).chars(), old(self).cursor()),
            final(self).position() == pos_at(final(self).chars(), final(self).cursor()),
    {
        let ret = self.cur;
        if ret >= self.input.len() {
            return '\0';
        }
        proof {
            lemma_pos_bounds(self.input@, ret as int);
            lemma_pos_bounds(self.input@, ret + 1);
            assert(row_at(self.input@, ret + 1) == row_at(self.input@, ret as int) + if self.input@[ret as int] == '\n' {
                1int
            } else {
                0int
            });
        }
        if self.input[ret] == '\n' {
            self.pos.row = self.pos.row + 1;
            self.pos.col = 0;
        } else {
            self.pos.col = self.pos.col + 1;
        }
        self.cur = self.cur + 1;
        self.input[ret]
    }

    /// The error of a failed scan, at the current position.
    pub fn create_error(&mut self, msg: String) -> (r: Error)
        ensures
            *final(self) == *old(self),
            r matches Error::ScanError(m) && m@ == scan_error_text(old(self).position(), msg@),
    {
        let mut out: Vec<char> = Vec::new();
        push_text(&mut out, "scan_error at (");
        push_decimal(&mut out, self.pos.row as u64);
        out.push(':');
        push_decimal(&mut out, self.pos.col as u64);
        push_text(&mut out, "): ");
        push_text(&mut out, msg.as_str());
        proof {
            reveal_strlit("scan_error at (");
            reveal_strlit("scan_error at ");
            reveal_strlit("): ");
            reveal_strlit(": ");
        }
        assert(out@ =~= scan_error_text(self.pos, msg@));
        Error::ScanError(string_of(&out))
    }
}

fn class_has(c: char, class: &CharClass) -> (r: bool)
    ensures
        r == in_class(c, *class),
{
    match class {
        CharClass::Blank => c == ' ' || c == '\t' || c == '\r',
        CharClass::Newline => c == '\n',
        CharClass::Digit => is_digit(c),
        CharClass::Ident => is_identifier(c),
    }
}

fn single(c: char) -> (r: String)
    ensures
        r@ == seq![c],
{
    let mut v: Vec<char> = Vec::new();
    v.push(c);
    string_of(&v)
}

fn overflow_error() -> (r: Error)
    ensures
        r matches Error::ScanError(m) && m@ == overflow_message(),
{
    Error::ScanError("number too large to fit in target type".to_owned())
}

impl Scanner {
    /// What one step of the scanner from `self` to `next` must have done: read the token that
    /// `scan_step` gives and stopped where it says, or failed where it says.
    pub open spec fn scanned(self, next: Scanner, r: Result<Token, Error>) -> bool {
        &&& next.wf()
        &&& next.chars() == self.chars()
        &&& match scan_step(self.chars(), self.cursor()) {
            Ok((t, j)) => r matches Ok(tok) && tok@ == t && next.cursor() == j,
            Err(j) => r matches Err(Error::ScanError(m)) && m@ == overflow_message()
                && next.cursor() == j,
        }
    }

    /// Reads the maximal run of `class` characters at the cursor and returns them.
    fn read_run(&mut self, class: CharClass) -> (r: Vec<char>)
        requires
            old(self).wf(),
        ensures
            final(self).wf(),
            final(self).chars() == old(self).chars(),
            final(self).cursor() == run_end(old(self).chars(), old(self).cursor(), class),
            r@ == old(self).chars().subrange(old(self).cursor(), final(self).cursor()),
    {
        let ghost s = self.input@;
        let start: usize = self.cur;
        let mut out: Vec<char> = Vec::new();
        loop
            invariant
                self.wf(),
                self.input@ == s,
                start <= self.cur,
                run_end(s, self.cur as int, class) == run_end(s, start as int, class),
                out@ == s.subrange(start as int, self.cur as int),
            ensures
                run_end(s, self.cur as int, class) == self.cur,
            decreases s.len() - self.cur,
        {
            let c = self.peek(0);
            if class_has(c, &class) {
                self.read();
                out.push(c);
                assert(out@ =~= s.subrange(start as int, self.cur as int));
            } else {
                break;
            }
        }
        out
    }

    pub fn create_token(&mut self, tok: Token) -> (r: Result<Token, Error>)
        requires
            old(self).wf(),
        ensures
            final(self).wf(),
            final(self).chars() == old(self).chars(),
            final(self).cursor() == if old(self).cursor() < old(self).chars().len() {
                old(self).cursor() + 1
            } else {
                old(self).cursor()
            },
            r == Ok::<Token, Error>(tok),
    {
        self.read();
        Ok(tok)
    }

    pub fn scan_whitespace(&mut self) -> (r: Result<Token, Error>)
        requires
            old(self).wf(),
            blank(char_at(old(self).chars(), old(self).cursor())),
        ensures
            old(self).scanned(*final(self), r),
    {
        let run = self.read_run(CharClass::Blank);
        Ok(Token::Whitespace(string_of(&run)))
    }

    pub fn scan_newlines(&mut self) -> (r: Result<Token, Error>)
        requires
            old(self).wf(),
            char_at(old(self).chars(), old(self).cursor()) == '\n',
        ensures
            old(self).scanned(*final(self), r),
    {
        let run = self.read_run(CharClass::Newline);
        Ok(Token::Newline(self.pos, string_of(&run)))
    }

    pub fn scan_escaped(&mut self) -> (r: Result<Token, Error>)
        requires
            old(self).wf(),
            char_at(old(self).chars(), old(self).cursor()) == '\\',
        ensures
            old(self).scanned(*final(self), r),
    {
        self.read();
        if self.cur < self.input.len() {
            let c = self.read();
            Ok(Token::Escaped(self.pos, single(c)))
        } else {
            Ok(Token::Escaped(self.pos, String::new()))
        }
    }

    pub fn scan_ascii(&mut self) -> (r: Result<Token, Error>)
        requires
            old(self).wf(),
            ' ' <= char_at(old(self).chars(), old(self).cursor()) <= '~',
            !blank(char_at(old(self).chars(), old(self).cursor())),
            !digit(char_at(old(self).chars(), old(self).cursor())),
            !ident_start(char_at(old(self).chars(), old(self).cursor())),
            !(char_at(old(self).chars(), old(self).cursor()) == '\\'),
            !(char_at(old(self).chars(), old(self).cursor()) == '('),
            !(char_at(old(self).chars(), old(self).cursor()) == ')'),
            !(char_at(old(self).chars(), old(self).cursor()) == '['),
            !(char_at(old(self).chars(), old(self).cursor()) == ']'),
            !(char_at(old(self).chars(), old(self).cursor()) == ';'),
        ensures
            old(self).scanned(*final(self), r),
    {
        let c = self.read();
        Ok(Token::Ascii(self.pos, single(c)))
    }

    pub fn scan_bytes(&mut self) -> (r: Result<Token, Error>)
        requires
            old(self).wf(),
            !(' ' <= char_at(old(self).chars(), old(self).cursor()) <= '~'),
            char_at(old(self).chars(), old(self).cursor()) != '\0',
            !blank(char_at(old(self).chars(), old(self).cursor())),
            char_at(old(self).chars(), old(self).cursor()) != '\n',
        ensures
            old(self).scanned(*final(self), r),
    {
        let c = self.read();
        Ok(Token::Bytes(self.pos, single(c)))
    }

    pub fn scan_number(&mut self) -> (r: Result<Token, Error>)
        requires
            old(self).wf(),
            digit(char_at(old(self).chars(), old(self).cursor())),
        ensures
            old(self).scanned(*final(self), r),
    {
        let ghost s = self.input@;
        let ghost start = self.cur as int;
        proof {
            lemma_run_end(s, start, CharClass::Digit);
        }
        let digits = self.read_run(CharClass::Digit);
        let mut n: u64 = 0;
        let mut fits = true;
        let mut i: usize = 0;
        while i < digits.len()
            invariant
                0 <= i <= digits.len(),
                forall|k: int| 0 <= k < digits.len() ==> digit(#[trigger] digits@[k]),
                fits ==> n == digits_value(digits@.take(i as int)),
                !fits ==> digits_value(digits@.take(i as int)) > u64::MAX,
            decreases digits.len() - i,
        {
            assert(digits@.take(i + 1).drop_last() =~= digits@.take(i as int));
            let c = digits[i];
            let d: u64 = ((c as u32) - ('0' as u32)) as u64;
            assert(d == digit_value(c));
            if fits {
                if n > (u64::MAX - d) / 10 {
                    assert(n * 10 + d > u64::MAX) by (nonlinear_arith)
                        requires
                            n > (u64::MAX - d) / 10,
                            d <= 9,
                    ;
                    fits = false;
                } else {
                    assert(n * 10 + d <= u64::MAX) by (nonlinear_arith)
                        requires
                            n <= (u64::MAX - d) / 10,
                            d <= 9,
                    ;
                    n = n * 10 + d;
                }
            }
            i = i + 1;
        }
        assert(digits@.take(i as int) =~= digits@);
        if !fits {
            return Err(overflow_error());
        }
        Ok(Token::Integer(self.pos, n, string_of(&digits)))
    }

    pub fn scan_identifier(&mut self) -> (r: Result<Token, Error>)
        requires
            old(self).wf(),
            ident_start(char_at(old(self).chars(), old(self).cursor())),
        ensures
            old(self).scanned(*final(self), r),
    {
        let chars = self.read_run(CharClass::Ident);
        let mut upper = true;
        let mut i: usize = 0;
        while i < chars.len()
            invariant
                0 <= i <= chars.len(),
                upper == all_upper(chars@.take(i as int)),
            decreases chars.len() - i,
        {
            let c = chars[i];
            if c < 'A' || c > 'Z' {
                upper = false;
            }
            assert(chars@.take(i + 1) =~= chars@.take(i as int).push(c));
            assert(upper == all_upper(chars@.take(i + 1))) by {
                let w = chars@.take(i + 1);
                if upper {
                    assert forall|k: int| 0 <= k < w.len() implies 'A' <= #[trigger] w[k] <= 'Z' by {
                        if k < i {
                            assert(w[k] == chars@.take(i as int)[k]);
                        }
                    }
                } else if c < 'A' || c > 'Z' {
                    assert(w[i as int] == c);
                } else {
                    let kk = choose|k: int| 0 <= k < i && !('A' <= #[trigger] chars@.take(i as int)[k] <= 'Z');
                    assert(w[kk] == chars@.take(i as int)[kk]);
                }
            }
            i = i + 1;
        }
        assert(chars@.take(i as int) =~= chars@);
        let s = string_of(&chars);
        if upper {
            Ok(Token::UcLetter(self.pos, s))
        } else {
            Ok(Token::Identifier(self.pos, s))
        }
    }
}

pub open spec fn tokens_model(v: Seq<Token>) -> Seq<TokenModel> {
    v.map_values(|t: Token| t@)
}

/// `r` with `ts` put in front of its tokens.
pub open spec fn prepend(
    ts: Seq<TokenModel>,
    r: Result<Seq<TokenModel>, Seq<char>>,
) -> Result<Seq<TokenModel>, Seq<char>> {
    match r {
        Ok(rest) => Ok(ts + rest),
        Err(e) => Err(e),
    }
}

impl Error {
    pub open spec fn text(self) -> Seq<char> {
        match self {
            Error::ScanError(m) => m@,
            Error::Eof => "EOF"@,
        }
    }

    /// The message of the error.
    pub fn to_text(&self) -> (r: String)
        ensures
            r@ == self.text(),
    {
        match self {
            Error::ScanError(m) => m.clone(),
            Error::Eof => "EOF".to_owned(),
        }
    }
}

impl Scanner {
    /// Reads the next token, or `Eof` at the end of the input or at a NUL.
    pub fn scan_token(&mut self) -> (r: Result<Token, Error>)
        requires
            old(self).wf(),
        ensures
            old(self).scanned(*final(self), r),
    {
        let c = self.peek(0);
        let p = self.pos;
        match c {
            '\0' => Ok(Token::Eof),
            ' ' | '\t' | '\r' => self.scan_whitespace(),
            '\n' => self.scan_newlines(),
            '\\' => self.scan_escaped(),
            '(' => self.create_token(Token::OpenParen(p)),
            ')' => self.create_token(Token::CloseParen(p)),
            '[' => self.create_token(Token::OpenSquare(p)),
            ']' => self.create_token(Token::CloseSquare(p)),
            '0'..='9' => self.scan_number(),
            'a'..='z' | 'A'..='Z' | '_' => self.scan_identifier(),
            ';' => self.create_token(Token::Semicolon(p)),
            '\u{20}'..='\u{7e}' => self.scan_ascii(),
            _ => self.scan_bytes(),
        }
    }

    /// Scans the rest of the input into tokens; fails as a whole, at the first number too
    /// large for `u64`.
    pub fn scan(&mut self) -> (r: Result<Vec<Token>, Error>)
        requires
            old(self).wf(),
        ensures
            match scan_from(old(self).chars(), old(self).cursor()) {
                Ok(ts) => r matches Ok(v) && tokens_model(v@) == ts,
                Err(e) => r matches Err(Error::ScanError(m)) && m@ == e,
            },
    {
        let ghost s = self.input@;
        let start: usize = self.cur;
        let mut tokens: Vec<Token> = Vec::new();
        loop
            invariant
                self.wf(),
                self.input@ == s,
                old(self).chars() == s,
                old(self).cursor() == start,
                start <= self.cur <= s.len(),
                scan_from(s, start as int) == prepend(
                    tokens_model(tokens@),
                    scan_from(s, self.cur as int),
                ),
            ensures
                scan_from(s, self.cur as int) == Ok::<Seq<TokenModel>, Seq<char>>(Seq::empty()),
            decreases s.len() - self.cur,
        {
            proof {
                lemma_step_advances(s, self.cur as int);
            }
            let ghost before = self.cur as int;
            match self.scan_token() {
                Ok(Token::Eof) => {
                    break;
                },
                Ok(tok) => {
                    let ghost tm = tok@;
                    let ghost old_tokens = tokens_model(tokens@);
                    tokens.push(tok);
                    proof {
                        assert(tokens_model(tokens@) =~= old_tokens.push(tm));
                        match scan_from(s, self.cur as int) {
                            Ok(rest) => {
                                assert(old_tokens + (seq![tm] + rest) =~= old_tokens.push(tm)
                                    + rest);
                            },
                            Err(_) => {},
                        }
                    }
                },
                Err(e) => {
                    let msg = e.to_text();
                    return Err(self.create_error(msg));
                },
            }
        }
        proof {
            assert(tokens_model(tokens@) + Seq::<TokenModel>::empty() =~= tokens_model(tokens@));
        }
        Ok(tokens)
    }
}

/// The characters that the tokens `ts` were read from, one after another.
pub open spec fn texts(ts: Seq<TokenModel>) -> Seq<char>
    decreases ts.len(),
{
    if ts.len() == 0 {
        Seq::empty()
    } else {
        ts[0].text() + texts(ts.drop_first())
    }
}

/// A step that reads a token other than `Eof` reads exactly the characters of its text.
proof fn lemma_step_text(s: Seq<char>, i: int)
    requires
        0 <= i <= s.len(),
    ensures
        scan_step(s, i) matches Ok((t, j)) ==> (t is Eof ==> char_at(s, i) == '\0') && (t !is Eof
            ==> t.text() == s.subrange(i, j)),
{
    lemma_step_advances(s, i);
    if i < s.len() {
        let c = s[i];
        assert(s.subrange(i, i + 1) =~= seq![c]);
        if i + 2 <= s.len() {
            assert(s.subrange(i, i + 2) =~= seq![c] + seq![s[i + 1]]);
        }
    }
}

/// The tokens of a successful scan spell the input verbatim, from `i` up to a NUL or the end.
pub proof fn lemma_scan_verbatim(s: Seq<char>, i: int)
    requires
        0 <= i <= s.len(),
    ensures
        scan_from(s, i) matches Ok(ts) ==> exists|k: int|
            i <= k <= s.len() && char_at(s, k) == '\0' && texts(ts) == s.subrange(i, k),
    decreases s.len() - i,
{
    lemma_step_advances(s, i);
    lemma_step_text(s, i);
    if let Ok((t, j)) = scan_step(s, i) {
        if t is Eof {
            assert(texts(Seq::<TokenModel>::empty()) =~= s.subrange(i, i));
        } else {
            lemma_scan_verbatim(s, j);
            if let Ok(ts) = scan_from(s, j) {
                let k = choose|k: int|
                    j <= k <= s.len() && char_at(s, k) == '\0' && texts(ts) == s.subrange(j, k);
                assert((seq![t] + ts).drop_first() =~= ts);
                assert(s.subrange(i, k) =~= s.subrange(i, j) + s.subrange(j, k));
                assert(texts(seq![t] + ts) == s.subrange(i, k));
            }
        }
    }
}

/// Every upper-case identifier token in `ts` is a non-empty run of upper-case letters.
pub open spec fn upper_idents(ts: Seq<TokenModel>) -> bool {
    forall|k: int|
        0 <= k < ts.len() && (#[trigger] ts[k]) is UcLetter ==> ts[k]->UcLetter_1.len() > 0
            && all_upper(ts[k]->UcLetter_1)
}

/// A successful scan gives only non-empty upper-case identifier tokens.
pub proof fn lemma_scan_upper(s: Seq<char>, i: int)
    requires
        0 <= i <= s.len(),
    ensures
        scan_from(s, i) matches Ok(ts) ==> upper_idents(ts),
    decreases s.len() - i,
{
    lemma_step_advances(s, i);
    if let Ok((t, j)) = scan_step(s, i) {
        if !(t is Eof) {
            lemma_scan_upper(s, j);
            if let Ok(ts) = scan_from(s, j) {
                assert forall|k: int|
                    0 <= k < (seq![t] + ts).len() && (#[trigger] (seq![t] + ts)[k]) is UcLetter implies (
                    seq![t] + ts)[k]->UcLetter_1.len() > 0 && all_upper((seq![t] + ts)[k]->UcLetter_1) by {
                    if k > 0 {
                        assert((seq![t] + ts)[k] == ts[k - 1]);
                    }
                }
            }
        }
    }
}

} // verus!
