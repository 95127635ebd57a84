use vstd::prelude::*;

use crate::scanner::{
    lemma_scan_upper, position_text, scan_from, texts, tokens_model, upper_idents, Scanner, Token,
    TokenModel,
};
use crate::text::{push_decimal, push_text, string_of};
use crate::vertex::{
    collection_wf, node_wf, sequence_wf, Collection, GameTree, GameTreeModel, Node, Property,
    PropertyModel, Sequence,
};

verus! {

#[derive(Debug)]
pub enum Error {
    ParseError(String),
    Eof,
}

/// The token at `i`, or `Eof` past either end.
pub open spec fn tok_at(tks: Seq<TokenModel>, i: int) -> TokenModel {
    if 0 <= i < tks.len() {
        tks[i]
    } else {
        TokenModel::Eof
    }
}

pub open spec fn is_space(t: TokenModel) -> bool {
    t is Whitespace || t is Newline
}

/// Where the run of whitespace and newline tokens that starts at `i` ends.
pub open spec fn skip_space(tks: Seq<TokenModel>, i: int) -> int
    decreases tks.len() - i,
{
    if 0 <= i < tks.len() && is_space(tks[i]) {
        skip_space(tks, i + 1)
    } else {
        i
    }
}

/// Where the first `(` at or after `i` stands (or the end of the tokens).
pub open spec fn skip_garbage(tks: Seq<TokenModel>, i: int) -> int
    decreases tks.len() - i,
{
    if 0 <= i < tks.len() && !(tks[i] is OpenParen) && !(tks[i] is Eof) {
        skip_garbage(tks, i + 1)
    } else {
        i
    }
}

/// The message of an error found with the cursor at `i`: it names the position of the token
/// there, or of the last token past the end.
pub open spec fn error_text(tks: Seq<TokenModel>, i: int, msg: Seq<char>) -> Seq<char> {
    if tks.len() == 0 {
        "empty file"@
    } else if i >= tks.len() {
        "parse_error at "@ + position_text(tks.last().position()) + ": "@ + msg
    } else {
        "parse_error at "@ + position_text(tks[i].position()) + ": "@ + msg
    }
}

/// The message of an unexpected token at `i`: the token is read, then reported.
pub open spec fn unexpected_text(tks: Seq<TokenModel>, i: int, msg: Seq<char>) -> Seq<char> {
    error_text(tks, i + 1, "unexpected "@ + tok_at(tks, i).text() + " "@ + msg)
}

/// The text of a value from `i` on, up to the closing `]`, and where that `]` stands.
pub open spec fn value_body(tks: Seq<TokenModel>, i: int) -> Result<(Seq<char>, int), Seq<char>>
    decreases tks.len() - i,
{
    let t = tok_at(tks, i);
    if t is CloseSquare {
        Ok((Seq::empty(), i))
    } else if t is Eof {
        Err(unexpected_text(tks, i, "eof while waiting for ']'"@))
    } else {
        match value_body(tks, i + 1) {
            Ok((v, j)) => Ok((t.text() + v, j)),
            Err(e) => Err(e),
        }
    }
}

/// A bracketed value at `i`, and where the token after its `]` stands.
pub open spec fn prop_value(tks: Seq<TokenModel>, i: int) -> Result<(Seq<char>, int), Seq<char>> {
    if !(tok_at(tks, i) is OpenSquare) {
        Err(unexpected_text(tks, i, "needed '[' in parse_propvalue"@))
    } else {
        match value_body(tks, i + 1) {
            Ok((v, j)) => Ok((v, j + 1)),
            Err(e) => Err(e),
        }
    }
}

/// The bracketed values from `i` on, with the space after each skipped.
pub open spec fn value_list(tks: Seq<TokenModel>, i: int) -> Result<
    (Seq<Seq<char>>, int),
    Seq<char>,
>
    decreases tks.len() - i,
    via value_list_decreases
{
    if tok_at(tks, i) is OpenSquare {
        match prop_value(tks, i) {
            Err(e) => Err(e),
            Ok((v, j)) => match value_list(tks, skip_space(tks, j)) {
                Ok((vs, k)) => Ok((seq![v] + vs, k)),
                Err(e) => Err(e),
            },
        }
    } else {
        Ok((Seq::empty(), i))
    }
}

#[via_fn]
proof fn value_list_decreases(tks: Seq<TokenModel>, i: int) {
    if tok_at(tks, i) is OpenSquare {
        lemma_value_body(tks, i + 1);
        if let Ok((v, j)) = prop_value(tks, i) {
            lemma_skip_space(tks, j);
        }
    }
}

/// A property at `i`: an upper-case identifier, then at least one value.
pub open spec fn property(tks: Seq<TokenModel>, i: int) -> Result<(PropertyModel, int), Seq<char>> {
    match tok_at(tks, i) {
        TokenModel::UcLetter(_, name) => match value_list(tks, skip_space(tks, i + 1)) {
            Err(e) => Err(e),
            Ok((vs, j)) => if vs.len() == 0 {
                Err(error_text(tks, j, "cannot have empty property list"@))
            } else {
                Ok((PropertyModel { ident: name, values: vs }, j))
            },
        },
        _ => Err(error_text(tks, i + 1, "expected uppercase identifier"@)),
    }
}

/// The properties from `i` on, as long as an upper-case identifier comes.
pub open spec fn property_list(tks: Seq<TokenModel>, i: int) -> Result<
    (Seq<PropertyModel>, int),
    Seq<char>,
>
    decreases tks.len() - i,
    via property_list_decreases
{
    if tok_at(tks, i) is UcLetter {
        match property(tks, i) {
            Err(e) => Err(e),
            Ok((p, j)) => match property_list(tks, skip_space(tks, j)) {
                Ok((ps, k)) => Ok((seq![p] + ps, k)),
                Err(e) => Err(e),
            },
        }
    } else {
        Ok((Seq::empty(), i))
    }
}

#[via_fn]
proof fn property_list_decreases(tks: Seq<TokenModel>, i: int) {
    if tok_at(tks, i) is UcLetter {
        lemma_skip_space(tks, i + 1);
        lemma_value_list(tks, skip_space(tks, i + 1));
        if let Ok((p, j)) = property(tks, i) {
            lemma_skip_space(tks, j);
        }
    }
}

/// A node at `i`: `;`, then its properties.
pub open spec fn node(tks: Seq<TokenModel>, i: int) -> Result<(Seq<PropertyModel>, int), Seq<char>> {
    property_list(tks, skip_space(tks, i + 1))
}

/// The nodes from `i` on, as long as a `;` comes.
pub open spec fn node_list(tks: Seq<TokenModel>, i: int) -> Result<
    (Seq<Seq<PropertyModel>>, int),
    Seq<char>,
>
    decreases tks.len() - i,
    via node_list_decreases
{
    if tok_at(tks, i) is Semicolon {
        match node(tks, i) {
            Err(e) => Err(e),
            Ok((n, j)) => match node_list(tks, skip_space(tks, j)) {
                Ok((ns, k)) => Ok((seq![n] + ns, k)),
                Err(e) => Err(e),
            },
        }
    } else {
        Ok((Seq::empty(), i))
    }
}

#[via_fn]
proof fn node_list_decreases(tks: Seq<TokenModel>, i: int) {
    if tok_at(tks, i) is Semicolon {
        lemma_skip_space(tks, i + 1);
        lemma_property_list(tks, skip_space(tks, i + 1));
        if let Ok((n, j)) = node(tks, i) {
            lemma_skip_space(tks, j);
        }
    }
}

/// A sequence at `i`: at least one node.
pub open spec fn sequence(tks: Seq<TokenModel>, i: int) -> Result<
    (Seq<Seq<PropertyModel>>, int),
    Seq<char>,
> {
    match node_list(tks, i) {
        Err(e) => Err(e),
        Ok((ns, j)) => if ns.len() == 0 {
            Err(error_text(tks, j, "cannot have empty node list"@))
        } else {
            Ok((ns, j))
        },
    }
}

/// A game tree at `i`: `(`, a sequence, its variations, `)`.
pub open spec fn gametree(tks: Seq<TokenModel>, i: int) -> Result<(GameTreeModel, int), Seq<char>>
    decreases tks.len() - i, 0int,
    via gametree_decreases
{
    match sequence(tks, skip_space(tks, i + 1)) {
        Err(e) => Err(e),
        Ok((sq, j)) => match variations(tks, skip_space(tks, j)) {
            Err(e) => Err(e),
            Ok((cs, k)) => Ok((GameTreeModel { sequence: sq, children: cs }, k)),
        },
    }
}

/// The variations of a game tree from `i` on, up to and past its `)`. A game tree that did not
/// move forward would be an error; none does (`lemma_gametree_advances`).
pub open spec fn variations(tks: Seq<TokenModel>, i: int) -> Result<
    (Seq<GameTreeModel>, int),
    Seq<char>,
>
    decreases tks.len() - i, 1int,
    via variations_decreases
{
    let t = tok_at(tks, i);
    if t is OpenParen {
        match gametree(tks, i) {
            Err(e) => Err(e),
            Ok((g, j)) => if i < j <= tks.len() {
                match variations(tks, skip_space(tks, j)) {
                    Err(e) => Err(e),
                    Ok((cs, k)) => Ok((seq![g] + cs, k)),
                }
            } else {
                Err(Seq::empty())
            },
        }
    } else if t is CloseParen {
        Ok((Seq::empty(), i + 1))
    } else {
        Err(unexpected_text(tks, i, "in parse_gametree"@))
    }
}

#[via_fn]
proof fn gametree_decreases(tks: Seq<TokenModel>, i: int) {
    lemma_skip_space(tks, i + 1);
    lemma_node_list(tks, skip_space(tks, i + 1));
    if let Ok((sq, j)) = sequence(tks, skip_space(tks, i + 1)) {
        lemma_skip_space(tks, j);
    }
}

#[via_fn]
proof fn variations_decreases(tks: Seq<TokenModel>, i: int) {
    assert forall|j: int| i < j <= tks.len() implies j <= #[trigger] skip_space(tks, j) <= tks.len() by {
        lemma_skip_space(tks, j);
    }
}

/// The game trees from `i` on, with the space after each skipped, as long as a `(` comes.
pub open spec fn gametree_list(tks: Seq<TokenModel>, i: int) -> Result<
    (Seq<GameTreeModel>, int),
    Seq<char>,
>
    decreases tks.len() - i,
    via gametree_list_decreases
{
    if tok_at(tks, i) is OpenParen {
        match gametree(tks, i) {
            Err(e) => Err(e),
            Ok((g, j)) => if i < j <= tks.len() {
                match gametree_list(tks, skip_space(tks, j)) {
                    Err(e) => Err(e),
                    Ok((gs, k)) => Ok((seq![g] + gs, k)),
                }
            } else {
                Err(Seq::empty())
            },
        }
    } else {
        Ok((Seq::empty(), i))
    }
}

#[via_fn]
proof fn gametree_list_decreases(tks: Seq<TokenModel>, i: int) {
    assert forall|j: int| i < j <= tks.len() implies j <= #[trigger] skip_space(tks, j) <= tks.len() by {
        lemma_skip_space(tks, j);
    }
}

/// A collection from `i` on: space and anything before the first `(` skipped, then at least
/// one game tree, with the space between trees skipped.
pub open spec fn collection(tks: Seq<TokenModel>, i: int) -> Result<Seq<GameTreeModel>, Seq<char>> {
    match gametree_list(tks, skip_garbage(tks, skip_space(tks, i))) {
        Err(e) => Err(e),
        Ok((gs, j)) => if gs.len() == 0 {
            Err(error_text(tks, j, "cannot have empty collection"@))
        } else {
            Ok(gs)
        },
    }
}

/// What parsing the text `s` gives: its tokens' collection, or the first error.
pub open spec fn parse_text(s: Seq<char>) -> Result<Seq<GameTreeModel>, Seq<char>> {
    match scan_from(s, 0) {
        Err(e) => Err(e),
        Ok(tks) => collection(tks, 0),
    }
}

pub proof fn lemma_skip_space(tks: Seq<TokenModel>, i: int)
    ensures
        i <= skip_space(tks, i),
        i <= tks.len() ==> skip_space(tks, i) <= tks.len(),
        !is_space(tok_at(tks, skip_space(tks, i))),
    decreases tks.len() - i,
{
    if 0 <= i < tks.len() && is_space(tks[i]) {
        lemma_skip_space(tks, i + 1);
    }
}

pub proof fn lemma_value_body(tks: Seq<TokenModel>, i: int)
    ensures
        value_body(tks, i) matches Ok((v, j)) ==> i <= j < tks.len() && tok_at(tks, j) is CloseSquare,
    decreases tks.len() - i,
{
    let t = tok_at(tks, i);
    if !(t is CloseSquare) && !(t is Eof) {
        lemma_value_body(tks, i + 1);
    }
}

/// A value is the text of the tokens between its brackets, verbatim.
pub proof fn lemma_value_verbatim(tks: Seq<TokenModel>, i: int)
    ensures
        value_body(tks, i) matches Ok((v, j)) ==> 0 <= i <= j && v == texts(tks.subrange(i, j)),
    decreases tks.len() - i,
{
    let t = tok_at(tks, i);
    if t is CloseSquare {
        assert(tks.subrange(i, i) =~= Seq::<TokenModel>::empty());
    } else if !(t is Eof) {
        lemma_value_verbatim(tks, i + 1);
        lemma_value_body(tks, i + 1);
        if let Ok((v, j)) = value_body(tks, i + 1) {
            assert(tks.subrange(i, j).drop_first() =~= tks.subrange(i + 1, j));
            assert(tks.subrange(i, j)[0] == t);
        }
    }
}

pub proof fn lemma_value_list(tks: Seq<TokenModel>, i: int)
    ensures
        value_list(tks, i) matches Ok((vs, j)) ==> i <= j && (i <= tks.len() ==> j <= tks.len()),
    decreases tks.len() - i,
{
    if tok_at(tks, i) is OpenSquare {
        lemma_value_body(tks, i + 1);
        if let Ok((v, j)) = prop_value(tks, i) {
            lemma_skip_space(tks, j);
            lemma_value_list(tks, skip_space(tks, j));
        }
    }
}

pub proof fn lemma_property_list(tks: Seq<TokenModel>, i: int)
    ensures
        property_list(tks, i) matches Ok((ps, j)) ==> i <= j && (i <= tks.len() ==> j <= tks.len()),
    decreases tks.len() - i,
{
    if tok_at(tks, i) is UcLetter {
        lemma_skip_space(tks, i + 1);
        lemma_value_list(tks, skip_space(tks, i + 1));
        if let Ok((p, j)) = property(tks, i) {
            lemma_skip_space(tks, j);
            lemma_property_list(tks, skip_space(tks, j));
        }
    }
}

pub proof fn lemma_node_list(tks: Seq<TokenModel>, i: int)
    ensures
        node_list(tks, i) matches Ok((ns, j)) ==> i <= j && (i <= tks.len() ==> j <= tks.len()),
    decreases tks.len() - i,
{
    if tok_at(tks, i) is Semicolon {
        lemma_skip_space(tks, i + 1);
        lemma_property_list(tks, skip_space(tks, i + 1));
        if let Ok((n, j)) = node(tks, i) {
            lemma_skip_space(tks, j);
            lemma_node_list(tks, skip_space(tks, j));
        }
    }
}

impl Error {
    pub open spec fn text(self) -> Seq<char> {
        match self {
            Error::ParseError(m) => m@,
            Error::Eof => "EOF"@,
        }
    }

    /// The message of the error.
    pub fn to_text(&self) -> (r: String)
        ensures
            r@ == self.text(),
    {
        match self {
            Error::ParseError(m) => m.clone(),
            Error::Eof => "EOF".to_owned(),
        }
    }
}

/// Builds a tree from tokens by recursive descent, with a cursor over the tokens.
pub struct Parser {
    tokens: Vec<Token>,
    cur: usize,
}

impl Parser {
    /// The tokens being parsed.
    pub closed spec fn tokens(&self) -> Seq<TokenModel> {
        tokens_model(self.tokens@)
    }

    /// How many tokens have been read.
    pub closed spec fn cursor(&self) -> int {
        self.cur as int
    }

    pub closed spec fn wf(&self) -> bool {
        self.cur <= self.tokens.len()
    }

    /// Scans `data` and sets the cursor on its first token; a scan error becomes a parse error
    /// with the same message.
    pub fn new(data: &str) -> (r: Result<Parser, Error>)
        requires
            data@.len() < u32::MAX,
        ensures
            match scan_from(data@, 0) {
                Ok(ts) => r matches Ok(p) && p.wf() && p.tokens() == ts && p.cursor() == 0,
                Err(e) => r matches Err(Error::ParseError(m)) && m@ == e,
            },
    {
        let mut scanner = Scanner::new(data);
        match scanner.scan() {
            Ok(tokens) => Ok(Parser { tokens, cur: 0 }),
            Err(e) => Err(Error::ParseError(e.to_text())),
        }
    }

    /// The token `n` places after the cursor, or `Eof` past the end.
    pub fn peek(&mut self, n: usize) -> (r: Token)
        requires
            old(self).wf(),
        ensures
            *final(self) == *old(self),
            r@ == tok_at(old(self).tokens(), old(self).cursor() + n),
    {
        if n < self.tokens.len() && self.cur < self.tokens.len() - n {
            self.tokens[self.cur + n].cloned()
        } else {
            Token::Eof
        }
    }

    /// Reads the token at the cursor (`Eof` past the end) and moves past it.
    pub fn read(&mut self) -> (r: Token)
        requires
            old(self).wf(),
        ensures
            final(self).wf(),
            final(self).tokens() == old(self).tokens(),
            r@ == tok_at(old(self).tokens(), old(self).cursor()),
            final(self).cursor() == if old(self).cursor() < old(self).tokens().len() {
                old(self).cursor() + 1
            } else {
                old(self).cursor()
            },
    {
        let ret = self.cur;
        if ret >= self.tokens.len() {
            return Token::Eof;
        }
        self.cur = self.cur + 1;
        self.tokens[ret].cloned()
    }

    /// The error `msg`, at the position of the token under the cursor (or of the last token).
    pub fn create_error(&mut self, msg: &str) -> (r: Error)
        requires
            old(self).wf(),
        ensures
            *final(self) == *old(self),
            r matches Error::ParseError(m) && m@ == error_text(
                old(self).tokens(),
                old(self).cursor(),
                msg@,
            ),
    {
        if self.tokens.len() == 0 {
            return Error::ParseError("empty file".to_owned());
        }
        let p = if self.cur >= self.tokens.len() {
            self.tokens[self.tokens.len() - 1].position()
        } else {
            self.tokens[self.cur].position()
        };
        let mut out: Vec<char> = Vec::new();
        push_text(&mut out, "parse_error at (");
        push_decimal(&mut out, p.row as u64);
        out.push(':');
        push_decimal(&mut out, p.col as u64);
        push_text(&mut out, "): ");
        push_text(&mut out, msg);
        proof {
            reveal_strlit("parse_error at (");
            reveal_strlit("parse_error at ");
            reveal_strlit("): ");
            reveal_strlit(": ");
        }
        assert(out@ =~= error_text(self.tokens(), self.cur as int, msg@));
        Error::ParseError(string_of(&out))
    }

    /// Reads the token under the cursor and reports it as unexpected.
    pub fn unexpected(&mut self, msg: &str) -> (r: Error)
        requires
            old(self).wf(),
        ensures
            final(self).wf(),
            final(self).tokens() == old(self).tokens(),
            r matches Error::ParseError(m) && m@ == unexpected_text(
                old(self).tokens(),
                old(self).cursor(),
                msg@,
            ),
    {
        let t = self.read();
        let mut text: Vec<char> = Vec::new();
        push_text(&mut text, "unexpected ");
        t.write_to(&mut text);
        text.push(' ');
        push_text(&mut text, msg);
        let s = string_of(&text);
        proof {
            reveal_strlit("unexpected ");
            reveal_strlit(" ");
            assert(s@ =~= "unexpected "@ + tok_at(old(self).tokens(), old(self).cursor()).text() + " "@
                + msg@);
        }
        self.create_error(s.as_str())
    }

    /// Moves the cursor past whitespace and newline tokens.
    pub fn consume_whitespace(&mut self)
        requires
            old(self).wf(),
        ensures
            final(self).wf(),
            final(self).tokens() == old(self).tokens(),
            final(self).cursor() == skip_space(old(self).tokens(), old(self).cursor()),
    {
        let ghost tks = self.tokens();
        let start: usize = self.cur;
        loop
            invariant
                self.wf(),
                self.tokens() == tks,
                start <= self.cur,
                skip_space(tks, self.cur as int) == skip_space(tks, start as int),
            ensures
                skip_space(tks, self.cur as int) == self.cur,
            decreases tks.len() - self.cur,
        {
            match self.peek(0) {
                Token::Whitespace(_) | Token::Newline(..) => {
                    self.read();
                },
                _ => break,
            }
        }
    }
}

impl Parser {
    /// A bracketed value: the text of every token up to the closing `]`.
    pub fn parse_propvalue(&mut self) -> (r: Result<String, Error>)
        requires
            old(self).wf(),
        ensures
            final(self).wf(),
            final(self).tokens() == old(self).tokens(),
            match prop_value(old(self).tokens(), old(self).cursor()) {
                Ok((v, j)) => r matches Ok(s) && s@ == v && final(self).cursor() == j,
                Err(e) => r matches Err(Error::ParseError(m)) && m@ == e,
            },
            r matches Ok(s) ==> s@ == texts(
                old(self).tokens().subrange(old(self).cursor() + 1, final(self).cursor() - 1),
            ),
    {
        let ghost tks = self.tokens();
        proof {
            lemma_value_verbatim(tks, old(self).cursor() + 1);
        }
        match self.peek(0) {
            Token::OpenSquare(_) => {
                self.read();
            },
            _ => return Err(self.unexpected("needed '[' in parse_propvalue")),
        }
        let start: usize = self.cur;
        let mut text: Vec<char> = Vec::new();
        loop
            invariant
                self.wf(),
                self.tokens() == tks,
                old(self).tokens() == tks,
                start == old(self).cursor() + 1,
                tok_at(tks, old(self).cursor()) is OpenSquare,
                start <= self.cur,
                value_body(tks, start as int) == match value_body(tks, self.cur as int) {
                    Ok((v, j)) => Ok((text@ + v, j)),
                    Err(e) => Err(e),
                },
            ensures
                tok_at(tks, self.cur as int) is CloseSquare,
            decreases tks.len() - self.cur,
        {
            let t = self.peek(0);
            match t {
                Token::CloseSquare(_) => break,
                Token::Eof => {
                    proof {
                        assert(value_body(tks, self.cur as int) == Err::<(Seq<char>, int), Seq<char>>(
                            unexpected_text(tks, self.cur as int, "eof while waiting for ']'"@),
                        ));
                    }
                    return Err(self.unexpected("eof while waiting for ']'"));
                },
                _ => {
                    let ghost before = text@;
                    t.write_to(&mut text);
                    self.read();
                    proof {
                        if let Ok((v, j)) = value_body(tks, self.cur as int) {
                            assert(before + (t@.text() + v) =~= text@ + v);
                        }
                    }
                },
            }
        }
        self.read();
        proof {
            assert(text@ + Seq::<char>::empty() =~= text@);
        }
        Ok(string_of(&text))
    }

    /// An upper-case identifier, read from under the cursor.
    pub fn parse_propident(&mut self) -> (r: Result<String, Error>)
        requires
            old(self).wf(),
        ensures
            final(self).wf(),
            final(self).tokens() == old(self).tokens(),
            final(self).cursor() == if old(self).cursor() < old(self).tokens().len() {
                old(self).cursor() + 1
            } else {
                old(self).cursor()
            },
            match tok_at(old(self).tokens(), old(self).cursor()) {
                TokenModel::UcLetter(_, name) => r matches Ok(s) && s@ == name,
                _ => r matches Err(Error::ParseError(m)) && m@ == error_text(
                    old(self).tokens(),
                    old(self).cursor() + 1,
                    "expected uppercase identifier"@,
                ),
            },
    {
        match self.read() {
            Token::UcLetter(_, s) => Ok(s),
            _ => Err(self.create_error("expected uppercase identifier")),
        }
    }

    /// A property: its identifier, then one or more values.
    pub fn parse_property(&mut self) -> (r: Result<Property, Error>)
        requires
            old(self).wf(),
        ensures
            final(self).wf(),
            final(self).tokens() == old(self).tokens(),
            match property(old(self).tokens(), old(self).cursor()) {
                Ok((p, j)) => r matches Ok(x) && x@ == p && final(self).cursor() == j,
                Err(e) => r matches Err(Error::ParseError(m)) && m@ == e,
            },
    {
        let ghost tks = self.tokens();
        let ident = match self.parse_propident() {
            Ok(s) => s,
            Err(e) => return Err(e),
        };
        self.consume_whitespace();
        let start: usize = self.cur;
        let mut values: Vec<String> = Vec::new();
        let ghost mut acc: Seq<Seq<char>> = Seq::empty();
        loop
            invariant
                self.wf(),
                self.tokens() == tks,
                old(self).tokens() == tks,
                tok_at(tks, old(self).cursor()) is UcLetter,
                ident@ == tok_at(tks, old(self).cursor())->UcLetter_1,
                start == skip_space(tks, old(self).cursor() + 1),
                start <= self.cur,
                values.len() == acc.len(),
                forall|k: int| 0 <= k < acc.len() ==> #[trigger] values@[k]@ == acc[k],
                value_list(tks, start as int) == match value_list(tks, self.cur as int) {
                    Ok((vs, j)) => Ok((acc + vs, j)),
                    Err(e) => Err(e),
                },
            ensures
                !(tok_at(tks, self.cur as int) is OpenSquare),
            decreases tks.len() - self.cur,
        {
            match self.peek(0) {
                Token::OpenSquare(_) => {
                    proof {
                        lemma_value_body(tks, self.cur + 1);
                    }
                    let v = match self.parse_propvalue() {
                        Ok(v) => v,
                        Err(e) => return Err(e),
                    };
                    let ghost before = acc;
                    proof {
                        acc = acc.push(v@);
                    }
                    values.push(v);
                    let ghost mid = self.cur as int;
                    self.consume_whitespace();
                    proof {
                        lemma_skip_space(tks, mid);
                    }
                    proof {
                        if let Ok((vs, j)) = value_list(tks, self.cur as int) {
                            assert(before + (seq![v@] + vs) =~= acc + vs);
                        }
                    }
                },
                _ => break,
            }
        }
        proof {
            assert(acc + Seq::<Seq<char>>::empty() =~= acc);
        }
        if values.len() == 0 {
            return Err(self.create_error("cannot have empty property list"));
        }
        let r = Property { ident, values };
        assert(r@.values =~= acc);
        Ok(r)
    }
}

impl Parser {
    /// A node: `;`, then its properties.
    pub fn parse_node(&mut self) -> (r: Result<Node, Error>)
        requires
            old(self).wf(),
            tok_at(old(self).tokens(), old(self).cursor()) is Semicolon,
        ensures
            final(self).wf(),
            final(self).tokens() == old(self).tokens(),
            match node(old(self).tokens(), old(self).cursor()) {
                Ok((n, j)) => r matches Ok(x) && x@ == n && final(self).cursor() == j,
                Err(e) => r matches Err(Error::ParseError(m)) && m@ == e,
            },
    {
        let ghost tks = self.tokens();
        self.read();
        self.consume_whitespace();
        let start: usize = self.cur;
        let mut props: Vec<Property> = Vec::new();
        let ghost mut acc: Seq<PropertyModel> = Seq::empty();
        loop
            invariant
                self.wf(),
                self.tokens() == tks,
                old(self).tokens() == tks,
                start == skip_space(tks, old(self).cursor() + 1),
                start <= self.cur,
                props.len() == acc.len(),
                forall|k: int| 0 <= k < acc.len() ==> #[trigger] props@[k]@ == acc[k],
                property_list(tks, start as int) == match property_list(tks, self.cur as int) {
                    Ok((ps, j)) => Ok((acc + ps, j)),
                    Err(e) => Err(e),
                },
            ensures
                !(tok_at(tks, self.cur as int) is UcLetter),
            decreases tks.len() - self.cur,
        {
            match self.peek(0) {
                Token::UcLetter(..) => {
                    proof {
                        lemma_skip_space(tks, self.cur + 1);
                        lemma_value_list(tks, skip_space(tks, self.cur + 1));
                    }
                    let p = match self.parse_property() {
                        Ok(p) => p,
                        Err(e) => return Err(e),
                    };
                    let ghost before = acc;
                    proof {
                        acc = acc.push(p@);
                    }
                    props.push(p);
                    let ghost mid = self.cur as int;
                    self.consume_whitespace();
                    proof {
                        lemma_skip_space(tks, mid);
                        if let Ok((ps, j)) = property_list(tks, self.cur as int) {
                            assert(before + (seq![acc.last()] + ps) =~= acc + ps);
                        }
                    }
                },
                _ => break,
            }
        }
        proof {
            assert(acc + Seq::<PropertyModel>::empty() =~= acc);
        }
        let r = Node { props };
        assert(r@ =~= acc);
        Ok(r)
    }

    /// A sequence: one or more nodes.
    pub fn parse_sequence(&mut self) -> (r: Result<Sequence, Error>)
        requires
            old(self).wf(),
        ensures
            final(self).wf(),
            final(self).tokens() == old(self).tokens(),
            match sequence(old(self).tokens(), old(self).cursor()) {
                Ok((sq, j)) => r matches Ok(x) && x@ == sq && final(self).cursor() == j,
                Err(e) => r matches Err(Error::ParseError(m)) && m@ == e,
            },
    {
        let ghost tks = self.tokens();
        let start: usize = self.cur;
        let mut nodes: Vec<Node> = Vec::new();
        let ghost mut acc: Seq<Seq<PropertyModel>> = Seq::empty();
        loop
            invariant
                self.wf(),
                self.tokens() == tks,
                old(self).tokens() == tks,
                start == old(self).cursor(),
                start <= self.cur,
                nodes.len() == acc.len(),
                forall|k: int| 0 <= k < acc.len() ==> #[trigger] nodes@[k]@ == acc[k],
                node_list(tks, start as int) == match node_list(tks, self.cur as int) {
                    Ok((ns, j)) => Ok((acc + ns, j)),
                    Err(e) => Err(e),
                },
            ensures
                !(tok_at(tks, self.cur as int) is Semicolon),
            decreases tks.len() - self.cur,
        {
            match self.peek(0) {
                Token::Semicolon(_) => {
                    proof {
                        lemma_skip_space(tks, self.cur + 1);
                        lemma_property_list(tks, skip_space(tks, self.cur + 1));
                    }
                    let n = match self.parse_node() {
                        Ok(n) => n,
                        Err(e) => return Err(e),
                    };
                    let ghost before = acc;
                    proof {
                        acc = acc.push(n@);
                    }
                    nodes.push(n);
                    let ghost mid = self.cur as int;
                    self.consume_whitespace();
                    proof {
                        lemma_skip_space(tks, mid);
                        if let Ok((ns, j)) = node_list(tks, self.cur as int) {
                            assert(before + (seq![acc.last()] + ns) =~= acc + ns);
                        }
                    }
                },
                _ => break,
            }
        }
        proof {
            assert(acc + Seq::<Seq<PropertyModel>>::empty() =~= acc);
        }
        if nodes.len() == 0 {
            return Err(self.create_error("cannot have empty node list"));
        }
        let r = Sequence { nodes };
        assert(r@ =~= acc);
        Ok(r)
    }
}

impl Parser {
    /// A game tree: `(`, a sequence, then variations until the closing `)`.
    pub fn parse_gametree(&mut self) -> (r: Result<GameTree, Error>)
        requires
            old(self).wf(),
            tok_at(old(self).tokens(), old(self).cursor()) is OpenParen,
        ensures
            final(self).wf(),
            final(self).tokens() == old(self).tokens(),
            match gametree(old(self).tokens(), old(self).cursor()) {
                Ok((g, j)) => r matches Ok(x) && x@ == g && final(self).cursor() == j
                    && old(self).cursor() < j <= old(self).tokens().len(),
                Err(e) => r matches Err(Error::ParseError(m)) && m@ == e,
            },
        decreases old(self).tokens().len() - old(self).cursor(),
    {
        let ghost tks = self.tokens();
        let first: usize = self.cur;
        self.read();
        self.consume_whitespace();
        proof {
            lemma_skip_space(tks, first + 1);
            lemma_node_list(tks, self.cur as int);
        }
        let seq = match self.parse_sequence() {
            Ok(s) => s,
            Err(e) => return Err(e),
        };
        let ghost mid = self.cur as int;
        self.consume_whitespace();
        proof {
            lemma_skip_space(tks, mid);
        }
        let start: usize = self.cur;
        let mut trees: Vec<Box<GameTree>> = Vec::new();
        let ghost mut acc: Seq<GameTreeModel> = Seq::empty();
        loop
            invariant_except_break
                variations(tks, start as int) == match variations(tks, self.cur as int) {
                    Ok((cs, j)) => Ok((acc + cs, j)),
                    Err(e) => Err(e),
                },
            invariant
                self.wf(),
                self.tokens() == tks,
                old(self).tokens() == tks,
                old(self).cursor() == first,
                tok_at(tks, first as int) is OpenParen,
                sequence(tks, skip_space(tks, first + 1)) matches Ok((sq, j)) && sq == seq@
                    && start == skip_space(tks, j),
                first < start <= self.cur,
                trees.len() == acc.len(),
                forall|k: int| 0 <= k < acc.len() ==> #[trigger] trees@[k].model() == acc[k],
            ensures
                variations(tks, start as int) == Ok::<(Seq<GameTreeModel>, int), Seq<char>>(
                    (acc, self.cur as int),
                ),
            decreases tks.len() - self.cur,
        {
            match self.peek(0) {
                Token::OpenParen(_) => {
                    let child = match self.parse_gametree() {
                        Ok(t) => t,
                        Err(e) => return Err(e),
                    };
                    let ghost before = acc;
                    proof {
                        acc = acc.push(child@);
                    }
                    trees.push(Box::new(child));
                    let ghost after = self.cur as int;
                    self.consume_whitespace();
                    proof {
                        lemma_skip_space(tks, after);
                        if let Ok((cs, j)) = variations(tks, self.cur as int) {
                            assert(before + (seq![acc.last()] + cs) =~= acc + cs);
                        }
                    }
                },
                Token::CloseParen(_) => {
                    self.read();
                    proof {
                        assert(acc + Seq::<GameTreeModel>::empty() =~= acc);
                    }
                    break;
                },
                _ => return Err(self.unexpected("in parse_gametree")),
            }
        }
        let r = GameTree { sequence: seq, gametrees: trees };
        assert forall|k: int| 0 <= k < acc.len() implies r@.children[k] == acc[k] by {
            assert(r@.children[k] == r.gametrees@[k].model());
        }
        assert(r@.children =~= acc);
        Ok(r)
    }
}

impl Parser {
    /// A collection: space and anything before the first `(` skipped, then one or more game
    /// trees, with the space between them skipped.
    pub fn parse(&mut self) -> (r: Result<Collection, Error>)
        requires
            old(self).wf(),
        ensures
            match collection(old(self).tokens(), old(self).cursor()) {
                Ok(c) => r matches Ok(x) && x@ == c,
                Err(e) => r matches Err(Error::ParseError(m)) && m@ == e,
            },
    {
        let ghost tks = self.tokens();
        self.consume_whitespace();
        let ghost spaced = self.cur as int;
        proof {
            lemma_skip_space(tks, old(self).cursor());
        }
        loop
            invariant
                self.wf(),
                self.tokens() == tks,
                spaced <= self.cur,
                skip_garbage(tks, self.cur as int) == skip_garbage(tks, spaced),
            ensures
                skip_garbage(tks, self.cur as int) == self.cur,
            decreases tks.len() - self.cur,
        {
            match self.peek(0) {
                Token::OpenParen(_) => break,
                Token::Eof => break,
                _ => {
                    self.read();
                },
            }
        }
        let start: usize = self.cur;
        let mut gametrees: Vec<GameTree> = Vec::new();
        let ghost mut acc: Seq<GameTreeModel> = Seq::empty();
        loop
            invariant
                self.wf(),
                self.tokens() == tks,
                old(self).tokens() == tks,
                start == skip_garbage(tks, skip_space(tks, old(self).cursor())),
                start <= self.cur,
                gametrees.len() == acc.len(),
                forall|k: int| 0 <= k < acc.len() ==> #[trigger] gametrees@[k]@ == acc[k],
                gametree_list(tks, start as int) == match gametree_list(tks, self.cur as int) {
                    Ok((gs, j)) => Ok((acc + gs, j)),
                    Err(e) => Err(e),
                },
            ensures
                !(tok_at(tks, self.cur as int) is OpenParen),
            decreases tks.len() - self.cur,
        {
            match self.peek(0) {
                Token::OpenParen(_) => {
                    let t = match self.parse_gametree() {
                        Ok(t) => t,
                        Err(e) => return Err(e),
                    };
                    let ghost before = acc;
                    proof {
                        acc = acc.push(t@);
                    }
                    gametrees.push(t);
                    let ghost after = self.cur as int;
                    self.consume_whitespace();
                    proof {
                        lemma_skip_space(tks, after);
                        if let Ok((gs, j)) = gametree_list(tks, self.cur as int) {
                            assert(before + (seq![acc.last()] + gs) =~= acc + gs);
                        }
                    }
                },
                _ => break,
            }
        }
        proof {
            assert(acc + Seq::<GameTreeModel>::empty() =~= acc);
        }
        if gametrees.len() == 0 {
            return Err(self.create_error("cannot have empty collection"));
        }
        let r = Collection { gametrees };
        assert(r@ =~= acc);
        Ok(r)
    }
}

/// Parses the text `data` into a collection: scans it, then parses its tokens.
pub fn parse(data: &str) -> (r: Result<Collection, Error>)
    requires
        data@.len() < u32::MAX,
    ensures
        match parse_text(data@) {
            Ok(c) => r matches Ok(x) && x@ == c,
            Err(e) => r matches Err(Error::ParseError(m)) && m@ == e,
        },
        r matches Ok(x) ==> collection_wf(x@),
{
    proof {
        lemma_parse_well_formed(data@);
    }
    match Parser::new(data) {
        Ok(mut p) => p.parse(),
        Err(e) => Err(e),
    }
}

/// A successful `variations` moves forward and stays within the tokens.
pub proof fn lemma_variations_advances(tks: Seq<TokenModel>, i: int)
    ensures
        variations(tks, i) matches Ok((cs, k)) ==> i < k <= tks.len(),
    decreases tks.len() - i,
{
    if tok_at(tks, i) is OpenParen {
        if let Ok((g, j)) = gametree(tks, i) {
            if i < j <= tks.len() {
                lemma_skip_space(tks, j);
                lemma_variations_advances(tks, skip_space(tks, j));
            }
        }
    }
}

/// A successful `gametree` moves forward and stays within the tokens.
pub proof fn lemma_gametree_advances(tks: Seq<TokenModel>, i: int)
    ensures
        gametree(tks, i) matches Ok((g, j)) ==> i < j <= tks.len(),
{
    lemma_skip_space(tks, i + 1);
    lemma_node_list(tks, skip_space(tks, i + 1));
    if let Ok((sq, j)) = sequence(tks, skip_space(tks, i + 1)) {
        lemma_skip_space(tks, j);
        lemma_variations_advances(tks, skip_space(tks, j));
    }
}

proof fn lemma_property_list_wf(tks: Seq<TokenModel>, i: int)
    requires
        upper_idents(tks),
    ensures
        property_list(tks, i) matches Ok((ps, j)) ==> node_wf(ps),
    decreases tks.len() - i,
{
    if tok_at(tks, i) is UcLetter {
        lemma_skip_space(tks, i + 1);
        lemma_value_list(tks, skip_space(tks, i + 1));
        if let Ok((p, j)) = property(tks, i) {
            lemma_skip_space(tks, j);
            lemma_property_list_wf(tks, skip_space(tks, j));
            if let Ok((ps, k)) = property_list(tks, skip_space(tks, j)) {
                assert forall|m: int| 0 <= m < (seq![p] + ps).len() implies (#[trigger] (seq![p]
                    + ps)[m]).wf() by {
                    if m > 0 {
                        assert((seq![p] + ps)[m] == ps[m - 1]);
                    }
                }
            }
        }
    }
}

proof fn lemma_node_list_wf(tks: Seq<TokenModel>, i: int)
    requires
        upper_idents(tks),
    ensures
        node_list(tks, i) matches Ok((ns, j)) ==> forall|m: int|
            0 <= m < ns.len() ==> node_wf(#[trigger] ns[m]),
    decreases tks.len() - i,
{
    if tok_at(tks, i) is Semicolon {
        lemma_skip_space(tks, i + 1);
        lemma_property_list(tks, skip_space(tks, i + 1));
        lemma_property_list_wf(tks, skip_space(tks, i + 1));
        if let Ok((n, j)) = node(tks, i) {
            lemma_skip_space(tks, j);
            lemma_node_list_wf(tks, skip_space(tks, j));
            if let Ok((ns, k)) = node_list(tks, skip_space(tks, j)) {
                assert forall|m: int| 0 <= m < (seq![n] + ns).len() implies node_wf(
                    #[trigger] (seq![n] + ns)[m],
                ) by {
                    if m > 0 {
                        assert((seq![n] + ns)[m] == ns[m - 1]);
                    }
                }
            }
        }
    }
}

proof fn lemma_gametree_wf(tks: Seq<TokenModel>, i: int)
    requires
        upper_idents(tks),
    ensures
        gametree(tks, i) matches Ok((g, j)) ==> g.wf(),
    decreases tks.len() - i, 0int,
{
    lemma_skip_space(tks, i + 1);
    lemma_node_list(tks, skip_space(tks, i + 1));
    lemma_node_list_wf(tks, skip_space(tks, i + 1));
    if let Ok((sq, j)) = sequence(tks, skip_space(tks, i + 1)) {
        lemma_skip_space(tks, j);
        lemma_variations_wf(tks, skip_space(tks, j));
    }
}

proof fn lemma_variations_wf(tks: Seq<TokenModel>, i: int)
    requires
        upper_idents(tks),
    ensures
        variations(tks, i) matches Ok((cs, k)) ==> forall|m: int|
            0 <= m < cs.len() ==> (#[trigger] cs[m]).wf(),
    decreases tks.len() - i, 1int,
{
    if tok_at(tks, i) is OpenParen {
        lemma_gametree_wf(tks, i);
        if let Ok((g, j)) = gametree(tks, i) {
            if i < j <= tks.len() {
                lemma_skip_space(tks, j);
                lemma_variations_wf(tks, skip_space(tks, j));
                if let Ok((cs, k)) = variations(tks, skip_space(tks, j)) {
                    assert forall|m: int| 0 <= m < (seq![g] + cs).len() implies (#[trigger] (seq![g]
                        + cs)[m]).wf() by {
                        if m > 0 {
                            assert((seq![g] + cs)[m] == cs[m - 1]);
                        }
                    }
                }
            }
        }
    }
}

proof fn lemma_gametree_list_wf(tks: Seq<TokenModel>, i: int)
    requires
        upper_idents(tks),
    ensures
        gametree_list(tks, i) matches Ok((gs, k)) ==> forall|m: int|
            0 <= m < gs.len() ==> (#[trigger] gs[m]).wf(),
    decreases tks.len() - i,
{
    if tok_at(tks, i) is OpenParen {
        lemma_gametree_wf(tks, i);
        if let Ok((g, j)) = gametree(tks, i) {
            if i < j <= tks.len() {
                lemma_skip_space(tks, j);
                lemma_gametree_list_wf(tks, skip_space(tks, j));
                if let Ok((gs, k)) = gametree_list(tks, skip_space(tks, j)) {
                    assert forall|m: int| 0 <= m < (seq![g] + gs).len() implies (#[trigger] (seq![g]
                        + gs)[m]).wf() by {
                        if m > 0 {
                            assert((seq![g] + gs)[m] == gs[m - 1]);
                        }
                    }
                }
            }
        }
    }
}

/// Whatever the text, a successful parse has at least one game tree, every sequence in it has
/// at least one node, and every property a non-empty upper-case identifier and at least one
/// value.
pub proof fn lemma_parse_well_formed(s: Seq<char>)
    ensures
        parse_text(s) matches Ok(c) ==> collection_wf(c),
{
    lemma_scan_upper(s, 0);
    if let Ok(tks) = scan_from(s, 0) {
        lemma_gametree_list_wf(tks, skip_garbage(tks, skip_space(tks, 0)));
    }
}

} // verus!
