//! Recursive-descent parser of configuration files.
//!
//! The functions of [`Parser`] are stated over a list of tokens and a position
//! in it: each says what it makes of the tokens from there on, where it stops,
//! and which messages it leaves.

use super::directive::{
    apply_directive, apply_route_directive, at_line, between, push_all, push_error, route_after,
    server_after,
};
use super::lexer::{lex, tokenize, tokens, Lexed, LexedView, Tok, TokView};
use super::{
    default_route, default_server, route_views, server_views, Config, ParseOutcome, Route,
    RouteView, ServerConfig, ServerView,
};
use crate::numbers::{decimal, push_decimal};
use crate::text::{concat3, str_eq, texts};
use vstd::prelude::*;

verus! {

/// What a parsing function makes of the tokens, the position at which it
/// stops, and its messages.
#[verifier::ext_equal]
pub ghost struct Parsed<T> {
    pub value: T,
    pub next: int,
    pub errors: Seq<Seq<char>>,
}

/// The name of a token in messages.
pub open spec fn described(tok: TokView) -> Seq<char> {
    match tok {
        TokView::Word(w) => between("'"@, w, "'"@),
        TokView::Open => "'{'"@,
        TokView::Close => "'}'"@,
        TokView::Semi => "';'"@,
    }
}

/// The line of the last token; zero where there is none.
pub open spec fn final_line(toks: Seq<LexedView>) -> int {
    if toks.len() == 0 {
        0
    } else {
        toks.last().line
    }
}

/// Whether there is a token at `pos` and it is the word `w`.
pub open spec fn word_at(toks: Seq<LexedView>, pos: int, w: Seq<char>) -> bool {
    0 <= pos < toks.len() && toks[pos].tok == TokView::Word(w)
}

/// The first position from `pos` on that holds no word.
pub open spec fn words_end(toks: Seq<LexedView>, pos: int) -> int
    decreases toks.len() - pos,
{
    if 0 <= pos < toks.len() && toks[pos].tok is Word {
        words_end(toks, pos + 1)
    } else {
        pos
    }
}

/// The words from position `a` up to position `b`.
pub open spec fn words_between(toks: Seq<LexedView>, a: int, b: int) -> Seq<Seq<char>> {
    Seq::new((b - a) as nat, |i: int| toks[a + i].tok->Word_0)
}

/// A directive: its name, its arguments and its line.
#[verifier::ext_equal]
pub ghost struct Directive {
    pub name: Seq<char>,
    pub args: Seq<Seq<char>>,
    pub line: int,
}

/// The directive at `pos`, where a word stands: the words up to the next
/// token of another kind, which should be a semicolon. Where it is not, that
/// is reported, and that token is left alone so that the block can go on
/// with it.
pub open spec fn directive_at(toks: Seq<LexedView>, pos: int) -> Parsed<Directive> {
    let end = words_end(toks, pos + 1);
    let closed = end < toks.len() && toks[end].tok is Semi;
    let name = toks[pos].tok->Word_0;
    Parsed {
        value: Directive {
            name,
            args: words_between(toks, pos + 1, end),
            line: toks[pos].line,
        },
        next: if closed {
            end + 1
        } else {
            end
        },
        errors: if closed {
            seq![]
        } else {
            seq![at_line(toks[pos].line, between("missing ';' after '"@, name, "' directive"@))]
        },
    }
}

/// Whether the token at `pos` opens the block of a `ctx`, and what is said
/// where it does not.
pub open spec fn opening_at(toks: Seq<LexedView>, pos: int, ctx: Seq<char>) -> Parsed<bool> {
    if pos < toks.len() {
        if toks[pos].tok is Open {
            Parsed { value: true, next: pos + 1, errors: seq![] }
        } else {
            Parsed {
                value: false,
                next: pos,
                errors: seq![
                    at_line(
                        toks[pos].line,
                        between("expected '{' after '"@, ctx, "', found "@) + described(
                            toks[pos].tok,
                        ),
                    ),
                ],
            }
        }
    } else {
        Parsed {
            value: false,
            next: pos,
            errors: seq![
                at_line(final_line(toks), between("expected '{' after '"@, ctx, "'"@)),
            ],
        }
    }
}

/// The rest of a `route` block from `pos` on, given what it said before.
pub open spec fn route_body(toks: Seq<LexedView>, pos: int, route: RouteView) -> Parsed<RouteView>
    decreases toks.len() - pos,
{
    if !(0 <= pos < toks.len()) {
        Parsed {
            value: route,
            next: pos,
            errors: seq![
                at_line(final_line(toks), "unterminated 'route' block (missing '}')"@),
            ],
        }
    } else {
        match toks[pos].tok {
            TokView::Close => Parsed { value: route, next: pos + 1, errors: seq![] },
            TokView::Word(_) => {
                let d = directive_at(toks, pos);
                let after = route_after(route, d.value.name, d.value.args, d.value.line);
                proof {
                    lemma_words_end(toks, pos + 1);
                }
                let rest = route_body(toks, d.next, after.0);
                Parsed { errors: d.errors + after.1 + rest.errors, ..rest }
            },
            other => {
                let msg = between("unexpected "@, described(other), " in 'route' block"@);
                let rest = route_body(toks, pos + 1, route);
                Parsed { errors: seq![at_line(toks[pos].line, msg)] + rest.errors, ..rest }
            },
        }
    }
}

/// The token that is taken for the path of the route whose keyword stands at
/// `pos`: the next one, or the keyword itself where the file ends with it.
pub open spec fn route_path_token(toks: Seq<LexedView>, pos: int) -> TokView {
    if pos + 1 < toks.len() {
        toks[pos + 1].tok
    } else {
        toks[pos].tok
    }
}

/// The `route` block whose keyword stands at `pos`.
pub open spec fn route_at(toks: Seq<LexedView>, pos: int) -> Parsed<Option<RouteView>> {
    let after_path = if pos + 1 < toks.len() {
        pos + 2
    } else {
        pos + 1
    };
    match route_path_token(toks, pos) {
        TokView::Word(path) => {
            let open = opening_at(toks, after_path, "route"@);
            if open.value {
                let body = route_body(toks, open.next, default_route(path));
                Parsed { value: Some(body.value), next: body.next, errors: body.errors }
            } else {
                Parsed { value: None, next: open.next, errors: open.errors }
            }
        },
        _ => Parsed {
            value: None,
            next: after_path,
            errors: seq![at_line(toks[pos].line, "'route' requires a path"@)],
        },
    }
}

/// The rest of a `server` block from `pos` on, given what it said before.
pub open spec fn server_body(toks: Seq<LexedView>, pos: int, server: ServerView) -> Parsed<
    ServerView,
>
    decreases toks.len() - pos,
{
    if !(0 <= pos < toks.len()) {
        Parsed {
            value: server,
            next: pos,
            errors: seq![
                at_line(final_line(toks), "unterminated 'server' block (missing '}')"@),
            ],
        }
    } else {
        match toks[pos].tok {
            TokView::Close => Parsed { value: server, next: pos + 1, errors: seq![] },
            TokView::Word(w) => if w == "route"@ {
                let r = route_at(toks, pos);
                proof {
                    lemma_route_at(toks, pos);
                }
                let with = match r.value {
                    Some(route) => ServerView { routes: server.routes.push(route), ..server },
                    None => server,
                };
                let rest = server_body(toks, r.next, with);
                Parsed { errors: r.errors + rest.errors, ..rest }
            } else {
                let d = directive_at(toks, pos);
                let after = server_after(server, d.value.name, d.value.args, d.value.line);
                proof {
                    lemma_words_end(toks, pos + 1);
                }
                let rest = server_body(toks, d.next, after.0);
                Parsed { errors: d.errors + after.1 + rest.errors, ..rest }
            },
            other => {
                let msg = between("unexpected "@, described(other), " in 'server' block"@);
                let rest = server_body(toks, pos + 1, server);
                Parsed { errors: seq![at_line(toks[pos].line, msg)] + rest.errors, ..rest }
            },
        }
    }
}

/// The `server` block whose opening brace should stand at `pos`. A block
/// without a port is reported and dropped.
pub open spec fn server_at(toks: Seq<LexedView>, pos: int) -> Parsed<Option<ServerView>> {
    let open = opening_at(toks, pos, "server"@);
    if !open.value {
        Parsed { value: None, next: open.next, errors: open.errors }
    } else {
        let body = server_body(toks, open.next, default_server());
        if body.value.ports.len() == 0 {
            Parsed {
                value: None,
                next: body.next,
                errors: body.errors.push(
                    at_line(final_line(toks), "'server' block has no 'port'"@),
                ),
            }
        } else {
            Parsed { value: Some(body.value), next: body.next, errors: body.errors }
        }
    }
}

/// The `server` blocks from `pos` on.
pub open spec fn servers_from(toks: Seq<LexedView>, pos: int) -> Parsed<Seq<ServerView>>
    decreases toks.len() - pos,
{
    if !(0 <= pos < toks.len()) {
        Parsed { value: seq![], next: pos, errors: seq![] }
    } else if word_at(toks, pos, "server"@) {
        let s = server_at(toks, pos + 1);
        proof {
            lemma_server_at(toks, pos + 1);
        }
        let rest = servers_from(toks, s.next);
        Parsed {
            value: match s.value {
                Some(server) => seq![server] + rest.value,
                None => rest.value,
            },
            next: rest.next,
            errors: s.errors + rest.errors,
        }
    } else {
        let msg = "expected 'server', found "@ + described(toks[pos].tok);
        let rest = servers_from(toks, pos + 1);
        Parsed { errors: seq![at_line(toks[pos].line, msg)] + rest.errors, ..rest }
    }
}

/// `words_end` is a position from `pos` on, and all before it are words.
pub proof fn lemma_words_end(toks: Seq<LexedView>, pos: int)
    requires
        0 <= pos <= toks.len(),
    ensures
        pos <= words_end(toks, pos) <= toks.len(),
        forall|i: int| pos <= i < words_end(toks, pos) ==> (#[trigger] toks[i]).tok is Word,
        words_end(toks, pos) < toks.len() ==> !(toks[words_end(toks, pos)].tok is Word),
    decreases toks.len() - pos,
{
    if pos < toks.len() && toks[pos].tok is Word {
        lemma_words_end(toks, pos + 1);
    }
}

/// Parsing the body of a route goes forward, and not beyond the end.
pub proof fn lemma_route_body(toks: Seq<LexedView>, pos: int, route: RouteView)
    requires
        0 <= pos <= toks.len(),
    ensures
        pos <= route_body(toks, pos, route).next <= toks.len(),
    decreases toks.len() - pos,
{
    if pos < toks.len() {
        match toks[pos].tok {
            TokView::Close => {},
            TokView::Word(_) => {
                let d = directive_at(toks, pos);
                let after = route_after(route, d.value.name, d.value.args, d.value.line);
                lemma_words_end(toks, pos + 1);
                lemma_route_body(toks, d.next, after.0);
            },
            _ => {
                lemma_route_body(toks, pos + 1, route);
            },
        }
    }
}

/// Parsing a route goes forward, and not beyond the end.
pub proof fn lemma_route_at(toks: Seq<LexedView>, pos: int)
    requires
        0 <= pos < toks.len(),
    ensures
        pos < route_at(toks, pos).next <= toks.len(),
{
    let after_path = if pos + 1 < toks.len() {
        pos + 2
    } else {
        pos + 1
    };
    let open = opening_at(toks, after_path, "route"@);
    if route_path_token(toks, pos) is Word && open.value {
        lemma_route_body(toks, open.next, default_route(route_path_token(toks, pos)->Word_0));
    }
}

/// Parsing the body of a server goes forward, and not beyond the end.
pub proof fn lemma_server_body(toks: Seq<LexedView>, pos: int, server: ServerView)
    requires
        0 <= pos <= toks.len(),
    ensures
        pos <= server_body(toks, pos, server).next <= toks.len(),
    decreases toks.len() - pos,
{
    if pos < toks.len() {
        match toks[pos].tok {
            TokView::Close => {},
            TokView::Word(w) => {
                if w == "route"@ {
                    let r = route_at(toks, pos);
                    lemma_route_at(toks, pos);
                    let with = match r.value {
                        Some(route) => ServerView { routes: server.routes.push(route), ..server },
                        None => server,
                    };
                    lemma_server_body(toks, r.next, with);
                } else {
                    let d = directive_at(toks, pos);
                    let after = server_after(server, d.value.name, d.value.args, d.value.line);
                    lemma_words_end(toks, pos + 1);
                    lemma_server_body(toks, d.next, after.0);
                }
            },
            _ => {
                lemma_server_body(toks, pos + 1, server);
            },
        }
    }
}

/// Parsing a server goes forward, and not beyond the end.
pub proof fn lemma_server_at(toks: Seq<LexedView>, pos: int)
    requires
        0 <= pos <= toks.len(),
    ensures
        pos <= server_at(toks, pos).next <= toks.len(),
{
    let open = opening_at(toks, pos, "server"@);
    if open.value {
        lemma_server_body(toks, open.next, default_server());
    }
}

/// Names a token in a message.
pub fn describe(tok: &Tok) -> (r: String)
    ensures
        r@ == described(tok@),
{
    match tok {
        Tok::Word(w) => concat3("'", w.as_str(), "'"),
        Tok::Open => "'{'".to_owned(),
        Tok::Close => "'}'".to_owned(),
        Tok::Semi => "';'".to_owned(),
    }
}

/// A parser: the tokens, the position, and the messages so far.
pub struct Parser {
    toks: Vec<Lexed>,
    pos: usize,
    errors: Vec<String>,
}

impl Parser {
    /// The tokens.
    pub closed spec fn input(&self) -> Seq<LexedView> {
        tokens(self.toks@)
    }

    /// The position.
    pub closed spec fn at(&self) -> int {
        self.pos as int
    }

    /// The messages so far.
    pub closed spec fn said(&self) -> Seq<Seq<char>> {
        texts(self.errors@)
    }

    /// Whether the position is one in the tokens or their end.
    pub open spec fn wf(&self) -> bool {
        0 <= self.at() <= self.input().len()
    }

    /// Whether `self` came from `before` by parsing up to `next` and leaving
    /// the messages `more`.
    pub open spec fn moved(&self, before: &Parser, next: int, more: Seq<Seq<char>>) -> bool {
        &&& self.wf()
        &&& self.input() == before.input()
        &&& self.at() == next
        &&& self.said() == before.said() + more
    }

    /// A parser at the first token.
    pub fn new(toks: Vec<Lexed>) -> (r: Self)
        ensures
            r.wf(),
            r.input() == tokens(toks@),
            r.at() == 0,
            r.said() == Seq::<Seq<char>>::empty(),
    {
        let r = Parser { toks, pos: 0, errors: Vec::new() };
        assert(r.said() =~= Seq::<Seq<char>>::empty());
        r
    }

    /// The token at the position.
    fn peek(&self) -> (r: Option<&Lexed>)
        requires
            self.wf(),
        ensures
            match r {
                Some(t) => self.at() < self.input().len() && t@ == self.input()[self.at()],
                None => self.at() == self.input().len(),
            },
    {
        if self.pos < self.toks.len() {
            Some(&self.toks[self.pos])
        } else {
            None
        }
    }

    /// Goes past a token, if there is one, and gives the one before the new
    /// position.
    fn advance(&mut self) -> (r: Option<&Lexed>)
        requires
            old(self).wf(),
            old(self).input().len() > 0,
        ensures
            final(self).moved(
                old(self),
                if old(self).at() < old(self).input().len() {
                    old(self).at() + 1
                } else {
                    old(self).at()
                },
                seq![],
            ),
            r matches Some(t) && t@ == final(self).input()[final(self).at() - 1],
    {
        if self.pos < self.toks.len() {
            self.pos += 1;
        }
        assert(self.said() =~= old(self).said() + seq![]);
        assert(self.toks@.len() == self.input().len());
        assert(self.input()[self.pos - 1] == self.toks@[self.pos - 1]@);
        Some(&self.toks[self.pos - 1])
    }

    /// Leaves a message about line `line`.
    fn error(&mut self, line: usize, msg: &str)
        requires
            old(self).wf(),
        ensures
            final(self).moved(old(self), old(self).at(), seq![at_line(line as int, msg@)]),
    {
        push_error(&mut self.errors, line, msg);
        assert(self.said() =~= old(self).said() + seq![at_line(line as int, msg@)]);
    }

    /// The line of the last token; zero where there is none.
    fn last_line(&self) -> (r: usize)
        ensures
            r == final_line(self.input()),
    {
        if self.toks.len() == 0 {
            0
        } else {
            self.toks[self.toks.len() - 1].line
        }
    }

    /// Goes past the brace that opens the block of a `ctx`.
    fn expect_open(&mut self, ctx: &str) -> (r: bool)
        requires
            old(self).wf(),
        ensures
            r == opening_at(old(self).input(), old(self).at(), ctx@).value,
            final(self).moved(
                old(self),
                opening_at(old(self).input(), old(self).at(), ctx@).next,
                opening_at(old(self).input(), old(self).at(), ctx@).errors,
            ),
    {
        match self.peek() {
            Some(lx) => {
                if let Tok::Open = lx.tok {
                    self.advance();
                    true
                } else {
                    let line: usize = lx.line;
                    let desc = describe(&lx.tok);
                    let mut msg = concat3("expected '{' after '", ctx, "', found ");
                    msg.append(desc.as_str());
                    self.error(line, msg.as_str());
                    false
                }
            },
            None => {
                let line: usize = self.last_line();
                let msg = concat3("expected '{' after '", ctx, "'");
                self.error(line, msg.as_str());
                false
            },
        }
    }

    /// Reads `name arg arg ... ;`.
    fn read_directive(&mut self) -> (r: (String, Vec<String>, usize))
        requires
            old(self).wf(),
            old(self).at() < old(self).input().len(),
            old(self).input()[old(self).at()].tok is Word,
        ensures
            ({
                let d = directive_at(old(self).input(), old(self).at());
                &&& final(self).moved(old(self), d.next, d.errors)
                &&& r.0@ == d.value.name
                &&& texts(r.1@) == d.value.args
                &&& r.2 == d.value.line
            }),
    {
        let ghost toks = self.input();
        let ghost start = self.at();
        let line: usize = self.toks[self.pos].line;
        let name: String = match &self.toks[self.pos].tok {
            Tok::Word(w) => w.clone(),
            _ => String::new(),
        };
        proof {
            assert(toks[start] == self.toks@[start]@);
            lemma_words_end(toks, start + 1);
        }
        assert(self.pos < self.toks.len());
        self.pos += 1;
        let mut args: Vec<String> = Vec::new();
        assert(texts(args@) =~= words_between(toks, start + 1, start + 1));
        while self.pos < self.toks.len()
            invariant_except_break
                words_end(toks, self.pos as int) == words_end(toks, start + 1),
            invariant
                toks == self.input(),
                self.said() == old(self).said(),
                0 <= start < self.pos <= self.toks@.len(),
                texts(args@) == words_between(toks, start + 1, self.pos as int),
            ensures
                self.pos == words_end(toks, start + 1),
            decreases self.toks@.len() - self.pos,
        {
            assert(toks[self.pos as int] == self.toks@[self.pos as int]@);
            match &self.toks[self.pos].tok {
                Tok::Word(w) => {
                    let ghost had = args@;
                    args.push(w.clone());
                    proof {
                        assert(texts(args@) =~= texts(had).push(w@));
                        assert(texts(args@) =~= words_between(toks, start + 1, self.pos + 1));
                    }
                },
                _ => {
                    break;
                },
            }
            self.pos += 1;
        }
        let closed: bool = match self.peek() {
            Some(lx) => if let Tok::Semi = lx.tok {
                true
            } else {
                false
            },
            None => false,
        };
        if closed {
            self.advance();
        } else {
            let msg = concat3("missing ';' after '", name.as_str(), "' directive");
            self.error(line, msg.as_str());
        }
        assert(self.said() =~= old(self).said() + directive_at(toks, start).errors);
        (name, args, line)
    }

    /// Reads and carries out a directive of a `server` block.
    fn parse_directive(&mut self, server: &mut ServerConfig)
        requires
            old(self).wf(),
            old(self).at() < old(self).input().len(),
            old(self).input()[old(self).at()].tok is Word,
        ensures
            ({
                let d = directive_at(old(self).input(), old(self).at());
                let after = server_after(
                    old(server)@,
                    d.value.name,
                    d.value.args,
                    d.value.line,
                );
                &&& final(self).moved(old(self), d.next, d.errors + after.1)
                &&& final(server)@ == after.0
            }),
    {
        let (name, args, line) = self.read_directive();
        let ghost mid = *self;
        apply_directive(server, &mut self.errors, name.as_str(), &args, line);
        proof {
            let d = directive_at(old(self).input(), old(self).at());
            let after = server_after(old(server)@, d.value.name, d.value.args, d.value.line);
            assert(self.said() =~= old(self).said() + (d.errors + after.1));
        }
    }

    /// Reads and carries out a directive of a `route` block.
    fn parse_route_directive(&mut self, route: &mut Route)
        requires
            old(self).wf(),
            old(self).at() < old(self).input().len(),
            old(self).input()[old(self).at()].tok is Word,
        ensures
            ({
                let d = directive_at(old(self).input(), old(self).at());
                let after = route_after(old(route)@, d.value.name, d.value.args, d.value.line);
                &&& final(self).moved(old(self), d.next, d.errors + after.1)
                &&& final(route)@ == after.0
            }),
    {
        let (name, args, line) = self.read_directive();
        apply_route_directive(route, &mut self.errors, name.as_str(), &args, line);
        proof {
            let d = directive_at(old(self).input(), old(self).at());
            let after = route_after(old(route)@, d.value.name, d.value.args, d.value.line);
            assert(self.said() =~= old(self).said() + (d.errors + after.1));
        }
    }

    /// Reads `route <path> { <directives> }`.
    fn parse_route_block(&mut self) -> (r: Option<Route>)
        requires
            old(self).wf(),
            old(self).at() < old(self).input().len(),
        ensures
            ({
                let p = route_at(old(self).input(), old(self).at());
                &&& final(self).moved(old(self), p.next, p.errors)
                &&& match r {
                    Some(route) => p.value == Some(route@),
                    None => p.value is None,
                }
            }),
    {
        let ghost toks = self.input();
        let ghost start = self.at();
        let line: usize = self.toks[self.pos].line;
        assert(toks[start] == self.toks@[start]@);
        self.advance();
        let path: String = match self.advance() {
            Some(lx) => match &lx.tok {
                Tok::Word(p) => p.clone(),
                _ => {
                    self.error(line, "'route' requires a path");
                    return None;
                },
            },
            None => String::new(),
        };
        assert(route_path_token(toks, start) == TokView::Word(path@));
        if !self.expect_open("route") {
            return None;
        }
        let mut route = Route::new(path);
        let ghost whole = route_at(toks, start);
        assert(self.said() =~= old(self).said());
        assert(self.said() + route_body(toks, self.at(), route@).errors =~= old(self).said()
            + whole.errors);
        loop
            invariant_except_break
                self.said() + route_body(toks, self.at(), route@).errors == old(self).said()
                    + whole.errors,
                Some(route_body(toks, self.at(), route@).value) == whole.value,
                route_body(toks, self.at(), route@).next == whole.next,
            invariant
                self.wf(),
                toks == self.input(),
            ensures
                self.said() == old(self).said() + whole.errors,
                Some(route@) == whole.value,
                self.at() == whole.next,
            decreases toks.len() - self.at(),
        {
            let ghost here = self.at();
            let ghost rest = route_body(toks, here, route@);
            let ghost said = self.said();
            match self.peek() {
                None => {
                    let line: usize = self.last_line();
                    self.error(line, "unterminated 'route' block (missing '}')");
                    assert(self.said() =~= said + rest.errors);
                    break;
                },
                Some(lx) => match &lx.tok {
                    Tok::Close => {
                        self.advance();
                        assert(self.said() =~= said + rest.errors);
                        break;
                    },
                    Tok::Word(_) => {
                        proof {
                            lemma_words_end(toks, here + 1);
                        }
                        self.parse_route_directive(&mut route);
                    },
                    other => {
                        let line: usize = lx.line;
                        let desc = describe(other);
                        let msg = concat3("unexpected ", desc.as_str(), " in 'route' block");
                        self.error(line, msg.as_str());
                        self.advance();
                    },
                },
            }
            assert(self.said() + route_body(toks, self.at(), route@).errors =~= said
                + rest.errors);
        }
        Some(route)
    }

    /// Reads `{ <directives and routes> }`.
    fn parse_server_block(&mut self) -> (r: Option<ServerConfig>)
        requires
            old(self).wf(),
        ensures
            ({
                let p = server_at(old(self).input(), old(self).at());
                &&& final(self).moved(old(self), p.next, p.errors)
                &&& match r {
                    Some(server) => p.value == Some(server@),
                    None => p.value is None,
                }
            }),
    {
        let ghost toks = self.input();
        let ghost start = self.at();
        if !self.expect_open("server") {
            return None;
        }
        let mut server = ServerConfig::new();
        let ghost whole = server_body(toks, start + 1, default_server());
        assert(self.said() =~= old(self).said());
        loop
            invariant_except_break
                self.said() + server_body(toks, self.at(), server@).errors == old(self).said()
                    + whole.errors,
                server_body(toks, self.at(), server@).value == whole.value,
                server_body(toks, self.at(), server@).next == whole.next,
            invariant
                self.wf(),
                toks == self.input(),
            ensures
                self.said() == old(self).said() + whole.errors,
                server@ == whole.value,
                self.at() == whole.next,
            decreases toks.len() - self.at(),
        {
            let ghost here = self.at();
            let ghost rest = server_body(toks, here, server@);
            let ghost said = self.said();
            match self.peek() {
                None => {
                    let line: usize = self.last_line();
                    self.error(line, "unterminated 'server' block (missing '}')");
                    assert(self.said() =~= said + rest.errors);
                    break;
                },
                Some(lx) => match &lx.tok {
                    Tok::Close => {
                        self.advance();
                        assert(self.said() =~= said + rest.errors);
                        break;
                    },
                    Tok::Word(w) => {
                        if str_eq(w.as_str(), "route") {
                            proof {
                                lemma_route_at(toks, here);
                            }
                            if let Some(route) = self.parse_route_block() {
                                let ghost before = server@;
                                server.routes.push(route);
                                assert(route_views(server.routes@) =~= before.routes.push(route@));
                                assert(server@ =~= ServerView {
                                    routes: before.routes.push(route@),
                                    ..before
                                });
                            }
                        } else {
                            proof {
                                lemma_words_end(toks, here + 1);
                            }
                            self.parse_directive(&mut server);
                        }
                    },
                    other => {
                        let line: usize = lx.line;
                        let desc = describe(other);
                        let msg = concat3("unexpected ", desc.as_str(), " in 'server' block");
                        self.error(line, msg.as_str());
                        self.advance();
                    },
                },
            }
            assert(self.said() + server_body(toks, self.at(), server@).errors =~= said
                + rest.errors);
        }
        if server.ports.is_empty() {
            let line: usize = self.last_line();
            self.error(line, "'server' block has no 'port'");
            assert(self.said() =~= old(self).said() + server_at(toks, start).errors);
            return None;
        }
        Some(server)
    }

    /// Reads a sequence of `server { ... }` blocks.
    pub fn parse(&mut self) -> (r: Vec<ServerConfig>)
        requires
            old(self).wf(),
        ensures
            server_views(r@) == servers_from(old(self).input(), old(self).at()).value,
            final(self).said() == old(self).said() + servers_from(
                old(self).input(),
                old(self).at(),
            ).errors,
    {
        let ghost toks = self.input();
        let ghost whole = servers_from(toks, self.at());
        let mut servers: Vec<ServerConfig> = Vec::new();
        assert(server_views(servers@) + servers_from(toks, self.at()).value =~= whole.value);
        loop
            invariant_except_break
                server_views(servers@) + servers_from(toks, self.at()).value == whole.value,
                self.said() + servers_from(toks, self.at()).errors == old(self).said()
                    + whole.errors,
            invariant
                self.wf(),
                toks == self.input(),
            ensures
                server_views(servers@) == whole.value,
                self.said() == old(self).said() + whole.errors,
            decreases toks.len() - self.at(),
        {
            let ghost here = self.at();
            let ghost rest = servers_from(toks, here);
            let ghost said = self.said();
            let ghost had = server_views(servers@);
            match self.peek() {
                None => {
                    assert(had + rest.value =~= had);
                    assert(said + rest.errors =~= said);
                    break;
                },
                Some(lx) => {
                    let is_server: bool = match &lx.tok {
                        Tok::Word(w) => str_eq(w.as_str(), "server"),
                        _ => false,
                    };
                    assert(is_server == word_at(toks, here, "server"@));
                    if is_server {
                        self.advance();
                        proof {
                            lemma_server_at(toks, here + 1);
                        }
                        if let Some(s) = self.parse_server_block() {
                            let ghost before = servers@;
                            servers.push(s);
                            assert(server_views(servers@) =~= server_views(before).push(s@));
                        }
                    } else {
                        let line: usize = lx.line;
                        let desc = describe(&lx.tok);
                        let mut msg = "expected 'server', found ".to_owned();
                        msg.append(desc.as_str());
                        self.error(line, msg.as_str());
                        self.advance();
                    }
                },
            }
            assert(server_views(servers@) + servers_from(toks, self.at()).value =~= had
                + rest.value);
            assert(self.said() + servers_from(toks, self.at()).errors =~= said + rest.errors);
        }
        servers
    }

    /// The messages.
    fn into_errors(self) -> (r: Vec<String>)
        ensures
            texts(r@) == self.said(),
    {
        self.errors
    }
}

/// An address, a port and a server name that a server answers to.
#[verifier::ext_equal]
pub ghost struct Binding {
    pub host: Seq<char>,
    pub port: u16,
    pub name: Seq<char>,
}

/// The names of a server. One without names has the empty one, which makes it
/// the default for its addresses.
pub open spec fn bound_names(s: ServerView) -> Seq<Seq<char>> {
    if s.server_names.len() == 0 {
        seq![seq![]]
    } else {
        s.server_names
    }
}

/// The bindings of one port under several names.
pub open spec fn port_bindings(host: Seq<char>, port: u16, names: Seq<Seq<char>>) -> Seq<Binding> {
    names.map_values(|name: Seq<char>| Binding { host, port, name })
}

/// The bindings of several ports under several names, port by port.
pub open spec fn ports_bindings(
    host: Seq<char>,
    ports: Seq<u16>,
    names: Seq<Seq<char>>,
) -> Seq<Binding>
    decreases ports.len(),
{
    if ports.len() == 0 {
        seq![]
    } else {
        ports_bindings(host, ports.drop_last(), names) + port_bindings(host, ports.last(), names)
    }
}

/// The bindings of a server.
pub open spec fn bindings_of(s: ServerView) -> Seq<Binding> {
    ports_bindings(s.host_str, s.ports, bound_names(s))
}

/// The bindings of several servers.
pub open spec fn all_bindings(servers: Seq<ServerView>) -> Seq<Binding>
    decreases servers.len(),
{
    if servers.len() == 0 {
        seq![]
    } else {
        all_bindings(servers.drop_last()) + bindings_of(servers.last())
    }
}

/// The message about a binding that was taken before.
pub open spec fn duplicate_message(k: Binding) -> Seq<char> {
    "duplicate binding "@ + k.host + ":"@ + decimal(k.port as nat) + " for server_name "@ + (
    if k.name.len() == 0 {
        "(default)"@
    } else {
        k.name
    })
}

/// A message for each of `keys` that is in `taken` or among the earlier ones of
/// `keys`.
pub open spec fn duplicates(keys: Seq<Binding>, taken: Seq<Binding>) -> Seq<Seq<char>>
    decreases keys.len(),
{
    if keys.len() == 0 {
        seq![]
    } else {
        let rest = duplicates(keys.drop_last(), taken);
        if taken.contains(keys.last()) || keys.drop_last().contains(keys.last()) {
            rest.push(duplicate_message(keys.last()))
        } else {
            rest
        }
    }
}

/// The messages about the bindings of the last of `servers`.
pub open spec fn last_duplicates(servers: Seq<ServerView>) -> Seq<Seq<char>> {
    duplicates(bindings_of(servers.last()), all_bindings(servers.drop_last()))
}

/// The servers that share no binding with one before them and have none twice.
pub open spec fn without_duplicates(servers: Seq<ServerView>) -> Seq<ServerView>
    decreases servers.len(),
{
    if servers.len() == 0 {
        seq![]
    } else if last_duplicates(servers).len() == 0 {
        without_duplicates(servers.drop_last()).push(servers.last())
    } else {
        without_duplicates(servers.drop_last())
    }
}

/// The messages about the bindings of `servers`.
pub open spec fn all_duplicates(servers: Seq<ServerView>) -> Seq<Seq<char>>
    decreases servers.len(),
{
    if servers.len() == 0 {
        seq![]
    } else {
        all_duplicates(servers.drop_last()) + last_duplicates(servers)
    }
}

/// The `server` blocks of a configuration file, before they are held against
/// each other.
pub open spec fn blocks_in(input: Seq<char>) -> Parsed<Seq<ServerView>> {
    servers_from(lex(input, 1), 0)
}

/// The servers that a configuration file sets up.
pub open spec fn servers_in(input: Seq<char>) -> Seq<ServerView> {
    without_duplicates(blocks_in(input).value)
}

/// The messages about a configuration file.
pub open spec fn errors_in(input: Seq<char>) -> Seq<Seq<char>> {
    blocks_in(input).errors + all_duplicates(blocks_in(input).value)
}

/// The bindings in a list.
pub open spec fn binding_views(v: Seq<(String, u16, String)>) -> Seq<Binding> {
    v.map_values(|k: (String, u16, String)| Binding { host: k.0@, port: k.1, name: k.2@ })
}

/// Whether two lists have the same members.
pub open spec fn same_members(a: Seq<Binding>, b: Seq<Binding>) -> bool {
    forall|k: Binding| a.contains(k) <==> #[trigger] b.contains(k)
}

/// The members of one list after another are those of both.
proof fn lemma_members(a: Seq<Binding>, b: Seq<Binding>)
    ensures
        forall|k: Binding| #[trigger] (a + b).contains(k) <==> a.contains(k) || b.contains(k),
{
    assert forall|k: Binding| #[trigger] (a + b).contains(k) <==> a.contains(k) || b.contains(
        k,
    ) by {
        if a.contains(k) {
            let i = choose|i: int| 0 <= i < a.len() && a[i] == k;
            assert((a + b)[i] == k);
        }
        if b.contains(k) {
            let i = choose|i: int| 0 <= i < b.len() && b[i] == k;
            assert((a + b)[a.len() + i] == k);
        }
    }
}

/// Looks for a binding in a list.
fn is_taken(seen: &Vec<(String, u16, String)>, host: &str, port: u16, name: &str) -> (r: bool)
    ensures
        r == binding_views(seen@).contains(Binding { host: host@, port, name: name@ }),
{
    let ghost k = Binding { host: host@, port, name: name@ };
    let mut i: usize = 0;
    while i < seen.len()
        invariant
            i <= seen@.len(),
            k == (Binding { host: host@, port, name: name@ }),
            forall|j: int| 0 <= j < i ==> #[trigger] binding_views(seen@)[j] != k,
        decreases seen@.len() - i,
    {
        assert(binding_views(seen@)[i as int] == Binding {
            host: seen@[i as int].0@,
            port: seen@[i as int].1,
            name: seen@[i as int].2@,
        });
        if seen[i].1 == port && str_eq(seen[i].0.as_str(), host) && str_eq(
            seen[i].2.as_str(),
            name,
        ) {
            return true;
        }
        i += 1;
    }
    false
}

/// Adds a message about a binding that was taken before.
fn push_duplicate(errors: &mut Vec<String>, host: &str, port: u16, name: &str)
    ensures
        texts(final(errors)@) == texts(old(errors)@).push(
            duplicate_message(Binding { host: host@, port, name: name@ }),
        ),
{
    let mut msg = concat3("duplicate binding ", host, ":");
    push_decimal(&mut msg, port as u64);
    msg.append(" for server_name ");
    if str_eq(name, "") {
        proof {
            reveal_strlit("");
        }
        msg.append("(default)");
    } else {
        proof {
            reveal_strlit("");
            if name@.len() == 0 {
                assert(name@ =~= ""@);
            }
        }
        msg.append(name);
    }
    errors.push(msg);
    assert(texts(errors@) =~= texts(old(errors)@).push(msg@));
}

/// Claims the bindings of a server, with a message for each that was taken
/// before; tells whether one was.
fn claim(
    seen: &mut Vec<(String, u16, String)>,
    errors: &mut Vec<String>,
    s: &ServerConfig,
    Ghost(taken): Ghost<Seq<Binding>>,
) -> (conflict: bool)
    requires
        same_members(binding_views(old(seen)@), taken),
    ensures
        same_members(binding_views(final(seen)@), taken + bindings_of(s@)),
        texts(final(errors)@) == texts(old(errors)@) + duplicates(bindings_of(s@), taken),
        conflict == (duplicates(bindings_of(s@), taken).len() > 0),
{
    let mut names: Vec<String> = Vec::new();
    if s.server_names.is_empty() {
        names.push(String::new());
    } else {
        push_all(&mut names, &s.server_names);
    }
    let ghost host = s.host_str@;
    let ghost all = texts(names@);
    let ghost said = texts(errors@);
    proof {
        if s.server_names@.len() == 0 {
            assert(all[0] =~= seq![]);
        }
        assert(all =~= bound_names(s@));
    }
    let mut conflict = false;
    let ghost mut done: Seq<Binding> = seq![];
    assert(taken + done =~= taken);
    assert(said + duplicates(done, taken) =~= said);
    let mut p: usize = 0;
    while p < s.ports.len()
        invariant
            p <= s.ports@.len(),
            host == s.host_str@,
            all == texts(names@),
            done == ports_bindings(host, s.ports@.take(p as int), all),
            same_members(binding_views(seen@), taken + done),
            texts(errors@) == said + duplicates(done, taken),
            conflict == (duplicates(done, taken).len() > 0),
        decreases s.ports@.len() - p,
    {
        let port: u16 = s.ports[p];
        let ghost base = done;
        let mut n: usize = 0;
        assert(base + port_bindings(host, port, all.take(0)) =~= base);
        while n < names.len()
            invariant
                n <= names@.len(),
                host == s.host_str@,
                all == texts(names@),
                done == base + port_bindings(host, port, all.take(n as int)),
                same_members(binding_views(seen@), taken + done),
                texts(errors@) == said + duplicates(done, taken),
                conflict == (duplicates(done, taken).len() > 0),
            decreases names@.len() - n,
        {
            let ghost k = Binding { host, port, name: names@[n as int]@ };
            let ghost had = binding_views(seen@);
            let ghost told = texts(errors@);
            let ghost before = done;
            proof {
                done = done.push(k);
                assert(done.drop_last() =~= before);
                assert(done =~= base + port_bindings(host, port, all.take(n + 1)));
                assert(done =~= before + seq![k]);
                assert(taken + done =~= (taken + before) + seq![k]);
                lemma_members(taken, before);
                lemma_members(taken + before, seq![k]);
                assert(seq![k][0] == k);
                assert(had.contains(k) == (taken + before).contains(k));
            }
            if is_taken(seen, s.host_str.as_str(), port, names[n].as_str()) {
                push_duplicate(errors, s.host_str.as_str(), port, names[n].as_str());
                conflict = true;
                assert(texts(errors@) =~= said + duplicates(done, taken));
            } else {
                seen.push((s.host_str.clone(), port, names[n].clone()));
                proof {
                    assert(binding_views(seen@) =~= had + seq![k]);
                    lemma_members(had, seq![k]);
                    assert(texts(errors@) =~= said + duplicates(done, taken));
                }
            }
            n += 1;
        }
        proof {
            assert(all.take(all.len() as int) =~= all);
            assert(s.ports@.take(p + 1).drop_last() =~= s.ports@.take(p as int));
        }
        p += 1;
    }
    assert(s.ports@.take(s.ports@.len() as int) =~= s.ports@);
    conflict
}

/// Drops the servers with a binding that was taken before.
fn drop_duplicates(servers: Vec<ServerConfig>, errors: &mut Vec<String>) -> (kept: Vec<
    ServerConfig,
>)
    ensures
        server_views(kept@) == without_duplicates(server_views(servers@)),
        texts(final(errors)@) == texts(old(errors)@) + all_duplicates(server_views(servers@)),
{
    let ghost all = server_views(servers@);
    let ghost said = texts(errors@);
    let mut seen: Vec<(String, u16, String)> = Vec::new();
    let mut kept: Vec<ServerConfig> = Vec::new();
    assert(binding_views(seen@) =~= all_bindings(all.take(0)));
    assert(said + all_duplicates(all.take(0)) =~= said);
    assert(server_views(kept@) =~= without_duplicates(all.take(0)));
    for s in it: servers
        invariant
            it.seq() == servers@,
            all == server_views(servers@),
            same_members(binding_views(seen@), all_bindings(all.take(it.index()))),
            server_views(kept@) == without_duplicates(all.take(it.index())),
            texts(errors@) == said + all_duplicates(all.take(it.index())),
    {
        let ghost i = it.index();
        let ghost so_far = all.take(i + 1);
        proof {
            assert(so_far.drop_last() =~= all.take(i));
            assert(so_far.last() == s@);
        }
        let ghost told = texts(errors@);
        let conflict = claim(&mut seen, errors, &s, Ghost(all_bindings(all.take(i))));
        assert(texts(errors@) =~= said + all_duplicates(so_far));
        if !conflict {
            let ghost had = kept@;
            kept.push(s);
            assert(server_views(kept@) =~= server_views(had).push(s@));
        }
    }
    assert(all.take(all.len() as int) =~= all);
    kept
}

/// Parses a configuration file. Gives the servers that survive, and every
/// message: those about the text, then those about bindings that two servers
/// share. Sharing an address and a port under different names is legal virtual
/// hosting; a true duplicate (the same triple, the empty default name
/// included) is an error, and drops the later server.
pub fn parse(input: &str) -> (r: ParseOutcome)
    requires
        input@.len() < usize::MAX,
    ensures
        r.config@ == servers_in(input@),
        texts(r.errors@) == errors_in(input@),
{
    let toks = tokenize(input);
    let mut parser = Parser::new(toks);
    let servers = parser.parse();
    let mut errors = parser.into_errors();
    assert(texts(errors@) =~= blocks_in(input@).errors);
    let kept = drop_duplicates(servers, &mut errors);
    ParseOutcome { config: Config { servers: kept }, errors }
}

} // verus!
