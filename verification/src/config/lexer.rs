//! The words and punctuation of a configuration file.

use crate::text::{chars_of, lead, lead_len, lemma_lead, string_of, Class};
use vstd::prelude::*;
use vstd::slice::slice_subrange;

verus! {

/// A token.
pub enum Tok {
    Word(String),
    /// `{`
    Open,
    /// `}`
    Close,
    /// `;`
    Semi,
}

/// A token and the line on which it begins.
pub struct Lexed {
    pub tok: Tok,
    pub line: usize,
}

/// What a [`Tok`] says.
#[verifier::ext_equal]
pub ghost enum TokView {
    Word(Seq<char>),
    Open,
    Close,
    Semi,
}

/// What a [`Lexed`] says.
#[verifier::ext_equal]
pub ghost struct LexedView {
    pub tok: TokView,
    pub line: int,
}

impl View for Tok {
    type V = TokView;

    open spec fn view(&self) -> TokView {
        match self {
            Tok::Word(w) => TokView::Word(w@),
            Tok::Open => TokView::Open,
            Tok::Close => TokView::Close,
            Tok::Semi => TokView::Semi,
        }
    }
}

impl View for Lexed {
    type V = LexedView;

    open spec fn view(&self) -> LexedView {
        LexedView { tok: self.tok@, line: self.line as int }
    }
}

/// What a list of tokens says.
pub open spec fn tokens(v: Seq<Lexed>) -> Seq<LexedView> {
    v.map_values(|t: Lexed| t@)
}

/// The tokens in `s`, whose first character is on line `line`. A `#` starts a
/// comment that goes to the end of the line.
pub open spec fn lex(s: Seq<char>, line: int) -> Seq<LexedView>
    decreases s.len(),
{
    if s.len() == 0 {
        seq![]
    } else if s[0] == '#' {
        let n = lead(s, Class::Not('\n'));
        proof {
            lemma_lead(s, Class::Not('\n'));
            crate::text::lemma_lead_front(s, Class::Not('\n'));
        }
        lex(s.skip(n), line)
    } else if s[0] == '{' {
        seq![LexedView { tok: TokView::Open, line }] + lex(s.skip(1), line)
    } else if s[0] == '}' {
        seq![LexedView { tok: TokView::Close, line }] + lex(s.skip(1), line)
    } else if s[0] == ';' {
        seq![LexedView { tok: TokView::Semi, line }] + lex(s.skip(1), line)
    } else if s[0] == '\n' {
        lex(s.skip(1), line + 1)
    } else if Class::Space.holds(s[0]) {
        lex(s.skip(1), line)
    } else {
        let n = lead(s, Class::Word);
        proof {
            lemma_lead(s, Class::Word);
            crate::text::lemma_lead_front(s, Class::Word);
        }
        seq![LexedView { tok: TokView::Word(s.take(n)), line }] + lex(s.skip(n), line)
    }
}

/// Appends a token to a list.
fn push_token(out: &mut Vec<Lexed>, tok: Tok, line: usize)
    ensures
        tokens(final(out)@) == tokens(old(out)@).push(LexedView { tok: tok@, line: line as int }),
{
    out.push(Lexed { tok, line });
    assert(tokens(out@) =~= tokens(old(out)@).push(LexedView { tok: tok@, line: line as int }));
}

/// Cuts a configuration file into tokens.
pub fn tokenize(input: &str) -> (r: Vec<Lexed>)
    requires
        input@.len() < usize::MAX,
    ensures
        tokens(r@) == lex(input@, 1),
{
    let chars = chars_of(input);
    let mut rest: &[char] = chars.as_slice();
    let mut line: usize = 1;
    let mut out: Vec<Lexed> = Vec::new();
    assert(tokens(out@) + lex(rest@, 1) =~= lex(input@, 1));
    while rest.len() > 0
        invariant
            input@.len() < usize::MAX,
            line + rest@.len() <= input@.len() + 1,
            tokens(out@) + lex(rest@, line as int) == lex(input@, 1),
        decreases rest@.len(),
    {
        let c: char = rest[0];
        let ghost had = tokens(out@);
        let ghost from = rest@;
        let mut taken: usize = 1;
        if c == '#' {
            taken = lead_len(rest, Class::Not('\n'));
            proof {
                crate::text::lemma_lead_front(rest@, Class::Not('\n'));
            }
        } else if c == '{' {
            push_token(&mut out, Tok::Open, line);
        } else if c == '}' {
            push_token(&mut out, Tok::Close, line);
        } else if c == ';' {
            push_token(&mut out, Tok::Semi, line);
        } else if c == '\n' {
            line += 1;
        } else if !Class::Space.has(c) {
            taken = lead_len(rest, Class::Word);
            proof {
                crate::text::lemma_lead_front(rest@, Class::Word);
            }
            push_token(&mut out, Tok::Word(string_of(slice_subrange(rest, 0, taken))), line);
        }
        rest = slice_subrange(rest, taken, rest.len());
        assert(tokens(out@) + lex(rest@, line as int) =~= had + lex(from, 
            if c == '\n' { line - 1 } else { line as int }));
    }
    assert(tokens(out@) + lex(rest@, line as int) =~= tokens(out@));
    out
}

} // verus!
