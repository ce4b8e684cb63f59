//! How a configuration file is cut into tokens.

use super::lexer::{lex, LexedView, TokView};
use crate::text::{is_space, lemma_lead_is, Class};
use vstd::prelude::*;

verus! {

/// Whether a character ends a word.
pub open spec fn ends_word(c: char) -> bool {
    is_space(c) || c == '{' || c == '}' || c == ';' || c == '#'
}

/// A word goes up to the next white space, brace, semicolon or comment, and is
/// on the line that it stands on.
pub proof fn law_words_are_cut(word: Seq<char>, rest: Seq<char>, line: int)
    requires
        word.len() > 0,
        forall|i: int| 0 <= i < word.len() ==> !ends_word(#[trigger] word[i]),
        rest.len() > 0 ==> ends_word(rest[0]),
    ensures
        lex(word + rest, line) == seq![LexedView { tok: TokView::Word(word), line }] + lex(
            rest,
            line,
        ),
{
    let s = word + rest;
    let n = word.len() as int;
    assert forall|i: int| 0 <= i < n implies Class::Word.holds(#[trigger] s[i]) by {
        assert(s[i] == word[i]);
        assert(!ends_word(word[i]));
    }
    if rest.len() > 0 {
        assert(s[n] == rest[0]);
    }
    lemma_lead_is(s, Class::Word, n);
    assert(s[0] == word[0]);
    assert(!ends_word(word[0]));
    assert(is_space('\n'));
    assert(s.take(n) =~= word);
    assert(s.skip(n) =~= rest);
}

/// Braces and semicolons are tokens by themselves; white space is nothing, but
/// that a line feed begins the next line.
pub proof fn law_punctuation_is_cut(c: char, rest: Seq<char>, line: int)
    ensures
        lex(seq![], line) == Seq::<LexedView>::empty(),
        lex(seq!['{'] + rest, line) == seq![LexedView { tok: TokView::Open, line }] + lex(
            rest,
            line,
        ),
        lex(seq!['}'] + rest, line) == seq![LexedView { tok: TokView::Close, line }] + lex(
            rest,
            line,
        ),
        lex(seq![';'] + rest, line) == seq![LexedView { tok: TokView::Semi, line }] + lex(
            rest,
            line,
        ),
        lex(seq!['\n'] + rest, line) == lex(rest, line + 1),
        is_space(c) && c != '\n' ==> lex(seq![c] + rest, line) == lex(rest, line),
{
    assert((seq!['{'] + rest).skip(1) =~= rest);
    assert((seq!['}'] + rest).skip(1) =~= rest);
    assert((seq![';'] + rest).skip(1) =~= rest);
    assert((seq!['\n'] + rest).skip(1) =~= rest);
    assert((seq![c] + rest).skip(1) =~= rest);
}

/// A comment goes from its sign to the end of the line and is nothing.
pub proof fn law_comments_are_cut(text: Seq<char>, rest: Seq<char>, line: int)
    requires
        !text.contains('\n'),
        rest.len() > 0 ==> rest[0] == '\n',
    ensures
        lex(seq!['#'] + text + rest, line) == lex(rest, line),
{
    let s = seq!['#'] + text + rest;
    let n = text.len() as int + 1;
    assert forall|i: int| 0 <= i < n implies Class::Not('\n').holds(#[trigger] s[i]) by {
        if i > 0 {
            assert(s[i] == text[i - 1]);
            assert(text.contains(text[i - 1]));
        }
    }
    lemma_lead_is(s, Class::Not('\n'), n);
    assert(s.skip(n) =~= rest);
}

} // verus!
