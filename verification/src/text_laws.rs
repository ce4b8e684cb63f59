//! What holds of the ways in which text is cut, joined and changed.

use crate::text::{
    before, begins, first_in, first_word, is_space, joined, lead, lemma_lead, lemma_lead_is,
    lemma_line_len, lemma_tail, line_len, lines, lower, lower_char, same_ignoring_case, split,
    split_first, tail, trim_front, trimmed, upper, upper_char, Class,
};
use vstd::prelude::*;

verus! {

/// White space is what Unicode takes for it: among ASCII the blank and the
/// characters from the tab to the carriage return.
pub proof fn law_white_space(c: char)
    ensures
        c <= '\u{7f}' ==> (is_space(c) <==> c == ' ' || c == '\t' || c == '\n' || c == '\u{b}' || c
            == '\u{c}' || c == '\r'),
        '\u{7f}' < c <= '\u{1fff}' ==> (is_space(c) <==> c == '\u{85}' || c == '\u{a0}' || c
            == '\u{1680}'),
        '\u{2000}' <= c <= '\u{2fff}' ==> (is_space(c) <==> c <= '\u{200a}' || c == '\u{2028}' || c
            == '\u{2029}' || c == '\u{202f}' || c == '\u{205f}'),
        c >= '\u{3000}' ==> (is_space(c) <==> c == '\u{3000}'),
{
}

/// Whether a text is nothing but white space.
pub open spec fn is_blank(s: Seq<char>) -> bool {
    forall|i: int| 0 <= i < s.len() ==> is_space(#[trigger] s[i])
}

/// Trimmed text is what is left of a text without the white space at its two
/// ends: nothing else is taken off, and none is left there.
pub proof fn law_trimming_takes_the_ends_off(s: Seq<char>)
    ensures
        exists|a: Seq<char>, b: Seq<char>|
            #![trigger is_blank(a), is_blank(b)]
            is_blank(a) && is_blank(b) && s == a + trimmed(s) + b,
        trimmed(s).len() > 0 ==> !is_space(trimmed(s)[0]) && !is_space(trimmed(s).last()),
{
    let t = trim_front(s, Class::Space);
    let n = lead(s, Class::Space);
    let m = tail(t, Class::Space);
    lemma_lead(s, Class::Space);
    lemma_tail(t, Class::Space);
    let a = s.take(n);
    let b = t.skip(t.len() - m);
    assert(is_blank(a));
    assert(is_blank(b)) by {
        assert forall|i: int| 0 <= i < b.len() implies is_space(#[trigger] b[i]) by {
            assert(b[i] == t[t.len() - m + i]);
        }
    }
    assert(s =~= a + trimmed(s) + b);
    if trimmed(s).len() > 0 {
        assert(trimmed(s)[0] == s[n]);
        assert(trimmed(s).last() == t[t.len() - m - 1]);
    }
}

/// Text that is put between white space is what is left when it is trimmed.
pub proof fn law_padding_is_trimmed(a: Seq<char>, s: Seq<char>, b: Seq<char>)
    requires
        is_blank(a),
        is_blank(b),
        s.len() > 0 ==> !is_space(s[0]) && !is_space(s.last()),
    ensures
        trimmed(a + s + b) == s,
{
    let all = a + s + b;
    if s.len() == 0 {
        assert forall|i: int| 0 <= i < all.len() implies Class::Space.holds(#[trigger] all[i]) by {
            if i < a.len() {
                assert(all[i] == a[i]);
            } else {
                assert(all[i] == b[i - a.len()]);
            }
        }
        lemma_lead_is(all, Class::Space, all.len() as int);
        let t = trim_front(all, Class::Space);
        assert(t =~= seq![]);
        assert(trimmed(all) =~= s);
    } else {
        assert forall|i: int| 0 <= i < a.len() implies Class::Space.holds(#[trigger] all[i]) by {
            assert(all[i] == a[i]);
        }
        assert(all[a.len() as int] == s[0]);
        lemma_lead_is(all, Class::Space, a.len() as int);
        let t = trim_front(all, Class::Space);
        assert(t =~= s + b);
        assert forall|i: int| t.len() - b.len() <= i < t.len() implies Class::Space.holds(
            #[trigger] t[i],
        ) by {
            assert(t[i] == b[i - s.len()]);
        }
        assert(t[t.len() - b.len() - 1] == s.last());
        crate::text::lemma_tail_is(t, Class::Space, b.len() as int);
        assert(trimmed(all) =~= s);
    }
}

/// Small letters and capitals: only the letters of ASCII change, each to its
/// counterpart, and the one way undoes the other.
pub proof fn law_cases(c: char)
    ensures
        'A' <= c <= 'Z' ==> lower_char(c) as int - 'a' as int == c as int - 'A' as int
            && upper_char(lower_char(c)) == c,
        !('A' <= c <= 'Z') ==> lower_char(c) == c,
        'a' <= c <= 'z' ==> upper_char(c) as int - 'A' as int == c as int - 'a' as int
            && lower_char(upper_char(c)) == c,
        !('a' <= c <= 'z') ==> upper_char(c) == c,
{
}

/// Two texts are the same but for case exactly if their small letters are.
pub proof fn law_case_is_ignored(a: Seq<char>, b: Seq<char>)
    ensures
        same_ignoring_case(a, b) <==> a.len() == b.len() && forall|i: int|
            0 <= i < a.len() ==> lower_char(#[trigger] a[i]) == lower_char(b[i]),
        same_ignoring_case(lower(a), a),
        same_ignoring_case(upper(a), a),
{
    if same_ignoring_case(a, b) {
        assert(lower(a).len() == lower(b).len());
        assert forall|i: int| 0 <= i < a.len() implies lower_char(#[trigger] a[i]) == lower_char(
            b[i],
        ) by {
            assert(lower(a)[i] == lower(b)[i]);
        }
    } else if a.len() == b.len() {
        if forall|i: int| 0 <= i < a.len() ==> lower_char(#[trigger] a[i]) == lower_char(b[i]) {
            assert(lower(a) =~= lower(b));
        }
    }
    assert forall|i: int| 0 <= i < a.len() implies lower(lower(a))[i] == lower(a)[i] by {
        law_cases(a[i]);
        law_cases(lower_char(a[i]));
    }
    assert(lower(lower(a)) =~= lower(a));
    assert forall|i: int| 0 <= i < a.len() implies lower(upper(a))[i] == lower(a)[i] by {
        law_cases(a[i]);
    }
    assert(lower(upper(a)) =~= lower(a));
}

/// The pieces that a text is cut into have no separator in them, and joined by
/// it they are the text again.
pub proof fn law_cutting_is_undone_by_joining(s: Seq<char>, sep: char)
    ensures
        split(s, sep).len() > 0,
        forall|i: int|
            0 <= i < split(s, sep).len() ==> !(#[trigger] split(s, sep)[i]).contains(sep),
        joined(split(s, sep), seq![sep]) == s,
    decreases s.len(),
{
    let n = lead(s, Class::Not(sep));
    lemma_lead(s, Class::Not(sep));
    let first = s.take(n);
    assert(!first.contains(sep)) by {
        assert forall|i: int| 0 <= i < first.len() implies #[trigger] first[i] != sep by {
            assert(Class::Not(sep).holds(s[i]));
        }
    }
    if n < s.len() {
        let rest = s.skip(n + 1);
        law_cutting_is_undone_by_joining(rest, sep);
        let more = split(rest, sep);
        assert(split(s, sep) == seq![first] + more);
        assert forall|i: int| 0 <= i < split(s, sep).len() implies !(#[trigger] split(
            s,
            sep,
        )[i]).contains(sep) by {
            if i > 0 {
                assert(split(s, sep)[i] == more[i - 1]);
            }
        }
        lemma_joined_front(first, more, seq![sep]);
        assert(s[n] == sep);
        assert(first + seq![sep] + rest =~= s);
    } else {
        assert(first =~= s);
    }
}

/// One more piece in front stands before the others with a separator between.
pub proof fn lemma_joined_front(first: Seq<char>, more: Seq<Seq<char>>, sep: Seq<char>)
    requires
        more.len() > 0,
    ensures
        joined(seq![first] + more, sep) == first + sep + joined(more, sep),
    decreases more.len(),
{
    let all = seq![first] + more;
    if more.len() == 1 {
        assert(all.drop_last() =~= seq![first]);
        assert(all.last() == more[0]);
        assert(joined(seq![first], sep) == first);
    } else {
        lemma_joined_front(first, more.drop_last(), sep);
        assert(all.drop_last() =~= seq![first] + more.drop_last());
        assert(all.last() == more.last());
        assert(joined(all, sep) =~= first + sep + joined(more, sep));
    }
}

/// Pieces without a separator in them that are joined by it are what the text
/// is cut into.
pub proof fn law_joining_is_undone_by_cutting(pieces: Seq<Seq<char>>, sep: char)
    requires
        pieces.len() > 0,
        forall|i: int| 0 <= i < pieces.len() ==> !(#[trigger] pieces[i]).contains(sep),
    ensures
        split(joined(pieces, seq![sep]), sep) == pieces,
    decreases pieces.len(),
{
    let first = pieces[0];
    let more = pieces.skip(1);
    let s = joined(pieces, seq![sep]);
    let n = first.len() as int;
    assert(!first.contains(sep));
    if more.len() == 0 {
        assert(pieces =~= seq![first]);
        assert(s == first);
        assert forall|i: int| 0 <= i < n implies Class::Not(sep).holds(#[trigger] s[i]) by {
            assert(first.contains(first[i]));
        }
        lemma_lead_is(s, Class::Not(sep), n);
        assert(split(s, sep) =~= pieces);
    } else {
        assert(pieces =~= seq![first] + more);
        lemma_joined_front(first, more, seq![sep]);
        assert forall|i: int| 0 <= i < more.len() implies !(#[trigger] more[i]).contains(sep) by {
            assert(more[i] == pieces[i + 1]);
        }
        law_joining_is_undone_by_cutting(more, sep);
        assert forall|i: int| 0 <= i < n implies Class::Not(sep).holds(#[trigger] s[i]) by {
            assert(first.contains(first[i]));
            assert(s[i] == first[i]);
        }
        assert(s[n] == sep);
        lemma_lead_is(s, Class::Not(sep), n);
        assert(s.take(n) =~= first);
        assert(s.skip(n + 1) =~= joined(more, seq![sep]));
    }
}

/// Joining puts the separator between each two pieces, and nowhere else.
pub proof fn law_joining(list: Seq<Seq<char>>, last: Seq<char>, sep: Seq<char>)
    ensures
        joined(seq![], sep) == Seq::<char>::empty(),
        joined(seq![last], sep) == last,
        list.len() > 0 ==> joined(list.push(last), sep) == joined(list, sep) + sep + last,
{
    assert(list.push(last).drop_last() =~= list);
}

/// A text is cut at the first separator: what stands before it has none.
pub proof fn law_first_cut(a: Seq<char>, b: Seq<char>, s: Seq<char>, sep: char)
    requires
        !a.contains(sep),
        !s.contains(sep),
    ensures
        split_first(a + seq![sep] + b, sep) == Some((a, b)),
        before(a + seq![sep] + b, sep) == a,
        split_first(s, sep) is None,
        before(s, sep) == s,
{
    let all = a + seq![sep] + b;
    let n = a.len() as int;
    assert forall|i: int| 0 <= i < n implies Class::Not(sep).holds(#[trigger] all[i]) by {
        assert(a.contains(a[i]));
        assert(all[i] == a[i]);
    }
    assert(all[n] == sep);
    lemma_lead_is(all, Class::Not(sep), n);
    assert(all.take(n) =~= a);
    assert(all.skip(n + 1) =~= b);
    assert forall|i: int| 0 <= i < s.len() implies Class::Not(sep).holds(#[trigger] s[i]) by {
        assert(s.contains(s[i]));
    }
    lemma_lead_is(s, Class::Not(sep), s.len() as int);
    assert(s.take(s.len() as int) =~= s);
}

/// The first word of a text is what stands before the first white space, once
/// that in front is gone.
pub proof fn law_first_words(gap: Seq<char>, word: Seq<char>, rest: Seq<char>)
    requires
        is_blank(gap),
        word.len() > 0,
        forall|i: int| 0 <= i < word.len() ==> !is_space(#[trigger] word[i]),
        rest.len() > 0 ==> is_space(rest[0]),
    ensures
        first_word(gap + word + rest) == Some(word),
        first_word(gap) is None,
{
    let s = gap + word + rest;
    assert forall|i: int| 0 <= i < gap.len() implies Class::Space.holds(#[trigger] s[i]) by {
        assert(s[i] == gap[i]);
    }
    assert(s[gap.len() as int] == word[0]);
    lemma_lead_is(s, Class::Space, gap.len() as int);
    let t = trim_front(s, Class::Space);
    assert(t =~= word + rest);
    assert forall|i: int| 0 <= i < word.len() implies Class::Solid.holds(#[trigger] t[i]) by {
        assert(t[i] == word[i]);
    }
    if rest.len() > 0 {
        assert(t[word.len() as int] == rest[0]);
    }
    lemma_lead_is(t, Class::Solid, word.len() as int);
    assert(t.take(word.len() as int) =~= word);
    assert forall|i: int| 0 <= i < gap.len() implies Class::Space.holds(#[trigger] gap[i]) by {}
    lemma_lead_is(gap, Class::Space, gap.len() as int);
    assert(trim_front(gap, Class::Space).len() == 0);
}

/// A text is found where it stands first.
pub proof fn law_first_occurrence(s: Seq<char>, p: Seq<char>, i: int)
    requires
        0 <= i <= s.len(),
        begins(s.skip(i), p),
        forall|j: int| 0 <= j < i ==> !begins(#[trigger] s.skip(j), p),
    ensures
        first_in(s, p) == Some(i),
    decreases s.len(),
{
    assert(s.skip(0) =~= s);
    if i > 0 {
        let rest = s.skip(1);
        assert(!begins(s.skip(0), p));
        assert(rest.skip(i - 1) =~= s.skip(i));
        assert forall|j: int| 0 <= j < i - 1 implies !begins(#[trigger] rest.skip(j), p) by {
            assert(rest.skip(j) =~= s.skip(j + 1));
        }
        law_first_occurrence(rest, p, i - 1);
    }
}

/// A text that stands nowhere is not found.
pub proof fn law_no_occurrence(s: Seq<char>, p: Seq<char>)
    requires
        forall|j: int| 0 <= j <= s.len() ==> !begins(#[trigger] s.skip(j), p),
    ensures
        first_in(s, p) is None,
    decreases s.len(),
{
    assert(s.skip(0) =~= s);
    assert(!begins(s.skip(0), p));
    if s.len() > 0 {
        let rest = s.skip(1);
        assert forall|j: int| 0 <= j <= rest.len() implies !begins(#[trigger] rest.skip(j), p) by {
            assert(rest.skip(j) =~= s.skip(j + 1));
        }
        law_no_occurrence(rest, p);
    }
}

/// The lines of a text, joined by line breaks, are the text again, and no line
/// has a line break in it.
pub proof fn law_lines_are_undone_by_joining(s: Seq<char>)
    ensures
        lines(s).len() > 0,
        joined(lines(s), seq!['\r', '\n']) == s,
        forall|i: int, k: int|
            0 <= i < lines(s).len() && 0 <= k && k + 1 < lines(s)[i].len() ==> !(
            #[trigger] lines(s)[i][k] == '\r' && lines(s)[i][k + 1] == '\n'),
    decreases s.len(),
{
    let n = line_len(s);
    lemma_line_len(s);
    let first = s.take(n);
    if n < s.len() {
        let rest = s.skip(n + 2);
        law_lines_are_undone_by_joining(rest);
        let more = lines(rest);
        assert(lines(s) == seq![first] + more);
        lemma_joined_front(first, more, seq!['\r', '\n']);
        assert(first + seq!['\r', '\n'] + rest =~= s);
        assert forall|i: int, k: int|
            0 <= i < lines(s).len() && 0 <= k && k + 1 < lines(s)[i].len() implies !(
        #[trigger] lines(s)[i][k] == '\r' && lines(s)[i][k + 1] == '\n') by {
            if i > 0 {
                assert(lines(s)[i] == more[i - 1]);
                assert(!(more[i - 1][k] == '\r' && more[i - 1][k + 1] == '\n'));
            } else {
                assert(lines(s)[i][k] == s[k]);
            }
        }
    } else {
        assert(lines(s) == seq![s]);
    }
}

} // verus!
