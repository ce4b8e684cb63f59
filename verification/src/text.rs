//! Text as sequences of characters.
//!
//! A `&str` is turned into a vector of characters once; everything after that
//! is done on slices of it, so that positions are character positions both
//! in the code and in the contracts.

use vstd::prelude::*;

verus! {

/// Appends one character to a string (`String::push`): the characters of the
/// string afterwards are those it had, followed by the new one.
pub assume_specification[ String::push ](s: &mut String, c: char)
    ensures
        final(s)@ == old(s)@.push(c),
;

/// Whether a character has the Unicode `White_Space` property.
pub open spec fn is_space(c: char) -> bool {
    ||| '\u{9}' <= c <= '\u{d}'
    ||| c == ' '
    ||| c == '\u{85}'
    ||| c == '\u{a0}'
    ||| c == '\u{1680}'
    ||| '\u{2000}' <= c <= '\u{200a}'
    ||| c == '\u{2028}'
    ||| c == '\u{2029}'
    ||| c == '\u{202f}'
    ||| c == '\u{205f}'
    ||| c == '\u{3000}'
}

/// A class of characters.
#[derive(Clone, Copy)]
pub enum Class {
    /// White space.
    Space,
    /// Anything but white space.
    Solid,
    /// One character.
    Only(char),
    /// Anything but one character.
    Not(char),
    /// What a word of the configuration language is made of.
    Word,
    /// Anything but a path separator of either kind.
    Segment,
}

impl Class {
    /// Whether the class has the character `c`.
    pub open spec fn holds(self, c: char) -> bool {
        match self {
            Class::Space => is_space(c),
            Class::Solid => !is_space(c),
            Class::Only(x) => c == x,
            Class::Not(x) => c != x,
            Class::Word => !is_space(c) && c != '#' && c != '{' && c != '}' && c != ';',
            Class::Segment => c != '/' && c != '\\',
        }
    }

    /// Tests whether the class has the character `c`.
    pub fn has(self, c: char) -> (r: bool)
        ensures
            r == self.holds(c),
    {
        match self {
            Class::Space => is_whitespace(c),
            Class::Solid => !is_whitespace(c),
            Class::Only(x) => c == x,
            Class::Not(x) => c != x,
            Class::Word => !is_whitespace(c) && c != '#' && c != '{' && c != '}' && c != ';',
            Class::Segment => c != '/' && c != '\\',
        }
    }
}

/// Tests for the Unicode `White_Space` property.
pub fn is_whitespace(c: char) -> (r: bool)
    ensures
        r == is_space(c),
{
    ('\u{9}' <= c && c <= '\u{d}') || c == ' ' || c == '\u{85}' || c == '\u{a0}' || c == '\u{1680}'
        || ('\u{2000}' <= c && c <= '\u{200a}') || c == '\u{2028}' || c == '\u{2029}' || c
        == '\u{202f}' || c == '\u{205f}' || c == '\u{3000}'
}

/// How many characters at the front of `s` are of class `k`.
pub open spec fn lead(s: Seq<char>, k: Class) -> int
    decreases s.len(),
{
    if s.len() > 0 && k.holds(s[0]) {
        1 + lead(s.skip(1), k)
    } else {
        0
    }
}

/// How many characters at the back of `s` are of class `k`.
pub open spec fn tail(s: Seq<char>, k: Class) -> int
    decreases s.len(),
{
    if s.len() > 0 && k.holds(s.last()) {
        1 + tail(s.drop_last(), k)
    } else {
        0
    }
}

/// `lead` is a position in `s` up to which every character is of class `k`,
/// and at which one is not.
pub proof fn lemma_lead(s: Seq<char>, k: Class)
    ensures
        0 <= lead(s, k) <= s.len(),
        forall|i: int| 0 <= i < lead(s, k) ==> k.holds(#[trigger] s[i]),
        lead(s, k) < s.len() ==> !k.holds(s[lead(s, k)]),
    decreases s.len(),
{
    if s.len() > 0 && k.holds(s[0]) {
        lemma_lead(s.skip(1), k);
        let n = lead(s.skip(1), k);
        assert forall|i: int| 0 <= i < lead(s, k) implies k.holds(#[trigger] s[i]) by {
            if i > 0 {
                assert(s.skip(1)[i - 1] == s[i]);
            }
        }
        if lead(s, k) < s.len() {
            assert(s.skip(1)[n] == s[n + 1]);
        }
    }
}

/// Only one position has what `lemma_lead` says of `lead`.
pub proof fn lemma_lead_is(s: Seq<char>, k: Class, n: int)
    requires
        0 <= n <= s.len(),
        forall|i: int| 0 <= i < n ==> k.holds(#[trigger] s[i]),
        n < s.len() ==> !k.holds(s[n]),
    ensures
        lead(s, k) == n,
{
    lemma_lead(s, k);
    let m = lead(s, k);
    if m < n {
        assert(k.holds(s[m]));
    } else if n < m {
        assert(k.holds(s[n]));
    }
}

/// `lead` counts the first character, if that one is of class `k`.
pub proof fn lemma_lead_front(s: Seq<char>, k: Class)
    requires
        s.len() > 0,
        k.holds(s[0]),
    ensures
        lead(s, k) >= 1,
{
    lemma_lead(s, k);
}

/// `tail` counts back to the last character that is not of class `k`.
pub proof fn lemma_tail(s: Seq<char>, k: Class)
    ensures
        0 <= tail(s, k) <= s.len(),
        forall|i: int| s.len() - tail(s, k) <= i < s.len() ==> k.holds(#[trigger] s[i]),
        tail(s, k) < s.len() ==> !k.holds(s[s.len() - tail(s, k) - 1]),
    decreases s.len(),
{
    if s.len() > 0 && k.holds(s.last()) {
        lemma_tail(s.drop_last(), k);
        assert forall|i: int| s.len() - tail(s, k) <= i < s.len() implies k.holds(
            #[trigger] s[i],
        ) by {
            if i < s.len() - 1 {
                assert(s.drop_last()[i] == s[i]);
            }
        }
    }
}

/// Only one count has what `lemma_tail` says of `tail`.
pub proof fn lemma_tail_is(s: Seq<char>, k: Class, n: int)
    requires
        0 <= n <= s.len(),
        forall|i: int| s.len() - n <= i < s.len() ==> k.holds(#[trigger] s[i]),
        n < s.len() ==> !k.holds(s[s.len() - n - 1]),
    ensures
        tail(s, k) == n,
{
    lemma_tail(s, k);
    let m = tail(s, k);
    if m < n {
        assert(k.holds(s[s.len() - m - 1]));
    } else if n < m {
        assert(k.holds(s[s.len() - n - 1]));
    }
}

/// Text without white space at its ends is as it is when trimmed.
pub proof fn lemma_trimmed_is(s: Seq<char>)
    requires
        s.len() > 0 ==> !is_space(s[0]) && !is_space(s.last()),
    ensures
        trimmed(s) == s,
{
    lemma_lead_is(s, Class::Space, 0);
    assert(s.skip(0) =~= s);
    lemma_tail_is(s, Class::Space, 0);
    assert(s.take(s.len() as int) =~= s);
}

/// `s` without the characters of class `k` at its front.
pub open spec fn trim_front(s: Seq<char>, k: Class) -> Seq<char> {
    s.skip(lead(s, k))
}

/// `s` without the characters of class `k` at its back.
pub open spec fn trim_back(s: Seq<char>, k: Class) -> Seq<char> {
    s.take(s.len() - tail(s, k))
}

/// `s` without the characters of class `k` at either end.
pub open spec fn trim_both(s: Seq<char>, k: Class) -> Seq<char> {
    trim_back(trim_front(s, k), k)
}

/// `s` without white space at either end.
pub open spec fn trimmed(s: Seq<char>) -> Seq<char> {
    trim_both(s, Class::Space)
}

/// Counts the characters of class `k` at the front.
pub fn lead_len(s: &[char], k: Class) -> (n: usize)
    ensures
        n == lead(s@, k),
        n <= s@.len(),
{
    let mut i: usize = 0;
    while i < s.len() && k.has(s[i])
        invariant
            i <= s@.len(),
            forall|j: int| 0 <= j < i ==> k.holds(#[trigger] s@[j]),
        decreases s@.len() - i,
    {
        i += 1;
    }
    proof {
        lemma_lead_is(s@, k, i as int);
    }
    i
}

/// Counts the characters of class `k` at the back.
pub fn tail_len(s: &[char], k: Class) -> (n: usize)
    ensures
        n == tail(s@, k),
        n <= s@.len(),
{
    let mut i: usize = s.len();
    while i > 0 && k.has(s[i - 1])
        invariant
            i <= s@.len(),
            forall|j: int| i <= j < s@.len() ==> k.holds(#[trigger] s@[j]),
        decreases i,
    {
        i -= 1;
    }
    proof {
        lemma_tail_is(s@, k, s@.len() - i);
    }
    s.len() - i
}

/// Drops the characters of class `k` at the front.
pub fn trim_start(s: &[char], k: Class) -> (r: &[char])
    ensures
        r@ == trim_front(s@, k),
{
    let n: usize = lead_len(s, k);
    vstd::slice::slice_subrange(s, n, s.len())
}

/// Drops the characters of class `k` at the back.
pub fn trim_end(s: &[char], k: Class) -> (r: &[char])
    ensures
        r@ == trim_back(s@, k),
{
    let n: usize = tail_len(s, k);
    vstd::slice::slice_subrange(s, 0, s.len() - n)
}

/// Drops white space at both ends.
pub fn trim(s: &[char]) -> (r: &[char])
    ensures
        r@ == trimmed(s@),
{
    trim_end(trim_start(s, Class::Space), Class::Space)
}

/// The characters of a string.
pub fn chars_of(s: &str) -> (r: Vec<char>)
    ensures
        r@ == s@,
{
    let mut out: Vec<char> = Vec::new();
    for c in it: s.chars()
        invariant
            it.seq() == s@,
            out@ == s@.take(it.index()),
    {
        proof {
            assert(s@.take(it.index() + 1) =~= s@.take(it.index()).push(c));
        }
        out.push(c);
    }
    assert(s@.take(s@.len() as int) =~= s@);
    out
}

/// A string of given characters.
pub fn string_of(s: &[char]) -> (r: String)
    ensures
        r@ == s@,
{
    let mut out = String::new();
    let mut i: usize = 0;
    while i < s.len()
        invariant
            i <= s@.len(),
            out@ == s@.take(i as int),
        decreases s@.len() - i,
    {
        proof {
            assert(s@.take(i + 1) =~= s@.take(i as int).push(s@[i as int]));
        }
        out.push(s[i]);
        i += 1;
    }
    assert(s@.take(s@.len() as int) =~= s@);
    out
}

/// What a list of strings holds.
pub open spec fn texts(v: Seq<String>) -> Seq<Seq<char>> {
    v.map_values(|s: String| s@)
}

/// What a list of slices holds.
pub open spec fn pieces(v: Seq<&[char]>) -> Seq<Seq<char>> {
    v.map_values(|s: &[char]| s@)
}

/// Whether two runs of characters are the same.
pub fn same(a: &[char], b: &[char]) -> (r: bool)
    ensures
        r == (a@ == b@),
{
    if a.len() != b.len() {
        return false;
    }
    let mut i: usize = 0;
    while i < a.len()
        invariant
            i <= a@.len(),
            a@.len() == b@.len(),
            forall|j: int| 0 <= j < i ==> a@[j] == b@[j],
        decreases a@.len() - i,
    {
        if a[i] != b[i] {
            return false;
        }
        i += 1;
    }
    assert(a@ =~= b@);
    true
}

/// Whether a run of characters is the given string.
pub fn is_str(a: &[char], b: &str) -> (r: bool)
    ensures
        r == (a@ == b@),
{
    let b = chars_of(b);
    same(a, b.as_slice())
}

/// Whether two strings are the same.
pub fn str_eq(a: &str, b: &str) -> (r: bool)
    ensures
        r == (a@ == b@),
{
    let a = chars_of(a);
    is_str(a.as_slice(), b)
}

/// Whether `p` is what `s` begins with.
pub open spec fn begins(s: Seq<char>, p: Seq<char>) -> bool {
    p.len() <= s.len() && s.take(p.len() as int) == p
}

/// Tests whether `s` begins with `p`.
pub fn begins_with(s: &[char], p: &[char]) -> (r: bool)
    ensures
        r == begins(s@, p@),
{
    p.len() <= s.len() && same(vstd::slice::slice_subrange(s, 0, p.len()), p)
}

/// An ASCII capital as its small letter; any other character as it is.
pub open spec fn lower_char(c: char) -> char {
    if 'A' <= c <= 'Z' {
        ((c as u8) + 32) as char
    } else {
        c
    }
}

/// Text with its ASCII capitals made small.
pub open spec fn lower(s: Seq<char>) -> Seq<char> {
    s.map_values(|c: char| lower_char(c))
}

/// Makes one ASCII capital small.
pub fn to_lower_char(c: char) -> (r: char)
    ensures
        r == lower_char(c),
{
    if 'A' <= c && c <= 'Z' {
        ((c as u8) + 32) as char
    } else {
        c
    }
}

/// Makes ASCII capitals small.
pub fn to_lower(s: &[char]) -> (r: Vec<char>)
    ensures
        r@ == lower(s@),
{
    let mut out: Vec<char> = Vec::new();
    let mut i: usize = 0;
    while i < s.len()
        invariant
            i <= s@.len(),
            out@ == lower(s@.take(i as int)),
        decreases s@.len() - i,
    {
        proof {
            assert(lower(s@.take(i + 1)) =~= lower(s@.take(i as int)).push(lower_char(s@[i as int])));
        }
        out.push(to_lower_char(s[i]));
        i += 1;
    }
    assert(s@.take(s@.len() as int) =~= s@);
    out
}

/// Whether two texts differ at most in the case of ASCII letters.
pub open spec fn same_ignoring_case(a: Seq<char>, b: Seq<char>) -> bool {
    lower(a) == lower(b)
}

/// Tests whether two texts differ at most in the case of ASCII letters.
pub fn eq_ignore_case(a: &[char], b: &[char]) -> (r: bool)
    ensures
        r == same_ignoring_case(a@, b@),
{
    let a = to_lower(a);
    let b = to_lower(b);
    same(a.as_slice(), b.as_slice())
}

/// An ASCII small letter as its capital; any other character as it is.
pub open spec fn upper_char(c: char) -> char {
    if 'a' <= c <= 'z' {
        ((c as u8) - 32) as char
    } else {
        c
    }
}

/// Text with its small ASCII letters made capitals.
pub open spec fn upper(s: Seq<char>) -> Seq<char> {
    s.map_values(|c: char| upper_char(c))
}

/// Whether all of `s` is ASCII.
pub open spec fn all_ascii(s: Seq<char>) -> bool {
    forall|i: int| 0 <= i < s.len() ==> #[trigger] s[i] <= '\u{7f}'
}

/// The text that `str::to_uppercase` makes of a text.
pub uninterp spec fn uppercase(s: Seq<char>) -> Seq<char>;

/// `str::to_uppercase`: the text in capitals, by the case mapping of Unicode.
/// Of ASCII text only the small letters change, each to its capital. What
/// becomes of other characters depends on the text alone, and nothing more is
/// said of it.
#[verifier::external_body]
pub(crate) fn to_uppercase(s: &str) -> (r: String)
    ensures
        r@ == uppercase(s@),
        all_ascii(s@) ==> r@ == upper(s@),
{
    s.to_uppercase()
}

/// Text in capitals: where it is ASCII its small letters made capitals, and what
/// `str::to_uppercase` makes of it elsewhere.
pub open spec fn capitals(s: Seq<char>) -> Seq<char> {
    if all_ascii(s) {
        upper(s)
    } else {
        uppercase(s)
    }
}

/// Three texts one after the other.
pub fn concat3(a: &str, b: &str, c: &str) -> (r: String)
    ensures
        r@ == a@ + b@ + c@,
{
    let mut out = a.to_owned();
    out.append(b);
    out.append(c);
    out
}

/// The runs of characters between the occurrences of `sep` in `s`.
pub open spec fn split(s: Seq<char>, sep: char) -> Seq<Seq<char>>
    decreases s.len(),
{
    let n = lead(s, Class::Not(sep));
    if n < s.len() {
        proof {
            lemma_lead(s, Class::Not(sep));
        }
        seq![s.take(n)] + split(s.skip(n + 1), sep)
    } else {
        seq![s]
    }
}

/// What stands before and after the first `sep` in `s`, if there is one.
pub open spec fn split_first(s: Seq<char>, sep: char) -> Option<(Seq<char>, Seq<char>)> {
    let n = lead(s, Class::Not(sep));
    if n < s.len() {
        Some((s.take(n), s.skip(n + 1)))
    } else {
        None
    }
}

/// What stands before the first `sep` in `s`, or all of `s`.
pub open spec fn before(s: Seq<char>, sep: char) -> Seq<char> {
    s.take(lead(s, Class::Not(sep)))
}

/// Cuts `s` at every `sep`.
pub fn split_at_each(s: &[char], sep: char) -> (r: Vec<&[char]>)
    ensures
        pieces(r@) == split(s@, sep),
        r@.len() >= 1,
{
    let mut out: Vec<&[char]> = Vec::new();
    let mut rest: &[char] = s;
    assert(pieces(out@) + split(rest@, sep) =~= split(s@, sep));
    loop
        invariant
            pieces(out@) + split(rest@, sep) == split(s@, sep),
        decreases rest@.len(),
    {
        let n: usize = lead_len(rest, Class::Not(sep));
        let ghost before = out@;
        if n < rest.len() {
            let piece = vstd::slice::slice_subrange(rest, 0, n);
            out.push(piece);
            proof {
                assert(pieces(out@) =~= pieces(before).push(piece@));
                assert(pieces(out@) + split(rest@.skip(n + 1), sep) =~= pieces(before) + (seq![
                    piece@,
                ] + split(rest@.skip(n + 1), sep)));
            }
            rest = vstd::slice::slice_subrange(rest, n + 1, rest.len());
        } else {
            out.push(rest);
            proof {
                assert(pieces(out@) =~= pieces(before) + seq![rest@]);
            }
            return out;
        }
    }
}

/// Cuts `s` at the first `sep`.
pub fn split_once(s: &[char], sep: char) -> (r: Option<(&[char], &[char])>)
    ensures
        match r {
            Some((a, b)) => split_first(s@, sep) == Some((a@, b@)),
            None => split_first(s@, sep) is None,
        },
{
    let n: usize = lead_len(s, Class::Not(sep));
    if n < s.len() {
        Some((vstd::slice::slice_subrange(s, 0, n), vstd::slice::slice_subrange(s, n + 1, s.len())))
    } else {
        None
    }
}

/// The part of `s` before the first `sep`.
pub fn part_before(s: &[char], sep: char) -> (r: &[char])
    ensures
        r@ == before(s@, sep),
{
    let n: usize = lead_len(s, Class::Not(sep));
    vstd::slice::slice_subrange(s, 0, n)
}

/// The first run of characters of `s` that are not white space, if any.
pub open spec fn first_word(s: Seq<char>) -> Option<Seq<char>> {
    let t = trim_front(s, Class::Space);
    if t.len() > 0 {
        Some(t.take(lead(t, Class::Solid)))
    } else {
        None
    }
}

/// Finds the first run of characters that are not white space.
pub fn word_of(s: &[char]) -> (r: Option<&[char]>)
    ensures
        match r {
            Some(w) => first_word(s@) == Some(w@),
            None => first_word(s@) is None,
        },
{
    let t = trim_start(s, Class::Space);
    if t.len() > 0 {
        let n: usize = lead_len(t, Class::Solid);
        Some(vstd::slice::slice_subrange(t, 0, n))
    } else {
        None
    }
}

/// The first position at which `p` stands in `s`.
pub open spec fn first_in(s: Seq<char>, p: Seq<char>) -> Option<int>
    decreases s.len(),
{
    if begins(s, p) {
        Some(0)
    } else if s.len() == 0 {
        None
    } else {
        match first_in(s.skip(1), p) {
            Some(i) => Some(i + 1),
            None => None,
        }
    }
}

/// Finds the first `p` in `s`.
pub fn find_in(s: &[char], p: &[char]) -> (r: Option<usize>)
    ensures
        match r {
            Some(i) => first_in(s@, p@) == Some(i as int) && i + p@.len() <= s@.len(),
            None => first_in(s@, p@) is None,
        },
{
    let mut i: usize = 0;
    assert(s@.skip(0) =~= s@);
    while i < s.len()
        invariant
            i <= s@.len(),
            first_in(s@, p@) == match first_in(s@.skip(i as int), p@) {
                Some(k) => Some(i + k),
                None => None,
            },
        decreases s@.len() - i,
    {
        if begins_with(vstd::slice::slice_subrange(s, i, s.len()), p) {
            return Some(i);
        }
        assert(s@.skip(i as int).skip(1) =~= s@.skip(i + 1));
        i += 1;
    }
    if p.len() == 0 {
        assert(begins(s@.skip(i as int), p@)) by {
            assert(s@.skip(i as int).take(0) =~= p@);
        }
        Some(i)
    } else {
        None
    }
}

/// The texts of a list one after the other, with `sep` between them.
pub open spec fn joined(list: Seq<Seq<char>>, sep: Seq<char>) -> Seq<char>
    decreases list.len(),
{
    if list.len() == 0 {
        seq![]
    } else if list.len() == 1 {
        list[0]
    } else {
        joined(list.drop_last(), sep) + sep + list.last()
    }
}

/// Joins the strings of a list, with `sep` between them.
pub fn join(list: &Vec<String>, sep: &str) -> (r: String)
    ensures
        r@ == joined(texts(list@), sep@),
{
    let mut out = String::new();
    let mut i: usize = 0;
    while i < list.len()
        invariant
            i <= list@.len(),
            out@ == joined(texts(list@).take(i as int), sep@),
        decreases list@.len() - i,
    {
        proof {
            let t = texts(list@);
            assert(t.take(i + 1).drop_last() =~= t.take(i as int));
            assert(t.take(i + 1).last() == list@[i as int]@);
        }
        if i > 0 {
            out.append(sep);
        }
        out.append(list[i].as_str());
        i += 1;
    }
    assert(texts(list@).take(list@.len() as int) =~= texts(list@));
    out
}

/// How many characters of `s` stand before its first line break, which is a
/// carriage return and a line feed; all of them where it has none.
pub open spec fn line_len(s: Seq<char>) -> int
    decreases s.len(),
{
    if s.len() < 2 {
        s.len() as int
    } else if s[0] == '\r' && s[1] == '\n' {
        0
    } else {
        1 + line_len(s.skip(1))
    }
}

/// The lines of `s`, without the line breaks between them.
pub open spec fn lines(s: Seq<char>) -> Seq<Seq<char>>
    decreases s.len(),
{
    let n = line_len(s);
    if n < s.len() {
        proof {
            lemma_line_len(s);
        }
        seq![s.take(n)] + lines(s.skip(n + 2))
    } else {
        seq![s]
    }
}

/// `line_len` is where the first line break stands, or the end.
pub proof fn lemma_line_len(s: Seq<char>)
    ensures
        0 <= line_len(s) <= s.len(),
        line_len(s) < s.len() ==> line_len(s) + 2 <= s.len() && s[line_len(s)] == '\r' && s[
            line_len(s) + 1] == '\n',
        forall|i: int| 0 <= i < line_len(s) && i + 1 < s.len() ==> !(#[trigger] s[i] == '\r' && s[i
            + 1] == '\n'),
    decreases s.len(),
{
    if s.len() >= 2 && !(s[0] == '\r' && s[1] == '\n') {
        lemma_line_len(s.skip(1));
        let n = line_len(s.skip(1));
        if n + 1 < s.len() {
            assert(s.skip(1)[n] == s[n + 1]);
            assert(s.skip(1)[n + 1] == s[n + 2]);
        }
        assert forall|i: int| 0 <= i < line_len(s) && i + 1 < s.len() implies !(#[trigger] s[i]
            == '\r' && s[i + 1] == '\n') by {
            if i > 0 {
                assert(s.skip(1)[i - 1] == s[i]);
                assert(s.skip(1)[i] == s[i + 1]);
            }
        }
    }
}

/// Counts the characters before the first line break.
fn first_line_len(s: &[char]) -> (n: usize)
    ensures
        n == line_len(s@),
        n < s@.len() ==> n + 2 <= s@.len(),
{
    let mut i: usize = 0;
    proof {
        lemma_line_len(s@);
    }
    while i < s.len() && s.len() - i > 1
        invariant
            i <= s.len(),
            forall|j: int|
                0 <= j < i && j + 1 < s@.len() ==> !(#[trigger] s@[j] == '\r' && s@[j + 1] == '\n'),
            0 <= line_len(s@) <= s@.len(),
            line_len(s@) < s@.len() ==> line_len(s@) + 2 <= s@.len() && s@[line_len(s@)] == '\r'
                && s@[line_len(s@) + 1] == '\n',
            forall|j: int|
                0 <= j < line_len(s@) && j + 1 < s@.len() ==> !(#[trigger] s@[j] == '\r' && s@[j
                    + 1] == '\n'),
        decreases s@.len() - i,
    {
        if s[i] == '\r' && s[i + 1] == '\n' {
            assert(s@[i as int] == '\r');
            return i;
        }
        i += 1;
    }
    s.len()
}

/// Cuts `s` into its lines.
pub fn split_lines(s: &[char]) -> (r: Vec<&[char]>)
    ensures
        pieces(r@) == lines(s@),
        r@.len() >= 1,
{
    let mut out: Vec<&[char]> = Vec::new();
    let mut rest: &[char] = s;
    assert(pieces(out@) + lines(rest@) =~= lines(s@));
    loop
        invariant
            pieces(out@) + lines(rest@) == lines(s@),
        decreases rest@.len(),
    {
        let n: usize = first_line_len(rest);
        let ghost before = out@;
        if n < rest.len() {
            let piece = vstd::slice::slice_subrange(rest, 0, n);
            out.push(piece);
            proof {
                assert(pieces(out@) =~= pieces(before).push(piece@));
                assert(pieces(out@) + lines(rest@.skip(n + 2)) =~= pieces(before) + (seq![piece@]
                    + lines(rest@.skip(n + 2))));
            }
            rest = vstd::slice::slice_subrange(rest, n + 2, rest.len());
        } else {
            out.push(rest);
            proof {
                lemma_line_len(rest@);
                assert(pieces(out@) =~= pieces(before) + seq![rest@]);
            }
            return out;
        }
    }
}

} // verus!
