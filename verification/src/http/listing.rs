//! Directory listings.

use crate::text::chars_of;
use vstd::prelude::*;
use vstd::relations::{sorted_by, total_ordering};
use vstd::seq_lib::lemma_sorted_unique;

verus! {

/// A character as it is written in HTML.
pub open spec fn html_char(c: char) -> Seq<char> {
    if c == '&' {
        "&amp;"@
    } else if c == '<' {
        "&lt;"@
    } else if c == '>' {
        "&gt;"@
    } else if c == '"' {
        "&quot;"@
    } else {
        seq![c]
    }
}

/// Text as it is written in HTML.
pub open spec fn html_text(s: Seq<char>) -> Seq<char>
    decreases s.len(),
{
    if s.len() == 0 {
        seq![]
    } else {
        html_text(s.drop_last()) + html_char(s.last())
    }
}

/// Escapes the characters that HTML gives a meaning to.
pub fn html_escape(s: &str) -> (r: String)
    ensures
        r@ == html_text(s@),
{
    let chars = chars_of(s);
    let mut out = String::new();
    assert(out@ =~= seq![]);
    let mut i: usize = 0;
    while i < chars.len()
        invariant
            i <= chars@.len(),
            chars@ == s@,
            out@ == html_text(s@.take(i as int)),
        decreases chars@.len() - i,
    {
        proof {
            assert(s@.take(i + 1).drop_last() =~= s@.take(i as int));
        }
        let c: char = chars[i];
        if c == '&' {
            out.append("&amp;");
        } else if c == '<' {
            out.append("&lt;");
        } else if c == '>' {
            out.append("&gt;");
        } else if c == '"' {
            out.append("&quot;");
        } else {
            out.push(c);
            assert(out@ =~= html_text(s@.take(i as int)) + seq![c]);
        }
        i += 1;
    }
    assert(s@.take(s@.len() as int) =~= s@);
    out
}

/// Text that was escaped has none of the characters that open a tag or end an
/// attribute.
pub proof fn law_escaped_text_is_inert(s: Seq<char>)
    ensures
        !html_text(s).contains('<'),
        !html_text(s).contains('>'),
        !html_text(s).contains('"'),
    decreases s.len(),
{
    if s.len() > 0 {
        law_escaped_text_is_inert(s.drop_last());
        let front = html_text(s.drop_last());
        let back = html_char(s.last());
        reveal_strlit("&amp;");
        reveal_strlit("&lt;");
        reveal_strlit("&gt;");
        reveal_strlit("&quot;");
        assert forall|i: int| 0 <= i < html_text(s).len() implies #[trigger] html_text(s)[i] != '<'
            && html_text(s)[i] != '>' && html_text(s)[i] != '"' by {
            if i < front.len() {
                assert(html_text(s)[i] == front[i]);
                assert(front.contains(front[i]));
            } else {
                assert(html_text(s)[i] == back[i - front.len()]);
            }
        }
    }
}

/// Whether the text `a` comes before `b` or is `b`, by the code points of
/// their characters.
pub open spec fn text_le(a: Seq<char>, b: Seq<char>) -> bool
    decreases a.len(),
{
    if a.len() == 0 {
        true
    } else if b.len() == 0 {
        false
    } else if a[0] != b[0] {
        a[0] < b[0]
    } else {
        text_le(a.skip(1), b.skip(1))
    }
}

/// An entry of a directory: its name, and whether it is a directory.
pub type Entry = (Seq<char>, bool);

/// Whether the entry `a` comes before `b` or is `b`: by name, and a file
/// before a directory of the same name.
pub open spec fn entry_le(a: Entry, b: Entry) -> bool {
    if a.0 == b.0 {
        a.1 ==> b.1
    } else {
        text_le(a.0, b.0)
    }
}

/// The order of entries in a listing.
pub open spec fn entry_order() -> spec_fn(Entry, Entry) -> bool {
    |a: Entry, b: Entry| entry_le(a, b)
}

/// What a list of entries says.
pub open spec fn entry_views(v: Seq<(String, bool)>) -> Seq<Entry> {
    v.map_values(|e: (String, bool)| (e.0@, e.1))
}

proof fn lemma_text_le_antisymmetric(a: Seq<char>, b: Seq<char>)
    requires
        text_le(a, b),
        text_le(b, a),
    ensures
        a == b,
    decreases a.len(),
{
    if a.len() > 0 && b.len() > 0 {
        lemma_text_le_antisymmetric(a.skip(1), b.skip(1));
        assert forall|i: int| 0 <= i < a.len() implies a[i] == b[i] by {
            if i > 0 {
                assert(a.skip(1)[i - 1] == b.skip(1)[i - 1]);
            }
        }
        assert(a.skip(1).len() == b.skip(1).len());
    }
    assert(a =~= b);
}

proof fn lemma_text_le_transitive(a: Seq<char>, b: Seq<char>, c: Seq<char>)
    requires
        text_le(a, b),
        text_le(b, c),
    ensures
        text_le(a, c),
    decreases a.len(),
{
    if a.len() > 0 && b.len() > 0 && c.len() > 0 && a[0] == b[0] && b[0] == c[0] {
        lemma_text_le_transitive(a.skip(1), b.skip(1), c.skip(1));
    }
}

proof fn lemma_text_le_total(a: Seq<char>, b: Seq<char>)
    ensures
        text_le(a, b) || text_le(b, a),
    decreases a.len(),
{
    if a.len() > 0 && b.len() > 0 && a[0] == b[0] {
        lemma_text_le_total(a.skip(1), b.skip(1));
    }
}

/// Entries are totally ordered.
pub proof fn law_entries_are_ordered()
    ensures
        total_ordering(entry_order()),
{
    let r = entry_order();
    assert forall|a: Entry, b: Entry| #[trigger] r(a, b) && #[trigger] r(b, a) implies a == b by {
        if a.0 != b.0 {
            lemma_text_le_antisymmetric(a.0, b.0);
        }
    }
    assert forall|a: Entry, b: Entry, c: Entry| #[trigger] r(a, b) && #[trigger] r(b, c) implies r(
        a,
        c,
    ) by {
        if a.0 != b.0 && b.0 != c.0 {
            lemma_text_le_transitive(a.0, b.0, c.0);
            if a.0 == c.0 {
                lemma_text_le_antisymmetric(a.0, b.0);
            }
        }
    }
    assert forall|a: Entry, b: Entry| #[trigger] r(a, b) || #[trigger] r(b, a) by {
        lemma_text_le_total(a.0, b.0);
    }
}

/// Tests whether `a` comes before `b` or is `b`.
fn text_before(a: &str, b: &str) -> (r: bool)
    ensures
        r == text_le(a@, b@),
{
    let a = chars_of(a);
    let b = chars_of(b);
    let mut i: usize = 0;
    assert(a@.skip(0) =~= a@);
    assert(b@.skip(0) =~= b@);
    while i < a.len() && i < b.len() && a[i] == b[i]
        invariant
            i <= a@.len(),
            i <= b@.len(),
            text_le(a@, b@) == text_le(a@.skip(i as int), b@.skip(i as int)),
        decreases a@.len() - i,
    {
        assert(a@.skip(i as int).skip(1) =~= a@.skip(i + 1));
        assert(b@.skip(i as int).skip(1) =~= b@.skip(i + 1));
        i += 1;
    }
    if i == a.len() {
        true
    } else if i == b.len() {
        false
    } else {
        a[i] < b[i]
    }
}

/// Tests whether the entry `a` comes before `b` or is `b`.
fn entry_before(a: &(String, bool), b: &(String, bool)) -> (r: bool)
    ensures
        r == entry_le((a.0@, a.1), (b.0@, b.1)),
{
    if crate::text::str_eq(a.0.as_str(), b.0.as_str()) {
        !a.1 || b.1
    } else {
        text_before(a.0.as_str(), b.0.as_str())
    }
}

/// The entries in order.
pub open spec fn in_order(items: Seq<Entry>) -> Seq<Entry> {
    items.sort_by(entry_order())
}

/// Puts a list that has the entries of `items`, in order, in place of its
/// sorted one.
proof fn lemma_in_order(items: Seq<Entry>, sorted: Seq<Entry>)
    requires
        sorted_by(sorted, entry_order()),
        sorted.to_multiset() == items.to_multiset(),
    ensures
        sorted == in_order(items),
{
    law_entries_are_ordered();
    items.lemma_sort_by_ensures(entry_order());
    lemma_sorted_unique(sorted, in_order(items), entry_order());
}

/// Puts one more entry into a list that is in order.
fn insert_entry(out: &mut Vec<(String, bool)>, item: (String, bool))
    requires
        sorted_by(entry_views(old(out)@), entry_order()),
    ensures
        sorted_by(entry_views(final(out)@), entry_order()),
        entry_views(final(out)@).to_multiset() == entry_views(old(out)@).to_multiset().insert(
            (item.0@, item.1),
        ),
{
    let ghost had = entry_views(out@);
    let ghost e = (item.0@, item.1);
    proof {
        law_entries_are_ordered();
    }
    let mut i: usize = out.len();
    while i > 0 && !entry_before(&out[i - 1], &item)
        invariant
            i <= out@.len(),
            had == entry_views(out@),
            e == (item.0@, item.1),
            forall|j: int| i <= j < had.len() ==> !entry_le(#[trigger] had[j], e),
        decreases i,
    {
        assert(had[i - 1] == (out@[i - 1].0@, out@[i - 1].1));
        i -= 1;
    }
    out.insert(i, item);
    proof {
        let now = entry_views(out@);
        assert(now =~= had.insert(i as int, e));
        vstd::seq_lib::to_multiset_insert(had, i as int, e);
        let r = entry_order();
        if i > 0 {
            assert(had[i - 1] == (old(out)@[i - 1].0@, old(out)@[i - 1].1));
            assert(r(had[i - 1], e));
        }
        assert forall|a: int, b: int| 0 <= a < b < now.len() implies r(
            #[trigger] now[a],
            #[trigger] now[b],
        ) by {
            if a == i {
                assert(now[b] == had[b - 1]);
                assert(!r(had[b - 1], e));
                assert(r(e, had[b - 1]));
            } else if b == i {
                assert(now[a] == had[a]);
                if a < i - 1 {
                    assert(r(had[a], had[i - 1]));
                    assert(r(had[i - 1], e));
                    assert(r(had[a], e));
                }
            } else {
                let x = if a < i {
                    a
                } else {
                    a - 1
                };
                let y = if b < i {
                    b
                } else {
                    b - 1
                };
                assert(now[a] == had[x]);
                assert(now[b] == had[y]);
                assert(r(had[x], had[y]));
            }
        }
    }
}

/// Puts the entries of a directory in order.
pub fn sort_entries(items: Vec<(String, bool)>) -> (r: Vec<(String, bool)>)
    ensures
        entry_views(r@) == in_order(entry_views(items@)),
{
    let ghost all = entry_views(items@);
    let mut out: Vec<(String, bool)> = Vec::new();
    assert(entry_views(out@) =~= all.take(0));
    for item in it: items
        invariant
            it.seq() == items@,
            all == entry_views(items@),
            sorted_by(entry_views(out@), entry_order()),
            entry_views(out@).to_multiset() == all.take(it.index()).to_multiset(),
    {
        let ghost i = it.index();
        insert_entry(&mut out, item);
        proof {
            let front = all.take(i);
            assert(all.take(i + 1) =~= front.push((item.0@, item.1)));
            vstd::seq_lib::to_multiset_build(front, (item.0@, item.1));
        }
    }
    proof {
        assert(all.take(all.len() as int) =~= all);
        lemma_in_order(all, entry_views(out@));
    }
    out
}

/// What is kept of the entries of a directory by putting them in order: each
/// of them, as often as it is there; and none stands before one that it comes
/// after.
pub proof fn law_listing_is_sorted(items: Seq<Entry>)
    ensures
        in_order(items).to_multiset() == items.to_multiset(),
        sorted_by(in_order(items), entry_order()),
{
    law_entries_are_ordered();
    items.lemma_sort_by_ensures(entry_order());
}

/// The URL of a directory, with a slash at its end.
pub open spec fn slashed(url_path: Seq<char>) -> Seq<char> {
    if url_path.len() > 0 && url_path.last() == '/' {
        url_path
    } else {
        url_path + "/"@
    }
}

/// The line of an entry.
pub open spec fn entry_html(base: Seq<char>, e: Entry) -> Seq<char> {
    let slash = if e.1 {
        "/"@
    } else {
        ""@
    };
    "<li><a href=\""@ + base + html_text(e.0) + slash + "\">"@ + html_text(e.0) + slash
        + "</a></li>"@
}

/// The lines of entries.
pub open spec fn entries_html(base: Seq<char>, items: Seq<Entry>) -> Seq<char>
    decreases items.len(),
{
    if items.len() == 0 {
        seq![]
    } else {
        entries_html(base, items.drop_last()) + entry_html(base, items.last())
    }
}

/// The page that lists a directory.
pub open spec fn listing_html(url_path: Seq<char>, items: Seq<Entry>) -> Seq<char> {
    "<!DOCTYPE html><html><head><meta charset=\"utf-8\"><title>Index of "@ + url_path
        + "</title></head><body><h1>Index of "@ + url_path + "</h1><ul>"@ + (if url_path
        != "/"@ {
        "<li><a href=\"../\">../</a></li>"@
    } else {
        seq![]
    }) + entries_html(slashed(url_path), in_order(items)) + "</ul></body></html>"@
}

/// Appends the line of an entry.
fn push_entry(html: &mut String, base: &str, name: &str, is_dir: bool)
    ensures
        final(html)@ == old(html)@ + entry_html(base@, (name@, is_dir)),
{
    let slash = if is_dir {
        "/"
    } else {
        ""
    };
    let enc = html_escape(name);
    html.append("<li><a href=\"");
    html.append(base);
    html.append(enc.as_str());
    html.append(slash);
    html.append("\">");
    html.append(enc.as_str());
    html.append(slash);
    html.append("</a></li>");
    assert(html@ =~= old(html)@ + entry_html(base@, (name@, is_dir)));
}

/// Makes the page that lists a directory.
pub fn autoindex_html(url_path: &str, items: Vec<(String, bool)>) -> (r: String)
    ensures
        r@ == listing_html(url_path@, entry_views(items@)),
{
    let ghost given = entry_views(items@);
    let items = sort_entries(items);
    let ghost all = entry_views(items@);
    let chars = chars_of(url_path);
    let mut base = url_path.to_owned();
    if !(chars.len() > 0 && chars[chars.len() - 1] == '/') {
        base.append("/");
    }
    let mut html = "<!DOCTYPE html><html><head><meta charset=\"utf-8\"><title>Index of ".to_owned();
    html.append(url_path);
    html.append("</title></head><body><h1>Index of ");
    html.append(url_path);
    html.append("</h1><ul>");
    if !crate::text::str_eq(url_path, "/") {
        html.append("<li><a href=\"../\">../</a></li>");
    }
    let ghost top = html@;
    assert(top + entries_html(base@, all.take(0)) =~= top);
    let mut i: usize = 0;
    while i < items.len()
        invariant
            i <= items@.len(),
            all == entry_views(items@),
            html@ == top + entries_html(base@, all.take(i as int)),
        decreases items@.len() - i,
    {
        proof {
            assert(all.take(i + 1).drop_last() =~= all.take(i as int));
            assert(all.take(i + 1).last() == (items@[i as int].0@, items@[i as int].1));
        }
        push_entry(&mut html, base.as_str(), items[i].0.as_str(), items[i].1);
        assert(html@ =~= top + entries_html(base@, all.take(i + 1)));
        i += 1;
    }
    assert(all.take(all.len() as int) =~= all);
    html.append("</ul></body></html>");
    assert(html@ =~= listing_html(url_path@, given));
    html
}

} // verus!
