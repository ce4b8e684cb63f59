//! What holds of responses on the wire, of listings, and of what scripts print.

use super::cgi_output::{
    output_parts, output_response, response_to_output, with_line, with_lines, OutputHead,
};
use super::listing::{
    entries_html, entry_html, entry_le, entry_order, html_char, html_text, in_order, listing_html,
    slashed, text_le, Entry,
};
use super::response::{field_lines, is_framing, Field, ResponseView};
use super::{phrase, stays_open};
use crate::bytes::first_at;
use crate::numbers::{decimal, u16_in};
use crate::text::{is_space, joined, lower, trim_back, trimmed, Class};
use crate::text_laws::{is_blank, law_first_cut, law_first_words, law_joining_is_undone_by_cutting};
use vstd::prelude::*;
use vstd::utf8::{decode_utf8, encode_utf8, valid_utf8};

verus! {

/// The lines of header fields stand one after the other, each with its name, a
/// colon and a blank, its value, and a line break.
pub proof fn law_fields_have_lines(fields: Seq<Field>, name: Seq<char>, value: Seq<char>)
    ensures
        field_lines(seq![]) == Seq::<char>::empty(),
        field_lines(fields.push((name, value))) == field_lines(fields) + (name + ": "@ + value
            + "\r\n"@),
{
    assert(fields.push((name, value)).drop_last() =~= fields);
    assert(field_lines(fields.push((name, value))) =~= field_lines(fields) + (name + ": "@ + value
        + "\r\n"@));
}

/// A response is sent as a status line, its fields in order, the length of its
/// body, what becomes of the connection, a blank line, and its body.
pub proof fn law_responses_are_sent_in_order(r: ResponseView)
    ensures
        r.wire() == encode_utf8(
            "HTTP/1.1 "@ + decimal(r.status as nat) + " "@ + phrase(r.status) + "\r\n"@ + (
            field_lines(r.headers) + ("Content-Length"@ + ": "@ + decimal(r.body.len()) + "\r\n"@)
                + ("Connection"@ + ": "@ + (if r.keep_alive {
                "keep-alive"@
            } else {
                "close"@
            }) + "\r\n"@)) + "\r\n"@,
        ) + r.body,
{
    let connection = if r.keep_alive {
        "keep-alive"@
    } else {
        "close"@
    };
    let sized = r.headers.push(("Content-Length"@, decimal(r.body.len())));
    law_fields_have_lines(r.headers, "Content-Length"@, decimal(r.body.len()));
    law_fields_have_lines(sized, "Connection"@, connection);
}

/// The fields that say how a message is framed, in any case.
pub proof fn law_framing_fields(name: Seq<char>)
    ensures
        is_framing(name) <==> lower(name) == lower("content-length"@) || lower(name) == lower(
            "connection"@,
        ) || lower(name) == lower("transfer-encoding"@),
{
}

/// A connection of HTTP/1.1 stays open unless the client says `close`; one of
/// an older version only if the client says `keep-alive`. Case does not count.
pub proof fn law_connections_stay_open(version: Seq<char>, said: Seq<char>)
    ensures
        stays_open("HTTP/1.1"@, None),
        stays_open("HTTP/1.1"@, Some(said)) <==> lower(said) != "close"@,
        version != "HTTP/1.1"@ ==> !stays_open(version, None),
        version != "HTTP/1.1"@ ==> (stays_open(version, Some(said)) <==> lower(said)
            == "keep-alive"@),
{
}

/// The characters that mean something in HTML are written as entities, each by
/// its own; all others stay as they are.
pub proof fn law_html_is_escaped(s: Seq<char>, c: char)
    ensures
        html_text(seq![]) == Seq::<char>::empty(),
        html_text(s.push(c)) == html_text(s) + html_char(c),
        html_char('&') == "&amp;"@,
        html_char('<') == "&lt;"@,
        html_char('>') == "&gt;"@,
        html_char('"') == "&quot;"@,
        c != '&' && c != '<' && c != '>' && c != '"' ==> html_char(c) == seq![c],
{
    assert(s.push(c).drop_last() =~= s);
}

/// A text comes before another if it is the front of it, or has the smaller
/// character where they first differ.
pub proof fn law_names_are_ordered_by_characters(
    front: Seq<char>,
    a: char,
    b: char,
    x: Seq<char>,
    y: Seq<char>,
)
    requires
        a < b,
    ensures
        text_le(front, front + x),
        x.len() > 0 ==> !text_le(front + x, front),
        text_le(front + seq![a] + x, front + seq![b] + y),
        !text_le(front + seq![b] + y, front + seq![a] + x),
    decreases front.len(),
{
    let p = front + seq![a] + x;
    let q = front + seq![b] + y;
    if front.len() > 0 {
        let rest = front.skip(1);
        law_names_are_ordered_by_characters(rest, a, b, x, y);
        assert((front + x).skip(1) =~= rest + x);
        assert(p.skip(1) =~= rest + seq![a] + x);
        assert(q.skip(1) =~= rest + seq![b] + y);
        assert(p[0] == front[0] && q[0] == front[0] && (front + x)[0] == front[0]);
    } else {
        assert(p[0] == a && q[0] == b);
        assert(front + x =~= x);
    }
}

/// Entries are ordered by their names; of two with one name the file comes
/// before the directory.
pub proof fn law_entries_go_by_name(a: Seq<char>, b: Seq<char>, x: bool, y: bool)
    ensures
        a != b ==> (entry_le((a, x), (b, y)) <==> text_le(a, b)),
        entry_le((a, false), (a, true)) && !entry_le((a, true), (a, false)),
{
}

/// A listing has a line for each entry: a link below the path that is listed,
/// with a slash behind directories.
pub proof fn law_listings_link_entries(
    base: Seq<char>,
    items: Seq<Entry>,
    name: Seq<char>,
    path: Seq<char>,
)
    ensures
        entries_html(base, seq![]) == Seq::<char>::empty(),
        entries_html(base, items.push((name, false))) == entries_html(base, items)
            + entry_html(base, (name, false)),
        entries_html(base, items.push((name, true))) == entries_html(base, items) + entry_html(
            base,
            (name, true),
        ),
        entry_html(base, (name, false)) == "<li><a href=\""@ + base + html_text(name) + "\">"@
            + html_text(name) + "</a></li>"@,
        entry_html(base, (name, true)) == "<li><a href=\""@ + base + html_text(name) + "/\">"@
            + html_text(name) + "/</a></li>"@,
        slashed(path + seq!['/']) == path + seq!['/'],
        path.len() == 0 || path.last() != '/' ==> slashed(path) == path + seq!['/'],
{
    assert(items.push((name, false)).drop_last() =~= items);
    assert(items.push((name, true)).drop_last() =~= items);
    reveal_strlit("/");
    reveal_strlit("");
    reveal_strlit("\">");
    reveal_strlit("/\">");
    reveal_strlit("</a></li>");
    reveal_strlit("/</a></li>");
    assert("/"@ =~= seq!['/']);
    assert("/"@ + "\">"@ =~= "/\">"@);
    assert("/"@ + "</a></li>"@ =~= "/</a></li>"@);
    let open = "<li><a href=\""@ + base + html_text(name);
    assert(entry_html(base, (name, false)) =~= open + "\">"@ + html_text(name) + "</a></li>"@);
    assert(entry_html(base, (name, true)) =~= open + ("/"@ + "\">"@) + html_text(name) + ("/"@
        + "</a></li>"@));
}

/// A listing is a page with the path that is listed as its title, a link to the
/// directory above unless it is the root, and the entries in order.
pub proof fn law_listings_are_pages(path: Seq<char>, items: Seq<Entry>)
    ensures
        ({
            let head = "<!DOCTYPE html><html><head><meta charset=\"utf-8\"><title>Index of "@ + path
                + "</title></head><body><h1>Index of "@ + path + "</h1><ul>"@;
            let entries = entries_html(slashed(path), in_order(items));
            &&& path != "/"@ ==> listing_html(path, items) == head
                + "<li><a href=\"../\">../</a></li>"@ + entries + "</ul></body></html>"@
            &&& path == "/"@ ==> listing_html(path, items) == head + entries
                + "</ul></body></html>"@
        }),
{
    if path == "/"@ {
        let head = "<!DOCTYPE html><html><head><meta charset=\"utf-8\"><title>Index of "@ + path
            + "</title></head><body><h1>Index of "@ + path + "</h1><ul>"@;
        assert(head + Seq::<char>::empty() =~= head);
    }
}

/// What a script prints is cut at its first blank line, whichever way lines are
/// broken in it; without one all of it is body.
pub proof fn law_output_is_cut_at_the_blank_line(raw: Seq<u8>, i: int)
    ensures
        first_at(raw, seq![13u8, 10, 13, 10], 0) == Some(i) ==> output_parts(raw) == (
            raw.take(i),
            raw.skip(i + 4),
        ),
        first_at(raw, seq![13u8, 10, 13, 10], 0) is None && first_at(raw, seq![10u8, 10], 0) == Some(
            i,
        ) ==> output_parts(raw) == (raw.take(i), raw.skip(i + 2)),
        first_at(raw, seq![13u8, 10, 13, 10], 0) is None && first_at(raw, seq![10u8, 10], 0) is None
            ==> output_parts(raw) == (Seq::<u8>::empty(), raw),
{
}

/// What each line that a script prints before its body does: a status line sets
/// the status, the fields that frame a message are dropped, any other field is
/// passed on, and a line without a colon is nothing.
pub proof fn law_output_lines(h: OutputHead, name: Seq<char>, value: Seq<char>, line: Seq<char>)
    requires
        !name.contains(':'),
        !line.contains(':'),
        value.len() == 0 || value.last() != '\r',
    ensures
        ({
            let after = with_line(h, name + seq![':'] + value);
            let n = trimmed(name);
            let v = trimmed(value);
            &&& lower(n) == lower("status"@) ==> after == OutputHead { status: after.status, ..h }
            &&& lower(n) != lower("status"@) && is_framing(n) ==> after == h
            &&& lower(n) != lower("status"@) && !is_framing(n) ==> {
                &&& after.status == h.status
                &&& after.fields == h.fields.push((n, v))
                &&& after.typed <==> h.typed || lower(n) == lower("content-type"@)
            }
        }),
        with_line(h, name + seq![':'] + value + seq!['\r']) == with_line(
            h,
            name + seq![':'] + value,
        ),
        with_line(h, line) == h,
{
    let s = name + seq![':'] + value;
    assert(s.last() != '\r') by {
        if value.len() == 0 {
            assert(s.last() == ':');
        } else {
            assert(s.last() == value.last());
        }
    }
    lemma_unbroken(s);
    law_first_cut(name, value, line, ':');
    let t = trim_back(line, Class::Only('\r'));
    crate::text::lemma_tail(line, Class::Only('\r'));
    assert(!t.contains(':')) by {
        assert forall|i: int| 0 <= i < t.len() implies #[trigger] t[i] != ':' by {
            assert(t[i] == line[i]);
            assert(line.contains(line[i]));
        }
    }
    law_first_cut(name, value, t, ':');
}

/// A carriage return at the end of a line is taken off, and nothing else is.
proof fn lemma_unbroken(s: Seq<char>)
    requires
        s.len() > 0,
        s.last() != '\r',
    ensures
        trim_back(s, Class::Only('\r')) == s,
        trim_back(s + seq!['\r'], Class::Only('\r')) == s,
{
    crate::text::lemma_tail_is(s, Class::Only('\r'), 0);
    assert(s.take(s.len() as int) =~= s);
    let t = s + seq!['\r'];
    assert(t[t.len() - 2] == s.last());
    crate::text::lemma_tail_is(t, Class::Only('\r'), 1);
    assert(t.take(t.len() - 1) =~= s);
}

/// The status that a script gives is the number at the front of its status
/// line; without a number it is 200.
pub proof fn law_scripts_set_the_status(
    h: OutputHead,
    name: Seq<char>,
    word: Seq<char>,
    rest: Seq<char>,
    gap: Seq<char>,
)
    requires
        !name.contains(':'),
        lower(trimmed(name)) == lower("status"@),
        word.len() > 0,
        forall|i: int| 0 <= i < word.len() ==> !is_space(#[trigger] word[i]),
        rest.len() > 0 ==> is_space(rest[0]) && !is_space(rest.last()),
        is_blank(gap),
        gap.len() == 0 || gap.last() != '\r',
    ensures
        u16_in(word) matches Some(code) ==> with_line(
            h,
            name + seq![':'] + (seq![' '] + word + rest),
        ).status == code,
        u16_in(word) is None ==> with_line(h, name + seq![':'] + (seq![' '] + word + rest)).status
            == 200,
        with_line(h, name + seq![':'] + gap).status == 200,
{
    let value = seq![' '] + word + rest;
    let t = word + rest;
    assert(t[0] == word[0]);
    assert(!is_space(t.last())) by {
        if rest.len() > 0 {
            assert(t.last() == rest.last());
        } else {
            assert(t.last() == word.last());
        }
    }
    assert(seq![' '] + t + Seq::<char>::empty() =~= value);
    crate::text_laws::law_padding_is_trimmed(seq![' '], t, seq![]);
    law_first_words(seq![], word, rest);
    assert(Seq::<char>::empty() + word + rest =~= t);
    assert(value.last() == t.last());
    let s = name + seq![':'] + value;
    assert(s.last() == value.last());
    lemma_unbroken(s);
    law_first_cut(name, value, seq![], ':');
    let empty = name + seq![':'] + gap;
    assert(empty.last() != '\r') by {
        if gap.len() > 0 {
            assert(empty.last() == gap.last());
        }
    }
    lemma_unbroken(empty);
    law_first_cut(name, gap, seq![], ':');
    crate::text_laws::law_padding_is_trimmed(gap, seq![], seq![]);
    assert(gap + Seq::<char>::empty() + Seq::<char>::empty() =~= gap);
}

/// The lines that a script prints before its body are taken one after the
/// other, from a status of 200 and no fields.
pub proof fn law_output_lines_add_up(lines: Seq<Seq<char>>, line: Seq<char>)
    ensures
        with_lines(seq![]).status == 200 && with_lines(seq![]).fields.len() == 0 && !with_lines(
            seq![],
        ).typed,
        with_lines(lines.push(line)) == with_line(with_lines(lines), line),
{
    assert(lines.push(line).drop_last() =~= lines);
}

/// The response that a script makes has its status, its body as it was printed,
/// and its fields in order; one that does not say what it is is plain text.
pub proof fn law_scripts_make_responses(lines: Seq<Seq<char>>, body: Seq<u8>)
    requires
        lines.len() > 0,
        forall|i: int| 0 <= i < lines.len() ==> !(#[trigger] lines[i]).contains('\n'),
    ensures
        ({
            let h = with_lines(lines);
            let r = output_response(joined(lines, seq!['\n']), body);
            &&& r.status == h.status
            &&& r.body == body
            &&& r.keep_alive
            &&& h.typed ==> r.headers == h.fields
            &&& !h.typed ==> r.headers == seq![("Content-Type"@, "text/plain; charset=utf-8"@)]
                + h.fields
        }),
{
    law_joining_is_undone_by_cutting(lines, '\n');
    assert(Seq::<Field>::empty() + with_lines(lines).fields =~= with_lines(lines).fields);
}

/// The response to the output of a script is made of its two parts, the first
/// one read as text.
pub proof fn law_output_is_read_as_text(raw: Seq<u8>)
    ensures
        valid_utf8(output_parts(raw).0) ==> response_to_output(raw) == output_response(
            decode_utf8(output_parts(raw).0),
            output_parts(raw).1,
        ),
        response_to_output(raw).body == output_parts(raw).1,
{
}

/// The entries of a listing are all those of the directory, each as often as it
/// is there, and stand in order.
pub proof fn law_entries_stand_in_order(items: Seq<Entry>, i: int, j: int)
    ensures
        in_order(items).to_multiset() == items.to_multiset(),
        0 <= i < j < in_order(items).len() ==> entry_le(in_order(items)[i], in_order(items)[j]),
{
    super::listing::law_listing_is_sorted(items);
    if 0 <= i < j < in_order(items).len() {
        let le = entry_order();
        assert(le(in_order(items)[i], in_order(items)[j]));
    }
}

} // verus!
