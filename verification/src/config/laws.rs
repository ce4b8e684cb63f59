//! What holds of configuration files as a whole.

use super::directive::{route_after, server_after};
use super::lexer::{lex, LexedView, TokView};
use super::parser::{
    all_bindings, bindings_of, blocks_in, directive_at, duplicates, last_duplicates, lemma_route_at,
    lemma_server_at, lemma_words_end, route_at, route_body, server_at, server_body, servers_from,
    servers_in, without_duplicates, word_at, words_between, words_end, Binding,
};
use super::value::{size_in, suffix_factor};
use super::{default_route, default_server, RouteView, ServerView};
use crate::numbers::{all_digits, is_digit, number};
use crate::text::{all_ascii, is_space, lead, lemma_lead_is, lemma_trimmed_is, upper, Class};
use vstd::prelude::*;

verus! {

/// The parser gives no server without a port.
proof fn lemma_blocks_have_a_port(toks: Seq<LexedView>, pos: int, i: int)
    requires
        0 <= pos,
        0 <= i < servers_from(toks, pos).value.len(),
    ensures
        servers_from(toks, pos).value[i].ports.len() > 0,
    decreases toks.len() - pos,
{
    if pos < toks.len() {
        if word_at(toks, pos, "server"@) {
            let s = server_at(toks, pos + 1);
            lemma_server_at(toks, pos + 1);
            match s.value {
                Some(_) => {
                    if i > 0 {
                        lemma_blocks_have_a_port(toks, s.next, i - 1);
                    }
                },
                None => {
                    lemma_blocks_have_a_port(toks, s.next, i);
                },
            }
        } else {
            lemma_blocks_have_a_port(toks, pos + 1, i);
        }
    }
}

/// Each server that is kept is one of those given.
proof fn lemma_kept_is_given(servers: Seq<ServerView>, i: int)
    requires
        0 <= i < without_duplicates(servers).len(),
    ensures
        servers.contains(without_duplicates(servers)[i]),
    decreases servers.len(),
{
    let kept = without_duplicates(servers.drop_last());
    if last_duplicates(servers).len() == 0 && i == kept.len() {
        assert(servers[servers.len() - 1] == servers.last());
    } else {
        lemma_kept_is_given(servers.drop_last(), i);
        let j = choose|j: int|
            0 <= j < servers.drop_last().len() && servers.drop_last()[j] == kept[i];
        assert(servers[j] == kept[i]);
    }
}

/// Every server that a configuration sets up listens on at least one port.
pub proof fn law_every_server_has_a_port(input: Seq<char>, i: int)
    requires
        0 <= i < servers_in(input).len(),
    ensures
        servers_in(input)[i].ports.len() > 0,
{
    let all = blocks_in(input).value;
    lemma_kept_is_given(all, i);
    let j = choose|j: int| 0 <= j < all.len() && all[j] == servers_in(input)[i];
    lemma_blocks_have_a_port(lex(input, 1), 0, j);
}

/// Where there is no message about `keys`, none of them is taken, and none is
/// there twice.
proof fn lemma_no_message(keys: Seq<Binding>, taken: Seq<Binding>)
    requires
        duplicates(keys, taken).len() == 0,
    ensures
        keys.no_duplicates(),
        forall|i: int| 0 <= i < keys.len() ==> !taken.contains(#[trigger] keys[i]),
    decreases keys.len(),
{
    if keys.len() > 0 {
        let rest = keys.drop_last();
        lemma_no_message(rest, taken);
        assert forall|i: int| 0 <= i < keys.len() implies !taken.contains(#[trigger] keys[i]) by {
            if i < rest.len() {
                assert(rest[i] == keys[i]);
            }
        }
        assert forall|i: int, j: int| 0 <= i < keys.len() && 0 <= j < keys.len() && i != j implies
            keys[i] != keys[j] by {
            if i < rest.len() {
                assert(rest[i] == keys[i]);
            }
            if j < rest.len() {
                assert(rest[j] == keys[j]);
            }
        }
    }
}

/// Where `keys` has nothing twice and nothing that is taken, there is no
/// message about it.
proof fn lemma_message_free(keys: Seq<Binding>, taken: Seq<Binding>)
    requires
        keys.no_duplicates(),
        forall|i: int| 0 <= i < keys.len() ==> !taken.contains(#[trigger] keys[i]),
    ensures
        duplicates(keys, taken).len() == 0,
    decreases keys.len(),
{
    if keys.len() > 0 {
        let rest = keys.drop_last();
        assert forall|i: int| 0 <= i < rest.len() implies !taken.contains(#[trigger] rest[i]) by {
            assert(rest[i] == keys[i]);
        }
        lemma_message_free(rest, taken);
        assert(!taken.contains(keys[keys.len() - 1]));
    }
}

/// The bindings of the servers that are kept are among all bindings, and none
/// of them is there twice.
proof fn lemma_kept_bindings(servers: Seq<ServerView>)
    ensures
        all_bindings(without_duplicates(servers)).no_duplicates(),
        forall|k: Binding|
            all_bindings(without_duplicates(servers)).contains(k) ==> #[trigger] all_bindings(
                servers,
            ).contains(k),
    decreases servers.len(),
{
    if servers.len() > 0 {
        let rest = servers.drop_last();
        let kept = without_duplicates(rest);
        lemma_kept_bindings(rest);
        let front = all_bindings(rest);
        let back = bindings_of(servers.last());
        assert forall|k: Binding| front.contains(k) implies #[trigger] all_bindings(
            servers,
        ).contains(k) by {
            let j = choose|j: int| 0 <= j < front.len() && front[j] == k;
            assert((front + back)[j] == k);
        }
        if last_duplicates(servers).len() == 0 {
            lemma_no_message(back, front);
            let old_keys = all_bindings(kept);
            assert(kept.push(servers.last()).drop_last() =~= kept);
            let keys = all_bindings(kept.push(servers.last()));
            assert(keys == old_keys + back);
            assert forall|i: int, j: int|
                0 <= i < keys.len() && 0 <= j < keys.len() && i != j implies keys[i] != keys[j] by {
                if i < old_keys.len() {
                    assert(old_keys.contains(keys[i]));
                    assert(front.contains(keys[i]));
                }
                if j < old_keys.len() {
                    assert(old_keys.contains(keys[j]));
                    assert(front.contains(keys[j]));
                }
            }
            assert forall|k: Binding| keys.contains(k) implies #[trigger] all_bindings(
                servers,
            ).contains(k) by {
                let j = choose|j: int| 0 <= j < keys.len() && keys[j] == k;
                if j < old_keys.len() {
                    assert(old_keys.contains(k));
                    assert(front.contains(k));
                } else {
                    assert((front + back)[front.len() + (j - old_keys.len())] == k);
                }
            }
        } else {
            assert forall|k: Binding|
                all_bindings(without_duplicates(servers)).contains(
                    k,
                ) implies #[trigger] all_bindings(servers).contains(k) by {
                assert(front.contains(k));
            }
        }
    }
}

/// No address, port and server name is bound twice: not by two servers that a
/// configuration sets up, and not by one of them.
pub proof fn law_bindings_are_unique(input: Seq<char>)
    ensures
        all_bindings(servers_in(input)).no_duplicates(),
{
    lemma_kept_bindings(blocks_in(input).value);
}

/// What is kept of the servers at the front does not depend on those after
/// them: of two servers that share a binding, the later one goes.
pub proof fn law_earlier_servers_win(front: Seq<ServerView>, back: Seq<ServerView>)
    ensures
        without_duplicates(front).len() <= without_duplicates(front + back).len(),
        without_duplicates(front + back).take(without_duplicates(front).len() as int)
            == without_duplicates(front),
    decreases back.len(),
{
    let kept = without_duplicates(front);
    if back.len() == 0 {
        assert(front + back =~= front);
        assert(kept.take(kept.len() as int) =~= kept);
    } else {
        law_earlier_servers_win(front, back.drop_last());
        assert((front + back).drop_last() =~= front + back.drop_last());
        assert(without_duplicates(front + back).take(kept.len() as int) =~= without_duplicates(
            front + back.drop_last(),
        ).take(kept.len() as int));
    }
}

/// A server that has no binding twice and shares none with those before it is
/// kept, whatever becomes of the others.
pub proof fn law_sound_server_is_kept(servers: Seq<ServerView>, i: int)
    requires
        0 <= i < servers.len(),
        bindings_of(servers[i]).no_duplicates(),
        forall|j: int, a: int, b: int|
            0 <= j < i && 0 <= a < bindings_of(servers[i]).len() && 0 <= b < bindings_of(
                servers[j],
            ).len() ==> #[trigger] bindings_of(servers[i])[a] != #[trigger] bindings_of(
                servers[j],
            )[b],
    ensures
        without_duplicates(servers).contains(servers[i]),
{
    let front = servers.take(i + 1);
    let mine = bindings_of(servers[i]);
    assert(front.drop_last() =~= servers.take(i));
    assert(front.last() == servers[i]);
    assert forall|a: int| 0 <= a < mine.len() implies !all_bindings(servers.take(i)).contains(
        #[trigger] mine[a],
    ) by {
        if all_bindings(servers.take(i)).contains(mine[a]) {
            lemma_all_bindings_come_from_one(servers.take(i), mine[a]);
            let (j, b) = choose|j: int, b: int|
                0 <= j < i && 0 <= b < bindings_of(servers.take(i)[j]).len()
                    && #[trigger] bindings_of(servers.take(i)[j])[b] == mine[a];
            assert(servers.take(i)[j] == servers[j]);
        }
    }
    lemma_message_free(mine, all_bindings(servers.take(i)));
    let kept = without_duplicates(front);
    assert(kept.last() == servers[i]);
    law_earlier_servers_win(front, servers.skip(i + 1));
    assert(front + servers.skip(i + 1) =~= servers);
    let all = without_duplicates(servers);
    assert(all.take(kept.len() as int)[kept.len() - 1] == servers[i]);
    assert(all[kept.len() - 1] == servers[i]);
}

/// A binding among all bindings is one of some server.
proof fn lemma_all_bindings_come_from_one(servers: Seq<ServerView>, k: Binding)
    requires
        all_bindings(servers).contains(k),
    ensures
        exists|j: int, b: int|
            0 <= j < servers.len() && 0 <= b < bindings_of(servers[j]).len()
                && #[trigger] bindings_of(servers[j])[b] == k,
    decreases servers.len(),
{
    let n = choose|n: int| 0 <= n < all_bindings(servers).len() && all_bindings(servers)[n] == k;
    if servers.len() > 0 {
        let rest = servers.drop_last();
        let front = all_bindings(rest);
        if n < front.len() {
            assert(front[n] == k);
            lemma_all_bindings_come_from_one(rest, k);
            let (j, b) = choose|j: int, b: int|
                0 <= j < rest.len() && 0 <= b < bindings_of(rest[j]).len()
                    && #[trigger] bindings_of(rest[j])[b] == k;
            assert(rest[j] == servers[j]);
            assert(bindings_of(servers[j])[b] == k);
        } else {
            assert(bindings_of(servers[servers.len() - 1])[n - front.len()] == k);
        }
    }
}

/// Where the `route` body that goes on at `pos` ends, if a brace closes it.
pub open spec fn route_end(toks: Seq<LexedView>, pos: int) -> Option<int>
    decreases toks.len() - pos,
{
    if !(0 <= pos < toks.len()) {
        None
    } else {
        match toks[pos].tok {
            TokView::Close => Some(pos + 1),
            TokView::Word(_) => if words_end(toks, pos + 1) < toks.len() {
                proof {
                    lemma_words_end(toks, pos + 1);
                }
                route_end(toks, directive_at(toks, pos).next)
            } else {
                None
            },
            _ => route_end(toks, pos + 1),
        }
    }
}

/// Where the route whose keyword stands at `pos` ends, if the tokens do not
/// run out before.
pub open spec fn route_stop(toks: Seq<LexedView>, pos: int) -> Option<int> {
    if pos + 1 >= toks.len() {
        None
    } else if !(toks[pos + 1].tok is Word) {
        Some(pos + 2)
    } else if pos + 2 >= toks.len() {
        None
    } else if toks[pos + 2].tok is Open {
        route_end(toks, pos + 3)
    } else {
        Some(pos + 2)
    }
}

/// Where the `server` body that goes on at `pos` ends, if a brace closes it.
pub open spec fn server_end(toks: Seq<LexedView>, pos: int) -> Option<int>
    decreases toks.len() - pos,
{
    if !(0 <= pos < toks.len()) {
        None
    } else {
        match toks[pos].tok {
            TokView::Close => Some(pos + 1),
            TokView::Word(w) => if w == "route"@ {
                match route_stop(toks, pos) {
                    Some(next) => {
                        proof {
                            lemma_route_stop_goes_on(toks, pos);
                        }
                        server_end(toks, next)
                    },
                    None => None,
                }
            } else if words_end(toks, pos + 1) < toks.len() {
                proof {
                    lemma_words_end(toks, pos + 1);
                }
                server_end(toks, directive_at(toks, pos).next)
            } else {
                None
            },
            _ => server_end(toks, pos + 1),
        }
    }
}

/// A route body ends after where it begins.
proof fn lemma_route_end_goes_on(toks: Seq<LexedView>, pos: int)
    ensures
        route_end(toks, pos) matches Some(next) ==> pos < next <= toks.len(),
    decreases toks.len() - pos,
{
    if 0 <= pos < toks.len() {
        match toks[pos].tok {
            TokView::Close => {},
            TokView::Word(_) => {
                lemma_words_end(toks, pos + 1);
                if words_end(toks, pos + 1) < toks.len() {
                    lemma_route_end_goes_on(toks, directive_at(toks, pos).next);
                }
            },
            _ => {
                lemma_route_end_goes_on(toks, pos + 1);
            },
        }
    }
}

/// A route ends after where it begins.
pub proof fn lemma_route_stop_goes_on(toks: Seq<LexedView>, pos: int)
    requires
        0 <= pos,
    ensures
        route_stop(toks, pos) matches Some(next) ==> pos < next <= toks.len(),
{
    lemma_route_end_goes_on(toks, pos + 3);
}

/// A run of words that ends inside `toks` is the same where `toks` stands
/// between other tokens.
proof fn lemma_words_in_context(
    pre: Seq<LexedView>,
    toks: Seq<LexedView>,
    post: Seq<LexedView>,
    pos: int,
)
    requires
        0 <= pos,
        words_end(toks, pos) < toks.len(),
    ensures
        words_end(pre + toks + post, pre.len() + pos) == pre.len() + words_end(toks, pos),
    decreases toks.len() - pos,
{
    let all = pre + toks + post;
    if pos < toks.len() {
        assert(all[pre.len() + pos] == toks[pos]);
        if toks[pos].tok is Word {
            lemma_words_in_context(pre, toks, post, pos + 1);
        }
    }
}

/// A directive that ends inside `toks` is the same where `toks` stands between
/// other tokens.
proof fn lemma_directive_in_context(
    pre: Seq<LexedView>,
    toks: Seq<LexedView>,
    post: Seq<LexedView>,
    pos: int,
)
    requires
        0 <= pos < toks.len(),
        words_end(toks, pos + 1) < toks.len(),
    ensures
        directive_at(pre + toks + post, pre.len() + pos).value == directive_at(toks, pos).value,
        directive_at(pre + toks + post, pre.len() + pos).next == pre.len() + directive_at(
            toks,
            pos,
        ).next,
{
    let all = pre + toks + post;
    let n = pre.len();
    lemma_words_in_context(pre, toks, post, pos + 1);
    lemma_words_end(toks, pos + 1);
    let end = words_end(toks, pos + 1);
    assert(all[n + pos] == toks[pos]);
    assert(all[n + end] == toks[end]);
    assert forall|i: int| 0 <= i < end - pos - 1 implies #[trigger] words_between(
        all,
        n + pos + 1,
        n + end,
    )[i] == words_between(toks, pos + 1, end)[i] by {
        assert(all[n + pos + 1 + i] == toks[pos + 1 + i]);
    }
    assert(words_between(all, n + pos + 1, n + end) =~= words_between(toks, pos + 1, end));
}

/// A route body that ends inside `toks` is the same where `toks` stands
/// between other tokens.
proof fn lemma_route_body_in_context(
    pre: Seq<LexedView>,
    toks: Seq<LexedView>,
    post: Seq<LexedView>,
    pos: int,
    route: RouteView,
)
    requires
        0 <= pos,
        route_end(toks, pos) is Some,
    ensures
        route_body(pre + toks + post, pre.len() + pos, route).value == route_body(
            toks,
            pos,
            route,
        ).value,
        route_body(pre + toks + post, pre.len() + pos, route).next == pre.len() + route_end(
            toks,
            pos,
        )->0,
        route_body(toks, pos, route).next == route_end(toks, pos)->0,
    decreases toks.len() - pos,
{
    let all = pre + toks + post;
    let n = pre.len();
    assert(all[n + pos] == toks[pos]);
    match toks[pos].tok {
        TokView::Close => {},
        TokView::Word(_) => {
            lemma_directive_in_context(pre, toks, post, pos);
            lemma_words_end(toks, pos + 1);
            let d = directive_at(toks, pos);
            let after = route_after(route, d.value.name, d.value.args, d.value.line);
            lemma_route_body_in_context(pre, toks, post, d.next, after.0);
        },
        _ => {
            lemma_route_body_in_context(pre, toks, post, pos + 1, route);
        },
    }
}

/// A route that ends inside `toks` is the same where `toks` stands between
/// other tokens.
proof fn lemma_route_in_context(
    pre: Seq<LexedView>,
    toks: Seq<LexedView>,
    post: Seq<LexedView>,
    pos: int,
)
    requires
        0 <= pos < toks.len(),
        route_stop(toks, pos) is Some,
    ensures
        route_at(pre + toks + post, pre.len() + pos).value == route_at(toks, pos).value,
        route_at(pre + toks + post, pre.len() + pos).next == pre.len() + route_stop(toks, pos)->0,
        route_at(toks, pos).next == route_stop(toks, pos)->0,
{
    let all = pre + toks + post;
    let n = pre.len();
    assert(all[n + pos] == toks[pos]);
    assert(all[n + pos + 1] == toks[pos + 1]);
    if toks[pos + 1].tok is Word {
        assert(all[n + pos + 2] == toks[pos + 2]);
        if toks[pos + 2].tok is Open {
            lemma_route_body_in_context(
                pre,
                toks,
                post,
                pos + 3,
                default_route(toks[pos + 1].tok->Word_0),
            );
        }
    }
}

/// A server body that ends inside `toks` is the same where `toks` stands
/// between other tokens.
proof fn lemma_server_body_in_context(
    pre: Seq<LexedView>,
    toks: Seq<LexedView>,
    post: Seq<LexedView>,
    pos: int,
    server: ServerView,
)
    requires
        0 <= pos,
        server_end(toks, pos) is Some,
    ensures
        server_body(pre + toks + post, pre.len() + pos, server).value == server_body(
            toks,
            pos,
            server,
        ).value,
        server_body(pre + toks + post, pre.len() + pos, server).next == pre.len() + server_end(
            toks,
            pos,
        )->0,
        server_body(toks, pos, server).next == server_end(toks, pos)->0,
    decreases toks.len() - pos,
{
    let all = pre + toks + post;
    let n = pre.len();
    assert(all[n + pos] == toks[pos]);
    match toks[pos].tok {
        TokView::Close => {},
        TokView::Word(w) => {
            if w == "route"@ {
                lemma_route_in_context(pre, toks, post, pos);
                lemma_route_stop_goes_on(toks, pos);
                let r = route_at(toks, pos);
                let with = match r.value {
                    Some(route) => ServerView { routes: server.routes.push(route), ..server },
                    None => server,
                };
                lemma_server_body_in_context(pre, toks, post, r.next, with);
            } else {
                lemma_directive_in_context(pre, toks, post, pos);
                lemma_words_end(toks, pos + 1);
                let d = directive_at(toks, pos);
                let after = server_after(server, d.value.name, d.value.args, d.value.line);
                lemma_server_body_in_context(pre, toks, post, d.next, after.0);
            }
        },
        _ => {
            lemma_server_body_in_context(pre, toks, post, pos + 1, server);
        },
    }
}

/// Whether `toks` is one `server` block: the keyword, an opening brace, and a
/// body whose closing brace is the last token. What stands in the body does
/// not matter.
pub open spec fn is_block(toks: Seq<LexedView>) -> bool {
    &&& word_at(toks, 0, "server"@)
    &&& toks.len() > 1
    &&& toks[1].tok is Open
    &&& server_end(toks, 2) == Some(toks.len() as int)
}

/// The tokens of several blocks, one after the other.
pub open spec fn all_tokens(blocks: Seq<Seq<LexedView>>) -> Seq<LexedView>
    decreases blocks.len(),
{
    if blocks.len() == 0 {
        seq![]
    } else {
        blocks[0] + all_tokens(blocks.skip(1))
    }
}

/// The servers of several blocks, each of which is read on its own.
pub open spec fn read_alone(blocks: Seq<Seq<LexedView>>) -> Seq<ServerView>
    decreases blocks.len(),
{
    if blocks.len() == 0 {
        seq![]
    } else {
        servers_from(blocks[0], 0).value + read_alone(blocks.skip(1))
    }
}

/// Reading from the first token of `blocks` on, where `pre` stands before it.
proof fn lemma_blocks_in_context(pre: Seq<LexedView>, blocks: Seq<Seq<LexedView>>)
    requires
        forall|i: int| 0 <= i < blocks.len() ==> is_block(#[trigger] blocks[i]),
    ensures
        servers_from(pre + all_tokens(blocks), pre.len() as int).value == read_alone(blocks),
    decreases blocks.len(),
{
    let all = pre + all_tokens(blocks);
    let n = pre.len() as int;
    if blocks.len() > 0 {
        let toks = blocks[0];
        let post = all_tokens(blocks.skip(1));
        assert(is_block(toks));
        assert(all =~= pre + toks + post);
        assert(all[n] == toks[0]);
        assert(all[n + 1] == toks[1]);
        lemma_server_body_in_context(pre, toks, post, 2, default_server());
        assert(all =~= (pre + toks) + post);
        assert forall|i: int| 0 <= i < blocks.skip(1).len() implies is_block(
            #[trigger] blocks.skip(1)[i],
        ) by {
            assert(blocks.skip(1)[i] == blocks[i + 1]);
        }
        lemma_blocks_in_context(pre + toks, blocks.skip(1));
        let alone = servers_from(toks, 0);
        let s = server_at(toks, 1);
        assert(s.next == toks.len());
        assert(servers_from(toks, s.next).value =~= seq![]);
        assert(alone.value =~= match s.value {
            Some(server) => seq![server],
            None => seq![],
        });
        let there = server_at(all, n + 1);
        assert(there.value == s.value);
        assert(there.next == n + toks.len());
        assert(servers_from(all, n).value =~= alone.value + servers_from(all, there.next).value);
    } else {
        assert(servers_from(all, n).value =~= seq![]);
    }
}

/// Each `server` block is read on its own: what stands in one block, valid or
/// not, changes nothing about the servers that the others give.
pub proof fn law_blocks_are_read_alone(blocks: Seq<Seq<LexedView>>)
    requires
        forall|i: int| 0 <= i < blocks.len() ==> is_block(#[trigger] blocks[i]),
    ensures
        servers_from(all_tokens(blocks), 0).value == read_alone(blocks),
{
    lemma_blocks_in_context(seq![], blocks);
    assert(seq![] + all_tokens(blocks) =~= all_tokens(blocks));
}

/// Whether two lists have the same tokens, on whatever lines.
pub open spec fn alike(a: Seq<LexedView>, b: Seq<LexedView>) -> bool {
    &&& a.len() == b.len()
    &&& forall|i: int| 0 <= i < a.len() ==> (#[trigger] a[i]).tok == b[i].tok
}

/// A directive does not depend on lines.
proof fn lemma_alike_directive(a: Seq<LexedView>, b: Seq<LexedView>, pos: int)
    requires
        alike(a, b),
        0 <= pos < a.len(),
        a[pos].tok is Word,
    ensures
        directive_at(a, pos).value.name == directive_at(b, pos).value.name,
        directive_at(a, pos).value.args == directive_at(b, pos).value.args,
        directive_at(a, pos).next == directive_at(b, pos).next,
        words_end(a, pos + 1) == words_end(b, pos + 1),
        pos < directive_at(a, pos).next <= a.len(),
{
    lemma_alike_words(a, b, pos + 1);
    lemma_words_end(a, pos + 1);
    let end = words_end(a, pos + 1);
    assert(words_between(a, pos + 1, end) =~= words_between(b, pos + 1, end));
}

/// Where a run of words ends does not depend on lines.
proof fn lemma_alike_words(a: Seq<LexedView>, b: Seq<LexedView>, pos: int)
    requires
        alike(a, b),
        0 <= pos <= a.len(),
    ensures
        words_end(a, pos) == words_end(b, pos),
    decreases a.len() - pos,
{
    if pos < a.len() && a[pos].tok is Word {
        lemma_alike_words(a, b, pos + 1);
    }
}

/// A route body does not depend on lines.
proof fn lemma_alike_route_body(
    a: Seq<LexedView>,
    b: Seq<LexedView>,
    pos: int,
    route: RouteView,
)
    requires
        alike(a, b),
        0 <= pos <= a.len(),
    ensures
        route_body(a, pos, route).value == route_body(b, pos, route).value,
        route_body(a, pos, route).next == route_body(b, pos, route).next,
        route_end(a, pos) == route_end(b, pos),
    decreases a.len() - pos,
{
    if pos < a.len() {
        match a[pos].tok {
            TokView::Close => {},
            TokView::Word(_) => {
                lemma_alike_directive(a, b, pos);
                let d = directive_at(a, pos);
                let after = route_after(route, d.value.name, d.value.args, d.value.line);
                lemma_alike_route_body(a, b, d.next, after.0);
            },
            _ => {
                lemma_alike_route_body(a, b, pos + 1, route);
            },
        }
    }
}

/// A route does not depend on lines.
proof fn lemma_alike_route(a: Seq<LexedView>, b: Seq<LexedView>, pos: int)
    requires
        alike(a, b),
        0 <= pos < a.len(),
    ensures
        route_at(a, pos).value == route_at(b, pos).value,
        route_at(a, pos).next == route_at(b, pos).next,
        route_stop(a, pos) == route_stop(b, pos),
{
    assert(a[pos].tok == b[pos].tok);
    if pos + 1 < a.len() {
        assert(a[pos + 1].tok == b[pos + 1].tok);
        if pos + 2 < a.len() {
            assert(a[pos + 2].tok == b[pos + 2].tok);
            if a[pos + 2].tok is Open {
                lemma_alike_route_body(a, b, pos + 3, default_route(a[pos + 1].tok->Word_0));
            }
        }
    }
}

/// A server body does not depend on lines.
proof fn lemma_alike_server_body(
    a: Seq<LexedView>,
    b: Seq<LexedView>,
    pos: int,
    server: ServerView,
)
    requires
        alike(a, b),
        0 <= pos <= a.len(),
    ensures
        server_body(a, pos, server).value == server_body(b, pos, server).value,
        server_body(a, pos, server).next == server_body(b, pos, server).next,
        server_end(a, pos) == server_end(b, pos),
    decreases a.len() - pos,
{
    if pos < a.len() {
        match a[pos].tok {
            TokView::Close => {},
            TokView::Word(w) => {
                if w == "route"@ {
                    lemma_alike_route(a, b, pos);
                    lemma_route_at(a, pos);
                    let r = route_at(a, pos);
                    let with = match r.value {
                        Some(route) => ServerView { routes: server.routes.push(route), ..server },
                        None => server,
                    };
                    lemma_alike_server_body(a, b, r.next, with);
                    lemma_route_stop_goes_on(a, pos);
                    match route_stop(a, pos) {
                        Some(next) => {
                            lemma_alike_server_body(a, b, next, server);
                        },
                        None => {},
                    }
                } else {
                    lemma_alike_directive(a, b, pos);
                    let d = directive_at(a, pos);
                    let after = server_after(server, d.value.name, d.value.args, d.value.line);
                    lemma_alike_server_body(a, b, d.next, after.0);
                }
            },
            _ => {
                lemma_alike_server_body(a, b, pos + 1, server);
            },
        }
    }
}

/// Which servers come out does not depend on lines.
proof fn lemma_alike_servers(a: Seq<LexedView>, b: Seq<LexedView>, pos: int)
    requires
        alike(a, b),
        0 <= pos,
    ensures
        servers_from(a, pos).value == servers_from(b, pos).value,
    decreases a.len() - pos,
{
    if pos < a.len() {
        assert(a[pos].tok == b[pos].tok);
        if word_at(a, pos, "server"@) {
            lemma_server_at(a, pos + 1);
            if pos + 1 < a.len() {
                assert(a[pos + 1].tok == b[pos + 1].tok);
                lemma_alike_server_body(a, b, pos + 2, default_server());
            }
            lemma_alike_servers(a, b, server_at(a, pos + 1).next);
        } else {
            lemma_alike_servers(a, b, pos + 1);
        }
    }
}

/// The number of line feeds in `s`.
pub open spec fn breaks(s: Seq<char>) -> int
    decreases s.len(),
{
    if s.len() == 0 {
        0
    } else {
        (if s[0] == '\n' {
            1int
        } else {
            0int
        }) + breaks(s.skip(1))
    }
}

/// Cutting off a run without line feeds leaves their number as it is.
proof fn lemma_breaks_skip(s: Seq<char>, n: int)
    requires
        0 <= n <= s.len(),
        forall|i: int| 0 <= i < n ==> #[trigger] s[i] != '\n',
    ensures
        breaks(s.skip(n)) == breaks(s),
    decreases n,
{
    if n == 0 {
        assert(s.skip(0) =~= s);
    } else {
        assert forall|i: int| 0 <= i < n - 1 implies #[trigger] s.skip(1)[i] != '\n' by {
            assert(s.skip(1)[i] == s[i + 1]);
        }
        lemma_breaks_skip(s.skip(1), n - 1);
        assert(s.skip(1).skip(n - 1) =~= s.skip(n));
        assert(s[0] != '\n');
    }
}

/// A line feed parts the text before it from the text after it: each is cut
/// into tokens on its own.
pub proof fn law_lines_are_cut_alone(a: Seq<char>, b: Seq<char>, line: int)
    ensures
        lex(a + seq!['\n'] + b, line) == lex(a, line) + lex(b, line + breaks(a) + 1),
    decreases a.len(),
{
    let all = a + seq!['\n'] + b;
    if a.len() == 0 {
        assert(all[0] == '\n');
        assert(all.skip(1) =~= b);
        assert(lex(a, line) + lex(b, line + 1) =~= lex(b, line + 1));
    } else {
        assert(all[0] == a[0]);
        if a[0] == '#' || Class::Word.holds(a[0]) {
            let k = if a[0] == '#' {
                Class::Not('\n')
            } else {
                Class::Word
            };
            crate::text::lemma_lead(a, k);
            crate::text::lemma_lead_front(a, k);
            let n = lead(a, k);
            assert forall|i: int| 0 <= i < n implies k.holds(#[trigger] all[i]) by {
                assert(all[i] == a[i]);
            }
            assert(!k.holds(all[n])) by {
                if n < a.len() {
                    assert(all[n] == a[n]);
                } else {
                    assert(all[n] == '\n');
                }
            }
            lemma_lead_is(all, k, n);
            assert forall|i: int| 0 <= i < n implies #[trigger] a[i] != '\n' by {
                assert(k.holds(a[i]));
            }
            lemma_breaks_skip(a, n);
            assert(all.skip(n) =~= a.skip(n) + seq!['\n'] + b);
            assert(all.take(n) =~= a.take(n));
            law_lines_are_cut_alone(a.skip(n), b, line);
            if a[0] == '#' {
                assert(lex(all, line) == lex(all.skip(n), line));
            } else {
                let t = seq![LexedView { tok: TokView::Word(a.take(n)), line }];
                assert(lex(all, line) =~= t + lex(all.skip(n), line));
                assert(lex(a, line) == t + lex(a.skip(n), line));
                assert(lex(all, line) =~= lex(a, line) + lex(b, line + breaks(a) + 1));
            }
        } else {
            assert(all.skip(1) =~= a.skip(1) + seq!['\n'] + b);
            let next = if a[0] == '\n' {
                line + 1
            } else {
                line
            };
            law_lines_are_cut_alone(a.skip(1), b, next);
            assert(lex(all, line) =~= lex(a, line) + lex(b, line + breaks(a) + 1));
        }
    }
}

/// A comment is as good as nothing: it ends the word before it, as the end of
/// the line does, and no more.
pub proof fn law_comments_are_ignored(a: Seq<char>, comment: Seq<char>, line: int)
    requires
        !comment.contains('\n'),
    ensures
        lex(a + seq!['#'] + comment, line) == lex(a, line),
    decreases a.len(),
{
    let all = a + seq!['#'] + comment;
    if a.len() == 0 {
        assert(all[0] == '#');
        let k = Class::Not('\n');
        assert forall|i: int| 0 <= i < all.len() implies k.holds(#[trigger] all[i]) by {
            if i > 0 {
                assert(all[i] == comment[i - 1]);
            }
        }
        lemma_lead_is(all, k, all.len() as int);
        assert(all.skip(all.len() as int) =~= a);
        assert(lex(all, line) == lex(a, line));
    } else {
        assert(all[0] == a[0]);
        if a[0] == '#' || Class::Word.holds(a[0]) {
            let k = if a[0] == '#' {
                Class::Not('\n')
            } else {
                Class::Word
            };
            crate::text::lemma_lead(a, k);
            crate::text::lemma_lead_front(a, k);
            let n = lead(a, k);
            if n == a.len() && a[0] == '#' {
                assert forall|i: int| 0 <= i < all.len() implies k.holds(#[trigger] all[i]) by {
                    if i < n {
                        assert(all[i] == a[i]);
                    } else if i > n {
                        assert(all[i] == comment[i - n - 1]);
                    }
                }
                lemma_lead_is(all, k, all.len() as int);
                assert(all.skip(all.len() as int) =~= seq![]);
                assert(a.skip(n) =~= seq![]);
            } else {
                assert forall|i: int| 0 <= i < n implies k.holds(#[trigger] all[i]) by {
                    assert(all[i] == a[i]);
                }
                assert(!k.holds(all[n])) by {
                    if n < a.len() {
                        assert(all[n] == a[n]);
                    } else {
                        assert(all[n] == '#');
                    }
                }
                lemma_lead_is(all, k, n);
                assert(all.skip(n) =~= a.skip(n) + seq!['#'] + comment);
                assert(all.take(n) =~= a.take(n));
                law_comments_are_ignored(a.skip(n), comment, line);
            }
        } else {
            assert(all.skip(1) =~= a.skip(1) + seq!['#'] + comment);
            law_comments_are_ignored(
                a.skip(1),
                comment,
                if a[0] == '\n' {
                    line + 1
                } else {
                    line
                },
            );
        }
    }
}

/// Cutting text into tokens gives the same tokens, whatever the first line is
/// called.
proof fn lemma_alike_lex(s: Seq<char>, line: int, other: int)
    ensures
        alike(lex(s, line), lex(s, other)),
    decreases s.len(),
{
    if s.len() > 0 {
        if s[0] == '#' || Class::Word.holds(s[0]) {
            let k = if s[0] == '#' {
                Class::Not('\n')
            } else {
                Class::Word
            };
            crate::text::lemma_lead(s, k);
            crate::text::lemma_lead_front(s, k);
            lemma_alike_lex(s.skip(lead(s, k)), line, other);
        } else {
            lemma_alike_lex(s.skip(1), line, other);
            lemma_alike_lex(s.skip(1), line + 1, other + 1);
        }
    }
}

/// Several texts, each on lines of its own.
pub open spec fn on_lines(parts: Seq<Seq<char>>) -> Seq<char>
    decreases parts.len(),
{
    if parts.len() == 0 {
        seq![]
    } else {
        parts[0] + seq!['\n'] + on_lines(parts.skip(1))
    }
}

/// The tokens of texts on lines of their own.
pub open spec fn cut_alone(parts: Seq<Seq<char>>) -> Seq<Seq<LexedView>> {
    parts.map_values(|p: Seq<char>| lex(p, 1))
}

/// The servers of several texts, each of which is a file of its own.
pub open spec fn files_alone(parts: Seq<Seq<char>>) -> Seq<ServerView>
    decreases parts.len(),
{
    if parts.len() == 0 {
        seq![]
    } else {
        blocks_in(parts[0]).value + files_alone(parts.skip(1))
    }
}

proof fn lemma_files_alone(parts: Seq<Seq<char>>)
    ensures
        read_alone(cut_alone(parts)) == files_alone(parts),
    decreases parts.len(),
{
    if parts.len() > 0 {
        lemma_files_alone(parts.skip(1));
        assert(cut_alone(parts).skip(1) =~= cut_alone(parts.skip(1)));
    }
}

proof fn lemma_cut_on_lines(parts: Seq<Seq<char>>, line: int)
    ensures
        alike(lex(on_lines(parts), line), all_tokens(cut_alone(parts))),
    decreases parts.len(),
{
    if parts.len() > 0 {
        let rest = parts.skip(1);
        let there = line + breaks(parts[0]) + 1;
        law_lines_are_cut_alone(parts[0], on_lines(rest), line);
        lemma_cut_on_lines(rest, there);
        lemma_alike_lex(parts[0], line, 1);
        assert(cut_alone(parts).skip(1) =~= cut_alone(rest));
        assert(cut_alone(parts)[0] == lex(parts[0], 1));
        let a = lex(parts[0], line);
        let b = lex(on_lines(rest), there);
        let c = lex(parts[0], 1);
        let d = all_tokens(cut_alone(rest));
        assert forall|i: int| 0 <= i < (a + b).len() implies (#[trigger] (a + b)[i]).tok == (c
            + d)[i].tok by {
            if i < a.len() {
                assert(a[i].tok == c[i].tok);
            } else {
                assert(b[i - a.len()].tok == d[i - a.len()].tok);
            }
        }
    }
}

/// One broken `server` block does not take down the rest: a file made of
/// blocks, each on lines of its own, gives the servers that each of the blocks
/// gives as a file of its own.
pub proof fn law_blocks_are_independent(parts: Seq<Seq<char>>)
    requires
        forall|i: int| 0 <= i < parts.len() ==> is_block(lex(#[trigger] parts[i], 1)),
    ensures
        blocks_in(on_lines(parts)).value == files_alone(parts),
{
    let cut = cut_alone(parts);
    assert forall|i: int| 0 <= i < cut.len() implies is_block(#[trigger] cut[i]) by {
        assert(cut[i] == lex(parts[i], 1));
    }
    law_blocks_are_read_alone(cut);
    lemma_files_alone(parts);
    lemma_cut_on_lines(parts, 1);
    lemma_alike_servers(lex(on_lines(parts), 1), all_tokens(cut), 0);
}

/// A run of digits with a suffix is that many of the unit that the suffix
/// stands for, where that fits in a `usize`.
pub proof fn law_size_with_suffix(digits: Seq<char>, c: char)
    requires
        digits.len() > 0,
        all_digits(digits, 10),
        suffix_factor(c) is Some,
        number(digits, 10) * suffix_factor(c)->0 <= usize::MAX,
    ensures
        size_in(digits.push(c)) == Ok::<int, Seq<char>>(number(digits, 10) * suffix_factor(c)->0),
{
    let s = digits.push(c);
    assert(is_digit(digits[0], 10));
    assert(!is_space(digits[0]));
    assert(!is_space(digits.last())) by {
        assert(is_digit(digits[digits.len() - 1], 10));
    }
    assert(!is_space(c));
    lemma_trimmed_is(s);
    lemma_trimmed_is(digits);
    assert(s.drop_last() =~= digits);
    crate::numbers::lemma_number_grows(digits, 10, 0);
    assert(digits.take(0) =~= seq![]);
    let n = number(digits, 10);
    let f = suffix_factor(c)->0;
    assert(n <= n * f) by (nonlinear_arith)
        requires
            n >= 0,
            f >= 1,
    ;
}

/// A run of digits alone is a number of bytes.
pub proof fn law_size_without_suffix(digits: Seq<char>)
    requires
        digits.len() > 0,
        all_digits(digits, 10),
        number(digits, 10) <= usize::MAX,
    ensures
        size_in(digits) == Ok::<int, Seq<char>>(number(digits, 10)),
{
    assert(is_digit(digits[0], 10));
    assert(is_digit(digits[digits.len() - 1], 10));
    lemma_trimmed_is(digits);
}

/// The methods of a route are kept in capitals, in the order in which they are
/// given: those that are ASCII letter by letter.
pub proof fn law_methods_are_in_capitals(
    route: RouteView,
    args: Seq<Seq<char>>,
    line: int,
    i: int,
)
    requires
        0 <= i < args.len(),
        all_ascii(args[i]),
    ensures
        route_after(route, "methods"@, args, line).0.methods.len() == args.len(),
        route_after(route, "methods"@, args, line).0.methods[i] == upper(args[i]),
{
}

} // verus!
