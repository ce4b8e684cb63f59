//! Which servers answer on which address, and which of them for which host.

use super::address::{
    addresses_of, first_named, has_name, host_name, label_of, lemma_place_of, place_of, selected,
    with_ports, with_server, AddressView,
};
use crate::config::ServerView;
use crate::numbers::decimal;
use crate::text::{lower, same_ignoring_case, trimmed};
use crate::text_laws::law_first_cut;
use vstd::prelude::*;

verus! {

/// The label of an address is its four bytes with dots between them, a colon,
/// and its port.
pub proof fn law_labels(a: u8, b: u8, c: u8, d: u8, port: u16)
    ensures
        label_of(seq![a, b, c, d], port) == decimal(a as nat) + "."@ + decimal(b as nat) + "."@
            + decimal(c as nat) + "."@ + decimal(d as nat) + ":"@ + decimal(port as nat),
{
}

/// The name in a `Host` field is what stands before the colon, without white
/// space around it.
pub proof fn law_host_names(name: Seq<char>, port: Seq<char>)
    requires
        !name.contains(':'),
    ensures
        host_name(name + seq![':'] + port) == trimmed(name),
        host_name(name) == trimmed(name),
{
    law_first_cut(name, port, name, ':');
}

/// A server has a name if it lists it, in whatever case.
pub proof fn law_names_of_servers(s: ServerView, name: Seq<char>)
    ensures
        has_name(s, name) <==> exists|i: int|
            0 <= i < s.server_names.len() && lower(#[trigger] s.server_names[i]) == lower(name),
{
    if has_name(s, name) {
        let i = choose|i: int|
            0 <= i < s.server_names.len() && same_ignoring_case(#[trigger] s.server_names[i], name);
        assert(lower(s.server_names[i]) == lower(name));
    }
    if exists|i: int|
        0 <= i < s.server_names.len() && lower(#[trigger] s.server_names[i]) == lower(name) {
        let i = choose|i: int|
            0 <= i < s.server_names.len() && lower(#[trigger] s.server_names[i]) == lower(name);
        assert(same_ignoring_case(s.server_names[i], name));
    }
}

/// Of the servers on an address the first with the name of the host answers;
/// where none has it, or no host is given, the first of all does.
pub proof fn law_first_server_with_the_name_answers(
    servers: Seq<ServerView>,
    address: AddressView,
    host: Seq<char>,
    k: int,
)
    requires
        address.servers.len() > 0,
    ensures
        0 <= k < address.servers.len() && has_name(servers[address.servers[k]], host_name(host))
            && (forall|j: int|
            0 <= j < k ==> !has_name(servers[#[trigger] address.servers[j]], host_name(host)))
            ==> selected(servers, address, Some(host)) == address.servers[k],
        (forall|j: int|
            0 <= j < address.servers.len() ==> !has_name(
                servers[#[trigger] address.servers[j]],
                host_name(host),
            )) ==> selected(servers, address, Some(host)) == address.servers[0],
        selected(servers, address, None) == address.servers[0],
{
    let name = host_name(host);
    if 0 <= k < address.servers.len() && has_name(servers[address.servers[k]], name) && (forall|
        j: int,
    |
        0 <= j < k ==> !has_name(servers[#[trigger] address.servers[j]], name)) {
        lemma_first_named_is(servers, address.servers, name, k);
    }
    if forall|j: int|
        0 <= j < address.servers.len() ==> !has_name(
            servers[#[trigger] address.servers[j]],
            name,
        ) {
        lemma_none_named(servers, address.servers, name);
    }
}

proof fn lemma_first_named_is(
    servers: Seq<ServerView>,
    among: Seq<int>,
    name: Seq<char>,
    k: int,
)
    requires
        0 <= k < among.len(),
        has_name(servers[among[k]], name),
        forall|j: int| 0 <= j < k ==> !has_name(servers[#[trigger] among[j]], name),
    ensures
        first_named(servers, among, name) == Some(among[k]),
    decreases k,
{
    if k > 0 {
        let rest = among.skip(1);
        assert(!has_name(servers[among[0]], name));
        assert(rest[k - 1] == among[k]);
        assert forall|j: int| 0 <= j < k - 1 implies !has_name(
            servers[#[trigger] rest[j]],
            name,
        ) by {
            assert(rest[j] == among[j + 1]);
        }
        lemma_first_named_is(servers, rest, name, k - 1);
    }
}

proof fn lemma_none_named(servers: Seq<ServerView>, among: Seq<int>, name: Seq<char>)
    requires
        forall|j: int| 0 <= j < among.len() ==> !has_name(servers[#[trigger] among[j]], name),
    ensures
        first_named(servers, among, name) is None,
    decreases among.len(),
{
    if among.len() > 0 {
        let rest = among.skip(1);
        assert forall|j: int| 0 <= j < rest.len() implies !has_name(
            servers[#[trigger] rest[j]],
            name,
        ) by {
            assert(rest[j] == among[j + 1]);
        }
        assert(!has_name(servers[among[0]], name));
        lemma_none_named(servers, rest, name);
    }
}

/// Whether a list of addresses says which of the first `n` servers listen where:
/// each address is labelled, and has the servers that listen on it, in order.
pub open spec fn lists_servers(
    list: Seq<AddressView>,
    listens: spec_fn(int, Seq<u8>, u16) -> bool,
) -> bool {
    &&& forall|k: int| #![trigger list[k]]
        0 <= k < list.len() ==> list[k].label == label_of(list[k].host, list[k].port)
    &&& forall|k: int, i: int|
        0 <= k < list.len() ==> (#[trigger] list[k].servers.contains(i) <==> listens(
            i,
            list[k].host,
            list[k].port,
        ))
    &&& forall|k: int, a: int, b: int|
        0 <= k < list.len() && 0 <= a < b < list[k].servers.len()
            ==> #[trigger] list[k].servers[a] <= #[trigger] list[k].servers[b]
    &&& forall|i: int, host: Seq<u8>, port: u16| #[trigger]
        listens(i, host, port) ==> place_of(list, host, port) is Some
}

/// Whether one of the first `n` servers listens on an address, or the one behind
/// them does on one of its first `m` ports.
pub open spec fn listens_among(servers: Seq<ServerView>, n: int, m: int) -> spec_fn(
    int,
    Seq<u8>,
    u16,
) -> bool {
    |i: int, host: Seq<u8>, port: u16|
        {
            ||| 0 <= i < n && servers[i].host == host && servers[i].ports.contains(port)
            ||| i == n && m > 0 && servers[n].host == host && servers[n].ports.take(m).contains(
                port,
            )
        }
}

proof fn lemma_port_is_listed(
    servers: Seq<ServerView>,
    list: Seq<AddressView>,
    n: int,
    m: int,
)
    requires
        0 <= n < servers.len(),
        0 <= m < servers[n].ports.len(),
        lists_servers(list, listens_among(servers, n, m)),
        super::address::unique_addresses(list),
    ensures
        lists_servers(
            with_server(list, servers[n].host, servers[n].ports[m], n),
            listens_among(servers, n, m + 1),
        ),
{
    let s = servers[n];
    let port = s.ports[m];
    let before = listens_among(servers, n, m);
    let after = listens_among(servers, n, m + 1);
    let next = with_server(list, s.host, port, n);
    lemma_place_of(list, s.host, port);
    assert forall|i: int, host: Seq<u8>, p: u16| #[trigger]
        after(i, host, p) <==> before(i, host, p) || (i == n && host == s.host && p == port) by {
        let old = s.ports.take(m);
        let new = s.ports.take(m + 1);
        assert(new =~= old.push(port));
        if old.contains(p) {
            let k = choose|k: int| 0 <= k < old.len() && old[k] == p;
            assert(new[k] == p);
        }
        if new.contains(p) {
            let k = choose|k: int| 0 <= k < new.len() && new[k] == p;
            if k < m {
                assert(old[k] == p);
            }
        }
        assert(new[m] == port);
    }
    assert forall|k: int, i: int| 0 <= k < next.len() implies (
    #[trigger] next[k].servers.contains(i) <==> after(i, next[k].host, next[k].port)) by {
        if k < list.len() {
            assert(list[k].servers.contains(i) <==> before(i, list[k].host, list[k].port));
            if place_of(list, s.host, port) == Some(k) {
                let had = list[k].servers;
                assert(next[k].servers == had.push(n));
                assert(had.push(n)[had.len() as int] == n);
                if had.contains(i) {
                    let q = choose|q: int| 0 <= q < had.len() && had[q] == i;
                    assert(had.push(n)[q] == i);
                }
                if had.push(n).contains(i) && i != n {
                    let q = choose|q: int| 0 <= q < had.push(n).len() && had.push(n)[q] == i;
                    assert(had[q] == i);
                }
            } else {
                match place_of(list, s.host, port) {
                    Some(q) => {
                        if q < k {
                            assert(!(list[q].host == list[k].host && list[q].port == list[k].port));
                        } else {
                            assert(!(list[k].host == list[q].host && list[k].port == list[q].port));
                        }
                    },
                    None => {
                        assert(!(list[k].host == s.host && list[k].port == port));
                    },
                }
            }
        } else {
            assert(next[k].servers == seq![n]);
            assert(seq![n][0] == n);
            if before(i, s.host, port) {
                assert(place_of(list, s.host, port) is Some);
            }
        }
    }
    assert forall|k: int, a: int, b: int|
        0 <= k < next.len() && 0 <= a < b < next[k].servers.len() implies
        #[trigger] next[k].servers[a] <= #[trigger] next[k].servers[b] by {
        if k < list.len() {
            let had = list[k].servers;
            if b < had.len() {
                assert(had[a] <= had[b]);
            } else {
                assert(had.contains(had[a]));
                assert(before(had[a], list[k].host, list[k].port));
            }
        }
    }
    assert forall|i: int, host: Seq<u8>, p: u16| #[trigger] after(i, host, p) implies place_of(
        next,
        host,
        p,
    ) is Some by {
        lemma_place_of(next, host, p);
        if host == s.host && p == port {
            match place_of(list, s.host, port) {
                Some(q) => {
                    assert(next[q].host == host && next[q].port == p);
                },
                None => {
                    assert(next[list.len() as int].host == host && next[list.len() as int].port
                        == p);
                },
            }
        } else {
            assert(before(i, host, p));
            lemma_place_of(list, host, p);
            let q = place_of(list, host, p)->0;
            assert(next[q].host == host && next[q].port == p);
        }
    }
}

proof fn lemma_ports_are_listed(
    servers: Seq<ServerView>,
    list: Seq<AddressView>,
    n: int,
    m: int,
)
    requires
        0 <= n < servers.len(),
        0 <= m <= servers[n].ports.len(),
        lists_servers(list, listens_among(servers, n, 0)),
        super::address::unique_addresses(list),
    ensures
        lists_servers(
            with_ports(list, servers[n].host, servers[n].ports.take(m), n),
            listens_among(servers, n, m),
        ),
        super::address::unique_addresses(
            with_ports(list, servers[n].host, servers[n].ports.take(m), n),
        ),
    decreases m,
{
    let ports = servers[n].ports;
    super::address::lemma_with_ports_unique(list, servers[n].host, ports.take(m), n);
    if m > 0 {
        lemma_ports_are_listed(servers, list, n, m - 1);
        assert(ports.take(m).drop_last() =~= ports.take(m - 1));
        lemma_port_is_listed(
            servers,
            with_ports(list, servers[n].host, ports.take(m - 1), n),
            n,
            m - 1,
        );
    }
}

proof fn lemma_servers_are_listed(servers: Seq<ServerView>, n: int)
    requires
        0 <= n <= servers.len(),
    ensures
        lists_servers(addresses_of(servers.take(n)), listens_among(servers, n, 0)),
    decreases n,
{
    let list = addresses_of(servers.take(n));
    if n > 0 {
        let front = servers.take(n - 1);
        lemma_servers_are_listed(servers, n - 1);
        super::address::law_addresses_are_unique(front);
        assert(servers.take(n).drop_last() =~= front);
        let s = servers[n - 1];
        assert(s.ports.take(s.ports.len() as int) =~= s.ports);
        lemma_ports_are_listed(servers, addresses_of(front), n - 1, s.ports.len() as int);
        let a = listens_among(servers, n - 1, s.ports.len() as int);
        let b = listens_among(servers, n, 0);
        assert forall|i: int, host: Seq<u8>, p: u16| #[trigger] b(i, host, p) <==> a(
            i,
            host,
            p,
        ) by {}
        assert(list == with_ports(addresses_of(front), s.host, s.ports, n - 1));
    }
}

/// Every port of every server has an address, and an address has exactly the
/// servers that listen on it, in the order in which they are declared. So the
/// first of them is the default.
pub proof fn law_addresses_have_their_servers(
    servers: Seq<ServerView>,
    i: int,
    j: int,
    k: int,
)
    ensures
        ({
            let list = addresses_of(servers);
            &&& 0 <= i < servers.len() && 0 <= j < servers[i].ports.len() ==> exists|a: int|
                0 <= a < list.len() && (#[trigger] list[a]).host == servers[i].host && list[a].port
                    == servers[i].ports[j]
            &&& 0 <= k < list.len() ==> (list[k].servers.contains(i) <==> 0 <= i < servers.len()
                && servers[i].host == list[k].host && servers[i].ports.contains(list[k].port))
            &&& 0 <= k < list.len() ==> forall|a: int, b: int|
                0 <= a < b < list[k].servers.len() ==> #[trigger] list[k].servers[a]
                    <= #[trigger] list[k].servers[b]
            &&& 0 <= k < list.len() ==> list[k].label == label_of(list[k].host, list[k].port)
        }),
{
    let list = addresses_of(servers);
    let n = servers.len() as int;
    assert(servers.take(n) =~= servers);
    lemma_servers_are_listed(servers, n);
    let listens = listens_among(servers, n, 0);
    if 0 <= i < servers.len() && 0 <= j < servers[i].ports.len() {
        assert(servers[i].ports.contains(servers[i].ports[j]));
        assert(listens(i, servers[i].host, servers[i].ports[j]));
        lemma_place_of(list, servers[i].host, servers[i].ports[j]);
    }
    if 0 <= k < list.len() {
        assert(list[k].servers.contains(i) <==> listens(i, list[k].host, list[k].port));
    }
}

} // verus!
