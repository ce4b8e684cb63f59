//! Addresses to listen on, and the servers behind them.
//!
//! Several `server` blocks may share one `host:port` (virtual hosting), so
//! there is one listener per unique address; which block answers a request is
//! decided by its `Host` field.

use crate::config::{Config, ServerConfig, ServerView};
use crate::numbers::{decimal, push_decimal};
use crate::text::{before, chars_of, eq_ignore_case, part_before, same_ignoring_case, trim, trimmed};
use vstd::prelude::*;

verus! {

/// A unique bind address and the `server` blocks that answer on it.
pub struct Address {
    pub host: [u8; 4],
    pub port: u16,
    pub label: String,
    /// Indices into `Config::servers`, in declaration order (first = default).
    pub servers: Vec<usize>,
}

/// What an [`Address`] says.
#[verifier::ext_equal]
pub ghost struct AddressView {
    pub host: Seq<u8>,
    pub port: u16,
    pub label: Seq<char>,
    pub servers: Seq<int>,
}

/// A list of indices, as integers.
pub open spec fn indices(v: Seq<usize>) -> Seq<int> {
    v.map_values(|i: usize| i as int)
}

impl View for Address {
    type V = AddressView;

    open spec fn view(&self) -> AddressView {
        AddressView {
            host: self.host@,
            port: self.port,
            label: self.label@,
            servers: indices(self.servers@),
        }
    }
}

/// What a list of addresses says.
pub open spec fn address_views(v: Seq<Address>) -> Seq<AddressView> {
    v.map_values(|a: Address| a@)
}

/// An address in words.
pub open spec fn label_of(host: Seq<u8>, port: u16) -> Seq<char> {
    decimal(host[0] as nat) + "."@ + decimal(host[1] as nat) + "."@ + decimal(host[2] as nat) + "."@
        + decimal(host[3] as nat) + ":"@ + decimal(port as nat)
}

/// Where an address stands in a list.
pub open spec fn place_of(list: Seq<AddressView>, host: Seq<u8>, port: u16) -> Option<int>
    decreases list.len(),
{
    if list.len() == 0 {
        None
    } else {
        match place_of(list.drop_last(), host, port) {
            Some(i) => Some(i),
            None => if list.last().host == host && list.last().port == port {
                Some(list.len() - 1)
            } else {
                None
            },
        }
    }
}

/// The addresses with one more server on one of them, which is new if it is
/// not there.
pub open spec fn with_server(
    list: Seq<AddressView>,
    host: Seq<u8>,
    port: u16,
    server: int,
) -> Seq<AddressView> {
    match place_of(list, host, port) {
        Some(i) => list.update(
            i,
            AddressView { servers: list[i].servers.push(server), ..list[i] },
        ),
        None => list.push(
            AddressView { host, port, label: label_of(host, port), servers: seq![server] },
        ),
    }
}

/// The addresses with one more server on several ports of a host.
pub open spec fn with_ports(
    list: Seq<AddressView>,
    host: Seq<u8>,
    ports: Seq<u16>,
    server: int,
) -> Seq<AddressView>
    decreases ports.len(),
{
    if ports.len() == 0 {
        list
    } else {
        with_server(with_ports(list, host, ports.drop_last(), server), host, ports.last(), server)
    }
}

/// The unique addresses of servers, in the order in which they come up.
pub open spec fn addresses_of(servers: Seq<ServerView>) -> Seq<AddressView>
    decreases servers.len(),
{
    if servers.len() == 0 {
        seq![]
    } else {
        let s = servers.last();
        with_ports(addresses_of(servers.drop_last()), s.host, s.ports, servers.len() - 1)
    }
}

/// `place_of` gives the first place of an address.
pub proof fn lemma_place_of(list: Seq<AddressView>, host: Seq<u8>, port: u16)
    ensures
        match place_of(list, host, port) {
            Some(i) => 0 <= i < list.len() && list[i].host == host && list[i].port == port,
            None => forall|j: int|
                0 <= j < list.len() ==> !((#[trigger] list[j]).host == host && list[j].port
                    == port),
        },
    decreases list.len(),
{
    if list.len() > 0 {
        lemma_place_of(list.drop_last(), host, port);
        if place_of(list, host, port) is None {
            assert forall|j: int| 0 <= j < list.len() implies !((#[trigger] list[j]).host == host
                && list[j].port == port) by {
                if j < list.len() - 1 {
                    assert(list.drop_last()[j] == list[j]);
                }
            }
        }
    }
}

/// Tests whether two hosts are the same.
fn same_host(a: &[u8; 4], b: &[u8; 4]) -> (r: bool)
    ensures
        r == (a@ == b@),
{
    let same: bool = a[0] == b[0] && a[1] == b[1] && a[2] == b[2] && a[3] == b[3];
    proof {
        if same {
            assert(a@ =~= b@);
        }
    }
    same
}

/// Looks for an address.
fn find_address(list: &Vec<Address>, host: &[u8; 4], port: u16) -> (r: Option<usize>)
    ensures
        match r {
            Some(i) => place_of(address_views(list@), host@, port) == Some(i as int) && i
                < list@.len(),
            None => place_of(address_views(list@), host@, port) is None,
        },
{
    let ghost all = address_views(list@);
    let mut i: usize = 0;
    while i < list.len()
        invariant
            i <= list@.len(),
            all == address_views(list@),
            place_of(all.take(i as int), host@, port) is None,
        decreases list@.len() - i,
    {
        proof {
            assert(all.take(i + 1).drop_last() =~= all.take(i as int));
            assert(all.take(i + 1).last() == list@[i as int]@);
        }
        if same_host(&list[i].host, host) && list[i].port == port {
            proof {
                lemma_place_extends(all.take(i + 1), all, host@, port);
            }
            return Some(i);
        }
        i += 1;
    }
    assert(all.take(all.len() as int) =~= all);
    None
}

/// An address that stands in the front of a list stands there in the list.
proof fn lemma_place_extends(
    front: Seq<AddressView>,
    list: Seq<AddressView>,
    host: Seq<u8>,
    port: u16,
)
    requires
        front.len() <= list.len(),
        front == list.take(front.len() as int),
        place_of(front, host, port) is Some,
    ensures
        place_of(list, host, port) == place_of(front, host, port),
    decreases list.len(),
{
    if front.len() == list.len() {
        assert(front =~= list);
    } else {
        assert(front =~= list.drop_last().take(front.len() as int));
        lemma_place_extends(front, list.drop_last(), host, port);
    }
}

/// Writes an address in words.
fn make_label(host: &[u8; 4], port: u16) -> (r: String)
    ensures
        r@ == label_of(host@, port),
{
    let mut out = String::new();
    push_decimal(&mut out, host[0] as u64);
    out.append(".");
    push_decimal(&mut out, host[1] as u64);
    out.append(".");
    push_decimal(&mut out, host[2] as u64);
    out.append(".");
    push_decimal(&mut out, host[3] as u64);
    out.append(":");
    push_decimal(&mut out, port as u64);
    assert(out@ =~= label_of(host@, port));
    out
}

/// Puts one more server on an address.
fn add_server(list: &mut Vec<Address>, host: &[u8; 4], port: u16, server: usize)
    ensures
        address_views(final(list)@) == with_server(
            address_views(old(list)@),
            host@,
            port,
            server as int,
        ),
{
    let ghost had = address_views(list@);
    match find_address(list, host, port) {
        Some(i) => {
            let mut a = list.remove(i);
            let ghost before = a@;
            a.servers.push(server);
            proof {
                assert(indices(a.servers@) =~= before.servers.push(server as int));
                assert(before == had[i as int]);
            }
            list.insert(i, a);
            assert(address_views(list@) =~= with_server(had, host@, port, server as int));
        },
        None => {
            let label = make_label(host, port);
            let mut servers: Vec<usize> = Vec::new();
            servers.push(server);
            let a = Address { host: *host, port, label, servers };
            assert(a@ =~= AddressView {
                host: host@,
                port,
                label: label_of(host@, port),
                servers: seq![server as int],
            });
            list.push(a);
            assert(address_views(list@) =~= had.push(a@));
        },
    }
}

/// Builds the set of unique addresses.
pub fn build_addresses(config: &Config) -> (r: Vec<Address>)
    ensures
        address_views(r@) == addresses_of(config@),
{
    let mut list: Vec<Address> = Vec::new();
    let ghost all = config@;
    assert(address_views(list@) =~= addresses_of(all.take(0)));
    let mut i: usize = 0;
    while i < config.servers.len()
        invariant
            i <= config.servers@.len(),
            all == config@,
            address_views(list@) == addresses_of(all.take(i as int)),
        decreases config.servers@.len() - i,
    {
        let s = &config.servers[i];
        let ghost base = address_views(list@);
        proof {
            assert(all.take(i + 1).drop_last() =~= all.take(i as int));
            assert(all.take(i + 1).last() == s@);
        }
        let mut p: usize = 0;
        while p < s.ports.len()
            invariant
                p <= s.ports@.len(),
                address_views(list@) == with_ports(
                    base,
                    s.host@,
                    s.ports@.take(p as int),
                    i as int,
                ),
            decreases s.ports@.len() - p,
        {
            proof {
                assert(s.ports@.take(p + 1).drop_last() =~= s.ports@.take(p as int));
            }
            add_server(&mut list, &s.host, s.ports[p], i);
            p += 1;
        }
        assert(s.ports@.take(s.ports@.len() as int) =~= s.ports@);
        i += 1;
    }
    assert(all.take(all.len() as int) =~= all);
    list
}

/// Whether a server has a name, whatever the case of its letters.
pub open spec fn has_name(s: ServerView, name: Seq<char>) -> bool {
    exists|i: int|
        0 <= i < s.server_names.len() && same_ignoring_case(#[trigger] s.server_names[i], name)
}

/// The first of some servers that has a name.
pub open spec fn first_named(
    servers: Seq<ServerView>,
    among: Seq<int>,
    name: Seq<char>,
) -> Option<int>
    decreases among.len(),
{
    if among.len() == 0 {
        None
    } else if has_name(servers[among[0]], name) {
        Some(among[0])
    } else {
        first_named(servers, among.skip(1), name)
    }
}

/// The name that a `Host` field gives: what stands before a port.
pub open spec fn host_name(host: Seq<char>) -> Seq<char> {
    trimmed(before(host, ':'))
}

/// The server that answers a request with a given `Host` field on an address:
/// the first one with that name, or else the first one.
pub open spec fn selected(
    servers: Seq<ServerView>,
    address: AddressView,
    host: Option<Seq<char>>,
) -> int {
    match host {
        Some(h) => match first_named(servers, address.servers, host_name(h)) {
            Some(i) => i,
            None => address.servers[0],
        },
        None => address.servers[0],
    }
}

/// Tests whether a server has a name.
fn answers_to(s: &ServerConfig, name: &[char]) -> (r: bool)
    ensures
        r == has_name(s@, name@),
{
    let mut i: usize = 0;
    while i < s.server_names.len()
        invariant
            i <= s.server_names@.len(),
            forall|j: int|
                0 <= j < i ==> !same_ignoring_case(#[trigger] s@.server_names[j], name@),
        decreases s.server_names@.len() - i,
    {
        let n = chars_of(s.server_names[i].as_str());
        assert(s@.server_names[i as int] == n@);
        if eq_ignore_case(n.as_slice(), name) {
            return true;
        }
        i += 1;
    }
    false
}

/// Whether an address has servers, and all of them exist.
pub open spec fn address_wf(address: AddressView, count: int) -> bool {
    &&& address.servers.len() > 0
    &&& forall|i: int| 0 <= i < address.servers.len() ==> 0 <= #[trigger] address.servers[i] < count
}

/// Picks the `server` block for an address: matches `Host` against
/// `server_name`, else falls back to the first (default) block.
pub fn select_server(config: &Config, address: &Address, host_header: Option<&str>) -> (r: usize)
    requires
        address_wf(address@, config@.len() as int),
    ensures
        r == selected(config@, address@, crate::cookies::view_of(host_header)),
        r < config@.len(),
{
    assert(address@.servers[0] == address.servers@[0]);
    if let Some(h) = host_header {
        let chars = chars_of(h);
        let name = trim(part_before(chars.as_slice(), ':'));
        let ghost among = address@.servers;
        let mut i: usize = 0;
        assert(among.skip(0) =~= among);
        while i < address.servers.len()
            invariant
                i <= address.servers@.len(),
                address_wf(address@, config@.len() as int),
                among == address@.servers,
                name@ == host_name(h@),
                first_named(config@, among, name@) == first_named(
                    config@,
                    among.skip(i as int),
                    name@,
                ),
                host_header == Some(h),
            decreases address.servers@.len() - i,
        {
            let si: usize = address.servers[i];
            proof {
                assert(among[i as int] == si);
                assert(among.skip(i as int)[0] == si);
                assert(among.skip(i as int).skip(1) =~= among.skip(i + 1));
                assert(config@[si as int] == config.servers@[si as int]@);
            }
            if answers_to(&config.servers[si], name) {
                return si;
            }
            i += 1;
        }
    }
    address.servers[0]
}

/// Adding a server to addresses keeps them well-formed.
proof fn lemma_with_ports_wf(
    list: Seq<AddressView>,
    host: Seq<u8>,
    ports: Seq<u16>,
    server: int,
    count: int,
)
    requires
        0 <= server < count,
        forall|i: int| 0 <= i < list.len() ==> address_wf(#[trigger] list[i], count),
    ensures
        forall|i: int|
            0 <= i < with_ports(list, host, ports, server).len() ==> address_wf(
                #[trigger] with_ports(list, host, ports, server)[i],
                count,
            ),
    decreases ports.len(),
{
    if ports.len() > 0 {
        let mid = with_ports(list, host, ports.drop_last(), server);
        lemma_with_ports_wf(list, host, ports.drop_last(), server, count);
        lemma_place_of(mid, host, ports.last());
        let out = with_server(mid, host, ports.last(), server);
        assert forall|i: int| 0 <= i < out.len() implies address_wf(#[trigger] out[i], count) by {
            match place_of(mid, host, ports.last()) {
                Some(k) => {
                    assert(address_wf(mid[k], count));
                    if i != k {
                        assert(out[i] == mid[i]);
                    }
                },
                None => {
                    if i < mid.len() {
                        assert(out[i] == mid[i]);
                    }
                },
            }
        }
    }
}

/// Every address has at least one server, and only servers that exist.
pub proof fn law_addresses_have_servers(servers: Seq<ServerView>)
    ensures
        forall|i: int|
            0 <= i < addresses_of(servers).len() ==> address_wf(
                #[trigger] addresses_of(servers)[i],
                servers.len() as int,
            ),
    decreases servers.len(),
{
    if servers.len() > 0 {
        let front = servers.drop_last();
        let n = servers.len() as int;
        law_addresses_have_servers(front);
        let list = addresses_of(front);
        assert forall|i: int| 0 <= i < list.len() implies address_wf(#[trigger] list[i], n) by {
            assert(address_wf(list[i], front.len() as int));
        }
        lemma_with_ports_wf(list, servers.last().host, servers.last().ports, n - 1, n);
    }
}

/// Whether no two addresses of a list are the same.
pub open spec fn unique_addresses(list: Seq<AddressView>) -> bool {
    forall|i: int, j: int|
        0 <= i < j < list.len() ==> !((#[trigger] list[i]).host == (#[trigger] list[j]).host
            && list[i].port == list[j].port)
}

pub proof fn lemma_with_ports_unique(
    list: Seq<AddressView>,
    host: Seq<u8>,
    ports: Seq<u16>,
    server: int,
)
    requires
        unique_addresses(list),
    ensures
        unique_addresses(with_ports(list, host, ports, server)),
    decreases ports.len(),
{
    if ports.len() > 0 {
        let mid = with_ports(list, host, ports.drop_last(), server);
        lemma_with_ports_unique(list, host, ports.drop_last(), server);
        lemma_place_of(mid, host, ports.last());
    }
}

/// There is one listener per address: no two addresses are the same, however
/// many servers share a host and a port.
pub proof fn law_addresses_are_unique(servers: Seq<ServerView>)
    ensures
        unique_addresses(addresses_of(servers)),
    decreases servers.len(),
{
    if servers.len() > 0 {
        law_addresses_are_unique(servers.drop_last());
        lemma_with_ports_unique(
            addresses_of(servers.drop_last()),
            servers.last().host,
            servers.last().ports,
            servers.len() - 1,
        );
    }
}

/// Whether a `Host` field names one of the servers of an address.
pub open spec fn is_named(
    servers: Seq<ServerView>,
    address: AddressView,
    host: Option<Seq<char>>,
) -> bool {
    host is Some && exists|i: int|
        0 <= i < address.servers.len() && has_name(
            servers[#[trigger] address.servers[i]],
            host_name(host->0),
        )
}

/// The server that is picked for an address is one that answers on it. It is
/// the first one with the name that the client asked for, and the first one of
/// all where none has it.
pub proof fn law_hosts_pick_their_server(
    servers: Seq<ServerView>,
    address: AddressView,
    host: Option<Seq<char>>,
)
    requires
        address_wf(address, servers.len() as int),
    ensures
        ({
            let r = selected(servers, address, host);
            &&& address.servers.contains(r)
            &&& 0 <= r < servers.len()
            &&& is_named(servers, address, host) ==> has_name(servers[r], host_name(host->0))
            &&& !is_named(servers, address, host) ==> r == address.servers[0]
        }),
{
    assert(address.servers[0] == address.servers[0]);
    if host is Some {
        lemma_first_named(servers, address.servers, host_name(host->0));
    }
}

proof fn lemma_first_named(servers: Seq<ServerView>, among: Seq<int>, name: Seq<char>)
    ensures
        match first_named(servers, among, name) {
            Some(r) => among.contains(r) && has_name(servers[r], name),
            None => forall|i: int|
                0 <= i < among.len() ==> !has_name(servers[#[trigger] among[i]], name),
        },
    decreases among.len(),
{
    if among.len() > 0 {
        let rest = among.skip(1);
        lemma_first_named(servers, rest, name);
        match first_named(servers, among, name) {
            Some(r) => {
                if has_name(servers[among[0]], name) {
                    assert(among[0] == r);
                } else {
                    let i = choose|i: int| 0 <= i < rest.len() && rest[i] == r;
                    assert(among[i + 1] == r);
                }
            },
            None => {
                assert forall|i: int| 0 <= i < among.len() implies !has_name(
                    servers[#[trigger] among[i]],
                    name,
                ) by {
                    if i > 0 {
                        assert(rest[i - 1] == among[i]);
                    }
                }
            },
        }
    }
}

} // verus!
