//! What holds of a configuration that passes or fails its checks.

use vstd::prelude::*;

use crate::config::settings;
use crate::config::settings::{ClientConfig, FilterListConfig};
use crate::net::{IpAddr, Ipv4Addr, SocketAddr};
use crate::text;

verus! {

/// Whether a line says something: after white space there is a character, and it does not
/// begin a comment.
pub open spec fn is_active(line: Seq<char>) -> bool {
    exists|k: int|
        0 <= k < line.len() && !text::is_white(#[trigger] line[k]) && line[k] != '#' && forall|
            j: int,
        |
            0 <= j < k ==> text::is_white(#[trigger] line[j])
}

/// White space in front goes, and what follows it stays.
proof fn lemma_trim_start(s: Seq<char>, k: int)
    requires
        0 <= k <= s.len(),
        forall|j: int| 0 <= j < k ==> text::is_white(#[trigger] s[j]),
        k < s.len() ==> !text::is_white(s[k]),
    ensures
        text::trim_start(s) == s.skip(k),
    decreases k,
{
    if k > 0 {
        let rest = s.drop_first();
        assert(text::is_white(s[0]));
        assert forall|j: int| 0 <= j < k - 1 implies text::is_white(#[trigger] rest[j]) by {
            assert(rest[j] == s[j + 1]);
        }
        lemma_trim_start(rest, k - 1);
        assert(rest.skip(k - 1) =~= s.skip(k));
    } else {
        assert(s.skip(0) =~= s);
    }
}

/// White space behind goes, and what it follows stays.
proof fn lemma_trim_end(s: Seq<char>)
    requires
        s.len() > 0,
        !text::is_white(s[0]),
    ensures
        text::trim_end(s).len() > 0,
        text::trim_end(s)[0] == s[0],
    decreases s.len(),
{
    if text::is_white(s.last()) {
        let rest = s.drop_last();
        assert(s.last() == s[s.len() - 1]);
        assert(rest[0] == s[0]);
        lemma_trim_end(rest);
    }
}

/// Where the first character that is not white space stands.
proof fn lemma_first_black(s: Seq<char>, i: int) -> (k: int)
    requires
        0 <= i <= s.len(),
        forall|j: int| 0 <= j < i ==> text::is_white(#[trigger] s[j]),
    ensures
        i <= k <= s.len(),
        forall|j: int| 0 <= j < k ==> text::is_white(#[trigger] s[j]),
        k < s.len() ==> !text::is_white(s[k]),
    decreases s.len() - i,
{
    if i < s.len() && text::is_white(s[i]) {
        lemma_first_black(s, i + 1)
    } else {
        i
    }
}

/// A line is a spec where it says something.
proof fn lemma_active(line: Seq<char>)
    ensures
        settings::is_spec_line(text::trim(line)) <==> is_active(line),
{
    let k = lemma_first_black(line, 0);
    lemma_trim_start(line, k);
    let rest = line.skip(k);
    if k < line.len() {
        assert(rest[0] == line[k]);
        lemma_trim_end(rest);
        if is_active(line) {
            let n = choose|n: int|
                0 <= n < line.len() && !text::is_white(#[trigger] line[n]) && line[n] != '#'
                    && forall|j: int| 0 <= j < n ==> text::is_white(#[trigger] line[j]);
            assert(n == k) by {
                if n < k {
                    assert(text::is_white(line[n]));
                }
                if k < n {
                    assert(text::is_white(line[k]));
                }
            }
        }
    } else {
        assert(rest =~= Seq::empty());
        if is_active(line) {
            let n = choose|n: int|
                0 <= n < line.len() && !text::is_white(#[trigger] line[n]) && line[n] != '#'
                    && forall|j: int| 0 <= j < n ==> text::is_white(#[trigger] line[j]);
            assert(text::is_white(line[n]));
        }
    }
}

/// There is a spec among lines where one of them says something.
proof fn lemma_any_spec(lines: Seq<Seq<char>>)
    ensures
        settings::specs_in(lines).len() > 0 <==> exists|i: int|
            0 <= i < lines.len() && is_active(#[trigger] lines[i]),
        settings::specs_in(lines).len() <= lines.len(),
    decreases lines.len(),
{
    if lines.len() > 0 {
        let rest = lines.drop_last();
        lemma_any_spec(rest);
        lemma_active(lines.last());
        assert(lines[lines.len() - 1] == lines.last());
        if exists|i: int| 0 <= i < rest.len() && is_active(#[trigger] rest[i]) {
            let i = choose|i: int| 0 <= i < rest.len() && is_active(#[trigger] rest[i]);
            assert(lines[i] == rest[i]);
        }
        if exists|i: int| 0 <= i < lines.len() && is_active(#[trigger] lines[i]) {
            let i = choose|i: int| 0 <= i < lines.len() && is_active(#[trigger] lines[i]);
            if i < rest.len() {
                assert(rest[i] == lines[i]);
            }
        }
    }
}

/// A configuration is in order where there is an address to listen on, the least TTL is
/// not above the greatest, where there is a greatest, and a line of the list of upstreams
/// names one.
pub proof fn law_in_order(dns_bind: Seq<SocketAddr>, min_ttl: u32, max_ttl: u32, servers: Seq<char>)
    ensures
        settings::fault(dns_bind, min_ttl, max_ttl, servers) is None <==> {
            let lines = text::split(servers, '\n');
            &&& dns_bind.len() > 0
            &&& max_ttl == 0 || min_ttl <= max_ttl
            &&& exists|i: int| 0 <= i < lines.len() && is_active(#[trigger] lines[i])
        },
{
    lemma_any_spec(text::split(servers, '\n'));
}

/// The largest id among lists is that of one of them, or 0 where there is none, and none
/// of them has a larger one.
pub proof fn law_largest_id(lists: Seq<FilterListConfig>, n: int)
    requires
        0 <= n <= lists.len(),
    ensures
        forall|i: int| 0 <= i < n ==> (#[trigger] lists[i]).id <= settings::largest_id(lists, n),
        settings::largest_id(lists, n) == 0 || exists|i: int|
            0 <= i < n && (#[trigger] lists[i]).id == settings::largest_id(lists, n),
    decreases n,
{
    if n > 0 {
        law_largest_id(lists, n - 1);
        assert(lists[n - 1].id <= settings::largest_id(lists, n));
    }
}

/// The clients that can be addressed are those with an id, in their order.
pub proof fn law_addressable(clients: Seq<ClientConfig>, c: ClientConfig)
    ensures
        settings::addressable(clients).contains(c) <==> clients.contains(c) && c.id@.len() > 0,
        settings::addressable(clients).len() <= clients.len(),
    decreases clients.len(),
{
    let all = settings::addressable(clients);
    if clients.len() > 0 {
        let rest = clients.drop_last();
        law_addressable(rest, c);
        let before = settings::addressable(rest);
        assert(clients[clients.len() - 1] == clients.last());
        if clients.contains(c) {
            let i = choose|i: int| 0 <= i < clients.len() && clients[i] == c;
            if i < rest.len() {
                assert(rest[i] == c);
            }
        }
        if rest.contains(c) {
            let i = choose|i: int| 0 <= i < rest.len() && rest[i] == c;
            assert(clients[i] == c);
        }
        if before.contains(c) {
            let i = choose|i: int| 0 <= i < before.len() && before[i] == c;
            assert(all[i] == c);
        }
        if all.contains(c) {
            let i = choose|i: int| 0 <= i < all.len() && all[i] == c;
            if i < before.len() {
                assert(before[i] == c);
            }
        }
        if clients.last() == c && c.id@.len() > 0 {
            assert(all[before.len() as int] == c);
        }
    }
}

/// A new installation serves DNS on port 53 and its pages on port 3000 of all addresses,
/// finds upstreams by 1.1.1.1 and 9.9.9.9, waits five seconds for them, and keeps ten
/// thousand answers for a day at most, ten seconds of a block, thirty days of statistics
/// and seven of the log.
pub proof fn law_new_installation(port: u16)
    ensures
        settings::any_address(port) == (SocketAddr {
            ip: IpAddr::V4(Ipv4Addr { bits: 0 }),
            port,
        }),
        settings::usual_bootstrap() == seq![
            SocketAddr { ip: IpAddr::V4(Ipv4Addr { bits: 16843009 }), port: 53 },
            SocketAddr { ip: IpAddr::V4(Ipv4Addr { bits: 151587081 }), port: 53 },
        ],
        settings::DEFAULT_TIMEOUT_SECS == 5,
        settings::DEFAULT_CACHE_SIZE == 10000,
        settings::DEFAULT_MAX_TTL_SECS == 86400,
        settings::DEFAULT_BLOCKED_TTL_SECS == 10,
        settings::DEFAULT_STATS_DAYS == 30,
        settings::DEFAULT_LOG_RETENTION_DAYS == 7,
{
}

/// The specs of a list of upstreams are its active lines, each trimmed, and nothing else.
pub proof fn law_specs(lines: Seq<Seq<char>>, i: int)
    requires
        0 <= i < lines.len(),
    ensures
        is_active(lines[i]) ==> settings::specs_in(lines).contains(text::trim(lines[i])),
        forall|k: int|
            0 <= k < settings::specs_in(lines).len() ==> exists|j: int|
                0 <= j < lines.len() && is_active(lines[j]) && text::trim(#[trigger] lines[j])
                    == #[trigger] settings::specs_in(lines)[k],
    decreases lines.len(),
{
    let all = settings::specs_in(lines);
    let rest = lines.drop_last();
    let before = settings::specs_in(rest);
    let n = lines.len() - 1;
    lemma_active(lines.last());
    assert(lines[n] == lines.last());
    if rest.len() > 0 {
        law_specs(rest, if i < n { i } else { 0 });
    }
    if is_active(lines[i]) {
        if i < n {
            assert(rest[i] == lines[i]);
            let m = choose|m: int| 0 <= m < before.len() && before[m] == text::trim(lines[i]);
            assert(all[m] == text::trim(lines[i]));
        } else {
            assert(all[before.len() as int] == text::trim(lines[i]));
        }
    }
    assert forall|k: int| 0 <= k < all.len() implies exists|j: int|
        0 <= j < lines.len() && is_active(lines[j]) && text::trim(#[trigger] lines[j])
            == #[trigger] all[k] by {
        if k < before.len() {
            assert(all[k] == before[k]);
            let j = choose|j: int|
                0 <= j < rest.len() && is_active(rest[j]) && text::trim(#[trigger] rest[j])
                    == before[k];
            assert(lines[j] == rest[j]);
        } else {
            assert(is_active(lines[n]) && text::trim(lines[n]) == all[k]);
        }
    }
}

} // verus!
