//! Choosing the local IPv4 addresses to offer a share on, best first, and
//! the random ports tried for the listener.
use vstd::prelude::*;
use rand::Rng;

use crate::errors::LanQrError;
use crate::models::{ipv4_text, push_ipv4, Ipv4, NetworkCandidate};
use crate::sorting::{keys_view, stable_order, stable_sorted_positions, SortKey};
use crate::text::{chars_lt, chars_of, has_infix, str_contains, to_lowercase, unicode_lowercase};

verus! {

/// The first port tried for the listener.
pub const PORT_RANGE_START: u16 = 20000;

/// The last port tried for the listener.
pub const PORT_RANGE_END: u16 = 59999;

/// How many ports are tried before giving up.
pub const MAX_PORT_ATTEMPTS: usize = 64;

// ---------------------------------------------------------------------------
// Scoring addresses
// ---------------------------------------------------------------------------
/// `127.0.0.0/8`.
pub open spec fn is_loopback(ip: Ipv4) -> bool {
    ip.0 == 127
}

/// `169.254.0.0/16`.
pub open spec fn is_link_local(ip: Ipv4) -> bool {
    ip.0 == 169 && ip.1 == 254
}

/// The private ranges `10.0.0.0/8`, `172.16.0.0/12` and `192.168.0.0/16`.
pub open spec fn is_private(ip: Ipv4) -> bool {
    ip.0 == 10 || (ip.0 == 172 && 16 <= ip.1 && ip.1 <= 31) || (
    ip.0 == 192 && ip.1 == 168)
}

/// Adapter names that suggest a physical LAN link.
pub open spec fn is_lan_name(lowered: Seq<char>) -> bool {
    has_infix(lowered, "wi-fi"@) || has_infix(lowered, "wlan"@) || has_infix(lowered, "ethernet"@)
}

/// Adapter names that suggest a virtual or tunnel link.
pub open spec fn is_virtual_name(lowered: Seq<char>) -> bool {
    has_infix(lowered, "virtual"@) || has_infix(lowered, "vmware"@) || has_infix(lowered, "hyper-v"@)
        || has_infix(lowered, "loopback"@) || has_infix(lowered, "pseudo"@) || has_infix(
        lowered,
        "wsl"@,
    ) || has_infix(lowered, "tunnel"@) || has_infix(lowered, "bluetooth"@) || has_infix(
        lowered,
        "tailscale"@,
    ) || has_infix(lowered, "zerotier"@) || has_infix(lowered, "meta"@)
}

/// How suitable an address is: private ranges score 100, LAN-like adapter
/// names 20 more, virtual-looking names lose 100.
pub open spec fn score(ip: Ipv4, lowered: Seq<char>) -> int {
    (if is_private(ip) {
        100int
    } else {
        0int
    }) + (if is_lan_name(lowered) {
        20int
    } else {
        0int
    }) - (if is_virtual_name(lowered) {
        100int
    } else {
        0int
    })
}

/// Whether `ip` lies in a private range.
pub fn is_private_ipv4(ip: Ipv4) -> (res: bool)
    ensures
        res == is_private(ip),
{
    ip.0 == 10 || (ip.0 == 172 && 16 <= ip.1 && ip.1 <= 31) || (ip.0 == 192 && ip.1 == 168)
}

/// The suitability score of `ip` on an adapter with the lower-cased name
/// `lowered_name`.
pub fn candidate_score(ip: Ipv4, lowered_name: &str) -> (res: i32)
    ensures
        res == score(ip, lowered_name@),
{
    let name = chars_of(lowered_name);
    let n = name.as_slice();
    let mut score: i32 = 0;
    if is_private_ipv4(ip) {
        score = score + 100;
    }
    if str_contains(n, "wi-fi") || str_contains(n, "wlan") || str_contains(n, "ethernet") {
        score = score + 20;
    }
    if str_contains(n, "virtual") || str_contains(n, "vmware") || str_contains(n, "hyper-v")
        || str_contains(n, "loopback") || str_contains(n, "pseudo") || str_contains(n, "wsl")
        || str_contains(n, "tunnel") || str_contains(n, "bluetooth") || str_contains(n, "tailscale")
        || str_contains(n, "zerotier") || str_contains(n, "meta") {
        score = score - 100;
    }
    score
}

/// How an address scores for the lower-cased adapter name `n`: 100 for the
/// private ranges 10/8, 172.16/12 and 192.168/16; 20 more when the name
/// mentions Wi-Fi, WLAN or Ethernet; 100 less when it mentions any of
/// virtual, VMware, Hyper-V, loopback, pseudo, WSL, tunnel, Bluetooth,
/// Tailscale, ZeroTier or Meta. So a private address of a VMware or other
/// virtual adapter that is not also named like a LAN link scores 0 and is
/// never offered.
pub proof fn lemma_score_rules(ip: Ipv4, n: Seq<char>)
    ensures
        score(ip, n) == (if ip.0 == 10 || (ip.0 == 172 && 16 <= ip.1 <= 31) || (ip.0 == 192 && ip.1 == 168) {
            100int
        } else {
            0int
        }) + (if has_infix(n, "wi-fi"@) || has_infix(n, "wlan"@) || has_infix(n, "ethernet"@) {
            20int
        } else {
            0int
        }) - (if has_infix(n, "virtual"@) || has_infix(n, "vmware"@) || has_infix(n, "hyper-v"@) || has_infix(n, "loopback"@) || has_infix(n, "pseudo"@) || has_infix(n, "wsl"@) || has_infix(n, "tunnel"@) || has_infix(n, "bluetooth"@) || has_infix(n, "tailscale"@) || has_infix(n, "zerotier"@) || has_infix(n, "meta"@) {
            100int
        } else {
            0int
        }),
        (has_infix(n, "virtual"@) || has_infix(n, "vmware"@) || has_infix(n, "hyper-v"@) || has_infix(n, "loopback"@) || has_infix(n, "pseudo"@) || has_infix(n, "wsl"@) || has_infix(n, "tunnel"@) || has_infix(n, "bluetooth"@) || has_infix(n, "tailscale"@) || has_infix(n, "zerotier"@) || has_infix(n, "meta"@)) && !(has_infix(n, "wi-fi"@) || has_infix(n, "wlan"@) || has_infix(n, "ethernet"@)) ==> score(ip, n) <= 0,
{
}

/// An address of an adapter whose lower-cased name mentions a virtual link
/// (see [`lemma_score_rules`]) and no LAN link is never offered.
pub proof fn lemma_virtual_adapter_not_offered(name: Seq<char>, ip: Ipv4)
    requires
        ({
            let n = unicode_lowercase(name);
            &&& has_infix(n, "virtual"@) || has_infix(n, "vmware"@) || has_infix(n, "hyper-v"@) || has_infix(n, "loopback"@) || has_infix(n, "pseudo"@) || has_infix(n, "wsl"@) || has_infix(n, "tunnel"@) || has_infix(n, "bluetooth"@) || has_infix(n, "tailscale"@) || has_infix(n, "zerotier"@) || has_infix(n, "meta"@)
            &&& !(has_infix(n, "wi-fi"@) || has_infix(n, "wlan"@) || has_infix(n, "ethernet"@))
        }),
    ensures
        !address_ok(name, ip),
{
    lemma_score_rules(ip, unicode_lowercase(name));
}

// ---------------------------------------------------------------------------
// Ranking adapters' addresses
// ---------------------------------------------------------------------------
/// An address of a network adapter.
pub enum AdapterAddress {
    V4(Ipv4),
    V6,
}

/// A network adapter as the system reports it.
pub struct AdapterInfo {
    pub friendly_name: String,
    pub is_up: bool,
    pub addresses: Vec<AdapterAddress>,
}

/// The label of an address in the address menu: `NAME (IP)`.
pub open spec fn candidate_label(name: Seq<char>, ip: Ipv4) -> Seq<char> {
    name + " ("@ + ipv4_text(ip) + ")"@
}

/// A scored address: (score, address, label).
pub type Scored = (int, Ipv4, Seq<char>);

/// The scored addresses of an adapter named `name`, among `addrs`: IPv4 only,
/// neither loopback nor link-local, with a positive score.
pub open spec fn addresses_scored(addrs: Seq<AdapterAddress>, name: Seq<char>) -> Seq<Scored>
    decreases addrs.len(),
{
    if addrs.len() == 0 {
        Seq::empty()
    } else {
        let before = addresses_scored(addrs.drop_last(), name);
        match addrs.last() {
            AdapterAddress::V4(ip) => if !is_loopback(ip) && !is_link_local(ip) && score(
                ip,
                unicode_lowercase(name),
            ) > 0 {
                before.push((score(ip, unicode_lowercase(name)), ip, candidate_label(name, ip)))
            } else {
                before
            },
            AdapterAddress::V6 => before,
        }
    }
}

/// The scored addresses of all adapters that are up, in the given order.
pub open spec fn all_scored(adapters: Seq<AdapterInfo>) -> Seq<Scored>
    decreases adapters.len(),
{
    if adapters.len() == 0 {
        Seq::empty()
    } else {
        let a = adapters.last();
        all_scored(adapters.drop_last()) + if a.is_up {
            addresses_scored(a.addresses@, a.friendly_name@)
        } else {
            Seq::empty()
        }
    }
}

/// The order key of a scored address: higher score first, then label.
pub open spec fn scored_key(s: Scored) -> (int, Seq<char>) {
    (-s.0, s.2)
}

/// The scored addresses, best first (ties by label, then in given order).
pub open spec fn ranked(s: Seq<Scored>) -> Seq<Scored> {
    let order = stable_order(s.map_values(|x: Scored| scored_key(x)));
    Seq::new(order.len(), |i: int| s[order[i]])
}

/// The first occurrence of each address, as (address, label).
pub open spec fn first_of_each_address(s: Seq<Scored>) -> Seq<(Ipv4, Seq<char>)>
    decreases s.len(),
{
    if s.len() == 0 {
        Seq::empty()
    } else {
        let d = first_of_each_address(s.drop_last());
        if exists|k: int| 0 <= k < d.len() && (#[trigger] d[k]).0 == s.last().1 {
            d
        } else {
            d.push((s.last().1, s.last().2))
        }
    }
}

/// The offered addresses: ranked, one entry per address.
pub open spec fn offered_addresses(adapters: Seq<AdapterInfo>) -> Seq<(Ipv4, Seq<char>)> {
    first_of_each_address(ranked(all_scored(adapters)))
}

/// A candidate by its address and label.
pub open spec fn candidates_view(v: Seq<NetworkCandidate>) -> Seq<(Ipv4, Seq<char>)> {
    v.map_values(|c: NetworkCandidate| (c.ip, c.label@))
}

struct ScoredCandidate {
    score: i32,
    ip: Ipv4,
    label: String,
}

spec fn scored_view(v: Seq<ScoredCandidate>) -> Seq<Scored> {
    v.map_values(|c: ScoredCandidate| (c.score as int, c.ip, c.label@))
}

fn build_label(name: &str, ip: Ipv4) -> (res: String)
    ensures
        res@ == candidate_label(name@, ip),
{
    let mut label = String::from_str(name);
    label.append(" (");
    push_ipv4(&mut label, &ip);
    label.append(")");
    label
}

fn scored_addresses(adapter: &AdapterInfo, out: &mut Vec<ScoredCandidate>)
    requires
        adapter.is_up,
    ensures
        scored_view(final(out)@) == scored_view(old(out)@) + addresses_scored(
            adapter.addresses@,
            adapter.friendly_name@,
        ),
{
    let lowered = to_lowercase(adapter.friendly_name.as_str());
    let mut i: usize = 0;
    while i < adapter.addresses.len()
        invariant
            i <= adapter.addresses.len(),
            lowered@ == unicode_lowercase(adapter.friendly_name@),
            scored_view(out@) == scored_view(old(out)@) + addresses_scored(
                adapter.addresses@.take(i as int),
                adapter.friendly_name@,
            ),
        decreases adapter.addresses.len() - i,
    {
        let ghost before = out@;
        assert(adapter.addresses@.take(i + 1).drop_last() == adapter.addresses@.take(i as int));
        match &adapter.addresses[i] {
            AdapterAddress::V4(ip) => {
                let loopback = ip.0 == 127;
                let link_local = ip.0 == 169 && ip.1 == 254;
                if !loopback && !link_local {
                    let s = candidate_score(*ip, lowered.as_str());
                    if s > 0 {
                        out.push(
                            ScoredCandidate {
                                score: s,
                                ip: *ip,
                                label: build_label(adapter.friendly_name.as_str(), *ip),
                            },
                        );
                        assert(scored_view(out@) == scored_view(before).push(
                            (out@.last().score as int, out@.last().ip, out@.last().label@),
                        ));
                    }
                }
            },
            AdapterAddress::V6 => {},
        }
        i = i + 1;
    }
    assert(adapter.addresses@.take(adapter.addresses.len() as int) == adapter.addresses@);
}

fn has_address(v: &Vec<NetworkCandidate>, ip: Ipv4) -> (res: bool)
    ensures
        res == exists|k: int| 0 <= k < v@.len() && (#[trigger] candidates_view(v@)[k]).0 == ip,
{
    let mut i: usize = 0;
    while i < v.len()
        invariant
            i <= v.len(),
            forall|k: int| 0 <= k < i ==> v@[k].ip != ip,
        decreases v.len() - i,
    {
        if v[i].ip == ip {
            assert(candidates_view(v@)[i as int].0 == ip);
            return true;
        }
        i = i + 1;
    }
    assert forall|k: int| 0 <= k < v@.len() implies (#[trigger] candidates_view(v@)[k]).0 != ip by {
        assert(v@[k].ip != ip);
    }
    false
}

/// The addresses to offer a share on, from the system's adapters: the
/// IPv4 addresses of adapters that are up, without loopback and link-local
/// ones, with a positive score, best first, each address once.
/// `NoLanIpv4` when there is none.
pub fn discover_ipv4_candidates(adapters: &Vec<AdapterInfo>) -> (res: Result<Vec<NetworkCandidate>, LanQrError>)
    ensures
        offered_addresses(adapters@).len() == 0 <==> res is Err,
        res matches Ok(v) ==> candidates_view(v@) == offered_addresses(adapters@),
        res matches Err(e) ==> e == LanQrError::NoLanIpv4,
{
    let mut scored: Vec<ScoredCandidate> = Vec::new();
    let mut a: usize = 0;
    while a < adapters.len()
        invariant
            a <= adapters.len(),
            scored_view(scored@) == all_scored(adapters@.take(a as int)),
        decreases adapters.len() - a,
    {
        assert(adapters@.take(a + 1).drop_last() == adapters@.take(a as int));
        if adapters[a].is_up {
            scored_addresses(&adapters[a], &mut scored);
        }
        a = a + 1;
        assert(scored_view(scored@) == all_scored(adapters@.take(a as int)));
    }
    assert(adapters@.take(adapters.len() as int) == adapters@);
    let ghost all = scored_view(scored@);
    // order by score (descending), then label
    let mut keys: Vec<SortKey> = Vec::new();
    let mut i: usize = 0;
    while i < scored.len()
        invariant
            i <= scored.len(),
            all == scored_view(scored@),
            keys@.len() == i,
            forall|k: int| 0 <= k < i ==> #[trigger] keys@[k]@ == scored_key(all[k]),
        decreases scored.len() - i,
    {
        keys.push(SortKey { rank: -(scored[i].score as i64), text: chars_of(scored[i].label.as_str()) });
        i = i + 1;
    }
    let ghost kv = all.map_values(|x: Scored| scored_key(x));
    assert(keys_view(keys@) == kv);
    let order = stable_sorted_positions(&keys);
    proof {
        crate::sorting::lemma_stable_order(kv);
    }
    let ghost rk = ranked(all);
    let mut result: Vec<NetworkCandidate> = Vec::new();
    let mut k: usize = 0;
    while k < order.len()
        invariant
            k <= order.len(),
            all == scored_view(scored@),
            kv == all.map_values(|x: Scored| scored_key(x)),
            order@.len() == stable_order(kv).len(),
            forall|x: int| 0 <= x < order@.len() ==> order@[x] as int == stable_order(kv)[x],
            crate::sorting::is_permutation_of_range(stable_order(kv), all.len()),
            rk == ranked(all),
            candidates_view(result@) == first_of_each_address(rk.take(k as int)),
        decreases order.len() - k,
    {
        let idx = order[k];
        assert(rk.take(k + 1).drop_last() == rk.take(k as int));
        assert(rk[k as int] == all[idx as int]);
        let ip = scored[idx].ip;
        if !has_address(&result, ip) {
            let ghost before = result@;
            result.push(NetworkCandidate { ip, label: String::from_str(scored[idx].label.as_str()) });
            assert(candidates_view(result@) == candidates_view(before).push(
                (ip, scored@[idx as int].label@),
            ));
        }
        k = k + 1;
    }
    assert(rk.take(order.len() as int) == rk);
    if result.len() == 0 {
        return Err(LanQrError::NoLanIpv4);
    }
    Ok(result)
}

// ---------------------------------------------------------------------------
// What is offered
// ---------------------------------------------------------------------------
/// A scored address qualifies: positive score, neither loopback nor link-local.
pub open spec fn qualifies(x: Scored) -> bool {
    x.0 > 0 && !is_loopback(x.1) && !is_link_local(x.1)
}

proof fn lemma_addresses_scored_qualify(addrs: Seq<AdapterAddress>, name: Seq<char>)
    ensures
        forall|k: int|
            0 <= k < addresses_scored(addrs, name).len() ==> qualifies(
                #[trigger] addresses_scored(addrs, name)[k],
            ),
    decreases addrs.len(),
{
    if addrs.len() > 0 {
        lemma_addresses_scored_qualify(addrs.drop_last(), name);
        let before = addresses_scored(addrs.drop_last(), name);
        let all = addresses_scored(addrs, name);
        assert forall|k: int| 0 <= k < all.len() implies qualifies(#[trigger] all[k]) by {
            if k < before.len() {
                assert(all[k] == before[k]);
            }
        }
    }
}

proof fn lemma_all_scored_qualify(adapters: Seq<AdapterInfo>)
    ensures
        forall|k: int| 0 <= k < all_scored(adapters).len() ==> qualifies(#[trigger] all_scored(adapters)[k]),
    decreases adapters.len(),
{
    if adapters.len() > 0 {
        lemma_all_scored_qualify(adapters.drop_last());
        let a = adapters.last();
        lemma_addresses_scored_qualify(a.addresses@, a.friendly_name@);
        let before = all_scored(adapters.drop_last());
        let added = if a.is_up {
            addresses_scored(a.addresses@, a.friendly_name@)
        } else {
            Seq::empty()
        };
        let all = all_scored(adapters);
        assert(all == before + added);
        assert forall|k: int| 0 <= k < all.len() implies qualifies(#[trigger] all[k]) by {
            if k < before.len() {
                assert(all[k] == before[k]);
            } else {
                assert(all[k] == added[k - before.len()]);
            }
        }
    }
}

/// No address is offered twice.
proof fn lemma_first_of_each_unique(s: Seq<Scored>)
    ensures
        forall|a: int, b: int|
            0 <= a < b < first_of_each_address(s).len() ==> (#[trigger] first_of_each_address(s)[a]).0
                != (#[trigger] first_of_each_address(s)[b]).0,
    decreases s.len(),
{
    if s.len() > 0 {
        lemma_first_of_each_unique(s.drop_last());
        let d = first_of_each_address(s.drop_last());
        let r = first_of_each_address(s);
        if !(exists|k: int| 0 <= k < d.len() && (#[trigger] d[k]).0 == s.last().1) {
            assert forall|a: int, b: int| 0 <= a < b < r.len() implies (#[trigger] r[a]).0
                != (#[trigger] r[b]).0 by {
                if b == d.len() {
                    assert(r[a] == d[a]);
                } else {
                    assert(r[a] == d[a]);
                    assert(r[b] == d[b]);
                }
            }
        }
    }
}

/// Each offered address comes with the label of a listed one.
proof fn lemma_first_of_each_sound(s: Seq<Scored>, i: int)
    requires
        0 <= i < first_of_each_address(s).len(),
    ensures
        exists|k: int|
            0 <= k < s.len() && s[k].1 == first_of_each_address(s)[i].0 && s[k].2
                == first_of_each_address(s)[i].1,
    decreases s.len(),
{
    let p = s.drop_last();
    let d = first_of_each_address(p);
    let r = first_of_each_address(s);
    if i < d.len() {
        assert(r[i] == d[i]);
        lemma_first_of_each_sound(p, i);
        let k = choose|k: int| 0 <= k < p.len() && p[k].1 == d[i].0 && p[k].2 == d[i].1;
        assert(s[k] == p[k]);
    } else {
        assert(s[s.len() - 1].1 == r[i].0 && s[s.len() - 1].2 == r[i].1);
    }
}

/// Each listed address is offered.
proof fn lemma_first_of_each_complete(s: Seq<Scored>, k: int)
    requires
        0 <= k < s.len(),
    ensures
        exists|i: int| 0 <= i < first_of_each_address(s).len() && first_of_each_address(s)[i].0 == s[k].1,
    decreases s.len(),
{
    let p = s.drop_last();
    let d = first_of_each_address(p);
    let r = first_of_each_address(s);
    if k < p.len() {
        lemma_first_of_each_complete(p, k);
        let i = choose|i: int| 0 <= i < d.len() && d[i].0 == p[k].1;
        assert(r[i] == d[i]);
        assert(s[k] == p[k]);
    } else if exists|j: int| 0 <= j < d.len() && (#[trigger] d[j]).0 == s.last().1 {
        let j = choose|j: int| 0 <= j < d.len() && (#[trigger] d[j]).0 == s.last().1;
        assert(r[j] == d[j]);
    } else {
        assert(r[d.len() as int].0 == s.last().1);
    }
}

/// The offered addresses: each address at most once; each one an IPv4
/// address of an adapter that is up, neither loopback nor link-local, with a
/// positive score, offered under its label; and every such address is offered.
pub proof fn lemma_offered_addresses(adapters: Seq<AdapterInfo>)
    ensures
        forall|a: int, b: int|
            0 <= a < b < offered_addresses(adapters).len() ==> (#[trigger] offered_addresses(
                adapters,
            )[a]).0 != (#[trigger] offered_addresses(adapters)[b]).0,
        forall|i: int|
            0 <= i < offered_addresses(adapters).len() ==> exists|k: int|
                0 <= k < all_scored(adapters).len() && all_scored(adapters)[k].1
                    == #[trigger] offered_addresses(adapters)[i].0 && all_scored(adapters)[k].2
                    == offered_addresses(adapters)[i].1 && qualifies(all_scored(adapters)[k]),
        forall|k: int|
            0 <= k < all_scored(adapters).len() ==> exists|i: int|
                0 <= i < offered_addresses(adapters).len() && offered_addresses(adapters)[i].0
                    == (#[trigger] all_scored(adapters)[k]).1,
{
    let all = all_scored(adapters);
    let keys = all.map_values(|x: Scored| scored_key(x));
    crate::sorting::lemma_stable_order(keys);
    lemma_all_scored_qualify(adapters);
    let order = stable_order(keys);
    let rk = ranked(all);
    assert(rk.len() == order.len());
    lemma_first_of_each_unique(rk);
    let off = offered_addresses(adapters);
    assert forall|i: int| 0 <= i < off.len() implies exists|k: int|
        0 <= k < all.len() && all[k].1 == #[trigger] off[i].0 && all[k].2 == off[i].1 && qualifies(
            all[k],
        ) by {
        lemma_first_of_each_sound(rk, i);
        let x = choose|x: int| 0 <= x < rk.len() && rk[x].1 == off[i].0 && rk[x].2 == off[i].1;
        let k = order[x];
        assert(rk[x] == all[k]);
        assert(qualifies(all[k]));
    }
    assert forall|k: int| 0 <= k < all.len() implies exists|i: int|
        0 <= i < off.len() && off[i].0 == (#[trigger] all[k]).1 by {
        crate::sorting::lemma_permutation_covers(order, all.len(), k);
        let x = choose|x: int| 0 <= x < order.len() && order[x] == k;
        assert(rk[x] == all[k]);
        lemma_first_of_each_complete(rk, x);
    }
}

/// An IPv4 address of an adapter named `name` that is offered: neither
/// loopback nor link-local, with a positive score for the lower-cased name.
pub open spec fn address_ok(name: Seq<char>, ip: Ipv4) -> bool {
    !is_loopback(ip) && !is_link_local(ip) && score(ip, unicode_lowercase(name)) > 0
}

/// The scored entry of `ip` on the adapter named `name`.
pub open spec fn scored_entry(name: Seq<char>, ip: Ipv4) -> Scored {
    (score(ip, unicode_lowercase(name)), ip, candidate_label(name, ip))
}

proof fn lemma_addresses_scored_members(addrs: Seq<AdapterAddress>, name: Seq<char>)
    ensures
        forall|k: int|
            #![trigger addresses_scored(addrs, name)[k]]
            0 <= k < addresses_scored(addrs, name).len() ==> exists|j: int|
                0 <= j < addrs.len() && #[trigger] addrs[j] == AdapterAddress::V4(
                    addresses_scored(addrs, name)[k].1,
                ) && address_ok(name, addresses_scored(addrs, name)[k].1)
                    && addresses_scored(addrs, name)[k] == scored_entry(
                    name,
                    addresses_scored(addrs, name)[k].1,
                ),
        forall|j: int|
            0 <= j < addrs.len() && (#[trigger] addrs[j] matches AdapterAddress::V4(ip) && address_ok(
                name,
                ip,
            )) ==> exists|k: int|
                0 <= k < addresses_scored(addrs, name).len() && addresses_scored(addrs, name)[k]
                    == scored_entry(name, addrs[j]->V4_0),
    decreases addrs.len(),
{
    if addrs.len() > 0 {
        let p = addrs.drop_last();
        lemma_addresses_scored_members(p, name);
        let before = addresses_scored(p, name);
        let all = addresses_scored(addrs, name);
        assert forall|k: int| #![trigger all[k]] 0 <= k < all.len() implies exists|j: int|
            0 <= j < addrs.len() && #[trigger] addrs[j] == AdapterAddress::V4(all[k].1) && address_ok(
                name,
                all[k].1,
            ) && all[k] == scored_entry(name, all[k].1) by {
            if k < before.len() {
                assert(all[k] == before[k]);
                let j = choose|j: int|
                    0 <= j < p.len() && #[trigger] p[j] == AdapterAddress::V4(before[k].1) && address_ok(
                        name,
                        before[k].1,
                    ) && before[k] == scored_entry(name, before[k].1);
                assert(addrs[j] == p[j]);
            } else {
                assert(addrs[addrs.len() - 1] == addrs.last());
            }
        }
        assert forall|j: int|
            0 <= j < addrs.len() && (#[trigger] addrs[j] matches AdapterAddress::V4(ip) && address_ok(
                name,
                ip,
            )) implies exists|k: int|
            0 <= k < all.len() && all[k] == scored_entry(name, addrs[j]->V4_0) by {
            if j < p.len() {
                assert(p[j] == addrs[j]);
                let k = choose|k: int| 0 <= k < before.len() && before[k] == scored_entry(name, p[j]->V4_0);
                assert(all[k] == before[k]);
            } else {
                assert(addrs[j] == addrs.last());
                assert(all[all.len() - 1] == scored_entry(name, addrs[j]->V4_0));
            }
        }
    }
}

#[verifier::opaque]
spec fn scored_sound(adapters: Seq<AdapterInfo>) -> bool {
    forall|k: int|
        0 <= k < all_scored(adapters).len() ==> qualifies(#[trigger] all_scored(adapters)[k]) && exists|a: int, j: int|
            0 <= a < adapters.len() && adapters[a].is_up && 0 <= j < adapters[a].addresses@.len()
                && #[trigger] adapters[a].addresses@[j] == AdapterAddress::V4(all_scored(adapters)[k].1)
                && address_ok(adapters[a].friendly_name@, all_scored(adapters)[k].1)
                && all_scored(adapters)[k] == scored_entry(
                adapters[a].friendly_name@,
                all_scored(adapters)[k].1,
            )
}

#[verifier::opaque]
spec fn scored_complete(adapters: Seq<AdapterInfo>) -> bool {
    forall|a: int, j: int|
        0 <= a < adapters.len() && adapters[a].is_up && 0 <= j < adapters[a].addresses@.len() && (
        #[trigger] adapters[a].addresses@[j] matches AdapterAddress::V4(ip) && address_ok(
            adapters[a].friendly_name@,
            ip,
        )) ==> exists|k: int|
            0 <= k < all_scored(adapters).len() && all_scored(adapters)[k] == scored_entry(
                adapters[a].friendly_name@,
                adapters[a].addresses@[j]->V4_0,
            )
}

proof fn lemma_all_scored_sound(adapters: Seq<AdapterInfo>)
    ensures
        scored_sound(adapters),
    decreases adapters.len(),
{
    reveal(scored_sound);
    if adapters.len() > 0 {
        let p = adapters.drop_last();
        lemma_all_scored_sound(p);
        let a = adapters.last();
        let n = adapters.len() - 1;
        lemma_addresses_scored_members(a.addresses@, a.friendly_name@);
        let before = all_scored(p);
        let added = if a.is_up {
            addresses_scored(a.addresses@, a.friendly_name@)
        } else {
            Seq::empty()
        };
        let all = all_scored(adapters);
        assert(all == before + added);
        assert(adapters[n] == a);
        lemma_all_scored_qualify(adapters);
        assert forall|k: int| 0 <= k < all_scored(adapters).len() implies qualifies(#[trigger] all_scored(adapters)[k]) && exists|x: int, j: int|
            0 <= x < adapters.len() && adapters[x].is_up && 0 <= j < adapters[x].addresses@.len()
                && #[trigger] adapters[x].addresses@[j] == AdapterAddress::V4(all_scored(adapters)[k].1) && address_ok(
                adapters[x].friendly_name@,
                all_scored(adapters)[k].1,
            ) && all_scored(adapters)[k] == scored_entry(adapters[x].friendly_name@, all_scored(adapters)[k].1) by {
            if k < before.len() {
                assert(all[k] == before[k]);
                assert(all_scored(p)[k] == before[k]);
                let (x, j) = choose|x: int, j: int|
                    0 <= x < p.len() && p[x].is_up && 0 <= j < p[x].addresses@.len()
                        && #[trigger] p[x].addresses@[j] == AdapterAddress::V4(before[k].1) && address_ok(
                        p[x].friendly_name@,
                        before[k].1,
                    ) && before[k] == scored_entry(p[x].friendly_name@, before[k].1);
                assert(adapters[x] == p[x]);
            } else {
                let m = k - before.len();
                assert(all[k] == added[m]);
                assert(a.is_up);
                let j = choose|j: int|
                    0 <= j < a.addresses@.len() && #[trigger] a.addresses@[j] == AdapterAddress::V4(
                        added[m].1,
                    ) && address_ok(a.friendly_name@, added[m].1) && added[m] == scored_entry(
                        a.friendly_name@,
                        added[m].1,
                    );
                assert(adapters[n].addresses@[j] == AdapterAddress::V4(all[k].1));
            }
        }
    } else {
        assert(all_scored(adapters).len() == 0);
    }
}

proof fn lemma_all_scored_complete(adapters: Seq<AdapterInfo>)
    ensures
        scored_complete(adapters),
    decreases adapters.len(),
{
    reveal(scored_complete);
    if adapters.len() > 0 {
        let p = adapters.drop_last();
        lemma_all_scored_complete(p);
        let a = adapters.last();
        let n = adapters.len() - 1;
        lemma_addresses_scored_members(a.addresses@, a.friendly_name@);
        let before = all_scored(p);
        let added = if a.is_up {
            addresses_scored(a.addresses@, a.friendly_name@)
        } else {
            Seq::empty()
        };
        let all = all_scored(adapters);
        assert(all == before + added);
        assert(adapters[n] == a);
        assert forall|x: int, j: int|
            0 <= x < adapters.len() && adapters[x].is_up && 0 <= j < adapters[x].addresses@.len() && (
            #[trigger] adapters[x].addresses@[j] matches AdapterAddress::V4(ip) && address_ok(
                adapters[x].friendly_name@,
                ip,
            )) implies exists|k: int|
            0 <= k < all.len() && all[k] == scored_entry(
                adapters[x].friendly_name@,
                adapters[x].addresses@[j]->V4_0,
            ) by {
            if x < n {
                assert(adapters[x] == p[x]);
                assert(p[x].addresses@[j] == adapters[x].addresses@[j]);
                let k = choose|k: int|
                    0 <= k < before.len() && before[k] == scored_entry(
                        p[x].friendly_name@,
                        p[x].addresses@[j]->V4_0,
                    );
                assert(all[k] == before[k]);
            } else {
                assert(a.addresses@[j] == adapters[x].addresses@[j]);
                let m = choose|m: int|
                    0 <= m < added.len() && added[m] == scored_entry(
                        a.friendly_name@,
                        a.addresses@[j]->V4_0,
                    );
                assert(all[before.len() + m] == added[m]);
            }
        }
    }
}

/// Some position in `d` holds an entry of `s` with the address of the last
/// entry of `s`.
#[verifier::opaque]
pub open spec fn last_address_seen(s: Seq<Scored>, d: Seq<int>) -> bool {
    exists|k: int| 0 <= k < d.len() && s[#[trigger] d[k]].1 == s.last().1
}

/// The positions in `s` of the first entry of each address, in order.
#[verifier::opaque]
pub open spec fn first_positions(s: Seq<Scored>) -> Seq<int>
    decreases s.len(),
{
    if s.len() == 0 {
        Seq::empty()
    } else {
        let d = first_positions(s.drop_last());
        if last_address_seen(s, d) {
            d
        } else {
            d.push(s.len() - 1)
        }
    }
}

proof fn lemma_fp_step(s: Seq<Scored>)
    ensures
        s.len() == 0 ==> first_positions(s) == Seq::<int>::empty(),
        s.len() > 0 ==> first_positions(s) == if last_address_seen(s, first_positions(s.drop_last())) {
            first_positions(s.drop_last())
        } else {
            first_positions(s.drop_last()).push(s.len() - 1)
        },
{
    reveal(first_positions);
}

/// The positions are in range, increasing, and give the offered entries.
proof fn lemma_fp_basic(s: Seq<Scored>)
    ensures
        first_positions(s).len() == first_of_each_address(s).len(),
        forall|i: int|
            0 <= i < first_positions(s).len() ==> 0 <= #[trigger] first_positions(s)[i] < s.len()
                && first_of_each_address(s)[i] == (s[first_positions(s)[i]].1, s[first_positions(s)[i]].2),
        forall|i: int, j: int|
            0 <= i < j < first_positions(s).len() ==> #[trigger] first_positions(s)[i]
                < #[trigger] first_positions(s)[j],
    decreases s.len(),
{
    lemma_fp_step(s);
    if s.len() > 0 {
        let p = s.drop_last();
        lemma_fp_basic(p);
        let d = first_positions(p);
        let e = first_of_each_address(p);
        let last = s.len() - 1;
        let found = last_address_seen(s, d);
        assert(found <==> exists|k: int| 0 <= k < e.len() && (#[trigger] e[k]).0 == s.last().1) by {
            reveal(last_address_seen);
            if found {
                let k = choose|k: int| 0 <= k < d.len() && s[#[trigger] d[k]].1 == s.last().1;
                assert(s[d[k]] == p[d[k]]);
            }
            if exists|k: int| 0 <= k < e.len() && (#[trigger] e[k]).0 == s.last().1 {
                let k = choose|k: int| 0 <= k < e.len() && (#[trigger] e[k]).0 == s.last().1;
                assert(s[d[k]] == p[d[k]]);
            }
        }
        let fp = first_positions(s);
        if found {
            assert forall|i: int| 0 <= i < fp.len() implies 0 <= #[trigger] fp[i] < s.len()
                && first_of_each_address(s)[i] == (s[fp[i]].1, s[fp[i]].2) by {
                assert(s[d[i]] == p[d[i]]);
            }
        } else {
            assert(s.last() == s[last]);
            assert forall|i: int| 0 <= i < fp.len() implies 0 <= #[trigger] fp[i] < s.len()
                && first_of_each_address(s)[i] == (s[fp[i]].1, s[fp[i]].2) by {
                if i < d.len() {
                    assert(fp[i] == d[i]);
                    assert(s[d[i]] == p[d[i]]);
                }
            }
            assert forall|i: int, j: int| 0 <= i < j < fp.len() implies #[trigger] fp[i] < #[trigger] fp[j] by {
                if j < d.len() {
                    assert(fp[i] == d[i] && fp[j] == d[j]);
                } else {
                    assert(fp[i] == d[i]);
                }
            }
        }
    }
}

/// The positions lie inside `s`.
proof fn lemma_fp_range(s: Seq<Scored>)
    ensures
        forall|i: int| 0 <= i < first_positions(s).len() ==> 0 <= #[trigger] first_positions(s)[i] < s.len(),
    decreases s.len(),
{
    lemma_fp_step(s);
    if s.len() > 0 {
        lemma_fp_range(s.drop_last());
        let d = first_positions(s.drop_last());
        let fp = first_positions(s);
        assert forall|i: int| 0 <= i < fp.len() implies 0 <= #[trigger] fp[i] < s.len() by {
            if i < d.len() {
                assert(fp[i] == d[i]);
            }
        }
    }
}

/// Every address of `s` is at one of the positions.
proof fn lemma_fp_covers(s: Seq<Scored>)
    ensures
        forall|y: int|
            0 <= y < s.len() ==> exists|i: int|
                0 <= i < first_positions(s).len() && s[#[trigger] first_positions(s)[i]].1 == (#[trigger] s[y]).1,
    decreases s.len(),
{
    lemma_fp_step(s);
    if s.len() > 0 {
        let p = s.drop_last();
        lemma_fp_covers(p);
        lemma_fp_range(p);
        let d = first_positions(p);
        let last = s.len() - 1;
        assert(s.last() == s[last]);
        let found = last_address_seen(s, d);
        let fp = first_positions(s);
        assert forall|y: int| 0 <= y < s.len() implies exists|i: int|
            0 <= i < fp.len() && s[#[trigger] fp[i]].1 == (#[trigger] s[y]).1 by {
            if y < p.len() {
                assert(s[y] == p[y]);
                let i = choose|i: int| 0 <= i < d.len() && p[#[trigger] d[i]].1 == (#[trigger] p[y]).1;
                assert(fp[i] == d[i]);
                assert(s[d[i]] == p[d[i]]);
            } else if found {
                reveal(last_address_seen);
                let k = choose|k: int| 0 <= k < d.len() && s[#[trigger] d[k]].1 == s.last().1;
                assert(fp[k] == d[k]);
            } else {
                assert(fp[d.len() as int] == last);
            }
        }
    }
}

/// Each position is the first one of its address.
proof fn lemma_fp_first(s: Seq<Scored>)
    ensures
        forall|i: int, y: int|
            0 <= i < first_positions(s).len() && 0 <= y < #[trigger] first_positions(s)[i] ==> #[trigger] s[y].1
                != s[first_positions(s)[i]].1,
    decreases s.len(),
{
    lemma_fp_step(s);
    if s.len() > 0 {
        let p = s.drop_last();
        lemma_fp_first(p);
        lemma_fp_range(p);
        lemma_fp_covers(p);
        let d = first_positions(p);
        let last = s.len() - 1;
        assert(s.last() == s[last]);
        let found = last_address_seen(s, d);
        let fp = first_positions(s);
        assert forall|i: int, y: int|
            0 <= i < fp.len() && 0 <= y < #[trigger] fp[i] implies #[trigger] s[y].1 != s[fp[i]].1 by {
            if i < d.len() {
                assert(fp[i] == d[i]);
                assert(p[y] == s[y]);
                assert(p[d[i]] == s[fp[i]]);
            } else {
                assert(!found);
                assert(fp[i] == last);
                assert(p[y] == s[y]);
                let i2 = choose|i2: int| 0 <= i2 < d.len() && p[#[trigger] d[i2]].1 == (#[trigger] p[y]).1;
                assert(s[d[i2]] == p[d[i2]]);
                if s[y].1 == s[fp[i]].1 {
                    reveal(last_address_seen);
                    assert(s[d[i2]].1 == s.last().1);
                }
            }
        }
    }
}

proof fn lemma_first_positions(s: Seq<Scored>)
    ensures
        first_positions(s).len() == first_of_each_address(s).len(),
        forall|i: int|
            0 <= i < first_positions(s).len() ==> 0 <= #[trigger] first_positions(s)[i] < s.len()
                && first_of_each_address(s)[i] == (s[first_positions(s)[i]].1, s[first_positions(s)[i]].2),
        forall|i: int, j: int|
            0 <= i < j < first_positions(s).len() ==> #[trigger] first_positions(s)[i]
                < #[trigger] first_positions(s)[j],
        forall|i: int, y: int|
            0 <= i < first_positions(s).len() && 0 <= y < #[trigger] first_positions(s)[i] ==> #[trigger] s[y].1
                != s[first_positions(s)[i]].1,
{
    lemma_fp_basic(s);
    lemma_fp_first(s);
}

/// The scored entry an address is offered by: its first, best-ranked, entry.
pub open spec fn offered_entry(adapters: Seq<AdapterInfo>, i: int) -> Scored {
    ranked(all_scored(adapters))[first_positions(ranked(all_scored(adapters)))[i]]
}

/// `x` ranks no lower than `y`: a higher score, or the same score and a label
/// that does not come after.
pub open spec fn ranks_no_lower(x: Scored, y: Scored) -> bool {
    x.0 > y.0 || (x.0 == y.0 && !chars_lt(y.2, x.2))
}

proof fn lemma_ranked_facts(all: Seq<Scored>)
    ensures
        ranked(all).len() == all.len(),
        forall|x: int, y: int|
            0 <= x < y < ranked(all).len() ==> ranks_no_lower(#[trigger] ranked(all)[x], #[trigger] ranked(all)[y]),
        forall|x: int|
            0 <= x < ranked(all).len() ==> exists|k: int| 0 <= k < all.len() && all[k] == #[trigger] ranked(all)[x],
        forall|k: int|
            0 <= k < all.len() ==> exists|x: int| 0 <= x < ranked(all).len() && ranked(all)[x] == #[trigger] all[k],
{
    let keys = all.map_values(|x: Scored| scored_key(x));
    crate::sorting::lemma_stable_order(keys);
    let order = stable_order(keys);
    let rk = ranked(all);
    assert(rk.len() == order.len());
    assert forall|x: int, y: int| 0 <= x < y < rk.len() implies ranks_no_lower(#[trigger] rk[x], #[trigger] rk[y]) by {
        assert(rk[x] == all[order[x]]);
        assert(rk[y] == all[order[y]]);
        assert(!crate::sorting::key_before(keys[order[y]], keys[order[x]]));
    }
    assert forall|x: int| 0 <= x < rk.len() implies exists|k: int| 0 <= k < all.len() && all[k] == #[trigger] rk[x] by {
        assert(rk[x] == all[order[x]]);
    }
    assert forall|k: int| 0 <= k < all.len() implies exists|x: int| 0 <= x < rk.len() && rk[x] == #[trigger] all[k] by {
        crate::sorting::lemma_permutation_covers(order, all.len(), k);
        let x = choose|x: int| 0 <= x < order.len() && order[x] == k;
        assert(rk[x] == all[k]);
    }
}

proof fn lemma_offered_entry_at(adapters: Seq<AdapterInfo>, i: int)
    requires
        0 <= i < offered_addresses(adapters).len(),
    ensures
        offered_addresses(adapters)[i] == (offered_entry(adapters, i).1, offered_entry(adapters, i).2),
        exists|k: int| 0 <= k < all_scored(adapters).len() && all_scored(adapters)[k] == offered_entry(adapters, i),
{
    let all = all_scored(adapters);
    let rk = ranked(all);
    lemma_ranked_facts(all);
    lemma_first_positions(rk);
    let fp = first_positions(rk);
    assert(0 <= fp[i] < rk.len());
    assert(rk[fp[i]] == offered_entry(adapters, i));
}

proof fn lemma_offered_pair(adapters: Seq<AdapterInfo>, i: int, j: int)
    requires
        0 <= i < j < offered_addresses(adapters).len(),
    ensures
        ranks_no_lower(offered_entry(adapters, i), offered_entry(adapters, j)),
{
    let all = all_scored(adapters);
    let rk = ranked(all);
    lemma_ranked_facts(all);
    lemma_first_positions(rk);
    let fp = first_positions(rk);
    assert(fp[i] < fp[j]);
    assert(0 <= fp[j] < rk.len());
    assert(ranks_no_lower(rk[fp[i]], rk[fp[j]]));
}

proof fn lemma_offered_best(adapters: Seq<AdapterInfo>, i: int, k: int)
    requires
        0 <= i < offered_addresses(adapters).len(),
        0 <= k < all_scored(adapters).len(),
        all_scored(adapters)[k].1 == offered_addresses(adapters)[i].0,
    ensures
        ranks_no_lower(offered_entry(adapters, i), all_scored(adapters)[k]),
{
    let all = all_scored(adapters);
    let rk = ranked(all);
    lemma_ranked_facts(all);
    lemma_first_positions(rk);
    let fp = first_positions(rk);
    assert(0 <= fp[i] < rk.len());
    let x = choose|x: int| 0 <= x < rk.len() && rk[x] == #[trigger] all[k];
    assert(offered_addresses(adapters)[i].0 == rk[fp[i]].1);
    if x < fp[i] {
        assert(rk[x].1 != rk[fp[i]].1);
    } else if x == fp[i] {
        crate::sorting::lemma_chars_lt_irreflexive(rk[x].2);
    } else {
        assert(ranks_no_lower(rk[fp[i]], rk[x]));
    }
}

/// Each offered address is offered by one of its scored entries, the
/// best-ranked one (highest score, then the label that comes first), and the
/// offered addresses come best first.
pub proof fn lemma_offered_order(adapters: Seq<AdapterInfo>)
    ensures
        forall|i: int|
            0 <= i < offered_addresses(adapters).len() ==> #[trigger] offered_addresses(adapters)[i] == (
                offered_entry(adapters, i).1,
                offered_entry(adapters, i).2,
            ) && exists|k: int|
                0 <= k < all_scored(adapters).len() && all_scored(adapters)[k] == offered_entry(adapters, i),
        forall|i: int, j: int|
            0 <= i < j < offered_addresses(adapters).len() ==> ranks_no_lower(
                #[trigger] offered_entry(adapters, i),
                #[trigger] offered_entry(adapters, j),
            ),
        forall|i: int, k: int|
            0 <= i < offered_addresses(adapters).len() && 0 <= k < all_scored(adapters).len() && (
            #[trigger] all_scored(adapters)[k]).1 == (#[trigger] offered_addresses(adapters)[i]).0 ==> ranks_no_lower(
                offered_entry(adapters, i),
                all_scored(adapters)[k],
            ),
{
    assert forall|i: int| 0 <= i < offered_addresses(adapters).len() implies #[trigger] offered_addresses(adapters)[i] == (
        offered_entry(adapters, i).1,
        offered_entry(adapters, i).2,
    ) && exists|k: int|
        0 <= k < all_scored(adapters).len() && all_scored(adapters)[k] == offered_entry(adapters, i) by {
        lemma_offered_entry_at(adapters, i);
    }
    assert forall|i: int, j: int| 0 <= i < j < offered_addresses(adapters).len() implies ranks_no_lower(
        #[trigger] offered_entry(adapters, i),
        #[trigger] offered_entry(adapters, j),
    ) by {
        lemma_offered_pair(adapters, i, j);
    }
    assert forall|i: int, k: int|
        0 <= i < offered_addresses(adapters).len() && 0 <= k < all_scored(adapters).len() && (
        #[trigger] all_scored(adapters)[k]).1 == (#[trigger] offered_addresses(adapters)[i]).0 implies ranks_no_lower(
        offered_entry(adapters, i),
        all_scored(adapters)[k],
    ) by {
        lemma_offered_best(adapters, i, k);
    }
}

proof fn lemma_offered_source(adapters: Seq<AdapterInfo>, i: int)
    requires
        0 <= i < offered_addresses(adapters).len(),
        scored_sound(adapters),
    ensures
        exists|a: int, j: int|
            0 <= a < adapters.len() && adapters[a].is_up && 0 <= j < adapters[a].addresses@.len()
                && #[trigger] adapters[a].addresses@[j] == AdapterAddress::V4(
                offered_addresses(adapters)[i].0,
            ) && address_ok(adapters[a].friendly_name@, offered_addresses(adapters)[i].0)
                && offered_addresses(adapters)[i].1 == candidate_label(
                adapters[a].friendly_name@,
                offered_addresses(adapters)[i].0,
            ) && offered_entry(adapters, i) == scored_entry(
                adapters[a].friendly_name@,
                offered_addresses(adapters)[i].0,
            ),
{
    reveal(scored_sound);
    lemma_offered_entry_at(adapters, i);
    let all = all_scored(adapters);
    let k = choose|k: int| 0 <= k < all.len() && all[k] == offered_entry(adapters, i);
    assert(qualifies(all[k]));
}

proof fn lemma_offered_reaches(adapters: Seq<AdapterInfo>, a: int, j: int)
    requires
        scored_complete(adapters),
        0 <= a < adapters.len() && adapters[a].is_up && 0 <= j < adapters[a].addresses@.len(),
        adapters[a].addresses@[j] matches AdapterAddress::V4(ip) && address_ok(adapters[a].friendly_name@, ip),
    ensures
        exists|i: int|
            0 <= i < offered_addresses(adapters).len() && offered_addresses(adapters)[i].0
                == adapters[a].addresses@[j]->V4_0,
{
    reveal(scored_complete);
    let all = all_scored(adapters);
    assert(adapters[a].addresses@[j] == adapters[a].addresses@[j]);
    let k = choose|k: int|
        0 <= k < all.len() && all[k] == scored_entry(adapters[a].friendly_name@, adapters[a].addresses@[j]->V4_0);
    lemma_offered_addresses(adapters);
    assert(all[k].1 == adapters[a].addresses@[j]->V4_0);
}

/// The offered addresses, told over the adapters: each is an IPv4 address
/// of an adapter that is up, neither loopback nor link-local, with a positive
/// score, offered under the label `NAME (IP)` of that adapter and by the entry
/// scored for that adapter; every such address of every such adapter is
/// offered; and there is none to offer exactly when no adapter has such an
/// address.
pub proof fn lemma_offered_from_adapters(adapters: Seq<AdapterInfo>)
    ensures
        forall|i: int|
            0 <= i < offered_addresses(adapters).len() ==> #[trigger] offered_addresses(adapters)[i] == (
                offered_entry(adapters, i).1,
                offered_entry(adapters, i).2,
            ) && exists|a: int, j: int|
                0 <= a < adapters.len() && adapters[a].is_up && 0 <= j < adapters[a].addresses@.len()
                    && #[trigger] adapters[a].addresses@[j] == AdapterAddress::V4(
                    offered_addresses(adapters)[i].0,
                ) && address_ok(adapters[a].friendly_name@, offered_addresses(adapters)[i].0)
                    && offered_addresses(adapters)[i].1 == candidate_label(
                    adapters[a].friendly_name@,
                    offered_addresses(adapters)[i].0,
                ) && offered_entry(adapters, i) == scored_entry(
                    adapters[a].friendly_name@,
                    offered_addresses(adapters)[i].0,
                ),
        forall|a: int, j: int|
            0 <= a < adapters.len() && adapters[a].is_up && 0 <= j < adapters[a].addresses@.len() && (
            #[trigger] adapters[a].addresses@[j] matches AdapterAddress::V4(ip) && address_ok(
                adapters[a].friendly_name@,
                ip,
            )) ==> exists|i: int|
                0 <= i < offered_addresses(adapters).len() && offered_addresses(adapters)[i].0
                    == adapters[a].addresses@[j]->V4_0,
        offered_addresses(adapters).len() == 0 <==> !exists|a: int, j: int|
            0 <= a < adapters.len() && adapters[a].is_up && 0 <= j < adapters[a].addresses@.len() && (
            #[trigger] adapters[a].addresses@[j] matches AdapterAddress::V4(ip) && address_ok(
                adapters[a].friendly_name@,
                ip,
            )),
{
    lemma_all_scored_sound(adapters);
    lemma_all_scored_complete(adapters);
    let off = offered_addresses(adapters);
    assert forall|i: int| 0 <= i < off.len() implies #[trigger] off[i] == (
        offered_entry(adapters, i).1,
        offered_entry(adapters, i).2,
    ) && exists|a: int, j: int|
        0 <= a < adapters.len() && adapters[a].is_up && 0 <= j < adapters[a].addresses@.len()
            && #[trigger] adapters[a].addresses@[j] == AdapterAddress::V4(off[i].0) && address_ok(
            adapters[a].friendly_name@,
            off[i].0,
        ) && off[i].1 == candidate_label(adapters[a].friendly_name@, off[i].0) && offered_entry(
            adapters,
            i,
        ) == scored_entry(adapters[a].friendly_name@, off[i].0) by {
        lemma_offered_entry_at(adapters, i);
        lemma_offered_source(adapters, i);
    }
    assert forall|a: int, j: int|
        0 <= a < adapters.len() && adapters[a].is_up && 0 <= j < adapters[a].addresses@.len() && (
        #[trigger] adapters[a].addresses@[j] matches AdapterAddress::V4(ip) && address_ok(
            adapters[a].friendly_name@,
            ip,
        )) implies exists|i: int| 0 <= i < off.len() && off[i].0 == adapters[a].addresses@[j]->V4_0 by {
        lemma_offered_reaches(adapters, a, j);
    }
    if off.len() > 0 {
        lemma_offered_source(adapters, 0);
    }
}

// ---------------------------------------------------------------------------
// Ports
// ---------------------------------------------------------------------------
/// `Rng::gen_range(low..=high)`: a number in `low..=high`; which one is left
/// open.
#[verifier::external_body]
fn random_port_between(low: u16, high: u16) -> (res: u16)
    requires
        low <= high,
    ensures
        low <= res <= high,
{
    rand::thread_rng().gen_range(low..=high)
}

/// What to do next while looking for a port to listen on.
#[derive(Debug, PartialEq, Eq)]
pub enum PortStep {
    /// Bind the listener to this port and report whether that worked.
    Try(u16),
    /// The listener bound to this port is the one to keep.
    Keep(u16),
    /// No port could be bound.
    GiveUp(LanQrError),
}

/// The search for a port to listen on: random ports in
/// `PORT_RANGE_START..=PORT_RANGE_END` are tried one after another, the first
/// one that binds is kept, and the search gives up after
/// [`MAX_PORT_ATTEMPTS`] failed binds.
pub struct PortSearch {
    attempts: usize,
    waiting: Option<u16>,
    done: bool,
    tried: Ghost<Seq<u16>>,
    outcomes: Ghost<Seq<bool>>,
    kept: Ghost<Option<nat>>,
}

impl PortSearch {
    /// How many ports were handed out to be tried.
    pub closed spec fn attempts(&self) -> nat {
        self.attempts as nat
    }

    /// The port handed out whose bind outcome is awaited.
    pub closed spec fn waiting(&self) -> Option<u16> {
        self.waiting
    }

    /// The search is over (a port was kept, or it gave up).
    pub closed spec fn done(&self) -> bool {
        self.done
    }

    /// The ports handed out so far, in order.
    pub closed spec fn tried(&self) -> Seq<u16> {
        self.tried@
    }

    /// The bind outcomes recorded so far, in order.
    pub closed spec fn outcomes(&self) -> Seq<bool> {
        self.outcomes@
    }

    /// Once the search is over: the position of the port kept, or `None`
    /// when it gave up.
    pub closed spec fn kept(&self) -> Option<nat> {
        self.kept@
    }

    /// The invariant: never more than [`MAX_PORT_ATTEMPTS`] tries, each port
    /// in range; the awaited port is the last one handed out, and how far the
    /// search got is what [`port_run`] gives for the outcomes recorded so far.
    pub open spec fn wf(&self) -> bool {
        &&& self.attempts() <= MAX_PORT_ATTEMPTS
        &&& self.tried().len() == self.attempts()
        &&& forall|i: int| 0 <= i < self.tried().len() ==> PORT_RANGE_START <= #[trigger] self.tried()[i] <= PORT_RANGE_END
        &&& self.waiting() is Some ==> !self.done() && self.attempts() >= 1 && self.waiting() == Some(
            self.tried().last(),
        ) && self.outcomes().len() + 1 == self.attempts() && port_run(
            self.outcomes(),
            MAX_PORT_ATTEMPTS as nat,
        ) == (self.outcomes().len(), None::<nat>)
        &&& self.waiting() is None && !self.done() ==> self.attempts() == 0 && self.outcomes().len() == 0
        &&& self.done() && self.kept() is None ==> self.attempts() == MAX_PORT_ATTEMPTS
        &&& self.done() ==> self.waiting() is None && self.outcomes().len() == self.attempts() && port_run(
            self.outcomes(),
            MAX_PORT_ATTEMPTS as nat,
        ) == (self.outcomes().len(), self.kept())
    }

    /// A search that has tried nothing yet.
    pub fn new() -> (res: Self)
        ensures
            res.attempts() == 0,
            res.waiting() is None,
            !res.done(),
            res.outcomes().len() == 0,
            res.wf(),
    {
        PortSearch {
            attempts: 0,
            waiting: None,
            done: false,
            tried: Ghost(Seq::empty()),
            outcomes: Ghost(Seq::empty()),
            kept: Ghost(None),
        }
    }

    /// The first port to try.
    pub fn start(&mut self) -> (res: PortStep)
        requires
            old(self).wf(),
            old(self).waiting() is None,
            !old(self).done(),
        ensures
            final(self).wf(),
            final(self).attempts() == 1,
            !final(self).done(),
            final(self).outcomes().len() == 0,
            res matches PortStep::Try(p) && PORT_RANGE_START <= p <= PORT_RANGE_END && final(self).waiting()
                == Some(p) && final(self).tried() == seq![p],
    {
        let p = random_port_between(PORT_RANGE_START, PORT_RANGE_END);
        self.attempts = 1;
        self.waiting = Some(p);
        self.tried = Ghost(Seq::empty().push(p));
        PortStep::Try(p)
    }

    /// Takes in whether binding the awaited port worked: a port that bound is
    /// kept; after a failed bind the next random port is tried, unless
    /// [`MAX_PORT_ATTEMPTS`] ports were tried already, when the search gives
    /// up with `PortAllocationFailed`.
    pub fn record(&mut self, bound: bool) -> (res: PortStep)
        requires
            old(self).wf(),
            old(self).waiting() is Some,
        ensures
            final(self).wf(),
            final(self).outcomes() == old(self).outcomes().push(bound),
            bound ==> res == PortStep::Keep(old(self).waiting()->0) && final(self).done()
                && final(self).waiting() is None && final(self).attempts() == old(self).attempts()
                && final(self).tried() == old(self).tried()
                && final(self).kept() == Some((final(self).outcomes().len() - 1) as nat),
            !bound && old(self).attempts() < MAX_PORT_ATTEMPTS ==> (res matches PortStep::Try(p)
                && PORT_RANGE_START <= p <= PORT_RANGE_END && final(self).waiting() == Some(p)
                && !final(self).done() && final(self).attempts() == old(self).attempts() + 1
                && final(self).tried() == old(self).tried().push(p)),
            !bound && old(self).attempts() >= MAX_PORT_ATTEMPTS ==> res == PortStep::GiveUp(
                LanQrError::PortAllocationFailed,
            ) && final(self).done() && final(self).waiting() is None && final(self).attempts()
                == old(self).attempts() && final(self).tried() == old(self).tried()
                && final(self).kept() is None,
    {
        let p = match self.waiting {
            Some(p) => p,
            None => 0,
        };
        proof {
            lemma_port_run_push(self.outcomes@, bound, MAX_PORT_ATTEMPTS as nat);
        }
        self.outcomes = Ghost(self.outcomes@.push(bound));
        if bound {
            self.waiting = None;
            self.done = true;
            self.kept = Ghost(Some((self.outcomes@.len() - 1) as nat));
            return PortStep::Keep(p);
        }
        if self.attempts < MAX_PORT_ATTEMPTS {
            let next = random_port_between(PORT_RANGE_START, PORT_RANGE_END);
            self.attempts = self.attempts + 1;
            self.waiting = Some(next);
            self.tried = Ghost(self.tried@.push(next));
            PortStep::Try(next)
        } else {
            self.waiting = None;
            self.done = true;
            self.kept = Ghost(None);
            PortStep::GiveUp(LanQrError::PortAllocationFailed)
        }
    }
}

/// Driving a [`PortSearch`] from [`PortSearch::start`] through
/// [`PortSearch::record`] with the bind outcomes `outcomes`, in order, when
/// `n` more ports may be tried: how many binds are made, and the position of
/// the bind that is kept, if any.
pub open spec fn port_run(outcomes: Seq<bool>, n: nat) -> (nat, Option<nat>)
    decreases n,
{
    if n == 0 || outcomes.len() == 0 {
        (0, None)
    } else if outcomes[0] {
        (1, Some(0))
    } else {
        let r = port_run(outcomes.drop_first(), (n - 1) as nat);
        (
            r.0 + 1,
            match r.1 {
                Some(k) => Some(k + 1),
                None => None,
            },
        )
    }
}

proof fn lemma_port_run_push(h: Seq<bool>, b: bool, n: nat)
    requires
        h.len() < n,
        port_run(h, n) == (h.len(), None::<nat>),
    ensures
        port_run(h.push(b), n) == ((h.len() + 1) as nat, if b {
            Some(h.len())
        } else {
            None::<nat>
        }),
    decreases h.len(),
{
    let hp = h.push(b);
    if h.len() == 0 {
        assert(hp == seq![b]);
        assert(hp[0] == b);
        assert(hp.drop_first() == Seq::<bool>::empty());
        assert(port_run(Seq::<bool>::empty(), (n - 1) as nat) == (0nat, None::<nat>));
    } else {
        assert(!h[0]);
        let r = port_run(h.drop_first(), (n - 1) as nat);
        assert(r == ((h.len() - 1) as nat, None::<nat>));
        assert(hp[0] == h[0]);
        assert(hp.drop_first() == h.drop_first().push(b));
        lemma_port_run_push(h.drop_first(), b, (n - 1) as nat);
    }
}

proof fn lemma_port_run_shape(h: Seq<bool>, n: nat)
    ensures
        port_run(h, n).0 <= n,
        port_run(h, n).0 <= h.len(),
        port_run(h, n).1 matches Some(k) ==> k + 1 == port_run(h, n).0 && h[k as int] && forall|j: int|
            0 <= j < k ==> !#[trigger] h[j],
        port_run(h, n).1 is None ==> forall|j: int| 0 <= j < port_run(h, n).0 ==> !#[trigger] h[j],
    decreases n,
{
    if n > 0 && h.len() > 0 && !h[0] {
        let t = h.drop_first();
        lemma_port_run_shape(t, (n - 1) as nat);
        let r = port_run(t, (n - 1) as nat);
        match r.1 {
            Some(k) => {
                assert(h[k as int + 1] == t[k as int]);
                assert forall|j: int| 0 <= j < k + 1 implies !#[trigger] h[j] by {
                    if j > 0 {
                        assert(h[j] == t[j - 1]);
                    }
                }
            },
            None => {
                assert forall|j: int| 0 <= j < r.0 + 1 implies !#[trigger] h[j] by {
                    if j > 0 {
                        assert(h[j] == t[j - 1]);
                    }
                }
            },
        }
    }
}

proof fn lemma_port_run_steps(outcomes: Seq<bool>, n: nat)
    requires
        outcomes.len() >= n,
    ensures
        (forall|k: int| 0 <= k < n ==> !#[trigger] outcomes[k]) ==> port_run(outcomes, n) == (n, None::<nat>),
        forall|k: int|
            0 <= k < n && #[trigger] outcomes[k] && (forall|j: int| 0 <= j < k ==> !outcomes[j]) ==> port_run(
                outcomes,
                n,
            ) == ((k + 1) as nat, Some(k as nat)),
    decreases n,
{
    if n > 0 {
        let rest = outcomes.drop_first();
        lemma_port_run_steps(rest, (n - 1) as nat);
        assert forall|k: int| 0 <= k < n - 1 implies #[trigger] rest[k] == outcomes[k + 1] by {}
        if forall|k: int| 0 <= k < n ==> !#[trigger] outcomes[k] {
            assert(!outcomes[0]);
            assert forall|k: int| 0 <= k < n - 1 implies !#[trigger] rest[k] by {
                assert(!outcomes[k + 1]);
            }
        }
        assert forall|k: int|
            0 <= k < n && #[trigger] outcomes[k] && (forall|j: int| 0 <= j < k ==> !outcomes[j]) implies port_run(
            outcomes,
            n,
        ) == ((k + 1) as nat, Some(k as nat)) by {
            if k > 0 {
                assert(!outcomes[0]);
                assert(rest[k - 1]);
                assert forall|j: int| 0 <= j < k - 1 implies !rest[j] by {
                    assert(!outcomes[j + 1]);
                }
            }
        }
    }
}

/// The listener is bound to the first port, of at most
/// [`MAX_PORT_ATTEMPTS`] random ones, that binds: with the outcome of each
/// bind in order, the search keeps the `k`-th port when the `k`-th bind is
/// the first to work, having made `k` binds, and gives up with
/// `PortAllocationFailed` only after [`MAX_PORT_ATTEMPTS`] binds failed.
pub proof fn lemma_port_search(outcomes: Seq<bool>)
    requires
        outcomes.len() >= MAX_PORT_ATTEMPTS,
    ensures
        (forall|k: int| 0 <= k < MAX_PORT_ATTEMPTS ==> !#[trigger] outcomes[k]) ==> port_run(
            outcomes,
            MAX_PORT_ATTEMPTS as nat,
        ) == (MAX_PORT_ATTEMPTS as nat, None::<nat>),
        forall|k: int|
            0 <= k < MAX_PORT_ATTEMPTS && #[trigger] outcomes[k] && (forall|j: int|
                0 <= j < k ==> !outcomes[j]) ==> port_run(outcomes, MAX_PORT_ATTEMPTS as nat) == (
                (k + 1) as nat,
                Some(k as nat),
            ),
{
    lemma_port_run_steps(outcomes, MAX_PORT_ATTEMPTS as nat);
}

/// A search is where the bind outcomes recorded so far put it: while none
/// worked it awaits the last port handed out; once one works, that port is
/// kept, the one at the position [`port_run`] gives; and it gives up only
/// when [`MAX_PORT_ATTEMPTS`] binds have failed.
pub proof fn lemma_port_search_progress(search: PortSearch)
    requires
        search.wf(),
    ensures
        search.waiting() is Some ==> port_run(search.outcomes(), MAX_PORT_ATTEMPTS as nat) == (
            search.outcomes().len(),
            None::<nat>,
        ) && search.waiting() == Some(search.tried()[search.outcomes().len() as int]),
        search.done() && search.kept() is None ==> search.outcomes().len() == MAX_PORT_ATTEMPTS
            && forall|k: int| 0 <= k < MAX_PORT_ATTEMPTS ==> !#[trigger] search.outcomes()[k],
        search.done() ==> (search.kept() matches Some(k) ==> k == search.outcomes().len() - 1
            && search.outcomes()[k as int] && forall|j: int| 0 <= j < k ==> !#[trigger] search.outcomes()[j]),
{
    if search.done() {
        lemma_port_run_shape(search.outcomes(), MAX_PORT_ATTEMPTS as nat);
    }
}

} // verus!
