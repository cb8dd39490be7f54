//! Address discovery: when to ask the DNS seeds, and merging what several hosts resolve to.

use vstd::prelude::*;

use crate::storage::PeerAddr;

verus! {

/// Below this many known addresses the DNS seeds are asked again.
pub const MIN_ADDRESSES: usize = 64;

/// Whether the address book needs more addresses: seeds are in use, the book is small and
/// automatic connection slots are free.
pub fn wants_more_addresses(use_dns_seeds: bool, known: usize, automatic: usize, max_outbound: usize) -> (r: bool)
    ensures
        r == (use_dns_seeds && known < MIN_ADDRESSES && automatic < max_outbound),
{
    use_dns_seeds && known < MIN_ADDRESSES && automatic < max_outbound
}

/// Whether to look the DNS seeds up now: seeds are in use, the chain has some, and the last
/// lookup, if any, is at least `retry` old. Times are milliseconds of one monotonic clock.
pub fn seed_lookup_due(use_dns_seeds: bool, seeds: usize, last_lookup: Option<u64>, now: u64, retry: u64) -> (r: bool)
    ensures
        r == (use_dns_seeds && seeds > 0 && match last_lookup {
            None => true,
            Some(at) => (if now >= at { now - at } else { 0 }) >= retry,
        }),
{
    if !use_dns_seeds || seeds == 0 {
        return false;
    }
    match last_lookup {
        None => true,
        Some(at) => now.saturating_sub(at) >= retry,
    }
}

/// The hosts that resolved to more than `k` addresses.
pub open spec fn longer_than(k: int) -> spec_fn(Seq<PeerAddr>) -> bool {
    |l: Seq<PeerAddr>| l.len() > k
}

/// The `k`-th address of each host that has one, in host order.
pub open spec fn round(per_host: Seq<Seq<PeerAddr>>, k: int) -> Seq<PeerAddr> {
    per_host.filter(longer_than(k)).map_values(|l: Seq<PeerAddr>| l[k])
}

/// The first `k` rounds, one after another.
pub open spec fn rounds(per_host: Seq<Seq<PeerAddr>>, k: nat) -> Seq<PeerAddr>
    decreases k,
{
    if k == 0 {
        Seq::empty()
    } else {
        rounds(per_host, (k - 1) as nat) + round(per_host, k - 1)
    }
}

/// Each address once, where it first occurs.
pub open spec fn first_occurrences(s: Seq<PeerAddr>) -> Seq<PeerAddr>
    decreases s.len(),
{
    if s.len() == 0 {
        Seq::empty()
    } else {
        let prior = first_occurrences(s.drop_last());
        if prior.contains(s.last()) {
            prior
        } else {
            prior.push(s.last())
        }
    }
}

/// The longest list's length.
pub open spec fn longest(per_host: Seq<Seq<PeerAddr>>) -> nat
    decreases per_host.len(),
{
    if per_host.len() == 0 {
        0
    } else {
        let rest = longest(per_host.drop_last());
        if per_host.last().len() > rest {
            per_host.last().len()
        } else {
            rest
        }
    }
}

proof fn lemma_longest(per_host: Seq<Seq<PeerAddr>>)
    ensures
        forall|h: int| 0 <= h < per_host.len() ==> (#[trigger] per_host[h]).len() <= longest(per_host),
    decreases per_host.len(),
{
    if per_host.len() > 0 {
        lemma_longest(per_host.drop_last());
        assert forall|h: int| 0 <= h < per_host.len() implies (#[trigger] per_host[h]).len() <= longest(per_host) by {
            if h < per_host.len() - 1 {
                assert(per_host.drop_last()[h] == per_host[h]);
            }
        }
    }
}

fn contains_addr(list: &Vec<PeerAddr>, a: PeerAddr) -> (r: bool)
    ensures
        r == list@.contains(a),
{
    let mut i: usize = 0;
    while i < list.len()
        invariant
            i <= list@.len(),
            forall|j: int| 0 <= j < i ==> list@[j] != a,
        decreases list@.len() - i,
    {
        if list[i] == a {
            assert(list@[i as int] == a);
            return true;
        }
        i = i + 1;
    }
    false
}

/// Merges what several hosts resolved to, interleaving them so that connections spread across
/// sources: the first address of each host in turn, then the second, and so on, each address
/// once.
pub fn interleave(per_host: &Vec<Vec<PeerAddr>>) -> (r: Vec<PeerAddr>)
    ensures
        r@ == first_occurrences(
            rounds(per_host@.map_values(|l: Vec<PeerAddr>| l@), longest(per_host@.map_values(|l: Vec<PeerAddr>| l@))),
        ),
{
    let ghost hosts = per_host@.map_values(|l: Vec<PeerAddr>| l@);
    let mut max: usize = 0;
    let mut h: usize = 0;
    while h < per_host.len()
        invariant
            hosts == per_host@.map_values(|l: Vec<PeerAddr>| l@),
            h <= per_host@.len(),
            max == longest(hosts.take(h as int)),
        decreases per_host@.len() - h,
    {
        proof {
            assert(hosts.take(h + 1).drop_last() =~= hosts.take(h as int));
            assert(hosts.take(h + 1).last() == per_host@[h as int]@);
        }
        if per_host[h].len() > max {
            max = per_host[h].len();
        }
        h = h + 1;
    }
    proof {
        assert(hosts.take(hosts.len() as int) =~= hosts);
        lemma_longest(hosts);
    }
    let mut result: Vec<PeerAddr> = Vec::new();
    let mut k: usize = 0;
    while k < max
        invariant
            hosts == per_host@.map_values(|l: Vec<PeerAddr>| l@),
            max == longest(hosts),
            k <= max,
            result@ == first_occurrences(rounds(hosts, k as nat)),
        decreases max - k,
    {
        let ghost base = rounds(hosts, k as nat);
        let mut h: usize = 0;
        while h < per_host.len()
            invariant
                hosts == per_host@.map_values(|l: Vec<PeerAddr>| l@),
                k < max,
                max == longest(hosts),
                base == rounds(hosts, k as nat),
                h <= per_host@.len(),
                result@ == first_occurrences(base + round(hosts.take(h as int), k as int)),
            decreases per_host@.len() - h,
        {
            let ghost before = base + round(hosts.take(h as int), k as int);
            proof {
                reveal(Seq::filter);
                let t = hosts.take(h + 1);
                assert(t.drop_last() =~= hosts.take(h as int));
                assert(t.last() == hosts[h as int]);
                assert(hosts[h as int] == per_host@[h as int]@);
            }
            if k < per_host[h].len() {
                let a = per_host[h][k];
                proof {
                    let t = hosts.take(h + 1);
                    let ft = hosts.take(h as int).filter(longer_than(k as int));
                    assert(round(t, k as int) =~= round(hosts.take(h as int), k as int).push(a)) by {
                        assert(t.filter(longer_than(k as int)) == ft.push(hosts[h as int]));
                        assert(ft.push(hosts[h as int]).map_values(|l: Seq<PeerAddr>| l[k as int]) =~= ft.map_values(
                            |l: Seq<PeerAddr>| l[k as int],
                        ).push(a));
                    }
                    assert((before.push(a)).drop_last() =~= before);
                    assert(base + round(t, k as int) =~= before.push(a));
                }
                if !contains_addr(&result, a) {
                    result.push(a);
                }
            } else {
                proof {
                    let t = hosts.take(h + 1);
                    assert(round(t, k as int) =~= round(hosts.take(h as int), k as int));
                }
            }
            h = h + 1;
        }
        proof {
            assert(hosts.take(hosts.len() as int) =~= hosts);
            assert(rounds(hosts, (k + 1) as nat) == base + round(hosts, k as int));
        }
        k = k + 1;
    }
    result
}

} // verus!
