//! Deduplication of the remote addresses seen on sockets.

use vstd::prelude::*;

use crate::addr::{
    ip_to_discovered, should_skip, spec_ip_to_discovered, spec_should_skip, DiscoveredAddress,
    IpAddress, Ipv4Address, Ipv6Address,
};

verus! {

/// What one address contributed: the subnet, if it is newly seen, and the
/// address itself, if this exact address is newly seen.
#[derive(Clone, Copy, Debug)]
pub struct AddResult {
    pub discovered: Option<DiscoveredAddress>,
    pub raw_ipv4: Option<Ipv4Address>,
    pub raw_ipv6: Option<Ipv6Address>,
}

/// The subnets and exact addresses seen so far.
pub struct Aggregator {
    seen: Vec<DiscoveredAddress>,
    seen_raw: Vec<IpAddress>,
}

/// The exact address as the raw IPv4 report, if it is an IPv4 address.
pub open spec fn raw_v4_of(addr: IpAddress) -> Option<Ipv4Address> {
    match addr {
        IpAddress::V4(a) => Some(a),
        IpAddress::V6(_) => None,
    }
}

/// The exact address as the raw IPv6 report, if it is an IPv6 address.
pub open spec fn raw_v6_of(addr: IpAddress) -> Option<Ipv6Address> {
    match addr {
        IpAddress::V4(_) => None,
        IpAddress::V6(a) => Some(a),
    }
}

impl Aggregator {
    /// The subnets seen so far.
    pub closed spec fn seen_subnets(&self) -> Set<DiscoveredAddress> {
        self.seen@.to_set()
    }

    /// The exact addresses seen so far.
    pub closed spec fn seen_addresses(&self) -> Set<IpAddress> {
        self.seen_raw@.to_set()
    }

    pub fn new() -> (r: Self)
        ensures
            r.seen_subnets() == Set::<DiscoveredAddress>::empty(),
            r.seen_addresses() == Set::<IpAddress>::empty(),
    {
        let r = Aggregator { seen: Vec::new(), seen_raw: Vec::new() };
        assert(r.seen@.to_set() =~= Set::<DiscoveredAddress>::empty());
        assert(r.seen_raw@.to_set() =~= Set::<IpAddress>::empty());
        r
    }

    /// Records one remote address (see `add_step`): loopback, unspecified
    /// and link-local addresses are skipped and change nothing; any other
    /// address reports its subnet exactly when the subnet was not seen
    /// before, and itself exactly when it was not seen before.
    pub fn add(&mut self, addr: IpAddress) -> (r: AddResult)
        ensures
            (r, final(self).seen_subnets(), final(self).seen_addresses()) == add_step(
                old(self).seen_subnets(),
                old(self).seen_addresses(),
                addr,
            ),
    {
        if should_skip(&addr) {
            return AddResult { discovered: None, raw_ipv4: None, raw_ipv6: None };
        }
        let d = ip_to_discovered(addr);
        let ghost old_seen = self.seen@;
        let ghost old_raw = self.seen_raw@;
        let mut known = false;
        for i in 0..self.seen.len()
            invariant
                self.seen@ == old_seen,
                known == (exists|j: int| 0 <= j < i && old_seen[j] == d),
        {
            if self.seen[i] == d {
                known = true;
            }
        }
        let mut known_raw = false;
        for i in 0..self.seen_raw.len()
            invariant
                self.seen_raw@ == old_raw,
                known_raw == (exists|j: int| 0 <= j < i && old_raw[j] == addr),
        {
            if self.seen_raw[i] == addr {
                known_raw = true;
            }
        }
        assert(known == old_seen.contains(d));
        assert(known_raw == old_raw.contains(addr));
        if !known {
            self.seen.push(d);
        }
        if !known_raw {
            self.seen_raw.push(addr);
        }
        proof {
            if known {
                assert(old_seen.to_set().contains(d));
                assert(self.seen@.to_set() =~= old_seen.to_set().insert(d));
            } else {
                assert(self.seen@.to_set() =~= old_seen.to_set().insert(d)) by {
                    assert(self.seen@ == old_seen.push(d));
                    assert forall|x| self.seen@.to_set().contains(x) <==> old_seen.to_set().insert(d).contains(x) by {
                        if x == d {
                            assert(self.seen@[old_seen.len() as int] == d);
                        } else if old_seen.contains(x) {
                            let j = choose|j: int| 0 <= j < old_seen.len() && old_seen[j] == x;
                            assert(self.seen@[j] == x);
                        }
                    }
                }
            }
            if known_raw {
                assert(old_raw.to_set().contains(addr));
                assert(self.seen_raw@.to_set() =~= old_raw.to_set().insert(addr));
            } else {
                assert(self.seen_raw@.to_set() =~= old_raw.to_set().insert(addr)) by {
                    assert(self.seen_raw@ == old_raw.push(addr));
                    assert forall|x| self.seen_raw@.to_set().contains(x) <==> old_raw.to_set().insert(addr).contains(x) by {
                        if x == addr {
                            assert(self.seen_raw@[old_raw.len() as int] == addr);
                        } else if old_raw.contains(x) {
                            let j = choose|j: int| 0 <= j < old_raw.len() && old_raw[j] == x;
                            assert(self.seen_raw@[j] == x);
                        }
                    }
                }
            }
        }
        let (raw_ipv4, raw_ipv6) = if known_raw {
            (None, None)
        } else {
            match addr {
                IpAddress::V4(a) => (Some(a), None),
                IpAddress::V6(a) => (None, Some(a)),
            }
        };
        AddResult { discovered: if known { None } else { Some(d) }, raw_ipv4, raw_ipv6 }
    }
}

/// One step of the aggregation: from the subnets and addresses seen so far
/// and one more address, what is reported and what is seen afterwards.
pub open spec fn add_step(
    subnets: Set<DiscoveredAddress>,
    addrs: Set<IpAddress>,
    addr: IpAddress,
) -> (AddResult, Set<DiscoveredAddress>, Set<IpAddress>) {
    if spec_should_skip(addr) {
        (AddResult { discovered: None, raw_ipv4: None, raw_ipv6: None }, subnets, addrs)
    } else {
        let d = spec_ip_to_discovered(addr);
        let new_raw = !addrs.contains(addr);
        (
            AddResult {
                discovered: if subnets.contains(d) {
                    None
                } else {
                    Some(d)
                },
                raw_ipv4: if new_raw {
                    raw_v4_of(addr)
                } else {
                    None
                },
                raw_ipv6: if new_raw {
                    raw_v6_of(addr)
                } else {
                    None
                },
            },
            subnets.insert(d),
            addrs.insert(addr),
        )
    }
}

/// Adding the same address twice reports nothing the second time and
/// changes nothing: every subnet and every address is reported at most once.
pub proof fn law_second_add_reports_nothing(
    subnets: Set<DiscoveredAddress>,
    addrs: Set<IpAddress>,
    addr: IpAddress,
)
    ensures
        ({
            let first = add_step(subnets, addrs, addr);
            let second = add_step(first.1, first.2, addr);
            &&& second.0.discovered is None
            &&& second.0.raw_ipv4 is None
            &&& second.0.raw_ipv6 is None
            &&& second.1 == first.1
            &&& second.2 == first.2
        }),
{
    let first = add_step(subnets, addrs, addr);
    if !spec_should_skip(addr) {
        assert(first.1.insert(spec_ip_to_discovered(addr)) =~= first.1);
        assert(first.2.insert(addr) =~= first.2);
    }
}

/// Two addresses of the same subnet report that subnet once: after the
/// first, the second reports no subnet.
pub proof fn law_one_report_per_subnet(
    subnets: Set<DiscoveredAddress>,
    addrs: Set<IpAddress>,
    x: IpAddress,
    y: IpAddress,
)
    requires
        !spec_should_skip(x),
        spec_ip_to_discovered(x) == spec_ip_to_discovered(y),
    ensures
        ({
            let first = add_step(subnets, addrs, x);
            add_step(first.1, first.2, y).0.discovered is None
        }),
{
}

/// Whatever was seen stays seen: no step forgets a subnet or an address.
pub proof fn law_seen_only_grows(
    subnets: Set<DiscoveredAddress>,
    addrs: Set<IpAddress>,
    addr: IpAddress,
)
    ensures
        subnets.subset_of(add_step(subnets, addrs, addr).1),
        addrs.subset_of(add_step(subnets, addrs, addr).2),
{
}

} // verus!
