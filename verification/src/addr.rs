//! IP addresses, the subnets they are aggregated into, and their text forms.

use vstd::prelude::*;

use crate::text::{decimal, hex, push_char, push_decimal, push_hex};

verus! {

/// An IPv4 address, by its four octets.
#[derive(Clone, Copy, Debug, PartialEq, Eq, Hash, Structural)]
pub struct Ipv4Address {
    pub o0: u8,
    pub o1: u8,
    pub o2: u8,
    pub o3: u8,
}

/// An IPv6 address, by its eight 16-bit segments.
#[derive(Clone, Copy, Debug, PartialEq, Eq, Hash, Structural)]
pub struct Ipv6Address {
    pub s0: u16,
    pub s1: u16,
    pub s2: u16,
    pub s3: u16,
    pub s4: u16,
    pub s5: u16,
    pub s6: u16,
    pub s7: u16,
}

/// A remote address of a socket.
#[derive(Clone, Copy, Debug, PartialEq, Eq, Hash, Structural)]
pub enum IpAddress {
    V4(Ipv4Address),
    V6(Ipv6Address),
}

/// A discovered network: an IPv4 `/24` subnet or an IPv6 `/64` subnet, each
/// held as its network address.
#[derive(Clone, Copy, Debug, PartialEq, Eq, Hash, Structural)]
pub enum DiscoveredAddress {
    Ipv4Subnet(Ipv4Address),
    Ipv6Subnet64(Ipv6Address),
}

impl Ipv4Address {
    pub fn new(o0: u8, o1: u8, o2: u8, o3: u8) -> (r: Self)
        ensures
            r == (Ipv4Address { o0, o1, o2, o3 }),
    {
        Ipv4Address { o0, o1, o2, o3 }
    }

    /// Whether this is a loopback address (127.0.0.0/8).
    pub open spec fn spec_is_loopback(self) -> bool {
        self.o0 == 127
    }

    /// Whether this is the unspecified address 0.0.0.0.
    pub open spec fn spec_is_unspecified(self) -> bool {
        self.o0 == 0 && self.o1 == 0 && self.o2 == 0 && self.o3 == 0
    }

    /// Whether this is a link-local address (169.254.0.0/16).
    pub open spec fn spec_is_link_local(self) -> bool {
        self.o0 == 169 && self.o1 == 254
    }

    /// Dotted-decimal notation, `a.b.c.d`.
    pub open spec fn text(self) -> Seq<char> {
        decimal(self.o0 as nat) + seq!['.'] + decimal(self.o1 as nat) + seq!['.'] + decimal(
            self.o2 as nat,
        ) + seq!['.'] + decimal(self.o3 as nat)
    }

    /// Appends the dotted-decimal notation.
    pub fn push_text(&self, s: &mut String)
        ensures
            final(s)@ == old(s)@ + self.text(),
    {
        let ghost start = s@;
        push_decimal(s, self.o0 as u64);
        push_char(s, '.');
        push_decimal(s, self.o1 as u64);
        push_char(s, '.');
        push_decimal(s, self.o2 as u64);
        push_char(s, '.');
        push_decimal(s, self.o3 as u64);
        assert(s@ =~= start + self.text());
    }

    /// Dotted-decimal notation, `a.b.c.d`.
    pub fn to_string(&self) -> (s: String)
        ensures
            s@ == self.text(),
    {
        let mut s = String::new();
        self.push_text(&mut s);
        assert(s@ =~= self.text());
        s
    }
}

/// The number of consecutive zero segments starting at index `i`.
pub open spec fn zeros_from(segs: Seq<u16>, i: int) -> nat
    decreases segs.len() - i,
{
    if i < 0 || i >= segs.len() || segs[i] != 0 {
        0
    } else {
        1 + zeros_from(segs, i + 1)
    }
}

/// The leftmost longest run of zero segments that starts below index `n`,
/// as (start, length).
pub open spec fn longest_zeros(segs: Seq<u16>, n: int) -> (int, nat)
    decreases n,
{
    if n <= 0 {
        (0, 0)
    } else {
        let best = longest_zeros(segs, n - 1);
        if zeros_from(segs, n - 1) > best.1 {
            (n - 1, zeros_from(segs, n - 1))
        } else {
            best
        }
    }
}

/// Segments in lowercase hexadecimal, separated by ':'.
pub open spec fn hex_groups(segs: Seq<u16>) -> Seq<char>
    decreases segs.len(),
{
    if segs.len() == 0 {
        Seq::empty()
    } else if segs.len() == 1 {
        hex(segs[0] as nat)
    } else {
        hex_groups(segs.drop_last()) + seq![':'] + hex(segs.last() as nat)
    }
}

impl Ipv6Address {
    pub fn new(s0: u16, s1: u16, s2: u16, s3: u16, s4: u16, s5: u16, s6: u16, s7: u16) -> (r: Self)
        ensures
            r == (Ipv6Address { s0, s1, s2, s3, s4, s5, s6, s7 }),
    {
        Ipv6Address { s0, s1, s2, s3, s4, s5, s6, s7 }
    }

    /// The eight segments, in order.
    pub open spec fn segs(self) -> Seq<u16> {
        seq![self.s0, self.s1, self.s2, self.s3, self.s4, self.s5, self.s6, self.s7]
    }

    /// Whether this is the loopback address ::1.
    pub open spec fn spec_is_loopback(self) -> bool {
        self == Ipv6Address::spec_new(0, 0, 0, 0, 0, 0, 0, 1)
    }

    /// Whether this is the unspecified address ::.
    pub open spec fn spec_is_unspecified(self) -> bool {
        self == Ipv6Address::spec_new(0, 0, 0, 0, 0, 0, 0, 0)
    }

    /// Whether this is a link-local unicast address (fe80::/10).
    pub open spec fn spec_is_link_local(self) -> bool {
        (self.s0 & 0xffc0) == 0xfe80
    }

    pub open spec fn spec_new(s0: u16, s1: u16, s2: u16, s3: u16, s4: u16, s5: u16, s6: u16, s7: u16) -> Self {
        Ipv6Address { s0, s1, s2, s3, s4, s5, s6, s7 }
    }

    /// Whether this is an IPv4-mapped address (::ffff:a.b.c.d).
    pub open spec fn spec_is_ipv4_mapped(self) -> bool {
        self.s0 == 0 && self.s1 == 0 && self.s2 == 0 && self.s3 == 0 && self.s4 == 0 && self.s5
            == 0xffff
    }

    /// The IPv4 address that an IPv4-mapped address carries in its last 32 bits.
    pub open spec fn mapped_ipv4(self) -> Ipv4Address {
        Ipv4Address {
            o0: (self.s6 / 256) as u8,
            o1: (self.s6 % 256) as u8,
            o2: (self.s7 / 256) as u8,
            o3: (self.s7 % 256) as u8,
        }
    }

    /// The canonical text form (RFC 5952): IPv4-mapped addresses as
    /// `::ffff:a.b.c.d`; otherwise lowercase hexadecimal segments separated by
    /// ':', with the leftmost longest run of two or more zero segments
    /// written as "::".
    pub open spec fn text(self) -> Seq<char> {
        let segs = self.segs();
        if self.spec_is_ipv4_mapped() {
            seq![':', ':', 'f', 'f', 'f', 'f', ':'] + self.mapped_ipv4().text()
        } else {
            let run = longest_zeros(segs, 8);
            if run.1 > 1 {
                hex_groups(segs.subrange(0, run.0)) + seq![':', ':'] + hex_groups(
                    segs.subrange(run.0 + run.1, 8),
                )
            } else {
                hex_groups(segs)
            }
        }
    }

    /// The eight segments, in order.
    pub fn segments(&self) -> (v: Vec<u16>)
        ensures
            v@ == self.segs(),
    {
        let v = vec![self.s0, self.s1, self.s2, self.s3, self.s4, self.s5, self.s6, self.s7];
        assert(v@ =~= self.segs());
        v
    }

    /// Appends the canonical text form.
    pub fn push_text(&self, s: &mut String)
        ensures
            final(s)@ == old(s)@ + self.text(),
    {
        let ghost start = s@;
        if self.s0 == 0 && self.s1 == 0 && self.s2 == 0 && self.s3 == 0 && self.s4 == 0
            && self.s5 == 0xffff {
            push_char(s, ':');
            push_char(s, ':');
            push_char(s, 'f');
            push_char(s, 'f');
            push_char(s, 'f');
            push_char(s, 'f');
            push_char(s, ':');
            let v4 = Ipv4Address::new(
                (self.s6 / 256) as u8,
                (self.s6 % 256) as u8,
                (self.s7 / 256) as u8,
                (self.s7 % 256) as u8,
            );
            assert(v4 == self.mapped_ipv4());
            v4.push_text(s);
            assert(s@ =~= start + self.text());
            return ;
        }
        let segs = self.segments();
        let (run_start, run_len) = longest_zero_run(&segs);
        if run_len > 1 {
            push_hex_groups(s, &segs, 0, run_start);
            push_char(s, ':');
            push_char(s, ':');
            push_hex_groups(s, &segs, run_start + run_len, 8);
            assert(s@ =~= start + self.text());
        } else {
            push_hex_groups(s, &segs, 0, 8);
            assert(segs@.subrange(0, 8) =~= segs@);
            assert(s@ =~= start + self.text());
        }
    }

    /// The canonical text form.
    pub fn to_string(&self) -> (s: String)
        ensures
            s@ == self.text(),
    {
        let mut s = String::new();
        self.push_text(&mut s);
        assert(s@ =~= self.text());
        s
    }
}

/// The number of consecutive zero segments starting at index `i`.
fn zeros_from_exec(segs: &Vec<u16>, i: usize) -> (n: usize)
    requires
        i <= segs.len(),
    ensures
        n == zeros_from(segs@, i as int),
        i + n <= segs.len(),
{
    let mut j = i;
    while j < segs.len() && segs[j] == 0
        invariant
            i <= j <= segs.len(),
            zeros_from(segs@, i as int) == (j - i) + zeros_from(segs@, j as int),
        decreases segs.len() - j,
    {
        j = j + 1;
    }
    j - i
}

/// The leftmost longest run of zero segments, as (start, length).
fn longest_zero_run(segs: &Vec<u16>) -> (r: (usize, usize))
    ensures
        r.0 as int == longest_zeros(segs@, segs.len() as int).0,
        r.1 as nat == longest_zeros(segs@, segs.len() as int).1,
        r.0 + r.1 <= segs.len(),
{
    let mut best_start: usize = 0;
    let mut best_len: usize = 0;
    let mut i: usize = 0;
    while i < segs.len()
        invariant
            i <= segs.len(),
            best_start as int == longest_zeros(segs@, i as int).0,
            best_len as nat == longest_zeros(segs@, i as int).1,
            best_start + best_len <= segs.len(),
        decreases segs.len() - i,
    {
        let n = zeros_from_exec(segs, i);
        if n > best_len {
            best_start = i;
            best_len = n;
        }
        i = i + 1;
    }
    (best_start, best_len)
}

/// Appends the segments `segs[lo..hi]` in hexadecimal, separated by ':'.
fn push_hex_groups(s: &mut String, segs: &Vec<u16>, lo: usize, hi: usize)
    requires
        lo <= hi <= segs.len(),
    ensures
        final(s)@ == old(s)@ + hex_groups(segs@.subrange(lo as int, hi as int)),
{
    let ghost start = s@;
    let mut k = lo;
    assert(segs@.subrange(lo as int, lo as int) =~= Seq::<u16>::empty());
    while k < hi
        invariant
            lo <= k <= hi <= segs.len(),
            s@ == start + hex_groups(segs@.subrange(lo as int, k as int)),
        decreases hi - k,
    {
        let ghost before = segs@.subrange(lo as int, k as int);
        let ghost after = segs@.subrange(lo as int, k + 1);
        assert(after.drop_last() =~= before);
        if k > lo {
            push_char(s, ':');
        } else {
            assert(after =~= seq![segs@[k as int]]);
        }
        push_hex(s, segs[k] as u64);
        assert(s@ =~= start + hex_groups(after));
        k = k + 1;
    }
}

impl DiscoveredAddress {
    /// The `/24` subnet of an IPv4 address: the last octet set to zero.
    pub open spec fn spec_from_ipv4(addr: Ipv4Address) -> Self {
        DiscoveredAddress::Ipv4Subnet(Ipv4Address { o3: 0, ..addr })
    }

    /// The `/64` subnet of an IPv6 address: the last four segments set to zero.
    pub open spec fn spec_from_ipv6(addr: Ipv6Address) -> Self {
        DiscoveredAddress::Ipv6Subnet64(Ipv6Address { s4: 0, s5: 0, s6: 0, s7: 0, ..addr })
    }

    pub fn from_ipv4(addr: Ipv4Address) -> (r: Self)
        ensures
            r == Self::spec_from_ipv4(addr),
    {
        DiscoveredAddress::Ipv4Subnet(Ipv4Address::new(addr.o0, addr.o1, addr.o2, 0))
    }

    pub fn from_ipv6(addr: Ipv6Address) -> (r: Self)
        ensures
            r == Self::spec_from_ipv6(addr),
    {
        DiscoveredAddress::Ipv6Subnet64(
            Ipv6Address::new(addr.s0, addr.s1, addr.s2, addr.s3, 0, 0, 0, 0),
        )
    }

    /// The subnet's text form: `a.b.c.0/24` for IPv4, the canonical IPv6
    /// network address followed by `/64` for IPv6.
    pub open spec fn text(self) -> Seq<char> {
        match self {
            DiscoveredAddress::Ipv4Subnet(a) => decimal(a.o0 as nat) + seq!['.'] + decimal(
                a.o1 as nat,
            ) + seq!['.'] + decimal(a.o2 as nat) + seq!['.', '0', '/', '2', '4'],
            DiscoveredAddress::Ipv6Subnet64(a) => a.text() + seq!['/', '6', '4'],
        }
    }

    /// The subnet's text form.
    pub fn to_string(&self) -> (s: String)
        ensures
            s@ == self.text(),
    {
        let mut s = String::new();
        match self {
            DiscoveredAddress::Ipv4Subnet(a) => {
                push_decimal(&mut s, a.o0 as u64);
                push_char(&mut s, '.');
                push_decimal(&mut s, a.o1 as u64);
                push_char(&mut s, '.');
                push_decimal(&mut s, a.o2 as u64);
                push_char(&mut s, '.');
                push_char(&mut s, '0');
                push_char(&mut s, '/');
                push_char(&mut s, '2');
                push_char(&mut s, '4');
            },
            DiscoveredAddress::Ipv6Subnet64(a) => {
                a.push_text(&mut s);
                push_char(&mut s, '/');
                push_char(&mut s, '6');
                push_char(&mut s, '4');
            },
        }
        assert(s@ =~= self.text());
        s
    }
}

/// Whether an address is left out of the results: loopback, unspecified,
/// or link-local (169.254.0.0/16, fe80::/10).
pub open spec fn spec_should_skip(addr: IpAddress) -> bool {
    match addr {
        IpAddress::V4(a) => a.spec_is_loopback() || a.spec_is_unspecified() || a.spec_is_link_local(),
        IpAddress::V6(a) => a.spec_is_loopback() || a.spec_is_unspecified() || a.spec_is_link_local(),
    }
}

/// Whether an address is left out of the results.
pub fn should_skip(addr: &IpAddress) -> (r: bool)
    ensures
        r == spec_should_skip(*addr),
{
    match addr {
        IpAddress::V4(a) => {
            a.o0 == 127 || (a.o0 == 0 && a.o1 == 0 && a.o2 == 0 && a.o3 == 0) || (a.o0 == 169
                && a.o1 == 254)
        },
        IpAddress::V6(a) => {
            let zero_head = a.s0 == 0 && a.s1 == 0 && a.s2 == 0 && a.s3 == 0 && a.s4 == 0 && a.s5
                == 0 && a.s6 == 0;
            (zero_head && a.s7 == 1) || (zero_head && a.s7 == 0) || (a.s0 & 0xffc0) == 0xfe80
        },
    }
}

/// The subnet an address belongs to.
pub open spec fn spec_ip_to_discovered(addr: IpAddress) -> DiscoveredAddress {
    match addr {
        IpAddress::V4(a) => DiscoveredAddress::spec_from_ipv4(a),
        IpAddress::V6(a) => DiscoveredAddress::spec_from_ipv6(a),
    }
}

/// The subnet an address belongs to.
pub fn ip_to_discovered(addr: IpAddress) -> (r: DiscoveredAddress)
    ensures
        r == spec_ip_to_discovered(addr),
{
    match addr {
        IpAddress::V4(a) => DiscoveredAddress::from_ipv4(a),
        IpAddress::V6(a) => DiscoveredAddress::from_ipv6(a),
    }
}

/// The 16-bit segment made of two bytes, the first the high one.
pub open spec fn be_segment(hi: u8, lo: u8) -> u16 {
    (hi as int * 256 + lo as int) as u16
}

/// The remote address a socket's internet info gives: its IPv4 address
/// when the IPv4 flag (bit 0) of `vflag` is set, else its IPv6 address (the
/// sixteen bytes in network order) when the IPv6 flag (bit 1) is set;
/// `None` when neither flag is set or the address is unspecified.
pub open spec fn spec_extract_remote_addr(vflag: u8, addr4: [u8; 4], addr6: [u8; 16]) -> Option<IpAddress> {
    if vflag & 1 != 0 {
        let a = Ipv4Address { o0: addr4@[0], o1: addr4@[1], o2: addr4@[2], o3: addr4@[3] };
        if a.spec_is_unspecified() { None } else { Some(IpAddress::V4(a)) }
    } else if vflag & 2 != 0 {
        let b = addr6@;
        let a = Ipv6Address {
            s0: be_segment(b[0], b[1]),
            s1: be_segment(b[2], b[3]),
            s2: be_segment(b[4], b[5]),
            s3: be_segment(b[6], b[7]),
            s4: be_segment(b[8], b[9]),
            s5: be_segment(b[10], b[11]),
            s6: be_segment(b[12], b[13]),
            s7: be_segment(b[14], b[15]),
        };
        if a.spec_is_unspecified() { None } else { Some(IpAddress::V6(a)) }
    } else {
        None
    }
}

fn segment_of(hi: u8, lo: u8) -> (r: u16)
    ensures
        r == be_segment(hi, lo),
{
    (hi as u16) * 256 + (lo as u16)
}

/// The remote address of a socket, from the flags and address bytes of its
/// internet info.
pub fn extract_remote_addr(vflag: u8, addr4: [u8; 4], addr6: [u8; 16]) -> (r: Option<IpAddress>)
    ensures
        r == spec_extract_remote_addr(vflag, addr4, addr6),
{
    if vflag & 1 != 0 {
        let a = Ipv4Address::new(addr4[0], addr4[1], addr4[2], addr4[3]);
        if a.o0 == 0 && a.o1 == 0 && a.o2 == 0 && a.o3 == 0 {
            None
        } else {
            Some(IpAddress::V4(a))
        }
    } else if vflag & 2 != 0 {
        let a = Ipv6Address::new(
            segment_of(addr6[0], addr6[1]),
            segment_of(addr6[2], addr6[3]),
            segment_of(addr6[4], addr6[5]),
            segment_of(addr6[6], addr6[7]),
            segment_of(addr6[8], addr6[9]),
            segment_of(addr6[10], addr6[11]),
            segment_of(addr6[12], addr6[13]),
            segment_of(addr6[14], addr6[15]),
        );
        if a.s0 == 0 && a.s1 == 0 && a.s2 == 0 && a.s3 == 0 && a.s4 == 0 && a.s5 == 0 && a.s6 == 0
            && a.s7 == 0 {
            None
        } else {
            Some(IpAddress::V6(a))
        }
    } else {
        None
    }
}

} // verus!

verus! {

/// Two IPv4 addresses fall in the same `/24` subnet exactly when their first
/// three octets agree; masking a subnet address again changes nothing.
pub proof fn law_ipv4_subnet(a: Ipv4Address, b: Ipv4Address)
    ensures
        (DiscoveredAddress::spec_from_ipv4(a) == DiscoveredAddress::spec_from_ipv4(b)) <==> (a.o0
            == b.o0 && a.o1 == b.o1 && a.o2 == b.o2),
        DiscoveredAddress::spec_from_ipv4(Ipv4Address { o3: 0, ..a })
            == DiscoveredAddress::spec_from_ipv4(a),
{
}

/// Two IPv6 addresses fall in the same `/64` subnet exactly when their first
/// four segments agree; masking a subnet address again changes nothing.
pub proof fn law_ipv6_subnet(a: Ipv6Address, b: Ipv6Address)
    ensures
        (DiscoveredAddress::spec_from_ipv6(a) == DiscoveredAddress::spec_from_ipv6(b)) <==> (a.s0
            == b.s0 && a.s1 == b.s1 && a.s2 == b.s2 && a.s3 == b.s3),
        DiscoveredAddress::spec_from_ipv6(Ipv6Address { s4: 0, s5: 0, s6: 0, s7: 0, ..a })
            == DiscoveredAddress::spec_from_ipv6(a),
{
}

} // verus!
