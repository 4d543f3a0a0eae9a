//! IP addresses as the lookup reads them: their octets.
use vstd::prelude::*;

verus! {

/// An IPv4 address, held as its four octets.
#[derive(Clone, Copy, Debug)]
pub struct Ipv4Addr {
    octets: [u8; 4],
}

/// An IPv6 address, held as its sixteen octets.
#[derive(Clone, Copy, Debug)]
pub struct Ipv6Addr {
    octets: [u8; 16],
}

/// An IPv4 or an IPv6 address.
#[derive(Clone, Copy, Debug)]
pub enum IpAddr {
    V4(Ipv4Addr),
    V6(Ipv6Addr),
}

impl View for Ipv4Addr {
    type V = Seq<u8>;

    closed spec fn view(&self) -> Seq<u8> {
        self.octets@
    }
}

impl View for Ipv6Addr {
    type V = Seq<u8>;

    closed spec fn view(&self) -> Seq<u8> {
        self.octets@
    }
}

/// The IPv4-mapped IPv6 octets `::ffff:a.b.c.d` of the IPv4 octets `v4`.
pub open spec fn mapped_octets(v4: Seq<u8>) -> Seq<u8> {
    seq![0u8, 0, 0, 0, 0, 0, 0, 0, 0, 0, 0xff, 0xff] + v4
}

/// The sixteen octets of an IPv6 address given as eight big-endian 16-bit segments.
pub open spec fn segment_octets(seg: Seq<u16>) -> Seq<u8> {
    Seq::new(16, |i: int| if i % 2 == 0 { (seg[i / 2] >> 8u16) as u8 } else { seg[i / 2] as u8 })
}

/// The IPv6 octets a lookup uses for an address: IPv4 addresses are mapped to `::ffff:a.b.c.d`.
pub open spec fn lookup_octets(addr: IpAddr) -> Seq<u8> {
    match addr {
        IpAddr::V4(v4) => mapped_octets(v4@),
        IpAddr::V6(v6) => v6@,
    }
}

impl Ipv4Addr {
    /// The address `a.b.c.d`.
    pub fn new(a: u8, b: u8, c: u8, d: u8) -> (r: Ipv4Addr)
        ensures
            r@ == seq![a, b, c, d],
    {
        let r = Ipv4Addr { octets: [a, b, c, d] };
        assert(r@ =~= seq![a, b, c, d]);
        r
    }

    /// The four octets of the address.
    pub fn octets(&self) -> (r: [u8; 4])
        ensures
            r@ == self@,
    {
        self.octets
    }

    /// The IPv4-mapped IPv6 address `::ffff:a.b.c.d`.
    pub fn to_ipv6_mapped(&self) -> (r: Ipv6Addr)
        ensures
            r@ == mapped_octets(self@),
            r@ == seq![0u8, 0, 0, 0, 0, 0, 0, 0, 0, 0, 0xff, 0xff, self@[0], self@[1], self@[2], self@[3]],
    {
        let a = self.octets[0];
        let b = self.octets[1];
        let c = self.octets[2];
        let d = self.octets[3];
        let r = Ipv6Addr { octets: [0, 0, 0, 0, 0, 0, 0, 0, 0, 0, 0xff, 0xff, a, b, c, d] };
        assert(r@ =~= mapped_octets(self@));
        r
    }
}

impl Ipv6Addr {
    /// The address with the eight 16-bit segments `a:b:c:d:e:f:g:h`.
    pub fn new(a: u16, b: u16, c: u16, d: u16, e: u16, f: u16, g: u16, h: u16) -> (r: Ipv6Addr)
        ensures
            r@ == segment_octets(seq![a, b, c, d, e, f, g, h]),
            r@.len() == 16,
            forall|k: int|
                0 <= k < 8 ==> #[trigger] r@[2 * k] as int * 256 + r@[2 * k + 1] as int == seq![
                    a,
                    b,
                    c,
                    d,
                    e,
                    f,
                    g,
                    h,
                ][k] as int,
    {
        proof {
            lemma_segment_octets(seq![a, b, c, d, e, f, g, h]);
        }
        let r = Ipv6Addr {
            octets: [
                (a >> 8u16) as u8,
                a as u8,
                (b >> 8u16) as u8,
                b as u8,
                (c >> 8u16) as u8,
                c as u8,
                (d >> 8u16) as u8,
                d as u8,
                (e >> 8u16) as u8,
                e as u8,
                (f >> 8u16) as u8,
                f as u8,
                (g >> 8u16) as u8,
                g as u8,
                (h >> 8u16) as u8,
                h as u8,
            ],
        };
        assert(r@ =~= segment_octets(seq![a, b, c, d, e, f, g, h]));
        r
    }

    /// The address with the given sixteen octets.
    pub fn from_octets(octets: [u8; 16]) -> (r: Ipv6Addr)
        ensures
            r@ == octets@,
    {
        Ipv6Addr { octets }
    }

    /// The sixteen octets of the address.
    pub fn octets(&self) -> (r: [u8; 16])
        ensures
            r@ == self@,
    {
        self.octets
    }
}

} // verus!

verus! {

/// The IPv4-mapped octets of four octets are ten zero octets, two 0xff octets, then the
/// four octets in order.
pub proof fn lemma_mapped_octets(v4: Seq<u8>)
    requires
        v4.len() == 4,
    ensures
        mapped_octets(v4).len() == 16,
        forall|i: int| 0 <= i < 10 ==> #[trigger] mapped_octets(v4)[i] == 0u8,
        mapped_octets(v4)[10] == 0xffu8,
        mapped_octets(v4)[11] == 0xffu8,
        forall|i: int| 0 <= i < 4 ==> #[trigger] mapped_octets(v4)[12 + i] == v4[i],
{
}

/// A lookup uses, for an IPv4 address, the octets `::ffff:a.b.c.d` (ten zero octets, two
/// 0xff octets, then its own four octets in order), and for an IPv6 address its own
/// sixteen octets.
pub proof fn lemma_lookup_octets(addr: IpAddr)
    ensures
        lookup_octets(addr).len() == 16,
        match addr {
            IpAddr::V4(v4) => {
                &&& forall|i: int| 0 <= i < 10 ==> #[trigger] lookup_octets(addr)[i] == 0u8
                &&& lookup_octets(addr)[10] == 0xffu8
                &&& lookup_octets(addr)[11] == 0xffu8
                &&& forall|i: int| 0 <= i < 4 ==> #[trigger] lookup_octets(addr)[12 + i] == v4@[i]
                &&& lookup_octets(addr) == mapped_octets(v4@)
            },
            IpAddr::V6(v6) => lookup_octets(addr) == v6@,
        },
{
    match addr {
        IpAddr::V4(v4) => {
            lemma_mapped_octets(v4@);
        },
        IpAddr::V6(v6) => {},
    }
}

proof fn lemma_u16_bytes(x: u16)
    ensures
        ((x >> 8u16) as u8) as int * 256 + (x as u8) as int == x as int,
{
    assert(((x >> 8u16) as u8) as u16 * 256u16 + (x as u8) as u16 == x) by (bit_vector);
}

/// Each of the eight segments becomes two octets, high byte first: octet `2k` times 256
/// plus octet `2k + 1` is segment `k`.
pub proof fn lemma_segment_octets(seg: Seq<u16>)
    requires
        seg.len() == 8,
    ensures
        segment_octets(seg).len() == 16,
        forall|k: int|
            0 <= k < 8 ==> #[trigger] segment_octets(seg)[2 * k] as int * 256 + segment_octets(
                seg,
            )[2 * k + 1] as int == seg[k] as int,
{
    assert forall|k: int| 0 <= k < 8 implies #[trigger] segment_octets(seg)[2 * k] as int * 256
        + segment_octets(seg)[2 * k + 1] as int == seg[k] as int by {
        lemma_u16_bytes(seg[k]);
        assert((2 * k) / 2 == k);
        assert((2 * k + 1) / 2 == k);
    }
}

} // verus!
