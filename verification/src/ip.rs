//! Addresses and subnets, held as plain integer values.

use vstd::prelude::*;

verus! {

/// An address, v4 or v6, as its big-endian integer value.
#[derive(Clone, Copy, PartialEq, Eq, Structural, Debug)]
pub enum Ip {
    V4(u32),
    V6(u128),
}

/// An address prefix: a base address together with a prefix length.
#[derive(Clone, Copy, PartialEq, Eq, Structural, Debug)]
pub struct Cidr {
    pub ip: Ip,
    pub prefix: u8,
}

impl Ip {
    pub open spec fn is_v4(self) -> bool {
        matches!(self, Ip::V4(_))
    }

    pub fn version_is_v4(&self) -> (r: bool)
        ensures
            r == self.is_v4(),
    {
        matches!(self, Ip::V4(_))
    }
}

/// The v4 network mask of a prefix length: the high `p` bits set.
pub open spec fn mask4(p: u8) -> u32
    recommends
        p <= 32,
{
    if p == 0 {
        0u32
    } else {
        0xffff_ffffu32 << ((32 - p) as u32)
    }
}

/// The v6 network mask of a prefix length: the high `p` bits set.
pub open spec fn mask6(p: u8) -> u128
    recommends
        p <= 128,
{
    if p == 0 {
        0u128
    } else {
        0xffff_ffff_ffff_ffff_ffff_ffff_ffff_ffffu128 << ((128 - p) as u32)
    }
}

/// The subnet base of a v4 address under a prefix length.
pub open spec fn net4(a: u32, p: u8) -> u32 {
    a & mask4(p)
}

/// The subnet base of a v6 address under a prefix length.
pub open spec fn net6(a: u128, p: u8) -> u128 {
    a & mask6(p)
}

impl Cidr {
    /// The prefix length fits the address family.
    pub open spec fn wf(self) -> bool {
        match self.ip {
            Ip::V4(_) => self.prefix <= 32,
            Ip::V6(_) => self.prefix <= 128,
        }
    }

    /// The same prefix with its base address masked down to the subnet base:
    /// the key under which all addresses sharing the subnet agree.
    pub open spec fn subnet_spec(self) -> Cidr {
        match self.ip {
            Ip::V4(a) => Cidr { ip: Ip::V4(net4(a, self.prefix)), prefix: self.prefix },
            Ip::V6(a) => Cidr { ip: Ip::V6(net6(a, self.prefix)), prefix: self.prefix },
        }
    }

    /// The address lies in this prefix's subnet.
    pub open spec fn contains_ip(self, a: Ip) -> bool {
        match (self.ip, a) {
            (Ip::V4(b), Ip::V4(x)) => net4(x, self.prefix) == net4(b, self.prefix),
            (Ip::V6(b), Ip::V6(x)) => net6(x, self.prefix) == net6(b, self.prefix),
            _ => false,
        }
    }

    pub fn subnet(&self) -> (r: Cidr)
        requires
            self.wf(),
        ensures
            r == self.subnet_spec(),
    {
        match self.ip {
            Ip::V4(a) => {
                let m: u32 = if self.prefix == 0 {
                    0
                } else {
                    0xffff_ffffu32 << ((32 - self.prefix) as u32)
                };
                Cidr { ip: Ip::V4(a & m), prefix: self.prefix }
            },
            Ip::V6(a) => {
                let m: u128 = if self.prefix == 0 {
                    0
                } else {
                    0xffff_ffff_ffff_ffff_ffff_ffff_ffff_ffffu128 << ((128 - self.prefix) as u32)
                };
                Cidr { ip: Ip::V6(a & m), prefix: self.prefix }
            },
        }
    }

    pub fn contains(&self, a: &Ip) -> (r: bool)
        requires
            self.wf(),
        ensures
            r == self.contains_ip(*a),
    {
        match (self.ip, *a) {
            (Ip::V4(b), Ip::V4(x)) => {
                let m: u32 = if self.prefix == 0 {
                    0
                } else {
                    0xffff_ffffu32 << ((32 - self.prefix) as u32)
                };
                x & m == b & m
            },
            (Ip::V6(b), Ip::V6(x)) => {
                let m: u128 = if self.prefix == 0 {
                    0
                } else {
                    0xffff_ffff_ffff_ffff_ffff_ffff_ffff_ffffu128 << ((128 - self.prefix) as u32)
                };
                x & m == b & m
            },
            _ => false,
        }
    }

    /// Masking is idempotent: a subnet key is its own subnet key, so keys
    /// computed from any address of the subnet compare equal.
    pub proof fn lemma_subnet_idempotent(self)
        ensures
            self.subnet_spec().subnet_spec() == self.subnet_spec(),
    {
        match self.ip {
            Ip::V4(a) => {
                let p = self.prefix;
                assert(net4(net4(a, p), p) == net4(a, p)) by (bit_vector);
            },
            Ip::V6(a) => {
                let p = self.prefix;
                assert(net6(net6(a, p), p) == net6(a, p)) by (bit_vector);
            },
        }
    }
}

/// What `ipnetwork` parses out of one piece of address/prefix text; the
/// result depends on the text alone.
pub uninterp spec fn cidr_of_text(s: Seq<char>) -> Option<Cidr>;

/// Relies on `ipnetwork::IpNetwork::from_str` (ipnetwork 0.21): parses
/// "address" or "address/prefix" text into an address and prefix length,
/// refusing a prefix over 32 (v4) or 128 (v6).
#[verifier::external_body]
pub fn parse_cidr(s: &str) -> (r: Option<Cidr>)
    ensures
        r == cidr_of_text(s@),
        r is Some ==> r.unwrap().wf(),
{
    match s.parse::<ipnetwork::IpNetwork>() {
        Ok(ipnetwork::IpNetwork::V4(n)) => Some(
            Cidr { ip: Ip::V4(u32::from(n.ip())), prefix: n.prefix() },
        ),
        Ok(ipnetwork::IpNetwork::V6(n)) => Some(
            Cidr { ip: Ip::V6(u128::from(n.ip())), prefix: n.prefix() },
        ),
        Err(_) => None,
    }
}

} // verus!
