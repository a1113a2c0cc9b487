//! Plain-value models of network addresses.
//!
//! Addresses are held as their integer values so that every protocol rule
//! can be stated and proved over plain numbers; the binary converts to and
//! from the operating system's address types at its edge.

use vstd::prelude::*;

verus! {

/// The two IP address families the relay can serve.
#[derive(Clone, Copy, PartialEq, Eq, Hash, Structural, Debug)]
pub enum AddressFamily {
    V4,
    V6,
}

/// An IP address, stored as the integer value of its bytes in network order.
#[derive(Clone, Copy, PartialEq, Eq, Structural, Debug)]
pub enum IpAddr {
    V4(u32),
    V6(u128),
}

impl IpAddr {
    /// The family an address belongs to.
    pub open spec fn spec_family(self) -> AddressFamily {
        match self {
            IpAddr::V4(_) => AddressFamily::V4,
            IpAddr::V6(_) => AddressFamily::V6,
        }
    }

    #[verifier::when_used_as_spec(spec_family)]
    pub fn family(self) -> (r: AddressFamily)
        ensures
            r == self.spec_family(),
    {
        match self {
            IpAddr::V4(_) => AddressFamily::V4,
            IpAddr::V6(_) => AddressFamily::V6,
        }
    }
}

/// A UDP endpoint: an address plus a port.
#[derive(Clone, Copy, PartialEq, Eq, Structural, Debug)]
pub struct SocketAddr {
    pub ip: IpAddr,
    pub port: u16,
}

impl SocketAddr {
    /// The family of the endpoint's address.
    pub open spec fn spec_family(self) -> AddressFamily {
        self.ip.spec_family()
    }

    #[verifier::when_used_as_spec(spec_family)]
    pub fn family(self) -> (r: AddressFamily)
        ensures
            r == self.spec_family(),
    {
        self.ip.family()
    }
}

/// The relay's public addresses: IPv4 only, IPv6 only, or both.
#[derive(Clone, Copy, PartialEq, Eq, Structural, Debug)]
pub enum IpStack {
    Ip4(u32),
    Ip6(u128),
    Dual { ip4: u32, ip6: u128 },
}

impl IpStack {
    /// The public IPv4 address, if the stack has one.
    pub open spec fn spec_as_v4(self) -> Option<u32> {
        match self {
            IpStack::Ip4(ip4) => Some(ip4),
            IpStack::Ip6(_) => None,
            IpStack::Dual { ip4, .. } => Some(ip4),
        }
    }

    /// The public IPv6 address, if the stack has one.
    pub open spec fn spec_as_v6(self) -> Option<u128> {
        match self {
            IpStack::Ip4(_) => None,
            IpStack::Ip6(ip6) => Some(ip6),
            IpStack::Dual { ip6, .. } => Some(ip6),
        }
    }

    #[verifier::when_used_as_spec(spec_as_v4)]
    pub fn as_v4(self) -> (r: Option<u32>)
        ensures
            r == self.spec_as_v4(),
    {
        match self {
            IpStack::Ip4(ip4) => Some(ip4),
            IpStack::Ip6(_) => None,
            IpStack::Dual { ip4, .. } => Some(ip4),
        }
    }

    #[verifier::when_used_as_spec(spec_as_v6)]
    pub fn as_v6(self) -> (r: Option<u128>)
        ensures
            r == self.spec_as_v6(),
    {
        match self {
            IpStack::Ip4(_) => None,
            IpStack::Ip6(ip6) => Some(ip6),
            IpStack::Dual { ip6, .. } => Some(ip6),
        }
    }

    /// Whether the stack serves the given family.
    pub open spec fn spec_has_family(self, family: AddressFamily) -> bool {
        match family {
            AddressFamily::V4 => self.spec_as_v4() is Some,
            AddressFamily::V6 => self.spec_as_v6() is Some,
        }
    }

    #[verifier::when_used_as_spec(spec_has_family)]
    pub fn has_family(self, family: AddressFamily) -> (r: bool)
        ensures
            r == self.spec_has_family(family),
    {
        match family {
            AddressFamily::V4 => self.as_v4().is_some(),
            AddressFamily::V6 => self.as_v6().is_some(),
        }
    }

    /// The public address of the given family, as an [`IpAddr`], if present.
    pub open spec fn spec_address_for(self, family: AddressFamily) -> Option<IpAddr> {
        match family {
            AddressFamily::V4 => match self.spec_as_v4() {
                Some(ip4) => Some(IpAddr::V4(ip4)),
                None => None,
            },
            AddressFamily::V6 => match self.spec_as_v6() {
                Some(ip6) => Some(IpAddr::V6(ip6)),
                None => None,
            },
        }
    }

    #[verifier::when_used_as_spec(spec_address_for)]
    pub fn address_for(self, family: AddressFamily) -> (r: Option<IpAddr>)
        ensures
            r == self.spec_address_for(family),
    {
        match family {
            AddressFamily::V4 => match self.as_v4() {
                Some(ip4) => Some(IpAddr::V4(ip4)),
                None => None,
            },
            AddressFamily::V6 => match self.as_v6() {
                Some(ip6) => Some(IpAddr::V6(ip6)),
                None => None,
            },
        }
    }
}

} // verus!
