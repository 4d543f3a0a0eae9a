//! IP to ASN lookup using Bitcoin Core's asmap binary trie format.
//!
//! An asmap file is a compact binary encoding of a mapping from IP prefixes to
//! Autonomous System Numbers (ASNs). This crate validates asmap data, then provides
//! lookups for both IPv4 and IPv6 addresses. IPv4 addresses are mapped to IPv6
//! (`::ffff:x.x.x.x`) before lookup, as Bitcoin Core does internally.
use vstd::prelude::*;
use vstd::string::*;

pub mod addr;
pub mod format;
pub mod grammar;
pub mod interpret;
pub mod semantics;
pub mod totality;
pub mod validate;

pub use addr::{IpAddr, Ipv4Addr, Ipv6Addr};

use addr::lookup_octets;
use interpret::{addr_value, interpret, lookup_spec};
use validate::{sanity_check, valid_asmap};

verus! {

/// `std::io::Error`, carried unopened in [`AsmapError::Io`]; nothing is assumed of it.
#[verifier::external_type_specification]
#[verifier::external_body]
pub struct ExIoError(std::io::Error);

/// Errors that can occur when loading asmap data.
#[derive(Debug)]
pub enum AsmapError {
    /// An I/O error occurred while reading the asmap file.
    Io(std::io::Error),
    /// The asmap data failed structural validation.
    Invalid,
}

impl AsmapError {
    /// A human-readable description of the error.
    pub fn to_string(&self) -> (msg: String)
        ensures
            match self {
                AsmapError::Invalid => msg@ == "asmap data failed validation"@,
                AsmapError::Io(e) => exists|d: String|
                    to_string_from_display_ensures::<std::io::Error>(e, d) && msg@
                        == "failed to read asmap file: "@ + d@,
            },
    {
        match self {
            AsmapError::Io(e) => {
                let detail = e.to_string();
                let mut msg = "failed to read asmap file: ".to_string();
                msg.append(detail.as_str());
                msg
            },
            AsmapError::Invalid => "asmap data failed validation".to_string(),
        }
    }
}

impl From<std::io::Error> for AsmapError {
    fn from(e: std::io::Error) -> (r: AsmapError) {
        AsmapError::Io(e)
    }
}

impl vstd::std_specs::convert::FromSpecImpl<std::io::Error> for AsmapError {
    open spec fn obeys_from_spec() -> bool {
        true
    }

    open spec fn from_spec(e: std::io::Error) -> AsmapError {
        AsmapError::Io(e)
    }
}

/// A validated asmap that maps IP addresses to Autonomous System Numbers (ASNs).
///
/// The asmap is validated on construction. Lookups are infallible: an unmapped
/// address gets ASN 0.
#[derive(Debug)]
pub struct Asmap {
    data: Vec<u8>,
    /// Length of the actual asmap data (excluding the 7 bytes of read padding).
    len: usize,
}

impl View for Asmap {
    type V = Seq<u8>;

    /// The asmap bytecode, without the read padding.
    closed spec fn view(&self) -> Seq<u8> {
        self.data@.subrange(0, self.len as int)
    }
}

impl Asmap {
    #[verifier::type_invariant]
    spec fn well_formed(self) -> bool {
        &&& self.data@.len() == self.len + 7
        &&& 8 * self.data@.len() <= usize::MAX
        &&& forall|i: int| self.len <= i < self.data@.len() ==> self.data@[i] == 0u8
        &&& valid_asmap(self.data@.subrange(0, self.len as int))
    }

    /// Validate and wrap raw asmap bytes.
    ///
    /// Returns [`AsmapError::Invalid`] if the data fails validation.
    pub fn from_bytes(data: Vec<u8>) -> (r: Result<Asmap, AsmapError>)
        requires
            8 * (data@.len() + 7) <= usize::MAX,
        ensures
            match r {
                Ok(map) => valid_asmap(data@) && map@ == data@,
                Err(e) => !valid_asmap(data@) && e is Invalid,
            },
    {
        let mut data = data;
        if !sanity_check(data.as_slice(), 128) {
            return Err(AsmapError::Invalid);
        }
        let len = data.len();
        let ghost code = data@;
        // Pad with 7 zero bytes so the interpreter can always do 8-byte loads
        // without bounds checks near the end of the data.
        let mut k: usize = 0;
        while k < 7
            invariant
                k <= 7,
                len == code.len(),
                data@.len() == len + k,
                data@.subrange(0, len as int) == code,
                forall|i: int| len <= i < data@.len() ==> data@[i] == 0u8,
            decreases 7 - k,
        {
            data.push(0u8);
            k += 1;
            assert(data@.subrange(0, len as int) =~= code);
        }
        Ok(Asmap { data, len })
    }

    /// Look up the ASN for an IP address. Returns 0 if unmapped.
    ///
    /// IPv4 addresses are mapped to their IPv6 representation (`::ffff:x.x.x.x`)
    /// before lookup.
    pub fn lookup(&self, addr: IpAddr) -> (asn: u32)
        ensures
            lookup_spec(self@, addr_value(lookup_octets(addr))) == Some(asn),
    {
        proof {
            use_type_invariant(self);
        }
        let ip6 = match addr {
            IpAddr::V4(v4) => v4.to_ipv6_mapped(),
            IpAddr::V6(v6) => v6,
        };
        let octets = ip6.octets();
        interpret(self.data.as_slice(), &octets)
    }

    /// Look up the ASN for an IPv4 address. Returns 0 if unmapped.
    pub fn lookup_v4(&self, addr: Ipv4Addr) -> (asn: u32)
        ensures
            lookup_spec(self@, addr_value(addr::mapped_octets(addr@))) == Some(asn),
    {
        self.lookup(IpAddr::V4(addr))
    }

    /// Look up the ASN for an IPv6 address. Returns 0 if unmapped.
    pub fn lookup_v6(&self, addr: Ipv6Addr) -> (asn: u32)
        ensures
            lookup_spec(self@, addr_value(addr@)) == Some(asn),
    {
        self.lookup(IpAddr::V6(addr))
    }

    /// Returns the raw asmap data (without internal padding).
    pub fn as_bytes(&self) -> (bytes: &[u8])
        ensures
            bytes@ == self@,
    {
        proof {
            use_type_invariant(self);
        }
        vstd::slice::slice_subrange(self.data.as_slice(), 0, self.len)
    }
}

} // verus!
