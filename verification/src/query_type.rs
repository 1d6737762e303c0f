//! The record/query type tag and its 16-bit wire code.

use vstd::prelude::*;

verus! {

/// A DNS record type, with a catch-all for codes this library does not
/// interpret.
#[derive(Debug, Clone, Copy, PartialEq, Eq, Structural)]
pub enum QueryType {
    UNKNOWN(u16),
    A,
    NS,
    CNAME,
    MX,
    AAAA,
}

impl QueryType {
    /// The 16-bit wire code of this type.
    pub open spec fn spec_to_num(self) -> u16 {
        match self {
            QueryType::UNKNOWN(x) => x,
            QueryType::A => 1,
            QueryType::NS => 2,
            QueryType::CNAME => 5,
            QueryType::MX => 15,
            QueryType::AAAA => 28,
        }
    }

    /// The type tag a 16-bit wire code decodes to.
    pub open spec fn spec_from_num(num: u16) -> QueryType {
        if num == 1 {
            QueryType::A
        } else if num == 2 {
            QueryType::NS
        } else if num == 5 {
            QueryType::CNAME
        } else if num == 15 {
            QueryType::MX
        } else if num == 28 {
            QueryType::AAAA
        } else {
            QueryType::UNKNOWN(num)
        }
    }

    /// A tag round-trips through its code; only non-reserved codes may
    /// sit under `UNKNOWN`.
    pub open spec fn canonical(self) -> bool {
        Self::spec_from_num(self.spec_to_num()) == self
    }

    pub fn to_num(self) -> (r: u16)
        ensures
            r == self.spec_to_num(),
    {
        match self {
            QueryType::UNKNOWN(x) => x,
            QueryType::A => 1,
            QueryType::NS => 2,
            QueryType::CNAME => 5,
            QueryType::MX => 15,
            QueryType::AAAA => 28,
        }
    }

    pub fn from_num(num: u16) -> (r: QueryType)
        ensures
            r == Self::spec_from_num(num),
            r.canonical(),
            r.spec_to_num() == num,
    {
        match num {
            1 => QueryType::A,
            2 => QueryType::NS,
            5 => QueryType::CNAME,
            15 => QueryType::MX,
            28 => QueryType::AAAA,
            _ => QueryType::UNKNOWN(num),
        }
    }
}

} // verus!
