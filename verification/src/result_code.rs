//! The 4-bit response code of a DNS header.

use vstd::prelude::*;

verus! {

/// A DNS response code, with a catch-all for the codes this library
/// does not interpret.
#[derive(Debug, Clone, Copy, PartialEq, Eq, Structural)]
pub enum ResultCode {
    NOERROR,
    FORMERR,
    SERVFAIL,
    NXDOMAIN,
    NOTIMP,
    REFUSED,
    UNKNOWN(u8),
}

impl ResultCode {
    /// The numeric code of this variant.
    pub open spec fn spec_to_num(self) -> u8 {
        match self {
            ResultCode::NOERROR => 0,
            ResultCode::FORMERR => 1,
            ResultCode::SERVFAIL => 2,
            ResultCode::NXDOMAIN => 3,
            ResultCode::NOTIMP => 4,
            ResultCode::REFUSED => 5,
            ResultCode::UNKNOWN(x) => x,
        }
    }

    /// The variant a numeric code decodes to.
    pub open spec fn spec_from_num(num: u8) -> ResultCode {
        if num == 0 {
            ResultCode::NOERROR
        } else if num == 1 {
            ResultCode::FORMERR
        } else if num == 2 {
            ResultCode::SERVFAIL
        } else if num == 3 {
            ResultCode::NXDOMAIN
        } else if num == 4 {
            ResultCode::NOTIMP
        } else if num == 5 {
            ResultCode::REFUSED
        } else {
            ResultCode::UNKNOWN(num)
        }
    }

    /// A code round-trips through its number, and the number fits the
    /// 4-bit header field.
    pub open spec fn canonical(self) -> bool {
        &&& Self::spec_from_num(self.spec_to_num()) == self
        &&& self.spec_to_num() < 16
    }

    pub fn to_num(self) -> (r: u8)
        ensures
            r == self.spec_to_num(),
    {
        match self {
            ResultCode::NOERROR => 0,
            ResultCode::FORMERR => 1,
            ResultCode::SERVFAIL => 2,
            ResultCode::NXDOMAIN => 3,
            ResultCode::NOTIMP => 4,
            ResultCode::REFUSED => 5,
            ResultCode::UNKNOWN(x) => x,
        }
    }

    pub fn from_num(num: u8) -> (r: ResultCode)
        ensures
            r == Self::spec_from_num(num),
            r.spec_to_num() == num,
            num < 16 ==> r.canonical(),
    {
        match num {
            0 => ResultCode::NOERROR,
            1 => ResultCode::FORMERR,
            2 => ResultCode::SERVFAIL,
            3 => ResultCode::NXDOMAIN,
            4 => ResultCode::NOTIMP,
            5 => ResultCode::REFUSED,
            _ => ResultCode::UNKNOWN(num),
        }
    }
}

} // verus!
