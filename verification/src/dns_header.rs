//! The fixed 12-byte DNS message header.

use vstd::prelude::*;

use crate::byte_packet_buffer::{
    be16, be32, u16_bytes, BytePacketBuffer, BytePacketBufferResult, BUFFER_SIZE,
};
use crate::errors::BytePacketBufferError;
use crate::result_code::ResultCode;

verus! {

/// One for a set flag, zero for a clear one.
pub open spec fn bit(b: bool) -> u8 {
    if b {
        1
    } else {
        0
    }
}

/// The 12-byte header: transaction id, single-bit flags, the response
/// code and the four section counts.
#[derive(Debug, Clone, Copy, PartialEq, Eq, Structural)]
pub struct DnsHeader {
    pub id: u16,
    pub recursion_desired: bool,
    pub truncated_message: bool,
    pub authoritative_answer: bool,
    pub opcode: u8,
    pub response: bool,
    pub rescode: ResultCode,
    pub checking_disabled: bool,
    pub authed_data: bool,
    pub z: bool,
    pub recursion_available: bool,
    pub questions: u16,
    pub answers: u16,
    pub authoritative_entries: u16,
    pub resource_entries: u16,
}

impl DnsHeader {
    /// The opcode fits its 4-bit field and the response code its
    /// 4-bit field; such a header survives encoding unchanged.
    pub open spec fn wf(self) -> bool {
        &&& self.opcode < 16
        &&& self.rescode.canonical()
    }

    /// The upper flag byte: response bit, opcode, and the three flags
    /// of the request side.
    pub open spec fn flags_upper(self) -> u8 {
        (bit(self.response) * 128 + (self.opcode % 16) * 8 + bit(self.authoritative_answer) * 4
            + bit(self.truncated_message) * 2 + bit(self.recursion_desired)) as u8
    }

    /// The lower flag byte: the reply-side flags and the response code.
    pub open spec fn flags_lower(self) -> u8 {
        (bit(self.recursion_available) * 128 + bit(self.z) * 64 + bit(self.authed_data) * 32
            + bit(self.checking_disabled) * 16 + self.rescode.spec_to_num() % 16) as u8
    }

    /// The 12 bytes this header encodes to.
    pub open spec fn encoded(self) -> Seq<u8> {
        u16_bytes(self.id) + seq![self.flags_upper(), self.flags_lower()]
            + u16_bytes(self.questions) + u16_bytes(self.answers)
            + u16_bytes(self.authoritative_entries) + u16_bytes(self.resource_entries)
    }

    /// A zeroed header: id 0, every flag clear, code `NOERROR`, all
    /// counts 0.
    pub fn new() -> (r: Self)
        ensures
            r == Self::blank(),
            r.wf(),
    {
        DnsHeader {
            id: 0,
            recursion_desired: false,
            truncated_message: false,
            authoritative_answer: false,
            opcode: 0,
            response: false,
            rescode: ResultCode::NOERROR,
            checking_disabled: false,
            authed_data: false,
            z: false,
            recursion_available: false,
            questions: 0,
            answers: 0,
            authoritative_entries: 0,
            resource_entries: 0,
        }
    }

    /// The value `new` returns.
    pub open spec fn blank() -> Self {
        DnsHeader {
            id: 0,
            recursion_desired: false,
            truncated_message: false,
            authoritative_answer: false,
            opcode: 0,
            response: false,
            rescode: ResultCode::NOERROR,
            checking_disabled: false,
            authed_data: false,
            z: false,
            recursion_available: false,
            questions: 0,
            answers: 0,
            authoritative_entries: 0,
            resource_entries: 0,
        }
    }

    /// Reads the 12 header bytes at the buffer position into `self`.
    pub fn read(&mut self, buffer: &mut BytePacketBuffer) -> (r: BytePacketBufferResult<()>)
        requires
            old(buffer).wf(),
        ensures
            final(buffer).wf(),
            final(buffer).buff == old(buffer).buff,
            old(buffer).pos + 12 <= BUFFER_SIZE ==> r == Ok::<(), BytePacketBufferError>(())
                && *final(self) == parse_header(old(buffer).buff@, old(buffer).pos as int)
                && final(buffer).pos == old(buffer).pos + 12,
            old(buffer).pos + 12 > BUFFER_SIZE ==> r == Err::<(), BytePacketBufferError>(
                BytePacketBufferError::PosOutOfRange,
            ),
    {
        self.id = buffer.read_u16()?;

        let flags = buffer.read_u16()?;
        let a = (flags / 256) as u8;
        let b = (flags % 256) as u8;

        self.recursion_desired = a % 2 == 1;
        self.truncated_message = (a / 2) % 2 == 1;
        self.authoritative_answer = (a / 4) % 2 == 1;
        self.opcode = (a / 8) % 16;
        self.response = (a / 128) % 2 == 1;

        self.rescode = ResultCode::from_num(b % 16);
        self.checking_disabled = (b / 16) % 2 == 1;
        self.authed_data = (b / 32) % 2 == 1;
        self.z = (b / 64) % 2 == 1;
        self.recursion_available = (b / 128) % 2 == 1;

        self.questions = buffer.read_u16()?;
        self.answers = buffer.read_u16()?;
        self.authoritative_entries = buffer.read_u16()?;
        self.resource_entries = buffer.read_u16()?;

        proof {
            let buf = old(buffer).buff@;
            let pos = old(buffer).pos as int;
            assert(be16(buf[pos + 2], buf[pos + 3]) / 256 == buf[pos + 2])
                by (nonlinear_arith);
            assert(be16(buf[pos + 2], buf[pos + 3]) % 256 == buf[pos + 3])
                by (nonlinear_arith);
        }
        Ok(())
    }

    /// Writes the 12 header bytes at the buffer position.
    #[verifier::rlimit(50)]
    pub fn write(&self, buffer: &mut BytePacketBuffer) -> (r: BytePacketBufferResult<()>)
        requires
            old(buffer).wf(),
        ensures
            final(buffer).wf(),
            final(buffer).pos >= old(buffer).pos,
            old(buffer).pos + 12 <= BUFFER_SIZE ==> r == Ok::<(), BytePacketBufferError>(())
                && final(buffer).buff@ == old(buffer).buff@.take(old(buffer).pos as int)
                    + self.encoded() + old(buffer).buff@.skip(old(buffer).pos + 12)
                && final(buffer).pos == old(buffer).pos + 12,
            old(buffer).pos + 12 > BUFFER_SIZE ==> r == Err::<(), BytePacketBufferError>(
                BytePacketBufferError::PosOutOfRange,
            ),
    {
        let ghost pos0 = old(buffer).pos as int;
        let ghost buf0 = old(buffer).buff@;
        let ghost e = self.encoded();

        buffer.write_u16(self.id)?;
        proof {
            assert(e[0] == (self.id / 256) as u8 && e[1] == (self.id % 256) as u8);
            assert(buffer.buff@ =~= buf0.take(pos0) + e.take(2) + buf0.skip(pos0 + 2));
        }

        let mut a: u8 = 0;
        if self.response {
            a = a + 128;
        }
        a = a + (self.opcode % 16) * 8;
        if self.authoritative_answer {
            a = a + 4;
        }
        if self.truncated_message {
            a = a + 2;
        }
        if self.recursion_desired {
            a = a + 1;
        }
        buffer.write_u8(a)?;
        proof {
            assert(a == self.flags_upper());
            assert(e[2] == self.flags_upper());
            assert(buffer.buff@ =~= buf0.take(pos0) + e.take(3) + buf0.skip(pos0 + 3));
        }

        let mut b: u8 = 0;
        if self.recursion_available {
            b = b + 128;
        }
        if self.z {
            b = b + 64;
        }
        if self.authed_data {
            b = b + 32;
        }
        if self.checking_disabled {
            b = b + 16;
        }
        b = b + self.rescode.to_num() % 16;
        buffer.write_u8(b)?;
        proof {
            assert(b == self.flags_lower());
            assert(e[3] == self.flags_lower());
            assert(buffer.buff@ =~= buf0.take(pos0) + e.take(4) + buf0.skip(pos0 + 4));
        }

        buffer.write_u16(self.questions)?;
        proof {
            assert(e[4] == (self.questions / 256) as u8 && e[5] == (self.questions % 256) as u8);
            assert(buffer.buff@ =~= buf0.take(pos0) + e.take(6) + buf0.skip(pos0 + 6));
        }
        buffer.write_u16(self.answers)?;
        proof {
            assert(e[6] == (self.answers / 256) as u8 && e[7] == (self.answers % 256) as u8);
            assert(buffer.buff@ =~= buf0.take(pos0) + e.take(8) + buf0.skip(pos0 + 8));
        }
        buffer.write_u16(self.authoritative_entries)?;
        proof {
            assert(e[8] == (self.authoritative_entries / 256) as u8 && e[9] == (
            self.authoritative_entries % 256) as u8);
            assert(buffer.buff@ =~= buf0.take(pos0) + e.take(10) + buf0.skip(pos0 + 10));
        }
        buffer.write_u16(self.resource_entries)?;
        proof {
            assert(e[10] == (self.resource_entries / 256) as u8 && e[11] == (self.resource_entries
                % 256) as u8);
            assert(e.take(12) =~= e);
            assert(buffer.buff@ =~= buf0.take(pos0) + e + buf0.skip(pos0 + 12));
        }
        Ok(())
    }
}

/// The header the 12 bytes at `pos` decode to.
pub open spec fn parse_header(buf: Seq<u8>, pos: int) -> DnsHeader {
    let a = buf[pos + 2];
    let b = buf[pos + 3];
    DnsHeader {
        id: be16(buf[pos], buf[pos + 1]),
        recursion_desired: a % 2 == 1,
        truncated_message: (a / 2) % 2 == 1,
        authoritative_answer: (a / 4) % 2 == 1,
        opcode: ((a / 8) % 16) as u8,
        response: (a / 128) % 2 == 1,
        rescode: ResultCode::spec_from_num((b % 16) as u8),
        checking_disabled: (b / 16) % 2 == 1,
        authed_data: (b / 32) % 2 == 1,
        z: (b / 64) % 2 == 1,
        recursion_available: (b / 128) % 2 == 1,
        questions: be16(buf[pos + 4], buf[pos + 5]),
        answers: be16(buf[pos + 6], buf[pos + 7]),
        authoritative_entries: be16(buf[pos + 8], buf[pos + 9]),
        resource_entries: be16(buf[pos + 10], buf[pos + 11]),
    }
}

/// A well-formed header comes back unchanged from its own 12 bytes.
pub proof fn lemma_header_roundtrip(h: DnsHeader)
    requires
        h.wf(),
    ensures
        parse_header(h.encoded(), 0) == h,
{
    let e = h.encoded();
    let a = h.flags_upper();
    let b = h.flags_lower();
    assert(e[2] == a && e[3] == b);

    let r = bit(h.response);
    let o = h.opcode;
    let aa = bit(h.authoritative_answer);
    let tc = bit(h.truncated_message);
    let rd = bit(h.recursion_desired);
    assert(a == r * 128 + (o % 16) * 8 + aa * 4 + tc * 2 + rd);
    assert({
        &&& a % 2 == rd
        &&& (a / 2) % 2 == tc
        &&& (a / 4) % 2 == aa
        &&& (a / 8) % 16 == o % 16
        &&& (a / 128) % 2 == r
    }) by (bit_vector)
        requires
            a == r * 128 + (o % 16) * 8 + aa * 4 + tc * 2 + rd,
            r < 2 && aa < 2 && tc < 2 && rd < 2,
    ;

    let ra = bit(h.recursion_available);
    let z = bit(h.z);
    let ad = bit(h.authed_data);
    let cd = bit(h.checking_disabled);
    let rc = h.rescode.spec_to_num();
    assert(b == ra * 128 + z * 64 + ad * 32 + cd * 16 + rc % 16);
    assert({
        &&& b % 16 == rc % 16
        &&& (b / 16) % 2 == cd
        &&& (b / 32) % 2 == ad
        &&& (b / 64) % 2 == z
        &&& (b / 128) % 2 == ra
    }) by (bit_vector)
        requires
            b == ra * 128 + z * 64 + ad * 32 + cd * 16 + rc % 16,
            ra < 2 && z < 2 && ad < 2 && cd < 2,
    ;
    assert(rc % 16 == rc);

    let id = h.id;
    assert(e[0] == (id / 256) as u8 && e[1] == (id % 256) as u8);
    assert(be16((id / 256) as u8, (id % 256) as u8) == id) by (bit_vector);
    lemma_be16_bytes(h.questions);
    lemma_be16_bytes(h.answers);
    lemma_be16_bytes(h.authoritative_entries);
    lemma_be16_bytes(h.resource_entries);
}

/// Splitting a 16-bit integer into two bytes and rejoining them gives
/// it back.
pub proof fn lemma_be16_bytes(v: u16)
    ensures
        be16((v / 256) as u8, (v % 256) as u8) == v,
{
    assert(be16((v / 256) as u8, (v % 256) as u8) == v) by (bit_vector);
}

/// Splitting a 32-bit integer into four bytes and rejoining them
/// gives it back.
pub proof fn lemma_be32_bytes(v: u32)
    ensures
        be32(
            (v / 0x1000000) as u8,
            ((v / 0x10000) % 256) as u8,
            ((v / 256) % 256) as u8,
            (v % 256) as u8,
        ) == v,
{
    assert(be32(
        (v / 0x1000000) as u8,
        ((v / 0x10000) % 256) as u8,
        ((v / 256) % 256) as u8,
        (v % 256) as u8,
    ) == v) by (bit_vector);
}

} // verus!
