//! Typed resource records and their wire codec.

use vstd::prelude::*;

use crate::byte_packet_buffer::{
    be16, be32, encoded_name, first_long_label_len, lemma_name_roundtrip, name_end_at,
    name_ok, name_parse_err, name_text_canonical, parse_name_at, u16_bytes, u32_bytes,
    BytePacketBuffer, BytePacketBufferResult, NameParse, BUFFER_SIZE, MAX_JUMPS,
};
use crate::dns_header::{lemma_be16_bytes, lemma_be32_bytes};
use crate::errors::BytePacketBufferError;
use crate::query_type::QueryType;

verus! {

/// A resource record. An IPv4 address is held as its 32-bit value; an
/// IPv6 address as its four big-endian 32-bit words.
#[derive(Debug, Clone, PartialEq, Eq)]
pub enum DnsRecord {
    UNKNOWN { domain: Vec<u8>, query_type: u16, data_len: u16, ttl: u32 },
    A { domain: Vec<u8>, addr: u32, ttl: u32 },
    NS { domain: Vec<u8>, host: Vec<u8>, ttl: u32 },
    CNAME { domain: Vec<u8>, host: Vec<u8>, ttl: u32 },
    MX { domain: Vec<u8>, priority: u16, host: Vec<u8>, ttl: u32 },
    AAAA { domain: Vec<u8>, addr0: u32, addr1: u32, addr2: u32, addr3: u32, ttl: u32 },
}

/// The mathematical image of a record.
pub enum RecordV {
    UNKNOWN { domain: Seq<u8>, query_type: u16, data_len: u16, ttl: u32 },
    A { domain: Seq<u8>, addr: u32, ttl: u32 },
    NS { domain: Seq<u8>, host: Seq<u8>, ttl: u32 },
    CNAME { domain: Seq<u8>, host: Seq<u8>, ttl: u32 },
    MX { domain: Seq<u8>, priority: u16, host: Seq<u8>, ttl: u32 },
    AAAA { domain: Seq<u8>, addr0: u32, addr1: u32, addr2: u32, addr3: u32, ttl: u32 },
}

impl View for DnsRecord {
    type V = RecordV;

    open spec fn view(&self) -> RecordV {
        match self {
            DnsRecord::UNKNOWN { domain, query_type, data_len, ttl } => RecordV::UNKNOWN {
                domain: domain@,
                query_type: *query_type,
                data_len: *data_len,
                ttl: *ttl,
            },
            DnsRecord::A { domain, addr, ttl } => RecordV::A {
                domain: domain@,
                addr: *addr,
                ttl: *ttl,
            },
            DnsRecord::NS { domain, host, ttl } => RecordV::NS {
                domain: domain@,
                host: host@,
                ttl: *ttl,
            },
            DnsRecord::CNAME { domain, host, ttl } => RecordV::CNAME {
                domain: domain@,
                host: host@,
                ttl: *ttl,
            },
            DnsRecord::MX { domain, priority, host, ttl } => RecordV::MX {
                domain: domain@,
                priority: *priority,
                host: host@,
                ttl: *ttl,
            },
            DnsRecord::AAAA { domain, addr0, addr1, addr2, addr3, ttl } => RecordV::AAAA {
                domain: domain@,
                addr0: *addr0,
                addr1: *addr1,
                addr2: *addr2,
                addr3: *addr3,
                ttl: *ttl,
            },
        }
    }
}

/// The common preamble of an encoded record: owner name, type code,
/// class 1, time to live, then the length of the payload that follows.
pub open spec fn record_preamble(
    domain: Seq<u8>,
    qt: u16,
    ttl: u32,
    payload: Seq<u8>,
) -> Seq<u8> {
    encoded_name(domain) + u16_bytes(qt) + u16_bytes(1) + u32_bytes(ttl) + u16_bytes(
        payload.len() as u16,
    ) + payload
}

/// The wire bytes a record encodes to. An `UNKNOWN` record encodes to
/// nothing at all.
pub open spec fn encoded_record(r: RecordV) -> Seq<u8> {
    match r {
        RecordV::UNKNOWN { .. } => Seq::empty(),
        RecordV::A { domain, addr, ttl } => record_preamble(domain, 1, ttl, u32_bytes(addr)),
        RecordV::NS { domain, host, ttl } => record_preamble(domain, 2, ttl, encoded_name(host)),
        RecordV::CNAME { domain, host, ttl } => record_preamble(
            domain,
            5,
            ttl,
            encoded_name(host),
        ),
        RecordV::MX { domain, priority, host, ttl } => record_preamble(
            domain,
            15,
            ttl,
            u16_bytes(priority) + encoded_name(host),
        ),
        RecordV::AAAA { domain, addr0, addr1, addr2, addr3, ttl } => record_preamble(
            domain,
            28,
            ttl,
            u32_bytes(addr0) + u32_bytes(addr1) + u32_bytes(addr2) + u32_bytes(addr3),
        ),
    }
}

/// Whether every name a record carries can be written.
pub open spec fn record_names_ok(r: RecordV) -> bool {
    match r {
        RecordV::UNKNOWN { .. } => true,
        RecordV::A { domain, .. } => name_ok(domain),
        RecordV::NS { domain, host, .. } => name_ok(domain) && name_ok(host),
        RecordV::CNAME { domain, host, .. } => name_ok(domain) && name_ok(host),
        RecordV::MX { domain, host, .. } => name_ok(domain) && name_ok(host),
        RecordV::AAAA { domain, .. } => name_ok(domain),
    }
}

/// The record starting at `pos` and the position past it, or the
/// error its read reports. The declared data length is trusted only
/// for records of an uninterpreted type, whose payload is skipped.
pub open spec fn parse_record_at(buf: Seq<u8>, pos: int) -> Result<
    (RecordV, int),
    BytePacketBufferError,
> {
    match parse_name_at(buf, pos, MAX_JUMPS as nat) {
        NameParse::Parsed { name } => {
            let e = name_end_at(buf, pos);
            if e + 10 > BUFFER_SIZE {
                Err(BytePacketBufferError::PosOutOfRange)
            } else {
                let qt = be16(buf[e], buf[e + 1]);
                let ttl = be32(buf[e + 4], buf[e + 5], buf[e + 6], buf[e + 7]);
                let dl = be16(buf[e + 8], buf[e + 9]);
                let p = e + 10;
                if qt == 1 {
                    if p + 4 <= BUFFER_SIZE {
                        Ok(
                            (
                                RecordV::A {
                                    domain: name,
                                    addr: be32(buf[p], buf[p + 1], buf[p + 2], buf[p + 3]),
                                    ttl,
                                },
                                p + 4,
                            ),
                        )
                    } else {
                        Err(BytePacketBufferError::PosOutOfRange)
                    }
                } else if qt == 2 || qt == 5 {
                    match parse_name_at(buf, p, MAX_JUMPS as nat) {
                        NameParse::Parsed { name: host } => Ok(
                            (
                                if qt == 2 {
                                    RecordV::NS { domain: name, host, ttl }
                                } else {
                                    RecordV::CNAME { domain: name, host, ttl }
                                },
                                name_end_at(buf, p),
                            ),
                        ),
                        other => Err(name_parse_err(other)),
                    }
                } else if qt == 15 {
                    if p + 2 <= BUFFER_SIZE {
                        match parse_name_at(buf, p + 2, MAX_JUMPS as nat) {
                            NameParse::Parsed { name: host } => Ok(
                                (
                                    RecordV::MX {
                                        domain: name,
                                        priority: be16(buf[p], buf[p + 1]),
                                        host,
                                        ttl,
                                    },
                                    name_end_at(buf, p + 2),
                                ),
                            ),
                            other => Err(name_parse_err(other)),
                        }
                    } else {
                        Err(BytePacketBufferError::PosOutOfRange)
                    }
                } else if qt == 28 {
                    if p + 16 <= BUFFER_SIZE {
                        Ok(
                            (
                                RecordV::AAAA {
                                    domain: name,
                                    addr0: be32(buf[p], buf[p + 1], buf[p + 2], buf[p + 3]),
                                    addr1: be32(buf[p + 4], buf[p + 5], buf[p + 6], buf[p + 7]),
                                    addr2: be32(
                                        buf[p + 8],
                                        buf[p + 9],
                                        buf[p + 10],
                                        buf[p + 11],
                                    ),
                                    addr3: be32(
                                        buf[p + 12],
                                        buf[p + 13],
                                        buf[p + 14],
                                        buf[p + 15],
                                    ),
                                    ttl,
                                },
                                p + 16,
                            ),
                        )
                    } else {
                        Err(BytePacketBufferError::PosOutOfRange)
                    }
                } else {
                    Ok(
                        (
                            RecordV::UNKNOWN { domain: name, query_type: qt, data_len: dl, ttl },
                            p + dl,
                        ),
                    )
                }
            }
        },
        other => Err(name_parse_err(other)),
    }
}

/// The preamble bytes with a literal data-length value.
pub open spec fn preamble_bytes(domain: Seq<u8>, qt: u16, ttl: u32, dl: u16) -> Seq<u8> {
    encoded_name(domain) + u16_bytes(qt) + u16_bytes(1) + u32_bytes(ttl) + u16_bytes(dl)
}

/// The length of the first label over the limit among a record's
/// names, the owner name first.
pub open spec fn record_first_long(r: RecordV) -> nat {
    match r {
        RecordV::UNKNOWN { domain, .. } => first_long_label_len(domain),
        RecordV::A { domain, .. } => first_long_label_len(domain),
        RecordV::AAAA { domain, .. } => first_long_label_len(domain),
        RecordV::NS { domain, host, .. } => if !name_ok(domain) {
            first_long_label_len(domain)
        } else {
            first_long_label_len(host)
        },
        RecordV::CNAME { domain, host, .. } => if !name_ok(domain) {
            first_long_label_len(domain)
        } else {
            first_long_label_len(host)
        },
        RecordV::MX { domain, host, .. } => if !name_ok(domain) {
            first_long_label_len(domain)
        } else {
            first_long_label_len(host)
        },
    }
}

/// The owner name a record carries.
pub open spec fn record_domain(r: RecordV) -> Seq<u8> {
    match r {
        RecordV::UNKNOWN { domain, .. } => domain,
        RecordV::A { domain, .. } => domain,
        RecordV::NS { domain, .. } => domain,
        RecordV::CNAME { domain, .. } => domain,
        RecordV::MX { domain, .. } => domain,
        RecordV::AAAA { domain, .. } => domain,
    }
}

/// Backpatch law: in any encoded NS, CNAME or MX record the stored
/// data-length field equals the number of bytes between the field's
/// end and the record's end.
pub proof fn lemma_data_length_backpatch(r: RecordV)
    requires
        r matches RecordV::NS { .. } || r matches RecordV::CNAME { .. } || r matches
            RecordV::MX { .. },
        encoded_record(r).len() <= BUFFER_SIZE,
    ensures
        ({
            let e = encoded_record(r);
            let n = encoded_name(record_domain(r)).len() as int;
            be16(e[n + 8], e[n + 9]) == e.len() - (n + 10)
        }),
{
    let e = encoded_record(r);
    let n = encoded_name(record_domain(r)).len() as int;
    let payload = match r {
        RecordV::NS { host, .. } => encoded_name(host),
        RecordV::CNAME { host, .. } => encoded_name(host),
        RecordV::MX { priority, host, .. } => u16_bytes(priority) + encoded_name(host),
        _ => Seq::empty(),
    };
    let dl = payload.len() as u16;
    assert(e[n + 8] == (dl / 256) as u8);
    assert(e[n + 9] == (dl % 256) as u8);
    assert(be16((dl / 256) as u8, (dl % 256) as u8) == dl) by (bit_vector);
}

/// Every name a record carries is canonical decoder text.
pub open spec fn record_text_canonical(r: RecordV) -> bool {
    match r {
        RecordV::UNKNOWN { domain, .. } => name_text_canonical(domain),
        RecordV::A { domain, .. } => name_text_canonical(domain),
        RecordV::AAAA { domain, .. } => name_text_canonical(domain),
        RecordV::NS { domain, host, .. } => name_text_canonical(domain) && name_text_canonical(
            host,
        ),
        RecordV::CNAME { domain, host, .. } => name_text_canonical(domain)
            && name_text_canonical(host),
        RecordV::MX { domain, host, .. } => name_text_canonical(domain) && name_text_canonical(
            host,
        ),
    }
}

/// Round-trip law, record level: a record with canonical names reads
/// back from its own encoding exactly, and the parse ends right
/// behind it. Records of an uninterpreted type are left out: they
/// encode to nothing at all.
#[verifier::rlimit(100)]
#[verifier::spinoff_prover]
pub proof fn lemma_record_roundtrip(buf: Seq<u8>, pos: int, r: RecordV)
    requires
        buf.len() == BUFFER_SIZE,
        0 <= pos,
        pos + encoded_record(r).len() <= BUFFER_SIZE,
        !(r matches RecordV::UNKNOWN { .. }),
        record_text_canonical(r),
        buf.subrange(pos, pos + encoded_record(r).len()) == encoded_record(r),
    ensures
        parse_record_at(buf, pos) == Ok::<(RecordV, int), BytePacketBufferError>(
            (r, pos + encoded_record(r).len()),
        ),
{
    let e = encoded_record(r);
    let domain = record_domain(r);
    let en = encoded_name(domain);
    let n = en.len() as int;
    let ttl = match r {
        RecordV::UNKNOWN { ttl, .. } => ttl,
        RecordV::A { ttl, .. } => ttl,
        RecordV::NS { ttl, .. } => ttl,
        RecordV::CNAME { ttl, .. } => ttl,
        RecordV::MX { ttl, .. } => ttl,
        RecordV::AAAA { ttl, .. } => ttl,
    };
    let qt: u16 = match r {
        RecordV::UNKNOWN { query_type, .. } => query_type,
        RecordV::A { .. } => 1,
        RecordV::NS { .. } => 2,
        RecordV::CNAME { .. } => 5,
        RecordV::MX { .. } => 15,
        RecordV::AAAA { .. } => 28,
    };
    let payload = match r {
        RecordV::UNKNOWN { .. } => Seq::<u8>::empty(),
        RecordV::A { addr, .. } => u32_bytes(addr),
        RecordV::NS { host, .. } => encoded_name(host),
        RecordV::CNAME { host, .. } => encoded_name(host),
        RecordV::MX { priority, host, .. } => u16_bytes(priority) + encoded_name(host),
        RecordV::AAAA { addr0, addr1, addr2, addr3, .. } => u32_bytes(addr0) + u32_bytes(addr1)
            + u32_bytes(addr2) + u32_bytes(addr3),
    };
    assert(e == record_preamble(domain, qt, ttl, payload));
    assert(e.len() == n + 10 + payload.len());

    assert forall|k: int| 0 <= k < e.len() implies buf[pos + k] == e[k] by {
        assert(buf.subrange(pos, pos + e.len())[k] == buf[pos + k]);
    }
    assert(buf.subrange(pos, pos + n) =~= en) by {
        assert forall|k: int| 0 <= k < n implies buf.subrange(pos, pos + n)[k] == en[k] by {
            assert(buf[pos + k] == e[k]);
            assert(e[k] == en[k]);
        }
    }
    lemma_name_roundtrip(buf, pos, domain);
    let p0 = pos + n;
    assert(buf[pos + (n + 0)] == e[n + 0] && buf[pos + (n + 1)] == e[n + 1]);
    assert(e[n + 0] == (qt / 256) as u8 && e[n + 1] == (qt % 256) as u8);
    lemma_be16_bytes(qt);
    assert(be16(buf[p0], buf[p0 + 1]) == qt);
    assert(buf[pos + (n + 4)] == e[n + 4] && buf[pos + (n + 5)] == e[n + 5] && buf[pos + (n + 6)]
        == e[n + 6] && buf[pos + (n + 7)] == e[n + 7]);
    assert(e[n + 4] == (ttl / 0x1000000) as u8 && e[n + 5] == ((ttl / 0x10000) % 256) as u8 && e[n
        + 6] == ((ttl / 256) % 256) as u8 && e[n + 7] == (ttl % 256) as u8);
    lemma_be32_bytes(ttl);
    assert(be32(buf[p0 + 4], buf[p0 + 5], buf[p0 + 6], buf[p0 + 7]) == ttl);

    let p = p0 + 10;
    assert forall|m: int| 0 <= m < payload.len() implies buf[p + m] == payload[m] by {
        assert(buf[pos + (n + 10 + m)] == e[n + 10 + m]);
        assert(e[n + 10 + m] == payload[m]);
    }

    assert forall|m: int| 0 <= m < 16 && m < payload.len() implies buf[p + m] == payload[m]
        by {}

    match r {
        RecordV::A { addr, .. } => {
            lemma_be32_bytes(addr);
            assert(buf[p + 0] == payload[0] && buf[p + 1] == payload[1] && buf[p + 2]
                == payload[2] && buf[p + 3] == payload[3]);
            assert(be32(buf[p], buf[p + 1], buf[p + 2], buf[p + 3]) == addr);
        },
        RecordV::NS { host, .. } => {
            assert(buf.subrange(p, p + encoded_name(host).len()) =~= encoded_name(host));
            lemma_name_roundtrip(buf, p, host);
        },
        RecordV::CNAME { host, .. } => {
            assert(buf.subrange(p, p + encoded_name(host).len()) =~= encoded_name(host));
            lemma_name_roundtrip(buf, p, host);
        },
        RecordV::MX { priority, host, .. } => {
            assert(payload[0] == (priority / 256) as u8 && payload[1] == (priority % 256) as u8);
            lemma_be16_bytes(priority);
            assert(buf[p + 0] == payload[0] && buf[p + 1] == payload[1]);
            assert(be16(buf[p], buf[p + 1]) == priority);
            assert(buf.subrange(p + 2, p + 2 + encoded_name(host).len()) =~= encoded_name(host))
                by {
                assert forall|m: int|
                    0 <= m < encoded_name(host).len() implies buf.subrange(
                    p + 2,
                    p + 2 + encoded_name(host).len(),
                )[m] == encoded_name(host)[m] by {
                    assert(buf[p + (2 + m)] == payload[2 + m]);
                    assert(payload[2 + m] == encoded_name(host)[m]);
                }
            }
            lemma_name_roundtrip(buf, p + 2, host);
        },
        RecordV::AAAA { addr0, addr1, addr2, addr3, .. } => {
            lemma_be32_bytes(addr0);
            lemma_be32_bytes(addr1);
            lemma_be32_bytes(addr2);
            lemma_be32_bytes(addr3);
            assert(payload =~= seq![
                (addr0 / 0x1000000) as u8,
                ((addr0 / 0x10000) % 256) as u8,
                ((addr0 / 256) % 256) as u8,
                (addr0 % 256) as u8,
                (addr1 / 0x1000000) as u8,
                ((addr1 / 0x10000) % 256) as u8,
                ((addr1 / 256) % 256) as u8,
                (addr1 % 256) as u8,
                (addr2 / 0x1000000) as u8,
                ((addr2 / 0x10000) % 256) as u8,
                ((addr2 / 256) % 256) as u8,
                (addr2 % 256) as u8,
                (addr3 / 0x1000000) as u8,
                ((addr3 / 0x10000) % 256) as u8,
                ((addr3 / 256) % 256) as u8,
                (addr3 % 256) as u8,
            ]);
            assert(buf[p + 0] == payload[0] && buf[p + 1] == payload[1] && buf[p + 2]
                == payload[2] && buf[p + 3] == payload[3]);
            assert(buf[p + 4] == payload[4] && buf[p + 5] == payload[5] && buf[p + 6]
                == payload[6] && buf[p + 7] == payload[7]);
            assert(buf[p + 8] == payload[8] && buf[p + 9] == payload[9] && buf[p + 10]
                == payload[10] && buf[p + 11] == payload[11]);
            assert(buf[p + 12] == payload[12] && buf[p + 13] == payload[13] && buf[p + 14]
                == payload[14] && buf[p + 15] == payload[15]);
            assert(be32(buf[p], buf[p + 1], buf[p + 2], buf[p + 3]) == addr0);
            assert(be32(buf[p + 4], buf[p + 5], buf[p + 6], buf[p + 7]) == addr1);
            assert(be32(buf[p + 8], buf[p + 9], buf[p + 10], buf[p + 11]) == addr2);
            assert(be32(buf[p + 12], buf[p + 13], buf[p + 14], buf[p + 15]) == addr3);
        },
        RecordV::UNKNOWN { .. } => {},
    }
}

/// Writes a record's owner name, type code, class 1, time to live and
/// the given data-length value.
fn write_preamble(
    buffer: &mut BytePacketBuffer,
    domain: &Vec<u8>,
    qt: u16,
    ttl: u32,
    dl: u16,
) -> (r: BytePacketBufferResult<()>)
    requires
        old(buffer).wf(),
    ensures
        final(buffer).wf(),
        final(buffer).pos >= old(buffer).pos,
        (r == Ok::<(), BytePacketBufferError>(())) <==> (name_ok(domain@) && old(buffer).pos
            + preamble_bytes(domain@, qt, ttl, dl).len() <= BUFFER_SIZE),
        r == Ok::<(), BytePacketBufferError>(()) ==> final(buffer).buff@
            == old(buffer).buff@.take(old(buffer).pos as int)
            + preamble_bytes(domain@, qt, ttl, dl)
            + old(buffer).buff@.skip(old(buffer).pos + preamble_bytes(domain@, qt, ttl, dl).len())
            && final(buffer).pos == old(buffer).pos + preamble_bytes(domain@, qt, ttl, dl).len(),
        r is Err ==> r->Err_0 == BytePacketBufferError::PosOutOfRange || (r->Err_0
            == (BytePacketBufferError::LabelLengthTooBig {
            length: first_long_label_len(domain@) as usize,
        }) && !name_ok(domain@)),
        (r is Err && name_ok(domain@)) ==> r->Err_0 == BytePacketBufferError::PosOutOfRange,
        (r is Err && !name_ok(domain@) && old(buffer).pos + encoded_name(domain@).len()
            <= BUFFER_SIZE) ==> r->Err_0 == (BytePacketBufferError::LabelLengthTooBig {
            length: first_long_label_len(domain@) as usize,
        }),
{
    let ghost pos0 = old(buffer).pos as int;
    let ghost buf0 = old(buffer).buff@;
    let ghost e = preamble_bytes(domain@, qt, ttl, dl);
    let ghost n = encoded_name(domain@);

    buffer.write_qname(domain)?;
    proof {
        assert(buffer.buff@ =~= buf0.take(pos0) + e.take(n.len() as int) + buf0.skip(
            pos0 + n.len(),
        ));
    }
    buffer.write_u16(qt)?;
    proof {
        assert(e[n.len() as int] == (qt / 256) as u8 && e[n.len() as int + 1] == (qt % 256) as u8);
        assert(buffer.buff@ =~= buf0.take(pos0) + e.take(n.len() as int + 2) + buf0.skip(
            pos0 + n.len() + 2,
        ));
    }
    buffer.write_u16(1)?;
    proof {
        assert(e[n.len() as int + 2] == 0u8 && e[n.len() as int + 3] == 1u8);
        assert(buffer.buff@ =~= buf0.take(pos0) + e.take(n.len() as int + 4) + buf0.skip(
            pos0 + n.len() + 4,
        ));
    }
    buffer.write_u32(ttl)?;
    proof {
        assert(e[n.len() as int + 4] == (ttl / 0x1000000) as u8);
        assert(e[n.len() as int + 5] == ((ttl / 0x10000) % 256) as u8);
        assert(e[n.len() as int + 6] == ((ttl / 256) % 256) as u8);
        assert(e[n.len() as int + 7] == (ttl % 256) as u8);
        assert(buffer.buff@ =~= buf0.take(pos0) + e.take(n.len() as int + 8) + buf0.skip(
            pos0 + n.len() + 8,
        ));
    }
    buffer.write_u16(dl)?;
    proof {
        assert(e[n.len() as int + 8] == (dl / 256) as u8 && e[n.len() as int + 9] == (dl
            % 256) as u8);
        assert(e.take(n.len() as int + 10) =~= e);
        assert(buffer.buff@ =~= buf0.take(pos0) + e + buf0.skip(pos0 + e.len()));
    }
    Ok(())
}

impl DnsRecord {
    /// Reads the record at the buffer position: owner name, type,
    /// ignored class, time to live and data length, then the payload
    /// its type calls for. An uninterpreted type keeps only the
    /// declared length and skips that many payload bytes.
    pub fn read(buffer: &mut BytePacketBuffer) -> (r: BytePacketBufferResult<DnsRecord>)
        requires
            old(buffer).wf(),
        ensures
            final(buffer).wf(),
            final(buffer).buff@ == old(buffer).buff@,
            parse_record_at(old(buffer).buff@, old(buffer).pos as int) matches Ok((rec, end))
                ==> (r matches Ok(res) && res@ == rec && final(buffer).pos == end),
            parse_record_at(old(buffer).buff@, old(buffer).pos as int) matches Err(e) ==> r
                == Err::<DnsRecord, BytePacketBufferError>(e),
    {
        let mut domain: Vec<u8> = Vec::new();
        buffer.read_qname(&mut domain)?;

        let query_type_u16 = buffer.read_u16()?;
        let query_type = QueryType::from_num(query_type_u16);
        let _ = buffer.read_u16()?;
        let ttl = buffer.read_u32()?;
        let data_len = buffer.read_u16()?;

        match query_type {
            QueryType::A => {
                let raw_addr = buffer.read_u32()?;
                Ok(DnsRecord::A { domain, addr: raw_addr, ttl })
            },
            QueryType::NS => {
                let mut ns: Vec<u8> = Vec::new();
                buffer.read_qname(&mut ns)?;
                Ok(DnsRecord::NS { domain, host: ns, ttl })
            },
            QueryType::CNAME => {
                let mut cname: Vec<u8> = Vec::new();
                buffer.read_qname(&mut cname)?;
                Ok(DnsRecord::CNAME { domain, host: cname, ttl })
            },
            QueryType::MX => {
                let priority = buffer.read_u16()?;
                let mut mx: Vec<u8> = Vec::new();
                buffer.read_qname(&mut mx)?;
                Ok(DnsRecord::MX { domain, priority, host: mx, ttl })
            },
            QueryType::AAAA => {
                let raw_addr0 = buffer.read_u32()?;
                let raw_addr1 = buffer.read_u32()?;
                let raw_addr2 = buffer.read_u32()?;
                let raw_addr3 = buffer.read_u32()?;
                Ok(
                    DnsRecord::AAAA {
                        domain,
                        addr0: raw_addr0,
                        addr1: raw_addr1,
                        addr2: raw_addr2,
                        addr3: raw_addr3,
                        ttl,
                    },
                )
            },
            QueryType::UNKNOWN(_) => {
                buffer.step(data_len as usize);
                Ok(
                    DnsRecord::UNKNOWN {
                        domain,
                        query_type: query_type_u16,
                        data_len,
                        ttl,
                    },
                )
            },
        }
    }

    /// Writes the record at the buffer position and returns how many
    /// bytes it took. For the name-bearing payloads the data length is
    /// backpatched after the payload is written; a record of an
    /// uninterpreted type is not written at all.
    pub fn write(&self, buffer: &mut BytePacketBuffer) -> (r: BytePacketBufferResult<usize>)
        requires
            old(buffer).wf(),
        ensures
            final(buffer).wf(),
            final(buffer).pos >= old(buffer).pos,
            self@ matches RecordV::UNKNOWN { .. } ==> r == Ok::<usize, BytePacketBufferError>(0)
                && *final(buffer) == *old(buffer),
            (r is Ok) <==> (self@ matches RecordV::UNKNOWN { .. } || (record_names_ok(self@)
                && old(buffer).pos + encoded_record(self@).len() <= BUFFER_SIZE)),
            (r is Ok && !(self@ matches RecordV::UNKNOWN { .. })) ==> r->Ok_0
                == encoded_record(self@).len() && final(buffer).buff@
                == old(buffer).buff@.take(old(buffer).pos as int) + encoded_record(self@)
                + old(buffer).buff@.skip(old(buffer).pos + encoded_record(self@).len())
                && final(buffer).pos == old(buffer).pos + encoded_record(self@).len(),
            r is Err ==> r->Err_0 == BytePacketBufferError::PosOutOfRange || (r->Err_0 matches
                BytePacketBufferError::LabelLengthTooBig { .. } && !record_names_ok(self@)),
            (r is Err && record_names_ok(self@)) ==> r->Err_0
                == BytePacketBufferError::PosOutOfRange,
    {
        let start_pos = buffer.pos();

        match self {
            DnsRecord::A { domain, addr, ttl } => {
                write_a_body(buffer, domain, *addr, *ttl)?;
            },
            DnsRecord::UNKNOWN { .. } => {
                return Ok(0);
            },
            DnsRecord::AAAA { domain, addr0, addr1, addr2, addr3, ttl } => {
                write_aaaa_body(buffer, domain, *addr0, *addr1, *addr2, *addr3, *ttl)?;
            },
            DnsRecord::NS { domain, host, ttl } => {
                write_host_body(buffer, domain, QueryType::NS.to_num(), *ttl, None, host)?;
            },
            DnsRecord::CNAME { domain, host, ttl } => {
                write_host_body(buffer, domain, QueryType::CNAME.to_num(), *ttl, None, host)?;
            },
            DnsRecord::MX { domain, priority, host, ttl } => {
                write_host_body(
                    buffer,
                    domain,
                    QueryType::MX.to_num(),
                    *ttl,
                    Some(*priority),
                    host,
                )?;
            },
        }

        Ok(buffer.pos() - start_pos)
    }
}

/// The payload an optional preference value and a host name encode to.
pub open spec fn host_payload(priority: Option<u16>, host: Seq<u8>) -> Seq<u8> {
    match priority {
        Some(p) => u16_bytes(p) + encoded_name(host),
        None => encoded_name(host),
    }
}

/// Writes an A record: preamble with data length 4, then the address.
#[verifier::rlimit(100)]
#[verifier::spinoff_prover]
fn write_a_body(buffer: &mut BytePacketBuffer, domain: &Vec<u8>, addr: u32, ttl: u32) -> (r:
    BytePacketBufferResult<()>)
    requires
        old(buffer).wf(),
    ensures
        final(buffer).wf(),
        final(buffer).pos >= old(buffer).pos,
        (r is Ok) <==> (name_ok(domain@) && old(buffer).pos + record_preamble(
            domain@,
            1,
            ttl,
            u32_bytes(addr),
        ).len() <= BUFFER_SIZE),
        r is Ok ==> final(buffer).buff@ == old(buffer).buff@.take(old(buffer).pos as int)
            + record_preamble(domain@, 1, ttl, u32_bytes(addr)) + old(buffer).buff@.skip(
            old(buffer).pos + record_preamble(domain@, 1, ttl, u32_bytes(addr)).len(),
        ) && final(buffer).pos == old(buffer).pos + record_preamble(
            domain@,
            1,
            ttl,
            u32_bytes(addr),
        ).len(),
        r is Err ==> r->Err_0 == BytePacketBufferError::PosOutOfRange || (r->Err_0 matches
            BytePacketBufferError::LabelLengthTooBig { .. } && !name_ok(domain@)),
        (r is Err && name_ok(domain@)) ==> r->Err_0 == BytePacketBufferError::PosOutOfRange,
{
    let ghost pos0 = old(buffer).pos as int;
    let ghost buf0 = old(buffer).buff@;
    let ghost enc = record_preamble(domain@, 1, ttl, u32_bytes(addr));
    write_preamble(buffer, domain, 1, ttl, 4)?;
    let ghost pre = preamble_bytes(domain@, 1, ttl, 4);
    buffer.write_u32(addr)?;
    proof {
        assert(u16_bytes(u32_bytes(addr).len() as u16) =~= u16_bytes(4));
        assert(enc =~= pre + u32_bytes(addr));
        assert(buffer.buff@ =~= buf0.take(pos0) + enc + buf0.skip(pos0 + enc.len()));
    }
    Ok(())
}

/// Writes an AAAA record: preamble with data length 16, then the four
/// address words.
#[verifier::rlimit(100)]
#[verifier::spinoff_prover]
fn write_aaaa_body(
    buffer: &mut BytePacketBuffer,
    domain: &Vec<u8>,
    addr0: u32,
    addr1: u32,
    addr2: u32,
    addr3: u32,
    ttl: u32,
) -> (r: BytePacketBufferResult<()>)
    requires
        old(buffer).wf(),
    ensures
        final(buffer).wf(),
        final(buffer).pos >= old(buffer).pos,
        (r is Ok) <==> (name_ok(domain@) && old(buffer).pos + record_preamble(
            domain@,
            28,
            ttl,
            u32_bytes(addr0) + u32_bytes(addr1) + u32_bytes(addr2) + u32_bytes(addr3),
        ).len() <= BUFFER_SIZE),
        r is Ok ==> final(buffer).buff@ == old(buffer).buff@.take(old(buffer).pos as int)
            + record_preamble(
            domain@,
            28,
            ttl,
            u32_bytes(addr0) + u32_bytes(addr1) + u32_bytes(addr2) + u32_bytes(addr3),
        ) + old(buffer).buff@.skip(
            old(buffer).pos + record_preamble(
                domain@,
                28,
                ttl,
                u32_bytes(addr0) + u32_bytes(addr1) + u32_bytes(addr2) + u32_bytes(addr3),
            ).len(),
        ) && final(buffer).pos == old(buffer).pos + record_preamble(
            domain@,
            28,
            ttl,
            u32_bytes(addr0) + u32_bytes(addr1) + u32_bytes(addr2) + u32_bytes(addr3),
        ).len(),
        r is Err ==> r->Err_0 == BytePacketBufferError::PosOutOfRange || (r->Err_0 matches
            BytePacketBufferError::LabelLengthTooBig { .. } && !name_ok(domain@)),
        (r is Err && name_ok(domain@)) ==> r->Err_0 == BytePacketBufferError::PosOutOfRange,
{
    let ghost pos0 = old(buffer).pos as int;
    let ghost buf0 = old(buffer).buff@;
    let ghost body = u32_bytes(addr0) + u32_bytes(addr1) + u32_bytes(addr2) + u32_bytes(addr3);
    let ghost enc = record_preamble(domain@, 28, ttl, body);
    write_preamble(buffer, domain, 28, ttl, 16)?;
    let ghost pre = preamble_bytes(domain@, 28, ttl, 16);
    buffer.write_u32(addr0)?;
    proof {
        assert(buffer.buff@ =~= buf0.take(pos0) + pre + u32_bytes(addr0) + buf0.skip(
            pos0 + pre.len() + 4,
        ));
    }
    buffer.write_u32(addr1)?;
    proof {
        assert(buffer.buff@ =~= buf0.take(pos0) + pre + u32_bytes(addr0) + u32_bytes(addr1)
            + buf0.skip(pos0 + pre.len() + 8));
    }
    buffer.write_u32(addr2)?;
    proof {
        assert(buffer.buff@ =~= buf0.take(pos0) + pre + u32_bytes(addr0) + u32_bytes(addr1)
            + u32_bytes(addr2) + buf0.skip(pos0 + pre.len() + 12));
    }
    buffer.write_u32(addr3)?;
    proof {
        assert(u16_bytes(body.len() as u16) =~= u16_bytes(16));
        assert(enc =~= pre + body);
        assert(buffer.buff@ =~= buf0.take(pos0) + enc + buf0.skip(pos0 + enc.len()));
    }
    Ok(())
}

/// Writes an NS, CNAME or MX record: preamble with a reserved data
/// length, the payload, then the measured length patched in place.
#[verifier::rlimit(100)]
#[verifier::spinoff_prover]
fn write_host_body(
    buffer: &mut BytePacketBuffer,
    domain: &Vec<u8>,
    qt: u16,
    ttl: u32,
    priority: Option<u16>,
    host: &Vec<u8>,
) -> (r: BytePacketBufferResult<()>)
    requires
        old(buffer).wf(),
    ensures
        final(buffer).wf(),
        final(buffer).pos >= old(buffer).pos,
        (r is Ok) <==> (name_ok(domain@) && name_ok(host@) && old(buffer).pos + record_preamble(
            domain@,
            qt,
            ttl,
            host_payload(priority, host@),
        ).len() <= BUFFER_SIZE),
        r is Ok ==> final(buffer).buff@ == old(buffer).buff@.take(old(buffer).pos as int)
            + record_preamble(domain@, qt, ttl, host_payload(priority, host@)) + old(
            buffer,
        ).buff@.skip(
            old(buffer).pos + record_preamble(
                domain@,
                qt,
                ttl,
                host_payload(priority, host@),
            ).len(),
        ) && final(buffer).pos == old(buffer).pos + record_preamble(
            domain@,
            qt,
            ttl,
            host_payload(priority, host@),
        ).len(),
        r is Err ==> r->Err_0 == BytePacketBufferError::PosOutOfRange || (r->Err_0 matches
            BytePacketBufferError::LabelLengthTooBig { .. } && !(name_ok(domain@) && name_ok(
            host@,
        ))),
        (r is Err && name_ok(domain@) && name_ok(host@)) ==> r->Err_0
            == BytePacketBufferError::PosOutOfRange,
{
    let ghost pos0 = old(buffer).pos as int;
    let ghost buf0 = old(buffer).buff@;
    let ghost body = host_payload(priority, host@);
    let ghost enc = record_preamble(domain@, qt, ttl, body);

    write_preamble(buffer, domain, qt, ttl, 0)?;
    let ghost pre0 = preamble_bytes(domain@, qt, ttl, 0);
    let pos = buffer.pos() - 2;

    if let Some(p) = priority {
        buffer.write_u16(p)?;
        proof {
            assert(buffer.buff@ =~= buf0.take(pos0) + pre0 + u16_bytes(p) + buf0.skip(
                pos0 + pre0.len() + 2,
            ));
        }
    }

    buffer.write_qname(host)?;
    let size = buffer.pos() - (pos + 2);
    proof {
        assert(buffer.buff@ =~= buf0.take(pos0) + pre0 + body + buf0.skip(
            pos0 + pre0.len() + body.len(),
        ));
        assert(size == body.len());
    }
    buffer.set_u16(pos, size as u16);
    proof {
        assert(enc =~= pre0.update(pre0.len() - 2, ((size as u16) / 256) as u8).update(
            pre0.len() - 1,
            ((size as u16) % 256) as u8,
        ) + body);
        assert(buffer.buff@ =~= buf0.take(pos0) + enc + buf0.skip(pos0 + enc.len()));
    }
    Ok(())
}

} // verus!
