//! A whole message: header, questions and the three record sections.

use vstd::prelude::*;

use crate::byte_packet_buffer::{
    name_ok, BytePacketBuffer, BytePacketBufferResult, BUFFER_SIZE,
};
use crate::dns_header::{parse_header, DnsHeader};
use crate::dns_question::{
    encoded_question, parse_question_at, question_parse_err, DnsQuestion, QuestionV,
};
use crate::dns_records::{
    encoded_record, parse_record_at, record_names_ok, DnsRecord, RecordV,
};
use crate::errors::BytePacketBufferError;

verus! {

/// A decoded or to-be-encoded message.
#[derive(Debug, Clone)]
pub struct DnsPacket {
    pub header: DnsHeader,
    pub questions: Vec<DnsQuestion>,
    pub answers: Vec<DnsRecord>,
    pub authorities: Vec<DnsRecord>,
    pub resources: Vec<DnsRecord>,
}

/// The mathematical image of a message.
pub struct PacketV {
    pub header: DnsHeader,
    pub questions: Seq<QuestionV>,
    pub answers: Seq<RecordV>,
    pub authorities: Seq<RecordV>,
    pub resources: Seq<RecordV>,
}

impl View for DnsPacket {
    type V = PacketV;

    open spec fn view(&self) -> PacketV {
        PacketV {
            header: self.header,
            questions: self.questions@.map_values(|q: DnsQuestion| q@),
            answers: self.answers@.map_values(|r: DnsRecord| r@),
            authorities: self.authorities@.map_values(|r: DnsRecord| r@),
            resources: self.resources@.map_values(|r: DnsRecord| r@),
        }
    }
}

/// Parses `n` questions in a row, returning them and the position
/// past the last one.
pub open spec fn parse_questions(buf: Seq<u8>, pos: int, n: nat) -> Result<
    (Seq<QuestionV>, int),
    BytePacketBufferError,
>
    decreases n,
{
    if n == 0 {
        Ok((Seq::empty(), pos))
    } else {
        match parse_question_at(buf, pos) {
            Some((q, end)) => match parse_questions(buf, end, (n - 1) as nat) {
                Ok((qs, e)) => Ok((seq![q] + qs, e)),
                Err(er) => Err(er),
            },
            None => Err(question_parse_err(buf, pos)),
        }
    }
}

/// Parses `n` records in a row, returning them and the position past
/// the last one.
pub open spec fn parse_records(buf: Seq<u8>, pos: int, n: nat) -> Result<
    (Seq<RecordV>, int),
    BytePacketBufferError,
>
    decreases n,
{
    if n == 0 {
        Ok((Seq::empty(), pos))
    } else {
        match parse_record_at(buf, pos) {
            Ok((r, end)) => match parse_records(buf, end, (n - 1) as nat) {
                Ok((rs, e)) => Ok((seq![r] + rs, e)),
                Err(er) => Err(er),
            },
            Err(er) => Err(er),
        }
    }
}

/// The message starting at `pos`: the header, then exactly the
/// declared number of questions, answers, authorities and additional
/// records, in that order.
pub open spec fn parse_packet_at(buf: Seq<u8>, pos: int) -> Result<
    PacketV,
    BytePacketBufferError,
> {
    if pos < 0 || pos + 12 > BUFFER_SIZE {
        Err(BytePacketBufferError::PosOutOfRange)
    } else {
        let h = parse_header(buf, pos);
        match parse_questions(buf, pos + 12, h.questions as nat) {
            Ok((qs, p1)) => match parse_records(buf, p1, h.answers as nat) {
                Ok((ans, p2)) => match parse_records(buf, p2, h.authoritative_entries as nat) {
                    Ok((auth, p3)) => match parse_records(buf, p3, h.resource_entries as nat) {
                        Ok((res, p4)) => Ok(
                            PacketV {
                                header: h,
                                questions: qs,
                                answers: ans,
                                authorities: auth,
                                resources: res,
                            },
                        ),
                        Err(er) => Err(er),
                    },
                    Err(er) => Err(er),
                },
                Err(er) => Err(er),
            },
            Err(er) => Err(er),
        }
    }
}

/// Reads `n` questions in a row. Where a question's class field runs
/// past the capacity the cursor stops at the capacity while the
/// counted position runs past it; both ways the next read fails the
/// same.
fn read_questions(buffer: &mut BytePacketBuffer, n: u16) -> (r: BytePacketBufferResult<
    Vec<DnsQuestion>,
>)
    requires
        old(buffer).wf(),
    ensures
        final(buffer).wf(),
        final(buffer).buff@ == old(buffer).buff@,
        parse_questions(old(buffer).buff@, old(buffer).pos as int, n as nat) matches Ok((qs, e))
            ==> (r matches Ok(v) && v@.map_values(|q: DnsQuestion| q@) == qs
            && (final(buffer).pos == e || (e > BUFFER_SIZE && final(buffer).pos
            == BUFFER_SIZE))),
        parse_questions(old(buffer).buff@, old(buffer).pos as int, n as nat) matches Err(er)
            ==> r == Err::<Vec<DnsQuestion>, BytePacketBufferError>(er),
{
    let ghost buf = old(buffer).buff@;
    let ghost pos0 = old(buffer).pos as int;

    let mut out: Vec<DnsQuestion> = Vec::new();
    let ghost mut sp: int = pos0;

    let mut i: usize = 0;
    while i < n as usize
        invariant
            buf == old(buffer).buff@,
            pos0 == old(buffer).pos as int,
            buffer.wf(),
            buffer.buff@ == buf,
            i <= n,
            out@.len() == i,
            buffer.pos == sp || (sp > BUFFER_SIZE && buffer.pos == BUFFER_SIZE),
            ({
                let rem = parse_questions(buf, sp, (n - i) as nat);
                &&& (rem matches Ok((qs, e)) ==> parse_questions(buf, pos0, n as nat)
                    == Ok::<_, BytePacketBufferError>(
                    (out@.map_values(|q: DnsQuestion| q@) + qs, e),
                ))
                &&& (rem matches Err(er) ==> parse_questions(buf, pos0, n as nat) == Err::<
                    (Seq<QuestionV>, int),
                    _,
                >(er))
            }),
        decreases n - i,
    {
        let ghost pos_exec = buffer.pos as int;
        proof {
            if pos_exec != sp {
                // Both positions sit at or past the capacity: the next
                // question fails the same way from either.
                assert(parse_question_at(buf, sp) is None);
                assert(parse_question_at(buf, pos_exec) is None);
                assert(question_parse_err(buf, sp) == BytePacketBufferError::PosOutOfRange);
                assert(question_parse_err(buf, pos_exec)
                    == BytePacketBufferError::PosOutOfRange);
            }
        }
        let q = DnsQuestion::from_buffer(buffer)?;
        proof {
            let (qv, end) = parse_question_at(buf, sp)->Some_0;
            assert(out@.push(q).map_values(|q: DnsQuestion| q@) =~= out@.map_values(
                |q: DnsQuestion| q@,
            ) + seq![qv]);
            assert forall|qs2: Seq<QuestionV>|
                (out@.map_values(|q: DnsQuestion| q@) + seq![qv]) + qs2 =~= out@.map_values(
                    |q: DnsQuestion| q@,
                ) + (seq![qv] + qs2) by {}
            sp = end;
        }
        out.push(q);
        i = i + 1;
    }
    proof {
        assert(out@.map_values(|q: DnsQuestion| q@) + Seq::<QuestionV>::empty() =~= out@
            .map_values(|q: DnsQuestion| q@));
    }
    Ok(out)
}

/// Reads `n` records in a row.
fn read_records(buffer: &mut BytePacketBuffer, n: u16) -> (r: BytePacketBufferResult<
    Vec<DnsRecord>,
>)
    requires
        old(buffer).wf(),
    ensures
        final(buffer).wf(),
        final(buffer).buff@ == old(buffer).buff@,
        parse_records(old(buffer).buff@, old(buffer).pos as int, n as nat) matches Ok((rs, e))
            ==> (r matches Ok(v) && v@.map_values(|rec: DnsRecord| rec@) == rs
            && final(buffer).pos == e),
        parse_records(old(buffer).buff@, old(buffer).pos as int, n as nat) matches Err(er) ==> r
            == Err::<Vec<DnsRecord>, BytePacketBufferError>(er),
{
    let ghost buf = old(buffer).buff@;
    let ghost pos0 = old(buffer).pos as int;

    let mut out: Vec<DnsRecord> = Vec::new();

    let mut i: usize = 0;
    while i < n as usize
        invariant
            buf == old(buffer).buff@,
            pos0 == old(buffer).pos as int,
            buffer.wf(),
            buffer.buff@ == buf,
            i <= n,
            out@.len() == i,
            ({
                let rem = parse_records(buf, buffer.pos as int, (n - i) as nat);
                &&& (rem matches Ok((rs, e)) ==> parse_records(buf, pos0, n as nat)
                    == Ok::<_, BytePacketBufferError>(
                    (out@.map_values(|rec: DnsRecord| rec@) + rs, e),
                ))
                &&& (rem matches Err(er) ==> parse_records(buf, pos0, n as nat) == Err::<
                    (Seq<RecordV>, int),
                    _,
                >(er))
            }),
        decreases n - i,
    {
        let ghost pos_exec = buffer.pos as int;
        let rec = DnsRecord::read(buffer)?;
        proof {
            let (rv, end) = parse_record_at(buf, pos_exec)->Ok_0;
            assert(out@.push(rec).map_values(|r2: DnsRecord| r2@) =~= out@.map_values(
                |r2: DnsRecord| r2@,
            ) + seq![rv]);
            assert forall|rs2: Seq<RecordV>|
                (out@.map_values(|r2: DnsRecord| r2@) + seq![rv]) + rs2 =~= out@.map_values(
                    |r2: DnsRecord| r2@,
                ) + (seq![rv] + rs2) by {}
        }
        out.push(rec);
        i = i + 1;
    }
    proof {
        assert(out@.map_values(|rec: DnsRecord| rec@) + Seq::<RecordV>::empty() =~= out@
            .map_values(|rec: DnsRecord| rec@));
    }
    Ok(out)
}

/// The concatenated encodings of a run of questions.
pub open spec fn encoded_questions(qs: Seq<QuestionV>) -> Seq<u8>
    decreases qs.len(),
{
    if qs.len() == 0 {
        Seq::empty()
    } else {
        encoded_question(qs[0]) + encoded_questions(qs.skip(1))
    }
}

/// The concatenated encodings of a run of records.
pub open spec fn encoded_records(rs: Seq<RecordV>) -> Seq<u8>
    decreases rs.len(),
{
    if rs.len() == 0 {
        Seq::empty()
    } else {
        encoded_record(rs[0]) + encoded_records(rs.skip(1))
    }
}

/// The header with its counts overwritten by the actual section
/// lengths, as the encoder emits it.
pub open spec fn normalized_header(p: PacketV) -> DnsHeader {
    DnsHeader {
        questions: (p.questions.len() % 0x10000) as u16,
        answers: (p.answers.len() % 0x10000) as u16,
        authoritative_entries: (p.authorities.len() % 0x10000) as u16,
        resource_entries: (p.resources.len() % 0x10000) as u16,
        ..p.header
    }
}

/// Whether every name in a message can be written.
pub open spec fn packet_names_ok(p: PacketV) -> bool {
    &&& forall|i: int| 0 <= i < p.questions.len() ==> name_ok(#[trigger] p.questions[i].name)
    &&& forall|i: int| 0 <= i < p.answers.len() ==> record_names_ok(#[trigger] p.answers[i])
    &&& forall|i: int|
        0 <= i < p.authorities.len() ==> record_names_ok(#[trigger] p.authorities[i])
    &&& forall|i: int| 0 <= i < p.resources.len() ==> record_names_ok(#[trigger] p.resources[i])
}

/// The wire bytes a message encodes to: the normalized header, then
/// the four sections in order.
pub open spec fn encoded_packet(p: PacketV) -> Seq<u8> {
    normalized_header(p).encoded() + encoded_questions(p.questions) + encoded_records(p.answers)
        + encoded_records(p.authorities) + encoded_records(p.resources)
}

/// Writes a run of questions at the buffer position.
#[verifier::rlimit(100)]
#[verifier::spinoff_prover]
fn write_questions(buffer: &mut BytePacketBuffer, questions: &Vec<DnsQuestion>) -> (r:
    BytePacketBufferResult<()>)
    requires
        old(buffer).wf(),
    ensures
        final(buffer).wf(),
        final(buffer).pos >= old(buffer).pos,
        (r is Ok) <==> ((forall|i: int|
            0 <= i < questions@.len() ==> name_ok(#[trigger] questions@[i]@.name)) && (
        questions@.len() == 0 || old(buffer).pos + encoded_questions(
            questions@.map_values(|q: DnsQuestion| q@),
        ).len() <= BUFFER_SIZE)),
        questions@.len() == 0 ==> r is Ok && *final(buffer) == *old(buffer),
        (r is Ok && questions@.len() > 0) ==> final(buffer).buff@ == old(buffer).buff@.take(old(buffer).pos as int)
            + encoded_questions(questions@.map_values(|q: DnsQuestion| q@))
            + old(buffer).buff@.skip(
            old(buffer).pos + encoded_questions(
                questions@.map_values(|q: DnsQuestion| q@),
            ).len(),
        ) && final(buffer).pos == old(buffer).pos + encoded_questions(
            questions@.map_values(|q: DnsQuestion| q@),
        ).len(),
        r is Err ==> r->Err_0 == BytePacketBufferError::PosOutOfRange || (r->Err_0 matches
            BytePacketBufferError::LabelLengthTooBig { .. } && !(forall|i: int|
            0 <= i < questions@.len() ==> name_ok(#[trigger] questions@[i]@.name))),
{
    let ghost buf0 = old(buffer).buff@;
    let ghost pos0 = old(buffer).pos as int;
    let ghost qs = questions@.map_values(|q: DnsQuestion| q@);
    let ghost e = encoded_questions(qs);

    if questions.len() == 0 {
        proof {
            assert(qs =~= Seq::<QuestionV>::empty());
        }
        return Ok(());
    }
    if buffer.pos() > BUFFER_SIZE {
        proof {
            crate::byte_packet_buffer::lemma_encoded_name_nonempty(qs[0].name);
            assert(e == encoded_question(qs[0]) + encoded_questions(qs.skip(1)));
        }
        return Err(BytePacketBufferError::PosOutOfRange);
    }

    proof {
        assert(qs.skip(0) =~= qs);
        assert(buffer.buff@.subrange(pos0, pos0) + encoded_questions(qs.skip(0)) =~= e);
    }

    let mut i: usize = 0;
    while i < questions.len()
        invariant
            buf0 == old(buffer).buff@,
            pos0 == old(buffer).pos as int,
            qs == questions@.map_values(|q: DnsQuestion| q@),
            e == encoded_questions(qs),
            buffer.wf(),
            i <= questions@.len(),
            pos0 <= buffer.pos <= BUFFER_SIZE,
            forall|m: int| 0 <= m < pos0 ==> buffer.buff@[m] == buf0[m],
            forall|m: int| buffer.pos <= m < BUFFER_SIZE ==> buffer.buff@[m] == buf0[m],
            e == buffer.buff@.subrange(pos0, buffer.pos as int) + encoded_questions(
                qs.skip(i as int),
            ),
            forall|j: int| 0 <= j < i ==> name_ok(#[trigger] qs[j].name),
        decreases questions@.len() - i,
    {
        let ghost delta = buffer.buff@.subrange(pos0, buffer.pos as int);
        let ghost p_prev = buffer.pos as int;
        let ghost buff_prev = buffer.buff@;
        proof {
            assert(qs.skip(i as int)[0] == qs[i as int]);
            assert(qs.skip(i as int).skip(1) =~= qs.skip(i + 1));
            assert(encoded_questions(qs.skip(i as int)) == encoded_question(qs[i as int])
                + encoded_questions(qs.skip(i + 1)));
        }
        let q = &questions[i];
        proof {
            assert(q@ == qs[i as int]);
        }
        match q.write(buffer) {
            Err(e2) => {
                proof {
                    if name_ok(qs[i as int].name) {
                        assert(pos0 + e.len() > BUFFER_SIZE);
                    }
                }
                return Err(e2);
            },
            Ok(()) => {},
        }
        proof {
            assert(q@ == qs[i as int]);
            let eq = encoded_question(qs[i as int]);
            assert(buffer.buff@ == buff_prev.take(p_prev) + eq + buff_prev.skip(
                p_prev + eq.len(),
            ));
            assert forall|m: int| 0 <= m < pos0 implies buffer.buff@[m] == buf0[m] by {
                assert(buffer.buff@[m] == buff_prev[m]);
            }
            assert forall|m: int|
                buffer.pos <= m < BUFFER_SIZE implies buffer.buff@[m] == buf0[m] by {
                assert(buffer.buff@[m] == buff_prev[m]);
            }
            assert(buffer.buff@.subrange(pos0, buffer.pos as int) =~= delta + eq);
        }
        i = i + 1;
    }
    proof {
        assert(qs.skip(qs.len() as int) =~= Seq::<QuestionV>::empty());
        assert(buffer.buff@.subrange(pos0, buffer.pos as int) == e);
        assert(buffer.buff@ =~= buf0.take(pos0) + e + buf0.skip(pos0 + e.len()));
        assert forall|j: int|
            0 <= j < questions@.len() implies name_ok(#[trigger] questions@[j]@.name) by {
            assert(qs[j] == questions@[j]@);
        }
    }
    Ok(())
}

/// Writes a run of records at the buffer position. Records of an
/// uninterpreted type take no bytes.
#[verifier::rlimit(100)]
#[verifier::spinoff_prover]
fn write_records(buffer: &mut BytePacketBuffer, records: &Vec<DnsRecord>) -> (r:
    BytePacketBufferResult<()>)
    requires
        old(buffer).wf(),
    ensures
        final(buffer).wf(),
        final(buffer).pos >= old(buffer).pos,
        (r is Ok) <==> ((forall|i: int|
            0 <= i < records@.len() ==> record_names_ok(#[trigger] records@[i]@)) && (
        encoded_records(records@.map_values(|rec: DnsRecord| rec@)).len() == 0 || old(
            buffer,
        ).pos + encoded_records(records@.map_values(|rec: DnsRecord| rec@)).len()
            <= BUFFER_SIZE)),
        encoded_records(records@.map_values(|rec: DnsRecord| rec@)).len() == 0 ==> (r is Ok
            ==> final(buffer).buff@ == old(buffer).buff@ && final(buffer).pos == old(
            buffer,
        ).pos),
        (r is Ok && encoded_records(records@.map_values(|rec: DnsRecord| rec@)).len() > 0)
            ==> final(buffer).buff@ == old(buffer).buff@.take(old(buffer).pos as int)
            + encoded_records(records@.map_values(|rec: DnsRecord| rec@))
            + old(buffer).buff@.skip(
            old(buffer).pos + encoded_records(
                records@.map_values(|rec: DnsRecord| rec@),
            ).len(),
        ) && final(buffer).pos == old(buffer).pos + encoded_records(
            records@.map_values(|rec: DnsRecord| rec@),
        ).len(),
        r is Err ==> r->Err_0 == BytePacketBufferError::PosOutOfRange || (r->Err_0 matches
            BytePacketBufferError::LabelLengthTooBig { .. } && !(forall|i: int|
            0 <= i < records@.len() ==> record_names_ok(#[trigger] records@[i]@))),
{
    let ghost buf0 = old(buffer).buff@;
    let ghost pos0 = old(buffer).pos as int;
    let ghost rs = records@.map_values(|rec: DnsRecord| rec@);
    let ghost e = encoded_records(rs);

    if buffer.pos() > BUFFER_SIZE {
        return write_records_overflowing(buffer, records);
    }

    proof {
        assert(rs.skip(0) =~= rs);
        assert(buffer.buff@.subrange(pos0, pos0) + encoded_records(rs.skip(0)) =~= e);
    }

    let mut i: usize = 0;
    while i < records.len()
        invariant
            buf0 == old(buffer).buff@,
            pos0 == old(buffer).pos as int,
            rs == records@.map_values(|rec: DnsRecord| rec@),
            e == encoded_records(rs),
            buffer.wf(),
            i <= records@.len(),
            pos0 <= buffer.pos <= BUFFER_SIZE,
            forall|m: int| 0 <= m < pos0 ==> buffer.buff@[m] == buf0[m],
            forall|m: int| buffer.pos <= m < BUFFER_SIZE ==> buffer.buff@[m] == buf0[m],
            e == buffer.buff@.subrange(pos0, buffer.pos as int) + encoded_records(
                rs.skip(i as int),
            ),
            forall|j: int| 0 <= j < i ==> record_names_ok(#[trigger] rs[j]),
        decreases records@.len() - i,
    {
        let ghost delta = buffer.buff@.subrange(pos0, buffer.pos as int);
        let ghost p_prev = buffer.pos as int;
        let ghost buff_prev = buffer.buff@;
        proof {
            assert(rs.skip(i as int)[0] == rs[i as int]);
            assert(rs.skip(i as int).skip(1) =~= rs.skip(i + 1));
            assert(encoded_records(rs.skip(i as int)) == encoded_record(rs[i as int])
                + encoded_records(rs.skip(i + 1)));
        }
        let rec = &records[i];
        proof {
            assert(rec@ == rs[i as int]);
        }
        match rec.write(buffer) {
            Err(e2) => {
                proof {
                    if record_names_ok(rs[i as int]) {
                        assert(pos0 + e.len() > BUFFER_SIZE);
                    }
                }
                return Err(e2);
            },
            Ok(_) => {},
        }
        proof {
            let er = encoded_record(rs[i as int]);
            if rs[i as int] matches RecordV::UNKNOWN { .. } {
                assert(er =~= Seq::<u8>::empty());
                assert(buffer.buff@.subrange(pos0, buffer.pos as int) =~= delta + er);
            } else {
                assert(buffer.buff@ == buff_prev.take(p_prev) + er + buff_prev.skip(
                    p_prev + er.len(),
                ));
                assert forall|m: int| 0 <= m < pos0 implies buffer.buff@[m] == buf0[m] by {
                    assert(buffer.buff@[m] == buff_prev[m]);
                }
                assert forall|m: int|
                    buffer.pos <= m < BUFFER_SIZE implies buffer.buff@[m] == buf0[m] by {
                    assert(buffer.buff@[m] == buff_prev[m]);
                }
                assert(buffer.buff@.subrange(pos0, buffer.pos as int) =~= delta + er);
            }
        }
        i = i + 1;
    }
    proof {
        assert(rs.skip(rs.len() as int) =~= Seq::<RecordV>::empty());
        assert(buffer.buff@.subrange(pos0, buffer.pos as int) == e);
        assert(buffer.buff@ =~= buf0.take(pos0) + e + buf0.skip(pos0 + e.len()));
        if e.len() == 0 {
            assert(buffer.buff@ =~= buf0);
        }
        assert forall|j: int|
            0 <= j < records@.len() implies record_names_ok(#[trigger] records@[j]@) by {
            assert(rs[j] == records@[j]@);
        }
    }
    Ok(())
}

/// Writes a run of records whose cursor already stands past the
/// capacity: only a run that takes no bytes can succeed.
#[verifier::rlimit(100)]
#[verifier::spinoff_prover]
fn write_records_overflowing(buffer: &mut BytePacketBuffer, records: &Vec<DnsRecord>) -> (r:
    BytePacketBufferResult<()>)
    requires
        old(buffer).wf(),
        old(buffer).pos > BUFFER_SIZE,
    ensures
        final(buffer).wf(),
        final(buffer).pos >= old(buffer).pos,
        (r is Ok) <==> ((forall|i: int|
            0 <= i < records@.len() ==> record_names_ok(#[trigger] records@[i]@)) && (
        encoded_records(records@.map_values(|rec: DnsRecord| rec@)).len() == 0 || old(
            buffer,
        ).pos + encoded_records(records@.map_values(|rec: DnsRecord| rec@)).len()
            <= BUFFER_SIZE)),
        encoded_records(records@.map_values(|rec: DnsRecord| rec@)).len() == 0 ==> (r is Ok
            ==> final(buffer).buff@ == old(buffer).buff@ && final(buffer).pos == old(
            buffer,
        ).pos),
        (r is Ok && encoded_records(records@.map_values(|rec: DnsRecord| rec@)).len() > 0)
            ==> final(buffer).buff@ == old(buffer).buff@.take(old(buffer).pos as int)
            + encoded_records(records@.map_values(|rec: DnsRecord| rec@))
            + old(buffer).buff@.skip(
            old(buffer).pos + encoded_records(
                records@.map_values(|rec: DnsRecord| rec@),
            ).len(),
        ) && final(buffer).pos == old(buffer).pos + encoded_records(
            records@.map_values(|rec: DnsRecord| rec@),
        ).len(),
        r is Err ==> r->Err_0 == BytePacketBufferError::PosOutOfRange || (r->Err_0 matches
            BytePacketBufferError::LabelLengthTooBig { .. } && !(forall|i: int|
            0 <= i < records@.len() ==> record_names_ok(#[trigger] records@[i]@))),
{
    let ghost rs = records@.map_values(|rec: DnsRecord| rec@);
    let ghost e = encoded_records(rs);

    proof {
        assert(rs.skip(0) =~= rs);
    }

    let mut i: usize = 0;
    while i < records.len()
        invariant
            rs == records@.map_values(|rec: DnsRecord| rec@),
            e == encoded_records(rs),
            old(buffer).pos > BUFFER_SIZE,
            buffer.wf(),
            *buffer == *old(buffer),
            i <= records@.len(),
            e == encoded_records(rs.skip(i as int)),
            forall|j: int| 0 <= j < i ==> record_names_ok(#[trigger] rs[j]),
        decreases records@.len() - i,
    {
        proof {
            assert(rs.skip(i as int)[0] == rs[i as int]);
            assert(rs.skip(i as int).skip(1) =~= rs.skip(i + 1));
            assert(encoded_records(rs.skip(i as int)) == encoded_record(rs[i as int])
                + encoded_records(rs.skip(i + 1)));
        }
        let rec = &records[i];
        proof {
            assert(rec@ == rs[i as int]);
        }
        match rec {
            DnsRecord::UNKNOWN { .. } => {
                proof {
                    assert(encoded_record(rs[i as int]) =~= Seq::<u8>::empty());
                }
            },
            _ => {
                // A record that takes bytes cannot start past the
                // capacity; its first write fails there.
                proof {
                    assert(encoded_record(rs[i as int]).len() >= 10);
                }
                return Err(BytePacketBufferError::PosOutOfRange);
            },
        }
        i = i + 1;
    }
    proof {
        assert(rs.skip(rs.len() as int) =~= Seq::<RecordV>::empty());
        assert forall|j: int|
            0 <= j < records@.len() implies record_names_ok(#[trigger] records@[j]@) by {
            assert(rs[j] == records@[j]@);
        }
    }
    Ok(())
}

impl DnsPacket {
    /// An empty message under a blank header.
    pub fn new() -> (r: Self)
        ensures
            r@.header == DnsHeader::blank(),
            r@.questions == Seq::<QuestionV>::empty(),
            r@.answers == Seq::<RecordV>::empty(),
            r@.authorities == Seq::<RecordV>::empty(),
            r@.resources == Seq::<RecordV>::empty(),
    {
        let r = DnsPacket {
            header: DnsHeader::new(),
            questions: Vec::new(),
            answers: Vec::new(),
            authorities: Vec::new(),
            resources: Vec::new(),
        };
        proof {
            assert(r@.questions =~= Seq::<QuestionV>::empty());
            assert(r@.answers =~= Seq::<RecordV>::empty());
            assert(r@.authorities =~= Seq::<RecordV>::empty());
            assert(r@.resources =~= Seq::<RecordV>::empty());
        }
        r
    }

    /// Decodes the message at the buffer position, reading exactly the
    /// counts the header declares.
    pub fn from_buffer(buffer: &mut BytePacketBuffer) -> (r: BytePacketBufferResult<DnsPacket>)
        requires
            old(buffer).wf(),
        ensures
            final(buffer).wf(),
            final(buffer).buff@ == old(buffer).buff@,
            parse_packet_at(old(buffer).buff@, old(buffer).pos as int) matches Ok(pv) ==> (
            r matches Ok(p) && p@.header == pv.header && p@.questions == pv.questions
                && p@.answers == pv.answers && p@.authorities == pv.authorities && p@.resources
                == pv.resources),
            parse_packet_at(old(buffer).buff@, old(buffer).pos as int) matches Err(e) ==> r
                == Err::<DnsPacket, BytePacketBufferError>(e),
    {
        let ghost buf = old(buffer).buff@;
        let ghost pos0 = old(buffer).pos as int;

        let mut result = DnsPacket::new();
        result.header.read(buffer)?;
        let ghost h = parse_header(buf, pos0);

        let questions = read_questions(buffer, result.header.questions)?;
        let ghost p1 = parse_questions(buf, pos0 + 12, h.questions as nat)->Ok_0.1;
        proof {
            if buffer.pos != p1 {
                // The counted position ran past the capacity while the
                // cursor stopped at it; the next section behaves the
                // same from either.
                if h.answers == 0 {
                    assert(parse_records(buf, p1, 0) == Ok::<_, BytePacketBufferError>(
                        (Seq::<RecordV>::empty(), p1),
                    ));
                    assert(parse_records(buf, buffer.pos as int, 0)
                        == Ok::<_, BytePacketBufferError>(
                        (Seq::<RecordV>::empty(), buffer.pos as int),
                    ));
                } else {
                    assert(parse_records(buf, p1, h.answers as nat) == Err::<(Seq<RecordV>, int), _>(
                        BytePacketBufferError::PosOutOfRange,
                    ));
                    assert(parse_records(buf, buffer.pos as int, h.answers as nat) == Err::<
                        (Seq<RecordV>, int),
                        _,
                    >(BytePacketBufferError::PosOutOfRange));
                }
            }
        }
        let answers = read_records(buffer, result.header.answers)?;
        let ghost p2 = parse_records(buf, p1, h.answers as nat)->Ok_0.1;
        proof {
            if buffer.pos != p2 {
                // The counted position ran past the capacity while the
                // cursor stopped at it; the next section behaves the
                // same from either.
                if h.authoritative_entries == 0 {
                    assert(parse_records(buf, p2, 0) == Ok::<_, BytePacketBufferError>(
                        (Seq::<RecordV>::empty(), p2),
                    ));
                    assert(parse_records(buf, buffer.pos as int, 0)
                        == Ok::<_, BytePacketBufferError>(
                        (Seq::<RecordV>::empty(), buffer.pos as int),
                    ));
                } else {
                    assert(parse_records(buf, p2, h.authoritative_entries as nat) == Err::<(Seq<RecordV>, int), _>(
                        BytePacketBufferError::PosOutOfRange,
                    ));
                    assert(parse_records(buf, buffer.pos as int, h.authoritative_entries as nat) == Err::<
                        (Seq<RecordV>, int),
                        _,
                    >(BytePacketBufferError::PosOutOfRange));
                }
            }
        }
        let authorities = read_records(buffer, result.header.authoritative_entries)?;
        let ghost p3 = parse_records(buf, p2, h.authoritative_entries as nat)->Ok_0.1;
        proof {
            if buffer.pos != p3 {
                // The counted position ran past the capacity while the
                // cursor stopped at it; the next section behaves the
                // same from either.
                if h.resource_entries == 0 {
                    assert(parse_records(buf, p3, 0) == Ok::<_, BytePacketBufferError>(
                        (Seq::<RecordV>::empty(), p3),
                    ));
                    assert(parse_records(buf, buffer.pos as int, 0)
                        == Ok::<_, BytePacketBufferError>(
                        (Seq::<RecordV>::empty(), buffer.pos as int),
                    ));
                } else {
                    assert(parse_records(buf, p3, h.resource_entries as nat) == Err::<(Seq<RecordV>, int), _>(
                        BytePacketBufferError::PosOutOfRange,
                    ));
                    assert(parse_records(buf, buffer.pos as int, h.resource_entries as nat) == Err::<
                        (Seq<RecordV>, int),
                        _,
                    >(BytePacketBufferError::PosOutOfRange));
                }
            }
        }
        let resources = read_records(buffer, result.header.resource_entries)?;

        result.questions = questions;
        result.answers = answers;
        result.authorities = authorities;
        result.resources = resources;
        Ok(result)
    }

    /// Encodes the message at the buffer position. The header's four
    /// counts are first overwritten with the actual section lengths.
    #[verifier::rlimit(100)]
    #[verifier::spinoff_prover]
    pub fn write(&mut self, buffer: &mut BytePacketBuffer) -> (r: BytePacketBufferResult<()>)
        requires
            old(buffer).wf(),
        ensures
            final(buffer).wf(),
            final(buffer).pos >= old(buffer).pos,
            final(self).header == normalized_header(old(self)@),
            final(self)@.questions == old(self)@.questions,
            final(self)@.answers == old(self)@.answers,
            final(self)@.authorities == old(self)@.authorities,
            final(self)@.resources == old(self)@.resources,
            (r is Ok) <==> (packet_names_ok(old(self)@) && old(buffer).pos + encoded_packet(
                old(self)@,
            ).len() <= BUFFER_SIZE),
            r is Ok ==> final(buffer).buff@ == old(buffer).buff@.take(old(buffer).pos as int)
                + encoded_packet(old(self)@) + old(buffer).buff@.skip(
                old(buffer).pos + encoded_packet(old(self)@).len(),
            ) && final(buffer).pos == old(buffer).pos + encoded_packet(old(self)@).len(),
            r is Err ==> r->Err_0 == BytePacketBufferError::PosOutOfRange || (r->Err_0 matches
                BytePacketBufferError::LabelLengthTooBig { .. } && !packet_names_ok(old(self)@)),
            (r is Err && packet_names_ok(old(self)@)) ==> r->Err_0
                == BytePacketBufferError::PosOutOfRange,
    {
        let ghost pv = old(self)@;
        let ghost e = encoded_packet(pv);
        let ghost buf0 = old(buffer).buff@;
        let ghost pos0 = old(buffer).pos as int;

        self.header.questions = (self.questions.len() % 0x10000) as u16;
        self.header.answers = (self.answers.len() % 0x10000) as u16;
        self.header.authoritative_entries = (self.authorities.len() % 0x10000) as u16;
        self.header.resource_entries = (self.resources.len() % 0x10000) as u16;
        proof {
            assert(self.header == normalized_header(pv));
        }

        let ghost eh = normalized_header(pv).encoded();
        let ghost es = encoded_questions(pv.questions) + (encoded_records(pv.answers)
            + encoded_records(pv.authorities) + encoded_records(pv.resources));
        proof {
            assert(e =~= eh + es);
        }

        match self.header.write(buffer) {
            Err(e2) => {
                return Err(e2);
            },
            Ok(()) => {},
        }
        let ghost b1 = buffer.buff@;
        proof {
            assert(b1 =~= buf0.take(pos0) + eh + buf0.skip(pos0 + eh.len()));
        }

        match write_sections(buffer, &self.questions, &self.answers, &self.authorities,
            &self.resources) {
            Err(e2) => {
                proof {
                    if packet_names_ok(pv) {
                        assert(questions_names_ok(self.questions@.map_values(
                            |q: DnsQuestion| q@,
                        )));
                        assert(records_names_ok(self.answers@.map_values(|x: DnsRecord| x@)));
                        assert(records_names_ok(self.authorities@.map_values(
                            |x: DnsRecord| x@,
                        )));
                        assert(records_names_ok(self.resources@.map_values(|x: DnsRecord| x@)));
                        assert(pos0 + e.len() > BUFFER_SIZE);
                    }
                }
                return Err(e2);
            },
            Ok(()) => {},
        }

        proof {
            lemma_splice_chain(buf0, b1, buffer.buff@, pos0, eh, es);
        }
        Ok(())
    }
}

/// Chaining two in-place splices of one buffer gives the splice of
/// the concatenated segments.
proof fn lemma_splice_chain(b0: Seq<u8>, b1: Seq<u8>, b2: Seq<u8>, pos: int, s1: Seq<u8>, s2: Seq<u8>)
    requires
        0 <= pos,
        pos + s1.len() + s2.len() <= b0.len(),
        b1 == b0.take(pos) + s1 + b0.skip(pos + s1.len()),
        b2 == b1.take(pos + s1.len()) + s2 + b1.skip(pos + s1.len() + s2.len()),
    ensures
        b2 == b0.take(pos) + (s1 + s2) + b0.skip(pos + s1.len() + s2.len()),
{
    assert(b2 =~= b0.take(pos) + (s1 + s2) + b0.skip(pos + s1.len() + s2.len()));
}

/// Every question in a run has a writable name.
pub open spec fn questions_names_ok(questions: Seq<QuestionV>) -> bool {
    forall|i: int| 0 <= i < questions.len() ==> name_ok(#[trigger] questions[i].name)
}

/// Every record in a run has writable names.
pub open spec fn records_names_ok(records: Seq<RecordV>) -> bool {
    forall|i: int| 0 <= i < records.len() ==> record_names_ok(#[trigger] records[i])
}

/// The packaged form of a question run's name condition matches the
/// elementwise one.
proof fn lemma_questions_names_bridge(questions: Seq<DnsQuestion>)
    ensures
        questions_names_ok(questions.map_values(|q: DnsQuestion| q@)) <==> (forall|i: int|
            0 <= i < questions.len() ==> name_ok(#[trigger] questions[i]@.name)),
{
    let qs = questions.map_values(|q: DnsQuestion| q@);
    if forall|i: int| 0 <= i < questions.len() ==> name_ok(#[trigger] questions[i]@.name) {
        assert forall|i: int| 0 <= i < qs.len() implies name_ok(#[trigger] qs[i].name) by {
            assert(qs[i] == questions[i]@);
        }
    }
    if questions_names_ok(qs) {
        assert forall|i: int|
            0 <= i < questions.len() implies name_ok(#[trigger] questions[i]@.name) by {
            assert(qs[i] == questions[i]@);
        }
    }
}

/// The packaged form of a record run's name condition matches the
/// elementwise one.
proof fn lemma_records_names_bridge(records: Seq<DnsRecord>)
    ensures
        records_names_ok(records.map_values(|rec: DnsRecord| rec@)) <==> (forall|i: int|
            0 <= i < records.len() ==> record_names_ok(#[trigger] records[i]@)),
{
    let rs = records.map_values(|rec: DnsRecord| rec@);
    if forall|i: int| 0 <= i < records.len() ==> record_names_ok(#[trigger] records[i]@) {
        assert forall|i: int| 0 <= i < rs.len() implies record_names_ok(#[trigger] rs[i]) by {
            assert(rs[i] == records[i]@);
        }
    }
    if records_names_ok(rs) {
        assert forall|i: int|
            0 <= i < records.len() implies record_names_ok(#[trigger] records[i]@) by {
            assert(rs[i] == records[i]@);
        }
    }
}

/// Writes the four sections of a message in order.
#[verifier::rlimit(100)]
#[verifier::spinoff_prover]
fn write_sections(
    buffer: &mut BytePacketBuffer,
    questions: &Vec<DnsQuestion>,
    answers: &Vec<DnsRecord>,
    authorities: &Vec<DnsRecord>,
    resources: &Vec<DnsRecord>,
) -> (r: BytePacketBufferResult<()>)
    requires
        old(buffer).wf(),
        old(buffer).pos <= BUFFER_SIZE,
    ensures
        final(buffer).wf(),
        final(buffer).pos >= old(buffer).pos,
        ({
            let eq = encoded_questions(questions@.map_values(|q: DnsQuestion| q@));
            let et = encoded_records(answers@.map_values(|rec: DnsRecord| rec@))
                + encoded_records(authorities@.map_values(|rec: DnsRecord| rec@))
                + encoded_records(resources@.map_values(|rec: DnsRecord| rec@));
            let es = eq + et;
            let names = questions_names_ok(questions@.map_values(|q: DnsQuestion| q@))
                && records_names_ok(answers@.map_values(|rec: DnsRecord| rec@))
                && records_names_ok(authorities@.map_values(|rec: DnsRecord| rec@))
                && records_names_ok(resources@.map_values(|rec: DnsRecord| rec@));
            &&& ((r is Ok) <==> (names && old(buffer).pos + es.len() <= BUFFER_SIZE))
            &&& (r is Ok ==> final(buffer).buff@ == old(buffer).buff@.take(
                old(buffer).pos as int,
            ) + es + old(buffer).buff@.skip(old(buffer).pos + es.len()) && final(buffer).pos
                == old(buffer).pos + es.len())
            &&& (r is Err ==> r->Err_0 == BytePacketBufferError::PosOutOfRange || (r->Err_0
                matches BytePacketBufferError::LabelLengthTooBig { .. } && !names))
        }),
{
    let ghost buf0 = old(buffer).buff@;
    let ghost pos0 = old(buffer).pos as int;
    let ghost eq = encoded_questions(questions@.map_values(|q: DnsQuestion| q@));
    let ghost et = encoded_records(answers@.map_values(|rec: DnsRecord| rec@))
        + encoded_records(authorities@.map_values(|rec: DnsRecord| rec@))
        + encoded_records(resources@.map_values(|rec: DnsRecord| rec@));

    proof {
        lemma_questions_names_bridge(questions@);
    }

    match write_questions(buffer, questions) {
        Err(e2) => {
            return Err(e2);
        },
        Ok(()) => {},
    }
    let ghost b1 = buffer.buff@;
    proof {
        if questions@.len() == 0 {
            assert(eq =~= Seq::<u8>::empty());
            assert(b1 =~= buf0.take(pos0) + eq + buf0.skip(pos0 + eq.len()));
        }
    }

    match write_record_sections(buffer, answers, authorities, resources) {
        Err(e2) => {
            return Err(e2);
        },
        Ok(()) => {},
    }
    proof {
        lemma_splice_chain(buf0, b1, buffer.buff@, pos0, eq, et);
        if questions@.len() > 0 {
            let qs = questions@.map_values(|q: DnsQuestion| q@);
            crate::byte_packet_buffer::lemma_encoded_name_nonempty(qs[0].name);
            assert(eq == encoded_question(qs[0]) + encoded_questions(qs.skip(1)));
        }
    }
    Ok(())
}

/// Writes the three record sections of a message in order.
#[verifier::rlimit(100)]
#[verifier::spinoff_prover]
fn write_record_sections(
    buffer: &mut BytePacketBuffer,
    answers: &Vec<DnsRecord>,
    authorities: &Vec<DnsRecord>,
    resources: &Vec<DnsRecord>,
) -> (r: BytePacketBufferResult<()>)
    requires
        old(buffer).wf(),
        old(buffer).pos <= BUFFER_SIZE,
    ensures
        final(buffer).wf(),
        final(buffer).pos >= old(buffer).pos,
        ({
            let ea = encoded_records(answers@.map_values(|rec: DnsRecord| rec@));
            let eu = encoded_records(authorities@.map_values(|rec: DnsRecord| rec@));
            let er = encoded_records(resources@.map_values(|rec: DnsRecord| rec@));
            let et = ea + eu + er;
            let names = records_names_ok(answers@.map_values(|rec: DnsRecord| rec@))
                && records_names_ok(authorities@.map_values(|rec: DnsRecord| rec@))
                && records_names_ok(resources@.map_values(|rec: DnsRecord| rec@));
            &&& ((r is Ok) <==> (names && old(buffer).pos + et.len() <= BUFFER_SIZE))
            &&& (r is Ok ==> final(buffer).buff@ == old(buffer).buff@.take(
                old(buffer).pos as int,
            ) + et + old(buffer).buff@.skip(old(buffer).pos + et.len()) && final(buffer).pos
                == old(buffer).pos + et.len())
            &&& (r is Err ==> r->Err_0 == BytePacketBufferError::PosOutOfRange || (r->Err_0
                matches BytePacketBufferError::LabelLengthTooBig { .. } && !names))
        }),
{
    let ghost buf0 = old(buffer).buff@;
    let ghost pos0 = old(buffer).pos as int;
    let ghost ea = encoded_records(answers@.map_values(|rec: DnsRecord| rec@));
    let ghost eu = encoded_records(authorities@.map_values(|rec: DnsRecord| rec@));
    let ghost er = encoded_records(resources@.map_values(|rec: DnsRecord| rec@));

    proof {
        lemma_records_names_bridge(answers@);
        lemma_records_names_bridge(authorities@);
        lemma_records_names_bridge(resources@);
    }

    match write_records(buffer, answers) {
        Err(e2) => {
            return Err(e2);
        },
        Ok(_) => {},
    }
    let ghost b1 = buffer.buff@;
    proof {
        if ea.len() == 0 {
            assert(b1 =~= buf0.take(pos0) + ea + buf0.skip(pos0 + ea.len()));
        }
    }

    match write_records(buffer, authorities) {
        Err(e2) => {
            return Err(e2);
        },
        Ok(_) => {},
    }
    let ghost b2 = buffer.buff@;
    proof {
        if eu.len() == 0 {
            assert(b2 =~= b1.take(pos0 + ea.len()) + eu + b1.skip(pos0 + ea.len() + eu.len()));
        }
        lemma_splice_chain(buf0, b1, b2, pos0, ea, eu);
    }

    match write_records(buffer, resources) {
        Err(e2) => {
            return Err(e2);
        },
        Ok(_) => {},
    }
    proof {
        if er.len() == 0 {
            assert(buffer.buff@ =~= b2.take(pos0 + ea.len() + eu.len()) + er + b2.skip(
                pos0 + ea.len() + eu.len() + er.len(),
            ));
        }
        lemma_splice_chain(buf0, b2, buffer.buff@, pos0, ea + eu, er);
        assert(ea + eu + er =~= (ea + eu) + er);
    }
    Ok(())
}

/// The first IPv4 address among a run of records.
pub open spec fn first_a(rs: Seq<RecordV>) -> Option<u32>
    decreases rs.len(),
{
    if rs.len() == 0 {
        None
    } else {
        match rs[0] {
            RecordV::A { addr, .. } => Some(addr),
            _ => first_a(rs.skip(1)),
        }
    }
}

/// The first IPv4 address recorded for `host` in a run of records.
pub open spec fn first_a_for(rs: Seq<RecordV>, host: Seq<u8>) -> Option<u32>
    decreases rs.len(),
{
    if rs.len() == 0 {
        None
    } else {
        match rs[0] {
            RecordV::A { domain, addr, .. } => if domain == host {
                Some(addr)
            } else {
                first_a_for(rs.skip(1), host)
            },
            _ => first_a_for(rs.skip(1), host),
        }
    }
}

/// The address of the first NS for a suffix of `qname` whose host
/// already has an A record among `resources`.
pub open spec fn resolved_ns_for(auths: Seq<RecordV>, resources: Seq<RecordV>, qname: Seq<u8>)
    -> Option<u32>
    decreases auths.len(),
{
    if auths.len() == 0 {
        None
    } else {
        match auths[0] {
            RecordV::NS { domain, host, .. } => if domain.is_suffix_of(qname) {
                match first_a_for(resources, host) {
                    Some(addr) => Some(addr),
                    None => resolved_ns_for(auths.skip(1), resources, qname),
                }
            } else {
                resolved_ns_for(auths.skip(1), resources, qname)
            },
            _ => resolved_ns_for(auths.skip(1), resources, qname),
        }
    }
}

/// The host of the first NS for a suffix of `qname`.
pub open spec fn unresolved_ns_for(auths: Seq<RecordV>, qname: Seq<u8>) -> Option<Seq<u8>>
    decreases auths.len(),
{
    if auths.len() == 0 {
        None
    } else {
        match auths[0] {
            RecordV::NS { domain, host, .. } => if domain.is_suffix_of(qname) {
                Some(host)
            } else {
                unresolved_ns_for(auths.skip(1), qname)
            },
            _ => unresolved_ns_for(auths.skip(1), qname),
        }
    }
}

/// Whether two byte strings hold the same bytes.
fn bytes_eq(a: &Vec<u8>, b: &Vec<u8>) -> (r: bool)
    ensures
        r == (a@ == b@),
{
    if a.len() != b.len() {
        proof {
            assert(a@ != b@);
        }
        return false;
    }
    let mut i: usize = 0;
    while i < a.len()
        invariant
            a@.len() == b@.len(),
            i <= a@.len(),
            forall|j: int| 0 <= j < i ==> a@[j] == b@[j],
        decreases a@.len() - i,
    {
        if a[i] != b[i] {
            return false;
        }
        i = i + 1;
    }
    proof {
        assert(a@ =~= b@);
    }
    true
}

/// Whether `suffix` is a tail of `of`.
fn bytes_end_with(of: &Vec<u8>, suffix: &Vec<u8>) -> (r: bool)
    ensures
        r == suffix@.is_suffix_of(of@),
{
    if suffix.len() > of.len() {
        return false;
    }
    let off: usize = of.len() - suffix.len();
    let mut i: usize = 0;
    while i < suffix.len()
        invariant
            of@.len() <= usize::MAX,
            suffix@.len() <= of@.len(),
            off == of@.len() - suffix@.len(),
            i <= suffix@.len(),
            off + i <= of@.len(),
            forall|j: int| 0 <= j < i ==> of@[off + j] == suffix@[j],
        decreases suffix@.len() - i,
    {
        if of[off + i] != suffix[i] {
            proof {
                assert(of@.skip(off as int)[i as int] == of@[off + i]);
            }
            return false;
        }
        i = i + 1;
    }
    proof {
        assert(of@.skip(off as int) =~= suffix@);
    }
    true
}

impl DnsPacket {
    /// The first IPv4 address in the answer section, if any.
    pub fn get_first_a_record(&self) -> (r: Option<u32>)
        ensures
            r == first_a(self@.answers),
    {
        let ghost rs = self@.answers;
        proof {
            assert(rs.skip(0) =~= rs);
        }
        let mut i: usize = 0;
        while i < self.answers.len()
            invariant
                rs == self@.answers,
                i <= rs.len(),
                first_a(rs) == first_a(rs.skip(i as int)),
            decreases rs.len() - i,
        {
            proof {
                assert(rs.skip(i as int)[0] == rs[i as int]);
                assert(rs.skip(i as int).skip(1) =~= rs.skip(i + 1));
                assert(self.answers@[i as int]@ == rs[i as int]);
            }
            match &self.answers[i] {
                DnsRecord::A { addr, .. } => {
                    return Some(*addr);
                },
                _ => {},
            }
            i = i + 1;
        }
        proof {
            assert(rs.skip(rs.len() as int) =~= Seq::<RecordV>::empty());
        }
        None
    }

    /// The first IPv4 address among `resources` recorded for `host`.
    fn first_a_resource(&self, host: &Vec<u8>) -> (r: Option<u32>)
        ensures
            r == first_a_for(self@.resources, host@),
    {
        let ghost rs = self@.resources;
        proof {
            assert(rs.skip(0) =~= rs);
        }
        let mut i: usize = 0;
        while i < self.resources.len()
            invariant
                rs == self@.resources,
                i <= rs.len(),
                first_a_for(rs, host@) == first_a_for(rs.skip(i as int), host@),
            decreases rs.len() - i,
        {
            proof {
                assert(rs.skip(i as int)[0] == rs[i as int]);
                assert(rs.skip(i as int).skip(1) =~= rs.skip(i + 1));
                assert(self.resources@[i as int]@ == rs[i as int]);
            }
            match &self.resources[i] {
                DnsRecord::A { domain, addr, .. } => {
                    if bytes_eq(domain, host) {
                        return Some(*addr);
                    }
                },
                _ => {},
            }
            i = i + 1;
        }
        proof {
            assert(rs.skip(rs.len() as int) =~= Seq::<RecordV>::empty());
        }
        None
    }

    /// The address of the first NS in the authority section that
    /// serves a suffix of `qname` and whose host the additional
    /// section already resolves.
    pub fn get_resolved_ns(&self, qname: &Vec<u8>) -> (r: Option<u32>)
        ensures
            r == resolved_ns_for(self@.authorities, self@.resources, qname@),
    {
        let ghost auths = self@.authorities;
        proof {
            assert(auths.skip(0) =~= auths);
        }
        let mut i: usize = 0;
        while i < self.authorities.len()
            invariant
                auths == self@.authorities,
                i <= auths.len(),
                resolved_ns_for(auths, self@.resources, qname@) == resolved_ns_for(
                    auths.skip(i as int),
                    self@.resources,
                    qname@,
                ),
            decreases auths.len() - i,
        {
            proof {
                assert(auths.skip(i as int)[0] == auths[i as int]);
                assert(auths.skip(i as int).skip(1) =~= auths.skip(i + 1));
                assert(self.authorities@[i as int]@ == auths[i as int]);
            }
            match &self.authorities[i] {
                DnsRecord::NS { domain, host, .. } => {
                    if bytes_end_with(qname, domain) {
                        match self.first_a_resource(host) {
                            Some(addr) => {
                                return Some(addr);
                            },
                            None => {},
                        }
                    }
                },
                _ => {},
            }
            i = i + 1;
        }
        proof {
            assert(auths.skip(auths.len() as int) =~= Seq::<RecordV>::empty());
        }
        None
    }

    /// The host of the first NS in the authority section that serves
    /// a suffix of `qname`.
    pub fn get_unresolved_ns(&self, qname: &Vec<u8>) -> (r: Option<Vec<u8>>)
        ensures
            r is Some <==> unresolved_ns_for(self@.authorities, qname@) is Some,
            r matches Some(h) ==> unresolved_ns_for(self@.authorities, qname@) == Some(h@),
    {
        let ghost auths = self@.authorities;
        proof {
            assert(auths.skip(0) =~= auths);
        }
        let mut i: usize = 0;
        while i < self.authorities.len()
            invariant
                auths == self@.authorities,
                i <= auths.len(),
                unresolved_ns_for(auths, qname@) == unresolved_ns_for(
                    auths.skip(i as int),
                    qname@,
                ),
            decreases auths.len() - i,
        {
            proof {
                assert(auths.skip(i as int)[0] == auths[i as int]);
                assert(auths.skip(i as int).skip(1) =~= auths.skip(i + 1));
                assert(self.authorities@[i as int]@ == auths[i as int]);
            }
            match &self.authorities[i] {
                DnsRecord::NS { domain, host, .. } => {
                    if bytes_end_with(qname, domain) {
                        return Some(host.clone());
                    }
                },
                _ => {},
            }
            i = i + 1;
        }
        proof {
            assert(auths.skip(auths.len() as int) =~= Seq::<RecordV>::empty());
        }
        None
    }
}

} // verus!
