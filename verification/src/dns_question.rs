//! One entry of a message's question section.

use vstd::prelude::*;

use crate::byte_packet_buffer::{
    be16, encoded_name, lemma_name_roundtrip, lower, name_end_at, name_labels_nonempty, name_ok,
    name_parse_err, parse_name_at, u16_bytes, BytePacketBuffer, BytePacketBufferResult,
    NameParse, BUFFER_SIZE, MAX_JUMPS,
};
use crate::dns_header::lemma_be16_bytes;
use crate::errors::BytePacketBufferError;
use crate::query_type::QueryType;

verus! {

/// A queried name and type. The name is ASCII text, labels separated
/// by dots, lowercased on decode.
#[derive(Debug, Clone, PartialEq, Eq)]
pub struct DnsQuestion {
    pub name: Vec<u8>,
    pub query_type: QueryType,
}

/// The mathematical image of a question.
pub struct QuestionV {
    pub name: Seq<u8>,
    pub query_type: QueryType,
}

impl View for DnsQuestion {
    type V = QuestionV;

    open spec fn view(&self) -> QuestionV {
        QuestionV { name: self.name@, query_type: self.query_type }
    }
}

/// The wire bytes of a question: the name, the type code, and class 1.
pub open spec fn encoded_question(q: QuestionV) -> Seq<u8> {
    encoded_name(q.name) + u16_bytes(q.query_type.spec_to_num()) + u16_bytes(1)
}

/// A question whose name encodes and whose type survives its code.
pub open spec fn question_wf(q: QuestionV) -> bool {
    &&& name_ok(q.name)
    &&& q.query_type.canonical()
}

/// The question starting at `pos` and the position past its class
/// field, or `None` where reading it fails.
pub open spec fn parse_question_at(buf: Seq<u8>, pos: int) -> Option<(QuestionV, int)> {
    match parse_name_at(buf, pos, MAX_JUMPS as nat) {
        NameParse::Parsed { name } => {
            let e = name_end_at(buf, pos);
            if e + 2 <= BUFFER_SIZE {
                Some(
                    (
                        QuestionV {
                            name,
                            query_type: QueryType::spec_from_num(be16(buf[e], buf[e + 1])),
                        },
                        e + 4,
                    ),
                )
            } else {
                None
            }
        },
        _ => None,
    }
}

/// The error a failed question read reports.
pub open spec fn question_parse_err(buf: Seq<u8>, pos: int) -> BytePacketBufferError {
    match parse_name_at(buf, pos, MAX_JUMPS as nat) {
        NameParse::Parsed { name } => BytePacketBufferError::PosOutOfRange,
        other => name_parse_err(other),
    }
}

/// Round-trip law, question level: a well-formed question whose name
/// is canonical text reads back from its own encoding exactly, with
/// the cursor's counted position right behind it.
pub proof fn lemma_question_roundtrip(buf: Seq<u8>, pos: int, q: QuestionV)
    requires
        buf.len() == BUFFER_SIZE,
        0 <= pos,
        pos + encoded_question(q).len() <= BUFFER_SIZE,
        question_wf(q),
        name_labels_nonempty(q.name),
        forall|i: int| 0 <= i < q.name.len() ==> lower(#[trigger] q.name[i]) == q.name[i],
        buf.subrange(pos, pos + encoded_question(q).len()) == encoded_question(q),
    ensures
        parse_question_at(buf, pos) == Some((q, pos + encoded_question(q).len())),
{
    let e = encoded_question(q);
    let en = encoded_name(q.name);
    let t = q.query_type.spec_to_num();
    assert forall|k: int| 0 <= k < e.len() implies buf[pos + k] == e[k] by {
        assert(buf.subrange(pos, pos + e.len())[k] == buf[pos + k]);
    }
    assert(buf.subrange(pos, pos + en.len()) =~= en) by {
        assert forall|k: int|
            0 <= k < en.len() implies buf.subrange(pos, pos + en.len())[k] == en[k] by {
            assert(buf[pos + k] == e[k]);
            assert(e[k] == en[k]);
        }
    }
    lemma_name_roundtrip(buf, pos, q.name);
    let epos = pos + en.len();
    assert(buf[pos + en.len()] == e[en.len() as int]);
    assert(buf[pos + (en.len() + 1)] == e[en.len() as int + 1]);
    assert(e[en.len() as int] == (t / 256) as u8);
    assert(e[en.len() as int + 1] == (t % 256) as u8);
    lemma_be16_bytes(t);
    assert(QueryType::spec_from_num(be16(buf[epos], buf[epos + 1])) == q.query_type);
}

impl DnsQuestion {
    /// A question built from its parts.
    pub fn new(name: Vec<u8>, query_type: QueryType) -> (r: Self)
        ensures
            r@.name == name@,
            r@.query_type == query_type,
    {
        Self { name, query_type }
    }

    /// Reads the question at the buffer position into a fresh value.
    pub fn from_buffer(buffer: &mut BytePacketBuffer) -> (r: BytePacketBufferResult<Self>)
        requires
            old(buffer).wf(),
        ensures
            final(buffer).wf(),
            final(buffer).buff@ == old(buffer).buff@,
            parse_question_at(old(buffer).buff@, old(buffer).pos as int) matches Some((q, end))
                ==> (r matches Ok(res) && res@.name == q.name && res@.query_type == q.query_type
                && (end <= BUFFER_SIZE ==> final(buffer).pos == end)
                && (end > BUFFER_SIZE ==> final(buffer).pos == BUFFER_SIZE)),
            parse_question_at(old(buffer).buff@, old(buffer).pos as int) is None ==> r
                == Err::<DnsQuestion, BytePacketBufferError>(
                question_parse_err(old(buffer).buff@, old(buffer).pos as int),
            ),
    {
        let mut result = Self::new(Vec::new(), QueryType::UNKNOWN(0));
        result.read(buffer)?;
        Ok(result)
    }

    /// Reads the name, the type code, and the ignored class at the
    /// buffer position, appending the name to `self.name`. A class
    /// field that runs past the capacity is ignored, as the class
    /// itself is.
    pub fn read(&mut self, buffer: &mut BytePacketBuffer) -> (r: BytePacketBufferResult<()>)
        requires
            old(buffer).wf(),
        ensures
            final(buffer).wf(),
            final(buffer).buff@ == old(buffer).buff@,
            parse_question_at(old(buffer).buff@, old(buffer).pos as int) matches Some((q, end))
                ==> (r == Ok::<(), BytePacketBufferError>(()) && final(self).name@
                == old(self).name@ + q.name && final(self).query_type == q.query_type
                && (end <= BUFFER_SIZE ==> final(buffer).pos == end)
                && (end > BUFFER_SIZE ==> final(buffer).pos == BUFFER_SIZE)),
            parse_question_at(old(buffer).buff@, old(buffer).pos as int) is None ==> r
                == Err::<(), BytePacketBufferError>(
                question_parse_err(old(buffer).buff@, old(buffer).pos as int),
            ),
    {
        buffer.read_qname(&mut self.name)?;
        self.query_type = QueryType::from_num(buffer.read_u16()?);
        let _ = buffer.read_u16();  // class, read but not interpreted
        Ok(())
    }

    /// Writes the name, the type code, and class 1 at the buffer
    /// position.
    pub fn write(&self, buffer: &mut BytePacketBuffer) -> (r: BytePacketBufferResult<()>)
        requires
            old(buffer).wf(),
        ensures
            final(buffer).wf(),
            final(buffer).pos >= old(buffer).pos,
            (r is Ok) <==> (name_ok(self.name@) && old(
                buffer,
            ).pos + encoded_question(self@).len() <= BUFFER_SIZE),
            r is Ok ==> final(buffer).buff@ == old(
                buffer,
            ).buff@.take(old(buffer).pos as int) + encoded_question(self@) + old(
                buffer,
            ).buff@.skip(old(buffer).pos + encoded_question(self@).len()) && final(buffer).pos
                == old(buffer).pos + encoded_question(self@).len(),
            r is Err ==> r->Err_0 == BytePacketBufferError::PosOutOfRange || (r->Err_0 matches
                BytePacketBufferError::LabelLengthTooBig { .. } && !name_ok(self.name@)),
            (r is Err && name_ok(self.name@)) ==> r->Err_0
                == BytePacketBufferError::PosOutOfRange,
    {
        let ghost pos0 = old(buffer).pos as int;
        let ghost buf0 = old(buffer).buff@;
        let ghost e = encoded_question(self@);
        let ghost n = encoded_name(self.name@);

        buffer.write_qname(&self.name)?;
        proof {
            assert(buffer.buff@ =~= buf0.take(pos0) + e.take(n.len() as int) + buf0.skip(
                pos0 + n.len(),
            ));
        }

        let typenum: u16 = self.query_type.to_num();
        buffer.write_u16(typenum)?;
        proof {
            assert(e[n.len() as int] == (typenum / 256) as u8);
            assert(e[n.len() as int + 1] == (typenum % 256) as u8);
            assert(buffer.buff@ =~= buf0.take(pos0) + e.take(n.len() as int + 2) + buf0.skip(
                pos0 + n.len() + 2,
            ));
        }
        buffer.write_u16(1)?;
        proof {
            assert(e[n.len() as int + 2] == 0u8 && e[n.len() as int + 3] == 1u8);
            assert(e.take(n.len() as int + 4) =~= e);
            assert(buffer.buff@ =~= buf0.take(pos0) + e + buf0.skip(pos0 + e.len()));
        }
        Ok(())
    }
}

} // verus!
