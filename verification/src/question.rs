//! The question section entry: a name and a query type.

use vstd::prelude::*;

use crate::buffer::be16;
use crate::buffer::BytePacketBuffer;
use crate::buffer::splice;
use crate::buffer::lemma_splice_extend;
use crate::buffer::u16_bytes;
use crate::buffer::lemma_be16_bytes;
use crate::name::enc_name;
use crate::name::lemma_enc_name_len;
use crate::name::lemma_read_encoded_name;
use crate::name::lower_seq;
use crate::name::name_sendable;
use crate::name::name_wf;
use crate::name::spec_read_qname;
use crate::types::DnsError;
use crate::types::QueryType;

verus! {

/// The mathematical shape of a question: its name and type.
pub ghost struct QuestionV {
    pub name: Seq<u8>,
    pub qtype: QueryType,
}

/// One entry of the question section.  The class is always IN on the
/// wire and is ignored when reading.
#[derive(Debug, Clone, PartialEq, Eq)]
pub struct DNSQuestion {
    /// The queried name, as dotted presentation octets.
    pub name: Vec<u8>,
    /// The queried record type.
    pub qtype: QueryType,
}

impl View for DNSQuestion {
    type V = QuestionV;

    open spec fn view(&self) -> QuestionV {
        QuestionV { name: self.name@, qtype: self.qtype }
    }
}

/// A question's octets: the name, the type, and class IN.
pub open spec fn enc_question(q: QuestionV) -> Seq<u8> {
    enc_name(q.name) + u16_bytes(q.qtype.spec_to_num()) + u16_bytes(1u16)
}

/// Reading a question at `p`: a name, then type and class.
pub open spec fn parse_question(buf: Seq<u8>, p: int) -> Result<(QuestionV, int), DnsError> {
    match spec_read_qname(buf, p) {
        Err(e) => Err(e),
        Ok((name, p1)) => if p1 + 4 <= 512 {
            Ok(
                (
                    QuestionV { name, qtype: QueryType::spec_from_num(be16(buf[p1], buf[p1 + 1])) },
                    p1 + 4,
                ),
            )
        } else {
            Err(DnsError::OutOfBounds)
        },
    }
}

/// A question survives the trip over the wire with its name lowercased.
pub open spec fn norm_question(q: QuestionV) -> QuestionV {
    QuestionV { name: lower_seq(q.name), qtype: q.qtype }
}

/// A question that encodes and decodes back to itself (modulo case):
/// a well-formed name and a type number that is its own round trip.
pub open spec fn question_wf(q: QuestionV) -> bool {
    &&& name_wf(q.name)
    &&& QueryType::spec_from_num(q.qtype.spec_to_num()) == q.qtype
}

impl DNSQuestion {
    pub fn new(name: Vec<u8>, qtype: QueryType) -> (r: DNSQuestion)
        ensures
            r@ == (QuestionV { name: name@, qtype }),
    {
        DNSQuestion { name, qtype }
    }

    /// Fill `self` from the question at the cursor.
    pub fn read(&mut self, buffer: &mut BytePacketBuffer) -> (r: Result<(), DnsError>)
        requires
            old(buffer).wf(),
        ensures
            final(buffer).wf(),
            final(buffer).buf@ == old(buffer).buf@,
            match r {
                Ok(()) => parse_question(old(buffer).buf@, old(buffer).pos as int) == Ok::<
                    (QuestionV, int),
                    DnsError,
                >((final(self)@, final(buffer).pos as int)),
                Err(e) => parse_question(old(buffer).buf@, old(buffer).pos as int) == Err::<
                    (QuestionV, int),
                    DnsError,
                >(e),
            },
    {
        let mut name: Vec<u8> = Vec::new();
        match buffer.read_qname(&mut name) {
            Ok(()) => {},
            Err(e) => {
                return Err(e);
            },
        }
        self.name = name;
        let t = match buffer.read_u16() {
            Ok(v) => v,
            Err(e) => {
                return Err(e);
            },
        };
        self.qtype = QueryType::from_num(t);
        // the class octets are read and ignored
        match buffer.read_u16() {
            Ok(_) => {},
            Err(e) => {
                return Err(e);
            },
        }
        Ok(())
    }

    /// Emit the question at the cursor, with class IN.
    pub fn write(&self, buffer: &mut BytePacketBuffer) -> (r: Result<(), DnsError>)
        requires
            old(buffer).wf(),
        ensures
            final(buffer).wf(),
            match r {
                Ok(()) => name_sendable(self.name@) && old(buffer).pos + enc_question(self@).len()
                    <= 512 && final(buffer).pos == old(buffer).pos + enc_question(self@).len()
                    && final(buffer).buf@ == splice(
                    old(buffer).buf@,
                    old(buffer).pos as int,
                    enc_question(self@),
                ),
                Err(e) => {
                    &&& !(name_sendable(self.name@) && old(buffer).pos + enc_question(
                        self@,
                    ).len() <= 512)
                    &&& (e == DnsError::LabelTooLong || e == DnsError::OutOfBounds)
                    &&& (e == DnsError::LabelTooLong ==> !name_sendable(self.name@))
                    &&& (e == DnsError::OutOfBounds ==> old(buffer).pos + enc_question(
                        self@,
                    ).len() > 512)
                },
            },
    {
        let ghost buf0 = old(buffer).buf@;
        let ghost p0 = old(buffer).pos as int;
        proof {
            lemma_enc_name_len(self.name@);
        }
        match buffer.write_qname(&self.name) {
            Ok(()) => {},
            Err(e) => {
                return Err(e);
            },
        }
        let t = self.qtype.to_num();
        match buffer.write_u16(t) {
            Ok(()) => {},
            Err(e) => {
                return Err(e);
            },
        }
        proof {
            lemma_splice_extend(buf0, p0, enc_name(self.name@), u16_bytes(t));
        }
        match buffer.write_u16(1) {
            Ok(()) => {},
            Err(e) => {
                return Err(e);
            },
        }
        proof {
            lemma_splice_extend(buf0, p0, enc_name(self.name@) + u16_bytes(t), u16_bytes(1u16));
        }
        Ok(())
    }
}

/// Reading back an encoded question: where the buffer holds
/// `enc_question(q)` at `p`, parsing returns the question with its
/// name lowercased.
pub proof fn lemma_parse_enc_question(buf: Seq<u8>, p: int, q: QuestionV)
    requires
        buf.len() == 512,
        question_wf(q),
        0 <= p,
        p + enc_question(q).len() <= 512,
        buf.subrange(p, p + enc_question(q).len()) == enc_question(q),
    ensures
        parse_question(buf, p) == Ok::<(QuestionV, int), DnsError>(
            (norm_question(q), p + enc_question(q).len()),
        ),
{
    let e = enc_question(q);
    let nl = q.name.len() as int + 2;
    lemma_enc_name_len(q.name);
    assert(e.len() == nl + 4);
    assert(buf.subrange(p, p + nl) =~= enc_name(q.name)) by {
        assert forall|k: int| 0 <= k < nl implies buf.subrange(p, p + nl)[k] == enc_name(
            q.name,
        )[k] by {
            assert(buf.subrange(p, p + nl)[k] == buf.subrange(p, p + e.len())[k]);
            assert(e[k] == enc_name(q.name)[k]);
        }
    }
    lemma_read_encoded_name(buf, p, q.name);
    let p1 = p + nl;
    assert(buf.subrange(p, p + e.len())[nl + 0] == buf[p1 + 0]);
    assert(buf.subrange(p, p + e.len())[nl + 1] == buf[p1 + 1]);
    assert(buf[p1 + 0] == e[nl + 0]);
    assert(buf[p1 + 1] == e[nl + 1]);
    assert(e[nl + 0] == u16_bytes(q.qtype.spec_to_num())[0]);
    assert(e[nl + 1] == u16_bytes(q.qtype.spec_to_num())[1]);
    lemma_be16_bytes(q.qtype.spec_to_num());
    assert(be16(buf[p1], buf[p1 + 1]) == q.qtype.spec_to_num());
}

} // verus!
