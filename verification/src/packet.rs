//! The whole DNS message: header, questions, and the three record
//! sections, with its decode and encode, and the proof that decoding
//! an encoded message gives the message back.

use vstd::prelude::*;

use crate::buffer::BytePacketBuffer;
use crate::buffer::lemma_region_split;
use crate::buffer::lemma_splice_extend;
use crate::buffer::splice;
use crate::header::DNSHeader;
use crate::header::enc_header;
use crate::header::lemma_parse_enc_header;
use crate::header::parse_header;
use crate::question::DNSQuestion;
use crate::question::QuestionV;
use crate::question::enc_question;
use crate::question::lemma_parse_enc_question;
use crate::question::norm_question;
use crate::question::parse_question;
use crate::question::question_wf;
use crate::record::DNSRecord;
use crate::record::RecordV;
use crate::record::enc_record;
use crate::record::lemma_parse_enc_record;
use crate::record::norm_record;
use crate::record::parse_record;
use crate::record::record_sendable;
use crate::record::record_wf;
use crate::name::name_sendable;
use crate::types::DnsError;
use crate::types::QueryType;

verus! {

/// The mathematical shape of a whole message.
pub ghost struct PacketV {
    pub header: DNSHeader,
    pub questions: Seq<QuestionV>,
    pub answers: Seq<RecordV>,
    pub authorities: Seq<RecordV>,
    pub resources: Seq<RecordV>,
}

/// A DNS message: header, questions, answers, authorities and
/// additional resources, in on-wire order.
#[derive(Debug, Clone, PartialEq, Eq)]
pub struct DNSPacket {
    pub header: DNSHeader,
    pub questions: Vec<DNSQuestion>,
    pub answers: Vec<DNSRecord>,
    pub authorities: Vec<DNSRecord>,
    pub resources: Vec<DNSRecord>,
}

impl View for DNSPacket {
    type V = PacketV;

    open spec fn view(&self) -> PacketV {
        PacketV {
            header: self.header,
            questions: self.questions@.map_values(|q: DNSQuestion| q@),
            answers: self.answers@.map_values(|r: DNSRecord| r@),
            authorities: self.authorities@.map_values(|r: DNSRecord| r@),
            resources: self.resources@.map_values(|r: DNSRecord| r@),
        }
    }
}

/// The wire form of a run of questions.
pub open spec fn enc_questions(qs: Seq<QuestionV>) -> Seq<u8>
    decreases qs.len(),
{
    if qs.len() == 0 {
        Seq::<u8>::empty()
    } else {
        enc_question(qs[0]) + enc_questions(qs.drop_first())
    }
}

/// The wire form of a run of records; `UNKNOWN` members add nothing.
pub open spec fn enc_records(rs: Seq<RecordV>) -> Seq<u8>
    decreases rs.len(),
{
    if rs.len() == 0 {
        Seq::<u8>::empty()
    } else {
        enc_record(rs[0]) + enc_records(rs.drop_first())
    }
}

/// The header with its counts set to the section lengths, as an encode
/// emits it.
pub open spec fn header_synced(m: PacketV) -> DNSHeader {
    DNSHeader {
        questions: m.questions.len() as u16,
        answers: m.answers.len() as u16,
        authoritative_entries: m.authorities.len() as u16,
        resource_entries: m.resources.len() as u16,
        ..m.header
    }
}

/// A whole message on the wire: synced header, then the four sections.
pub open spec fn enc_message(m: PacketV) -> Seq<u8> {
    enc_header(header_synced(m)) + enc_questions(m.questions) + enc_records(m.answers)
        + enc_records(m.authorities) + enc_records(m.resources)
}

/// Reading `n` questions in a row.
pub open spec fn parse_questions(buf: Seq<u8>, p: int, n: int) -> Result<
    (Seq<QuestionV>, int),
    DnsError,
>
    decreases n,
{
    if n <= 0 {
        Ok((Seq::<QuestionV>::empty(), p))
    } else {
        match parse_question(buf, p) {
            Err(e) => Err(e),
            Ok((q, p1)) => match parse_questions(buf, p1, n - 1) {
                Err(e) => Err(e),
                Ok((qs, p2)) => Ok((seq![q] + qs, p2)),
            },
        }
    }
}

/// Reading `n` records in a row.
pub open spec fn parse_records(buf: Seq<u8>, p: int, n: int) -> Result<
    (Seq<RecordV>, int),
    DnsError,
>
    decreases n,
{
    if n <= 0 {
        Ok((Seq::<RecordV>::empty(), p))
    } else {
        match parse_record(buf, p) {
            Err(e) => Err(e),
            Ok((r, p1)) => match parse_records(buf, p1, n - 1) {
                Err(e) => Err(e),
                Ok((rs, p2)) => Ok((seq![r] + rs, p2)),
            },
        }
    }
}

/// Reading a whole message: header, then as many questions and records
/// as its counts declare.
pub open spec fn parse_message(buf: Seq<u8>, p: int) -> Result<(PacketV, int), DnsError> {
    match parse_header(buf, p) {
        Err(e) => Err(e),
        Ok((h, p1)) => match parse_questions(buf, p1, h.questions as int) {
            Err(e) => Err(e),
            Ok((qs, p2)) => match parse_records(buf, p2, h.answers as int) {
                Err(e) => Err(e),
                Ok((ans, p3)) => match parse_records(buf, p3, h.authoritative_entries as int) {
                    Err(e) => Err(e),
                    Ok((auth, p4)) => match parse_records(buf, p4, h.resource_entries as int) {
                        Err(e) => Err(e),
                        Ok((res, p5)) => Ok(
                            (
                                PacketV {
                                    header: h,
                                    questions: qs,
                                    answers: ans,
                                    authorities: auth,
                                    resources: res,
                                },
                                p5,
                            ),
                        ),
                    },
                },
            },
        },
    }
}

/// Every name of every question can be emitted.
pub open spec fn questions_sendable(qs: Seq<QuestionV>) -> bool {
    forall|k: int| 0 <= k < qs.len() ==> name_sendable((#[trigger] qs[k]).name)
}

/// Every name of every record can be emitted.
pub open spec fn records_sendable(rs: Seq<RecordV>) -> bool {
    forall|k: int| 0 <= k < rs.len() ==> record_sendable(#[trigger] rs[k])
}

/// The whole message can be emitted.
pub open spec fn msg_sendable(m: PacketV) -> bool {
    &&& questions_sendable(m.questions)
    &&& records_sendable(m.answers)
    &&& records_sendable(m.authorities)
    &&& records_sendable(m.resources)
}

/// A message that survives the round trip over the wire: a header whose
/// opcode fits, section lengths that fit their counts, well-formed
/// names, type numbers that are their own round trip, and none of the
/// opaque records that an encode drops.
pub open spec fn msg_wf(m: PacketV) -> bool {
    &&& m.header.wf()
    &&& m.questions.len() <= 0xFFFF
    &&& m.answers.len() <= 0xFFFF
    &&& m.authorities.len() <= 0xFFFF
    &&& m.resources.len() <= 0xFFFF
    &&& forall|k: int| 0 <= k < m.questions.len() ==> question_wf(#[trigger] m.questions[k])
    &&& forall|k: int| 0 <= k < m.answers.len() ==> record_wf(#[trigger] m.answers[k])
    &&& forall|k: int| 0 <= k < m.authorities.len() ==> record_wf(#[trigger] m.authorities[k])
    &&& forall|k: int| 0 <= k < m.resources.len() ==> record_wf(#[trigger] m.resources[k])
}

/// The message as a decode of its encoding returns it: counts synced,
/// names lowercased.
pub open spec fn norm_message(m: PacketV) -> PacketV {
    PacketV {
        header: header_synced(m),
        questions: m.questions.map_values(|q: QuestionV| norm_question(q)),
        answers: m.answers.map_values(|r: RecordV| norm_record(r)),
        authorities: m.authorities.map_values(|r: RecordV| norm_record(r)),
        resources: m.resources.map_values(|r: RecordV| norm_record(r)),
    }
}

/// Read `n` questions in a row from the buffer.
fn read_questions(buffer: &mut BytePacketBuffer, n: u16) -> (r: Result<Vec<DNSQuestion>, DnsError>)
    requires
        old(buffer).wf(),
    ensures
        final(buffer).wf(),
        final(buffer).buf@ == old(buffer).buf@,
        match r {
            Ok(v) => parse_questions(old(buffer).buf@, old(buffer).pos as int, n as int) == Ok::<
                (Seq<QuestionV>, int),
                DnsError,
            >((v@.map_values(|q: DNSQuestion| q@), final(buffer).pos as int)),
            Err(e) => parse_questions(old(buffer).buf@, old(buffer).pos as int, n as int) == Err::<
                (Seq<QuestionV>, int),
                DnsError,
            >(e),
        },
{
    let ghost buf0 = old(buffer).buf@;
    let ghost p0 = old(buffer).pos as int;
    let mut v: Vec<DNSQuestion> = Vec::new();
    let mut i: u16 = 0;
    proof {
        assert(v@.map_values(|q: DNSQuestion| q@) =~= Seq::<QuestionV>::empty());
    }
    #[verifier::loop_isolation(false)]
    while i < n
        invariant
            i <= n,
            buffer.wf(),
            buffer.buf@ == buf0,
            ({
                let acc = v@.map_values(|q: DNSQuestion| q@);
                match parse_questions(buf0, buffer.pos as int, n - i as int) {
                    Ok((qs, e)) => parse_questions(buf0, p0, n as int) == Ok::<
                        (Seq<QuestionV>, int),
                        DnsError,
                    >((acc + qs, e)),
                    Err(e) => parse_questions(buf0, p0, n as int) == Err::<
                        (Seq<QuestionV>, int),
                        DnsError,
                    >(e),
                }
            }),
        decreases n - i,
    {
        let mut question = DNSQuestion::new(Vec::new(), QueryType::UNKNOWN(0));
        let ghost acc_pre = v@.map_values(|q: DNSQuestion| q@);
        match question.read(buffer) {
            Ok(()) => {},
            Err(e) => {
                return Err(e);
            },
        }
        v.push(question);
        i = i + 1;
        proof {
            let acc = v@.map_values(|q: DNSQuestion| q@);
            assert(acc =~= acc_pre + seq![v@[v@.len() - 1]@]);
            if parse_questions(buf0, buffer.pos as int, n - i as int) is Ok {
                let (qs, e) = parse_questions(buf0, buffer.pos as int, n - i as int)->Ok_0;
                assert(acc_pre + (seq![v@[v@.len() - 1]@] + qs) =~= acc + qs);
            }
        }
    }
    proof {
        let acc = v@.map_values(|q: DNSQuestion| q@);
        assert(acc + Seq::<QuestionV>::empty() =~= acc);
    }
    Ok(v)
}

/// Read `n` records in a row from the buffer.
fn read_records(buffer: &mut BytePacketBuffer, n: u16) -> (r: Result<Vec<DNSRecord>, DnsError>)
    requires
        old(buffer).wf(),
    ensures
        final(buffer).wf(),
        final(buffer).buf@ == old(buffer).buf@,
        match r {
            Ok(v) => parse_records(old(buffer).buf@, old(buffer).pos as int, n as int) == Ok::<
                (Seq<RecordV>, int),
                DnsError,
            >((v@.map_values(|x: DNSRecord| x@), final(buffer).pos as int)),
            Err(e) => parse_records(old(buffer).buf@, old(buffer).pos as int, n as int) == Err::<
                (Seq<RecordV>, int),
                DnsError,
            >(e),
        },
{
    let ghost buf0 = old(buffer).buf@;
    let ghost p0 = old(buffer).pos as int;
    let mut v: Vec<DNSRecord> = Vec::new();
    let mut i: u16 = 0;
    proof {
        assert(v@.map_values(|x: DNSRecord| x@) =~= Seq::<RecordV>::empty());
    }
    #[verifier::loop_isolation(false)]
    while i < n
        invariant
            i <= n,
            buffer.wf(),
            buffer.buf@ == buf0,
            ({
                let acc = v@.map_values(|x: DNSRecord| x@);
                match parse_records(buf0, buffer.pos as int, n - i as int) {
                    Ok((rs, e)) => parse_records(buf0, p0, n as int) == Ok::<
                        (Seq<RecordV>, int),
                        DnsError,
                    >((acc + rs, e)),
                    Err(e) => parse_records(buf0, p0, n as int) == Err::<
                        (Seq<RecordV>, int),
                        DnsError,
                    >(e),
                }
            }),
        decreases n - i,
    {
        let ghost acc_pre = v@.map_values(|x: DNSRecord| x@);
        let rec = match DNSRecord::read(buffer) {
            Ok(rec) => rec,
            Err(e) => {
                return Err(e);
            },
        };
        v.push(rec);
        i = i + 1;
        proof {
            let acc = v@.map_values(|x: DNSRecord| x@);
            assert(acc =~= acc_pre + seq![v@[v@.len() - 1]@]);
            if parse_records(buf0, buffer.pos as int, n - i as int) is Ok {
                let (rs, e) = parse_records(buf0, buffer.pos as int, n - i as int)->Ok_0;
                assert(acc_pre + (seq![v@[v@.len() - 1]@] + rs) =~= acc + rs);
            }
        }
    }
    proof {
        let acc = v@.map_values(|x: DNSRecord| x@);
        assert(acc + Seq::<RecordV>::empty() =~= acc);
    }
    Ok(v)
}

impl DNSPacket {
    /// An empty message with an all-zero header.
    pub fn new() -> (r: DNSPacket)
        ensures
            r.header.id == 0,
            r.header.opcode == 0,
            r.header.rescode is NOERROR,
            !r.header.response,
            !r.header.recursion_desired,
            !r.header.recursion_available,
            !r.header.authoritative_answer,
            !r.header.truncated_message,
            !r.header.checking_disabled,
            !r.header.authed_data,
            !r.header.z,
            r.header.questions == 0,
            r.header.answers == 0,
            r.header.authoritative_entries == 0,
            r.header.resource_entries == 0,
            r@.questions.len() == 0,
            r@.answers.len() == 0,
            r@.authorities.len() == 0,
            r@.resources.len() == 0,
            r.header.wf(),
    {
        let r = DNSPacket {
            header: DNSHeader::new(),
            questions: Vec::new(),
            answers: Vec::new(),
            authorities: Vec::new(),
            resources: Vec::new(),
        };
        proof {
            assert(r@.questions =~= Seq::<QuestionV>::empty());
            assert(r@.answers =~= Seq::<RecordV>::empty());
            assert(r@.authorities =~= Seq::<RecordV>::empty());
            assert(r@.resources =~= Seq::<RecordV>::empty());
        }
        r
    }

    /// Decode the message at the cursor: header, then each section in
    /// the order and number the header declares.
    pub fn from_buffer(buffer: &mut BytePacketBuffer) -> (r: Result<DNSPacket, DnsError>)
        requires
            old(buffer).wf(),
        ensures
            final(buffer).wf(),
            final(buffer).buf@ == old(buffer).buf@,
            match r {
                Ok(pkt) => parse_message(old(buffer).buf@, old(buffer).pos as int) == Ok::<
                    (PacketV, int),
                    DnsError,
                >((pkt@, final(buffer).pos as int)) && pkt.header.wf(),
                Err(e) => parse_message(old(buffer).buf@, old(buffer).pos as int) == Err::<
                    (PacketV, int),
                    DnsError,
                >(e),
            },
    {
        let mut result = DNSPacket::new();
        match result.header.read(buffer) {
            Ok(()) => {},
            Err(e) => {
                return Err(e);
            },
        }
        result.questions = match read_questions(buffer, result.header.questions) {
            Ok(v) => v,
            Err(e) => {
                return Err(e);
            },
        };
        result.answers = match read_records(buffer, result.header.answers) {
            Ok(v) => v,
            Err(e) => {
                return Err(e);
            },
        };
        result.authorities = match read_records(buffer, result.header.authoritative_entries) {
            Ok(v) => v,
            Err(e) => {
                return Err(e);
            },
        };
        result.resources = match read_records(buffer, result.header.resource_entries) {
            Ok(v) => v,
            Err(e) => {
                return Err(e);
            },
        };
        Ok(result)
    }
}

/// `enc_questions` distributes over concatenation.
proof fn lemma_enc_questions_concat(a: Seq<QuestionV>, b: Seq<QuestionV>)
    ensures
        enc_questions(a + b) == enc_questions(a) + enc_questions(b),
    decreases a.len(),
{
    if a.len() == 0 {
        assert(a + b =~= b);
        assert(enc_questions(a) + enc_questions(b) =~= enc_questions(b));
    } else {
        assert((a + b)[0] == a[0]);
        assert((a + b).drop_first() =~= a.drop_first() + b);
        lemma_enc_questions_concat(a.drop_first(), b);
        assert(enc_question(a[0]) + (enc_questions(a.drop_first()) + enc_questions(b)) =~= (
        enc_question(a[0]) + enc_questions(a.drop_first())) + enc_questions(b));
    }
}

/// `enc_records` distributes over concatenation.
proof fn lemma_enc_records_concat(a: Seq<RecordV>, b: Seq<RecordV>)
    ensures
        enc_records(a + b) == enc_records(a) + enc_records(b),
    decreases a.len(),
{
    if a.len() == 0 {
        assert(a + b =~= b);
        assert(enc_records(a) + enc_records(b) =~= enc_records(b));
    } else {
        assert((a + b)[0] == a[0]);
        assert((a + b).drop_first() =~= a.drop_first() + b);
        lemma_enc_records_concat(a.drop_first(), b);
        assert(enc_record(a[0]) + (enc_records(a.drop_first()) + enc_records(b)) =~= (enc_record(
            a[0],
        ) + enc_records(a.drop_first())) + enc_records(b));
    }
}

/// Emit a run of questions at the cursor.
#[verifier::loop_isolation(false)]
#[verifier::rlimit(100)]
fn write_questions(buffer: &mut BytePacketBuffer, qs: &Vec<DNSQuestion>) -> (r: Result<
    (),
    DnsError,
>)
    requires
        old(buffer).wf(),
    ensures
        final(buffer).wf(),
        ({
            let qv = qs@.map_values(|q: DNSQuestion| q@);
            match r {
                Ok(()) => questions_sendable(qv) && old(buffer).pos + enc_questions(qv).len()
                    <= 512 && final(buffer).pos == old(buffer).pos + enc_questions(qv).len()
                    && final(buffer).buf@ == splice(
                    old(buffer).buf@,
                    old(buffer).pos as int,
                    enc_questions(qv),
                ),
                Err(e) => {
                    &&& !(questions_sendable(qv) && old(buffer).pos + enc_questions(qv).len()
                        <= 512)
                    &&& (e == DnsError::LabelTooLong || e == DnsError::OutOfBounds)
                    &&& (e == DnsError::LabelTooLong ==> !questions_sendable(qv))
                    &&& (e == DnsError::OutOfBounds ==> old(buffer).pos + enc_questions(qv).len()
                        > 512)
                },
            }
        }),
{
    let ghost buf0 = old(buffer).buf@;
    let ghost p0 = old(buffer).pos as int;
    let ghost qv = qs@.map_values(|q: DNSQuestion| q@);
    let n = qs.len();
    let mut i: usize = 0;
    proof {
        assert(qv.take(0) =~= Seq::<QuestionV>::empty());
        assert(buffer.buf@ =~= splice(buf0, p0, enc_questions(qv.take(0))));
    }
    while i < n
        invariant
            i <= n,
            buffer.wf(),
            buffer.pos as int == p0 + enc_questions(qv.take(i as int)).len(),
            buffer.buf@ == splice(buf0, p0, enc_questions(qv.take(i as int))),
            forall|k: int| 0 <= k < i ==> name_sendable((#[trigger] qv[k]).name),
        decreases n - i,
    {
        let ghost pre = qv.take(i as int);
        let ghost qi = qv[i as int];
        proof {
            assert(qv =~= pre + seq![qi] + qv.skip(i + 1 as int));
            lemma_enc_questions_concat(pre + seq![qi], qv.skip(i + 1 as int));
            lemma_enc_questions_concat(pre, seq![qi]);
            assert(enc_questions(seq![qi]) =~= enc_question(qi) + enc_questions(
                Seq::<QuestionV>::empty(),
            )) by {
                assert(seq![qi].drop_first() =~= Seq::<QuestionV>::empty());
            }
            assert(enc_questions(seq![qi]) =~= enc_question(qi));
            assert(enc_questions(qv).len() == enc_questions(pre).len() + enc_question(qi).len()
                + enc_questions(qv.skip(i + 1 as int)).len());
        }
        match qs[i].write(buffer) {
            Ok(()) => {
                proof {
                    assert(qv.take(i + 1 as int) =~= pre + seq![qi]);
                    lemma_splice_extend(buf0, p0, enc_questions(pre), enc_question(qi));
                }
            },
            Err(e) => {
                proof {
                    if e == DnsError::LabelTooLong {
                        assert(!name_sendable(qi.name));
                        assert(!questions_sendable(qv));
                    }
                }
                return Err(e);
            },
        }
        i = i + 1;
    }
    proof {
        assert(qv.take(n as int) =~= qv);
    }
    Ok(())
}

/// Emit a run of records at the cursor; `UNKNOWN` members are dropped.
#[verifier::loop_isolation(false)]
#[verifier::rlimit(100)]
fn write_records(buffer: &mut BytePacketBuffer, rs: &Vec<DNSRecord>) -> (r: Result<(), DnsError>)
    requires
        old(buffer).wf(),
    ensures
        final(buffer).wf(),
        ({
            let rv = rs@.map_values(|x: DNSRecord| x@);
            match r {
                Ok(()) => records_sendable(rv) && old(buffer).pos + enc_records(rv).len() <= 512
                    && final(buffer).pos == old(buffer).pos + enc_records(rv).len()
                    && final(buffer).buf@ == splice(
                    old(buffer).buf@,
                    old(buffer).pos as int,
                    enc_records(rv),
                ),
                Err(e) => {
                    &&& !(records_sendable(rv) && old(buffer).pos + enc_records(rv).len() <= 512)
                    &&& (e == DnsError::LabelTooLong || e == DnsError::OutOfBounds)
                    &&& (e == DnsError::LabelTooLong ==> !records_sendable(rv))
                    &&& (e == DnsError::OutOfBounds ==> old(buffer).pos + enc_records(rv).len()
                        > 512)
                },
            }
        }),
{
    let ghost buf0 = old(buffer).buf@;
    let ghost p0 = old(buffer).pos as int;
    let ghost rv = rs@.map_values(|x: DNSRecord| x@);
    let n = rs.len();
    let mut i: usize = 0;
    proof {
        assert(rv.take(0) =~= Seq::<RecordV>::empty());
        assert(buffer.buf@ =~= splice(buf0, p0, enc_records(rv.take(0))));
    }
    while i < n
        invariant
            i <= n,
            buffer.wf(),
            buffer.pos as int == p0 + enc_records(rv.take(i as int)).len(),
            buffer.buf@ == splice(buf0, p0, enc_records(rv.take(i as int))),
            forall|k: int| 0 <= k < i ==> record_sendable(#[trigger] rv[k]),
        decreases n - i,
    {
        let ghost pre = rv.take(i as int);
        let ghost ri = rv[i as int];
        proof {
            assert(rv =~= pre + seq![ri] + rv.skip(i + 1 as int));
            lemma_enc_records_concat(pre + seq![ri], rv.skip(i + 1 as int));
            lemma_enc_records_concat(pre, seq![ri]);
            assert(enc_records(seq![ri]) =~= enc_record(ri) + enc_records(
                Seq::<RecordV>::empty(),
            )) by {
                assert(seq![ri].drop_first() =~= Seq::<RecordV>::empty());
            }
            assert(enc_records(seq![ri]) =~= enc_record(ri));
            assert(enc_records(rv).len() == enc_records(pre).len() + enc_record(ri).len()
                + enc_records(rv.skip(i + 1 as int)).len());
        }
        match rs[i].write(buffer) {
            Ok(_) => {
                proof {
                    assert(rv.take(i + 1 as int) =~= pre + seq![ri]);
                    lemma_splice_extend(buf0, p0, enc_records(pre), enc_record(ri));
                }
            },
            Err(e) => {
                proof {
                    if e == DnsError::LabelTooLong {
                        assert(!record_sendable(ri));
                        assert(!records_sendable(rv));
                    }
                }
                return Err(e);
            },
        }
        i = i + 1;
    }
    proof {
        assert(rv.take(n as int) =~= rv);
    }
    Ok(())
}

impl DNSPacket {
    /// Encode the message at the cursor.  The header's counts are
    /// first set to the section lengths; they are authoritative on the
    /// wire.  Nothing is ever written past octet 512: a message that
    /// does not fit fails with `OutOfBounds`.
    #[verifier::rlimit(100)]
    pub fn write(&mut self, buffer: &mut BytePacketBuffer) -> (r: Result<(), DnsError>)
        requires
            old(buffer).wf(),
            old(self).header.wf(),
            old(self)@.questions.len() <= 0xFFFF,
            old(self)@.answers.len() <= 0xFFFF,
            old(self)@.authorities.len() <= 0xFFFF,
            old(self)@.resources.len() <= 0xFFFF,
        ensures
            final(buffer).wf(),
            final(self).header == header_synced(old(self)@),
            final(self).questions == old(self).questions,
            final(self).answers == old(self).answers,
            final(self).authorities == old(self).authorities,
            final(self).resources == old(self).resources,
            match r {
                Ok(()) => msg_sendable(old(self)@) && old(buffer).pos + enc_message(
                    old(self)@,
                ).len() <= 512 && final(buffer).pos == old(buffer).pos + enc_message(
                    old(self)@,
                ).len() && final(buffer).buf@ == splice(
                    old(buffer).buf@,
                    old(buffer).pos as int,
                    enc_message(old(self)@),
                ),
                Err(e) => {
                    &&& !(msg_sendable(old(self)@) && old(buffer).pos + enc_message(
                        old(self)@,
                    ).len() <= 512)
                    &&& (e == DnsError::LabelTooLong || e == DnsError::OutOfBounds)
                    &&& (e == DnsError::LabelTooLong ==> !msg_sendable(old(self)@))
                    &&& (e == DnsError::OutOfBounds ==> old(buffer).pos + enc_message(
                        old(self)@,
                    ).len() > 512)
                },
            },
    {
        let ghost m = old(self)@;
        let ghost buf0 = old(buffer).buf@;
        let ghost p0 = old(buffer).pos as int;
        self.header.questions = self.questions.len() as u16;
        self.header.answers = self.answers.len() as u16;
        self.header.authoritative_entries = self.authorities.len() as u16;
        self.header.resource_entries = self.resources.len() as u16;
        proof {
            assert(self.header == header_synced(m));
            assert(enc_message(m).len() == 12 + enc_questions(m.questions).len() + enc_records(
                m.answers,
            ).len() + enc_records(m.authorities).len() + enc_records(m.resources).len());
        }
        match self.header.write(buffer) {
            Ok(()) => {},
            Err(e) => {
                return Err(e);
            },
        }
        match write_questions(buffer, &self.questions) {
            Ok(()) => {},
            Err(e) => {
                return Err(e);
            },
        }
        proof {
            lemma_splice_extend(buf0, p0, enc_header(header_synced(m)), enc_questions(m.questions));
        }
        match write_records(buffer, &self.answers) {
            Ok(()) => {},
            Err(e) => {
                return Err(e);
            },
        }
        proof {
            lemma_splice_extend(
                buf0,
                p0,
                enc_header(header_synced(m)) + enc_questions(m.questions),
                enc_records(m.answers),
            );
        }
        match write_records(buffer, &self.authorities) {
            Ok(()) => {},
            Err(e) => {
                return Err(e);
            },
        }
        proof {
            lemma_splice_extend(
                buf0,
                p0,
                enc_header(header_synced(m)) + enc_questions(m.questions) + enc_records(m.answers),
                enc_records(m.authorities),
            );
        }
        match write_records(buffer, &self.resources) {
            Ok(()) => {},
            Err(e) => {
                return Err(e);
            },
        }
        proof {
            lemma_splice_extend(
                buf0,
                p0,
                enc_header(header_synced(m)) + enc_questions(m.questions) + enc_records(m.answers)
                    + enc_records(m.authorities),
                enc_records(m.resources),
            );
        }
        Ok(())
    }
}

/// Reading back a run of encoded questions.
proof fn lemma_parse_enc_questions(buf: Seq<u8>, p: int, qs: Seq<QuestionV>)
    requires
        buf.len() == 512,
        forall|k: int| 0 <= k < qs.len() ==> question_wf(#[trigger] qs[k]),
        0 <= p,
        p + enc_questions(qs).len() <= 512,
        buf.subrange(p, p + enc_questions(qs).len()) == enc_questions(qs),
    ensures
        parse_questions(buf, p, qs.len() as int) == Ok::<(Seq<QuestionV>, int), DnsError>(
            (qs.map_values(|q: QuestionV| norm_question(q)), p + enc_questions(qs).len()),
        ),
    decreases qs.len(),
{
    if qs.len() == 0 {
        assert(qs.map_values(|q: QuestionV| norm_question(q)) =~= Seq::<QuestionV>::empty());
    } else {
        let q0 = qs[0];
        let rest = qs.drop_first();
        assert(qs =~= seq![q0] + rest);
        assert(enc_questions(qs) == enc_question(q0) + enc_questions(rest));
        lemma_region_split(buf, p, enc_question(q0), enc_questions(rest));
        lemma_parse_enc_question(buf, p, q0);
        let p1 = p + enc_question(q0).len() as int;
        lemma_parse_enc_questions(buf, p1, rest);
        assert(qs.map_values(|q: QuestionV| norm_question(q)) =~= seq![norm_question(q0)]
            + rest.map_values(|q: QuestionV| norm_question(q)));
    }
}

/// Reading back a run of encoded records.
proof fn lemma_parse_enc_records(buf: Seq<u8>, p: int, rs: Seq<RecordV>)
    requires
        buf.len() == 512,
        forall|k: int| 0 <= k < rs.len() ==> record_wf(#[trigger] rs[k]),
        0 <= p,
        p + enc_records(rs).len() <= 512,
        buf.subrange(p, p + enc_records(rs).len()) == enc_records(rs),
    ensures
        parse_records(buf, p, rs.len() as int) == Ok::<(Seq<RecordV>, int), DnsError>(
            (rs.map_values(|r: RecordV| norm_record(r)), p + enc_records(rs).len()),
        ),
    decreases rs.len(),
{
    if rs.len() == 0 {
        assert(rs.map_values(|r: RecordV| norm_record(r)) =~= Seq::<RecordV>::empty());
    } else {
        let r0 = rs[0];
        let rest = rs.drop_first();
        assert(rs =~= seq![r0] + rest);
        assert(enc_records(rs) == enc_record(r0) + enc_records(rest));
        lemma_region_split(buf, p, enc_record(r0), enc_records(rest));
        lemma_parse_enc_record(buf, p, r0);
        let p1 = p + enc_record(r0).len() as int;
        lemma_parse_enc_records(buf, p1, rest);
        assert(rs.map_values(|r: RecordV| norm_record(r)) =~= seq![norm_record(r0)]
            + rest.map_values(|r: RecordV| norm_record(r)));
    }
}

/// Decoding inverts encoding.  For every well-formed message `m`:
/// where a buffer holds `enc_message(m)`, parsing it back yields `m`
/// with its header counts set to the section lengths and every name
/// lowercased — and nothing else changed.
#[verifier::rlimit(100)]
pub proof fn lemma_decode_inverts_encode(buf: Seq<u8>, p: int, m: PacketV)
    requires
        buf.len() == 512,
        msg_wf(m),
        0 <= p,
        p + enc_message(m).len() <= 512,
        buf.subrange(p, p + enc_message(m).len()) == enc_message(m),
    ensures
        parse_message(buf, p) == Ok::<(PacketV, int), DnsError>(
            (norm_message(m), p + enc_message(m).len()),
        ),
{
    let hs = header_synced(m);
    let e1 = enc_header(hs);
    let e2 = enc_questions(m.questions);
    let e3 = enc_records(m.answers);
    let e4 = enc_records(m.authorities);
    let e5 = enc_records(m.resources);
    assert(e1.len() == 12);
    assert(enc_message(m) =~= e1 + (e2 + (e3 + (e4 + e5))));
    lemma_region_split(buf, p, e1, e2 + (e3 + (e4 + e5)));
    assert(e2 + (e3 + (e4 + e5)) =~= e2 + (e3 + (e4 + e5)));
    lemma_region_split(buf, p + 12, e2, e3 + (e4 + e5));
    lemma_region_split(buf, p + 12 + e2.len(), e3, e4 + e5);
    lemma_region_split(buf, p + 12 + e2.len() + e3.len(), e4, e5);
    assert(hs.wf());
    lemma_parse_enc_header(buf, p, hs);
    assert(hs.questions as int == m.questions.len());
    assert(hs.answers as int == m.answers.len());
    assert(hs.authoritative_entries as int == m.authorities.len());
    assert(hs.resource_entries as int == m.resources.len());
    lemma_parse_enc_questions(buf, p + 12, m.questions);
    lemma_parse_enc_records(buf, p + 12 + e2.len(), m.answers);
    lemma_parse_enc_records(buf, p + 12 + e2.len() + e3.len(), m.authorities);
    lemma_parse_enc_records(buf, p + 12 + e2.len() + e3.len() + e4.len(), m.resources);
}

/// The round trip as the two codec functions state it: a buffer that
/// `write` just produced (its patch laid over any prior contents)
/// parses back to the message, counts synced and names lowercased.
pub proof fn lemma_written_message_reads_back(buf0: Seq<u8>, p: int, m: PacketV)
    requires
        buf0.len() == 512,
        msg_wf(m),
        0 <= p,
        p + enc_message(m).len() <= 512,
    ensures
        parse_message(splice(buf0, p, enc_message(m)), p) == Ok::<(PacketV, int), DnsError>(
            (norm_message(m), p + enc_message(m).len()),
        ),
{
    let buf = splice(buf0, p, enc_message(m));
    assert(buf.len() == 512);
    assert(buf.subrange(p, p + enc_message(m).len()) =~= enc_message(m));
    lemma_decode_inverts_encode(buf, p, m);
}

} // verus!
